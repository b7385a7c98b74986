use vstd::prelude::*;

pub mod canon;
pub mod display;
pub mod laws;
pub mod model;
pub mod order;
pub mod poly;
pub mod transform;
pub mod vector;

pub use model::Base;
pub use model::Der;
pub use model::Factor;
pub use model::Mono;
pub use model::Poly;
pub use model::Sym;
pub use order::Cmp;
pub use vector::Vector;
pub use vector::Vector3;

verus! {

} // verus!
