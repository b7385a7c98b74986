//! A small fixed-size vector of polynomials: the container the algebraic
//! derivations use for points and normals.  It consumes the polynomial
//! engine only through its ring operations.
use vstd::prelude::*;

use crate::model::{lemma_view_polys, view_polys, Poly, PolyS};
use crate::poly::{spec_poly_add, spec_poly_mul, spec_poly_neg, spec_poly_sub};

verus! {

broadcast use vstd::seq::group_seq_axioms, vstd::std_specs::vec::group_vec_axioms;

/// A vector of polynomial components.
#[derive(Debug)]
pub struct Vector {
    pub data: Vec<Poly>,
}

/// A three-component vector.
pub type Vector3 = Vector;

impl View for Vector {
    type V = Seq<PolyS>;

    open spec fn view(&self) -> Seq<PolyS> {
        view_polys(self.data@)
    }
}

/// The running left-to-right sum of the componentwise products.
pub open spec fn spec_dot(a: Seq<PolyS>, b: Seq<PolyS>) -> PolyS
    decreases a,
{
    if a.len() == 0 || b.len() == 0 {
        PolyS { terms: Seq::empty() }
    } else {
        spec_poly_add(spec_dot(a.drop_last(), b.drop_last()), spec_poly_mul(a.last(), b.last()))
    }
}

impl PartialEq for Vector {
    fn eq(&self, other: &Vector) -> (r: bool) {
        proof {
            lemma_view_polys(self.data@);
            lemma_view_polys(other.data@);
        }
        if self.data.len() != other.data.len() {
            proof {
                assert(self@.len() != other@.len());
            }
            return false;
        }
        let n = self.data.len();
        let mut i: usize = 0;
        while i < n
            invariant
                i <= n,
                n == self.data.len() == other.data.len(),
                self@.len() == n as int,
                other@.len() == n as int,
                forall|k: int| 0 <= k < n ==> #[trigger] self@[k] == self.data@[k]@,
                forall|k: int| 0 <= k < n ==> #[trigger] other@[k] == other.data@[k]@,
                forall|k: int| 0 <= k < i ==> #[trigger] self.data@[k]@ == other.data@[k]@,
            decreases n - i,
        {
            if !(self.data[i] == other.data[i]) {
                proof {
                    assert(self@[i as int] != other@[i as int]);
                }
                return false;
            }
            i += 1;
        }
        proof {
            assert forall|k: int| 0 <= k < n implies #[trigger] self@[k] == other@[k] by {}
            assert(self@ =~= other@);
        }
        true
    }
}

impl vstd::std_specs::cmp::PartialEqSpecImpl for Vector {
    open spec fn obeys_eq_spec() -> bool {
        true
    }

    open spec fn eq_spec(&self, other: &Vector) -> bool {
        self@ == other@
    }
}

impl Vector3 {
    /// A three-component vector from its components.
    pub fn new(x: Poly, y: Poly, z: Poly) -> (r: Vector)
        ensures
            r@ =~= seq![x@, y@, z@],
    {
        let mut data: Vec<Poly> = Vec::new();
        data.push(x);
        data.push(y);
        data.push(z);
        let r = Vector { data };
        proof {
            lemma_view_polys(r.data@);
        }
        r
    }

    /// The first component.
    pub fn x(&self) -> (r: Poly)
        requires
            self@.len() == 3,
        ensures
            r@ == self@[0],
    {
        proof {
            lemma_view_polys(self.data@);
        }
        self.data[0].deep_clone()
    }

    /// The second component.
    pub fn y(&self) -> (r: Poly)
        requires
            self@.len() == 3,
        ensures
            r@ == self@[1],
    {
        proof {
            lemma_view_polys(self.data@);
        }
        self.data[1].deep_clone()
    }

    /// The third component.
    pub fn z(&self) -> (r: Poly)
        requires
            self@.len() == 3,
        ensures
            r@ == self@[2],
    {
        proof {
            lemma_view_polys(self.data@);
        }
        self.data[2].deep_clone()
    }
}

impl Vector {
    /// The componentwise sum.
    pub fn add(&self, rhs: &Vector) -> (r: Vector)
        requires
            self@.len() == rhs@.len(),
        ensures
            r@.len() == self@.len(),
            forall|k: int| 0 <= k < self@.len() ==> #[trigger] r@[k] == spec_poly_add(
                self@[k],
                rhs@[k],
            ),
    {
        proof {
            lemma_view_polys(self.data@);
            lemma_view_polys(rhs.data@);
        }
        let n = self.data.len();
        let mut data: Vec<Poly> = Vec::new();
        let mut i: usize = 0;
        while i < n
            invariant
                i <= n,
                n == self.data.len() == rhs.data.len(),
                self@.len() == n as int,
                rhs@.len() == n as int,
                forall|k: int| 0 <= k < n ==> #[trigger] self@[k] == self.data@[k]@,
                forall|k: int| 0 <= k < n ==> #[trigger] rhs@[k] == rhs.data@[k]@,
                data@.len() == i as int,
                forall|k: int| 0 <= k < i ==> #[trigger] data@[k]@ == spec_poly_add(
                    self@[k],
                    rhs@[k],
                ),
            decreases n - i,
        {
            let p = self.data[i].deep_clone().add(rhs.data[i].deep_clone());
            data.push(p);
            i += 1;
        }
        let r = Vector { data };
        proof {
            lemma_view_polys(r.data@);
            assert forall|k: int| 0 <= k < n implies #[trigger] r@[k] == r.data@[k]@ by {}
        }
        r
    }

    /// The componentwise difference.
    pub fn sub(&self, rhs: &Vector) -> (r: Vector)
        requires
            self@.len() == rhs@.len(),
        ensures
            r@.len() == self@.len(),
            forall|k: int| 0 <= k < self@.len() ==> #[trigger] r@[k] == spec_poly_sub(
                self@[k],
                rhs@[k],
            ),
    {
        proof {
            lemma_view_polys(self.data@);
            lemma_view_polys(rhs.data@);
        }
        let n = self.data.len();
        let mut data: Vec<Poly> = Vec::new();
        let mut i: usize = 0;
        while i < n
            invariant
                i <= n,
                n == self.data.len() == rhs.data.len(),
                self@.len() == n as int,
                rhs@.len() == n as int,
                forall|k: int| 0 <= k < n ==> #[trigger] self@[k] == self.data@[k]@,
                forall|k: int| 0 <= k < n ==> #[trigger] rhs@[k] == rhs.data@[k]@,
                data@.len() == i as int,
                forall|k: int| 0 <= k < i ==> #[trigger] data@[k]@ == spec_poly_sub(
                    self@[k],
                    rhs@[k],
                ),
            decreases n - i,
        {
            let p = self.data[i].deep_clone().sub(rhs.data[i].deep_clone());
            data.push(p);
            i += 1;
        }
        let r = Vector { data };
        proof {
            lemma_view_polys(r.data@);
            assert forall|k: int| 0 <= k < n implies #[trigger] r@[k] == r.data@[k]@ by {}
        }
        r
    }

    /// The componentwise negation.
    pub fn neg(&self) -> (r: Vector)
        ensures
            r@.len() == self@.len(),
            forall|k: int| 0 <= k < self@.len() ==> #[trigger] r@[k] == spec_poly_neg(self@[k]),
    {
        proof {
            lemma_view_polys(self.data@);
        }
        let n = self.data.len();
        let mut data: Vec<Poly> = Vec::new();
        let mut i: usize = 0;
        while i < n
            invariant
                i <= n,
                n == self.data.len(),
                self@.len() == n as int,
                forall|k: int| 0 <= k < n ==> #[trigger] self@[k] == self.data@[k]@,
                data@.len() == i as int,
                forall|k: int| 0 <= k < i ==> #[trigger] data@[k]@ == spec_poly_neg(self@[k]),
            decreases n - i,
        {
            let p = self.data[i].deep_clone().neg();
            data.push(p);
            i += 1;
        }
        let r = Vector { data };
        proof {
            lemma_view_polys(r.data@);
            assert forall|k: int| 0 <= k < n implies #[trigger] r@[k] == r.data@[k]@ by {}
        }
        r
    }

    /// The componentwise scaling by one polynomial.
    pub fn mul(&self, rhs: &Poly) -> (r: Vector)
        ensures
            r@.len() == self@.len(),
            forall|k: int| 0 <= k < self@.len() ==> #[trigger] r@[k] == spec_poly_mul(
                self@[k],
                rhs@,
            ),
    {
        proof {
            lemma_view_polys(self.data@);
        }
        let n = self.data.len();
        let mut data: Vec<Poly> = Vec::new();
        let mut i: usize = 0;
        while i < n
            invariant
                i <= n,
                n == self.data.len(),
                self@.len() == n as int,
                forall|k: int| 0 <= k < n ==> #[trigger] self@[k] == self.data@[k]@,
                data@.len() == i as int,
                forall|k: int| 0 <= k < i ==> #[trigger] data@[k]@ == spec_poly_mul(
                    self@[k],
                    rhs@,
                ),
            decreases n - i,
        {
            let p = self.data[i].deep_clone().mul(rhs.deep_clone());
            data.push(p);
            i += 1;
        }
        let r = Vector { data };
        proof {
            lemma_view_polys(r.data@);
            assert forall|k: int| 0 <= k < n implies #[trigger] r@[k] == r.data@[k]@ by {}
        }
        r
    }

    /// The inner product: the sum of the componentwise products.
    pub fn dot(&self, other: &Vector) -> (r: Poly)
        requires
            self@.len() == other@.len(),
        ensures
            r@ == spec_dot(self@, other@),
    {
        proof {
            lemma_view_polys(self.data@);
            lemma_view_polys(other.data@);
        }
        let n = self.data.len();
        let mut sum = Poly::zero();
        let mut i: usize = 0;
        proof {
            assert(self@.take(0) =~= Seq::<PolyS>::empty());
            assert(spec_dot(self@.take(0), other@.take(0)) =~= (PolyS { terms: Seq::empty() }));
            assert(sum@ =~= (PolyS { terms: Seq::empty() }));
        }
        while i < n
            invariant
                i <= n,
                n == self.data.len() == other.data.len(),
                self@.len() == n as int,
                other@.len() == n as int,
                forall|k: int| 0 <= k < n ==> #[trigger] self@[k] == self.data@[k]@,
                forall|k: int| 0 <= k < n ==> #[trigger] other@[k] == other.data@[k]@,
                sum@ == spec_dot(self@.take(i as int), other@.take(i as int)),
            decreases n - i,
        {
            let p = self.data[i].deep_clone().mul(other.data[i].deep_clone());
            proof {
                assert(self@.take(i + 1).drop_last() =~= self@.take(i as int));
                assert(other@.take(i + 1).drop_last() =~= other@.take(i as int));
                assert(self@.take(i + 1).last() == self@[i as int]);
                assert(other@.take(i + 1).last() == other@[i as int]);
            }
            sum = sum.add(p);
            i += 1;
        }
        proof {
            assert(self@.take(n as int) =~= self@);
            assert(other@.take(n as int) =~= other@);
        }
        sum
    }

}

impl Vector3 {
    /// The cross product of two three-component vectors.
    #[verifier::rlimit(100)]
    pub fn cross(&self, rhs: &Vector) -> (r: Vector)
        requires
            self@.len() == 3,
            rhs@.len() == 3,
        ensures
            r@.len() == 3,
            r@[0] == spec_poly_sub(
                spec_poly_mul(self@[1], rhs@[2]),
                spec_poly_mul(rhs@[1], self@[2]),
            ),
            r@[1] == spec_poly_sub(
                spec_poly_mul(self@[2], rhs@[0]),
                spec_poly_mul(rhs@[2], self@[0]),
            ),
            r@[2] == spec_poly_sub(
                spec_poly_mul(self@[0], rhs@[1]),
                spec_poly_mul(rhs@[0], self@[1]),
            ),
    {
        let c0 = self.y().mul(rhs.z()).sub(rhs.y().mul(self.z()));
        let c1 = self.z().mul(rhs.x()).sub(rhs.z().mul(self.x()));
        let c2 = self.x().mul(rhs.y()).sub(rhs.x().mul(self.y()));
        Vector::new(c0, c1, c2)
    }
}

} // verus!
