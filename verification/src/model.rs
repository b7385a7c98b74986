//! The mathematical model of the polynomial algebra: ghost mirrors of the
//! executable types, with `Seq` in place of `Vec` and `Seq<char>` in place of
//! owned strings, together with the view functions that relate the two.
use vstd::prelude::*;

verus! {

broadcast use vstd::seq::group_seq_axioms, vstd::std_specs::vec::group_vec_axioms;

/// A named variable of a polynomial.
#[derive(Debug)]
pub struct Sym {
    pub name: String,
}

/// A named function applied to a polynomial parameter (symbolic, uninterpreted).
#[derive(Debug)]
pub struct Der {
    pub func: String,
    pub param: Poly,
}

/// The thing a factor raises to a power: a symbol, a derived term, or a
/// nested polynomial used as a single algebraic unit.
#[derive(Debug)]
pub enum Base {
    Sym(Sym),
    Der(Der),
    Poly(Poly),
}

/// A base raised to an integer power.
#[derive(Debug)]
pub struct Factor {
    pub base: Base,
    pub power: i32,
}

/// A monomial: a coefficient times a product of factors.
#[derive(Debug)]
pub struct Mono {
    pub coeff: i32,
    pub factors: Vec<Factor>,
}

/// A polynomial: a sum of monomials.
#[derive(Debug)]
pub struct Poly {
    pub terms: Vec<Mono>,
}

/// Model of `Base`.
#[verifier::ext_equal]
pub enum BaseS {
    Sym { name: Seq<char> },
    Der { func: Seq<char>, param: PolyS },
    Poly { poly: PolyS },
}

/// Model of `Factor`.
#[verifier::ext_equal]
pub struct FactorS {
    pub base: BaseS,
    pub power: i32,
}

/// Model of `Mono`.
#[verifier::ext_equal]
pub struct MonoS {
    pub coeff: i32,
    pub factors: Seq<FactorS>,
}

/// Model of `Poly`.
#[verifier::ext_equal]
pub struct PolyS {
    pub terms: Seq<MonoS>,
}

pub open spec fn view_base(b: Base) -> BaseS
    decreases b,
{
    match b {
        Base::Sym(s) => BaseS::Sym { name: s.name@ },
        Base::Der(d) => BaseS::Der { func: d.func@, param: view_poly(d.param) },
        Base::Poly(p) => BaseS::Poly { poly: view_poly(p) },
    }
}

pub open spec fn view_factor(f: Factor) -> FactorS
    decreases f,
{
    FactorS { base: view_base(f.base), power: f.power }
}

pub open spec fn view_factors(s: Seq<Factor>) -> Seq<FactorS>
    decreases s,
{
    if s.len() == 0 {
        Seq::empty()
    } else {
        view_factors(s.drop_last()).push(view_factor(s.last()))
    }
}

pub open spec fn view_mono(m: Mono) -> MonoS
    decreases m,
{
    proof {
        assert(decreases_to!(m => m.factors));
        assert(decreases_to!(m.factors => m.factors@));
    }
    MonoS { coeff: m.coeff, factors: view_factors(m.factors@) }
}

pub open spec fn view_monos(s: Seq<Mono>) -> Seq<MonoS>
    decreases s,
{
    if s.len() == 0 {
        Seq::empty()
    } else {
        view_monos(s.drop_last()).push(view_mono(s.last()))
    }
}

pub open spec fn view_poly(p: Poly) -> PolyS
    decreases p,
{
    proof {
        assert(decreases_to!(p => p.terms));
        assert(decreases_to!(p.terms => p.terms@));
    }
    PolyS { terms: view_monos(p.terms@) }
}

pub open spec fn view_polys(s: Seq<Poly>) -> Seq<PolyS>
    decreases s,
{
    if s.len() == 0 {
        Seq::empty()
    } else {
        view_polys(s.drop_last()).push(view_poly(s.last()))
    }
}

pub broadcast proof fn lemma_view_polys(s: Seq<Poly>)
    ensures
        (#[trigger] view_polys(s)).len() == s.len(),
        forall|i: int| 0 <= i < s.len() ==> #[trigger] view_polys(s)[i] == view_poly(s[i]),
    decreases s.len(),
{
    if s.len() > 0 {
        lemma_view_polys(s.drop_last());
        assert forall|i: int| 0 <= i < s.len() implies #[trigger] view_polys(s)[i] == view_poly(
            s[i],
        ) by {
            if i < s.len() - 1 {
                assert(s.drop_last()[i] == s[i]);
            }
        }
    }
}

pub open spec fn view_bases(s: Seq<Base>) -> Seq<BaseS>
    decreases s,
{
    if s.len() == 0 {
        Seq::empty()
    } else {
        view_bases(s.drop_last()).push(view_base(s.last()))
    }
}

pub broadcast proof fn lemma_view_bases(s: Seq<Base>)
    ensures
        (#[trigger] view_bases(s)).len() == s.len(),
        forall|i: int| 0 <= i < s.len() ==> #[trigger] view_bases(s)[i] == view_base(s[i]),
    decreases s.len(),
{
    if s.len() > 0 {
        lemma_view_bases(s.drop_last());
        assert forall|i: int| 0 <= i < s.len() implies #[trigger] view_bases(s)[i] == view_base(
            s[i],
        ) by {
            if i < s.len() - 1 {
                assert(s.drop_last()[i] == s[i]);
            }
        }
    }
}

pub broadcast proof fn lemma_view_factors(s: Seq<Factor>)
    ensures
        (#[trigger] view_factors(s)).len() == s.len(),
        forall|i: int| 0 <= i < s.len() ==> #[trigger] view_factors(s)[i] == view_factor(s[i]),
    decreases s.len(),
{
    if s.len() > 0 {
        lemma_view_factors(s.drop_last());
        assert forall|i: int| 0 <= i < s.len() implies #[trigger] view_factors(s)[i] == view_factor(
            s[i],
        ) by {
            if i < s.len() - 1 {
                assert(s.drop_last()[i] == s[i]);
            }
        }
    }
}

pub broadcast proof fn lemma_view_monos(s: Seq<Mono>)
    ensures
        (#[trigger] view_monos(s)).len() == s.len(),
        forall|i: int| 0 <= i < s.len() ==> #[trigger] view_monos(s)[i] == view_mono(s[i]),
    decreases s.len(),
{
    if s.len() > 0 {
        lemma_view_monos(s.drop_last());
        assert forall|i: int| 0 <= i < s.len() implies #[trigger] view_monos(s)[i] == view_mono(
            s[i],
        ) by {
            if i < s.len() - 1 {
                assert(s.drop_last()[i] == s[i]);
            }
        }
    }
}

pub proof fn lemma_view_factors_concat(a: Seq<Factor>, b: Seq<Factor>)
    ensures
        view_factors(a + b) == view_factors(a) + view_factors(b),
{
    lemma_view_factors(a);
    lemma_view_factors(b);
    lemma_view_factors(a + b);
    assert forall|k: int| 0 <= k < a.len() + b.len() implies #[trigger] view_factors(a + b)[k]
        == (view_factors(a) + view_factors(b))[k] by {
        if k < a.len() {
            assert((a + b)[k] == a[k]);
        } else {
            assert((a + b)[k] == b[k - a.len()]);
        }
    }
    assert(view_factors(a + b) =~= view_factors(a) + view_factors(b));
}

pub proof fn lemma_view_monos_concat(a: Seq<Mono>, b: Seq<Mono>)
    ensures
        view_monos(a + b) == view_monos(a) + view_monos(b),
{
    lemma_view_monos(a);
    lemma_view_monos(b);
    lemma_view_monos(a + b);
    assert forall|k: int| 0 <= k < a.len() + b.len() implies #[trigger] view_monos(a + b)[k]
        == (view_monos(a) + view_monos(b))[k] by {
        if k < a.len() {
            assert((a + b)[k] == a[k]);
        } else {
            assert((a + b)[k] == b[k - a.len()]);
        }
    }
    assert(view_monos(a + b) =~= view_monos(a) + view_monos(b));
}

impl View for Sym {
    type V = Seq<char>;

    open spec fn view(&self) -> Seq<char> {
        self.name@
    }
}

impl View for Base {
    type V = BaseS;

    open spec fn view(&self) -> BaseS {
        view_base(*self)
    }
}

impl View for Factor {
    type V = FactorS;

    open spec fn view(&self) -> FactorS {
        view_factor(*self)
    }
}

impl View for Mono {
    type V = MonoS;

    open spec fn view(&self) -> MonoS {
        view_mono(*self)
    }
}

impl View for Poly {
    type V = PolyS;

    open spec fn view(&self) -> PolyS {
        view_poly(*self)
    }
}

/// Structural equality of two bases.
pub(crate) fn eq_base(a: &Base, b: &Base) -> (r: bool)
    ensures
        r == (a@ == b@),
    decreases *a,
{
    match (a, b) {
        (Base::Sym(x), Base::Sym(y)) => x.name == y.name,
        (Base::Der(x), Base::Der(y)) => x.func == y.func && eq_poly(&x.param, &y.param),
        (Base::Poly(x), Base::Poly(y)) => eq_poly(x, y),
        _ => false,
    }
}

/// Structural equality of two factors.
pub(crate) fn eq_factor(a: &Factor, b: &Factor) -> (r: bool)
    ensures
        r == (a@ == b@),
    decreases *a,
{
    eq_base(&a.base, &b.base) && a.power == b.power
}

/// Structural equality of two factor vectors, element by element.
pub(crate) fn eq_factor_vecs(a: &Vec<Factor>, b: &Vec<Factor>) -> (r: bool)
    ensures
        r == (view_factors(a@) == view_factors(b@)),
    decreases a@,
{
    proof {
        lemma_view_factors(a@);
        lemma_view_factors(b@);
    }
    if a.len() != b.len() {
        return false;
    }
    let n = a.len();
    let mut i: usize = 0;
    while i < n
        invariant
            n == a@.len() == b@.len(),
            i <= n,
            forall|j: int| 0 <= j < i ==> (#[trigger] a@[j])@ == b@[j]@,
            forall|j: int| 0 <= j < a@.len() ==> #[trigger] view_factors(a@)[j] == a@[j]@,
            forall|j: int| 0 <= j < b@.len() ==> #[trigger] view_factors(b@)[j] == b@[j]@,
            view_factors(a@).len() == a@.len(),
            view_factors(b@).len() == b@.len(),
        decreases n - i,
    {
        proof {
            assert(decreases_to!(a@ => a@[i as int]));
        }
        if !eq_factor(&a[i], &b[i]) {
            proof {
                assert(view_factors(a@)[i as int] != view_factors(b@)[i as int]);
            }
            return false;
        }
        i += 1;
    }
    proof {
        assert(view_factors(a@) =~= view_factors(b@));
    }
    true
}

/// Structural equality of two monomials.
pub(crate) fn eq_mono(a: &Mono, b: &Mono) -> (r: bool)
    ensures
        r == (a@ == b@),
    decreases *a,
{
    proof {
        assert(decreases_to!(*a => a.factors));
        assert(decreases_to!(a.factors => a.factors@));
    }
    a.coeff == b.coeff && eq_factor_vecs(&a.factors, &b.factors)
}

/// Structural equality of two monomial vectors, element by element.
pub(crate) fn eq_mono_vecs(a: &Vec<Mono>, b: &Vec<Mono>) -> (r: bool)
    ensures
        r == (view_monos(a@) == view_monos(b@)),
    decreases a@,
{
    proof {
        lemma_view_monos(a@);
        lemma_view_monos(b@);
    }
    if a.len() != b.len() {
        return false;
    }
    let n = a.len();
    let mut i: usize = 0;
    while i < n
        invariant
            n == a@.len() == b@.len(),
            i <= n,
            forall|j: int| 0 <= j < i ==> (#[trigger] a@[j])@ == b@[j]@,
            forall|j: int| 0 <= j < a@.len() ==> #[trigger] view_monos(a@)[j] == a@[j]@,
            forall|j: int| 0 <= j < b@.len() ==> #[trigger] view_monos(b@)[j] == b@[j]@,
            view_monos(a@).len() == a@.len(),
            view_monos(b@).len() == b@.len(),
        decreases n - i,
    {
        proof {
            assert(decreases_to!(a@ => a@[i as int]));
        }
        if !eq_mono(&a[i], &b[i]) {
            proof {
                assert(view_monos(a@)[i as int] != view_monos(b@)[i as int]);
            }
            return false;
        }
        i += 1;
    }
    proof {
        assert(view_monos(a@) =~= view_monos(b@));
    }
    true
}

/// Structural equality of two polynomials.
pub(crate) fn eq_poly(a: &Poly, b: &Poly) -> (r: bool)
    ensures
        r == (a@ == b@),
    decreases *a,
{
    proof {
        assert(decreases_to!(*a => a.terms));
        assert(decreases_to!(a.terms => a.terms@));
    }
    eq_mono_vecs(&a.terms, &b.terms)
}

impl PartialEq for Sym {
    fn eq(&self, other: &Sym) -> (r: bool) {
        self.name == other.name
    }
}

impl vstd::std_specs::cmp::PartialEqSpecImpl for Sym {
    open spec fn obeys_eq_spec() -> bool {
        true
    }

    open spec fn eq_spec(&self, other: &Sym) -> bool {
        self@ == other@
    }
}

impl PartialEq for Base {
    fn eq(&self, other: &Base) -> (r: bool) {
        eq_base(self, other)
    }
}

impl vstd::std_specs::cmp::PartialEqSpecImpl for Base {
    open spec fn obeys_eq_spec() -> bool {
        true
    }

    open spec fn eq_spec(&self, other: &Base) -> bool {
        self@ == other@
    }
}

impl PartialEq for Factor {
    fn eq(&self, other: &Factor) -> (r: bool) {
        eq_factor(self, other)
    }
}

impl vstd::std_specs::cmp::PartialEqSpecImpl for Factor {
    open spec fn obeys_eq_spec() -> bool {
        true
    }

    open spec fn eq_spec(&self, other: &Factor) -> bool {
        self@ == other@
    }
}

impl PartialEq for Mono {
    fn eq(&self, other: &Mono) -> (r: bool) {
        eq_mono(self, other)
    }
}

impl vstd::std_specs::cmp::PartialEqSpecImpl for Mono {
    open spec fn obeys_eq_spec() -> bool {
        true
    }

    open spec fn eq_spec(&self, other: &Mono) -> bool {
        self@ == other@
    }
}

impl PartialEq for Poly {
    fn eq(&self, other: &Poly) -> (r: bool) {
        eq_poly(self, other)
    }
}

impl vstd::std_specs::cmp::PartialEqSpecImpl for Poly {
    open spec fn obeys_eq_spec() -> bool {
        true
    }

    open spec fn eq_spec(&self, other: &Poly) -> bool {
        self@ == other@
    }
}

impl Sym {
    /// An independent copy with the same name.
    pub fn deep_clone(&self) -> (r: Sym)
        ensures
            r@ == self@,
    {
        Sym { name: self.name.clone() }
    }
}

impl Base {
    /// An independent copy with the same model.
    pub fn deep_clone(&self) -> (r: Base)
        ensures
            r@ == self@,
        decreases *self,
    {
        match self {
            Base::Sym(s) => Base::Sym(s.deep_clone()),
            Base::Der(d) => Base::Der(Der { func: d.func.clone(), param: d.param.deep_clone() }),
            Base::Poly(p) => Base::Poly(p.deep_clone()),
        }
    }
}

impl Factor {
    /// An independent copy with the same model.
    pub fn deep_clone(&self) -> (r: Factor)
        ensures
            r@ == self@,
        decreases *self,
    {
        Factor { base: self.base.deep_clone(), power: self.power }
    }
}

impl Mono {
    /// An independent copy with the same model.
    pub fn deep_clone(&self) -> (r: Mono)
        ensures
            r@ == self@,
        decreases *self,
    {
        let mut factors: Vec<Factor> = Vec::new();
        let n = self.factors.len();
        let mut i: usize = 0;
        while i < n
            invariant
                n == self.factors.len(),
                i <= n,
                factors@.len() == i as int,
                forall|j: int| 0 <= j < i ==> factors@[j]@ == self.factors@[j]@,
            decreases n - i,
        {
            proof {
                assert(decreases_to!(*self => self.factors));
                assert(decreases_to!(self.factors => self.factors@));
                assert(decreases_to!(self.factors@ => self.factors@[i as int]));
            }
            let f = self.factors[i].deep_clone();
            factors.push(f);
            i += 1;
        }
        let r = Mono { coeff: self.coeff, factors };
        proof {
            lemma_view_factors(r.factors@);
            lemma_view_factors(self.factors@);
            assert(view_factors(r.factors@) =~= view_factors(self.factors@));
        }
        r
    }
}

impl Poly {
    /// An independent copy with the same model.
    pub fn deep_clone(&self) -> (r: Poly)
        ensures
            r@ == self@,
        decreases *self,
    {
        let mut terms: Vec<Mono> = Vec::new();
        let n = self.terms.len();
        let mut i: usize = 0;
        while i < n
            invariant
                n == self.terms.len(),
                i <= n,
                terms@.len() == i as int,
                forall|j: int| 0 <= j < i ==> terms@[j]@ == self.terms@[j]@,
            decreases n - i,
        {
            proof {
                assert(decreases_to!(*self => self.terms));
                assert(decreases_to!(self.terms => self.terms@));
                assert(decreases_to!(self.terms@ => self.terms@[i as int]));
            }
            let t = self.terms[i].deep_clone();
            terms.push(t);
            i += 1;
        }
        let r = Poly { terms };
        proof {
            lemma_view_monos(r.terms@);
            lemma_view_monos(self.terms@);
            assert(view_monos(r.terms@) =~= view_monos(self.terms@));
        }
        r
    }
}

} // verus!
