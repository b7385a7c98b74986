//! The total order over bases, factors, monomials and polynomials that makes
//! the canonical form well defined: symbols order before derived terms, which
//! order before nested polynomials; within a variant the comparison is
//! lexicographic and recursive.  Monomials compare by their factor sequences
//! alone, so two monomials that differ only in a coefficient somewhere compare
//! as `Eq` without being equal: the order is total but not antisymmetric up to
//! structural equality.
use vstd::prelude::*;

use crate::model::{Base, BaseS, Factor, FactorS, Mono, MonoS, Poly, PolyS};
use crate::model::{lemma_view_factors, lemma_view_monos, view_factors, view_monos};

verus! {

broadcast use vstd::seq::group_seq_axioms, vstd::std_specs::vec::group_vec_axioms;

/// The outcome of a three-way comparison.
#[derive(Clone, Copy, Debug, PartialEq, Eq, Structural)]
pub enum Cmp {
    Lt,
    Eq,
    Gt,
}

/// The mirror image of a comparison outcome.
pub open spec fn flip(c: Cmp) -> Cmp {
    match c {
        Cmp::Lt => Cmp::Gt,
        Cmp::Eq => Cmp::Eq,
        Cmp::Gt => Cmp::Lt,
    }
}

/// Three-way comparison of two mathematical integers.
pub open spec fn cmp_int(a: int, b: int) -> Cmp {
    if a < b {
        Cmp::Lt
    } else if a == b {
        Cmp::Eq
    } else {
        Cmp::Gt
    }
}

/// Lexicographic comparison of two character sequences by scalar value.
pub open spec fn cmp_chars(a: Seq<char>, b: Seq<char>) -> Cmp
    decreases a.len(),
{
    if a.len() == 0 && b.len() == 0 {
        Cmp::Eq
    } else if a.len() == 0 {
        Cmp::Lt
    } else if b.len() == 0 {
        Cmp::Gt
    } else if (a[0] as u32) < (b[0] as u32) {
        Cmp::Lt
    } else if (a[0] as u32) > (b[0] as u32) {
        Cmp::Gt
    } else {
        cmp_chars(a.drop_first(), b.drop_first())
    }
}

/// The order over bases: symbols first (by name), then derived terms (by
/// function name, then parameter), then nested polynomials.
pub open spec fn cmp_base(a: BaseS, b: BaseS) -> Cmp
    decreases a,
{
    match a {
        BaseS::Sym { name: na } => match b {
            BaseS::Sym { name: nb } => cmp_chars(na, nb),
            _ => Cmp::Lt,
        },
        BaseS::Der { func: fa, param: pa } => match b {
            BaseS::Sym { .. } => Cmp::Gt,
            BaseS::Der { func: fb, param: pb } => {
                if cmp_chars(fa, fb) == Cmp::Eq {
                    cmp_poly(pa, pb)
                } else {
                    cmp_chars(fa, fb)
                }
            },
            BaseS::Poly { .. } => Cmp::Lt,
        },
        BaseS::Poly { poly: qa } => match b {
            BaseS::Poly { poly: qb } => cmp_poly(qa, qb),
            _ => Cmp::Gt,
        },
    }
}

/// The order over factors: by base, then by power.
pub open spec fn cmp_factor(a: FactorS, b: FactorS) -> Cmp
    decreases a,
{
    if cmp_base(a.base, b.base) == Cmp::Eq {
        cmp_int(a.power as int, b.power as int)
    } else {
        cmp_base(a.base, b.base)
    }
}

/// Lexicographic comparison of two factor sequences.
pub open spec fn cmp_factors(a: Seq<FactorS>, b: Seq<FactorS>) -> Cmp
    decreases a,
{
    if a.len() == 0 && b.len() == 0 {
        Cmp::Eq
    } else if a.len() == 0 {
        Cmp::Lt
    } else if b.len() == 0 {
        Cmp::Gt
    } else if cmp_factor(a[0], b[0]) == Cmp::Eq {
        cmp_factors(a.drop_first(), b.drop_first())
    } else {
        cmp_factor(a[0], b[0])
    }
}

/// The order over monomials: by their factor sequences alone.
pub open spec fn cmp_mono(a: MonoS, b: MonoS) -> Cmp
    decreases a,
{
    cmp_factors(a.factors, b.factors)
}

/// Lexicographic comparison of two monomial sequences.
pub open spec fn cmp_monos(a: Seq<MonoS>, b: Seq<MonoS>) -> Cmp
    decreases a,
{
    if a.len() == 0 && b.len() == 0 {
        Cmp::Eq
    } else if a.len() == 0 {
        Cmp::Lt
    } else if b.len() == 0 {
        Cmp::Gt
    } else if cmp_mono(a[0], b[0]) == Cmp::Eq {
        cmp_monos(a.drop_first(), b.drop_first())
    } else {
        cmp_mono(a[0], b[0])
    }
}

/// The order over polynomials: by their term sequences.
pub open spec fn cmp_poly(a: PolyS, b: PolyS) -> Cmp
    decreases a,
{
    cmp_monos(a.terms, b.terms)
}

/// Two characters with one scalar value are one character.
proof fn lemma_char_inj(c: char, d: char)
    requires
        c as u32 == d as u32,
    ensures
        c == d,
{
}

/// Comparing two character sequences yields `Eq` exactly when they are equal.
pub proof fn lemma_cmp_chars_eq(a: Seq<char>, b: Seq<char>)
    ensures
        (cmp_chars(a, b) == Cmp::Eq) <==> (a == b),
    decreases a.len(),
{
    if a.len() == 0 && b.len() == 0 {
        assert(a =~= b);
    } else if a.len() == 0 || b.len() == 0 {
    } else if (a[0] as u32) == (b[0] as u32) {
        lemma_char_inj(a[0], b[0]);
        lemma_cmp_chars_eq(a.drop_first(), b.drop_first());
        if cmp_chars(a, b) == Cmp::Eq {
            assert(a.drop_first() == b.drop_first());
            assert forall|i: int| 0 <= i < a.len() implies a[i] == b[i] by {
                if i > 0 {
                    assert(a.drop_first()[i - 1] == a[i]);
                    assert(b.drop_first()[i - 1] == b[i]);
                }
            }
            assert(a =~= b);
        } else {
            if a == b {
                assert(a.drop_first() =~= b.drop_first());
            }
        }
    }
}

/// Comparing a base with itself yields `Eq`.
pub proof fn lemma_cmp_base_refl(a: BaseS)
    ensures
        cmp_base(a, a) == Cmp::Eq,
    decreases a,
{
    match a {
        BaseS::Sym { name: na } => {
            lemma_cmp_chars_eq(na, na);
        },
        BaseS::Der { func: fa, param: pa } => {
            lemma_cmp_chars_eq(fa, fa);
            lemma_cmp_poly_refl(pa);
        },
        BaseS::Poly { poly: qa } => {
            lemma_cmp_poly_refl(qa);
        },
    }
}

/// Comparing a factor with itself yields `Eq`.
pub proof fn lemma_cmp_factor_refl(a: FactorS)
    ensures
        cmp_factor(a, a) == Cmp::Eq,
    decreases a,
{
    lemma_cmp_base_refl(a.base);
}

/// Comparing a factor sequence with itself yields `Eq`.
pub proof fn lemma_cmp_factors_refl(a: Seq<FactorS>)
    ensures
        cmp_factors(a, a) == Cmp::Eq,
    decreases a,
{
    if a.len() > 0 {
        lemma_cmp_factor_refl(a[0]);
        lemma_cmp_factors_refl(a.drop_first());
    }
}

/// Comparing a monomial with itself yields `Eq`.
pub proof fn lemma_cmp_mono_refl(a: MonoS)
    ensures
        cmp_mono(a, a) == Cmp::Eq,
    decreases a,
{
    lemma_cmp_factors_refl(a.factors);
}

/// Comparing a monomial sequence with itself yields `Eq`.
pub proof fn lemma_cmp_monos_refl(a: Seq<MonoS>)
    ensures
        cmp_monos(a, a) == Cmp::Eq,
    decreases a,
{
    if a.len() > 0 {
        lemma_cmp_mono_refl(a[0]);
        lemma_cmp_monos_refl(a.drop_first());
    }
}

/// Comparing a polynomial with itself yields `Eq`.
pub proof fn lemma_cmp_poly_refl(a: PolyS)
    ensures
        cmp_poly(a, a) == Cmp::Eq,
    decreases a,
{
    lemma_cmp_monos_refl(a.terms);
}

/// Swapping the arguments of a comparison mirrors its outcome.
pub proof fn lemma_cmp_chars_flip(a: Seq<char>, b: Seq<char>)
    ensures
        cmp_chars(b, a) == flip(cmp_chars(a, b)),
    decreases a.len(),
{
    if a.len() > 0 && b.len() > 0 && (a[0] as u32) == (b[0] as u32) {
        lemma_cmp_chars_flip(a.drop_first(), b.drop_first());
    }
}

/// Swapping the arguments of a base comparison mirrors its outcome.
pub proof fn lemma_cmp_base_flip(a: BaseS, b: BaseS)
    ensures
        cmp_base(b, a) == flip(cmp_base(a, b)),
    decreases a,
{
    match a {
        BaseS::Sym { name: na } => {
            if let BaseS::Sym { name: nb } = b {
                lemma_cmp_chars_flip(na, nb);
            }
        },
        BaseS::Der { func: fa, param: pa } => {
            if let BaseS::Der { func: fb, param: pb } = b {
                lemma_cmp_chars_flip(fa, fb);
                lemma_cmp_poly_flip(pa, pb);
            }
        },
        BaseS::Poly { poly: qa } => {
            if let BaseS::Poly { poly: qb } = b {
                lemma_cmp_poly_flip(qa, qb);
            }
        },
    }
}

/// Swapping the arguments of a factor comparison mirrors its outcome.
pub proof fn lemma_cmp_factor_flip(a: FactorS, b: FactorS)
    ensures
        cmp_factor(b, a) == flip(cmp_factor(a, b)),
    decreases a,
{
    lemma_cmp_base_flip(a.base, b.base);
}

/// Swapping the arguments of a factor-sequence comparison mirrors its outcome.
pub proof fn lemma_cmp_factors_flip(a: Seq<FactorS>, b: Seq<FactorS>)
    ensures
        cmp_factors(b, a) == flip(cmp_factors(a, b)),
    decreases a,
{
    if a.len() > 0 && b.len() > 0 {
        lemma_cmp_factor_flip(a[0], b[0]);
        if cmp_factor(a[0], b[0]) == Cmp::Eq {
            lemma_cmp_factors_flip(a.drop_first(), b.drop_first());
        }
    }
}

/// Swapping the arguments of a monomial comparison mirrors its outcome.
pub proof fn lemma_cmp_mono_flip(a: MonoS, b: MonoS)
    ensures
        cmp_mono(b, a) == flip(cmp_mono(a, b)),
    decreases a,
{
    lemma_cmp_factors_flip(a.factors, b.factors);
}

/// Swapping the arguments of a monomial-sequence comparison mirrors its outcome.
pub proof fn lemma_cmp_monos_flip(a: Seq<MonoS>, b: Seq<MonoS>)
    ensures
        cmp_monos(b, a) == flip(cmp_monos(a, b)),
    decreases a,
{
    if a.len() > 0 && b.len() > 0 {
        lemma_cmp_mono_flip(a[0], b[0]);
        if cmp_mono(a[0], b[0]) == Cmp::Eq {
            lemma_cmp_monos_flip(a.drop_first(), b.drop_first());
        }
    }
}

/// Swapping the arguments of a polynomial comparison mirrors its outcome.
pub proof fn lemma_cmp_poly_flip(a: PolyS, b: PolyS)
    ensures
        cmp_poly(b, a) == flip(cmp_poly(a, b)),
    decreases a,
{
    lemma_cmp_monos_flip(a.terms, b.terms);
}

/// The order over character sequences is transitive, `Eq` outcomes included.
pub proof fn lemma_cmp_chars_trans(a: Seq<char>, b: Seq<char>, c: Seq<char>)
    ensures
        cmp_chars(a, b) == Cmp::Lt && cmp_chars(b, c) == Cmp::Lt ==> cmp_chars(a, c) == Cmp::Lt,
        cmp_chars(a, b) == Cmp::Lt && cmp_chars(b, c) == Cmp::Eq ==> cmp_chars(a, c) == Cmp::Lt,
        cmp_chars(a, b) == Cmp::Eq && cmp_chars(b, c) == Cmp::Lt ==> cmp_chars(a, c) == Cmp::Lt,
        cmp_chars(a, b) == Cmp::Eq && cmp_chars(b, c) == Cmp::Eq ==> cmp_chars(a, c) == Cmp::Eq,
{
    lemma_cmp_chars_eq(a, b);
    lemma_cmp_chars_eq(b, c);
    lemma_cmp_chars_eq(a, c);
    lemma_cmp_chars_lt_trans(a, b, c);
}

/// The strict order over character sequences is transitive.
proof fn lemma_cmp_chars_lt_trans(a: Seq<char>, b: Seq<char>, c: Seq<char>)
    ensures
        cmp_chars(a, b) == Cmp::Lt && cmp_chars(b, c) == Cmp::Lt ==> cmp_chars(a, c) == Cmp::Lt,
    decreases a.len(),
{
    if a.len() > 0 && b.len() > 0 && c.len() > 0 {
        if (a[0] as u32) == (b[0] as u32) && (b[0] as u32) == (c[0] as u32) {
            lemma_cmp_chars_lt_trans(a.drop_first(), b.drop_first(), c.drop_first());
        }
    }
}

/// The order over bases is transitive, `Eq` outcomes included.
pub proof fn lemma_cmp_base_trans(a: BaseS, b: BaseS, c: BaseS)
    ensures
        cmp_base(a, b) == Cmp::Lt && cmp_base(b, c) == Cmp::Lt ==> cmp_base(a, c) == Cmp::Lt,
        cmp_base(a, b) == Cmp::Lt && cmp_base(b, c) == Cmp::Eq ==> cmp_base(a, c) == Cmp::Lt,
        cmp_base(a, b) == Cmp::Eq && cmp_base(b, c) == Cmp::Lt ==> cmp_base(a, c) == Cmp::Lt,
        cmp_base(a, b) == Cmp::Eq && cmp_base(b, c) == Cmp::Eq ==> cmp_base(a, c) == Cmp::Eq,
    decreases a,
{
    match (a, b, c) {
        (BaseS::Sym { name: na }, BaseS::Sym { name: nb }, BaseS::Sym { name: nc }) => {
            lemma_cmp_chars_trans(na, nb, nc);
        },
        (
            BaseS::Der { func: fa, param: pa },
            BaseS::Der { func: fb, param: pb },
            BaseS::Der { func: fc, param: pc },
        ) => {
            lemma_cmp_chars_trans(fa, fb, fc);
            lemma_cmp_chars_eq(fa, fb);
            lemma_cmp_chars_eq(fb, fc);
            lemma_cmp_poly_trans(pa, pb, pc);
        },
        (BaseS::Poly { poly: qa }, BaseS::Poly { poly: qb }, BaseS::Poly { poly: qc }) => {
            lemma_cmp_poly_trans(qa, qb, qc);
        },
        _ => {},
    }
}

/// The order over factors is transitive, `Eq` outcomes included.
pub proof fn lemma_cmp_factor_trans(a: FactorS, b: FactorS, c: FactorS)
    ensures
        cmp_factor(a, b) == Cmp::Lt && cmp_factor(b, c) == Cmp::Lt ==> cmp_factor(a, c) == Cmp::Lt,
        cmp_factor(a, b) == Cmp::Lt && cmp_factor(b, c) == Cmp::Eq ==> cmp_factor(a, c) == Cmp::Lt,
        cmp_factor(a, b) == Cmp::Eq && cmp_factor(b, c) == Cmp::Lt ==> cmp_factor(a, c) == Cmp::Lt,
        cmp_factor(a, b) == Cmp::Eq && cmp_factor(b, c) == Cmp::Eq ==> cmp_factor(a, c) == Cmp::Eq,
    decreases a,
{
    lemma_cmp_base_trans(a.base, b.base, c.base);
}

/// The order over factor sequences is transitive, `Eq` outcomes included.
pub proof fn lemma_cmp_factors_trans(a: Seq<FactorS>, b: Seq<FactorS>, c: Seq<FactorS>)
    ensures
        cmp_factors(a, b) == Cmp::Lt && cmp_factors(b, c) == Cmp::Lt ==> cmp_factors(a, c)
            == Cmp::Lt,
        cmp_factors(a, b) == Cmp::Lt && cmp_factors(b, c) == Cmp::Eq ==> cmp_factors(a, c)
            == Cmp::Lt,
        cmp_factors(a, b) == Cmp::Eq && cmp_factors(b, c) == Cmp::Lt ==> cmp_factors(a, c)
            == Cmp::Lt,
        cmp_factors(a, b) == Cmp::Eq && cmp_factors(b, c) == Cmp::Eq ==> cmp_factors(a, c)
            == Cmp::Eq,
    decreases a,
{
    if a.len() > 0 && b.len() > 0 && c.len() > 0 {
        lemma_cmp_factor_trans(a[0], b[0], c[0]);
        lemma_cmp_factors_trans(a.drop_first(), b.drop_first(), c.drop_first());
    }
}

/// The order over monomials is transitive, `Eq` outcomes included.
pub proof fn lemma_cmp_mono_trans(a: MonoS, b: MonoS, c: MonoS)
    ensures
        cmp_mono(a, b) == Cmp::Lt && cmp_mono(b, c) == Cmp::Lt ==> cmp_mono(a, c) == Cmp::Lt,
        cmp_mono(a, b) == Cmp::Lt && cmp_mono(b, c) == Cmp::Eq ==> cmp_mono(a, c) == Cmp::Lt,
        cmp_mono(a, b) == Cmp::Eq && cmp_mono(b, c) == Cmp::Lt ==> cmp_mono(a, c) == Cmp::Lt,
        cmp_mono(a, b) == Cmp::Eq && cmp_mono(b, c) == Cmp::Eq ==> cmp_mono(a, c) == Cmp::Eq,
    decreases a,
{
    lemma_cmp_factors_trans(a.factors, b.factors, c.factors);
}

/// The order over monomial sequences is transitive, `Eq` outcomes included.
pub proof fn lemma_cmp_monos_trans(a: Seq<MonoS>, b: Seq<MonoS>, c: Seq<MonoS>)
    ensures
        cmp_monos(a, b) == Cmp::Lt && cmp_monos(b, c) == Cmp::Lt ==> cmp_monos(a, c) == Cmp::Lt,
        cmp_monos(a, b) == Cmp::Lt && cmp_monos(b, c) == Cmp::Eq ==> cmp_monos(a, c) == Cmp::Lt,
        cmp_monos(a, b) == Cmp::Eq && cmp_monos(b, c) == Cmp::Lt ==> cmp_monos(a, c) == Cmp::Lt,
        cmp_monos(a, b) == Cmp::Eq && cmp_monos(b, c) == Cmp::Eq ==> cmp_monos(a, c) == Cmp::Eq,
    decreases a,
{
    if a.len() > 0 && b.len() > 0 && c.len() > 0 {
        lemma_cmp_mono_trans(a[0], b[0], c[0]);
        lemma_cmp_monos_trans(a.drop_first(), b.drop_first(), c.drop_first());
    }
}

/// The order over polynomials is transitive, `Eq` outcomes included.
pub proof fn lemma_cmp_poly_trans(a: PolyS, b: PolyS, c: PolyS)
    ensures
        cmp_poly(a, b) == Cmp::Lt && cmp_poly(b, c) == Cmp::Lt ==> cmp_poly(a, c) == Cmp::Lt,
        cmp_poly(a, b) == Cmp::Lt && cmp_poly(b, c) == Cmp::Eq ==> cmp_poly(a, c) == Cmp::Lt,
        cmp_poly(a, b) == Cmp::Eq && cmp_poly(b, c) == Cmp::Lt ==> cmp_poly(a, c) == Cmp::Lt,
        cmp_poly(a, b) == Cmp::Eq && cmp_poly(b, c) == Cmp::Eq ==> cmp_poly(a, c) == Cmp::Eq,
    decreases a,
{
    lemma_cmp_monos_trans(a.terms, b.terms, c.terms);
}

/// Lexicographic comparison of two owned strings, character by character.
fn str_cmp(a: &String, b: &String) -> (r: Cmp)
    ensures
        r == cmp_chars(a@, b@),
{
    let alen = a.as_str().unicode_len();
    let blen = b.as_str().unicode_len();
    let mut i: usize = 0;
    proof {
        assert(a@.skip(0) =~= a@);
        assert(b@.skip(0) =~= b@);
    }
    loop
        invariant
            i <= alen,
            i <= blen,
            alen == a@.len(),
            blen == b@.len(),
            cmp_chars(a@, b@) == cmp_chars(a@.skip(i as int), b@.skip(i as int)),
        decreases alen - i,
    {
        if i == alen && i == blen {
            return Cmp::Eq;
        }
        if i == alen {
            return Cmp::Lt;
        }
        if i == blen {
            return Cmp::Gt;
        }
        let ca = a.as_str().get_char(i);
        let cb = b.as_str().get_char(i);
        proof {
            assert(a@.skip(i as int)[0] == a@[i as int]);
            assert(b@.skip(i as int)[0] == b@[i as int]);
        }
        if (ca as u32) < (cb as u32) {
            return Cmp::Lt;
        }
        if (ca as u32) > (cb as u32) {
            return Cmp::Gt;
        }
        proof {
            assert(a@.skip(i as int).drop_first() =~= a@.skip(i + 1));
            assert(b@.skip(i as int).drop_first() =~= b@.skip(i + 1));
        }
        i = i + 1;
    }
}

impl Base {
    /// Three-way comparison in the base order.
    pub fn cmp(&self, other: &Base) -> (r: Cmp)
        ensures
            r == cmp_base(self@, other@),
        decreases *self,
    {
        match self {
            Base::Sym(a) => match other {
                Base::Sym(b) => str_cmp(&a.name, &b.name),
                _ => Cmp::Lt,
            },
            Base::Der(a) => match other {
                Base::Sym(_) => Cmp::Gt,
                Base::Der(b) => {
                    let c = str_cmp(&a.func, &b.func);
                    if c == Cmp::Eq {
                        a.param.cmp(&b.param)
                    } else {
                        c
                    }
                },
                Base::Poly(_) => Cmp::Lt,
            },
            Base::Poly(a) => match other {
                Base::Poly(b) => a.cmp(b),
                _ => Cmp::Gt,
            },
        }
    }
}

impl Factor {
    /// Three-way comparison in the factor order: by base, then by power.
    pub fn cmp(&self, other: &Factor) -> (r: Cmp)
        ensures
            r == cmp_factor(self@, other@),
        decreases *self,
    {
        let c = self.base.cmp(&other.base);
        if c == Cmp::Eq {
            if self.power < other.power {
                Cmp::Lt
            } else if self.power == other.power {
                Cmp::Eq
            } else {
                Cmp::Gt
            }
        } else {
            c
        }
    }
}

/// Lexicographic comparison of two factor vectors.
pub(crate) fn cmp_factor_vecs(a: &Vec<Factor>, b: &Vec<Factor>) -> (r: Cmp)
    ensures
        r == cmp_factors(view_factors(a@), view_factors(b@)),
    decreases a@,
{
    let ghost va = view_factors(a@);
    let ghost vb = view_factors(b@);
    proof {
        lemma_view_factors(a@);
        lemma_view_factors(b@);
        assert(va.skip(0) =~= va);
        assert(vb.skip(0) =~= vb);
    }
    let mut i: usize = 0;
    loop
        invariant
            i <= a.len(),
            i <= b.len(),
            va == view_factors(a@),
            vb == view_factors(b@),
            va.len() == a@.len(),
            vb.len() == b@.len(),
            forall|j: int| 0 <= j < a@.len() ==> #[trigger] va[j] == a@[j]@,
            forall|j: int| 0 <= j < b@.len() ==> #[trigger] vb[j] == b@[j]@,
            cmp_factors(va, vb) == cmp_factors(va.skip(i as int), vb.skip(i as int)),
        decreases a.len() - i,
    {
        if i == a.len() && i == b.len() {
            return Cmp::Eq;
        }
        if i == a.len() {
            return Cmp::Lt;
        }
        if i == b.len() {
            return Cmp::Gt;
        }
        proof {
            assert(va.skip(i as int)[0] == va[i as int]);
            assert(vb.skip(i as int)[0] == vb[i as int]);
            assert(decreases_to!(a@ => a@[i as int]));
        }
        let c = a[i].cmp(&b[i]);
        if c != Cmp::Eq {
            return c;
        }
        proof {
            assert(va.skip(i as int).drop_first() =~= va.skip(i + 1));
            assert(vb.skip(i as int).drop_first() =~= vb.skip(i + 1));
        }
        i = i + 1;
    }
}

impl Mono {
    /// Three-way comparison in the monomial order: by the factor sequences
    /// alone; the coefficients play no part.
    pub fn cmp(&self, other: &Mono) -> (r: Cmp)
        ensures
            r == cmp_mono(self@, other@),
        decreases *self,
    {
        proof {
            assert(decreases_to!(*self => self.factors));
            assert(decreases_to!(self.factors => self.factors@));
        }
        cmp_factor_vecs(&self.factors, &other.factors)
    }
}

/// Lexicographic comparison of two monomial vectors.
pub(crate) fn cmp_mono_vecs(a: &Vec<Mono>, b: &Vec<Mono>) -> (r: Cmp)
    ensures
        r == cmp_monos(view_monos(a@), view_monos(b@)),
    decreases a@,
{
    let ghost va = view_monos(a@);
    let ghost vb = view_monos(b@);
    proof {
        lemma_view_monos(a@);
        lemma_view_monos(b@);
        assert(va.skip(0) =~= va);
        assert(vb.skip(0) =~= vb);
    }
    let mut i: usize = 0;
    loop
        invariant
            i <= a.len(),
            i <= b.len(),
            va == view_monos(a@),
            vb == view_monos(b@),
            va.len() == a@.len(),
            vb.len() == b@.len(),
            forall|j: int| 0 <= j < a@.len() ==> #[trigger] va[j] == a@[j]@,
            forall|j: int| 0 <= j < b@.len() ==> #[trigger] vb[j] == b@[j]@,
            cmp_monos(va, vb) == cmp_monos(va.skip(i as int), vb.skip(i as int)),
        decreases a.len() - i,
    {
        if i == a.len() && i == b.len() {
            return Cmp::Eq;
        }
        if i == a.len() {
            return Cmp::Lt;
        }
        if i == b.len() {
            return Cmp::Gt;
        }
        proof {
            assert(va.skip(i as int)[0] == va[i as int]);
            assert(vb.skip(i as int)[0] == vb[i as int]);
            assert(decreases_to!(a@ => a@[i as int]));
        }
        let c = a[i].cmp(&b[i]);
        if c != Cmp::Eq {
            return c;
        }
        proof {
            assert(va.skip(i as int).drop_first() =~= va.skip(i + 1));
            assert(vb.skip(i as int).drop_first() =~= vb.skip(i + 1));
        }
        i = i + 1;
    }
}

impl Poly {
    /// Three-way comparison in the polynomial order: by the term sequences.
    pub fn cmp(&self, other: &Poly) -> (r: Cmp)
        ensures
            r == cmp_poly(self@, other@),
        decreases *self,
    {
        proof {
            assert(decreases_to!(*self => self.terms));
            assert(decreases_to!(self.terms => self.terms@));
        }
        cmp_mono_vecs(&self.terms, &other.terms)
    }
}

} // verus!
