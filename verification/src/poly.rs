//! The executable polynomial algebra: merging, arithmetic, queries and the
//! transformation passes, each proved equal to its model-level mirror.
use vstd::prelude::*;

use crate::canon::{add_factor, add_term, drop_zero_factors, drop_zero_terms, merge_factor_seq,
    merge_term_seq, spec_merge_factors, spec_merge_terms, wf_factors, wf_terms_shape,
    lemma_merge_factors_wf, lemma_merge_terms_wf};
use crate::model::{Base, BaseS, Der, Factor, FactorS, Mono, MonoS, Poly, PolyS, Sym};
use crate::model::{lemma_view_factors, lemma_view_monos, lemma_view_polys, view_factors,
    view_monos, view_polys};
use crate::order::{cmp_base, cmp_factors, Cmp};

verus! {

broadcast use vstd::seq::group_seq_axioms, vstd::std_specs::vec::group_vec_axioms;

/// Places one factor into a merged vector, as `add_factor` describes.
fn add_factor_vec(acc: &mut Vec<Factor>, f: Factor)
    ensures
        view_factors(final(acc)@) == add_factor(view_factors(old(acc)@), f@),
{
    let ghost a0 = view_factors(acc@);
    proof {
        lemma_view_factors(acc@);
        assert(a0.take(0) =~= Seq::<FactorS>::empty());
        assert(a0.skip(0) =~= a0);
    }
    let mut j: usize = 0;
    loop
        invariant
            j <= acc.len(),
            acc@ == old(acc)@,
            a0 == view_factors(acc@),
            a0.len() == acc@.len(),
            forall|k: int| 0 <= k < acc@.len() ==> #[trigger] a0[k] == acc@[k]@,
            add_factor(a0, f@) == a0.take(j as int) + add_factor(a0.skip(j as int), f@),
        decreases acc.len() - j,
    {
        if j == acc.len() {
            proof {
                assert(a0.skip(j as int).len() == 0);
                assert(add_factor(a0.skip(j as int), f@) =~= seq![f@]);
                assert(a0.take(j as int) =~= a0);
            }
            acc.push(f);
            proof {
                lemma_view_factors(acc@);
                assert(view_factors(acc@) =~= a0 + seq![f@]);
                assert(add_factor(a0, f@) =~= a0 + seq![f@]);
            }
            return ;
        }
        proof {
            assert(a0.skip(j as int)[0] == a0[j as int]);
        }
        if acc[j].base == f.base {
            let prev = acc.remove(j);
            let merged = Factor { base: prev.base, power: prev.power.wrapping_add(f.power) };
            acc.insert(j, merged);
            proof {
                lemma_view_factors(acc@);
                assert(a0.skip(j as int).drop_first() =~= a0.skip(j + 1));
                assert(add_factor(a0.skip(j as int), f@) =~= seq![merged@] + a0.skip(j + 1));
                assert forall|k: int| 0 <= k < acc@.len() implies #[trigger] view_factors(acc@)[k]
                    == (a0.take(j as int) + add_factor(a0.skip(j as int), f@))[k] by {
                    if k < j {
                        assert(acc@[k] == old(acc)@[k]);
                    } else if k > j {
                        assert(acc@[k] == old(acc)@[k]);
                        assert((a0.take(j as int) + add_factor(a0.skip(j as int), f@))[k] == a0.skip(
                            j + 1,
                        )[k - j - 1]);
                    }
                }
                assert(view_factors(acc@) =~= a0.take(j as int) + add_factor(
                    a0.skip(j as int),
                    f@,
                ));
            }
            return ;
        }
        let c = f.base.cmp(&acc[j].base);
        if c == Cmp::Lt {
            proof {
                assert(add_factor(a0.skip(j as int), f@) =~= seq![f@] + a0.skip(j as int));
            }
            acc.insert(j, f);
            proof {
                lemma_view_factors(acc@);
                assert forall|k: int| 0 <= k < acc@.len() implies #[trigger] view_factors(acc@)[k]
                    == (a0.take(j as int) + (seq![f@] + a0.skip(j as int)))[k] by {
                    if k < j {
                        assert(acc@[k] == old(acc)@[k]);
                    } else if k > j {
                        assert(acc@[k] == old(acc)@[k - 1]);
                    }
                }
                assert(view_factors(acc@) =~= a0.take(j as int) + (seq![f@] + a0.skip(j as int)));
            }
            return ;
        }
        proof {
            assert(a0.skip(j as int).drop_first() =~= a0.skip(j + 1));
            assert(add_factor(a0.skip(j as int), f@) == seq![a0[j as int]] + add_factor(
                a0.skip(j + 1),
                f@,
            ));
            assert(a0.take(j as int) + add_factor(a0.skip(j as int), f@) =~= a0.take(j + 1)
                + add_factor(a0.skip(j + 1), f@));
        }
        j += 1;
    }
}

/// Places one term into a merged vector, as `add_term` describes.
fn add_term_vec(acc: &mut Vec<Mono>, m: Mono)
    ensures
        view_monos(final(acc)@) == add_term(view_monos(old(acc)@), m@),
{
    let ghost a0 = view_monos(acc@);
    proof {
        lemma_view_monos(acc@);
        assert(a0.take(0) =~= Seq::<MonoS>::empty());
        assert(a0.skip(0) =~= a0);
    }
    let mut j: usize = 0;
    loop
        invariant
            j <= acc.len(),
            acc@ == old(acc)@,
            a0 == view_monos(acc@),
            a0.len() == acc@.len(),
            forall|k: int| 0 <= k < acc@.len() ==> #[trigger] a0[k] == acc@[k]@,
            add_term(a0, m@) == a0.take(j as int) + add_term(a0.skip(j as int), m@),
        decreases acc.len() - j,
    {
        if j == acc.len() {
            proof {
                assert(a0.skip(j as int).len() == 0);
                assert(add_term(a0.skip(j as int), m@) =~= seq![m@]);
                assert(a0.take(j as int) =~= a0);
            }
            acc.push(m);
            proof {
                lemma_view_monos(acc@);
                assert(view_monos(acc@) =~= a0 + seq![m@]);
                assert(add_term(a0, m@) =~= a0 + seq![m@]);
            }
            return ;
        }
        proof {
            assert(a0.skip(j as int)[0] == a0[j as int]);
        }
        if crate::model::eq_factor_vecs(&acc[j].factors, &m.factors) {
            let prev = acc.remove(j);
            let merged = Mono { coeff: prev.coeff.wrapping_add(m.coeff), factors: prev.factors };
            acc.insert(j, merged);
            proof {
                lemma_view_monos(acc@);
                assert(a0.skip(j as int).drop_first() =~= a0.skip(j + 1));
                assert(merged@ =~= MonoS {
                    coeff: a0[j as int].coeff.wrapping_add(m@.coeff),
                    factors: a0[j as int].factors,
                });
                assert(add_term(a0.skip(j as int), m@) =~= seq![merged@] + a0.skip(j + 1));
                assert forall|k: int| 0 <= k < acc@.len() implies #[trigger] view_monos(acc@)[k]
                    == (a0.take(j as int) + add_term(a0.skip(j as int), m@))[k] by {
                    if k < j {
                        assert(acc@[k] == old(acc)@[k]);
                    } else if k > j {
                        assert(acc@[k] == old(acc)@[k]);
                        assert((a0.take(j as int) + add_term(a0.skip(j as int), m@))[k] == a0.skip(
                            j + 1,
                        )[k - j - 1]);
                    }
                }
                assert(view_monos(acc@) =~= a0.take(j as int) + add_term(a0.skip(j as int), m@));
            }
            return ;
        }
        let c = crate::order::cmp_factor_vecs(&m.factors, &acc[j].factors);
        if c == Cmp::Lt {
            proof {
                assert(add_term(a0.skip(j as int), m@) =~= seq![m@] + a0.skip(j as int));
            }
            acc.insert(j, m);
            proof {
                lemma_view_monos(acc@);
                assert forall|k: int| 0 <= k < acc@.len() implies #[trigger] view_monos(acc@)[k]
                    == (a0.take(j as int) + (seq![m@] + a0.skip(j as int)))[k] by {
                    if k < j {
                        assert(acc@[k] == old(acc)@[k]);
                    } else if k > j {
                        assert(acc@[k] == old(acc)@[k - 1]);
                    }
                }
                assert(view_monos(acc@) =~= a0.take(j as int) + (seq![m@] + a0.skip(j as int)));
            }
            return ;
        }
        proof {
            assert(a0.skip(j as int).drop_first() =~= a0.skip(j + 1));
            assert(add_term(a0.skip(j as int), m@) == seq![a0[j as int]] + add_term(
                a0.skip(j + 1),
                m@,
            ));
            assert(a0.take(j as int) + add_term(a0.skip(j as int), m@) =~= a0.take(j + 1) + add_term(
                a0.skip(j + 1),
                m@,
            ));
        }
        j += 1;
    }
}

impl Mono {
    /// Merges factors that share a base by adding their powers (wrapping),
    /// drops any whose summed power is zero, and sorts the rest by base.
    pub fn merge_factors(&mut self)
        ensures
            final(self)@.coeff == old(self)@.coeff,
            final(self)@.factors == spec_merge_factors(old(self)@.factors),
            wf_factors(final(self)@.factors),
    {
        let ghost s0 = view_factors(self.factors@);
        proof {
            lemma_view_factors(self.factors@);
            assert(s0.take(0) =~= Seq::<FactorS>::empty());
        }
        let mut acc: Vec<Factor> = Vec::new();
        let n = self.factors.len();
        let mut i: usize = 0;
        while i < n
            invariant
                i <= n,
                n == self.factors.len(),
                *self == *old(self),
                s0 == view_factors(self.factors@),
                s0.len() == n as int,
                forall|k: int| 0 <= k < n ==> #[trigger] s0[k] == self.factors@[k]@,
                view_factors(acc@) == merge_factor_seq(s0.take(i as int)),
            decreases n - i,
        {
            let f = self.factors[i].deep_clone();
            proof {
                assert(s0.take(i + 1).drop_last() =~= s0.take(i as int));
                assert(s0.take(i + 1).last() == s0[i as int]);
            }
            add_factor_vec(&mut acc, f);
            i += 1;
        }
        proof {
            assert(s0.take(n as int) =~= s0);
        }
        let ghost merged = merge_factor_seq(s0);
        let ghost va = view_factors(acc@);
        let mut out: Vec<Factor> = Vec::new();
        let m = acc.len();
        let mut j: usize = 0;
        proof {
            lemma_view_factors(acc@);
            assert(va.skip(0) =~= va);
            assert(view_factors(out@) =~= Seq::<FactorS>::empty());
        }
        while j < m
            invariant
                j <= m,
                m == acc.len(),
                va == view_factors(acc@),
                va == merged,
                va.len() == m as int,
                forall|k: int| 0 <= k < m ==> #[trigger] va[k] == acc@[k]@,
                drop_zero_factors(va) == view_factors(out@) + drop_zero_factors(
                    va.skip(j as int),
                ),
            decreases m - j,
        {
            proof {
                assert(va.skip(j as int)[0] == va[j as int]);
                assert(va.skip(j as int).drop_first() =~= va.skip(j + 1));
            }
            if acc[j].power != 0 {
                let f = acc[j].deep_clone();
                let ghost out_before = view_factors(out@);
                let ghost outv = out@;
                out.push(f);
                proof {
                    assert(out@.drop_last() =~= outv);
                    assert(out@.last() == f);
                    assert(view_factors(out@) == view_factors(outv).push(f@));
                    assert(view_factors(out@) =~= out_before + seq![va[j as int]]);
                    assert(drop_zero_factors(va.skip(j as int)) == seq![va[j as int]]
                        + drop_zero_factors(va.skip(j + 1)));
                    assert(view_factors(out@) + drop_zero_factors(va.skip(j + 1)) =~= out_before
                        + drop_zero_factors(va.skip(j as int)));
                }
            }
            j += 1;
        }
        proof {
            assert(va.skip(m as int).len() == 0);
            assert(drop_zero_factors(va.skip(m as int)) =~= Seq::<FactorS>::empty());
            assert(view_factors(out@) =~= drop_zero_factors(va));
            lemma_merge_factors_wf(s0);
        }
        self.factors = out;
    }
}

impl Poly {
    /// Merges like terms by adding their coefficients (wrapping), drops any
    /// whose summed coefficient is zero, and sorts the rest by factor
    /// sequence.
    pub fn merge_terms(&mut self)
        ensures
            final(self)@.terms == spec_merge_terms(old(self)@.terms),
            wf_terms_shape(final(self)@.terms),
    {
        let ghost s0 = view_monos(self.terms@);
        proof {
            lemma_view_monos(self.terms@);
            assert(s0.take(0) =~= Seq::<MonoS>::empty());
        }
        let mut acc: Vec<Mono> = Vec::new();
        let n = self.terms.len();
        let mut i: usize = 0;
        while i < n
            invariant
                i <= n,
                n == self.terms.len(),
                *self == *old(self),
                s0 == view_monos(self.terms@),
                s0.len() == n as int,
                forall|k: int| 0 <= k < n ==> #[trigger] s0[k] == self.terms@[k]@,
                view_monos(acc@) == merge_term_seq(s0.take(i as int)),
            decreases n - i,
        {
            let m = self.terms[i].deep_clone();
            proof {
                assert(s0.take(i + 1).drop_last() =~= s0.take(i as int));
                assert(s0.take(i + 1).last() == s0[i as int]);
            }
            add_term_vec(&mut acc, m);
            i += 1;
        }
        proof {
            assert(s0.take(n as int) =~= s0);
        }
        let ghost merged = merge_term_seq(s0);
        let ghost va = view_monos(acc@);
        let mut out: Vec<Mono> = Vec::new();
        let m = acc.len();
        let mut j: usize = 0;
        proof {
            lemma_view_monos(acc@);
            assert(va.skip(0) =~= va);
            assert(view_monos(out@) =~= Seq::<MonoS>::empty());
        }
        while j < m
            invariant
                j <= m,
                m == acc.len(),
                va == view_monos(acc@),
                va == merged,
                va.len() == m as int,
                forall|k: int| 0 <= k < m ==> #[trigger] va[k] == acc@[k]@,
                drop_zero_terms(va) == view_monos(out@) + drop_zero_terms(va.skip(j as int)),
            decreases m - j,
        {
            proof {
                assert(va.skip(j as int)[0] == va[j as int]);
                assert(va.skip(j as int).drop_first() =~= va.skip(j + 1));
            }
            if acc[j].coeff != 0 {
                let t = acc[j].deep_clone();
                let ghost out_before = view_monos(out@);
                let ghost outv = out@;
                out.push(t);
                proof {
                    assert(out@.drop_last() =~= outv);
                    assert(out@.last() == t);
                    assert(view_monos(out@) == view_monos(outv).push(t@));
                    assert(view_monos(out@) =~= out_before + seq![va[j as int]]);
                    assert(drop_zero_terms(va.skip(j as int)) == seq![va[j as int]]
                        + drop_zero_terms(va.skip(j + 1)));
                    assert(view_monos(out@) + drop_zero_terms(va.skip(j + 1)) =~= out_before
                        + drop_zero_terms(va.skip(j as int)));
                }
            }
            j += 1;
        }
        proof {
            assert(va.skip(m as int).len() == 0);
            assert(drop_zero_terms(va.skip(m as int)) =~= Seq::<MonoS>::empty());
            assert(view_monos(out@) =~= drop_zero_terms(va));
            lemma_merge_terms_wf(s0);
        }
        self.terms = out;
    }
}

/// A factor that is a bare symbol: power one, symbol base.
pub open spec fn factor_is_symbol(f: FactorS) -> bool {
    f.power == 1 && f.base is Sym
}

/// A monomial that is a bare symbol: exactly one factor, itself a symbol.
pub open spec fn mono_is_symbol(m: MonoS) -> bool {
    m.factors.len() == 1 && factor_is_symbol(m.factors[0])
}

/// A polynomial that is a bare symbol: exactly one term, itself a symbol.
pub open spec fn poly_is_symbol(p: PolyS) -> bool {
    p.terms.len() == 1 && mono_is_symbol(p.terms[0])
}

/// The power of the first factor with the given base, or zero when none
/// matches.
pub open spec fn power_in(s: Seq<FactorS>, b: BaseS) -> i32
    decreases s,
{
    if s.len() == 0 {
        0
    } else if s[0].base == b {
        s[0].power
    } else {
        power_in(s.drop_first(), b)
    }
}

/// Whether some factor's base is a nested polynomial.
pub open spec fn mono_has_nested(m: MonoS) -> bool {
    exists|i: int| 0 <= i < m.factors.len() && (#[trigger] m.factors[i]).base is Poly
}

impl Base {
    /// Whether this base is a bare symbol.
    pub fn is_symbol(&self) -> (r: bool)
        ensures
            r == (self@ is Sym),
    {
        match self {
            Base::Sym(_) => true,
            _ => false,
        }
    }

    /// Whether this base is a nested polynomial.
    pub fn is_polynomial(&self) -> (r: bool)
        ensures
            r == (self@ is Poly),
    {
        match self {
            Base::Poly(_) => true,
            _ => false,
        }
    }
}

impl Factor {
    /// Whether this factor is a bare symbol raised to the first power.
    pub fn is_symbol(&self) -> (r: bool)
        ensures
            r == factor_is_symbol(self@),
    {
        self.power == 1 && self.base.is_symbol()
    }
}

impl Mono {
    /// Whether this monomial is a bare symbol.
    pub fn is_symbol(&self) -> (r: bool)
        ensures
            r == mono_is_symbol(self@),
    {
        proof {
            lemma_view_factors(self.factors@);
        }
        self.factors.len() == 1 && self.factors[0].is_symbol()
    }

    /// Whether two monomials are like terms: the same factor sequence,
    /// whatever the coefficients.
    pub fn like(&self, other: &Mono) -> (r: bool)
        ensures
            r == (self@.factors == other@.factors),
    {
        crate::model::eq_factor_vecs(&self.factors, &other.factors)
    }

    /// The power this monomial raises the given base to, or zero when the
    /// base does not occur.
    pub fn power_of(&self, base: &Base) -> (r: i32)
        ensures
            r == power_in(self@.factors, base@),
    {
        let ghost s = view_factors(self.factors@);
        proof {
            lemma_view_factors(self.factors@);
            assert(s.skip(0) =~= s);
        }
        let n = self.factors.len();
        let mut i: usize = 0;
        while i < n
            invariant
                i <= n,
                n == self.factors.len(),
                s == view_factors(self.factors@),
                s.len() == n as int,
                forall|k: int| 0 <= k < n ==> #[trigger] s[k] == self.factors@[k]@,
                power_in(s, base@) == power_in(s.skip(i as int), base@),
            decreases n - i,
        {
            proof {
                assert(s.skip(i as int)[0] == s[i as int]);
                assert(s.skip(i as int).drop_first() =~= s.skip(i + 1));
            }
            if self.factors[i].base == *base {
                return self.factors[i].power;
            }
            i += 1;
        }
        0
    }

    /// Whether some factor of this monomial has a nested polynomial as its
    /// base.
    pub fn contains_polynomial(&self) -> (r: bool)
        ensures
            r == mono_has_nested(self@),
    {
        let ghost s = view_factors(self.factors@);
        proof {
            lemma_view_factors(self.factors@);
        }
        let n = self.factors.len();
        let mut i: usize = 0;
        while i < n
            invariant
                i <= n,
                n == self.factors.len(),
                s == view_factors(self.factors@),
                s.len() == n as int,
                forall|k: int| 0 <= k < n ==> #[trigger] s[k] == self.factors@[k]@,
                forall|k: int| 0 <= k < i ==> !((#[trigger] s[k]).base is Poly),
            decreases n - i,
        {
            if self.factors[i].base.is_polynomial() {
                proof {
                    assert((self@.factors[i as int]).base is Poly);
                }
                return true;
            }
            i += 1;
        }
        false
    }
}

impl Poly {
    /// The polynomial with no terms: the additive identity.
    pub fn zero() -> (r: Poly)
        ensures
            r@.terms.len() == 0,
    {
        Poly { terms: Vec::new() }
    }

    /// Whether this polynomial has no terms.
    pub fn is_zero(&self) -> (r: bool)
        ensures
            r == (self@.terms.len() == 0),
    {
        proof {
            lemma_view_monos(self.terms@);
        }
        self.terms.len() == 0
    }

    /// Empties this polynomial in place.
    pub fn set_zero(&mut self)
        ensures
            final(self)@.terms.len() == 0,
    {
        proof {
            lemma_view_monos(Seq::<Mono>::empty());
        }
        self.terms = Vec::new();
    }

    /// The constant polynomial with the given coefficient, as a single
    /// constant term.
    pub fn from_int(value: i32) -> (r: Poly)
        ensures
            r@.terms =~= seq![MonoS { coeff: value, factors: Seq::<FactorS>::empty() }],
    {
        let mono = Mono { coeff: value, factors: Vec::new() };
        let mut terms: Vec<Mono> = Vec::new();
        terms.push(mono);
        let r = Poly { terms };
        proof {
            lemma_view_monos(r.terms@);
            lemma_view_factors(Seq::<Factor>::empty());
        }
        r
    }

    /// The polynomial that is the named symbol raised to the first power,
    /// with coefficient one.
    pub fn from_name(name: &str) -> (r: Poly)
        ensures
            r@.terms =~= seq![
                MonoS {
                    coeff: 1,
                    factors: seq![
                        FactorS { base: BaseS::Sym { name: name@ }, power: 1 },
                    ],
                },
            ],
    {
        Poly::from_sym(Sym { name: name.to_owned() })
    }

    /// The polynomial that is the given symbol raised to the first power,
    /// with coefficient one.
    pub fn from_sym(sym: Sym) -> (r: Poly)
        ensures
            r@.terms =~= seq![
                MonoS {
                    coeff: 1,
                    factors: seq![FactorS { base: BaseS::Sym { name: sym@ }, power: 1 }],
                },
            ],
    {
        let factor = Factor { base: Base::Sym(sym), power: 1 };
        let mut factors: Vec<Factor> = Vec::new();
        factors.push(factor);
        let mono = Mono { coeff: 1, factors };
        let mut terms: Vec<Mono> = Vec::new();
        terms.push(mono);
        let r = Poly { terms };
        proof {
            lemma_view_monos(r.terms@);
            lemma_view_factors(r.terms@[0].factors@);
        }
        r
    }

    /// The polynomial with the given monomial as its only term.
    pub fn from_mono(mono: Mono) -> (r: Poly)
        ensures
            r@.terms =~= seq![mono@],
    {
        let mut terms: Vec<Mono> = Vec::new();
        terms.push(mono);
        let r = Poly { terms };
        proof {
            lemma_view_monos(r.terms@);
        }
        r
    }

    /// Applies the named function to this polynomial: a single term whose
    /// sole factor is a derived base wrapping a copy of the polynomial.
    pub fn apply(&self, func: &str) -> (r: Poly)
        ensures
            r@.terms =~= seq![
                MonoS {
                    coeff: 1,
                    factors: seq![
                        FactorS {
                            base: BaseS::Der { func: func@, param: self@ },
                            power: 1,
                        },
                    ],
                },
            ],
    {
        let der = Der { func: func.to_owned(), param: self.deep_clone() };
        let factor = Factor { base: Base::Der(der), power: 1 };
        let mut factors: Vec<Factor> = Vec::new();
        factors.push(factor);
        let mono = Mono { coeff: 1, factors };
        let mut terms: Vec<Mono> = Vec::new();
        terms.push(mono);
        let r = Poly { terms };
        proof {
            lemma_view_monos(r.terms@);
            lemma_view_factors(r.terms@[0].factors@);
        }
        r
    }

    /// Whether this polynomial is a bare symbol.
    pub fn is_symbol(&self) -> (r: bool)
        ensures
            r == poly_is_symbol(self@),
    {
        proof {
            lemma_view_monos(self.terms@);
        }
        self.terms.len() == 1 && self.terms[0].is_symbol()
    }
}

/// Negating a monomial negates the coefficient (wrapping) and keeps the
/// factors.
pub open spec fn spec_mono_neg(m: MonoS) -> MonoS {
    MonoS { coeff: (0i32).wrapping_sub(m.coeff), factors: m.factors }
}

/// The product of two monomials: coefficients multiplied (wrapping), factor
/// sequences concatenated and merged.
pub open spec fn spec_mono_mul(a: MonoS, b: MonoS) -> MonoS {
    MonoS { coeff: a.coeff.wrapping_mul(b.coeff), factors: spec_merge_factors(a.factors + b.factors) }
}

/// Negating a polynomial negates every term.
pub open spec fn spec_poly_neg(p: PolyS) -> PolyS {
    PolyS { terms: Seq::new(p.terms.len(), |i: int| spec_mono_neg(p.terms[i])) }
}

/// The sum of two polynomials: the term lists concatenated and merged.
pub open spec fn spec_poly_add(a: PolyS, b: PolyS) -> PolyS {
    PolyS { terms: spec_merge_terms(a.terms + b.terms) }
}

/// The difference of two polynomials: the sum with the negation.
pub open spec fn spec_poly_sub(a: PolyS, b: PolyS) -> PolyS {
    spec_poly_add(a, spec_poly_neg(b))
}

/// Every pairwise product of two term sequences, in row-major order.
pub open spec fn pairwise_products(a: Seq<MonoS>, b: Seq<MonoS>) -> Seq<MonoS> {
    Seq::new(a.len() * b.len(), |k: int| spec_mono_mul(a[k / b.len() as int], b[k % b.len() as int]))
}

/// The product of two polynomials: every pairwise product of terms, merged.
pub open spec fn spec_poly_mul(a: PolyS, b: PolyS) -> PolyS {
    PolyS { terms: spec_merge_terms(pairwise_products(a.terms, b.terms)) }
}

/// Extracting a factor from a factor sequence: the first factor with the
/// matching base has its power reduced (dropped entirely when the difference
/// is zero); a matching base with too small a power, or no matching base at
/// all, yields nothing.
pub open spec fn extract_factors(s: Seq<FactorS>, f: FactorS) -> Option<Seq<FactorS>>
    decreases s,
{
    if s.len() == 0 {
        None
    } else if s[0].base == f.base {
        if s[0].power >= f.power {
            if s[0].power.wrapping_sub(f.power) == 0 {
                Some(s.drop_first())
            } else {
                Some(
                    seq![FactorS { base: s[0].base, power: s[0].power.wrapping_sub(f.power) }]
                        + s.drop_first(),
                )
            }
        } else {
            None
        }
    } else {
        match extract_factors(s.drop_first(), f) {
            None => None,
            Some(t) => Some(seq![s[0]] + t),
        }
    }
}

/// Extracting a factor from a monomial, keeping the coefficient.
pub open spec fn spec_extract(m: MonoS, f: FactorS) -> Option<MonoS> {
    match extract_factors(m.factors, f) {
        None => None,
        Some(fs) => Some(MonoS { coeff: m.coeff, factors: fs }),
    }
}

impl Mono {
    /// Negates the coefficient (wrapping); the factors are unchanged.
    pub fn neg(self) -> (r: Mono)
        ensures
            r@ == spec_mono_neg(self@),
    {
        Mono { coeff: (0i32).wrapping_sub(self.coeff), factors: self.factors }
    }

    /// Multiplies two monomials: the coefficients multiply (wrapping) and
    /// the factor lists concatenate and merge.
    pub fn mul(self, rhs: Mono) -> (r: Mono)
        ensures
            r@ == spec_mono_mul(self@, rhs@),
    {
        let ghost afv = self.factors@;
        let ghost bfv = rhs.factors@;
        let ghost sa = view_factors(self.factors@);
        let ghost sb = view_factors(rhs.factors@);
        let coeff = self.coeff.wrapping_mul(rhs.coeff);
        let mut factors = self.factors;
        let mut rf = rhs.factors;
        factors.append(&mut rf);
        proof {
            assert(factors@ == afv + bfv);
            lemma_view_factors(factors@);
            lemma_view_factors(afv);
            lemma_view_factors(bfv);
            assert(view_factors(factors@) =~= sa + sb);
        }
        let mut m = Mono { coeff, factors };
        m.merge_factors();
        m
    }
}

impl Poly {
    /// Negates every term of the polynomial.
    pub fn neg(self) -> (r: Poly)
        ensures
            r@ == spec_poly_neg(self@),
    {
        let ghost s = view_monos(self.terms@);
        proof {
            lemma_view_monos(self.terms@);
        }
        let mut out: Vec<Mono> = Vec::new();
        let n = self.terms.len();
        let mut i: usize = 0;
        while i < n
            invariant
                i <= n,
                n == self.terms.len(),
                s == view_monos(self.terms@),
                s.len() == n as int,
                forall|k: int| 0 <= k < n ==> #[trigger] s[k] == self.terms@[k]@,
                out@.len() == i as int,
                forall|k: int| 0 <= k < i ==> #[trigger] out@[k]@ == spec_mono_neg(s[k]),
            decreases n - i,
        {
            let t = self.terms[i].deep_clone();
            out.push(t.neg());
            i += 1;
        }
        let r = Poly { terms: out };
        proof {
            lemma_view_monos(r.terms@);
            assert(self@.terms == s);
            assert forall|k: int| 0 <= k < n implies #[trigger] view_monos(r.terms@)[k]
                == spec_poly_neg(self@).terms[k] by {
                assert(view_monos(r.terms@)[k] == r.terms@[k]@);
                assert(r.terms@[k]@ == spec_mono_neg(s[k]));
                assert(spec_poly_neg(self@).terms[k] == spec_mono_neg(self@.terms[k]));
            }
            assert(view_monos(r.terms@) =~= spec_poly_neg(self@).terms);
        }
        r
    }

    /// Adds two polynomials: the term lists concatenate and merge.
    pub fn add(self, rhs: Poly) -> (r: Poly)
        ensures
            r@ == spec_poly_add(self@, rhs@),
    {
        let ghost atv = self.terms@;
        let ghost btv = rhs.terms@;
        let ghost sa = view_monos(self.terms@);
        let ghost sb = view_monos(rhs.terms@);
        let mut terms = self.terms;
        let mut rt = rhs.terms;
        terms.append(&mut rt);
        proof {
            assert(terms@ == atv + btv);
            lemma_view_monos(terms@);
            lemma_view_monos(atv);
            lemma_view_monos(btv);
            assert(view_monos(terms@) =~= sa + sb);
        }
        let mut p = Poly { terms };
        p.merge_terms();
        p
    }

    /// Subtracts a polynomial: adds its negation.
    pub fn sub(self, rhs: Poly) -> (r: Poly)
        ensures
            r@ == spec_poly_sub(self@, rhs@),
    {
        self.add(rhs.neg())
    }

    /// Multiplies two polynomials: every pairwise product of terms,
    /// concatenated and merged.
    pub fn mul(self, rhs: Poly) -> (r: Poly)
        ensures
            r@ == spec_poly_mul(self@, rhs@),
    {
        let ghost sa = view_monos(self.terms@);
        let ghost sb = view_monos(rhs.terms@);
        let ghost pp = pairwise_products(sa, sb);
        proof {
            lemma_view_monos(self.terms@);
            lemma_view_monos(rhs.terms@);
        }
        let an = self.terms.len();
        let bn = rhs.terms.len();
        let mut products: Vec<Mono> = Vec::new();
        let mut i: usize = 0;
        while i < an
            invariant
                i <= an,
                an == self.terms.len(),
                bn == rhs.terms.len(),
                sa == view_monos(self.terms@),
                sb == view_monos(rhs.terms@),
                pp == pairwise_products(sa, sb),
                sa.len() == an as int,
                sb.len() == bn as int,
                pp.len() == an as int * bn as int,
                forall|k: int| 0 <= k < an ==> #[trigger] sa[k] == self.terms@[k]@,
                forall|k: int| 0 <= k < bn ==> #[trigger] sb[k] == rhs.terms@[k]@,
                products@.len() == i as int * bn as int,
                forall|k: int|
                    0 <= k < products@.len() ==> #[trigger] products@[k]@ == pp[k],
            decreases an - i,
        {
            let mut j: usize = 0;
            while j < bn
                invariant
                    i < an,
                    j <= bn,
                    an == self.terms.len(),
                    bn == rhs.terms.len(),
                    sa == view_monos(self.terms@),
                    sb == view_monos(rhs.terms@),
                    pp == pairwise_products(sa, sb),
                    sa.len() == an as int,
                    sb.len() == bn as int,
                    pp.len() == an as int * bn as int,
                    forall|k: int| 0 <= k < an ==> #[trigger] sa[k] == self.terms@[k]@,
                    forall|k: int| 0 <= k < bn ==> #[trigger] sb[k] == rhs.terms@[k]@,
                    products@.len() == i as int * bn as int + j as int,
                    forall|k: int|
                        0 <= k < products@.len() ==> #[trigger] products@[k]@ == pp[k],
                decreases bn - j,
            {
                let t = self.terms[i].deep_clone().mul(rhs.terms[j].deep_clone());
                proof {
                    let k = i as int * bn as int + j as int;
                    assert(0 <= k && k < an as int * bn as int) by (nonlinear_arith)
                        requires
                            0 <= (i as int) && (i as int) < (an as int),
                            0 <= (j as int) && (j as int) < (bn as int),
                            k == i as int * bn as int + j as int,
                    ;
                    assert(0 <= k && k < pp.len());
                    assert(k / bn as int == i as int && k % bn as int == j as int)
                        by (nonlinear_arith)
                        requires
                            0 <= i as int,
                            0 <= (j as int) && (j as int) < (bn as int),
                            k == i as int * bn as int + j as int,
                    ;
                    assert(pp[k] == spec_mono_mul(sa[i as int], sb[j as int]));
                }
                products.push(t);
                j += 1;
            }
            proof {
                assert((i as int + 1) * bn as int == i as int * bn as int + bn as int)
                    by (nonlinear_arith);
            }
            i += 1;
        }
        proof {
            lemma_view_monos(products@);
            assert forall|k: int| 0 <= k < pp.len() implies #[trigger] view_monos(products@)[k]
                == pp[k] by {
                assert(products@[k]@ == pp[k]);
                assert(view_monos(products@)[k] == products@[k]@);
            }
            assert(view_monos(products@) =~= pp);
        }
        let mut p = Poly { terms: products };
        p.merge_terms();
        p
    }
}

impl Mono {
    /// If the monomial has a factor with the given base and at least the
    /// given power, returns the monomial that remains after dividing that
    /// factor out; otherwise returns nothing.
    pub fn extract(&self, factor: &Factor) -> (r: Option<Mono>)
        ensures
            (match r {
                Some(m) => spec_extract(self@, factor@) == Some(m@),
                None => spec_extract(self@, factor@) is None,
            }),
    {
        let ghost s = view_factors(self.factors@);
        let ghost fv = factor@;
        proof {
            lemma_view_factors(self.factors@);
            assert(s.skip(0) =~= s);
            assert(s.take(0) =~= Seq::<FactorS>::empty());
        }
        let n = self.factors.len();
        let mut i: usize = 0;
        while i < n
            invariant
                i <= n,
                n == self.factors.len(),
                s == view_factors(self.factors@),
                fv == factor@,
                s.len() == n as int,
                forall|k: int| 0 <= k < n ==> #[trigger] s[k] == self.factors@[k]@,
                extract_factors(s, fv) == (match extract_factors(s.skip(i as int), fv) {
                    None => None::<Seq<FactorS>>,
                    Some(t) => Some(s.take(i as int) + t),
                }),
            decreases n - i,
        {
            proof {
                assert(s.skip(i as int)[0] == s[i as int]);
                assert(s.skip(i as int).drop_first() =~= s.skip(i + 1));
            }
            if self.factors[i].base == factor.base {
                if self.factors[i].power >= factor.power {
                    let np = self.factors[i].power.wrapping_sub(factor.power);
                    let mut out: Vec<Factor> = Vec::new();
                    let mut j: usize = 0;
                    while j < n
                        invariant
                            j <= n,
                            i < n,
                            n == self.factors.len(),
                            s == view_factors(self.factors@),
                            s.len() == n as int,
                            forall|k: int| 0 <= k < n ==> #[trigger] s[k] == self.factors@[k]@,
                            np == s[i as int].power.wrapping_sub(fv.power),
                            fv == factor@,
                            view_factors(out@) == (if j <= i {
                                s.take(j as int)
                            } else if np == 0 {
                                s.take(i as int) + s.skip(i + 1).take(j - i - 1)
                            } else {
                                s.take(i as int) + seq![
                                    FactorS { base: s[i as int].base, power: np },
                                ] + s.skip(i + 1).take(j - i - 1)
                            }),
                        decreases n - j,
                    {
                        let ghost outv = out@;
                        let ghost before = view_factors(out@);
                        if j == i {
                            if np != 0 {
                                let nf = Factor { base: self.factors[j].base.deep_clone(), power: np };
                                out.push(nf);
                                proof {
                                    assert(out@.drop_last() =~= outv);
                                    assert(out@.last() == nf);
                                    assert(nf@ == FactorS { base: s[i as int].base, power: np });
                                    assert(view_factors(out@) == before.push(
                                        FactorS { base: s[i as int].base, power: np },
                                    ));
                                    assert(view_factors(out@) =~= s.take(i as int) + seq![
                                        FactorS { base: s[i as int].base, power: np },
                                    ] + s.skip(i + 1).take(0));
                                }
                            } else {
                                proof {
                                    assert(view_factors(out@) =~= s.take(i as int) + s.skip(
                                        i + 1,
                                    ).take(0));
                                }
                            }
                        } else {
                            let f = self.factors[j].deep_clone();
                            out.push(f);
                            proof {
                                assert(out@.drop_last() =~= outv);
                                assert(out@.last() == f);
                                assert(f@ == s[j as int]);
                                assert(view_factors(out@) == before.push(s[j as int]));
                                if j < i {
                                    assert(view_factors(out@) =~= s.take(j + 1));
                                } else {
                                    assert(s.skip(i + 1).take(j - i) =~= s.skip(i + 1).take(
                                        j - i - 1,
                                    ).push(s[j as int]));
                                    if np == 0 {
                                        assert(view_factors(out@) =~= s.take(i as int) + s.skip(
                                            i + 1,
                                        ).take(j - i));
                                    } else {
                                        assert(view_factors(out@) =~= s.take(i as int) + seq![
                                            FactorS { base: s[i as int].base, power: np },
                                        ] + s.skip(i + 1).take(j - i));
                                    }
                                }
                            }
                        }
                        j += 1;
                    }
                    let r = Mono { coeff: self.coeff, factors: out };
                    proof {
                        assert(s.skip(i + 1).take(n - i - 1) =~= s.skip(i + 1));
                        if np == 0 {
                            assert(extract_factors(s.skip(i as int), fv) == Some(s.skip(i + 1)));
                            assert(r@.factors =~= s.take(i as int) + s.skip(i + 1));
                        } else {
                            assert(extract_factors(s.skip(i as int), fv) == Some(
                                seq![FactorS { base: s[i as int].base, power: np }] + s.skip(i + 1),
                            ));
                            assert(r@.factors =~= s.take(i as int) + (seq![
                                FactorS { base: s[i as int].base, power: np },
                            ] + s.skip(i + 1)));
                        }
                    }
                    return Some(r);
                } else {
                    proof {
                        assert(extract_factors(s.skip(i as int), fv) is None);
                    }
                    return None;
                }
            }
            proof {
                assert(s.take(i + 1) =~= s.take(i as int).push(s[i as int]));
                assert forall|t: Seq<FactorS>|
                    extract_factors(s.skip(i + 1), fv) == Some(t) implies s.take(i as int) + (
                seq![s[i as int]] + t) =~= s.take(i + 1) + t by {}
            }
            i += 1;
        }
        proof {
            assert(s.skip(n as int).len() == 0);
        }
        None
    }
}

/// The first target factor, from position `k` on, that the monomial can be
/// divided by, together with the quotient.
pub open spec fn try_targets(m: MonoS, fs: Seq<FactorS>, k: int) -> Option<(int, MonoS)>
    decreases fs.len() - k,
{
    if k < 0 || k >= fs.len() {
        None
    } else {
        match spec_extract(m, fs[k]) {
            Some(q) => Some((k, q)),
            None => try_targets(m, fs, k + 1),
        }
    }
}

/// Collecting terms by target factors: each term joins the bucket of the
/// first target it can be divided by, as its quotient; a term no target
/// divides goes to the remainder unchanged.
pub open spec fn collect_terms(ts: Seq<MonoS>, fs: Seq<FactorS>) -> (Seq<PolyS>, Seq<MonoS>)
    decreases ts,
{
    if ts.len() == 0 {
        (Seq::new(fs.len(), |i: int| PolyS { terms: Seq::empty() }), Seq::empty())
    } else {
        let (bs, rem) = collect_terms(ts.drop_first(), fs);
        match try_targets(ts[0], fs, 0) {
            Some((i, q)) => (bs.update(i, PolyS { terms: seq![q] + bs[i].terms }), rem),
            None => (bs, seq![ts[0]] + rem),
        }
    }
}

/// A found target index lies within the target list.
pub proof fn lemma_try_targets_bound(m: MonoS, fs: Seq<FactorS>, k: int)
    ensures
        try_targets(m, fs, k) matches Some((i, q)) ==> k <= i < fs.len(),
    decreases fs.len() - k,
{
    if 0 <= k < fs.len() {
        lemma_try_targets_bound(m, fs, k + 1);
    }
}

/// Collecting yields one bucket per target.
pub proof fn lemma_collect_terms_len(ts: Seq<MonoS>, fs: Seq<FactorS>)
    ensures
        collect_terms(ts, fs).0.len() == fs.len(),
    decreases ts,
{
    if ts.len() > 0 {
        lemma_collect_terms_len(ts.drop_first(), fs);
        lemma_try_targets_bound(ts[0], fs, 0);
    }
}

impl Mono {
    /// The first target factor, from position `k` on, that divides this
    /// monomial, with the quotient.
    fn try_targets_from(&self, fs: &Vec<Factor>, k: usize) -> (r: Option<(usize, Mono)>)
        requires
            k <= fs.len(),
        ensures
            (match r {
                Some((i, q)) => k <= i < fs@.len() && try_targets(
                    self@,
                    view_factors(fs@),
                    k as int,
                ) == Some((i as int, q@)),
                None => try_targets(self@, view_factors(fs@), k as int) is None,
            }),
        decreases fs.len() - k,
    {
        proof {
            lemma_view_factors(fs@);
        }
        if k == fs.len() {
            return None;
        }
        match self.extract(&fs[k]) {
            Some(q) => Some((k, q)),
            None => self.try_targets_from(fs, k + 1),
        }
    }
}

impl Poly {
    /// Splits the polynomial by the target factors: for each term, the first
    /// target that divides it claims the quotient into its bucket; the terms
    /// no target divides form the remainder.  The buckets are parallel to the
    /// targets.
    pub fn collect_by(&self, factors: &Vec<Factor>) -> (r: (Vec<Poly>, Poly))
        ensures
            ({
                let (bs, rem) = collect_terms(self@.terms, view_factors(factors@));
                view_polys(r.0@) == bs && r.1@.terms == rem
            }),
    {
        let ghost s = view_monos(self.terms@);
        let ghost vfs = view_factors(factors@);
        proof {
            lemma_view_monos(self.terms@);
            lemma_view_factors(factors@);
        }
        let mut bs: Vec<Poly> = Vec::new();
        let nf = factors.len();
        let mut j: usize = 0;
        while j < nf
            invariant
                j <= nf,
                bs@.len() == j as int,
                forall|k: int| 0 <= k < j ==> (#[trigger] bs@[k])@.terms.len() == 0,
            decreases nf - j,
        {
            bs.push(Poly::zero());
            j += 1;
        }
        let mut rem = Poly::zero();
        let n = self.terms.len();
        proof {
            lemma_view_polys(bs@);
            assert(s.skip(n as int).len() == 0);
            let (sb, sr) = collect_terms(s.skip(n as int), vfs);
            assert forall|k: int| 0 <= k < nf implies #[trigger] view_polys(bs@)[k] == sb[k] by {
                assert(view_polys(bs@)[k] == bs@[k]@);
                assert(bs@[k]@.terms =~= Seq::<MonoS>::empty());
                assert(sb[k] == (PolyS { terms: Seq::<MonoS>::empty() }));
                assert(bs@[k]@ =~= sb[k]);
            }
            assert(view_polys(bs@) =~= sb);
        }
        let mut i = n;
        while i > 0
            invariant
                i <= n,
                n == self.terms.len(),
                s == view_monos(self.terms@),
                vfs == view_factors(factors@),
                s.len() == n as int,
                forall|k: int| 0 <= k < n ==> #[trigger] s[k] == self.terms@[k]@,
                view_polys(bs@) == collect_terms(s.skip(i as int), vfs).0,
                rem@.terms == collect_terms(s.skip(i as int), vfs).1,
            decreases i,
        {
            i -= 1;
            let ghost tail = collect_terms(s.skip(i + 1), vfs);
            proof {
                assert(s.skip(i as int).drop_first() =~= s.skip(i + 1));
                assert(s.skip(i as int)[0] == s[i as int]);
                assert(self.terms@[i as int]@ == s[i as int]);
            }
            match self.terms[i].try_targets_from(factors, 0) {
                Some((idx, q)) => {
                    let ghost bs0 = view_polys(bs@);
                    proof {
                        lemma_collect_terms_len(s.skip(i + 1), vfs);
                        lemma_view_polys(bs@);
                        lemma_view_factors(factors@);
                        assert(vfs.len() == factors@.len());
                        assert(bs@.len() == vfs.len());
                    }
                    let mut b = bs.remove(idx);
                    let ghost bv = b.terms@;
                    b.terms.insert(0, q);
                    proof {
                        assert(b.terms@ == bv.insert(0, q));
                        lemma_view_monos(b.terms@);
                        lemma_view_monos(bv);
                        assert forall|k: int| 0 <= k < b.terms@.len() implies #[trigger] view_monos(
                            b.terms@,
                        )[k] == (seq![q@] + view_monos(bv))[k] by {
                            assert(view_monos(b.terms@)[k] == b.terms@[k]@);
                            if k == 0 {
                                assert(b.terms@[0] == q);
                            } else {
                                assert(b.terms@[k] == bv[k - 1]);
                            }
                        }
                        assert(view_monos(b.terms@) =~= seq![q@] + view_monos(bv));
                    }
                    bs.insert(idx, b);
                    proof {
                        lemma_view_polys(bs@);
                        let target = bs0.update(
                            idx as int,
                            PolyS { terms: seq![q@] + bs0[idx as int].terms },
                        );
                        assert forall|k: int| 0 <= k < bs@.len() implies #[trigger] view_polys(
                            bs@,
                        )[k] == target[k] by {
                            assert(view_polys(bs@)[k] == bs@[k]@);
                            if k == idx {
                                assert(b@.terms =~= seq![q@] + bs0[idx as int].terms) by {
                                    lemma_view_monos(b.terms@);
                                }
                            }
                        }
                        assert(view_polys(bs@) =~= target);
                    }
                },
                None => {
                    let t = self.terms[i].deep_clone();
                    let ghost rem0 = rem@.terms;
                    let ghost remv = rem.terms@;
                    rem.terms.insert(0, t);
                    proof {
                        assert(rem.terms@ == remv.insert(0, t));
                        lemma_view_monos(rem.terms@);
                        lemma_view_monos(remv);
                        assert forall|k: int|
                            0 <= k < rem.terms@.len() implies #[trigger] view_monos(
                            rem.terms@,
                        )[k] == (seq![s[i as int]] + rem0)[k] by {
                            assert(view_monos(rem.terms@)[k] == rem.terms@[k]@);
                            if k == 0 {
                                assert(rem.terms@[0] == t);
                            } else {
                                assert(rem.terms@[k] == remv[k - 1]);
                            }
                        }
                        assert(view_monos(rem.terms@) =~= seq![s[i as int]] + rem0);
                    }
                },
            }
        }
        proof {
            assert(s.skip(0) =~= s);
        }
        (bs, rem)
    }
}

} // verus!
