//! Laws of the algebra stated as public proof functions.
use vstd::prelude::*;

use crate::canon::{lemma_merge_factors_wf, lemma_merge_terms_wf, spec_merge_factors,
    spec_merge_terms, wf_factors, wf_terms_shape};
use crate::model::{FactorS, MonoS, PolyS};
use crate::poly::mono_has_nested;
use crate::transform::{expand_terms, spec_expand_poly};

verus! {

/// A polynomial no term of which carries a nested-polynomial factor.
pub open spec fn no_nested(p: PolyS) -> bool {
    forall|i: int| 0 <= i < p.terms.len() ==> !mono_has_nested(#[trigger] p.terms[i])
}

/// Flattening a term sequence without nested factors keeps every term.
proof fn lemma_expand_terms_id(ts: Seq<MonoS>)
    requires
        forall|i: int| 0 <= i < ts.len() ==> !mono_has_nested(#[trigger] ts[i]),
    ensures
        expand_terms(ts) == ts,
    decreases ts,
{
    if ts.len() > 0 {
        assert forall|i: int| 0 <= i < ts.drop_first().len() implies !mono_has_nested(
            #[trigger] ts.drop_first()[i],
        ) by {
            assert(ts.drop_first()[i] == ts[i + 1]);
        }
        lemma_expand_terms_id(ts.drop_first());
        assert(expand_terms(ts) =~= ts);
    } else {
        assert(expand_terms(ts) =~= ts);
    }
}

/// A polynomial without nested factors is a fixed point of flattening: a
/// second flattening pass after one that removed every nested factor leaves
/// the polynomial unchanged.
pub proof fn law_expand_fixed_point(p: PolyS)
    requires
        no_nested(p),
    ensures
        spec_expand_poly(p) == p,
{
    lemma_expand_terms_id(p.terms);
    assert(spec_expand_poly(p) =~= p);
}

/// Merging like terms is idempotent: one pass already leaves the canonical
/// shape, and a second pass returns it unchanged.
pub proof fn law_merge_terms_idempotent(s: Seq<MonoS>)
    ensures
        spec_merge_terms(spec_merge_terms(s)) == spec_merge_terms(s),
        wf_terms_shape(spec_merge_terms(s)),
{
    lemma_merge_terms_wf(s);
}

/// Merging like factors is idempotent: one pass already leaves the canonical
/// shape, and a second pass returns it unchanged.
pub proof fn law_merge_factors_idempotent(s: Seq<FactorS>)
    ensures
        spec_merge_factors(spec_merge_factors(s)) == spec_merge_factors(s),
        wf_factors(spec_merge_factors(s)),
{
    lemma_merge_factors_wf(s);
}

/// A factor sequence with no nested-polynomial base.
pub open spec fn factors_no_nested(s: Seq<FactorS>) -> bool {
    forall|i: int| 0 <= i < s.len() ==> !((#[trigger] s[i]).base is Poly)
}

/// Merging keeps a factor sequence free of nested bases.
proof fn lemma_merge_factors_no_nested(a: Seq<FactorS>)
    requires
        factors_no_nested(a),
    ensures
        factors_no_nested(crate::canon::spec_merge_factors(a)),
{
    crate::canon::lemma_merge_factor_seq_ordered(a);
    let m = crate::canon::merge_factor_seq(a);
    crate::canon::lemma_drop_zero_factors(m);
    let r = crate::canon::drop_zero_factors(m);
    assert forall|i: int| 0 <= i < r.len() implies !((#[trigger] r[i]).base is Poly) by {
        let j = choose|j: int| 0 <= j < m.len() && r[i] == m[j];
        let k = choose|k: int| 0 <= k < a.len() && m[j].base == a[k].base;
        assert(!(a[k].base is Poly));
    }
}

/// The product of two monomials without nested factors has none.
proof fn lemma_mono_mul_no_nested(a: MonoS, b: MonoS)
    requires
        !mono_has_nested(a),
        !mono_has_nested(b),
    ensures
        !mono_has_nested(crate::poly::spec_mono_mul(a, b)),
{
    assert forall|i: int| 0 <= i < (a.factors + b.factors).len() implies !((#[trigger] (a.factors
        + b.factors)[i]).base is Poly) by {
        if i < a.factors.len() {
            assert((a.factors + b.factors)[i] == a.factors[i]);
            assert(!mono_has_nested(a));
        } else {
            assert((a.factors + b.factors)[i] == b.factors[i - a.factors.len()]);
        }
    }
    lemma_merge_factors_no_nested(a.factors + b.factors);
    assert forall|i: int|
        0 <= i < crate::poly::spec_mono_mul(a, b).factors.len() implies !((
    #[trigger] crate::poly::spec_mono_mul(a, b).factors[i]).base is Poly) by {}
}

/// Merging keeps a term sequence free of nested factors.
proof fn lemma_merge_terms_no_nested(ts: Seq<MonoS>)
    requires
        forall|i: int| 0 <= i < ts.len() ==> !mono_has_nested(#[trigger] ts[i]),
    ensures
        forall|i: int|
            0 <= i < spec_merge_terms(ts).len() ==> !mono_has_nested(
                #[trigger] spec_merge_terms(ts)[i],
            ),
{
    crate::canon::lemma_merge_term_seq_ordered(ts);
    let m = crate::canon::merge_term_seq(ts);
    crate::canon::lemma_drop_zero_terms(m);
    let r = crate::canon::drop_zero_terms(m);
    assert forall|i: int| 0 <= i < r.len() implies !mono_has_nested(#[trigger] r[i]) by {
        let j = choose|j: int| 0 <= j < m.len() && r[i] == m[j];
        let k = choose|k: int| 0 <= k < ts.len() && m[j].factors == ts[k].factors;
        assert(!mono_has_nested(ts[k]));
    }
}

/// The product of two polynomials without nested factors has none.
proof fn lemma_poly_mul_no_nested(a: PolyS, b: PolyS)
    requires
        no_nested(a),
        no_nested(b),
    ensures
        no_nested(crate::poly::spec_poly_mul(a, b)),
{
    let pp = crate::poly::pairwise_products(a.terms, b.terms);
    let bn = b.terms.len() as int;
    assert forall|k: int| 0 <= k < pp.len() implies !mono_has_nested(#[trigger] pp[k]) by {
        if bn > 0 {
            assert(0 <= k / bn && k / bn < a.terms.len() && 0 <= k % bn && k % bn < bn)
                by (nonlinear_arith)
                requires
                    0 <= k,
                    k < a.terms.len() * bn,
                    bn > 0,
            ;
            lemma_mono_mul_no_nested(a.terms[k / bn], b.terms[k % bn]);
        } else {
            assert(a.terms.len() * bn == 0) by (nonlinear_arith)
                requires
                    bn == 0,
            ;
        }
    }
    lemma_merge_terms_no_nested(pp);
}

/// The product of a list of polynomials without nested factors has none.
proof fn lemma_prod_no_nested(ps: Seq<PolyS>)
    requires
        forall|i: int| 0 <= i < ps.len() ==> no_nested(#[trigger] ps[i]),
    ensures
        no_nested(crate::transform::prod_from_end(ps)),
    decreases ps,
{
    if ps.len() > 1 {
        assert forall|i: int| 0 <= i < ps.drop_first().len() implies no_nested(
            #[trigger] ps.drop_first()[i],
        ) by {
            assert(ps.drop_first()[i] == ps[i + 1]);
        }
        lemma_prod_no_nested(ps.drop_first());
        lemma_poly_mul_no_nested(crate::transform::prod_from_end(ps.drop_first()), ps[0]);
    }
}

/// The factors a split leaves outside the nested ones carry no nested base.
proof fn lemma_plain_no_nested(s: Seq<FactorS>)
    ensures
        factors_no_nested(crate::transform::plain_of(s)),
    decreases s,
{
    if s.len() > 0 {
        lemma_plain_no_nested(s.drop_first());
        let r = crate::transform::plain_of(s);
        let rt = crate::transform::plain_of(s.drop_first());
        assert forall|i: int| 0 <= i < r.len() implies !((#[trigger] r[i]).base is Poly) by {
            if !(s[0].base is Poly) && i > 0 {
                assert(r[i] == rt[i - 1]);
            }
        }
    }
}

/// Every flattened nested sub-polynomial is itself free of nested factors.
proof fn lemma_expand_nested_each(s: Seq<FactorS>)
    ensures
        forall|k: int|
            0 <= k < crate::transform::expand_nested_of(s).len() ==> no_nested(
                #[trigger] crate::transform::expand_nested_of(s)[k],
            ),
    decreases s, 3int,
{
    if s.len() > 0 {
        lemma_expand_nested_each(s.drop_first());
        let r = crate::transform::expand_nested_of(s);
        let rt = crate::transform::expand_nested_of(s.drop_first());
        assert forall|k: int| 0 <= k < r.len() implies no_nested(#[trigger] r[k]) by {
            match s[0].base {
                crate::model::BaseS::Poly { poly } => {
                    if k == 0 {
                        assert(decreases_to!(s => s[0]));
                        assert(decreases_to!(s[0] => s[0].base));
                        lemma_expand_poly_no_nested(poly);
                    } else {
                        assert(r[k] == rt[k - 1]);
                    }
                },
                _ => {
                    assert(r[k] == rt[k]);
                },
            }
        }
    }
}

/// Flattening one monomial leaves no nested factor.
proof fn lemma_expand_mono_no_nested(m: MonoS)
    ensures
        no_nested(crate::transform::spec_expand_mono(m)),
    decreases m, 2int,
{
    assert(decreases_to!(m => m.factors));
    lemma_expand_nested_each(m.factors);
    lemma_plain_no_nested(m.factors);
    let nested = crate::transform::expand_nested_of(m.factors);
    let single = PolyS {
        terms: seq![
            MonoS { coeff: m.coeff, factors: crate::transform::plain_of(m.factors) },
        ],
    };
    assert(no_nested(single));
    if nested.len() > 0 {
        lemma_prod_no_nested(nested);
        lemma_poly_mul_no_nested(crate::transform::prod_from_end(nested), single);
    }
}

/// Flattening a term sequence leaves no nested factor.
proof fn lemma_expand_terms_no_nested(ts: Seq<MonoS>)
    ensures
        forall|i: int|
            0 <= i < expand_terms(ts).len() ==> !mono_has_nested(#[trigger] expand_terms(ts)[i]),
    decreases ts, 1int,
{
    if ts.len() > 0 {
        lemma_expand_terms_no_nested(ts.drop_first());
        let r = expand_terms(ts);
        let rt = expand_terms(ts.drop_first());
        let head: Seq<MonoS> = if mono_has_nested(ts[0]) {
            assert(decreases_to!(ts => ts[0]));
            lemma_expand_mono_no_nested(ts[0]);
            crate::transform::spec_expand_mono(ts[0]).terms
        } else {
            seq![ts[0]]
        };
        assert forall|i: int| 0 <= i < r.len() implies !mono_has_nested(#[trigger] r[i]) by {
            if i < head.len() {
                assert(r[i] == head[i]);
            } else {
                assert(r[i] == rt[i - head.len()]);
            }
        }
    }
}

/// Flattening a polynomial leaves no nested factor: after one pass, no
/// top-level term carries a nested sub-polynomial, and by the fixed-point
/// law a second pass returns the result unchanged.
pub proof fn law_expand_flattens(p: PolyS)
    ensures
        no_nested(crate::transform::spec_expand_poly(p)),
        crate::transform::spec_expand_poly(crate::transform::spec_expand_poly(p))
            == crate::transform::spec_expand_poly(p),
{
    lemma_expand_terms_no_nested(p.terms);
    assert(crate::transform::spec_expand_poly(p).terms == expand_terms(p.terms));
    law_expand_fixed_point(crate::transform::spec_expand_poly(p));
}

/// Flattening a polynomial leaves no nested factor, stated for the mutual
/// induction above.
proof fn lemma_expand_poly_no_nested(p: PolyS)
    ensures
        no_nested(crate::transform::spec_expand_poly(p)),
    decreases p, 0int,
{
    assert(decreases_to!(p => p.terms));
    lemma_expand_terms_no_nested(p.terms);
    assert(crate::transform::spec_expand_poly(p).terms == expand_terms(p.terms));
}

} // verus!
