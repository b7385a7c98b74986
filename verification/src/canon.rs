//! The canonical form: merging like factors and like terms, the
//! well-formedness predicates that describe the sorted, merged, zero-free
//! shape, and the proofs that merging establishes it and that a second merge
//! changes nothing.
//!
//! Coefficient and power arithmetic wraps on overflow, exactly as the
//! executable operations do.
use vstd::prelude::*;

use crate::model::{Base, BaseS, Factor, FactorS, Mono, MonoS, Poly, PolyS};
use crate::model::{lemma_view_factors, lemma_view_monos, view_factors, view_monos};
use crate::order::{cmp_base, cmp_factor, cmp_factors, cmp_mono, cmp_monos, cmp_poly, Cmp, flip};
use crate::order::{lemma_cmp_base_flip, lemma_cmp_base_refl, lemma_cmp_base_trans,
    lemma_cmp_factors_flip, lemma_cmp_factors_refl, lemma_cmp_factors_trans};

verus! {

broadcast use vstd::seq::group_seq_axioms, vstd::std_specs::vec::group_vec_axioms;

/// A factor sequence whose bases are weakly sorted and pairwise distinct.
/// Bases that differ only inside a nested coefficient compare as `Eq`, so the
/// sortedness is weak; distinctness is structural.
pub open spec fn ordered_factors(s: Seq<FactorS>) -> bool {
    &&& forall|i: int, j: int|
        0 <= i < j < s.len() ==> cmp_base(#[trigger] s[i].base, #[trigger] s[j].base) != Cmp::Gt
    &&& forall|i: int, j: int| 0 <= i < j < s.len() ==> s[i].base != s[j].base
}

/// The canonical shape of a monomial's factor list: weakly sorted, pairwise
/// distinct bases, and no factor with power zero.
pub open spec fn wf_factors(s: Seq<FactorS>) -> bool {
    &&& ordered_factors(s)
    &&& forall|i: int| 0 <= i < s.len() ==> (#[trigger] s[i]).power != 0
}

/// The canonical shape of a monomial.
pub open spec fn wf_mono(m: MonoS) -> bool {
    wf_factors(m.factors)
}

/// A term sequence whose factor-sequence keys are weakly sorted and pairwise
/// distinct.
pub open spec fn ordered_terms(s: Seq<MonoS>) -> bool {
    &&& forall|i: int, j: int|
        0 <= i < j < s.len() ==> cmp_factors(
            #[trigger] s[i].factors,
            #[trigger] s[j].factors,
        ) != Cmp::Gt
    &&& forall|i: int, j: int| 0 <= i < j < s.len() ==> s[i].factors != s[j].factors
}

/// The canonical shape of a polynomial: terms weakly sorted with pairwise
/// distinct factor sequences, no zero coefficient, and each term itself
/// canonical.
pub open spec fn wf_poly(p: PolyS) -> bool {
    &&& ordered_terms(p.terms)
    &&& forall|i: int| 0 <= i < p.terms.len() ==> (#[trigger] p.terms[i]).coeff != 0
    &&& forall|i: int| 0 <= i < p.terms.len() ==> wf_mono(#[trigger] p.terms[i])
}

/// Places one factor into a merged sequence: a factor with the same base has
/// the powers added (wrapping), a strictly greater base is passed over, and
/// otherwise the factor is inserted in front of the first strictly greater
/// entry, after any entries that merely tie in the order.
pub open spec fn add_factor(acc: Seq<FactorS>, f: FactorS) -> Seq<FactorS>
    decreases acc,
{
    if acc.len() == 0 {
        seq![f]
    } else if acc[0].base == f.base {
        seq![FactorS { base: acc[0].base, power: acc[0].power.wrapping_add(f.power) }]
            + acc.drop_first()
    } else if cmp_base(f.base, acc[0].base) == Cmp::Lt {
        seq![f] + acc
    } else {
        seq![acc[0]] + add_factor(acc.drop_first(), f)
    }
}

/// Folds a factor sequence into merged form, left to right.
pub open spec fn merge_factor_seq(s: Seq<FactorS>) -> Seq<FactorS>
    decreases s,
{
    if s.len() == 0 {
        Seq::empty()
    } else {
        add_factor(merge_factor_seq(s.drop_last()), s.last())
    }
}

/// Removes the factors whose merged power came to zero.
pub open spec fn drop_zero_factors(s: Seq<FactorS>) -> Seq<FactorS>
    decreases s,
{
    if s.len() == 0 {
        Seq::empty()
    } else if s[0].power == 0 {
        drop_zero_factors(s.drop_first())
    } else {
        seq![s[0]] + drop_zero_factors(s.drop_first())
    }
}

/// What `merge_factors` computes: like bases merged by adding powers,
/// zero powers discarded, the rest sorted by base.
pub open spec fn spec_merge_factors(s: Seq<FactorS>) -> Seq<FactorS> {
    drop_zero_factors(merge_factor_seq(s))
}

/// Places one term into a merged sequence: a term with the same factor
/// sequence has the coefficients added (wrapping), and otherwise the term is
/// inserted in front of the first strictly greater entry.
pub open spec fn add_term(acc: Seq<MonoS>, m: MonoS) -> Seq<MonoS>
    decreases acc,
{
    if acc.len() == 0 {
        seq![m]
    } else if acc[0].factors == m.factors {
        seq![MonoS { coeff: acc[0].coeff.wrapping_add(m.coeff), factors: acc[0].factors }]
            + acc.drop_first()
    } else if cmp_factors(m.factors, acc[0].factors) == Cmp::Lt {
        seq![m] + acc
    } else {
        seq![acc[0]] + add_term(acc.drop_first(), m)
    }
}

/// Folds a term sequence into merged form, left to right.
pub open spec fn merge_term_seq(s: Seq<MonoS>) -> Seq<MonoS>
    decreases s,
{
    if s.len() == 0 {
        Seq::empty()
    } else {
        add_term(merge_term_seq(s.drop_last()), s.last())
    }
}

/// Removes the terms whose merged coefficient came to zero.
pub open spec fn drop_zero_terms(s: Seq<MonoS>) -> Seq<MonoS>
    decreases s,
{
    if s.len() == 0 {
        Seq::empty()
    } else if s[0].coeff == 0 {
        drop_zero_terms(s.drop_first())
    } else {
        seq![s[0]] + drop_zero_terms(s.drop_first())
    }
}

/// What `merge_terms` computes: like terms merged by adding coefficients,
/// zero coefficients discarded, the rest sorted by factor sequence.
pub open spec fn spec_merge_terms(s: Seq<MonoS>) -> Seq<MonoS> {
    drop_zero_terms(merge_term_seq(s))
}

/// Placing a factor keeps the sequence weakly sorted with distinct bases,
/// adds no base beyond the given ones, and never shrinks the sequence.
#[verifier::rlimit(100)]
pub proof fn lemma_add_factor_ordered(acc: Seq<FactorS>, f: FactorS)
    requires
        ordered_factors(acc),
    ensures
        ordered_factors(add_factor(acc, f)),
        forall|k: int|
            0 <= k < add_factor(acc, f).len() ==> (#[trigger] add_factor(acc, f)[k].base
                == f.base || exists|j: int| 0 <= j < acc.len() && add_factor(acc, f)[k].base
                == acc[j].base),
        acc.len() <= add_factor(acc, f).len() <= acc.len() + 1,
    decreases acc,
{
    let r = add_factor(acc, f);
    if acc.len() == 0 {
    } else if acc[0].base == f.base {
        assert forall|k: int| 0 <= k < r.len() implies (#[trigger] r[k].base == f.base || exists|
        j: int|
            0 <= j < acc.len() && r[k].base == acc[j].base) by {
            if k > 0 {
                assert(r[k] == acc[k]);
                assert(r[k].base == acc[k].base);
            }
        }
        assert forall|i: int, j: int| 0 <= i < j < r.len() implies cmp_base(
            #[trigger] r[i].base,
            #[trigger] r[j].base,
        ) != Cmp::Gt && r[i].base != r[j].base by {
            assert(r[i].base == acc[i].base);
            assert(r[j] == acc[j]);
        }
    } else if cmp_base(f.base, acc[0].base) == Cmp::Lt {
        assert forall|i: int, j: int| 0 <= i < j < r.len() implies cmp_base(
            #[trigger] r[i].base,
            #[trigger] r[j].base,
        ) != Cmp::Gt && r[i].base != r[j].base by {
            if i == 0 {
                assert(r[j] == acc[j - 1]);
                if j > 1 {
                    lemma_cmp_base_trans(f.base, acc[0].base, acc[j - 1].base);
                }
                lemma_cmp_base_refl(f.base);
            } else {
                assert(r[i] == acc[i - 1]);
                assert(r[j] == acc[j - 1]);
            }
        }
        assert forall|k: int| 0 <= k < r.len() implies (#[trigger] r[k].base == f.base || exists|
        j: int|
            0 <= j < acc.len() && r[k].base == acc[j].base) by {
            if k > 0 {
                assert(r[k].base == acc[k - 1].base);
            }
        }
    } else {
        let tail = acc.drop_first();
        assert forall|i: int, j: int| 0 <= i < j < tail.len() implies cmp_base(
            #[trigger] tail[i].base,
            #[trigger] tail[j].base,
        ) != Cmp::Gt && tail[i].base != tail[j].base by {
            assert(tail[i] == acc[i + 1]);
            assert(tail[j] == acc[j + 1]);
        }
        lemma_add_factor_ordered(tail, f);
        let rt = add_factor(tail, f);
        assert(r == seq![acc[0]] + rt);
        lemma_cmp_base_flip(f.base, acc[0].base);
        assert(cmp_base(acc[0].base, f.base) != Cmp::Gt);
        assert forall|i: int, j: int| 0 <= i < j < r.len() implies cmp_base(
            #[trigger] r[i].base,
            #[trigger] r[j].base,
        ) != Cmp::Gt && r[i].base != r[j].base by {
            if i == 0 {
                assert(r[j] == rt[j - 1]);
                if rt[j - 1].base == f.base {
                } else {
                    let jj = choose|jj: int|
                        0 <= jj < tail.len() && rt[j - 1].base == tail[jj].base;
                    assert(tail[jj] == acc[jj + 1]);
                }
            } else {
                assert(r[i] == rt[i - 1]);
                assert(r[j] == rt[j - 1]);
            }
        }
        assert forall|k: int| 0 <= k < r.len() implies (#[trigger] r[k].base == f.base || exists|
        j: int|
            0 <= j < acc.len() && r[k].base == acc[j].base) by {
            if k > 0 {
                assert(r[k] == rt[k - 1]);
                if rt[k - 1].base == f.base {
                } else {
                    let jj = choose|jj: int|
                        0 <= jj < tail.len() && rt[k - 1].base == tail[jj].base;
                    assert(tail[jj] == acc[jj + 1]);
                    assert(r[k].base == acc[jj + 1].base);
                }
            }
        }
    }
}

/// Folding a factor sequence yields a weakly sorted sequence with distinct
/// bases, all of them drawn from the input.
pub proof fn lemma_merge_factor_seq_ordered(s: Seq<FactorS>)
    ensures
        ordered_factors(merge_factor_seq(s)),
        forall|k: int|
            0 <= k < merge_factor_seq(s).len() ==> exists|j: int|
                0 <= j < s.len() && #[trigger] merge_factor_seq(s)[k].base == s[j].base,
    decreases s,
{
    let r = merge_factor_seq(s);
    if s.len() > 0 {
        lemma_merge_factor_seq_ordered(s.drop_last());
        let m = merge_factor_seq(s.drop_last());
        lemma_add_factor_ordered(m, s.last());
        assert forall|k: int| 0 <= k < r.len() implies exists|j: int|
            0 <= j < s.len() && #[trigger] r[k].base == s[j].base by {
            if r[k].base == s.last().base {
                assert(r[k].base == s[s.len() - 1].base);
            } else {
                let jj = choose|jj: int| 0 <= jj < m.len() && r[k].base == m[jj].base;
                let j2 = choose|j2: int|
                    0 <= j2 < s.drop_last().len() && m[jj].base == s.drop_last()[j2].base;
                assert(s.drop_last()[j2] == s[j2]);
            }
        }
    }
}

/// Dropping zero powers keeps the order and distinctness and leaves only
/// elements of the given sequence, now all with nonzero power.
pub proof fn lemma_drop_zero_factors(s: Seq<FactorS>)
    requires
        ordered_factors(s),
    ensures
        wf_factors(drop_zero_factors(s)),
        forall|k: int|
            0 <= k < drop_zero_factors(s).len() ==> exists|j: int|
                0 <= j < s.len() && #[trigger] drop_zero_factors(s)[k] == s[j],
    decreases s,
{
    let r = drop_zero_factors(s);
    if s.len() > 0 {
        let tail = s.drop_first();
        assert forall|i: int, j: int| 0 <= i < j < tail.len() implies cmp_base(
            #[trigger] tail[i].base,
            #[trigger] tail[j].base,
        ) != Cmp::Gt && tail[i].base != tail[j].base by {
            assert(tail[i] == s[i + 1]);
            assert(tail[j] == s[j + 1]);
        }
        lemma_drop_zero_factors(tail);
        let rt = drop_zero_factors(tail);
        if s[0].power == 0 {
            assert forall|k: int| 0 <= k < r.len() implies exists|j: int|
                0 <= j < s.len() && #[trigger] r[k] == s[j] by {
                let jj = choose|jj: int| 0 <= jj < tail.len() && r[k] == tail[jj];
                assert(tail[jj] == s[jj + 1]);
            }
        } else {
            assert(r == seq![s[0]] + rt);
            assert forall|k: int| 0 <= k < r.len() implies exists|j: int|
                0 <= j < s.len() && #[trigger] r[k] == s[j] by {
                if k == 0 {
                    assert(r[0] == s[0]);
                } else {
                    assert(r[k] == rt[k - 1]);
                    let jj = choose|jj: int| 0 <= jj < tail.len() && rt[k - 1] == tail[jj];
                    assert(tail[jj] == s[jj + 1]);
                }
            }
            assert forall|i: int, j: int| 0 <= i < j < r.len() implies cmp_base(
                #[trigger] r[i].base,
                #[trigger] r[j].base,
            ) != Cmp::Gt && r[i].base != r[j].base by {
                if i == 0 {
                    assert(r[j] == rt[j - 1]);
                    let jj = choose|jj: int| 0 <= jj < tail.len() && rt[j - 1] == tail[jj];
                    assert(tail[jj] == s[jj + 1]);
                } else {
                    assert(r[i] == rt[i - 1]);
                    assert(r[j] == rt[j - 1]);
                }
            }
            assert forall|i: int| 0 <= i < r.len() implies (#[trigger] r[i]).power != 0 by {
                if i > 0 {
                    assert(r[i] == rt[i - 1]);
                }
            }
        }
    }
}

/// A factor whose base stands apart from and not before any base in the
/// sequence is appended at the end.
pub proof fn lemma_add_factor_append(acc: Seq<FactorS>, f: FactorS)
    requires
        forall|j: int| 0 <= j < acc.len() ==> (#[trigger] acc[j]).base != f.base,
        forall|j: int| 0 <= j < acc.len() ==> cmp_base(f.base, (#[trigger] acc[j]).base) != Cmp::Lt,
    ensures
        add_factor(acc, f) == acc.push(f),
    decreases acc,
{
    if acc.len() == 0 {
        assert(add_factor(acc, f) =~= acc.push(f));
    } else {
        let tail = acc.drop_first();
        assert forall|j: int| 0 <= j < tail.len() implies (#[trigger] tail[j]).base != f.base
            && cmp_base(f.base, tail[j].base) != Cmp::Lt by {
            assert(tail[j] == acc[j + 1]);
        }
        lemma_add_factor_append(tail, f);
        assert(add_factor(acc, f) =~= acc.push(f));
    }
}

/// Merging a factor sequence already in canonical form changes nothing.
pub proof fn lemma_merge_factors_id(s: Seq<FactorS>)
    requires
        wf_factors(s),
    ensures
        spec_merge_factors(s) == s,
    decreases s,
{
    lemma_merge_factor_seq_id(s);
    lemma_drop_zero_factors_id(s);
}

/// Folding a weakly sorted, distinct factor sequence rebuilds it unchanged.
proof fn lemma_merge_factor_seq_id(s: Seq<FactorS>)
    requires
        ordered_factors(s),
    ensures
        merge_factor_seq(s) == s,
    decreases s,
{
    if s.len() > 0 {
        let front = s.drop_last();
        assert forall|i: int, j: int| 0 <= i < j < front.len() implies cmp_base(
            #[trigger] front[i].base,
            #[trigger] front[j].base,
        ) != Cmp::Gt && front[i].base != front[j].base by {
            assert(front[i] == s[i]);
            assert(front[j] == s[j]);
        }
        lemma_merge_factor_seq_id(front);
        assert forall|j: int| 0 <= j < front.len() implies (#[trigger] front[j]).base
            != s.last().base && cmp_base(s.last().base, front[j].base) != Cmp::Lt by {
            assert(front[j] == s[j]);
            assert(cmp_base(s[j].base, s.last().base) != Cmp::Gt);
            lemma_cmp_base_flip(s.last().base, s[j].base);
        }
        lemma_add_factor_append(front, s.last());
        assert(merge_factor_seq(s) =~= s);
    } else {
        assert(merge_factor_seq(s) =~= s);
    }
}

/// Dropping zero powers from a sequence that has none changes nothing.
proof fn lemma_drop_zero_factors_id(s: Seq<FactorS>)
    requires
        forall|i: int| 0 <= i < s.len() ==> (#[trigger] s[i]).power != 0,
    ensures
        drop_zero_factors(s) == s,
    decreases s,
{
    if s.len() > 0 {
        let tail = s.drop_first();
        assert forall|i: int| 0 <= i < tail.len() implies (#[trigger] tail[i]).power != 0 by {
            assert(tail[i] == s[i + 1]);
        }
        lemma_drop_zero_factors_id(tail);
        assert(drop_zero_factors(s) =~= s);
    } else {
        assert(drop_zero_factors(s) =~= s);
    }
}

/// Merging factors twice is the same as merging once: the first merge already
/// leaves canonical form.
pub proof fn lemma_merge_factors_wf(s: Seq<FactorS>)
    ensures
        wf_factors(spec_merge_factors(s)),
        spec_merge_factors(spec_merge_factors(s)) == spec_merge_factors(s),
{
    lemma_merge_factor_seq_ordered(s);
    lemma_drop_zero_factors(merge_factor_seq(s));
    lemma_merge_factors_id(spec_merge_factors(s));
}

/// A term sequence in canonical shape apart from the per-term invariant:
/// weakly sorted, pairwise distinct keys, no zero coefficient.
pub open spec fn wf_terms_shape(s: Seq<MonoS>) -> bool {
    &&& ordered_terms(s)
    &&& forall|i: int| 0 <= i < s.len() ==> (#[trigger] s[i]).coeff != 0
}

/// Placing a term keeps the sequence weakly sorted with distinct bases,
/// adds no base beyond the given ones, and never shrinks the sequence.
#[verifier::rlimit(100)]
pub proof fn lemma_add_term_ordered(acc: Seq<MonoS>, f: MonoS)
    requires
        ordered_terms(acc),
    ensures
        ordered_terms(add_term(acc, f)),
        forall|k: int|
            0 <= k < add_term(acc, f).len() ==> (#[trigger] add_term(acc, f)[k].factors
                == f.factors || exists|j: int| 0 <= j < acc.len() && add_term(acc, f)[k].factors
                == acc[j].factors),
        acc.len() <= add_term(acc, f).len() <= acc.len() + 1,
    decreases acc,
{
    let r = add_term(acc, f);
    if acc.len() == 0 {
    } else if acc[0].factors == f.factors {
        assert forall|k: int| 0 <= k < r.len() implies (#[trigger] r[k].factors == f.factors || exists|
        j: int|
            0 <= j < acc.len() && r[k].factors == acc[j].factors) by {
            if k > 0 {
                assert(r[k] == acc[k]);
                assert(r[k].factors == acc[k].factors);
            }
        }
        assert forall|i: int, j: int| 0 <= i < j < r.len() implies cmp_factors(
            #[trigger] r[i].factors,
            #[trigger] r[j].factors,
        ) != Cmp::Gt && r[i].factors != r[j].factors by {
            assert(r[i].factors == acc[i].factors);
            assert(r[j] == acc[j]);
        }
    } else if cmp_factors(f.factors, acc[0].factors) == Cmp::Lt {
        assert forall|i: int, j: int| 0 <= i < j < r.len() implies cmp_factors(
            #[trigger] r[i].factors,
            #[trigger] r[j].factors,
        ) != Cmp::Gt && r[i].factors != r[j].factors by {
            if i == 0 {
                assert(r[j] == acc[j - 1]);
                if j > 1 {
                    lemma_cmp_factors_trans(f.factors, acc[0].factors, acc[j - 1].factors);
                }
                lemma_cmp_factors_refl(f.factors);
            } else {
                assert(r[i] == acc[i - 1]);
                assert(r[j] == acc[j - 1]);
            }
        }
        assert forall|k: int| 0 <= k < r.len() implies (#[trigger] r[k].factors == f.factors || exists|
        j: int|
            0 <= j < acc.len() && r[k].factors == acc[j].factors) by {
            if k > 0 {
                assert(r[k].factors == acc[k - 1].factors);
            }
        }
    } else {
        let tail = acc.drop_first();
        assert forall|i: int, j: int| 0 <= i < j < tail.len() implies cmp_factors(
            #[trigger] tail[i].factors,
            #[trigger] tail[j].factors,
        ) != Cmp::Gt && tail[i].factors != tail[j].factors by {
            assert(tail[i] == acc[i + 1]);
            assert(tail[j] == acc[j + 1]);
        }
        lemma_add_term_ordered(tail, f);
        let rt = add_term(tail, f);
        assert(r == seq![acc[0]] + rt);
        lemma_cmp_factors_flip(f.factors, acc[0].factors);
        assert(cmp_factors(acc[0].factors, f.factors) != Cmp::Gt);
        assert forall|i: int, j: int| 0 <= i < j < r.len() implies cmp_factors(
            #[trigger] r[i].factors,
            #[trigger] r[j].factors,
        ) != Cmp::Gt && r[i].factors != r[j].factors by {
            if i == 0 {
                assert(r[j] == rt[j - 1]);
                if rt[j - 1].factors == f.factors {
                } else {
                    let jj = choose|jj: int|
                        0 <= jj < tail.len() && rt[j - 1].factors == tail[jj].factors;
                    assert(tail[jj] == acc[jj + 1]);
                }
            } else {
                assert(r[i] == rt[i - 1]);
                assert(r[j] == rt[j - 1]);
            }
        }
        assert forall|k: int| 0 <= k < r.len() implies (#[trigger] r[k].factors == f.factors || exists|
        j: int|
            0 <= j < acc.len() && r[k].factors == acc[j].factors) by {
            if k > 0 {
                assert(r[k] == rt[k - 1]);
                if rt[k - 1].factors == f.factors {
                } else {
                    let jj = choose|jj: int|
                        0 <= jj < tail.len() && rt[k - 1].factors == tail[jj].factors;
                    assert(tail[jj] == acc[jj + 1]);
                    assert(r[k].factors == acc[jj + 1].factors);
                }
            }
        }
    }
}

/// Folding a term sequence yields a weakly sorted sequence with distinct
/// bases, all of them drawn from the input.
pub proof fn lemma_merge_term_seq_ordered(s: Seq<MonoS>)
    ensures
        ordered_terms(merge_term_seq(s)),
        forall|k: int|
            0 <= k < merge_term_seq(s).len() ==> exists|j: int|
                0 <= j < s.len() && #[trigger] merge_term_seq(s)[k].factors == s[j].factors,
    decreases s,
{
    let r = merge_term_seq(s);
    if s.len() > 0 {
        lemma_merge_term_seq_ordered(s.drop_last());
        let m = merge_term_seq(s.drop_last());
        lemma_add_term_ordered(m, s.last());
        assert forall|k: int| 0 <= k < r.len() implies exists|j: int|
            0 <= j < s.len() && #[trigger] r[k].factors == s[j].factors by {
            if r[k].factors == s.last().factors {
                assert(r[k].factors == s[s.len() - 1].factors);
            } else {
                let jj = choose|jj: int| 0 <= jj < m.len() && r[k].factors == m[jj].factors;
                let j2 = choose|j2: int|
                    0 <= j2 < s.drop_last().len() && m[jj].factors == s.drop_last()[j2].factors;
                assert(s.drop_last()[j2] == s[j2]);
            }
        }
    }
}

/// Dropping zero coefficients keeps the order and distinctness and leaves only
/// elements of the given sequence, now all with nonzero power.
pub proof fn lemma_drop_zero_terms(s: Seq<MonoS>)
    requires
        ordered_terms(s),
    ensures
        wf_terms_shape(drop_zero_terms(s)),
        forall|k: int|
            0 <= k < drop_zero_terms(s).len() ==> exists|j: int|
                0 <= j < s.len() && #[trigger] drop_zero_terms(s)[k] == s[j],
    decreases s,
{
    let r = drop_zero_terms(s);
    if s.len() > 0 {
        let tail = s.drop_first();
        assert forall|i: int, j: int| 0 <= i < j < tail.len() implies cmp_factors(
            #[trigger] tail[i].factors,
            #[trigger] tail[j].factors,
        ) != Cmp::Gt && tail[i].factors != tail[j].factors by {
            assert(tail[i] == s[i + 1]);
            assert(tail[j] == s[j + 1]);
        }
        lemma_drop_zero_terms(tail);
        let rt = drop_zero_terms(tail);
        if s[0].coeff == 0 {
            assert forall|k: int| 0 <= k < r.len() implies exists|j: int|
                0 <= j < s.len() && #[trigger] r[k] == s[j] by {
                let jj = choose|jj: int| 0 <= jj < tail.len() && r[k] == tail[jj];
                assert(tail[jj] == s[jj + 1]);
            }
        } else {
            assert(r == seq![s[0]] + rt);
            assert forall|k: int| 0 <= k < r.len() implies exists|j: int|
                0 <= j < s.len() && #[trigger] r[k] == s[j] by {
                if k == 0 {
                    assert(r[0] == s[0]);
                } else {
                    assert(r[k] == rt[k - 1]);
                    let jj = choose|jj: int| 0 <= jj < tail.len() && rt[k - 1] == tail[jj];
                    assert(tail[jj] == s[jj + 1]);
                }
            }
            assert forall|i: int, j: int| 0 <= i < j < r.len() implies cmp_factors(
                #[trigger] r[i].factors,
                #[trigger] r[j].factors,
            ) != Cmp::Gt && r[i].factors != r[j].factors by {
                if i == 0 {
                    assert(r[j] == rt[j - 1]);
                    let jj = choose|jj: int| 0 <= jj < tail.len() && rt[j - 1] == tail[jj];
                    assert(tail[jj] == s[jj + 1]);
                } else {
                    assert(r[i] == rt[i - 1]);
                    assert(r[j] == rt[j - 1]);
                }
            }
            assert forall|i: int| 0 <= i < r.len() implies (#[trigger] r[i]).coeff != 0 by {
                if i > 0 {
                    assert(r[i] == rt[i - 1]);
                }
            }
        }
    }
}

/// A term whose key stands apart from and not before any base in the
/// sequence is appended at the end.
pub proof fn lemma_add_term_append(acc: Seq<MonoS>, f: MonoS)
    requires
        forall|j: int| 0 <= j < acc.len() ==> (#[trigger] acc[j]).factors != f.factors,
        forall|j: int| 0 <= j < acc.len() ==> cmp_factors(f.factors, (#[trigger] acc[j]).factors) != Cmp::Lt,
    ensures
        add_term(acc, f) == acc.push(f),
    decreases acc,
{
    if acc.len() == 0 {
        assert(add_term(acc, f) =~= acc.push(f));
    } else {
        let tail = acc.drop_first();
        assert forall|j: int| 0 <= j < tail.len() implies (#[trigger] tail[j]).factors != f.factors
            && cmp_factors(f.factors, tail[j].factors) != Cmp::Lt by {
            assert(tail[j] == acc[j + 1]);
        }
        lemma_add_term_append(tail, f);
        assert(add_term(acc, f) =~= acc.push(f));
    }
}

/// Merging a term sequence already in canonical form changes nothing.
pub proof fn lemma_merge_terms_id(s: Seq<MonoS>)
    requires
        wf_terms_shape(s),
    ensures
        spec_merge_terms(s) == s,
    decreases s,
{
    lemma_merge_term_seq_id(s);
    lemma_drop_zero_terms_id(s);
}

/// Folding a weakly sorted, distinct term sequence rebuilds it unchanged.
proof fn lemma_merge_term_seq_id(s: Seq<MonoS>)
    requires
        ordered_terms(s),
    ensures
        merge_term_seq(s) == s,
    decreases s,
{
    if s.len() > 0 {
        let front = s.drop_last();
        assert forall|i: int, j: int| 0 <= i < j < front.len() implies cmp_factors(
            #[trigger] front[i].factors,
            #[trigger] front[j].factors,
        ) != Cmp::Gt && front[i].factors != front[j].factors by {
            assert(front[i] == s[i]);
            assert(front[j] == s[j]);
        }
        lemma_merge_term_seq_id(front);
        assert forall|j: int| 0 <= j < front.len() implies (#[trigger] front[j]).factors
            != s.last().factors && cmp_factors(s.last().factors, front[j].factors) != Cmp::Lt by {
            assert(front[j] == s[j]);
            assert(cmp_factors(s[j].factors, s.last().factors) != Cmp::Gt);
            lemma_cmp_factors_flip(s.last().factors, s[j].factors);
        }
        lemma_add_term_append(front, s.last());
        assert(merge_term_seq(s) =~= s);
    } else {
        assert(merge_term_seq(s) =~= s);
    }
}

/// Dropping zero coefficients from a sequence that has none changes nothing.
proof fn lemma_drop_zero_terms_id(s: Seq<MonoS>)
    requires
        forall|i: int| 0 <= i < s.len() ==> (#[trigger] s[i]).coeff != 0,
    ensures
        drop_zero_terms(s) == s,
    decreases s,
{
    if s.len() > 0 {
        let tail = s.drop_first();
        assert forall|i: int| 0 <= i < tail.len() implies (#[trigger] tail[i]).coeff != 0 by {
            assert(tail[i] == s[i + 1]);
        }
        lemma_drop_zero_terms_id(tail);
        assert(drop_zero_terms(s) =~= s);
    } else {
        assert(drop_zero_terms(s) =~= s);
    }
}

/// Merging terms twice is the same as merging once: the first merge already
/// leaves canonical form.
pub proof fn lemma_merge_terms_wf(s: Seq<MonoS>)
    ensures
        wf_terms_shape(spec_merge_terms(s)),
        spec_merge_terms(spec_merge_terms(s)) == spec_merge_terms(s),
{
    lemma_merge_term_seq_ordered(s);
    lemma_drop_zero_terms(merge_term_seq(s));
    lemma_merge_terms_id(spec_merge_terms(s));
}

} // verus!
