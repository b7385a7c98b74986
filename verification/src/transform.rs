//! The structural transformation passes: grouping terms by a set of bases,
//! extracting a common monomial factor, flattening nested polynomials, and
//! rewriting by an identity.
use vstd::prelude::*;

use crate::canon::{spec_merge_terms, wf_factors, wf_poly};
use crate::model::{Base, BaseS, Factor, FactorS, Mono, MonoS, Poly, PolyS};
use crate::model::{lemma_view_bases, lemma_view_factors, lemma_view_factors_concat,
    lemma_view_monos, lemma_view_monos_concat, lemma_view_polys, view_bases, view_factors,
    view_monos, view_polys};
use crate::order::{cmp_base, cmp_factors, Cmp};
use crate::poly::{extract_factors, lemma_collect_terms_len, lemma_try_targets_bound,
    power_in, spec_extract, spec_mono_mul, collect_terms, try_targets};

verus! {

broadcast use vstd::seq::group_seq_axioms, vstd::std_specs::vec::group_vec_axioms;

/// Whether the base occurs in the sequence.
pub open spec fn bases_contain(bs: Seq<BaseS>, b: BaseS) -> bool {
    exists|i: int| 0 <= i < bs.len() && bs[i] == b
}

/// The factors whose base occurs in the given set, in order.
pub open spec fn kept_factors(s: Seq<FactorS>, bs: Seq<BaseS>) -> Seq<FactorS>
    decreases s,
{
    if s.len() == 0 {
        Seq::empty()
    } else if bases_contain(bs, s[0].base) {
        seq![s[0]] + kept_factors(s.drop_first(), bs)
    } else {
        kept_factors(s.drop_first(), bs)
    }
}

/// The factors whose base does not occur in the given set, in order.
pub open spec fn outside_factors(s: Seq<FactorS>, bs: Seq<BaseS>) -> Seq<FactorS>
    decreases s,
{
    if s.len() == 0 {
        Seq::empty()
    } else if bases_contain(bs, s[0].base) {
        outside_factors(s.drop_first(), bs)
    } else {
        seq![s[0]] + outside_factors(s.drop_first(), bs)
    }
}

/// Whether the base occurs in the vector.
fn base_in(bases: &Vec<Base>, b: &Base) -> (r: bool)
    ensures
        r == bases_contain(view_bases(bases@), b@),
{
    let ghost vb = view_bases(bases@);
    proof {
        lemma_view_bases(bases@);
    }
    let n = bases.len();
    let mut i: usize = 0;
    while i < n
        invariant
            i <= n,
            n == bases.len(),
            vb == view_bases(bases@),
            vb.len() == n as int,
            forall|k: int| 0 <= k < n ==> #[trigger] vb[k] == bases@[k]@,
            forall|k: int| 0 <= k < i ==> #[trigger] vb[k] != b@,
        decreases n - i,
    {
        if bases[i] == *b {
            proof {
                assert(vb[i as int] == b@);
            }
            return true;
        }
        i += 1;
    }
    false
}

impl Mono {
    /// Splits the factors from position `i` on into those whose base is in
    /// the set and the rest.
    fn split_by_bases(&self, bases: &Vec<Base>, i: usize) -> (r: (Vec<Factor>, Vec<Factor>))
        requires
            i <= self.factors.len(),
        ensures
            view_factors(r.0@) == kept_factors(
                view_factors(self.factors@).skip(i as int),
                view_bases(bases@),
            ),
            view_factors(r.1@) == outside_factors(
                view_factors(self.factors@).skip(i as int),
                view_bases(bases@),
            ),
        decreases self.factors.len() - i,
    {
        let ghost s = view_factors(self.factors@);
        let ghost vb = view_bases(bases@);
        proof {
            lemma_view_factors(self.factors@);
        }
        if i == self.factors.len() {
            proof {
                assert(s.skip(i as int).len() == 0);
                assert(view_factors(Seq::<Factor>::empty()) =~= Seq::<FactorS>::empty());
            }
            return (Vec::new(), Vec::new());
        }
        let (mut kept, mut outside) = self.split_by_bases(bases, i + 1);
        proof {
            assert(s.skip(i as int)[0] == s[i as int]);
            assert(s.skip(i as int).drop_first() =~= s.skip(i + 1));
        }
        let f = self.factors[i].deep_clone();
        if base_in(bases, &f.base) {
            let ghost kv = kept.view();
            kept.insert(0, f);
            proof {
                lemma_view_factors(kept@);
                lemma_view_factors(kv);
                assert forall|k: int| 0 <= k < kept@.len() implies #[trigger] view_factors(
                    kept@,
                )[k] == (seq![s[i as int]] + kept_factors(s.skip(i + 1), vb))[k] by {
                    assert(view_factors(kept@)[k] == kept@[k]@);
                    if k > 0 {
                        assert(kept@[k] == kv[k - 1]);
                    }
                }
                assert(view_factors(kept@) =~= seq![s[i as int]] + kept_factors(s.skip(i + 1), vb));
            }
            (kept, outside)
        } else {
            let ghost ov = outside.view();
            outside.insert(0, f);
            proof {
                lemma_view_factors(outside@);
                lemma_view_factors(ov);
                assert forall|k: int| 0 <= k < outside@.len() implies #[trigger] view_factors(
                    outside@,
                )[k] == (seq![s[i as int]] + outside_factors(s.skip(i + 1), vb))[k] by {
                    assert(view_factors(outside@)[k] == outside@[k]@);
                    if k > 0 {
                        assert(outside@[k] == ov[k - 1]);
                    }
                }
                assert(view_factors(outside@) =~= seq![s[i as int]] + outside_factors(
                    s.skip(i + 1),
                    vb,
                ));
            }
            (kept, outside)
        }
    }

    /// Splits this monomial by a set of bases: the monomial keeps the
    /// factors whose base is in the set; the factors whose base is outside
    /// the set come back separately.
    pub fn group_by(self, bases: &Vec<Base>) -> (r: (Mono, Vec<Factor>))
        ensures
            r.0@.coeff == self@.coeff,
            r.0@.factors == kept_factors(self@.factors, view_bases(bases@)),
            view_factors(r.1@) == outside_factors(self@.factors, view_bases(bases@)),
    {
        proof {
            assert(view_factors(self.factors@).skip(0) =~= view_factors(self.factors@));
        }
        let (kept, outside) = self.split_by_bases(bases, 0);
        (Mono { coeff: self.coeff, factors: kept }, outside)
    }
}

/// One bucket of grouped terms: the shared outside factors, and the
/// kept-factor monomials of the terms that shared them.
pub struct Bucket {
    pub key: Vec<Factor>,
    pub group: Vec<Mono>,
}

/// Model of `Bucket`.
pub open spec fn view_bucket(b: Bucket) -> (Seq<FactorS>, Seq<MonoS>) {
    (view_factors(b.key@), view_monos(b.group@))
}

pub open spec fn view_buckets(s: Seq<Bucket>) -> Seq<(Seq<FactorS>, Seq<MonoS>)>
    decreases s,
{
    if s.len() == 0 {
        Seq::empty()
    } else {
        view_buckets(s.drop_last()).push(view_bucket(s.last()))
    }
}

pub broadcast proof fn lemma_view_buckets(s: Seq<Bucket>)
    ensures
        (#[trigger] view_buckets(s)).len() == s.len(),
        forall|i: int| 0 <= i < s.len() ==> #[trigger] view_buckets(s)[i] == view_bucket(s[i]),
    decreases s.len(),
{
    if s.len() > 0 {
        lemma_view_buckets(s.drop_last());
        assert forall|i: int| 0 <= i < s.len() implies #[trigger] view_buckets(s)[i] == view_bucket(
            s[i],
        ) by {
            if i < s.len() - 1 {
                assert(s.drop_last()[i] == s[i]);
            }
        }
    }
}

/// Places one stripped term into the bucket list: a bucket whose key ties
/// with the new key in the factor-sequence order takes the term; otherwise a
/// fresh bucket is inserted in key order.
pub open spec fn bucket_insert(
    acc: Seq<(Seq<FactorS>, Seq<MonoS>)>,
    key: Seq<FactorS>,
    m: MonoS,
) -> Seq<(Seq<FactorS>, Seq<MonoS>)>
    decreases acc,
{
    if acc.len() == 0 {
        seq![(key, seq![m])]
    } else if cmp_factors(key, acc[0].0) == Cmp::Eq {
        seq![(acc[0].0, acc[0].1.push(m))] + acc.drop_first()
    } else if cmp_factors(key, acc[0].0) == Cmp::Lt {
        seq![(key, seq![m])] + acc
    } else {
        seq![acc[0]] + bucket_insert(acc.drop_first(), key, m)
    }
}

/// Buckets the terms by their outside-factor sequence, in key order, each
/// bucket holding the kept-factor monomials in term order.
pub open spec fn group_terms(ts: Seq<MonoS>, bs: Seq<BaseS>) -> Seq<(Seq<FactorS>, Seq<MonoS>)>
    decreases ts,
{
    if ts.len() == 0 {
        Seq::empty()
    } else {
        bucket_insert(
            group_terms(ts.drop_last(), bs),
            outside_factors(ts.last().factors, bs),
            MonoS { coeff: ts.last().coeff, factors: kept_factors(ts.last().factors, bs) },
        )
    }
}

/// Turns each bucket back into one term: a lone kept-factor monomial is
/// reattached to its outside-factor key; several are merged and, unless the
/// merge cancels to nothing, wrapped as a nested polynomial with power one
/// and coefficient one in front of the key.
pub open spec fn emit_buckets(bk: Seq<(Seq<FactorS>, Seq<MonoS>)>) -> Seq<MonoS>
    decreases bk,
{
    if bk.len() == 0 {
        Seq::empty()
    } else {
        let rest = emit_buckets(bk.drop_first());
        if bk[0].1.len() == 1 {
            seq![MonoS { coeff: bk[0].1[0].coeff, factors: bk[0].1[0].factors + bk[0].0 }] + rest
        } else {
            let merged = spec_merge_terms(bk[0].1);
            if merged.len() == 0 {
                rest
            } else {
                seq![
                    MonoS {
                        coeff: 1,
                        factors: seq![
                            FactorS {
                                base: BaseS::Poly { poly: PolyS { terms: merged } },
                                power: 1,
                            },
                        ] + bk[0].0,
                    },
                ] + rest
            }
        }
    }
}

/// What `group_by` computes on a polynomial.
pub open spec fn spec_group_by(p: PolyS, bs: Seq<BaseS>) -> PolyS {
    PolyS { terms: emit_buckets(group_terms(p.terms, bs)) }
}

/// An independent copy of a factor vector.
fn clone_factors(v: &Vec<Factor>) -> (r: Vec<Factor>)
    ensures
        view_factors(r@) == view_factors(v@),
{
    let mut r: Vec<Factor> = Vec::new();
    let n = v.len();
    let mut i: usize = 0;
    proof {
        lemma_view_factors(v@);
    }
    while i < n
        invariant
            i <= n,
            n == v.len(),
            r@.len() == i as int,
            forall|k: int| 0 <= k < i ==> #[trigger] r@[k]@ == v@[k]@,
            forall|k: int| 0 <= k < n ==> #[trigger] view_factors(v@)[k] == v@[k]@,
            view_factors(v@).len() == n as int,
        decreases n - i,
    {
        let f = v[i].deep_clone();
        r.push(f);
        i += 1;
    }
    proof {
        lemma_view_factors(r@);
        assert forall|k: int| 0 <= k < n implies #[trigger] view_factors(r@)[k] == view_factors(
            v@,
        )[k] by {
            assert(view_factors(r@)[k] == r@[k]@);
            assert(r@[k]@ == v@[k]@);
        }
        assert(view_factors(r@) =~= view_factors(v@));
    }
    r
}

/// Places one stripped term into the bucket vector, as `bucket_insert`
/// describes.
fn bucket_insert_vec(acc: &mut Vec<Bucket>, key: Vec<Factor>, m: Mono)
    ensures
        view_buckets(final(acc)@) == bucket_insert(view_buckets(old(acc)@), view_factors(key@), m@),
{
    let ghost a0 = view_buckets(acc@);
    let ghost kv = view_factors(key@);
    proof {
        lemma_view_buckets(acc@);
        assert(a0.take(0) =~= Seq::<(Seq<FactorS>, Seq<MonoS>)>::empty());
        assert(a0.skip(0) =~= a0);
    }
    let mut j: usize = 0;
    loop
        invariant
            j <= acc.len(),
            acc@ == old(acc)@,
            a0 == view_buckets(acc@),
            kv == view_factors(key@),
            a0.len() == acc@.len(),
            forall|k: int| 0 <= k < acc@.len() ==> #[trigger] a0[k] == view_bucket(acc@[k]),
            bucket_insert(a0, kv, m@) == a0.take(j as int) + bucket_insert(
                a0.skip(j as int),
                kv,
                m@,
            ),
        decreases acc.len() - j,
    {
        if j == acc.len() {
            proof {
                assert(a0.skip(j as int).len() == 0);
                assert(bucket_insert(a0.skip(j as int), kv, m@) =~= seq![(kv, seq![m@])]);
                assert(a0.take(j as int) =~= a0);
            }
            let mut group: Vec<Mono> = Vec::new();
            group.push(m);
            let b = Bucket { key, group };
            proof {
                lemma_view_monos(b.group@);
                assert(view_monos(b.group@) =~= seq![b.group@[0]@]);
                assert(view_bucket(b) == (kv, seq![b.group@[0]@]));
            }
            acc.push(b);
            proof {
                lemma_view_buckets(acc@);
                assert(view_buckets(acc@) =~= a0 + seq![(kv, seq![m@])]);
                assert(bucket_insert(a0, kv, m@) =~= a0 + seq![(kv, seq![m@])]);
            }
            return ;
        }
        proof {
            assert(a0.skip(j as int)[0] == a0[j as int]);
        }
        let c = crate::order::cmp_factor_vecs(&key, &acc[j].key);
        if c == Cmp::Eq {
            let mut b = acc.remove(j);
            let ghost gv = b.group@;
            b.group.push(m);
            proof {
                assert(b.group@.drop_last() =~= gv);
                assert(b.group@.last() == m);
                assert(view_monos(b.group@) == view_monos(gv).push(m@));
                assert(view_bucket(b) == (a0[j as int].0, a0[j as int].1.push(m@)));
            }
            acc.insert(j, b);
            proof {
                lemma_view_buckets(acc@);
                assert(a0.skip(j as int).drop_first() =~= a0.skip(j + 1));
                assert(bucket_insert(a0.skip(j as int), kv, m@) =~= seq![
                    (a0[j as int].0, a0[j as int].1.push(m@)),
                ] + a0.skip(j + 1));
                assert forall|k: int| 0 <= k < acc@.len() implies #[trigger] view_buckets(acc@)[k]
                    == (a0.take(j as int) + bucket_insert(a0.skip(j as int), kv, m@))[k] by {
                    if k < j {
                        assert(acc@[k] == old(acc)@[k]);
                    } else if k > j {
                        assert(acc@[k] == old(acc)@[k]);
                        assert((a0.take(j as int) + bucket_insert(a0.skip(j as int), kv, m@))[k]
                            == a0.skip(j + 1)[k - j - 1]);
                    }
                }
                assert(view_buckets(acc@) =~= a0.take(j as int) + bucket_insert(
                    a0.skip(j as int),
                    kv,
                    m@,
                ));
            }
            return ;
        }
        if c == Cmp::Lt {
            proof {
                assert(bucket_insert(a0.skip(j as int), kv, m@) =~= seq![(kv, seq![m@])] + a0.skip(
                    j as int,
                ));
            }
            let mut group: Vec<Mono> = Vec::new();
            group.push(m);
            let b = Bucket { key, group };
            proof {
                lemma_view_monos(b.group@);
                assert(view_monos(b.group@) =~= seq![b.group@[0]@]);
                assert(view_bucket(b) == (kv, seq![b.group@[0]@]));
            }
            acc.insert(j, b);
            proof {
                lemma_view_buckets(acc@);
                assert forall|k: int| 0 <= k < acc@.len() implies #[trigger] view_buckets(acc@)[k]
                    == (a0.take(j as int) + (seq![(kv, seq![m@])] + a0.skip(j as int)))[k] by {
                    if k < j {
                        assert(acc@[k] == old(acc)@[k]);
                    } else if k > j {
                        assert(acc@[k] == old(acc)@[k - 1]);
                    }
                }
                assert(view_buckets(acc@) =~= a0.take(j as int) + (seq![(kv, seq![m@])] + a0.skip(
                    j as int,
                )));
            }
            return ;
        }
        proof {
            assert(a0.skip(j as int).drop_first() =~= a0.skip(j + 1));
            assert(bucket_insert(a0.skip(j as int), kv, m@) == seq![a0[j as int]] + bucket_insert(
                a0.skip(j + 1),
                kv,
                m@,
            ));
            assert(a0.take(j as int) + bucket_insert(a0.skip(j as int), kv, m@) =~= a0.take(j + 1)
                + bucket_insert(a0.skip(j + 1), kv, m@));
        }
        j += 1;
    }
}

/// Turns the buckets from position `j` on into terms, as `emit_buckets`
/// describes.
fn emit_from(buckets: &Vec<Bucket>, j: usize) -> (r: Vec<Mono>)
    requires
        j <= buckets.len(),
    ensures
        view_monos(r@) == emit_buckets(view_buckets(buckets@).skip(j as int)),
    decreases buckets.len() - j,
{
    let ghost bv = view_buckets(buckets@);
    proof {
        lemma_view_buckets(buckets@);
    }
    if j == buckets.len() {
        proof {
            assert(bv.skip(j as int).len() == 0);
            assert(view_monos(Seq::<Mono>::empty()) =~= Seq::<MonoS>::empty());
        }
        return Vec::new();
    }
    let mut rest = emit_from(buckets, j + 1);
    proof {
        assert(bv.skip(j as int)[0] == bv[j as int]);
        assert(bv.skip(j as int).drop_first() =~= bv.skip(j + 1));
        assert(view_bucket(buckets@[j as int]) == bv[j as int]);
        lemma_view_monos(buckets@[j as int].group@);
        lemma_view_factors(buckets@[j as int].key@);
    }
    if buckets[j].group.len() == 1 {
        let mut m = buckets[j].group[0].deep_clone();
        let mut kc = clone_factors(&buckets[j].key);
        let ghost mf = m.factors@;
        let ghost kcv = kc@;
        m.factors.append(&mut kc);
        proof {
            assert(m.factors@ == mf + kcv);
            lemma_view_factors_concat(mf, kcv);
            assert(view_factors(mf) == bv[j as int].1[0].factors);
            assert(view_factors(kcv) == bv[j as int].0);
        }
        let ghost rv = rest@;
        rest.insert(0, m);
        proof {
            assert(rest@ == rv.insert(0, m));
            lemma_view_monos(rest@);
            lemma_view_monos(rv);
            assert forall|k: int| 0 <= k < rest@.len() implies #[trigger] view_monos(rest@)[k] == (
            seq![
                MonoS {
                    coeff: bv[j as int].1[0].coeff,
                    factors: bv[j as int].1[0].factors + bv[j as int].0,
                },
            ] + emit_buckets(bv.skip(j + 1)))[k] by {
                assert(view_monos(rest@)[k] == rest@[k]@);
                if k > 0 {
                    assert(rest@[k] == rv[k - 1]);
                }
            }
            assert(view_monos(rest@) =~= seq![
                MonoS {
                    coeff: bv[j as int].1[0].coeff,
                    factors: bv[j as int].1[0].factors + bv[j as int].0,
                },
            ] + emit_buckets(bv.skip(j + 1)));
        }
        rest
    } else {
        let mut sub = Poly { terms: clone_monos(&buckets[j].group) };
        sub.merge_terms();
        if sub.terms.len() == 0 {
            return rest;
        }
        let mut factors: Vec<Factor> = Vec::new();
        factors.push(Factor { base: Base::Poly(sub), power: 1 });
        let ghost fv = factors@;
        let mut kc = clone_factors(&buckets[j].key);
        let ghost kcv = kc@;
        factors.append(&mut kc);
        let m = Mono { coeff: 1, factors };
        proof {
            assert(m.factors@ == fv + kcv);
            lemma_view_factors_concat(fv, kcv);
            lemma_view_factors(fv);
            assert(view_factors(fv) =~= seq![
                FactorS {
                    base: BaseS::Poly { poly: PolyS { terms: spec_merge_terms(bv[j as int].1) } },
                    power: 1,
                },
            ]);
            assert(view_factors(kcv) == bv[j as int].0);
        }
        let ghost rv = rest@;
        rest.insert(0, m);
        proof {
            assert(rest@ == rv.insert(0, m));
            lemma_view_monos(rest@);
            lemma_view_monos(rv);
            assert forall|k: int| 0 <= k < rest@.len() implies #[trigger] view_monos(rest@)[k]
                == emit_buckets(bv.skip(j as int))[k] by {
                assert(view_monos(rest@)[k] == rest@[k]@);
                if k > 0 {
                    assert(rest@[k] == rv[k - 1]);
                }
            }
            assert(view_monos(rest@) =~= emit_buckets(bv.skip(j as int)));
        }
        rest
    }
}

/// An independent copy of a monomial vector.
fn clone_monos(v: &Vec<Mono>) -> (r: Vec<Mono>)
    ensures
        view_monos(r@) == view_monos(v@),
{
    let mut r: Vec<Mono> = Vec::new();
    let n = v.len();
    let mut i: usize = 0;
    proof {
        lemma_view_monos(v@);
    }
    while i < n
        invariant
            i <= n,
            n == v.len(),
            r@.len() == i as int,
            forall|k: int| 0 <= k < i ==> #[trigger] r@[k]@ == v@[k]@,
            forall|k: int| 0 <= k < n ==> #[trigger] view_monos(v@)[k] == v@[k]@,
            view_monos(v@).len() == n as int,
        decreases n - i,
    {
        let m = v[i].deep_clone();
        r.push(m);
        i += 1;
    }
    proof {
        lemma_view_monos(r@);
        assert forall|k: int| 0 <= k < n implies #[trigger] view_monos(r@)[k] == view_monos(
            v@,
        )[k] by {
            assert(view_monos(r@)[k] == r@[k]@);
            assert(r@[k]@ == v@[k]@);
        }
        assert(view_monos(r@) =~= view_monos(v@));
    }
    r
}

impl Poly {
    /// Groups the terms in place by the given bases: terms that share the
    /// same sequence of factors from outside the base set are gathered, and
    /// each gathering of two or more kept-factor monomials is merged and
    /// wrapped as one nested sub-polynomial in front of the shared outside
    /// factors.
    pub fn group_by(&mut self, bases: Vec<Base>)
        ensures
            final(self)@ == spec_group_by(old(self)@, view_bases(bases@)),
    {
        let ghost s = view_monos(self.terms@);
        let ghost vb = view_bases(bases@);
        proof {
            lemma_view_monos(self.terms@);
            assert(s.take(0) =~= Seq::<MonoS>::empty());
        }
        let mut buckets: Vec<Bucket> = Vec::new();
        let n = self.terms.len();
        let mut i: usize = 0;
        while i < n
            invariant
                i <= n,
                n == self.terms.len(),
                *self == *old(self),
                s == view_monos(self.terms@),
                vb == view_bases(bases@),
                s.len() == n as int,
                forall|k: int| 0 <= k < n ==> #[trigger] s[k] == self.terms@[k]@,
                view_buckets(buckets@) == group_terms(s.take(i as int), vb),
            decreases n - i,
        {
            let term = self.terms[i].deep_clone();
            let (mono, kept) = term.group_by(&bases);
            proof {
                assert(s.take(i + 1).drop_last() =~= s.take(i as int));
                assert(s.take(i + 1).last() == s[i as int]);
            }
            bucket_insert_vec(&mut buckets, kept, mono);
            i += 1;
        }
        proof {
            assert(s.take(n as int) =~= s);
        }
        let out = emit_from(&buckets, 0);
        proof {
            assert(view_buckets(buckets@).skip(0) =~= view_buckets(buckets@));
        }
        self.terms = out;
    }
}

/// The smaller of two coefficients.
pub open spec fn min_i32(a: i32, b: i32) -> i32 {
    if a <= b {
        a
    } else {
        b
    }
}

/// The running minimum of the powers of `b` across the terms from position
/// `k` on, stopping early once it reaches zero.
pub open spec fn min_power_from(ts: Seq<MonoS>, b: BaseS, acc: i32, k: int) -> i32
    decreases ts.len() - k,
{
    if k < 0 || k >= ts.len() {
        acc
    } else {
        let m2 = min_i32(acc, power_in(ts[k].factors, b));
        if m2 == 0 {
            0
        } else {
            min_power_from(ts, b, m2, k + 1)
        }
    }
}

/// Divides the factor out of every term; a term it does not divide is kept
/// unchanged (the callers rule that case out).
pub open spec fn extract_all(ts: Seq<MonoS>, f: FactorS) -> Seq<MonoS> {
    Seq::new(
        ts.len(),
        |k: int|
            match spec_extract(ts[k], f) {
                Some(m) => m,
                None => ts[k],
            },
    )
}

/// The positive power mass of a factor sequence: the sum of the positive
/// powers.
pub open spec fn mass_factors(s: Seq<FactorS>) -> int
    decreases s,
{
    if s.len() == 0 {
        0
    } else {
        (if s[0].power > 0 {
            s[0].power as int
        } else {
            0
        }) + mass_factors(s.drop_first())
    }
}

/// The positive power mass of a term sequence.
pub open spec fn mass_terms(s: Seq<MonoS>) -> int
    decreases s,
{
    if s.len() == 0 {
        0
    } else {
        mass_factors(s[0].factors) + mass_terms(s.drop_first())
    }
}

/// In a factor sequence with pairwise distinct bases, the power of the base
/// at a position is the power that lookup finds.
proof fn lemma_power_in_unique(s: Seq<FactorS>, i: int)
    requires
        forall|a: int, b: int| 0 <= a < b < s.len() ==> s[a].base != s[b].base,
        0 <= i < s.len(),
    ensures
        power_in(s, s[i].base) == s[i].power,
    decreases s,
{
    if s.len() > 0 {
        if i == 0 {
        } else {
            assert(s[0].base != s[i].base);
            let tail = s.drop_first();
            assert forall|a: int, b: int| 0 <= a < b < tail.len() implies tail[a].base
                != tail[b].base by {
                assert(tail[a] == s[a + 1]);
                assert(tail[b] == s[b + 1]);
            }
            assert(tail[i - 1] == s[i]);
            lemma_power_in_unique(tail, i - 1);
        }
    }
}

/// The positive mass is unchanged by all but the first position.
proof fn lemma_mass_factors_pointwise(a: Seq<FactorS>, b: Seq<FactorS>)
    requires
        a.len() == b.len(),
        forall|k: int| 0 <= k < a.len() ==> (#[trigger] a[k]).power == b[k].power,
    ensures
        mass_factors(a) == mass_factors(b),
    decreases a,
{
    if a.len() > 0 {
        assert forall|k: int| 0 <= k < a.drop_first().len() implies (
        #[trigger] a.drop_first()[k]).power == b.drop_first()[k].power by {
            assert(a.drop_first()[k] == a[k + 1]);
            assert(b.drop_first()[k] == b[k + 1]);
        }
        lemma_mass_factors_pointwise(a.drop_first(), b.drop_first());
        assert(a[0].power == b[0].power);
    }
}

/// The head-match case of the extraction structure argument.
#[verifier::rlimit(100)]
#[verifier::spinoff_prover]
proof fn lemma_extract_structure_head(s: Seq<FactorS>, f: FactorS)
    requires
        wf_factors(s),
        f.power >= 1,
        power_in(s, f.base) >= f.power,
        s.len() > 0,
        s[0].base == f.base,
    ensures
        extract_factors(s, f) matches Some(t) && {
            let t = extract_factors(s, f)->Some_0;
            &&& wf_factors(t)
            &&& mass_factors(t) == mass_factors(s) - f.power
            &&& (power_in(s, f.base) == f.power ==> t.len() == s.len() - 1 && (forall|k: int|
                0 <= k < t.len() ==> exists|j: int| 0 <= j < s.len() && #[trigger] t[k] == s[j]))
            &&& (power_in(s, f.base) != f.power ==> t.len() == s.len() && power_in(t, f.base)
                == power_in(s, f.base) - f.power && (forall|k: int|
                0 <= k < t.len() ==> (#[trigger] t[k]).base == s[k].base))
        },
{
    let p0 = s[0].power;
    assert(power_in(s, f.base) == p0);
    assert(p0 >= f.power >= 1);
    assert(p0.wrapping_sub(f.power) == p0 - f.power);
    let t = extract_factors(s, f)->Some_0;
    if p0 == f.power {
        assert(t == s.drop_first());
        assert forall|k: int| 0 <= k < t.len() implies exists|j: int|
            0 <= j < s.len() && #[trigger] t[k] == s[j] by {
            assert(t[k] == s[k + 1]);
        }
        assert forall|a: int, b: int| 0 <= a < b < t.len() implies cmp_base(
            #[trigger] t[a].base,
            #[trigger] t[b].base,
        ) != Cmp::Gt && t[a].base != t[b].base by {
            assert(t[a] == s[a + 1]);
            assert(t[b] == s[b + 1]);
        }
        assert forall|k: int| 0 <= k < t.len() implies (#[trigger] t[k]).power != 0 by {
            assert(t[k] == s[k + 1]);
        }
    } else {
        assert(t =~= seq![FactorS { base: s[0].base, power: (p0 - f.power) as i32 }]
            + s.drop_first());
        assert forall|a: int, b: int| 0 <= a < b < t.len() implies cmp_base(
            #[trigger] t[a].base,
            #[trigger] t[b].base,
        ) != Cmp::Gt && t[a].base != t[b].base by {
            assert(t[a].base == s[a].base);
            assert(t[b] == s[b]);
        }
        assert forall|k: int| 0 <= k < t.len() implies (#[trigger] t[k]).power != 0 by {
            if k > 0 {
                assert(t[k] == s[k]);
            }
        }
        assert(power_in(t, f.base) == p0 - f.power);
        assert forall|k: int| 0 <= k < t.drop_first().len() implies (
        #[trigger] t.drop_first()[k]).power == s.drop_first()[k].power by {
            assert(t.drop_first()[k] == t[k + 1]);
            assert(t[k + 1] == s[k + 1]);
            assert(s.drop_first()[k] == s[k + 1]);
        }
        lemma_mass_factors_pointwise(t.drop_first(), s.drop_first());
    }
}

/// Extracting a factor with positive power from a canonical factor sequence
/// succeeds, keeps the canonical shape, lowers the looked-up power by the
/// extracted power, and lowers the positive mass by exactly that power.
#[verifier::rlimit(100)]
#[verifier::spinoff_prover]
proof fn lemma_extract_structure(s: Seq<FactorS>, f: FactorS)
    requires
        wf_factors(s),
        f.power >= 1,
        power_in(s, f.base) >= f.power,
    ensures
        extract_factors(s, f) matches Some(t) && {
            let t = extract_factors(s, f)->Some_0;
            &&& wf_factors(t)
            &&& mass_factors(t) == mass_factors(s) - f.power
            &&& (power_in(s, f.base) == f.power ==> t.len() == s.len() - 1 && (forall|k: int|
                0 <= k < t.len() ==> exists|j: int| 0 <= j < s.len() && #[trigger] t[k] == s[j]))
            &&& (power_in(s, f.base) != f.power ==> t.len() == s.len() && power_in(t, f.base)
                == power_in(s, f.base) - f.power && (forall|k: int|
                0 <= k < t.len() ==> (#[trigger] t[k]).base == s[k].base))
        },
    decreases s,
{
    crate::order::lemma_cmp_base_refl(f.base);
    if s.len() == 0 {
    } else if s[0].base == f.base {
        lemma_extract_structure_head(s, f);
    } else {
        let tail = s.drop_first();
        assert forall|a: int, b: int| 0 <= a < b < tail.len() implies cmp_base(
            #[trigger] tail[a].base,
            #[trigger] tail[b].base,
        ) != Cmp::Gt && tail[a].base != tail[b].base by {
            assert(tail[a] == s[a + 1]);
            assert(tail[b] == s[b + 1]);
        }
        assert forall|k: int| 0 <= k < tail.len() implies (#[trigger] tail[k]).power != 0 by {
            assert(tail[k] == s[k + 1]);
        }
        lemma_extract_structure(tail, f);
        let tt = extract_factors(tail, f)->Some_0;
        let t = extract_factors(s, f)->Some_0;
        assert(t == seq![s[0]] + tt);
        assert(t.drop_first() =~= tt);
        if power_in(s, f.base) != f.power {
            assert forall|a: int, b: int| 0 <= a < b < t.len() implies cmp_base(
                #[trigger] t[a].base,
                #[trigger] t[b].base,
            ) != Cmp::Gt && t[a].base != t[b].base by {
                if a == 0 {
                    assert(t[b] == tt[b - 1]);
                    assert(tt[b - 1].base == tail[b - 1].base);
                    assert(tail[b - 1] == s[b]);
                } else {
                    assert(t[a] == tt[a - 1]);
                    assert(t[b] == tt[b - 1]);
                    assert(t[a].base == tail[a - 1].base);
                    assert(t[b].base == tail[b - 1].base);
                }
            }
            assert forall|k: int| 0 <= k < t.len() implies (#[trigger] t[k]).power != 0 by {
                if k > 0 {
                    assert(t[k] == tt[k - 1]);
                }
            }
            assert forall|k: int| 0 <= k < t.len() implies (#[trigger] t[k]).base == s[k].base by {
                if k > 0 {
                    assert(t[k] == tt[k - 1]);
                    assert(tt[k - 1].base == tail[k - 1].base);
                    assert(tail[k - 1] == s[k]);
                }
            }
        } else {
            assert(tt.len() == tail.len() - 1);
            assert forall|k: int| 0 <= k < t.len() implies exists|j: int|
                0 <= j < s.len() && #[trigger] t[k] == s[j] by {
                if k == 0 {
                    assert(t[0] == s[0]);
                } else {
                    assert(t[k] == tt[k - 1]);
                    let jj = choose|jj: int| 0 <= jj < tail.len() && tt[k - 1] == tail[jj];
                    assert(tail[jj] == s[jj + 1]);
                    assert(t[k] == s[jj + 1]);
                }
            }
            assert forall|a: int, b: int| 0 <= a < b < t.len() implies cmp_base(
                #[trigger] t[a].base,
                #[trigger] t[b].base,
            ) != Cmp::Gt && t[a].base != t[b].base by {
                if a == 0 {
                    assert(t[b] == tt[b - 1]);
                    let jj = choose|jj: int| 0 <= jj < tail.len() && tt[b - 1] == tail[jj];
                    assert(tail[jj] == s[jj + 1]);
                    assert(t[b] == s[jj + 1]);
                } else {
                    assert(t[a] == tt[a - 1]);
                    assert(t[b] == tt[b - 1]);
                }
            }
            assert forall|k: int| 0 <= k < t.len() implies (#[trigger] t[k]).power != 0 by {
                if k > 0 {
                    assert(t[k] == tt[k - 1]);
                }
            }
        }
    }
}

/// A canonical factor sequence with too small a looked-up power cannot be
/// divided, except exactly at the matching position.
proof fn lemma_extract_some_iff(s: Seq<FactorS>, f: FactorS)
    requires
        f.power >= 1,
    ensures
        power_in(s, f.base) >= f.power ==> extract_factors(s, f) is Some,
    decreases s,
{
    if s.len() > 0 && !(s[0].base == f.base) {
        lemma_extract_some_iff(s.drop_first(), f);
    }
}

/// A positive running minimum bounds the looked-up power of every remaining
/// term.
proof fn lemma_min_power_bound(ts: Seq<MonoS>, b: BaseS, acc: i32, k: int)
    requires
        k >= 0,
    ensures
        min_power_from(ts, b, acc, k) >= 1 ==> min_power_from(ts, b, acc, k) <= acc && (forall|
            j: int,
        |
            k <= j < ts.len() ==> min_power_from(ts, b, acc, k) <= power_in(
                (#[trigger] ts[j]).factors,
                b,
            )),
    decreases ts.len() - k,
{
    if 0 <= k < ts.len() {
        let m2 = min_i32(acc, power_in(ts[k].factors, b));
        if m2 != 0 {
            lemma_min_power_bound(ts, b, m2, k + 1);
        }
    }
}

/// Each term of a canonical polynomial has a canonical factor list.
pub open spec fn terms_wf(ts: Seq<MonoS>) -> bool {
    forall|k: int| 0 <= k < ts.len() ==> wf_factors((#[trigger] ts[k]).factors)
}

/// The common-factor walk: at each factor position of the first term, the
/// minimum power of that base across all terms is divided out of every term
/// when positive; the position advances only when nothing was extracted.
pub open spec fn ecf_loop(ts: Seq<MonoS>, i: int) -> (Seq<MonoS>, Seq<FactorS>)
    decreases
            (if ts.len() > 0 {
                ts[0].factors.len() - i
            } else {
                0
            }),
            (if ts.len() > 0 && 0 <= i < ts[0].factors.len() && ts[0].factors[i].power > 0 {
                ts[0].factors[i].power as int
            } else {
                0
            }),
    when ts.len() > 0 && 0 <= i && terms_wf(ts)
{
    if ts.len() == 0 || i < 0 || i >= ts[0].factors.len() {
        (ts, Seq::empty())
    } else {
        let b = ts[0].factors[i].base;
        let mp = min_power_from(ts, b, ts[0].factors[i].power, 1);
        if mp > 0 {
            let f = FactorS { base: b, power: mp };
            let ts2 = extract_all(ts, f);
            proof {
                lemma_ecf_step(ts, i);
            }
            let (rts, rfs) = ecf_loop(ts2, i);
            (rts, seq![f] + rfs)
        } else {
            ecf_loop(ts, i + 1)
        }
    }
}

/// One extraction round of the common-factor walk keeps every term canonical,
/// strictly lowers the walk measure, and succeeds on every term.
pub proof fn lemma_ecf_step(ts: Seq<MonoS>, i: int)
    requires
        terms_wf(ts),
        ts.len() > 0,
        0 <= i < ts[0].factors.len(),
        min_power_from(ts, ts[0].factors[i].base, ts[0].factors[i].power, 1) > 0,
    ensures
        ({
            let b = ts[0].factors[i].base;
            let mp = min_power_from(ts, b, ts[0].factors[i].power, 1);
            let f = FactorS { base: b, power: mp };
            let ts2 = extract_all(ts, f);
            &&& terms_wf(ts2)
            &&& ts2.len() == ts.len()
            &&& forall|k: int|
                0 <= k < ts.len() ==> spec_extract(#[trigger] ts[k], f) == Some(ts2[k])
            &&& ts2[0].factors.len() <= ts[0].factors.len()
            &&& (ts2[0].factors.len() == ts[0].factors.len() ==> i < ts2[0].factors.len()
                && ts2[0].factors[i].base == b && 0 < ts2[0].factors[i].power < ts[0].factors[i].power)
            &&& (ts2[0].factors.len() != ts[0].factors.len() ==> ts2[0].factors.len()
                == ts[0].factors.len() - 1)
            &&& forall|k: int|
                0 <= k < ts.len() ==> mass_factors((#[trigger] ts2[k]).factors) == mass_factors(
                    ts[k].factors,
                ) - mp
        }),
{
    let b = ts[0].factors[i].base;
    let acc = ts[0].factors[i].power;
    let mp = min_power_from(ts, b, acc, 1);
    let f = FactorS { base: b, power: mp };
    let ts2 = extract_all(ts, f);
    lemma_min_power_bound(ts, b, acc, 1);
    lemma_power_in_unique(ts[0].factors, i);
    assert(power_in(ts[0].factors, b) == acc);
    assert(mp <= acc);
    assert forall|k: int| 0 <= k < ts.len() implies spec_extract(#[trigger] ts[k], f) == Some(
        ts2[k],
    ) && wf_factors(ts2[k].factors) && mass_factors(ts2[k].factors) == mass_factors(ts[k].factors)
        - mp by {
        if k == 0 {
            lemma_extract_structure(ts[0].factors, f);
        } else {
            assert(mp <= power_in(ts[k].factors, b));
            lemma_extract_structure(ts[k].factors, f);
        }
    }
    lemma_extract_structure(ts[0].factors, f);
    let t0 = extract_factors(ts[0].factors, f)->Some_0;
    assert(ts2[0].factors == t0);
    if power_in(ts[0].factors, b) != mp {
        assert(t0.len() == ts[0].factors.len());
        assert(t0[i].base == ts[0].factors[i].base);
        assert forall|a2: int, b2: int| 0 <= a2 < b2 < t0.len() implies t0[a2].base
            != t0[b2].base by {}
        lemma_power_in_unique(t0, i);
        assert(power_in(t0, b) == acc - mp);
        assert(t0[i].power == acc - mp);
        assert(t0[i].power != 0);
        assert(t0[i].power > 0 || t0[i].power < 0);
        if t0[i].power < 0 {
            assert(acc - mp < 0);
            assert(false);
        }
    }
}

/// What `extract_common_factors` computes: the walked polynomial and the
/// common factors pulled out, in the order found.
pub open spec fn spec_ecf(p: PolyS) -> (PolyS, Seq<FactorS>) {
    if p.terms.len() == 0 {
        (p, Seq::empty())
    } else {
        let (ts, fs) = ecf_loop(p.terms, 0);
        (PolyS { terms: ts }, fs)
    }
}

impl Poly {
    /// The running minimum of the powers of `b` over the terms from `k` on.
    fn min_power_exec(&self, b: &Base, acc: i32, k: usize) -> (r: i32)
        ensures
            r == min_power_from(self@.terms, b@, acc, k as int),
        decreases self.terms.len() - k,
    {
        proof {
            lemma_view_monos(self.terms@);
        }
        if k >= self.terms.len() {
            return acc;
        }
        let p = self.terms[k].power_of(b);
        let m2 = if acc <= p {
            acc
        } else {
            p
        };
        if m2 == 0 {
            0
        } else {
            self.min_power_exec(b, m2, k + 1)
        }
    }

    /// Divides the factor out of every term in place; the callers establish
    /// that every term can be divided.
    fn extract_all_exec(&mut self, f: &Factor)
        requires
            forall|k: int|
                0 <= k < old(self)@.terms.len() ==> spec_extract(
                    #[trigger] old(self)@.terms[k],
                    f@,
                ) is Some,
        ensures
            final(self)@.terms == extract_all(old(self)@.terms, f@),
    {
        let ghost s = view_monos(self.terms@);
        proof {
            lemma_view_monos(self.terms@);
            assert(s == old(self)@.terms);
            assert forall|j: int| 0 <= j < s.len() implies spec_extract(
                #[trigger] s[j],
                f@,
            ) is Some by {
                assert(spec_extract(old(self)@.terms[j], f@) is Some);
            }
        }
        let mut out: Vec<Mono> = Vec::new();
        let n = self.terms.len();
        let mut k: usize = 0;
        while k < n
            invariant
                k <= n,
                n == self.terms.len(),
                *self == *old(self),
                s == view_monos(self.terms@),
                s.len() == n as int,
                forall|j: int| 0 <= j < n ==> #[trigger] s[j] == self.terms@[j]@,
                forall|j: int| 0 <= j < n ==> spec_extract(#[trigger] s[j], f@) is Some,
                out@.len() == k as int,
                forall|j: int| 0 <= j < k ==> #[trigger] out@[j]@ == extract_all(s, f@)[j],
            decreases n - k,
        {
            match self.terms[k].extract(f) {
                Some(m) => {
                    out.push(m);
                },
                None => {
                    proof {
                        assert(s[k as int] == self.terms@[k as int]@);
                        assert(spec_extract(s[k as int], f@) is Some);
                        assert(false);
                    }
                },
            }
            k += 1;
        }
        proof {
            lemma_view_monos(out@);
            assert forall|j: int| 0 <= j < n implies #[trigger] view_monos(out@)[j] == extract_all(
                s,
                f@,
            )[j] by {
                assert(view_monos(out@)[j] == out@[j]@);
            }
            assert(view_monos(out@) =~= extract_all(s, f@));
        }
        self.terms = out;
    }

    /// The common-factor walk from position `i` of the first term.
    fn ecf_step(&mut self, i: usize) -> (r: Vec<Factor>)
        requires
            old(self).terms.len() > 0,
            terms_wf(old(self)@.terms),
        ensures
            ({
                let (rts, rfs) = ecf_loop(old(self)@.terms, i as int);
                final(self)@.terms == rts && view_factors(r@) == rfs
            }),
        decreases
                view_mono_first_len(old(self)@.terms) - i,
                view_mono_first_power(old(self)@.terms, i as int),
    {
        let ghost s = view_monos(self.terms@);
        proof {
            lemma_view_monos(self.terms@);
        }
        if i >= self.terms[0].factors.len() {
            proof {
                lemma_view_factors(self.terms@[0].factors@);
                assert(view_factors(Seq::<Factor>::empty()) =~= Seq::<FactorS>::empty());
            }
            return Vec::new();
        }
        proof {
            lemma_view_factors(self.terms@[0].factors@);
        }
        let power0 = self.terms[0].factors[i].power;
        let b = self.terms[0].factors[i].base.deep_clone();
        let mp = self.min_power_exec(&b, power0, 1);
        proof {
            assert(s[0].factors[i as int] == self.terms@[0].factors@[i as int]@);
        }
        if mp > 0 {
            let f = Factor { base: b, power: mp };
            proof {
                lemma_ecf_step(s, i as int);
            }
            self.extract_all_exec(&f);
            let mut rest = self.ecf_step(i);
            let ghost rv = rest@;
            rest.insert(0, f);
            proof {
                assert(rest@ == rv.insert(0, f));
                lemma_view_factors(rest@);
                lemma_view_factors(rv);
                let (rts, rfs) = ecf_loop(s, i as int);
                assert forall|k: int| 0 <= k < rest@.len() implies #[trigger] view_factors(
                    rest@,
                )[k] == rfs[k] by {
                    assert(view_factors(rest@)[k] == rest@[k]@);
                    if k > 0 {
                        assert(rest@[k] == rv[k - 1]);
                    }
                }
                assert(view_factors(rest@) =~= rfs);
            }
            rest
        } else {
            self.ecf_step(i + 1)
        }
    }

    /// Pulls every common monomial factor that the first term exposes out of
    /// all terms, in place, returning the extracted factors in the order
    /// found.  Only factor positions of the first term are ever candidates.
    pub fn extract_common_factors(&mut self) -> (r: Vec<Factor>)
        requires
            wf_poly(old(self)@),
        ensures
            final(self)@ == spec_ecf(old(self)@).0,
            view_factors(r@) == spec_ecf(old(self)@).1,
    {
        if self.is_zero() {
            proof {
                lemma_view_factors(Seq::<Factor>::empty());
                assert(view_factors(Seq::<Factor>::empty()) =~= Seq::<FactorS>::empty());
            }
            return Vec::new();
        }
        self.ecf_step(0)
    }
}

/// The factor count of the first term, for the walk measure.
pub open spec fn view_mono_first_len(ts: Seq<MonoS>) -> int {
    if ts.len() > 0 {
        ts[0].factors.len() as int
    } else {
        0
    }
}

/// The positive power at the walked position of the first term, for the walk
/// measure.
pub open spec fn view_mono_first_power(ts: Seq<MonoS>, i: int) -> int {
    if ts.len() > 0 && 0 <= i < ts[0].factors.len() && ts[0].factors[i].power > 0 {
        ts[0].factors[i].power as int
    } else {
        0
    }
}

/// The nested sub-polynomials among the factors, in order.
pub open spec fn nested_of(s: Seq<FactorS>) -> Seq<PolyS>
    decreases s,
{
    if s.len() == 0 {
        Seq::empty()
    } else {
        let rest = nested_of(s.drop_first());
        match s[0].base {
            BaseS::Poly { poly } => seq![poly] + rest,
            _ => rest,
        }
    }
}

/// The factors that are not nested sub-polynomials, in order.
pub open spec fn plain_of(s: Seq<FactorS>) -> Seq<FactorS>
    decreases s,
{
    if s.len() == 0 {
        Seq::empty()
    } else {
        let rest = plain_of(s.drop_first());
        if s[0].base is Poly {
            rest
        } else {
            seq![s[0]] + rest
        }
    }
}

/// The product of a polynomial list, multiplied up from the last entry.
pub open spec fn prod_from_end(ps: Seq<PolyS>) -> PolyS
    decreases ps,
{
    if ps.len() == 0 {
        PolyS { terms: Seq::empty() }
    } else if ps.len() == 1 {
        ps[0]
    } else {
        crate::poly::spec_poly_mul(prod_from_end(ps.drop_first()), ps[0])
    }
}

/// The nested sub-polynomials among the factors, each flattened, in order.
pub open spec fn expand_nested_of(s: Seq<FactorS>) -> Seq<PolyS>
    decreases s,
{
    if s.len() == 0 {
        Seq::empty()
    } else {
        let rest = expand_nested_of(s.drop_first());
        match s[0].base {
            BaseS::Poly { poly } => {
                proof {
                    assert(decreases_to!(s => s[0]));
                    assert(decreases_to!(s[0] => s[0].base));
                }
                seq![spec_expand_poly(poly)] + rest
            },
            _ => rest,
        }
    }
}

/// Flattening one monomial: each nested sub-polynomial is flattened, the
/// flattened parts are multiplied together from the last one, and the
/// product is multiplied by the single-term polynomial of the coefficient
/// and the remaining factors.  A monomial with no nested factor passes
/// through as that single-term polynomial.
pub open spec fn spec_expand_mono(m: MonoS) -> PolyS
    decreases m,
{
    proof {
        assert(decreases_to!(m => m.factors));
    }
    let nested = expand_nested_of(m.factors);
    let single = PolyS { terms: seq![MonoS { coeff: m.coeff, factors: plain_of(m.factors) }] };
    if nested.len() == 0 {
        single
    } else {
        crate::poly::spec_poly_mul(prod_from_end(nested), single)
    }
}

/// Flattening a term sequence: each term that holds a nested factor is
/// flattened and spliced in place; the rest pass through unchanged.
pub open spec fn expand_terms(ts: Seq<MonoS>) -> Seq<MonoS>
    decreases ts,
{
    if ts.len() == 0 {
        Seq::empty()
    } else {
        (if crate::poly::mono_has_nested(ts[0]) {
            spec_expand_mono(ts[0]).terms
        } else {
            seq![ts[0]]
        }) + expand_terms(ts.drop_first())
    }
}

/// What `expand` computes on a polynomial.
pub open spec fn spec_expand_poly(p: PolyS) -> PolyS
    decreases p,
{
    proof {
        assert(decreases_to!(p => p.terms));
    }
    PolyS { terms: expand_terms(p.terms) }
}

/// The flattened nested list is the nested list, each entry flattened.
proof fn lemma_expand_nested_pointwise(s: Seq<FactorS>)
    ensures
        expand_nested_of(s).len() == nested_of(s).len(),
        forall|k: int|
            0 <= k < nested_of(s).len() ==> #[trigger] expand_nested_of(s)[k]
                == spec_expand_poly(nested_of(s)[k]),
    decreases s,
{
    if s.len() > 0 {
        lemma_expand_nested_pointwise(s.drop_first());
    }
}

impl Mono {
    /// Flattens this monomial into a polynomial: the nested sub-polynomials
    /// are flattened, multiplied together, and multiplied by the coefficient
    /// and the remaining factors.  The power of a nested factor is not
    /// expanded: the sub-polynomial enters the product once.
    #[verifier::loop_isolation(false)]
    #[verifier::rlimit(100)]
    #[verifier::spinoff_prover]
    pub fn expand(self) -> (r: Poly)
        ensures
            r@ == spec_expand_mono(self@),
        decreases self,
    {
        let ghost m0 = self;
        let ghost f0 = self.factors@;
        let ghost s = view_factors(self.factors@);
        proof {
            lemma_view_factors(self.factors@);
        }
        let coeff = self.coeff;
        let mut factors = self.factors;
        let mut polys: Vec<Poly> = Vec::new();
        let mut plain: Vec<Factor> = Vec::new();
        proof {
            assert(f0.take(f0.len() as int) =~= f0);
            assert(s.skip(s.len() as int) =~= Seq::<FactorS>::empty());
        }
        while factors.len() > 0
            invariant
                factors@ == f0.take(factors@.len() as int),
                factors@.len() <= f0.len(),
                f0.len() == s.len(),
                s == view_factors(f0),
                forall|k: int| 0 <= k < f0.len() ==> #[trigger] s[k] == f0[k]@,
                view_polys(polys@) == nested_of(s.skip(factors@.len() as int)),
                view_factors(plain@) == plain_of(s.skip(factors@.len() as int)),
                forall|j: int|
                    0 <= j < polys@.len() ==> exists|k: int|
                        0 <= k < f0.len() && f0[k].base is Poly && #[trigger] polys@[j] == f0[k].base->0,
            decreases factors@.len(),
        {
            let f = match factors.pop() {
                Some(f) => f,
                None => {
                    proof {
                        assert(false);
                    }
                    Factor { base: Base::Sym(crate::model::Sym { name: String::new() }), power: 0 }
                },
            };
            let ghost len = factors@.len() as int;
            proof {
                assert(f0.take(len + 1).last() == f0[len]);
                assert(f0.take(len + 1).drop_last() =~= f0.take(len));
                assert(f == f0[len]);
                assert(s.skip(len)[0] == s[len]);
                assert(s.skip(len).drop_first() =~= s.skip(len + 1));
                assert(f@ == s[len]);
            }
            match f.base {
                Base::Poly(p) => {
                    let ghost pv = polys@;
                    polys.insert(0, p);
                    proof {
                        lemma_view_polys(polys@);
                        lemma_view_polys(pv);
                        assert forall|k: int| 0 <= k < polys@.len() implies #[trigger] view_polys(
                            polys@,
                        )[k] == nested_of(s.skip(len))[k] by {
                            assert(view_polys(polys@)[k] == polys@[k]@);
                            if k > 0 {
                                assert(polys@[k] == pv[k - 1]);
                            }
                        }
                        assert(view_polys(polys@) =~= nested_of(s.skip(len)));
                        assert forall|j: int| 0 <= j < polys@.len() implies exists|k: int|
                            0 <= k < f0.len() && f0[k].base is Poly && #[trigger] polys@[j]
                                == f0[k].base->0 by {
                            if j == 0 {
                                assert(f0[len].base is Poly && polys@[0] == f0[len].base->0);
                            } else {
                                assert(polys@[j] == pv[j - 1]);
                            }
                        }
                    }
                },
                other => {
                    let ghost plv = plain@;
                    plain.insert(0, Factor { base: other, power: f.power });
                    proof {
                        lemma_view_factors(plain@);
                        lemma_view_factors(plv);
                        assert forall|k: int| 0 <= k < plain@.len() implies #[trigger] view_factors(
                            plain@,
                        )[k] == plain_of(s.skip(len))[k] by {
                            assert(view_factors(plain@)[k] == plain@[k]@);
                            if k > 0 {
                                assert(plain@[k] == plv[k - 1]);
                            }
                        }
                        assert(view_factors(plain@) =~= plain_of(s.skip(len)));
                    }
                },
            }
        }
        proof {
            assert(s.skip(0) =~= s);
            assert(s == m0@.factors);
            lemma_expand_nested_pointwise(s);
        }
        let single = Poly::from_mono(Mono { coeff, factors: plain });
        if polys.len() == 0 {
            proof {
                assert(expand_nested_of(s).len() == nested_of(s).len());
                assert(single@ =~= spec_expand_mono(m0@));
            }
            return single;
        }
        let ghost el = expand_nested_of(s);
        let ghost pv0 = polys@;
        let q = match polys.pop() {
            Some(p) => p,
            None => {
                proof {
                    assert(false);
                }
                Poly { terms: Vec::new() }
            },
        };
        proof {
            assert(pv0 =~= polys@.push(q));
            let j = polys@.len() as int;
            let k = choose|k: int|
                0 <= k < f0.len() && f0[k].base is Poly && polys@.push(q)[j] == f0[k].base->0;
            assert(polys@.push(q)[j] == q);
            assert(decreases_to!(self => self.factors));
            assert(decreases_to!(self.factors => self.factors@));
            assert(decreases_to!(self.factors@ => self.factors@[k]));
            assert(decreases_to!(self.factors@[k] => self.factors@[k].base));
            assert(decreases_to!(self.factors@[k].base => self.factors@[k].base->0));
        }
        let mut acc = q.expand_owned();
        proof {
            let n = view_polys(polys@.push(q)).len() as int;
            lemma_view_polys(polys@.push(q));
            assert(view_polys(polys@.push(q))[n - 1] == q@);
            assert(nested_of(s)[n - 1] == q@);
            assert(acc@ == el[n - 1]);
            assert(el.skip(n - 1) =~= seq![el[n - 1]]);
            assert(acc@ == prod_from_end(el.skip(polys@.len() as int)));
            lemma_view_polys(polys@);
            assert forall|k: int| 0 <= k < polys@.len() implies #[trigger] view_polys(polys@)[k]
                == view_polys(polys@.push(q))[k] by {
                assert(polys@.push(q)[k] == polys@[k]);
            }
        }
        while polys.len() > 0
            invariant
                polys@.len() < nested_of(s).len(),
                el == expand_nested_of(s),
                el.len() == nested_of(s).len(),
                s == view_factors(m0.factors@),
                s == m0@.factors,
                f0.len() == s.len(),
                forall|k: int| 0 <= k < f0.len() ==> #[trigger] s[k] == f0[k]@,
                forall|k: int|
                    0 <= k < nested_of(s).len() ==> #[trigger] el[k] == spec_expand_poly(
                        nested_of(s)[k],
                    ),
                view_polys(polys@) == nested_of(s).take(polys@.len() as int),
                forall|j: int|
                    0 <= j < polys@.len() ==> exists|k: int|
                        0 <= k < f0.len() && f0[k].base is Poly && #[trigger] polys@[j] == f0[k].base->0,
                acc@ == prod_from_end(el.skip(polys@.len() as int)),
            decreases polys@.len(),
        {
            let ghost pvb = polys@;
            let p2 = match polys.pop() {
                Some(p) => p,
                None => {
                    proof {
                        assert(false);
                    }
                    Poly { terms: Vec::new() }
                },
            };
            let ghost j = polys@.len() as int;
            proof {
                assert(pvb =~= polys@.push(p2));
                lemma_view_polys(polys@.push(p2));
                assert(view_polys(polys@.push(p2))[j] == p2@);
                assert(nested_of(s).take(j + 1)[j] == nested_of(s)[j]);
                assert(p2@ == nested_of(s)[j]);
                let k = choose|k: int|
                    0 <= k < f0.len() && f0[k].base is Poly && polys@.push(p2)[j] == f0[k].base->0;
                assert(polys@.push(p2)[j] == p2);
                assert(f0 == m0.factors@);
                assert(0 <= k < m0.factors@.len());
                assert(m0.factors@[k].base is Poly);
                assert(decreases_to!(m0 => m0.factors));
                assert(decreases_to!(m0.factors => m0.factors@));
                assert(decreases_to!(m0.factors@ => m0.factors@[k]));
                assert(decreases_to!(m0.factors@[k] => m0.factors@[k].base));
                assert(decreases_to!(m0.factors@[k].base => m0.factors@[k].base->0));
            }
            let e2 = p2.expand_owned();
            acc = acc.mul(e2);
            proof {
                assert(el.skip(j)[0] == el[j]);
                assert(el.skip(j).drop_first() =~= el.skip(j + 1));
                lemma_view_polys(polys@);
                assert forall|k: int| 0 <= k < polys@.len() implies #[trigger] view_polys(
                    polys@,
                )[k] == nested_of(s).take(j)[k] by {
                    assert(view_polys(polys@)[k] == polys@[k]@);
                    assert(polys@.push(p2)[k] == polys@[k]);
                    assert(nested_of(s).take(j + 1)[k] == nested_of(s)[k]);
                }
                assert(view_polys(polys@) =~= nested_of(s).take(j));
            }
        }
        proof {
            assert(el.skip(0) =~= el);
        }
        let r = acc.mul(single);
        proof {
            assert(r@ =~= spec_expand_mono(m0@));
        }
        r
    }
}

impl Poly {
    /// Flattens a polynomial it owns, term by term.
    #[verifier::loop_isolation(false)]
    #[verifier::rlimit(100)]
    #[verifier::spinoff_prover]
    fn expand_owned(self) -> (r: Poly)
        ensures
            r@ == spec_expand_poly(self@),
        decreases self,
    {
        let ghost p0w = self;
        let ghost t0 = self.terms@;
        let ghost s = view_monos(self.terms@);
        proof {
            lemma_view_monos(self.terms@);
            assert(s == p0w@.terms);
            assert(t0.take(t0.len() as int) =~= t0);
            assert(s.skip(s.len() as int) =~= Seq::<MonoS>::empty());
            assert(view_monos(Seq::<Mono>::empty()) =~= Seq::<MonoS>::empty());
        }
        let mut terms = self.terms;
        let mut out: Vec<Mono> = Vec::new();
        while terms.len() > 0
            invariant
                terms@ == t0.take(terms@.len() as int),
                terms@.len() <= t0.len(),
                t0.len() == s.len(),
                s == view_monos(t0),
                forall|k: int| 0 <= k < t0.len() ==> #[trigger] s[k] == t0[k]@,
                view_monos(out@) == expand_terms(s.skip(terms@.len() as int)),
            decreases terms@.len(),
        {
            let t = match terms.pop() {
                Some(t) => t,
                None => {
                    proof {
                        assert(false);
                    }
                    Mono { coeff: 0, factors: Vec::new() }
                },
            };
            let ghost len = terms@.len() as int;
            proof {
                assert(t0.take(len + 1).last() == t0[len]);
                assert(t0.take(len + 1).drop_last() =~= t0.take(len));
                assert(t == t0[len]);
                assert(s.skip(len)[0] == s[len]);
                assert(s.skip(len).drop_first() =~= s.skip(len + 1));
                assert(t@ == s[len]);
            }
            if t.contains_polynomial() {
                proof {
                    assert(t0 == p0w.terms@);
                    assert(0 <= len < p0w.terms@.len());
                    assert(decreases_to!(p0w => p0w.terms));
                    assert(decreases_to!(p0w.terms => p0w.terms@));
                    assert(decreases_to!(p0w.terms@ => p0w.terms@[len]));
                }
                let e = t.expand();
                let ghost ev = e.terms@;
                let ghost ov = out@;
                let mut tmp = e.terms;
                tmp.append(&mut out);
                proof {
                    assert(tmp@ == ev + ov);
                    lemma_view_monos_concat(ev, ov);
                    assert(view_monos(ev) == spec_expand_mono(s[len]).terms);
                    assert(view_monos(tmp@) =~= expand_terms(s.skip(len)));
                }
                out = tmp;
            } else {
                let ghost ov = out@;
                out.insert(0, t);
                proof {
                    assert(out@ == ov.insert(0, t));
                    lemma_view_monos(out@);
                    lemma_view_monos(ov);
                    assert forall|k: int| 0 <= k < out@.len() implies #[trigger] view_monos(
                        out@,
                    )[k] == expand_terms(s.skip(len))[k] by {
                        assert(view_monos(out@)[k] == out@[k]@);
                        if k > 0 {
                            assert(out@[k] == ov[k - 1]);
                        }
                    }
                    assert(view_monos(out@) =~= expand_terms(s.skip(len)));
                }
            }
        }
        proof {
            assert(s.skip(0) =~= s);
        }
        Poly { terms: out }
    }

    /// Flattens the polynomial in place: every term that holds a nested
    /// sub-polynomial is replaced by its flattened product, spliced in where
    /// the term stood.
    pub fn expand(&mut self)
        ensures
            final(self)@ == spec_expand_poly(old(self)@),
    {
        let mut tmp = Poly { terms: Vec::new() };
        core::mem::swap(self, &mut tmp);
        let r = tmp.expand_owned();
        *self = r;
    }
}

/// The leading factor of each term.
pub open spec fn first_factors(ts: Seq<MonoS>) -> Seq<FactorS> {
    Seq::new(ts.len(), |i: int| ts[i].factors[0])
}

/// The position of the first term structurally equal to the given one, from
/// position `k` on.
pub open spec fn position_of(ts: Seq<MonoS>, t: MonoS, k: int) -> Option<int>
    decreases ts.len() - k,
{
    if k < 0 || k >= ts.len() {
        None
    } else if ts[k] == t {
        Some(k)
    } else {
        position_of(ts, t, k + 1)
    }
}

/// Whether every bucket after the first holds a term equal to the given one.
pub open spec fn all_contain(colls: Seq<PolyS>, t: MonoS) -> bool {
    forall|j: int| 1 <= j < colls.len() ==> position_of((#[trigger] colls[j]).terms, t, 0) is Some
}

/// Removes the walked position from the first bucket and the found
/// occurrence from every other bucket.
pub open spec fn remove_common(colls: Seq<PolyS>, t: MonoS, idx: int) -> Seq<PolyS> {
    Seq::new(
        colls.len(),
        |j: int|
            if j == 0 {
                PolyS { terms: colls[0].terms.remove(idx) }
            } else {
                PolyS { terms: colls[j].terms.remove(position_of(colls[j].terms, t, 0)->Some_0) }
            },
    )
}

/// The common-term scan: walks the first bucket; each term that every other
/// bucket also holds is removed from all of them and emitted multiplied by
/// the right-hand term; the position advances only when no common term
/// stood there.
pub open spec fn scan_commons(
    colls: Seq<PolyS>,
    rt: MonoS,
    idx: int,
    sims: Seq<MonoS>,
    count: nat,
) -> (Seq<PolyS>, Seq<MonoS>, nat)
    decreases
            (if colls.len() > 0 {
                colls[0].terms.len() - idx
            } else {
                0
            }),
    when colls.len() >= 1 && 0 <= idx
{
    if colls.len() == 0 || idx < 0 || idx >= colls[0].terms.len() {
        (colls, sims, count)
    } else {
        let curr = colls[0].terms[idx];
        if all_contain(colls, curr) {
            let colls2 = remove_common(colls, curr, idx);
            proof {
                assert(colls2.len() == colls.len());
                assert(colls2[0].terms.len() == colls[0].terms.len() - 1);
            }
            scan_commons(colls2, rt, idx, sims.push(spec_mono_mul(curr, rt)), (count + 1) as nat)
        } else {
            scan_commons(colls, rt, idx + 1, sims, count)
        }
    }
}

/// Wraps each bucket still holding terms as one term: the bucket as a
/// nested factor with power one and coefficient one, followed by its target
/// factor.
pub open spec fn assemble(targets: Seq<FactorS>, colls: Seq<PolyS>) -> Seq<MonoS>
    decreases colls,
{
    if colls.len() == 0 {
        Seq::empty()
    } else {
        (if colls[0].terms.len() > 0 {
            seq![
                MonoS {
                    coeff: 1,
                    factors: seq![
                        FactorS { base: BaseS::Poly { poly: colls[0] }, power: 1 },
                        targets[0],
                    ],
                },
            ]
        } else {
            Seq::empty()
        }) + assemble(targets.drop_first(), colls.drop_first())
    }
}

/// The greatest bucket size.
pub open spec fn max_terms(colls: Seq<PolyS>) -> int
    decreases colls,
{
    if colls.len() == 0 {
        0
    } else {
        let m = max_terms(colls.drop_first());
        if colls[0].terms.len() > m {
            colls[0].terms.len() as int
        } else {
            m
        }
    }
}

/// Every bucket a collection builds holds at most as many terms as were
/// collected.
proof fn lemma_collect_sizes(ts: Seq<MonoS>, fs: Seq<FactorS>)
    ensures
        forall|j: int|
            0 <= j < fs.len() ==> (#[trigger] collect_terms(ts, fs).0[j]).terms.len() <= ts.len(),
    decreases ts,
{
    lemma_collect_terms_len(ts, fs);
    if ts.len() > 0 {
        lemma_collect_sizes(ts.drop_first(), fs);
        lemma_collect_terms_len(ts.drop_first(), fs);
        lemma_try_targets_bound(ts[0], fs, 0);
    }
}

/// The scan removes the same number of terms from every bucket: each final
/// bucket is its starting bucket less the number of commons found after the
/// given start count.
proof fn lemma_scan_sizes(colls: Seq<PolyS>, rt: MonoS, idx: int, sims: Seq<MonoS>, count: nat)
    requires
        colls.len() >= 1,
        0 <= idx,
    ensures
        ({
            let (c2, s2, n2) = scan_commons(colls, rt, idx, sims, count);
            &&& c2.len() == colls.len()
            &&& n2 >= count
            &&& forall|j: int|
                0 <= j < colls.len() ==> (#[trigger] c2[j]).terms.len() == colls[j].terms.len() - (
                n2 - count)
        }),
    decreases colls[0].terms.len() - idx,
{
    if idx >= colls[0].terms.len() {
    } else {
        let curr = colls[0].terms[idx];
        if all_contain(colls, curr) {
            let colls2 = remove_common(colls, curr, idx);
            assert(colls2.len() == colls.len());
            assert(colls2[0].terms.len() == colls[0].terms.len() - 1);
            lemma_scan_sizes(colls2, rt, idx, sims.push(spec_mono_mul(curr, rt)), (count + 1) as nat);
            assert forall|j: int| 1 <= j < colls.len() implies (#[trigger] colls2[j]).terms.len()
                == colls[j].terms.len() - 1 by {
                lemma_position_of_bound(colls[j].terms, curr, 0);
            }
        } else {
            lemma_scan_sizes(colls, rt, idx + 1, sims, count);
        }
    }
}

/// A found position lies within the term list.
proof fn lemma_position_of_bound(ts: Seq<MonoS>, t: MonoS, k: int)
    ensures
        position_of(ts, t, k) matches Some(i) ==> k <= i < ts.len(),
    decreases ts.len() - k,
{
    if 0 <= k < ts.len() && !(ts[k] == t) {
        lemma_position_of_bound(ts, t, k + 1);
    }
}

/// A bound on every bucket bounds the greatest bucket.
proof fn lemma_max_terms_bound(colls: Seq<PolyS>, b: int)
    requires
        forall|j: int| 0 <= j < colls.len() ==> (#[trigger] colls[j]).terms.len() <= b,
        b >= 0,
    ensures
        max_terms(colls) <= b,
    decreases colls,
{
    if colls.len() > 0 {
        assert forall|j: int| 0 <= j < colls.drop_first().len() implies (
        #[trigger] colls.drop_first()[j]).terms.len() <= b by {
            assert(colls.drop_first()[j] == colls[j + 1]);
        }
        lemma_max_terms_bound(colls.drop_first(), b);
    }
}

/// The termination argument of the rewriting recursion: when at least one
/// common term was found, every surviving bucket is strictly smaller than
/// the polynomial the buckets came from.
pub proof fn lemma_simplify_decreases(p: PolyS, lhs: PolyS, rhs: PolyS)
    requires
        lhs.terms.len() >= 1,
    ensures
        ({
            let targets = first_factors(lhs.terms);
            let (colls, rem) = collect_terms(p.terms, targets);
            let (colls2, sims, count) = scan_commons(colls, rhs.terms[0], 0, Seq::empty(), 0);
            count > 0 ==> max_terms(colls2) < p.terms.len()
        }),
{
    let targets = first_factors(lhs.terms);
    let (colls, rem) = collect_terms(p.terms, targets);
    let (colls2, sims, count) = scan_commons(colls, rhs.terms[0], 0, Seq::empty(), 0);
    lemma_collect_terms_len(p.terms, targets);
    lemma_collect_sizes(p.terms, targets);
    lemma_scan_sizes(colls, rhs.terms[0], 0, Seq::empty(), 0);
    if count > 0 {
        assert forall|j: int| 0 <= j < colls2.len() implies (#[trigger] colls2[j]).terms.len()
            <= p.terms.len() - 1 by {
            assert(colls[j].terms.len() <= p.terms.len());
        }
        lemma_max_terms_bound(colls2, p.terms.len() - 1);
    }
}

/// One rewriting pass over each bucket.
pub open spec fn simplify_each(colls: Seq<PolyS>, lhs: PolyS, rhs: PolyS) -> Seq<PolyS>
    decreases max_terms(colls), 1int, colls.len() as int,
    when lhs.terms.len() >= 1
{
    if colls.len() == 0 {
        Seq::empty()
    } else {
        seq![spec_simplify(colls[0], lhs, rhs)] + simplify_each(colls.drop_first(), lhs, rhs)
    }
}

/// What `simplify_by_identity` computes: collect the terms by the left
/// side's factors; every term of the first bucket that all other buckets
/// share is taken out of each and re-emitted multiplied by the right-hand
/// term; if anything was rewritten, the buckets are rewritten recursively;
/// the surviving buckets are wrapped as nested factors times their targets,
/// followed by the rewritten terms, followed by the untouched remainder.
pub open spec fn spec_simplify(p: PolyS, lhs: PolyS, rhs: PolyS) -> PolyS
    decreases p.terms.len() as int, 0int, 0int,
    when lhs.terms.len() >= 1
{
    let targets = first_factors(lhs.terms);
    let rt = rhs.terms[0];
    let (colls, rem) = collect_terms(p.terms, targets);
    let (colls2, sims, count) = scan_commons(colls, rt, 0, Seq::empty(), 0);
    let colls3 = if count > 0 {
        proof {
            lemma_simplify_decreases(p, lhs, rhs);
        }
        simplify_each(colls2, lhs, rhs)
    } else {
        colls2
    };
    PolyS { terms: assemble(targets, colls3) + sims + rem }
}

/// Each bucket of one rewriting pass keeps its place: the pass maps the
/// buckets one for one.
proof fn lemma_simplify_each_len(colls: Seq<PolyS>, lhs: PolyS, rhs: PolyS)
    requires
        lhs.terms.len() >= 1,
    ensures
        simplify_each(colls, lhs, rhs).len() == colls.len(),
    decreases colls,
{
    if colls.len() > 0 {
        lemma_simplify_each_len(colls.drop_first(), lhs, rhs);
    }
}

/// The leading factor of each term of the identity's left side.
fn leading_factors(lhs: &Poly) -> (r: Vec<Factor>)
    requires
        forall|i: int|
            0 <= i < lhs@.terms.len() ==> (#[trigger] lhs@.terms[i]).factors.len() >= 1,
    ensures
        view_factors(r@) == first_factors(lhs@.terms),
{
    proof {
        lemma_view_monos(lhs.terms@);
    }
    let n = lhs.terms.len();
    let mut r: Vec<Factor> = Vec::new();
    let mut i: usize = 0;
    while i < n
        invariant
            i <= n,
            n == lhs.terms.len(),
            lhs@.terms.len() == n as int,
            forall|k: int| 0 <= k < n ==> #[trigger] lhs@.terms[k] == lhs.terms@[k]@,
            forall|k: int|
                0 <= k < lhs@.terms.len() ==> (#[trigger] lhs@.terms[k]).factors.len() >= 1,
            r@.len() == i as int,
            forall|k: int| 0 <= k < i ==> #[trigger] r@[k]@ == lhs@.terms[k].factors[0],
        decreases n - i,
    {
        proof {
            lemma_view_factors(lhs.terms@[i as int].factors@);
            assert(lhs@.terms[i as int].factors.len() >= 1);
        }
        let f = lhs.terms[i].factors[0].deep_clone();
        r.push(f);
        i += 1;
    }
    proof {
        lemma_view_factors(r@);
        assert forall|k: int| 0 <= k < n implies #[trigger] view_factors(r@)[k] == first_factors(
            lhs@.terms,
        )[k] by {
            assert(view_factors(r@)[k] == r@[k]@);
        }
        assert(view_factors(r@) =~= first_factors(lhs@.terms));
    }
    r
}

/// The position of the first term structurally equal to the given one, from
/// position `k` on.
fn position_from(ts: &Vec<Mono>, t: &Mono, k: usize) -> (r: Option<usize>)
    requires
        k <= ts@.len(),
    ensures
        (match r {
            Some(i) => k <= i < ts@.len() && position_of(view_monos(ts@), t@, k as int) == Some(
                i as int,
            ),
            None => position_of(view_monos(ts@), t@, k as int) is None,
        }),
{
    let ghost s = view_monos(ts@);
    proof {
        lemma_view_monos(ts@);
    }
    let mut i = k;
    loop
        invariant
            k <= i <= ts@.len(),
            s == view_monos(ts@),
            s.len() == ts@.len(),
            forall|j: int| 0 <= j < ts@.len() ==> #[trigger] s[j] == ts@[j]@,
            position_of(s, t@, k as int) == position_of(s, t@, i as int),
        decreases ts@.len() - i,
    {
        if i == ts.len() {
            return None;
        }
        proof {
            assert(s[i as int] == ts@[i as int]@);
        }
        if crate::model::eq_mono(&ts[i], t) {
            return Some(i);
        }
        i += 1;
    }
}

/// Whether every bucket after the first holds a term equal to the given one.
fn all_contain_exec(colls: &Vec<Poly>, t: &Mono) -> (r: bool)
    ensures
        r == all_contain(view_polys(colls@), t@),
{
    let ghost vc = view_polys(colls@);
    proof {
        lemma_view_polys(colls@);
    }
    let n = colls.len();
    let mut j: usize = 1;
    while j < n
        invariant
            1 <= j,
            j <= n || n == 0,
            n == colls.len(),
            vc == view_polys(colls@),
            vc.len() == n as int,
            forall|k: int| 0 <= k < n ==> #[trigger] vc[k] == colls@[k]@,
            forall|jj: int|
                1 <= jj < j ==> position_of((#[trigger] vc[jj]).terms, t@, 0) is Some,
        decreases n - j,
    {
        match position_from(&colls[j].terms, t, 0) {
            Some(_) => {
                proof {
                    assert(vc[j as int].terms == view_monos(colls@[j as int].terms@));
                }
                j += 1;
            },
            None => {
                proof {
                    assert(vc[j as int].terms == view_monos(colls@[j as int].terms@));
                    assert(position_of(vc[j as int].terms, t@, 0) is None);
                }
                return false;
            },
        }
    }
    true
}

/// The common-term scan over the buckets, as `scan_commons` describes.
#[verifier::loop_isolation(false)]
#[verifier::rlimit(100)]
#[verifier::spinoff_prover]
fn scan_exec(colls: Vec<Poly>, rt: &Mono, idx: usize, sims: Vec<Mono>, count: usize) -> (r: (
    Vec<Poly>,
    Vec<Mono>,
    usize,
))
    requires
        colls@.len() >= 1,
        count + view_polys(colls@)[0].terms.len() <= usize::MAX,
    ensures
        (view_polys(r.0@), view_monos(r.1@), r.2 as nat) == scan_commons(
            view_polys(colls@),
            rt@,
            idx as int,
            view_monos(sims@),
            count as nat,
        ),
{
    let ghost vc0 = view_polys(colls@);
    let ghost vs0 = view_monos(sims@);
    let ghost idx0 = idx as int;
    let ghost count0 = count as nat;
    let mut colls = colls;
    let mut sims = sims;
    let mut idx = idx;
    let mut count = count;
    loop
        invariant
            colls@.len() >= 1,
            count + view_polys(colls@)[0].terms.len() <= usize::MAX,
            scan_commons(vc0, rt@, idx0, vs0, count0) == scan_commons(
                view_polys(colls@),
                rt@,
                idx as int,
                view_monos(sims@),
                count as nat,
            ),
        decreases view_polys(colls@)[0].terms.len() - idx,
    {
        let ghost vc = view_polys(colls@);
        let ghost vs = view_monos(sims@);
        proof {
            lemma_view_polys(colls@);
            lemma_view_monos(sims@);
            assert(vc[0] == colls@[0]@);
            lemma_view_monos(colls@[0].terms@);
        }
        if idx >= colls[0].terms.len() {
            return (colls, sims, count);
        }
        let curr = colls[0].terms[idx].deep_clone();
        let ghost curr_s = vc[0].terms[idx as int];
        proof {
            assert(curr@ == curr_s);
        }
        if all_contain_exec(&colls, &curr) {
            let ghost removed_vc = remove_common(vc, curr_s, idx as int);
            let mut p0 = colls.remove(0);
            let removed = p0.terms.remove(idx);
            proof {
                lemma_view_monos(p0.terms@);
                assert(removed@ == curr_s);
                assert forall|k: int| 0 <= k < p0.terms@.len() implies #[trigger] view_monos(
                    p0.terms@,
                )[k] == removed_vc[0].terms[k] by {
                    assert(view_monos(p0.terms@)[k] == p0.terms@[k]@);
                }
                assert(view_monos(p0.terms@) =~= removed_vc[0].terms);
            }
            colls.insert(0, p0);
            let n = colls.len();
            let mut j: usize = 1;
            while j < n
                invariant
                    1 <= j <= n,
                    n == colls.len(),
                    colls@[0]@ == removed_vc[0],
                    forall|jj: int| 1 <= jj < j ==> (#[trigger] colls@[jj])@ == removed_vc[jj],
                    forall|jj: int| j <= jj < n ==> (#[trigger] colls@[jj])@ == vc[jj],
                    all_contain(vc, curr_s),
                    curr@ == curr_s,
                decreases n - j,
            {
                let mut pj = colls.remove(j);
                proof {
                    lemma_view_monos(pj.terms@);
                }
                match position_from(&pj.terms, &curr, 0) {
                    Some(pos) => {
                        let ghost pjv = pj.terms@;
                        pj.terms.remove(pos);
                        proof {
                            lemma_view_monos(pj.terms@);
                            assert(position_of(vc[j as int].terms, curr_s, 0) == Some(pos as int));
                            assert forall|k: int|
                                0 <= k < pj.terms@.len() implies #[trigger] view_monos(
                                pj.terms@,
                            )[k] == removed_vc[j as int].terms[k] by {
                                assert(view_monos(pj.terms@)[k] == pj.terms@[k]@);
                                lemma_view_monos(pjv);
                            }
                            assert(view_monos(pj.terms@) =~= removed_vc[j as int].terms);
                        }
                        colls.insert(j, pj);
                    },
                    None => {
                        proof {
                            assert(position_of(vc[j as int].terms, curr_s, 0) is Some);
                            assert(false);
                        }
                        colls.insert(j, pj);
                    },
                }
                j += 1;
            }
            proof {
                lemma_view_polys(colls@);
                assert forall|k: int| 0 <= k < n implies #[trigger] view_polys(colls@)[k]
                    == removed_vc[k] by {
                    assert(view_polys(colls@)[k] == colls@[k]@);
                }
                assert(view_polys(colls@) =~= removed_vc);
            }
            let prod = removed.mul(rt.deep_clone());
            let ghost s2v = sims@;
            sims.push(prod);
            proof {
                assert(sims@.drop_last() =~= s2v);
                assert(view_monos(sims@) == view_monos(s2v).push(spec_mono_mul(curr_s, rt@)));
                assert(view_polys(colls@)[0].terms.len() == vc[0].terms.len() - 1);
            }
            count = count + 1;
        } else {
            idx = idx + 1;
        }
    }
}

/// Wraps the buckets from position `j` on, as `assemble` describes.
fn assemble_exec(targets: &Vec<Factor>, colls: &Vec<Poly>, j: usize) -> (r: Vec<Mono>)
    requires
        j <= colls@.len(),
        colls@.len() == targets@.len(),
    ensures
        view_monos(r@) == assemble(
            view_factors(targets@).skip(j as int),
            view_polys(colls@).skip(j as int),
        ),
    decreases colls@.len() - j,
{
    let ghost vt = view_factors(targets@);
    let ghost vc = view_polys(colls@);
    proof {
        lemma_view_factors(targets@);
        lemma_view_polys(colls@);
    }
    if j == colls.len() {
        proof {
            assert(vc.skip(j as int).len() == 0);
            assert(view_monos(Seq::<Mono>::empty()) =~= Seq::<MonoS>::empty());
        }
        return Vec::new();
    }
    let mut rest = assemble_exec(targets, colls, j + 1);
    proof {
        assert(vt.skip(j as int)[0] == vt[j as int]);
        assert(vc.skip(j as int)[0] == vc[j as int]);
        assert(vt.skip(j as int).drop_first() =~= vt.skip(j + 1));
        assert(vc.skip(j as int).drop_first() =~= vc.skip(j + 1));
        assert(vc[j as int] == colls@[j as int]@);
        lemma_view_monos(colls@[j as int].terms@);
    }
    if colls[j].terms.len() > 0 {
        let mut factors: Vec<Factor> = Vec::new();
        factors.push(Factor { base: Base::Poly(colls[j].deep_clone()), power: 1 });
        factors.push(targets[j].deep_clone());
        let m = Mono { coeff: 1, factors };
        proof {
            lemma_view_factors(m.factors@);
            assert(view_factors(m.factors@) =~= seq![
                FactorS { base: BaseS::Poly { poly: vc[j as int] }, power: 1 },
                vt[j as int],
            ]);
        }
        let ghost rv = rest@;
        rest.insert(0, m);
        proof {
            assert(rest@ == rv.insert(0, m));
            lemma_view_monos(rest@);
            lemma_view_monos(rv);
            assert forall|k: int| 0 <= k < rest@.len() implies #[trigger] view_monos(rest@)[k]
                == assemble(vt.skip(j as int), vc.skip(j as int))[k] by {
                assert(view_monos(rest@)[k] == rest@[k]@);
                if k > 0 {
                    assert(rest@[k] == rv[k - 1]);
                }
            }
            assert(view_monos(rest@) =~= assemble(vt.skip(j as int), vc.skip(j as int)));
        }
    }
    rest
}

/// One rewriting pass over each bucket, as `simplify_each` describes.
fn simplify_each_exec(colls: Vec<Poly>, lhs: &Poly, rhs: &Poly) -> (r: Vec<Poly>)
    requires
        lhs@.terms.len() >= 1,
        forall|i: int|
            0 <= i < lhs@.terms.len() ==> (#[trigger] lhs@.terms[i]).coeff == 1
                && lhs@.terms[i].factors.len() == 1,
        rhs@.terms.len() == 1,
    ensures
        view_polys(r@) == simplify_each(view_polys(colls@), lhs@, rhs@),
    decreases max_terms(view_polys(colls@)), 1int, colls@.len() as int,
{
    let ghost vc = view_polys(colls@);
    proof {
        lemma_view_polys(colls@);
    }
    if colls.len() == 0 {
        proof {
            assert(view_polys(Seq::<Poly>::empty()) =~= Seq::<PolyS>::empty());
            assert(simplify_each(vc, lhs@, rhs@) =~= Seq::<PolyS>::empty());
        }
        return Vec::new();
    }
    let mut colls = colls;
    let head = colls.remove(0);
    proof {
        assert(head@ == vc[0]);
        assert(max_terms(vc) >= vc[0].terms.len());
        lemma_view_polys(colls@);
        assert forall|k: int| 0 <= k < colls@.len() implies #[trigger] view_polys(colls@)[k]
            == vc.drop_first()[k] by {
            assert(view_polys(colls@)[k] == colls@[k]@);
        }
        assert(view_polys(colls@) =~= vc.drop_first());
    }
    let s0 = head.simplify_by_identity(lhs, rhs);
    let mut rest = simplify_each_exec(colls, lhs, rhs);
    let ghost rv = rest@;
    rest.insert(0, s0);
    proof {
        assert(rest@ == rv.insert(0, s0));
        lemma_view_polys(rest@);
        lemma_view_polys(rv);
        assert forall|k: int| 0 <= k < rest@.len() implies #[trigger] view_polys(rest@)[k]
            == simplify_each(vc, lhs@, rhs@)[k] by {
            assert(view_polys(rest@)[k] == rest@[k]@);
            if k > 0 {
                assert(rest@[k] == rv[k - 1]);
            }
        }
        assert(view_polys(rest@) =~= simplify_each(vc, lhs@, rhs@));
    }
    rest
}

impl Poly {
    /// Rewrites occurrences of the identity `lhs == rhs` inside this
    /// polynomial: the left side must be a sum of terms each of exactly one
    /// factor with coefficient one, and the right side a single monomial.
    /// The result is not necessarily merged or flattened.
    pub fn simplify_by_identity(&self, lhs: &Poly, rhs: &Poly) -> (r: Poly)
        requires
            lhs@.terms.len() >= 1,
            forall|i: int|
                0 <= i < lhs@.terms.len() ==> (#[trigger] lhs@.terms[i]).coeff == 1
                    && lhs@.terms[i].factors.len() == 1,
            rhs@.terms.len() == 1,
        ensures
            r@ == spec_simplify(self@, lhs@, rhs@),
        decreases self@.terms.len() as int, 0int, 0int,
    {
        let ghost targets_s = first_factors(lhs@.terms);
        let targets = leading_factors(lhs);
        proof {
            lemma_view_monos(rhs.terms@);
        }
        let rt = rhs.terms[0].deep_clone();
        let (colls, rem) = self.collect_by(&targets);
        let ghost vc = view_polys(colls@);
        proof {
            lemma_collect_terms_len(self@.terms, targets_s);
            lemma_view_polys(colls@);
            assert(vc.len() == targets_s.len());
            assert(vc[0] == colls@[0]@);
            lemma_view_monos(colls@[0].terms@);
        }
        let n0 = colls[0].terms.len();
        proof {
            assert(vc[0].terms.len() == n0 as int);
        }
        let (colls2, sims, count) = scan_exec(colls, &rt, 0, Vec::new(), 0);
        proof {
            assert(view_monos(Seq::<Mono>::empty()) =~= Seq::<MonoS>::empty());
            lemma_scan_sizes(vc, rt@, 0, Seq::empty(), 0);
        }
        let colls3 = if count > 0 {
            proof {
                lemma_simplify_decreases(self@, lhs@, rhs@);
            }
            simplify_each_exec(colls2, lhs, rhs)
        } else {
            colls2
        };
        proof {
            if count > 0 {
                lemma_simplify_each_len(view_polys(colls2@), lhs@, rhs@);
            }
            lemma_view_polys(colls2@);
            lemma_view_polys(colls3@);
            lemma_view_factors(targets@);
            assert(view_polys(colls2@).len() == vc.len());
            assert(view_polys(colls3@).len() == view_polys(colls2@).len());
            assert(colls3@.len() == targets@.len());
            assert(view_polys(colls3@).skip(0) =~= view_polys(colls3@));
            assert(view_factors(targets@).skip(0) =~= view_factors(targets@));
        }
        let mut out = assemble_exec(&targets, &colls3, 0);
        let ghost out_v = view_monos(out@);
        let ghost sims_v = view_monos(sims@);
        let ghost rem_v = rem@.terms;
        let ghost ov1 = out@;
        let ghost sv1 = sims@;
        let mut sims2 = sims;
        out.append(&mut sims2);
        proof {
            assert(out@ == ov1 + sv1);
            lemma_view_monos_concat(ov1, sv1);
        }
        let ghost ov2 = out@;
        let ghost rmv = rem.terms@;
        let mut rem2 = rem;
        let mut remt = rem2.terms;
        out.append(&mut remt);
        proof {
            assert(out@ == ov2 + rmv);
            lemma_view_monos_concat(ov2, rmv);
            assert(view_monos(out@) =~= assemble(targets_s, view_polys(colls3@)) + view_monos(
                sv1,
            ) + rem_v);
        }
        Poly { terms: out }
    }
}

} // verus!
