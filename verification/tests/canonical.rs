use mathguru::{Base, Cmp, Factor, Mono, Poly, Sym};

fn sym_base(name: &str) -> Base {
    Base::Sym(Sym { name: name.to_string() })
}

#[test]
fn symbol_order_scenario() {
    // Symbols order by name, and every symbol orders before a derived term.
    let a = sym_base("a");
    let b = sym_base("b");
    assert_eq!(a.cmp(&b), Cmp::Lt);
    assert_eq!(b.cmp(&a), Cmp::Gt);
    assert_eq!(a.cmp(&a), Cmp::Eq);

    let sin_b = Poly::from_name("b").apply("sin");
    let der = sin_b.terms[0].factors[0].base.deep_clone();
    assert_eq!(a.cmp(&der), Cmp::Lt);
    assert_eq!(b.cmp(&der), Cmp::Lt);
    assert_eq!(der.cmp(&a), Cmp::Gt);
}

#[test]
fn merge_terms_is_idempotent() {
    // x + x + 2 merges to 2x + 2; merging again changes nothing.
    let x = Poly::from_name("x");
    let mut p = x.deep_clone().add(x.deep_clone()).add(Poly::from_int(2));
    let once = p.deep_clone();
    p.merge_terms();
    assert_eq!(p, once);
}

#[test]
fn merge_factors_sums_powers() {
    // x^2 * x^3 has a single factor x^5.
    let x = Poly::from_name("x");
    let p = x.deep_clone().mul(x.deep_clone()).mul(x.deep_clone()).mul(x.deep_clone()).mul(x);
    assert_eq!(p.terms.len(), 1);
    assert_eq!(p.terms[0].factors.len(), 1);
    assert_eq!(p.terms[0].factors[0].power, 5);
}

#[test]
fn addition_is_commutative_scenario() {
    let p = Poly::from_name("x").add(Poly::from_int(3));
    let q = Poly::from_name("y").mul(Poly::from_name("x"));
    let pq = p.deep_clone().add(q.deep_clone());
    let qp = q.add(p);
    assert_eq!(pq, qp);
}

#[test]
fn multiplication_distributes_scenario() {
    let p = Poly::from_name("x");
    let q = Poly::from_name("y");
    let r = Poly::from_int(2);
    let left = p.deep_clone().mul(q.deep_clone().add(r.deep_clone()));
    let right = p.deep_clone().mul(q).add(p.mul(r));
    assert_eq!(left, right);
}

#[test]
fn extract_round_trip_scenario() {
    // Dividing x out of 3x^2y and multiplying it back reconstructs the term.
    let x = Poly::from_name("x");
    let y = Poly::from_name("y");
    let p = Poly::from_int(3).mul(x.deep_clone()).mul(x.deep_clone()).mul(y);
    let term = p.terms[0].deep_clone();
    let f = Factor { base: sym_base("x"), power: 1 };
    let quotient = term.extract(&f).expect("x divides the term");
    let back = Poly::from_mono(quotient).mul(Poly::from_name("x"));
    assert_eq!(back, p);
}

#[test]
fn extract_refuses_too_large_power() {
    let x = Poly::from_name("x");
    let p = Poly::from_int(3).mul(x);
    let term = p.terms[0].deep_clone();
    let f = Factor { base: sym_base("x"), power: 2 };
    assert!(term.extract(&f).is_none());
    let g = Factor { base: sym_base("z"), power: 1 };
    assert!(term.extract(&g).is_none());
}

#[test]
fn zero_polynomial_has_no_terms() {
    let z = Poly::zero();
    assert!(z.is_zero());
    let x = Poly::from_name("x");
    let diff = x.deep_clone().sub(x);
    assert!(diff.is_zero());
}

#[test]
fn power_of_reads_the_exponent() {
    let x = Poly::from_name("x");
    let p = x.deep_clone().mul(x.deep_clone()).mul(x);
    let m = p.terms[0].deep_clone();
    assert_eq!(m.power_of(&sym_base("x")), 3);
    assert_eq!(m.power_of(&sym_base("y")), 0);
    assert!(m.is_symbol() == false);
    let q = Poly::from_name("q");
    assert!(q.is_symbol());
    assert!(q.terms[0].is_symbol());
    assert!(q.terms[0].factors[0].is_symbol());
    assert!(q.terms[0].factors[0].base.is_symbol());
    assert!(!q.terms[0].factors[0].base.is_polynomial());
}

#[test]
fn like_terms_share_factor_sequences() {
    let x = Poly::from_name("x");
    let a = Poly::from_int(2).mul(x.deep_clone());
    let b = Poly::from_int(5).mul(x);
    assert!(a.terms[0].like(&b.terms[0]));
    let y = Poly::from_name("y");
    assert!(!a.terms[0].like(&y.terms[0]));
}

#[test]
fn collect_by_buckets_terms() {
    // x^2 + xy + 3 collected by [x] gives the bucket {x + y} and remainder 3.
    let x = Poly::from_name("x");
    let y = Poly::from_name("y");
    let p = x
        .deep_clone()
        .mul(x.deep_clone())
        .add(x.deep_clone().mul(y))
        .add(Poly::from_int(3));
    let targets = vec![Factor { base: sym_base("x"), power: 1 }];
    let (buckets, remainder) = p.collect_by(&targets);
    assert_eq!(buckets.len(), 1);
    assert_eq!(buckets[0].terms.len(), 2);
    assert_eq!(remainder.terms.len(), 1);
    assert_eq!(remainder.terms[0].coeff, 3);
}

#[test]
fn group_by_wraps_shared_structure() {
    // a·u + a·v grouped by {u, v}: both terms share the outside factor a,
    // so their kept parts merge into one nested sub-polynomial (u + v)·a.
    let a = Poly::from_name("a");
    let u = Poly::from_name("u");
    let v = Poly::from_name("v");
    let mut p = a.deep_clone().mul(u).add(a.mul(v));
    p.group_by(vec![sym_base("u"), sym_base("v")]);
    assert_eq!(p.terms.len(), 1);
    assert_eq!(p.terms[0].coeff, 1);
    assert_eq!(p.terms[0].factors.len(), 2);
    match &p.terms[0].factors[0].base {
        Base::Poly(inner) => assert_eq!(inner.terms.len(), 2),
        _ => panic!("expected a nested polynomial"),
    }
}

#[test]
fn group_by_keeps_distinct_outside_keys_apart() {
    // a·u + b·u grouped by {u}: the outside keys [a] and [b] differ, so the
    // two terms stay apart, each with its kept factor reattached.
    let a = Poly::from_name("a");
    let b = Poly::from_name("b");
    let u = Poly::from_name("u");
    let mut p = a.mul(u.deep_clone()).add(b.mul(u));
    p.group_by(vec![sym_base("u")]);
    assert_eq!(p.terms.len(), 2);
    assert_eq!(p.terms[0].factors.len(), 2);
    assert_eq!(p.terms[1].factors.len(), 2);
}

#[test]
fn mono_group_by_splits_factors() {
    let x = Poly::from_name("x");
    let u = Poly::from_name("u");
    let p = x.mul(u);
    let term = p.terms[0].deep_clone();
    let (mono, outside) = term.group_by(&vec![sym_base("u")]);
    assert_eq!(outside.len(), 1);
    assert_eq!(mono.factors.len(), 1);
    assert!(!mono.contains_polynomial());
}

#[test]
fn wrapping_coefficients() {
    // Coefficient arithmetic wraps on overflow.
    let big = Poly::from_int(i32::MAX);
    let sum = big.add(Poly::from_int(1));
    assert_eq!(sum.terms.len(), 1);
    assert_eq!(sum.terms[0].coeff, i32::MIN);
}

#[test]
fn apply_builds_a_derived_term() {
    let t = Poly::from_name("t");
    let sin = t.apply("sin");
    assert_eq!(sin.terms.len(), 1);
    assert_eq!(sin.terms[0].coeff, 1);
    assert_eq!(sin.terms[0].factors.len(), 1);
    match &sin.terms[0].factors[0].base {
        Base::Der(d) => {
            assert_eq!(d.func, "sin");
            assert!(d.param.is_symbol());
        },
        _ => panic!("expected a derived base"),
    }
}

#[test]
fn display_leading_minus_scenario() {
    // The polynomial with terms {-1·x} then {+3} prints as "- x + 3".
    let p = Poly {
        terms: vec![
            Mono { coeff: -1, factors: vec![Factor { base: sym_base("x"), power: 1 }] },
            Mono { coeff: 3, factors: vec![] },
        ],
    };
    assert_eq!(p.render(), "- x + 3");
}

#[test]
fn display_coefficients_powers_and_parens() {
    let x = Poly::from_name("x");
    assert_eq!(x.deep_clone().mul(x.deep_clone()).render(), "x^2");
    assert_eq!(Poly::from_int(2).mul(x.deep_clone()).render(), "2x");
    assert_eq!(Poly::from_int(1).render(), "1");
    let sin = Poly::from_name("t").apply("sin");
    assert_eq!(sin.render(), "sint");
    let sum = Poly::from_name("x").add(Poly::from_int(1));
    assert_eq!(sum.apply("cos").render(), "cos(1 + x)");
}

#[test]
fn simplify_by_identity_scenario() {
    // sim = x^2 + y^2 + z with the identity x^2 + y^2 = 1 becomes 1 + z
    // after one rewriting pass and a flattening pass.
    let x = Poly::from_name("x");
    let y = Poly::from_name("y");
    let z = Poly::from_name("z");
    let sim = x
        .deep_clone()
        .mul(x.deep_clone())
        .add(y.deep_clone().mul(y.deep_clone()))
        .add(z);
    let lhs = x.deep_clone().mul(x).add(y.deep_clone().mul(y));
    let rhs = Poly::from_int(1);
    let mut r = sim.simplify_by_identity(&lhs, &rhs);
    r.expand();
    assert_eq!(r.render(), "1 + z");
}

#[test]
fn expand_flattens_nested_factors() {
    // (x + 1)·y, with the sum as a nested factor, flattens to xy + y.
    let x = Poly::from_name("x");
    let sum = x.add(Poly::from_int(1));
    let mut p = Poly {
        terms: vec![
            Mono {
                coeff: 1,
                factors: vec![
                    Factor { base: Base::Poly(sum), power: 1 },
                    Factor { base: sym_base("y"), power: 1 },
                ],
            },
        ],
    };
    p.expand();
    assert_eq!(p.terms.len(), 2);
    assert_eq!(p.render(), "xy + y");
}

#[test]
fn expand_leaves_flat_polynomials_unchanged() {
    let x = Poly::from_name("x");
    let mut p = x.deep_clone().mul(x).add(Poly::from_int(3));
    let before = p.deep_clone();
    p.expand();
    assert_eq!(p, before);
}
