use mathguru::{Base, Poly};

#[test]
fn test_factorize() {
    let t: Poly = Poly::from_name("t");

    let mut p = t
        .deep_clone()
        .mul(t.deep_clone())
        .mul(t.deep_clone())
        .add(t.deep_clone().mul(t.deep_clone()))
        .add(t.deep_clone().mul(Poly::from_int(3)));

    let factors = p.extract_common_factors();
    println!("factors: {:?}", factors);
    println!("p={:?}", p);

    assert_eq!(factors.len(), 1);
    assert_eq!(factors[0].power, 1);
    match &factors[0].base {
        Base::Sym(s) => assert_eq!(s.name, "t"),
        _ => panic!("expected a symbol factor"),
    }

    // What remains is t^2 + t + 3, in ascending canonical order: the
    // constant, then t, then t squared.
    assert_eq!(p.terms.len(), 3);
    assert_eq!(p.terms[0].coeff, 3);
    assert_eq!(p.terms[0].factors.len(), 0);
    assert_eq!(p.terms[1].coeff, 1);
    assert_eq!(p.terms[1].factors.len(), 1);
    assert_eq!(p.terms[1].factors[0].power, 1);
    assert_eq!(p.terms[2].coeff, 1);
    assert_eq!(p.terms[2].factors.len(), 1);
    assert_eq!(p.terms[2].factors[0].power, 2);
}
