use mathguru::{Poly, Vector3};

fn sin_cos(t: Poly) -> (Poly, Poly) {
    let sin = t.apply("sin");
    let cos = t.apply("cos");
    (sin, cos)
}

fn rotate_perp(a: &Vector3, n: &Vector3, t: Poly) -> Vector3 {
    let (sin, cos) = sin_cos(t);
    a.mul(&cos).add(&n.cross(a).mul(&sin))
}

fn rotate(a: &Vector3, n: &Vector3, t: Poly) -> Vector3 {
    let (sin, cos) = sin_cos(t);
    let para = n.mul(&n.dot(a));
    let perp = a.sub(&para);
    para.add(&perp.mul(&cos)).add(&n.cross(a).mul(&sin))
}

#[test]
fn test_derive() {
    let a = Vector3::new(Poly::from_name("a_x"), Poly::from_name("a_y"), Poly::from_int(1));
    let b = Vector3::new(Poly::from_name("b_x"), Poly::from_name("b_y"), Poly::from_int(1));

    let (sin_theta, cos_theta) = sin_cos(Poly::from_name("θ"));
    println!(
        "{:?} = 1",
        sin_theta.deep_clone().mul(sin_theta).add(cos_theta.deep_clone().mul(cos_theta))
    );

    let (sin_phi, cos_phi) = sin_cos(Poly::from_name("ψ"));
    let (sin_omega, cos_omega) = sin_cos(Poly::from_name("ω"));
    let n = Vector3::new(
        sin_phi.deep_clone().mul(cos_omega),
        sin_phi.mul(sin_omega),
        cos_phi,
    );
    let ra = rotate_perp(&a, &n, Poly::from_name("θ"));
    println!("rotate_perp = {:?}", &ra);

    let ra = rotate(&a, &n, Poly::from_name("θ"));
    println!("rotate = {:?}", &ra);
    let rab = ra.cross(&b);
    let bra = b.cross(&ra).neg();
    assert_eq!(rab, bra);
}
