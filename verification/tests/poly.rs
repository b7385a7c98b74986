use mathguru::{Base, Poly, Vector3};

fn rotate_perp(a: &Vector3, n: &Vector3, c: Poly, s: Poly) -> Vector3 {
    a.mul(&c).add(&n.cross(a).mul(&s))
}

fn rotate(a: &Vector3, n: &Vector3, c: Poly, s: Poly) -> Vector3 {
    let para = n.mul(&n.dot(a));
    let perp = a.sub(&para);
    para.add(&perp.mul(&c)).add(&n.cross(a).mul(&s))
}

fn create_normal(a: &str, b: &str, n: &Vector3, c: Poly, s: Poly) -> Vector3 {
    let a = Vector3::new(
        Poly::from_name(&format!("{a}_x")),
        Poly::from_name(&format!("{a}_y")),
        Poly::from_int(1),
    );
    let b = Vector3::new(
        Poly::from_name(&format!("{b}_x")),
        Poly::from_name(&format!("{b}_y")),
        Poly::from_int(1),
    );
    let ra = rotate(&a, n, c, s);
    ra.cross(&b)
}

fn sym_base(name: &str) -> Base {
    Base::Sym(mathguru::Sym { name: name.to_string() })
}

#[test]
fn test_polynomial() {
    let a = Vector3::new(Poly::from_name("a_x"), Poly::from_name("a_y"), Poly::from_int(1));
    let b = Vector3::new(Poly::from_name("b_x"), Poly::from_name("b_y"), Poly::from_int(1));
    println!("a = {:?}", &a);
    println!("a + b = {:?}", a.add(&b));

    let n = Vector3::new(Poly::from_name("u"), Poly::from_name("v"), Poly::from_name("w"));
    let ra = rotate(&a, &n, Poly::from_name("c"), Poly::from_name("s"));
    let mut rab = ra.cross(&b);
    let bra = b.cross(&ra).neg();
    assert_eq!(rab, bra);

    println!("a.dot(&n) = {}", a.dot(&n).render());
    println!("a.cross(&n) = {:?}", a.cross(&n));
    println!(
        "rotate_perp = {:?}",
        rotate_perp(&a, &n, Poly::from_name("c"), Poly::from_name("s"))
    );
    println!("rotate = {:?}", &ra);
    println!("rab = {:?}", &rab);

    for value in &mut rab.data {
        value.group_by(vec![
            sym_base("u"),
            sym_base("v"),
            sym_base("w"),
            sym_base("c"),
            sym_base("s"),
        ]);
    }
    println!("rab = {:?}", &rab);

    let n1 = create_normal("a", "b", &n, Poly::from_name("t"), Poly::from_name("s"));
    let n2 = create_normal("c", "d", &n, Poly::from_name("t"), Poly::from_name("s"));
    let n3 = create_normal("e", "f", &n, Poly::from_name("t"), Poly::from_name("s"));
    let res = n1.cross(&n2).dot(&n3);
    println!("{}", res.terms.len());

    let constraint: Poly = Poly::from_name("u")
        .mul(Poly::from_name("u"))
        .add(Poly::from_name("v").mul(Poly::from_name("v")))
        .add(Poly::from_name("w").mul(Poly::from_name("w")));
    let mut sim = res.simplify_by_identity(&constraint, &Poly::from_int(1));
    sim.expand();
    println!("{}", sim.terms.len());

    let constraint: Poly = Poly::from_name("v")
        .mul(Poly::from_name("v"))
        .add(Poly::from_name("u").mul(Poly::from_name("u")))
        .add(Poly::from_name("w").mul(Poly::from_name("w")));
    let mut sim = sim.simplify_by_identity(&constraint, &Poly::from_int(1));
    sim.expand();
    println!("{}", sim.terms.len());

    let constraint: Poly = Poly::from_name("w")
        .mul(Poly::from_name("w"))
        .add(Poly::from_name("u").mul(Poly::from_name("u")))
        .add(Poly::from_name("v").mul(Poly::from_name("v")));
    let mut sim = sim.simplify_by_identity(&constraint, &Poly::from_int(1));
    sim.expand();
    println!("{}", sim.terms.len());

    let constraint: Poly = Poly::from_name("t")
        .mul(Poly::from_name("t"))
        .add(Poly::from_name("s").mul(Poly::from_name("s")));
    let mut sim = sim.simplify_by_identity(&constraint, &Poly::from_int(1));
    sim.expand();
    println!("{}", sim.terms.len());

    sim.group_by(vec![
        sym_base("u"),
        sym_base("v"),
        sym_base("w"),
        sym_base("t"),
        sym_base("s"),
    ]);
    println!("{}", sim.terms.len());
    println!("(n1×n2)·n3 = {}", sim.render());
}
