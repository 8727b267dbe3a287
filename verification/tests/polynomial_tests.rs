use galois_poly::galois_fields::gf4_number::GF4;
use galois_poly::polynomials::polynomial::Polynomial;
use galois_poly::polynomials::polynomial::remove_trailing_zeros;

#[test]
fn test_remove_trailing_zeros() {
    let mut input1 = vec![GF4::Zero, GF4::One, GF4::Alpha, GF4::Zero, GF4::Zero];
    let expected1 = vec![GF4::Zero, GF4::One, GF4::Alpha];

    let mut input2 = vec![
        GF4::Zero,
        GF4::One,
        GF4::Alpha,
        GF4::Zero,
        GF4::Zero,
        GF4::AlphaPlusOne,
    ];
    let expected2 = vec![
        GF4::Zero,
        GF4::One,
        GF4::Alpha,
        GF4::Zero,
        GF4::Zero,
        GF4::AlphaPlusOne,
    ];

    remove_trailing_zeros(&mut input1);
    remove_trailing_zeros(&mut input2);

    assert_eq!(input1, expected1);
    assert_eq!(input2, expected2);
}

#[test]
fn test_polynomial_new() {
    let p: Polynomial<GF4> = Polynomial::new();
    assert_eq!(p.degree(), 0);
    assert_eq!(p.coefficients().len(), 1);
    assert_eq!(p.coefficients()[0], GF4::Zero);
}

#[test]
fn test_polynomial_new_from_coefficients() {
    let p1: Polynomial<GF4> = Polynomial::new_from_coefficients(vec![
        GF4::Zero,
        GF4::Zero,
        GF4::Zero,
    ]);
    assert_eq!(p1.degree(), 0);
    assert_eq!(p1.coefficients().len(), 1);
    assert_eq!(p1.coefficients()[0], GF4::Zero);

    let p1: Polynomial<GF4> = Polynomial::new_from_coefficients(vec![
        GF4::Zero,
        GF4::Zero,
        GF4::Zero,
        GF4::One,
        GF4::Zero,
    ]);
    assert_eq!(p1.degree(), 3);
    assert_eq!(p1.coefficients().len(), 4);
    assert_eq!(p1.coefficients(), vec![GF4::Zero, GF4::Zero, GF4::Zero, GF4::One]);
}

#[test]
fn test_polynomial_is_zero() {
    let p1: Polynomial<GF4> = Polynomial::new();
    assert!(p1.is_zero());

    let p2: Polynomial<GF4> = Polynomial::new_from_coefficients(vec![GF4::One]);
    assert!(!p2.is_zero());
}

#[test]
fn test_polynomial_is_one() {
    let p1: Polynomial<GF4> = Polynomial::new();
    assert!(!p1.is_one());

    let p2: Polynomial<GF4> = Polynomial::new_from_coefficients(vec![GF4::One]);
    assert!(p2.is_one());
}

#[test]
fn test_polynomial_degree() {
    let p1: Polynomial<GF4> = Polynomial::new();
    let p2 = Polynomial::new_from_coefficients(vec![
        GF4::One,
        GF4::Zero,
        GF4::AlphaPlusOne,
        GF4::Zero,
    ]);
    let p3 = Polynomial::new_from_coefficients(vec![GF4::One, GF4::Zero, GF4::AlphaPlusOne]);
    assert_eq!(p1.degree(), 0);
    assert_eq!(p2.degree(), 2);
    assert_eq!(p3.degree(), 2);
}

#[test]
fn test_polynomial_get_coefficient() {
    let p = Polynomial::new_from_coefficients(vec![
        GF4::Zero,
        GF4::One,
        GF4::Alpha,
        GF4::AlphaPlusOne,
        GF4::Zero,
    ]);
    assert!(p.get_coefficient(0).is_some());
    assert_eq!(p.get_coefficient(0).unwrap(), GF4::Zero);

    assert!(p.get_coefficient(1).is_some());
    assert_eq!(p.get_coefficient(1).unwrap(), GF4::One);

    assert!(p.get_coefficient(2).is_some());
    assert_eq!(p.get_coefficient(2).unwrap(), GF4::Alpha);

    assert!(p.get_coefficient(3).is_some());
    assert_eq!(p.get_coefficient(3).unwrap(), GF4::AlphaPlusOne);

    assert!(p.get_coefficient(4).is_none());
}

#[test]
fn test_polynomial_add() {
    let p1 = Polynomial::new_from_coefficients(vec![
        GF4::Zero,
        GF4::One,
        GF4::Alpha,
        GF4::AlphaPlusOne,
    ]);
    let p2 = Polynomial::new_from_coefficients(vec![GF4::One, GF4::One]);
    let p3: Polynomial<GF4> = Polynomial::new();

    let p4 = p1.add(&p2);
    let p5 = p1.add(&p3);
    let p6 = p2.add(&p1);

    assert_eq!(p4.coefficients(), vec![GF4::One, GF4::Zero, GF4::Alpha, GF4::AlphaPlusOne]);
    assert_eq!(p5.coefficients(), p1.coefficients());
    assert_eq!(p6.coefficients(), vec![GF4::One, GF4::Zero, GF4::Alpha, GF4::AlphaPlusOne]);
}

#[test]
fn test_polynomial_sub() {
    let p1 = Polynomial::new_from_coefficients(vec![
        GF4::Zero,
        GF4::One,
        GF4::Alpha,
        GF4::AlphaPlusOne,
    ]);
    let p2 = Polynomial::new_from_coefficients(vec![GF4::One, GF4::One]);
    let p3: Polynomial<GF4> = Polynomial::new();

    let p4 = p1.sub(&p2);
    let p5 = p1.sub(&p3);
    let p6 = p2.sub(&p1);

    assert_eq!(p4.coefficients(), vec![GF4::One, GF4::Zero, GF4::Alpha, GF4::AlphaPlusOne]);
    assert_eq!(p5.coefficients(), p1.coefficients());
    assert_eq!(p6.coefficients(), vec![GF4::One, GF4::Zero, GF4::Alpha, GF4::AlphaPlusOne]);
}

#[test]
fn test_polynomial_mul() {
    let p1 = Polynomial::new_from_coefficients(vec![
        GF4::Zero,
        GF4::One,
        GF4::Alpha,
        GF4::Alpha,
        GF4::AlphaPlusOne,
    ]);
    let p2 = Polynomial::new_from_coefficients(vec![GF4::AlphaPlusOne, GF4::Zero, GF4::One]);

    let p3 = p1.mul(&p2);
    assert_eq!(
        p3.coefficients(),
        vec![
            GF4::Zero,
            GF4::AlphaPlusOne,
            GF4::One,
            GF4::Zero,
            GF4::Zero,
            GF4::Alpha,
            GF4::AlphaPlusOne,
        ]
    );
}

#[test]
fn test_polynomial_div_mod() {
    let p1 = Polynomial::<GF4>::new();
    let p2 = Polynomial::new_from_coefficients(vec![
        GF4::One,
        GF4::Zero,
        GF4::One,
        GF4::Alpha,
        GF4::AlphaPlusOne,
    ]);
    let p3 = Polynomial::new_from_coefficients(vec![GF4::One, GF4::Alpha]);

    let p4 = p2.div_mod(&p1);
    assert!(p4.is_none());

    let p5 = p2.div_mod(&p3);
    assert!(p5.is_some());
    let (p5_div, p5_mod) = p5.unwrap();
    assert_eq!(p5_div.coefficients(), vec![GF4::Alpha, GF4::AlphaPlusOne, GF4::Zero, GF4::Alpha]);
    assert_eq!(p5_mod.coefficients(), vec![GF4::AlphaPlusOne]);

    let p6 = p3.div_mod(&p2);
    assert!(p6.is_some());
    let (p6_div, p6_mod) = p6.unwrap();
    assert!(p6_div.is_zero());
    assert_eq!(p6_mod.coefficients(), p3.coefficients());
}

#[test]
fn test_polynomial_invert() {
    {
        let p = Polynomial::new_from_coefficients(vec![GF4::One, GF4::Zero, GF4::One]);
        let m = Polynomial::new_from_coefficients(vec![GF4::Zero, GF4::One, GF4::Zero, GF4::Alpha]);
        let inv = p.invert(&m);
        assert!(inv.is_some());
        assert_eq!(inv.unwrap().coefficients(), vec![GF4::One, GF4::Zero, GF4::AlphaPlusOne]);
    }
    {
        let p = Polynomial::new_from_coefficients(vec![GF4::One, GF4::Alpha]);
        let m = Polynomial::new_from_coefficients(vec![GF4::Zero, GF4::One, GF4::One, GF4::One]);
        let inv = p.invert(&m);
        assert!(inv.is_none());
    }
}

#[test]
fn test_polynomial_canonical_form() {
    // every constructed polynomial is the single-zero form or ends in a
    // non-zero coefficient, also after operations that cancel leading terms
    let p1 = Polynomial::new_from_coefficients(vec![GF4::One, GF4::Alpha, GF4::AlphaPlusOne]);
    let p2 = Polynomial::new_from_coefficients(vec![GF4::Zero, GF4::Zero, GF4::AlphaPlusOne]);
    let diff = p1.sub(&p2);
    let c = diff.coefficients();
    assert_eq!(c, vec![GF4::One, GF4::Alpha]);
    assert_ne!(*c.last().unwrap(), GF4::Zero);

    let all_cancel = p1.sub(&p1);
    assert_eq!(all_cancel.coefficients(), vec![GF4::Zero]);
    assert!(all_cancel.is_zero());
}

#[test]
fn test_polynomial_ring_axioms() {
    // addition commutes, zero is the additive identity, p - p is zero
    let p = Polynomial::new_from_coefficients(vec![GF4::One, GF4::Zero, GF4::Alpha]);
    let q = Polynomial::new_from_coefficients(vec![GF4::AlphaPlusOne, GF4::One]);
    let zero = Polynomial::<GF4>::new();

    assert_eq!(p.add(&q), q.add(&p));
    assert_eq!(p.add(&zero), p);
    assert!(p.sub(&p).is_zero());
}

#[test]
fn test_polynomial_mul_degree_law() {
    // for non-zero polynomials the degree of the product is the degree sum
    let p = Polynomial::new_from_coefficients(vec![GF4::One, GF4::Alpha, GF4::One]);
    let q = Polynomial::new_from_coefficients(vec![GF4::Alpha, GF4::AlphaPlusOne]);
    assert_eq!(p.mul(&q).degree(), p.degree() + q.degree());
}

#[test]
fn test_polynomial_division_identity() {
    // div_mod returns (q, r) with deg(r) < deg(divisor) and p == q·d + r
    let p = Polynomial::new_from_coefficients(vec![
        GF4::One,
        GF4::Zero,
        GF4::One,
        GF4::Alpha,
        GF4::AlphaPlusOne,
    ]);
    let d = Polynomial::new_from_coefficients(vec![GF4::One, GF4::Alpha]);
    let (q, r) = p.div_mod(&d).unwrap();
    assert!(r.degree() < d.degree() || r.is_zero());
    assert_eq!(q.mul(&d).add(&r), p);

    // a constant divisor divides exactly
    let c = Polynomial::new_from_coefficients(vec![GF4::Alpha]);
    let (qc, rc) = p.div_mod(&c).unwrap();
    assert!(rc.is_zero());
    assert_eq!(qc.mul(&c).add(&rc), p);
}

#[test]
fn test_polynomial_inversion_round_trip() {
    // when invert returns a value, multiplying by it leaves remainder one
    let p = Polynomial::new_from_coefficients(vec![GF4::One, GF4::Zero, GF4::One]);
    let m = Polynomial::new_from_coefficients(vec![GF4::Zero, GF4::One, GF4::Zero, GF4::Alpha]);
    let inv = p.invert(&m).unwrap();
    let (_, rem) = p.mul(&inv).div_mod(&m).unwrap();
    assert!(rem.is_one());
}

#[test]
fn test_polynomial_zero_dividend() {
    // dividing by the zero polynomial is an absent result; dividing the zero
    // polynomial by a non-zero polynomial of degree >= 1 gives (zero, zero)
    let zero = Polynomial::<GF4>::new();
    let d = Polynomial::new_from_coefficients(vec![GF4::One, GF4::One, GF4::Alpha]);
    assert!(d.div_mod(&zero).is_none());

    let (q, r) = zero.div_mod(&d).unwrap();
    assert!(q.is_zero());
    assert!(r.is_zero());
}
