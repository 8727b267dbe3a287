use galois_poly::galois_fields::gf4_number::GF4;
use galois_poly::polynomials::polynomial::Polynomial;
use galois_poly::polynomials::polynomial_operations::xgcd;

#[test]
fn test_xgcd() {
    {
        let modulus = Polynomial::new_from_coefficients(vec![
            GF4::Zero,
            GF4::One,
            GF4::Zero,
            GF4::Alpha,
        ]);
        let poly = Polynomial::new_from_coefficients(vec![GF4::One, GF4::Zero, GF4::One]);

        let (maybe_gcd, maybe_inv) = xgcd(&poly, &modulus);
        assert!(maybe_gcd.is_some());
        assert!(maybe_inv.is_some());
        assert!(maybe_gcd.unwrap().is_one());
        let inv = maybe_inv.unwrap();
        assert_eq!(inv.degree(), 2);
        assert_eq!(inv.get_coefficient(0).unwrap(), GF4::One);
        assert_eq!(inv.get_coefficient(1).unwrap(), GF4::Zero);
        assert_eq!(inv.get_coefficient(2).unwrap(), GF4::AlphaPlusOne);
    }
    {
        let modulus = Polynomial::new_from_coefficients(vec![
            GF4::Zero,
            GF4::One,
            GF4::One,
            GF4::One,
        ]);
        let poly = Polynomial::new_from_coefficients(vec![GF4::One, GF4::Alpha]);

        let (maybe_gcd, maybe_inv) = xgcd(&poly, &modulus);
        assert!(maybe_gcd.is_some());
        assert!(maybe_inv.is_none());
        let gcd = maybe_gcd.unwrap();
        assert_eq!(gcd.degree(), 1);
        assert_eq!(gcd, poly);
    }
}

#[test]
fn test_xgcd_constant_chain_gives_no_inverse() {
    // the remainder chain of a non-one constant ends at zero, not one, so
    // even a coprime constant gets no inverse; the constant itself is the
    // reported gcd
    let poly = Polynomial::new_from_coefficients(vec![GF4::Alpha]);
    let modulus = Polynomial::new_from_coefficients(vec![GF4::Zero, GF4::One]);
    let (g, inv) = xgcd(&poly, &modulus);
    assert!(inv.is_none());
    assert_eq!(g.unwrap().coefficients(), vec![GF4::Alpha]);
}

#[test]
fn test_xgcd_rejects_bad_inputs() {
    // degree of the modulus must exceed the degree of the polynomial, and
    // the polynomial must be non-zero; both violations give (None, None)
    let small = Polynomial::new_from_coefficients(vec![GF4::One, GF4::Alpha]);
    let big = Polynomial::new_from_coefficients(vec![GF4::One, GF4::Zero, GF4::One]);
    let (g1, i1) = xgcd(&big, &small);
    assert!(g1.is_none());
    assert!(i1.is_none());

    let zero = Polynomial::<GF4>::new();
    let (g2, i2) = xgcd(&zero, &big);
    assert!(g2.is_none());
    assert!(i2.is_none());
}
