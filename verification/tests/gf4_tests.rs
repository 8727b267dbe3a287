use galois_poly::galois_fields::GaloisField;
use galois_poly::galois_fields::gf4_number::GF4;

#[test]
fn test_gf4_to_number() {
    assert_eq!(GF4::Zero.to_number(), 0);
    assert_eq!(GF4::One.to_number(), 1);
    assert_eq!(GF4::Alpha.to_number(), 2);
    assert_eq!(GF4::AlphaPlusOne.to_number(), 3);
}

#[test]
fn test_gf4_from_number() {
    assert_eq!(GF4::from_number(0).unwrap(), GF4::Zero);
    assert_eq!(GF4::from_number(1).unwrap(), GF4::One);
    assert_eq!(GF4::from_number(2).unwrap(), GF4::Alpha);
    assert_eq!(GF4::from_number(3).unwrap(), GF4::AlphaPlusOne);
    assert!(GF4::from_number(4).is_none());
}

#[test]
fn test_gf4_generate_zero() {
    assert_eq!(GF4::generate_zero(), GF4::Zero);
}

#[test]
fn test_gf4_is_zero() {
    assert!(GF4::Zero.is_zero());
    assert!(!GF4::One.is_zero());
    assert!(!GF4::Alpha.is_zero());
    assert!(!GF4::AlphaPlusOne.is_zero());
}

#[test]
fn test_gf4_generate_one() {
    assert_eq!(GF4::generate_one(), GF4::One);
}

#[test]
fn test_gf4_is_one() {
    assert!(!GF4::Zero.is_one());
    assert!(GF4::One.is_one());
    assert!(!GF4::Alpha.is_one());
    assert!(!GF4::AlphaPlusOne.is_one());
}

#[test]
fn test_gf4_add() {
    // 0 + x
    assert_eq!(GF4::Zero.add(&GF4::Zero), GF4::Zero);
    assert_eq!(GF4::Zero.add(&GF4::One), GF4::One);
    assert_eq!(GF4::Zero.add(&GF4::Alpha), GF4::Alpha);
    assert_eq!(GF4::Zero.add(&GF4::AlphaPlusOne), GF4::AlphaPlusOne);

    // 1 + x
    assert_eq!(GF4::One.add(&GF4::Zero), GF4::One);
    assert_eq!(GF4::One.add(&GF4::One), GF4::Zero);
    assert_eq!(GF4::One.add(&GF4::Alpha), GF4::AlphaPlusOne);
    assert_eq!(GF4::One.add(&GF4::AlphaPlusOne), GF4::Alpha);

    // a + x
    assert_eq!(GF4::Alpha.add(&GF4::Zero), GF4::Alpha);
    assert_eq!(GF4::Alpha.add(&GF4::One), GF4::AlphaPlusOne);
    assert_eq!(GF4::Alpha.add(&GF4::Alpha), GF4::Zero);
    assert_eq!(GF4::Alpha.add(&GF4::AlphaPlusOne), GF4::One);

    // (a+1) + x
    assert_eq!(GF4::AlphaPlusOne.add(&GF4::Zero), GF4::AlphaPlusOne);
    assert_eq!(GF4::AlphaPlusOne.add(&GF4::One), GF4::Alpha);
    assert_eq!(GF4::AlphaPlusOne.add(&GF4::Alpha), GF4::One);
    assert_eq!(GF4::AlphaPlusOne.add(&GF4::AlphaPlusOne), GF4::Zero);
}

#[test]
fn test_gf4_sub() {
    // 0 - x
    assert_eq!(GF4::Zero.sub(&GF4::Zero), GF4::Zero);
    assert_eq!(GF4::Zero.sub(&GF4::One), GF4::One);
    assert_eq!(GF4::Zero.sub(&GF4::Alpha), GF4::Alpha);
    assert_eq!(GF4::Zero.sub(&GF4::AlphaPlusOne), GF4::AlphaPlusOne);

    // 1 - x
    assert_eq!(GF4::One.sub(&GF4::Zero), GF4::One);
    assert_eq!(GF4::One.sub(&GF4::One), GF4::Zero);
    assert_eq!(GF4::One.sub(&GF4::Alpha), GF4::AlphaPlusOne);
    assert_eq!(GF4::One.sub(&GF4::AlphaPlusOne), GF4::Alpha);

    // a - x
    assert_eq!(GF4::Alpha.sub(&GF4::Zero), GF4::Alpha);
    assert_eq!(GF4::Alpha.sub(&GF4::One), GF4::AlphaPlusOne);
    assert_eq!(GF4::Alpha.sub(&GF4::Alpha), GF4::Zero);
    assert_eq!(GF4::Alpha.sub(&GF4::AlphaPlusOne), GF4::One);

    // (a+1) - x
    assert_eq!(GF4::AlphaPlusOne.sub(&GF4::Zero), GF4::AlphaPlusOne);
    assert_eq!(GF4::AlphaPlusOne.sub(&GF4::One), GF4::Alpha);
    assert_eq!(GF4::AlphaPlusOne.sub(&GF4::Alpha), GF4::One);
    assert_eq!(GF4::AlphaPlusOne.sub(&GF4::AlphaPlusOne), GF4::Zero);
}

#[test]
fn test_gf4_mul() {
    // 0 * x
    assert_eq!(GF4::Zero.mul(&GF4::Zero), GF4::Zero);
    assert_eq!(GF4::Zero.mul(&GF4::One), GF4::Zero);
    assert_eq!(GF4::Zero.mul(&GF4::Alpha), GF4::Zero);
    assert_eq!(GF4::Zero.mul(&GF4::AlphaPlusOne), GF4::Zero);

    // 1 * x
    assert_eq!(GF4::One.mul(&GF4::Zero), GF4::Zero);
    assert_eq!(GF4::One.mul(&GF4::One), GF4::One);
    assert_eq!(GF4::One.mul(&GF4::Alpha), GF4::Alpha);
    assert_eq!(GF4::One.mul(&GF4::AlphaPlusOne), GF4::AlphaPlusOne);

    // a * x
    assert_eq!(GF4::Alpha.mul(&GF4::Zero), GF4::Zero);
    assert_eq!(GF4::Alpha.mul(&GF4::One), GF4::Alpha);
    assert_eq!(GF4::Alpha.mul(&GF4::Alpha), GF4::AlphaPlusOne);
    assert_eq!(GF4::Alpha.mul(&GF4::AlphaPlusOne), GF4::One);

    // (a+1) * x
    assert_eq!(GF4::AlphaPlusOne.mul(&GF4::Zero), GF4::Zero);
    assert_eq!(GF4::AlphaPlusOne.mul(&GF4::One), GF4::AlphaPlusOne);
    assert_eq!(GF4::AlphaPlusOne.mul(&GF4::Alpha), GF4::One);
    assert_eq!(GF4::AlphaPlusOne.mul(&GF4::AlphaPlusOne), GF4::Alpha);
}

#[test]
fn test_gf4_div() {
    // 0 / x
    assert!(GF4::Zero.div(&GF4::Zero).is_none());
    assert_eq!(GF4::Zero.div(&GF4::One).unwrap(), GF4::Zero);
    assert_eq!(GF4::Zero.div(&GF4::Alpha).unwrap(), GF4::Zero);
    assert_eq!(GF4::Zero.div(&GF4::AlphaPlusOne).unwrap(), GF4::Zero);

    // 1 / x
    assert!(GF4::One.div(&GF4::Zero).is_none());
    assert_eq!(GF4::One.div(&GF4::One).unwrap(), GF4::One);
    assert_eq!(GF4::One.div(&GF4::Alpha).unwrap(), GF4::AlphaPlusOne);
    assert_eq!(GF4::One.div(&GF4::AlphaPlusOne).unwrap(), GF4::Alpha);

    // a / x
    assert!(GF4::Alpha.div(&GF4::Zero).is_none());
    assert_eq!(GF4::Alpha.div(&GF4::One).unwrap(), GF4::Alpha);
    assert_eq!(GF4::Alpha.div(&GF4::Alpha).unwrap(), GF4::One);
    assert_eq!(GF4::Alpha.div(&GF4::AlphaPlusOne).unwrap(), GF4::AlphaPlusOne);

    // (a+1) / x
    assert!(GF4::AlphaPlusOne.div(&GF4::Zero).is_none());
    assert_eq!(GF4::AlphaPlusOne.div(&GF4::One).unwrap(), GF4::AlphaPlusOne);
    assert_eq!(GF4::AlphaPlusOne.div(&GF4::Alpha).unwrap(), GF4::Alpha);
    assert_eq!(GF4::AlphaPlusOne.div(&GF4::AlphaPlusOne).unwrap(), GF4::One);
}

#[test]
fn test_gf4_unique_inverse_via_div() {
    // every non-zero element has a multiplicative inverse reachable as 1/x,
    // and multiplying by it gives one again
    for x in [GF4::One, GF4::Alpha, GF4::AlphaPlusOne] {
        let inv = GF4::One.div(&x).unwrap();
        assert_eq!(x.mul(&inv), GF4::One);
        // uniqueness: no other element multiplies with x to one
        for y in [GF4::Zero, GF4::One, GF4::Alpha, GF4::AlphaPlusOne] {
            if x.mul(&y) == GF4::One {
                assert_eq!(y, inv);
            }
        }
    }
}
