use galois_poly::galois_fields::GaloisField;
use galois_poly::galois_fields::gf4_number::GF4;
use galois_poly::random::context::Context;

#[test]
fn test_generate_random_is_a_field_element() {
    let mut ctx = Context::new();
    for _ in 0..32 {
        let g = GF4::generate_random(&mut ctx);
        assert!(g.to_number() <= 3);
    }
}

#[test]
fn test_random_vector_length() {
    let mut ctx = Context::new();
    let v: Vec<GF4> = ctx.random_vector(17);
    assert_eq!(v.len(), 17);
    let empty: Vec<GF4> = ctx.random_vector(0);
    assert!(empty.is_empty());
}

#[test]
fn test_random_error_vector_weight() {
    let mut ctx = Context::new();
    let v: Vec<GF4> = ctx.random_error_vector(24, 5);
    assert_eq!(v.len(), 24);
    let zeros = v.iter().filter(|g| g.is_zero()).count();
    assert!(zeros >= 24 - 5);
}
