use vstd::prelude::*;

use crate::random::context::Context;

pub mod gf4_number;

verus! {

/// The capability contract any finite-field value type must satisfy so that
/// polynomials and the Euclidean algorithm can be generic over it.
///
/// The `spec_*` functions give the mathematical meaning of the executable
/// operations; the proof obligations at the end are the field axioms, which
/// every implementation must establish and which the polynomial ring proofs
/// build on.
pub trait GaloisField: Sized + Copy {
    /// The additive identity.
    spec fn spec_zero() -> Self;

    /// The multiplicative identity.
    spec fn spec_one() -> Self;

    spec fn spec_add(self, other: Self) -> Self;

    spec fn spec_sub(self, other: Self) -> Self;

    spec fn spec_mul(self, other: Self) -> Self;

    /// The quotient of `self` by a non-zero `other`. Its value when `other`
    /// is zero is irrelevant: the executable `div` returns `None` there.
    spec fn spec_div(self, other: Self) -> Self;

    fn generate_zero() -> (r: Self)
        ensures
            r == Self::spec_zero(),
    ;

    fn is_zero(&self) -> (b: bool)
        ensures
            b == (*self == Self::spec_zero()),
    ;

    fn generate_one() -> (r: Self)
        ensures
            r == Self::spec_one(),
    ;

    fn is_one(&self) -> (b: bool)
        ensures
            b == (*self == Self::spec_one()),
    ;

    /// Draws an element uniformly at random from the caller-supplied source.
    /// Nothing is promised of the value drawn.
    fn generate_random(source: &mut Context) -> Self;

    fn add(&self, other: &Self) -> (r: Self)
        ensures
            r == self.spec_add(*other),
    ;

    fn sub(&self, other: &Self) -> (r: Self)
        ensures
            r == self.spec_sub(*other),
    ;

    fn mul(&self, other: &Self) -> (r: Self)
        ensures
            r == self.spec_mul(*other),
    ;

    /// Division: `None` exactly on the zero divisor.
    fn div(&self, other: &Self) -> (r: Option<Self>)
        ensures
            *other == Self::spec_zero() ==> r is None,
            *other != Self::spec_zero() ==> r == Some(self.spec_div(*other)),
    ;

    /// The two identities are distinct.
    proof fn lemma_one_not_zero()
        ensures
            Self::spec_one() != Self::spec_zero(),
    ;

    /// Addition is commutative.
    proof fn lemma_add_comm(a: Self, b: Self)
        ensures
            a.spec_add(b) == b.spec_add(a),
    ;

    /// Addition is associative.
    proof fn lemma_add_assoc(a: Self, b: Self, c: Self)
        ensures
            a.spec_add(b).spec_add(c) == a.spec_add(b.spec_add(c)),
    ;

    /// Zero is the additive identity.
    proof fn lemma_add_zero(a: Self)
        ensures
            a.spec_add(Self::spec_zero()) == a,
    ;

    /// Every element subtracted from itself gives zero.
    proof fn lemma_sub_self(a: Self)
        ensures
            a.spec_sub(a) == Self::spec_zero(),
    ;

    /// Subtracting zero changes nothing.
    proof fn lemma_sub_zero(a: Self)
        ensures
            a.spec_sub(Self::spec_zero()) == a,
    ;

    /// Subtraction undoes addition.
    proof fn lemma_sub_add(a: Self, b: Self)
        ensures
            a.spec_sub(b).spec_add(b) == a,
    ;

    /// Addition can be cancelled: equal sums with a common term have equal
    /// other terms.
    proof fn lemma_add_cancel(a: Self, b: Self, c: Self)
        requires
            a.spec_add(c) == b.spec_add(c),
        ensures
            a == b,
    ;

    /// Multiplication is commutative.
    proof fn lemma_mul_comm(a: Self, b: Self)
        ensures
            a.spec_mul(b) == b.spec_mul(a),
    ;

    /// Multiplication is associative.
    proof fn lemma_mul_assoc(a: Self, b: Self, c: Self)
        ensures
            a.spec_mul(b).spec_mul(c) == a.spec_mul(b.spec_mul(c)),
    ;

    /// Multiplying by zero gives zero.
    proof fn lemma_mul_zero(a: Self)
        ensures
            a.spec_mul(Self::spec_zero()) == Self::spec_zero(),
    ;

    /// One is the multiplicative identity.
    proof fn lemma_mul_one(a: Self)
        ensures
            a.spec_mul(Self::spec_one()) == a,
    ;

    /// Multiplication distributes over addition.
    proof fn lemma_mul_distrib(a: Self, b: Self, c: Self)
        ensures
            a.spec_mul(b.spec_add(c)) == a.spec_mul(b).spec_add(a.spec_mul(c)),
    ;

    /// Multiplication distributes over subtraction.
    proof fn lemma_mul_sub_distrib(a: Self, b: Self, c: Self)
        ensures
            a.spec_mul(b.spec_sub(c)) == a.spec_mul(b).spec_sub(a.spec_mul(c)),
    ;

    /// A field has no zero divisors.
    proof fn lemma_no_zero_divisors(a: Self, b: Self)
        requires
            a != Self::spec_zero(),
            b != Self::spec_zero(),
        ensures
            a.spec_mul(b) != Self::spec_zero(),
    ;

    /// Division by a non-zero element is the inverse of multiplication by it.
    proof fn lemma_div_mul(a: Self, b: Self)
        requires
            b != Self::spec_zero(),
        ensures
            a.spec_div(b).spec_mul(b) == a,
    ;
}

/// Every non-zero element has exactly one multiplicative inverse, and it is
/// recovered by dividing the multiplicative identity by the element.
pub proof fn lemma_unique_inverse<T: GaloisField>(x: T, y: T)
    requires
        x != T::spec_zero(),
        x.spec_mul(y) == T::spec_one(),
    ensures
        y == T::spec_one().spec_div(x),
{
    let c = T::spec_one().spec_div(x);
    T::lemma_div_mul(T::spec_one(), x);  // c * x == 1
    T::lemma_mul_assoc(c, x, y);  // (c * x) * y == c * (x * y)
    T::lemma_mul_one(c);  // c * 1 == c
    T::lemma_mul_comm(T::spec_one(), y);  // 1 * y == y * 1
    T::lemma_mul_one(y);  // y * 1 == y
}

} // verus!
