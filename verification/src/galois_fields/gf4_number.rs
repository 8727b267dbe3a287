use vstd::prelude::*;

use crate::galois_fields::GaloisField;
use crate::random::context::Context;
use crate::random::context::pick_element;

verus! {

/// The four-element field {0, 1, α, α+1} with α² = α + 1: the reference
/// instantiation of [`GaloisField`].
#[derive(Eq, PartialEq, Debug, Clone, Copy)]
pub enum GF4 {
    Zero,
    One,
    Alpha,
    AlphaPlusOne,
}

impl GF4 {
    /// The numeric encoding of each element.
    pub open spec fn spec_number(self) -> u8 {
        match self {
            GF4::Zero => 0,
            GF4::One => 1,
            GF4::Alpha => 2,
            GF4::AlphaPlusOne => 3,
        }
    }

    pub fn to_number(&self) -> (n: u8)
        ensures
            n == self.spec_number(),
    {
        match self {
            GF4::Zero => 0,
            GF4::One => 1,
            GF4::Alpha => 2,
            GF4::AlphaPlusOne => 3,
        }
    }

    pub fn from_number(num: u8) -> (r: Option<GF4>)
        ensures
            num <= 3 ==> (r matches Some(g) && g.spec_number() == num),
            num > 3 ==> r is None,
    {
        match num {
            0 => Some(GF4::Zero),
            1 => Some(GF4::One),
            2 => Some(GF4::Alpha),
            3 => Some(GF4::AlphaPlusOne),
            _ => None,
        }
    }
}

/// Every GF4 value is one of the four elements; lets the solver split on the
/// cases of the arithmetic tables.
proof fn lemma_gf4_cases(a: GF4)
    ensures
        a == GF4::Zero || a == GF4::One || a == GF4::Alpha || a == GF4::AlphaPlusOne,
{
    match a {
        GF4::Zero => {},
        GF4::One => {},
        GF4::Alpha => {},
        GF4::AlphaPlusOne => {},
    }
}

impl GaloisField for GF4 {
    open spec fn spec_zero() -> GF4 {
        GF4::Zero
    }

    open spec fn spec_one() -> GF4 {
        GF4::One
    }

    /// The characteristic-2 addition table: every element is its own
    /// additive inverse.
    open spec fn spec_add(self, other: GF4) -> GF4 {
        match (self, other) {
            (GF4::Zero, o) => o,
            (GF4::One, GF4::Zero) => GF4::One,
            (GF4::One, GF4::One) => GF4::Zero,
            (GF4::One, GF4::Alpha) => GF4::AlphaPlusOne,
            (GF4::One, GF4::AlphaPlusOne) => GF4::Alpha,
            (GF4::Alpha, GF4::Zero) => GF4::Alpha,
            (GF4::Alpha, GF4::One) => GF4::AlphaPlusOne,
            (GF4::Alpha, GF4::Alpha) => GF4::Zero,
            (GF4::Alpha, GF4::AlphaPlusOne) => GF4::One,
            (GF4::AlphaPlusOne, GF4::Zero) => GF4::AlphaPlusOne,
            (GF4::AlphaPlusOne, GF4::One) => GF4::Alpha,
            (GF4::AlphaPlusOne, GF4::Alpha) => GF4::One,
            (GF4::AlphaPlusOne, GF4::AlphaPlusOne) => GF4::Zero,
        }
    }

    /// In characteristic 2, subtraction coincides with addition.
    open spec fn spec_sub(self, other: GF4) -> GF4 {
        self.spec_add(other)
    }

    /// The multiplication table following from α² = α + 1.
    open spec fn spec_mul(self, other: GF4) -> GF4 {
        match (self, other) {
            (GF4::Zero, _) => GF4::Zero,
            (_, GF4::Zero) => GF4::Zero,
            (GF4::One, o) => o,
            (GF4::Alpha, GF4::One) => GF4::Alpha,
            (GF4::Alpha, GF4::Alpha) => GF4::AlphaPlusOne,
            (GF4::Alpha, GF4::AlphaPlusOne) => GF4::One,
            (GF4::AlphaPlusOne, GF4::One) => GF4::AlphaPlusOne,
            (GF4::AlphaPlusOne, GF4::Alpha) => GF4::One,
            (GF4::AlphaPlusOne, GF4::AlphaPlusOne) => GF4::Alpha,
        }
    }

    /// The division table; the zero-divisor column is never consulted.
    open spec fn spec_div(self, other: GF4) -> GF4 {
        match (self, other) {
            (_, GF4::Zero) => GF4::Zero,
            (GF4::Zero, _) => GF4::Zero,
            (o, GF4::One) => o,
            (GF4::One, GF4::Alpha) => GF4::AlphaPlusOne,
            (GF4::One, GF4::AlphaPlusOne) => GF4::Alpha,
            (GF4::Alpha, GF4::Alpha) => GF4::One,
            (GF4::Alpha, GF4::AlphaPlusOne) => GF4::AlphaPlusOne,
            (GF4::AlphaPlusOne, GF4::Alpha) => GF4::Alpha,
            (GF4::AlphaPlusOne, GF4::AlphaPlusOne) => GF4::One,
        }
    }

    fn generate_zero() -> GF4 {
        GF4::Zero
    }

    fn is_zero(&self) -> bool {
        matches!(self, GF4::Zero)
    }

    fn generate_one() -> GF4 {
        GF4::One
    }

    fn is_one(&self) -> bool {
        matches!(self, GF4::One)
    }

    fn generate_random(source: &mut Context) -> GF4 {
        let mut options: Vec<GF4> = Vec::new();
        options.push(GF4::Zero);
        options.push(GF4::One);
        options.push(GF4::Alpha);
        options.push(GF4::AlphaPlusOne);
        pick_element(source, &options).unwrap()
    }

    fn add(&self, other: &GF4) -> GF4 {
        match (*self, *other) {
            (GF4::Zero, o) => o,
            (GF4::One, GF4::Zero) => GF4::One,
            (GF4::One, GF4::One) => GF4::Zero,
            (GF4::One, GF4::Alpha) => GF4::AlphaPlusOne,
            (GF4::One, GF4::AlphaPlusOne) => GF4::Alpha,
            (GF4::Alpha, GF4::Zero) => GF4::Alpha,
            (GF4::Alpha, GF4::One) => GF4::AlphaPlusOne,
            (GF4::Alpha, GF4::Alpha) => GF4::Zero,
            (GF4::Alpha, GF4::AlphaPlusOne) => GF4::One,
            (GF4::AlphaPlusOne, GF4::Zero) => GF4::AlphaPlusOne,
            (GF4::AlphaPlusOne, GF4::One) => GF4::Alpha,
            (GF4::AlphaPlusOne, GF4::Alpha) => GF4::One,
            (GF4::AlphaPlusOne, GF4::AlphaPlusOne) => GF4::Zero,
        }
    }

    fn sub(&self, other: &GF4) -> GF4 {
        self.add(other)
    }

    fn mul(&self, other: &GF4) -> GF4 {
        match (*self, *other) {
            (GF4::Zero, _) => GF4::Zero,
            (_, GF4::Zero) => GF4::Zero,
            (GF4::One, o) => o,
            (GF4::Alpha, GF4::One) => GF4::Alpha,
            (GF4::Alpha, GF4::Alpha) => GF4::AlphaPlusOne,
            (GF4::Alpha, GF4::AlphaPlusOne) => GF4::One,
            (GF4::AlphaPlusOne, GF4::One) => GF4::AlphaPlusOne,
            (GF4::AlphaPlusOne, GF4::Alpha) => GF4::One,
            (GF4::AlphaPlusOne, GF4::AlphaPlusOne) => GF4::Alpha,
        }
    }

    fn div(&self, other: &GF4) -> Option<GF4> {
        match (*self, *other) {
            (_, GF4::Zero) => None,
            (o, GF4::One) => Some(o),
            (GF4::Zero, _) => Some(GF4::Zero),
            (GF4::One, GF4::Alpha) => Some(GF4::AlphaPlusOne),
            (GF4::One, GF4::AlphaPlusOne) => Some(GF4::Alpha),
            (GF4::Alpha, GF4::Alpha) => Some(GF4::One),
            (GF4::Alpha, GF4::AlphaPlusOne) => Some(GF4::AlphaPlusOne),
            (GF4::AlphaPlusOne, GF4::Alpha) => Some(GF4::Alpha),
            (GF4::AlphaPlusOne, GF4::AlphaPlusOne) => Some(GF4::One),
        }
    }

    proof fn lemma_one_not_zero() {
    }

    proof fn lemma_add_comm(a: GF4, b: GF4) {
        lemma_gf4_cases(a);
        lemma_gf4_cases(b);
    }

    proof fn lemma_add_assoc(a: GF4, b: GF4, c: GF4) {
        lemma_gf4_cases(a);
        lemma_gf4_cases(b);
        lemma_gf4_cases(c);
    }

    proof fn lemma_add_zero(a: GF4) {
        lemma_gf4_cases(a);
    }

    proof fn lemma_sub_self(a: GF4) {
        lemma_gf4_cases(a);
    }

    proof fn lemma_sub_zero(a: GF4) {
        lemma_gf4_cases(a);
    }

    proof fn lemma_sub_add(a: GF4, b: GF4) {
        lemma_gf4_cases(a);
        lemma_gf4_cases(b);
    }

    proof fn lemma_add_cancel(a: GF4, b: GF4, c: GF4) {
        lemma_gf4_cases(a);
        lemma_gf4_cases(b);
        lemma_gf4_cases(c);
    }

    proof fn lemma_mul_comm(a: GF4, b: GF4) {
        lemma_gf4_cases(a);
        lemma_gf4_cases(b);
    }

    proof fn lemma_mul_assoc(a: GF4, b: GF4, c: GF4) {
        lemma_gf4_cases(a);
        lemma_gf4_cases(b);
        lemma_gf4_cases(c);
    }

    proof fn lemma_mul_zero(a: GF4) {
        lemma_gf4_cases(a);
    }

    proof fn lemma_mul_one(a: GF4) {
        lemma_gf4_cases(a);
    }

    proof fn lemma_mul_distrib(a: GF4, b: GF4, c: GF4) {
        lemma_gf4_cases(a);
        lemma_gf4_cases(b);
        lemma_gf4_cases(c);
    }

    proof fn lemma_mul_sub_distrib(a: GF4, b: GF4, c: GF4) {
        lemma_gf4_cases(a);
        lemma_gf4_cases(b);
        lemma_gf4_cases(c);
    }

    proof fn lemma_no_zero_divisors(a: GF4, b: GF4) {
        lemma_gf4_cases(a);
        lemma_gf4_cases(b);
    }

    proof fn lemma_div_mul(a: GF4, b: GF4) {
        lemma_gf4_cases(a);
        lemma_gf4_cases(b);
    }
}

} // verus!
