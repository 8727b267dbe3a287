use vstd::prelude::*;

use crate::galois_fields::GaloisField;
use rand::seq::SliceRandom;

verus! {

broadcast use vstd::seq_lib::group_to_multiset_ensures;

/// Declaration of rand's thread-local generator type, so that a handle on it
/// can sit inside [`Context`]. The value is opaque to verification.
#[verifier::external_type_specification]
#[verifier::external_body]
pub struct ExThreadRng(rand::rngs::ThreadRng);

/// An explicit source of randomness: a handle on rand's thread-local
/// generator, passed by the caller to every operation that draws values.
pub struct Context {
    rng: rand::rngs::ThreadRng,
}

/// Relies on rand's `SliceRandom::choose`: for a non-empty slice it returns
/// one of the slice's elements (chosen uniformly), for an empty slice `None`.
#[verifier::external_body]
pub(crate) fn pick_element<T: Copy>(source: &mut Context, items: &Vec<T>) -> (r: Option<T>)
    ensures
        r is Some <==> items@.len() > 0,
        r matches Some(x) ==> items@.contains(x),
{
    items.as_slice().choose(&mut source.rng).copied()
}

/// Relies on rand's `SliceRandom::shuffle`: it permutes the elements of the
/// slice in place (by swaps), so the multiset of elements is unchanged.
#[verifier::external_body]
fn shuffle_elements<T>(source: &mut Context, items: &mut Vec<T>)
    ensures
        final(items)@.len() == old(items)@.len(),
        final(items)@.to_multiset() == old(items)@.to_multiset(),
{
    items.as_mut_slice().shuffle(&mut source.rng);
}

impl Context {
    /// Relies on rand's `thread_rng`: returns a handle to the lazily seeded
    /// thread-local generator.
    #[verifier::external_body]
    pub fn new() -> Context {
        Context { rng: rand::thread_rng() }
    }

    /// A vector of `length` independently drawn random field elements.
    pub fn random_vector<T: GaloisField>(&mut self, length: usize) -> (v: Vec<T>)
        ensures
            v@.len() == length,
    {
        let mut v: Vec<T> = Vec::new();
        let mut i: usize = 0;
        while i < length
            invariant
                i <= length,
                v@.len() == i,
            decreases length - i,
        {
            v.push(T::generate_random(self));
            i += 1;
        }
        v
    }

    /// A vector of `length` elements of which at most `weight` are non-zero:
    /// `weight` random elements and `length - weight` zeros, in a random
    /// order.
    pub fn random_error_vector<T: GaloisField>(&mut self, length: usize, weight: usize) -> (v: Vec<
        T,
    >)
        requires
            weight <= length,
        ensures
            v@.len() == length,
            v@.to_multiset().count(T::spec_zero()) >= length - weight,
    {
        let mut v: Vec<T> = Vec::new();
        let mut i: usize = 0;
        while i < weight
            invariant
                i <= weight,
                v@.len() == i,
            decreases weight - i,
        {
            v.push(T::generate_random(self));
            i += 1;
        }
        while i < length
            invariant
                weight <= i <= length,
                v@.len() == i,
                v@.to_multiset().count(T::spec_zero()) >= i - weight,
            decreases length - i,
        {
            v.push(T::generate_zero());
            i += 1;
        }
        shuffle_elements(self, &mut v);
        v
    }
}

} // verus!
