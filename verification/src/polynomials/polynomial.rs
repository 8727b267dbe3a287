use vstd::prelude::*;

use crate::galois_fields::GaloisField;
use crate::polynomials::polynomial_operations::chain_hits_one;
use crate::polynomials::polynomial_operations::xgcd;

verus! {

// ------------------------------------------------------------------------
// The mathematical model: coefficient sequences over the field.
// ------------------------------------------------------------------------

/// Coefficient `i` of the sequence, reading absent positions as zero.
pub open spec fn coeff_at<T: GaloisField>(s: Seq<T>, i: int) -> T {
    if 0 <= i < s.len() {
        s[i]
    } else {
        T::spec_zero()
    }
}

/// Canonical form: non-empty, and free of trailing zero coefficients except
/// for the single-coefficient zero polynomial.
pub open spec fn is_canonical<T: GaloisField>(s: Seq<T>) -> bool {
    s.len() >= 1 && (s.len() == 1 || s.last() != T::spec_zero())
}

/// The canonical zero polynomial.
pub open spec fn zero_poly<T: GaloisField>() -> Seq<T> {
    seq![T::spec_zero()]
}

/// The canonical one polynomial.
pub open spec fn one_poly<T: GaloisField>() -> Seq<T> {
    seq![T::spec_one()]
}

/// `s` with its trailing zero coefficients removed.
pub open spec fn strip_seq<T: GaloisField>(s: Seq<T>) -> Seq<T>
    decreases s.len(),
{
    if s.len() == 0 {
        s
    } else if s.last() == T::spec_zero() {
        strip_seq(s.drop_last())
    } else {
        s
    }
}

/// The canonical form of an arbitrary coefficient sequence: trailing zeros
/// stripped, an all-zero sequence collapsed to the zero polynomial.
pub open spec fn canon_seq<T: GaloisField>(s: Seq<T>) -> Seq<T> {
    if strip_seq(s).len() == 0 {
        zero_poly::<T>()
    } else {
        strip_seq(s)
    }
}

/// Stripping keeps a prefix and removes only zero coefficients.
pub proof fn lemma_strip_seq<T: GaloisField>(s: Seq<T>)
    ensures
        strip_seq(s).len() <= s.len(),
        strip_seq(s) == s.take(strip_seq(s).len() as int),
        forall|i: int| strip_seq(s).len() <= i < s.len() ==> s[i] == T::spec_zero(),
        strip_seq(s).len() > 0 ==> strip_seq(s).last() != T::spec_zero(),
    decreases s.len(),
{
    if s.len() == 0 {
        assert(strip_seq(s) =~= s.take(0));
    } else if s.last() == T::spec_zero() {
        lemma_strip_seq(s.drop_last());
        assert(s.drop_last() =~= s.take(s.len() - 1));
        assert(s.drop_last().take(strip_seq(s).len() as int) =~= s.take(
            strip_seq(s).len() as int,
        ));
        assert forall|i: int| strip_seq(s).len() <= i < s.len() implies s[i] == T::spec_zero() by {
            if i < s.len() - 1 {
                assert(s.drop_last()[i] == s[i]);
            }
        }
    } else {
        assert(strip_seq(s) =~= s.take(s.len() as int));
    }
}

/// The canonical form is canonical, no longer than the input, and has the
/// same coefficients in every position.
pub proof fn lemma_canon_seq<T: GaloisField>(s: Seq<T>)
    ensures
        is_canonical(canon_seq(s)),
        s.len() >= 1 ==> canon_seq(s).len() <= s.len(),
        forall|i: int|
            #![trigger coeff_at(canon_seq(s), i)]
            coeff_at(canon_seq(s), i) == coeff_at(s, i),
{
    lemma_strip_seq(s);
    assert forall|i: int| coeff_at(canon_seq(s), i) == coeff_at(s, i) by {
        if strip_seq(s).len() == 0 {
            assert(canon_seq(s) == zero_poly::<T>());
            if 0 <= i < s.len() {
                assert(s[i] == T::spec_zero());
            }
        } else {
            if 0 <= i < strip_seq(s).len() {
                assert(strip_seq(s)[i] == s.take(strip_seq(s).len() as int)[i]);
            } else if 0 <= i < s.len() {
                assert(s[i] == T::spec_zero());
            }
        }
    }
}

/// Canonicalizing a canonical sequence changes nothing.
pub proof fn lemma_canon_of_canonical<T: GaloisField>(s: Seq<T>)
    requires
        is_canonical(s),
    ensures
        canon_seq(s) == s,
{
    if s.len() == 1 && s.last() == T::spec_zero() {
        assert(strip_seq(s) == strip_seq(s.drop_last()));
        assert(s.drop_last().len() == 0);
        assert(canon_seq(s) =~= s);
    }
}

/// An all-zero sequence strips to the empty sequence.
pub proof fn lemma_strip_all_zero<T: GaloisField>(s: Seq<T>)
    requires
        forall|i: int| 0 <= i < s.len() ==> s[i] == T::spec_zero(),
    ensures
        strip_seq(s).len() == 0,
    decreases s.len(),
{
    if s.len() > 0 {
        lemma_strip_all_zero(s.drop_last());
    }
}

/// If every coefficient from `bound` upward is zero, the canonical form is
/// no longer than `bound` (and at least the zero polynomial's one).
pub proof fn lemma_canon_len_bound<T: GaloisField>(s: Seq<T>, bound: int)
    requires
        0 <= bound <= s.len(),
        forall|i: int| bound <= i < s.len() ==> s[i] == T::spec_zero(),
    ensures
        canon_seq(s).len() <= if bound >= 1 {
            bound
        } else {
            1
        },
    decreases s.len(),
{
    lemma_strip_seq(s);
    if s.len() > bound {
        assert(s.last() == T::spec_zero());
        assert forall|i: int| bound <= i < s.drop_last().len() implies s.drop_last()[i]
            == T::spec_zero() by {
            assert(s.drop_last()[i] == s[i]);
        }
        lemma_canon_len_bound(s.drop_last(), bound);
        assert(strip_seq(s) == strip_seq(s.drop_last()));
    }
}

/// Two canonical sequences with the same coefficients everywhere are equal.
pub proof fn lemma_canonical_unique<T: GaloisField>(a: Seq<T>, b: Seq<T>)
    requires
        is_canonical(a),
        is_canonical(b),
        forall|i: int| #![trigger coeff_at(a, i), coeff_at(b, i)] coeff_at(a, i) == coeff_at(b, i),
    ensures
        a == b,
{
    if a.len() < b.len() {
        assert(coeff_at(a, b.len() - 1) == coeff_at(b, b.len() - 1));
        if b.len() > 1 {
            assert(false);
        } else {
            assert(false);
        }
    }
    if b.len() < a.len() {
        assert(coeff_at(a, a.len() - 1) == coeff_at(b, a.len() - 1));
        if a.len() > 1 {
            assert(false);
        } else {
            assert(false);
        }
    }
    assert forall|i: int| 0 <= i < a.len() implies a[i] == b[i] by {
        assert(coeff_at(a, i) == coeff_at(b, i));
    }
    assert(a =~= b);
}

// ------------------------------------------------------------------------
// Sums and differences on the model.
// ------------------------------------------------------------------------

/// The coefficient-wise sum, before canonicalization.
pub open spec fn add_seq<T: GaloisField>(a: Seq<T>, b: Seq<T>) -> Seq<T> {
    Seq::new(
        if a.len() >= b.len() {
            a.len()
        } else {
            b.len()
        },
        |i: int| coeff_at(a, i).spec_add(coeff_at(b, i)),
    )
}

/// The canonical sum of two coefficient sequences.
pub open spec fn poly_add<T: GaloisField>(a: Seq<T>, b: Seq<T>) -> Seq<T> {
    canon_seq(add_seq(a, b))
}

/// The coefficient-wise difference, before canonicalization.
pub open spec fn sub_seq<T: GaloisField>(a: Seq<T>, b: Seq<T>) -> Seq<T> {
    Seq::new(
        if a.len() >= b.len() {
            a.len()
        } else {
            b.len()
        },
        |i: int| coeff_at(a, i).spec_sub(coeff_at(b, i)),
    )
}

/// The canonical difference of two coefficient sequences.
pub open spec fn poly_sub<T: GaloisField>(a: Seq<T>, b: Seq<T>) -> Seq<T> {
    canon_seq(sub_seq(a, b))
}

/// Zero is also a left identity of addition.
pub proof fn lemma_add_zero_left<T: GaloisField>(x: T)
    ensures
        T::spec_zero().spec_add(x) == x,
{
    T::lemma_add_comm(T::spec_zero(), x);
    T::lemma_add_zero(x);
}

/// Zero also absorbs multiplication on the left.
pub proof fn lemma_mul_zero_left<T: GaloisField>(x: T)
    ensures
        T::spec_zero().spec_mul(x) == T::spec_zero(),
{
    T::lemma_mul_comm(T::spec_zero(), x);
    T::lemma_mul_zero(x);
}

/// The order of two added terms on a common base can be exchanged.
pub proof fn lemma_add_swap<T: GaloisField>(x: T, y: T, z: T)
    ensures
        x.spec_add(y).spec_add(z) == x.spec_add(z).spec_add(y),
{
    T::lemma_add_assoc(x, y, z);
    T::lemma_add_comm(y, z);
    T::lemma_add_assoc(x, z, y);
}

/// Two sums of pairs can be regrouped pairwise.
pub proof fn lemma_add_reorder<T: GaloisField>(x: T, y: T, u: T, v: T)
    ensures
        x.spec_add(y).spec_add(u.spec_add(v)) == x.spec_add(u).spec_add(y.spec_add(v)),
{
    T::lemma_add_assoc(x.spec_add(y), u, v);
    lemma_add_swap(x, y, u);
    T::lemma_add_assoc(x.spec_add(u), y, v);
}

/// A summand can be recovered from a sum: `u == v + w` gives `v == u − w`.
pub proof fn lemma_add_to_sub<T: GaloisField>(u: T, v: T, w: T)
    requires
        u == v.spec_add(w),
    ensures
        v == u.spec_sub(w),
{
    T::lemma_sub_add(u, w);
    T::lemma_add_cancel(u.spec_sub(w), v, w);
}

/// Differences regroup pairwise: `(x−y) + (u−v) == (x+u) − (y+v)`.
pub proof fn lemma_sub_reorder<T: GaloisField>(x: T, y: T, u: T, v: T)
    ensures
        x.spec_sub(y).spec_add(u.spec_sub(v)) == x.spec_add(u).spec_sub(y.spec_add(v)),
{
    lemma_add_reorder(x.spec_sub(y), u.spec_sub(v), y, v);
    T::lemma_sub_add(x, y);
    T::lemma_sub_add(u, v);
    lemma_add_to_sub(x.spec_add(u), x.spec_sub(y).spec_add(u.spec_sub(v)), y.spec_add(v));
}

/// Subtracting `b` is adding the additive inverse `0 − b`.
pub proof fn lemma_sub_as_add_neg<T: GaloisField>(a: T, b: T)
    ensures
        a.spec_sub(b) == a.spec_add(T::spec_zero().spec_sub(b)),
{
    let n = T::spec_zero().spec_sub(b);
    T::lemma_add_assoc(a, n, b);
    T::lemma_sub_add(T::spec_zero(), b);
    T::lemma_add_zero(a);
    T::lemma_sub_add(a, b);
    T::lemma_add_cancel(a.spec_sub(b), a.spec_add(n), b);
}

/// The coefficients of a pointwise sum are the sums of the coefficients.
pub proof fn lemma_add_seq_coeff<T: GaloisField>(a: Seq<T>, b: Seq<T>)
    ensures
        forall|i: int|
            #![trigger coeff_at(add_seq(a, b), i)]
            coeff_at(add_seq(a, b), i) == coeff_at(a, i).spec_add(coeff_at(b, i)),
{
    assert forall|i: int|
        coeff_at(add_seq(a, b), i) == coeff_at(a, i).spec_add(coeff_at(b, i)) by {
        if !(0 <= i < add_seq(a, b).len()) {
            T::lemma_add_zero(T::spec_zero());
        }
    }
}

/// The coefficients of a difference are the differences of the coefficients.
pub proof fn lemma_sub_seq_coeff<T: GaloisField>(a: Seq<T>, b: Seq<T>)
    ensures
        forall|i: int|
            #![trigger coeff_at(sub_seq(a, b), i)]
            coeff_at(sub_seq(a, b), i) == coeff_at(a, i).spec_sub(coeff_at(b, i)),
{
    assert forall|i: int|
        coeff_at(sub_seq(a, b), i) == coeff_at(a, i).spec_sub(coeff_at(b, i)) by {
        if !(0 <= i < sub_seq(a, b).len()) {
            T::lemma_sub_zero(T::spec_zero());
        }
    }
}

// ------------------------------------------------------------------------
// Products on the model: convolution of coefficient sequences.
// ------------------------------------------------------------------------

/// Partial convolution: the sum of `a[j]·b[k−j]` over `j` in `[0, n)`,
/// reading absent coefficients as zero.
pub open spec fn conv_prefix<T: GaloisField>(a: Seq<T>, b: Seq<T>, k: int, n: int) -> T
    decreases n,
{
    if n <= 0 {
        T::spec_zero()
    } else {
        conv_prefix(a, b, k, n - 1).spec_add(coeff_at(a, n - 1).spec_mul(coeff_at(b, k - (n - 1))))
    }
}

/// Coefficient `k` of the product of `a` and `b`: the full convolution.
pub open spec fn conv_at<T: GaloisField>(a: Seq<T>, b: Seq<T>, k: int) -> T {
    conv_prefix(a, b, k, k + 1)
}

/// The length of the product sequence before canonicalization.
pub open spec fn mul_len<T: GaloisField>(a: Seq<T>, b: Seq<T>) -> nat {
    if a.len() + b.len() >= 1 {
        (a.len() + b.len() - 1) as nat
    } else {
        0
    }
}

/// The coefficient-wise product, before canonicalization.
pub open spec fn mul_seq<T: GaloisField>(a: Seq<T>, b: Seq<T>) -> Seq<T> {
    Seq::new(mul_len(a, b), |k: int| conv_at(a, b, k))
}

/// The canonical product of two coefficient sequences.
pub open spec fn poly_mul<T: GaloisField>(a: Seq<T>, b: Seq<T>) -> Seq<T> {
    canon_seq(mul_seq(a, b))
}

/// Dropping zero terms from the top of a partial convolution changes nothing.
pub proof fn lemma_conv_prefix_high_zero<T: GaloisField>(
    a: Seq<T>,
    b: Seq<T>,
    k: int,
    n: int,
    m: int,
)
    requires
        m <= n,
        forall|j: int| m <= j < n ==> coeff_at(a, j).spec_mul(coeff_at(b, k - j)) == T::spec_zero(),
    ensures
        conv_prefix(a, b, k, n) == conv_prefix(a, b, k, m),
    decreases n - m,
{
    if m < n {
        lemma_conv_prefix_high_zero(a, b, k, n - 1, m);
        if n > 0 {
            T::lemma_add_zero(conv_prefix(a, b, k, n - 1));
        }
    }
}

/// Convolution coefficients beyond the product length, or at negative
/// indices, are zero.
pub proof fn lemma_conv_beyond<T: GaloisField>(a: Seq<T>, b: Seq<T>, k: int)
    requires
        k >= a.len() + b.len() - 1 || k < 0,
    ensures
        conv_at(a, b, k) == T::spec_zero(),
{
    if k >= 0 {
        assert forall|j: int| 0 <= j < k + 1 implies coeff_at(a, j).spec_mul(coeff_at(b, k - j))
            == T::spec_zero() by {
            if j >= a.len() {
                lemma_mul_zero_left(coeff_at(b, k - j));
            } else {
                T::lemma_mul_zero(coeff_at(a, j));
            }
        }
        lemma_conv_prefix_high_zero(a, b, k, k + 1, 0);
    }
}

/// Convolution depends only on the coefficients of its operands.
pub proof fn lemma_conv_prefix_congruence<T: GaloisField>(
    a1: Seq<T>,
    a2: Seq<T>,
    b1: Seq<T>,
    b2: Seq<T>,
    k: int,
    n: int,
)
    requires
        forall|i: int| #![trigger coeff_at(a1, i)] coeff_at(a1, i) == coeff_at(a2, i),
        forall|i: int| #![trigger coeff_at(b1, i)] coeff_at(b1, i) == coeff_at(b2, i),
    ensures
        conv_prefix(a1, b1, k, n) == conv_prefix(a2, b2, k, n),
    decreases n,
{
    if n > 0 {
        lemma_conv_prefix_congruence(a1, a2, b1, b2, k, n - 1);
        assert(coeff_at(a1, n - 1) == coeff_at(a2, n - 1));
        assert(coeff_at(b1, k - (n - 1)) == coeff_at(b2, k - (n - 1)));
    }
}

/// The top coefficient of a product is the product of the two leading
/// coefficients.
pub proof fn lemma_conv_top<T: GaloisField>(a: Seq<T>, b: Seq<T>)
    requires
        a.len() >= 1,
        b.len() >= 1,
    ensures
        conv_at(a, b, a.len() + b.len() - 2) == a.last().spec_mul(b.last()),
{
    let k = a.len() + b.len() - 2;
    let la = a.len() as int;
    assert forall|j: int| la <= j < k + 1 implies coeff_at(a, j).spec_mul(coeff_at(b, k - j))
        == T::spec_zero() by {
        lemma_mul_zero_left(coeff_at(b, k - j));
    }
    lemma_conv_prefix_high_zero(a, b, k, k + 1, la);
    assert forall|j: int| 0 <= j < la - 1 implies coeff_at(a, j).spec_mul(coeff_at(b, k - j))
        == T::spec_zero() by {
        T::lemma_mul_zero(coeff_at(a, j));
    }
    lemma_conv_prefix_high_zero(a, b, k, la - 1, 0);
    lemma_add_zero_left(a.last().spec_mul(b.last()));
    assert(coeff_at(a, la - 1) == a.last());
    assert(coeff_at(b, k - (la - 1)) == b.last());
}

/// An all-zero left operand annihilates the convolution.
pub proof fn lemma_conv_left_zero<T: GaloisField>(a: Seq<T>, b: Seq<T>, k: int)
    requires
        forall|i: int| #![trigger coeff_at(a, i)] coeff_at(a, i) == T::spec_zero(),
    ensures
        conv_at(a, b, k) == T::spec_zero(),
{
    if k >= 0 {
        assert forall|j: int| 0 <= j < k + 1 implies coeff_at(a, j).spec_mul(coeff_at(b, k - j))
            == T::spec_zero() by {
            lemma_mul_zero_left(coeff_at(b, k - j));
        }
        lemma_conv_prefix_high_zero(a, b, k, k + 1, 0);
    }
}

/// An all-zero right operand annihilates the convolution.
pub proof fn lemma_conv_right_zero<T: GaloisField>(a: Seq<T>, b: Seq<T>, k: int)
    requires
        forall|i: int| #![trigger coeff_at(b, i)] coeff_at(b, i) == T::spec_zero(),
    ensures
        conv_at(a, b, k) == T::spec_zero(),
{
    if k >= 0 {
        assert forall|j: int| 0 <= j < k + 1 implies coeff_at(a, j).spec_mul(coeff_at(b, k - j))
            == T::spec_zero() by {
            T::lemma_mul_zero(coeff_at(a, j));
        }
        lemma_conv_prefix_high_zero(a, b, k, k + 1, 0);
    }
}

/// Raising the zero coefficient at `off` to `d` adds `d·b[k−off]` to every
/// convolution prefix reaching past `off`.
pub proof fn lemma_conv_prefix_update<T: GaloisField>(
    a: Seq<T>,
    b: Seq<T>,
    off: int,
    d: T,
    k: int,
    n: int,
)
    requires
        0 <= off < a.len(),
        a[off] == T::spec_zero(),
    ensures
        conv_prefix(a.update(off, d), b, k, n) == if n > off {
            conv_prefix(a, b, k, n).spec_add(d.spec_mul(coeff_at(b, k - off)))
        } else {
            conv_prefix(a, b, k, n)
        },
    decreases n,
{
    let u = a.update(off, d);
    if n <= off {
        if n > 0 {
            lemma_conv_prefix_update(a, b, off, d, k, n - 1);
            assert(coeff_at(u, n - 1) == coeff_at(a, n - 1));
        }
    } else if n == off + 1 {
        lemma_conv_prefix_update(a, b, off, d, k, n - 1);
        lemma_mul_zero_left(coeff_at(b, k - off));
        T::lemma_add_zero(conv_prefix(a, b, k, off));
        assert(coeff_at(u, off) == d);
        assert(coeff_at(a, off) == T::spec_zero());
    } else {
        lemma_conv_prefix_update(a, b, off, d, k, n - 1);
        assert(coeff_at(u, n - 1) == coeff_at(a, n - 1));
        lemma_add_swap(
            conv_prefix(a, b, k, n - 1),
            d.spec_mul(coeff_at(b, k - off)),
            coeff_at(a, n - 1).spec_mul(coeff_at(b, k - (n - 1))),
        );
    }
}

/// A canonical polynomial other than the zero polynomial has a non-zero
/// leading coefficient.
pub proof fn lemma_nonzero_leading<T: GaloisField>(a: Seq<T>)
    requires
        is_canonical(a),
        a != zero_poly::<T>(),
    ensures
        a.last() != T::spec_zero(),
{
    if a.len() == 1 && a.last() == T::spec_zero() {
        assert(a =~= zero_poly::<T>());
    }
}

/// Degree law: the product of non-zero canonical polynomials has degree the
/// sum of the degrees (the field has no zero divisors); a product with the
/// zero polynomial is the zero polynomial.
pub proof fn lemma_poly_mul_degree<T: GaloisField>(a: Seq<T>, b: Seq<T>)
    requires
        is_canonical(a),
        is_canonical(b),
    ensures
        a != zero_poly::<T>() && b != zero_poly::<T>() ==> poly_mul(a, b).len() - 1 == (a.len() - 1)
            + (b.len() - 1),
        a == zero_poly::<T>() || b == zero_poly::<T>() ==> poly_mul(a, b) == zero_poly::<T>(),
{
    if a == zero_poly::<T>() || b == zero_poly::<T>() {
        assert forall|kk: int| 0 <= kk < mul_seq(a, b).len() implies mul_seq(a, b)[kk]
            == T::spec_zero() by {
            if a == zero_poly::<T>() {
                assert(forall|i: int|
                    #![trigger coeff_at(a, i)]
                    coeff_at(a, i) == T::spec_zero());
                lemma_conv_left_zero(a, b, kk);
            } else {
                assert(forall|i: int|
                    #![trigger coeff_at(b, i)]
                    coeff_at(b, i) == T::spec_zero());
                lemma_conv_right_zero(a, b, kk);
            }
        }
        lemma_strip_all_zero(mul_seq(a, b));
    } else {
        lemma_nonzero_leading(a);
        lemma_nonzero_leading(b);
        lemma_conv_top(a, b);
        T::lemma_no_zero_divisors(a.last(), b.last());
        assert(mul_seq(a, b).last() == conv_at(a, b, a.len() + b.len() - 2));
        lemma_canon_of_canonical(mul_seq(a, b));
    }
}

// ------------------------------------------------------------------------
// The polynomial value type.
// ------------------------------------------------------------------------

/// A polynomial over the field `T`: an ordered coefficient sequence, index 0
/// the constant term, kept in canonical form by every operation.
#[derive(Debug, PartialEq, Eq)]
pub struct Polynomial<T: GaloisField> {
    coefficients: Vec<T>,
}

impl<T: GaloisField> View for Polynomial<T> {
    type V = Seq<T>;

    closed spec fn view(&self) -> Seq<T> {
        self.coefficients@
    }
}

/// Strips trailing zero coefficients from `v`, collapsing an all-zero or
/// empty vector to the single-zero-coefficient form.
pub fn remove_trailing_zeros<T: GaloisField>(v: &mut Vec<T>)
    ensures
        final(v)@ == canon_seq(old(v)@),
        is_canonical(final(v)@),
{
    while v.len() > 0 && v[v.len() - 1].is_zero()
        invariant
            strip_seq(v@) == strip_seq(old(v)@),
        decreases v@.len(),
    {
        proof {
            assert(v@.drop_last() =~= v@.take(v@.len() - 1));
        }
        v.pop();
    }
    proof {
        lemma_canon_seq(old(v)@);
    }
    if v.len() == 0 {
        v.push(T::generate_zero());
        proof {
            assert(v@ =~= zero_poly::<T>());
        }
    } else {
        proof {
            assert(v@.last() != T::spec_zero());
            assert(strip_seq(v@) == v@);
        }
    }
}

impl<T: GaloisField> Clone for Polynomial<T> {
    /// An independently owned polynomial with the same coefficients.
    fn clone(&self) -> (r: Self)
        ensures
            r@ == self@,
    {
        Polynomial { coefficients: copy_coefficients(&self.coefficients) }
    }
}

/// An element-by-element copy of a coefficient vector.
fn copy_coefficients<T: GaloisField>(v: &Vec<T>) -> (r: Vec<T>)
    ensures
        r@ == v@,
{
    let mut r: Vec<T> = Vec::new();
    let mut i: usize = 0;
    while i < v.len()
        invariant
            i <= v@.len(),
            r@ =~= v@.take(i as int),
        decreases v@.len() - i,
    {
        r.push(v[i]);
        i += 1;
    }
    proof {
        assert(v@.take(v@.len() as int) =~= v@);
    }
    r
}

impl<T: GaloisField> Polynomial<T> {
    /// Well-formedness: the coefficient sequence is in canonical form.
    pub open spec fn wf(&self) -> bool {
        is_canonical(self@)
    }

    /// The canonical zero polynomial.
    pub fn new() -> (r: Polynomial<T>)
        ensures
            r@ == zero_poly::<T>(),
            r.wf(),
    {
        let mut c: Vec<T> = Vec::new();
        c.push(T::generate_zero());
        proof {
            assert(c@ =~= zero_poly::<T>());
        }
        Polynomial { coefficients: c }
    }

    /// The polynomial with the given coefficients, canonicalized: trailing
    /// zeros stripped, an empty or all-zero sequence collapsed to the zero
    /// polynomial.
    pub fn new_from_coefficients(coefficients: Vec<T>) -> (r: Polynomial<T>)
        ensures
            r@ == canon_seq(coefficients@),
            r.wf(),
    {
        let mut c = coefficients;
        remove_trailing_zeros(&mut c);
        Polynomial { coefficients: c }
    }

    /// True iff this is the zero polynomial.
    pub fn is_zero(&self) -> (b: bool)
        requires
            self.wf(),
        ensures
            b == (self@ == zero_poly::<T>()),
    {
        let b = self.coefficients.len() == 1 && self.coefficients[0].is_zero();
        proof {
            if b {
                assert(self@ =~= zero_poly::<T>());
            } else if self@ == zero_poly::<T>() {
                assert(self@[0] == T::spec_zero());
            }
        }
        b
    }

    /// True iff this is the one polynomial.
    pub fn is_one(&self) -> (b: bool)
        requires
            self.wf(),
        ensures
            b == (self@ == one_poly::<T>()),
    {
        let b = self.coefficients.len() == 1 && self.coefficients[0].is_one();
        proof {
            if b {
                assert(self@ =~= one_poly::<T>());
            } else if self@ == one_poly::<T>() {
                assert(self@[0] == T::spec_one());
            }
        }
        b
    }

    /// The degree: one less than the length of the canonical coefficient
    /// sequence, so the zero polynomial has degree 0 by convention.
    pub fn degree(&self) -> (d: usize)
        requires
            self.wf(),
        ensures
            d == self@.len() - 1,
    {
        self.coefficients.len() - 1
    }

    /// The coefficient at index `i`, or `None` past the end of the sequence.
    pub fn get_coefficient(&self, i: usize) -> (r: Option<T>)
        ensures
            i < self@.len() ==> r == Some(self@[i as int]),
            i >= self@.len() ==> r is None,
    {
        if i < self.coefficients.len() {
            Some(self.coefficients[i])
        } else {
            None
        }
    }

    /// The coefficient sequence as an owned vector.
    pub fn coefficients(&self) -> (r: Vec<T>)
        ensures
            r@ == self@,
    {
        copy_coefficients(&self.coefficients)
    }

    /// The sum of `self` and `other`: coefficients combined index by index,
    /// absent positions reading as zero, and the result canonicalized.
    pub fn add(&self, other: &Polynomial<T>) -> (r: Polynomial<T>)
        requires
            self.wf(),
            other.wf(),
        ensures
            r@ == poly_add(self@, other@),
            r.wf(),
            forall|i: int|
                #![trigger coeff_at(r@, i)]
                coeff_at(r@, i) == coeff_at(self@, i).spec_add(coeff_at(other@, i)),
            r@.len() <= if self@.len() >= other@.len() {
                self@.len()
            } else {
                other@.len()
            },
    {
        let ns = self.coefficients.len();
        let no = other.coefficients.len();
        let n = if ns >= no {
            ns
        } else {
            no
        };
        let mut c: Vec<T> = Vec::new();
        let mut i: usize = 0;
        while i < n
            invariant
                i <= n,
                ns == self@.len(),
                no == other@.len(),
                n == if ns >= no {
                    ns as int
                } else {
                    no as int
                },
                c@.len() == i,
                forall|j: int|
                    0 <= j < i ==> c@[j] == coeff_at(self@, j).spec_add(coeff_at(other@, j)),
            decreases n - i,
        {
            let x = if i < ns {
                self.coefficients[i]
            } else {
                T::generate_zero()
            };
            let y = if i < no {
                other.coefficients[i]
            } else {
                T::generate_zero()
            };
            c.push(x.add(&y));
            i += 1;
        }
        proof {
            assert(c@ =~= add_seq(self@, other@));
            lemma_canon_seq(add_seq(self@, other@));
        }
        let r = Polynomial::new_from_coefficients(c);
        proof {
            assert forall|i: int|
                coeff_at(r@, i) == coeff_at(self@, i).spec_add(coeff_at(other@, i)) by {
                lemma_canon_seq(add_seq(self@, other@));
                if !(0 <= i < add_seq(self@, other@).len()) {
                    T::lemma_add_zero(T::spec_zero());
                }
            }
        }
        r
    }

    /// The difference `self - other`: coefficients combined index by index in
    /// that operand order, absent positions reading as zero, and the result
    /// canonicalized.
    pub fn sub(&self, other: &Polynomial<T>) -> (r: Polynomial<T>)
        requires
            self.wf(),
            other.wf(),
        ensures
            r@ == poly_sub(self@, other@),
            r.wf(),
            forall|i: int|
                #![trigger coeff_at(r@, i)]
                coeff_at(r@, i) == coeff_at(self@, i).spec_sub(coeff_at(other@, i)),
            r@.len() <= if self@.len() >= other@.len() {
                self@.len()
            } else {
                other@.len()
            },
    {
        let ns = self.coefficients.len();
        let no = other.coefficients.len();
        let n = if ns >= no {
            ns
        } else {
            no
        };
        let mut c: Vec<T> = Vec::new();
        let mut i: usize = 0;
        while i < n
            invariant
                i <= n,
                ns == self@.len(),
                no == other@.len(),
                n == if ns >= no {
                    ns as int
                } else {
                    no as int
                },
                c@.len() == i,
                forall|j: int|
                    0 <= j < i ==> c@[j] == coeff_at(self@, j).spec_sub(coeff_at(other@, j)),
            decreases n - i,
        {
            let x = if i < ns {
                self.coefficients[i]
            } else {
                T::generate_zero()
            };
            let y = if i < no {
                other.coefficients[i]
            } else {
                T::generate_zero()
            };
            c.push(x.sub(&y));
            i += 1;
        }
        proof {
            assert(c@ =~= sub_seq(self@, other@));
            lemma_canon_seq(sub_seq(self@, other@));
        }
        let r = Polynomial::new_from_coefficients(c);
        proof {
            assert forall|i: int|
                coeff_at(r@, i) == coeff_at(self@, i).spec_sub(coeff_at(other@, i)) by {
                lemma_canon_seq(sub_seq(self@, other@));
                if !(0 <= i < sub_seq(self@, other@).len()) {
                    T::lemma_sub_zero(T::spec_zero());
                }
            }
        }
        r
    }
}

// ------------------------------------------------------------------------
// Euclidean division.
// ------------------------------------------------------------------------

/// `num == q·d + rem`, stated coefficient by coefficient.
pub open spec fn divides_with_remainder<T: GaloisField>(
    num: Seq<T>,
    d: Seq<T>,
    q: Seq<T>,
    rem: Seq<T>,
) -> bool {
    forall|k: int|
        #![trigger conv_at(q, d, k)]
        coeff_at(num, k) == conv_at(q, d, k).spec_add(coeff_at(rem, k))
}

impl<T: GaloisField> Polynomial<T> {
    /// Euclidean division of `self` by `other`: `None` exactly on the zero
    /// divisor; otherwise a quotient and remainder with
    /// `self == quotient·other + remainder` and the remainder either zero or
    /// of degree smaller than the divisor's.
    #[verifier::loop_isolation(false)]
    pub fn div_mod(&self, other: &Polynomial<T>) -> (r: Option<(Polynomial<T>, Polynomial<T>)>)
        requires
            self.wf(),
            other.wf(),
        ensures
            (r is Some) <==> other@ != zero_poly::<T>(),
            r matches Some((q, rem)) ==> {
                &&& q.wf()
                &&& rem.wf()
                &&& divides_with_remainder(self@, other@, q@, rem@)
                &&& (rem@ == zero_poly::<T>() || rem@.len() < other@.len())
                &&& q@.len() <= if self@.len() >= other@.len() {
                    self@.len() - other@.len() + 1
                } else {
                    1int
                }
                &&& (self@.len() < other@.len() ==> q@ == zero_poly::<T>() && rem@ == self@)
            },
    {
        if self.coefficients.len() < other.coefficients.len() {
            let q = Polynomial::new();
            let rem = self.clone();
            proof {
                assert forall|k: int|
                    coeff_at(self@, k) == conv_at(q@, other@, k).spec_add(coeff_at(rem@, k)) by {
                    assert(forall|i: int|
                        #![trigger coeff_at(q@, i)]
                        coeff_at(q@, i) == T::spec_zero());
                    lemma_conv_left_zero(q@, other@, k);
                    lemma_add_zero_left(coeff_at(self@, k));
                }
            }
            Some((q, rem))
        } else if other.is_zero() {
            None
        } else {
            let n = self.coefficients.len();
            let o_len = other.coefficients.len();
            let mut current = copy_coefficients(&self.coefficients);
            let mut result: Vec<T> = Vec::new();
            let mut j: usize = 0;
            while j < n
                invariant
                    j <= n,
                    result@.len() == j,
                    forall|t: int| 0 <= t < j ==> result@[t] == T::spec_zero(),
                decreases n - j,
            {
                result.push(T::generate_zero());
                j += 1;
            }
            proof {
                assert forall|k: int| #![trigger conv_at(result@, other@, k)]
                    coeff_at(self@, k) == conv_at(result@, other@, k).spec_add(
                        coeff_at(current@, k),
                    ) by {
                    assert(forall|i: int|
                        #![trigger coeff_at(result@, i)]
                        coeff_at(result@, i) == T::spec_zero());
                    lemma_conv_left_zero(result@, other@, k);
                    lemma_add_zero_left(coeff_at(self@, k));
                }
                lemma_nonzero_leading(other@);
            }
            while current.len() >= o_len && !(current.len() == 1 && current[0].is_zero())
                invariant
                    is_canonical(current@),
                    current@.len() <= n,
                    result@.len() == n,
                    current@ != zero_poly::<T>() ==> forall|t: int|
                        0 <= t <= current@.len() - o_len ==> result@[t] == T::spec_zero(),
                    forall|t: int| n - o_len < t < n ==> result@[t] == T::spec_zero(),
                    forall|k: int|
                        #![trigger conv_at(result@, other@, k)]
                        coeff_at(self@, k) == conv_at(result@, other@, k).spec_add(
                            coeff_at(current@, k),
                        ),
                decreases (if current@ == zero_poly::<T>() {
                    0int
                } else {
                    current@.len() as int
                }),
            {
                proof {
                    if current@ == zero_poly::<T>() {
                        assert(current@[0] == T::spec_zero());
                        assert(false);
                    }
                }
                let cur_len = current.len();
                let lead = current[cur_len - 1];
                let o_lead = other.coefficients[o_len - 1];
                let d = lead.div(&o_lead).unwrap();
                let offset = cur_len - o_len;
                let ghost result_before = result@;
                let ghost current_before = current@;
                result[offset] = d;
                let mut i: usize = 0;
                while i < o_len
                    invariant
                        i <= o_len,
                        current@.len() == cur_len,
                        forall|t: int|
                            offset <= t < offset + i ==> current@[t] == current_before[t].spec_sub(
                                other@[t - offset].spec_mul(d),
                            ),
                        forall|t: int|
                            0 <= t < cur_len && !(offset <= t < offset + i) ==> current@[t]
                                == current_before[t],
                    decreases o_len - i,
                {
                    let idx = i + offset;
                    let updated = current[idx].sub(&other.coefficients[i].mul(&d));
                    current[idx] = updated;
                    i += 1;
                }
                proof {
                    let cb = current_before;
                    let rb = result_before;
                    let om = other@;
                    let off = offset as int;
                    // the step subtracts d·other, shifted by offset, everywhere
                    assert forall|k: int|
                        coeff_at(current@, k) == coeff_at(cb, k).spec_sub(
                            coeff_at(om, k - off).spec_mul(d),
                        ) by {
                        if !(0 <= k < cur_len && off <= k < off + o_len) {
                            lemma_mul_zero_left(d);
                            T::lemma_sub_zero(coeff_at(cb, k));
                        }
                    }
                    // the quotient slot rises from zero to d
                    assert(result@ == rb.update(off, d));
                    assert(rb[off] == T::spec_zero());
                    // the division identity is preserved
                    assert forall|k: int| #![trigger conv_at(result@, om, k)]
                        coeff_at(self@, k) == conv_at(result@, om, k).spec_add(
                            coeff_at(current@, k),
                        ) by {
                        lemma_conv_prefix_update(rb, om, off, d, k, k + 1);
                        let cv = conv_at(rb, om, k);
                        let dd = d.spec_mul(coeff_at(om, k - off));
                        T::lemma_mul_comm(coeff_at(om, k - off), d);
                        if k + 1 > off {
                            T::lemma_sub_add(coeff_at(cb, k), dd);
                            T::lemma_add_assoc(cv, dd, coeff_at(cb, k).spec_sub(dd));
                            T::lemma_add_comm(dd, coeff_at(cb, k).spec_sub(dd));
                        } else {
                            lemma_mul_zero_left(d);
                            T::lemma_mul_zero(d);
                            T::lemma_sub_zero(coeff_at(cb, k));
                        }
                    }
                    // the leading coefficient of the remainder is eliminated
                    T::lemma_div_mul(lead, o_lead);
                    T::lemma_mul_comm(coeff_at(om, (cur_len - 1) - off), d);
                    T::lemma_sub_self(lead);
                    assert(current@[cur_len - 1] == T::spec_zero());
                }
                let ghost cur_mid = current@;
                remove_trailing_zeros(&mut current);
                proof {
                    lemma_canon_seq(cur_mid);
                    lemma_canon_len_bound(cur_mid, cur_len - 1);
                    // the identity carries over to the canonicalized remainder
                    assert forall|k: int| #![trigger conv_at(result@, other@, k)]
                        coeff_at(self@, k) == conv_at(result@, other@, k).spec_add(
                            coeff_at(current@, k),
                        ) by {
                        assert(coeff_at(current@, k) == coeff_at(cur_mid, k));
                    }
                    if cur_len == 1 {
                        lemma_strip_all_zero(cur_mid);
                        assert(current@ =~= zero_poly::<T>());
                    }
                    if current@ != zero_poly::<T>() {
                        lemma_nonzero_leading(current@);
                        assert(current@.len() < cur_len);
                    }
                }
            }
            proof {
                if current@ != zero_poly::<T>() && current@.len() >= o_len {
                    assert(current@.len() == 1 && current@[0] == T::spec_zero());
                    assert(current@ =~= zero_poly::<T>());
                }
            }
            let ghost result_final = result@;
            let ghost cur_final = current@;
            let q = Polynomial::new_from_coefficients(result);
            let rem = Polynomial::new_from_coefficients(current);
            proof {
                lemma_canon_of_canonical(cur_final);
                lemma_canon_seq(result_final);
                lemma_canon_len_bound(result_final, n - o_len + 1);
                assert forall|k: int| #![trigger conv_at(q@, other@, k)]
                    coeff_at(self@, k) == conv_at(q@, other@, k).spec_add(coeff_at(rem@, k)) by {
                    assert(coeff_at(self@, k) == conv_at(result_final, other@, k).spec_add(
                        coeff_at(cur_final, k),
                    ));
                    lemma_conv_prefix_congruence(q@, result_final, other@, other@, k, k + 1);
                }
            }
            Some((q, rem))
        }
    }
}

// ------------------------------------------------------------------------
// Uniqueness of Euclidean division.
// ------------------------------------------------------------------------

/// Convolution is linear: the sums for `q1` split into the sums for
/// `q1 − q2` plus the sums for `q2`.
pub proof fn lemma_conv_prefix_linear<T: GaloisField>(
    q1: Seq<T>,
    q2: Seq<T>,
    d: Seq<T>,
    k: int,
    n: int,
)
    ensures
        conv_prefix(q1, d, k, n) == conv_prefix(sub_seq(q1, q2), d, k, n).spec_add(
            conv_prefix(q2, d, k, n),
        ),
    decreases n,
{
    let s = sub_seq(q1, q2);
    if n <= 0 {
        T::lemma_add_zero(T::spec_zero());
    } else {
        lemma_conv_prefix_linear(q1, q2, d, k, n - 1);
        let a = coeff_at(q1, n - 1);
        let b = coeff_at(q2, n - 1);
        let dk = coeff_at(d, k - (n - 1));
        let cs = coeff_at(s, n - 1);
        lemma_sub_seq_coeff(q1, q2);
        assert(cs == a.spec_sub(b));
        // a == (a − b) + b, so a·dk splits into cs·dk + b·dk
        T::lemma_sub_add(a, b);
        T::lemma_mul_comm(cs.spec_add(b), dk);
        T::lemma_mul_distrib(dk, cs, b);
        T::lemma_mul_comm(dk, cs);
        T::lemma_mul_comm(dk, b);
        lemma_add_reorder(
            conv_prefix(s, d, k, n - 1),
            conv_prefix(q2, d, k, n - 1),
            cs.spec_mul(dk),
            b.spec_mul(dk),
        );
    }
}

/// Euclidean division is unique: two quotient–remainder pairs for the same
/// dividend and the same non-zero divisor, both with remainders below the
/// divisor's degree, have the same remainder (and quotients with the same
/// coefficients).
pub proof fn lemma_division_unique<T: GaloisField>(
    num: Seq<T>,
    d: Seq<T>,
    q1: Seq<T>,
    r1: Seq<T>,
    q2: Seq<T>,
    r2: Seq<T>,
)
    requires
        is_canonical(d),
        d != zero_poly::<T>(),
        divides_with_remainder(num, d, q1, r1),
        divides_with_remainder(num, d, q2, r2),
        is_canonical(r1),
        r1 == zero_poly::<T>() || r1.len() < d.len(),
        is_canonical(r2),
        r2 == zero_poly::<T>() || r2.len() < d.len(),
    ensures
        r1 == r2,
        forall|i: int| #![trigger coeff_at(q1, i)] coeff_at(q1, i) == coeff_at(q2, i),
{
    let s = sub_seq(q1, q2);
    let c = canon_seq(s);
    lemma_canon_seq(s);
    lemma_sub_seq_coeff(q1, q2);
    if c != zero_poly::<T>() {
        // a non-zero quotient difference would push the dividend difference
        // to a degree at least the divisor's, which the remainders cannot
        // account for
        lemma_nonzero_leading(c);
        lemma_nonzero_leading(d);
        let k = c.len() + d.len() - 2;
        lemma_conv_top(c, d);
        T::lemma_no_zero_divisors(c.last(), d.last());
        lemma_conv_prefix_congruence(c, s, d, d, k, k + 1);
        assert(conv_at(s, d, k) == c.last().spec_mul(d.last()));
        // at index k both remainders read as zero
        assert(coeff_at(r1, k) == T::spec_zero());
        assert(coeff_at(r2, k) == T::spec_zero());
        assert(coeff_at(num, k) == conv_at(q1, d, k).spec_add(coeff_at(r1, k)));
        assert(coeff_at(num, k) == conv_at(q2, d, k).spec_add(coeff_at(r2, k)));
        T::lemma_add_zero(conv_at(q1, d, k));
        T::lemma_add_zero(conv_at(q2, d, k));
        lemma_conv_prefix_linear(q1, q2, d, k, k + 1);
        lemma_add_zero_left(conv_at(q2, d, k));
        T::lemma_add_cancel(conv_at(s, d, k), T::spec_zero(), conv_at(q2, d, k));
        assert(false);
    }
    // the quotients agree coefficient by coefficient ...
    assert forall|i: int| #![trigger coeff_at(q1, i)] coeff_at(q1, i) == coeff_at(q2, i) by {
        assert(coeff_at(s, i) == coeff_at(c, i));
        T::lemma_sub_add(coeff_at(q1, i), coeff_at(q2, i));
        lemma_add_zero_left(coeff_at(q2, i));
    }
    // ... hence so do the remainders
    assert forall|k: int|
        #![trigger coeff_at(r1, k), coeff_at(r2, k)]
        coeff_at(r1, k) == coeff_at(r2, k) by {
        lemma_conv_prefix_congruence(q1, q2, d, d, k, k + 1);
        assert(coeff_at(num, k) == conv_at(q1, d, k).spec_add(coeff_at(r1, k)));
        assert(coeff_at(num, k) == conv_at(q2, d, k).spec_add(coeff_at(r2, k)));
        T::lemma_add_comm(conv_at(q1, d, k), coeff_at(r1, k));
        T::lemma_add_comm(conv_at(q2, d, k), coeff_at(r2, k));
        T::lemma_add_cancel(coeff_at(r1, k), coeff_at(r2, k), conv_at(q1, d, k));
    }
    lemma_canonical_unique(r1, r2);
}

// ------------------------------------------------------------------------
// Modular inversion.
// ------------------------------------------------------------------------

/// `num` leaves remainder one modulo `m`: some quotient `q` satisfies
/// `num == q·m + 1`.
pub open spec fn congruent_to_one<T: GaloisField>(num: Seq<T>, m: Seq<T>) -> bool {
    exists|q: Seq<T>| divides_with_remainder(num, m, q, one_poly::<T>())
}

/// Inversion round trip: when a product is congruent to one modulo `m`, any
/// Euclidean division of it by `m` leaves exactly the one polynomial as the
/// remainder. Together with the guarantees of `invert` and `div_mod` this
/// says: a returned inverse multiplies back to one in the quotient ring.
pub proof fn lemma_inversion_round_trip<T: GaloisField>(
    num: Seq<T>,
    m: Seq<T>,
    q: Seq<T>,
    rem: Seq<T>,
)
    requires
        is_canonical(m),
        m.len() >= 2,
        congruent_to_one(num, m),
        divides_with_remainder(num, m, q, rem),
        is_canonical(rem),
        rem == zero_poly::<T>() || rem.len() < m.len(),
    ensures
        rem == one_poly::<T>(),
{
    let qq = choose|qq: Seq<T>| divides_with_remainder(num, m, qq, one_poly::<T>());
    T::lemma_one_not_zero();
    assert(zero_poly::<T>()[0] == T::spec_zero());
    assert(one_poly::<T>()[0] == T::spec_one());
    lemma_division_unique(num, m, q, rem, qq, one_poly::<T>());
}

impl<T: GaloisField> Polynomial<T> {
    /// The multiplicative inverse of `self` in the quotient ring modulo
    /// `modulus`, computed by the extended Euclidean algorithm: a value is
    /// returned exactly when the Euclidean remainder chain of the two
    /// operands reaches the one polynomial, and it is of degree below the
    /// modulus and multiplies with `self` to something congruent to one.
    /// `None` when the chain ends elsewhere (the operands share a
    /// non-trivial common factor, or the chain stops at a non-one constant)
    /// or when the algorithm's preconditions — `deg(modulus) > deg(self)`
    /// and `self` non-zero — do not hold.
    pub fn invert(&self, modulus: &Polynomial<T>) -> (r: Option<Polynomial<T>>)
        requires
            self.wf(),
            modulus.wf(),
            2 * modulus@.len() <= usize::MAX,
        ensures
            (r is Some) <==> (modulus@.len() > self@.len() && self@ != zero_poly::<T>()
                && chain_hits_one(modulus@, self@)),
            r matches Some(inv) ==> {
                &&& inv.wf()
                &&& inv@.len() < modulus@.len()
                &&& congruent_to_one(poly_mul(self@, inv@), modulus@)
            },
    {
        let (_, maybe_inv) = xgcd(self, modulus);
        maybe_inv
    }
}

// ------------------------------------------------------------------------
// Multiplication.
// ------------------------------------------------------------------------

impl<T: GaloisField> Polynomial<T> {
    /// The product of `self` and `other`: the full convolution of the two
    /// coefficient sequences, canonicalized. For non-zero operands the
    /// degree of the product is the sum of the operand degrees.
    pub fn mul(&self, other: &Polynomial<T>) -> (r: Polynomial<T>)
        requires
            self.wf(),
            other.wf(),
            self@.len() + other@.len() <= usize::MAX,
        ensures
            r@ == poly_mul(self@, other@),
            r.wf(),
            forall|k: int|
                #![trigger coeff_at(r@, k)]
                coeff_at(r@, k) == conv_at(self@, other@, k),
            self@ != zero_poly::<T>() && other@ != zero_poly::<T>() ==> r@.len() == self@.len()
                + other@.len() - 1,
            self@ == zero_poly::<T>() || other@ == zero_poly::<T>() ==> r@ == zero_poly::<T>(),
    {
        let ns = self.coefficients.len();
        let no = other.coefficients.len();
        let total = ns + no - 1;
        let mut c: Vec<T> = Vec::new();
        let mut k: usize = 0;
        while k < total
            invariant
                ns == self@.len(),
                no == other@.len(),
                ns >= 1,
                no >= 1,
                ns + no <= usize::MAX,
                total == ns + no - 1,
                k <= total,
                c@.len() == k,
                forall|j: int| 0 <= j < k ==> c@[j] == conv_at(self@, other@, j),
            decreases total - k,
        {
            let mut acc = T::generate_zero();
            let mut i: usize = 0;
            while i <= k
                invariant
                    ns == self@.len(),
                    no == other@.len(),
                    ns + no <= usize::MAX,
                    total == ns + no - 1,
                    k < total,
                    i <= k + 1,
                    acc == conv_prefix(self@, other@, k as int, i as int),
                decreases k + 1 - i,
            {
                let x = if i < ns {
                    self.coefficients[i]
                } else {
                    T::generate_zero()
                };
                let y = if k - i < no {
                    other.coefficients[k - i]
                } else {
                    T::generate_zero()
                };
                acc = acc.add(&x.mul(&y));
                i += 1;
            }
            c.push(acc);
            k += 1;
        }
        proof {
            assert(c@ =~= mul_seq(self@, other@));
            lemma_canon_seq(mul_seq(self@, other@));
        }
        let r = Polynomial::new_from_coefficients(c);
        proof {
            lemma_poly_mul_degree(self@, other@);
            assert forall|kk: int| coeff_at(r@, kk) == conv_at(self@, other@, kk) by {
                lemma_canon_seq(mul_seq(self@, other@));
                if !(0 <= kk < mul_seq(self@, other@).len()) {
                    lemma_conv_beyond(self@, other@, kk);
                }
            }
        }
        r
    }
}

// ------------------------------------------------------------------------
// Ring laws of addition and subtraction.
// ------------------------------------------------------------------------

/// Polynomial addition is commutative.
pub proof fn lemma_poly_add_comm<T: GaloisField>(a: Seq<T>, b: Seq<T>)
    ensures
        poly_add(a, b) == poly_add(b, a),
{
    assert forall|i: int| 0 <= i < add_seq(a, b).len() implies add_seq(a, b)[i] == add_seq(b, a)[i] by {
        T::lemma_add_comm(coeff_at(a, i), coeff_at(b, i));
    }
    assert(add_seq(a, b) =~= add_seq(b, a));
}

/// The zero polynomial is the additive identity.
pub proof fn lemma_poly_add_zero<T: GaloisField>(a: Seq<T>)
    requires
        is_canonical(a),
    ensures
        poly_add(a, zero_poly::<T>()) == a,
{
    assert forall|i: int| 0 <= i < add_seq(a, zero_poly::<T>()).len() implies add_seq(
        a,
        zero_poly::<T>(),
    )[i] == a[i] by {
        T::lemma_add_zero(coeff_at(a, i));
    }
    assert(add_seq(a, zero_poly::<T>()) =~= a);
    lemma_canon_of_canonical(a);
}

/// A polynomial minus itself is the zero polynomial.
pub proof fn lemma_poly_sub_self<T: GaloisField>(a: Seq<T>)
    ensures
        poly_sub(a, a) == zero_poly::<T>(),
{
    assert forall|i: int| 0 <= i < sub_seq(a, a).len() implies sub_seq(a, a)[i]
        == T::spec_zero() by {
        T::lemma_sub_self(coeff_at(a, i));
    }
    lemma_strip_all_zero(sub_seq(a, a));
}

} // verus!
