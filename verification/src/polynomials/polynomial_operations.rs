use vstd::prelude::*;

use crate::galois_fields::GaloisField;
use crate::polynomials::convolution::lemma_conv_assoc;
use crate::polynomials::convolution::lemma_conv_comm;
use crate::polynomials::convolution::lemma_conv_one_left;
use crate::polynomials::convolution::lemma_conv_one_right;
use crate::polynomials::convolution::lemma_conv_prefix_add_left;
use crate::polynomials::convolution::lemma_conv_prefix_add_right;
use crate::polynomials::convolution::lemma_conv_prefix_sub_right;
use crate::polynomials::convolution::lemma_mul_seq_coeff;
use crate::polynomials::convolution::lemma_poly_mul_coeff;
use crate::polynomials::polynomial::Polynomial;
use crate::polynomials::polynomial::add_seq;
use crate::polynomials::polynomial::coeff_at;
use crate::polynomials::polynomial::congruent_to_one;
use crate::polynomials::polynomial::conv_at;
use crate::polynomials::polynomial::divides_with_remainder;
use crate::polynomials::polynomial::is_canonical;
use crate::polynomials::polynomial::lemma_add_seq_coeff;
use crate::polynomials::polynomial::lemma_add_swap;
use crate::polynomials::polynomial::lemma_add_to_sub;
use crate::polynomials::polynomial::lemma_add_zero_left;
use crate::polynomials::polynomial::lemma_canon_of_canonical;
use crate::polynomials::polynomial::lemma_conv_left_zero;
use crate::polynomials::polynomial::lemma_conv_prefix_congruence;
use crate::polynomials::polynomial::lemma_conv_prefix_linear;
use crate::polynomials::polynomial::lemma_conv_right_zero;
use crate::polynomials::polynomial::lemma_division_unique;
use crate::polynomials::polynomial::lemma_sub_as_add_neg;
use crate::polynomials::polynomial::lemma_sub_reorder;
use crate::polynomials::polynomial::mul_seq;
use crate::polynomials::polynomial::one_poly;
use crate::polynomials::polynomial::poly_mul;
use crate::polynomials::polynomial::sub_seq;
use crate::polynomials::polynomial::zero_poly;

verus! {

// ------------------------------------------------------------------------
// Divisibility, combinations, and the Euclidean remainder chain.
// ------------------------------------------------------------------------

/// `d` divides `num`: some quotient leaves no remainder.
pub open spec fn divides<T: GaloisField>(d: Seq<T>, num: Seq<T>) -> bool {
    exists|q: Seq<T>| divides_with_remainder(num, d, q, zero_poly::<T>())
}

/// `g` equals `ss·m + tt·p`, coefficient by coefficient.
pub open spec fn combination_with<T: GaloisField>(
    g: Seq<T>,
    m: Seq<T>,
    p: Seq<T>,
    ss: Seq<T>,
    tt: Seq<T>,
) -> bool {
    forall|k: int|
        #![trigger coeff_at(g, k)]
        coeff_at(g, k) == conv_at(ss, m, k).spec_add(conv_at(tt, p, k))
}

/// `g` is a polynomial linear combination of `m` and `p`; every common
/// divisor of `m` and `p` therefore divides `g`.
pub open spec fn is_combination<T: GaloisField>(g: Seq<T>, m: Seq<T>, p: Seq<T>) -> bool {
    exists|ss: Seq<T>, tt: Seq<T>| combination_with(g, m, p, ss, tt)
}

/// `rem` is the canonical remainder of `num` modulo `d`, realized by some
/// quotient; for a canonical non-zero `d` it is unique.
pub open spec fn is_euclid_rem<T: GaloisField>(num: Seq<T>, d: Seq<T>, rem: Seq<T>) -> bool {
    &&& is_canonical(rem)
    &&& (rem == zero_poly::<T>() || rem.len() < d.len())
    &&& exists|q: Seq<T>| divides_with_remainder(num, d, q, rem)
}

/// The canonical remainder of `num` modulo `d`, as a specification value.
pub open spec fn euclid_rem<T: GaloisField>(num: Seq<T>, d: Seq<T>) -> Seq<T> {
    choose|rem: Seq<T>| is_euclid_rem(num, d, rem)
}

/// The Euclidean remainder chain starting from `(r_last, r_current)` reaches
/// the one polynomial before it reaches zero. This is exactly the condition
/// under which the algorithm reports an inverse; a chain that ends at a
/// non-one constant yields none, even for coprime operands.
pub open spec fn chain_hits_one<T: GaloisField>(r_last: Seq<T>, r_current: Seq<T>) -> bool
    decreases r_current.len(),
{
    let rem = euclid_rem(r_last, r_current);
    if rem == one_poly::<T>() {
        true
    } else if rem == zero_poly::<T>() || rem.len() >= r_current.len() {
        false
    } else {
        chain_hits_one(r_current, rem)
    }
}

/// The value at which the Euclidean remainder chain from
/// `(r_last, r_current)` stops: the one polynomial when the chain reaches
/// it, otherwise the last non-zero remainder. This is the greatest common
/// divisor the algorithm reports, pinned exactly.
pub open spec fn chain_gcd<T: GaloisField>(r_last: Seq<T>, r_current: Seq<T>) -> Seq<T>
    decreases r_current.len(),
{
    let rem = euclid_rem(r_last, r_current);
    if rem == one_poly::<T>() {
        one_poly::<T>()
    } else if rem == zero_poly::<T>() || rem.len() >= r_current.len() {
        r_current
    } else {
        chain_gcd(r_current, rem)
    }
}

/// The remainder a division step produces is the value the
/// specification-level chain picks: Euclidean division is unique.
pub proof fn lemma_euclid_rem_is<T: GaloisField>(num: Seq<T>, d: Seq<T>, q: Seq<T>, rem: Seq<T>)
    requires
        is_canonical(d),
        d != zero_poly::<T>(),
        is_canonical(rem),
        rem == zero_poly::<T>() || rem.len() < d.len(),
        divides_with_remainder(num, d, q, rem),
    ensures
        euclid_rem(num, d) == rem,
{
    assert(is_euclid_rem(num, d, rem));
    let chosen = euclid_rem(num, d);
    assert(is_euclid_rem(num, d, chosen));
    let q2 = choose|q2: Seq<T>| divides_with_remainder(num, d, q2, chosen);
    lemma_division_unique(num, d, q2, chosen, q, rem);
}

/// Modular inverses are unique: two polynomials of degree below the modulus
/// whose products with the same polynomial are both congruent to one modulo
/// it are equal. With this, the congruence in `invert`'s contract pins the
/// returned inverse exactly.
pub proof fn lemma_modular_inverse_unique<T: GaloisField>(
    p: Seq<T>,
    m: Seq<T>,
    x: Seq<T>,
    y: Seq<T>,
)
    requires
        is_canonical(m),
        m.len() >= 2,
        is_canonical(x),
        x.len() < m.len(),
        is_canonical(y),
        y.len() < m.len(),
        congruent_to_one(poly_mul(p, x), m),
        congruent_to_one(poly_mul(p, y), m),
    ensures
        x == y,
{
    let q1 = choose|q: Seq<T>| divides_with_remainder(poly_mul(p, x), m, q, one_poly::<T>());
    let q2 = choose|q: Seq<T>| divides_with_remainder(poly_mul(p, y), m, q, one_poly::<T>());
    let px = mul_seq(p, x);
    let py = mul_seq(p, y);
    let num = mul_seq(y, px);
    let num2 = mul_seq(x, py);
    lemma_poly_mul_coeff(p, x);
    lemma_poly_mul_coeff(p, y);
    lemma_mul_seq_coeff(p, x);
    lemma_mul_seq_coeff(p, y);
    lemma_mul_seq_coeff(y, px);
    lemma_mul_seq_coeff(x, py);
    lemma_mul_seq_coeff(y, p);
    lemma_mul_seq_coeff(q1, m);
    lemma_mul_seq_coeff(q2, m);
    // y·(p·x) == (y·q1)·m + y, coefficient by coefficient
    assert forall|k: int| #![trigger conv_at(mul_seq(y, q1), m, k)]
        coeff_at(num, k) == conv_at(mul_seq(y, q1), m, k).spec_add(coeff_at(y, k)) by {
        let n = k + 1;
        assert forall|j: int| #![trigger coeff_at(px, j)]
            coeff_at(px, j) == coeff_at(mul_seq(q1, m), j).spec_add(
                coeff_at(one_poly::<T>(), j),
            ) by {
            assert(coeff_at(poly_mul(p, x), j) == conv_at(q1, m, j).spec_add(
                coeff_at(one_poly::<T>(), j),
            ));
        }
        lemma_conv_prefix_add_right(y, px, mul_seq(q1, m), one_poly::<T>(), k, n);
        lemma_conv_assoc(y, q1, m, k);
        lemma_conv_one_right(y, k);
    }
    assert(divides_with_remainder(num, m, mul_seq(y, q1), y));
    // x·(p·y) == (x·q2)·m + x, coefficient by coefficient
    assert forall|k: int| #![trigger conv_at(mul_seq(x, q2), m, k)]
        coeff_at(num2, k) == conv_at(mul_seq(x, q2), m, k).spec_add(coeff_at(x, k)) by {
        let n = k + 1;
        assert forall|j: int| #![trigger coeff_at(py, j)]
            coeff_at(py, j) == coeff_at(mul_seq(q2, m), j).spec_add(
                coeff_at(one_poly::<T>(), j),
            ) by {
            assert(coeff_at(poly_mul(p, y), j) == conv_at(q2, m, j).spec_add(
                coeff_at(one_poly::<T>(), j),
            ));
        }
        lemma_conv_prefix_add_right(x, py, mul_seq(q2, m), one_poly::<T>(), k, n);
        lemma_conv_assoc(x, q2, m, k);
        lemma_conv_one_right(x, k);
    }
    // the two triple products agree: y·(p·x) == (y·p)·x == (p·y)·x == x·(p·y)
    assert forall|k: int| #![trigger coeff_at(num, k)] coeff_at(num, k) == coeff_at(num2, k) by {
        let n = k + 1;
        lemma_conv_assoc(y, p, x, k);
        assert forall|i: int| #![trigger coeff_at(mul_seq(y, p), i)]
            coeff_at(mul_seq(y, p), i) == coeff_at(mul_seq(p, y), i) by {
            lemma_conv_comm(y, p, i);
        }
        lemma_conv_prefix_congruence(mul_seq(y, p), mul_seq(p, y), x, x, k, n);
        lemma_conv_comm(mul_seq(p, y), x, k);
    }
    // so the second division also divides the first product
    assert forall|k: int| #![trigger conv_at(mul_seq(x, q2), m, k)]
        coeff_at(num, k) == conv_at(mul_seq(x, q2), m, k).spec_add(coeff_at(x, k)) by {
        assert(coeff_at(num, k) == coeff_at(num2, k));
    }
    assert(divides_with_remainder(num, m, mul_seq(x, q2), x));
    lemma_division_unique(num, m, mul_seq(y, q1), y, mul_seq(x, q2), x);
}

/// One Euclidean division step rewrites a combination of `(r_last, r_cur)`
/// as a combination of `(r_cur, rem)` with updated coefficients.
proof fn lemma_step_combination<T: GaloisField>(
    target: Seq<T>,
    r_last: Seq<T>,
    r_cur: Seq<T>,
    q: Seq<T>,
    rem: Seq<T>,
    u: Seq<T>,
    v: Seq<T>,
)
    requires
        forall|k: int|
            #![trigger conv_at(q, r_cur, k)]
            coeff_at(r_last, k) == conv_at(q, r_cur, k).spec_add(coeff_at(rem, k)),
        forall|k: int|
            #![trigger coeff_at(target, k)]
            coeff_at(target, k) == conv_at(u, r_last, k).spec_add(conv_at(v, r_cur, k)),
    ensures
        forall|k: int|
            #![trigger coeff_at(target, k)]
            coeff_at(target, k) == conv_at(add_seq(mul_seq(u, q), v), r_cur, k).spec_add(
                conv_at(u, rem, k),
            ),
{
    let u2 = add_seq(mul_seq(u, q), v);
    lemma_mul_seq_coeff(q, r_cur);
    lemma_mul_seq_coeff(u, q);
    lemma_add_seq_coeff(mul_seq(u, q), v);
    assert forall|k: int|
        coeff_at(target, k) == conv_at(u2, r_cur, k).spec_add(conv_at(u, rem, k)) by {
        let n = k + 1;
        assert(coeff_at(target, k) == conv_at(u, r_last, k).spec_add(conv_at(v, r_cur, k)));
        // the division step decomposes r_last pointwise
        assert forall|j: int| #![trigger coeff_at(r_last, j)]
            coeff_at(r_last, j) == coeff_at(mul_seq(q, r_cur), j).spec_add(coeff_at(rem, j)) by {
            assert(coeff_at(r_last, j) == conv_at(q, r_cur, j).spec_add(coeff_at(rem, j)));
        }
        lemma_conv_prefix_add_right(u, r_last, mul_seq(q, r_cur), rem, k, n);
        lemma_conv_assoc(u, q, r_cur, k);
        lemma_conv_prefix_add_left(u2, mul_seq(u, q), v, r_cur, k, n);
        lemma_add_swap(
            conv_at(mul_seq(u, q), r_cur, k),
            conv_at(u, rem, k),
            conv_at(v, r_cur, k),
        );
    }
}

// ------------------------------------------------------------------------
// The extended Euclidean algorithm.
// ------------------------------------------------------------------------

/// The extended Euclidean algorithm, specialized for modular inversion.
///
/// Given `poly` and `modulus` with `deg(modulus) > deg(poly)` and `poly`
/// non-zero, returns a greatest common divisor of the two — it divides both
/// operands and is a polynomial combination of them — and, exactly when the
/// remainder chain reaches the one polynomial, the Bézout coefficient `t` of
/// `poly`, of degree below the modulus, with `poly·t` congruent to one
/// modulo `modulus`. A violated precondition yields `(None, None)`; a chain
/// ending at zero yields an absent Bézout coefficient.
pub fn xgcd<T: GaloisField>(poly: &Polynomial<T>, modulus: &Polynomial<T>) -> (r: (
    Option<Polynomial<T>>,
    Option<Polynomial<T>>,
))
    requires
        poly.wf(),
        modulus.wf(),
        2 * modulus@.len() <= usize::MAX,
    ensures
        (r.0 is None) <==> (modulus@.len() <= poly@.len() || poly@ == zero_poly::<T>()),
        r.0 is None ==> r.1 is None,
        (r.1 is Some) <==> (modulus@.len() > poly@.len() && poly@ != zero_poly::<T>()
            && chain_hits_one(modulus@, poly@)),
        r.0 matches Some(g) ==> {
            &&& g.wf()
            &&& g@ != zero_poly::<T>()
            &&& g@.len() <= poly@.len()
            &&& g@ == chain_gcd(modulus@, poly@)
            &&& divides(g@, poly@)
            &&& divides(g@, modulus@)
            &&& is_combination(g@, modulus@, poly@)
        },
        r.1 matches Some(t) ==> t.wf() && t@.len() < modulus@.len() && congruent_to_one(
            poly_mul(poly@, t@),
            modulus@,
        ),
        r.1 is Some ==> (r.0 matches Some(g) && g@ == one_poly::<T>()),
{
    if modulus.degree() <= poly.degree() || poly.is_zero() {
        (None, None)
    } else {
        let mut r_last = modulus.clone();
        let mut r_current = poly.clone();
        let mut t_last = Polynomial::<T>::new();
        let mut one_coeffs: Vec<T> = Vec::new();
        one_coeffs.push(T::generate_one());
        proof {
            assert(one_coeffs@ =~= one_poly::<T>());
            lemma_canon_of_canonical(one_poly::<T>());
        }
        let mut t_current = Polynomial::<T>::new_from_coefficients(one_coeffs);
        // the Bézout coefficients of `modulus`, and the coefficients that
        // express `modulus` and `poly` over the running remainders — all
        // tracked only for the proof
        let ghost mut s_last: Seq<T> = one_poly::<T>();
        let ghost mut s_current: Seq<T> = zero_poly::<T>();
        let ghost mut am: Seq<T> = one_poly::<T>();
        let ghost mut bm: Seq<T> = zero_poly::<T>();
        let ghost mut ap: Seq<T> = zero_poly::<T>();
        let ghost mut bp: Seq<T> = one_poly::<T>();
        proof {
            assert(zero_poly::<T>()[0] == T::spec_zero());
            assert forall|k: int| #![trigger coeff_at(r_last@, k)]
                coeff_at(r_last@, k) == conv_at(s_last, modulus@, k).spec_add(
                    conv_at(poly@, t_last@, k),
                ) by {
                lemma_conv_one_left(modulus@, k);
                lemma_conv_right_zero(poly@, zero_poly::<T>(), k);
                T::lemma_add_zero(coeff_at(modulus@, k));
            }
            assert forall|k: int| #![trigger coeff_at(r_current@, k)]
                coeff_at(r_current@, k) == conv_at(s_current, modulus@, k).spec_add(
                    conv_at(poly@, t_current@, k),
                ) by {
                lemma_conv_one_right(poly@, k);
                lemma_conv_left_zero(zero_poly::<T>(), modulus@, k);
                lemma_add_zero_left(coeff_at(poly@, k));
            }
            assert forall|k: int| #![trigger coeff_at(modulus@, k)]
                coeff_at(modulus@, k) == conv_at(am, r_last@, k).spec_add(
                    conv_at(bm, r_current@, k),
                ) by {
                lemma_conv_one_left(modulus@, k);
                lemma_conv_left_zero(zero_poly::<T>(), poly@, k);
                T::lemma_add_zero(coeff_at(modulus@, k));
            }
            assert forall|k: int| #![trigger coeff_at(poly@, k)]
                coeff_at(poly@, k) == conv_at(ap, r_last@, k).spec_add(
                    conv_at(bp, r_current@, k),
                ) by {
                lemma_conv_left_zero(zero_poly::<T>(), modulus@, k);
                lemma_conv_one_left(poly@, k);
                lemma_add_zero_left(coeff_at(poly@, k));
            }
        }
        loop
            invariant
                r_last.wf(),
                r_current.wf(),
                t_last.wf(),
                t_current.wf(),
                r_current@ != zero_poly::<T>(),
                r_last@ != zero_poly::<T>(),
                r_current@.len() < r_last@.len(),
                r_last@.len() <= modulus@.len(),
                r_current@.len() <= poly@.len(),
                t_last@.len() + r_current@.len() <= modulus@.len() + 1,
                t_current@.len() + r_last@.len() <= modulus@.len() + 1,
                2 * modulus@.len() <= usize::MAX,
                modulus@.len() > poly@.len(),
                poly@ != zero_poly::<T>(),
                chain_hits_one(r_last@, r_current@) == chain_hits_one(modulus@, poly@),
                chain_gcd(r_last@, r_current@) == chain_gcd(modulus@, poly@),
                forall|k: int|
                    #![trigger coeff_at(r_last@, k)]
                    coeff_at(r_last@, k) == conv_at(s_last, modulus@, k).spec_add(
                        conv_at(poly@, t_last@, k),
                    ),
                forall|k: int|
                    #![trigger coeff_at(r_current@, k)]
                    coeff_at(r_current@, k) == conv_at(s_current, modulus@, k).spec_add(
                        conv_at(poly@, t_current@, k),
                    ),
                forall|k: int|
                    #![trigger coeff_at(modulus@, k)]
                    coeff_at(modulus@, k) == conv_at(am, r_last@, k).spec_add(
                        conv_at(bm, r_current@, k),
                    ),
                forall|k: int|
                    #![trigger coeff_at(poly@, k)]
                    coeff_at(poly@, k) == conv_at(ap, r_last@, k).spec_add(
                        conv_at(bp, r_current@, k),
                    ),
            decreases r_current@.len(),
        {
            let ghost rl0 = r_last@;
            let ghost rc0 = r_current@;
            let dm = r_last.div_mod(&r_current);
            match dm {
                Some(qm) => {
                    let (q_current, mod_current) = qm;
                    let ghost q0 = q_current@;
                    let ghost rem0 = mod_current@;
                    let prod = q_current.mul(&t_current);
                    let t = t_last.sub(&prod);
                    let ghost s_next: Seq<T> = sub_seq(s_last, mul_seq(q_current@, s_current));
                    proof {
                        let mm = modulus@;
                        let pp = poly@;
                        let qq = q_current@;
                        let rc = r_current@;
                        let x = mul_seq(s_current, mm);
                        let y = mul_seq(pp, t_current@);
                        lemma_mul_seq_coeff(s_current, mm);
                        lemma_mul_seq_coeff(pp, t_current@);
                        lemma_mul_seq_coeff(qq, t_current@);
                        // the tracked combination decomposes the running remainder
                        assert forall|j: int| #![trigger coeff_at(rc, j)]
                            coeff_at(rc, j) == coeff_at(x, j).spec_add(coeff_at(y, j)) by {}
                        // the coefficients of the product of quotient orders swap
                        assert forall|i: int| #![trigger coeff_at(mul_seq(qq, pp), i)]
                            coeff_at(mul_seq(qq, pp), i) == coeff_at(mul_seq(pp, qq), i) by {
                            lemma_mul_seq_coeff(qq, pp);
                            lemma_mul_seq_coeff(pp, qq);
                            lemma_conv_comm(qq, pp, i);
                        }
                        // the new Bézout value of `poly`, coefficient by coefficient
                        assert forall|j: int| #![trigger coeff_at(t@, j)]
                            coeff_at(t@, j) == coeff_at(t_last@, j).spec_sub(
                                coeff_at(mul_seq(qq, t_current@), j),
                            ) by {
                            assert(coeff_at(prod@, j) == conv_at(qq, t_current@, j));
                        }
                        assert forall|k: int| #![trigger coeff_at(mod_current@, k)]
                            coeff_at(mod_current@, k) == conv_at(s_next, mm, k).spec_add(
                                conv_at(pp, t@, k),
                            ) by {
                            let n = k + 1;
                            // the division step relates the three remainders
                            assert(coeff_at(r_last@, k) == conv_at(qq, rc, k).spec_add(
                                coeff_at(mod_current@, k),
                            ));
                            // split q·r into the two tracked products
                            lemma_conv_prefix_add_right(qq, rc, x, y, k, n);
                            lemma_conv_assoc(qq, s_current, mm, k);
                            lemma_conv_assoc(qq, pp, t_current@, k);
                            lemma_conv_prefix_congruence(
                                mul_seq(qq, pp),
                                mul_seq(pp, qq),
                                t_current@,
                                t_current@,
                                k,
                                n,
                            );
                            lemma_conv_assoc(pp, qq, t_current@, k);
                            let a_term = conv_at(s_last, mm, k);
                            let b_term = conv_at(mul_seq(qq, s_current), mm, k);
                            let c_term = conv_at(pp, t_last@, k);
                            let d_term = conv_at(pp, mul_seq(qq, t_current@), k);
                            assert(conv_at(qq, rc, k) == b_term.spec_add(d_term));
                            // the updated values reproduce the new remainder
                            lemma_conv_prefix_linear(s_last, mul_seq(qq, s_current), mm, k, n);
                            lemma_add_to_sub(a_term, conv_at(s_next, mm, k), b_term);
                            lemma_conv_prefix_sub_right(
                                pp,
                                t@,
                                t_last@,
                                mul_seq(qq, t_current@),
                                k,
                                n,
                            );
                            lemma_sub_reorder::<T>(a_term, b_term, c_term, d_term);
                            assert(coeff_at(r_last@, k) == a_term.spec_add(c_term));
                            T::lemma_add_comm(conv_at(qq, rc, k), coeff_at(mod_current@, k));
                            lemma_add_to_sub(
                                coeff_at(r_last@, k),
                                coeff_at(mod_current@, k),
                                conv_at(qq, rc, k),
                            );
                        }
                        // the operands stay combinations of the remainders
                        lemma_step_combination(mm, rl0, rc0, q0, rem0, am, bm);
                        lemma_step_combination(pp, rl0, rc0, q0, rem0, ap, bp);
                        // the specification-level chain takes the same step
                        lemma_euclid_rem_is(rl0, rc0, q0, rem0);
                    }
                    r_last = r_current;
                    r_current = mod_current;
                    t_last = t_current;
                    t_current = t;
                    proof {
                        s_last = s_current;
                        s_current = s_next;
                        let old_am = am;
                        am = add_seq(mul_seq(am, q0), bm);
                        bm = old_am;
                        let old_ap = ap;
                        ap = add_seq(mul_seq(ap, q0), bp);
                        bp = old_ap;
                    }
                    if r_current.is_one() {
                        proof {
                            T::lemma_one_not_zero();
                            assert(zero_poly::<T>()[0] == T::spec_zero());
                            assert(one_poly::<T>()[0] == T::spec_one());
                            let mm = modulus@;
                            let pp = poly@;
                            // the chain reaches one here
                            assert(rem0 == one_poly::<T>());
                            assert(chain_hits_one(rl0, rc0));
                            assert(chain_gcd(rl0, rc0) == one_poly::<T>());
                            // the returned Bézout coefficient is below the modulus
                            assert(rem0 != zero_poly::<T>());
                            assert(2 <= r_last@.len());
                            assert(t_current@.len() + r_last@.len() <= mm.len() + 1);
                            assert(t_current@.len() < mm.len());
                            // the one polynomial divides both operands
                            assert forall|k: int|
                                coeff_at(mm, k) == conv_at(mm, r_current@, k).spec_add(
                                    coeff_at(zero_poly::<T>(), k),
                                ) by {
                                lemma_conv_one_right(mm, k);
                                T::lemma_add_zero(coeff_at(mm, k));
                            }
                            assert(divides_with_remainder(mm, r_current@, mm, zero_poly::<T>()));
                            assert forall|k: int|
                                coeff_at(pp, k) == conv_at(pp, r_current@, k).spec_add(
                                    coeff_at(zero_poly::<T>(), k),
                                ) by {
                                lemma_conv_one_right(pp, k);
                                T::lemma_add_zero(coeff_at(pp, k));
                            }
                            assert(divides_with_remainder(pp, r_current@, pp, zero_poly::<T>()));
                            // the gcd is the tracked combination
                            assert forall|k: int| #![trigger coeff_at(r_current@, k)]
                                coeff_at(r_current@, k) == conv_at(s_current, mm, k).spec_add(
                                    conv_at(t_current@, pp, k),
                                ) by {
                                lemma_conv_comm(pp, t_current@, k);
                            }
                            assert(combination_with(r_current@, mm, pp, s_current, t_current@));
                            // and the Bézout coefficient inverts `poly`
                            let w = sub_seq(zero_poly::<T>(), s_current);
                            lemma_poly_mul_coeff(pp, t_current@);
                            assert forall|k: int| #![trigger conv_at(w, mm, k)]
                                coeff_at(poly_mul(pp, t_current@), k) == conv_at(w, mm, k).spec_add(
                                    coeff_at(one_poly::<T>(), k),
                                ) by {
                                let n = k + 1;
                                assert(coeff_at(r_current@, k) == conv_at(s_current, mm, k)
                                    .spec_add(conv_at(t_current@, pp, k)));
                                lemma_conv_comm(pp, t_current@, k);
                                T::lemma_add_comm(
                                    conv_at(s_current, mm, k),
                                    conv_at(pp, t_current@, k),
                                );
                                lemma_add_to_sub(
                                    coeff_at(one_poly::<T>(), k),
                                    conv_at(pp, t_current@, k),
                                    conv_at(s_current, mm, k),
                                );
                                lemma_conv_prefix_linear(zero_poly::<T>(), s_current, mm, k, n);
                                lemma_conv_left_zero(zero_poly::<T>(), mm, k);
                                lemma_add_to_sub(
                                    T::spec_zero(),
                                    conv_at(w, mm, k),
                                    conv_at(s_current, mm, k),
                                );
                                lemma_sub_as_add_neg(
                                    coeff_at(one_poly::<T>(), k),
                                    conv_at(s_current, mm, k),
                                );
                                T::lemma_add_comm(
                                    coeff_at(one_poly::<T>(), k),
                                    T::spec_zero().spec_sub(conv_at(s_current, mm, k)),
                                );
                            }
                            assert(divides_with_remainder(
                                poly_mul(pp, t_current@),
                                mm,
                                w,
                                one_poly::<T>(),
                            ));
                            assert(congruent_to_one(poly_mul(pp, t_current@), mm));
                        }
                        return (Some(r_current), Some(t_current));
                    } else if r_current.is_zero() {
                        proof {
                            T::lemma_one_not_zero();
                            assert(zero_poly::<T>()[0] == T::spec_zero());
                            assert(one_poly::<T>()[0] == T::spec_one());
                            let mm = modulus@;
                            let pp = poly@;
                            // the chain ends at zero: no inverse is owed, and
                            // the gcd is the last non-zero remainder
                            assert(rem0 == zero_poly::<T>());
                            assert(!chain_hits_one(rl0, rc0));
                            assert(chain_gcd(rl0, rc0) == rc0);
                            // the returned gcd divides both operands
                            assert forall|k: int|
                                coeff_at(mm, k) == conv_at(am, r_last@, k).spec_add(
                                    coeff_at(zero_poly::<T>(), k),
                                ) by {
                                assert(coeff_at(mm, k) == conv_at(am, r_last@, k).spec_add(
                                    conv_at(bm, r_current@, k),
                                ));
                                lemma_conv_right_zero(bm, r_current@, k);
                                T::lemma_add_zero(conv_at(am, r_last@, k));
                            }
                            assert(divides_with_remainder(mm, r_last@, am, zero_poly::<T>()));
                            assert forall|k: int|
                                coeff_at(pp, k) == conv_at(ap, r_last@, k).spec_add(
                                    coeff_at(zero_poly::<T>(), k),
                                ) by {
                                assert(coeff_at(pp, k) == conv_at(ap, r_last@, k).spec_add(
                                    conv_at(bp, r_current@, k),
                                ));
                                lemma_conv_right_zero(bp, r_current@, k);
                                T::lemma_add_zero(conv_at(ap, r_last@, k));
                            }
                            assert(divides_with_remainder(pp, r_last@, ap, zero_poly::<T>()));
                            // and it is the tracked combination
                            assert forall|k: int| #![trigger coeff_at(r_last@, k)]
                                coeff_at(r_last@, k) == conv_at(s_last, mm, k).spec_add(
                                    conv_at(t_last@, pp, k),
                                ) by {
                                lemma_conv_comm(pp, t_last@, k);
                            }
                            assert(combination_with(r_last@, mm, pp, s_last, t_last@));
                        }
                        return (Some(r_last), None);
                    }
                }
                None => {
                    return (None, None);
                }
            }
        }
    }
}

} // verus!
