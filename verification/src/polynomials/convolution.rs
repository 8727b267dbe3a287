use vstd::prelude::*;

use crate::galois_fields::GaloisField;
use crate::polynomials::polynomial::coeff_at;
use crate::polynomials::polynomial::conv_at;
use crate::polynomials::polynomial::conv_prefix;
use crate::polynomials::polynomial::lemma_add_reorder;
use crate::polynomials::polynomial::lemma_add_zero_left;
use crate::polynomials::polynomial::lemma_conv_beyond;
use crate::polynomials::polynomial::lemma_conv_prefix_high_zero;
use crate::polynomials::polynomial::lemma_mul_zero_left;
use crate::polynomials::polynomial::lemma_sub_reorder;
use crate::polynomials::polynomial::canon_seq;
use crate::polynomials::polynomial::lemma_canon_seq;
use crate::polynomials::polynomial::mul_seq;
use crate::polynomials::polynomial::one_poly;
use crate::polynomials::polynomial::poly_mul;

verus! {

// ------------------------------------------------------------------------
// Finite sums of field elements.
// ------------------------------------------------------------------------

/// The sum `f(0) + … + f(n−1)`.
pub open spec fn gsum<T: GaloisField>(n: int, f: spec_fn(int) -> T) -> T
    decreases n,
{
    if n <= 0 {
        T::spec_zero()
    } else {
        gsum(n - 1, f).spec_add(f(n - 1))
    }
}

/// A partial convolution is such a sum.
pub proof fn lemma_conv_as_gsum<T: GaloisField>(
    a: Seq<T>,
    b: Seq<T>,
    k: int,
    n: int,
    f: spec_fn(int) -> T,
)
    requires
        forall|i: int|
            0 <= i < n ==> #[trigger] f(i) == coeff_at(a, i).spec_mul(coeff_at(b, k - i)),
    ensures
        conv_prefix(a, b, k, n) == gsum(n, f),
    decreases n,
{
    if n > 0 {
        lemma_conv_as_gsum(a, b, k, n - 1, f);
    }
}

/// A sum can be peeled from the front as well as from the back.
pub proof fn lemma_gsum_front<T: GaloisField>(n: int, f: spec_fn(int) -> T, f1: spec_fn(int) -> T)
    requires
        n > 0,
        forall|i: int| #[trigger] f1(i) == f(i + 1),
    ensures
        gsum(n, f) == f(0).spec_add(gsum(n - 1, f1)),
    decreases n,
{
    if n == 1 {
        assert(gsum(1, f) == gsum(0, f).spec_add(f(0)));
        assert(gsum(0, f1) == T::spec_zero());
        lemma_add_zero_left(f(0));
        T::lemma_add_zero(f(0));
    } else {
        lemma_gsum_front(n - 1, f, f1);
        assert(gsum(n, f) == gsum(n - 1, f).spec_add(f(n - 1)));
        assert(gsum(n - 1, f1) == gsum(n - 2, f1).spec_add(f1(n - 2)));
        assert(f1(n - 2) == f(n - 1));
        T::lemma_add_assoc(f(0), gsum(n - 2, f1), f(n - 1));
    }
}

/// Summing in the reverse order gives the same sum.
pub proof fn lemma_gsum_reverse<T: GaloisField>(n: int, f: spec_fn(int) -> T, g: spec_fn(int) -> T)
    requires
        forall|i: int| 0 <= i < n ==> #[trigger] g(i) == f(n - 1 - i),
    ensures
        gsum(n, f) == gsum(n, g),
    decreases n,
{
    if n > 0 {
        let f1 = |i: int| f(i + 1);
        assert forall|i: int| 0 <= i < n - 1 implies #[trigger] g(i) == f1(n - 2 - i) by {}
        lemma_gsum_reverse(n - 1, f1, g);
        lemma_gsum_front(n, f, f1);
        T::lemma_add_comm(f(0), gsum(n - 1, g));
    }
}

/// Convolution is commutative.
pub proof fn lemma_conv_comm<T: GaloisField>(a: Seq<T>, b: Seq<T>, k: int)
    ensures
        conv_at(a, b, k) == conv_at(b, a, k),
{
    if k >= 0 {
        let n = k + 1;
        let fab = |i: int| coeff_at(a, i).spec_mul(coeff_at(b, k - i));
        let fba = |i: int| coeff_at(b, i).spec_mul(coeff_at(a, k - i));
        lemma_conv_as_gsum(a, b, k, n, fab);
        lemma_conv_as_gsum(b, a, k, n, fba);
        assert forall|i: int| 0 <= i < n implies #[trigger] fba(i) == fab(n - 1 - i) by {
            T::lemma_mul_comm(coeff_at(b, i), coeff_at(a, k - i));
        }
        lemma_gsum_reverse(n, fab, fba);
    }
}

/// The product sequence reads as the convolution at every index.
pub proof fn lemma_mul_seq_coeff<T: GaloisField>(a: Seq<T>, b: Seq<T>)
    ensures
        forall|j: int|
            #![trigger coeff_at(mul_seq(a, b), j)]
            coeff_at(mul_seq(a, b), j) == conv_at(a, b, j),
{
    assert forall|j: int| coeff_at(mul_seq(a, b), j) == conv_at(a, b, j) by {
        if !(0 <= j < mul_seq(a, b).len()) {
            lemma_conv_beyond(a, b, j);
        }
    }
}

/// The canonical product reads as the convolution at every index.
pub proof fn lemma_poly_mul_coeff<T: GaloisField>(a: Seq<T>, b: Seq<T>)
    ensures
        forall|k: int|
            #![trigger coeff_at(poly_mul(a, b), k)]
            coeff_at(poly_mul(a, b), k) == conv_at(a, b, k),
{
    lemma_canon_seq(mul_seq(a, b));
    lemma_mul_seq_coeff(a, b);
    assert forall|k: int| coeff_at(poly_mul(a, b), k) == conv_at(a, b, k) by {
        assert(coeff_at(canon_seq(mul_seq(a, b)), k) == coeff_at(mul_seq(a, b), k));
    }
}

/// Convolving with the one polynomial on the left reads off the coefficient.
pub proof fn lemma_conv_one_left<T: GaloisField>(b: Seq<T>, k: int)
    ensures
        conv_at(one_poly::<T>(), b, k) == coeff_at(b, k),
{
    let o = one_poly::<T>();
    if k >= 0 {
        assert forall|j: int| 1 <= j < k + 1 implies coeff_at(o, j).spec_mul(coeff_at(b, k - j))
            == T::spec_zero() by {
            lemma_mul_zero_left(coeff_at(b, k - j));
        }
        lemma_conv_prefix_high_zero(o, b, k, k + 1, 1);
        assert(o[0] == T::spec_one());
        assert(coeff_at(o, 0) == T::spec_one());
        assert(conv_prefix(o, b, k, 1) == conv_prefix(o, b, k, 0).spec_add(
            coeff_at(o, 0).spec_mul(coeff_at(b, k - 0)),
        ));
        lemma_add_zero_left(coeff_at(o, 0).spec_mul(coeff_at(b, k)));
        T::lemma_mul_comm(T::spec_one(), coeff_at(b, k));
        T::lemma_mul_one(coeff_at(b, k));
    }
}

/// Convolving with the one polynomial on the right reads off the coefficient.
pub proof fn lemma_conv_one_right<T: GaloisField>(a: Seq<T>, k: int)
    ensures
        conv_at(a, one_poly::<T>(), k) == coeff_at(a, k),
{
    lemma_conv_comm(a, one_poly::<T>(), k);
    lemma_conv_one_left(a, k);
}

/// Convolution distributes over a pointwise sum in the right operand.
pub proof fn lemma_conv_prefix_add_right<T: GaloisField>(
    q: Seq<T>,
    b: Seq<T>,
    x: Seq<T>,
    y: Seq<T>,
    k: int,
    n: int,
)
    requires
        forall|j: int|
            #![trigger coeff_at(b, j)]
            coeff_at(b, j) == coeff_at(x, j).spec_add(coeff_at(y, j)),
    ensures
        conv_prefix(q, b, k, n) == conv_prefix(q, x, k, n).spec_add(conv_prefix(q, y, k, n)),
    decreases n,
{
    if n <= 0 {
        T::lemma_add_zero(T::spec_zero());
    } else {
        lemma_conv_prefix_add_right(q, b, x, y, k, n - 1);
        let qc = coeff_at(q, n - 1);
        T::lemma_mul_distrib(qc, coeff_at(x, k - (n - 1)), coeff_at(y, k - (n - 1)));
        lemma_add_reorder(
            conv_prefix(q, x, k, n - 1),
            conv_prefix(q, y, k, n - 1),
            qc.spec_mul(coeff_at(x, k - (n - 1))),
            qc.spec_mul(coeff_at(y, k - (n - 1))),
        );
    }
}

/// Convolution distributes over a pointwise sum in the left operand.
pub proof fn lemma_conv_prefix_add_left<T: GaloisField>(
    s: Seq<T>,
    x: Seq<T>,
    y: Seq<T>,
    d: Seq<T>,
    k: int,
    n: int,
)
    requires
        forall|j: int|
            #![trigger coeff_at(s, j)]
            coeff_at(s, j) == coeff_at(x, j).spec_add(coeff_at(y, j)),
    ensures
        conv_prefix(s, d, k, n) == conv_prefix(x, d, k, n).spec_add(conv_prefix(y, d, k, n)),
    decreases n,
{
    if n <= 0 {
        T::lemma_add_zero(T::spec_zero());
    } else {
        lemma_conv_prefix_add_left(s, x, y, d, k, n - 1);
        let dc = coeff_at(d, k - (n - 1));
        T::lemma_mul_comm(coeff_at(s, n - 1), dc);
        T::lemma_mul_distrib(dc, coeff_at(x, n - 1), coeff_at(y, n - 1));
        T::lemma_mul_comm(dc, coeff_at(x, n - 1));
        T::lemma_mul_comm(dc, coeff_at(y, n - 1));
        lemma_add_reorder(
            conv_prefix(x, d, k, n - 1),
            conv_prefix(y, d, k, n - 1),
            coeff_at(x, n - 1).spec_mul(dc),
            coeff_at(y, n - 1).spec_mul(dc),
        );
    }
}

/// Convolution distributes over a pointwise difference in the right operand.
pub proof fn lemma_conv_prefix_sub_right<T: GaloisField>(
    q: Seq<T>,
    b: Seq<T>,
    x: Seq<T>,
    y: Seq<T>,
    k: int,
    n: int,
)
    requires
        forall|j: int|
            #![trigger coeff_at(b, j)]
            coeff_at(b, j) == coeff_at(x, j).spec_sub(coeff_at(y, j)),
    ensures
        conv_prefix(q, b, k, n) == conv_prefix(q, x, k, n).spec_sub(conv_prefix(q, y, k, n)),
    decreases n,
{
    if n <= 0 {
        T::lemma_sub_self(T::spec_zero());
    } else {
        lemma_conv_prefix_sub_right(q, b, x, y, k, n - 1);
        let qc = coeff_at(q, n - 1);
        T::lemma_mul_sub_distrib(qc, coeff_at(x, k - (n - 1)), coeff_at(y, k - (n - 1)));
        lemma_sub_reorder(
            conv_prefix(q, x, k, n - 1),
            conv_prefix(q, y, k, n - 1),
            qc.spec_mul(coeff_at(x, k - (n - 1))),
            qc.spec_mul(coeff_at(y, k - (n - 1))),
        );
    }
}

// ------------------------------------------------------------------------
// Rectangular double sums, and associativity of convolution.
// ------------------------------------------------------------------------

/// The sum of row `i`: `ff(i, 0) + … + ff(i, m−1)`.
pub open spec fn gsum_row<T: GaloisField>(i: int, m: int, ff: spec_fn(int, int) -> T) -> T
    decreases m,
{
    if m <= 0 {
        T::spec_zero()
    } else {
        gsum_row(i, m - 1, ff).spec_add(ff(i, m - 1))
    }
}

/// The sum of column `j`: `ff(0, j) + … + ff(n−1, j)`.
pub open spec fn gsum_col<T: GaloisField>(j: int, n: int, ff: spec_fn(int, int) -> T) -> T
    decreases n,
{
    if n <= 0 {
        T::spec_zero()
    } else {
        gsum_col(j, n - 1, ff).spec_add(ff(n - 1, j))
    }
}

/// The rectangle summed row by row: rows `0 … n−1`, each of width `m`.
pub open spec fn gsum_rows<T: GaloisField>(n: int, m: int, ff: spec_fn(int, int) -> T) -> T
    decreases n,
{
    if n <= 0 {
        T::spec_zero()
    } else {
        gsum_rows(n - 1, m, ff).spec_add(gsum_row(n - 1, m, ff))
    }
}

/// The rectangle summed column by column: columns `0 … m−1`, each of height `n`.
pub open spec fn gsum_cols<T: GaloisField>(m: int, n: int, ff: spec_fn(int, int) -> T) -> T
    decreases m,
{
    if m <= 0 {
        T::spec_zero()
    } else {
        gsum_cols(m - 1, n, ff).spec_add(gsum_col(m - 1, n, ff))
    }
}

/// A rectangle of no rows sums to zero column by column as well.
proof fn lemma_gsum_cols_empty<T: GaloisField>(m: int, n: int, ff: spec_fn(int, int) -> T)
    requires
        n <= 0,
    ensures
        gsum_cols(m, n, ff) == T::spec_zero(),
    decreases m,
{
    if m > 0 {
        lemma_gsum_cols_empty(m - 1, n, ff);
        T::lemma_add_zero(T::spec_zero());
    }
}

/// Removing the last row from a column-by-column sum.
proof fn lemma_gsum_cols_peel<T: GaloisField>(m: int, n: int, ff: spec_fn(int, int) -> T)
    requires
        n > 0,
    ensures
        gsum_cols(m, n, ff) == gsum_cols(m, n - 1, ff).spec_add(gsum_row(n - 1, m, ff)),
    decreases m,
{
    if m <= 0 {
        T::lemma_add_zero(T::spec_zero());
    } else {
        lemma_gsum_cols_peel(m - 1, n, ff);
        lemma_add_reorder(
            gsum_cols(m - 1, n - 1, ff),
            gsum_row(n - 1, m - 1, ff),
            gsum_col(m - 1, n - 1, ff),
            ff(n - 1, m - 1),
        );
    }
}

/// Row-by-row and column-by-column sums of a rectangle agree.
proof fn lemma_gsum_exchange<T: GaloisField>(n: int, m: int, ff: spec_fn(int, int) -> T)
    ensures
        gsum_rows(n, m, ff) == gsum_cols(m, n, ff),
    decreases n,
{
    if n <= 0 {
        lemma_gsum_cols_empty(m, n, ff);
    } else {
        lemma_gsum_exchange(n - 1, m, ff);
        lemma_gsum_cols_peel(m, n, ff);
    }
}

/// Row `m` of the triple-product rectangle is the convolution of `a` and `b`
/// at `m`, times the matching coefficient of `c`.
proof fn lemma_row_factor<T: GaloisField>(
    a: Seq<T>,
    b: Seq<T>,
    c: Seq<T>,
    k: int,
    m: int,
    j: int,
    ff: spec_fn(int, int) -> T,
)
    requires
        forall|mm: int, ii: int|
            #[trigger] ff(mm, ii) == coeff_at(a, ii).spec_mul(coeff_at(b, mm - ii)).spec_mul(
                coeff_at(c, k - mm),
            ),
    ensures
        gsum_row(m, j, ff) == conv_prefix(a, b, m, j).spec_mul(coeff_at(c, k - m)),
    decreases j,
{
    let cm = coeff_at(c, k - m);
    if j <= 0 {
        lemma_mul_zero_left(cm);
    } else {
        lemma_row_factor(a, b, c, k, m, j - 1, ff);
        let t = coeff_at(a, j - 1).spec_mul(coeff_at(b, m - (j - 1)));
        T::lemma_mul_comm(conv_prefix(a, b, m, j - 1).spec_add(t), cm);
        T::lemma_mul_distrib(cm, conv_prefix(a, b, m, j - 1), t);
        T::lemma_mul_comm(cm, conv_prefix(a, b, m, j - 1));
        T::lemma_mul_comm(cm, t);
    }
}

/// The convolution of `a·b` with `c`, partially summed, is the rectangle
/// summed row by row.
proof fn lemma_left_assoc_rows<T: GaloisField>(
    a: Seq<T>,
    b: Seq<T>,
    c: Seq<T>,
    k: int,
    j: int,
    ff: spec_fn(int, int) -> T,
)
    requires
        0 <= k,
        0 <= j <= k + 1,
        forall|mm: int, ii: int|
            #[trigger] ff(mm, ii) == coeff_at(a, ii).spec_mul(coeff_at(b, mm - ii)).spec_mul(
                coeff_at(c, k - mm),
            ),
    ensures
        conv_prefix(mul_seq(a, b), c, k, j) == gsum_rows(j, k + 1, ff),
    decreases j,
{
    if j > 0 {
        lemma_left_assoc_rows(a, b, c, k, j - 1, ff);
        let m = j - 1;
        lemma_mul_seq_coeff(a, b);
        assert forall|i: int| m + 1 <= i < k + 1 implies coeff_at(a, i).spec_mul(
            coeff_at(b, m - i),
        ) == T::spec_zero() by {
            T::lemma_mul_zero(coeff_at(a, i));
        }
        lemma_conv_prefix_high_zero(a, b, m, k + 1, m + 1);
        lemma_row_factor(a, b, c, k, m, k + 1, ff);
    }
}

/// Column `i` of the rectangle is the matching coefficient of `a` times the
/// convolution of `b` and `c` at `k − i`.
proof fn lemma_col_factor<T: GaloisField>(
    a: Seq<T>,
    b: Seq<T>,
    c: Seq<T>,
    k: int,
    i: int,
    j: int,
    ff: spec_fn(int, int) -> T,
)
    requires
        0 <= i,
        forall|mm: int, ii: int|
            #[trigger] ff(mm, ii) == coeff_at(a, ii).spec_mul(coeff_at(b, mm - ii)).spec_mul(
                coeff_at(c, k - mm),
            ),
    ensures
        gsum_col(i, j, ff) == coeff_at(a, i).spec_mul(conv_prefix(b, c, k - i, j - i)),
    decreases j,
{
    let ai = coeff_at(a, i);
    if j <= i {
        if j > 0 {
            lemma_col_factor(a, b, c, k, i, j - 1, ff);
            T::lemma_mul_zero(ai);
            lemma_mul_zero_left(coeff_at(c, k - (j - 1)));
            T::lemma_add_zero(gsum_col(i, j - 1, ff));
        } else {
            T::lemma_mul_zero(ai);
        }
    } else {
        lemma_col_factor(a, b, c, k, i, j - 1, ff);
        let t = coeff_at(b, (j - 1) - i).spec_mul(coeff_at(c, (k - i) - ((j - 1) - i)));
        T::lemma_mul_distrib(ai, conv_prefix(b, c, k - i, (j - 1) - i), t);
        T::lemma_mul_assoc(ai, coeff_at(b, (j - 1) - i), coeff_at(c, k - (j - 1)));
    }
}

/// The convolution of `a` with `b·c`, partially summed, is the rectangle
/// summed column by column.
proof fn lemma_right_assoc_cols<T: GaloisField>(
    a: Seq<T>,
    b: Seq<T>,
    c: Seq<T>,
    k: int,
    j: int,
    ff: spec_fn(int, int) -> T,
)
    requires
        0 <= k,
        0 <= j <= k + 1,
        forall|mm: int, ii: int|
            #[trigger] ff(mm, ii) == coeff_at(a, ii).spec_mul(coeff_at(b, mm - ii)).spec_mul(
                coeff_at(c, k - mm),
            ),
    ensures
        conv_prefix(a, mul_seq(b, c), k, j) == gsum_cols(j, k + 1, ff),
    decreases j,
{
    if j > 0 {
        lemma_right_assoc_cols(a, b, c, k, j - 1, ff);
        let i = j - 1;
        lemma_mul_seq_coeff(b, c);
        lemma_col_factor(a, b, c, k, i, k + 1, ff);
    }
}

/// Convolution is associative: `(a·b)·c` and `a·(b·c)` agree at every index.
pub proof fn lemma_conv_assoc<T: GaloisField>(a: Seq<T>, b: Seq<T>, c: Seq<T>, k: int)
    ensures
        conv_at(mul_seq(a, b), c, k) == conv_at(a, mul_seq(b, c), k),
{
    if k >= 0 {
        let ff = |mm: int, ii: int|
            coeff_at(a, ii).spec_mul(coeff_at(b, mm - ii)).spec_mul(coeff_at(c, k - mm));
        lemma_left_assoc_rows(a, b, c, k, k + 1, ff);
        lemma_right_assoc_cols(a, b, c, k, k + 1, ff);
        lemma_gsum_exchange(k + 1, k + 1, ff);
    }
}

} // verus!
