//! Small facts of multiplication that the arithmetic of the solver does not
//! find by itself.

use vstd::prelude::*;

verus! {

/// A product of three factors, however it is bracketed and ordered.
pub(crate) proof fn lemma_mul3(a: int, b: int, c: int)
    by (nonlinear_arith)
    ensures
        a * (b * c) == (a * b) * c,
        a * (b * c) == b * (a * c),
        a * (b * c) == c * (a * b),
{
}

/// Multiplication distributes over sums and differences.
pub(crate) proof fn lemma_dist(a: int, b: int, c: int)
    by (nonlinear_arith)
    ensures
        a * (b - c) == a * b - a * c,
        a * (b + c) == a * b + a * c,
        (b - c) * a == b * a - c * a,
        (b + c) * a == b * a + c * a,
{
}

/// A product with a zero factor is zero.
pub(crate) proof fn lemma_mul_zero(k: int, t: int)
    by (nonlinear_arith)
    requires
        t == 0,
    ensures
        k * t == 0,
        t * k == 0,
{
}

/// The sign of a product from the signs of its factors.
pub(crate) proof fn lemma_sign_product(a: int, b: int)
    by (nonlinear_arith)
    ensures
        a <= 0 && b >= 0 ==> a * b <= 0 && b * a <= 0,
        a <= 0 && b <= 0 ==> a * b >= 0,
        a >= 0 && b >= 0 ==> a * b >= 0,
        a < 0 && b > 0 ==> a * b < 0 && b * a < 0,
        a < 0 && b < 0 ==> a * b > 0,
        a > 0 && b > 0 ==> a * b > 0,
{
}

/// A minus sign moves out of a product.
pub(crate) proof fn lemma_neg_mul(a: int, b: int)
    by (nonlinear_arith)
    ensures
        a * (-b) == -(a * b),
        (-a) * b == -(a * b),
{
}

/// A product with a positive factor is zero only if the other factor is.
pub(crate) proof fn lemma_zero_factor(k: int, m: int)
    by (nonlinear_arith)
    requires
        k * m == 0,
        m > 0,
    ensures
        k == 0,
{
}

/// Squaring keeps the order of numbers from zero on.
pub(crate) proof fn lemma_square_order(a: int, b: int)
    by (nonlinear_arith)
    requires
        0 <= a <= b,
    ensures
        a * a <= b * b,
{
}

/// The square of a product, and the square of a negative.
pub(crate) proof fn lemma_sq_mul(a: int, b: int)
    by (nonlinear_arith)
    ensures
        (a * b) * (a * b) == (a * a) * (b * b),
        (-a) * (-a) == a * a,
{
}

/// Multiplying by a number from zero on keeps an order.
pub(crate) proof fn lemma_mul_le(a: int, b: int, c: int)
    by (nonlinear_arith)
    requires
        a <= b,
        c >= 0,
    ensures
        a * c <= b * c,
        c * a <= c * b,
{
}

/// Multiplying by a positive number keeps a strict order.
pub(crate) proof fn lemma_mul_lt(a: int, b: int, c: int)
    by (nonlinear_arith)
    requires
        a < b,
        c > 0,
    ensures
        a * c < b * c,
        c * a < c * b,
{
}

/// Squaring keeps the strict order of numbers from zero on.
pub(crate) proof fn lemma_square_strict(a: int, b: int)
    by (nonlinear_arith)
    requires
        0 <= a < b,
    ensures
        a * a < b * b,
{
}

/// A product of numbers from zero on is from zero on.
pub(crate) proof fn lemma_nonneg(a: int, b: int)
    by (nonlinear_arith)
    requires
        a >= 0,
        b >= 0,
    ensures
        a * b >= 0,
{
}

/// Multiplication distributes over a sum of three.
pub(crate) proof fn lemma_sum3(k: int, a: int, b: int, c: int)
    by (nonlinear_arith)
    ensures
        k * (a + b + c) == k * a + k * b + k * c,
        (a + b + c) * k == a * k + b * k + c * k,
{
}

/// The square of a successor.
pub(crate) proof fn lemma_square_plus_one(q: int)
    by (nonlinear_arith)
    ensures
        (q + 1) * (q + 1) == q * q + 2 * q + 1,
{
}

/// A product is bounded by the product of the bounds of its factors.
pub(crate) proof fn lemma_product_bound(a: int, b: int, m: int, n: int)
    by (nonlinear_arith)
    requires
        -m <= a <= m,
        -n <= b <= n,
    ensures
        -(m * n) <= a * b <= m * n,
{
}

} // verus!
