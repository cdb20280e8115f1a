//! Small facts of integer multiplication, each proved on its own so that
//! the proofs that use them stay linear.

use vstd::prelude::*;

verus! {

/// A square is not negative, and is zero only of zero.
pub proof fn lemma_square(x: int)
    by (nonlinear_arith)
    ensures
        x * x >= 0,
        x * x == 0 <==> x == 0,
{
}

/// The factors of a product can be regrouped and exchanged.
pub proof fn lemma_swap(a: int, b: int, c: int)
    by (nonlinear_arith)
    ensures
        a * (b * c) == b * (a * c),
        a * (b * c) == (a * b) * c,
        a * b == b * a,
{
}

/// A factor distributes over `x + y - z`.
pub proof fn lemma_three_terms(k: int, x: int, y: int, z: int)
    by (nonlinear_arith)
    ensures
        k * (x + y - z) == k * x + k * y - k * z,
        (x + y - z) * k == x * k + y * k - z * k,
{
}

/// A factor distributes over a sum.
pub proof fn lemma_two_terms(k: int, x: int, y: int)
    by (nonlinear_arith)
    ensures
        k * (x + y) == k * x + k * y,
{
}

/// A factor distributes over a combination of two products.
pub proof fn lemma_mix(k: int, x: int, l: int, y: int, m: int)
    by (nonlinear_arith)
    ensures
        (k * x + l * y) * m == k * (x * m) + l * (y * m),
{
}

/// A sign moves out of a product.
pub proof fn lemma_negated(x: int, y: int)
    by (nonlinear_arith)
    ensures
        (-x) * y == -(x * y),
        x * (-y) == -(x * y),
{
}

/// A product is zero exactly when one of its factors is.
pub proof fn lemma_zero_factor(x: int, y: int)
    by (nonlinear_arith)
    ensures
        x * y == 0 <==> x == 0 || y == 0,
{
}

/// The unit leaves a factor as it is.
pub proof fn lemma_unit(x: int, one: int)
    by (nonlinear_arith)
    requires
        one == 1,
    ensures
        x * one == x,
        one * x == x,
{
}

/// A number between `-bound` and `bound` has a square of at most the
/// square of `bound`.
pub proof fn lemma_square_within(x: int, bound: int)
    by (nonlinear_arith)
    requires
        -bound <= x <= bound,
    ensures
        x * x <= bound * bound,
{
}

} // verus!
