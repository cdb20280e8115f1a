//! The mathematics of a system of equations in two unknowns.
//!
//! A system is a sequence of equations `a0 * u + a1 * v = b`. Everything
//! that the normal equations need of it is held by a handful of sums over
//! its rows, collected in [`Gram`]. A value for the two unknowns is written
//! as [`Ratios`], two fractions with a common denominator.

use crate::arith::{
    lemma_mix, lemma_negated, lemma_square, lemma_swap, lemma_three_terms, lemma_two_terms,
    lemma_zero_factor,
};
use crate::error::SolveError;
use vstd::prelude::*;

verus! {

/// One row of a system: `a0 * u + a1 * v = b`.
pub struct Equation {
    pub a0: int,
    pub a1: int,
    pub b: int,
}

/// A value for the two unknowns: `u = num0 / den` and `v = num1 / den`.
pub struct Ratios {
    pub num0: int,
    pub num1: int,
    pub den: int,
}

/// The products of the columns of a system with one another, summed over
/// its rows. With `A` the two left columns and `b` the right one, the normal
/// matrix `AᵀA` is `[[aa00, aa01], [aa01, aa11]]`, the right-hand side `Aᵀb`
/// is `[ab0, ab1]`, and `bb` is `bᵀb`.
pub struct Gram {
    pub aa00: int,
    pub aa01: int,
    pub aa11: int,
    pub ab0: int,
    pub ab1: int,
    pub bb: int,
}

/// The sums of a system without rows.
pub open spec fn gram_zero() -> Gram {
    Gram { aa00: 0, aa01: 0, aa11: 0, ab0: 0, ab1: 0, bb: 0 }
}

/// The sums `g` with the products of one more row added.
pub open spec fn gram_add(g: Gram, r: Equation) -> Gram {
    Gram {
        aa00: g.aa00 + r.a0 * r.a0,
        aa01: g.aa01 + r.a0 * r.a1,
        aa11: g.aa11 + r.a1 * r.a1,
        ab0: g.ab0 + r.a0 * r.b,
        ab1: g.ab1 + r.a1 * r.b,
        bb: g.bb + r.b * r.b,
    }
}

/// The sums of a system.
pub open spec fn gram(rows: Seq<Equation>) -> Gram
    decreases rows.len(),
{
    if rows.len() == 0 {
        gram_zero()
    } else {
        gram_add(gram(rows.drop_last()), rows.last())
    }
}

/// The determinant of the normal matrix.
pub open spec fn det(g: Gram) -> int {
    g.aa00 * g.aa11 - g.aa01 * g.aa01
}

/// The solution of the normal equations by Cramer's rule, with the
/// determinant as its denominator. It is a value for the unknowns only
/// where the determinant is not zero.
pub open spec fn cramer(g: Gram) -> Ratios {
    Ratios {
        num0: g.ab0 * g.aa11 - g.ab1 * g.aa01,
        num1: g.aa00 * g.ab1 - g.aa01 * g.ab0,
        den: det(g),
    }
}

/// What solving the normal equations of a system gives: Cramer's solution
/// where the determinant is not zero, and a failure where it is.
pub open spec fn least_squares(rows: Seq<Equation>) -> Result<Ratios, SolveError> {
    if det(gram(rows)) == 0 {
        Err(SolveError::SingularSystem)
    } else {
        Ok(cramer(gram(rows)))
    }
}

/// By how much the value `x` misses the row `r`, times the denominator of
/// `x`.
pub open spec fn residual(r: Equation, x: Ratios) -> int {
    x.num0 * r.a0 + x.num1 * r.a1 - x.den * r.b
}

/// The sum of the squared residuals of `x` over the rows, times the square
/// of the denominator of `x`.
pub open spec fn rss(rows: Seq<Equation>, x: Ratios) -> int
    decreases rows.len(),
{
    if rows.len() == 0 {
        0
    } else {
        rss(rows.drop_last(), x) + residual(rows.last(), x) * residual(rows.last(), x)
    }
}

/// The sum over the rows of `a0` times the residual of `x`, written over
/// the sums of the system.
pub open spec fn moment0(g: Gram, x: Ratios) -> int {
    x.num0 * g.aa00 + x.num1 * g.aa01 - x.den * g.ab0
}

/// The sum over the rows of `a1` times the residual of `x`.
pub open spec fn moment1(g: Gram, x: Ratios) -> int {
    x.num0 * g.aa01 + x.num1 * g.aa11 - x.den * g.ab1
}

/// The sum over the rows of `b` times the residual of `x`.
pub open spec fn moment2(g: Gram, x: Ratios) -> int {
    x.num0 * g.ab0 + x.num1 * g.ab1 - x.den * g.bb
}

/// The sum over the rows of the residual of `x` times the residual of `y`,
/// written over the sums of the system.
pub open spec fn product(g: Gram, x: Ratios, y: Ratios) -> int {
    x.num0 * moment0(g, y) + x.num1 * moment1(g, y) - x.den * moment2(g, y)
}

/// `k * x + l * y`, component by component.
pub open spec fn combination(k: int, x: Ratios, l: int, y: Ratios) -> Ratios {
    Ratios {
        num0: k * x.num0 + l * y.num0,
        num1: k * x.num1 + l * y.num1,
        den: k * x.den + l * y.den,
    }
}

/// A sum of squares is not negative.
pub proof fn lemma_rss_nonnegative(rows: Seq<Equation>, x: Ratios)
    ensures
        rss(rows, x) >= 0,
    decreases rows.len(),
{
    if rows.len() > 0 {
        lemma_rss_nonnegative(rows.drop_last(), x);
        lemma_square(residual(rows.last(), x));
    }
}

/// A sum of squares is zero exactly when every one of them is.
pub proof fn lemma_rss_zero(rows: Seq<Equation>, x: Ratios)
    ensures
        rss(rows, x) == 0 <==> forall|i: int|
            0 <= i < rows.len() ==> residual(#[trigger] rows[i], x) == 0,
    decreases rows.len(),
{
    if rows.len() > 0 {
        let front = rows.drop_last();
        lemma_rss_zero(front, x);
        lemma_rss_nonnegative(front, x);
        lemma_square(residual(rows.last(), x));
        if rss(rows, x) == 0 {
            assert forall|i: int| 0 <= i < rows.len() implies residual(#[trigger] rows[i], x)
                == 0 by {
                if i < rows.len() - 1 {
                    assert(rows[i] == front[i]);
                }
            }
        }
        if forall|i: int| 0 <= i < rows.len() ==> residual(#[trigger] rows[i], x) == 0 {
            assert forall|i: int| 0 <= i < front.len() implies residual(#[trigger] front[i], x)
                == 0 by {
                assert(front[i] == rows[i]);
            }
            assert(residual(rows[rows.len() - 1], x) == 0);
        }
    }
}

/// What one more row adds to the three moments of `y`.
proof fn lemma_moments_step(g: Gram, r: Equation, y: Ratios)
    ensures
        moment0(gram_add(g, r), y) == moment0(g, y) + r.a0 * residual(r, y),
        moment1(gram_add(g, r), y) == moment1(g, y) + r.a1 * residual(r, y),
        moment2(gram_add(g, r), y) == moment2(g, y) + r.b * residual(r, y),
{
    lemma_three_terms(r.a0, y.num0 * r.a0, y.num1 * r.a1, y.den * r.b);
    lemma_three_terms(r.a1, y.num0 * r.a0, y.num1 * r.a1, y.den * r.b);
    lemma_three_terms(r.b, y.num0 * r.a0, y.num1 * r.a1, y.den * r.b);
    lemma_two_terms(y.num0, g.aa00, r.a0 * r.a0);
    lemma_two_terms(y.num1, g.aa01, r.a0 * r.a1);
    lemma_two_terms(y.den, g.ab0, r.a0 * r.b);
    lemma_two_terms(y.num0, g.aa01, r.a0 * r.a1);
    lemma_two_terms(y.num1, g.aa11, r.a1 * r.a1);
    lemma_two_terms(y.den, g.ab1, r.a1 * r.b);
    lemma_two_terms(y.num0, g.ab0, r.a0 * r.b);
    lemma_two_terms(y.num1, g.ab1, r.a1 * r.b);
    lemma_two_terms(y.den, g.bb, r.b * r.b);
    lemma_swap(r.a0, y.num0, r.a0);
    lemma_swap(r.a0, y.num1, r.a1);
    lemma_swap(r.a0, y.den, r.b);
    lemma_swap(r.a1, y.num0, r.a0);
    lemma_swap(r.a1, y.num1, r.a1);
    lemma_swap(r.a1, y.den, r.b);
    lemma_swap(r.b, y.num0, r.a0);
    lemma_swap(r.b, y.num1, r.a1);
    lemma_swap(r.b, y.den, r.b);
}

/// What one more row adds to the product of two residuals.
proof fn lemma_product_step(g: Gram, r: Equation, x: Ratios, y: Ratios)
    ensures
        product(gram_add(g, r), x, y) == product(g, x, y) + residual(r, x) * residual(r, y),
{
    lemma_moments_step(g, r, y);
    let t = residual(r, y);
    lemma_two_terms(x.num0, moment0(g, y), r.a0 * t);
    lemma_two_terms(x.num1, moment1(g, y), r.a1 * t);
    lemma_two_terms(x.den, moment2(g, y), r.b * t);
    lemma_swap(x.num0, r.a0, t);
    lemma_swap(x.num1, r.a1, t);
    lemma_swap(x.den, r.b, t);
    lemma_three_terms(t, x.num0 * r.a0, x.num1 * r.a1, x.den * r.b);
}

/// The sum of squared residuals depends on the rows through their sums
/// alone.
pub proof fn lemma_rss_is_product(rows: Seq<Equation>, x: Ratios)
    ensures
        rss(rows, x) == product(gram(rows), x, x),
    decreases rows.len(),
{
    if rows.len() > 0 {
        lemma_rss_is_product(rows.drop_last(), x);
        lemma_product_step(gram(rows.drop_last()), rows.last(), x, x);
    }
}

/// The product of two residuals does not depend on their order.
pub proof fn lemma_product_symmetric(rows: Seq<Equation>, x: Ratios, y: Ratios)
    ensures
        product(gram(rows), x, y) == product(gram(rows), y, x),
    decreases rows.len(),
{
    if rows.len() > 0 {
        lemma_product_symmetric(rows.drop_last(), x, y);
        lemma_product_step(gram(rows.drop_last()), rows.last(), x, y);
        lemma_product_step(gram(rows.drop_last()), rows.last(), y, x);
    }
}

/// The product of two residuals is linear in the first of them.
pub proof fn lemma_product_linear(g: Gram, k: int, x: Ratios, l: int, y: Ratios, z: Ratios)
    ensures
        product(g, combination(k, x, l, y), z) == k * product(g, x, z) + l * product(g, y, z),
{
    lemma_mix(k, x.num0, l, y.num0, moment0(g, z));
    lemma_mix(k, x.num1, l, y.num1, moment1(g, z));
    lemma_mix(k, x.den, l, y.den, moment2(g, z));
    lemma_three_terms(
        k,
        x.num0 * moment0(g, z),
        x.num1 * moment1(g, z),
        x.den * moment2(g, z),
    );
    lemma_three_terms(
        l,
        y.num0 * moment0(g, z),
        y.num1 * moment1(g, z),
        y.den * moment2(g, z),
    );
}

/// The normal equations: the residual of Cramer's solution is orthogonal to
/// both columns of the system.
pub proof fn lemma_normal_equations(g: Gram)
    ensures
        moment0(g, cramer(g)) == 0,
        moment1(g, cramer(g)) == 0,
{
    lemma_three_terms(g.aa00, g.ab0 * g.aa11, 0, g.ab1 * g.aa01);
    lemma_three_terms(g.aa01, g.aa00 * g.ab1, 0, g.aa01 * g.ab0);
    lemma_three_terms(g.ab0, g.aa00 * g.aa11, 0, g.aa01 * g.aa01);
    lemma_swap(g.ab0, g.aa11, g.aa00);
    lemma_swap(g.ab1, g.aa01, g.aa00);
    lemma_swap(g.aa01, g.ab0, g.aa01);

    lemma_three_terms(g.aa01, g.ab0 * g.aa11, 0, g.ab1 * g.aa01);
    lemma_three_terms(g.aa11, g.aa00 * g.ab1, 0, g.aa01 * g.ab0);
    lemma_three_terms(g.ab1, g.aa00 * g.aa11, 0, g.aa01 * g.aa01);
    lemma_swap(g.ab0, g.aa11, g.aa01);
    lemma_swap(g.ab1, g.aa01, g.aa01);
    lemma_swap(g.aa00, g.ab1, g.aa11);
}

/// By how much `x` differs from Cramer's solution, as a direction: the
/// difference of the two values, times both denominators.
pub open spec fn gap(g: Gram, x: Ratios) -> Ratios {
    Ratios {
        num0: det(g) * x.num0 - x.den * cramer(g).num0,
        num1: det(g) * x.num1 - x.den * cramer(g).num1,
        den: 0,
    }
}

/// The squared residuals of any value `x` are those of Cramer's solution
/// and those of the difference between the two, each on the scale of the
/// other's denominator.
pub proof fn lemma_decomposition(rows: Seq<Equation>, x: Ratios)
    ensures
        det(gram(rows)) * det(gram(rows)) * rss(rows, x) == x.den * x.den * rss(
            rows,
            cramer(gram(rows)),
        ) + rss(rows, gap(gram(rows), x)),
{
    let g = gram(rows);
    let best = cramer(g);
    let d = det(g);
    let e = x.den;
    let diff = gap(g, x);
    let scaled = combination(d, x, 0, x);
    assert(scaled == combination(e, best, 1, diff)) by {
        lemma_swap(d, e, 1);
    }
    // On the one hand the residuals of `scaled` are those of `x`, times `d`.
    lemma_product_linear(g, d, x, 0, x, scaled);
    lemma_product_symmetric(rows, x, scaled);
    lemma_product_linear(g, d, x, 0, x, x);
    // On the other hand they are those of `best` times `e`, plus those of `diff`.
    lemma_product_linear(g, e, best, 1, diff, scaled);
    lemma_product_symmetric(rows, best, scaled);
    lemma_product_symmetric(rows, diff, scaled);
    lemma_product_linear(g, e, best, 1, diff, best);
    lemma_product_linear(g, e, best, 1, diff, diff);
    // The two parts are orthogonal to each other.
    lemma_normal_equations(g);
    assert(product(g, diff, best) == 0);
    lemma_product_symmetric(rows, best, diff);
    lemma_rss_is_product(rows, x);
    lemma_rss_is_product(rows, best);
    lemma_rss_is_product(rows, diff);
    assert(product(g, scaled, scaled) == d * (d * rss(rows, x)));
    assert(product(g, scaled, scaled) == e * (e * rss(rows, best)) + rss(rows, diff)) by {
        lemma_two_terms(e, e * rss(rows, best), 0);
    }
    lemma_swap(d, d, rss(rows, x));
    lemma_swap(e, e, rss(rows, best));
}

/// A direction in the plane of the unknowns: a value with denominator
/// zero, whose residual is `num0 * a0 + num1 * a1`.
pub open spec fn direction(num0: int, num1: int) -> Ratios {
    Ratios { num0, num1, den: 0 }
}

/// Every row vanishes along the direction `w`: the two columns of the
/// system are multiples of each other by the weights of `w`.
pub open spec fn vanishes_along(rows: Seq<Equation>, w: Ratios) -> bool {
    forall|i: int| 0 <= i < rows.len() ==> residual(#[trigger] rows[i], w) == 0
}

/// Where every residual of `x` is zero, so are its moments.
proof fn lemma_moments_of_exact(rows: Seq<Equation>, x: Ratios)
    requires
        forall|i: int| 0 <= i < rows.len() ==> residual(#[trigger] rows[i], x) == 0,
    ensures
        moment0(gram(rows), x) == 0,
        moment1(gram(rows), x) == 0,
        moment2(gram(rows), x) == 0,
    decreases rows.len(),
{
    if rows.len() > 0 {
        let front = rows.drop_last();
        assert forall|i: int| 0 <= i < front.len() implies residual(#[trigger] front[i], x)
            == 0 by {
            assert(front[i] == rows[i]);
        }
        lemma_moments_of_exact(front, x);
        lemma_moments_step(gram(front), rows.last(), x);
        assert(residual(rows[rows.len() - 1], x) == 0);
    }
}

/// The squared residuals of a direction, written over the sums of the
/// system.
proof fn lemma_rss_of_direction(rows: Seq<Equation>, a: int, b: int)
    ensures
        rss(rows, direction(a, b)) == a * a * gram(rows).aa00 + 2 * (a * b * gram(rows).aa01) + b
            * b * gram(rows).aa11,
{
    let g = gram(rows);
    let w = direction(a, b);
    lemma_rss_is_product(rows, w);
    lemma_zero_factor(w.den, g.ab0);
    lemma_zero_factor(w.den, g.ab1);
    lemma_zero_factor(w.den, g.bb);
    lemma_zero_factor(w.den, moment2(g, w));
    lemma_two_terms(a, a * g.aa00, b * g.aa01);
    lemma_two_terms(b, a * g.aa01, b * g.aa11);
    lemma_swap(a, a, g.aa00);
    lemma_swap(a, b, g.aa01);
    lemma_swap(b, b, g.aa11);
}

/// The squared length of each column, once the part along the other one is
/// taken off, is the determinant times a diagonal entry.
proof fn lemma_det_as_rss(rows: Seq<Equation>)
    ensures
        rss(rows, direction(gram(rows).aa11, -gram(rows).aa01)) == gram(rows).aa11 * det(
            gram(rows),
        ),
        rss(rows, direction(-gram(rows).aa01, gram(rows).aa00)) == gram(rows).aa00 * det(
            gram(rows),
        ),
{
    let g = gram(rows);
    lemma_rss_of_direction(rows, g.aa11, -g.aa01);
    lemma_rss_of_direction(rows, -g.aa01, g.aa00);
    assert(g.aa11 * g.aa11 * g.aa00 + 2 * (g.aa11 * (-g.aa01) * g.aa01) + (-g.aa01) * (-g.aa01)
        * g.aa11 == g.aa11 * (g.aa00 * g.aa11 - g.aa01 * g.aa01)) by (nonlinear_arith);
    assert((-g.aa01) * (-g.aa01) * g.aa00 + 2 * ((-g.aa01) * g.aa00 * g.aa01) + g.aa00 * g.aa00
        * g.aa11 == g.aa00 * (g.aa00 * g.aa11 - g.aa01 * g.aa01)) by (nonlinear_arith);
}

/// The determinant of a normal matrix is never negative (the inequality of
/// Cauchy and Schwarz).
pub proof fn lemma_det_nonnegative(rows: Seq<Equation>)
    ensures
        det(gram(rows)) >= 0,
{
    let g = gram(rows);
    lemma_det_as_rss(rows);
    lemma_rss_nonnegative(rows, direction(g.aa11, -g.aa01));
    lemma_rss_nonnegative(rows, direction(-g.aa01, g.aa00));
    lemma_rss_of_direction(rows, 1, 0);
    lemma_rss_of_direction(rows, 0, 1);
    lemma_rss_of_direction(rows, 1, 1);
    lemma_rss_of_direction(rows, 1, -1);
    lemma_rss_nonnegative(rows, direction(1, 0));
    lemma_rss_nonnegative(rows, direction(0, 1));
    lemma_rss_nonnegative(rows, direction(1, 1));
    lemma_rss_nonnegative(rows, direction(1, -1));
    if g.aa11 > 0 {
        assert(det(g) >= 0) by (nonlinear_arith)
            requires
                g.aa11 > 0,
                g.aa11 * det(g) >= 0,
        ;
    } else if g.aa00 > 0 {
        assert(det(g) >= 0) by (nonlinear_arith)
            requires
                g.aa00 > 0,
                g.aa00 * det(g) >= 0,
        ;
    } else {
        assert(g.aa01 == 0);
        assert(det(g) == 0) by (nonlinear_arith)
            requires
                g.aa00 == 0,
                g.aa11 == 0,
                g.aa01 == 0,
                det(g) == g.aa00 * g.aa11 - g.aa01 * g.aa01,
        ;
    }
}

/// Where the rows vanish along a direction that is not zero, the
/// determinant is zero.
pub proof fn lemma_dependent_is_singular(rows: Seq<Equation>, w: Ratios)
    requires
        w.den == 0,
        w.num0 != 0 || w.num1 != 0,
        vanishes_along(rows, w),
    ensures
        det(gram(rows)) == 0,
{
    let g = gram(rows);
    let d = det(g);
    lemma_moments_of_exact(rows, w);
    lemma_zero_factor(w.den, g.ab0);
    lemma_zero_factor(w.den, g.ab1);
    // From `num0 * aa00 == -(num1 * aa01)` and `num0 * aa01 == -(num1 * aa11)`.
    lemma_three_terms(w.num0, g.aa00 * g.aa11, 0, g.aa01 * g.aa01);
    lemma_swap(w.num0, g.aa00, g.aa11);
    lemma_swap(w.num0, g.aa01, g.aa01);
    lemma_negated(w.num1 * g.aa01, g.aa11);
    lemma_negated(w.num1 * g.aa11, g.aa01);
    lemma_swap(w.num1, g.aa01, g.aa11);
    assert(w.num0 * d == 0);
    lemma_three_terms(w.num1, g.aa00 * g.aa11, 0, g.aa01 * g.aa01);
    lemma_swap(w.num1, g.aa00, g.aa11);
    lemma_swap(w.num1, g.aa01, g.aa01);
    lemma_negated(g.aa00, w.num0 * g.aa01);
    lemma_negated(g.aa01, w.num0 * g.aa00);
    lemma_swap(g.aa00, w.num0, g.aa01);
    assert(w.num1 * d == 0);
    lemma_zero_factor(w.num0, d);
    lemma_zero_factor(w.num1, d);
}

/// Where the determinant is zero, the rows vanish along some direction
/// that is not zero.
pub proof fn lemma_singular_is_dependent(rows: Seq<Equation>) -> (w: Ratios)
    requires
        det(gram(rows)) == 0,
    ensures
        w.den == 0,
        w.num0 != 0 || w.num1 != 0,
        vanishes_along(rows, w),
{
    let g = gram(rows);
    lemma_det_as_rss(rows);
    lemma_rss_of_direction(rows, 0, 1);
    let w = if g.aa11 != 0 || g.aa01 != 0 {
        direction(g.aa11, -g.aa01)
    } else {
        direction(0, 1)
    };
    assert(g.aa11 * det(g) == 0) by (nonlinear_arith)
        requires
            det(g) == 0,
    ;
    lemma_rss_zero(rows, w);
    w
}

/// Adding two rows to the sums gives the same in either order.
proof fn lemma_gram_add_commutes(g: Gram, r: Equation, t: Equation)
    ensures
        gram_add(gram_add(g, r), t) == gram_add(gram_add(g, t), r),
{
}

/// The sums of a system are those of the system without its row `j`, with
/// the products of that row added.
proof fn lemma_gram_remove(rows: Seq<Equation>, j: int)
    requires
        0 <= j < rows.len(),
    ensures
        gram(rows) == gram_add(gram(rows.remove(j)), rows[j]),
    decreases rows.len(),
{
    if j == rows.len() - 1 {
        assert(rows.remove(j) =~= rows.drop_last());
    } else {
        let front = rows.drop_last();
        lemma_gram_remove(front, j);
        assert(rows.remove(j).drop_last() =~= front.remove(j));
        assert(rows.remove(j).last() == rows.last());
        lemma_gram_add_commutes(gram(front.remove(j)), rows[j], rows.last());
    }
}

/// The sums of a system do not depend on the order of its rows.
pub proof fn lemma_gram_of_permutation(rows: Seq<Equation>, other: Seq<Equation>)
    requires
        rows.to_multiset() =~= other.to_multiset(),
    ensures
        gram(rows) == gram(other),
    decreases rows.len(),
{
    broadcast use vstd::seq_lib::group_to_multiset_ensures;

    assert(rows.len() == other.len()) by {
        assert(rows.to_multiset().len() == rows.len());
        assert(other.to_multiset().len() == other.len());
    }
    if rows.len() > 0 {
        let last = rows.last();
        assert(rows.contains(last));
        assert(other.to_multiset().count(last) > 0);
        assert(other.contains(last));
        let j = choose|j: int| 0 <= j < other.len() && other[j] == last;
        assert(rows.remove(rows.len() - 1) =~= rows.drop_last());
        assert(rows.drop_last().to_multiset() =~= other.remove(j).to_multiset());
        lemma_gram_of_permutation(rows.drop_last(), other.remove(j));
        lemma_gram_remove(other, j);
    }
}

/// `perm` lists each of the positions `0 .. n` once.
pub open spec fn is_reordering(perm: Seq<int>, n: nat) -> bool {
    &&& perm.len() == n
    &&& forall|i: int| 0 <= i < n ==> 0 <= #[trigger] perm[i] < n
    &&& forall|i: int, j: int| 0 <= i < j < n ==> #[trigger] perm[i] != #[trigger] perm[j]
}

/// The items of `s` in the order that `perm` lists their positions in.
pub open spec fn reordered<A>(s: Seq<A>, perm: Seq<int>) -> Seq<A> {
    Seq::new(perm.len(), |i: int| s[perm[i]])
}

/// The sums of a system do not change when its rows are reordered.
pub proof fn lemma_gram_of_reordering(rows: Seq<Equation>, perm: Seq<int>)
    requires
        is_reordering(perm, rows.len()),
    ensures
        gram(reordered(rows, perm)) == gram(rows),
    decreases rows.len(),
{
    let n = rows.len() as int;
    let other = reordered(rows, perm);
    if n > 0 {
        // The last row of the reordered system sits at `p` in the system. Without
        // it, the positions behind `p` move up by one.
        let p = perm[n - 1];
        let rest = Seq::new(
            (n - 1) as nat,
            |i: int|
                if perm[i] < p {
                    perm[i]
                } else {
                    perm[i] - 1
                },
        );
        assert forall|i: int| 0 <= i < n - 1 implies perm[i] != p && 0 <= #[trigger] rest[i] < n
            - 1 by {
            assert(perm[i] != perm[n - 1]);
        }
        assert forall|i: int, j: int| 0 <= i < j < n - 1 implies #[trigger] rest[i]
            != #[trigger] rest[j] by {
            assert(perm[i] != perm[j]);
            assert(perm[i] != perm[n - 1]);
            assert(perm[j] != perm[n - 1]);
        }
        assert(other.drop_last() =~= reordered(rows.remove(p), rest)) by {
            assert forall|i: int| 0 <= i < n - 1 implies other[i] == rows.remove(p)[rest[i]] by {
                assert(perm[i] != perm[n - 1]);
            }
        }
        lemma_gram_of_reordering(rows.remove(p), rest);
        lemma_gram_remove(rows, p);
        assert(other.last() == rows[p]);
    } else {
        assert(other =~= rows);
    }
}

/// The sum of the squares of all entries of a system.
pub open spec fn weight(rows: Seq<Equation>) -> int {
    gram(rows).aa00 + gram(rows).aa11 + gram(rows).bb
}

/// Twice a product is at most the sum of the two squares.
proof fn lemma_product_below_squares(x: int, y: int)
    by (nonlinear_arith)
    ensures
        -(x * x + y * y) <= 2 * (x * y) <= x * x + y * y,
        0 <= x * x,
        0 <= y * y,
{
}

/// The sums of squares of a system are not negative, and twice a sum of
/// products is at most the two sums of squares of its columns.
pub proof fn lemma_gram_bounded(rows: Seq<Equation>)
    ensures
        0 <= gram(rows).aa00,
        0 <= gram(rows).aa11,
        0 <= gram(rows).bb,
        -(gram(rows).aa00 + gram(rows).aa11) <= 2 * gram(rows).aa01 <= gram(rows).aa00 + gram(
            rows,
        ).aa11,
        -(gram(rows).aa00 + gram(rows).bb) <= 2 * gram(rows).ab0 <= gram(rows).aa00 + gram(
            rows,
        ).bb,
        -(gram(rows).aa11 + gram(rows).bb) <= 2 * gram(rows).ab1 <= gram(rows).aa11 + gram(
            rows,
        ).bb,
    decreases rows.len(),
{
    if rows.len() > 0 {
        let r = rows.last();
        lemma_gram_bounded(rows.drop_last());
        lemma_product_below_squares(r.a0, r.a1);
        lemma_product_below_squares(r.a0, r.b);
        lemma_product_below_squares(r.a1, r.b);
    }
}

/// The sums of squares of the first `n` rows are at most those of all
/// rows.
pub proof fn lemma_gram_of_prefix(rows: Seq<Equation>, n: int)
    requires
        0 <= n <= rows.len(),
    ensures
        gram(rows.take(n)).aa00 <= gram(rows).aa00,
        gram(rows.take(n)).aa11 <= gram(rows).aa11,
        gram(rows.take(n)).bb <= gram(rows).bb,
    decreases rows.len(),
{
    if n == rows.len() {
        assert(rows.take(n) =~= rows);
    } else {
        let r = rows.last();
        assert(rows.drop_last().take(n) =~= rows.take(n));
        lemma_gram_of_prefix(rows.drop_last(), n);
        lemma_product_below_squares(r.a0, r.a1);
        lemma_product_below_squares(r.b, r.b);
    }
}

} // verus!
