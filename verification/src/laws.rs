//! What holds of every least-squares solution.
//!
//! Each law is stated over the mathematical model of a system, a sequence
//! of [`Equation`]s, and over the result that the solver is specified to
//! return for it. Sums of squared residuals of two values are compared
//! after each is brought to the scale of the other's denominator.

use crate::arith::{
    lemma_square_within, lemma_swap, lemma_two_terms, lemma_unit, lemma_zero_factor,
};
use crate::error::SolveError;
use crate::gram::{
    cramer, det, direction, gap, gram, is_reordering, least_squares, lemma_decomposition,
    lemma_dependent_is_singular, lemma_gram_of_permutation, lemma_gram_of_reordering,
    lemma_normal_equations, lemma_rss_nonnegative, lemma_rss_zero, lemma_singular_is_dependent,
    reordered, residual, rss, vanishes_along, weight, Equation, Ratios,
};
use crate::solver::{fit_spec, line_rows};
use vstd::prelude::*;

verus! {

/// The two values are the same pair of fractions.
pub open spec fn same_value(x: Ratios, y: Ratios) -> bool {
    &&& x.num0 * y.den == y.num0 * x.den
    &&& x.num1 * y.den == y.num1 * x.den
}

/// The solution solves the normal equations `(AᵀA) x = Aᵀb`, each side
/// taken times the denominator of the solution.
pub proof fn law_solution_meets_normal_equations(rows: Seq<Equation>)
    requires
        least_squares(rows) is Ok,
    ensures
        ({
            let g = gram(rows);
            let best = least_squares(rows)->Ok_0;
            &&& best.den != 0
            &&& g.aa00 * best.num0 + g.aa01 * best.num1 == g.ab0 * best.den
            &&& g.aa01 * best.num0 + g.aa11 * best.num1 == g.ab1 * best.den
        }),
{
    let g = gram(rows);
    let best = cramer(g);
    lemma_normal_equations(g);
    lemma_swap(g.aa00, best.num0, 1);
    lemma_swap(g.aa01, best.num1, 1);
    lemma_swap(g.ab0, best.den, 1);
    lemma_swap(g.aa01, best.num0, 1);
    lemma_swap(g.aa11, best.num1, 1);
    lemma_swap(g.ab1, best.den, 1);
}

/// The solution of the normal equations is a least-squares minimiser: no
/// value for the unknowns has a smaller sum of squared residuals.
pub proof fn law_solution_is_minimal(rows: Seq<Equation>, x: Ratios)
    requires
        least_squares(rows) is Ok,
        x.den != 0,
    ensures
        ({
            let best = least_squares(rows)->Ok_0;
            rss(rows, best) * (x.den * x.den) <= rss(rows, x) * (best.den * best.den)
        }),
{
    let best = cramer(gram(rows));
    lemma_decomposition(rows, x);
    lemma_rss_nonnegative(rows, gap(gram(rows), x));
    lemma_swap(x.den * x.den, rss(rows, best), 1);
    lemma_swap(best.den * best.den, rss(rows, x), 1);
}

/// The least-squares minimiser is unique: a value whose sum of squared
/// residuals is not larger than that of the solution is the solution.
pub proof fn law_minimum_is_unique(rows: Seq<Equation>, x: Ratios)
    requires
        least_squares(rows) is Ok,
        x.den != 0,
        ({
            let best = least_squares(rows)->Ok_0;
            rss(rows, x) * (best.den * best.den) <= rss(rows, best) * (x.den * x.den)
        }),
    ensures
        same_value(x, least_squares(rows)->Ok_0),
{
    let g = gram(rows);
    let best = cramer(g);
    let diff = gap(g, x);
    lemma_decomposition(rows, x);
    lemma_rss_nonnegative(rows, diff);
    lemma_swap(x.den * x.den, rss(rows, best), 1);
    lemma_swap(best.den * best.den, rss(rows, x), 1);
    assert(rss(rows, diff) == 0);
    lemma_rss_zero(rows, diff);
    if diff.num0 != 0 || diff.num1 != 0 {
        lemma_dependent_is_singular(rows, diff);
    }
    lemma_swap(det(g), x.num0, 1);
    lemma_swap(det(g), x.num1, 1);
    lemma_swap(x.den, best.num0, 1);
    lemma_swap(x.den, best.num1, 1);
}

/// Data that some value meets exactly is met exactly by the solution, and
/// the solution is that value.
pub proof fn law_exact_data_is_recovered(rows: Seq<Equation>, x: Ratios)
    requires
        least_squares(rows) is Ok,
        x.den != 0,
        forall|i: int| 0 <= i < rows.len() ==> residual(#[trigger] rows[i], x) == 0,
    ensures
        same_value(x, least_squares(rows)->Ok_0),
        forall|i: int|
            0 <= i < rows.len() ==> residual(#[trigger] rows[i], least_squares(rows)->Ok_0) == 0,
{
    let g = gram(rows);
    let best = cramer(g);
    lemma_rss_zero(rows, x);
    lemma_rss_nonnegative(rows, best);
    lemma_zero_factor(rss(rows, x), best.den * best.den);
    law_solution_is_minimal(rows, x);
    lemma_zero_factor(x.den, x.den);
    assert(rss(rows, best) == 0) by (nonlinear_arith)
        requires
            rss(rows, best) >= 0,
            x.den * x.den != 0,
            rss(rows, best) * (x.den * x.den) <= 0,
    ;
    lemma_rss_zero(rows, best);
    lemma_zero_factor(rss(rows, best), x.den * x.den);
    law_minimum_is_unique(rows, x);
}

/// The result does not depend on the order of the rows: two systems that
/// hold the same rows, each as often as the other, have the same solution
/// or fail alike.
pub proof fn law_order_is_irrelevant(rows: Seq<Equation>, other: Seq<Equation>)
    requires
        rows.to_multiset() =~= other.to_multiset(),
    ensures
        least_squares(rows) == least_squares(other),
{
    lemma_gram_of_permutation(rows, other);
}

/// Reordering the observations, each `x` together with its `y`, does not
/// change the fitted line: two sets of observations that hold the same
/// pairs, each as often as the other, give the same result.
pub proof fn law_line_order_is_irrelevant(
    xs: Seq<int>,
    ys: Seq<int>,
    other_xs: Seq<int>,
    other_ys: Seq<int>,
)
    requires
        xs.len() == ys.len(),
        other_xs.len() == other_ys.len(),
        line_rows(xs, ys).to_multiset() =~= line_rows(other_xs, other_ys).to_multiset(),
    ensures
        fit_spec(xs, ys) == fit_spec(other_xs, other_ys),
{
    let rows = line_rows(xs, ys);
    let other = line_rows(other_xs, other_ys);
    assert(rows.len() == other.len()) by {
        rows.to_multiset_ensures();
        other.to_multiset_ensures();
    }
    lemma_gram_of_permutation(rows, other);
}

/// Reordering the rows of a system does not change its solution.
pub proof fn law_reordering_is_irrelevant(rows: Seq<Equation>, perm: Seq<int>)
    requires
        is_reordering(perm, rows.len()),
    ensures
        least_squares(reordered(rows, perm)) == least_squares(rows),
{
    lemma_gram_of_reordering(rows, perm);
}

/// Reordering the observations, the `xs` and the `ys` alike, does not
/// change the fitted line.
pub proof fn law_line_reordering_is_irrelevant(xs: Seq<int>, ys: Seq<int>, perm: Seq<int>)
    requires
        xs.len() == ys.len(),
        is_reordering(perm, xs.len()),
    ensures
        fit_spec(reordered(xs, perm), reordered(ys, perm)) == fit_spec(xs, ys),
{
    assert(line_rows(reordered(xs, perm), reordered(ys, perm)) =~= reordered(
        line_rows(xs, ys),
        perm,
    ));
    lemma_gram_of_reordering(line_rows(xs, ys), perm);
}

/// The normal equations have no solution exactly when the two columns of
/// the system are multiples of each other: some weights, not both zero,
/// make `a * a0 + b * a1` vanish in every row.
pub proof fn law_singular_iff_dependent(rows: Seq<Equation>)
    ensures
        least_squares(rows) == Err::<Ratios, SolveError>(SolveError::SingularSystem)
            <==> exists|a: int, b: int|
            (a != 0 || b != 0) && #[trigger] vanishes_along(rows, direction(a, b)),
{
    if det(gram(rows)) == 0 {
        let w = lemma_singular_is_dependent(rows);
        assert(w == direction(w.num0, w.num1));
        assert((w.num0 != 0 || w.num1 != 0) && vanishes_along(rows, direction(w.num0, w.num1)));
    }
    if exists|a: int, b: int|
        (a != 0 || b != 0) && #[trigger] vanishes_along(rows, direction(a, b)) {
        let (a, b) = choose|a: int, b: int|
            (a != 0 || b != 0) && #[trigger] vanishes_along(rows, direction(a, b));
        lemma_dependent_is_singular(rows, direction(a, b));
    }
}

/// No line is fitted exactly when every observation has the same `x`.
pub proof fn law_line_is_singular_iff_x_is_constant(xs: Seq<int>, ys: Seq<int>)
    requires
        xs.len() == ys.len(),
        xs.len() >= 1,
    ensures
        fit_spec(xs, ys) == Err::<Ratios, SolveError>(SolveError::SingularSystem) <==> forall|
            i: int,
            j: int,
        |
            0 <= i < xs.len() && 0 <= j < xs.len() ==> xs[i] == xs[j],
{
    let rows = line_rows(xs, ys);
    if forall|i: int, j: int| 0 <= i < xs.len() && 0 <= j < xs.len() ==> xs[i] == xs[j] {
        let w = direction(1, -xs[0]);
        assert forall|i: int| 0 <= i < rows.len() implies residual(#[trigger] rows[i], w)
            == 0 by {
            lemma_unit(rows[i].a0, w.num0);
            lemma_unit(w.num1, rows[i].a1);
            lemma_zero_factor(w.den, rows[i].b);
            assert(xs[i] == xs[0]);
        }
        lemma_dependent_is_singular(rows, w);
    }
    if det(gram(rows)) == 0 {
        let w = lemma_singular_is_dependent(rows);
        assert forall|i: int, j: int| 0 <= i < xs.len() && 0 <= j < xs.len() implies xs[i]
            == xs[j] by {
            assert(residual(rows[i], w) == 0);
            assert(residual(rows[j], w) == 0);
            lemma_unit(w.num1, rows[i].a1);
            lemma_unit(w.num1, rows[j].a1);
            lemma_zero_factor(w.den, rows[i].b);
            lemma_zero_factor(w.den, rows[j].b);
            assert(w.num0 * xs[i] == w.num0 * xs[j]);
            assert(xs[i] == xs[j]) by (nonlinear_arith)
                requires
                    w.num0 * xs[i] == w.num0 * xs[j],
                    w.num0 * xs[i] + w.num1 == 0,
                    w.num0 != 0 || w.num1 != 0,
            ;
        }
    }
}

/// Observations that lie on a line exactly give that line back: where
/// `ys[i] == m * xs[i] + c` throughout and the `xs` are not all the same,
/// the fitted slope is `m` and the fitted intercept is `c`.
pub proof fn law_exact_line_is_recovered(xs: Seq<int>, ys: Seq<int>, m: int, c: int)
    requires
        xs.len() == ys.len(),
        forall|i: int| 0 <= i < xs.len() ==> ys[i] == m * xs[i] + c,
        exists|i: int, j: int| 0 <= i < xs.len() && 0 <= j < xs.len() && xs[i] != xs[j],
    ensures
        fit_spec(xs, ys) is Ok,
        (fit_spec(xs, ys)->Ok_0).den != 0,
        (fit_spec(xs, ys)->Ok_0).num0 == m * (fit_spec(xs, ys)->Ok_0).den,
        (fit_spec(xs, ys)->Ok_0).num1 == c * (fit_spec(xs, ys)->Ok_0).den,
{
    let rows = line_rows(xs, ys);
    law_line_is_singular_iff_x_is_constant(xs, ys);
    let x = Ratios { num0: m, num1: c, den: 1 };
    assert forall|i: int| 0 <= i < rows.len() implies residual(#[trigger] rows[i], x) == 0 by {
        lemma_unit(c, rows[i].a1);
        lemma_unit(rows[i].b, x.den);
    }
    law_exact_data_is_recovered(rows, x);
    let best = least_squares(rows)->Ok_0;
    lemma_unit(best.num0, x.den);
    lemma_unit(best.num1, x.den);
}

/// Through two observations with different `x` the fitted line passes
/// exactly.
pub proof fn law_two_points_are_met(x0: int, y0: int, x1: int, y1: int)
    requires
        x0 != x1,
    ensures
        fit_spec(seq![x0, x1], seq![y0, y1]) is Ok,
        ({
            let line = fit_spec(seq![x0, x1], seq![y0, y1])->Ok_0;
            &&& line.den != 0
            &&& line.num0 * x0 + line.num1 == line.den * y0
            &&& line.num0 * x1 + line.num1 == line.den * y1
        }),
{
    let xs = seq![x0, x1];
    let ys = seq![y0, y1];
    let rows = line_rows(xs, ys);
    law_line_is_singular_iff_x_is_constant(xs, ys);
    assert(xs[0] != xs[1]);
    let x = Ratios { num0: y1 - y0, num1: y0 * (x1 - x0) - (y1 - y0) * x0, den: x1 - x0 };
    assert forall|i: int| 0 <= i < rows.len() implies residual(#[trigger] rows[i], x) == 0 by {
        lemma_unit(x.num1, rows[i].a1);
        assert((y1 - y0) * x0 + (y0 * (x1 - x0) - (y1 - y0) * x0) - (x1 - x0) * y0 == 0)
            by (nonlinear_arith);
        assert((y1 - y0) * x1 + (y0 * (x1 - x0) - (y1 - y0) * x0) - (x1 - x0) * y1 == 0)
            by (nonlinear_arith);
    }
    law_exact_data_is_recovered(rows, x);
    let line = least_squares(rows)->Ok_0;
    assert(residual(rows[0], line) == 0);
    assert(residual(rows[1], line) == 0);
    lemma_unit(line.num1, rows[0].a1);
    lemma_unit(line.num1, rows[1].a1);
}

/// A system whose entries are all at most `bound` in magnitude weighs at
/// most three times the square of `bound` for each row. This is how a
/// caller who knows the size of the data shows that it is within the limit
/// of the solver.
pub proof fn law_weight_of_bounded_entries(rows: Seq<Equation>, bound: int)
    requires
        forall|i: int|
            0 <= i < rows.len() ==> {
                &&& -bound <= (#[trigger] rows[i]).a0 <= bound
                &&& -bound <= rows[i].a1 <= bound
                &&& -bound <= rows[i].b <= bound
            },
    ensures
        weight(rows) <= 3 * (bound * bound) * rows.len(),
    decreases rows.len(),
{
    if rows.len() > 0 {
        let front = rows.drop_last();
        let r = rows.last();
        assert forall|i: int| 0 <= i < front.len() implies {
            &&& -bound <= (#[trigger] front[i]).a0 <= bound
            &&& -bound <= front[i].a1 <= bound
            &&& -bound <= front[i].b <= bound
        } by {
            assert(front[i] == rows[i]);
        }
        law_weight_of_bounded_entries(front, bound);
        assert(r == rows[rows.len() - 1]);
        lemma_square_within(r.a0, bound);
        lemma_square_within(r.a1, bound);
        lemma_square_within(r.b, bound);
        lemma_two_terms(3 * (bound * bound), front.len() as int, 1);
    }
}

} // verus!
