//! Solving a system of two columns by its normal equations, in exact
//! integer arithmetic.

use crate::design::{setup_matrices, DesignMatrix};
use crate::error::SolveError;
use crate::gram::{
    gram, gram_add, least_squares, lemma_det_nonnegative, lemma_gram_bounded,
    lemma_gram_of_prefix, weight, Equation, Ratios,
};
use vstd::prelude::*;

verus! {

/// The largest sum of the squares of all entries that the solver takes,
/// two to the power of 62. Up to it the sums of the normal equations, the
/// determinant and the numerators fit in 128 bits.
pub const WEIGHT_LIMIT: i128 = 4_611_686_018_427_387_904;

/// The normal equations `(AᵀA) x = Aᵀb` of a system: the symmetric matrix
/// `[[m00, m01], [m01, m11]]` and the right-hand side `[v0, v1]`.
#[derive(Debug, Clone, Copy, PartialEq, Eq, Structural)]
pub struct NormalEquations {
    pub m00: i128,
    pub m01: i128,
    pub m11: i128,
    pub v0: i128,
    pub v1: i128,
}

impl NormalEquations {
    /// These are the normal equations of the system `rows`.
    pub open spec fn belongs_to(&self, rows: Seq<Equation>) -> bool {
        &&& self.m00 == gram(rows).aa00
        &&& self.m01 == gram(rows).aa01
        &&& self.m11 == gram(rows).aa11
        &&& self.v0 == gram(rows).ab0
        &&& self.v1 == gram(rows).ab1
    }
}

/// Two fitted coefficients as exact fractions with a common denominator:
/// the first is `slope_num / den`, the second `intercept_num / den`.
#[derive(Debug, Clone, Copy, PartialEq, Eq, Structural)]
pub struct Coefficients {
    pub slope_num: i128,
    pub intercept_num: i128,
    pub den: i128,
}

impl View for Coefficients {
    type V = Ratios;

    open spec fn view(&self) -> Ratios {
        Ratios {
            num0: self.slope_num as int,
            num1: self.intercept_num as int,
            den: self.den as int,
        }
    }
}

/// The outcome `found` is the outcome `expected`: the same failure, or the
/// same fractions, with a positive denominator.
pub open spec fn agrees(
    found: Result<Coefficients, SolveError>,
    expected: Result<Ratios, SolveError>,
) -> bool {
    match found {
        Ok(c) => expected == Ok::<Ratios, SolveError>(c@) && c.den > 0,
        Err(e) => expected == Err::<Ratios, SolveError>(e),
    }
}

/// The equations `a[i].0 * u + a[i].1 * v = b[i]`.
pub open spec fn system_rows(a: Seq<(i64, i64)>, b: Seq<i64>) -> Seq<Equation>
    recommends
        a.len() == b.len(),
{
    Seq::new(
        a.len(),
        |i: int| Equation { a0: a[i].0 as int, a1: a[i].1 as int, b: b[i] as int },
    )
}

/// The system of the matrix and the target is within the limit of the
/// solver. A target of another length than the matrix is refused before
/// anything is computed, so no limit applies to it.
pub open spec fn within_limits(a: Seq<(i64, i64)>, b: Seq<i64>) -> bool {
    a.len() == b.len() ==> weight(system_rows(a, b)) <= WEIGHT_LIMIT
}

/// What [`solve_least_squares`] returns for a matrix and a target.
pub open spec fn solve_spec(a: Seq<(i64, i64)>, b: Seq<i64>) -> Result<Ratios, SolveError> {
    if a.len() != b.len() {
        Err(SolveError::InvalidInput)
    } else {
        least_squares(system_rows(a, b))
    }
}

/// The integers that a sequence of machine integers holds.
pub open spec fn as_ints(s: Seq<i64>) -> Seq<int> {
    s.map_values(|v: i64| v as int)
}

/// The equations `xs[i] * slope + intercept = ys[i]` of a regression line.
pub open spec fn line_rows(xs: Seq<int>, ys: Seq<int>) -> Seq<Equation>
    recommends
        xs.len() == ys.len(),
{
    Seq::new(xs.len(), |i: int| Equation { a0: xs[i], a1: 1, b: ys[i] })
}

/// The system of the regression line through the observations is within
/// the limit of the solver.
pub open spec fn line_within_limits(xs: Seq<i64>, ys: Seq<i64>) -> bool {
    xs.len() == ys.len() ==> weight(line_rows(as_ints(xs), as_ints(ys))) <= WEIGHT_LIMIT
}

/// What [`fit_line`] returns for paired observations.
pub open spec fn fit_spec(xs: Seq<int>, ys: Seq<int>) -> Result<Ratios, SolveError> {
    if xs.len() != ys.len() || xs.len() == 0 {
        Err(SolveError::InvalidInput)
    } else {
        least_squares(line_rows(xs, ys))
    }
}

proof fn lemma_product_bound(x: int, y: int, limit: int)
    by (nonlinear_arith)
    requires
        -limit <= x <= limit,
        -limit <= y <= limit,
    ensures
        -(limit * limit) <= x * y <= limit * limit,
{
}

/// The system after its first `n` rows is the system before them with one
/// row more, and none of its sums is beyond the limit of the whole.
proof fn lemma_next_row(rows: Seq<Equation>, n: int)
    requires
        0 <= n < rows.len(),
        weight(rows) <= WEIGHT_LIMIT,
    ensures
        gram(rows.take(n + 1)) == gram_add(gram(rows.take(n)), rows[n]),
        weight(rows.take(n)) <= weight(rows.take(n + 1)) <= WEIGHT_LIMIT,
        -WEIGHT_LIMIT <= 2 * gram(rows.take(n)).aa01 <= WEIGHT_LIMIT,
        -WEIGHT_LIMIT <= 2 * gram(rows.take(n)).ab0 <= WEIGHT_LIMIT,
        -WEIGHT_LIMIT <= 2 * gram(rows.take(n)).ab1 <= WEIGHT_LIMIT,
        -WEIGHT_LIMIT <= 2 * gram(rows.take(n + 1)).aa01 <= WEIGHT_LIMIT,
        -WEIGHT_LIMIT <= 2 * gram(rows.take(n + 1)).ab0 <= WEIGHT_LIMIT,
        -WEIGHT_LIMIT <= 2 * gram(rows.take(n + 1)).ab1 <= WEIGHT_LIMIT,
        0 <= gram(rows.take(n)).aa00 <= gram(rows.take(n + 1)).aa00,
        0 <= gram(rows.take(n)).aa11 <= gram(rows.take(n + 1)).aa11,
        0 <= gram(rows.take(n)).bb <= gram(rows.take(n + 1)).bb,
{
    let front = rows.take(n);
    let next = rows.take(n + 1);
    assert(next.drop_last() =~= front);
    assert(next.last() == rows[n]);
    assert(next.take(n) =~= front);
    lemma_gram_of_prefix(rows, n + 1);
    lemma_gram_of_prefix(next, n);
    lemma_gram_bounded(front);
    lemma_gram_bounded(next);
}

/// A square is at most two to the power of 62 exactly when its root is at
/// most two to the power of 31.
proof fn lemma_square_bound(x: int)
    by (nonlinear_arith)
    ensures
        0 <= x * x,
        -2_147_483_648 <= x <= 2_147_483_648 ==> x * x <= 4_611_686_018_427_387_904,
        x > 2_147_483_648 || x < -2_147_483_648 ==> x * x > 4_611_686_018_427_387_904,
{
}

/// The weight of the first `n + 1` rows is that of the first `n` with the
/// squares of one row added, and at most that of all rows.
proof fn lemma_weight_of_next(rows: Seq<Equation>, n: int)
    requires
        0 <= n < rows.len(),
    ensures
        weight(rows.take(n + 1)) == weight(rows.take(n)) + rows[n].a0 * rows[n].a0 + rows[n].a1
            * rows[n].a1 + rows[n].b * rows[n].b,
        0 <= weight(rows.take(n)),
        weight(rows.take(n + 1)) <= weight(rows),
{
    let front = rows.take(n);
    let next = rows.take(n + 1);
    assert(next.drop_last() =~= front);
    assert(next.last() == rows[n]);
    lemma_gram_of_prefix(rows, n + 1);
    lemma_gram_bounded(front);
}

/// Computes the normal equations of a system: the products of the columns
/// of `a` with one another and with `b`, summed over the rows.
pub fn normal_equations(a: &DesignMatrix<i64>, b: &[i64]) -> (n: NormalEquations)
    requires
        a@.len() == b@.len(),
        within_limits(a@, b@),
    ensures
        n.belongs_to(system_rows(a@, b@)),
{
    let rows: usize = a.rows();
    let ghost system = system_rows(a@, b@);
    let mut n = NormalEquations { m00: 0, m01: 0, m11: 0, v0: 0, v1: 0 };
    let mut i: usize = 0;
    while i < rows
        invariant
            i <= rows,
            rows == a@.len(),
            rows == b@.len(),
            system == system_rows(a@, b@),
            weight(system) <= WEIGHT_LIMIT,
            n.belongs_to(system.take(i as int)),
        decreases rows - i,
    {
        let x0: i128 = a.get(i, 0) as i128;
        let x1: i128 = a.get(i, 1) as i128;
        let y: i128 = b[i] as i128;
        proof {
            lemma_next_row(system, i as int);
        }
        n = NormalEquations {
            m00: n.m00 + x0 * x0,
            m01: n.m01 + x0 * x1,
            m11: n.m11 + x1 * x1,
            v0: n.v0 + x0 * y,
            v1: n.v1 + x1 * y,
        };
        i = i + 1;
    }
    proof {
        assert(system.take(rows as int) =~= system);
    }
    n
}

/// Solves `a x = b` in the sense of least squares, by the normal equations
/// `(AᵀA) x = Aᵀb` and Cramer's rule. The coefficients returned are exact,
/// with the determinant of `AᵀA` as their denominator. A target whose
/// length is not the number of rows is refused; a normal matrix whose
/// determinant is zero has no solution.
pub fn solve_least_squares(a: &DesignMatrix<i64>, b: &[i64]) -> (solved: Result<
    Coefficients,
    SolveError,
>)
    requires
        within_limits(a@, b@),
    ensures
        agrees(solved, solve_spec(a@, b@)),
{
    if a.rows() != b.len() {
        return Err(SolveError::InvalidInput);
    }
    let n = normal_equations(a, b);
    proof {
        let system = system_rows(a@, b@);
        lemma_gram_bounded(system);
        lemma_det_nonnegative(system);
        lemma_product_bound(n.m00 as int, n.m11 as int, WEIGHT_LIMIT as int);
        lemma_product_bound(n.m01 as int, n.m01 as int, WEIGHT_LIMIT as int);
        lemma_product_bound(n.v0 as int, n.m11 as int, WEIGHT_LIMIT as int);
        lemma_product_bound(n.v1 as int, n.m01 as int, WEIGHT_LIMIT as int);
        lemma_product_bound(n.m00 as int, n.v1 as int, WEIGHT_LIMIT as int);
        lemma_product_bound(n.m01 as int, n.v0 as int, WEIGHT_LIMIT as int);
    }
    let den: i128 = n.m00 * n.m11 - n.m01 * n.m01;
    if den == 0 {
        return Err(SolveError::SingularSystem);
    }
    Ok(
        Coefficients {
            slope_num: n.v0 * n.m11 - n.v1 * n.m01,
            intercept_num: n.m00 * n.v1 - n.m01 * n.v0,
            den,
        },
    )
}

/// Fits the line `y = slope * x + intercept` to paired observations by
/// least squares: builds the system and solves its normal equations.
/// Sequences that are empty or differ in length are refused; observations
/// that all share one `x` determine no line.
pub fn fit_line(xs: &[i64], ys: &[i64]) -> (fitted: Result<Coefficients, SolveError>)
    requires
        line_within_limits(xs@, ys@),
    ensures
        agrees(fitted, fit_spec(as_ints(xs@), as_ints(ys@))),
{
    match setup_matrices(xs, ys, 1i64) {
        Err(e) => Err(e),
        Ok((a, b)) => {
            proof {
                assert(system_rows(a@, b@) =~= line_rows(as_ints(xs@), as_ints(ys@)));
            }
            solve_least_squares(&a, b.as_slice())
        },
    }
}

/// Adds the squares of the entries of one more row to the sum of the rows
/// before it, unless that leads beyond the limit.
fn add_squares(total: i128, x0: i64, x1: i64, y: i64) -> (sum: Option<i128>)
    requires
        0 <= total <= WEIGHT_LIMIT,
    ensures
        match sum {
            Some(t) => t == total + x0 * x0 + x1 * x1 + y * y && total <= t <= WEIGHT_LIMIT,
            None => total + x0 * x0 + x1 * x1 + y * y > WEIGHT_LIMIT,
        },
{
    proof {
        lemma_square_bound(x0 as int);
        lemma_square_bound(x1 as int);
        lemma_square_bound(y as int);
    }
    if x0 < -2_147_483_648 || x0 > 2_147_483_648 || x1 < -2_147_483_648 || x1 > 2_147_483_648 || y
        < -2_147_483_648 || y > 2_147_483_648 {
        return None;
    }
    let t: i128 = total + (x0 as i128) * (x0 as i128) + (x1 as i128) * (x1 as i128) + (y as i128)
        * (y as i128);
    if t > WEIGHT_LIMIT {
        None
    } else {
        Some(t)
    }
}

/// Whether a matrix and a target are within the limit of
/// [`solve_least_squares`].
pub fn check_limits(a: &DesignMatrix<i64>, b: &[i64]) -> (ok: bool)
    ensures
        ok == within_limits(a@, b@),
{
    let rows: usize = a.rows();
    if rows != b.len() {
        return true;
    }
    let ghost system = system_rows(a@, b@);
    let mut total: i128 = 0;
    let mut i: usize = 0;
    while i < rows
        invariant
            i <= rows,
            rows == a@.len(),
            rows == b@.len(),
            system == system_rows(a@, b@),
            total == weight(system.take(i as int)),
            0 <= total <= WEIGHT_LIMIT,
        decreases rows - i,
    {
        proof {
            lemma_weight_of_next(system, i as int);
        }
        match add_squares(total, a.get(i, 0), a.get(i, 1), b[i]) {
            Some(t) => {
                total = t;
            },
            None => {
                return false;
            },
        }
        i = i + 1;
    }
    proof {
        assert(system.take(rows as int) =~= system);
    }
    true
}

/// Whether paired observations are within the limit of [`fit_line`].
pub fn check_line_limits(xs: &[i64], ys: &[i64]) -> (ok: bool)
    ensures
        ok == line_within_limits(xs@, ys@),
{
    let rows: usize = xs.len();
    if rows != ys.len() {
        return true;
    }
    let ghost system = line_rows(as_ints(xs@), as_ints(ys@));
    let mut total: i128 = 0;
    let mut i: usize = 0;
    while i < rows
        invariant
            i <= rows,
            rows == xs@.len(),
            rows == ys@.len(),
            system == line_rows(as_ints(xs@), as_ints(ys@)),
            total == weight(system.take(i as int)),
            0 <= total <= WEIGHT_LIMIT,
        decreases rows - i,
    {
        proof {
            lemma_weight_of_next(system, i as int);
        }
        match add_squares(total, xs[i], 1, ys[i]) {
            Some(t) => {
                total = t;
            },
            None => {
                return false;
            },
        }
        i = i + 1;
    }
    proof {
        assert(system.take(rows as int) =~= system);
    }
    true
}

/// [`solve_least_squares`] for a caller that does not know whether the
/// system is within the limit: the limit is tested first, and nothing is
/// solved where it is exceeded.
pub fn checked_solve_least_squares(a: &DesignMatrix<i64>, b: &[i64]) -> (solved: Option<
    Result<Coefficients, SolveError>,
>)
    ensures
        solved is Some <==> within_limits(a@, b@),
        solved matches Some(found) ==> agrees(found, solve_spec(a@, b@)),
{
    if check_limits(a, b) {
        Some(solve_least_squares(a, b))
    } else {
        None
    }
}

/// [`fit_line`] for a caller that does not know whether the observations
/// are within the limit: the limit is tested first, and nothing is fitted
/// where it is exceeded.
pub fn checked_fit_line(xs: &[i64], ys: &[i64]) -> (fitted: Option<
    Result<Coefficients, SolveError>,
>)
    ensures
        fitted is Some <==> line_within_limits(xs@, ys@),
        fitted matches Some(found) ==> agrees(found, fit_spec(as_ints(xs@), as_ints(ys@))),
{
    if check_line_limits(xs, ys) {
        Some(fit_line(xs, ys))
    } else {
        None
    }
}

} // verus!
