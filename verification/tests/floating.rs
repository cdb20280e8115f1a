use least_squares::design::setup_matrices;
use least_squares::error::SolveError;
use least_squares::solver::fit_line;
use rulinalg::matrix::{BaseMatrix, Matrix};
use rulinalg::vector::Vector;

/// The same fit in double precision: the system is built by the library and
/// its normal equations are solved by rulinalg.
fn fit_in_double_precision(xs: &[f64], ys: &[f64]) -> Result<Vec<f64>, SolveError> {
    let (a, b) = setup_matrices(xs, ys, 1.0)?;
    let rows = a.rows();
    let a_mtx = Matrix::new(rows, 2, a.into_row_major());
    let b_vec = Vector::new(b);
    let atransp = a_mtx.transpose();
    let atransp_a = atransp.clone() * a_mtx;
    let atransp_b = atransp * b_vec;
    match atransp_a.solve(atransp_b) {
        Ok(x) => Ok(x.into_vec()),
        Err(_) => Err(SolveError::SingularSystem),
    }
}

fn agree(xs: &[i64], ys: &[i64], tolerance: f64) {
    let exact = fit_line(xs, ys).unwrap();
    let fx: Vec<f64> = xs.iter().map(|x| *x as f64).collect();
    let fy: Vec<f64> = ys.iter().map(|y| *y as f64).collect();
    let double = fit_in_double_precision(&fx, &fy).unwrap();
    assert_eq!(double.len(), 2);
    assert!((double[0] - exact.slope_num as f64 / exact.den as f64).abs() < tolerance);
    assert!((double[1] - exact.intercept_num as f64 / exact.den as f64).abs() < tolerance);
}

#[test]
fn double_precision_agrees_on_exact_line() {
    agree(&[1, 2, 3, 4, 5], &[2, 4, 6, 8, 10], 1e-9);
    agree(&[-2, 0, 1, 5, 9], &[-13, -7, -4, 8, 20], 1e-9);
}

#[test]
fn double_precision_agrees_on_two_points() {
    agree(&[1, 4], &[3, -2], 1e-9);
}

#[test]
fn double_precision_agrees_on_flights() {
    agree(&[53, 75, 57, 58, 63, 70, 70], &[3, 2, 1, 1, 1, 1, 1], 1e-6);
    agree(
        &[53, 75, 57, 58, 63, 70, 70, 66, 69, 68, 67, 72, 73, 70, 78, 67, 67, 80, 70, 81, 76, 79, 76],
        &[3, 2, 1, 1, 1, 1, 1, 0, 0, 0, 0, 0, 0, 0, 0, 0, 0, 0, 0, 0, 0, 0, 0],
        1e-6,
    );
}

#[test]
fn double_precision_gives_the_known_coefficients() {
    let seven = fit_in_double_precision(
        &[53.0, 75.0, 57.0, 58.0, 63.0, 70.0, 70.0],
        &[3.0, 2.0, 1.0, 1.0, 1.0, 1.0, 1.0],
    )
    .unwrap();
    assert!((seven[0] - (-0.0254)).abs() < 5e-5);
    assert!((seven[1] - 3.0465).abs() < 5e-5);
}

#[test]
fn double_precision_is_singular_on_equal_x() {
    assert_eq!(
        fit_in_double_precision(&[5.0, 5.0, 5.0], &[1.0, 2.0, 3.0]),
        Err(SolveError::SingularSystem)
    );
    assert_eq!(fit_line(&[5, 5, 5], &[1, 2, 3]), Err(SolveError::SingularSystem));
}

#[test]
fn double_precision_refuses_what_the_builder_refuses() {
    assert_eq!(fit_in_double_precision(&[], &[]), Err(SolveError::InvalidInput));
    assert_eq!(fit_in_double_precision(&[1.0], &[]), Err(SolveError::InvalidInput));
}
