use least_squares::design::{setup_matrices, DesignMatrix};
use least_squares::error::SolveError;
use least_squares::solver::{
    check_limits, checked_solve_least_squares, normal_equations, solve_least_squares,
    Coefficients, NormalEquations,
};

#[test]
fn builder_lays_out_rows() {
    let (a, b) = setup_matrices(&[53i64, 75, 57], &[3i64, 2, 1], 1).unwrap();
    assert_eq!(a.rows(), 3);
    assert_eq!(a.cols(), 2);
    assert_eq!((a.get(0, 0), a.get(0, 1)), (53, 1));
    assert_eq!((a.get(1, 0), a.get(1, 1)), (75, 1));
    assert_eq!((a.get(2, 0), a.get(2, 1)), (57, 1));
    assert_eq!(b, vec![3, 2, 1]);
    assert_eq!(a.into_row_major(), vec![53, 1, 75, 1, 57, 1]);
}

#[test]
fn builder_takes_any_scalar() {
    let (a, b) = setup_matrices(&[1.5f64, -2.25], &[0.5f64, 4.0], 1.0).unwrap();
    assert_eq!(a.rows(), 2);
    assert_eq!(a.into_row_major(), vec![1.5, 1.0, -2.25, 1.0]);
    assert_eq!(b, vec![0.5, 4.0]);
}

#[test]
fn builder_accepts_one_observation() {
    let (a, b) = setup_matrices(&[7i64], &[9i64], 1).unwrap();
    assert_eq!(a.rows(), 1);
    assert_eq!(a.into_row_major(), vec![7, 1]);
    assert_eq!(b, vec![9]);
}

#[test]
fn builder_refuses_empty_input() {
    let none: [i64; 0] = [];
    assert_eq!(setup_matrices(&none, &none, 1).err(), Some(SolveError::InvalidInput));
}

#[test]
fn builder_refuses_mismatched_lengths() {
    assert_eq!(setup_matrices(&[1i64, 2], &[1i64], 1).err(), Some(SolveError::InvalidInput));
    assert_eq!(setup_matrices(&[1i64], &[1i64, 2], 1).err(), Some(SolveError::InvalidInput));
    let none: [i64; 0] = [];
    assert_eq!(setup_matrices(&none, &[1i64], 1).err(), Some(SolveError::InvalidInput));
}

#[test]
fn matrix_from_row_major_data() {
    let a = DesignMatrix::from_row_major(vec![2i64, -1, 1, 3, 0, 5]).unwrap();
    assert_eq!(a.rows(), 3);
    assert_eq!(a.get(0, 0), 2);
    assert_eq!(a.get(0, 1), -1);
    assert_eq!(a.get(2, 1), 5);
    let empty = DesignMatrix::from_row_major(Vec::<i64>::new()).unwrap();
    assert_eq!(empty.rows(), 0);
}

#[test]
fn matrix_refuses_half_a_row() {
    assert_eq!(DesignMatrix::from_row_major(vec![1i64, 2, 3]).err(), Some(SolveError::InvalidInput));
    assert_eq!(DesignMatrix::from_row_major(vec![1i64]).err(), Some(SolveError::InvalidInput));
}

#[test]
fn normal_equations_are_column_products() {
    let (a, b) = setup_matrices(&[53i64, 75, 57, 58, 63, 70, 70], &[3i64, 2, 1, 1, 1, 1, 1], 1)
        .unwrap();
    assert_eq!(
        normal_equations(&a, &b),
        NormalEquations { m00: 28816, m01: 446, m11: 7, v0: 627, v1: 10 }
    );
    let a = DesignMatrix::from_row_major(vec![2i64, -1, 1, 3, 0, 5, -4, 2]).unwrap();
    assert_eq!(
        normal_equations(&a, &[7, -3, 2, 9]),
        NormalEquations { m00: 21, m01: -7, m11: 39, v0: -25, v1: 12 }
    );
}

#[test]
fn normal_equations_of_nothing_are_zero() {
    let a = DesignMatrix::from_row_major(Vec::<i64>::new()).unwrap();
    assert_eq!(normal_equations(&a, &[]), NormalEquations { m00: 0, m01: 0, m11: 0, v0: 0, v1: 0 });
}

#[test]
fn solver_takes_any_two_columns() {
    let a = DesignMatrix::from_row_major(vec![1i64, 0, 0, 1, 1, 1]).unwrap();
    assert_eq!(
        solve_least_squares(&a, &[1, 2, 4]),
        Ok(Coefficients { slope_num: 4, intercept_num: 7, den: 3 })
    );
    let a = DesignMatrix::from_row_major(vec![2i64, -1, 1, 3, 0, 5, -4, 2]).unwrap();
    assert_eq!(
        solve_least_squares(&a, &[7, -3, 2, 9]),
        Ok(Coefficients { slope_num: -891, intercept_num: 77, den: 770 })
    );
}

#[test]
fn solver_meets_the_normal_equations() {
    let a = DesignMatrix::from_row_major(vec![2i64, -1, 1, 3, 0, 5, -4, 2]).unwrap();
    let b = [7i64, -3, 2, 9];
    let n = normal_equations(&a, &b);
    let c = solve_least_squares(&a, &b).unwrap();
    assert_eq!(n.m00 * c.slope_num + n.m01 * c.intercept_num, n.v0 * c.den);
    assert_eq!(n.m01 * c.slope_num + n.m11 * c.intercept_num, n.v1 * c.den);
}

#[test]
fn solver_refuses_dependent_columns() {
    let a = DesignMatrix::from_row_major(vec![1i64, 2, 2, 4, -3, -6]).unwrap();
    assert_eq!(solve_least_squares(&a, &[1, 2, 3]), Err(SolveError::SingularSystem));
    let zeros = DesignMatrix::from_row_major(vec![0i64, 0, 0, 0]).unwrap();
    assert_eq!(solve_least_squares(&zeros, &[1, 2]), Err(SolveError::SingularSystem));
}

#[test]
fn solver_refuses_empty_system() {
    let a = DesignMatrix::from_row_major(Vec::<i64>::new()).unwrap();
    assert_eq!(solve_least_squares(&a, &[]), Err(SolveError::SingularSystem));
}

#[test]
fn solver_refuses_target_of_other_length() {
    let a = DesignMatrix::from_row_major(vec![1i64, 0, 0, 1]).unwrap();
    assert_eq!(solve_least_squares(&a, &[1, 2, 3]), Err(SolveError::InvalidInput));
    assert_eq!(solve_least_squares(&a, &[1]), Err(SolveError::InvalidInput));
}

#[test]
fn solver_of_built_system_is_the_fit() {
    let (a, b) = setup_matrices(&[1i64, 2, 3, 4, 5], &[2i64, 4, 6, 8, 10], 1).unwrap();
    assert_eq!(
        solve_least_squares(&a, &b),
        Ok(Coefficients { slope_num: 100, intercept_num: 0, den: 50 })
    );
    let (a, b) = setup_matrices(&[5i64, 5, 5], &[1i64, 2, 3], 1).unwrap();
    assert_eq!(solve_least_squares(&a, &b), Err(SolveError::SingularSystem));
}

#[test]
fn solving_twice_gives_the_same() {
    let a = DesignMatrix::from_row_major(vec![3i64, 1, -2, 1, 8, 1]).unwrap();
    let b = [4i64, 0, -9];
    assert_eq!(solve_least_squares(&a, &b), solve_least_squares(&a, &b));
}

#[test]
fn system_limits_are_checked() {
    let a = DesignMatrix::from_row_major(vec![3i64, -4, 0, 1]).unwrap();
    assert!(check_limits(&a, &[1, 2]));
    let edge = DesignMatrix::from_row_major(vec![1i64 << 31, 0]).unwrap();
    assert!(check_limits(&edge, &[0]));
    assert!(!check_limits(&edge, &[1]));
    let beyond = DesignMatrix::from_row_major(vec![0i64, (1 << 31) + 1]).unwrap();
    assert!(!check_limits(&beyond, &[0]));
    let lowest = DesignMatrix::from_row_major(vec![i64::MIN, 0, 0, 0]).unwrap();
    assert!(!check_limits(&lowest, &[0, 0]));
    assert!(check_limits(&lowest, &[0]));
}

#[test]
fn system_at_the_limit_does_not_overflow() {
    let big: i64 = 1 << 30;
    let a = DesignMatrix::from_row_major(vec![big, 0, 0, big]).unwrap();
    let b = [big, -big];
    assert!(check_limits(&a, &b));
    assert_eq!(
        normal_equations(&a, &b),
        NormalEquations { m00: 1 << 60, m01: 0, m11: 1 << 60, v0: 1 << 60, v1: -(1 << 60) }
    );
    assert_eq!(
        solve_least_squares(&a, &b),
        Ok(Coefficients { slope_num: 1 << 120, intercept_num: -(1 << 120), den: 1 << 120 })
    );
    let a = DesignMatrix::from_row_major(vec![big, big, -big, big]).unwrap();
    let b = [0i64, 0];
    assert!(check_limits(&a, &b));
    assert_eq!(
        solve_least_squares(&a, &b),
        Ok(Coefficients { slope_num: 0, intercept_num: 0, den: 1 << 122 })
    );
}

#[test]
fn checked_solve_is_the_solve_within_the_limit() {
    let a = DesignMatrix::from_row_major(vec![1i64, 0, 0, 1, 1, 1]).unwrap();
    assert_eq!(
        checked_solve_least_squares(&a, &[1, 2, 4]),
        Some(Ok(Coefficients { slope_num: 4, intercept_num: 7, den: 3 }))
    );
    assert_eq!(checked_solve_least_squares(&a, &[1, 2]), Some(Err(SolveError::InvalidInput)));
    assert_eq!(
        checked_solve_least_squares(&a, &[i64::MAX, 2]),
        Some(Err(SolveError::InvalidInput))
    );
    let dependent = DesignMatrix::from_row_major(vec![1i64, 2, 2, 4]).unwrap();
    assert_eq!(
        checked_solve_least_squares(&dependent, &[1, 2]),
        Some(Err(SolveError::SingularSystem))
    );
}

#[test]
fn checked_solve_solves_nothing_beyond_the_limit() {
    let a = DesignMatrix::from_row_major(vec![1i64, 0, 0, 1, 1, 1]).unwrap();
    assert_eq!(checked_solve_least_squares(&a, &[i64::MAX, 2, 4]), None);
    let wide = DesignMatrix::from_row_major(vec![1i64 << 31, 1, 0, 1]).unwrap();
    assert_eq!(checked_solve_least_squares(&wide, &[0, 0]), None);
}
