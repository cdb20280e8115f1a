//! Least-squares line fitting by the normal equations, in exact arithmetic.
//!
//! Paired observations `(x, y)` are laid out as the rows `[x, 1]` of a
//! design matrix `A` and the entries of a target `b`; the fitted slope and
//! intercept solve the normal equations `(AᵀA) x = Aᵀb`. Observations are
//! integers and the coefficients are exact fractions, so what is returned
//! is the least-squares minimiser itself and not an approximation of it.
//!
//! * [`design`] holds the design matrix and its builder, for any scalar.
//! * [`solver`] computes the normal equations and solves them.
//! * [`gram`] is the mathematical model that the contracts are stated over.
//! * [`laws`] states and proves what holds of every solution.
//! * [`record`] decides which observation a line of text holds.

mod arith;
pub mod design;
pub mod error;
pub mod gram;
pub mod laws;
pub mod record;
pub mod solver;
