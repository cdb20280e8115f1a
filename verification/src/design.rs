//! The design matrix of a regression on one variable, and its builder.

use crate::error::SolveError;
use vstd::prelude::*;

verus! {

/// The rows that a row-major sequence of even length holds, two entries to
/// a row.
pub open spec fn rows_of<T>(data: Seq<T>) -> Seq<(T, T)> {
    Seq::new((data.len() / 2) as nat, |i: int| (data[2 * i], data[2 * i + 1]))
}

/// A matrix of two columns, stored row by row. Its view is the sequence of
/// its rows.
#[derive(Debug)]
pub struct DesignMatrix<T> {
    data: Vec<T>,
}

impl<T> View for DesignMatrix<T> {
    type V = Seq<(T, T)>;

    closed spec fn view(&self) -> Seq<(T, T)> {
        rows_of(self.data@)
    }
}

impl<T> DesignMatrix<T> {
    #[verifier::type_invariant]
    spec fn well_formed(self) -> bool {
        self.data@.len() % 2 == 0
    }

    /// Makes a matrix of the entries given row by row. The number of
    /// entries has to be even.
    pub fn from_row_major(data: Vec<T>) -> (made: Result<DesignMatrix<T>, SolveError>)
        ensures
            match made {
                Ok(m) => data@.len() % 2 == 0 && m@ == rows_of(data@),
                Err(e) => e == SolveError::InvalidInput && data@.len() % 2 == 1,
            },
    {
        if data.len() % 2 == 0 {
            Ok(DesignMatrix { data })
        } else {
            Err(SolveError::InvalidInput)
        }
    }

    /// The number of rows.
    pub fn rows(&self) -> (n: usize)
        ensures
            n == self@.len(),
    {
        self.data.len() / 2
    }

    /// The number of columns, which is two.
    pub fn cols(&self) -> (n: usize)
        ensures
            n == 2,
    {
        2
    }

    /// The entry in the given row and column.
    pub fn get(&self, row: usize, col: usize) -> (entry: T) where T: Copy
        requires
            row < self@.len(),
            col < 2,
        ensures
            entry == if col == 0 {
                self@[row as int].0
            } else {
                self@[row as int].1
            },
    {
        let stored: usize = self.data.len();
        proof {
            use_type_invariant(self);
            assert(self@.len() == stored / 2);
        }
        self.data[2 * row + col]
    }

    /// The entries row by row, as they are stored.
    pub fn into_row_major(self) -> (data: Vec<T>)
        ensures
            data@.len() == 2 * self@.len(),
            rows_of(data@) == self@,
    {
        proof {
            use_type_invariant(&self);
        }
        self.data
    }
}

/// Builds the system of a regression line from paired observations: row `i`
/// of the matrix is `[x_nums[i], one]` and entry `i` of the target is
/// `y_nums[i]`, where `one` is the unit of the scalars. Sequences that are
/// empty or differ in length are refused.
pub fn setup_matrices<T: Copy>(x_nums: &[T], y_nums: &[T], one: T) -> (built: Result<
    (DesignMatrix<T>, Vec<T>),
    SolveError,
>)
    ensures
        match built {
            Ok((a, b)) => {
                &&& x_nums@.len() == y_nums@.len()
                &&& x_nums@.len() >= 1
                &&& a@ == Seq::new(x_nums@.len(), |i: int| (x_nums@[i], one))
                &&& b@ == y_nums@
            },
            Err(e) => {
                &&& e == SolveError::InvalidInput
                &&& (x_nums@.len() != y_nums@.len() || x_nums@.len() == 0)
            },
        },
{
    let n: usize = x_nums.len();
    if n != y_nums.len() || n == 0 {
        return Err(SolveError::InvalidInput);
    }
    let mut a_input: Vec<T> = Vec::new();
    let mut b_input: Vec<T> = Vec::new();
    let mut i: usize = 0;
    while i < n
        invariant
            i <= n,
            n == x_nums@.len(),
            n == y_nums@.len(),
            a_input@.len() == 2 * i,
            forall|k: int| 0 <= k < i ==> #[trigger] rows_of(a_input@)[k] == (x_nums@[k], one),
            b_input@ == y_nums@.take(i as int),
        decreases n - i,
    {
        let ghost before = a_input@;
        a_input.push(x_nums[i]);
        a_input.push(one);
        b_input.push(y_nums[i]);
        proof {
            assert forall|k: int| 0 <= k < i + 1 implies #[trigger] rows_of(a_input@)[k] == (
                x_nums@[k],
                one,
            ) by {
                if k < i {
                    assert(rows_of(before)[k] == (x_nums@[k], one));
                }
            }
            assert(y_nums@.take(i + 1) =~= y_nums@.take(i as int).push(y_nums@[i as int]));
        }
        i = i + 1;
    }
    proof {
        assert(y_nums@.take(n as int) =~= y_nums@);
        assert(rows_of(a_input@) =~= Seq::new(x_nums@.len(), |i: int| (x_nums@[i], one)));
    }
    Ok((DesignMatrix { data: a_input }, b_input))
}

} // verus!
