//! Small algorithmic exercises over arrays, vectors, and a dense row-major
//! matrix: bounds-checked matrix access and arithmetic, a staircase search
//! over a row- and column-sorted square matrix, a monotonic-deque sliding
//! window maximum, interval merging, and maximum-product subarray search.

use vstd::prelude::*;

pub mod array;
pub mod intervals;
pub mod matrix;
pub mod product;
pub mod staircase;
pub mod window;

verus! {

/// Error type for the simple exercise functions.
#[derive(Debug)]
pub enum ExerciseError {
    InvalidInput(String),
    OperationFailed(String),
}

} // verus!
