//! Search over a sorted square matrix (a Young tableau: every row
//! non-decreasing left to right, every column non-decreasing top to bottom).
//!
//! The staircase walk starts at the top-right corner and at each step moves
//! one column left when the current element is too large and one row down
//! when it is too small, visiting O(rows + cols) cells instead of scanning
//! all of them. Under duplicate values it returns some matching coordinate,
//! not necessarily the row-major-first one.

use crate::matrix::{find_position_post, Matrix, MatrixError, MatrixView};
use vstd::prelude::*;

verus! {

/// Errors of the sorted-matrix search.
#[derive(Debug, Clone, Copy)]
pub enum SearchError {
    /// The staircase search asks for a square matrix.
    NotSquareMatrix { rows: usize, cols: usize },
    /// The searched value is nowhere in the matrix.
    ElementNotFound { el: i64 },
    /// A matrix-layer error surfacing through a search routine.
    MatrixError(MatrixError),
}

impl From<MatrixError> for SearchError {
    /// Wraps a matrix-layer error unchanged.
    fn from(err: MatrixError) -> (r: SearchError) {
        SearchError::MatrixError(err)
    }
}

impl vstd::std_specs::convert::FromSpecImpl<MatrixError> for SearchError {
    open spec fn obeys_from_spec() -> bool {
        true
    }

    open spec fn from_spec(err: MatrixError) -> SearchError {
        SearchError::MatrixError(err)
    }
}

impl MatrixView {
    /// Every row is non-decreasing left to right and every column is
    /// non-decreasing top to bottom.
    pub open spec fn sorted_ascending(self) -> bool {
        &&& forall|i: int, j1: int, j2: int|
            self.valid_index(i, j1) && self.valid_index(i, j2) && j1 <= j2
                ==> #[trigger] self.at(i, j1) <= #[trigger] self.at(i, j2)
        &&& forall|i1: int, i2: int, j: int|
            self.valid_index(i1, j) && self.valid_index(i2, j) && i1 <= i2
                ==> #[trigger] self.at(i1, j) <= #[trigger] self.at(i2, j)
    }

    /// No two valid coordinates hold the same value.
    pub open spec fn distinct_values(self) -> bool {
        forall|i1: int, j1: int, i2: int, j2: int|
            self.valid_index(i1, j1) && self.valid_index(i2, j2) && (i1 != i2 || j1 != j2)
                ==> #[trigger] self.at(i1, j1) != #[trigger] self.at(i2, j2)
    }
}

/// Everything the staircase search promises about its result: a non-square
/// matrix is rejected, a hit holds the value, a miss means the value is
/// nowhere in the (square) matrix, and matrix-layer errors never surface.
pub open spec fn staircase_post(
    m: MatrixView,
    val: i64,
    r: Result<(usize, usize), SearchError>,
) -> bool {
    match r {
        Ok(p) => {
            &&& m.rows == m.cols
            &&& m.valid_index(p.0 as int, p.1 as int)
            &&& m.at(p.0 as int, p.1 as int) == val as int
        },
        Err(SearchError::NotSquareMatrix { rows, cols }) => {
            &&& m.rows != m.cols
            &&& rows == m.rows
            &&& cols == m.cols
        },
        Err(SearchError::ElementNotFound { el }) => {
            &&& m.rows == m.cols
            &&& el == val
            &&& !m.contains_value(val as int)
        },
        Err(SearchError::MatrixError(_)) => false,
    }
}

/// Staircase search for `val` in a sorted square matrix: walks from the
/// top-right corner, left on larger elements and down on smaller ones.
/// Fails with `NotSquareMatrix` if and only if the matrix is not square,
/// and with `ElementNotFound` if and only if it is square and does not
/// contain `val`.
pub fn find_postition_sorted_square_matrix(m: &Matrix, val: i64) -> (r: Result<
    (usize, usize),
    SearchError,
>)
    requires
        m.wf(),
        m@.rows == m@.cols ==> m@.sorted_ascending(),
    ensures
        staircase_post(m@, val, r),
{
    let rows = m.rows();
    let cols = m.cols();
    if rows != cols {
        return Err(SearchError::NotSquareMatrix { rows, cols });
    }
    let n = rows;
    if n == 0 {
        return Err(SearchError::ElementNotFound { el: val });
    }
    let mut row: usize = 0;
    let mut col: usize = n - 1;
    while row < n
        invariant
            m.wf(),
            m@.sorted_ascending(),
            n == m@.rows,
            n == m@.cols,
            n >= 1,
            row <= n,
            col < n,
            forall|a: int, b: int| m@.valid_index(a, b) && m@.at(a, b) == val as int
                ==> a >= row && b <= col,
        decreases n - row + col,
    {
        let cur = match m.get(row, col) {
            Ok(v) => v,
            Err(e) => {
                proof {
                    assert(m@.valid_index(row as int, col as int));
                }
                return Err(SearchError::from(e));
            },
        };
        if cur == val {
            return Ok((row, col));
        } else if cur > val {
            proof {
                assert forall|a: int, b: int|
                    m@.valid_index(a, b) && m@.at(a, b) == val as int implies b <= col - 1 by {
                    if b == col {
                        assert(m@.at(row as int, col as int) <= m@.at(a, b));
                    }
                }
            }
            if col == 0 {
                proof {
                    assert(!m@.contains_value(val as int)) by {
                        if m@.contains_value(val as int) {
                            let (a, b) = choose|a: int, b: int|
                                m@.valid_index(a, b) && m@.at(a, b) == val as int;
                        }
                    }
                }
                return Err(SearchError::ElementNotFound { el: val });
            }
            col = col - 1;
        } else {
            proof {
                assert forall|a: int, b: int|
                    m@.valid_index(a, b) && m@.at(a, b) == val as int implies a >= row + 1 by {
                    if a == row {
                        assert(m@.at(a, b) <= m@.at(row as int, col as int));
                    }
                }
            }
            row = row + 1;
        }
    }
    proof {
        assert(!m@.contains_value(val as int)) by {
            if m@.contains_value(val as int) {
                let (a, b) = choose|a: int, b: int|
                    m@.valid_index(a, b) && m@.at(a, b) == val as int;
            }
        }
    }
    Err(SearchError::ElementNotFound { el: val })
}

/// On a sorted square matrix the staircase search and the brute-force
/// row-major scan agree on success and failure, and when the matrix holds
/// no duplicate values a successful search returns the same coordinate.
pub proof fn lemma_staircase_agrees_with_scan(
    m: MatrixView,
    val: i64,
    fast: Result<(usize, usize), SearchError>,
    brute: Result<(usize, usize), MatrixError>,
)
    requires
        m.wf(),
        m.sorted_ascending(),
        m.rows == m.cols,
        m.distinct_values(),
        staircase_post(m, val, fast),
        find_position_post(m, val, brute),
    ensures
        fast is Ok <==> brute is Ok,
        fast is Ok ==> fast->Ok_0 == brute->Ok_0,
{
    match (fast, brute) {
        (Ok(p), Ok(q)) => {
            assert(m.at(p.0 as int, p.1 as int) == m.at(q.0 as int, q.1 as int));
            if p.0 as int != q.0 as int || p.1 as int != q.1 as int {
                assert(false);
            }
        },
        (Ok(p), Err(e)) => {
            assert(m.contains_value(val as int));
        },
        (Err(e), Ok(q)) => {
            assert(m.contains_value(val as int));
            match e {
                SearchError::NotSquareMatrix { .. } => {
                    assert(false);
                },
                SearchError::ElementNotFound { .. } => {
                    assert(false);
                },
                SearchError::MatrixError(_) => {
                    assert(false);
                },
            }
        },
        (Err(_), Err(_)) => {},
    }
}

} // verus!
