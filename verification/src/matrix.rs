//! Dense row-major matrix with bounds-checked element access, transpose,
//! arithmetic, and a brute-force element search.
//!
//! A matrix owns a flat buffer of `rows * cols` elements; the element at
//! logical coordinate `(i, j)` lives at flat offset `i * cols + j`. The
//! mathematical model of a matrix is a [`MatrixView`]: the dimensions plus
//! the flat buffer as a sequence of unbounded integers.

use vstd::prelude::*;

verus! {

/// The arithmetic operation that a `DimensionMismatch` error came from.
#[derive(Debug, Clone, Copy, PartialEq, Eq, Structural)]
pub enum MatrixOp {
    Addition,
    Multiplication,
}

/// Errors of the matrix layer.
#[derive(Debug, Clone, Copy)]
pub enum MatrixError {
    /// Construction from a buffer whose length is not `rows * cols`.
    InvalidCreation { expected: usize, actual: usize },
    /// Arithmetic on matrices with incompatible dimensions.
    DimensionMismatch {
        operation: MatrixOp,
        left_dims: (usize, usize),
        right_dims: (usize, usize),
    },
    /// Element access outside the matrix.
    IndexOutOfBounds { row: usize, col: usize, rows: usize, cols: usize },
    /// Brute-force search miss.
    ElementNotFound { el: i64 },
}

/// Mathematical model of a matrix: dimensions plus the flat row-major
/// buffer as a sequence of unbounded integers.
#[verifier::ext_equal]
pub ghost struct MatrixView {
    pub rows: nat,
    pub cols: nat,
    pub elems: Seq<int>,
}

impl MatrixView {
    /// The buffer length matches the dimensions.
    pub open spec fn wf(self) -> bool {
        self.elems.len() == self.rows * self.cols
    }

    /// Both coordinates are in range.
    pub open spec fn valid_index(self, i: int, j: int) -> bool {
        0 <= i < self.rows && 0 <= j < self.cols
    }

    /// The element at coordinate `(i, j)`.
    pub open spec fn at(self, i: int, j: int) -> int {
        self.elems[i * self.cols + j]
    }

    /// Some valid coordinate holds `v`.
    pub open spec fn contains_value(self, v: int) -> bool {
        exists|i: int, j: int| self.valid_index(i, j) && self.at(i, j) == v
    }

    /// The model after writing `v` at coordinate `(i, j)`.
    pub open spec fn updated(self, i: int, j: int, v: int) -> MatrixView {
        MatrixView { elems: self.elems.update(i * self.cols + j, v), ..self }
    }

    /// The transposed model: dimensions swapped, `at(j, i)` of the result
    /// equal to `at(i, j)` of `self`.
    pub open spec fn transposed(self) -> MatrixView {
        MatrixView {
            rows: self.cols,
            cols: self.rows,
            elems: Seq::new(
                self.cols * self.rows,
                |n: int| self.at(n % self.rows as int, n / self.rows as int),
            ),
        }
    }

    /// Elementwise sum (defined for equal dimensions).
    pub open spec fn sum_with(self, other: MatrixView) -> MatrixView {
        MatrixView {
            rows: self.rows,
            cols: self.cols,
            elems: Seq::new(self.elems.len(), |k: int| self.elems[k] + other.elems[k]),
        }
    }

    /// The first `k` terms of the dot product of row `i` of `self` with
    /// column `j` of `other`.
    pub open spec fn dot_prefix(self, other: MatrixView, i: int, j: int, k: int) -> int
        decreases k,
    {
        if k <= 0 {
            0
        } else {
            self.dot_prefix(other, i, j, k - 1) + self.at(i, k - 1) * other.at(k - 1, j)
        }
    }

    /// Matrix product (defined for `self.cols == other.rows`): entry
    /// `(i, j)` is the dot product of row `i` of `self` with column `j`
    /// of `other`.
    pub open spec fn product_with(self, other: MatrixView) -> MatrixView {
        MatrixView {
            rows: self.rows,
            cols: other.cols,
            elems: Seq::new(
                self.rows * other.cols,
                |n: int| self.dot_prefix(
                    other,
                    n / other.cols as int,
                    n % other.cols as int,
                    self.cols as int,
                ),
            ),
        }
    }
}

/// A row-major flat offset of a valid coordinate is in range.
pub proof fn lemma_flat_index_in_range(i: int, j: int, rows: int, cols: int)
    by (nonlinear_arith)
    requires
        0 <= i < rows,
        0 <= j < cols,
    ensures
        0 <= i * cols + j < rows * cols,
{
}

/// Distinct valid coordinates have distinct row-major flat offsets.
pub proof fn lemma_flat_index_injective(i1: int, j1: int, i2: int, j2: int, cols: int)
    by (nonlinear_arith)
    requires
        0 <= j1 < cols,
        0 <= j2 < cols,
        0 <= i1,
        0 <= i2,
        i1 * cols + j1 == i2 * cols + j2,
    ensures
        i1 == i2 && j1 == j2,
{
}

/// A flat offset decomposes into the unique valid coordinate it encodes.
pub proof fn lemma_flat_index_decompose(n: int, rows: int, cols: int)
    requires
        cols > 0,
        0 <= n < rows * cols,
    ensures
        0 <= n / cols < rows,
        0 <= n % cols < cols,
        n == (n / cols) * cols + n % cols,
{
    vstd::arithmetic::div_mod::lemma_fundamental_div_mod(n, cols);
    assert((n / cols) * cols == cols * (n / cols)) by (nonlinear_arith);
    assert(0 <= n % cols < cols) by (nonlinear_arith)
        requires cols > 0;
    assert(0 <= n / cols < rows) by (nonlinear_arith)
        requires cols > 0 && 0 <= n < rows * cols && n == (n / cols) * cols + n % cols
            && 0 <= n % cols < cols;
}

/// Dense row-major matrix of 64-bit integers. Dimensions are fixed at
/// construction; individual elements are mutable through [`Matrix::set`].
#[derive(Debug, Clone)]
pub struct Matrix {
    rows: usize,
    cols: usize,
    data: Vec<i64>,
}

impl View for Matrix {
    type V = MatrixView;

    closed spec fn view(&self) -> MatrixView {
        MatrixView {
            rows: self.rows as nat,
            cols: self.cols as nat,
            elems: self.data@.map_values(|x: i64| x as int),
        }
    }
}

impl Matrix {
    /// The stored buffer length matches the dimensions.
    pub open spec fn wf(self) -> bool {
        self@.wf()
    }

    /// An all-zero matrix of the given dimensions.
    pub fn zeros(rows: usize, cols: usize) -> (m: Matrix)
        requires
            rows * cols <= usize::MAX,
        ensures
            m.wf(),
            m@.rows == rows,
            m@.cols == cols,
            forall|k: int| 0 <= k < m@.elems.len() ==> m@.elems[k] == 0,
    {
        proof {
            assert(rows as int * cols as int >= 0) by (nonlinear_arith);
        }
        let size = rows * cols;
        let mut data: Vec<i64> = Vec::new();
        while data.len() < size
            invariant
                data@.len() <= size,
                forall|k: int| 0 <= k < data@.len() ==> data@[k] == 0i64,
            decreases size - data@.len(),
        {
            data.push(0);
        }
        let m = Matrix { rows, cols, data };
        proof {
            assert(m@.elems.len() == m@.rows * m@.cols);
        }
        m
    }

    /// A matrix of the given dimensions over the given row-major buffer;
    /// fails if and only if the buffer length is not `rows * cols`.
    pub fn from_vec(rows: usize, cols: usize, data: Vec<i64>) -> (r: Result<Matrix, MatrixError>)
        requires
            rows * cols <= usize::MAX,
        ensures
            match r {
                Ok(m) => {
                    &&& data@.len() == rows * cols
                    &&& m.wf()
                    &&& m@.rows == rows
                    &&& m@.cols == cols
                    &&& m@.elems =~= data@.map_values(|x: i64| x as int)
                },
                Err(e) => {
                    &&& data@.len() != rows * cols
                    &&& e == (MatrixError::InvalidCreation {
                        expected: (rows * cols) as usize,
                        actual: data@.len() as usize,
                    })
                },
            },
    {
        proof {
            assert(rows as int * cols as int >= 0) by (nonlinear_arith);
        }
        let expected = rows * cols;
        if data.len() != expected {
            return Err(MatrixError::InvalidCreation { expected, actual: data.len() });
        }
        Ok(Matrix { rows, cols, data })
    }

    /// The number of rows.
    pub fn rows(&self) -> (r: usize)
        ensures
            r == self@.rows,
    {
        self.rows
    }

    /// The number of columns.
    pub fn cols(&self) -> (r: usize)
        ensures
            r == self@.cols,
    {
        self.cols
    }

    /// The element at `(row, col)`; fails if and only if a coordinate is
    /// out of range, carrying the offending coordinates and the dimensions.
    pub fn get(&self, row: usize, col: usize) -> (r: Result<i64, MatrixError>)
        requires
            self.wf(),
        ensures
            match r {
                Ok(v) => self@.valid_index(row as int, col as int)
                    && v as int == self@.at(row as int, col as int),
                Err(e) => !self@.valid_index(row as int, col as int)
                    && e == (MatrixError::IndexOutOfBounds {
                        row,
                        col,
                        rows: (self@.rows as usize),
                        cols: (self@.cols as usize),
                    }),
            },
    {
        if row >= self.rows || col >= self.cols {
            return Err(MatrixError::IndexOutOfBounds {
                row,
                col,
                rows: self.rows,
                cols: self.cols,
            });
        }
        let dlen = self.data.len();
        proof {
            lemma_flat_index_in_range(row as int, col as int, self.rows as int, self.cols as int);
            assert(self@.elems.len() == self.data@.len());
            assert(dlen as int > row as int * self.cols as int + col as int);
        }
        Ok(self.data[row * self.cols + col])
    }

    /// Writes `value` at `(row, col)`, mutating exactly that element; fails
    /// if and only if a coordinate is out of range, in which case the
    /// matrix is unchanged.
    pub fn set(&mut self, row: usize, col: usize, value: i64) -> (r: Result<(), MatrixError>)
        requires
            old(self).wf(),
        ensures
            final(self).wf(),
            match r {
                Ok(()) => old(self)@.valid_index(row as int, col as int)
                    && final(self)@ =~= old(self)@.updated(row as int, col as int, value as int),
                Err(e) => !old(self)@.valid_index(row as int, col as int)
                    && final(self)@ == old(self)@
                    && e == (MatrixError::IndexOutOfBounds {
                        row,
                        col,
                        rows: (old(self)@.rows as usize),
                        cols: (old(self)@.cols as usize),
                    }),
            },
    {
        if row >= self.rows || col >= self.cols {
            return Err(MatrixError::IndexOutOfBounds {
                row,
                col,
                rows: self.rows,
                cols: self.cols,
            });
        }
        let dlen = self.data.len();
        proof {
            lemma_flat_index_in_range(row as int, col as int, self.rows as int, self.cols as int);
            assert(self@.elems.len() == self.data@.len());
            assert(dlen as int > row as int * self.cols as int + col as int);
        }
        let idx = row * self.cols + col;
        self.data[idx] = value;
        proof {
            assert(self@.elems =~= old(self)@.elems.update(
                row as int * old(self)@.cols + col as int,
                value as int,
            ));
        }
        Ok(())
    }
}

impl Matrix {
    /// A new matrix with the dimensions swapped and every element mirrored
    /// across the main diagonal; the receiver is unchanged.
    pub fn transpose(&self) -> (t: Matrix)
        requires
            self.wf(),
        ensures
            t.wf(),
            t@ == self@.transposed(),
    {
        let rows = self.rows;
        let cols = self.cols;
        let dlen = self.data.len();
        let mut out: Vec<i64> = Vec::new();
        let mut j: usize = 0;
        while j < cols
            invariant
                self.wf(),
                rows == self@.rows,
                cols == self@.cols,
                dlen == self.data@.len(),
                j <= cols,
                out@.len() == j * rows,
                forall|n: int| 0 <= n < out@.len()
                    ==> out@[n] as int == self@.transposed().elems[n],
            decreases cols - j,
        {
            let mut i: usize = 0;
            while i < rows
                invariant
                    self.wf(),
                    rows == self@.rows,
                    cols == self@.cols,
                    dlen == self.data@.len(),
                    j < cols,
                    i <= rows,
                    out@.len() == j * rows + i,
                    forall|n: int| 0 <= n < out@.len()
                        ==> out@[n] as int == self@.transposed().elems[n],
                decreases rows - i,
            {
                proof {
                    lemma_flat_index_in_range(i as int, j as int, rows as int, cols as int);
                    assert(self@.elems.len() == self.data@.len());
                }
                out.push(self.data[i * cols + j]);
                proof {
                    let n = j * rows + i;
                    lemma_flat_index_in_range(j as int, i as int, cols as int, rows as int);
                    vstd::arithmetic::div_mod::lemma_fundamental_div_mod_converse(
                        n as int, rows as int, j as int, i as int);
                    assert(self@.transposed().elems[n as int] == self@.at(i as int, j as int));
                }
                i = i + 1;
            }
            j = j + 1;
            proof {
                assert(j * rows == (j - 1) * rows + rows) by (nonlinear_arith);
            }
        }
        let t = Matrix { rows: cols, cols: rows, data: out };
        proof {
            assert(cols * rows == t@.rows * t@.cols);
            assert(t@.elems =~= self@.transposed().elems);
            assert(t@ =~= self@.transposed());
        }
        t
    }
}

/// Everything `find_position` promises about its result: a hit is the
/// row-major-first coordinate holding the value, a miss means the value is
/// nowhere in the matrix.
pub open spec fn find_position_post(
    m: MatrixView,
    val: i64,
    r: Result<(usize, usize), MatrixError>,
) -> bool {
    match r {
        Ok(p) => {
            &&& m.valid_index(p.0 as int, p.1 as int)
            &&& m.at(p.0 as int, p.1 as int) == val as int
            &&& forall|a: int, b: int|
                m.valid_index(a, b) && (a < p.0 as int || (a == p.0 as int && b < p.1 as int))
                    ==> m.at(a, b) != val as int
        },
        Err(e) => {
            &&& !m.contains_value(val as int)
            &&& e == (MatrixError::ElementNotFound { el: val })
        },
    }
}

impl Matrix {
    /// Row-major linear scan for `val`; returns the first coordinate whose
    /// element equals `val`, or `ElementNotFound` when no element does.
    pub fn find_position(&self, val: i64) -> (r: Result<(usize, usize), MatrixError>)
        requires
            self.wf(),
        ensures
            find_position_post(self@, val, r),
    {
        let rows = self.rows;
        let cols = self.cols;
        let dlen = self.data.len();
        let mut i: usize = 0;
        while i < rows
            invariant
                self.wf(),
                rows == self@.rows,
                cols == self@.cols,
                dlen == self.data@.len(),
                i <= rows,
                forall|a: int, b: int| self@.valid_index(a, b) && a < i
                    ==> self@.at(a, b) != val as int,
            decreases rows - i,
        {
            let mut j: usize = 0;
            while j < cols
                invariant
                    self.wf(),
                    rows == self@.rows,
                    cols == self@.cols,
                    dlen == self.data@.len(),
                    i < rows,
                    j <= cols,
                    forall|a: int, b: int| self@.valid_index(a, b) && a < i
                        ==> self@.at(a, b) != val as int,
                    forall|b: int| 0 <= b < j ==> self@.at(i as int, b) != val as int,
                decreases cols - j,
            {
                proof {
                    lemma_flat_index_in_range(i as int, j as int, rows as int, cols as int);
                    assert(self@.elems.len() == self.data@.len());
                }
                if self.data[i * cols + j] == val {
                    return Ok((i, j));
                }
                j = j + 1;
            }
            i = i + 1;
        }
        proof {
            assert(!self@.contains_value(val as int)) by {
                if self@.contains_value(val as int) {
                    let (a, b) = choose|a: int, b: int|
                        self@.valid_index(a, b) && self@.at(a, b) == val as int;
                }
            }
        }
        Err(MatrixError::ElementNotFound { el: val })
    }

    /// Elementwise sum as a new matrix; fails if and only if the dimensions
    /// differ, carrying both dimension pairs.
    pub fn add(&self, rhs: &Matrix) -> (r: Result<Matrix, MatrixError>)
        requires
            self.wf(),
            rhs.wf(),
            self@.rows == rhs@.rows && self@.cols == rhs@.cols ==> forall|k: int|
                0 <= k < self@.elems.len()
                    ==> i64::MIN <= (#[trigger] self@.elems[k]) + rhs@.elems[k] <= i64::MAX,
        ensures
            match r {
                Ok(m) => {
                    &&& self@.rows == rhs@.rows
                    &&& self@.cols == rhs@.cols
                    &&& m.wf()
                    &&& m@ == self@.sum_with(rhs@)
                },
                Err(e) => {
                    &&& !(self@.rows == rhs@.rows && self@.cols == rhs@.cols)
                    &&& e == (MatrixError::DimensionMismatch {
                        operation: MatrixOp::Addition,
                        left_dims: ((self@.rows as usize), (self@.cols as usize)),
                        right_dims: ((rhs@.rows as usize), (rhs@.cols as usize)),
                    })
                },
            },
    {
        if self.rows != rhs.rows || self.cols != rhs.cols {
            return Err(MatrixError::DimensionMismatch {
                operation: MatrixOp::Addition,
                left_dims: (self.rows, self.cols),
                right_dims: (rhs.rows, rhs.cols),
            });
        }
        let len = self.data.len();
        proof {
            assert(self@.elems.len() == self.data@.len());
            assert(rhs@.elems.len() == rhs.data@.len());
        }
        let mut out: Vec<i64> = Vec::new();
        let mut k: usize = 0;
        while k < len
            invariant
                self.wf(),
                rhs.wf(),
                self@.rows == rhs@.rows,
                self@.cols == rhs@.cols,
                len == self.data@.len(),
                len == rhs.data@.len(),
                len == self@.elems.len(),
                forall|n: int| 0 <= n < self@.elems.len()
                    ==> i64::MIN <= (#[trigger] self@.elems[n]) + rhs@.elems[n] <= i64::MAX,
                k <= len,
                out@.len() == k,
                forall|n: int| 0 <= n < k
                    ==> out@[n] as int == self@.elems[n] + rhs@.elems[n],
            decreases len - k,
        {
            proof {
                assert(self@.elems[k as int] == self.data@[k as int] as int);
                assert(rhs@.elems[k as int] == rhs.data@[k as int] as int);
            }
            out.push(self.data[k] + rhs.data[k]);
            k = k + 1;
        }
        let m = Matrix { rows: self.rows, cols: self.cols, data: out };
        proof {
            assert(m@.elems =~= self@.sum_with(rhs@).elems);
            assert(m@ =~= self@.sum_with(rhs@));
        }
        Ok(m)
    }
}

/// Every intermediate value of the product computation fits in an `i64`:
/// each elementwise product and each prefix of each dot product.
pub open spec fn product_fits_i64(a: MatrixView, b: MatrixView) -> bool {
    &&& forall|i: int, j: int, k: int|
        0 <= i < a.rows && 0 <= j < b.cols && 0 <= k <= a.cols
            ==> i64::MIN <= #[trigger] a.dot_prefix(b, i, j, k) <= i64::MAX
    &&& forall|i: int, j: int, k: int|
        0 <= i < a.rows && 0 <= j < b.cols && 0 <= k < a.cols
            ==> i64::MIN <= #[trigger] (a.at(i, k) * b.at(k, j)) <= i64::MAX
}

impl Matrix {
    /// Standard matrix product as a new matrix of dimensions
    /// `(self.rows, rhs.cols)`; fails if and only if `self.cols != rhs.rows`,
    /// carrying both dimension pairs.
    pub fn multiply(&self, rhs: &Matrix) -> (r: Result<Matrix, MatrixError>)
        requires
            self.wf(),
            rhs.wf(),
            self@.cols == rhs@.rows ==> product_fits_i64(self@, rhs@),
        ensures
            match r {
                Ok(m) => {
                    &&& self@.cols == rhs@.rows
                    &&& m.wf()
                    &&& m@ == self@.product_with(rhs@)
                },
                Err(e) => {
                    &&& self@.cols != rhs@.rows
                    &&& e == (MatrixError::DimensionMismatch {
                        operation: MatrixOp::Multiplication,
                        left_dims: ((self@.rows as usize), (self@.cols as usize)),
                        right_dims: ((rhs@.rows as usize), (rhs@.cols as usize)),
                    })
                },
            },
    {
        if self.cols != rhs.rows {
            return Err(MatrixError::DimensionMismatch {
                operation: MatrixOp::Multiplication,
                left_dims: (self.rows, self.cols),
                right_dims: (rhs.rows, rhs.cols),
            });
        }
        let m_rows = self.rows;
        let inner = self.cols;
        let n_cols = rhs.cols;
        let llen = self.data.len();
        let rlen = rhs.data.len();
        let ghost prod = self@.product_with(rhs@);
        let mut out: Vec<i64> = Vec::new();
        let mut i: usize = 0;
        while i < m_rows
            invariant
                self.wf(),
                rhs.wf(),
                product_fits_i64(self@, rhs@),
                m_rows == self@.rows,
                inner == self@.cols,
                inner == rhs@.rows,
                n_cols == rhs@.cols,
                llen == self.data@.len(),
                rlen == rhs.data@.len(),
                prod == self@.product_with(rhs@),
                i <= m_rows,
                out@.len() == i * n_cols,
                forall|n: int| 0 <= n < out@.len() ==> out@[n] as int == prod.elems[n],
            decreases m_rows - i,
        {
            let mut j: usize = 0;
            while j < n_cols
                invariant
                    self.wf(),
                    rhs.wf(),
                    product_fits_i64(self@, rhs@),
                    m_rows == self@.rows,
                    inner == self@.cols,
                    inner == rhs@.rows,
                    n_cols == rhs@.cols,
                    llen == self.data@.len(),
                    rlen == rhs.data@.len(),
                    prod == self@.product_with(rhs@),
                    i < m_rows,
                    j <= n_cols,
                    out@.len() == i * n_cols + j,
                    forall|n: int| 0 <= n < out@.len() ==> out@[n] as int == prod.elems[n],
                decreases n_cols - j,
            {
                let mut sum: i64 = 0;
                let mut k: usize = 0;
                while k < inner
                    invariant
                        self.wf(),
                        rhs.wf(),
                        product_fits_i64(self@, rhs@),
                        m_rows == self@.rows,
                        inner == self@.cols,
                        inner == rhs@.rows,
                        n_cols == rhs@.cols,
                        llen == self.data@.len(),
                        rlen == rhs.data@.len(),
                        i < m_rows,
                        j < n_cols,
                        k <= inner,
                        sum as int == self@.dot_prefix(rhs@, i as int, j as int, k as int),
                    decreases inner - k,
                {
                    proof {
                        lemma_flat_index_in_range(
                            i as int, k as int, m_rows as int, inner as int);
                        lemma_flat_index_in_range(
                            k as int, j as int, inner as int, n_cols as int);
                        assert(self@.elems.len() == self.data@.len());
                        assert(rhs@.elems.len() == rhs.data@.len());
                        assert(self@.at(i as int, k as int)
                            == self.data@[i as int * inner as int + k as int] as int);
                        assert(rhs@.at(k as int, j as int)
                            == rhs.data@[k as int * n_cols as int + j as int] as int);
                        assert(self@.dot_prefix(rhs@, i as int, j as int, k as int + 1)
                            == self@.dot_prefix(rhs@, i as int, j as int, k as int)
                                + self@.at(i as int, k as int) * rhs@.at(k as int, j as int));
                    }
                    let p = self.data[i * inner + k] * rhs.data[k * n_cols + j];
                    sum = sum + p;
                    k = k + 1;
                }
                proof {
                    let n = i as int * n_cols as int + j as int;
                    lemma_flat_index_in_range(i as int, j as int, m_rows as int, n_cols as int);
                    vstd::arithmetic::div_mod::lemma_fundamental_div_mod_converse(
                        n, n_cols as int, i as int, j as int);
                    assert(prod.elems[n]
                        == self@.dot_prefix(rhs@, i as int, j as int, inner as int));
                }
                out.push(sum);
                j = j + 1;
            }
            i = i + 1;
            proof {
                assert(i as int * n_cols as int == (i - 1) * n_cols + n_cols)
                    by (nonlinear_arith);
            }
        }
        let m = Matrix { rows: m_rows, cols: n_cols, data: out };
        proof {
            assert(m@.elems =~= prod.elems);
            assert(m@ =~= prod);
        }
        Ok(m)
    }
}

impl PartialEq for Matrix {
    /// Value equality: same dimensions and the same buffer contents.
    fn eq(&self, other: &Matrix) -> (r: bool) {
        if self.rows != other.rows || self.cols != other.cols {
            return false;
        }
        if self.data.len() != other.data.len() {
            proof {
                assert(self@.elems.len() != other@.elems.len());
            }
            return false;
        }
        let len = self.data.len();
        let mut k: usize = 0;
        while k < len
            invariant
                len == self.data@.len(),
                len == other.data@.len(),
                k <= len,
                forall|n: int| 0 <= n < k ==> self@.elems[n] == other@.elems[n],
            decreases len - k,
        {
            if self.data[k] != other.data[k] {
                proof {
                    assert(self@.elems[k as int] != other@.elems[k as int]);
                }
                return false;
            }
            k = k + 1;
        }
        proof {
            assert(self@.elems =~= other@.elems);
            assert(self@ =~= other@);
        }
        true
    }
}

impl vstd::std_specs::cmp::PartialEqSpecImpl for Matrix {
    open spec fn obeys_eq_spec() -> bool {
        true
    }

    open spec fn eq_spec(&self, other: &Matrix) -> bool {
        self@ == other@
    }
}

/// Matrix addition is commutative: summing in either order gives the same
/// dimensions and the same elements.
pub proof fn lemma_add_commutative(a: MatrixView, b: MatrixView)
    requires
        a.wf(),
        b.wf(),
        a.rows == b.rows,
        a.cols == b.cols,
    ensures
        a.sum_with(b) == b.sum_with(a),
{
    assert(a.sum_with(b).elems =~= b.sum_with(a).elems);
    assert(a.sum_with(b) =~= b.sum_with(a));
}

/// Transposing a valid coordinate mirrors the element across the diagonal.
pub proof fn lemma_transposed_at(m: MatrixView, i: int, j: int)
    requires
        m.wf(),
        m.valid_index(i, j),
    ensures
        m.transposed().at(j, i) == m.at(i, j),
{
    lemma_flat_index_in_range(j, i, m.cols as int, m.rows as int);
    let n = j * m.rows + i;
    vstd::arithmetic::div_mod::lemma_fundamental_div_mod_converse(n, m.rows as int, j, i);
    assert(m.transposed().at(j, i) == m.transposed().elems[n]);
}

/// Transposing twice gives back the original matrix: the dimensions and
/// every element of the flat buffer round-trip.
pub proof fn lemma_transpose_involution(m: MatrixView)
    requires
        m.wf(),
    ensures
        m.transposed().wf(),
        m.transposed().transposed() == m,
{
    let t = m.transposed();
    let u = t.transposed();
    assert(m.cols * m.rows == m.rows * m.cols) by (nonlinear_arith);
    assert forall|n: int| 0 <= n < m.elems.len() implies u.elems[n] == m.elems[n] by {
        if m.cols > 0 {
            lemma_flat_index_decompose(n, m.rows as int, m.cols as int);
            let i = n / m.cols as int;
            let j = n % m.cols as int;
            lemma_transposed_at(m, i, j);
            lemma_transposed_at(t, j, i);
            lemma_flat_index_in_range(i, j, m.rows as int, m.cols as int);
            assert(u.at(i, j) == u.elems[n]);
            assert(u.at(i, j) == m.at(i, j));
        } else {
            assert(m.rows * m.cols == 0) by (nonlinear_arith)
                requires m.cols == 0;
        }
    }
    assert(u.elems =~= m.elems);
    assert(u =~= m);
}

/// Writing a valid cell then reading it back gives the written value, and
/// every other cell is unchanged.
pub proof fn lemma_set_then_get(m: MatrixView, i: int, j: int, v: int)
    requires
        m.wf(),
        m.valid_index(i, j),
    ensures
        m.updated(i, j, v).wf(),
        m.updated(i, j, v).rows == m.rows,
        m.updated(i, j, v).cols == m.cols,
        m.updated(i, j, v).at(i, j) == v,
        forall|a: int, b: int|
            m.valid_index(a, b) && (a != i || b != j) ==> m.updated(i, j, v).at(a, b) == m.at(a, b),
{
    lemma_flat_index_in_range(i, j, m.rows as int, m.cols as int);
    assert forall|a: int, b: int|
        m.valid_index(a, b) && (a != i || b != j) implies m.updated(i, j, v).at(a, b) == m.at(a, b)
    by {
        lemma_flat_index_in_range(a, b, m.rows as int, m.cols as int);
        if a * m.cols + b == i * m.cols + j {
            lemma_flat_index_injective(a, b, i, j, m.cols as int);
        }
    }
}

} // verus!
