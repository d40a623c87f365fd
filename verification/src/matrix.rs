//! A rectangular grid of exact numeric values, stored row-major, with
//! 1-based indexed and row-level access. Every way of changing a matrix
//! validates its operands first and reports a structured error instead of
//! panicking; no operation ever leaves a matrix in a partially updated state.

use vstd::prelude::*;

use crate::element::Element;

verus! {

/// Why a matrix operation was refused.
#[derive(PartialEq, Eq, Structural, Clone, Copy, Debug)]
pub enum MatrixError {
    /// A row or column argument fell outside `1..=bound`.
    IndexOutOfBounds { index: usize, bound: usize },
    /// Two operands that must agree in size did not: a replacement row
    /// against the column count, or the shapes of two matrices.
    DimensionMismatch { expected: usize, actual: usize },
    /// The requested dimensions and the supplied data do not describe a
    /// rectangular matrix: a dimension is zero, or the data length is not
    /// the product of the dimensions.
    ConstructionError { rows: usize, cols: usize, len: usize },
}

/// The outcome of a matrix operation that can fail.
pub type MatrixResult<T> = Result<T, MatrixError>;

/// Matrix that contains the specified data.
///
/// The cells live in a flat vector in row-major order: the cell in row `r`
/// and column `c` (both counted from 1) sits at flat index
/// `(r - 1) * cols + (c - 1)`. The vector's length is always exactly
/// `rows * cols`, and both dimensions are at least 1.
#[derive(PartialEq, Clone, Debug)]
pub struct Matrix<T> {
    pub data: Vec<T>,
    pub rows: usize,
    pub cols: usize,
}

impl<T: Element> Matrix<T> {
    /// The flat row-major contents of the matrix.
    pub open spec fn data_seq(self) -> Seq<T> {
        self.data@
    }

    /// The structural invariant: positive dimensions, a backing vector of
    /// exactly `rows * cols` cells, and every cell a valid element.
    pub open spec fn wf(self) -> bool {
        &&& self.rows >= 1
        &&& self.cols >= 1
        &&& self.data_seq().len() == self.rows * self.cols
        &&& forall|i: int|
            0 <= i < self.data_seq().len() ==> (#[trigger] self.data_seq()[i]).valid()
    }

    /// Where the cell of row `r`, column `c` (1-based) sits in the flat data.
    pub open spec fn flat_index(self, r: int, c: int) -> int {
        (r - 1) * self.cols + (c - 1)
    }

    /// The cell in row `r`, column `c`, both counted from 1.
    pub open spec fn cell_spec(self, r: int, c: int) -> T {
        self.data_seq()[self.flat_index(r, c)]
    }

    /// Whether `r` names a row: `1 <= r <= rows`.
    pub open spec fn row_ok(self, r: int) -> bool {
        1 <= r <= self.rows
    }

    /// Whether `c` names a column: `1 <= c <= cols`.
    pub open spec fn col_ok(self, c: int) -> bool {
        1 <= c <= self.cols
    }

    /// The contents of row `r`, left to right.
    pub open spec fn row_spec(self, r: int) -> Seq<T> {
        Seq::new(self.cols as nat, |c: int| self.cell_spec(r, c + 1))
    }

    /// Whether two matrices have the same dimensions.
    pub open spec fn same_shape(self, other: Self) -> bool {
        self.rows == other.rows && self.cols == other.cols
    }

    /// Whether two matrices are observably identical: same dimensions and
    /// the same cells.
    pub open spec fn congruent(self, other: Self) -> bool {
        self.same_shape(other) && self.data_seq() == other.data_seq()
    }

    /// The flat contents after replacing row `r` with `vals`.
    pub open spec fn with_row(self, r: int, vals: Seq<T>) -> Seq<T> {
        Seq::new(
            self.data_seq().len(),
            |i: int|
                if self.flat_index(r, 1) <= i < self.flat_index(r, 1) + self.cols {
                    vals[i - self.flat_index(r, 1)]
                } else {
                    self.data_seq()[i]
                },
        )
    }

    /// The backing vector's length fits the machine.
    pub proof fn lemma_len_bound(self)
        ensures
            self.data_seq().len() <= usize::MAX,
    {
        assert(self.data.len() == self.data_seq().len());
    }

    /// A cell named by a row and a column in range sits inside its row's
    /// stretch of the data, and that stretch sits inside the data.
    pub proof fn lemma_flat_index_bounds(self, r: int, c: int)
        requires
            self.row_ok(r),
            self.col_ok(c),
        ensures
            0 <= self.flat_index(r, c) < self.rows * self.cols,
            self.flat_index(r, 1) <= self.flat_index(r, c) < self.flat_index(r, 1) + self.cols,
            0 <= self.flat_index(r, 1),
            self.flat_index(r, 1) + self.cols <= self.rows * self.cols,
    {
        assert(0 <= (r - 1) * self.cols && (r - 1) * self.cols + self.cols <= self.rows
            * self.cols) by (nonlinear_arith)
            requires
                1 <= r <= self.rows,
                1 <= c <= self.cols,
        ;
    }

    /// Every flat index comes from exactly one row and column in range.
    pub proof fn lemma_flat_index_decompose(self, i: int)
        requires
            self.wf(),
            0 <= i < self.data_seq().len(),
        ensures
            self.row_ok(i / self.cols as int + 1),
            self.col_ok(i % self.cols as int + 1),
            i == self.flat_index(i / self.cols as int + 1, i % self.cols as int + 1),
    {
        let cols = self.cols as int;
        vstd::arithmetic::div_mod::lemma_fundamental_div_mod(i, cols);
        vstd::arithmetic::div_mod::lemma_mod_bound(i, cols);
        let q = i / cols;
        let m = i % cols;
        assert(0 <= q < self.rows && i == q * cols + m) by (nonlinear_arith)
            requires
                cols >= 1,
                0 <= i < self.rows * cols,
                i == cols * q + m,
                0 <= m < cols,
        ;
    }

    /// The flat index of a cell in range sits at row offset `r - 1` and
    /// column offset `c - 1`; decomposing it recovers the coordinates.
    pub proof fn lemma_flat_index_coords(self, r: int, c: int)
        requires
            self.wf(),
            self.row_ok(r),
            self.col_ok(c),
        ensures
            self.flat_index(r, c) / self.cols as int == r - 1,
            self.flat_index(r, c) % self.cols as int == c - 1,
    {
        vstd::arithmetic::div_mod::lemma_fundamental_div_mod_converse(
            self.flat_index(r, c),
            self.cols as int,
            r - 1,
            c - 1,
        );
    }

    /// Distinct coordinates in range name distinct flat indices.
    pub proof fn lemma_flat_index_injective(self, r: int, c: int, r2: int, c2: int)
        requires
            self.wf(),
            self.row_ok(r),
            self.col_ok(c),
            self.row_ok(r2),
            self.col_ok(c2),
        ensures
            (self.flat_index(r, c) == self.flat_index(r2, c2)) <==> (r == r2 && c == c2),
    {
        if self.flat_index(r, c) == self.flat_index(r2, c2) {
            self.lemma_flat_index_coords(r, c);
            self.lemma_flat_index_coords(r2, c2);
        }
    }

    /// A cell's flat index falls within the stretch of row `r2` exactly
    /// when the cell belongs to row `r2`.
    pub proof fn lemma_row_window(self, r: int, c: int, r2: int)
        requires
            self.wf(),
            self.row_ok(r),
            self.col_ok(c),
            self.row_ok(r2),
        ensures
            (self.flat_index(r2, 1) <= self.flat_index(r, c) < self.flat_index(r2, 1)
                + self.cols) <==> r == r2,
    {
        self.lemma_flat_index_bounds(r, c);
        self.lemma_flat_index_bounds(r2, 1);
        if self.flat_index(r2, 1) <= self.flat_index(r, c) < self.flat_index(r2, 1) + self.cols {
            self.lemma_flat_index_coords(r, c);
            vstd::arithmetic::div_mod::lemma_fundamental_div_mod_converse(
                self.flat_index(r, c),
                self.cols as int,
                r2 - 1,
                self.flat_index(r, c) - self.flat_index(r2, 1),
            );
        }
    }

    /// Every cell of a well-formed matrix is a valid element.
    pub proof fn lemma_cell_valid(self, r: int, c: int)
        requires
            self.wf(),
            self.row_ok(r),
            self.col_ok(c),
        ensures
            self.cell_spec(r, c).valid(),
    {
        self.lemma_flat_index_bounds(r, c);
    }

    /// Every entry of a row of a well-formed matrix is a valid element.
    pub proof fn lemma_row_valid(self, r: int)
        requires
            self.wf(),
            self.row_ok(r),
        ensures
            forall|k: int|
                0 <= k < self.row_spec(r).len() ==> (#[trigger] self.row_spec(r)[k]).valid(),
    {
        assert forall|k: int|
            0 <= k < self.row_spec(r).len() implies (#[trigger] self.row_spec(r)[k]).valid() by {
            self.lemma_cell_valid(r, k + 1);
        }
    }

    /// Creates a matrix with the given size that contains the given data.
    ///
    /// Succeeds exactly when both dimensions are positive and the data
    /// holds one value per cell.
    pub fn new(rows: usize, cols: usize, data: Vec<T>) -> (r: MatrixResult<Matrix<T>>)
        requires
            forall|i: int| 0 <= i < data@.len() ==> (#[trigger] data@[i]).valid(),
        ensures
            (rows >= 1 && cols >= 1 && data@.len() == rows * cols) <==> r is Ok,
            r matches Ok(m) ==> m.rows == rows && m.cols == cols && m.data_seq() == data@
                && m.wf(),
            r matches Err(e) ==> e == (MatrixError::ConstructionError {
                rows,
                cols,
                len: data.len(),
            }),
    {
        let len = data.len();
        let ok = match rows.checked_mul(cols) {
            Some(product) => rows >= 1 && cols >= 1 && len == product,
            None => false,
        };
        if ok {
            Ok(Matrix { data, rows, cols })
        } else {
            Err(MatrixError::ConstructionError { rows, cols, len })
        }
    }

    /// Creates a new matrix with the given size where every cell contains
    /// the given value.
    ///
    /// Succeeds exactly when both dimensions are positive and the cell
    /// count is representable.
    pub fn filled(rows: usize, cols: usize, default: T) -> (r: MatrixResult<Matrix<T>>)
        requires
            default.valid(),
        ensures
            (rows >= 1 && cols >= 1 && rows * cols <= usize::MAX) <==> r is Ok,
            r matches Ok(m) ==> m.rows == rows && m.cols == cols && m.wf() && forall|i: int|
                0 <= i < m.data_seq().len() ==> m.data_seq()[i] == default,
            r matches Err(e) ==> e == (MatrixError::ConstructionError { rows, cols, len: 0 }),
    {
        match rows.checked_mul(cols) {
            Some(product) if rows >= 1 && cols >= 1 => {
                let mut data: Vec<T> = Vec::new();
                let mut i: usize = 0;
                while i < product
                    invariant
                        i <= product,
                        data@.len() == i,
                        forall|k: int| 0 <= k < i as int ==> data@[k] == default,
                        default.valid(),
                    decreases product - i,
                {
                    data.push(default);
                    i += 1;
                }
                Ok(Matrix { data, rows, cols })
            },
            _ => Err(MatrixError::ConstructionError { rows, cols, len: 0 }),
        }
    }

    /// Gets the value in the specified row and column, if the row and
    /// column are contained in the matrix.
    pub fn get(&self, row: usize, col: usize) -> (r: Option<T>)
        requires
            self.wf(),
        ensures
            self.row_ok(row as int) && self.col_ok(col as int) ==> r == Some(
                self.cell_spec(row as int, col as int),
            ),
            !(self.row_ok(row as int) && self.col_ok(col as int)) ==> r is None,
    {
        if row > self.rows || col > self.cols || row < 1 || col < 1 {
            None
        } else {
            proof {
                self.lemma_flat_index_bounds(row as int, col as int);
                self.lemma_len_bound();
            }
            Some(self.data[(row - 1) * self.cols + (col - 1)])
        }
    }

    /// Returns an owned copy of row `row`, which must be in range.
    pub fn get_row(&self, row: usize) -> (r: Vec<T>)
        requires
            self.wf(),
            self.row_ok(row as int),
        ensures
            r@ == self.row_spec(row as int),
            r@.len() == self.cols,
    {
        let mut out: Vec<T> = Vec::new();
        let mut c: usize = 0;
        while c < self.cols
            invariant
                self.wf(),
                self.row_ok(row as int),
                c <= self.cols,
                out@.len() == c,
                forall|k: int|
                    0 <= k < c as int ==> out@[k] == self.cell_spec(row as int, k + 1),
            decreases self.cols - c,
        {
            proof {
                self.lemma_flat_index_bounds(row as int, c as int + 1);
                self.lemma_len_bound();
            }
            out.push(self.data[(row - 1) * self.cols + c]);
            c += 1;
        }
        proof {
            assert(out@ =~= self.row_spec(row as int));
        }
        out
    }

    /// Sets the one cell named by `row` and `col` to `value`; an index out
    /// of range is refused and the matrix left untouched.
    pub fn set(&mut self, row: usize, col: usize, value: T) -> (res: MatrixResult<()>)
        requires
            old(self).wf(),
            value.valid(),
        ensures
            final(self).rows == old(self).rows && final(self).cols == old(self).cols,
            final(self).wf(),
            old(self).row_ok(row as int) && old(self).col_ok(col as int) ==> res is Ok
                && final(self).data_seq() == old(self).data_seq().update(
                old(self).flat_index(row as int, col as int),
                value,
            ),
            !old(self).row_ok(row as int) ==> res == Err::<(), MatrixError>(
                MatrixError::IndexOutOfBounds { index: row, bound: old(self).rows },
            ) && final(self).congruent(*old(self)),
            old(self).row_ok(row as int) && !old(self).col_ok(col as int) ==> res == Err::<
                (),
                MatrixError,
            >(MatrixError::IndexOutOfBounds { index: col, bound: old(self).cols })
                && final(self).congruent(*old(self)),
    {
        if row < 1 || row > self.rows {
            Err(MatrixError::IndexOutOfBounds { index: row, bound: self.rows })
        } else if col < 1 || col > self.cols {
            Err(MatrixError::IndexOutOfBounds { index: col, bound: self.cols })
        } else {
            proof {
                self.lemma_flat_index_bounds(row as int, col as int);
                self.lemma_len_bound();
            }
            let i: usize = (row - 1) * self.cols + (col - 1);
            self.data.set(i, value);
            Ok(())
        }
    }

    /// Replaces row `row` with `values`, whose length must equal the
    /// column count; a row out of range or a wrong length is refused and
    /// the matrix left untouched.
    pub fn set_row(&mut self, row: usize, values: &[T]) -> (res: MatrixResult<()>)
        requires
            old(self).wf(),
            forall|i: int| 0 <= i < values@.len() ==> (#[trigger] values@[i]).valid(),
        ensures
            final(self).rows == old(self).rows && final(self).cols == old(self).cols,
            final(self).wf(),
            old(self).row_ok(row as int) && values@.len() == old(self).cols ==> res is Ok
                && final(self).data_seq() == old(self).with_row(row as int, values@),
            !old(self).row_ok(row as int) ==> res == Err::<(), MatrixError>(
                MatrixError::IndexOutOfBounds { index: row, bound: old(self).rows },
            ) && final(self).congruent(*old(self)),
            old(self).row_ok(row as int) && values@.len() != old(self).cols ==> res == Err::<
                (),
                MatrixError,
            >(MatrixError::DimensionMismatch { expected: old(self).cols, actual: values.len() })
                && final(self).congruent(*old(self)),
    {
        if row < 1 || row > self.rows {
            return Err(MatrixError::IndexOutOfBounds { index: row, bound: self.rows });
        }
        if values.len() != self.cols {
            return Err(MatrixError::DimensionMismatch {
                expected: self.cols,
                actual: values.len(),
            });
        }
        proof {
            self.lemma_flat_index_bounds(row as int, 1);
            self.lemma_len_bound();
        }
        let start: usize = (row - 1) * self.cols;
        let ghost orig = *self;
        let mut c: usize = 0;
        while c < self.cols
            invariant
                orig.wf(),
                orig.row_ok(row as int),
                self.rows == orig.rows,
                self.cols == orig.cols,
                values@.len() == orig.cols,
                start == orig.flat_index(row as int, 1),
                start + orig.cols <= orig.data_seq().len(),
                orig.data_seq().len() <= usize::MAX,
                c <= self.cols,
                self.data_seq().len() == orig.data_seq().len(),
                forall|i: int|
                    0 <= i < self.data_seq().len() && !(start as int <= i < start as int
                        + c as int) ==> #[trigger] self.data_seq()[i] == orig.data_seq()[i],
                forall|k: int|
                    0 <= k < c as int ==> #[trigger] self.data_seq()[start as int + k]
                        == values@[k],
            decreases self.cols - c,
        {
            self.data.set(start + c, values[c]);
            c += 1;
        }
        proof {
            assert forall|i: int|
                0 <= i < self.data_seq().len() implies self.data_seq()[i] == orig.with_row(
                row as int,
                values@,
            )[i] by {
                if start as int <= i < start as int + orig.cols {
                    assert(self.data_seq()[start as int + (i - start as int)] == values@[i
                        - start as int]);
                } else {
                    assert(self.data_seq()[i] == orig.data_seq()[i]);
                }
            }
            assert(self.data_seq() =~= orig.with_row(row as int, values@));
            assert forall|i: int| 0 <= i < self.data_seq().len() implies (#[trigger] self
                .data_seq()[i]).valid() by {
                assert(orig.data_seq()[i].valid());
            }
        }
        Ok(())
    }

    /// Changes each element of the row in place, left to right, with the
    /// given function; a row out of range is refused and the matrix left
    /// untouched.
    pub fn row_foreach<F: Fn(T) -> T>(&mut self, row: usize, cb: F) -> (res: MatrixResult<()>)
        requires
            old(self).wf(),
            old(self).row_ok(row as int) ==> forall|c: int|
                1 <= c <= old(self).cols ==> call_requires(
                    cb,
                    (old(self).cell_spec(row as int, c),),
                ),
            forall|t: T, u: T| #[trigger] call_ensures(cb, (t,), u) ==> u.valid(),
        ensures
            final(self).rows == old(self).rows && final(self).cols == old(self).cols,
            final(self).wf(),
            old(self).row_ok(row as int) ==> res is Ok && final(self).data_seq().len()
                == old(self).data_seq().len() && (forall|i: int|
                0 <= i < final(self).data_seq().len() && !(old(self).flat_index(row as int, 1)
                    <= i < old(self).flat_index(row as int, 1) + old(self).cols)
                    ==> #[trigger] final(self).data_seq()[i] == old(self).data_seq()[i]) && (
            forall|c: int|
                1 <= c <= old(self).cols ==> call_ensures(
                    cb,
                    (old(self).cell_spec(row as int, c),),
                    #[trigger] final(self).cell_spec(row as int, c),
                )),
            !old(self).row_ok(row as int) ==> res == Err::<(), MatrixError>(
                MatrixError::IndexOutOfBounds { index: row, bound: old(self).rows },
            ) && final(self).congruent(*old(self)),
    {
        if row < 1 || row > self.rows {
            return Err(MatrixError::IndexOutOfBounds { index: row, bound: self.rows });
        }
        proof {
            self.lemma_flat_index_bounds(row as int, 1);
            self.lemma_len_bound();
        }
        let start: usize = (row - 1) * self.cols;
        let ghost orig = *self;
        let mut c: usize = 0;
        while c < self.cols
            invariant
                orig.wf(),
                orig.row_ok(row as int),
                forall|k: int|
                    1 <= k <= orig.cols ==> call_requires(cb, (orig.cell_spec(row as int, k),)),
                forall|t: T, u: T| #[trigger] call_ensures(cb, (t,), u) ==> u.valid(),
                self.rows == orig.rows,
                self.cols == orig.cols,
                start == orig.flat_index(row as int, 1),
                start + orig.cols <= orig.data_seq().len(),
                c <= self.cols,
                self.data_seq().len() == orig.data_seq().len(),
                forall|i: int|
                    0 <= i < self.data_seq().len() && !(start as int <= i < start as int
                        + c as int) ==> #[trigger] self.data_seq()[i] == orig.data_seq()[i],
                forall|k: int|
                    0 <= k < c as int ==> call_ensures(
                        cb,
                        (orig.cell_spec(row as int, k + 1),),
                        #[trigger] self.data_seq()[start as int + k],
                    ),
            decreases self.cols - c,
        {
            proof {
                orig.lemma_flat_index_bounds(row as int, c as int + 1);
                orig.lemma_len_bound();
                assert(self.data_seq()[start as int + c as int] == orig.cell_spec(
                    row as int,
                    c as int + 1,
                ));
                assert(call_requires(cb, (orig.cell_spec(row as int, c as int + 1),)));
            }
            let updated = cb(self.data[start + c]);
            self.data.set(start + c, updated);
            c += 1;
        }
        proof {
            assert forall|i: int| 0 <= i < self.data_seq().len() implies (#[trigger] self
                .data_seq()[i]).valid() by {
                if start as int <= i < start as int + self.cols as int {
                    let k = i - start as int;
                    assert(call_ensures(
                        cb,
                        (orig.cell_spec(row as int, k + 1),),
                        self.data_seq()[start as int + k],
                    ));
                } else {
                    assert(orig.data_seq()[i].valid());
                }
            }
            assert forall|cc: int| 1 <= cc <= orig.cols implies call_ensures(
                cb,
                (orig.cell_spec(row as int, cc),),
                self.cell_spec(row as int, cc),
            ) by {
                orig.lemma_flat_index_bounds(row as int, cc);
                assert(self.data_seq()[start as int + (cc - 1)] == self.cell_spec(
                    row as int,
                    cc,
                ));
            }
        }
        Ok(())
    }

    /// A full row-major snapshot: one vector per row, each of length
    /// `cols`, outermost first row first.
    pub fn rows(&self) -> (r: Vec<Vec<T>>)
        requires
            self.wf(),
        ensures
            r@.len() == self.rows,
            forall|i: int| 0 <= i < r@.len() ==> (#[trigger] r@[i])@ == self.row_spec(i + 1),
    {
        let mut out: Vec<Vec<T>> = Vec::new();
        let mut done: usize = 0;
        while done < self.rows
            invariant
                self.wf(),
                done <= self.rows,
                out@.len() == done,
                forall|i: int| 0 <= i < out@.len() ==> (#[trigger] out@[i])@ == self.row_spec(i + 1),
            decreases self.rows - done,
        {
            out.push(self.get_row(done + 1));
            done += 1;
        }
        out
    }

    /// An independent matrix with the same dimensions and the same cells.
    pub fn duplicate(&self) -> (r: Matrix<T>)
        requires
            self.wf(),
        ensures
            r.congruent(*self),
            r.wf(),
    {
        let mut data: Vec<T> = Vec::new();
        let mut i: usize = 0;
        let len = self.data.len();
        while i < len
            invariant
                self.wf(),
                len == self.data_seq().len(),
                i <= len,
                data@.len() == i,
                forall|k: int| 0 <= k < i as int ==> data@[k] == self.data_seq()[k],
            decreases len - i,
        {
            data.push(self.data[i]);
            i += 1;
        }
        proof {
            assert(data@ =~= self.data_seq());
        }
        Matrix { data, rows: self.rows, cols: self.cols }
    }

    /// The elementwise sum of two matrices of identical shape; matrices of
    /// different shapes are refused.
    pub fn add(&self, rhs: &Matrix<T>) -> (r: MatrixResult<Matrix<T>>)
        requires
            self.wf(),
            rhs.wf(),
            self.same_shape(*rhs) ==> forall|i: int|
                0 <= i < self.data_seq().len() ==> T::add_ok(
                    #[trigger] self.data_seq()[i],
                    rhs.data_seq()[i],
                ),
        ensures
            self.same_shape(*rhs) ==> (r matches Ok(m) && m.rows == self.rows && m.cols
                == self.cols && m.wf() && m.data_seq().len() == self.data_seq().len() && forall|
                i: int,
            |
                0 <= i < m.data_seq().len() ==> #[trigger] m.data_seq()[i] == T::add_spec(
                    self.data_seq()[i],
                    rhs.data_seq()[i],
                )),
            self.rows != rhs.rows ==> r == Err::<Matrix<T>, MatrixError>(
                MatrixError::DimensionMismatch { expected: self.rows, actual: rhs.rows },
            ),
            self.rows == rhs.rows && self.cols != rhs.cols ==> r == Err::<Matrix<T>, MatrixError>(
                MatrixError::DimensionMismatch { expected: self.cols, actual: rhs.cols },
            ),
    {
        if self.rows != rhs.rows {
            return Err(MatrixError::DimensionMismatch { expected: self.rows, actual: rhs.rows });
        }
        if self.cols != rhs.cols {
            return Err(MatrixError::DimensionMismatch { expected: self.cols, actual: rhs.cols });
        }
        let len = self.data.len();
        let mut data: Vec<T> = Vec::new();
        let mut i: usize = 0;
        while i < len
            invariant
                self.wf(),
                rhs.wf(),
                self.same_shape(*rhs),
                forall|k: int|
                    0 <= k < self.data_seq().len() ==> T::add_ok(
                        #[trigger] self.data_seq()[k],
                        rhs.data_seq()[k],
                    ),
                len == self.data_seq().len(),
                rhs.data_seq().len() == len,
                i <= len,
                data@.len() == i,
                forall|k: int|
                    0 <= k < i as int ==> #[trigger] data@[k] == T::add_spec(
                        self.data_seq()[k],
                        rhs.data_seq()[k],
                    ) && data@[k].valid(),
            decreases len - i,
        {
            data.push(self.data[i].add(rhs.data[i]));
            i += 1;
        }
        Ok(Matrix { data, rows: self.rows, cols: self.cols })
    }

    /// The elementwise difference of two matrices of identical shape;
    /// matrices of different shapes are refused.
    pub fn sub(&self, rhs: &Matrix<T>) -> (r: MatrixResult<Matrix<T>>)
        requires
            self.wf(),
            rhs.wf(),
            self.same_shape(*rhs) ==> forall|i: int|
                0 <= i < self.data_seq().len() ==> T::sub_ok(
                    #[trigger] self.data_seq()[i],
                    rhs.data_seq()[i],
                ),
        ensures
            self.same_shape(*rhs) ==> (r matches Ok(m) && m.rows == self.rows && m.cols
                == self.cols && m.wf() && m.data_seq().len() == self.data_seq().len() && forall|
                i: int,
            |
                0 <= i < m.data_seq().len() ==> #[trigger] m.data_seq()[i] == T::sub_spec(
                    self.data_seq()[i],
                    rhs.data_seq()[i],
                )),
            self.rows != rhs.rows ==> r == Err::<Matrix<T>, MatrixError>(
                MatrixError::DimensionMismatch { expected: self.rows, actual: rhs.rows },
            ),
            self.rows == rhs.rows && self.cols != rhs.cols ==> r == Err::<Matrix<T>, MatrixError>(
                MatrixError::DimensionMismatch { expected: self.cols, actual: rhs.cols },
            ),
    {
        if self.rows != rhs.rows {
            return Err(MatrixError::DimensionMismatch { expected: self.rows, actual: rhs.rows });
        }
        if self.cols != rhs.cols {
            return Err(MatrixError::DimensionMismatch { expected: self.cols, actual: rhs.cols });
        }
        let len = self.data.len();
        let mut data: Vec<T> = Vec::new();
        let mut i: usize = 0;
        while i < len
            invariant
                self.wf(),
                rhs.wf(),
                self.same_shape(*rhs),
                forall|k: int|
                    0 <= k < self.data_seq().len() ==> T::sub_ok(
                        #[trigger] self.data_seq()[k],
                        rhs.data_seq()[k],
                    ),
                len == self.data_seq().len(),
                rhs.data_seq().len() == len,
                i <= len,
                data@.len() == i,
                forall|k: int|
                    0 <= k < i as int ==> #[trigger] data@[k] == T::sub_spec(
                        self.data_seq()[k],
                        rhs.data_seq()[k],
                    ) && data@[k].valid(),
            decreases len - i,
        {
            data.push(self.data[i].sub(rhs.data[i]));
            i += 1;
        }
        Ok(Matrix { data, rows: self.rows, cols: self.cols })
    }

    /// The text of row `r` up to column `c`: the cells' texts, in order,
    /// with nothing between them.
    pub open spec fn row_text_upto(self, r: int, c: int) -> Seq<char>
        decreases c,
    {
        if c <= 0 {
            Seq::empty()
        } else {
            self.row_text_upto(r, c - 1) + self.cell_spec(r, c).text_spec()
        }
    }

    /// The text of the matrix up to row `r`: the rows' texts separated by
    /// single newlines, with none at the end.
    pub open spec fn text_upto(self, r: int) -> Seq<char>
        decreases r,
    {
        if r <= 1 {
            self.row_text_upto(1, self.cols as int)
        } else {
            self.text_upto(r - 1) + seq!['\n'] + self.row_text_upto(r, self.cols as int)
        }
    }

    /// The canonical text of the matrix.
    pub open spec fn text_spec(self) -> Seq<char> {
        self.text_upto(self.rows as int)
    }

    /// Renders the matrix to text: rows separated by newlines, the cells
    /// of a row concatenated without a separator.
    pub fn render(&self) -> (s: String)
        requires
            self.wf(),
        ensures
            s@ == self.text_spec(),
    {
        let mut out = String::new();
        let mut done: usize = 0;
        while done < self.rows
            invariant
                self.wf(),
                done <= self.rows,
                done == 0 ==> out@ == Seq::<char>::empty(),
                done >= 1 ==> out@ == self.text_upto(done as int),
            decreases self.rows - done,
        {
            let r: usize = done + 1;
            if done > 0 {
                proof {
                    reveal_strlit("\n");
                }
                let ghost mid = out@;
                out.append("\n");
                proof {
                    assert(out@ =~= mid + seq!['\n']);
                }
            }
            let ghost row_start = out@;
            let mut c: usize = 0;
            while c < self.cols
                invariant
                    self.wf(),
                    1 <= r,
                    r <= self.rows,
                    c <= self.cols,
                    out@ == row_start + self.row_text_upto(r as int, c as int),
                decreases self.cols - c,
            {
                proof {
                    self.lemma_flat_index_bounds(r as int, c as int + 1);
                    self.lemma_len_bound();
                    self.lemma_cell_valid(r as int, c as int + 1);
                }
                let cell_text = self.data[(r - 1) * self.cols + c].to_text();
                out.append(cell_text.as_str());
                c += 1;
            }
            done += 1;
        }
        out
    }

    /// The full snapshot agrees with single-cell access: the sequence for
    /// row `r` has one entry per column, and its entry for column `c` is
    /// the cell at `(r, c)`.
    pub proof fn lemma_row_snapshot_agrees_with_get(self, r: int, c: int)
        requires
            self.wf(),
            self.row_ok(r),
            self.col_ok(c),
        ensures
            self.row_spec(r).len() == self.cols,
            self.row_spec(r)[c - 1] == self.cell_spec(r, c),
    {
    }
}

} // verus!
