//! A closed set of row operations over a matrix. Applying a command never
//! touches the matrix it is given: it validates its operands against the
//! matrix's shape and either returns a fresh matrix reflecting the
//! operation or a structured error saying which operand was out of range.

use vstd::prelude::*;

use crate::element::Element;
use crate::matrix::{Matrix, MatrixError, MatrixResult};

verus! {

/// One matrix transformation, as immutable data. Rows and columns are
/// counted from 1.
#[derive(PartialEq, Clone, Debug)]
pub enum Command<T> {
    /// Replace row `dest` by `dest + coeff * src`, elementwise. `src` and
    /// `dest` may be equal.
    AddRow { coeff: T, src: usize, dest: usize },
    /// Replace every cell of row `row` by `coeff` times the cell.
    ScaleRow { coeff: T, row: usize },
    /// Exchange the contents of the two rows. They may be equal.
    SwapRow { row1: usize, row2: usize },
    /// Set the one cell in row `row`, column `col` to `value`.
    EditCell { row: usize, col: usize, value: T },
}

impl<T: Element> Command<T> {
    /// Whether every row or column the command names falls inside the
    /// matrix's shape.
    pub open spec fn in_bounds(self, m: Matrix<T>) -> bool {
        match self {
            Command::AddRow { coeff, src, dest } => m.row_ok(src as int) && m.row_ok(dest as int),
            Command::ScaleRow { coeff, row } => m.row_ok(row as int),
            Command::SwapRow { row1, row2 } => m.row_ok(row1 as int) && m.row_ok(row2 as int),
            Command::EditCell { row, col, value } => m.row_ok(row as int) && m.col_ok(col as int),
        }
    }

    /// Whether the values the command carries are valid elements.
    pub open spec fn args_valid(self) -> bool {
        match self {
            Command::AddRow { coeff, src, dest } => coeff.valid(),
            Command::ScaleRow { coeff, row } => coeff.valid(),
            Command::SwapRow { row1, row2 } => true,
            Command::EditCell { row, col, value } => value.valid(),
        }
    }

    /// Whether the arithmetic the command asks for is representable on
    /// every cell it touches.
    pub open spec fn ops_ok(self, m: Matrix<T>) -> bool {
        match self {
            Command::AddRow { coeff, src, dest } => forall|c: int|
                1 <= c <= m.cols ==> T::mul_ok(coeff, #[trigger] m.cell_spec(src as int, c))
                    && T::add_ok(
                    T::mul_spec(coeff, m.cell_spec(src as int, c)),
                    m.cell_spec(dest as int, c),
                ),
            Command::ScaleRow { coeff, row } => forall|c: int|
                1 <= c <= m.cols ==> T::mul_ok(coeff, #[trigger] m.cell_spec(row as int, c)),
            Command::SwapRow { row1, row2 } => true,
            Command::EditCell { row, col, value } => true,
        }
    }

    /// The cell in row `r`, column `c` after the command runs on `m`.
    pub open spec fn cell_after(self, m: Matrix<T>, r: int, c: int) -> T {
        match self {
            Command::AddRow { coeff, src, dest } => if r == dest {
                T::add_spec(
                    T::mul_spec(coeff, m.cell_spec(src as int, c)),
                    m.cell_spec(dest as int, c),
                )
            } else {
                m.cell_spec(r, c)
            },
            Command::ScaleRow { coeff, row } => if r == row {
                T::mul_spec(coeff, m.cell_spec(r, c))
            } else {
                m.cell_spec(r, c)
            },
            Command::SwapRow { row1, row2 } => if r == row1 {
                m.cell_spec(row2 as int, c)
            } else if r == row2 {
                m.cell_spec(row1 as int, c)
            } else {
                m.cell_spec(r, c)
            },
            Command::EditCell { row, col, value } => if r == row && c == col {
                value
            } else {
                m.cell_spec(r, c)
            },
        }
    }

    /// The whole flat contents after the command runs on `m`.
    pub open spec fn new_data(self, m: Matrix<T>) -> Seq<T> {
        Seq::new(
            m.data_seq().len(),
            |i: int| self.cell_after(m, i / m.cols as int + 1, i % m.cols as int + 1),
        )
    }

    /// The error reported when the command names a row or column outside
    /// the matrix: the first offending operand, in the order the fields
    /// are checked (`src` before `dest`, `row1` before `row2`, the row
    /// before the column).
    pub open spec fn bounds_error(self, m: Matrix<T>) -> MatrixError {
        match self {
            Command::AddRow { coeff, src, dest } => if !m.row_ok(src as int) {
                MatrixError::IndexOutOfBounds { index: src, bound: m.rows }
            } else {
                MatrixError::IndexOutOfBounds { index: dest, bound: m.rows }
            },
            Command::ScaleRow { coeff, row } => MatrixError::IndexOutOfBounds {
                index: row,
                bound: m.rows,
            },
            Command::SwapRow { row1, row2 } => if !m.row_ok(row1 as int) {
                MatrixError::IndexOutOfBounds { index: row1, bound: m.rows }
            } else {
                MatrixError::IndexOutOfBounds { index: row2, bound: m.rows }
            },
            Command::EditCell { row, col, value } => if !m.row_ok(row as int) {
                MatrixError::IndexOutOfBounds { index: row, bound: m.rows }
            } else {
                MatrixError::IndexOutOfBounds { index: col, bound: m.cols }
            },
        }
    }

    /// Tests whether every row or column the command names falls inside
    /// the matrix's shape.
    pub fn in_bounds_for(&self, matrix: &Matrix<T>) -> (r: bool)
        requires
            matrix.wf(),
        ensures
            r == self.in_bounds(*matrix),
    {
        match self {
            Command::AddRow { coeff, src, dest } => *src >= 1 && *src <= matrix.rows && *dest >= 1
                && *dest <= matrix.rows,
            Command::ScaleRow { coeff, row } => *row >= 1 && *row <= matrix.rows,
            Command::SwapRow { row1, row2 } => *row1 >= 1 && *row1 <= matrix.rows && *row2 >= 1
                && *row2 <= matrix.rows,
            Command::EditCell { row, col, value } => *row >= 1 && *row <= matrix.rows && *col >= 1
                && *col <= matrix.cols,
        }
    }

    /// Tests whether the arithmetic the command asks for is representable
    /// on every cell it touches, so that a caller can refuse a command
    /// before applying it rather than trust that it cannot overflow.
    pub fn ops_ok_for(&self, matrix: &Matrix<T>) -> (r: bool)
        requires
            matrix.wf(),
            self.args_valid(),
            self.in_bounds(*matrix),
        ensures
            r == self.ops_ok(*matrix),
    {
        match self {
            Command::AddRow { coeff, src, dest } => {
                let mut c: usize = 0;
                while c < matrix.cols
                    invariant
                        matrix.wf(),
                        matrix.row_ok(*src as int),
                        matrix.row_ok(*dest as int),
                        coeff.valid(),
                        self.ops_ok(*matrix) == (forall|k: int|
                            1 <= k <= matrix.cols ==> T::mul_ok(
                                *coeff,
                                #[trigger] matrix.cell_spec(*src as int, k),
                            ) && T::add_ok(
                                T::mul_spec(*coeff, matrix.cell_spec(*src as int, k)),
                                matrix.cell_spec(*dest as int, k),
                            )),
                        c <= matrix.cols,
                        forall|k: int|
                            1 <= k <= c as int ==> T::mul_ok(
                                *coeff,
                                #[trigger] matrix.cell_spec(*src as int, k),
                            ) && T::add_ok(
                                T::mul_spec(*coeff, matrix.cell_spec(*src as int, k)),
                                matrix.cell_spec(*dest as int, k),
                            ),
                    decreases matrix.cols - c,
                {
                    proof {
                        matrix.lemma_cell_valid(*src as int, c as int + 1);
                        matrix.lemma_cell_valid(*dest as int, c as int + 1);
                        matrix.lemma_flat_index_bounds(*src as int, c as int + 1);
                        matrix.lemma_flat_index_bounds(*dest as int, c as int + 1);
                        matrix.lemma_len_bound();
                    }
                    let s = matrix.data[(*src - 1) * matrix.cols + c];
                    let d = matrix.data[(*dest - 1) * matrix.cols + c];
                    proof {
                        assert(s == matrix.cell_spec(*src as int, c as int + 1));
                        assert(d == matrix.cell_spec(*dest as int, c as int + 1));
                    }
                    if !coeff.can_mul(s) {
                        proof {
                            if self.ops_ok(*matrix) {
                                assert(T::mul_ok(
                                    *coeff,
                                    matrix.cell_spec(*src as int, c as int + 1),
                                ));
                            }
                        }
                        return false;
                    }
                    let scaled = coeff.mul(s);
                    if !scaled.can_add(d) {
                        proof {
                            if self.ops_ok(*matrix) {
                                assert(T::add_ok(
                                    T::mul_spec(
                                        *coeff,
                                        matrix.cell_spec(*src as int, c as int + 1),
                                    ),
                                    matrix.cell_spec(*dest as int, c as int + 1),
                                ));
                            }
                        }
                        return false;
                    }
                    c += 1;
                }
                true
            },
            Command::ScaleRow { coeff, row } => {
                let mut c: usize = 0;
                while c < matrix.cols
                    invariant
                        matrix.wf(),
                        matrix.row_ok(*row as int),
                        coeff.valid(),
                        self.ops_ok(*matrix) == (forall|k: int|
                            1 <= k <= matrix.cols ==> T::mul_ok(
                                *coeff,
                                #[trigger] matrix.cell_spec(*row as int, k),
                            )),
                        c <= matrix.cols,
                        forall|k: int|
                            1 <= k <= c as int ==> T::mul_ok(
                                *coeff,
                                #[trigger] matrix.cell_spec(*row as int, k),
                            ),
                    decreases matrix.cols - c,
                {
                    proof {
                        matrix.lemma_cell_valid(*row as int, c as int + 1);
                        matrix.lemma_flat_index_bounds(*row as int, c as int + 1);
                        matrix.lemma_len_bound();
                    }
                    let s = matrix.data[(*row - 1) * matrix.cols + c];
                    proof {
                        assert(s == matrix.cell_spec(*row as int, c as int + 1));
                    }
                    if !coeff.can_mul(s) {
                        proof {
                            if self.ops_ok(*matrix) {
                                assert(T::mul_ok(
                                    *coeff,
                                    matrix.cell_spec(*row as int, c as int + 1),
                                ));
                            }
                        }
                        return false;
                    }
                    c += 1;
                }
                true
            },
            Command::SwapRow { row1, row2 } => true,
            Command::EditCell { row, col, value } => true,
        }
    }

    /// Applies the command to a snapshot of `matrix` and returns the new
    /// matrix; `matrix` itself is never changed. Validation happens before
    /// any work: a command naming a row or column out of range yields
    /// exactly the out-of-bounds error for its first offending operand.
    pub fn apply(&self, matrix: &Matrix<T>) -> (r: MatrixResult<Matrix<T>>)
        requires
            matrix.wf(),
            self.args_valid(),
            self.in_bounds(*matrix) ==> self.ops_ok(*matrix),
        ensures
            self.in_bounds(*matrix) ==> (r matches Ok(m) && m.rows == matrix.rows && m.cols
                == matrix.cols && m.wf() && m.data_seq() == self.new_data(*matrix)),
            !self.in_bounds(*matrix) ==> r == Err::<Matrix<T>, MatrixError>(
                self.bounds_error(*matrix),
            ),
    {
        let mut copy = matrix.duplicate();
        match self {
            Command::AddRow { coeff, src, dest } => {
                if *src < 1 || *src > matrix.rows {
                    return Err(MatrixError::IndexOutOfBounds { index: *src, bound: matrix.rows });
                }
                if *dest < 1 || *dest > matrix.rows {
                    return Err(MatrixError::IndexOutOfBounds { index: *dest, bound: matrix.rows });
                }
                let src_row = matrix.get_row(*src);
                let dest_row = matrix.get_row(*dest);
                let mut new_dest: Vec<T> = Vec::new();
                let mut c: usize = 0;
                while c < matrix.cols
                    invariant
                        matrix.wf(),
                        matrix.row_ok(*src as int),
                        matrix.row_ok(*dest as int),
                        coeff.valid(),
                        forall|k: int|
                            1 <= k <= matrix.cols ==> T::mul_ok(
                                *coeff,
                                #[trigger] matrix.cell_spec(*src as int, k),
                            ) && T::add_ok(
                                T::mul_spec(*coeff, matrix.cell_spec(*src as int, k)),
                                matrix.cell_spec(*dest as int, k),
                            ),
                        src_row@ == matrix.row_spec(*src as int),
                        dest_row@ == matrix.row_spec(*dest as int),
                        c <= matrix.cols,
                        new_dest@.len() == c,
                        forall|k: int|
                            0 <= k < c as int ==> #[trigger] new_dest@[k] == T::add_spec(
                                T::mul_spec(*coeff, matrix.cell_spec(*src as int, k + 1)),
                                matrix.cell_spec(*dest as int, k + 1),
                            ) && new_dest@[k].valid(),
                    decreases matrix.cols - c,
                {
                    proof {
                        matrix.lemma_cell_valid(*src as int, c as int + 1);
                        matrix.lemma_cell_valid(*dest as int, c as int + 1);
                    }
                    new_dest.push(coeff.mul(src_row[c]).add(dest_row[c]));
                    c += 1;
                }
                let ghost before = copy;
                copy.set_row(*dest, new_dest.as_slice())?;
                proof {
                    assert(before.with_row(*dest as int, new_dest@) =~= matrix.with_row(
                        *dest as int,
                        new_dest@,
                    ));
                    self.lemma_row_update_matches(
                        *matrix,
                        copy,
                        *coeff,
                        *src,
                        *dest,
                        new_dest@,
                    );
                }
                Ok(copy)
            },
            Command::ScaleRow { coeff, row } => {
                if *row < 1 || *row > matrix.rows {
                    return Err(MatrixError::IndexOutOfBounds { index: *row, bound: matrix.rows });
                }
                let k = *coeff;
                let scale = |x: T| -> (s: T)
                    requires
                        x.valid(),
                        k.valid(),
                        T::mul_ok(k, x),
                    ensures
                        s == T::mul_spec(k, x),
                        s.valid(),
                    { k.mul(x) };
                let ghost before = copy;
                proof {
                    assert forall|c: int| 1 <= c <= before.cols implies call_requires(
                        scale,
                        (before.cell_spec(*row as int, c),),
                    ) by {
                        matrix.lemma_cell_valid(*row as int, c);
                        assert(before.cell_spec(*row as int, c) == matrix.cell_spec(
                            *row as int,
                            c,
                        ));
                    }
                }
                copy.row_foreach(*row, scale)?;
                proof {
                    self.lemma_scale_matches(*matrix, copy, k, *row, scale);
                }
                Ok(copy)
            },
            Command::SwapRow { row1, row2 } => {
                if *row1 < 1 || *row1 > matrix.rows {
                    return Err(MatrixError::IndexOutOfBounds { index: *row1, bound: matrix.rows });
                }
                if *row2 < 1 || *row2 > matrix.rows {
                    return Err(MatrixError::IndexOutOfBounds { index: *row2, bound: matrix.rows });
                }
                let r1 = matrix.get_row(*row1);
                let r2 = matrix.get_row(*row2);
                proof {
                    matrix.lemma_row_valid(*row1 as int);
                    matrix.lemma_row_valid(*row2 as int);
                }
                let ghost before = copy;
                copy.set_row(*row1, r2.as_slice())?;
                let ghost mid = copy;
                copy.set_row(*row2, r1.as_slice())?;
                proof {
                    assert(before.with_row(*row1 as int, r2@) =~= matrix.with_row(
                        *row1 as int,
                        matrix.row_spec(*row2 as int),
                    ));
                    self.lemma_swap_matches(*matrix, mid, copy, *row1, *row2);
                }
                Ok(copy)
            },
            Command::EditCell { row, col, value } => {
                if *row < 1 || *row > matrix.rows {
                    return Err(MatrixError::IndexOutOfBounds { index: *row, bound: matrix.rows });
                }
                if *col < 1 || *col > matrix.cols {
                    return Err(MatrixError::IndexOutOfBounds { index: *col, bound: matrix.cols });
                }
                copy.set(*row, *col, *value)?;
                proof {
                    self.lemma_edit_matches(*matrix, copy, *row, *col, *value);
                }
                Ok(copy)
            },
        }
    }

    /// Swapping a row with itself is a no-op: the command is accepted and
    /// its result has exactly the cells of the original matrix.
    pub proof fn lemma_swap_self_noop(m: Matrix<T>, a: usize)
        requires
            m.wf(),
            m.row_ok(a as int),
        ensures
            (Command::SwapRow::<T> { row1: a, row2: a }).in_bounds(m),
            (Command::SwapRow::<T> { row1: a, row2: a }).args_valid(),
            (Command::SwapRow::<T> { row1: a, row2: a }).ops_ok(m),
            (Command::SwapRow::<T> { row1: a, row2: a }).new_data(m) == m.data_seq(),
    {
        let cmd = Command::SwapRow::<T> { row1: a, row2: a };
        assert forall|i: int| 0 <= i < m.data_seq().len() implies cmd.new_data(m)[i]
            == m.data_seq()[i] by {
            m.lemma_flat_index_decompose(i);
        }
        assert(cmd.new_data(m) =~= m.data_seq());
    }

    /// Scaling a row by the multiplicative identity is a no-op: the
    /// command is accepted, its arithmetic is always representable, and
    /// its result has exactly the cells of the original matrix.
    pub proof fn lemma_scale_one_noop(m: Matrix<T>, row: usize)
        requires
            m.wf(),
            m.row_ok(row as int),
        ensures
            (Command::ScaleRow::<T> { coeff: T::one_spec(), row }).in_bounds(m),
            (Command::ScaleRow::<T> { coeff: T::one_spec(), row }).args_valid(),
            (Command::ScaleRow::<T> { coeff: T::one_spec(), row }).ops_ok(m),
            (Command::ScaleRow::<T> { coeff: T::one_spec(), row }).new_data(m) == m.data_seq(),
    {
        let cmd = Command::ScaleRow::<T> { coeff: T::one_spec(), row };
        T::law_identities_valid();
        assert forall|c: int| 1 <= c <= m.cols implies T::mul_ok(
            T::one_spec(),
            #[trigger] m.cell_spec(row as int, c),
        ) && T::mul_spec(T::one_spec(), m.cell_spec(row as int, c)) == m.cell_spec(
            row as int,
            c,
        ) by {
            m.lemma_cell_valid(row as int, c);
            T::law_mul_one(m.cell_spec(row as int, c));
        }
        assert forall|i: int| 0 <= i < m.data_seq().len() implies cmd.new_data(m)[i]
            == m.data_seq()[i] by {
            m.lemma_flat_index_decompose(i);
        }
        assert(cmd.new_data(m) =~= m.data_seq());
    }

    /// Adding the zero multiple of any row to any other row is a no-op:
    /// the command is accepted, its arithmetic is always representable,
    /// and its result has exactly the cells of the original matrix.
    pub proof fn lemma_add_zero_noop(m: Matrix<T>, src: usize, dest: usize)
        requires
            m.wf(),
            m.row_ok(src as int),
            m.row_ok(dest as int),
        ensures
            (Command::AddRow::<T> { coeff: T::zero_spec(), src, dest }).in_bounds(m),
            (Command::AddRow::<T> { coeff: T::zero_spec(), src, dest }).args_valid(),
            (Command::AddRow::<T> { coeff: T::zero_spec(), src, dest }).ops_ok(m),
            (Command::AddRow::<T> { coeff: T::zero_spec(), src, dest }).new_data(m)
                == m.data_seq(),
    {
        let cmd = Command::AddRow::<T> { coeff: T::zero_spec(), src, dest };
        T::law_identities_valid();
        assert forall|c: int| 1 <= c <= m.cols implies T::mul_ok(
            T::zero_spec(),
            #[trigger] m.cell_spec(src as int, c),
        ) && T::add_ok(
            T::mul_spec(T::zero_spec(), m.cell_spec(src as int, c)),
            m.cell_spec(dest as int, c),
        ) && T::add_spec(
            T::mul_spec(T::zero_spec(), m.cell_spec(src as int, c)),
            m.cell_spec(dest as int, c),
        ) == m.cell_spec(dest as int, c) by {
            m.lemma_cell_valid(src as int, c);
            m.lemma_cell_valid(dest as int, c);
            T::law_mul_zero(m.cell_spec(src as int, c));
            T::law_add_zero(m.cell_spec(dest as int, c));
        }
        assert forall|i: int| 0 <= i < m.data_seq().len() implies cmd.new_data(m)[i]
            == m.data_seq()[i] by {
            m.lemma_flat_index_decompose(i);
        }
        assert(cmd.new_data(m) =~= m.data_seq());
    }

    /// Swapping two rows twice returns the matrix to its original state:
    /// applying `SwapRow` to any matrix holding the result of the first
    /// swap yields the cells the first matrix started with.
    pub proof fn lemma_swap_involution(m: Matrix<T>, mid: Matrix<T>, i: usize, j: usize)
        requires
            m.wf(),
            m.row_ok(i as int),
            m.row_ok(j as int),
            mid.rows == m.rows,
            mid.cols == m.cols,
            mid.data_seq() == (Command::SwapRow::<T> { row1: i, row2: j }).new_data(m),
        ensures
            (Command::SwapRow::<T> { row1: i, row2: j }).new_data(mid) == m.data_seq(),
    {
        let cmd = Command::SwapRow::<T> { row1: i, row2: j };
        assert forall|x: int| 0 <= x < m.data_seq().len() implies cmd.new_data(mid)[x]
            == m.data_seq()[x] by {
            m.lemma_flat_index_decompose(x);
            let r = x / m.cols as int + 1;
            let c = x % m.cols as int + 1;
            if r == i {
                m.lemma_flat_index_coords(j as int, c);
                m.lemma_flat_index_bounds(j as int, c);
                assert(mid.cell_spec(j as int, c) == cmd.new_data(m)[m.flat_index(j as int, c)]);
                assert(cmd.new_data(m)[m.flat_index(j as int, c)] == cmd.cell_after(
                    m,
                    j as int,
                    c,
                ));
            } else if r == j {
                m.lemma_flat_index_coords(i as int, c);
                m.lemma_flat_index_bounds(i as int, c);
                assert(mid.cell_spec(i as int, c) == cmd.new_data(m)[m.flat_index(i as int, c)]);
                assert(cmd.new_data(m)[m.flat_index(i as int, c)] == cmd.cell_after(
                    m,
                    i as int,
                    c,
                ));
            } else {
                assert(mid.cell_spec(r, c) == cmd.new_data(m)[x]);
            }
        }
        assert(cmd.new_data(mid) =~= m.data_seq());
    }

    /// After replacing row `dest` of a copy of `m` with the combined row,
    /// the copy's contents are exactly the command's result.
    proof fn lemma_row_update_matches(
        self,
        m: Matrix<T>,
        out: Matrix<T>,
        coeff: T,
        src: usize,
        dest: usize,
        vals: Seq<T>,
    )
        requires
            m.wf(),
            (self == Command::AddRow::<T> { coeff, src, dest }),
            m.row_ok(src as int),
            m.row_ok(dest as int),
            out.rows == m.rows,
            out.cols == m.cols,
            vals.len() == m.cols,
            forall|k: int|
                0 <= k < vals.len() ==> #[trigger] vals[k] == T::add_spec(
                    T::mul_spec(coeff, m.cell_spec(src as int, k + 1)),
                    m.cell_spec(dest as int, k + 1),
                ),
            out.data_seq() == m.with_row(dest as int, vals),
        ensures
            out.data_seq() == self.new_data(m),
    {
        assert forall|i: int| 0 <= i < m.data_seq().len() implies out.data_seq()[i]
            == self.new_data(m)[i] by {
            m.lemma_flat_index_decompose(i);
            let r = i / m.cols as int + 1;
            let c = i % m.cols as int + 1;
            m.lemma_row_window(r, c, dest as int);
            if r == dest {
                assert(out.data_seq()[i] == vals[i - m.flat_index(dest as int, 1)]);
                assert(i - m.flat_index(dest as int, 1) == c - 1);
            }
        }
        assert(out.data_seq() =~= self.new_data(m));
    }

    /// After scaling row `row` of a copy of `m` in place, the copy's
    /// contents are exactly the command's result.
    proof fn lemma_scale_matches<F: Fn(T) -> T>(
        self,
        m: Matrix<T>,
        out: Matrix<T>,
        coeff: T,
        row: usize,
        f: F,
    )
        requires
            m.wf(),
            (self == Command::ScaleRow::<T> { coeff, row }),
            m.row_ok(row as int),
            out.rows == m.rows,
            out.cols == m.cols,
            out.data_seq().len() == m.data_seq().len(),
            forall|t: T, u: T| #[trigger] call_ensures(f, (t,), u) ==> u == T::mul_spec(coeff, t),
            forall|i: int|
                0 <= i < out.data_seq().len() && !(m.flat_index(row as int, 1) <= i < m.flat_index(
                    row as int,
                    1,
                ) + m.cols) ==> #[trigger] out.data_seq()[i] == m.data_seq()[i],
            forall|c: int|
                1 <= c <= m.cols ==> call_ensures(
                    f,
                    (m.cell_spec(row as int, c),),
                    #[trigger] out.cell_spec(row as int, c),
                ),
        ensures
            out.data_seq() == self.new_data(m),
    {
        assert forall|i: int| 0 <= i < m.data_seq().len() implies out.data_seq()[i]
            == self.new_data(m)[i] by {
            m.lemma_flat_index_decompose(i);
            let r = i / m.cols as int + 1;
            let c = i % m.cols as int + 1;
            m.lemma_row_window(r, c, row as int);
            if r == row {
                assert(out.cell_spec(r, c) == out.data_seq()[i]);
                assert(call_ensures(f, (m.cell_spec(r, c),), out.cell_spec(r, c)));
            }
        }
        assert(out.data_seq() =~= self.new_data(m));
    }

    /// After writing row 2's old contents over row 1 and then row 1's old
    /// contents over row 2 in a copy of `m`, the copy's contents are
    /// exactly the command's result.
    proof fn lemma_swap_matches(
        self,
        m: Matrix<T>,
        mid: Matrix<T>,
        out: Matrix<T>,
        row1: usize,
        row2: usize,
    )
        requires
            m.wf(),
            (self == Command::SwapRow::<T> { row1, row2 }),
            m.row_ok(row1 as int),
            m.row_ok(row2 as int),
            mid.rows == m.rows,
            mid.cols == m.cols,
            mid.data_seq() == m.with_row(row1 as int, m.row_spec(row2 as int)),
            out.rows == m.rows,
            out.cols == m.cols,
            out.data_seq() == mid.with_row(row2 as int, m.row_spec(row1 as int)),
        ensures
            out.data_seq() == self.new_data(m),
    {
        assert forall|i: int| 0 <= i < m.data_seq().len() implies out.data_seq()[i]
            == self.new_data(m)[i] by {
            m.lemma_flat_index_decompose(i);
            let r = i / m.cols as int + 1;
            let c = i % m.cols as int + 1;
            m.lemma_row_window(r, c, row1 as int);
            m.lemma_row_window(r, c, row2 as int);
            assert(mid.flat_index(row2 as int, 1) == m.flat_index(row2 as int, 1));
            if m.flat_index(row2 as int, 1) <= i < m.flat_index(row2 as int, 1) + m.cols {
                assert(out.data_seq()[i] == m.row_spec(row1 as int)[i - m.flat_index(
                    row2 as int,
                    1,
                )]);
                assert(i - m.flat_index(row2 as int, 1) == c - 1);
            } else if m.flat_index(row1 as int, 1) <= i < m.flat_index(row1 as int, 1) + m.cols {
                assert(out.data_seq()[i] == mid.data_seq()[i]);
                assert(mid.data_seq()[i] == m.row_spec(row2 as int)[i - m.flat_index(
                    row1 as int,
                    1,
                )]);
                assert(i - m.flat_index(row1 as int, 1) == c - 1);
            } else {
                assert(out.data_seq()[i] == mid.data_seq()[i]);
                assert(mid.data_seq()[i] == m.data_seq()[i]);
            }
        }
        assert(out.data_seq() =~= self.new_data(m));
    }

    /// After setting the one cell in a copy of `m`, the copy's contents
    /// are exactly the command's result.
    proof fn lemma_edit_matches(
        self,
        m: Matrix<T>,
        out: Matrix<T>,
        row: usize,
        col: usize,
        value: T,
    )
        requires
            m.wf(),
            (self == Command::EditCell::<T> { row, col, value }),
            m.row_ok(row as int),
            m.col_ok(col as int),
            out.rows == m.rows,
            out.cols == m.cols,
            out.data_seq() == m.data_seq().update(m.flat_index(row as int, col as int), value),
        ensures
            out.data_seq() == self.new_data(m),
    {
        m.lemma_flat_index_bounds(row as int, col as int);
        assert forall|i: int| 0 <= i < m.data_seq().len() implies out.data_seq()[i]
            == self.new_data(m)[i] by {
            m.lemma_flat_index_decompose(i);
            let r = i / m.cols as int + 1;
            let c = i % m.cols as int + 1;
            m.lemma_flat_index_injective(r, c, row as int, col as int);
        }
        assert(out.data_seq() =~= self.new_data(m));
    }
}

} // verus!
