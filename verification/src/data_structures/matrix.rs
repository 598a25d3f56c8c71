//! A dense matrix that owns its cells in row-major order.
//!
//! What a matrix stands for is its `Grid`: the dimensions and the cells. The
//! operations of a matrix are those of the trait `IsMatrix`; the constructors
//! belong to `Matrix` itself. Rows and columns are read through the cursors
//! `RowIterator` and `ColumnIterator`, which borrow the matrix.
use crate::layout::{
    cols_swapped, cols_swapped_before, flat_index, is_index, lemma_cols_swapped_one_more,
    lemma_flat_index_in_bounds, lemma_flat_index_is_unique, lemma_rows_swapped_one_more,
    lemma_transposing_ends, lemma_transposing_one_more, lemma_transposing_starts,
    lemma_transposing_wraps, rows_swapped,
    rows_swapped_before, same_shape, transposed_by_reference, transposing, with_exchanged, Grid,
};
use crate::scalar::Scalar;
use vstd::prelude::*;
use vstd::std_specs::iter::IteratorSpec;

verus! {

/// Why a matrix could not do what was asked of it.
#[derive(Debug, Clone, Copy, PartialEq, Eq, Structural)]
pub enum MatrixError {
    /// A row index is not less than the number of rows.
    RowOutOfBounds,
    /// A column index is not less than the number of columns.
    ColumnOutOfBounds,
}

/// An *m x n* matrix, with *m* `rows` and *n* `cols`, and one cell for each place.
#[derive(Clone, Debug, Hash, PartialEq, Eq, PartialOrd)]
pub struct Matrix<T> {
    rows: usize,
    cols: usize,
    data: Vec<T>,
}

/// What a matrix does. The contracts are stated over the grid that the matrix stands for.
pub trait IsMatrix<T> {
    /// The dimensions of the matrix and its cells in row-major order.
    spec fn grid(&self) -> Grid<T>;

    /// The number of rows.
    fn rows(&self) -> (rows: usize)
        ensures
            rows == self.grid().rows,
    ;

    /// The number of columns.
    fn cols(&self) -> (cols: usize)
        ensures
            cols == self.grid().cols,
    ;

    /// A reference to the cell at `(row, col)`, or `None` exactly where the
    /// matrix has no such place.
    fn get(&self, row: usize, col: usize) -> (cell: Option<&T>)
        requires
            self.grid().wf(),
        ensures
            self.grid().contains(row as int, col as int) ==> cell == Some(
                &self.grid().at(row as int, col as int),
            ),
            !self.grid().contains(row as int, col as int) ==> cell is None,
    ;

    /// A mutable reference to the cell at `(row, col)`, or `None` exactly
    /// where the matrix has no such place. What is written through the
    /// reference is what the cell holds afterwards; nothing else changes.
    fn get_mut(&mut self, row: usize, col: usize) -> (cell: Option<&mut T>)
        requires
            old(self).grid().wf(),
        ensures
            old(self).grid().contains(row as int, col as int) ==> cell is Some && *cell.unwrap() == old(self).grid().at(row as int, col as int) && final(self).grid() == old(self).grid().with(
                row as int,
                col as int,
                *final(cell.unwrap()),
            ),
            !old(self).grid().contains(row as int, col as int) ==> cell is None && final(self).grid()
                == old(self).grid(),
    ;

    /// Writes `value` to the cell at `(row, col)` and returns a reference to
    /// it, or changes nothing and returns `None` exactly where the matrix has
    /// no such place.
    fn set(&mut self, row: usize, col: usize, value: T) -> (cell: Option<&T>)
        requires
            old(self).grid().wf(),
        ensures
            old(self).grid().contains(row as int, col as int) ==> cell == Some(&value) && final(self).grid() == old(self).grid().with(row as int, col as int, value),
            !old(self).grid().contains(row as int, col as int) ==> cell is None && final(self).grid()
                == old(self).grid(),
    ;

    /// A cursor over the cells of the row `row`, by column.
    ///
    /// Fails with `RowOutOfBounds` exactly where `row` is not less than the number of rows.
    fn get_row(&self, row: usize) -> (cursor: Result<RowIterator<'_, T>, MatrixError>)
        requires
            self.grid().wf(),
        ensures
            row < self.grid().rows ==> cursor is Ok && cursor.unwrap().wf() && cursor.unwrap().remaining()
                == self.grid().row(row as int),
            row >= self.grid().rows ==> (cursor matches Err(error) && error
                == MatrixError::RowOutOfBounds),
    ;

    /// A cursor over the cells of the column `col`, by row.
    ///
    /// Fails with `ColumnOutOfBounds` exactly where `col` is not less than the number of columns.
    fn get_col(&self, col: usize) -> (cursor: Result<ColumnIterator<'_, T>, MatrixError>)
        requires
            self.grid().wf(),
        ensures
            col < self.grid().cols ==> cursor is Ok && cursor.unwrap().wf() && cursor.unwrap().remaining()
                == self.grid().column(col as int),
            col >= self.grid().cols ==> (cursor matches Err(error) && error
                == MatrixError::ColumnOutOfBounds),
    ;

    /// Exchanges the rows `row_a` and `row_b`, cell by cell.
    ///
    /// Fails with `RowOutOfBounds`, and changes nothing, exactly where one
    /// of the two is not less than the number of rows.
    fn swap_rows(&mut self, row_a: usize, row_b: usize) -> (result: Result<(), MatrixError>)
        requires
            old(self).grid().wf(),
        ensures
            row_a < old(self).grid().rows && row_b < old(self).grid().rows ==> result is Ok
                && rows_swapped(old(self).grid(), final(self).grid(), row_a as int, row_b as int),
            !(row_a < old(self).grid().rows && row_b < old(self).grid().rows) ==> result == Err::<
                (),
                MatrixError,
            >(MatrixError::RowOutOfBounds) && final(self).grid() == old(self).grid(),
    ;

    /// Exchanges the columns `col_a` and `col_b`, cell by cell.
    ///
    /// Fails with `ColumnOutOfBounds`, and changes nothing, exactly where
    /// one of the two is not less than the number of columns.
    fn swap_cols(&mut self, col_a: usize, col_b: usize) -> (result: Result<(), MatrixError>)
        requires
            old(self).grid().wf(),
        ensures
            col_a < old(self).grid().cols && col_b < old(self).grid().cols ==> result is Ok
                && cols_swapped(old(self).grid(), final(self).grid(), col_a as int, col_b as int),
            !(col_a < old(self).grid().cols && col_b < old(self).grid().cols) ==> result == Err::<
                (),
                MatrixError,
            >(MatrixError::ColumnOutOfBounds) && final(self).grid() == old(self).grid(),
    ;

    /// The transpose of the matrix: the cell at `(i, j)` of the result is a
    /// reference to the cell at `(j, i)` of this matrix.
    fn transpose(&self) -> (transpose: Matrix<&T>)
        requires
            self.grid().wf(),
        ensures
            transpose@.wf(),
            transposed_by_reference(self.grid(), transpose@),
    ;

    /// Calls `func` on every cell, in row-major order.
    ///
    /// Every cell has been handed to one call of `func` that returned.
    fn apply<F: FnMut(&T)>(&self, func: F)
        requires
            forall|k: int|
                0 <= k < self.grid().cells.len() ==> call_requires(func, (&#[trigger] self.grid().cells[k],)),
        ensures
            forall|k: int|
                0 <= k < self.grid().cells.len() ==> call_ensures(
                    func,
                    (&#[trigger] self.grid().cells[k],),
                    (),
                ),
    ;

    /// Calls `func` on every cell, in row-major order, and lets it change the cell.
    ///
    /// The matrix keeps its dimensions. Each cell holds afterwards what one
    /// call of `func` may leave in a cell that held what this one held.
    fn apply_mut<F: FnMut(&mut T)>(&mut self, func: F)
        requires
            forall|cell: &mut T| old(self).grid().cells.contains(*cell) ==> #[trigger] call_requires(func, (cell,)),
        ensures
            same_shape(old(self).grid(), final(self).grid()),
            forall|k: int|
                #![trigger is_index(k, old(self).grid().cells.len())]
                #![trigger final(self).grid().cells[k]]
                is_index(k, old(self).grid().cells.len()) ==> (exists|cell: &mut T|
                    *cell == old(self).grid().cells[k] && *final(cell) == final(self).grid().cells[k]
                        && #[trigger] call_ensures(func, (cell,), ())),
    ;
}

impl<T> Matrix<T> {
    /// The dimensions of the matrix and its cells in row-major order.
    pub closed spec fn view(&self) -> Grid<T> {
        Grid { rows: self.rows as nat, cols: self.cols as nat, cells: self.data@ }
    }

    /// Where a cell of a well-formed matrix is stored.
    proof fn lemma_cell_is_stored(&self, row: int, col: int)
        requires
            self@.wf(),
            self@.contains(row, col),
        ensures
            0 <= row * self.cols <= row * self.cols + col < self.data@.len() <= usize::MAX,
            row * self.cols + col == flat_index(row, col, self.cols as int),
            self.rows * self.cols == self.data@.len(),
    {
        lemma_flat_index_in_bounds(self.rows as int, self.cols as int, row, col);
        vstd::std_specs::vec::axiom_spec_len(&self.data);
        assert(0 <= row * self.cols) by (nonlinear_arith)
            requires
                0 <= row,
                0 <= self.cols,
        ;
    }

    /// Constructs a `rows` by `cols` matrix with the additive identity of `T` in every cell.
    pub fn new(rows: usize, cols: usize) -> (matrix: Matrix<T>) where T: Scalar
        requires
            rows > 0,
            cols > 0,
            rows * cols <= usize::MAX,
        ensures
            matrix@.wf(),
            matrix@.rows == rows,
            matrix@.cols == cols,
            forall|row: int, col: int|
                matrix@.contains(row, col) ==> #[trigger] matrix@.at(row, col)
                    == T::zero_value(),
    {
        let count: usize = rows * cols;
        let mut data: Vec<T> = Vec::new();
        let mut k: usize = 0;
        while k < count
            invariant
                k <= count,
                data@.len() == k,
                forall|i: int| 0 <= i < k ==> data@[i] == T::zero_value(),
            decreases count - k,
        {
            data.push(T::zero());
            k = k + 1;
        }
        let matrix = Matrix { rows, cols, data };
        proof {
            assert forall|row: int, col: int| matrix@.contains(row, col) implies #[trigger] matrix@.at(
                row,
                col,
            ) == T::zero_value() by {
                lemma_flat_index_in_bounds(rows as int, cols as int, row, col);
            }
        }
        matrix
    }

    /// Constructs a `rows` by `cols` matrix out of the first `rows * cols`
    /// values that `data` yields, row by row. What `data` yields beyond them
    /// is left alone.
    pub fn from_iter(rows: usize, cols: usize, data: impl Iterator<Item = T>) -> (matrix: Matrix<T>)
        requires
            rows > 0,
            cols > 0,
            rows * cols <= usize::MAX,
            data.obeys_prophetic_iter_laws(),
            data.remaining().len() >= rows * cols,
        ensures
            matrix@ == (Grid {
                rows: rows as nat,
                cols: cols as nat,
                cells: data.remaining().take(rows * cols),
            }),
            matrix@.wf(),
    {
        let count: usize = rows * cols;
        let mut source = data;
        let mut cells: Vec<T> = Vec::new();
        let ghost produced = source.remaining();
        while cells.len() < count
            invariant
                cells@.len() <= count,
                count <= produced.len(),
                source.obeys_prophetic_iter_laws(),
                source.remaining() == produced.skip(cells@.len() as int),
                cells@ == produced.take(cells@.len() as int),
            decreases count - cells@.len(),
        {
            match source.next() {
                Some(value) => {
                    proof {
                        assert(produced.take(cells@.len() as int + 1) =~= produced.take(cells@.len() as int).push(
                            value,
                        ));
                        assert(produced.skip(cells@.len() as int).drop_first() =~= produced.skip(
                            cells@.len() as int + 1,
                        ));
                    }
                    cells.push(value);
                },
                None => {
                    assert(false);
                },
            }
        }
        Matrix { rows, cols, data: cells }
    }

    /// Constructs a `rows` by `cols` matrix that owns `data` as its cells, in row-major order.
    pub fn from_vec(rows: usize, cols: usize, data: Vec<T>) -> (matrix: Matrix<T>)
        requires
            rows > 0,
            cols > 0,
            data@.len() == rows * cols,
        ensures
            matrix@ == (Grid { rows: rows as nat, cols: cols as nat, cells: data@ }),
            matrix@.wf(),
    {
        Matrix { rows, cols, data }
    }

    /// Constructs the identity matrix of `size` rows and columns: the
    /// multiplicative identity of `T` on the diagonal, the additive identity elsewhere.
    pub fn identity(size: usize) -> (matrix: Matrix<T>) where T: Scalar
        requires
            size > 0,
            size * size <= usize::MAX,
        ensures
            matrix@.wf(),
            matrix@.rows == size,
            matrix@.cols == size,
            forall|row: int, col: int|
                matrix@.contains(row, col) ==> #[trigger] matrix@.at(row, col) == (if row
                    == col {
                    T::one_value()
                } else {
                    T::zero_value()
                }),
    {
        let count: usize = size * size;
        let mut data: Vec<T> = Vec::new();
        let mut k: usize = 0;
        while k < count
            invariant
                k <= count,
                data@.len() == k,
                forall|i: int| 0 <= i < k ==> data@[i] == T::zero_value(),
            decreases count - k,
        {
            data.push(T::zero());
            k = k + 1;
        }

        proof {
            assert forall|row: int, col: int| 0 <= row < size && 0 <= col < size implies #[trigger] data@[flat_index(
                row,
                col,
                size as int,
            )] == T::zero_value() by {
                lemma_flat_index_in_bounds(size as int, size as int, row, col);
            }
            assert(size + 1 <= usize::MAX) by (nonlinear_arith)
                requires
                    size > 0,
                    size * size <= usize::MAX,
                    usize::MAX >= 2,
            ;
        }
        let mut i: usize = 0;
        while i < size
            invariant
                i <= size,
                size > 0,
                size + 1 <= usize::MAX,
                count == size * size,
                data@.len() == count,
                forall|row: int, col: int|
                    0 <= row < size && 0 <= col < size ==> #[trigger] data@[flat_index(row, col, size as int)]
                        == (if row == col && row < i {
                        T::one_value()
                    } else {
                        T::zero_value()
                    }),
            decreases size - i,
        {
            let ghost before = data@;
            proof {
                lemma_flat_index_in_bounds(size as int, size as int, i as int, i as int);
                assert(i * (size + 1) == flat_index(i as int, i as int, size as int)) by (nonlinear_arith)
                    requires
                        flat_index(i as int, i as int, size as int) == i * size + i,
                ;
            }
            data[i * (size + 1)] = T::one();
            proof {
                assert forall|row: int, col: int| 0 <= row < size && 0 <= col < size implies #[trigger] data@[flat_index(
                    row,
                    col,
                    size as int,
                )] == (if row == col && row < i + 1 {
                    T::one_value()
                } else {
                    T::zero_value()
                }) by {
                    lemma_flat_index_in_bounds(size as int, size as int, row, col);
                    if flat_index(row, col, size as int) == flat_index(i as int, i as int, size as int) {
                        lemma_flat_index_is_unique(size as int, row, col, i as int, i as int);
                    } else {
                        assert(data@[flat_index(row, col, size as int)] == before[flat_index(
                            row,
                            col,
                            size as int,
                        )]);
                    }
                }
            }
            i = i + 1;
        }
        Matrix { rows: size, cols: size, data }
    }
}

impl<T> IsMatrix<T> for Matrix<T> {
    open spec fn grid(&self) -> Grid<T> {
        self@
    }

    fn rows(&self) -> (rows: usize) {
        self.rows
    }

    fn cols(&self) -> (cols: usize) {
        self.cols
    }

    fn get(&self, row: usize, col: usize) -> (cell: Option<&T>) {
        if row < self.rows && col < self.cols {
            proof {
                self.lemma_cell_is_stored(row as int, col as int);
            }
            Some(&self.data[col + row * self.cols])
        } else {
            None
        }
    }

    fn get_mut(&mut self, row: usize, col: usize) -> (cell: Option<&mut T>) {
        if row < self.rows && col < self.cols {
            proof {
                self.lemma_cell_is_stored(row as int, col as int);
            }
            Some(&mut self.data[col + row * self.cols])
        } else {
            None
        }
    }

    fn set(&mut self, row: usize, col: usize, value: T) -> (cell: Option<&T>) {
        if row < self.rows && col < self.cols {
            proof {
                self.lemma_cell_is_stored(row as int, col as int);
            }
            self.data[col + row * self.cols] = value;
            self.get(row, col)
        } else {
            None
        }
    }

    fn get_row(&self, row: usize) -> (cursor: Result<RowIterator<'_, T>, MatrixError>) {
        if row < self.rows {
            let iter = RowIterator { matrix: self, current_col: 0, current_row: row };
            proof {
                assert(iter.remaining() =~= self@.row(row as int));
            }
            Ok(iter)
        } else {
            Err(MatrixError::RowOutOfBounds)
        }
    }

    fn get_col(&self, col: usize) -> (cursor: Result<ColumnIterator<'_, T>, MatrixError>) {
        if col < self.cols {
            let iter = ColumnIterator { matrix: self, current_col: col, current_row: 0 };
            proof {
                assert(iter.remaining() =~= self@.column(col as int));
            }
            Ok(iter)
        } else {
            Err(MatrixError::ColumnOutOfBounds)
        }
    }

    fn swap_rows(&mut self, row_a: usize, row_b: usize) -> (result: Result<(), MatrixError>) {
        if !(row_a < self.rows && row_b < self.rows) {
            return Err(MatrixError::RowOutOfBounds);
        }
        let mut col: usize = 0;
        while col < self.cols
            invariant
                col <= self.cols,
                row_a < self.rows,
                row_b < self.rows,
                self@.wf(),
                old(self).grid().wf(),
                rows_swapped_before(old(self).grid(), self@, row_a as int, row_b as int, col as int),
            decreases self.cols - col,
        {
            proof {
                self.lemma_cell_is_stored(row_a as int, col as int);
                self.lemma_cell_is_stored(row_b as int, col as int);
                lemma_rows_swapped_one_more(
                    old(self).grid(),
                    self@,
                    row_a as int,
                    row_b as int,
                    col as int,
                );
            }
            let ghost before = self@;
            self.data.swap(row_a * self.cols + col, row_b * self.cols + col);
            proof {
                assert(self@ == with_exchanged(before, row_a as int, col as int, row_b as int, col as int));
            }
            col = col + 1;
        }
        Ok(())
    }

    fn swap_cols(&mut self, col_a: usize, col_b: usize) -> (result: Result<(), MatrixError>) {
        if !(col_a < self.cols && col_b < self.cols) {
            return Err(MatrixError::ColumnOutOfBounds);
        }
        let mut row: usize = 0;
        while row < self.rows
            invariant
                row <= self.rows,
                col_a < self.cols,
                col_b < self.cols,
                self@.wf(),
                old(self).grid().wf(),
                cols_swapped_before(old(self).grid(), self@, col_a as int, col_b as int, row as int),
            decreases self.rows - row,
        {
            proof {
                self.lemma_cell_is_stored(row as int, col_a as int);
                self.lemma_cell_is_stored(row as int, col_b as int);
                lemma_cols_swapped_one_more(
                    old(self).grid(),
                    self@,
                    col_a as int,
                    col_b as int,
                    row as int,
                );
            }
            let ghost before = self@;
            self.data.swap((row * self.cols) + col_a, (row * self.cols) + col_b);
            proof {
                assert(self@ == with_exchanged(before, row as int, col_a as int, row as int, col_b as int));
            }
            row = row + 1;
        }
        Ok(())
    }

    fn transpose(&self) -> (transpose: Matrix<&T>) {
        proof {
            self.lemma_cell_is_stored(0, 0);
            assert(self.cols * self.rows == self.rows * self.cols) by (nonlinear_arith);
        }
        let ghost mirrors = |cell: T, mirror: &T| cell == *mirror;
        let mut data: Vec<&T> = Vec::with_capacity(self.cols * self.rows);
        let mut col: usize = 0;
        proof {
            lemma_transposing_starts(self@, mirrors);
        }
        while col < self.cols
            invariant
                col <= self.cols,
                self@.wf(),
                mirrors == |cell: T, mirror: &T| cell == *mirror,
                transposing(self@, data@, col as int, 0, mirrors),
            decreases self.cols - col,
        {
            let cursor = self.get_col(col);
            if let Ok(mut column_iter) = cursor {
                let ghost mut row: int = 0;
                loop
                    invariant_except_break
                        0 <= row <= self.rows,
                        column_iter.remaining() == self@.column(col as int).skip(row),
                        transposing(self@, data@, col as int, row, mirrors),
                    invariant
                        col < self.cols,
                        self@.wf(),
                        column_iter.wf(),
                        mirrors == |cell: T, mirror: &T| cell == *mirror,
                    ensures
                        transposing(self@, data@, col + 1, 0, mirrors),
                    decreases self.rows - row,
                {
                    match column_iter.next() {
                        Some(cell) => {
                            proof {
                                assert(*cell == self@.column(col as int).skip(row)[0]);
                                assert(mirrors(self@.at(row, col as int), cell));
                                lemma_transposing_one_more(self@, data@, col as int, row, mirrors, cell);
                                assert(self@.column(col as int).skip(row).drop_first()
                                    =~= self@.column(col as int).skip(row + 1));
                            }
                            data.push(cell);
                            proof {
                                row = row + 1;
                            }
                        },
                        None => {
                            proof {
                                assert(row == self.rows);
                                lemma_transposing_wraps(self@, data@, col as int, mirrors);
                            }
                            break ;
                        },
                    }
                }
            }
            col = col + 1;
        }
        proof {
            lemma_transposing_ends(self@, data@, mirrors);
        }
        let transpose = Matrix { rows: self.cols, cols: self.rows, data };
        proof {
            assert forall|row: int, col: int| transpose@.contains(row, col) implies *#[trigger] transpose@.at(
                row,
                col,
            ) == self@.at(col, row) by {
                lemma_flat_index_in_bounds(self.cols as int, self.rows as int, row, col);
                assert(mirrors(self@.at(col, row), data@[flat_index(row, col, self.rows as int)]));
            }
        }
        transpose
    }

    fn apply<F: FnMut(&T)>(&self, mut func: F) {
        broadcast use vstd::function::group_function_axioms;

        let count: usize = self.data.len();
        let mut k: usize = 0;
        let ghost visitor = func;
        while k < count
            invariant
                k <= count,
                count == self.data@.len(),
                func == visitor,
                forall|i: int|
                    0 <= i < self.grid().cells.len() ==> call_requires(
                        visitor,
                        (&#[trigger] self.grid().cells[i],),
                    ),
                forall|i: int|
                    0 <= i < k ==> call_ensures(visitor, (&#[trigger] self.grid().cells[i],), ()),
            decreases count - k,
        {
            assert(call_requires(func, (&self.grid().cells[k as int],)));
            func(&self.data[k]);
            k = k + 1;
        }
    }

    fn apply_mut<F: FnMut(&mut T)>(&mut self, mut func: F) {
        broadcast use vstd::function::group_function_axioms;
        let count: usize = self.data.len();
        let mut k: usize = 0;
        let ghost visitor = func;
        let ghost before = self.data@;
        while k < count
            invariant
                k <= count,
                count == self.data@.len(),
                count == before.len(),
                before == old(self).data@,
                self.rows == old(self).rows,
                self.cols == old(self).cols,
                func == visitor,
                forall|cell: &mut T| before.contains(*cell) ==> #[trigger] call_requires(visitor, (cell,)),
                forall|i: int| k <= i < count ==> self.data@[i] == before[i],
                forall|i: int|
                    #![trigger is_index(i, before.len())]
                    is_index(i, before.len()) && i < k ==> (exists|cell: &mut T|
                        *cell == before[i] && *final(cell) == self.data@[i] && #[trigger] call_ensures(
                            visitor,
                            (cell,),
                            (),
                        )),
            decreases count - k,
        {
            assert(self.data@[k as int] == before[k as int]);
            assert(before.contains(self.data@[k as int]));
            func(&mut self.data[k]);
            k = k + 1;
        }
    }
}

/// A cursor over one column of a matrix, from the first row on.
pub struct ColumnIterator<'a, T> {
    matrix: &'a Matrix<T>,
    current_col: usize,
    current_row: usize,
}

impl<'a, T> ColumnIterator<'a, T> {
    /// The cursor is on a matrix that is well formed.
    pub closed spec fn wf(&self) -> bool {
        self.matrix@.wf()
    }

    /// The cells that are still to come, in the order in which they come.
    pub closed spec fn remaining(&self) -> Seq<T> {
        if self.current_col < self.matrix.cols && self.current_row < self.matrix.rows {
            self.matrix@.column(self.current_col as int).skip(self.current_row as int)
        } else {
            Seq::empty()
        }
    }

    /// Returns the next cell of the column and moves on, or returns `None`
    /// once the column is at its end.
    pub fn next(&mut self) -> (item: Option<&'a T>)
        requires
            old(self).wf(),
        ensures
            final(self).wf(),
            old(self).remaining().len() > 0 ==> item == Some(&old(self).remaining()[0]) && final(self).remaining() == old(self).remaining().drop_first(),
            old(self).remaining().len() == 0 ==> item is None && final(self).remaining() == old(self).remaining(),
    {
        if self.current_col >= self.matrix.cols || self.current_row >= self.matrix.rows {
            None
        } else {
            let item = self.matrix.get(self.current_row, self.current_col);
            self.current_row += 1;
            proof {
                assert(final(self).remaining() =~= old(self).remaining().drop_first());
            }
            item
        }
    }
}

/// A cursor over one row of a matrix, from the first column on.
pub struct RowIterator<'a, T> {
    matrix: &'a Matrix<T>,
    current_col: usize,
    current_row: usize,
}

impl<'a, T> RowIterator<'a, T> {
    /// The cursor is on a matrix that is well formed.
    pub closed spec fn wf(&self) -> bool {
        self.matrix@.wf()
    }

    /// The cells that are still to come, in the order in which they come.
    pub closed spec fn remaining(&self) -> Seq<T> {
        if self.current_col < self.matrix.cols && self.current_row < self.matrix.rows {
            self.matrix@.row(self.current_row as int).skip(self.current_col as int)
        } else {
            Seq::empty()
        }
    }

    /// Returns the next cell of the row and moves on, or returns `None` once
    /// the row is at its end.
    pub fn next(&mut self) -> (item: Option<&'a T>)
        requires
            old(self).wf(),
        ensures
            final(self).wf(),
            old(self).remaining().len() > 0 ==> item == Some(&old(self).remaining()[0]) && final(self).remaining() == old(self).remaining().drop_first(),
            old(self).remaining().len() == 0 ==> item is None && final(self).remaining() == old(self).remaining(),
    {
        if self.current_col >= self.matrix.cols || self.current_row >= self.matrix.rows {
            None
        } else {
            let item = self.matrix.get(self.current_row, self.current_col);
            self.current_col += 1;
            proof {
                assert(final(self).remaining() =~= old(self).remaining().drop_first());
            }
            item
        }
    }
}

} // verus!
