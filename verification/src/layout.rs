//! Row-major addressing, and the grid that a dense matrix stands for.
//!
//! A grid of `rows` by `cols` cells is stored as one sequence, row after row:
//! the cell at `(row, col)` is the element at `row * cols + col`.
use vstd::arithmetic::div_mod::{lemma_fundamental_div_mod, lemma_mod_bound};
use vstd::prelude::*;

verus! {

/// Index, in a row-major sequence, of the cell at `(row, col)` of a grid with `cols` columns.
pub open spec fn flat_index(row: int, col: int, cols: int) -> int {
    row * cols + col
}

/// `i` is an index into a sequence of `n` elements.
pub open spec fn is_index(i: int, n: nat) -> bool {
    0 <= i < n
}

/// The index `i` after the indices `a` and `b` have changed places.
pub open spec fn exchanged(i: int, a: int, b: int) -> int {
    if i == a {
        b
    } else if i == b {
        a
    } else {
        i
    }
}

/// What a dense matrix stands for: its dimensions and its cells in row-major order.
pub struct Grid<T> {
    pub rows: nat,
    pub cols: nat,
    pub cells: Seq<T>,
}

impl<T> Grid<T> {
    /// The grid has at least one row and one column, and one cell for each place.
    pub open spec fn wf(self) -> bool {
        &&& self.rows > 0
        &&& self.cols > 0
        &&& self.cells.len() == self.rows * self.cols
    }

    /// `(row, col)` is a place of the grid.
    pub open spec fn contains(self, row: int, col: int) -> bool {
        0 <= row < self.rows && 0 <= col < self.cols
    }

    /// The cell at `(row, col)`.
    pub open spec fn at(self, row: int, col: int) -> T {
        self.cells[flat_index(row, col, self.cols as int)]
    }

    /// The cells of the row `row`, by column.
    pub open spec fn row(self, row: int) -> Seq<T> {
        Seq::new(self.cols, |col: int| self.at(row, col))
    }

    /// The cells of the column `col`, by row.
    pub open spec fn column(self, col: int) -> Seq<T> {
        Seq::new(self.rows, |row: int| self.at(row, col))
    }

    /// The grid with `value` in the cell at `(row, col)`.
    pub open spec fn with(self, row: int, col: int, value: T) -> Grid<T> {
        Grid {
            rows: self.rows,
            cols: self.cols,
            cells: self.cells.update(flat_index(row, col, self.cols as int), value),
        }
    }
}

/// `after` has the dimensions of `before` and as many cells.
pub open spec fn same_shape<A, B>(before: Grid<A>, after: Grid<B>) -> bool {
    &&& after.rows == before.rows
    &&& after.cols == before.cols
    &&& after.cells.len() == before.cells.len()
}

/// `after` is `before` with the rows `a` and `b` exchanged, cell by cell.
pub open spec fn rows_swapped<T>(before: Grid<T>, after: Grid<T>, a: int, b: int) -> bool {
    &&& same_shape(before, after)
    &&& forall|row: int, col: int|
        before.contains(row, col) ==> #[trigger] after.at(row, col) == before.at(exchanged(row, a, b), col)
}

/// `after` is `before` with the columns `a` and `b` exchanged, cell by cell.
pub open spec fn cols_swapped<T>(before: Grid<T>, after: Grid<T>, a: int, b: int) -> bool {
    &&& same_shape(before, after)
    &&& forall|row: int, col: int|
        before.contains(row, col) ==> #[trigger] after.at(row, col) == before.at(row, exchanged(col, a, b))
}

/// `after` is the transpose of `before`, each of its cells a reference to the
/// cell of `before` that it mirrors.
pub open spec fn transposed_by_reference<T>(before: Grid<T>, after: Grid<&T>) -> bool {
    &&& after.rows == before.cols
    &&& after.cols == before.rows
    &&& after.cells.len() == before.cells.len()
    &&& forall|row: int, col: int|
        after.contains(row, col) ==> *#[trigger] after.at(row, col) == before.at(col, row)
}

/// `after` is the transpose of `before`, each of its cells a clone of the
/// cell of `before` that it mirrors.
pub open spec fn transposed_by_clone<T: Clone>(before: Grid<T>, after: Grid<T>) -> bool {
    &&& after.rows == before.cols
    &&& after.cols == before.rows
    &&& after.cells.len() == before.cells.len()
    &&& forall|row: int, col: int|
        after.contains(row, col) ==> cloned(before.at(col, row), #[trigger] after.at(row, col))
}

/// A place of a grid has an index among its cells.
pub proof fn lemma_flat_index_in_bounds(rows: int, cols: int, row: int, col: int)
    requires
        0 <= row < rows,
        0 <= col < cols,
    ensures
        0 <= flat_index(row, col, cols) < rows * cols,
        flat_index(row, col, cols) == row * cols + col,
{
    assert(0 <= row * cols + col < rows * cols) by (nonlinear_arith)
        requires
            0 <= row < rows,
            0 <= col < cols,
    ;
}

/// Two places with one index are one place.
pub proof fn lemma_flat_index_is_unique(cols: int, row: int, col: int, other_row: int, other_col: int)
    requires
        0 <= col < cols,
        0 <= other_col < cols,
        flat_index(row, col, cols) == flat_index(other_row, other_col, cols),
    ensures
        row == other_row,
        col == other_col,
{
    assert(row == other_row) by (nonlinear_arith)
        requires
            0 <= col < cols,
            0 <= other_col < cols,
            row * cols + col == other_row * cols + other_col,
    ;
}

/// The rows of a grid follow one another: the index behind the last cell of a
/// row is that of the first cell of the next.
pub proof fn lemma_flat_index_next_row(cols: int, row: int)
    ensures
        flat_index(row, cols, cols) == flat_index(row + 1, 0, cols),
        flat_index(0, 0, cols) == 0,
{
    assert(row * cols + cols == (row + 1) * cols + 0) by (nonlinear_arith);
}

/// Every index among the cells of a grid is that of one place: the one at
/// row `k / cols` and column `k % cols`.
pub proof fn lemma_index_has_place(rows: int, cols: int, k: int)
    requires
        0 < cols,
        0 <= k < rows * cols,
    ensures
        0 <= k / cols < rows,
        0 <= k % cols < cols,
        k == flat_index(k / cols, k % cols, cols),
{
    lemma_fundamental_div_mod(k, cols);
    lemma_mod_bound(k, cols);
    let q = k / cols;
    let r = k % cols;
    assert(0 <= q < rows && k == q * cols + r) by (nonlinear_arith)
        requires
            0 < cols,
            0 <= k < rows * cols,
            k == cols * q + r,
            0 <= r < cols,
    ;
}

/// Two grids of one shape that agree at every place are one grid.
pub proof fn lemma_grids_agree<T>(a: Grid<T>, b: Grid<T>)
    requires
        a.wf(),
        same_shape(a, b),
        forall|row: int, col: int| a.contains(row, col) ==> a.at(row, col) == b.at(row, col),
    ensures
        a == b,
{
    assert forall|k: int| 0 <= k < a.cells.len() implies a.cells[k] == b.cells[k] by {
        lemma_index_has_place(a.rows as int, a.cols as int, k);
        let row = k / (a.cols as int);
        let col = k % (a.cols as int);
        assert(a.contains(row, col));
        assert(a.at(row, col) == b.at(row, col));
    }
    assert(a.cells =~= b.cells);
}

/// Writing a cell changes that cell and no other: it holds the value
/// afterwards, and every other cell holds what it held.
pub proof fn lemma_grid_with<T>(g: Grid<T>, row: int, col: int, value: T)
    requires
        g.wf(),
        g.contains(row, col),
    ensures
        g.with(row, col, value).wf(),
        same_shape(g, g.with(row, col, value)),
        g.with(row, col, value).at(row, col) == value,
        forall|r: int, c: int|
            g.contains(r, c) && (r != row || c != col) ==> #[trigger] g.with(row, col, value).at(r, c)
                == g.at(r, c),
{
    lemma_flat_index_in_bounds(g.rows as int, g.cols as int, row, col);
    assert forall|r: int, c: int| g.contains(r, c) && (r != row || c != col) implies #[trigger] g.with(
        row,
        col,
        value,
    ).at(r, c) == g.at(r, c) by {
        lemma_flat_index_in_bounds(g.rows as int, g.cols as int, r, c);
        if flat_index(r, c, g.cols as int) == flat_index(row, col, g.cols as int) {
            lemma_flat_index_is_unique(g.cols as int, r, c, row, col);
        }
    }
}

/// The state of an exchange of the rows `a` and `b` that has done the columns
/// before `done`: there `now` has the rows of `before` exchanged, elsewhere it
/// is `before`.
pub open spec fn rows_swapped_before<T>(before: Grid<T>, now: Grid<T>, a: int, b: int, done: int) -> bool {
    &&& same_shape(before, now)
    &&& forall|row: int, col: int|
        before.contains(row, col) ==> #[trigger] now.at(row, col) == before.at(
            if col < done {
                exchanged(row, a, b)
            } else {
                row
            },
            col,
        )
}

/// The state of an exchange of the columns `a` and `b` that has done the rows
/// before `done`: there `now` has the columns of `before` exchanged, elsewhere
/// it is `before`.
pub open spec fn cols_swapped_before<T>(before: Grid<T>, now: Grid<T>, a: int, b: int, done: int) -> bool {
    &&& same_shape(before, now)
    &&& forall|row: int, col: int|
        before.contains(row, col) ==> #[trigger] now.at(row, col) == before.at(
            row,
            if row < done {
                exchanged(col, a, b)
            } else {
                col
            },
        )
}

/// The grid `g` with the cells at `(row, col)` and `(other_row, other_col)` exchanged.
pub open spec fn with_exchanged<T>(g: Grid<T>, row: int, col: int, other_row: int, other_col: int) -> Grid<T> {
    Grid {
        rows: g.rows,
        cols: g.cols,
        cells: g.cells.update(
            flat_index(row, col, g.cols as int),
            g.cells[flat_index(other_row, other_col, g.cols as int)],
        ).update(
            flat_index(other_row, other_col, g.cols as int),
            g.cells[flat_index(row, col, g.cols as int)],
        ),
    }
}

/// What a grid holds once two of its cells have been exchanged.
pub proof fn lemma_with_exchanged<T>(g: Grid<T>, row: int, col: int, other_row: int, other_col: int)
    requires
        g.wf(),
        g.contains(row, col),
        g.contains(other_row, other_col),
    ensures
        with_exchanged(g, row, col, other_row, other_col).wf(),
        same_shape(g, with_exchanged(g, row, col, other_row, other_col)),
        forall|r: int, c: int|
            g.contains(r, c) ==> #[trigger] with_exchanged(g, row, col, other_row, other_col).at(r, c) == (
            if r == row && c == col {
                g.at(other_row, other_col)
            } else if r == other_row && c == other_col {
                g.at(row, col)
            } else {
                g.at(r, c)
            }),
{
    let h = with_exchanged(g, row, col, other_row, other_col);
    lemma_flat_index_in_bounds(g.rows as int, g.cols as int, row, col);
    lemma_flat_index_in_bounds(g.rows as int, g.cols as int, other_row, other_col);
    assert forall|r: int, c: int| g.contains(r, c) implies #[trigger] h.at(r, c) == (if r == row && c
        == col {
        g.at(other_row, other_col)
    } else if r == other_row && c == other_col {
        g.at(row, col)
    } else {
        g.at(r, c)
    }) by {
        lemma_flat_index_in_bounds(g.rows as int, g.cols as int, r, c);
        if flat_index(r, c, g.cols as int) == flat_index(row, col, g.cols as int) {
            lemma_flat_index_is_unique(g.cols as int, r, c, row, col);
        }
        if flat_index(r, c, g.cols as int) == flat_index(other_row, other_col, g.cols as int) {
            lemma_flat_index_is_unique(g.cols as int, r, c, other_row, other_col);
        }
    }
}

/// Exchanging the cells of the rows `a` and `b` in one more column carries
/// the exchange of the two rows one column further.
pub proof fn lemma_rows_swapped_one_more<T>(before: Grid<T>, now: Grid<T>, a: int, b: int, done: int)
    requires
        before.wf(),
        0 <= a < before.rows,
        0 <= b < before.rows,
        0 <= done < before.cols,
        rows_swapped_before(before, now, a, b, done),
    ensures
        rows_swapped_before(before, with_exchanged(now, a, done, b, done), a, b, done + 1),
{
    let next = with_exchanged(now, a, done, b, done);
    lemma_with_exchanged(now, a, done, b, done);
    assert forall|row: int, col: int| before.contains(row, col) implies #[trigger] next.at(row, col)
        == before.at(
        if col < done + 1 {
            exchanged(row, a, b)
        } else {
            row
        },
        col,
    ) by {
        assert(now.contains(row, col));
        assert(now.at(row, col) == before.at(
            if col < done {
                exchanged(row, a, b)
            } else {
                row
            },
            col,
        ));
        assert(now.at(a, done) == before.at(a, done));
        assert(now.at(b, done) == before.at(b, done));
    }
}

/// Exchanging the cells of the columns `a` and `b` in one more row carries
/// the exchange of the two columns one row further.
pub proof fn lemma_cols_swapped_one_more<T>(before: Grid<T>, now: Grid<T>, a: int, b: int, done: int)
    requires
        before.wf(),
        0 <= a < before.cols,
        0 <= b < before.cols,
        0 <= done < before.rows,
        cols_swapped_before(before, now, a, b, done),
    ensures
        cols_swapped_before(before, with_exchanged(now, done, a, done, b), a, b, done + 1),
{
    let next = with_exchanged(now, done, a, done, b);
    lemma_with_exchanged(now, done, a, done, b);
    assert forall|row: int, col: int| before.contains(row, col) implies #[trigger] next.at(row, col)
        == before.at(
        row,
        if row < done + 1 {
            exchanged(col, a, b)
        } else {
            col
        },
    ) by {
        assert(now.contains(row, col));
        assert(now.at(row, col) == before.at(
            row,
            if row < done {
                exchanged(col, a, b)
            } else {
                col
            },
        ));
        assert(now.at(done, a) == before.at(done, a));
        assert(now.at(done, b) == before.at(done, b));
    }
}

/// The state of a transposition that fills its result column by column of
/// the source: `out` holds what mirrors the columns before `col` and, of the
/// column `col`, the rows before `row`. A cell of the source and what mirrors
/// it are related by `mirrors`.
pub open spec fn transposing<T, U>(
    source: Grid<T>,
    out: Seq<U>,
    col: int,
    row: int,
    mirrors: spec_fn(T, U) -> bool,
) -> bool {
    &&& out.len() == flat_index(col, row, source.rows as int)
    &&& forall|i: int, j: int|
        0 <= i < source.cols && 0 <= j < source.rows && (i < col || (i == col && j < row)) ==> mirrors(
            source.at(j, i),
            #[trigger] out[flat_index(i, j, source.rows as int)],
        )
}

/// A transposition starts with nothing.
pub proof fn lemma_transposing_starts<T, U>(source: Grid<T>, mirrors: spec_fn(T, U) -> bool)
    ensures
        transposing(source, Seq::<U>::empty(), 0, 0, mirrors),
{
    lemma_flat_index_next_row(source.rows as int, 0);
}

/// Appending what mirrors the next cell of the current column carries a
/// transposition one cell further.
pub proof fn lemma_transposing_one_more<T, U>(
    source: Grid<T>,
    out: Seq<U>,
    col: int,
    row: int,
    mirrors: spec_fn(T, U) -> bool,
    cell: U,
)
    requires
        source.wf(),
        0 <= col < source.cols,
        0 <= row < source.rows,
        transposing(source, out, col, row, mirrors),
        mirrors(source.at(row, col), cell),
    ensures
        transposing(source, out.push(cell), col, row + 1, mirrors),
        row + 1 == source.rows ==> transposing(source, out.push(cell), col + 1, 0, mirrors),
        out.len() < source.rows * source.cols,
{
    let next = out.push(cell);
    let height = source.rows as int;
    lemma_flat_index_in_bounds(source.cols as int, height, col, row);
    assert(source.cols * source.rows == source.rows * source.cols) by (nonlinear_arith);
    assert forall|i: int, j: int|
        0 <= i < source.cols && 0 <= j < source.rows && (i < col || (i == col && j < row + 1)) implies mirrors(
        source.at(j, i),
        #[trigger] next[flat_index(i, j, height)],
    ) by {
        if i == col && j == row {
        } else {
            lemma_flat_index_in_bounds(source.cols as int, height, i, j);
            if flat_index(i, j, height) == flat_index(col, row, height) {
                lemma_flat_index_is_unique(height, i, j, col, row);
            }
            assert(flat_index(i, j, height) < out.len()) by (nonlinear_arith)
                requires
                    0 <= j < height,
                    0 <= row < height,
                    i < col || (i == col && j < row),
                    flat_index(i, j, height) == i * height + j,
                    out.len() == col * height + row,
            ;
            assert(next[flat_index(i, j, height)] == out[flat_index(i, j, height)]);
        }
    }
    if row + 1 == source.rows {
        lemma_flat_index_next_row(height, col);
        assert forall|i: int, j: int|
            0 <= i < source.cols && 0 <= j < source.rows && (i < col + 1 || (i == col + 1 && j < 0)) implies mirrors(
            source.at(j, i),
            #[trigger] next[flat_index(i, j, height)],
        ) by {
            assert(i < col || (i == col && j < row + 1));
        }
    }
}

/// A transposition that has done every row of a column goes on with the next column.
pub proof fn lemma_transposing_wraps<T, U>(source: Grid<T>, out: Seq<U>, col: int, mirrors: spec_fn(T, U) -> bool)
    requires
        transposing(source, out, col, source.rows as int, mirrors),
    ensures
        transposing(source, out, col + 1, 0, mirrors),
{
    lemma_flat_index_next_row(source.rows as int, col);
    assert forall|i: int, j: int|
        0 <= i < source.cols && 0 <= j < source.rows && (i < col + 1 || (i == col + 1 && j < 0)) implies mirrors(
        source.at(j, i),
        #[trigger] out[flat_index(i, j, source.rows as int)],
    ) by {
        assert(i < col || (i == col && j < source.rows));
    }
}

/// A transposition that has done every column has filled a grid whose cells
/// mirror those of the source across the diagonal.
pub proof fn lemma_transposing_ends<T, U>(source: Grid<T>, out: Seq<U>, mirrors: spec_fn(T, U) -> bool)
    requires
        source.wf(),
        transposing(source, out, source.cols as int, 0, mirrors),
    ensures
        out.len() == source.cols * source.rows,
        out.len() == source.cells.len(),
        forall|row: int, col: int|
            0 <= row < source.cols && 0 <= col < source.rows ==> mirrors(
                source.at(col, row),
                #[trigger] out[flat_index(row, col, source.rows as int)],
            ),
{
    assert(source.cols * source.rows == source.rows * source.cols) by (nonlinear_arith);
}

/// Exchanging two rows twice gives back the grid one started with.
pub proof fn lemma_rows_swapped_twice<T>(start: Grid<T>, once: Grid<T>, twice: Grid<T>, a: int, b: int)
    requires
        start.wf(),
        0 <= a < start.rows,
        0 <= b < start.rows,
        rows_swapped(start, once, a, b),
        rows_swapped(once, twice, a, b),
    ensures
        twice == start,
{
    assert forall|row: int, col: int| start.contains(row, col) implies start.at(row, col) == twice.at(
        row,
        col,
    ) by {
        assert(once.contains(row, col));
        assert(twice.at(row, col) == once.at(exchanged(row, a, b), col));
        assert(start.contains(exchanged(row, a, b), col));
        assert(once.at(exchanged(row, a, b), col) == start.at(
            exchanged(exchanged(row, a, b), a, b),
            col,
        ));
    }
    lemma_grids_agree(start, twice);
}

/// Exchanging two columns twice gives back the grid one started with.
pub proof fn lemma_cols_swapped_twice<T>(start: Grid<T>, once: Grid<T>, twice: Grid<T>, a: int, b: int)
    requires
        start.wf(),
        0 <= a < start.cols,
        0 <= b < start.cols,
        cols_swapped(start, once, a, b),
        cols_swapped(once, twice, a, b),
    ensures
        twice == start,
{
    assert forall|row: int, col: int| start.contains(row, col) implies start.at(row, col) == twice.at(
        row,
        col,
    ) by {
        assert(once.contains(row, col));
        assert(twice.at(row, col) == once.at(row, exchanged(col, a, b)));
        assert(start.contains(row, exchanged(col, a, b)));
        assert(once.at(row, exchanged(col, a, b)) == start.at(
            row,
            exchanged(exchanged(col, a, b), a, b),
        ));
    }
    lemma_grids_agree(start, twice);
}

/// Transposing twice by reference gives a grid of the dimensions one started
/// with, each of whose cells refers to the cell that was at its place.
pub proof fn lemma_transposed_by_reference_twice<T>(start: Grid<T>, once: Grid<&T>, twice: Grid<&&T>)
    requires
        start.wf(),
        transposed_by_reference(start, once),
        transposed_by_reference(once, twice),
    ensures
        same_shape(start, twice),
        forall|row: int, col: int|
            start.contains(row, col) ==> **#[trigger] twice.at(row, col) == start.at(row, col),
{
    assert forall|row: int, col: int| start.contains(row, col) implies **#[trigger] twice.at(row, col)
        == start.at(row, col) by {
        assert(twice.contains(row, col));
        assert(once.contains(col, row));
        assert(*twice.at(row, col) == once.at(col, row));
        assert(*once.at(col, row) == start.at(row, col));
    }
}

/// Transposing twice by clone gives back the grid one started with, where a
/// clone of a cell is equal to the cell.
pub proof fn lemma_transposed_by_clone_twice<T: Clone>(start: Grid<T>, once: Grid<T>, twice: Grid<T>)
    requires
        start.wf(),
        transposed_by_clone(start, once),
        transposed_by_clone(once, twice),
        forall|a: T, b: T| #[trigger] cloned(a, b) ==> a == b,
    ensures
        twice == start,
{
    assert forall|row: int, col: int| start.contains(row, col) implies start.at(row, col) == twice.at(
        row,
        col,
    ) by {
        assert(twice.contains(row, col));
        assert(once.contains(col, row));
        assert(cloned(once.at(col, row), twice.at(row, col)));
        assert(cloned(start.at(row, col), once.at(col, row)));
    }
    lemma_grids_agree(start, twice);
}

/// What a visitor promises of every cell it is handed holds of every cell of
/// a grid that it has been applied to: where each cell of `after` is what one
/// call of `func` may leave in the cell of `before` at its place, and `func`
/// only ever leaves in a cell what `effect` relates to what the cell held,
/// `effect` relates every cell of `before` to the cell of `after` at its place.
pub proof fn lemma_applied_effect<T, F: FnMut(&mut T)>(
    func: F,
    before: Grid<T>,
    after: Grid<T>,
    effect: spec_fn(T, T) -> bool,
)
    requires
        same_shape(before, after),
        forall|k: int|
            #![trigger is_index(k, before.cells.len())]
            is_index(k, before.cells.len()) ==> (exists|cell: &mut T|
                *cell == before.cells[k] && *final(cell) == after.cells[k] && #[trigger] call_ensures(
                    func,
                    (cell,),
                    (),
                )),
        forall|cell: &mut T| #[trigger] call_ensures(func, (cell,), ()) ==> effect(*cell, *final(cell)),
    ensures
        forall|k: int| 0 <= k < before.cells.len() ==> effect(before.cells[k], #[trigger] after.cells[k]),
{
    assert forall|k: int| 0 <= k < before.cells.len() implies effect(
        before.cells[k],
        #[trigger] after.cells[k],
    ) by {
        assert(is_index(k, before.cells.len()));
    }
}

/// Cells taken from a producer fill a grid row by row: the cell at
/// `(row, col)` is the value that the producer yielded at `row * cols + col`.
pub proof fn lemma_produced_cells_are_row_major<T>(produced: Seq<T>, g: Grid<T>, row: int, col: int)
    requires
        g.wf(),
        produced.len() >= g.rows * g.cols,
        g.cells == produced.take((g.rows * g.cols) as int),
        g.contains(row, col),
    ensures
        0 <= row * g.cols + col < g.rows * g.cols,
        g.at(row, col) == produced[row * g.cols + col],
{
    lemma_flat_index_in_bounds(g.rows as int, g.cols as int, row, col);
}

/// A grid filled from a producer that counts up from zero holds, at
/// `(row, col)`, the number `row * cols + col`.
pub proof fn lemma_counted_cells_are_row_major(g: Grid<usize>, row: int, col: int)
    requires
        g.wf(),
        forall|k: int| 0 <= k < g.cells.len() ==> g.cells[k] == k,
        g.contains(row, col),
    ensures
        g.at(row, col) == row * g.cols + col,
{
    lemma_flat_index_in_bounds(g.rows as int, g.cols as int, row, col);
}

} // verus!
