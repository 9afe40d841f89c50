//! The board model: cells, the grid, group membership and constraint queries.

use vstd::prelude::*;

verus! {

broadcast use vstd::seq_lib::lemma_seq_contains_after_push;

/// One position of the grid. `value` is 0 for a blank, otherwise a value in
/// 1..=N. `row`, `col` and `square` are the indices of the three groups the
/// cell belongs to, each in 0..N.
#[derive(Clone, Copy)]
pub struct Cell {
    pub value: i32,
    pub row: i32,
    pub col: i32,
    pub square: i32,
}

impl Cell {
    pub fn new(value: i32, row: i32, col: i32, square: i32) -> (c: Cell)
        ensures
            c.value == value,
            c.row == row,
            c.col == col,
            c.square == square,
    {
        Cell { value, row, col, square }
    }
}

/// Row index of the cell at linear index `i` on an n x n grid.
pub open spec fn row_of(i: int, n: int) -> int {
    i / n
}

/// Column index of the cell at linear index `i` on an n x n grid.
pub open spec fn col_of(i: int, n: int) -> int {
    i % n
}

/// Sub-square index of the cell at linear index `i`, for square size `s`
/// (the grid is (s*s) x (s*s), partitioned into s x s blocks, numbered
/// row-major by block position).
pub open spec fn square_of(i: int, s: int) -> int {
    s * (row_of(i, s * s) / s) + col_of(i, s * s) / s
}

/// Two cell indices share a row, a column, or a sub-square.
pub open spec fn same_group(i: int, j: int, s: int) -> bool {
    ||| row_of(i, s * s) == row_of(j, s * s)
    ||| col_of(i, s * s) == col_of(j, s * s)
    ||| square_of(i, s) == square_of(j, s)
}

/// The Sudoku invariant on a sequence of cell values: no nonzero value
/// occurs twice within any row, column, or sub-square.
pub open spec fn consistent(v: Seq<int>, s: int) -> bool {
    forall|i: int, j: int|
        0 <= i < v.len() && 0 <= j < v.len() && i != j && #[trigger] same_group(i, j, s)
            && v[i] != 0 ==> v[i] != v[j]
}

/// Every value lies in 0..=n.
pub open spec fn in_range(v: Seq<int>, n: int) -> bool {
    forall|i: int| 0 <= i < v.len() ==> 0 <= #[trigger] v[i] <= n
}

/// No cell is blank.
pub open spec fn full(v: Seq<int>) -> bool {
    forall|i: int| 0 <= i < v.len() ==> #[trigger] v[i] != 0
}

/// A complete, legal assignment: every cell holds a value in 1..=N and the
/// Sudoku invariant holds.
pub open spec fn solved(v: Seq<int>, s: int) -> bool {
    &&& v.len() == s * s * (s * s)
    &&& in_range(v, s * s)
    &&& full(v)
    &&& consistent(v, s)
}

/// `c` agrees with `b` on every cell that is filled in `b`.
pub open spec fn extends(c: Seq<int>, b: Seq<int>) -> bool {
    &&& c.len() == b.len()
    &&& forall|i: int| 0 <= i < b.len() && #[trigger] b[i] != 0 ==> c[i] == b[i]
}

/// `c` is a complete, legal assignment that leaves every filled cell of `b`
/// unchanged: a solution of the puzzle `b`.
pub open spec fn solved_extension(c: Seq<int>, b: Seq<int>, s: int) -> bool {
    solved(c, s) && extends(c, b)
}

/// Lexicographic order on equal-length value sequences.
pub open spec fn lex_le(a: Seq<int>, b: Seq<int>) -> bool {
    ||| a == b
    ||| exists|k: int|
        0 <= k < a.len() && #[trigger] a[k] < b[k] && (forall|j: int|
            0 <= j < k ==> a[j] == b[j])
}

/// Machine limits on the side length n of a representable board: every cell
/// value and every coordinate must fit in i32 (with room for the arithmetic
/// of rendering), and the n*n cells must fit in a Vec.
pub open spec fn dims_ok(n: int) -> bool {
    &&& 0 < n
    &&& n <= 0x3fff_ffff
    &&& n * n <= usize::MAX
}

/// The fields of the cell at linear index `i` are the coordinates derived
/// from `i`, and its value is in range.
pub open spec fn cell_ok(c: Cell, i: int, s: int) -> bool {
    &&& c.row as int == row_of(i, s * s)
    &&& c.col as int == col_of(i, s * s)
    &&& c.square as int == square_of(i, s)
    &&& 0 <= c.value as int <= s * s
}

/// There is a cell in row `row` holding exactly the value `v`.
pub open spec fn row_has(b: Seq<Cell>, row: i32, v: i32) -> bool {
    exists|k: int| 0 <= k < b.len() && (#[trigger] b[k]).row == row && b[k].value == v
}

/// There is a cell in column `col` holding exactly the value `v`.
pub open spec fn col_has(b: Seq<Cell>, col: i32, v: i32) -> bool {
    exists|k: int| 0 <= k < b.len() && (#[trigger] b[k]).col == col && b[k].value == v
}

/// There is a cell in sub-square `square` holding exactly the value `v`.
pub open spec fn square_has(b: Seq<Cell>, square: i32, v: i32) -> bool {
    exists|k: int| 0 <= k < b.len() && (#[trigger] b[k]).square == square && b[k].value == v
}

/// The values, in board (row-major) order, of the nonzero cells of row
/// `row`: the in-order subsequence that the row query returns.
pub open spec fn values_in_row(b: Seq<Cell>, row: i32) -> Seq<i32>
    decreases b.len(),
{
    if b.len() == 0 {
        Seq::<i32>::empty()
    } else {
        let rest = values_in_row(b.drop_last(), row);
        if b.last().row == row && b.last().value > 0 {
            rest.push(b.last().value)
        } else {
            rest
        }
    }
}

/// The values, in board (row-major) order, of the nonzero cells of column
/// `col`.
pub open spec fn values_in_col(b: Seq<Cell>, col: i32) -> Seq<i32>
    decreases b.len(),
{
    if b.len() == 0 {
        Seq::<i32>::empty()
    } else {
        let rest = values_in_col(b.drop_last(), col);
        if b.last().col == col && b.last().value > 0 {
            rest.push(b.last().value)
        } else {
            rest
        }
    }
}

/// The values, in board (row-major) order, of the nonzero cells of
/// sub-square `square`.
pub open spec fn values_in_square(b: Seq<Cell>, square: i32) -> Seq<i32>
    decreases b.len(),
{
    if b.len() == 0 {
        Seq::<i32>::empty()
    } else {
        let rest = values_in_square(b.drop_last(), square);
        if b.last().square == square && b.last().value > 0 {
            rest.push(b.last().value)
        } else {
            rest
        }
    }
}

/// `v` may legally be placed in cell `c`: it is in 1..=N and occurs in none
/// of the cell's three groups.
pub open spec fn candidate_ok(b: Seq<Cell>, c: Cell, s: int, v: i32) -> bool {
    &&& 1 <= v as int <= s * s
    &&& !row_has(b, c.row, v)
    &&& !col_has(b, c.col, v)
    &&& !square_has(b, c.square, v)
}

/// The values of a cell sequence, in the same order.
pub open spec fn values_of(b: Seq<Cell>) -> Seq<int> {
    Seq::new(b.len(), |i: int| b[i].value as int)
}

/// Well-formedness of a cell sequence for square size `s`: the dimensions
/// are in bounds, there are N * N cells (N = s * s), and every cell's
/// coordinates match its position.
pub open spec fn board_ok(b: Seq<Cell>, s: int) -> bool {
    &&& 1 <= s
    &&& dims_ok(s * s)
    &&& b.len() == s * s * (s * s)
    &&& forall|i: int| 0 <= i < b.len() ==> cell_ok(#[trigger] b[i], i, s)
}

/// The N x N Sudoku board: N * N cells in row-major order, plus the
/// sub-square size S (N = S * S; S is 3 for the usual 9 x 9 board).
pub struct SudokuBoard {
    pub(crate) board: Vec<Cell>,
    pub(crate) square_size: i32,
}

impl SudokuBoard {
    /// The sub-square size S.
    pub closed spec fn s(&self) -> int {
        self.square_size as int
    }

    /// The side length N = S * S.
    pub open spec fn n(&self) -> int {
        self.s() * self.s()
    }

    /// The cells, in row-major order.
    pub closed spec fn cells(&self) -> Seq<Cell> {
        self.board@
    }

    /// The cell values alone, in row-major order.
    pub open spec fn values(&self) -> Seq<int> {
        values_of(self.cells())
    }

    /// Well-formedness: the dimensions are in bounds, there are N * N cells,
    /// and every cell's coordinates match its position.
    pub open spec fn wf(&self) -> bool {
        board_ok(self.cells(), self.s())
    }

    /// The number of cells, N * N.
    pub fn cell_count(&self) -> (r: usize)
        ensures
            r == self.cells().len(),
    {
        self.board.len()
    }

    /// The sub-square size S.
    pub fn square_size(&self) -> (r: i32)
        ensures
            r as int == self.s(),
    {
        self.square_size
    }

    /// The side length N, as stored coordinates measure it.
    pub fn side(&self) -> (r: i32)
        requires
            self.wf(),
        ensures
            r as int == self.n(),
    {
        self.square_size * self.square_size
    }

    /// Assembles a board from its parts, exactly as given.
    pub(crate) fn from_parts(board: Vec<Cell>, square_size: i32) -> (b: SudokuBoard)
        ensures
            b.cells() == board@,
            b.s() == square_size as int,
    {
        SudokuBoard { board, square_size }
    }

    /// The cell at linear index `i`.
    pub fn cell_at(&self, i: usize) -> (r: Cell)
        requires
            i < self.cells().len(),
        ensures
            r == self.cells()[i as int],
    {
        self.board[i]
    }

    /// The value held by the cell at linear index `i` (0 for a blank).
    pub fn value_at(&self, i: usize) -> (r: i32)
        requires
            i < self.cells().len(),
        ensures
            r as int == self.values()[i as int],
    {
        self.board[i].value
    }

    /// The narrow mutator the solver goes through: store `value` in the cell
    /// at `index`, leaving its coordinates and every other cell unchanged.
    pub fn set_value(&mut self, index: usize, value: i32)
        requires
            old(self).wf(),
            index < old(self).cells().len(),
            0 <= value as int <= old(self).n(),
        ensures
            final(self).wf(),
            final(self).s() == old(self).s(),
            final(self).cells() == old(self).cells().update(
                index as int,
                (Cell {
                    value: value,
                    row: old(self).cells()[index as int].row,
                    col: old(self).cells()[index as int].col,
                    square: old(self).cells()[index as int].square,
                }),
            ),
            final(self).values() == old(self).values().update(index as int, value as int),
    {
        let c = self.board[index];
        self.board[index] = Cell { value, row: c.row, col: c.col, square: c.square };
        proof {
            assert(self.cells() =~= old(self).cells().update(
                index as int,
                (Cell {
                    value: value,
                    row: old(self).cells()[index as int].row,
                    col: old(self).cells()[index as int].col,
                    square: old(self).cells()[index as int].square,
                }),
            ));
            assert(self.values() =~= old(self).values().update(index as int, value as int));
        }
    }

    /// All nonzero values among the cells sharing `c`'s row, in board
    /// (row-major) order.
    pub fn get_all_values_in_row(&self, c: &Cell) -> (r: Vec<i32>)
        ensures
            r@ == values_in_row(self.cells(), c.row),
            forall|v: i32| #[trigger] r@.contains(v) <==> (v > 0 && row_has(self.cells(), c.row, v)),
    {
        let mut r: Vec<i32> = Vec::new();
        let len = self.board.len();
        for k in 0..len
            invariant
                len == self.cells().len(),
                r@ == values_in_row(self.cells().take(k as int), c.row),
                forall|v: i32| #[trigger] r@.contains(v) <==> (v > 0 && exists|t: int|
                    0 <= t < k && (#[trigger] self.cells()[t]).row == c.row
                        && self.cells()[t].value == v),
        {
            let cell = self.board[k];
            proof {
                assert(self.cells().take(k + 1).drop_last() =~= self.cells().take(k as int));
                assert(self.cells().take(k + 1).last() == self.cells()[k as int]);
            }
            if cell.row == c.row && cell.value > 0 {
                r.push(cell.value);
            }
        }
        proof {
            assert(self.cells().take(len as int) =~= self.cells());
        }
        r
    }

    /// All nonzero values among the cells sharing `c`'s column, in board
    /// (row-major) order.
    pub fn get_all_values_in_col(&self, c: &Cell) -> (r: Vec<i32>)
        ensures
            r@ == values_in_col(self.cells(), c.col),
            forall|v: i32| #[trigger] r@.contains(v) <==> (v > 0 && col_has(self.cells(), c.col, v)),
    {
        let mut r: Vec<i32> = Vec::new();
        let len = self.board.len();
        for k in 0..len
            invariant
                len == self.cells().len(),
                r@ == values_in_col(self.cells().take(k as int), c.col),
                forall|v: i32| #[trigger] r@.contains(v) <==> (v > 0 && exists|t: int|
                    0 <= t < k && (#[trigger] self.cells()[t]).col == c.col
                        && self.cells()[t].value == v),
        {
            let cell = self.board[k];
            proof {
                assert(self.cells().take(k + 1).drop_last() =~= self.cells().take(k as int));
                assert(self.cells().take(k + 1).last() == self.cells()[k as int]);
            }
            if cell.col == c.col && cell.value > 0 {
                r.push(cell.value);
            }
        }
        proof {
            assert(self.cells().take(len as int) =~= self.cells());
        }
        r
    }

    /// All nonzero values among the cells sharing `c`'s sub-square, in
    /// board (row-major) order.
    pub fn get_all_values_in_square(&self, c: &Cell) -> (r: Vec<i32>)
        ensures
            r@ == values_in_square(self.cells(), c.square),
            forall|v: i32| #[trigger] r@.contains(v) <==> (v > 0 && square_has(
                self.cells(),
                c.square,
                v,
            )),
    {
        let mut r: Vec<i32> = Vec::new();
        let len = self.board.len();
        for k in 0..len
            invariant
                len == self.cells().len(),
                r@ == values_in_square(self.cells().take(k as int), c.square),
                forall|v: i32| #[trigger] r@.contains(v) <==> (v > 0 && exists|t: int|
                    0 <= t < k && (#[trigger] self.cells()[t]).square == c.square
                        && self.cells()[t].value == v),
        {
            let cell = self.board[k];
            proof {
                assert(self.cells().take(k + 1).drop_last() =~= self.cells().take(k as int));
                assert(self.cells().take(k + 1).last() == self.cells()[k as int]);
            }
            if cell.square == c.square && cell.value > 0 {
                r.push(cell.value);
            }
        }
        proof {
            assert(self.cells().take(len as int) =~= self.cells());
        }
        r
    }
}

} // verus!
