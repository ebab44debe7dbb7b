//! The grid itself: its cells, its side, and the checks that tell whether
//! a value may be placed at a position.

use crate::arith::lemma_digits;
use crate::arith::lemma_split;
use crate::board::box_corner;
use crate::board::box_edge;
use crate::board::in_box;
use crate::board::in_col;
use crate::board::in_row;
use crate::board::Board;
use crate::root::integer_sqrt;
use crate::root::is_floor_sqrt;
use crate::root::lemma_floor_sqrt_le;
use std::iter::FromIterator;
use vstd::arithmetic::div_mod::lemma_fundamental_div_mod;
use vstd::arithmetic::div_mod::lemma_mod_decreases;
use vstd::arithmetic::mul::lemma_mul_inequality;
use vstd::arithmetic::mul::lemma_mul_is_commutative;
use vstd::arithmetic::mul::lemma_mul_is_distributive_add_other_way;
use vstd::prelude::*;

verus! {

/// The value of one cell: `0` for an empty cell, else the digit placed.
pub type Cell = usize;

/// A Sudoku grid, stored row by row, from left to right and top to bottom.
pub struct Sudoku {
    pub(crate) board: Vec<Cell>,
    pub(crate) size: usize,
}

impl View for Sudoku {
    type V = Board;

    open(crate) spec fn view(&self) -> Board {
        Board { cells: self.board@, side: self.size as nat }
    }
}

impl Sudoku {
    /// The side is always the rounded-down square root of the cell count.
    #[verifier::type_invariant]
    pub(crate) open(crate) spec fn shaped(&self) -> bool {
        is_floor_sqrt(self.board@.len(), self.size as nat)
    }

    /// Creates a standard 9x9 grid with every cell empty.
    pub fn new() -> (game: Sudoku)
        ensures
            game@.side == 9,
            game@.cells == Seq::new(81, |i: int| 0usize),
    {
        let board: Vec<Cell> = vec![0; 81];
        assert(is_floor_sqrt(81, 9)) by (nonlinear_arith);
        Sudoku { board, size: 9 }
    }

    /// Creates a grid from its cells, read row by row. The side is the
    /// rounded-down square root of their number.
    pub fn from(values: Vec<Cell>) -> (game: Sudoku)
        ensures
            game@ == Board::of(values@),
    {
        let size = integer_sqrt(values.len());
        Sudoku { board: values, size }
    }

    /// Replaces the cells, read row by row, and with them the side.
    pub fn set_board(&mut self, values: Vec<Cell>)
        ensures
            final(self)@ == Board::of(values@),
    {
        let size = integer_sqrt(values.len());
        *self = Sudoku { board: values, size };
    }

    /// The side length of the grid: the rounded-down square root of the
    /// number of its cells.
    pub fn size(&self) -> (side: usize)
        ensures
            side == self@.side,
            self@.shaped(),
    {
        proof {
            use_type_invariant(self);
        }
        self.size
    }

    /// The row of the cell at `index`.
    pub fn get_row(&self, index: Cell) -> (row: usize)
        requires
            index < self@.area(),
        ensures
            row == self@.row_of(index as int),
    {
        proof {
            lemma_digits(self.size as int, index as int);
        }
        index / self.size
    }

    /// The column of the cell at `index`.
    pub fn get_col(&self, index: Cell) -> (col: usize)
        requires
            index < self@.area(),
        ensures
            col == self@.col_of(index as int),
    {
        proof {
            lemma_digits(self.size as int, index as int);
        }
        index % self.size
    }

    /// Tells whether some cell of row `row` holds `value`. A row past the
    /// last cell holds nothing.
    pub fn row_contains(&self, row: usize, value: Cell) -> (found: bool)
        ensures
            found == self@.row_contains(row as int, value),
    {
        let len = self.board.len();
        let start: usize = match row.checked_mul(self.size) {
            Some(start) => start,
            None => {
                return false;
            },
        };
        if start >= len {
            return false;
        }
        let mut i: usize = 0;
        while i < self.size && i < len - start
            invariant
                len == self.board@.len(),
                start == row * self.size,
                start < len,
                i <= self.size,
                i <= len - start,
                forall|q: int| start <= q < start + i ==> self.board@[q] != value,
            decreases self.size - i,
        {
            if self.board[start + i] == value {
                assert(in_row(self@.side, row as int, start + i));
                return true;
            }
            i += 1;
        }
        false
    }

    /// Tells whether some cell of column `col` holds `value`.
    pub fn col_contains(&self, col: usize, value: Cell) -> (found: bool)
        ensures
            found == self@.col_contains(col as int, value),
    {
        proof {
            use_type_invariant(self);
            if self.size == 0 {
                assert((self.size + 1) * (self.size + 1) == 1) by (nonlinear_arith)
                    requires
                        self.size == 0,
                ;
            }
        }
        let mut idx: usize = 0;
        while idx < self.board.len()
            invariant
                idx <= self.board@.len(),
                self.board@.len() > 0 ==> self.size > 0,
                forall|q: int|
                    0 <= q < idx && in_col(self@.side, col as int, q) ==> self.board@[q] != value,
            decreases self.board@.len() - idx,
        {
            if idx % self.size == col && self.board[idx] == value {
                assert(in_col(self@.side, col as int, idx as int));
                return true;
            }
            idx += 1;
        }
        false
    }

    /// Tells whether some cell of the box around position `(col, row)`
    /// holds `value`. The box is taken by flat index from its corner: where
    /// it runs past the last cell, the cells that are there count.
    pub fn box_contains(&self, pos: (usize, usize), value: Cell) -> (found: bool)
        requires
            self@.side > 0,
        ensures
            found == self@.box_contains(pos.0 as int, pos.1 as int, value),
    {
        let (col, row) = pos;
        let size_of_box = integer_sqrt(self.size);
        let len = self.board.len();
        proof {
            lemma_floor_sqrt_le(self.size as nat);
            lemma_mod_decreases(row as nat, size_of_box as nat);
            lemma_mod_decreases(col as nat, size_of_box as nat);
        }
        let ghost side = self@.side;
        let ghost corner = box_corner(side, col as int, row as int);
        let top: usize = row - row % size_of_box;
        let left: usize = col - col % size_of_box;
        // `start` is the first cell of the box in the row at hand.
        let mut start: usize = match top.checked_mul(self.size) {
            Some(above) => match above.checked_add(left) {
                Some(start) => start,
                None => {
                    return false;
                },
            },
            None => {
                return false;
            },
        };
        if start >= len {
            return false;
        }
        let mut i: usize = 0;
        while i < size_of_box
            invariant
                pos == (col, row),
                side == self.size,
                0 < size_of_box <= self.size,
                size_of_box == box_edge(side),
                len == self.board@.len(),
                corner == box_corner(side, col as int, row as int),
                i <= size_of_box,
                i < size_of_box ==> start == corner + i * self.size && start < len,
                forall|q: int|
                    0 <= q < len && #[trigger] in_box(side, col as int, row as int, q)
                        && comes_before(side, q - corner, i as int, 0) ==> self.board@[q] != value,
            decreases size_of_box - i,
        {
            let mut j: usize = 0;
            while j < size_of_box
                invariant
                    pos == (col, row),
                    side == self.size,
                    0 < size_of_box <= self.size,
                    size_of_box == box_edge(side),
                    len == self.board@.len(),
                    corner == box_corner(side, col as int, row as int),
                    i < size_of_box,
                    j <= size_of_box,
                    start == corner + i * self.size,
                    start < len,
                    forall|q: int|
                        0 <= q < len && #[trigger] in_box(side, col as int, row as int, q)
                            && comes_before(side, q - corner, i as int, j as int)
                            ==> self.board@[q] != value,
                decreases size_of_box - j,
            {
                if j < len - start && self.board[start + j] == value {
                    proof {
                        lemma_split(side as int, i as int, j as int);
                        assert(in_box(self@.side, pos.0 as int, pos.1 as int, start + j));
                    }
                    return true;
                }
                proof {
                    assert forall|q: int|
                        0 <= q < len && #[trigger] in_box(side, col as int, row as int, q)
                            && comes_before(side, q - corner, i as int, j + 1)
                        implies self.board@[q] != value by {
                        if !comes_before(side, q - corner, i as int, j as int) {
                            lemma_fundamental_div_mod(q - corner, side as int);
                            lemma_mul_is_commutative(side as int, i as int);
                        }
                    }
                }
                j += 1;
            }
            i += 1;
            if i < size_of_box {
                if self.size >= len - start {
                    // The rows that are left begin past the last cell.
                    proof {
                        assert forall|q: int|
                            0 <= q < len && #[trigger] in_box(
                                side,
                                col as int,
                                row as int,
                                q,
                            ) implies self.board@[q] != value by {
                            let d = q - corner;
                            if !comes_before(side, d, i as int, 0) {
                                lemma_fundamental_div_mod(d, side as int);
                                lemma_mul_inequality(i as int, d / (side as int), side as int);
                                lemma_mul_is_distributive_add_other_way(
                                    side as int,
                                    (i - 1) as int,
                                    1,
                                );
                            }
                        }
                    }
                    return false;
                }
                proof {
                    lemma_mul_is_distributive_add_other_way(side as int, (i - 1) as int, 1);
                }
                start += self.size;
            }
        }
        false
    }

    /// Tells whether `value` may be placed at position `(col, row)`: whether
    /// it occurs neither in that row, nor in that column, nor in that box.
    pub fn value_is_safe(&self, pos: (usize, usize), value: Cell) -> (safe: bool)
        requires
            self@.side > 0,
        ensures
            safe == self@.is_safe(pos.0 as int, pos.1 as int, value),
    {
        let (col, row) = pos;
        !(self.row_contains(row, value) || self.col_contains(col, value) || self.box_contains(
            (col, row),
            value,
        ))
    }

    /// Lists the positions of the empty cells in play, from left to right
    /// and top to bottom.
    pub fn get_open_cells_locs(&self) -> (locs: Vec<Cell>)
        ensures
            self@.open_cells_are(locs@),
    {
        proof {
            use_type_invariant(self);
            assert(self.board@.len() == self.board.len());
        }
        let area: usize = self.size * self.size;
        let mut locs: Vec<Cell> = Vec::new();
        let mut i: usize = 0;
        while i < area
            invariant
                area == self@.area(),
                area <= self.board.len(),
                i <= area,
                forall|k: int, l: int| 0 <= k < l < locs@.len() ==> locs@[k] < locs@[l],
                forall|k: int| 0 <= k < locs@.len() ==> #[trigger] locs@[k] < i,
                forall|k: int| 0 <= k < locs@.len() ==> self@.is_open(#[trigger] locs@[k] as int),
                forall|q: int|
                    0 <= q < i && #[trigger] self@.is_open(q) ==> exists|k: int|
                        0 <= k < locs@.len() && locs@[k] == q,
            decreases area - i,
        {
            if self.board[i] == 0 {
                let ghost before = locs@;
                locs.push(i);
                proof {
                    assert forall|q: int|
                        0 <= q < i + 1 && #[trigger] self@.is_open(q) implies exists|k: int|
                        0 <= k < locs@.len() && locs@[k] == q by {
                        if q < i {
                            let k = choose|k: int| 0 <= k < before.len() && before[k] == q;
                            assert(locs@[k] == q);
                        } else {
                            assert(locs@[before.len() as int] == q);
                        }
                    }
                }
            }
            i += 1;
        }
        locs
    }

    /// Returns the cells, row by row.
    pub fn get_board(&self) -> (cells: Vec<Cell>)
        ensures
            cells@ == self@.cells,
    {
        let cells = self.board.clone();
        cells
    }

    /// Returns the cells, row by row, in a container of the caller's
    /// choice. What the container makes of them is its own affair: it is
    /// handed the cells that `get_board` returns, in their order.
    pub fn get_board_as<T: FromIterator<Cell>>(&self) -> T {
        collect_cells(self.get_board())
    }
}

/// In a box, the cell at offset `d` from the corner comes before the place
/// `j` columns into the row `i` rows down, reading row by row.
spec fn comes_before(side: nat, d: int, i: int, j: int) -> bool {
    d / (side as int) < i || (d / (side as int) == i && d % (side as int) < j)
}

/// Builds a container from `cells` with `FromIterator::from_iter` of the
/// standard library. Nothing is claimed of the container: the impl that
/// builds it is the caller's.
#[verifier::external_body]
fn collect_cells<T: FromIterator<Cell>>(cells: Vec<Cell>) -> T {
    T::from_iter(cells)
}

} // verus!
