//! The mathematical model of a grid: a flat, row-major sequence of cells
//! and a side length, with the geometry of rows, columns and boxes.

use crate::root::floor_sqrt;
use crate::root::is_floor_sqrt;
use vstd::prelude::*;

verus! {

/// What a grid is to the contracts of this library.
///
/// Cell `i` lies in row `i / side` and column `i % side`. A cell that holds
/// `0` is empty; a cell that holds `v` with `1 <= v <= side` is filled.
pub struct Board {
    pub cells: Seq<usize>,
    pub side: nat,
}

impl Board {
    /// The board that holds `cells`: its side is the rounded-down square
    /// root of their number.
    pub open spec fn of(cells: Seq<usize>) -> Board {
        Board { cells, side: floor_sqrt(cells.len()) }
    }

    /// The side is the rounded-down square root of the number of cells.
    /// Every grid that the library builds has this shape.
    pub open spec fn shaped(self) -> bool {
        is_floor_sqrt(self.cells.len(), self.side)
    }

    /// The number of cells in play: the first `side * side` of them.
    pub open spec fn area(self) -> nat {
        self.side * self.side
    }

    /// The grid is a true Sudoku grid: it has exactly `side * side` cells,
    /// and boxes of `box_edge * box_edge` cells tile it.
    pub open spec fn proper(self) -> bool {
        &&& self.cells.len() == self.side * self.side
        &&& box_edge(self.side) * box_edge(self.side) == self.side
    }

    /// The row of cell `i`.
    pub open spec fn row_of(self, i: int) -> int {
        i / (self.side as int)
    }

    /// The column of cell `i`.
    pub open spec fn col_of(self, i: int) -> int {
        i % (self.side as int)
    }

    /// Some cell of row `row` holds `value`.
    pub open spec fn row_contains(self, row: int, value: usize) -> bool {
        exists|q: int|
            0 <= q < self.cells.len() && #[trigger] in_row(self.side, row, q) && self.cells[q]
                == value
    }

    /// Some cell of column `col` holds `value`.
    pub open spec fn col_contains(self, col: int, value: usize) -> bool {
        exists|q: int|
            0 <= q < self.cells.len() && #[trigger] in_col(self.side, col, q) && self.cells[q]
                == value
    }

    /// Some cell of the box around `(col, row)` holds `value`.
    pub open spec fn box_contains(self, col: int, row: int, value: usize) -> bool {
        exists|q: int|
            0 <= q < self.cells.len() && #[trigger] in_box(self.side, col, row, q)
                && self.cells[q] == value
    }

    /// `value` occurs neither in the row, nor in the column, nor in the box
    /// of position `(col, row)`.
    pub open spec fn is_safe(self, col: int, row: int, value: usize) -> bool {
        !(self.row_contains(row, value) || self.col_contains(col, value) || self.box_contains(
            col,
            row,
            value,
        ))
    }

    /// Cell `q` is in play and empty.
    pub open spec fn is_open(self, q: int) -> bool {
        0 <= q < self.area() && q < self.cells.len() && self.cells[q] == 0
    }

    /// `locs` lists the open cells, each once, from the first to the last.
    pub open spec fn open_cells_are(self, locs: Seq<usize>) -> bool {
        &&& forall|i: int, j: int| 0 <= i < j < locs.len() ==> locs[i] < locs[j]
        &&& forall|i: int| 0 <= i < locs.len() ==> self.is_open(#[trigger] locs[i] as int)
        &&& forall|q: int| #[trigger]
            self.is_open(q) ==> exists|k: int| 0 <= k < locs.len() && locs[k] == q
    }

    /// The board with cell `i` set to `value`.
    pub open spec fn with_cell(self, i: int, value: usize) -> Board {
        Board { cells: self.cells.update(i, value), side: self.side }
    }
}

/// The edge length of the boxes of a grid of side `side`.
pub open spec fn box_edge(side: nat) -> nat {
    floor_sqrt(side)
}

/// On a grid of side `side`, cell `q` lies in the span of row `row`.
pub open spec fn in_row(side: nat, row: int, q: int) -> bool {
    row * side <= q < row * side + side
}

/// On a grid of side `side`, cell `q` lies in column `col`.
pub open spec fn in_col(side: nat, col: int, q: int) -> bool {
    q % (side as int) == col
}

/// The flat index of the top-left cell of the box around `(col, row)`.
pub open spec fn box_corner(side: nat, col: int, row: int) -> int {
    let b = box_edge(side) as int;
    (row - row % b) * side + (col - col % b)
}

/// On a grid of side `side`, cell `q` lies in the box around `(col, row)`:
/// fewer than `box_edge` rows below its corner and fewer than `box_edge`
/// columns to the right.
pub open spec fn in_box(side: nat, col: int, row: int, q: int) -> bool {
    let b = box_edge(side) as int;
    let d = q - box_corner(side, col, row);
    &&& d >= 0
    &&& d / (side as int) < b
    &&& d % (side as int) < b
}

/// On a grid of side `side`, cell `q` shares a row, a column or a box with
/// position `(col, row)`.
pub open spec fn sees(side: nat, col: int, row: int, q: int) -> bool {
    in_row(side, row, q) || in_col(side, col, q) || in_box(side, col, row, q)
}

/// A value is safe at a position exactly when no cell that the position
/// sees holds it.
pub proof fn lemma_safe_iff_unseen(b: Board, col: int, row: int, value: usize)
    ensures
        b.is_safe(col, row, value) <==> forall|q: int|
            0 <= q < b.cells.len() && #[trigger] sees(b.side, col, row, q) ==> b.cells[q] != value,
{
    if forall|q: int|
        0 <= q < b.cells.len() && #[trigger] sees(b.side, col, row, q) ==> b.cells[q] != value {
        if b.row_contains(row, value) {
            let q = choose|q: int|
                0 <= q < b.cells.len() && #[trigger] in_row(b.side, row, q) && b.cells[q] == value;
            assert(sees(b.side, col, row, q));
        }
        if b.col_contains(col, value) {
            let q = choose|q: int|
                0 <= q < b.cells.len() && #[trigger] in_col(b.side, col, q) && b.cells[q] == value;
            assert(sees(b.side, col, row, q));
        }
        if b.box_contains(col, row, value) {
            let q = choose|q: int|
                0 <= q < b.cells.len() && #[trigger] in_box(b.side, col, row, q) && b.cells[q]
                    == value;
            assert(sees(b.side, col, row, q));
        }
    }
}

} // verus!
