//! The rules of the puzzle: the rows, columns and boxes of a grid as lists
//! of cells, and what it means for a grid to be solved.

use crate::arith::lemma_digits;
use crate::arith::lemma_split;
use crate::arith::lemma_two_digits;
use crate::board::box_corner;
use crate::board::box_edge;
use crate::board::in_col;
use crate::board::in_row;
use crate::board::sees;
use crate::board::Board;
use vstd::arithmetic::div_mod::lemma_fundamental_div_mod;
use vstd::prelude::*;
use vstd::set_lib::lemma_int_range;
use vstd::set_lib::lemma_subset_equality;
use vstd::set_lib::set_int_range;

verus! {

/// The cells of row `r`, from left to right.
pub open spec fn row_cells(side: nat, r: int) -> Seq<int> {
    Seq::new(side, |i: int| r * side + i)
}

/// The cells of column `c`, from top to bottom.
pub open spec fn col_cells(side: nat, c: int) -> Seq<int> {
    Seq::new(side, |i: int| i * side + c)
}

/// The cells of box `k`, row by row. Boxes are counted row by row too:
/// box `k` is the one `k / box_edge` boxes down and `k % box_edge` boxes to
/// the right.
pub open spec fn box_cells(side: nat, k: int) -> Seq<int> {
    let b = box_edge(side) as int;
    Seq::new(side, |i: int| ((k / b) * b + i / b) * side + ((k % b) * b + i % b))
}

/// `unit` is a row, a column or a box of a grid of side `side`.
pub open spec fn is_unit(side: nat, unit: Seq<int>) -> bool {
    ||| exists|u: int| 0 <= u < side && unit == #[trigger] row_cells(side, u)
    ||| exists|u: int| 0 <= u < side && unit == #[trigger] col_cells(side, u)
    ||| exists|u: int| 0 <= u < side && unit == #[trigger] box_cells(side, u)
}

/// The values that `cells` holds at the cells of `unit`, in order.
pub open spec fn values_at(cells: Seq<usize>, unit: Seq<int>) -> Seq<usize> {
    Seq::new(unit.len(), |i: int| cells[unit[i]])
}

/// `vals` is a permutation of `1..=n`: `n` values from `1` to `n`, no two
/// of them equal.
pub open spec fn is_permutation(vals: Seq<usize>, n: nat) -> bool {
    &&& vals.len() == n
    &&& forall|i: int| 0 <= i < n ==> 1 <= #[trigger] vals[i] <= n
    &&& forall|i: int, j: int| 0 <= i < j < n ==> vals[i] != vals[j]
}

/// Two cells of `unit` hold the same value, and it is not `0`.
pub open spec fn repeats_in(cells: Seq<usize>, unit: Seq<int>) -> bool {
    exists|i: int, j: int|
        0 <= i < j < unit.len() && cells[#[trigger] unit[i]] != 0 && cells[unit[i]]
            == cells[#[trigger] unit[j]]
}

impl Board {
    /// The grid is a solved Sudoku: boxes tile it, and every row, every
    /// column and every box is a permutation of `1..=side`.
    pub open spec fn is_solved(self) -> bool {
        &&& self.proper()
        &&& forall|unit: Seq<int>| #[trigger]
            is_unit(self.side, unit) ==> is_permutation(values_at(self.cells, unit), self.side)
    }

    /// `solution` is a solved grid of the same side that keeps every value
    /// that this board holds.
    pub open spec fn completed_by(self, solution: Seq<usize>) -> bool {
        &&& solution.len() == self.cells.len()
        &&& (Board { cells: solution, side: self.side }).is_solved()
        &&& forall|q: int|
            0 <= q < self.cells.len() && self.cells[q] != 0 ==> solution[q] == self.cells[q]
    }

    /// Some row, column or box holds a value twice.
    pub open spec fn has_conflict(self) -> bool {
        exists|unit: Seq<int>| #[trigger] is_unit(self.side, unit) && repeats_in(self.cells, unit)
    }

    /// The grid is a puzzle in good order: boxes tile it, no value exceeds
    /// the side, and no row, column or box holds a value twice.
    pub open spec fn well_posed(self) -> bool {
        &&& self.proper()
        &&& forall|q: int| 0 <= q < self.cells.len() ==> self.cells[q] <= self.side
        &&& !self.has_conflict()
    }
}

/// Where cell `i` of row `r` lies.
pub proof fn lemma_row_cell(side: nat, r: int, i: int)
    requires
        0 <= r < side,
        0 <= i < side,
    ensures
        0 <= row_cells(side, r)[i] < side * side,
        row_cells(side, r)[i] / (side as int) == r,
        row_cells(side, r)[i] % (side as int) == i,
{
    lemma_split(side as int, r, i);
    lemma_two_digits(side as int, r, i);
}

/// Where cell `i` of column `c` lies.
pub proof fn lemma_col_cell(side: nat, c: int, i: int)
    requires
        0 <= c < side,
        0 <= i < side,
    ensures
        0 <= col_cells(side, c)[i] < side * side,
        col_cells(side, c)[i] / (side as int) == i,
        col_cells(side, c)[i] % (side as int) == c,
{
    lemma_split(side as int, i, c);
    lemma_two_digits(side as int, i, c);
}

/// Where cell `i` of box `k` lies, on a grid that boxes tile: its row and
/// column, and the corner of the box around it.
pub proof fn lemma_box_cell(side: nat, k: int, i: int)
    requires
        box_edge(side) * box_edge(side) == side,
        0 <= k < side,
        0 <= i < side,
    ensures
        0 <= box_cells(side, k)[i] < side * side,
        box_cells(side, k)[i] / (side as int) == (k / (box_edge(side) as int)) * box_edge(side) + i
            / (box_edge(side) as int),
        box_cells(side, k)[i] % (side as int) == (k % (box_edge(side) as int)) * box_edge(side) + i
            % (box_edge(side) as int),
        box_corner(
            side,
            box_cells(side, k)[i] % (side as int),
            box_cells(side, k)[i] / (side as int),
        ) == (k / (box_edge(side) as int)) * box_edge(side) * side + (k % (box_edge(side) as int))
            * box_edge(side),
{
    let b = box_edge(side) as int;
    let n = side as int;
    lemma_digits(b, k);
    lemma_digits(b, i);
    let row = (k / b) * b + i / b;
    let col = (k % b) * b + i % b;
    lemma_two_digits(b, k / b, i / b);
    lemma_two_digits(b, k % b, i % b);
    lemma_split(n, row, col);
    lemma_two_digits(n, row, col);
    lemma_split(b, k / b, i / b);
    lemma_split(b, k % b, i % b);
}

/// On a grid that boxes tile, the cells of a unit are cells of the grid,
/// each listed once, and each sees all of them.
pub proof fn lemma_unit_cells_see_each_other(side: nat, unit: Seq<int>, i: int, j: int)
    requires
        box_edge(side) * box_edge(side) == side,
        is_unit(side, unit),
        0 <= i < side,
        0 <= j < side,
    ensures
        unit.len() == side,
        0 <= unit[i] < side * side,
        i != j ==> unit[i] != unit[j],
        sees(side, unit[i] % (side as int), unit[i] / (side as int), unit[j]),
{
    let n = side as int;
    if exists|u: int| 0 <= u < side && unit == #[trigger] row_cells(side, u) {
        let u = choose|u: int| 0 <= u < side && unit == #[trigger] row_cells(side, u);
        lemma_row_cell(side, u, i);
    } else if exists|u: int| 0 <= u < side && unit == #[trigger] col_cells(side, u) {
        let u = choose|u: int| 0 <= u < side && unit == #[trigger] col_cells(side, u);
        lemma_col_cell(side, u, i);
        lemma_col_cell(side, u, j);
    } else {
        let u = choose|u: int| 0 <= u < side && unit == #[trigger] box_cells(side, u);
        let b = box_edge(side) as int;
        lemma_box_cell(side, u, i);
        lemma_box_cell(side, u, j);
        lemma_digits(b, i);
        lemma_digits(b, j);
        let corner = box_corner(side, unit[i] % n, unit[i] / n);
        let d = unit[j] - corner;
        assert(d == (j / b) * n + j % b) by (nonlinear_arith)
            requires
                unit[j] == ((u / b) * b + j / b) * n + ((u % b) * b + j % b),
                corner == (u / b) * b * n + (u % b) * b,
                d == unit[j] - corner,
        ;
        lemma_split(n, j / b, j % b);
    }
}

/// On a grid that boxes tile, a cell and a cell that it sees lie together
/// in a row, a column or a box.
pub proof fn lemma_seen_cell_shares_unit(side: nat, p: int, q: int) -> (at: (Seq<int>, int, int))
    requires
        box_edge(side) * box_edge(side) == side,
        0 <= p < side * side,
        0 <= q < side * side,
        sees(side, p % (side as int), p / (side as int), q),
    ensures
        is_unit(side, at.0),
        0 <= at.1 < side,
        0 <= at.2 < side,
        at.0[at.1] == p,
        at.0[at.2] == q,
{
    let n = side as int;
    lemma_digits(n, p);
    lemma_digits(n, q);
    let row = p / n;
    let col = p % n;
    if in_row(side, row, q) {
        let unit = row_cells(side, row);
        let j = q - row * n;
        (unit, col, j)
    } else if in_col(side, col, q) {
        let unit = col_cells(side, col);
        (unit, row, q / n)
    } else {
        let b = box_edge(side) as int;
        lemma_digits(b, row);
        lemma_digits(b, col);
        let k = (row / b) * b + col / b;
        let ip = (row % b) * b + col % b;
        lemma_two_digits(b, row / b, col / b);
        lemma_two_digits(b, row % b, col % b);
        lemma_split(b, row / b, col / b);
        lemma_split(b, row % b, col % b);
        let unit = box_cells(side, k);
        let corner = box_corner(side, col, row);
        let d = q - corner;
        lemma_fundamental_div_mod(d, n);
        let di = d / n;
        let dj = d % n;
        let iq = di * b + dj;
        lemma_two_digits(b, di, dj);
        lemma_split(b, di, dj);
        assert(unit[iq] == q) by (nonlinear_arith)
            requires
                unit[iq] == ((row / b) * b + di) * n + ((col / b) * b + dj),
                q == corner + di * n + dj,
                corner == (row - row % b) * n + (col - col % b),
                row == (row / b) * b + row % b,
                col == (col / b) * b + col % b,
        ;
        (unit, ip, iq)
    }
}

/// A permutation of `1..=n` holds every value from `1` to `n`.
pub proof fn lemma_permutation_holds_every_value(vals: Seq<usize>, n: nat, v: usize)
    requires
        is_permutation(vals, n),
        1 <= v <= n,
    ensures
        vals.contains(v),
{
    let ints = Seq::new(n, |i: int| vals[i] as int);
    ints.unique_seq_to_set();
    lemma_int_range(1, n as int + 1);
    let all = set_int_range(1, n as int + 1);
    lemma_subset_equality(ints.to_set(), all);
    assert(ints.to_set().contains(v as int));
    let i = choose|i: int| 0 <= i < n && ints[i] == v as int;
    assert(vals[i] == v);
}

} // verus!
