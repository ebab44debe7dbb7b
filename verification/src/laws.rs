//! What holds of the library as a whole, stated over the models that the
//! contracts of its functions use, and proved.

use crate::board::box_edge;
use crate::board::sees;
use crate::board::Board;
use crate::root::is_floor_sqrt;
use crate::root::lemma_floor_sqrt_is;
use crate::rules::box_cells;
use crate::rules::col_cells;
use crate::rules::is_permutation;
use crate::rules::is_unit;
use crate::rules::lemma_seen_cell_shares_unit;
use crate::rules::lemma_unit_cells_see_each_other;
use crate::rules::repeats_in;
use crate::rules::row_cells;
use crate::rules::values_at;
use crate::search::first_differ_at;
use crate::search::no_later;
use crate::search::solve_outcome;
use vstd::prelude::*;

verus! {

/// Building a grid from a sequence of cells and reading its cells back
/// gives the sequence again, whatever its length.
pub proof fn lemma_round_trip(values: Seq<usize>)
    ensures
        Board::of(values).cells == values,
{
}

/// Of two different sequences, only one can come no later than the other.
pub proof fn lemma_no_later_is_antisymmetric(a: Seq<usize>, b: Seq<usize>)
    requires
        no_later(a, b),
        no_later(b, a),
    ensures
        a == b,
{
    if a != b {
        let k = choose|k: int| #[trigger] first_differ_at(a, b, k) && a[k] < b[k];
        let l = choose|l: int| #[trigger] first_differ_at(b, a, l) && b[l] < a[l];
        if k < l {
            assert(b[k] == a[k]);
        } else if l < k {
            assert(a[l] == b[l]);
        }
    }
}

/// Solving is deterministic: from one board, two runs end with the same
/// answer and the same board.
pub proof fn lemma_solve_is_deterministic(
    pre: Board,
    first: Board,
    first_ok: bool,
    second: Board,
    second_ok: bool,
)
    requires
        solve_outcome(pre, first, first_ok),
        solve_outcome(pre, second, second_ok),
    ensures
        first_ok == second_ok,
        first == second,
{
    if first_ok {
        lemma_no_later_is_antisymmetric(first.cells, second.cells);
    }
}

/// Solving never changes a cell that held a value, whether it succeeds or
/// not.
pub proof fn lemma_solve_keeps_clues(pre: Board, post: Board, ok: bool, q: int)
    requires
        solve_outcome(pre, post, ok),
        0 <= q < pre.cells.len(),
        pre.cells[q] != 0,
    ensures
        post.cells.len() == pre.cells.len(),
        post.cells[q] == pre.cells[q],
{
    if ok {
        assert(!pre.is_open(q));
    }
}

/// A board that some solved grid completes is solved by solving it: the
/// search succeeds, and every row, column and box of the board it leaves
/// is a permutation of `1..=side`.
pub proof fn lemma_solvable_board_gets_solved(
    pre: Board,
    post: Board,
    ok: bool,
    solution: Seq<usize>,
)
    requires
        pre.completed_by(solution),
        solve_outcome(pre, post, ok),
    ensures
        ok,
        post.is_solved(),
{
    lemma_solution_fills(pre, solution);
    lemma_solvable_board_is_well_posed(pre, solution);
    lemma_filling_is_solution(pre, post.cells);
}

/// On a puzzle in good order, solving succeeds exactly when some solved
/// grid completes the board, and the board it then leaves is such a grid.
pub proof fn lemma_solve_decides(pre: Board, post: Board, ok: bool)
    requires
        pre.well_posed(),
        solve_outcome(pre, post, ok),
    ensures
        ok <==> exists|solution: Seq<usize>| pre.completed_by(solution),
        ok ==> pre.completed_by(post.cells) && post.is_solved(),
{
    if ok {
        lemma_filling_is_solution(pre, post.cells);
    }
    if exists|solution: Seq<usize>| pre.completed_by(solution) {
        let solution = choose|solution: Seq<usize>| pre.completed_by(solution);
        lemma_solution_fills(pre, solution);
    }
}

/// A solved grid that completes a board fills it.
pub proof fn lemma_solution_fills(pre: Board, solution: Seq<usize>)
    requires
        pre.completed_by(solution),
    ensures
        pre.filled_by(solution),
{
    let side = pre.side;
    assert forall|p: int| #[trigger] pre.is_open(p) implies 1 <= solution[p] <= side
        && pre.placed_safely(solution, p) by {
        let at = lemma_seen_cell_shares_unit(side, p, p);
        assert(values_at(solution, at.0)[at.1] == solution[p]);
        assert forall|q: int|
            0 <= q < solution.len() && q != p && #[trigger] sees(
                side,
                pre.col_of(p),
                pre.row_of(p),
                q,
            ) implies solution[q] != solution[p] by {
            let at = lemma_seen_cell_shares_unit(side, p, q);
            lemma_solution_differs_in_unit(pre, solution, at.0, at.1, at.2);
        }
    }
}

/// On a puzzle in good order, whatever fills the board is a solved grid.
pub proof fn lemma_filling_is_solution(pre: Board, s: Seq<usize>)
    requires
        pre.well_posed(),
        pre.filled_by(s),
    ensures
        pre.completed_by(s),
{
    let side = pre.side;
    assert forall|unit: Seq<int>| #[trigger] is_unit(side, unit) implies is_permutation(
        values_at(s, unit),
        side,
    ) by {
        let vals = values_at(s, unit);
        assert forall|i: int| 0 <= i < side implies 1 <= #[trigger] vals[i] <= side by {
            lemma_unit_cells_see_each_other(side, unit, i, i);
            let a = unit[i];
            assert(vals[i] == s[a]);
            assert(0 <= a < pre.cells.len());
            if !pre.is_open(a) {
                assert(s[a] == pre.cells[a]);
                assert(pre.cells[a] != 0);
                assert(pre.cells[a] <= side);
            }
        }
        assert forall|i: int, j: int| 0 <= i < j < side implies vals[i] != vals[j] by {
            lemma_unit_cells_see_each_other(side, unit, i, j);
            lemma_unit_cells_see_each_other(side, unit, j, i);
            let a = unit[i];
            let b = unit[j];
            assert(vals[i] == s[a] && vals[j] == s[b]);
            assert(sees(side, pre.col_of(a), pre.row_of(a), b));
            assert(sees(side, pre.col_of(b), pre.row_of(b), a));
            if pre.is_open(a) {
                assert(pre.placed_safely(s, a));
                if pre.is_open(b) {
                    assert(pre.placed_safely(s, b));
                }
            } else if pre.is_open(b) {
                assert(pre.placed_safely(s, b));
            } else {
                assert(s[a] == pre.cells[a] && s[b] == pre.cells[b]);
                if s[a] == s[b] {
                    assert(repeats_in(pre.cells, unit));
                }
            }
        }
    }
    assert forall|q: int| 0 <= q < pre.cells.len() && pre.cells[q] != 0 implies s[q]
        == pre.cells[q] by {
        assert(!pre.is_open(q));
    }
}

/// A board that some solved grid completes is a puzzle in good order.
pub proof fn lemma_solvable_board_is_well_posed(pre: Board, solution: Seq<usize>)
    requires
        pre.completed_by(solution),
    ensures
        pre.well_posed(),
{
    assert forall|q: int| 0 <= q < pre.cells.len() implies pre.cells[q] <= pre.side by {
        if pre.cells[q] != 0 {
            let at = lemma_seen_cell_shares_unit(pre.side, q, q);
            assert(values_at(solution, at.0)[at.1] == solution[q]);
        }
    }
    if pre.has_conflict() {
        lemma_conflict_has_no_solution(pre, solution);
    }
}

/// A board that cannot be filled is reported as such, and left as it was.
pub proof fn lemma_unfillable_board_fails(pre: Board, post: Board, ok: bool)
    requires
        !pre.can_be_filled(),
        solve_outcome(pre, post, ok),
    ensures
        !ok,
        post == pre,
{
}

/// No solved grid completes a board on which a row, a column or a box
/// holds a value twice.
pub proof fn lemma_conflict_has_no_solution(pre: Board, solution: Seq<usize>)
    requires
        pre.proper(),
        pre.has_conflict(),
    ensures
        !pre.completed_by(solution),
{
    let (unit, i, j) = lemma_conflict_in_unit(pre);
    if pre.completed_by(solution) {
        lemma_unit_cells_see_each_other(pre.side, unit, i, j);
        lemma_unit_cells_see_each_other(pre.side, unit, j, i);
        lemma_solution_differs_in_unit(pre, solution, unit, i, j);
    }
}

/// A board on which a row, a column or a box holds a value twice is never
/// solved by solving it: whatever the search answers, the board that it
/// leaves still holds that value twice.
pub proof fn lemma_conflict_is_never_solved(pre: Board, post: Board, ok: bool)
    requires
        pre.proper(),
        pre.has_conflict(),
        solve_outcome(pre, post, ok),
    ensures
        post.has_conflict(),
        !post.is_solved(),
{
    let side = pre.side;
    let (unit, i, j) = lemma_conflict_in_unit(pre);
    lemma_unit_cells_see_each_other(side, unit, i, j);
    lemma_unit_cells_see_each_other(side, unit, j, i);
    lemma_solve_keeps_clues(pre, post, ok, unit[i]);
    lemma_solve_keeps_clues(pre, post, ok, unit[j]);
    let vals = values_at(post.cells, unit);
    assert(vals[i] == vals[j]);
}

/// Where a board holds a value twice in a row, a column or a box, names
/// that unit and the two places in it.
proof fn lemma_conflict_in_unit(pre: Board) -> (at: (Seq<int>, int, int))
    requires
        pre.proper(),
        pre.has_conflict(),
    ensures
        is_unit(pre.side, at.0),
        0 <= at.1 < at.2 < at.0.len(),
        at.0.len() == pre.side,
        pre.cells[at.0[at.1]] != 0,
        pre.cells[at.0[at.1]] == pre.cells[at.0[at.2]],
{
    let side = pre.side;
    let unit = choose|unit: Seq<int>| #[trigger] is_unit(side, unit) && repeats_in(pre.cells, unit);
    let (i, j) = choose|i: int, j: int|
        0 <= i < j < unit.len() && pre.cells[#[trigger] unit[i]] != 0 && pre.cells[unit[i]]
            == pre.cells[#[trigger] unit[j]];
    (unit, i, j)
}

/// A solved grid of side 9: each row is the row above it shifted by three
/// places, and by one place more where a new band of boxes begins.
pub open spec fn shifted_rows() -> Seq<usize> {
    Seq::new(81, |q: int| ((3 * ((q / 9) % 3) + (q / 9) / 3 + q % 9) % 9 + 1) as usize)
}

/// The empty grid of side 9 gets solved: the search succeeds on it, and
/// every row, column and box of the board it leaves is a permutation of
/// `1..=9`.
pub proof fn lemma_empty_standard_grid_gets_solved(pre: Board, post: Board, ok: bool)
    requires
        pre.side == 9,
        pre.cells == Seq::new(81, |i: int| 0usize),
        solve_outcome(pre, post, ok),
    ensures
        ok,
        post.is_solved(),
{
    lemma_shifted_rows_are_solved();
    lemma_solvable_board_gets_solved(pre, post, ok, shifted_rows());
}

/// The grid of shifted rows is a solved grid.
pub proof fn lemma_shifted_rows_are_solved()
    ensures
        (Board { cells: shifted_rows(), side: 9 }).is_solved(),
{
    assert(is_floor_sqrt(9, 3)) by (nonlinear_arith);
    lemma_floor_sqrt_is(9, 3);
    let w = shifted_rows();
    let full = Board { cells: w, side: 9 };
    assert(full.proper()) by {
        assert(full.side * full.side == 81) by (nonlinear_arith)
            requires
                full.side == 9,
        ;
    }
    assert forall|unit: Seq<int>| #[trigger] is_unit(9, unit) implies is_permutation(
        values_at(w, unit),
        9,
    ) by {
        if exists|u: int| 0 <= u < 9 && unit == #[trigger] row_cells(9, u) {
            lemma_shifted_row(choose|u: int| 0 <= u < 9 && unit == #[trigger] row_cells(9, u));
        } else if exists|u: int| 0 <= u < 9 && unit == #[trigger] col_cells(9, u) {
            lemma_shifted_col(choose|u: int| 0 <= u < 9 && unit == #[trigger] col_cells(9, u));
        } else {
            lemma_shifted_box(choose|u: int| 0 <= u < 9 && unit == #[trigger] box_cells(9, u));
        }
    }
}

/// Shifting `0..9` by any amount, modulo 9, repeats no value.
proof fn lemma_shift_repeats_nothing(shift: int, i: int, j: int)
    requires
        0 <= shift,
        0 <= i < j < 9,
    ensures
        (shift + i) % 9 != (shift + j) % 9,
        0 <= (shift + i) % 9 < 9,
{
}

/// Row `u` of the grid of shifted rows is a permutation.
proof fn lemma_shifted_row(u: int)
    requires
        0 <= u < 9,
    ensures
        is_permutation(values_at(shifted_rows(), row_cells(9, u)), 9),
{
    let vals = values_at(shifted_rows(), row_cells(9, u));
    let shift = 3 * (u % 3) + u / 3;
    assert forall|i: int| 0 <= i < 9 implies #[trigger] vals[i] == (shift + i) % 9 + 1 by {
        assert(row_cells(9, u)[i] == u * 9 + i);
    }
    assert forall|i: int, j: int| 0 <= i < j < 9 implies vals[i] != vals[j] by {
        lemma_shift_repeats_nothing(shift, i, j);
    }
}

/// Column `u` of the grid of shifted rows is a permutation.
proof fn lemma_shifted_col(u: int)
    requires
        0 <= u < 9,
    ensures
        is_permutation(values_at(shifted_rows(), col_cells(9, u)), 9),
{
    let vals = values_at(shifted_rows(), col_cells(9, u));
    assert forall|i: int| 0 <= i < 9 implies #[trigger] vals[i] == (u + (3 * (i % 3) + i / 3)) % 9
        + 1 by {
        assert(col_cells(9, u)[i] == i * 9 + u);
    }
    assert forall|i: int, j: int| 0 <= i < j < 9 implies vals[i] != vals[j] by {
        let a = 3 * (i % 3) + i / 3;
        let b = 3 * (j % 3) + j / 3;
        assert(0 <= a < 9 && 0 <= b < 9 && a != b);
        if a < b {
            lemma_shift_repeats_nothing(u, a, b);
        } else {
            lemma_shift_repeats_nothing(u, b, a);
        }
    }
}

/// Box `u` of the grid of shifted rows is a permutation.
proof fn lemma_shifted_box(u: int)
    requires
        0 <= u < 9,
        box_edge(9) == 3,
    ensures
        is_permutation(values_at(shifted_rows(), box_cells(9, u)), 9),
{
    let vals = values_at(shifted_rows(), box_cells(9, u));
    let shift = u / 3 + 3 * (u % 3);
    assert forall|i: int| 0 <= i < 9 implies #[trigger] vals[i] == (shift + i) % 9 + 1 by {
        let row = (u / 3) * 3 + i / 3;
        let col = (u % 3) * 3 + i % 3;
        assert(box_cells(9, u)[i] == row * 9 + col);
        assert((row * 9 + col) / 9 == row);
        assert((row * 9 + col) % 9 == col);
        assert(row % 3 == i / 3);
        assert(row / 3 == u / 3);
        assert(3 * (row % 3) + row / 3 + col == shift + i);
    }
    assert forall|i: int, j: int| 0 <= i < j < 9 implies vals[i] != vals[j] by {
        lemma_shift_repeats_nothing(shift, i, j);
    }
}

/// In a solved grid, two places of one unit hold different values.
proof fn lemma_solution_differs_in_unit(
    pre: Board,
    solution: Seq<usize>,
    unit: Seq<int>,
    i: int,
    j: int,
)
    requires
        pre.completed_by(solution),
        is_unit(pre.side, unit),
        0 <= i < pre.side,
        0 <= j < pre.side,
        i != j,
    ensures
        solution[unit[i]] != solution[unit[j]],
{
    let vals = values_at(solution, unit);
    assert(vals[i] == solution[unit[i]]);
    if i < j {
        assert(vals[i] != vals[j]);
    } else {
        assert(vals[j] != vals[i]);
    }
}

} // verus!
