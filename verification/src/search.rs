//! The backtracking search: what it means to fill a board, which filling
//! the search finds, and the search itself.

use crate::arith::lemma_digits;
use crate::arith::lemma_side_fits;
use crate::board::lemma_safe_iff_unseen;
use crate::board::sees;
use crate::board::Board;
use crate::grid::Cell;
use crate::grid::Sudoku;
use vstd::prelude::*;
use vstd::slice::slice_subrange;

verus! {

impl Board {
    /// In `s`, the value of cell `p` differs from the value of every other
    /// cell that `p` sees and that was there when `p` was filled: the cells
    /// that are not open on this board, and the open cells before `p`.
    ///
    /// Where boxes tile the grid, seeing is mutual; then this asks, of all
    /// open cells together, that no open cell repeats a value it sees.
    pub open spec fn placed_safely(self, s: Seq<usize>, p: int) -> bool {
        forall|q: int|
            0 <= q < s.len() && q != p && #[trigger] sees(
                self.side,
                self.col_of(p),
                self.row_of(p),
                q,
            ) && (q < p || !self.is_open(q)) ==> s[q] != s[p]
    }

    /// `s` fills this board: it keeps every cell that is not open, and
    /// gives every open cell a value from `1` to `side` that is placed
    /// safely.
    pub open spec fn filled_by(self, s: Seq<usize>) -> bool {
        &&& s.len() == self.cells.len()
        &&& forall|q: int|
            0 <= q < s.len() && !(#[trigger] self.is_open(q)) ==> s[q] == self.cells[q]
        &&& forall|p: int| #[trigger]
            self.is_open(p) ==> 1 <= s[p] <= self.side && self.placed_safely(s, p)
    }

    /// Some sequence of cells fills this board.
    pub open spec fn can_be_filled(self) -> bool {
        exists|s: Seq<usize>| self.filled_by(s)
    }
}

/// `a` and `b` agree before cell `k` and differ there.
pub open spec fn first_differ_at(a: Seq<usize>, b: Seq<usize>, k: int) -> bool {
    &&& 0 <= k < a.len()
    &&& a[k] != b[k]
    &&& forall|j: int| 0 <= j < k ==> a[j] == b[j]
}

/// The search meets `a` no later than `b`: they are equal, or `a` holds the
/// smaller value in the first cell where they differ.
pub open spec fn no_later(a: Seq<usize>, b: Seq<usize>) -> bool {
    &&& a.len() == b.len()
    &&& a == b || exists|k: int| #[trigger] first_differ_at(a, b, k) && a[k] < b[k]
}

/// What solving makes of a board `pre`: it succeeds exactly when `pre` can
/// be filled; the board is then the first filling that the search meets,
/// cell by cell from the first and value by value from `1`; and otherwise
/// the board is as it was.
pub open spec fn solve_outcome(pre: Board, post: Board, ok: bool) -> bool {
    &&& post.side == pre.side
    &&& ok <==> pre.can_be_filled()
    &&& ok ==> pre.filled_by(post.cells) && forall|s: Seq<usize>| #[trigger]
        pre.filled_by(s) ==> no_later(post.cells, s)
    &&& !ok ==> post.cells == pre.cells
}

/// A board without open cells is filled by its own cells and by nothing
/// else.
pub proof fn lemma_nothing_to_fill(c: Board, s: Seq<usize>)
    requires
        forall|q: int| !c.is_open(q),
    ensures
        c.filled_by(s) <==> s == c.cells,
{
    if c.filled_by(s) {
        assert forall|q: int| 0 <= q < s.len() implies s[q] == c.cells[q] by {
            assert(!c.is_open(q));
        }
        assert(s =~= c.cells);
    }
}

/// Whether a value is safe at a position does not depend on a cell that
/// holds another value before and after.
pub proof fn lemma_safe_ignores_other_values(
    c: Board,
    p: int,
    w: usize,
    col: int,
    row: int,
    v: usize,
)
    requires
        0 <= p < c.cells.len(),
        c.cells[p] != v,
        w != v,
    ensures
        c.with_cell(p, w).is_safe(col, row, v) == c.is_safe(col, row, v),
{
    let d = c.with_cell(p, w);
    lemma_safe_iff_unseen(c, col, row, v);
    if d.is_safe(col, row, v) {
        assert forall|q: int|
            0 <= q < c.cells.len() && #[trigger] sees(c.side, col, row, q) implies c.cells[q]
            != v by {
            assert(sees(d.side, col, row, q));
        }
    }
}

/// The step of the search. Where `p` is the first open cell of `c`, a
/// sequence fills `c` exactly when its value at `p` is in range and safe on
/// `c`, and it fills `c` with that value placed at `p`.
pub proof fn lemma_fill_first(c: Board, p: int, s: Seq<usize>)
    requires
        c.is_open(p),
        forall|q: int| 0 <= q < p ==> !c.is_open(q),
        s.len() == c.cells.len(),
    ensures
        c.filled_by(s) <==> (1 <= s[p] <= c.side && c.is_safe(c.col_of(p), c.row_of(p), s[p])
            && c.with_cell(p, s[p]).filled_by(s)),
{
    let v = s[p];
    let d = c.with_cell(p, v);
    let col = c.col_of(p);
    let row = c.row_of(p);
    lemma_safe_iff_unseen(c, col, row, v);
    if c.filled_by(s) {
        assert forall|q: int| 0 <= q < s.len() && !(#[trigger] d.is_open(q)) implies s[q]
            == d.cells[q] by {
            if q != p {
                assert(!c.is_open(q));
            }
        }
        assert forall|r: int| #[trigger] d.is_open(r) implies 1 <= s[r] <= d.side
            && d.placed_safely(s, r) by {
            assert(c.is_open(r));
            assert forall|q: int|
                0 <= q < s.len() && q != r && #[trigger] sees(
                    d.side,
                    d.col_of(r),
                    d.row_of(r),
                    q,
                ) && (q < r || !d.is_open(q)) implies s[q] != s[r] by {
                assert(sees(c.side, c.col_of(r), c.row_of(r), q));
            }
        }
    }
    if 1 <= v <= c.side && c.is_safe(col, row, v) && d.filled_by(s) {
        assert forall|q: int| 0 <= q < s.len() && !(#[trigger] c.is_open(q)) implies s[q]
            == c.cells[q] by {
            assert(!d.is_open(q));
        }
        assert forall|r: int| #[trigger] c.is_open(r) implies 1 <= s[r] <= c.side
            && c.placed_safely(s, r) by {
            if r == p {
                assert forall|q: int|
                    0 <= q < s.len() && q != p && #[trigger] sees(c.side, col, row, q) && (q < p
                        || !c.is_open(q)) implies s[q] != s[p] by {
                    assert(!c.is_open(q));
                }
            } else {
                assert(d.is_open(r));
                assert forall|q: int|
                    0 <= q < s.len() && q != r && #[trigger] sees(
                        c.side,
                        c.col_of(r),
                        c.row_of(r),
                        q,
                    ) && (q < r || !c.is_open(q)) implies s[q] != s[r] by {
                    assert(sees(d.side, d.col_of(r), d.row_of(r), q));
                }
            }
        }
    }
}

impl Sudoku {
    /// Fills every empty cell in play so that no filled cell repeats a
    /// value of its row, column or box, and tells whether it could. The
    /// cells that held a value keep it. Where the grid cannot be filled, it
    /// is left as it was.
    pub fn solve(&mut self) -> (ok: bool)
        ensures
            solve_outcome(old(self)@, final(self)@, ok),
            final(self)@.cells.len() == old(self)@.cells.len(),
            forall|q: int|
                0 <= q < old(self)@.cells.len() && old(self)@.cells[q] != 0
                    ==> final(self)@.cells[q] == old(self)@.cells[q],
    {
        let locs = self.get_open_cells_locs();
        let ok = self.solve_rec(locs.as_slice());
        proof {
            let pre = old(self)@;
            let post = self@;
            if ok {
                assert forall|q: int|
                    0 <= q < pre.cells.len() && pre.cells[q] != 0 implies post.cells[q]
                    == pre.cells[q] by {
                    assert(!pre.is_open(q));
                }
            }
        }
        ok
    }

    /// Searches for a filling of the open cells `locs`, trying at the first
    /// of them each value from `1` to the side in turn and, where the value
    /// is safe, going on to the rest.
    pub(crate) fn solve_rec(&mut self, locs: &[Cell]) -> (ok: bool)
        requires
            old(self)@.open_cells_are(locs@),
        ensures
            solve_outcome(old(self)@, final(self)@, ok),
        decreases locs@.len(),
    {
        let ghost c = self@;
        if locs.len() == 0 {
            proof {
                lemma_nothing_to_fill(c, c.cells);
                assert forall|s: Seq<usize>| #[trigger] c.filled_by(s) implies no_later(
                    c.cells,
                    s,
                ) by {
                    lemma_nothing_to_fill(c, s);
                }
            }
            return true;
        }
        let loc = locs[0];
        let rest = slice_subrange(locs, 1, locs.len());
        let ghost p = loc as int;
        proof {
            use_type_invariant(&*self);
            assert(self.board@.len() == self.board.len());
            lemma_side_fits(self.size as nat, self.board@.len());
            lemma_digits(self.size as int, loc as int);
        }
        let loc_tuple = (self.get_col(loc), self.get_row(loc));
        self.board[loc] = 0;
        let mut ret = false;
        let mut x: usize = 1;
        while x <= self.size
            invariant_except_break
                !ret,
                forall|s: Seq<usize>| #[trigger] c.filled_by(s) ==> s[p] >= x,
                self.board@ == c.cells.update(p, self.board@[p]),
                self.board@[p] < x,
            invariant
                c.shaped(),
                self.size == c.side,
                self.size < usize::MAX,
                1 <= x <= self.size + 1,
                self.board@.len() == c.cells.len(),
                p == loc,
                c.is_open(p),
                forall|q: int| 0 <= q < p ==> !c.is_open(q),
                c.open_cells_are(locs@),
                locs@.len() > 0,
                locs@[0] == loc,
                rest@ == locs@.subrange(1, locs@.len() as int),
                loc_tuple.0 == c.col_of(p),
                loc_tuple.1 == c.row_of(p),
                self.size > 0,
            ensures
                ret ==> solve_outcome(c, self@, true),
                !ret ==> !c.can_be_filled() && self.board@ == c.cells.update(p, self.board@[p]),
            decreases self.size + 1 - x,
        {
            let ghost cur = self@;
            let safe = self.value_is_safe(loc_tuple, x);
            proof {
                assert(cur == c.with_cell(p, cur.cells[p]));
                lemma_safe_ignores_other_values(c, p, cur.cells[p], c.col_of(p), c.row_of(p), x);
            }
            if safe {
                self.board[loc] = x;
                let ghost d = self@;
                proof {
                    assert(d.cells =~= c.cells.update(p, x));
                    lemma_rest_lists_open(c, locs@, x);
                }
                if self.solve_rec(rest) {
                    ret = true;
                    proof {
                        let post = self@;
                        assert(!d.is_open(p));
                        lemma_fill_first(c, p, post.cells);
                        assert forall|s: Seq<usize>| #[trigger] c.filled_by(s) implies no_later(
                            post.cells,
                            s,
                        ) by {
                            lemma_fill_first(c, p, s);
                            if s[p] != x {
                                assert forall|j: int| 0 <= j < p implies post.cells[j] == s[j] by {
                                    assert(!c.is_open(j));
                                }
                                assert(first_differ_at(post.cells, s, p));
                            }
                        }
                    }
                    break;
                }
                proof {
                    assert forall|s: Seq<usize>| #[trigger] c.filled_by(s) implies s[p] >= x
                        + 1 by {
                        lemma_fill_first(c, p, s);
                    }
                }
            } else {
                self.board[loc] = 0;
                proof {
                    assert forall|s: Seq<usize>| #[trigger] c.filled_by(s) implies s[p] >= x
                        + 1 by {
                        lemma_fill_first(c, p, s);
                    }
                }
            }
            x += 1;
        }
        if !ret {
            self.board[loc] = 0;
            assert(self.board@ =~= c.cells);
        }
        ret
    }
}

/// Once the first open cell holds a value, the rest of the list is the
/// list of the open cells.
proof fn lemma_rest_lists_open(c: Board, locs: Seq<usize>, v: usize)
    requires
        c.open_cells_are(locs),
        locs.len() > 0,
        v != 0,
    ensures
        c.with_cell(locs[0] as int, v).open_cells_are(locs.subrange(1, locs.len() as int)),
{
    let p = locs[0] as int;
    let d = c.with_cell(p, v);
    let rest = locs.subrange(1, locs.len() as int);
    assert forall|q: int| #[trigger] d.is_open(q) implies exists|k: int|
        0 <= k < rest.len() && rest[k] == q by {
        assert(c.is_open(q));
        let k = choose|k: int| 0 <= k < locs.len() && locs[k] == q;
        assert(rest[k - 1] == q);
    }
}

} // verus!
