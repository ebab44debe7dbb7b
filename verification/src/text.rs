//! The grid as text: one line for each row, every cell followed by a
//! space, and an underscore in place of an empty cell.

use crate::arith::lemma_two_digits;
use crate::board::Board;
use crate::grid::Cell;
use crate::grid::Sudoku;
use vstd::prelude::*;
use vstd::string::*;

verus! {

/// The character of the decimal digit `d`.
pub open spec fn digit(d: int) -> char {
    if d == 0 {
        '0'
    } else if d == 1 {
        '1'
    } else if d == 2 {
        '2'
    } else if d == 3 {
        '3'
    } else if d == 4 {
        '4'
    } else if d == 5 {
        '5'
    } else if d == 6 {
        '6'
    } else if d == 7 {
        '7'
    } else if d == 8 {
        '8'
    } else {
        '9'
    }
}

/// The decimal digits of `n`, without leading zeros.
pub open spec fn decimal(n: nat) -> Seq<char>
    decreases n,
{
    if n < 10 {
        seq![digit(n as int)]
    } else {
        decimal(n / 10).push(digit((n % 10) as int))
    }
}

/// The text of one cell: an underscore for an empty cell, else the value
/// in decimal; then a space.
pub open spec fn cell_text(value: usize) -> Seq<char> {
    if value == 0 {
        seq!['_', ' ']
    } else {
        decimal(value as nat).push(' ')
    }
}

/// The text of the first `count` cells of row `row`.
pub open spec fn row_text(b: Board, row: int, count: int) -> Seq<char>
    decreases count,
{
    if count <= 0 {
        Seq::empty()
    } else {
        row_text(b, row, count - 1) + cell_text(b.cells[row * b.side + count - 1])
    }
}

/// The text of the first `rows` rows, each closed by a line feed.
pub open spec fn board_text(b: Board, rows: int) -> Seq<char>
    decreases rows,
{
    if rows <= 0 {
        Seq::empty()
    } else {
        (board_text(b, rows - 1) + row_text(b, rows - 1, b.side as int)).push('\n')
    }
}

/// The one-character text of a decimal digit.
fn digit_text(d: usize) -> (text: &'static str)
    requires
        d < 10,
    ensures
        text@ == seq![digit(d as int)],
{
    proof {
        reveal_strlit("0");
        reveal_strlit("1");
        reveal_strlit("2");
        reveal_strlit("3");
        reveal_strlit("4");
        reveal_strlit("5");
        reveal_strlit("6");
        reveal_strlit("7");
        reveal_strlit("8");
        reveal_strlit("9");
    }
    let text = if d == 0 {
        "0"
    } else if d == 1 {
        "1"
    } else if d == 2 {
        "2"
    } else if d == 3 {
        "3"
    } else if d == 4 {
        "4"
    } else if d == 5 {
        "5"
    } else if d == 6 {
        "6"
    } else if d == 7 {
        "7"
    } else if d == 8 {
        "8"
    } else {
        "9"
    };
    text
}

/// Appends the decimal digits of `n` to `out`.
fn push_decimal(out: &mut String, n: usize)
    ensures
        final(out)@ == old(out)@ + decimal(n as nat),
    decreases n,
{
    if n >= 10 {
        push_decimal(out, n / 10);
    }
    out.append(digit_text(n % 10));
}

/// Appends the text of one cell to `out`.
fn push_cell(out: &mut String, value: Cell)
    ensures
        final(out)@ == old(out)@ + cell_text(value),
{
    proof {
        reveal_strlit("_ ");
        reveal_strlit(" ");
    }
    if value == 0 {
        out.append("_ ");
    } else {
        push_decimal(out, value);
        out.append(" ");
    }
}

impl Sudoku {
    /// Renders the grid as text, one line for each row: every cell followed
    /// by a space, an underscore for an empty cell, and a line feed at the
    /// end of the row.
    pub fn render(&self) -> (text: String)
        ensures
            text@ == board_text(self@, self@.side as int),
    {
        proof {
            use_type_invariant(self);
        }
        let mut text = String::new();
        let mut y: usize = 0;
        while y < self.size
            invariant
                y <= self.size,
                self.size * self.size <= self.board.len(),
                text@ == board_text(self@, y as int),
            decreases self.size - y,
        {
            proof {
                lemma_two_digits(self.size as int, y as int, 0);
                reveal_strlit("\n");
            }
            let ghost before = text@;
            let start: usize = y * self.size;
            let mut x: usize = 0;
            while x < self.size
                invariant
                    x <= self.size,
                    y < self.size,
                    start == y * self.size,
                    start + self.size <= self.board.len(),
                    text@ == before + row_text(self@, y as int, x as int),
                decreases self.size - x,
            {
                push_cell(&mut text, self.board[start + x]);
                x += 1;
            }
            text.append("\n");
            y += 1;
        }
        text
    }
}

} // verus!
