//! Cells and boards as text.

use vstd::prelude::*;
use vstd::string::StringExecFns;
use crate::board::Board;
use crate::grid::Cell;
use crate::input::InputError;

verus! {

/// The character for a digit.
pub open spec fn digit_char(d: int) -> char {
    ('0' as int + d) as char
}

/// A number in base ten, without leading zeros.
pub open spec fn decimal(n: nat) -> Seq<char>
    decreases n,
{
    if n < 10 {
        seq![digit_char(n as int)]
    } else {
        decimal(n / 10).push(digit_char((n % 10) as int))
    }
}

/// A cell as text: column and row in brackets, joined by a hyphen.
pub open spec fn cell_text(c: Cell) -> Seq<char> {
    seq!['('] + decimal(c.col as nat) + seq!['-'] + decimal(c.row as nat) + seq![')']
}

/// One cell of a board as text: `1` for a live cell, `0` for any other, and
/// a space.
pub open spec fn mark_text(live: Set<Cell>, c: Cell) -> Seq<char> {
    if live.contains(c) {
        seq!['1', ' ']
    } else {
        seq!['0', ' ']
    }
}

/// The first `cols` cells of a row as text.
pub open spec fn row_text(live: Set<Cell>, row: int, cols: int) -> Seq<char>
    decreases cols,
{
    if cols <= 0 {
        Seq::empty()
    } else {
        row_text(live, row, cols - 1) + mark_text(live, Cell { row: row as u8, col: cols as u8 })
    }
}

/// The first `rows` rows of a board as text, each ended by a line feed.
pub open spec fn rows_text(live: Set<Cell>, rows: int) -> Seq<char>
    decreases rows,
{
    if rows <= 0 {
        Seq::empty()
    } else {
        rows_text(live, rows - 1) + row_text(live, rows, 7) + seq!['\n']
    }
}

/// A board as text: seven lines of seven marks.
pub open spec fn board_text(live: Set<Cell>) -> Seq<char> {
    rows_text(live, 7)
}

fn digit_str(d: u8) -> (s: &'static str)
    requires
        d < 10,
    ensures
        s@ == seq![digit_char(d as int)],
{
    proof {
        reveal_strlit("0");
        reveal_strlit("1");
        reveal_strlit("2");
        reveal_strlit("3");
        reveal_strlit("4");
        reveal_strlit("5");
        reveal_strlit("6");
        reveal_strlit("7");
        reveal_strlit("8");
        reveal_strlit("9");
    }
    let s = if d == 0 {
        "0"
    } else if d == 1 {
        "1"
    } else if d == 2 {
        "2"
    } else if d == 3 {
        "3"
    } else if d == 4 {
        "4"
    } else if d == 5 {
        "5"
    } else if d == 6 {
        "6"
    } else if d == 7 {
        "7"
    } else if d == 8 {
        "8"
    } else {
        "9"
    };
    assert(s@ =~= seq![digit_char(d as int)]);
    s
}

/// Appends `n` in base ten to `text`.
fn append_decimal(text: &mut String, n: u8)
    ensures
        final(text)@ == old(text)@ + decimal(n as nat),
{
    let ghost before = text@;
    if n >= 100 {
        text.append(digit_str(n / 100));
    }
    if n >= 10 {
        text.append(digit_str((n / 10) % 10));
    }
    text.append(digit_str(n % 10));
    proof {
        reveal_with_fuel(decimal, 3);
        assert(text@ =~= before + decimal(n as nat));
    }
}

impl Cell {
    /// The cell as text, such as `(2-3)` for column 2, row 3.
    pub fn to_text(&self) -> (text: String)
        ensures
            text@ == cell_text(*self),
    {
        let mut text = String::new();
        proof {
            reveal_strlit("(");
            reveal_strlit("-");
            reveal_strlit(")");
        }
        text.append("(");
        append_decimal(&mut text, self.col);
        text.append("-");
        append_decimal(&mut text, self.row);
        text.append(")");
        assert(text@ =~= cell_text(*self));
        text
    }
}

impl InputError {
    /// What went wrong, in words.
    pub fn to_text(&self) -> (text: String)
        ensures
            text@ == "Invalid row or col input"@,
    {
        String::from_str("Invalid row or col input")
    }
}

impl Board {
    /// The board as text: one line for each row, and in it `1` or `0` and a
    /// space for each cell.
    pub fn to_text(&self) -> (text: String)
        ensures
            text@ == board_text(self@),
    {
        let mut text = String::new();
        let mut row: u8 = 1;
        while row <= 7
            invariant
                1 <= row <= 8,
                text@ == rows_text(self@, row - 1),
            decreases 8 - row,
        {
            let ghost before = text@;
            let mut col: u8 = 1;
            while col <= 7
                invariant
                    1 <= row <= 7,
                    1 <= col <= 8,
                    text@ == before + row_text(self@, row as int, col - 1),
                decreases 8 - col,
            {
                let ghost so_far = text@;
                if self.value_at(row, col) {
                    text.append("1 ");
                } else {
                    text.append("0 ");
                }
                proof {
                    reveal_strlit("1 ");
                    reveal_strlit("0 ");
                    assert(text@ =~= so_far + mark_text(self@, Cell { row, col }));
                    assert(text@ =~= before + row_text(self@, row as int, col as int));
                }
                col += 1;
            }
            text.append("\n");
            proof {
                reveal_strlit("\n");
                assert(text@ =~= rows_text(self@, row as int));
            }
            row += 1;
        }
        text
    }
}

} // verus!
