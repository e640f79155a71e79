//! Boards from raw input. A line of text holds tokens separated by white
//! space; a token is a number whose tens give the column and whose units
//! give the row of a cell that has already been removed.

use vstd::prelude::*;
use crate::board::Board;
use crate::grid::{full_board, is_valid_location, Cell};

verus! {

/// Why a board could not be built from its input.
#[derive(PartialEq, Eq, Structural, Clone, Copy, Debug)]
pub enum InputError {
    /// The token names a position off the board.
    InvalidLocation { value: u8 },
}

/// The cell that a token names: column in the tens, row in the units.
pub open spec fn decoded(value: u8) -> Cell {
    Cell { row: (value % 10) as u8, col: (value / 10) as u8 }
}

/// The cells that the tokens name, in their order.
pub open spec fn decoded_cells(input: Seq<u8>) -> Seq<Cell> {
    input.map_values(|value: u8| decoded(value))
}

/// Every token names a cell of the board.
pub open spec fn all_on_board(input: Seq<u8>) -> bool {
    forall|i: int| 0 <= i < input.len() ==> (#[trigger] decoded(input[i])).valid()
}

/// The cell that a token names.
pub fn decode(value: u8) -> (cell: Cell)
    ensures
        cell == decoded(value),
{
    Cell { row: value % 10, col: value / 10 }
}

/// White space, as `char::is_whitespace` has it: the code points with the
/// Unicode property White_Space.
pub open spec fn is_space(c: char) -> bool {
    let code = c as u32;
    (0x09 <= code <= 0x0d) || code == 0x20 || code == 0x85 || code == 0xa0 || code == 0x1680 || (
    0x2000 <= code <= 0x200a) || code == 0x2028 || code == 0x2029 || code == 0x202f || code
        == 0x205f || code == 0x3000
}

/// The words of a line: its longest stretches without white space.
pub open spec fn words(line: Seq<char>) -> Seq<Seq<char>>
    decreases line.len(),
{
    if line.len() == 0 {
        Seq::empty()
    } else if is_space(line.last()) {
        words(line.drop_last())
    } else if line.len() >= 2 && !is_space(line[line.len() - 2]) {
        let before = words(line.drop_last());
        before.drop_last().push(before.last().push(line.last()))
    } else {
        words(line.drop_last()).push(seq![line.last()])
    }
}

/// An ASCII digit.
pub open spec fn is_digit(c: char) -> bool {
    '0' <= c <= '9'
}

/// The number that a string of digits writes in base ten.
pub open spec fn digits_value(digits: Seq<char>) -> int
    decreases digits.len(),
{
    if digits.len() == 0 {
        0
    } else {
        digits_value(digits.drop_last()) * 10 + (digits.last() as int - '0' as int)
    }
}

/// Every character is an ASCII digit.
pub open spec fn all_digits(digits: Seq<char>) -> bool {
    forall|i: int| 0 <= i < digits.len() ==> is_digit(#[trigger] digits[i])
}

/// The number up to 255 that one or more digits write, if they do.
pub open spec fn number_value(digits: Seq<char>) -> Option<u8> {
    if digits.len() > 0 && all_digits(digits) && digits_value(digits) <= 255 {
        Some(digits_value(digits) as u8)
    } else {
        None
    }
}

/// The token a word stands for: an optional `+`, then one or more digits
/// that write a number up to 255. Any other word stands for nothing.
pub open spec fn word_value(word: Seq<char>) -> Option<u8> {
    if word.len() > 0 && word[0] == '+' {
        number_value(word.drop_first())
    } else {
        number_value(word)
    }
}

/// The tokens of a line: the values of its words, in their order. Words
/// that stand for nothing are passed over.
pub open spec fn parsed_tokens(line: Seq<char>) -> Seq<u8> {
    words(line).filter_map(|word: Seq<char>| word_value(word))
}

/// Digits only make a number larger.
proof fn lemma_digits_value_grows(digits: Seq<char>, n: int)
    requires
        0 <= n <= digits.len(),
        all_digits(digits),
    ensures
        0 <= digits_value(digits.take(n)) <= digits_value(digits),
    decreases digits.len() - n,
{
    if n == digits.len() {
        assert(digits.take(n) =~= digits);
        lemma_digits_value_bounds(digits);
    } else {
        lemma_digits_value_grows(digits, n + 1);
        assert(digits.take(n + 1).drop_last() =~= digits.take(n));
        assert(is_digit(digits[n]));
        assert(all_digits(digits.take(n))) by {
            assert forall|i: int| 0 <= i < digits.take(n).len() implies is_digit(
                #[trigger] digits.take(n)[i],
            ) by {
                assert(is_digit(digits[i]));
            }
        }
        lemma_digits_value_bounds(digits.take(n));
    }
}

proof fn lemma_digits_value_bounds(digits: Seq<char>)
    requires
        all_digits(digits),
    ensures
        0 <= digits_value(digits),
    decreases digits.len(),
{
    if digits.len() > 0 {
        assert(all_digits(digits.drop_last())) by {
            assert forall|i: int| 0 <= i < digits.drop_last().len() implies is_digit(
                #[trigger] digits.drop_last()[i],
            ) by {
                assert(is_digit(digits[i]));
            }
        }
        lemma_digits_value_bounds(digits.drop_last());
        assert(is_digit(digits[digits.len() - 1]));
    }
}

/// Whether `c` is white space.
pub fn is_whitespace(c: char) -> (b: bool)
    ensures
        b == is_space(c),
{
    let code = c as u32;
    (0x09 <= code && code <= 0x0d) || code == 0x20 || code == 0x85 || code == 0xa0 || code
        == 0x1680 || (0x2000 <= code && code <= 0x200a) || code == 0x2028 || code == 0x2029 || code
        == 0x202f || code == 0x205f || code == 0x3000
}

/// The token that `word` stands for, if it stands for one.
pub fn parse_word(word: &Vec<char>) -> (out: Option<u8>)
    ensures
        out == word_value(word@),
{
    let start: usize = if word.len() > 0 && word[0] == '+' {
        1
    } else {
        0
    };
    let ghost digits = word@.subrange(start as int, word@.len() as int);
    assert(digits =~= if word@.len() > 0 && word@[0] == '+' {
        word@.drop_first()
    } else {
        word@
    });
    if start == word.len() {
        return None;
    }
    let mut value: u16 = 0;
    let mut i: usize = start;
    assert(digits.take(0) =~= Seq::<char>::empty());
    while i < word.len()
        invariant
            start <= i <= word.len(),
            digits == word@.subrange(start as int, word@.len() as int),
            digits.len() > 0,
            word_value(word@) == number_value(digits),
            forall|k: int| 0 <= k < i - start ==> is_digit(#[trigger] digits[k]),
            value == digits_value(digits.take(i - start)),
            value <= 255,
        decreases word.len() - i,
    {
        let c = word[i];
        assert(digits[i - start] == c);
        if !(c >= '0' && c <= '9') {
            return None;
        }
        let digit = (c as u32 - '0' as u32) as u16;
        assert(digits.take(i - start + 1).drop_last() =~= digits.take(i - start));
        value = value * 10 + digit;
        if value > 255 {
            proof {
                if all_digits(digits) {
                    lemma_digits_value_grows(digits, i - start + 1);
                }
            }
            return None;
        }
        i += 1;
    }
    assert(digits.take(digits.len() as int) =~= digits);
    Some(value as u8)
}

/// Reads the tokens of a line. Words that are no token are passed over.
pub fn parse_tokens(line: &str) -> (out: Vec<u8>)
    ensures
        out@ == parsed_tokens(line@),
{
    let ghost value = |word: Seq<char>| word_value(word);
    let ghost mut done: Seq<Seq<char>> = Seq::empty();
    let mut out: Vec<u8> = Vec::new();
    let mut word: Vec<char> = Vec::new();
    assert(line@.take(0) =~= Seq::<char>::empty());
    for c in it: line.chars()
        invariant
            it.seq() == line@,
            value == |word: Seq<char>| word_value(word),
            out@ == done.filter_map(value),
            word@.len() > 0 ==> words(line@.take(it.index())) == done.push(word@),
            word@.len() == 0 ==> words(line@.take(it.index())) == done,
            word@.len() > 0 ==> it.index() > 0 && !is_space(line@[it.index() - 1]),
            word@.len() == 0 ==> it.index() == 0 || is_space(line@[it.index() - 1]),
    {
        let ghost seen = line@.take(it.index());
        let ghost now = line@.take(it.index() + 1);
        proof {
            assert(now.drop_last() =~= seen);
            assert(now.last() == c);
            assert(it.index() > 0 ==> now[now.len() - 2] == line@[it.index() - 1]);
        }
        if is_whitespace(c) {
            if word.len() > 0 {
                proof {
                    lemma_filter_map_push(done, word@, value);
                }
                match parse_word(&word) {
                    Some(token) => {
                        out.push(token);
                    },
                    None => {},
                }
                proof {
                    done = done.push(word@);
                }
                word = Vec::new();
            }
            assert(words(now) == done);
        } else {
            proof {
                if word@.len() > 0 {
                    assert(done.push(word@).drop_last() =~= done);
                    assert(done.push(word@).last() == word@);
                    assert(words(now) == done.push(word@.push(c)));
                } else {
                    assert(words(now) == done.push(seq![c]));
                    assert(seq![c] =~= word@.push(c));
                }
            }
            word.push(c);
        }
    }
    proof {
        assert(line@.take(line@.len() as int) =~= line@);
    }
    if word.len() > 0 {
        proof {
            lemma_filter_map_push(done, word@, value);
        }
        match parse_word(&word) {
            Some(token) => {
                out.push(token);
            },
            None => {},
        }
    }
    out
}

/// Mapping one element more appends its value, if it has one.
proof fn lemma_filter_map_push(
    done: Seq<Seq<char>>,
    word: Seq<char>,
    value: spec_fn(Seq<char>) -> Option<u8>,
)
    ensures
        done.push(word).filter_map(value) == match value(word) {
            Some(token) => done.filter_map(value).push(token),
            None => done.filter_map(value),
        },
{
    assert(done.push(word).drop_last() =~= done);
    match value(word) {
        Some(token) => {
            assert(done.filter_map(value) + seq![token] =~= done.filter_map(value).push(token));
        },
        None => {},
    }
}

impl Board {
    /// The full board with the cells named by `input` removed. The first
    /// token that names a position off the board is refused, and no board is
    /// built.
    pub fn from_input(input: Vec<u8>) -> (out: Result<Board, InputError>)
        ensures
            out is Ok <==> all_on_board(input@),
            match out {
                Ok(board) => {
                    &&& board.wf()
                    &&& board@ == full_board().difference(decoded_cells(input@).to_set())
                },
                Err(InputError::InvalidLocation { value }) => exists|i: int|
                    {
                        &&& 0 <= i < input.len()
                        &&& #[trigger] input[i] == value
                        &&& !decoded(value).valid()
                        &&& all_on_board(input@.take(i))
                    },
            },
    {
        let mut board = Board::new();
        let ghost full = board@;
        let mut i: usize = 0;
        while i < input.len()
            invariant
                i <= input.len(),
                board.wf(),
                full == full_board(),
                all_on_board(input@.take(i as int)),
                board@ == full.difference(decoded_cells(input@.take(i as int)).to_set()),
            decreases input.len() - i,
        {
            let value = input[i];
            let cell = decode(value);
            if !is_valid_location((cell.row, cell.col)) {
                assert(input@[i as int] == value);
                return Err(InputError::InvalidLocation { value });
            }
            board.drop_cell(cell.row, cell.col);
            proof {
                let before = input@.take(i as int);
                let now = input@.take(i + 1);
                assert(now =~= before.push(value));
                assert(decoded_cells(now) =~= decoded_cells(before).push(cell));
                decoded_cells(before).lemma_push_to_set_commute(cell);
                assert(board@ =~= full.difference(decoded_cells(now).to_set()));
                assert forall|k: int| 0 <= k < now.len() implies (#[trigger] decoded(
                    now[k],
                )).valid() by {
                    if k < i {
                        assert(now[k] == before[k]);
                    }
                }
            }
            i += 1;
        }
        assert(input@.take(input.len() as int) =~= input@);
        Ok(board)
    }
}

} // verus!
