//! The hexagonal grid: coordinates, the border ring and the neighbour relation.

use vstd::prelude::*;

verus! {

/// Number of rows of the board.
pub const ROWS: usize = 7;

/// Number of columns of the board.
pub const COLS: usize = 7;

/// Row of the pivot cell, from which reachability is measured.
pub const MIMIC_INITIAL_ROW: usize = 4;

/// Column of the pivot cell.
pub const MIMIC_INITIAL_COL: usize = 4;

/// The most tiles that one accepted solution may clear.
pub const MAX_BLOCKS_TO_REMOVE: usize = 10;

/// A position on the board, rows and columns counted from 1.
#[derive(PartialEq, Eq, Structural, Clone, Copy, Debug, Hash)]
pub struct Cell {
    pub row: u8,
    pub col: u8,
}

/// Both coordinates lie on the board.
pub open spec fn valid_location(row: int, col: int) -> bool {
    1 <= row <= 7 && 1 <= col <= 7
}

/// The position belongs to the border ring.
pub open spec fn outer_location(row: int, col: int) -> bool {
    row % 6 == 1 || col % 6 == 1
}

/// The cell at `(row, col)` if that lies on the board: a sequence of one
/// cell, or of none.
pub open spec fn on_board(row: int, col: int) -> Seq<Cell> {
    if valid_location(row, col) {
        seq![Cell { row: row as u8, col: col as u8 }]
    } else {
        Seq::empty()
    }
}

/// The neighbours of `(row, col)`: of the six positions around it those that
/// lie on the board, always in the same order. In the offset layout of a hex
/// grid the six positions depend on whether the column is even or odd.
pub open spec fn neighbors(row: int, col: int) -> Seq<Cell> {
    if col % 2 == 0 {
        on_board(row - 1, col) + on_board(row, col - 1) + on_board(row, col + 1) + on_board(
            row + 1,
            col - 1,
        ) + on_board(row + 1, col + 1) + on_board(row + 1, col)
    } else {
        on_board(row - 1, col) + on_board(row - 1, col - 1) + on_board(row - 1, col + 1)
            + on_board(row, col - 1) + on_board(row, col + 1) + on_board(row + 1, col)
    }
}

/// The pivot cell.
pub open spec fn pivot() -> Cell {
    Cell { row: MIMIC_INITIAL_ROW as u8, col: MIMIC_INITIAL_COL as u8 }
}

/// Every cell of the board, row by row.
pub open spec fn all_cells() -> Seq<Cell> {
    Seq::new(49, |i: int| Cell { row: (i / 7 + 1) as u8, col: (i % 7 + 1) as u8 })
}

/// The cells of a board on which nothing has been removed.
pub open spec fn full_board() -> Set<Cell> {
    Set::new(|c: Cell| c.valid())
}

/// The cells of `s` that lie on the board, row by row.
pub open spec fn listing(s: Set<Cell>) -> Seq<Cell> {
    all_cells().filter(|c: Cell| s.contains(c))
}

impl Cell {
    /// The cell lies on the board.
    pub open spec fn valid(self) -> bool {
        valid_location(self.row as int, self.col as int)
    }

    /// The cell belongs to the border ring.
    pub open spec fn outer(self) -> bool {
        outer_location(self.row as int, self.col as int)
    }

    /// The neighbours of the cell.
    #[verifier::opaque]
    pub open spec fn adjacent_cells(self) -> Seq<Cell> {
        neighbors(self.row as int, self.col as int)
    }

    /// Position of a valid cell in `all_cells()`.
    pub open spec fn position(self) -> int {
        (self.row - 1) * 7 + (self.col - 1)
    }

    /// Whether the cell belongs to the border ring.
    pub fn is_outer(&self) -> (b: bool)
        ensures
            b == self.outer(),
    {
        is_outer(self.row, self.col)
    }

    /// The neighbours of the cell that lie on the board.
    pub fn get_neighbors(&self) -> (out: Vec<Cell>)
        ensures
            out@ == self.adjacent_cells(),
            out@ == neighbors(self.row as int, self.col as int),
    {
        reveal(Cell::adjacent_cells);
        get_neighbors(self.row, self.col)
    }
}

/// Whether `loc`, a row and a column, lies on the board.
pub fn is_valid_location(loc: (u8, u8)) -> (b: bool)
    ensures
        b == valid_location(loc.0 as int, loc.1 as int),
{
    let (row, col) = loc;
    row > 0 && row < 8 && col > 0 && col < 8
}

/// Whether `(row, col)` belongs to the border ring: the row or the column
/// leaves the remainder 1 when divided by 6.
pub fn is_outer(row: u8, col: u8) -> (b: bool)
    ensures
        b == outer_location(row as int, col as int),
{
    row % 6 == 1 || col % 6 == 1
}

/// Appends the cell at `loc` if it lies on the board. `loc` stands for the
/// position `(row, col)`, which it equals unless that is off the board.
fn push_on_board(
    out: &mut Vec<Cell>,
    loc: (u8, u8),
    Ghost(row): Ghost<int>,
    Ghost(col): Ghost<int>,
)
    requires
        valid_location(loc.0 as int, loc.1 as int) <==> valid_location(row, col),
        valid_location(row, col) ==> loc.0 == row && loc.1 == col,
    ensures
        final(out)@ == old(out)@ + on_board(row, col),
{
    if is_valid_location(loc) {
        out.push(Cell { row: loc.0, col: loc.1 });
        assert(out@ =~= old(out)@ + on_board(row, col));
    } else {
        assert(out@ =~= old(out)@ + on_board(row, col));
    }
}

/// The neighbours of `(row, col)` that lie on the board, always in the same
/// order. Positions off the board have neighbours too, those of the six
/// positions around them that lie on it.
pub fn get_neighbors(row: u8, col: u8) -> (out: Vec<Cell>)
    ensures
        out@ == neighbors(row as int, col as int),
{
    let up: u8 = row.wrapping_sub(1);
    let down: u8 = row.wrapping_add(1);
    let left: u8 = col.wrapping_sub(1);
    let right: u8 = col.wrapping_add(1);
    let locations: [(u8, u8); 6] = if col % 2 == 0 {
        [(up, col), (row, left), (row, right), (down, left), (down, right), (down, col)]
    } else {
        [(up, col), (up, left), (up, right), (row, left), (row, right), (down, col)]
    };
    let ghost r = row as int;
    let ghost c = col as int;
    let ghost steps: Seq<(int, int)> = if col % 2 == 0 {
        seq![(r - 1, c), (r, c - 1), (r, c + 1), (r + 1, c - 1), (r + 1, c + 1), (r + 1, c)]
    } else {
        seq![(r - 1, c), (r - 1, c - 1), (r - 1, c + 1), (r, c - 1), (r, c + 1), (r + 1, c)]
    };
    let mut out: Vec<Cell> = Vec::new();
    push_on_board(&mut out, locations[0], Ghost(steps[0].0), Ghost(steps[0].1));
    push_on_board(&mut out, locations[1], Ghost(steps[1].0), Ghost(steps[1].1));
    push_on_board(&mut out, locations[2], Ghost(steps[2].0), Ghost(steps[2].1));
    push_on_board(&mut out, locations[3], Ghost(steps[3].0), Ghost(steps[3].1));
    push_on_board(&mut out, locations[4], Ghost(steps[4].0), Ghost(steps[4].1));
    push_on_board(&mut out, locations[5], Ghost(steps[5].0), Ghost(steps[5].1));
    assert(out@ =~= neighbors(r, c));
    out
}

/// `all_cells()` lists each cell of the board once, and nothing else.
pub proof fn lemma_all_cells()
    ensures
        all_cells().len() == 49,
        all_cells().no_duplicates(),
        forall|c: Cell| #[trigger] all_cells().contains(c) <==> c.valid(),
        forall|c: Cell|
            c.valid() ==> 0 <= #[trigger] c.position() < 49 && all_cells()[c.position()] == c,
        all_cells().to_set().finite(),
{
    assert forall|c: Cell| c.valid() implies 0 <= #[trigger] c.position() < 49
        && all_cells()[c.position()] == c by {}
    assert forall|c: Cell| #[trigger] all_cells().contains(c) implies c.valid() by {
        let i = choose|i: int| 0 <= i < all_cells().len() && all_cells()[i] == c;
        assert(all_cells()[i] == c);
    }
    assert forall|c: Cell| c.valid() implies #[trigger] all_cells().contains(c) by {
        assert(all_cells()[c.position()] == c);
    }
    vstd::seq_lib::seq_to_set_is_finite(all_cells());
}

/// Every neighbour lies on the board, and there are at most six.
pub proof fn lemma_neighbors_valid(c: Cell)
    ensures
        c.adjacent_cells().len() <= 6,
        forall|j: int|
            0 <= j < c.adjacent_cells().len() ==> (#[trigger] c.adjacent_cells()[j]).valid(),
{
    reveal(Cell::adjacent_cells);
}

} // verus!
