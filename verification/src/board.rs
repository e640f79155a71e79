//! The board: which cells are still occupied, and an index of the occupied
//! cells of the border ring that is kept in step with every removal.

use vstd::prelude::*;
use std::collections::HashMap;
use crate::grid::{
    all_cells, full_board, is_outer, is_valid_location, lemma_all_cells, listing, pivot, Cell,
    COLS, MIMIC_INITIAL_COL, MIMIC_INITIAL_ROW, ROWS,
};
use crate::seqs::{lemma_filter_take_step, lemma_filter_take_zero};

verus! {

broadcast use vstd::std_specs::hash::group_hash_axioms;

/// Key under which a cell is filed in the index of live outer cells.
spec fn key_of(c: Cell) -> u16 {
    (c.row as int * 256 + c.col as int) as u16
}

fn cell_key(row: u8, col: u8) -> (k: u16)
    ensures
        k == key_of(Cell { row, col }),
{
    row as u16 * 256 + col as u16
}

/// The cells that a search may remove: live, off the border ring, and not
/// the pivot.
pub open spec fn eligible(live: Set<Cell>) -> Set<Cell> {
    Set::new(|c: Cell| live.contains(c) && !c.outer() && c != pivot())
}

/// The state of the board: a grid that says which cells are live, and an
/// index of the live cells of the border ring.
///
/// Its view is the set of live cells.
#[derive(Debug)]
pub struct Board {
    cells: [[bool; 7]; 7],
    map_live_outer_cells: HashMap<u16, Cell>,
}

impl View for Board {
    type V = Set<Cell>;

    closed spec fn view(&self) -> Set<Cell> {
        Set::new(|c: Cell| c.valid() && self.cells[c.row as int - 1][c.col as int - 1])
    }
}

impl Board {
    /// The index holds exactly the live cells of the border ring, each under
    /// its own key.
    pub closed spec fn wf(&self) -> bool {
        &&& forall|k: u16| #[trigger]
            self.map_live_outer_cells@.contains_key(k) ==> {
                let c = self.map_live_outer_cells@[k];
                key_of(c) == k && c.outer() && self@.contains(c)
            }
        &&& forall|c: Cell| #[trigger]
            self@.contains(c) && c.outer() ==> self.map_live_outer_cells@.contains_key(key_of(c))
    }

    /// Only cells of the board are live, so there are finitely many.
    pub proof fn lemma_live_cells_valid(&self)
        ensures
            self@.finite(),
            self@.subset_of(all_cells().to_set()),
            forall|c: Cell| #[trigger] self@.contains(c) ==> c.valid(),
    {
        lemma_all_cells();
        assert(self@.subset_of(all_cells().to_set()));
        vstd::set_lib::lemma_len_subset(self@, all_cells().to_set());
    }

    /// A board with every cell live.
    pub fn new() -> (board: Board)
        ensures
            board.wf(),
            board@ == full_board(),
    {
        let mut board = Board { cells: [[true; 7]; 7], map_live_outer_cells: HashMap::new() };
        board.gen_map_live_outer_cells();
        assert(board@ =~= full_board());
        board
    }

    /// Rebuilds the index of live outer cells from the grid. The live cells
    /// stay as they are.
    pub fn gen_map_live_outer_cells(&mut self) -> (board: &Self)
        ensures
            final(self).wf(),
            final(self)@ == old(self)@,
            *board == *final(self),
    {
        self.map_live_outer_cells.clear();
        for row in 1..ROWS + 1
            invariant
                self.cells == old(self).cells,
                forall|k: u16| #[trigger]
                    self.map_live_outer_cells@.contains_key(k) ==> {
                        let c = self.map_live_outer_cells@[k];
                        key_of(c) == k && c.outer() && self@.contains(c)
                    },
                forall|c: Cell| #[trigger]
                    self@.contains(c) && c.outer() && c.row < row
                        ==> self.map_live_outer_cells@.contains_key(key_of(c)),
        {
            for col in 1..COLS + 1
                invariant
                    1 <= row <= 7,
                    self.cells == old(self).cells,
                    forall|k: u16| #[trigger]
                        self.map_live_outer_cells@.contains_key(k) ==> {
                            let c = self.map_live_outer_cells@[k];
                            key_of(c) == k && c.outer() && self@.contains(c)
                        },
                    forall|c: Cell| #[trigger]
                        self@.contains(c) && c.outer() && (c.row < row || (c.row == row && c.col
                            < col)) ==> self.map_live_outer_cells@.contains_key(key_of(c)),
            {
                if self.value_at(row as u8, col as u8) && (row % 6 == 1 || col % 6 == 1) {
                    self.map_live_outer_cells.insert(
                        cell_key(row as u8, col as u8),
                        Cell { row: row as u8, col: col as u8 },
                    );
                }
            }
        }
        assert(self@ =~= old(self)@);
        self
    }

    /// Whether the cell at `(row, col)` is live. Off the board nothing is.
    pub fn value_at(&self, row: u8, col: u8) -> (live: bool)
        ensures
            live == self@.contains(Cell { row, col }),
    {
        is_valid_location((row, col)) && self.cells[(row - 1) as usize][(col - 1) as usize]
    }

    /// Whether `cell` is live.
    pub fn value_at_cell(&self, cell: &Cell) -> (live: bool)
        ensures
            live == self@.contains(*cell),
    {
        self.value_at(cell.row, cell.col)
    }

    /// Removes the cell at `(row, col)`, from the grid and from the index.
    /// Removing a cell that is gone, or one off the board, changes nothing.
    pub fn drop_cell(&mut self, row: u8, col: u8)
        requires
            old(self).wf(),
        ensures
            final(self).wf(),
            final(self)@ == old(self)@.remove(Cell { row, col }),
    {
        if is_valid_location((row, col)) {
            self.cells[(row - 1) as usize][(col - 1) as usize] = false;
            if is_outer(row, col) {
                let key = cell_key(row, col);
                self.map_live_outer_cells.remove(&key);
            }
        }
        assert(final(self)@ =~= old(self)@.remove(Cell { row, col }));
    }

    /// Number of live cells on the border ring.
    pub fn live_outer_count(&self) -> (n: usize)
        requires
            self.wf(),
        ensures
            n == self@.filter(|c: Cell| c.outer()).len(),
    {
        let n = self.map_live_outer_cells.len();
        proof {
            self.lemma_index_counts_live_outer();
        }
        n
    }

    proof fn lemma_index_counts_live_outer(&self)
        requires
            self.wf(),
        ensures
            self.map_live_outer_cells@.dom().len() == self@.filter(|c: Cell| c.outer()).len(),
    {
        let live_outer = self@.filter(|c: Cell| c.outer());
        let keys = self.map_live_outer_cells@.dom();
        self.lemma_live_cells_valid();
        assert(live_outer.subset_of(self@));
        vstd::set_lib::lemma_len_subset(live_outer, self@);
        assert forall|a: Cell, b: Cell| key_of(a) == key_of(b) implies a == b by {}
        assert(live_outer.map(|c: Cell| key_of(c)) =~= keys) by {
            assert forall|k: u16| keys.contains(k) implies live_outer.map(
                |c: Cell| key_of(c),
            ).contains(k) by {
                let c = self.map_live_outer_cells@[k];
                assert(live_outer.contains(c));
            }
        }
        vstd::set_lib::lemma_map_size(live_outer, keys, |c: Cell| key_of(c));
    }

    /// The live cells of the border ring, each once, in the order in which
    /// the index hands them out.
    pub(crate) fn live_outer_cells(&self) -> (out: Vec<Cell>)
        requires
            self.wf(),
        ensures
            out@.no_duplicates(),
            forall|c: Cell| #[trigger] out@.contains(c) <==> self@.contains(c) && c.outer(),
    {
        let mut out: Vec<Cell> = Vec::new();
        let ghost index = self.map_live_outer_cells@;
        for cell in it: self.map_live_outer_cells.values()
            invariant
                index == self.map_live_outer_cells@,
                it.seq().unref().to_set() == index.values(),
                it.seq().len() == index.dom().len(),
                out@ == it.seq().unref().take(it.index() as int),
                out@.len() == it.index(),
                it.index() == it.seq().len() ==> out@ == it.seq().unref(),
        {
            out.push(*cell);
        }
        proof {
            assert(index.is_injective()) by {
                assert forall|a: u16, b: u16|
                    a != b && index.contains_key(a) && index.contains_key(b) implies index[a]
                    != index[b] by {}
            }
            index.lemma_injective_values_len();
            out@.lemma_no_dup_set_cardinality();
            assert forall|c: Cell| #[trigger] out@.contains(c) <==> self@.contains(c)
                && c.outer() by {
                if out@.contains(c) {
                    assert(out@.to_set().contains(c));
                    let k = choose|k: u16| index.contains_key(k) && index[k] == c;
                    assert(index.contains_key(k));
                }
                if self@.contains(c) && c.outer() {
                    assert(index.contains_key(key_of(c)));
                    assert(index.values().contains(index[key_of(c)]));
                    assert(out@.to_set().contains(c));
                }
            }
        }
        out
    }

    /// A copy of the board from which `removing_cells` have been dropped.
    /// The board itself is left as it was.
    pub fn create_imagine_board(&self, removing_cells: &Vec<Cell>) -> (imagined: Board)
        requires
            self.wf(),
        ensures
            imagined.wf(),
            imagined@ == self@.difference(removing_cells@.to_set()),
    {
        let mut new_board = Board {
            cells: self.cells,
            map_live_outer_cells: self.map_live_outer_cells.clone(),
        };
        assert(new_board@ =~= self@);
        let mut i: usize = 0;
        while i < removing_cells.len()
            invariant
                i <= removing_cells.len(),
                new_board.wf(),
                new_board@ == self@.difference(removing_cells@.take(i as int).to_set()),
            decreases removing_cells.len() - i,
        {
            let cell = removing_cells[i];
            new_board.drop_cell(cell.row, cell.col);
            proof {
                assert(removing_cells@.take(i + 1) =~= removing_cells@.take(i as int).push(cell));
                removing_cells@.take(i as int).lemma_push_to_set_commute(cell);
                assert(new_board@ =~= self@.difference(removing_cells@.take(i + 1).to_set()));
            }
            i += 1;
        }
        assert(removing_cells@.take(removing_cells.len() as int) =~= removing_cells@);
        new_board
    }

    /// The cells that may be chosen for removal, row by row: the live cells
    /// off the border ring, the pivot excepted.
    pub fn get_available_blocks(&self) -> (out: Vec<Cell>)
        ensures
            out@ == listing(eligible(self@)),
    {
        let ghost chosen = eligible(self@);
        let ghost keep = |c: Cell| chosen.contains(c);
        let mut available_blocks: Vec<Cell> = Vec::new();
        proof {
            lemma_all_cells();
            lemma_filter_take_zero(all_cells(), keep);
        }
        for row in 1..ROWS + 1
            invariant
                chosen == eligible(self@),
                keep == |c: Cell| chosen.contains(c),
                available_blocks@ == all_cells().take((row - 1) * 7).filter(keep),
        {
            for col in 1..COLS + 1
                invariant
                    1 <= row <= 7,
                    chosen == eligible(self@),
                    keep == |c: Cell| chosen.contains(c),
                    available_blocks@ == all_cells().take((row - 1) * 7 + (col - 1)).filter(keep),
            {
                let cell = Cell { row: row as u8, col: col as u8 };
                proof {
                    lemma_all_cells();
                    lemma_filter_take_step(all_cells(), keep, (row - 1) * 7 + (col - 1));
                    assert(all_cells()[(row - 1) * 7 + (col - 1)] == cell);
                }
                if self.value_at_cell(&cell) && (row != MIMIC_INITIAL_ROW || col
                    != MIMIC_INITIAL_COL) && !cell.is_outer() {
                    available_blocks.push(cell);
                }
            }
        }
        assert(all_cells().take(49) =~= all_cells());
        available_blocks
    }
}

} // verus!
