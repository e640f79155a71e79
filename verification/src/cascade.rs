//! The collapse rule: a cell of the border ring that has lost its support
//! falls, and its fall may take the support of others. The rule is applied in
//! passes until a pass finds nothing to remove.

use vstd::prelude::*;
use crate::board::Board;
use crate::grid::Cell;
use crate::seqs::{lemma_filter_membership, lemma_filter_take_step, lemma_filter_take_zero};

verus! {

/// The neighbours of `c` that are live.
pub open spec fn live_around(live: Set<Cell>, c: Cell) -> Seq<Cell> {
    c.adjacent_cells().filter(|n: Cell| live.contains(n))
}

/// A cell is unsupported when no neighbour is live, or when its only live
/// neighbour is itself a cell of the border ring.
pub open spec fn unsupported(live: Set<Cell>, c: Cell) -> bool {
    let around = live_around(live, c);
    around.len() == 0 || (around.len() == 1 && around[0].outer())
}

/// The cells that one pass removes: the live outer cells without support.
pub open spec fn collapse_batch(live: Set<Cell>) -> Set<Cell> {
    Set::new(|c: Cell| live.contains(c) && c.outer() && unsupported(live, c))
}

/// The live cells after one pass.
pub open spec fn collapse_pass(live: Set<Cell>) -> Set<Cell> {
    live.difference(collapse_batch(live))
}

/// No pass would remove anything.
pub open spec fn settled(live: Set<Cell>) -> bool {
    forall|c: Cell| !(#[trigger] collapse_batch(live).contains(c))
}

/// The live cells once the passes have come to rest.
pub open spec fn cascade(live: Set<Cell>) -> Set<Cell>
    decreases live.len(),
    when live.finite()
    via cascade_decreases
{
    if settled(live) {
        live
    } else {
        cascade(collapse_pass(live))
    }
}

#[via_fn]
proof fn cascade_decreases(live: Set<Cell>) {
    if !settled(live) {
        lemma_pass_shrinks(live);
    }
}

/// A pass that removes anything leaves strictly fewer cells.
pub proof fn lemma_pass_shrinks(live: Set<Cell>)
    requires
        live.finite(),
        !settled(live),
    ensures
        collapse_pass(live).finite(),
        collapse_pass(live).len() < live.len(),
{
    let c = choose|c: Cell| collapse_batch(live).contains(c);
    assert(collapse_pass(live).subset_of(live.remove(c)));
    vstd::set_lib::lemma_len_subset(collapse_pass(live), live.remove(c));
}

/// The cascade only removes cells, and ends on a settled board.
pub proof fn lemma_cascade_settles(live: Set<Cell>)
    requires
        live.finite(),
    ensures
        cascade(live).finite(),
        cascade(live).subset_of(live),
        cascade(live).len() <= live.len(),
        settled(cascade(live)),
    decreases live.len(),
{
    if !settled(live) {
        lemma_pass_shrinks(live);
        lemma_cascade_settles(collapse_pass(live));
    }
}

/// The live cells after `n` passes.
pub open spec fn after_passes(live: Set<Cell>, n: nat) -> Set<Cell>
    decreases n,
{
    if n == 0 {
        live
    } else {
        collapse_pass(after_passes(live, (n - 1) as nat))
    }
}

/// A pass more at the end is a pass more at the start.
proof fn lemma_passes_shift(live: Set<Cell>, n: nat)
    ensures
        after_passes(collapse_pass(live), n) == after_passes(live, n + 1),
    decreases n,
{
    reveal_with_fuel(after_passes, 2);
    if n > 0 {
        lemma_passes_shift(live, (n - 1) as nat);
    }
}

/// The cascade is the outcome of the first pass count at which the board
/// has settled.
pub proof fn cascade_stops_at_first_settled_pass(live: Set<Cell>) -> (n: nat)
    requires
        live.finite(),
    ensures
        cascade(live) == after_passes(live, n),
        settled(after_passes(live, n)),
        forall|k: nat| k < n ==> !settled(#[trigger] after_passes(live, k)),
    decreases live.len(),
{
    if settled(live) {
        0
    } else {
        lemma_pass_shrinks(live);
        let rest = cascade_stops_at_first_settled_pass(collapse_pass(live));
        lemma_passes_shift(live, rest);
        assert forall|k: nat| k < rest + 1 implies !settled(#[trigger] after_passes(live, k)) by {
            if k > 0 {
                lemma_passes_shift(live, (k - 1) as nat);
                assert(!settled(after_passes(collapse_pass(live), (k - 1) as nat)));
            }
        }
        rest + 1
    }
}

/// Passes keep a finite board finite.
proof fn lemma_passes_finite(live: Set<Cell>, n: nat)
    requires
        live.finite(),
    ensures
        after_passes(live, n).finite(),
        after_passes(live, n).subset_of(live),
    decreases n,
{
    if n > 0 {
        lemma_passes_finite(live, (n - 1) as nat);
        let before = after_passes(live, (n - 1) as nat);
        vstd::set_lib::lemma_len_subset(collapse_pass(before), before);
    }
}

/// On a settled board further passes change nothing.
proof fn lemma_settled_stays(live: Set<Cell>, n: nat)
    requires
        settled(live),
    ensures
        after_passes(live, n) == live,
    decreases n,
{
    if n > 0 {
        lemma_settled_stays(live, (n - 1) as nat);
        assert(collapse_pass(live) =~= live);
    }
}

/// Running the cascade on a board that has already been through it changes
/// nothing: the result of a cascade is settled, a settled board is its own
/// cascade, and however many passes are made on it, it stays as it is.
pub proof fn cascade_is_idempotent(board: Board, more: nat)
    ensures
        settled(cascade(board@)),
        cascade(cascade(board@)) == cascade(board@),
        after_passes(cascade(board@), more) == cascade(board@),
        settled(board@) ==> cascade(board@) == board@,
{
    board.lemma_live_cells_valid();
    lemma_cascade_settles(board@);
    lemma_settled_stays(cascade(board@), more);
}

/// No pass adds a cell: after each pass the live cells are among those
/// before it, so their number does not grow. The same holds of the cascade
/// as a whole.
pub proof fn cascade_never_adds_cells(board: Board, n: nat)
    ensures
        after_passes(board@, n + 1).subset_of(after_passes(board@, n)),
        after_passes(board@, n + 1).len() <= after_passes(board@, n).len(),
        cascade(board@).subset_of(board@),
        cascade(board@).len() <= board@.len(),
{
    board.lemma_live_cells_valid();
    lemma_passes_finite(board@, n);
    vstd::set_lib::lemma_len_subset(after_passes(board@, n + 1), after_passes(board@, n));
    lemma_cascade_settles(board@);
}

impl Board {
    /// The neighbours of `cell` that are live, in the order of the neighbours.
    pub fn live_neighbors(&self, cell: &Cell) -> (out: Vec<Cell>)
        ensures
            out@ == live_around(self@, *cell),
    {
        let around = cell.get_neighbors();
        let ghost live = self@;
        let ghost is_live = |n: Cell| live.contains(n);
        let mut out: Vec<Cell> = Vec::new();
        proof {
            lemma_filter_take_zero(around@, is_live);
        }
        let mut i: usize = 0;
        while i < around.len()
            invariant
                i <= around.len(),
                live == self@,
                is_live == |n: Cell| live.contains(n),
                out@ == around@.take(i as int).filter(is_live),
            decreases around.len() - i,
        {
            proof {
                lemma_filter_take_step(around@, is_live, i as int);
            }
            if self.value_at_cell(&around[i]) {
                out.push(around[i]);
            }
            i += 1;
        }
        assert(around@.take(around.len() as int) =~= around@);
        out
    }

    /// Whether `cell` has lost its support.
    pub fn lacks_support(&self, cell: &Cell) -> (b: bool)
        ensures
            b == unsupported(self@, *cell),
    {
        let live_neighbors = self.live_neighbors(cell);
        if live_neighbors.len() > 1 {
            false
        } else if live_neighbors.len() == 0 {
            true
        } else {
            live_neighbors[0].is_outer()
        }
    }

    /// Lets every unsupported cell of the border ring collapse, pass after
    /// pass, until none is left.
    pub fn remove_redundant_blocks(&mut self)
        requires
            old(self).wf(),
        ensures
            final(self).wf(),
            final(self)@ == cascade(old(self)@),
    {
        let mut blocks_removed: usize = usize::MAX;
        while blocks_removed != 0
            invariant
                self.wf(),
                cascade(self@) == cascade(old(self)@),
                blocks_removed == 0 ==> settled(self@),
            decreases self@.len(), blocks_removed,
        {
            let ghost live = self@;
            let ghost weak = |c: Cell| unsupported(live, c);
            proof {
                self.lemma_live_cells_valid();
            }
            let outer_cells = self.live_outer_cells();
            let mut removing_cells: Vec<Cell> = Vec::new();
            proof {
                lemma_filter_take_zero(outer_cells@, weak);
            }
            let mut i: usize = 0;
            while i < outer_cells.len()
                invariant
                    i <= outer_cells.len(),
                    live == self@,
                    forall|c: Cell| weak(c) == unsupported(live, c),
                    removing_cells@ == outer_cells@.take(i as int).filter(weak),
                decreases outer_cells.len() - i,
            {
                proof {
                    lemma_filter_take_step(outer_cells@, weak, i as int);
                }
                if self.lacks_support(&outer_cells[i]) {
                    removing_cells.push(outer_cells[i]);
                }
                i += 1;
            }
            proof {
                assert(outer_cells@.take(outer_cells.len() as int) =~= outer_cells@);
                lemma_filter_membership(outer_cells@, weak);
                assert(removing_cells@.to_set() =~= collapse_batch(live));
            }
            let mut j: usize = 0;
            while j < removing_cells.len()
                invariant
                    j <= removing_cells.len(),
                    self.wf(),
                    self@ == live.difference(removing_cells@.take(j as int).to_set()),
                decreases removing_cells.len() - j,
            {
                let cell = removing_cells[j];
                self.drop_cell(cell.row, cell.col);
                proof {
                    assert(removing_cells@.take(j + 1) =~= removing_cells@.take(j as int).push(
                        cell,
                    ));
                    removing_cells@.take(j as int).lemma_push_to_set_commute(cell);
                    assert(self@ =~= live.difference(removing_cells@.take(j + 1).to_set()));
                }
                j += 1;
            }
            proof {
                assert(removing_cells@.take(removing_cells.len() as int) =~= removing_cells@);
                assert(self@ == collapse_pass(live));
                if removing_cells.len() == 0 {
                    assert forall|c: Cell| !(#[trigger] collapse_batch(live).contains(c)) by {
                        if collapse_batch(live).contains(c) {
                            assert(removing_cells@.contains(c));
                        }
                    }
                    assert(self@ =~= live);
                } else {
                    assert(removing_cells@.contains(removing_cells@[0]));
                    assert(collapse_batch(live).contains(removing_cells@[0]));
                    lemma_pass_shrinks(live);
                }
            }
            blocks_removed = removing_cells.len();
        }
        proof {
            self.lemma_live_cells_valid();
        }
    }
}

} // verus!
