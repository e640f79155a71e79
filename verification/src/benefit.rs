//! What a set of removals is worth: the interior cells that stay reachable
//! from the pivot once the removals have been made and the border ring has
//! collapsed, provided the removals and the border cells still reachable fit
//! the budget.

use vstd::prelude::*;
use crate::board::Board;
use crate::cascade::cascade;
use crate::grid::{all_cells, lemma_all_cells, listing, Cell, MAX_BLOCKS_TO_REMOVE};
use crate::reach::reachable;
use crate::seqs::{lemma_filter_take_step, lemma_filter_take_zero};

verus! {

/// The live cells of the board imagined: `removing` dropped, then the
/// collapse run to its end.
pub open spec fn imagined(live: Set<Cell>, removing: Seq<Cell>) -> Set<Cell> {
    cascade(live.difference(removing.to_set()))
}

/// The cells reachable from the pivot on the board imagined, row by row.
pub open spec fn reached(live: Set<Cell>, removing: Seq<Cell>) -> Seq<Cell> {
    listing(reachable(imagined(live, removing)))
}

/// The reachable cells that lie on the border ring. They have to be cleared
/// as well, so they count against the budget.
pub open spec fn border_remainder(live: Set<Cell>, removing: Seq<Cell>) -> Seq<Cell> {
    reached(live, removing).filter(|c: Cell| c.outer())
}

/// The removals and the border remainder together exceed the budget.
pub open spec fn over_budget(live: Set<Cell>, removing: Seq<Cell>) -> bool {
    border_remainder(live, removing).len() + removing.len() > MAX_BLOCKS_TO_REMOVE
}

/// The score of `removing`: the number of reachable interior cells, or -1
/// where the budget is exceeded.
pub open spec fn benefit(live: Set<Cell>, removing: Seq<Cell>) -> int {
    if over_budget(live, removing) {
        -1
    } else {
        reached(live, removing).len() - border_remainder(live, removing).len()
    }
}

/// What has to be cleared to realise the score: the border remainder, then
/// `removing`. Nothing where the budget is exceeded.
pub open spec fn effective_removal(live: Set<Cell>, removing: Seq<Cell>) -> Seq<Cell> {
    if over_budget(live, removing) {
        Seq::empty()
    } else {
        border_remainder(live, removing) + removing
    }
}

/// A score is -1 exactly where the budget is exceeded; every other score
/// counts cells of the board.
pub proof fn lemma_benefit_range(live: Set<Cell>, removing: Seq<Cell>)
    ensures
        -1 <= benefit(live, removing) <= 49,
        benefit(live, removing) == -1 <==> over_budget(live, removing),
        border_remainder(live, removing).len() <= reached(live, removing).len() <= 49,
{
    lemma_all_cells();
    let around = imagined(live, removing);
    all_cells().lemma_filter_len(|c: Cell| reachable(around).contains(c));
    reached(live, removing).lemma_filter_len(|c: Cell| c.outer());
}

impl Board {
    /// Scores the removal of `removing_cells` on a copy of the board and says
    /// what has to be cleared for it.
    pub fn calc_benefit(&self, removing_cells: &Vec<Cell>) -> (out: (isize, Vec<Cell>))
        requires
            self.wf(),
        ensures
            out.0 == benefit(self@, removing_cells@),
            out.1@ == effective_removal(self@, removing_cells@),
            over_budget(self@, removing_cells@) ==> out.0 == -1 && out.1@.len() == 0,
    {
        let mut imaginery_board = self.create_imagine_board(removing_cells);
        imaginery_board.remove_redundant_blocks();
        let reachable_cells: Vec<Cell> = imaginery_board.get_reachable_cells();
        let ghost on_ring = |c: Cell| c.outer();
        let mut border_cells: Vec<Cell> = Vec::new();
        proof {
            lemma_filter_take_zero(reachable_cells@, on_ring);
        }
        let mut i: usize = 0;
        while i < reachable_cells.len()
            invariant
                i <= reachable_cells.len(),
                on_ring == |c: Cell| c.outer(),
                border_cells@ == reachable_cells@.take(i as int).filter(on_ring),
            decreases reachable_cells.len() - i,
        {
            proof {
                lemma_filter_take_step(reachable_cells@, on_ring, i as int);
            }
            if reachable_cells[i].is_outer() {
                border_cells.push(reachable_cells[i]);
            }
            i += 1;
        }
        proof {
            assert(reachable_cells@.take(reachable_cells.len() as int) =~= reachable_cells@);
            lemma_benefit_range(self@, removing_cells@);
        }
        if removing_cells.len() > MAX_BLOCKS_TO_REMOVE || border_cells.len() > MAX_BLOCKS_TO_REMOVE
            - removing_cells.len() {
            return (-1, Vec::new());
        }
        let score = (reachable_cells.len() - border_cells.len()) as isize;
        let mut total_removing_cells: Vec<Cell> = border_cells;
        let mut j: usize = 0;
        while j < removing_cells.len()
            invariant
                j <= removing_cells.len(),
                total_removing_cells@ == border_remainder(self@, removing_cells@)
                    + removing_cells@.take(j as int),
            decreases removing_cells.len() - j,
        {
            total_removing_cells.push(removing_cells[j]);
            proof {
                assert(removing_cells@.take(j + 1) =~= removing_cells@.take(j as int).push(
                    removing_cells@[j as int],
                ));
                assert(total_removing_cells@ =~= border_remainder(self@, removing_cells@)
                    + removing_cells@.take(j + 1));
            }
            j += 1;
        }
        assert(removing_cells@.take(removing_cells.len() as int) =~= removing_cells@);
        (score, total_removing_cells)
    }
}

} // verus!
