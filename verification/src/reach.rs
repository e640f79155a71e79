//! Which live cells can be reached from the pivot. A step leads from a cell
//! to a live neighbour, but never from one cell of the border ring to another.

use vstd::prelude::*;
use std::collections::VecDeque;
use crate::board::Board;
use crate::grid::{all_cells, lemma_all_cells, listing, pivot, Cell, MIMIC_INITIAL_COL, MIMIC_INITIAL_ROW};
use crate::seqs::{lemma_filter_take_step, lemma_filter_take_zero};

verus! {

/// A traversal may go from `from` to `to`: they are neighbours, `to` is live,
/// and they are not both on the border ring.
pub open spec fn step_allowed(live: Set<Cell>, from: Cell, to: Cell) -> bool {
    from.adjacent_cells().contains(to) && live.contains(to) && !(from.outer() && to.outer())
}

/// A route starts at the live pivot and goes on by allowed steps.
pub open spec fn is_route(live: Set<Cell>, route: Seq<Cell>) -> bool {
    &&& route.len() > 0
    &&& route[0] == pivot()
    &&& live.contains(pivot())
    &&& forall|i: int|
        0 <= i < route.len() - 1 ==> step_allowed(live, #[trigger] route[i], route[i + 1])
}

/// Some route ends at `c`.
pub open spec fn reaches(live: Set<Cell>, c: Cell) -> bool {
    exists|route: Seq<Cell>| #[trigger] is_route(live, route) && route.last() == c
}

/// The cells that a route reaches. Without a live pivot there are none.
pub open spec fn reachable(live: Set<Cell>) -> Set<Cell> {
    Set::new(|c: Cell| reaches(live, c))
}

/// A route can be taken one allowed step further.
pub proof fn lemma_route_extends(live: Set<Cell>, from: Cell, to: Cell)
    requires
        reaches(live, from),
        step_allowed(live, from, to),
    ensures
        reaches(live, to),
{
    let route = choose|route: Seq<Cell>| #[trigger] is_route(live, route) && route.last() == from;
    let longer = route.push(to);
    assert forall|i: int| 0 <= i < longer.len() - 1 implies step_allowed(
        live,
        #[trigger] longer[i],
        longer[i + 1],
    ) by {
        if i < route.len() - 1 {
            assert(step_allowed(live, route[i], route[i + 1]));
        }
    }
    assert(is_route(live, longer) && longer.last() == to);
}

/// The live pivot is reached, by the route that stays there.
pub proof fn lemma_pivot_reached(live: Set<Cell>)
    requires
        live.contains(pivot()),
    ensures
        reaches(live, pivot()),
{
    let route = seq![pivot()];
    assert(is_route(live, route) && route.last() == pivot());
}

/// A set that holds the pivot and is closed under allowed steps holds every
/// cell of every route.
proof fn lemma_route_stays_inside(
    live: Set<Cell>,
    inside: Set<Cell>,
    route: Seq<Cell>,
    i: int,
)
    requires
        is_route(live, route),
        inside.contains(pivot()),
        forall|a: Cell, b: Cell|
            inside.contains(a) && #[trigger] step_allowed(live, a, b) ==> inside.contains(b),
        0 <= i < route.len(),
    ensures
        inside.contains(route[i]),
    decreases i,
{
    if i > 0 {
        lemma_route_stays_inside(live, inside, route, i - 1);
        assert(step_allowed(live, route[i - 1], route[i]));
    }
}

/// The order in which a traversal tries the neighbours has no influence on
/// what it reaches. However it proceeds, it ends with a set that holds the
/// pivot if the pivot is live, that no allowed step leaves, and that holds
/// only cells to which a route leads. There is one such set, the set of the
/// reachable cells.
pub proof fn reachable_set_is_unique(board: Board, visited: Set<Cell>)
    requires
        board@.contains(pivot()) ==> visited.contains(pivot()),
        forall|a: Cell, b: Cell|
            visited.contains(a) && #[trigger] step_allowed(board@, a, b) ==> visited.contains(b),
        forall|c: Cell| #[trigger] visited.contains(c) ==> reachable(board@).contains(c),
    ensures
        visited == reachable(board@),
{
    let live = board@;
    assert forall|c: Cell| reachable(live).contains(c) implies visited.contains(c) by {
        let route = choose|route: Seq<Cell>| #[trigger] is_route(live, route) && route.last() == c;
        lemma_route_stays_inside(live, visited, route, route.len() - 1);
    }
    assert(visited =~= reachable(live));
}

/// No step joins two cells of the border ring, even where both are live
/// neighbours.
pub proof fn no_step_between_outer_cells(board: Board, a: Cell, b: Cell)
    requires
        a.outer(),
        b.outer(),
    ensures
        !step_allowed(board@, a, b),
{
}

/// A cell of the border ring is reached only through an interior cell: the
/// last step of every route to it starts at a reachable cell off the ring.
pub proof fn outer_cells_are_entered_from_inside(board: Board, c: Cell)
    requires
        reachable(board@).contains(c),
        c.outer(),
    ensures
        exists|from: Cell|
            reachable(board@).contains(from) && !from.outer() && #[trigger] step_allowed(
                board@,
                from,
                c,
            ),
{
    let live = board@;
    let route = choose|route: Seq<Cell>| #[trigger] is_route(live, route) && route.last() == c;
    assert(!pivot().outer());
    assert(route.len() >= 2);
    let from = route[route.len() - 2];
    let shorter = route.drop_last();
    assert(step_allowed(live, route[route.len() - 2], route[route.len() - 2 + 1]));
    assert forall|i: int| 0 <= i < shorter.len() - 1 implies step_allowed(
        live,
        #[trigger] shorter[i],
        shorter[i + 1],
    ) by {
        assert(step_allowed(live, route[i], route[i + 1]));
    }
    assert(is_route(live, shorter) && shorter.last() == from);
    assert(reaches(live, from));
    assert(step_allowed(live, from, c));
}

/// The cell is on the board and its entry in `grid` is set.
pub open spec fn marked(grid: [[bool; 7]; 7], c: Cell) -> bool {
    c.valid() && grid[c.row as int - 1][c.col as int - 1]
}

/// The cells whose entry in `grid` is set.
pub open spec fn marks(grid: [[bool; 7]; 7]) -> Set<Cell> {
    Set::new(|c: Cell| marked(grid, c))
}

/// The cells of the board whose entry in `grid` is not set.
spec fn blanks(grid: [[bool; 7]; 7]) -> Set<Cell> {
    Set::new(|c: Cell| c.valid() && !marked(grid, c))
}

proof fn lemma_blanks_finite(grid: [[bool; 7]; 7])
    ensures
        blanks(grid).finite(),
{
    lemma_all_cells();
    assert(blanks(grid).subset_of(all_cells().to_set()));
    vstd::set_lib::lemma_len_subset(blanks(grid), all_cells().to_set());
}

/// The cells whose entry in `grid` is set, row by row.
pub fn marked_cells(grid: &[[bool; 7]; 7]) -> (out: Vec<Cell>)
    ensures
        out@ == listing(marks(*grid)),
{
    let ghost chosen = marks(*grid);
    let ghost keep = |c: Cell| chosen.contains(c);
    let mut out: Vec<Cell> = Vec::new();
    proof {
        lemma_all_cells();
        lemma_filter_take_zero(all_cells(), keep);
    }
    let mut row: u8 = 1;
    while row < 8
        invariant
            1 <= row <= 8,
            chosen == marks(*grid),
            keep == |c: Cell| chosen.contains(c),
            out@ == all_cells().take((row - 1) * 7).filter(keep),
        decreases 8 - row,
    {
        let mut col: u8 = 1;
        while col < 8
            invariant
                1 <= row < 8,
                1 <= col <= 8,
                chosen == marks(*grid),
                keep == |c: Cell| chosen.contains(c),
                out@ == all_cells().take((row - 1) * 7 + (col - 1)).filter(keep),
            decreases 8 - col,
        {
            proof {
                lemma_all_cells();
                lemma_filter_take_step(all_cells(), keep, (row - 1) * 7 + (col - 1));
                assert(all_cells()[(row - 1) * 7 + (col - 1)] == Cell { row, col });
            }
            if grid[(row - 1) as usize][(col - 1) as usize] {
                out.push(Cell { row, col });
            }
            col += 1;
        }
        row += 1;
    }
    assert(all_cells().take(49) =~= all_cells());
    out
}

impl Board {
    /// The live cells that can be reached from the pivot, row by row. If the
    /// pivot itself is gone, nothing is reached.
    pub fn get_reachable_cells(&self) -> (out: Vec<Cell>)
        ensures
            out@ == listing(reachable(self@)),
    {
        let ghost live = self@;
        let start = Cell { row: MIMIC_INITIAL_ROW as u8, col: MIMIC_INITIAL_COL as u8 };
        let mut visited: [[bool; 7]; 7] = [[false; 7]; 7];
        if self.value_at_cell(&start) {
            let mut queue: VecDeque<Cell> = VecDeque::new();
            let mut queued: [[bool; 7]; 7] = [[false; 7]; 7];
            queue.push_back(start);
            queued[(start.row - 1) as usize][(start.col - 1) as usize] = true;
            proof {
                lemma_pivot_reached(live);
                assert(queue@[0] == start);
            }
            while queue.len() > 0
                invariant
                    live == self@,
                    live.contains(pivot()),
                    marked(queued, pivot()),
                    queue@.no_duplicates(),
                    forall|c: Cell| #[trigger] marked(visited, c) ==> marked(queued, c),
                    forall|c: Cell| #[trigger] marked(queued, c) ==> reaches(live, c),
                    forall|c: Cell|
                        #[trigger] marked(queued, c) ==> marked(visited, c) || queue@.contains(c),
                    forall|i: int|
                        0 <= i < queue@.len() ==> marked(queued, #[trigger] queue@[i]) && !marked(
                            visited,
                            queue@[i],
                        ),
                    forall|a: Cell, b: Cell|
                        marked(visited, a) && #[trigger] step_allowed(live, a, b) ==> marked(
                            queued,
                            b,
                        ),
                decreases blanks(queued).len() + queue@.len(),
            {
                let ghost before = blanks(queued).len() + queue@.len();
                let ghost waiting = queue@;
                let cell = queue.pop_front().unwrap();
                assert(cell == waiting[0]);
                assert(marked(queued, cell));
                let ghost visited_before = visited;
                visited[(cell.row - 1) as usize][(cell.col - 1) as usize] = true;
                let around = cell.get_neighbors();
                proof {
                    assert forall|c: Cell| #[trigger] marked(visited, c) implies c == cell
                        || marked(visited_before, c) by {}
                    assert forall|c: Cell| #[trigger] marked(visited_before, c) implies marked(
                        visited,
                        c,
                    ) by {}
                    assert forall|c: Cell| #[trigger]
                        marked(queued, c) implies marked(visited, c) || queue@.contains(c) by {
                        if marked(queued, c) && !marked(visited, c) {
                            assert(waiting.contains(c));
                            let i = choose|i: int| 0 <= i < waiting.len() && waiting[i] == c;
                            assert(i > 0);
                            assert(queue@[i - 1] == c);
                        }
                    }
                    assert forall|i: int| 0 <= i < queue@.len() implies marked(
                        queued,
                        #[trigger] queue@[i],
                    ) && !marked(visited, queue@[i]) by {
                        assert(queue@[i] == waiting[i + 1]);
                    }
                }
                let mut k: usize = 0;
                while k < around.len()
                    invariant
                        k <= around.len(),
                        around@ == cell.adjacent_cells(),
                        live == self@,
                        live.contains(pivot()),
                        marked(queued, pivot()),
                        marked(visited, cell),
                        queue@.no_duplicates(),
                        forall|c: Cell| #[trigger] marked(visited, c) ==> marked(queued, c),
                        forall|c: Cell| #[trigger] marked(queued, c) ==> reaches(live, c),
                        forall|c: Cell|
                            #[trigger] marked(queued, c) ==> marked(visited, c) || queue@.contains(
                                c,
                            ),
                        forall|i: int|
                            0 <= i < queue@.len() ==> marked(queued, #[trigger] queue@[i])
                                && !marked(visited, queue@[i]),
                        forall|a: Cell, b: Cell|
                            marked(visited, a) && a != cell && #[trigger] step_allowed(live, a, b)
                                ==> marked(queued, b),
                        forall|j: int|
                            0 <= j < k && step_allowed(live, cell, #[trigger] around@[j])
                                ==> marked(queued, around@[j]),
                        blanks(queued).len() + queue@.len() < before,
                    decreases around.len() - k,
                {
                    let neighbor_cell = around[k];
                    k += 1;
                    if !self.value_at_cell(&neighbor_cell) {
                        continue;
                    }
                    if cell.is_outer() && neighbor_cell.is_outer() {
                        continue;
                    }
                    proof {
                        crate::grid::lemma_neighbors_valid(cell);
                        assert(neighbor_cell.valid());
                    }
                    if visited[(neighbor_cell.row - 1) as usize][(neighbor_cell.col - 1) as usize]
                        || queued[(neighbor_cell.row - 1) as usize][(neighbor_cell.col
                        - 1) as usize] {
                        assert(marked(visited, neighbor_cell) || marked(queued, neighbor_cell));
                        continue;
                    }
                    let ghost queued_before = queued;
                    let ghost queue_before = queue@;
                    queue.push_back(neighbor_cell);
                    queued[(neighbor_cell.row - 1) as usize][(neighbor_cell.col - 1) as usize] =
                        true;
                    proof {
                        assert(step_allowed(live, cell, neighbor_cell));
                        lemma_route_extends(live, cell, neighbor_cell);
                        lemma_blanks_finite(queued_before);
                        assert(blanks(queued) =~= blanks(queued_before).remove(neighbor_cell));
                        assert(queue@[queue@.len() - 1] == neighbor_cell);
                        assert forall|c: Cell| #[trigger]
                            marked(queued, c) implies marked(visited, c) || queue@.contains(
                            c,
                        ) by {
                            if marked(queued, c) && !marked(visited, c) && c != neighbor_cell {
                                assert(marked(queued_before, c));
                                let i = choose|i: int|
                                    0 <= i < queue_before.len() && queue_before[i] == c;
                                assert(queue@[i] == c);
                            }
                        }
                    }
                }
                proof {
                    assert forall|a: Cell, b: Cell|
                        marked(visited, a) && #[trigger] step_allowed(live, a, b) implies marked(
                        queued,
                        b,
                    ) by {
                        if a == cell {
                            let j = choose|j: int| 0 <= j < around@.len() && around@[j] == b;
                            assert(step_allowed(live, cell, around@[j]));
                        }
                    }
                }
            }
            proof {
                assert forall|c: Cell| #[trigger] marked(queued, c) implies marked(visited, c) by {
                    if marked(queued, c) && !marked(visited, c) {
                        assert(queue@.contains(c));
                    }
                }
                assert forall|a: Cell, b: Cell|
                    marks(visited).contains(a) && #[trigger] step_allowed(live, a, b)
                    implies marks(visited).contains(b) by {
                    assert(marked(queued, b));
                }
                reachable_set_is_unique(*self, marks(visited));
            }
        } else {
            proof {
                assert(marks(visited) =~= reachable(live));
            }
        }
        marked_cells(&visited)
    }
}

} // verus!
