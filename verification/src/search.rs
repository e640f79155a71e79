//! The search for the removals worth the most. Combinations of the eligible
//! cells are scored size by size, from the empty one up to the budget; the
//! search gives up once two sizes in a row have fallen short of the best.

use vstd::prelude::*;
use itertools::Itertools;
use crate::benefit::{benefit, lemma_benefit_range};
use crate::board::{eligible, Board};
use crate::grid::{all_cells, lemma_all_cells, listing, Cell, MAX_BLOCKS_TO_REMOVE};
use crate::seqs::{lemma_filter_membership, lemma_filter_no_duplicates};

verus! {

/// The contents of a vector of combinations.
pub open spec fn views(v: Seq<Vec<Cell>>) -> Seq<Seq<Cell>> {
    v.map_values(|x: Vec<Cell>| x@)
}

/// The ways to pick `size` of the `items`, each pick in the order of
/// `items`. Picks are told apart by position, not by value. They are listed
/// in the order of the positions picked: all that take the first item come
/// before all that do not.
pub open spec fn combinations(items: Seq<Cell>, size: nat) -> Seq<Seq<Cell>>
    decreases items.len(),
{
    if size == 0 {
        seq![Seq::<Cell>::empty()]
    } else if items.len() == 0 {
        Seq::<Seq<Cell>>::empty()
    } else {
        combinations(items.drop_first(), (size - 1) as nat).map_values(
            |rest: Seq<Cell>| seq![items[0]] + rest,
        ) + combinations(items.drop_first(), size)
    }
}

/// There is no way to pick more items than there are.
pub proof fn lemma_combinations_too_many(items: Seq<Cell>, size: nat)
    requires
        size > items.len(),
    ensures
        combinations(items, size) == Seq::<Seq<Cell>>::empty(),
    decreases items.len(),
{
    if items.len() > 0 {
        lemma_combinations_too_many(items.drop_first(), (size - 1) as nat);
        lemma_combinations_too_many(items.drop_first(), size);
        assert(combinations(items, size) =~= Seq::<Seq<Cell>>::empty());
    }
}

/// Every combination holds `size` of the items, and none of them twice
/// where the items are all different.
pub proof fn lemma_combinations_hold_items(items: Seq<Cell>, size: nat, i: int)
    requires
        0 <= i < combinations(items, size).len(),
    ensures
        combinations(items, size)[i].len() == size,
        forall|j: int|
            0 <= j < size ==> items.contains(#[trigger] combinations(items, size)[i][j]),
        items.no_duplicates() ==> combinations(items, size)[i].no_duplicates(),
    decreases items.len(),
{
    if size > 0 && items.len() > 0 {
        let rest = items.drop_first();
        let with_first = combinations(rest, (size - 1) as nat).map_values(
            |tail: Seq<Cell>| seq![items[0]] + tail,
        );
        let picked = combinations(items, size)[i];
        assert forall|x: Cell| rest.contains(x) implies items.contains(x) by {
            let k = choose|k: int| 0 <= k < rest.len() && rest[k] == x;
            assert(items[k + 1] == x);
        }
        if items.no_duplicates() {
            assert(rest.no_duplicates());
            if rest.contains(items[0]) {
                let k = choose|k: int| 0 <= k < rest.len() && rest[k] == items[0];
                assert(items[k + 1] == items[0]);
            }
        }
        if i < with_first.len() {
            let tail = combinations(rest, (size - 1) as nat)[i];
            lemma_combinations_hold_items(rest, (size - 1) as nat, i);
            assert(picked == seq![items[0]] + tail);
            assert forall|j: int| 0 <= j < size implies items.contains(#[trigger] picked[j]) by {
                if j == 0 {
                    assert(items[0] == picked[0]);
                } else {
                    assert(picked[j] == tail[j - 1]);
                    assert(rest.contains(tail[j - 1]));
                }
            }
            if items.no_duplicates() {
                assert forall|a: int, b: int|
                    0 <= a < picked.len() && 0 <= b < picked.len() && a != b implies picked[a]
                    != picked[b] by {
                    if a > 0 {
                        assert(picked[a] == tail[a - 1]);
                        assert(rest.contains(tail[a - 1]));
                    }
                    if b > 0 {
                        assert(picked[b] == tail[b - 1]);
                        assert(rest.contains(tail[b - 1]));
                    }
                }
            }
        } else {
            lemma_combinations_hold_items(rest, size, i - with_first.len());
            assert(picked == combinations(rest, size)[i - with_first.len()]);
            assert forall|j: int| 0 <= j < size implies items.contains(#[trigger] picked[j]) by {
                assert(rest.contains(picked[j]));
            }
        }
    }
}

/// `at` picks positions of `items` from left to right.
pub open spec fn is_selection(items: Seq<Cell>, at: Seq<int>) -> bool {
    &&& forall|j: int| 0 <= j < at.len() ==> 0 <= #[trigger] at[j] < items.len()
    &&& forall|j: int, k: int| 0 <= j < k < at.len() ==> at[j] < at[k]
}

/// The items at the positions `at`.
pub open spec fn selected(items: Seq<Cell>, at: Seq<int>) -> Seq<Cell> {
    Seq::new(at.len(), |j: int| items[at[j]])
}

/// No pick is missing: whichever positions are selected, the items at
/// them are among the combinations of their number.
pub proof fn every_selection_is_a_combination(items: Seq<Cell>, at: Seq<int>) -> (i: int)
    requires
        is_selection(items, at),
    ensures
        0 <= i < combinations(items, at.len()).len(),
        combinations(items, at.len())[i] == selected(items, at),
    decreases items.len(),
{
    let size = at.len();
    if size == 0 {
        assert(selected(items, at) =~= Seq::<Cell>::empty());
        0
    } else {
        assert(0 <= at[0] < items.len());
        let rest = items.drop_first();
        let with_first = combinations(rest, (size - 1) as nat).map_values(
            |tail: Seq<Cell>| seq![items[0]] + tail,
        );
        if at[0] == 0 {
            let later = Seq::new((size - 1) as nat, |j: int| at[j + 1] - 1);
            assert(is_selection(rest, later)) by {
                assert forall|j: int| 0 <= j < later.len() implies 0 <= #[trigger] later[j]
                    < rest.len() by {
                    assert(at[0] < at[j + 1]);
                    assert(0 <= at[j + 1] < items.len());
                }
                assert forall|j: int, k: int| 0 <= j < k < later.len() implies later[j]
                    < later[k] by {
                    assert(at[j + 1] < at[k + 1]);
                }
            }
            let i = every_selection_is_a_combination(rest, later);
            assert(with_first[i] =~= selected(items, at)) by {
                assert forall|j: int| 0 <= j < size implies with_first[i][j] == selected(
                    items,
                    at,
                )[j] by {
                    if j > 0 {
                        assert(selected(rest, later)[j - 1] == rest[later[j - 1]]);
                    }
                }
            }
            i
        } else {
            let later = Seq::new(size, |j: int| at[j] - 1);
            assert(is_selection(rest, later)) by {
                assert forall|j: int| 0 <= j < later.len() implies 0 <= #[trigger] later[j]
                    < rest.len() by {
                    if j > 0 {
                        assert(at[0] < at[j]);
                    }
                    assert(0 <= at[j] < items.len());
                }
                assert forall|j: int, k: int| 0 <= j < k < later.len() implies later[j]
                    < later[k] by {
                    assert(at[j] < at[k]);
                }
            }
            let i = every_selection_is_a_combination(rest, later);
            assert(combinations(rest, size)[i] =~= selected(items, at));
            with_first.len() + i
        }
    }
}

/// `Itertools::combinations` on the items of a vector, gathered into a
/// vector. The adaptor yields every pick of `size` positions as a vector of
/// clones, in lexicographic order of the positions; it is asked only for
/// sizes that the items can fill.
#[verifier::external_body]
fn itertools_combinations(items: &Vec<Cell>, size: usize) -> (out: Vec<Vec<Cell>>)
    requires
        size <= items@.len(),
    ensures
        views(out@) == combinations(items@, size as nat),
{
    items.clone().into_iter().combinations(size).collect()
}

/// All combinations of `size` of the `items`.
pub fn combinations_of(items: &Vec<Cell>, size: usize) -> (out: Vec<Vec<Cell>>)
    ensures
        views(out@) == combinations(items@, size as nat),
{
    if size == 0 {
        let mut out: Vec<Vec<Cell>> = Vec::new();
        out.push(Vec::new());
        assert(views(out@) =~= combinations(items@, 0));
        out
    } else if size <= items.len() {
        itertools_combinations(items, size)
    } else {
        proof {
            lemma_combinations_too_many(items@, size as nat);
        }
        let out: Vec<Vec<Cell>> = Vec::new();
        assert(views(out@) =~= Seq::<Seq<Cell>>::empty());
        out
    }
}

/// The best score among `combos`; -1 where there is none to score.
pub open spec fn best_benefit(live: Set<Cell>, combos: Seq<Seq<Cell>>) -> int
    decreases combos.len(),
{
    if combos.len() == 0 {
        -1
    } else {
        let earlier = best_benefit(live, combos.drop_last());
        let last = benefit(live, combos.last());
        if last > earlier {
            last
        } else {
            earlier
        }
    }
}

/// The combinations among `combos` that score `score`, in their order.
pub open spec fn achieving(live: Set<Cell>, combos: Seq<Seq<Cell>>, score: int) -> Seq<Seq<Cell>> {
    combos.filter(|c: Seq<Cell>| benefit(live, c) == score)
}

/// The combinations that reach the best score of `combos`. Where every one
/// exceeds the budget, none is kept.
pub open spec fn winners(live: Set<Cell>, combos: Seq<Seq<Cell>>) -> Seq<Seq<Cell>> {
    if best_benefit(live, combos) == -1 {
        Seq::<Seq<Cell>>::empty()
    } else {
        achieving(live, combos, best_benefit(live, combos))
    }
}

/// No combination scores more than the best, and the best is the sentinel or
/// a score that some combination has.
pub proof fn lemma_best_benefit(live: Set<Cell>, combos: Seq<Seq<Cell>>)
    ensures
        -1 <= best_benefit(live, combos) <= 49,
        forall|i: int|
            0 <= i < combos.len() ==> benefit(live, #[trigger] combos[i]) <= best_benefit(
                live,
                combos,
            ),
        best_benefit(live, combos) != -1 ==> exists|i: int|
            0 <= i < combos.len() && benefit(live, #[trigger] combos[i]) == best_benefit(
                live,
                combos,
            ),
    decreases combos.len(),
{
    if combos.len() > 0 {
        let earlier = combos.drop_last();
        lemma_best_benefit(live, earlier);
        lemma_benefit_range(live, combos.last());
        assert forall|i: int| 0 <= i < combos.len() implies benefit(live, #[trigger] combos[i])
            <= best_benefit(live, combos) by {
            if i < combos.len() - 1 {
                assert(combos[i] == earlier[i]);
            }
        }
        if best_benefit(live, combos) != -1 {
            if benefit(live, combos.last()) > best_benefit(live, earlier) {
                assert(benefit(live, combos[combos.len() - 1]) == best_benefit(live, combos));
            } else {
                let i = choose|i: int|
                    0 <= i < earlier.len() && benefit(live, #[trigger] earlier[i]) == best_benefit(
                        live,
                        earlier,
                    );
                assert(combos[i] == earlier[i]);
            }
        }
    }
}

/// The state of a search between two sizes.
#[derive(Debug)]
pub struct SearchState {
    /// The best score met so far.
    pub max_benefit: isize,
    /// How many more sizes may fall short before the search gives up.
    pub countdown: u8,
    /// The combinations that have reached the best score.
    pub max_benefit_combinations: Vec<Vec<Cell>>,
}

/// What a search state holds, as plain values.
pub struct SearchView {
    pub best: int,
    pub countdown: int,
    pub found: Seq<Seq<Cell>>,
}

impl View for SearchState {
    type V = SearchView;

    open spec fn view(&self) -> SearchView {
        SearchView {
            best: self.max_benefit as int,
            countdown: self.countdown as int,
            found: views(self.max_benefit_combinations@),
        }
    }
}

/// The state before any size has been scored.
pub open spec fn initial_search() -> SearchView {
    SearchView { best: 0, countdown: 2, found: Seq::empty() }
}

/// The state after a size whose best score is `score`, reached by `winners`.
/// A better score replaces what was found and a score as good adds to it;
/// either renews the countdown. A worse score costs one of the countdown,
/// unless it is the sentinel -1, which changes nothing.
pub open spec fn absorb(st: SearchView, score: int, winners: Seq<Seq<Cell>>) -> SearchView {
    if score > st.best {
        SearchView { best: score, countdown: 2, found: winners }
    } else if score == st.best {
        SearchView { best: st.best, countdown: 2, found: st.found + winners }
    } else if score != -1 && st.countdown > 0 {
        SearchView { best: st.best, countdown: st.countdown - 1, found: st.found }
    } else {
        st
    }
}

impl SearchState {
    /// The state before any size has been scored.
    pub fn new() -> (st: SearchState)
        ensures
            st@ == initial_search(),
    {
        let st = SearchState { max_benefit: 0, countdown: 2, max_benefit_combinations: Vec::new() };
        assert(st@.found =~= Seq::<Seq<Cell>>::empty());
        st
    }

    /// Whether the search has given up.
    pub fn is_exhausted(&self) -> (b: bool)
        ensures
            b == (self@.countdown == 0),
    {
        self.countdown == 0
    }

    /// Takes in the outcome of one size.
    pub fn absorb(&mut self, benefit: isize, combinations: Vec<Vec<Cell>>)
        ensures
            final(self)@ == absorb(old(self)@, benefit as int, views(combinations@)),
    {
        let mut combinations = combinations;
        if benefit < self.max_benefit {
            if benefit != -1 && self.countdown > 0 {
                self.countdown -= 1;
            }
        } else if benefit == self.max_benefit {
            let ghost before = self.max_benefit_combinations@;
            let ghost added = combinations@;
            self.max_benefit_combinations.append(&mut combinations);
            self.countdown = 2;
            assert(views(before + added) =~= views(before) + views(added));
        } else {
            self.max_benefit = benefit;
            self.max_benefit_combinations = combinations;
            self.countdown = 2;
        }
    }
}

/// The state after one more size, `size`, has had its turn. Once the
/// countdown is spent no size is scored any more.
pub open spec fn search_round(
    live: Set<Cell>,
    candidates: Seq<Cell>,
    st: SearchView,
    size: nat,
) -> SearchView {
    if st.countdown == 0 {
        st
    } else {
        let combos = combinations(candidates, size);
        absorb(st, best_benefit(live, combos), winners(live, combos))
    }
}

/// The state after the sizes below `sizes` have had their turn, in ascending
/// order.
pub open spec fn search_through(live: Set<Cell>, candidates: Seq<Cell>, sizes: nat) -> SearchView
    decreases sizes,
{
    if sizes == 0 {
        initial_search()
    } else {
        search_round(
            live,
            candidates,
            search_through(live, candidates, (sizes - 1) as nat),
            (sizes - 1) as nat,
        )
    }
}

/// The outcome of the whole search on a board: sizes 0 to 10 of the eligible
/// cells.
pub open spec fn search(live: Set<Cell>) -> SearchView {
    search_through(live, listing(eligible(live)), (MAX_BLOCKS_TO_REMOVE + 1) as nat)
}

/// Once the countdown is spent, further sizes change nothing.
pub proof fn lemma_search_stays_stopped(
    live: Set<Cell>,
    candidates: Seq<Cell>,
    stopped: nat,
    sizes: nat,
)
    requires
        stopped <= sizes,
        search_through(live, candidates, stopped).countdown == 0,
    ensures
        search_through(live, candidates, sizes) == search_through(live, candidates, stopped),
    decreases sizes,
{
    if sizes > stopped {
        lemma_search_stays_stopped(live, candidates, stopped, (sizes - 1) as nat);
    }
}

/// At every stage of a search the best score is a real one, and each
/// combination found scores exactly that.
pub proof fn lemma_search_found_achieve_best(live: Set<Cell>, candidates: Seq<Cell>, sizes: nat)
    ensures
        0 <= search_through(live, candidates, sizes).best <= 49,
        0 <= search_through(live, candidates, sizes).countdown <= 2,
        forall|i: int|
            0 <= i < search_through(live, candidates, sizes).found.len() ==> benefit(
                live,
                #[trigger] search_through(live, candidates, sizes).found[i],
            ) == search_through(live, candidates, sizes).best,
    decreases sizes,
{
    if sizes > 0 {
        let before = search_through(live, candidates, (sizes - 1) as nat);
        let after = search_through(live, candidates, sizes);
        lemma_search_found_achieve_best(live, candidates, (sizes - 1) as nat);
        if before.countdown != 0 {
            let combos = combinations(candidates, (sizes - 1) as nat);
            let score = best_benefit(live, combos);
            let won = winners(live, combos);
            lemma_best_benefit(live, combos);
            assert forall|i: int| 0 <= i < won.len() implies benefit(live, #[trigger] won[i])
                == score by {
                combos.lemma_filter_pred(|c: Seq<Cell>| benefit(live, c) == score, i);
            }
            assert forall|i: int| 0 <= i < after.found.len() implies benefit(
                live,
                #[trigger] after.found[i],
            ) == after.best by {
                if score > before.best {
                    assert(after.found[i] == won[i]);
                } else if score == before.best {
                    if i < before.found.len() {
                        assert(after.found[i] == before.found[i]);
                    } else {
                        assert(after.found[i] == won[i - before.found.len()]);
                    }
                } else {
                    assert(after.found[i] == before.found[i]);
                }
            }
        }
    }
}

/// Whatever a search has found is a combination of the candidates, of a
/// size that has had its turn.
pub proof fn lemma_search_found_are_combinations(
    live: Set<Cell>,
    candidates: Seq<Cell>,
    sizes: nat,
    i: int,
) -> (at: (nat, int))
    requires
        0 <= i < search_through(live, candidates, sizes).found.len(),
    ensures
        at.0 < sizes,
        0 <= at.1 < combinations(candidates, at.0).len(),
        search_through(live, candidates, sizes).found[i] == combinations(candidates, at.0)[at.1],
    decreases sizes,
{
    let before = search_through(live, candidates, (sizes - 1) as nat);
    let size = (sizes - 1) as nat;
    let combos = combinations(candidates, size);
    let score = best_benefit(live, combos);
    let won = winners(live, combos);
    if before.countdown == 0 || (score <= before.best && (score < before.best || i
        < before.found.len())) {
        lemma_search_found_are_combinations(live, candidates, size, i)
    } else {
        let k = if score > before.best {
            i
        } else {
            i - before.found.len()
        };
        assert(search_through(live, candidates, sizes).found[i] == won[k]);
        lemma_filter_membership(combos, |c: Seq<Cell>| benefit(live, c) == score);
        assert(won.contains(won[k]));
        let j = choose|j: int| 0 <= j < combos.len() && combos[j] == won[k];
        (size, j)
    }
}

/// Every combination that a search reports is worth what the search reports
/// as the best score: scoring it again on the same board gives that score.
pub proof fn search_results_achieve_best(board: Board)
    ensures
        search(board@).best >= 0,
        forall|i: int|
            0 <= i < search(board@).found.len() ==> benefit(
                board@,
                #[trigger] search(board@).found[i],
            ) == search(board@).best,
{
    lemma_search_found_achieve_best(
        board@,
        listing(eligible(board@)),
        (MAX_BLOCKS_TO_REMOVE + 1) as nat,
    );
}

/// Every combination that a search reports is made of cells that may be
/// removed, holds none of them twice, and stays within the budget.
pub proof fn search_results_are_eligible(board: Board, i: int)
    requires
        0 <= i < search(board@).found.len(),
    ensures
        search(board@).found[i].len() <= MAX_BLOCKS_TO_REMOVE,
        search(board@).found[i].no_duplicates(),
        forall|j: int|
            0 <= j < search(board@).found[i].len() ==> eligible(board@).contains(
                #[trigger] search(board@).found[i][j],
            ),
{
    let candidates = listing(eligible(board@));
    let at = lemma_search_found_are_combinations(
        board@,
        candidates,
        (MAX_BLOCKS_TO_REMOVE + 1) as nat,
        i,
    );
    lemma_combinations_hold_items(candidates, at.0, at.1);
    lemma_all_cells();
    lemma_filter_no_duplicates(all_cells(), |c: Cell| eligible(board@).contains(c));
    lemma_filter_membership(all_cells(), |c: Cell| eligible(board@).contains(c));
}

impl Board {
    /// Scores each of `combinations` and keeps those that score best.
    /// Combinations that exceed the budget score -1 and are never kept.
    pub fn best_of(&self, combinations: &Vec<Vec<Cell>>) -> (out: (isize, Vec<Vec<Cell>>))
        requires
            self.wf(),
        ensures
            out.0 == best_benefit(self@, views(combinations@)),
            views(out.1@) == winners(self@, views(combinations@)),
    {
        let ghost live = self@;
        let ghost combos = views(combinations@);
        let mut best: isize = -1;
        let mut current_combinations: Vec<Vec<Cell>> = Vec::new();
        assert(combos.take(0) =~= Seq::<Seq<Cell>>::empty());
        assert(views(current_combinations@) =~= Seq::<Seq<Cell>>::empty());
        let mut i: usize = 0;
        while i < combinations.len()
            invariant
                i <= combinations.len(),
                self.wf(),
                live == self@,
                combos == views(combinations@),
                best == best_benefit(live, combos.take(i as int)),
                views(current_combinations@) == winners(live, combos.take(i as int)),
            decreases combinations.len() - i,
        {
            let combination = &combinations[i];
            let (benefit, _removing_cells) = self.calc_benefit(combination);
            let ghost earlier = combos.take(i as int);
            let ghost now = combos.take(i + 1);
            let ghost kept = views(current_combinations@);
            proof {
                assert(now.drop_last() =~= earlier);
                assert(now.last() == combination@);
                assert(now =~= earlier.push(combination@));
                lemma_best_benefit(live, earlier);
                lemma_benefit_range(live, combination@);
                earlier.lemma_filter_push(
                    combination@,
                    |c: Seq<Cell>| crate::benefit::benefit(live, c) == best_benefit(live, now),
                );
            }
            if benefit > best {
                best = benefit;
                current_combinations.clear();
                let winner = combination.clone();
                assert(winner@ =~= combination@);
                current_combinations.push(winner);
                proof {
                    let keep = |c: Seq<Cell>| crate::benefit::benefit(live, c) == benefit as int;
                    assert(earlier.filter(keep) =~= Seq::<Seq<Cell>>::empty()) by {
                        assert forall|k: int| 0 <= k < earlier.len() implies !keep(
                            #[trigger] earlier[k],
                        ) by {}
                        earlier.lemma_all_neg_filter_empty(keep);
                    }
                    assert(views(current_combinations@) =~= seq![combination@]);
                    assert(winners(live, now) =~= seq![combination@]);
                }
            } else if benefit == best && benefit != -1 {
                let winner = combination.clone();
                assert(winner@ =~= combination@);
                current_combinations.push(winner);
                proof {
                    assert(views(current_combinations@) =~= kept.push(combination@));
                }
            }
            i += 1;
        }
        assert(combos.take(combinations.len() as int) =~= combos);
        (best, current_combinations)
    }

    /// Searches for the removals worth the most.
    ///
    /// Returns the best score and the combinations that reach it, in the
    /// order in which they were met. To learn what has to be cleared for one
    /// of them, score it with `calc_benefit`.
    pub fn solve(&self) -> (out: (isize, Vec<Vec<Cell>>))
        requires
            self.wf(),
        ensures
            out.0 == search(self@).best,
            views(out.1@) == search(self@).found,
            out.0 >= 0,
            forall|i: int|
                0 <= i < out.1@.len() ==> benefit(self@, (#[trigger] out.1@[i])@) == out.0,
            forall|i: int|
                0 <= i < out.1@.len() ==> {
                    &&& (#[trigger] out.1@[i])@.len() <= MAX_BLOCKS_TO_REMOVE
                    &&& out.1@[i]@.no_duplicates()
                    &&& forall|j: int|
                        0 <= j < out.1@[i]@.len() ==> eligible(self@).contains(
                            #[trigger] out.1@[i]@[j],
                        )
                },
    {
        let ghost live = self@;
        let available_blocks: Vec<Cell> = self.get_available_blocks();
        let mut state = SearchState::new();
        let mut size: usize = 0;
        while size <= MAX_BLOCKS_TO_REMOVE && !state.is_exhausted()
            invariant
                size <= MAX_BLOCKS_TO_REMOVE + 1,
                self.wf(),
                live == self@,
                available_blocks@ == listing(eligible(live)),
                state@ == search_through(live, available_blocks@, size as nat),
            decreases MAX_BLOCKS_TO_REMOVE + 1 - size,
        {
            let combinations = combinations_of(&available_blocks, size);
            let (benefit, current_combinations) = self.best_of(&combinations);
            state.absorb(benefit, current_combinations);
            size += 1;
        }
        proof {
            if size <= MAX_BLOCKS_TO_REMOVE {
                lemma_search_stays_stopped(
                    live,
                    available_blocks@,
                    size as nat,
                    (MAX_BLOCKS_TO_REMOVE + 1) as nat,
                );
            }
            search_results_achieve_best(*self);
            assert(state@ == search(live));
            let found = state.max_benefit_combinations@;
            assert forall|i: int| 0 <= i < found.len() implies {
                &&& benefit(live, (#[trigger] found[i])@) == state.max_benefit
                &&& found[i]@.len() <= MAX_BLOCKS_TO_REMOVE
                &&& found[i]@.no_duplicates()
                &&& forall|j: int|
                    0 <= j < found[i]@.len() ==> eligible(live).contains(#[trigger] found[i]@[j])
            } by {
                assert(views(found)[i] == found[i]@);
                search_results_are_eligible(*self, i);
            }
        }
        (state.max_benefit, state.max_benefit_combinations)
    }
}

} // verus!
