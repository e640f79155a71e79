use mimic_solver::board::Board;
use mimic_solver::grid::Cell;
use mimic_solver::search::{combinations_of, SearchState};

fn cells(pairs: &[(u8, u8)]) -> Vec<Cell> {
    pairs.iter().map(|&(row, col)| Cell { row, col }).collect()
}

fn board_with(live: &[(u8, u8)]) -> Board {
    let mut board = Board::new();
    for row in 1..=7u8 {
        for col in 1..=7u8 {
            if !live.contains(&(row, col)) {
                board.drop_cell(row, col);
            }
        }
    }
    board
}

fn mixed_board() -> Board {
    Board::from_input(vec![
        14, 22, 23, 24, 25, 27, 31, 32, 33, 35, 36, 42, 43, 45, 52, 53, 55, 66, 77,
    ]).unwrap()
}

fn state(max_benefit: isize, countdown: u8, found: Vec<Vec<Cell>>) -> SearchState {
    SearchState { max_benefit, countdown, max_benefit_combinations: found }
}

fn parts(state: &SearchState) -> (isize, u8, Vec<Vec<Cell>>) {
    (state.max_benefit, state.countdown, state.max_benefit_combinations.clone())
}

#[test]
fn combinations_come_in_lexicographic_order() {
    let items = cells(&[(2, 2), (2, 3), (2, 4), (2, 5)]);
    assert_eq!(
        combinations_of(&items, 3),
        vec![
            cells(&[(2, 2), (2, 3), (2, 4)]),
            cells(&[(2, 2), (2, 3), (2, 5)]),
            cells(&[(2, 2), (2, 4), (2, 5)]),
            cells(&[(2, 3), (2, 4), (2, 5)]),
        ]
    );
    assert_eq!(
        combinations_of(&items, 2),
        vec![
            cells(&[(2, 2), (2, 3)]),
            cells(&[(2, 2), (2, 4)]),
            cells(&[(2, 2), (2, 5)]),
            cells(&[(2, 3), (2, 4)]),
            cells(&[(2, 3), (2, 5)]),
            cells(&[(2, 4), (2, 5)]),
        ]
    );
}

#[test]
fn combinations_of_size_one_and_of_full_size() {
    let items = cells(&[(2, 2), (2, 3), (2, 4)]);
    assert_eq!(
        combinations_of(&items, 1),
        vec![cells(&[(2, 2)]), cells(&[(2, 3)]), cells(&[(2, 4)])]
    );
    assert_eq!(combinations_of(&items, 3), vec![items.clone()]);
}

#[test]
fn combination_of_size_zero_is_the_empty_one() {
    let items = cells(&[(2, 2), (2, 3)]);
    assert_eq!(combinations_of(&items, 0), vec![Vec::<Cell>::new()]);
    assert_eq!(combinations_of(&Vec::new(), 0), vec![Vec::<Cell>::new()]);
}

#[test]
fn no_combination_is_larger_than_the_items() {
    let items = cells(&[(2, 2), (2, 3)]);
    assert_eq!(combinations_of(&items, 3), Vec::<Vec<Cell>>::new());
    assert_eq!(combinations_of(&Vec::new(), 1), Vec::<Vec<Cell>>::new());
    assert_eq!(combinations_of(&items, usize::MAX), Vec::<Vec<Cell>>::new());
}

#[test]
fn combinations_tell_items_apart_by_position() {
    let items = cells(&[(2, 2), (2, 3), (2, 3)]);
    assert_eq!(
        combinations_of(&items, 2),
        vec![
            cells(&[(2, 2), (2, 3)]),
            cells(&[(2, 2), (2, 3)]),
            cells(&[(2, 3), (2, 3)]),
        ]
    );
}

#[test]
fn number_of_combinations_is_the_binomial() {
    let items = Board::new().get_available_blocks();
    assert_eq!(items.len(), 24);
    assert_eq!(combinations_of(&items, 1).len(), 24);
    assert_eq!(combinations_of(&items, 2).len(), 276);
    assert_eq!(combinations_of(&items, 3).len(), 2024);
}

#[test]
fn search_starts_at_zero_with_a_countdown_of_two() {
    assert_eq!(parts(&SearchState::new()), (0, 2, Vec::new()));
    assert!(!SearchState::new().is_exhausted());
}

#[test]
fn better_score_replaces_what_was_found() {
    let mut st = state(3, 1, vec![cells(&[(2, 2)])]);
    st.absorb(5, vec![cells(&[(3, 3)]), cells(&[(5, 5)])]);
    assert_eq!(parts(&st), (5, 2, vec![cells(&[(3, 3)]), cells(&[(5, 5)])]));
}

#[test]
fn equal_score_adds_to_what_was_found() {
    let mut st = state(5, 1, vec![cells(&[(2, 2)])]);
    st.absorb(5, vec![cells(&[(3, 3)]), cells(&[(5, 5)])]);
    assert_eq!(
        parts(&st),
        (5, 2, vec![cells(&[(2, 2)]), cells(&[(3, 3)]), cells(&[(5, 5)])])
    );
}

#[test]
fn worse_score_costs_one_of_the_countdown() {
    let mut st = state(5, 2, vec![cells(&[(2, 2)])]);
    st.absorb(4, vec![cells(&[(3, 3)])]);
    assert_eq!(parts(&st), (5, 1, vec![cells(&[(2, 2)])]));
    assert!(!st.is_exhausted());
    st.absorb(0, vec![cells(&[(3, 3)])]);
    assert_eq!(parts(&st), (5, 0, vec![cells(&[(2, 2)])]));
    assert!(st.is_exhausted());
}

#[test]
fn sentinel_score_changes_nothing() {
    let mut st = state(5, 2, vec![cells(&[(2, 2)])]);
    st.absorb(-1, Vec::new());
    assert_eq!(parts(&st), (5, 2, vec![cells(&[(2, 2)])]));
    let mut st = state(5, 1, Vec::new());
    st.absorb(-1, vec![cells(&[(3, 3)])]);
    assert_eq!(parts(&st), (5, 1, Vec::new()));
}

#[test]
fn countdown_does_not_fall_below_zero() {
    let mut st = state(5, 0, Vec::new());
    st.absorb(4, Vec::new());
    assert_eq!(parts(&st), (5, 0, Vec::new()));
}

#[test]
fn best_of_keeps_every_combination_with_the_best_score() {
    let board = mixed_board();
    let singles = combinations_of(&board.get_available_blocks(), 1);
    assert_eq!(singles.len(), 9);
    assert_eq!(board.best_of(&singles), (9, vec![cells(&[(2, 6)]), cells(&[(6, 2)])]));
}

#[test]
fn best_of_nothing_is_the_sentinel() {
    let board = mixed_board();
    assert_eq!(board.best_of(&Vec::new()), (-1, Vec::new()));
}

#[test]
fn best_of_rejected_combinations_keeps_none() {
    let board = mixed_board();
    assert_eq!(
        board.best_of(&vec![Vec::new(), cells(&[(4, 3)])]),
        (-1, Vec::new())
    );
}

#[test]
fn best_of_keeps_the_order_of_the_combinations() {
    let board = mixed_board();
    let combos = vec![cells(&[(6, 2)]), cells(&[(4, 6)]), cells(&[(2, 6)]), cells(&[(6, 2)])];
    assert_eq!(
        board.best_of(&combos),
        (9, vec![cells(&[(6, 2)]), cells(&[(2, 6)]), cells(&[(6, 2)])])
    );
}

#[test]
fn solve_stops_after_two_sizes_in_decline() {
    // size 0 exceeds the budget, size 1 scores 9 twice, sizes 2 and 3 score
    // 8 and 7; larger sizes are not tried.
    let board = mixed_board();
    let (best, combinations) = board.solve();
    assert_eq!(best, 9);
    assert_eq!(combinations, vec![cells(&[(2, 6)]), cells(&[(6, 2)])]);
}

#[test]
fn solve_gathers_equal_scores_across_sizes() {
    let board = Board::from_input(vec![
        11, 12, 14, 15, 17, 21, 22, 23, 24, 26, 27, 31, 32, 34, 35, 36, 42, 43, 46, 52, 53, 54,
        57, 62, 63, 64, 66, 67, 71, 72, 73, 74, 77,
    ]).unwrap();
    let (best, combinations) = board.solve();
    assert_eq!(best, 5);
    assert_eq!(
        combinations,
        vec![Vec::new(), cells(&[(3, 3)]), cells(&[(5, 2)]), cells(&[(3, 3), (5, 2)])]
    );
}

#[test]
fn solve_results_score_the_reported_best() {
    for board in [mixed_board(), board_with(&[(4, 4), (3, 4), (2, 4), (1, 4)]), Board::from_input(vec![
        11, 12, 14, 15, 17, 21, 22, 23, 24, 26, 27, 31, 32, 34, 35, 36, 42, 43, 46, 52, 53, 54,
        57, 62, 63, 64, 66, 67, 71, 72, 73, 74, 77,
    ]).unwrap()] {
        let (best, combinations) = board.solve();
        assert!(!combinations.is_empty());
        for combination in &combinations {
            assert_eq!(board.calc_benefit(combination).0, best);
        }
    }
}

#[test]
fn solve_on_a_small_board_prefers_to_remove_nothing() {
    let board = board_with(&[(4, 4), (3, 4), (2, 4), (1, 4)]);
    assert_eq!(board.solve(), (3, vec![Vec::new()]));
}

#[test]
fn solve_with_an_outer_cell_as_the_only_link() {
    // The empty combination scores 5; what has to be cleared for it is the
    // outer cell (1,4), through which (2,5) is reached.
    let board = board_with(&[(4, 4), (3, 4), (3, 3), (2, 3), (1, 4), (2, 5)]);
    let (best, combinations) = board.solve();
    assert_eq!((best, combinations.clone()), (5, vec![Vec::new()]));
    assert_eq!(board.calc_benefit(&combinations[0]), (5, cells(&[(1, 4)])));
}

#[test]
fn solve_without_a_pivot_finds_every_feasible_combination_equal() {
    // With the pivot gone every combination within the budget scores 0.
    let mut board = board_with(&[(2, 2), (3, 4), (1, 4)]);
    board.drop_cell(4, 4);
    let (best, combinations) = board.solve();
    assert_eq!(best, 0);
    assert_eq!(
        combinations,
        vec![
            Vec::new(),
            cells(&[(2, 2)]),
            cells(&[(3, 4)]),
            cells(&[(2, 2), (3, 4)]),
        ]
    );
}

#[test]
fn solve_without_eligible_cells() {
    let board = board_with(&[(4, 4)]);
    assert_eq!(board.solve(), (1, vec![Vec::new()]));
}

#[test]
fn solve_leaves_the_board_as_it_was() {
    let board = mixed_board();
    let before = board.get_available_blocks();
    board.solve();
    assert_eq!(board.get_available_blocks(), before);
    assert_eq!(board.live_outer_count(), 20);
}
