use mimic_solver::board::Board;
use mimic_solver::grid::Cell;

fn cells(pairs: &[(u8, u8)]) -> Vec<Cell> {
    pairs.iter().map(|&(row, col)| Cell { row, col }).collect()
}

fn live_cells(board: &Board) -> Vec<(u8, u8)> {
    let mut out = Vec::new();
    for row in 1..=7u8 {
        for col in 1..=7u8 {
            if board.value_at(row, col) {
                out.push((row, col));
            }
        }
    }
    out
}

fn board_with(live: &[(u8, u8)]) -> Board {
    let mut board = Board::new();
    for row in 1..=7u8 {
        for col in 1..=7u8 {
            if !live.contains(&(row, col)) {
                board.drop_cell(row, col);
            }
        }
    }
    board
}

fn mixed_board() -> Board {
    Board::from_input(vec![
        14, 22, 23, 24, 25, 27, 31, 32, 33, 35, 36, 42, 43, 45, 52, 53, 55, 66, 77,
    ]).unwrap()
}

#[test]
fn empty_combination_on_a_new_board_exceeds_the_budget() {
    // 22 cells of the ring stay reachable, far more than may be cleared.
    let board = Board::new();
    let reached = board.get_reachable_cells();
    assert_eq!(reached.iter().filter(|c| !c.is_outer()).count(), 25);
    assert_eq!(reached.iter().filter(|c| c.is_outer()).count(), 22);
    assert_eq!(board.calc_benefit(&Vec::new()), (-1, Vec::new()));
}

#[test]
fn empty_combination_scores_the_reachable_interior() {
    let board = board_with(&[(4, 4), (3, 4), (2, 4), (1, 4)]);
    let reached = board.get_reachable_cells();
    let interior = reached.iter().filter(|c| !c.is_outer()).count();
    assert_eq!(interior, 3);
    assert_eq!(board.calc_benefit(&Vec::new()), (3, cells(&[(1, 4)])));
}

#[test]
fn walling_in_the_pivot_scores_one() {
    let board = Board::new();
    let wall = cells(&[(3, 4), (4, 3), (4, 5), (5, 3), (5, 5), (5, 4)]);
    assert_eq!(board.calc_benefit(&wall), (1, wall.clone()));
}

#[test]
fn removing_the_pivot_scores_nothing() {
    let board = Board::new();
    assert_eq!(board.calc_benefit(&cells(&[(4, 4)])), (0, cells(&[(4, 4)])));
}

#[test]
fn score_counts_interior_cells_only() {
    let board = mixed_board();
    let (score, removal) = board.calc_benefit(&cells(&[(2, 6)]));
    assert_eq!(score, 9);
    assert_eq!(
        removal,
        cells(&[
            (3, 7), (4, 7), (5, 7), (6, 1), (6, 7), (7, 1), (7, 3), (7, 4), (7, 5), (2, 6),
        ])
    );
}

#[test]
fn effective_removal_is_border_remainder_then_candidates() {
    let board = mixed_board();
    let (score, removal) = board.calc_benefit(&cells(&[(6, 2)]));
    assert_eq!(score, 9);
    assert_eq!(
        removal,
        cells(&[
            (1, 6), (2, 7), (3, 7), (4, 7), (5, 7), (6, 7), (7, 3), (7, 4), (7, 5), (6, 2),
        ])
    );
    assert_eq!(removal.len(), 10);
}

#[test]
fn budget_of_ten_is_still_accepted() {
    // nine border cells and one candidate
    let board = mixed_board();
    let (score, removal) = board.calc_benefit(&cells(&[(2, 6)]));
    assert_eq!(removal.len(), 10);
    assert!(score >= 0);
}

#[test]
fn over_budget_is_rejected() {
    // eleven border cells stay reachable beside the one candidate
    let board = mixed_board();
    assert_eq!(board.calc_benefit(&cells(&[(4, 3)])), (-1, Vec::new()));
    assert_eq!(board.calc_benefit(&Vec::new()), (-1, Vec::new()));
}

#[test]
fn eleven_candidates_are_rejected() {
    let board = Board::new();
    let eleven: Vec<Cell> = board.get_available_blocks().into_iter().take(11).collect();
    assert_eq!(eleven.len(), 11);
    assert_eq!(board.calc_benefit(&eleven), (-1, Vec::new()));
}

#[test]
fn every_single_candidate_on_the_mixed_board() {
    let board = mixed_board();
    let expected: Vec<((u8, u8), isize)> = vec![
        ((2, 6), 9),
        ((3, 6), 8),
        ((4, 3), -1),
        ((4, 5), 2),
        ((4, 6), 5),
        ((5, 6), 6),
        ((6, 2), 9),
        ((6, 4), 8),
        ((6, 5), 7),
    ];
    let available = board.get_available_blocks();
    assert_eq!(available.len(), expected.len());
    for (cell, ((row, col), score)) in available.iter().zip(expected) {
        assert_eq!(*cell, Cell { row, col });
        assert_eq!(board.calc_benefit(&vec![*cell]).0, score);
    }
}

#[test]
fn scoring_leaves_the_board_as_it_was() {
    let board = mixed_board();
    let before = (live_cells(&board), board.live_outer_count());
    board.calc_benefit(&cells(&[(2, 6), (6, 2)]));
    board.calc_benefit(&Vec::new());
    assert_eq!((live_cells(&board), board.live_outer_count()), before);
}

#[test]
fn collapse_is_applied_before_scoring() {
    // Without (2,4) the outer cell (1,4) has no live neighbour left and falls.
    let board = board_with(&[(4, 4), (3, 4), (2, 4), (1, 4)]);
    let candidate = cells(&[(2, 4)]);
    let mut imagined = board.create_imagine_board(&candidate);
    assert!(imagined.value_at(1, 4));
    assert!(imagined.lacks_support(&Cell { row: 1, col: 4 }));
    imagined.remove_redundant_blocks();
    assert_eq!(live_cells(&imagined), vec![(3, 4), (4, 4)]);
    let (score, removal) = board.calc_benefit(&candidate);
    assert_eq!(score, 2);
    assert!(removal.contains(&Cell { row: 2, col: 4 }));
    // the fallen cell is no longer reachable, so it is not part of the
    // border remainder
    assert_eq!(removal, candidate);
}

#[test]
fn candidates_off_the_board_count_against_the_budget() {
    let board = board_with(&[(4, 4)]);
    let ten: Vec<Cell> = (0..10).map(|i| Cell { row: 0, col: i }).collect();
    assert_eq!(board.calc_benefit(&ten), (1, ten.clone()));
    let eleven: Vec<Cell> = (0..11).map(|i| Cell { row: 0, col: i }).collect();
    assert_eq!(board.calc_benefit(&eleven), (-1, Vec::new()));
}
