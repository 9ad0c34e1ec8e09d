use pente_engine::board::BoardState;
use pente_engine::evaluation::{default_automaton, EvaluatedMoveSet, PatternScorer, WIN_SCORE};
use pente_engine::search::{Search, BOUNDING_BOX_PADDING, SEARCH_DEPTH};
use pente_engine::tile::{PlayerType, TileType};

fn test_search() -> Search {
    let (dfa, weights) = default_automaton();
    Search::new(PatternScorer::new(dfa, weights))
}

#[test]
fn find_best_move_on_empty_board_returns_empty_cell() {
    let board = BoardState::new(15, 15);
    let search = test_search();

    let ((row, col), _score) = search.find_best_move(&board, PlayerType::Black, 1);

    assert!(row < board.height);
    assert!(col < board.width);
    assert_eq!(board.get_tile(row, col), TileType::Empty);
}

#[test]
fn find_best_move_near_existing_stone() {
    let mut board = BoardState::new(15, 15);
    board.set_tile(7, 7, TileType::Black);
    let search = test_search();

    let ((row, col), _score) = search.find_best_move(&board, PlayerType::White, 1);

    assert_eq!(board.get_tile(row, col), TileType::Empty);
    assert!(
        row.abs_diff(7) <= BOUNDING_BOX_PADDING + 1 && col.abs_diff(7) <= BOUNDING_BOX_PADDING + 1,
        "expected move near (7, 7), got ({row}, {col})"
    );
}

#[test]
fn find_best_move_completes_at_search_depth() {
    let board = BoardState::new(15, 15);
    let search = test_search();

    let ((row, col), _score) = search.find_best_move(&board, PlayerType::Black, SEARCH_DEPTH);

    assert!(row < board.height);
    assert!(col < board.width);
    assert_eq!(board.get_tile(row, col), TileType::Empty);
}

#[test]
fn a_winning_move_is_taken_with_its_value() {
    let mut board = BoardState::new(15, 15);
    for col in 3..7 {
        board.set_tile(7, col, TileType::White);
    }
    board.set_tile(7, 2, TileType::Black);
    let ((row, col), score) = test_search().find_best_move(&board, PlayerType::White, 2);
    assert_eq!((row, col), (7, 7));
    assert!(score >= WIN_SCORE);
    assert_eq!(score, 1953186);
}

#[test]
fn depth_zero_on_empty_board_picks_the_last_best_point() {
    // Every point of the 7x7 box around the centre is worth the same to the
    // first stone in isolation only if it is far from the edge; on an empty
    // 15x15 board the box is rows and columns 4..=10, all interior, so the
    // last of them in row order wins the tie.
    let board = BoardState::new(15, 15);
    let ((row, col), score) = test_search().find_best_move(&board, PlayerType::Black, 0);
    assert_eq!((row, col), (10, 10));
    assert_eq!(score, 20);
}

#[test]
fn depth_zero_on_a_small_board_stays_on_the_board() {
    let board = BoardState::new(5, 5);
    let ((row, col), score) = test_search().find_best_move(&board, PlayerType::White, 0);
    assert_eq!((row, col), (3, 3));
    assert_eq!(score, 20);
}

#[test]
fn depth_zero_takes_the_best_static_value() {
    let (dfa, weights) = default_automaton();
    let scorer = PatternScorer::new(dfa, weights);
    let mut board = BoardState::new(15, 15);
    for (r, c, t) in [(7, 7, TileType::Black), (7, 8, TileType::White), (8, 8, TileType::White), (6, 6, TileType::Black)] {
        board.set_tile(r, c, t);
    }
    let ((row, col), score) = test_search().find_best_move(&board, PlayerType::Black, 0);
    let base = EvaluatedMoveSet::from_board_state(&board, &scorer, PlayerType::Black);
    let mut best = i32::MIN;
    for r in base.min_row.saturating_sub(3)..=(base.max_row + 3).min(14) {
        for c in base.min_col.saturating_sub(3)..=(base.max_col + 3).min(14) {
            if board.get_tile(r, c) == TileType::Empty {
                let child = EvaluatedMoveSet::from_parent(&base, &scorer, &board, r, c);
                best = best.max(child.score_black);
                if (r, c) == (row, col) {
                    assert_eq!(child.score_black, score);
                }
            }
        }
    }
    assert_eq!(score, best);
}
