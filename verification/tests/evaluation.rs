use pente_engine::board::BoardState;
use pente_engine::evaluation::{
    capture_score, default_automaton, net_capture_score, parse_pattern, EvaluatedMoveSet, PatternScorer,
    CAPTURE_PAIR_VALUE, WIN_SCORE,
};
use pente_engine::aho_corasick::TurnTileType;
use pente_engine::tile::PlayerType;
use pente_engine::tile::TileType::{Black, White};

#[test]
fn incremental_matches_full_one_stone() {
    let empty_booard = BoardState::new(15, 15);
    let mut board = empty_booard.clone();
    board.set_tile(7, 7, Black);
    let (dfa, weights) = default_automaton();
    let scorer = PatternScorer::new(dfa, weights);

    let full = EvaluatedMoveSet::from_board_state(&board, &scorer, PlayerType::Black);

    // parent.player_to_play is the mover, so Black is set to play here.
    let parent = EvaluatedMoveSet::from_board_state(&empty_booard, &scorer, PlayerType::Black);
    let inc = EvaluatedMoveSet::from_parent(&parent, &scorer, &empty_booard, 7, 7);

    // Compare score_white/score_black directly rather than `.score`: full
    // and inc select `.score` from different player_to_play values.
    assert!(full.score_black != 0);
    assert_eq!(full.score_white, inc.score_white);
    assert_eq!(full.score_black, inc.score_black);
}

#[test]
fn incremental_matches_full_after_capture() {
    let (dfa, weights) = default_automaton();
    let scorer = PatternScorer::new(dfa, weights);

    // Black plays at (7, 9), bracketing White's pair at (7, 7)-(7, 8)
    // against Black's existing stone at (7, 6).
    let mut pre_board = BoardState::new(15, 15);
    pre_board.set_tile(7, 6, Black);
    pre_board.set_tile(7, 7, White);
    pre_board.set_tile(7, 8, White);

    let mut full_board = pre_board.clone();
    let captured = full_board.apply_move(7, 9, PlayerType::Black);
    assert_eq!(captured.len(), 2);
    assert_eq!(full_board.captures_black, 1);

    let full = EvaluatedMoveSet::from_board_state(&full_board, &scorer, PlayerType::Black);

    // parent.player_to_play is the mover, so Black is set to play here.
    let parent = EvaluatedMoveSet::from_board_state(&pre_board, &scorer, PlayerType::Black);
    let inc = EvaluatedMoveSet::from_parent(&parent, &scorer, &pre_board, 7, 9);

    assert_eq!(inc.captures_black, 1);
    assert_eq!(inc.captures_white, 0);
    assert_eq!(full.score_white, inc.score_white);
    assert_eq!(full.score_black, inc.score_black);
}

#[test]
fn capture_value_beats_self_open_three_but_loses_to_opponent_open_three() {
    let self_open_three_weight = 5_i32.pow(3);
    let opponent_open_three_weight = 5_i32.pow(5);
    assert!(capture_score(1) > self_open_three_weight);
    assert!(capture_score(1) < opponent_open_three_weight);
}

#[test]
fn fifth_capture_dominates_every_pattern_weight() {
    let largest_pattern_weight = 5_i32.pow(7);
    assert!(capture_score(5) > largest_pattern_weight);
    assert!(net_capture_score(5, 0) > largest_pattern_weight);
}

#[test]
fn five_in_a_row_hits_win_score() {
    let (dfa, weights) = default_automaton();
    let scorer = PatternScorer::new(dfa, weights);

    let mut board = BoardState::new(15, 15);
    for col in 3..8 {
        board.set_tile(7, col, Black);
    }

    let evaluated = EvaluatedMoveSet::from_board_state(&board, &scorer, PlayerType::Black);

    assert!(evaluated.score_black >= WIN_SCORE);
    assert!(evaluated.score_white <= -WIN_SCORE);
}

#[test]
fn four_in_a_row_does_not_reach_win_score() {
    let (dfa, weights) = default_automaton();
    let scorer = PatternScorer::new(dfa, weights);

    let mut board = BoardState::new(15, 15);
    for col in 3..7 {
        board.set_tile(7, col, Black);
    }

    let evaluated = EvaluatedMoveSet::from_board_state(&board, &scorer, PlayerType::Black);

    assert!(evaluated.score_black < WIN_SCORE);
}

#[test]
fn capture_scores_exact_values() {
    assert_eq!(WIN_SCORE, 5_i32.pow(9));
    assert_eq!(CAPTURE_PAIR_VALUE, 5_i32.pow(4));
    assert_eq!(capture_score(0), 0);
    assert_eq!(capture_score(3), 1875);
    assert_eq!(capture_score(4), 2500);
    assert_eq!(capture_score(7), WIN_SCORE);
    assert_eq!(net_capture_score(2, 3), -625);
    assert_eq!(net_capture_score(5, 4), WIN_SCORE - 2500);
}

#[test]
fn default_automaton_registers_mirrors_of_asymmetric_patterns() {
    let (dfa, weights) = default_automaton();
    // 32 shapes, 14 of them palindromes, so 32 + 18 = 50 patterns.
    assert_eq!(weights.len(), 50);
    assert_eq!(weights[0], WIN_SCORE);
    assert_eq!(weights[1], -WIN_SCORE);
    let scorer = PatternScorer::new(dfa, weights);
    // "120" and its mirror "021" both weigh 1.
    assert_eq!(scorer.score_line(&parse_pattern("120")), 1);
    assert_eq!(scorer.score_line(&parse_pattern("021")), 1);
}

#[test]
fn score_line_adds_every_occurrence() {
    let (dfa, weights) = default_automaton();
    let scorer = PatternScorer::new(dfa, weights);
    // "01110" holds one weighted shape: itself.
    assert_eq!(scorer.score_line(&parse_pattern("01110")), 125);
    // Two separate "010" shapes.
    assert_eq!(scorer.score_line(&parse_pattern("0100010")), 10);
    assert_eq!(scorer.score_line(&[]), 0);
    assert_eq!(scorer.score_line(&[TurnTileType::Empty; 9]), 0);
}

#[test]
fn parse_pattern_maps_digits() {
    assert_eq!(
        parse_pattern("0120"),
        vec![TurnTileType::Empty, TurnTileType::One, TurnTileType::Two, TurnTileType::Empty]
    );
}

#[test]
fn from_board_state_bounding_box() {
    let (dfa, weights) = default_automaton();
    let scorer = PatternScorer::new(dfa, weights);
    let empty = BoardState::new(15, 15);
    let e = EvaluatedMoveSet::from_board_state(&empty, &scorer, PlayerType::White);
    assert_eq!((e.min_row, e.max_row, e.min_col, e.max_col), (7, 7, 7, 7));
    assert_eq!(e.score_white, 0);
    assert_eq!(e.score, e.score_white);
    assert!(e.moves.is_empty());
    assert_eq!(e.move_coords, None);

    let mut board = BoardState::new(15, 15);
    board.set_tile(2, 9, Black);
    board.set_tile(11, 4, White);
    let e = EvaluatedMoveSet::from_board_state(&board, &scorer, PlayerType::Black);
    assert_eq!((e.min_row, e.max_row, e.min_col, e.max_col), (2, 11, 4, 9));
    assert_eq!(e.score, e.score_black);
}

#[test]
fn from_parent_passes_the_turn_and_grows_the_box() {
    let (dfa, weights) = default_automaton();
    let scorer = PatternScorer::new(dfa, weights);
    let board = BoardState::new(15, 15);
    let root = EvaluatedMoveSet::from_board_state(&board, &scorer, PlayerType::Black);
    let child = EvaluatedMoveSet::from_parent(&root, &scorer, &board, 3, 12);
    assert_eq!(child.player_to_play, PlayerType::White);
    assert_eq!(child.move_coords, Some((3, 12)));
    assert_eq!((child.min_row, child.max_row, child.min_col, child.max_col), (3, 7, 7, 12));
    assert_eq!(child.moves.get(&board.index(3, 12)), Some(&Black));
    assert_eq!(child.score, child.score_white);
    // A lone black stone is worth the same to Black as it costs White.
    assert_eq!(child.score_black, -child.score_white);
}

#[test]
fn incremental_matches_full_over_several_moves() {
    let (dfa, weights) = default_automaton();
    let scorer = PatternScorer::new(dfa, weights);
    let mut board = BoardState::new(15, 15);
    board.set_tile(7, 6, Black);
    board.set_tile(7, 7, White);
    board.set_tile(7, 8, White);
    let root = EvaluatedMoveSet::from_board_state(&board, &scorer, PlayerType::Black);
    let first = EvaluatedMoveSet::from_parent(&root, &scorer, &board, 7, 9);
    let second = EvaluatedMoveSet::from_parent(&first, &scorer, &board, 8, 8);
    let third = EvaluatedMoveSet::from_parent(&second, &scorer, &board, 6, 6);

    let mut played = board.clone();
    played.apply_move(7, 9, PlayerType::Black);
    played.apply_move(8, 8, PlayerType::White);
    played.apply_move(6, 6, PlayerType::Black);
    let full = EvaluatedMoveSet::from_board_state(&played, &scorer, PlayerType::White);

    assert_eq!(third.captures_black, 1);
    assert_eq!((third.score_white, third.score_black), (-680, 680));
    assert_eq!((full.score_white, full.score_black), (third.score_white, third.score_black));
}

#[test]
fn up_right_diagonals_reach_the_top_row() {
    // One Black stone at (1, 3) on an empty 5x5 board: a "010" match on its
    // row, its column and both of its diagonals, the up-right one running
    // from (4, 0) to (0, 4).
    let (dfa, weights) = default_automaton();
    let scorer = PatternScorer::new(dfa, weights);
    let mut board = BoardState::new(5, 5);
    board.set_tile(1, 3, Black);
    let e = EvaluatedMoveSet::from_board_state(&board, &scorer, PlayerType::Black);
    assert_eq!((e.score_black, e.score_white, e.score), (20, -20, 20));
    assert_eq!((e.min_row, e.max_row, e.min_col, e.max_col), (1, 1, 3, 3));
}

#[test]
fn rescoring_near_the_top_row_matches_the_full_scan() {
    let (dfa, weights) = default_automaton();
    let scorer = PatternScorer::new(dfa, weights);
    for (size, row, col) in [(5, 1, 3), (15, 1, 5), (15, 0, 0), (15, 0, 14), (15, 2, 2)] {
        let empty = BoardState::new(size, size);
        let root = EvaluatedMoveSet::from_board_state(&empty, &scorer, PlayerType::Black);
        let inc = EvaluatedMoveSet::from_parent(&root, &scorer, &empty, row, col);
        let mut board = empty.clone();
        board.set_tile(row, col, Black);
        let full = EvaluatedMoveSet::from_board_state(&board, &scorer, PlayerType::White);
        assert_eq!((inc.score_white, inc.score_black), (full.score_white, full.score_black));
        assert_eq!(inc.score, full.score);
    }
}

#[test]
fn swapping_colours_swaps_the_scores() {
    let (dfa, weights) = default_automaton();
    let scorer = PatternScorer::new(dfa, weights);
    let mut board = BoardState::new(15, 15);
    let mut swapped = BoardState::new(15, 15);
    for (r, c, t) in [(7, 6, Black), (7, 7, White), (7, 8, White), (6, 6, Black), (0, 3, Black), (8, 8, White)] {
        board.set_tile(r, c, t);
        swapped.set_tile(r, c, if t == Black { White } else { Black });
    }
    board.captures_black = 2;
    board.captures_white = 1;
    swapped.captures_black = 1;
    swapped.captures_white = 2;
    let e = EvaluatedMoveSet::from_board_state(&board, &scorer, PlayerType::Black);
    let e2 = EvaluatedMoveSet::from_board_state(&swapped, &scorer, PlayerType::White);
    assert_eq!(e2.score_white, e.score_black);
    assert_eq!(e2.score_black, e.score_white);
    assert_eq!(e2.score, e.score);
    assert!(e.score_black != e.score_white);
}

#[test]
fn a_line_scores_the_same_read_backwards() {
    let (dfa, weights) = default_automaton();
    let scorer = PatternScorer::new(dfa, weights);
    let long = "0110210221012".repeat(19);
    for text in ["0110102110", "2110", "01110", "1220221010", "0100010", long.as_str()] {
        let line = parse_pattern(text);
        let mut rev = line.clone();
        rev.reverse();
        assert_eq!(scorer.score_line(&line), scorer.score_line(&rev));
    }
}

#[test]
fn long_lines_add_up_exactly_until_they_saturate() {
    let (dfa, weights) = default_automaton();
    let scorer = PatternScorer::new(dfa, weights);
    // 250 own stones in a row: 246 rows of five.
    assert_eq!(scorer.score_line(&vec![TurnTileType::One; 250]), 246 * WIN_SCORE);
    // 1200 of them would make 1196 * 5^9, past the top of i32.
    assert_eq!(scorer.score_line(&vec![TurnTileType::One; 1200]), i32::MAX);
}

#[test]
fn try_from_board_state_refuses_a_board_whose_score_overflows() {
    let (dfa, weights) = default_automaton();
    let scorer = PatternScorer::new(dfa, weights);
    let mut board = BoardState::new(15, 15);
    board.set_tile(7, 7, Black);
    board.set_tile(7, 8, White);
    let full = EvaluatedMoveSet::from_board_state(&board, &scorer, PlayerType::White);
    let tried = EvaluatedMoveSet::try_from_board_state(&board, &scorer, PlayerType::White).expect("fits");
    assert!(EvaluatedMoveSet::root_fits_check(&board, &scorer));
    assert_eq!((tried.score_white, tried.score_black, tried.score), (full.score_white, full.score_black, full.score));
    // A 30x30 board full of Black stones holds thousands of rows of five.
    let mut crowded = BoardState::new(30, 30);
    for r in 0..30 {
        for c in 0..30 {
            crowded.set_tile(r, c, Black);
        }
    }
    assert!(!EvaluatedMoveSet::root_fits_check(&crowded, &scorer));
    assert!(EvaluatedMoveSet::try_from_board_state(&crowded, &scorer, PlayerType::Black).is_none());
}
