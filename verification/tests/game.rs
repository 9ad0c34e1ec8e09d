use pente_engine::board::BoardState;
use pente_engine::game::{
    check_win, edge_sprite, encode_board, five_in_a_row, game_step, is_special, make_ai_move_sync, url_encode,
    display_cell, GameAction, GameEvent, Phase, BOARD_SIZE, DISPLAY_TILES, SP_BORDER_CENTER, SP_GREEN,
    SP_INNER_CORNER, SP_NORMAL, SP_OUTER_CORNER, SP_SPECIAL, SP_YELLOW,
};
use pente_engine::tile::{PlayerType, TileType};

#[test]
fn five_in_a_row_in_each_direction() {
    for (dr, dc, r0, c0) in [(0isize, 1isize, 3usize, 2usize), (1, 0, 2, 3), (1, 1, 1, 1), (1, -1, 2, 8)] {
        let mut board = BoardState::new(10, 10);
        for i in 0..5isize {
            let r = (r0 as isize + dr * i) as usize;
            let c = (c0 as isize + dc * i) as usize;
            board.set_tile(r, c, TileType::White);
        }
        assert_eq!(five_in_a_row(&board), Some(PlayerType::White));
    }
}

#[test]
fn four_in_a_row_or_a_broken_five_is_no_win() {
    let mut board = BoardState::new(10, 10);
    for c in 0..4 {
        board.set_tile(5, c, TileType::Black);
    }
    assert_eq!(five_in_a_row(&board), None);
    board.set_tile(5, 5, TileType::Black);
    assert_eq!(five_in_a_row(&board), None);
    board.set_tile(5, 4, TileType::White);
    assert_eq!(five_in_a_row(&board), None);
    board.set_tile(5, 4, TileType::Black);
    assert_eq!(five_in_a_row(&board), Some(PlayerType::Black));
}

#[test]
fn first_five_in_row_order_decides() {
    let mut board = BoardState::new(10, 10);
    for c in 0..5 {
        board.set_tile(7, c, TileType::Black);
        board.set_tile(2, c + 3, TileType::White);
    }
    assert_eq!(five_in_a_row(&board), Some(PlayerType::White));
}

#[test]
fn check_win_by_captures_first() {
    let mut board = BoardState::new(10, 10);
    assert_eq!(check_win(&board), None);
    board.captures_white = 5;
    assert_eq!(check_win(&board), Some(PlayerType::White));
    board.captures_black = 7;
    assert_eq!(check_win(&board), Some(PlayerType::Black));
    board.captures_black = 4;
    board.captures_white = 4;
    for r in 0..5 {
        board.set_tile(r, 0, TileType::Black);
    }
    assert_eq!(check_win(&board), Some(PlayerType::Black));
}

#[test]
fn encode_board_writes_the_compact_grid() {
    let mut board = BoardState::new(3, 2);
    board.set_tile(0, 1, TileType::Black);
    board.set_tile(1, 2, TileType::White);
    assert_eq!(encode_board(&board), "3x2:.b...w");
    assert_eq!(encode_board(&BoardState::new(0, 12)), "0x12:");
}

#[test]
fn encoded_board_parses_back() {
    let mut board = BoardState::new(19, 19);
    board.set_tile(9, 9, TileType::Black);
    board.set_tile(0, 18, TileType::White);
    let back = BoardState::from_compact_grid(&encode_board(&board)).expect("parse");
    assert_eq!(back, board);
}

#[test]
fn url_encode_escapes_colons() {
    assert_eq!(url_encode("3x2:.b...w"), "3x2%3A.b...w");
    assert_eq!(url_encode("::"), "%3A%3A");
    assert_eq!(url_encode("é:"), "é%3A");
}

#[test]
fn special_points_of_the_board() {
    let c = BOARD_SIZE / 2;
    assert!(is_special(c, c));
    assert!(is_special(c, c + 6));
    assert!(is_special(c - 6, c));
    assert!(is_special(c + 3, c - 3));
    assert!(is_special(c - 6, c - 6));
    assert!(!is_special(c, c + 3));
    assert!(!is_special(c + 1, c + 2));
    assert!(!is_special(0, 0));
}

#[test]
fn edge_sprite_picks_centre_left_or_right() {
    let left = [(3, 2), (4, 2), (5, 2)];
    let right = [(0, 5), (1, 5), (2, 5)];
    assert_eq!(edge_sprite(11, 11, &left, (6, 4), &right, 2, 2), (6, 4));
    assert_eq!(edge_sprite(0, 11, &left, (6, 4), &right, 2, 2), (5, 2));
    assert_eq!(edge_sprite(4, 11, &left, (6, 4), &right, 1, 0), (5, 2));
    assert_eq!(edge_sprite(12, 11, &left, (6, 4), &right, 2, 2), (2, 5));
    assert_eq!(edge_sprite(13, 11, &left, (6, 4), &right, 1, 0), (1, 5));
}

#[test]
fn ai_blocks_an_open_four_and_plays_white() {
    let mut board = BoardState::new(BOARD_SIZE, BOARD_SIZE);
    for c in 5..9 {
        board.set_tile(9, c, TileType::Black);
    }
    board.set_tile(9, 4, TileType::White);
    let winner = make_ai_move_sync(&mut board);
    assert_eq!(winner, None);
    assert_eq!(board.get_tile(9, 9), TileType::White);
}

#[test]
fn game_step_plays_the_human_click_and_asks_the_ai() {
    let mut board = BoardState::new(19, 19);
    let (phase, action) = game_step(&mut board, Phase::Human, GameEvent::Click(9, 9));
    assert_eq!((phase, action), (Phase::AiThinking, GameAction::AskAi));
    assert_eq!(board.get_tile(9, 9), TileType::Black);
    // A click on an occupied point, or off the board, changes nothing.
    let before = board.clone();
    assert_eq!(game_step(&mut board, Phase::Human, GameEvent::Click(9, 9)), (Phase::Human, GameAction::Nothing));
    assert_eq!(game_step(&mut board, Phase::Human, GameEvent::Click(19, 0)), (Phase::Human, GameAction::Nothing));
    assert_eq!(board, before);
}

#[test]
fn game_step_plays_the_ai_reply_and_detects_wins() {
    let mut board = BoardState::new(19, 19);
    let (phase, action) = game_step(&mut board, Phase::AiThinking, GameEvent::AiMove(3, 4));
    assert_eq!((phase, action), (Phase::Human, GameAction::Nothing));
    assert_eq!(board.get_tile(3, 4), TileType::White);
    for col in 0..4 {
        board.set_tile(10, col, TileType::Black);
    }
    let (phase, action) = game_step(&mut board, Phase::Human, GameEvent::Click(10, 4));
    assert_eq!((phase, action), (Phase::Over(PlayerType::Black), GameAction::Nothing));
    // Once the game is over only a reset does anything.
    assert_eq!(game_step(&mut board, phase, GameEvent::Click(0, 18)), (phase, GameAction::Nothing));
    assert_eq!(board.get_tile(0, 18), TileType::Empty);
    assert_eq!(game_step(&mut board, phase, GameEvent::Reset), (Phase::Human, GameAction::Nothing));
    assert_eq!(board, BoardState::new(19, 19));
}

#[test]
fn game_step_takes_the_ai_outcome() {
    let mut board = BoardState::new(19, 19);
    assert_eq!(
        game_step(&mut board, Phase::AiThinking, GameEvent::AiPlayed(Some(PlayerType::White))),
        (Phase::Over(PlayerType::White), GameAction::Nothing)
    );
    assert_eq!(game_step(&mut board, Phase::AiThinking, GameEvent::AiPlayed(None)), (Phase::Human, GameAction::Nothing));
    assert_eq!(game_step(&mut board, Phase::AiThinking, GameEvent::AiFailed), (Phase::AiError, GameAction::Nothing));
    assert_eq!(game_step(&mut board, Phase::AiError, GameEvent::AiMove(1, 1)), (Phase::AiError, GameAction::Nothing));
    assert_eq!(board, BoardState::new(19, 19));
}

#[test]
fn display_cells_frame_the_board() {
    let mut board = BoardState::new(BOARD_SIZE, BOARD_SIZE);
    board.set_tile(9, 9, TileType::Black);
    board.set_tile(0, 1, TileType::White);
    let last = DISPLAY_TILES - 1;
    for (dr, dc, turns) in [(0, 0, 0), (0, last, 1), (last, last, 2), (last, 0, 3)] {
        let cell = display_cell(&board, dr, dc);
        assert_eq!((cell.sprite, cell.quarter_turns, cell.stone), (SP_OUTER_CORNER, turns, None));
    }
    let top = display_cell(&board, 0, 11);
    assert_eq!((top.sprite, top.quarter_turns), (SP_BORDER_CENTER[3], 0));
    assert_eq!(display_cell(&board, 0, 1).sprite, (3, 2));
    let right = display_cell(&board, 5, last);
    assert_eq!((right.sprite, right.quarter_turns), ((4, 2), 1));
    let bottom = display_cell(&board, last, 3);
    assert_eq!((bottom.sprite, bottom.quarter_turns), ((0, 5), 2));
    let inner = display_cell(&board, 1, 1);
    assert_eq!((inner.sprite, inner.quarter_turns), (SP_INNER_CORNER, 0));
    assert_eq!(display_cell(&board, 1, 11).sprite, SP_BORDER_CENTER[2]);
    let centre = display_cell(&board, 11, 11);
    assert_eq!((centre.sprite, centre.stone), (SP_SPECIAL, Some(SP_GREEN)));
    let corner_point = display_cell(&board, 2, 3);
    assert_eq!((corner_point.sprite, corner_point.stone), (SP_NORMAL, Some(SP_YELLOW)));
    assert_eq!(display_cell(&board, 2, 2).stone, None);
}
