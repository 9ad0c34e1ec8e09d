use pente_engine::board::{find_captures, BoardState};
use pente_engine::tile::{PlayerType, TileType};

#[test]
fn apply_move_captures_bracketed_pair() {
    let mut board = BoardState::new(9, 9);
    board.set_tile(5, 5, TileType::White);
    board.set_tile(5, 6, TileType::White);
    board.set_tile(5, 4, TileType::Black);

    let captured = board.apply_move(5, 7, PlayerType::Black);

    assert_eq!(captured.len(), 2);
    assert!(captured.contains(&(5, 5)));
    assert!(captured.contains(&(5, 6)));
    assert_eq!(board.get_tile(5, 5), TileType::Empty);
    assert_eq!(board.get_tile(5, 6), TileType::Empty);
    assert_eq!(board.get_tile(5, 7), TileType::Black);
    assert_eq!(board.captures_black, 1);
    assert_eq!(board.captures_white, 0);
}

#[test]
fn apply_move_does_not_capture_three_in_a_row() {
    let mut board = BoardState::new(9, 9);
    board.set_tile(5, 5, TileType::White);
    board.set_tile(5, 6, TileType::White);
    board.set_tile(5, 7, TileType::White);
    board.set_tile(5, 4, TileType::Black);

    let captured = board.apply_move(5, 8, PlayerType::Black);

    assert!(captured.is_empty());
    assert_eq!(board.get_tile(5, 5), TileType::White);
    assert_eq!(board.captures_black, 0);
}

#[test]
fn apply_move_can_capture_in_multiple_directions_at_once() {
    // Black plays at (5,5); it brackets a white pair to the east and another
    // white pair to the south in the same move.
    let mut board = BoardState::new(9, 9);
    board.set_tile(5, 6, TileType::White);
    board.set_tile(5, 7, TileType::White);
    board.set_tile(5, 8, TileType::Black);

    board.set_tile(6, 5, TileType::White);
    board.set_tile(7, 5, TileType::White);
    board.set_tile(8, 5, TileType::Black);

    let captured = board.apply_move(5, 5, PlayerType::Black);

    assert_eq!(captured.len(), 4);
    assert_eq!(board.captures_black, 2);
}

#[test]
fn captures_are_reported_direction_by_direction_nearer_stone_first() {
    // Black at (4,4) brackets pairs to the north-west and to the east.
    let mut board = BoardState::new(9, 9);
    board.set_tile(3, 3, TileType::White);
    board.set_tile(2, 2, TileType::White);
    board.set_tile(1, 1, TileType::Black);
    board.set_tile(4, 5, TileType::White);
    board.set_tile(4, 6, TileType::White);
    board.set_tile(4, 7, TileType::Black);
    let found = board.find_captures(4, 4, PlayerType::Black);
    assert_eq!(found, vec![(3, 3), (2, 2), (4, 5), (4, 6)]);
    // find_captures does not change the board.
    assert_eq!(board.get_tile(3, 3), TileType::White);
    assert_eq!(board.captures_black, 0);
}

#[test]
fn no_capture_off_the_board_edge() {
    // The bracketing point would lie off the board.
    let mut board = BoardState::new(5, 5);
    board.set_tile(0, 1, TileType::White);
    board.set_tile(0, 0, TileType::White);
    let captured = board.apply_move(0, 2, PlayerType::Black);
    assert!(captured.is_empty());
    assert_eq!(board.get_tile(0, 2), TileType::Black);
}

#[test]
fn white_captures_count_for_white() {
    let mut board = BoardState::new(6, 6);
    board.set_tile(2, 0, TileType::White);
    board.set_tile(2, 1, TileType::Black);
    board.set_tile(2, 2, TileType::Black);
    let captured = board.apply_move(2, 3, PlayerType::White);
    assert_eq!(captured, vec![(2, 2), (2, 1)]);
    assert_eq!(board.captures_white, 1);
    assert_eq!(board.captures_black, 0);
}

#[test]
fn free_find_captures_reads_through_the_accessor() {
    let mut board = BoardState::new(6, 6);
    board.set_tile(1, 1, TileType::Black);
    board.set_tile(2, 1, TileType::Black);
    board.set_tile(3, 1, TileType::White);
    let found = find_captures(6, 6, 0, 1, PlayerType::White, |r, c| board.get_tile(r, c));
    assert_eq!(found, vec![(1, 1), (2, 1)]);
}

#[test]
fn index_is_row_major() {
    let board = BoardState::new(7, 3);
    assert_eq!(board.index(0, 0), 0);
    assert_eq!(board.index(2, 3), 17);
    assert_eq!(board.tiles.len(), 21);
    assert!(board.tiles.iter().all(|t| *t == TileType::Empty));
}

#[test]
fn from_position_str_parses_compact_grid() {
    let board = BoardState::from_compact_grid(
        "3x3:\
         ...\
         .b.\
         ...",
    )
    .expect("parse");
    assert_eq!(board.width, 3);
    assert_eq!(board.get_tile(1, 1), TileType::Black);
}

#[test]
fn from_compact_grid_accepts_newline_header_spaces_and_either_case() {
    let board = BoardState::from_compact_grid("  +2x2\n b -\n W w \n").expect("parse");
    assert_eq!((board.width, board.height), (2, 2));
    assert_eq!(board.tiles, vec![TileType::Black, TileType::Empty, TileType::White, TileType::White]);
    assert_eq!(board.captures_white, 0);
    assert_eq!(board.captures_black, 0);
}

#[test]
fn from_compact_grid_reports_each_error() {
    assert_eq!(
        BoardState::from_compact_grid("3x3").unwrap_err(),
        "expected WxH:grid or WxH newline grid"
    );
    assert_eq!(
        BoardState::from_compact_grid("3y3:").unwrap_err(),
        "expected WxH dimensions (e.g. 15x15)"
    );
    assert_eq!(BoardState::from_compact_grid("ax3:").unwrap_err(), "invalid width: a");
    assert_eq!(BoardState::from_compact_grid(" 3 x3:").unwrap_err(), "invalid width: 3 ");
    assert_eq!(BoardState::from_compact_grid("3x-1:").unwrap_err(), "invalid height: -1");
    assert_eq!(
        BoardState::from_compact_grid("99999999999999999999x1:").unwrap_err(),
        "invalid width: 99999999999999999999"
    );
    assert_eq!(
        BoardState::from_compact_grid("4294967296x4294967296:").unwrap_err(),
        "board dimensions overflow"
    );
    assert_eq!(
        BoardState::from_compact_grid("2x2:...").unwrap_err(),
        "expected 4 cells, got 3"
    );
    assert_eq!(
        BoardState::from_compact_grid("2x1:.z").unwrap_err(),
        "invalid cell character: 'z'"
    );
    // The cell count is checked before the characters.
    assert_eq!(
        BoardState::from_compact_grid("2x1:zzz").unwrap_err(),
        "expected 2 cells, got 3"
    );
}

#[test]
fn captures_do_not_read_the_played_point() {
    let mut board = BoardState::new(6, 6);
    board.set_tile(2, 3, TileType::White);
    board.set_tile(2, 4, TileType::White);
    board.set_tile(2, 5, TileType::Black);
    let with_empty = board.find_captures(2, 2, PlayerType::Black);
    board.set_tile(2, 2, TileType::White);
    let with_white = board.find_captures(2, 2, PlayerType::Black);
    assert_eq!(with_empty, vec![(2, 3), (2, 4)]);
    assert_eq!(with_white, with_empty);
}
