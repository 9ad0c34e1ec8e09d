use pente_engine::tile::{parse_player, PlayerType, TileType};

#[test]
fn parse_player_reads_either_side_in_any_case() {
    assert_eq!(parse_player("black"), Ok(PlayerType::Black));
    assert_eq!(parse_player("WHITE"), Ok(PlayerType::White));
    assert_eq!(parse_player("Black"), Ok(PlayerType::Black));
}

#[test]
fn parse_player_rejects_other_names() {
    assert_eq!(
        parse_player("Red").unwrap_err(),
        "invalid --player \"red\"; expected \"black\" or \"white\""
    );
    assert_eq!(
        parse_player(" black").unwrap_err(),
        "invalid --player \" black\"; expected \"black\" or \"white\""
    );
}

#[test]
fn next_alternates_and_stones_match_players() {
    assert_eq!(PlayerType::Black.next(), PlayerType::White);
    assert_eq!(PlayerType::White.next(), PlayerType::Black);
    assert_eq!(PlayerType::White.next().next(), PlayerType::White);
    assert_eq!(TileType::from_player_type(PlayerType::Black), TileType::Black);
    assert_eq!(TileType::from_player_type(PlayerType::White), TileType::White);
}
