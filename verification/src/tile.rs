//! Stone colours and players.

use vstd::prelude::*;
use crate::text::{ascii_lower, ascii_lowercase, str_debug, str_debug_text};

verus! {

/// What occupies a point of the board.
#[derive(Copy, Clone, Debug, PartialEq, Eq, Hash, Structural)]
pub enum TileType {
    Black,
    White,
    Empty,
}

/// One of the two players.
#[derive(Copy, Clone, Debug, PartialEq, Eq, Hash, Structural)]
pub enum PlayerType {
    Black,
    White,
}

/// The stone that `player` places.
pub open spec fn stone_of(player: PlayerType) -> TileType {
    match player {
        PlayerType::Black => TileType::Black,
        PlayerType::White => TileType::White,
    }
}

/// The player who moves after `player`.
pub open spec fn opponent(player: PlayerType) -> PlayerType {
    match player {
        PlayerType::Black => PlayerType::White,
        PlayerType::White => PlayerType::Black,
    }
}

/// The turn passes back after two moves.
pub proof fn lemma_opponent_involution(player: PlayerType)
    ensures
        opponent(opponent(player)) == player,
        opponent(player) != player,
{
}

impl TileType {
    pub fn from_player_type(player_type: PlayerType) -> (tile: Self)
        ensures
            tile == stone_of(player_type),
    {
        match player_type {
            PlayerType::Black => TileType::Black,
            PlayerType::White => TileType::White,
        }
    }
}

impl PlayerType {
    pub fn next(self) -> (other: Self)
        ensures
            other == opponent(self),
    {
        match self {
            PlayerType::Black => PlayerType::White,
            PlayerType::White => PlayerType::Black,
        }
    }
}

/// The player a lower-case name stands for.
pub open spec fn player_named(name: Seq<char>) -> Option<PlayerType> {
    if name == "black"@ {
        Some(PlayerType::Black)
    } else if name == "white"@ {
        Some(PlayerType::White)
    } else {
        None
    }
}

/// Reads a side, "black" or "white", in any ASCII case.
pub fn parse_player(s: &str) -> (r: Result<PlayerType, String>)
    ensures
        ({
            let lower = s@.map_values(|c: char| ascii_lower(c));
            match r {
                Ok(p) => player_named(lower) == Some(p),
                Err(e) => player_named(lower) is None && e@ == "invalid --player "@ + str_debug_text(lower)
                    + "; expected \"black\" or \"white\""@,
            }
        }),
{
    let lower = ascii_lowercase(s);
    let black = String::from_str("black");
    let white = String::from_str("white");
    if lower == black {
        Ok(PlayerType::Black)
    } else if lower == white {
        Ok(PlayerType::White)
    } else {
        let mut m = String::from_str("invalid --player ");
        let shown = str_debug(lower.as_str());
        m.append(shown.as_str());
        m.append("; expected \"black\" or \"white\"");
        Err(m)
    }
}

} // verus!
