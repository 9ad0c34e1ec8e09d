use pente_engine::aho_corasick::{Match, TileDfa, TurnTileType};
use pente_engine::tile::{PlayerType, TileType};

#[test]
fn single_pattern_finds_substring() {
    let mut ac = TileDfa::new();
    let p = [TurnTileType::One, TurnTileType::Two, TurnTileType::One];
    ac.add_pattern(&p);
    ac.build();

    let text = [TurnTileType::Empty, TurnTileType::One, TurnTileType::Two, TurnTileType::One, TurnTileType::Empty];
    let m = ac.find_matches(&text);
    assert_eq!(
        m,
        vec![Match {
            start: 1,
            end: 4,
            pattern_id: 0
        }]
    );
}

#[test]
fn multiple_patterns_overlapping() {
    let mut ac = TileDfa::new();
    let id_a = ac.add_pattern(&[TurnTileType::One, TurnTileType::Two]);
    let id_b = ac.add_pattern(&[TurnTileType::Two, TurnTileType::One]);
    ac.build();

    let text = [TurnTileType::One, TurnTileType::Two, TurnTileType::One];
    let mut m = ac.find_matches(&text);
    m.sort_by_key(|x| (x.start, x.pattern_id));
    assert_eq!(
        m,
        vec![
            Match {
                start: 0,
                end: 2,
                pattern_id: id_a
            },
            Match {
                start: 1,
                end: 3,
                pattern_id: id_b
            },
        ]
    );
}

#[test]
fn failure_link_finds_suffix_pattern() {
    let mut ac = TileDfa::new();
    ac.add_pattern(&[TurnTileType::Two, TurnTileType::Two]);
    ac.build();

    let text = [TurnTileType::One, TurnTileType::Two, TurnTileType::Two, TurnTileType::Two];
    let m = ac.find_matches(&text);
    assert_eq!(m.len(), 2);
    assert!(m.iter().any(|x| x.start == 1 && x.end == 3));
    assert!(m.iter().any(|x| x.start == 2 && x.end == 4));
}

#[test]
fn ids_follow_insertion_order() {
    let mut ac = TileDfa::new();
    assert_eq!(ac.add_pattern(&[TurnTileType::One]), 0);
    assert_eq!(ac.add_pattern(&[TurnTileType::Two, TurnTileType::Two]), 1);
    assert_eq!(ac.add_pattern(&[TurnTileType::Empty]), 2);
}

#[test]
fn matches_come_in_order_of_end_then_longest_first() {
    // Patterns "2", "12" and "112" all end at the same point of "112".
    let mut ac = TileDfa::new();
    ac.add_pattern(&[TurnTileType::Two]);
    ac.add_pattern(&[TurnTileType::One, TurnTileType::Two]);
    ac.add_pattern(&[TurnTileType::One, TurnTileType::One, TurnTileType::Two]);
    ac.build();
    let m = ac.find_matches(&[TurnTileType::One, TurnTileType::One, TurnTileType::Two]);
    assert_eq!(
        m,
        vec![
            Match { start: 0, end: 3, pattern_id: 2 },
            Match { start: 1, end: 3, pattern_id: 1 },
            Match { start: 2, end: 3, pattern_id: 0 },
        ]
    );
}

#[test]
fn is_match_reports_any_occurrence() {
    let mut ac = TileDfa::new();
    ac.add_pattern(&[TurnTileType::One, TurnTileType::One]);
    ac.build();
    assert!(ac.is_match(&[TurnTileType::Two, TurnTileType::One, TurnTileType::One]));
    assert!(!ac.is_match(&[TurnTileType::One, TurnTileType::Two, TurnTileType::One]));
    assert!(!ac.is_match(&[]));
}

#[test]
fn transition_follows_failure_links() {
    let mut ac = TileDfa::new();
    ac.add_pattern(&[TurnTileType::One, TurnTileType::Two]);
    ac.build();
    let s1 = ac.transition(0, TurnTileType::One);
    assert_ne!(s1, 0);
    // "1" then "1" stays on the prefix "1".
    assert_eq!(ac.transition(s1, TurnTileType::One), s1);
    // An empty point leads back to the root.
    assert_eq!(ac.transition(s1, TurnTileType::Empty), 0);
}

#[test]
fn turn_tiles_are_relative_to_the_player() {
    assert_eq!(TurnTileType::from_tile_type(PlayerType::Black, TileType::Black), TurnTileType::One);
    assert_eq!(TurnTileType::from_tile_type(PlayerType::Black, TileType::White), TurnTileType::Two);
    assert_eq!(TurnTileType::from_tile_type(PlayerType::White, TileType::White), TurnTileType::One);
    assert_eq!(TurnTileType::from_tile_type(PlayerType::White, TileType::Empty), TurnTileType::Empty);
    assert_eq!(TurnTileType::Empty.alphabet_index(), 0);
    assert_eq!(TurnTileType::One.alphabet_index(), 1);
    assert_eq!(TurnTileType::Two.alphabet_index(), 2);
}

#[test]
fn states_are_the_pattern_prefixes() {
    let mut ac = TileDfa::new();
    ac.add_pattern(&[TurnTileType::One, TurnTileType::Two, TurnTileType::One]);
    ac.add_pattern(&[TurnTileType::Two, TurnTileType::Two]);
    ac.build();
    // No pattern starts with an empty point: the start state stays put.
    assert_eq!(ac.transition(0, TurnTileType::Empty), 0);
    assert_ne!(ac.transition(0, TurnTileType::One), 0);
    assert_ne!(ac.transition(0, TurnTileType::Two), 0);
    // "1 2" and "2 1 2" both end in the pattern prefix "1 2".
    let a = ac.transition(ac.transition(0, TurnTileType::One), TurnTileType::Two);
    let b = ac.transition(ac.transition(ac.transition(0, TurnTileType::Two), TurnTileType::One), TurnTileType::Two);
    assert_eq!(a, b);
    // "2" and "1 2 2"'s longest prefix suffix "2 2" differ.
    let c = ac.transition(0, TurnTileType::Two);
    let d = ac.transition(a, TurnTileType::Two);
    assert_ne!(c, d);
}

#[test]
fn folded_transitions_meet_on_equal_longest_prefix_suffixes() {
    let mut ac = TileDfa::new();
    ac.add_pattern(&[TurnTileType::One, TurnTileType::One, TurnTileType::Two]);
    ac.add_pattern(&[TurnTileType::Two, TurnTileType::Empty]);
    ac.build();
    let run = |t: &[TurnTileType]| t.iter().fold(0, |s, &x| ac.transition(s, x));
    // Both end in "1 1", the longest pattern prefix they end with.
    let a = run(&[TurnTileType::Two, TurnTileType::One, TurnTileType::One]);
    let b = run(&[TurnTileType::Empty, TurnTileType::Empty, TurnTileType::One, TurnTileType::One]);
    assert_eq!(a, b);
    // "1" differs from "1 1".
    assert_ne!(run(&[TurnTileType::Two, TurnTileType::One]), a);
    // Ending on an empty point after "1" leaves no pattern prefix: the start state.
    assert_eq!(run(&[TurnTileType::One, TurnTileType::Empty]), 0);
    // After "2 0 0" no suffix but the empty one starts a pattern.
    assert_eq!(run(&[TurnTileType::Two, TurnTileType::Empty, TurnTileType::Empty]), 0);
    // "2 0" is itself a pattern, so reading it ends away from the start state.
    assert_ne!(run(&[TurnTileType::Two, TurnTileType::Empty]), 0);
}
