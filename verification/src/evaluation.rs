//! Incremental and full-board pattern scoring using [`crate::aho_corasick::TileDfa`].

use vstd::prelude::*;
use std::collections::HashMap;
use crate::aho_corasick::{
    is_occurrence, match_precedes, matches_in_order, turn_tile, Match, TileDfa, TurnTileType,
};
use crate::board::{captures_spec, find_captures, reads_as, lemma_captures_shape, lemma_cell_in_board, BoardState};
use crate::tile::{opponent, stone_of, PlayerType, TileType};

verus! {

/// Overlay moves keyed by flat board index for O(1) lookup. Values are
/// stones played on top of the board grid, or `Empty` where a capture
/// cleared a point.
pub type MoveMap = HashMap<usize, TileType>;

/// Pattern scores aligned with [`default_automaton`] insertion order.
pub type PatternWeights = Vec<i32>;

/// `x` clamped to the range of `i32`.
pub open spec fn clamp_i32(x: int) -> int {
    if x > i32::MAX {
        i32::MAX as int
    } else if x < i32::MIN {
        i32::MIN as int
    } else {
        x
    }
}

/// The sum of `x` and `y`, clamped to the range of `i32`.
fn saturating_add_i32(x: i32, y: i32) -> (r: i32)
    ensures
        r == clamp_i32(x + y),
{
    match x.checked_add(y) {
        Some(v) => v,
        None => if y > 0 {
            i32::MAX
        } else {
            i32::MIN
        },
    }
}

/// Shared ceiling for either way of winning Pente outright (5 captured pairs
/// or 5 in a row). Far above any other pattern weight (the largest is 5^7 =
/// 78125 for a live four), so a winning position always dominates the score
/// regardless of what else is on the board. It is 5^9.
pub const WIN_SCORE: i32 = 1953125;

/// Score contributed by one captured pair below the win threshold: 5^4. It
/// sits between the weight of making your own open three ("01110" = 5^3) and
/// the weight of an opponent's open three going unanswered ("02220" = 5^5): a
/// capture is a better move than just extending your own three, but it
/// should never be taken in place of blocking a real threat from the opponent.
pub const CAPTURE_PAIR_VALUE: i32 = 625;

/// The standard Pente win-by-capture threshold.
pub const CAPTURE_WIN_PAIRS: u32 = 5;

/// Score contributed by one player's captured pairs, in isolation.
pub open spec fn capture_value(pairs: u32) -> int {
    if pairs >= CAPTURE_WIN_PAIRS {
        WIN_SCORE as int
    } else {
        CAPTURE_PAIR_VALUE * pairs
    }
}

/// Score contributed by one player's captured pairs, in isolation: the 5th
/// pair hits `WIN_SCORE`, same as five-in-a-row.
pub fn capture_score(pairs: u32) -> (score: i32)
    ensures
        score == capture_value(pairs),
{
    if pairs >= CAPTURE_WIN_PAIRS {
        WIN_SCORE
    } else {
        CAPTURE_PAIR_VALUE * pairs as i32
    }
}

/// More captured pairs never score less, and five or more score a win.
pub proof fn lemma_capture_value_monotone(a: u32, b: u32)
    requires
        a <= b,
    ensures
        0 <= capture_value(a) <= capture_value(b) <= WIN_SCORE,
        b >= CAPTURE_WIN_PAIRS ==> capture_value(b) == WIN_SCORE,
{
}

/// Capture score from one player's perspective: their own captures are good,
/// captures made against them are equally bad.
pub fn net_capture_score(own_pairs: u32, opponent_pairs: u32) -> (score: i32)
    ensures
        score == capture_value(own_pairs) - capture_value(opponent_pairs),
{
    capture_score(own_pairs) - capture_score(opponent_pairs)
}

/// The tile a pattern character stands for: `0` empty, `1` the player to
/// move, `2` the opponent.
pub open spec fn pattern_tile(ch: char) -> TurnTileType {
    if ch == '1' {
        TurnTileType::One
    } else if ch == '2' {
        TurnTileType::Two
    } else {
        TurnTileType::Empty
    }
}

/// Every character of `s` is `0`, `1` or `2`.
pub open spec fn is_pattern_text(s: Seq<char>) -> bool {
    forall|i: int| 0 <= i < s.len() ==> #[trigger] s[i] == '0' || s[i] == '1' || s[i] == '2'
}

/// Pattern strings use `0` = empty, `1` = the player to move, `2` = the opponent.
pub fn parse_pattern(s: &str) -> (tiles: Vec<TurnTileType>)
    requires
        is_pattern_text(s@),
    ensures
        tiles@ == s@.map_values(|ch: char| pattern_tile(ch)),
{
    let n = s.unicode_len();
    let mut tiles = Vec::new();
    let mut i: usize = 0;
    while i < n
        invariant
            n == s@.len(),
            is_pattern_text(s@),
            0 <= i <= n,
            tiles@ == s@.take(i as int).map_values(|ch: char| pattern_tile(ch)),
        decreases n - i,
    {
        let ch = s.get_char(i);
        let t = if ch == '0' {
            TurnTileType::Empty
        } else if ch == '1' {
            TurnTileType::One
        } else {
            TurnTileType::Two
        };
        assert(s@[i as int] == '0' || s@[i as int] == '1' || s@[i as int] == '2');
        tiles.push(t);
        i += 1;
        assert(tiles@ =~= s@.take(i as int).map_values(|ch: char| pattern_tile(ch)));
    }
    assert(s@.take(n as int) =~= s@);
    tiles
}

/// The engine's pattern set with its weights. 1 indicates the currently to
/// move player's piece, 2 indicates their opponent's piece.
///
/// Five (or more) in a row is an outright win, so it gets the same ceiling
/// as the capture win condition (see `WIN_SCORE`). A run of 6+ in a row
/// contains multiple overlapping "11111" matches, which just multiplies an
/// already-dominant score.
pub const PATTERN_SPECS: [(&'static str, i32); 32] = [
    ("11111", WIN_SCORE),
    ("22222", -WIN_SCORE),
    ("120", 1),
    ("210", -1),
    ("010", 5),
    ("020", -5),
    ("2110", -125 + 5),
    ("1220", 125 - 25),
    ("0110", 25),
    ("0220", -25),
    ("21110", 25),
    ("12220", -25),
    ("21010", 1),
    ("12020", -1),
    ("01110", 125),
    ("02220", -3125),
    ("01010", 5),
    ("02020", -5),
    ("211110", 125),
    ("122220", -78125),
    ("210110", 25),
    ("120220", -25),
    ("211010", 25),
    ("122020", -25),
    ("011110", 15625),
    ("022220", -78125),
    ("010110", 125),
    ("020220", -3125),
    ("11011", 5),
    ("22022", -78125),
    ("11101", 125),
    ("22202", -78125),
];

/// Every entry of the pattern table is a pattern text of three to six
/// points, weighing a win either way or at most 5^7 either way.
pub proof fn lemma_pattern_table_valid()
    ensures
        forall|i: int|
            0 <= i < 32 ==> is_pattern_text(#[trigger] PATTERN_SPECS[i].0@) && 3 <= PATTERN_SPECS[i].0@.len()
                <= 6 && (PATTERN_SPECS[i].1 == WIN_SCORE || PATTERN_SPECS[i].1 == -WIN_SCORE || -78125
                <= PATTERN_SPECS[i].1 <= 78125),
{
    reveal_strlit("11111");
    reveal_strlit("22222");
    reveal_strlit("120");
    reveal_strlit("210");
    reveal_strlit("010");
    reveal_strlit("020");
    reveal_strlit("2110");
    reveal_strlit("1220");
    reveal_strlit("0110");
    reveal_strlit("0220");
    reveal_strlit("21110");
    reveal_strlit("12220");
    reveal_strlit("21010");
    reveal_strlit("12020");
    reveal_strlit("01110");
    reveal_strlit("02220");
    reveal_strlit("01010");
    reveal_strlit("02020");
    reveal_strlit("211110");
    reveal_strlit("122220");
    reveal_strlit("210110");
    reveal_strlit("120220");
    reveal_strlit("211010");
    reveal_strlit("122020");
    reveal_strlit("011110");
    reveal_strlit("022220");
    reveal_strlit("010110");
    reveal_strlit("020220");
    reveal_strlit("11011");
    reveal_strlit("22022");
    reveal_strlit("11101");
    reveal_strlit("22202");
    assert forall|i: int| 0 <= i < 32 implies is_pattern_text(#[trigger] PATTERN_SPECS[i].0@) && 3
        <= PATTERN_SPECS[i].0@.len() <= 6 by {
        assert(PATTERN_SPECS@[i] == PATTERN_SPECS[i]);
    }
}

/// The table entries `specs`, each followed by its mirror image unless it
/// reads the same both ways: a line is always scanned in one fixed direction
/// but the same tactical shape can occur built from either side, and
/// registering a palindrome twice would double-count every match.
pub open spec fn expand_patterns(specs: Seq<(Seq<char>, i32)>) -> Seq<(Seq<TurnTileType>, i32)>
    decreases specs.len(),
{
    if specs.len() == 0 {
        seq![]
    } else {
        let prev = expand_patterns(specs.drop_last());
        let (text, w) = specs.last();
        let tiles = text.map_values(|ch: char| pattern_tile(ch));
        if text.reverse() == text {
            prev.push((tiles, w))
        } else {
            prev.push((tiles, w)).push((tiles.reverse(), w))
        }
    }
}

/// The pattern table as text and weight pairs.
pub open spec fn pattern_table() -> Seq<(Seq<char>, i32)> {
    PATTERN_SPECS@.map_values(|e: (&str, i32)| (e.0@, e.1))
}

/// Mirror image of a tile sequence.
fn reverse_tiles(tiles: &Vec<TurnTileType>) -> (rev: Vec<TurnTileType>)
    ensures
        rev@ == tiles@.reverse(),
{
    let mut rev = Vec::new();
    let mut k = tiles.len();
    while k > 0
        invariant
            0 <= k <= tiles@.len(),
            rev@ == tiles@.reverse().take(tiles@.len() - k),
        decreases k,
    {
        k -= 1;
        rev.push(tiles[k]);
        assert(rev@ =~= tiles@.reverse().take(tiles@.len() - k));
    }
    assert(tiles@.reverse().take(tiles@.len() as int) =~= tiles@.reverse());
    rev
}

fn same_tiles(a: &Vec<TurnTileType>, b: &Vec<TurnTileType>) -> (same: bool)
    ensures
        same == (a@ == b@),
{
    if a.len() != b.len() {
        return false;
    }
    let mut k: usize = 0;
    while k < a.len()
        invariant
            a@.len() == b@.len(),
            0 <= k <= a@.len(),
            forall|j: int| 0 <= j < k ==> a@[j] == b@[j],
        decreases a@.len() - k,
    {
        if a[k] != b[k] {
            return false;
        }
        k += 1;
    }
    assert(a@ =~= b@);
    true
}

/// Pattern text reads the same both ways exactly when its tiles do.
proof fn lemma_palindrome_tiles(text: Seq<char>)
    requires
        is_pattern_text(text),
    ensures
        (text.reverse() == text) == (text.map_values(|ch: char| pattern_tile(ch)).reverse()
            == text.map_values(|ch: char| pattern_tile(ch))),
{
    let tiles = text.map_values(|ch: char| pattern_tile(ch));
    if tiles.reverse() == tiles {
        assert forall|i: int| 0 <= i < text.len() implies #[trigger] text.reverse()[i] == text[i] by {
            assert(tiles.reverse()[i] == tiles[i]);
            assert(text[text.len() - 1 - i] == '0' || text[text.len() - 1 - i] == '1' || text[
                text.len() - 1 - i] == '2');
        }
        assert(text.reverse() =~= text);
    }
    if text.reverse() == text {
        assert forall|i: int| 0 <= i < tiles.len() implies #[trigger] tiles.reverse()[i] == tiles[i] by {
            assert(text.reverse()[i] == text[i]);
        }
        assert(tiles.reverse() =~= tiles);
    }
}

/// The patterns of [`default_automaton`], in id order.
pub open spec fn default_patterns() -> Seq<Seq<TurnTileType>> {
    expand_patterns(pattern_table()).map_values(|e: (Seq<TurnTileType>, i32)| e.0)
}

/// The weights of [`default_automaton`], in pattern id order.
pub open spec fn default_weights() -> Seq<i32> {
    expand_patterns(pattern_table()).map_values(|e: (Seq<TurnTileType>, i32)| e.1)
}

/// Builds the automaton and weight table from the engine pattern set.
/// 1 indicates the currently to move player's piece, 2 indicates their
/// opponent's piece.
pub fn default_automaton() -> (res: (TileDfa, PatternWeights))
    ensures
        res.0.wf(),
        res.0.is_built(),
        res.0@ == default_patterns(),
        res.1@ == default_weights(),
{
    let specs = PATTERN_SPECS;
    proof {
        lemma_pattern_table_valid();
    }
    let mut ac = TileDfa::new();
    let mut weights: Vec<i32> = Vec::new();
    let mut i: usize = 0;
    while i < 32
        invariant
            specs == PATTERN_SPECS,
            forall|j: int|
                0 <= j < 32 ==> is_pattern_text(#[trigger] PATTERN_SPECS[j].0@) && PATTERN_SPECS[j].0@.len()
                    > 0,
            0 <= i <= 32,
            ac.wf(),
            !ac.is_built(),
            ac@ == expand_patterns(pattern_table().take(i as int)).map_values(
                |e: (Seq<TurnTileType>, i32)| e.0,
            ),
            weights@ == expand_patterns(pattern_table().take(i as int)).map_values(
                |e: (Seq<TurnTileType>, i32)| e.1,
            ),
        decreases 32 - i,
    {
        let (pat, w) = specs[i];
        let ghost prev = expand_patterns(pattern_table().take(i as int));
        proof {
            assert(pattern_table().take(i + 1).drop_last() =~= pattern_table().take(i as int));
            assert(pattern_table().take(i + 1).last() == (pat@, w));
            lemma_palindrome_tiles(pat@);
        }
        let tiles = parse_pattern(pat);
        ac.add_pattern(tiles.as_slice());
        weights.push(w);
        let reversed = reverse_tiles(&tiles);
        if !same_tiles(&reversed, &tiles) {
            ac.add_pattern(reversed.as_slice());
            weights.push(w);
        }
        i += 1;
        proof {
            let cur = expand_patterns(pattern_table().take(i as int));
            assert(ac@ =~= cur.map_values(|e: (Seq<TurnTileType>, i32)| e.0));
            assert(weights@ =~= cur.map_values(|e: (Seq<TurnTileType>, i32)| e.1));
        }
    }
    assert(pattern_table().take(32) =~= pattern_table());
    ac.build();
    (ac, weights)
}

/// The board as overlaid by `moves`, keyed by [`BoardState::index`].
pub open spec fn overlay(board: BoardState, moves: Map<usize, TileType>) -> spec_fn(
    usize,
    usize,
) -> TileType {
    |r: usize, c: usize|
        {
            let i = (r * board.width + c) as usize;
            if moves.contains_key(i) {
                moves[i]
            } else {
                board.tile(r as int, c as int)
            }
        }
}

/// Gets the tile at a position given an initial board and set of moves made.
pub(crate) fn effective_tile_at(row: usize, col: usize, board: &BoardState, moves: &MoveMap) -> (t: TileType)
    requires
        board.wf(),
        row < board.height,
        col < board.width,
    ensures
        t == overlay(*board, moves@)(row, col),
{
    proof {
        broadcast use vstd::std_specs::hash::group_hash_axioms;
        lemma_cell_in_board(board.width as int, board.height as int, row as int, col as int);
        assert(board.tiles.len() <= usize::MAX);
    }
    let i = board.index(row, col);
    match moves.get(&i) {
        Some(t) => *t,
        None => board.get_tile(row, col),
    }
}

/// The captures `player` makes at (row, col) on `board` as overlaid by `moves`.
fn overlay_captures(board: &BoardState, moves: &MoveMap, row: usize, col: usize, player: PlayerType) -> (captured: Vec<
    (usize, usize),
>)
    requires
        board.wf(),
        row < board.height,
        col < board.width,
    ensures
        captured@ == captures_spec(
            board.width as int,
            board.height as int,
            row as int,
            col as int,
            player,
            overlay(*board, moves@),
        ),
{
    let ghost placed = overlay(*board, moves@);
    let get = |r: usize, c: usize| -> (t: TileType)
        requires
            board.wf(),
            r < board.height,
            c < board.width,
        ensures
            t == placed(r, c),
        { effective_tile_at(r, c, board, moves) };
    let captured = find_captures(board.width, board.height, row, col, player, get);
    assert(reads_as(get, board.width, board.height, placed));
    captured
}

/// The point `i` steps from (r0, c0) in direction `step`: 0 right, 1 down,
/// 2 down-right, 3 up-right, 4 down-left.
pub open spec fn step_cell(r0: int, c0: int, step: u8, i: int) -> (int, int) {
    if step == 0 {
        (r0, c0 + i)
    } else if step == 1 {
        (r0 + i, c0)
    } else if step == 2 {
        (r0 + i, c0 + i)
    } else if step == 3 {
        (r0 - i, c0 + i)
    } else {
        (r0 + i, c0 - i)
    }
}

/// `n` points from (r0, c0) in direction `step`.
pub open spec fn ray(r0: int, c0: int, step: u8, n: int) -> Seq<(int, int)> {
    Seq::new(n as nat, |i: int| step_cell(r0, c0, step, i))
}

/// The tiles on the points `cells`, as seen by `player`.
pub open spec fn line_tiles(
    grid: spec_fn(usize, usize) -> TileType,
    player: PlayerType,
    cells: Seq<(int, int)>,
) -> Seq<TurnTileType> {
    cells.map_values(|p: (int, int)| turn_tile(player, grid(p.0 as usize, p.1 as usize)))
}

/// Reads the tiles on `n` points from (r0, c0) in direction `step`.
fn read_line<F: Fn(usize, usize) -> TileType>(
    get: &F,
    Ghost(grid): Ghost<spec_fn(usize, usize) -> TileType>,
    width: usize,
    height: usize,
    player: PlayerType,
    r0: usize,
    c0: usize,
    step: u8,
    n: usize,
) -> (line: Vec<TurnTileType>)
    requires
        step <= 4,
        forall|r: usize, c: usize| r < height && c < width ==> call_requires(*get, (r, c)),
        forall|r: usize, c: usize, t: TileType|
            r < height && c < width && call_ensures(*get, (r, c), t) ==> t == grid(r, c),
        forall|i: int|
            0 <= i < n ==> 0 <= (#[trigger] step_cell(r0 as int, c0 as int, step, i)).0 < height
                && 0 <= step_cell(r0 as int, c0 as int, step, i).1 < width,
    ensures
        line@ == line_tiles(grid, player, ray(r0 as int, c0 as int, step, n as int)),
{
    let mut line = Vec::new();
    let mut i: usize = 0;
    while i < n
        invariant
            step <= 4,
            forall|r: usize, c: usize| r < height && c < width ==> call_requires(*get, (r, c)),
            forall|r: usize, c: usize, t: TileType|
                r < height && c < width && call_ensures(*get, (r, c), t) ==> t == grid(r, c),
            forall|i: int|
                0 <= i < n ==> 0 <= (#[trigger] step_cell(r0 as int, c0 as int, step, i)).0 < height
                    && 0 <= step_cell(r0 as int, c0 as int, step, i).1 < width,
            0 <= i <= n,
            line@ == line_tiles(grid, player, ray(r0 as int, c0 as int, step, i as int)),
        decreases n - i,
    {
        let ghost p = step_cell(r0 as int, c0 as int, step, i as int);
        assert(0 <= p.0 < height && 0 <= p.1 < width);
        let (r, c) = if step == 0 {
            (r0, c0 + i)
        } else if step == 1 {
            (r0 + i, c0)
        } else if step == 2 {
            (r0 + i, c0 + i)
        } else if step == 3 {
            (r0 - i, c0 + i)
        } else {
            (r0 + i, c0 - i)
        };
        let tile = get(r, c);
        line.push(TurnTileType::from_tile_type(player, tile));
        i += 1;
        assert(line@ =~= line_tiles(grid, player, ray(r0 as int, c0 as int, step, i as int)));
    }
    line
}

/// Sum of a sequence of integers.
pub open spec fn sum_ints(s: Seq<int>) -> int
    decreases s.len(),
{
    if s.len() == 0 {
        0
    } else {
        sum_ints(s.drop_last()) + s.last()
    }
}

/// Adding the values of `s` one by one never leaves the range of `i32`.
pub open spec fn prefix_sums_fit(s: Seq<int>) -> bool {
    forall|k: int| 0 <= k <= s.len() ==> i32::MIN <= #[trigger] sum_ints(s.take(k)) <= i32::MAX
}

/// The scores of `lines` on `grid` for `player`.
pub open spec fn line_values(
    scorer: PatternScorer,
    grid: spec_fn(usize, usize) -> TileType,
    player: PlayerType,
    lines: Seq<Seq<(int, int)>>,
) -> Seq<int> {
    lines.map_values(
        |l: Seq<(int, int)>| line_score(scorer.patterns(), scorer.weights(), line_tiles(grid, player, l)),
    )
}

/// How many lines of family `f` a `w` by `h` board has: rows, columns,
/// down-right diagonals from the top row and from the left column, then
/// up-right diagonals from the left column and from the right column.
pub open spec fn family_count(f: int, w: int, h: int) -> int {
    if f == 0 {
        h
    } else if f == 1 || f == 2 || f == 4 {
        w
    } else if h > 0 {
        h - 1
    } else {
        0
    }
}

/// Line `j` of family `f`. An up-right diagonal that starts on the left
/// column at row `j` runs to the top row, so it has `j + 1` points.
pub open spec fn family_line(f: int, w: int, h: int, j: int) -> Seq<(int, int)> {
    if f == 0 {
        ray(j, 0, 0, w)
    } else if f == 1 {
        ray(0, j, 1, h)
    } else if f == 2 {
        ray(0, j, 2, w - j)
    } else if f == 3 {
        ray(j + 1, 0, 2, h - 1 - j)
    } else if f == 4 {
        ray(j, 0, 3, j + 1)
    } else {
        ray(j + 1, w - 1, 4, h - 1 - j)
    }
}

/// The lines of the first `f` families, in scan order.
pub open spec fn lines_upto(f: nat, w: int, h: int) -> Seq<Seq<(int, int)>>
    decreases f,
{
    if f == 0 {
        seq![]
    } else {
        lines_upto((f - 1) as nat, w, h) + Seq::new(
            family_count(f - 1, w, h) as nat,
            |j: int| family_line(f - 1, w, h, j),
        )
    }
}

/// Every line the full evaluation scans.
pub open spec fn board_lines(w: int, h: int) -> Seq<Seq<(int, int)>> {
    lines_upto(6, w, h)
}

/// The scores of every scanned line of `board` for `player`.
pub open spec fn full_line_values(
    board: BoardState,
    grid: spec_fn(usize, usize) -> TileType,
    scorer: PatternScorer,
    player: PlayerType,
) -> Seq<int> {
    line_values(scorer, grid, player, board_lines(board.width as int, board.height as int))
}

/// Static score of `grid` for `player`: the scores of all scanned lines.
pub open spec fn full_score(
    board: BoardState,
    grid: spec_fn(usize, usize) -> TileType,
    scorer: PatternScorer,
    player: PlayerType,
) -> int {
    sum_ints(full_line_values(board, grid, scorer, player))
}

/// The full scan reads only points of the board.
pub open spec fn full_scan_fits(w: int, h: int) -> bool {
    w <= h <= w + 1
}

pub proof fn lemma_lines_upto_prefix(a: nat, b: nat, w: int, h: int)
    requires
        a <= b,
        0 <= w,
        0 <= h,
    ensures
        lines_upto(a, w, h).len() <= lines_upto(b, w, h).len(),
        lines_upto(a, w, h) == lines_upto(b, w, h).take(lines_upto(a, w, h).len() as int),
    decreases b,
{
    if a < b {
        lemma_lines_upto_prefix(a, (b - 1) as nat, w, h);
        let la = lines_upto(a, w, h);
        let lb1 = lines_upto((b - 1) as nat, w, h);
        assert(la.len() <= lb1.len());
        assert(lines_upto(b, w, h).take(lb1.len() as int) =~= lb1);
        assert(lines_upto(b, w, h).take(la.len() as int) =~= lb1.take(la.len() as int));
    } else {
        assert(lines_upto(a, w, h) =~= lines_upto(b, w, h).take(lines_upto(a, w, h).len() as int));
    }
}

proof fn lemma_sum_take_step(s: Seq<int>, k: int)
    requires
        0 <= k < s.len(),
    ensures
        sum_ints(s.take(k + 1)) == sum_ints(s.take(k)) + s[k],
{
    assert(s.take(k + 1).drop_last() =~= s.take(k));
}

/// The first `f` families together with the first `j` lines of family `f`.
spec fn scanned(f: nat, w: int, h: int, j: int) -> Seq<Seq<(int, int)>> {
    lines_upto(f, w, h) + Seq::new(j as nat, |i: int| family_line(f as int, w, h, i))
}

/// Where family `f`'s line `j` starts, its direction and its length.
fn family_start(f: usize, w: usize, h: usize, j: usize) -> (res: (usize, usize, u8, usize))
    requires
        f < 6,
        j < family_count(f as int, w as int, h as int),
        full_scan_fits(w as int, h as int),
    ensures
        res.2 <= 4,
        ray(res.0 as int, res.1 as int, res.2, res.3 as int) == family_line(
            f as int,
            w as int,
            h as int,
            j as int,
        ),
        forall|i: int|
            0 <= i < res.3 ==> 0 <= (#[trigger] step_cell(res.0 as int, res.1 as int, res.2, i)).0
                < h && 0 <= step_cell(res.0 as int, res.1 as int, res.2, i).1 < w,
{
    if f == 0 {
        (j, 0, 0, w)
    } else if f == 1 {
        (0, j, 1, h)
    } else if f == 2 {
        (0, j, 2, w - j)
    } else if f == 3 {
        (j + 1, 0, 2, h - 1 - j)
    } else if f == 4 {
        (j, 0, 3, j + 1)
    } else {
        (j + 1, w - 1, 4, h - 1 - j)
    }
}

fn family_size(f: usize, w: usize, h: usize) -> (n: usize)
    requires
        f < 6,
    ensures
        n == family_count(f as int, w as int, h as int),
{
    if f == 0 {
        h
    } else if f == 1 || f == 2 || f == 4 {
        w
    } else if h > 0 {
        h - 1
    } else {
        0
    }
}

/// Evaluates the score of a board: rows, columns, then both diagonal
/// directions. The running total is kept in `i32`; where it would leave
/// that range there is no score, and `None` comes back.
fn evaluate_full(
    board: &BoardState,
    scorer: &PatternScorer,
    moves: &MoveMap,
    player_to_play: PlayerType,
) -> (total: Option<i32>)
    requires
        board.wf(),
        scorer.wf(),
        full_scan_fits(board.width as int, board.height as int),
    ensures
        total is Some <==> prefix_sums_fit(full_line_values(*board, overlay(*board, moves@), *scorer, player_to_play)),
        total is Some ==> total->0 == full_score(*board, overlay(*board, moves@), *scorer, player_to_play),
{
    let ghost grid = overlay(*board, moves@);
    let ghost w = board.width as int;
    let ghost h = board.height as int;
    let ghost all = full_line_values(*board, grid, *scorer, player_to_play);
    let get = |r: usize, c: usize| -> (t: TileType)
        requires
            board.wf(),
            r < board.height,
            c < board.width,
        ensures
            t == overlay(*board, moves@)(r, c),
        { effective_tile_at(r, c, board, moves) };
    let mut total: i32 = 0;
    let mut f: usize = 0;
    proof {
        assert(line_values(*scorer, grid, player_to_play, scanned(0, w, h, 0)) =~= seq![]);
        assert(all.take(0) =~= Seq::<int>::empty());
    }
    while f < 6
        invariant
            board.wf(),
            scorer.wf(),
            full_scan_fits(w, h),
            w == board.width,
            h == board.height,
            grid == overlay(*board, moves@),
            all == full_line_values(*board, grid, *scorer, player_to_play),
            forall|r: usize, c: usize| r < board.height && c < board.width ==> call_requires(get, (r, c)),
            forall|r: usize, c: usize, t: TileType|
                r < board.height && c < board.width && call_ensures(get, (r, c), t) ==> t == grid(r, c),
            0 <= f <= 6,
            lines_upto(f as nat, w, h).len() <= all.len(),
            forall|k: int| 0 <= k <= lines_upto(f as nat, w, h).len() ==> in_i32(#[trigger] sum_ints(all.take(k))),
            total == sum_ints(line_values(*scorer, grid, player_to_play, lines_upto(f as nat, w, h))),
        decreases 6 - f,
    {
        let count = family_size(f, board.width, board.height);
        let mut j: usize = 0;
        proof {
            assert(scanned(f as nat, w, h, 0) =~= lines_upto(f as nat, w, h));
            lemma_lines_upto_prefix((f + 1) as nat, 6, w, h);
        }
        while j < count
            invariant
                board.wf(),
                scorer.wf(),
                full_scan_fits(w, h),
                w == board.width,
                h == board.height,
                grid == overlay(*board, moves@),
                all == full_line_values(*board, grid, *scorer, player_to_play),
                forall|r: usize, c: usize| r < board.height && c < board.width ==> call_requires(get, (r, c)),
                forall|r: usize, c: usize, t: TileType|
                    r < board.height && c < board.width && call_ensures(get, (r, c), t) ==> t == grid(r, c),
                0 <= f < 6,
                count == family_count(f as int, w, h),
                0 <= j <= count,
                lines_upto(f as nat, w, h).len() + count <= all.len(),
                lines_upto((f + 1) as nat, w, h).len() == lines_upto(f as nat, w, h).len() + count,
                forall|k: int|
                    0 <= k <= scanned(f as nat, w, h, j as int).len() ==> in_i32(#[trigger] sum_ints(all.take(k))),
                total == sum_ints(line_values(*scorer, grid, player_to_play, scanned(f as nat, w, h, j as int))),
            decreases count - j,
        {
            let (r0, c0, step, n) = family_start(f, board.width, board.height, j);
            let line = read_line(&get, Ghost(grid), board.width, board.height, player_to_play, r0, c0, step, n);
            let score = scorer.score_line(line.as_slice());
            let ghost pre = scanned(f as nat, w, h, j as int);
            let ghost post = scanned(f as nat, w, h, j + 1);
            proof {
                assert(post =~= pre.push(family_line(f as int, w, h, j as int)));
                let vpost = line_values(*scorer, grid, player_to_play, post);
                assert(vpost.drop_last() =~= line_values(*scorer, grid, player_to_play, pre));
                assert(vpost.last() == score);
                lemma_lines_upto_prefix((f + 1) as nat, 6, w, h);
                let full_prefix = lines_upto((f + 1) as nat, w, h);
                assert(post.len() <= full_prefix.len());
                assert(post =~= full_prefix.take(post.len() as int));
                assert(board_lines(w, h).take(post.len() as int) =~= full_prefix.take(post.len() as int));
                assert(post =~= board_lines(w, h).take(post.len() as int));
                assert(vpost =~= all.take(post.len() as int));
            }
            match total.checked_add(score) {
                Some(t) => {
                    total = t;
                },
                None => {
                    proof {
                        assert(!in_i32(sum_ints(all.take(post.len() as int))));
                    }
                    return None;
                },
            }
            j += 1;
        }
        proof {
            assert(scanned(f as nat, w, h, count as int) =~= lines_upto((f + 1) as nat, w, h));
        }
        f += 1;
    }
    proof {
        assert(lines_upto(6, w, h) == board_lines(w, h));
        assert(all.len() == lines_upto(6, w, h).len());
        assert(all.take(all.len() as int) =~= all);
    }
    Some(total)
}

/// `a - b`, or 0 below zero (`usize::saturating_sub`).
pub open spec fn sat_sub(a: int, b: int) -> int {
    if a >= b {
        a - b
    } else {
        0
    }
}

/// `a + b`, or `usize::MAX` above it (`usize::saturating_add`).
pub open spec fn sat_add(a: int, b: int) -> int {
    if a + b > usize::MAX {
        usize::MAX as int
    } else {
        a + b
    }
}

pub open spec fn min_int(a: int, b: int) -> int {
    if a <= b {
        a
    } else {
        b
    }
}

pub open spec fn max_int(a: int, b: int) -> int {
    if a >= b {
        a
    } else {
        b
    }
}

/// The first row (or column) and the direction of window `k` around
/// (row, col), clipped to five points on either side and to the board:
/// horizontal, vertical, down-right diagonal, down-left diagonal.
pub open spec fn window_bounds(k: int, w: int, h: int, row: int, col: int) -> (int, int) {
    if k == 0 {
        (sat_sub(col, 5), min_int(col + 5, w - 1))
    } else if k == 1 {
        (sat_sub(row, 5), min_int(row + 5, h - 1))
    } else if k == 2 {
        (
            max_int(sat_sub(row, 5), sat_sub(sat_add(sat_sub(col, 5), row), col)),
            min_int(min_int(row + 5, h - 1), sat_sub(sat_add(sat_sub(w, 1), row), col)),
        )
    } else {
        (
            max_int(sat_sub(row, 5), sat_sub(sat_add(row, col), w - 1)),
            min_int(min_int(row + 5, h - 1), sat_sub(sat_add(row, col), sat_sub(col, 5))),
        )
    }
}

/// The points of window `k` around (row, col).
pub open spec fn window(k: int, w: int, h: int, row: int, col: int) -> Seq<(int, int)> {
    let (lo, hi) = window_bounds(k, w, h, row, col);
    let n = if hi >= lo {
        hi - lo + 1
    } else {
        0
    };
    if k == 0 {
        ray(row, lo, 0, n)
    } else if k == 1 {
        ray(lo, col, 1, n)
    } else if k == 2 {
        ray(lo, lo + col - row, 2, n)
    } else {
        ray(lo, row + col - lo, 4, n)
    }
}

/// The four windows through (row, col).
pub open spec fn windows(w: int, h: int, row: int, col: int) -> Seq<Seq<(int, int)>> {
    seq![window(0, w, h, row, col), window(1, w, h, row, col), window(2, w, h, row, col), window(3, w, h, row, col)]
}

/// The scores of the four windows through (row, col) on `grid`.
pub open spec fn local_values(
    board: BoardState,
    grid: spec_fn(usize, usize) -> TileType,
    scorer: PatternScorer,
    player: PlayerType,
    row: int,
    col: int,
) -> Seq<int> {
    line_values(scorer, grid, player, windows(board.width as int, board.height as int, row, col))
}

/// Score of the lines through one point, used for score deltas between moves.
pub open spec fn local_total(
    board: BoardState,
    grid: spec_fn(usize, usize) -> TileType,
    scorer: PatternScorer,
    player: PlayerType,
    row: int,
    col: int,
) -> int {
    sum_ints(local_values(board, grid, scorer, player, row, col))
}

/// The board is small enough that window arithmetic cannot overflow.
pub open spec fn board_size_ok(board: BoardState) -> bool {
    board.width + board.height + 10 <= usize::MAX
}

/// Where window `k` starts, its direction and its length.
fn window_start(k: usize, w: usize, h: usize, row: usize, col: usize) -> (res: (usize, usize, u8, usize))
    requires
        k < 4,
        row < h,
        col < w,
        w + h + 10 <= usize::MAX,
    ensures
        res.2 <= 4,
        ray(res.0 as int, res.1 as int, res.2, res.3 as int) == window(
            k as int,
            w as int,
            h as int,
            row as int,
            col as int,
        ),
        forall|i: int|
            0 <= i < res.3 ==> 0 <= (#[trigger] step_cell(res.0 as int, res.1 as int, res.2, i)).0
                < h && 0 <= step_cell(res.0 as int, res.1 as int, res.2, i).1 < w,
{
    if k == 0 {
        let c0 = col.saturating_sub(5);
        let c1 = (col + 5).min(w - 1);
        (row, c0, 0, if c1 >= c0 { c1 - c0 + 1 } else { 0 })
    } else if k == 1 {
        let r0 = row.saturating_sub(5);
        let r1 = (row + 5).min(h - 1);
        (r0, col, 1, if r1 >= r0 { r1 - r0 + 1 } else { 0 })
    } else if k == 2 {
        let r0 = row.saturating_sub(5).max(col.saturating_sub(5).saturating_add(row).saturating_sub(col));
        let r1 = (row + 5).min(h - 1).min(w.saturating_sub(1).saturating_add(row).saturating_sub(col));
        (r0, r0 + col - row, 2, if r1 >= r0 { r1 - r0 + 1 } else { 0 })
    } else {
        let r0 = row.saturating_sub(5).max(row.saturating_add(col).saturating_sub(w - 1));
        let r1 = (row + 5).min(h - 1).min(row.saturating_add(col).saturating_sub(col.saturating_sub(5)));
        (r0, row + col - r0, 4, if r1 >= r0 { r1 - r0 + 1 } else { 0 })
    }
}

/// Gets the score of the lines through a single tile. Used for calculating
/// deltas between moves.
fn local_score<F: Fn(usize, usize) -> TileType>(
    row: usize,
    col: usize,
    get: &F,
    Ghost(grid): Ghost<spec_fn(usize, usize) -> TileType>,
    board: &BoardState,
    scorer: &PatternScorer,
    player_to_play: PlayerType,
) -> (total: i32)
    requires
        scorer.wf(),
        board_size_ok(*board),
        row < board.height,
        col < board.width,
        forall|r: usize, c: usize| r < board.height && c < board.width ==> call_requires(*get, (r, c)),
        forall|r: usize, c: usize, t: TileType|
            r < board.height && c < board.width && call_ensures(*get, (r, c), t) ==> t == grid(r, c),
        prefix_sums_fit(local_values(*board, grid, *scorer, player_to_play, row as int, col as int)),
    ensures
        total == local_total(*board, grid, *scorer, player_to_play, row as int, col as int),
{
    let ghost vals = local_values(*board, grid, *scorer, player_to_play, row as int, col as int);
    let mut total: i32 = 0;
    let mut k: usize = 0;
    while k < 4
        invariant
            scorer.wf(),
            board_size_ok(*board),
            row < board.height,
            col < board.width,
            forall|r: usize, c: usize| r < board.height && c < board.width ==> call_requires(*get, (r, c)),
            forall|r: usize, c: usize, t: TileType|
                r < board.height && c < board.width && call_ensures(*get, (r, c), t) ==> t == grid(r, c),
            vals == local_values(*board, grid, *scorer, player_to_play, row as int, col as int),
            prefix_sums_fit(vals),
            0 <= k <= 4,
            total == sum_ints(vals.take(k as int)),
        decreases 4 - k,
    {
        let (r0, c0, step, n) = window_start(k, board.width, board.height, row, col);
        let line = read_line(get, Ghost(grid), board.width, board.height, player_to_play, r0, c0, step, n);
        let score = scorer.score_line(line.as_slice());
        proof {
            lemma_sum_take_step(vals, k as int);
            assert(sum_ints(vals.take(k + 1)) >= i32::MIN && sum_ints(vals.take(k + 1)) <= i32::MAX);
        }
        total = total + score;
        k += 1;
    }
    assert(vals.take(4) =~= vals);
    total
}

/// Flat index of (r, c) on `board`.
pub open spec fn cell_key(board: BoardState, r: int, c: int) -> usize {
    (r * board.width + c) as usize
}

/// Scoring the four windows through (row, col) on `grid` stays in `i32`
/// for both players.
pub open spec fn local_fits(
    board: BoardState,
    grid: spec_fn(usize, usize) -> TileType,
    scorer: PatternScorer,
    row: int,
    col: int,
) -> bool {
    &&& prefix_sums_fit(local_values(board, grid, scorer, PlayerType::White, row, col))
    &&& prefix_sums_fit(local_values(board, grid, scorer, PlayerType::Black, row, col))
}

/// Change of `player`'s local score at (row, col) when `tile` is put there
/// over the overlay `moves`.
pub open spec fn cell_change_delta(
    board: BoardState,
    scorer: PatternScorer,
    player: PlayerType,
    moves: Map<usize, TileType>,
    row: int,
    col: int,
    tile: TileType,
) -> int {
    local_total(
        board,
        overlay(board, moves.insert(cell_key(board, row, col), tile)),
        scorer,
        player,
        row,
        col,
    ) - local_total(board, overlay(board, moves), scorer, player, row, col)
}

/// Putting `tile` at (row, col) over `moves` is scored without leaving `i32`.
pub open spec fn cell_change_fits(
    board: BoardState,
    scorer: PatternScorer,
    moves: Map<usize, TileType>,
    row: int,
    col: int,
    tile: TileType,
) -> bool {
    &&& local_fits(board, overlay(board, moves), scorer, row, col)
    &&& local_fits(board, overlay(board, moves.insert(cell_key(board, row, col), tile)), scorer, row, col)
    &&& i32::MIN <= cell_change_delta(board, scorer, PlayerType::White, moves, row, col, tile) <= i32::MAX
    &&& i32::MIN <= cell_change_delta(board, scorer, PlayerType::Black, moves, row, col, tile) <= i32::MAX
}

/// Inserts `new_tile` at (row, col) in `moves` and returns the (white, black)
/// score delta caused by that single change, scoped to the lines through it.
fn apply_cell_change(
    moves: &mut MoveMap,
    board: &BoardState,
    scorer: &PatternScorer,
    row: usize,
    col: usize,
    new_tile: TileType,
) -> (delta: (i32, i32))
    requires
        board.wf(),
        scorer.wf(),
        board_size_ok(*board),
        row < board.height,
        col < board.width,
        cell_change_fits(*board, *scorer, old(moves)@, row as int, col as int, new_tile),
    ensures
        final(moves)@ == old(moves)@.insert(cell_key(*board, row as int, col as int), new_tile),
        delta.0 == cell_change_delta(
            *board,
            *scorer,
            PlayerType::White,
            old(moves)@,
            row as int,
            col as int,
            new_tile,
        ),
        delta.1 == cell_change_delta(
            *board,
            *scorer,
            PlayerType::Black,
            old(moves)@,
            row as int,
            col as int,
            new_tile,
        ),
{
    let ghost before_grid = overlay(*board, moves@);
    let before = |r: usize, c: usize| -> (t: TileType)
        requires
            board.wf(),
            r < board.height,
            c < board.width,
        ensures
            t == before_grid(r, c),
        { effective_tile_at(r, c, board, moves) };
    let before_white = local_score(row, col, &before, Ghost(before_grid), board, scorer, PlayerType::White);
    let before_black = local_score(row, col, &before, Ghost(before_grid), board, scorer, PlayerType::Black);
    proof {
        broadcast use vstd::std_specs::hash::group_hash_axioms;
        lemma_cell_in_board(board.width as int, board.height as int, row as int, col as int);
        assert(board.tiles.len() <= usize::MAX);
    }
    moves.insert(board.index(row, col), new_tile);
    let ghost after_grid = overlay(*board, moves@);
    let after = |r: usize, c: usize| -> (t: TileType)
        requires
            board.wf(),
            r < board.height,
            c < board.width,
        ensures
            t == after_grid(r, c),
        { effective_tile_at(r, c, board, moves) };
    let after_white = local_score(row, col, &after, Ghost(after_grid), board, scorer, PlayerType::White);
    let after_black = local_score(row, col, &after, Ghost(after_grid), board, scorer, PlayerType::Black);
    (after_white - before_white, after_black - before_black)
}

/// The overlay after putting each point of `changes` in order.
pub open spec fn apply_changes(
    board: BoardState,
    moves: Map<usize, TileType>,
    changes: Seq<((usize, usize), TileType)>,
) -> Map<usize, TileType>
    decreases changes.len(),
{
    if changes.len() == 0 {
        moves
    } else {
        let ((r, c), t) = changes.last();
        apply_changes(board, moves, changes.drop_last()).insert(cell_key(board, r as int, c as int), t)
    }
}

/// Sum of the local score changes for `player` caused by `changes`, in order.
pub open spec fn changes_delta(
    board: BoardState,
    scorer: PatternScorer,
    player: PlayerType,
    moves: Map<usize, TileType>,
    changes: Seq<((usize, usize), TileType)>,
) -> int
    decreases changes.len(),
{
    if changes.len() == 0 {
        0
    } else {
        let ((r, c), t) = changes.last();
        changes_delta(board, scorer, player, moves, changes.drop_last()) + cell_change_delta(
            board,
            scorer,
            player,
            apply_changes(board, moves, changes.drop_last()),
            r as int,
            c as int,
            t,
        )
    }
}

/// The stones captured when `mover` plays at (row, col) over `moves`.
pub open spec fn move_captures(
    board: BoardState,
    moves: Map<usize, TileType>,
    row: int,
    col: int,
    mover: PlayerType,
) -> Seq<(usize, usize)> {
    captures_spec(
        board.width as int,
        board.height as int,
        row,
        col,
        mover,
        overlay(board, moves.insert(cell_key(board, row, col), stone_of(mover))),
    )
}

/// The points a move changes: its own stone, then each captured stone cleared.
pub open spec fn move_changes(
    board: BoardState,
    moves: Map<usize, TileType>,
    row: int,
    col: int,
    mover: PlayerType,
) -> Seq<((usize, usize), TileType)> {
    seq![((row as usize, col as usize), stone_of(mover))] + move_captures(board, moves, row, col, mover).map_values(
        |p: (usize, usize)| (p, TileType::Empty),
    )
}

/// One more change: the overlay gains the point and the delta its change.
pub proof fn lemma_changes_step(
    board: BoardState,
    scorer: PatternScorer,
    moves: Map<usize, TileType>,
    changes: Seq<((usize, usize), TileType)>,
    k: int,
)
    requires
        0 <= k < changes.len(),
    ensures
        apply_changes(board, moves, changes.take(k + 1)) == apply_changes(
            board,
            moves,
            changes.take(k),
        ).insert(cell_key(board, changes[k].0.0 as int, changes[k].0.1 as int), changes[k].1),
        forall|p: PlayerType|
            #[trigger] changes_delta(board, scorer, p, moves, changes.take(k + 1)) == changes_delta(
                board,
                scorer,
                p,
                moves,
                changes.take(k),
            ) + cell_change_delta(
                board,
                scorer,
                p,
                apply_changes(board, moves, changes.take(k)),
                changes[k].0.0 as int,
                changes[k].0.1 as int,
                changes[k].1,
            ),
        apply_changes(board, moves, changes.take(0)) == moves,
        forall|p: PlayerType| #[trigger] changes_delta(board, scorer, p, moves, changes.take(0)) == 0,
{
    assert(changes.take(k + 1).drop_last() =~= changes.take(k));
    assert(changes.take(k + 1).last() == changes[k]);
    assert(changes.take(0).len() == 0);
}

/// Abstract state of an [`EvaluatedMoveSet`].
pub struct MoveSetModel {
    pub moves: Map<usize, TileType>,
    pub move_coords: Option<(usize, usize)>,
    pub min_row: usize,
    pub max_row: usize,
    pub min_col: usize,
    pub max_col: usize,
    pub captures_white: u32,
    pub captures_black: u32,
    pub score_white: int,
    pub score_black: int,
    pub player_to_play: PlayerType,
}

impl MoveSetModel {
    pub open spec fn captures_of(self, player: PlayerType) -> u32 {
        match player {
            PlayerType::White => self.captures_white,
            PlayerType::Black => self.captures_black,
        }
    }

    pub open spec fn score_of(self, player: PlayerType) -> int {
        match player {
            PlayerType::White => self.score_white,
            PlayerType::Black => self.score_black,
        }
    }
}

/// Capture score change for `player` when capture counts go from
/// (`own0`, `opp0`) to (`own1`, `opp1`).
pub open spec fn capture_delta(own0: u32, opp0: u32, own1: u32, opp1: u32) -> int {
    (capture_value(own1) - capture_value(opp1)) - (capture_value(own0) - capture_value(opp0))
}

/// The state after the player to move in `m` plays at (row, col).
pub closed spec fn child_model(board: BoardState, scorer: PatternScorer, m: MoveSetModel, row: int, col: int) -> MoveSetModel {
    let mover = m.player_to_play;
    let changes = move_changes(board, m.moves, row, col, mover);
    let pairs = move_captures(board, m.moves, row, col, mover).len() / 2;
    let cw = if mover == PlayerType::White {
        (m.captures_white + pairs) as u32
    } else {
        m.captures_white
    };
    let cb = if mover == PlayerType::Black {
        (m.captures_black + pairs) as u32
    } else {
        m.captures_black
    };
    MoveSetModel {
        moves: apply_changes(board, m.moves, changes),
        move_coords: Some((row as usize, col as usize)),
        min_row: min_int(m.min_row as int, row) as usize,
        max_row: max_int(m.max_row as int, row) as usize,
        min_col: min_int(m.min_col as int, col) as usize,
        max_col: max_int(m.max_col as int, col) as usize,
        captures_white: cw,
        captures_black: cb,
        score_white: m.score_white + changes_delta(board, scorer, PlayerType::White, m.moves, changes)
            + capture_delta(m.captures_white, m.captures_black, cw, cb),
        score_black: m.score_black + changes_delta(board, scorer, PlayerType::Black, m.moves, changes)
            + capture_delta(m.captures_black, m.captures_white, cb, cw),
        player_to_play: opponent(mover),
    }
}

pub open spec fn in_i32(x: int) -> bool {
    i32::MIN <= x <= i32::MAX
}

/// The player to move in `m` can play at (row, col) without any score
/// computation leaving `i32` and without the capture count overflowing.
pub closed spec fn move_fits(board: BoardState, scorer: PatternScorer, m: MoveSetModel, row: int, col: int) -> bool {
    let mover = m.player_to_play;
    let changes = move_changes(board, m.moves, row, col, mover);
    let c = child_model(board, scorer, m, row, col);
    &&& forall|k: int|
        0 <= k < changes.len() ==> cell_change_fits(
            board,
            scorer,
            apply_changes(board, m.moves, changes.take(k)),
            (#[trigger] changes[k]).0.0 as int,
            changes[k].0.1 as int,
            changes[k].1,
        )
    &&& forall|k: int|
        0 < k <= changes.len() ==> in_i32(
            #[trigger] changes_delta(board, scorer, PlayerType::White, m.moves, changes.take(k)),
        ) && in_i32(changes_delta(board, scorer, PlayerType::Black, m.moves, changes.take(k)))
    &&& m.captures_of(mover) + move_captures(board, m.moves, row, col, mover).len() / 2 <= u32::MAX
    &&& in_i32(m.score_white + changes_delta(board, scorer, PlayerType::White, m.moves, changes))
    &&& in_i32(m.score_black + changes_delta(board, scorer, PlayerType::Black, m.moves, changes))
    &&& in_i32(c.score_white)
    &&& in_i32(c.score_black)
}

/// The bounding box and turn after playing at (row, col): the box grows to
/// take in (row, col), and the turn passes to the opponent.
pub proof fn lemma_child_frame(board: BoardState, scorer: PatternScorer, m: MoveSetModel, row: int, col: int)
    requires
        0 <= row <= usize::MAX,
        0 <= col <= usize::MAX,
    ensures
        ({
            let c = child_model(board, scorer, m, row, col);
            &&& c.min_row == min_int(m.min_row as int, row)
            &&& c.max_row == max_int(m.max_row as int, row)
            &&& c.min_col == min_int(m.min_col as int, col)
            &&& c.max_col == max_int(m.max_col as int, col)
            &&& c.move_coords == Some((row as usize, col as usize))
            &&& c.player_to_play == opponent(m.player_to_play)
        }),
{
}

/// The overlay, captures and scores after playing at (row, col): the
/// changed points are applied in order, each player's score moves by its
/// local deltas and by the change in capture value.
pub proof fn lemma_child_scores(board: BoardState, scorer: PatternScorer, m: MoveSetModel, row: int, col: int)
    ensures
        ({
            let c = child_model(board, scorer, m, row, col);
            let changes = move_changes(board, m.moves, row, col, m.player_to_play);
            let pairs = move_captures(board, m.moves, row, col, m.player_to_play).len() / 2;
            &&& c.moves == apply_changes(board, m.moves, changes)
            &&& c.captures_white == if m.player_to_play == PlayerType::White {
                (m.captures_white + pairs) as u32
            } else {
                m.captures_white
            }
            &&& c.captures_black == if m.player_to_play == PlayerType::Black {
                (m.captures_black + pairs) as u32
            } else {
                m.captures_black
            }
            &&& c.score_white == m.score_white + changes_delta(board, scorer, PlayerType::White, m.moves, changes)
                + capture_delta(m.captures_white, m.captures_black, c.captures_white, c.captures_black)
            &&& c.score_black == m.score_black + changes_delta(board, scorer, PlayerType::Black, m.moves, changes)
                + capture_delta(m.captures_black, m.captures_white, c.captures_black, c.captures_white)
        }),
{
}

/// A stone stands at (r, c).
pub open spec fn is_stone(board: BoardState, r: int, c: int) -> bool {
    0 <= r < board.height && 0 <= c < board.width && board.tile(r, c) != TileType::Empty
}

pub open spec fn has_stone(board: BoardState) -> bool {
    exists|r: int, c: int| is_stone(board, r, c)
}

/// `b` = (min_row, max_row, min_col, max_col) is the bounding box of the
/// stones on `board`, or its centre point when it is empty.
pub open spec fn is_stone_box(board: BoardState, b: (usize, usize, usize, usize)) -> bool {
    if has_stone(board) {
        &&& exists|c: int| #[trigger] is_stone(board, b.0 as int, c)
        &&& exists|c: int| #[trigger] is_stone(board, b.1 as int, c)
        &&& exists|r: int| #[trigger] is_stone(board, r, b.2 as int)
        &&& exists|r: int| #[trigger] is_stone(board, r, b.3 as int)
        &&& forall|r: int, c: int|
            #[trigger] is_stone(board, r, c) ==> b.0 <= r <= b.1 && b.2 <= c <= b.3
    } else {
        b == (board.height / 2, board.height / 2, board.width / 2, board.width / 2)
    }
}

/// Evaluating `board` from scratch stays in `i32`.
pub open spec fn root_fits(board: BoardState, scorer: PatternScorer) -> bool {
    &&& prefix_sums_fit(full_line_values(board, board.grid(), scorer, PlayerType::White))
    &&& prefix_sums_fit(full_line_values(board, board.grid(), scorer, PlayerType::Black))
    &&& in_i32(full_score(board, board.grid(), scorer, PlayerType::White) + capture_value(board.captures_white) - capture_value(board.captures_black))
    &&& in_i32(full_score(board, board.grid(), scorer, PlayerType::Black) + capture_value(board.captures_black) - capture_value(board.captures_white))
}

/// Scanning (r, c) comes before scanning (row, col) in row-major order.
pub open spec fn scanned_before(r: int, c: int, row: int, col: int) -> bool {
    r < row || (r == row && c < col)
}

/// A board position plus overlay stones and the composed pattern score.
#[derive(Clone)]
pub struct EvaluatedMoveSet<'a> {
    pub board: &'a BoardState,
    /// Stones played on top of `board`; key is [`BoardState::index`].
    pub moves: MoveMap,
    /// The coordinates of the move, if any
    pub move_coords: Option<(usize, usize)>,
    /// bounding box of all played moves thus far
    pub min_row: usize,
    pub max_row: usize,
    pub min_col: usize,
    pub max_col: usize,
    /// Cumulative pairs captured so far, by capturing player.
    pub captures_white: u32,
    pub captures_black: u32,
    pub score_white: i32,
    pub score_black: i32,
    pub player_to_play: PlayerType,
    pub score: i32,
}

impl<'a> EvaluatedMoveSet<'a> {
    pub open spec fn model(&self) -> MoveSetModel {
        MoveSetModel {
            moves: self.moves@,
            move_coords: self.move_coords,
            min_row: self.min_row,
            max_row: self.max_row,
            min_col: self.min_col,
            max_col: self.max_col,
            captures_white: self.captures_white,
            captures_black: self.captures_black,
            score_white: self.score_white as int,
            score_black: self.score_black as int,
            player_to_play: self.player_to_play,
        }
    }

    /// `score` is the score of the player to move.
    pub open spec fn score_is_current(&self) -> bool {
        self.score == if self.player_to_play == PlayerType::White {
            self.score_white
        } else {
            self.score_black
        }
    }

    /// Initialize an EvaluatedMoveSet from a BoardState, evaluating the full
    /// board.
    pub fn from_board_state(board: &'a BoardState, scorer: &PatternScorer, player_to_play: PlayerType) -> (ems: Self)
        requires
            board.wf(),
            scorer.wf(),
            full_scan_fits(board.width as int, board.height as int),
            root_fits(*board, *scorer),
        ensures
            ems.board == board,
            ems.moves@ == Map::<usize, TileType>::empty(),
            ems.move_coords is None,
            is_stone_box(*board, (ems.min_row, ems.max_row, ems.min_col, ems.max_col)),
            ems.captures_white == board.captures_white,
            ems.captures_black == board.captures_black,
            ems.score_white == full_score(*board, board.grid(), *scorer, PlayerType::White)
                + capture_value(board.captures_white) - capture_value(board.captures_black),
            ems.score_black == full_score(*board, board.grid(), *scorer, PlayerType::Black)
                + capture_value(board.captures_black) - capture_value(board.captures_white),
            ems.player_to_play == player_to_play,
            ems.score_is_current(),
    {
        let map = MoveMap::with_capacity(0);
        let (mut min_row, mut max_row, mut min_col, mut max_col): (usize, usize, usize, usize) = (
            board.height / 2,
            board.height / 2,
            board.width / 2,
            board.width / 2,
        );
        let mut is_empty = true;
        // Witnesses: stones at (min_row, c0), (max_row, c1), (r2, min_col), (r3, max_col).
        let ghost mut c0: int = 0;
        let ghost mut c1: int = 0;
        let ghost mut r2: int = 0;
        let ghost mut r3: int = 0;
        let mut row: usize = 0;
        while row < board.height
            invariant
                board.wf(),
                0 <= row <= board.height,
                is_empty ==> (min_row, max_row, min_col, max_col) == (
                    board.height / 2,
                    board.height / 2,
                    board.width / 2,
                    board.width / 2,
                ),
                is_empty ==> forall|r: int, c: int|
                    #[trigger] is_stone(*board, r, c) ==> !scanned_before(r, c, row as int, 0),
                !is_empty ==> {
                    &&& is_stone(*board, min_row as int, c0)
                    &&& is_stone(*board, max_row as int, c1)
                    &&& is_stone(*board, r2, min_col as int)
                    &&& is_stone(*board, r3, max_col as int)
                    &&& forall|r: int, c: int|
                        #[trigger] is_stone(*board, r, c) && scanned_before(r, c, row as int, 0)
                            ==> min_row <= r <= max_row && min_col <= c <= max_col
                },
            decreases board.height - row,
        {
            let mut col: usize = 0;
            while col < board.width
                invariant
                    board.wf(),
                    0 <= row < board.height,
                    0 <= col <= board.width,
                    is_empty ==> (min_row, max_row, min_col, max_col) == (
                        board.height / 2,
                        board.height / 2,
                        board.width / 2,
                        board.width / 2,
                    ),
                    is_empty ==> forall|r: int, c: int|
                        #[trigger] is_stone(*board, r, c) ==> !scanned_before(r, c, row as int, col as int),
                    !is_empty ==> {
                        &&& is_stone(*board, min_row as int, c0)
                        &&& is_stone(*board, max_row as int, c1)
                        &&& is_stone(*board, r2, min_col as int)
                        &&& is_stone(*board, r3, max_col as int)
                        &&& forall|r: int, c: int|
                            #[trigger] is_stone(*board, r, c) && scanned_before(r, c, row as int, col as int)
                                ==> min_row <= r <= max_row && min_col <= c <= max_col
                    },
                decreases board.width - col,
            {
                proof {
                    lemma_cell_in_board(board.width as int, board.height as int, row as int, col as int);
                }
                if board.get_tile(row, col) != TileType::Empty {
                    assert(is_stone(*board, row as int, col as int));
                    if is_empty {
                        min_row = row;
                        max_row = row;
                        min_col = col;
                        max_col = col;
                        is_empty = false;
                        proof {
                            c0 = col as int;
                            c1 = col as int;
                            r2 = row as int;
                            r3 = row as int;
                        }
                    } else {
                        if row < min_row {
                            proof {
                                c0 = col as int;
                            }
                        }
                        if row > max_row {
                            proof {
                                c1 = col as int;
                            }
                        }
                        if col < min_col {
                            proof {
                                r2 = row as int;
                            }
                        }
                        min_row = min_row.min(row);
                        max_row = max_row.max(row);
                        min_col = min_col.min(col);
                    }
                    if col > max_col {
                        proof {
                            r3 = row as int;
                        }
                    }
                    min_row = min_row.min(row);
                    max_row = max_row.max(row);
                    min_col = min_col.min(col);
                    max_col = max_col.max(col);
                }
                col += 1;
            }
            row += 1;
        }
        proof {
            if has_stone(*board) {
                let (r, c) = choose|r: int, c: int| is_stone(*board, r, c);
                assert(is_stone(*board, r, c));
                assert(scanned_before(r, c, row as int, 0));
                assert(!is_empty);
            }
            if !is_empty {
                assert(is_stone(*board, min_row as int, c0));
                assert(has_stone(*board));
            }
            if !is_empty {
                assert forall|r: int, c: int| #[trigger] is_stone(*board, r, c) implies min_row <= r <= max_row && min_col <= c <= max_col by {
                    assert(scanned_before(r, c, row as int, 0));
                }
                assert(is_stone(*board, max_row as int, c1));
                assert(is_stone(*board, r2, min_col as int));
                assert(is_stone(*board, r3, max_col as int));
                let b = (min_row, max_row, min_col, max_col);
                assert(is_stone(*board, b.0 as int, c0));
                assert(is_stone(*board, b.1 as int, c1));
                assert(is_stone(*board, r2, b.2 as int));
                assert(is_stone(*board, r3, b.3 as int));
            } else {
                assert(!has_stone(*board));
            }
            assert(is_stone_box(*board, (min_row, max_row, min_col, max_col)));
        }
        let ghost grid = overlay(*board, map@);
        proof {
            assert(grid =~= board.grid());
        }
        let mut this = Self {
            board,
            moves: map,
            move_coords: None,
            min_row,
            max_row,
            min_col,
            max_col,
            player_to_play,
            captures_white: board.captures_white,
            captures_black: board.captures_black,
            score_white: 0,
            score_black: 0,
            score: 0,
        };
        let white = evaluate_full(board, scorer, &this.moves, PlayerType::White);
        let black = evaluate_full(board, scorer, &this.moves, PlayerType::Black);
        match (white, black) {
            (Some(white), Some(black)) => {
                this.score_white = white + net_capture_score(this.captures_white, this.captures_black);
                this.score_black = black + net_capture_score(this.captures_black, this.captures_white);
            },
            _ => {
                proof {
                    assert(false);
                }
            },
        }
        this.score = if player_to_play == PlayerType::White {
            this.score_white
        } else {
            this.score_black
        };
        this
    }


    /// Whether evaluating `board` from scratch stays in `i32`, as
    /// [`EvaluatedMoveSet::from_board_state`] needs.
    pub fn root_fits_check(board: &BoardState, scorer: &PatternScorer) -> (ok: bool)
        requires
            board.wf(),
            scorer.wf(),
            full_scan_fits(board.width as int, board.height as int),
        ensures
            ok == root_fits(*board, *scorer),
    {
        let moves = MoveMap::with_capacity(0);
        proof {
            assert(overlay(*board, moves@) =~= board.grid());
        }
        let white = evaluate_full(board, scorer, &moves, PlayerType::White);
        let black = evaluate_full(board, scorer, &moves, PlayerType::Black);
        match (white, black) {
            (Some(white), Some(black)) => {
                let net_white = net_capture_score(board.captures_white, board.captures_black);
                let net_black = net_capture_score(board.captures_black, board.captures_white);
                white.checked_add(net_white).is_some() && black.checked_add(net_black).is_some()
            },
            _ => false,
        }
    }

    /// [`EvaluatedMoveSet::from_board_state`] where evaluating the board
    /// from scratch stays in `i32`, and `None` where it would not.
    pub fn try_from_board_state(board: &'a BoardState, scorer: &PatternScorer, player_to_play: PlayerType) -> (ems:
        Option<Self>)
        requires
            board.wf(),
            scorer.wf(),
            full_scan_fits(board.width as int, board.height as int),
        ensures
            ems is Some <==> root_fits(*board, *scorer),
            ems is Some ==> {
                let e = ems->0;
                &&& e.board == board
                &&& e.moves@ == Map::<usize, TileType>::empty()
                &&& e.move_coords is None
                &&& is_stone_box(*board, (e.min_row, e.max_row, e.min_col, e.max_col))
                &&& e.captures_white == board.captures_white
                &&& e.captures_black == board.captures_black
                &&& e.score_white == full_score(*board, board.grid(), *scorer, PlayerType::White)
                    + capture_value(board.captures_white) - capture_value(board.captures_black)
                &&& e.score_black == full_score(*board, board.grid(), *scorer, PlayerType::Black)
                    + capture_value(board.captures_black) - capture_value(board.captures_white)
                &&& e.player_to_play == player_to_play
                &&& e.score_is_current()
            },
    {
        if Self::root_fits_check(board, scorer) {
            Some(Self::from_board_state(board, scorer, player_to_play))
        } else {
            None
        }
    }

    /// Add a new move to a parent EvaluatedMoveSet. Evaluates the board on the
    /// delta of the moves.
    #[verifier::rlimit(80)]
    #[verifier::spinoff_prover]
    pub fn from_parent(
        parent: &'a EvaluatedMoveSet,
        scorer: &PatternScorer,
        board: &'a BoardState,
        row: usize,
        col: usize,
    ) -> (ems: Self)
        requires
            board.wf(),
            scorer.wf(),
            board_size_ok(*board),
            row < board.height,
            col < board.width,
            move_fits(*board, *scorer, parent.model(), row as int, col as int),
        ensures
            ems.board == board,
            ems.model() == child_model(*board, *scorer, parent.model(), row as int, col as int),
            ems.score_is_current(),
    {
        let ghost m = parent.model();
        let mut moves = parent.moves.clone();
        // The mover for this transition is whoever parent says is about to
        // play; the new state then hands the turn to their opponent.
        let mover = parent.player_to_play;
        let next_to_play = mover.next();
        let tile = TileType::from_player_type(mover);
        let ghost changes = move_changes(*board, m.moves, row as int, col as int, mover);
        proof {
            assert(changes[0] == ((row, col), tile));
            lemma_changes_step(*board, *scorer, m.moves, changes, 0);
            assert(changes_delta(*board, *scorer, PlayerType::White, m.moves, changes.take(1)) == 0 + cell_change_delta(*board, *scorer, PlayerType::White, m.moves, row as int, col as int, tile));
            assert(changes_delta(*board, *scorer, PlayerType::Black, m.moves, changes.take(1)) == 0 + cell_change_delta(*board, *scorer, PlayerType::Black, m.moves, row as int, col as int, tile));
        }
        let (mut delta_white, mut delta_black) = apply_cell_change(&mut moves, board, scorer, row, col, tile);
        // A move can capture bracketed opponent pairs along any of the 8
        // directions; each captured cell is cleared and re-scored too, since
        // its removal can open or close lines that don't pass through (row, col).
        let ghost placed = overlay(*board, moves@);
        let captured = overlay_captures(board, &moves, row, col, mover);
        proof {
            lemma_captures_shape(
                board.width as int,
                board.height as int,
                row as int,
                col as int,
                mover,
                placed,
                8,
            );
        }
        let mut j: usize = 0;
        while j < captured.len()
            invariant
                board.wf(),
                scorer.wf(),
                board_size_ok(*board),
                move_fits(*board, *scorer, m, row as int, col as int),
                m == parent.model(),
                mover == m.player_to_play,
                changes == move_changes(*board, m.moves, row as int, col as int, mover),
                captured@ == move_captures(*board, m.moves, row as int, col as int, mover),
                forall|i: int|
                    0 <= i < captured@.len() ==> (#[trigger] captured@[i]).0 < board.height
                        && captured@[i].1 < board.width,
                changes.len() == captured@.len() + 1,
                0 <= j <= captured@.len(),
                moves@ == apply_changes(*board, m.moves, changes.take(j + 1)),
                delta_white == changes_delta(*board, *scorer, PlayerType::White, m.moves, changes.take(j + 1)),
                delta_black == changes_delta(*board, *scorer, PlayerType::Black, m.moves, changes.take(j + 1)),
            decreases captured@.len() - j,
        {
            let (cr, cc) = captured[j];
            proof {
                assert(changes[j + 1] == ((cr, cc), TileType::Empty));
                lemma_changes_step(*board, *scorer, m.moves, changes, j + 1);
                assert(changes_delta(*board, *scorer, PlayerType::White, m.moves, changes.take(j + 2)) == changes_delta(*board, *scorer, PlayerType::White, m.moves, changes.take(j + 1)) + cell_change_delta(*board, *scorer, PlayerType::White, moves@, cr as int, cc as int, TileType::Empty));
                assert(changes_delta(*board, *scorer, PlayerType::Black, m.moves, changes.take(j + 2)) == changes_delta(*board, *scorer, PlayerType::Black, m.moves, changes.take(j + 1)) + cell_change_delta(*board, *scorer, PlayerType::Black, moves@, cr as int, cc as int, TileType::Empty));
            }
            let (dw, db) = apply_cell_change(&mut moves, board, scorer, cr, cc, TileType::Empty);
            delta_white = delta_white + dw;
            delta_black = delta_black + db;
            j += 1;
        }
        proof {
            assert(changes.take(captured@.len() + 1 as int) =~= changes);
        }
        let captured_pairs = (captured.len() / 2) as u32;
        let mut captures_white = parent.captures_white;
        let mut captures_black = parent.captures_black;
        match mover {
            PlayerType::White => captures_white = captures_white + captured_pairs,
            PlayerType::Black => captures_black = captures_black + captured_pairs,
        }
        let capture_delta_white = net_capture_score(captures_white, captures_black) - net_capture_score(
            parent.captures_white,
            parent.captures_black,
        );
        let capture_delta_black = net_capture_score(captures_black, captures_white) - net_capture_score(
            parent.captures_black,
            parent.captures_white,
        );
        let mut this = Self {
            board,
            moves,
            move_coords: Some((row, col)),
            min_row: parent.min_row.min(row),
            max_row: parent.max_row.max(row),
            min_col: parent.min_col.min(col),
            max_col: parent.max_col.max(col),
            captures_white,
            captures_black,
            score_white: parent.score_white + delta_white + capture_delta_white,
            score_black: parent.score_black + delta_black + capture_delta_black,
            player_to_play: next_to_play,
            score: 0,
        };
        this.score = if next_to_play == PlayerType::White {
            this.score_white
        } else {
            this.score_black
        };
        this
    }
}

/// `ms` lists every occurrence of `patterns` in `text`, once, in reporting order.
pub open spec fn is_match_list(
    patterns: Seq<Seq<TurnTileType>>,
    text: Seq<TurnTileType>,
    ms: Seq<Match>,
) -> bool {
    &&& forall|k: int| 0 <= k < ms.len() ==> is_occurrence(patterns, text, #[trigger] ms[k])
    &&& forall|m: Match| is_occurrence(patterns, text, m) ==> #[trigger] ms.contains(m)
    &&& matches_in_order(ms)
}

/// The occurrences of `patterns` in `text` in reporting order.
pub open spec fn match_list(patterns: Seq<Seq<TurnTileType>>, text: Seq<TurnTileType>) -> Seq<
    Match,
> {
    choose|ms: Seq<Match>| is_match_list(patterns, text, ms)
}

/// The weights of the matches `ms`, added up in order, saturating at the
/// bounds of `i32`.
pub open spec fn weighted_sum(weights: Seq<i32>, ms: Seq<Match>) -> int
    decreases ms.len(),
{
    if ms.len() == 0 {
        0
    } else {
        clamp_i32(weighted_sum(weights, ms.drop_last()) + weights[ms.last().pattern_id as int])
    }
}

/// Score of one line: the weights of all pattern occurrences in it.
pub open spec fn line_score(
    patterns: Seq<Seq<TurnTileType>>,
    weights: Seq<i32>,
    line: Seq<TurnTileType>,
) -> int {
    weighted_sum(weights, match_list(patterns, line))
}

/// `match_precedes` is a strict order.
proof fn lemma_precedes_strict(a: Match, b: Match, c: Match)
    ensures
        !match_precedes(a, a),
        match_precedes(a, b) ==> !match_precedes(b, a),
        match_precedes(a, b) && match_precedes(b, c) ==> match_precedes(a, c),
        !match_precedes(a, b) && !match_precedes(b, a) ==> a == b,
{
}

/// Two lists in reporting order with the same elements are equal.
proof fn lemma_ordered_unique(s1: Seq<Match>, s2: Seq<Match>)
    requires
        matches_in_order(s1),
        matches_in_order(s2),
        forall|m: Match| s1.contains(m) <==> s2.contains(m),
    ensures
        s1 == s2,
    decreases s1.len(),
{
    if s1.len() == 0 {
        if s2.len() > 0 {
            assert(s2.contains(s2[0]));
        }
        assert(s1 =~= s2);
    } else {
        assert(s1.contains(s1[0]));
        assert(s2.len() > 0);
        assert(s2.contains(s2[0]));
        let j = choose|j: int| 0 <= j < s2.len() && s2[j] == s1[0];
        let k = choose|k: int| 0 <= k < s1.len() && s1[k] == s2[0];
        if j > 0 {
            assert(match_precedes(s2[0], s2[j]));
            if k > 0 {
                assert(match_precedes(s1[0], s1[k]));
                lemma_precedes_strict(s1[0], s2[0], s1[0]);
            }
        }
        assert(s1[0] == s2[0]);
        let t1 = s1.drop_first();
        let t2 = s2.drop_first();
        assert forall|m: Match| t1.contains(m) <==> t2.contains(m) by {
            if t1.contains(m) {
                let a = choose|a: int| 0 <= a < t1.len() && t1[a] == m;
                assert(s1[a + 1] == m);
                assert(match_precedes(s1[0], s1[a + 1]));
                assert(s2.contains(m));
                let b = choose|b: int| 0 <= b < s2.len() && s2[b] == m;
                if b == 0 {
                    lemma_precedes_strict(m, m, m);
                }
                assert(t2[b - 1] == m);
            }
            if t2.contains(m) {
                let a = choose|a: int| 0 <= a < t2.len() && t2[a] == m;
                assert(s2[a + 1] == m);
                assert(match_precedes(s2[0], s2[a + 1]));
                assert(s1.contains(m));
                let b = choose|b: int| 0 <= b < s1.len() && s1[b] == m;
                if b == 0 {
                    lemma_precedes_strict(m, m, m);
                }
                assert(t1[b - 1] == m);
            }
        }
        assert(matches_in_order(t1)) by {
            assert forall|k1: int, k2: int| 0 <= k1 < k2 < t1.len() implies match_precedes(
                #[trigger] t1[k1],
                #[trigger] t1[k2],
            ) by {
                assert(match_precedes(s1[k1 + 1], s1[k2 + 1]));
            }
        }
        assert(matches_in_order(t2)) by {
            assert forall|k1: int, k2: int| 0 <= k1 < k2 < t2.len() implies match_precedes(
                #[trigger] t2[k1],
                #[trigger] t2[k2],
            ) by {
                assert(match_precedes(s2[k1 + 1], s2[k2 + 1]));
            }
        }
        lemma_ordered_unique(t1, t2);
        assert(s1 =~= seq![s1[0]] + t1);
        assert(s2 =~= seq![s2[0]] + t2);
    }
}

/// A list with the defining properties is the match list.
pub proof fn lemma_match_list_is(patterns: Seq<Seq<TurnTileType>>, text: Seq<TurnTileType>, ms: Seq<Match>)
    requires
        is_match_list(patterns, text, ms),
    ensures
        match_list(patterns, text) == ms,
{
    let other = match_list(patterns, text);
    assert(is_match_list(patterns, text, other));
    assert forall|m: Match| ms.contains(m) <==> other.contains(m) by {
        if ms.contains(m) {
            let k = choose|k: int| 0 <= k < ms.len() && ms[k] == m;
            assert(is_occurrence(patterns, text, ms[k]));
        }
        if other.contains(m) {
            let k = choose|k: int| 0 <= k < other.len() && other[k] == m;
            assert(is_occurrence(patterns, text, other[k]));
        }
    }
    lemma_ordered_unique(ms, other);
}

/// Uses a DFA to calculate a score given a pattern of inputs.
#[derive(Clone)]
pub struct PatternScorer {
    dfa: TileDfa,
    weights: PatternWeights,
}

impl PatternScorer {
    /// The patterns the scorer looks for.
    pub closed spec fn patterns(&self) -> Seq<Seq<TurnTileType>> {
        self.dfa@
    }

    /// The score of each pattern.
    pub closed spec fn weights(&self) -> Seq<i32> {
        self.weights@
    }

    /// The automaton is built and every pattern has a weight.
    pub closed spec fn wf(&self) -> bool {
        &&& self.dfa.wf()
        &&& self.dfa.is_built()
        &&& self.weights@.len() == self.dfa@.len()
    }

    pub fn new(dfa: TileDfa, weights: PatternWeights) -> (scorer: Self)
        ensures
            scorer.patterns() == dfa@,
            scorer.weights() == weights@,
            scorer.wf() == (dfa.wf() && dfa.is_built() && weights@.len() == dfa@.len()),
    {
        Self { dfa, weights }
    }

    /// The score of `line`: the weights of all pattern occurrences in it,
    /// added in reporting order, saturating at the bounds of `i32`.
    pub fn score_line(&self, line: &[TurnTileType]) -> (score: i32)
        requires
            self.wf(),
        ensures
            score == line_score(self.patterns(), self.weights(), line@),
    {
        let ms = self.dfa.find_matches(line);
        proof {
            lemma_match_list_is(self.dfa@, line@, ms@);
        }
        let mut sum: i32 = 0;
        let mut k: usize = 0;
        while k < ms.len()
            invariant
                self.wf(),
                0 <= k <= ms@.len(),
                forall|j: int| 0 <= j < ms@.len() ==> is_occurrence(self.dfa@, line@, #[trigger] ms@[j]),
                sum == weighted_sum(self.weights@, ms@.take(k as int)),
            decreases ms@.len() - k,
        {
            assert(is_occurrence(self.dfa@, line@, ms@[k as int]));
            let w = self.weights[ms[k].pattern_id];
            proof {
                assert(ms@.take(k + 1).drop_last() =~= ms@.take(k as int));
            }
            sum = saturating_add_i32(sum, w);
            k += 1;
        }
        assert(ms@.take(ms@.len() as int) =~= ms@);
        sum
    }
}

} // verus!
