//! Grid state for Pente-style evaluation, and the capture rule.

use vstd::prelude::*;
use crate::text::{
    ascii_lower, char_debug, char_debug_text, chars_of, decimal, is_space_char, push_decimal, strip_spaces, trim,
    trim_bounds,
};
use crate::tile::{opponent, stone_of, PlayerType, TileType};

verus! {

/// A board: `tiles` holds the points row by row.
#[derive(Clone, Debug, PartialEq, Eq)]
pub struct BoardState {
    pub width: usize,
    pub height: usize,
    pub tiles: Vec<TileType>,
    /// Pairs of opponent stones captured so far, by capturing player.
    pub captures_white: u32,
    pub captures_black: u32,
}

/// The eight line directions (four axes) checked for captures, in the order
/// in which captures are reported.
pub open spec fn capture_direction(k: int) -> (int, int) {
    if k == 0 {
        (-1, -1)
    } else if k == 1 {
        (-1, 0)
    } else if k == 2 {
        (-1, 1)
    } else if k == 3 {
        (0, -1)
    } else if k == 4 {
        (0, 1)
    } else if k == 5 {
        (1, -1)
    } else if k == 6 {
        (1, 0)
    } else {
        (1, 1)
    }
}

/// Placing `player`'s stone at (row, col) brackets an opponent pair in
/// direction `k`: own-opp-opp-own, with the far stone on the board.
pub open spec fn brackets_pair(
    width: int,
    height: int,
    row: int,
    col: int,
    player: PlayerType,
    grid: spec_fn(usize, usize) -> TileType,
    k: int,
) -> bool {
    let (dr, dc) = capture_direction(k);
    let opp = stone_of(opponent(player));
    &&& 0 <= row + 3 * dr < height
    &&& 0 <= col + 3 * dc < width
    &&& grid((row + dr) as usize, (col + dc) as usize) == opp
    &&& grid((row + 2 * dr) as usize, (col + 2 * dc) as usize) == opp
    &&& grid((row + 3 * dr) as usize, (col + 3 * dc) as usize) == stone_of(player)
}

/// The stones captured in the first `k` directions, two per bracketed pair,
/// nearer stone first.
pub open spec fn captures_through(
    width: int,
    height: int,
    row: int,
    col: int,
    player: PlayerType,
    grid: spec_fn(usize, usize) -> TileType,
    k: nat,
) -> Seq<(usize, usize)>
    decreases k,
{
    if k == 0 {
        seq![]
    } else {
        let prev = captures_through(width, height, row, col, player, grid, (k - 1) as nat);
        let (dr, dc) = capture_direction(k - 1);
        if brackets_pair(width, height, row, col, player, grid, k - 1) {
            prev.push(((row + dr) as usize, (col + dc) as usize)).push(
                ((row + 2 * dr) as usize, (col + 2 * dc) as usize),
            )
        } else {
            prev
        }
    }
}

/// All stones captured by placing `player`'s stone at (row, col).
pub open spec fn captures_spec(
    width: int,
    height: int,
    row: int,
    col: int,
    player: PlayerType,
    grid: spec_fn(usize, usize) -> TileType,
) -> Seq<(usize, usize)> {
    captures_through(width, height, row, col, player, grid, 8)
}

/// The captures of a move read only the board around the placed point: two
/// boards that agree everywhere on the board except perhaps at (row, col)
/// give the same captures, whatever stands at (row, col).
pub proof fn lemma_captures_ignore_played_point(
    width: int,
    height: int,
    row: int,
    col: int,
    player: PlayerType,
    g1: spec_fn(usize, usize) -> TileType,
    g2: spec_fn(usize, usize) -> TileType,
    k: nat,
)
    requires
        0 <= row < height <= usize::MAX,
        0 <= col < width <= usize::MAX,
        k <= 8,
        forall|r: usize, c: usize|
            r < height && c < width && !(r == row && c == col) ==> #[trigger] g1(r, c) == g2(r, c),
    ensures
        captures_through(width, height, row, col, player, g1, k) == captures_through(
            width,
            height,
            row,
            col,
            player,
            g2,
            k,
        ),
    decreases k,
{
    if k > 0 {
        lemma_captures_ignore_played_point(width, height, row, col, player, g1, g2, (k - 1) as nat);
        let (dr, dc) = capture_direction(k - 1);
        if 0 <= row + 3 * dr < height && 0 <= col + 3 * dc < width {
            assert(-1 <= dr <= 1 && -1 <= dc <= 1 && !(dr == 0 && dc == 0));
            assert forall|i: int| 1 <= i <= 3 implies #[trigger] g1((row + i * dr) as usize, (col + i * dc) as usize)
                == g2((row + i * dr) as usize, (col + i * dc) as usize) by {
                assert(0 <= row + i * dr < height && 0 <= col + i * dc < width) by (nonlinear_arith)
                    requires
                        1 <= i <= 3,
                        -1 <= dr <= 1,
                        -1 <= dc <= 1,
                        0 <= row < height,
                        0 <= col < width,
                        0 <= row + 3 * dr < height,
                        0 <= col + 3 * dc < width,
                ;
                assert(!(i * dr == 0 && i * dc == 0)) by (nonlinear_arith)
                    requires
                        1 <= i,
                        !(dr == 0 && dc == 0),
                ;
                let r = (row + i * dr) as usize;
                let c = (col + i * dc) as usize;
                assert(r == row + i * dr && c == col + i * dc);
                assert(g1(r, c) == g2(r, c));
            }
            assert(g1((row + 1 * dr) as usize, (col + 1 * dc) as usize) == g2((row + 1 * dr) as usize, (col + 1 * dc) as usize));
            assert(g1((row + 2 * dr) as usize, (col + 2 * dc) as usize) == g2((row + 2 * dr) as usize, (col + 2 * dc) as usize));
            assert(g1((row + 3 * dr) as usize, (col + 3 * dc) as usize) == g2((row + 3 * dr) as usize, (col + 3 * dc) as usize));
            assert(row + 1 * dr == row + dr && col + 1 * dc == col + dc);
        }
    }
}

/// (dr, dc) is one step along one of the eight line directions.
pub open spec fn unit_step(dr: int, dc: int) -> bool {
    -1 <= dr <= 1 && -1 <= dc <= 1 && !(dr == 0 && dc == 0)
}

/// Placing `player`'s stone at (row, col) brackets an opponent pair in the
/// direction (dr, dc): the next two points hold the opponent's stones and
/// the point after them, on the board, holds `player`'s.
pub open spec fn pair_bracketed(
    width: int,
    height: int,
    row: int,
    col: int,
    player: PlayerType,
    grid: spec_fn(usize, usize) -> TileType,
    dr: int,
    dc: int,
) -> bool {
    &&& 0 <= row + 3 * dr < height
    &&& 0 <= col + 3 * dc < width
    &&& grid((row + dr) as usize, (col + dc) as usize) == stone_of(opponent(player))
    &&& grid((row + 2 * dr) as usize, (col + 2 * dc) as usize) == stone_of(opponent(player))
    &&& grid((row + 3 * dr) as usize, (col + 3 * dc) as usize) == stone_of(player)
}

/// The stone `i` steps from (row, col) in direction (dr, dc).
pub open spec fn step_point(row: int, col: int, dr: int, dc: int, i: int) -> (usize, usize) {
    if i == 1 {
        ((row + dr) as usize, (col + dc) as usize)
    } else {
        ((row + 2 * dr) as usize, (col + 2 * dc) as usize)
    }
}

/// The capture directions are the eight line directions, each once.
pub proof fn lemma_capture_directions()
    ensures
        forall|k: int| 0 <= k < 8 ==> unit_step(#[trigger] capture_direction(k).0, capture_direction(k).1),
        forall|k1: int, k2: int|
            0 <= k1 < 8 && 0 <= k2 < 8 && k1 != k2 ==> #[trigger] capture_direction(k1) != #[trigger] capture_direction(k2),
        forall|dr: int, dc: int| unit_step(dr, dc) ==> exists|k: int| 0 <= k < 8 && #[trigger] capture_direction(k) == (dr, dc),
{
    assert forall|dr: int, dc: int| unit_step(dr, dc) implies exists|k: int|
        0 <= k < 8 && #[trigger] capture_direction(k) == (dr, dc) by {
        let k: int = if dr == -1 {
            if dc == -1 {
                0
            } else if dc == 0 {
                1
            } else {
                2
            }
        } else if dr == 0 {
            if dc == -1 {
                3
            } else {
                4
            }
        } else {
            if dc == -1 {
                5
            } else if dc == 0 {
                6
            } else {
                7
            }
        };
        assert(capture_direction(k) == (dr, dc));
    }
}

/// Two capture directions, by number.
proof fn lemma_direction_pair(j: int, k: int)
    requires
        0 <= j < 8,
        0 <= k < 8,
    ensures
        unit_step(capture_direction(j).0, capture_direction(j).1),
        j != k ==> capture_direction(j) != capture_direction(k),
{
}

/// Stones one or two steps out along two on-board lines from (row, col) are
/// different stones unless they are the same step along the same line.
proof fn lemma_step_points_differ(
    width: int,
    height: int,
    row: int,
    col: int,
    d1: (int, int),
    t1: int,
    d2: (int, int),
    t2: int,
)
    requires
        0 <= row < height <= usize::MAX,
        0 <= col < width <= usize::MAX,
        unit_step(d1.0, d1.1),
        unit_step(d2.0, d2.1),
        t1 == 1 || t1 == 2,
        t2 == 1 || t2 == 2,
        d1 != d2 || t1 != t2,
        0 <= row + 3 * d1.0 < height,
        0 <= col + 3 * d1.1 < width,
        0 <= row + 3 * d2.0 < height,
        0 <= col + 3 * d2.1 < width,
    ensures
        step_point(row, col, d1.0, d1.1, t1) != step_point(row, col, d2.0, d2.1, t2),
{
    let p = step_point(row, col, d1.0, d1.1, t1);
    let q = step_point(row, col, d2.0, d2.1, t2);
    if t1 == 1 {
        assert(p.0 == row + d1.0 && p.1 == col + d1.1);
    } else {
        assert(p.0 == row + 2 * d1.0 && p.1 == col + 2 * d1.1);
    }
    if t2 == 1 {
        assert(q.0 == row + d2.0 && q.1 == col + d2.1);
    } else {
        assert(q.0 == row + 2 * d2.0 && q.1 == col + 2 * d2.1);
    }
}

/// A capture of the first `k` directions: stone `t` (1 or 2) of the pair
/// bracketed in direction `j`, for some `j` below `k`.
pub open spec fn captured_by(
    width: int,
    height: int,
    row: int,
    col: int,
    player: PlayerType,
    grid: spec_fn(usize, usize) -> TileType,
    k: int,
    p: (usize, usize),
) -> bool {
    exists|j: int, t: int|
        0 <= j < k && (t == 1 || t == 2) && #[trigger] brackets_pair(width, height, row, col, player, grid, j) && p
            == #[trigger] step_point(row, col, capture_direction(j).0, capture_direction(j).1, t)
}

/// Every capture of the first `k` directions comes from a bracketed pair.
#[verifier::spinoff_prover]
proof fn lemma_captures_through_sound(
    width: int,
    height: int,
    row: int,
    col: int,
    player: PlayerType,
    grid: spec_fn(usize, usize) -> TileType,
    k: nat,
)
    requires
        k <= 8,
    ensures
        forall|i: int|
            0 <= i < captures_through(width, height, row, col, player, grid, k).len() ==> captured_by(
                width,
                height,
                row,
                col,
                player,
                grid,
                k as int,
                #[trigger] captures_through(width, height, row, col, player, grid, k)[i],
            ),
    decreases k,
{
    if k > 0 {
        lemma_captures_through_sound(width, height, row, col, player, grid, (k - 1) as nat);
        let prev = captures_through(width, height, row, col, player, grid, (k - 1) as nat);
        let s = captures_through(width, height, row, col, player, grid, k);
        let (dr, dc) = capture_direction(k - 1);
        assert forall|i: int| 0 <= i < s.len() implies captured_by(
            width,
            height,
            row,
            col,
            player,
            grid,
            k as int,
            #[trigger] s[i],
        ) by {
            if i < prev.len() {
                assert(s[i] == prev[i]);
                assert(captured_by(width, height, row, col, player, grid, k - 1, prev[i]));
                let (j, t) = choose|j: int, t: int|
                    0 <= j < k - 1 && (t == 1 || t == 2) && #[trigger] brackets_pair(width, height, row, col, player, grid, j)
                        && prev[i] == #[trigger] step_point(row, col, capture_direction(j).0, capture_direction(j).1, t);
                assert(brackets_pair(width, height, row, col, player, grid, j));
            } else if i == prev.len() {
                assert(s[i] == step_point(row, col, dr, dc, 1));
                assert(brackets_pair(width, height, row, col, player, grid, k - 1));
            } else {
                assert(s[i] == step_point(row, col, dr, dc, 2));
                assert(brackets_pair(width, height, row, col, player, grid, k - 1));
            }
        }
    }
}

/// Every pair bracketed in one of the first `k` directions is captured.
#[verifier::spinoff_prover]
proof fn lemma_captures_through_complete(
    width: int,
    height: int,
    row: int,
    col: int,
    player: PlayerType,
    grid: spec_fn(usize, usize) -> TileType,
    k: nat,
)
    requires
        k <= 8,
    ensures
        forall|j: int, t: int|
            0 <= j < k && (t == 1 || t == 2) && #[trigger] brackets_pair(width, height, row, col, player, grid, j)
                ==> captures_through(width, height, row, col, player, grid, k).contains(
                #[trigger] step_point(row, col, capture_direction(j).0, capture_direction(j).1, t),
            ),
    decreases k,
{
    if k > 0 {
        lemma_captures_through_complete(width, height, row, col, player, grid, (k - 1) as nat);
        let prev = captures_through(width, height, row, col, player, grid, (k - 1) as nat);
        let s = captures_through(width, height, row, col, player, grid, k);
        let (dr, dc) = capture_direction(k - 1);
        assert forall|j: int, t: int|
            0 <= j < k && (t == 1 || t == 2) && #[trigger] brackets_pair(width, height, row, col, player, grid, j)
                implies s.contains(#[trigger] step_point(row, col, capture_direction(j).0, capture_direction(j).1, t)) by {
            let x = step_point(row, col, capture_direction(j).0, capture_direction(j).1, t);
            if j < k - 1 {
                assert(prev.contains(x));
                let ix = choose|ix: int| 0 <= ix < prev.len() && prev[ix] == x;
                assert(s[ix] == x);
            } else if t == 1 {
                assert(s[prev.len() as int] == x);
            } else {
                assert(s[prev.len() as int + 1] == x);
            }
        }
    }
}

/// No stone is captured twice.
#[verifier::spinoff_prover]
proof fn lemma_captures_through_distinct(
    width: int,
    height: int,
    row: int,
    col: int,
    player: PlayerType,
    grid: spec_fn(usize, usize) -> TileType,
    k: nat,
)
    requires
        0 <= row < height <= usize::MAX,
        0 <= col < width <= usize::MAX,
        k <= 8,
    ensures
        captures_through(width, height, row, col, player, grid, k).no_duplicates(),
    decreases k,
{
    if k > 0 {
        lemma_captures_through_distinct(width, height, row, col, player, grid, (k - 1) as nat);
        lemma_captures_through_sound(width, height, row, col, player, grid, (k - 1) as nat);
        let prev = captures_through(width, height, row, col, player, grid, (k - 1) as nat);
        let s = captures_through(width, height, row, col, player, grid, k);
        let (dr, dc) = capture_direction(k - 1);
        lemma_direction_pair(k - 1, k - 1);
        if brackets_pair(width, height, row, col, player, grid, k - 1) {
            let a = step_point(row, col, dr, dc, 1);
            let b = step_point(row, col, dr, dc, 2);
            assert(s == prev.push(a).push(b));
            assert forall|i: int| 0 <= i < prev.len() implies prev[i] != a && prev[i] != b by {
                assert(captured_by(width, height, row, col, player, grid, k - 1, prev[i]));
                let (j, t) = choose|j: int, t: int|
                    0 <= j < k - 1 && (t == 1 || t == 2) && #[trigger] brackets_pair(width, height, row, col, player, grid, j)
                        && prev[i] == #[trigger] step_point(row, col, capture_direction(j).0, capture_direction(j).1, t);
                lemma_direction_pair(j, k - 1);
                lemma_step_points_differ(width, height, row, col, capture_direction(j), t, (dr, dc), 1);
                lemma_step_points_differ(width, height, row, col, capture_direction(j), t, (dr, dc), 2);
            }
            lemma_step_points_differ(width, height, row, col, (dr, dc), 1, (dr, dc), 2);
            assert forall|x: int, y: int| 0 <= x < s.len() && 0 <= y < s.len() && x != y implies s[x] != s[y] by {
                if x < prev.len() && y < prev.len() {
                    assert(s[x] == prev[x] && s[y] == prev[y]);
                } else if x < prev.len() {
                    assert(s[x] == prev[x]);
                } else if y < prev.len() {
                    assert(s[y] == prev[y]);
                }
            }
        }
    }
}

/// The capture rule, first half: placing `player`'s stone at (row, col)
/// captures every opponent pair it brackets along any of the eight line
/// directions.
#[verifier::spinoff_prover]
pub proof fn lemma_captures_complete(
    width: int,
    height: int,
    row: int,
    col: int,
    player: PlayerType,
    grid: spec_fn(usize, usize) -> TileType,
    dr: int,
    dc: int,
)
    requires
        0 <= row < height <= usize::MAX,
        0 <= col < width <= usize::MAX,
        unit_step(dr, dc),
        pair_bracketed(width, height, row, col, player, grid, dr, dc),
    ensures
        captures_spec(width, height, row, col, player, grid).contains(((row + dr) as usize, (col + dc) as usize)),
        captures_spec(width, height, row, col, player, grid).contains(
            ((row + 2 * dr) as usize, (col + 2 * dc) as usize),
        ),
{
    lemma_capture_directions();
    lemma_captures_through_complete(width, height, row, col, player, grid, 8);
    let k = choose|k: int| 0 <= k < 8 && #[trigger] capture_direction(k) == (dr, dc);
    assert(brackets_pair(width, height, row, col, player, grid, k));
    assert(step_point(row, col, dr, dc, 1) == ((row + dr) as usize, (col + dc) as usize));
    assert(step_point(row, col, dr, dc, 2) == ((row + 2 * dr) as usize, (col + 2 * dc) as usize));
}

/// The capture rule, second half: every captured stone is one of an
/// opponent pair that the placed stone brackets along some line direction,
/// and no stone is captured twice.
#[verifier::spinoff_prover]
pub proof fn lemma_captures_sound(
    width: int,
    height: int,
    row: int,
    col: int,
    player: PlayerType,
    grid: spec_fn(usize, usize) -> TileType,
    i: int,
)
    requires
        0 <= row < height <= usize::MAX,
        0 <= col < width <= usize::MAX,
        0 <= i < captures_spec(width, height, row, col, player, grid).len(),
    ensures
        captures_spec(width, height, row, col, player, grid).no_duplicates(),
        exists|dr: int, dc: int|
            #![trigger pair_bracketed(width, height, row, col, player, grid, dr, dc)]
            unit_step(dr, dc) && pair_bracketed(width, height, row, col, player, grid, dr, dc) && (captures_spec(
                width,
                height,
                row,
                col,
                player,
                grid,
            )[i] == ((row + dr) as usize, (col + dc) as usize) || captures_spec(width, height, row, col, player, grid)[i]
                == ((row + 2 * dr) as usize, (col + 2 * dc) as usize)),
{
    lemma_captures_through_sound(width, height, row, col, player, grid, 8);
    lemma_captures_through_distinct(width, height, row, col, player, grid, 8);
    let s = captures_spec(width, height, row, col, player, grid);
    assert(captured_by(width, height, row, col, player, grid, 8, s[i]));
    let (j, t) = choose|j: int, t: int|
        0 <= j < 8 && (t == 1 || t == 2) && #[trigger] brackets_pair(width, height, row, col, player, grid, j) && s[i]
            == #[trigger] step_point(row, col, capture_direction(j).0, capture_direction(j).1, t);
    lemma_direction_pair(j, j);
    let (dr, dc) = capture_direction(j);
    assert(pair_bracketed(width, height, row, col, player, grid, dr, dc));
    if t == 1 {
        assert(s[i] == ((row + dr) as usize, (col + dc) as usize));
    } else {
        assert(s[i] == ((row + 2 * dr) as usize, (col + 2 * dc) as usize));
    }
}

/// Captured stones lie on the board, off the placed point, and come in pairs.
pub proof fn lemma_captures_shape(
    width: int,
    height: int,
    row: int,
    col: int,
    player: PlayerType,
    grid: spec_fn(usize, usize) -> TileType,
    k: nat,
)
    requires
        0 <= row < height <= usize::MAX,
        0 <= col < width <= usize::MAX,
        k <= 8,
    ensures
        ({
            let s = captures_through(width, height, row, col, player, grid, k);
            &&& s.len() <= 2 * k
            &&& s.len() % 2 == 0
            &&& forall|i: int|
                0 <= i < s.len() ==> (#[trigger] s[i]).0 < height && s[i].1 < width && !(
                s[i].0 == row && s[i].1 == col)
        }),
    decreases k,
{
    if k > 0 {
        lemma_captures_shape(width, height, row, col, player, grid, (k - 1) as nat);
        let prev = captures_through(width, height, row, col, player, grid, (k - 1) as nat);
        let s = captures_through(width, height, row, col, player, grid, k);
        let (dr, dc) = capture_direction(k - 1);
        if brackets_pair(width, height, row, col, player, grid, k - 1) {
            let a = ((row + dr) as usize, (col + dc) as usize);
            let b = ((row + 2 * dr) as usize, (col + 2 * dc) as usize);
            assert(s == prev.push(a).push(b));
            assert(a.0 == row + dr && a.1 == col + dc);
            assert(b.0 == row + 2 * dr && b.1 == col + 2 * dc);
            assert forall|i: int|
                0 <= i < s.len() implies (#[trigger] s[i]).0 < height && s[i].1 < width && !(s[i].0
                == row && s[i].1 == col) by {
                if i < prev.len() {
                    assert(s[i] == prev[i]);
                } else if i == prev.len() {
                    assert(s[i] == a);
                } else {
                    assert(s[i] == b);
                }
            }
        }
    }
}

/// Where an offset of one, two and three steps from `pos` lands, when the
/// third step stays below `limit`.
fn three_steps(pos: usize, d: isize, limit: usize) -> (res: Option<(usize, usize, usize)>)
    requires
        pos < limit,
        -1 <= d <= 1,
    ensures
        match res {
            Some((p1, p2, p3)) => {
                &&& 0 <= pos + 3 * d < limit
                &&& p1 == pos + d
                &&& p2 == pos + 2 * d
                &&& p3 == pos + 3 * d
            },
            None => !(0 <= pos + 3 * d < limit),
        },
{
    if d < 0 {
        if pos >= 3 {
            Some((pos - 1, pos - 2, pos - 3))
        } else {
            None
        }
    } else if d == 0 {
        Some((pos, pos, pos))
    } else if limit - pos > 3 {
        Some((pos + 1, pos + 2, pos + 3))
    } else {
        None
    }
}

fn direction(k: usize) -> (d: (isize, isize))
    requires
        k < 8,
    ensures
        d.0 == capture_direction(k as int).0,
        d.1 == capture_direction(k as int).1,
{
    if k == 0 {
        (-1, -1)
    } else if k == 1 {
        (-1, 0)
    } else if k == 2 {
        (-1, 1)
    } else if k == 3 {
        (0, -1)
    } else if k == 4 {
        (0, 1)
    } else if k == 5 {
        (1, -1)
    } else if k == 6 {
        (1, 0)
    } else {
        (1, 1)
    }
}

/// Every captured point held an opponent stone, next to or one beyond
/// the new stone.
pub proof fn lemma_captures_are_opponent(
    width: int,
    height: int,
    row: int,
    col: int,
    player: PlayerType,
    grid: spec_fn(usize, usize) -> TileType,
    k: nat,
)
    requires
        k <= 8,
    ensures
        forall|i: int|
            0 <= i < captures_through(width, height, row, col, player, grid, k).len() ==> grid(
                (#[trigger] captures_through(width, height, row, col, player, grid, k)[i]).0,
                captures_through(width, height, row, col, player, grid, k)[i].1,
            ) == stone_of(opponent(player)),
    decreases k,
{
    if k > 0 {
        lemma_captures_are_opponent(width, height, row, col, player, grid, (k - 1) as nat);
        let prev = captures_through(width, height, row, col, player, grid, (k - 1) as nat);
        let s = captures_through(width, height, row, col, player, grid, k);
        assert forall|i: int| 0 <= i < s.len() implies grid((#[trigger] s[i]).0, s[i].1) == stone_of(opponent(player)) by {
            if i < prev.len() {
                assert(s[i] == prev[i]);
            }
        }
    }
}

/// `get` reads the tile at every point of a `width` x `height` board as
/// `grid` does.
pub open spec fn reads_as<F: Fn(usize, usize) -> TileType>(
    get: F,
    width: usize,
    height: usize,
    grid: spec_fn(usize, usize) -> TileType,
) -> bool {
    forall|r: usize, c: usize, t: TileType|
        r < height && c < width && #[trigger] call_ensures(get, (r, c), t) ==> t == grid(r, c)
}

/// Pente capture rule: a stone placed at (row, col) by `player` captures any
/// opponent pair immediately bracketed (own-opp-opp-own) along a line. `get`
/// supplies the effective tile at a coordinate *after* the new stone is
/// placed, so this works against both a materialized board and a search
/// overlay.
pub fn find_captures(
    width: usize,
    height: usize,
    row: usize,
    col: usize,
    player: PlayerType,
    get: impl Fn(usize, usize) -> TileType,
) -> (captured: Vec<(usize, usize)>)
    requires
        row < height,
        col < width,
        forall|r: usize, c: usize| r < height && c < width ==> call_requires(get, (r, c)),
    ensures
        forall|grid: spec_fn(usize, usize) -> TileType|
            #[trigger] reads_as(get, width, height, grid) ==> captured@ == captures_spec(
                width as int,
                height as int,
                row as int,
                col as int,
                player,
                grid,
            ),
{
    let opponent = TileType::from_player_type(player.next());
    let own = TileType::from_player_type(player);
    let mut captured = Vec::new();
    let mut k: usize = 0;
    while k < 8
        invariant
            row < height,
            col < width,
            forall|r: usize, c: usize| r < height && c < width ==> call_requires(get, (r, c)),
            opponent == stone_of(crate::tile::opponent(player)),
            own == stone_of(player),
            k <= 8,
            forall|grid: spec_fn(usize, usize) -> TileType|
                #[trigger] reads_as(get, width, height, grid) ==> captured@ == captures_through(
                    width as int,
                    height as int,
                    row as int,
                    col as int,
                    player,
                    grid,
                    k as nat,
                ),
        decreases 8 - k,
    {
        let (dr, dc) = direction(k);
        let rows = three_steps(row, dr, height);
        let cols = three_steps(col, dc, width);
        let ghost before = captured@;
        if let (Some((r1, r2, r3)), Some((c1, c2, c3))) = (rows, cols) {
            let t1 = get(r1, c1);
            let t2 = get(r2, c2);
            let t3 = get(r3, c3);
            if t1 == opponent && t2 == opponent && t3 == own {
                captured.push((r1, c1));
                captured.push((r2, c2));
            }
            assert forall|grid: spec_fn(usize, usize) -> TileType|
                #[trigger] reads_as(get, width, height, grid) implies captured@ == captures_through(
                    width as int,
                    height as int,
                    row as int,
                    col as int,
                    player,
                    grid,
                    (k + 1) as nat,
                ) by {
                assert(grid(r1, c1) == t1);
                assert(grid(r2, c2) == t2);
                assert(grid(r3, c3) == t3);
            }
        }
        k += 1;
    }
    captured
}

impl BoardState {
    /// The tiles hold exactly `width * height` points.
    pub open spec fn wf(&self) -> bool {
        self.tiles@.len() == self.width * self.height
    }

    /// The tile at (r, c).
    pub open spec fn tile(&self, r: int, c: int) -> TileType {
        self.tiles@[r * self.width + c]
    }

    /// The board as a function of coordinates.
    pub open spec fn grid(&self) -> spec_fn(usize, usize) -> TileType {
        |r: usize, c: usize| self.tile(r as int, c as int)
    }

    /// The board as it reads once `stone` stands at (row, col).
    pub open spec fn grid_with(&self, row: int, col: int, stone: TileType) -> spec_fn(
        usize,
        usize,
    ) -> TileType {
        |r: usize, c: usize|
            if r == row && c == col {
                stone
            } else {
                self.tile(r as int, c as int)
            }
    }

    /// Pairs captured so far by `player`.
    pub open spec fn captures_of(&self, player: PlayerType) -> u32 {
        match player {
            PlayerType::White => self.captures_white,
            PlayerType::Black => self.captures_black,
        }
    }

    pub fn new(width: usize, height: usize) -> (board: Self)
        requires
            width * height <= usize::MAX,
        ensures
            board.wf(),
            board.width == width,
            board.height == height,
            forall|i: int| 0 <= i < board.tiles@.len() ==> board.tiles@[i] == TileType::Empty,
            board.captures_white == 0,
            board.captures_black == 0,
    {
        Self {
            width,
            height,
            tiles: vec![TileType::Empty; width * height],
            captures_white: 0,
            captures_black: 0,
        }
    }

    /// Captures `player` would make by placing a stone at (row, col), without
    /// mutating the board.
    pub fn find_captures(&self, row: usize, col: usize, player: PlayerType) -> (captured: Vec<
        (usize, usize),
    >)
        requires
            self.wf(),
            row < self.height,
            col < self.width,
        ensures
            captured@ == captures_spec(
                self.width as int,
                self.height as int,
                row as int,
                col as int,
                player,
                self.grid(),
            ),
    {
        let get = |r: usize, c: usize| -> (t: TileType)
            requires
                self.wf(),
                r < self.height,
                c < self.width,
            ensures
                t == self.tile(r as int, c as int),
            {
                proof {
                    lemma_cell_in_board(self.width as int, self.height as int, r as int, c as int);
                }
                self.get_tile(r, c)
            };
        let captured = find_captures(self.width, self.height, row, col, player, get);
        assert(reads_as(get, self.width, self.height, self.grid()));
        captured
    }

    /// Places `player`'s stone at (row, col), removing any captured opponent
    /// pairs and updating that player's capture count. Returns the captured
    /// coordinates (empty if none).
    pub fn apply_move(&mut self, row: usize, col: usize, player: PlayerType) -> (captured: Vec<
        (usize, usize),
    >)
        requires
            old(self).wf(),
            row < old(self).height,
            col < old(self).width,
            old(self).captures_of(player) + captures_spec(
                old(self).width as int,
                old(self).height as int,
                row as int,
                col as int,
                player,
                old(self).grid_with(row as int, col as int, stone_of(player)),
            ).len() / 2 <= u32::MAX,
        ensures
            final(self).wf(),
            final(self).width == old(self).width,
            final(self).height == old(self).height,
            captured@ == captures_spec(
                old(self).width as int,
                old(self).height as int,
                row as int,
                col as int,
                player,
                old(self).grid_with(row as int, col as int, stone_of(player)),
            ),
            forall|r: int, c: int|
                0 <= r < old(self).height && 0 <= c < old(self).width ==> #[trigger] final(self).tile(
                    r,
                    c,
                ) == if captured@.contains((r as usize, c as usize)) {
                    TileType::Empty
                } else if r == row && c == col {
                    stone_of(player)
                } else {
                    old(self).tile(r, c)
                },
            final(self).captures_of(player) == old(self).captures_of(player) + captured@.len() / 2,
            final(self).captures_of(opponent(player)) == old(self).captures_of(opponent(player)),
    {
        let ghost placed = old(self).grid_with(row as int, col as int, stone_of(player));
        proof {
            lemma_cell_in_board(self.width as int, self.height as int, row as int, col as int);
        }
        self.set_tile(row, col, TileType::from_player_type(player));
        proof {
            assert forall|r: usize, c: usize|
                r < self.height && c < self.width implies #[trigger] self.grid()(r, c) == placed(
                r,
                c,
            ) by {
                lemma_cell_in_board(self.width as int, self.height as int, r as int, c as int);
                if r * self.width + c == row * self.width + col {
                    lemma_cell_distinct(self.width as int, r as int, c as int, row as int, col as int);
                }
            }
            lemma_captures_same_grid(
                self.width as int,
                self.height as int,
                row as int,
                col as int,
                player,
                self.grid(),
                placed,
                8,
            );
        }
        let captured = self.find_captures(row, col, player);
        let ghost mid = *self;
        proof {
            lemma_captures_shape(
                self.width as int,
                self.height as int,
                row as int,
                col as int,
                player,
                placed,
                8,
            );
        }
        let mut j: usize = 0;
        while j < captured.len()
            invariant
                self.wf(),
                mid.wf(),
                self.width == mid.width,
                self.height == mid.height,
                self.captures_white == mid.captures_white,
                self.captures_black == mid.captures_black,
                forall|r: usize, c: usize|
                    r < mid.height && c < mid.width ==> #[trigger] mid.grid()(r, c) == placed(r, c),
                placed == old(self).grid_with(row as int, col as int, stone_of(player)),
                mid.width == old(self).width,
                mid.height == old(self).height,
                captured@ == captures_spec(
                    old(self).width as int,
                    old(self).height as int,
                    row as int,
                    col as int,
                    player,
                    placed,
                ),
                0 <= j <= captured@.len(),
                forall|i: int|
                    0 <= i < captured@.len() ==> (#[trigger] captured@[i]).0 < self.height
                        && captured@[i].1 < self.width,
                forall|r: int, c: int|
                    0 <= r < self.height && 0 <= c < self.width ==> #[trigger] self.tile(r, c) == if captured@.take(
                        j as int,
                    ).contains((r as usize, c as usize)) {
                        TileType::Empty
                    } else {
                        mid.tile(r, c)
                    },
            decreases captured@.len() - j,
        {
            let (r, c) = captured[j];
            let ghost pre = *self;
            proof {
                lemma_cell_in_board(self.width as int, self.height as int, r as int, c as int);
            }
            self.set_tile(r, c, TileType::Empty);
            proof {
                let ghost p0 = captured@.take(j as int);
                let ghost p1 = captured@.take(j + 1);
                assert(p1 =~= p0.push((r, c)));
                assert forall|r2: int, c2: int|
                    0 <= r2 < self.height && 0 <= c2 < self.width implies #[trigger] self.tile(r2, c2)
                    == if p1.contains((r2 as usize, c2 as usize)) {
                        TileType::Empty
                    } else {
                        mid.tile(r2, c2)
                    } by {
                    lemma_cell_in_board(self.width as int, self.height as int, r2 as int, c2 as int);
                    if !(r2 == r && c2 == c) {
                        if r2 * self.width + c2 == r * self.width + c {
                            lemma_cell_distinct(self.width as int, r2, c2, r as int, c as int);
                        }
                        assert(pre.tile(r2, c2) == self.tile(r2, c2));
                        assert(p1.contains((r2 as usize, c2 as usize)) == p0.contains((r2 as usize, c2 as usize))) by {
                            if p0.contains((r2 as usize, c2 as usize)) {
                                let i = choose|i: int| 0 <= i < p0.len() && p0[i] == (r2 as usize, c2 as usize);
                                assert(p1[i] == (r2 as usize, c2 as usize));
                            }
                            if p1.contains((r2 as usize, c2 as usize)) {
                                let i = choose|i: int| 0 <= i < p1.len() && p1[i] == (r2 as usize, c2 as usize);
                                assert(p0[i] == (r2 as usize, c2 as usize));
                            }
                        }
                    } else {
                        assert(p1[j as int] == (r2 as usize, c2 as usize));
                    }
                }
            }
            j += 1;
        }
        let ghost after_loop = *self;
        let pairs = (captured.len() / 2) as u32;
        match player {
            PlayerType::White => self.captures_white = self.captures_white + pairs,
            PlayerType::Black => self.captures_black = self.captures_black + pairs,
        }
        proof {
            assert(captured@.take(captured@.len() as int) == captured@);
            assert forall|r: int, c: int|
                0 <= r < old(self).height && 0 <= c < old(self).width implies #[trigger] self.tile(
                    r,
                    c,
                ) == if captured@.contains((r as usize, c as usize)) {
                    TileType::Empty
                } else if r == row && c == col {
                    stone_of(player)
                } else {
                    old(self).tile(r, c)
                } by {
                lemma_cell_in_board(self.width as int, self.height as int, r, c);
                assert(mid.tile(r, c) == mid.grid()(r as usize, c as usize));
                assert(mid.grid()(r as usize, c as usize) == placed(r as usize, c as usize));
                assert(after_loop.tile(r, c) == self.tile(r, c));
            }
        }
        captured
    }

    pub fn index(&self, row: usize, col: usize) -> (i: usize)
        requires
            row * self.width + col <= usize::MAX,
        ensures
            i == row * self.width + col,
    {
        row * self.width + col
    }

    pub fn get_tile(&self, row: usize, col: usize) -> (t: TileType)
        requires
            row * self.width + col < self.tiles@.len(),
        ensures
            t == self.tiles@[row * self.width + col],
    {
        assert(self.tiles.len() <= usize::MAX);
        self.tiles[self.index(row, col)]
    }

    pub fn set_tile(&mut self, row: usize, col: usize, tile: TileType)
        requires
            row * old(self).width + col < old(self).tiles@.len(),
        ensures
            final(self).tiles@ == old(self).tiles@.update(row * old(self).width + col, tile),
            final(self).width == old(self).width,
            final(self).height == old(self).height,
            final(self).captures_white == old(self).captures_white,
            final(self).captures_black == old(self).captures_black,
    {
        assert(self.tiles.len() <= usize::MAX);
        let idx = self.index(row, col);
        self.tiles.set(idx, tile);
    }
}

/// A point of the board has its own slot in the tiles.
pub proof fn lemma_cell_in_board(width: int, height: int, r: int, c: int)
    requires
        0 <= r < height,
        0 <= c < width,
    ensures
        0 <= r * width + c < width * height,
{
    assert(0 <= r * width + c < width * height) by (nonlinear_arith)
        requires
            0 <= r < height,
            0 <= c < width,
    ;
}

/// Distinct points have distinct slots.
pub proof fn lemma_cell_distinct(width: int, r1: int, c1: int, r2: int, c2: int)
    requires
        0 <= c1 < width,
        0 <= c2 < width,
        r1 * width + c1 == r2 * width + c2,
    ensures
        r1 == r2 && c1 == c2,
{
    assert(r1 == r2) by (nonlinear_arith)
        requires
            0 <= c1 < width,
            0 <= c2 < width,
            r1 * width + c1 == r2 * width + c2,
    ;
}

/// Captures depend only on the points of the board.
proof fn lemma_captures_same_grid(
    width: int,
    height: int,
    row: int,
    col: int,
    player: PlayerType,
    g1: spec_fn(usize, usize) -> TileType,
    g2: spec_fn(usize, usize) -> TileType,
    k: nat,
)
    requires
        0 <= row < height,
        0 <= col < width,
        forall|r: usize, c: usize| r < height && c < width ==> #[trigger] g1(r, c) == g2(r, c),
    ensures
        captures_through(width, height, row, col, player, g1, k) == captures_through(
            width,
            height,
            row,
            col,
            player,
            g2,
            k,
        ),
    decreases k,
{
    if k > 0 {
        lemma_captures_same_grid(width, height, row, col, player, g1, g2, (k - 1) as nat);
        let (dr, dc) = capture_direction(k - 1);
        if 0 <= row + 3 * dr < height && 0 <= col + 3 * dc < width {
            assert(g1((row + dr) as usize, (col + dc) as usize) == g2((row + dr) as usize, (col + dc) as usize));
            assert(g1((row + 2 * dr) as usize, (col + 2 * dc) as usize) == g2((row + 2 * dr) as usize, (col + 2 * dc) as usize));
            assert(g1((row + 3 * dr) as usize, (col + 3 * dc) as usize) == g2((row + 3 * dr) as usize, (col + 3 * dc) as usize));
        }
    }
}


/// The point a grid character stands for, in either case: `.` or `-` empty,
/// `b` black, `w` white.
pub open spec fn cell_tile(c: char) -> Option<TileType> {
    if c == '.' || c == '-' {
        Some(TileType::Empty)
    } else if c == 'b' || c == 'B' {
        Some(TileType::Black)
    } else if c == 'w' || c == 'W' {
        Some(TileType::White)
    } else {
        None
    }
}

/// Reading a cell ignores ASCII case: a character names the same tile as its
/// lower-case form, `b` and `w` the two colours and `.` and `-` an empty
/// point, and nothing else names a tile.
pub proof fn lemma_cell_tile_case(c: char)
    ensures
        cell_tile(c) == cell_tile(ascii_lower(c)),
        cell_tile(c) == Some(TileType::Black) <==> ascii_lower(c) == 'b',
        cell_tile(c) == Some(TileType::White) <==> ascii_lower(c) == 'w',
        cell_tile(c) == Some(TileType::Empty) <==> (ascii_lower(c) == '.' || ascii_lower(c) == '-'),
        cell_tile(c) is None <==> !(ascii_lower(c) == 'b' || ascii_lower(c) == 'w' || ascii_lower(c) == '.'
            || ascii_lower(c) == '-'),
{
}

/// An ASCII decimal digit (`'0'` is 48, `'9'` is 57).
pub open spec fn is_digit(c: char) -> bool {
    48 <= c as u32 <= 57
}

/// The number the decimal digits `s` spell.
pub open spec fn digits_value(s: Seq<char>) -> int
    decreases s.len(),
{
    if s.len() == 0 {
        0
    } else {
        digits_value(s.drop_last()) * 10 + (s.last() as u32 - 48)
    }
}

/// `s` without a leading `+`.
pub open spec fn unsigned_digits(s: Seq<char>) -> Seq<char> {
    if s.len() > 0 && s[0] == '+' {
        s.drop_first()
    } else {
        s
    }
}

/// What `str::parse::<usize>` gives: an optional `+`, then one or more
/// decimal digits whose value fits in a `usize`.
pub open spec fn usize_value(s: Seq<char>) -> Option<usize> {
    let d = unsigned_digits(s);
    if d.len() > 0 && (forall|i: int| 0 <= i < d.len() ==> is_digit(#[trigger] d[i])) && digits_value(d)
        <= usize::MAX {
        Some(digits_value(d) as usize)
    } else {
        None
    }
}

/// Where the header of a compact grid ends: the first `:` or newline, or
/// the length of `s` when there is none.
pub open spec fn header_len(s: Seq<char>) -> int
    decreases s.len(),
{
    if s.len() == 0 || s[0] == ':' || s[0] == '\n' {
        0
    } else {
        1 + header_len(s.drop_first())
    }
}

/// The position of the first `x` in `s`, or its length.
pub open spec fn x_pos(s: Seq<char>) -> int
    decreases s.len(),
{
    if s.len() == 0 || s[0] == 'x' {
        0
    } else {
        1 + x_pos(s.drop_first())
    }
}

/// Reads `WxH` (around white space) as (width, height).
pub open spec fn dims_result(header: Seq<char>) -> Result<(usize, usize), Seq<char>> {
    let h = trim(header);
    let k = x_pos(h);
    if k >= h.len() {
        Err("expected WxH dimensions (e.g. 15x15)"@)
    } else {
        let w_text = h.subrange(0, k);
        let h_text = h.subrange(k + 1, h.len() as int);
        match usize_value(w_text) {
            None => Err("invalid width: "@ + w_text),
            Some(w) => match usize_value(h_text) {
                None => Err("invalid height: "@ + h_text),
                Some(hv) => Ok((w, hv)),
            },
        }
    }
}

/// The tiles `cells` stand for, or the error for the first character that
/// stands for none.
pub open spec fn grid_tiles(cells: Seq<char>) -> Result<Seq<TileType>, Seq<char>>
    decreases cells.len(),
{
    if cells.len() == 0 {
        Ok(Seq::empty())
    } else {
        match grid_tiles(cells.drop_last()) {
            Err(e) => Err(e),
            Ok(ts) => match cell_tile(cells.last()) {
                Some(t) => Ok(ts.push(t)),
                None => Err("invalid cell character: "@ + char_debug_text(cells.last())),
            },
        }
    }
}

/// Reads a compact grid `WxH:cells` (or `WxH`, a newline, then the cells)
/// as (width, height, tiles); white space among the cells is ignored.
pub open spec fn compact_grid(s: Seq<char>) -> Result<(usize, usize, Seq<TileType>), Seq<char>> {
    let k = header_len(s);
    if k >= s.len() {
        Err("expected WxH:grid or WxH newline grid"@)
    } else {
        match dims_result(s.subrange(0, k)) {
            Err(e) => Err(e),
            Ok((w, h)) => {
                let cells = strip_spaces(s.subrange(k + 1, s.len() as int));
                if w * h > usize::MAX {
                    Err("board dimensions overflow"@)
                } else if cells.len() != w * h {
                    Err("expected "@ + decimal((w * h) as nat) + " cells, got "@ + decimal(cells.len()))
                } else {
                    match grid_tiles(cells) {
                        Err(e) => Err(e),
                        Ok(ts) => Ok((w, h, ts)),
                    }
                }
            },
        }
    }
}

proof fn lemma_digits_monotone(s: Seq<char>, i: int)
    requires
        0 <= i <= s.len(),
        forall|j: int| 0 <= j < s.len() ==> is_digit(#[trigger] s[j]),
    ensures
        digits_value(s.take(i)) <= digits_value(s),
        0 <= digits_value(s.take(i)),
    decreases s.len() - i,
{
    if i < s.len() {
        assert(s.take(i + 1).drop_last() =~= s.take(i));
        assert(s.take(i + 1).last() == s[i]);
        lemma_digits_monotone(s, i + 1);
    } else {
        assert(s.take(i) =~= s);
    }
    lemma_digits_nonneg(s.take(i));
}

proof fn lemma_digits_nonneg(s: Seq<char>)
    requires
        forall|j: int| 0 <= j < s.len() ==> is_digit(#[trigger] s[j]),
    ensures
        0 <= digits_value(s),
    decreases s.len(),
{
    if s.len() > 0 {
        let d = s.drop_last();
        assert forall|j: int| 0 <= j < d.len() implies is_digit(#[trigger] d[j]) by {
            assert(d[j] == s[j]);
        }
        lemma_digits_nonneg(d);
        assert(is_digit(s[s.len() - 1]));
    }
}

/// `str::parse::<usize>` on the characters `v[lo..hi]`.
fn parse_usize(v: &Vec<char>, lo: usize, hi: usize) -> (r: Option<usize>)
    requires
        lo <= hi <= v@.len(),
    ensures
        r == usize_value(v@.subrange(lo as int, hi as int)),
{
    let ghost s = v@.subrange(lo as int, hi as int);
    let mut start = lo;
    if lo < hi && v[lo] == '+' {
        start = lo + 1;
    }
    let ghost d = v@.subrange(start as int, hi as int);
    if lo < hi && v[lo] == '+' {
        assert(s.drop_first() =~= d);
    } else {
        assert(s =~= d);
    }
    assert(unsigned_digits(s) == d);
    if start == hi {
        return None;
    }
    let mut i = start;
    while i < hi
        invariant
            start <= i <= hi <= v@.len(),
            d == v@.subrange(start as int, hi as int),
            s == v@.subrange(lo as int, hi as int),
            unsigned_digits(s) == d,
            forall|j: int| start <= j < i ==> is_digit(#[trigger] v@[j]),
        decreases hi - i,
    {
        let n = v[i] as u32;
        if !(48 <= n && n <= 57) {
            assert(!is_digit(d[i - start]));
            return None;
        }
        i += 1;
    }
    assert forall|j: int| 0 <= j < d.len() implies is_digit(#[trigger] d[j]) by {
        assert(d[j] == v@[start + j]);
    }
    let mut value: usize = 0;
    let mut i = start;
    while i < hi
        invariant
            start <= i <= hi <= v@.len(),
            d == v@.subrange(start as int, hi as int),
            s == v@.subrange(lo as int, hi as int),
            unsigned_digits(s) == d,
            d.len() > 0,
            forall|j: int| 0 <= j < d.len() ==> is_digit(#[trigger] d[j]),
            value == digits_value(d.take(i - start)),
        decreases hi - i,
    {
        assert(d[i - start] == v@[i as int]);
        assert(is_digit(d[i - start]));
        let digit = (v[i] as u32 - 48) as usize;
        assert(d.take(i - start + 1).drop_last() =~= d.take(i - start));
        assert(d.take(i - start + 1).last() == v@[i as int]);
        match value.checked_mul(10) {
            None => {
                proof {
                    lemma_digits_monotone(d, i - start + 1);
                    lemma_digits_nonneg(d.take(i - start));
                }
                return None;
            },
            Some(t) => match t.checked_add(digit) {
                None => {
                    proof {
                        lemma_digits_monotone(d, i - start + 1);
                    }
                    return None;
                },
                Some(u) => {
                    value = u;
                },
            },
        }
        i += 1;
    }
    assert(d.take(hi - start) =~= d);
    Some(value)
}

/// The position, from `lo`, of the first `:` or newline in `v[lo..hi]`
/// (`hi` when there is none).
fn find_header_end(v: &Vec<char>, lo: usize, hi: usize) -> (k: usize)
    requires
        lo <= hi <= v@.len(),
    ensures
        lo <= k <= hi,
        k - lo == header_len(v@.subrange(lo as int, hi as int)),
{
    let mut i = lo;
    while i < hi && v[i] != ':' && v[i] != '\n'
        invariant
            lo <= i <= hi <= v@.len(),
            header_len(v@.subrange(lo as int, hi as int)) == (i - lo) + header_len(
                v@.subrange(i as int, hi as int),
            ),
        decreases hi - i,
    {
        assert(v@.subrange(i as int, hi as int).drop_first() =~= v@.subrange(i + 1, hi as int));
        i += 1;
    }
    i
}

/// The position, from `lo`, of the first `x` in `v[lo..hi]` (`hi` when
/// there is none).
fn find_x(v: &Vec<char>, lo: usize, hi: usize) -> (k: usize)
    requires
        lo <= hi <= v@.len(),
    ensures
        lo <= k <= hi,
        k - lo == x_pos(v@.subrange(lo as int, hi as int)),
{
    let mut i = lo;
    while i < hi && v[i] != 'x'
        invariant
            lo <= i <= hi <= v@.len(),
            x_pos(v@.subrange(lo as int, hi as int)) == (i - lo) + x_pos(v@.subrange(i as int, hi as int)),
        decreases hi - i,
    {
        assert(v@.subrange(i as int, hi as int).drop_first() =~= v@.subrange(i + 1, hi as int));
        i += 1;
    }
    i
}

/// `format!("{prefix}{text}")` for a prefix literal and `s[lo..hi]`.
fn message_with(prefix: &str, s: &str, lo: usize, hi: usize) -> (m: String)
    requires
        lo <= hi <= s@.len(),
    ensures
        m@ == prefix@ + s@.subrange(lo as int, hi as int),
{
    let mut m = String::from_str(prefix);
    m.append(s.substring_char(lo, hi));
    m
}

/// Reads the `WxH` header `v[lo..hi]`; `v` holds the characters of `s`.
fn parse_dims(s: &str, v: &Vec<char>, lo: usize, hi: usize) -> (r: Result<(usize, usize), String>)
    requires
        v@ == s@,
        lo <= hi <= v@.len(),
    ensures
        match r {
            Ok(d) => dims_result(v@.subrange(lo as int, hi as int)) == Ok::<(usize, usize), Seq<char>>(d),
            Err(e) => dims_result(v@.subrange(lo as int, hi as int)) == Err::<(usize, usize), Seq<char>>(e@),
        },
{
    let ghost header = v@.subrange(lo as int, hi as int);
    let (a, b) = trim_bounds(v, lo, hi);
    let ghost h = v@.subrange(a as int, b as int);
    let k = find_x(v, a, b);
    if k >= b {
        return Err(String::from_str("expected WxH dimensions (e.g. 15x15)"));
    }
    assert(h.subrange(0, k - a) =~= v@.subrange(a as int, k as int));
    assert(h.subrange(k - a + 1, h.len() as int) =~= v@.subrange(k + 1, b as int));
    let width = match parse_usize(v, a, k) {
        None => {
            return Err(message_with("invalid width: ", s, a, k));
        },
        Some(w) => w,
    };
    let height = match parse_usize(v, k + 1, b) {
        None => {
            return Err(message_with("invalid height: ", s, k + 1, b));
        },
        Some(h) => h,
    };
    Ok((width, height))
}

/// The tile a grid character stands for.
fn tile_from_char(c: char) -> (r: Result<TileType, String>)
    ensures
        match r {
            Ok(t) => cell_tile(c) == Some(t),
            Err(e) => cell_tile(c) is None && e@ == "invalid cell character: "@ + char_debug_text(c),
        },
{
    if c == '.' || c == '-' {
        Ok(TileType::Empty)
    } else if c == 'b' || c == 'B' {
        Ok(TileType::Black)
    } else if c == 'w' || c == 'W' {
        Ok(TileType::White)
    } else {
        let mut m = String::from_str("invalid cell character: ");
        let d = char_debug(c);
        m.append(d.as_str());
        Err(m)
    }
}

/// The tiles `cells` stand for, or the error for the first character that
/// stands for none.
fn cells_to_tiles(cells: &Vec<char>) -> (r: Result<Vec<TileType>, String>)
    ensures
        match r {
            Ok(tiles) => grid_tiles(cells@) == Ok::<Seq<TileType>, Seq<char>>(tiles@),
            Err(e) => grid_tiles(cells@) == Err::<Seq<TileType>, Seq<char>>(e@),
        },
{
    let mut tiles: Vec<TileType> = Vec::new();
    let mut j: usize = 0;
    while j < cells.len()
        invariant
            j <= cells@.len(),
            grid_tiles(cells@.take(j as int)) == Ok::<Seq<TileType>, Seq<char>>(tiles@),
        decreases cells@.len() - j,
    {
        assert(cells@.take(j + 1).drop_last() =~= cells@.take(j as int));
        assert(cells@.take(j + 1).last() == cells@[j as int]);
        match tile_from_char(cells[j]) {
            Err(e) => {
                proof {
                    lemma_grid_tiles_error(cells@, j as int + 1);
                }
                return Err(e);
            },
            Ok(tile) => {
                tiles.push(tile);
            },
        }
        j += 1;
    }
    assert(cells@.take(cells@.len() as int) =~= cells@);
    Ok(tiles)
}

/// Reads the compact grid `v[lo..hi]`; `v` holds the characters of `s`.
fn parse_compact_grid(s: &str, v: &Vec<char>, lo: usize, hi: usize) -> (r: Result<BoardState, String>)
    requires
        v@ == s@,
        lo <= hi <= v@.len(),
    ensures
        match r {
            Ok(b) => {
                &&& b.wf()
                &&& compact_grid(v@.subrange(lo as int, hi as int)) == Ok::<
                    (usize, usize, Seq<TileType>),
                    Seq<char>,
                >((b.width, b.height, b.tiles@))
                &&& b.captures_white == 0
                &&& b.captures_black == 0
            },
            Err(e) => compact_grid(v@.subrange(lo as int, hi as int)) == Err::<
                (usize, usize, Seq<TileType>),
                Seq<char>,
            >(e@),
        },
{
    let ghost t = v@.subrange(lo as int, hi as int);
    let k = find_header_end(v, lo, hi);
    if k >= hi {
        return Err(String::from_str("expected WxH:grid or WxH newline grid"));
    }
    assert(t.subrange(0, k - lo) =~= v@.subrange(lo as int, k as int));
    let (width, height) = match parse_dims(s, v, lo, k) {
        Err(e) => {
            return Err(e);
        },
        Ok(d) => d,
    };
    let ghost rest = v@.subrange(k + 1, hi as int);
    assert(t.subrange(k - lo + 1, t.len() as int) =~= rest);
    let mut cells: Vec<char> = Vec::new();
    let mut i = k + 1;
    while i < hi
        invariant
            k + 1 <= i <= hi <= v@.len(),
            rest == v@.subrange(k + 1, hi as int),
            cells@ == strip_spaces(rest.take(i - k - 1)),
        decreases hi - i,
    {
        assert(rest.take(i - k).drop_last() =~= rest.take(i - k - 1));
        assert(rest.take(i - k).last() == v@[i as int]);
        if !is_space_char(v[i]) {
            cells.push(v[i]);
        }
        i += 1;
    }
    assert(rest.take(hi - k - 1) =~= rest);
    assert(strip_spaces(t.subrange(k - lo + 1, t.len() as int)) == cells@);
    assert(header_len(t) == k - lo);
    let expected = match width.checked_mul(height) {
        None => {
            return Err(String::from_str("board dimensions overflow"));
        },
        Some(n) => n,
    };
    if cells.len() != expected {
        let mut m = String::from_str("expected ");
        push_decimal(&mut m, expected);
        m.append(" cells, got ");
        push_decimal(&mut m, cells.len());
        return Err(m);
    }
    let tiles = match cells_to_tiles(&cells) {
        Err(e) => {
            return Err(e);
        },
        Ok(tiles) => tiles,
    };
    proof {
        lemma_grid_tiles_len(cells@);
        assert(compact_grid(t) == Ok::<(usize, usize, Seq<TileType>), Seq<char>>((width, height, tiles@)));
    }
    Ok(BoardState { width, height, tiles, captures_white: 0, captures_black: 0 })
}

/// Reading tiles keeps one tile per cell.
proof fn lemma_grid_tiles_len(cells: Seq<char>)
    ensures
        grid_tiles(cells) is Ok ==> grid_tiles(cells)->Ok_0.len() == cells.len(),
    decreases cells.len(),
{
    if cells.len() > 0 {
        lemma_grid_tiles_len(cells.drop_last());
    }
}

/// An error among the first `k` cells is the error for all of them.
proof fn lemma_grid_tiles_error(cells: Seq<char>, k: int)
    requires
        0 <= k <= cells.len(),
        grid_tiles(cells.take(k)) is Err,
    ensures
        grid_tiles(cells) == grid_tiles(cells.take(k)),
    decreases cells.len() - k,
{
    if k < cells.len() {
        assert(cells.take(k + 1).drop_last() =~= cells.take(k));
        lemma_grid_tiles_error(cells, k + 1);
    } else {
        assert(cells.take(k) =~= cells);
    }
}

impl BoardState {
    /// Parse a board from a compact `WxH` grid (`.`, `b`, `w`), after
    /// trimming surrounding white space. Only the compact grid is read here;
    /// a position given as JSON is decoded where the serde representation
    /// lives, in the command-line front end.
    pub fn from_compact_grid(s: &str) -> (r: Result<Self, String>)
        ensures
            match r {
                Ok(b) => {
                    &&& b.wf()
                    &&& compact_grid(trim(s@)) == Ok::<(usize, usize, Seq<TileType>), Seq<char>>(
                        (b.width, b.height, b.tiles@),
                    )
                    &&& b.captures_white == 0
                    &&& b.captures_black == 0
                },
                Err(e) => compact_grid(trim(s@)) == Err::<(usize, usize, Seq<TileType>), Seq<char>>(e@),
            },
    {
        let v = chars_of(s);
        assert(v@.subrange(0, v@.len() as int) =~= v@);
        let (a, b) = trim_bounds(&v, 0, v.len());
        parse_compact_grid(s, &v, a, b)
    }
}

} // verus!
