//! Move search: scores every empty point near the stones with the
//! incremental evaluator, then looks ahead over the most promising replies.

use vstd::prelude::*;
use crate::board::{lemma_cell_in_board, BoardState};
use crate::evaluation::{
    capture_value, full_scan_fits, full_score, is_stone, is_stone_box, root_fits, board_size_ok, child_model, effective_tile_at, lemma_child_frame, max_int, min_int, move_fits, overlay,
    sat_sub, EvaluatedMoveSet, MoveSetModel, PatternScorer, WIN_SCORE,
};
use crate::tile::{PlayerType, TileType};

verus! {

/// After move ordering, only the top this many continuations are expanded each ply.
pub const MOVE_SET_SIZE: usize = 5;

/// Plies of lookahead used by the engine.
pub const SEARCH_DEPTH: usize = 4;

/// Candidate moves are the empty points at most this far outside the
/// bounding box of the stones played so far.
pub const BOUNDING_BOX_PADDING: usize = 3;

/// The box searched around `m`: (first row, last row, first column, last
/// column), the stones' bounding box grown by [`BOUNDING_BOX_PADDING`] and
/// clipped to the board.
pub open spec fn search_bounds(board: BoardState, m: MoveSetModel) -> (int, int, int, int) {
    (
        sat_sub(m.min_row as int, BOUNDING_BOX_PADDING as int),
        min_int(m.max_row + BOUNDING_BOX_PADDING, board.height - 1),
        sat_sub(m.min_col as int, BOUNDING_BOX_PADDING as int),
        min_int(m.max_col + BOUNDING_BOX_PADDING, board.width - 1),
    )
}

/// The empty points of row `r` in columns `c0..c`, left to right.
pub open spec fn row_candidates(g: spec_fn(usize, usize) -> TileType, r: int, c0: int, c: int) -> Seq<(usize, usize)>
    decreases c - c0,
{
    if c <= c0 {
        seq![]
    } else {
        let s = row_candidates(g, r, c0, c - 1);
        if g(r as usize, (c - 1) as usize) == TileType::Empty {
            s.push((r as usize, (c - 1) as usize))
        } else {
            s
        }
    }
}

/// The empty points of rows `r0..r` in columns `c0..=c1`, row by row.
pub open spec fn box_candidates(g: spec_fn(usize, usize) -> TileType, r0: int, r: int, c0: int, c1: int) -> Seq<(usize, usize)>
    decreases r - r0,
{
    if r <= r0 {
        seq![]
    } else {
        box_candidates(g, r0, r - 1, c0, c1) + row_candidates(g, r - 1, c0, c1 + 1)
    }
}

/// The moves considered from `m`: the empty points of its search box, row by row.
pub open spec fn candidates(board: BoardState, m: MoveSetModel) -> Seq<(usize, usize)> {
    let (r0, r1, c0, c1) = search_bounds(board, m);
    box_candidates(overlay(board, m.moves), r0, r1 + 1, c0, c1)
}

/// The bounding box of `m` is a non-empty box of the board.
pub open spec fn model_ok(board: BoardState, m: MoveSetModel) -> bool {
    &&& m.min_row <= m.max_row < board.height
    &&& m.min_col <= m.max_col < board.width
}

proof fn lemma_row_candidates(g: spec_fn(usize, usize) -> TileType, r: int, c0: int, c: int)
    requires
        0 <= r <= usize::MAX,
        0 <= c0,
        c <= usize::MAX + 1,
    ensures
        forall|i: int|
            0 <= i < row_candidates(g, r, c0, c).len() ==> {
                let p = #[trigger] row_candidates(g, r, c0, c)[i];
                &&& p.0 == r
                &&& c0 <= p.1 < c
                &&& g(p.0, p.1) == TileType::Empty
            },
    decreases c - c0,
{
    if c > c0 {
        lemma_row_candidates(g, r, c0, c - 1);
    }
}

proof fn lemma_box_candidates(g: spec_fn(usize, usize) -> TileType, r0: int, r: int, c0: int, c1: int)
    requires
        0 <= r0,
        0 <= c0,
        r <= usize::MAX + 1,
        c1 < usize::MAX,
    ensures
        forall|i: int|
            0 <= i < box_candidates(g, r0, r, c0, c1).len() ==> {
                let p = #[trigger] box_candidates(g, r0, r, c0, c1)[i];
                &&& r0 <= p.0 < r
                &&& c0 <= p.1 <= c1
                &&& g(p.0, p.1) == TileType::Empty
            },
    decreases r - r0,
{
    if r > r0 {
        lemma_box_candidates(g, r0, r - 1, c0, c1);
        lemma_row_candidates(g, r - 1, c0, c1 + 1);
        let a = box_candidates(g, r0, r - 1, c0, c1);
        let b = row_candidates(g, r - 1, c0, c1 + 1);
        assert forall|i: int| 0 <= i < (a + b).len() implies {
            let p = #[trigger] (a + b)[i];
            &&& r0 <= p.0 < r
            &&& c0 <= p.1 <= c1
            &&& g(p.0, p.1) == TileType::Empty
        } by {
            if i >= a.len() {
                assert((a + b)[i] == b[i - a.len()]);
            } else {
                assert((a + b)[i] == a[i]);
            }
        }
    }
}

/// Every candidate of `m` is an empty point of the search box.
pub proof fn lemma_candidates_in_box(board: BoardState, m: MoveSetModel)
    requires
        model_ok(board, m),
    ensures
        forall|i: int|
            0 <= i < candidates(board, m).len() ==> {
                let p = #[trigger] candidates(board, m)[i];
                let (r0, r1, c0, c1) = search_bounds(board, m);
                &&& r0 <= p.0 <= r1
                &&& c0 <= p.1 <= c1
                &&& p.0 < board.height
                &&& p.1 < board.width
                &&& overlay(board, m.moves)(p.0, p.1) == TileType::Empty
            },
{
    let (r0, r1, c0, c1) = search_bounds(board, m);
    lemma_box_candidates(overlay(board, m.moves), r0, r1 + 1, c0, c1);
}

proof fn lemma_row_candidates_all(g: spec_fn(usize, usize) -> TileType, r: int, c0: int, c: int)
    requires
        0 <= r <= usize::MAX,
        0 <= c0,
        c <= usize::MAX + 1,
    ensures
        forall|x: int|
            c0 <= x < c && g(r as usize, x as usize) == TileType::Empty ==> #[trigger] row_candidates(g, r, c0, c).contains(
                (r as usize, x as usize),
            ),
    decreases c - c0,
{
    if c > c0 {
        lemma_row_candidates_all(g, r, c0, c - 1);
        let s = row_candidates(g, r, c0, c - 1);
        let t = row_candidates(g, r, c0, c);
        assert forall|x: int|
            c0 <= x < c && g(r as usize, x as usize) == TileType::Empty implies #[trigger] row_candidates(g, r, c0, c).contains(
            (r as usize, x as usize),
        ) by {
            if x < c - 1 {
                assert(s.contains((r as usize, x as usize)));
                let i = choose|i: int| 0 <= i < s.len() && s[i] == (r as usize, x as usize);
                assert(t[i] == s[i]);
            } else {
                assert(t[s.len() as int] == (r as usize, x as usize));
            }
        }
    }
}

proof fn lemma_box_candidates_all(g: spec_fn(usize, usize) -> TileType, r0: int, r: int, c0: int, c1: int)
    requires
        0 <= r0,
        0 <= c0,
        r <= usize::MAX + 1,
        c1 < usize::MAX,
    ensures
        forall|y: int, x: int|
            r0 <= y < r && c0 <= x <= c1 && g(y as usize, x as usize) == TileType::Empty
                ==> #[trigger] box_candidates(g, r0, r, c0, c1).contains((y as usize, x as usize)),
    decreases r - r0,
{
    if r > r0 {
        lemma_box_candidates_all(g, r0, r - 1, c0, c1);
        lemma_row_candidates_all(g, r - 1, c0, c1 + 1);
        let a = box_candidates(g, r0, r - 1, c0, c1);
        let b = row_candidates(g, r - 1, c0, c1 + 1);
        assert forall|y: int, x: int|
            r0 <= y < r && c0 <= x <= c1 && g(y as usize, x as usize) == TileType::Empty
                implies #[trigger] box_candidates(g, r0, r, c0, c1).contains((y as usize, x as usize)) by {
            let p = (y as usize, x as usize);
            if y < r - 1 {
                assert(a.contains(p));
                let i = choose|i: int| 0 <= i < a.len() && a[i] == p;
                assert((a + b)[i] == p);
            } else {
                assert(b.contains(p));
                let i = choose|i: int| 0 <= i < b.len() && b[i] == p;
                assert((a + b)[a.len() + i] == p);
            }
        }
    }
}

/// The candidate moves are exactly the empty points of the board at most
/// [`BOUNDING_BOX_PADDING`] (three) rows and columns outside the bounding
/// box of the stones: every such point is a candidate, and every candidate
/// is such a point.
pub proof fn lemma_candidates_are_padded_box(board: BoardState, m: MoveSetModel)
    requires
        model_ok(board, m),
        board_size_ok(board),
    ensures
        forall|r: int, c: int|
            0 <= r < board.height && 0 <= c < board.width && m.min_row - 3 <= r <= m.max_row + 3 && m.min_col - 3 <= c
                <= m.max_col + 3 && overlay(board, m.moves)(r as usize, c as usize) == TileType::Empty
                ==> #[trigger] candidates(board, m).contains((r as usize, c as usize)),
        forall|i: int|
            0 <= i < candidates(board, m).len() ==> {
                let p = #[trigger] candidates(board, m)[i];
                &&& p.0 < board.height && p.1 < board.width
                &&& m.min_row - 3 <= p.0 <= m.max_row + 3
                &&& m.min_col - 3 <= p.1 <= m.max_col + 3
                &&& overlay(board, m.moves)(p.0, p.1) == TileType::Empty
            },
{
    let (r0, r1, c0, c1) = search_bounds(board, m);
    lemma_candidates_in_box(board, m);
    lemma_box_candidates_all(overlay(board, m.moves), r0, r1 + 1, c0, c1);
}

/// The empty points of the search box around `parent`, row by row.
fn collect_candidates(parent: &EvaluatedMoveSet) -> (moves: Vec<(usize, usize)>)
    requires
        parent.board.wf(),
        board_size_ok(*parent.board),
        model_ok(*parent.board, parent.model()),
    ensures
        moves@ == candidates(*parent.board, parent.model()),
{
    let board = parent.board;
    let ghost m = parent.model();
    let ghost g = overlay(*board, m.moves);
    let min_row = parent.min_row.saturating_sub(BOUNDING_BOX_PADDING);
    let max_row = (parent.max_row + BOUNDING_BOX_PADDING).min(board.height - 1);
    let min_col = parent.min_col.saturating_sub(BOUNDING_BOX_PADDING);
    let max_col = (parent.max_col + BOUNDING_BOX_PADDING).min(board.width - 1);
    assert(search_bounds(*board, m) == (min_row as int, max_row as int, min_col as int, max_col as int));
    let mut moves: Vec<(usize, usize)> = Vec::new();
    let mut row = min_row;
    while row <= max_row
        invariant
            board.wf(),
            board == parent.board,
            m == parent.model(),
            g == overlay(*board, m.moves),
            max_row < board.height,
            max_col < board.width,
            min_row <= row <= max_row + 1,
            min_col <= max_col,
            moves@ == box_candidates(g, min_row as int, row as int, min_col as int, max_col as int),
        decreases max_row + 1 - row,
    {
        let ghost before = moves@;
        let mut col = min_col;
        while col <= max_col
            invariant
                board.wf(),
                board == parent.board,
                m == parent.model(),
                g == overlay(*board, m.moves),
                row < board.height,
                max_col < board.width,
                min_col <= col <= max_col + 1,
                moves@ == before + row_candidates(g, row as int, min_col as int, col as int),
            decreases max_col + 1 - col,
        {
            if effective_tile_at(row, col, board, &parent.moves) == TileType::Empty {
                moves.push((row, col));
            }
            col += 1;
        }
        row += 1;
    }
    moves
}


/// What the player to move in `m` scores by playing at `p`: its own score in
/// the resulting position.
pub open spec fn move_value(board: BoardState, scorer: PatternScorer, m: MoveSetModel, p: (usize, usize)) -> int {
    child_model(board, scorer, m, p.0 as int, p.1 as int).score_of(m.player_to_play)
}

/// The value of each of `moves` for the player to move in `m`.
pub open spec fn move_values(board: BoardState, scorer: PatternScorer, m: MoveSetModel, moves: Seq<(usize, usize)>) -> Seq<int> {
    moves.map_values(|p: (usize, usize)| move_value(board, scorer, m, p))
}

/// No value before index `k` wins.
pub open spec fn no_win_before(vals: Seq<int>, k: int) -> bool {
    forall|j: int| 0 <= j < k ==> #[trigger] vals[j] < WIN_SCORE
}

/// Some value wins outright.
pub open spec fn has_win(vals: Seq<int>) -> bool {
    exists|k: int| 0 <= k < vals.len() && #[trigger] vals[k] >= WIN_SCORE
}

/// `k` is the first index whose value wins.
pub open spec fn is_first_win(vals: Seq<int>, k: int) -> bool {
    0 <= k < vals.len() && vals[k] >= WIN_SCORE && no_win_before(vals, k)
}

/// The first index whose value wins, where one does.
pub open spec fn first_win(vals: Seq<int>) -> int {
    choose|k: int| is_first_win(vals, k)
}

/// The last index holding the largest value.
pub open spec fn last_argmax(vals: Seq<int>) -> int
    decreases vals.len(),
{
    if vals.len() <= 1 {
        0
    } else {
        let k = last_argmax(vals.drop_last());
        if vals.last() >= vals[k] {
            vals.len() - 1
        } else {
            k
        }
    }
}

/// Inserts index `x` into `s`, kept in descending order of `vals`, after
/// every index whose value is at least that of `x`.
pub open spec fn insert_desc(s: Seq<usize>, x: usize, vals: Seq<int>) -> Seq<usize>
    decreases s.len(),
{
    if s.len() == 0 || vals[s.last() as int] >= vals[x as int] {
        s.push(x)
    } else {
        insert_desc(s.drop_last(), x, vals).push(s.last())
    }
}

/// The indices `0..n` ordered by descending value, equal values keeping
/// their order (a stable sort).
pub open spec fn ranked(vals: Seq<int>, n: nat) -> Seq<usize>
    decreases n,
{
    if n == 0 {
        seq![]
    } else {
        insert_desc(ranked(vals, (n - 1) as nat), (n - 1) as usize, vals)
    }
}

/// The indices of the best [`MOVE_SET_SIZE`] values, best first.
pub open spec fn top_moves(vals: Seq<int>) -> Seq<usize> {
    ranked(vals, vals.len()).take(min_int(vals.len() as int, MOVE_SET_SIZE as int))
}

/// The position reached when the player to move in `m` plays at `p`.
pub open spec fn child_at(board: BoardState, scorer: PatternScorer, m: MoveSetModel, p: (usize, usize)) -> MoveSetModel {
    child_model(board, scorer, m, p.0 as int, p.1 as int)
}

/// The result of searching `depth` plies from `m`: the move chosen and its
/// value for the player to move.
///
/// Each candidate is valued by the mover's own score after playing it. The
/// first candidate that reaches [`WIN_SCORE`] is taken at once. Otherwise, at
/// depth 0, the last candidate of largest value is chosen; deeper, the best
/// [`MOVE_SET_SIZE`] candidates are each valued by the negation of the
/// opponent's best reply, searched one ply shallower, and the last of
/// largest value among them is chosen.
#[verifier::opaque]
pub open spec fn round_result(board: BoardState, scorer: PatternScorer, m: MoveSetModel, depth: nat) -> ((usize, usize), int)
    decreases depth, 0nat,
{
    let cands = candidates(board, m);
    let vals = move_values(board, scorer, m, cands);
    if has_win(vals) {
        let k = first_win(vals);
        (cands[k], vals[k])
    } else if depth == 0 {
        let k = last_argmax(vals);
        (cands[k], vals[k])
    } else {
        let top = top_moves(vals);
        let replies = reply_values(board, scorer, m, cands, top, (depth - 1) as nat);
        let k = last_argmax(replies);
        (cands[top[k] as int], replies[k])
    }
}

/// The value of each move `cands[top[t]]` once the opponent has answered
/// it with the best reply found `below` plies deep.
pub open spec fn reply_values(
    board: BoardState,
    scorer: PatternScorer,
    m: MoveSetModel,
    cands: Seq<(usize, usize)>,
    top: Seq<usize>,
    below: nat,
) -> Seq<int>
    decreases below, 1nat,
{
    top.map_values(|i: usize| -round_result(board, scorer, child_at(board, scorer, m, cands[i as int]), below).1)
}

/// `round_result`, case by case.
pub proof fn lemma_round_result(board: BoardState, scorer: PatternScorer, m: MoveSetModel, depth: nat)
    ensures
        ({
            let cands = candidates(board, m);
            let vals = move_values(board, scorer, m, cands);
            let top = top_moves(vals);
            let replies = reply_values(board, scorer, m, cands, top, (depth - 1) as nat);
            &&& has_win(vals) ==> round_result(board, scorer, m, depth) == (
                cands[first_win(vals)],
                vals[first_win(vals)],
            )
            &&& (!has_win(vals) && depth == 0) ==> round_result(board, scorer, m, depth) == (
                cands[last_argmax(vals)],
                vals[last_argmax(vals)],
            )
            &&& (!has_win(vals) && depth > 0) ==> round_result(board, scorer, m, depth) == (
                cands[top[last_argmax(replies)] as int],
                replies[last_argmax(replies)],
            )
        }),
{
    reveal(round_result);
}

/// One entry of `reply_values`.
proof fn lemma_reply_value(
    board: BoardState,
    scorer: PatternScorer,
    m: MoveSetModel,
    cands: Seq<(usize, usize)>,
    top: Seq<usize>,
    below: nat,
    t: int,
)
    requires
        0 <= t < top.len(),
    ensures
        reply_values(board, scorer, m, cands, top, below)[t] == -round_result(
            board,
            scorer,
            child_at(board, scorer, m, cands[top[t] as int]),
            below,
        ).1,
{
    reveal(round_result);
    reveal_with_fuel(reply_values, 1);
}

/// A move that wins outright is never passed over: when some candidate
/// reaches [`WIN_SCORE`], the first such candidate is chosen with its value.
pub proof fn lemma_search_takes_win(board: BoardState, scorer: PatternScorer, m: MoveSetModel, depth: nat, k: int)
    requires
        0 <= k < candidates(board, m).len(),
        move_values(board, scorer, m, candidates(board, m))[k] >= WIN_SCORE,
    ensures
        round_result(board, scorer, m, depth).1 >= WIN_SCORE,
        is_first_win(
            move_values(board, scorer, m, candidates(board, m)),
            first_win(move_values(board, scorer, m, candidates(board, m))),
        ),
        round_result(board, scorer, m, depth).0 == candidates(board, m)[first_win(
            move_values(board, scorer, m, candidates(board, m)),
        )],
{
    let vals = move_values(board, scorer, m, candidates(board, m));
    lemma_has_first_win(vals, k);
    lemma_round_result(board, scorer, m, depth);
}

/// No computation of the search from `m`, `depth` plies deep, leaves the
/// range of its integer types, and every position searched has a move.
#[verifier::opaque]
pub open spec fn search_fits(board: BoardState, scorer: PatternScorer, m: MoveSetModel, depth: nat) -> bool
    decreases depth,
{
    let cands = candidates(board, m);
    let vals = move_values(board, scorer, m, cands);
    &&& cands.len() > 0
    &&& forall|k: int|
        #![trigger cands[k]]
        0 <= k < cands.len() && no_win_before(vals, k) ==> move_fits(
            board,
            scorer,
            m,
            cands[k].0 as int,
            cands[k].1 as int,
        )
    &&& (!has_win(vals) && depth > 0) ==> forall|t: int|
        #![trigger top_moves(vals)[t]]
        0 <= t < top_moves(vals).len() ==> {
            let c = child_at(board, scorer, m, cands[top_moves(vals)[t] as int]);
            &&& search_fits(board, scorer, c, (depth - 1) as nat)
            &&& round_result(board, scorer, c, (depth - 1) as nat).1 > i32::MIN
        }
}

/// What `search_fits` grants.
pub proof fn lemma_search_fits(board: BoardState, scorer: PatternScorer, m: MoveSetModel, depth: nat)
    requires
        search_fits(board, scorer, m, depth),
    ensures
        ({
            let cands = candidates(board, m);
            let vals = move_values(board, scorer, m, cands);
            &&& cands.len() > 0
            &&& forall|k: int|
                #![trigger cands[k]]
                0 <= k < cands.len() && no_win_before(vals, k) ==> move_fits(
                    board,
                    scorer,
                    m,
                    cands[k].0 as int,
                    cands[k].1 as int,
                )
            &&& (!has_win(vals) && depth > 0) ==> forall|t: int|
                #![trigger top_moves(vals)[t]]
                0 <= t < top_moves(vals).len() ==> {
                    let c = child_at(board, scorer, m, cands[top_moves(vals)[t] as int]);
                    &&& search_fits(board, scorer, c, (depth - 1) as nat)
                    &&& round_result(board, scorer, c, (depth - 1) as nat).1 > i32::MIN
                }
        }),
{
    reveal(search_fits);
}

proof fn lemma_last_argmax(vals: Seq<int>)
    requires
        vals.len() > 0,
    ensures
        0 <= last_argmax(vals) < vals.len(),
        forall|j: int| 0 <= j < vals.len() ==> #[trigger] vals[j] <= vals[last_argmax(vals)],
        forall|j: int| last_argmax(vals) < j < vals.len() ==> #[trigger] vals[j] < vals[last_argmax(vals)],
    decreases vals.len(),
{
    if vals.len() > 1 {
        let d = vals.drop_last();
        lemma_last_argmax(d);
        assert forall|j: int| 0 <= j < vals.len() - 1 implies #[trigger] vals[j] == d[j] by {}
    }
}

proof fn lemma_insert_desc(s: Seq<usize>, x: usize, vals: Seq<int>, n: int)
    requires
        forall|j: int| 0 <= j < s.len() ==> #[trigger] s[j] < n,
        x < n,
    ensures
        insert_desc(s, x, vals).len() == s.len() + 1,
        forall|j: int| 0 <= j < s.len() + 1 ==> #[trigger] insert_desc(s, x, vals)[j] < n,
    decreases s.len(),
{
    if s.len() > 0 && vals[s.last() as int] < vals[x as int] {
        let d = s.drop_last();
        assert forall|j: int| 0 <= j < d.len() implies #[trigger] d[j] < n by {
            assert(d[j] == s[j]);
        }
        lemma_insert_desc(d, x, vals, n);
    }
}

/// `ranked(vals, n)` lists `n` indices, each below `n`.
proof fn lemma_ranked(vals: Seq<int>, n: nat)
    ensures
        ranked(vals, n).len() == n,
        forall|j: int| 0 <= j < n ==> #[trigger] ranked(vals, n)[j] < n,
    decreases n,
{
    if n > 0 {
        lemma_ranked(vals, (n - 1) as nat);
        lemma_insert_desc(ranked(vals, (n - 1) as nat), (n - 1) as usize, vals, n as int);
    }
}

/// `s` lists indices in order of descending value.
pub open spec fn desc_by(vals: Seq<int>, s: Seq<usize>) -> bool {
    forall|a: int, b: int| 0 <= a < b < s.len() ==> vals[#[trigger] s[a] as int] >= vals[#[trigger] s[b] as int]
}

/// Inserting keeps descending order and adds exactly the inserted index.
proof fn lemma_insert_desc_order(s: Seq<usize>, x: usize, vals: Seq<int>)
    requires
        desc_by(vals, s),
    ensures
        insert_desc(s, x, vals).len() == s.len() + 1,
        desc_by(vals, insert_desc(s, x, vals)),
        forall|y: usize| #[trigger] insert_desc(s, x, vals).contains(y) <==> (s.contains(y) || y == x),
        s.no_duplicates() && !s.contains(x) ==> insert_desc(s, x, vals).no_duplicates(),
    decreases s.len(),
{
    let r = insert_desc(s, x, vals);
    if s.len() == 0 || vals[s.last() as int] >= vals[x as int] {
        assert(r == s.push(x));
        assert forall|y: usize| #[trigger] r.contains(y) <==> (s.contains(y) || y == x) by {
            if s.contains(y) {
                let i = choose|i: int| 0 <= i < s.len() && s[i] == y;
                assert(r[i] == y);
            }
            if y == x {
                assert(r[s.len() as int] == x);
            }
            if r.contains(y) {
                let i = choose|i: int| 0 <= i < r.len() && r[i] == y;
                if i < s.len() {
                    assert(s[i] == y);
                }
            }
        }
        assert forall|a: int, b: int| 0 <= a < b < r.len() implies vals[#[trigger] r[a] as int] >= vals[#[trigger] r[b] as int] by {
            if b == s.len() {
                assert(vals[s[a] as int] >= vals[s.last() as int]);
            }
        }
    } else {
        let d = s.drop_last();
        let l = s.last();
        assert(desc_by(vals, d)) by {
            assert forall|a: int, b: int| 0 <= a < b < d.len() implies vals[#[trigger] d[a] as int] >= vals[#[trigger] d[b] as int] by {
                assert(d[a] == s[a] && d[b] == s[b]);
            }
        }
        lemma_insert_desc_order(d, x, vals);
        let q = insert_desc(d, x, vals);
        assert(r == q.push(l));
        assert forall|y: usize| #[trigger] r.contains(y) <==> (s.contains(y) || y == x) by {
            if s.contains(y) {
                let i = choose|i: int| 0 <= i < s.len() && s[i] == y;
                if i == s.len() - 1 {
                    assert(r[q.len() as int] == y);
                } else {
                    assert(d[i] == y);
                    assert(q.contains(y));
                    let k = choose|k: int| 0 <= k < q.len() && q[k] == y;
                    assert(r[k] == y);
                }
            }
            if y == x {
                assert(q.contains(x));
                let k = choose|k: int| 0 <= k < q.len() && q[k] == x;
                assert(r[k] == x);
            }
            if r.contains(y) {
                let i = choose|i: int| 0 <= i < r.len() && r[i] == y;
                if i < q.len() {
                    assert(q[i] == y);
                    assert(q.contains(y));
                    if d.contains(y) {
                        let k = choose|k: int| 0 <= k < d.len() && d[k] == y;
                        assert(s[k] == y);
                    }
                } else {
                    assert(s[s.len() - 1] == y);
                }
            }
        }
        assert forall|a: int, b: int| 0 <= a < b < r.len() implies vals[#[trigger] r[a] as int] >= vals[#[trigger] r[b] as int] by {
            if b == q.len() {
                let y = q[a];
                assert(q.contains(y));
                if y == x {
                    assert(vals[x as int] > vals[l as int]);
                } else {
                    assert(d.contains(y));
                    let k = choose|k: int| 0 <= k < d.len() && d[k] == y;
                    assert(s[k] == y);
                    assert(vals[s[k] as int] >= vals[s[s.len() - 1] as int]);
                }
            } else {
                assert(r[a] == q[a] && r[b] == q[b]);
            }
        }
        if s.no_duplicates() && !s.contains(x) {
            assert(d.no_duplicates()) by {
                assert forall|a: int, b: int| 0 <= a < d.len() && 0 <= b < d.len() && a != b implies d[a] != d[b] by {
                    assert(d[a] == s[a] && d[b] == s[b]);
                }
            }
            assert(!d.contains(x)) by {
                if d.contains(x) {
                    let k = choose|k: int| 0 <= k < d.len() && d[k] == x;
                    assert(s[k] == x);
                }
            }
            assert(!q.contains(l)) by {
                if q.contains(l) {
                    if l == x {
                        assert(s[s.len() - 1] == x);
                    } else {
                        assert(d.contains(l));
                        let k = choose|k: int| 0 <= k < d.len() && d[k] == l;
                        assert(s[k] == s[s.len() - 1]);
                    }
                }
            }
            assert forall|a: int, b: int| 0 <= a < r.len() && 0 <= b < r.len() && a != b implies r[a] != r[b] by {
                if a < q.len() && b < q.len() {
                    assert(r[a] == q[a] && r[b] == q[b]);
                } else if a < q.len() {
                    assert(q.contains(q[a]));
                } else if b < q.len() {
                    assert(q.contains(q[b]));
                }
            }
        }
    }
}

/// `ranked(vals, n)` orders the indices `0..n`, each once, by descending
/// value.
proof fn lemma_ranked_order(vals: Seq<int>, n: nat)
    requires
        n <= usize::MAX,
    ensures
        ranked(vals, n).len() == n,
        desc_by(vals, ranked(vals, n)),
        ranked(vals, n).no_duplicates(),
        forall|y: usize| #[trigger] ranked(vals, n).contains(y) <==> y < n,
    decreases n,
{
    if n > 0 {
        lemma_ranked_order(vals, (n - 1) as nat);
        let p = ranked(vals, (n - 1) as nat);
        assert(!p.contains((n - 1) as usize));
        lemma_insert_desc_order(p, (n - 1) as usize, vals);
    }
}

/// The moves a search looks further into are the `MOVE_SET_SIZE` (five)
/// best candidates by immediate value, or all of them when there are fewer:
/// different candidates, and none left out worth more than one taken.
pub proof fn lemma_top_moves(vals: Seq<int>)
    requires
        vals.len() <= usize::MAX,
    ensures
        top_moves(vals).len() == min_int(vals.len() as int, 5),
        top_moves(vals).no_duplicates(),
        forall|t: int| 0 <= t < top_moves(vals).len() ==> #[trigger] top_moves(vals)[t] < vals.len(),
        forall|j: int, t: int|
            0 <= j < vals.len() && 0 <= t < top_moves(vals).len() && !top_moves(vals).contains(j as usize) ==> #[trigger] vals[j]
                <= vals[#[trigger] top_moves(vals)[t] as int],
{
    let n = vals.len();
    lemma_ranked_order(vals, n);
    let r = ranked(vals, n);
    let top = top_moves(vals);
    let m = min_int(n as int, 5);
    assert(top == r.take(m));
    assert forall|t: int| 0 <= t < top.len() implies #[trigger] top[t] < vals.len() by {
        assert(top[t] == r[t]);
        assert(r.contains(r[t]));
    }
    assert forall|a: int, b: int| 0 <= a < top.len() && 0 <= b < top.len() && a != b implies top[a] != top[b] by {
        assert(top[a] == r[a] && top[b] == r[b]);
    }
    assert forall|j: int, t: int|
        0 <= j < vals.len() && 0 <= t < top.len() && !top.contains(j as usize) implies #[trigger] vals[j] <= vals[#[trigger] top[t] as int] by {
        assert(r.contains(j as usize));
        let p = choose|p: int| 0 <= p < r.len() && r[p] == j as usize;
        if p < m {
            assert(top[p] == j as usize);
        }
        assert(top[t] == r[t]);
        assert(vals[r[t] as int] >= vals[r[p] as int]);
    }
}

/// The first winning index is unique.
proof fn lemma_first_win(vals: Seq<int>, k: int)
    requires
        is_first_win(vals, k),
    ensures
        has_win(vals),
        first_win(vals) == k,
{
    assert(vals[k] >= WIN_SCORE);
    let f = first_win(vals);
    assert(is_first_win(vals, f));
    if f < k {
        assert(vals[f] < WIN_SCORE);
    }
    if f > k {
        assert(vals[k] < WIN_SCORE);
    }
}

/// Playing on the board keeps the bounding box a box of the board.
proof fn lemma_child_model_ok(board: BoardState, scorer: PatternScorer, m: MoveSetModel, row: int, col: int)
    requires
        model_ok(board, m),
        0 <= row < board.height,
        0 <= col < board.width,
    ensures
        model_ok(board, child_model(board, scorer, m, row, col)),
{
    lemma_child_frame(board, scorer, m, row, col);
}

/// The last index of largest value in `v`.
fn last_max_index(v: &Vec<i32>) -> (k: usize)
    requires
        v.len() > 0,
    ensures
        k == last_argmax(v@.map_values(|x: i32| x as int)),
        k < v.len(),
{
    let ghost vals = v@.map_values(|x: i32| x as int);
    let mut best: usize = 0;
    let mut i: usize = 1;
    while i < v.len()
        invariant
            1 <= i <= v.len(),
            vals == v@.map_values(|x: i32| x as int),
            best < i,
            best == last_argmax(vals.take(i as int)),
        decreases v.len() - i,
    {
        proof {
            assert(vals.take(i + 1).drop_last() =~= vals.take(i as int));
        }
        if v[i] >= v[best] {
            best = i;
        }
        i += 1;
    }
    assert(vals.take(v.len() as int) =~= vals);
    best
}

/// The indices of `values` in descending order of value, equal values
/// keeping their order.
fn rank_desc(values: &Vec<i32>) -> (order: Vec<usize>)
    ensures
        order@ == ranked(values@.map_values(|x: i32| x as int), values.len() as nat),
{
    let ghost vals = values@.map_values(|x: i32| x as int);
    let mut order: Vec<usize> = Vec::new();
    let mut i: usize = 0;
    while i < values.len()
        invariant
            i <= values.len(),
            vals == values@.map_values(|x: i32| x as int),
            order@ == ranked(vals, i as nat),
            order.len() == i,
            forall|j: int| 0 <= j < order.len() ==> #[trigger] order@[j] < i,
        decreases values.len() - i,
    {
        let mut pos = order.len();
        assert(order@.take(pos as int) =~= order@);
        assert(order@.skip(pos as int) =~= Seq::<usize>::empty());
        while pos > 0 && values[order[pos - 1]] < values[i]
            invariant
                i < values.len(),
                vals == values@.map_values(|x: i32| x as int),
                order.len() == i,
                pos <= order.len(),
                forall|j: int| 0 <= j < order.len() ==> #[trigger] order@[j] < i,
                insert_desc(order@, i, vals) == insert_desc(order@.take(pos as int), i, vals) + order@.skip(
                    pos as int,
                ),
            decreases pos,
        {
            proof {
                let t = order@.take(pos as int);
                assert(t.drop_last() =~= order@.take(pos - 1));
                assert(t.last() == order@[pos - 1]);
                assert(order@.skip(pos - 1) =~= seq![order@[pos - 1]] + order@.skip(pos as int));
                assert(insert_desc(t, i, vals) == insert_desc(order@.take(pos - 1), i, vals).push(order@[pos - 1]));
                assert(insert_desc(order@.take(pos - 1), i, vals).push(order@[pos - 1]) + order@.skip(pos as int)
                    =~= insert_desc(order@.take(pos - 1), i, vals) + order@.skip(pos - 1));
            }
            pos -= 1;
        }
        proof {
            let t = order@.take(pos as int);
            if pos > 0 {
                assert(t.last() == order@[pos - 1]);
            }
            assert(insert_desc(t, i, vals) == t.push(i));
            assert(order@.insert(pos as int, i) =~= t.push(i) + order@.skip(pos as int));
            assert(ranked(vals, (i + 1) as nat) == insert_desc(ranked(vals, i as nat), i, vals));
        }
        order.insert(pos, i);
        i += 1;
    }
    order
}


/// The bounding box of the stones on `board` (its centre point when it has
/// none), as (first row, last row, first column, last column).
pub open spec fn stone_box(board: BoardState) -> (usize, usize, usize, usize) {
    choose|b: (usize, usize, usize, usize)| is_stone_box(board, b)
}

/// The position `board` presents to `color`, before any move is searched.
pub open spec fn root_model(board: BoardState, scorer: PatternScorer, color: PlayerType) -> MoveSetModel {
    let b = stone_box(board);
    MoveSetModel {
        moves: Map::empty(),
        move_coords: None,
        min_row: b.0,
        max_row: b.1,
        min_col: b.2,
        max_col: b.3,
        captures_white: board.captures_white,
        captures_black: board.captures_black,
        score_white: full_score(board, board.grid(), scorer, PlayerType::White) + capture_value(
            board.captures_white,
        ) - capture_value(board.captures_black),
        score_black: full_score(board, board.grid(), scorer, PlayerType::Black) + capture_value(
            board.captures_black,
        ) - capture_value(board.captures_white),
        player_to_play: color,
    }
}

/// The move chosen for `color` on `board` by a search `depth` plies deep,
/// with its value for `color`.
pub open spec fn best_move(board: BoardState, scorer: PatternScorer, color: PlayerType, depth: nat) -> ((usize, usize), int) {
    round_result(board, scorer, root_model(board, scorer, color), depth)
}

/// Stones on the four sides of a stone box of a board with stones.
proof fn lemma_stone_box_witnesses(board: BoardState, b: (usize, usize, usize, usize)) -> (w: (int, int, int, int))
    requires
        is_stone_box(board, b),
        exists|r: int, c: int| is_stone(board, r, c),
    ensures
        is_stone(board, b.0 as int, w.0),
        is_stone(board, b.1 as int, w.1),
        is_stone(board, w.2, b.2 as int),
        is_stone(board, w.3, b.3 as int),
{
    let c0 = choose|c: int| #[trigger] is_stone(board, b.0 as int, c);
    let c1 = choose|c: int| #[trigger] is_stone(board, b.1 as int, c);
    let r2 = choose|r: int| #[trigger] is_stone(board, r, b.2 as int);
    let r3 = choose|r: int| #[trigger] is_stone(board, r, b.3 as int);
    (c0, c1, r2, r3)
}

/// A board has one stone box.
proof fn lemma_stone_box_unique(board: BoardState, b: (usize, usize, usize, usize))
    requires
        is_stone_box(board, b),
    ensures
        stone_box(board) == b,
{
    let a = stone_box(board);
    assert(is_stone_box(board, a));
    if exists|r: int, c: int| is_stone(board, r, c) {
        lemma_stone_box_witnesses(board, a);
        lemma_stone_box_witnesses(board, b);
    }
}

/// Where some value wins, a first one does.
proof fn lemma_has_first_win(vals: Seq<int>, k: int)
    requires
        0 <= k < vals.len(),
        vals[k] >= WIN_SCORE,
    ensures
        is_first_win(vals, first_win(vals)),
    decreases k,
{
    if no_win_before(vals, k) {
        assert(is_first_win(vals, k));
    } else {
        let j = choose|j: int| 0 <= j < k && !(#[trigger] vals[j] < WIN_SCORE);
        lemma_has_first_win(vals, j);
    }
}

/// A search of depth 0 plays a candidate at that candidate's value for the
/// mover, and that value wins outright or no candidate is worth more.
pub proof fn lemma_depth_zero_best(board: BoardState, scorer: PatternScorer, m: MoveSetModel)
    requires
        candidates(board, m).len() > 0,
    ensures
        ({
            let cands = candidates(board, m);
            let vals = move_values(board, scorer, m, cands);
            let (mv, v) = round_result(board, scorer, m, 0);
            &&& exists|i: int| 0 <= i < cands.len() && #[trigger] cands[i] == mv && vals[i] == v
            &&& v >= WIN_SCORE || forall|j: int| 0 <= j < cands.len() ==> #[trigger] vals[j] <= v
        }),
{
    let cands = candidates(board, m);
    let vals = move_values(board, scorer, m, cands);
    lemma_round_result(board, scorer, m, 0);
    if has_win(vals) {
        let k = choose|k: int| 0 <= k < vals.len() && #[trigger] vals[k] >= WIN_SCORE;
        lemma_has_first_win(vals, k);
        let f = first_win(vals);
        assert(cands[f] == round_result(board, scorer, m, 0).0 && vals[f] == round_result(board, scorer, m, 0).1);
    } else {
        lemma_last_argmax(vals);
        let f = last_argmax(vals);
        assert(cands[f] == round_result(board, scorer, m, 0).0 && vals[f] == round_result(board, scorer, m, 0).1);
    }
}

/// The move a search chooses is one of the candidates.
pub proof fn lemma_round_result_is_candidate(board: BoardState, scorer: PatternScorer, m: MoveSetModel, depth: nat)
    requires
        candidates(board, m).len() > 0,
    ensures
        exists|i: int|
            0 <= i < candidates(board, m).len() && #[trigger] candidates(board, m)[i] == round_result(
                board,
                scorer,
                m,
                depth,
            ).0,
{
    let cands = candidates(board, m);
    let vals = move_values(board, scorer, m, cands);
    lemma_round_result(board, scorer, m, depth);
    if has_win(vals) {
        let k = choose|k: int| 0 <= k < vals.len() && #[trigger] vals[k] >= WIN_SCORE;
        lemma_has_first_win(vals, k);
        let f = first_win(vals);
        assert(cands[f] == round_result(board, scorer, m, depth).0);
    } else if depth == 0 {
        lemma_last_argmax(vals);
        let f = last_argmax(vals);
        assert(cands[f] == round_result(board, scorer, m, depth).0);
    } else {
        let top = top_moves(vals);
        let replies = reply_values(board, scorer, m, cands, top, (depth - 1) as nat);
        lemma_ranked(vals, vals.len());
        assert(top.len() > 0);
        lemma_last_argmax(replies);
        let k = last_argmax(replies);
        let i = top[k] as int;
        assert(top[k] == ranked(vals, vals.len())[k]);
        assert(cands[i] == round_result(board, scorer, m, depth).0);
    }
}

/// Engine entrypoint: holds a reusable pattern scorer for search.
#[derive(Clone)]
pub struct Search {
    scorer: PatternScorer,
}

impl Search {
    /// The scorer the search evaluates positions with.
    pub closed spec fn scorer(&self) -> PatternScorer {
        self.scorer
    }

    pub fn new(scorer: PatternScorer) -> (search: Self)
        ensures
            search.scorer() == scorer,
    {
        Self { scorer }
    }

    /// `depth` is plies of *opponent* lookahead baked into the returned
    /// score, on top of the move itself. `depth == 0` ranks candidates by
    /// their own immediate impact only, with no anticipated reply — that's
    /// the score that matches a static (no-search) evaluation of the
    /// resulting position. Each additional depth adds one more ply of the
    /// opponent's (then your own, etc.) best anticipated response.
    ///
    /// The move returned is an empty point of the board, at most
    /// [`BOUNDING_BOX_PADDING`] outside the bounding box of its stones.
    pub fn find_best_move(self, board: &BoardState, color: PlayerType, depth: usize) -> (best: ((usize, usize), i32))
        requires
            self.scorer().wf(),
            board.wf(),
            board.width > 0,
            board.height > 0,
            full_scan_fits(board.width as int, board.height as int),
            board_size_ok(*board),
            root_fits(*board, self.scorer()),
            search_fits(*board, self.scorer(), root_model(*board, self.scorer(), color), depth as nat),
        ensures
            (best.0, best.1 as int) == best_move(*board, self.scorer(), color, depth as nat),
            ({
                let (row, col) = best.0;
                let b = stone_box(*board);
                &&& row < board.height
                &&& col < board.width
                &&& board.tile(row as int, col as int) == TileType::Empty
                &&& sat_sub(b.0 as int, BOUNDING_BOX_PADDING as int) <= row <= b.1 + BOUNDING_BOX_PADDING
                &&& sat_sub(b.2 as int, BOUNDING_BOX_PADDING as int) <= col <= b.3 + BOUNDING_BOX_PADDING
            }),
    {
        let base_evaluation = EvaluatedMoveSet::from_board_state(board, &self.scorer, color);
        let ghost root = root_model(*board, self.scorer, color);
        proof {
            lemma_stone_box_unique(
                *board,
                (base_evaluation.min_row, base_evaluation.max_row, base_evaluation.min_col, base_evaluation.max_col),
            );
            assert(base_evaluation.model() == root);
            if exists|r: int, c: int| is_stone(*board, r, c) {
                lemma_stone_box_witnesses(*board, stone_box(*board));
            }
            assert(model_ok(*board, root));
            lemma_search_fits(*board, self.scorer, root, depth as nat);
            lemma_round_result_is_candidate(*board, self.scorer, root, depth as nat);
            lemma_candidates_in_box(*board, root);
        }
        let best = self.evaluate_round_moves(&base_evaluation, depth);
        proof {
            let cands = candidates(*board, root);
            let i = choose|i: int| 0 <= i < cands.len() && #[trigger] cands[i] == best.0;
            assert(cands[i] == best.0);
        }
        best
    }

    /// Plays each of `moves` from `parent_ems`, in order, stopping after the
    /// first whose value wins outright. Returns the positions reached and
    /// the value of each move for the player who made it.
    fn evaluate_candidates<'b>(&self, parent_ems: &'b EvaluatedMoveSet, moves: &Vec<(usize, usize)>) -> (out: (
        Vec<EvaluatedMoveSet<'b>>,
        Vec<i32>,
    ))
        requires
            self.scorer.wf(),
            parent_ems.board.wf(),
            board_size_ok(*parent_ems.board),
            forall|i: int|
                0 <= i < moves@.len() ==> {
                    let p = #[trigger] moves@[i];
                    &&& p.0 < parent_ems.board.height
                    &&& p.1 < parent_ems.board.width
                },
            forall|k: int|
                #![trigger moves@[k]]
                0 <= k < moves@.len() && no_win_before(
                    move_values(*parent_ems.board, self.scorer, parent_ems.model(), moves@),
                    k,
                ) ==> move_fits(
                    *parent_ems.board,
                    self.scorer,
                    parent_ems.model(),
                    moves@[k].0 as int,
                    moves@[k].1 as int,
                ),
        ensures
            ({
                let vals = move_values(*parent_ems.board, self.scorer, parent_ems.model(), moves@);
                let n = out.1.len();
                &&& out.0.len() == n
                &&& n <= moves.len()
                &&& forall|j: int|
                    0 <= j < n ==> {
                        &&& (#[trigger] out.0@[j]).board == parent_ems.board
                        &&& out.0@[j].model() == child_at(*parent_ems.board, self.scorer, parent_ems.model(), moves@[j])
                    }
                &&& forall|j: int| 0 <= j < n ==> #[trigger] out.1@[j] as int == vals[j]
                &&& (n == moves.len() && no_win_before(vals, n as int)) || (n > 0 && is_first_win(vals, n - 1))
            }),
    {
        let board = parent_ems.board;
        let ghost m = parent_ems.model();
        let ghost vals = move_values(*board, self.scorer, m, moves@);
        let mut ems_list: Vec<EvaluatedMoveSet<'b>> = Vec::new();
        let mut values: Vec<i32> = Vec::new();
        let mut k: usize = 0;
        while k < moves.len()
            invariant
                self.scorer.wf(),
                board == parent_ems.board,
                board.wf(),
                board_size_ok(*board),
                m == parent_ems.model(),
                vals == move_values(*board, self.scorer, m, moves@),
                forall|i: int|
                    0 <= i < moves@.len() ==> {
                        let p = #[trigger] moves@[i];
                        &&& p.0 < board.height
                        &&& p.1 < board.width
                    },
                forall|k: int|
                    #![trigger moves@[k]]
                    0 <= k < moves@.len() && no_win_before(vals, k) ==> move_fits(
                        *board,
                        self.scorer,
                        m,
                        moves@[k].0 as int,
                        moves@[k].1 as int,
                    ),
                k <= moves.len(),
                ems_list.len() == k,
                values.len() == k,
                forall|j: int|
                    0 <= j < k ==> {
                        &&& (#[trigger] ems_list@[j]).board == board
                        &&& ems_list@[j].model() == child_at(*board, self.scorer, m, moves@[j])
                    },
                forall|j: int| 0 <= j < k ==> #[trigger] values@[j] as int == vals[j],
                no_win_before(vals, k as int),
            decreases moves.len() - k,
        {
            let (r, c) = moves[k];
            assert(moves@[k as int] == (r, c));
            let ems = EvaluatedMoveSet::from_parent(parent_ems, &self.scorer, board, r, c);
            let v = if parent_ems.player_to_play == PlayerType::White {
                ems.score_white
            } else {
                ems.score_black
            };
            assert(v as int == vals[k as int]);
            ems_list.push(ems);
            values.push(v);
            k += 1;
            if v >= WIN_SCORE {
                return (ems_list, values);
            }
        }
        (ems_list, values)
    }

    /// Searches `depth` plies from `parent_ems` and returns the chosen move
    /// with its value for the player to move there.
    fn evaluate_round_moves(&self, parent_ems: &EvaluatedMoveSet, depth: usize) -> (best: ((usize, usize), i32))
        requires
            self.scorer.wf(),
            parent_ems.board.wf(),
            board_size_ok(*parent_ems.board),
            model_ok(*parent_ems.board, parent_ems.model()),
            search_fits(*parent_ems.board, self.scorer, parent_ems.model(), depth as nat),
        ensures
            (best.0, best.1 as int) == round_result(*parent_ems.board, self.scorer, parent_ems.model(), depth as nat),
        decreases depth,
    {
        let board = parent_ems.board;
        let ghost m = parent_ems.model();
        let moves = collect_candidates(parent_ems);
        let ghost cands = moves@;
        let ghost vals = move_values(*board, self.scorer, m, cands);
        proof {
            lemma_candidates_in_box(*board, m);
            lemma_search_fits(*board, self.scorer, m, depth as nat);
            lemma_round_result(*board, self.scorer, m, depth as nat);
        }
        let (ems_list, values) = self.evaluate_candidates(parent_ems, &moves);
        let n = values.len();
        if n > 0 && values[n - 1] >= WIN_SCORE {
            proof {
                if n == moves.len() && no_win_before(vals, n as int) {
                    assert(vals[n - 1] < WIN_SCORE);
                }
                lemma_first_win(vals, n - 1);
            }
            return (moves[n - 1], values[n - 1]);
        }
        assert(n == cands.len());
        assert(values@.map_values(|x: i32| x as int) =~= vals);
        assert(!has_win(vals)) by {
            if has_win(vals) {
                let j = choose|j: int| 0 <= j < vals.len() && #[trigger] vals[j] >= WIN_SCORE;
                assert(vals[j] < WIN_SCORE);
            }
        }
        if depth == 0 {
            let best = last_max_index(&values);
            return (moves[best], values[best]);
        }
        let order = rank_desc(&values);
        proof {
            lemma_ranked(vals, n as nat);
        }
        let ghost top = top_moves(vals);
        let ghost replies_spec = reply_values(*board, self.scorer, m, cands, top, (depth - 1) as nat);
        let n_top = if order.len() < MOVE_SET_SIZE {
            order.len()
        } else {
            MOVE_SET_SIZE
        };
        assert(top =~= order@.take(n_top as int));
        let mut replies: Vec<i32> = Vec::new();
        let mut t: usize = 0;
        while t < n_top
            invariant
                self.scorer.wf(),
                board == parent_ems.board,
                board.wf(),
                board_size_ok(*board),
                m == parent_ems.model(),
                depth > 0,
                cands == moves@,
                vals == move_values(*board, self.scorer, m, cands),
                !has_win(vals),
                model_ok(*board, m),
                forall|i: int|
                    0 <= i < cands.len() ==> {
                        let p = #[trigger] cands[i];
                        &&& p.0 < board.height
                        &&& p.1 < board.width
                    },
                (!has_win(vals) && depth > 0) ==> forall|t: int|
                    #![trigger top_moves(vals)[t]]
                    0 <= t < top_moves(vals).len() ==> {
                        let c = child_at(*board, self.scorer, m, cands[top_moves(vals)[t] as int]);
                        &&& search_fits(*board, self.scorer, c, (depth - 1) as nat)
                        &&& round_result(*board, self.scorer, c, (depth - 1) as nat).1 > i32::MIN
                    },
                ems_list.len() == n,
                forall|j: int|
                    0 <= j < n ==> {
                        &&& (#[trigger] ems_list@[j]).board == board
                        &&& ems_list@[j].model() == child_at(*board, self.scorer, m, cands[j])
                    },
                forall|j: int| 0 <= j < n ==> #[trigger] order@[j] < n,
                order.len() == n,
                n == cands.len(),
                top == top_moves(vals),
                top == order@.take(n_top as int),
                n_top == top.len(),
                n_top <= n,
                replies_spec == reply_values(*board, self.scorer, m, cands, top, (depth - 1) as nat),
                t <= n_top,
                replies.len() == t,
                forall|j: int| 0 <= j < t ==> #[trigger] replies@[j] as int == replies_spec[j],
            decreases n_top - t,
        {
            let i = order[t];
            assert(top_moves(vals)[t as int] == i);
            let ghost p = cands[i as int];
            proof {
                lemma_child_model_ok(*board, self.scorer, m, p.0 as int, p.1 as int);
            }
            let (_, score) = self.evaluate_round_moves(&ems_list[i], depth - 1);
            proof {
                lemma_reply_value(*board, self.scorer, m, cands, top, (depth - 1) as nat, t as int);
            }
            replies.push(-score);
            t += 1;
        }
        assert(replies@.map_values(|x: i32| x as int) =~= replies_spec);
        let best = last_max_index(&replies);
        (moves[order[best]], replies[best])
    }
}

} // verus!
