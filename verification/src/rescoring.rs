//! Why rescoring only the lines through the points a move changes gives the
//! same scores as evaluating the whole board again: pattern occurrences are
//! local, so a line's score changes exactly as much as the window around the
//! changed point does, and a mirror-closed pattern set scores a line the same
//! read in either direction.

use vstd::prelude::*;
use crate::aho_corasick::{is_occurrence, match_precedes, matches_in_order, turn_tile, Match, TurnTileType};
use crate::evaluation::{
    board_lines, board_size_ok, root_fits, family_count, family_line, full_line_values, full_score, in_i32, local_total,
    local_values, PatternScorer, apply_changes, capture_value, cell_change_delta, cell_key, changes_delta,
    child_model, default_patterns, default_weights, expand_patterns, lemma_pattern_table_valid, pattern_table,
    pattern_tile, PATTERN_SPECS, WIN_SCORE, CAPTURE_WIN_PAIRS, lemma_changes_step, lemma_child_scores, move_captures, move_changes, overlay, MoveSetModel, lemma_lines_upto_prefix, lines_upto, sum_ints, is_match_list, lemma_match_list_is, line_score, line_tiles, match_list, ray,
    step_cell, weighted_sum, window, window_bounds,
};
use crate::board::{lemma_captures_shape, lemma_cell_distinct, lemma_cell_in_board, BoardState};
use crate::search::{child_at, move_value, root_model};
use crate::tile::{opponent, stone_of, PlayerType, TileType};

verus! {

/// The occurrences, among patterns `i..`, that start at `s` and end where
/// `text` ends, by pattern id.
pub open spec fn ids_at(patterns: Seq<Seq<TurnTileType>>, text: Seq<TurnTileType>, s: int, i: int) -> Seq<Match>
    decreases patterns.len() - i,
{
    if i < 0 || i >= patterns.len() {
        seq![]
    } else {
        let m = Match { start: s as usize, end: text.len() as usize, pattern_id: i as usize };
        let rest = ids_at(patterns, text, s, i + 1);
        if is_occurrence(patterns, text, m) {
            seq![m] + rest
        } else {
            rest
        }
    }
}

/// The occurrences that end where `text` ends and start at `s` or later, by
/// start and then pattern id.
pub open spec fn ends_from(patterns: Seq<Seq<TurnTileType>>, text: Seq<TurnTileType>, s: int) -> Seq<Match>
    decreases text.len() + 1 - s,
{
    if s < 0 || s > text.len() {
        seq![]
    } else {
        ids_at(patterns, text, s, 0) + ends_from(patterns, text, s + 1)
    }
}

/// Every occurrence in `text`, in reporting order, built end by end.
pub open spec fn occ_list(patterns: Seq<Seq<TurnTileType>>, text: Seq<TurnTileType>) -> Seq<Match>
    decreases text.len(),
{
    if text.len() == 0 {
        ends_from(patterns, text, 0)
    } else {
        occ_list(patterns, text.drop_last()) + ends_from(patterns, text, 0)
    }
}

proof fn lemma_ids_at(patterns: Seq<Seq<TurnTileType>>, text: Seq<TurnTileType>, s: int, i: int)
    requires
        0 <= s <= text.len() <= usize::MAX,
        0 <= i,
        patterns.len() <= usize::MAX,
    ensures
        ({
            let l = ids_at(patterns, text, s, i);
            &&& forall|k: int|
                0 <= k < l.len() ==> {
                    &&& is_occurrence(patterns, text, #[trigger] l[k])
                    &&& l[k].start == s
                    &&& l[k].end == text.len()
                    &&& l[k].pattern_id >= i
                }
            &&& matches_in_order(l)
            &&& forall|m: Match|
                is_occurrence(patterns, text, m) && m.start == s && m.end == text.len() && m.pattern_id
                    >= i ==> #[trigger] l.contains(m)
        }),
    decreases patterns.len() - i,
{
    if i < patterns.len() {
        lemma_ids_at(patterns, text, s, i + 1);
        let m = Match { start: s as usize, end: text.len() as usize, pattern_id: i as usize };
        let rest = ids_at(patterns, text, s, i + 1);
        let l = ids_at(patterns, text, s, i);
        if is_occurrence(patterns, text, m) {
            assert(l == seq![m] + rest);
            assert forall|k: int| 0 <= k < l.len() implies {
                &&& is_occurrence(patterns, text, #[trigger] l[k])
                &&& l[k].start == s
                &&& l[k].end == text.len()
                &&& l[k].pattern_id >= i
            } by {
                if k > 0 {
                    assert(l[k] == rest[k - 1]);
                }
            }
            assert forall|k1: int, k2: int| 0 <= k1 < k2 < l.len() implies match_precedes(
                #[trigger] l[k1],
                #[trigger] l[k2],
            ) by {
                assert(l[k2] == rest[k2 - 1]);
                if k1 > 0 {
                    assert(l[k1] == rest[k1 - 1]);
                }
            }
            assert forall|x: Match|
                is_occurrence(patterns, text, x) && x.start == s && x.end == text.len() && x.pattern_id
                    >= i implies #[trigger] l.contains(x) by {
                if x.pattern_id == i {
                    assert(x == m);
                    assert(l[0] == m);
                } else {
                    assert(rest.contains(x));
                    let k = choose|k: int| 0 <= k < rest.len() && rest[k] == x;
                    assert(l[k + 1] == x);
                }
            }
        } else {
            assert forall|x: Match|
                is_occurrence(patterns, text, x) && x.start == s && x.end == text.len() && x.pattern_id
                    >= i implies #[trigger] l.contains(x) by {
                if x.pattern_id == i {
                    assert(x == m);
                }
            }
        }
    }
}

/// `a + b` is in reporting order when both are and `a` comes first.
proof fn lemma_concat_in_order(a: Seq<Match>, b: Seq<Match>)
    requires
        matches_in_order(a),
        matches_in_order(b),
        forall|x: int, y: int| 0 <= x < a.len() && 0 <= y < b.len() ==> match_precedes(#[trigger] a[x], #[trigger] b[y]),
    ensures
        matches_in_order(a + b),
{
    let c = a + b;
    assert forall|k1: int, k2: int| 0 <= k1 < k2 < c.len() implies match_precedes(#[trigger] c[k1], #[trigger] c[k2]) by {
        if k2 < a.len() {
            assert(c[k1] == a[k1] && c[k2] == a[k2]);
        } else if k1 >= a.len() {
            assert(c[k1] == b[k1 - a.len()] && c[k2] == b[k2 - a.len()]);
        } else {
            assert(c[k1] == a[k1] && c[k2] == b[k2 - a.len()]);
        }
    }
}

proof fn lemma_ends_from(patterns: Seq<Seq<TurnTileType>>, text: Seq<TurnTileType>, s: int)
    requires
        0 <= s <= text.len() + 1,
        text.len() <= usize::MAX,
        patterns.len() <= usize::MAX,
    ensures
        ({
            let l = ends_from(patterns, text, s);
            &&& forall|k: int|
                0 <= k < l.len() ==> {
                    &&& is_occurrence(patterns, text, #[trigger] l[k])
                    &&& l[k].start >= s
                    &&& l[k].end == text.len()
                }
            &&& matches_in_order(l)
            &&& forall|m: Match|
                is_occurrence(patterns, text, m) && m.start >= s && m.end == text.len() ==> #[trigger] l.contains(m)
        }),
    decreases text.len() + 1 - s,
{
    if s <= text.len() {
        lemma_ends_from(patterns, text, s + 1);
        lemma_ids_at(patterns, text, s, 0);
        let a = ids_at(patterns, text, s, 0);
        let b = ends_from(patterns, text, s + 1);
        let l = ends_from(patterns, text, s);
        assert(l == a + b);
        assert forall|x: int, y: int| 0 <= x < a.len() && 0 <= y < b.len() implies match_precedes(
            #[trigger] a[x],
            #[trigger] b[y],
        ) by {}
        lemma_concat_in_order(a, b);
        assert forall|k: int| 0 <= k < l.len() implies {
            &&& is_occurrence(patterns, text, #[trigger] l[k])
            &&& l[k].start >= s
            &&& l[k].end == text.len()
        } by {
            if k < a.len() {
                assert(l[k] == a[k]);
            } else {
                assert(l[k] == b[k - a.len()]);
            }
        }
        assert forall|m: Match| is_occurrence(patterns, text, m) && m.start >= s && m.end == text.len() implies #[trigger] l.contains(m) by {
            if m.start == s {
                assert(a.contains(m));
                let k = choose|k: int| 0 <= k < a.len() && a[k] == m;
                assert(l[k] == m);
            } else {
                assert(b.contains(m));
                let k = choose|k: int| 0 <= k < b.len() && b[k] == m;
                assert(l[k + a.len()] == m);
            }
        }
    } else {
        assert forall|m: Match| is_occurrence(patterns, text, m) && m.start >= s && m.end == text.len() implies #[trigger] ends_from(patterns, text, s).contains(m) by {
            assert(m.start <= m.end);
        }
    }
}

/// `occ_list` lists every occurrence once, in reporting order.
proof fn lemma_occ_list(patterns: Seq<Seq<TurnTileType>>, text: Seq<TurnTileType>)
    requires
        text.len() <= usize::MAX,
        patterns.len() <= usize::MAX,
    ensures
        is_match_list(patterns, text, occ_list(patterns, text)),
    decreases text.len(),
{
    lemma_ends_from(patterns, text, 0);
    let e = ends_from(patterns, text, 0);
    if text.len() == 0 {
        assert forall|m: Match| is_occurrence(patterns, text, m) implies #[trigger] occ_list(patterns, text).contains(m) by {
            assert(m.end == text.len());
        }
    } else {
        let d = text.drop_last();
        lemma_occ_list(patterns, d);
        let p = occ_list(patterns, d);
        let l = occ_list(patterns, text);
        assert(l == p + e);
        assert forall|x: int, y: int| 0 <= x < p.len() && 0 <= y < e.len() implies match_precedes(
            #[trigger] p[x],
            #[trigger] e[y],
        ) by {
            assert(is_occurrence(patterns, d, p[x]));
        }
        lemma_concat_in_order(p, e);
        assert forall|k: int| 0 <= k < l.len() implies is_occurrence(patterns, text, #[trigger] l[k]) by {
            if k < p.len() {
                assert(l[k] == p[k]);
                assert(is_occurrence(patterns, d, p[k]));
                assert(text.subrange(p[k].start as int, p[k].end as int) =~= d.subrange(
                    p[k].start as int,
                    p[k].end as int,
                ));
            } else {
                assert(l[k] == e[k - p.len()]);
            }
        }
        assert forall|m: Match| is_occurrence(patterns, text, m) implies #[trigger] l.contains(m) by {
            if m.end < text.len() {
                assert(text.subrange(m.start as int, m.end as int) =~= d.subrange(m.start as int, m.end as int));
                assert(is_occurrence(patterns, d, m));
                assert(p.contains(m));
                let k = choose|k: int| 0 <= k < p.len() && p[k] == m;
                assert(l[k] == m);
            } else {
                assert(e.contains(m));
                let k = choose|k: int| 0 <= k < e.len() && e[k] == m;
                assert(l[k + p.len()] == m);
            }
        }
    }
}

/// The occurrences of `patterns` in `text`: exactly the matches that occur,
/// each once.
pub proof fn lemma_match_list_contents(patterns: Seq<Seq<TurnTileType>>, text: Seq<TurnTileType>)
    requires
        text.len() <= usize::MAX,
        patterns.len() <= usize::MAX,
    ensures
        is_match_list(patterns, text, match_list(patterns, text)),
        match_list(patterns, text).no_duplicates(),
        forall|m: Match| #[trigger] match_list(patterns, text).contains(m) <==> is_occurrence(patterns, text, m),
{
    lemma_occ_list(patterns, text);
    lemma_match_list_is(patterns, text, occ_list(patterns, text));
    let l = match_list(patterns, text);
    assert forall|i: int, j: int| 0 <= i < l.len() && 0 <= j < l.len() && i != j implies l[i] != l[j] by {
        if i < j {
            assert(match_precedes(l[i], l[j]));
        } else {
            assert(match_precedes(l[j], l[i]));
        }
    }
    assert forall|m: Match| #[trigger] l.contains(m) implies is_occurrence(patterns, text, m) by {
        let k = choose|k: int| 0 <= k < l.len() && l[k] == m;
        assert(is_occurrence(patterns, text, l[k]));
    }
}

/// The weights of the matches `ms`, added up exactly.
pub open spec fn plain_sum(weights: Seq<i32>, ms: Seq<Match>) -> int
    decreases ms.len(),
{
    if ms.len() == 0 {
        0
    } else {
        plain_sum(weights, ms.drop_last()) + weights[ms.last().pattern_id as int]
    }
}

/// Adding up the weights of the occurrences in `text` never reaches past
/// the range of `i32`, so no partial sum saturates.
pub open spec fn unsaturated(patterns: Seq<Seq<TurnTileType>>, weights: Seq<i32>, text: Seq<TurnTileType>) -> bool {
    let ms = match_list(patterns, text);
    forall|k: int| 0 <= k <= ms.len() ==> in_i32(#[trigger] plain_sum(weights, ms.take(k)))
}

/// Without saturation, the score of a line is the exact sum of the weights
/// of its occurrences.
pub proof fn lemma_unsaturated_score(patterns: Seq<Seq<TurnTileType>>, weights: Seq<i32>, text: Seq<TurnTileType>)
    requires
        unsaturated(patterns, weights, text),
    ensures
        line_score(patterns, weights, text) == plain_sum(weights, match_list(patterns, text)),
{
    let ms = match_list(patterns, text);
    lemma_weighted_plain(weights, ms, ms.len() as int);
    assert(ms.take(ms.len() as int) =~= ms);
}

/// While its partial sums stay in `i32`, a prefix's saturating sum is exact.
proof fn lemma_weighted_plain(weights: Seq<i32>, ms: Seq<Match>, k: int)
    requires
        0 <= k <= ms.len(),
        forall|j: int| 0 <= j <= ms.len() ==> in_i32(#[trigger] plain_sum(weights, ms.take(j))),
    ensures
        weighted_sum(weights, ms.take(k)) == plain_sum(weights, ms.take(k)),
    decreases k,
{
    if k > 0 {
        lemma_weighted_plain(weights, ms, k - 1);
        assert(ms.take(k).drop_last() =~= ms.take(k - 1));
        assert(in_i32(plain_sum(weights, ms.take(k))));
    }
}

/// Taking out one match takes out its weight.
proof fn lemma_plain_remove(weights: Seq<i32>, ms: Seq<Match>, j: int)
    requires
        0 <= j < ms.len(),
    ensures
        plain_sum(weights, ms) == plain_sum(weights, ms.remove(j)) + weights[ms[j].pattern_id as int],
    decreases ms.len(),
{
    if j < ms.len() - 1 {
        let d = ms.drop_last();
        lemma_plain_remove(weights, d, j);
        assert(ms.remove(j).drop_last() =~= d.remove(j));
        assert(ms.remove(j).last() == ms.last());
    } else {
        assert(ms.remove(j) =~= ms.drop_last());
    }
}

proof fn lemma_drop_last_distinct(s: Seq<Match>)
    requires
        s.no_duplicates(),
        s.len() > 0,
    ensures
        s.drop_last().no_duplicates(),
        !s.drop_last().contains(s.last()),
        forall|m: Match| s.contains(m) <==> s.drop_last().contains(m) || m == s.last(),
{
    let d = s.drop_last();
    assert forall|i: int, k: int| 0 <= i < d.len() && 0 <= k < d.len() && i != k implies d[i] != d[k] by {
        assert(d[i] == s[i] && d[k] == s[k]);
    }
    if d.contains(s.last()) {
        let k = choose|k: int| 0 <= k < d.len() && d[k] == s.last();
        assert(s[k] == s[s.len() - 1]);
    }
    assert forall|m: Match| s.contains(m) <==> d.contains(m) || m == s.last() by {
        if s.contains(m) {
            let k = choose|k: int| 0 <= k < s.len() && s[k] == m;
            if k < d.len() {
                assert(d[k] == m);
            }
        }
        if d.contains(m) {
            let k = choose|k: int| 0 <= k < d.len() && d[k] == m;
            assert(s[k] == m);
        }
        if m == s.last() {
            assert(s[s.len() - 1] == m);
        }
    }
}

/// Lists holding the same matches, each once, have the same sum.
pub proof fn lemma_plain_perm(weights: Seq<i32>, a: Seq<Match>, b: Seq<Match>)
    requires
        a.no_duplicates(),
        b.no_duplicates(),
        forall|m: Match| a.contains(m) <==> b.contains(m),
    ensures
        plain_sum(weights, a) == plain_sum(weights, b),
    decreases a.len(),
{
    if a.len() == 0 {
        if b.len() > 0 {
            assert(b.contains(b[0]));
        }
        assert(b.len() == 0);
    } else {
        let x = a.last();
        assert(a.contains(x));
        assert(b.contains(x));
        let j = choose|j: int| 0 <= j < b.len() && b[j] == x;
        let a2 = a.drop_last();
        let b2 = b.remove(j);
        lemma_drop_last_distinct(a);
        assert forall|m: Match| b.contains(m) <==> b2.contains(m) || m == x by {
            if b.contains(m) {
                let t = choose|t: int| 0 <= t < b.len() && b[t] == m;
                if t < j {
                    assert(b2[t] == m);
                } else if t > j {
                    assert(b2[t - 1] == m);
                }
            }
            if b2.contains(m) {
                let k = choose|k: int| 0 <= k < b2.len() && b2[k] == m;
                if k < j {
                    assert(b[k] == m);
                } else {
                    assert(b[k + 1] == m);
                }
            }
        }
        assert(!b2.contains(x)) by {
            if b2.contains(x) {
                let k = choose|k: int| 0 <= k < b2.len() && b2[k] == x;
                if k < j {
                    assert(b[k] == x);
                } else {
                    assert(b[k + 1] == x);
                }
            }
        }
        assert(b2.no_duplicates()) by {
            assert forall|i: int, k: int| 0 <= i < b2.len() && 0 <= k < b2.len() && i != k implies b2[i] != b2[k] by {
                let bi = if i < j { i } else { i + 1 };
                let bk = if k < j { k } else { k + 1 };
                assert(b2[i] == b[bi] && b2[k] == b[bk]);
            }
        }
        assert forall|m: Match| a2.contains(m) <==> b2.contains(m) by {}
        lemma_plain_perm(weights, a2, b2);
        lemma_plain_remove(weights, b, j);
    }
}

/// The matches of `ms` that satisfy `pred`, in order.
pub open spec fn keep(ms: Seq<Match>, pred: spec_fn(Match) -> bool) -> Seq<Match>
    decreases ms.len(),
{
    if ms.len() == 0 {
        seq![]
    } else if pred(ms.last()) {
        keep(ms.drop_last(), pred).push(ms.last())
    } else {
        keep(ms.drop_last(), pred)
    }
}

/// Occurrences that cover position `p`.
pub open spec fn covering(p: int) -> spec_fn(Match) -> bool {
    |m: Match| m.start <= p < m.end
}

/// Occurrences that miss position `p`.
pub open spec fn missing(p: int) -> spec_fn(Match) -> bool {
    |m: Match| !(m.start <= p < m.end)
}

proof fn lemma_push_distinct(s: Seq<Match>, x: Match)
    requires
        s.no_duplicates(),
        !s.contains(x),
    ensures
        s.push(x).no_duplicates(),
        forall|m: Match| s.push(x).contains(m) <==> s.contains(m) || m == x,
{
    let t = s.push(x);
    assert forall|i: int, k: int| 0 <= i < t.len() && 0 <= k < t.len() && i != k implies t[i] != t[k] by {
        if i < s.len() && k < s.len() {
            assert(t[i] == s[i] && t[k] == s[k]);
        } else if i < s.len() {
            assert(t[i] == s[i] && t[k] == x);
        } else if k < s.len() {
            assert(t[k] == s[k] && t[i] == x);
        }
    }
    assert forall|m: Match| t.contains(m) <==> s.contains(m) || m == x by {
        if t.contains(m) {
            let k = choose|k: int| 0 <= k < t.len() && t[k] == m;
            if k < s.len() {
                assert(s[k] == m);
            }
        }
        if s.contains(m) {
            let k = choose|k: int| 0 <= k < s.len() && s[k] == m;
            assert(t[k] == m);
        }
        if m == x {
            assert(t[s.len() as int] == m);
        }
    }
}

/// Splitting by whether an occurrence covers `p` splits the sum; each part
/// holds its matches once.
proof fn lemma_keep(weights: Seq<i32>, ms: Seq<Match>, p: int)
    requires
        ms.no_duplicates(),
    ensures
        keep(ms, covering(p)).no_duplicates(),
        keep(ms, missing(p)).no_duplicates(),
        forall|m: Match| #[trigger] keep(ms, covering(p)).contains(m) <==> ms.contains(m) && m.start <= p < m.end,
        forall|m: Match| #[trigger] keep(ms, missing(p)).contains(m) <==> ms.contains(m) && !(m.start <= p < m.end),
        plain_sum(weights, ms) == plain_sum(weights, keep(ms, covering(p))) + plain_sum(
            weights,
            keep(ms, missing(p)),
        ),
    decreases ms.len(),
{
    if ms.len() > 0 {
        let d = ms.drop_last();
        lemma_drop_last_distinct(ms);
        lemma_keep(weights, d, p);
        let x = ms.last();
        let kc = keep(d, covering(p));
        let km = keep(d, missing(p));
        if x.start <= p < x.end {
            assert(keep(ms, covering(p)) == kc.push(x));
            assert(keep(ms, missing(p)) == km);
            assert(kc.push(x).drop_last() =~= kc);
            lemma_push_distinct(kc, x);
        } else {
            assert(keep(ms, covering(p)) == kc);
            assert(keep(ms, missing(p)) == km.push(x));
            assert(km.push(x).drop_last() =~= km);
            lemma_push_distinct(km, x);
        }
        assert forall|m: Match| #[trigger] keep(ms, covering(p)).contains(m) <==> ms.contains(m) && m.start <= p
            < m.end by {
            assert(kc.contains(m) <==> d.contains(m) && m.start <= p < m.end);
        }
        assert forall|m: Match| #[trigger] keep(ms, missing(p)).contains(m) <==> ms.contains(m) && !(m.start <= p
            < m.end) by {
            assert(km.contains(m) <==> d.contains(m) && !(m.start <= p < m.end));
        }
    } else {
        assert forall|m: Match| !(#[trigger] keep(ms, covering(p)).contains(m)) && !ms.contains(m) by {}
        assert forall|m: Match| !(#[trigger] keep(ms, missing(p)).contains(m)) by {}
    }
}

/// `m` moved by `d` places.
pub open spec fn shifted(m: Match, d: int) -> Match {
    Match { start: (m.start + d) as usize, end: (m.end + d) as usize, pattern_id: m.pattern_id }
}

/// Moving every match keeps the sum.
proof fn lemma_plain_shift(weights: Seq<i32>, ms: Seq<Match>, d: int)
    ensures
        plain_sum(weights, ms.map_values(|m: Match| shifted(m, d))) == plain_sum(weights, ms),
    decreases ms.len(),
{
    if ms.len() > 0 {
        lemma_plain_shift(weights, ms.drop_last(), d);
        assert(ms.map_values(|m: Match| shifted(m, d)).drop_last() =~= ms.drop_last().map_values(
            |m: Match| shifted(m, d),
        ));
    }
}

/// The exact score of `text`: the weights of its occurrences, added up.
pub open spec fn exact_score(patterns: Seq<Seq<TurnTileType>>, weights: Seq<i32>, text: Seq<TurnTileType>) -> int {
    plain_sum(weights, match_list(patterns, text))
}

/// No pattern is longer than six points.
pub open spec fn short_patterns(patterns: Seq<Seq<TurnTileType>>) -> bool {
    forall|i: int| 0 <= i < patterns.len() ==> #[trigger] patterns[i].len() <= 6
}

/// Occurrences that miss `p` are the same in two texts that differ only at `p`.
proof fn lemma_missing_same(
    patterns: Seq<Seq<TurnTileType>>,
    weights: Seq<i32>,
    l1: Seq<TurnTileType>,
    l2: Seq<TurnTileType>,
    p: int,
)
    requires
        l1.len() == l2.len() <= usize::MAX,
        patterns.len() <= usize::MAX,
        forall|i: int| 0 <= i < l1.len() && i != p ==> l1[i] == l2[i],
    ensures
        plain_sum(weights, keep(match_list(patterns, l1), missing(p))) == plain_sum(
            weights,
            keep(match_list(patterns, l2), missing(p)),
        ),
{
    lemma_match_list_contents(patterns, l1);
    lemma_match_list_contents(patterns, l2);
    let m1 = match_list(patterns, l1);
    let m2 = match_list(patterns, l2);
    lemma_keep(weights, m1, p);
    lemma_keep(weights, m2, p);
    assert forall|m: Match| keep(m1, missing(p)).contains(m) <==> keep(m2, missing(p)).contains(m) by {
        if m.start <= m.end <= l1.len() && !(m.start <= p < m.end) {
            assert(l1.subrange(m.start as int, m.end as int) =~= l2.subrange(m.start as int, m.end as int));
        }
        assert(is_occurrence(patterns, l1, m) && !(m.start <= p < m.end) <==> is_occurrence(patterns, l2, m)
            && !(m.start <= p < m.end));
    }
    lemma_plain_perm(weights, keep(m1, missing(p)), keep(m2, missing(p)));
}

/// The occurrences covering `p` lie inside the window `a..b` around it, and
/// score the same there.
proof fn lemma_covering_window(
    patterns: Seq<Seq<TurnTileType>>,
    weights: Seq<i32>,
    x: Seq<TurnTileType>,
    p: int,
    a: int,
    b: int,
)
    requires
        x.len() <= usize::MAX,
        patterns.len() <= usize::MAX,
        short_patterns(patterns),
        0 <= a <= p < b <= x.len(),
        a == 0 || a + 5 <= p,
        b == x.len() || p + 6 <= b,
    ensures
        plain_sum(weights, keep(match_list(patterns, x), covering(p))) == plain_sum(
            weights,
            keep(match_list(patterns, x.subrange(a, b)), covering(p - a)),
        ),
{
    let y = x.subrange(a, b);
    lemma_match_list_contents(patterns, x);
    lemma_match_list_contents(patterns, y);
    let mx = match_list(patterns, x);
    let my = match_list(patterns, y);
    lemma_keep(weights, mx, p);
    lemma_keep(weights, my, p - a);
    let cx = keep(mx, covering(p));
    let cy = keep(my, covering(p - a));
    let moved = cx.map_values(|m: Match| shifted(m, -a));
    lemma_plain_shift(weights, cx, -a);
    assert forall|m: Match| #[trigger] cx.contains(m) implies a <= m.start && m.end <= b && is_occurrence(
        patterns,
        x,
        m,
    ) && m.start <= p < m.end by {
        assert(patterns[m.pattern_id as int].len() <= 6);
        assert(x.subrange(m.start as int, m.end as int).len() == m.end - m.start);
    }
    assert forall|m: Match| moved.contains(m) <==> cy.contains(m) by {
        if moved.contains(m) {
            let k = choose|k: int| 0 <= k < moved.len() && moved[k] == m;
            let o = cx[k];
            assert(cx.contains(o));
            assert(m == shifted(o, -a));
            assert(y.subrange(m.start as int, m.end as int) =~= x.subrange(o.start as int, o.end as int));
            assert(is_occurrence(patterns, y, m));
        }
        if cy.contains(m) {
            assert(is_occurrence(patterns, y, m));
            let o = shifted(m, a);
            assert(y.subrange(m.start as int, m.end as int) =~= x.subrange(o.start as int, o.end as int));
            assert(is_occurrence(patterns, x, o));
            assert(cx.contains(o));
            let k = choose|k: int| 0 <= k < cx.len() && cx[k] == o;
            assert(moved[k] == shifted(o, -a));
            assert(shifted(o, -a) == m);
        }
    }
    assert(moved.no_duplicates()) by {
        assert forall|i: int, j: int| 0 <= i < moved.len() && 0 <= j < moved.len() && i != j implies moved[i]
            != moved[j] by {
            assert(cx.contains(cx[i]) && cx.contains(cx[j]));
            assert(cx[i] != cx[j]);
        }
    }
    lemma_plain_perm(weights, moved, cy);
}

/// Changing one point of a line changes its exact score as much as it
/// changes the exact score of a window around the point that reaches five
/// points to either side of it (or the end of the line), when no pattern is
/// longer than six.
pub proof fn lemma_window_delta(
    patterns: Seq<Seq<TurnTileType>>,
    weights: Seq<i32>,
    l1: Seq<TurnTileType>,
    l2: Seq<TurnTileType>,
    p: int,
    a: int,
    b: int,
)
    requires
        l1.len() == l2.len() <= usize::MAX,
        patterns.len() <= usize::MAX,
        short_patterns(patterns),
        forall|i: int| 0 <= i < l1.len() && i != p ==> l1[i] == l2[i],
        0 <= a <= p < b <= l1.len(),
        a == 0 || a + 5 <= p,
        b == l1.len() || p + 6 <= b,
    ensures
        exact_score(patterns, weights, l2) - exact_score(patterns, weights, l1) == exact_score(
            patterns,
            weights,
            l2.subrange(a, b),
        ) - exact_score(patterns, weights, l1.subrange(a, b)),
{
    let y1 = l1.subrange(a, b);
    let y2 = l2.subrange(a, b);
    lemma_match_list_contents(patterns, l1);
    lemma_match_list_contents(patterns, l2);
    lemma_match_list_contents(patterns, y1);
    lemma_match_list_contents(patterns, y2);
    lemma_keep(weights, match_list(patterns, l1), p);
    lemma_keep(weights, match_list(patterns, l2), p);
    lemma_keep(weights, match_list(patterns, y1), p - a);
    lemma_keep(weights, match_list(patterns, y2), p - a);
    lemma_missing_same(patterns, weights, l1, l2, p);
    assert forall|i: int| 0 <= i < y1.len() && i != p - a implies y1[i] == y2[i] by {
        assert(y1[i] == l1[i + a] && y2[i] == l2[i + a]);
    }
    lemma_missing_same(patterns, weights, y1, y2, p - a);
    lemma_covering_window(patterns, weights, l1, p, a, b);
    lemma_covering_window(patterns, weights, l2, p, a, b);
}

/// A pairing of each pattern with its mirror image, of the same weight.
pub open spec fn mirror_pairing(
    patterns: Seq<Seq<TurnTileType>>,
    weights: Seq<i32>,
    sigma: spec_fn(int) -> int,
) -> bool {
    forall|i: int|
        0 <= i < patterns.len() ==> {
            &&& 0 <= #[trigger] sigma(i) < patterns.len()
            &&& sigma(sigma(i)) == i
            &&& patterns[sigma(i)] == patterns[i].reverse()
            &&& weights[sigma(i)] == weights[i]
        }
}

/// Every pattern's mirror image is a pattern of the same weight, paired one
/// to one.
pub open spec fn mirror_closed(patterns: Seq<Seq<TurnTileType>>, weights: Seq<i32>) -> bool {
    exists|sigma: spec_fn(int) -> int| mirror_pairing(patterns, weights, sigma)
}

/// The occurrence `m` of a text of length `n`, seen in the reversed text.
pub open spec fn mirrored(m: Match, n: int, sigma: spec_fn(int) -> int) -> Match {
    Match {
        start: (n - m.end) as usize,
        end: (n - m.start) as usize,
        pattern_id: sigma(m.pattern_id as int) as usize,
    }
}

proof fn lemma_plain_mirror(
    weights: Seq<i32>,
    ms: Seq<Match>,
    n: int,
    sigma: spec_fn(int) -> int,
    count: int,
)
    requires
        count <= usize::MAX,
        forall|k: int| 0 <= k < ms.len() ==> #[trigger] ms[k].pattern_id < count,
        forall|i: int| 0 <= i < count ==> #[trigger] weights[sigma(i)] == weights[i] && 0 <= sigma(i) < count,
    ensures
        plain_sum(weights, ms.map_values(|m: Match| mirrored(m, n, sigma))) == plain_sum(weights, ms),
    decreases ms.len(),
{
    if ms.len() > 0 {
        lemma_plain_mirror(weights, ms.drop_last(), n, sigma, count);
        assert(ms.map_values(|m: Match| mirrored(m, n, sigma)).drop_last() =~= ms.drop_last().map_values(
            |m: Match| mirrored(m, n, sigma),
        ));
        let id = ms.last().pattern_id as int;
        assert(ms[ms.len() - 1].pattern_id < count);
        assert(weights[sigma(id)] == weights[id]);
    }
}

/// The reversed piece of a reversed text is the piece itself.
proof fn lemma_reverse_subrange(x: Seq<TurnTileType>, s: int, e: int)
    requires
        0 <= s <= e <= x.len(),
    ensures
        x.reverse().subrange(x.len() - e, x.len() - s) == x.subrange(s, e).reverse(),
{
    let n = x.len() as int;
    assert(x.reverse().len() == n);
    assert(x.reverse().subrange(n - e, n - s) =~= x.subrange(s, e).reverse());
}

/// A mirror-closed pattern set scores a text and its reverse the same.
pub proof fn lemma_reverse_score(
    patterns: Seq<Seq<TurnTileType>>,
    weights: Seq<i32>,
    x: Seq<TurnTileType>,
    sigma: spec_fn(int) -> int,
)
    requires
        x.len() <= usize::MAX,
        patterns.len() <= usize::MAX,
        mirror_pairing(patterns, weights, sigma),
    ensures
        exact_score(patterns, weights, x.reverse()) == exact_score(patterns, weights, x),
{
    let n = x.len() as int;
    let r = x.reverse();
    assert(r.len() == n);
    lemma_match_list_contents(patterns, x);
    lemma_match_list_contents(patterns, r);
    let mx = match_list(patterns, x);
    let mr = match_list(patterns, r);
    let moved = mx.map_values(|m: Match| mirrored(m, n, sigma));
    assert forall|k: int| 0 <= k < mx.len() implies #[trigger] mx[k].pattern_id < patterns.len() by {
        assert(mx.contains(mx[k]));
    }
    assert forall|i: int| 0 <= i < patterns.len() implies #[trigger] weights[sigma(i)] == weights[i] && 0 <= sigma(i)
        < patterns.len() by {}
    lemma_plain_mirror(weights, mx, n, sigma, patterns.len() as int);
    assert(r.reverse() =~= x);
    assert forall|m: Match| moved.contains(m) <==> mr.contains(m) by {
        if moved.contains(m) {
            let k = choose|k: int| 0 <= k < moved.len() && moved[k] == m;
            let o = mx[k];
            assert(mx.contains(o));
            assert(is_occurrence(patterns, x, o));
            lemma_reverse_subrange(x, o.start as int, o.end as int);
            assert(0 <= sigma(o.pattern_id as int) < patterns.len());
            assert(patterns[sigma(o.pattern_id as int)] == patterns[o.pattern_id as int].reverse());
            assert(is_occurrence(patterns, r, m));
        }
        if mr.contains(m) {
            assert(is_occurrence(patterns, r, m));
            let o = mirrored(m, n, sigma);
            lemma_reverse_subrange(r, m.start as int, m.end as int);
            assert(0 <= sigma(m.pattern_id as int) < patterns.len());
            assert(patterns[m.pattern_id as int].reverse().reverse() =~= patterns[m.pattern_id as int]);
            assert(is_occurrence(patterns, x, o));
            assert(mx.contains(o));
            let k = choose|k: int| 0 <= k < mx.len() && mx[k] == o;
            assert(moved[k] == mirrored(o, n, sigma));
            assert(mirrored(o, n, sigma) == m);
        }
    }
    assert(moved.no_duplicates()) by {
        assert forall|i: int, j: int| 0 <= i < moved.len() && 0 <= j < moved.len() && i != j implies moved[i]
            != moved[j] by {
            assert(mx.contains(mx[i]) && mx.contains(mx[j]));
            assert(mx[i] != mx[j]);
            let a = mx[i];
            let b = mx[j];
            if moved[i] == moved[j] {
                assert(sigma(sigma(a.pattern_id as int)) == sigma(sigma(b.pattern_id as int)));
                assert(a == b);
            }
        }
    }
    lemma_plain_perm(weights, moved, mr);
}

/// A piece of a ray is a ray.
proof fn lemma_ray_subrange(r0: int, c0: int, step: u8, n: int, a: int, b: int)
    requires
        0 <= a <= b <= n,
    ensures
        ray(r0, c0, step, n).subrange(a, b) == ray(
            step_cell(r0, c0, step, a).0,
            step_cell(r0, c0, step, a).1,
            step,
            b - a,
        ),
{
    let s = step_cell(r0, c0, step, a);
    assert(ray(r0, c0, step, n).subrange(a, b) =~= ray(s.0, s.1, step, b - a));
}

/// Reading a piece of a line reads the same piece of its text.
proof fn lemma_tiles_subrange(
    g: spec_fn(usize, usize) -> TileType,
    player: PlayerType,
    cells: Seq<(int, int)>,
    a: int,
    b: int,
)
    requires
        0 <= a <= b <= cells.len(),
    ensures
        line_tiles(g, player, cells.subrange(a, b)) == line_tiles(g, player, cells).subrange(a, b),
        line_tiles(g, player, cells).len() == cells.len(),
{
    assert(line_tiles(g, player, cells.subrange(a, b)) =~= line_tiles(g, player, cells).subrange(a, b));
}

/// Reading a line backwards reads its text backwards.
proof fn lemma_tiles_reverse(g: spec_fn(usize, usize) -> TileType, player: PlayerType, cells: Seq<(int, int)>)
    ensures
        line_tiles(g, player, cells.reverse()) == line_tiles(g, player, cells).reverse(),
{
    assert(line_tiles(g, player, cells.reverse()) =~= line_tiles(g, player, cells).reverse());
}

/// The point (r, c) lies on the board.
pub open spec fn on_board(w: int, h: int, p: (int, int)) -> bool {
    0 <= p.0 < h && 0 <= p.1 < w
}

/// The family of full lines, and the window, that read direction `k`
/// (0 rows, 1 columns, 2 down-right diagonals, 3 down-left diagonals)
/// through (r, c).
pub open spec fn axis_family(k: int, w: int, r: int, c: int) -> int {
    if k == 0 {
        0
    } else if k == 1 {
        1
    } else if k == 2 {
        if c >= r {
            2
        } else {
            3
        }
    } else {
        if r + c <= w - 1 {
            4
        } else {
            5
        }
    }
}

/// The index, within its family, of the full line through (r, c) in direction `k`.
pub open spec fn axis_index(k: int, w: int, r: int, c: int) -> int {
    if k == 0 {
        r
    } else if k == 1 {
        c
    } else if k == 2 {
        if c >= r {
            c - r
        } else {
            r - c - 1
        }
    } else {
        if r + c <= w - 1 {
            r + c
        } else {
            r + c - w
        }
    }
}

/// The position of (r, c) in that line.
pub open spec fn axis_pos(k: int, w: int, r: int, c: int) -> int {
    if k == 0 {
        c
    } else if k == 1 {
        r
    } else if k == 2 {
        if c >= r {
            r
        } else {
            c
        }
    } else {
        if r + c <= w - 1 {
            c
        } else {
            w - 1 - c
        }
    }
}

/// Where window `k` around (r, c) lies in that line: from `a` up to `b`.
pub open spec fn axis_span(k: int, w: int, h: int, r: int, c: int) -> (int, int) {
    let (lo, hi) = window_bounds(k, w, h, r, c);
    if k <= 1 || (k == 2 && c >= r) {
        (lo, hi + 1)
    } else if k == 2 {
        (lo - (r - c), hi - (r - c) + 1)
    } else if r + c <= w - 1 {
        (r + c - hi, r + c - lo + 1)
    } else {
        (lo - (r + c - w) - 1, hi - (r + c - w))
    }
}

/// The lines on a board no wider than tall, and at most one taller than
/// wide, that the full evaluation reads: where the line through (r, c) in
/// direction `k` lies, and how window `k` sits in it (reversed for the
/// up-right diagonals that start on the left column).
#[verifier::rlimit(40)]
proof fn lemma_axis(w: int, h: int, r: int, c: int, k: int)
    requires
        0 < w <= h <= w + 1,
        w + h + 10 <= usize::MAX,
        0 <= r < h,
        0 <= c < w,
        0 <= k < 4,
    ensures
        ({
            let f = axis_family(k, w, r, c);
            let j = axis_index(k, w, r, c);
            let p = axis_pos(k, w, r, c);
            let (a, b) = axis_span(k, w, h, r, c);
            let line = family_line(f, w, h, j);
            &&& 0 <= j < family_count(f, w, h)
            &&& line.len() <= h
            &&& 0 <= a <= p < b <= line.len()
            &&& a == 0 || a + 5 <= p
            &&& b == line.len() || p + 6 <= b
            &&& line[p] == (r, c)
            &&& forall|i: int| 0 <= i < line.len() ==> on_board(w, h, #[trigger] line[i])
            &&& forall|i: int| 0 <= i < line.len() && i != p ==> #[trigger] line[i] != (r, c)
            &&& if f == 4 {
                window(k, w, h, r, c) == line.subrange(a, b).reverse()
            } else {
                window(k, w, h, r, c) == line.subrange(a, b)
            }
        }),
{
    let f = axis_family(k, w, r, c);
    let j = axis_index(k, w, r, c);
    let (a, b) = axis_span(k, w, h, r, c);
    let line = family_line(f, w, h, j);
    let (lo, hi) = window_bounds(k, w, h, r, c);
    if f == 0 {
        lemma_ray_subrange(j, 0, 0, w, a, b);
        assert(window(k, w, h, r, c) =~= line.subrange(a, b));
    } else if f == 1 {
        lemma_ray_subrange(0, j, 1, h, a, b);
        assert(window(k, w, h, r, c) =~= line.subrange(a, b));
    } else if f == 2 {
        lemma_ray_subrange(0, j, 2, w - j, a, b);
        assert(window(k, w, h, r, c) =~= line.subrange(a, b));
    } else if f == 3 {
        lemma_ray_subrange(j + 1, 0, 2, h - 1 - j, a, b);
        assert(window(k, w, h, r, c) =~= line.subrange(a, b));
    } else if f == 4 {
        assert(window(k, w, h, r, c) =~= line.subrange(a, b).reverse());
    } else {
        lemma_ray_subrange(j + 1, w - 1, 4, h - 1 - j, a, b);
        assert(window(k, w, h, r, c) =~= line.subrange(a, b));
    }
}

/// The direction family `f` reads: rows, columns, down-right diagonals
/// (two families), up-right diagonals (two families).
pub open spec fn family_axis(f: int) -> int {
    if f <= 1 {
        f
    } else if f <= 3 {
        2
    } else {
        3
    }
}

/// A full line through (r, c) is the one `lemma_axis` names for its direction.
proof fn lemma_axis_unique(w: int, h: int, r: int, c: int, f: int, j: int, i: int)
    requires
        0 < w <= h <= w + 1,
        0 <= r < h,
        0 <= c < w,
        0 <= f < 6,
        0 <= j < family_count(f, w, h),
        0 <= i < family_line(f, w, h, j).len(),
        family_line(f, w, h, j)[i] == (r, c),
    ensures
        f == axis_family(family_axis(f), w, r, c),
        j == axis_index(family_axis(f), w, r, c),
{
}

/// Where family `f` starts among the lines of the full evaluation.
pub open spec fn family_offset(f: int, w: int, h: int) -> int {
    lines_upto(f as nat, w, h).len() as int
}

proof fn lemma_family_offsets(w: int, h: int)
    requires
        0 < w <= h,
    ensures
        family_offset(0, w, h) == 0,
        family_offset(1, w, h) == h,
        family_offset(2, w, h) == h + w,
        family_offset(3, w, h) == h + 2 * w,
        family_offset(4, w, h) == 2 * h + 2 * w - 1,
        family_offset(5, w, h) == 2 * h + 3 * w - 1,
        family_offset(6, w, h) == 3 * h + 3 * w - 2,
        board_lines(w, h).len() == 3 * h + 3 * w - 2,
{
    reveal_with_fuel(lines_upto, 7);
}

/// Line `j` of family `f` is line `family_offset(f) + j` of the full evaluation.
proof fn lemma_board_line_at(w: int, h: int, f: int, j: int)
    requires
        0 < w <= h,
        0 <= f < 6,
        0 <= j < family_count(f, w, h),
    ensures
        family_offset(f, w, h) + j < family_offset(f + 1, w, h) <= board_lines(w, h).len(),
        board_lines(w, h)[family_offset(f, w, h) + j] == family_line(f, w, h, j),
{
    lemma_family_offsets(w, h);
    lemma_lines_upto_prefix((f + 1) as nat, 6, w, h);
    let up = lines_upto((f + 1) as nat, w, h);
    assert(up == lines_upto(f as nat, w, h) + Seq::new(
        family_count(f, w, h) as nat,
        |x: int| family_line(f, w, h, x),
    ));
    assert(up[family_offset(f, w, h) + j] == family_line(f, w, h, j));
}

/// Every line of the full evaluation is line `j` of some family `f`.
proof fn lemma_board_line_split(w: int, h: int, n: int) -> (fj: (int, int))
    requires
        0 < w <= h,
        0 <= n < board_lines(w, h).len(),
    ensures
        0 <= fj.0 < 6,
        0 <= fj.1 < family_count(fj.0, w, h),
        n == family_offset(fj.0, w, h) + fj.1,
        board_lines(w, h)[n] == family_line(fj.0, w, h, fj.1),
{
    lemma_family_offsets(w, h);
    let f = if n < family_offset(1, w, h) {
        0
    } else if n < family_offset(2, w, h) {
        1
    } else if n < family_offset(3, w, h) {
        2
    } else if n < family_offset(4, w, h) {
        3
    } else if n < family_offset(5, w, h) {
        4
    } else {
        5
    };
    let j = n - family_offset(f, w, h);
    lemma_board_line_at(w, h, f, j);
    (f, j)
}

/// Two score lists that differ only at four distinct places differ in sum
/// by the differences there.
proof fn lemma_sum_diff4(x: Seq<int>, y: Seq<int>, js: Seq<int>, n: int)
    requires
        x.len() == y.len(),
        0 <= n <= x.len(),
        js.len() == 4,
        forall|k: int| 0 <= k < 4 ==> 0 <= #[trigger] js[k] < x.len(),
        forall|k1: int, k2: int| 0 <= k1 < 4 && 0 <= k2 < 4 && k1 != k2 ==> js[k1] != js[k2],
        forall|i: int| 0 <= i < x.len() && !js.contains(i) ==> x[i] == y[i],
    ensures
        sum_ints(x.take(n)) - sum_ints(y.take(n)) == (if js[0] < n { x[js[0]] - y[js[0]] } else { 0 }) + (if js[1]
            < n { x[js[1]] - y[js[1]] } else { 0 }) + (if js[2] < n { x[js[2]] - y[js[2]] } else { 0 }) + (if js[3]
            < n { x[js[3]] - y[js[3]] } else { 0 }),
    decreases n,
{
    if n > 0 {
        lemma_sum_diff4(x, y, js, n - 1);
        assert(x.take(n).drop_last() =~= x.take(n - 1));
        assert(y.take(n).drop_last() =~= y.take(n - 1));
        if !js.contains(n - 1) {
            assert(js[0] != n - 1 && js[1] != n - 1 && js[2] != n - 1 && js[3] != n - 1) by {
                if js[0] == n - 1 {
                    assert(js.contains(n - 1));
                }
                if js[1] == n - 1 {
                    assert(js.contains(n - 1));
                }
                if js[2] == n - 1 {
                    assert(js.contains(n - 1));
                }
                if js[3] == n - 1 {
                    assert(js.contains(n - 1));
                }
            }
        }
    }
}

/// Every line of the full evaluation runs over points of the board.
proof fn lemma_family_on_board(w: int, h: int, f: int, j: int)
    requires
        0 < w <= h <= w + 1,
        0 <= f < 6,
        0 <= j < family_count(f, w, h),
    ensures
        forall|i: int| 0 <= i < family_line(f, w, h, j).len() ==> on_board(w, h, #[trigger] family_line(f, w, h, j)[i]),
{
}

/// What rescoring needs of a scorer on lines up to `n` points long: at most
/// `usize::MAX` patterns, none longer than six points, a mirror-closed
/// pattern set, and no line score that saturates.
pub open spec fn rescorable(scorer: PatternScorer, n: int) -> bool {
    &&& scorer.patterns().len() <= usize::MAX
    &&& short_patterns(scorer.patterns())
    &&& mirror_closed(scorer.patterns(), scorer.weights())
    &&& forall|t: Seq<TurnTileType>| t.len() <= n ==> #[trigger] unsaturated(scorer.patterns(), scorer.weights(), t)
}

/// The score change of one direction through (r, c): the full line there
/// changes as much as window `k` does.
proof fn lemma_axis_delta(
    board: BoardState,
    scorer: PatternScorer,
    g1: spec_fn(usize, usize) -> TileType,
    g2: spec_fn(usize, usize) -> TileType,
    player: PlayerType,
    r: int,
    c: int,
    k: int,
)
    requires
        0 < board.width <= board.height <= board.width + 1,
        board.width + board.height + 10 <= usize::MAX,
        rescorable(scorer, board.height as int),
        0 <= r < board.height,
        0 <= c < board.width,
        0 <= k < 4,
        forall|x: usize, y: usize|
            x < board.height && y < board.width && !(x == r && y == c) ==> #[trigger] g1(x, y) == g2(x, y),
    ensures
        ({
            let (w, h) = (board.width as int, board.height as int);
            let n = axis_line(k, w, h, r, c);
            full_line_values(board, g2, scorer, player)[n] - full_line_values(board, g1, scorer, player)[n]
                == local_values(board, g2, scorer, player, r, c)[k] - local_values(board, g1, scorer, player, r, c)[k]
        }),
{
    let (w, h) = (board.width as int, board.height as int);
    let pt = scorer.patterns();
    let wt = scorer.weights();
    lemma_axis(w, h, r, c, k);
    lemma_family_offsets(w, h);
    lemma_board_line_at(w, h, axis_family(k, w, r, c), axis_index(k, w, r, c));
    let f = axis_family(k, w, r, c);
    let j = axis_index(k, w, r, c);
    let p = axis_pos(k, w, r, c);
    let (a, b) = axis_span(k, w, h, r, c);
    let line = family_line(f, w, h, j);
    let win = window(k, w, h, r, c);
    let t1 = line_tiles(g1, player, line);
    let t2 = line_tiles(g2, player, line);
    lemma_tiles_subrange(g1, player, line, a, b);
    lemma_tiles_subrange(g2, player, line, a, b);
    assert forall|i: int| 0 <= i < t1.len() && i != p implies t1[i] == t2[i] by {
        assert(on_board(w, h, line[i]));
        assert(line[i] != (r, c));
        let (x, y) = (line[i].0 as usize, line[i].1 as usize);
        assert(g1(x, y) == g2(x, y));
    }
    lemma_window_delta(pt, wt, t1, t2, p, a, b);
    assert(unsaturated(pt, wt, t1));
    assert(unsaturated(pt, wt, t2));
    lemma_unsaturated_score(pt, wt, t1);
    lemma_unsaturated_score(pt, wt, t2);
    let u1 = t1.subrange(a, b);
    let u2 = t2.subrange(a, b);
    if f == 4 {
        lemma_tiles_reverse(g1, player, line.subrange(a, b));
        lemma_tiles_reverse(g2, player, line.subrange(a, b));
        let sigma = choose|sigma: spec_fn(int) -> int| mirror_pairing(pt, wt, sigma);
        lemma_reverse_score(pt, wt, u1, sigma);
        lemma_reverse_score(pt, wt, u2, sigma);
        assert(line_tiles(g1, player, win) == u1.reverse());
        assert(line_tiles(g2, player, win) == u2.reverse());
        assert(unsaturated(pt, wt, u1.reverse()));
        assert(unsaturated(pt, wt, u2.reverse()));
        lemma_unsaturated_score(pt, wt, u1.reverse());
        lemma_unsaturated_score(pt, wt, u2.reverse());
    } else {
        assert(line_tiles(g1, player, win) == u1);
        assert(line_tiles(g2, player, win) == u2);
        assert(unsaturated(pt, wt, u1));
        assert(unsaturated(pt, wt, u2));
        lemma_unsaturated_score(pt, wt, u1);
        lemma_unsaturated_score(pt, wt, u2);
    }
}

/// The number, among the lines of the full evaluation, of the line through
/// (r, c) in direction `k`.
pub open spec fn axis_line(k: int, w: int, h: int, r: int, c: int) -> int {
    family_offset(axis_family(k, w, r, c), w, h) + axis_index(k, w, r, c)
}

/// The numbers of the four lines through (r, c).
pub open spec fn axis_lines(w: int, h: int, r: int, c: int) -> Seq<int> {
    seq![axis_line(0, w, h, r, c), axis_line(1, w, h, r, c), axis_line(2, w, h, r, c), axis_line(3, w, h, r, c)]
}

/// The line through (r, c) in direction `k` is a line of its family.
proof fn lemma_axis_index(w: int, h: int, r: int, c: int, k: int)
    requires
        0 < w <= h <= w + 1,
        0 <= r < h,
        0 <= c < w,
        0 <= k < 4,
    ensures
        0 <= axis_index(k, w, r, c) < family_count(axis_family(k, w, r, c), w, h),
{
}

/// The four lines through (r, c) are four different lines of the full
/// evaluation.
proof fn lemma_axis_lines(w: int, h: int, r: int, c: int)
    requires
        0 < w <= h <= w + 1,
        w + h + 10 <= usize::MAX,
        0 <= r < h,
        0 <= c < w,
    ensures
        forall|k: int|
            0 <= k < 4 ==> 0 <= #[trigger] axis_lines(w, h, r, c)[k] < board_lines(w, h).len() && board_lines(w, h)[axis_lines(
                w,
                h,
                r,
                c,
            )[k]] == family_line(axis_family(k, w, r, c), w, h, axis_index(k, w, r, c)),
        forall|k1: int, k2: int|
            0 <= k1 < 4 && 0 <= k2 < 4 && k1 != k2 ==> axis_lines(w, h, r, c)[k1] != axis_lines(w, h, r, c)[k2],
{
    lemma_family_offsets(w, h);
    lemma_axis_index(w, h, r, c, 0);
    lemma_axis_index(w, h, r, c, 1);
    lemma_axis_index(w, h, r, c, 2);
    lemma_axis_index(w, h, r, c, 3);
    lemma_board_line_at(w, h, axis_family(0, w, r, c), axis_index(0, w, r, c));
    lemma_board_line_at(w, h, axis_family(1, w, r, c), axis_index(1, w, r, c));
    lemma_board_line_at(w, h, axis_family(2, w, r, c), axis_index(2, w, r, c));
    lemma_board_line_at(w, h, axis_family(3, w, r, c), axis_index(3, w, r, c));
}

/// Lines that miss (r, c) keep their scores.
proof fn lemma_other_lines(
    board: BoardState,
    scorer: PatternScorer,
    g1: spec_fn(usize, usize) -> TileType,
    g2: spec_fn(usize, usize) -> TileType,
    player: PlayerType,
    r: int,
    c: int,
)
    requires
        0 < board.width <= board.height <= board.width + 1,
        board.width + board.height + 10 <= usize::MAX,
        0 <= r < board.height,
        0 <= c < board.width,
        forall|x: usize, y: usize|
            x < board.height && y < board.width && !(x == r && y == c) ==> #[trigger] g1(x, y) == g2(x, y),
    ensures
        ({
            let (w, h) = (board.width as int, board.height as int);
            let v1 = full_line_values(board, g1, scorer, player);
            let v2 = full_line_values(board, g2, scorer, player);
            &&& v1.len() == v2.len() == board_lines(w, h).len()
            &&& forall|n: int| 0 <= n < v1.len() && !axis_lines(w, h, r, c).contains(n) ==> v2[n] == v1[n]
        }),
{
    let (w, h) = (board.width as int, board.height as int);
    let v1 = full_line_values(board, g1, scorer, player);
    let v2 = full_line_values(board, g2, scorer, player);
    let js = axis_lines(w, h, r, c);
    assert forall|n: int| 0 <= n < v1.len() && !js.contains(n) implies v2[n] == v1[n] by {
        let (f, j) = lemma_board_line_split(w, h, n);
        let line = family_line(f, w, h, j);
        lemma_family_on_board(w, h, f, j);
        if exists|i: int| 0 <= i < line.len() && line[i] == (r, c) {
            let i = choose|i: int| 0 <= i < line.len() && line[i] == (r, c);
            lemma_axis_unique(w, h, r, c, f, j, i);
            let kk = family_axis(f);
            assert(js[kk] == n);
            assert(js.contains(n));
        } else {
            assert(line_tiles(g1, player, line) =~= line_tiles(g2, player, line)) by {
                assert forall|i: int| 0 <= i < line.len() implies g1(line[i].0 as usize, line[i].1 as usize) == g2(
                    line[i].0 as usize,
                    line[i].1 as usize,
                ) by {
                    assert(on_board(w, h, line[i]));
                    assert(line[i] != (r, c));
                }
            }
        }
    }
}

/// Changing the tile at one point (r, c) changes a player's full-board score
/// exactly as much as it changes the score of the four windows through the
/// point, on a board no wider than tall and at most one taller than wide,
/// for a rescorable scorer.
#[verifier::spinoff_prover]
pub proof fn lemma_point_change(
    board: BoardState,
    scorer: PatternScorer,
    g1: spec_fn(usize, usize) -> TileType,
    g2: spec_fn(usize, usize) -> TileType,
    player: PlayerType,
    r: int,
    c: int,
)
    requires
        0 < board.width <= board.height <= board.width + 1,
        board_size_ok(board),
        rescorable(scorer, board.height as int),
        0 <= r < board.height,
        0 <= c < board.width,
        forall|x: usize, y: usize|
            x < board.height && y < board.width && !(x == r && y == c) ==> #[trigger] g1(x, y) == g2(x, y),
    ensures
        full_score(board, g2, scorer, player) - full_score(board, g1, scorer, player) == local_total(
            board,
            g2,
            scorer,
            player,
            r,
            c,
        ) - local_total(board, g1, scorer, player, r, c),
{
    let (w, h) = (board.width as int, board.height as int);
    let v1 = full_line_values(board, g1, scorer, player);
    let v2 = full_line_values(board, g2, scorer, player);
    let l1 = local_values(board, g1, scorer, player, r, c);
    let l2 = local_values(board, g2, scorer, player, r, c);
    let js = axis_lines(w, h, r, c);
    lemma_axis_lines(w, h, r, c);
    lemma_other_lines(board, scorer, g1, g2, player, r, c);
    lemma_axis_delta(board, scorer, g1, g2, player, r, c, 0);
    lemma_axis_delta(board, scorer, g1, g2, player, r, c, 1);
    lemma_axis_delta(board, scorer, g1, g2, player, r, c, 2);
    lemma_axis_delta(board, scorer, g1, g2, player, r, c, 3);
    assert(l1.len() == 4 && l2.len() == 4);
    lemma_combine(v1, v2, l1, l2, js);
}

/// Sums of lists that differ at four places, by the differences of two
/// four-element lists.
proof fn lemma_combine(v1: Seq<int>, v2: Seq<int>, l1: Seq<int>, l2: Seq<int>, js: Seq<int>)
    requires
        v1.len() == v2.len(),
        l1.len() == 4,
        l2.len() == 4,
        js.len() == 4,
        forall|k: int| 0 <= k < 4 ==> 0 <= #[trigger] js[k] < v1.len(),
        forall|k1: int, k2: int| 0 <= k1 < 4 && 0 <= k2 < 4 && k1 != k2 ==> js[k1] != js[k2],
        forall|n: int| 0 <= n < v1.len() && !js.contains(n) ==> v2[n] == v1[n],
        v2[js[0]] - v1[js[0]] == l2[0] - l1[0],
        v2[js[1]] - v1[js[1]] == l2[1] - l1[1],
        v2[js[2]] - v1[js[2]] == l2[2] - l1[2],
        v2[js[3]] - v1[js[3]] == l2[3] - l1[3],
    ensures
        sum_ints(v2) - sum_ints(v1) == sum_ints(l2) - sum_ints(l1),
{
    lemma_sum_diff4(v2, v1, js, v1.len() as int);
    assert(v1.take(v1.len() as int) =~= v1);
    assert(v2.take(v2.len() as int) =~= v2);
    lemma_sum4(l1);
    lemma_sum4(l2);
}

proof fn lemma_sum4(l: Seq<int>)
    requires
        l.len() == 4,
    ensures
        sum_ints(l) == l[0] + l[1] + l[2] + l[3],
{
    reveal_with_fuel(sum_ints, 5);
    assert(l.drop_last().drop_last().drop_last().drop_last() =~= Seq::<int>::empty());
}

/// The scores of `m` are what evaluating its whole position from scratch
/// gives, capture values included.
pub open spec fn scores_match_full(board: BoardState, scorer: PatternScorer, m: MoveSetModel) -> bool {
    let g = overlay(board, m.moves);
    &&& m.score_white == full_score(board, g, scorer, PlayerType::White) + capture_value(m.captures_white)
        - capture_value(m.captures_black)
    &&& m.score_black == full_score(board, g, scorer, PlayerType::Black) + capture_value(m.captures_black)
        - capture_value(m.captures_white)
}

/// Putting `t` at one point of the overlay moves the full score by the
/// local delta there.
proof fn lemma_overlay_change(
    board: BoardState,
    scorer: PatternScorer,
    moves: Map<usize, TileType>,
    r: int,
    c: int,
    t: TileType,
    player: PlayerType,
)
    requires
        0 < board.width <= board.height <= board.width + 1,
        board_size_ok(board),
        board.width * board.height <= usize::MAX,
        rescorable(scorer, board.height as int),
        0 <= r < board.height,
        0 <= c < board.width,
    ensures
        full_score(board, overlay(board, moves.insert(cell_key(board, r, c), t)), scorer, player) - full_score(
            board,
            overlay(board, moves),
            scorer,
            player,
        ) == cell_change_delta(board, scorer, player, moves, r, c, t),
{
    let g1 = overlay(board, moves);
    let g2 = overlay(board, moves.insert(cell_key(board, r, c), t));
    assert forall|x: usize, y: usize|
        x < board.height && y < board.width && !(x == r && y == c) implies #[trigger] g1(x, y) == g2(x, y) by {
        lemma_cell_in_board(board.width as int, board.height as int, x as int, y as int);
        lemma_cell_in_board(board.width as int, board.height as int, r, c);
        if x * board.width + y == r * board.width + c {
            lemma_cell_distinct(board.width as int, x as int, y as int, r, c);
        }
        assert(0 <= x * board.width + y < board.width * board.height);
        assert(0 <= r * board.width + c < board.width * board.height);
        assert((x * board.width + y) as usize != cell_key(board, r, c));
    }
    lemma_point_change(board, scorer, g1, g2, player, r, c);
}

/// Applying the first `k` changes in order moves the full score by their
/// local deltas.
proof fn lemma_changes_full(
    board: BoardState,
    scorer: PatternScorer,
    moves: Map<usize, TileType>,
    changes: Seq<((usize, usize), TileType)>,
    player: PlayerType,
    k: int,
)
    requires
        0 < board.width <= board.height <= board.width + 1,
        board_size_ok(board),
        board.width * board.height <= usize::MAX,
        rescorable(scorer, board.height as int),
        0 <= k <= changes.len(),
        forall|i: int|
            0 <= i < changes.len() ==> {
                let q = (#[trigger] changes[i]).0;
                &&& q.0 < board.height
                &&& q.1 < board.width
            },
    ensures
        full_score(board, overlay(board, apply_changes(board, moves, changes.take(k))), scorer, player) - full_score(
            board,
            overlay(board, moves),
            scorer,
            player,
        ) == changes_delta(board, scorer, player, moves, changes.take(k)),
    decreases k,
{
    if k == 0 {
        assert(changes.take(0) =~= Seq::<((usize, usize), TileType)>::empty());
    } else {
        lemma_changes_full(board, scorer, moves, changes, player, k - 1);
        lemma_changes_step(board, scorer, moves, changes, k - 1);
        let q = changes[k - 1];
        lemma_overlay_change(
            board,
            scorer,
            apply_changes(board, moves, changes.take(k - 1)),
            q.0.0 as int,
            q.0.1 as int,
            q.1,
            player,
        );
    }
}

/// Incremental scoring agrees with evaluating from scratch: when a
/// position's scores are those of a full evaluation, so are the scores
/// after the player to move plays at any point (row, col) of the board,
/// provided the scorer is rescorable on the board.
pub proof fn lemma_move_rescoring(board: BoardState, scorer: PatternScorer, m: MoveSetModel, row: int, col: int)
    requires
        0 < board.width <= board.height <= board.width + 1,
        board_size_ok(board),
        board.width * board.height <= usize::MAX,
        rescorable(scorer, board.height as int),
        0 <= row < board.height,
        0 <= col < board.width,
        scores_match_full(board, scorer, m),
    ensures
        scores_match_full(board, scorer, child_model(board, scorer, m, row, col)),
{
    let mover = m.player_to_play;
    let changes = move_changes(board, m.moves, row, col, mover);
    let caps = move_captures(board, m.moves, row, col, mover);
    lemma_child_scores(board, scorer, m, row, col);
    lemma_captures_shape(
        board.width as int,
        board.height as int,
        row,
        col,
        mover,
        overlay(board, m.moves.insert(cell_key(board, row, col), stone_of(mover))),
        8,
    );
    assert forall|i: int| 0 <= i < changes.len() implies {
        let q = (#[trigger] changes[i]).0;
        &&& q.0 < board.height
        &&& q.1 < board.width
    } by {
        if i > 0 {
            assert(changes[i] == (caps[i - 1], TileType::Empty));
        }
    }
    lemma_changes_full(board, scorer, m.moves, changes, PlayerType::White, changes.len() as int);
    lemma_changes_full(board, scorer, m.moves, changes, PlayerType::Black, changes.len() as int);
    assert(changes.take(changes.len() as int) =~= changes);
}

/// A position evaluated from scratch has the scores of a full evaluation.
pub proof fn lemma_root_scores_match_full(board: BoardState, scorer: PatternScorer, color: PlayerType)
    ensures
        scores_match_full(board, scorer, root_model(board, scorer, color)),
{
    assert(overlay(board, Map::<usize, TileType>::empty()) =~= board.grid());
}

/// The pairing of each expanded pattern with its mirror image: an entry and
/// the mirror image added after it swap, a palindrome pairs with itself.
pub open spec fn expand_sigma(specs: Seq<(Seq<char>, i32)>, i: int) -> int
    decreases specs.len(),
{
    if specs.len() == 0 {
        i
    } else {
        let prev_len = expand_patterns(specs.drop_last()).len() as int;
        if i < prev_len {
            expand_sigma(specs.drop_last(), i)
        } else if specs.last().0.reverse() == specs.last().0 {
            i
        } else {
            2 * prev_len + 1 - i
        }
    }
}

/// Expanding a table pairs every pattern with its mirror image of the same
/// weight, and keeps the lengths of the table's texts.
proof fn lemma_expand_mirror(specs: Seq<(Seq<char>, i32)>, low: int, bound: int)
    requires
        forall|j: int| 0 <= j < specs.len() ==> low <= #[trigger] specs[j].0.len() <= bound,
    ensures
        ({
            let e = expand_patterns(specs);
            &&& forall|i: int|
                0 <= i < e.len() ==> {
                    &&& 0 <= #[trigger] expand_sigma(specs, i) < e.len()
                    &&& expand_sigma(specs, expand_sigma(specs, i)) == i
                    &&& e[expand_sigma(specs, i)].0 == e[i].0.reverse()
                    &&& e[expand_sigma(specs, i)].1 == e[i].1
                }
            &&& forall|i: int| 0 <= i < e.len() ==> low <= #[trigger] e[i].0.len() <= bound
        }),
    decreases specs.len(),
{
    if specs.len() > 0 {
        let d = specs.drop_last();
        assert forall|j: int| 0 <= j < d.len() implies low <= #[trigger] d[j].0.len() <= bound by {
            assert(d[j] == specs[j]);
        }
        lemma_expand_mirror(d, low, bound);
        let prev = expand_patterns(d);
        let e = expand_patterns(specs);
        let (text, w) = specs.last();
        let tiles = text.map_values(|ch: char| pattern_tile(ch));
        assert(low <= specs[specs.len() - 1].0.len() <= bound);
        assert(tiles.reverse().reverse() =~= tiles);
        if text.reverse() == text {
            assert(tiles.reverse() =~= tiles) by {
                assert forall|i: int| 0 <= i < tiles.len() implies tiles.reverse()[i] == tiles[i] by {
                    assert(text.reverse()[i] == text[i]);
                }
            }
            assert(e == prev.push((tiles, w)));
        } else {
            assert(e == prev.push((tiles, w)).push((tiles.reverse(), w)));
        }
        assert forall|i: int| 0 <= i < e.len() implies {
            &&& 0 <= #[trigger] expand_sigma(specs, i) < e.len()
            &&& expand_sigma(specs, expand_sigma(specs, i)) == i
            &&& e[expand_sigma(specs, i)].0 == e[i].0.reverse()
            &&& e[expand_sigma(specs, i)].1 == e[i].1
        } by {
            if i < prev.len() {
                assert(e[i] == prev[i]);
                assert(e[expand_sigma(d, i)] == prev[expand_sigma(d, i)]);
            }
        }
        assert forall|i: int| 0 <= i < e.len() implies low <= #[trigger] e[i].0.len() <= bound by {
            if i < prev.len() {
                assert(e[i] == prev[i]);
            }
        }
    }
}

/// The engine's scorer meets the shape conditions of rescoring: at most 64
/// patterns, each three to six points long, paired with their mirror images.
pub proof fn lemma_default_patterns_rescorable()
    ensures
        default_patterns().len() <= 64,
        forall|i: int| 0 <= i < default_patterns().len() ==> 3 <= #[trigger] default_patterns()[i].len(),
        short_patterns(default_patterns()),
        mirror_closed(default_patterns(), default_weights()),
{
    let table = pattern_table();
    lemma_pattern_table_valid();
    assert forall|j: int| 0 <= j < table.len() implies 3 <= #[trigger] table[j].0.len() <= 6 by {
        assert(table[j].0 == PATTERN_SPECS[j].0@);
    }
    lemma_expand_mirror(table, 3, 6);
    let e = expand_patterns(table);
    let pt = default_patterns();
    let wt = default_weights();
    assert(e.len() <= 2 * table.len()) by {
        lemma_expand_len(table);
    }
    assert forall|i: int| 0 <= i < pt.len() implies 3 <= #[trigger] pt[i].len() <= 6 by {
        assert(pt[i] == e[i].0);
    }
    let sigma = |i: int| expand_sigma(table, i);
    assert(mirror_pairing(pt, wt, sigma)) by {
        assert forall|i: int| 0 <= i < pt.len() implies {
            &&& 0 <= #[trigger] sigma(i) < pt.len()
            &&& sigma(sigma(i)) == i
            &&& pt[sigma(i)] == pt[i].reverse()
            &&& wt[sigma(i)] == wt[i]
        } by {
            assert(pt[i] == e[i].0 && wt[i] == e[i].1);
            assert(pt[expand_sigma(table, i)] == e[expand_sigma(table, i)].0);
            assert(wt[expand_sigma(table, i)] == e[expand_sigma(table, i)].1);
        }
    }
}

/// Expanding at most doubles the table.
proof fn lemma_expand_len(specs: Seq<(Seq<char>, i32)>)
    ensures
        expand_patterns(specs).len() <= 2 * specs.len(),
    decreases specs.len(),
{
    if specs.len() > 0 {
        lemma_expand_len(specs.drop_last());
    }
}

/// `x` without its sign.
pub open spec fn abs_int(x: int) -> int {
    if x < 0 {
        -x
    } else {
        x
    }
}

/// The sizes of the weights of the matches `ms`, added up.
pub open spec fn abs_plain(weights: Seq<i32>, ms: Seq<Match>) -> int
    decreases ms.len(),
{
    if ms.len() == 0 {
        0
    } else {
        abs_plain(weights, ms.drop_last()) + abs_int(weights[ms.last().pattern_id as int] as int)
    }
}

/// The sizes of the weights `ws`, added up.
pub open spec fn weights_abs(ws: Seq<i32>) -> int
    decreases ws.len(),
{
    if ws.len() == 0 {
        0
    } else {
        weights_abs(ws.drop_last()) + abs_int(ws.last() as int)
    }
}

/// The sizes of the weights of a table's entries, added up.
pub open spec fn table_abs(specs: Seq<(Seq<char>, i32)>) -> int
    decreases specs.len(),
{
    if specs.len() == 0 {
        0
    } else {
        table_abs(specs.drop_last()) + abs_int(specs.last().1 as int)
    }
}

/// The sizes of the weights of the patterns `i..` that are exactly `len`
/// long, added up.
pub open spec fn abs_len(patterns: Seq<Seq<TurnTileType>>, weights: Seq<i32>, i: int, len: int) -> int
    decreases patterns.len() - i,
{
    if i < 0 || i >= patterns.len() {
        0
    } else {
        (if patterns[i].len() == len {
            abs_int(weights[i] as int)
        } else {
            0
        }) + abs_len(patterns, weights, i + 1, len)
    }
}

/// The sizes of the weights of the patterns `i..` that are at most `len`
/// long, added up.
pub open spec fn abs_upto(patterns: Seq<Seq<TurnTileType>>, weights: Seq<i32>, i: int, len: int) -> int
    decreases patterns.len() - i,
{
    if i < 0 || i >= patterns.len() {
        0
    } else {
        (if patterns[i].len() <= len {
            abs_int(weights[i] as int)
        } else {
            0
        }) + abs_upto(patterns, weights, i + 1, len)
    }
}

/// The sizes of the weights of the patterns `i..`, added up.
pub open spec fn abs_from(patterns: Seq<Seq<TurnTileType>>, weights: Seq<i32>, i: int) -> int
    decreases patterns.len() - i,
{
    if i < 0 || i >= patterns.len() {
        0
    } else {
        abs_int(weights[i] as int) + abs_from(patterns, weights, i + 1)
    }
}

proof fn lemma_table_abs()
    ensures
        table_abs(pattern_table()) == 4241574,
{
    reveal_with_fuel(table_abs, 33);
    assert(pattern_table().len() == 32);
}

/// Expanding a table at most doubles the total size of its weights.
proof fn lemma_expand_abs(specs: Seq<(Seq<char>, i32)>)
    ensures
        weights_abs(expand_patterns(specs).map_values(|e: (Seq<TurnTileType>, i32)| e.1)) <= 2 * table_abs(specs),
    decreases specs.len(),
{
    if specs.len() > 0 {
        let d = specs.drop_last();
        lemma_expand_abs(d);
        let prev = expand_patterns(d);
        let e = expand_patterns(specs);
        let (text, w) = specs.last();
        let tiles = text.map_values(|ch: char| pattern_tile(ch));
        let pw = prev.map_values(|x: (Seq<TurnTileType>, i32)| x.1);
        let ew = e.map_values(|x: (Seq<TurnTileType>, i32)| x.1);
        if text.reverse() == text {
            assert(e == prev.push((tiles, w)));
            assert(ew =~= pw.push(w));
            assert(ew.drop_last() =~= pw);
            assert(weights_abs(ew) == weights_abs(pw) + abs_int(w as int));
        } else {
            assert(e == prev.push((tiles, w)).push((tiles.reverse(), w)));
            assert(ew =~= pw.push(w).push(w));
            assert(ew.drop_last() =~= pw.push(w));
            assert(pw.push(w).drop_last() =~= pw);
            assert(weights_abs(pw.push(w)) == weights_abs(pw) + abs_int(w as int));
            assert(weights_abs(ew) == weights_abs(pw.push(w)) + abs_int(w as int));
        }
        assert(table_abs(specs) == table_abs(d) + abs_int(w as int));
    }
}

/// Adding a weight at the end adds its size to every suffix sum.
proof fn lemma_abs_from_push(patterns: Seq<Seq<TurnTileType>>, weights: Seq<i32>, i: int)
    requires
        patterns.len() == weights.len(),
        weights.len() > 0,
        0 <= i <= weights.len(),
    ensures
        abs_from(patterns, weights, i) == abs_from(patterns.drop_last(), weights.drop_last(), i) + (if i
            < weights.len() {
            abs_int(weights.last() as int)
        } else {
            0
        }),
    decreases weights.len() - i,
{
    if i < weights.len() {
        lemma_abs_from_push(patterns, weights, i + 1);
    }
}

/// The sum from the first pattern is the sum of all the weights.
proof fn lemma_abs_from_all(patterns: Seq<Seq<TurnTileType>>, weights: Seq<i32>)
    requires
        patterns.len() == weights.len(),
    ensures
        abs_from(patterns, weights, 0) == weights_abs(weights),
    decreases weights.len(),
{
    if weights.len() > 0 {
        lemma_abs_from_push(patterns, weights, 0);
        lemma_abs_from_all(patterns.drop_last(), weights.drop_last());
    }
}

proof fn lemma_abs_split(patterns: Seq<Seq<TurnTileType>>, weights: Seq<i32>, i: int, len: int)
    requires
        0 <= i <= patterns.len(),
    ensures
        abs_upto(patterns, weights, i, len) == abs_len(patterns, weights, i, len) + abs_upto(patterns, weights, i, len - 1),
        0 <= abs_upto(patterns, weights, i, len) <= abs_from(patterns, weights, i),
        0 <= abs_len(patterns, weights, i, len),
        len < 0 ==> abs_upto(patterns, weights, i, len) == 0,
    decreases patterns.len() - i,
{
    if i < patterns.len() {
        lemma_abs_split(patterns, weights, i + 1, len);
    }
}

proof fn lemma_abs_short(patterns: Seq<Seq<TurnTileType>>, weights: Seq<i32>, i: int, len: int)
    requires
        0 <= i <= patterns.len(),
        len < 3,
        forall|j: int| 0 <= j < patterns.len() ==> 3 <= #[trigger] patterns[j].len(),
    ensures
        abs_upto(patterns, weights, i, len) == 0,
    decreases patterns.len() - i,
{
    if i < patterns.len() {
        lemma_abs_short(patterns, weights, i + 1, len);
    }
}

proof fn lemma_abs_plain_concat(weights: Seq<i32>, a: Seq<Match>, b: Seq<Match>)
    ensures
        abs_plain(weights, a + b) == abs_plain(weights, a) + abs_plain(weights, b),
    decreases b.len(),
{
    if b.len() == 0 {
        assert(a + b =~= a);
    } else {
        lemma_abs_plain_concat(weights, a, b.drop_last());
        assert((a + b).drop_last() =~= a + b.drop_last());
    }
}

/// A running total of weights is at most the total size of the weights,
/// which only grows along the list.
proof fn lemma_abs_plain_take(weights: Seq<i32>, ms: Seq<Match>, k: int)
    requires
        0 <= k <= ms.len(),
    ensures
        -abs_plain(weights, ms.take(k)) <= plain_sum(weights, ms.take(k)) <= abs_plain(weights, ms.take(k)),
        0 <= abs_plain(weights, ms.take(k)) <= abs_plain(weights, ms),
    decreases ms.len(),
{
    if k == ms.len() {
        assert(ms.take(k) =~= ms);
        if ms.len() > 0 {
            lemma_abs_plain_take(weights, ms.drop_last(), ms.len() - 1);
            assert(ms.drop_last().take(ms.len() - 1) =~= ms.drop_last());
        }
    } else {
        lemma_abs_plain_take(weights, ms.drop_last(), k);
        assert(ms.drop_last().take(k) =~= ms.take(k));
        lemma_abs_plain_take(weights, ms.drop_last(), ms.len() - 1);
        assert(ms.drop_last().take(ms.len() - 1) =~= ms.drop_last());
    }
}

/// The occurrences of patterns `i..` at one start weigh at most the
/// patterns of the right length.
proof fn lemma_ids_at_abs(patterns: Seq<Seq<TurnTileType>>, weights: Seq<i32>, text: Seq<TurnTileType>, s: int, i: int)
    requires
        0 <= s <= text.len() <= usize::MAX,
        0 <= i,
        patterns.len() <= usize::MAX,
    ensures
        abs_plain(weights, ids_at(patterns, text, s, i)) <= abs_len(patterns, weights, i, text.len() - s),
    decreases patterns.len() - i,
{
    if i < patterns.len() {
        lemma_ids_at_abs(patterns, weights, text, s, i + 1);
        let m = Match { start: s as usize, end: text.len() as usize, pattern_id: i as usize };
        let rest = ids_at(patterns, text, s, i + 1);
        if is_occurrence(patterns, text, m) {
            assert(text.subrange(s, text.len() as int).len() == text.len() - s);
            assert(patterns[i].len() == text.len() - s);
            assert(ids_at(patterns, text, s, i) == seq![m] + rest);
            lemma_abs_plain_concat(weights, seq![m], rest);
            assert(seq![m].drop_last() =~= Seq::<Match>::empty());
            assert(seq![m].last() == m);
            assert(abs_plain(weights, Seq::<Match>::empty()) == 0);
            assert(abs_plain(weights, seq![m]) == abs_int(weights[i] as int));
        } else {
            assert(ids_at(patterns, text, s, i) == rest);
        }
    }
}

/// The occurrences ending where `text` ends weigh at most the patterns
/// short enough to fit.
proof fn lemma_ends_from_abs(patterns: Seq<Seq<TurnTileType>>, weights: Seq<i32>, text: Seq<TurnTileType>, s: int)
    requires
        0 <= s <= text.len() + 1,
        text.len() <= usize::MAX,
        patterns.len() <= usize::MAX,
    ensures
        abs_plain(weights, ends_from(patterns, text, s)) <= abs_upto(patterns, weights, 0, text.len() - s),
    decreases text.len() + 1 - s,
{
    lemma_abs_split(patterns, weights, 0, text.len() - s);
    if s <= text.len() {
        lemma_ends_from_abs(patterns, weights, text, s + 1);
        lemma_ids_at_abs(patterns, weights, text, s, 0);
        lemma_abs_plain_concat(weights, ids_at(patterns, text, s, 0), ends_from(patterns, text, s + 1));
    }
}

/// The occurrences in a text of length `n` weigh at most `n - 2` times all
/// the weights when every pattern is at least three points long.
proof fn lemma_occ_abs(patterns: Seq<Seq<TurnTileType>>, weights: Seq<i32>, text: Seq<TurnTileType>)
    requires
        text.len() <= usize::MAX,
        patterns.len() <= usize::MAX,
        forall|j: int| 0 <= j < patterns.len() ==> 3 <= #[trigger] patterns[j].len(),
    ensures
        abs_plain(weights, occ_list(patterns, text)) <= (if text.len() >= 2 { text.len() - 2 } else { 0 }) * abs_from(
            patterns,
            weights,
            0,
        ),
    decreases text.len(),
{
    let a = abs_from(patterns, weights, 0);
    lemma_ends_from_abs(patterns, weights, text, 0);
    lemma_abs_split(patterns, weights, 0, text.len() as int);
    if text.len() < 3 {
        lemma_abs_short(patterns, weights, 0, text.len() as int);
    }
    if text.len() > 0 {
        lemma_occ_abs(patterns, weights, text.drop_last());
        lemma_abs_plain_concat(weights, occ_list(patterns, text.drop_last()), ends_from(patterns, text, 0));
        if text.len() >= 3 {
            assert((text.len() - 3) * a + a == (text.len() - 2) * a) by (nonlinear_arith);
        }
    }
}

/// Expanding keeps the weights of the table.
proof fn lemma_expand_weights(specs: Seq<(Seq<char>, i32)>)
    ensures
        forall|i: int|
            0 <= i < expand_patterns(specs).len() ==> exists|j: int|
                0 <= j < specs.len() && #[trigger] expand_patterns(specs)[i].1 == specs[j].1,
    decreases specs.len(),
{
    if specs.len() > 0 {
        let d = specs.drop_last();
        lemma_expand_weights(d);
        let prev = expand_patterns(d);
        let e = expand_patterns(specs);
        assert forall|i: int| 0 <= i < e.len() implies exists|j: int|
            0 <= j < specs.len() && #[trigger] e[i].1 == specs[j].1 by {
            if i < prev.len() {
                assert(e[i] == prev[i]);
                let j = choose|j: int| 0 <= j < d.len() && prev[i].1 == d[j].1;
                assert(d[j] == specs[j]);
            } else {
                assert(e[i].1 == specs[specs.len() - 1].1);
            }
        }
    }
}

/// Every weight of the engine's scorer is a win either way or at most 5^7
/// either way; none exceeds a win.
pub proof fn lemma_default_weights_bound()
    ensures
        forall|i: int|
            0 <= i < default_weights().len() ==> -WIN_SCORE <= #[trigger] default_weights()[i] <= WIN_SCORE && (
            default_weights()[i] == WIN_SCORE || default_weights()[i] == -WIN_SCORE || -78125 <= default_weights()[i]
                <= 78125),
        default_weights().len() == default_patterns().len(),
        default_patterns().len() <= 64,
{
    let table = pattern_table();
    lemma_pattern_table_valid();
    lemma_expand_weights(table);
    lemma_expand_len(table);
    let e = expand_patterns(table);
    assert forall|i: int| 0 <= i < default_weights().len() implies -WIN_SCORE <= #[trigger] default_weights()[i]
        <= WIN_SCORE && (default_weights()[i] == WIN_SCORE || default_weights()[i] == -WIN_SCORE || -78125
        <= default_weights()[i] <= 78125) by {
        assert(default_weights()[i] == e[i].1);
        let j = choose|j: int| 0 <= j < table.len() && e[i].1 == table[j].1;
        assert(table[j].1 == PATTERN_SPECS[j].1);
    }
}

/// The engine's scorer never saturates on a line of at most 255 points: at
/// each point at most one occurrence of each pattern ends, so a line's
/// occurrences weigh at most its length less two times the sizes of all the
/// weights, which is below 2^31 for such lines.
pub proof fn lemma_default_unsaturated(text: Seq<TurnTileType>)
    requires
        text.len() <= 255,
    ensures
        unsaturated(default_patterns(), default_weights(), text),
{
    let pt = default_patterns();
    let wt = default_weights();
    let table = pattern_table();
    lemma_default_weights_bound();
    lemma_default_patterns_rescorable();
    lemma_occ_list(pt, text);
    lemma_match_list_is(pt, text, occ_list(pt, text));
    let ms = match_list(pt, text);
    assert(ms == occ_list(pt, text));
    lemma_occ_abs(pt, wt, text);
    lemma_abs_from_all(pt, wt);
    lemma_expand_abs(table);
    lemma_table_abs();
    let a = abs_from(pt, wt, 0);
    lemma_abs_split(pt, wt, 0, 0);
    assert(wt =~= expand_patterns(table).map_values(|e: (Seq<TurnTileType>, i32)| e.1));
    assert(0 <= a <= 8483148);
    assert(abs_plain(wt, ms) <= 253 * 8483148) by (nonlinear_arith)
        requires
            abs_plain(wt, ms) <= (if text.len() >= 2 { text.len() - 2 } else { 0 }) * a,
            text.len() <= 255,
            0 <= a <= 8483148,
    ;
    assert forall|k: int| 0 <= k <= ms.len() implies in_i32(#[trigger] plain_sum(wt, ms.take(k))) by {
        lemma_abs_plain_take(wt, ms, k);
    }
}

/// The engine's scorer is rescorable on boards of at most 255 rows.
pub proof fn lemma_default_rescorable(scorer: PatternScorer, n: int)
    requires
        scorer.patterns() == default_patterns(),
        scorer.weights() == default_weights(),
        n <= 255,
    ensures
        rescorable(scorer, n),
{
    lemma_default_patterns_rescorable();
    assert forall|t: Seq<TurnTileType>| t.len() <= n implies #[trigger] unsaturated(
        scorer.patterns(),
        scorer.weights(),
        t,
    ) by {
        lemma_default_unsaturated(t);
    }
}

/// With the engine's scorer, on a board of at most 255 rows no wider than
/// tall and at most one taller than wide, incremental scoring agrees with
/// evaluating from scratch for every move on the board.
pub proof fn lemma_engine_rescoring(board: BoardState, scorer: PatternScorer, m: MoveSetModel, row: int, col: int)
    requires
        scorer.patterns() == default_patterns(),
        scorer.weights() == default_weights(),
        0 < board.width <= board.height <= board.width + 1,
        board.height <= 255,
        0 <= row < board.height,
        0 <= col < board.width,
        scores_match_full(board, scorer, m),
    ensures
        scores_match_full(board, scorer, child_model(board, scorer, m, row, col)),
{
    lemma_default_rescorable(scorer, board.height as int);
    assert(board.width * board.height <= 255 * 255) by (nonlinear_arith)
        requires
            board.width <= 255,
            board.height <= 255,
            0 < board.width,
    ;
    lemma_move_rescoring(board, scorer, m, row, col);
}

/// Five captured pairs are worth as much as a row of five and more than
/// every other pattern of the engine's scorer.
pub proof fn lemma_capture_win_dominates(pairs: u32)
    requires
        pairs >= CAPTURE_WIN_PAIRS,
    ensures
        forall|i: int| 0 <= i < default_weights().len() ==> #[trigger] default_weights()[i] <= capture_value(pairs),
        forall|i: int|
            0 <= i < default_weights().len() && default_weights()[i] != WIN_SCORE ==> #[trigger] default_weights()[i]
                < capture_value(pairs),
{
    lemma_default_weights_bound();
}

/// What a candidate move is worth to the player making it (the value a
/// depth-0 search ranks it by) is the static evaluation, for that player,
/// of the position the move leads to.
pub proof fn lemma_move_value_static(board: BoardState, scorer: PatternScorer, m: MoveSetModel, p: (usize, usize))
    requires
        0 < board.width <= board.height <= board.width + 1,
        board_size_ok(board),
        board.width * board.height <= usize::MAX,
        rescorable(scorer, board.height as int),
        p.0 < board.height,
        p.1 < board.width,
        scores_match_full(board, scorer, m),
    ensures
        ({
            let mover = m.player_to_play;
            let c = child_at(board, scorer, m, p);
            move_value(board, scorer, m, p) == full_score(board, overlay(board, c.moves), scorer, mover)
                + capture_value(c.captures_of(mover)) - capture_value(c.captures_of(opponent(mover)))
        }),
{
    lemma_move_rescoring(board, scorer, m, p.0 as int, p.1 as int);
}

/// The stone of the other side in place of `t`; an empty point stays empty.
pub open spec fn swap_stone(t: TileType) -> TileType {
    match t {
        TileType::Black => TileType::White,
        TileType::White => TileType::Black,
        TileType::Empty => TileType::Empty,
    }
}

/// `b2` is `b` with every stone given to the other side and the capture
/// counts exchanged.
pub open spec fn colours_swapped(b: BoardState, b2: BoardState) -> bool {
    &&& b2.width == b.width
    &&& b2.height == b.height
    &&& b2.tiles@.len() == b.tiles@.len()
    &&& forall|i: int| 0 <= i < b.tiles@.len() ==> b2.tiles@[i] == swap_stone(#[trigger] b.tiles@[i])
    &&& b2.captures_white == b.captures_black
    &&& b2.captures_black == b.captures_white
}

/// Swapping the colours of every stone swaps the two players' full-board
/// scores: the board reads for one player as the swapped board reads for
/// the other.
pub proof fn lemma_full_score_colour_swap(
    b: BoardState,
    b2: BoardState,
    scorer: PatternScorer,
    player: PlayerType,
)
    requires
        b.wf(),
        0 < b.width <= b.height <= b.width + 1,
        colours_swapped(b, b2),
    ensures
        full_line_values(b2, b2.grid(), scorer, opponent(player)) == full_line_values(b, b.grid(), scorer, player),
        full_score(b2, b2.grid(), scorer, opponent(player)) == full_score(b, b.grid(), scorer, player),
{
    let (w, h) = (b.width as int, b.height as int);
    let v1 = full_line_values(b, b.grid(), scorer, player);
    let v2 = full_line_values(b2, b2.grid(), scorer, opponent(player));
    assert forall|n: int| 0 <= n < v1.len() implies v2[n] == v1[n] by {
        let (f, j) = lemma_board_line_split(w, h, n);
        let line = family_line(f, w, h, j);
        lemma_family_on_board(w, h, f, j);
        assert(line_tiles(b2.grid(), opponent(player), line) =~= line_tiles(b.grid(), player, line)) by {
            assert forall|i: int| 0 <= i < line.len() implies turn_tile(
                opponent(player),
                b2.grid()(line[i].0 as usize, line[i].1 as usize),
            ) == turn_tile(player, b.grid()(line[i].0 as usize, line[i].1 as usize)) by {
                assert(on_board(w, h, line[i]));
                lemma_cell_in_board(w, h, line[i].0, line[i].1);
                let k = line[i].0 * w + line[i].1;
                assert(b2.tiles@[k] == swap_stone(b.tiles@[k]));
            }
        }
    }
    assert(v2 =~= v1);
}

/// Swapping the colours of every stone, and the capture counts, and handing
/// the move to the other side gives a position that scores for each player
/// what the first position scored for the other, and the same for the side to
/// move; evaluating it from scratch stays in `i32` exactly when evaluating
/// the first position does.
pub proof fn lemma_colour_swap(b: BoardState, b2: BoardState, scorer: PatternScorer, color: PlayerType)
    requires
        b.wf(),
        0 < b.width <= b.height <= b.width + 1,
        colours_swapped(b, b2),
    ensures
        ({
            let m = root_model(b, scorer, color);
            let m2 = root_model(b2, scorer, opponent(color));
            &&& m2.score_white == m.score_black
            &&& m2.score_black == m.score_white
            &&& m2.score_of(m2.player_to_play) == m.score_of(m.player_to_play)
            &&& root_fits(b2, scorer) == root_fits(b, scorer)
        }),
{
    lemma_full_score_colour_swap(b, b2, scorer, PlayerType::White);
    lemma_full_score_colour_swap(b, b2, scorer, PlayerType::Black);
}

/// A scorer whose patterns are closed under mirroring, with equal weights,
/// scores a line the same read in either direction, as long as neither
/// reading's running total leaves `i32`.
pub proof fn lemma_line_score_reverse(patterns: Seq<Seq<TurnTileType>>, weights: Seq<i32>, x: Seq<TurnTileType>)
    requires
        x.len() <= usize::MAX,
        patterns.len() <= usize::MAX,
        mirror_closed(patterns, weights),
        unsaturated(patterns, weights, x),
        unsaturated(patterns, weights, x.reverse()),
    ensures
        line_score(patterns, weights, x.reverse()) == line_score(patterns, weights, x),
{
    let sigma = choose|sigma: spec_fn(int) -> int| mirror_pairing(patterns, weights, sigma);
    lemma_reverse_score(patterns, weights, x, sigma);
    lemma_unsaturated_score(patterns, weights, x);
    lemma_unsaturated_score(patterns, weights, x.reverse());
}

/// The engine's scorer scores every line of at most 255 points the same read
/// in either direction.
pub proof fn lemma_default_score_reverse(x: Seq<TurnTileType>)
    requires
        x.len() <= 255,
    ensures
        line_score(default_patterns(), default_weights(), x.reverse()) == line_score(
            default_patterns(),
            default_weights(),
            x,
        ),
{
    lemma_default_patterns_rescorable();
    lemma_default_unsaturated(x);
    lemma_default_unsaturated(x.reverse());
    lemma_line_score_reverse(default_patterns(), default_weights(), x);
}

} // verus!
