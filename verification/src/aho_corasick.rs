//! Aho–Corasick automaton over [`TurnTileType`]: finds every occurrence of a
//! set of patterns in a sequence of tiles in one left-to-right pass.

use vstd::prelude::*;
use std::collections::VecDeque;
use crate::tile::{opponent, PlayerType, TileType};

verus! {

/// One occurrence of a pattern in the scanned sequence.
#[derive(Clone, Debug, PartialEq, Eq, Structural)]
pub struct Match {
    /// Inclusive start index in the input slice.
    pub start: usize,
    /// Exclusive end index (`start..end` spans the matched tiles).
    pub end: usize,
    /// Id returned by [`TileDfa::add_pattern`].
    pub pattern_id: usize,
}

/// A tile seen from the side of the player to move: `One` is that player's
/// stone, `Two` the opponent's, `Empty` an empty point.
#[derive(Copy, Clone, Debug, PartialEq, Eq, Hash, Structural)]
pub enum TurnTileType {
    One,
    Two,
    Empty,
}

/// Position of a tile in the automaton's alphabet.
pub open spec fn tile_index(t: TurnTileType) -> int {
    match t {
        TurnTileType::One => 1,
        TurnTileType::Two => 2,
        TurnTileType::Empty => 0,
    }
}

/// How a tile of the board reads for `player_to_play`.
pub open spec fn turn_tile(player_to_play: PlayerType, tile: TileType) -> TurnTileType {
    match tile {
        TileType::Empty => TurnTileType::Empty,
        TileType::White => if player_to_play == PlayerType::White {
            TurnTileType::One
        } else {
            TurnTileType::Two
        },
        TileType::Black => if player_to_play == PlayerType::Black {
            TurnTileType::One
        } else {
            TurnTileType::Two
        },
    }
}

/// The tile read from the other side: the player's and the opponent's
/// stones swap, empty stays empty.
pub open spec fn swap_sides(t: TurnTileType) -> TurnTileType {
    match t {
        TurnTileType::One => TurnTileType::Two,
        TurnTileType::Two => TurnTileType::One,
        TurnTileType::Empty => TurnTileType::Empty,
    }
}

/// A board reads for one player as it reads for the other with the sides
/// swapped.
pub proof fn lemma_turn_tile_sides(player: PlayerType, tile: TileType)
    ensures
        turn_tile(opponent(player), tile) == swap_sides(turn_tile(player, tile)),
{
}

impl TurnTileType {
    pub const ALPHABET_LEN: usize = 3;

    pub fn alphabet_index(self) -> (i: usize)
        ensures
            i == tile_index(self),
            i < 3,
    {
        match self {
            TurnTileType::One => 1,
            TurnTileType::Two => 2,
            TurnTileType::Empty => 0,
        }
    }

    pub fn from_tile_type(player_to_play: PlayerType, tile_type: TileType) -> (t: Self)
        ensures
            t == turn_tile(player_to_play, tile_type),
    {
        match (player_to_play, tile_type) {
            (PlayerType::White, TileType::White) => TurnTileType::One,
            (PlayerType::White, TileType::Black) => TurnTileType::Two,
            (PlayerType::White, TileType::Empty) => TurnTileType::Empty,
            (PlayerType::Black, TileType::White) => TurnTileType::Two,
            (PlayerType::Black, TileType::Black) => TurnTileType::One,
            (PlayerType::Black, TileType::Empty) => TurnTileType::Empty,
        }
    }
}

/// `m` is an occurrence of one of `patterns` in `text`.
pub open spec fn is_occurrence(
    patterns: Seq<Seq<TurnTileType>>,
    text: Seq<TurnTileType>,
    m: Match,
) -> bool {
    &&& m.pattern_id < patterns.len()
    &&& m.start <= m.end <= text.len()
    &&& text.subrange(m.start as int, m.end as int) == patterns[m.pattern_id as int]
}

/// Order in which matches are reported: by end, then start, then pattern id.
pub open spec fn match_precedes(a: Match, b: Match) -> bool {
    ||| a.end < b.end
    ||| (a.end == b.end && a.start < b.start)
    ||| (a.end == b.end && a.start == b.start && a.pattern_id < b.pattern_id)
}

/// Matches listed strictly in reporting order.
pub open spec fn matches_in_order(ms: Seq<Match>) -> bool {
    forall|k1: int, k2: int|
        0 <= k1 < k2 < ms.len() ==> match_precedes(#[trigger] ms[k1], #[trigger] ms[k2])
}

/// `s` is empty or a prefix of one of `patterns`.
pub open spec fn is_pattern_prefix(patterns: Seq<Seq<TurnTileType>>, s: Seq<TurnTileType>) -> bool {
    s.len() == 0 || exists|p: int| 0 <= p < patterns.len() && s.is_prefix_of(#[trigger] patterns[p])
}

/// `s` is the longest suffix of `text` that is a prefix of a pattern.
pub open spec fn is_longest_prefix_suffix(
    patterns: Seq<Seq<TurnTileType>>,
    text: Seq<TurnTileType>,
    s: Seq<TurnTileType>,
) -> bool {
    &&& s.is_suffix_of(text)
    &&& is_pattern_prefix(patterns, s)
    &&& forall|s2: Seq<TurnTileType>|
        #![trigger s2.is_suffix_of(text), is_pattern_prefix(patterns, s2)]
        s2.is_suffix_of(text) && is_pattern_prefix(patterns, s2) ==> s2.len() <= s.len()
}

/// The longest suffix of `text` that is a prefix of a pattern.
pub open spec fn longest_prefix_suffix(patterns: Seq<Seq<TurnTileType>>, text: Seq<TurnTileType>) -> Seq<
    TurnTileType,
> {
    choose|s: Seq<TurnTileType>| is_longest_prefix_suffix(patterns, text, s)
}

/// Every text has exactly one longest suffix that is a pattern prefix.
pub proof fn lemma_longest_prefix_suffix(patterns: Seq<Seq<TurnTileType>>, text: Seq<TurnTileType>)
    ensures
        is_longest_prefix_suffix(patterns, text, longest_prefix_suffix(patterns, text)),
        forall|s: Seq<TurnTileType>|
            #[trigger] is_longest_prefix_suffix(patterns, text, s) ==> s == longest_prefix_suffix(patterns, text),
{
    lemma_longest_exists(patterns, text, text.len() as int);
    let w = choose|s: Seq<TurnTileType>|
        s.len() <= text.len() && s.is_suffix_of(text) && is_pattern_prefix(patterns, s) && forall|s2: Seq<TurnTileType>|
            #![trigger s2.is_suffix_of(text), is_pattern_prefix(patterns, s2)]
            s2.is_suffix_of(text) && is_pattern_prefix(patterns, s2) && s2.len() <= text.len() ==> s2.len() <= s.len();
    assert(is_longest_prefix_suffix(patterns, text, w));
    let l = longest_prefix_suffix(patterns, text);
    assert forall|s: Seq<TurnTileType>| #[trigger] is_longest_prefix_suffix(patterns, text, s) implies s == l by {
        assert(s.len() <= l.len());
        assert(l.len() <= s.len());
        assert(s =~= l);
    }
}

/// Some suffix of `text` of length at most `k` that is a pattern prefix is
/// at least as long as every other such suffix of length at most `k`.
proof fn lemma_longest_exists(patterns: Seq<Seq<TurnTileType>>, text: Seq<TurnTileType>, k: int)
    requires
        0 <= k <= text.len(),
    ensures
        exists|s: Seq<TurnTileType>|
            s.len() <= k && s.is_suffix_of(text) && is_pattern_prefix(patterns, s) && forall|s2: Seq<TurnTileType>|
                #![trigger s2.is_suffix_of(text), is_pattern_prefix(patterns, s2)]
                s2.is_suffix_of(text) && is_pattern_prefix(patterns, s2) && s2.len() <= k ==> s2.len() <= s.len(),
    decreases k,
{
    let t = text.subrange(text.len() - k, text.len() as int);
    if is_pattern_prefix(patterns, t) {
        assert(t.is_suffix_of(text));
        assert forall|s2: Seq<TurnTileType>|
            #![trigger s2.is_suffix_of(text), is_pattern_prefix(patterns, s2)]
            s2.is_suffix_of(text) && is_pattern_prefix(patterns, s2) && s2.len() <= k implies s2.len() <= t.len() by {}
    } else if k == 0 {
        assert(t =~= Seq::<TurnTileType>::empty());
    } else {
        lemma_longest_exists(patterns, text, k - 1);
        let s = choose|s: Seq<TurnTileType>|
            s.len() <= k - 1 && s.is_suffix_of(text) && is_pattern_prefix(patterns, s) && forall|s2: Seq<TurnTileType>|
                #![trigger s2.is_suffix_of(text), is_pattern_prefix(patterns, s2)]
                s2.is_suffix_of(text) && is_pattern_prefix(patterns, s2) && s2.len() <= k - 1 ==> s2.len() <= s.len();
        assert forall|s2: Seq<TurnTileType>|
            #![trigger s2.is_suffix_of(text), is_pattern_prefix(patterns, s2)]
            s2.is_suffix_of(text) && is_pattern_prefix(patterns, s2) && s2.len() <= k implies s2.len() <= s.len() by {
            if s2.len() == k {
                assert(s2 =~= t);
            }
        }
    }
}

/// A suffix of a suffix is a suffix.
proof fn lemma_suffix_trans(a: Seq<TurnTileType>, b: Seq<TurnTileType>, c: Seq<TurnTileType>)
    requires
        a.is_suffix_of(b),
        b.is_suffix_of(c),
    ensures
        a.is_suffix_of(c),
{
    assert(a =~= c.subrange(c.len() - a.len(), c.len() as int));
}

/// Of two suffixes of the same sequence, the shorter is a suffix of the longer.
proof fn lemma_suffix_of_suffix(a: Seq<TurnTileType>, b: Seq<TurnTileType>, c: Seq<TurnTileType>)
    requires
        a.is_suffix_of(c),
        b.is_suffix_of(c),
        a.len() <= b.len(),
    ensures
        a.is_suffix_of(b),
{
    assert(a =~= b.subrange(b.len() - a.len(), b.len() as int));
}

/// Appending the same tile keeps a suffix a suffix.
proof fn lemma_suffix_push(a: Seq<TurnTileType>, b: Seq<TurnTileType>, t: TurnTileType)
    requires
        a.is_suffix_of(b),
    ensures
        a.push(t).is_suffix_of(b.push(t)),
{
    assert(a.push(t) =~= b.push(t).subrange(b.len() - a.len(), (b.len() + 1) as int));
}

/// A non-empty suffix of `b + [t]` ends with `t` and, without it, is a suffix of `b`.
proof fn lemma_suffix_pop(a: Seq<TurnTileType>, b: Seq<TurnTileType>, t: TurnTileType)
    requires
        a.is_suffix_of(b.push(t)),
        a.len() > 0,
    ensures
        a.last() == t,
        a.drop_last().is_suffix_of(b),
        a == a.drop_last().push(t),
{
    assert(a.drop_last() =~= b.subrange(b.len() + 1 - a.len(), b.len() as int));
    assert(a =~= a.drop_last().push(t));
}

/// The tile at position `c` of the alphabet.
spec fn tile_of_index(c: int) -> TurnTileType {
    if c == 1 {
        TurnTileType::One
    } else if c == 2 {
        TurnTileType::Two
    } else {
        TurnTileType::Empty
    }
}

fn tile_at_index(c: usize) -> (t: TurnTileType)
    requires
        c < 3,
    ensures
        t == tile_of_index(c as int),
        tile_index(t) == c,
{
    if c == 1 {
        TurnTileType::One
    } else if c == 2 {
        TurnTileType::Two
    } else {
        TurnTileType::Empty
    }
}

/// A sequence of distinct naturals below `n` has at most `n` elements.
proof fn lemma_distinct_bounded(s: Seq<usize>, n: nat)
    requires
        s.no_duplicates(),
        forall|k: int| 0 <= k < s.len() ==> (#[trigger] s[k] as int) < n,
    ensures
        s.len() <= n,
    decreases n,
{
    if n == 0 {
        if s.len() > 0 {
            assert((s[0] as int) < 0);
        }
    } else if s.contains((n - 1) as usize) {
        let k = choose|k: int| 0 <= k < s.len() && s[k] == (n - 1) as usize;
        let s2 = s.remove(k);
        assert forall|a: int| 0 <= a < s2.len() implies (#[trigger] s2[a] as int) < n - 1 by {
            if a < k {
                assert(s2[a] == s[a]);
            } else {
                assert(s2[a] == s[a + 1]);
            }
        }
        assert(s2.no_duplicates()) by {
            assert forall|a: int, b: int| 0 <= a < s2.len() && 0 <= b < s2.len() && a != b implies s2[a]
                != s2[b] by {
                let a1 = if a < k { a } else { a + 1 };
                let b1 = if b < k { b } else { b + 1 };
                assert(s2[a] == s[a1] && s2[b] == s[b1]);
            }
        }
        lemma_distinct_bounded(s2, (n - 1) as nat);
    } else {
        assert forall|a: int| 0 <= a < s.len() implies (#[trigger] s[a] as int) < n - 1 by {
            if s[a] as int == n - 1 {
                assert(s.contains((n - 1) as usize));
            }
        }
        lemma_distinct_bounded(s, (n - 1) as nat);
    }
}

/// Appending keeps what a sequence contains.
proof fn lemma_push_contains(s: Seq<Match>, x: Match)
    ensures
        forall|m: Match| s.contains(m) ==> #[trigger] s.push(x).contains(m),
        s.push(x).contains(x),
{
    assert forall|m: Match| s.contains(m) implies #[trigger] s.push(x).contains(m) by {
        let k = choose|k: int| 0 <= k < s.len() && s[k] == m;
        assert(s.push(x)[k] == m);
    }
    assert(s.push(x)[s.len() as int] == x);
}

/// The occurrence of pattern `p` that ends at `end`.
spec fn match_ending_at(patterns: Seq<Seq<TurnTileType>>, end: int, p: int) -> Match {
    Match { start: (end - patterns[p].len()) as usize, end: end as usize, pattern_id: p as usize }
}

/// A trie node: its outgoing edges, its failure link and the ids of the
/// patterns that end exactly here.
#[derive(Clone, Debug)]
struct Node {
    /// Trie edges by `TurnTileType::alphabet_index()`.
    next: [Option<usize>; 3],
    fail: usize,
    /// Pattern ids whose tiles end exactly at this trie node.
    output: Vec<usize>,
}

impl Node {
    fn new() -> (n: Self)
        ensures
            n.next[0] is None,
            n.next[1] is None,
            n.next[2] is None,
            n.fail == 0,
            n.output@.len() == 0,
    {
        Node { next: [None, None, None], fail: 0, output: Vec::new() }
    }
}

/// Multi-pattern matcher: build with [`TileDfa::new`], add patterns, call
/// [`TileDfa::build`], then [`TileDfa::find_matches`].
#[derive(Clone)]
pub struct TileDfa {
    nodes: Vec<Node>,
    pattern_lens: Vec<usize>,
    built: bool,
    /// The patterns added so far, in id order.
    patterns: Ghost<Seq<Seq<TurnTileType>>>,
    /// The tiles spelled by the path from the root to each node.
    labels: Ghost<Seq<Seq<TurnTileType>>>,
}

impl Default for TileDfa {
    fn default() -> (dfa: Self)
        ensures
            dfa.wf(),
            !dfa.is_built(),
            dfa@ == Seq::<Seq<TurnTileType>>::empty(),
    {
        Self::new()
    }
}

impl View for TileDfa {
    type V = Seq<Seq<TurnTileType>>;

    closed spec fn view(&self) -> Seq<Seq<TurnTileType>> {
        self.patterns@
    }
}

impl TileDfa {
    /// `build` has run: the automaton is ready for matching.
    pub closed spec fn is_built(&self) -> bool {
        self.built
    }

    /// Number of automaton states.
    pub closed spec fn state_count(&self) -> nat {
        self.nodes@.len()
    }

    /// The tiles that lead from the start state to state `s`.
    pub closed spec fn state_label(&self, s: int) -> Seq<TurnTileType> {
        self.labels@[s]
    }

    closed spec fn n(&self) -> int {
        self.nodes@.len() as int
    }

    closed spec fn label(&self, u: int) -> Seq<TurnTileType> {
        self.labels@[u]
    }

    closed spec fn child(&self, u: int, t: TurnTileType) -> Option<usize> {
        self.nodes@[u].next[tile_index(t)]
    }

    closed spec fn output(&self, u: int) -> Seq<usize> {
        self.nodes@[u].output@
    }

    closed spec fn fail(&self, u: int) -> int {
        self.nodes@[u].fail as int
    }

    /// The trie: node 0 is the root, edges extend labels by one tile, every
    /// one-tile extension of a label that is itself a label is an edge, and
    /// labels are distinct.
    closed spec fn trie_shape(&self) -> bool {
        &&& self.n() >= 1
        &&& self.labels@.len() == self.n()
        &&& self.label(0).len() == 0
        &&& forall|u: int, t: TurnTileType|
            0 <= u < self.n() && (#[trigger] self.child(u, t)) is Some ==> {
                &&& (self.child(u, t)->0 as int) < self.n()
                &&& self.label(self.child(u, t)->0 as int) == self.label(u).push(t)
            }
        &&& forall|u: int, v: int, t: TurnTileType|
            0 <= u < self.n() && 0 <= v < self.n() && #[trigger] self.label(v)
                == #[trigger] self.label(u).push(t) ==> self.child(u, t) == Some(v as usize)
        &&& forall|u: int, v: int|
            0 <= u < self.n() && 0 <= v < self.n() && #[trigger] self.label(u) == #[trigger] self.label(
                v,
            ) ==> u == v
    }

    /// Some node is labelled with the first `k` tiles of pattern `p`.
    closed spec fn prefix_present(&self, p: int, k: int) -> bool {
        exists|u: int| 0 <= u < self.n() && #[trigger] self.label(u) == self.patterns@[p].take(k)
    }

    /// The label of `u` is a prefix of some pattern.
    closed spec fn label_extends_to_pattern(&self, u: int) -> bool {
        exists|p: int|
            0 <= p < self.patterns@.len() && #[trigger] self.label(u).is_prefix_of(self.patterns@[p])
    }

    /// Node labels are exactly the prefixes of the patterns.
    closed spec fn labels_match_patterns(&self) -> bool {
        &&& forall|u: int| 0 < u < self.n() ==> #[trigger] self.label_extends_to_pattern(u)
        &&& forall|p: int, k: int|
            0 <= p < self.patterns@.len() && 0 <= k <= self.patterns@[p].len()
                ==> #[trigger] self.prefix_present(p, k)
    }

    /// Output lists hold, in increasing order, exactly the ids of the patterns
    /// equal to the node's label; `pattern_lens` records pattern lengths.
    closed spec fn outputs_ok(&self) -> bool {
        &&& self.pattern_lens@.len() == self.patterns@.len()
        &&& forall|p: int|
            0 <= p < self.patterns@.len() ==> #[trigger] self.pattern_lens@[p]
                == self.patterns@[p].len() && self.patterns@[p].len() > 0
        &&& forall|u: int, j: int|
            0 <= u < self.n() && 0 <= j < self.output(u).len() ==> {
                &&& (#[trigger] self.output(u)[j] as int) < self.patterns@.len()
                &&& self.patterns@[self.output(u)[j] as int] == self.label(u)
            }
        &&& forall|u: int, j1: int, j2: int|
            0 <= u < self.n() && 0 <= j1 < j2 < self.output(u).len() ==> #[trigger] self.output(
                u,
            )[j1] < #[trigger] self.output(u)[j2]
        &&& forall|u: int, p: int|
            0 <= u < self.n() && 0 <= p < self.patterns@.len() && #[trigger] self.label(u)
                == #[trigger] self.patterns@[p] ==> self.output(u).contains(p as usize)
    }

    /// The failure link of `u` leads to the longest proper suffix of its
    /// label that is itself a label.
    closed spec fn fail_correct(&self, u: int) -> bool {
        let f = self.fail(u);
        &&& 0 <= f < self.n()
        &&& self.label(f).is_suffix_of(self.label(u))
        &&& self.label(f).len() < self.label(u).len()
        &&& forall|w: int|
            0 <= w < self.n() && #[trigger] self.label(w).is_suffix_of(self.label(u)) && self.label(
                w,
            ).len() < self.label(u).len() ==> self.label(w).len() <= self.label(f).len()
    }

    closed spec fn fail_ok(&self) -> bool {
        &&& self.fail(0) == 0
        &&& forall|u: int| 0 < u < self.n() ==> #[trigger] self.fail_correct(u)
    }

    /// The automaton's invariant.
    pub closed spec fn wf(&self) -> bool {
        &&& self.trie_shape()
        &&& self.labels_match_patterns()
        &&& self.outputs_ok()
        &&& self.fail(0) == 0
        &&& self.built ==> self.fail_ok()
    }

    pub fn new() -> (dfa: Self)
        ensures
            dfa.wf(),
            !dfa.is_built(),
            dfa@ == Seq::<Seq<TurnTileType>>::empty(),
    {
        let mut nodes = Vec::new();
        nodes.push(Node::new());
        let ghost root_label: Seq<Seq<TurnTileType>> = seq![Seq::empty()];
        let dfa = TileDfa {
            nodes,
            pattern_lens: Vec::new(),
            built: false,
            patterns: Ghost(Seq::empty()),
            labels: Ghost(root_label),
        };
        assert forall|u: int, v: int, t: TurnTileType|
            0 <= u < dfa.n() && 0 <= v < dfa.n() && #[trigger] dfa.label(v)
                == #[trigger] dfa.label(u).push(t) implies dfa.child(u, t) == Some(v as usize) by {
            assert(dfa.label(v).len() == 0);
        }
        dfa
    }

    proof fn lemma_same_trie(&self, other: Self)
        requires
            other.trie_shape(),
            self.nodes@.len() == other.nodes@.len(),
            forall|u: int| 0 <= u < self.n() ==> #[trigger] self.nodes@[u].next == other.nodes@[u].next,
            self.labels == other.labels,
        ensures
            self.trie_shape(),
    {
        assert forall|u: int, t: TurnTileType| 0 <= u < self.n() implies #[trigger] self.child(u, t)
            == other.child(u, t) by {
            assert(self.nodes@[u].next == other.nodes@[u].next);
        }
        assert forall|u: int, t: TurnTileType|
            0 <= u < self.n() && (#[trigger] self.child(u, t)) is Some implies {
                &&& (self.child(u, t)->0 as int) < self.n()
                &&& self.label(self.child(u, t)->0 as int) == self.label(u).push(t)
            } by {
            assert(other.child(u, t) is Some);
        }
        assert forall|u: int, v: int, t: TurnTileType|
            0 <= u < self.n() && 0 <= v < self.n() && #[trigger] self.label(v)
                == #[trigger] self.label(u).push(t) implies self.child(u, t) == Some(v as usize) by {
            assert(other.label(v) == other.label(u).push(t));
        }
        assert forall|u: int, v: int|
            0 <= u < self.n() && 0 <= v < self.n() && #[trigger] self.label(u) == #[trigger] self.label(
                v,
            ) implies u == v by {
            assert(other.label(u) == other.label(v));
        }
    }

    /// Every non-root node hangs below the node labelled with its label minus
    /// the last tile.
    proof fn lemma_parent(&self, v: int) -> (x: int)
        requires
            self.trie_shape(),
            self.labels_match_patterns(),
            0 < v < self.n(),
        ensures
            0 <= x < self.n(),
            self.label(v).len() > 0,
            self.label(x) == self.label(v).drop_last(),
            self.label(v) == self.label(x).push(self.label(v).last()),
            self.child(x, self.label(v).last()) == Some(v as usize),
    {
        assert(self.label(v).len() > 0) by {
            if self.label(v).len() == 0 {
                assert(self.label(v) =~= self.label(0));
            }
        }
        assert(self.label_extends_to_pattern(v));
        let p = choose|p: int|
            0 <= p < self.patterns@.len() && #[trigger] self.label(v).is_prefix_of(
                self.patterns@[p],
            );
        let l = self.label(v).len() as int;
        assert(self.prefix_present(p, l - 1));
        let x = choose|x: int|
            0 <= x < self.n() && #[trigger] self.label(x) == self.patterns@[p].take(l - 1);
        assert(self.label(x) =~= self.label(v).drop_last());
        assert(self.label(v) =~= self.label(x).push(self.label(v).last()));
        x
    }

    /// Node `u` carries the longest suffix of `text` among all node labels.
    closed spec fn is_longest_label_suffix(&self, text: Seq<TurnTileType>, u: int) -> bool {
        &&& 0 <= u < self.n()
        &&& self.label(u).is_suffix_of(text)
        &&& forall|w: int|
            0 <= w < self.n() && #[trigger] self.label(w).is_suffix_of(text) ==> self.label(w).len()
                <= self.label(u).len()
    }

    /// A prefix of a pattern labels some node.
    proof fn lemma_node_of_prefix(&self, s: Seq<TurnTileType>) -> (u: int)
        requires
            self.trie_shape(),
            self.labels_match_patterns(),
            is_pattern_prefix(self.patterns@, s),
        ensures
            0 <= u < self.n(),
            self.label(u) == s,
    {
        if s.len() == 0 {
            assert(self.label(0) =~= s);
            0
        } else {
            let p = choose|p: int| 0 <= p < self.patterns@.len() && s.is_prefix_of(
                #[trigger] self.patterns@[p],
            );
            assert(self.prefix_present(p, s.len() as int));
            let u = choose|u: int|
                0 <= u < self.n() && #[trigger] self.label(u) == self.patterns@[p].take(
                    s.len() as int,
                );
            assert(self.label(u) =~= s);
            u
        }
    }

    /// Every node label is a prefix of a pattern.
    proof fn lemma_label_is_prefix(&self, u: int)
        requires
            self.trie_shape(),
            self.labels_match_patterns(),
            0 <= u < self.n(),
        ensures
            is_pattern_prefix(self.patterns@, self.label(u)),
    {
        if u > 0 {
            assert(self.label_extends_to_pattern(u));
        }
    }

    /// A pattern labels some node.
    proof fn lemma_node_of_pattern(&self, p: int) -> (u: int)
        requires
            self.trie_shape(),
            self.labels_match_patterns(),
            0 <= p < self.patterns@.len(),
        ensures
            0 <= u < self.n(),
            self.label(u) == self.patterns@[p],
    {
        assert(self.patterns@[p].is_prefix_of(self.patterns@[p]));
        self.lemma_node_of_prefix(self.patterns@[p])
    }

    /// The longest suffix among node labels is the longest suffix that is a
    /// pattern prefix.
    proof fn lemma_longest_public(&self, text: Seq<TurnTileType>, u: int)
        requires
            self.trie_shape(),
            self.labels_match_patterns(),
            self.is_longest_label_suffix(text, u),
        ensures
            is_longest_prefix_suffix(self.patterns@, text, self.label(u)),
    {
        self.lemma_label_is_prefix(u);
        assert forall|s2: Seq<TurnTileType>|
            #![trigger s2.is_suffix_of(text), is_pattern_prefix(self.patterns@, s2)]
            s2.is_suffix_of(text) && is_pattern_prefix(self.patterns@, s2) implies s2.len()
                <= self.label(u).len() by {
            let w = self.lemma_node_of_prefix(s2);
            assert(self.label(w).is_suffix_of(text));
        }
    }

    /// Conversely, the public statement gives back the one over node labels.
    proof fn lemma_longest_internal(&self, text: Seq<TurnTileType>, u: int)
        requires
            self.trie_shape(),
            self.labels_match_patterns(),
            0 <= u < self.n(),
            is_longest_prefix_suffix(self.patterns@, text, self.label(u)),
        ensures
            self.is_longest_label_suffix(text, u),
    {
        assert forall|w: int|
            0 <= w < self.n() && #[trigger] self.label(w).is_suffix_of(text) implies self.label(
                w,
            ).len() <= self.label(u).len() by {
            self.lemma_label_is_prefix(w);
        }
    }

    /// Following one tile from the longest label suffix of `text` reaches the
    /// longest label suffix of `text + [t]`.
    proof fn lemma_longest_step(&self, text: Seq<TurnTileType>, u: int, t: TurnTileType, v: int)
        requires
            self.trie_shape(),
            self.labels_match_patterns(),
            self.is_longest_label_suffix(text, u),
            self.is_longest_label_suffix(self.label(u).push(t), v),
        ensures
            self.is_longest_label_suffix(text.push(t), v),
    {
        lemma_suffix_push(self.label(u), text, t);
        lemma_suffix_trans(self.label(v), self.label(u).push(t), text.push(t));
        assert forall|w: int|
            0 <= w < self.n() && #[trigger] self.label(w).is_suffix_of(text.push(t)) implies self.label(
                w,
            ).len() <= self.label(v).len() by {
            if self.label(w).len() > 0 {
                lemma_suffix_pop(self.label(w), text, t);
                let x = self.lemma_parent(w);
                assert(self.label(x).is_suffix_of(text));
                lemma_suffix_of_suffix(self.label(x), self.label(u), text);
                lemma_suffix_push(self.label(x), self.label(u), t);
                assert(self.label(w).is_suffix_of(self.label(u).push(t)));
            }
        }
    }

    /// The states are the pattern prefixes, one each: the start state reads
    /// no tiles, every state reads a prefix of some pattern, every such prefix
    /// is read by a state, and different states read different tiles.
    pub proof fn lemma_states(&self)
        requires
            self.wf(),
        ensures
            self.state_count() >= 1,
            self.state_label(0) == Seq::<TurnTileType>::empty(),
            forall|u: int| 0 <= u < self.state_count() ==> is_pattern_prefix(self@, #[trigger] self.state_label(u)),
            forall|s: Seq<TurnTileType>|
                is_pattern_prefix(self@, s) ==> exists|u: int|
                    0 <= u < self.state_count() && #[trigger] self.state_label(u) == s,
            forall|u: int, v: int|
                0 <= u < self.state_count() && 0 <= v < self.state_count() && #[trigger] self.state_label(u)
                    == #[trigger] self.state_label(v) ==> u == v,
    {
        assert(self.label(0) =~= Seq::<TurnTileType>::empty());
        assert forall|u: int| 0 <= u < self.state_count() implies is_pattern_prefix(
            self@,
            #[trigger] self.state_label(u),
        ) by {
            self.lemma_label_is_prefix(u);
        }
        assert forall|s: Seq<TurnTileType>| is_pattern_prefix(self@, s) implies exists|u: int|
            0 <= u < self.state_count() && #[trigger] self.state_label(u) == s by {
            let u = self.lemma_node_of_prefix(s);
            assert(self.state_label(u) == s);
        }
        assert forall|u: int, v: int|
            0 <= u < self.state_count() && 0 <= v < self.state_count() && #[trigger] self.state_label(u)
                == #[trigger] self.state_label(v) implies u == v by {
            assert(self.label(u) == self.label(v));
        }
    }

    /// Before any tile is read the start state holds the longest pattern
    /// prefix that ends the empty text.
    pub proof fn lemma_start_state(&self)
        requires
            self.wf(),
        ensures
            self.state_label(0) == longest_prefix_suffix(self@, Seq::<TurnTileType>::empty()),
    {
        let e = Seq::<TurnTileType>::empty();
        lemma_longest_prefix_suffix(self@, e);
        self.lemma_states();
        assert(e.is_suffix_of(e));
        assert(is_longest_prefix_suffix(self@, e, e));
    }

    /// Reading texts tile by tile with `transition` keeps each state on the
    /// longest pattern prefix that ends the text read so far: if `s` holds
    /// that prefix for `text`, the state `n` that `transition(s, tile)`
    /// returns holds it for `text` followed by `tile`.
    pub proof fn lemma_transition_tracks(&self, text: Seq<TurnTileType>, s: int, tile: TurnTileType, n: int)
        requires
            self.wf(),
            0 <= s < self.state_count(),
            0 <= n < self.state_count(),
            self.state_label(s) == longest_prefix_suffix(self@, text),
            is_longest_prefix_suffix(self@, self.state_label(s).push(tile), self.state_label(n)),
        ensures
            self.state_label(n) == longest_prefix_suffix(self@, text.push(tile)),
    {
        lemma_longest_prefix_suffix(self@, text);
        lemma_longest_prefix_suffix(self@, text.push(tile));
        self.lemma_longest_internal(text, s);
        self.lemma_longest_internal(self.label(s).push(tile), n);
        self.lemma_longest_step(text, s, tile, n);
        self.lemma_longest_public(text.push(tile), n);
    }

    /// Two texts read to the same state exactly when they end in the same
    /// longest pattern prefix; in particular a text reads to the start state
    /// exactly when no suffix of it but the empty one starts a pattern.
    pub proof fn lemma_same_state(&self, t1: Seq<TurnTileType>, t2: Seq<TurnTileType>, u: int, v: int)
        requires
            self.wf(),
            0 <= u < self.state_count(),
            0 <= v < self.state_count(),
            self.state_label(u) == longest_prefix_suffix(self@, t1),
            self.state_label(v) == longest_prefix_suffix(self@, t2),
        ensures
            (u == v) <==> (longest_prefix_suffix(self@, t1) == longest_prefix_suffix(self@, t2)),
            (u == 0) <==> (longest_prefix_suffix(self@, t1) == Seq::<TurnTileType>::empty()),
    {
        self.lemma_states();
    }

    /// Advance from `state` on `tile` (after `build`): the state reached is
    /// the longest suffix of `state`'s tiles followed by `tile` that is a
    /// prefix of some pattern.
    pub fn transition(&self, state: usize, tile: TurnTileType) -> (next: usize)
        requires
            self.wf(),
            self.is_built(),
            state < self.state_count(),
        ensures
            next < self.state_count(),
            is_longest_prefix_suffix(
                self@,
                self.state_label(state as int).push(tile),
                self.state_label(next as int),
            ),
    {
        let c = tile.alphabet_index();
        let ghost target = self.label(state as int).push(tile);
        let mut s = state;
        proof {
            assert forall|w: int|
                0 <= w < self.n() && #[trigger] self.label(w).is_suffix_of(target) implies self.label(
                    w,
                ).len() <= self.label(s as int).len() + 1 by {}
            assert(self.label(s as int).is_suffix_of(self.label(state as int)));
        }
        loop
            invariant
                self.wf(),
                self.built,
                target == self.label(state as int).push(tile),
                c == tile_index(tile),
                0 <= s < self.n(),
                self.label(s as int).is_suffix_of(self.label(state as int)),
                forall|w: int|
                    0 <= w < self.n() && #[trigger] self.label(w).is_suffix_of(target) ==> self.label(
                        w,
                    ).len() <= self.label(s as int).len() + 1,
            decreases self.label(s as int).len(),
        {
            if let Some(next) = self.nodes[s].next[c] {
                proof {
                    assert(self.child(s as int, tile) == Some(next));
                    lemma_suffix_push(self.label(s as int), self.label(state as int), tile);
                    self.lemma_longest_public(target, next as int);
                }
                return next;
            }
            assert(self.child(s as int, tile) is None);
            if s == 0 {
                proof {
                    assert forall|w: int|
                        0 <= w < self.n() && #[trigger] self.label(w).is_suffix_of(target) implies self.label(
                            w,
                        ).len() <= self.label(0).len() by {
                        if self.label(w).len() == 1 {
                            lemma_suffix_pop(self.label(w), self.label(state as int), tile);
                            assert(self.label(w) =~= self.label(0).push(tile));
                        }
                    }
                    assert(self.label(0) =~= target.subrange(target.len() as int, target.len() as int));
                    self.lemma_longest_public(target, 0);
                }
                return 0;
            }
            let ghost old_s = s as int;
            proof {
                assert(self.fail_correct(old_s));
            }
            s = self.nodes[s].fail;
            proof {
                lemma_suffix_trans(self.label(s as int), self.label(old_s), self.label(state as int));
                assert forall|w: int|
                    0 <= w < self.n() && #[trigger] self.label(w).is_suffix_of(target) implies self.label(
                        w,
                    ).len() <= self.label(s as int).len() + 1 by {
                    if self.label(w).len() > 0 {
                        lemma_suffix_pop(self.label(w), self.label(state as int), tile);
                        let x = self.lemma_parent(w);
                        if self.label(w).len() == self.label(old_s).len() + 1 {
                            lemma_suffix_of_suffix(
                                self.label(old_s),
                                self.label(x),
                                self.label(state as int),
                            );
                            assert(self.label(x) =~= self.label(old_s));
                            assert(self.label(w) == self.label(old_s).push(tile));
                        } else {
                            lemma_suffix_of_suffix(
                                self.label(x),
                                self.label(old_s),
                                self.label(state as int),
                            );
                        }
                    }
                }
            }
        }
    }

    /// All pattern occurrences in `text`, possibly overlapping, ordered by
    /// end, then start, then pattern id. The end index is `i + 1` after
    /// consuming `text[i]`.
    pub fn find_matches(&self, text: &[TurnTileType]) -> (out: Vec<Match>)
        requires
            self.wf(),
            self.is_built(),
        ensures
            forall|k: int| 0 <= k < out@.len() ==> is_occurrence(self@, text@, #[trigger] out@[k]),
            forall|m: Match| is_occurrence(self@, text@, m) ==> #[trigger] out@.contains(m),
            matches_in_order(out@),
    {
        let mut out: Vec<Match> = Vec::new();
        let mut state: usize = 0;
        let mut i: usize = 0;
        proof {
            assert(self.label(0) =~= text@.take(0));
            assert(self.is_longest_label_suffix(text@.take(0), 0));
            assert forall|m: Match|
                is_occurrence(self.patterns@, text@, m) && m.end <= 0 implies #[trigger] out@.contains(
                    m,
                ) by {
                assert(self.pattern_lens@[m.pattern_id as int] == self.patterns@[m.pattern_id as int].len());
            }
        }
        while i < text.len()
            invariant
                self.wf(),
                self.built,
                0 <= i <= text@.len(),
                self.is_longest_label_suffix(text@.take(i as int), state as int),
                forall|k: int|
                    0 <= k < out@.len() ==> is_occurrence(self.patterns@, text@, #[trigger] out@[k])
                        && out@[k].end <= i,
                forall|m: Match|
                    is_occurrence(self.patterns@, text@, m) && m.end <= i ==> #[trigger] out@.contains(
                        m,
                    ),
                matches_in_order(out@),
            decreases text@.len() - i,
        {
            let tile = text[i];
            let ghost prev = state as int;
            state = self.transition(state, tile);
            proof {
                self.lemma_longest_internal(self.label(prev).push(tile), state as int);
                self.lemma_longest_step(text@.take(i as int), prev, tile, state as int);
                assert(text@.take(i as int).push(tile) =~= text@.take(i + 1));
            }
            let end = i + 1;
            let mut f = state;
            let ghost seen = text@.take(end as int);
            proof {
                assert forall|p: int|
                    0 <= p < self.patterns@.len() && #[trigger] self.patterns@[p].is_suffix_of(seen)
                        implies self.patterns@[p].len() <= self.label(f as int).len() by {
                    let w = self.lemma_node_of_pattern(p);
                    assert(self.label(w).is_suffix_of(seen));
                }
            }
            loop
                invariant_except_break
                    forall|p: int|
                        0 <= p < self.patterns@.len() && #[trigger] self.patterns@[p].is_suffix_of(seen)
                            && self.patterns@[p].len() > self.label(f as int).len()
                            ==> out@.contains(match_ending_at(self.patterns@, end as int, p)),
                    forall|k: int|
                        0 <= k < out@.len() ==> (#[trigger] out@[k]).end < end || out@[k].start < end
                            - self.label(f as int).len(),
                invariant
                    self.wf(),
                    self.built,
                    i < text@.len(),
                    end == i + 1,
                    seen == text@.take(end as int),
                    0 <= f < self.n(),
                    self.is_longest_label_suffix(seen, state as int),
                    self.label(f as int).is_suffix_of(seen),
                    forall|k: int|
                        0 <= k < out@.len() ==> is_occurrence(self.patterns@, text@, #[trigger] out@[k])
                            && out@[k].end <= end,
                    forall|m: Match|
                        is_occurrence(self.patterns@, text@, m) && m.end <= i
                            ==> #[trigger] out@.contains(m),
                    matches_in_order(out@),
                ensures
                    forall|p: int|
                        0 <= p < self.patterns@.len() && #[trigger] self.patterns@[p].is_suffix_of(seen)
                            ==> out@.contains(match_ending_at(self.patterns@, end as int, p)),
                decreases self.label(f as int).len(),
            {
                let ghost st = end - self.label(f as int).len();
                let ghost before = out@;
                let mut j: usize = 0;
                while j < self.nodes[f].output.len()
                    invariant
                        self.wf(),
                        self.built,
                        i < text@.len(),
                        end == i + 1,
                        seen == text@.take(end as int),
                        0 <= f < self.n(),
                        st == end - self.label(f as int).len(),
                        self.label(f as int).is_suffix_of(seen),
                        0 <= j <= self.output(f as int).len(),
                        forall|k: int|
                            0 <= k < out@.len() ==> is_occurrence(
                                self.patterns@,
                                text@,
                                #[trigger] out@[k],
                            ) && out@[k].end <= end,
                        forall|m: Match|
                            before.contains(m) ==> #[trigger] out@.contains(m),
                        forall|j2: int|
                            0 <= j2 < j ==> out@.contains(
                                match_ending_at(self.patterns@, end as int, #[trigger] self.output(f as int)[j2] as int),
                            ),
                        matches_in_order(out@),
                        forall|k: int|
                            0 <= k < out@.len() ==> (#[trigger] out@[k]).end < end || out@[k].start < st
                                || (out@[k].start == st && (j < self.output(f as int).len()
                                ==> out@[k].pattern_id < self.output(f as int)[j as int])),
                    decreases self.output(f as int).len() - j,
                {
                    let pid = self.nodes[f].output[j];
                    let len = self.pattern_lens[pid];
                    let start = end.saturating_sub(len);
                    let m = Match { start, end, pattern_id: pid };
                    proof {
                        assert(self.patterns@[pid as int] == self.label(f as int));
                        assert(m == match_ending_at(self.patterns@, end as int, pid as int));
                        assert(text@.subrange(start as int, end as int) =~= self.label(f as int));
                        assert forall|k: int| 0 <= k < out@.len() implies match_precedes(
                            #[trigger] out@[k],
                            m,
                        ) by {}
                        lemma_push_contains(out@, m);
                        if j + 1 < self.output(f as int).len() {
                            assert(self.output(f as int)[j as int] < self.output(f as int)[j + 1]);
                        }
                    }
                    out.push(m);
                    j += 1;
                }
                proof {
                    assert forall|p: int|
                        0 <= p < self.patterns@.len() && #[trigger] self.patterns@[p].is_suffix_of(seen)
                            && self.patterns@[p].len() >= self.label(f as int).len()
                            implies out@.contains(match_ending_at(self.patterns@, end as int, p)) by {
                        if self.patterns@[p].len() == self.label(f as int).len() {
                            lemma_suffix_of_suffix(self.patterns@[p], self.label(f as int), seen);
                            assert(self.patterns@[p] =~= self.label(f as int));
                            assert(self.output(f as int).contains(p as usize));
                            let j2 = choose|j2: int|
                                0 <= j2 < self.output(f as int).len() && self.output(f as int)[j2]
                                    == p as usize;
                            assert(out@.contains(
                                match_ending_at(self.patterns@, end as int, self.output(f as int)[j2] as int),
                            ));
                        } else {
                            assert(before.contains(match_ending_at(self.patterns@, end as int, p)));
                        }
                    }
                }
                if f == 0 {
                    proof {
                        assert forall|p: int|
                            0 <= p < self.patterns@.len() && #[trigger] self.patterns@[p].is_suffix_of(
                                seen,
                            ) implies out@.contains(match_ending_at(self.patterns@, end as int, p)) by {
                            assert(self.pattern_lens@[p] == self.patterns@[p].len());
                        }
                    }
                    break;
                }
                let ghost old_f = f as int;
                proof {
                    assert(self.fail_correct(old_f));
                }
                f = self.nodes[f].fail;
                proof {
                    lemma_suffix_trans(self.label(f as int), self.label(old_f), seen);
                    assert forall|p: int|
                        0 <= p < self.patterns@.len() && #[trigger] self.patterns@[p].is_suffix_of(seen)
                            && self.patterns@[p].len() > self.label(f as int).len()
                            implies out@.contains(match_ending_at(self.patterns@, end as int, p)) by {
                        if self.patterns@[p].len() < self.label(old_f).len() {
                            let w = self.lemma_node_of_pattern(p);
                            lemma_suffix_of_suffix(self.label(w), self.label(old_f), seen);
                        }
                    }
                }
            }
            proof {
                assert forall|m: Match|
                    is_occurrence(self.patterns@, text@, m) && m.end <= end implies #[trigger] out@.contains(
                        m,
                    ) by {
                    if m.end == end {
                        let p = m.pattern_id as int;
                        assert(self.patterns@[p] =~= seen.subrange(
                            seen.len() - self.patterns@[p].len(),
                            seen.len() as int,
                        ));
                        assert(self.patterns@[p].is_suffix_of(seen));
                        assert(m == match_ending_at(self.patterns@, end as int, p));
                    }
                }
            }
            i = end;
        }
        proof {
            assert forall|m: Match| is_occurrence(self@, text@, m) implies #[trigger] out@.contains(m) by {}
        }
        out
    }

    /// Returns true if some pattern occurs as a contiguous subsequence of `text`.
    pub fn is_match(&self, text: &[TurnTileType]) -> (found: bool)
        requires
            self.wf(),
            self.is_built(),
        ensures
            found == exists|m: Match| is_occurrence(self@, text@, m),
    {
        let ms = self.find_matches(text);
        proof {
            if ms@.len() > 0 {
                assert(is_occurrence(self@, text@, ms@[0]));
            }
            if exists|m: Match| is_occurrence(self@, text@, m) {
                let m = choose|m: Match| is_occurrence(self@, text@, m);
                assert(ms@.contains(m));
            }
        }
        !(ms.len() == 0)
    }

    /// `self` differs from `other` at most in failure links.
    closed spec fn same_but_fail(&self, other: Self) -> bool {
        &&& self.nodes@.len() == other.nodes@.len()
        &&& self.labels == other.labels
        &&& self.patterns == other.patterns
        &&& self.pattern_lens == other.pattern_lens
        &&& forall|u: int|
            0 <= u < self.n() ==> #[trigger] self.nodes@[u].next == other.nodes@[u].next
                && self.nodes@[u].output == other.nodes@[u].output
    }

    /// Breadth-first bookkeeping: a node has been queued (and maybe popped)
    /// exactly when its parent has been popped, or is the root. Edges of `r`
    /// with index `c` or above are not handled yet.
    closed spec fn discovered_rule(&self, popped: Seq<usize>, q: Seq<usize>, r: int, c: int) -> bool {
        forall|u: int, t: TurnTileType|
            0 <= u < self.n() && (#[trigger] self.child(u, t)) is Some ==> ((popped.contains(
                self.child(u, t)->0,
            ) || q.contains(self.child(u, t)->0)) <==> ((u == 0 && (r != 0 || tile_index(t) < c))
                || (popped.contains(u as usize) && (u != r || tile_index(t) < c))))
    }

    /// Queue and popped nodes are distinct non-root nodes with correct
    /// failure links; the queue holds at most two consecutive depths in
    /// order, none shallower than a popped node.
    closed spec fn queue_ok(&self, popped: Seq<usize>, q: Seq<usize>) -> bool {
        &&& popped.no_duplicates()
        &&& q.no_duplicates()
        &&& forall|a: int, b: int|
            0 <= a < popped.len() && 0 <= b < q.len() ==> #[trigger] popped[a] != #[trigger] q[b]
        &&& forall|a: int|
            0 <= a < popped.len() ==> 0 < #[trigger] popped[a] < self.n() && self.fail_correct(
                popped[a] as int,
            )
        &&& forall|b: int|
            0 <= b < q.len() ==> 0 < #[trigger] q[b] < self.n() && self.fail_correct(q[b] as int)
        &&& forall|a: int, b: int|
            0 <= a < b < q.len() ==> self.label(#[trigger] q[a] as int).len() <= self.label(
                #[trigger] q[b] as int,
            ).len()
        &&& forall|a: int, b: int|
            0 <= a < q.len() && 0 <= b < q.len() ==> self.label(#[trigger] q[b] as int).len()
                <= self.label(#[trigger] q[a] as int).len() + 1
        &&& forall|a: int, b: int|
            0 <= a < popped.len() && 0 <= b < q.len() ==> self.label(#[trigger] popped[a] as int).len()
                <= self.label(#[trigger] q[b] as int).len()
    }

    proof fn lemma_same_labels(&self, other: Self)
        requires
            other.labels_match_patterns(),
            self.nodes@.len() == other.nodes@.len(),
            self.labels == other.labels,
            self.patterns == other.patterns,
        ensures
            self.labels_match_patterns(),
    {
        assert forall|u: int| 0 < u < self.n() implies #[trigger] self.label_extends_to_pattern(u) by {
            assert(other.label_extends_to_pattern(u));
            let p = choose|p: int|
                0 <= p < other.patterns@.len() && #[trigger] other.label(u).is_prefix_of(
                    other.patterns@[p],
                );
            assert(self.label(u).is_prefix_of(self.patterns@[p]));
        }
        assert forall|p: int, k: int|
            0 <= p < self.patterns@.len() && 0 <= k <= self.patterns@[p].len()
                implies #[trigger] self.prefix_present(p, k) by {
            assert(other.prefix_present(p, k));
            let w = choose|w: int|
                0 <= w < other.n() && #[trigger] other.label(w) == other.patterns@[p].take(k);
            assert(self.label(w) == self.patterns@[p].take(k));
        }
    }

    proof fn lemma_fail_correct_frame(&self, other: Self, w: int)
        requires
            other.fail_correct(w),
            self.nodes@.len() == other.nodes@.len(),
            self.labels == other.labels,
            self.fail(w) == other.fail(w),
        ensures
            self.fail_correct(w),
    {
        assert forall|x: int|
            0 <= x < self.n() && #[trigger] self.label(x).is_suffix_of(self.label(w)) && self.label(
                x,
            ).len() < self.label(w).len() implies self.label(x).len() <= self.label(self.fail(w)).len() by {
            assert(other.label(x).is_suffix_of(other.label(w)));
        }
    }

    /// Queueing a newly linked node keeps the queue in order.
    proof fn lemma_queue_push(&self, pre: Self, popped: Seq<usize>, preq: Seq<usize>, u: int)
        requires
            pre.queue_ok(popped, preq),
            self.nodes@.len() == pre.nodes@.len(),
            self.labels == pre.labels,
            forall|w: int| 0 <= w < self.n() && w != u ==> #[trigger] self.fail(w) == pre.fail(w),
            0 < u < self.n(),
            u <= usize::MAX,
            self.fail_correct(u),
            !preq.contains(u as usize),
            !popped.contains(u as usize),
            forall|b: int|
                0 <= b < preq.len() ==> self.label(#[trigger] preq[b] as int).len() <= self.label(u).len()
                    <= self.label(preq[b] as int).len() + 1,
            forall|a: int| 0 <= a < popped.len() ==> self.label(#[trigger] popped[a] as int).len() <= self.label(u).len(),
        ensures
            self.queue_ok(popped, preq.push(u as usize)),
    {
        let q = preq.push(u as usize);
        assert(q[preq.len() as int] == u as usize);
        assert forall|b: int| 0 <= b < preq.len() implies #[trigger] q[b] == preq[b] && q[b] != u as usize by {
            if preq[b] == u as usize {
                assert(preq.contains(u as usize));
            }
        }
        assert forall|a: int| 0 <= a < popped.len() implies #[trigger] popped[a] != u as usize by {
            if popped[a] == u as usize {
                assert(popped.contains(u as usize));
            }
        }
        assert(q.no_duplicates());
        assert forall|a: int| 0 <= a < popped.len() implies 0 < #[trigger] popped[a] < self.n()
            && self.fail_correct(popped[a] as int) by {
            self.lemma_fail_correct_frame(pre, popped[a] as int);
        }
        assert forall|b: int| 0 <= b < q.len() implies 0 < #[trigger] q[b] < self.n() && self.fail_correct(
            q[b] as int,
        ) by {
            if b < preq.len() {
                self.lemma_fail_correct_frame(pre, preq[b] as int);
            }
        }
        assert forall|a: int, b: int|
            0 <= a < b < q.len() implies self.label(#[trigger] q[a] as int).len() <= self.label(
                #[trigger] q[b] as int,
            ).len() by {
            if b < preq.len() {
                assert(pre.label(preq[a] as int).len() <= pre.label(preq[b] as int).len());
            }
        }
        assert forall|a: int, b: int|
            0 <= a < q.len() && 0 <= b < q.len() implies self.label(#[trigger] q[b] as int).len()
                <= self.label(#[trigger] q[a] as int).len() + 1 by {
            if a < preq.len() && b < preq.len() {
                assert(pre.label(preq[b] as int).len() <= pre.label(preq[a] as int).len() + 1);
            }
        }
        assert forall|a: int, b: int|
            0 <= a < popped.len() && 0 <= b < q.len() implies self.label(#[trigger] popped[a] as int).len()
                <= self.label(#[trigger] q[b] as int).len() by {
            if b < preq.len() {
                assert(pre.label(popped[a] as int).len() <= pre.label(preq[b] as int).len());
            }
        }
    }

    proof fn lemma_same_outputs(&self, other: Self)
        requires
            other.outputs_ok(),
            self.nodes@.len() == other.nodes@.len(),
            self.labels == other.labels,
            self.patterns == other.patterns,
            self.pattern_lens == other.pattern_lens,
            forall|u: int| 0 <= u < self.n() ==> #[trigger] self.output(u) == other.output(u),
        ensures
            self.outputs_ok(),
    {
        assert forall|u: int, j: int|
            0 <= u < self.n() && 0 <= j < self.output(u).len() implies {
                &&& (#[trigger] self.output(u)[j] as int) < self.patterns@.len()
                &&& self.patterns@[self.output(u)[j] as int] == self.label(u)
            } by {
            assert(self.output(u) == other.output(u));
        }
        assert forall|u: int, j1: int, j2: int|
            0 <= u < self.n() && 0 <= j1 < j2 < self.output(u).len() implies #[trigger] self.output(
                u,
            )[j1] < #[trigger] self.output(u)[j2] by {
            assert(self.output(u) == other.output(u));
        }
        assert forall|u: int, p: int|
            0 <= u < self.n() && 0 <= p < self.patterns@.len() && #[trigger] self.label(u)
                == #[trigger] self.patterns@[p] implies self.output(u).contains(p as usize) by {
            assert(self.output(u) == other.output(u));
            assert(other.label(u) == other.patterns@[p]);
        }
    }

    /// Every node no deeper than the queue has been reached.
    proof fn lemma_shallow_found(&self, popped: Seq<usize>, q: Seq<usize>, d: int, w: int)
        requires
            self.trie_shape(),
            self.labels_match_patterns(),
            self.discovered_rule(popped, q, -1, 0),
            forall|b: int| 0 <= b < q.len() ==> self.label(#[trigger] q[b] as int).len() >= d,
            self.n() <= usize::MAX,
            0 <= w < self.n(),
            self.label(w).len() <= d,
        ensures
            w == 0 || popped.contains(w as usize) || q.contains(w as usize),
        decreases self.label(w).len(),
    {
        if w != 0 {
            let x = self.lemma_parent(w);
            self.lemma_shallow_found(popped, q, d, x);
            if q.contains(x as usize) {
                let b = choose|b: int| 0 <= b < q.len() && q[b] == x as usize;
                assert(self.label(x).len() < d);
                assert(q[b] as int == x);
                assert(self.label(q[b] as int).len() >= d);
            }
            assert(self.child(x, self.label(w).last()) is Some);
            assert(x == 0 || popped.contains(x as usize));
            assert(popped.contains(w as usize) || q.contains(w as usize));
        }
    }

    /// Computes the failure link of `u`, the child of `r` by `tile`, from
    /// the failure links of all nodes no deeper than `r`.
    fn link_child(&mut self, r: usize, u: usize, tile: TurnTileType)
        requires
            old(self).trie_shape(),
            old(self).labels_match_patterns(),
            0 < r < old(self).n(),
            0 < u < old(self).n(),
            old(self).child(r as int, tile) == Some(u),
            old(self).fail(0) == 0,
            forall|w: int|
                0 < w < old(self).n() && old(self).label(w).len() <= old(self).label(r as int).len()
                    ==> #[trigger] old(self).fail_correct(w),
        ensures
            final(self).same_but_fail(*old(self)),
            final(self).fail_correct(u as int),
            final(self).built == old(self).built,
            forall|w: int| 0 <= w < old(self).n() && w != u ==> #[trigger] final(self).fail(w) == old(self).fail(w),
    {
        let c = tile.alphabet_index();
        let ghost lu = self.label(u as int);
        let ghost lr = self.label(r as int);
        assert(lu == lr.push(tile));
        assert(self.fail_correct(r as int));
        let mut f = self.nodes[r].fail;
        proof {
            assert forall|w: int|
                0 <= w < self.n() && #[trigger] self.label(w).is_suffix_of(lu) && self.label(w).len()
                    < lu.len() implies self.label(w).len() <= self.label(f as int).len() + 1 by {
                if self.label(w).len() > 0 {
                    lemma_suffix_pop(self.label(w), lr, tile);
                    let x = self.lemma_parent(w);
                }
            }
        }
        loop
            invariant
                self.trie_shape(),
                self.labels_match_patterns(),
                *self == *old(self),
                c == tile_index(tile),
                0 < u < self.nodes@.len(),
                lu == self.label(u as int),
                lr == self.label(r as int),
                lu == lr.push(tile),
                0 <= f < self.n(),
                self.label(f as int).is_suffix_of(lr),
                self.label(f as int).len() < lr.len(),
                self.fail(0) == 0,
                forall|w: int|
                    0 < w < self.n() && self.label(w).len() <= lr.len() ==> #[trigger] self.fail_correct(w),
                forall|w: int|
                    0 <= w < self.n() && #[trigger] self.label(w).is_suffix_of(lu) && self.label(w).len()
                        < lu.len() ==> self.label(w).len() <= self.label(f as int).len() + 1,
            decreases self.label(f as int).len(),
        {
            if let Some(t) = self.nodes[f].next[c] {
                let ghost pre = *self;
                proof {
                    assert(self.child(f as int, tile) == Some(t));
                    lemma_suffix_push(self.label(f as int), lr, tile);
                }
                self.nodes[u].fail = t;
                proof {
                    assert(self.label(t as int) == pre.label(t as int));
                    assert(self.fail(u as int) == t as int);
                    assert forall|w: int|
                        0 <= w < self.n() && #[trigger] self.label(w).is_suffix_of(self.label(u as int))
                            && self.label(w).len() < self.label(u as int).len() implies self.label(w).len()
                            <= self.label(self.fail(u as int)).len() by {
                        assert(pre.label(w).is_suffix_of(lu));
                    }
                    assert forall|w: int| 0 <= w < self.n() implies #[trigger] self.nodes@[w].next
                        == pre.nodes@[w].next && self.nodes@[w].output == pre.nodes@[w].output by {}
                }
                return;
            }
            if f == 0 {
                let ghost pre = *self;
                self.nodes[u].fail = 0;
                proof {
                    assert(self.label(0) =~= lu.subrange(lu.len() as int, lu.len() as int));
                    assert forall|w: int|
                        0 <= w < self.n() && #[trigger] self.label(w).is_suffix_of(self.label(u as int))
                            && self.label(w).len() < self.label(u as int).len() implies self.label(w).len()
                            <= self.label(self.fail(u as int)).len() by {
                        assert(pre.label(w).is_suffix_of(lu));
                        if self.label(w).len() == 1 {
                            lemma_suffix_pop(self.label(w), lr, tile);
                            assert(self.label(w) =~= self.label(0).push(tile));
                            assert(pre.child(0, tile) == Some(w as usize));
                        }
                    }
                    assert forall|w: int| 0 <= w < self.n() implies #[trigger] self.nodes@[w].next
                        == pre.nodes@[w].next && self.nodes@[w].output == pre.nodes@[w].output by {}
                }
                return;
            }
            let ghost old_f = f as int;
            proof {
                assert(self.fail_correct(old_f));
            }
            f = self.nodes[f].fail;
            proof {
                lemma_suffix_trans(self.label(f as int), self.label(old_f), lr);
                assert forall|w: int|
                    0 <= w < self.n() && #[trigger] self.label(w).is_suffix_of(lu) && self.label(w).len()
                        < lu.len() implies self.label(w).len() <= self.label(f as int).len() + 1 by {
                    if self.label(w).len() > 0 {
                        lemma_suffix_pop(self.label(w), lr, tile);
                        let x = self.lemma_parent(w);
                        if self.label(w).len() == self.label(old_f).len() + 1 {
                            lemma_suffix_of_suffix(self.label(old_f), self.label(x), lr);
                            assert(self.label(x) =~= self.label(old_f));
                            assert(self.label(w) == self.label(old_f).push(tile));
                        } else {
                            lemma_suffix_of_suffix(self.label(x), self.label(old_f), lr);
                        }
                    }
                }
            }
        }
    }

    /// Build failure links (breadth first). Required before matching.
    pub fn build(&mut self)
        requires
            old(self).wf(),
            !old(self).is_built(),
        ensures
            final(self).wf(),
            final(self).is_built(),
            final(self)@ == old(self)@,
    {
        self.built = true;
        let n = self.nodes.len();
        let mut q: VecDeque<usize> = VecDeque::new();
        let root: usize = 0;
        let ghost empty: Seq<usize> = Seq::empty();
        let mut c: usize = 0;
        proof {
            assert forall|u: int| 0 <= u < self.n() implies #[trigger] self.nodes@[u].next
                == old(self).nodes@[u].next && self.nodes@[u].output == old(self).nodes@[u].output by {}
            self.lemma_same_trie(*old(self));
            self.lemma_same_labels(*old(self));
        }
        while c < TurnTileType::ALPHABET_LEN
            invariant
                old(self).wf(),
                root == 0,
                empty == Seq::<usize>::empty(),
                self.same_but_fail(*old(self)),
                self.trie_shape(),
                self.labels_match_patterns(),
                self.built,
                n == self.n(),
                self.fail(0) == 0,
                0 <= c <= 3,
                self.queue_ok(empty, q@),
                self.discovered_rule(empty, q@, 0, c as int),
                forall|b: int| 0 <= b < q@.len() ==> self.label(#[trigger] q@[b] as int).len() == 1,
            decreases 3 - c,
        {
            let ghost t = tile_of_index(c as int);
            assert(tile_index(t) == c);
            if let Some(u) = self.nodes[root].next[c] {
                let ghost pre = *self;
                let ghost preq = q@;
                assert(self.child(0, t) == Some(u));
                assert(self.label(u as int) =~= seq![t]);
                assert(u != 0) by {
                    assert(self.label(0).len() == 0);
                }
                self.nodes[u].fail = root;
                q.push_back(u);
                proof {
                    assert forall|w: int| 0 <= w < self.n() implies #[trigger] self.nodes@[w].next
                        == pre.nodes@[w].next && self.nodes@[w].output == pre.nodes@[w].output by {}
                    assert forall|w: int| 0 <= w < self.n() && w != u implies #[trigger] self.fail(w)
                        == pre.fail(w) by {}
                    assert(self.label(0) =~= self.label(u as int).subrange(1, 1));
                    assert(self.fail_correct(u as int));
                    assert(!preq.contains(u));
                    self.lemma_same_trie(pre);
                    self.lemma_same_labels(pre);
                    self.lemma_queue_push(pre, empty, preq, u as int);
                    assert forall|uu: int, tt: TurnTileType|
                        0 <= uu < self.n() && (#[trigger] self.child(uu, tt)) is Some implies ((
                        empty.contains(self.child(uu, tt)->0) || q@.contains(self.child(uu, tt)->0))
                            <==> ((uu == 0 && (0 != 0 || tile_index(tt) < c + 1)) || (empty.contains(
                            uu as usize) && (uu != 0 || tile_index(tt) < c + 1)))) by {
                        assert(self.child(uu, tt) == pre.child(uu, tt));
                        let v = self.child(uu, tt)->0;
                        assert(pre.discovered_rule(empty, preq, 0, c as int));
                        assert((empty.contains(v) || preq.contains(v)) <==> (uu == 0 && tile_index(tt) < c));
                        assert(q@.contains(v) <==> (preq.contains(v) || v == u)) by {
                            if v == u {
                                assert(q@[preq.len() as int] == u);
                            }
                            if preq.contains(v) {
                                let b = choose|b: int| 0 <= b < preq.len() && preq[b] == v;
                                assert(q@[b] == v);
                            }
                            if q@.contains(v) && v != u {
                                let b = choose|b: int| 0 <= b < q@.len() && q@[b] == v;
                                assert(preq[b] == v);
                            }
                        }
                        if v == u {
                            assert(self.label(v as int) == self.label(uu).push(tt));
                            assert(self.label(uu) =~= self.label(v as int).drop_last());
                            assert(self.label(uu) =~= self.label(0));
                            assert(self.label(v as int).last() == tt);
                            assert(self.label(u as int).last() == t);
                            assert(tt == t);
                        }
                        if q@.contains(v) && v != u {
                            let b = choose|b: int| 0 <= b < q@.len() && q@[b] == v;
                            assert(preq[b] == v);
                        }
                        if v != u && tile_index(tt) == c {
                            assert(tt == t);
                        }
                        if preq.contains(v) {
                            let b = choose|b: int| 0 <= b < preq.len() && preq[b] == v;
                            assert(q@[b] == v);
                        }
                    }
                }
            }
            c += 1;
        }
        let ghost mut popped: Seq<usize> = Seq::empty();
        assert(self.discovered_rule(popped, q@, -1, 0));
        loop
            invariant
                old(self).wf(),
                self.same_but_fail(*old(self)),
                self.trie_shape(),
                self.labels_match_patterns(),
                self.built,
                n == self.n(),
                self.fail(0) == 0,
                self.queue_ok(popped, q@),
                self.discovered_rule(popped, q@, -1, 0),
            ensures
                q@.len() == 0,
            decreases n - popped.len(),
        {
            let ghost preq = q@;
            let r = match q.pop_front() {
                Some(r) => r,
                None => break,
            };
            let ghost d = self.label(r as int).len() as int;
            proof {
                assert(preq[0] == r);
                assert forall|w: int|
                    0 < w < self.n() && self.label(w).len() <= d implies #[trigger] self.fail_correct(w) by {
                    assert forall|b: int| 0 <= b < preq.len() implies self.label(#[trigger] preq[b] as int).len()
                        >= d by {
                        if b > 0 {
                            assert(self.label(preq[0] as int).len() <= self.label(preq[b] as int).len());
                        }
                    }
                    self.lemma_shallow_found(popped, preq, d, w);
                    if popped.contains(w as usize) {
                        let a = choose|a: int| 0 <= a < popped.len() && popped[a] == w as usize;
                        assert(self.fail_correct(popped[a] as int));
                    } else {
                        let b = choose|b: int| 0 <= b < preq.len() && preq[b] == w as usize;
                        assert(self.fail_correct(preq[b] as int));
                    }
                }
                lemma_distinct_bounded(popped.push(r), n as nat);
                let ghost old_popped = popped;
                popped = popped.push(r);
                assert forall|x: usize| #[trigger] popped.contains(x) <==> (old_popped.contains(x) || x == r) by {
                    if old_popped.contains(x) {
                        let a = choose|a: int| 0 <= a < old_popped.len() && old_popped[a] == x;
                        assert(popped[a] == x);
                    }
                    if popped.contains(x) && x != r {
                        let a = choose|a: int| 0 <= a < popped.len() && popped[a] == x;
                        assert(old_popped[a] == x);
                    }
                    assert(popped[popped.len() - 1] == r);
                }
                assert forall|x: usize| #[trigger] q@.contains(x) <==> (preq.contains(x) && x != r) by {
                    if q@.contains(x) {
                        let b = choose|b: int| 0 <= b < q@.len() && q@[b] == x;
                        assert(preq[b + 1] == x);
                    }
                    if preq.contains(x) && x != r {
                        let b = choose|b: int| 0 <= b < preq.len() && preq[b] == x;
                        assert(q@[b - 1] == x);
                    }
                }
                assert forall|u: int, tt: TurnTileType|
                    0 <= u < self.n() && (#[trigger] self.child(u, tt)) is Some implies ((popped.contains(
                        self.child(u, tt)->0,
                    ) || q@.contains(self.child(u, tt)->0)) <==> ((u == 0 && (r != 0 || tile_index(tt) < 0))
                        || (popped.contains(u as usize) && (u != r || tile_index(tt) < 0)))) by {
                    assert(popped.contains(u as usize) <==> (old_popped.contains(u as usize) || u == r));
                }
            }
            let mut c: usize = 0;
            while c < TurnTileType::ALPHABET_LEN
                invariant
                    old(self).wf(),
                    self.same_but_fail(*old(self)),
                    self.trie_shape(),
                    self.labels_match_patterns(),
                    self.built,
                    n == self.n(),
                    self.fail(0) == 0,
                    0 <= c <= 3,
                    0 < r < n,
                    popped.len() > 0,
                    popped.last() == r,
                    d == self.label(r as int).len(),
                    forall|a: int| 0 <= a < popped.len() ==> self.label(#[trigger] popped[a] as int).len() <= d,
                    self.queue_ok(popped, q@),
                    self.discovered_rule(popped, q@, r as int, c as int),
                    forall|b: int| 0 <= b < q@.len() ==> d <= self.label(#[trigger] q@[b] as int).len() <= d + 1,
                    forall|w: int|
                        0 < w < self.n() && self.label(w).len() <= d ==> #[trigger] self.fail_correct(w),
                decreases 3 - c,
            {
                let t = tile_at_index(c);
                if let Some(u) = self.nodes[r].next[c] {
                    let ghost pre = *self;
                    let ghost preq = q@;
                    assert(self.child(r as int, t) == Some(u));
                    assert(self.label(u as int) == self.label(r as int).push(t));
                    assert(u != 0) by {
                        assert(self.label(0).len() == 0);
                    }
                    self.link_child(r, u, t);
                    q.push_back(u);
                    proof {
                        assert(!preq.contains(u) && !popped.contains(u));
                        self.lemma_same_trie(pre);
                        self.lemma_same_labels(pre);
                        assert(self.same_but_fail(*old(self))) by {
                            assert forall|w: int| 0 <= w < self.n() implies #[trigger] self.nodes@[w].next
                                == old(self).nodes@[w].next && self.nodes@[w].output == old(self).nodes@[w].output by {
                                assert(self.nodes@[w].next == pre.nodes@[w].next);
                            }
                        }
                        assert forall|w: int| 0 < w < self.n() && w != u && #[trigger] pre.fail_correct(w)
                            implies self.fail_correct(w) by {
                            assert(self.fail(w) == pre.fail(w));
                            self.lemma_fail_correct_frame(pre, w);
                        }
                        assert forall|w: int|
                            0 < w < self.n() && self.label(w).len() <= d implies #[trigger] self.fail_correct(w) by {
                            assert(pre.fail_correct(w));
                        }
                        assert forall|a: int| 0 <= a < popped.len() implies 0 < #[trigger] popped[a] < self.n()
                            && self.fail_correct(popped[a] as int) by {
                            assert(pre.fail_correct(popped[a] as int));
                            assert(popped[a] != u);
                        }
                        self.lemma_queue_push(pre, popped, preq, u as int);
                        assert forall|uu: int, tt: TurnTileType|
                            0 <= uu < self.n() && (#[trigger] self.child(uu, tt)) is Some implies ((
                            popped.contains(self.child(uu, tt)->0) || q@.contains(self.child(uu, tt)->0))
                                <==> ((uu == 0 && (r != 0 || tile_index(tt) < c + 1)) || (popped.contains(
                                uu as usize) && (uu != r || tile_index(tt) < c + 1)))) by {
                            assert(self.child(uu, tt) == pre.child(uu, tt));
                            let v = self.child(uu, tt)->0;
                            assert(pre.discovered_rule(popped, preq, r as int, c as int));
                            assert((popped.contains(v) || preq.contains(v)) <==> ((uu == 0 && (r != 0 || tile_index(tt) < c))
                                || (popped.contains(uu as usize) && (uu != r || tile_index(tt) < c))));
                            assert(q@.contains(v) <==> (preq.contains(v) || v == u)) by {
                                if v == u {
                                    assert(q@[preq.len() as int] == u);
                                }
                                if preq.contains(v) {
                                    let b = choose|b: int| 0 <= b < preq.len() && preq[b] == v;
                                    assert(q@[b] == v);
                                }
                                if q@.contains(v) && v != u {
                                    let b = choose|b: int| 0 <= b < q@.len() && q@[b] == v;
                                    assert(preq[b] == v);
                                }
                            }
                            if v == u {
                                assert(self.label(v as int) == self.label(uu).push(tt));
                                assert(self.label(uu) =~= self.label(v as int).drop_last());
                                assert(self.label(uu) =~= self.label(r as int));
                                assert(self.label(v as int).last() == tt);
                            assert(self.label(u as int).last() == t);
                            assert(tt == t);
                            }
                            if q@.contains(v) && v != u {
                                let b = choose|b: int| 0 <= b < q@.len() && q@[b] == v;
                                assert(preq[b] == v);
                            }
                            if v != u && tile_index(tt) == c {
                                assert(tt == t);
                            }
                            if preq.contains(v) {
                                let b = choose|b: int| 0 <= b < preq.len() && preq[b] == v;
                                assert(q@[b] == v);
                            }
                        }
                    }
                }
                c += 1;
            }
        }
        proof {
            assert forall|w: int| 0 < w < self.n() implies #[trigger] self.fail_correct(w) by {
                self.lemma_shallow_found(popped, q@, self.label(w).len() as int, w);
                let a = choose|a: int| 0 <= a < popped.len() && popped[a] == w as usize;
                assert(self.fail_correct(popped[a] as int));
            }
            assert forall|u: int| 0 <= u < self.n() implies #[trigger] self.output(u) == old(self).output(u) by {
                assert(self.nodes@[u].next == old(self).nodes@[u].next);
                assert(self.nodes@[u].output == old(self).nodes@[u].output);
            }
            self.lemma_same_outputs(*old(self));
        }
    }

    /// Insert a pattern; returns its id. Call [`build`](Self::build) after all
    /// patterns are added. Empty patterns are not supported.
    #[verifier::spinoff_prover]
    pub fn add_pattern(&mut self, pattern: &[TurnTileType]) -> (id: usize)
        requires
            old(self).wf(),
            !old(self).is_built(),
            pattern@.len() > 0,
        ensures
            final(self).wf(),
            !final(self).is_built(),
            final(self)@ == old(self)@.push(pattern@),
            id == old(self)@.len(),
    {
        let id = self.pattern_lens.len();
        self.pattern_lens.push(pattern.len());
        self.patterns = Ghost(self.patterns@.push(pattern@));
        let ghost old_n = old(self).n();
        proof {
            self.lemma_same_trie(*old(self));
        }
        let mut state: usize = 0;
        let mut i: usize = 0;
        assert(self.label(0) =~= pattern@.take(0));
        while i < pattern.len()
            invariant
                old(self).wf(),
                self.trie_shape(),
                self.fail(0) == 0,
                !self.built,
                self.patterns@ == old(self).patterns@.push(pattern@),
                self.pattern_lens@ == old(self).pattern_lens@.push(pattern@.len() as usize),
                id == old(self).patterns@.len(),
                0 <= i <= pattern@.len(),
                0 <= state < self.n(),
                self.label(state as int) == pattern@.take(i as int),
                self.n() >= old_n,
                old_n == old(self).n(),
                forall|u: int|
                    0 <= u < old_n ==> #[trigger] self.label(u) == old(self).label(u)
                        && self.output(u) == old(self).output(u),
                forall|u: int|
                    old_n <= u < self.n() ==> (#[trigger] self.label(u)).is_prefix_of(pattern@)
                        && self.label(u).len() <= i && self.output(u).len() == 0,
                forall|k: int| 0 <= k <= i ==> #[trigger] self.prefix_present(id as int, k),
            decreases pattern@.len() - i,
        {
            let tile = pattern[i];
            let c = tile.alphabet_index();
            let ghost pre = *self;
            match self.nodes[state].next[c] {
                Some(nx) => {
                    assert(self.child(state as int, tile) == Some(nx));
                    state = nx;
                },
                None => {
                    let n = self.nodes.len();
                    self.nodes[state].next[c] = Some(n);
                    self.nodes.push(Node::new());
                    self.labels = Ghost(self.labels@.push(self.labels@[state as int].push(tile)));
                    proof {
                        assert(self.child(state as int, tile) == Some(n));
                        assert(self.n() == n + 1);
                        assert forall|u: int| 0 <= u < n implies #[trigger] self.label(u) == pre.label(u)
                            && self.output(u) == pre.output(u)
                            && (u != state ==> self.nodes@[u].next == pre.nodes@[u].next) by {}
                        assert forall|u: int, t: TurnTileType|
                            0 <= u < n && !(u == state && t == tile) implies #[trigger] self.child(u, t)
                            == pre.child(u, t) by {
                            if u == state {
                                assert(tile_index(t) != tile_index(tile));
                            }
                        }
                        assert forall|u: int, t: TurnTileType|
                            0 <= u < self.n() && (#[trigger] self.child(u, t)) is Some implies {
                                &&& (self.child(u, t)->0 as int) < self.n()
                                &&& self.label(self.child(u, t)->0 as int) == self.label(u).push(t)
                            } by {
                            if u < n && !(u == state && t == tile) {
                                assert(self.child(u, t) == pre.child(u, t));
                            }
                            if u == n {
                                assert(self.child(u, t) is None);
                            }
                        }
                        assert forall|u: int, v: int|
                            0 <= u < self.n() && 0 <= v < self.n() && #[trigger] self.label(u)
                                == #[trigger] self.label(v) implies u == v by {
                            if u == n && v < n {
                                assert(pre.label(v) == pre.label(state as int).push(tile));
                            }
                            if v == n && u < n {
                                assert(pre.label(u) == pre.label(state as int).push(tile));
                            }
                            if u < n && v < n {
                                assert(pre.label(u) == pre.label(v));
                            }
                        }
                        assert forall|u: int, v: int, t: TurnTileType|
                            0 <= u < self.n() && 0 <= v < self.n() && #[trigger] self.label(v)
                                == #[trigger] self.label(u).push(t) implies self.child(u, t) == Some(
                                v as usize,
                            ) by {
                            if v == n {
                                assert(self.label(u) =~= self.label(v).drop_last());
                                assert(self.label(state as int) =~= self.label(v).drop_last());
                                assert(u == state);
                                assert(t == self.label(v).last());
                                assert(tile == self.label(v).last());
                            } else if u == n {
                                if v < old_n {
                                    if v == 0 {
                                        assert(self.label(v).len() == 0);
                                    } else {
                                        let x = old(self).lemma_parent(v);
                                        assert(pre.label(v) == old(self).label(v));
                                        assert(pre.label(x) == old(self).label(x));
                                        assert(self.label(v).drop_last() =~= self.label(u));
                                        assert(self.label(x) =~= self.label(u));
                                        assert(pre.label(x) == pre.label(state as int).push(tile));
                                    }
                                } else {
                                    assert(self.label(v) == pre.label(v));
                                    assert(pre.label(v).len() <= i);
                                    assert(self.label(u).len() == i + 1);
                                }
                            } else {
                                assert(self.label(v) == pre.label(v));
                                assert(self.label(u) == pre.label(u));
                                assert(pre.label(v) == pre.label(u).push(t));
                                assert(pre.child(u, t) == Some(v as usize));
                                if u == state && t == tile {
                                    assert(pre.child(u, t) is None);
                                }
                                assert(self.child(u, t) == pre.child(u, t));
                            }
                        }
                    }
                    state = n;
                },
            }
            proof {
                assert forall|u: int| 0 <= u < old_n implies #[trigger] self.label(u) == old(self).label(u)
                    && self.output(u) == old(self).output(u) by {
                    assert(pre.label(u) == old(self).label(u));
                    assert(self.label(u) == pre.label(u));
                }
                assert forall|u: int| old_n <= u < self.n() implies (#[trigger] self.label(u)).is_prefix_of(pattern@)
                    && self.label(u).len() <= i + 1 && self.output(u).len() == 0 by {
                    if u < pre.n() {
                        assert(pre.label(u).is_prefix_of(pattern@));
                    } else {
                        assert(self.label(u) == pattern@.take(i + 1));
                    }
                }
                assert(self.label(state as int) =~= pattern@.take(i + 1));
                assert(self.prefix_present(id as int, i + 1));
                assert forall|k: int| 0 <= k <= i + 1 implies #[trigger] self.prefix_present(
                    id as int,
                    k,
                ) by {
                    if k <= i {
                        assert(pre.prefix_present(id as int, k));
                        let w = choose|w: int|
                            0 <= w < pre.n() && #[trigger] pre.label(w)
                                == pre.patterns@[id as int].take(k);
                        assert(self.label(w) == self.patterns@[id as int].take(k));
                    }
                }
            }
            i += 1;
        }
        assert(self.label(state as int) =~= pattern@);
        let ghost mid = *self;
        self.nodes[state].output.push(id);
        proof {
            assert(self.labels == mid.labels);
            assert(self.patterns == mid.patterns);
            assert(self.nodes@.len() == mid.nodes@.len());
            assert forall|u: int| 0 <= u < self.n() implies #[trigger] self.label(u) == mid.label(u)
                && (u != state ==> self.output(u) == mid.output(u)) by {}
            assert(self.output(state as int) == mid.output(state as int).push(id));
            assert forall|u: int| 0 <= u < old_n implies #[trigger] self.label(u) == old(self).label(u)
                && (u != state ==> self.output(u) == old(self).output(u))
                && (u == state ==> self.output(u) == old(self).output(u).push(id)) by {
                assert(mid.label(u) == old(self).label(u));
            }
            assert forall|u: int| old_n <= u < self.n() implies (#[trigger] self.label(u)).is_prefix_of(pattern@)
                && (u != state ==> self.output(u).len() == 0)
                && (u == state ==> self.output(u) == seq![id]) by {
                assert(mid.label(u).is_prefix_of(pattern@));
            }
            assert forall|p: int| 0 <= p < id implies #[trigger] self.patterns@[p] == old(self).patterns@[p] by {}
            self.lemma_same_trie(mid);
            assert(self.patterns@[id as int] == pattern@);
            // labels_match_patterns
            assert forall|u: int| 0 < u < self.n() implies #[trigger] self.label_extends_to_pattern(
                u,
            ) by {
                if u < old_n {
                    assert(old(self).label_extends_to_pattern(u));
                    let p = choose|p: int|
                        0 <= p < old(self).patterns@.len() && #[trigger] old(self).label(
                            u,
                        ).is_prefix_of(old(self).patterns@[p]);
                    assert(mid.label(u) == old(self).label(u));
                    assert(self.patterns@[p] == old(self).patterns@[p]);
                    assert(self.label(u).is_prefix_of(self.patterns@[p]));
                } else {
                    assert(self.label(u).is_prefix_of(self.patterns@[id as int]));
                }
            }
            assert forall|p: int, k: int|
                0 <= p < self.patterns@.len() && 0 <= k <= self.patterns@[p].len()
                    implies #[trigger] self.prefix_present(p, k) by {
                if p < id {
                    assert(old(self).prefix_present(p, k));
                    let w = choose|w: int|
                        0 <= w < old(self).n() && #[trigger] old(self).label(w)
                            == old(self).patterns@[p].take(k);
                    assert(self.label(w) == old(self).label(w));
                    assert(self.patterns@[p] == old(self).patterns@[p]);
                    assert(0 <= w < self.n());
                    assert(self.label(w) == self.patterns@[p].take(k));
                } else {
                    assert(mid.prefix_present(p, k));
                    let w = choose|w: int|
                        0 <= w < mid.n() && #[trigger] mid.label(w) == mid.patterns@[p].take(k);
                    assert(self.label(w) == mid.label(w));
                }
            }
            // outputs_ok
            assert forall|u: int, j: int|
                0 <= u < self.n() && 0 <= j < self.output(u).len() implies {
                    &&& (#[trigger] self.output(u)[j] as int) < self.patterns@.len()
                    &&& self.patterns@[self.output(u)[j] as int] == self.label(u)
                } by {
                if u < old_n && u != state {
                    assert(self.label(u) == old(self).label(u));
                    assert(self.output(u)[j] == old(self).output(u)[j]);
                    let x = old(self).output(u)[j] as int;
                    assert(self.patterns@[x] == old(self).patterns@[x]);
                } else if u < old_n && j < self.output(u).len() - 1 {
                    assert(self.label(u) == old(self).label(u));
                    assert(self.output(u) == old(self).output(u).push(id));
                    assert(self.output(u)[j] == old(self).output(u)[j]);
                    let x = old(self).output(u)[j] as int;
                    assert(self.patterns@[x] == old(self).patterns@[x]);
                } else if u < old_n {
                    assert(self.label(u) == old(self).label(u));
                    assert(self.output(u) == old(self).output(u).push(id));
                    assert(self.output(u)[j] == id);
                } else {
                    assert(self.label(u).is_prefix_of(pattern@));
                    assert(u == state);
                    assert(self.output(u)[j] == id);
                }
            }
            assert forall|u: int, j1: int, j2: int|
                0 <= u < self.n() && 0 <= j1 < j2 < self.output(u).len() implies #[trigger] self.output(
                    u,
                )[j1] < #[trigger] self.output(u)[j2] by {
                if u == state {
                    if j2 == self.output(u).len() - 1 {
                        if u < old_n {
                            assert(self.output(u)[j1] == old(self).output(u)[j1]);
                            assert((old(self).output(u)[j1] as int) < old(self).patterns@.len());
                        }
                    } else {
                        assert(self.output(u)[j1] == old(self).output(u)[j1]);
                        assert(self.output(u)[j2] == old(self).output(u)[j2]);
                    }
                } else if u < old_n {
                    assert(self.output(u)[j1] == old(self).output(u)[j1]);
                    assert(self.output(u)[j2] == old(self).output(u)[j2]);
                }
            }
            assert forall|u: int, p: int|
                0 <= u < self.n() && 0 <= p < self.patterns@.len() && #[trigger] self.label(u)
                    == #[trigger] self.patterns@[p] implies self.output(u).contains(p as usize) by {
                if p == id {
                    assert(self.label(u) == self.label(state as int));
                    assert(self.output(u).last() == id);
                } else {
                    assert(old(self).prefix_present(p, old(self).patterns@[p].len() as int));
                    let w = choose|w: int|
                        0 <= w < old(self).n() && #[trigger] old(self).label(w)
                            == old(self).patterns@[p].take(old(self).patterns@[p].len() as int);
                    assert(old(self).patterns@[p].take(old(self).patterns@[p].len() as int)
                        =~= old(self).patterns@[p]);
                    assert(self.label(w) == self.label(u));
                    assert(u == w);
                    assert(old(self).output(u).contains(p as usize));
                    let j = choose|j: int|
                        0 <= j < old(self).output(u).len() && old(self).output(u)[j] == p as usize;
                    assert(self.output(u)[j] == p as usize);
                }
            }
        }
        id
    }
}

} // verus!
