//! Game-level rules and board text used by the player interface: wins, the
//! compact board encoding, the AI's move, the board's decorations and what
//! each displayed cell shows, and the phases of a game at the board.

use vstd::prelude::*;
use crate::board::{
    capture_direction, captures_through, lemma_captures_shape, lemma_cell_distinct, captures_spec, cell_tile, compact_grid, digits_value, dims_result, grid_tiles, header_len, is_digit,
    lemma_cell_in_board, unsigned_digits, usize_value, x_pos, BoardState,
};
use crate::evaluation::{
    apply_changes, cell_key, child_model, lemma_child_scores, move_captures, move_changes, overlay, MoveSetModel,
    board_size_ok, default_automaton, default_patterns, default_weights, full_scan_fits, root_fits, scanned_before,
    PatternScorer,
};
use crate::search::{best_move, root_model, search_fits, Search};
use crate::text::{decimal, digit_char, is_space, push_decimal, strip_spaces, trim, trim_back, trim_front};
use crate::tile::{opponent, stone_of, PlayerType, TileType};

verus! {

/// Side length of the board the interface plays on.
pub const BOARD_SIZE: usize = 19;

/// Search depth of the interface's AI opponent.
pub const AI_DEPTH: usize = 2;

/// Captured pairs that win the game.
pub const WINNING_CAPTURES: u32 = 5;

/// The four line directions a row of five is looked for in, in order:
/// right, down, down-right, down-left.
pub open spec fn five_direction(k: int) -> (int, int) {
    if k == 0 {
        (0, 1)
    } else if k == 1 {
        (1, 0)
    } else if k == 2 {
        (1, 1)
    } else {
        (1, -1)
    }
}

/// A stone stands at (r, c) and the next four points in direction `k` hold
/// the same stone.
pub open spec fn five_at(board: BoardState, r: int, c: int, k: int) -> bool {
    let (dr, dc) = five_direction(k);
    &&& 0 <= r < board.height
    &&& 0 <= c < board.width
    &&& 0 <= k < 4
    &&& board.tile(r, c) != TileType::Empty
    &&& 0 <= r + 4 * dr < board.height
    &&& 0 <= c + 4 * dc < board.width
    &&& forall|i: int| 1 <= i < 5 ==> #[trigger] board.tile(r + dr * i, c + dc * i) == board.tile(r, c)
}

/// Some row of five starts at (r, c).
pub open spec fn five_starts_at(board: BoardState, r: int, c: int) -> bool {
    exists|k: int| five_at(board, r, c, k)
}

/// The player whose stone is `t`.
pub open spec fn owner(t: TileType) -> PlayerType {
    if t == TileType::White {
        PlayerType::White
    } else {
        PlayerType::Black
    }
}

/// The result of [`five_in_a_row`]: the owner of the first point, in row
/// order, from which a row of five starts, if any.
pub open spec fn five_in_a_row_result(board: BoardState, result: Option<PlayerType>) -> bool {
    match result {
        None => forall|r: int, c: int| !#[trigger] five_starts_at(board, r, c),
        Some(p) => exists|r: int, c: int|
            {
                &&& #[trigger] five_starts_at(board, r, c)
                &&& owner(board.tile(r, c)) == p
                &&& forall|r2: int, c2: int|
                    #[trigger] five_starts_at(board, r2, c2) ==> !scanned_before(r2, c2, r, c)
            },
    }
}

fn five_direction_exec(k: usize) -> (d: (isize, isize))
    requires
        k < 4,
    ensures
        d.0 == five_direction(k as int).0,
        d.1 == five_direction(k as int).1,
{
    if k == 0 {
        (0, 1)
    } else if k == 1 {
        (1, 0)
    } else if k == 2 {
        (1, 1)
    } else {
        (1, -1)
    }
}

/// Whether a row of five starts at (row, col) in direction `k`.
fn five_at_exec(board: &BoardState, row: usize, col: usize, k: usize) -> (b: bool)
    requires
        board.wf(),
        row < board.height,
        col < board.width,
        k < 4,
    ensures
        b == five_at(*board, row as int, col as int, k as int),
{
    proof {
        lemma_cell_in_board(board.width as int, board.height as int, row as int, col as int);
    }
    let tile = board.get_tile(row, col);
    if tile == TileType::Empty {
        return false;
    }
    let (dr, dc) = five_direction_exec(k);
    // The row of five stays on the board exactly when its far end does.
    if board.height - row < 5 && dr == 1 {
        return false;
    }
    if dc == 1 && board.width - col < 5 {
        return false;
    }
    if dc == -1 && col < 4 {
        return false;
    }
    let ghost (sdr, sdc) = five_direction(k as int);
    let mut i: usize = 1;
    while i < 5
        invariant
            board.wf(),
            row < board.height,
            col < board.width,
            k < 4,
            dr == sdr,
            dc == sdc,
            (sdr, sdc) == five_direction(k as int),
            0 <= row + 4 * sdr < board.height,
            0 <= col + 4 * sdc < board.width,
            tile == board.tile(row as int, col as int),
            1 <= i <= 5,
            forall|j: int| 1 <= j < i ==> #[trigger] board.tile(row + sdr * j, col + sdc * j) == tile,
        decreases 5 - i,
    {
        let r = if dr == 1 {
            row + i
        } else {
            row
        };
        let c = if dc == 1 {
            col + i
        } else if dc == -1 {
            col - i
        } else {
            col
        };
        assert(r == row + sdr * i && c == col + sdc * i) by (nonlinear_arith)
            requires
                r == (if sdr == 1 { row + i } else { row as int }),
                c == (if sdc == 1 { col + i } else if sdc == -1 { col - i } else { col as int }),
                0 <= sdr <= 1,
                -1 <= sdc <= 1,
        ;
        proof {
            lemma_cell_in_board(board.width as int, board.height as int, r as int, c as int);
        }
        if board.get_tile(r, c) != tile {
            assert(board.tile(row + sdr * i, col + sdc * i) != tile);
            return false;
        }
        i += 1;
    }
    true
}

/// The owner of the first row of five on the board, scanning points row by
/// row and, from each, the directions in order.
pub fn five_in_a_row(board: &BoardState) -> (winner: Option<PlayerType>)
    requires
        board.wf(),
    ensures
        five_in_a_row_result(*board, winner),
{
    let mut row: usize = 0;
    while row < board.height
        invariant
            board.wf(),
            row <= board.height,
            forall|r: int, c: int|
                #[trigger] five_starts_at(*board, r, c) ==> !scanned_before(r, c, row as int, 0),
        decreases board.height - row,
    {
        let mut col: usize = 0;
        while col < board.width
            invariant
                board.wf(),
                row < board.height,
                col <= board.width,
                forall|r: int, c: int|
                    #[trigger] five_starts_at(*board, r, c) ==> !scanned_before(r, c, row as int, col as int),
            decreases board.width - col,
        {
            let mut k: usize = 0;
            while k < 4
                invariant
                    board.wf(),
                    row < board.height,
                    col < board.width,
                    k <= 4,
                    forall|j: int| 0 <= j < k ==> !#[trigger] five_at(*board, row as int, col as int, j),
                    forall|r: int, c: int|
                        #[trigger] five_starts_at(*board, r, c) ==> !scanned_before(r, c, row as int, col as int),
                decreases 4 - k,
            {
                if five_at_exec(board, row, col, k) {
                    proof {
                        lemma_cell_in_board(board.width as int, board.height as int, row as int, col as int);
                        assert(five_starts_at(*board, row as int, col as int));
                    }
                    let tile = board.get_tile(row, col);
                    let p = if tile == TileType::White {
                        PlayerType::White
                    } else {
                        PlayerType::Black
                    };
                    proof {
                        let (r, c) = (row as int, col as int);
                        assert(five_starts_at(*board, r, c));
                        assert(owner(board.tile(r, c)) == p);
                    }
                    return Some(p);
                }
                k += 1;
            }
            assert(!five_starts_at(*board, row as int, col as int)) by {
                if five_starts_at(*board, row as int, col as int) {
                    let j = choose|j: int| five_at(*board, row as int, col as int, j);
                    assert(five_at(*board, row as int, col as int, j));
                }
            }
            col += 1;
        }
        row += 1;
    }
    assert forall|r: int, c: int| !#[trigger] five_starts_at(*board, r, c) by {
        if five_starts_at(*board, r, c) {
            let j = choose|j: int| five_at(*board, r, c, j);
            assert(five_at(*board, r, c, j));
            assert(scanned_before(r, c, row as int, 0));
        }
    }
    None
}

/// The game's winner, if any: five captured pairs (Black checked first),
/// else a row of five.
pub open spec fn check_win_result(board: BoardState, result: Option<PlayerType>) -> bool {
    if board.captures_black >= WINNING_CAPTURES {
        result == Some(PlayerType::Black)
    } else if board.captures_white >= WINNING_CAPTURES {
        result == Some(PlayerType::White)
    } else {
        five_in_a_row_result(board, result)
    }
}

pub fn check_win(board: &BoardState) -> (winner: Option<PlayerType>)
    requires
        board.wf(),
    ensures
        check_win_result(*board, winner),
{
    if board.captures_black >= WINNING_CAPTURES {
        return Some(PlayerType::Black);
    }
    if board.captures_white >= WINNING_CAPTURES {
        return Some(PlayerType::White);
    }
    five_in_a_row(board)
}

/// The grid character of a tile.
pub open spec fn tile_char(t: TileType) -> char {
    match t {
        TileType::Empty => '.',
        TileType::Black => 'b',
        TileType::White => 'w',
    }
}

/// The grid characters of `tiles`, in order.
pub open spec fn tiles_text(tiles: Seq<TileType>) -> Seq<char>
    decreases tiles.len(),
{
    if tiles.len() == 0 {
        Seq::empty()
    } else {
        tiles_text(tiles.drop_last()).push(tile_char(tiles.last()))
    }
}

/// The compact encoding of `board`: `WxH:` and then a character per point,
/// row by row.
pub open spec fn board_text(board: BoardState) -> Seq<char> {
    decimal(board.width as nat) + "x"@ + decimal(board.height as nat) + ":"@ + tiles_text(board.tiles@)
}

fn tile_str(t: TileType) -> (s: &'static str)
    ensures
        s@ == seq![tile_char(t)],
{
    proof {
        reveal_strlit(".");
        reveal_strlit("b");
        reveal_strlit("w");
    }
    match t {
        TileType::Empty => ".",
        TileType::Black => "b",
        TileType::White => "w",
    }
}

/// The compact grid text of a board, as read by
/// [`BoardState::from_compact_grid`].
pub fn encode_board(board: &BoardState) -> (s: String)
    ensures
        s@ == board_text(*board),
{
    let mut s = String::new();
    push_decimal(&mut s, board.width);
    s.append("x");
    push_decimal(&mut s, board.height);
    s.append(":");
    let ghost head = s@;
    let mut i: usize = 0;
    while i < board.tiles.len()
        invariant
            i <= board.tiles@.len(),
            s@ == head + tiles_text(board.tiles@.take(i as int)),
        decreases board.tiles@.len() - i,
    {
        assert(board.tiles@.take(i + 1).drop_last() =~= board.tiles@.take(i as int));
        s.append(tile_str(board.tiles[i]));
        i += 1;
    }
    assert(board.tiles@.take(board.tiles@.len() as int) =~= board.tiles@);
    s
}

/// `s` with every `:` written as `%3A`.
pub open spec fn url_text(s: Seq<char>) -> Seq<char>
    decreases s.len(),
{
    if s.len() == 0 {
        Seq::empty()
    } else if s.last() == ':' {
        url_text(s.drop_last()) + "%3A"@
    } else {
        url_text(s.drop_last()).push(s.last())
    }
}

/// Escapes the board text for a URL query (`:` becomes `%3A`).
pub fn url_encode(s: &str) -> (out: String)
    ensures
        out@ == url_text(s@),
{
    let n = s.unicode_len();
    let mut out = String::new();
    let mut i: usize = 0;
    while i < n
        invariant
            n == s@.len(),
            i <= n,
            out@ == url_text(s@.take(i as int)),
        decreases n - i,
    {
        assert(s@.take(i + 1).drop_last() =~= s@.take(i as int));
        if s.get_char(i) == ':' {
            out.append("%3A");
        } else {
            let one = s.substring_char(i, i + 1);
            assert(one@ =~= seq![s@[i as int]]);
            out.append(one);
        }
        i += 1;
    }
    assert(s@.take(n as int) =~= s@);
    out
}

/// |a - b|.
pub open spec fn distance(a: int, b: int) -> int {
    if a >= b {
        a - b
    } else {
        b - a
    }
}

/// The marked points of the board: the centre, the points six away from it
/// along its row and column, and the points three or six away along its
/// diagonals.
pub open spec fn special_point(row: int, col: int) -> bool {
    let c = (BOARD_SIZE / 2) as int;
    let dr = distance(row, c);
    let dc = distance(col, c);
    ||| dr == 0 && dc == 0
    ||| dr == 0 && dc == 6
    ||| dc == 0 && dr == 6
    ||| dr == dc && (dr == 3 || dr == 6)
}

pub fn is_special(row: usize, col: usize) -> (b: bool)
    ensures
        b == special_point(row as int, col as int),
{
    let c = BOARD_SIZE / 2;
    let dr = if row >= c {
        row - c
    } else {
        c - row
    };
    let dc = if col >= c {
        col - c
    } else {
        c - col
    };
    if dr == 0 && dc == 0 {
        return true;
    }
    if dr == 0 && dc == 6 {
        return true;
    }
    if dc == 0 && dr == 6 {
        return true;
    }
    dr == dc && (dr == 3 || dr == 6)
}

/// The border sprite at position `pos` along an edge whose middle is `mid`:
/// `center` at the middle, else the left or right sprites in turn.
pub fn edge_sprite(
    pos: usize,
    mid: usize,
    left: &[(usize, usize); 3],
    center: (usize, usize),
    right: &[(usize, usize); 3],
    left_offset: usize,
    right_offset: usize,
) -> (s: (usize, usize))
    requires
        pos < mid ==> pos + left_offset <= usize::MAX,
        pos > mid ==> pos + right_offset <= usize::MAX,
    ensures
        s == if pos == mid {
            center
        } else if pos < mid {
            left@[(pos + left_offset) % 3]
        } else {
            right@[(pos + right_offset) % 3]
        },
{
    if pos == mid {
        center
    } else if pos < mid {
        left[(pos + left_offset) % 3]
    } else {
        right[(pos + right_offset) % 3]
    }
}

/// `s` is the scorer built from [`default_automaton`].
pub open spec fn is_default_scorer(s: PatternScorer) -> bool {
    &&& s.wf()
    &&& s.patterns() == default_patterns()
    &&& s.weights() == default_weights()
}

/// `after` is `before` once `player` has played at (row, col): the stone is
/// placed, the pairs it brackets are removed and counted for `player`.
pub open spec fn after_move(before: BoardState, after: BoardState, row: int, col: int, player: PlayerType) -> bool {
    let captured = captures_spec(
        before.width as int,
        before.height as int,
        row,
        col,
        player,
        before.grid_with(row, col, stone_of(player)),
    );
    &&& after.wf()
    &&& after.width == before.width
    &&& after.height == before.height
    &&& forall|r: int, c: int|
        0 <= r < before.height && 0 <= c < before.width ==> #[trigger] after.tile(r, c) == if captured.contains(
            (r as usize, c as usize),
        ) {
            TileType::Empty
        } else if r == row && c == col {
            stone_of(player)
        } else {
            before.tile(r, c)
        }
    &&& after.captures_of(player) == before.captures_of(player) + captured.len() / 2
    &&& after.captures_of(opponent(player)) == before.captures_of(opponent(player))
}

/// The AI (White) searches [`AI_DEPTH`] plies, plays its move, and the
/// winner, if the game is now won, is returned.
pub fn make_ai_move_sync(board: &mut BoardState) -> (winner: Option<PlayerType>)
    requires
        old(board).wf(),
        old(board).width > 0,
        old(board).height > 0,
        full_scan_fits(old(board).width as int, old(board).height as int),
        board_size_ok(*old(board)),
        forall|s: PatternScorer|
            #[trigger] is_default_scorer(s) ==> {
                let mv = best_move(*old(board), s, PlayerType::White, AI_DEPTH as nat).0;
                &&& root_fits(*old(board), s)
                &&& search_fits(*old(board), s, root_model(*old(board), s, PlayerType::White), AI_DEPTH as nat)
                &&& old(board).captures_white + captures_spec(
                    old(board).width as int,
                    old(board).height as int,
                    mv.0 as int,
                    mv.1 as int,
                    PlayerType::White,
                    old(board).grid_with(mv.0 as int, mv.1 as int, TileType::White),
                ).len() / 2 <= u32::MAX
            },
    ensures
        exists|s: PatternScorer|
            #[trigger] is_default_scorer(s) && {
                let mv = best_move(*old(board), s, PlayerType::White, AI_DEPTH as nat).0;
                after_move(*old(board), *final(board), mv.0 as int, mv.1 as int, PlayerType::White)
            },
        check_win_result(*final(board), winner),
{
    let (dfa, weights) = default_automaton();
    let scorer = PatternScorer::new(dfa, weights);
    let search = Search::new(scorer);
    let ghost s = search.scorer();
    assert(is_default_scorer(s));
    let ((row, col), _) = search.find_best_move(board, PlayerType::White, AI_DEPTH);
    board.apply_move(row, col, PlayerType::White);
    assert(after_move(*old(board), *board, row as int, col as int, PlayerType::White));
    check_win(board)
}

/// The value of the digit character of `d`.
proof fn lemma_digit_value(d: int)
    requires
        0 <= d < 10,
    ensures
        is_digit(digit_char(d)),
        digit_char(d) as u32 - 48 == d,
{
}

/// `decimal(n)` is a non-empty run of digits that reads back as `n`.
proof fn lemma_decimal(n: nat)
    ensures
        decimal(n).len() > 0,
        forall|i: int| 0 <= i < decimal(n).len() ==> is_digit(#[trigger] decimal(n)[i]),
        digits_value(decimal(n)) == n,
    decreases n,
{
    if n >= 10 {
        lemma_decimal(n / 10);
        lemma_digit_value((n % 10) as int);
        let d = decimal(n / 10);
        let s = decimal(n);
        assert(s == d.push(digit_char((n % 10) as int)));
        assert(s.drop_last() =~= d);
        assert(s.last() == digit_char((n % 10) as int));
        assert(digits_value(s) == digits_value(d) * 10 + (s.last() as u32 - 48));
        assert(n == (n / 10) * 10 + n % 10);
        assert forall|i: int| 0 <= i < s.len() implies is_digit(#[trigger] s[i]) by {
            if i < d.len() {
                assert(s[i] == d[i]);
            }
        }
    } else {
        lemma_digit_value(n as int);
        let s = decimal(n);
        assert(s.drop_last() =~= Seq::<char>::empty());
        assert(digits_value(s) == digits_value(s.drop_last()) * 10 + (s.last() as u32 - 48));
    }
}

/// A digit is neither white space nor a separator of the compact grid.
proof fn lemma_digit_char(c: char)
    requires
        is_digit(c),
    ensures
        !is_space(c),
        c != ':',
        c != '\n',
        c != 'x',
        c != '+',
{
}

/// `header_len` skips text free of separators.
proof fn lemma_header_len_skip(a: Seq<char>, b: Seq<char>)
    requires
        forall|i: int| 0 <= i < a.len() ==> #[trigger] a[i] != ':' && a[i] != '\n',
    ensures
        header_len(a + b) == a.len() + header_len(b),
    decreases a.len(),
{
    if a.len() > 0 {
        assert((a + b).drop_first() =~= a.drop_first() + b);
        assert((a + b)[0] == a[0]);
        lemma_header_len_skip(a.drop_first(), b);
    } else {
        assert(a + b =~= b);
    }
}

/// `x_pos` skips text free of `x`.
proof fn lemma_x_pos_skip(a: Seq<char>, b: Seq<char>)
    requires
        forall|i: int| 0 <= i < a.len() ==> #[trigger] a[i] != 'x',
    ensures
        x_pos(a + b) == a.len() + x_pos(b),
    decreases a.len(),
{
    if a.len() > 0 {
        assert((a + b).drop_first() =~= a.drop_first() + b);
        assert((a + b)[0] == a[0]);
        lemma_x_pos_skip(a.drop_first(), b);
    } else {
        assert(a + b =~= b);
    }
}

/// The grid characters of tiles hold no white space and read back as the tiles.
proof fn lemma_tiles_text(tiles: Seq<TileType>)
    ensures
        tiles_text(tiles).len() == tiles.len(),
        strip_spaces(tiles_text(tiles)) == tiles_text(tiles),
        grid_tiles(tiles_text(tiles)) == Ok::<Seq<TileType>, Seq<char>>(tiles),
        forall|i: int| 0 <= i < tiles.len() ==> #[trigger] tiles_text(tiles)[i] == tile_char(tiles[i]),
    decreases tiles.len(),
{
    if tiles.len() > 0 {
        let d = tiles.drop_last();
        lemma_tiles_text(d);
        let t = tiles_text(tiles);
        assert(t.drop_last() =~= tiles_text(d));
        assert(t.last() == tile_char(tiles.last()));
        assert(cell_tile(tile_char(tiles.last())) == Some(tiles.last()));
        assert(!is_space(tile_char(tiles.last())));
        assert(tiles =~= d.push(tiles.last()));
        assert(t.len() == tiles.len());
        assert(grid_tiles(t.drop_last()) == Ok::<Seq<TileType>, Seq<char>>(d));
        assert(grid_tiles(t) == Ok::<Seq<TileType>, Seq<char>>(d.push(tiles.last())));
        assert forall|i: int| 0 <= i < tiles.len() implies #[trigger] t[i] == tile_char(tiles[i]) by {
            if i < d.len() {
                assert(t[i] == tiles_text(d)[i]);
            }
        }
    } else {
        assert(tiles =~= Seq::<TileType>::empty());
    }
}

/// A digit string reads back as its value.
proof fn lemma_usize_value_decimal(n: usize)
    ensures
        usize_value(decimal(n as nat)) == Some(n),
{
    lemma_decimal(n as nat);
    let d = decimal(n as nat);
    lemma_digit_char(d[0]);
    assert(unsigned_digits(d) == d);
}

/// Text that starts and ends with a non-space character is its own trim.
proof fn lemma_trim_noop(s: Seq<char>)
    requires
        s.len() > 0,
        !is_space(s[0]),
        !is_space(s.last()),
    ensures
        trim(s) == s,
{
    assert(trim_front(s) == s);
    assert(trim_back(s) == s);
}

/// The header `WxH` of a board's text reads as its dimensions.
proof fn lemma_header_dims(board: BoardState)
    ensures
        ({
            let header = decimal(board.width as nat) + "x"@ + decimal(board.height as nat);
            &&& forall|i: int| 0 <= i < header.len() ==> #[trigger] header[i] != ':' && header[i] != '\n'
            &&& !is_space(header[0])
            &&& dims_result(header) == Ok::<(usize, usize), Seq<char>>((board.width, board.height))
        }),
{
    reveal_strlit("x");
    let dw = decimal(board.width as nat);
    let dh = decimal(board.height as nat);
    lemma_decimal(board.width as nat);
    lemma_decimal(board.height as nat);
    lemma_usize_value_decimal(board.width);
    lemma_usize_value_decimal(board.height);
    let header = dw + "x"@ + dh;
    assert forall|i: int| 0 <= i < header.len() implies #[trigger] header[i] != ':' && header[i] != '\n' by {
        if i < dw.len() {
            assert(header[i] == dw[i]);
            lemma_digit_char(dw[i]);
        } else if i > dw.len() {
            assert(header[i] == dh[i - dw.len() - 1]);
            lemma_digit_char(dh[i - dw.len() - 1]);
        }
    }
    lemma_digit_char(dw[0]);
    lemma_digit_char(dh.last());
    assert(header[0] == dw[0]);
    assert(header.last() == dh.last());
    lemma_trim_noop(header);
    assert forall|i: int| 0 <= i < dw.len() implies #[trigger] dw[i] != 'x' by {
        lemma_digit_char(dw[i]);
    }
    assert(header =~= dw + ("x"@ + dh));
    lemma_x_pos_skip(dw, "x"@ + dh);
    assert(("x"@ + dh)[0] == 'x');
    assert(x_pos("x"@ + dh) == 0);
    assert(header.subrange(0, dw.len() as int) =~= dw);
    assert(header.subrange(dw.len() as int + 1, header.len() as int) =~= dh);
}

/// [`encode_board`] is read back by [`BoardState::from_compact_grid`]: the
/// compact text of a board parses to its width, height and tiles.
pub proof fn lemma_encode_board_round_trip(board: BoardState)
    requires
        board.wf(),
        board.width * board.height <= usize::MAX,
    ensures
        compact_grid(trim(board_text(board))) == Ok::<(usize, usize, Seq<TileType>), Seq<char>>(
            (board.width, board.height, board.tiles@),
        ),
{
    reveal_strlit("x");
    reveal_strlit(":");
    let dw = decimal(board.width as nat);
    let dh = decimal(board.height as nat);
    let tt = tiles_text(board.tiles@);
    lemma_tiles_text(board.tiles@);
    lemma_header_dims(board);
    let header = dw + "x"@ + dh;
    let text = board_text(board);
    assert(text =~= header + (":"@ + tt));
    // The text is its own trim.
    assert(text[0] == header[0]);
    if tt.len() > 0 {
        assert(text.last() == tt.last());
        assert(tt.last() == tile_char(board.tiles@.last()));
    } else {
        assert(text.last() == ':');
    }
    lemma_trim_noop(text);
    // The header ends at the colon.
    lemma_header_len_skip(header, ":"@ + tt);
    assert((":"@ + tt)[0] == ':');
    assert(header_len(":"@ + tt) == 0);
    assert(text.subrange(0, header.len() as int) =~= header);
    assert(text.subrange(header.len() as int + 1, text.len() as int) =~= tt);
}

/// Grids that agree on every point of the board find the same captures.
proof fn lemma_captures_congruent(
    width: int,
    height: int,
    row: int,
    col: int,
    player: PlayerType,
    g1: spec_fn(usize, usize) -> TileType,
    g2: spec_fn(usize, usize) -> TileType,
    k: nat,
)
    requires
        0 <= row < height <= usize::MAX,
        0 <= col < width <= usize::MAX,
        k <= 8,
        forall|x: usize, y: usize| x < height && y < width ==> #[trigger] g1(x, y) == g2(x, y),
    ensures
        captures_through(width, height, row, col, player, g1, k) == captures_through(
            width,
            height,
            row,
            col,
            player,
            g2,
            k,
        ),
    decreases k,
{
    if k > 0 {
        lemma_captures_congruent(width, height, row, col, player, g1, g2, (k - 1) as nat);
        let (dr, dc) = capture_direction(k - 1);
        if 0 <= row + 3 * dr < height && 0 <= col + 3 * dc < width {
            assert(g1((row + dr) as usize, (col + dc) as usize) == g2((row + dr) as usize, (col + dc) as usize));
            assert(g1((row + 2 * dr) as usize, (col + 2 * dc) as usize) == g2(
                (row + 2 * dr) as usize,
                (col + 2 * dc) as usize,
            ));
            assert(g1((row + 3 * dr) as usize, (col + 3 * dc) as usize) == g2(
                (row + 3 * dr) as usize,
                (col + 3 * dc) as usize,
            ));
        }
    }
}

/// The last change made at (x, y), if any.
pub open spec fn change_at(changes: Seq<((usize, usize), TileType)>, x: usize, y: usize) -> Option<TileType>
    decreases changes.len(),
{
    if changes.len() == 0 {
        None
    } else if changes.last().0 == (x, y) {
        Some(changes.last().1)
    } else {
        change_at(changes.drop_last(), x, y)
    }
}

/// After the changes, a point of the board shows its last change, or what
/// it showed before.
proof fn lemma_apply_changes_at(
    board: BoardState,
    moves: Map<usize, TileType>,
    changes: Seq<((usize, usize), TileType)>,
    x: usize,
    y: usize,
)
    requires
        board.width * board.height <= usize::MAX,
        x < board.height,
        y < board.width,
        forall|i: int|
            0 <= i < changes.len() ==> (#[trigger] changes[i]).0.0 < board.height && changes[i].0.1 < board.width,
    ensures
        overlay(board, apply_changes(board, moves, changes))(x, y) == match change_at(changes, x, y) {
            Some(t) => t,
            None => overlay(board, moves)(x, y),
        },
    decreases changes.len(),
{
    if changes.len() > 0 {
        let d = changes.drop_last();
        assert forall|i: int| 0 <= i < d.len() implies (#[trigger] d[i]).0.0 < board.height && d[i].0.1
            < board.width by {
            assert(d[i] == changes[i]);
        }
        lemma_apply_changes_at(board, moves, d, x, y);
        let ((r, c), t) = changes.last();
        assert(changes[changes.len() - 1] == changes.last());
        lemma_cell_in_board(board.width as int, board.height as int, x as int, y as int);
        lemma_cell_in_board(board.width as int, board.height as int, r as int, c as int);
        if x * board.width + y == r * board.width + c {
            lemma_cell_distinct(board.width as int, x as int, y as int, r as int, c as int);
        }
    }
}

/// The last change at a point of `a + b`: `b`'s if it has one there.
proof fn lemma_change_at_concat(
    a: Seq<((usize, usize), TileType)>,
    b: Seq<((usize, usize), TileType)>,
    x: usize,
    y: usize,
)
    ensures
        change_at(a + b, x, y) == if change_at(b, x, y) is Some {
            change_at(b, x, y)
        } else {
            change_at(a, x, y)
        },
    decreases b.len(),
{
    if b.len() == 0 {
        assert(a + b =~= a);
    } else {
        assert((a + b).drop_last() =~= a + b.drop_last());
        assert((a + b).last() == b.last());
        lemma_change_at_concat(a, b.drop_last(), x, y);
    }
}

/// Clearing the points `caps` leaves each of them empty.
proof fn lemma_change_at_cleared(caps: Seq<(usize, usize)>, x: usize, y: usize)
    ensures
        change_at(caps.map_values(|p: (usize, usize)| (p, TileType::Empty)), x, y) == if caps.contains((x, y)) {
            Some(TileType::Empty)
        } else {
            None::<TileType>
        },
    decreases caps.len(),
{
    let cl = caps.map_values(|p: (usize, usize)| (p, TileType::Empty));
    if caps.len() > 0 {
        let d = caps.drop_last();
        lemma_change_at_cleared(d, x, y);
        assert(cl.drop_last() =~= d.map_values(|p: (usize, usize)| (p, TileType::Empty)));
        assert(cl.last() == (caps.last(), TileType::Empty));
        if caps.last() == (x, y) {
            assert(caps.contains((x, y)));
        } else {
            assert(caps.contains((x, y)) == d.contains((x, y))) by {
                if caps.contains((x, y)) {
                    let k = choose|k: int| 0 <= k < caps.len() && caps[k] == (x, y);
                    assert(k != caps.len() - 1);
                    assert(d[k] == (x, y));
                }
                if d.contains((x, y)) {
                    let k = choose|k: int| 0 <= k < d.len() && d[k] == (x, y);
                    assert(caps[k] == (x, y));
                }
            }
        }
    } else {
        assert(!caps.contains((x, y)));
    }
}

/// The overlay of `m` shows the board `b`, capture counts included.
pub open spec fn shows_board(board: BoardState, m: MoveSetModel, b: BoardState) -> bool {
    &&& b.wf()
    &&& b.width == board.width
    &&& b.height == board.height
    &&& forall|x: usize, y: usize|
        x < board.height && y < board.width ==> #[trigger] overlay(board, m.moves)(x, y) == b.tile(
            x as int,
            y as int,
        )
    &&& m.captures_white == b.captures_white
    &&& m.captures_black == b.captures_black
}

/// Playing a move in the search reaches the board that playing it for real
/// does: when the overlay of `m` shows `b`, the overlay after the player to
/// move plays at (row, col) shows `b` after `apply_move` there.
pub proof fn lemma_search_move_is_played_move(
    board: BoardState,
    scorer: PatternScorer,
    m: MoveSetModel,
    b: BoardState,
    after: BoardState,
    row: int,
    col: int,
)
    requires
        board.width * board.height <= usize::MAX,
        0 <= row < board.height,
        0 <= col < board.width,
        shows_board(board, m, b),
        after_move(b, after, row, col, m.player_to_play),
    ensures
        shows_board(board, child_model(board, scorer, m, row, col), after),
{
    let mover = m.player_to_play;
    let stone = stone_of(mover);
    let (w, h) = (board.width as int, board.height as int);
    let key = cell_key(board, row, col);
    let g1 = overlay(board, m.moves.insert(key, stone));
    let g2 = b.grid_with(row, col, stone);
    assert forall|x: usize, y: usize| x < board.height && y < board.width implies #[trigger] g1(x, y) == g2(x, y) by {
        lemma_cell_in_board(w, h, x as int, y as int);
        lemma_cell_in_board(w, h, row, col);
        if x * board.width + y == row * board.width + col {
            lemma_cell_distinct(w, x as int, y as int, row, col);
        }
        assert(0 <= x * board.width + y < board.width * board.height);
        assert(0 <= row * board.width + col < board.width * board.height);
        assert(overlay(board, m.moves)(x, y) == b.tile(x as int, y as int));
    }
    lemma_captures_congruent(w, h, row, col, mover, g1, g2, 8);
    let caps = move_captures(board, m.moves, row, col, mover);
    assert(caps == captures_spec(w, h, row, col, mover, g2));
    lemma_captures_shape(w, h, row, col, mover, g1, 8);
    lemma_child_scores(board, scorer, m, row, col);
    let first = seq![((row as usize, col as usize), stone)];
    let cleared = caps.map_values(|p: (usize, usize)| (p, TileType::Empty));
    let changes = move_changes(board, m.moves, row, col, mover);
    assert(changes == first + cleared);
    let c = child_model(board, scorer, m, row, col);
    assert forall|i: int| 0 <= i < changes.len() implies (#[trigger] changes[i]).0.0 < board.height && changes[i].0.1
        < board.width by {
        if i > 0 {
            assert(changes[i] == cleared[i - 1]);
        }
    }
    assert forall|x: usize, y: usize| x < board.height && y < board.width implies #[trigger] overlay(
        board,
        c.moves,
    )(x, y) == after.tile(x as int, y as int) by {
        lemma_apply_changes_at(board, m.moves, changes, x, y);
        lemma_change_at_concat(first, cleared, x, y);
        lemma_change_at_cleared(caps, x, y);
        assert(first.drop_last() =~= Seq::<((usize, usize), TileType)>::empty());
        assert(change_at(first.drop_last(), x, y) == None::<TileType>);
        assert(first.last() == ((row as usize, col as usize), stone));
        assert(change_at(first, x, y) == if x == row && y == col {
            Some(stone)
        } else {
            None::<TileType>
        });
        assert(overlay(board, m.moves)(x, y) == b.tile(x as int, y as int));
        let t = after.tile(x as int, y as int);
        assert(t == if caps.contains((x, y)) {
            TileType::Empty
        } else if x == row && y == col {
            stone
        } else {
            b.tile(x as int, y as int)
        });
        if caps.contains((x, y)) {
            let k = choose|k: int| 0 <= k < caps.len() && caps[k] == (x, y);
            assert(!(caps[k].0 == row && caps[k].1 == col));
            assert(change_at(changes, x, y) == Some(TileType::Empty));
        } else if x == row && y == col {
            assert(change_at(changes, x, y) == Some(stone));
        } else {
            assert(change_at(changes, x, y) == None::<TileType>);
        }
    }
}

/// Before any move, the search's position shows the board itself.
pub proof fn lemma_root_shows_board(board: BoardState, scorer: PatternScorer, color: PlayerType)
    requires
        board.wf(),
    ensures
        shows_board(board, root_model(board, scorer, color), board),
{
}

/// Where a game on the playable board stands: the human (Black) is to move,
/// the AI (White) is working on its reply, a side has won, or the AI could
/// not reply.
#[derive(Copy, Clone, Debug, PartialEq, Eq, Structural)]
pub enum Phase {
    Human,
    AiThinking,
    AiError,
    Over(PlayerType),
}

/// What the interface reports to the game: a click on a point, the AI's
/// reply as a point to play, the AI having played its move itself (with the
/// winner that move made, if any), the AI failing to reply, or a reset.
#[derive(Copy, Clone, Debug, PartialEq, Eq, Structural)]
pub enum GameEvent {
    Click(usize, usize),
    AiMove(usize, usize),
    AiPlayed(Option<PlayerType>),
    AiFailed,
    Reset,
}

/// What the interface has to do next: nothing, or get the AI's reply.
#[derive(Copy, Clone, Debug, PartialEq, Eq, Structural)]
pub enum GameAction {
    Nothing,
    AskAi,
}

/// The phase once the board shows `winner`'s win, or `otherwise` when no
/// side has won.
pub open spec fn phase_after(winner: Option<PlayerType>, otherwise: Phase) -> Phase {
    match winner {
        Some(p) => Phase::Over(p),
        None => otherwise,
    }
}

/// `after` is an empty board of the same size as `before`, with no captures.
pub open spec fn fresh_board(before: BoardState, after: BoardState) -> bool {
    &&& after.wf()
    &&& after.width == before.width
    &&& after.height == before.height
    &&& forall|i: int| 0 <= i < after.tiles@.len() ==> after.tiles@[i] == TileType::Empty
    &&& after.captures_white == 0
    &&& after.captures_black == 0
}

/// One step of the game at the playable board. A reset gives an empty board
/// and the human's turn in any phase. On the human's turn, a click on an
/// empty point of the board plays Black there; the game is then over if
/// that won, else the AI is asked to reply. While the AI works, its reply
/// is played for White (or taken as played, when the AI played it itself)
/// and the game is over if that won, else the human moves again; a failed
/// reply stops the game. Every other event changes nothing.
pub fn game_step(board: &mut BoardState, phase: Phase, event: GameEvent) -> (out: (Phase, GameAction))
    requires
        old(board).wf(),
        old(board).captures_black + 8 <= u32::MAX,
        old(board).captures_white + 8 <= u32::MAX,
        phase == Phase::AiThinking ==> match event {
            GameEvent::AiMove(r, c) => r < old(board).height && c < old(board).width,
            _ => true,
        },
    ensures
        match (phase, event) {
            (_, GameEvent::Reset) => fresh_board(*old(board), *final(board)) && out == (Phase::Human, GameAction::Nothing),
            (Phase::Human, GameEvent::Click(r, c)) => if r < old(board).height && c < old(board).width && old(
                board,
            ).tile(r as int, c as int) == TileType::Empty {
                &&& after_move(*old(board), *final(board), r as int, c as int, PlayerType::Black)
                &&& exists|w: Option<PlayerType>|
                    #[trigger] check_win_result(*final(board), w) && out.0 == phase_after(w, Phase::AiThinking)
                &&& out.1 == (if out.0 == Phase::AiThinking {
                    GameAction::AskAi
                } else {
                    GameAction::Nothing
                })
            } else {
                *final(board) == *old(board) && out == (phase, GameAction::Nothing)
            },
            (Phase::AiThinking, GameEvent::AiMove(r, c)) => {
                &&& after_move(*old(board), *final(board), r as int, c as int, PlayerType::White)
                &&& exists|w: Option<PlayerType>|
                    #[trigger] check_win_result(*final(board), w) && out.0 == phase_after(w, Phase::Human)
                &&& out.1 == GameAction::Nothing
            },
            (Phase::AiThinking, GameEvent::AiPlayed(w)) => *final(board) == *old(board) && out == (
                phase_after(w, Phase::Human),
                GameAction::Nothing,
            ),
            (Phase::AiThinking, GameEvent::AiFailed) => *final(board) == *old(board) && out == (
                Phase::AiError,
                GameAction::Nothing,
            ),
            _ => *final(board) == *old(board) && out == (phase, GameAction::Nothing),
        },
{
    match event {
        GameEvent::Reset => {
            let n = board.tiles.len();
            assert(board.width * board.height == n);
            let fresh = BoardState::new(board.width, board.height);
            *board = fresh;
            return (Phase::Human, GameAction::Nothing);
        },
        _ => {},
    }
    match (phase, event) {
        (Phase::Human, GameEvent::Click(r, c)) => {
            if r < board.height && c < board.width && {
                proof {
                    lemma_cell_in_board(board.width as int, board.height as int, r as int, c as int);
                }
                board.get_tile(r, c) == TileType::Empty
            } {
                proof {
                    lemma_captures_shape(
                        board.width as int,
                        board.height as int,
                        r as int,
                        c as int,
                        PlayerType::Black,
                        board.grid_with(r as int, c as int, TileType::Black),
                        8,
                    );
                }
                let _ = board.apply_move(r, c, PlayerType::Black);
                let winner = check_win(board);
                assert(check_win_result(*board, winner));
                match winner {
                    Some(w) => (Phase::Over(w), GameAction::Nothing),
                    None => (Phase::AiThinking, GameAction::AskAi),
                }
            } else {
                (phase, GameAction::Nothing)
            }
        },
        (Phase::AiThinking, GameEvent::AiMove(r, c)) => {
            proof {
                lemma_captures_shape(
                    board.width as int,
                    board.height as int,
                    r as int,
                    c as int,
                    PlayerType::White,
                    board.grid_with(r as int, c as int, TileType::White),
                    8,
                );
            }
            let _ = board.apply_move(r, c, PlayerType::White);
            let winner = check_win(board);
            assert(check_win_result(*board, winner));
            match winner {
                Some(w) => (Phase::Over(w), GameAction::Nothing),
                None => (Phase::Human, GameAction::Nothing),
            }
        },
        (Phase::AiThinking, GameEvent::AiPlayed(w)) => match w {
            Some(p) => (Phase::Over(p), GameAction::Nothing),
            None => (Phase::Human, GameAction::Nothing),
        },
        (Phase::AiThinking, GameEvent::AiFailed) => (Phase::AiError, GameAction::Nothing),
        _ => (phase, GameAction::Nothing),
    }
}

/// Rings of border cells drawn around the playable points.
pub const BORDER: usize = 2;

/// Cells along each side of the displayed board, border rings included.
pub const DISPLAY_TILES: usize = BOARD_SIZE + BORDER * 2;

/// Sprite sheet cells (column, row) of the displayed board.
pub const SP_NORMAL: (usize, usize) = (0, 2);
pub const SP_SPECIAL: (usize, usize) = (1, 2);
pub const SP_GREEN: (usize, usize) = (0, 4);
pub const SP_YELLOW: (usize, usize) = (1, 4);
pub const SP_OUTER_CORNER: (usize, usize) = (2, 2);
pub const SP_OUTER_EDGE_LEFT: [(usize, usize); 3] = [(3, 2), (4, 2), (5, 2)];
pub const SP_OUTER_EDGE_RIGHT: [(usize, usize); 3] = [(0, 5), (1, 5), (2, 5)];
pub const SP_INNER_CORNER: (usize, usize) = (3, 3);
pub const SP_INNER_EDGE_LEFT: [(usize, usize); 3] = [(4, 3), (5, 3), (6, 3)];
pub const SP_INNER_EDGE_RIGHT: [(usize, usize); 3] = [(0, 6), (1, 6), (2, 6)];
pub const SP_BORDER_CENTER: [(usize, usize); 4] = [(3, 4), (4, 4), (5, 4), (6, 4)];

/// What one cell of the displayed board shows: a background sprite turned
/// clockwise by `quarter_turns` quarter turns, and the sprite of the stone on
/// it, if any.
#[derive(Copy, Clone, Debug)]
pub struct DisplayCell {
    pub sprite: (usize, usize),
    pub quarter_turns: usize,
    pub stone: Option<(usize, usize)>,
}

/// The border sprite at `pos` along an edge whose middle is `mid`.
pub open spec fn edge_at(
    pos: int,
    mid: int,
    left: Seq<(usize, usize)>,
    center: (usize, usize),
    right: Seq<(usize, usize)>,
    left_offset: int,
    right_offset: int,
) -> (usize, usize) {
    if pos == mid {
        center
    } else if pos < mid {
        left[(pos + left_offset) % 3]
    } else {
        right[(pos + right_offset) % 3]
    }
}

/// How many quarter turns a corner cell is turned: none at the top left,
/// then one, two and three going clockwise round the board.
pub open spec fn corner_turns(top: bool, left: bool) -> usize {
    match (top, left) {
        (true, true) => 0,
        (true, false) => 1,
        (false, false) => 2,
        (false, true) => 3,
    }
}

/// One border ring cell at (dr, dc), `ring` cells in from the outside
/// (0 or 1): a corner, or an edge sprite turned to face the board, each
/// edge read clockwise.
pub open spec fn ring_cell(
    dr: int,
    dc: int,
    ring: int,
    corner: (usize, usize),
    left: Seq<(usize, usize)>,
    center: (usize, usize),
    right: Seq<(usize, usize)>,
    left_offset: int,
    right_offset: int,
) -> DisplayCell {
    let last = DISPLAY_TILES - 1;
    let mid = (DISPLAY_TILES / 2) as int;
    let on_row = dr == ring || dr == last - ring;
    let on_col = dc == ring || dc == last - ring;
    if on_row && on_col {
        DisplayCell { sprite: corner, quarter_turns: corner_turns(dr == ring, dc == ring), stone: None }
    } else if dr == ring {
        DisplayCell { sprite: edge_at(dc, mid, left, center, right, left_offset, right_offset), quarter_turns: 0, stone: None }
    } else if dr == last - ring {
        DisplayCell { sprite: edge_at(last - dc, mid, left, center, right, left_offset, right_offset), quarter_turns: 2, stone: None }
    } else if dc == last - ring {
        DisplayCell { sprite: edge_at(dr, mid, left, center, right, left_offset, right_offset), quarter_turns: 1, stone: None }
    } else {
        DisplayCell { sprite: edge_at(last - dr, mid, left, center, right, left_offset, right_offset), quarter_turns: 3, stone: None }
    }
}

/// What cell (dr, dc) of the displayed board shows: the outer border ring,
/// the inner border ring, or a playable point (a special point's sprite at
/// the marked points) with the stone standing there.
pub open spec fn display_cell_spec(board: BoardState, dr: int, dc: int) -> DisplayCell {
    let last = DISPLAY_TILES - 1;
    if dr == 0 || dr == last || dc == 0 || dc == last {
        ring_cell(dr, dc, 0, SP_OUTER_CORNER, SP_OUTER_EDGE_LEFT@, SP_BORDER_CENTER[3], SP_OUTER_EDGE_RIGHT@, 2, 2)
    } else if dr == 1 || dr == last - 1 || dc == 1 || dc == last - 1 {
        ring_cell(dr, dc, 1, SP_INNER_CORNER, SP_INNER_EDGE_LEFT@, SP_BORDER_CENTER[2], SP_INNER_EDGE_RIGHT@, 1, 0)
    } else {
        let (br, bc) = (dr - BORDER, dc - BORDER);
        DisplayCell {
            sprite: if special_point(br, bc) {
                SP_SPECIAL
            } else {
                SP_NORMAL
            },
            quarter_turns: 0,
            stone: match board.tile(br, bc) {
                TileType::Black => Some(SP_GREEN),
                TileType::White => Some(SP_YELLOW),
                TileType::Empty => None,
            },
        }
    }
}

/// One border ring cell; see [`ring_cell`].
fn ring_display_cell(
    dr: usize,
    dc: usize,
    ring: usize,
    corner: (usize, usize),
    left: &[(usize, usize); 3],
    center: (usize, usize),
    right: &[(usize, usize); 3],
    left_offset: usize,
    right_offset: usize,
) -> (cell: DisplayCell)
    requires
        ring <= 1,
        dr < DISPLAY_TILES,
        dc < DISPLAY_TILES,
        left_offset <= 2,
        right_offset <= 2,
        dr == ring || dr == DISPLAY_TILES - 1 - ring || dc == ring || dc == DISPLAY_TILES - 1 - ring,
    ensures
        cell == ring_cell(
            dr as int,
            dc as int,
            ring as int,
            corner,
            left@,
            center,
            right@,
            left_offset as int,
            right_offset as int,
        ),
{
    let last = DISPLAY_TILES - 1;
    let mid = DISPLAY_TILES / 2;
    let on_row = dr == ring || dr == last - ring;
    let on_col = dc == ring || dc == last - ring;
    if on_row && on_col {
        let turns: usize = if dr == ring {
            if dc == ring {
                0
            } else {
                1
            }
        } else if dc == ring {
            3
        } else {
            2
        };
        DisplayCell { sprite: corner, quarter_turns: turns, stone: None }
    } else if dr == ring {
        DisplayCell { sprite: edge_sprite(dc, mid, left, center, right, left_offset, right_offset), quarter_turns: 0, stone: None }
    } else if dr == last - ring {
        DisplayCell {
            sprite: edge_sprite(last - dc, mid, left, center, right, left_offset, right_offset),
            quarter_turns: 2,
            stone: None,
        }
    } else if dc == last - ring {
        DisplayCell { sprite: edge_sprite(dr, mid, left, center, right, left_offset, right_offset), quarter_turns: 1, stone: None }
    } else {
        DisplayCell {
            sprite: edge_sprite(last - dr, mid, left, center, right, left_offset, right_offset),
            quarter_turns: 3,
            stone: None,
        }
    }
}

/// What cell (dr, dc) of the displayed board shows, for a board of the
/// interface's size.
pub fn display_cell(board: &BoardState, dr: usize, dc: usize) -> (cell: DisplayCell)
    requires
        board.wf(),
        board.width == BOARD_SIZE,
        board.height == BOARD_SIZE,
        dr < DISPLAY_TILES,
        dc < DISPLAY_TILES,
    ensures
        cell == display_cell_spec(*board, dr as int, dc as int),
{
    let last = DISPLAY_TILES - 1;
    if dr == 0 || dr == last || dc == 0 || dc == last {
        ring_display_cell(dr, dc, 0, SP_OUTER_CORNER, &SP_OUTER_EDGE_LEFT, SP_BORDER_CENTER[3], &SP_OUTER_EDGE_RIGHT, 2, 2)
    } else if dr == 1 || dr == last - 1 || dc == 1 || dc == last - 1 {
        ring_display_cell(dr, dc, 1, SP_INNER_CORNER, &SP_INNER_EDGE_LEFT, SP_BORDER_CENTER[2], &SP_INNER_EDGE_RIGHT, 1, 0)
    } else {
        let br = dr - BORDER;
        let bc = dc - BORDER;
        proof {
            lemma_cell_in_board(board.width as int, board.height as int, br as int, bc as int);
        }
        let sprite = if is_special(br, bc) {
            SP_SPECIAL
        } else {
            SP_NORMAL
        };
        let stone = match board.get_tile(br, bc) {
            TileType::Black => Some(SP_GREEN),
            TileType::White => Some(SP_YELLOW),
            TileType::Empty => None,
        };
        DisplayCell { sprite, quarter_turns: 0, stone }
    }
}

} // verus!
