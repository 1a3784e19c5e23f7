//! The mathematical model of a Connect Four position and its game value.
//!
//! A board is seven columns of stones; each column lists its stones from the
//! bottom up, and `true` marks a stone of the player who moved first.  The
//! side to move is determined by parity: the first player moves when the
//! total number of stones is even.  The game value of a position is defined
//! by the usual negamax recursion: zero on a full board, the win score when
//! the mover can complete four in a row at once, and otherwise the maximum
//! over the mover's moves of the negated value of the resulting position.

use vstd::prelude::*;

verus! {

/// Board width: number of columns.
pub const WIDTH: usize = 7;

/// Board height: number of cells in a column.
pub const HEIGHT: usize = 6;

/// Abstract board: columns of stones from the bottom up; `true` marks a
/// stone of the player who moved first.
pub struct Board {
    pub cols: Seq<Seq<bool>>,
}

/// Number of stones of player `p` in one column.
pub open spec fn count_matching(s: Seq<bool>, p: bool) -> int
    decreases s.len(),
{
    if s.len() == 0 {
        0
    } else {
        count_matching(s.drop_last(), p) + if s.last() == p {
            1int
        } else {
            0int
        }
    }
}

/// Total number of stones over a sequence of columns.
pub open spec fn sum_lens(cols: Seq<Seq<bool>>) -> int
    decreases cols.len(),
{
    if cols.len() == 0 {
        0
    } else {
        sum_lens(cols.drop_last()) + cols.last().len()
    }
}

/// Total number of stones of player `p` over a sequence of columns.
pub open spec fn sum_matching(cols: Seq<Seq<bool>>, p: bool) -> int
    decreases cols.len(),
{
    if cols.len() == 0 {
        0
    } else {
        sum_matching(cols.drop_last(), p) + count_matching(cols.last(), p)
    }
}

/// Number of moves played so far.
pub open spec fn num_moves(b: Board) -> int {
    sum_lens(b.cols)
}

/// A board is well formed when it has seven columns of at most six stones
/// and the stone counts alternate: after `m` moves the first player owns
/// `(m + 1) / 2` stones.  Every position reached from the empty board by
/// legal play satisfies this.
pub open spec fn board_wf(b: Board) -> bool {
    &&& b.cols.len() == 7
    &&& forall|c: int| 0 <= c < 7 ==> (#[trigger] b.cols[c]).len() <= 6
    &&& sum_matching(b.cols, true) == (num_moves(b) + 1) / 2
}

/// True when the first player is the side to move.
pub open spec fn mover_first(b: Board) -> bool {
    num_moves(b) % 2 == 0
}

/// The mover may drop a stone in column `c` when it is not full.
pub open spec fn can_play_at(b: Board, c: int) -> bool {
    0 <= c < 7 && b.cols[c].len() < 6
}

/// The position after the mover drops a stone in column `c`.
pub open spec fn play_at(b: Board, c: int) -> Board {
    Board { cols: b.cols.update(c, b.cols[c].push(mover_first(b))) }
}

/// The position with the top stone of column `c` removed.
pub open spec fn unplay_at(b: Board, c: int) -> Board {
    Board { cols: b.cols.update(c, b.cols[c].drop_last()) }
}

/// Player `p` owns a stone at column `c`, row `r` (rows from the bottom).
pub open spec fn stone_at(b: Board, p: bool, c: int, r: int) -> bool {
    0 <= c < 7 && 0 <= r < b.cols[c].len() && b.cols[c][r] == p
}

/// Column step of alignment direction `d`: vertical, horizontal, rising
/// diagonal, falling diagonal.
pub open spec fn dir_dx(d: int) -> int {
    if d == 0 {
        0int
    } else {
        1int
    }
}

/// Row step of alignment direction `d`.
pub open spec fn dir_dy(d: int) -> int {
    if d == 0 {
        1int
    } else if d == 1 {
        0int
    } else if d == 2 {
        1int
    } else {
        -1int
    }
}

/// Player `p` owns the four cells starting at `(c, r)` along direction `d`.
pub open spec fn line_at(b: Board, p: bool, c: int, r: int, d: int) -> bool {
    let dx = dir_dx(d);
    let dy = dir_dy(d);
    &&& stone_at(b, p, c, r)
    &&& stone_at(b, p, c + dx, r + dy)
    &&& stone_at(b, p, c + 2 * dx, r + 2 * dy)
    &&& stone_at(b, p, c + 3 * dx, r + 3 * dy)
}

/// Player `p` has four in a row somewhere on the board.
pub open spec fn has_won(b: Board, p: bool) -> bool {
    exists|c: int, r: int, d: int| 0 <= d < 4 && line_at(b, p, c, r, d)
}

/// Neither player has four in a row; holds in every position a legal game
/// can still be standing at.
pub open spec fn no_wins(b: Board) -> bool {
    !has_won(b, true) && !has_won(b, false)
}

/// Dropping a stone in column `c` completes four in a row for the mover.
pub open spec fn wins_at(b: Board, c: int) -> bool {
    has_won(play_at(b, c), mover_first(b))
}

/// The mover has some winning drop available.
pub open spec fn has_immediate_win(b: Board) -> bool {
    exists|c: int| can_play_at(b, c) && wins_at(b, c)
}

/// Score of a position whose mover wins by the drop being made now, after
/// `m` moves: half the stones that would never be placed, rounded up.
pub open spec fn win_score(m: int) -> int {
    (42 - m + 1) / 2
}

/// Placeholder value below every reachable score, used as the base of the
/// maximum over moves.
pub open spec fn value_floor() -> int {
    -100
}

/// Game-theoretic value of the position from the mover's point of view.
pub open spec fn game_value(b: Board) -> int
    decreases 42 - num_moves(b), 8int,
    when board_wf(b) && num_moves(b) <= 42
{
    if num_moves(b) >= 42 {
        0
    } else if has_immediate_win(b) {
        win_score(num_moves(b))
    } else {
        best_from(b, 0)
    }
}

/// Maximum over the playable columns `c..7` of the negated game value of
/// the position after that drop; `value_floor()` when none is playable.
pub open spec fn best_from(b: Board, c: int) -> int
    decreases 42 - num_moves(b), 7 - c,
    when board_wf(b) && num_moves(b) < 42 && 0 <= c
    via best_from_decreases
{
    if c >= 7 {
        value_floor()
    } else {
        let rest = best_from(b, c + 1);
        if can_play_at(b, c) {
            let v = -game_value(play_at(b, c));
            if v > rest {
                v
            } else {
                rest
            }
        } else {
            rest
        }
    }
}

#[via_fn]
proof fn best_from_decreases(b: Board, c: int) {
    if c < 7 && can_play_at(b, c) {
        lemma_play_at(b, c);
    }
}

/// Replacing one column changes the stone total by the difference of the
/// column lengths.
pub proof fn lemma_sum_lens_update(cols: Seq<Seq<bool>>, c: int, v: Seq<bool>)
    requires
        0 <= c < cols.len(),
    ensures
        sum_lens(cols.update(c, v)) == sum_lens(cols) - cols[c].len() + v.len(),
    decreases cols.len(),
{
    let n = cols.len() - 1;
    if c == n {
        assert(cols.update(c, v).drop_last() =~= cols.drop_last());
    } else {
        assert(cols.update(c, v).drop_last() =~= cols.drop_last().update(c, v));
        lemma_sum_lens_update(cols.drop_last(), c, v);
    }
}

/// Replacing one column changes a player's stone total by the difference of
/// the column counts.
pub proof fn lemma_sum_matching_update(cols: Seq<Seq<bool>>, p: bool, c: int, v: Seq<bool>)
    requires
        0 <= c < cols.len(),
    ensures
        sum_matching(cols.update(c, v), p) == sum_matching(cols, p) - count_matching(cols[c], p)
            + count_matching(v, p),
    decreases cols.len(),
{
    let n = cols.len() - 1;
    if c == n {
        assert(cols.update(c, v).drop_last() =~= cols.drop_last());
    } else {
        assert(cols.update(c, v).drop_last() =~= cols.drop_last().update(c, v));
        lemma_sum_matching_update(cols.drop_last(), p, c, v);
    }
}

/// Appending a stone adds one to the matching count exactly when it matches.
pub proof fn lemma_count_matching_push(s: Seq<bool>, p: bool, x: bool)
    ensures
        count_matching(s.push(x), p) == count_matching(s, p) + if x == p {
            1int
        } else {
            0int
        },
{
    assert(s.push(x).drop_last() =~= s);
    assert(s.push(x).last() == x);
}

/// Effect of one drop on the model: the move count rises by one, the board
/// stays well formed, the turn passes to the other player, and only the
/// played column changes.
pub proof fn lemma_play_at(b: Board, c: int)
    requires
        board_wf(b),
        can_play_at(b, c),
    ensures
        num_moves(play_at(b, c)) == num_moves(b) + 1,
        board_wf(play_at(b, c)),
        mover_first(play_at(b, c)) == !mover_first(b),
        play_at(b, c).cols[c] == b.cols[c].push(mover_first(b)),
        forall|d: int| 0 <= d < 7 && d != c ==> play_at(b, c).cols[d] == b.cols[d],
{
    let v = b.cols[c].push(mover_first(b));
    lemma_sum_lens_update(b.cols, c, v);
    lemma_sum_matching_update(b.cols, true, c, v);
    lemma_count_matching_push(b.cols[c], true, mover_first(b));
}

/// Removing the just-dropped stone restores the board exactly.
pub proof fn lemma_unplay_play(b: Board, c: int)
    requires
        board_wf(b),
        can_play_at(b, c),
    ensures
        unplay_at(play_at(b, c), c) == b,
{
    let pb = play_at(b, c);
    assert(pb.cols[c].drop_last() =~= b.cols[c]);
    assert(unplay_at(pb, c).cols =~= b.cols);
}

/// When every column is full the board holds exactly 42 stones.
proof fn lemma_sum_lens_full(cols: Seq<Seq<bool>>)
    requires
        forall|c: int| 0 <= c < cols.len() ==> (#[trigger] cols[c]).len() == 6,
    ensures
        sum_lens(cols) == 6 * cols.len(),
    decreases cols.len(),
{
    if cols.len() > 0 {
        lemma_sum_lens_full(cols.drop_last());
    }
}

/// A stone count is never negative.
pub proof fn lemma_count_nonneg(s: Seq<bool>, p: bool)
    ensures
        count_matching(s, p) >= 0,
    decreases s.len(),
{
    if s.len() > 0 {
        lemma_count_nonneg(s.drop_last(), p);
    }
}

/// A stone total is never negative.
pub proof fn lemma_sum_matching_nonneg(cols: Seq<Seq<bool>>, p: bool)
    ensures
        sum_matching(cols, p) >= 0,
    decreases cols.len(),
{
    if cols.len() > 0 {
        lemma_sum_matching_nonneg(cols.drop_last(), p);
        lemma_count_nonneg(cols.last(), p);
    }
}

/// A run of `k` stones of player `p` in a column puts the column's count at
/// `k` or more.
pub proof fn lemma_count_run(s: Seq<bool>, p: bool, r0: int, k: int)
    requires
        0 <= r0,
        0 <= k,
        r0 + k <= s.len(),
        forall|j: int| r0 <= j < r0 + k ==> s[j] == p,
    ensures
        count_matching(s, p) >= k,
    decreases s.len(),
{
    if k == 0 {
        lemma_count_nonneg(s, p);
    } else if r0 + k == s.len() {
        lemma_count_run(s.drop_last(), p, r0, k - 1);
    } else {
        lemma_count_run(s.drop_last(), p, r0, k);
    }
}

/// The total count of player `p` is at least one column's count.
proof fn lemma_sum_one_col(cols: Seq<Seq<bool>>, p: bool, c: int)
    requires
        0 <= c < cols.len(),
    ensures
        sum_matching(cols, p) >= count_matching(cols[c], p),
    decreases cols.len(),
{
    if c == cols.len() - 1 {
        lemma_sum_matching_nonneg(cols.drop_last(), p);
    } else {
        lemma_sum_one_col(cols.drop_last(), p, c);
        lemma_count_nonneg(cols.last(), p);
    }
}

/// `k` consecutive columns each holding a stone of player `p` put the total
/// count at `k` or more.
proof fn lemma_sum_window(cols: Seq<Seq<bool>>, p: bool, c0: int, k: int)
    requires
        0 <= c0,
        0 <= k,
        c0 + k <= cols.len(),
        forall|i: int| 0 <= i < k ==> count_matching(#[trigger] cols[c0 + i], p) >= 1,
    ensures
        sum_matching(cols, p) >= k,
    decreases cols.len(),
{
    if k == 0 {
        lemma_sum_matching_nonneg(cols, p);
    } else if c0 + k == cols.len() {
        lemma_sum_window(cols.drop_last(), p, c0, k - 1);
        assert(cols.last() == cols[c0 + (k - 1)]);
    } else {
        lemma_sum_window(cols.drop_last(), p, c0, k);
        lemma_count_nonneg(cols.last(), p);
    }
}

/// The two players' stones together account for every stone of a column.
proof fn lemma_count_complement(s: Seq<bool>)
    ensures
        count_matching(s, true) + count_matching(s, false) == s.len(),
    decreases s.len(),
{
    if s.len() > 0 {
        lemma_count_complement(s.drop_last());
    }
}

/// The two players' stones together account for every stone on the board.
pub proof fn lemma_sum_complement(cols: Seq<Seq<bool>>)
    ensures
        sum_matching(cols, true) + sum_matching(cols, false) == sum_lens(cols),
    decreases cols.len(),
{
    if cols.len() > 0 {
        lemma_sum_complement(cols.drop_last());
        lemma_count_complement(cols.last());
    }
}

/// A player with four in a row owns at least four stones.
proof fn lemma_won_stone_count(b: Board, p: bool)
    requires
        b.cols.len() == 7,
        has_won(b, p),
    ensures
        sum_matching(b.cols, p) >= 4,
{
    let (c0, r0, d) = choose|c0: int, r0: int, d: int| 0 <= d < 4 && line_at(b, p, c0, r0, d);
    if d == 0 {
        assert forall|j: int| r0 <= j < r0 + 4 implies b.cols[c0][j] == p by {
            if j == r0 + 1 {
                assert(stone_at(b, p, c0, r0 + 1));
            } else if j == r0 + 2 {
                assert(stone_at(b, p, c0, r0 + 2));
            } else if j == r0 + 3 {
                assert(stone_at(b, p, c0, r0 + 3));
            }
        }
        lemma_count_run(b.cols[c0], p, r0, 4);
        lemma_sum_one_col(b.cols, p, c0);
    } else {
        let dy = dir_dy(d);
        assert forall|i: int| 0 <= i < 4 implies count_matching(#[trigger] b.cols[c0 + i], p)
            >= 1 by {
            if i == 0 {
                assert(stone_at(b, p, c0, r0));
                lemma_count_run(b.cols[c0], p, r0, 1);
            } else if i == 1 {
                assert(stone_at(b, p, c0 + 1, r0 + dy));
                lemma_count_run(b.cols[c0 + 1], p, r0 + dy, 1);
            } else if i == 2 {
                assert(stone_at(b, p, c0 + 2, r0 + 2 * dy));
                lemma_count_run(b.cols[c0 + 2], p, r0 + 2 * dy, 1);
            } else {
                assert(stone_at(b, p, c0 + 3, r0 + 3 * dy));
                lemma_count_run(b.cols[c0 + 3], p, r0 + 3 * dy, 1);
            }
        }
        lemma_sum_window(b.cols, p, c0, 4);
    }
}

/// No winning drop exists before the mover's fourth stone: a win needs at
/// least six moves on the board.
pub proof fn lemma_win_needs_moves(b: Board, c: int)
    requires
        board_wf(b),
        can_play_at(b, c),
        wins_at(b, c),
    ensures
        num_moves(b) >= 6,
{
    let p = mover_first(b);
    let pb = play_at(b, c);
    let m = num_moves(b);
    lemma_play_at(b, c);
    lemma_won_stone_count(pb, p);
    lemma_sum_complement(pb.cols);
    if !p {
        assert(sum_matching(pb.cols, false) == m + 1 - (m + 2) / 2);
    }
}

/// A board with fewer than 42 stones has a playable column.
pub proof fn lemma_exists_playable(b: Board)
    requires
        board_wf(b),
        num_moves(b) < 42,
    ensures
        exists|c: int| can_play_at(b, c),
{
    if forall|c: int| 0 <= c < 7 ==> !(#[trigger] can_play_at(b, c)) {
        assert forall|c: int| 0 <= c < 7 implies (#[trigger] b.cols[c]).len() == 6 by {
            assert(!can_play_at(b, c));
        }
        lemma_sum_lens_full(b.cols);
        assert(false);
    }
}

/// A board whose columns respect the height cap holds at most 42 stones.
proof fn lemma_sum_lens_le(cols: Seq<Seq<bool>>)
    requires
        forall|c: int| 0 <= c < cols.len() ==> (#[trigger] cols[c]).len() <= 6,
    ensures
        sum_lens(cols) <= 6 * cols.len(),
    decreases cols.len(),
{
    if cols.len() > 0 {
        lemma_sum_lens_le(cols.drop_last());
    }
}

/// The stone total is at least the height of any one column.
pub proof fn lemma_sum_lens_ge_col(cols: Seq<Seq<bool>>, c: int)
    requires
        0 <= c < cols.len(),
    ensures
        sum_lens(cols) >= cols[c].len(),
    decreases cols.len(),
{
    if c < cols.len() - 1 {
        lemma_sum_lens_ge_col(cols.drop_last(), c);
    } else {
        lemma_sum_lens_nonneg(cols.drop_last());
    }
}

/// The stone total is never negative.
pub proof fn lemma_sum_lens_nonneg(cols: Seq<Seq<bool>>)
    ensures
        sum_lens(cols) >= 0,
    decreases cols.len(),
{
    if cols.len() > 0 {
        lemma_sum_lens_nonneg(cols.drop_last());
    }
}

/// A well-formed board holds between zero and 42 stones.
pub proof fn lemma_moves_le(b: Board)
    requires
        board_wf(b),
    ensures
        0 <= num_moves(b) <= 42,
{
    lemma_sum_lens_le(b.cols);
    lemma_sum_lens_nonneg(b.cols);
}

/// The maximum over moves never falls below the placeholder floor.
pub proof fn lemma_best_from_floor(b: Board, c: int)
    requires
        board_wf(b),
        num_moves(b) < 42,
        0 <= c <= 7,
    ensures
        best_from(b, c) >= value_floor(),
    decreases 7 - c,
{
    reveal_with_fuel(best_from, 1);
    if c < 7 {
        if can_play_at(b, c) {
            lemma_play_at(b, c);
        }
        lemma_best_from_floor(b, c + 1);
    }
}

/// A board with an open column holds fewer than 42 stones.
pub proof fn lemma_can_play_moves(b: Board, c: int)
    requires
        board_wf(b),
        can_play_at(b, c),
    ensures
        0 <= num_moves(b) < 42,
{
    let six = Seq::new(6, |i: int| true);
    lemma_sum_lens_update(b.cols, c, six);
    lemma_sum_lens_le(b.cols.update(c, six));
    lemma_sum_lens_nonneg(b.cols);
}

/// A stone survives a drop elsewhere on the board.
pub proof fn lemma_stone_mono(b: Board, c: int, q: bool, x: int, y: int)
    requires
        board_wf(b),
        can_play_at(b, c),
        stone_at(b, q, x, y),
    ensures
        stone_at(play_at(b, c), q, x, y),
{
    lemma_play_at(b, c);
}

/// A stone on the board after a drop either was there before or is the
/// dropped stone itself.
pub proof fn lemma_stone_back(b: Board, c: int, q: bool, x: int, y: int)
    requires
        board_wf(b),
        can_play_at(b, c),
        stone_at(play_at(b, c), q, x, y),
        !(x == c && y == b.cols[c].len()),
    ensures
        stone_at(b, q, x, y),
{
    lemma_play_at(b, c);
}

/// A stone on the board after a drop either was there before or is the
/// dropped stone, which belongs to the mover.
proof fn lemma_stone_after_play(b: Board, c: int, q: bool, cc: int, rr: int)
    requires
        board_wf(b),
        can_play_at(b, c),
        q != mover_first(b),
        stone_at(play_at(b, c), q, cc, rr),
    ensures
        stone_at(b, q, cc, rr),
{
    lemma_play_at(b, c);
}

/// A drop that does not win keeps the board free of four in a row.
pub proof fn lemma_play_no_wins(b: Board, c: int)
    requires
        board_wf(b),
        can_play_at(b, c),
        no_wins(b),
        !wins_at(b, c),
    ensures
        no_wins(play_at(b, c)),
{
    let p = mover_first(b);
    let q = !p;
    let pb = play_at(b, c);
    if has_won(pb, q) {
        let (c0, r0, d) = choose|c0: int, r0: int, d: int| 0 <= d < 4 && line_at(pb, q, c0, r0, d);
        let dx = dir_dx(d);
        let dy = dir_dy(d);
        lemma_stone_after_play(b, c, q, c0, r0);
        lemma_stone_after_play(b, c, q, c0 + dx, r0 + dy);
        lemma_stone_after_play(b, c, q, c0 + 2 * dx, r0 + 2 * dy);
        lemma_stone_after_play(b, c, q, c0 + 3 * dx, r0 + 3 * dy);
        assert(line_at(b, q, c0, r0, d));
        assert(false);
    }
}

/// The maximum over moves is at least the value of each single move.
pub proof fn lemma_best_from_lb(b: Board, c: int, d: int)
    requires
        board_wf(b),
        num_moves(b) < 42,
        0 <= c <= d < 7,
        can_play_at(b, d),
    ensures
        best_from(b, c) >= -game_value(play_at(b, d)),
    decreases 7 - c,
{
    reveal_with_fuel(best_from, 1);
    if can_play_at(b, c) {
        lemma_play_at(b, c);
    }
    if c < d {
        lemma_best_from_lb(b, c + 1, d);
    }
}

/// The maximum over moves is bounded by any bound on all single moves.
pub proof fn lemma_best_from_ub(b: Board, c: int, x: int)
    requires
        board_wf(b),
        num_moves(b) < 42,
        0 <= c <= 7,
        x >= value_floor(),
        forall|d: int| c <= d < 7 && can_play_at(b, d) ==> -game_value(#[trigger] play_at(b, d))
            <= x,
    ensures
        best_from(b, c) <= x,
    decreases 7 - c,
{
    if c == 7 {
        assert(best_from(b, 7) == value_floor()) by {
            reveal_with_fuel(best_from, 1);
        }
    } else {
        lemma_best_from_ub(b, c + 1, x);
        let rest = best_from(b, c + 1);
        assert(rest <= x);
        if can_play_at(b, c) {
            lemma_play_at(b, c);
            let v = -game_value(play_at(b, c));
            assert(v <= x);
            assert(best_from(b, c) == if v > rest { v } else { rest }) by {
                reveal_with_fuel(best_from, 1);
            }
        } else {
            assert(best_from(b, c) == rest) by {
                reveal_with_fuel(best_from, 1);
            }
        }
    }
}

/// Raw bounds on the game value: the mover cannot do better than winning at
/// once nor worse than losing to the opponent's next drop.
pub proof fn lemma_value_bounds(b: Board)
    requires
        board_wf(b),
        num_moves(b) <= 42,
    ensures
        -((42 - num_moves(b)) / 2) <= game_value(b) <= win_score(num_moves(b)),
    decreases 42 - num_moves(b),
{
    let m = num_moves(b);
    if m >= 42 {
    } else if has_immediate_win(b) {
    } else {
        assert forall|d: int| 0 <= d < 7 && can_play_at(b, d) implies -game_value(
            #[trigger] play_at(b, d),
        ) <= (42 - m - 1) / 2 by {
            lemma_play_at(b, d);
            lemma_value_bounds(play_at(b, d));
        }
        lemma_best_from_ub(b, 0, (42 - m - 1) / 2);
        lemma_exists_playable(b);
        let d = choose|d: int| can_play_at(b, d);
        lemma_play_at(b, d);
        lemma_value_bounds(play_at(b, d));
        lemma_best_from_lb(b, 0, d);
    }
}

/// When the mover has no winning drop, the game value is capped one move
/// lower than the immediate win score.
pub proof fn lemma_value_ub_no_win(b: Board)
    requires
        board_wf(b),
        num_moves(b) < 42,
        !has_immediate_win(b),
    ensures
        game_value(b) <= (42 - num_moves(b) - 1) / 2,
{
    let m = num_moves(b);
    assert forall|d: int| 0 <= d < 7 && can_play_at(b, d) implies -game_value(
        #[trigger] play_at(b, d),
    ) <= (42 - m - 1) / 2 by {
        lemma_play_at(b, d);
        lemma_value_bounds(play_at(b, d));
    }
    lemma_best_from_ub(b, 0, (42 - m - 1) / 2);
}

/// The game value of a well-formed board always lies between the extreme
/// scores: a win or loss takes each player at least four of their own moves.
pub proof fn lemma_value_range(b: Board)
    requires
        board_wf(b),
        num_moves(b) <= 42,
    ensures
        -18 <= game_value(b) <= 18,
    decreases 42 - num_moves(b),
{
    let m = num_moves(b);
    if m >= 42 {
    } else if has_immediate_win(b) {
        let c = choose|c: int| can_play_at(b, c) && wins_at(b, c);
        lemma_win_needs_moves(b, c);
    } else {
        assert forall|d: int| 0 <= d < 7 && can_play_at(b, d) implies -game_value(
            #[trigger] play_at(b, d),
        ) <= 18 by {
            lemma_play_at(b, d);
            lemma_value_range(play_at(b, d));
        }
        lemma_best_from_ub(b, 0, 18);
        lemma_exists_playable(b);
        let d = choose|d: int| can_play_at(b, d);
        lemma_play_at(b, d);
        lemma_value_range(play_at(b, d));
        lemma_best_from_lb(b, 0, d);
    }
}

/// With a winning drop at hand, the game value is the immediate win score.
pub proof fn lemma_value_imm(b: Board)
    requires
        board_wf(b),
        has_immediate_win(b),
    ensures
        game_value(b) == win_score(num_moves(b)),
{
    let c = choose|c: int| can_play_at(b, c) && wins_at(b, c);
    lemma_can_play_moves(b, c);
}

/// When every playable drop hands the opponent an immediate win, the game
/// is lost at the opponent's next move.
pub proof fn lemma_all_losing(b: Board)
    requires
        board_wf(b),
        num_moves(b) < 42,
        !has_immediate_win(b),
        forall|c: int| can_play_at(b, c) ==> has_immediate_win(#[trigger] play_at(b, c)),
    ensures
        game_value(b) == -((42 - num_moves(b)) / 2),
{
    let m = num_moves(b);
    lemma_moves_le(b);
    assert forall|c: int| 0 <= c < 7 && can_play_at(b, c) implies -game_value(
        #[trigger] play_at(b, c),
    ) == -((42 - m) / 2) by {
        lemma_play_at(b, c);
        lemma_value_imm(play_at(b, c));
    }
    lemma_best_from_ub(b, 0, -((42 - m) / 2));
    lemma_exists_playable(b);
    let d = choose|d: int| can_play_at(b, d);
    lemma_best_from_lb(b, 0, d);
}

/// A position one move from the full board that offers no immediate win is
/// a draw: the last stone cannot be answered.
pub proof fn lemma_draw_last(b: Board)
    requires
        board_wf(b),
        num_moves(b) == 41,
        !has_immediate_win(b),
    ensures
        game_value(b) == 0,
{
    assert forall|c: int| 0 <= c < 7 && can_play_at(b, c) implies -game_value(
        #[trigger] play_at(b, c),
    ) == 0 by {
        lemma_play_at(b, c);
    }
    lemma_best_from_ub(b, 0, 0);
    lemma_exists_playable(b);
    let d = choose|d: int| can_play_at(b, d);
    lemma_best_from_lb(b, 0, d);
}

/// With at most two cells left and no immediate win, a drop that does not
/// hand the opponent a win forces the draw.
pub proof fn lemma_endgame_draw(b: Board, c0: int)
    requires
        board_wf(b),
        40 <= num_moves(b) < 42,
        !has_immediate_win(b),
        can_play_at(b, c0),
        !has_immediate_win(play_at(b, c0)),
    ensures
        game_value(b) == 0,
{
    let m = num_moves(b);
    if m == 41 {
        lemma_draw_last(b);
    } else {
        assert forall|c: int| 0 <= c < 7 && can_play_at(b, c) implies -game_value(
            #[trigger] play_at(b, c),
        ) <= 0 by {
            lemma_play_at(b, c);
            let cb = play_at(b, c);
            if has_immediate_win(cb) {
                lemma_value_imm(cb);
            } else {
                lemma_draw_last(cb);
            }
        }
        lemma_best_from_ub(b, 0, 0);
        lemma_play_at(b, c0);
        lemma_draw_last(play_at(b, c0));
        lemma_best_from_lb(b, 0, c0);
    }
}

/// A step of an alignment direction: a unit step sideways, or straight up
/// or down.
pub open spec fn dir_step(dx: int, dy: int) -> bool {
    &&& (dx == 0 || dx == 1 || dx == -1)
    &&& (dy == 0 || dy == 1 || dy == -1)
    &&& !(dx == 0 && dy == 0)
}

/// Length of the unbroken row of player `q`'s stones starting at `(x, y)`
/// and walking in direction `(dx, dy)`.
pub open spec fn run(b: Board, q: bool, x: int, y: int, dx: int, dy: int) -> int
    decreases (if dx == 1 {
        7 - x
    } else if dx == -1 {
        x + 1
    } else if dy == 1 {
        7 - y
    } else {
        y + 1
    }),
    when dir_step(dx, dy) && board_wf(b) && -1 <= x <= 7 && -1 <= y <= 7
{
    if stone_at(b, q, x, y) {
        1 + run(b, q, x + dx, y + dy, dx, dy)
    } else {
        0
    }
}

/// A run is never negative.
pub proof fn lemma_run_nonneg(b: Board, q: bool, x: int, y: int, dx: int, dy: int)
    requires
        board_wf(b),
        dir_step(dx, dy),
        -1 <= x <= 7,
        -1 <= y <= 7,
    ensures
        run(b, q, x, y, dx, dy) >= 0,
    decreases (if dx == 1 {
        7 - x
    } else if dx == -1 {
        x + 1
    } else if dy == 1 {
        7 - y
    } else {
        y + 1
    }),
{
    if stone_at(b, q, x, y) {
        assert(0 <= x < 7);
        assert(b.cols[x].len() <= 6);
        assert(0 <= y < 6);
        lemma_run_nonneg(b, q, x + dx, y + dy, dx, dy);
        assert(run(b, q, x, y, dx, dy) == 1 + run(b, q, x + dx, y + dy, dx, dy));
    }
}

/// The first three cells along a run of that length carry the player's
/// stones, and conversely stones on those cells put a floor under the run.
pub proof fn lemma_run_cells(b: Board, q: bool, x: int, y: int, dx: int, dy: int)
    requires
        board_wf(b),
        dir_step(dx, dy),
        -1 <= x <= 7,
        -1 <= y <= 7,
    ensures
        run(b, q, x, y, dx, dy) >= 1 ==> stone_at(b, q, x, y),
        run(b, q, x, y, dx, dy) >= 2 ==> stone_at(b, q, x + dx, y + dy),
        run(b, q, x, y, dx, dy) >= 3 ==> stone_at(b, q, x + 2 * dx, y + 2 * dy),
        stone_at(b, q, x, y) ==> run(b, q, x, y, dx, dy) >= 1,
        stone_at(b, q, x, y) && stone_at(b, q, x + dx, y + dy) ==> run(b, q, x, y, dx, dy) >= 2,
        stone_at(b, q, x, y) && stone_at(b, q, x + dx, y + dy) && stone_at(
            b,
            q,
            x + 2 * dx,
            y + 2 * dy,
        ) ==> run(b, q, x, y, dx, dy) >= 3,
{
    lemma_run_nonneg(b, q, x, y, dx, dy);
    if stone_at(b, q, x, y) {
        lemma_run_nonneg(b, q, x + dx, y + dy, dx, dy);
        if stone_at(b, q, x + dx, y + dy) {
            lemma_run_nonneg(b, q, x + 2 * dx, y + 2 * dy, dx, dy);
            if stone_at(b, q, x + 2 * dx, y + 2 * dy) {
                lemma_run_nonneg(b, q, x + 3 * dx, y + 3 * dy, dx, dy);
            }
        }
    }
}

/// Player `q` has four in a row in direction `d` somewhere on the board.
pub open spec fn wins_dir(b: Board, q: bool, d: int) -> bool {
    exists|c0: int, r0: int| line_at(b, q, c0, r0, d)
}

/// Four in a row means four in a row in one of the four directions.
pub proof fn lemma_won_dirs(b: Board, q: bool)
    ensures
        has_won(b, q) <==> (wins_dir(b, q, 0) || wins_dir(b, q, 1) || wins_dir(b, q, 2)
            || wins_dir(b, q, 3)),
{
    if has_won(b, q) {
        let (c0, r0, d) = choose|c0: int, r0: int, d: int| 0 <= d < 4 && line_at(b, q, c0, r0, d);
        assert(wins_dir(b, q, d));
    }
    if wins_dir(b, q, 0) {
        let (c0, r0) = choose|c0: int, r0: int| line_at(b, q, c0, r0, 0);
        assert(has_won(b, q));
    }
    if wins_dir(b, q, 1) {
        let (c0, r0) = choose|c0: int, r0: int| line_at(b, q, c0, r0, 1);
        assert(has_won(b, q));
    }
    if wins_dir(b, q, 2) {
        let (c0, r0) = choose|c0: int, r0: int| line_at(b, q, c0, r0, 2);
        assert(has_won(b, q));
    }
    if wins_dir(b, q, 3) {
        let (c0, r0) = choose|c0: int, r0: int| line_at(b, q, c0, r0, 3);
        assert(has_won(b, q));
    }
}

/// A vertical win by the drop in column `c` happens exactly when the three
/// cells under the new stone already carry the mover's stones.
pub proof fn lemma_vertical_win(b: Board, c: int)
    requires
        board_wf(b),
        can_play_at(b, c),
        !has_won(b, mover_first(b)),
    ensures
        wins_dir(play_at(b, c), mover_first(b), 0) <==> (b.cols[c].len() >= 3 && stone_at(
            b,
            mover_first(b),
            c,
            b.cols[c].len() - 1,
        ) && stone_at(b, mover_first(b), c, b.cols[c].len() - 2) && stone_at(
            b,
            mover_first(b),
            c,
            b.cols[c].len() - 3,
        )),
{
    let q = mover_first(b);
    let h = b.cols[c].len() as int;
    let pb = play_at(b, c);
    lemma_play_at(b, c);
    if wins_dir(pb, q, 0) {
        let (c0, r0) = choose|c0: int, r0: int| line_at(pb, q, c0, r0, 0);
        if c0 != c || r0 + 3 < h {
            lemma_stone_back(b, c, q, c0, r0);
            lemma_stone_back(b, c, q, c0, r0 + 1);
            lemma_stone_back(b, c, q, c0, r0 + 2);
            lemma_stone_back(b, c, q, c0, r0 + 3);
            assert(line_at(b, q, c0, r0, 0));
            assert(has_won(b, q));
        } else {
            assert(c0 == c && r0 + 3 == h);
            lemma_stone_back(b, c, q, c, h - 1);
            lemma_stone_back(b, c, q, c, h - 2);
            lemma_stone_back(b, c, q, c, h - 3);
        }
    }
    if h >= 3 && stone_at(b, q, c, h - 1) && stone_at(b, q, c, h - 2) && stone_at(b, q, c, h - 3) {
        lemma_stone_mono(b, c, q, c, h - 1);
        lemma_stone_mono(b, c, q, c, h - 2);
        lemma_stone_mono(b, c, q, c, h - 3);
        assert(stone_at(pb, q, c, h));
        assert(line_at(pb, q, c, h - 3, 0));
    }
}

/// A slanted win by the drop in column `c` happens exactly when the mover's
/// unbroken runs leftward and rightward from the new stone along the
/// direction add up to three or more.
#[verifier::rlimit(60)]
pub proof fn lemma_slant_win(b: Board, c: int, d: int)
    requires
        board_wf(b),
        can_play_at(b, c),
        1 <= d < 4,
        !has_won(b, mover_first(b)),
    ensures
        wins_dir(play_at(b, c), mover_first(b), d) <==> run(
            b,
            mover_first(b),
            c - 1,
            b.cols[c].len() - dir_dy(d),
            -1,
            -dir_dy(d),
        ) + run(b, mover_first(b), c + 1, b.cols[c].len() + dir_dy(d), 1, dir_dy(d)) >= 3,
{
    let q = mover_first(b);
    let h = b.cols[c].len() as int;
    let dy = dir_dy(d);
    let pb = play_at(b, c);
    let lft = run(b, q, c - 1, h - dy, -1, -dy);
    let rgt = run(b, q, c + 1, h + dy, 1, dy);
    lemma_play_at(b, c);
    lemma_run_cells(b, q, c - 1, h - dy, -1, -dy);
    lemma_run_cells(b, q, c + 1, h + dy, 1, dy);
    lemma_run_nonneg(b, q, c - 1, h - dy, -1, -dy);
    lemma_run_nonneg(b, q, c + 1, h + dy, 1, dy);
    assert(stone_at(pb, q, c, h));
    if wins_dir(pb, q, d) {
        let (c0, r0) = choose|c0: int, r0: int| line_at(pb, q, c0, r0, d);
        // Mark which line cell, if any, is the new stone; the four cells
        // stand in four distinct columns, so at most one is.
        let n0 = c0 == c && r0 == h;
        let n1 = c0 + 1 == c && r0 + dy == h;
        let n2 = c0 + 2 == c && r0 + 2 * dy == h;
        let n3 = c0 + 3 == c && r0 + 3 * dy == h;
        if !n0 {
            lemma_stone_back(b, c, q, c0, r0);
        }
        if !n1 {
            lemma_stone_back(b, c, q, c0 + 1, r0 + dy);
        }
        if !n2 {
            lemma_stone_back(b, c, q, c0 + 2, r0 + 2 * dy);
        }
        if !n3 {
            lemma_stone_back(b, c, q, c0 + 3, r0 + 3 * dy);
        }
        if !n0 && !n1 && !n2 && !n3 {
            // Every cell already stood: a four in a row before the drop.
            assert(line_at(b, q, c0, r0, d));
            assert(has_won(b, q));
        } else if n0 {
            assert(rgt >= 3);
        } else if n1 {
            assert(lft >= 1 && rgt >= 2);
        } else if n2 {
            assert(lft >= 2 && rgt >= 1);
        } else {
            assert(lft >= 3);
        }
    }
    if lft + rgt >= 3 {
        if lft >= 3 {
            lemma_stone_mono(b, c, q, c - 1, h - dy);
            lemma_stone_mono(b, c, q, c - 2, h - 2 * dy);
            lemma_stone_mono(b, c, q, c - 3, h - 3 * dy);
            assert(line_at(pb, q, c - 3, h - 3 * dy, d));
        } else if lft == 2 {
            lemma_stone_mono(b, c, q, c - 1, h - dy);
            lemma_stone_mono(b, c, q, c - 2, h - 2 * dy);
            lemma_stone_mono(b, c, q, c + 1, h + dy);
            assert(line_at(pb, q, c - 2, h - 2 * dy, d));
        } else if lft == 1 {
            lemma_stone_mono(b, c, q, c - 1, h - dy);
            lemma_stone_mono(b, c, q, c + 1, h + dy);
            lemma_stone_mono(b, c, q, c + 2, h + 2 * dy);
            assert(line_at(pb, q, c - 1, h - dy, d));
        } else {
            lemma_stone_mono(b, c, q, c + 1, h + dy);
            lemma_stone_mono(b, c, q, c + 2, h + 2 * dy);
            lemma_stone_mono(b, c, q, c + 3, h + 3 * dy);
            assert(line_at(pb, q, c, h, d));
        }
    }
}

/// The drop in column `c` wins exactly when the vertical check or one of
/// the three slanted run checks fires: what the encodings test at each move.
pub proof fn lemma_wins_at_checks(b: Board, c: int)
    requires
        board_wf(b),
        can_play_at(b, c),
        !has_won(b, mover_first(b)),
    ensures
        wins_at(b, c) <==> {
            let q = mover_first(b);
            let h = b.cols[c].len();
            ||| (h >= 3 && stone_at(b, q, c, h - 1) && stone_at(b, q, c, h - 2) && stone_at(
                b,
                q,
                c,
                h - 3,
            ))
            ||| run(b, q, c - 1, h - dir_dy(1), -1, -dir_dy(1)) + run(
                b,
                q,
                c + 1,
                h + dir_dy(1),
                1,
                dir_dy(1),
            ) >= 3
            ||| run(b, q, c - 1, h - dir_dy(2), -1, -dir_dy(2)) + run(
                b,
                q,
                c + 1,
                h + dir_dy(2),
                1,
                dir_dy(2),
            ) >= 3
            ||| run(b, q, c - 1, h - dir_dy(3), -1, -dir_dy(3)) + run(
                b,
                q,
                c + 1,
                h + dir_dy(3),
                1,
                dir_dy(3),
            ) >= 3
        },
{
    lemma_won_dirs(play_at(b, c), mover_first(b));
    lemma_vertical_win(b, c);
    lemma_slant_win(b, c, 1);
    lemma_slant_win(b, c, 2);
    lemma_slant_win(b, c, 3);
}

} // verus!
