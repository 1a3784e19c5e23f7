//! The search engines, and the contracts they answer to.
//!
//! Every `solve` returns the game value clamped into its window
//! (`solve_post`): the full window gives the exact score, the weak window
//! `(-1, 1)` the sign alone.  The recursive nodes inside answer to the
//! fail-soft contracts `search_post` (uncached) and `probe_post` /
//! `window_post` (cached): inside the window the exact game value, outside
//! it a sound bound on that value.

use vstd::prelude::*;

use crate::model::{game_value, has_immediate_win, num_moves, win_score, Board};

verus! {

/// Lowest score a game reachable from a legal position can take: a loss on
/// the opponent's fourth stone.
pub const MIN_SCORE: i32 = -18;

/// Highest such score: a win on the mover's fourth stone.
pub const MAX_SCORE: i32 = 18;

/// What any sound bounded search promises about its result `r` for the
/// position `b` and window `(alpha, beta)`: the result equals the game
/// value when it falls inside the window and bounds it from the correct
/// side otherwise, and an immediate win above `alpha` returns its exact
/// score.
pub open spec fn window_post(b: Board, alpha: int, beta: int, r: int) -> bool {
    &&& -21 <= r <= 21
    &&& r <= alpha ==> game_value(b) <= r
    &&& r >= beta ==> game_value(b) >= r
    &&& alpha < r < beta ==> game_value(b) == r
    &&& (has_immediate_win(b) && win_score(num_moves(b)) > alpha) ==> r == win_score(
        num_moves(b),
    )
}

/// What an uncached search additionally promises: the result never falls
/// below `alpha` (or zero for positive windows), and without an immediate
/// win never rises above `beta` (or zero).  With these the result is
/// pinned completely; a cached search may clip past either line on a
/// stored bound and promises only `window_post`.
pub open spec fn search_post(b: Board, alpha: int, beta: int, r: int) -> bool {
    &&& window_post(b, alpha, beta, r)
    &&& r >= (if alpha <= 0 {
        alpha
    } else {
        0
    })
    &&& !has_immediate_win(b) ==> r <= (if beta >= 0 {
        beta
    } else {
        0
    })
}

/// What one cached null-window probe promises: `window_post`, with an
/// immediate win always returning its exact score.
pub open spec fn probe_post(b: Board, alpha: int, beta: int, r: int) -> bool {
    &&& window_post(b, alpha, beta, r)
    &&& has_immediate_win(b) ==> r == win_score(num_moves(b))
}

/// What a whole solve over window `(alpha, beta)` returns: the game value
/// clamped into the window.  The weak window `(-1, 1)` therefore answers
/// -1, 0 or 1 — the sign of the score — and the full window the exact
/// score.  These clauses determine the result completely.
pub open spec fn solve_post(b: Board, alpha: int, beta: int, r: int) -> bool {
    &&& alpha <= r <= beta
    &&& r == alpha ==> game_value(b) <= alpha
    &&& r == beta ==> game_value(b) >= beta
    &&& alpha < r < beta ==> game_value(b) == r
}

/// Clamping a bounded-search result into its window meets the solve
/// contract.
pub proof fn lemma_clamp_post(b: Board, alpha: int, beta: int, raw: int, r: int)
    requires
        alpha < beta,
        window_post(b, alpha, beta, raw),
        r == (if raw < alpha {
            alpha
        } else if raw > beta {
            beta
        } else {
            raw
        }),
    ensures
        solve_post(b, alpha, beta, r),
{
}

/// The solve contract has one answer: the clamped game value.
pub proof fn lemma_solve_post_unique(b: Board, alpha: int, beta: int, r1: int, r2: int)
    requires
        alpha < beta,
        solve_post(b, alpha, beta, r1),
        solve_post(b, alpha, beta, r2),
    ensures
        r1 == r2,
{
}

/// A search engine over one owned position.
pub trait Solver: Sized {
    /// The engine's invariant: its position is a standing game and its
    /// configuration is usable.
    spec fn inv(&self) -> bool;

    /// The position the engine searches.
    spec fn board(&self) -> Board;

    /// The window the engine was configured with.
    spec fn window(&self) -> (int, int);

    /// The engine's node counter: how many search nodes the last solve
    /// visited, saturating rather than overflowing.
    spec fn nodes(&self) -> nat;

    /// What this engine's `solve` promises about its result.
    spec fn post(pre: Self, r: int) -> bool;

    /// Compute the score of the position from the mover's point of view.
    fn solve(&mut self) -> (r: i32)
        requires
            old(self).inv(),
        ensures
            final(self).inv(),
            final(self).board() == old(self).board(),
            final(self).window() == old(self).window(),
            Self::post(*old(self), r as int),
    ;

    /// How many search nodes the last `solve` call visited.
    fn explored_nodes(&self) -> (r: usize)
        ensures
            r as nat == self.nodes(),
    ;
}

/// The center-out enumeration order of the columns.
pub open spec fn center_order() -> Seq<usize> {
    seq![3usize, 2usize, 4usize, 1usize, 5usize, 0usize, 6usize]
}

/// The place of column `c` in the center-out order.
pub open spec fn center_rank(c: int) -> int {
    if c == 3 {
        0int
    } else if c == 2 {
        1int
    } else if c == 4 {
        2int
    } else if c == 1 {
        3int
    } else if c == 5 {
        4int
    } else if c == 0 {
        5int
    } else {
        6int
    }
}

} // verus!

pub mod negamax_solver;

pub mod alpha_beta_solver;
pub mod center_columns_solver;
pub mod iterative_deepening_solver;
pub mod move_score_solver;
