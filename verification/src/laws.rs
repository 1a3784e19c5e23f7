//! The properties that hold across the library's operations, each proved
//! from the public contracts alone.

use vstd::prelude::*;

use crate::model::{
    board_wf, can_play_at, game_value, lemma_play_at, lemma_unplay_play, lemma_value_range,
    mover_first, num_moves, play_at, unplay_at, Board,
};
use crate::solvers::{lemma_solve_post_unique, solve_post, MAX_SCORE, MIN_SCORE};

verus! {

/// A move followed by its undo leaves the board exactly as it was, for
/// every playable column of every well-formed position; with it, every
/// question asked of the board — a column's playability, a move's winning,
/// the move count, any derived key — answers as before.
pub proof fn lemma_play_undo_round_trip(b: Board, c: int)
    requires
        board_wf(b),
        can_play_at(b, c),
    ensures
        unplay_at(play_at(b, c), c) == b,
        num_moves(play_at(b, c)) == num_moves(b) + 1,
        play_at(b, c).cols[c].last() == !mover_first(play_at(b, c)),
{
    lemma_play_at(b, c);
    lemma_unplay_play(b, c);
}

/// A solve over the full window returns the game value itself: whatever
/// result satisfies the full-window contract equals `game_value`.
pub proof fn lemma_strong_search_exact(b: Board, r: int)
    requires
        board_wf(b),
        num_moves(b) <= 42,
        solve_post(b, MIN_SCORE as int, MAX_SCORE as int, r),
    ensures
        r == game_value(b),
{
    lemma_value_range(b);
}

/// All full-window solver variants agree: two results of the full-window
/// contract on the same position are the same score, the game value.
pub proof fn lemma_strong_solvers_agree(b: Board, r1: int, r2: int)
    requires
        board_wf(b),
        num_moves(b) <= 42,
        solve_post(b, MIN_SCORE as int, MAX_SCORE as int, r1),
        solve_post(b, MIN_SCORE as int, MAX_SCORE as int, r2),
    ensures
        r1 == r2,
        r1 == game_value(b),
{
    lemma_strong_search_exact(b, r1);
    lemma_strong_search_exact(b, r2);
}

/// The weak window decides the game: its result is one of -1, 0 or 1, and
/// it agrees in sign with the exact score of the full window, on every
/// legal position.
pub proof fn lemma_weak_window_sign(b: Board, rw: int, rs: int)
    requires
        board_wf(b),
        num_moves(b) <= 42,
        solve_post(b, -1, 1, rw),
        solve_post(b, MIN_SCORE as int, MAX_SCORE as int, rs),
    ensures
        rw == -1 || rw == 0 || rw == 1,
        rw > 0 <==> rs > 0,
        rw == 0 <==> rs == 0,
        rw < 0 <==> rs < 0,
{
    lemma_strong_search_exact(b, rs);
}

/// Any two solves over one window agree: the solve contract has a single
/// answer, so the result is a deterministic function of the position and
/// the window, across variants and across repeated calls.
pub proof fn lemma_solvers_agree(b: Board, alpha: int, beta: int, r1: int, r2: int)
    requires
        alpha < beta,
        solve_post(b, alpha, beta, r1),
        solve_post(b, alpha, beta, r2),
    ensures
        r1 == r2,
{
    lemma_solve_post_unique(b, alpha, beta, r1, r2);
}

} // verus!
