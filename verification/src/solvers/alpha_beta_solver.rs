//! Alpha-beta pruning over the array board.
//!
//! The search carries a window `(alpha, beta)`: branches that cannot move
//! the result inside the window are cut off.  Its contract, `search_post`,
//! proves that pruning never changes the answer inside the window.

use vstd::prelude::*;

use crate::model::{
    best_from, board_wf, can_play_at, game_value, has_immediate_win, lemma_best_from_lb,
    lemma_best_from_ub, lemma_can_play_moves, lemma_moves_le,
    lemma_play_at, lemma_play_no_wins, lemma_unplay_play, lemma_value_range,
    lemma_value_ub_no_win, no_wins, num_moves, play_at, wins_at, Board,
};
use crate::positions::array_position::ArrayPosition;
use crate::positions::Position;
use crate::solvers::{lemma_clamp_post, search_post, solve_post, Solver, MAX_SCORE, MIN_SCORE};

verus! {

/// Negamax with alpha-beta pruning over an `ArrayPosition`.
pub struct AlphaBetaSolver {
    position: ArrayPosition,
    alpha: i32,
    beta: i32,
    explored_nodes: usize,
}

impl AlphaBetaSolver {
    /// A solver over `position` with search window `(alpha, beta)`:
    /// `(-1, 1)` decides win, draw or loss; `(MIN_SCORE, MAX_SCORE)` the
    /// exact score.
    pub fn new(position: ArrayPosition, alpha: i32, beta: i32) -> (r: Self)
        requires
            position.wf(),
            no_wins(position@),
            MIN_SCORE <= alpha < beta <= MAX_SCORE,
        ensures
            r.inv(),
            r.board() == position@,
            r.window() == (alpha as int, beta as int),
    {
        Self { position, explored_nodes: 0, alpha, beta }
    }

    /// One negamax node over window `(alpha, beta)`: draw and immediate
    /// wins are scored outright, the analytic upper bound may narrow the
    /// window, and each child that raises `alpha` to `beta` cuts the rest.
    fn negamax(&mut self, alpha: i32, beta: i32) -> (r: i32)
        requires
            old(self).position.wf(),
            no_wins(old(self).position@),
            MIN_SCORE <= alpha < beta <= MAX_SCORE,
        ensures
            final(self).position.wf(),
            final(self).position@ == old(self).position@,
            final(self).alpha == old(self).alpha,
            final(self).beta == old(self).beta,
            final(self).explored_nodes >= old(self).explored_nodes,
            old(self).explored_nodes < usize::MAX ==> final(self).explored_nodes > old(
                self,
            ).explored_nodes,
            search_post(old(self).position@, alpha as int, beta as int, r as int),
        decreases 42 - num_moves(old(self).position@),
    {
        let ghost b = self.position@;
        proof {
            self.position.wf_board();
            lemma_moves_le(b);
        }
        if self.explored_nodes < usize::MAX {
            self.explored_nodes = self.explored_nodes + 1;
        }
        let moves = self.position.played_moves();
        if moves == 42 {
            return 0;
        }
        let mut colm: usize = 0;
        while colm < 7
            invariant
                b == old(self).position@,
                self.position@ == b,
                self.position.wf(),
                self.alpha == old(self).alpha,
                self.beta == old(self).beta,
                self.explored_nodes >= old(self).explored_nodes,
                old(self).explored_nodes < usize::MAX ==> self.explored_nodes > old(
                    self,
                ).explored_nodes,
                no_wins(b),
                board_wf(b),
                moves == num_moves(b),
                moves < 42,
                MIN_SCORE <= alpha < beta <= MAX_SCORE,
                0 <= colm <= 7,
                forall|c: int| 0 <= c < colm ==> !(can_play_at(b, c) && #[trigger] wins_at(b, c)),
            decreases 7 - colm,
        {
            if self.position.can_play(colm) && self.position.is_winning(colm) {
                proof {
                    assert(has_immediate_win(b));
                    lemma_can_play_moves(b, colm as int);
                }
                return ((42 - moves + 1) / 2) as i32;
            }
            colm = colm + 1;
        }
        proof {
            if has_immediate_win(b) {
                let c = choose|c: int| can_play_at(b, c) && wins_at(b, c);
                assert(false);
            }
            lemma_value_ub_no_win(b);
        }
        let upper_bound = ((42 - moves - 1) / 2) as i32;
        let mut beta2 = beta;
        if upper_bound < beta2 {
            beta2 = upper_bound;
            if alpha >= beta2 {
                return beta2;
            }
        }
        let ghost gv = game_value(b);
        proof {
            assert(gv == best_from(b, 0));
            lemma_value_range(b);
        }
        let mut alpha2 = alpha;
        let mut colm: usize = 0;
        while colm < 7
            invariant
                b == old(self).position@,
                self.position@ == b,
                self.position.wf(),
                self.alpha == old(self).alpha,
                self.beta == old(self).beta,
                self.explored_nodes >= old(self).explored_nodes,
                old(self).explored_nodes < usize::MAX ==> self.explored_nodes > old(
                    self,
                ).explored_nodes,
                no_wins(b),
                board_wf(b),
                !has_immediate_win(b),
                moves == num_moves(b),
                moves < 42,
                MIN_SCORE <= alpha < beta <= MAX_SCORE,
                beta2 == beta || beta2 == upper_bound,
                alpha < beta2 <= beta,
                gv == game_value(b),
                gv == best_from(b, 0),
                gv <= upper_bound,
                -18 <= gv <= 18,
                0 <= colm <= 7,
                alpha <= alpha2 < beta2,
                alpha2 > alpha ==> gv >= alpha2,
                forall|c: int|
                    0 <= c < colm && can_play_at(b, c) ==> -game_value(#[trigger] play_at(b, c))
                        <= alpha2,
            decreases 7 - colm,
        {
            if self.position.can_play(colm) {
                proof {
                    if wins_at(b, colm as int) {
                        assert(has_immediate_win(b));
                    }
                    lemma_play_at(b, colm as int);
                    lemma_play_no_wins(b, colm as int);
                }
                self.position.play(colm);
                let score = self.negamax(-beta2, -alpha2);
                self.position.reverse_play(colm);
                proof {
                    lemma_unplay_play(b, colm as int);
                    lemma_best_from_lb(b, 0, colm as int);
                }
                let ghost cv = game_value(play_at(b, colm as int));
                let neg = -score;
                if neg > alpha2 {
                    proof {
                        // The child result came back above the child window's
                        // top, so it bounds the child value from above, which
                        // bounds this node's value from below.
                        assert(score <= -alpha2);
                        if score <= -beta2 {
                            assert(cv <= score);
                        } else {
                            assert(cv == score);
                        }
                        assert(gv >= neg);
                    }
                    alpha2 = neg;
                    if alpha2 >= beta2 {
                        return alpha2;
                    }
                } else {
                    proof {
                        if score >= -alpha2 {
                            assert(cv >= score);
                        } else if score > -beta2 {
                            assert(cv == score);
                        } else {
                            assert(cv <= score);
                            assert(neg >= beta2);
                            assert(false);
                        }
                        assert(-cv <= alpha2);
                    }
                }
            }
            colm = colm + 1;
        }
        proof {
            if alpha2 == alpha {
                lemma_best_from_ub(b, 0, alpha as int);
            } else {
                lemma_best_from_ub(b, 0, alpha2 as int);
            }
        }
        alpha2
    }
}

impl AlphaBetaSolver {
    /// What this engine's `solve` contract says, in terms of its board and
    /// window: the bounded-search contract the laws are stated over.
    pub proof fn post_meaning(pre: Self, r: int)
        requires
            Self::post(pre, r),
        ensures
            solve_post(pre.board(), pre.window().0, pre.window().1, r),
    {
    }
}

impl Solver for AlphaBetaSolver {
    closed spec fn inv(&self) -> bool {
        &&& self.position.wf()
        &&& no_wins(self.position@)
        &&& MIN_SCORE <= self.alpha < self.beta <= MAX_SCORE
    }

    closed spec fn board(&self) -> Board {
        self.position@
    }

    closed spec fn window(&self) -> (int, int) {
        (self.alpha as int, self.beta as int)
    }

    closed spec fn nodes(&self) -> nat {
        self.explored_nodes as nat
    }

    closed spec fn post(pre: Self, r: int) -> bool {
        solve_post(pre.position@, pre.alpha as int, pre.beta as int, r)
    }

    fn solve(&mut self) -> (r: i32) {
        self.explored_nodes = 0;
        let alpha = self.alpha;
        let beta = self.beta;
        let raw = self.negamax(alpha, beta);
        // The search may fail soft past the window; the answer is the
        // game value clamped into the window.
        let result = if raw < alpha {
            alpha
        } else if raw > beta {
            beta
        } else {
            raw
        };
        proof {
            lemma_clamp_post(
                old(self).position@,
                alpha as int,
                beta as int,
                raw as int,
                result as int,
            );
        }
        result
    }

    fn explored_nodes(&self) -> (r: usize) {
        self.explored_nodes
    }
}

} // verus!
