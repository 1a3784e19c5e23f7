//! Null-window driving of the cached bitboard search.
//!
//! The driver narrows an interval `[left, right)` around the true score by
//! probing with null windows (`beta = alpha + 1`), biasing each probe
//! toward zero so that play-to-draw positions settle quickly.  Every probe
//! shares one transposition cache, so later probes reuse earlier bounds.

use vstd::prelude::*;

use crate::model::{
    best_from, board_wf, can_play_at, game_value, has_immediate_win, lemma_best_from_lb,
    lemma_best_from_ub, lemma_can_play_moves, lemma_moves_le,
    lemma_play_at, lemma_play_no_wins, lemma_value_range, lemma_value_ub_no_win, no_wins,
    num_moves, play_at, win_score, wins_at, Board, WIDTH,
};
use crate::positions::bit_position::BitPosition;
use crate::positions::Position;
use crate::solvers::{center_order, center_rank, lemma_clamp_post, probe_post, solve_post, window_post, Solver, MAX_SCORE, MIN_SCORE};
use crate::transposition_table::{decode, TranspositionTable};

verus! {

/// Cached alpha-beta over the bitboard, run through a null-window driver.
pub struct IterativeDeepeningSolver {
    position: BitPosition,
    alpha: i32,
    beta: i32,
    table: TranspositionTable,
    explored_nodes: usize,
    column_order: [usize; WIDTH],
}

impl IterativeDeepeningSolver {
    /// A solver over `position` with search window `(alpha, beta)`,
    /// memoizing into `table`.
    pub fn new(position: BitPosition, alpha: i32, beta: i32, table: TranspositionTable) -> (r:
        Self)
        requires
            position.wf(),
            no_wins(position@),
            MIN_SCORE <= alpha < beta <= MAX_SCORE,
            table.inv(),
        ensures
            r.inv(),
            r.board() == position@,
            r.window() == (alpha as int, beta as int),
    {
        let column_order: [usize; WIDTH] = [3, 2, 4, 1, 5, 0, 6];
        proof {
            assert(column_order@ =~= center_order());
        }
        Self { position, explored_nodes: 0, alpha, beta, table, column_order }
    }

    /// One negamax node: as the center-ordered engine, but the analytic
    /// bound may be replaced by a cached one, and a finished node deposits
    /// its bound in the cache.
    fn negamax(&mut self, alpha: i32, beta: i32) -> (r: i32)
        requires
            old(self).position.wf(),
            no_wins(old(self).position@),
            old(self).column_order@ == center_order(),
            old(self).table.inv(),
            MIN_SCORE <= alpha < beta <= MAX_SCORE,
        ensures
            final(self).position == old(self).position,
            final(self).alpha == old(self).alpha,
            final(self).beta == old(self).beta,
            final(self).column_order == old(self).column_order,
            final(self).table.inv(),
            final(self).explored_nodes >= old(self).explored_nodes,
            old(self).explored_nodes < usize::MAX ==> final(self).explored_nodes > old(
                self,
            ).explored_nodes,
            probe_post(old(self).position@, alpha as int, beta as int, r as int),
        decreases 42 - num_moves(old(self).position@),
    {
        let ghost b = self.position@;
        proof {
            self.position.wf_board();
            lemma_moves_le(b);
        }
        if self.explored_nodes < usize::MAX {
            self.explored_nodes = self.explored_nodes + 1;
        }
        let moves = self.position.played_moves();
        if moves == 42 {
            return 0;
        }
        let mut colm: usize = 0;
        while colm < 7
            invariant
                b == old(self).position@,
                self.position == old(self).position,
                self.position.wf(),
                self.alpha == old(self).alpha,
                self.beta == old(self).beta,
                self.explored_nodes >= old(self).explored_nodes,
                old(self).explored_nodes < usize::MAX ==> self.explored_nodes > old(
                    self,
                ).explored_nodes,
                self.column_order == old(self).column_order,
                self.table == old(self).table,
                self.table.inv(),
                no_wins(b),
                board_wf(b),
                moves == num_moves(b),
                moves < 42,
                MIN_SCORE <= alpha < beta <= MAX_SCORE,
                0 <= colm <= 7,
                forall|c: int| 0 <= c < colm ==> !(can_play_at(b, c) && #[trigger] wins_at(b, c)),
            decreases 7 - colm,
        {
            if self.position.can_play(colm) && self.position.is_winning(colm) {
                proof {
                    assert(has_immediate_win(b));
                    lemma_can_play_moves(b, colm as int);
                }
                return ((42 - moves + 1) / 2) as i32;
            }
            colm = colm + 1;
        }
        proof {
            if has_immediate_win(b) {
                let c = choose|c: int| can_play_at(b, c) && wins_at(b, c);
                assert(false);
            }
            lemma_value_ub_no_win(b);
        }
        let mut upper_bound = ((42 - moves - 1) / 2) as i32;
        let cached = self.table.get(&self.position);
        if let Some(value) = cached {
            upper_bound = value as i32 + MIN_SCORE - 1;
        }
        let mut beta2 = beta;
        if upper_bound < beta2 {
            beta2 = upper_bound;
            if alpha >= beta2 {
                return beta2;
            }
        }
        let ghost gv = game_value(b);
        proof {
            assert(gv == best_from(b, 0));
            lemma_value_range(b);
        }
        let mut alpha2 = alpha;
        let mut ind: usize = 0;
        while ind < 7
            invariant
                b == old(self).position@,
                self.position == old(self).position,
                self.position.wf(),
                self.alpha == old(self).alpha,
                self.beta == old(self).beta,
                self.explored_nodes >= old(self).explored_nodes,
                old(self).explored_nodes < usize::MAX ==> self.explored_nodes > old(
                    self,
                ).explored_nodes,
                self.column_order == old(self).column_order,
                self.column_order@ == center_order(),
                self.table.inv(),
                no_wins(b),
                board_wf(b),
                !has_immediate_win(b),
                moves == num_moves(b),
                moves < 42,
                MIN_SCORE <= alpha < beta <= MAX_SCORE,
                beta2 == beta || beta2 == upper_bound,
                alpha < beta2 <= beta,
                gv == game_value(b),
                gv == best_from(b, 0),
                gv <= upper_bound,
                -18 <= gv <= 18,
                0 <= ind <= 7,
                alpha <= alpha2 < beta2,
                alpha2 > alpha ==> gv >= alpha2,
                forall|c: int|
                    0 <= c < 7 && center_rank(c) < ind && can_play_at(b, c)
                        ==> -game_value(#[trigger] play_at(b, c)) <= alpha2,
            decreases 7 - ind,
        {
            let colm = self.column_order[ind];
            proof {
                assert(colm == center_order()[ind as int]);
                assert(center_rank(colm as int) == ind);
            }
            if self.position.can_play(colm) {
                proof {
                    if wins_at(b, colm as int) {
                        assert(has_immediate_win(b));
                    }
                    lemma_play_at(b, colm as int);
                    lemma_play_no_wins(b, colm as int);
                }
                let old_position = self.position;
                self.position.play(colm);
                let score = self.negamax(-beta2, -alpha2);
                self.position = old_position;
                proof {
                    lemma_best_from_lb(b, 0, colm as int);
                }
                let ghost cv = game_value(play_at(b, colm as int));
                let neg = -score;
                if neg > alpha2 {
                    proof {
                        assert(score <= -alpha2);
                        if score <= -beta2 {
                            assert(cv <= score);
                        } else {
                            assert(cv == score);
                        }
                        assert(gv >= neg);
                    }
                    alpha2 = neg;
                    if alpha2 >= beta2 {
                        return alpha2;
                    }
                } else {
                    proof {
                        if score >= -alpha2 {
                            assert(cv >= score);
                        } else if score > -beta2 {
                            assert(cv == score);
                        } else {
                            assert(cv <= score);
                            assert(neg >= beta2);
                            assert(false);
                        }
                        assert(-cv <= alpha2);
                    }
                }
            }
            ind = ind + 1;
        }
        proof {
            assert forall|c: int| 0 <= c < 7 && can_play_at(b, c) implies -game_value(
                #[trigger] play_at(b, c),
            ) <= alpha2 by {
                assert(center_rank(c) < 7);
            }
            if alpha2 == alpha {
                lemma_best_from_ub(b, 0, alpha as int);
            } else {
                lemma_best_from_ub(b, 0, alpha2 as int);
            }
            assert(gv <= alpha2);
            assert(gv <= decode((alpha2 - MIN_SCORE + 1) as u8));
        }
        let stored = (alpha2 - MIN_SCORE + 1) as u8;
        self.table.put(&self.position, stored);
        alpha2
    }
}

impl IterativeDeepeningSolver {
    /// What this engine's `solve` contract says, in terms of its board and
    /// window: the bounded-search contract the laws are stated over.
    pub proof fn post_meaning(pre: Self, r: int)
        requires
            Self::post(pre, r),
        ensures
            solve_post(pre.board(), pre.window().0, pre.window().1, r),
    {
    }
}

impl Solver for IterativeDeepeningSolver {
    closed spec fn inv(&self) -> bool {
        &&& self.position.wf()
        &&& no_wins(self.position@)
        &&& MIN_SCORE <= self.alpha < self.beta <= MAX_SCORE
        &&& self.column_order@ == center_order()
        &&& self.table.inv()
    }

    closed spec fn board(&self) -> Board {
        self.position@
    }

    closed spec fn window(&self) -> (int, int) {
        (self.alpha as int, self.beta as int)
    }

    closed spec fn nodes(&self) -> nat {
        self.explored_nodes as nat
    }

    closed spec fn post(pre: Self, r: int) -> bool {
        solve_post(pre.position@, pre.alpha as int, pre.beta as int, r)
    }

    /// Converge on the score by null-window probes over a shrinking
    /// interval, probing nearer zero than the midpoint.
    fn solve(&mut self) -> (r: i32) {
        self.explored_nodes = 0;
        let ghost b = self.position@;
        let ghost gv = game_value(b);
        let alpha0 = self.alpha;
        let beta0 = self.beta;
        proof {
            self.position.wf_board();
            lemma_moves_le(b);
            lemma_value_range(b);
        }
        let mut left = alpha0;
        let mut right = beta0;
        while left < right
            invariant
                b == old(self).position@,
                self.position == old(self).position,
                self.position.wf(),
                self.alpha == old(self).alpha,
                self.beta == old(self).beta,
                self.column_order == old(self).column_order,
                self.column_order@ == center_order(),
                self.table.inv(),
                no_wins(b),
                board_wf(b),
                num_moves(b) <= 42,
                gv == game_value(b),
                -18 <= gv <= 18,
                alpha0 == self.alpha,
                beta0 == self.beta,
                MIN_SCORE <= alpha0 < beta0 <= MAX_SCORE,
                alpha0 <= left,
                right <= beta0,
                -21 <= left <= 21,
                -21 <= right <= 21,
                left > alpha0 ==> gv >= left,
                right < beta0 ==> gv <= right,
                has_immediate_win(b) ==> (left == alpha0 || left == win_score(num_moves(b))),
                has_immediate_win(b) ==> (right == beta0 || right == win_score(num_moves(b))),
            decreases (if left < right {
                right - left
            } else {
                0int
            }),
        {
            let mut median = left + (right - left) / 2;
            let half_left = if left >= 0 {
                left / 2
            } else {
                -((-left) / 2)
            };
            let half_right = if right >= 0 {
                right / 2
            } else {
                -((-right) / 2)
            };
            if median <= 0 && half_left < median {
                median = half_left;
            } else if median >= 0 && median < half_right {
                median = half_right;
            }
            proof {
                assert(left <= median < right);
            }
            let score = self.negamax(median, median + 1);
            if score <= median {
                right = score;
            } else {
                left = score;
            }
        }
        proof {
            assert(window_post(b, alpha0 as int, beta0 as int, left as int));
        }
        // The converged value may sit past the window on a cached bound;
        // the answer is the game value clamped into the window.
        let result = if left < alpha0 {
            alpha0
        } else if left > beta0 {
            beta0
        } else {
            left
        };
        proof {
            lemma_clamp_post(b, alpha0 as int, beta0 as int, left as int, result as int);
        }
        result
    }

    fn explored_nodes(&self) -> (r: usize) {
        self.explored_nodes
    }
}

} // verus!
