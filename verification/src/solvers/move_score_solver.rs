//! The strongest engine: the filtering bitboard, heuristic move ordering,
//! the transposition cache, and the null-window driver, together.
//!
//! Each node searches only the non-losing moves; when none exists the loss
//! is scored outright, and the bound "the opponent cannot win at once"
//! tightens the window from below before any child is visited.

use vstd::prelude::*;

use crate::model::{
    best_from, board_wf, can_play_at, game_value, has_immediate_win, lemma_all_losing,
    lemma_best_from_lb, lemma_best_from_ub, lemma_can_play_moves, lemma_endgame_draw,
    lemma_moves_le, lemma_play_at, lemma_play_no_wins, lemma_value_imm, lemma_value_range,
    lemma_value_ub_no_win, no_wins, num_moves, play_at, wins_at, Board,
};
use crate::move_sorter::MoveSorter;
use crate::positions::advance_bit_position::{non_losing, AdvanceBitPosition};
use crate::positions::Position;
use crate::solvers::{lemma_clamp_post, solve_post, window_post, Solver, MAX_SCORE, MIN_SCORE};
use crate::transposition_table::{TranspositionTable};

verus! {

/// Loss-avoiding, move-scored, cached search over the filtering bitboard.
pub struct MoveScoreSolver {
    position: AdvanceBitPosition,
    alpha: i32,
    beta: i32,
    table: TranspositionTable,
    explored_nodes: usize,
}

impl MoveScoreSolver {
    /// A solver over `position` with search window `(alpha, beta)`,
    /// memoizing into `table`.
    pub fn new(
        position: AdvanceBitPosition,
        alpha: i32,
        beta: i32,
        table: TranspositionTable,
    ) -> (r: Self)
        requires
            position.wf(),
            no_wins(position@),
            MIN_SCORE <= alpha < beta <= MAX_SCORE,
            table.inv(),
        ensures
            r.inv(),
            r.board() == position@,
            r.window() == (alpha as int, beta as int),
    {
        Self { position, explored_nodes: 0, alpha, beta, table }
    }

    /// One negamax node over the non-losing moves only.  Called only on
    /// positions without an immediate win — the driver has already scored
    /// those — so a node with no non-losing move is a known loss and a node
    /// with one is worth at least the two-moves-out loss score.
    fn negamax(&mut self, alpha: i32, beta: i32) -> (r: i32)
        requires
            old(self).position.wf(),
            no_wins(old(self).position@),
            !has_immediate_win(old(self).position@),
            old(self).table.inv(),
            MIN_SCORE <= alpha < beta <= MAX_SCORE,
        ensures
            final(self).position == old(self).position,
            final(self).alpha == old(self).alpha,
            final(self).beta == old(self).beta,
            final(self).table.inv(),
            final(self).explored_nodes >= old(self).explored_nodes,
            old(self).explored_nodes < usize::MAX ==> final(self).explored_nodes > old(
                self,
            ).explored_nodes,
            window_post(old(self).position@, alpha as int, beta as int, r as int),
        decreases 42 - num_moves(old(self).position@),
    {
        let ghost b = self.position@;
        proof {
            self.position.wf_board();
            lemma_moves_le(b);
        }
        if self.explored_nodes < usize::MAX {
            self.explored_nodes = self.explored_nodes + 1;
        }
        let moves = self.position.played_moves();
        let next = self.position.possible_non_losing_moves();
        if next.len() == 0 {
            proof {
                if num_moves(b) < 42 {
                    assert forall|c: int| can_play_at(b, c) implies has_immediate_win(
                        #[trigger] play_at(b, c),
                    ) by {
                        if !has_immediate_win(play_at(b, c)) {
                            assert(non_losing(b, c));
                            assert(next@.contains(c as usize));
                        }
                    }
                    lemma_all_losing(b);
                }
            }
            return -(((42 - moves) / 2) as i32);
        }
        let ghost c0 = next@[0] as int;
        proof {
            assert(non_losing(b, c0));
            lemma_can_play_moves(b, c0);
        }
        if moves >= 40 {
            proof {
                lemma_endgame_draw(b, c0);
            }
            return 0;
        }
        // The opponent cannot win at once after a non-losing move, so the
        // game runs at least two more moves: a sound lower bound.
        let lower_bound = -(((42 - moves - 2) / 2) as i32);
        proof {
            lemma_play_at(b, c0);
            lemma_value_ub_no_win(play_at(b, c0));
            lemma_best_from_lb(b, 0, c0);
            assert(game_value(b) >= lower_bound);
        }
        let mut alpha2 = alpha;
        if alpha2 < lower_bound {
            alpha2 = lower_bound;
            if alpha2 >= beta {
                return alpha2;
            }
        }
        proof {
            lemma_value_ub_no_win(b);
        }
        let mut upper_bound = ((42 - moves - 1) / 2) as i32;
        let cached = self.table.get(self.position.base());
        if let Some(value) = cached {
            upper_bound = value as i32 + MIN_SCORE - 1;
        }
        let mut beta2 = beta;
        if upper_bound < beta2 {
            beta2 = upper_bound;
            if alpha2 >= beta2 {
                return beta2;
            }
        }
        let ghost gv = game_value(b);
        proof {
            assert(gv == best_from(b, 0));
            lemma_value_range(b);
        }
        // Rank the non-losing moves by their heuristic score.
        let mut sorter = MoveSorter::new();
        let mut i: usize = 0;
        while i < next.len()
            invariant
                self.position.wf(),
                self.position@ == b,
                board_wf(b),
                0 <= i <= next@.len(),
                next@.len() <= 7,
                forall|j: int| 0 <= j < next@.len() ==> non_losing(b, #[trigger] next@[j] as int),
                sorter.sorted(),
                sorter.view().len() == i,
                forall|p: (usize, i32)|
                    #[trigger] sorter.view().contains(p) ==> p.0 < 7 && non_losing(b, p.0 as int),
                forall|j: int|
                    0 <= j < i ==> exists|p: (usize, i32)|
                        #[trigger] sorter.view().contains(p) && p.0 == (#[trigger] next@[j]),
            decreases next@.len() - i,
        {
            let colm = next[i];
            let score = self.position.score(colm);
            let ghost before = sorter.view();
            sorter.add(colm, score as i32);
            proof {
                assert forall|j: int| 0 <= j < i + 1 implies exists|p: (usize, i32)|
                    #[trigger] sorter.view().contains(p) && p.0 == (#[trigger] next@[j]) by {
                    if j == i {
                        assert(sorter.view().contains((colm, score as i32)));
                    } else {
                        let p = choose|p: (usize, i32)| before.contains(p) && p.0 == next@[j];
                        assert(sorter.view().contains(p));
                    }
                }
            }
            i = i + 1;
        }
        // Search the candidates from the best heuristic score down.
        let mut k = sorter.len();
        while k > 0
            invariant
                b == old(self).position@,
                self.position == old(self).position,
                self.position.wf(),
                self.alpha == old(self).alpha,
                self.beta == old(self).beta,
                self.explored_nodes >= old(self).explored_nodes,
                old(self).explored_nodes < usize::MAX ==> self.explored_nodes > old(
                    self,
                ).explored_nodes,
                self.table.inv(),
                no_wins(b),
                board_wf(b),
                !has_immediate_win(b),
                moves == num_moves(b),
                moves < 40,
                MIN_SCORE <= alpha < beta <= MAX_SCORE,
                beta2 == beta || beta2 == upper_bound,
                alpha2 < beta2 <= beta,
                gv == game_value(b),
                gv == best_from(b, 0),
                gv <= upper_bound,
                gv >= lower_bound,
                lower_bound == -((42 - moves - 2) / 2),
                -18 <= gv <= 18,
                -21 <= alpha2 <= 21,
                alpha <= alpha2,
                lower_bound <= alpha2,
                alpha2 > alpha ==> gv >= alpha2,
                0 <= k <= sorter.view().len(),
                forall|p: (usize, i32)|
                    #[trigger] sorter.view().contains(p) ==> p.0 < 7 && non_losing(b, p.0 as int),
                forall|j: int|
                    0 <= j < next@.len() ==> exists|p: (usize, i32)|
                        #[trigger] sorter.view().contains(p) && p.0 == (#[trigger] next@[j]),
                forall|j: int| 0 <= j < next@.len() ==> non_losing(b, #[trigger] next@[j] as int),
                forall|c: int| 0 <= c < 7 && non_losing(b, c) ==> next@.contains(c as usize),
                forall|j: int|
                    k <= j < sorter.view().len() ==> -game_value(
                        play_at(b, (#[trigger] sorter.view()[j]).0 as int),
                    ) <= alpha2,
            decreases k,
        {
            k = k - 1;
            let entry = sorter.get(k);
            let colm = entry.0;
            proof {
                assert(sorter.view().contains(sorter.view()[k as int]));
                assert(non_losing(b, colm as int));
                if wins_at(b, colm as int) {
                    assert(has_immediate_win(b));
                }
                lemma_play_at(b, colm as int);
                lemma_play_no_wins(b, colm as int);
            }
            let old_position = self.position;
            self.position.play(colm);
            let score = self.negamax(-beta2, -alpha2);
            self.position = old_position;
            proof {
                lemma_best_from_lb(b, 0, colm as int);
            }
            let ghost cv = game_value(play_at(b, colm as int));
            let neg = -score;
            if neg > alpha2 {
                proof {
                    assert(score <= -alpha2);
                    if score <= -beta2 {
                        assert(cv <= score);
                    } else {
                        assert(cv == score);
                    }
                    assert(gv >= neg);
                }
                alpha2 = neg;
                if alpha2 >= beta2 {
                    return alpha2;
                }
            } else {
                proof {
                    if score >= -alpha2 {
                        assert(cv >= score);
                    } else if score > -beta2 {
                        assert(cv == score);
                    } else {
                        assert(cv <= score);
                        assert(neg >= beta2);
                        assert(false);
                    }
                    assert(-cv <= alpha2);
                }
            }
        }
        proof {
            assert forall|c: int| 0 <= c < 7 && can_play_at(b, c) implies -game_value(
                #[trigger] play_at(b, c),
            ) <= alpha2 by {
                lemma_play_at(b, c);
                if non_losing(b, c) {
                    assert(next@.contains(c as usize));
                    let j = choose|j: int| 0 <= j < next@.len() && next@[j] == c as usize;
                    let p = choose|p: (usize, i32)|
                        sorter.view().contains(p) && p.0 == next@[j];
                    let kk = choose|kk: int|
                        0 <= kk < sorter.view().len() && sorter.view()[kk] == p;
                    assert(-game_value(play_at(b, (sorter.view()[kk]).0 as int)) <= alpha2);
                } else {
                    lemma_value_imm(play_at(b, c));
                }
            }
            lemma_best_from_ub(b, 0, alpha2 as int);
        }
        let stored = (alpha2 - MIN_SCORE + 1) as u8;
        self.table.put(self.position.base(), stored);
        alpha2
    }
}

impl MoveScoreSolver {
    /// What this engine's `solve` contract says, in terms of its board and
    /// window: the bounded-search contract the laws are stated over.
    pub proof fn post_meaning(pre: Self, r: int)
        requires
            Self::post(pre, r),
        ensures
            solve_post(pre.board(), pre.window().0, pre.window().1, r),
    {
    }
}

impl Solver for MoveScoreSolver {
    closed spec fn inv(&self) -> bool {
        &&& self.position.wf()
        &&& no_wins(self.position@)
        &&& MIN_SCORE <= self.alpha < self.beta <= MAX_SCORE
        &&& self.table.inv()
    }

    closed spec fn board(&self) -> Board {
        self.position@
    }

    closed spec fn window(&self) -> (int, int) {
        (self.alpha as int, self.beta as int)
    }

    closed spec fn nodes(&self) -> nat {
        self.explored_nodes as nat
    }

    closed spec fn post(pre: Self, r: int) -> bool {
        solve_post(pre.position@, pre.alpha as int, pre.beta as int, r)
    }

    /// Score an immediate win outright, then converge by null-window
    /// probes over a shrinking interval, probing nearer zero.
    fn solve(&mut self) -> (r: i32) {
        self.explored_nodes = 0;
        let ghost b = self.position@;
        let ghost gv = game_value(b);
        let alpha0 = self.alpha;
        let beta0 = self.beta;
        proof {
            self.position.wf_board();
            lemma_moves_le(b);
            lemma_value_range(b);
        }
        let moves = self.position.played_moves();
        if self.position.can_win_next() {
            proof {
                lemma_value_imm(b);
            }
            let raw = ((42 - moves + 1) / 2) as i32;
            let result = if raw > beta0 {
                beta0
            } else if raw < alpha0 {
                alpha0
            } else {
                raw
            };
            proof {
                assert(window_post(b, alpha0 as int, beta0 as int, raw as int));
                lemma_clamp_post(b, alpha0 as int, beta0 as int, raw as int, result as int);
            }
            return result;
        }
        let mut left = alpha0;
        let mut right = beta0;
        while left < right
            invariant
                b == old(self).position@,
                self.position == old(self).position,
                self.position.wf(),
                self.alpha == old(self).alpha,
                self.beta == old(self).beta,
                self.table.inv(),
                no_wins(b),
                board_wf(b),
                !has_immediate_win(b),
                num_moves(b) <= 42,
                gv == game_value(b),
                -18 <= gv <= 18,
                alpha0 == self.alpha,
                beta0 == self.beta,
                MIN_SCORE <= alpha0 < beta0 <= MAX_SCORE,
                alpha0 <= left,
                right <= beta0,
                -21 <= left <= 21,
                -21 <= right <= 21,
                left > alpha0 ==> gv >= left,
                right < beta0 ==> gv <= right,
            decreases (if left < right {
                right - left
            } else {
                0int
            }),
        {
            let mut median = left + (right - left) / 2;
            let half_left = if left >= 0 {
                left / 2
            } else {
                -((-left) / 2)
            };
            let half_right = if right >= 0 {
                right / 2
            } else {
                -((-right) / 2)
            };
            if median <= 0 && half_left < median {
                median = half_left;
            } else if median >= 0 && median < half_right {
                median = half_right;
            }
            proof {
                assert(left <= median < right);
            }
            let score = self.negamax(median, median + 1);
            if score <= median {
                right = score;
            } else {
                left = score;
            }
        }
        proof {
            assert(window_post(b, alpha0 as int, beta0 as int, left as int));
        }
        // The converged value may sit past the window on a cached bound;
        // the answer is the game value clamped into the window.
        let result = if left < alpha0 {
            alpha0
        } else if left > beta0 {
            beta0
        } else {
            left
        };
        proof {
            lemma_clamp_post(b, alpha0 as int, beta0 as int, left as int, result as int);
        }
        result
    }

    fn explored_nodes(&self) -> (r: usize) {
        self.explored_nodes
    }
}

} // verus!
