//! Plain negamax over the array board: no window, no ordering, no cache.
//! The baseline the pruning variants are measured against; it computes the
//! game value exactly.

use vstd::prelude::*;

use crate::model::{
    board_wf, can_play_at, game_value, has_immediate_win, lemma_best_from_floor,
    lemma_best_from_lb, lemma_can_play_moves, lemma_exists_playable, lemma_moves_le,
    lemma_play_at, lemma_play_no_wins, lemma_unplay_play, lemma_value_range,
    no_wins, num_moves, play_at, wins_at, best_from, Board,
};
use crate::positions::array_position::ArrayPosition;
use crate::positions::Position;
use crate::solvers::{Solver, MAX_SCORE, MIN_SCORE};

verus! {

/// The baseline engine: exhaustive negamax over an `ArrayPosition`.
pub struct NegamaxSolver {
    position: ArrayPosition,
    explored_nodes: usize,
}

impl NegamaxSolver {
    /// A solver over `position`, which must be a standing game.
    pub fn new(position: ArrayPosition) -> (r: Self)
        requires
            position.wf(),
            no_wins(position@),
        ensures
            r.inv(),
            r.board() == position@,
    {
        Self { position, explored_nodes: 0 }
    }

    /// The negamax recursion: zero on a full board, the win score on an
    /// immediate win, otherwise the best negated child value.
    fn negamax(&mut self) -> (r: i32)
        requires
            old(self).position.wf(),
            no_wins(old(self).position@),
        ensures
            final(self).position.wf(),
            final(self).position@ == old(self).position@,
            r == game_value(old(self).position@),
            -21 <= r <= 21,
            final(self).explored_nodes >= old(self).explored_nodes,
            old(self).explored_nodes < usize::MAX ==> final(self).explored_nodes > old(
                self,
            ).explored_nodes,
        decreases 42 - num_moves(old(self).position@),
    {
        let ghost b = self.position@;
        proof {
            self.position.wf_board();
            lemma_moves_le(b);
        }
        if self.explored_nodes < usize::MAX {
            self.explored_nodes = self.explored_nodes + 1;
        }
        let moves = self.position.played_moves();
        if moves == 42 {
            return 0;
        }
        let mut colm: usize = 0;
        while colm < 7
            invariant
                b == old(self).position@,
                self.position@ == b,
                self.position.wf(),
                self.explored_nodes >= old(self).explored_nodes,
                old(self).explored_nodes < usize::MAX ==> self.explored_nodes > old(
                    self,
                ).explored_nodes,
                no_wins(b),
                board_wf(b),
                moves == num_moves(b),
                moves < 42,
                0 <= colm <= 7,
                forall|c: int|
                    0 <= c < colm ==> !(can_play_at(b, c) && #[trigger] wins_at(b, c)),
            decreases 7 - colm,
        {
            if self.position.can_play(colm) && self.position.is_winning(colm) {
                proof {
                    assert(has_immediate_win(b));
                    lemma_can_play_moves(b, colm as int);
                }
                return ((42 - moves + 1) / 2) as i32;
            }
            colm = colm + 1;
        }
        proof {
            if has_immediate_win(b) {
                let c = choose|c: int| can_play_at(b, c) && wins_at(b, c);
                assert(false);
            }
        }
        let ghost gv = game_value(b);
        proof {
            assert(gv == best_from(b, 0));
        }
        let mut best_score = i32::MIN;
        proof {
            lemma_best_from_floor(b, 0);
        }
        let mut colm: usize = 0;
        while colm < 7
            invariant
                b == old(self).position@,
                self.position@ == b,
                self.position.wf(),
                self.explored_nodes >= old(self).explored_nodes,
                old(self).explored_nodes < usize::MAX ==> self.explored_nodes > old(
                    self,
                ).explored_nodes,
                no_wins(b),
                board_wf(b),
                !has_immediate_win(b),
                num_moves(b) < 42,
                gv == game_value(b),
                gv == best_from(b, 0),
                0 <= colm <= 7,
                best_score == i32::MIN || -21 <= best_score <= 21,
                best_from(b, 0) == (if best_score >= best_from(b, colm as int) {
                    best_score as int
                } else {
                    best_from(b, colm as int)
                }),
            decreases 7 - colm,
        {
            proof {
                reveal_with_fuel(best_from, 1);
                if can_play_at(b, colm as int) {
                    lemma_play_at(b, colm as int);
                }
            }
            if self.position.can_play(colm) {
                proof {
                    if wins_at(b, colm as int) {
                        assert(has_immediate_win(b));
                    }
                    lemma_play_no_wins(b, colm as int);
                }
                self.position.play(colm);
                let score = self.negamax();
                self.position.reverse_play(colm);
                proof {
                    lemma_unplay_play(b, colm as int);
                }
                let neg = -score;
                if best_score == i32::MIN || neg > best_score {
                    best_score = neg;
                }
            }
            colm = colm + 1;
        }
        proof {
            reveal_with_fuel(best_from, 1);
            lemma_exists_playable(b);
            let d = choose|c: int| can_play_at(b, c);
            lemma_play_at(b, d);
            lemma_value_range(play_at(b, d));
            lemma_best_from_lb(b, 0, d);
            lemma_value_range(b);
        }
        best_score
    }
}

impl NegamaxSolver {
    /// What this engine's `solve` contract says: the result is the game
    /// value of the position it was built over.
    pub proof fn post_meaning(pre: Self, r: int)
        requires
            Self::post(pre, r),
        ensures
            r == game_value(pre.board()),
    {
    }
}

impl Solver for NegamaxSolver {
    closed spec fn inv(&self) -> bool {
        self.position.wf() && no_wins(self.position@)
    }

    closed spec fn board(&self) -> Board {
        self.position@
    }

    closed spec fn window(&self) -> (int, int) {
        (MIN_SCORE as int, MAX_SCORE as int)
    }

    closed spec fn nodes(&self) -> nat {
        self.explored_nodes as nat
    }

    closed spec fn post(pre: Self, r: int) -> bool {
        r == game_value(pre.position@)
    }

    fn solve(&mut self) -> (r: i32) {
        self.explored_nodes = 0;
        self.negamax()
    }

    fn explored_nodes(&self) -> (r: usize) {
        self.explored_nodes
    }
}

} // verus!
