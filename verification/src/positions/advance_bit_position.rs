//! The filtering bitboard: the bit encoding extended with the operations
//! the strongest searches lean on — spotting every immediate win, filtering
//! out the moves that hand the opponent one, and scoring a move for the
//! ordering heuristic.

use vstd::prelude::*;

use crate::model::{
    board_wf, can_play_at, dir_dy, has_immediate_win, has_won, lemma_play_at, lemma_play_no_wins,
    lemma_run_nonneg, mover_first, no_wins, num_moves, play_at, run, stone_at, wins_at, Board,
    WIDTH,
};
use crate::positions::bit_position::BitPosition;
use crate::positions::Position;

verus! {

/// Column `c` is a non-losing move: playable, and it does not leave the
/// opponent an immediate winning reply.
pub open spec fn non_losing(b: Board, c: int) -> bool {
    can_play_at(b, c) && !has_immediate_win(play_at(b, c))
}

/// The move-ordering heuristic of a drop: how many of the mover's stones
/// adjoin the new stone along each alignment direction — the length of the
/// runs the new stone extends.
pub open spec fn drop_score(b: Board, c: int) -> int {
    let q = mover_first(b);
    let h = b.cols[c].len() as int;
    run(b, q, c, h - 1, 0, -1) + (run(b, q, c - 1, h - dir_dy(1), -1, -dir_dy(1)) + run(
        b,
        q,
        c + 1,
        h + dir_dy(1),
        1,
        dir_dy(1),
    )) + (run(b, q, c - 1, h - dir_dy(2), -1, -dir_dy(2)) + run(
        b,
        q,
        c + 1,
        h + dir_dy(2),
        1,
        dir_dy(2),
    )) + (run(b, q, c - 1, h - dir_dy(3), -1, -dir_dy(3)) + run(
        b,
        q,
        c + 1,
        h + dir_dy(3),
        1,
        dir_dy(3),
    ))
}

/// The bit encoding extended with move filtering and scoring.
#[derive(Clone, Copy)]
pub struct AdvanceBitPosition {
    pub(crate) position: BitPosition,
}

impl View for AdvanceBitPosition {
    type V = Board;

    closed spec fn view(&self) -> Board {
        self.position@
    }
}

impl AdvanceBitPosition {
    /// The mover's cell word.
    pub closed spec fn spec_current(&self) -> u64 {
        self.position.spec_current()
    }

    /// The occupancy word.
    pub closed spec fn spec_mask(&self) -> u64 {
        self.position.spec_mask()
    }

    /// The underlying bit encoding, for keying the transposition cache.
    pub fn base(&self) -> (r: &BitPosition)
        requires
            self.wf(),
        ensures
            r.inv(),
            r@ == self@,
            r.spec_current() == self.spec_current(),
            r.spec_mask() == self.spec_mask(),
    {
        &self.position
    }

    /// An empty board, ready for the first move.
    pub fn new() -> (r: Self)
        ensures
            r.wf(),
            num_moves(r@) == 0,
            forall|c: int| 0 <= c < 7 ==> (#[trigger] r@.cols[c]).len() == 0,
    {
        Self { position: BitPosition::new() }
    }

    /// The canonical key of the position.
    pub fn key(&self) -> (r: u64)
        requires
            self.wf(),
        ensures
            r == self.spec_current() + self.spec_mask(),
    {
        self.position.key()
    }

    /// Whether the mover can win with some drop this turn.
    pub fn can_win_next(&self) -> (r: bool)
        requires
            self.wf(),
            !has_won(self@, mover_first(self@)),
        ensures
            r == has_immediate_win(self@),
    {
        let ghost b = self@;
        let mut colm: usize = 0;
        while colm < 7
            invariant
                self.position.wf(),
                self@ == b,
                !has_won(b, mover_first(b)),
                0 <= colm <= 7,
                forall|c: int| 0 <= c < colm ==> !(can_play_at(b, c) && #[trigger] wins_at(b, c)),
            decreases 7 - colm,
        {
            if self.position.can_play(colm) && self.position.is_winning(colm) {
                proof {
                    assert(has_immediate_win(b));
                }
                return true;
            }
            colm = colm + 1;
        }
        proof {
            if has_immediate_win(b) {
                let c = choose|c: int| can_play_at(b, c) && wins_at(b, c);
                assert(false);
            }
        }
        false
    }

    /// The columns whose drop does not hand the opponent an immediate
    /// winning reply, in ascending order.
    pub fn possible_non_losing_moves(&self) -> (r: Vec<usize>)
        requires
            self.wf(),
            no_wins(self@),
            !has_immediate_win(self@),
        ensures
            r@.len() <= 7,
            forall|i: int| 0 <= i < r@.len() ==> non_losing(self@, #[trigger] r@[i] as int),
            forall|i: int, j: int| 0 <= i < j < r@.len() ==> r@[i] < r@[j],
            forall|c: int| 0 <= c < 7 && non_losing(self@, c) ==> r@.contains(c as usize),
    {
        let ghost b = self@;
        proof {
            self.position.wf_board();
        }
        let mut r: Vec<usize> = Vec::new();
        let mut colm: usize = 0;
        while colm < 7
            invariant
                self.position.wf(),
                self@ == b,
                no_wins(b),
                board_wf(b),
                !has_immediate_win(b),
                0 <= colm <= 7,
                r@.len() <= colm,
                forall|i: int| 0 <= i < r@.len() ==> non_losing(b, #[trigger] r@[i] as int),
                forall|i: int| 0 <= i < r@.len() ==> r@[i] < colm,
                forall|i: int, j: int| 0 <= i < j < r@.len() ==> r@[i] < r@[j],
                forall|c: int| 0 <= c < colm && non_losing(b, c) ==> r@.contains(c as usize),
            decreases 7 - colm,
        {
            if self.position.can_play(colm) {
                proof {
                    if wins_at(b, colm as int) {
                        assert(has_immediate_win(b));
                    }
                    lemma_play_at(b, colm as int);
                    lemma_play_no_wins(b, colm as int);
                }
                let mut probe = *self;
                probe.position.play(colm);
                let losing = probe.can_win_next();
                let ghost old_r = r@;
                if !losing {
                    r.push(colm);
                }
                proof {
                    assert forall|c: int|
                        0 <= c < colm + 1 && non_losing(b, c) implies r@.contains(c as usize) by {
                        if c == colm {
                            assert(!losing);
                            assert(r@[r@.len() - 1] == c as usize);
                        } else {
                            assert(old_r.contains(c as usize));
                            let i = choose|i: int| 0 <= i < old_r.len() && old_r[i] == c as usize;
                            assert(r@[i] == c as usize);
                        }
                    }
                }
            } else {
                proof {
                    assert forall|c: int|
                        0 <= c < colm + 1 && non_losing(b, c) implies r@.contains(c as usize) by {
                        assert(c != colm);
                        assert(r@.contains(c as usize));
                    }
                }
            }
            colm = colm + 1;
        }
        r
    }

    /// Count the mover's unbroken stones from `(x0, y0)` along `(dx, dy)`.
    fn run_length(&self, x0: i32, y0: i32, dx: i32, dy: i32) -> (n: usize)
        requires
            self.wf(),
            dx == 1 || dx == -1 || (dx == 0 && (dy == 1 || dy == -1)),
            -1 <= dy <= 1,
            -1 <= x0 <= 7,
            -1 <= y0 <= 7,
        ensures
            n == run(self@, mover_first(self@), x0 as int, y0 as int, dx as int, dy as int),
            n <= 8,
    {
        let ghost q = mover_first(self@);
        proof {
            self.position.wf_board();
        }
        let mut x = x0;
        let mut y = y0;
        let mut n: usize = 0;
        loop
            invariant
                self.position.wf(),
                board_wf(self@),
                dx == 1 || dx == -1 || (dx == 0 && (dy == 1 || dy == -1)),
                -1 <= dy <= 1,
                q == mover_first(self@),
                -1 <= x0 <= 7,
                -1 <= y0 <= 7,
                -1 <= x <= 7,
                -1 <= y <= 7,
                n + (if dx == 1 {
                    7 - x
                } else if dx == -1 {
                    x + 1
                } else if dy == 1 {
                    7 - y
                } else {
                    y + 1
                }) <= 8,
                run(self@, q, x0 as int, y0 as int, dx as int, dy as int) == n + run(
                    self@,
                    q,
                    x as int,
                    y as int,
                    dx as int,
                    dy as int,
                ),
            ensures
                n == run(self@, q, x0 as int, y0 as int, dx as int, dy as int),
                n <= 8,
            decreases (if dx == 1 {
                7 - x
            } else if dx == -1 {
                x + 1
            } else if dy == 1 {
                7 - y
            } else {
                y + 1
            }),
        {
            if x < 0 || x >= 7 || y < 0 || y >= 6 {
                proof {
                    assert(run(self@, q, x as int, y as int, dx as int, dy as int) == 0);
                    lemma_run_nonneg(self@, q, x0 as int, y0 as int, dx as int, dy as int);
                }
                break;
            }
            if !self.position.has_mover_stone(x as usize, y as usize) {
                proof {
                    assert(run(self@, q, x as int, y as int, dx as int, dy as int) == 0);
                    lemma_run_nonneg(self@, q, x0 as int, y0 as int, dx as int, dy as int);
                }
                break;
            }
            proof {
                assert(stone_at(self@, q, x as int, y as int));
                assert(run(self@, q, x as int, y as int, dx as int, dy as int) == 1 + run(
                    self@,
                    q,
                    x as int + dx as int,
                    y as int + dy as int,
                    dx as int,
                    dy as int,
                ));
                lemma_run_nonneg(
                    self@,
                    q,
                    x as int + dx as int,
                    y as int + dy as int,
                    dx as int,
                    dy as int,
                );
            }
            n = n + 1;
            x = x + dx;
            y = y + dy;
        }
        n
    }

    /// The ordering score of a drop in `colm`: the mover's stones adjoining
    /// the new cell along the four alignment directions.
    pub fn score(&self, colm: usize) -> (r: usize)
        requires
            self.wf(),
            colm < 7,
            can_play_at(self@, colm as int),
        ensures
            r == drop_score(self@, colm as int),
            r <= 64,
    {
        let h = self.position.column_height(colm);
        let below = self.run_length(colm as i32, h as i32 - 1, 0, -1);
        let l1 = self.run_length(colm as i32 - 1, h as i32, -1, 0);
        let r1 = self.run_length(colm as i32 + 1, h as i32, 1, 0);
        let l2 = self.run_length(colm as i32 - 1, h as i32 - 1, -1, -1);
        let r2 = self.run_length(colm as i32 + 1, h as i32 + 1, 1, 1);
        let l3 = self.run_length(colm as i32 - 1, h as i32 + 1, -1, 1);
        let r3 = self.run_length(colm as i32 + 1, h as i32 - 1, 1, -1);
        below + (l1 + r1) + (l2 + r2) + (l3 + r3)
    }
}

impl Position for AdvanceBitPosition {
    closed spec fn wf(&self) -> bool {
        self.position.wf()
    }

    proof fn wf_board(&self) {
        self.position.wf_board();
    }

    fn can_play(&self, colm: usize) -> (r: bool) {
        self.position.can_play(colm)
    }

    fn play(&mut self, colm: usize) {
        self.position.play(colm);
    }

    fn is_winning(&self, colm: usize) -> (r: bool) {
        self.position.is_winning(colm)
    }

    fn played_moves(&self) -> (r: usize) {
        self.position.played_moves()
    }
}

} // verus!
