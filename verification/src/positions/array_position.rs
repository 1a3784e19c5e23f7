//! The teaching encoding: a plain array of cells with explicit undo.
//!
//! Each cell holds 0 for empty, 1 for the first player's stone, 2 for the
//! second player's.  Win detection walks the board cell by cell, counting
//! the mover's unbroken runs on both sides of the new stone.

use vstd::prelude::*;

use crate::model::{
    board_wf, lemma_can_play_moves, lemma_play_at,
    lemma_run_nonneg, lemma_sum_lens_ge_col, lemma_sum_lens_update, lemma_sum_matching_update,
    lemma_wins_at_checks, mover_first, num_moves, play_at, run, stone_at, unplay_at,
    Board, HEIGHT, WIDTH,
};
use crate::positions::Position;

verus! {

/// Array-backed board: cells by column and row, the filled height of each
/// column, and the number of moves played.
pub struct ArrayPosition {
    // 0 - empty cell, 1 - player 1, 2 - player 2
    board: [[i32; HEIGHT]; WIDTH],
    columns_heights: [usize; WIDTH],
    played_moves: usize,
}

impl View for ArrayPosition {
    type V = Board;

    closed spec fn view(&self) -> Board {
        Board {
            cols: Seq::new(
                7,
                |c: int|
                    Seq::new(
                        self.columns_heights@[c] as nat,
                        |r: int| self.board@[c]@[r] == 1,
                    ),
            ),
        }
    }
}

impl ArrayPosition {
    /// The representation invariant: heights are capped, filled cells hold
    /// a player mark, empty cells hold zero, the move counter matches, and
    /// the abstract board is well formed.
    pub closed spec fn inv(&self) -> bool {
        &&& forall|c: int| 0 <= c < 7 ==> self.columns_heights@[c] <= 6
        &&& forall|c: int, r: int|
            0 <= c < 7 && 0 <= r < 6 ==> ((#[trigger] self.board@[c]@[r]) == if r
                < self.columns_heights@[c] {
                if self@.cols[c][r] {
                    1int
                } else {
                    2int
                }
            } else {
                0int
            })
        &&& self.played_moves == num_moves(self@)
        &&& board_wf(self@)
    }

    /// An empty board, ready for the first move.
    pub fn new() -> (r: Self)
        ensures
            r.inv(),
            num_moves(r@) == 0,
            forall|c: int| 0 <= c < 7 ==> (#[trigger] r@.cols[c]).len() == 0,
    {
        let r = Self {
            board: [[0; HEIGHT]; WIDTH],
            columns_heights: [0; WIDTH],
            played_moves: 0,
        };
        proof {
            lemma_all_empty(r@);
        }
        r
    }

    /// The mark of the side to move: 1 on even move counts, 2 on odd.
    fn current_player(&self) -> (r: i32)
        ensures
            r == 1 + ((self.played_moves as int) % 2),
    {
        (1 + (self.played_moves % 2)) as i32
    }

    /// Take back the top stone of column `colm`, which must be the stone
    /// played last, restoring the position before that drop.
    pub fn reverse_play(&mut self, colm: usize)
        requires
            old(self).inv(),
            colm < 7,
            old(self)@.cols[colm as int].len() > 0,
            old(self)@.cols[colm as int].last() == !mover_first(old(self)@),
        ensures
            final(self).inv(),
            final(self)@ == unplay_at(old(self)@, colm as int),
    {
        proof {
            lemma_sum_lens_ge_col(self@.cols, colm as int);
            lemma_sum_lens_update(
                self@.cols,
                colm as int,
                self@.cols[colm as int].drop_last(),
            );
            lemma_sum_matching_update(
                self@.cols,
                true,
                colm as int,
                self@.cols[colm as int].drop_last(),
            );
        }
        self.played_moves = self.played_moves - 1;
        let h = self.columns_heights[colm] - 1;
        self.columns_heights[colm] = h;
        let p = self.current_player();
        let mut column = self.board[colm];
        column[h] = column[h] - p;
        self.board[colm] = column;
        proof {
            let ub = unplay_at(old(self)@, colm as int);
            assert forall|c: int| 0 <= c < 7 implies self@.cols[c] =~= ub.cols[c] by {}
            assert(self@.cols =~~= ub.cols);
        }
    }
}

/// A board of seven empty columns holds no stones of either player.
pub proof fn lemma_all_empty(b: Board)
    requires
        b.cols.len() == 7,
        forall|c: int| 0 <= c < 7 ==> (#[trigger] b.cols[c]).len() == 0,
    ensures
        num_moves(b) == 0,
        board_wf(b),
{
    lemma_zero_cols(b.cols);
}

/// Sums over empty columns are zero.
proof fn lemma_zero_cols(cols: Seq<Seq<bool>>)
    requires
        forall|c: int| 0 <= c < cols.len() ==> (#[trigger] cols[c]).len() == 0,
    ensures
        crate::model::sum_lens(cols) == 0,
        crate::model::sum_matching(cols, true) == 0,
    decreases cols.len(),
{
    if cols.len() > 0 {
        lemma_zero_cols(cols.drop_last());
    }
}

impl Position for ArrayPosition {
    open spec fn wf(&self) -> bool {
        self.inv()
    }

    proof fn wf_board(&self) {
    }

    fn can_play(&self, colm: usize) -> (r: bool) {
        self.columns_heights[colm] < HEIGHT
    }

    fn play(&mut self, colm: usize) {
        proof {
            lemma_can_play_moves(self@, colm as int);
            lemma_play_at(self@, colm as int);
        }
        let h = self.columns_heights[colm];
        let p = self.current_player();
        let mut column = self.board[colm];
        column[h] = column[h] + p;
        self.board[colm] = column;
        self.columns_heights[colm] = h + 1;
        self.played_moves = self.played_moves + 1;
        proof {
            let pb = play_at(old(self)@, colm as int);
            assert forall|c: int| 0 <= c < 7 implies self@.cols[c] =~= pb.cols[c] by {}
            assert(self@.cols =~~= pb.cols);
        }
    }

    fn is_winning(&self, colm: usize) -> (r: bool) {
        proof {
            lemma_wins_at_checks(self@, colm as int);
        }
        let current_player = self.current_player();
        let column_height = self.columns_heights[colm];
        // Vertical: three of the mover's stones right under the new one.
        if column_height >= 3 {
            let board_column = self.board[colm];
            if board_column[column_height - 1] == current_player && board_column[column_height
                - 2] == current_player && board_column[column_height - 3] == current_player {
                return true;
            }
        }
        // Horizontal and the two diagonals: the runs on both sides of the
        // new stone must add up to three.
        let lft1 = self.run_length(colm as i32 - 1, column_height as i32, -1, 0, current_player);
        let rgt1 = self.run_length(colm as i32 + 1, column_height as i32, 1, 0, current_player);
        if lft1 + rgt1 >= 3 {
            return true;
        }
        let lft2 = self.run_length(
            colm as i32 - 1,
            column_height as i32 - 1,
            -1,
            -1,
            current_player,
        );
        let rgt2 = self.run_length(
            colm as i32 + 1,
            column_height as i32 + 1,
            1,
            1,
            current_player,
        );
        if lft2 + rgt2 >= 3 {
            return true;
        }
        let lft3 = self.run_length(
            colm as i32 - 1,
            column_height as i32 + 1,
            -1,
            1,
            current_player,
        );
        let rgt3 = self.run_length(
            colm as i32 + 1,
            column_height as i32 - 1,
            1,
            -1,
            current_player,
        );
        if lft3 + rgt3 >= 3 {
            return true;
        }
        false
    }

    fn played_moves(&self) -> (r: usize) {
        self.played_moves
    }
}

impl ArrayPosition {
    /// Count the mover's unbroken stones from `(x0, y0)` along `(dx, dy)`.
    fn run_length(&self, x0: i32, y0: i32, dx: i32, dy: i32, p: i32) -> (n: usize)
        requires
            self.inv(),
            dx == 1 || dx == -1,
            -1 <= dy <= 1,
            -1 <= x0 <= 7,
            -1 <= y0 <= 7,
            p == 1 || p == 2,
        ensures
            n == run(self@, p == 1, x0 as int, y0 as int, dx as int, dy as int),
            n <= 8,
    {
        let mut x = x0;
        let mut y = y0;
        let mut n: usize = 0;
        loop
            invariant
                self.inv(),
                dx == 1 || dx == -1,
                -1 <= dy <= 1,
                p == 1 || p == 2,
                -1 <= x0 <= 7,
                -1 <= y0 <= 7,
                -1 <= x <= 7,
                -1 <= y <= 7,
                n + (if dx == 1 {
                    7 - x
                } else {
                    x + 1
                }) <= 8,
                run(self@, p == 1, x0 as int, y0 as int, dx as int, dy as int) == n + run(
                    self@,
                    p == 1,
                    x as int,
                    y as int,
                    dx as int,
                    dy as int,
                ),
            ensures
                n == run(self@, p == 1, x0 as int, y0 as int, dx as int, dy as int),
                n <= 8,
            decreases (if dx == 1 {
                7 - x
            } else {
                x + 1
            }),
        {
            if x < 0 || x >= 7 || y < 0 || y >= 6 {
                proof {
                    assert(run(self@, p == 1, x as int, y as int, dx as int, dy as int) == 0);
                    lemma_run_nonneg(self@, p == 1, x0 as int, y0 as int, dx as int, dy as int);
                }
                break;
            }
            if self.board[x as usize][y as usize] != p {
                proof {
                    assert(!stone_at(self@, p == 1, x as int, y as int));
                    assert(run(self@, p == 1, x as int, y as int, dx as int, dy as int) == 0);
                    lemma_run_nonneg(self@, p == 1, x0 as int, y0 as int, dx as int, dy as int);
                }
                break;
            }
            proof {
                assert(stone_at(self@, p == 1, x as int, y as int));
                assert(run(self@, p == 1, x as int, y as int, dx as int, dy as int) == 1 + run(
                    self@,
                    p == 1,
                    x as int + dx as int,
                    y as int + dy as int,
                    dx as int,
                    dy as int,
                ));
                lemma_run_nonneg(
                    self@,
                    p == 1,
                    x as int + dx as int,
                    y as int + dy as int,
                    dx as int,
                    dy as int,
                );
            }
            n = n + 1;
            x = x + dx;
            y = y + dy;
        }
        n
    }
}

} // verus!
