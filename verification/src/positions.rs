//! Board encodings and the replay of an encoded starting position.
//!
//! The `Position` trait presents the operations shared by every encoding,
//! each specified against the abstract `Board` model.  A starting position
//! arrives as a line of ASCII digits `'1'..'7'`, each naming a column, and is
//! replayed move by move; a digit out of range, a full column or a move that
//! would end the game is rejected.

use vstd::prelude::*;
use vstd::string::StringSliceAdditionalSpecFns;

use crate::model::{
    board_wf, can_play_at, has_won, mover_first, no_wins, num_moves, play_at, wins_at, Board,
};
use crate::model::{lemma_play_at, lemma_play_no_wins};

pub use crate::model::{HEIGHT, WIDTH};

verus! {

/// Why an encoded starting position was rejected.
#[derive(Clone, Copy, PartialEq, Eq, Structural, Debug)]
pub enum InvalidInput {
    /// A character does not name a column in `'1'..'7'`.
    ColumnOutOfRange,
    /// The named column already holds six stones.
    ColumnFull,
    /// The move would complete four in a row; a finished game is not a
    /// startable position.
    WinningMove,
}

/// Operations every board encoding offers, each specified against the
/// abstract board the encoding stands for.
pub trait Position: View<V = Board> + Sized {
    /// The encoding's internal invariant: the representation describes a
    /// well-formed abstract board.
    spec fn wf(&self) -> bool;

    /// The invariant guarantees a well-formed abstract board.
    proof fn wf_board(&self)
        requires
            self.wf(),
        ensures
            board_wf(self@),
    ;

    /// Whether a stone can be dropped in column `colm`.
    fn can_play(&self, colm: usize) -> (r: bool)
        requires
            self.wf(),
            colm < 7,
        ensures
            r == can_play_at(self@, colm as int),
    ;

    /// Drop the mover's stone in column `colm`.
    fn play(&mut self, colm: usize)
        requires
            old(self).wf(),
            colm < 7,
            can_play_at(old(self)@, colm as int),
        ensures
            final(self).wf(),
            final(self)@ == play_at(old(self)@, colm as int),
    ;

    /// Whether dropping in column `colm` completes four in a row for the
    /// mover.  Asked only of positions the mover has not already won, as in
    /// every position an unfinished game can reach.
    fn is_winning(&self, colm: usize) -> (r: bool)
        requires
            self.wf(),
            colm < 7,
            can_play_at(self@, colm as int),
            !has_won(self@, mover_first(self@)),
        ensures
            r == wins_at(self@, colm as int),
    ;

    /// Number of moves played so far.
    fn played_moves(&self) -> (r: usize)
        requires
            self.wf(),
        ensures
            r == num_moves(self@),
    ;
}

/// The column named by an encoded byte, counted from zero.
pub open spec fn col_of_byte(ch: u8) -> int {
    ch as int - 49
}

/// Replaying an encoded move sequence on a board: the resulting board, or
/// the reason the first unplayable move is rejected.
pub open spec fn replay(b: Board, s: Seq<u8>) -> Result<Board, InvalidInput>
    decreases s.len(),
{
    if s.len() == 0 {
        Ok(b)
    } else {
        let c = col_of_byte(s[0]);
        if !(0 <= c < 7) {
            Err(InvalidInput::ColumnOutOfRange)
        } else if !can_play_at(b, c) {
            Err(InvalidInput::ColumnFull)
        } else if wins_at(b, c) {
            Err(InvalidInput::WinningMove)
        } else {
            replay(play_at(b, c), s.drop_first())
        }
    }
}

/// Replay an encoded move sequence into `position`, move by move, rejecting
/// the first illegal or game-ending move.  On success the position holds the
/// replayed board, still free of four in a row; on rejection the moves
/// before the offending one remain played.
pub fn load_starting_position<P: Position>(encoded_position: &str, position: &mut P) -> (res:
    Result<(), InvalidInput>)
    requires
        old(position).wf(),
        no_wins(old(position)@),
    ensures
        final(position).wf(),
        match replay(old(position)@, encoded_position.spec_bytes()) {
            Ok(b) => res == Ok::<(), InvalidInput>(()) && final(position)@ == b && no_wins(
                final(position)@,
            ),
            Err(e) => res == Err::<(), InvalidInput>(e),
        },
{
    let bytes = encoded_position.as_bytes();
    let ghost s = encoded_position.spec_bytes();
    proof {
        assert(s.skip(0) =~= s);
    }
    let mut i: usize = 0;
    while i < bytes.len()
        invariant
            position.wf(),
            no_wins(position@),
            0 <= i <= s.len(),
            bytes@ == s,
            s == encoded_position.spec_bytes(),
            replay(old(position)@, s) == replay(position@, s.skip(i as int)),
        decreases s.len() - i,
    {
        let ghost rest = s.skip(i as int);
        proof {
            assert(rest[0] == s[i as int]);
            assert(rest.drop_first() =~= s.skip(i as int + 1));
        }
        let ch = bytes[i];
        if ch < 49 || ch > 55 {
            return Err(InvalidInput::ColumnOutOfRange);
        }
        let colm = (ch - 49) as usize;
        if !position.can_play(colm) {
            return Err(InvalidInput::ColumnFull);
        }
        if position.is_winning(colm) {
            return Err(InvalidInput::WinningMove);
        }
        proof {
            position.wf_board();
            lemma_play_at(position@, colm as int);
            lemma_play_no_wins(position@, colm as int);
        }
        position.play(colm);
        i = i + 1;
    }
    proof {
        assert(s.skip(i as int) =~= Seq::<u8>::empty());
    }
    Ok(())
}

} // verus!

pub mod array_position;
pub mod bit_position;
pub mod advance_bit_position;
