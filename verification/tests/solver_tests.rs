//! End-to-end checks of the solvers and board encodings on concrete games.

use connect_four_solver::positions::advance_bit_position::AdvanceBitPosition;
use connect_four_solver::positions::array_position::ArrayPosition;
use connect_four_solver::positions::bit_position::BitPosition;
use connect_four_solver::positions::{load_starting_position, InvalidInput, Position};
use connect_four_solver::solvers::alpha_beta_solver::AlphaBetaSolver;
use connect_four_solver::solvers::center_columns_solver::CenterColumnsSolver;
use connect_four_solver::solvers::iterative_deepening_solver::IterativeDeepeningSolver;
use connect_four_solver::solvers::move_score_solver::MoveScoreSolver;
use connect_four_solver::solvers::negamax_solver::NegamaxSolver;
use connect_four_solver::solvers::{Solver, MAX_SCORE, MIN_SCORE};
use connect_four_solver::transposition_table::TranspositionTable;

// No test solves the empty board: its strong score (the famous first-player
// win) takes a full game-tree search, far beyond what a test may spend.
// Randomly generated legal games with their exact scores from the side to
// move, checked against an independent exhaustive search.
const POS30_WIN6: &str = "324611751351521156232762723367";
const POS32_LOSS5: &str = "13174317246543223474332527711471";
const POS32_DRAW: &str = "21373634741161636116275265254524";
const POS32_WIN5: &str = "11622713454347173377626675316635";
// A mover's win two of their own moves away: no immediate winning drop.
const POS32_WIN2_QUIET: &str = "33311253635623555616671471571622";
const POS34_WIN4: &str = "7345433272672153543743711752224611";
const POS38_WIN2: &str = "24213511152513613376445655327464432266";
const POS40_WIN1: &str = "7216346575475252561526123277374441411663";
// After these 33 moves the mover can win at once: score (42 - 33 + 1) / 2.
const POS33_IMMEDIATE: &str = "255422171272234447434761565556677";

fn array_pos(encoded: &str) -> ArrayPosition {
    let mut p = ArrayPosition::new();
    assert_eq!(load_starting_position(encoded, &mut p), Ok(()));
    p
}

fn bit_pos(encoded: &str) -> BitPosition {
    let mut p = BitPosition::new();
    assert_eq!(load_starting_position(encoded, &mut p), Ok(()));
    p
}

fn advance_pos(encoded: &str) -> AdvanceBitPosition {
    let mut p = AdvanceBitPosition::new();
    assert_eq!(load_starting_position(encoded, &mut p), Ok(()));
    p
}

#[test]
fn empty_input_is_the_empty_board() {
    let mut p = ArrayPosition::new();
    assert_eq!(load_starting_position("", &mut p), Ok(()));
    assert_eq!(p.played_moves(), 0);
    let mut b = BitPosition::new();
    assert_eq!(load_starting_position("", &mut b), Ok(()));
    assert_eq!(b.played_moves(), 0);
    for c in 0..7 {
        assert!(p.can_play(c));
        assert!(b.can_play(c));
    }
}

#[test]
fn load_rejects_column_out_of_range() {
    let mut p = ArrayPosition::new();
    assert_eq!(
        load_starting_position("448", &mut p),
        Err(InvalidInput::ColumnOutOfRange)
    );
    let mut p = ArrayPosition::new();
    assert_eq!(
        load_starting_position("0", &mut p),
        Err(InvalidInput::ColumnOutOfRange)
    );
}

#[test]
fn load_rejects_full_column() {
    let mut p = ArrayPosition::new();
    assert_eq!(load_starting_position("444444", &mut p), Ok(()));
    assert!(!p.can_play(3));
    let mut p = ArrayPosition::new();
    // Column 4 fills after six drops; the seventh is rejected.
    assert_eq!(
        load_starting_position("4444444", &mut p),
        Err(InvalidInput::ColumnFull)
    );
}

#[test]
fn load_rejects_winning_move() {
    let mut p = ArrayPosition::new();
    // 1-2 alternation gives the first player a vertical four on move 7.
    assert_eq!(
        load_starting_position("1212121", &mut p),
        Err(InvalidInput::WinningMove)
    );
    let mut p = BitPosition::new();
    assert_eq!(
        load_starting_position("1212121", &mut p),
        Err(InvalidInput::WinningMove)
    );
}

#[test]
fn load_counts_moves_on_both_encodings() {
    let a = array_pos("44455");
    let b = bit_pos("44455");
    assert_eq!(a.played_moves(), 5);
    assert_eq!(b.played_moves(), 5);
    for c in 0..7 {
        assert_eq!(a.can_play(c), b.can_play(c));
        if a.can_play(c) {
            assert_eq!(a.is_winning(c), b.is_winning(c));
        }
    }
}

#[test]
fn play_then_reverse_restores_the_array_position() {
    let mut p = array_pos(POS32_DRAW);
    let before_moves = p.played_moves();
    let before_can: Vec<bool> = (0..7).map(|c| p.can_play(c)).collect();
    let before_win: Vec<bool> = (0..7)
        .map(|c| p.can_play(c) && p.is_winning(c))
        .collect();
    for c in 0..7 {
        if before_can[c] && !before_win[c] {
            p.play(c);
            p.reverse_play(c);
            assert_eq!(p.played_moves(), before_moves);
            for d in 0..7 {
                assert_eq!(p.can_play(d), before_can[d]);
                if before_can[d] {
                    assert_eq!(p.is_winning(d), before_win[d]);
                }
            }
        }
    }
}

#[test]
fn snapshot_then_restore_preserves_the_bit_position() {
    let p = bit_pos(POS30_WIN6);
    let key_before = p.key();
    let mut q = p;
    for c in 0..7 {
        if q.can_play(c) && !q.is_winning(c) {
            q.play(c);
            q = p;
            assert_eq!(q.key(), key_before);
            assert_eq!(q.played_moves(), p.played_moves());
        }
    }
}

#[test]
fn negamax_scores_endgames_exactly() {
    let mut s = NegamaxSolver::new(array_pos(POS40_WIN1));
    assert_eq!(s.solve(), 1);
    let mut s = NegamaxSolver::new(array_pos(POS38_WIN2));
    assert_eq!(s.solve(), 2);
    assert!(s.explored_nodes() >= 1);
}

#[test]
fn alpha_beta_strong_scores_are_exact() {
    let mut s = AlphaBetaSolver::new(array_pos(POS32_LOSS5), MIN_SCORE, MAX_SCORE);
    assert_eq!(s.solve(), -5);
    let mut s = AlphaBetaSolver::new(array_pos(POS32_DRAW), MIN_SCORE, MAX_SCORE);
    assert_eq!(s.solve(), 0);
    let mut s = AlphaBetaSolver::new(array_pos(POS32_WIN5), MIN_SCORE, MAX_SCORE);
    assert_eq!(s.solve(), 5);
}

#[test]
fn weak_window_gives_the_sign_of_the_score() {
    let mut s = AlphaBetaSolver::new(array_pos(POS32_LOSS5), -1, 1);
    assert_eq!(s.solve(), -1);
    let mut s = AlphaBetaSolver::new(array_pos(POS32_DRAW), -1, 1);
    assert_eq!(s.solve(), 0);
    let mut s = AlphaBetaSolver::new(array_pos(POS32_WIN2_QUIET), -1, 1);
    assert_eq!(s.solve(), 1);
    let mut s = AlphaBetaSolver::new(array_pos(POS32_WIN2_QUIET), MIN_SCORE, MAX_SCORE);
    assert_eq!(s.solve(), 2);
}

#[test]
fn cached_weak_solvers_give_the_sign_too() {
    let mut id = IterativeDeepeningSolver::new(
        bit_pos(POS32_LOSS5),
        -1,
        1,
        TranspositionTable::new(997),
    );
    assert_eq!(id.solve(), -1);
    let mut ms = MoveScoreSolver::new(
        advance_pos(POS32_WIN2_QUIET),
        -1,
        1,
        TranspositionTable::new(997),
    );
    assert_eq!(ms.solve(), 1);
    let mut id = IterativeDeepeningSolver::new(
        bit_pos(POS32_DRAW),
        -1,
        1,
        TranspositionTable::new(997),
    );
    assert_eq!(id.solve(), 0);
}

#[test]
fn solving_twice_gives_the_same_score() {
    // The window and position survive a solve, and the warmed cache may
    // only change node counts.
    let mut id = IterativeDeepeningSolver::new(
        bit_pos(POS34_WIN4),
        MIN_SCORE,
        MAX_SCORE,
        TranspositionTable::new(10007),
    );
    let first = id.solve();
    assert_eq!(id.solve(), first);
    let mut ab = AlphaBetaSolver::new(array_pos(POS34_WIN4), -1, 1);
    let first = ab.solve();
    assert_eq!(ab.solve(), first);
}

#[test]
fn key_addends_are_bit_disjoint() {
    // The canonical key current + mask relies on the mover's cells being a
    // subset of the occupied cells; validate that on real games.
    for encoded in ["", "4", POS30_WIN6, POS32_DRAW, POS40_WIN1] {
        let p = bit_pos(encoded);
        let cur = p.current_word();
        let mask = p.mask_word();
        assert_eq!(cur & mask, cur);
        assert_eq!(p.key(), cur + mask);
    }
}

#[test]
fn all_strong_variants_agree() {
    for encoded in [POS30_WIN6, POS32_DRAW, POS34_WIN4] {
        let mut ab = AlphaBetaSolver::new(array_pos(encoded), MIN_SCORE, MAX_SCORE);
        let expected = ab.solve();
        let mut cc = CenterColumnsSolver::new(array_pos(encoded), MIN_SCORE, MAX_SCORE);
        assert_eq!(cc.solve(), expected);
        let mut id = IterativeDeepeningSolver::new(
            bit_pos(encoded),
            MIN_SCORE,
            MAX_SCORE,
            TranspositionTable::new(10007),
        );
        assert_eq!(id.solve(), expected);
        let mut ms = MoveScoreSolver::new(
            advance_pos(encoded),
            MIN_SCORE,
            MAX_SCORE,
            TranspositionTable::new(10007),
        );
        assert_eq!(ms.solve(), expected);
    }
}

#[test]
fn an_immediate_win_scores_by_distance_to_the_end() {
    let expected = (42 - 33 + 1) / 2;
    let mut ab = AlphaBetaSolver::new(array_pos(POS33_IMMEDIATE), MIN_SCORE, MAX_SCORE);
    assert_eq!(ab.solve(), expected);
    let mut ms = MoveScoreSolver::new(
        advance_pos(POS33_IMMEDIATE),
        MIN_SCORE,
        MAX_SCORE,
        TranspositionTable::new(97),
    );
    assert_eq!(ms.solve(), expected);
    // The weak window clamps the immediate win: any win answers 1.
    let mut weak = AlphaBetaSolver::new(array_pos(POS33_IMMEDIATE), -1, 1);
    assert_eq!(weak.solve(), 1);
}

#[test]
fn a_tiny_cache_full_of_collisions_changes_nothing() {
    // Capacity 3 forces nearly every distinct position onto a shared slot;
    // only node counts may differ from the uncached search.
    let mut ab = AlphaBetaSolver::new(array_pos(POS34_WIN4), MIN_SCORE, MAX_SCORE);
    let expected = ab.solve();
    let mut id = IterativeDeepeningSolver::new(
        bit_pos(POS34_WIN4),
        MIN_SCORE,
        MAX_SCORE,
        TranspositionTable::new(3),
    );
    assert_eq!(id.solve(), expected);
    let mut ms = MoveScoreSolver::new(
        advance_pos(POS34_WIN4),
        MIN_SCORE,
        MAX_SCORE,
        TranspositionTable::new(3),
    );
    assert_eq!(ms.solve(), expected);
}

#[test]
fn colliding_cache_entries_evict_rather_than_lie() {
    // With one slot, the second write evicts the first; a lookup for the
    // evicted position must answer "absent", never the other's bound.
    let mut table = TranspositionTable::new(1);
    let one = bit_pos("1");
    let two = bit_pos("2");
    assert_eq!(table.get(&one), None);
    table.put(&one, 37);
    assert_eq!(table.get(&one), Some(37));
    assert_eq!(table.get(&two), None);
    table.put(&two, 36);
    assert_eq!(table.get(&two), Some(36));
    assert_eq!(table.get(&one), None);
}

#[test]
fn non_losing_moves_avoid_immediate_losses() {
    // After "112" the first player threatens nothing yet; after "1122334"
    // study a position where some columns lose at once.
    let p = advance_pos(POS32_DRAW);
    let moves = p.possible_non_losing_moves();
    for &c in moves.iter() {
        assert!(p.can_play(c));
        let mut probe = p;
        probe.play(c);
        assert!(!probe.can_win_next());
    }
}

#[test]
fn deeper_searches_explore_no_more_nodes() {
    // The optimization progression on one fixed midgame position.
    let mut ab = AlphaBetaSolver::new(array_pos(POS32_WIN5), MIN_SCORE, MAX_SCORE);
    ab.solve();
    let mut ms = MoveScoreSolver::new(
        advance_pos(POS32_WIN5),
        MIN_SCORE,
        MAX_SCORE,
        TranspositionTable::new(10007),
    );
    ms.solve();
    assert!(ms.explored_nodes() <= ab.explored_nodes());
}
