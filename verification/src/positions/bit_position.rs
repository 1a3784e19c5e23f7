//! The bitboard encoding: whole-board operations on two machine words.
//!
//! Each column owns seven bits — six cells from the bottom plus a guard bit
//! on top that stays clear, so a full column's carry cannot spill into its
//! neighbour:
//!
//! ```text
//!     6 13 ...          (guard row, always clear)
//!     5 12 ...
//!     ...
//!     0  7 ...
//! col 0  1  2
//! ```
//!
//! `mask` marks every occupied cell, `current` the cells of the side to
//! move.  A ghost copy of the abstract board ties each word, bit by bit, to
//! the model that the contracts speak of.

use vstd::prelude::*;

use crate::model::{
    board_wf, can_play_at, has_won, lemma_can_play_moves, lemma_play_at, lemma_stone_back,
    lemma_stone_mono, lemma_won_dirs, line_at, mover_first, num_moves, play_at, stone_at,
    sum_lens, wins_at, wins_dir, Board,
};
use crate::positions::Position;

verus! {

/// The 42 cell bits of a board word: rows `0..6` of the seven columns; the
/// guard row and the high sixteen bits stay clear.
pub const BOARD_BITS: u64 = 0xFDFB_F7EF_DFBF;

/// Bit `7 c + r` of the board word `w`: cell `(c, r)`.
pub open spec fn bit_of(w: u64, c: int, r: int) -> bool {
    (w >> ((7 * c + r) as u64)) & 1 == 1
}

/// The pair of board words describes exactly the abstract board `b`: a
/// `mask` bit marks an occupied cell, a `current` bit a cell owned by the
/// side to move, and neither word strays off the cell bits.
pub open spec fn corresponds(current: u64, mask: u64, b: Board) -> bool {
    &&& b.cols.len() == 7
    &&& mask & BOARD_BITS == mask
    &&& current & BOARD_BITS == current
    &&& current & mask == current
    &&& forall|c: int, r: int|
        0 <= c < 7 && 0 <= r < 6 ==> ((#[trigger] bit_of(mask, c, r)) <==> r < b.cols[c].len())
    &&& forall|c: int, r: int|
        0 <= c < 7 && 0 <= r < 6 ==> ((#[trigger] bit_of(current, c, r)) <==> (r
            < b.cols[c].len() && b.cols[c][r] == mover_first(b)))
}

/// Equal column heights give equal stone totals.
proof fn lemma_sum_lens_congruent(cols1: Seq<Seq<bool>>, cols2: Seq<Seq<bool>>)
    requires
        cols1.len() == cols2.len(),
        forall|c: int| 0 <= c < cols1.len() ==> (#[trigger] cols1[c]).len() == cols2[c].len(),
    ensures
        sum_lens(cols1) == sum_lens(cols2),
    decreases cols1.len(),
{
    if cols1.len() > 0 {
        lemma_sum_lens_congruent(cols1.drop_last(), cols2.drop_last());
    }
}

/// One pair of board words describes at most one well-formed board: the
/// mask bits pin every column's height, the current bits every cell's
/// owner.
pub proof fn lemma_corresponds_unique(current: u64, mask: u64, b1: Board, b2: Board)
    requires
        corresponds(current, mask, b1),
        corresponds(current, mask, b2),
        board_wf(b1),
        board_wf(b2),
    ensures
        b1 == b2,
{
    assert forall|c: int| 0 <= c < 7 implies (#[trigger] b1.cols[c]).len() == b2.cols[c].len() by {
        let l1 = b1.cols[c].len() as int;
        let l2 = b2.cols[c].len() as int;
        if l1 < l2 {
            assert(bit_of(mask, c, l1));
        } else if l2 < l1 {
            assert(bit_of(mask, c, l2));
        }
    }
    lemma_sum_lens_congruent(b1.cols, b2.cols);
    assert forall|c: int| 0 <= c < 7 implies b1.cols[c] =~= b2.cols[c] by {
        assert forall|r: int| 0 <= r < b1.cols[c].len() implies b1.cols[c][r] == b2.cols[c][r] by {
            assert(bit_of(current, c, r) <==> (b1.cols[c][r] == mover_first(b1)));
            assert(bit_of(current, c, r) <==> (b2.cols[c][r] == mover_first(b2)));
        }
    }
    assert(b1.cols =~~= b2.cols);
}

/// A bit test yields zero or one.
proof fn lemma_bit01(w: u64, sh: u64)
    ensures
        ((w >> sh) & 1) == 0 || ((w >> sh) & 1) == 1,
{
    assert(((w >> sh) & 1) == 0 || ((w >> sh) & 1) == 1) by (bit_vector);
}

/// The zero word has no bits: the empty board's words.
proof fn lemma_zero_word(sh: u64)
    ensures
        (0u64 >> sh) & 1 != 1,
{
    assert((0u64 >> sh) & 1 != 1) by (bit_vector);
}

/// A word inside the cell bits is bounded by them.
proof fn lemma_word_bound(w: u64)
    requires
        w & BOARD_BITS == w,
    ensures
        w <= BOARD_BITS,
{
    assert(w & 0xFDFB_F7EF_DFBFu64 == w ==> w <= 0xFDFB_F7EF_DFBFu64) by (bit_vector);
}

/// The guard bit of a column inside the cell bits stays clear.
proof fn lemma_guard_clear(w: u64, base: u64, sh: u64)
    by (bit_vector)
    requires
        base % 7 == 0,
        base <= 42,
        sh == base + 6,
        w & 0xFDFB_F7EF_DFBFu64 == w,
    ensures
        (w >> sh) & 1 != 1,
{
}

/// The column's top cell bit decides playability.
proof fn lemma_top_bit(w: u64, base: u64, sh: u64)
    by (bit_vector)
    requires
        base % 7 == 0,
        base <= 42,
        sh == base + 5,
    ensures
        ((w & ((0x20u64) << base)) == 0) <==> ((w >> sh) & 1 != 1),
{
}

/// Dropping a stone in the column at bit `base`, already `h` stones high —
/// adding the column's bottom bit and folding the carry back in — sets
/// exactly the cell bit `base + h` and keeps the word inside the cell bits.
proof fn lemma_play_word(
    mask: u64,
    base: u64,
    b1: u64,
    b2: u64,
    b3: u64,
    b4: u64,
    b5: u64,
    h: u64,
    sh2: u64,
)
    by (bit_vector)
    requires
        base % 7 == 0,
        base <= 42,
        b1 == base + 1,
        b2 == base + 2,
        b3 == base + 3,
        b4 == base + 4,
        b5 == base + 5,
        h < 6,
        sh2 < 64,
        mask & 0xFDFB_F7EF_DFBFu64 == mask,
        ((mask >> base) & 1) == (if 0 < h {
            1u64
        } else {
            0u64
        }),
        ((mask >> b1) & 1) == (if 1 < h {
            1u64
        } else {
            0u64
        }),
        ((mask >> b2) & 1) == (if 2 < h {
            1u64
        } else {
            0u64
        }),
        ((mask >> b3) & 1) == (if 3 < h {
            1u64
        } else {
            0u64
        }),
        ((mask >> b4) & 1) == (if 4 < h {
            1u64
        } else {
            0u64
        }),
        ((mask >> b5) & 1) == (if 5 < h {
            1u64
        } else {
            0u64
        }),
    ensures
        ((mask | vstd::prelude::add(mask, 1u64 << base)) >> sh2) & 1 == (if sh2 == base + h {
            1u64
        } else {
            ((mask >> sh2) & 1)
        }),
        (mask | vstd::prelude::add(mask, 1u64 << base)) & 0xFDFB_F7EF_DFBFu64 == (mask
            | vstd::prelude::add(mask, 1u64 << base)),
        vstd::prelude::add(mask, 1u64 << base) == mask + (1u64 << base),
{
}

/// Filling the column at bit `base` on top of the mover's word sets exactly
/// the cell bit `base + h` there, and stays inside the cell bits.
proof fn lemma_spec_word(
    current: u64,
    mask: u64,
    base: u64,
    b1: u64,
    b2: u64,
    b3: u64,
    b4: u64,
    b5: u64,
    h: u64,
    sh2: u64,
)
    by (bit_vector)
    requires
        base % 7 == 0,
        base <= 42,
        b1 == base + 1,
        b2 == base + 2,
        b3 == base + 3,
        b4 == base + 4,
        b5 == base + 5,
        h < 6,
        sh2 < 64,
        mask & 0xFDFB_F7EF_DFBFu64 == mask,
        current & 0xFDFB_F7EF_DFBFu64 == current,
        ((mask >> base) & 1) == (if 0 < h {
            1u64
        } else {
            0u64
        }),
        ((mask >> b1) & 1) == (if 1 < h {
            1u64
        } else {
            0u64
        }),
        ((mask >> b2) & 1) == (if 2 < h {
            1u64
        } else {
            0u64
        }),
        ((mask >> b3) & 1) == (if 3 < h {
            1u64
        } else {
            0u64
        }),
        ((mask >> b4) & 1) == (if 4 < h {
            1u64
        } else {
            0u64
        }),
        ((mask >> b5) & 1) == (if 5 < h {
            1u64
        } else {
            0u64
        }),
    ensures
        ((current | (vstd::prelude::add(mask, 1u64 << base) & (0x3Fu64 << base))) >> sh2) & 1 == (
        if sh2 == base + h {
            1u64
        } else {
            ((current >> sh2) & 1)
        }),
        (current | (vstd::prelude::add(mask, 1u64 << base) & (0x3Fu64 << base)))
            & 0xFDFB_F7EF_DFBFu64 == (current | (vstd::prelude::add(mask, 1u64 << base) & (
        0x3Fu64 << base))),
        vstd::prelude::add(mask, 1u64 << base) == mask + (1u64 << base),
{
}

/// The mover's new word stays inside the new occupancy word: flipping the
/// owners of occupied cells never leaves the occupied cells, and the drop
/// only adds one.
proof fn lemma_subset_preserved(mask: u64, current: u64, grown: u64)
    by (bit_vector)
    requires
        current & mask == current,
        mask & grown == mask,
    ensures
        (mask ^ current) & grown == (mask ^ current),
{
}

/// A bit of an exclusive-or word, and its staying inside the cell bits.
proof fn lemma_xor_word(a: u64, b: u64, sh: u64)
    by (bit_vector)
    requires
        a & 0xFDFB_F7EF_DFBFu64 == a,
        b & 0xFDFB_F7EF_DFBFu64 == b,
    ensures
        (((a ^ b) >> sh) & 1 == 1) <==> ((((a >> sh) & 1) == 1) != (((b >> sh) & 1) == 1)),
        (a ^ b) & 0xFDFB_F7EF_DFBFu64 == (a ^ b),
{
}

/// The paired alignment word equals the four-way conjunction of shifts.
proof fn lemma_pair_form(p: u64, s: u64, s2: u64)
    by (bit_vector)
    requires
        1 <= s <= 8,
        s2 == 2 * s,
    ensures
        ((p & (p >> s)) & ((p & (p >> s)) >> s2)) == (p & (p >> s) & ((p >> s) >> s) & (((p >> s)
            >> s) >> s)),
{
}

/// Four aligned bits make the alignment word nonzero.
proof fn lemma_align_fwd(p: u64, sh: u64, s: u64)
    by (bit_vector)
    requires
        s == 1 || s == 6 || s == 7 || s == 8,
        sh < 49,
        (p >> sh) & 1 == 1,
        ((p >> sh) >> s) & 1 == 1,
        (((p >> sh) >> s) >> s) & 1 == 1,
        ((((p >> sh) >> s) >> s) >> s) & 1 == 1,
    ensures
        (p & (p >> s) & ((p >> s) >> s) & (((p >> s) >> s) >> s)) != 0,
{
}

/// A set bit of the alignment word names four aligned bits of the board
/// word.
proof fn lemma_align_back(p: u64, i: u64, s: u64)
    by (bit_vector)
    requires
        s == 1 || s == 6 || s == 7 || s == 8,
        i < 64,
        ((p & (p >> s) & ((p >> s) >> s) & (((p >> s) >> s) >> s)) >> i) & 1 == 1,
    ensures
        i + 3 * s < 64,
        (p >> i) & 1 == 1,
        ((p >> i) >> s) & 1 == 1,
        (((p >> i) >> s) >> s) & 1 == 1,
        ((((p >> i) >> s) >> s) >> s) & 1 == 1,
{
}

/// Composed shifts are one shift by the summed amount.
#[verifier::rlimit(100)]
proof fn lemma_shift_compose(p: u64, a: u64, b: u64, c: u64)
    by (bit_vector)
    requires
        c == a + b,
    ensures
        (p >> a) >> b == p >> c,
{
}

/// Every nonzero word has a set bit, and here it is.
proof fn lemma_nonzero_bit(x: u64) -> (i: u64)
    requires
        x != 0,
    ensures
        i < 64,
        (x >> i) & 1 == 1,
    decreases x,
{
    if x & 1 == 1 {
        assert((x >> 0u64) & 1 == 1) by (bit_vector)
            requires
                x & 1 == 1,
        ;
        0
    } else {
        assert(x >> 1u64 != 0 && x >> 1u64 < x) by (bit_vector)
            requires
                x != 0 && x & 1 != 1,
        ;
        let j = lemma_nonzero_bit(x >> 1u64);
        let j1: u64 = (j + 1) as u64;
        assert(j < 63 && (x >> j1) & 1 == 1) by (bit_vector)
            requires
                j1 == j + 1 && j < 64 && ((x >> 1u64) >> j) & 1 == 1,
        ;
        j1
    }
}

/// A set bit of a board word names a cell: its index splits into a column
/// and a row under the guard row.
proof fn lemma_bit_cell(p: u64, i: u64)
    requires
        p & BOARD_BITS == p,
        i < 64,
        (p >> i) & 1 == 1,
    ensures
        i < 49,
        i % 7 < 6,
        i == 7 * (i / 7) + (i % 7),
        i / 7 < 7,
        bit_of(p, (i / 7) as int, (i % 7) as int),
{
    assert(i < 49 && i % 7 < 6 && i == 7 * (i / 7) + (i % 7) && i / 7 < 7) by (bit_vector)
        requires
            p & 0xFDFB_F7EF_DFBFu64 == p && i < 64 && (p >> i) & 1 == 1,
    ;
}

/// Two aligned set bits of a board word step one cell along the alignment's
/// direction: the guard row keeps a step from wrapping into the next
/// column.
proof fn lemma_step_cell(p: u64, i: u64, i2: u64, s: u64)
    by (bit_vector)
    requires
        p & 0xFDFB_F7EF_DFBFu64 == p,
        i < 49,
        i2 == i + s,
        (p >> i) & 1 == 1,
        (p >> i2) & 1 == 1,
        s == 1 || s == 6 || s == 7 || s == 8,
    ensures
        i2 < 49,
        s == 1 ==> i2 / 7 == i / 7 && i2 % 7 == i % 7 + 1,
        s == 7 ==> i2 / 7 == i / 7 + 1 && i2 % 7 == i % 7,
        s == 8 ==> i2 / 7 == i / 7 + 1 && i2 % 7 == i % 7 + 1,
        s == 6 ==> i2 / 7 == i / 7 + 1 && i % 7 >= 1 && i2 % 7 == i % 7 - 1,
{
}

/// The guard bit of a full column: clear exactly when a drop still fits.
pub fn top_mask(colm: usize) -> (r: u64)
    requires
        colm < 7,
    ensures
        r == (0x20u64 << ((7 * colm) as u64)),
{
    proof {
        let sh = (7 * colm) as u64;
        assert(((1u64 << 5) << sh) == (0x20u64 << sh)) by (bit_vector);
    }
    (1u64 << 5) << (colm * 7)
}

/// The lowest cell bit of a column.
pub fn bottom_mask(colm: usize) -> (r: u64)
    requires
        colm < 7,
    ensures
        r == (1u64 << ((7 * colm) as u64)),
        r <= 0x400_0000_0000u64,
{
    proof {
        let sh = (7 * colm) as u64;
        assert(sh <= 42 ==> (1u64 << sh) <= 0x400_0000_0000u64) by (bit_vector);
    }
    1u64 << (colm * 7)
}

/// All six cell bits of a column.
pub fn column_mask(colm: usize) -> (r: u64)
    requires
        colm < 7,
    ensures
        r == (0x3Fu64 << ((7 * colm) as u64)),
{
    proof {
        let sh = (7 * colm) as u64;
        assert(1u64 << 6 == 64u64 && ((((1u64 << 6) - 1) as u64) << sh) == (0x3Fu64 << sh))
            by (bit_vector);
    }
    ((1u64 << 6) - 1) << (colm * 7)
}

/// Bitboard-backed position: occupied cells, the mover's cells, the move
/// count, and the ghost board they encode.
#[derive(Clone, Copy)]
pub struct BitPosition {
    current: u64,
    mask: u64,
    played_moves: usize,
    board: Ghost<Board>,
}

impl View for BitPosition {
    type V = Board;

    closed spec fn view(&self) -> Board {
        self.board@
    }
}

impl BitPosition {
    /// The representation invariant: the words encode the ghost board,
    /// which is well formed, and the move counter matches it.
    pub closed spec fn inv(&self) -> bool {
        &&& corresponds(self.current, self.mask, self.board@)
        &&& board_wf(self.board@)
        &&& self.played_moves == num_moves(self.board@)
    }

    /// The mover's cell word.
    pub closed spec fn spec_current(&self) -> u64 {
        self.current
    }

    /// The occupancy word.
    pub closed spec fn spec_mask(&self) -> u64 {
        self.mask
    }

    /// The canonical key's two addends are bit-disjoint: the mover's cells
    /// are a subset of the occupied cells, so `current + mask` is the same
    /// sum as `2 * current + opponent cells` and identifies the pair.
    pub proof fn words_disjoint(&self)
        requires
            self.inv(),
        ensures
            self.spec_current() & self.spec_mask() == self.spec_current(),
    {
    }

    /// The invariant ties the two words to the board the contracts see.
    pub proof fn words_correspond(&self)
        requires
            self.inv(),
        ensures
            corresponds(self.spec_current(), self.spec_mask(), self@),
            board_wf(self@),
    {
    }

    /// An empty board, ready for the first move.
    pub fn new() -> (r: Self)
        ensures
            r.inv(),
            num_moves(r@) == 0,
            forall|c: int| 0 <= c < 7 ==> (#[trigger] r@.cols[c]).len() == 0,
    {
        let ghost empty = Board { cols: Seq::new(7, |c: int| Seq::<bool>::empty()) };
        let r = Self { current: 0, mask: 0, played_moves: 0, board: Ghost(empty) };
        proof {
            crate::positions::array_position::lemma_all_empty(empty);
            assert(0u64 & 0xFDFB_F7EF_DFBFu64 == 0u64 && 0u64 & 0u64 == 0u64) by (bit_vector);
            assert forall|c: int, r2: int| 0 <= c < 7 && 0 <= r2 < 6 implies !(#[trigger] bit_of(
                0u64,
                c,
                r2,
            )) by {
                lemma_zero_word((7 * c + r2) as u64);
            }
        }
        r
    }

    /// Number of moves played so far.
    pub fn played_moves(&self) -> (r: usize)
        requires
            self.inv(),
        ensures
            r == num_moves(self@),
    {
        self.played_moves
    }

    /// The canonical key of the position: the sum of the two words, which
    /// identifies the pair because they are bit-disjoint and each column of
    /// `mask` is filled from the bottom.
    pub fn key(&self) -> (r: u64)
        requires
            self.inv(),
        ensures
            r == self.spec_current() + self.spec_mask(),
    {
        proof {
            lemma_word_bound(self.current);
            lemma_word_bound(self.mask);
        }
        self.current + self.mask
    }

    /// Whether the cell `(colm, row)` is occupied.
    pub fn has_stone(&self, colm: usize, row: usize) -> (r: bool)
        requires
            self.inv(),
            colm < 7,
            row < 6,
        ensures
            r == (row < self@.cols[colm as int].len()),
    {
        proof {
            assert(bit_of(self.spec_mask(), colm as int, row as int) <==> ((self.spec_mask() >> ((
            7 * colm + row) as u64)) & 1) == 1);
        }
        (self.mask >> (colm * 7 + row)) & 1 == 1
    }

    /// The filled height of a column.
    pub fn column_height(&self, colm: usize) -> (r: usize)
        requires
            self.inv(),
            colm < 7,
        ensures
            r == self@.cols[colm as int].len(),
    {
        let mut row: usize = 0;
        while row < 6
            invariant
                self.inv(),
                colm < 7,
                0 <= row <= 6,
                row <= self@.cols[colm as int].len(),
            decreases 6 - row,
        {
            if !self.has_stone(colm, row) {
                return row;
            }
            row = row + 1;
        }
        proof {
            self.wf_board();
        }
        row
    }

    /// Whether the mover owns the stone at cell `(colm, row)`.
    pub fn has_mover_stone(&self, colm: usize, row: usize) -> (r: bool)
        requires
            self.inv(),
            colm < 7,
            row < 6,
        ensures
            r == stone_at(self@, mover_first(self@), colm as int, row as int),
    {
        proof {
            assert(bit_of(self.spec_current(), colm as int, row as int) <==> ((self.spec_current()
                >> ((7 * colm + row) as u64)) & 1) == 1);
        }
        (self.current >> (colm * 7 + row)) & 1 == 1
    }

    /// The mover's cell word, for tagging cache entries.
    pub fn current_word(&self) -> (r: u64)
        ensures
            r == self.spec_current(),
    {
        self.current
    }

    /// The occupancy word, for tagging cache entries.
    pub fn mask_word(&self) -> (r: u64)
        ensures
            r == self.spec_mask(),
    {
        self.mask
    }

    /// The per-row facts of the mask column at bit `7 * colm`: set below
    /// the height, clear at and above it.  Returns the six cell bit
    /// indices of the column.
    proof fn column_facts(&self, colm: usize) -> (bs: (u64, u64, u64, u64, u64, u64))
        requires
            self.inv(),
            colm < 7,
        ensures
            bs.0 == (7 * colm) as u64,
            bs.0 % 7 == 0,
            bs.0 <= 42,
            bs.1 == bs.0 + 1,
            bs.2 == bs.0 + 2,
            bs.3 == bs.0 + 3,
            bs.4 == bs.0 + 4,
            bs.5 == bs.0 + 5,
            ((self.spec_mask() >> bs.0) & 1) == (if 0 < self@.cols[colm as int].len() {
                1u64
            } else {
                0u64
            }),
            ((self.spec_mask() >> bs.1) & 1) == (if 1 < self@.cols[colm as int].len() {
                1u64
            } else {
                0u64
            }),
            ((self.spec_mask() >> bs.2) & 1) == (if 2 < self@.cols[colm as int].len() {
                1u64
            } else {
                0u64
            }),
            ((self.spec_mask() >> bs.3) & 1) == (if 3 < self@.cols[colm as int].len() {
                1u64
            } else {
                0u64
            }),
            ((self.spec_mask() >> bs.4) & 1) == (if 4 < self@.cols[colm as int].len() {
                1u64
            } else {
                0u64
            }),
            ((self.spec_mask() >> bs.5) & 1) == (if 5 < self@.cols[colm as int].len() {
                1u64
            } else {
                0u64
            }),
    {
        let w = self.mask;
        let c = colm as int;
        let base: u64 = (7 * colm) as u64;
        assert(bit_of(w, c, 0) <==> ((w >> base) & 1) == 1);
        assert(bit_of(w, c, 1) <==> ((w >> ((base + 1) as u64)) & 1) == 1);
        assert(bit_of(w, c, 2) <==> ((w >> ((base + 2) as u64)) & 1) == 1);
        assert(bit_of(w, c, 3) <==> ((w >> ((base + 3) as u64)) & 1) == 1);
        assert(bit_of(w, c, 4) <==> ((w >> ((base + 4) as u64)) & 1) == 1);
        assert(bit_of(w, c, 5) <==> ((w >> ((base + 5) as u64)) & 1) == 1);
        lemma_bit01(w, base);
        lemma_bit01(w, (base + 1) as u64);
        lemma_bit01(w, (base + 2) as u64);
        lemma_bit01(w, (base + 3) as u64);
        lemma_bit01(w, (base + 4) as u64);
        lemma_bit01(w, (base + 5) as u64);
        (
            base,
            (base + 1) as u64,
            (base + 2) as u64,
            (base + 3) as u64,
            (base + 4) as u64,
            (base + 5) as u64,
        )
    }
}

impl Position for BitPosition {
    open spec fn wf(&self) -> bool {
        self.inv()
    }

    proof fn wf_board(&self) {
    }

    fn can_play(&self, colm: usize) -> (r: bool) {
        proof {
            lemma_top_bit(self.mask, (7 * colm) as u64, (7 * colm + 5) as u64);
            assert(bit_of(self.spec_mask(), colm as int, 5) <==> ((self.spec_mask() >> ((7 * colm
                + 5) as u64)) & 1) == 1);
        }
        (self.mask & top_mask(colm)) == 0
    }

    fn play(&mut self, colm: usize) {
        proof {
            lemma_can_play_moves(self@, colm as int);
            lemma_play_at(self@, colm as int);
            lemma_word_bound(self.mask);
        }
        let ghost b = self.board@;
        let ghost h = b.cols[colm as int].len() as int;
        let ghost bs = self.column_facts(colm);
        let bottom = bottom_mask(colm);
        let new_current = self.mask ^ self.current;
        let new_mask = self.mask | (self.mask + bottom);
        proof {
            let pb = play_at(b, colm as int);
            lemma_play_word(self.mask, bs.0, bs.1, bs.2, bs.3, bs.4, bs.5, h as u64, 0u64);
            assert forall|c2: int, r2: int| 0 <= c2 < 7 && 0 <= r2 < 7 implies ((#[trigger] bit_of(
                new_mask,
                c2,
                r2,
            )) <==> (bit_of(self.mask, c2, r2) || (c2 == colm && r2 == h))) by {
                lemma_play_word(
                    self.mask,
                    bs.0,
                    bs.1,
                    bs.2,
                    bs.3,
                    bs.4,
                    bs.5,
                    h as u64,
                    (7 * c2 + r2) as u64,
                );
            }
            assert forall|c2: int, r2: int| 0 <= c2 < 7 && 0 <= r2 < 7 implies ((#[trigger] bit_of(
                new_current,
                c2,
                r2,
            )) <==> (bit_of(self.mask, c2, r2) != bit_of(self.current, c2, r2))) by {
                lemma_xor_word(self.mask, self.current, (7 * c2 + r2) as u64);
            }
            lemma_xor_word(self.mask, self.current, 0u64);
            let m = self.mask;
            let bot = bottom;
            assert(m & (m | ((m + bot) as u64)) == m) by (bit_vector);
            assert(m & new_mask == m);
            lemma_subset_preserved(m, self.current, new_mask);
            assert forall|c2: int, r2: int| 0 <= c2 < 7 && 0 <= r2 < 6 implies ((bit_of(
                new_mask,
                c2,
                r2,
            ) <==> r2 < pb.cols[c2].len()) && (bit_of(new_current, c2, r2) <==> (r2
                < pb.cols[c2].len() && pb.cols[c2][r2] == mover_first(pb)))) by {
                assert(bit_of(new_mask, c2, r2) <==> (bit_of(self.mask, c2, r2) || (c2
                    == colm && r2 == h)));
                assert(bit_of(new_current, c2, r2) <==> (bit_of(self.mask, c2, r2) != bit_of(
                    self.current,
                    c2,
                    r2,
                )));
                if c2 == colm {
                    assert(pb.cols[c2] == b.cols[c2].push(mover_first(b)));
                }
            }
        }
        self.current = new_current;
        self.mask = new_mask;
        self.played_moves = self.played_moves + 1;
        proof {
            self.board = Ghost(play_at(b, colm as int));
        }
    }

    fn is_winning(&self, colm: usize) -> (r: bool) {
        self.check_winning(colm)
    }

    fn played_moves(&self) -> (r: usize) {
        self.played_moves
    }
}

impl BitPosition {
    /// Whether the drop in `colm` completes four in a row for the mover:
    /// the speculative stone joins the mover's word, and each of the four
    /// directions is tested by two shift-and-mask folds.
    fn check_winning(&self, colm: usize) -> (r: bool)
        requires
            self.inv(),
            colm < 7,
            can_play_at(self@, colm as int),
            !has_won(self@, mover_first(self@)),
        ensures
            r == wins_at(self@, colm as int),
    {
        let ghost b = self@;
        let ghost q = mover_first(b);
        let ghost pb = play_at(b, colm as int);
        let ghost h = b.cols[colm as int].len() as int;
        proof {
            lemma_play_at(b, colm as int);
            lemma_won_dirs(pb, q);
            lemma_word_bound(self.mask);
        }
        let ghost bs = self.column_facts(colm);
        // Fill the next cell of the column on top of the mover's stones.
        let position = self.current | ((self.mask + bottom_mask(colm)) & column_mask(colm));
        proof {
            lemma_spec_word(
                self.current,
                self.mask,
                bs.0,
                bs.1,
                bs.2,
                bs.3,
                bs.4,
                bs.5,
                h as u64,
                0u64,
            );
            assert forall|c2: int, r2: int| 0 <= c2 < 7 && 0 <= r2 < 7 implies ((#[trigger] bit_of(
                position,
                c2,
                r2,
            )) <==> (bit_of(self.current, c2, r2) || (c2 == colm && r2 == h))) by {
                lemma_spec_word(
                    self.current,
                    self.mask,
                    bs.0,
                    bs.1,
                    bs.2,
                    bs.3,
                    bs.4,
                    bs.5,
                    h as u64,
                    (7 * c2 + r2) as u64,
                );
            }
            assert forall|c2: int, r2: int| 0 <= c2 < 7 && 0 <= r2 < 7 implies ((#[trigger] bit_of(
                position,
                c2,
                r2,
            )) <==> stone_at(pb, q, c2, r2)) by {
                if bit_of(position, c2, r2) {
                    if c2 == colm && r2 == h {
                        assert(stone_at(pb, q, c2, r2));
                    } else {
                        assert(bit_of(self.current, c2, r2));
                        if r2 == 6 {
                            lemma_guard_clear(self.current, (7 * c2) as u64, (7 * c2 + 6) as u64);
                        }
                        assert(r2 < 6);
                        assert(stone_at(b, q, c2, r2));
                        lemma_stone_mono(b, colm as int, q, c2, r2);
                    }
                }
                if stone_at(pb, q, c2, r2) {
                    if !(c2 == colm && r2 == h) {
                        lemma_stone_back(b, colm as int, q, c2, r2);
                        assert(r2 < b.cols[c2].len() <= 6);
                        assert(bit_of(self.current, c2, r2));
                    }
                }
            }
        }
        if self.direction_hit(position, 1, Ghost(0int), Ghost(pb), Ghost(q)) {
            return true;
        }
        if self.direction_hit(position, 7, Ghost(1int), Ghost(pb), Ghost(q)) {
            return true;
        }
        if self.direction_hit(position, 8, Ghost(2int), Ghost(pb), Ghost(q)) {
            return true;
        }
        if self.direction_hit(position, 6, Ghost(3int), Ghost(pb), Ghost(q)) {
            return true;
        }
        proof {
            if wins_at(b, colm as int) {
                assert(wins_dir(pb, q, 0) || wins_dir(pb, q, 1) || wins_dir(pb, q, 2) || wins_dir(
                    pb,
                    q,
                    3,
                ));
                assert(false);
            }
        }
        false
    }

    /// One direction's test: fold the word against itself shifted by the
    /// direction's step; a surviving bit is a four-in-a-row.
    fn direction_hit(
        &self,
        position: u64,
        shift: u64,
        ghost_d: Ghost<int>,
        ghost_pb: Ghost<Board>,
        ghost_q: Ghost<bool>,
    ) -> (r: bool)
        requires
            shift == 1 || shift == 6 || shift == 7 || shift == 8,
            ghost_d@ == (if shift == 1 {
                0int
            } else if shift == 7 {
                1int
            } else if shift == 8 {
                2int
            } else {
                3int
            }),
            position & BOARD_BITS == position,
            board_wf(ghost_pb@),
            forall|c2: int, r2: int|
                0 <= c2 < 7 && 0 <= r2 < 7 ==> ((#[trigger] bit_of(position, c2, r2)) <==> stone_at(
                    ghost_pb@,
                    ghost_q@,
                    c2,
                    r2,
                )),
        ensures
            r == wins_dir(ghost_pb@, ghost_q@, ghost_d@),
    {
        let ghost pb = ghost_pb@;
        let ghost q = ghost_q@;
        let ghost d = ghost_d@;
        let ghost dx = crate::model::dir_dx(d);
        let ghost dy = crate::model::dir_dy(d);
        let pair = position & (position >> shift);
        let line = pair & (pair >> (2 * shift));
        proof {
            lemma_pair_form(position, shift, (2 * shift) as u64);
        }
        if line != 0 {
            proof {
                let i = lemma_nonzero_bit(line);
                lemma_align_back(position, i, shift);
                let i1: u64 = (i + shift) as u64;
                let i2: u64 = (i + 2 * shift) as u64;
                let i3: u64 = (i + 3 * shift) as u64;
                lemma_shift_compose(position, i, shift, i1);
                lemma_shift_compose(position, i1, shift, i2);
                lemma_shift_compose(position, i2, shift, i3);
                lemma_bit_cell(position, i);
                let c0 = (i / 7) as int;
                let r0 = (i % 7) as int;
                lemma_step_cell(position, i, i1, shift);
                lemma_bit_cell(position, i1);
                lemma_step_cell(position, i1, i2, shift);
                lemma_bit_cell(position, i2);
                lemma_step_cell(position, i2, i3, shift);
                lemma_bit_cell(position, i3);
                assert(stone_at(pb, q, c0, r0));
                assert(stone_at(pb, q, c0 + dx, r0 + dy));
                assert(stone_at(pb, q, c0 + 2 * dx, r0 + 2 * dy));
                assert(stone_at(pb, q, c0 + 3 * dx, r0 + 3 * dy));
                assert(line_at(pb, q, c0, r0, d));
                assert(wins_dir(pb, q, d));
            }
            true
        } else {
            proof {
                if wins_dir(pb, q, d) {
                    let (c0, r0) = choose|c0: int, r0: int| line_at(pb, q, c0, r0, d);
                    assert(pb.cols[c0].len() <= 6 && pb.cols[c0 + dx].len() <= 6 && pb.cols[c0 + 2
                        * dx].len() <= 6 && pb.cols[c0 + 3 * dx].len() <= 6);
                    assert(stone_at(pb, q, c0, r0));
                    assert(stone_at(pb, q, c0 + dx, r0 + dy));
                    assert(stone_at(pb, q, c0 + 2 * dx, r0 + 2 * dy));
                    assert(stone_at(pb, q, c0 + 3 * dx, r0 + 3 * dy));
                    assert(bit_of(position, c0, r0));
                    assert(bit_of(position, c0 + dx, r0 + dy));
                    assert(bit_of(position, c0 + 2 * dx, r0 + 2 * dy));
                    assert(bit_of(position, c0 + 3 * dx, r0 + 3 * dy));
                    let sh: u64 = (7 * c0 + r0) as u64;
                    let s1: u64 = (7 * (c0 + dx) + (r0 + dy)) as u64;
                    let s2: u64 = (7 * (c0 + 2 * dx) + (r0 + 2 * dy)) as u64;
                    let s3: u64 = (7 * (c0 + 3 * dx) + (r0 + 3 * dy)) as u64;
                    lemma_shift_compose(position, sh, shift, s1);
                    lemma_shift_compose(position, s1, shift, s2);
                    lemma_shift_compose(position, s2, shift, s3);
                    lemma_align_fwd(position, sh, shift);
                    assert(false);
                }
            }
            false
        }
    }
}

} // verus!
