//! The transposition cache: a fixed-capacity, direct-mapped store of upper
//! bounds on game values, keyed by a position's canonical key.
//!
//! Each slot remembers the two board words of the position that wrote it;
//! a lookup answers only when both words match, so a colliding key can cost
//! a hit but never return a bound that does not hold.  Every stored byte
//! encodes `bound - MIN_SCORE + 1`, a sound upper bound on the game value
//! of the position whose words tag the slot.

use vstd::prelude::*;

use crate::model::{board_wf, game_value, Board};
use crate::positions::bit_position::{corresponds, lemma_corresponds_unique, BitPosition};
use crate::positions::Position;
use crate::solvers::MIN_SCORE;

verus! {

/// The value a stored byte stands for.
pub open spec fn decode(v: u8) -> int {
    v as int + MIN_SCORE as int - 1
}

/// A stored tag-and-byte is sound: every well-formed board the two words
/// describe has a game value no higher than the decoded byte.
pub open spec fn entry_ok(cur: u64, mask: u64, v: u8) -> bool {
    forall|b: Board| #[trigger] corresponds(cur, mask, b) && board_wf(b) ==> game_value(b)
        <= decode(v)
}

/// The slot a canonical key falls into.
pub open spec fn slot_index(cur: u64, mask: u64, capacity: int) -> int {
    (cur + mask) % capacity
}

/// Fixed-capacity direct-mapped cache from canonical keys to upper bounds.
pub struct TranspositionTable {
    tags_current: Vec<u64>,
    tags_mask: Vec<u64>,
    values: Vec<u8>,
}

impl TranspositionTable {
    /// The slots: each holds the two board words of the position that
    /// wrote it and the stored byte, zero when never written.
    pub closed spec fn slots(&self) -> Seq<(u64, u64, u8)> {
        Seq::new(
            self.values@.len(),
            |i: int| (self.tags_current@[i], self.tags_mask@[i], self.values@[i]),
        )
    }

    /// Every occupied slot carries a sound bound for its tagged position.
    pub closed spec fn inv(&self) -> bool {
        &&& self.values.len() == self.tags_current.len()
        &&& self.values.len() == self.tags_mask.len()
        &&& self.values.len() >= 1
        &&& forall|i: int|
            0 <= i < self.values.len() && self.values@[i] != 0 ==> entry_ok(
                #[trigger] self.tags_current@[i],
                self.tags_mask@[i],
                self.values@[i],
            )
    }

    /// The number of slots.
    pub closed spec fn capacity(&self) -> int {
        self.values.len() as int
    }

    /// An empty cache with `size` slots.
    pub fn new(size: usize) -> (r: Self)
        requires
            size >= 1,
        ensures
            r.inv(),
            r.capacity() == size,
            forall|i: int| 0 <= i < size ==> (#[trigger] r.slots()[i]).2 == 0,
    {
        let mut tags_current: Vec<u64> = Vec::new();
        let mut tags_mask: Vec<u64> = Vec::new();
        let mut values: Vec<u8> = Vec::new();
        let mut i: usize = 0;
        while i < size
            invariant
                tags_current.len() == i,
                tags_mask.len() == i,
                values.len() == i,
                0 <= i <= size,
                forall|j: int| 0 <= j < i ==> values@[j] == 0,
            decreases size - i,
        {
            tags_current.push(0);
            tags_mask.push(0);
            values.push(0);
            i = i + 1;
        }
        Self { tags_current, tags_mask, values }
    }

    /// Store `value` as a bound for `pos`, overwriting whatever occupied
    /// the slot its key maps to.
    pub fn put(&mut self, pos: &BitPosition, value: u8)
        requires
            old(self).inv(),
            pos.inv(),
            value != 0,
            game_value(pos@) <= decode(value),
        ensures
            final(self).inv(),
            final(self).capacity() == old(self).capacity(),
            final(self).slots() == old(self).slots().update(
                slot_index(pos.spec_current(), pos.spec_mask(), old(self).capacity()),
                (pos.spec_current(), pos.spec_mask(), value),
            ),
    {
        proof {
            lemma_word_sum(pos);
        }
        proof {
            assert forall|b: Board|
                #[trigger] corresponds(pos.spec_current(), pos.spec_mask(), b) && board_wf(
                    b,
                ) implies game_value(b) <= decode(value) by {
                pos.words_correspond();
                lemma_corresponds_unique(pos.spec_current(), pos.spec_mask(), b, pos@);
            }
        }
        let key = pos.key();
        let len = self.values.len();
        let slot = (key % (len as u64)) as usize;
        self.tags_current[slot] = pos.current_word();
        self.tags_mask[slot] = pos.mask_word();
        self.values[slot] = value;
        proof {
            assert(self.slots() =~= old(self).slots().update(
                slot as int,
                (pos.spec_current(), pos.spec_mask(), value),
            ));
        }
    }

    /// The bound stored for `pos`, or nothing when its slot holds another
    /// position or was never written.
    pub fn get(&self, pos: &BitPosition) -> (r: Option<u8>)
        requires
            self.inv(),
            pos.inv(),
        ensures
            ({
                let e = self.slots()[slot_index(
                    pos.spec_current(),
                    pos.spec_mask(),
                    self.capacity(),
                )];
                if e.2 != 0 && e.0 == pos.spec_current() && e.1 == pos.spec_mask() {
                    r == Some(e.2)
                } else {
                    r == None::<u8>
                }
            }),
            match r {
                Some(v) => v != 0 && game_value(pos@) <= decode(v),
                None => true,
            },
    {
        proof {
            lemma_word_sum(pos);
        }
        let key = pos.key();
        let len = self.values.len();
        let slot = (key % (len as u64)) as usize;
        if self.values[slot] != 0 && self.tags_current[slot] == pos.current_word()
            && self.tags_mask[slot] == pos.mask_word() {
            proof {
                pos.words_correspond();
                assert(entry_ok(pos.spec_current(), pos.spec_mask(), self.values@[slot as int]));
                assert(corresponds(pos.spec_current(), pos.spec_mask(), pos@));
            }
            Some(self.values[slot])
        } else {
            None
        }
    }
}

/// The key a position reports is its word sum, and the sum stays in
/// machine range: both words live inside the cell bits.
proof fn lemma_word_sum(pos: &BitPosition)
    requires
        pos.inv(),
    ensures
        pos.spec_current() + pos.spec_mask() <= u64::MAX,
{
    pos.words_correspond();
    let cur = pos.spec_current();
    let mask = pos.spec_mask();
    assert(cur & 0xFDFB_F7EF_DFBFu64 == cur && mask & 0xFDFB_F7EF_DFBFu64 == mask ==> cur + mask
        <= u64::MAX) by (bit_vector);
}

} // verus!
