//! The per-node move ordering: a tiny insertion-sorted list of candidate
//! moves, at most one per column, consumed from the highest heuristic score
//! down.  Ordering tightens pruning; it never changes a search's result.

use vstd::prelude::*;

verus! {

/// Candidate moves as `(column, score)` pairs, kept sorted by ascending
/// score so that walking from the back yields the best move first.
pub struct MoveSorter {
    entries: Vec<(usize, i32)>,
}

impl MoveSorter {
    /// The entries in storage order.
    pub closed spec fn view(&self) -> Seq<(usize, i32)> {
        self.entries@
    }

    /// The entries are sorted by ascending score.
    pub open spec fn sorted(&self) -> bool {
        forall|k1: int, k2: int|
            0 <= k1 <= k2 < self.view().len() ==> (#[trigger] self.view()[k1]).1
                <= (#[trigger] self.view()[k2]).1
    }

    /// An empty move list.
    pub fn new() -> (r: Self)
        ensures
            r.view().len() == 0,
            r.sorted(),
    {
        Self { entries: Vec::new() }
    }

    /// How many moves are waiting.
    pub fn len(&self) -> (r: usize)
        ensures
            r == self.view().len(),
    {
        self.entries.len()
    }

    /// The move at place `k`; the last place holds a best-scored move.
    pub fn get(&self, k: usize) -> (r: (usize, i32))
        requires
            k < self.view().len(),
        ensures
            r == self.view()[k as int],
    {
        self.entries[k]
    }

    /// File a move under its score, keeping the list sorted.  Every move
    /// already filed stays; nothing else appears.
    pub fn add(&mut self, colm: usize, score: i32)
        requires
            old(self).sorted(),
            old(self).view().len() < 7,
        ensures
            final(self).sorted(),
            final(self).view().len() == old(self).view().len() + 1,
            final(self).view().contains((colm, score)),
            forall|p: (usize, i32)|
                old(self).view().contains(p) ==> final(self).view().contains(p),
            forall|p: (usize, i32)|
                final(self).view().contains(p) ==> (old(self).view().contains(p) || p == (
                colm,
                score,
            )),
    {
        let ghost old_view = self.entries@;
        let mut i = self.entries.len();
        while i > 0 && self.entries[i - 1].1 > score
            invariant
                self.entries@ == old_view,
                0 <= i <= old_view.len(),
                forall|k: int| i <= k < old_view.len() ==> (#[trigger] old_view[k]).1 > score,
            decreases i,
        {
            i = i - 1;
        }
        proof {
            assert(forall|k1: int, k2: int|
                0 <= k1 <= k2 < old_view.len() ==> (#[trigger] old_view[k1]).1 <= (
                #[trigger] old_view[k2]).1);
        }
        self.entries.insert(i, (colm, score));
        proof {
            let new_view = self.entries@;
            assert(new_view[i as int] == (colm, score));
            assert forall|p: (usize, i32)| old_view.contains(p) implies new_view.contains(p) by {
                let k = choose|k: int| 0 <= k < old_view.len() && old_view[k] == p;
                if k < i {
                    assert(new_view[k] == p);
                } else {
                    assert(new_view[k + 1] == p);
                }
            }
            assert forall|p: (usize, i32)| new_view.contains(p) implies (old_view.contains(p) || p
                == (colm, score)) by {
                let k = choose|k: int| 0 <= k < new_view.len() && new_view[k] == p;
                if k < i {
                    assert(old_view[k] == p);
                } else if k > i {
                    assert(old_view[k - 1] == p);
                }
            }
            assert forall|k1: int, k2: int|
                0 <= k1 <= k2 < new_view.len() implies (#[trigger] new_view[k1]).1 <= (
            #[trigger] new_view[k2]).1 by {
                if i < old_view.len() {
                    assert(old_view[i as int].1 > score || old_view[i as int].1 >= score);
                }
            }
        }
    }
}

} // verus!
