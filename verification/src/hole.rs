use vstd::prelude::*;
use vstd::pervasive::VecAdditionalExecFns;

use crate::perm::lemma_swap_preserves_multiset;

verus! {

/// A transient cursor over the heap's backing vector.
///
/// One slot, `pos`, is treated as a logical gap, and the element displaced
/// from the first gap position is held in `elt` until the cursor is closed.
/// The vector itself stays fully initialized throughout (the gap slot merely
/// keeps a stale copy), so closing the cursor on any exit path leaves the
/// backing store holding a permutation of what it held when the cursor was
/// opened: one element write per move plus one final write, instead of two
/// writes per swap.
pub(crate) struct Hole {
    pub(crate) data: Vec<i64>,
    pub(crate) elt: i64,
    pub(crate) pos: usize,
}

impl Hole {
    /// The gap position stays inside the backing vector.
    pub(crate) open spec fn wf(self) -> bool {
        self.pos < self.data@.len()
    }

    /// The backing vector as it stands with the gap written shut, i.e. with
    /// the held element placed at the gap position. Every property of a sift
    /// in progress is stated over this sequence.
    pub(crate) open spec fn filled(self) -> Seq<i64> {
        self.data@.update(self.pos as int, self.elt)
    }

    /// Opens a gap at `pos`: the element there is logically removed from the
    /// vector and held aside.
    pub(crate) fn new(data: Vec<i64>, pos: usize) -> (h: Hole)
        requires
            pos < data@.len(),
        ensures
            h.wf(),
            h.pos == pos,
            h.elt == data@[pos as int],
            h.filled() == data@,
    {
        let elt = data[pos];
        let h = Hole { data, elt, pos };
        proof {
            assert(h.filled() =~= data@);
        }
        h
    }

    /// Current index of the gap.
    pub(crate) fn pos(&self) -> (p: usize)
        ensures
            p == self.pos,
    {
        self.pos
    }

    /// The element displaced from the first gap position, held outside the
    /// vector.
    pub(crate) fn element(&self) -> (e: i64)
        ensures
            e == self.elt,
    {
        self.elt
    }

    /// Reads a live slot, i.e. any slot other than the gap itself.
    pub(crate) fn get(&self, index: usize) -> (v: i64)
        requires
            self.wf(),
            index != self.pos,
            index < self.data@.len(),
        ensures
            v == self.filled()[index as int],
    {
        self.data[index]
    }

    /// Moves the value at `index` into the gap; `index` becomes the new gap.
    /// On the filled view this is exactly a swap of the two positions.
    pub(crate) fn move_to(&mut self, index: usize)
        requires
            old(self).wf(),
            index != old(self).pos,
            index < old(self).data@.len(),
        ensures
            final(self).wf(),
            final(self).pos == index,
            final(self).elt == old(self).elt,
            final(self).data@.len() == old(self).data@.len(),
            final(self).filled() == old(self).filled().update(
                old(self).pos as int,
                old(self).filled()[index as int],
            ).update(index as int, old(self).filled()[old(self).pos as int]),
            final(self).filled().to_multiset() == old(self).filled().to_multiset(),
    {
        let ghost f = old(self).filled();
        let ghost i = old(self).pos as int;
        let ghost j = index as int;
        let moved = self.data[index];
        self.data.set(self.pos, moved);
        self.pos = index;
        proof {
            assert(self.filled() =~= f.update(i, f[j]).update(j, f[i]));
            lemma_swap_preserves_multiset(f, i, j);
        }
    }

    /// Closes the gap: writes the held element into the slot the gap
    /// currently occupies and hands the now fully valid vector back.
    pub(crate) fn close(self) -> (r: Vec<i64>)
        requires
            self.wf(),
        ensures
            r@ == self.filled(),
    {
        let Hole { mut data, elt, pos } = self;
        data.set(pos, elt);
        data
    }
}

} // verus!
