//! The record of fields built so far, which drives rollback on failure.
use vstd::prelude::*;

use crate::slot::{drops, Event, Slot};

verus! {

/// The values that cells `start..start + width` hold.
pub open spec fn values_in(cells: Seq<Option<u64>>, start: int, width: int) -> Seq<u64> {
    Seq::new(width as nat, |t: int| cells[start + t]->Some_0)
}

/// The destructor calls that undo the recorded fields `lo..hi` (each an offset and
/// a width, from cell `at` of storage at `base`): the latest field first, and the
/// cells of each field in increasing order, each on the value `cells` holds there.
pub open spec fn unwind(entries: Seq<(usize, usize)>, lo: int, hi: int, cells: Seq<Option<u64>>, base: int, at: int) -> Seq<Event>
    decreases hi - lo,
{
    if lo >= hi {
        Seq::empty()
    } else {
        unwind(entries, lo + 1, hi, cells, base, at) + drops(
            base + at + entries[lo].0,
            values_in(cells, at + entries[lo].0, entries[lo].1 as int),
        )
    }
}

/// Cell `c` lies in the recorded field `e`.
pub open spec fn in_entry(e: (usize, usize), c: int) -> bool {
    e.0 <= c < e.0 + e.1
}

/// Some recorded field covers cell `c`.
pub open spec fn covered(entries: Seq<(usize, usize)>, c: int) -> bool {
    exists|k: int| 0 <= k < entries.len() && #[trigger] in_entry(entries[k], c)
}

/// The fields constructed so far during one construction, in construction order,
/// each owed its destructor should the construction fail.
pub struct GuardLedger {
    entries: Vec<(usize, usize)>,
}

impl View for GuardLedger {
    type V = Seq<(usize, usize)>;

    closed spec fn view(&self) -> Seq<(usize, usize)> {
        self.entries@
    }
}

impl GuardLedger {
    pub fn new() -> (r: GuardLedger)
        ensures
            r@ == Seq::<(usize, usize)>::empty(),
    {
        GuardLedger { entries: Vec::new() }
    }

    /// Records that the field of `width` cells at offset `offset` has just been constructed.
    pub fn push(&mut self, offset: usize, width: usize)
        ensures
            final(self)@ == old(self)@.push((offset, width)),
    {
        self.entries.push((offset, width));
    }

    /// The number of fields still owed a destructor.
    pub fn pending(&self) -> (r: usize)
        ensures
            r == self@.len(),
    {
        self.entries.len()
    }

    /// Construction succeeded: the fields now belong to the finished value, so every
    /// entry is released without running anything.
    pub fn discharge(self) -> (r: usize)
        ensures
            r == self@.len(),
    {
        self.entries.len()
    }

    /// Construction failed: runs the destructor of every recorded field, latest
    /// first, each exactly once; a field's cells are destroyed in increasing order.
    pub fn rollback(self, slot: &mut Slot, at: usize, size: usize)
        requires
            old(slot).wf(),
            at + size <= old(slot)@.len(),
            forall|k: int| 0 <= k < self@.len() ==> #[trigger] self@[k].0 + self@[k].1 <= size,
            forall|k: int, c: int|
                0 <= k < self@.len() && #[trigger] in_entry(self@[k], c) ==> (#[trigger] old(slot)@.cells[at + c]) is Some,
            forall|k1: int, k2: int, c: int|
                0 <= k1 < k2 < self@.len() && #[trigger] in_entry(self@[k1], c) ==> !#[trigger] in_entry(self@[k2], c),
        ensures
            final(slot).wf(),
            final(slot)@.same_outside(old(slot)@, at as int, at + size),
            forall|k: int, c: int|
                0 <= k < self@.len() && #[trigger] in_entry(self@[k], c) ==> (#[trigger] final(slot)@.cells[at + c]) is None,
            forall|c: int|
                0 <= c < size && !covered(self@, c) ==> #[trigger] final(slot)@.cells[at + c] == old(slot)@.cells[at + c],
            final(slot)@.log == old(slot)@.log + unwind(self@, 0, self@.len() as int, old(slot)@.cells, old(slot)@.base, at as int),
    {
        let ghost before = slot@;
        let ghost all = self@;
        let mut entries = self.entries;
        while entries.len() > 0
            invariant
                before == old(slot)@,
                entries@ == all.take(entries@.len() as int),
                entries@.len() <= all.len(),
                slot.wf(),
                at + size <= slot@.len(),
                slot@.same_outside(before, at as int, at + size),
                forall|k: int| 0 <= k < all.len() ==> #[trigger] all[k].0 + all[k].1 <= size,
                forall|k1: int, k2: int, c: int|
                    0 <= k1 < k2 < all.len() && #[trigger] in_entry(all[k1], c) ==> !#[trigger] in_entry(all[k2], c),
                forall|k: int, c: int|
                    0 <= k < entries@.len() && #[trigger] in_entry(all[k], c) ==> #[trigger] slot@.cells[at + c]
                        == before.cells[at + c],
                forall|k: int, c: int|
                    0 <= k < all.len() && #[trigger] in_entry(all[k], c) ==> (#[trigger] before.cells[at + c]) is Some,
                forall|k: int, c: int|
                    entries@.len() <= k < all.len() && #[trigger] in_entry(all[k], c) ==> (#[trigger] slot@.cells[at + c]) is None,
                forall|c: int| 0 <= c < size && !covered(all, c) ==> #[trigger] slot@.cells[at + c] == before.cells[at + c],
                slot@.log == before.log + unwind(all, entries@.len() as int, all.len() as int, before.cells, before.base, at as int),
            decreases entries@.len(),
        {
            let ghost k = entries@.len() - 1;
            assert forall|c: int| #[trigger] in_entry(all[k], c) implies slot@.cells[at + c] == before.cells[at + c]
                && before.cells[at + c] is Some by {
            }
            let (offset, width) = entries.pop().unwrap();
            assert(all[k] == (offset, width));
            assert forall|c: int| offset <= c < offset + width implies (#[trigger] before.cells[at + c]) is Some
                && slot@.cells[at + c] == before.cells[at + c] by {
                assert(in_entry(all[k], c));
            }
            let ghost vals = values_in(before.cells, at + offset, width as int);
            let ghost start = slot@;
            let mut t: usize = 0;
            while t < width
                invariant
                    before == old(slot)@,
                    0 <= k < all.len(),
                    all[k] == (offset, width),
                    entries@ == all.take(k),
                    offset + width <= size,
                    t <= width,
                    slot.wf(),
                    at + size <= slot@.len(),
                    slot@.same_outside(before, at as int, at + size),
                    vals == values_in(before.cells, at + offset, width as int),
                    forall|k1: int, k2: int, c: int|
                        0 <= k1 < k2 < all.len() && #[trigger] in_entry(all[k1], c) ==> !#[trigger] in_entry(all[k2], c),
                    forall|c: int| offset + t <= c < offset + width ==> #[trigger] slot@.cells[at + c] == start.cells[at + c],
                    forall|c: int| 0 <= c < size && !(offset <= c < offset + width) ==> #[trigger] slot@.cells[at + c] == start.cells[at + c],
                    forall|c: int| offset <= c < offset + width ==> (#[trigger] before.cells[at + c]) is Some,
                    forall|c: int| offset <= c < offset + width ==> #[trigger] start.cells[at + c] == before.cells[at + c],
                    forall|c: int| offset <= c < offset + t ==> (#[trigger] slot@.cells[at + c]) is None,
                    slot@.log == start.log + drops(before.base + at + offset, vals.take(t as int)),
                decreases width - t,
            {
                let ghost mid = slot@;
                assert(in_entry(all[k], offset + t));
                assert(mid.cells[at + (offset + t)] == before.cells[at + (offset + t)]);
                slot.drop_cell(at + offset + t);
                assert(drops(before.base + at + offset, vals.take(t + 1)) =~= drops(before.base + at + offset, vals.take(t as int)).push(
                    Event::Drop { addr: (before.base + at + offset + t) as usize, value: vals[t as int] },
                ));
                assert(slot@.log =~= start.log + drops(before.base + at + offset, vals.take(t + 1)));
                assert forall|c: int| 0 <= c < size && !(offset <= c < offset + width) implies #[trigger] slot@.cells[at + c] == start.cells[at + c] by {
                    assert(mid.cells[at + c] == start.cells[at + c]);
                }
                assert forall|c: int| offset <= c < offset + t + 1 implies (#[trigger] slot@.cells[at + c]) is None by {
                    if c < offset + t {
                        assert(mid.cells[at + c] is None);
                    }
                }
                t = t + 1;
            }
            assert(vals.take(width as int) =~= vals);
            assert forall|k2: int, c: int| 0 <= k2 < entries@.len() && #[trigger] in_entry(all[k2], c) implies #[trigger] slot@.cells[at + c]
                == before.cells[at + c] by {
                assert(!in_entry(all[k], c));
                assert(all[k2].0 + all[k2].1 <= size);
                assert(start.cells[at + c] == before.cells[at + c]);
            }
            assert forall|k2: int, c: int| k <= k2 < all.len() && #[trigger] in_entry(all[k2], c) implies (#[trigger] slot@.cells[at + c]) is None by {
                assert(all[k2].0 + all[k2].1 <= size);
                if k2 > k && !(offset <= c < offset + width) {
                    assert(start.cells[at + c] is None);
                }
            }
            assert forall|c: int| 0 <= c < size && !covered(all, c) implies #[trigger] slot@.cells[at + c] == before.cells[at + c] by {
                if offset <= c < offset + width {
                    assert(in_entry(all[k], c));
                }
                assert(start.cells[at + c] == before.cells[at + c]);
            }
            assert(slot@.log =~= before.log + unwind(all, k, all.len() as int, before.cells, before.base, at as int));
        }
    }
}

} // verus!
