//! Storage for one value: cells at a fixed address, and a record of every
//! write, zero fill and destructor call made on them.
use vstd::prelude::*;

use crate::zero::Zeroable;

verus! {

/// One observable step that construction or destruction performs on storage.
#[derive(PartialEq, Eq, Structural, Debug, Clone, Copy)]
pub enum Event {
    /// A fully formed value was written to the cell at `addr`.
    Write { addr: usize, value: u64 },
    /// The cell at `addr` was filled with the all-zero bit pattern.
    Zero { addr: usize },
    /// The destructor ran on the value held by the cell at `addr`.
    Drop { addr: usize, value: u64 },
}

impl Event {
    pub open spec fn addr(self) -> int {
        match self {
            Event::Write { addr, .. } => addr as int,
            Event::Zero { addr } => addr as int,
            Event::Drop { addr, .. } => addr as int,
        }
    }
}

/// Reported when storage for a value cannot be obtained.
#[derive(PartialEq, Eq, Structural, Debug, Clone, Copy)]
pub struct AllocError;

/// What a slot holds, as a mathematical value.
pub struct SlotView {
    /// Address of the first cell; cell `i` lives at `base + i`.
    pub base: int,
    /// `None` for a cell that owes no destructor (uninitialized), `Some(v)` for a live value.
    pub cells: Seq<Option<u64>>,
    /// Everything that was done to the slot, oldest first.
    pub log: Seq<Event>,
}

impl SlotView {
    pub open spec fn len(self) -> nat {
        self.cells.len()
    }

    pub open spec fn addr_of(self, i: int) -> int {
        self.base + i
    }

    /// Cells `lo..hi` hold nothing that is owed a destructor.
    pub open spec fn vacant(self, lo: int, hi: int) -> bool {
        forall|i: int| lo <= i < hi ==> #[trigger] self.cells[i] is None
    }

    /// Cells `lo..lo + vals.len()` hold exactly `vals`.
    pub open spec fn holds(self, lo: int, vals: Seq<u64>) -> bool {
        forall|k: int| 0 <= k < vals.len() ==> #[trigger] self.cells[lo + k] == Some(vals[k])
    }

    /// Outside `lo..hi` nothing changed from `before`.
    pub open spec fn same_outside(self, before: SlotView, lo: int, hi: int) -> bool {
        &&& self.base == before.base
        &&& self.cells.len() == before.cells.len()
        &&& forall|i: int|
            0 <= i < self.cells.len() && !(lo <= i < hi) ==> #[trigger] self.cells[i]
                == before.cells[i]
    }
}

/// Raw storage for one value: a run of cells at a fixed address, with a record of
/// every write, zero-fill and destructor call made on it.
pub struct Slot {
    base: usize,
    cells: Vec<Option<u64>>,
    log: Vec<Event>,
}

impl View for Slot {
    type V = SlotView;

    closed spec fn view(&self) -> SlotView {
        SlotView { base: self.base as int, cells: self.cells@, log: self.log@ }
    }
}

/// Every event of `log` from position `from` on touches an address in `lo..hi`.
pub open spec fn events_within(log: Seq<Event>, from: int, lo: int, hi: int) -> bool {
    forall|k: int| from <= k < log.len() ==> lo <= #[trigger] log[k].addr() < hi
}

/// No event of `t` is a destructor call.
pub open spec fn no_drops(t: Seq<Event>) -> bool {
    forall|k: int| 0 <= k < t.len() ==> !(#[trigger] t[k] is Drop)
}

/// Joining two records without destructor calls gives one without any.
pub proof fn lemma_no_drops_concat(a: Seq<Event>, b: Seq<Event>)
    requires
        no_drops(a),
        no_drops(b),
    ensures
        no_drops(a + b),
{
    assert forall|k: int| 0 <= k < (a + b).len() implies !(#[trigger] (a + b)[k] is Drop) by {
        if k < a.len() {
            assert((a + b)[k] == a[k]);
        } else {
            assert((a + b)[k] == b[k - a.len()]);
        }
    }
}

/// The values `vals` are written, in increasing address order, to `addr..addr + vals.len()`.
pub open spec fn writes(addr: int, vals: Seq<u64>) -> Seq<Event> {
    Seq::new(vals.len(), |k: int| Event::Write { addr: (addr + k) as usize, value: vals[k] })
}

/// The destructor runs, in increasing address order, on the values `vals` held at
/// `addr..addr + vals.len()`.
pub open spec fn drops(addr: int, vals: Seq<u64>) -> Seq<Event> {
    Seq::new(vals.len(), |k: int| Event::Drop { addr: (addr + k) as usize, value: vals[k] })
}

impl Slot {
    pub open spec fn wf(&self) -> bool {
        0 <= self@.base && self@.base + self@.cells.len() <= usize::MAX
    }

    /// Takes `len` cells at `base`, all uninitialized, with nothing recorded yet.
    /// Fails when the cells would run past the end of the address space.
    pub fn new(base: usize, len: usize) -> (r: Result<Slot, AllocError>)
        ensures
            match r {
                Ok(s) => {
                    &&& base + len <= usize::MAX
                    &&& s.wf()
                    &&& s@.base == base
                    &&& s@.len() == len
                    &&& s@.vacant(0, len as int)
                    &&& s@.log.len() == 0
                },
                Err(_) => base + len > usize::MAX,
            },
    {
        if len > usize::MAX - base {
            return Err(AllocError);
        }
        let mut cells: Vec<Option<u64>> = Vec::new();
        let mut i: usize = 0;
        while i < len
            invariant
                i <= len,
                cells@.len() == i,
                forall|k: int| 0 <= k < i ==> #[trigger] cells@[k] is None,
            decreases len - i,
        {
            cells.push(None);
            i = i + 1;
        }
        Ok(Slot { base, cells, log: Vec::new() })
    }

    /// Whether the cells stay inside the address space.
    pub fn wf_check(&self) -> (r: bool)
        ensures
            r == self.wf(),
    {
        self.cells.len() <= usize::MAX - self.base
    }

    pub fn base(&self) -> (r: usize)
        ensures
            r == self@.base,
    {
        self.base
    }

    /// The address that cell `i` has, whether or not it holds a value yet: a
    /// token for computing where a field will live, never for reading it.
    pub fn addr_of(&self, i: usize) -> (r: usize)
        requires
            self.wf(),
            i <= self@.len(),
        ensures
            r == self@.base + i,
    {
        self.base + i
    }

    pub fn len(&self) -> (r: usize)
        ensures
            r == self@.len(),
    {
        self.cells.len()
    }

    /// The content of cell `i`.
    pub fn get(&self, i: usize) -> (r: Option<u64>)
        requires
            i < self@.len(),
        ensures
            r == self@.cells[i as int],
    {
        self.cells[i]
    }

    /// A copy of all cells.
    pub fn contents(&self) -> (r: Vec<Option<u64>>)
        ensures
            r@ == self@.cells,
    {
        self.cells.clone()
    }

    /// A copy of the record of events.
    pub fn log(&self) -> (r: Vec<Event>)
        ensures
            r@ == self@.log,
    {
        self.log.clone()
    }

    /// Writes `value` into cell `i`, overwriting without dropping.
    pub fn write(&mut self, i: usize, value: u64)
        requires
            old(self).wf(),
            i < old(self)@.len(),
        ensures
            final(self).wf(),
            final(self)@.base == old(self)@.base,
            final(self)@.cells == old(self)@.cells.update(i as int, Some(value)),
            final(self)@.log == old(self)@.log.push(
                Event::Write { addr: (old(self)@.base + i) as usize, value },
            ),
    {
        self.cells.set(i, Some(value));
        self.log.push(Event::Write { addr: self.base + i, value });
    }

    /// Fills cell `i` with the all-zero bit pattern.
    pub fn zero(&mut self, i: usize)
        requires
            old(self).wf(),
            i < old(self)@.len(),
        ensures
            final(self).wf(),
            final(self)@.base == old(self)@.base,
            final(self)@.cells == old(self)@.cells.update(i as int, Some(0u64)),
            final(self)@.log == old(self)@.log.push(
                Event::Zero { addr: (old(self)@.base + i) as usize },
            ),
    {
        self.cells.set(i, Some(u64::zeroed()));
        self.log.push(Event::Zero { addr: self.base + i });
    }

    /// Runs the destructor of the value in cell `i`, which becomes uninitialized.
    pub fn drop_cell(&mut self, i: usize)
        requires
            old(self).wf(),
            i < old(self)@.len(),
            old(self)@.cells[i as int] is Some,
        ensures
            final(self).wf(),
            final(self)@.base == old(self)@.base,
            final(self)@.cells == old(self)@.cells.update(i as int, None),
            final(self)@.log == old(self)@.log.push(
                Event::Drop {
                    addr: (old(self)@.base + i) as usize,
                    value: old(self)@.cells[i as int]->Some_0,
                },
            ),
    {
        let value = self.cells[i].unwrap();
        self.cells.set(i, None);
        self.log.push(Event::Drop { addr: self.base + i, value });
    }

    /// Hands cell `i` back as raw memory without running anything on it; for cells
    /// whose content owes no destructor (such as a zero fill).
    pub fn forget(&mut self, i: usize)
        requires
            old(self).wf(),
            i < old(self)@.len(),
        ensures
            final(self).wf(),
            final(self)@.base == old(self)@.base,
            final(self)@.cells == old(self)@.cells.update(i as int, None),
            final(self)@.log == old(self)@.log,
    {
        self.cells.set(i, None);
    }

    /// Replaces the live value in cell `i` through a mutable borrow of the finished value.
    pub fn set(&mut self, i: usize, value: u64)
        requires
            old(self).wf(),
            i < old(self)@.len(),
            old(self)@.cells[i as int] is Some,
        ensures
            final(self).wf(),
            final(self)@.base == old(self)@.base,
            final(self)@.cells == old(self)@.cells.update(i as int, Some(value)),
            final(self)@.log == old(self)@.log,
    {
        self.cells.set(i, Some(value));
    }
}

} // verus!
