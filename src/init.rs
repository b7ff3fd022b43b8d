//! The initializer capability, movable and address-stable, and the simplest
//! initializers: a value itself, and one given by its procedure's result.
use vstd::prelude::*;

use crate::slot::{events_within, no_drops, writes, Event, Slot, SlotView};

verus! {

/// `Ok(())` exactly when `outcome` is `Ok`, and the same error otherwise.
pub open spec fn reports<E>(r: Result<(), E>, outcome: Result<Seq<u64>, E>) -> bool {
    match r {
        Ok(()) => outcome is Ok,
        Err(e) => outcome == Err::<Seq<u64>, E>(e),
    }
}

/// What running an initializer of `width` cells at cell `at` of a slot does:
/// nothing outside `at..at + width` changes, exactly `trace` is recorded, every
/// recorded event stays inside the value's own addresses, and the cells then hold
/// the value (on success) or are uninitialized again (on failure).
pub open spec fn ran<E>(
    before: SlotView,
    after: SlotView,
    at: int,
    width: nat,
    outcome: Result<Seq<u64>, E>,
    trace: Seq<Event>,
    r: Result<(), E>,
) -> bool {
    &&& after.same_outside(before, at, at + width)
    &&& after.log == before.log + trace
    &&& events_within(after.log, before.log.len() as int, before.base + at, before.base + at + width)
    &&& reports(r, outcome)
    &&& match outcome {
        Ok(vals) => vals.len() == width && after.holds(at, vals),
        Err(_) => after.vacant(at, at + width),
    }
}

/// The condition under which an initializer may run at cell `at` of `slot`.
pub open spec fn fits(slot: SlotView, at: int, width: nat) -> bool {
    &&& 0 <= slot.base
    &&& slot.base + slot.len() <= usize::MAX
    &&& 0 <= at
    &&& at + width <= slot.len()
    &&& slot.vacant(at, at + width)
}

/// An address-stable initializer: the future construction of a value of `width`
/// cells, which after success is never moved again short of destruction.
pub trait PinInit<E>: Sized {
    /// The number of cells the value occupies.
    spec fn width(&self) -> nat;

    /// Whether the initializer was put together correctly.
    spec fn valid(&self) -> bool;

    /// The value built on success, or the error reported.
    spec fn outcome(&self) -> Result<Seq<u64>, E>;

    /// The events recorded when the value is built at address `addr`.
    spec fn trace(&self, addr: int) -> Seq<Event>;

    /// A value built with success fills exactly `width` cells.
    proof fn lemma_outcome_width(&self)
        ensures
            self.outcome() is Ok ==> self.outcome()->Ok_0.len() == self.width(),
    ;

    /// A construction that succeeds runs no destructor.
    proof fn lemma_success_no_drops(&self, addr: int)
        ensures
            self.outcome() is Ok ==> no_drops(self.trace(addr)),
    ;

    /// The number of cells, at run time.
    fn len(&self) -> (r: usize)
        ensures
            r == self.width(),
    ;

    /// Builds the value in cells `at..at + width` of `slot`, which must be
    /// uninitialized; on failure they are left uninitialized again, with no
    /// destructor owed.
    fn pinned_init(self, slot: &mut Slot, at: usize) -> (r: Result<(), E>)
        requires
            self.valid(),
            fits(old(slot)@, at as int, self.width()),
        ensures
            final(slot).wf(),
            ran(
                old(slot)@,
                final(slot)@,
                at as int,
                self.width(),
                self.outcome(),
                self.trace(old(slot)@.base + at),
                r,
            ),
    ;
}

/// A movable initializer: like an address-stable one, and the value it builds may
/// still be moved afterwards. Every one is usable where an address-stable one is
/// asked for.
pub trait Init<E>: PinInit<E> {
    /// Builds the value as `pinned_init` does.
    fn init(self, slot: &mut Slot, at: usize) -> (r: Result<(), E>)
        requires
            self.valid(),
            fits(old(slot)@, at as int, self.width()),
        ensures
            final(slot).wf(),
            ran(
                old(slot)@,
                final(slot)@,
                at as int,
                self.width(),
                self.outcome(),
                self.trace(old(slot)@.base + at),
                r,
            ),
    ;
}

/// A value is its own initializer: it is written into its cell and never fails.
impl<E> PinInit<E> for u64 {
    open spec fn width(&self) -> nat {
        1
    }

    open spec fn valid(&self) -> bool {
        true
    }

    open spec fn outcome(&self) -> Result<Seq<u64>, E> {
        Ok(seq![*self])
    }

    open spec fn trace(&self, addr: int) -> Seq<Event> {
        seq![Event::Write { addr: addr as usize, value: *self }]
    }

    proof fn lemma_outcome_width(&self) {
    }

    proof fn lemma_success_no_drops(&self, addr: int) {
    }

    fn len(&self) -> (r: usize) {
        1
    }

    fn pinned_init(self, slot: &mut Slot, at: usize) -> (r: Result<(), E>) {
        let ghost before = slot@;
        slot.write(at, self);
        assert(slot@.log[before.log.len() as int].addr() == before.base + at);
        assert(slot@.holds(at as int, seq![self]));
        assert(slot@.log =~= before.log + PinInit::<E>::trace(&self, before.base + at));
        assert(slot@.same_outside(before, at as int, at + 1));
        Ok(())
    }
}

impl<E> Init<E> for u64 {
    fn init(self, slot: &mut Slot, at: usize) -> (r: Result<(), E>) {
        self.pinned_init(slot, at)
    }
}

/// A hand-built initializer, given by what its procedure does: it writes `values`
/// in order, or, when it holds a `failure`, writes nothing and reports that error.
pub struct InitClosure<E> {
    pub values: Vec<u64>,
    pub failure: Option<E>,
}

/// Builds a movable initializer from the result of a construction procedure.
pub fn init_from_closure<E>(values: Vec<u64>, failure: Option<E>) -> (r: InitClosure<E>)
    ensures
        r.values@ == values@,
        r.failure == failure,
{
    InitClosure { values, failure }
}

/// Builds an address-stable initializer from the result of a construction procedure.
pub fn pin_init_from_closure<E>(values: Vec<u64>, failure: Option<E>) -> (r: InitClosure<E>)
    ensures
        r.values@ == values@,
        r.failure == failure,
{
    InitClosure { values, failure }
}

impl<E> PinInit<E> for InitClosure<E> {
    open spec fn width(&self) -> nat {
        self.values@.len()
    }

    open spec fn valid(&self) -> bool {
        true
    }

    open spec fn outcome(&self) -> Result<Seq<u64>, E> {
        match self.failure {
            Some(e) => Err(e),
            None => Ok(self.values@),
        }
    }

    open spec fn trace(&self, addr: int) -> Seq<Event> {
        match self.failure {
            Some(_) => Seq::empty(),
            None => writes(addr, self.values@),
        }
    }

    proof fn lemma_outcome_width(&self) {
    }

    proof fn lemma_success_no_drops(&self, addr: int) {
    }

    fn len(&self) -> (r: usize) {
        self.values.len()
    }

    fn pinned_init(self, slot: &mut Slot, at: usize) -> (r: Result<(), E>) {
        let ghost before = slot@;
        let InitClosure { values, failure } = self;
        match failure {
            Some(e) => {
                assert(slot@.log =~= before.log + Seq::<Event>::empty());
                return Err(e);
            },
            None => {},
        }
        let n = values.len();
        let mut i: usize = 0;
        while i < n
            invariant
                n == values@.len(),
                i <= n,
                fits(before, at as int, n as nat),
                slot.wf(),
                slot@.same_outside(before, at as int, at + n),
                slot@.log == before.log + writes(before.base + at, values@.take(i as int)),
                events_within(slot@.log, before.log.len() as int, before.base + at, before.base + at + n),
                slot@.holds(at as int, values@.take(i as int)),
            decreases n - i,
        {
            let ghost mid = slot@;
            slot.write(at + i, values[i]);
            assert(slot@.log =~= before.log + writes(before.base + at, values@.take(i + 1)));
            assert(slot@.log[mid.log.len() as int].addr() == before.base + at + i);
            assert forall|k: int| 0 <= k < i + 1 implies #[trigger] slot@.cells[at + k] == Some(values@.take(i + 1)[k]) by {
                if k < i {
                    assert(mid.cells[at + k] == Some(values@.take(i as int)[k]));
                }
            }
            i = i + 1;
        }
        assert(values@.take(n as int) =~= values@);
        Ok(())
    }
}

impl<E> Init<E> for InitClosure<E> {
    fn init(self, slot: &mut Slot, at: usize) -> (r: Result<(), E>) {
        self.pinned_init(slot, at)
    }
}

/// An initializer for storage that is allowed to stay uninitialized: it always
/// succeeds and does nothing, leaving its `width` cells as they were. It stands
/// apart from `PinInit`, whose success means a value in every cell.
pub struct Uninit {
    pub width: usize,
}

/// An initializer for `width` cells that may stay uninitialized.
pub fn uninit(width: usize) -> (r: Uninit)
    ensures
        r.width == width,
{
    Uninit { width }
}

impl Uninit {
    /// Runs on cells `at..at + width`: succeeds, writes nothing, records nothing.
    pub fn init<E>(self, slot: &mut Slot, at: usize) -> (r: Result<(), E>)
        requires
            old(slot).wf(),
            at + self.width <= old(slot)@.len(),
        ensures
            r is Ok,
            final(slot)@ == old(slot)@,
    {
        Ok(())
    }
}

} // verus!
