//! Owning handles that obtain storage, run an initializer in it, and hand out
//! the finished value, address-stable or movable.
use vstd::prelude::*;

use core::marker::PhantomData;

use crate::init::{ran, Init, PinInit};
use crate::slot::{events_within, AllocError, Event, Slot, SlotView};

verus! {

/// The error number for running out of memory.
pub const ENOMEM: i32 = 12;

/// An error type into which allocation failure converts, so that it travels on
/// the same channel as the initializer's own errors.
pub trait FromAllocError: Sized {
    /// The error that stands for allocation failure.
    spec fn alloc_failure() -> Self;

    fn from_alloc_error(e: AllocError) -> (r: Self)
        ensures
            r == Self::alloc_failure(),
    ;
}

/// Allocation failure as itself.
impl FromAllocError for AllocError {
    open spec fn alloc_failure() -> AllocError {
        AllocError
    }

    fn from_alloc_error(e: AllocError) -> (r: AllocError) {
        e
    }
}

/// Allocation failure as a negated error number.
impl FromAllocError for i32 {
    open spec fn alloc_failure() -> i32 {
        (-ENOMEM) as i32
    }

    fn from_alloc_error(e: AllocError) -> (r: i32) {
        -ENOMEM
    }
}

/// Proof that a destructor call comes from an owning handle's own teardown: only
/// this library can make one.
pub struct OnlyCallFromDrop {
    _private: (),
}

impl OnlyCallFromDrop {
    pub(crate) fn new() -> (r: OnlyCallFromDrop) {
        OnlyCallFromDrop { _private: () }
    }
}

/// The destructor of an address-stable value, run only by its handle's teardown.
pub trait PinnedDrop: Sized {
    /// `after` is what `self` becomes once its destructor has run.
    spec fn torn_down(&self, after: &Self) -> bool;

    fn drop(&mut self, only_call_from_drop: OnlyCallFromDrop)
        ensures
            old(self).torn_down(&*final(self)),
    ;
}

/// Every cell holds a live value.
pub open spec fn all_live(cells: Seq<Option<u64>>) -> bool {
    forall|k: int| 0 <= k < cells.len() ==> #[trigger] cells[k] is Some
}

/// The live values of all cells, in order.
pub open spec fn live_values(cells: Seq<Option<u64>>) -> Seq<u64> {
    Seq::new(cells.len(), |k: int| cells[k]->Some_0)
}

/// Storage that a container just obtained: `width` uninitialized cells, nothing
/// done to them yet.
pub open spec fn fresh(slot: SlotView, width: nat) -> bool {
    &&& 0 <= slot.base
    &&& slot.base + slot.len() <= usize::MAX
    &&& slot.len() == width
    &&& slot.vacant(0, width as int)
    &&& slot.log.len() == 0
}

/// The storage of a finished value built at `base` with `vals`, having recorded `trace`.
pub open spec fn finished(base: int, vals: Seq<u64>, trace: Seq<Event>) -> SlotView {
    SlotView { base, cells: Seq::new(vals.len(), |k: int| Some(vals[k])), log: trace }
}

/// Destroying a value whose every field is live runs each field's destructor
/// once, in field order, and leaves the storage uninitialized where it was.
pub open spec fn teardown(before: SlotView, after: SlotView) -> bool {
    (all_live(before.cells) && 0 <= before.base && before.base + before.len() <= usize::MAX) ==> {
        &&& after.base == before.base
        &&& after.len() == before.len()
        &&& after.vacant(0, before.len() as int)
        &&& after.log == before.log + crate::slot::drops(before.base, live_values(before.cells))
    }
}

/// A value's destructor drops each of its fields, in order.
impl PinnedDrop for Slot {
    open spec fn torn_down(&self, after: &Slot) -> bool {
        teardown(self@, after@)
    }

    fn drop(&mut self, only_call_from_drop: OnlyCallFromDrop) {
        if !self.wf_check() {
            return;
        }
        let ghost before = self@;
        let n = self.len();
        let mut i: usize = 0;
        while i < n
            invariant
                i <= n,
                n == before.len(),
                self.wf(),
                self@.base == before.base,
                self@.len() == n,
                forall|k: int| 0 <= k < i ==> #[trigger] self@.cells[k] is None,
                forall|k: int| i <= k < n ==> #[trigger] self@.cells[k] == before.cells[k],
                all_live(before.cells) ==> self@.log == before.log + crate::slot::drops(
                    before.base,
                    live_values(before.cells).take(i as int),
                ),
            decreases n - i,
        {
            if self.get(i).is_some() {
                self.drop_cell(i);
                proof {
                    if all_live(before.cells) {
                        assert(crate::slot::drops(before.base, live_values(before.cells).take(i + 1)) =~= crate::slot::drops(
                            before.base,
                            live_values(before.cells).take(i as int),
                        ).push(Event::Drop { addr: (before.base + i) as usize, value: before.cells[i as int]->Some_0 }));
                    }
                }
            } else {
                assert(!all_live(before.cells));
            }
            i = i + 1;
        }
        proof {
            assert(live_values(before.cells).take(n as int) =~= live_values(before.cells));
        }
    }
}

/// `after` is `before` with one storage appended: at `base`, of `width` cells,
/// none of which holds a value, with exactly `trace` recorded on it.
pub open spec fn handed_back(before: Seq<Slot>, after: Seq<Slot>, base: int, width: nat, trace: Seq<Event>) -> bool {
    &&& after.len() == before.len() + 1
    &&& after.drop_last() == before
    &&& after.last()@.base == base
    &&& after.last()@.len() == width
    &&& after.last()@.vacant(0, width as int)
    &&& after.last()@.log == trace
}

/// What an initializer run on fresh storage leaves there is the finished value on
/// success, and storage with no value and nothing but the initializer's own
/// events on failure.
proof fn lemma_settled<E>(before: SlotView, after: SlotView, width: nat, outcome: Result<Seq<u64>, E>, trace: Seq<Event>, r: Result<(), E>)
    requires
        fresh(before, width),
        ran(before, after, 0, width, outcome, trace, r),
    ensures
        outcome is Ok ==> after == finished(before.base, outcome->Ok_0, trace) && all_live(after.cells),
        outcome is Err ==> after.base == before.base && after.len() == width && after.vacant(0, width as int)
            && after.log == trace,
{
    assert(after.log =~= trace);
    if outcome is Ok {
        let vals = outcome->Ok_0;
        assert forall|k: int| 0 <= k < vals.len() implies after.cells[k] == Some(vals[k]) by {
            assert(after.cells[0 + k] == Some(vals[k]));
        }
        assert(after.cells =~= Seq::new(vals.len(), |k: int| Some(vals[k])));
    }
}

/// Runs an address-stable initializer on fresh storage: hands back the storage
/// holding the value, or puts it on `released` and passes the error on.
fn run_pinned<E, I: PinInit<E>>(slot: Slot, init: I, released: &mut Vec<Slot>) -> (r: Result<Slot, E>)
    requires
        init.valid(),
        fresh(slot@, init.width()),
    ensures
        match init.outcome() {
            Ok(vals) => r is Ok && r->Ok_0@ == finished(slot@.base, vals, init.trace(slot@.base)) && r->Ok_0.wf()
                && all_live(r->Ok_0@.cells) && events_within(r->Ok_0@.log, 0, slot@.base, slot@.base + init.width())
                && final(released)@ == old(released)@,
            Err(e) => r == Err::<Slot, E>(e) && handed_back(
                old(released)@,
                final(released)@,
                slot@.base,
                init.width(),
                init.trace(slot@.base),
            ),
        },
{
    let mut slot = slot;
    let ghost s0 = slot@;
    let ghost i0 = init;
    let r = init.pinned_init(&mut slot, 0);
    proof {
        lemma_settled(s0, slot@, i0.width(), i0.outcome(), i0.trace(s0.base), r);
    }
    match r {
        Ok(()) => Ok(slot),
        Err(e) => {
            released.push(slot);
            assert(released@.drop_last() =~= old(released)@);
            Err(e)
        },
    }
}

/// Runs a movable initializer on fresh storage, under the same rules.
fn run_movable<E, I: Init<E>>(slot: Slot, init: I, released: &mut Vec<Slot>) -> (r: Result<Slot, E>)
    requires
        init.valid(),
        fresh(slot@, init.width()),
    ensures
        match init.outcome() {
            Ok(vals) => r is Ok && r->Ok_0@ == finished(slot@.base, vals, init.trace(slot@.base)) && r->Ok_0.wf()
                && all_live(r->Ok_0@.cells) && final(released)@ == old(released)@,
            Err(e) => r == Err::<Slot, E>(e) && handed_back(
                old(released)@,
                final(released)@,
                slot@.base,
                init.width(),
                init.trace(slot@.base),
            ),
        },
{
    let mut slot = slot;
    let ghost s0 = slot@;
    let ghost i0 = init;
    let r = init.init(&mut slot, 0);
    proof {
        lemma_settled(s0, slot@, i0.width(), i0.outcome(), i0.trace(s0.base), r);
    }
    match r {
        Ok(()) => Ok(slot),
        Err(e) => {
            released.push(slot);
            assert(released@.drop_last() =~= old(released)@);
            Err(e)
        },
    }
}

/// An error that can be reported as a negated error number.
pub trait ToErrno: Sized {
    /// The negated error number that stands for the error.
    spec fn errno(&self) -> i32;

    fn to_errno(self) -> (r: i32)
        ensures
            r == self.errno(),
    ;
}

/// An error number stands for itself.
impl ToErrno for i32 {
    open spec fn errno(&self) -> i32 {
        *self
    }

    fn to_errno(self) -> (r: i32) {
        self
    }
}

/// Allocation failure is reported as running out of memory.
impl ToErrno for AllocError {
    open spec fn errno(&self) -> i32 {
        (-ENOMEM) as i32
    }

    fn to_errno(self) -> (r: i32) {
        proof {
            assert(self.errno() == -ENOMEM);
        }
        -ENOMEM
    }
}

/// An owning handle that can take part in in-place construction: it takes over
/// storage in which a value was fully built, and gives read access to it.
pub trait InPlaceInit: Sized {
    /// The storage the handle owns.
    spec fn storage(&self) -> SlotView;

    /// Takes over storage whose every cell holds a live value.
    fn from_storage(slot: Slot) -> (r: Self)
        requires
            slot.wf(),
            all_live(slot@.cells),
        ensures
            r.storage() == slot@,
    ;

    /// Builds a value with `init` in freshly obtained storage `alloc` and hands it
    /// out behind an address-stable handle. Allocation failure is reported, as
    /// `E`, before any initializer runs. When the initializer fails, its error is
    /// passed on and its storage goes to `released`, to be deallocated: with no
    /// value in any cell and nothing recorded beyond the initializer's own events,
    /// so no destructor runs on it past the initializer's own rollback.
    fn try_pin_init<E: FromAllocError, I: PinInit<E>>(
        alloc: Result<Slot, AllocError>,
        init: I,
        released: &mut Vec<Slot>,
    ) -> (r: Result<Pinned<Self>, E>)
        requires
            init.valid(),
            alloc is Ok ==> fresh(alloc->Ok_0@, init.width()),
        ensures
            match alloc {
                Err(_) => r == Err::<Pinned<Self>, E>(E::alloc_failure()) && final(released)@ == old(released)@,
                Ok(s) => match init.outcome() {
                    Ok(vals) => r is Ok && r->Ok_0@ == finished(s@.base, vals, init.trace(s@.base))
                        && events_within(r->Ok_0@.log, 0, s@.base, s@.base + init.width())
                        && final(released)@ == old(released)@,
                    Err(e) => r == Err::<Pinned<Self>, E>(e) && handed_back(
                        old(released)@,
                        final(released)@,
                        s@.base,
                        init.width(),
                        init.trace(s@.base),
                    ),
                },
            },
    {
        match alloc {
            Err(a) => Err(E::from_alloc_error(a)),
            Ok(slot) => match run_pinned(slot, init, released) {
                Ok(slot) => Ok(Pinned::new(slot)),
                Err(e) => Err(e),
            },
        }
    }

    /// Builds a value with `init` in freshly obtained storage `alloc` and hands it
    /// out behind a plain owning handle, under the same failure rules.
    fn try_init<E: FromAllocError, I: Init<E>>(
        alloc: Result<Slot, AllocError>,
        init: I,
        released: &mut Vec<Slot>,
    ) -> (r: Result<Self, E>)
        requires
            init.valid(),
            alloc is Ok ==> fresh(alloc->Ok_0@, init.width()),
        ensures
            match alloc {
                Err(_) => r == Err::<Self, E>(E::alloc_failure()) && final(released)@ == old(released)@,
                Ok(s) => match init.outcome() {
                    Ok(vals) => r is Ok && r->Ok_0.storage() == finished(s@.base, vals, init.trace(s@.base))
                        && final(released)@ == old(released)@,
                    Err(e) => r == Err::<Self, E>(e) && handed_back(
                        old(released)@,
                        final(released)@,
                        s@.base,
                        init.width(),
                        init.trace(s@.base),
                    ),
                },
            },
    {
        match alloc {
            Err(a) => Err(E::from_alloc_error(a)),
            Ok(slot) => match run_movable(slot, init, released) {
                Ok(slot) => Ok(Self::from_storage(slot)),
                Err(e) => Err(e),
            },
        }
    }

    /// Like `try_pin_init`, with every failure reported as a negated error number:
    /// allocation failure as running out of memory, the initializer's error as
    /// the number it stands for.
    fn pin_init<E: ToErrno, I: PinInit<E>>(
        alloc: Result<Slot, AllocError>,
        init: I,
        released: &mut Vec<Slot>,
    ) -> (r: Result<Pinned<Self>, i32>)
        requires
            init.valid(),
            alloc is Ok ==> fresh(alloc->Ok_0@, init.width()),
        ensures
            match alloc {
                Err(_) => r == Err::<Pinned<Self>, i32>(-12i32) && final(released)@ == old(released)@,
                Ok(s) => match init.outcome() {
                    Ok(vals) => r is Ok && r->Ok_0@ == finished(s@.base, vals, init.trace(s@.base))
                        && events_within(r->Ok_0@.log, 0, s@.base, s@.base + init.width())
                        && final(released)@ == old(released)@,
                    Err(e) => r == Err::<Pinned<Self>, i32>(e.errno()) && handed_back(
                        old(released)@,
                        final(released)@,
                        s@.base,
                        init.width(),
                        init.trace(s@.base),
                    ),
                },
            },
    {
        match alloc {
            Err(a) => Err(a.to_errno()),
            Ok(slot) => match run_pinned(slot, init, released) {
                Ok(slot) => Ok(Pinned::new(slot)),
                Err(e) => Err(e.to_errno()),
            },
        }
    }

    /// Like `try_init`, with every failure reported as a negated error number.
    fn init<E: ToErrno, I: Init<E>>(
        alloc: Result<Slot, AllocError>,
        init: I,
        released: &mut Vec<Slot>,
    ) -> (r: Result<Self, i32>)
        requires
            init.valid(),
            alloc is Ok ==> fresh(alloc->Ok_0@, init.width()),
        ensures
            match alloc {
                Err(_) => r == Err::<Self, i32>(-12i32) && final(released)@ == old(released)@,
                Ok(s) => match init.outcome() {
                    Ok(vals) => r is Ok && r->Ok_0.storage() == finished(s@.base, vals, init.trace(s@.base))
                        && final(released)@ == old(released)@,
                    Err(e) => r == Err::<Self, i32>(e.errno()) && handed_back(
                        old(released)@,
                        final(released)@,
                        s@.base,
                        init.width(),
                        init.trace(s@.base),
                    ),
                },
            },
    {
        match alloc {
            Err(a) => Err(a.to_errno()),
            Ok(slot) => match run_movable(slot, init, released) {
                Ok(slot) => Ok(Self::from_storage(slot)),
                Err(e) => Err(e.to_errno()),
            },
        }
    }
}

/// An address-stable owning handle: the value stays where it was built. Nothing
/// reachable from it moves the value out; the only way to give up the storage is
/// `release`, which destroys the value first.
pub struct Pinned<H> {
    slot: Slot,
    kind: PhantomData<H>,
}

impl<H> View for Pinned<H> {
    type V = SlotView;

    closed spec fn view(&self) -> SlotView {
        self.slot@
    }
}

impl<H> Pinned<H> {
    /// The handle owns a fully built value.
    #[verifier::type_invariant]
    spec fn holds_value(self) -> bool {
        self.slot.wf() && all_live(self.slot@.cells)
    }

    fn new(slot: Slot) -> (r: Pinned<H>)
        requires
            slot.wf(),
            all_live(slot@.cells),
        ensures
            r@ == slot@,
    {
        Pinned { slot, kind: PhantomData }
    }

    /// The address of the value.
    pub fn addr(&self) -> (r: usize)
        ensures
            r == self@.base,
    {
        self.slot.base()
    }

    /// The number of fields of the value.
    pub fn len(&self) -> (r: usize)
        ensures
            r == self@.len(),
    {
        self.slot.len()
    }

    /// Field `i` of the value.
    pub fn get(&self, i: usize) -> (r: Option<u64>)
        requires
            i < self@.len(),
        ensures
            r == self@.cells[i as int],
    {
        self.slot.get(i)
    }

    /// What was done to the value's storage so far.
    pub fn log(&self) -> (r: Vec<Event>)
        ensures
            r@ == self@.log,
    {
        self.slot.log()
    }

    /// Tears the value down in place, each field's destructor once, in field
    /// order, then gives the storage back as raw memory at the same address.
    pub fn release(self) -> (r: Slot)
        ensures
            all_live(self@.cells),
            r@.base == self@.base,
            r@.len() == self@.len(),
            r@.vacant(0, self@.len() as int),
            r@.log == self@.log + crate::slot::drops(self@.base, live_values(self@.cells)),
    {
        proof {
            use_type_invariant(&self);
        }
        let mut slot = self.slot;
        slot.drop(OnlyCallFromDrop::new());
        slot
    }
}

/// A heap-allocated owning handle; the value may be moved out of it.
pub struct Boxed {
    slot: Slot,
}

impl Boxed {
    /// The handle owns a fully built value.
    #[verifier::type_invariant]
    spec fn holds_value(self) -> bool {
        self.slot.wf() && all_live(self.slot@.cells)
    }
}

impl InPlaceInit for Boxed {
    closed spec fn storage(&self) -> SlotView {
        self.slot@
    }

    fn from_storage(slot: Slot) -> (r: Boxed) {
        Boxed { slot }
    }

}

impl Boxed {
    pub fn addr(&self) -> (r: usize)
        ensures
            r == self.storage().base,
    {
        self.slot.base()
    }

    /// Moves the value out of the handle, field by field.
    pub fn into_values(self) -> (r: Vec<u64>)
        ensures
            all_live(self.storage().cells),
            r@ == live_values(self.storage().cells),
    {
        proof {
            use_type_invariant(&self);
        }
        let n = self.slot.len();
        let mut out: Vec<u64> = Vec::new();
        let mut i: usize = 0;
        while i < n
            invariant
                i <= n,
                n == self.storage().len(),
                all_live(self.storage().cells),
                out@ == live_values(self.storage().cells).take(i as int),
            decreases n - i,
        {
            out.push(self.slot.get(i).unwrap());
            assert(out@ =~= live_values(self.storage().cells).take(i + 1));
            i = i + 1;
        }
        assert(out@ =~= live_values(self.storage().cells));
        out
    }
}

/// A uniquely owned, reference-counted handle; once built its value may be shared.
pub struct UniqueArc {
    slot: Slot,
}

impl UniqueArc {
    /// The handle owns a fully built value.
    #[verifier::type_invariant]
    spec fn holds_value(self) -> bool {
        self.slot.wf() && all_live(self.slot@.cells)
    }
}

impl InPlaceInit for UniqueArc {
    closed spec fn storage(&self) -> SlotView {
        self.slot@
    }

    fn from_storage(slot: Slot) -> (r: UniqueArc) {
        UniqueArc { slot }
    }

}

} // verus!
