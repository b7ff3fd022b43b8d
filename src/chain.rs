//! Running a further step on a freshly built value, destroying it when the step
//! rejects it.
use vstd::prelude::*;

use crate::init::{fits, ran, reports, Init, PinInit};
use crate::slot::{drops, Event, Slot, SlotView};

verus! {

/// A step run on a value right after it was built: it may check it, change it in
/// place, or reject it.
pub trait Finish<E>: Sized {
    /// The value after the step, or the rejection.
    spec fn apply(&self, vals: Seq<u64>) -> Result<Seq<u64>, E>;

    /// The step keeps the value's size.
    proof fn lemma_keeps_len(&self, vals: Seq<u64>)
        ensures
            self.apply(vals) is Ok ==> self.apply(vals)->Ok_0.len() == vals.len(),
    ;

    fn finish(self, vals: &mut Vec<u64>) -> (r: Result<(), E>)
        ensures
            match self.apply(old(vals)@) {
                Ok(v) => r is Ok && final(vals)@ == v && v.len() == old(vals)@.len(),
                Err(e) => r == Err::<(), E>(e),
            },
    ;
}

/// Accepts a value whose every cell is at most `limit`, and rejects any other with `error`.
pub struct AtMost<E> {
    pub limit: u64,
    pub error: E,
}

impl<E> Finish<E> for AtMost<E> {
    open spec fn apply(&self, vals: Seq<u64>) -> Result<Seq<u64>, E> {
        if forall|k: int| 0 <= k < vals.len() ==> vals[k] <= self.limit {
            Ok(vals)
        } else {
            Err(self.error)
        }
    }

    proof fn lemma_keeps_len(&self, vals: Seq<u64>) {
    }

    fn finish(self, vals: &mut Vec<u64>) -> (r: Result<(), E>) {
        let mut i: usize = 0;
        while i < vals.len()
            invariant
                i <= vals@.len(),
                forall|k: int| 0 <= k < i ==> vals@[k] <= self.limit,
            decreases vals@.len() - i,
        {
            if vals[i] > self.limit {
                return Err(self.error);
            }
            i = i + 1;
        }
        Ok(())
    }
}

/// Builds with `this`, then runs `step` on the finished value; when `step` rejects
/// it, the value is destroyed before the rejection is reported.
pub struct Chain<I, F> {
    pub this: I,
    pub step: F,
}

/// Chains a step onto a movable initializer.
pub fn chain<E, I: Init<E>, F: Finish<E>>(this: I, step: F) -> (r: Chain<I, F>)
    ensures
        r.this == this,
        r.step == step,
{
    Chain { this, step }
}

/// Chains a step onto an address-stable initializer.
pub fn pin_chain<E, I: PinInit<E>, F: Finish<E>>(this: I, step: F) -> (r: Chain<I, F>)
    ensures
        r.this == this,
        r.step == step,
{
    Chain { this, step }
}

/// The outcome of building with `this` and then running `step`.
pub open spec fn chain_outcome<E, I: PinInit<E>, F: Finish<E>>(this: I, step: F) -> Result<Seq<u64>, E> {
    match this.outcome() {
        Ok(v) => step.apply(v),
        Err(e) => Err(e),
    }
}

/// The events of building with `this` at `addr` and then running `step`: those of
/// `this`, followed, when `step` rejects the value, by one destructor call per cell.
pub open spec fn chain_trace<E, I: PinInit<E>, F: Finish<E>>(this: I, step: F, addr: int) -> Seq<Event> {
    match this.outcome() {
        Ok(v) => match step.apply(v) {
            Ok(_) => this.trace(addr),
            Err(_) => this.trace(addr) + drops(addr, v),
        },
        Err(_) => this.trace(addr),
    }
}

impl<I, F> Chain<I, F> {
    /// Finishes a chained construction once `this` has reported `r0`.
    fn settle<E>(
        step: F,
        slot: &mut Slot,
        at: usize,
        n: usize,
        r0: Result<(), E>,
        Ghost(before): Ghost<SlotView>,
        Ghost(this): Ghost<I>,
    ) -> (r: Result<(), E>)
        where I: PinInit<E>, F: Finish<E>,
        requires
            old(slot).wf(),
            fits(before, at as int, n as nat),
            n == this.width(),
            ran(before, old(slot)@, at as int, n as nat, this.outcome(), this.trace(before.base + at), r0),
        ensures
            final(slot).wf(),
            ran(
                before,
                final(slot)@,
                at as int,
                n as nat,
                chain_outcome(this, step),
                chain_trace(this, step, before.base + at),
                r,
            ),
    {
        match r0 {
            Err(e) => {
                return Err(e);
            },
            Ok(()) => {},
        }
        let ghost built = this.outcome()->Ok_0;
        let ghost mid = slot@;
        let r = Self::run_then(step, slot, at, n, Ghost(built));
        proof {
            let a = before.base + at;
            assert forall|k: int| before.log.len() <= k < slot@.log.len() implies a <= #[trigger] slot@.log[k].addr() < a + n by {
                if k >= mid.log.len() {
                    let d = k - mid.log.len();
                    assert(slot@.log[k] == drops(a, built)[d]);
                }
            }
            if step.apply(built) is Ok {
                assert(slot@.log =~= before.log + chain_trace(this, step, a));
            } else {
                assert(slot@.log =~= before.log + chain_trace(this, step, a));
            }
        }
        r
    }

    /// Runs `step` on the value that `this` has just built in cells `at..at + n`.
    fn run_then<E>(step: F, slot: &mut Slot, at: usize, n: usize, Ghost(built): Ghost<Seq<u64>>) -> (r: Result<(), E>)
        where F: Finish<E>,
        requires
            old(slot).wf(),
            at + n <= old(slot)@.len(),
            built.len() == n,
            old(slot)@.holds(at as int, built),
        ensures
            final(slot).wf(),
            final(slot)@.same_outside(old(slot)@, at as int, at + n),
            reports(r, step.apply(built)),
            match step.apply(built) {
                Ok(v) => v.len() == n && final(slot)@.holds(at as int, v) && final(slot)@.log == old(slot)@.log,
                Err(_) => final(slot)@.vacant(at as int, at + n)
                    && final(slot)@.log == old(slot)@.log + drops(old(slot)@.base + at, built),
            },
    {
        let ghost before = slot@;
        let mut vals: Vec<u64> = Vec::new();
        let mut i: usize = 0;
        while i < n
            invariant
                i <= n,
                slot.wf(),
                at + n <= slot@.len(),
                slot@ == before,
                built.len() == n,
                before.holds(at as int, built),
                vals@ == built.take(i as int),
            decreases n - i,
        {
            assert(slot@.cells[at + i] == Some(built[i as int]));
            vals.push(slot.get(at + i).unwrap());
            assert(vals@ =~= built.take(i + 1));
            i = i + 1;
        }
        assert(vals@ =~= built);
        match step.finish(&mut vals) {
            Ok(()) => {
                let mut j: usize = 0;
                while j < n
                    invariant
                        j <= n,
                        vals@.len() == n,
                        built.len() == n,
                        before.holds(at as int, built),
                        slot.wf(),
                        at + n <= slot@.len(),
                        slot@.same_outside(before, at as int, at + n),
                        slot@.log == before.log,
                        forall|k: int| j <= k < n ==> #[trigger] slot@.cells[at + k] is Some,
                        forall|k: int| 0 <= k < j ==> #[trigger] slot@.cells[at + k] == Some(vals@[k]),
                    decreases n - j,
                {
                    assert(before.cells[at + j] == Some(built[j as int]));
                    slot.set(at + j, vals[j]);
                    j = j + 1;
                }
                assert(slot@.holds(at as int, vals@));
                Ok(())
            },
            Err(e) => {
                let mut j: usize = 0;
                while j < n
                    invariant
                        j <= n,
                        built.len() == n,
                        slot.wf(),
                        at + n <= slot@.len(),
                        slot@.same_outside(before, at as int, at + n),
                        slot@.log == before.log + drops(before.base + at, built.take(j as int)),
                        forall|k: int| j <= k < n ==> #[trigger] slot@.cells[at + k] == Some(built[k]),
                        forall|k: int| 0 <= k < j ==> #[trigger] slot@.cells[at + k] is None,
                    decreases n - j,
                {
                    let ghost mid = slot@;
                    assert(mid.cells[at + j] == Some(built[j as int]));
                    slot.drop_cell(at + j);
                    assert(slot@.log == mid.log.push(Event::Drop { addr: (before.base + at + j) as usize, value: built[j as int] }));
                    assert(drops(before.base + at, built.take(j + 1)) =~= drops(before.base + at, built.take(j as int)).push(
                        Event::Drop { addr: (before.base + at + j) as usize, value: built[j as int] },
                    ));
                    assert(slot@.log =~= before.log + drops(before.base + at, built.take(j + 1)));
                    j = j + 1;
                }
                assert(built.take(n as int) =~= built);
                assert forall|c: int| at <= c < at + n implies #[trigger] slot@.cells[c] is None by {
                    assert(slot@.cells[at + (c - at)] is None);
                }
                Err(e)
            },
        }
    }
}

impl<E, I: PinInit<E>, F: Finish<E>> PinInit<E> for Chain<I, F> {
    open spec fn width(&self) -> nat {
        self.this.width()
    }

    open spec fn valid(&self) -> bool {
        self.this.valid()
    }

    open spec fn outcome(&self) -> Result<Seq<u64>, E> {
        chain_outcome(self.this, self.step)
    }

    open spec fn trace(&self, addr: int) -> Seq<Event> {
        chain_trace(self.this, self.step, addr)
    }

    proof fn lemma_outcome_width(&self) {
        self.this.lemma_outcome_width();
        if self.this.outcome() is Ok {
            self.step.lemma_keeps_len(self.this.outcome()->Ok_0);
        }
    }

    proof fn lemma_success_no_drops(&self, addr: int) {
        self.this.lemma_success_no_drops(addr);
    }

    fn len(&self) -> (r: usize) {
        self.this.len()
    }

    fn pinned_init(self, slot: &mut Slot, at: usize) -> (r: Result<(), E>) {
        let ghost before = slot@;
        let Chain { this, step } = self;
        let ghost first = this;
        let n = this.len();
        let r0 = this.pinned_init(slot, at);
        Self::settle(step, slot, at, n, r0, Ghost(before), Ghost(first))
    }
}

impl<E, I: Init<E>, F: Finish<E>> Init<E> for Chain<I, F> {
    fn init(self, slot: &mut Slot, at: usize) -> (r: Result<(), E>) {
        let ghost before = slot@;
        let Chain { this, step } = self;
        let ghost first = this;
        let n = this.len();
        let r0 = this.init(slot, at);
        Self::settle(step, slot, at, n, r0, Ghost(before), Ghost(first))
    }
}

} // verus!
