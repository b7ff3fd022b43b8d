//! Building contiguous elements from their indices, destroying the built prefix
//! when one fails.
use vstd::prelude::*;

use crate::init::{fits, ran, reports, Init, InitClosure, PinInit};
use crate::slot::{drops, events_within, lemma_no_drops_concat, no_drops, Event, Slot};

verus! {

/// Makes, from an index, the initializer of one single-cell array element.
pub trait MakeInit<E> {
    type Elem: PinInit<E>;

    /// The indices below `count` are those for which an element initializer can be made.
    spec fn count(&self) -> nat;

    /// The outcome of the initializer made for index `i`.
    spec fn elem_outcome(&self, i: int) -> Result<Seq<u64>, E>;

    /// The events of the initializer made for index `i`, run at `addr`.
    spec fn elem_trace(&self, i: int, addr: int) -> Seq<Event>;

    /// The events of element `i` fall on its own cell.
    proof fn lemma_elem_trace_within(&self, i: int, addr: int)
        requires
            0 <= addr < usize::MAX,
        ensures
            events_within(self.elem_trace(i, addr), 0, addr, addr + 1),
    ;

    /// An element that is built with success runs no destructor.
    proof fn lemma_elem_success_no_drops(&self, i: int, addr: int)
        ensures
            self.elem_outcome(i) is Ok ==> no_drops(self.elem_trace(i, addr)),
    ;

    fn make_init(&self, i: usize) -> (r: Self::Elem)
        requires
            i < self.count(),
        ensures
            r.width() == 1,
            r.valid(),
            r.outcome() == self.elem_outcome(i as int),
            forall|addr: int| #[trigger] r.trace(addr) == self.elem_trace(i as int, addr),
    ;
}

/// Element initializers listed by index: entry `i` is the value of element `i`, or
/// the error its construction reports.
pub struct Table<E> {
    pub entries: Vec<Result<u64, E>>,
}

impl<E: Copy> MakeInit<E> for Table<E> {
    type Elem = InitClosure<E>;

    open spec fn count(&self) -> nat {
        self.entries@.len()
    }

    open spec fn elem_outcome(&self, i: int) -> Result<Seq<u64>, E> {
        match self.entries@[i] {
            Ok(v) => Ok(seq![v]),
            Err(e) => Err(e),
        }
    }

    open spec fn elem_trace(&self, i: int, addr: int) -> Seq<Event> {
        match self.entries@[i] {
            Ok(v) => seq![Event::Write { addr: addr as usize, value: v }],
            Err(_) => Seq::empty(),
        }
    }

    proof fn lemma_elem_trace_within(&self, i: int, addr: int) {
    }

    proof fn lemma_elem_success_no_drops(&self, i: int, addr: int) {
    }

    fn make_init(&self, i: usize) -> (r: InitClosure<E>) {
        match self.entries[i] {
            Ok(v) => {
                let r = InitClosure { values: vec![v], failure: None };
                assert(r.values@ =~= seq![v]);
                assert forall|addr: int| #[trigger] r.trace(addr) == self.elem_trace(i as int, addr) by {
                    assert(r.trace(addr) =~= self.elem_trace(i as int, addr));
                }
                r
            },
            Err(e) => InitClosure { values: vec![0u64], failure: Some(e) },
        }
    }
}

/// The first index from `s` on, below `n`, whose element fails; `n` when none does.
pub open spec fn first_failure<E, M: MakeInit<E>>(make: M, n: int, s: int) -> int
    decreases n - s,
{
    if s >= n {
        n
    } else if make.elem_outcome(s) is Err {
        s
    } else {
        first_failure(make, n, s + 1)
    }
}

/// The values of elements `0..j`.
pub open spec fn elem_values<E, M: MakeInit<E>>(make: M, j: int) -> Seq<u64> {
    Seq::new(j as nat, |k: int| make.elem_outcome(k)->Ok_0[0])
}

/// The events of building elements `0..j` one after the other from `addr` on.
pub open spec fn built_upto<E, M: MakeInit<E>>(make: M, j: int, addr: int) -> Seq<Event>
    decreases j,
{
    if j <= 0 {
        Seq::empty()
    } else {
        built_upto(make, j - 1, addr) + make.elem_trace(j - 1, addr + j - 1)
    }
}

/// The outcome of building `n` elements: the first failing element's error, or all values.
pub open spec fn array_outcome<E, M: MakeInit<E>>(make: M, n: int) -> Result<Seq<u64>, E> {
    let k = first_failure(make, n, 0);
    if k < n {
        Err(make.elem_outcome(k)->Err_0)
    } else {
        Ok(elem_values(make, n))
    }
}

/// The events of building `n` elements at `addr`: elements are built in increasing
/// index order; when element `k` fails, elements `0..k` are then destroyed in
/// increasing index order, and nothing happens to elements after `k`.
pub open spec fn array_trace<E, M: MakeInit<E>>(make: M, n: int, addr: int) -> Seq<Event> {
    let k = first_failure(make, n, 0);
    if k < n {
        built_upto(make, k, addr) + make.elem_trace(k, addr + k) + drops(addr, elem_values(make, k))
    } else {
        built_upto(make, n, addr)
    }
}

/// Building elements `0..j` at `addr` touches only their cells.
pub(crate) proof fn lemma_built_within<E, M: MakeInit<E>>(make: M, j: int, addr: int)
    requires
        0 <= j,
        0 <= addr,
        addr + j <= usize::MAX,
    ensures
        events_within(built_upto(make, j, addr), 0, addr, addr + j),
    decreases j,
{
    if j > 0 {
        lemma_built_within(make, j - 1, addr);
        make.lemma_elem_trace_within(j - 1, addr + j - 1);
        let prev = built_upto(make, j - 1, addr);
        let last = make.elem_trace(j - 1, addr + j - 1);
        assert forall|k: int| 0 <= k < (prev + last).len() implies addr <= #[trigger] (prev + last)[k].addr() < addr + j by {
            if k >= prev.len() {
                assert((prev + last)[k] == last[k - prev.len()]);
            } else {
                assert((prev + last)[k] == prev[k]);
            }
        }
    }
}

/// When no element from `s` on fails, each of them succeeds.
pub(crate) proof fn lemma_none_failed<E, M: MakeInit<E>>(make: M, n: int, s: int)
    requires
        0 <= s <= n,
        first_failure(make, n, s) >= n,
    ensures
        forall|k: int| s <= k < n ==> (#[trigger] make.elem_outcome(k)) is Ok,
    decreases n - s,
{
    if s < n {
        lemma_none_failed(make, n, s + 1);
    }
}

/// Building elements `0..j` that all succeed runs no destructor.
pub(crate) proof fn lemma_built_no_drops<E, M: MakeInit<E>>(make: M, j: int, addr: int)
    requires
        forall|k: int| 0 <= k < j ==> (#[trigger] make.elem_outcome(k)) is Ok,
    ensures
        no_drops(built_upto(make, j, addr)),
    decreases j,
{
    if j > 0 {
        lemma_built_no_drops(make, j - 1, addr);
        make.lemma_elem_success_no_drops(j - 1, addr + j - 1);
        lemma_no_drops_concat(built_upto(make, j - 1, addr), make.elem_trace(j - 1, addr + j - 1));
    }
}

pub(crate) proof fn lemma_first_failure<E, M: MakeInit<E>>(make: M, n: int, s: int, i: int)
    requires
        0 <= s <= i <= n,
        forall|k: int| s <= k < i ==> make.elem_outcome(k) is Ok,
        i == n || make.elem_outcome(i) is Err,
    ensures
        first_failure(make, n, s) == i,
    decreases i - s,
{
    if s < i {
        lemma_first_failure(make, n, s + 1, i);
    }
}

/// An initializer of `n` contiguous single-cell elements, each made from its index.
pub struct ArrayInit<M> {
    pub make: M,
    pub n: usize,
}

/// An initializer for `n` elements whose initializers `make` gives by index; the
/// finished array may be moved.
pub fn init_array_from_fn<E, M: MakeInit<E>>(make: M, n: usize) -> (r: ArrayInit<M>)
    where M::Elem: Init<E>,
    ensures
        r.make == make,
        r.n == n,
{
    ArrayInit { make, n }
}

/// An initializer for `n` elements whose initializers `make` gives by index; no
/// element moves after success.
pub fn pin_init_array_from_fn<E, M: MakeInit<E>>(make: M, n: usize) -> (r: ArrayInit<M>)
    ensures
        r.make == make,
        r.n == n,
{
    ArrayInit { make, n }
}

impl<M> ArrayInit<M> {
    fn build<E>(make: &M, n: usize, slot: &mut Slot, at: usize) -> (r: Result<(), E>)
        where M: MakeInit<E>,
        requires
            n <= make.count(),
            fits(old(slot)@, at as int, n as nat),
        ensures
            final(slot).wf(),
            ran(
                old(slot)@,
                final(slot)@,
                at as int,
                n as nat,
                array_outcome(*make, n as int),
                array_trace(*make, n as int, old(slot)@.base + at),
                r,
            ),
    {
        let ghost before = slot@;
        let ghost a = before.base + at;
        let mut i: usize = 0;
        while i < n
            invariant
                i <= n,
                before == old(slot)@,
                a == before.base + at,
                n <= make.count(),
                fits(before, at as int, n as nat),
                slot.wf(),
                slot@.same_outside(before, at as int, at + n),
                forall|k: int| 0 <= k < i ==> (#[trigger] make.elem_outcome(k) is Ok
                    && make.elem_outcome(k)->Ok_0.len() == 1),
                slot@.holds(at as int, elem_values(*make, i as int)),
                slot@.vacant(at + i, at + n),
                slot@.log == before.log + built_upto(*make, i as int, a),
                events_within(slot@.log, before.log.len() as int, a, a + n),
            decreases n - i,
        {
            let elem = make.make_init(i);
            let ghost mid = slot@;
            let ghost e0 = elem;
            match elem.pinned_init(slot, at + i) {
                Ok(()) => {
                    assert(slot@.holds(at as int, elem_values(*make, i + 1))) by {
                        assert forall|k: int| 0 <= k < i + 1 implies #[trigger] slot@.cells[at + k]
                            == Some(elem_values(*make, i + 1)[k]) by {
                            if k < i {
                                assert(mid.cells[at + k] == Some(elem_values(*make, i as int)[k]));
                            } else {
                                assert(slot@.cells[(at + i) + 0] == Some(e0.outcome()->Ok_0[0]));
                            }
                        }
                    }
                    assert(e0.trace(a + i) == make.elem_trace(i as int, a + i));
                    assert(slot@.log =~= before.log + built_upto(*make, i + 1, a));
                    assert forall|k: int| before.log.len() <= k < slot@.log.len() implies a <= #[trigger] slot@.log[k].addr() < a + n by {
                        if k < mid.log.len() {
                            assert(mid.log[k] == slot@.log[k]);
                        }
                    }
                },
                Err(e) => {
                    proof {
                        lemma_first_failure(*make, n as int, 0, i as int);
                    }
                    let ghost vals = elem_values(*make, i as int);
                    let ghost failed = slot@;
                    assert(e0.trace(a + i) == make.elem_trace(i as int, a + i));
                    let mut j: usize = 0;
                    while j < i
                        invariant
                            j <= i < n,
                            before == old(slot)@,
                            a == before.base + at,
                            vals == elem_values(*make, i as int),
                            first_failure(*make, n as int, 0) == i,
                            make.elem_outcome(i as int) == e0.outcome(),
                            e0.outcome() == Err::<Seq<u64>, E>(e),
                            failed.log == before.log + built_upto(*make, i as int, a) + make.elem_trace(i as int, a + i),
                            fits(before, at as int, n as nat),
                            slot.wf(),
                            slot@.same_outside(before, at as int, at + n),
                            vals.len() == i,
                            forall|k: int| j <= k < i ==> #[trigger] slot@.cells[at + k] == Some(vals[k]),
                            forall|k: int| 0 <= k < j ==> #[trigger] slot@.cells[at + k] is None,
                            slot@.vacant(at + i, at + n),
                            slot@.log == failed.log + drops(a, vals.take(j as int)),
                            events_within(failed.log, before.log.len() as int, a, a + n),
                        decreases i - j,
                    {
                        let ghost m2 = slot@;
                        assert(m2.cells[at + j] == Some(vals[j as int]));
                        slot.drop_cell(at + j);
                        assert(slot@.log == m2.log.push(Event::Drop { addr: (a + j) as usize, value: vals[j as int] }));
                        assert(drops(a, vals.take(j + 1)) =~= drops(a, vals.take(j as int)).push(
                            Event::Drop { addr: (a + j) as usize, value: vals[j as int] },
                        ));
                        assert(slot@.log =~= failed.log + drops(a, vals.take(j + 1)));
                        j = j + 1;
                    }
                    proof {
                        assert(vals.take(i as int) =~= vals);
                        assert(slot@.log =~= before.log + array_trace(*make, n as int, a));
                        assert forall|k: int| before.log.len() <= k < slot@.log.len() implies a <= #[trigger] slot@.log[k].addr() < a + n by {
                            if k >= failed.log.len() {
                                assert(slot@.log[k] == drops(a, vals)[k - failed.log.len()]);
                            }
                        }
                        assert forall|c: int| at <= c < at + n implies #[trigger] slot@.cells[c] is None by {
                            if c < at + i {
                                assert(slot@.cells[at + (c - at)] is None);
                            }
                        }
                    }
                    return Err(e);
                },
            }
            i = i + 1;
        }
        proof {
            lemma_first_failure(*make, n as int, 0, n as int);
        }
        Ok(())
    }
}

impl<E, M: MakeInit<E>> PinInit<E> for ArrayInit<M> {
    open spec fn width(&self) -> nat {
        self.n as nat
    }

    open spec fn valid(&self) -> bool {
        self.n <= self.make.count()
    }

    open spec fn outcome(&self) -> Result<Seq<u64>, E> {
        array_outcome(self.make, self.n as int)
    }

    open spec fn trace(&self, addr: int) -> Seq<Event> {
        array_trace(self.make, self.n as int, addr)
    }

    proof fn lemma_outcome_width(&self) {
    }

    proof fn lemma_success_no_drops(&self, addr: int) {
        if first_failure(self.make, self.n as int, 0) >= self.n {
            lemma_none_failed(self.make, self.n as int, 0);
            lemma_built_no_drops(self.make, self.n as int, addr);
        }
    }

    fn len(&self) -> (r: usize) {
        self.n
    }

    fn pinned_init(self, slot: &mut Slot, at: usize) -> (r: Result<(), E>) {
        Self::build(&self.make, self.n, slot, at)
    }
}

impl<E, M: MakeInit<E>> Init<E> for ArrayInit<M> where M::Elem: Init<E> {
    fn init(self, slot: &mut Slot, at: usize) -> (r: Result<(), E>) {
        Self::build(&self.make, self.n, slot, at)
    }
}

} // verus!
