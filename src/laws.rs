//! Properties that hold of every run of the construction protocol.
use vstd::prelude::*;

use crate::array::{array_outcome, array_trace, built_upto, elem_values, first_failure as elem_first_failure, MakeInit};
use crate::chain::{chain_outcome, chain_trace, Finish};
use crate::fields::{
    cell_after, covers, disjoint_fields, first_failure, in_field, lemma_first_failure, lemma_listed,
    lemma_unlisted, listed, step_outcome, step_trace, steps_trace, undo, values_of, zero_events, Field,
    FieldStep, PinFields,
};
use crate::init::PinInit;
use crate::slot::{drops, events_within, no_drops, Event};

verus! {

/// Every step of `steps` writes a finished value.
pub open spec fn all_direct<I>(steps: Seq<Field<I>>) -> bool {
    forall|j: int| 0 <= j < steps.len() ==> (#[trigger] steps[j].step) is Direct
}

proof fn lemma_direct_trace<E, I: PinInit<E>>(steps: Seq<Field<I>>, j: int, addr: int)
    requires
        0 <= j <= steps.len(),
        all_direct(steps),
    ensures
        steps_trace::<E, I>(steps, j, addr) == Seq::new(
            j as nat,
            |i: int| Event::Write { addr: (addr + steps[i].offset) as usize, value: steps[i].step->Direct_0 },
        ),
    decreases j,
{
    if j > 0 {
        lemma_direct_trace::<E, I>(steps, j - 1, addr);
        assert(steps[j - 1].step is Direct);
    }
    assert(steps_trace::<E, I>(steps, j, addr) =~= Seq::new(
        j as nat,
        |i: int| Event::Write { addr: (addr + steps[i].offset) as usize, value: steps[i].step->Direct_0 },
    ));
}

/// Cell `c` lies in the field of one of steps `lo..hi`.
pub open spec fn on_fields<I>(steps: Seq<Field<I>>, lo: int, hi: int, c: int) -> bool {
    exists|i: int| lo <= i < hi && #[trigger] in_field(steps[i], c)
}

/// Every destructor call of undoing steps `lo..hi` falls on a cell of one of
/// those steps' fields.
proof fn lemma_undo_on_fields<E, I: PinInit<E>>(steps: Seq<Field<I>>, lo: int, hi: int, addr: int)
    requires
        0 <= lo <= hi <= steps.len(),
        0 <= addr,
        forall|j: int| 0 <= j < steps.len() ==> addr + #[trigger] steps[j].offset + steps[j].width <= usize::MAX,
        forall|j: int| lo <= j < hi ==> (#[trigger] values_of::<E, I>(steps, j)).len() == steps[j].width,
    ensures
        forall|m: int|
            0 <= m < undo::<E, I>(steps, lo, hi, addr).len() ==> on_fields(
                steps,
                lo,
                hi,
                #[trigger] undo::<E, I>(steps, lo, hi, addr)[m].addr() - addr,
            ),
    decreases hi - lo,
{
    if lo < hi {
        lemma_undo_on_fields::<E, I>(steps, lo + 1, hi, addr);
        let rest = undo::<E, I>(steps, lo + 1, hi, addr);
        let d = drops(addr + steps[lo].offset, values_of::<E, I>(steps, lo));
        let u = undo::<E, I>(steps, lo, hi, addr);
        assert(u == rest + d);
        assert forall|m: int| 0 <= m < u.len() implies on_fields(steps, lo, hi, #[trigger] u[m].addr() - addr) by {
            if m >= rest.len() {
                assert(u[m] == d[m - rest.len()]);
                assert(in_field(steps[lo], u[m].addr() - addr));
            } else {
                assert(u[m] == rest[m]);
                assert(on_fields(steps, lo + 1, hi, rest[m].addr() - addr));
                let i = choose|i: int| lo + 1 <= i < hi && #[trigger] in_field(steps[i], rest[m].addr() - addr);
                assert(in_field(steps[i], u[m].addr() - addr));
            }
        }
    }
}

/// After a successful run of the field protocol, every listed step ran exactly
/// once, in the listed order, after the zero fill if one was asked for, and
/// nothing else happened; no two listed fields share a cell, and without zero
/// fill every cell belongs to a listed field. When every step writes a finished
/// value, the run is exactly one write per listed field, in order.
pub proof fn fields_build_each_field_once_in_order<E, I: PinInit<E>>(f: PinFields<I>, addr: int)
    requires
        PinInit::<E>::valid(&f),
        PinInit::<E>::outcome(&f) is Ok,
    ensures
        PinInit::<E>::trace(&f, addr) == zero_events(f.layout.size as int, addr, f.zero_fill) + steps_trace::<E, I>(
            f.steps@,
            f.steps@.len() as int,
            addr,
        ),
        disjoint_fields(f.steps@, f.layout.size as int),
        !f.zero_fill ==> covers(f.steps@, f.layout.size as int),
        all_direct(f.steps@) ==> steps_trace::<E, I>(f.steps@, f.steps@.len() as int, addr) == Seq::new(
            f.steps@.len(),
            |i: int| Event::Write { addr: (addr + f.steps@[i].offset) as usize, value: f.steps@[i].step->Direct_0 },
        ),
{
    if all_direct(f.steps@) {
        lemma_direct_trace::<E, I>(f.steps@, f.steps@.len() as int, addr);
    }
}

/// When step `k` of the field protocol is the first to fail, the run reports its
/// error, and after step `k` ran, the fields of steps `0..k` are destroyed latest
/// first, each field's cells in increasing order: every destructor call falls on a
/// cell of one of those fields, so step `k`'s own field and the fields of later
/// steps are never destroyed, and no later step runs.
pub proof fn fields_roll_back_in_reverse<E, I: PinInit<E>>(f: PinFields<I>, addr: int, k: int)
    requires
        PinInit::<E>::valid(&f),
        0 <= addr,
        addr + f.layout.size <= usize::MAX,
        0 <= k < f.steps@.len(),
        forall|i: int| 0 <= i < k ==> step_outcome::<E, I>(#[trigger] f.steps@[i].step) is Ok,
        step_outcome::<E, I>(f.steps@[k].step) is Err,
    ensures
        PinInit::<E>::outcome(&f) == Err::<Seq<u64>, E>(step_outcome::<E, I>(f.steps@[k].step)->Err_0),
        PinInit::<E>::trace(&f, addr) == zero_events(f.layout.size as int, addr, f.zero_fill) + steps_trace::<E, I>(
            f.steps@,
            k,
            addr,
        ) + step_trace::<E, I>(f.steps@[k].step, addr + f.steps@[k].offset) + undo::<E, I>(f.steps@, 0, k, addr),
        forall|i: int|
            0 <= i < k ==> #[trigger] undo::<E, I>(f.steps@, i, k, addr) == undo::<E, I>(f.steps@, i + 1, k, addr) + drops(
                addr + f.steps@[i].offset,
                values_of::<E, I>(f.steps@, i),
            ),
        forall|m: int, j: int|
            0 <= m < undo::<E, I>(f.steps@, 0, k, addr).len() && k <= j < f.steps@.len() ==> !in_field(
                #[trigger] f.steps@[j],
                #[trigger] undo::<E, I>(f.steps@, 0, k, addr)[m].addr() - addr,
            ),
{
    let steps = f.steps@;
    lemma_first_failure::<E, I>(steps, 0, k);
    assert forall|j: int| 0 <= j < steps.len() implies addr + #[trigger] steps[j].offset + steps[j].width <= usize::MAX by {
        assert(steps[j].offset + steps[j].width <= f.layout.size);
    }
    assert forall|i: int| 0 <= i < k implies (#[trigger] values_of::<E, I>(steps, i)).len() == steps[i].width by {
        crate::fields::lemma_step_width::<E, I>(steps[i].step, steps[i].width as nat);
    }
    lemma_undo_on_fields::<E, I>(steps, 0, k, addr);
    let u = undo::<E, I>(steps, 0, k, addr);
    assert forall|m: int, j: int| 0 <= m < u.len() && k <= j < steps.len() implies !in_field(#[trigger] steps[j], #[trigger] u[m].addr() - addr) by {
        assert(on_fields(steps, 0, k, u[m].addr() - addr));
        let i = choose|i: int| 0 <= i < k && #[trigger] in_field(steps[i], u[m].addr() - addr);
        assert(i < j);
    }
}

/// A successful run of the field protocol leaves no destructor call behind it:
/// every guard is discharged without running, no destructor runs at all, and
/// every cell of the value then holds a live value.
pub proof fn fields_success_leaves_nothing_pending<E, I: PinInit<E>>(f: PinFields<I>, addr: int)
    requires
        PinInit::<E>::valid(&f),
        PinInit::<E>::outcome(&f) is Ok,
    ensures
        no_drops(PinInit::<E>::trace(&f, addr)),
        forall|c: int|
            0 <= c < f.layout.size ==> #[trigger] cell_after::<E, I>(f.steps@, f.steps@.len() as int, c, f.zero_fill) is Some,
{
    PinInit::<E>::lemma_success_no_drops(&f, addr);
    if first_failure::<E, I>(f.steps@, 0) < f.steps@.len() {
        assert(false);
    }
    crate::fields::lemma_all_set::<E, I>(f.steps@, f.layout.size as int, f.zero_fill);
}

/// Zero fill followed by a sparse set of written fields gives the same value as
/// writing every field explicitly: the overridden ones with their values, all
/// others with zero.
pub proof fn zero_fill_matches_explicit<E, I: PinInit<E>>(z: PinFields<I>, e: PinFields<I>)
    requires
        PinInit::<E>::valid(&z),
        PinInit::<E>::valid(&e),
        z.zero_fill,
        !e.zero_fill,
        z.layout.size == e.layout.size,
        all_direct(z.steps@),
        all_direct(e.steps@),
        forall|j: int, j2: int|
            0 <= j < e.steps@.len() && 0 <= j2 < z.steps@.len() && #[trigger] e.steps@[j].offset
                == #[trigger] z.steps@[j2].offset ==> e.steps@[j].step == z.steps@[j2].step,
        forall|j: int|
            0 <= j < e.steps@.len() && !listed(z.steps@, #[trigger] e.steps@[j].offset as int) ==> e.steps@[j].step
                == FieldStep::<I>::Direct(0),
    ensures
        PinInit::<E>::outcome(&z) is Ok,
        PinInit::<E>::outcome(&z) == PinInit::<E>::outcome(&e),
{
    let zs = z.steps@;
    let es = e.steps@;
    let size = z.layout.size as int;
    assert forall|k: int| 0 <= k < zs.len() implies step_outcome::<E, I>(#[trigger] zs[k].step) is Ok by {
        assert(zs[k].step is Direct);
    }
    assert forall|k: int| 0 <= k < es.len() implies step_outcome::<E, I>(#[trigger] es[k].step) is Ok by {
        assert(es[k].step is Direct);
    }
    lemma_first_failure::<E, I>(zs, 0, zs.len() as int);
    lemma_first_failure::<E, I>(es, 0, es.len() as int);
    let zv = Seq::new(size as nat, |c: int| cell_after::<E, I>(zs, zs.len() as int, c, true)->Some_0);
    let ev = Seq::new(size as nat, |c: int| cell_after::<E, I>(es, es.len() as int, c, false)->Some_0);
    assert forall|c: int| 0 <= c < size implies zv[c] == ev[c] by {
        assert(listed(es, c));
        let j = choose|j: int| 0 <= j < es.len() && #[trigger] in_field(es[j], c);
        lemma_listed::<E, I>(es, es.len() as int, j, c, false);
        assert(es[j].step is Direct);
        assert(es[j].offset == c);
        if listed(zs, c) {
            let j2 = choose|j2: int| 0 <= j2 < zs.len() && #[trigger] in_field(zs[j2], c);
            lemma_listed::<E, I>(zs, zs.len() as int, j2, c, true);
            assert(zs[j2].step is Direct);
            assert(zs[j2].offset == c);
            assert(es[j].step == zs[j2].step);
        } else {
            lemma_unlisted::<E, I>(zs, zs.len() as int, c, true);
        }
    }
    assert(zv =~= ev);
}

/// When the first initializer of a chain succeeds and the step run after it
/// rejects the value, the chain reports the step's error, and the built value is
/// destroyed right after its construction: each of its cells exactly once.
pub proof fn chain_destroys_rejected_value<E, I: PinInit<E>, F: Finish<E>>(this: I, step: F, addr: int)
    requires
        this.outcome() is Ok,
        step.apply(this.outcome()->Ok_0) is Err,
    ensures
        chain_outcome(this, step) == Err::<Seq<u64>, E>(step.apply(this.outcome()->Ok_0)->Err_0),
        chain_trace(this, step, addr) == this.trace(addr) + drops(addr, this.outcome()->Ok_0),
        forall|k: int|
            0 <= k < this.outcome()->Ok_0.len() ==> #[trigger] drops(addr, this.outcome()->Ok_0)[k] == (Event::Drop {
                addr: (addr + k) as usize,
                value: this.outcome()->Ok_0[k],
            }),
{
}

/// When element `i` is the first of `n` array elements to fail, the array reports
/// its error; elements `0..i` are each destroyed exactly once, in increasing
/// index order, after element `i` ran; no element after `i` is built or
/// destroyed: every event falls on the cells of elements `0..i + 1`.
pub proof fn array_destroys_built_prefix<E, M: MakeInit<E>>(make: M, n: int, i: int, addr: int)
    requires
        0 <= addr,
        addr + n <= usize::MAX,
        0 <= i < n,
        forall|k: int| 0 <= k < i ==> (#[trigger] make.elem_outcome(k)) is Ok,
        make.elem_outcome(i) is Err,
    ensures
        array_outcome(make, n) == Err::<Seq<u64>, E>(make.elem_outcome(i)->Err_0),
        array_trace(make, n, addr) == built_upto(make, i, addr) + make.elem_trace(i, addr + i) + drops(
            addr,
            elem_values(make, i),
        ),
        drops(addr, elem_values(make, i)).len() == i,
        forall|k: int| 0 <= k < i ==> #[trigger] drops(addr, elem_values(make, i))[k] == (Event::Drop {
            addr: (addr + k) as usize,
            value: make.elem_outcome(k)->Ok_0[0],
        }),
        events_within(array_trace(make, n, addr), 0, addr, addr + i + 1),
{
    crate::array::lemma_first_failure(make, n, 0, i);
    assert(elem_first_failure(make, n, 0) == i);
    crate::array::lemma_built_within(make, i, addr);
    make.lemma_elem_trace_within(i, addr + i);
    let b = built_upto(make, i, addr);
    let m = make.elem_trace(i, addr + i);
    let d = drops(addr, elem_values(make, i));
    assert forall|k: int| 0 <= k < (b + m + d).len() implies addr <= #[trigger] (b + m + d)[k].addr() < addr + i + 1 by {
        if k < b.len() {
            assert((b + m + d)[k] == b[k]);
        } else if k < b.len() + m.len() {
            assert((b + m + d)[k] == m[k - b.len()]);
        } else {
            assert((b + m + d)[k] == d[k - b.len() - m.len()]);
        }
    }
}

} // verus!
