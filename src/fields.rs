//! Building a value field by field, in the listed order, with optional zero fill
//! and ordered rollback.
use vstd::prelude::*;

use crate::init::{fits, reports, Init, PinInit};
use crate::ledger::{in_entry, unwind, values_in, GuardLedger};
use crate::slot::{drops, events_within, lemma_no_drops_concat, no_drops, Event, Slot, SlotView};

verus! {

/// What the construction of a value needs to know of its type: how many cells it
/// occupies, and whether all-zero bits are a valid value of it. Each field covers
/// a run of cells, given by its offset and width.
#[derive(PartialEq, Eq, Structural, Debug, Clone, Copy)]
pub struct Layout {
    pub size: usize,
    pub zero_valid: bool,
}

/// Why a list of field steps does not describe a value of its layout.
#[derive(PartialEq, Eq, Structural, Debug, Clone, Copy)]
pub enum LayoutError {
    /// The field at this offset would reach past the end of the value.
    UnknownField(usize),
    /// The field at this offset covers cells that an earlier listed field covers.
    Duplicate(usize),
    /// No listed field covers this cell, and nothing else gives it a value.
    Missing(usize),
    /// Zero fill was asked for a type whose all-zero bits are not a valid value.
    NotZeroValid,
}

/// How one field gets its value.
pub enum FieldStep<I> {
    /// A finished value is written into the field's single cell.
    Direct(u64),
    /// A nested initializer builds the field in place; its error is passed on unchanged.
    Delegated(I),
}

/// One listed field: where it starts, how many cells it covers, and how it is built.
pub struct Field<I> {
    pub offset: usize,
    pub width: usize,
    pub step: FieldStep<I>,
}

/// A value built field by field, in the listed order, optionally after filling
/// all of it with zero bits. When a step fails, the fields built before it are
/// destroyed, latest first, and the step's error is reported.
pub struct PinFields<I> {
    pub layout: Layout,
    pub zero_fill: bool,
    pub steps: Vec<Field<I>>,
    /// `seen[c]` tells whether a listed field covers cell `c`.
    pub seen: Vec<bool>,
}

/// The values a step gives its field's cells, or the error it reports.
pub open spec fn step_outcome<E, I: PinInit<E>>(s: FieldStep<I>) -> Result<Seq<u64>, E> {
    match s {
        FieldStep::Direct(v) => Ok(seq![v]),
        FieldStep::Delegated(i) => i.outcome(),
    }
}

/// The events of a step run on the field at `addr`.
pub open spec fn step_trace<E, I: PinInit<E>>(s: FieldStep<I>, addr: int) -> Seq<Event> {
    match s {
        FieldStep::Direct(v) => seq![Event::Write { addr: addr as usize, value: v }],
        FieldStep::Delegated(i) => i.trace(addr),
    }
}

/// A step fits a field of `width` cells: a direct write fills exactly one, a
/// nested initializer was put together correctly and fills exactly `width`.
pub open spec fn step_ready<E, I: PinInit<E>>(s: FieldStep<I>, width: nat) -> bool {
    match s {
        FieldStep::Direct(_) => width == 1,
        FieldStep::Delegated(i) => i.width() == width && i.valid(),
    }
}

/// The values step `j` gives its field.
pub open spec fn values_of<E, I: PinInit<E>>(steps: Seq<Field<I>>, j: int) -> Seq<u64> {
    step_outcome::<E, I>(steps[j].step)->Ok_0
}

/// Cell `c` lies in field `f`.
pub open spec fn in_field<I>(f: Field<I>, c: int) -> bool {
    f.offset <= c < f.offset + f.width
}

/// The first step from `s` on that fails; `steps.len()` when none does.
pub open spec fn first_failure<E, I: PinInit<E>>(steps: Seq<Field<I>>, s: int) -> int
    decreases steps.len() - s,
{
    if s >= steps.len() {
        steps.len() as int
    } else if step_outcome::<E, I>(steps[s].step) is Err {
        s
    } else {
        first_failure::<E, I>(steps, s + 1)
    }
}

/// What cell `c` holds once steps `0..j` have run.
pub open spec fn cell_after<E, I: PinInit<E>>(steps: Seq<Field<I>>, j: int, c: int, zero_fill: bool) -> Option<u64>
    decreases j,
{
    if j <= 0 {
        if zero_fill {
            Some(0u64)
        } else {
            None
        }
    } else if in_field(steps[j - 1], c) {
        Some(values_of::<E, I>(steps, j - 1)[c - steps[j - 1].offset])
    } else {
        cell_after::<E, I>(steps, j - 1, c, zero_fill)
    }
}

/// The zero fill of `size` cells at `addr`, when asked for.
pub open spec fn zero_events(size: int, addr: int, zero_fill: bool) -> Seq<Event> {
    if zero_fill {
        Seq::new(size as nat, |c: int| Event::Zero { addr: (addr + c) as usize })
    } else {
        Seq::empty()
    }
}

/// The events of steps `0..j`, each on its own field of the value at `addr`.
pub open spec fn steps_trace<E, I: PinInit<E>>(steps: Seq<Field<I>>, j: int, addr: int) -> Seq<Event>
    decreases j,
{
    if j <= 0 {
        Seq::empty()
    } else {
        steps_trace::<E, I>(steps, j - 1, addr) + step_trace::<E, I>(steps[j - 1].step, addr + steps[j - 1].offset)
    }
}

/// The destructor calls undoing steps `lo..hi`: the latest field first, and the
/// cells of each field in increasing order.
pub open spec fn undo<E, I: PinInit<E>>(steps: Seq<Field<I>>, lo: int, hi: int, addr: int) -> Seq<Event>
    decreases hi - lo,
{
    if lo >= hi {
        Seq::empty()
    } else {
        undo::<E, I>(steps, lo + 1, hi, addr) + drops(addr + steps[lo].offset, values_of::<E, I>(steps, lo))
    }
}

/// The outcome of the field protocol: the first failing step's error, or the value
/// whose every cell holds what its field's step gave it (zero for a cell no listed
/// field covers, after a zero fill).
pub open spec fn fields_outcome<E, I: PinInit<E>>(steps: Seq<Field<I>>, size: int, zero_fill: bool) -> Result<Seq<u64>, E> {
    let k = first_failure::<E, I>(steps, 0);
    if k < steps.len() {
        Err(step_outcome::<E, I>(steps[k].step)->Err_0)
    } else {
        Ok(Seq::new(size as nat, |c: int| cell_after::<E, I>(steps, steps.len() as int, c, zero_fill)->Some_0))
    }
}

/// The events of the field protocol at `addr`: the zero fill if asked, then the
/// steps in order up to the first failing one; after a failure, the destructors of
/// the fields built before it, latest first. Nothing happens to later fields.
pub open spec fn fields_trace<E, I: PinInit<E>>(steps: Seq<Field<I>>, size: int, zero_fill: bool, addr: int) -> Seq<Event> {
    let k = first_failure::<E, I>(steps, 0);
    if k < steps.len() {
        zero_events(size, addr, zero_fill) + steps_trace::<E, I>(steps, k, addr)
            + step_trace::<E, I>(steps[k].step, addr + steps[k].offset) + undo::<E, I>(steps, 0, k, addr)
    } else {
        zero_events(size, addr, zero_fill) + steps_trace::<E, I>(steps, steps.len() as int, addr)
    }
}

/// Every listed field lies inside the value, and no two listed fields share a cell.
pub open spec fn disjoint_fields<I>(steps: Seq<Field<I>>, size: int) -> bool {
    &&& forall|j: int| 0 <= j < steps.len() ==> #[trigger] steps[j].offset + steps[j].width <= size
    &&& forall|j1: int, j2: int, c: int|
        0 <= j1 < j2 < steps.len() && #[trigger] in_field(steps[j1], c) ==> !#[trigger] in_field(steps[j2], c)
}

/// Some listed field covers cell `c`.
pub open spec fn listed<I>(steps: Seq<Field<I>>, c: int) -> bool {
    exists|j: int| 0 <= j < steps.len() && #[trigger] in_field(steps[j], c)
}

/// Every cell is covered by a listed field.
pub open spec fn covers<I>(steps: Seq<Field<I>>, size: int) -> bool {
    forall|c: int| 0 <= c < size ==> #[trigger] listed(steps, c)
}

pub(crate) proof fn lemma_first_failure<E, I: PinInit<E>>(steps: Seq<Field<I>>, s: int, i: int)
    requires
        0 <= s <= i <= steps.len(),
        forall|k: int| s <= k < i ==> step_outcome::<E, I>(#[trigger] steps[k].step) is Ok,
        i == steps.len() || step_outcome::<E, I>(steps[i].step) is Err,
    ensures
        first_failure::<E, I>(steps, s) == i,
    decreases i - s,
{
    if s < i {
        lemma_first_failure::<E, I>(steps, s + 1, i);
    }
}

/// A cell that no field among steps `0..j` covers holds what it held before any step.
pub(crate) proof fn lemma_unlisted<E, I: PinInit<E>>(steps: Seq<Field<I>>, j: int, c: int, zero_fill: bool)
    requires
        0 <= j <= steps.len(),
        forall|i: int| 0 <= i < j ==> !#[trigger] in_field(steps[i], c),
    ensures
        cell_after::<E, I>(steps, j, c, zero_fill) == cell_after::<E, I>(steps, 0, c, zero_fill),
    decreases j,
{
    if j > 0 {
        lemma_unlisted::<E, I>(steps, j - 1, c, zero_fill);
    }
}

/// With disjoint fields, a cell of the field of step `i < j` holds what that step gave it.
pub(crate) proof fn lemma_listed<E, I: PinInit<E>>(steps: Seq<Field<I>>, j: int, i: int, c: int, zero_fill: bool)
    requires
        0 <= i < j <= steps.len(),
        in_field(steps[i], c),
        forall|j1: int, j2: int, c2: int|
            0 <= j1 < j2 < steps.len() && #[trigger] in_field(steps[j1], c2) ==> !#[trigger] in_field(steps[j2], c2),
    ensures
        cell_after::<E, I>(steps, j, c, zero_fill) == Some(values_of::<E, I>(steps, i)[c - steps[i].offset]),
    decreases j,
{
    if j - 1 > i {
        assert(!in_field(steps[j - 1], c));
        lemma_listed::<E, I>(steps, j - 1, i, c, zero_fill);
    }
}

/// A cell covered by a field among steps `0..j` holds a value.
pub(crate) proof fn lemma_covered<E, I: PinInit<E>>(steps: Seq<Field<I>>, j: int, i: int, c: int, zero_fill: bool)
    requires
        0 <= i < j <= steps.len(),
        in_field(steps[i], c),
    ensures
        cell_after::<E, I>(steps, j, c, zero_fill) is Some,
    decreases j,
{
    if j - 1 > i {
        lemma_covered::<E, I>(steps, j - 1, i, c, zero_fill);
    }
}

/// Once every step has run, every cell holds a value.
pub(crate) proof fn lemma_all_set<E, I: PinInit<E>>(steps: Seq<Field<I>>, size: int, zero_fill: bool)
    requires
        zero_fill || covers(steps, size),
    ensures
        forall|c: int| 0 <= c < size ==> #[trigger] cell_after::<E, I>(steps, steps.len() as int, c, zero_fill) is Some,
{
    assert forall|c: int| 0 <= c < size implies #[trigger] cell_after::<E, I>(steps, steps.len() as int, c, zero_fill) is Some by {
        if listed(steps, c) {
            let k = choose|k: int| 0 <= k < steps.len() && #[trigger] in_field(steps[k], c);
            lemma_covered::<E, I>(steps, steps.len() as int, k, c, zero_fill);
        } else {
            lemma_unlisted::<E, I>(steps, steps.len() as int, c, zero_fill);
        }
    }
}

/// When no step from `s` on fails, each of them succeeds.
pub(crate) proof fn lemma_none_failed<E, I: PinInit<E>>(steps: Seq<Field<I>>, s: int)
    requires
        0 <= s <= steps.len(),
        first_failure::<E, I>(steps, s) >= steps.len(),
    ensures
        forall|k: int| s <= k < steps.len() ==> step_outcome::<E, I>(#[trigger] steps[k].step) is Ok,
    decreases steps.len() - s,
{
    if s < steps.len() {
        lemma_none_failed::<E, I>(steps, s + 1);
    }
}

/// Steps `0..j` that all succeed run no destructor.
pub(crate) proof fn lemma_steps_no_drops<E, I: PinInit<E>>(steps: Seq<Field<I>>, j: int, addr: int)
    requires
        0 <= j <= steps.len(),
        forall|k: int| 0 <= k < j ==> step_outcome::<E, I>(#[trigger] steps[k].step) is Ok,
    ensures
        no_drops(steps_trace::<E, I>(steps, j, addr)),
    decreases j,
{
    if j > 0 {
        lemma_steps_no_drops::<E, I>(steps, j - 1, addr);
        let last = step_trace::<E, I>(steps[j - 1].step, addr + steps[j - 1].offset);
        match steps[j - 1].step {
            FieldStep::Direct(_) => {},
            FieldStep::Delegated(i) => {
                i.lemma_success_no_drops(addr + steps[j - 1].offset);
            },
        }
        assert(no_drops(last));
        lemma_no_drops_concat(steps_trace::<E, I>(steps, j - 1, addr), last);
    }
}

/// A step that succeeds gives its field exactly as many values as the field has cells.
pub(crate) proof fn lemma_step_width<E, I: PinInit<E>>(s: FieldStep<I>, width: nat)
    requires
        step_ready::<E, I>(s, width),
        step_outcome::<E, I>(s) is Ok,
    ensures
        step_outcome::<E, I>(s)->Ok_0.len() == width,
{
    match s {
        FieldStep::Direct(_) => {},
        FieldStep::Delegated(i) => {
            i.lemma_outcome_width();
        },
    }
}

/// Every event of undoing steps `lo..hi` touches a cell of the value at `addr`.
pub(crate) proof fn lemma_undo_within<E, I: PinInit<E>>(steps: Seq<Field<I>>, lo: int, hi: int, addr: int, size: int)
    requires
        0 <= lo <= hi <= steps.len(),
        0 <= addr,
        addr + size <= usize::MAX,
        forall|j: int| 0 <= j < steps.len() ==> #[trigger] steps[j].offset + steps[j].width <= size,
        forall|j: int| lo <= j < hi ==> (#[trigger] values_of::<E, I>(steps, j)).len() == steps[j].width,
    ensures
        events_within(undo::<E, I>(steps, lo, hi, addr), 0, addr, addr + size),
    decreases hi - lo,
{
    if lo < hi {
        lemma_undo_within::<E, I>(steps, lo + 1, hi, addr, size);
        let rest = undo::<E, I>(steps, lo + 1, hi, addr);
        let d = drops(addr + steps[lo].offset, values_of::<E, I>(steps, lo));
        assert(steps[lo].offset + steps[lo].width <= size);
        assert forall|k: int| 0 <= k < (rest + d).len() implies addr <= #[trigger] (rest + d)[k].addr() < addr + size by {
            if k >= rest.len() {
                assert((rest + d)[k] == d[k - rest.len()]);
            } else {
                assert((rest + d)[k] == rest[k]);
            }
        }
    }
}

impl<I> PinFields<I> {
    /// The listed fields lie inside the value and share no cell, `seen` records
    /// which cells they cover, and zero fill is only asked for where the layout
    /// allows it.
    pub open spec fn well_built(&self) -> bool {
        &&& self.seen@.len() == self.layout.size
        &&& disjoint_fields(self.steps@, self.layout.size as int)
        &&& forall|c: int| 0 <= c < self.layout.size ==> (#[trigger] self.seen@[c] <==> listed(self.steps@, c))
        &&& self.zero_fill ==> self.layout.zero_valid
    }

    fn unlisted(layout: Layout, zero_fill: bool) -> (r: PinFields<I>)
        requires
            zero_fill ==> layout.zero_valid,
        ensures
            r.well_built(),
            r.layout == layout,
            r.zero_fill == zero_fill,
            r.steps@.len() == 0,
    {
        let mut seen: Vec<bool> = Vec::new();
        let mut c: usize = 0;
        while c < layout.size
            invariant
                c <= layout.size,
                seen@.len() == c,
                forall|k: int| 0 <= k < c ==> !#[trigger] seen@[k],
            decreases layout.size - c,
        {
            seen.push(false);
            c = c + 1;
        }
        PinFields { layout, zero_fill, steps: Vec::new(), seen }
    }

    /// A value of `layout` with no field listed yet.
    pub fn new(layout: Layout) -> (r: PinFields<I>)
        ensures
            r.well_built(),
            r.layout == layout,
            !r.zero_fill,
            r.steps@.len() == 0,
    {
        Self::unlisted(layout, false)
    }

    /// A value of `layout` first filled with zero bits, with no field listed yet;
    /// refused when all-zero bits are not a valid value of the layout.
    pub fn zeroed(layout: Layout) -> (r: Result<PinFields<I>, LayoutError>)
        ensures
            match r {
                Ok(f) => {
                    &&& layout.zero_valid
                    &&& f.well_built()
                    &&& f.layout == layout
                    &&& f.zero_fill
                    &&& f.steps@.len() == 0
                },
                Err(e) => !layout.zero_valid && e == LayoutError::NotZeroValid,
            },
    {
        if !layout.zero_valid {
            return Err(LayoutError::NotZeroValid);
        }
        Ok(Self::unlisted(layout, true))
    }

    /// Whether a listed field covers some cell of `offset..offset + width`.
    pub open spec fn taken(&self, offset: int, width: int) -> bool {
        exists|c: int| offset <= c < offset + width && #[trigger] listed(self.steps@, c)
    }

    /// Lists next the field of `width` cells at `offset`, built by `step`.
    fn add(&mut self, offset: usize, width: usize, step: FieldStep<I>) -> (r: Result<(), LayoutError>)
        requires
            old(self).well_built(),
        ensures
            final(self).well_built(),
            final(self).layout == old(self).layout,
            final(self).zero_fill == old(self).zero_fill,
            offset + width > old(self).layout.size ==> r == Err::<(), LayoutError>(LayoutError::UnknownField(offset))
                && final(self).steps@ == old(self).steps@,
            offset + width <= old(self).layout.size && old(self).taken(offset as int, width as int) ==> r == Err::<
                (),
                LayoutError,
            >(LayoutError::Duplicate(offset)) && final(self).steps@ == old(self).steps@,
            offset + width <= old(self).layout.size && !old(self).taken(offset as int, width as int) ==> r is Ok
                && final(self).steps@ == old(self).steps@.push((Field { offset, width, step })),
    {
        if offset > self.layout.size || width > self.layout.size - offset {
            return Err(LayoutError::UnknownField(offset));
        }
        let mut t: usize = 0;
        while t < width
            invariant
                self.well_built(),
                offset + width <= self.layout.size,
                t <= width,
                forall|c: int| offset <= c < offset + t ==> !#[trigger] listed(self.steps@, c),
            decreases width - t,
        {
            if self.seen[offset + t] {
                assert(listed(self.steps@, offset + t));
                return Err(LayoutError::Duplicate(offset));
            }
            t = t + 1;
        }
        let ghost old_steps = self.steps@;
        let ghost old_seen = self.seen@;
        self.steps.push(Field { offset, width, step });
        let ghost n = old_steps.len() as int;
        let ghost new_steps = self.steps@;
        let ghost layout = self.layout;
        let ghost zero_fill = self.zero_fill;
        let mut u: usize = 0;
        while u < width
            invariant
                self.steps@ == new_steps,
                self.layout == layout,
                self.zero_fill == zero_fill,
                offset + width <= self.layout.size,
                u <= width,
                self.seen@.len() == self.layout.size,
                old_seen.len() == self.layout.size,
                forall|c: int| 0 <= c < self.layout.size ==> #[trigger] self.seen@[c] == (old_seen[c] || offset <= c < offset + u),
            decreases width - u,
        {
            self.seen.set(offset + u, true);
            u = u + 1;
        }
        assert forall|c: int| 0 <= c < self.layout.size implies (#[trigger] self.seen@[c] <==> listed(self.steps@, c)) by {
            if listed(old_steps, c) {
                let j = choose|j: int| 0 <= j < old_steps.len() && #[trigger] in_field(old_steps[j], c);
                assert(in_field(self.steps@[j], c));
            }
            if offset <= c < offset + width {
                assert(in_field(self.steps@[n], c));
            }
            if listed(self.steps@, c) {
                let j = choose|j: int| 0 <= j < self.steps@.len() && #[trigger] in_field(self.steps@[j], c);
                if j < n {
                    assert(in_field(old_steps[j], c));
                }
            }
        }
        assert forall|j1: int, j2: int, c: int|
            0 <= j1 < j2 < self.steps@.len() && #[trigger] in_field(self.steps@[j1], c) implies !#[trigger] in_field(
            self.steps@[j2],
            c,
        ) by {
            if j2 == n && in_field(self.steps@[j2], c) {
                assert(in_field(old_steps[j1], c));
                assert(listed(old_steps, c));
            }
        }
        assert forall|j: int| 0 <= j < self.steps@.len() implies #[trigger] self.steps@[j].offset + self.steps@[j].width
            <= self.layout.size by {
            if j < n {
                assert(old_steps[j] == self.steps@[j]);
            }
        }
        Ok(())
    }

    /// Lists next the single-cell field at `offset`, written with `value`. Refused
    /// when the field reaches past the value or shares a cell with a listed field.
    pub fn direct(&mut self, offset: usize, value: u64) -> (r: Result<(), LayoutError>)
        requires
            old(self).well_built(),
        ensures
            final(self).well_built(),
            final(self).layout == old(self).layout,
            final(self).zero_fill == old(self).zero_fill,
            offset + 1 > old(self).layout.size ==> r == Err::<(), LayoutError>(LayoutError::UnknownField(offset))
                && final(self).steps@ == old(self).steps@,
            offset + 1 <= old(self).layout.size && old(self).taken(offset as int, 1) ==> r == Err::<(), LayoutError>(
                LayoutError::Duplicate(offset),
            ) && final(self).steps@ == old(self).steps@,
            offset + 1 <= old(self).layout.size && !old(self).taken(offset as int, 1) ==> r is Ok
                && final(self).steps@ == old(self).steps@.push(
                (Field { offset, width: 1, step: FieldStep::Direct(value) }),
            ),
    {
        self.add(offset, 1, FieldStep::Direct(value))
    }

    /// Lists next the field at `offset`, built in place by `init` over as many
    /// cells as `init` fills. Refused when the field reaches past the value or
    /// shares a cell with a listed field.
    pub fn delegate<E>(&mut self, offset: usize, init: I) -> (r: Result<(), LayoutError>)
        where I: PinInit<E>,
        requires
            old(self).well_built(),
        ensures
            final(self).well_built(),
            final(self).layout == old(self).layout,
            final(self).zero_fill == old(self).zero_fill,
            offset + init.width() > old(self).layout.size ==> r == Err::<(), LayoutError>(
                LayoutError::UnknownField(offset),
            ) && final(self).steps@ == old(self).steps@,
            offset + init.width() <= old(self).layout.size && old(self).taken(offset as int, init.width() as int) ==> r
                == Err::<(), LayoutError>(LayoutError::Duplicate(offset)) && final(self).steps@ == old(self).steps@,
            offset + init.width() <= old(self).layout.size && !old(self).taken(offset as int, init.width() as int) ==> r is Ok
                && final(self).steps@ == old(self).steps@.push(
                (Field { offset, width: init.width() as usize, step: FieldStep::Delegated(init) }),
            ),
    {
        let width = init.len();
        self.add(offset, width, FieldStep::Delegated(init))
    }

    /// Checks that every cell gets a value: covered by a listed field, or zero
    /// filled. Otherwise reports the first cell that gets none.
    pub fn finish(self) -> (r: Result<PinFields<I>, LayoutError>)
        requires
            self.well_built(),
        ensures
            match r {
                Ok(f) => f == self && (self.zero_fill || covers(self.steps@, self.layout.size as int)),
                Err(e) => exists|c: int|
                    {
                        &&& 0 <= c < self.layout.size
                        &&& !self.zero_fill
                        &&& !listed(self.steps@, c)
                        &&& e == LayoutError::Missing(c as usize)
                        &&& forall|c2: int| 0 <= c2 < c ==> #[trigger] listed(self.steps@, c2)
                    },
            },
    {
        if self.zero_fill {
            return Ok(self);
        }
        let mut c: usize = 0;
        while c < self.layout.size
            invariant
                self.well_built(),
                !self.zero_fill,
                c <= self.layout.size,
                forall|k: int| 0 <= k < c ==> #[trigger] listed(self.steps@, k),
            decreases self.layout.size - c,
        {
            if !self.seen[c] {
                return Err(LayoutError::Missing(c));
            }
            c = c + 1;
        }
        Ok(self)
    }
}

/// Storage `at..at + width` lies inside a well-formed slot.
pub open spec fn fits_wide(slot: SlotView, at: int, width: nat) -> bool {
    &&& 0 <= slot.base
    &&& slot.base + slot.len() <= usize::MAX
    &&& 0 <= at
    &&& at + width <= slot.len()
}

/// Fills cells `at..at + size` with zero bits.
fn fill_zero(slot: &mut Slot, at: usize, size: usize)
    requires
        fits_wide(old(slot)@, at as int, size as nat),
    ensures
        final(slot).wf(),
        final(slot)@.same_outside(old(slot)@, at as int, at + size),
        forall|k: int| 0 <= k < size ==> #[trigger] final(slot)@.cells[at + k] == Some(0u64),
        final(slot)@.log == old(slot)@.log + zero_events(size as int, old(slot)@.base + at, true),
        events_within(final(slot)@.log, old(slot)@.log.len() as int, old(slot)@.base + at, old(slot)@.base + at + size),
{
    let ghost before = slot@;
    let ghost a = before.base + at;
    let mut c: usize = 0;
    while c < size
        invariant
            before == old(slot)@,
            a == before.base + at,
            c <= size,
            fits_wide(before, at as int, size as nat),
            slot.wf(),
            slot@.same_outside(before, at as int, at + size),
            forall|k: int| 0 <= k < c ==> #[trigger] slot@.cells[at + k] == Some(0u64),
            slot@.log == before.log + Seq::new(c as nat, |k: int| Event::Zero { addr: (a + k) as usize }),
            events_within(slot@.log, before.log.len() as int, a, a + size),
        decreases size - c,
    {
        slot.zero(at + c);
        assert(slot@.log =~= before.log + Seq::new((c + 1) as nat, |k: int| Event::Zero { addr: (a + k) as usize }));
        c = c + 1;
    }
}

/// Runs one field step on the field of `width` cells at offset `offset`.
fn run_step<E, I: PinInit<E>>(step: FieldStep<I>, slot: &mut Slot, at: usize, offset: usize, width: usize, zero_fill: bool) -> (r: Result<(), E>)
    requires
        fits_wide(old(slot)@, at + offset, width as nat),
        step_ready::<E, I>(step, width as nat),
        zero_fill || old(slot)@.vacant(at + offset, at + offset + width),
    ensures
        final(slot).wf(),
        final(slot)@.same_outside(old(slot)@, at + offset, at + offset + width),
        final(slot)@.log == old(slot)@.log + step_trace::<E, I>(step, old(slot)@.base + at + offset),
        events_within(final(slot)@.log, old(slot)@.log.len() as int, old(slot)@.base + at + offset, old(slot)@.base + at + offset + width),
        match step_outcome::<E, I>(step) {
            Ok(vals) => r is Ok && vals.len() == width && final(slot)@.holds(at + offset, vals),
            Err(e) => r == Err::<(), E>(e) && final(slot)@.vacant(at + offset, at + offset + width),
        },
{
    let ghost before = slot@;
    match step {
        FieldStep::Direct(v) => {
            slot.write(at + offset, v);
            assert(slot@.log =~= before.log + step_trace::<E, I>(FieldStep::Direct(v), before.base + at + offset));
            assert(slot@.log[before.log.len() as int].addr() == before.base + at + offset);
            assert(slot@.holds(at + offset, seq![v]));
            Ok(())
        },
        FieldStep::Delegated(init) => {
            if zero_fill {
                let mut t: usize = 0;
                while t < width
                    invariant
                        t <= width,
                        fits_wide(before, at + offset, width as nat),
                        slot.wf(),
                        slot@.same_outside(before, at + offset, at + offset + width),
                        slot@.log == before.log,
                        forall|k: int| 0 <= k < t ==> #[trigger] slot@.cells[at + offset + k] is None,
                    decreases width - t,
                {
                    slot.forget(at + offset + t);
                    t = t + 1;
                }
                assert forall|c: int| at + offset <= c < at + offset + width implies #[trigger] slot@.cells[c] is None by {
                    assert(slot@.cells[at + offset + (c - at - offset)] is None);
                }
            }
            init.pinned_init(slot, at + offset)
        },
    }
}

/// After a step failed with steps `0..j` done: runs the destructors of the fields
/// the ledger records, latest first, and hands the whole value's storage back as
/// raw memory.
fn abandon<E, I: PinInit<E>>(
    ledger: GuardLedger,
    slot: &mut Slot,
    at: usize,
    size: usize,
    Ghost(all): Ghost<Seq<Field<I>>>,
    Ghost(j): Ghost<int>,
)
    requires
        fits_wide(old(slot)@, at as int, size as nat),
        0 <= j <= all.len(),
        disjoint_fields(all, size as int),
        ledger@ == Seq::new(j as nat, |k: int| (all[k].offset, all[k].width)),
        forall|k: int| 0 <= k < j ==> (#[trigger] values_of::<E, I>(all, k)).len() == all[k].width,
        forall|k: int, c: int|
            0 <= k < j && #[trigger] in_field(all[k], c) ==> #[trigger] old(slot)@.cells[at + c] == Some(
                values_of::<E, I>(all, k)[c - all[k].offset],
            ),
    ensures
        final(slot).wf(),
        final(slot)@.same_outside(old(slot)@, at as int, at + size),
        final(slot)@.vacant(at as int, at + size),
        final(slot)@.log == old(slot)@.log + undo::<E, I>(all, 0, j, old(slot)@.base + at),
        events_within(final(slot)@.log, old(slot)@.log.len() as int, old(slot)@.base + at, old(slot)@.base + at + size),
{
    let ghost before = slot@;
    let ghost a = before.base + at;
    let ghost entries = ledger@;
    assert forall|k: int| 0 <= k < entries.len() implies #[trigger] entries[k].0 + entries[k].1 <= size by {
        assert(all[k].offset + all[k].width <= size);
    }
    assert forall|k: int, c: int| 0 <= k < entries.len() && #[trigger] in_entry(entries[k], c) implies (
    #[trigger] before.cells[at + c]) is Some by {
        assert(in_field(all[k], c));
    }
    assert forall|k1: int, k2: int, c: int|
        0 <= k1 < k2 < entries.len() && #[trigger] in_entry(entries[k1], c) implies !#[trigger] in_entry(entries[k2], c) by {
        assert(in_field(all[k1], c));
        if in_entry(entries[k2], c) {
            assert(in_field(all[k2], c));
        }
    }
    ledger.rollback(slot, at, size);
    proof {
        lemma_unwind_undo::<E, I>(all, entries, 0, j, before.cells, before.base, at as int);
        lemma_undo_within::<E, I>(all, 0, j, a, size as int);
    }
    let ghost rolled = slot@;
    let mut c: usize = 0;
    while c < size
        invariant
            c <= size,
            fits_wide(before, at as int, size as nat),
            slot.wf(),
            slot@.same_outside(before, at as int, at + size),
            slot@.log == rolled.log,
            forall|k: int| 0 <= k < c ==> #[trigger] slot@.cells[at + k] is None,
        decreases size - c,
    {
        slot.forget(at + c);
        c = c + 1;
    }
    let ghost u = undo::<E, I>(all, 0, j, a);
    assert forall|k: int| before.log.len() <= k < slot@.log.len() implies a <= #[trigger] slot@.log[k].addr() < a + size by {
        assert(slot@.log[k] == u[k - before.log.len()]);
    }
    assert forall|c2: int| at <= c2 < at + size implies #[trigger] slot@.cells[c2] is None by {
        assert(slot@.cells[at + (c2 - at)] is None);
    }
}

/// The ledger's rollback of fields `lo..hi` is the protocol's undoing of them.
proof fn lemma_unwind_undo<E, I: PinInit<E>>(
    all: Seq<Field<I>>,
    entries: Seq<(usize, usize)>,
    lo: int,
    hi: int,
    cells: Seq<Option<u64>>,
    base: int,
    at: int,
)
    requires
        0 <= lo <= hi <= entries.len(),
        hi <= all.len(),
        entries == Seq::new(entries.len(), |k: int| (all[k].offset, all[k].width)),
        forall|k: int| lo <= k < hi ==> (#[trigger] values_of::<E, I>(all, k)).len() == all[k].width,
        forall|k: int, c: int|
            lo <= k < hi && #[trigger] in_field(all[k], c) ==> #[trigger] cells[at + c] == Some(
                values_of::<E, I>(all, k)[c - all[k].offset],
            ),
    ensures
        unwind(entries, lo, hi, cells, base, at) == undo::<E, I>(all, lo, hi, base + at),
    decreases hi - lo,
{
    if lo < hi {
        lemma_unwind_undo::<E, I>(all, entries, lo + 1, hi, cells, base, at);
        let vals = values_of::<E, I>(all, lo);
        assert forall|t: int| 0 <= t < vals.len() implies #[trigger] values_in(cells, at + entries[lo].0, entries[lo].1 as int)[t] == vals[t] by {
            assert(in_field(all[lo], all[lo].offset + t));
            assert(cells[at + (all[lo].offset + t)] == Some(vals[all[lo].offset + t - all[lo].offset]));
        }
        assert(values_in(cells, at + entries[lo].0, entries[lo].1 as int) =~= vals);
    }
}

impl<E, I: PinInit<E>> PinInit<E> for PinFields<I> {
    open spec fn width(&self) -> nat {
        self.layout.size as nat
    }

    open spec fn valid(&self) -> bool {
        &&& self.well_built()
        &&& self.zero_fill || covers(self.steps@, self.layout.size as int)
        &&& forall|j: int| 0 <= j < self.steps@.len() ==> step_ready::<E, I>(#[trigger] self.steps@[j].step, self.steps@[j].width as nat)
    }

    open spec fn outcome(&self) -> Result<Seq<u64>, E> {
        fields_outcome::<E, I>(self.steps@, self.layout.size as int, self.zero_fill)
    }

    open spec fn trace(&self, addr: int) -> Seq<Event> {
        fields_trace::<E, I>(self.steps@, self.layout.size as int, self.zero_fill, addr)
    }

    proof fn lemma_outcome_width(&self) {
    }

    proof fn lemma_success_no_drops(&self, addr: int) {
        let steps = self.steps@;
        if first_failure::<E, I>(steps, 0) >= steps.len() {
            lemma_none_failed::<E, I>(steps, 0);
            lemma_steps_no_drops::<E, I>(steps, steps.len() as int, addr);
            lemma_no_drops_concat(zero_events(self.layout.size as int, addr, self.zero_fill), steps_trace::<E, I>(steps, steps.len() as int, addr));
        }
    }

    fn len(&self) -> (r: usize) {
        self.layout.size
    }

    fn pinned_init(self, slot: &mut Slot, at: usize) -> (r: Result<(), E>) {
        let ghost before = slot@;
        let ghost a = before.base + at;
        let PinFields { layout, zero_fill, steps, seen: _ } = self;
        let ghost all = steps@;
        let size = layout.size;
        if zero_fill {
            fill_zero(slot, at, size);
        }
        assert(slot@.log =~= before.log + zero_events(size as int, a, zero_fill) + steps_trace::<E, I>(all, 0, a));
        let mut ledger = GuardLedger::new();
        let mut rest = steps;
        let n = rest.len();
        let mut j: usize = 0;
        while j < n
            invariant
                before == old(slot)@,
                a == before.base + at,
                all == self.steps@,
                size == self.layout.size,
                zero_fill == self.zero_fill,
                n == all.len(),
                j <= n,
                rest@ == all.skip(j as int),
                disjoint_fields(all, size as int),
                forall|k: int| 0 <= k < all.len() ==> step_ready::<E, I>(#[trigger] all[k].step, all[k].width as nat),
                fits_wide(before, at as int, size as nat),
                slot.wf(),
                slot@.same_outside(before, at as int, at + size),
                forall|c: int| 0 <= c < size ==> #[trigger] slot@.cells[at + c] == cell_after::<E, I>(all, j as int, c, zero_fill),
                forall|k: int| 0 <= k < j ==> step_outcome::<E, I>(#[trigger] all[k].step) is Ok,
                forall|k: int| 0 <= k < j ==> (#[trigger] values_of::<E, I>(all, k)).len() == all[k].width,
                ledger@ == Seq::new(j as nat, |k: int| (all[k].offset, all[k].width)),
                slot@.log == before.log + zero_events(size as int, a, zero_fill) + steps_trace::<E, I>(all, j as int, a),
                events_within(slot@.log, before.log.len() as int, a, a + size),
            decreases n - j,
        {
            let Field { offset, width, step } = rest.remove(0);
            assert(all[j as int].offset == offset && all[j as int].width == width && all[j as int].step == step);
            let ghost mid = slot@;
            proof {
                assert(offset + width <= size);
                if !zero_fill {
                    assert forall|c: int| at + offset <= c < at + offset + width implies #[trigger] mid.cells[c] is None by {
                        let c0 = c - at;
                        assert(in_field(all[j as int], c0));
                        assert forall|i: int| 0 <= i < j implies !#[trigger] in_field(all[i], c0) by {
                            if in_field(all[i], c0) {
                                assert(!in_field(all[j as int], c0));
                            }
                        }
                        lemma_unlisted::<E, I>(all, j as int, c0, zero_fill);
                        assert(mid.cells[at + c0] == cell_after::<E, I>(all, j as int, c0, zero_fill));
                    }
                }
            }
            match run_step(step, slot, at, offset, width, zero_fill) {
                Ok(()) => {},
                Err(e) => {
                    let ghost failed = slot@;
                    proof {
                        lemma_first_failure::<E, I>(all, 0, j as int);
                        assert forall|k: int, c: int| 0 <= k < j && #[trigger] in_field(all[k], c) implies #[trigger] failed.cells[at + c]
                            == Some(values_of::<E, I>(all, k)[c - all[k].offset]) by {
                            assert(!in_field(all[j as int], c));
                            lemma_listed::<E, I>(all, j as int, k, c, zero_fill);
                            assert(mid.cells[at + c] == cell_after::<E, I>(all, j as int, c, zero_fill));
                        }
                    }
                    abandon::<E, I>(ledger, slot, at, size, Ghost(all), Ghost(j as int));
                    proof {
                        assert(step_outcome::<E, I>(all[j as int].step) == Err::<Seq<u64>, E>(e));
                        assert(fields_outcome::<E, I>(all, size as int, zero_fill) == Err::<Seq<u64>, E>(e));
                        assert forall|c: int| 0 <= c < slot@.cells.len() && !(at <= c < at + size) implies #[trigger] slot@.cells[c]
                            == before.cells[c] by {
                            assert(failed.cells[c] == mid.cells[c]);
                        }
                        assert(slot@.log =~= before.log + fields_trace::<E, I>(all, size as int, zero_fill, a));
                        assert forall|k: int| before.log.len() <= k < slot@.log.len() implies a <= #[trigger] slot@.log[k].addr() < a + size by {
                            if k < failed.log.len() {
                                assert(failed.log[k] == slot@.log[k]);
                                if k < mid.log.len() {
                                    assert(mid.log[k] == slot@.log[k]);
                                }
                            }
                        }
                    }
                    return Err(e);
                },
            }
            ledger.push(offset, width);
            proof {
                let vals = values_of::<E, I>(all, j as int);
                assert forall|c: int| 0 <= c < size implies #[trigger] slot@.cells[at + c] == cell_after::<E, I>(all, j + 1, c, zero_fill) by {
                    if in_field(all[j as int], c) {
                        assert(slot@.cells[(at + offset) + (c - offset)] == Some(vals[c - offset]));
                    } else {
                        assert(mid.cells[at + c] == cell_after::<E, I>(all, j as int, c, zero_fill));
                    }
                }
                assert(ledger@ =~= Seq::new((j + 1) as nat, |k: int| (all[k].offset, all[k].width)));
                assert(rest@ =~= all.skip(j + 1));
                assert(slot@.log =~= before.log + zero_events(size as int, a, zero_fill) + steps_trace::<E, I>(all, j + 1, a));
                assert forall|k: int| before.log.len() <= k < slot@.log.len() implies a <= #[trigger] slot@.log[k].addr() < a + size by {
                    if k < mid.log.len() {
                        assert(mid.log[k] == slot@.log[k]);
                    }
                }
            }
            j = j + 1;
        }
        let _ = ledger.discharge();
        proof {
            lemma_first_failure::<E, I>(all, 0, n as int);
            lemma_all_set::<E, I>(all, size as int, zero_fill);
            let vals = Seq::new(size as nat, |c: int| cell_after::<E, I>(all, all.len() as int, c, zero_fill)->Some_0);
            assert(fields_outcome::<E, I>(all, size as int, zero_fill) == Ok::<Seq<u64>, E>(vals));
            assert(slot@.holds(at as int, vals));
            assert(slot@.log == before.log + fields_trace::<E, I>(all, size as int, zero_fill, a));
        }
        Ok(())
    }
}

/// Built field by field like the address-stable form; every nested initializer is movable too.
impl<E, I: Init<E>> Init<E> for PinFields<I> {
    fn init(self, slot: &mut Slot, at: usize) -> (r: Result<(), E>) {
        self.pinned_init(slot, at)
    }
}

} // verus!
