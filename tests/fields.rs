use pin_init::{
    init_array_from_fn, Table,
    init_from_closure, zeroed, Event, GuardLedger, InitClosure, Layout, LayoutError, PinFields,
    PinInit, Slot, Zeroable,
};

fn three_fields() -> Layout {
    Layout { size: 3, zero_valid: false }
}

#[test]
fn failing_middle_field_destroys_first_only() {
    let mut f: PinFields<InitClosure<i32>> = PinFields::new(three_fields());
    f.direct(0, 10).unwrap();
    f.delegate(1, init_from_closure(vec![20], Some(-22))).unwrap();
    f.direct(2, 30).unwrap();
    let f = f.finish().unwrap();
    let mut slot = Slot::new(0x1000, 3).unwrap();
    let r = f.pinned_init(&mut slot, 0);
    assert_eq!(r, Err(-22));
    assert_eq!(
        slot.log(),
        vec![
            Event::Write { addr: 0x1000, value: 10 },
            Event::Drop { addr: 0x1000, value: 10 },
        ]
    );
    assert_eq!(slot.contents(), vec![None, None, None]);
}

#[test]
fn zero_fill_with_override_matches_explicit_value() {
    let layout = Layout { size: 2, zero_valid: true };
    let mut z: PinFields<u64> = PinFields::zeroed(layout).unwrap();
    z.direct(1, 7).unwrap();
    let z = z.finish().unwrap();
    let mut zs = Slot::new(0x2000, 2).unwrap();
    let rz: Result<(), i32> = z.pinned_init(&mut zs, 0);
    assert_eq!(rz, Ok(()));
    assert_eq!(zs.contents(), vec![Some(0), Some(7)]);

    let mut e: PinFields<u64> = PinFields::new(layout);
    e.direct(0, 0).unwrap();
    e.direct(1, 7).unwrap();
    let e = e.finish().unwrap();
    let mut es = Slot::new(0x3000, 2).unwrap();
    let re: Result<(), i32> = e.pinned_init(&mut es, 0);
    assert_eq!(re, Ok(()));
    assert_eq!(es.contents(), zs.contents());
    // The zero fill comes first; only the overridden field gets a write.
    assert_eq!(
        zs.log(),
        vec![
            Event::Zero { addr: 0x2000 },
            Event::Zero { addr: 0x2001 },
            Event::Write { addr: 0x2001, value: 7 },
        ]
    );
}

#[test]
fn success_writes_each_field_once_in_listed_order() {
    let mut f: PinFields<u64> = PinFields::new(three_fields());
    f.direct(2, 5).unwrap();
    f.direct(0, 6).unwrap();
    f.direct(1, 7).unwrap();
    let f = f.finish().unwrap();
    let mut slot = Slot::new(100, 3).unwrap();
    let r: Result<(), i32> = f.pinned_init(&mut slot, 0);
    assert_eq!(r, Ok(()));
    assert_eq!(
        slot.log(),
        vec![
            Event::Write { addr: 102, value: 5 },
            Event::Write { addr: 100, value: 6 },
            Event::Write { addr: 101, value: 7 },
        ]
    );
    assert_eq!(slot.contents(), vec![Some(6), Some(7), Some(5)]);
}

#[test]
fn rollback_runs_in_reverse_order() {
    let layout = Layout { size: 5, zero_valid: false };
    let mut f: PinFields<InitClosure<i32>> = PinFields::new(layout);
    f.direct(0, 1).unwrap();
    f.delegate(1, init_from_closure(vec![2], None)).unwrap();
    f.direct(2, 3).unwrap();
    f.delegate(3, init_from_closure(vec![4], Some(-5))).unwrap();
    f.direct(4, 9).unwrap();
    let f = f.finish().unwrap();
    let mut slot = Slot::new(0, 5).unwrap();
    let r = f.pinned_init(&mut slot, 0);
    assert_eq!(r, Err(-5));
    assert_eq!(
        slot.log(),
        vec![
            Event::Write { addr: 0, value: 1 },
            Event::Write { addr: 1, value: 2 },
            Event::Write { addr: 2, value: 3 },
            Event::Drop { addr: 2, value: 3 },
            Event::Drop { addr: 1, value: 2 },
            Event::Drop { addr: 0, value: 1 },
        ]
    );
    assert_eq!(slot.contents(), vec![None; 5]);
}

#[test]
fn first_field_failing_destroys_nothing() {
    let mut f: PinFields<InitClosure<i32>> = PinFields::new(three_fields());
    f.delegate(0, init_from_closure(vec![1], Some(-1))).unwrap();
    f.direct(1, 2).unwrap();
    f.direct(2, 3).unwrap();
    let f = f.finish().unwrap();
    let mut slot = Slot::new(50, 3).unwrap();
    assert_eq!(f.pinned_init(&mut slot, 0), Err(-1));
    assert_eq!(slot.log(), Vec::<Event>::new());
}

#[test]
fn zero_fill_failure_releases_every_cell() {
    let layout = Layout { size: 3, zero_valid: true };
    let mut f: PinFields<InitClosure<i32>> = PinFields::zeroed(layout).unwrap();
    f.direct(0, 4).unwrap();
    f.delegate(2, init_from_closure(vec![8], Some(-3))).unwrap();
    let f = f.finish().unwrap();
    let mut slot = Slot::new(10, 3).unwrap();
    assert_eq!(f.pinned_init(&mut slot, 0), Err(-3));
    assert_eq!(
        slot.log(),
        vec![
            Event::Zero { addr: 10 },
            Event::Zero { addr: 11 },
            Event::Zero { addr: 12 },
            Event::Write { addr: 10, value: 4 },
            Event::Drop { addr: 10, value: 4 },
        ]
    );
    assert_eq!(slot.contents(), vec![None, None, None]);
}

#[test]
fn delegated_fields_write_their_values() {
    let mut f: PinFields<InitClosure<i32>> = PinFields::new(three_fields());
    f.delegate(0, init_from_closure(vec![11], None)).unwrap();
    f.direct(1, 12).unwrap();
    f.delegate(2, init_from_closure(vec![13], None)).unwrap();
    let f = f.finish().unwrap();
    let mut slot = Slot::new(0, 3).unwrap();
    assert_eq!(f.pinned_init(&mut slot, 0), Ok(()));
    assert_eq!(slot.contents(), vec![Some(11), Some(12), Some(13)]);
}

#[test]
fn builder_refuses_unknown_field() {
    let mut f: PinFields<u64> = PinFields::new(three_fields());
    assert_eq!(f.direct(3, 1), Err(LayoutError::UnknownField(3)));
}

#[test]
fn builder_refuses_duplicate_field() {
    let mut f: PinFields<u64> = PinFields::new(three_fields());
    f.direct(1, 1).unwrap();
    assert_eq!(f.direct(1, 2), Err(LayoutError::Duplicate(1)));
    assert_eq!(f.delegate::<i32>(1, 3), Err(LayoutError::Duplicate(1)));
}

#[test]
fn finish_reports_first_missing_field() {
    let mut f: PinFields<u64> = PinFields::new(three_fields());
    f.direct(0, 1).unwrap();
    f.direct(2, 1).unwrap();
    assert!(matches!(f.finish(), Err(LayoutError::Missing(1))));
}

#[test]
fn zero_fill_needs_zero_valid_layout() {
    assert!(matches!(
        PinFields::<u64>::zeroed(three_fields()),
        Err(LayoutError::NotZeroValid)
    ));
    assert!(matches!(zeroed::<u64>(three_fields()), Err(LayoutError::NotZeroValid)));
}

#[test]
fn zeroed_initializer_only_fills_zero() {
    let layout = Layout { size: 2, zero_valid: true };
    let f = zeroed::<u64>(layout).unwrap().finish().unwrap();
    let mut slot = Slot::new(40, 2).unwrap();
    let r: Result<(), i32> = f.pinned_init(&mut slot, 0);
    assert_eq!(r, Ok(()));
    assert_eq!(slot.contents(), vec![Some(0), Some(0)]);
    assert_eq!(slot.log(), vec![Event::Zero { addr: 40 }, Event::Zero { addr: 41 }]);
}

#[test]
fn zero_values_of_primitive_types() {
    assert_eq!(<u64 as Zeroable>::zeroed(), 0);
    assert_eq!(<u32 as Zeroable>::zeroed(), 0);
    assert_eq!(<i64 as Zeroable>::zeroed(), 0);
    assert!(!<bool as Zeroable>::zeroed());
    assert_eq!(<Option<u8> as Zeroable>::zeroed(), None);
}

#[test]
fn ledger_rolls_back_latest_first() {
    let mut slot = Slot::new(200, 3).unwrap();
    slot.write(0, 1);
    slot.write(2, 3);
    let mut ledger = GuardLedger::new();
    ledger.push(0, 1);
    ledger.push(2, 1);
    assert_eq!(ledger.pending(), 2);
    ledger.rollback(&mut slot, 0, 3);
    assert_eq!(
        slot.log(),
        vec![
            Event::Write { addr: 200, value: 1 },
            Event::Write { addr: 202, value: 3 },
            Event::Drop { addr: 202, value: 3 },
            Event::Drop { addr: 200, value: 1 },
        ]
    );
}

#[test]
fn ledger_discharge_runs_nothing() {
    let mut ledger = GuardLedger::new();
    ledger.push(4, 2);
    ledger.push(1, 1);
    assert_eq!(ledger.discharge(), 2);
}

#[test]
fn protocol_builds_at_an_offset_of_the_slot() {
    let layout = Layout { size: 2, zero_valid: false };
    let mut f: PinFields<u64> = PinFields::new(layout);
    f.direct(0, 1).unwrap();
    f.direct(1, 2).unwrap();
    let f = f.finish().unwrap();
    let mut slot = Slot::new(0, 4).unwrap();
    let r: Result<(), i32> = f.pinned_init(&mut slot, 2);
    assert_eq!(r, Ok(()));
    assert_eq!(slot.contents(), vec![None, None, Some(1), Some(2)]);
}

#[test]
fn field_can_hold_its_sibling_address() {
    let layout = Layout { size: 2, zero_valid: false };
    let mut slot = Slot::new(0x800, 2).unwrap();
    let buf_addr = slot.addr_of(1);
    let mut f: PinFields<u64> = PinFields::new(layout);
    f.direct(0, buf_addr as u64).unwrap();
    f.direct(1, 77).unwrap();
    let f = f.finish().unwrap();
    let r: Result<(), i32> = f.pinned_init(&mut slot, 0);
    assert_eq!(r, Ok(()));
    assert_eq!(slot.get(0), Some(0x801));
    assert_eq!(slot.get(1), Some(77));
}

#[test]
fn nested_value_fills_its_field() {
    let inner_layout = Layout { size: 2, zero_valid: false };
    let mut inner: PinFields<u64> = PinFields::new(inner_layout);
    inner.direct(0, 21).unwrap();
    inner.direct(1, 22).unwrap();
    let inner = inner.finish().unwrap();
    let mut outer: PinFields<PinFields<u64>> = PinFields::new(Layout { size: 4, zero_valid: false });
    outer.direct(0, 10).unwrap();
    outer.delegate::<i32>(1, inner).unwrap();
    outer.direct(3, 30).unwrap();
    let outer = outer.finish().unwrap();
    let mut slot = Slot::new(0x600, 4).unwrap();
    let r: Result<(), i32> = outer.pinned_init(&mut slot, 0);
    assert_eq!(r, Ok(()));
    assert_eq!(slot.contents(), vec![Some(10), Some(21), Some(22), Some(30)]);
    assert_eq!(
        slot.log(),
        vec![
            Event::Write { addr: 0x600, value: 10 },
            Event::Write { addr: 0x601, value: 21 },
            Event::Write { addr: 0x602, value: 22 },
            Event::Write { addr: 0x603, value: 30 },
        ]
    );
}

#[test]
fn failure_after_wide_field_destroys_its_cells_in_order() {
    let mut f: PinFields<InitClosure<i32>> = PinFields::new(Layout { size: 5, zero_valid: false });
    f.delegate(0, init_from_closure(vec![7, 8, 9], None)).unwrap();
    f.direct(3, 4).unwrap();
    f.delegate(4, init_from_closure(vec![5], Some(-9))).unwrap();
    let f = f.finish().unwrap();
    let mut slot = Slot::new(0, 5).unwrap();
    assert_eq!(f.pinned_init(&mut slot, 0), Err(-9));
    assert_eq!(
        slot.log(),
        vec![
            Event::Write { addr: 0, value: 7 },
            Event::Write { addr: 1, value: 8 },
            Event::Write { addr: 2, value: 9 },
            Event::Write { addr: 3, value: 4 },
            Event::Drop { addr: 3, value: 4 },
            Event::Drop { addr: 0, value: 7 },
            Event::Drop { addr: 1, value: 8 },
            Event::Drop { addr: 2, value: 9 },
        ]
    );
    assert_eq!(slot.contents(), vec![None; 5]);
}

#[test]
fn array_can_be_a_field() {
    let table = Table { entries: vec![Ok(1), Ok(2), Ok(3)] };
    let mut f = PinFields::new(Layout { size: 4, zero_valid: false });
    f.delegate::<i32>(0, init_array_from_fn(table, 3)).unwrap();
    assert_eq!(f.delegate::<i32>(3, init_array_from_fn(Table { entries: vec![Ok(4), Ok(5)] }, 2)), Err(LayoutError::UnknownField(3)));
    assert_eq!(f.delegate::<i32>(2, init_array_from_fn(Table { entries: vec![Ok(4)] }, 1)), Err(LayoutError::Duplicate(2)));
    f.delegate::<i32>(3, init_array_from_fn(Table { entries: vec![Ok(4)] }, 1)).unwrap();
    let f = f.finish().unwrap();
    let mut slot = Slot::new(0, 4).unwrap();
    assert_eq!(f.pinned_init(&mut slot, 0), Ok(()));
    assert_eq!(slot.contents(), vec![Some(1), Some(2), Some(3), Some(4)]);
}

#[test]
fn overlapping_field_is_refused() {
    let mut f: PinFields<InitClosure<i32>> = PinFields::new(Layout { size: 4, zero_valid: false });
    f.delegate(1, init_from_closure(vec![1, 2], None)).unwrap();
    assert_eq!(f.delegate(0, init_from_closure(vec![1, 2], None)), Err(LayoutError::Duplicate(0)));
    assert_eq!(f.direct(2, 5), Err(LayoutError::Duplicate(2)));
    f.direct(0, 5).unwrap();
    assert!(matches!(f.finish(), Err(LayoutError::Missing(3))));
}
