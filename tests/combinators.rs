use pin_init::{
    chain, init_array_from_fn, init_from_closure, pin_chain, pin_init_array_from_fn,
    pin_init_from_closure, uninit, AtMost, Event, Init, PinInit, Slot, Table,
};

#[test]
fn array_failure_at_three_destroys_first_three() {
    let table = Table { entries: vec![Ok(0), Ok(1), Ok(2), Err(-7), Ok(4)] };
    let a = init_array_from_fn(table, 5);
    let mut slot = Slot::new(0x500, 5).unwrap();
    let r = a.init(&mut slot, 0);
    assert_eq!(r, Err(-7));
    assert_eq!(
        slot.log(),
        vec![
            Event::Write { addr: 0x500, value: 0 },
            Event::Write { addr: 0x501, value: 1 },
            Event::Write { addr: 0x502, value: 2 },
            Event::Drop { addr: 0x500, value: 0 },
            Event::Drop { addr: 0x501, value: 1 },
            Event::Drop { addr: 0x502, value: 2 },
        ]
    );
    assert_eq!(slot.contents(), vec![None; 5]);
}

#[test]
fn array_success_builds_every_element() {
    let table: Table<i32> = Table { entries: vec![Ok(5), Ok(6), Ok(7)] };
    let a = pin_init_array_from_fn(table, 3);
    let mut slot = Slot::new(8, 3).unwrap();
    assert_eq!(a.pinned_init(&mut slot, 0), Ok(()));
    assert_eq!(slot.contents(), vec![Some(5), Some(6), Some(7)]);
    assert_eq!(
        slot.log(),
        vec![
            Event::Write { addr: 8, value: 5 },
            Event::Write { addr: 9, value: 6 },
            Event::Write { addr: 10, value: 7 },
        ]
    );
}

#[test]
fn array_of_no_elements_succeeds() {
    let table: Table<i32> = Table { entries: vec![] };
    let a = init_array_from_fn(table, 0);
    let mut slot = Slot::new(8, 0).unwrap();
    assert_eq!(a.init(&mut slot, 0), Ok(()));
    assert_eq!(slot.log(), Vec::<Event>::new());
}

#[test]
fn array_first_element_failing_destroys_nothing() {
    let table = Table { entries: vec![Err(-1), Ok(1)] };
    let a = pin_init_array_from_fn(table, 2);
    let mut slot = Slot::new(8, 2).unwrap();
    assert_eq!(a.pinned_init(&mut slot, 0), Err(-1));
    assert_eq!(slot.log(), Vec::<Event>::new());
}

#[test]
fn array_uses_only_first_n_entries() {
    let table = Table { entries: vec![Ok(1), Ok(2), Err(-9)] };
    let a = init_array_from_fn(table, 2);
    let mut slot = Slot::new(0, 2).unwrap();
    assert_eq!(a.init(&mut slot, 0), Ok(()));
    assert_eq!(slot.contents(), vec![Some(1), Some(2)]);
}

#[test]
fn chain_rejection_destroys_value_once() {
    let c = chain(
        init_from_closure(vec![3, 40], None),
        AtMost { limit: 10, error: -34 },
    );
    let mut slot = Slot::new(0x70, 2).unwrap();
    assert_eq!(c.init(&mut slot, 0), Err(-34));
    assert_eq!(
        slot.log(),
        vec![
            Event::Write { addr: 0x70, value: 3 },
            Event::Write { addr: 0x71, value: 40 },
            Event::Drop { addr: 0x70, value: 3 },
            Event::Drop { addr: 0x71, value: 40 },
        ]
    );
    assert_eq!(slot.contents(), vec![None, None]);
}

#[test]
fn chain_acceptance_keeps_value() {
    let c = pin_chain(
        pin_init_from_closure(vec![3, 4], None),
        AtMost { limit: 10, error: -34 },
    );
    let mut slot = Slot::new(0x70, 2).unwrap();
    assert_eq!(c.pinned_init(&mut slot, 0), Ok(()));
    assert_eq!(slot.contents(), vec![Some(3), Some(4)]);
    assert_eq!(slot.log().len(), 2);
}

#[test]
fn chain_passes_on_first_failure_without_running_step() {
    let c = chain(
        init_from_closure(vec![3], Some(-1)),
        AtMost { limit: 0, error: -34 },
    );
    let mut slot = Slot::new(0, 1).unwrap();
    assert_eq!(c.init(&mut slot, 0), Err(-1));
    assert_eq!(slot.log(), Vec::<Event>::new());
}

#[test]
fn value_is_its_own_initializer() {
    let mut slot = Slot::new(30, 1).unwrap();
    let r: Result<(), i32> = 9u64.init(&mut slot, 0);
    assert_eq!(r, Ok(()));
    assert_eq!(slot.get(0), Some(9));
    assert_eq!(slot.log(), vec![Event::Write { addr: 30, value: 9 }]);
}

#[test]
fn closure_failure_writes_nothing() {
    let mut slot = Slot::new(30, 2).unwrap();
    let r = init_from_closure(vec![1, 2], Some(-4)).init(&mut slot, 0);
    assert_eq!(r, Err(-4));
    assert_eq!(slot.contents(), vec![None, None]);
    assert_eq!(slot.log(), Vec::<Event>::new());
}

#[test]
fn slot_past_end_of_address_space_is_refused() {
    assert!(Slot::new(usize::MAX - 1, 2).is_err());
    assert!(Slot::new(usize::MAX - 2, 2).is_ok());
}

#[test]
fn uninit_succeeds_without_touching_storage() {
    let mut slot = Slot::new(0x10, 3).unwrap();
    slot.write(0, 5);
    let r: Result<(), i32> = uninit(2).init(&mut slot, 1);
    assert_eq!(r, Ok(()));
    assert_eq!(slot.contents(), vec![Some(5), None, None]);
    assert_eq!(slot.log(), vec![Event::Write { addr: 0x10, value: 5 }]);
}
