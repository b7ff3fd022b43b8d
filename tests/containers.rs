use pin_init::{
    init_from_closure, AllocError, Boxed, Event, FromAllocError, InPlaceInit, InitClosure, Layout,
    PinFields, Pinned, Slot, ToErrno, UniqueArc,
};

fn pair(fail: Option<i32>) -> PinFields<InitClosure<i32>> {
    let mut f: PinFields<InitClosure<i32>> =
        PinFields::new(Layout { size: 2, zero_valid: false });
    f.direct(0, 1).unwrap();
    f.delegate(1, init_from_closure(vec![2], fail)).unwrap();
    f.finish().unwrap()
}

#[test]
fn pinned_value_stays_at_its_storage_address() {
    let storage = Slot::new(0x4000, 2);
    let p: Pinned<Boxed> = Boxed::try_pin_init(storage, pair(None), &mut Vec::new()).unwrap();
    assert_eq!(p.addr(), 0x4000);
    assert_eq!(p.len(), 2);
    assert_eq!(p.get(0), Some(1));
    assert_eq!(p.get(1), Some(2));
    for e in p.log() {
        let a = match e {
            Event::Write { addr, .. } | Event::Zero { addr } | Event::Drop { addr, .. } => addr,
        };
        assert!(a == 0x4000 || a == 0x4001);
    }
}

#[test]
fn allocation_failure_runs_no_initializer() {
    let r: Result<Pinned<Boxed>, i32> = Boxed::try_pin_init(Err(AllocError), pair(None), &mut Vec::new());
    assert!(matches!(r, Err(-12)));
}

#[test]
fn initializer_failure_is_passed_on() {
    let r = UniqueArc::try_pin_init(Slot::new(0, 2), pair(Some(-22)), &mut Vec::new());
    assert!(matches!(r, Err(-22)));
}

#[test]
fn movable_value_can_be_moved_out() {
    let b = Boxed::try_init(Slot::new(0x10, 2), pair(None), &mut Vec::new()).unwrap();
    assert_eq!(b.addr(), 0x10);
    assert_eq!(b.into_values(), vec![1, 2]);
}

#[test]
fn movable_initializer_failure_is_passed_on() {
    let r = Boxed::try_init(Slot::new(0x10, 2), pair(Some(-2)), &mut Vec::new());
    assert!(matches!(r, Err(-2)));
}

#[test]
fn unique_arc_builds_in_place() {
    let p: Pinned<UniqueArc> = UniqueArc::try_pin_init(Slot::new(0x90, 2), pair(None), &mut Vec::new()).unwrap();
    assert_eq!(p.addr(), 0x90);
    assert_eq!(p.get(1), Some(2));
}

#[test]
fn release_destroys_each_field_once() {
    let p: Pinned<Boxed> = Boxed::try_pin_init(Slot::new(0x20, 2), pair(None), &mut Vec::new()).unwrap();
    let slot = p.release();
    assert_eq!(slot.base(), 0x20);
    assert_eq!(slot.contents(), vec![None, None]);
    assert_eq!(
        slot.log(),
        vec![
            Event::Write { addr: 0x20, value: 1 },
            Event::Write { addr: 0x21, value: 2 },
            Event::Drop { addr: 0x20, value: 1 },
            Event::Drop { addr: 0x21, value: 2 },
        ]
    );
}

#[test]
fn movable_allocation_failure_runs_no_initializer() {
    let r = UniqueArc::try_init(Err(AllocError), pair(Some(-2)), &mut Vec::new());
    assert!(matches!(r, Err(-12)));
}

#[test]
fn allocation_failure_converts_to_error_number() {
    assert_eq!(<i32 as FromAllocError>::from_alloc_error(AllocError), -12);
    assert_eq!(<AllocError as FromAllocError>::from_alloc_error(AllocError), AllocError);
}

#[test]
fn errno_entry_reports_out_of_memory() {
    let r: Result<Pinned<Boxed>, i32> = Boxed::pin_init(Err(AllocError), pair(None), &mut Vec::new());
    assert!(matches!(r, Err(-12)));
    let r: Result<UniqueArc, i32> = UniqueArc::init(Err(AllocError), pair(None), &mut Vec::new());
    assert!(matches!(r, Err(-12)));
}

#[test]
fn errno_entry_passes_on_initializer_error() {
    let r: Result<Pinned<UniqueArc>, i32> = UniqueArc::pin_init(Slot::new(0, 2), pair(Some(-5)), &mut Vec::new());
    assert!(matches!(r, Err(-5)));
    let r: Result<Boxed, i32> = Boxed::init(Slot::new(0, 2), pair(Some(-6)), &mut Vec::new());
    assert!(matches!(r, Err(-6)));
}

#[test]
fn errno_entry_builds_value() {
    let p: Pinned<Boxed> = Boxed::pin_init(Slot::new(0x30, 2), pair(None), &mut Vec::new()).unwrap();
    assert_eq!(p.addr(), 0x30);
    assert_eq!(p.get(0), Some(1));
    let b = Boxed::init(Slot::new(0x40, 2), pair(None), &mut Vec::new()).unwrap();
    assert_eq!(b.into_values(), vec![1, 2]);
}

#[test]
fn error_numbers_of_errors() {
    assert_eq!(AllocError.to_errno(), -12);
    assert_eq!((-22i32).to_errno(), -22);
}

#[test]
fn failed_storage_is_handed_back_without_extra_destructors() {
    let mut f: PinFields<InitClosure<i32>> = PinFields::new(Layout { size: 3, zero_valid: false });
    f.direct(0, 10).unwrap();
    f.delegate(1, init_from_closure(vec![20], Some(-22))).unwrap();
    f.direct(2, 30).unwrap();
    let f = f.finish().unwrap();
    let mut released = Vec::new();
    let r: Result<Pinned<UniqueArc>, i32> = UniqueArc::try_pin_init(Slot::new(0x100, 3), f, &mut released);
    assert!(matches!(r, Err(-22)));
    assert_eq!(released.len(), 1);
    assert_eq!(released[0].base(), 0x100);
    assert_eq!(released[0].contents(), vec![None, None, None]);
    assert_eq!(
        released[0].log(),
        vec![
            Event::Write { addr: 0x100, value: 10 },
            Event::Drop { addr: 0x100, value: 10 },
        ]
    );
}

#[test]
fn success_and_allocation_failure_release_nothing() {
    let mut released = Vec::new();
    let _p: Pinned<Boxed> = Boxed::try_pin_init(Slot::new(0, 2), pair(None), &mut released).unwrap();
    let r: Result<Boxed, i32> = Boxed::try_init(Err(AllocError), pair(None), &mut released);
    assert!(matches!(r, Err(-12)));
    assert!(released.is_empty());
}

#[test]
fn movable_failure_hands_storage_back() {
    let mut released = Vec::new();
    let r = Boxed::init(Slot::new(0x50, 2), pair(Some(-6)), &mut released);
    assert!(matches!(r, Err(-6)));
    assert_eq!(released[0].log(), vec![Event::Write { addr: 0x50, value: 1 }, Event::Drop { addr: 0x50, value: 1 }]);
    assert_eq!(released[0].contents(), vec![None, None]);
}
