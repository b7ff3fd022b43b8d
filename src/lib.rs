//! In-place, fallible construction: values are built directly inside storage
//! that was obtained beforehand, field by field, and a failure at any point
//! destroys exactly what was built so far, in reverse order, and leaves the
//! storage free of any owed destructor.
use vstd::prelude::*;

pub mod array;
pub mod chain;
pub mod container;
pub mod fields;
pub mod init;
pub mod laws;
pub mod ledger;
pub mod slot;
pub mod zero;

pub use array::{init_array_from_fn, pin_init_array_from_fn, ArrayInit, MakeInit, Table};
pub use chain::{chain, pin_chain, AtMost, Chain, Finish};
pub use container::{
    Boxed, FromAllocError, InPlaceInit, OnlyCallFromDrop, Pinned, PinnedDrop, ToErrno, UniqueArc,
    ENOMEM,
};
pub use fields::{Field, FieldStep, Layout, LayoutError, PinFields};
pub use init::{init_from_closure, pin_init_from_closure, uninit, Init, InitClosure, PinInit, Uninit};
pub use ledger::GuardLedger;
pub use slot::{AllocError, Event, Slot, SlotView};
pub use zero::{zeroed, Zeroable};

verus! {

} // verus!
