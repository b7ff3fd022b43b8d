//! Types whose all-zero bit pattern is a valid value, and the zero-fill initializer.
use vstd::prelude::*;

use crate::fields::{Layout, LayoutError, PinFields};

verus! {

/// A type for which the all-zero bit pattern is a valid value.
pub trait Zeroable: Sized {
    /// The value that the all-zero bit pattern stands for.
    spec fn zero() -> Self;

    /// The value made of zero bits alone.
    fn zeroed() -> (r: Self)
        ensures
            r == Self::zero(),
    ;
}

impl Zeroable for bool {
    open spec fn zero() -> bool {
        false
    }

    fn zeroed() -> (r: bool) {
        false
    }
}

impl Zeroable for u8 {
    open spec fn zero() -> u8 {
        0
    }

    fn zeroed() -> (r: u8) {
        0
    }
}

impl Zeroable for u16 {
    open spec fn zero() -> u16 {
        0
    }

    fn zeroed() -> (r: u16) {
        0
    }
}

impl Zeroable for u32 {
    open spec fn zero() -> u32 {
        0
    }

    fn zeroed() -> (r: u32) {
        0
    }
}

impl Zeroable for u64 {
    open spec fn zero() -> u64 {
        0
    }

    fn zeroed() -> (r: u64) {
        0
    }
}

impl Zeroable for usize {
    open spec fn zero() -> usize {
        0
    }

    fn zeroed() -> (r: usize) {
        0
    }
}

impl Zeroable for i32 {
    open spec fn zero() -> i32 {
        0
    }

    fn zeroed() -> (r: i32) {
        0
    }
}

impl Zeroable for i64 {
    open spec fn zero() -> i64 {
        0
    }

    fn zeroed() -> (r: i64) {
        0
    }
}

impl<T> Zeroable for Option<T> {
    open spec fn zero() -> Option<T> {
        None
    }

    fn zeroed() -> (r: Option<T>) {
        None
    }
}

/// An initializer that fills a value of `layout` with zero bits and does nothing
/// else: the field protocol with zero fill and no listed field. Refused for a
/// layout whose all-zero bits are not a valid value.
pub fn zeroed<I>(layout: Layout) -> (r: Result<PinFields<I>, LayoutError>)
    ensures
        match r {
            Ok(f) => {
                &&& layout.zero_valid
                &&& f.well_built()
                &&& f.layout == layout
                &&& f.zero_fill
                &&& f.steps@.len() == 0
            },
            Err(e) => !layout.zero_valid && e == LayoutError::NotZeroValid,
        },
{
    PinFields::zeroed(layout)
}

} // verus!
