//! Numbers with a least and a greatest value.
use vstd::prelude::*;

verus! {

/// Numbers which have lower bounds.
pub trait LowerBounded {
    /// The smallest finite number this type can represent.
    const MIN: Self;
}

/// Numbers which have upper bounds.
pub trait UpperBounded {
    /// The largest finite number this type can represent.
    const MAX: Self;
}

/// Numbers bounded on both sides.
pub trait Bounded: LowerBounded + UpperBounded {}

impl<T> Bounded for T where T: LowerBounded + UpperBounded {}

impl LowerBounded for usize {
    const MIN: Self = usize::MIN;
}

impl UpperBounded for usize {
    const MAX: Self = usize::MAX;
}

impl LowerBounded for u8 {
    const MIN: Self = u8::MIN;
}

impl UpperBounded for u8 {
    const MAX: Self = u8::MAX;
}

impl LowerBounded for u16 {
    const MIN: Self = u16::MIN;
}

impl UpperBounded for u16 {
    const MAX: Self = u16::MAX;
}

impl LowerBounded for u32 {
    const MIN: Self = u32::MIN;
}

impl UpperBounded for u32 {
    const MAX: Self = u32::MAX;
}

impl LowerBounded for u64 {
    const MIN: Self = u64::MIN;
}

impl UpperBounded for u64 {
    const MAX: Self = u64::MAX;
}

impl LowerBounded for u128 {
    const MIN: Self = u128::MIN;
}

impl UpperBounded for u128 {
    const MAX: Self = u128::MAX;
}

impl LowerBounded for isize {
    const MIN: Self = isize::MIN;
}

impl UpperBounded for isize {
    const MAX: Self = isize::MAX;
}

impl LowerBounded for i8 {
    const MIN: Self = i8::MIN;
}

impl UpperBounded for i8 {
    const MAX: Self = i8::MAX;
}

impl LowerBounded for i16 {
    const MIN: Self = i16::MIN;
}

impl UpperBounded for i16 {
    const MAX: Self = i16::MAX;
}

impl LowerBounded for i32 {
    const MIN: Self = i32::MIN;
}

impl UpperBounded for i32 {
    const MAX: Self = i32::MAX;
}

impl LowerBounded for i64 {
    const MIN: Self = i64::MIN;
}

impl UpperBounded for i64 {
    const MAX: Self = i64::MAX;
}

impl LowerBounded for i128 {
    const MIN: Self = i128::MIN;
}

impl UpperBounded for i128 {
    const MAX: Self = i128::MAX;
}

} // verus!
