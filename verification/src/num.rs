//! Numeric traits and the arithmetic facts the rest of the crate relies on.
use vstd::prelude::*;
use std::ops::{Add, Div, Mul, Rem, Sub};

pub mod bounds;
pub mod modular;

pub use self::bounds::{Bounded, LowerBounded, UpperBounded};

verus! {

/// Types with an additive neutral element.
pub trait Zero {
    const ZERO: Self;
}

/// Types with a multiplicative neutral element.
pub trait One {
    const ONE: Self;
}

impl Zero for usize {
    const ZERO: Self = 0;
}

impl One for usize {
    const ONE: Self = 1;
}

impl Zero for u8 {
    const ZERO: Self = 0;
}

impl One for u8 {
    const ONE: Self = 1;
}

impl Zero for u16 {
    const ZERO: Self = 0;
}

impl One for u16 {
    const ONE: Self = 1;
}

impl Zero for u32 {
    const ZERO: Self = 0;
}

impl One for u32 {
    const ONE: Self = 1;
}

impl Zero for u64 {
    const ZERO: Self = 0;
}

impl One for u64 {
    const ONE: Self = 1;
}

impl Zero for u128 {
    const ZERO: Self = 0;
}

impl One for u128 {
    const ONE: Self = 1;
}

impl Zero for isize {
    const ZERO: Self = 0;
}

impl One for isize {
    const ONE: Self = 1;
}

impl Zero for i8 {
    const ZERO: Self = 0;
}

impl One for i8 {
    const ONE: Self = 1;
}

impl Zero for i16 {
    const ZERO: Self = 0;
}

impl One for i16 {
    const ONE: Self = 1;
}

impl Zero for i32 {
    const ZERO: Self = 0;
}

impl One for i32 {
    const ONE: Self = 1;
}

impl Zero for i64 {
    const ZERO: Self = 0;
}

impl One for i64 {
    const ONE: Self = 1;
}

impl Zero for i128 {
    const ZERO: Self = 0;
}

impl One for i128 {
    const ONE: Self = 1;
}

impl<A: Zero, B: Zero> Zero for (A, B) {
    const ZERO: Self = (A::ZERO, B::ZERO);
}

impl<A: One, B: One> One for (A, B) {
    const ONE: Self = (A::ONE, B::ONE);
}

/// The base trait for numeric types.
pub trait Numeric: Default + Zero + One {}

impl<T> Numeric for T where T: Default + Zero + One {}

/// Types closed under the four basic operations and the remainder.
pub trait NumericOps<Rhs = Self, Output = Self>:
    Add<Rhs, Output = Output>
    + Sub<Rhs, Output = Output>
    + Mul<Rhs, Output = Output>
    + Div<Rhs, Output = Output>
    + Rem<Rhs, Output = Output>
{
}

impl<T, Rhs, Output> NumericOps<Rhs, Output> for T where
    T: Add<Rhs, Output = Output>
        + Sub<Rhs, Output = Output>
        + Mul<Rhs, Output = Output>
        + Div<Rhs, Output = Output>
        + Rem<Rhs, Output = Output>
{
}

/// Types closed under the basic operations of the integers.
pub trait IntegerOps<Rhs = Self, Output = Self>: NumericOps<Rhs, Output> {}

impl<T, Rhs, Output> IntegerOps<Rhs, Output> for T where T: NumericOps<Rhs, Output> {}

/// Types with equality and a total order.
pub trait NumericCmpOps<Rhs = Self>: PartialEq<Rhs> + PartialOrd<Rhs> + Eq + Ord {}

impl<T, Rhs> NumericCmpOps<Rhs> for T where T: PartialEq<Rhs> + PartialOrd<Rhs> + Eq + Ord {}

} // verus!
