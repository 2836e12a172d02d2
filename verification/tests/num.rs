use cplit::graph::Distance;
use cplit::num::modular::{
    wrapped_len_i64, wrapped_len_isize, wrapping_add_i64, wrapping_add_isize, wrapping_mul_i64,
    wrapping_mul_isize, wrapping_sub_i64, wrapping_sub_isize,
};
use cplit::num::{LowerBounded, One, UpperBounded, Zero};
use cplit::utils::Flag;

#[test]
fn neutral_elements() {
    assert_eq!(<usize as Zero>::ZERO, 0);
    assert_eq!(<i8 as Zero>::ZERO, 0);
    assert_eq!(<u128 as One>::ONE, 1);
    assert_eq!(<i64 as One>::ONE, 1);
    assert_eq!(<(i32, u8) as Zero>::ZERO, (0, 0));
    assert_eq!(<(i32, u8) as One>::ONE, (1, 1));
}

#[test]
fn bounds_of_the_integers() {
    assert_eq!(<u8 as LowerBounded>::MIN, 0);
    assert_eq!(<u8 as UpperBounded>::MAX, 255);
    assert_eq!(<i16 as LowerBounded>::MIN, -32768);
    assert_eq!(<i16 as UpperBounded>::MAX, 32767);
    assert_eq!(<usize as UpperBounded>::MAX, usize::MAX);
    assert_eq!(<i128 as LowerBounded>::MIN, i128::MIN);
}

#[test]
fn arithmetic_wraps_around() {
    assert_eq!(wrapping_add_i64(2, 3), 5);
    assert_eq!(wrapping_add_i64(i64::MAX, 1), i64::MIN);
    assert_eq!(wrapping_sub_i64(i64::MIN, 1), i64::MAX);
    assert_eq!(wrapping_mul_i64(i64::MAX, 2), -2);
    assert_eq!(wrapping_mul_i64(-6, 7), -42);
    assert_eq!(wrapping_add_isize(isize::MIN, -1), isize::MAX);
    assert_eq!(wrapping_sub_isize(3, 5), -2);
    assert_eq!(wrapping_mul_isize(isize::MIN, 2), 0);
}

#[test]
fn lengths_wrap_around() {
    assert_eq!(wrapped_len_i64(0), 0);
    assert_eq!(wrapped_len_i64(12), 12);
    assert_eq!(wrapped_len_isize(isize::MAX as usize), isize::MAX);
    assert_eq!(wrapped_len_isize(isize::MAX as usize + 1), isize::MIN);
    assert_eq!(wrapped_len_isize(usize::MAX), -1);
    assert_eq!(wrapped_len_i64(usize::MAX), (usize::MAX as u64) as i64);
}

#[test]
fn a_number_is_its_own_distance() {
    assert_eq!(7usize.dist(), 7);
    assert_eq!((-3i64).dist(), -3);
}

#[test]
fn a_bool_is_a_flag() {
    let mut mark = false;
    assert!(!mark.get());
    mark.set(true);
    assert!(mark.get());
    mark.set(false);
    assert!(!mark.get());
}
