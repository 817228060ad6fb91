//! Comparison of numbers that wrap around.

use std::cmp::Ordering;
use vstd::prelude::*;

verus! {

/// An unsigned integer that wraps around.
pub trait WrapInt: Sized {
    /// The number.
    spec fn value(self) -> int;

    /// The number of values that there are.
    spec fn modulus() -> int;

    proof fn lemma_value(self)
        ensures
            0 <= self.value() < Self::modulus(),
    ;

    /// How far `other` is to the right.
    fn wrapping_distance(&self, other: &Self) -> (distance: Self)
        ensures
            distance.value() == distance_right(
                self.value(),
                other.value(),
                Self::modulus(),
            ),
    ;

    fn is_less(&self, other: &Self) -> (result: bool)
        ensures
            result == (self.value() < other.value()),
    ;
}

/// How far it is from `a` to `b` by going right, where there are `modulus` values.
pub open spec fn distance_right(a: int, b: int, modulus: int) -> int {
    if a <= b {
        b - a
    } else {
        b - a + modulus
    }
}

/// It is faster to get to `a` from `b` by going left than by going right.
pub open spec fn left_of(a: int, b: int, modulus: int) -> bool {
    distance_right(a, b, modulus) < distance_right(b, a, modulus)
}

impl WrapInt for u8 {
    open spec fn value(self) -> int {
        self as int
    }

    open spec fn modulus() -> int {
        0x100
    }

    proof fn lemma_value(self) {
    }

    fn wrapping_distance(&self, other: &Self) -> (distance: Self) {
        other.wrapping_sub(*self)
    }

    fn is_less(&self, other: &Self) -> (result: bool) {
        *self < *other
    }
}

impl WrapInt for u16 {
    open spec fn value(self) -> int {
        self as int
    }

    open spec fn modulus() -> int {
        0x1_0000
    }

    proof fn lemma_value(self) {
    }

    fn wrapping_distance(&self, other: &Self) -> (distance: Self) {
        other.wrapping_sub(*self)
    }

    fn is_less(&self, other: &Self) -> (result: bool) {
        *self < *other
    }
}

impl WrapInt for u32 {
    open spec fn value(self) -> int {
        self as int
    }

    open spec fn modulus() -> int {
        0x1_0000_0000
    }

    proof fn lemma_value(self) {
    }

    fn wrapping_distance(&self, other: &Self) -> (distance: Self) {
        other.wrapping_sub(*self)
    }

    fn is_less(&self, other: &Self) -> (result: bool) {
        *self < *other
    }
}

impl WrapInt for u64 {
    open spec fn value(self) -> int {
        self as int
    }

    open spec fn modulus() -> int {
        0x1_0000_0000_0000_0000
    }

    proof fn lemma_value(self) {
    }

    fn wrapping_distance(&self, other: &Self) -> (distance: Self) {
        other.wrapping_sub(*self)
    }

    fn is_less(&self, other: &Self) -> (result: bool) {
        *self < *other
    }
}

impl WrapInt for u128 {
    open spec fn value(self) -> int {
        self as int
    }

    open spec fn modulus() -> int {
        u128::MAX + 1
    }

    proof fn lemma_value(self) {
    }

    fn wrapping_distance(&self, other: &Self) -> (distance: Self) {
        other.wrapping_sub(*self)
    }

    fn is_less(&self, other: &Self) -> (result: bool) {
        *self < *other
    }
}

impl WrapInt for usize {
    open spec fn value(self) -> int {
        self as int
    }

    open spec fn modulus() -> int {
        usize::MAX + 1
    }

    proof fn lemma_value(self) {
    }

    fn wrapping_distance(&self, other: &Self) -> (distance: Self) {
        other.wrapping_sub(*self)
    }

    fn is_less(&self, other: &Self) -> (result: bool) {
        *self < *other
    }
}

/// Compares two values that wrap around across their wrap point.
///
/// A value `a` is considered less than `b` if it is faster to get to `a` from `b` by going left
/// than by going right, and `a` is considered greater than `b` if the opposite is true.
///
/// This is useful for version numbers which may rarely wrap around, but only version numbers
/// that are very close together will ever be compared.
pub fn wrap_cmp<I: WrapInt>(a: &I, b: &I) -> (order: Ordering)
    ensures
        order == (if left_of(a.value(), b.value(), I::modulus()) {
            Ordering::Less
        } else if left_of(b.value(), a.value(), I::modulus()) {
            Ordering::Greater
        } else {
            Ordering::Equal
        }),
{
    let right: I = a.wrapping_distance(b);
    let left: I = b.wrapping_distance(a);
    if right.is_less(&left) {
        Ordering::Less
    } else if left.is_less(&right) {
        Ordering::Greater
    } else {
        Ordering::Equal
    }
}

pub fn wrap_lt<I: WrapInt>(a: &I, b: &I) -> (result: bool)
    ensures
        result == left_of(a.value(), b.value(), I::modulus()),
{
    match wrap_cmp(a, b) {
        Ordering::Less => true,
        _ => false,
    }
}

pub fn wrap_gt<I: WrapInt>(a: &I, b: &I) -> (result: bool)
    ensures
        result == left_of(b.value(), a.value(), I::modulus()),
{
    match wrap_cmp(a, b) {
        Ordering::Greater => true,
        _ => false,
    }
}

pub fn wrap_ge<I: WrapInt>(a: &I, b: &I) -> (result: bool)
    ensures
        result == !left_of(a.value(), b.value(), I::modulus()),
{
    match wrap_cmp(a, b) {
        Ordering::Less => false,
        _ => true,
    }
}

/// A value is to the left of those that follow it by less than half of all values, also across the
/// wrap point, and of no others.
pub proof fn law_left_of_near(a: int, step: int, modulus: int)
    requires
        0 <= a < modulus,
        0 <= step < modulus,
    ensures
        ({
            let b = if a + step < modulus {
                a + step
            } else {
                a + step - modulus
            };
            &&& left_of(a, b, modulus) <==> 0 < 2 * step < modulus
            &&& left_of(b, a, modulus) <==> 2 * step > modulus
        }),
{
}

} // verus!
