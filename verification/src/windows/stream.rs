//! Wrapping stream positions and their order.

use std::cmp::Ordering;

use vstd::prelude::*;

verus! {

/// A position in a byte stream, counted modulo 2^32.
pub type StreamPos = u32;

/// The largest distance at which two positions are ordered, 2^31 - 1.
pub const MAX_DISTANCE: u32 = 0x7fff_ffff;

/// The number of positions there are, 2^32.
pub open spec fn modulus() -> int {
    0x1_0000_0000
}

/// Half of the positions, 2^31.
pub open spec fn half() -> int {
    0x8000_0000
}

/// The number of steps to the right from `a` to `b`.
pub open spec fn steps(a: StreamPos, b: StreamPos) -> int {
    if a <= b {
        b - a
    } else {
        b - a + modulus()
    }
}

/// The shortest way from `a` to `b`, negative if it leads to the left.
pub open spec fn signed_steps(a: StreamPos, b: StreamPos) -> int {
    if steps(a, b) < half() {
        steps(a, b)
    } else {
        steps(a, b) - modulus()
    }
}

/// The position `n` steps to the right of `a`.
pub open spec fn advance(a: StreamPos, n: int) -> StreamPos {
    ((a + n) % modulus()) as StreamPos
}

/// Going `n` steps to the right of `a` takes `n` steps, modulo 2^32.
pub proof fn lemma_advance(a: StreamPos, n: int)
    requires
        0 <= n < modulus(),
    ensures
        steps(a, advance(a, n)) == n,
        advance(a, n) == a.wrapping_add(n as u32),
{
}

/// Every position is reached from every other by its number of steps.
pub proof fn lemma_steps(a: StreamPos, b: StreamPos)
    ensures
        0 <= steps(a, b) < modulus(),
        advance(a, steps(a, b)) == b,
        steps(a, b) == b.wrapping_sub(a),
        steps(a, b) == 0 <==> a == b,
{
}

/// Going on is going on from where one has got to.
pub proof fn lemma_advance_twice(a: StreamPos, m: int, n: int)
    ensures
        advance(advance(a, m), n) == advance(a, m + n),
{
    let x = a + m;
    let q = x / modulus();
    assert(x == q * modulus() + x % modulus());
    assert((x % modulus() + n) % modulus() == (x + n) % modulus());
}

/// A position is its signed distance away.
pub proof fn lemma_signed_steps(a: StreamPos, b: StreamPos)
    ensures
        -half() <= signed_steps(a, b) < half(),
        advance(a, signed_steps(a, b)) == b,
{
}

/// Two positions whose distances from a common base differ by less than 2^31 are ordered as these
/// distances are.
pub proof fn lemma_order_from_base(base: StreamPos, x: int, y: int)
    requires
        -half() < y - x < half(),
    ensures
        before(advance(base, x), advance(base, y)) <==> x < y,
        advance(base, x) == advance(base, y) <==> x == y,
        x <= y ==> steps(advance(base, x), advance(base, y)) == y - x,
        y < x ==> steps(advance(base, x), advance(base, y)) == y - x + modulus(),
{
    let a = advance(base, x);
    lemma_advance_twice(base, x, y - x);
    assert(advance(base, y) == advance(a, y - x));
}

/// The order of two positions: `a` is less than `b` if it is faster to get to `a` from `b` by going
/// left than by going right, and greater if the opposite is true. Opposite positions have no order.
pub open spec fn stream_order(a: StreamPos, b: StreamPos) -> Option<Ordering> {
    if a == b {
        Some(Ordering::Equal)
    } else if steps(a, b) < half() {
        Some(Ordering::Less)
    } else if steps(a, b) > half() {
        Some(Ordering::Greater)
    } else {
        None
    }
}

/// `a` is less than `b` in the order of positions.
pub open spec fn before(a: StreamPos, b: StreamPos) -> bool {
    0 < steps(a, b) < half()
}

/// Compares the given wrapping stream positions.
///
/// Cannot be used to implement `Ord` because this order is not transitive. Positions that are
/// exactly opposite each other have no sensible order; values compared should never be more than
/// [`MAX_DISTANCE`] apart.
pub fn stream_cmp(a: StreamPos, b: StreamPos) -> (order: Option<Ordering>)
    ensures
        order == stream_order(a, b),
{
    let right: u32 = b.wrapping_sub(a);
    let left: u32 = a.wrapping_sub(b);
    if right < left {
        Some(Ordering::Less)
    } else if left < right {
        Some(Ordering::Greater)
    } else if a == b {
        Some(Ordering::Equal)
    } else {
        None
    }
}

/// Whether `a` comes strictly before `b`.
pub fn stream_lt(a: StreamPos, b: StreamPos) -> (result: bool)
    ensures
        result == before(a, b),
{
    matches!(stream_cmp(a, b), Some(Ordering::Less))
}

/// Whether `a` equals `b` or comes before it.
pub fn stream_le(a: StreamPos, b: StreamPos) -> (result: bool)
    ensures
        result == (a == b || before(a, b)),
{
    matches!(stream_cmp(a, b), Some(Ordering::Less) | Some(Ordering::Equal))
}

/// Whether `a` comes strictly after `b`.
pub fn stream_gt(a: StreamPos, b: StreamPos) -> (result: bool)
    ensures
        result == before(b, a),
{
    matches!(stream_cmp(a, b), Some(Ordering::Greater))
}

/// Whether `a` equals `b` or comes after it.
pub fn stream_ge(a: StreamPos, b: StreamPos) -> (result: bool)
    ensures
        result == (a == b || before(b, a)),
{
    matches!(stream_cmp(a, b), Some(Ordering::Greater) | Some(Ordering::Equal))
}

/// The comparisons agree with the order of positions.
pub proof fn law_before_is_less(a: StreamPos, b: StreamPos)
    ensures
        before(a, b) <==> stream_order(a, b) == Some(Ordering::Less),
        before(b, a) <==> stream_order(a, b) == Some(Ordering::Greater),
{
}

/// The order of positions is antisymmetric: swapping the arguments turns the answer around, and
/// opposite positions are unordered both ways.
pub proof fn law_order_antisymmetric(a: StreamPos, b: StreamPos)
    ensures
        stream_order(a, b) == Some(Ordering::Less) <==> stream_order(b, a) == Some(
            Ordering::Greater,
        ),
        stream_order(a, b) == Some(Ordering::Equal) <==> stream_order(b, a) == Some(
            Ordering::Equal,
        ),
        stream_order(a, b) is None <==> stream_order(b, a) is None,
        stream_order(a, b) == Some(Ordering::Equal) <==> a == b,
        stream_order(a, b) is None <==> steps(a, b) == half(),
{
}

/// Around any base position, the positions that are at most [`MAX_DISTANCE`] steps to its right are
/// totally ordered, by their number of steps from the base.
pub proof fn law_order_total_near(base: StreamPos, a: StreamPos, b: StreamPos)
    requires
        steps(base, a) <= MAX_DISTANCE,
        steps(base, b) <= MAX_DISTANCE,
    ensures
        stream_order(a, b) == Some(Ordering::Less) <==> steps(base, a) < steps(base, b),
        stream_order(a, b) == Some(Ordering::Equal) <==> steps(base, a) == steps(base, b),
        stream_order(a, b) == Some(Ordering::Greater) <==> steps(base, a) > steps(base, b),
{
}

} // verus!
