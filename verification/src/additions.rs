//! Adding a value to the entries of a window of a sequence of `i32`, as the
//! machine adds: with wrap-around at the bounds of `i32`. A window `[lo, hi]`
//! is a pair of inclusive bounds; indices of the window that lie outside the
//! sequence are ignored.

use vstd::prelude::*;

verus! {

/// The integer of the range of `i32` that differs from `x` by a multiple of
/// `2^32`.
pub open spec fn wrapped(x: int) -> int {
    let m = x % 0x1_0000_0000;
    if m >= 0x8000_0000 {
        m - 0x1_0000_0000
    } else {
        m
    }
}

/// The sum of `a` and `b` as a 32-bit two's-complement machine computes it:
/// the exact sum where that fits, else the exact sum moved by `2^32` into the
/// range of `i32`.
pub open spec fn wrapped_sum(a: i32, b: i32) -> i32 {
    a.wrapping_add(b)
}

/// `v` after `val` has been added, with wrap-around, to every entry in
/// `[lo, hi]`.
pub open spec fn raised(v: Seq<i32>, lo: int, hi: int, val: i32) -> Seq<i32> {
    Seq::new(
        v.len(),
        |p: int|
            if lo <= p <= hi {
                wrapped_sum(v[p], val)
            } else {
                v[p]
            },
    )
}

/// One addition: the first and the last position that take it, counted from
/// 0, and the value they take.
#[derive(Copy, Clone, Debug, PartialEq, Eq)]
pub struct Operation {
    pub start: i32,
    pub end: i32,
    pub val: i32,
}

/// `v` after the additions `ops`, the first of them first.
pub open spec fn raised_all(v: Seq<i32>, ops: Seq<Operation>) -> Seq<i32>
    decreases ops.len(),
{
    if ops.len() == 0 {
        v
    } else {
        let op = ops.last();
        raised(raised_all(v, ops.drop_last()), op.start as int, op.end as int, op.val)
    }
}

/// The exact sum of the values of those additions whose window holds `p`.
pub open spec fn total_at(ops: Seq<Operation>, p: int) -> int
    decreases ops.len(),
{
    if ops.len() == 0 {
        0
    } else {
        let op = ops.last();
        total_at(ops.drop_last(), p) + if op.start <= p <= op.end {
            op.val as int
        } else {
            0
        }
    }
}

/// A wrapped sum is the exact sum wherever that fits, and differs from it by
/// `2^32` elsewhere.
pub proof fn lemma_wrapped_sum(a: i32, b: i32)
    ensures
        wrapped_sum(a, b) == wrapped(a + b),
        i32::MIN <= a + b <= i32::MAX ==> wrapped_sum(a, b) == a + b,
{
}

/// Wrapped sums may be regrouped.
pub proof fn lemma_wrapped_sum_assoc(a: i32, b: i32, c: i32)
    ensures
        wrapped_sum(wrapped_sum(a, b), c) == wrapped_sum(a, wrapped_sum(b, c)),
{
}

/// An integer of the range of `i32` is its own wrapped value, and wrapping
/// before a further addition changes nothing.
pub proof fn lemma_wrapped(x: int, y: int)
    ensures
        i32::MIN <= wrapped(x) <= i32::MAX,
        i32::MIN <= x <= i32::MAX ==> wrapped(x) == x,
        wrapped(wrapped(x) + y) == wrapped(x + y),
{
}

/// After any run of additions to windows, each entry is its first value plus
/// the values of the additions whose window held its position, wrapped; it
/// is that sum exactly wherever the sum fits in `i32`. The length stays.
pub proof fn lemma_sum_of_additions(v: Seq<i32>, ops: Seq<Operation>, p: int)
    requires
        0 <= p < v.len(),
    ensures
        raised_all(v, ops).len() == v.len(),
        raised_all(v, ops)[p] == wrapped(v[p] + total_at(ops, p)),
        i32::MIN <= v[p] + total_at(ops, p) <= i32::MAX ==> raised_all(v, ops)[p] == v[p]
            + total_at(ops, p),
    decreases ops.len(),
{
    if ops.len() > 0 {
        let op = ops.last();
        let earlier = ops.drop_last();
        lemma_sum_of_additions(v, earlier, p);
        lemma_wrapped_sum(raised_all(v, earlier)[p], op.val);
        lemma_wrapped(v[p] + total_at(earlier, p), op.val as int);
    }
}

/// A window of one position is that position: an addition to it changes one
/// entry.
pub proof fn lemma_raising_one(v: Seq<i32>, p: int, val: i32)
    requires
        0 <= p < v.len(),
    ensures
        raised(v, p, p, val) == v.update(p, wrapped_sum(v[p], val)),
{
}

} // verus!
