//! The array that a tree stands for, as a sequence: its largest and smallest
//! entry over a window of indices, and what lowering the entries of a window
//! does to them. A window `[lo, hi]` is a pair of inclusive bounds; indices of
//! the window that lie outside the sequence are ignored, so a window may reach
//! beyond either end.

use vstd::prelude::*;

verus! {

/// The larger of two integers.
pub open spec fn max_of(a: int, b: int) -> int {
    if a >= b {
        a
    } else {
        b
    }
}

/// The smaller of two integers.
pub open spec fn min_of(a: int, b: int) -> int {
    if a <= b {
        a
    } else {
        b
    }
}

/// The largest entry of `v` whose index lies in `[lo, hi]`; `i32::MIN` when
/// there is none.
pub open spec fn window_max(v: Seq<i32>, lo: int, hi: int) -> int
    decreases hi - lo + 1,
{
    if hi < lo {
        i32::MIN as int
    } else {
        let rest = window_max(v, lo, hi - 1);
        if 0 <= hi < v.len() && v[hi] > rest {
            v[hi] as int
        } else {
            rest
        }
    }
}

/// The smallest entry of `v` whose index lies in `[lo, hi]`; `i32::MAX` when
/// there is none.
pub open spec fn window_min(v: Seq<i32>, lo: int, hi: int) -> int
    decreases hi - lo + 1,
{
    if hi < lo {
        i32::MAX as int
    } else {
        let rest = window_min(v, lo, hi - 1);
        if 0 <= hi < v.len() && v[hi] < rest {
            v[hi] as int
        } else {
            rest
        }
    }
}

/// The largest entry of a whole sequence.
pub open spec fn seq_max(v: Seq<i32>) -> int {
    window_max(v, 0, v.len() - 1)
}

/// The smallest entry of a whole sequence.
pub open spec fn seq_min(v: Seq<i32>) -> int {
    window_min(v, 0, v.len() - 1)
}

/// `v` after every entry in `[lo, hi]` that exceeds `val` has been replaced
/// by `val`.
pub open spec fn lowered(v: Seq<i32>, lo: int, hi: int, val: i32) -> Seq<i32> {
    Seq::new(
        v.len(),
        |p: int|
            if lo <= p <= hi && val < v[p] {
                val
            } else {
                v[p]
            },
    )
}

/// `window_max` is an upper bound of the window's entries, and is one of
/// them unless the window holds none.
pub proof fn lemma_window_max(v: Seq<i32>, lo: int, hi: int)
    ensures
        i32::MIN <= window_max(v, lo, hi) <= i32::MAX,
        forall|p: int| lo <= p <= hi && 0 <= p < v.len() ==> v[p] <= window_max(v, lo, hi),
        (exists|p: int| lo <= p <= hi && 0 <= p < v.len() && v[p] == window_max(v, lo, hi)) || ((hi
            < lo || hi < 0 || lo >= v.len() || v.len() == 0) && window_max(v, lo, hi) == i32::MIN),
    decreases hi - lo + 1,
{
    if hi >= lo {
        lemma_window_max(v, lo, hi - 1);
    }
}

/// `window_min` is a lower bound of the window's entries, and is one of
/// them unless the window holds none.
pub proof fn lemma_window_min(v: Seq<i32>, lo: int, hi: int)
    ensures
        i32::MIN <= window_min(v, lo, hi) <= i32::MAX,
        forall|p: int| lo <= p <= hi && 0 <= p < v.len() ==> v[p] >= window_min(v, lo, hi),
        (exists|p: int| lo <= p <= hi && 0 <= p < v.len() && v[p] == window_min(v, lo, hi)) || ((hi
            < lo || hi < 0 || lo >= v.len() || v.len() == 0) && window_min(v, lo, hi) == i32::MAX),
    decreases hi - lo + 1,
{
    if hi >= lo {
        lemma_window_min(v, lo, hi - 1);
    }
}

/// A window that misses the sequence has the empty window's maximum and
/// minimum.
pub proof fn lemma_window_outside(v: Seq<i32>, lo: int, hi: int)
    requires
        hi < lo || hi < 0 || lo >= v.len() || v.len() == 0,
    ensures
        window_max(v, lo, hi) == i32::MIN,
        window_min(v, lo, hi) == i32::MAX,
    decreases hi - lo + 1,
{
    if hi >= lo {
        lemma_window_outside(v, lo, hi - 1);
    }
}

/// Indices outside the sequence do not count: a window may be cut down to
/// the sequence.
pub proof fn lemma_window_clip(v: Seq<i32>, lo: int, hi: int, lo2: int, hi2: int)
    requires
        lo2 <= lo || lo2 <= 0,
        lo <= lo2 || lo <= 0,
        hi2 >= hi || hi2 >= v.len() - 1,
        hi >= hi2 || hi >= v.len() - 1,
    ensures
        window_max(v, lo, hi) == window_max(v, lo2, hi2),
        window_min(v, lo, hi) == window_min(v, lo2, hi2),
{
    lemma_window_max(v, lo, hi);
    lemma_window_max(v, lo2, hi2);
    lemma_window_min(v, lo, hi);
    lemma_window_min(v, lo2, hi2);
}

/// The maximum and minimum over two sequences laid end to end are those of
/// the two parts, the window moved along for the second.
pub proof fn lemma_window_concat(a: Seq<i32>, b: Seq<i32>, lo: int, hi: int)
    ensures
        window_max(a + b, lo, hi) == max_of(
            window_max(a, lo, hi),
            window_max(b, lo - a.len(), hi - a.len()),
        ),
        window_min(a + b, lo, hi) == min_of(
            window_min(a, lo, hi),
            window_min(b, lo - a.len(), hi - a.len()),
        ),
    decreases hi - lo + 1,
{
    if hi >= lo {
        lemma_window_concat(a, b, lo, hi - 1);
    }
}

/// Lowering every entry of a stretch to at most `val` lowers the maximum of
/// each window inside the stretch to at most `val`, and its minimum too if the
/// window holds an entry.
pub proof fn lemma_window_lowered(v: Seq<i32>, a: int, b: int, lo: int, hi: int, val: i32)
    requires
        a <= lo,
        hi <= b,
    ensures
        window_max(lowered(v, a, b, val), lo, hi) == min_of(window_max(v, lo, hi), val as int),
        !(hi < lo || hi < 0 || lo >= v.len() || v.len() == 0) ==> window_min(
            lowered(v, a, b, val),
            lo,
            hi,
        ) == min_of(window_min(v, lo, hi), val as int),
    decreases hi - lo + 1,
{
    if hi >= lo {
        lemma_window_lowered(v, a, b, lo, hi - 1, val);
        if hi - 1 < lo || hi - 1 < 0 || lo >= v.len() || v.len() == 0 {
            lemma_window_outside(v, lo, hi - 1);
            lemma_window_outside(lowered(v, a, b, val), lo, hi - 1);
        }
    }
}

/// A window cut in two has the larger of the two maxima and the smaller of
/// the two minima.
pub proof fn lemma_window_split(v: Seq<i32>, lo: int, cut: int, hi: int)
    requires
        lo - 1 <= cut <= hi,
    ensures
        window_max(v, lo, hi) == max_of(window_max(v, lo, cut), window_max(v, cut + 1, hi)),
        window_min(v, lo, hi) == min_of(window_min(v, lo, cut), window_min(v, cut + 1, hi)),
    decreases hi - cut,
{
    if cut < hi {
        lemma_window_split(v, lo, cut, hi - 1);
    } else {
        lemma_window_max(v, lo, hi);
        lemma_window_min(v, lo, hi);
    }
}

/// Two sequences that agree on a window have the same maximum and minimum
/// there.
pub proof fn lemma_window_agree(v: Seq<i32>, w: Seq<i32>, lo: int, hi: int)
    requires
        v.len() == w.len(),
        forall|p: int| lo <= p <= hi && 0 <= p < v.len() ==> v[p] == w[p],
    ensures
        window_max(v, lo, hi) == window_max(w, lo, hi),
        window_min(v, lo, hi) == window_min(w, lo, hi),
    decreases hi - lo + 1,
{
    if hi >= lo {
        lemma_window_agree(v, w, lo, hi - 1);
    }
}

/// After the entries in `[l, r]` have been lowered to at most `val`, the
/// maximum over a window `[a, b]` is the largest of three: the old maximum of
/// the part of the window before `l`, the old maximum of the part inside
/// `[l, r]` lowered to at most `val`, and the old maximum of the part after
/// `r`. Entries outside `[l, r]` count as they were, entries inside count as
/// the smaller of their old value and `val`.
pub proof fn lemma_max_after_lowering(v: Seq<i32>, l: int, r: int, val: i32, a: int, b: int)
    requires
        l <= r,
    ensures
        window_max(lowered(v, l, r, val), a, b) == max_of(
            window_max(v, a, min_of(b, l - 1)),
            max_of(
                min_of(window_max(v, max_of(a, l), min_of(b, r)), val as int),
                window_max(v, max_of(a, r + 1), b),
            ),
        ),
        forall|p: int|
            0 <= p < v.len() && l <= p <= r ==> (#[trigger] lowered(v, l, r, val)[p]) == min_of(
                v[p] as int,
                val as int,
            ),
        forall|p: int|
            0 <= p < v.len() && !(l <= p <= r) ==> (#[trigger] lowered(v, l, r, val)[p]) == v[p],
{
    let w = lowered(v, l, r, val);
    if a <= b {
        // The window falls into three stretches: up to `c1`, up to `c2`, and the rest.
        let c1 = max_of(a - 1, min_of(b, l - 1));
        let c2 = max_of(c1, min_of(b, r));
        lemma_window_split(w, a, c1, b);
        lemma_window_split(w, c1 + 1, c2, b);
        lemma_window_agree(w, v, a, c1);
        lemma_window_agree(w, v, c2 + 1, b);
        if c1 + 1 <= c2 {
            lemma_window_lowered(v, l, r, c1 + 1, c2, val);
        }
    }
}

/// Lowering a range to at most `val` a second time changes nothing: the
/// array, and with it every maximum and minimum, is what the first lowering
/// left.
pub proof fn lemma_lowering_twice(v: Seq<i32>, l: int, r: int, val: i32)
    ensures
        lowered(lowered(v, l, r, val), l, r, val) == lowered(v, l, r, val),
{
}

/// A range of one position is that position: lowering it lowers one entry,
/// and its maximum and minimum are that entry.
pub proof fn lemma_lowering_one(v: Seq<i32>, p: int, val: i32)
    requires
        0 <= p < v.len(),
    ensures
        lowered(v, p, p, val) == v.update(
            p,
            if val < v[p] {
                val
            } else {
                v[p]
            },
        ),
        window_max(v, p, p) == v[p],
        window_min(v, p, p) == v[p],
{
    assert(lowered(v, p, p, val) =~= v.update(
        p,
        if val < v[p] {
            val
        } else {
            v[p]
        },
    ));
    reveal_with_fuel(window_max, 2);
    reveal_with_fuel(window_min, 2);
}

} // verus!
