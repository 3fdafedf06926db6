//! Index arithmetic of a binary tree stored in an array: the root sits at
//! index 0 and the children of node `i` at `2i + 1` and `2i + 2`.
//!
//! A tree over `n` positions splits each range at its midpoint, the left half
//! taking the extra position of an odd range. The array that holds it has
//! `2 * padded(n) - 1` slots, where `padded(n)` is the least power of two that
//! is not below `n`.

use vstd::arithmetic::power2::{lemma2_to64, lemma_pow2_unfold, pow2};
use vstd::prelude::*;

verus! {

/// Node `j` lies in the subtree whose root is node `i`.
pub open spec fn descends(i: int, j: int) -> bool
    decreases j,
{
    if i < 0 || j < i {
        false
    } else if j == i {
        true
    } else {
        descends(i, (j - 1) / 2)
    }
}

/// Node `j` is node `i` or is reached from it by stepping down from nodes
/// that have nodes below them; `inner(p)` says whether node `p` has.
pub open spec fn reaches(inner: spec_fn(int) -> bool, i: int, j: int) -> bool
    decreases j,
{
    if i < 0 || j < i {
        false
    } else if j == i {
        true
    } else {
        reaches(inner, i, (j - 1) / 2) && inner((j - 1) / 2)
    }
}

/// The least power of two that is at least `n` (1 for `n == 0`).
pub open spec fn padded(n: nat) -> nat
    decreases n,
{
    if n <= 1 {
        1
    } else {
        2 * padded((n + 1) / 2)
    }
}

/// An array of `len` slots has room for node `i` and for everything below it
/// when node `i` covers `size` positions.
pub open spec fn fits(len: int, i: int, size: int) -> bool
    decreases size,
{
    &&& 0 <= i < len
    &&& size >= 2 ==> fits(len, 2 * i + 1, (size + 1) / 2) && fits(len, 2 * i + 2, size / 2)
}

/// What lies below a child lies below its parent, and is not the parent.
pub proof fn lemma_descends_child(i: int, j: int)
    requires
        0 <= i,
        descends(2 * i + 1, j) || descends(2 * i + 2, j),
    ensures
        descends(i, j),
        j > i,
    decreases j,
{
    if j == 2 * i + 1 || j == 2 * i + 2 {
        assert(descends(i, i));
    } else {
        lemma_descends_child(i, (j - 1) / 2);
    }
}

/// The two subtrees below a node share no node.
pub proof fn lemma_subtrees_disjoint(i: int, j: int)
    requires
        0 <= i,
    ensures
        !(descends(2 * i + 1, j) && descends(2 * i + 2, j)),
    decreases j,
{
    if j > 2 * i + 2 {
        lemma_subtrees_disjoint(i, (j - 1) / 2);
    } else if j == 2 * i + 2 {
        assert(!descends(2 * i + 1, i));
    }
}

/// What is reached from a node lies in its subtree.
pub proof fn lemma_reaches_descends(inner: spec_fn(int) -> bool, i: int, j: int)
    requires
        reaches(inner, i, j),
    ensures
        descends(i, j),
    decreases j,
{
    if j > i {
        lemma_reaches_descends(inner, i, (j - 1) / 2);
    }
}

/// What is reached from a node depends on the nodes of its subtree alone.
pub proof fn lemma_reaches_local(
    f: spec_fn(int) -> bool,
    g: spec_fn(int) -> bool,
    i: int,
    j: int,
)
    requires
        forall|k: int| descends(i, k) ==> f(k) == g(k),
    ensures
        reaches(f, i, j) == reaches(g, i, j),
    decreases j,
{
    if 0 <= i < j {
        lemma_reaches_local(f, g, i, (j - 1) / 2);
        if reaches(f, i, (j - 1) / 2) {
            lemma_reaches_descends(f, i, (j - 1) / 2);
        }
    }
}

/// What is reached from a child is reached from its parent, if the parent
/// has children.
pub proof fn lemma_reaches_child(inner: spec_fn(int) -> bool, i: int, c: int, j: int)
    requires
        0 <= i,
        c == 2 * i + 1 || c == 2 * i + 2,
        inner(i),
        reaches(inner, c, j),
    ensures
        reaches(inner, i, j),
    decreases j,
{
    if j == c {
        assert(reaches(inner, i, i));
    } else {
        lemma_reaches_child(inner, i, c, (j - 1) / 2);
    }
}

/// `padded` never decreases.
pub proof fn lemma_padded_monotone(a: nat, b: nat)
    requires
        a <= b,
    ensures
        padded(a) <= padded(b),
    decreases b,
{
    if b > 1 && a > 1 {
        lemma_padded_monotone((a + 1) / 2, (b + 1) / 2);
    } else if b > 1 {
        lemma_padded_monotone(1, (b + 1) / 2);
    }
}

/// `padded(n)` stays below every power of two that `n` stays below.
pub proof fn lemma_padded_le_pow2(n: nat, k: nat)
    requires
        n <= pow2(k),
    ensures
        n <= padded(n) <= pow2(k),
    decreases k,
{
    if n > 1 {
        if k == 0 {
            assert(pow2(0) == 1) by {
                lemma2_to64();
            }
        } else {
            lemma_pow2_unfold(k);
            lemma_padded_le_pow2((n + 1) / 2, (k - 1) as nat);
        }
    } else {
        assert(pow2(k) >= 1) by {
            vstd::arithmetic::power2::lemma_pow2_pos(k);
        }
    }
}

/// `padded(n)` is a power of two, and the one below it, if there is one, is
/// below `n`: it is two to the least `k` with `n <= 2^k`.
pub proof fn lemma_padded_is_least_pow2(n: nat) -> (k: nat)
    ensures
        padded(n) == pow2(k),
        n <= pow2(k),
        k > 0 ==> pow2((k - 1) as nat) < n,
    decreases n,
{
    lemma2_to64();
    if n <= 1 {
        0
    } else {
        let k = lemma_padded_is_least_pow2((n + 1) / 2);
        lemma_pow2_unfold(k + 1);
        if k > 0 {
            lemma_pow2_unfold(k);
        }
        k + 1
    }
}

/// An array of `2 * padded(n) - 1` slots holds the whole tree over `n`
/// positions; more generally, node `i` with `size` positions fits wherever
/// `(i + 2) * padded(size)` does not exceed the slot count plus one.
pub proof fn lemma_fits(len: int, i: int, size: nat)
    requires
        0 <= i,
        1 <= size,
        (i + 2) * padded(size) <= len + 1,
    ensures
        fits(len, i, size as int),
    decreases size,
{
    let p = padded(size) as int;
    assert(p >= 1) by {
        lemma_padded_monotone(0, size);
    }
    assert(i + 2 <= (i + 2) * p) by (nonlinear_arith)
        requires
            p >= 1,
            i >= 0,
    ;
    if size >= 2 {
        let big = ((size + 1) / 2) as nat;
        let small = (size / 2) as nat;
        let q = padded(big) as int;
        let r = padded(small) as int;
        assert(1 <= r <= q) by {
            lemma_padded_monotone(small, big);
            lemma_padded_monotone(0, small);
        }
        assert((2 * i + 1 + 2) * q <= (i + 2) * p) by (nonlinear_arith)
            requires
                p == 2 * q,
                q >= 1,
                i >= 0,
        ;
        assert((2 * i + 2 + 2) * r <= (i + 2) * p) by (nonlinear_arith)
            requires
                p == 2 * q,
                1 <= r <= q,
                i >= 0,
        ;
        lemma_fits(len, 2 * i + 1, big);
        lemma_fits(len, 2 * i + 2, small);
    }
}

/// Returns `padded(n)`: the number of leaves of the smallest complete binary
/// tree with at least `n` leaves.
pub fn padded_leaves(n: usize) -> (p: usize)
    requires
        n <= 0x8000_0000,
    ensures
        p == padded(n as nat),
        n <= p <= 0x8000_0000,
    decreases n,
{
    proof {
        lemma2_to64();
        lemma_padded_le_pow2(n as nat, 31);
    }
    if n <= 1 {
        1
    } else {
        let half = padded_leaves(n / 2 + n % 2);
        2 * half
    }
}

} // verus!
