//! A segment tree over a fixed array of `i32` with two operations: add a
//! value to every entry of a range of positions, and read the whole array
//! out. An addition that covers a node's whole range is parked on the node as
//! a pending value and pushed one level down when the node is next visited;
//! only the leaves hold entries.
//!
//! Sums are taken as the machine takes them, with wrap-around at the bounds
//! of `i32`: wherever the exact sum fits, that is the exact sum.

use crate::additions::{lemma_wrapped_sum_assoc, raised, wrapped_sum};
use crate::layout::{
    descends, fits, lemma_descends_child, lemma_fits, lemma_reaches_child,
    lemma_reaches_descends, lemma_reaches_local, lemma_subtrees_disjoint, padded, padded_leaves,
    reaches,
};
use vstd::prelude::*;

verus! {

/// The entry of a single position. On a node that covers more than one
/// position the value carries no meaning.
#[derive(Copy, Clone, Debug)]
pub struct Data {
    pub val: i32,
}

/// An inclusive range of positions; `-1, -1` on a slot that holds no node.
#[derive(Copy, Clone, Debug)]
struct Range {
    start: i32,
    end: i32,
}

/// A slot of the tree: the range it covers, the entry if the range is a
/// single position, and a value that is still to be added to the entries of
/// the range.
#[derive(Copy, Clone, Debug)]
struct Node {
    data: Data,
    range: Range,
    pending: Option<i32>,
}

/// The tree, its nodes in an array: the root in slot 0, the nodes below the
/// node of slot `i` in the slots `2i + 1` and `2i + 2`.
#[derive(Debug)]
pub struct SegmentTree {
    nodes: Vec<Node>,
}

/// The pending value of a node after `v` has been pushed onto it.
spec fn merged(p: Option<i32>, v: i32) -> Option<i32> {
    match p {
        Some(w) => Some(wrapped_sum(w, v)),
        None => Some(v),
    }
}

/// A sequence with a pending value added to each entry.
spec fn bumped_seq(v: Seq<i32>, p: Option<i32>) -> Seq<i32> {
    match p {
        Some(x) => raised(v, 0, v.len() - 1, x),
        None => v,
    }
}

/// Slot `i` heads a subtree: its range is a range of positions, split at the
/// midpoint between its two children as long as it holds more than one
/// position.
spec fn shaped(nodes: Seq<Node>, i: int) -> bool
    decreases nodes.len() - i,
{
    if 0 <= i < nodes.len() {
        let n = nodes[i];
        let s = n.range.start as int;
        let e = n.range.end as int;
        if s == e {
            0 <= s
        } else if 2 * i + 2 < nodes.len() {
            let l = nodes[2 * i + 1];
            let r = nodes[2 * i + 2];
            let m = s + (e - s) / 2;
            &&& 0 <= s < e
            &&& shaped(nodes, 2 * i + 1)
            &&& shaped(nodes, 2 * i + 2)
            &&& l.range.start == s && l.range.end == m
            &&& r.range.start == m + 1 && r.range.end == e
        } else {
            false
        }
    } else {
        false
    }
}

/// The entries at the positions of slot `i`, in ascending order of position,
/// with everything parked at `i` and below it added.
spec fn vals(nodes: Seq<Node>, i: int) -> Seq<i32>
    decreases nodes.len() - i,
{
    if 0 <= i < nodes.len() {
        let n = nodes[i];
        let below = if n.range.start != n.range.end && 2 * i + 2 < nodes.len() {
            vals(nodes, 2 * i + 1) + vals(nodes, 2 * i + 2)
        } else {
            seq![n.data.val]
        };
        bumped_seq(below, n.pending)
    } else {
        Seq::empty()
    }
}

/// The slots after the pending value of slot `i` has been cleared: added to
/// the slot's own entry where the slot covers a single position, handed to
/// the two slots below it, as far as they exist, where it covers more.
spec fn pushed(nodes: Seq<Node>, i: int) -> Seq<Node> {
    match nodes[i].pending {
        Some(v) => Seq::new(
            nodes.len(),
            |j: int|
                if j == i {
                    Node {
                        data: if nodes[i].range.start == nodes[i].range.end {
                            Data { val: wrapped_sum(nodes[i].data.val, v) }
                        } else {
                            nodes[i].data
                        },
                        range: nodes[i].range,
                        pending: None,
                    }
                } else if (j == 2 * i + 1 || j == 2 * i + 2) && nodes[i].range.start
                    != nodes[i].range.end {
                    Node {
                        data: nodes[j].data,
                        range: nodes[j].range,
                        pending: merged(nodes[j].pending, v),
                    }
                } else {
                    nodes[j]
                },
        ),
        None => nodes,
    }
}

/// Two slot arrays agree outside the subtree of slot `i`.
spec fn framed(a: Seq<Node>, b: Seq<Node>, i: int) -> bool {
    &&& a.len() == b.len()
    &&& forall|j: int| 0 <= j < a.len() && !descends(i, j) ==> a[j] == b[j]
}

/// Every slot of `a` has the range that it has in `b`, and a slot without a
/// node holds what it holds in `b`.
spec fn same_layout(a: Seq<Node>, b: Seq<Node>) -> bool {
    &&& a.len() == b.len()
    &&& forall|j: int|
        0 <= j < a.len() ==> (#[trigger] a[j]).range == b[j].range && (b[j].range.start < 0
            ==> a[j] == b[j])
}

/// `a` came from `b` by work on the subtree of slot `i`.
#[verifier::opaque]
spec fn same_outside(a: Seq<Node>, b: Seq<Node>, i: int) -> bool {
    &&& framed(a, b, i)
    &&& same_layout(a, b)
}

/// Two slot arrays agree wherever the first holds no node of the tree below
/// slot `i`.
spec fn built_only(a: Seq<Node>, b: Seq<Node>, i: int) -> bool {
    &&& a.len() == b.len()
    &&& forall|j: int| 0 <= j < a.len() && !reaches(inner(a), i, j) ==> a[j] == b[j]
}

/// Two slot arrays differ in slot `i` and in the two slots below it at most.
spec fn same_but_near(a: Seq<Node>, b: Seq<Node>, i: int) -> bool {
    &&& a.len() == b.len()
    &&& forall|j: int|
        0 <= j < a.len() && j != i && j != 2 * i + 1 && j != 2 * i + 2 ==> a[j] == b[j]
}

/// Which slots hold a node with nodes below it.
spec fn inner(nodes: Seq<Node>) -> spec_fn(int) -> bool {
    |p: int| 0 <= p < nodes.len() && nodes[p].range.start != nodes[p].range.end
}

/// What a slot without a node holds: the range `-1, -1`, the value 0 and
/// nothing pending.
spec fn is_sentinel(n: Node) -> bool {
    &&& n.range.start == -1
    &&& n.range.end == -1
    &&& n.data.val == 0
    &&& n.pending is None
}

/// Every slot that the tree does not reach holds no node.
spec fn rest_is_sentinel(nodes: Seq<Node>) -> bool {
    forall|j: int|
        0 <= j < nodes.len() && !reaches(inner(nodes), 0, j) ==> is_sentinel(#[trigger] nodes[j])
}

/// Work on a subtree is work on every subtree that holds it.
proof fn lemma_widen(a: Seq<Node>, b: Seq<Node>, i: int, c: int)
    requires
        0 <= i,
        c == 2 * i + 1 || c == 2 * i + 2,
        same_outside(a, b, c),
    ensures
        same_outside(a, b, i),
{
    reveal(same_outside);
    assert forall|j: int| 0 <= j < a.len() && !descends(i, j) implies a[j] == b[j] by {
        if descends(c, j) {
            lemma_descends_child(i, j);
        }
    }
}

/// Work on a subtree after work on the same subtree.
proof fn lemma_then(a: Seq<Node>, b: Seq<Node>, c: Seq<Node>, i: int)
    requires
        same_outside(a, b, i),
        same_outside(b, c, i),
    ensures
        same_outside(a, c, i),
{
    reveal(same_outside);
}

/// A change to the value or the pending value of a node is work on its
/// subtree.
proof fn lemma_write(a: Seq<Node>, b: Seq<Node>, i: int)
    requires
        0 <= i < a.len() == b.len(),
        forall|j: int| 0 <= j < a.len() && j != i ==> a[j] == b[j],
        a[i].range == b[i].range,
        b[i].range.start >= 0,
    ensures
        same_outside(a, b, i),
{
    reveal(same_outside);
}

/// Slots without a node stay so under work on a subtree.
proof fn lemma_keeps_sentinels(a: Seq<Node>, b: Seq<Node>, i: int)
    requires
        same_outside(a, b, i),
    ensures
        rest_is_sentinel(b) ==> rest_is_sentinel(a),
{
    reveal(same_outside);
    if rest_is_sentinel(b) {
        assert forall|j: int| 0 <= j < a.len() && !reaches(inner(a), 0, j) implies is_sentinel(
            #[trigger] a[j],
        ) by {
            lemma_reaches_local(inner(a), inner(b), 0, j);
        }
    }
}

/// What was built below slot `i` lies in the subtree of slot `i`.
proof fn lemma_built_framed(a: Seq<Node>, b: Seq<Node>, i: int)
    requires
        built_only(a, b, i),
    ensures
        framed(a, b, i),
{
    assert forall|j: int| 0 <= j < a.len() && !descends(i, j) implies a[j] == b[j] by {
        if reaches(inner(a), i, j) {
            lemma_reaches_descends(inner(a), i, j);
        }
    }
}

/// What was built below a child of slot `i` belongs to the tree below slot
/// `i` once slot `i` holds a node with nodes below it, as long as the child's
/// subtree stays as it was built.
proof fn lemma_built_child(a: Seq<Node>, b: Seq<Node>, i: int, c: int)
    requires
        0 <= i < a.len(),
        c == 2 * i + 1 || c == 2 * i + 2,
        a.len() == b.len(),
        forall|k: int| 0 <= k < a.len() && descends(c, k) ==> a[k] == b[k],
        a[i].range.start != a[i].range.end,
    ensures
        forall|j: int| reaches(inner(b), c, j) ==> reaches(inner(a), i, j),
{
    assert forall|j: int| reaches(inner(b), c, j) implies reaches(inner(a), i, j) by {
        lemma_reaches_local(inner(b), inner(a), c, j);
        lemma_reaches_child(inner(a), i, c, j);
    }
}

/// What `shaped` and `vals` say of slot `k` depends on the slots of its
/// subtree alone.
proof fn lemma_local(a: Seq<Node>, b: Seq<Node>, k: int)
    requires
        a.len() == b.len(),
        forall|j: int| 0 <= j < a.len() && descends(k, j) ==> a[j] == b[j],
    ensures
        shaped(a, k) == shaped(b, k),
        vals(a, k) == vals(b, k),
    decreases a.len() - k,
{
    if 0 <= k < a.len() {
        if 2 * k + 2 < a.len() {
            assert forall|j: int| 0 <= j < a.len() && descends(2 * k + 1, j) implies a[j]
                == b[j] by {
                lemma_descends_child(k, j);
            }
            assert forall|j: int| 0 <= j < a.len() && descends(2 * k + 2, j) implies a[j]
                == b[j] by {
                lemma_descends_child(k, j);
            }
            lemma_local(a, b, 2 * k + 1);
            lemma_local(a, b, 2 * k + 2);
        }
    }
}

/// A change inside one child's subtree leaves the other child's subtree, and
/// the parent's slot, as they were.
proof fn lemma_sibling(a: Seq<Node>, b: Seq<Node>, i: int, changed: int, other: int)
    requires
        0 <= i,
        framed(a, b, changed),
        (changed == 2 * i + 1 && other == 2 * i + 2) || (changed == 2 * i + 2 && other == 2 * i
            + 1),
    ensures
        shaped(a, other) == shaped(b, other),
        vals(a, other) == vals(b, other),
        other < a.len() ==> a[other] == b[other],
        i < a.len() ==> a[i] == b[i],
{
    assert forall|j: int| 0 <= j < a.len() && descends(other, j) implies a[j] == b[j] by {
        lemma_subtrees_disjoint(i, j);
    }
    lemma_local(a, b, other);
}

/// Work on one child's subtree leaves the other child's subtree and the
/// parent as they were.
proof fn lemma_beside(a: Seq<Node>, b: Seq<Node>, i: int, changed: int, other: int)
    requires
        0 <= i,
        same_outside(a, b, changed),
        (changed == 2 * i + 1 && other == 2 * i + 2) || (changed == 2 * i + 2 && other == 2 * i
            + 1),
    ensures
        shaped(a, other) == shaped(b, other),
        vals(a, other) == vals(b, other),
        other < a.len() ==> a[other] == b[other],
        i < a.len() ==> a[i] == b[i],
{
    reveal(same_outside);
    lemma_sibling(a, b, i, changed, other);
}

/// A change to slot `i` alone leaves both subtrees below it as they were.
proof fn lemma_keep_children(a: Seq<Node>, b: Seq<Node>, i: int)
    requires
        0 <= i,
        a.len() == b.len(),
        forall|j: int| 0 <= j < a.len() && j != i ==> a[j] == b[j],
    ensures
        shaped(a, 2 * i + 1) == shaped(b, 2 * i + 1),
        shaped(a, 2 * i + 2) == shaped(b, 2 * i + 2),
        vals(a, 2 * i + 1) == vals(b, 2 * i + 1),
        vals(a, 2 * i + 2) == vals(b, 2 * i + 2),
{
    lemma_local(a, b, 2 * i + 1);
    lemma_local(a, b, 2 * i + 2);
}

/// A subtree holds one entry for each position of its range.
proof fn lemma_extent_of(nodes: Seq<Node>, i: int)
    requires
        shaped(nodes, i),
    ensures
        0 <= nodes[i].range.start <= nodes[i].range.end,
        vals(nodes, i).len() == nodes[i].range.end - nodes[i].range.start + 1,
    decreases nodes.len() - i,
{
    if nodes[i].range.start != nodes[i].range.end {
        lemma_extent_of(nodes, 2 * i + 1);
        lemma_extent_of(nodes, 2 * i + 2);
    }
}

/// Pushing a pending value one level down changes neither the shape of the
/// subtree nor the entries it stands for, and touches nothing outside it.
proof fn lemma_pushed(nodes: Seq<Node>, i: int)
    requires
        shaped(nodes, i),
    ensures
        shaped(pushed(nodes, i), i),
        vals(pushed(nodes, i), i) == vals(nodes, i),
        same_outside(pushed(nodes, i), nodes, i),
        pushed(nodes, i)[i].pending is None,
        pushed(nodes, i)[i].range == nodes[i].range,
{
    assert(descends(i, i));
    reveal(same_outside);
    if nodes[i].pending is Some && nodes[i].range.start != nodes[i].range.end {
        lemma_pushed_child(nodes, i, 2 * i + 1);
        lemma_pushed_child(nodes, i, 2 * i + 2);
    }
}

/// The part of `lemma_pushed` that concerns one child `c` of slot `i`.
proof fn lemma_pushed_child(nodes: Seq<Node>, i: int, c: int)
    requires
        0 <= i,
        c == 2 * i + 1 || c == 2 * i + 2,
        2 * i + 2 < nodes.len(),
        nodes[i].pending is Some,
        nodes[i].range.start != nodes[i].range.end,
        shaped(nodes, c),
    ensures
        shaped(pushed(nodes, i), c),
        vals(pushed(nodes, i), c) == bumped_seq(vals(nodes, c), nodes[i].pending),
{
    let after = pushed(nodes, i);
    let n = nodes[c];
    let below = if n.range.start != n.range.end {
        // The slots below `c` are as they were.
        lemma_local(after, nodes, 2 * c + 1);
        lemma_local(after, nodes, 2 * c + 2);
        vals(nodes, 2 * c + 1) + vals(nodes, 2 * c + 2)
    } else {
        seq![n.data.val]
    };
    // What `c` had pending is added first, what `i` hands down after it; the
    // sum of the two is what `c` has pending now.
    assert forall|k: int| 0 <= k < below.len() && n.pending is Some implies wrapped_sum(
        wrapped_sum(below[k], n.pending->0),
        nodes[i].pending->0,
    ) == wrapped_sum(below[k], wrapped_sum(n.pending->0, nodes[i].pending->0)) by {
        lemma_wrapped_sum_assoc(below[k], n.pending->0, nodes[i].pending->0);
    }
}

impl View for SegmentTree {
    type V = Seq<i32>;

    /// The array that the tree stands for.
    open spec fn view(&self) -> Seq<i32> {
        self.values(0)
    }
}

impl SegmentTree {
    /// The number of slots of the node array.
    pub closed spec fn spec_slots(&self) -> usize {
        self.nodes.len()
    }

    /// The number of slots of the node array.
    #[verifier::when_used_as_spec(spec_slots)]
    pub fn slots(&self) -> (n: usize)
        ensures
            n == self.spec_slots(),
    {
        self.nodes.len()
    }

    /// The number of positions of the array that the tree was built over.
    pub closed spec fn spec_len(&self) -> usize {
        if self.nodes.len() > 0 && self.nodes[0].range.end >= 0 {
            (self.nodes[0].range.end + 1) as usize
        } else {
            0
        }
    }

    /// The number of positions of the array that the tree was built over.
    #[verifier::when_used_as_spec(spec_len)]
    pub fn len(&self) -> (n: usize)
        ensures
            n == self.spec_len(),
    {
        if self.nodes.len() > 0 && self.nodes[0].range.end >= 0 {
            self.nodes[0].range.end as usize + 1
        } else {
            0
        }
    }

    /// Slot `i` holds a node, and the subtree below it is consistent: ranges
    /// split at their midpoints down to single positions.
    pub closed spec fn is_subtree(&self, i: int) -> bool {
        shaped(self.nodes@, i)
    }

    /// The first position of the range of node `i`.
    pub closed spec fn first(&self, i: int) -> int {
        self.nodes[i].range.start as int
    }

    /// The last position of the range of node `i`.
    pub closed spec fn last(&self, i: int) -> int {
        self.nodes[i].range.end as int
    }

    /// The entries at the positions of node `i`, first position first, as the
    /// subtree of `i` records them: with every addition made that reached
    /// node `i`, whether or not it has been pushed further down.
    pub closed spec fn values(&self, i: int) -> Seq<i32> {
        vals(self.nodes@, i)
    }

    /// The tree has the slots that `before` has and the same node in each
    /// slot that does not belong to the subtree of node `i`; every slot has
    /// kept its range, and a slot without a node all that it held.
    pub closed spec fn unchanged_outside(&self, before: &SegmentTree, i: int) -> bool {
        same_outside(self.nodes@, before.nodes@, i)
    }

    /// The tree differs from `before` in slot `i` and in the two slots below
    /// it at most: nothing further down was visited.
    pub closed spec fn changed_near(&self, before: &SegmentTree, i: int) -> bool {
        same_but_near(self.nodes@, before.nodes@, i)
    }

    /// Every slot that is not reached from the root by stepping down from
    /// nodes that cover more than one position is padding: it holds the range
    /// `-1, -1`, the value 0 and nothing pending.
    pub closed spec fn rest_is_padding(&self) -> bool {
        rest_is_sentinel(self.nodes@)
    }

    /// The whole tree is consistent, starts at position 0, and is padded
    /// around.
    pub open spec fn wf(&self) -> bool {
        &&& self.is_subtree(0)
        &&& self.first(0) == 0
        &&& self.rest_is_padding()
    }

    /// A node covers at least one position, and holds one entry for each
    /// position it covers; the root covers the whole array, so the array that
    /// a consistent tree stands for has as many entries as the array it was
    /// built over.
    pub proof fn lemma_extent(&self, i: int)
        requires
            self.is_subtree(i),
        ensures
            0 <= self.first(i) <= self.last(i),
            self.values(i).len() == self.last(i) - self.first(i) + 1,
            i == 0 ==> self.len() == self.last(0) + 1,
            i == 0 && self.first(0) == 0 ==> self@.len() == self.len(),
    {
        lemma_extent_of(self.nodes@, i);
    }

    /// A node that covers more than one position has two nodes below it, in
    /// the slots `2i + 1` and `2i + 2`: the first covers its range up to the
    /// midpoint, the second the rest.
    pub proof fn lemma_children(&self, i: int)
        requires
            self.is_subtree(i),
            self.first(i) < self.last(i),
        ensures
            2 * i + 2 < self.slots(),
            self.is_subtree(2 * i + 1),
            self.is_subtree(2 * i + 2),
            self.first(2 * i + 1) == self.first(i),
            self.last(2 * i + 1) == self.first(i) + (self.last(i) - self.first(i)) / 2,
            self.first(2 * i + 2) == self.last(2 * i + 1) + 1,
            self.last(2 * i + 2) == self.last(i),
    {
    }

    /// Builds the tree over `data`: the array it stands for is `data`, held in
    /// `2 * padded(n) - 1` slots for `n` entries.
    pub fn new(data: &Vec<i32>) -> (tree: Self)
        requires
            1 <= data.len() <= 0x8000_0000,
        ensures
            tree.wf(),
            tree@ == data@,
            tree.len() == data.len(),
            tree.slots() == 2 * padded(data.len() as nat) - 1,
    {
        let leaves = padded_leaves(data.len());
        let tree_size = leaves - 1 + leaves;
        let mut nodes: Vec<Node> = vec![
            Node { range: Range { start: -1, end: -1 }, data: Data { val: 0 }, pending: None };
            tree_size
        ];
        proof {
            lemma_fits(tree_size as int, 0, data.len() as nat);
        }
        SegmentTree::build_tree(&mut nodes, 0, data, 0, (data.len() - 1) as i32);
        assert(rest_is_sentinel(nodes@));
        Self { nodes }
    }

    /// Adds `val` to every entry at a position in `[start, end]`, within the
    /// subtree of node `i`. Called on the root (`i == 0`) of a consistent tree
    /// it updates the array and leaves the tree consistent.
    ///
    /// A node whose range lies inside `[start, end]` is not descended into: a
    /// single position takes the addition on the spot, a longer range has
    /// `val` parked on it.
    pub fn range_update(&mut self, i: usize, val: i32, start: i32, end: i32)
        requires
            old(self).is_subtree(i as int),
            0 <= start <= end < old(self).len(),
        ensures
            final(self).is_subtree(i as int),
            final(self).first(i as int) == old(self).first(i as int),
            final(self).last(i as int) == old(self).last(i as int),
            final(self).len() == old(self).len(),
            final(self).slots() == old(self).slots(),
            final(self).unchanged_outside(old(self), i as int),
            old(self).rest_is_padding() ==> final(self).rest_is_padding(),
            end < old(self).first(i as int) || old(self).last(i as int) < start || (start
                <= old(self).first(i as int) && old(self).last(i as int) <= end)
                ==> final(self).changed_near(old(self), i as int),
            old(self).wf() && i == 0 ==> final(self).wf() && final(self)@ == raised(
                old(self)@,
                start as int,
                end as int,
                val,
            ),
            final(self).values(i as int) == raised(
                old(self).values(i as int),
                start - old(self).first(i as int),
                end - old(self).first(i as int),
                val,
            ),
        decreases old(self).last(i as int) - old(self).first(i as int),
    {
        let ghost before = self.nodes@;
        let ghost at = i as int;
        self.propagate_pending_update(i);
        let ghost settled = self.nodes@;
        let node_start = self.nodes[i].range.start;
        let node_end = self.nodes[i].range.end;
        proof {
            lemma_extent_of(settled, at);
            lemma_keeps_sentinels(settled, before, at);
        }
        if start > node_end || end < node_start {
            return ;
        }
        if node_start >= start && node_end <= end {
            if node_start == node_end {
                self.nodes[i].data.val = self.nodes[i].data.val.wrapping_add(val);
            } else {
                self.nodes[i].pending = Some(val);
            }
            proof {
                let done = self.nodes@;
                lemma_write(done, settled, at);
                lemma_then(done, settled, before, at);
                if node_start != node_end {
                    lemma_keep_children(settled, done, at);
                }
                lemma_keeps_sentinels(done, before, at);
            }
            return ;
        }
        let ghost l = 2 * at + 1;
        let ghost r = 2 * at + 2;
        proof {
            lemma_extent_of(settled, l);
        }
        self.range_update(2 * i + 1, val, start, end);
        let ghost halfway = self.nodes@;
        proof {
            lemma_beside(halfway, settled, at, l, r);
        }
        self.range_update(2 * i + 2, val, start, end);
        proof {
            let done = self.nodes@;
            lemma_beside(done, halfway, at, r, l);
            lemma_widen(halfway, settled, at, l);
            lemma_widen(done, halfway, at, r);
            lemma_then(halfway, settled, before, at);
            lemma_then(done, halfway, before, at);
        }
    }

    /// Appends to `out` the entries at the positions of node `i`, first
    /// position first: one for each position, and no other. Pending values
    /// met on the way are pushed down, so each leaf is read with everything
    /// added that reached node `i`; the array that the tree stands for stays
    /// as it is. Called on the root it appends the whole array.
    pub fn get_leaves(&mut self, i: usize, out: &mut Vec<i32>)
        requires
            old(self).is_subtree(i as int),
        ensures
            final(self).is_subtree(i as int),
            final(self).first(i as int) == old(self).first(i as int),
            final(self).last(i as int) == old(self).last(i as int),
            final(self).len() == old(self).len(),
            final(self).slots() == old(self).slots(),
            final(self).unchanged_outside(old(self), i as int),
            old(self).rest_is_padding() ==> final(self).rest_is_padding(),
            old(self).wf() && i == 0 ==> final(self).wf() && final(self)@ == old(self)@
                && final(out)@ == old(out)@ + old(self)@ && old(self)@.len() == old(
                self,
            ).len(),
            final(self).values(i as int) == old(self).values(i as int),
            final(out)@ == old(out)@ + old(self).values(i as int),
            final(out)@.len() == old(out)@.len() + (old(self).last(i as int) - old(self).first(
                i as int,
            ) + 1),
        decreases old(self).last(i as int) - old(self).first(i as int),
    {
        let ghost before = self.nodes@;
        let ghost at = i as int;
        self.propagate_pending_update(i);
        let ghost settled = self.nodes@;
        proof {
            lemma_keeps_sentinels(settled, before, at);
        }
        if self.nodes[i].range.start == self.nodes[i].range.end {
            out.push(self.nodes[i].data.val);
        } else {
            let ghost l = 2 * at + 1;
            let ghost r = 2 * at + 2;
            assert(2 * i + 2 < self.nodes.len());
            self.get_leaves(2 * i + 1, out);
            let ghost halfway = self.nodes@;
            proof {
                lemma_beside(halfway, settled, at, l, r);
            }
            self.get_leaves(2 * i + 2, out);
            proof {
                let done = self.nodes@;
                lemma_beside(done, halfway, at, r, l);
                lemma_widen(halfway, settled, at, l);
                lemma_widen(done, halfway, at, r);
                lemma_then(halfway, settled, before, at);
                lemma_then(done, halfway, before, at);
            }
        }
    }

    /// Fills slot `i` and the slots below it with the tree over the positions
    /// `[start, end]` of `data`, and returns what slot `i` holds: the entry of
    /// a single position, zero on a longer range.
    fn build_tree(nodes: &mut Vec<Node>, i: usize, data: &Vec<i32>, start: i32, end: i32) -> (r:
        Data)
        requires
            fits(old(nodes).len() as int, i as int, end - start + 1),
            0 <= start <= end < data.len(),
        ensures
            built_only(final(nodes)@, old(nodes)@, i as int),
            shaped(final(nodes)@, i as int),
            final(nodes)[i as int].range.start == start,
            final(nodes)[i as int].range.end == end,
            final(nodes)[i as int].pending is None,
            final(nodes)[i as int].data == r,
            r.val == (if start == end {
                data[start as int]
            } else {
                0
            }),
            vals(final(nodes)@, i as int) == data@.subrange(start as int, end + 1),
        decreases end - start,
    {
        let ghost before = nodes@;
        if start == end {
            nodes[i] = Node {
                data: Data { val: data[start as usize] },
                range: Range { start, end },
                pending: None,
            };
            return nodes[i].data;
        }
        let m: i32 = start + (end - start) / 2;
        let ghost l = 2 * i as int + 1;
        let ghost r = 2 * i as int + 2;
        assert(fits(nodes.len() as int, r, (end - start + 1) / 2));
        SegmentTree::build_tree(nodes, 2 * i + 1, data, start, m);
        let ghost halfway = nodes@;
        SegmentTree::build_tree(nodes, 2 * i + 2, data, m + 1, end);
        let ghost both = nodes@;
        proof {
            lemma_built_framed(both, halfway, r);
            lemma_sibling(both, halfway, i as int, r, l);
        }
        nodes[i] = Node { data: Data { val: 0 }, range: Range { start, end }, pending: None };
        proof {
            let done = nodes@;
            lemma_keep_children(both, done, i as int);
            assert(built_only(done, before, i as int)) by {
                assert forall|k: int| 0 <= k < done.len() && descends(l, k) implies done[k]
                    == halfway[k] by {
                    lemma_subtrees_disjoint(i as int, k);
                }
                lemma_built_child(done, halfway, i as int, l);
                lemma_built_child(done, both, i as int, r);
            }
        }
        nodes[i].data
    }

    /// Clears the pending value of slot `i`: a slot that covers a single
    /// position adds it to its entry, a slot that covers more hands it to the
    /// slots `2i + 1` and `2i + 2`, where it is added to what is parked there
    /// already. One level only: what is handed down stays parked until the
    /// slot below is visited. A node with nothing pending is left as it is.
    /// The entries that the node stands for are the same before and after.
    fn propagate_pending_update(&mut self, i: usize)
        requires
            old(self).is_subtree(i as int),
        ensures
            final(self).nodes@ == pushed(old(self).nodes@, i as int),
            old(self).nodes[i as int].pending is None ==> final(self).nodes@ == old(self).nodes@,
            final(self).nodes[i as int].pending is None,
            final(self).is_subtree(i as int),
            final(self).values(i as int) == old(self).values(i as int),
            final(self).unchanged_outside(old(self), i as int),
            final(self).changed_near(old(self), i as int),
    {
        proof {
            lemma_pushed(self.nodes@, i as int);
        }
        match self.nodes[i].pending {
            Some(val) => {
                self.nodes[i].pending = None;
                if self.nodes[i].range.start == self.nodes[i].range.end {
                    self.nodes[i].data.val = self.nodes[i].data.val.wrapping_add(val);
                } else {
                    let len = self.nodes.len();
                    if i < len / 2 {
                        let left_i = 2 * i + 1;
                        self.nodes[left_i].pending = match self.nodes[left_i].pending {
                            Some(old_val) => Some(old_val.wrapping_add(val)),
                            None => Some(val),
                        };
                    }
                    if i < (len - 1) / 2 {
                        let right_i = 2 * i + 2;
                        self.nodes[right_i].pending = match self.nodes[right_i].pending {
                            Some(old_val) => Some(old_val.wrapping_add(val)),
                            None => Some(val),
                        };
                    }
                }
            },
            None => {},
        }
    }
}

} // verus!
