//! A schedule of additions to an array: a list of operations, each an
//! addition to a range of positions, and a list of requests, each asking for
//! a run of consecutive operations to be applied once. An operation that
//! several requests ask for is applied once with its value multiplied by
//! their number. Products and sums wrap around as the machine's do.

use crate::additions::{
    lemma_sum_of_additions, lemma_wrapped, raised_all, total_at, wrapped, Operation,
};
use crate::range_add::SegmentTree;
use vstd::prelude::*;

verus! {

/// A run of operations: the first and the last of them, counted from 0.
#[derive(Copy, Clone, Debug, PartialEq, Eq)]
pub struct Request {
    pub first: usize,
    pub last: usize,
}

/// What a line of numbers says of an operation: the first and the last
/// position counted from 1, then the value. `None` if a number is lacking or
/// a position is below every position that can be counted from 1.
pub open spec fn decoded_operation(fields: Seq<i32>) -> Option<Operation> {
    if fields.len() < 3 || fields[0] == i32::MIN || fields[1] == i32::MIN {
        None
    } else {
        Some(
            Operation {
                start: (fields[0] - 1) as i32,
                end: (fields[1] - 1) as i32,
                val: fields[2],
            },
        )
    }
}

/// What a line of numbers says of a request: the first and the last
/// operation counted from 1. `None` if a number is lacking or below 1.
pub open spec fn decoded_request(fields: Seq<i32>) -> Option<Request> {
    if fields.len() < 2 || fields[0] < 1 || fields[1] < 1 {
        None
    } else {
        Some(Request { first: (fields[0] - 1) as usize, last: (fields[1] - 1) as usize })
    }
}

/// Decodes the numbers of one line as an operation.
pub fn decode_operation(fields: &Vec<i32>) -> (op: Option<Operation>)
    ensures
        op == decoded_operation(fields@),
{
    if fields.len() < 3 || fields[0] == i32::MIN || fields[1] == i32::MIN {
        None
    } else {
        Some(Operation { start: fields[0] - 1, end: fields[1] - 1, val: fields[2] })
    }
}

/// Decodes the numbers of one line as a request.
pub fn decode_request(fields: &Vec<i32>) -> (request: Option<Request>)
    ensures
        request == decoded_request(fields@),
{
    if fields.len() < 2 || fields[0] < 1 || fields[1] < 1 {
        None
    } else {
        Some(Request { first: (fields[0] - 1) as usize, last: (fields[1] - 1) as usize })
    }
}

/// How many of the requests ask for operation `j`.
pub open spec fn times_asked(requests: Seq<Request>, j: int) -> int
    decreases requests.len(),
{
    if requests.len() == 0 {
        0
    } else {
        times_asked(requests.drop_last(), j) + if requests.last().first <= j
            <= requests.last().last {
            1int
        } else {
            0int
        }
    }
}

/// The operations, each with its value multiplied by the number of requests
/// that ask for it.
pub open spec fn scaled(ops: Seq<Operation>, requests: Seq<Request>) -> Seq<Operation> {
    Seq::new(
        ops.len(),
        |j: int|
            Operation {
                start: ops[j].start,
                end: ops[j].end,
                val: ops[j].val.wrapping_mul(times_asked(requests, j) as i32),
            },
    )
}

/// The exact sum, over the operations whose range holds position `p`, of the
/// operation's value times the number of requests that ask for it.
pub open spec fn asked_total(ops: Seq<Operation>, requests: Seq<Request>, p: int) -> int
    decreases ops.len(),
{
    if ops.len() == 0 {
        0
    } else {
        let j = ops.len() - 1;
        asked_total(ops.drop_last(), requests, p) + if ops[j].start <= p <= ops[j].end {
            ops[j].val * times_asked(requests, j)
        } else {
            0
        }
    }
}

/// The schedule can be run on an array of `n` entries: the array is not
/// empty and not longer than positions can count, every operation is an
/// addition to a range of its positions, every request a run of the
/// operations, and the requests are no more than can be counted.
pub open spec fn runs_on(n: int, ops: Seq<Operation>, requests: Seq<Request>) -> bool {
    &&& 1 <= n <= 0x8000_0000
    &&& ops.len() < usize::MAX
    &&& requests.len() <= i32::MAX
    &&& forall|j: int| 0 <= j < ops.len() ==> 0 <= (#[trigger] ops[j]).start <= ops[j].end < n
    &&& forall|q: int|
        0 <= q < requests.len() ==> (#[trigger] requests[q]).first <= requests[q].last
            < ops.len()
}

/// The sum of the first `k` entries.
spec fn partial_sum(diff: Seq<i32>, k: int) -> int
    decreases k,
{
    if k <= 0 {
        0
    } else {
        partial_sum(diff, k - 1) + diff[k - 1]
    }
}

/// Raising one entry raises the partial sums that reach it.
proof fn lemma_partial_sum_update(diff: Seq<i32>, at: int, to: i32, k: int)
    requires
        0 <= at < diff.len(),
        0 <= k <= diff.len(),
    ensures
        partial_sum(diff.update(at, to), k) == partial_sum(diff, k) + (if at < k {
            to - diff[at]
        } else {
            0
        }),
    decreases k,
{
    if k > 0 {
        lemma_partial_sum_update(diff, at, to, k - 1);
    }
}

proof fn lemma_times_asked_bounds(requests: Seq<Request>, j: int)
    ensures
        0 <= times_asked(requests, j) <= requests.len(),
    decreases requests.len(),
{
    if requests.len() > 0 {
        lemma_times_asked_bounds(requests.drop_last(), j);
    }
}

/// What a schedule leaves of an array: each entry is its first value plus,
/// for each operation whose range holds its position, the operation's value
/// times the number of requests that ask for the operation, wrapped; it is
/// that sum exactly wherever the sum fits in `i32`.
pub proof fn lemma_schedule_sums(
    elems: Seq<i32>,
    ops: Seq<Operation>,
    requests: Seq<Request>,
    p: int,
)
    requires
        0 <= p < elems.len(),
        requests.len() <= i32::MAX,
    ensures
        raised_all(elems, scaled(ops, requests))[p] == wrapped(
            elems[p] + asked_total(ops, requests, p),
        ),
        i32::MIN <= elems[p] + asked_total(ops, requests, p) <= i32::MAX ==> raised_all(
            elems,
            scaled(ops, requests),
        )[p] == elems[p] + asked_total(ops, requests, p),
{
    lemma_sum_of_additions(elems, scaled(ops, requests), p);
    lemma_scaled_total(ops, requests, p, elems[p] as int);
}

/// Wrapped products add up, wrapped, to what the exact products add up to.
proof fn lemma_scaled_total(ops: Seq<Operation>, requests: Seq<Request>, p: int, base: int)
    requires
        requests.len() <= i32::MAX,
    ensures
        wrapped(base + total_at(scaled(ops, requests), p)) == wrapped(
            base + asked_total(ops, requests, p),
        ),
    decreases ops.len(),
{
    if ops.len() > 0 {
        let j = ops.len() - 1;
        let all = scaled(ops, requests);
        assert(all.drop_last() =~= scaled(ops.drop_last(), requests));
        if ops[j].start <= p <= ops[j].end {
            let count = times_asked(requests, j);
            lemma_times_asked_bounds(requests, j);
            let exact = ops[j].val * count;
            // The wrapped product differs from the exact one by a multiple of 2^32.
            assert(ops[j].val.wrapping_mul(count as i32) == wrapped(exact));
            lemma_scaled_total(ops.drop_last(), requests, p, base + exact);
        } else {
            lemma_scaled_total(ops.drop_last(), requests, p, base);
        }
    }
}

/// Counts, for each of `m` operations, the requests that ask for it.
pub fn count_requests(m: usize, requests: &Vec<Request>) -> (counts: Vec<i32>)
    requires
        m < usize::MAX,
        requests.len() <= i32::MAX,
        forall|q: int|
            0 <= q < requests.len() ==> (#[trigger] requests[q]).first <= requests[q].last < m,
    ensures
        counts.len() == m,
        forall|j: int| 0 <= j < m ==> (#[trigger] counts[j]) == times_asked(requests@, j),
{
    // One step up where a request starts, one step down behind its end: the
    // sum of the steps up to an operation counts the requests that hold it.
    let mut steps: Vec<i32> = Vec::new();
    let mut j: usize = 0;
    while j <= m
        invariant
            j <= m + 1,
            m < usize::MAX,
            steps.len() == j,
            forall|e: int| 0 <= e < j ==> (#[trigger] steps[e]) == 0,
        decreases m + 1 - j,
    {
        steps.push(0);
        j += 1;
    }
    proof {
        assert forall|e: int| 0 <= e <= m implies #[trigger] partial_sum(steps@, e + 1)
            == times_asked(requests@.take(0), e) by {
            lemma_partial_sum_zero(steps@, e + 1);
        }
    }
    let mut q: usize = 0;
    while q < requests.len()
        invariant
            q <= requests.len() <= i32::MAX,
            steps.len() == m + 1,
            forall|q: int|
                0 <= q < requests.len() ==> (#[trigger] requests[q]).first <= requests[q].last
                    < m,
            forall|e: int| 0 <= e <= m ==> -q <= (#[trigger] steps[e]) <= q,
            forall|e: int|
                0 <= e <= m ==> #[trigger] partial_sum(steps@, e + 1) == times_asked(
                    requests@.take(q as int),
                    e,
                ),
        decreases requests.len() - q,
    {
        let first = requests[q].first;
        let last = requests[q].last;
        let ghost untouched = steps@;
        steps[first] = steps[first] + 1;
        let ghost half = steps@;
        steps[last + 1] = steps[last + 1] - 1;
        proof {
            assert(requests@.take(q + 1).drop_last() =~= requests@.take(q as int));
            assert forall|e: int| 0 <= e <= m implies #[trigger] partial_sum(steps@, e + 1)
                == times_asked(requests@.take(q + 1), e) by {
                lemma_partial_sum_update(
                    untouched,
                    first as int,
                    (untouched[first as int] + 1) as i32,
                    e + 1,
                );
                lemma_partial_sum_update(half, last + 1, (half[last + 1] - 1) as i32, e + 1);
            }
        }
        q += 1;
    }
    assert(requests@.take(requests.len() as int) =~= requests@);
    let mut counts: Vec<i32> = Vec::new();
    let mut running: i32 = 0;
    let mut i: usize = 0;
    while i < m
        invariant
            i <= m,
            steps.len() == m + 1,
            requests.len() <= i32::MAX,
            counts.len() == i,
            running == partial_sum(steps@, i as int),
            forall|e: int|
                0 <= e <= m ==> #[trigger] partial_sum(steps@, e + 1) == times_asked(requests@, e),
            forall|e: int| 0 <= e < i ==> (#[trigger] counts[e]) == times_asked(requests@, e),
        decreases m - i,
    {
        proof {
            lemma_times_asked_bounds(requests@, i as int);
            assert(partial_sum(steps@, i + 1) == times_asked(requests@, i as int));
        }
        running = running + steps[i];
        counts.push(running);
        i += 1;
    }
    counts
}

/// Zeros add up to zero.
proof fn lemma_partial_sum_zero(diff: Seq<i32>, k: int)
    requires
        0 <= k <= diff.len(),
        forall|e: int| 0 <= e < k ==> diff[e] == 0,
    ensures
        partial_sum(diff, k) == 0,
    decreases k,
{
    if k > 0 {
        lemma_partial_sum_zero(diff, k - 1);
    }
}

/// Runs a schedule on the array `elems` and returns the array it leaves, or
/// `None` if the schedule cannot be run on it. Each entry of the result is
/// the entry of `elems` plus, for each operation whose range holds its
/// position, the operation's value times the number of requests that ask for
/// the operation.
pub fn run_schedule(elems: &Vec<i32>, ops: &Vec<Operation>, requests: &Vec<Request>) -> (out:
    Option<Vec<i32>>)
    ensures
        (match out {
            Some(v) => runs_on(elems.len() as int, ops@, requests@) && v@ == raised_all(
                elems@,
                scaled(ops@, requests@),
            ),
            None => !runs_on(elems.len() as int, ops@, requests@),
        }),
{
    let n = elems.len();
    let m = ops.len();
    if n < 1 || n > 0x8000_0000 || m == usize::MAX || requests.len() > i32::MAX as usize {
        return None;
    }
    let mut j: usize = 0;
    while j < m
        invariant
            j <= m == ops.len(),
            n == elems.len(),
            forall|e: int| 0 <= e < j ==> 0 <= (#[trigger] ops[e]).start <= ops[e].end < n,
        decreases m - j,
    {
        let op = ops[j];
        if !(0 <= op.start && op.start <= op.end && (op.end as usize) < n) {
            return None;
        }
        j += 1;
    }
    let mut q: usize = 0;
    while q < requests.len()
        invariant
            q <= requests.len(),
            m == ops.len(),
            forall|e: int|
                0 <= e < q ==> (#[trigger] requests[e]).first <= requests[e].last < m,
        decreases requests.len() - q,
    {
        let request = requests[q];
        if !(request.first <= request.last && request.last < m) {
            return None;
        }
        q += 1;
    }
    let counts = count_requests(m, requests);
    let mut tree = SegmentTree::new(elems);
    let mut i: usize = 0;
    while i < m
        invariant
            i <= m == ops.len(),
            counts.len() == m,
            tree.wf(),
            tree.len() == elems.len(),
            forall|e: int|
                0 <= e < m ==> 0 <= (#[trigger] ops[e]).start <= ops[e].end < elems.len(),
            forall|e: int| 0 <= e < m ==> (#[trigger] counts[e]) == times_asked(requests@, e),
            tree@ == raised_all(elems@, scaled(ops@, requests@).take(i as int)),
        decreases m - i,
    {
        let op = ops[i];
        proof {
            let all = scaled(ops@, requests@);
            assert(all.take(i + 1).drop_last() =~= all.take(i as int));
        }
        tree.range_update(0, op.val.wrapping_mul(counts[i]), op.start, op.end);
        i += 1;
    }
    assert(scaled(ops@, requests@).take(m as int) =~= scaled(ops@, requests@));
    let mut leaves: Vec<i32> = Vec::new();
    tree.get_leaves(0, &mut leaves);
    Some(leaves)
}

} // verus!
