use vstd::prelude::*;

verus! {

/// One resident element of a bounded selector: a logical key (read only by
/// the uniqueness layer), the numeric rank that the order compares, the
/// arrival stamp assigned when the logical entry was first admitted, and the
/// caller's payload, which the selector never inspects.
pub struct Entry<T> {
    pub key: u64,
    pub rank: u64,
    pub seq: usize,
    pub value: T,
}

/// `a` stands strictly before `b` in the stored order (farther from the
/// eviction boundary). The primary key is the rank, oriented by `maxed`:
/// a least-K selector keeps small ranks, a greatest-K selector keeps great
/// ranks. Exact rank ties are broken by the arrival stamp: the earlier
/// arrival is held nearer the boundary, so that a drain, which walks from
/// the boundary inwards, emits equal-rank entries in arrival order.
pub open spec fn precedes<T>(maxed: bool, a: Entry<T>, b: Entry<T>) -> bool {
    if a.rank == b.rank {
        a.seq > b.seq
    } else if maxed {
        a.rank > b.rank
    } else {
        a.rank < b.rank
    }
}

/// Rank `a` is strictly better than rank `b` under the orientation,
/// ignoring arrival stamps.
pub open spec fn rank_better(maxed: bool, a: u64, b: u64) -> bool {
    if maxed {
        a > b
    } else {
        a < b
    }
}

/// Executable test of the stored order.
pub fn precedes_at<T>(maxed: bool, a: &Entry<T>, b: &Entry<T>) -> (r: bool)
    ensures
        r == precedes(maxed, *a, *b),
{
    if a.rank == b.rank {
        a.seq > b.seq
    } else if maxed {
        a.rank > b.rank
    } else {
        a.rank < b.rank
    }
}

/// Executable test of the rank order.
pub fn rank_better_at(maxed: bool, a: u64, b: u64) -> (r: bool)
    ensures
        r == rank_better(maxed, a, b),
{
    if maxed {
        a > b
    } else {
        a < b
    }
}

/// The stored order is total on entries with distinct arrival stamps.
pub proof fn lemma_precedes_total<T>(maxed: bool, a: Entry<T>, b: Entry<T>)
    requires
        a.seq != b.seq,
    ensures
        precedes(maxed, a, b) || precedes(maxed, b, a),
        !(precedes(maxed, a, b) && precedes(maxed, b, a)),
{
}

/// The stored order is transitive.
pub proof fn lemma_precedes_trans<T>(maxed: bool, a: Entry<T>, b: Entry<T>, c: Entry<T>)
    requires
        precedes(maxed, a, b),
        precedes(maxed, b, c),
    ensures
        precedes(maxed, a, c),
{
}

} // verus!
