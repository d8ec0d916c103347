use vstd::prelude::*;

verus! {

/// An explicit-rank item: a payload paired with the numeric priority that
/// orders it. The containers compare only the rank and never inspect the
/// payload, so callers order arbitrary data by computing a rank up front.
pub struct Ranked<T> {
    pub rank: u64,
    pub value: T,
}

impl<T> Ranked<T> {
    /// Pair a payload with its rank.
    pub fn new(rank: u64, value: T) -> (r: Self)
        ensures
            r.rank == rank,
            r.value == value,
    {
        Ranked { rank, value }
    }
}

/// A keyed, explicit-rank item for the uniqueness layer: the logical key
/// decides which items count as the same entry, the rank orders them, and
/// the payload rides along uninspected.
pub struct Keyed<T> {
    pub key: u64,
    pub rank: u64,
    pub value: T,
}

impl<T> Keyed<T> {
    /// Pair a payload with its logical key and its rank.
    pub fn new(key: u64, rank: u64, value: T) -> (r: Self)
        ensures
            r.key == key,
            r.rank == rank,
            r.value == value,
    {
        Keyed { key, rank, value }
    }
}

} // verus!
