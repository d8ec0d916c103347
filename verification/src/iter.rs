use vstd::prelude::*;

use crate::item::Ranked;
use crate::order::Entry;
use crate::selector::sorted;

verus! {

/// Destructive drain of a least-K container: emits the resident ranks from
/// the eviction boundary inwards, that is, in descending order.
pub struct SortedHeapIter {
    pub inner: Vec<Entry<u64>>,
}

impl View for SortedHeapIter {
    type V = Seq<Entry<u64>>;

    open spec fn view(&self) -> Seq<Entry<u64>> {
        self.inner@
    }
}

impl SortedHeapIter {
    /// The remaining entries stand in least-K stored order.
    pub open spec fn wf(&self) -> bool {
        sorted(false, self@)
    }

    pub(crate) fn new(inner: Vec<Entry<u64>>) -> (it: Self)
        ensures
            it@ == inner@,
    {
        SortedHeapIter { inner }
    }

    /// The next drained rank: the boundary entry of what remains.
    pub fn next(&mut self) -> (r: Option<u64>)
        ensures
            old(self)@.len() == 0 ==> r.is_none() && final(self)@ == old(self)@,
            old(self)@.len() > 0 ==> r == Some(old(self)@.last().rank) && final(self)@ == old(
                self,
            )@.drop_last(),
            old(self).wf() ==> final(self).wf(),
    {
        match self.inner.pop() {
            Some(e) => Some(e.rank),
            None => None,
        }
    }

    /// How many items remain, as an exact lower and upper bound.
    pub fn size_hint(&self) -> (r: (usize, Option<usize>))
        ensures
            r.0 == self@.len(),
            r.1 == Some(self@.len() as usize),
    {
        let n = self.inner.len();
        (n, Some(n))
    }
}

/// Destructive drain of a greatest-K container: emits the resident ranks
/// from the eviction boundary inwards, that is, in ascending order.
pub struct SortedHeapIterMax {
    pub inner: Vec<Entry<u64>>,
}

impl View for SortedHeapIterMax {
    type V = Seq<Entry<u64>>;

    open spec fn view(&self) -> Seq<Entry<u64>> {
        self.inner@
    }
}

impl SortedHeapIterMax {
    /// The remaining entries stand in greatest-K stored order.
    pub open spec fn wf(&self) -> bool {
        sorted(true, self@)
    }

    pub(crate) fn new(inner: Vec<Entry<u64>>) -> (it: Self)
        ensures
            it@ == inner@,
    {
        SortedHeapIterMax { inner }
    }

    /// The next drained rank: the boundary entry of what remains.
    pub fn next(&mut self) -> (r: Option<u64>)
        ensures
            old(self)@.len() == 0 ==> r.is_none() && final(self)@ == old(self)@,
            old(self)@.len() > 0 ==> r == Some(old(self)@.last().rank) && final(self)@ == old(
                self,
            )@.drop_last(),
            old(self).wf() ==> final(self).wf(),
    {
        match self.inner.pop() {
            Some(e) => Some(e.rank),
            None => None,
        }
    }

    /// How many items remain, as an exact lower and upper bound.
    pub fn size_hint(&self) -> (r: (usize, Option<usize>))
        ensures
            r.0 == self@.len(),
            r.1 == Some(self@.len() as usize),
    {
        let n = self.inner.len();
        (n, Some(n))
    }
}

/// Destructive drain of a stable least-K container: emits ranked items from
/// the eviction boundary inwards — rank descending, equal ranks in arrival
/// order.
pub struct StableHeapIter<T> {
    pub inner: Vec<Entry<T>>,
}

impl<T> View for StableHeapIter<T> {
    type V = Seq<Entry<T>>;

    open spec fn view(&self) -> Seq<Entry<T>> {
        self.inner@
    }
}

impl<T> StableHeapIter<T> {
    /// The remaining entries stand in least-K stored order.
    pub open spec fn wf(&self) -> bool {
        sorted(false, self@)
    }

    pub(crate) fn new(inner: Vec<Entry<T>>) -> (it: Self)
        ensures
            it@ == inner@,
    {
        StableHeapIter { inner }
    }

    /// The next drained item: the boundary entry of what remains.
    pub fn next(&mut self) -> (r: Option<Ranked<T>>)
        ensures
            old(self)@.len() == 0 ==> r.is_none() && final(self)@ == old(self)@,
            old(self)@.len() > 0 ==> final(self)@ == old(self)@.drop_last() && r == Some(
                Ranked { rank: old(self)@.last().rank, value: old(self)@.last().value },
            ),
            old(self).wf() ==> final(self).wf(),
    {
        match self.inner.pop() {
            Some(e) => Some(Ranked { rank: e.rank, value: e.value }),
            None => None,
        }
    }

    /// How many items remain, as an exact lower and upper bound.
    pub fn size_hint(&self) -> (r: (usize, Option<usize>))
        ensures
            r.0 == self@.len(),
            r.1 == Some(self@.len() as usize),
    {
        let n = self.inner.len();
        (n, Some(n))
    }
}

/// Destructive drain of a stable greatest-K container: emits ranked items
/// from the eviction boundary inwards — rank ascending, equal ranks in
/// arrival order.
pub struct StableHeapIterMax<T> {
    pub inner: Vec<Entry<T>>,
}

impl<T> View for StableHeapIterMax<T> {
    type V = Seq<Entry<T>>;

    open spec fn view(&self) -> Seq<Entry<T>> {
        self.inner@
    }
}

impl<T> StableHeapIterMax<T> {
    /// The remaining entries stand in greatest-K stored order.
    pub open spec fn wf(&self) -> bool {
        sorted(true, self@)
    }

    pub(crate) fn new(inner: Vec<Entry<T>>) -> (it: Self)
        ensures
            it@ == inner@,
    {
        StableHeapIterMax { inner }
    }

    /// The next drained item: the boundary entry of what remains.
    pub fn next(&mut self) -> (r: Option<Ranked<T>>)
        ensures
            old(self)@.len() == 0 ==> r.is_none() && final(self)@ == old(self)@,
            old(self)@.len() > 0 ==> final(self)@ == old(self)@.drop_last() && r == Some(
                Ranked { rank: old(self)@.last().rank, value: old(self)@.last().value },
            ),
            old(self).wf() ==> final(self).wf(),
    {
        match self.inner.pop() {
            Some(e) => Some(Ranked { rank: e.rank, value: e.value }),
            None => None,
        }
    }

    /// How many items remain, as an exact lower and upper bound.
    pub fn size_hint(&self) -> (r: (usize, Option<usize>))
        ensures
            r.0 == self@.len(),
            r.1 == Some(self@.len() as usize),
    {
        let n = self.inner.len();
        (n, Some(n))
    }
}

} // verus!
