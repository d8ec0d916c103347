use vstd::prelude::*;

use crate::item::Keyed;
use crate::selector::{key_set, run_steps, sel_step, Selector, SelView};
use crate::unique::SortedHeapIter;

verus! {

/// A least-K priority container with uniqueness: at most one resident
/// item per logical key, always the best-ranked representative seen for
/// it. Stability holds: among equal-rank items the earlier arrival is
/// preferred and drained first.
pub struct StableUniquePrioContainer<T> {
    pub sel: Selector<T>,
}

impl<T> View for StableUniquePrioContainer<T> {
    type V = SelView<T>;

    open spec fn view(&self) -> SelView<T> {
        self.sel@
    }
}

impl<T> StableUniquePrioContainer<T> {
    /// A least-K container with uniqueness and stability.
    pub open spec fn wf(&self) -> bool {
        &&& self.sel.wf()
        &&& !self@.maxed
        &&& self@.uniq
    }

    /// Create a unique container that keeps the `capacity` least items.
    pub fn new(capacity: usize) -> (s: Self)
        requires
            capacity >= 1,
        ensures
            s.wf(),
            s@.items.len() == 0,
            s@.pushed == 0,
            s@.cap == capacity,
    {
        StableUniquePrioContainer { sel: Selector::new(capacity, 0, false, true) }
    }

    /// Create a unique container with its backing storage allocated up
    /// front; the reservation is capped at the capacity.
    pub fn new_allocated(capacity: usize, alloc_size: usize) -> (s: Self)
        requires
            capacity >= 1,
        ensures
            s.wf(),
            s@.items.len() == 0,
            s@.pushed == 0,
            s@.cap == capacity,
    {
        StableUniquePrioContainer { sel: Selector::new(capacity, alloc_size, false, true) }
    }

    /// Offer a keyed item. If its key is already resident, the resident
    /// entry is replaced in place when the offer ranks strictly better —
    /// keeping the original arrival stamp — and the call returns `false`
    /// either way: a duplicate is never a newly admitted key. A fresh key
    /// is admitted exactly as the plain container would admit the item.
    pub fn insert(&mut self, item: Keyed<T>) -> (r: bool)
        requires
            old(self).wf(),
            old(self)@.pushed < usize::MAX,
        ensures
            final(self).wf(),
            final(self)@ == sel_step(old(self)@, item.key, item.rank, item.value).0,
            r == sel_step(old(self)@, item.key, item.rank, item.value).1,
            final(self)@.items.len() <= old(self)@.cap,
    {
        let Keyed { key, rank, value } = item;
        self.sel.insert(key, rank, value)
    }

    /// Whether an item with this logical key is resident.
    pub fn contains(&self, key: u64) -> (r: bool)
        requires
            self.wf(),
        ensures
            r == key_set(self@.items).contains(key),
    {
        self.sel.contains_key(key)
    }

    /// The number of resident items; never more than the capacity.
    pub fn len(&self) -> (r: usize)
        ensures
            r == self@.items.len(),
    {
        self.sel.len()
    }

    /// The fixed capacity given at construction.
    pub fn capacity(&self) -> (r: usize)
        ensures
            r == self@.cap,
    {
        self.sel.capacity()
    }

    /// Whether no item is resident.
    pub fn is_empty(&self) -> (r: bool)
        ensures
            r == (self@.items.len() == 0),
    {
        self.sel.is_empty()
    }

    /// How many items were offered in total, duplicates and rejected ones
    /// included.
    pub fn total_pushed(&self) -> (r: usize)
        ensures
            r == self@.pushed,
    {
        self.sel.total_pushed()
    }

    /// Consume the container into a drain that emits ranks descending,
    /// with equal ranks in arrival order.
    pub fn into_iter(self) -> (it: SortedHeapIter<T>)
        requires
            self.wf(),
        ensures
            it@ == self@.items,
            it.wf(),
    {
        SortedHeapIter::new(self.sel.into_entries())
    }

    /// Offer every item of `items`, in order.
    pub fn extend(&mut self, items: Vec<Keyed<T>>)
        requires
            old(self).wf(),
            old(self)@.pushed + items@.len() <= usize::MAX,
        ensures
            final(self).wf(),
            final(self)@ == run_steps(old(self)@, items@),
    {
        let ghost v0 = self@;
        let ghost items0 = items@;
        let n = items.len();
        let mut rest = items;
        let mut flipped: Vec<Keyed<T>> = Vec::new();
        while rest.len() > 0
            invariant
                rest@.len() + flipped@.len() == n,
                n == items0.len(),
                rest@ == items0.subrange(0, rest@.len() as int),
                forall|j: int| 0 <= j < flipped@.len() ==> flipped@[j] == items0[n - 1 - j],
            decreases rest@.len(),
        {
            let ghost l = rest@.len() as int;
            let x = rest.pop().unwrap();
            proof {
                assert(items0.subrange(0, l).subrange(0, l - 1) =~= items0.subrange(0, l - 1));
            }
            flipped.push(x);
        }
        let mut i: usize = 0;
        while i < n
            invariant
                self.wf(),
                i <= n,
                n == items0.len(),
                flipped@.len() == n - i,
                forall|j: int| 0 <= j < n - i ==> flipped@[j] == items0[n - 1 - j],
                self@ == run_steps(v0, items0.subrange(0, i as int)),
                self@.pushed == v0.pushed + i,
                v0.pushed + n <= usize::MAX,
            decreases n - i,
        {
            let x = flipped.pop().unwrap();
            proof {
                assert(x == items0[i as int]);
                crate::selector::lemma_run_snoc(v0, items0.subrange(0, i as int), items0[i as int]);
                assert(items0.subrange(0, i as int).push(items0[i as int]) =~= items0.subrange(
                    0,
                    i as int + 1,
                ));
            }
            self.insert(x);
            i = i + 1;
        }
        proof {
            assert(items0.subrange(0, n as int) =~= items0);
        }
    }
}

} // verus!
