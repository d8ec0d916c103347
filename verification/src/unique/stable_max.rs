use vstd::prelude::*;

use crate::item::Keyed;
use crate::selector::{key_set, run_steps, sel_step, Selector, SelView};
use crate::unique::SortedHeapIterMax;

verus! {

/// A greatest-K priority container with uniqueness: at most one resident
/// item per logical key, always the best-ranked representative seen for
/// it. Stability holds: among equal-rank items the earlier arrival is
/// preferred and drained first.
pub struct StableUniquePrioContainerMax<T> {
    pub sel: Selector<T>,
}

impl<T> View for StableUniquePrioContainerMax<T> {
    type V = SelView<T>;

    open spec fn view(&self) -> SelView<T> {
        self.sel@
    }
}

impl<T> StableUniquePrioContainerMax<T> {
    /// A greatest-K container with uniqueness and stability.
    pub open spec fn wf(&self) -> bool {
        &&& self.sel.wf()
        &&& self@.maxed
        &&& self@.uniq
    }

    /// Create a unique container that keeps the `capacity` greatest items.
    pub fn new(capacity: usize) -> (s: Self)
        requires
            capacity >= 1,
        ensures
            s.wf(),
            s@.items.len() == 0,
            s@.pushed == 0,
            s@.cap == capacity,
    {
        StableUniquePrioContainerMax { sel: Selector::new(capacity, 0, true, true) }
    }

    /// Create a unique container with its backing storage allocated up
    /// front; the reservation is capped at the capacity.
    pub fn new_allocated(capacity: usize, alloc_size: usize) -> (s: Self)
        requires
            capacity >= 1,
        ensures
            s.wf(),
            s@.items.len() == 0,
            s@.pushed == 0,
            s@.cap == capacity,
    {
        StableUniquePrioContainerMax { sel: Selector::new(capacity, alloc_size, true, true) }
    }

    /// Offer a keyed item. If its key is already resident, the resident
    /// entry is replaced in place when the offer ranks strictly better —
    /// keeping the original arrival stamp — and the call returns `false`
    /// either way: a duplicate is never a newly admitted key. A fresh key
    /// is admitted exactly as the plain container would admit the item.
    pub fn insert(&mut self, item: Keyed<T>) -> (r: bool)
        requires
            old(self).wf(),
            old(self)@.pushed < usize::MAX,
        ensures
            final(self).wf(),
            final(self)@ == sel_step(old(self)@, item.key, item.rank, item.value).0,
            r == sel_step(old(self)@, item.key, item.rank, item.value).1,
            final(self)@.items.len() <= old(self)@.cap,
    {
        let Keyed { key, rank, value } = item;
        self.sel.insert(key, rank, value)
    }

    /// Whether an item with this logical key is resident.
    pub fn contains(&self, key: u64) -> (r: bool)
        requires
            self.wf(),
        ensures
            r == key_set(self@.items).contains(key),
    {
        self.sel.contains_key(key)
    }

    /// Consume the container and return its items with ranks ascending and
    /// equal ranks in arrival order.
    pub fn into_sorted_vec(self) -> (out: Vec<Keyed<T>>)
        requires
            self.wf(),
        ensures
            out@ == self@.items.reverse().map_values(
                |e: crate::order::Entry<T>| Keyed { key: e.key, rank: e.rank, value: e.value },
            ),
            forall|i: int, j: int| 0 <= i < j < out@.len() ==> out@[i].rank <= out@[j].rank,
    {
        let mut entries = self.sel.into_entries();
        let ghost s0 = entries@;
        let mut out: Vec<Keyed<T>> = Vec::new();
        while entries.len() > 0
            invariant
                entries@ == s0.subrange(0, entries@.len() as int),
                out@.len() + entries@.len() == s0.len(),
                forall|j: int|
                    0 <= j < out@.len() ==> out@[j] == (Keyed {
                        key: s0[s0.len() - 1 - j].key,
                        rank: s0[s0.len() - 1 - j].rank,
                        value: s0[s0.len() - 1 - j].value,
                    }),
            decreases entries@.len(),
        {
            let ghost l = entries@.len() as int;
            let e = entries.pop().unwrap();
            proof {
                assert(s0.subrange(0, l).subrange(0, l - 1) =~= s0.subrange(0, l - 1));
            }
            out.push(Keyed { key: e.key, rank: e.rank, value: e.value });
        }
        proof {
            assert(out@ =~= s0.reverse().map_values(
                |e: crate::order::Entry<T>| Keyed { key: e.key, rank: e.rank, value: e.value },
            ));
        }
        out
    }

    /// Add `delta` to the insert counter without offering an item.
    pub fn inc_push(&mut self, delta: usize)
        requires
            old(self).wf(),
            old(self)@.pushed + delta <= usize::MAX,
        ensures
            final(self).wf(),
            final(self)@ == (SelView { pushed: (old(self)@.pushed + delta) as usize, ..old(self)@ }),
    {
        self.sel.inc_push(delta)
    }

    /// The number of resident items; never more than the capacity.
    pub fn len(&self) -> (r: usize)
        ensures
            r == self@.items.len(),
    {
        self.sel.len()
    }

    /// The fixed capacity given at construction.
    pub fn capacity(&self) -> (r: usize)
        ensures
            r == self@.cap,
    {
        self.sel.capacity()
    }

    /// Whether no item is resident.
    pub fn is_empty(&self) -> (r: bool)
        ensures
            r == (self@.items.len() == 0),
    {
        self.sel.is_empty()
    }

    /// How many items were offered in total, duplicates and rejected ones
    /// included.
    pub fn total_pushed(&self) -> (r: usize)
        ensures
            r == self@.pushed,
    {
        self.sel.total_pushed()
    }

    /// Consume the container into a drain that emits ranks ascending,
    /// with equal ranks in arrival order.
    pub fn into_iter(self) -> (it: SortedHeapIterMax<T>)
        requires
            self.wf(),
        ensures
            it@ == self@.items,
            it.wf(),
    {
        SortedHeapIterMax::new(self.sel.into_entries())
    }

    /// Offer every item of `items`, in order.
    pub fn extend(&mut self, items: Vec<Keyed<T>>)
        requires
            old(self).wf(),
            old(self)@.pushed + items@.len() <= usize::MAX,
        ensures
            final(self).wf(),
            final(self)@ == run_steps(old(self)@, items@),
    {
        let ghost v0 = self@;
        let ghost items0 = items@;
        let n = items.len();
        let mut rest = items;
        let mut flipped: Vec<Keyed<T>> = Vec::new();
        while rest.len() > 0
            invariant
                rest@.len() + flipped@.len() == n,
                n == items0.len(),
                rest@ == items0.subrange(0, rest@.len() as int),
                forall|j: int| 0 <= j < flipped@.len() ==> flipped@[j] == items0[n - 1 - j],
            decreases rest@.len(),
        {
            let ghost l = rest@.len() as int;
            let x = rest.pop().unwrap();
            proof {
                assert(items0.subrange(0, l).subrange(0, l - 1) =~= items0.subrange(0, l - 1));
            }
            flipped.push(x);
        }
        let mut i: usize = 0;
        while i < n
            invariant
                self.wf(),
                i <= n,
                n == items0.len(),
                flipped@.len() == n - i,
                forall|j: int| 0 <= j < n - i ==> flipped@[j] == items0[n - 1 - j],
                self@ == run_steps(v0, items0.subrange(0, i as int)),
                self@.pushed == v0.pushed + i,
                v0.pushed + n <= usize::MAX,
            decreases n - i,
        {
            let x = flipped.pop().unwrap();
            proof {
                assert(x == items0[i as int]);
                crate::selector::lemma_run_snoc(v0, items0.subrange(0, i as int), items0[i as int]);
                assert(items0.subrange(0, i as int).push(items0[i as int]) =~= items0.subrange(
                    0,
                    i as int + 1,
                ));
            }
            self.insert(x);
            i = i + 1;
        }
        proof {
            assert(items0.subrange(0, n as int) =~= items0);
        }
    }
}

} // verus!
