//! Bounded top-K selection containers: each keeps, out of a stream of
//! offered items, the best `capacity` of them under a fixed total order,
//! never holding more than `capacity` items. One verified core, the
//! [`selector::Selector`], implements the algorithm; the public container
//! types configure it along three axes — orientation (least-K or
//! greatest-K), uniqueness (at most one resident item per logical key) and
//! stability (arrival-order tie-breaking) — and a family of drain
//! iterators empties a container in sorted order. The guarantees common to
//! all configurations are stated and proved in [`laws`].

pub mod item;
pub mod iter;
pub mod laws;
pub mod order;
pub mod selector;
pub mod stable;
pub mod unique;

pub use stable::max::StablePrioContainerMax;
pub use stable::StablePrioContainer;
pub use unique::max::UniquePrioContainerMax;
pub use unique::stable::StableUniquePrioContainer;
pub use unique::stable_max::StableUniquePrioContainerMax;
pub use unique::UniquePrioContainer;

use vstd::prelude::*;

use crate::item::Keyed;
use crate::iter::{SortedHeapIter, SortedHeapIterMax};
use crate::order::Entry;
use crate::selector::{run_steps, sel_step, Selector, SelView};

verus! {

/// The item a plain least-K or greatest-K container offers to the core:
/// the rank is the item itself, and so is the key, which nothing reads.
pub open spec fn plain_item(x: u64) -> Keyed<u64> {
    Keyed { key: x, rank: x, value: x }
}

/// Priority container storing at most `capacity` items. Under the natural
/// order of `u64` it keeps the `capacity` least items offered to it.
pub struct PrioContainer {
    pub sel: Selector<u64>,
}

impl View for PrioContainer {
    type V = SelView<u64>;

    open spec fn view(&self) -> SelView<u64> {
        self.sel@
    }
}

impl PrioContainer {
    /// A least-K container without uniqueness or stability.
    pub open spec fn wf(&self) -> bool {
        &&& self.sel.wf()
        &&& !self@.maxed
        &&& !self@.uniq
    }

    /// Create a container that keeps the `capacity` least items.
    pub fn new(capacity: usize) -> (s: Self)
        requires
            capacity >= 1,
        ensures
            s.wf(),
            s@.items.len() == 0,
            s@.pushed == 0,
            s@.cap == capacity,
    {
        PrioContainer { sel: Selector::new(capacity, 0, false, false) }
    }

    /// Create a container with its backing storage allocated up front.
    pub fn new_allocated(capacity: usize) -> (s: Self)
        requires
            capacity >= 1,
        ensures
            s.wf(),
            s@.items.len() == 0,
            s@.pushed == 0,
            s@.cap == capacity,
    {
        PrioContainer { sel: Selector::new(capacity, capacity, false, false) }
    }

    /// Offer an item; it is kept exactly when it is strictly less than the
    /// current boundary or the container is below capacity.
    pub fn insert(&mut self, item: u64) -> (r: bool)
        requires
            old(self).wf(),
            old(self)@.pushed < usize::MAX,
        ensures
            final(self).wf(),
            final(self)@ == sel_step(old(self)@, item, item, item).0,
            r == sel_step(old(self)@, item, item, item).1,
            final(self)@.items.len() <= old(self)@.cap,
    {
        self.sel.insert(item, item, item)
    }

    /// The number of resident items; never more than the capacity.
    pub fn len(&self) -> (r: usize)
        ensures
            r == self@.items.len(),
    {
        self.sel.len()
    }

    /// Whether no item is resident.
    pub fn is_empty(&self) -> (r: bool)
        ensures
            r == (self@.items.len() == 0),
    {
        self.sel.is_empty()
    }

    /// The fixed capacity given at construction.
    pub fn capacity(&self) -> (r: usize)
        ensures
            r == self@.cap,
    {
        self.sel.capacity()
    }

    /// How many items were offered in total, rejected ones included.
    pub fn total_pushed(&self) -> (r: usize)
        ensures
            r == self@.pushed,
    {
        self.sel.total_pushed()
    }

    /// Consume the container and return its items in ascending order.
    pub fn into_sorted_vec(self) -> (out: Vec<u64>)
        requires
            self.wf(),
        ensures
            out@ == self@.items.map_values(|e: Entry<u64>| e.rank),
            forall|i: int, j: int| 0 <= i < j < out@.len() ==> out@[i] <= out@[j],
    {
        let entries = self.sel.into_entries();
        let n = entries.len();
        let mut out: Vec<u64> = Vec::new();
        let mut i: usize = 0;
        while i < n
            invariant
                n == entries@.len(),
                i <= n,
                out@.len() == i,
                forall|j: int| 0 <= j < i ==> out@[j] == entries@[j].rank,
            decreases n - i,
        {
            out.push(entries[i].rank);
            i = i + 1;
        }
        proof {
            assert(out@ =~= self@.items.map_values(|e: Entry<u64>| e.rank));
        }
        out
    }

    /// Consume the container into a drain that emits descending ranks.
    pub fn into_iter(self) -> (it: SortedHeapIter)
        requires
            self.wf(),
        ensures
            it@ == self@.items,
            it.wf(),
    {
        SortedHeapIter::new(self.sel.into_entries())
    }

    /// Offer every item of `items`, in order.
    pub fn extend(&mut self, items: Vec<u64>)
        requires
            old(self).wf(),
            old(self)@.pushed + items@.len() <= usize::MAX,
        ensures
            final(self).wf(),
            final(self)@ == run_steps(old(self)@, items@.map_values(|x: u64| plain_item(x))),
    {
        let ghost v0 = self@;
        let ghost inputs = items@.map_values(|x: u64| plain_item(x));
        let n = items.len();
        let mut i: usize = 0;
        while i < n
            invariant
                self.wf(),
                n == items@.len(),
                i <= n,
                inputs == items@.map_values(|x: u64| plain_item(x)),
                self@ == run_steps(v0, inputs.subrange(0, i as int)),
                self@.pushed == v0.pushed + i,
                v0.pushed + n <= usize::MAX,
            decreases n - i,
        {
            let x = items[i];
            self.insert(x);
            proof {
                crate::selector::lemma_run_snoc(v0, inputs.subrange(0, i as int), inputs[i as int]);
                assert(inputs.subrange(0, i as int).push(inputs[i as int]) =~= inputs.subrange(
                    0,
                    i as int + 1,
                ));
            }
            i = i + 1;
        }
        proof {
            assert(inputs.subrange(0, n as int) =~= inputs);
        }
    }
}

/// Priority container storing at most `capacity` items. Under the natural
/// order of `u64` it keeps the `capacity` greatest items offered to it.
pub struct PrioContainerMax {
    pub sel: Selector<u64>,
}

impl View for PrioContainerMax {
    type V = SelView<u64>;

    open spec fn view(&self) -> SelView<u64> {
        self.sel@
    }
}

impl PrioContainerMax {
    /// A greatest-K container without uniqueness or stability.
    pub open spec fn wf(&self) -> bool {
        &&& self.sel.wf()
        &&& self@.maxed
        &&& !self@.uniq
    }

    /// Create a container that keeps the `capacity` greatest items.
    pub fn new(capacity: usize) -> (s: Self)
        requires
            capacity >= 1,
        ensures
            s.wf(),
            s@.items.len() == 0,
            s@.pushed == 0,
            s@.cap == capacity,
    {
        PrioContainerMax { sel: Selector::new(capacity, 0, true, false) }
    }

    /// Create a container with its backing storage allocated up front.
    pub fn new_allocated(capacity: usize) -> (s: Self)
        requires
            capacity >= 1,
        ensures
            s.wf(),
            s@.items.len() == 0,
            s@.pushed == 0,
            s@.cap == capacity,
    {
        PrioContainerMax { sel: Selector::new(capacity, capacity, true, false) }
    }

    /// Offer an item; it is kept exactly when it is strictly greater than
    /// the current boundary or the container is below capacity.
    pub fn insert(&mut self, item: u64) -> (r: bool)
        requires
            old(self).wf(),
            old(self)@.pushed < usize::MAX,
        ensures
            final(self).wf(),
            final(self)@ == sel_step(old(self)@, item, item, item).0,
            r == sel_step(old(self)@, item, item, item).1,
            final(self)@.items.len() <= old(self)@.cap,
    {
        self.sel.insert(item, item, item)
    }

    /// The number of resident items; never more than the capacity.
    pub fn len(&self) -> (r: usize)
        ensures
            r == self@.items.len(),
    {
        self.sel.len()
    }

    /// The fixed capacity given at construction.
    pub fn capacity(&self) -> (r: usize)
        ensures
            r == self@.cap,
    {
        self.sel.capacity()
    }

    /// Whether no item is resident.
    pub fn is_empty(&self) -> (r: bool)
        ensures
            r == (self@.items.len() == 0),
    {
        self.sel.is_empty()
    }

    /// How many items were offered in total, rejected ones included.
    pub fn total_pushed(&self) -> (r: usize)
        ensures
            r == self@.pushed,
    {
        self.sel.total_pushed()
    }

    /// Consume the container into a drain that emits ascending ranks.
    pub fn into_iter(self) -> (it: SortedHeapIterMax)
        requires
            self.wf(),
        ensures
            it@ == self@.items,
            it.wf(),
    {
        SortedHeapIterMax::new(self.sel.into_entries())
    }

    /// Offer every item of `items`, in order.
    pub fn extend(&mut self, items: Vec<u64>)
        requires
            old(self).wf(),
            old(self)@.pushed + items@.len() <= usize::MAX,
        ensures
            final(self).wf(),
            final(self)@ == run_steps(old(self)@, items@.map_values(|x: u64| plain_item(x))),
    {
        let ghost v0 = self@;
        let ghost inputs = items@.map_values(|x: u64| plain_item(x));
        let n = items.len();
        let mut i: usize = 0;
        while i < n
            invariant
                self.wf(),
                n == items@.len(),
                i <= n,
                inputs == items@.map_values(|x: u64| plain_item(x)),
                self@ == run_steps(v0, inputs.subrange(0, i as int)),
                self@.pushed == v0.pushed + i,
                v0.pushed + n <= usize::MAX,
            decreases n - i,
        {
            let x = items[i];
            self.insert(x);
            proof {
                crate::selector::lemma_run_snoc(v0, inputs.subrange(0, i as int), inputs[i as int]);
                assert(inputs.subrange(0, i as int).push(inputs[i as int]) =~= inputs.subrange(
                    0,
                    i as int + 1,
                ));
            }
            i = i + 1;
        }
        proof {
            assert(inputs.subrange(0, n as int) =~= inputs);
        }
    }
}

} // verus!
