pub mod max;

use vstd::prelude::*;

use crate::item::{Keyed, Ranked};
use crate::iter::StableHeapIter;
use crate::order::Entry;
use crate::selector::{run_steps, sel_step, Selector, SelView};

verus! {

/// The offer a stable container makes to the core for a ranked item: the
/// key is the rank, which nothing reads while uniqueness is off.
pub open spec fn stable_item<T>(x: Ranked<T>) -> Keyed<T> {
    Keyed { key: x.rank, rank: x.rank, value: x.value }
}

/// A stable least-K priority container: among equal-rank items the earlier
/// arrival is preferred, and a drain returns equal-rank items in their
/// arrival order.
pub struct StablePrioContainer<T> {
    pub sel: Selector<T>,
}

impl<T> View for StablePrioContainer<T> {
    type V = SelView<T>;

    open spec fn view(&self) -> SelView<T> {
        self.sel@
    }
}

impl<T> StablePrioContainer<T> {
    /// A least-K container with stability and without uniqueness.
    pub open spec fn wf(&self) -> bool {
        &&& self.sel.wf()
        &&& !self@.maxed
        &&& !self@.uniq
    }

    /// Create a stable container that keeps the `capacity` least items.
    pub fn new(capacity: usize) -> (s: Self)
        requires
            capacity >= 1,
        ensures
            s.wf(),
            s@.items.len() == 0,
            s@.pushed == 0,
            s@.cap == capacity,
    {
        StablePrioContainer { sel: Selector::new(capacity, 0, false, false) }
    }

    /// Create a stable container with storage for `alloc_size` items
    /// reserved up front; the reservation is capped at the capacity.
    pub fn new_allocated(capacity: usize, alloc_size: usize) -> (s: Self)
        requires
            capacity >= 1,
        ensures
            s.wf(),
            s@.items.len() == 0,
            s@.pushed == 0,
            s@.cap == capacity,
    {
        StablePrioContainer { sel: Selector::new(capacity, alloc_size, false, false) }
    }

    /// Offer a ranked item; it is kept exactly when the container is below
    /// capacity or its rank strictly beats the boundary rank. A rank tie
    /// with the boundary is rejected, keeping the earlier arrival; an
    /// eviction removes the latest arrival among the boundary-rank items.
    pub fn insert(&mut self, item: Ranked<T>) -> (r: bool)
        requires
            old(self).wf(),
            old(self)@.pushed < usize::MAX,
        ensures
            final(self).wf(),
            final(self)@ == sel_step(old(self)@, item.rank, item.rank, item.value).0,
            r == sel_step(old(self)@, item.rank, item.rank, item.value).1,
            final(self)@.items.len() <= old(self)@.cap,
    {
        let Ranked { rank, value } = item;
        self.sel.insert(rank, rank, value)
    }

    /// Add `delta` to the insert counter without offering an item.
    pub fn inc_push(&mut self, delta: usize)
        requires
            old(self).wf(),
            old(self)@.pushed + delta <= usize::MAX,
        ensures
            final(self).wf(),
            final(self)@ == (SelView { pushed: (old(self)@.pushed + delta) as usize, ..old(self)@ }),
    {
        self.sel.inc_push(delta)
    }

    /// Whether some resident item carries exactly this rank.
    pub fn contains(&self, rank: u64) -> (r: bool)
        ensures
            r == crate::selector::has_rank(self@.items, rank),
    {
        self.sel.contains_rank(rank)
    }

    /// Consume the container and return its items with ranks descending and
    /// equal ranks in arrival order.
    pub fn into_sorted_vec(self) -> (out: Vec<Ranked<T>>)
        requires
            self.wf(),
        ensures
            out@ == self@.items.reverse().map_values(
                |e: Entry<T>| Ranked { rank: e.rank, value: e.value },
            ),
            forall|i: int, j: int| 0 <= i < j < out@.len() ==> out@[i].rank >= out@[j].rank,
    {
        let mut entries = self.sel.into_entries();
        let ghost s0 = entries@;
        let mut out: Vec<Ranked<T>> = Vec::new();
        while entries.len() > 0
            invariant
                entries@ == s0.subrange(0, entries@.len() as int),
                out@.len() + entries@.len() == s0.len(),
                forall|j: int|
                    0 <= j < out@.len() ==> out@[j] == (Ranked {
                        rank: s0[s0.len() - 1 - j].rank,
                        value: s0[s0.len() - 1 - j].value,
                    }),
            decreases entries@.len(),
        {
            let ghost l = entries@.len() as int;
            let e = entries.pop().unwrap();
            proof {
                assert(s0.subrange(0, l).subrange(0, l - 1) =~= s0.subrange(0, l - 1));
            }
            out.push(Ranked { rank: e.rank, value: e.value });
        }
        proof {
            assert(out@ =~= s0.reverse().map_values(
                |e: Entry<T>| Ranked { rank: e.rank, value: e.value },
            ));
        }
        out
    }

    /// The number of resident items; never more than the capacity.
    pub fn len(&self) -> (r: usize)
        ensures
            r == self@.items.len(),
    {
        self.sel.len()
    }

    /// Whether no item is resident.
    pub fn is_empty(&self) -> (r: bool)
        ensures
            r == (self@.items.len() == 0),
    {
        self.sel.is_empty()
    }

    /// The fixed capacity given at construction.
    pub fn capacity(&self) -> (r: usize)
        ensures
            r == self@.cap,
    {
        self.sel.capacity()
    }

    /// How many items were offered in total, rejected ones included.
    pub fn total_pushed(&self) -> (r: usize)
        ensures
            r == self@.pushed,
    {
        self.sel.total_pushed()
    }

    /// Consume the container into a drain that emits ranks descending, with
    /// equal ranks in arrival order.
    pub fn into_iter(self) -> (it: StableHeapIter<T>)
        requires
            self.wf(),
        ensures
            it@ == self@.items,
            it.wf(),
    {
        StableHeapIter::new(self.sel.into_entries())
    }

    /// Offer every item of `items`, in order.
    pub fn extend(&mut self, items: Vec<Ranked<T>>)
        requires
            old(self).wf(),
            old(self)@.pushed + items@.len() <= usize::MAX,
        ensures
            final(self).wf(),
            final(self)@ == run_steps(
                old(self)@,
                items@.map_values(|x: Ranked<T>| stable_item(x)),
            ),
    {
        let ghost v0 = self@;
        let ghost items0 = items@;
        let ghost inputs = items@.map_values(|x: Ranked<T>| stable_item(x));
        let n = items.len();
        let mut rest = items;
        let mut flipped: Vec<Ranked<T>> = Vec::new();
        while rest.len() > 0
            invariant
                rest@.len() + flipped@.len() == n,
                n == items0.len(),
                rest@ == items0.subrange(0, rest@.len() as int),
                forall|j: int| 0 <= j < flipped@.len() ==> flipped@[j] == items0[n - 1 - j],
            decreases rest@.len(),
        {
            let ghost l = rest@.len() as int;
            let x = rest.pop().unwrap();
            proof {
                assert(items0.subrange(0, l).subrange(0, l - 1) =~= items0.subrange(0, l - 1));
            }
            flipped.push(x);
        }
        let mut i: usize = 0;
        while i < n
            invariant
                self.wf(),
                i <= n,
                n == items0.len(),
                flipped@.len() == n - i,
                forall|j: int| 0 <= j < n - i ==> flipped@[j] == items0[n - 1 - j],
                inputs == items0.map_values(|x: Ranked<T>| stable_item(x)),
                self@ == run_steps(v0, inputs.subrange(0, i as int)),
                self@.pushed == v0.pushed + i,
                v0.pushed + n <= usize::MAX,
            decreases n - i,
        {
            let x = flipped.pop().unwrap();
            proof {
                assert(x == items0[i as int]);
                crate::selector::lemma_run_snoc(v0, inputs.subrange(0, i as int), inputs[i as int]);
                assert(inputs.subrange(0, i as int).push(inputs[i as int]) =~= inputs.subrange(
                    0,
                    i as int + 1,
                ));
            }
            self.insert(x);
            i = i + 1;
        }
        proof {
            assert(inputs.subrange(0, n as int) =~= inputs);
        }
    }
}

} // verus!
