use priority_container::item::{Keyed, Ranked};
use priority_container::{
    PrioContainer, PrioContainerMax, StablePrioContainer, StablePrioContainerMax,
    StableUniquePrioContainer, StableUniquePrioContainerMax, UniquePrioContainer,
    UniquePrioContainerMax,
};

fn drain_min(c: PrioContainer) -> Vec<u64> {
    let mut out: Vec<u64> = Vec::new();
    let mut it = c.into_iter();
    while let Some(x) = it.next() {
        out.push(x);
    }
    out
}

fn drain_max(c: PrioContainerMax) -> Vec<u64> {
    let mut out: Vec<u64> = Vec::new();
    let mut it = c.into_iter();
    while let Some(x) = it.next() {
        out.push(x);
    }
    out
}

#[test]
fn least_k_accept_pattern() {
    let mut queue = PrioContainer::new(2);
    assert!(queue.insert(3));
    assert!(queue.insert(5));
    assert!(!queue.insert(10));
    assert_eq!(queue.len(), 2);
    assert_eq!(queue.into_sorted_vec(), vec![3, 5]);
}

#[test]
fn bound_holds_after_every_call() {
    let mut queue = PrioContainer::new(3);
    let items = [9u64, 2, 7, 7, 1, 8, 0, 5, 4, 6, 3, 3];
    for &x in items.iter() {
        queue.insert(x);
        assert!(queue.len() <= queue.capacity());
    }
    assert_eq!(queue.capacity(), 3);
    assert_eq!(queue.into_sorted_vec(), vec![0, 1, 2]);
}

#[test]
fn total_pushed_counts_every_call() {
    let mut queue = UniquePrioContainer::new(2);
    assert_eq!(queue.total_pushed(), 0);
    queue.insert(Keyed::new(1, 10, ()));
    queue.insert(Keyed::new(1, 10, ())); // duplicate key, no change
    queue.insert(Keyed::new(1, 5, ())); // duplicate key, improves in place
    queue.insert(Keyed::new(2, 20, ()));
    queue.insert(Keyed::new(3, 30, ())); // full and worse: rejected
    assert_eq!(queue.total_pushed(), 5);
    assert_eq!(queue.len(), 2);
}

#[test]
fn orientation_duality_concrete() {
    let xs = vec![5u64, 1, 9, 7, 3, 9];
    let flipped = xs.iter().map(|&x| u64::MAX - x).collect::<Vec<_>>();

    let mut greatest = PrioContainerMax::new(2);
    greatest.extend(xs);
    let mut least = PrioContainer::new(2);
    least.extend(flipped);

    let out_max = drain_max(greatest);
    let out_min = drain_min(least)
        .into_iter()
        .map(|x| u64::MAX - x)
        .collect::<Vec<_>>();
    assert_eq!(out_max, out_min);
    assert_eq!(out_max, vec![9, 9]);
}

#[test]
fn stable_rerun_is_deterministic() {
    let run = || {
        let mut heap = StablePrioContainer::new(3);
        for (rank, tag) in [(4u64, "a"), (4, "b"), (2, "c"), (4, "d"), (2, "e")] {
            heap.insert(Ranked::new(rank, tag));
        }
        let mut out: Vec<(u64, &str)> = Vec::new();
        let mut it = heap.into_iter();
        while let Some(i) = it.next() {
            out.push((i.rank, i.value));
        }
        out
    };
    let first = run();
    let second = run();
    assert_eq!(first, second);
    assert_eq!(first, vec![(4, "a"), (2, "c"), (2, "e")]);
}

#[test]
fn stable_boundary_tie_rejected() {
    let mut heap = StablePrioContainer::new(1);
    assert!(heap.insert(Ranked::new(5, "a")));
    assert!(!heap.insert(Ranked::new(5, "b")));
    let out = heap.into_sorted_vec();
    assert_eq!(out.len(), 1);
    assert_eq!(out[0].value, "a");
}

#[test]
fn stable_eviction_keeps_earlier_tie() {
    let mut heap = StablePrioContainer::new(2);
    heap.insert(Ranked::new(5, "a"));
    heap.insert(Ranked::new(5, "b"));
    assert!(heap.insert(Ranked::new(3, "c")));
    let out = heap.into_sorted_vec();
    let tags = out.iter().map(|i| i.value).collect::<Vec<_>>();
    assert_eq!(tags, vec!["a", "c"]);
}

#[test]
fn stable_max_orders_ascending_with_arrival_ties() {
    let mut heap = StablePrioContainerMax::new(10);
    heap.insert(Ranked::new(1, "x"));
    heap.insert(Ranked::new(2, "y"));
    heap.insert(Ranked::new(2, "z"));
    assert!(heap.contains(2));
    assert!(!heap.contains(3));
    let out = heap.into_sorted_vec();
    let tags = out.iter().map(|i| i.value).collect::<Vec<_>>();
    assert_eq!(tags, vec!["x", "y", "z"]);
}

#[test]
fn unique_reinsert_worse_changes_nothing() {
    let baseline = {
        let mut heap = UniquePrioContainerMax::new(100);
        for k in 0..10u64 {
            heap.insert(Keyed::new(k, k + 100, k));
        }
        let mut out: Vec<(u64, u64)> = Vec::new();
        let mut it = heap.into_iter();
        while let Some(i) = it.next() {
            out.push((i.key, i.rank));
        }
        out
    };

    let mut heap = UniquePrioContainerMax::new(100);
    for k in 0..10u64 {
        heap.insert(Keyed::new(k, k + 100, k));
    }
    assert_eq!(heap.len(), 10);
    for k in 0..10u64 {
        assert!(!heap.insert(Keyed::new(k, k, k)));
    }
    assert_eq!(heap.len(), 10);
    let mut out: Vec<(u64, u64)> = Vec::new();
    let mut it = heap.into_iter();
    while let Some(i) = it.next() {
        out.push((i.key, i.rank));
    }
    assert_eq!(out, baseline);
}

#[test]
fn unique_improvement_keeps_first_arrival_stamp() {
    let mut heap = StableUniquePrioContainer::new(10);
    heap.insert(Keyed::new(1, 7, "a"));
    heap.insert(Keyed::new(2, 5, "b"));
    // improving key 1 to tie key 2: its stable position is still that of
    // its first arrival, before key 2
    assert!(!heap.insert(Keyed::new(1, 5, "a2")));
    assert_eq!(heap.len(), 2);
    assert!(heap.contains(1));
    assert!(heap.contains(2));
    let mut out: Vec<&str> = Vec::new();
    let mut it = heap.into_iter();
    while let Some(i) = it.next() {
        out.push(i.value);
    }
    assert_eq!(out, vec!["a2", "b"]);
}

#[test]
fn unique_evicted_key_leaves_the_index() {
    let mut heap = UniquePrioContainer::new(2);
    heap.insert(Keyed::new(1, 10, ()));
    heap.insert(Keyed::new(2, 20, ()));
    assert!(heap.contains(2));
    // key 3 is better than the boundary (key 2) and evicts it
    assert!(heap.insert(Keyed::new(3, 5, ())));
    assert!(!heap.contains(2));
    assert!(heap.contains(1));
    assert!(heap.contains(3));
}

#[test]
fn empty_and_exhausted_drains() {
    let queue = PrioContainer::new(4);
    assert!(queue.is_empty());
    assert_eq!(queue.len(), 0);
    let mut it = queue.into_iter();
    assert_eq!(it.size_hint(), (0, Some(0)));
    assert_eq!(it.next(), None);

    let mut queue = PrioContainer::new(4);
    queue.insert(2);
    queue.insert(1);
    assert!(!queue.is_empty());
    let mut it = queue.into_iter();
    assert_eq!(it.size_hint(), (2, Some(2)));
    assert_eq!(it.next(), Some(2));
    assert_eq!(it.next(), Some(1));
    assert_eq!(it.next(), None);
    assert_eq!(it.next(), None);
    assert_eq!(it.size_hint(), (0, Some(0)));
}

#[test]
fn allocated_constructors_match_plain_ones() {
    let mut a = PrioContainerMax::new(2);
    let mut b = PrioContainerMax::new_allocated(2);
    for &x in [4u64, 9, 1, 9].iter() {
        assert_eq!(a.insert(x), b.insert(x));
    }
    assert_eq!(a.capacity(), b.capacity());
    assert_eq!(drain_max(a), drain_max(b));

    let s = StablePrioContainer::<u8>::new_allocated(3, 50);
    assert_eq!(s.capacity(), 3);
}

#[test]
fn inc_push_only_counts() {
    let mut heap = StablePrioContainer::new(2);
    heap.insert(Ranked::new(1, "x"));
    heap.inc_push(5);
    assert_eq!(heap.total_pushed(), 6);
    assert_eq!(heap.len(), 1);

    let mut heap = StableUniquePrioContainerMax::new(2);
    heap.insert(Keyed::new(1, 1, "x"));
    heap.inc_push(3);
    assert_eq!(heap.total_pushed(), 4);
    assert_eq!(heap.len(), 1);
}

#[test]
fn stable_unique_max_sorted_vec() {
    let mut heap = StableUniquePrioContainerMax::new_allocated(3, 3);
    assert!(heap.insert(Keyed::new(1, 5, "a")));
    assert!(heap.insert(Keyed::new(2, 5, "b")));
    assert!(heap.insert(Keyed::new(3, 9, "c")));
    // a fourth key that ties the boundary rank is rejected
    assert!(!heap.insert(Keyed::new(4, 5, "d")));
    assert!(heap.contains(1));
    let out = heap.into_sorted_vec();
    let tags = out.iter().map(|i| i.value).collect::<Vec<_>>();
    assert_eq!(tags, vec!["a", "b", "c"]);
}
