use std::collections::HashSet;

use priority_container::item::{Keyed, Ranked};
use priority_container::{PrioContainer, PrioContainerMax, StablePrioContainer};
use priority_container::UniquePrioContainerMax;
use rand::{thread_rng, Rng};

fn generate_data(inp_len: usize) -> Vec<u64> {
    let mut input = vec![0u64; inp_len];
    thread_rng().try_fill(&mut input[..]).unwrap();
    input
}

fn test_unique(inp_len: usize, capacity: usize) {
    let mut input = generate_data(inp_len)
        .into_iter()
        // unique items only
        .collect::<HashSet<_>>()
        .into_iter()
        .collect::<Vec<_>>();

    // add duplicates
    for val in input.clone().into_iter().step_by(10) {
        input.push(val);
    }

    let mut expected = input.clone();
    expected.sort();
    expected.reverse();
    expected.truncate(capacity);

    let mut prio_container = UniquePrioContainerMax::new(capacity);
    prio_container.extend(input.into_iter().map(|x| Keyed::new(x, x, x)).collect::<Vec<_>>());

    let mut collected: Vec<u64> = Vec::new();
    let mut it = prio_container.into_iter();
    while let Some(x) = it.next() {
        collected.push(x.value);
    }
    let unique = collected.iter().copied().collect::<HashSet<_>>();
    assert_eq!(unique.len(), collected.len());
    assert!(collected.len() <= expected.len());
}

fn test_max_with_capacity(inp_len: usize, capacity: usize) {
    let input = generate_data(inp_len);
    let mut expected = input.clone();
    expected.sort();
    expected.reverse();
    expected.truncate(capacity);

    let mut prio_container = PrioContainerMax::new(capacity);
    prio_container.extend(input);
    let mut out: Vec<u64> = Vec::new();
    let mut it = prio_container.into_iter();
    while let Some(x) = it.next() {
        out.push(x);
    }
    out.reverse();
    assert_eq!(out, expected);
}

fn test_min_with_capacity(inp_len: usize, capacity: usize) {
    let input = generate_data(inp_len);
    let mut expected = input.clone();
    expected.sort();
    expected.truncate(capacity);

    let mut prio_container = PrioContainer::new(capacity);
    prio_container.extend(input);
    let mut out: Vec<u64> = Vec::new();
    let mut it = prio_container.into_iter();
    while let Some(x) = it.next() {
        out.push(x);
    }
    out.reverse();
    assert_eq!(out, expected);
}

#[test]
fn test_other() {
    let mut queue = PrioContainer::new(2);
    queue.insert(3);
    queue.insert(5);
    queue.insert(10);
    assert_eq!(queue.into_sorted_vec(), vec![3, 5]);
}

#[test]
fn test() {
    for inp_len in (0..2000).step_by(51) {
        for cap in (1..2000).step_by(61) {
            test_min_with_capacity(inp_len, cap);
            test_max_with_capacity(inp_len, cap);
            test_unique(inp_len, cap);
        }
    }
}

#[test]
fn test_stability_simple() {
    let mut heap = StablePrioContainer::new(10);

    heap.insert(Ranked::new(3, "9"));
    heap.insert(Ranked::new(2, "8"));
    heap.insert(Ranked::new(2, "7"));
    heap.insert(Ranked::new(1, "a"));
    heap.insert(Ranked::new(1, "b"));
    heap.insert(Ranked::new(1, "c"));
    heap.insert(Ranked::new(1, "d"));
    heap.insert(Ranked::new(0, "e"));

    let mut out: Vec<&str> = Vec::new();
    let mut it = heap.into_iter();
    while let Some(i) = it.next() {
        out.push(i.value);
    }
    assert_eq!(out, vec!["9", "8", "7", "a", "b", "c", "d", "e"]);
}
