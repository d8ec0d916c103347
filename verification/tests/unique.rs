use priority_container::item::Keyed;
use priority_container::unique::max::UniquePrioContainerMax;
use priority_container::StableUniquePrioContainer;

fn make_invariant_test(len: usize, max: usize) -> UniquePrioContainerMax<usize> {
    let mut heap = UniquePrioContainerMax::new(max);

    let to_add = (0..len)
        .into_iter()
        .map(|i| Keyed::new(i as u64, i as u64, i))
        .collect::<Vec<_>>();
    heap.extend(to_add);

    heap
}

fn drain_values(heap: UniquePrioContainerMax<usize>) -> Vec<usize> {
    let mut out: Vec<usize> = Vec::new();
    let mut it = heap.into_iter();
    while let Some(i) = it.next() {
        out.push(i.value);
    }
    out
}

#[test]
fn test1() {
    for i in (10..100).step_by(10) {
        let container = make_invariant_test(i, 100);
        let expected = (0..i).collect::<Vec<_>>();
        assert_eq!(drain_values(container), expected);
    }
}

#[test]
fn unique_test1() {
    for i in (10..100).step_by(10) {
        let container = make_invariant_test(i, 100);
        let expected = (0..i).collect::<Vec<_>>();
        assert_eq!(drain_values(container), expected);
    }
}

#[test]
fn test_stability_simple_unique() {
    for _ in 0..1000 {
        println!("-------");
        let mut heap = StableUniquePrioContainer::new(10);

        for _ in 0..20 {
            heap.insert(Keyed::new(9, 2, "9"));
        }
        assert_eq!(heap.len(), 1);

        heap.insert(Keyed::new(9, 2, "9"));
        heap.insert(Keyed::new(9, 2, "9"));
        assert_eq!(heap.len(), 1);

        heap.insert(Keyed::new(8, 2, "8"));
        assert_eq!(heap.len(), 2);

        for _ in 0..4 {
            heap.insert(Keyed::new(7, 2, "7"));
            heap.insert(Keyed::new(10, 1, "a"));
            heap.insert(Keyed::new(11, 1, "b"));
            heap.insert(Keyed::new(12, 1, "c"));
            heap.insert(Keyed::new(13, 1, "d"));
        }
        heap.insert(Keyed::new(7, 2, "7"));
        heap.insert(Keyed::new(14, 0, "e"));
        heap.insert(Keyed::new(14, 0, "e"));

        let mut out: Vec<&str> = Vec::new();
        let mut it = heap.into_iter();
        while let Some(i) = it.next() {
            out.push(i.value);
        }
        assert_eq!(out, vec!["9", "8", "7", "a", "b", "c", "d", "e"]);
    }
}
