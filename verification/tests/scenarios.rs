use bheap::BinaryHeap;

fn drain(mut heap: BinaryHeap) -> Vec<i64> {
    let mut out: Vec<i64> = Vec::new();
    while let Some(v) = heap.pop() {
        out.push(v);
    }
    out
}

fn is_heap(slice: &[i64]) -> bool {
    (0..slice.len()).all(|i| {
        (2 * i + 1 >= slice.len() || slice[i] >= slice[2 * i + 1])
            && (2 * i + 2 >= slice.len() || slice[i] >= slice[2 * i + 2])
    })
}

#[test]
fn empty_heap_pop_is_absent() {
    let mut heap = BinaryHeap::new();
    assert_eq!(heap.pop(), None);
    assert_eq!(heap.len(), 0);
    assert!(heap.is_empty());
}

#[test]
fn empty_input_built_heap() {
    let mut heap = BinaryHeap::from(vec![]);
    assert_eq!(heap.pop(), None);
    assert_eq!(heap.len(), 0);
}

#[test]
fn singleton_heap() {
    let mut heap = BinaryHeap::from(vec![5]);
    assert_eq!(heap.len(), 1);
    assert_eq!(heap.pop(), Some(5));
    assert!(heap.is_empty());
    assert_eq!(heap.pop(), None);
}

#[test]
fn ascending_input_sorts_ascending() {
    let heap = BinaryHeap::from(vec![1, 2, 3, 4, 5, 6, 7]);
    assert_eq!(heap.into_sorted_vec(), vec![1, 2, 3, 4, 5, 6, 7]);
}

#[test]
fn descending_input_pops_descending() {
    let heap = BinaryHeap::from(vec![7, 6, 5, 4, 3, 2, 1]);
    assert_eq!(drain(heap), vec![7, 6, 5, 4, 3, 2, 1]);
}

#[test]
fn duplicates_preserved() {
    let heap = BinaryHeap::from(vec![3, 1, 3, 2, 3]);
    assert_eq!(heap.into_sorted_vec(), vec![1, 2, 3, 3, 3]);
}

#[test]
fn interleaved_push_pop() {
    let mut heap = BinaryHeap::new();
    heap.push(2);
    heap.push(9);
    heap.push(1);
    assert_eq!(heap.pop(), Some(9));
    heap.push(10);
    assert_eq!(heap.pop(), Some(10));
    assert_eq!(heap.pop(), Some(2));
    assert_eq!(heap.pop(), Some(1));
    assert_eq!(heap.pop(), None);
}

#[test]
fn construction_restores_heap_order() {
    let heap = BinaryHeap::from(vec![2, 9, 1, 7, 7, 0, -3, 12, 5, 5]);
    assert!(is_heap(&heap.into_vec()));
}

#[test]
fn push_keeps_heap_order() {
    let mut heap = BinaryHeap::new();
    for v in [4, -1, 8, 8, 0, 15, 3, -9, 2] {
        heap.push(v);
    }
    assert!(is_heap(&heap.into_vec()));
}

#[test]
fn length_accounting() {
    let mut heap = BinaryHeap::new();
    for k in 0..8 {
        assert_eq!(heap.len(), k);
        heap.push(k as i64 * 3 % 5);
    }
    assert_eq!(heap.len(), 8);
    for j in 0..5 {
        assert!(heap.pop().is_some());
        assert_eq!(heap.len(), 8 - j - 1);
        assert!(!heap.is_empty());
    }
}

#[test]
fn push_pop_duality_matches_bulk_build() {
    let input = vec![5, -2, 11, 0, 11, 3, 7, -2, 4];
    let mut pushed = BinaryHeap::new();
    for &v in input.iter() {
        pushed.push(v);
    }
    let bulk = BinaryHeap::from(input);
    assert_eq!(drain(pushed), drain(bulk));
}

#[test]
fn pop_sequence_is_input_sorted_descending() {
    let input = vec![4, -7, 0, 22, 3, 3, -7, 9, 1];
    let heap = BinaryHeap::from(input.clone());
    let mut expected = input;
    expected.sort_unstable_by(|a, b| b.cmp(a));
    assert_eq!(drain(heap), expected);
}

#[test]
fn sorted_vec_is_permutation_of_input() {
    let input = vec![10, -4, 6, 6, 0, 3, -4, 10, 2];
    let heap = BinaryHeap::from(input.clone());
    let sorted = heap.into_sorted_vec();
    let mut expected = input;
    expected.sort_unstable();
    assert_eq!(sorted, expected);
}

fn drain_better(mut heap: bheap::better::BinaryHeap) -> Vec<i64> {
    let mut out: Vec<i64> = Vec::new();
    while let Some(v) = heap.pop() {
        out.push(v);
    }
    out
}

#[test]
fn better_variant_scenarios() {
    let mut empty = bheap::better::BinaryHeap::new();
    assert_eq!(empty.pop(), None);
    let mut single = bheap::better::BinaryHeap::from(vec![5]);
    assert_eq!(single.pop(), Some(5));
    assert_eq!(single.pop(), None);
    let ascending = bheap::better::BinaryHeap::from(vec![1, 2, 3, 4, 5, 6, 7]);
    assert_eq!(ascending.into_sorted_vec(), vec![1, 2, 3, 4, 5, 6, 7]);
    let descending = bheap::better::BinaryHeap::from(vec![7, 6, 5, 4, 3, 2, 1]);
    assert_eq!(drain_better(descending), vec![7, 6, 5, 4, 3, 2, 1]);
    let duplicates = bheap::better::BinaryHeap::from(vec![3, 1, 3, 2, 3]);
    assert_eq!(duplicates.into_sorted_vec(), vec![1, 2, 3, 3, 3]);
}

#[test]
fn better_variant_interleaved_push_pop() {
    let mut heap = bheap::better::BinaryHeap::new();
    heap.push(2);
    heap.push(9);
    heap.push(1);
    assert_eq!(heap.pop(), Some(9));
    heap.push(10);
    assert_eq!(heap.pop(), Some(10));
    assert_eq!(heap.pop(), Some(2));
    assert_eq!(heap.pop(), Some(1));
    assert_eq!(heap.pop(), None);
}

#[test]
fn both_variants_drain_alike() {
    for len in 0..25usize {
        let input: Vec<i64> = (0..len as i64).map(|v| v * 7 % 13 - 5).collect();
        let reference = BinaryHeap::from(input.clone());
        let optimized = bheap::better::BinaryHeap::from(input.clone());
        let mut expected = input;
        expected.sort_unstable_by(|a, b| b.cmp(a));
        assert_eq!(drain(reference), expected);
        assert_eq!(drain_better(optimized), expected);
    }
}

#[test]
fn both_variants_sort_alike() {
    for len in 0..25usize {
        let input: Vec<i64> = (0..len as i64).map(|v| v * 11 % 7 - 3).collect();
        let reference = BinaryHeap::from(input.clone());
        let optimized = bheap::better::BinaryHeap::from(input.clone());
        let mut expected = input;
        expected.sort_unstable();
        assert_eq!(reference.into_sorted_vec(), expected);
        assert_eq!(optimized.into_sorted_vec(), expected);
    }
}

#[test]
fn into_vec_returns_contents_unsorted() {
    let input = vec![1, 2, 3, 4];
    let heap = BinaryHeap::from(input.clone());
    let mut contents = heap.into_vec();
    assert_eq!(contents.len(), 4);
    contents.sort_unstable();
    assert_eq!(contents, input);
}
