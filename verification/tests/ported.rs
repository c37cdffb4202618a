use bheap::BinaryHeap;
use rand::seq::{IteratorRandom, SliceRandom};

fn get_inputs() -> Vec<Vec<i64>> {
    let sizes: [usize; 18] = [
        1, 2, 3, 7, 8, 9, 15, 16, 17, 24, 31, 32, 33, 255, 256, 257, 315, 316,
    ];
    let mut rng = rand::thread_rng();
    let mut inputs: Vec<Vec<i64>> = Vec::new();
    for &size in sizes.iter() {
        inputs.push((0..size as isize).map(|v| v as i64).collect());
        inputs.push((0..size as isize).rev().map(|v| v as i64).collect());
        inputs.push(
            (1..size as isize)
                .chain(std::iter::once(0))
                .map(|v| v as i64)
                .collect(),
        );
        inputs.push(
            (0..size as isize)
                .step_by(2)
                .chain((1..size as isize).step_by(2).rev())
                .map(|v| v as i64)
                .collect(),
        );
        let mut shuffled: Vec<i64> = (0..size as isize).map(|v| v as i64).collect();
        shuffled.shuffle(&mut rng);
        inputs.push(shuffled);
        inputs.push(
            [0i64, 1]
                .iter()
                .copied()
                .cycle()
                .take(size * 4)
                .choose_multiple(&mut rng, size),
        );
    }
    inputs
}

fn is_heap(slice: &[i64]) -> bool {
    (0..slice.len() / 2)
        .all(|i| Some(&slice[i]) >= std::cmp::max(slice.get(2 * i + 1), slice.get(2 * i + 2)))
}

fn drain(mut heap: BinaryHeap) -> Vec<i64> {
    std::iter::from_fn(|| heap.pop()).collect()
}

fn drain_better(mut heap: bheap::better::BinaryHeap) -> Vec<i64> {
    std::iter::from_fn(|| heap.pop()).collect()
}

#[test]
fn better_bheap_build_heap() {
    for input in get_inputs() {
        let bheap = bheap::better::BinaryHeap::from(input);
        assert!(is_heap(&bheap.into_vec()));
    }
}

#[test]
fn better_bheap_into_sorted_vec() {
    for input in get_inputs() {
        let bheap = bheap::better::BinaryHeap::from(input);
        let vec = bheap.into_sorted_vec();
        for win in vec.windows(2) {
            assert!(win[0] <= win[1]);
        }
    }
}

#[test]
fn better_bheap_pop() {
    for input in get_inputs() {
        let bheap = bheap::better::BinaryHeap::from(input.clone());
        let vec = drain_better(bheap);
        let mut sorted_input = input;
        sorted_input.sort_unstable_by(|a, b| a.cmp(b).reverse());
        assert_eq!(vec, sorted_input);
    }
}

#[test]
fn std_bheap_build_heap() {
    for input in get_inputs() {
        let bheap = BinaryHeap::from(input);
        assert!(is_heap(&bheap.into_vec()));
    }
}

#[test]
fn std_bheap_into_sorted_vec() {
    for input in get_inputs() {
        let bheap = BinaryHeap::from(input);
        let vec = bheap.into_sorted_vec();
        for win in vec.windows(2) {
            assert!(win[0] <= win[1]);
        }
    }
}

#[test]
fn std_bheap_pop() {
    for input in get_inputs() {
        let bheap = BinaryHeap::from(input.clone());
        let vec = drain(bheap);
        let mut sorted_input = input;
        sorted_input.sort_unstable_by(|a, b| a.cmp(b).reverse());
        assert_eq!(vec, sorted_input);
    }
}
