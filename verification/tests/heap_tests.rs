use binary_heap::heap::{Heap, MaxHeap, MinHeap};
use binary_heap::order::{GreaterThan, LessThan};

#[test]
fn test_empty_heap() {
    let mut heap = MaxHeap::new::<i32>();
    assert_eq!(heap.next(), None);
}

#[test]
fn test_min_heap() {
    let mut heap = MinHeap::new();
    heap.add(4);
    heap.add(2);
    heap.add(9);
    heap.add(11);
    assert_eq!(heap.len(), 4);
    assert_eq!(heap.next(), Some(2));
    assert_eq!(heap.next(), Some(4));
    assert_eq!(heap.next(), Some(9));
    heap.add(1);
    assert_eq!(heap.next(), Some(1));
}

#[test]
fn test_max_heap() {
    let mut heap = MaxHeap::new();
    heap.add(4);
    heap.add(2);
    heap.add(9);
    heap.add(11);
    assert_eq!(heap.len(), 4);
    assert_eq!(heap.next(), Some(11));
    assert_eq!(heap.next(), Some(9));
    assert_eq!(heap.next(), Some(4));
    heap.add(1);
    assert_eq!(heap.next(), Some(2));
}

#[test]
fn empty_min_heap_yields_nothing() {
    let mut heap = MinHeap::new::<i32>();
    assert_eq!(heap.next(), None);
    assert_eq!(heap.next(), None);
}

#[test]
fn len_tracks_adds_and_extractions() {
    let mut heap = MinHeap::new::<i32>();
    assert_eq!(heap.len(), 0);
    heap.add(7);
    heap.add(3);
    heap.add(5);
    assert_eq!(heap.len(), 3);
    assert!(heap.next().is_some());
    assert_eq!(heap.len(), 2);
    assert!(heap.next().is_some());
    assert!(heap.next().is_some());
    assert_eq!(heap.len(), 0);
    assert_eq!(heap.next(), None);
    assert_eq!(heap.len(), 0);
}

#[test]
fn is_empty_iff_len_zero() {
    let mut heap = MaxHeap::new::<u64>();
    assert!(heap.is_empty());
    assert_eq!(heap.len(), 0);
    heap.add(10);
    assert!(!heap.is_empty());
    assert_eq!(heap.len(), 1);
    assert_eq!(heap.next(), Some(10));
    assert!(heap.is_empty());
    assert_eq!(heap.len(), 0);
}

#[test]
fn extracting_len_times_drains_the_heap() {
    let mut heap = MinHeap::new::<i32>();
    for v in [8, 1, 6, 3, 9] {
        heap.add(v);
    }
    let n = heap.len();
    for _ in 0..n {
        assert!(heap.next().is_some());
    }
    assert!(heap.is_empty());
    assert_eq!(heap.next(), None);
}

#[test]
fn min_heap_yields_non_decreasing_values() {
    let mut heap = MinHeap::new::<i32>();
    for v in [5, -3, 17, 0, 5, 12, -3, 8, 1] {
        heap.add(v);
    }
    let mut prev = i32::MIN;
    while let Some(v) = heap.next() {
        assert!(prev <= v);
        prev = v;
    }
}

#[test]
fn max_heap_yields_non_increasing_values() {
    let mut heap = MaxHeap::new::<i32>();
    for v in [5, -3, 17, 0, 5, 12, -3, 8, 1] {
        heap.add(v);
    }
    let mut prev = i32::MAX;
    while let Some(v) = heap.next() {
        assert!(prev >= v);
        prev = v;
    }
}

#[test]
fn min_heap_handles_duplicates() {
    let mut heap = MinHeap::new::<i32>();
    for v in [2, 2, 1, 2, 1] {
        heap.add(v);
    }
    assert_eq!(heap.next(), Some(1));
    assert_eq!(heap.next(), Some(1));
    assert_eq!(heap.next(), Some(2));
    assert_eq!(heap.next(), Some(2));
    assert_eq!(heap.next(), Some(2));
    assert_eq!(heap.next(), None);
}

#[test]
fn single_element_heap() {
    let mut heap = MaxHeap::new::<i32>();
    heap.add(42);
    assert_eq!(heap.len(), 1);
    assert_eq!(heap.next(), Some(42));
    assert_eq!(heap.next(), None);
}

#[test]
fn heap_new_with_explicit_comparator() {
    let mut min: Heap<u64, LessThan> = Heap::new(LessThan);
    min.add(30);
    min.add(20);
    min.add(40);
    assert_eq!(min.next(), Some(20));

    let mut max: Heap<u64, GreaterThan> = Heap::new(GreaterThan);
    max.add(30);
    max.add(20);
    max.add(40);
    assert_eq!(max.next(), Some(40));
}

#[test]
fn new_min_and_new_max_constructors() {
    let mut min = Heap::<i32, LessThan>::new_min();
    min.add(6);
    min.add(-6);
    assert_eq!(min.next(), Some(-6));
    assert_eq!(min.next(), Some(6));

    let mut max = Heap::<i32, GreaterThan>::new_max();
    max.add(6);
    max.add(-6);
    assert_eq!(max.next(), Some(6));
    assert_eq!(max.next(), Some(-6));
}

#[test]
fn into_sorted_vec_min_heap() {
    let mut heap = MinHeap::new::<i32>();
    for v in [9, 4, 7, 4, -1, 0] {
        heap.add(v);
    }
    let sorted = heap.into_sorted_vec();
    assert_eq!(sorted, vec![-1, 0, 4, 4, 7, 9]);
}

#[test]
fn into_sorted_vec_max_heap() {
    let mut heap = MaxHeap::new::<u64>();
    for v in [3, 1, 4, 1, 5, 9, 2, 6] {
        heap.add(v);
    }
    let sorted = heap.into_sorted_vec();
    assert_eq!(sorted, vec![9, 6, 5, 4, 3, 2, 1, 1]);
}

#[test]
fn refill_after_draining() {
    let mut heap = MinHeap::new::<i32>();
    heap.add(10);
    heap.add(20);
    assert_eq!(heap.next(), Some(10));
    assert_eq!(heap.next(), Some(20));
    assert_eq!(heap.next(), None);
    heap.add(15);
    heap.add(5);
    assert_eq!(heap.len(), 2);
    assert_eq!(heap.next(), Some(5));
    assert_eq!(heap.next(), Some(15));
    assert_eq!(heap.next(), None);
}
