use adts::heap::{BinaryHeap, HeapOrder};

#[test]
fn min_heap_serves_ascending() {
    let mut heap: BinaryHeap<i32> = BinaryHeap::min();
    assert!(heap.is_empty());
    heap.extend(vec![5, 1, 4, 2, 3]);
    assert_eq!(heap.size(), 5);
    let mut out = Vec::new();
    while let Some(v) = heap.poll() {
        out.push(v);
    }
    assert_eq!(out, vec![1, 2, 3, 4, 5]);
    assert!(heap.is_empty());
}

#[test]
fn max_heap_serves_descending() {
    let mut heap: BinaryHeap<i32> = BinaryHeap::max();
    heap.extend(vec![5, 1, 4, 2, 3]);
    let mut out = Vec::new();
    while let Some(v) = heap.poll() {
        out.push(v);
    }
    assert_eq!(out, vec![5, 4, 3, 2, 1]);
}

#[test]
fn from_descending_range_polls_ascending() {
    let mut heap = BinaryHeap::from(HeapOrder::Min, (0..10).rev().collect());
    let mut out = Vec::new();
    while let Some(v) = heap.poll() {
        out.push(v);
    }
    assert_eq!(out, (0..10).collect::<Vec<i32>>());
}

#[test]
fn peek_reads_without_removing() {
    let mut heap: BinaryHeap<i32> = BinaryHeap::min();
    assert_eq!(heap.peek(), None);
    heap.offer(7);
    heap.offer(3);
    heap.offer(9);
    assert_eq!(heap.peek(), Some(&3));
    assert_eq!(heap.size(), 3);
    assert_eq!(heap.poll(), Some(3));
    assert_eq!(heap.peek(), Some(&7));
}

#[test]
fn poll_on_empty_is_none() {
    let mut heap: BinaryHeap<i32> = BinaryHeap::min();
    assert_eq!(heap.poll(), None);
}

#[test]
fn duplicates_are_kept() {
    let mut heap: BinaryHeap<i32> = BinaryHeap::min();
    heap.extend(vec![2, 1, 2, 1]);
    assert_eq!(heap.size(), 4);
    let mut out = Vec::new();
    while let Some(v) = heap.poll() {
        out.push(v);
    }
    assert_eq!(out, vec![1, 1, 2, 2]);
}

#[test]
fn clear_and_shrink_reset() {
    let mut heap: BinaryHeap<i32> = BinaryHeap::max();
    heap.extend(vec![1, 2, 3]);
    heap.clear();
    heap.shrink_to_fit();
    assert!(heap.is_empty());
    assert_eq!(heap.size(), 0);
    heap.offer(4);
    assert_eq!(heap.peek(), Some(&4));
}

#[test]
fn iter_unsorted_covers_all_keys() {
    let mut heap: BinaryHeap<i32> = BinaryHeap::min();
    heap.extend(vec![3, 1, 2]);
    let mut seen = Vec::new();
    let mut it = heap.iter_unsorted();
    while let Some(v) = it.next() {
        seen.push(v);
    }
    seen.sort();
    assert_eq!(seen, vec![1, 2, 3]);
    // the heap itself is untouched
    assert_eq!(heap.size(), 3);
    assert_eq!(heap.peek(), Some(&1));
}

#[test]
fn into_iter_drains_in_order() {
    let heap = BinaryHeap::from(HeapOrder::Min, vec![4, 6, 5]);
    let mut it = heap.into_iter();
    assert_eq!(it.next(), Some(4));
    assert_eq!(it.next(), Some(5));
    assert_eq!(it.next(), Some(6));
    assert_eq!(it.next(), None);
}
