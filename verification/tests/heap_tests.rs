use algorithms::data_structures::heap::{_parent, left, right, BinaryHeap, MaxHeap, MinHeap};

#[test]
fn new_heaps_are_empty() {
    let min_heap: BinaryHeap<i32> = BinaryHeap::new_min();
    assert_eq!(min_heap.len(), 0);
    assert!(matches!(min_heap, BinaryHeap::Min(_)));
    let max_heap: BinaryHeap<i32> = BinaryHeap::new_max();
    assert_eq!(max_heap.len(), 0);
    assert!(matches!(max_heap, BinaryHeap::Max(_)));
    let _min: MinHeap<i32> = MinHeap::new();
    let _max: MaxHeap<i32> = MaxHeap::new();
}

#[test]
fn heaps_from_data_hold_every_element() {
    let existing_data = vec![4, 10, 3, 5, 1];
    let min_heap: BinaryHeap<i32> = BinaryHeap::from_data_min(existing_data.clone());
    assert_eq!(min_heap.len(), 5);
    assert!(matches!(min_heap, BinaryHeap::Min(_)));
    let max_heap: BinaryHeap<i32> = BinaryHeap::from_data_max(existing_data);
    assert_eq!(max_heap.len(), 5);
    assert!(matches!(max_heap, BinaryHeap::Max(_)));
    let empty: BinaryHeap<i32> = BinaryHeap::from_data_max(Vec::new());
    assert_eq!(empty.len(), 0);
}

#[test]
fn heaps_from_data_of_any_length() {
    for length in 0..40usize {
        let data: Vec<usize> = (0..length).map(|k| (k * 7) % 11).collect();
        assert_eq!(BinaryHeap::Min(MinHeap::from_data(data.clone())).len(), length);
        assert_eq!(BinaryHeap::Max(MaxHeap::from_data(data)).len(), length);
    }
}

#[test]
fn heap_indices_of_the_container() {
    assert_eq!(left(&0), 1);
    assert_eq!(right(&0), 2);
    assert_eq!(left(&5), 11);
    assert_eq!(right(&5), 12);
    assert_eq!(_parent(&11), 5);
    assert_eq!(_parent(&12), 5);
    assert_eq!(_parent(&1), 0);
}
