use algorithms::sort::bubble::bubble_sort;
use algorithms::sort::heap::{_parent, build_heap, heap_sort, left, max_heapify, min_heapify, right};
use algorithms::sort::insertion::insertion_sort;
use algorithms::sort::merge::{merge, merge_sort};
use algorithms::sort::quick::{_quick_sort, partition, quick_sort};
use rand::{thread_rng, Rng};

// Test Arrays and Solutions
fn get_random_array_float() -> [f64; 32] {
    let array = [(); 32].map(|_| thread_rng().gen_range(-100.0..100.0));
    array
}

fn get_random_array_int() -> [i32; 32] {
    let array = [(); 32].map(|_| thread_rng().gen_range(-100..100));
    array
}

fn verify_asc<T: PartialOrd>(array: &[T]) -> bool {
    let mut check = true;
    for i in 1..array.len() {
        if array[i] < array[i - 1] {
            check = false;
            break;
        }
    }

    check
}

fn verify_desc<T: PartialOrd>(array: &[T]) -> bool {
    let mut check = true;
    for i in 1..array.len() {
        if array[i] > array[i - 1] {
            check = false;
            break;
        }
    }

    check
}

fn same_elements(before: &[i32], after: &[i32]) -> bool {
    let mut left = before.to_vec();
    let mut right = after.to_vec();
    left.sort();
    right.sort();
    left == right
}

fn is_heap(data: &[i32], size: usize, min_first: bool) -> bool {
    let mut ok = true;
    for child in 1..size {
        let parent = (child - 1) / 2;
        if min_first {
            ok = ok && data[parent] <= data[child];
        } else {
            ok = ok && data[parent] >= data[child];
        }
    }
    ok
}

// Sort Tests

#[test]
fn sort_tests_test_insertion_sort_asc() {
    let mut test_float: [f64; 32] = get_random_array_float();
    insertion_sort(&mut test_float, true);
    assert!(verify_asc(&test_float));

    let mut test_int: [i32; 32] = get_random_array_int();
    insertion_sort(&mut test_int, true);
    assert!(verify_asc(&test_int));
}

#[test]
fn sort_tests_test_insertion_sort_desc() {
    let mut test_float: [f64; 32] = get_random_array_float();
    insertion_sort(&mut test_float, false);
    assert!(verify_desc(&test_float));

    let mut test_int: [i32; 32] = get_random_array_int();
    insertion_sort(&mut test_int, false);
    assert!(verify_desc(&test_int));
}

#[test]
fn sort_tests_test_merge_sort_asc() {
    let mut test_float: [f64; 32] = get_random_array_float();
    merge_sort(&mut test_float, 0, 31, true);
    assert!(verify_asc(&test_float));

    let mut test_int: [i32; 32] = get_random_array_int();
    merge_sort(&mut test_int, 0, 31, true);
    assert!(verify_asc(&test_int));
}

#[test]
fn sort_tests_test_merge_sort_desc() {
    let mut test_float: [f64; 32] = get_random_array_float();
    merge_sort(&mut test_float, 0, 31, false);
    assert!(verify_desc(&test_float));

    let mut test_int: [i32; 32] = get_random_array_int();
    merge_sort(&mut test_int, 0, 31, false);
    assert!(verify_desc(&test_int));
}

#[test]
fn sort_tests_test_bubble_sort_asc() {
    let mut test_float: [f64; 32] = get_random_array_float();
    bubble_sort(&mut test_float, true);
    assert!(verify_asc(&test_float));

    let mut test_int: [i32; 32] = get_random_array_int();
    bubble_sort(&mut test_int, true);
    assert!(verify_asc(&test_int));
}

#[test]
fn sort_tests_test_bubble_sort_desc() {
    let mut test_float: [f64; 32] = get_random_array_float();
    bubble_sort(&mut test_float, false);
    assert!(verify_desc(&test_float));

    let mut test_int: [i32; 32] = get_random_array_int();
    bubble_sort(&mut test_int, false);
    assert!(verify_desc(&test_int));
}

#[test]
fn sort_tests_test_heap_sort_asc() {
    let mut test_float: [f64; 32] = get_random_array_float();
    heap_sort(&mut test_float, true);
    assert!(verify_asc(&test_float));

    let mut test_int: [i32; 32] = get_random_array_int();
    heap_sort(&mut test_int, true);
    assert!(verify_asc(&test_int));
}

#[test]
fn sort_tests_test_heap_sort_desc() {
    let mut test_float: [f64; 32] = get_random_array_float();
    heap_sort(&mut test_float, false);
    assert!(verify_desc(&test_float));

    let mut test_int: [i32; 32] = get_random_array_int();
    heap_sort(&mut test_int, false);
    assert!(verify_desc(&test_int));
}

#[test]
fn sort_tests_test_quick_sort_asc() {
    let mut test_float: [f64; 32] = get_random_array_float();
    quick_sort(&mut test_float);
    assert!(verify_asc(&test_float));

    let mut test_int: [i32; 32] = get_random_array_int();
    quick_sort(&mut test_int);
    assert!(verify_asc(&test_int));
}

#[test]
fn every_sort_keeps_the_elements() {
    let start: [i32; 32] = get_random_array_int();
    let mut data = start;
    insertion_sort(&mut data, true);
    assert!(same_elements(&start, &data));
    data = start;
    bubble_sort(&mut data, false);
    assert!(same_elements(&start, &data));
    data = start;
    merge_sort(&mut data, 0, 31, true);
    assert!(same_elements(&start, &data));
    data = start;
    heap_sort(&mut data, false);
    assert!(same_elements(&start, &data));
    data = start;
    quick_sort(&mut data);
    assert!(same_elements(&start, &data));
}

#[test]
fn every_sort_agrees_with_the_standard_sort() {
    let start: [i32; 32] = get_random_array_int();
    let mut ascending = start;
    ascending.sort();
    let mut descending = ascending;
    descending.reverse();

    let mut data = start;
    insertion_sort(&mut data, true);
    assert_eq!(data, ascending);
    data = start;
    insertion_sort(&mut data, false);
    assert_eq!(data, descending);
    data = start;
    bubble_sort(&mut data, true);
    assert_eq!(data, ascending);
    data = start;
    bubble_sort(&mut data, false);
    assert_eq!(data, descending);
    data = start;
    merge_sort(&mut data, 0, 31, true);
    assert_eq!(data, ascending);
    data = start;
    merge_sort(&mut data, 0, 31, false);
    assert_eq!(data, descending);
    data = start;
    heap_sort(&mut data, true);
    assert_eq!(data, ascending);
    data = start;
    heap_sort(&mut data, false);
    assert_eq!(data, descending);
    data = start;
    quick_sort(&mut data);
    assert_eq!(data, ascending);
}

#[test]
fn quick_sort_takes_empty_single_and_sorted() {
    let mut empty: [i32; 0] = [];
    quick_sort(&mut empty);
    assert_eq!(empty, []);
    let mut single = [3];
    quick_sort(&mut single);
    assert_eq!(single, [3]);
    let mut sorted = [1, 2, 3, 4, 5];
    quick_sort(&mut sorted);
    assert_eq!(sorted, [1, 2, 3, 4, 5]);
    let mut reversed = [5, 4, 3, 2, 1];
    quick_sort(&mut reversed);
    assert_eq!(reversed, [1, 2, 3, 4, 5]);
    let mut equal = [2, 2, 2];
    quick_sort(&mut equal);
    assert_eq!(equal, [2, 2, 2]);
}

#[test]
fn quick_sort_of_a_range_leaves_the_rest_alone() {
    let mut data = [9, 8, 7, 6, 5, 4, 3];
    _quick_sort(&mut data, 2, 5);
    assert_eq!(data, [9, 8, 4, 5, 6, 7, 3]);
    _quick_sort(&mut data, 3, 3);
    assert_eq!(data, [9, 8, 4, 5, 6, 7, 3]);
    _quick_sort(&mut data, 0, -1);
    assert_eq!(data, [9, 8, 4, 5, 6, 7, 3]);
}

#[test]
fn partition_around_the_last_element() {
    let mut data = [-1, 5, 4, 1, 0];
    let pivot_index = partition(&mut data, 0, 4);
    assert_eq!(pivot_index, 1);
    assert_eq!(data, [-1, 0, 4, 1, 5]);
    let mut data = [3, 8, 2, 5, 1, 4];
    let pivot_index = partition(&mut data, 0, 5);
    assert_eq!(pivot_index, 3);
    assert_eq!(data, [3, 2, 1, 4, 8, 5]);
    let mut data = [6, 5];
    assert_eq!(partition(&mut data, 0, 1), 0);
    assert_eq!(data, [5, 6]);
}

#[test]
fn merge_joins_two_sorted_runs() {
    let mut data = [1, 4, 7, 2, 3, 9];
    merge(&mut data, 0, 2, 5, true);
    assert_eq!(data, [1, 2, 3, 4, 7, 9]);
    let mut data = [0, 9, 5, 1, 8, 6, 0];
    merge(&mut data, 1, 3, 5, false);
    assert_eq!(data, [0, 9, 8, 6, 5, 1, 0]);
    let mut data = [2, 1];
    merge(&mut data, 0, 0, 1, true);
    assert_eq!(data, [1, 2]);
}

#[test]
fn merge_takes_from_the_left_on_ties() {
    let mut data = [(1, 'a'), (2, 'b'), (1, 'c'), (2, 'd')];
    merge(&mut data, 0, 1, 3, true);
    assert_eq!(data, [(1, 'a'), (1, 'c'), (2, 'b'), (2, 'd')]);
}

#[test]
fn heap_indices() {
    assert_eq!(left(&0), 1);
    assert_eq!(right(&0), 2);
    assert_eq!(left(&3), 7);
    assert_eq!(right(&3), 8);
    assert_eq!(_parent(&1), 0);
    assert_eq!(_parent(&2), 0);
    assert_eq!(_parent(&7), 3);
    assert_eq!(_parent(&8), 3);
}

#[test]
fn max_heapify_sifts_down() {
    let mut data = [1, 9, 8, 4, 5, 6, 7];
    max_heapify(&mut data, &0, &7);
    assert_eq!(data, [9, 5, 8, 4, 1, 6, 7]);
    let mut data = [1, 9, 8];
    max_heapify(&mut data, &0, &2);
    assert_eq!(data, [9, 1, 8]);
    max_heapify(&mut data, &2, &3);
    assert_eq!(data, [9, 1, 8]);
    max_heapify(&mut data, &5, &3);
    assert_eq!(data, [9, 1, 8]);
}

#[test]
fn min_heapify_sifts_down() {
    let mut data = [9, 1, 2, 4, 5, 6, 7];
    min_heapify(&mut data, &0, &7);
    assert_eq!(data, [1, 4, 2, 9, 5, 6, 7]);
    let mut data = [3, 2, 1];
    min_heapify(&mut data, &0, &3);
    assert_eq!(data, [1, 2, 3]);
}

#[test]
fn build_heap_builds_a_heap() {
    let start: [i32; 32] = get_random_array_int();
    let mut data = start;
    build_heap(&mut data, true);
    assert!(is_heap(&data, 32, false));
    assert!(same_elements(&start, &data));
    data = start;
    build_heap(&mut data, false);
    assert!(is_heap(&data, 32, true));
    assert!(same_elements(&start, &data));
    let mut small = [4, 10, 3, 5, 1];
    build_heap(&mut small, true);
    assert_eq!(small, [10, 5, 3, 4, 1]);
}
