use compare_sort_algorithms::counting_sort::counting_sort;
use compare_sort_algorithms::insertion_sort::insertion_sort;
use compare_sort_algorithms::merge_sort::merge;
use compare_sort_algorithms::merge_sort::merge_sort;
use compare_sort_algorithms::quick_sort::partition;
use compare_sort_algorithms::quick_sort::quick_sort;
use compare_sort_algorithms::radix_sort::counting_sort_for_radix;
use compare_sort_algorithms::radix_sort::radix_sort;
use compare_sort_algorithms::selection_sort::selection_sort;
use compare_sort_algorithms::is_sorted;

#[test]
fn counting_sort_scenario() {
    let mut v = vec![5, 3, 3, 1];
    counting_sort(&mut v);
    assert_eq!(v, vec![1, 3, 3, 5]);
    assert!(is_sorted(&v));
}

#[test]
fn insertion_sort_scenario() {
    let mut v = vec![5, 3, 3, 1];
    insertion_sort(&mut v);
    assert_eq!(v, vec![1, 3, 3, 5]);
    assert!(is_sorted(&v));
}

#[test]
fn merge_sort_scenario() {
    let mut v = vec![5, 3, 3, 1];
    merge_sort(&mut v);
    assert_eq!(v, vec![1, 3, 3, 5]);
    assert!(is_sorted(&v));
}

#[test]
fn quick_sort_scenario() {
    let mut v = vec![5, 3, 3, 1];
    quick_sort(&mut v);
    assert_eq!(v, vec![1, 3, 3, 5]);
    assert!(is_sorted(&v));
}

#[test]
fn radix_sort_scenario() {
    let mut v = vec![5, 3, 3, 1];
    radix_sort(&mut v);
    assert_eq!(v, vec![1, 3, 3, 5]);
    assert!(is_sorted(&v));
}

#[test]
fn selection_sort_scenario() {
    let mut v = vec![5, 3, 3, 1];
    selection_sort(&mut v);
    assert_eq!(v, vec![1, 3, 3, 5]);
    assert!(is_sorted(&v));
}

#[test]
fn empty_input_sorts_trivially() {
    let mut a: Vec<i32> = Vec::new();
    counting_sort(&mut a);
    assert_eq!(a.len(), 0);
    assert!(is_sorted(&a));
    let mut b: Vec<i32> = Vec::new();
    insertion_sort(&mut b);
    assert_eq!(b.len(), 0);
    let mut c: Vec<i32> = Vec::new();
    merge_sort(&mut c);
    assert_eq!(c.len(), 0);
    let mut d: Vec<i32> = Vec::new();
    quick_sort(&mut d);
    assert_eq!(d.len(), 0);
    let mut e: Vec<i32> = Vec::new();
    radix_sort(&mut e);
    assert_eq!(e.len(), 0);
    let mut f: Vec<i32> = Vec::new();
    selection_sort(&mut f);
    assert_eq!(f.len(), 0);
}

#[test]
fn single_element_stays_put() {
    let mut a = vec![7];
    counting_sort(&mut a);
    assert_eq!(a, vec![7]);
    let mut b = vec![7];
    insertion_sort(&mut b);
    assert_eq!(b, vec![7]);
    let mut c = vec![7];
    merge_sort(&mut c);
    assert_eq!(c, vec![7]);
    let mut d = vec![7];
    quick_sort(&mut d);
    assert_eq!(d, vec![7]);
    let mut e = vec![7];
    radix_sort(&mut e);
    assert_eq!(e, vec![7]);
    let mut f = vec![7];
    selection_sort(&mut f);
    assert_eq!(f, vec![7]);
}

#[test]
fn negative_values_sort_where_supported() {
    let mut a = vec![-5, 3, 0, -5, 12];
    counting_sort(&mut a);
    assert_eq!(a, vec![-5, -5, 0, 3, 12]);
    let mut b = vec![-5, 3, 0, -5, 12];
    insertion_sort(&mut b);
    assert_eq!(b, vec![-5, -5, 0, 3, 12]);
    let mut c = vec![-5, 3, 0, -5, 12];
    merge_sort(&mut c);
    assert_eq!(c, vec![-5, -5, 0, 3, 12]);
    let mut d = vec![-5, 3, 0, -5, 12];
    quick_sort(&mut d);
    assert_eq!(d, vec![-5, -5, 0, 3, 12]);
    let mut f = vec![-5, 3, 0, -5, 12];
    selection_sort(&mut f);
    assert_eq!(f, vec![-5, -5, 0, 3, 12]);
}

#[test]
fn radix_sort_all_negative_returns_input_unchanged() {
    // no digit pass runs on an all-negative input: it comes back as
    // it was, here not sorted
    let mut v = vec![-1, -5, -3];
    radix_sort(&mut v);
    assert_eq!(v, vec![-1, -5, -3]);
    assert!(!is_sorted(&v));
}

#[test]
fn radix_sort_larger_values() {
    let mut v = vec![170, 45, 75, 90, 802, 24, 2, 66];
    radix_sort(&mut v);
    assert_eq!(v, vec![2, 24, 45, 66, 75, 90, 170, 802]);
}

#[test]
fn radix_pass_orders_by_single_digit() {
    let mut v = vec![13, 21, 33, 40];
    counting_sort_for_radix(&mut v, 1);
    assert_eq!(v, vec![40, 21, 13, 33]);
}

#[test]
fn radix_pass_is_stable() {
    // equal digits keep their input order
    let mut v = vec![31, 11, 21];
    counting_sort_for_radix(&mut v, 1);
    assert_eq!(v, vec![31, 11, 21]);
}

#[test]
fn partition_splits_around_last_element() {
    let mut v = vec![3, 1, 2];
    let p = partition(&mut v, 0, 3);
    assert_eq!(p, 1);
    assert_eq!(v, vec![1, 2, 3]);
}

#[test]
fn merge_interleaves_two_sorted_arrays() {
    let mut arr = vec![0; 5];
    let left = vec![1, 3, 5];
    let right = vec![2, 4];
    merge(&mut arr, &left, &right);
    assert_eq!(arr, vec![1, 2, 3, 4, 5]);
}

#[test]
fn merge_prefers_left_on_ties() {
    let mut arr = vec![0; 4];
    let left = vec![2, 2];
    let right = vec![2, 3];
    merge(&mut arr, &left, &right);
    assert_eq!(arr, vec![2, 2, 2, 3]);
}

#[test]
fn is_sorted_accepts_non_decreasing() {
    assert!(is_sorted(&vec![]));
    assert!(is_sorted(&vec![4]));
    assert!(is_sorted(&vec![1, 1, 2, 9]));
}

#[test]
fn is_sorted_rejects_a_descent() {
    assert!(!is_sorted(&vec![1, 3, 2]));
    assert!(!is_sorted(&vec![2, 1]));
}

#[test]
fn extremes_of_the_value_range() {
    let mut v = vec![i32::MAX, 0, i32::MIN, 5];
    insertion_sort(&mut v);
    assert_eq!(v, vec![i32::MIN, 0, 5, i32::MAX]);
    let mut w = vec![i32::MAX, 0, 5];
    radix_sort(&mut w);
    assert_eq!(w, vec![0, 5, i32::MAX]);
}

#[test]
fn already_sorted_and_reversed_inputs() {
    let mut a = vec![1, 2, 3, 4, 5];
    quick_sort(&mut a);
    assert_eq!(a, vec![1, 2, 3, 4, 5]);
    let mut b = vec![5, 4, 3, 2, 1];
    selection_sort(&mut b);
    assert_eq!(b, vec![1, 2, 3, 4, 5]);
    let mut c = vec![5, 4, 3, 2, 1];
    merge_sort(&mut c);
    assert_eq!(c, vec![1, 2, 3, 4, 5]);
}
