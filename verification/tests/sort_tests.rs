use selection_sort::is_sorted;
use selection_sort::selection_sort;
use selection_sort::sort::selection_sort_comparisons;

fn occurrences(v: &Vec<usize>, x: usize) -> usize {
    v.iter().filter(|&&e| e == x).count()
}

fn is_permutation(a: &Vec<usize>, b: &Vec<usize>) -> bool {
    a.len() == b.len() && a.iter().all(|&x| occurrences(a, x) == occurrences(b, x))
}

#[test]
fn sorts_reversed_input() {
    let mut v: Vec<usize> = vec![5, 4, 3, 2, 1];
    selection_sort(&mut v);
    assert_eq!(v, vec![1, 2, 3, 4, 5]);
}

#[test]
fn sorts_mixed_input_exactly() {
    let mut v: Vec<usize> = vec![3, 1, 4, 1, 5, 9, 2, 6, 5, 3];
    selection_sort(&mut v);
    assert_eq!(v, vec![1, 1, 2, 3, 3, 4, 5, 5, 6, 9]);
}

#[test]
fn sort_keeps_duplicates() {
    let original: Vec<usize> = vec![2, 2, 0, 7, 7, 7, 0];
    let mut v = original.clone();
    selection_sort(&mut v);
    assert_eq!(v, vec![0, 0, 2, 2, 7, 7, 7]);
    assert!(is_permutation(&original, &v));
}

#[test]
fn sort_empty_vector() {
    let mut v: Vec<usize> = vec![];
    selection_sort(&mut v);
    assert!(v.is_empty());
    assert!(is_sorted(&v));
}

#[test]
fn sort_single_element() {
    let mut v: Vec<usize> = vec![42];
    selection_sort(&mut v);
    assert_eq!(v, vec![42]);
    assert!(is_sorted(&v));
}

#[test]
fn sort_already_sorted_is_identity() {
    let mut v: Vec<usize> = vec![1, 2, 2, 3, 8];
    selection_sort(&mut v);
    assert_eq!(v, vec![1, 2, 2, 3, 8]);
}

#[test]
fn sort_is_deterministic() {
    let input: Vec<usize> = vec![9, 0, 9, 0, 5, 5, 1];
    let mut a = input.clone();
    let mut b = input.clone();
    selection_sort(&mut a);
    selection_sort(&mut b);
    assert_eq!(a, b);
}

#[test]
fn is_sorted_empty_and_single() {
    assert!(is_sorted(&vec![]));
    assert!(is_sorted(&vec![7]));
}

#[test]
fn is_sorted_accepts_equal_neighbors() {
    assert!(is_sorted(&vec![1, 1, 2, 2, 2, 3]));
}

#[test]
fn is_sorted_rejects_descent() {
    assert!(!is_sorted(&vec![1, 3, 2]));
    assert!(!is_sorted(&vec![2, 1]));
}

#[test]
fn comparison_count_is_independent_of_order() {
    let mut sorted_in: Vec<usize> = vec![1, 2, 3, 4, 5];
    let mut reversed: Vec<usize> = vec![5, 4, 3, 2, 1];
    let c1 = selection_sort_comparisons(&mut sorted_in);
    let c2 = selection_sort_comparisons(&mut reversed);
    assert_eq!(c1, 10);
    assert_eq!(c2, 10);
    assert_eq!(sorted_in, reversed);
}

#[test]
fn comparison_count_small_lengths() {
    let mut empty: Vec<usize> = vec![];
    assert_eq!(selection_sort_comparisons(&mut empty), 0);
    let mut one: Vec<usize> = vec![3];
    assert_eq!(selection_sort_comparisons(&mut one), 0);
    let mut two: Vec<usize> = vec![3, 1];
    assert_eq!(selection_sort_comparisons(&mut two), 1);
    assert_eq!(two, vec![1, 3]);
}
