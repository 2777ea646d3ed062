use workpool::heapsort;
use workpool::heapsort_alt;
use workpool::quicksort::{partition_hoare, quicksort_3way, quicksort_hoare, quicksort_lomuto};

#[test]
fn lomuto_sorts_the_demo_array() {
    let mut arr = vec![8, 3, 1, 7, 0, 10, 2, 12, 5, 9];
    quicksort_lomuto(&mut arr);
    assert_eq!(arr, vec![0, 1, 2, 3, 5, 7, 8, 9, 10, 12]);
}

#[test]
fn hoare_sorts_the_demo_array() {
    let mut arr = vec![8, 3, 1, 7, 0, 10, 2, 12, 5, 9];
    quicksort_hoare(&mut arr);
    assert_eq!(arr, vec![0, 1, 2, 3, 5, 7, 8, 9, 10, 12]);
}

#[test]
fn three_way_sorts_the_demo_array() {
    let mut arr = vec![8, 3, 1, 7, 0, 10, 2, 12, 5, 9];
    quicksort_3way(&mut arr);
    assert_eq!(arr, vec![0, 1, 2, 3, 5, 7, 8, 9, 10, 12]);
}

#[test]
fn quicksorts_handle_duplicates_and_negatives() {
    let cases: Vec<Vec<i32>> = vec![
        vec![],
        vec![1],
        vec![2, 2, 2, 2],
        vec![5, -3, 5, -3, 0],
        vec![9, 8, 7, 6, 5, 4, 3, 2, 1],
    ];
    for case in cases {
        let mut expected = case.clone();
        expected.sort();

        let mut a = case.clone();
        quicksort_lomuto(&mut a);
        assert_eq!(a, expected);

        let mut b = case.clone();
        quicksort_hoare(&mut b);
        assert_eq!(b, expected);

        let mut c = case.clone();
        quicksort_3way(&mut c);
        assert_eq!(c, expected);
    }
}

#[test]
fn heapsort_sorts_the_demo_array() {
    let mut arr: Vec<usize> = vec![8, 3, 1, 7, 0, 10, 2, 12, 5, 9];
    heapsort::heapsort(&mut arr);
    assert_eq!(arr, vec![0, 1, 2, 3, 5, 7, 8, 9, 10, 12]);
}

#[test]
fn heapsort_alt_sorts_the_demo_array() {
    let mut arr: Vec<usize> = vec![8, 3, 1, 7, 0, 10, 2, 12, 5, 9];
    heapsort_alt::heapsort(&mut arr);
    assert_eq!(arr, vec![0, 1, 2, 3, 5, 7, 8, 9, 10, 12]);
}

#[test]
fn heapsort_handles_duplicates_and_edges() {
    let cases: Vec<Vec<usize>> = vec![vec![], vec![4], vec![3, 3, 3], vec![2, 1], vec![1, 2]];
    for case in cases {
        let mut expected = case.clone();
        expected.sort();

        let mut a = case.clone();
        heapsort::heapsort(&mut a);
        assert_eq!(a, expected);

        let mut b = case.clone();
        heapsort_alt::heapsort(&mut b);
        assert_eq!(b, expected);
    }
}

#[test]
fn heapify_moves_the_largest_child_up() {
    let mut arr: Vec<usize> = vec![1, 5, 9];
    heapsort::heapify(&mut arr, 3, 0);
    assert_eq!(arr[0], 9);

    let mut arr2: Vec<usize> = vec![1, 5, 9];
    heapsort_alt::heapify(&mut arr2, 0, 3);
    assert_eq!(arr2[0], 9);
}

#[test]
fn hoare_partition_on_a_single_cell_window() {
    let mut arr = vec![4, 9, 7, 1];
    let p = partition_hoare(&mut arr, 2, 2);
    assert_eq!(p, 2);
    assert_eq!(arr, vec![4, 9, 7, 1]);
}
