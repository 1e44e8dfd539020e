use parsort::merge;
use parsort::merge_sort;
use parsort::sort_chunk;

#[test]
fn it_works() {
    assert_eq!(merge_sort(vec![4, 3]), vec![3, 4]);
}

#[test]
fn test_base_case() {
    assert_eq!(merge_sort(vec![3]), vec![3]);
}

#[test]
fn totally_backwards() {
    assert_eq!(
        merge_sort(vec![100, 90, 50, 14, 9, 7, 3]),
        vec![3, 7, 9, 14, 50, 90, 100]
    );
}

#[test]
fn already_ordered() {
    assert_eq!(merge_sort(vec![3, 4, 5, 6, 7]), vec![3, 4, 5, 6, 7])
}

#[test]
fn repeated_elements() {
    assert_eq!(merge_sort(vec![3, 3, 3, 2]), vec![2, 3, 3, 3]);
}

#[test]
fn merge_two_sorted() {
    assert_eq!(merge(vec![1, 4, 6], vec![2, 3, 7]), vec![1, 2, 3, 4, 6, 7]);
}

#[test]
fn merge_left_empty() {
    assert_eq!(merge(vec![], vec![2, 5]), vec![2, 5]);
}

#[test]
fn merge_right_empty() {
    assert_eq!(merge(vec![1, 3], vec![]), vec![1, 3]);
}

#[test]
fn merge_length_is_sum_of_inputs() {
    assert_eq!(merge(vec![0, 2, 4], vec![1, 3]).len(), 5);
}

#[test]
fn merge_keeps_duplicates() {
    assert_eq!(merge(vec![2, 2], vec![1, 2]), vec![1, 2, 2, 2]);
}

#[test]
fn sort_chunk_handles_empty_input() {
    let empty: Vec<usize> = vec![];
    assert_eq!(sort_chunk(empty), vec![]);
}

#[test]
fn sort_chunk_sorts() {
    assert_eq!(sort_chunk(vec![2, 1, 2]), vec![1, 2, 2]);
}
