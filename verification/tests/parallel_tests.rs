use parsort::is_power_of_two;
use parsort::merge_sort;
use parsort::parallel_merge_sort;
use parsort::SortError;

#[test]
fn one_thread() {
    let array = vec![1, 3, 4, 2];
    let sorted = parallel_merge_sort(array, 1, 1).unwrap();
    let correct = vec![1, 2, 3, 4];
    assert_eq!(sorted, correct);
}

#[test]
fn arrays_if_len_1() {
    let array = vec![1, 3, 4, 2];
    let sorted = parallel_merge_sort(array, 4, 4).unwrap();
    let correct = vec![1, 2, 3, 4];
    assert_eq!(sorted, correct);
}

#[test]
fn wrong_length() {
    let array = vec![1, 3, 4];
    assert_eq!(
        parallel_merge_sort(array, 4, 4),
        Err(SortError::InsufficientInputError)
    );
}

#[test]
fn n_jobs_power_of_2() {
    let array = vec![1, 3, 4, 4, 5, 2, 1, 4, 8];
    assert_eq!(
        parallel_merge_sort(array, 4, 6),
        Err(SortError::ConfigurationError)
    );
}

#[test]
fn n_workers_power_of_2() {
    let array = vec![1, 3, 4, 4, 5, 2, 1, 4, 8];
    assert_eq!(
        parallel_merge_sort(array, 3, 2),
        Err(SortError::ConfigurationError)
    );
}

#[test]
fn job_count_of_three_is_rejected_whatever_the_worker_count() {
    for w in [1, 2, 3, 8] {
        assert_eq!(
            parallel_merge_sort(vec![1, 2, 3, 4], w, 3),
            Err(SortError::ConfigurationError)
        );
    }
}

#[test]
fn single_element_input_is_returned_unchanged() {
    assert_eq!(parallel_merge_sort(vec![5], 1, 1).unwrap(), vec![5]);
    assert_eq!(merge_sort(vec![5]), vec![5]);
}

#[test]
fn parallel_matches_sequential() {
    let input = vec![9, 1, 8, 2, 7, 3, 6, 4, 5, 0, 9, 1];
    let expected = merge_sort(input.clone());
    for (w, j) in [(1, 1), (2, 2), (4, 4), (2, 8), (8, 2), (4, 1)] {
        assert_eq!(parallel_merge_sort(input.clone(), w, j).unwrap(), expected);
    }
}

#[test]
fn jobs_are_sorted_not_copied() {
    assert_eq!(
        parallel_merge_sort(vec![4, 3, 2, 1], 2, 2).unwrap(),
        vec![1, 2, 3, 4]
    );
}

#[test]
fn duplicates_survive_the_parallel_path() {
    assert_eq!(
        parallel_merge_sort(vec![3, 3, 3, 2], 4, 4).unwrap(),
        vec![2, 3, 3, 3]
    );
}

#[test]
fn uneven_jobs_with_empty_tail() {
    assert_eq!(
        parallel_merge_sort(vec![5, 4, 3, 2, 1], 4, 4).unwrap(),
        vec![1, 2, 3, 4, 5]
    );
    assert_eq!(
        parallel_merge_sort(vec![9, 8, 7, 6, 5, 4, 3, 2, 1], 4, 4).unwrap(),
        vec![1, 2, 3, 4, 5, 6, 7, 8, 9]
    );
}

#[test]
fn power_of_two_detection() {
    assert!(is_power_of_two(1));
    assert!(is_power_of_two(2));
    assert!(is_power_of_two(64));
    assert!(!is_power_of_two(0));
    assert!(!is_power_of_two(3));
    assert!(!is_power_of_two(6));
}
