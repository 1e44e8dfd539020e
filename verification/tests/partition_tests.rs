use parsort::partition;

#[test]
fn partition_even_split() {
    assert_eq!(partition(8, 4), vec![(0, 2), (2, 4), (4, 6), (6, 8)]);
}

#[test]
fn partition_uneven_split_shortens_the_last_job() {
    assert_eq!(partition(10, 4), vec![(0, 3), (3, 6), (6, 9), (9, 10)]);
}

#[test]
fn partition_single_job_covers_everything() {
    assert_eq!(partition(7, 1), vec![(0, 7)]);
}

#[test]
fn partition_may_leave_a_trailing_empty_range() {
    assert_eq!(partition(9, 4), vec![(0, 3), (3, 6), (6, 9), (9, 9)]);
}

#[test]
fn partition_clamps_to_the_input_length() {
    assert_eq!(partition(5, 4), vec![(0, 2), (2, 4), (4, 5), (5, 5)]);
}

#[test]
fn partition_ranges_are_contiguous_and_cover_the_input() {
    for (n, j) in [(16, 4), (17, 4), (31, 8), (12, 2), (4, 4)] {
        let ranges = partition(n, j);
        assert_eq!(ranges.len(), j);
        assert_eq!(ranges[0].0, 0);
        assert_eq!(ranges[j - 1].1, n);
        for i in 0..j {
            assert!(ranges[i].0 <= ranges[i].1);
            assert!(ranges[i].1 <= n);
            if i + 1 < j {
                assert_eq!(ranges[i].1, ranges[i + 1].0);
            }
        }
    }
}
