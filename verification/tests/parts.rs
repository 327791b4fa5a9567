use parmap::chunking::partition;
use parmap::mapper::worker_count;
use parmap::merge::check_tiling;
use parmap::merge::concat_parts;
use parmap::merge::sort_partials;
use parmap::seqmap::map_vec;

#[test]
fn map_vec_in_order() {
    assert_eq!(map_vec(vec![1, 2, 3], |i: i32| i - 1), vec![0, 1, 2]);
}

#[test]
fn partition_ten_over_four() {
    let data: Vec<i32> = (1..=10).collect();
    let chunks = partition(data, 4);
    let shape: Vec<(usize, usize)> = chunks.iter().map(|c| (c.0, c.1.len())).collect();
    assert_eq!(shape, vec![(0, 3), (3, 3), (6, 2), (8, 2)]);
    let flat: Vec<i32> = chunks.into_iter().flat_map(|c| c.1).collect();
    assert_eq!(flat, (1..=10).collect::<Vec<i32>>());
}

#[test]
fn partition_fewer_items_than_jobs() {
    let chunks = partition(vec![9, 8], 8);
    assert_eq!(chunks, vec![(0usize, vec![9]), (1usize, vec![8])]);
}

#[test]
fn partition_single_job_takes_all() {
    let chunks = partition(vec![1, 2, 3, 4, 5], 1);
    assert_eq!(chunks, vec![(0usize, vec![1, 2, 3, 4, 5])]);
}

#[test]
fn partition_empty_input() {
    let chunks: Vec<(usize, Vec<i32>)> = partition(Vec::new(), 4);
    assert!(chunks.is_empty());
}

#[test]
fn sort_partials_orders_by_offset() {
    let parts = vec![(5usize, vec![1]), (0usize, vec![2]), (2usize, vec![3])];
    let sorted = sort_partials(parts);
    assert_eq!(sorted, vec![(0usize, vec![2]), (2usize, vec![3]), (5usize, vec![1])]);
}

#[test]
fn reassemble_out_of_order_arrivals() {
    let parts = vec![(6usize, vec![7, 8, 9, 10]), (0usize, vec![1, 2, 3]), (3usize, vec![4, 5, 6])];
    let sorted = sort_partials(parts);
    assert!(check_tiling(&sorted, 10));
    assert_eq!(concat_parts(sorted), vec![1, 2, 3, 4, 5, 6, 7, 8, 9, 10]);
}

#[test]
fn tiling_check_rejects_gap_and_overlap() {
    assert!(!check_tiling(&vec![(0usize, vec![1]), (2usize, vec![2])], 3));
    assert!(!check_tiling(&vec![(0usize, vec![1, 2]), (1usize, vec![3])], 3));
    assert!(!check_tiling(&vec![(0usize, vec![1, 2])], 3));
    assert!(!check_tiling(&vec![(0usize, Vec::<i32>::new()), (0usize, vec![1])], 1));
    assert!(check_tiling(&Vec::<(usize, Vec<i32>)>::new(), 0));
}

#[test]
fn worker_count_at_least_one() {
    assert!(worker_count() >= 1);
}
