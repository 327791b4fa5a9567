use parmap::SplitError;
use parmap::seqmap::map_vec;
use parmap::split;

#[test]
fn better_seq() {
    assert_eq!(split(vec![1, 2, 3], |i| i + 1).unwrap(), vec![2, 3, 4]);
}

#[test]
fn better_par1() {
    assert_eq!(split(vec![1, 2, 3, 4, 5], |i| i + 1).unwrap(), vec![2, 3, 4, 5, 6]);
}

#[test]
fn better_par2() {
    assert_eq!(
        split(
            vec![1, 2, 3, 4, 5, 6, 7, 8, 9, 10, 11, 12, 13, 14, 15, 16, 17, 18, 19],
            |i| i * i
        )
        .unwrap(),
        vec![1, 4, 9, 16, 25, 36, 49, 64, 81, 100, 121, 144, 169, 196, 225, 256, 289, 324, 361],
    );
}

#[test]
fn simple_seq() {
    assert_eq!(split(vec![1, 2, 3], |i| i + 1).unwrap(), vec![2, 3, 4]);
}

#[test]
fn simple_par1() {
    assert_eq!(split(vec![1, 2, 3, 4, 5], |i| i + 1).unwrap(), vec![2, 3, 4, 5, 6]);
}

#[test]
fn simple_par2() {
    assert_eq!(
        split(
            vec![1, 2, 3, 4, 5, 6, 7, 8, 9, 10, 11, 12, 13, 14, 15, 16, 17, 18, 19],
            |i| i * i
        )
        .unwrap(),
        vec![1, 4, 9, 16, 25, 36, 49, 64, 81, 100, 121, 144, 169, 196, 225, 256, 289, 324, 361],
    );
}

#[test]
fn empty_input() {
    assert_eq!(split(Vec::<i32>::new(), |i: i32| i + 1).unwrap(), Vec::<i32>::new());
}

#[test]
fn seq_exactly_at_threshold() {
    assert_eq!(split(vec![1, 2, 3, 4], |i| i * 10).unwrap(), vec![10, 20, 30, 40]);
}

#[test]
fn par_just_above_threshold_matches_sequential() {
    let f = |i: i32| i * i + 1;
    let par = split(vec![1, 2, 3, 4, 5], f).unwrap();
    let seq = map_vec(vec![1, 2, 3, 4, 5], f);
    assert_eq!(par, seq);
}

#[test]
fn uneven_items_all_present_in_order() {
    let data: Vec<i32> = (1..=10).collect();
    assert_eq!(split(data, |i| i).unwrap(), (1..=10).collect::<Vec<i32>>());
}

#[test]
fn rerun_yields_identical_results() {
    let f = |i: i64| i * 3 - 1;
    let a = split((0..100).collect::<Vec<i64>>(), f).unwrap();
    let b = split((0..100).collect::<Vec<i64>>(), f).unwrap();
    assert_eq!(a, b);
    assert_eq!(a, (0..100).map(f).collect::<Vec<i64>>());
}

#[test]
fn worker_failure_aborts_whole_batch() {
    let res: Result<Vec<i32>, SplitError> =
        split(vec![1, 2, 3, 4, 5, 6], |_i: i32| -> i32 { panic!("mapping function fault") });
    assert_eq!(res, Err(SplitError::WorkerFailure));
}

#[test]
fn large_input_keeps_order() {
    let data: Vec<i64> = (0..1000).collect();
    let out = split(data, |i| i * 2 + 1).unwrap();
    assert_eq!(out, (0..1000).map(|i| i * 2 + 1).collect::<Vec<i64>>());
}
