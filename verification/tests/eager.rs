use vecdb::eager::window::window_best;
use vecdb::eager::EagerVec;
use vecdb::error::Error;
use vecdb::options::ImportOptions;
use vecdb::version::{Format, Version};

fn raw(name: &str) -> EagerVec {
    EagerVec::forced_import_raw_with(&ImportOptions::new(name, Version::one()), Vec::new()).unwrap()
}

fn compressed(name: &str) -> EagerVec {
    EagerVec::forced_import_compressed_with(&ImportOptions::new(name, Version::one()), Vec::new(), Vec::new()).unwrap()
}

fn values(v: &EagerVec) -> Vec<u64> {
    (0..v.len()).map(|i| v.get(i).unwrap().unwrap()).collect()
}

#[test]
fn eager_add_subtract_multiply_divide() {
    let a = [10u64, 20, 30];
    let b = [1u64, 2, 3];
    let mut v = raw("add");
    assert_eq!(v.inner_version(), Version::new(3));
    assert_eq!(v.compute_add(0, &a, Version::new(5), &b, Version::new(7)), Ok(()));
    assert_eq!(values(&v), vec![11, 22, 33]);
    assert_eq!(v.computed_version(), Version::new(3 + 5 + 7));

    let mut v = raw("sub");
    assert_eq!(v.compute_subtract(0, &a, Version::one(), &b, Version::one()), Ok(()));
    assert_eq!(values(&v), vec![9, 18, 27]);

    let mut v = raw("mul");
    assert_eq!(v.compute_multiply(0, &a, Version::one(), &b, Version::one()), Ok(()));
    assert_eq!(values(&v), vec![10, 40, 90]);

    let mut v = raw("div");
    assert_eq!(v.compute_divide(0, &a, Version::one(), &[3, 3, 7], Version::one()), Ok(()));
    assert_eq!(values(&v), vec![3, 6, 4]);

    let mut v = raw("pct");
    assert_eq!(v.compute_percentage(0, &[1, 3, 7], Version::one(), &[4, 4, 5], Version::one()), Ok(()));
    assert_eq!(values(&v), vec![25, 75, 140]);

    let mut v = raw("pct_diff");
    assert_eq!(v.compute_percentage_difference(0, &[150, 200, 500], Version::one(), &[100, 100, 250], Version::one()), Ok(()));
    assert_eq!(values(&v), vec![50, 100, 100]);
}

#[test]
fn eager_version_change_recomputes() {
    let mut v = raw("versions");
    assert_eq!(v.compute_add(0, &[1, 2], Version::one(), &[1, 1], Version::one()), Ok(()));
    assert_eq!(values(&v), vec![2, 3]);
    // Same versions, more values: only the new ones are computed.
    assert_eq!(v.compute_add(usize::MAX, &[100, 200, 3], Version::one(), &[1, 1, 1], Version::one()), Ok(()));
    assert_eq!(values(&v), vec![2, 3, 4]);
    // Another version drops everything first.
    assert_eq!(v.compute_add(usize::MAX, &[100, 200, 3], Version::two(), &[1, 1, 1], Version::one()), Ok(()));
    assert_eq!(values(&v), vec![101, 201, 4]);

    v.validate_computed_version_or_reset(Version::new(99));
    assert_eq!(v.len(), 0);
    assert_eq!(v.computed_version(), Version::new(99));
}

#[test]
fn eager_max_from_recomputes_the_tail() {
    let mut v = raw("tail");
    assert_eq!(v.compute_add(0, &[1, 2, 3, 4], Version::one(), &[0, 0, 0, 0], Version::one()), Ok(()));
    assert_eq!(v.compute_add(2, &[1, 2, 30, 40, 50], Version::one(), &[0, 0, 0, 0, 0], Version::one()), Ok(()));
    assert_eq!(values(&v), vec![1, 2, 30, 40, 50]);
}

#[test]
fn eager_forced_push_at_checks_the_index() {
    let mut v = raw("push");
    assert_eq!(v.forced_push_at(0, 5), Ok(()));
    assert_eq!(v.forced_push_at(1, 6), Ok(()));
    assert_eq!(v.forced_push_at(3, 7), Err(Error::IndexTooHigh { index: 3, len: 2 }));
    assert_eq!(v.forced_push_at(1, 8), Ok(()));
    assert_eq!(values(&v), vec![5, 8]);
}

#[test]
fn eager_window_max_min_sum() {
    let src = [5u64, 1, 4, 2, 8, 3];
    let mut v = raw("max");
    assert_eq!(v.compute_max(0, &src, Version::one(), 3), Ok(()));
    assert_eq!(values(&v), vec![5, 5, 5, 4, 8, 8]);

    let mut v = raw("min");
    assert_eq!(v.compute_min(0, &src, Version::one(), 3), Ok(()));
    assert_eq!(values(&v), vec![5, 1, 1, 1, 2, 2]);

    let mut v = raw("sum");
    assert_eq!(v.compute_sum(0, &src, Version::one(), 2), Ok(()));
    assert_eq!(values(&v), vec![5, 6, 5, 6, 10, 11]);

    assert_eq!(window_best(&src, 0, 0, true), vec![5, 1, 4, 2, 8, 3]);
    assert_eq!(window_best(&src, 2, 2, false), vec![1, 2, 2, 3]);
}

#[test]
fn eager_running_sum_resumed_equals_full() {
    let src = [3u64, 1, 4, 1, 5, 9, 2, 6];
    let mut full = raw("full");
    assert_eq!(full.compute_sum(0, &src, Version::one(), 3), Ok(()));

    let mut resumed = raw("resumed");
    assert_eq!(resumed.compute_sum(0, &src[..5], Version::one(), 3), Ok(()));
    assert_eq!(resumed.compute_sum(usize::MAX, &src, Version::one(), 3), Ok(()));
    assert_eq!(values(&resumed), values(&full));
    assert_eq!(values(&full), vec![3, 4, 8, 6, 10, 15, 16, 17]);
}

#[test]
fn eager_all_time_high_and_low() {
    let src = [3u64, 1, 4, 1, 5, 0, 2];
    let mut v = raw("ath");
    assert_eq!(v.compute_all_time_high(0, &src, Version::one()), Ok(()));
    assert_eq!(values(&v), vec![3, 3, 4, 4, 5, 5, 5]);

    let mut v = raw("atl");
    assert_eq!(v.compute_all_time_low(0, &src, Version::one()), Ok(()));
    assert_eq!(values(&v), vec![3, 1, 1, 1, 1, 0, 0]);

    let mut v = raw("atl_nonzero");
    assert_eq!(v.compute_all_time_low_(0, &src, Version::one(), true), Ok(()));
    assert_eq!(values(&v), vec![3, 1, 1, 1, 1, 0, 1]);

    // Resuming carries the high on from the last kept value.
    let mut v = raw("ath_resume");
    assert_eq!(v.compute_all_time_high(0, &src[..3], Version::one()), Ok(()));
    assert_eq!(v.compute_all_time_high(usize::MAX, &src, Version::one()), Ok(()));
    assert_eq!(values(&v), vec![3, 3, 4, 4, 5, 5, 5]);
}

#[test]
fn eager_compressed_computation_reads_back() {
    let src: Vec<u64> = (0..5000u64).collect();
    let mut v = compressed("ath");
    assert_eq!(v.compute_all_time_high(0, &src, Version::one()), Ok(()));
    assert_eq!(v.len(), 5000);
    assert_eq!(v.get(4999), Ok(Some(4999)));
    assert_eq!(v.get(2048), Ok(Some(2048)));
}

#[test]
fn eager_counts_and_sums_from_indexes() {
    let first = [0u64, 2, 5];
    let mut v = raw("count");
    assert_eq!(v.compute_count_from_indexes(0, &first, Version::one(), 7, Version::one()), Ok(()));
    assert_eq!(values(&v), vec![2, 3, 2]);

    let mut v = raw("filtered");
    assert_eq!(
        v.compute_filtered_count_from_indexes(0, &first, Version::one(), 7, Version::one(), |i| i % 2 == 0),
        Ok(())
    );
    assert_eq!(values(&v), vec![1, 2, 1]);

    let counts = [2u64, 3, 2];
    let src = [1u64, 2, 3, 4, 5, 6, 7];
    let mut v = raw("sum_from");
    assert_eq!(v.compute_sum_from_indexes(0, &first, Version::one(), &counts, Version::one(), &src), Ok(()));
    assert_eq!(values(&v), vec![3, 12, 13]);
}

#[test]
fn eager_inverse_index_maps() {
    let first = [0u64, 2, 5];
    let counts = [2u64, 3, 2];
    let mut v = raw("less_to_more");
    assert_eq!(v.compute_inverse_less_to_more(0, &first, Version::one(), &counts, Version::one()), Ok(()));
    assert_eq!(values(&v), vec![0, 0, 1, 1, 1, 2, 2]);

    let fine_to_coarse = [0u64, 0, 1, 1, 1, 2, 2];
    let mut v = raw("more_to_less");
    assert_eq!(v.compute_inverse_more_to_less(0, &fine_to_coarse, Version::one()), Ok(()));
    assert_eq!(values(&v), vec![0, 2, 5]);

    let mut v = raw("coarser");
    assert_eq!(v.compute_coarser(0, &fine_to_coarse, Version::one()), Ok(()));
    assert_eq!(values(&v), vec![0, 2, 5]);

    // A range that starts past the end cannot be filled.
    let mut v = raw("gap");
    assert_eq!(
        v.compute_inverse_less_to_more(0, &[0, 4], Version::one(), &[2, 1], Version::one()),
        Err(Error::IndexTooHigh { index: 4, len: 2 })
    );
}

#[test]
fn eager_change_others_and_first_ordered() {
    let mut v = raw("change");
    assert_eq!(v.compute_change(0, &[1, 3, 6, 10], Version::one(), 2), Ok(()));
    assert_eq!(values(&v), vec![1, 3, 5, 7]);

    let others = vec![vec![1u64, 5, 3], vec![4u64, 2, 6], vec![0u64, 9, 1]];
    let versions = [Version::one(), Version::one(), Version::one()];
    let mut v = raw("sum_others");
    assert_eq!(v.compute_sum_of_others(0, &others, &versions), Ok(()));
    assert_eq!(values(&v), vec![5, 16, 10]);
    let mut v = raw("min_others");
    assert_eq!(v.compute_min_of_others(0, &others, &versions), Ok(()));
    assert_eq!(values(&v), vec![0, 2, 1]);
    let mut v = raw("max_others");
    assert_eq!(v.compute_max_of_others(0, &others, &versions), Ok(()));
    assert_eq!(values(&v), vec![4, 9, 6]);

    let mut v = raw("first_ordered");
    assert_eq!(v.compute_is_first_ordered(0, &[0, 0, 1], Version::one(), &[0, 2], Version::one()), Ok(()));
    assert_eq!(values(&v), vec![1, 0, 1]);
}

#[test]
fn eager_transform_and_range() {
    let mut v = raw("transform");
    assert_eq!(v.compute_transform(0, &[1, 2, 3], Version::one(), |i, x| x * 10 + i as u64), Ok(()));
    assert_eq!(values(&v), vec![10, 21, 32]);

    let mut v = raw("transform2");
    assert_eq!(v.compute_transform2(0, &[1, 2], Version::one(), &[5, 6], Version::one(), |_, a, b| a + b), Ok(()));
    assert_eq!(values(&v), vec![6, 8]);

    let mut v = raw("range");
    assert_eq!(v.compute_range(0, &[9, 9, 9], Version::one(), |i| (i * i) as u64), Ok(()));
    assert_eq!(values(&v), vec![0, 1, 4]);

    let mut v = raw("from_index");
    assert_eq!(v.compute_from_index(0, &[7, 7, 7, 7], Version::one()), Ok(()));
    assert_eq!(values(&v), vec![0, 1, 2, 3]);

    let mut v = raw("to");
    assert_eq!(v.compute_to(0, 3, Version::one(), |i| i as u64 + 100), Ok(()));
    assert_eq!(values(&v), vec![100, 101, 102]);
    assert_eq!(
        EagerVec::forced_import_with(&ImportOptions::new("fmt", Version::one()), Format::Raw, Vec::new(), Vec::new())
            .unwrap()
            .len(),
        0
    );
}

#[test]
fn eager_region_names_follow_the_format() {
    assert_eq!(raw("heights").region_names(), vec!["heights".to_string()]);
    assert_eq!(compressed("prices").remove(), vec!["prices".to_string(), "prices_pages".to_string()]);
}
