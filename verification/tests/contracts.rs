use vecdb::bench::partitions;
use vecdb::compressed::vec::{CompressedVec, PER_PAGE};
use vecdb::eager::EagerVec;
use vecdb::error::Error;
use vecdb::options::ImportOptions;
use vecdb::raw::read_write::ReadWriteRawVec;
use vecdb::stamped::StampedVec;
use vecdb::version::{Format, Version};

fn compressed_vec(name: &str) -> CompressedVec {
    CompressedVec::import_with(&ImportOptions::new(name, Version::one()), Vec::new(), Vec::new()).unwrap()
}

fn raw_vec(name: &str) -> ReadWriteRawVec<u64> {
    ReadWriteRawVec::<u64>::import_with(&ImportOptions::new(name, Version::one()), Format::Raw, Vec::new(), None)
        .unwrap()
}

fn eager_raw(name: &str) -> EagerVec {
    EagerVec::forced_import_raw_with(&ImportOptions::new(name, Version::one()), Vec::new()).unwrap()
}

fn eager_values(v: &EagerVec) -> Vec<u64> {
    (0..v.len()).map(|i| v.get(i).unwrap().unwrap()).collect()
}

#[test]
fn compressed_write_reports_pending_values() {
    let mut vec = compressed_vec("v");
    vec.push(1);
    vec.push(2);
    assert_eq!(vec.write(), Ok(true));
    vec.push(3);
    assert_eq!(vec.write(), Ok(true));
    assert_eq!(vec.stored_len(), 3);
    assert_eq!(vec.real_stored_len(), 3);
    assert!(vec.pushed().is_empty());
    let got: Vec<Option<u64>> = (0..4).map(|i| vec.get_pushed_or_read_at(i).unwrap()).collect();
    assert_eq!(got, vec![Some(1), Some(2), Some(3), None]);
}

#[test]
fn compressed_write_with_nothing_pending_changes_nothing() {
    let mut vec = compressed_vec("idle");
    for i in 0..(PER_PAGE as u64 + 5) {
        vec.push(i);
    }
    assert_eq!(vec.write(), Ok(true));
    let region = vec.region().to_vec();
    let pages = vec.pages_region().to_vec();
    assert_eq!(vec.write(), Ok(false));
    assert_eq!(vec.region(), &region[..]);
    assert_eq!(vec.pages_region(), &pages[..]);
    assert_eq!(vec.stored_len(), PER_PAGE + 5);
    assert_eq!(vec.flush(), Ok(()));
    assert_eq!(vec.region(), &region[..]);
}

#[test]
fn compressed_write_after_truncation_rewrites_the_cut_page() {
    let mut vec = compressed_vec("cut");
    for i in 0..10u64 {
        vec.push(i * 7);
    }
    assert_eq!(vec.write(), Ok(true));
    vec.truncate_if_needed_at(4);
    assert_eq!(vec.write(), Ok(true));
    assert_eq!(vec.stored_len(), 4);
    assert_eq!(vec.real_stored_len(), 4);
    assert_eq!(vec.read_at(3), Ok(21));
    assert_eq!(vec.write(), Ok(false));
}

#[test]
fn pco_page_bytes_stay_within_the_size_guarantee() {
    let paging = pco::PagingSpec::default();
    for n in [0usize, 1, 2, 100, PER_PAGE] {
        let bound = pco::standalone::guarantee::file_size::<u64>(n, &paging).unwrap();
        assert!(bound <= 8 * n + 51);
    }
    let bound = pco::standalone::guarantee::file_size::<u64>(PER_PAGE, &paging).unwrap();
    assert_eq!(bound, 8 * PER_PAGE + 51);
    let noisy: Vec<u64> = (0..PER_PAGE as u64).map(|i| i.wrapping_mul(0x9E37_79B9_7F4A_7C15)).collect();
    let bytes = pco::standalone::simpler_compress(&noisy, 4).unwrap();
    assert!(bytes.len() <= 8 * PER_PAGE + 51);
    assert_eq!(pco::standalone::simple_decompress::<u64>(&bytes).unwrap(), noisy);
}

#[test]
fn raw_fill_first_hole_keeps_length() {
    let mut vec = raw_vec("holes");
    for i in 0..5u64 {
        vec.push(i);
    }
    vec.write();
    vec.delete(1);
    assert_eq!(vec.len(), 5);
    assert_eq!(vec.fill_first_hole_or_push(70), Ok(1));
    assert_eq!(vec.len(), 5);
    assert_eq!(vec.pushed_len(), 0);
    assert!(vec.holes().is_empty());
    assert_eq!(vec.fill_first_hole_or_push(80), Ok(5));
    assert_eq!(vec.len(), 6);
}

#[test]
fn raw_take_at_marks_a_hole_or_changes_nothing() {
    let mut vec = raw_vec("take");
    for i in 0..3u64 {
        vec.push(i + 10);
    }
    vec.write();
    assert_eq!(vec.update(2, 99), Ok(()));
    assert_eq!(vec.take_at(2), Ok(Some(99)));
    assert!(vec.holes().contains(&2));
    assert!(!vec.updated().contains_key(&2));
    assert_eq!(vec.len(), 3);
    let holes_before = vec.holes().clone();
    assert_eq!(vec.take_at(2), Ok(None));
    assert_eq!(vec.holes(), &holes_before);
    assert_eq!(vec.take_at(7), Ok(None));
    assert_eq!(vec.len(), 3);
}

#[test]
fn raw_folds_through_mmap_and_io_agree() {
    let mut vec = raw_vec("fold");
    for i in 1..=6u64 {
        vec.push(i);
    }
    vec.write();
    vec.push(100);
    let add = |acc: u64, v: u64| acc.wrapping_add(v);
    assert_eq!(vec.fold_stored_mmap(1, 4, 0, add), 2 + 3 + 4);
    assert_eq!(vec.fold_stored_mmap(1, 4, 0, add), vec.fold_stored_io(1, 4, 0, add));
    assert_eq!(vec.fold_stored_io(0, 100, 0, add), 21);
    assert_eq!(vec.fold_stored_mmap(5, 2, 7, add), 7);
}

#[test]
fn window_min_max_resumed_equal_from_scratch() {
    let src = [9u64, 3, 7, 1, 8, 2, 6, 4];
    let mut fresh = eager_raw("fresh_min");
    assert_eq!(fresh.compute_min(0, &src, Version::one(), 3), Ok(()));
    let mut resumed = eager_raw("resumed_min");
    assert_eq!(resumed.compute_min(0, &src[..4], Version::one(), 3), Ok(()));
    assert_eq!(resumed.compute_min(2, &src, Version::one(), 3), Ok(()));
    assert_eq!(eager_values(&resumed), eager_values(&fresh));
    assert_eq!(eager_values(&fresh), vec![9, 3, 3, 1, 1, 1, 2, 2]);

    let mut fresh = eager_raw("fresh_max");
    assert_eq!(fresh.compute_max(0, &src, Version::one(), 2), Ok(()));
    let mut resumed = eager_raw("resumed_max");
    assert_eq!(resumed.compute_max(0, &src[..5], Version::one(), 2), Ok(()));
    assert_eq!(resumed.compute_max(usize::MAX, &src, Version::one(), 2), Ok(()));
    assert_eq!(eager_values(&resumed), eager_values(&fresh));
    assert_eq!(eager_values(&fresh), vec![9, 9, 7, 7, 8, 8, 6, 6]);
}

#[test]
fn window_sum_checked_tests_its_bound() {
    let src = [3u64, 1, 4, 1, 5];
    let mut v = eager_raw("checked");
    assert_eq!(v.compute_sum_checked(0, &src, Version::one(), 2), Ok(true));
    assert_eq!(eager_values(&v), vec![3, 4, 5, 5, 6]);

    let mut empty_window = eager_raw("no_window");
    assert_eq!(empty_window.compute_sum_checked(0, &src, Version::one(), 0), Ok(false));
    assert_eq!(empty_window.len(), 0);

    let big = [u64::MAX, 1];
    let mut overflow = eager_raw("overflow");
    assert_eq!(overflow.compute_sum_checked(0, &big, Version::one(), 2), Ok(false));
    assert_eq!(overflow.len(), 0);
    assert_eq!(overflow.compute_sum_checked(0, &big, Version::one(), 1), Ok(true));
    assert_eq!(eager_values(&overflow), vec![u64::MAX, 1]);
}

#[test]
fn partitions_cover_the_range() {
    assert_eq!(partitions(10, 3), vec![(0, 4), (4, 8), (8, 10)]);
    assert_eq!(partitions(9, 3), vec![(0, 3), (3, 6), (6, 9)]);
    assert_eq!(partitions(2, 8), vec![(0, 1), (1, 2)]);
    assert_eq!(partitions(5, 0), vec![(0, 5)]);
    assert_eq!(partitions(0, 4), Vec::<(usize, usize)>::new());
}

#[test]
fn stamped_hasnt_past_the_length() {
    let mut v = StampedVec::forced_import_with(&ImportOptions::new("stamped_has", Version::one()), Format::Raw, Vec::new(), Vec::new())
        .unwrap();
    assert!(v.hasnt(0));
    assert_eq!(v.checked_push(0, 5), Ok(()));
    assert!(!v.hasnt(0));
    assert!(v.hasnt(1));
}

#[test]
fn compressed_write_refuses_nothing_on_a_full_page_boundary() {
    let mut vec = compressed_vec("boundary");
    for i in 0..(PER_PAGE as u64) {
        vec.push(i);
    }
    assert_eq!(vec.write(), Ok(true));
    vec.push(7);
    assert_eq!(vec.write(), Ok(true));
    assert_eq!(vec.read_at(PER_PAGE - 1), Ok(PER_PAGE as u64 - 1));
    assert_eq!(vec.read_at(PER_PAGE), Ok(7));
    assert_eq!(vec.read_at(PER_PAGE + 1), Err(Error::IndexTooHigh { index: PER_PAGE + 1, len: PER_PAGE + 1 }));
}

#[test]
fn raw_forced_import_adds_the_raw_version_twice() {
    let options = ImportOptions::new("twice", Version::one());
    let mut vec = ReadWriteRawVec::<u64>::forced_import_with(&options, Format::Raw, Vec::new(), None).unwrap();
    assert_eq!(vec.header().inner.vec_version, Version(3));
    vec.push(4);
    vec.push(9);
    assert!(vec.write());
    let region = vec.region().to_vec();

    let again = ReadWriteRawVec::<u64>::forced_import_with(&options, Format::Raw, region.clone(), None).unwrap();
    assert_eq!(again.len(), 2);
    assert_eq!(again.read_at(1), Ok(9));

    let plain = ReadWriteRawVec::<u64>::import_with(&ImportOptions::new("twice", Version::two()), Format::Raw, region.clone(), None)
        .unwrap();
    assert_eq!(plain.len(), 2);
    assert!(matches!(
        ReadWriteRawVec::<u64>::import_with(&options, Format::Raw, region, None),
        Err(Error::DifferentVersion { found: 3, expected: 2 })
    ));
}

#[test]
fn compressed_page_with_a_huge_size_hint_is_refused() {
    let mut vec = compressed_vec("hint");
    for i in 0..300u64 {
        vec.push(i * 1_000_003);
    }
    assert_eq!(vec.write(), Ok(true));
    let mut region = vec.region().to_vec();
    let pages = vec.pages_region().to_vec();
    let crafted: [u8; 14] = [112, 99, 111, 33, 2, 0xFF, 0xFF, 0xFF, 0xFF, 0xFF, 0xFF, 0xFF, 0xFF, 0x3F];
    region[64..78].copy_from_slice(&crafted);
    let broken = CompressedVec::import_with(&ImportOptions::new("hint", Version::one()), region, pages).unwrap();
    assert_eq!(broken.read_at(0), Err(Error::Decompression));
    assert_eq!(broken.get_pushed_or_read_at(5), Err(Error::Decompression));
}

#[test]
fn stamped_header_and_unwrap_read() {
    let mut v = StampedVec::forced_import_with(&ImportOptions::new("stamped_read", Version::one()), Format::Raw, Vec::new(), Vec::new())
        .unwrap();
    assert_eq!(v.checked_push(0, 42), Ok(()));
    assert_eq!(v.unwrap_read(0), 42);
    assert_eq!(v.header().inner.vec_version, Version(3));
}

#[test]
fn raw_cursor_for_each_visits_the_tail_in_order() {
    let mut vec = raw_vec("tail");
    for v in 0..10u64 {
        vec.push(v);
    }
    vec.write();
    vec.push(10);
    let mut seen = Vec::new();
    let mut cursor = vec.reader().cursor();
    cursor.advance(7);
    cursor.for_each(usize::MAX, |v| seen.push(v));
    assert_eq!(seen, vec![7, 8, 9]);
    assert_eq!(cursor.position(), 10);
    assert_eq!(cursor.next(), None);
}
