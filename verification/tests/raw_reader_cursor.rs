use vecdb::error::Error;
use vecdb::options::ImportOptions;
use vecdb::raw::read_write::ReadWriteRawVec;
use vecdb::version::{Format, Version};

fn new_vec(name: &str) -> ReadWriteRawVec<u64> {
    ReadWriteRawVec::<u64>::import_with(&ImportOptions::new(name, Version::one()), Format::Raw, Vec::new(), None)
        .unwrap()
}

#[test]
fn raw_reader_cursor_reads_persisted_values() {
    let mut vec = new_vec("values");

    for value in 0..10u64 {
        vec.push(value);
    }
    vec.write();

    // Reader cursors intentionally do not include later uncommitted values.
    vec.push(10);
    assert_eq!(vec.read_once(9), Ok(9));
    assert!(vec.read_once(10).is_err());
    let _region = vec.create_reader();
    assert!(vec.read_at(10).is_err());

    let reader = vec.reader();
    assert_eq!(vec.get_pushed_or_read(9, &reader), Some(9));
    assert_eq!(vec.get_pushed_or_read(10, &reader), Some(10));
    assert_eq!(vec.get_pushed_or_read(11, &reader), None);

    let mut cursor = vec.reader().cursor();
    assert_eq!(cursor.position(), 0);
    assert_eq!(cursor.remaining(), 10);
    assert_eq!(cursor.get(7), Some(7));
    assert_eq!(cursor.position(), 0);

    cursor.advance(3);
    assert_eq!(cursor.position(), 3);
    assert_eq!(cursor.next(), Some(3));
    assert_eq!(cursor.position(), 4);

    assert_eq!(
        cursor.fold(3, Vec::new(), |mut values: Vec<u64>, value| {
            values.push(value);
            values
        }),
        vec![4, 5, 6]
    );
    assert_eq!(cursor.position(), 7);

    let mut tail = Vec::new();
    cursor.for_each(usize::MAX, |value| tail.push(value));
    assert_eq!(tail, vec![7, 8, 9]);
    assert_eq!(cursor.position(), 10);
    assert_eq!(cursor.remaining(), 0);
    assert_eq!(cursor.next(), None);
}

#[test]
fn raw_read_past_stored_length_names_index_and_length() {
    let mut vec = new_vec("errors");
    vec.push(1);
    vec.push(2);
    vec.write();
    assert_eq!(vec.read_at(2), Err(Error::IndexTooHigh { index: 2, len: 2 }));
    assert_eq!(vec.read_at(1), Ok(2));
}

#[test]
fn raw_written_region_imports_back() {
    let mut vec = new_vec("roundtrip");
    for value in [5u64, 7, 11, 13] {
        vec.push(value);
    }
    assert!(vec.write());
    let region = vec.region().to_vec();
    assert_eq!(region.len(), 64 + 4 * 8);

    let again = ReadWriteRawVec::<u64>::import_with(
        &ImportOptions::new("roundtrip", Version::one()),
        Format::Raw,
        region.clone(),
        None,
    )
    .unwrap();
    assert_eq!(again.len(), 4);
    assert_eq!(again.stored_len(), 4);
    assert_eq!(again.read_at(0), Ok(5));
    assert_eq!(again.read_at(3), Ok(13));

    // Another version is refused by a plain import and starts over with a
    // forced one.
    let other = ImportOptions::new("roundtrip", Version::two());
    let refused = ReadWriteRawVec::<u64>::import_with(&other, Format::Raw, region.clone(), None);
    assert!(matches!(refused, Err(Error::DifferentVersion { found: 2, expected: 3 })));
    let forced = ReadWriteRawVec::<u64>::forced_import_with(&other, Format::Raw, region.clone(), None).unwrap();
    assert_eq!(forced.len(), 0);

    // The other format is refused too.
    let compressed = ReadWriteRawVec::<u64>::import_with(
        &ImportOptions::new("roundtrip", Version::one()),
        Format::Compressed,
        region,
        None,
    );
    assert!(matches!(compressed, Err(Error::DifferentCompressionMode)));
}

#[test]
fn raw_import_rejects_partial_values_and_short_regions() {
    let mut vec = new_vec("corrupt");
    vec.push(1);
    vec.write();
    let mut region = vec.region().to_vec();
    region.push(0);
    let len = region.len();
    let r = ReadWriteRawVec::<u64>::import_with(
        &ImportOptions::new("corrupt", Version::one()),
        Format::Raw,
        region,
        None,
    );
    assert!(matches!(r, Err(Error::CorruptedRegion { region_len }) if region_len == len));

    let short = ReadWriteRawVec::<u64>::import_with(
        &ImportOptions::new("corrupt", Version::one()),
        Format::Raw,
        vec![0u8; 10],
        None,
    );
    assert!(matches!(short, Err(Error::WrongLength)));

    let holes = ReadWriteRawVec::<u64>::import_with(
        &ImportOptions::new("corrupt", Version::one()),
        Format::Raw,
        Vec::new(),
        Some(&[1u8, 2, 3][..]),
    );
    assert!(matches!(holes, Err(Error::WrongLength)));
}

#[test]
fn raw_update_delete_and_fill_holes() {
    let mut vec = new_vec("holes");
    for value in 0..5u64 {
        vec.push(value * 10);
    }
    vec.write();

    assert_eq!(vec.update(1, 111), Ok(()));
    assert_eq!(vec.get_any_or_read(1), Ok(Some(111)));
    assert_eq!(vec.update(9, 1), Err(Error::IndexTooHigh { index: 9, len: 5 }));

    vec.delete(3);
    vec.delete(2);
    assert_eq!(vec.get_any_or_read(3), Ok(None));
    assert_eq!(vec.get_first_empty_index(), 2);
    assert_eq!(vec.fill_first_hole_or_push(7), Ok(2));
    assert_eq!(vec.get_any_or_read(2), Ok(Some(7)));
    assert_eq!(vec.fill_first_hole_or_push(8), Ok(3));
    assert_eq!(vec.fill_first_hole_or_push(9), Ok(5));
    assert_eq!(vec.len(), 6);

    assert_eq!(vec.take(0), Ok(Some(0)));
    assert_eq!(vec.get_any_or_read(0), Ok(None));
    assert_eq!(vec.take(0), Ok(None));

    // Writing keeps every value that reads back.
    vec.write();
    assert_eq!(vec.get_any_or_read(1), Ok(Some(111)));
    assert_eq!(vec.get_any_or_read(2), Ok(Some(7)));
    assert_eq!(vec.get_any_or_read(5), Ok(Some(9)));
    assert_eq!(vec.read_at(1), Ok(111));
}

#[test]
fn raw_collect_holed_and_stored_ranges() {
    let mut vec = new_vec("collect");
    for value in 0..4u64 {
        vec.push(value + 1);
    }
    vec.write();
    vec.delete(1);
    vec.push(5);
    assert_eq!(vec.collect_holed(), Ok(vec![Some(1), None, Some(3), Some(4), Some(5)]));
    assert_eq!(vec.collect_holed_range(2, 9), Ok(vec![Some(3), Some(4), Some(5)]));
    assert_eq!(vec.collect_stored_range(1, 3), vec![2, 3]);
    // The hole at 1 is skipped.
    let sum = vec.fold_range_at(0, 4, 0u64, |acc, v| acc + v);
    assert_eq!(sum, 8);
}

#[test]
fn raw_truncate_and_reset() {
    let mut vec = new_vec("truncate");
    for value in 0..6u64 {
        vec.push(value);
    }
    vec.write();
    vec.push(6);
    vec.truncate_if_needed_at(4);
    assert_eq!(vec.len(), 4);
    assert_eq!(vec.pushed_len(), 0);
    vec.write();
    assert_eq!(vec.region().len(), 64 + 4 * 8);

    vec.reset();
    assert_eq!(vec.len(), 0);
}

#[test]
fn raw_holes_region_names() {
    let vec = new_vec("prices");
    assert_eq!(ReadWriteRawVec::<u64>::holes_region_name_with("prices"), "prices_holes");
    assert_eq!(vec.holes_region_name(), "prices_holes");
    assert_eq!(vec.remove(), vec!["prices".to_string()]);
}

#[test]
fn raw_reader_try_get_and_read_only_clone() {
    let mut vec = new_vec("reader");
    vec.push(3);
    vec.push(4);
    vec.write();
    let ro = vec.read_only_clone();
    assert_eq!(ro.stored_len(), 2);
    assert_eq!(ro.read_once(1), Ok(4));
    assert_eq!(ro.collect_one_at(5), None);
    let reader = vec.reader();
    assert_eq!(reader.len(), 2);
    assert_eq!(reader.try_get(0), Some(3));
    assert_eq!(reader.try_get(2), None);
}

#[test]
fn raw_try_fold_stops_at_first_error() {
    let mut vec = new_vec("try_fold");
    for value in 1..=5u64 {
        vec.push(value);
    }
    vec.write();
    let ok: Result<u64, u64> = vec.try_fold_range_at(0, 10, 0, |acc, v| Ok(acc + v));
    assert_eq!(ok, Ok(15));
    let err: Result<u64, u64> = vec.try_fold_range_at(0, 10, 0, |acc, v| if v == 3 { Err(acc) } else { Ok(acc + v) });
    assert_eq!(err, Err(3));
    let ro = vec.read_only_clone();
    let from_ro: Result<u64, ()> = ro.try_fold_range_at(1, 3, 0, |acc, v| Ok(acc * 10 + v));
    assert_eq!(from_ro, Ok(23));
}

#[test]
fn raw_dirty_iter_skips_holes_and_applies_updates() {
    let mut vec = new_vec("dirty");
    for value in 0..5u64 {
        vec.push(value);
    }
    vec.write();
    vec.delete(1);
    assert_eq!(vec.update(3, 33), Ok(()));
    vec.push(5);
    let mut it = vec.dirty_iter();
    assert_eq!(it.next(), Some(0));
    assert_eq!(it.next(), Some(2));
    assert_eq!(it.len(), 3);
    assert_eq!(vec.dirty_iter().collect(), vec![0, 2, 33, 4, 5]);
    assert_eq!(vec.clean_iter().collect(), vec![0, 1, 2, 3, 4]);
    assert_eq!(vec.dirty_iter().last(), Some(5));
    let iter = vec.iter();
    assert!(iter.is_dirty());
    assert_eq!(iter.collect(), vec![0, 2, 33, 4, 5]);

    vec.write();
    let mut clean = vec.iter();
    assert!(clean.is_clean() == (vec.pushed_len() == 0 && !vec.has_dirty_stored()));
    assert_eq!(clean.next(), Some(0));
}

#[test]
fn raw_holes_region_roundtrip() {
    let mut vec = new_vec("holed");
    for value in 0..6u64 {
        vec.push(value);
    }
    vec.write();
    vec.delete(4);
    vec.delete(1);
    let holes = vec.holes_bytes();
    assert_eq!(holes.len(), 16);
    assert_eq!(&holes[0..8], &1u64.to_le_bytes());
    assert_eq!(&holes[8..16], &4u64.to_le_bytes());
    assert_eq!(vecdb::raw::read_write::holes_from_bytes(&holes).into_iter().collect::<Vec<_>>(), vec![1, 4]);

    vec.write();
    let again = ReadWriteRawVec::<u64>::import_with(
        &ImportOptions::new("holed", Version::one()),
        Format::Raw,
        vec.region().to_vec(),
        Some(&holes[..]),
    )
    .unwrap();
    assert_eq!(again.get_any_or_read(1), Ok(None));
    assert_eq!(again.get_any_or_read(2), Ok(Some(2)));
    assert_eq!(again.get_first_empty_index(), 1);
    assert_eq!(again.region_names(), vec!["holed".to_string(), "holed_holes".to_string()]);
}

#[test]
fn raw_truncate_forgets_holes_and_updates_past_the_cut() {
    let mut vec = new_vec("cut");
    for value in 0..8u64 {
        vec.push(value);
    }
    vec.write();
    vec.delete(2);
    vec.delete(6);
    assert_eq!(vec.update(5, 55), Ok(()));
    assert_eq!(vec.update(1, 11), Ok(()));
    vec.truncate_if_needed_at(4);
    assert_eq!(vec.len(), 4);
    assert_eq!(vec.holes().iter().copied().collect::<Vec<_>>(), vec![2]);
    assert_eq!(vec.updated().keys().copied().collect::<Vec<_>>(), vec![1]);
    assert_eq!(vec.collect_holed(), Ok(vec![Some(0), Some(11), None, Some(3)]));
}
