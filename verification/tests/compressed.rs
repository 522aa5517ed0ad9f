use vecdb::compressed::page::{Page, Pages};
use vecdb::compressed::vec::{CompressedVec, PER_PAGE};
use vecdb::error::Error;
use vecdb::options::ImportOptions;
use vecdb::version::Version;

fn new_vec(name: &str) -> CompressedVec {
    CompressedVec::import_with(&ImportOptions::new(name, Version::one()), Vec::new(), Vec::new()).unwrap()
}

#[test]
fn compressed_flush_keeps_values_across_pages() {
    let mut vec = new_vec("values");
    let n = 2 * PER_PAGE + 100;
    for i in 0..n {
        vec.push((i as u64) * 3);
    }
    assert_eq!(vec.len(), n);
    assert_eq!(vec.stored_len(), 0);
    assert!(vec.is_dirty());
    assert_eq!(vec.flush(), Ok(()));
    assert_eq!(vec.stored_len(), n);
    assert_eq!(vec.pushed_len(), 0);
    assert_eq!(vec.real_stored_len(), n);
    assert_eq!(vec.pages_region().len(), 3 * 16);
    assert_eq!(vec.read_at(0), Ok(0));
    assert_eq!(vec.read_at(PER_PAGE), Ok((PER_PAGE as u64) * 3));
    assert_eq!(vec.read_at(n - 1), Ok(((n - 1) as u64) * 3));
    assert_eq!(vec.read_at(n), Err(Error::IndexTooHigh { index: n, len: n }));
}

#[test]
fn compressed_second_flush_rewrites_last_page() {
    let mut vec = new_vec("growing");
    for i in 0..10u64 {
        vec.push(i);
    }
    assert_eq!(vec.flush(), Ok(()));
    for i in 10..20u64 {
        vec.push(i);
    }
    assert_eq!(vec.get_pushed_or_read_at(15), Ok(Some(15)));
    assert_eq!(vec.get_pushed_or_read_at(20), Ok(None));
    assert_eq!(vec.flush(), Ok(()));
    assert_eq!(vec.stored_len(), 20);
    assert_eq!(vec.pages_region().len(), 16);
    for i in 0..20usize {
        assert_eq!(vec.read_at(i), Ok(i as u64));
    }
    // Nothing pending: a flush changes nothing.
    let region = vec.region().to_vec();
    assert_eq!(vec.flush(), Ok(()));
    assert_eq!(vec.region(), &region[..]);
}

#[test]
fn compressed_flushed_vector_imports_back() {
    let mut vec = new_vec("roundtrip");
    for i in 0..(PER_PAGE as u64 + 5) {
        vec.push(i * i);
    }
    assert_eq!(vec.flush(), Ok(()));
    let region = vec.region().to_vec();
    let pages = vec.pages_region().to_vec();

    let again = CompressedVec::import_with(&ImportOptions::new("roundtrip", Version::one()), region.clone(), pages.clone())
        .unwrap();
    assert_eq!(again.len(), PER_PAGE + 5);
    assert_eq!(again.read_at(PER_PAGE + 4), Ok(((PER_PAGE + 4) * (PER_PAGE + 4)) as u64));
    assert_eq!(again.read_at(7), Ok(49));

    let bad_pages = CompressedVec::import_with(
        &ImportOptions::new("roundtrip", Version::one()),
        region.clone(),
        pages[..15].to_vec(),
    );
    assert!(matches!(bad_pages, Err(Error::WrongLength)));

    let other = CompressedVec::import_with(&ImportOptions::new("roundtrip", Version::two()), region, pages);
    assert!(matches!(other, Err(Error::DifferentVersion { found: 1, expected: 2 })));
}

#[test]
fn compressed_forced_import_starts_over_on_other_version() {
    let opts = ImportOptions::new("forced", Version::one());
    let mut vec = CompressedVec::forced_import_with(&opts, Vec::new(), Vec::new()).unwrap();
    vec.push(4);
    vec.push(5);
    assert_eq!(vec.flush(), Ok(()));
    assert_eq!(vec.header().vec_version(), Version::new(3));
    let region = vec.region().to_vec();
    let pages = vec.pages_region().to_vec();

    let same = CompressedVec::forced_import_with(&opts, region.clone(), pages.clone()).unwrap();
    assert_eq!(same.len(), 2);
    assert_eq!(same.read_at(1), Ok(5));

    let other = CompressedVec::forced_import_with(&ImportOptions::new("forced", Version::two()), region, pages).unwrap();
    assert_eq!(other.len(), 0);
}

#[test]
fn compressed_truncate_then_flush() {
    let mut vec = new_vec("truncate");
    for i in 0..(PER_PAGE as u64 + 10) {
        vec.push(i + 1);
    }
    assert_eq!(vec.flush(), Ok(()));
    vec.truncate_if_needed_at(PER_PAGE - 1);
    assert_eq!(vec.len(), PER_PAGE - 1);
    assert_eq!(vec.flush(), Ok(()));
    assert_eq!(vec.stored_len(), PER_PAGE - 1);
    assert_eq!(vec.pages_region().len(), 16);
    assert_eq!(vec.read_at(PER_PAGE - 2), Ok((PER_PAGE - 1) as u64));
    assert!(vec.read_at(PER_PAGE - 1).is_err());

    vec.reset();
    assert_eq!(vec.len(), 0);
}

#[test]
fn page_entry_bytes_roundtrip() {
    let page = Page::new(64, 1234, 2048);
    let bytes = page.to_bytes();
    assert_eq!(bytes.len(), 16);
    assert_eq!(&bytes[0..8], &64u64.to_le_bytes());
    assert_eq!(Page::read_from_bytes(&bytes), page);

    let mut table = bytes.clone();
    table.extend(Page::new(1298, 10, 5).to_bytes());
    let pages = Pages::import(&table).unwrap();
    assert_eq!(pages.len(), 2);
    assert_eq!(pages.get(1), Some(Page::new(1298, 10, 5)));
    assert_eq!(pages.last(), Some(Page::new(1298, 10, 5)));
    assert_eq!(pages.get(2), None);
    assert_eq!(pages.stored_len(PER_PAGE), 2053);
    assert_eq!(pages.next_start(), 1308);
    assert!(matches!(Pages::import(&table[..20]), Err(Error::WrongLength)));
}

#[test]
fn compressed_reads_and_folds_ranges() {
    let mut vec = new_vec("fold");
    for i in 0..(PER_PAGE as u64 + 3) {
        vec.push(i);
    }
    assert_eq!(vec.flush(), Ok(()));
    vec.push(1_000_000);
    let mut buf = vec![7u64];
    vec.read_into_at(PER_PAGE - 1, usize::MAX, &mut buf);
    assert_eq!(buf, vec![7, (PER_PAGE - 1) as u64, PER_PAGE as u64, PER_PAGE as u64 + 1, PER_PAGE as u64 + 2, 1_000_000]);

    let sum = vec.fold_range_at(0, 4, 0u64, |acc, v| acc + v);
    assert_eq!(sum, 6);
    let failed: Result<u64, u64> = vec.try_fold_range_at(0, 10, 0, |acc, v| if v == 4 { Err(v) } else { Ok(acc + v) });
    assert_eq!(failed, Err(4));

    let iter = vec.iter();
    assert!(iter.is_dirty());
    assert_eq!(iter.collect().len(), PER_PAGE + 4);
    vec.truncate_if_needed_at(PER_PAGE + 3);
    let clean = vec.iter();
    assert!(clean.is_clean());
}

#[test]
fn compressed_region_names() {
    let vec = new_vec("prices");
    assert_eq!(CompressedVec::pages_region_name_with("prices"), "prices_pages");
    assert_eq!(vec.pages_region_name(), "prices_pages");
    assert_eq!(vec.region_names(), vec!["prices".to_string(), "prices_pages".to_string()]);
}
