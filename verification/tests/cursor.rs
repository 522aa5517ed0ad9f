use vecdb::compressed::vec::CompressedVec;
use vecdb::options::ImportOptions;
use vecdb::version::Version;

fn import(name: &str) -> CompressedVec {
    CompressedVec::import_with(&ImportOptions::new(name, Version::one()), Vec::new(), Vec::new()).unwrap()
}

#[test]
fn pco_u8_cursor_crosses_page_and_chunk_boundaries() {
    let mut vec = import("u8");

    for index in 0..20_000u64 {
        vec.push(index % 251);
    }
    vec.flush().unwrap();
    let read_only = vec.read_only_clone();

    for index in 20_000..20_010u64 {
        vec.push(index % 251);
    }

    let mut cursor = vec.cursor();
    for index in [0usize, 4_095, 4_096, 16_383, 16_384, 19_999, 20_009] {
        assert_eq!(cursor.get(index), Some((index % 251) as u64));
        assert_eq!(cursor.position(), 0);
    }
    assert_eq!(cursor.get(20_010), None);

    cursor.advance(16_380);
    for index in 16_380..16_390u64 {
        assert_eq!(cursor.next(), Some(index % 251));
    }

    let mut tail = Vec::new();
    cursor.advance(20_000 - cursor.position());
    cursor.for_each(usize::MAX, |value| tail.push(value));
    assert_eq!(tail, (20_000..20_010u64).map(|index| index % 251).collect::<Vec<_>>());

    let mut read_only_cursor = read_only.cursor();
    read_only_cursor.advance(16_380);
    let values = read_only_cursor.fold(20, Vec::new(), |mut values: Vec<u64>, value| {
        values.push(value);
        values
    });
    assert_eq!(values, (16_380..16_400u64).map(|index| index % 251).collect::<Vec<_>>());
    assert_eq!(read_only_cursor.get(20_000), None);
}

#[test]
fn pco_u64_cursor_crosses_two_page_chunk_boundary() {
    let mut vec = import("u64");

    for index in 0..5_000u64 {
        vec.push(index.wrapping_mul(37));
    }
    vec.flush().unwrap();

    let mut cursor = vec.cursor();
    cursor.advance(4_090);
    for index in 4_090..4_110u64 {
        assert_eq!(cursor.next(), Some(index.wrapping_mul(37)));
    }
    assert_eq!(cursor.get(4_999), Some(4_999_u64 * 37));
    assert_eq!(cursor.get(5_000), None);
}

#[test]
fn pco_u64_cursor_reads_across_page_boundaries() {
    let mut vec = import("pages");
    for index in 0..20_000u64 {
        vec.push(index % 251);
    }
    vec.flush().unwrap();
    for index in 20_000..20_010u64 {
        vec.push(index % 251);
    }
    let mut cursor = vec.cursor();
    for index in [2_047usize, 2_048, 4_095, 4_096, 18_431, 18_432, 19_999, 20_000] {
        assert_eq!(cursor.get(index), Some((index % 251) as u64));
    }
    cursor.advance(2_045);
    for index in 2_045..2_052u64 {
        assert_eq!(cursor.next(), Some(index % 251));
    }
    cursor.advance(19_998 - cursor.position());
    for index in 19_998..20_003u64 {
        assert_eq!(cursor.next(), Some(index % 251));
    }
}
