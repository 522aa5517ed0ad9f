use vecdb::eager::EagerVec;
use vecdb::options::ImportOptions;
use vecdb::version::Version;

#[test]
fn test_mmap_write_file_read_consistency() {
    // Create a compressed vec
    let mut vec: EagerVec =
        EagerVec::forced_import_compressed_with(&ImportOptions::new("test_vec", Version::one()), Vec::new(), Vec::new())
            .unwrap();

    // Write some data
    for i in 0..1000usize {
        vec.forced_push_at(i, i as u64 * 100).unwrap();
    }

    // Flush the vec
    vec.flush().unwrap();

    // Now create an iterator
    let mut iter = vec.iter();

    // Check if iterator sees the written data
    for i in 0..1000u32 {
        let value = iter.next().expect("Should have value");
        let expected = i as u64 * 100;

        if value != expected {
            panic!("Inconsistency detected at index {}: got {}, expected {}", i, value, expected);
        }
    }
}

#[test]
fn test_immediate_read_after_write() {
    let mut vec: EagerVec =
        EagerVec::forced_import_compressed_with(&ImportOptions::new("test_vec", Version::one()), Vec::new(), Vec::new())
            .unwrap();

    // Write, flush, read immediately
    for batch in 0..10 {
        let start = batch * 100;

        // Write batch
        for i in 0..100usize {
            vec.forced_push_at(start + i, (start + i) as u64 * 100).unwrap();
        }

        // Flush
        vec.flush().unwrap();

        // Immediately read back
        for i in 0..100usize {
            let idx = start + i;
            let value = vec.get(idx).unwrap().unwrap();
            let expected = (start + i) as u64 * 100;

            if value != expected {
                panic!("Batch {} inconsistency at index {}: got {}, expected {}", batch, idx, value, expected);
            }
        }
    }
}
