use vecdb::compressed::vec::CompressedVec;
use vecdb::options::ImportOptions;
use vecdb::version::Version;

fn setup() -> CompressedVec {
    CompressedVec::import_with(&ImportOptions::new("test", Version::one()), Vec::new(), Vec::new()).unwrap()
}

#[test]
fn test_compressed_clean_iter_basic() {
    let mut vec = setup();

    for i in 0..100 {
        vec.push(i);
    }
    vec.flush().unwrap();

    let collected: Vec<u64> = vec.clean_iter().collect();
    assert_eq!(collected.len(), 100);
    assert_eq!(collected[0], 0);
    assert_eq!(collected[99], 99);
}

#[test]
fn test_compressed_clean_iter_large() {
    let mut vec = setup();

    // Push enough to span multiple pages
    for i in 0..10000 {
        vec.push(i);
    }
    vec.flush().unwrap();

    let collected: Vec<u64> = vec.clean_iter().collect();
    assert_eq!(collected.len(), 10000);

    for (i, &val) in collected.iter().enumerate() {
        assert_eq!(val, i as u64);
    }
}

#[test]
fn test_compressed_clean_iter_nth() {
    let mut vec = setup();

    for i in 0..1000 {
        vec.push(i);
    }
    vec.flush().unwrap();

    let mut iter = vec.clean_iter();
    assert_eq!(iter.next(), Some(0));
    assert_eq!(iter.nth(99), Some(100));
    assert_eq!(iter.next(), Some(101));
}

#[test]
fn test_compressed_clean_iter_skip_across_pages() {
    let mut vec = setup();

    // Push enough to span multiple pages
    for i in 0..10000 {
        vec.push(i);
    }
    vec.flush().unwrap();

    let iter = vec.clean_iter().skip(5000);
    let collected: Vec<u64> = iter.collect();

    assert_eq!(collected.len(), 5000);
    assert_eq!(collected[0], 5000);
    assert_eq!(collected[4999], 9999);
}

#[test]
fn test_compressed_clean_iter_take() {
    let mut vec = setup();

    for i in 0..1000 {
        vec.push(i);
    }
    vec.flush().unwrap();

    let iter = vec.clean_iter().take(100);
    let collected: Vec<u64> = iter.collect();

    assert_eq!(collected.len(), 100);
    assert_eq!(collected[0], 0);
    assert_eq!(collected[99], 99);
}

#[test]
fn test_compressed_clean_iter_skip_take_combined() {
    let mut vec = setup();

    for i in 0..5000 {
        vec.push(i);
    }
    vec.flush().unwrap();

    let iter = vec.clean_iter().skip(1000).take(2000);
    let collected: Vec<u64> = iter.collect();

    assert_eq!(collected.len(), 2000);
    assert_eq!(collected[0], 1000);
    assert_eq!(collected[1999], 2999);
}

#[test]
fn test_compressed_clean_iter_set_position() {
    let mut vec = setup();

    for i in 0..5000 {
        vec.push(i);
    }
    vec.flush().unwrap();

    let mut iter = vec.clean_iter();
    iter.set_position_to(2500);
    assert_eq!(iter.next(), Some(2500));
    assert_eq!(iter.next(), Some(2501));
}

#[test]
fn test_compressed_clean_iter_set_position_tosame_page() {
    let mut vec = setup();

    for i in 0..1000 {
        vec.push(i);
    }
    vec.flush().unwrap();

    let mut iter = vec.clean_iter();
    iter.next(); // Decode first page
    iter.set_position_to(50); // Should reuse same page
    assert_eq!(iter.next(), Some(50));
}

#[test]
fn test_compressed_clean_iter_last() {
    let mut vec = setup();

    for i in 0..1000 {
        vec.push(i);
    }
    vec.flush().unwrap();

    let iter = vec.clean_iter();
    assert_eq!(iter.last(), Some(999));
}

#[test]
fn test_compressed_clean_iter_last_empty() {
    let vec = setup();

    let iter = vec.clean_iter();
    assert_eq!(iter.last(), None);
}

#[test]
fn test_compressed_clean_iter_exact_size() {
    let mut vec = setup();

    for i in 0..1000 {
        vec.push(i);
    }
    vec.flush().unwrap();

    let mut iter = vec.clean_iter();
    assert_eq!(iter.len(), 1000);

    iter.next();
    assert_eq!(iter.len(), 999);

    iter.nth(100);
    assert_eq!(iter.len(), 898);
}

#[test]
fn test_compressed_clean_iter_page_boundaries() {
    let mut vec = setup();

    // Push data that spans multiple pages
    for i in 0..10000 {
        vec.push(i);
    }
    vec.flush().unwrap();

    // Iterate and ensure no gaps at page boundaries
    let mut iter = vec.clean_iter();
    for i in 0..10000 {
        assert_eq!(iter.next(), Some(i));
    }
    assert_eq!(iter.next(), None);
}

#[test]
fn test_compressed_clean_iter_multiple_set_position() {
    let mut vec = setup();

    for i in 0..10000 {
        vec.push(i);
    }
    vec.flush().unwrap();

    let mut iter = vec.clean_iter();

    // Jump to different pages
    iter.set_position_to(1000);
    assert_eq!(iter.next(), Some(1000));

    iter.set_position_to(5000);
    assert_eq!(iter.next(), Some(5000));

    iter.set_position_to(100);
    assert_eq!(iter.next(), Some(100));
}

#[test]
fn test_compressed_clean_iter_buffer_efficiency() {
    let mut vec = setup();

    // Push enough data to fill multiple pages
    for i in 0..20000 {
        vec.push(i);
    }
    vec.flush().unwrap();

    // Sequential iteration should reuse buffer efficiently
    let collected: Vec<u64> = vec.clean_iter().collect();
    assert_eq!(collected.len(), 20000);

    for (i, &val) in collected.iter().enumerate() {
        assert_eq!(val, i as u64);
    }
}

#[test]
fn test_compressed_clean_iter_skip_take_multiple() {
    let mut vec = setup();

    for i in 0..10000 {
        vec.push(i);
    }
    vec.flush().unwrap();

    let collected: Vec<u64> = vec
        .clean_iter()
        .skip(1000)
        .take(5000)
        .skip(500)
        .take(2000)
        .collect();

    assert_eq!(collected.len(), 2000);
    assert_eq!(collected[0], 1500);
    assert_eq!(collected[1999], 3499);
}

#[test]
fn test_compressed_clean_iter_nth_beyond_end() {
    let mut vec = setup();

    for i in 0..100 {
        vec.push(i);
    }
    vec.flush().unwrap();

    let mut iter = vec.clean_iter();
    assert_eq!(iter.nth(200), None);
    assert_eq!(iter.next(), None);
}

#[test]
fn test_compressed_clean_iter_set_end_middle_of_page() {
    let mut vec = setup();

    for i in 0..5000 {
        vec.push(i);
    }
    vec.flush().unwrap();

    let mut iter = vec.clean_iter();
    iter.set_end_to(2500); // Middle of a page

    let collected: Vec<u64> = iter.collect();
    assert_eq!(collected.len(), 2500);
    assert_eq!(collected[2499], 2499);
}


#[test]
fn test_compressed_dirty_iter_only_stored() {
    let mut vec = setup();

    for i in 0..1000 {
        vec.push(i);
    }
    vec.flush().unwrap();

    let collected: Vec<u64> = vec.dirty_iter().collect();
    assert_eq!(collected.len(), 1000);
    assert_eq!(collected[0], 0);
    assert_eq!(collected[999], 999);
}

#[test]
fn test_compressed_dirty_iter_only_pushed() {
    let mut vec = setup();

    for i in 0..500 {
        vec.push(i);
    }
    // Don't flush

    let collected: Vec<u64> = vec.dirty_iter().collect();
    assert_eq!(collected.len(), 500);

    for (i, &val) in collected.iter().enumerate() {
        assert_eq!(val, i as u64);
    }
}

#[test]
fn test_compressed_dirty_iter_stored_and_pushed() {
    let mut vec = setup();

    for i in 0..5000 {
        vec.push(i);
    }
    vec.flush().unwrap();

    for i in 5000..10000 {
        vec.push(i);
    }

    let collected: Vec<u64> = vec.dirty_iter().collect();
    assert_eq!(collected.len(), 10000);

    for (i, &val) in collected.iter().enumerate() {
        assert_eq!(val, i as u64);
    }
}

#[test]
fn test_compressed_dirty_iter_skip_across_boundary() {
    let mut vec = setup();

    for i in 0..5000 {
        vec.push(i);
    }
    vec.flush().unwrap();

    for i in 5000..10000 {
        vec.push(i);
    }

    // Skip from stored into pushed
    let collected: Vec<u64> = vec.dirty_iter().skip(4500).collect();
    assert_eq!(collected.len(), 5500);
    assert_eq!(collected[0], 4500);
    assert_eq!(collected[5499], 9999);
}

#[test]
fn test_compressed_dirty_iter_take_across_boundary() {
    let mut vec = setup();

    for i in 0..5000 {
        vec.push(i);
    }
    vec.flush().unwrap();

    for i in 5000..10000 {
        vec.push(i);
    }

    // Take from stored through pushed
    let collected: Vec<u64> = vec.dirty_iter().skip(4000).take(2000).collect();

    assert_eq!(collected.len(), 2000);
    assert_eq!(collected[0], 4000);
    assert_eq!(collected[1999], 5999);
}

#[test]
fn test_compressed_dirty_iter_nth_across_boundary() {
    let mut vec = setup();

    for i in 0..5000 {
        vec.push(i);
    }
    vec.flush().unwrap();

    for i in 5000..7000 {
        vec.push(i);
    }

    let mut iter = vec.dirty_iter();
    assert_eq!(iter.nth(4990), Some(4990)); // In stored
    assert_eq!(iter.next(), Some(4991)); // In stored
    assert_eq!(iter.nth(7), Some(4999)); // In stored
    assert_eq!(iter.next(), Some(5000)); // In pushed
    assert_eq!(iter.next(), Some(5001)); // In pushed
}

#[test]
fn test_compressed_dirty_iter_set_position_to_pushed() {
    let mut vec = setup();

    for i in 0..5000 {
        vec.push(i);
    }
    vec.flush().unwrap();

    for i in 5000..10000 {
        vec.push(i);
    }

    let mut iter = vec.dirty_iter();
    iter.set_position_to(7500); // Into pushed region
    assert_eq!(iter.next(), Some(7500));
    assert_eq!(iter.next(), Some(7501));
}

#[test]
fn test_compressed_dirty_iter_last_in_pushed() {
    let mut vec = setup();

    for i in 0..5000 {
        vec.push(i);
    }
    vec.flush().unwrap();

    for i in 5000..10000 {
        vec.push(i);
    }

    let iter = vec.dirty_iter();
    assert_eq!(iter.last(), Some(9999));
}

#[test]
fn test_compressed_dirty_iter_last_in_stored() {
    let mut vec = setup();

    for i in 0..5000 {
        vec.push(i);
    }
    vec.flush().unwrap();

    let iter = vec.dirty_iter();
    assert_eq!(iter.last(), Some(4999));
}

#[test]
fn test_compressed_dirty_iter_exact_size_with_pushed() {
    let mut vec = setup();

    for i in 0..5000 {
        vec.push(i);
    }
    vec.flush().unwrap();

    for i in 5000..7500 {
        vec.push(i);
    }

    let mut iter = vec.dirty_iter();
    assert_eq!(iter.len(), 7500);

    iter.next();
    assert_eq!(iter.len(), 7499);

    iter.nth(4999); // Cross boundary
    assert_eq!(iter.len(), 2499);
}

#[test]
fn test_compressed_dirty_iter_large_dataset_boundary() {
    let mut vec = setup();

    // Large stored portion
    for i in 0..10000 {
        vec.push(i);
    }
    vec.flush().unwrap();

    // Small pushed portion
    for i in 10000..10100 {
        vec.push(i);
    }

    let collected: Vec<u64> = vec.dirty_iter().collect();
    assert_eq!(collected.len(), 10100);

    for (i, &val) in collected.iter().enumerate() {
        assert_eq!(val, i as u64);
    }
}

#[test]
fn test_compressed_dirty_iter_skip_take_complex() {
    let mut vec = setup();

    for i in 0..8000 {
        vec.push(i);
    }
    vec.flush().unwrap();

    for i in 8000..12000 {
        vec.push(i);
    }

    // Complex skip/take across boundary
    let collected: Vec<u64> = vec
        .dirty_iter()
        .skip(7000)
        .take(3000)
        .skip(500)
        .take(1000)
        .collect();

    assert_eq!(collected.len(), 1000);
    assert_eq!(collected[0], 7500);
    assert_eq!(collected[999], 8499);
}

