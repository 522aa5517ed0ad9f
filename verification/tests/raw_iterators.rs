use vecdb::options::ImportOptions;
use vecdb::raw::read_write::ReadWriteRawVec;
use vecdb::version::{Format, Version};

fn setup() -> ReadWriteRawVec<i32> {
    ReadWriteRawVec::<i32>::import_with(&ImportOptions::new("test", Version::one()), Format::Raw, Vec::new(), None)
        .unwrap()
}

#[test]
fn test_clean_iter_basic() {
    let mut vec = setup();

    for i in 0..100 {
        vec.push(i);
    }
    vec.write();

    let collected: Vec<i32> = vec.clean_iter().collect();
    assert_eq!(collected.len(), 100);
    assert_eq!(collected[0], 0);
    assert_eq!(collected[99], 99);
}

#[test]
fn test_clean_iter_nth() {
    let mut vec = setup();

    for i in 0..100 {
        vec.push(i);
    }
    vec.write();

    let mut iter = vec.clean_iter();
    assert_eq!(iter.next(), Some(0));
    assert_eq!(iter.nth(9), Some(10));
    assert_eq!(iter.next(), Some(11));
}

#[test]
fn test_clean_iter_skip() {
    let mut vec = setup();

    for i in 0..100 {
        vec.push(i);
    }
    vec.write();

    let iter = vec.clean_iter().skip(50);
    let collected: Vec<i32> = iter.collect();

    assert_eq!(collected.len(), 50);
    assert_eq!(collected[0], 50);
}

#[test]
fn test_clean_iter_take() {
    let mut vec = setup();

    for i in 0..100 {
        vec.push(i);
    }
    vec.write();

    let iter = vec.clean_iter().take(25);
    let collected: Vec<i32> = iter.collect();

    assert_eq!(collected.len(), 25);
    assert_eq!(collected[24], 24);
}

#[test]
fn test_clean_iter_set_position() {
    let mut vec = setup();

    for i in 0..100 {
        vec.push(i);
    }
    vec.write();

    let mut iter = vec.clean_iter();
    iter.set_position_to(50);
    assert_eq!(iter.next(), Some(50));
    assert_eq!(iter.next(), Some(51));
}

#[test]
fn test_clean_iter_set_end() {
    let mut vec = setup();

    for i in 0..100 {
        vec.push(i);
    }
    vec.write();

    let mut iter = vec.clean_iter();
    iter.set_end_to(50);
    let collected: Vec<i32> = iter.collect();

    assert_eq!(collected.len(), 50);
}

#[test]
fn test_clean_iter_last() {
    let mut vec = setup();

    for i in 0..100 {
        vec.push(i);
    }
    vec.write();

    let iter = vec.clean_iter();
    assert_eq!(iter.last(), Some(99));
}

#[test]
fn test_clean_iter_last_empty() {
    let vec = setup();

    let iter = vec.clean_iter();
    assert_eq!(iter.last(), None);
}

#[test]
fn test_clean_iter_exact_size() {
    let mut vec = setup();

    for i in 0..100 {
        vec.push(i);
    }
    vec.write();

    let mut iter = vec.clean_iter();
    assert_eq!(iter.len(), 100);

    iter.next();
    assert_eq!(iter.len(), 99);
}

#[test]
fn test_clean_iter_buffer_crossing() {
    let mut vec = setup();

    // Push enough to cross buffer boundaries
    for i in 0..10000 {
        vec.push(i);
    }
    vec.write();

    let collected: Vec<i32> = vec.clean_iter().collect();
    assert_eq!(collected.len(), 10000);

    for (i, &val) in collected.iter().enumerate() {
        assert_eq!(val, i as i32);
    }
}

#[test]
fn test_clean_iter_multiple_skip_take() {
    let mut vec = setup();

    for i in 0..1000 {
        vec.push(i);
    }
    vec.write();

    // Skip 100, take 200, skip 50 more, take 100 more
    let collected: Vec<i32> = vec
        .clean_iter()
        .skip(100)
        .take(200)
        .skip(50)
        .take(100)
        .collect();

    assert_eq!(collected.len(), 100);
    assert_eq!(collected[0], 150);
    assert_eq!(collected[99], 249);
}

#[test]
fn test_clean_iter_set_position_multiple_times() {
    let mut vec = setup();

    for i in 0..1000 {
        vec.push(i);
    }
    vec.write();

    let mut iter = vec.clean_iter();

    iter.set_position_to(100);
    assert_eq!(iter.next(), Some(100));

    iter.set_position_to(500);
    assert_eq!(iter.next(), Some(500));

    iter.set_position_to(50);
    assert_eq!(iter.next(), Some(50));
}

#[test]
fn test_clean_iter_skip_all() {
    let mut vec = setup();

    for i in 0..100 {
        vec.push(i);
    }
    vec.write();

    let mut iter = vec.clean_iter().skip(100);
    assert_eq!(iter.next(), None);
}

#[test]
fn test_clean_iter_take_zero() {
    let mut vec = setup();

    for i in 0..100 {
        vec.push(i);
    }
    vec.write();

    let collected: Vec<i32> = vec.clean_iter().take(0).collect();
    assert_eq!(collected.len(), 0);
}

#[test]
fn test_clean_iter_nth_beyond_end() {
    let mut vec = setup();

    for i in 0..10 {
        vec.push(i);
    }
    vec.write();

    let mut iter = vec.clean_iter();
    assert_eq!(iter.nth(20), None);
    assert_eq!(iter.next(), None);
}

#[test]
fn test_clean_iter_size_hint_consistency() {
    let mut vec = setup();

    for i in 0..100 {
        vec.push(i);
    }
    vec.write();

    let mut iter = vec.clean_iter();

    for i in 0..100 {
        let (lower, upper) = iter.size_hint();
        assert_eq!(lower, 100 - i);
        assert_eq!(upper, Some(100 - i));
        assert_eq!(iter.len(), 100 - i);
        iter.next();
    }
}


#[test]
fn test_dirty_iter_only_stored() {
    let mut vec = setup();

    for i in 0..100 {
        vec.push(i);
    }
    vec.write();

    let collected: Vec<i32> = vec.dirty_iter().collect();
    assert_eq!(collected.len(), 100);
    assert_eq!(collected[0], 0);
    assert_eq!(collected[99], 99);
}

#[test]
fn test_dirty_iter_only_pushed() {
    let mut vec = setup();

    for i in 0..50 {
        vec.push(i);
    }
    // Don't flush

    let collected: Vec<i32> = vec.dirty_iter().collect();
    assert_eq!(collected.len(), 50);
    assert_eq!(collected[0], 0);
    assert_eq!(collected[49], 49);
}

#[test]
fn test_dirty_iter_stored_and_pushed() {
    let mut vec = setup();

    for i in 0..50 {
        vec.push(i);
    }
    vec.write();

    for i in 50..100 {
        vec.push(i);
    }

    let collected: Vec<i32> = vec.dirty_iter().collect();
    assert_eq!(collected.len(), 100);

    for (i, &val) in collected.iter().enumerate() {
        assert_eq!(val, i as i32);
    }
}

#[test]
fn test_dirty_iter_skip_across_boundary() {
    let mut vec = setup();

    for i in 0..50 {
        vec.push(i);
    }
    vec.write();

    for i in 50..100 {
        vec.push(i);
    }

    // Skip from stored into pushed
    let collected: Vec<i32> = vec.dirty_iter().skip(40).collect();
    assert_eq!(collected.len(), 60);
    assert_eq!(collected[0], 40);
    assert_eq!(collected[59], 99);
}

#[test]
fn test_dirty_iter_take_across_boundary() {
    let mut vec = setup();

    for i in 0..50 {
        vec.push(i);
    }
    vec.write();

    for i in 50..100 {
        vec.push(i);
    }

    // Take from stored through pushed
    let collected: Vec<i32> = vec.dirty_iter().skip(40).take(20).collect();
    assert_eq!(collected.len(), 20);
    assert_eq!(collected[0], 40);
    assert_eq!(collected[19], 59);
}

#[test]
fn test_dirty_iter_nth_across_boundary() {
    let mut vec = setup();

    for i in 0..50 {
        vec.push(i);
    }
    vec.write();

    for i in 50..100 {
        vec.push(i);
    }

    let mut iter = vec.dirty_iter();
    assert_eq!(iter.nth(45), Some(45)); // In stored
    assert_eq!(iter.next(), Some(46)); // In stored
    assert_eq!(iter.nth(2), Some(49)); // In stored
    assert_eq!(iter.next(), Some(50)); // In pushed
    assert_eq!(iter.next(), Some(51)); // In pushed
}

#[test]
fn test_dirty_iter_set_position_to_pushed() {
    let mut vec = setup();

    for i in 0..50 {
        vec.push(i);
    }
    vec.write();

    for i in 50..100 {
        vec.push(i);
    }

    let mut iter = vec.dirty_iter();
    iter.set_position_to(75); // Into pushed region
    assert_eq!(iter.next(), Some(75));
    assert_eq!(iter.next(), Some(76));
}

#[test]
fn test_dirty_iter_last_in_pushed() {
    let mut vec = setup();

    for i in 0..50 {
        vec.push(i);
    }
    vec.write();

    for i in 50..100 {
        vec.push(i);
    }

    let iter = vec.dirty_iter();
    assert_eq!(iter.last(), Some(99));
}

#[test]
fn test_dirty_iter_last_in_stored() {
    let mut vec = setup();

    for i in 0..100 {
        vec.push(i);
    }
    vec.write();

    let iter = vec.dirty_iter();
    assert_eq!(iter.last(), Some(99));
}

#[test]
fn test_dirty_iter_exact_size_with_pushed() {
    let mut vec = setup();

    for i in 0..50 {
        vec.push(i);
    }
    vec.write();

    for i in 50..75 {
        vec.push(i);
    }

    let mut iter = vec.dirty_iter();
    assert_eq!(iter.len(), 75);

    iter.next();
    assert_eq!(iter.len(), 74);

    iter.nth(49); // Cross boundary
    assert_eq!(iter.len(), 24);
}

#[test]
fn test_dirty_iter_empty_stored_with_pushed() {
    let mut vec = setup();

    // No flush, only pushed
    for i in 0..50 {
        vec.push(i);
    }

    let collected: Vec<i32> = vec.dirty_iter().collect();
    assert_eq!(collected.len(), 50);

    for (i, &val) in collected.iter().enumerate() {
        assert_eq!(val, i as i32);
    }
}

