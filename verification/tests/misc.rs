use vecdb::bench::{avg, AccumulatedTimes, Database};
use vecdb::cached::{CachedReadableVec, CachedVec};
use vecdb::computed::{Computation, ComputedVec};
use vecdb::eager::saturating_add::SaturatingAdd;
use vecdb::error::Error;
use vecdb::header::{Header, HeaderInner, ZeroCopyBool, HEADER_OFFSET};
use vecdb::lazy::{LazyVecFrom1, LazyVecFrom2, LazyVecFrom3, SourceVec};
use vecdb::options::ImportOptions;
use vecdb::region::{copy_range, truncate_write, write_all_at};
use vecdb::stamped::{AnyStampedVec, StampedVec};
use vecdb::version::{Format, Stamp, Version};

type Fn2 = fn(usize, &Vec<u64>, &Vec<u64>) -> Option<u64>;
type Fn3 = fn(usize, &Vec<u64>, &Vec<u64>, &Vec<u64>) -> Option<u64>;

fn double(i: usize, v: &Vec<u64>) -> Option<u64> {
    v.get(i).map(|x| x * 2)
}

#[test]
fn header_bytes_roundtrip_and_checks() {
    let mut region = Vec::new();
    let header = Header::create_and_write(&mut region, Version::new(7), Format::Compressed);
    assert_eq!(region.len(), HEADER_OFFSET);
    assert_eq!(&region[8..16], &7u64.to_le_bytes());
    assert_eq!(region[32], 1);
    assert_eq!(HeaderInner::read_from_bytes(&region), header.inner);
    assert_eq!(header.vec_version(), Version::new(7));
    assert_eq!(header.computed_version(), Version::zero());
    assert_eq!(header.stamp(), Stamp::default_stamp());
    assert!(!header.modified());

    assert_eq!(HeaderInner::import_and_verify(&region, Version::new(7), Format::Compressed), Ok(header.inner));
    assert_eq!(
        HeaderInner::import_and_verify(&region, Version::new(8), Format::Compressed),
        Err(Error::DifferentVersion { found: 7, expected: 8 })
    );
    assert_eq!(
        HeaderInner::import_and_verify(&region, Version::new(7), Format::Raw),
        Err(Error::DifferentCompressionMode)
    );
    assert_eq!(HeaderInner::import_and_verify(&region[..63], Version::new(7), Format::Compressed), Err(Error::WrongLength));

    let mut broken = region.clone();
    broken[32] = 5;
    assert_eq!(
        HeaderInner::import_and_verify(&broken, Version::new(7), Format::Compressed),
        Err(Error::WrongEndian)
    );
}

#[test]
fn header_updates_are_written_once() {
    let mut region = Vec::new();
    let mut header = Header::create_and_write(&mut region, Version::one(), Format::Raw);
    header.update_stamp(Stamp::new(42));
    header.update_computed_version(Version::new(9));
    assert!(header.modified());
    header.write(&mut region);
    assert!(!header.modified());
    let back = HeaderInner::read_from_bytes(&region);
    assert_eq!(back.stamp, Stamp::new(42));
    assert_eq!(back.computed_version, Version::new(9));
    assert_eq!(back.compressed, ZeroCopyBool::from_format(Format::Raw));
    assert!(back.compressed.is_false());
    assert!(ZeroCopyBool::from(Format::Compressed).is_true());
    assert!(ZeroCopyBool(7).is_broken());
}

#[test]
fn region_writes() {
    let mut region = vec![1u8, 2, 3];
    write_all_at(&mut region, 2, &[9, 9]);
    assert_eq!(region, vec![1, 2, 9, 9]);
    truncate_write(&mut region, 1, &[7]);
    assert_eq!(region, vec![1, 7]);
    assert_eq!(copy_range(&[4, 5, 6, 7], 1, 3), vec![5, 6]);
}

#[test]
fn version_sum_wraps() {
    assert_eq!(Version::new(3).plus(Version::two()), Version::new(5));
    assert_eq!(Version::new(u64::MAX).plus(Version::two()), Version::one());
    assert!(Format::Raw.is_raw());
    assert!(Format::Compressed.is_compressed());
}

#[test]
fn saturating_add_stops_at_max() {
    assert_eq!(SaturatingAdd::saturating_add(u64::MAX - 1, 5u64), u64::MAX);
    assert_eq!(SaturatingAdd::saturating_add(2u32, 3u32), 5);
    assert_eq!(SaturatingAdd::saturating_add(usize::MAX, 1usize), usize::MAX);
}

#[test]
fn lazy_from_one_source() {
    let source = SourceVec::new(vec![1, 2, 3, 4], Version::two(), "height");
    let lazy = LazyVecFrom1::init("double", Version::one(), "height", source, double);
    assert_eq!(lazy.len(), 4);
    assert_eq!(lazy.name(), "double");
    assert_eq!(lazy.version(), Version::one());

    let mut iter = lazy.iter();
    assert_eq!(iter.len(), 4);
    assert_eq!(iter.next(), Some(2));
    assert_eq!(iter.nth(1), Some(6));
    assert_eq!(iter.len(), 1);
    assert_eq!(iter.vec_len(), 4);
    iter.set_position_to(0);
    iter.set_end_to(2);
    assert_eq!(iter.len(), 2);
    assert_eq!(iter.nth(5), None);
    assert_eq!(iter.next(), None);
    assert_eq!(lazy.iter().last(), Some(8));
}

#[test]
fn lazy_from_two_and_three_sources() {
    let a = SourceVec::new(vec![1, 2, 3], Version::one(), "height");
    let b = SourceVec::new(vec![10, 20], Version::one(), "height");
    let sum2 = |i: usize, x: &Vec<u64>, y: &Vec<u64>| Some(x.get(i)? + y.get(i)?);
    let lazy2 = LazyVecFrom2::init("sum", Version::one(), "height", a, b, sum2);
    assert_eq!(lazy2.len(), 2);
    let mut it = lazy2.iter();
    assert_eq!(it.next(), Some(11));
    assert_eq!(it.next(), Some(22));
    assert_eq!(it.next(), None);
    assert_eq!(lazy2.iter().last(), Some(22));

    // A source of another index type does not bound the length.
    let a = SourceVec::new(vec![1, 2, 3], Version::one(), "height");
    let b = SourceVec::new(vec![5], Version::one(), "date");
    let c = SourceVec::new(vec![100, 200, 300, 400], Version::one(), "height");
    let f3 = |i: usize, x: &Vec<u64>, y: &Vec<u64>, z: &Vec<u64>| Some(x.get(i)? + y[0] + z.get(i)?);
    let lazy3 = LazyVecFrom3::init("sum3", Version::one(), "height", a, b, c, f3);
    assert_eq!(lazy3.len(), 3);
    let mut it = lazy3.iter();
    assert_eq!(it.nth(2), Some(308));
    assert_eq!(lazy3.iter().last(), Some(308));
}

#[test]
fn computed_eager_fills_up_to_len() {
    let source = SourceVec::new(vec![3, 1, 4, 1, 5], Version::new(4), "height");
    let mut computed = ComputedVec::<_, Fn2, Fn3>::forced_import_or_init_from_1_with(
        &ImportOptions::new("double", Version::one()),
        Computation::Eager,
        Format::Raw,
        Vec::new(),
        Vec::new(),
        "height",
        source,
        double,
    )
    .unwrap();
    assert_eq!(computed.compute_if_necessary(0, 5), Ok(()));
    match &computed {
        ComputedVec::Eager { vec, .. } => {
            assert_eq!(vec.len(), 5);
            assert_eq!(vec.get(2), Ok(Some(8)));
            assert_eq!(vec.computed_version(), Version::new(3 + 4));
        },
        _ => panic!("expected an eager vector"),
    }
    let mut it = computed.iter();
    assert_eq!(it.next(), Some(6));
    assert_eq!(it.next(), Some(2));

    let source = SourceVec::new(vec![3, 1], Version::one(), "height");
    let mut lazy = ComputedVec::<_, Fn2, Fn3>::forced_import_or_init_from_1_with(
        &ImportOptions::new("double", Version::one()),
        Computation::default(),
        Format::Raw,
        Vec::new(),
        Vec::new(),
        "height",
        source,
        double,
    )
    .unwrap();
    assert!(matches!(lazy, ComputedVec::LazyFrom1(_)));
    assert_eq!(lazy.compute_if_necessary(0, 2), Ok(()));
    assert!(lazy.region_names().is_empty());
    let mut it = lazy.iter();
    assert_eq!(it.next(), Some(6));
    assert_eq!(it.next(), Some(2));
    assert_eq!(it.next(), None);
    assert!(Computation::Lazy.lazy());
    assert!(Computation::Eager.eager());
}

#[test]
fn stamped_push_rules() {
    let mut v = StampedVec::forced_import_with(&ImportOptions::new("stamped", Version::one()), Format::Raw, Vec::new(), Vec::new())
        .unwrap();
    assert_eq!(v.checked_push(0, 10), Ok(()));
    assert_eq!(v.checked_push(0, 11), Err(Error::IndexTooLow));
    assert_eq!(v.checked_push(2, 11), Err(Error::IndexTooHigh { index: 2, len: 1 }));
    assert_eq!(v.push_if_needed(0, 99), Ok(()));
    assert_eq!(v.push_if_needed(1, 12), Ok(()));
    assert_eq!(v.len(), 2);
    assert_eq!(v.flush(Stamp::new(5)), Ok(()));
    assert_eq!(v.stamp(), Stamp::new(5));
    v.truncate_if_needed(1, Stamp::new(6));
    assert_eq!(v.len(), 1);
    assert_eq!(v.stamp(), Stamp::new(6));
    v.reset();
    assert_eq!(v.len(), 0);
    assert_eq!(v.stamp(), Stamp::new(0));
}

#[test]
fn cached_snapshot_follows_length_and_version() {
    let mut c = CachedVec::wrap(SourceVec::new(vec![1, 2, 3], Version::one(), "height"));
    assert_eq!(c.cached(), vec![1, 2, 3]);
    c.inner.values.push(4);
    assert_eq!(c.get_at(3), Some(4));
    assert_eq!(c.get_at(4), None);
    assert_eq!(c.version(), Version::one());
    assert_eq!(c.get(0), Some(1));
    assert_eq!(CachedReadableVec::cached(&mut c), vec![1, 2, 3, 4]);

    // A budget may refuse a new snapshot.
    let mut b = CachedVec::wrap_budgeted(SourceVec::new(vec![7], Version::one(), "height"));
    assert_eq!(b.materialize(true, |count| count > 1), None);
    assert_eq!(b.materialize(true, |count| count > 1), Some(vec![7]));
    b.clear();
    assert_eq!(b.materialize(true, |_| false), None);
    assert_eq!(b.materialize(false, |_| false), Some(vec![7]));
}

#[test]
fn bench_average_and_stores() {
    assert_eq!(avg(&[]), 0);
    assert_eq!(avg(&[10, 20, 40]), 23);
    assert_eq!(Database::all().len(), 7);
    assert_eq!(Database::all()[2], Database::Fjall3);
    let t = AccumulatedTimes::new();
    assert!(t.open.is_empty() && t.random_rayon.is_empty());
}
