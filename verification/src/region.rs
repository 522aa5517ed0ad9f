use vstd::prelude::*;

verus! {

/// The bytes of `region` after writing `bytes` at offset `at`: the prefix up
/// to `at` is kept, `bytes` follows, and whatever the region held past the
/// written range is kept too.
pub open spec fn spec_write_at(region: Seq<u8>, at: int, bytes: Seq<u8>) -> Seq<u8> {
    if at + bytes.len() < region.len() {
        region.subrange(0, at) + bytes + region.subrange(at + bytes.len(), region.len() as int)
    } else {
        region.subrange(0, at) + bytes
    }
}

/// The bytes of `region` after truncating it at `at` and appending `bytes`.
pub open spec fn spec_truncate_write(region: Seq<u8>, at: int, bytes: Seq<u8>) -> Seq<u8> {
    region.subrange(0, at) + bytes
}

/// Writes `bytes` into `region` at offset `at`, growing the region when the
/// write reaches past its end.
pub fn write_all_at(region: &mut Vec<u8>, at: usize, bytes: &[u8])
    requires
        at <= old(region)@.len(),
        at + bytes@.len() <= usize::MAX,
    ensures
        final(region)@ == spec_write_at(old(region)@, at as int, bytes@),
{
    let ghost old_region = region@;
    let mut i: usize = 0;
    while i < bytes.len()
        invariant
            at <= old_region.len(),
            at + bytes@.len() <= usize::MAX,
            i <= bytes@.len(),
            region@.len() == if at + i < old_region.len() { old_region.len() } else { (at + i) as nat },
            forall|k: int| 0 <= k < at ==> #[trigger] region@[k] == old_region[k],
            forall|k: int| at <= k < at + i ==> #[trigger] region@[k] == bytes@[k - at],
            forall|k: int| at + i <= k < region@.len() ==> #[trigger] region@[k] == old_region[k],
        decreases bytes@.len() - i,
    {
        let pos = at + i;
        if pos < region.len() {
            region.set(pos, bytes[i]);
        } else {
            region.push(bytes[i]);
        }
        i = i + 1;
    }
    assert(region@ =~= spec_write_at(old_region, at as int, bytes@));
}

/// Truncates `region` at `at` and appends `bytes`.
pub fn truncate_write(region: &mut Vec<u8>, at: usize, bytes: &[u8])
    requires
        at <= old(region)@.len(),
    ensures
        final(region)@ == spec_truncate_write(old(region)@, at as int, bytes@),
{
    region.truncate(at);
    let mut i: usize = 0;
    let ghost base = region@;
    while i < bytes.len()
        invariant
            i <= bytes@.len(),
            region@ == base + bytes@.subrange(0, i as int),
        decreases bytes@.len() - i,
    {
        region.push(bytes[i]);
        i = i + 1;
        assert(region@ =~= base + bytes@.subrange(0, i as int));
    }
    assert(bytes@.subrange(0, bytes@.len() as int) =~= bytes@);
}

/// Copies the bytes `[from, to)` of `src` into a new vector.
pub fn copy_range(src: &[u8], from: usize, to: usize) -> (r: Vec<u8>)
    requires
        from <= to <= src@.len(),
    ensures
        r@ == src@.subrange(from as int, to as int),
{
    let mut r: Vec<u8> = Vec::new();
    let mut i = from;
    while i < to
        invariant
            from <= i <= to <= src@.len(),
            r@ == src@.subrange(from as int, i as int),
        decreases to - i,
    {
        r.push(src[i]);
        i = i + 1;
        assert(r@ =~= src@.subrange(from as int, i as int));
    }
    r
}

} // verus!
