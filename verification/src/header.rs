use vstd::bytes::*;
use vstd::prelude::*;
use vstd::slice::slice_subrange;

use crate::error::Error;
use crate::region::{spec_write_at, write_all_at};
use crate::version::{Format, Stamp, Version};

verus! {

/// Number of bytes a header takes at the start of a vector's region.
pub const HEADER_OFFSET: usize = 64;

/// Version of the header layout itself.
pub const HEADER_VERSION: u64 = 1;

/// A boolean stored as one byte: 0 is false, 1 is true, anything else is
/// broken (read with the wrong byte order or corrupted).
#[derive(Debug, Clone, Copy, PartialEq, Eq, Structural)]
pub struct ZeroCopyBool(pub u8);

impl ZeroCopyBool {
    pub fn is_true(&self) -> (r: bool)
        ensures
            r == (self.0 == 1),
    {
        self.0 == 1
    }

    pub fn is_false(&self) -> (r: bool)
        ensures
            r == (self.0 == 0),
    {
        self.0 == 0
    }

    pub fn is_broken(&self) -> (r: bool)
        ensures
            r == (self.0 > 1),
    {
        self.0 > 1
    }

    pub open spec fn spec_from_format(format: Format) -> ZeroCopyBool {
        if format is Raw {
            ZeroCopyBool(0)
        } else {
            ZeroCopyBool(1)
        }
    }

    /// Raw vectors are flagged false, compressed ones true.
    pub fn from_format(format: Format) -> (r: ZeroCopyBool)
        ensures
            r == Self::spec_from_format(format),
    {
        ZeroCopyBool::from(format)
    }
}

/// Raw vectors are flagged false, compressed ones true.
impl From<Format> for ZeroCopyBool {
    fn from(format: Format) -> (r: ZeroCopyBool) {
        if format.is_raw() {
            ZeroCopyBool(0)
        } else {
            ZeroCopyBool(1)
        }
    }
}

impl vstd::std_specs::convert::FromSpecImpl<Format> for ZeroCopyBool {
    open spec fn obeys_from_spec() -> bool {
        true
    }

    open spec fn from_spec(format: Format) -> ZeroCopyBool {
        ZeroCopyBool::spec_from_format(format)
    }
}

/// The fixed-size header at the start of each vector region.
#[derive(Debug, Clone, Copy, PartialEq, Eq, Structural)]
pub struct HeaderInner {
    pub header_version: Version,
    pub vec_version: Version,
    pub computed_version: Version,
    pub stamp: Stamp,
    pub compressed: ZeroCopyBool,
}

/// The 64 header bytes: four little-endian `u64` fields, the flag byte, and
/// 31 zero bytes of padding.
pub open spec fn spec_header_bytes(h: HeaderInner) -> Seq<u8> {
    spec_u64_to_le_bytes(h.header_version.0) + spec_u64_to_le_bytes(h.vec_version.0)
        + spec_u64_to_le_bytes(h.computed_version.0) + spec_u64_to_le_bytes(h.stamp.0)
        + seq![h.compressed.0] + Seq::new(31, |i: int| 0u8)
}

/// The header that the first 64 bytes of `s` encode.
pub open spec fn spec_parse_header(s: Seq<u8>) -> HeaderInner {
    HeaderInner {
        header_version: Version(spec_u64_from_le_bytes(s.subrange(0, 8))),
        vec_version: Version(spec_u64_from_le_bytes(s.subrange(8, 16))),
        computed_version: Version(spec_u64_from_le_bytes(s.subrange(16, 24))),
        stamp: Stamp(spec_u64_from_le_bytes(s.subrange(24, 32))),
        compressed: ZeroCopyBool(s[32]),
    }
}

/// What importing a header from `region` gives, given the expected vector
/// version and format.
pub open spec fn spec_import_header(region: Seq<u8>, vec_version: Version, format: Format) -> Result<
    HeaderInner,
    Error,
> {
    if region.len() < HEADER_OFFSET {
        Err(Error::WrongLength)
    } else {
        let h = spec_parse_header(region);
        if h.header_version.0 != HEADER_VERSION {
            Err(Error::DifferentVersion { found: h.header_version.0, expected: HEADER_VERSION })
        } else if h.vec_version != vec_version {
            Err(Error::DifferentVersion { found: h.vec_version.0, expected: vec_version.0 })
        } else if h.compressed.0 > 1 {
            Err(Error::WrongEndian)
        } else if (h.compressed.0 == 1 && format is Raw) || (h.compressed.0 == 0
            && format is Compressed) {
            Err(Error::DifferentCompressionMode)
        } else {
            Ok(h)
        }
    }
}

/// A freshly created header for a vector of the given version and format.
pub open spec fn spec_new_header(vec_version: Version, format: Format) -> HeaderInner {
    HeaderInner {
        header_version: Version(HEADER_VERSION),
        vec_version,
        computed_version: Version(0),
        stamp: Stamp(0),
        compressed: ZeroCopyBool::spec_from_format(format),
    }
}

fn read_u64_at(s: &[u8], at: usize) -> (r: u64)
    requires
        at + 8 <= s@.len(),
    ensures
        r == spec_u64_from_le_bytes(s@.subrange(at as int, at + 8)),
{
    let n = s.len();
    u64_from_le_bytes(slice_subrange(s, at, at + 8))
}

fn push_u64(out: &mut Vec<u8>, v: u64)
    ensures
        final(out)@ == old(out)@ + spec_u64_to_le_bytes(v),
{
    proof {
        lemma_auto_spec_u64_to_from_le_bytes();
    }
    let bytes = u64_to_le_bytes(v);
    let ghost base = out@;
    let mut i: usize = 0;
    while i < 8
        invariant
            bytes@.len() == 8,
            i <= 8,
            out@ == base + bytes@.subrange(0, i as int),
        decreases 8 - i,
    {
        out.push(bytes[i]);
        i = i + 1;
        assert(out@ =~= base + bytes@.subrange(0, i as int));
    }
    assert(bytes@.subrange(0, 8) =~= bytes@);
}

impl HeaderInner {
    /// Parses the first 64 bytes of `s`.
    pub fn read_from_bytes(s: &[u8]) -> (r: HeaderInner)
        requires
            s@.len() >= HEADER_OFFSET,
        ensures
            r == spec_parse_header(s@),
    {
        HeaderInner {
            header_version: Version(read_u64_at(s, 0)),
            vec_version: Version(read_u64_at(s, 8)),
            computed_version: Version(read_u64_at(s, 16)),
            stamp: Stamp(read_u64_at(s, 24)),
            compressed: ZeroCopyBool(s[32]),
        }
    }

    /// Encodes the header as its 64 bytes.
    pub fn as_bytes(&self) -> (r: Vec<u8>)
        ensures
            r@ == spec_header_bytes(*self),
            r@.len() == HEADER_OFFSET,
    {
        proof {
            lemma_auto_spec_u64_to_from_le_bytes();
        }
        let mut out: Vec<u8> = Vec::new();
        push_u64(&mut out, self.header_version.0);
        push_u64(&mut out, self.vec_version.0);
        push_u64(&mut out, self.computed_version.0);
        push_u64(&mut out, self.stamp.0);
        out.push(self.compressed.0);
        let ghost base = out@;
        let mut i: usize = 0;
        while i < 31
            invariant
                i <= 31,
                out@ == base + Seq::new(i as nat, |k: int| 0u8),
            decreases 31 - i,
        {
            out.push(0u8);
            i = i + 1;
            assert(out@ =~= base + Seq::new(i as nat, |k: int| 0u8));
        }
        assert(out@ =~= spec_header_bytes(*self));
        out
    }

    /// Writes the header bytes at the start of `region`.
    pub fn write(&self, region: &mut Vec<u8>)
        ensures
            final(region)@ == spec_write_at(old(region)@, 0, spec_header_bytes(*self)),
    {
        let bytes = self.as_bytes();
        write_all_at(region, 0, bytes.as_slice());
    }

    /// Builds the header of a new vector and writes it at the start of `region`.
    pub fn create_and_write(region: &mut Vec<u8>, vec_version: Version, format: Format) -> (r:
        HeaderInner)
        ensures
            r == spec_new_header(vec_version, format),
            final(region)@ == spec_write_at(old(region)@, 0, spec_header_bytes(r)),
    {
        let header = HeaderInner {
            header_version: Version(HEADER_VERSION),
            vec_version,
            computed_version: Version(0),
            stamp: Stamp(0),
            compressed: ZeroCopyBool::from_format(format),
        };
        header.write(region);
        header
    }

    /// Reads the header at the start of `region` and checks it against the
    /// expected vector version and format.
    pub fn import_and_verify(region: &[u8], vec_version: Version, format: Format) -> (r: Result<
        HeaderInner,
        Error,
    >)
        ensures
            r == spec_import_header(region@, vec_version, format),
    {
        if region.len() < HEADER_OFFSET {
            return Err(Error::WrongLength);
        }
        let header = HeaderInner::read_from_bytes(region);
        if header.header_version.0 != HEADER_VERSION {
            return Err(
                Error::DifferentVersion {
                    found: header.header_version.0,
                    expected: HEADER_VERSION,
                },
            );
        }
        if header.vec_version.0 != vec_version.0 {
            return Err(
                Error::DifferentVersion { found: header.vec_version.0, expected: vec_version.0 },
            );
        }
        if header.compressed.is_broken() {
            return Err(Error::WrongEndian);
        }
        if (header.compressed.is_true() && format.is_raw()) || (header.compressed.is_false()
            && format.is_compressed()) {
            return Err(Error::DifferentCompressionMode);
        }
        Ok(header)
    }
}

/// Decoding the bytes of a header gives the header back.
pub proof fn lemma_header_roundtrip(h: HeaderInner)
    ensures
        spec_header_bytes(h).len() == HEADER_OFFSET,
        spec_parse_header(spec_header_bytes(h)) == h,
{
    lemma_auto_spec_u64_to_from_le_bytes();
    let b = spec_header_bytes(h);
    assert(b.subrange(0, 8) =~= spec_u64_to_le_bytes(h.header_version.0));
    assert(b.subrange(8, 16) =~= spec_u64_to_le_bytes(h.vec_version.0));
    assert(b.subrange(16, 24) =~= spec_u64_to_le_bytes(h.computed_version.0));
    assert(b.subrange(24, 32) =~= spec_u64_to_le_bytes(h.stamp.0));
}

/// The header read from a region depends on its first bytes alone.
pub proof fn lemma_parse_header_prefix(a: Seq<u8>, b: Seq<u8>)
    requires
        a.len() >= HEADER_OFFSET,
        b.len() >= HEADER_OFFSET,
        a.subrange(0, HEADER_OFFSET as int) == b.subrange(0, HEADER_OFFSET as int),
    ensures
        spec_parse_header(a) == spec_parse_header(b),
{
    assert(a.subrange(0, 8) =~= a.subrange(0, HEADER_OFFSET as int).subrange(0, 8));
    assert(b.subrange(0, 8) =~= b.subrange(0, HEADER_OFFSET as int).subrange(0, 8));
    assert(a.subrange(8, 16) =~= a.subrange(0, HEADER_OFFSET as int).subrange(8, 16));
    assert(b.subrange(8, 16) =~= b.subrange(0, HEADER_OFFSET as int).subrange(8, 16));
    assert(a.subrange(16, 24) =~= a.subrange(0, HEADER_OFFSET as int).subrange(16, 24));
    assert(b.subrange(16, 24) =~= b.subrange(0, HEADER_OFFSET as int).subrange(16, 24));
    assert(a.subrange(24, 32) =~= a.subrange(0, HEADER_OFFSET as int).subrange(24, 32));
    assert(b.subrange(24, 32) =~= b.subrange(0, HEADER_OFFSET as int).subrange(24, 32));
    assert(a[32] == a.subrange(0, HEADER_OFFSET as int)[32]);
    assert(b[32] == b.subrange(0, HEADER_OFFSET as int)[32]);
}

/// A header written for a vector of some version and format is accepted when
/// that vector is imported again with the same version and format.
pub proof fn lemma_created_header_imports(region: Seq<u8>, vec_version: Version, format: Format)
    ensures
        spec_import_header(
            spec_write_at(region, 0, spec_header_bytes(spec_new_header(vec_version, format))),
            vec_version,
            format,
        ) == Ok::<HeaderInner, Error>(spec_new_header(vec_version, format)),
{
    let h = spec_new_header(vec_version, format);
    lemma_header_roundtrip(h);
    let w = spec_write_at(region, 0, spec_header_bytes(h));
    assert(w.subrange(0, 64) =~= spec_header_bytes(h));
    assert(spec_parse_header(w) == spec_parse_header(spec_header_bytes(h))) by {
        assert(w.subrange(0, 8) =~= spec_header_bytes(h).subrange(0, 8));
        assert(w.subrange(8, 16) =~= spec_header_bytes(h).subrange(8, 16));
        assert(w.subrange(16, 24) =~= spec_header_bytes(h).subrange(16, 24));
        assert(w.subrange(24, 32) =~= spec_header_bytes(h).subrange(24, 32));
        assert(w[32] == spec_header_bytes(h)[32]);
    }
}

/// Header of a stored vector together with whether it changed since it was
/// last written.
#[derive(Debug, Clone, Copy)]
pub struct Header {
    pub inner: HeaderInner,
    pub modified: bool,
}

impl Header {
    pub fn create_and_write(region: &mut Vec<u8>, vec_version: Version, format: Format) -> (r:
        Header)
        ensures
            r.inner == spec_new_header(vec_version, format),
            !r.modified,
            final(region)@ == spec_write_at(old(region)@, 0, spec_header_bytes(r.inner)),
    {
        let inner = HeaderInner::create_and_write(region, vec_version, format);
        Header { inner, modified: false }
    }

    pub fn import_and_verify(region: &[u8], vec_version: Version, format: Format) -> (r: Result<
        Header,
        Error,
    >)
        ensures
            match r {
                Ok(h) => spec_import_header(region@, vec_version, format) == Ok::<
                    HeaderInner,
                    Error,
                >(h.inner) && !h.modified,
                Err(e) => spec_import_header(region@, vec_version, format) == Err::<
                    HeaderInner,
                    Error,
                >(e),
            },
    {
        match HeaderInner::import_and_verify(region, vec_version, format) {
            Ok(inner) => Ok(Header { inner, modified: false }),
            Err(e) => Err(e),
        }
    }

    pub fn update_stamp(&mut self, stamp: Stamp)
        ensures
            final(self).inner == (HeaderInner { stamp, ..old(self).inner }),
            final(self).modified,
    {
        self.modified = true;
        self.inner.stamp = stamp;
    }

    pub fn update_format(&mut self, format: Format)
        ensures
            final(self).inner == (HeaderInner {
                compressed: ZeroCopyBool::spec_from_format(format),
                ..old(self).inner
            }),
            final(self).modified,
    {
        self.modified = true;
        self.inner.compressed = ZeroCopyBool::from_format(format);
    }

    pub fn update_computed_version(&mut self, computed_version: Version)
        ensures
            final(self).inner == (HeaderInner { computed_version, ..old(self).inner }),
            final(self).modified,
    {
        self.modified = true;
        self.inner.computed_version = computed_version;
    }

    pub fn modified(&self) -> (r: bool)
        ensures
            r == self.modified,
    {
        self.modified
    }

    pub fn vec_version(&self) -> (r: Version)
        ensures
            r == self.inner.vec_version,
    {
        self.inner.vec_version
    }

    pub fn computed_version(&self) -> (r: Version)
        ensures
            r == self.inner.computed_version,
    {
        self.inner.computed_version
    }

    pub fn stamp(&self) -> (r: Stamp)
        ensures
            r == self.inner.stamp,
    {
        self.inner.stamp
    }

    /// Writes the header at the start of `region` and marks it unmodified.
    pub fn write(&mut self, region: &mut Vec<u8>)
        ensures
            final(self).inner == old(self).inner,
            !final(self).modified,
            final(region)@ == spec_write_at(old(region)@, 0, spec_header_bytes(old(self).inner)),
    {
        self.inner.write(region);
        self.modified = false;
    }
}

} // verus!
