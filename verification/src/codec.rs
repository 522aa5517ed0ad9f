use vstd::bytes::*;
use vstd::prelude::*;

verus! {

/// A fixed-size value that a raw vector stores as little-endian bytes.
pub trait Bytes: Sized + Copy {
    /// Number of bytes one value takes.
    spec fn spec_size() -> nat;

    spec fn spec_to_bytes(self) -> Seq<u8>;

    spec fn spec_from_bytes(s: Seq<u8>) -> Self;

    fn size_of() -> (r: usize)
        ensures
            r == Self::spec_size(),
            1 <= r <= 16,
    ;

    fn to_bytes(&self) -> (r: Vec<u8>)
        ensures
            r@ == self.spec_to_bytes(),
    ;

    fn from_bytes(s: &[u8]) -> (r: Self)
        requires
            s@.len() == Self::spec_size(),
        ensures
            r == Self::spec_from_bytes(s@),
    ;

    /// A value takes between 1 and 16 bytes.
    proof fn lemma_size()
        ensures
            1 <= Self::spec_size() <= 16,
    ;

    /// Encoding a value gives `spec_size` bytes that decode to the value.
    proof fn lemma_roundtrip(v: Self)
        ensures
            v.spec_to_bytes().len() == Self::spec_size(),
            Self::spec_from_bytes(v.spec_to_bytes()) == v,
    ;
}

impl Bytes for u64 {
    open spec fn spec_size() -> nat {
        8
    }

    open spec fn spec_to_bytes(self) -> Seq<u8> {
        spec_u64_to_le_bytes(self)
    }

    open spec fn spec_from_bytes(s: Seq<u8>) -> u64 {
        spec_u64_from_le_bytes(s)
    }

    fn size_of() -> (r: usize) {
        8
    }

    fn to_bytes(&self) -> (r: Vec<u8>) {
        u64_to_le_bytes(*self)
    }

    fn from_bytes(s: &[u8]) -> (r: u64) {
        u64_from_le_bytes(s)
    }

    proof fn lemma_size() {
    }

    proof fn lemma_roundtrip(v: u64) {
        lemma_auto_spec_u64_to_from_le_bytes();
    }
}

impl Bytes for u32 {
    open spec fn spec_size() -> nat {
        4
    }

    open spec fn spec_to_bytes(self) -> Seq<u8> {
        spec_u32_to_le_bytes(self)
    }

    open spec fn spec_from_bytes(s: Seq<u8>) -> u32 {
        spec_u32_from_le_bytes(s)
    }

    fn size_of() -> (r: usize) {
        4
    }

    fn to_bytes(&self) -> (r: Vec<u8>) {
        proof {
            lemma_auto_spec_u32_to_from_le_bytes();
        }
        u32_to_le_bytes(*self)
    }

    fn from_bytes(s: &[u8]) -> (r: u32) {
        u32_from_le_bytes(s)
    }

    proof fn lemma_size() {
    }

    proof fn lemma_roundtrip(v: u32) {
        lemma_auto_spec_u32_to_from_le_bytes();
        assert(spec_u32_to_le_bytes(v).len() == 4);
    }
}

/// A signed value is stored as the little-endian bytes of its two's
/// complement.
impl Bytes for i32 {
    open spec fn spec_size() -> nat {
        4
    }

    open spec fn spec_to_bytes(self) -> Seq<u8> {
        spec_u32_to_le_bytes(self as u32)
    }

    open spec fn spec_from_bytes(s: Seq<u8>) -> i32 {
        spec_u32_from_le_bytes(s) as i32
    }

    fn size_of() -> (r: usize) {
        4
    }

    fn to_bytes(&self) -> (r: Vec<u8>) {
        proof {
            lemma_auto_spec_u32_to_from_le_bytes();
        }
        u32_to_le_bytes(*self as u32)
    }

    fn from_bytes(s: &[u8]) -> (r: i32) {
        u32_from_le_bytes(s) as i32
    }

    proof fn lemma_size() {
    }

    proof fn lemma_roundtrip(v: i32) {
        lemma_auto_spec_u32_to_from_le_bytes();
        assert(spec_u32_to_le_bytes(v as u32).len() == 4);
        let u = v as u32;
        assert(u as i32 == v) by (bit_vector)
            requires
                u == v as u32,
        ;
    }
}

/// The bytes of a sequence of values, one after the other.
pub open spec fn spec_encode_all<T: Bytes>(s: Seq<T>) -> Seq<u8>
    decreases s.len(),
{
    if s.len() == 0 {
        Seq::empty()
    } else {
        spec_encode_all(s.drop_last()) + s.last().spec_to_bytes()
    }
}

/// The values that `len / size` consecutive chunks of `b` decode to.
pub open spec fn spec_decode_all<T: Bytes>(b: Seq<u8>) -> Seq<T> {
    Seq::new(
        b.len() / T::spec_size(),
        |i: int|
            T::spec_from_bytes(b.subrange(i * T::spec_size(), (i + 1) * T::spec_size())),
    )
}

} // verus!
