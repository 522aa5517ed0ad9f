use vstd::prelude::*;

verus! {

#[verifier::external_type_specification]
#[verifier::external_body]
pub struct ExPcoError(pco::errors::PcoError);

/// The numbers of the Pcodec standalone file `data`, as
/// `pco::standalone::simple_decompress_into` reads them into a destination
/// with room for all of them, or `None` when it refuses the bytes.
pub uninterp spec fn pco_decompressed(data: Seq<u8>) -> Option<Seq<u64>>;

/// Calls `pco::standalone::simpler_compress`. The compression is lossless:
/// the bytes decode back to the values. Levels above 12 are invalid (its
/// documentation says the call panics on them). Otherwise it fails only on a
/// chunk of no value or of more than 2^24 values, so it succeeds on a
/// non-empty slice of at most 2^24 values. Up to 2^18 values make one Pcodec
/// chunk, and `pco::standalone::guarantee::file_size` bounds such a file by
/// 16 bytes of header, 34 bytes of chunk framing and metadata, 8 bytes per
/// `u64` value and 1 byte of footer; the compressor falls back to plain
/// values to keep that bound. The bytes themselves are not claimed:
/// Pcodec's choices can differ from one process to another.
#[verifier::external_body]
pub(crate) fn pco_compress(values: &[u64], level: usize) -> (r: Result<Vec<u8>, pco::errors::PcoError>)
    requires
        level <= 12,
    ensures
        r matches Ok(b) ==> pco_decompressed(b@) == Some(values@),
        0 < values@.len() <= 16777216 ==> r is Ok,
        r matches Ok(b) ==> (values@.len() <= 262144 ==> b@.len() <= 8 * values@.len() + 51),
{
    pco::standalone::simpler_compress(values, level)
}

/// Calls `pco::standalone::simple_decompress_into` for `u64` numbers: it
/// reads the file `data` into `dst`, whose length it keeps, and returns how
/// many numbers it wrote and whether it read to the end of the file (its
/// documentation: it does not fail on a destination too short or too long,
/// which the progress shows). When it read to the end, the numbers written
/// are all the file holds; when the file holds no more numbers than `dst`
/// has room for, it succeeds and reads to the end. Unlike
/// `simple_decompress`, it allocates nothing from the size hint in the
/// file's header and does not assert that the file was read to the end.
#[verifier::external_body]
pub(crate) fn pco_decompress_into(data: &[u8], dst: &mut Vec<u64>) -> (r: Result<(usize, bool), pco::errors::PcoError>)
    ensures
        final(dst)@.len() == old(dst)@.len(),
        r matches Ok((n, _)) ==> n <= old(dst)@.len(),
        r matches Ok((n, true)) ==> pco_decompressed(data@) == Some(final(dst)@.subrange(0, n as int)),
        pco_decompressed(data@) is Some && pco_decompressed(data@)->0.len() <= old(dst)@.len() ==> (r matches Ok(
            (n, true),
        ) && n == pco_decompressed(data@)->0.len()),
{
    match pco::standalone::simple_decompress_into::<u64>(data, dst.as_mut_slice()) {
        Ok(progress) => Ok((progress.n_processed, progress.finished)),
        Err(e) => Err(e),
    }
}

} // verus!
