//! Zstd frame decoding, used to unpack the embedded tokenizer dictionary.
//!
//! The decompression itself is done by the zstd library behind trusted
//! wrappers; what it returns is a pure function of the input bytes, so the
//! contracts name that result and the rest of the crate reasons over the
//! name.

use vstd::prelude::*;

verus! {

/// The decompressed contents of a zstd frame. ZSTD_decompress computes a
/// function of its input bytes alone, so its result carries this name and
/// the callers' contracts speak of it.
pub uninterp spec fn unzstd_of(data: Seq<u8>) -> Seq<u8>;

/// Relies on zstd_safe::decompress_bound (ZSTD_decompressBound): on
/// success the returned value is an upper bound on the decompressed size
/// of the frame.
#[verifier::external_body]
fn zstd_decompress_bound(data: &Vec<u8>) -> (r: Result<u64, usize>)
    ensures
        r is Ok ==> unzstd_of(data@).len() <= r->Ok_0,
{
    zstd_safe::decompress_bound(data.as_slice())
}

/// Relies on zstd_safe::decompress (one-shot ZSTD_decompress): on success
/// the returned buffer holds exactly the decompressed contents of `src`,
/// which depend on `src` alone; with too small a destination capacity the
/// call fails instead of truncating.
#[verifier::external_body]
fn zstd_decompress_to(src: &Vec<u8>, capacity: usize) -> (r: Result<Vec<u8>, usize>)
    ensures
        r is Ok ==> r->Ok_0@ == unzstd_of(src@),
{
    let mut dst: Vec<u8> = Vec::with_capacity(capacity);
    match zstd_safe::decompress(&mut dst, src.as_slice()) {
        Ok(_) => Ok(dst),
        Err(code) => Err(code),
    }
}

/// Why a zstd frame could not be decoded. The payloads carry the zstd
/// error codes of the failed calls.
#[derive(Clone, Copy, PartialEq, Eq, Structural, Debug)]
pub enum ZstdError {
    BoundFailed(usize),
    TooLarge,
    DecompressFailed(usize),
}

/// Decodes one zstd frame: sizes a buffer from the frame header's bound
/// and decompresses into it. On success the result is exactly the frame's
/// decompressed contents; a malformed frame or an oversized bound yields
/// an error instead.
pub fn decode_zstd(data: &Vec<u8>) -> (r: Result<Vec<u8>, ZstdError>)
    ensures
        r is Ok ==> r->Ok_0@ == unzstd_of(data@),
{
    let bound = match zstd_decompress_bound(data) {
        Ok(b) => b,
        Err(code) => {
            return Err(ZstdError::BoundFailed(code));
        },
    };
    if bound > usize::MAX as u64 {
        return Err(ZstdError::TooLarge);
    }
    let capacity = bound as usize;
    match zstd_decompress_to(data, capacity) {
        Ok(decompressed) => Ok(decompressed),
        Err(code) => Err(ZstdError::DecompressFailed(code)),
    }
}

} // verus!
