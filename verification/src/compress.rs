//! Snappy compression of blocks and index hunks.

use vstd::prelude::*;
use crate::errors::Error;

verus! {

/// What `snap`'s raw decoder makes of `compressed`: the bytes it stands for,
/// or `None` where it is no valid Snappy block.
pub uninterp spec fn snappy_decompressed(compressed: Seq<u8>) -> Option<Seq<u8>>;

/// Calls `snap::raw::Encoder::compress_vec` on a fresh encoder. An error comes
/// back as its message.
///
/// Trusted: what comes out is never empty (it starts with the length of the
/// input), the decoder gives the input back from it, and the inputs that are
/// refused are exactly those too long for the format, whose limit the encoder
/// computes as stated here.
#[verifier::external_body]
pub(crate) fn snappy_compress(input: &[u8]) -> (r: Result<Vec<u8>, String>)
    ensures
        r matches Ok(out) ==> out@.len() >= 1 && snappy_decompressed(out@) == Some(input@),
        r is Ok <==> 32 + input@.len() + input@.len() / 6 <= 0xffff_ffff,
{
    snap::raw::Encoder::new().compress_vec(input).map_err(|e| e.to_string())
}

/// Calls `snap::raw::Decoder::decompress_vec` on a fresh decoder. An error
/// comes back as its message.
///
/// Trusted: the outcome depends on the input alone, and nothing is made of
/// no bytes at all.
#[verifier::external_body]
pub(crate) fn snappy_decompress(input: &[u8]) -> (r: Result<Vec<u8>, String>)
    ensures
        match r {
            Ok(out) => snappy_decompressed(input@) == Some(out@),
            Err(_) => snappy_decompressed(input@) is None,
        },
        input@.len() == 0 ==> r is Err,
{
    snap::raw::Decoder::new().decompress_vec(input).map_err(|e| e.to_string())
}

/// The longest input that can be compressed.
pub const MAX_COMPRESS_INPUT: usize = 3_681_400_511;

/// Compresses bytes. Anything up to [`MAX_COMPRESS_INPUT`] bytes can be
/// compressed, and is never compressed to nothing; anything longer is
/// refused.
pub fn compress(input: &[u8]) -> (r: Result<Vec<u8>, Error>)
    ensures
        r is Ok <==> input@.len() <= MAX_COMPRESS_INPUT,
        match r {
            Ok(out) => out@.len() >= 1 && snappy_decompressed(out@) == Some(input@),
            Err(e) => e is Compression,
        },
{
    match snappy_compress(input) {
        Ok(out) => Ok(out),
        Err(message) => Err(Error::Compression { message }),
    }
}

/// Decompresses bytes: this succeeds exactly on what is a valid Snappy block.
pub fn decompress(input: &[u8]) -> (r: Result<Vec<u8>, Error>)
    ensures
        match r {
            Ok(out) => snappy_decompressed(input@) == Some(out@),
            Err(e) => e is Compression && snappy_decompressed(input@) is None,
        },
        input@.len() == 0 ==> r is Err,
{
    match snappy_decompress(input) {
        Ok(out) => Ok(out),
        Err(message) => Err(Error::Compression { message }),
    }
}

} // verus!
