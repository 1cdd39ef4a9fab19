//! Compression of frames for storage, by zlib through the `flate2` crate.
//!
//! What a stream inflates to is a function of the stream. The stream that
//! compression yields is not pinned down: ids and integrity rest on the
//! bytes before compression alone.

use crate::error::StoreError;
use flate2::read::ZlibDecoder;
use flate2::write::ZlibEncoder;
use flate2::Compression;
use std::io::Read;
use std::io::Write;
use vstd::prelude::*;

verus! {

/// What `flate2`'s zlib decoder reads out of `stream` up to its end: the
/// inflated bytes, or `None` where it reports an error.
pub uninterp spec fn zlib_inflated(stream: Seq<u8>) -> Option<Seq<u8>>;

/// Writes `data` through `flate2::write::ZlibEncoder` at the default level
/// into a vector and finishes the stream.
///
/// Trusted: the decoder reads the data back from the stream that comes out;
/// and it reads nothing from that stream without its last byte, because the
/// stream ends in a checksum and the decoder reports a stream that stops
/// early as incomplete. The encoder passes on errors of its sink only, and a
/// vector as sink reports none.
#[verifier::external_body]
fn zlib_encode(data: &[u8]) -> (stream: Vec<u8>)
    ensures
        zlib_inflated(stream@) == Some(data@),
        stream@.len() > 0,
        zlib_inflated(stream@.drop_last()) is None,
{
    let mut encoder = ZlibEncoder::new(Vec::new(), Compression::default());
    encoder.write_all(data).unwrap();
    encoder.finish().unwrap()
}

/// Reads `stream` to its end through `flate2::read::ZlibDecoder`.
///
/// Trusted: the outcome depends on the stream alone, so it is named by
/// [`zlib_inflated`]; an error of the decoder becomes `None`.
#[verifier::external_body]
fn zlib_decode(stream: &[u8]) -> (data: Option<Vec<u8>>)
    ensures
        match zlib_inflated(stream@) {
            Some(bytes) => data matches Some(v) && v@ == bytes,
            None => data is None,
        },
{
    let mut data = Vec::new();
    match ZlibDecoder::new(stream).read_to_end(&mut data) {
        Ok(_) => Some(data),
        Err(_) => None,
    }
}

/// What [`decompress`] returns for `stream`.
pub open spec fn decompressed(stream: Seq<u8>) -> Result<Seq<u8>, StoreError> {
    match zlib_inflated(stream) {
        Some(bytes) => Ok(bytes),
        None => Err(StoreError::CorruptObject),
    }
}

/// Compresses `bytes` for storage. Decompressing the result gives `bytes`
/// back, and decompressing the result cut short by one byte fails.
pub fn compress(bytes: &[u8]) -> (stream: Vec<u8>)
    ensures
        decompressed(stream@) == Ok::<Seq<u8>, StoreError>(bytes@),
        stream@.len() > 0,
        decompressed(stream@.drop_last()) == Err::<Seq<u8>, StoreError>(StoreError::CorruptObject),
{
    zlib_encode(bytes)
}

/// Inflates a stored stream.
///
/// Fails with [`StoreError::CorruptObject`] where the stream is malformed or
/// cut short.
pub fn decompress(stream: &[u8]) -> (r: Result<Vec<u8>, StoreError>)
    ensures
        match decompressed(stream@) {
            Ok(bytes) => r matches Ok(v) && v@ == bytes,
            Err(e) => r == Err::<Vec<u8>, StoreError>(e),
        },
{
    match zlib_decode(stream) {
        Some(data) => Ok(data),
        None => Err(StoreError::CorruptObject),
    }
}

} // verus!
