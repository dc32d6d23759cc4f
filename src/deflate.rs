//! The zlib compressor and decompressor that each worker owns, and the
//! contracts this library relies on from libdeflater.

use libdeflater::{CompressionError, CompressionLvl, Compressor, DecompressionError, Decompressor};
use vstd::prelude::*;

verus! {

#[verifier::external_type_specification]
#[verifier::external_body]
pub struct ExCompressor(Compressor);

#[verifier::external_type_specification]
#[verifier::external_body]
pub struct ExDecompressor(Decompressor);

#[verifier::external_type_specification]
#[verifier::external_body]
pub struct ExCompressionError(CompressionError);

#[verifier::external_type_specification]
#[verifier::external_body]
pub struct ExDecompressionError(DecompressionError);

/// The zlib stream that libdeflater's compressor, at its default level,
/// produces for `data`.
pub uninterp spec fn zlib_deflated(data: Seq<u8>) -> Seq<u8>;

/// Whether `data` is a zlib stream that libdeflater's decompressor accepts.
pub uninterp spec fn zlib_valid(data: Seq<u8>) -> bool;

/// The bytes that the zlib stream `data` decompresses to, when it is valid.
pub uninterp spec fn zlib_inflated(data: Seq<u8>) -> Seq<u8>;

/// Relies on libdeflater's `Compressor::new` with `CompressionLvl::default()`.
#[verifier::external_body]
fn default_compressor() -> Compressor {
    Compressor::new(CompressionLvl::default())
}

/// Relies on libdeflater's `Decompressor::new`.
#[verifier::external_body]
fn new_decompressor() -> Decompressor {
    Decompressor::new()
}

/// Relies on libdeflater's `Compressor::zlib_compress`, given an output
/// buffer of `zlib_compress_bound` bytes (6 + n + 5 * max(ceil(n / 5000), 1)),
/// the worst case, so that it always succeeds; libdeflate documents that what
/// it writes is a valid stream that decompresses to the input.
#[verifier::external_body]
fn zlib_compress(c: &mut Compressor, data: &[u8]) -> (r: Result<Vec<u8>, CompressionError>)
    ensures
        r is Ok,
        r matches Ok(v) ==> v@ == zlib_deflated(data@) && zlib_valid(v@) && zlib_inflated(v@)
            == data@ && v@.len() <= data@.len() + 5 * (data@.len() / 5000) + 11,
{
    let mut out = vec![0u8; c.zlib_compress_bound(data.len())];
    let n = c.zlib_compress(data, &mut out)?;
    out.truncate(n);
    Ok(out)
}

/// Relies on libdeflater's `Decompressor::zlib_decompress`: it succeeds
/// exactly on a valid stream whose contents fit in `capacity` bytes, and then
/// has written the whole decompressed stream.
#[verifier::external_body]
fn zlib_decompress(d: &mut Decompressor, data: &[u8], capacity: usize) -> (r: Result<
    Vec<u8>,
    DecompressionError,
>)
    ensures
        r.is_ok() == (zlib_valid(data@) && zlib_inflated(data@).len() <= capacity),
        r matches Ok(v) ==> v@ == zlib_inflated(data@),
{
    let mut out = vec![0u8; capacity];
    let n = d.zlib_decompress(data, &mut out)?;
    out.truncate(n);
    Ok(out)
}

/// One compressor and one decompressor, reused in turn by every session of a
/// worker.
pub struct Compression {
    compressor: Compressor,
    decompressor: Decompressor,
}

impl Compression {
    /// A compressor at the default level and a decompressor.
    pub fn new() -> (r: Compression) {
        Compression { compressor: default_compressor(), decompressor: new_decompressor() }
    }

    /// The zlib stream of `data`.
    pub fn deflate(&mut self, data: &[u8]) -> (r: Vec<u8>)
        ensures
            r@ == zlib_deflated(data@),
            zlib_valid(r@),
            zlib_inflated(r@) == data@,
            r@.len() <= data@.len() + 5 * (data@.len() / 5000) + 11,
    {
        match zlib_compress(&mut self.compressor, data) {
            Ok(v) => v,
            Err(_) => {
                proof {
                    assert(false);
                }
                Vec::new()
            },
        }
    }

    /// What the zlib stream `data` decompresses to, when that is valid and
    /// exactly `expected` bytes long; `None` otherwise.
    pub fn inflate(&mut self, data: &[u8], expected: usize) -> (r: Option<Vec<u8>>)
        ensures
            r is Some <==> zlib_valid(data@) && zlib_inflated(data@).len() == expected,
            r matches Some(v) ==> v@ == zlib_inflated(data@),
    {
        match zlib_decompress(&mut self.decompressor, data, expected) {
            Ok(v) => {
                if v.len() == expected {
                    Some(v)
                } else {
                    None
                }
            },
            Err(_) => None,
        }
    }
}

} // verus!
