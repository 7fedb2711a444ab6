//! A zstd layer over FluxPack streams: the whole binary stream compressed, and restored.
use vstd::prelude::*;
use crate::error::FluxPackError;
use crate::text::concat_str;
use crate::outside::{zstd_encode_all, zstd_decode_all, io_error_text, zstd_compressed, zstd_decompressed};

verus! {

/// Default compression level.
pub const DEFAULT_COMPRESSION_LEVEL: i32 = 3;

/// Whether `r` is what compressing `input` at `level` may give: the zstd bytes, which
/// decompress to the input, or a `ColumnarError` whose message starts
/// `zstd compression failed: `.
pub open spec fn compress_result(input: Seq<u8>, level: i32, r: Result<Vec<u8>, FluxPackError>) -> bool {
    match r {
        Ok(v) => v@ == zstd_compressed(input, level) && zstd_decompressed(v@) == Some(input),
        Err(e) => e matches FluxPackError::ColumnarError(m) && "zstd compression failed: "@.is_prefix_of(m@),
    }
}

/// Compress a FluxPack stream using zstd at the default level.
pub fn compress(input: &[u8]) -> (r: Result<Vec<u8>, FluxPackError>)
    ensures
        compress_result(input@, DEFAULT_COMPRESSION_LEVEL, r),
{
    compress_with_level(input, DEFAULT_COMPRESSION_LEVEL)
}

/// The message of a failure, after its prefix.
fn failure_message(prefix: &str, e: &std::io::Error) -> (m: String)
    ensures
        prefix@.is_prefix_of(m@),
{
    let m = concat_str(prefix, io_error_text(e).as_str());
    assert(m@.subrange(0, prefix@.len() as int) =~= prefix@);
    m
}

/// Compress with a specific zstd compression level (1-22).
pub fn compress_with_level(input: &[u8], level: i32) -> (r: Result<Vec<u8>, FluxPackError>)
    ensures
        compress_result(input@, level, r),
{
    match zstd_encode_all(input, level) {
        Ok(v) => Ok(v),
        Err(e) => Err(FluxPackError::ColumnarError(failure_message("zstd compression failed: ", &e))),
    }
}

/// Decompress a zstd-compressed FluxPack stream: on success the data its frames hold; a
/// failure is a `ColumnarError` whose message starts `zstd decompression failed: `.
pub fn decompress(input: &[u8]) -> (r: Result<Vec<u8>, FluxPackError>)
    ensures
        match r {
            Ok(v) => zstd_decompressed(input@) == Some(v@),
            Err(e) => e matches FluxPackError::ColumnarError(m) && "zstd decompression failed: "@.is_prefix_of(m@),
        },
{
    match zstd_decode_all(input) {
        Ok(v) => Ok(v),
        Err(e) => Err(FluxPackError::ColumnarError(failure_message("zstd decompression failed: ", &e))),
    }
}

/// Compress with a dictionary: the dictionary is not used yet, so this is compression at
/// `level`.
pub fn compress_with_dict(input: &[u8], _dict: &[u8], level: i32) -> (r: Result<Vec<u8>, FluxPackError>)
    ensures
        compress_result(input@, level, r),
{
    compress_with_level(input, level)
}

/// Law: decompressing what compression gave restores the input. Given bytes `c` that
/// `compress` returned for `input` (so `compress_result` holds), whatever `decompress`
/// returns on success is `input`.
pub proof fn law_compress_roundtrip(input: Seq<u8>, level: i32, c: Vec<u8>, restored: Seq<u8>)
    requires
        compress_result(input, level, Ok(c)),
        zstd_decompressed(c@) == Some(restored),
    ensures
        restored == input,
{
}

} // verus!
