use vstd::prelude::*;
use crate::error::StoreError;

verus! {

/// The compression level used for every stored object.
pub const COMPRESSION_LEVEL: u8 = 6;

/// The zlib stream that `miniz_oxide` produces for `data` at `level`.
pub uninterp spec fn zlib_deflate(data: Seq<u8>, level: u8) -> Seq<u8>;

/// What `miniz_oxide` makes of `data` read as a zlib stream: the inflated
/// bytes, or `None` where it reports an error.
pub uninterp spec fn zlib_inflate(data: Seq<u8>) -> Option<Seq<u8>>;

/// `miniz_oxide`'s account of a failed inflation.  It is taken from the
/// inflater and dropped; nothing looks into it.
#[verifier::external_type_specification]
#[verifier::external_body]
pub struct ExDecompressError(miniz_oxide::inflate::DecompressError);

/// Calls `miniz_oxide::deflate::compress_to_vec_zlib`.  The contract names
/// the stream, which depends on the input and the level alone, and states two
/// facts of it.  The stream inflates to the input again: the crate documents
/// this round trip as its basic use.  The stream without its last byte does
/// not inflate: it ends in a four-byte checksum, and the inflater reports
/// input that ends early as `FailedCannotMakeProgress`.
#[verifier::external_body]
fn deflate_to_vec(data: &[u8], level: u8) -> (out: Vec<u8>)
    requires
        level <= 10,
    ensures
        out@ == zlib_deflate(data@, level),
        zlib_inflate(out@) == Some(data@),
        out@.len() > 0 && zlib_inflate(out@.drop_last()) is None,
{
    miniz_oxide::deflate::compress_to_vec_zlib(data, level)
}

/// Calls `miniz_oxide::inflate::decompress_to_vec_zlib`.  The outcome depends
/// on the input alone, so the contract names it: `Ok` carries the inflated
/// bytes, `Err` stands for every status other than `Done`.
#[verifier::external_body]
fn inflate_to_vec(data: &[u8]) -> (r: Result<Vec<u8>, miniz_oxide::inflate::DecompressError>)
    ensures
        match r {
            Ok(bytes) => zlib_inflate(data@) == Some(bytes@),
            Err(_) => zlib_inflate(data@) is None,
        },
{
    miniz_oxide::inflate::decompress_to_vec_zlib(data)
}

/// The stored form of a byte sequence.
pub open spec fn compressed(data: Seq<u8>) -> Seq<u8> {
    zlib_deflate(data, COMPRESSION_LEVEL)
}

/// What a stored form holds, or `CorruptData` where it does not inflate.
pub open spec fn decompressed(data: Seq<u8>) -> Result<Seq<u8>, StoreError> {
    match zlib_inflate(data) {
        Some(bytes) => Ok(bytes),
        None => Err(StoreError::CorruptData),
    }
}

/// Compresses `data` for storage.
pub fn compress(data: &[u8]) -> (out: Vec<u8>)
    ensures
        out@ == compressed(data@),
        decompressed(out@) == Ok::<Seq<u8>, StoreError>(data@),
        out@.len() > 0,
        decompressed(out@.drop_last()) == Err::<Seq<u8>, StoreError>(StoreError::CorruptData),
{
    deflate_to_vec(data, COMPRESSION_LEVEL)
}

/// Inflates stored bytes.  Malformed input is reported as `CorruptData`.
pub fn decompress(data: &[u8]) -> (r: Result<Vec<u8>, StoreError>)
    ensures
        match r {
            Ok(bytes) => decompressed(data@) == Ok::<Seq<u8>, StoreError>(bytes@),
            Err(e) => decompressed(data@) == Err::<Seq<u8>, StoreError>(e),
        },
{
    match inflate_to_vec(data) {
        Ok(bytes) => Ok(bytes),
        Err(_) => Err(StoreError::CorruptData),
    }
}

} // verus!
