//! The compression layer and the base64 step of the alternate payload entry,
//! both as opaque outside services.

use vstd::prelude::*;
use base64::Engine;
use crate::error::ReplayError;

verus! {

/// What LZMA compression with default options makes of a byte sequence: a
/// function of the input alone.
pub uninterp spec fn lzma_compressed(data: Seq<u8>) -> Seq<u8>;

/// What LZMA decompression makes of a byte sequence: the recovered bytes, or
/// nothing when the data cannot be decoded; a function of the input alone.
pub uninterp spec fn lzma_extract(data: Seq<u8>) -> Option<Seq<u8>>;

/// What standard base64 decoding makes of a byte sequence: the decoded bytes,
/// or nothing when the text is not base64; a function of the input alone.
pub uninterp spec fn base64_decoded(data: Seq<u8>) -> Option<Seq<u8>>;

/// Relies on `lzma_rs::lzma_compress` with default options: deterministic in
/// its input, and what it produces, `lzma_rs::lzma_decompress` decodes back
/// to that input. Its only failures are I/O failures of the source and sink,
/// and a byte slice and a byte vector have none, so the call succeeds.
#[verifier::external_body]
pub(crate) fn lzma_compress_bytes(data: &Vec<u8>) -> (r: Result<Vec<u8>, ReplayError>)
    ensures
        r is Ok,
        r matches Ok(v) ==> v@ == lzma_compressed(data@) && lzma_extract(v@) == Some(data@),
{
    let mut out: Vec<u8> = Vec::new();
    match lzma_rs::lzma_compress(&mut &data[..], &mut out) {
        Ok(()) => Ok(out),
        Err(e) => Err(ReplayError::Lzma(format!("{}", e))),
    }
}

/// Relies on `lzma_rs::lzma_decompress` with default options: deterministic
/// in its input, succeeding exactly on data it can decode.
#[verifier::external_body]
pub(crate) fn lzma_decompress_bytes(data: &Vec<u8>) -> (r: Result<Vec<u8>, ReplayError>)
    ensures
        r is Ok <==> lzma_extract(data@) is Some,
        r matches Ok(v) ==> Some(v@) == lzma_extract(data@),
        r matches Err(e) ==> e is Lzma,
{
    let mut out: Vec<u8> = Vec::new();
    match lzma_rs::lzma_decompress(&mut &data[..], &mut out) {
        Ok(()) => Ok(out),
        Err(e) => Err(ReplayError::Lzma(format!("{}", e))),
    }
}

/// Relies on the standard engine of the base64 crate: decoding is
/// deterministic in its input and succeeds exactly on standard base64 text.
#[verifier::external_body]
pub(crate) fn base64_decode_bytes(data: &[u8]) -> (r: Result<Vec<u8>, ReplayError>)
    ensures
        r is Ok <==> base64_decoded(data@) is Some,
        r matches Ok(v) ==> Some(v@) == base64_decoded(data@),
        r matches Err(e) ==> e is Parse,
{
    match base64::engine::general_purpose::STANDARD.decode(data) {
        Ok(v) => Ok(v),
        Err(e) => Err(ReplayError::Parse(format!("Base64 decode error: {}", e))),
    }
}

} // verus!
