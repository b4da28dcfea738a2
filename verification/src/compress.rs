//! The zstd codec that SSTable data blocks may be stored in.
use vstd::prelude::*;

verus! {

/// What `zstd::encode_all` makes of `data` at `level`: the zstd frame, or
/// `None` where the encoder reports an error.
pub uninterp spec fn spec_zstd_encode(data: Seq<u8>, level: i32) -> Option<Seq<u8>>;

/// Whether the encoder gives a frame for `data` at `level`.
pub open spec fn zstd_encodes(data: Seq<u8>, level: i32) -> bool {
    spec_zstd_encode(data, level) is Some
}

/// The frame the encoder gives for `data` at `level` (empty where it gives none).
pub open spec fn zstd_frame(data: Seq<u8>, level: i32) -> Seq<u8> {
    match spec_zstd_encode(data, level) {
        Some(f) => f,
        None => Seq::empty(),
    }
}

/// What `zstd::decode_all` makes of `data`: the decompressed bytes, or `None`
/// when the input is not valid zstd.
pub uninterp spec fn spec_zstd_decode(data: Seq<u8>) -> Option<Seq<u8>>;

/// Calls `zstd::encode_all` (an `Encoder` at `level` fed the whole input, then
/// finished).  Claimed: whether it succeeds, and the frame it returns, are the
/// named result for the input and level; decoding that frame gives the input
/// back, since zstd is lossless.  The encoder clamps the level into zstd's
/// range, reads a slice and writes into a `Vec`, so what errors it reports
/// come from the C library (running out of memory among them); when that
/// happens is not described beyond the name, nor is the error's text.
#[verifier::external_body]
pub(crate) fn zstd_encode(data: &[u8], level: i32) -> (r: Result<Vec<u8>, String>)
    ensures
        match r {
            Ok(v) => spec_zstd_encode(data@, level) == Some(v@) && spec_zstd_decode(v@) == Some(data@),
            Err(_) => spec_zstd_encode(data@, level) is None,
        },
{
    match zstd::encode_all(data, level) {
        Ok(v) => Ok(v),
        Err(e) => Err(e.to_string()),
    }
}

/// Calls `zstd::decode_all`.  Claimed: it succeeds exactly when the named
/// decoding exists, and returns it; the error's text is not described.
#[verifier::external_body]
pub(crate) fn zstd_decode(data: &[u8]) -> (r: Result<Vec<u8>, String>)
    ensures
        match r {
            Ok(v) => spec_zstd_decode(data@) == Some(v@),
            Err(_) => spec_zstd_decode(data@) is None,
        },
{
    match zstd::decode_all(data) {
        Ok(v) => Ok(v),
        Err(e) => Err(e.to_string()),
    }
}

} // verus!
