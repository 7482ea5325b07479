//! The zlib codec that compresses and restores section payloads.
//!
//! Compression and decompression are the work of the `deflate` and `inflate`
//! crates. Nothing here is proved of them: each result has a name, and the
//! contracts of this library speak of the streams by those names.

use vstd::prelude::*;

verus! {

/// How much work compression spends on a chunk.
#[derive(Clone, Copy, Debug, PartialEq, Eq, Structural)]
pub enum Effort {
    /// The balanced level.
    Balanced,
    /// The fast level.
    Fast,
}

/// The zlib stream that `deflate::deflate_bytes_zlib_conf` gives for `data`
/// at the level that stands for `effort`.
pub uninterp spec fn zlib_deflated(data: Seq<u8>, effort: Effort) -> Seq<u8>;

/// What `inflate::inflate_bytes_zlib` gives for `stream`: the decompressed
/// bytes, or `None` where it reports an error.
pub uninterp spec fn zlib_inflated(stream: Seq<u8>) -> Option<Seq<u8>>;

/// Calls `deflate::deflate_bytes_zlib_conf` with `Compression::Default` for
/// `Effort::Balanced` and `Compression::Fast` for `Effort::Fast`.
///
/// The contract only names the result: the stream is a function of `data`
/// and the level. The crate writes a 32 KiB window into the stream's header
/// and offers no other.
#[verifier::external_body]
pub(crate) fn zlib_deflate(data: &[u8], effort: Effort) -> (stream: Vec<u8>)
    ensures
        stream@ == zlib_deflated(data@, effort),
{
    let level = match effort {
        Effort::Balanced => deflate::Compression::Default,
        Effort::Fast => deflate::Compression::Fast,
    };
    deflate::deflate_bytes_zlib_conf(data, level)
}

/// Calls `inflate::inflate_bytes_zlib` and drops the text of its error.
///
/// The contract only names the result: whether the call succeeds, and with
/// which bytes, is a function of `stream`.
#[verifier::external_body]
pub(crate) fn zlib_inflate(stream: &[u8]) -> (data: Option<Vec<u8>>)
    ensures
        match data {
            Some(bytes) => zlib_inflated(stream@) == Some(bytes@),
            None => zlib_inflated(stream@).is_none(),
        },
{
    inflate::inflate_bytes_zlib(stream).ok()
}

} // verus!
