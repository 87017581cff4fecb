//! The two codecs of compressed file blocks: zlib streams and LZ4 frames.

use std::io::Read;
use std::io::Write;
use vstd::prelude::*;

verus! {

/// What a zlib stream decodes to; `None` for a stream that does not decode.
pub uninterp spec fn zlib_decoded(data: Seq<u8>) -> Option<Seq<u8>>;

/// The zlib stream that the fastest level makes of `data`.
pub uninterp spec fn zlib_encoded(data: Seq<u8>) -> Seq<u8>;

/// What an LZ4 frame decodes to; `None` for a frame that does not decode.
pub uninterp spec fn lz4_decoded(data: Seq<u8>) -> Option<Seq<u8>>;

/// The LZ4 frame that the default encoder makes of `data`.
pub uninterp spec fn lz4_encoded(data: Seq<u8>) -> Seq<u8>;

/// Relies on flate2's `read::ZlibDecoder`: reading a stream to its end yields the
/// decoded bytes or fails on a malformed stream.
#[verifier::external_body]
fn zlib_decode(data: &[u8]) -> (r: Option<Vec<u8>>)
    ensures
        match r {
            Some(v) => zlib_decoded(data@) == Some(v@),
            None => zlib_decoded(data@) is None,
        },
{
    let mut out = Vec::new();
    match flate2::read::ZlibDecoder::new(data).read_to_end(&mut out) {
        Ok(_) => Some(out),
        Err(_) => None,
    }
}

/// Relies on flate2's `read::ZlibEncoder` at `Compression::fast()`: the stream it
/// produces decodes to its input.
#[verifier::external_body]
fn zlib_encode(data: &[u8]) -> (r: Option<Vec<u8>>)
    ensures
        r is Some ==> r->0@ == zlib_encoded(data@) && zlib_decoded(r->0@) == Some(data@),
{
    let mut out = Vec::new();
    match flate2::read::ZlibEncoder::new(data, flate2::Compression::fast()).read_to_end(&mut out) {
        Ok(_) => Some(out),
        Err(_) => None,
    }
}

/// Relies on lz4_flex's `frame::FrameDecoder`: reading a frame to its end yields
/// the decoded bytes or fails on a malformed frame.
#[verifier::external_body]
fn lz4_decode(data: &[u8]) -> (r: Option<Vec<u8>>)
    ensures
        match r {
            Some(v) => lz4_decoded(data@) == Some(v@),
            None => lz4_decoded(data@) is None,
        },
{
    let mut out = Vec::new();
    match lz4_flex::frame::FrameDecoder::new(data).read_to_end(&mut out) {
        Ok(_) => Some(out),
        Err(_) => None,
    }
}

/// Relies on lz4_flex's `frame::FrameEncoder`: the frame it produces decodes to
/// its input.
#[verifier::external_body]
fn lz4_encode(data: &[u8]) -> (r: Option<Vec<u8>>)
    ensures
        r is Some ==> r->0@ == lz4_encoded(data@) && lz4_decoded(r->0@) == Some(data@),
{
    let mut enc = lz4_flex::frame::FrameEncoder::new(Vec::new());
    match enc.write_all(data) {
        Ok(_) => match enc.finish() {
            Ok(v) => Some(v),
            Err(_) => None,
        },
        Err(_) => None,
    }
}

/// The codecs of compressed files.
#[derive(Debug, Clone, Copy, PartialEq, Eq, Structural)]
pub enum Codec {
    Zlib,
    Lz4,
}

/// What `data` decodes to under `codec`.
pub open spec fn decoded(codec: Codec, data: Seq<u8>) -> Option<Seq<u8>> {
    match codec {
        Codec::Zlib => zlib_decoded(data),
        Codec::Lz4 => lz4_decoded(data),
    }
}

/// What `codec` encodes `data` to.
pub open spec fn encoded(codec: Codec, data: Seq<u8>) -> Seq<u8> {
    match codec {
        Codec::Zlib => zlib_encoded(data),
        Codec::Lz4 => lz4_encoded(data),
    }
}

/// Decodes `data` with `codec`; `None` where it does not decode.
pub fn decompress(codec: Codec, data: &[u8]) -> (r: Option<Vec<u8>>)
    ensures
        match r {
            Some(v) => decoded(codec, data@) == Some(v@),
            None => decoded(codec, data@) is None,
        },
{
    match codec {
        Codec::Zlib => zlib_decode(data),
        Codec::Lz4 => lz4_decode(data),
    }
}

/// Encodes `data` with `codec`; the result decodes back to `data`.
pub fn compress(codec: Codec, data: &[u8]) -> (r: Option<Vec<u8>>)
    ensures
        r is Some ==> r->0@ == encoded(codec, data@) && decoded(codec, r->0@) == Some(data@),
{
    match codec {
        Codec::Zlib => zlib_encode(data),
        Codec::Lz4 => lz4_encode(data),
    }
}

/// Decodes `data` and checks that it yields exactly `expected_len` bytes.
pub fn decompress_exact(codec: Codec, data: &[u8], expected_len: u32) -> (r: Option<Vec<u8>>)
    ensures
        match r {
            Some(v) => decoded(codec, data@) == Some(v@) && v@.len() == expected_len,
            None => decoded(codec, data@) is None || decoded(codec, data@)->0.len() != expected_len,
        },
{
    match decompress(codec, data) {
        Some(v) => {
            if v.len() as u64 == expected_len as u64 {
                Some(v)
            } else {
                None
            }
        },
        None => None,
    }
}

} // verus!
