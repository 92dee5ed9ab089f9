//! Zlib streams, through flate2.
use vstd::prelude::*;
use std::io::Read;
use std::io::Write;
use crate::error::Error;

verus! {

/// What flate2's zlib encoder, at the default level, writes for `data`.
pub uninterp spec fn zlib_deflated(data: Seq<u8>) -> Seq<u8>;

/// What flate2's zlib decoder makes of the zlib stream at the start of
/// `input`: the inflated bytes and how many input bytes the stream took; or,
/// on failure, whether the input ended before the stream did (`true`) rather
/// than holding a corrupt stream (`false`).
pub uninterp spec fn zlib_inflated(input: Seq<u8>) -> Result<(Seq<u8>, nat), bool>;

/// What flate2's zlib decoder gives for the stream at the start of `input`
/// when read through `Read::take(limit)` to its end: at most `limit` inflated
/// bytes, or, on failure, whether the input ended first (`true`) rather than
/// holding a corrupt stream (`false`).
pub uninterp spec fn zlib_inflated_upto(input: Seq<u8>, limit: nat) -> Result<Seq<u8>, bool>;

/// The first `limit` bytes of `s`, or all of them when there are fewer.
pub open spec fn first_bytes(s: Seq<u8>, limit: nat) -> Seq<u8> {
    if limit < s.len() {
        s.take(limit as int)
    } else {
        s
    }
}

/// The error for a zlib stream that failed: cut off, or corrupt.
pub open spec fn inflate_error(cut_off: bool) -> Error {
    if cut_off {
        Error::UnexpectedEof
    } else {
        Error::CorruptData
    }
}

/// Relies on `flate2::write::ZlibEncoder` with `Compression::default()`
/// writing into a `Vec`, which cannot fail at that level: the result is a
/// complete zlib stream of `data`, which inflates back to `data` and takes
/// all of its own bytes, whole or read no further than any limit.
#[verifier::external_body]
pub(crate) fn deflate(data: &[u8]) -> (r: Option<Vec<u8>>)
    ensures
        r is Some,
        r matches Some(out) ==> out@ == zlib_deflated(data@),
        r matches Some(out) ==> (zlib_inflated(out@) matches Ok((back, used)) && back == data@ && used == out@.len()),
        r matches Some(out) ==> forall|limit: nat| (#[trigger] zlib_inflated_upto(out@, limit) matches Ok(part) && part == first_bytes(data@, limit)),
{
    let mut enc = flate2::write::ZlibEncoder::new(Vec::new(), flate2::Compression::default());
    match enc.write_all(data) {
        Ok(()) => enc.finish().ok(),
        Err(_) => None,
    }
}

/// Relies on `flate2::bufread::ZlibDecoder` read to its end; on its
/// `total_in`, the count of input bytes the decompressor consumed, which
/// cannot exceed the input; and on its reporting an input that ends inside
/// the stream with `io::ErrorKind::UnexpectedEof`.
#[verifier::external_body]
pub(crate) fn inflate_prefix(input: &[u8]) -> (r: Result<(Vec<u8>, usize), Error>)
    ensures
        match zlib_inflated(input@) {
            Ok((out, used)) => r matches Ok((o, u)) && o@ == out && u == used,
            Err(cut_off) => r == Err::<(Vec<u8>, usize), Error>(inflate_error(cut_off)),
        },
        r matches Ok((o, u)) ==> u <= input@.len(),
{
    let mut dec = flate2::bufread::ZlibDecoder::new(input);
    let mut out = Vec::new();
    match dec.read_to_end(&mut out) {
        Ok(_) => Ok((out, dec.total_in() as usize)),
        Err(e) if e.kind() == std::io::ErrorKind::UnexpectedEof => Err(Error::UnexpectedEof),
        Err(_) => Err(Error::CorruptData),
    }
}

/// Relies on `flate2::bufread::ZlibDecoder` read through `Read::take(limit)`
/// to its end: no more than `limit` bytes are inflated, and an input that
/// ends inside the stream is reported with `io::ErrorKind::UnexpectedEof`.
#[verifier::external_body]
pub(crate) fn inflate_upto(input: &[u8], limit: u64) -> (r: Result<Vec<u8>, Error>)
    ensures
        match zlib_inflated_upto(input@, limit as nat) {
            Ok(out) => r matches Ok(o) && o@ == out,
            Err(cut_off) => r == Err::<Vec<u8>, Error>(inflate_error(cut_off)),
        },
        r matches Ok(o) ==> o@.len() <= limit,
{
    let mut out = Vec::new();
    match flate2::bufread::ZlibDecoder::new(input).take(limit).read_to_end(&mut out) {
        Ok(_) => Ok(out),
        Err(e) if e.kind() == std::io::ErrorKind::UnexpectedEof => Err(Error::UnexpectedEof),
        Err(_) => Err(Error::CorruptData),
    }
}

} // verus!
