//! Compressed frames.
//!
//! The streams of a segment file are stored as Zstandard frames.  The
//! compressor is not verified: its results are named, failure among them,
//! and what is believed of them is written on the functions that call it.

use vstd::prelude::*;
use crate::Error;

verus! {

/// The frame that compressing `data` at level 1 gives, or nothing where
/// the compressor fails.
pub uninterp spec fn zstd_frame(data: Seq<u8>) -> Option<Seq<u8>>;

/// The data that decompressing `frame` gives, or nothing where the bytes
/// are no frames.
pub uninterp spec fn zstd_payload(frame: Seq<u8>) -> Option<Seq<u8>>;

/// The length of the frame that `src` begins with, or nothing where it
/// begins with none.
pub uninterp spec fn zstd_frame_len(src: Seq<u8>) -> Option<nat>;

/// The frame of `data`, where the compressor gives one.
pub open spec fn frame_of(data: Seq<u8>) -> Seq<u8> {
    zstd_frame(data).unwrap()
}

/// Compresses `data` into one frame.
///
/// Trusted: calls `zstd::stream::encode_all` at level 1.  The result is
/// named, failure too.  Zstandard is lossless and its frames delimit
/// themselves, so the frame decompresses to `data`, and the frame that any
/// bytes beginning with it begin with is this one.
#[verifier::external_body]
pub(crate) fn compress(data: &[u8]) -> (r: Result<Vec<u8>, std::io::Error>)
    ensures
        r is Ok <==> zstd_frame(data@) is Some,
        r matches Ok(frame) ==> {
            &&& zstd_frame(data@) == Some(frame@)
            &&& zstd_payload(frame@) == Some(data@)
            &&& forall|rest: Seq<u8>| #[trigger]
                zstd_frame_len(frame@ + rest) == Some(frame@.len())
        },
{
    zstd::stream::encode_all(data, 1)
}

/// Decompresses the frames that `frame` consists of.
///
/// Trusted: calls `zstd::stream::decode_all`.  The result is named,
/// failure too: the call fails on bytes that are no frames.
#[verifier::external_body]
pub(crate) fn decompress(frame: &[u8]) -> (r: Result<Vec<u8>, std::io::Error>)
    ensures
        r is Ok <==> zstd_payload(frame@) is Some,
        r matches Ok(data) ==> zstd_payload(frame@) == Some(data@),
{
    zstd::stream::decode_all(frame)
}

/// The length of the frame that `src` begins with, where it begins with
/// one.
///
/// Trusted: calls `zstd::zstd_safe::find_frame_compressed_size`.  The
/// result is named, failure too.
#[verifier::external_body]
pub(crate) fn frame_size(src: &[u8]) -> (r: Option<usize>)
    ensures
        r is Some <==> zstd_frame_len(src@) is Some,
        r matches Some(n) ==> zstd_frame_len(src@) == Some(n as nat),
{
    zstd::zstd_safe::find_frame_compressed_size(src).ok()
}

/// The compressor gives a frame for `data`, gives back from it what it
/// was given, and finds the frame again at the head of any bytes that
/// begin with it.
pub open spec fn codec_sound_for(data: Seq<u8>) -> bool {
    &&& zstd_frame(data) is Some
    &&& zstd_payload(frame_of(data)) == Some(data)
    &&& forall|rest: Seq<u8>| #[trigger]
        zstd_frame_len(frame_of(data) + rest) == Some(frame_of(data).len())
}

/// The frame of `data`; an I/O failure where the compressor gives none.
pub fn pack(data: &[u8]) -> (r: Result<Vec<u8>, Error>)
    ensures
        match r {
            Ok(frame) => frame@ == frame_of(data@) && codec_sound_for(data@),
            Err(e) => e == Error::IoError && zstd_frame(data@) is None,
        },
{
    match compress(data) {
        Ok(frame) => Ok(frame),
        Err(e) => Err(Error::from(e)),
    }
}

/// What reading the frame that begins at `pos` gives: its data and the
/// position after it.  Bytes that begin with no frame, a frame that is
/// longer than the bytes, and a frame that cannot be decompressed are I/O
/// failures.
pub open spec fn unpacked(bytes: Seq<u8>, pos: int) -> Result<(Seq<u8>, int), Error> {
    match zstd_frame_len(bytes.skip(pos)) {
        None => Err(Error::IoError),
        Some(n) => {
            if pos + n > bytes.len() {
                Err(Error::IoError)
            } else {
                match zstd_payload(bytes.subrange(pos, pos + n)) {
                    None => Err(Error::IoError),
                    Some(data) => Ok((data, pos + n)),
                }
            }
        },
    }
}

/// Reads the frame that begins at `pos`: its data and the position after
/// it.
pub fn unpack(bytes: &[u8], pos: usize) -> (r: Result<(Vec<u8>, usize), Error>)
    requires
        pos <= bytes@.len(),
    ensures
        match unpacked(bytes@, pos as int) {
            Ok((data, next)) => r matches Ok((d, n)) && d@ == data && n == next && next
                <= bytes@.len(),
            Err(e) => r matches Err(f) && f == e,
        },
{
    let total = bytes.len();
    let rest = slice_from(bytes, pos);
    match frame_size(rest) {
        None => Err(Error::IoError),
        Some(n) => {
            if n > total - pos {
                return Err(Error::IoError);
            }
            let frame = slice_between(bytes, pos, pos + n);
            match decompress(frame) {
                Ok(data) => Ok((data, pos + n)),
                Err(e) => Err(Error::from(e)),
            }
        },
    }
}

/// The bytes from `from` on.
pub fn slice_from(bytes: &[u8], from: usize) -> (r: &[u8])
    requires
        from <= bytes@.len(),
    ensures
        r@ == bytes@.skip(from as int),
{
    let r = vstd::slice::slice_subrange(bytes, from, bytes.len());
    assert(r@ =~= bytes@.skip(from as int));
    r
}

/// The bytes in `from..to`.
pub fn slice_between(bytes: &[u8], from: usize, to: usize) -> (r: &[u8])
    requires
        from <= to <= bytes@.len(),
    ensures
        r@ == bytes@.subrange(from as int, to as int),
{
    vstd::slice::slice_subrange(bytes, from, to)
}

} // verus!
