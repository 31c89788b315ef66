//! Compressed frames of the data section, written and read by the `lz4` crate.
use vstd::prelude::*;

use crate::error::Error;

verus! {

/// The LZ4 frame that `lz4::Encoder` writes for `raw` at compression level `level`.
pub uninterp spec fn lz4_frame(level: u32, raw: Seq<u8>) -> Seq<u8>;

/// The bytes that `lz4::Decoder` yields when it reads the frame at the front of `input`.
pub uninterp spec fn lz4_unframe(input: Seq<u8>) -> Seq<u8>;

/// A compression level that liblz4 accepts as it is: its levels run up to 12.
pub open spec fn valid_level(level: u32) -> bool {
    level <= 12
}

/// Relies on `lz4::EncoderBuilder::build`, `Write::write_all` on `lz4::Encoder` and
/// `lz4::Encoder::finish`: the buffer holds exactly one frame of `raw`. Writing
/// into a `Vec`, whose room the encoder sizes with `LZ4F_compressBound`, the
/// frame functions fail only when memory runs out.
#[verifier::external_body]
fn lz4_compress(level: u32, raw: &[u8]) -> (r: std::result::Result<Vec<u8>, std::io::Error>)
    requires
        valid_level(level),
    ensures
        r is Ok,
        r is Ok ==> r->Ok_0@ == lz4_frame(level, raw@),
{
    let mut encoder = lz4::EncoderBuilder::new().level(level).build(Vec::new())?;
    std::io::Write::write_all(&mut encoder, raw)?;
    let (out, result) = encoder.finish();
    result.map(|_| out)
}

/// Relies on `lz4::Decoder::new` and `std::io::copy` out of the decoder: the
/// decoder asks its reader for no byte past the frame's end mark, and a frame
/// that `lz4::Encoder` wrote decodes to the bytes that were written.
#[verifier::external_body]
fn lz4_decompress(input: &[u8]) -> (r: std::result::Result<Vec<u8>, std::io::Error>)
    ensures
        r is Ok ==> r->Ok_0@ == lz4_unframe(input@),
        forall|level: u32, raw: Seq<u8>, rest: Seq<u8>|
            valid_level(level) && input@ == #[trigger] (lz4_frame(level, raw) + rest) ==> r is Ok && r->Ok_0@ == raw,
{
    let mut decoder = lz4::Decoder::new(input)?;
    let mut out: Vec<u8> = Vec::new();
    std::io::copy(&mut decoder, &mut out)?;
    Ok(out)
}

/// The frame at the front of `input` holds `raw`, written at a valid level.
pub open spec fn holds_frame(input: Seq<u8>, level: u32, raw: Seq<u8>) -> bool {
    &&& valid_level(level)
    &&& exists|rest: Seq<u8>| input == #[trigger] (lz4_frame(level, raw) + rest)
}

/// Compresses `raw` into one frame.
pub fn compress(level: u32, raw: &[u8]) -> (r: Result<Vec<u8>, Error>)
    requires
        valid_level(level),
    ensures
        r is Ok,
        r is Ok ==> r->Ok_0@ == lz4_frame(level, raw@),
{
    match lz4_compress(level, raw) {
        Ok(out) => Ok(out),
        Err(e) => Err(Error::IoError(e)),
    }
}

/// Decompresses the frame at the front of `input`; bytes after it are not read.
pub fn decompress(input: &[u8]) -> (r: Result<Vec<u8>, Error>)
    ensures
        r is Ok ==> r->Ok_0@ == lz4_unframe(input@),
        r is Err ==> r->Err_0 is IoError,
        forall|level: u32, raw: Seq<u8>| holds_frame(input@, level, raw) ==> r is Ok && r->Ok_0@ == raw,
{
    match lz4_decompress(input) {
        Ok(out) => Ok(out),
        Err(e) => Err(Error::IoError(e)),
    }
}

} // verus!
