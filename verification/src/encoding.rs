//! The gzip content encoding.

use vstd::prelude::*;
use crate::error::HttpError;

verus! {

/// The gzip stream that the encoder makes of `data` at its default level,
/// with its default header.
pub uninterp spec fn gzip_of(data: Seq<u8>) -> Seq<u8>;

/// `flate2::write::GzEncoder` over an empty `Vec`, at `Compression::default()`:
/// `new`, `write_all` with `data`, `finish`. The encoder's output depends on
/// `data` alone, so the bytes that come back are `gzip_of(data)`; nothing is
/// claimed of what they are.
#[verifier::external_body]
fn gzip_encode(data: &[u8]) -> (r: Result<Vec<u8>, std::io::Error>)
    ensures
        match r {
            Ok(packed) => packed@ == gzip_of(data@),
            Err(_) => true,
        },
{
    let mut encoder = flate2::write::GzEncoder::new(Vec::new(), flate2::Compression::default());
    std::io::Write::write_all(&mut encoder, data)?;
    encoder.finish()
}

/// The gzip encoding of `data`; a failure of the encoder comes back as
/// `Encoding`.
pub fn gzip(data: &[u8]) -> (r: Result<Vec<u8>, HttpError>)
    ensures
        match r {
            Ok(packed) => packed@ == gzip_of(data@),
            Err(e) => e is Encoding,
        },
{
    match gzip_encode(data) {
        Ok(packed) => Ok(packed),
        Err(e) => Err(HttpError::Encoding(e)),
    }
}

} // verus!
