//! Writing to a byte sink.

use vstd::prelude::*;
use crate::error::HttpError;

verus! {

/// One call of `std::io::Write::write_all`. Nothing is claimed of what the
/// sink does with the bytes or of whether it takes them.
#[verifier::external_body]
fn write_all<W: std::io::Write>(sink: &mut W, bytes: &[u8]) -> (r: Result<(), std::io::Error>) {
    sink.write_all(bytes)
}

/// One call of `std::io::Write::flush`. Nothing is claimed of what the sink
/// does.
#[verifier::external_body]
fn flush_sink<W: std::io::Write>(sink: &mut W) -> (r: Result<(), std::io::Error>) {
    sink.flush()
}

/// Hands `bytes` to the sink; a refusal of the sink comes back as `Transport`.
pub(crate) fn send(sink: &mut impl std::io::Write, bytes: &[u8]) -> (r: Result<(), HttpError>)
    ensures
        r is Err ==> r.unwrap_err() is Transport,
{
    match write_all(sink, bytes) {
        Ok(()) => Ok(()),
        Err(e) => Err(HttpError::Transport(e)),
    }
}

/// Asks the sink to pass on what it holds back; a refusal comes back as
/// `Transport`.
pub(crate) fn flush(sink: &mut impl std::io::Write) -> (r: Result<(), HttpError>)
    ensures
        r is Err ==> r.unwrap_err() is Transport,
{
    match flush_sink(sink) {
        Ok(()) => Ok(()),
        Err(e) => Err(HttpError::Transport(e)),
    }
}

} // verus!
