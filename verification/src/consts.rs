use vstd::prelude::*;

verus! {

/// Carriage return, the first byte of a line terminator.
pub const CR: u8 = 13;

/// Line feed, the second byte of a line terminator.
pub const LF: u8 = 10;

/// The byte that separates a header's name from its value.
pub const COLON: u8 = 58;

/// The byte that separates the values of one header.
pub const COMMA: u8 = 44;

/// The byte that separates the tokens of a request line.
pub const SPACE: u8 = 32;

/// The byte that separates the parts of a path.
pub const SLASH: u8 = 47;

/// The byte of which two in a row lead to the parent directory.
pub const DOT: u8 = 46;

/// The sign that a decimal number may begin with.
pub const PLUS: u8 = 43;

/// The digit 0; the other digits follow it, up to 9.
pub const DIGIT_0: u8 = 48;

/// The digit 9.
pub const DIGIT_9: u8 = 57;

/// The only protocol version that is served.
pub const STR_HTTP_1_1: &'static str = "HTTP/1.1";

/// The header that names the client's software.
pub const HEADER_USER_AGENT: &'static str = "User-Agent";

/// The header that tells how many bytes the body has.
pub const HEADER_CONTENT_LENGTH: &'static str = "Content-Length";

/// The header that tells what kind of data the body is.
pub const HEADER_CONTENT_TYPE: &'static str = "Content-Type";

/// The header that tells how the body is encoded.
pub const HEADER_CONTENT_ENCODING: &'static str = "Content-Encoding";

/// The header that lists the encodings that the client takes.
pub const HEADER_ACCEPT_ENCODING: &'static str = "Accept-Encoding";

/// The header that tells whether the connection is kept after the exchange.
pub const HEADER_CONNECTION: &'static str = "Connection";

/// How many bytes one read of the transport may deliver.
pub const CHUNK_SIZE: usize = 1024;

} // verus!
