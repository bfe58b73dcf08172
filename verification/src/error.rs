use vstd::prelude::*;

verus! {

/// `std::io::Error`, as a value that is carried along and never looked into.
#[verifier::external_type_specification]
#[verifier::external_body]
pub struct ExIoError(std::io::Error);

/// Why reading, parsing or answering a message failed.
#[derive(Debug)]
pub enum HttpError {
    /// The stream ended while nothing was pending: the peer closed cleanly.
    Closed,
    /// The transport reported a failure.
    Transport(std::io::Error),
    /// The transport claimed to have delivered more bytes than it was given room for.
    Overrun,
    /// A blank line came where a request line was due.
    EmptyRequest,
    /// The bytes are not valid UTF-8.
    InvalidText,
    /// The request line has fewer than three tokens.
    MalformedRequestLine,
    /// The protocol token is not `HTTP/1.1`.
    UnsupportedProtocol,
    /// The method token is none of the nine methods.
    UnknownMethod,
    /// A header line has no colon.
    MalformedHeader,
    /// The `Content-Length` value is not a decimal number that fits the machine.
    InvalidContentLength,
    /// The head of the message has more lines than the machine can count.
    HeadTooLong,
    /// The body could not be encoded.
    Encoding(std::io::Error),
}

impl HttpError {
    /// Whether the error tells of the stream rather than of the message on it.
    pub open spec fn of_stream(self) -> bool {
        self is Closed || self is Transport || self is Overrun
    }

    /// Whether the error tells of the stream rather than of the message on it.
    pub fn is_of_stream(&self) -> (r: bool)
        ensures
            r == self.of_stream(),
    {
        match self {
            HttpError::Closed => true,
            HttpError::Transport(_) => true,
            HttpError::Overrun => true,
            _ => false,
        }
    }

    /// What the error says of itself, in a line.
    pub open spec fn text(self) -> Seq<char> {
        match self {
            HttpError::Closed => "EOF"@,
            HttpError::Transport(_) => "transport failure"@,
            HttpError::Overrun => "transport delivered more than the window holds"@,
            HttpError::EmptyRequest => "unable to parse the request"@,
            HttpError::InvalidText => "invalid utf-8"@,
            HttpError::MalformedRequestLine => "request's first line is malformed. fewer than 3 parts"@,
            HttpError::UnsupportedProtocol => "protocol is not supported"@,
            HttpError::UnknownMethod => "invalid HTTP method"@,
            HttpError::MalformedHeader => "invalid header bytes"@,
            HttpError::InvalidContentLength => "invalid content length"@,
            HttpError::HeadTooLong => "too many header lines"@,
            HttpError::Encoding(_) => "encoding failure"@,
        }
    }

    /// What the error says of itself, in a line.
    pub fn describe(&self) -> (r: &'static str)
        ensures
            r@ == self.text(),
    {
        match self {
            HttpError::Closed => "EOF",
            HttpError::Transport(_) => "transport failure",
            HttpError::Overrun => "transport delivered more than the window holds",
            HttpError::EmptyRequest => "unable to parse the request",
            HttpError::InvalidText => "invalid utf-8",
            HttpError::MalformedRequestLine => "request's first line is malformed. fewer than 3 parts",
            HttpError::UnsupportedProtocol => "protocol is not supported",
            HttpError::UnknownMethod => "invalid HTTP method",
            HttpError::MalformedHeader => "invalid header bytes",
            HttpError::InvalidContentLength => "invalid content length",
            HttpError::HeadTooLong => "too many header lines",
            HttpError::Encoding(_) => "encoding failure",
        }
    }
}

} // verus!
