use vstd::prelude::*;
use vstd::utf8::{encode_utf8, is_ascii_chars, is_ascii_chars_encode_utf8};
use crate::consts::{CR, LF, SPACE, STR_HTTP_1_1};
use crate::error::HttpError;
use crate::sink::send;
use crate::text::lemma_no_char_no_byte;
use crate::wire::{append_range, crlf, crlf_at, free_of_crlf};

verus! {

/// The statuses that a response can carry.
#[derive(Debug, Clone, Copy, PartialEq, Eq, Structural)]
pub enum HttpStatus {
    OK,
    NoContent,
    BadRequest,
    Unauthorized,
    Forbidden,
    NotFound,
    InternalServerError,
}

impl HttpStatus {
    /// The number of the status.
    pub open spec fn number(self) -> u16 {
        match self {
            HttpStatus::OK => 200,
            HttpStatus::NoContent => 204,
            HttpStatus::BadRequest => 400,
            HttpStatus::Unauthorized => 401,
            HttpStatus::Forbidden => 403,
            HttpStatus::NotFound => 404,
            HttpStatus::InternalServerError => 500,
        }
    }

    /// The number of the status as it is written.
    pub open spec fn code_text(self) -> Seq<char> {
        match self {
            HttpStatus::OK => "200"@,
            HttpStatus::NoContent => "204"@,
            HttpStatus::BadRequest => "400"@,
            HttpStatus::Unauthorized => "401"@,
            HttpStatus::Forbidden => "403"@,
            HttpStatus::NotFound => "404"@,
            HttpStatus::InternalServerError => "500"@,
        }
    }

    /// The reason phrase that goes with the status.
    pub open spec fn phrase_text(self) -> Seq<char> {
        match self {
            HttpStatus::OK => "OK"@,
            HttpStatus::NoContent => "No Content"@,
            HttpStatus::BadRequest => "Bad Request"@,
            HttpStatus::Unauthorized => "Unauthorized"@,
            HttpStatus::Forbidden => "Forbidden"@,
            HttpStatus::NotFound => "Not Found"@,
            HttpStatus::InternalServerError => "Internal Server Error"@,
        }
    }

    /// The first line of a response with this status, without the
    /// terminator: the protocol, the number and the reason phrase.
    pub open spec fn status_text(self) -> Seq<u8> {
        encode_utf8(STR_HTTP_1_1@) + seq![SPACE] + encode_utf8(self.code_text()) + seq![SPACE]
            + encode_utf8(self.phrase_text())
    }

    /// The first line of a response with this status as it stands on the
    /// wire.
    pub open spec fn status_line(self) -> Seq<u8> {
        self.status_text() + crlf()
    }

    /// No status line holds a line feed, so none holds a terminator.
    pub proof fn lemma_status_text_plain(self)
        ensures
            !self.status_text().contains(LF),
            free_of_crlf(self.status_text()),
    {
        reveal_strlit("HTTP/1.1");
        reveal_strlit("200");
        reveal_strlit("204");
        reveal_strlit("400");
        reveal_strlit("401");
        reveal_strlit("403");
        reveal_strlit("404");
        reveal_strlit("500");
        reveal_strlit("OK");
        reveal_strlit("No Content");
        reveal_strlit("Bad Request");
        reveal_strlit("Unauthorized");
        reveal_strlit("Forbidden");
        reveal_strlit("Not Found");
        reveal_strlit("Internal Server Error");
        assert(10u8 as char == '\n');
        let protocol = STR_HTTP_1_1@;
        let code = self.code_text();
        let phrase = self.phrase_text();
        assert(!protocol.contains('\n'));
        assert(!code.contains('\n'));
        assert(!phrase.contains('\n'));
        lemma_no_char_no_byte(protocol, LF);
        lemma_no_char_no_byte(code, LF);
        lemma_no_char_no_byte(phrase, LF);
        let text = self.status_text();
        assert(!text.contains(LF)) by {
            if text.contains(LF) {
                let i = choose|i: int| 0 <= i < text.len() && text[i] == LF;
                let a = encode_utf8(protocol);
                let b = encode_utf8(code);
                let c = encode_utf8(phrase);
                if i < a.len() {
                    assert(a[i] == LF);
                } else if i == a.len() {
                } else if i < a.len() + 1 + b.len() {
                    assert(b[i - a.len() - 1] == LF);
                } else if i == a.len() + 1 + b.len() {
                } else {
                    assert(c[i - a.len() - b.len() - 2] == LF);
                }
            }
        }
        assert forall|i: int| !crlf_at(text, i) by {
            if crlf_at(text, i) {
                assert(text[i + 1] == LF);
            }
        }
    }

    /// The bytes of the number in a status line: they follow the protocol
    /// and a space.
    proof fn lemma_code_in_text(self)
        ensures
            self.status_text().len() >= 12,
            self.status_text()[9] == self.code_text()[0] as u8,
            self.status_text()[10] == self.code_text()[1] as u8,
            self.status_text()[11] == self.code_text()[2] as u8,
            self.code_text().len() == 3,
    {
        reveal_strlit("HTTP/1.1");
        reveal_strlit("200");
        reveal_strlit("204");
        reveal_strlit("400");
        reveal_strlit("401");
        reveal_strlit("403");
        reveal_strlit("404");
        reveal_strlit("500");
        let protocol = STR_HTTP_1_1@;
        let code = self.code_text();
        assert(is_ascii_chars(protocol));
        assert(is_ascii_chars(code));
        is_ascii_chars_encode_utf8(protocol);
        is_ascii_chars_encode_utf8(code);
        let a = encode_utf8(protocol);
        let b = encode_utf8(code);
        assert(a.len() == 8);
        assert(b.len() == 3);
        let text = self.status_text();
        assert(text[9] == b[0]);
        assert(text[10] == b[1]);
        assert(text[11] == b[2]);
    }

    /// The status line tells the status: no two statuses have the same line.
    pub proof fn lemma_status_text_tells(self, other: HttpStatus)
        requires
            self.status_text() == other.status_text(),
        ensures
            self == other,
    {
        self.lemma_code_in_text();
        other.lemma_code_in_text();
        reveal_strlit("200");
        reveal_strlit("204");
        reveal_strlit("400");
        reveal_strlit("401");
        reveal_strlit("403");
        reveal_strlit("404");
        reveal_strlit("500");
    }

    /// The number of the status.
    pub fn code(&self) -> (r: u16)
        ensures
            r == self.number(),
    {
        match self {
            HttpStatus::OK => 200,
            HttpStatus::NoContent => 204,
            HttpStatus::BadRequest => 400,
            HttpStatus::Unauthorized => 401,
            HttpStatus::Forbidden => 403,
            HttpStatus::NotFound => 404,
            HttpStatus::InternalServerError => 500,
        }
    }

    /// The reason phrase that goes with the status.
    pub fn status_phrase(&self) -> (r: &'static str)
        ensures
            r@ == self.phrase_text(),
    {
        match self {
            HttpStatus::OK => "OK",
            HttpStatus::NoContent => "No Content",
            HttpStatus::BadRequest => "Bad Request",
            HttpStatus::Unauthorized => "Unauthorized",
            HttpStatus::Forbidden => "Forbidden",
            HttpStatus::NotFound => "Not Found",
            HttpStatus::InternalServerError => "Internal Server Error",
        }
    }

    /// The number of the status as it is written.
    pub fn status_code(&self) -> (r: &'static str)
        ensures
            r@ == self.code_text(),
    {
        match self {
            HttpStatus::OK => "200",
            HttpStatus::NoContent => "204",
            HttpStatus::BadRequest => "400",
            HttpStatus::Unauthorized => "401",
            HttpStatus::Forbidden => "403",
            HttpStatus::NotFound => "404",
            HttpStatus::InternalServerError => "500",
        }
    }

    /// The status line as it goes on the wire.
    pub fn to_bytes(&self) -> (r: Vec<u8>)
        ensures
            r@ == self.status_line(),
    {
        let mut out: Vec<u8> = Vec::new();
        let protocol = STR_HTTP_1_1.as_bytes();
        let code = self.status_code().as_bytes();
        let phrase = self.status_phrase().as_bytes();
        append_range(&mut out, protocol, 0, protocol.len());
        out.push(SPACE);
        append_range(&mut out, code, 0, code.len());
        out.push(SPACE);
        append_range(&mut out, phrase, 0, phrase.len());
        out.push(CR);
        out.push(LF);
        proof {
            assert(protocol@.subrange(0, protocol@.len() as int) =~= protocol@);
            assert(code@.subrange(0, code@.len() as int) =~= code@);
            assert(phrase@.subrange(0, phrase@.len() as int) =~= phrase@);
            assert(out@ =~= self.status_line());
        }
        out
    }

    /// Writes the status line to the sink.
    pub fn write_status_line(&self, stream: &mut impl std::io::Write) -> (r: Result<
        (),
        HttpError,
    >)
        ensures
            r is Err ==> r.unwrap_err() is Transport,
    {
        let line = self.to_bytes();
        send(stream, line.as_slice())
    }

    /// Writes the status line to the sink, as `write_status_line` does.
    pub fn write_request_line(&self, stream: &mut impl std::io::Write) -> (r: Result<
        (),
        HttpError,
    >)
        ensures
            r is Err ==> r.unwrap_err() is Transport,
    {
        self.write_status_line(stream)
    }
}

} // verus!
