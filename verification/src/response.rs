//! Responses, and how they go on the wire.

use vstd::prelude::*;
use vstd::utf8::encode_utf8;
use crate::body::HttpBody;
use crate::consts::{CR, HEADER_CONNECTION, HEADER_CONTENT_ENCODING, HEADER_CONTENT_TYPE, LF};
use crate::encoding::{gzip, gzip_of};
use crate::error::HttpError;
use crate::header::{
    announced_length, header_block, header_texts, lemma_header_block_lines,
    lemma_length_round_trip, lemma_replaced, replaced, well_formed, with_length, HeaderModel,
    Headers,
};
use crate::http::status::HttpStatus;
use crate::sink::{flush, send};
use crate::text::lowercase_of;
use crate::wire::{
    crlf, crlf_at, free_of_crlf, joined_lines, lemma_joined_concat, lemma_joined_push,
    lemma_lines_read_back, lines, residue,
};

verus! {

/// A response as a value.
pub struct ResponseModel {
    pub status: HttpStatus,
    pub headers: HeaderModel,
    pub body: Option<Seq<u8>>,
}

/// The headers that a fresh response has: the connection is kept alive.
pub open spec fn initial_headers() -> HeaderModel {
    replaced(Seq::empty(), lowercase_of(HEADER_CONNECTION@), "keep-alive"@)
}

/// The headers of a response after it was given a body of `len` bytes and of
/// the given type.
pub open spec fn body_headers(m: HeaderModel, content_type: Seq<char>, len: usize) -> HeaderModel {
    with_length(replaced(m, lowercase_of(HEADER_CONTENT_TYPE@), content_type), len)
}

/// The headers that are written for a response: its own, and for a response
/// without a body a `Content-Length` of 0 in any case.
pub open spec fn written_headers(m: ResponseModel) -> HeaderModel {
    if m.body is None {
        with_length(m.headers, 0)
    } else {
        m.headers
    }
}

/// The head of a response as it stands on the wire: the status line, the
/// header lines and a blank line.
pub open spec fn head_wire(m: ResponseModel) -> Seq<u8> {
    m.status.status_line() + header_block(written_headers(m)) + crlf()
}

/// A response as it stands on the wire: the head and the body.
pub open spec fn response_wire(m: ResponseModel) -> Seq<u8> {
    head_wire(m) + match m.body {
        Some(bytes) => bytes,
        None => Seq::empty(),
    }
}

/// The lines of the head of a response: the status line, one line for each
/// header and a blank line.
pub open spec fn head_lines(m: ResponseModel) -> Seq<Seq<u8>> {
    seq![m.status.status_text()] + header_texts(written_headers(m)) + seq![Seq::empty()]
}

/// A response that was written is read back: where no header holds a line
/// terminator, the lines of the head on the wire are the status line, the
/// header lines and the blank line, nothing of the head is left over behind
/// them, and what follows the head is the body.
pub proof fn lemma_response_reads_back(m: ResponseModel)
    requires
        forall|i: int|
            0 <= i < written_headers(m).len() ==> free_of_crlf(
                #[trigger] header_texts(written_headers(m))[i],
            ),
    ensures
        head_wire(m) == joined_lines(head_lines(m)),
        lines(head_wire(m)) == head_lines(m),
        residue(head_wire(m)) == Seq::<u8>::empty(),
        response_wire(m).skip(head_wire(m).len() as int) == match m.body {
            Some(bytes) => bytes,
            None => Seq::empty(),
        },
{
    let headers = header_texts(written_headers(m));
    let status = seq![m.status.status_text()];
    let blank = seq![Seq::<u8>::empty()];
    let all = head_lines(m);
    m.status.lemma_status_text_plain();
    lemma_header_block_lines(written_headers(m));
    lemma_joined_concat(status, headers);
    lemma_joined_concat(status + headers, blank);
    assert(joined_lines(status) =~= m.status.status_line()) by {
        lemma_joined_push(Seq::empty(), m.status.status_text());
        assert(Seq::<Seq<u8>>::empty().push(m.status.status_text()) =~= status);
    }
    assert(joined_lines(blank) =~= crlf()) by {
        lemma_joined_push(Seq::empty(), Seq::<u8>::empty());
        assert(Seq::<Seq<u8>>::empty().push(Seq::<u8>::empty()) =~= blank);
    }
    assert forall|i: int| 0 <= i < all.len() implies free_of_crlf(#[trigger] all[i]) by {
        if i == 0 {
        } else if i <= headers.len() {
            assert(all[i] == headers[i - 1]);
        } else {
            assert(all[i] == Seq::<u8>::empty());
            assert forall|j: int| !crlf_at(all[i], j) by {}
        }
    }
    lemma_lines_read_back(all);
    let body = match m.body {
        Some(bytes) => bytes,
        None => Seq::empty(),
    };
    assert((head_wire(m) + body).skip(head_wire(m).len() as int) =~= body);
}

/// A response after its body was replaced by the gzip encoding of it.
pub open spec fn compressed(m: ResponseModel) -> ResponseModel {
    match m.body {
        Some(bytes) => ResponseModel {
            status: m.status,
            headers: with_length(
                replaced(m.headers, lowercase_of(HEADER_CONTENT_ENCODING@), "gzip"@),
                gzip_of(bytes).len() as usize,
            ),
            body: Some(gzip_of(bytes)),
        },
        None => m,
    }
}

/// The length that a body setter writes is the length that is read back:
/// the headers of a response that was given a body of `len` bytes announce
/// `len`, and those written for a response without a body announce 0.
pub proof fn lemma_written_length(m: HeaderModel, content_type: Seq<char>, len: usize)
    requires
        well_formed(m),
    ensures
        well_formed(body_headers(m, content_type, len)),
        announced_length(body_headers(m, content_type, len)) == Some(len),
        announced_length(with_length(m, 0)) == Some(0usize),
{
    let typed = replaced(m, lowercase_of(HEADER_CONTENT_TYPE@), content_type);
    lemma_replaced(m, lowercase_of(HEADER_CONTENT_TYPE@), content_type);
    lemma_length_round_trip(typed, len);
    lemma_length_round_trip(m, 0);
}

/// A response that is being put together.
#[derive(Debug)]
pub struct Response {
    status: HttpStatus,
    headers: Headers,
    body: HttpBody,
}

impl View for Response {
    type V = ResponseModel;

    closed spec fn view(&self) -> ResponseModel {
        ResponseModel { status: self.status, headers: self.headers@, body: self.body@ }
    }
}

impl Response {
    /// The header table is well formed.
    pub closed spec fn wf(&self) -> bool {
        self.headers.wf()
    }

    /// A response with the given status, no body, and the connection kept
    /// alive.
    pub fn new(status: HttpStatus) -> (r: Self)
        ensures
            r.wf(),
            r@ == (ResponseModel { status, headers: initial_headers(), body: None }),
    {
        let mut headers = Headers::new();
        headers.set(HEADER_CONNECTION, "keep-alive");
        Response { status, headers, body: HttpBody::Empty }
    }

    /// Makes `body` the body, as plain text.
    pub fn set_str_body(&mut self, body: &str)
        requires
            old(self).wf(),
        ensures
            final(self).wf(),
            final(self)@ == (ResponseModel {
                status: old(self)@.status,
                headers: body_headers(
                    old(self)@.headers,
                    "text/plain"@,
                    encode_utf8(body@).len() as usize,
                ),
                body: Some(encode_utf8(body@)),
            }),
    {
        let bytes = body.as_bytes();
        self.headers.set(HEADER_CONTENT_TYPE, "text/plain");
        self.headers.set_content_length(bytes.len());
        self.body = HttpBody::Content(vstd::slice::slice_to_vec(bytes));
    }

    /// Makes `body` the body, of the given content type.
    pub fn set_bytes_body(&mut self, content_type: &str, body: &[u8])
        requires
            old(self).wf(),
        ensures
            final(self).wf(),
            final(self)@ == (ResponseModel {
                status: old(self)@.status,
                headers: body_headers(old(self)@.headers, content_type@, body@.len() as usize),
                body: Some(body@),
            }),
    {
        self.headers.set(HEADER_CONTENT_TYPE, content_type);
        self.headers.set_content_length(body.len());
        self.body = HttpBody::Content(vstd::slice::slice_to_vec(body));
    }

    /// Makes `value` the only value of the header `name`.
    pub fn set_header(&mut self, name: &str, value: &str)
        requires
            old(self).wf(),
        ensures
            final(self).wf(),
            final(self)@ == (ResponseModel {
                headers: replaced(old(self)@.headers, lowercase_of(name@), value@),
                ..old(self)@
            }),
    {
        self.headers.set(name, value);
    }

    /// Makes `encoding` the only `Content-Encoding`.
    pub fn set_encoding(&mut self, encoding: &str)
        requires
            old(self).wf(),
        ensures
            final(self).wf(),
            final(self)@ == (ResponseModel {
                headers: replaced(
                    old(self)@.headers,
                    lowercase_of(HEADER_CONTENT_ENCODING@),
                    encoding@,
                ),
                ..old(self)@
            }),
    {
        self.headers.set(HEADER_CONTENT_ENCODING, encoding);
    }

    /// Replaces the body by its gzip encoding and says so in the headers. A
    /// response without a body stays as it is, and so does one whose body
    /// the encoder turns down.
    pub fn compress(&mut self) -> (r: Result<(), HttpError>)
        requires
            old(self).wf(),
        ensures
            final(self).wf(),
            match r {
                Ok(()) => final(self)@ == compressed(old(self)@),
                Err(e) => e is Encoding && final(self)@ == old(self)@,
            },
    {
        let packed = match &self.body {
            HttpBody::Empty => {
                return Ok(());
            },
            HttpBody::Content(bytes) => match gzip(bytes.as_slice()) {
                Ok(packed) => packed,
                Err(e) => {
                    return Err(e);
                },
            },
        };
        self.headers.set(HEADER_CONTENT_ENCODING, "gzip");
        self.headers.set_content_length(packed.len());
        self.body = HttpBody::Content(packed);
        Ok(())
    }

    /// The status of the response.
    pub fn status(&self) -> (r: &HttpStatus)
        ensures
            *r == self@.status,
    {
        &self.status
    }

    /// The headers that the response has so far.
    pub fn headers(&self) -> (r: &Headers)
        ensures
            r@ == self@.headers,
            self.wf() ==> r.wf(),
    {
        &self.headers
    }

    /// The body of the response.
    pub fn body(&self) -> (r: &HttpBody)
        ensures
            r@ == self@.body,
    {
        &self.body
    }

    /// What stands before the body on the wire: the status line, the header
    /// lines and a blank line.
    fn head_bytes(&self) -> (r: Vec<u8>)
        requires
            self.wf(),
        ensures
            r@ == head_wire(self@),
    {
        let mut out = self.status.to_bytes();
        let mut block = match self.body {
            HttpBody::Empty => {
                let mut headers = self.headers.duplicate();
                headers.set_content_length(0);
                headers.to_bytes()
            },
            HttpBody::Content(_) => self.headers.to_bytes(),
        };
        out.append(&mut block);
        out.push(CR);
        out.push(LF);
        assert(out@ =~= head_wire(self@));
        out
    }

    /// The response as it goes on the wire.
    pub fn to_bytes(&self) -> (r: Vec<u8>)
        requires
            self.wf(),
        ensures
            r@ == response_wire(self@),
    {
        let mut out = self.head_bytes();
        match &self.body {
            HttpBody::Empty => {
                assert(out@ + Seq::<u8>::empty() =~= out@);
            },
            HttpBody::Content(bytes) => {
                let mut copy = vstd::slice::slice_to_vec(bytes.as_slice());
                out.append(&mut copy);
            },
        }
        out
    }

    /// Writes the response to the sink: what `to_bytes` makes, handed over in
    /// one piece, and then the sink is flushed. The sink decides, and only
    /// its refusal is an error.
    pub fn write(&self, stream: &mut impl std::io::Write) -> (r: Result<(), HttpError>)
        requires
            self.wf(),
        ensures
            r is Err ==> r.unwrap_err() is Transport,
    {
        let bytes = self.to_bytes();
        match send(stream, bytes.as_slice()) {
            Ok(()) => {},
            Err(e) => {
                return Err(e);
            },
        }
        flush(stream)
    }
}

/// A response with status 400 and the given text as its body.
pub fn bad_request(body: &str) -> (r: Response)
    ensures
        r.wf(),
        r@ == (ResponseModel {
            status: HttpStatus::BadRequest,
            headers: body_headers(initial_headers(), "text/plain"@, encode_utf8(body@).len() as usize),
            body: Some(encode_utf8(body@)),
        }),
{
    let mut resp = Response::new(HttpStatus::BadRequest);
    resp.set_str_body(body);
    resp
}

/// A response with status 200 and no body.
pub fn ok() -> (r: Response)
    ensures
        r.wf(),
        r@ == (ResponseModel { status: HttpStatus::OK, headers: initial_headers(), body: None }),
{
    Response::new(HttpStatus::OK)
}

/// A response with status 404 and no body.
pub fn not_found() -> (r: Response)
    ensures
        r.wf(),
        r@ == (ResponseModel {
            status: HttpStatus::NotFound,
            headers: initial_headers(),
            body: None,
        }),
{
    Response::new(HttpStatus::NotFound)
}

/// A response with status 500, and with the message, where there is one, as
/// its body.
pub fn internal_server_error(message: Option<&str>) -> (r: Response)
    ensures
        r.wf(),
        r@ == match message {
            Some(text) => ResponseModel {
                status: HttpStatus::InternalServerError,
                headers: body_headers(
                    initial_headers(),
                    "text/plain"@,
                    encode_utf8(text@).len() as usize,
                ),
                body: Some(encode_utf8(text@)),
            },
            None => ResponseModel {
                status: HttpStatus::InternalServerError,
                headers: initial_headers(),
                body: None,
            },
        },
{
    let mut resp = Response::new(HttpStatus::InternalServerError);
    match message {
        Some(text) => {
            resp.set_str_body(text);
        },
        None => {},
    }
    resp
}

} // verus!
