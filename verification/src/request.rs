//! Requests, and how they are read from a line reader.

use vstd::prelude::*;
use vstd::utf8::{decode_utf8, encode_utf8, valid_utf8};
use crate::body::HttpBody;
use crate::connection::{line_read, LineStream};
use crate::consts::{CHUNK_SIZE, COLON, SPACE, STR_HTTP_1_1};
use crate::error::HttpError;
use crate::header::{announced_length, header_parts, inserted, HeaderModel, Headers};
use crate::http::method::{method_named, HttpMethod};
use crate::text::{
    lemma_around_ascii, lemma_valid_between, str_equal, strip_prefix, utf8_str,
};
use crate::wire::{
    bytes_equal, crlf, find_byte, find_crlf, first_crlf, free_of_crlf, has_crlf, is_first_crlf,
    joined_lines,
    lemma_first_crlf, lemma_first_crlf_extends, lemma_joined_long, lemma_joined_push,
    lemma_line_then_crlf, lemma_line_was_taken, lemma_split_first, lemma_split_some, split_on,
};

verus! {

/// A request as a value.
pub struct RequestModel {
    pub method: HttpMethod,
    pub path: Seq<char>,
    pub headers: HeaderModel,
    pub body: Option<Seq<u8>>,
}

/// What a run of bytes amounts to when it is read as a request.
pub enum Parse {
    /// The bytes begin with a whole request; the number tells how many bytes
    /// it takes up.
    Complete(RequestModel, int),
    /// The bytes begin with something that is no request.
    Rejected(HttpError),
    /// The bytes end before the request does.
    Partial,
}

/// The method token and the path of a request line: the line is cut at
/// single spaces, has three pieces at least, and the third is the protocol.
pub open spec fn request_line_parts(line: Seq<u8>) -> Result<(Seq<char>, Seq<char>), HttpError> {
    let parts = split_on(line, SPACE);
    if !valid_utf8(line) {
        Err(HttpError::InvalidText)
    } else if parts.len() < 3 {
        Err(HttpError::MalformedRequestLine)
    } else if parts[2] != encode_utf8(STR_HTTP_1_1@) {
        Err(HttpError::UnsupportedProtocol)
    } else {
        Ok((decode_utf8(parts[0]), decode_utf8(parts[1])))
    }
}

/// The request that a request line opens: its method and path, no headers
/// and no body.
pub open spec fn parsed_request_line(line: Seq<u8>) -> Result<RequestModel, HttpError> {
    match request_line_parts(line) {
        Err(e) => Err(e),
        Ok((token, path)) => match method_named(token) {
            Some(method) => Ok(
                RequestModel { method, path, headers: Seq::empty(), body: None },
            ),
            None => Err(HttpError::UnknownMethod),
        },
    }
}

/// What a line that is not blank does to the request read so far: the first
/// one opens the request, every later one adds a header.
pub open spec fn step(state: Option<RequestModel>, line: Seq<u8>) -> Result<
    RequestModel,
    HttpError,
> {
    match state {
        None => parsed_request_line(line),
        Some(req) => if !valid_utf8(line) {
            Err(HttpError::InvalidText)
        } else if !line.contains(COLON) {
            Err(HttpError::MalformedHeader)
        } else {
            Ok(
                RequestModel {
                    headers: inserted(req.headers, header_parts(line).0, header_parts(line).1),
                    ..req
                },
            )
        },
    }
}

/// A result with its byte count raised by `by`.
pub open spec fn shifted(parse: Parse, by: int) -> Parse {
    match parse {
        Parse::Complete(req, n) => Parse::Complete(req, n + by),
        other => other,
    }
}

/// Reads the head of a request from `input`, line by line, up to and with the
/// blank line that ends it; `state` is what the lines before `input` gave.
#[verifier::opaque]
pub open spec fn head_from(input: Seq<u8>, state: Option<RequestModel>) -> Parse
    decreases input.len(),
{
    if !has_crlf(input) {
        Parse::Partial
    } else {
        let p = first_crlf(input);
        if !(0 <= p && p + 2 <= input.len()) {
            Parse::Partial
        } else if p == 0 {
            match state {
                None => Parse::Rejected(HttpError::EmptyRequest),
                Some(req) => Parse::Complete(req, 2),
            }
        } else {
            match step(state, input.take(p)) {
                Err(e) => Parse::Rejected(e),
                Ok(req) => shifted(head_from(input.skip(p + 2), Some(req)), p + 2),
            }
        }
    }
}

/// Reads a request from the start of `input`: the head, then as many bytes of
/// body as the head announces.
#[verifier::opaque]
pub open spec fn parsed_request(input: Seq<u8>) -> Parse {
    match head_from(input, None) {
        Parse::Complete(head, n) => match announced_length(head.headers) {
            None => Parse::Rejected(HttpError::InvalidContentLength),
            Some(len) => if len == 0 {
                Parse::Complete(head, n)
            } else if 0 <= n && n + len <= input.len() {
                Parse::Complete(
                    RequestModel { body: Some(input.subrange(n, n + len)), ..head },
                    n + len,
                )
            } else {
                Parse::Partial
            },
        },
        other => other,
    }
}

/// What a run of lines, none of them blank, makes of a state.
spec fn folded(state: Option<RequestModel>, lines: Seq<Seq<u8>>) -> Result<
    Option<RequestModel>,
    HttpError,
>
    decreases lines.len(),
{
    if lines.len() == 0 {
        Ok(state)
    } else {
        match folded(state, lines.drop_last()) {
            Err(e) => Err(e),
            Ok(before) => match step(before, lines.last()) {
                Ok(req) => Ok(Some(req)),
                Err(e) => Err(e),
            },
        }
    }
}

/// Every line holds a byte and no terminator.
spec fn proper_lines(lines: Seq<Seq<u8>>) -> bool {
    forall|i: int| 0 <= i < lines.len() ==> (#[trigger] lines[i]).len() > 0 && free_of_crlf(lines[i])
}

/// Reading a head from lines put back on the wire goes through those lines
/// one by one, and then on with what follows them.
proof fn lemma_head_steps(lines: Seq<Seq<u8>>, tail: Seq<u8>, state: Option<RequestModel>)
    requires
        proper_lines(lines),
    ensures
        head_from(joined_lines(lines) + tail, state) == match folded(state, lines) {
            Err(e) => Parse::Rejected(e),
            Ok(after) => shifted(head_from(tail, after), joined_lines(lines).len() as int),
        },
    decreases lines.len(),
{
    reveal(head_from);
    if lines.len() == 0 {
        assert(joined_lines(lines) + tail =~= tail);
        let parse = head_from(tail, state);
        assert(shifted(parse, 0) == parse);
    } else {
        let earlier = lines.drop_last();
        let line = lines.last();
        let rest = line + crlf() + tail;
        assert(proper_lines(earlier)) by {
            assert forall|i: int| 0 <= i < earlier.len() implies (#[trigger] earlier[i]).len() > 0
                && free_of_crlf(earlier[i]) by {
                assert(earlier[i] == lines[i]);
            }
        }
        assert(joined_lines(lines) + tail =~= joined_lines(earlier) + rest);
        lemma_head_steps(earlier, rest, state);
        match folded(state, earlier) {
            Err(e) => {},
            Ok(before) => {
                lemma_line_then_crlf(line, tail);
                match step(before, line) {
                    Err(e) => {},
                    Ok(req) => {
                        let inner = head_from(tail, Some(req));
                        assert(shifted(
                            shifted(inner, line.len() as int + 2),
                            joined_lines(earlier).len() as int,
                        ) == shifted(inner, joined_lines(lines).len() as int));
                    },
                }
            },
        }
    }
}

/// A request on a stream is read the same whatever follows it: when the
/// bytes up to some point are one whole request, then those bytes followed
/// by any others are read as that request, and the reading ends at that
/// point. So the requests that stand one behind the other on a stream are
/// read one after the other, each from where the one before it ended.
pub proof fn lemma_pipelined(first: Seq<u8>, rest: Seq<u8>, req: RequestModel)
    requires
        parsed_request(first) == Parse::Complete(req, first.len() as int),
    ensures
        parsed_request(first + rest) == Parse::Complete(req, first.len() as int),
        (first + rest).skip(first.len() as int) == rest,
{
    lemma_parse_stable(first, rest);
    assert((first + rest).skip(first.len() as int) =~= rest);
}

/// What was read as a whole request, or turned down, is read the same when
/// more bytes follow; and a whole request ends inside the bytes that it was
/// read from.
pub proof fn lemma_parse_stable(input: Seq<u8>, more: Seq<u8>)
    ensures
        !(parsed_request(input) is Partial) ==> parsed_request(input + more) == parsed_request(
            input,
        ),
        parsed_request(input) is Complete ==> 0 <= parsed_request(input)->Complete_1
            <= input.len(),
{
    reveal(parsed_request);
    lemma_head_stable(input, more, None);
    match head_from(input, None) {
        Parse::Complete(head, n) => {
            match announced_length(head.headers) {
                None => {},
                Some(len) => {
                    if len != 0 && n + len <= input.len() {
                        assert((input + more).subrange(n, n + len) =~= input.subrange(n, n + len));
                    }
                },
            }
        },
        _ => {},
    }
}

/// A head that was read whole, or turned down, is read the same when more
/// bytes follow.
proof fn lemma_head_stable(input: Seq<u8>, more: Seq<u8>, state: Option<RequestModel>)
    ensures
        !(head_from(input, state) is Partial) ==> head_from(input + more, state) == head_from(
            input,
            state,
        ),
        head_from(input, state) is Complete ==> 0 <= head_from(input, state)->Complete_1
            <= input.len(),
    decreases input.len(),
{
    reveal(head_from);
    if has_crlf(input) {
        lemma_first_crlf(input);
        let p = first_crlf(input);
        lemma_first_crlf_extends(input, more, p);
        lemma_first_crlf(input + more);
        if p != 0 {
            match step(state, input.take(p)) {
                Err(e) => {},
                Ok(req) => {
                    lemma_head_stable(input.skip(p + 2), more, Some(req));
                },
            }
        }
    }
}

/// A request that was read from a stream.
#[derive(Debug)]
pub struct Request {
    method: HttpMethod,
    path: String,
    headers: Headers,
    body: HttpBody,
}

impl View for Request {
    type V = RequestModel;

    closed spec fn view(&self) -> RequestModel {
        RequestModel {
            method: self.method,
            path: self.path@,
            headers: self.headers@,
            body: self.body@,
        }
    }
}

/// The method token and the path of a request line.
pub struct RequestLine<'a> {
    pub method: &'a str,
    pub path: &'a str,
}

impl<'a> RequestLine<'a> {
    /// Cuts a request line into its tokens and checks the protocol.
    pub fn from_bytes(bytes: &'a [u8]) -> (r: Result<Self, HttpError>)
        ensures
            match r {
                Ok(line) => request_line_parts(bytes@) == Ok::<_, HttpError>(
                    (line.method@, line.path@),
                ),
                Err(e) => request_line_parts(bytes@) == Err::<(Seq<char>, Seq<char>), _>(e),
            },
    {
        if utf8_str(bytes).is_none() {
            return Err(HttpError::InvalidText);
        }
        assert(bytes@.skip(0) =~= bytes@);
        let first = match find_byte(bytes, SPACE, 0) {
            Some(i) => i,
            None => {
                proof {
                    lemma_split_some(bytes@, SPACE);
                }
                return Err(HttpError::MalformedRequestLine);
            },
        };
        assert(first < bytes.len());
        let ghost after_first = bytes@.skip(first + 1);
        proof {
            lemma_split_first(bytes@, SPACE, first as int);
        }
        let second = match find_byte(bytes, SPACE, first + 1) {
            Some(i) => i,
            None => {
                proof {
                    lemma_split_some(after_first, SPACE);
                }
                return Err(HttpError::MalformedRequestLine);
            },
        };
        assert(second < bytes.len());
        let ghost after_second = bytes@.skip(second + 1);
        proof {
            lemma_split_first(after_first, SPACE, second - first - 1);
            assert(after_first.skip(second - first - 1 + 1) =~= after_second);
            assert(after_first.take(second - first - 1) =~= bytes@.subrange(
                first + 1,
                second as int,
            ));
            assert(bytes@.take(first as int) =~= bytes@.subrange(0, first as int));
        }
        let end = match find_byte(bytes, SPACE, second + 1) {
            Some(i) => {
                proof {
                    lemma_split_first(after_second, SPACE, i - second - 1);
                    assert(after_second.take(i - second - 1) =~= bytes@.subrange(
                        second + 1,
                        i as int,
                    ));
                }
                i
            },
            None => {
                proof {
                    lemma_split_some(after_second, SPACE);
                    assert(after_second =~= bytes@.subrange(second + 1, bytes@.len() as int));
                }
                bytes.len()
            },
        };
        let ghost parts = split_on(bytes@, SPACE);
        assert(parts.len() >= 3);
        assert(parts[0] == bytes@.subrange(0, first as int));
        assert(parts[1] == bytes@.subrange(first + 1, second as int));
        assert(parts[2] == bytes@.subrange(second + 1, end as int));
        let protocol = vstd::slice::slice_subrange(bytes, second + 1, end);
        if !bytes_equal(protocol, STR_HTTP_1_1.as_bytes()) {
            return Err(HttpError::UnsupportedProtocol);
        }
        proof {
            lemma_around_ascii(bytes@, first as int);
            lemma_valid_between(bytes@, 0, first as int);
            lemma_valid_between(bytes@, first + 1, second as int);
        }
        let method = vstd::slice::slice_subrange(bytes, 0, first);
        let path = vstd::slice::slice_subrange(bytes, first + 1, second);
        match (utf8_str(method), utf8_str(path)) {
            (Some(method), Some(path)) => Ok(RequestLine { method, path }),
            _ => Err(HttpError::InvalidText),
        }
    }
}

impl Request {
    /// The header table is well formed.
    pub closed spec fn wf(&self) -> bool {
        self.headers.wf()
    }

    /// Opens a request from its first line: `METHOD path HTTP/1.1`.
    pub fn from_request_line(bytes: &[u8]) -> (r: Result<Self, HttpError>)
        ensures
            match r {
                Ok(req) => req.wf() && parsed_request_line(bytes@) == Ok::<_, HttpError>(req@),
                Err(e) => parsed_request_line(bytes@) == Err::<RequestModel, _>(e),
            },
    {
        let line = match RequestLine::from_bytes(bytes) {
            Ok(line) => line,
            Err(e) => {
                return Err(e);
            },
        };
        let method = match <HttpMethod as std::str::FromStr>::from_str(line.method) {
            Ok(method) => method,
            Err(e) => {
                return Err(HttpError::UnknownMethod);
            },
        };
        Ok(
            Request {
                method,
                path: line.path.to_owned(),
                headers: Headers::new(),
                body: HttpBody::Empty,
            },
        )
    }

    /// Whether the path is exactly `pattern`.
    pub fn path_match_exact(&self, pattern: &str) -> (r: bool)
        ensures
            r == (self@.path == pattern@),
    {
        str_equal(pattern, self.path.as_str())
    }

    /// Whether the path begins with `pattern`.
    pub fn path_match_prefix(&self, pattern: &str) -> (r: bool)
        ensures
            r == pattern@.is_prefix_of(self@.path),
    {
        strip_prefix(self.path.as_str(), pattern).is_some()
    }

    /// The path that the request line names.
    pub fn path(&self) -> (r: &str)
        ensures
            r@ == self@.path,
    {
        self.path.as_str()
    }

    /// The method that the request line names.
    pub fn method(&self) -> (r: &HttpMethod)
        ensures
            *r == self@.method,
    {
        &self.method
    }

    /// The headers that came with the request.
    pub fn headers(&self) -> (r: &Headers)
        ensures
            r@ == self@.headers,
            self.wf() ==> r.wf(),
    {
        &self.headers
    }

    /// The body that came with the request.
    pub fn body(&self) -> (r: &HttpBody)
        ensures
            r@ == self@.body,
    {
        &self.body
    }
}

/// What reading a request owes, given the bytes that it had to work with:
/// `input` is what the reader had buffered before the call followed by what
/// it took in during it, and `rest` is what the reader has buffered after
/// it.
///
/// A request that comes back is the one that stands at the start of `input`,
/// and `rest` is what follows it there. An error that tells of the message is
/// the one that the grammar gives for `input`. An error that tells of the
/// stream comes only where `input` ends before the request does, and `Closed`
/// only where nothing of it is left buffered. The head is found too long
/// only where `input` holds more lines than the machine can count.
pub open spec fn request_read(input: Seq<u8>, rest: Seq<u8>, r: Result<Request, HttpError>) -> bool {
    match r {
        Ok(req) => {
            &&& req.wf()
            &&& parsed_request(input) == Parse::Complete(req@, input.len() - rest.len())
            &&& 0 <= input.len() - rest.len()
            &&& rest == input.skip(input.len() - rest.len())
        },
        Err(e) => {
            ||| e.of_stream() && parsed_request(input) is Partial && (e is Closed ==> rest.len()
                == 0)
            ||| e is HeadTooLong && input.len() > 2 * usize::MAX
            ||| parsed_request(input) == Parse::Rejected(e)
        },
    }
}

/// A call that found all it needed in what was buffered: the source was not
/// asked for anything, and the result tells of the message alone.
pub open spec fn settled(
    log: Seq<u8>,
    flushes: nat,
    log_after: Seq<u8>,
    flushes_after: nat,
    r: Result<Request, HttpError>,
) -> bool {
    &&& log_after == log
    &&& flushes_after == flushes
    &&& match r {
        Ok(_) => true,
        Err(e) => !e.of_stream() && !(e is HeadTooLong),
    }
}

/// The same for the head alone: the request has no body yet.
spec fn head_read(input: Seq<u8>, rest: Seq<u8>, r: Result<Request, HttpError>) -> bool {
    match r {
        Ok(req) => {
            &&& req.wf()
            &&& req@.body is None
            &&& head_from(input, None) == Parse::Complete(req@, input.len() - rest.len())
            &&& 0 <= input.len() - rest.len()
            &&& rest == input.skip(input.len() - rest.len())
        },
        Err(e) => {
            ||| e.of_stream() && head_from(input, None) is Partial && (e is Closed ==> rest.len()
                == 0)
            ||| e is HeadTooLong && input.len() > 2 * usize::MAX
            ||| head_from(input, None) == Parse::Rejected(e)
        },
    }
}

/// Reads one request from the reader: the request line, the header lines up
/// to the blank line, and the body that `Content-Length` announces.
///
/// What the reader has buffered beyond the request stays buffered, so that
/// the next call reads the request that follows on the same stream.
pub fn from_line_stream<T: std::io::Read>(ls: &mut LineStream<T>) -> (r: Result<
    Request,
    HttpError,
>)
    requires
        old(ls).wf(),
    ensures
        final(ls).wf(),
        old(ls).taken_in().is_prefix_of(final(ls).taken_in()),
        final(ls).flushes() >= old(ls).flushes(),
        request_read(
            old(ls).buffered() + final(ls).taken_in_since(old(ls)),
            final(ls).buffered(),
            r,
        ),
        !(parsed_request(old(ls).buffered()) is Partial) ==> settled(
            old(ls).taken_in(),
            old(ls).flushes(),
            final(ls).taken_in(),
            final(ls).flushes(),
            r,
        ),
{
    let ghost before = ls.buffered();
    let ghost log = ls.taken_in();
    proof {
        reveal(parsed_request);
    }
    let mut req = match read_head(ls) {
        Ok(req) => req,
        Err(e) => {
            return Err(e);
        },
    };
    let ghost after_head = ls.buffered();
    let ghost at_head = ls.taken_in();
    let ghost head_input = before + at_head.skip(log.len() as int);
    let ghost in_buffer = !(parsed_request(before) is Partial);
    proof {
        if in_buffer {
            assert(log.skip(log.len() as int) =~= Seq::<u8>::empty());
            assert(before + Seq::<u8>::empty() =~= before);
            assert(head_input == before);
            assert(head_from(before, None) is Complete);
        }
    }
    let content_length = match req.headers.content_length() {
        Ok(n) => n,
        Err(e) => {
            return Err(e);
        },
    };
    if content_length != 0 {
        assert(in_buffer ==> content_length <= after_head.len());
        let body = match ls.read_bytes(content_length) {
            Ok(body) => body,
            Err(e) => {
                proof {
                    assert(ls.taken_in() =~= at_head);
                }
                return Err(e);
            },
        };
        proof {
            if in_buffer {
                assert(ls.taken_in() =~= at_head);
            }
            lemma_fetched_more(log, at_head, ls.taken_in());
            let fetched = ls.taken_in().skip(at_head.len() as int);
            let input = before + ls.taken_in().skip(log.len() as int);
            assert(input =~= head_input + fetched);
            lemma_body_follows(
                head_input,
                fetched,
                after_head,
                body@,
                ls.buffered(),
                req@,
                content_length,
            );
        }
        req.body = HttpBody::Content(body);
    }
    Ok(req)
}

/// Reads the head of a request: the request line and the header lines up to
/// the blank line.
fn read_head<T: std::io::Read>(ls: &mut LineStream<T>) -> (r: Result<Request, HttpError>)
    requires
        old(ls).wf(),
    ensures
        final(ls).wf(),
        old(ls).taken_in().is_prefix_of(final(ls).taken_in()),
        final(ls).flushes() >= old(ls).flushes(),
        head_read(
            old(ls).buffered() + final(ls).taken_in_since(old(ls)),
            final(ls).buffered(),
            r,
        ),
        !(head_from(old(ls).buffered(), None) is Partial) ==> settled(
            old(ls).taken_in(),
            old(ls).flushes(),
            final(ls).taken_in(),
            final(ls).flushes(),
            r,
        ),
{
    let ghost before = ls.buffered();
    let ghost log = ls.taken_in();
    let ghost none: Seq<Seq<u8>> = Seq::empty();
    assert(log.skip(log.len() as int) =~= Seq::<u8>::empty());
    assert(before + Seq::<u8>::empty() =~= before);
    assert(joined_lines(none) + before =~= before);

    let ghost in_buffer = !(head_from(before, None) is Partial);
    proof {
        ls.lemma_buffered_fits();
        lemma_head_needs_line(before, None);
    }
    let outcome = ls.read_line();
    proof {
        if outcome is Ok {
            lemma_next_line(
                before,
                log,
                log,
                ls.taken_in(),
                before,
                none,
                ls.buffered(),
                outcome,
            );
        } else {
            lemma_line_failed(
                before,
                log,
                log,
                ls.taken_in(),
                before,
                none,
                ls.buffered(),
                outcome,
            );
        }
    }
    let first = match outcome {
        Ok(line) => line,
        Err(e) => {
            return Err(e);
        },
    };
    if first.len() == 0 {
        proof {
            reveal(head_from);
            lemma_head_steps(none, crlf() + ls.buffered(), None);
            lemma_line_then_crlf(Seq::<u8>::empty(), ls.buffered());
            assert(Seq::<u8>::empty() + crlf() + ls.buffered() =~= crlf() + ls.buffered());
            assert(first@ =~= Seq::<u8>::empty());
            assert(joined_lines(none) + first@ + crlf() + ls.buffered() =~= joined_lines(none)
                + (crlf() + ls.buffered()));
        }
        return Err(HttpError::EmptyRequest);
    }
    let ghost mut lines: Seq<Seq<u8>> = none.push(first@);
    proof {
        lemma_joined_push(none, first@);
        lemma_folded_push(None, none, first@);
        assert(proper_lines(lines));
    }
    let mut req = match Request::from_request_line(first.as_slice()) {
        Ok(req) => req,
        Err(e) => {
            proof {
                lemma_head_steps(lines, ls.buffered(), None);
            }
            return Err(e);
        },
    };
    proof {
        if in_buffer {
            assert(before + Seq::<u8>::empty() =~= before);
            lemma_head_steps(lines, ls.buffered(), None);
        }
    }
    let mut budget: usize = usize::MAX;
    loop
        invariant_except_break
            before + ls.taken_in().skip(log.len() as int) == joined_lines(lines) + ls.buffered(),
            budget + lines.len() == usize::MAX + 1,
            in_buffer ==> ls.taken_in() == log && ls.flushes() == old(ls).flushes() && !(head_from(
                ls.buffered(),
                Some(req@),
            ) is Partial),
        invariant
            ls.wf(),
            req.wf(),
            req@.body is None,
            before == old(ls).buffered(),
            log == old(ls).taken_in(),
            log.is_prefix_of(ls.taken_in()),
            ls.flushes() >= old(ls).flushes(),
            proper_lines(lines),
            folded(None, lines) == Ok::<_, HttpError>(Some(req@)),
            in_buffer == !(head_from(before, None) is Partial),
            before.len() <= usize::MAX + CHUNK_SIZE,
        ensures
            before + ls.taken_in().skip(log.len() as int) == joined_lines(lines) + (crlf()
                + ls.buffered()),
            in_buffer ==> ls.taken_in() == log && ls.flushes() == old(ls).flushes(),
        decreases budget,
    {
        if budget == 0 {
            proof {
                lemma_joined_long(lines);
                if in_buffer {
                    assert(log.skip(log.len() as int) =~= Seq::<u8>::empty());
                    assert(before + Seq::<u8>::empty() =~= before);
                }
            }
            return Err(HttpError::HeadTooLong);
        }
        budget = budget - 1;
        let ghost held = ls.buffered();
        let ghost seen = ls.taken_in();
        proof {
            lemma_head_needs_line(held, Some(req@));
        }
        let outcome = ls.read_line();
            proof {
            if outcome is Ok {
                lemma_next_line(
                    before,
                    log,
                    seen,
                    ls.taken_in(),
                    held,
                    lines,
                    ls.buffered(),
                    outcome,
                );
            } else {
                lemma_line_failed(
                    before,
                    log,
                    seen,
                    ls.taken_in(),
                    held,
                    lines,
                    ls.buffered(),
                    outcome,
                );
            }
        }
        let line = match outcome {
            Ok(line) => line,
            Err(e) => {
                return Err(e);
            },
        };
        if line.len() == 0 {
            proof {
                assert(line@ =~= Seq::<u8>::empty());
                assert(joined_lines(lines) + line@ + crlf() + ls.buffered() =~= joined_lines(lines)
                    + (crlf() + ls.buffered()));
            }
            break ;
        }
        let ghost longer = lines.push(line@);
        proof {
            lemma_joined_push(lines, line@);
            lemma_folded_push(None, lines, line@);
            assert(proper_lines(longer)) by {
                assert forall|i: int| 0 <= i < longer.len() implies (#[trigger] longer[i]).len()
                    > 0 && free_of_crlf(longer[i]) by {
                    if i < lines.len() {
                        assert(longer[i] == lines[i]);
                    }
                }
            }
        }
        match req.headers.read(line.as_slice()) {
            Ok(()) => {
                proof {
                    lines = longer;
                    if in_buffer {
                        assert(log.skip(log.len() as int) =~= Seq::<u8>::empty());
                        assert(before + Seq::<u8>::empty() =~= before);
                        lemma_head_steps(lines, ls.buffered(), None);
                    }
                }
            },
            Err(e) => {
                proof {
                    lemma_head_steps(longer, ls.buffered(), None);
                }
                return Err(e);
            },
        }
    }
    proof {
        let input = before + ls.taken_in().skip(log.len() as int);
        lemma_head_ends(lines, ls.buffered(), req@);
        assert(input.skip(joined_lines(lines).len() as int + 2) =~= ls.buffered());
    }
    Ok(req)
}

/// What a run of bytes amounts to when it is read as a request, with the
/// request itself where there is one.
#[derive(Debug)]
pub enum Parsed {
    /// The bytes begin with a whole request; the number tells how many bytes
    /// it takes up.
    Complete(Request, usize),
    /// The bytes begin with something that is no request.
    Rejected(HttpError),
    /// The bytes end before the request does.
    Partial,
}

impl Parsed {
    /// The same as a value of the grammar.
    pub open spec fn model(self) -> Parse {
        match self {
            Parsed::Complete(req, taken) => Parse::Complete(req@, taken as int),
            Parsed::Rejected(e) => Parse::Rejected(e),
            Parsed::Partial => Parse::Partial,
        }
    }
}

/// A line that was found at index `at` of some bytes, up to the terminator at
/// index `end`: one more line behind the lines that make up the bytes before
/// it.
proof fn lemma_line_found(bytes: Seq<u8>, lines: Seq<Seq<u8>>, at: int, end: int)
    requires
        0 <= at <= end,
        end + 2 <= bytes.len(),
        bytes.take(at) == joined_lines(lines),
        is_first_crlf(bytes.subrange(at, bytes.len() as int), end - at),
    ensures
        free_of_crlf(bytes.subrange(at, end)),
        bytes.take(end + 2) == joined_lines(lines.push(bytes.subrange(at, end))),
        bytes.take(end + 2) == joined_lines(lines) + (bytes.subrange(at, end) + crlf()),
{
    let tail = bytes.subrange(at, bytes.len() as int);
    let line = bytes.subrange(at, end);
    assert(line =~= tail.take(end - at));
    lemma_line_was_taken(tail, line, tail.skip(end - at + 2));
    lemma_joined_push(lines, line);
    assert(bytes.take(end + 2) =~= bytes.take(at) + line + crlf()) by {
        assert(tail == line + crlf() + tail.skip(end - at + 2));
        assert(bytes.take(end + 2) =~= bytes.take(at) + tail.take(end - at + 2));
        assert(tail.take(end - at + 2) =~= line + crlf());
    }
    assert(bytes.take(at) + line + crlf() =~= joined_lines(lines) + (line + crlf()));
}

/// Reads a request from the start of a run of bytes that is all at hand:
/// the request that stands there and how many bytes it takes up, or why
/// what stands there is no request, or that the bytes end too early.
pub fn parse_request(bytes: &[u8]) -> (r: Parsed)
    ensures
        r.model() == parsed_request(bytes@),
        match r {
            Parsed::Complete(req, _) => req.wf(),
            _ => true,
        },
{
    proof {
        reveal(parsed_request);
    }
    let (mut req, at) = match parse_head(bytes) {
        Parsed::Complete(req, at) => (req, at),
        other => {
            return other;
        },
    };
    let content_length = match req.headers.content_length() {
        Ok(n) => n,
        Err(e) => {
            return Parsed::Rejected(e);
        },
    };
    if content_length == 0 {
        return Parsed::Complete(req, at);
    }
    if content_length > bytes.len() - at {
        return Parsed::Partial;
    }
    let body = vstd::slice::slice_to_vec(
        vstd::slice::slice_subrange(bytes, at, at + content_length),
    );
    req.body = HttpBody::Content(body);
    Parsed::Complete(req, at + content_length)
}

/// Reads the head of a request from the start of a run of bytes.
#[verifier::rlimit(30)]
fn parse_head(bytes: &[u8]) -> (r: Parsed)
    ensures
        r.model() == head_from(bytes@, None),
        match r {
            Parsed::Complete(req, taken) => req.wf() && req@.body is None && taken <= bytes@.len(),
            _ => true,
        },
{
    let ghost all = bytes@;
    let ghost none: Seq<Seq<u8>> = Seq::empty();
    proof {
        assert(all.subrange(0, all.len() as int) =~= all);
        assert(all.take(0) =~= joined_lines(none));
    }
    let first_end = match find_crlf(bytes, 0, bytes.len()) {
        Some(end) => end,
        None => {
            proof {
                reveal(head_from);
            }
            return Parsed::Partial;
        },
    };
    if first_end == 0 {
        proof {
            reveal(head_from);
            lemma_first_crlf(all);
        }
        return Parsed::Rejected(HttpError::EmptyRequest);
    }
    let first = vstd::slice::slice_subrange(bytes, 0, first_end);
    let ghost mut lines: Seq<Seq<u8>> = none.push(first@);
    proof {
        lemma_line_found(all, none, 0, first_end as int);
        lemma_folded_push(None, none, first@);
        assert(all =~= all.take(first_end + 2) + all.skip(first_end + 2));
    }
    let mut req = match Request::from_request_line(first) {
        Ok(req) => req,
        Err(e) => {
            proof {
                lemma_head_steps(lines, all.skip(first_end + 2), None);
            }
            return Parsed::Rejected(e);
        },
    };
    let mut at: usize = first_end + 2;
    loop
        invariant_except_break
            all.take(at as int) == joined_lines(lines),
        invariant
            all == bytes@,
            at <= bytes@.len(),
            req.wf(),
            req@.body is None,
            proper_lines(lines),
            folded(None, lines) == Ok::<_, HttpError>(Some(req@)),
        ensures
            all.take(at as int) == joined_lines(lines) + crlf(),
        decreases bytes@.len() - at,
    {
        let ghost tail = all.subrange(at as int, all.len() as int);
        proof {
            assert(tail =~= all.skip(at as int));
            assert(all =~= all.take(at as int) + tail);
        }
        let end = match find_crlf(bytes, at, bytes.len()) {
            Some(end) => end,
            None => {
                proof {
                    reveal(head_from);
                    lemma_head_steps(lines, tail, None);
                    assert(!has_crlf(tail));
                }
                return Parsed::Partial;
            },
        };
        let line = vstd::slice::slice_subrange(bytes, at, end);
        proof {
            lemma_line_found(all, lines, at as int, end as int);
            assert(all =~= all.take(end + 2) + all.skip(end + 2));
        }
        if end == at {
            proof {
                assert(line@ =~= Seq::<u8>::empty());
                assert(joined_lines(lines) + (line@ + crlf()) =~= joined_lines(lines) + crlf());
            }
            at = end + 2;
            break ;
        }
        let ghost longer = lines.push(line@);
        proof {
            lemma_folded_push(None, lines, line@);
            assert(proper_lines(longer)) by {
                assert forall|i: int| 0 <= i < longer.len() implies (#[trigger] longer[i]).len()
                    > 0 && free_of_crlf(longer[i]) by {
                    if i < lines.len() {
                        assert(longer[i] == lines[i]);
                    }
                }
            }
        }
        match req.headers.read(line) {
            Ok(()) => {
                proof {
                    lines = longer;
                }
            },
            Err(e) => {
                proof {
                    lemma_head_steps(longer, all.skip(end + 2), None);
                }
                return Parsed::Rejected(e);
            },
        }
        at = end + 2;
    }
    proof {
        let rest = all.skip(at as int);
        lemma_head_ends(lines, rest, req@);
        assert(all =~= all.take(at as int) + rest);
        assert(joined_lines(lines) + crlf() + rest =~= joined_lines(lines) + (crlf() + rest));
    }
    Parsed::Complete(req, at)
}

/// Reads one request from a source through a reader of its own. What that
/// reader has read beyond the request is lost with it, so this is for a
/// source that holds one request.
///
/// The result is what reading a request gives for what the reader took in:
/// the bytes that the source delivered, with a line terminator where the
/// stream ended inside a line.
pub fn from_reader<T: std::io::Read>(reader: &mut T) -> (r: Result<Request, HttpError>)
    ensures
        exists|taken_in: Seq<u8>, rest: Seq<u8>| #[trigger] request_read(taken_in, rest, r),
{
    let mut ls = LineStream::new(reader);
    let r = from_line_stream(&mut ls);
    proof {
        let taken_in = ls.taken_in();
        assert(taken_in.skip(0) =~= taken_in);
        assert(Seq::<u8>::empty() + taken_in =~= taken_in);
        assert(request_read(taken_in, ls.buffered(), r));
    }
    r
}

/// What was fetched since an earlier state is what was fetched up to a state
/// in between, followed by what was fetched since then.
proof fn lemma_fetched_more(log: Seq<u8>, seen: Seq<u8>, now: Seq<u8>)
    requires
        log.is_prefix_of(seen),
        seen.is_prefix_of(now),
    ensures
        log.is_prefix_of(now),
        now.skip(log.len() as int) == seen.skip(log.len() as int) + now.skip(seen.len() as int),
{
    assert(now.skip(log.len() as int) =~= seen.skip(log.len() as int) + now.skip(
        seen.len() as int,
    ));
}

/// What one more line makes of what the lines before it made.
proof fn lemma_folded_push(state: Option<RequestModel>, lines: Seq<Seq<u8>>, line: Seq<u8>)
    ensures
        folded(state, lines.push(line)) == match folded(state, lines) {
            Err(e) => Err(e),
            Ok(before) => match step(before, line) {
                Ok(req) => Ok(Some(req)),
                Err(e) => Err(e),
            },
        },
{
    assert(lines.push(line).drop_last() =~= lines);
}

/// A head that was read, followed by the body that it announces, is a whole
/// request.
proof fn lemma_body_follows(
    head_input: Seq<u8>,
    fetched: Seq<u8>,
    after_head: Seq<u8>,
    body: Seq<u8>,
    rest: Seq<u8>,
    head: RequestModel,
    len: usize,
)
    requires
        head_from(head_input, None) == Parse::Complete(head, head_input.len() - after_head.len()),
        0 <= head_input.len() - after_head.len(),
        after_head == head_input.skip(head_input.len() - after_head.len()),
        announced_length(head.headers) == Some(len),
        len != 0,
        body.len() == len,
        body + rest == after_head + fetched,
    ensures
        parsed_request(head_input + fetched) == Parse::Complete(
            RequestModel { body: Some(body), ..head },
            (head_input + fetched).len() - rest.len(),
        ),
        0 <= (head_input + fetched).len() - rest.len(),
        rest == (head_input + fetched).skip((head_input + fetched).len() - rest.len()),
{
    reveal(parsed_request);
    let input = head_input + fetched;
    let n = head_input.len() - after_head.len();
    lemma_head_stable(head_input, fetched, None);
    assert(head_from(input, None) == Parse::Complete(head, n));
    lemma_skip_concat(head_input, fetched, n);
    lemma_cut(input, n, body, rest);
}

/// Skipping a part of the first of two joined sequences.
proof fn lemma_skip_concat(a: Seq<u8>, b: Seq<u8>, n: int)
    requires
        0 <= n <= a.len(),
    ensures
        (a + b).skip(n) == a.skip(n) + b,
{
    assert((a + b).skip(n) =~= a.skip(n) + b);
}

/// Where what follows the first `n` bytes is `body` and then `rest`, `body`
/// stands at index `n` and `rest` behind it.
proof fn lemma_cut(input: Seq<u8>, n: int, body: Seq<u8>, rest: Seq<u8>)
    requires
        0 <= n <= input.len(),
        input.skip(n) == body + rest,
    ensures
        n + body.len() == input.len() - rest.len(),
        input.subrange(n, n + body.len()) == body,
        input.skip(n + body.len()) == rest,
{
    let tail = input.skip(n);
    assert(tail.len() == body.len() + rest.len());
    assert(input.subrange(n, n + body.len()) =~= tail.take(body.len() as int));
    assert(tail.take(body.len() as int) =~= body);
    assert(input.skip(n + body.len()) =~= tail.skip(body.len() as int));
    assert(tail.skip(body.len() as int) =~= rest);
}

/// What one more line that was read adds to what is known: the line holds no
/// terminator, and the bytes at hand are the lines read so far, the new line
/// with its terminator and what is buffered.
proof fn lemma_next_line(
    before: Seq<u8>,
    log: Seq<u8>,
    seen: Seq<u8>,
    now: Seq<u8>,
    held: Seq<u8>,
    lines: Seq<Seq<u8>>,
    rest: Seq<u8>,
    r: Result<Vec<u8>, HttpError>,
)
    requires
        log.is_prefix_of(seen),
        seen.is_prefix_of(now),
        before + seen.skip(log.len() as int) == joined_lines(lines) + held,
        r is Ok,
        line_read(held + now.skip(seen.len() as int), rest, r),
    ensures
        log.is_prefix_of(now),
        free_of_crlf(r.unwrap()@),
        before + now.skip(log.len() as int) == joined_lines(lines) + r.unwrap()@ + crlf() + rest,
{
    let line = r.unwrap()@;
    let input = held + now.skip(seen.len() as int);
    lemma_fetched_more(log, seen, now);
    lemma_line_was_taken(input, line, rest);
    assert(before + now.skip(log.len() as int) =~= (before + seen.skip(log.len() as int))
        + now.skip(seen.len() as int));
    assert(joined_lines(lines) + held + now.skip(seen.len() as int) =~= joined_lines(lines)
        + input);
    assert(joined_lines(lines) + (line + crlf() + rest) =~= joined_lines(lines) + line + crlf()
        + rest);
}

/// A head that is read whole, or turned down, has a line to begin with.
proof fn lemma_head_needs_line(input: Seq<u8>, state: Option<RequestModel>)
    ensures
        !(head_from(input, state) is Partial) ==> has_crlf(input),
{
    reveal(head_from);
}

/// A line that could not be read leaves the head unfinished: the error is
/// one of the stream, the bytes at hand end before the head does, and after
/// `Closed` nothing is buffered.
proof fn lemma_line_failed(
    before: Seq<u8>,
    log: Seq<u8>,
    seen: Seq<u8>,
    now: Seq<u8>,
    held: Seq<u8>,
    lines: Seq<Seq<u8>>,
    rest: Seq<u8>,
    r: Result<Vec<u8>, HttpError>,
)
    requires
        log.is_prefix_of(seen),
        seen.is_prefix_of(now),
        before + seen.skip(log.len() as int) == joined_lines(lines) + held,
        proper_lines(lines),
        folded(None, lines) is Ok,
        r is Err,
        line_read(held + now.skip(seen.len() as int), rest, r),
    ensures
        log.is_prefix_of(now),
        r.unwrap_err().of_stream(),
        r.unwrap_err() is Closed ==> rest.len() == 0,
        head_from(before + now.skip(log.len() as int), None) is Partial,
{
    let input = held + now.skip(seen.len() as int);
    lemma_fetched_more(log, seen, now);
    assert(before + now.skip(log.len() as int) =~= (before + seen.skip(log.len() as int))
        + now.skip(seen.len() as int));
    assert(joined_lines(lines) + held + now.skip(seen.len() as int) =~= joined_lines(lines)
        + input);
    lemma_head_steps(lines, input, None);
    assert(!has_crlf(input));
    reveal(head_from);
}

/// A head whose lines made a request, followed by a blank line, is read as
/// that request.
proof fn lemma_head_ends(lines: Seq<Seq<u8>>, tail: Seq<u8>, req: RequestModel)
    requires
        proper_lines(lines),
        folded(None, lines) == Ok::<_, HttpError>(Some(req)),
    ensures
        head_from(joined_lines(lines) + (crlf() + tail), None) == Parse::Complete(
            req,
            joined_lines(lines).len() as int + 2,
        ),
{
    reveal(head_from);
    lemma_head_steps(lines, crlf() + tail, None);
    lemma_line_then_crlf(Seq::<u8>::empty(), tail);
    assert(Seq::<u8>::empty() + crlf() + tail =~= crlf() + tail);
}

} // verus!
