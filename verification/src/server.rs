//! One connection: requests are read, answered and written back in the
//! order in which they come, until one side ends it.

use vstd::prelude::*;
use vstd::utf8::encode_utf8;
use crate::body::HttpBody;
use crate::connection::LineStream;
use crate::consts::{HEADER_CONNECTION, HEADER_CONTENT_ENCODING};
use crate::error::HttpError;
use crate::file::FileRetrieverError;
use crate::header::{accepted_encodings, lookup, replaced, texts, HeaderModel};
use crate::request::{
    from_line_stream, head_from, lemma_parse_stable, parsed_request, Parse, Request,
    RequestModel,
};
use crate::response::{
    bad_request, body_headers, compressed, initial_headers, internal_server_error, response_wire,
    Response, ResponseModel,
};
use crate::sink::{flush, send};
use crate::http::status::HttpStatus;
use crate::router::{fixed_response, route_of, Router};
use crate::text::{eq_ignore_ascii_case, lowercase_of, same_ignoring_ascii_case, str_equal};
use crate::wire::has_crlf;

verus! {

/// The headers ask for the connection to be closed: the first `Connection`
/// value is `close`, in whatever case.
#[verifier::opaque]
pub open spec fn asks_to_close(headers: HeaderModel) -> bool {
    match lookup(headers, HEADER_CONNECTION@) {
        Some(value) => same_ignoring_ascii_case(encode_utf8(value), encode_utf8("close"@)),
        None => false,
    }
}

/// The headers list `gzip` among the accepted encodings.
pub open spec fn lists_gzip(headers: HeaderModel) -> bool {
    match accepted_encodings(headers) {
        Some(list) => list.contains("gzip"@),
        None => false,
    }
}

/// What the router's answer stands for: its response, or a 500 with the
/// store's message.
pub open spec fn answer(routed: Result<Response, FileRetrieverError>) -> ResponseModel {
    match routed {
        Ok(resp) => resp@,
        Err(e) => ResponseModel {
            status: HttpStatus::InternalServerError,
            headers: body_headers(
                initial_headers(),
                "text/plain"@,
                encode_utf8(e.message()).len() as usize,
            ),
            body: Some(encode_utf8(e.message())),
        },
    }
}

/// A response with `gzip` as its content encoding: one with a body has the
/// body encoded, one without has the header alone.
pub open spec fn encoded(m: ResponseModel) -> ResponseModel {
    if m.body is Some {
        compressed(m)
    } else {
        ResponseModel {
            headers: replaced(m.headers, lowercase_of(HEADER_CONTENT_ENCODING@), "gzip"@),
            ..m
        }
    }
}

/// A response that tells the client that the connection closes.
pub open spec fn closing(m: ResponseModel) -> ResponseModel {
    ResponseModel {
        headers: replaced(m.headers, lowercase_of(HEADER_CONNECTION@), "close"@),
        ..m
    }
}

/// The response that goes out for an answer: encoded where that is wanted
/// and done, and marked as the last one where the request asks for that.
pub open spec fn outgoing(req: RequestModel, answered: ResponseModel, encode: bool) -> ResponseModel {
    let body = if encode {
        encoded(answered)
    } else {
        answered
    };
    if asks_to_close(req.headers) {
        closing(body)
    } else {
        body
    }
}

/// How a connection ended.
#[derive(Debug)]
pub struct Served {
    /// How many requests were read and answered.
    pub exchanges: usize,
    /// What ended the connection; nothing where the last request asked for
    /// the connection to be closed.
    pub ended_by: Option<HttpError>,
}

/// Whether the request asks for the connection to be closed after it.
pub fn should_close(req: &Request) -> (r: bool)
    requires
        req.wf(),
    ensures
        r == asks_to_close(req@.headers),
{
    proof {
        reveal(asks_to_close);
    }
    match req.headers().connection() {
        Some(value) => eq_ignore_ascii_case(value.as_bytes(), "close".as_bytes()),
        None => false,
    }
}

/// Whether the request accepts a gzip-encoded response.
pub fn accepts_gzip(req: &Request) -> (r: bool)
    requires
        req.wf(),
    ensures
        r == lists_gzip(req@.headers),
{
    match req.headers().accept_encodings() {
        Some(list) => {
            let mut i: usize = 0;
            while i < list.len()
                invariant
                    i <= list@.len(),
                    accepted_encodings(req@.headers) == Some(texts(list@)),
                    forall|j: int| 0 <= j < i ==> texts(list@)[j] != "gzip"@,
                decreases list.len() - i,
            {
                if str_equal(list[i].as_str(), "gzip") {
                    assert(texts(list@)[i as int] == "gzip"@);
                    assert(texts(list@).contains("gzip"@));
                    return true;
                }
                i += 1;
            }
            false
        },
        None => false,
    }
}

/// Gives `resp` the gzip content encoding. Where the encoder turns the body
/// down, the response stays as it is.
pub fn compress_response_body(resp: &mut Response) -> (r: Result<(), HttpError>)
    requires
        old(resp).wf(),
    ensures
        final(resp).wf(),
        match r {
            Ok(()) => final(resp)@ == encoded(old(resp)@),
            Err(e) => e is Encoding && final(resp)@ == old(resp)@,
        },
{
    match resp.body() {
        HttpBody::Content(_) => resp.compress(),
        HttpBody::Empty => {
            resp.set_encoding("gzip");
            Ok(())
        },
    }
}

/// Makes the response that goes out for a request from what the router
/// answered: a failure of the router becomes a 500, the body is encoded
/// where the request accepts gzip, and the response says so where the
/// request asks for the connection to be closed.
pub fn prepare(req: &Request, routed: Result<Response, FileRetrieverError>) -> (r: Response)
    requires
        req.wf(),
        routed is Ok ==> routed.unwrap().wf(),
    ensures
        r.wf(),
        r@ == outgoing(req@, answer(routed), lists_gzip(req@.headers)) || (lists_gzip(req@.headers)
            && r@ == outgoing(req@, answer(routed), false)),
{
    let mut resp = match routed {
        Ok(resp) => resp,
        Err(e) => {
            let message = e.describe();
            internal_server_error(Some(message.as_str()))
        },
    };
    if accepts_gzip(req) {
        let _ = compress_response_body(&mut resp);
    }
    if should_close(req) {
        resp.set_header(HEADER_CONNECTION, "close");
    }
    resp
}

/// The reply to a request as it goes on the wire, and whether the connection
/// is kept after it: the bytes are those of the response that `prepare`
/// makes, and the connection is kept unless the request asks to close.
pub fn reply(req: &Request, routed: Result<Response, FileRetrieverError>) -> (r: (Vec<u8>, bool))
    requires
        req.wf(),
        routed is Ok ==> routed.unwrap().wf(),
    ensures
        r.1 == !asks_to_close(req@.headers),
        r.0@ == response_wire(outgoing(req@, answer(routed), lists_gzip(req@.headers))) || (
        lists_gzip(req@.headers) && r.0@ == response_wire(
            outgoing(req@, answer(routed), false),
        )),
{
    let keep = !should_close(req);
    let resp = prepare(req, routed);
    (resp.to_bytes(), keep)
}

/// The answer to what is no request: a 400 with what the error says of
/// itself as its body, which tells the client that the connection closes.
pub open spec fn refusal_of(e: HttpError) -> ResponseModel {
    closing(
        ResponseModel {
            status: HttpStatus::BadRequest,
            headers: body_headers(
                initial_headers(),
                "text/plain"@,
                encode_utf8(e.text()).len() as usize,
            ),
            body: Some(encode_utf8(e.text())),
        },
    )
}

/// The answer to what is no request, as it goes on the wire.
pub fn refusal(e: &HttpError) -> (r: Vec<u8>)
    ensures
        r@ == response_wire(refusal_of(*e)),
{
    let mut resp = bad_request(e.describe());
    resp.set_header(HEADER_CONNECTION, "close");
    resp.to_bytes()
}

/// What one exchange owes, given the bytes that it had to work with: `input`
/// is what the reader had buffered before the call followed by what it
/// took in during it, and `rest` is what the reader has buffered after it.
///
/// An exchange that went through took the request that stands at the start
/// of `input`, left what follows it in `rest`, and keeps the connection
/// unless that request asks for it to be closed. One that failed did so
/// because `input` ends before the request does (with `Closed`, nothing of it
/// is left), because the stream did not take the answer to a whole request,
/// or because `input` begins with what is no request.
pub open spec fn exchanged(input: Seq<u8>, rest: Seq<u8>, r: Result<bool, HttpError>) -> bool {
    match r {
        Ok(keep) => match parsed_request(input) {
            Parse::Complete(req, taken) => {
                &&& taken == input.len() - rest.len()
                &&& rest == input.skip(taken)
                &&& keep == !asks_to_close(req.headers)
            },
            _ => false,
        },
        Err(e) => {
            ||| e.of_stream() && parsed_request(input) is Partial && (e is Closed ==> rest.len()
                == 0)
            ||| e is Transport && parsed_request(input) is Complete
            ||| e is HeadTooLong && input.len() > 2 * usize::MAX
            ||| parsed_request(input) == Parse::Rejected(e)
        },
    }
}

/// Reads one request from the connection, answers it and writes the answer
/// back over the same stream: what was read is answered as `respond` says,
/// the answer is handed to the stream in one piece, the stream is flushed,
/// and the outcome is what `after_sending` makes of it.
///
/// `Ok(true)` means that the connection stays open for the next request,
/// `Ok(false)` that the request asked for it to be closed. An error means
/// that the connection is over: the stream ended or failed, or what came was
/// no request. Where the request, or what is no request, is already
/// buffered, the source is not asked for anything.
pub fn exchange<S: std::io::Read + std::io::Write>(router: &Router, ls: &mut LineStream<S>) -> (r:
    Result<bool, HttpError>)
    requires
        old(ls).wf(),
    ensures
        final(ls).wf(),
        old(ls).taken_in().is_prefix_of(final(ls).taken_in()),
        final(ls).flushes() >= old(ls).flushes(),
        exchanged(
            old(ls).buffered() + final(ls).taken_in_since(old(ls)),
            final(ls).buffered(),
            r,
        ),
        parsed_request(old(ls).buffered()) is Rejected ==> final(ls).taken_in() == old(
            ls,
        ).taken_in() && final(ls).flushes() == old(ls).flushes() && r is Err && parsed_request(
            old(ls).buffered(),
        ) == Parse::Rejected(r.unwrap_err()),
        parsed_request(old(ls).buffered()) is Complete ==> final(ls).taken_in() == old(
            ls,
        ).taken_in() && final(ls).flushes() == old(ls).flushes() && (r is Ok || r.unwrap_err()
            is Transport),
{
    let ghost before = ls.buffered();
    let ghost log = ls.taken_in();
    assert(log.skip(log.len() as int) =~= Seq::<u8>::empty());
    assert(before + Seq::<u8>::empty() =~= before);
    let read = from_line_stream(ls);
    let (bytes, outcome) = respond(router, read);
    let bytes = match bytes {
        Some(bytes) => bytes,
        None => {
            return outcome;
        },
    };
    let sent = match send(ls.get_stream_mut(), bytes.as_slice()) {
        Ok(()) => flush(ls.get_stream_mut()),
        Err(e) => Err(e),
    };
    after_sending(outcome, sent)
}

/// What is to be handed to the stream for what was read from it, and what
/// the exchange comes to where the stream takes it.
///
/// An error of the stream is answered with nothing. What is no request is
/// answered with what `refusal` makes, and the error stays the outcome. A
/// request is answered with what `reply` makes of it and of the router's
/// answer, and the connection is kept unless the request asks to close.
pub fn respond(router: &Router, read: Result<Request, HttpError>) -> (r: (
    Option<Vec<u8>>,
    Result<bool, HttpError>,
))
    requires
        read is Ok ==> read.unwrap().wf(),
    ensures
        match read {
            Err(e) => r.1 == Err::<bool, _>(e) && if e.of_stream() {
                r.0 is None
            } else {
                r.0 is Some && r.0.unwrap()@ == response_wire(refusal_of(e))
            },
            Ok(req) => {
                &&& r.1 == Ok::<_, HttpError>(!asks_to_close(req@.headers))
                &&& r.0 is Some
                &&& !(route_of(req@.path) is File) ==> replied(
                    req@,
                    fixed_response(route_of(req@.path), req@.headers),
                    r.0.unwrap()@,
                )
            },
        },
{
    match read {
        Err(e) => {
            if e.is_of_stream() {
                (None, Err(e))
            } else {
                let bytes = refusal(&e);
                (Some(bytes), Err(e))
            }
        },
        Ok(req) => {
            let routed = router.handle(&req);
            let (bytes, keep) = reply(&req, routed);
            (Some(bytes), Ok(keep))
        },
    }
}

/// The bytes are the reply to a request whose answer is `answered`: the
/// response that goes out for it, encoded where the request accepts that and
/// the encoder did it.
pub open spec fn replied(req: RequestModel, answered: ResponseModel, bytes: Seq<u8>) -> bool {
    ||| bytes == response_wire(outgoing(req, answered, lists_gzip(req.headers)))
    ||| lists_gzip(req.headers) && bytes == response_wire(outgoing(req, answered, false))
}

/// What an exchange comes to after its answer was handed to the stream: an
/// exchange that read a request fails where the stream did not take the
/// answer; one that read no request stays the failure that it was.
pub fn after_sending(outcome: Result<bool, HttpError>, sent: Result<(), HttpError>) -> (r: Result<
    bool,
    HttpError,
>)
    ensures
        r == match (outcome, sent) {
            (Ok(_), Err(e)) => Err::<bool, _>(e),
            _ => outcome,
        },
{
    match outcome {
        Ok(keep) => match sent {
            Ok(()) => Ok(keep),
            Err(e) => Err(e),
        },
        Err(e) => Err(e),
    }
}

/// What a connection comes to after one more exchange, `exchanges` having
/// gone through before it: nothing yet where the exchange went through and
/// keeps the connection; else the end, with the exchange counted where it
/// went through, and with its error as the cause where it failed.
pub fn after_exchange(exchanges: usize, outcome: Result<bool, HttpError>) -> (r: Option<Served>)
    requires
        exchanges < usize::MAX,
    ensures
        r == match outcome {
            Ok(keep) => if keep {
                None::<Served>
            } else {
                Some(Served { exchanges: (exchanges + 1) as usize, ended_by: None })
            },
            Err(e) => Some(Served { exchanges, ended_by: Some(e) }),
        },
{
    match outcome {
        Ok(keep) => if keep {
            None
        } else {
            Some(Served { exchanges: exchanges + 1, ended_by: None })
        },
        Err(e) => Some(Served { exchanges, ended_by: Some(e) }),
    }
}

/// Where the request after the first `k` starts in `input`: `input` begins
/// with `k` whole requests, none of which asks for the connection to be
/// closed, and the result is the number of bytes that they take up. There is
/// no such place where `input` does not begin so.
pub open spec fn walked(input: Seq<u8>, k: nat) -> Option<int>
    decreases k,
{
    if k == 0 {
        Some(0)
    } else {
        match walked(input, (k - 1) as nat) {
            Some(at) => if 0 <= at <= input.len() {
                match parsed_request(input.skip(at)) {
                    Parse::Complete(req, taken) => if asks_to_close(req.headers) {
                        None
                    } else {
                        Some(at + taken)
                    },
                    _ => None,
                }
            } else {
                None
            },
            None => None,
        }
    }
}

/// What serving a connection owes, given the bytes that it had to work with:
/// `input` is what the reader had buffered before the call followed by what
/// it took in during it, and `rest` is what it has buffered after it.
///
/// The exchanges that are counted took the requests that stand one behind
/// the other at the start of `input`, in that order. Where the connection
/// ended without a cause, the last of them asks for the connection to be
/// closed, none before it does, and what follows it is left in `rest`,
/// unread. Where it ended with a cause, none of them asks to close, and
/// either what follows them ends before a request does (with `Closed`,
/// nothing of it is left), or the stream did not take the answer to the
/// request that follows them, or what follows them is no request.
pub open spec fn served(input: Seq<u8>, rest: Seq<u8>, r: Served) -> bool {
    ended(input, rest, r.exchanges as nat, r.ended_by)
}

/// The same, with the count of exchanges and the cause of the end apart.
pub open spec fn ended(
    input: Seq<u8>,
    rest: Seq<u8>,
    exchanges: nat,
    ended_by: Option<HttpError>,
) -> bool {
    match ended_by {
        None => exchanges > 0 && match walked(input, (exchanges - 1) as nat) {
            Some(at) => 0 <= at <= input.len() && match parsed_request(input.skip(at)) {
                Parse::Complete(req, taken) => asks_to_close(req.headers) && rest == input.skip(
                    at + taken,
                ),
                _ => false,
            },
            None => false,
        },
        Some(e) => match walked(input, exchanges) {
            Some(at) => 0 <= at <= input.len() && {
                ||| e.of_stream() && parsed_request(input.skip(at)) is Partial && (e is Closed
                    ==> rest.len() == 0)
                ||| e is Transport && parsed_request(input.skip(at)) is Complete
                ||| e is HeadTooLong && input.len() - at > 2 * usize::MAX
                ||| parsed_request(input.skip(at)) == Parse::Rejected(e)
            },
            None => false,
        },
    }
}

/// The requests at the start of some bytes are the same when more bytes
/// follow.
pub proof fn lemma_walked_stable(input: Seq<u8>, more: Seq<u8>, k: nat)
    ensures
        walked(input, k) is Some ==> walked(input + more, k) == walked(input, k) && 0 <= walked(
            input,
            k,
        ).unwrap() <= input.len(),
    decreases k,
{
    if k > 0 {
        lemma_walked_stable(input, more, (k - 1) as nat);
        match walked(input, (k - 1) as nat) {
            Some(at) => {
                if 0 <= at <= input.len() {
                    assert((input + more).skip(at) =~= input.skip(at) + more);
                    lemma_parse_stable(input.skip(at), more);
                }
            },
            None => {},
        }
    }
}

/// What one more exchange adds to what holds between two exchanges: one
/// that went through and keeps the connection moves the place of the next
/// request behind the request that it took; any other ends the connection as
/// `ended` says.
proof fn lemma_exchange_step(
    input: Seq<u8>,
    held: Seq<u8>,
    fetched: Seq<u8>,
    rest: Seq<u8>,
    k: nat,
    outcome: Result<bool, HttpError>,
)
    requires
        served_so_far(input, held, k),
        exchanged(held + fetched, rest, outcome),
    ensures
        match outcome {
            Ok(keep) => if keep {
                served_so_far(input + fetched, rest, k + 1)
            } else {
                ended(input + fetched, rest, k + 1, None)
            },
            Err(e) => ended(input + fetched, rest, k, Some(e)),
        },
{
    let at = input.len() - held.len();
    let longer = input + fetched;
    lemma_walked_stable(input, fetched, k);
    assert(longer.skip(at) =~= held + fetched);
    match outcome {
        Ok(keep) => {
            lemma_step_taken(longer, at, rest, k, keep);
        },
        Err(e) => {
            lemma_step_failed(longer, at, rest, k, e);
        },
    }
}

/// The step of an exchange that went through.
proof fn lemma_step_taken(input: Seq<u8>, at: int, rest: Seq<u8>, k: nat, keep: bool)
    requires
        walked(input, k) == Some(at),
        0 <= at <= input.len(),
        exchanged(input.skip(at), rest, Ok(keep)),
    ensures
        if keep {
            served_so_far(input, rest, k + 1)
        } else {
            ended(input, rest, k + 1, None)
        },
{
    let tail = input.skip(at);
    let taken = parsed_request(tail)->Complete_1;
    lemma_parse_stable(tail, Seq::<u8>::empty());
    assert(0 <= taken <= tail.len());
    assert(tail.skip(taken) =~= input.skip(at + taken));
    assert(rest == input.skip(at + taken));
    assert(input.len() - rest.len() == at + taken);
    assert(((k + 1) - 1) as nat == k);
    if keep {
        assert(walked(input, k + 1) == Some(at + taken));
    }
}

/// The step of an exchange that failed.
proof fn lemma_step_failed(input: Seq<u8>, at: int, rest: Seq<u8>, k: nat, e: HttpError)
    requires
        walked(input, k) == Some(at),
        0 <= at <= input.len(),
        exchanged(input.skip(at), rest, Err(e)),
    ensures
        ended(input, rest, k, Some(e)),
{
    assert(input.skip(at).len() == input.len() - at);
}

/// The requests before a place that `walked` gives are whole and do not ask
/// to close.
pub proof fn lemma_walked_before(input: Seq<u8>, j: nat, k: nat)
    requires
        k < j,
        walked(input, j) is Some,
    ensures
        walked(input, k) is Some,
        0 <= walked(input, k).unwrap() <= input.len(),
        parsed_request(input.skip(walked(input, k).unwrap())) is Complete,
        !asks_to_close(parsed_request(input.skip(walked(input, k).unwrap()))->Complete_0.headers),
    decreases j,
{
    if k + 1 < j {
        lemma_walked_before(input, (j - 1) as nat, k);
    } else {
        assert((j - 1) as nat == k);
    }
}

/// A connection over which nothing came had no exchange and ended for a
/// reason of the stream; after `Closed` nothing is left.
pub proof fn lemma_nothing_came(rest: Seq<u8>, r: Served)
    requires
        served(Seq::empty(), rest, r),
    ensures
        r.exchanges == 0,
        r.ended_by is Some,
        r.ended_by.unwrap().of_stream(),
        r.ended_by.unwrap() is Closed ==> rest.len() == 0,
{
    let nothing = Seq::<u8>::empty();
    assert(nothing.skip(0) =~= nothing);
    assert(parsed_request(nothing) is Partial) by {
        reveal(parsed_request);
        reveal(head_from);
        assert(!has_crlf(nothing));
    }
    if r.exchanges > 0 {
        if r.ended_by is Some {
            lemma_walked_before(nothing, r.exchanges as nat, 0);
        } else if r.exchanges > 1 {
            lemma_walked_before(nothing, (r.exchanges - 1) as nat, 0);
        }
    }
}

/// The connection ends with the first request that asks to close: where two
/// runs over the same bytes both ended without a cause, they took the same
/// number of requests and left the same bytes unread.
pub proof fn lemma_ends_at_first_close(input: Seq<u8>, rest: Seq<u8>, r: Served, rest2: Seq<u8>, r2: Served)
    requires
        served(input, rest, r),
        served(input, rest2, r2),
        r.ended_by is None,
        r2.ended_by is None,
    ensures
        r.exchanges == r2.exchanges,
        rest == rest2,
{
    if r.exchanges < r2.exchanges {
        lemma_walked_before(input, (r2.exchanges - 1) as nat, (r.exchanges - 1) as nat);
    } else if r2.exchanges < r.exchanges {
        lemma_walked_before(input, (r.exchanges - 1) as nat, (r2.exchanges - 1) as nat);
    }
}

/// Two requests in a row, of which the second asks to close: a connection
/// over them that ended without a cause took both, in order, and left what
/// follows them unread.
pub proof fn lemma_two_in_a_row(
    one: Seq<u8>,
    two: Seq<u8>,
    more: Seq<u8>,
    first: RequestModel,
    second: RequestModel,
    rest: Seq<u8>,
    r: Served,
)
    requires
        parsed_request(one) == Parse::Complete(first, one.len() as int),
        !asks_to_close(first.headers),
        parsed_request(two) == Parse::Complete(second, two.len() as int),
        asks_to_close(second.headers),
        served(one + two + more, rest, r),
        r.ended_by is None,
    ensures
        r.exchanges == 2,
        rest == more,
{
    let input = one + two + more;
    let at = one.len() as int;
    assert(input.skip(0) =~= one + (two + more));
    lemma_parse_stable(one, two + more);
    assert(walked(input, 1) == Some(at)) by {
        assert(walked(input, 0) == Some(0int));
    }
    assert(input.skip(at) =~= two + more);
    lemma_parse_stable(two, more);
    assert(input.skip(at + two.len()) =~= more);
    let both = Served { exchanges: 2, ended_by: None };
    assert(served(input, more, both));
    lemma_ends_at_first_close(input, rest, r, more, both);
}

/// Serves what comes over a reader: one exchange after the other, each from
/// where the one before it ended, until a request asks for the connection to
/// be closed, the stream ends or fails, or what comes is no request.
pub fn serve<S: std::io::Read + std::io::Write>(router: &Router, ls: &mut LineStream<S>) -> (r:
    Served)
    requires
        old(ls).wf(),
    ensures
        final(ls).wf(),
        old(ls).taken_in().is_prefix_of(final(ls).taken_in()),
        r.exchanges < usize::MAX ==> served(
            old(ls).buffered() + final(ls).taken_in_since(old(ls)),
            final(ls).buffered(),
            r,
        ),
        r.exchanges == usize::MAX ==> r.ended_by is None,
{
    let ghost before = ls.buffered();
    let ghost log = ls.taken_in();
    let mut exchanges: usize = 0;
    proof {
        assert(log.skip(log.len() as int) =~= Seq::<u8>::empty());
        assert(before + Seq::<u8>::empty() =~= before);
        assert(before.skip(0) =~= before);
    }
    while exchanges < usize::MAX
        invariant
            ls.wf(),
            before == old(ls).buffered(),
            log == old(ls).taken_in(),
            log.is_prefix_of(ls.taken_in()),
            served_so_far(
                before + ls.taken_in().skip(log.len() as int),
                ls.buffered(),
                exchanges as nat,
            ),
        decreases usize::MAX - exchanges,
    {
        let ghost input = before + ls.taken_in().skip(log.len() as int);
        let ghost held = ls.buffered();
        let ghost seen = ls.taken_in();
        let outcome = exchange(router, ls);
        proof {
            let fetched = ls.taken_in().skip(seen.len() as int);
            assert(ls.taken_in().skip(log.len() as int) =~= seen.skip(log.len() as int)
                + fetched);
            assert(before + ls.taken_in().skip(log.len() as int) =~= input + fetched);
            lemma_exchange_step(input, held, fetched, ls.buffered(), exchanges as nat, outcome);
        }
        match after_exchange(exchanges, outcome) {
            Some(end) => {
                return end;
            },
            None => {
                exchanges = exchanges + 1;
            },
        }
    }
    Served { exchanges, ended_by: None }
}

/// What holds between two exchanges: the exchanges so far took the requests
/// at the start of `input`, none of which asks to close, and `rest`, which is
/// buffered, is what follows them.
spec fn served_so_far(input: Seq<u8>, rest: Seq<u8>, exchanges: nat) -> bool {
    &&& walked(input, exchanges) == Some(input.len() - rest.len())
    &&& 0 <= input.len() - rest.len()
    &&& rest == input.skip(input.len() - rest.len())
}

/// Serves a connection: one exchange after the other over the same stream,
/// so that what was read beyond one request is there for the next, until a
/// request asks for the connection to be closed or the stream ends.
///
/// The result is what `serve` gives for a reader that has read nothing yet:
/// `taken_in` is all that the reader took in, `rest` what it left unread.
pub fn handle_connection<S: std::io::Read + std::io::Write>(router: &Router, stream: &mut S) -> (r:
    Served)
    ensures
        r.exchanges < usize::MAX ==> exists|taken_in: Seq<u8>, rest: Seq<u8>| #[trigger] served(
            taken_in,
            rest,
            r,
        ),
        r.exchanges == usize::MAX ==> r.ended_by is None,
{
    let mut ls = LineStream::new(stream);
    let r = serve(router, &mut ls);
    proof {
        let taken_in = ls.taken_in();
        assert(taken_in.skip(0) =~= taken_in);
        assert(Seq::<u8>::empty() + taken_in =~= taken_in);
        if r.exchanges < usize::MAX {
            assert(served(taken_in, ls.buffered(), r));
        }
    }
    r
}

} // verus!
