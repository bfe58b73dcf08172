//! Which response a request gets.

use vstd::prelude::*;
use vstd::utf8::{decode_utf8_encode_utf8, encode_utf8, encode_utf8_valid_utf8};
use crate::consts::{DOT, HEADER_USER_AGENT, SLASH};
use crate::file::{FileRetriever, FileRetrieverError};
use crate::header::{lookup, HeaderModel};
use crate::http::status::HttpStatus;
use crate::request::Request;
use crate::response::{
    bad_request, body_headers, initial_headers, not_found, ok, Response, ResponseModel,
};
use crate::text::{lemma_around_ascii, str_equal, strip_prefix, utf8_str};
use crate::wire::{find_pair, has_pair};

verus! {

/// Where a request goes.
pub enum Route {
    /// The path `/`.
    Root,
    /// A path under `/echo/`; the text is what follows that prefix.
    Echo(Seq<char>),
    /// The path `/user-agent`.
    UserAgent,
    /// A path under `/files`; the bytes are the name of the file.
    File(Seq<u8>),
    /// A path under `/files` whose file name leads out of the store.
    Forbidden,
    /// Any other path.
    NotFound,
}

/// The file name in what follows `/files` in a path: one byte is skipped,
/// the `/` before the name, and it has to be a whole character.
pub open spec fn file_name(rest: Seq<u8>) -> Option<Seq<u8>> {
    if rest.len() > 0 && rest[0] < 128 {
        Some(rest.skip(1))
    } else {
        None
    }
}

/// A file name that holds `..` or begins with `/` leads out of the store.
pub open spec fn leads_out(name: Seq<u8>) -> bool {
    has_pair(name, DOT) || (name.len() > 0 && name[0] == SLASH)
}

/// Where a request with the given path goes. The rules are tried in order.
pub open spec fn route_of(path: Seq<char>) -> Route {
    if path == "/"@ {
        Route::Root
    } else if "/echo/"@.is_prefix_of(path) {
        Route::Echo(path.skip("/echo/"@.len() as int))
    } else if path == "/user-agent"@ {
        Route::UserAgent
    } else if "/files"@.is_prefix_of(path) {
        match file_name(encode_utf8(path.skip("/files"@.len() as int))) {
            None => Route::NotFound,
            Some(name) => if leads_out(name) {
                Route::Forbidden
            } else {
                Route::File(name)
            },
        }
    } else {
        Route::NotFound
    }
}

/// A response with status 200 and the given text as its body.
pub open spec fn text_response(text: Seq<char>) -> ResponseModel {
    ResponseModel {
        status: HttpStatus::OK,
        headers: body_headers(initial_headers(), "text/plain"@, encode_utf8(text).len() as usize),
        body: Some(encode_utf8(text)),
    }
}

/// A response with the given status and no body.
pub open spec fn bare_response(status: HttpStatus) -> ResponseModel {
    ResponseModel { status, headers: initial_headers(), body: None }
}

/// The response to a request that does not go to the file store.
pub open spec fn fixed_response(route: Route, headers: HeaderModel) -> ResponseModel {
    match route {
        Route::Root => bare_response(HttpStatus::OK),
        Route::Echo(text) => text_response(text),
        Route::UserAgent => match lookup(headers, HEADER_USER_AGENT@) {
            Some(agent) => text_response(agent),
            None => ResponseModel {
                status: HttpStatus::BadRequest,
                headers: body_headers(
                    initial_headers(),
                    "text/plain"@,
                    encode_utf8("missing user-agent header"@).len() as usize,
                ),
                body: Some(encode_utf8("missing user-agent header"@)),
            },
        },
        Route::Forbidden => bare_response(HttpStatus::Forbidden),
        _ => bare_response(HttpStatus::NotFound),
    }
}

/// The response that carries a file.
pub open spec fn file_response(content: Seq<u8>) -> ResponseModel {
    ResponseModel {
        status: HttpStatus::OK,
        headers: body_headers(
            initial_headers(),
            "application/octet-stream"@,
            content.len() as usize,
        ),
        body: Some(content),
    }
}

/// Maps paths to responses; files come from the store that it was made with.
pub struct Router {
    file_server: Box<dyn FileRetriever>,
}

impl Router {
    /// The router that takes its files from `store`.
    pub closed spec fn serving(store: &Box<dyn FileRetriever>) -> Router {
        Router { file_server: *store }
    }

    /// A router that takes its files from `file_server`.
    pub fn new(file_server: Box<dyn FileRetriever>) -> (r: Self)
        ensures
            r == Router::serving(&file_server),
    {
        Router { file_server }
    }

    /// What the store's answer for a file becomes: the file as the body of a
    /// 200, or the store's error.
    pub fn file_outcome(found: Result<Vec<u8>, FileRetrieverError>) -> (r: Result<
        Response,
        FileRetrieverError,
    >)
        ensures
            match (found, r) {
                (Ok(content), Ok(resp)) => resp.wf() && resp@ == file_response(content@),
                (Err(e), Err(f)) => e == f,
                _ => false,
            },
    {
        match found {
            Ok(content) => {
                let mut resp = ok();
                resp.set_bytes_body("application/octet-stream", content.as_slice());
                Ok(resp)
            },
            Err(e) => Err(e),
        }
    }

    /// The response to a request. Only a request for a file can fail, and
    /// then with what the store said; the store is asked for the name that
    /// `file_target` gives.
    pub fn handle(&self, req: &Request) -> (r: Result<Response, FileRetrieverError>)
        requires
            req.wf(),
        ensures
            r is Ok ==> r.unwrap().wf(),
            match route_of(req@.path) {
                Route::File(_) => match r {
                    Ok(resp) => resp@.body is Some && resp@ == file_response(resp@.body.unwrap()),
                    Err(_) => true,
                },
                other => r is Ok && r.unwrap()@ == fixed_response(other, req@.headers),
            },
    {
        if req.path_match_exact("/") {
            return Ok(ok());
        }
        match strip_prefix(req.path(), "/echo/") {
            Some(message) => {
                let mut resp = ok();
                resp.set_str_body(message);
                return Ok(resp);
            },
            None => {},
        }
        if req.path_match_exact("/user-agent") {
            return match req.headers().get(HEADER_USER_AGENT) {
                Some(value) => {
                    let mut resp = ok();
                    resp.set_str_body(value);
                    Ok(resp)
                },
                None => Ok(bad_request("missing user-agent header")),
            };
        }
        match file_target(req.path()) {
            Some(name) => {
                return Router::file_outcome(self.file_server.retrieve(name));
            },
            None => {},
        }
        match strip_prefix(req.path(), "/files") {
            Some(rest) => {
                let bytes = rest.as_bytes();
                if bytes.len() == 0 || bytes[0] >= 128 {
                    Ok(not_found())
                } else {
                    Ok(Response::new(HttpStatus::Forbidden))
                }
            },
            None => Ok(not_found()),
        }
    }
}

/// The name of the file that a path asks for: the name that the store is
/// asked for where the path leads to a file, and nothing for any other path.
pub fn file_target(path: &str) -> (r: Option<&str>)
    ensures
        match route_of(path@) {
            Route::File(name) => r is Some && encode_utf8(r.unwrap()@) == name,
            _ => r is None,
        },
{
    if str_equal(path, "/") {
        return None;
    }
    if strip_prefix(path, "/echo/").is_some() {
        return None;
    }
    if str_equal(path, "/user-agent") {
        return None;
    }
    let rest = match strip_prefix(path, "/files") {
        Some(rest) => rest,
        None => {
            return None;
        },
    };
    let bytes = rest.as_bytes();
    if bytes.len() == 0 || bytes[0] >= 128 {
        return None;
    }
    let name = vstd::slice::slice_subrange(bytes, 1, bytes.len());
    assert(name@ =~= bytes@.skip(1));
    if find_pair(name, DOT) || (name.len() > 0 && name[0] == SLASH) {
        return None;
    }
    proof {
        encode_utf8_valid_utf8(rest@);
        lemma_around_ascii(bytes@, 0);
        decode_utf8_encode_utf8(name@);
    }
    utf8_str(name)
}

} // verus!
