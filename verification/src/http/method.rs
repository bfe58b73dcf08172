use vstd::prelude::*;
use crate::error::HttpError;
use crate::text::str_equal;

verus! {

/// The request methods that are understood.
#[derive(Debug, Clone, Copy, PartialEq, Eq, Structural)]
pub enum HttpMethod {
    Get,
    Post,
    Put,
    Delete,
    Patch,
    Head,
    Options,
    Connect,
    Trace,
}

/// The method that a token names. The names are in upper case and none
/// else is accepted.
pub open spec fn method_named(token: Seq<char>) -> Option<HttpMethod> {
    if token == "GET"@ {
        Some(HttpMethod::Get)
    } else if token == "POST"@ {
        Some(HttpMethod::Post)
    } else if token == "PUT"@ {
        Some(HttpMethod::Put)
    } else if token == "DELETE"@ {
        Some(HttpMethod::Delete)
    } else if token == "PATCH"@ {
        Some(HttpMethod::Patch)
    } else if token == "HEAD"@ {
        Some(HttpMethod::Head)
    } else if token == "OPTIONS"@ {
        Some(HttpMethod::Options)
    } else if token == "CONNECT"@ {
        Some(HttpMethod::Connect)
    } else if token == "TRACE"@ {
        Some(HttpMethod::Trace)
    } else {
        None
    }
}

impl std::str::FromStr for HttpMethod {
    type Err = HttpError;

    /// The method that `s` names, or `UnknownMethod`.
    fn from_str(s: &str) -> (r: Result<Self, HttpError>)
        ensures
            match r {
                Ok(method) => method_named(s@) == Some(method),
                Err(HttpError::UnknownMethod) => method_named(s@) is None,
                Err(_) => false,
            },
    {
        if str_equal(s, "GET") {
            Ok(HttpMethod::Get)
        } else if str_equal(s, "POST") {
            Ok(HttpMethod::Post)
        } else if str_equal(s, "PUT") {
            Ok(HttpMethod::Put)
        } else if str_equal(s, "DELETE") {
            Ok(HttpMethod::Delete)
        } else if str_equal(s, "PATCH") {
            Ok(HttpMethod::Patch)
        } else if str_equal(s, "HEAD") {
            Ok(HttpMethod::Head)
        } else if str_equal(s, "OPTIONS") {
            Ok(HttpMethod::Options)
        } else if str_equal(s, "CONNECT") {
            Ok(HttpMethod::Connect)
        } else if str_equal(s, "TRACE") {
            Ok(HttpMethod::Trace)
        } else {
            Err(HttpError::UnknownMethod)
        }
    }
}

} // verus!
