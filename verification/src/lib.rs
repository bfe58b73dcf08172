//! An HTTP/1.1 server core: a line reader over an arbitrarily chunked byte
//! source, a case-insensitive header table, request parsing, response
//! serialisation, routing and the per-connection exchange loop.

pub mod body;
pub mod connection;
pub mod consts;
pub mod error;
pub mod file;
pub mod header;
pub mod http;
pub mod request;
pub mod response;
pub mod router;
pub mod server;
pub mod encoding;
pub mod sink;
pub mod text;
pub mod wire;
