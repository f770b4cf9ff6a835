//! Minimal HTTP/1.1 messages: types, request and response parsers, serializers.
//!
//! The common case is covered: a start line, headers, and a `Content-Length`
//! body. Chunked transfer-encoding, HTTP/2, TLS and keep-alive are out of scope.
//! Parsers work on the bytes that a peer has sent; reading them off a socket is
//! the caller's, which [`is_settled`] and [`is_response_settled`] tell when to stop.

pub mod field_laws;
pub mod laws;
pub mod message;
pub mod parse;
pub mod serialize;
pub mod wire_laws;

pub use message::{Request, Response};
pub use parse::{is_response_settled, is_settled, parse_request, parse_response, HttpError};
pub use serialize::{write_request, write_response};
