//! An HTTP/1.x request-side protocol engine.
//!
//! A raw, arbitrarily fragmented byte stream is turned into well-formed
//! request values and application-produced responses are turned back into
//! bytes, with support for persistent connections, pipelining, fixed-length
//! bodies and chunked-transfer bodies with trailers.

use vstd::prelude::*;

pub mod buf;
pub mod error;
pub mod headers;
pub mod http1;
pub mod message;
pub mod request;
pub mod response;
pub mod types;

pub use buf::Buf;
pub use error::Error;
pub use headers::{HeaderLine, Headers, IterListHeader};
pub use http1::{Async, Client, Handler};
pub use message::Message;
pub use request::{url_from_http, Http1Head, Request};
pub use response::Response;
pub use types::{HttpVersion, Method, StatusCode};

verus! {

/// One unit of a streamed message body.
pub struct Chunk(());

/// The HTTP/1.x protocol, opaque for future extension.
pub struct Http1(());

} // verus!
