//! The errors of the protocol engine.

use vstd::prelude::*;

verus! {

/// The URL type of the `url` crate, opaque to the engine: it is produced by
/// URL reconstruction and handed through to the application.
#[verifier::external_type_specification]
#[verifier::external_body]
pub struct ExUrl(url::Url);

/// The error type of the `url` crate's parser, opaque to the engine.
#[verifier::external_type_specification]
#[verifier::external_body]
pub struct ExParseError(url::ParseError);

/// An error raised while validating or reconstructing a message.
#[derive(Debug, Clone, Copy, PartialEq, Eq)]
pub enum Error {
    /// The request line carried no usable method.
    InvalidMethod,
    /// The request line carried no usable version.
    InvalidVersion,
    /// The message is malformed: bad request line, bad path, missing host.
    InvalidMessage,
    /// Both a content length and a transfer encoding were declared.
    ForbiddenHeader,
    /// A required header is absent.
    MissingHeader,
    /// A header value is not usable, e.g. an unparsable content length.
    InvalidHeader,
    /// The URL library rejected the reconstructed URL.
    UrlError(url::ParseError),
}

} // verus!
