//! The closed set of decode-failure kinds.

use vstd::prelude::*;

verus! {

/// A failure while decoding raw bytes into a request.
#[derive(Debug, Clone, Copy, PartialEq, Eq, Structural)]
pub enum HttpError {
    /// The request line is missing or lacks a method or url token.
    ProtocolError,
    /// The method token is not one of the recognized methods.
    MethodError,
    /// The url token is not valid UTF-8.
    UrlError,
    /// A header line is not valid UTF-8 or lacks the `": "` separator.
    HeaderError,
}

} // verus!
