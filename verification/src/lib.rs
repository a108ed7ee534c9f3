//! A minimal HTTP/1.1 message library: a byte-level decoder for requests, an
//! encoder for responses, a router over a small fixed set of path patterns,
//! and the single-shot per-connection exchange logic, all verified.

use vstd::prelude::*;

pub mod bytes;
pub mod connection;
pub mod error;
pub mod http;
pub mod router;
pub mod utf8;

verus! {

} // verus!
