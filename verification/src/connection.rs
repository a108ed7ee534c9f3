//! The per-connection exchange: one request in, one response out. The
//! byte-stream itself lives with the caller; this module makes every
//! decision of the exchange, from raw request bytes to the exact bytes
//! to write back, or to the file action whose outcome it then turns
//! into those bytes.

use vstd::prelude::*;

use crate::error::HttpError;
use crate::http::{
    opt_view, spec_decode, spec_encode_response, HttpRequest, HttpResponse, HttpStatusCode,
};
use crate::router::{
    content_type_key, octet_stream_value, route, spec_route, ActionModel, RouteAction,
    RouteFailure, file_read_response,
};

verus! {

/// What one exchange asks of its caller next.
#[derive(Debug)]
pub enum Exchange {
    /// Write these bytes and close.
    Reply(Vec<u8>),
    /// Look the named file up in the configured directory and hand its
    /// contents, or their absence, to `file_fetched`.
    FetchFile(Vec<u8>),
    /// Create the named file in the configured directory with these
    /// bytes, then write the bytes `file_stored` gives and close.
    StoreFile(Vec<u8>, Vec<u8>),
}

/// Why an exchange failed; either way the caller closes the connection.
#[derive(Debug, Clone, Copy, PartialEq, Eq, Structural)]
pub enum HandleFailure {
    /// The raw bytes did not decode into a request.
    Decode(HttpError),
    /// The request decoded but could not be routed.
    Route(RouteFailure),
}

/// The abstract value of an exchange step.
pub enum ExchangeModel {
    Reply(Seq<u8>),
    FetchFile(Seq<u8>),
    StoreFile(Seq<u8>, Seq<u8>),
}

impl Exchange {
    /// The abstract value this step denotes.
    pub open spec fn model(self) -> ExchangeModel {
        match self {
            Exchange::Reply(b) => ExchangeModel::Reply(b@),
            Exchange::FetchFile(n) => ExchangeModel::FetchFile(n@),
            Exchange::StoreFile(n, b) => ExchangeModel::StoreFile(n@, b@),
        }
    }
}

/// What one exchange does with raw request bytes: decode them, route the
/// request, and either encode the routed response or hand the file
/// action up.
pub open spec fn spec_handle(input: Seq<u8>) -> Result<ExchangeModel, HandleFailure> {
    match spec_decode(input) {
        Err(e) => Err(HandleFailure::Decode(e)),
        Ok(m) => match spec_route(m) {
            Err(e) => Err(HandleFailure::Route(e)),
            Ok(a) => Ok(
                match a {
                    ActionModel::Respond(st, hs, b) => ExchangeModel::Reply(
                        spec_encode_response(st, hs, b),
                    ),
                    ActionModel::ReadFile(n) => ExchangeModel::FetchFile(n),
                    ActionModel::WriteFile(n, b) => ExchangeModel::StoreFile(n, b),
                },
            ),
        },
    }
}

/// Run the decision half of one exchange, exactly as `spec_handle`
/// states.
pub fn handle_request(input: &[u8]) -> (r: Result<Exchange, HandleFailure>)
    ensures
        match r {
            Ok(x) => spec_handle(input@) == Ok::<ExchangeModel, HandleFailure>(x.model()),
            Err(e) => spec_handle(input@) == Err::<ExchangeModel, HandleFailure>(e),
        },
{
    let req = match HttpRequest::decode(input) {
        Ok(q) => q,
        Err(e) => {
            return Err(HandleFailure::Decode(e));
        },
    };
    let act = match route(&req) {
        Ok(a) => a,
        Err(e) => {
            return Err(HandleFailure::Route(e));
        },
    };
    match act {
        RouteAction::Respond(resp) => Ok(Exchange::Reply(resp.encode())),
        RouteAction::ReadFile(n) => Ok(Exchange::FetchFile(n)),
        RouteAction::WriteFile(n, b) => Ok(Exchange::StoreFile(n, b)),
    }
}

/// The bytes to write once a fetch came back: the file's contents under
/// `Content-Type: application/octet-stream`, or an empty `404 Not Found`.
pub open spec fn spec_file_reply(contents: Option<Seq<u8>>) -> Seq<u8> {
    match contents {
        Some(b) => spec_encode_response(
            HttpStatusCode::Okay,
            Some(seq![(content_type_key(), octet_stream_value())]),
            Some(b),
        ),
        None => spec_encode_response(HttpStatusCode::NotFound, None, None),
    }
}

/// Turn the outcome of a `FetchFile` step into the bytes to write.
pub fn file_fetched(contents: Option<Vec<u8>>) -> (r: Vec<u8>)
    ensures
        r@ == spec_file_reply(opt_view(contents)),
{
    let resp = file_read_response(contents);
    resp.encode()
}

/// The bytes to write once a `StoreFile` step succeeded: an empty
/// `201 Created`.
pub fn file_stored() -> (r: Vec<u8>)
    ensures
        r@ == spec_encode_response(HttpStatusCode::Created, None, None),
{
    HttpResponse::new_created().encode()
}

} // verus!
