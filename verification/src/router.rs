//! The router: resolves a decoded request against the fixed path
//! patterns, either to a finished response or to one of the two
//! file-serving actions that need the configured directory.

use vstd::prelude::*;

use crate::bytes::{copy_bytes, copy_range, starts_with};
use crate::http::{
    map_of, opt_view, pairs_view, HttpMethod, HttpRequest, HttpResponse, HttpStatusCode, ReqModel,
};

verus! {

/// A request-scoped routing failure: the source treated both of these as
/// fatal for the request, and the caller closes the connection on them.
#[derive(Debug, Clone, Copy, PartialEq, Eq, Structural)]
pub enum RouteFailure {
    /// `/user-agent` was asked but the request carries no `User-Agent`.
    MissingUserAgent,
    /// A file upload was asked but the request carries no body.
    MissingBody,
}

/// What the router resolves a request to.
#[derive(Debug)]
pub enum RouteAction {
    /// A finished response, ready to encode.
    Respond(HttpResponse),
    /// Serve the named file from the configured directory.
    ReadFile(Vec<u8>),
    /// Store the given bytes as the named file in the configured
    /// directory, then answer `201 Created`.
    WriteFile(Vec<u8>, Vec<u8>),
}

/// The abstract value of a routing action.
pub enum ActionModel {
    Respond(HttpStatusCode, Option<Seq<(Seq<u8>, Seq<u8>)>>, Option<Seq<u8>>),
    ReadFile(Seq<u8>),
    WriteFile(Seq<u8>, Seq<u8>),
}

impl RouteAction {
    /// The abstract value this action denotes.
    pub open spec fn model(self) -> ActionModel {
        match self {
            RouteAction::Respond(r) => ActionModel::Respond(
                r.status_code,
                r.headers_view(),
                opt_view(r.body),
            ),
            RouteAction::ReadFile(n) => ActionModel::ReadFile(n@),
            RouteAction::WriteFile(n, b) => ActionModel::WriteFile(n@, b@),
        }
    }
}

/// The url `/`.
pub open spec fn root_url() -> Seq<u8> {
    seq![47u8]
}

/// The url `/user-agent`.
pub open spec fn user_agent_url() -> Seq<u8> {
    seq![47u8, 117u8, 115u8, 101u8, 114u8, 45u8, 97u8, 103u8, 101u8, 110u8, 116u8]
}

/// The header key `User-Agent`.
pub open spec fn user_agent_key() -> Seq<u8> {
    seq![85u8, 115u8, 101u8, 114u8, 45u8, 65u8, 103u8, 101u8, 110u8, 116u8]
}

/// The url prefix `/files/`.
pub open spec fn files_prefix() -> Seq<u8> {
    seq![47u8, 102u8, 105u8, 108u8, 101u8, 115u8, 47u8]
}

/// The url prefix `/echo/`.
pub open spec fn echo_prefix() -> Seq<u8> {
    seq![47u8, 101u8, 99u8, 104u8, 111u8, 47u8]
}

/// The dispatch table, first match wins: `/` and `/user-agent` exactly,
/// then `/files/<name>` for GET and POST, then `/echo/<text>`, then
/// `404 Not Found`.
pub open spec fn spec_route(r: ReqModel) -> Result<ActionModel, RouteFailure> {
    if r.url == root_url() {
        Ok(ActionModel::Respond(HttpStatusCode::Okay, None, None))
    } else if r.url == user_agent_url() {
        if r.headers.contains_key(user_agent_key()) {
            Ok(
                ActionModel::Respond(
                    HttpStatusCode::Okay,
                    None,
                    Some(r.headers[user_agent_key()]),
                ),
            )
        } else {
            Err(RouteFailure::MissingUserAgent)
        }
    } else if r.url.len() >= 7 && r.url.take(7) == files_prefix() && r.method == HttpMethod::Get {
        Ok(ActionModel::ReadFile(r.url.skip(7)))
    } else if r.url.len() >= 7 && r.url.take(7) == files_prefix() && r.method == HttpMethod::Post {
        match r.body {
            Some(b) => Ok(ActionModel::WriteFile(r.url.skip(7), b)),
            None => Err(RouteFailure::MissingBody),
        }
    } else if r.url.len() >= 6 && r.url.take(6) == echo_prefix() {
        Ok(ActionModel::Respond(HttpStatusCode::Okay, None, Some(r.url.skip(6))))
    } else {
        Ok(ActionModel::Respond(HttpStatusCode::NotFound, None, None))
    }
}

/// Look a key up in a request's header list, honouring the rule that a
/// later pair overrides an earlier one.
fn lookup_header(hs: &Vec<(Vec<u8>, Vec<u8>)>, key: &[u8]) -> (r: Option<Vec<u8>>)
    ensures
        match r {
            Some(v) => map_of(pairs_view(hs@)).contains_key(key@) && v@ == map_of(
                pairs_view(hs@),
            )[key@],
            None => !map_of(pairs_view(hs@)).contains_key(key@),
        },
{
    let ghost pv = pairs_view(hs@);
    let mut i = hs.len();
    proof {
        assert(pv.take(i as int) =~= pv);
    }
    while i > 0
        invariant
            0 <= i <= hs@.len(),
            pv == pairs_view(hs@),
            map_of(pv).contains_key(key@) == map_of(pv.take(i as int)).contains_key(key@),
            map_of(pv).contains_key(key@) ==> map_of(pv)[key@] == map_of(pv.take(i as int))[key@],
        decreases i,
    {
        proof {
            assert(pv.take(i as int).drop_last() =~= pv.take(i as int - 1));
            assert(pv.take(i as int).last() == pv[i as int - 1]);
        }
        if crate::bytes::bytes_eq(hs[i - 1].0.as_slice(), key) {
            let v = copy_bytes(hs[i - 1].1.as_slice());
            proof {
                assert(map_of(pv.take(i as int)) == map_of(pv.take(i as int - 1)).insert(
                    pv[i as int - 1].0,
                    pv[i as int - 1].1,
                ));
            }
            return Some(v);
        }
        i = i - 1;
    }
    proof {
        assert(pv.take(0) =~= Seq::<(Seq<u8>, Seq<u8>)>::empty());
    }
    None
}

/// Resolve a request, exactly as `spec_route` states. A `Respond` action
/// carries a well-formed response.
pub fn route(req: &HttpRequest) -> (r: Result<RouteAction, RouteFailure>)
    ensures
        match r {
            Ok(a) => spec_route(req.model()) == Ok::<ActionModel, RouteFailure>(a.model())
                && match a {
                RouteAction::Respond(resp) => resp.wf(),
                _ => true,
            },
            Err(e) => spec_route(req.model()) == Err::<ActionModel, RouteFailure>(e),
        },
{
    let url = req.url.as_slice();
    let root: [u8; 1] = [47];
    let ua_url: [u8; 11] = [47, 117, 115, 101, 114, 45, 97, 103, 101, 110, 116];
    let ua_key: [u8; 10] = [85, 115, 101, 114, 45, 65, 103, 101, 110, 116];
    let files: [u8; 7] = [47, 102, 105, 108, 101, 115, 47];
    let echo: [u8; 6] = [47, 101, 99, 104, 111, 47];
    proof {
        assert(root@ =~= root_url());
        assert(ua_url@ =~= user_agent_url());
        assert(ua_key@ =~= user_agent_key());
        assert(files@ =~= files_prefix());
        assert(echo@ =~= echo_prefix());
    }
    if crate::bytes::bytes_eq(url, root.as_slice()) {
        return Ok(RouteAction::Respond(HttpResponse::new_ok()));
    }
    if crate::bytes::bytes_eq(url, ua_url.as_slice()) {
        match lookup_header(&req.headers, ua_key.as_slice()) {
            Some(v) => {
                return Ok(RouteAction::Respond(HttpResponse::new_ok().with_body(v)));
            },
            None => {
                return Err(RouteFailure::MissingUserAgent);
            },
        }
    }
    let is_files = starts_with(url, files.as_slice());
    if is_files && matches!(req.method, HttpMethod::Get) {
        let name = copy_range(url, 7, req.url.len());
        proof {
            assert(name@ =~= req.url@.skip(7));
        }
        return Ok(RouteAction::ReadFile(name));
    }
    if is_files && matches!(req.method, HttpMethod::Post) {
        match &req.body {
            Some(b) => {
                let name = copy_range(url, 7, req.url.len());
                let data = copy_bytes(b.as_slice());
                proof {
                    assert(name@ =~= req.url@.skip(7));
                }
                return Ok(RouteAction::WriteFile(name, data));
            },
            None => {
                return Err(RouteFailure::MissingBody);
            },
        }
    }
    if starts_with(url, echo.as_slice()) {
        let text = copy_range(url, 6, req.url.len());
        proof {
            assert(text@ =~= req.url@.skip(6));
        }
        return Ok(RouteAction::Respond(HttpResponse::new_ok().with_body(text)));
    }
    Ok(RouteAction::Respond(HttpResponse::new_not_found()))
}

/// The response to a file fetch: the file's bytes under
/// `Content-Type: application/octet-stream` when the file exists, and an
/// empty `404 Not Found` when it does not.
pub fn file_read_response(contents: Option<Vec<u8>>) -> (r: HttpResponse)
    ensures
        r.wf(),
        match opt_view(contents) {
            Some(b) => r.status_code == HttpStatusCode::Okay && opt_view(r.body) == Some(b)
                && r.headers_view() == Some(seq![(content_type_key(), octet_stream_value())]),
            None => r.status_code == HttpStatusCode::NotFound && r.body is None
                && r.headers is None,
        },
{
    match contents {
        Some(bytes) => {
            let ct: [u8; 12] = [67, 111, 110, 116, 101, 110, 116, 45, 84, 121, 112, 101];
            let os: [u8; 24] = [97, 112, 112, 108, 105, 99, 97, 116, 105, 111, 110, 47, 111, 99,
                116, 101, 116, 45, 115, 116, 114, 101, 97, 109];
            proof {
                assert(ct@ =~= content_type_key());
                assert(os@ =~= octet_stream_value());
            }
            HttpResponse::new_ok().with_body(bytes).set_header(ct.as_slice(), os.as_slice())
        },
        None => HttpResponse::new_not_found(),
    }
}

/// The header key `Content-Type`.
pub open spec fn content_type_key() -> Seq<u8> {
    seq![67u8, 111u8, 110u8, 116u8, 101u8, 110u8, 116u8, 45u8, 84u8, 121u8, 112u8, 101u8]
}

/// The header value `application/octet-stream`.
pub open spec fn octet_stream_value() -> Seq<u8> {
    seq![
        97u8,
        112u8,
        112u8,
        108u8,
        105u8,
        99u8,
        97u8,
        116u8,
        105u8,
        111u8,
        110u8,
        47u8,
        111u8,
        99u8,
        116u8,
        101u8,
        116u8,
        45u8,
        115u8,
        116u8,
        114u8,
        101u8,
        97u8,
        109u8,
    ]
}

} // verus!
