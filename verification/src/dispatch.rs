//! The per-connection decisions of the dispatch loop.
//!
//! The loop outside the library accepts a connection, reads its bytes, and
//! hands the text here; this module decides what the connection's job does:
//! abandon the connection on a parse error (nothing is written back), answer
//! a missing route with an explicit not-found response, or hand the matched
//! handler the parsed request and a private copy of the server's default
//! response.  The caller performs the handler call and the socket write.

use vstd::prelude::*;
use crate::request::{HttpRequest, ParseError, ReqModel, assoc_set, spec_from};
use crate::response::{HttpResponse, HttpStateCode, RespModel};
use crate::router::{Router, path_segs, spec_lookup};

verus! {

/// What the job of one connection is to do.
pub enum ConnPlan<H> {
    /// The text could not be parsed: close without writing.
    Abort(ParseError),
    /// No route matched: write this response (an explicit not-found answer,
    /// rather than the default template unchanged).
    Respond(HttpResponse),
    /// A route matched: call the handler with the request and this response,
    /// then write whatever the handler left in it.
    Invoke(H, HttpRequest, HttpResponse),
}

/// Whether the read loop should ask the connection for more bytes: only
/// after a read that filled its whole buffer.  A short or empty read is
/// taken as the end of the request — a heuristic, not length-aware framing;
/// a body landing exactly on the buffer boundary forces one more read.
pub fn keep_reading(len: usize, cap: usize) -> (r: bool)
    ensures
        r == (len != 0 && len >= cap),
{
    len != 0 && len >= cap
}

/// Decide one connection's job from the raw request text, the peer address,
/// the mounted router and the server's default response.
pub fn plan_connection<H: Copy>(
    router: &Router<H>,
    raw: String,
    peer: &str,
    default_resp: &HttpResponse,
) -> (p: ConnPlan<H>)
    requires
        router.wf(),
    ensures
        match spec_from(raw@) {
            Err(pe) => p matches ConnPlan::Abort(e) && e == pe,
            Ok(m) => match spec_lookup(router@, 0, path_segs(m.uri), m.method, Seq::empty()) {
                Some(hp) => p matches ConnPlan::Invoke(h, req, resp) && h == hp.0 && req@ == (
                ReqModel { more: assoc_set(m.more, "remote_addr"@, peer@), ..m }) && resp@ == (
                RespModel { code: HttpStateCode::StatusOK, ..default_resp@ }),
                None => p matches ConnPlan::Respond(resp) && resp@ == (RespModel {
                    code: HttpStateCode::StatusNotFound,
                    ..default_resp@
                }),
            },
        },
{
    match HttpRequest::from(raw) {
        Err(e) => ConnPlan::Abort(e),
        Ok(mut req) => {
            req.set_remote_addr(peer);
            let mut resp = default_resp.duplicate();
            let method = req.get_method();
            match router.get_handler(method, req.get_uri()) {
                Ok((h, _params)) => {
                    resp.set_http_state_code(HttpStateCode::StatusOK);
                    ConnPlan::Invoke(h, req, resp)
                },
                Err(_e) => {
                    resp.set_http_state_code(HttpStateCode::StatusNotFound);
                    ConnPlan::Respond(resp)
                },
            }
        },
    }
}

} // verus!
