//! Hearth: a small HTTP/1.1 server library. Requests are parsed from the
//! bytes of a connection, routed to handlers or to a static file server,
//! and answered with responses serialized to exact bytes.

pub mod headers;
pub mod parse;
pub mod parse_laws;
pub mod paths;
pub mod request;
pub mod response;
pub mod router;
pub mod server;
pub mod static_files;
pub mod text;

pub use headers::Headers;
pub use request::{Method, ParseError, Request};
pub use response::Response;
pub use router::{Dispatch, FileLookup, Handler, Router};
pub use server::Server;
pub use static_files::StaticServer;

use vstd::prelude::*;
use vstd::slice::slice_to_vec;

use request::{header_of, RequestView};
use response::{status_response, with_header_spec, with_json_spec, ResponseView};

verus! {

/// The answer of the health route.
pub open spec fn health_response() -> ResponseView {
    with_json_spec(status_response(200), "{\"status\":\"ok\"}"@)
}

/// The answer of the echo route: `200 OK` with the request's body and its
/// `Content-Type` (`application/octet-stream` when it has none).
pub open spec fn echo_response(req: RequestView) -> ResponseView {
    ResponseView {
        body: req.body,
        ..with_header_spec(
            status_response(200),
            "Content-Type"@,
            match header_of(req, "content-type"@) {
                Some(v) => v,
                None => "application/octet-stream"@,
            },
        )
    }
}

/// Answers the health route.
fn health_handler(_req: &Request) -> (resp: Response)
    ensures
        resp@ == health_response(),
{
    Response::ok().with_json("{\"status\":\"ok\"}")
}

/// Answers the echo route.
fn echo_handler(req: &Request) -> (resp: Response)
    ensures
        resp@ == echo_response(req@),
{
    let content_type = match req.header("content-type") {
        Some(v) => v,
        None => "application/octet-stream",
    };
    Response::ok().with_header("Content-Type", content_type).with_body(
        slice_to_vec(req.body.as_slice()),
    )
}

/// The router that Hearth's command line serves: the files below `dir`,
/// plus `GET /health` and `POST /echo`.
pub fn build_router(dir: &str) -> (r: Router)
    ensures
        r.static_root() == Some(dir@),
        r.handler_for(Method::Get, "/health"@) matches Some(h) && forall|req: &Request, resp: Response|
            #[trigger] h.answers(req, resp) ==> resp@ == health_response(),
        r.handler_for(Method::Post, "/echo"@) matches Some(h) && forall|req: &Request, resp: Response|
            #[trigger] h.answers(req, resp) ==> resp@ == echo_response(req@),
        forall|m: Method, p: Seq<char>|
            !(m == Method::Get && p == "/health"@) && !(m == Method::Post && p == "/echo"@)
                ==> #[trigger] r.handler_for(m, p) is None,
{
    let mut router = Router::new();
    router.serve_dir(dir);
    router.route(Method::Get, "/health", health_handler);
    router.route(Method::Post, "/echo", echo_handler);
    router
}

} // verus!
