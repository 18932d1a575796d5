use hearth::{Dispatch, Headers, Method, Request, Response, Router};

fn get(path: &str) -> Request {
    Request {
        method: Method::Get,
        raw_method: "GET".to_string(),
        path: path.to_string(),
        query: None,
        version: "HTTP/1.1".to_string(),
        headers: Headers::new(),
        body: Vec::new(),
    }
}

fn respond(d: Dispatch) -> Response {
    match d {
        Dispatch::Respond(resp) => resp,
        Dispatch::Lookup(_) => panic!("expected a response, not a file lookup"),
    }
}

#[test]
fn dispatches_registered_route() {
    let mut router = Router::new();
    router.route(Method::Get, "/hi", |_req| Response::ok().with_text("hi"));
    let resp = respond(router.dispatch(&get("/hi")));
    assert_eq!(resp.status, 200);
    assert_eq!(resp.body, b"hi");
}

#[test]
fn returns_404_for_unknown_path() {
    let router = Router::new();
    let resp = respond(router.dispatch(&get("/nope")));
    assert_eq!(resp.status, 404);
}
