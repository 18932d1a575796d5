use hearth::static_files::{content_type_for, percent_decode};
use hearth::server::Reply;
use hearth::{build_router, Dispatch, Headers, Method, Request, Response, Router, Server, StaticServer};

fn request(method: Method, path: &str, headers: &[(&str, &str)], body: &[u8]) -> Request {
    let mut h = Headers::new();
    for (k, v) in headers {
        h.insert(k.to_string(), v.to_string());
    }
    Request {
        method,
        raw_method: method.as_str().to_string(),
        path: path.to_string(),
        query: None,
        version: "HTTP/1.1".to_string(),
        headers: h,
        body: body.to_vec(),
    }
}

fn response_of(d: Dispatch) -> Response {
    match d {
        Dispatch::Respond(r) => r,
        Dispatch::Lookup(_) => panic!("expected a response"),
    }
}

fn lookup_of(d: Dispatch) -> (String, String) {
    match d {
        Dispatch::Lookup(l) => (l.root, l.relative),
        Dispatch::Respond(r) => panic!("expected a file lookup, got status {}", r.status),
    }
}

#[test]
fn static_lookups_for_get_and_head_only() {
    let mut router = Router::new();
    router.serve_dir("/srv");
    assert_eq!(
        lookup_of(router.dispatch(&request(Method::Get, "/a/b.txt", &[], b""))),
        ("/srv".to_string(), "a/b.txt".to_string())
    );
    assert_eq!(lookup_of(router.dispatch(&request(Method::Head, "//x", &[], b""))).1, "x");
    assert_eq!(response_of(router.dispatch(&request(Method::Post, "/a", &[], b""))).status, 404);
}

#[test]
fn traversal_is_refused_before_any_lookup() {
    let mut router = Router::new();
    router.serve_dir("/srv");
    for path in ["/../secret", "/sub/../../secret", "/%2e%2e/%2e%2e/etc/passwd", "/a/%2E%2E", "/.."] {
        assert_eq!(response_of(router.dispatch(&request(Method::Get, path, &[], b""))).status, 404, "{path}");
    }
    assert_eq!(StaticServer::relative_path("/.../x", false), Some(".../x".to_string()));
    assert_eq!(StaticServer::relative_path("/./x", false), Some("./x".to_string()));
    assert_eq!(StaticServer::relative_path("/a/..b", false), Some("a/..b".to_string()));
    assert_eq!(StaticServer::relative_path("/", false), Some(String::new()));
}

#[test]
fn newest_route_wins_and_routes_beat_static_files() {
    let mut router = Router::new();
    router.serve_dir("/srv");
    router.route(Method::Get, "/x", |_req| Response::ok().with_text("one"));
    router.route(Method::Get, "/x", |_req| Response::ok().with_text("two"));
    assert_eq!(response_of(router.dispatch(&request(Method::Get, "/x", &[], b""))).body, b"two");
}

#[test]
fn built_in_routes() {
    let router = build_router("/srv");
    let health = response_of(router.dispatch(&request(Method::Get, "/health", &[], b"")));
    assert_eq!(health.status, 200);
    assert_eq!(health.body, b"{\"status\":\"ok\"}");
    assert_eq!(health.headers.get("Content-Type"), Some("application/json"));

    let echo = response_of(router.dispatch(&request(Method::Post, "/echo", &[("content-type", "text/x")], b"ping")));
    assert_eq!(echo.body, b"ping");
    assert_eq!(echo.headers.get("Content-Type"), Some("text/x"));

    let plain = response_of(router.dispatch(&request(Method::Post, "/echo", &[], b"")));
    assert_eq!(plain.headers.get("Content-Type"), Some("application/octet-stream"));

    assert_eq!(lookup_of(router.dispatch(&request(Method::Get, "/echo", &[], b""))).1, "echo");
}

#[test]
fn percent_decoding() {
    assert_eq!(percent_decode("%41%42x"), "ABx");
    assert_eq!(percent_decode("/%2e"), "/.");
    assert_eq!(percent_decode("/%2"), "/%2");
    assert_eq!(percent_decode("%4"), "%4");
    assert_eq!(percent_decode("%+5x"), "\u{5}x");
    assert_eq!(percent_decode("%ffx"), "\u{FFFD}x");
    assert_eq!(percent_decode("plain/path"), "plain/path");
}

#[test]
fn content_types_by_extension() {
    assert_eq!(content_type_for("/r/style.css", false), "text/css; charset=utf-8");
    assert_eq!(content_type_for("/r/index.html", false), "text/html; charset=utf-8");
    assert_eq!(content_type_for("/r/f.woff2", false), "font/woff2");
    assert_eq!(content_type_for("/r/a.tar.gz", false), "application/octet-stream");
    assert_eq!(content_type_for("/r/.bashrc", false), "application/octet-stream");
    assert_eq!(content_type_for("/r/INDEX.HTML", false), "application/octet-stream");
    assert_eq!(content_type_for("/r/page.html/.", false), "text/html; charset=utf-8");
    assert_eq!(content_type_for("/r/x.js/", false), "text/javascript; charset=utf-8");
    assert_eq!(content_type_for("/r/..", false), "application/octet-stream");
}

#[test]
fn file_replies() {
    let found = StaticServer::reply(Some(("/r/a.css".to_string(), b"body{}".to_vec())), false);
    assert_eq!(found.status, 200);
    assert_eq!(found.headers.get("Content-Type"), Some("text/css; charset=utf-8"));
    assert_eq!(found.body, b"body{}");
    assert_eq!(StaticServer::reply(None, false).status, 404);
}

fn serve_bytes(router: &Router, raw: &str) -> String {
    use_reply(match Request::parse(raw.as_bytes()) {
        Ok((req, _)) => {
            let resp = match router.dispatch(&req) {
                Dispatch::Respond(r) => r,
                Dispatch::Lookup(_) => StaticServer::reply(None, false),
            };
            Server::after_response(&resp, req.keep_alive())
        }
        Err(e) => Server::after_parse_error(&e),
    })
}

fn use_reply(reply: Reply) -> String {
    match reply {
        Reply::Send { bytes, .. } => String::from_utf8(bytes).unwrap(),
        Reply::Close => String::new(),
    }
}

#[test]
fn health_request_end_to_end() {
    let router = build_router("/srv");
    let resp = serve_bytes(&router, "GET /health HTTP/1.1\r\nHost: localhost\r\nConnection: close\r\n\r\n");
    assert!(resp.starts_with("HTTP/1.1 200 OK\r\n"), "{resp}");
    assert!(resp.contains("\"status\":\"ok\""), "{resp}");
    assert!(resp.contains("Connection: close\r\n"), "{resp}");
}

#[test]
fn unknown_path_answered_with_404() {
    let router = build_router("/srv");
    let resp = serve_bytes(&router, "GET /does-not-exist HTTP/1.1\r\nHost: localhost\r\nConnection: close\r\n\r\n");
    assert!(resp.starts_with("HTTP/1.1 404 Not Found\r\n"), "{resp}");
}

#[test]
fn malformed_request_answered_with_400() {
    let router = build_router("/srv");
    let resp = serve_bytes(&router, "NOT A REQUEST AT ALL\r\n\r\n");
    assert!(resp.starts_with("HTTP/1.1 400"), "{resp}");
    assert!(resp.contains("400 bad request: too many tokens in request line"), "{resp}");
}
