use std::path::Path;

use hearth::paths::{index_candidate, is_joinable, join_path, within_root};
use hearth::static_files::content_type_for;
use hearth::server::{response_for_parse_error, Connection, Reply, Session, MAX_REQUESTS_PER_CONNECTION};
use hearth::static_files::percent_decode;
use hearth::{Dispatch, Headers, Method, ParseError, Request, Response, Router, StaticServer};

#[test]
fn within_root_agrees_with_path_starts_with() {
    let pairs = [
        ("/srv", "/srv"),
        ("/srv", "/srv/a.txt"),
        ("/srv", "/srv/sub/index.html"),
        ("/srv", "/srvx/a.txt"),
        ("/srv", "/etc/passwd"),
        ("/srv/", "/srv/a"),
        ("/srv", "/srv/"),
        ("/srv//www", "/srv/www/a"),
        ("/srv/./www", "/srv/www/a"),
        ("/", "/anything"),
        ("/a/b", "/a"),
        ("", "/a"),
        ("", "a"),
        ("./a", "./a/b"),
        ("./a", "a/b"),
        ("a", "./a/b"),
        (".", "./x"),
        ("a/..", "a/../b"),
        ("a/..", "a/b"),
    ];
    for (root, path) in pairs {
        assert_eq!(within_root(root, path, false), Path::new(path).starts_with(root), "{root:?} {path:?}");
    }
}

#[test]
fn canonical_path_outside_the_root_is_refused() {
    assert!(within_root("/srv/www", "/srv/www/index.html", false));
    assert!(!within_root("/srv/www", "/srv/www-old/index.html", false));
    assert!(!within_root("/srv/www", "/srv", false));
}

#[test]
fn join_and_index_candidate_agree_with_path_join() {
    let cases = [("/srv", "a.txt"), ("/srv/", "a.txt"), ("/srv", ""), ("", "a"), ("/srv", "/etc"), ("/srv", "sub/")];
    for (base, name) in cases {
        let expected = Path::new(base).join(name).to_str().unwrap().to_string();
        assert_eq!(join_path(base, name, false), expected, "{base:?} {name:?}");
    }
    assert_eq!(index_candidate("/srv/sub", true, false), "/srv/sub/index.html");
    assert_eq!(index_candidate("/srv/", true, false), "/srv/index.html");
    assert_eq!(index_candidate("/srv/a.txt", false, false), "/srv/a.txt");
}

#[test]
fn backslash_rules_refuse_windows_escapes() {
    assert_eq!(StaticServer::relative_path("/sub\\..\\index.html", true), None);
    assert_eq!(StaticServer::relative_path("/..\\x", true), None);
    assert_eq!(StaticServer::relative_path("/\\windows", true), None);
    assert_eq!(StaticServer::relative_path("/C:/boot.ini", true), None);
    assert_eq!(StaticServer::relative_path("/c:x", true), None);
    assert_eq!(StaticServer::relative_path("/sub%5C..%5Cindex.html", true), None);
    assert_eq!(StaticServer::relative_path("/a/b.txt", true), Some("a/b.txt".to_string()));
    assert_eq!(StaticServer::relative_path("/sub\\..\\index.html", false), Some("sub\\..\\index.html".to_string()));
    assert_eq!(StaticServer::relative_path("/C:/boot.ini", false), Some("C:/boot.ini".to_string()));
}

#[test]
fn percent_decoded_utf8_paths_read_as_text() {
    assert_eq!(percent_decode("/caf%C3%A9.html"), "/café.html");
    assert_eq!(StaticServer::relative_path("/index.html", false), Some("index.html".to_string()));
    assert_eq!(StaticServer::relative_path("/caf%C3%A9.html", false), Some("café.html".to_string()));
    assert_eq!(percent_decode("/a%FFb"), "/a\u{FFFD}b");
}

fn request(method: Method, path: &str) -> Request {
    Request {
        method,
        raw_method: method.as_str().to_string(),
        path: path.to_string(),
        query: None,
        version: "HTTP/1.1".to_string(),
        headers: Headers::new(),
        body: Vec::new(),
    }
}

fn status_of(d: Dispatch) -> u16 {
    match d {
        Dispatch::Respond(r) => r.status,
        Dispatch::Lookup(_) => panic!("expected a response"),
    }
}

fn teapot(_: &Request) -> Response {
    Response::new(418)
}

fn created(_: &Request) -> Response {
    Response::new(201)
}

#[test]
fn a_new_route_answers_its_pair_and_leaves_the_rest() {
    let mut router = Router::new();
    router.route(Method::Get, "/x", created);
    assert_eq!(status_of(router.dispatch(&request(Method::Get, "/x"))), 201);
    router.route(Method::Get, "/x", teapot);
    assert_eq!(status_of(router.dispatch(&request(Method::Get, "/x"))), 418);
    assert_eq!(status_of(router.dispatch(&request(Method::Post, "/x"))), 404);
    assert_eq!(status_of(router.dispatch(&request(Method::Get, "/y"))), 404);
}

fn sent(r: Reply) -> (Vec<u8>, bool) {
    match r {
        Reply::Send { bytes, keep_open } => (bytes, keep_open),
        Reply::Close => panic!("expected bytes to send"),
    }
}

#[test]
fn session_answers_in_order_and_stops_after_a_close() {
    let mut s = Session::new();
    assert!(s.may_serve_another());
    let first = Response::ok().with_text("one");
    let (bytes, keep) = sent(s.answered(&request(Method::Get, "/one"), &first));
    assert_eq!(bytes, first.to_bytes(true));
    assert!(keep);
    assert!(s.may_serve_another());
    let second = Response::ok().with_text("two");
    let mut closing = request(Method::Get, "/two");
    closing.headers.insert("connection".to_string(), "Close".to_string());
    let (bytes, keep) = sent(s.answered(&closing, &second));
    assert_eq!(bytes, second.to_bytes(false));
    assert!(!keep);
    assert!(!s.may_serve_another());
}

#[test]
fn session_refuses_bad_requests_and_closes() {
    let mut s = Session::new();
    let (bytes, keep) = sent(s.refused(&ParseError::TooManyHeaders));
    assert!(String::from_utf8(bytes).unwrap().starts_with("HTTP/1.1 431 "));
    assert!(!keep);
    assert!(!s.may_serve_another());
    let mut quiet = Session::new();
    assert!(matches!(quiet.refused(&ParseError::ConnectionClosed), Reply::Close));
    assert!(!quiet.may_serve_another());
}

#[test]
fn session_takes_at_most_the_request_cap() {
    let mut s = Session::new();
    let resp = Response::ok();
    let req = request(Method::Get, "/");
    let mut served = 0;
    while s.may_serve_another() {
        let _ = s.answered(&req, &resp);
        served += 1;
    }
    assert_eq!(served, MAX_REQUESTS_PER_CONNECTION);
    let mut failed = Session::new();
    failed.write_failed();
    assert!(!failed.may_serve_another());
}

#[test]
fn windows_separators_split_components_and_names() {
    let root = "\\\\?\\C:\\srv\\www";
    assert!(within_root(root, "\\\\?\\C:\\srv\\www\\index.html", true));
    assert!(within_root(root, "\\\\?\\C:\\srv\\www", true));
    assert!(!within_root(root, "\\\\?\\C:\\srv\\www-old\\index.html", true));
    assert!(!within_root(root, "\\\\?\\C:\\srv", true));
    assert!(!within_root(root, "\\\\?\\D:\\srv\\www\\a", true));
    assert_eq!(join_path("C:\\srv", "sub/a.txt", true), "C:\\srv\\sub/a.txt");
    assert_eq!(join_path("C:\\srv\\", "a.txt", true), "C:\\srv\\a.txt");
    assert_eq!(index_candidate("C:\\srv\\sub", true, true), "C:\\srv\\sub\\index.html");
    assert!(is_joinable("sub/a.txt", true));
    assert!(!is_joinable("\\x", true));
    assert!(!is_joinable("C:x", true));
    assert!(is_joinable("/x", false));
    assert_eq!(content_type_for("C:\\srv\\.bashrc", true), "application/octet-stream");
    assert_eq!(content_type_for("C:\\srv\\a.css", true), "text/css; charset=utf-8");
    assert_eq!(content_type_for("C:\\srv.d\\README", true), "application/octet-stream");
    assert_eq!(content_type_for("/srv/dir\\.bashrc", false), "application/octet-stream");
    assert_eq!(content_type_for("/srv.d/a\\b", false), "application/octet-stream");
    assert_eq!(content_type_for("/srv/a\\b.js", false), "text/javascript; charset=utf-8");
}

fn serve_stream(pieces: &[&[u8]]) -> (Vec<u8>, usize) {
    let mut conn = Connection::new();
    let mut session = Session::new();
    let mut out = Vec::new();
    let mut next_piece = 0;
    let mut answered = 0;
    while session.may_serve_another() {
        let outcome = loop {
            if let Some(o) = conn.next_request() {
                break o;
            }
            if next_piece < pieces.len() {
                conn.receive(pieces[next_piece]);
                next_piece += 1;
            } else {
                conn.receive(b"");
            }
        };
        let reply = match outcome {
            Ok(req) => {
                answered += 1;
                let resp = Response::ok().with_text(&req.path);
                session.answered(&req, &resp)
            }
            Err(e) => session.refused(&e),
        };
        if let Reply::Send { bytes, .. } = reply {
            out.extend_from_slice(&bytes);
        }
    }
    (out, answered)
}

#[test]
fn a_connection_answers_requests_in_order_until_one_closes() {
    let stream: &[u8] = b"GET /a HTTP/1.1\r\n\r\nGET /b HTTP/1.1\r\nConnection: close\r\n\r\nGET /c HTTP/1.1\r\n\r\n";
    let mut expected = Response::ok().with_text("/a").to_bytes(true);
    expected.extend(Response::ok().with_text("/b").to_bytes(false));
    assert_eq!(serve_stream(&[stream]), (expected.clone(), 2));
    let pieces: Vec<&[u8]> = stream.chunks(3).collect();
    assert_eq!(serve_stream(&pieces), (expected, 2));
}

#[test]
fn a_connection_answers_a_bad_request_and_closes() {
    let stream: &[u8] = b"GET /a HTTP/1.1\r\n\r\nGARBAGE\r\n\r\nGET /c HTTP/1.1\r\n\r\n";
    let mut expected = Response::ok().with_text("/a").to_bytes(true);
    expected.extend(response_for_parse_error(&ParseError::Malformed("missing request target".to_string())).to_bytes(false));
    assert_eq!(serve_stream(&[stream]), (expected, 1));
    let quiet: &[u8] = b"GET /a HTTP/1.1\r\n\r\n";
    assert_eq!(serve_stream(&[quiet]), (Response::ok().with_text("/a").to_bytes(true), 1));
}
