use hearth::request::MAX_REQUEST_LINE;
use hearth::{Method, ParseError, Request};

fn parse_str(s: &str) -> Result<Request, ParseError> {
    Request::parse(s.as_bytes()).map(|(req, _)| req)
}

#[test]
fn parses_well_formed_get() {
    let raw = "GET /hello?x=1 HTTP/1.1\r\nHost: example.com\r\nUser-Agent: test\r\n\r\n";
    let req = parse_str(raw).expect("should parse");
    assert_eq!(req.method, Method::Get);
    assert_eq!(req.path, "/hello");
    assert_eq!(req.query.as_deref(), Some("x=1"));
    assert_eq!(req.version, "HTTP/1.1");
    assert_eq!(req.header("host"), Some("example.com"));
    assert_eq!(req.header("user-agent"), Some("test"));
    assert!(req.body.is_empty());
}

#[test]
fn parses_post_with_content_length_body() {
    let raw = "POST /echo HTTP/1.1\r\nHost: h\r\nContent-Length: 11\r\n\r\nhello world";
    let req = parse_str(raw).expect("should parse");
    assert_eq!(req.method, Method::Post);
    assert_eq!(req.path, "/echo");
    assert_eq!(req.body, b"hello world");
}

#[test]
fn rejects_malformed_request_line() {
    let raw = "GARBAGE\r\n\r\n";
    let err = parse_str(raw).unwrap_err();
    assert!(matches!(err, ParseError::Malformed(_)));
}

#[test]
fn rejects_bad_method_target_missing_slash() {
    let raw = "GET foo HTTP/1.1\r\n\r\n";
    let err = parse_str(raw).unwrap_err();
    assert!(matches!(err, ParseError::Malformed(_)));
}

#[test]
fn rejects_unsupported_version() {
    let raw = "GET / HTTP/2.0\r\n\r\n";
    let err = parse_str(raw).unwrap_err();
    assert!(matches!(err, ParseError::Malformed(_)));
}

#[test]
fn rejects_oversized_request_line() {
    let long_path = "a".repeat(MAX_REQUEST_LINE + 10);
    let raw = format!("GET /{long_path} HTTP/1.1\r\n\r\n");
    let err = parse_str(&raw).unwrap_err();
    assert_eq!(err, ParseError::LineTooLong);
}

#[test]
fn empty_stream_is_connection_closed() {
    let err = parse_str("").unwrap_err();
    assert_eq!(err, ParseError::ConnectionClosed);
}

#[test]
fn keep_alive_default_for_http11() {
    let raw = "GET / HTTP/1.1\r\nHost: h\r\n\r\n";
    let req = parse_str(raw).unwrap();
    assert!(req.keep_alive());
}

#[test]
fn connection_close_header_disables_keep_alive() {
    let raw = "GET / HTTP/1.1\r\nHost: h\r\nConnection: close\r\n\r\n";
    let req = parse_str(raw).unwrap();
    assert!(!req.keep_alive());
}
