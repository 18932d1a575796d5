use hearth::response::reason_phrase;
use hearth::server::{response_for_parse_error, Reply};
use hearth::{Headers, ParseError, Response, Server};

#[test]
fn to_bytes_is_exact() {
    let resp = Response::ok().with_header("Content-Type", "text/plain").with_body(b"hi".to_vec());
    assert_eq!(
        resp.to_bytes(true),
        b"HTTP/1.1 200 OK\r\nContent-Type: text/plain\r\nContent-Length: 2\r\nConnection: keep-alive\r\n\r\nhi".to_vec()
    );
}

#[test]
fn caller_set_length_and_connection_are_not_repeated() {
    let resp = Response::new(204).with_header("Content-Length", "0").with_header("Connection", "close");
    let s = String::from_utf8(resp.to_bytes(true)).unwrap();
    assert_eq!(s, "HTTP/1.1 204 No Content\r\nContent-Length: 0\r\nConnection: close\r\n\r\n");
}

#[test]
fn reason_phrases() {
    assert_eq!(reason_phrase(413), "Payload Too Large");
    assert_eq!(reason_phrase(431), "Request Header Fields Too Large");
    assert_eq!(reason_phrase(299), "Unknown");
    assert_eq!(Response::new(501).reason, "Not Implemented");
}

#[test]
fn text_keeps_an_explicit_content_type_and_json_replaces_it() {
    let t = Response::ok().with_header("Content-Type", "text/html").with_text("<b>");
    assert_eq!(t.headers.get("Content-Type"), Some("text/html"));
    assert_eq!(t.body, b"<b>");
    let j = Response::ok().with_text("x").with_json("{}");
    assert_eq!(j.headers.get("Content-Type"), Some("application/json"));
    assert_eq!(j.headers.len(), 1);
}

#[test]
fn bad_request_carries_the_message() {
    let r = Response::bad_request("oops");
    assert_eq!(r.status, 400);
    assert_eq!(r.body, b"400 bad request: oops");
    assert_eq!(r.headers.get("Content-Type"), Some("text/plain; charset=utf-8"));
}

#[test]
fn parse_errors_map_to_status_codes() {
    let cases = [
        (ParseError::LineTooLong, 414, "414 request line too long"),
        (ParseError::HeadersTooLarge, 431, "431 headers too large"),
        (ParseError::TooManyHeaders, 431, "431 too many headers"),
        (ParseError::BodyTooLarge, 413, "413 body too large"),
        (ParseError::Malformed("x".to_string()), 400, "400 bad request: x"),
        (ParseError::Io("e".to_string()), 400, "400 bad request"),
    ];
    for (err, status, body) in cases {
        let r = response_for_parse_error(&err);
        assert_eq!(r.status, status);
        assert_eq!(r.body, body.as_bytes());
    }
}

#[test]
fn connection_replies() {
    assert!(matches!(Server::after_parse_error(&ParseError::ConnectionClosed), Reply::Close));
    match Server::after_parse_error(&ParseError::LineTooLong) {
        Reply::Send { bytes, keep_open } => {
            assert!(!keep_open);
            let s = String::from_utf8(bytes).unwrap();
            assert!(s.starts_with("HTTP/1.1 414 URI Too Long\r\n"));
            assert!(s.contains("Connection: close\r\n"));
        }
        Reply::Close => panic!("a parse error other than a closed connection is answered"),
    }
    match Server::after_response(&Response::ok(), true) {
        Reply::Send { bytes, keep_open } => {
            assert!(keep_open);
            assert_eq!(bytes, Response::ok().to_bytes(true));
        }
        Reply::Close => panic!("a response is always sent"),
    }
}

#[test]
fn header_table_replaces_in_place() {
    let mut h = Headers::new();
    h.insert("A".to_string(), "1".to_string());
    h.insert("B".to_string(), "2".to_string());
    h.insert("A".to_string(), "3".to_string());
    assert_eq!(h.len(), 2);
    assert_eq!(h.name_at(0), "A");
    assert_eq!(h.value_at(0), "3");
    assert_eq!(h.get("a"), None);
    assert!(h.contains_key("B"));
}
