use hearth::request::{MAX_BODY_BYTES, MAX_HEADERS};
use hearth::server::Connection;
use hearth::{Method, ParseError, Request};

fn parse_bytes(b: &[u8]) -> Result<(Request, usize), ParseError> {
    Request::parse(b)
}

fn malformed(msg: &str) -> ParseError {
    ParseError::Malformed(msg.to_string())
}

#[test]
fn chunked_body_is_reassembled_and_trailers_consumed() {
    let raw = "POST /u HTTP/1.1\r\nTransfer-Encoding: Chunked\r\n\r\n5\r\nhello\r\n6;ext=1\r\n world\r\n0\r\nX-Trailer: a\r\n\r\nNEXT";
    let (req, used) = parse_bytes(raw.as_bytes()).unwrap();
    assert_eq!(req.body, b"hello world");
    assert_eq!(&raw[used..], "NEXT");
}

#[test]
fn chunk_size_accepts_plus_sign_and_rejects_garbage() {
    let ok = "POST / HTTP/1.1\r\nTransfer-Encoding: chunked\r\n\r\n+3\r\nabc\r\n0\r\n\r\n";
    assert_eq!(parse_bytes(ok.as_bytes()).unwrap().0.body, b"abc");
    let bad = "POST / HTTP/1.1\r\nTransfer-Encoding: chunked\r\n\r\nzz\r\n";
    assert_eq!(parse_bytes(bad.as_bytes()).unwrap_err(), malformed("bad chunk size: zz"));
}

#[test]
fn chunked_body_over_limit_is_refused() {
    let raw = format!("POST / HTTP/1.1\r\nTransfer-Encoding: chunked\r\n\r\n{:x}\r\n", MAX_BODY_BYTES + 1);
    assert_eq!(parse_bytes(raw.as_bytes()).unwrap_err(), ParseError::BodyTooLarge);
}

#[test]
fn prefix_parse_waits_for_more_bytes_then_decides() {
    let full = "GET /a HTTP/1.1\r\nHost: h\r\n\r\nGET /b HTTP/1.1\r\n\r\n";
    let cut = full.find("\r\n\r\n").unwrap();
    assert!(Request::parse_prefix(&full.as_bytes()[..cut]).is_none());
    let (req, used) = Request::parse_prefix(full.as_bytes()).unwrap().unwrap();
    assert_eq!(req.path, "/a");
    let (next, _) = Request::parse_prefix(&full.as_bytes()[used..]).unwrap().unwrap();
    assert_eq!(next.path, "/b");
}

#[test]
fn prefix_parse_decides_a_too_long_line_early() {
    let raw = format!("GET /{} ", "a".repeat(9000));
    assert_eq!(Request::parse_prefix(raw.as_bytes()).unwrap().unwrap_err(), ParseError::LineTooLong);
}

#[test]
fn short_body_at_end_of_stream_is_an_io_error() {
    let raw = "POST / HTTP/1.1\r\nContent-Length: 10\r\n\r\nabc";
    assert_eq!(
        parse_bytes(raw.as_bytes()).unwrap_err(),
        ParseError::Io("failed to fill whole buffer".to_string())
    );
    assert!(Request::parse_prefix(raw.as_bytes()).is_none());
}

#[test]
fn content_length_is_trimmed_and_checked() {
    let ok = "POST / HTTP/1.1\r\nContent-Length:  +3 \r\n\r\nabcdef";
    let (req, used) = parse_bytes(ok.as_bytes()).unwrap();
    assert_eq!(req.body, b"abc");
    assert_eq!(&ok[used..], "def");
    let bad = "POST / HTTP/1.1\r\nContent-Length: abc\r\n\r\n";
    assert_eq!(parse_bytes(bad.as_bytes()).unwrap_err(), malformed("bad content-length: abc"));
    let big = format!("POST / HTTP/1.1\r\nContent-Length: {}\r\n\r\n", MAX_BODY_BYTES + 1);
    assert_eq!(parse_bytes(big.as_bytes()).unwrap_err(), ParseError::BodyTooLarge);
}

#[test]
fn unsupported_transfer_encoding_is_malformed() {
    let raw = "POST / HTTP/1.1\r\nTransfer-Encoding: gzip\r\n\r\n";
    assert_eq!(parse_bytes(raw.as_bytes()).unwrap_err(), malformed("unsupported transfer-encoding: gzip"));
}

#[test]
fn header_limits_are_enforced() {
    let mut many = String::from("GET / HTTP/1.1\r\n");
    for i in 0..=MAX_HEADERS {
        many.push_str(&format!("X-{i}: v\r\n"));
    }
    many.push_str("\r\n");
    assert_eq!(parse_bytes(many.as_bytes()).unwrap_err(), ParseError::TooManyHeaders);

    let mut large = String::from("GET / HTTP/1.1\r\n");
    for i in 0..9 {
        large.push_str(&format!("X-{i}: {}\r\n", "v".repeat(8000)));
    }
    large.push_str("\r\n");
    assert_eq!(parse_bytes(large.as_bytes()).unwrap_err(), ParseError::HeadersTooLarge);
}

#[test]
fn request_line_errors_carry_their_message() {
    assert_eq!(parse_bytes(b" GET / HTTP/1.1\r\n\r\n").unwrap_err(), malformed("missing method"));
    assert_eq!(parse_bytes(b"GET\r\n\r\n").unwrap_err(), malformed("missing request target"));
    assert_eq!(parse_bytes(b"GET /\r\n\r\n").unwrap_err(), malformed("missing HTTP version"));
    assert_eq!(
        parse_bytes(b"GET / HTTP/1.1 x\r\n\r\n").unwrap_err(),
        malformed("too many tokens in request line")
    );
    assert_eq!(parse_bytes(b"GET / HTTP/2.0\r\n\r\n").unwrap_err(), malformed("unsupported version HTTP/2.0"));
    assert_eq!(
        parse_bytes(b"GET foo HTTP/1.1\r\n\r\n").unwrap_err(),
        malformed("request target must start with /")
    );
    assert_eq!(parse_bytes(b"GET /\xff HTTP/1.1\r\n\r\n").unwrap_err(), malformed("non-utf8 line"));
}

#[test]
fn blank_first_line_is_connection_closed() {
    assert_eq!(parse_bytes(b"\r\nGET / HTTP/1.1\r\n\r\n").unwrap_err(), ParseError::ConnectionClosed);
}

#[test]
fn header_lines_are_checked_and_normalized() {
    assert_eq!(
        parse_bytes(b"GET / HTTP/1.1\r\nnocolon\r\n\r\n").unwrap_err(),
        malformed("bad header line: nocolon")
    );
    assert_eq!(
        parse_bytes(b"GET / HTTP/1.1\r\nBad Name: x\r\n\r\n").unwrap_err(),
        malformed("bad header name: Bad Name")
    );
    let raw = "GET / HTTP/1.1\r\n  X-Thing :  one \r\nx-thing: two\r\n\r\n";
    let (req, _) = parse_bytes(raw.as_bytes()).unwrap();
    assert_eq!(req.header("X-THING"), Some("two"));
    assert_eq!(req.headers.len(), 1);
    assert_eq!(req.headers.name_at(0), "x-thing");
}

#[test]
fn keep_alive_follows_version_and_connection_header() {
    let get = |raw: &str| parse_bytes(raw.as_bytes()).unwrap().0;
    assert!(!get("GET / HTTP/1.0\r\n\r\n").keep_alive());
    assert!(get("GET / HTTP/1.0\r\nConnection: Keep-Alive\r\n\r\n").keep_alive());
    assert!(!get("GET / HTTP/1.1\r\nConnection: CLOSE\r\n\r\n").keep_alive());
    assert!(get("GET / HTTP/1.1\r\nConnection: upgrade\r\n\r\n").keep_alive());
}

#[test]
fn partial_last_line_at_end_of_stream_counts() {
    let (req, used) = parse_bytes(b"GET /x HTTP/1.1\r\nHost: h").unwrap();
    assert_eq!(req.header("host"), Some("h"));
    assert_eq!(used, 24);
}

#[test]
fn method_names_round_trip() {
    for m in [Method::Get, Method::Post, Method::Put, Method::Delete, Method::Head, Method::Options, Method::Patch] {
        assert_eq!(Method::parse(m.as_str()), m);
    }
    assert_eq!(Method::parse("get"), Method::Other);
    assert_eq!(Method::Other.as_str(), "OTHER");
    let (req, _) = parse_bytes(b"BREW /pot HTTP/1.1\r\n\r\n").unwrap();
    assert_eq!(req.method, Method::Other);
    assert_eq!(req.raw_method, "BREW");
}

#[test]
fn parse_error_messages() {
    assert_eq!(ParseError::LineTooLong.message(), "request line too long");
    assert_eq!(malformed("x").message(), "malformed request: x");
    assert_eq!(ParseError::Io("boom".to_string()).message(), "io error: boom");
    assert_eq!(ParseError::ConnectionClosed.message(), "connection closed before a request arrived");
}

#[test]
fn connection_reads_pipelined_requests_in_pieces() {
    let stream = b"GET /a HTTP/1.1\r\n\r\nPOST /b HTTP/1.1\r\nContent-Length: 3\r\n\r\nxyz";
    let mut conn = Connection::new();
    let mut got = Vec::new();
    for piece in stream.chunks(5) {
        conn.receive(piece);
        while let Some(outcome) = conn.next_request() {
            got.push(outcome.unwrap());
        }
    }
    conn.receive(&[]);
    assert!(conn.finished());
    assert!(matches!(conn.next_request(), Some(Err(ParseError::ConnectionClosed))));
    assert_eq!(got.len(), 2);
    assert_eq!(got[0].path, "/a");
    assert_eq!(got[1].body, b"xyz");
}
