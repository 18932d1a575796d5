use hearth::parse::{parse_headers, read_line_limited, Progress};
use hearth::request::MAX_HEADERS;
use hearth::{ParseError, Response};

fn line(input: &str, limit: usize) -> Result<(String, usize), ParseError> {
    match read_line_limited(input.as_bytes(), 0, limit, true) {
        Progress::Done(l, p) => Ok((l.text, p)),
        Progress::Fail(e) => Err(e),
        Progress::More => panic!("a stream at its end always decides"),
    }
}

#[test]
fn line_reader_honours_a_small_limit() {
    assert_eq!(line("abc\r\ndef", 4), Ok(("abc".to_string(), 5)));
    assert_eq!(line("abcd\n", 4), Ok(("abcd".to_string(), 5)));
    assert_eq!(line("abcde\n", 4), Err(ParseError::LineTooLong));
    assert_eq!(line("ab", 4), Ok(("ab".to_string(), 2)));
    assert_eq!(line("", 4), Ok((String::new(), 0)));
}

#[test]
fn line_reader_waits_for_more_before_the_end() {
    match read_line_limited(b"abc", 0, 4, false) {
        Progress::More => {}
        _ => panic!("expected More"),
    }
    match read_line_limited(b"abcde", 0, 4, false) {
        Progress::Fail(ParseError::LineTooLong) => {}
        _ => panic!("expected LineTooLong"),
    }
}

#[test]
fn header_block_reports_its_byte_total() {
    let block = "a: b\r\n".repeat(MAX_HEADERS) + "\r\n";
    match parse_headers(block.as_bytes(), 0, true) {
        Progress::Done((h, total), end) => {
            assert_eq!(total, 602);
            assert_eq!(end, block.len());
            assert_eq!(h.len(), 1);
            assert_eq!(h.get("a"), Some("b"));
        }
        _ => panic!("expected a header table"),
    }
    let too_many = "a: b\r\n".repeat(MAX_HEADERS + 1) + "\r\n";
    match parse_headers(too_many.as_bytes(), 0, true) {
        Progress::Fail(ParseError::TooManyHeaders) => {}
        _ => panic!("expected TooManyHeaders"),
    }
}

#[test]
fn header_block_total_counts_the_blank_line() {
    match parse_headers(b"\r\nrest", 0, true) {
        Progress::Done((h, total), end) => {
            assert_eq!(h.len(), 0);
            assert_eq!(total, 2);
            assert_eq!(end, 2);
        }
        _ => panic!("expected an empty table"),
    }
}

fn count_lines_named(text: &str, name: &str) -> usize {
    text.split("\r\n")
        .filter(|l| match l.split_once(':') {
            Some((n, _)) => n.eq_ignore_ascii_case(name),
            None => false,
        })
        .count()
}

#[test]
fn caller_set_lengths_and_connection_are_not_repeated_in_another_case() {
    let resp = Response::ok()
        .with_header("connection", "close")
        .with_header("content-length", "0");
    let text = String::from_utf8(resp.to_bytes(true)).unwrap();
    assert_eq!(count_lines_named(&text, "Connection"), 1);
    assert_eq!(count_lines_named(&text, "Content-Length"), 1);
    assert!(text.contains("connection: close\r\n"));
    assert!(text.contains("content-length: 0\r\n"));
    assert!(!text.contains("keep-alive"));
}

#[test]
fn parsed_requests_have_the_promised_shape() {
    let raw = "PATCH /a/b?x=1?y HTTP/1.0\r\n  X-Mixed-Case  :  some value  \r\nEmpty:\r\n\r\n";
    let (req, used) = hearth::Request::parse(raw.as_bytes()).unwrap();
    assert_eq!(used, raw.len());
    assert_eq!(req.method, hearth::Method::Patch);
    assert_eq!(req.raw_method, "PATCH");
    assert_eq!(req.path, "/a/b");
    assert_eq!(req.query, Some("x=1?y".to_string()));
    assert_eq!(req.version, "HTTP/1.0");
    assert_eq!(req.headers.len(), 2);
    assert_eq!(req.headers.name_at(0), "x-mixed-case");
    assert_eq!(req.headers.value_at(0), "some value");
    assert_eq!(req.headers.name_at(1), "empty");
    assert_eq!(req.headers.value_at(1), "");
}
