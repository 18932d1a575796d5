//! HTTP/1.1 request parsing from the bytes of a connection.

use vstd::prelude::*;
use vstd::utf8::*;

use crate::headers::{header_get, lemma_header_index, HeaderView, Headers};
use crate::parse::{
    body_at, headers_at, lemma_line_at_progress, line_at, parse_headers, parse_request_line,
    read_body, read_line_limited, request_line, Progress, Step,
};
use crate::parse_laws::{
    decided, lemma_body_at_extend, lemma_body_decides_at_eof, lemma_body_end,
    lemma_headers_at_extend, lemma_headers_at_entries, lemma_headers_decide_at_eof,
    lemma_body_at_size, lemma_headers_at_count, lemma_headers_end, lemma_line_at_extend,
    entries_well_formed, entry_well_formed, names_lowercase, lemma_body_at_before_end,
    lemma_headers_at_before_end, lemma_line_at_before_end,
};
use crate::text::{
    ascii_lower, eq_ignore_ascii_case, find_char, lemma_find_char_bounds, str_eq, str_eq_ignore_ascii_case,
    to_ascii_lowercase,
};

verus! {

/// Longest request, header, or chunk-size line accepted, in bytes.
pub const MAX_REQUEST_LINE: usize = 8 * 1024;

/// Largest total size of the header block, counting two bytes of line end per line.
pub const MAX_HEADER_BYTES: usize = 64 * 1024;

/// Largest number of header lines.
pub const MAX_HEADERS: usize = 100;

/// Largest body accepted, for both `Content-Length` and chunked bodies.
pub const MAX_BODY_BYTES: usize = 10 * 1024 * 1024;

/// The request method.
#[derive(Debug, Clone, Copy, PartialEq, Eq, Hash, Structural)]
pub enum Method {
    Get,
    Post,
    Put,
    Delete,
    Head,
    Options,
    Patch,
    Other,
}

impl Method {
    /// The method that a request-line token names; unknown tokens are `Other`.
    pub open spec fn from_token(s: Seq<char>) -> Method {
        if s == "GET"@ {
            Method::Get
        } else if s == "POST"@ {
            Method::Post
        } else if s == "PUT"@ {
            Method::Put
        } else if s == "DELETE"@ {
            Method::Delete
        } else if s == "HEAD"@ {
            Method::Head
        } else if s == "OPTIONS"@ {
            Method::Options
        } else if s == "PATCH"@ {
            Method::Patch
        } else {
            Method::Other
        }
    }

    /// The name of the method.
    pub open spec fn name(self) -> Seq<char> {
        match self {
            Method::Get => "GET"@,
            Method::Post => "POST"@,
            Method::Put => "PUT"@,
            Method::Delete => "DELETE"@,
            Method::Head => "HEAD"@,
            Method::Options => "OPTIONS"@,
            Method::Patch => "PATCH"@,
            Method::Other => "OTHER"@,
        }
    }

    /// Maps a method token (case-sensitive) to a `Method`.
    pub fn parse(s: &str) -> (m: Method)
        ensures
            m == Method::from_token(s@),
    {
        if str_eq(s, "GET") {
            Method::Get
        } else if str_eq(s, "POST") {
            Method::Post
        } else if str_eq(s, "PUT") {
            Method::Put
        } else if str_eq(s, "DELETE") {
            Method::Delete
        } else if str_eq(s, "HEAD") {
            Method::Head
        } else if str_eq(s, "OPTIONS") {
            Method::Options
        } else if str_eq(s, "PATCH") {
            Method::Patch
        } else {
            Method::Other
        }
    }

    /// The method's name; `Other` is named `OTHER`.
    pub fn as_str(&self) -> (r: &'static str)
        ensures
            r@ == self.name(),
    {
        match self {
            Method::Get => "GET",
            Method::Post => "POST",
            Method::Put => "PUT",
            Method::Delete => "DELETE",
            Method::Head => "HEAD",
            Method::Options => "OPTIONS",
            Method::Patch => "PATCH",
            Method::Other => "OTHER",
        }
    }
}

/// Naming a known method and parsing the name back gives the same method,
/// and parsing a token that names a known method gives back that token.
pub proof fn lemma_method_name_roundtrip(m: Method, s: Seq<char>)
    ensures
        m != Method::Other ==> Method::from_token(m.name()) == m,
        Method::from_token(s) != Method::Other ==> Method::from_token(s).name() == s,
{
    broadcast use vstd::string::group_string_axioms;
    reveal_strlit("GET");
    reveal_strlit("POST");
    reveal_strlit("PUT");
    reveal_strlit("DELETE");
    reveal_strlit("HEAD");
    reveal_strlit("OPTIONS");
    reveal_strlit("PATCH");
    assert("GET"@.len() == 3 && "GET"@[0] == 'G');
    assert("POST"@.len() == 4 && "POST"@[0] == 'P');
    assert("PUT"@.len() == 3 && "PUT"@[0] == 'P');
    assert("DELETE"@.len() == 6);
    assert("HEAD"@.len() == 4 && "HEAD"@[0] == 'H');
    assert("OPTIONS"@.len() == 7);
    assert("PATCH"@.len() == 5);
    assert("GET"@ != "POST"@);
    assert("GET"@ != "PUT"@);
    assert("GET"@ != "DELETE"@);
    assert("GET"@ != "HEAD"@);
    assert("GET"@ != "OPTIONS"@);
    assert("GET"@ != "PATCH"@);
    assert("POST"@ != "PUT"@);
    assert("POST"@ != "DELETE"@);
    assert("POST"@ != "HEAD"@);
    assert("POST"@ != "OPTIONS"@);
    assert("POST"@ != "PATCH"@);
    assert("PUT"@ != "DELETE"@);
    assert("PUT"@ != "HEAD"@);
    assert("PUT"@ != "OPTIONS"@);
    assert("PUT"@ != "PATCH"@);
    assert("DELETE"@ != "HEAD"@);
    assert("DELETE"@ != "OPTIONS"@);
    assert("DELETE"@ != "PATCH"@);
    assert("HEAD"@ != "OPTIONS"@);
    assert("HEAD"@ != "PATCH"@);
    assert("OPTIONS"@ != "PATCH"@);
}

/// Why a request could not be parsed.
#[derive(Debug, Clone, PartialEq, Eq)]
pub enum ParseError {
    LineTooLong,
    HeadersTooLarge,
    TooManyHeaders,
    BodyTooLarge,
    Malformed(String),
    ConnectionClosed,
    Io(String),
}

/// A `ParseError` as the specification sees it.
pub ghost enum ParseFailure {
    LineTooLong,
    HeadersTooLarge,
    TooManyHeaders,
    BodyTooLarge,
    Malformed(Seq<char>),
    ConnectionClosed,
    Io(Seq<char>),
}

impl View for ParseError {
    type V = ParseFailure;

    open spec fn view(&self) -> ParseFailure {
        match self {
            ParseError::LineTooLong => ParseFailure::LineTooLong,
            ParseError::HeadersTooLarge => ParseFailure::HeadersTooLarge,
            ParseError::TooManyHeaders => ParseFailure::TooManyHeaders,
            ParseError::BodyTooLarge => ParseFailure::BodyTooLarge,
            ParseError::Malformed(s) => ParseFailure::Malformed(s@),
            ParseError::ConnectionClosed => ParseFailure::ConnectionClosed,
            ParseError::Io(s) => ParseFailure::Io(s@),
        }
    }
}

} // verus!

verus! {

/// A parsed request.
#[derive(Debug, Clone)]
pub struct Request {
    pub method: Method,
    pub raw_method: String,
    pub path: String,
    pub query: Option<String>,
    pub version: String,
    pub headers: Headers,
    pub body: Vec<u8>,
}

/// A `Request` as the specification sees it.
pub ghost struct RequestView {
    pub method: Method,
    pub raw_method: Seq<char>,
    pub path: Seq<char>,
    pub query: Option<Seq<char>>,
    pub version: Seq<char>,
    pub headers: Seq<HeaderView>,
    pub body: Seq<u8>,
}

/// The view of an optional string.
pub open spec fn opt_string_view(o: Option<String>) -> Option<Seq<char>> {
    match o {
        Some(s) => Some(s@),
        None => None,
    }
}

impl View for Request {
    type V = RequestView;

    open spec fn view(&self) -> RequestView {
        RequestView {
            method: self.method,
            raw_method: self.raw_method@,
            path: self.path@,
            query: opt_string_view(self.query),
            version: self.version@,
            headers: self.headers@,
            body: self.body@,
        }
    }
}

/// One request read from the start of the stream `s`.
///
/// The first line must not be empty (an empty first line, or a stream that
/// ends at once, is `ConnectionClosed`); it is the request line. Then come
/// the header lines and the body that they announce. The position of a
/// `Done` is just after the body: the next request starts there.
pub open spec fn request_at(s: Seq<u8>, eof: bool) -> Step<RequestView> {
    match line_at(s, 0, MAX_REQUEST_LINE as int, eof) {
        Step::Done(raw, p) => if raw.len() == 0 {
            Step::Fail(ParseFailure::ConnectionClosed)
        } else {
            match request_line(decode_utf8(raw)) {
                Err(m) => Step::Fail(ParseFailure::Malformed(m)),
                Ok((method, path, query, version)) => match headers_at(
                    s,
                    p,
                    eof,
                    0,
                    0,
                    Seq::empty(),
                ) {
                    Step::Done((headers, _), p2) => match body_at(s, p2, eof, headers) {
                        Step::Done(body, p3) => Step::Done(
                            RequestView {
                                method: Method::from_token(method),
                                raw_method: method,
                                path,
                                query,
                                version,
                                headers,
                                body,
                            },
                            p3,
                        ),
                        Step::Fail(e) => Step::Fail(e),
                        Step::More => Step::More,
                    },
                    Step::Fail(e) => Step::Fail(e),
                    Step::More => Step::More,
                },
            }
        },
        Step::Fail(e) => Step::Fail(e),
        Step::More => Step::More,
    }
}

/// The value of the header `name`, looked up case-insensitively.
pub open spec fn header_of(r: RequestView, name: Seq<char>) -> Option<Seq<char>> {
    header_get(r.headers, ascii_lower(name))
}

/// Whether the connection stays open after answering `r`: an explicit
/// `Connection: close` or `Connection: keep-alive` (any case) decides,
/// otherwise HTTP/1.1 keeps it open and HTTP/1.0 does not.
pub open spec fn keeps_alive(r: RequestView) -> bool {
    match header_of(r, "connection"@) {
        Some(v) => if eq_ignore_ascii_case(v, "close"@) {
            false
        } else if eq_ignore_ascii_case(v, "keep-alive"@) {
            true
        } else {
            r.version == "HTTP/1.1"@
        },
        None => r.version == "HTTP/1.1"@,
    }
}

/// Reads one request from the start of `input` (see `request_at`).
fn read_request(input: &[u8], eof: bool) -> (r: Progress<Request>)
    ensures
        r@ == request_at(input@, eof),
{
    let (line, p) = match read_line_limited(input, 0, MAX_REQUEST_LINE, eof) {
        Progress::Done(line, p) => (line, p),
        Progress::Fail(e) => {
            return Progress::Fail(e);
        },
        Progress::More => {
            return Progress::More;
        },
    };
    proof {
        lemma_line_at_progress(input@, 0, MAX_REQUEST_LINE as int, eof);
    }
    if line.bytes.len() == 0 {
        return Progress::Fail(ParseError::ConnectionClosed);
    }
    let (raw_method, path, query, version) = match parse_request_line(line.text.as_str()) {
        Ok(parts) => parts,
        Err(e) => {
            return Progress::Fail(e);
        },
    };
    let method = Method::parse(raw_method.as_str());
    let (headers, p2) = match parse_headers(input, p, eof) {
        Progress::Done((h, _), p2) => (h, p2),
        Progress::Fail(e) => {
            return Progress::Fail(e);
        },
        Progress::More => {
            return Progress::More;
        },
    };
    let (body, p3) = match read_body(input, p2, eof, &headers) {
        Progress::Done(b, p3) => (b, p3),
        Progress::Fail(e) => {
            return Progress::Fail(e);
        },
        Progress::More => {
            return Progress::More;
        },
    };
    let req = Request { method, raw_method, path, query, version, headers, body };
    Progress::Done(req, p3)
}

} // verus!

verus! {

/// At the end of the stream the request reader always decides.
pub proof fn lemma_request_decides_at_eof(s: Seq<u8>)
    ensures
        !(request_at(s, true) is More),
{
    lemma_line_at_progress(s, 0, MAX_REQUEST_LINE as int, true);
    if let Step::Done(raw, p) = line_at(s, 0, MAX_REQUEST_LINE as int, true) {
        lemma_headers_decide_at_eof(s, p, 0, 0, Seq::empty());
        lemma_headers_end(s, p, true, 0, 0, Seq::empty());
        if let Step::Done((h, _), p2) = headers_at(s, p, true, 0, 0, Seq::empty()) {
            lemma_body_decides_at_eof(s, p2, h);
        }
    }
}

impl Request {
    /// Parses one request from the start of `input`, taken as everything the
    /// stream will ever hold. On success also gives the number of bytes the
    /// request took: the next request on the connection starts there.
    pub fn parse(input: &[u8]) -> (r: Result<(Request, usize), ParseError>)
        ensures
            match (r, request_at(input@, true)) {
                (Ok((req, n)), Step::Done(v, p)) => req@ == v && n == p,
                (Err(e), Step::Fail(f)) => e@ == f,
                _ => false,
            },
    {
        proof {
            lemma_request_decides_at_eof(input@);
        }
        match read_request(input, true) {
            Progress::Done(req, n) => Ok((req, n)),
            Progress::Fail(e) => Err(e),
            // Never taken: at the end of the stream every reader decides.
            Progress::More => Err(ParseError::ConnectionClosed),
        }
    }

    /// Parses one request from the bytes of a connection received so far.
    /// `None` means that the request cannot be decided before more bytes
    /// arrive; otherwise the result is final (see
    /// `lemma_decided_prefix_is_final`).
    pub fn parse_prefix(input: &[u8]) -> (r: Option<Result<(Request, usize), ParseError>>)
        ensures
            match (r, request_at(input@, false)) {
                (Some(Ok((req, n))), Step::Done(v, p)) => req@ == v && n == p,
                (Some(Err(e)), Step::Fail(f)) => e@ == f,
                (None, Step::More) => true,
                _ => false,
            },
    {
        match read_request(input, false) {
            Progress::Done(req, n) => Some(Ok((req, n))),
            Progress::Fail(e) => Some(Err(e)),
            Progress::More => None,
        }
    }

    /// The value of header `name`; names compare without regard to ASCII case.
    pub fn header(&self, name: &str) -> (r: Option<&str>)
        ensures
            match r {
                Some(v) => header_of(self@, name@) == Some(v@),
                None => header_of(self@, name@) is None,
            },
    {
        let key = to_ascii_lowercase(name);
        self.headers.get(key.as_str())
    }

    /// Whether the connection should stay open after this request (see
    /// `keeps_alive`).
    pub fn keep_alive(&self) -> (r: bool)
        ensures
            r == keeps_alive(self@),
    {
        match self.header("connection") {
            Some(v) => {
                if str_eq_ignore_ascii_case(v, "close") {
                    false
                } else if str_eq_ignore_ascii_case(v, "keep-alive") {
                    true
                } else {
                    str_eq(self.version.as_str(), "HTTP/1.1")
                }
            },
            None => str_eq(self.version.as_str(), "HTTP/1.1"),
        }
    }
}

} // verus!

verus! {

/// Deciding on the bytes received so far is final: once a request, or its
/// failure, is decided from a prefix of the stream, neither the bytes that
/// arrive afterwards nor whether the stream then ends change the outcome.
/// A decided request ends within the bytes received, so the next request
/// on the connection starts right after it.
pub proof fn lemma_decided_prefix_is_final(s: Seq<u8>, t: Seq<u8>, eof: bool)
    requires
        decided(request_at(s, false)),
    ensures
        request_at(s + t, eof) == request_at(s, false),
        request_at(s, true) == request_at(s, false),
        request_at(s, false) matches Step::Done(_, n) ==> 0 <= n <= s.len(),
{
    lemma_decided_prefix_is_final_at(s, t, eof);
    lemma_decided_prefix_is_final_at(s, Seq::empty(), true);
    assert(s + Seq::<u8>::empty() == s);
}

proof fn lemma_decided_prefix_is_final_at(s: Seq<u8>, t: Seq<u8>, eof: bool)
    requires
        decided(request_at(s, false)),
    ensures
        request_at(s + t, eof) == request_at(s, false),
        request_at(s, false) matches Step::Done(_, n) ==> 0 <= n <= s.len(),
{
    lemma_line_at_progress(s, 0, MAX_REQUEST_LINE as int, false);
    lemma_line_at_extend(s, t, 0, eof);
    if let Step::Done(raw, p) = line_at(s, 0, MAX_REQUEST_LINE as int, false) {
        if raw.len() != 0 {
            if let Ok(_) = request_line(decode_utf8(raw)) {
                lemma_headers_end(s, p, false, 0, 0, Seq::empty());
                lemma_headers_at_extend(s, t, p, eof, 0, 0, Seq::empty());
                if let Step::Done((h, _), p2) = headers_at(s, p, false, 0, 0, Seq::empty()) {
                    lemma_body_at_extend(s, t, p2, eof, h);
                    lemma_body_end(s, p2, false, h);
                }
            }
        }
    }
}

} // verus!

verus! {

/// A parsed request stores its header names in lowercase, so every header
/// it carries is found by `header` under its name in any capitalization.
pub proof fn lemma_parsed_headers_found_in_any_case(s: Seq<u8>, eof: bool, name: Seq<char>)
    ensures
        request_at(s, eof) matches Step::Done(r, _) ==> {
            &&& names_lowercase(r.headers)
            &&& forall|i: int|
                0 <= i < r.headers.len() && ascii_lower(name) == ascii_lower(#[trigger] r.headers[i].0)
                    ==> header_of(r, name) is Some
        },
{
    if let Step::Done(raw, p) = line_at(s, 0, MAX_REQUEST_LINE as int, eof) {
        lemma_headers_at_entries(s, p, eof, 0, 0, Seq::empty());
    }
    if let Step::Done(r, _) = request_at(s, eof) {
        assert forall|i: int| 0 <= i < r.headers.len() implies ascii_lower(#[trigger] r.headers[i].0)
            == r.headers[i].0 by {
            assert(entry_well_formed(r.headers[i]));
        }
        assert forall|i: int|
            0 <= i < r.headers.len() && ascii_lower(name) == ascii_lower(#[trigger] r.headers[i].0)
                implies header_of(r, name) is Some by {
            lemma_header_index(r.headers, ascii_lower(name), 0);
        }
    }
}

} // verus!

verus! {

/// The text that describes a parse failure.
pub open spec fn failure_message(e: ParseFailure) -> Seq<char> {
    match e {
        ParseFailure::LineTooLong => "request line too long"@,
        ParseFailure::HeadersTooLarge => "headers too large"@,
        ParseFailure::TooManyHeaders => "too many headers"@,
        ParseFailure::BodyTooLarge => "body too large"@,
        ParseFailure::Malformed(s) => "malformed request: "@ + s,
        ParseFailure::ConnectionClosed => "connection closed before a request arrived"@,
        ParseFailure::Io(s) => "io error: "@ + s,
    }
}

impl ParseError {
    /// A description of the failure, for logs and error pages.
    pub fn message(&self) -> (r: String)
        ensures
            r@ == failure_message(self@),
    {
        match self {
            ParseError::LineTooLong => "request line too long".to_owned(),
            ParseError::HeadersTooLarge => "headers too large".to_owned(),
            ParseError::TooManyHeaders => "too many headers".to_owned(),
            ParseError::BodyTooLarge => "body too large".to_owned(),
            ParseError::Malformed(s) => {
                let mut m: String = "malformed request: ".to_owned();
                m.append(s.as_str());
                m
            },
            ParseError::ConnectionClosed => "connection closed before a request arrived".to_owned(),
            ParseError::Io(s) => {
                let mut m: String = "io error: ".to_owned();
                m.append(s.as_str());
                m
            },
        }
    }
}

} // verus!

verus! {

/// A request ends within the bytes it was read from.
pub proof fn lemma_request_end(s: Seq<u8>, eof: bool)
    ensures
        request_at(s, eof) matches Step::Done(_, n) ==> 0 <= n <= s.len(),
{
    lemma_line_at_progress(s, 0, MAX_REQUEST_LINE as int, eof);
    if let Step::Done(raw, p) = line_at(s, 0, MAX_REQUEST_LINE as int, eof) {
        lemma_headers_end(s, p, eof, 0, 0, Seq::empty());
        if let Step::Done((h, _), p2) = headers_at(s, p, eof, 0, 0, Seq::empty()) {
            lemma_body_end(s, p2, eof, h);
        }
    }
}

} // verus!

verus! {

/// Every request the parser accepts is within the limits: at most
/// `MAX_HEADERS` headers and at most `MAX_BODY_BYTES` bytes of body.
pub proof fn lemma_request_within_limits(s: Seq<u8>, eof: bool)
    ensures
        request_at(s, eof) matches Step::Done(r, _) ==> {
            &&& r.headers.len() <= MAX_HEADERS
            &&& r.body.len() <= MAX_BODY_BYTES
        },
{
    lemma_line_at_progress(s, 0, MAX_REQUEST_LINE as int, eof);
    if let Step::Done(raw, p) = line_at(s, 0, MAX_REQUEST_LINE as int, eof) {
        lemma_headers_at_count(s, p, eof, 0, 0, Seq::empty());
        lemma_headers_end(s, p, eof, 0, 0, Seq::empty());
        if let Step::Done((h, _), p2) = headers_at(s, p, eof, 0, 0, Seq::empty()) {
            lemma_body_at_size(s, p2, eof, h);
        }
    }
}

} // verus!

verus! {

/// Every request the parser accepts has the shape that the request line
/// and header rules give it: its method is the one its method token names;
/// its path starts with `/` and holds no `?` (the query is split off); its
/// version is `HTTP/1.1` or `HTTP/1.0`; every header name is non-empty,
/// holds no space, is lowercase and untrimmable, and every value is trimmed;
/// and it is within the header and body limits.
pub proof fn lemma_parsed_request_shape(s: Seq<u8>, eof: bool)
    ensures
        request_at(s, eof) matches Step::Done(r, _) ==> {
            &&& r.method == Method::from_token(r.raw_method)
            &&& r.path.len() > 0 && r.path[0] == '/'
            &&& !r.path.contains('?')
            &&& (r.version == "HTTP/1.1"@ || r.version == "HTTP/1.0"@)
            &&& entries_well_formed(r.headers)
            &&& r.headers.len() <= MAX_HEADERS
            &&& r.body.len() <= MAX_BODY_BYTES
        },
{
    lemma_request_within_limits(s, eof);
    if let Step::Done(raw, p) = line_at(s, 0, MAX_REQUEST_LINE as int, eof) {
        lemma_headers_at_entries(s, p, eof, 0, 0, Seq::empty());
        let line = decode_utf8(raw);
        if let Ok((method, path, query, version)) = request_line(line) {
            lemma_request_line_path(line);
        }
    }
}

/// The path that the request line yields starts with `/` and holds no `?`.
proof fn lemma_request_line_path(line: Seq<char>)
    ensures
        request_line(line) matches Ok((_, path, _, _)) ==> {
            &&& path.len() > 0 && path[0] == '/'
            &&& !path.contains('?')
        },
{
    let n = line.len() as int;
    lemma_find_char_bounds(line, ' ', 0);
    let e1 = match find_char(line, ' ', 0) {
        Some(i) => i,
        None => n,
    };
    lemma_find_char_bounds(line, ' ', e1 + 1);
    let e2 = match find_char(line, ' ', e1 + 1) {
        Some(i) => i,
        None => n,
    };
    let target = line.subrange(e1 + 1, e2);
    if let Ok((_, path, _, _)) = request_line(line) {
        lemma_find_char_bounds(target, '?', 0);
        match find_char(target, '?', 0) {
            Some(q) => {
                assert(q != 0);
                assert(path == target.subrange(0, q));
                assert(path[0] == target[0]);
                if path.contains('?') {
                    let j = choose|j: int| 0 <= j < path.len() && path[j] == '?';
                    assert(target[j] == '?');
                }
            },
            None => {
                assert(path == target);
            },
        }
    }
}

} // verus!

verus! {

/// A request that more bytes follow is read the same however the rest of
/// the stream arrives. If a stream `s` that is known whole starts with a
/// request that ends before `s` does, a reader that has seen only `s` and
/// does not yet know that the stream ends decides that same request; so
/// does a reader of any stream that starts with `s`, at its end or not. The
/// next request then starts right after it.
pub proof fn lemma_request_followed_by_more(s: Seq<u8>, t: Seq<u8>, eof: bool)
    ensures
        request_at(s, true) matches Step::Done(_, n) && n < s.len() ==> {
            &&& request_at(s, false) == request_at(s, true)
            &&& request_at(s + t, eof) == request_at(s, true)
        },
{
    if let Step::Done(_, n) = request_at(s, true) {
        if n < s.len() {
            lemma_request_before_end(s);
            lemma_decided_prefix_is_final(s, t, eof);
        }
    }
}

proof fn lemma_request_before_end(s: Seq<u8>)
    ensures
        request_at(s, true) matches Step::Done(_, n) && n < s.len() ==> request_at(s, false)
            == request_at(s, true),
{
    lemma_line_at_progress(s, 0, MAX_REQUEST_LINE as int, true);
    lemma_line_at_before_end(s, 0);
    if let Step::Done(raw, p) = line_at(s, 0, MAX_REQUEST_LINE as int, true) {
        if raw.len() != 0 {
            if let Ok(_) = request_line(decode_utf8(raw)) {
                lemma_headers_end(s, p, true, 0, 0, Seq::empty());
                lemma_headers_at_before_end(s, p, 0, 0, Seq::empty());
                if let Step::Done((h, _), p2) = headers_at(s, p, true, 0, 0, Seq::empty()) {
                    lemma_body_end(s, p2, true, h);
                    lemma_body_at_before_end(s, p2, h);
                }
            }
        }
    }
}

} // verus!

verus! {

/// Each method token names its own method, and each method is named by
/// its own token: `GET` is `Get`, `DELETE` is `Delete`, and so on. Tokens
/// are case-sensitive, so `get` (or any other token) is `Other`, named
/// `OTHER`.
pub proof fn lemma_method_tokens()
    ensures
        Method::from_token("GET"@) == Method::Get,
        Method::from_token("POST"@) == Method::Post,
        Method::from_token("PUT"@) == Method::Put,
        Method::from_token("DELETE"@) == Method::Delete,
        Method::from_token("HEAD"@) == Method::Head,
        Method::from_token("OPTIONS"@) == Method::Options,
        Method::from_token("PATCH"@) == Method::Patch,
        Method::Get.name() == "GET"@,
        Method::Post.name() == "POST"@,
        Method::Put.name() == "PUT"@,
        Method::Delete.name() == "DELETE"@,
        Method::Head.name() == "HEAD"@,
        Method::Options.name() == "OPTIONS"@,
        Method::Patch.name() == "PATCH"@,
        Method::from_token("get"@) == Method::Other,
        Method::from_token("CONNECT"@) == Method::Other,
        Method::Other.name() == "OTHER"@,
{
    broadcast use vstd::string::group_string_axioms;
    reveal_strlit("GET");
    reveal_strlit("POST");
    reveal_strlit("PUT");
    reveal_strlit("DELETE");
    reveal_strlit("HEAD");
    reveal_strlit("OPTIONS");
    reveal_strlit("PATCH");
    reveal_strlit("get");
    reveal_strlit("CONNECT");
    assert("GET"@.len() == 3 && "GET"@[0] == 'G');
    assert("POST"@.len() == 4 && "POST"@[0] == 'P');
    assert("PUT"@.len() == 3 && "PUT"@[0] == 'P');
    assert("DELETE"@.len() == 6 && "DELETE"@[0] == 'D');
    assert("HEAD"@.len() == 4 && "HEAD"@[0] == 'H');
    assert("OPTIONS"@.len() == 7 && "OPTIONS"@[0] == 'O');
    assert("PATCH"@.len() == 5 && "PATCH"@[0] == 'P');
    assert("get"@.len() == 3 && "get"@[0] == 'g');
    assert("CONNECT"@.len() == 7 && "CONNECT"@[0] == 'C');
}

} // verus!

verus! {

/// Whether the connection stays open: a `Connection: close` header closes
/// it and a `Connection: keep-alive` header keeps it open, in any letter
/// case and whatever the version; without the header HTTP/1.1 keeps it
/// open and HTTP/1.0 closes it.
pub proof fn lemma_keep_alive_rules(r: RequestView)
    ensures
        r.headers == seq![("connection"@, "Close"@)] ==> !keeps_alive(r),
        r.headers == seq![("connection"@, "close"@)] ==> !keeps_alive(r),
        r.headers == seq![("connection"@, "Keep-Alive"@)] ==> keeps_alive(r),
        r.headers.len() == 0 ==> (keeps_alive(r) <==> r.version == "HTTP/1.1"@),
        r.headers.len() == 0 && r.version == "HTTP/1.0"@ ==> !keeps_alive(r),
{
    broadcast use vstd::string::group_string_axioms;
    reveal_strlit("connection");
    reveal_strlit("Connection");
    reveal_strlit("Close");
    reveal_strlit("close");
    reveal_strlit("Keep-Alive");
    reveal_strlit("keep-alive");
    reveal_strlit("HTTP/1.1");
    reveal_strlit("HTTP/1.0");
    assert("HTTP/1.1"@[7] != "HTTP/1.0"@[7]);
    let key = ascii_lower("connection"@);
    assert(key =~= "connection"@) by {
        crate::text::lemma_ascii_lower_idempotent("connection"@);
        assert forall|i: int| 0 <= i < 10 implies #[trigger] key[i] == "connection"@[i] by {
            let c = "connection"@[i];
            assert(!(0x41 <= (c as u32) <= 0x5A));
            vstd::utf8::char_u32_cast(c, c as u32);
        }
    }
    assert(eq_ignore_ascii_case("Close"@, "close"@)) by {
        assert('C' as u32 == 0x43);
    }
    assert(eq_ignore_ascii_case("close"@, "close"@));
    assert(eq_ignore_ascii_case("Keep-Alive"@, "keep-alive"@)) by {
        assert('K' as u32 == 0x4B);
        assert('A' as u32 == 0x41);
    }
    assert(!eq_ignore_ascii_case("Keep-Alive"@, "close"@));
}

} // verus!
