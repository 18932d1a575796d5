//! HTTP responses and their exact bytes on the wire.

use vstd::prelude::*;
use vstd::string::*;
use vstd::utf8::*;

use crate::headers::{has_header_ignoring_case, header_get, header_insert, HeaderView, Headers};
use crate::text::{decimal, push_decimal};

verus! {

/// The reason phrase sent with a status code.
pub open spec fn reason_for(status: u16) -> Seq<char> {
    if status == 200 {
        "OK"@
    } else if status == 201 {
        "Created"@
    } else if status == 204 {
        "No Content"@
    } else if status == 301 {
        "Moved Permanently"@
    } else if status == 302 {
        "Found"@
    } else if status == 304 {
        "Not Modified"@
    } else if status == 400 {
        "Bad Request"@
    } else if status == 403 {
        "Forbidden"@
    } else if status == 404 {
        "Not Found"@
    } else if status == 405 {
        "Method Not Allowed"@
    } else if status == 408 {
        "Request Timeout"@
    } else if status == 413 {
        "Payload Too Large"@
    } else if status == 414 {
        "URI Too Long"@
    } else if status == 431 {
        "Request Header Fields Too Large"@
    } else if status == 500 {
        "Internal Server Error"@
    } else if status == 501 {
        "Not Implemented"@
    } else {
        "Unknown"@
    }
}

/// The reason phrase for `status` ("Unknown" for codes without one).
pub fn reason_phrase(status: u16) -> (r: &'static str)
    ensures
        r@ == reason_for(status),
{
    match status {
        200 => "OK",
        201 => "Created",
        204 => "No Content",
        301 => "Moved Permanently",
        302 => "Found",
        304 => "Not Modified",
        400 => "Bad Request",
        403 => "Forbidden",
        404 => "Not Found",
        405 => "Method Not Allowed",
        408 => "Request Timeout",
        413 => "Payload Too Large",
        414 => "URI Too Long",
        431 => "Request Header Fields Too Large",
        500 => "Internal Server Error",
        501 => "Not Implemented",
        _ => "Unknown",
    }
}

/// A response: status line, headers and body.
#[derive(Debug, Clone)]
pub struct Response {
    pub status: u16,
    pub reason: &'static str,
    pub headers: Headers,
    pub body: Vec<u8>,
}

/// A `Response` as the specification sees it.
pub ghost struct ResponseView {
    pub status: u16,
    pub reason: Seq<char>,
    pub headers: Seq<HeaderView>,
    pub body: Seq<u8>,
}

impl View for Response {
    type V = ResponseView;

    open spec fn view(&self) -> ResponseView {
        ResponseView {
            status: self.status,
            reason: self.reason@,
            headers: self.headers@,
            body: self.body@,
        }
    }
}

/// A fresh response with `status`, its reason phrase, no headers and no body.
pub open spec fn status_response(status: u16) -> ResponseView {
    ResponseView {
        status,
        reason: reason_for(status),
        headers: Seq::empty(),
        body: Seq::empty(),
    }
}

/// `r` with `value` stored under the header `name`.
pub open spec fn with_header_spec(r: ResponseView, name: Seq<char>, value: Seq<char>) -> ResponseView {
    ResponseView { headers: header_insert(r.headers, name, value), ..r }
}

/// `r` with a text body; `Content-Type` becomes plain UTF-8 text unless set.
pub open spec fn with_text_spec(r: ResponseView, text: Seq<char>) -> ResponseView {
    ResponseView {
        body: encode_utf8(text),
        headers: if header_get(r.headers, "Content-Type"@) is Some {
            r.headers
        } else {
            header_insert(r.headers, "Content-Type"@, "text/plain; charset=utf-8"@)
        },
        ..r
    }
}

/// `r` with a JSON body and `Content-Type: application/json`.
pub open spec fn with_json_spec(r: ResponseView, json: Seq<char>) -> ResponseView {
    ResponseView {
        body: encode_utf8(json),
        headers: header_insert(r.headers, "Content-Type"@, "application/json"@),
        ..r
    }
}

/// The 404 response.
pub open spec fn not_found_spec() -> ResponseView {
    with_text_spec(status_response(404), "404 not found"@)
}

/// The header lines of a table, each `name: value` and CRLF, in table order.
pub open spec fn header_lines(h: Seq<HeaderView>) -> Seq<char>
    decreases h.len(),
{
    if h.len() == 0 {
        Seq::empty()
    } else {
        header_lines(h.drop_last()) + h.last().0 + ": "@ + h.last().1 + "\r\n"@
    }
}

/// The text before the body: the status line, the headers, a
/// `Content-Length` line unless the headers set one, a `Connection` line
/// unless the headers set one, and the blank line. Header names compare
/// without regard to ASCII case, as in HTTP.
pub open spec fn head_text(r: ResponseView, keep_alive: bool) -> Seq<char> {
    "HTTP/1.1 "@ + decimal(r.status as nat) + " "@ + r.reason + "\r\n"@ + header_lines(r.headers)
        + (if has_header_ignoring_case(r.headers, "Content-Length"@) {
        Seq::empty()
    } else {
        "Content-Length: "@ + decimal(r.body.len()) + "\r\n"@
    }) + (if has_header_ignoring_case(r.headers, "Connection"@) {
        Seq::empty()
    } else {
        "Connection: "@ + (if keep_alive {
            "keep-alive"@
        } else {
            "close"@
        }) + "\r\n"@
    }) + "\r\n"@
}

/// The bytes of a response on the wire.
pub open spec fn wire_bytes(r: ResponseView, keep_alive: bool) -> Seq<u8> {
    encode_utf8(head_text(r, keep_alive)) + r.body
}

impl Response {
    /// A response with `status`, its reason phrase, no headers and no body.
    pub fn new(status: u16) -> (r: Response)
        ensures
            r@ == status_response(status),
    {
        Response { status, reason: reason_phrase(status), headers: Headers::new(), body: Vec::new() }
    }

    /// `200 OK`.
    pub fn ok() -> (r: Response)
        ensures
            r@ == status_response(200),
    {
        Response::new(200)
    }

    /// `404 Not Found` with the text body `404 not found`.
    pub fn not_found() -> (r: Response)
        ensures
            r@ == not_found_spec(),
    {
        Response::new(404).with_text("404 not found")
    }

    /// `400 Bad Request` with the text body `400 bad request: ` and `msg`.
    pub fn bad_request(msg: &str) -> (r: Response)
        ensures
            r@ == with_text_spec(status_response(400), "400 bad request: "@ + msg@),
    {
        let mut text: String = "400 bad request: ".to_owned();
        text.append(msg);
        Response::new(400).with_text(text.as_str())
    }

    /// Sets header `name` to `value`, replacing an earlier value of that name.
    pub fn with_header(self, name: &str, value: &str) -> (r: Response)
        ensures
            r@ == with_header_spec(self@, name@, value@),
    {
        let mut r = self;
        r.headers.insert(name.to_owned(), value.to_owned());
        r
    }

    /// Replaces the body.
    pub fn with_body(self, body: Vec<u8>) -> (r: Response)
        ensures
            r@ == (ResponseView { body: body@, ..self@ }),
    {
        let mut r = self;
        r.body = body;
        r
    }

    /// Sets a UTF-8 text body; sets `Content-Type` to plain text unless it is set.
    pub fn with_text(self, text: &str) -> (r: Response)
        ensures
            r@ == with_text_spec(self@, text@),
    {
        let mut r = self;
        r.body = text.as_bytes_vec();
        if !r.headers.contains_key("Content-Type") {
            r.headers.insert("Content-Type".to_owned(), "text/plain; charset=utf-8".to_owned());
        }
        r
    }

    /// Sets a JSON body and `Content-Type: application/json`.
    pub fn with_json(self, json: &str) -> (r: Response)
        ensures
            r@ == with_json_spec(self@, json@),
    {
        let mut r = self;
        r.body = json.as_bytes_vec();
        r.headers.insert("Content-Type".to_owned(), "application/json".to_owned());
        r
    }

    /// The exact bytes that go on the wire (see `head_text`).
    pub fn to_bytes(&self, keep_alive: bool) -> (out: Vec<u8>)
        ensures
            out@ == wire_bytes(self@, keep_alive),
    {
        let mut head: String = "HTTP/1.1 ".to_owned();
        push_decimal(&mut head, self.status as usize);
        head.append(" ");
        head.append(self.reason);
        head.append("\r\n");
        let ghost start = head@;
        let h = &self.headers;
        let mut i: usize = 0;
        while i < h.len()
            invariant
                i <= h@.len(),
                head@ == start + header_lines(h@.subrange(0, i as int)),
            decreases h@.len() - i,
        {
            let ghost prev = head@;
            head.append(h.name_at(i));
            head.append(": ");
            head.append(h.value_at(i));
            head.append("\r\n");
            proof {
                let t = h@.subrange(0, i + 1);
                assert(t.drop_last() == h@.subrange(0, i as int));
                assert(head@ =~= start + header_lines(t));
            }
            i = i + 1;
        }
        assert(h@.subrange(0, h@.len() as int) == h@);
        if !h.contains_ignoring_case("Content-Length") {
            head.append("Content-Length: ");
            push_decimal(&mut head, self.body.len());
            head.append("\r\n");
        }
        if !h.contains_ignoring_case("Connection") {
            head.append("Connection: ");
            head.append(if keep_alive { "keep-alive" } else { "close" });
            head.append("\r\n");
        }
        head.append("\r\n");
        assert(head@ =~= head_text(self@, keep_alive));
        let mut out = head.as_str().as_bytes_vec();
        let ghost head_bytes = out@;
        let mut j: usize = 0;
        while j < self.body.len()
            invariant
                j <= self.body@.len(),
                out@ == head_bytes + self.body@.subrange(0, j as int),
            decreases self.body@.len() - j,
        {
            out.push(self.body[j]);
            assert(out@ =~= head_bytes + self.body@.subrange(0, j + 1));
            j = j + 1;
        }
        assert(self.body@.subrange(0, self.body@.len() as int) == self.body@);
        out
    }
}

} // verus!

verus! {

/// The reason phrases, code by code: each status code the server knows is
/// sent with its fixed phrase, and any other code with `Unknown`. So a 400
/// answer starts `HTTP/1.1 400 Bad Request`.
pub proof fn lemma_reason_table(other: u16)
    ensures
        reason_for(200) == "OK"@,
        reason_for(201) == "Created"@,
        reason_for(204) == "No Content"@,
        reason_for(301) == "Moved Permanently"@,
        reason_for(302) == "Found"@,
        reason_for(304) == "Not Modified"@,
        reason_for(400) == "Bad Request"@,
        reason_for(403) == "Forbidden"@,
        reason_for(404) == "Not Found"@,
        reason_for(405) == "Method Not Allowed"@,
        reason_for(408) == "Request Timeout"@,
        reason_for(413) == "Payload Too Large"@,
        reason_for(414) == "URI Too Long"@,
        reason_for(431) == "Request Header Fields Too Large"@,
        reason_for(500) == "Internal Server Error"@,
        reason_for(501) == "Not Implemented"@,
        !(other == 200 || other == 201 || other == 204 || other == 301 || other == 302 || other
            == 304 || other == 400 || other == 403 || other == 404 || other == 405 || other == 408
            || other == 413 || other == 414 || other == 431 || other == 500 || other == 501)
            ==> reason_for(other) == "Unknown"@,
        head_text(status_response(400), false).subrange(0, 26) == "HTTP/1.1 400 Bad Request\r\n"@,
{
    reveal_strlit("HTTP/1.1 400 Bad Request\r\n");
    reveal_strlit("HTTP/1.1 ");
    reveal_strlit(" ");
    reveal_strlit("Bad Request");
    reveal_strlit("\r\n");
    reveal_with_fuel(decimal, 3);
    let h = head_text(status_response(400), false);
    let line = "HTTP/1.1 "@ + decimal(400) + " "@ + "Bad Request"@ + "\r\n"@;
    assert(decimal(400) =~= seq!['4', '0', '0']);
    assert(line =~= "HTTP/1.1 400 Bad Request\r\n"@);
    assert(h.subrange(0, 26) =~= line);
}

} // verus!
