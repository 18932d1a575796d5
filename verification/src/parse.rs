//! The grammar of one HTTP/1.1 request on a byte stream, and the functions
//! that read it.
//!
//! The stream is a byte sequence `s`; `eof` says whether `s` is all that
//! will ever arrive. A reader either finishes (`Step::Done` with the value
//! and the position just after what it consumed), fails (`Step::Fail`), or,
//! when `eof` is false, reports that it cannot decide before more bytes
//! arrive (`Step::More`).

use vstd::prelude::*;
use vstd::utf8::*;

use vstd::slice::{slice_subrange, slice_to_vec};
use vstd::string::*;

use crate::headers::{header_get, header_insert, HeaderView, Headers};
use crate::request::{ParseError, ParseFailure, MAX_BODY_BYTES, MAX_HEADERS, MAX_HEADER_BYTES, MAX_REQUEST_LINE};
use crate::text::{
    ascii_lower, chars_of, eq_ignore_ascii_case, find_char, find_char_from, lemma_find_char_bounds,
    parse_unsigned, parse_usize_radix, str_eq, str_eq_ignore_ascii_case, to_ascii_lowercase, trim,
    trim_str, utf8_to_string,
};

verus! {

/// The outcome of reading something from a byte stream.
pub ghost enum Step<T> {
    Done(T, int),
    Fail(ParseFailure),
    More,
}

/// The message of the I/O error that a short read at end of stream gives.
pub open spec fn short_read_message() -> Seq<char> {
    "failed to fill whole buffer"@
}

/// Position of the first byte `b` in `s[from..to]`.
pub open spec fn find_byte(s: Seq<u8>, b: u8, from: int, to: int) -> Option<int>
    decreases to - from,
{
    if from < 0 || from >= to || from >= s.len() {
        None
    } else if s[from] == b {
        Some(from)
    } else {
        find_byte(s, b, from + 1, to)
    }
}

pub proof fn lemma_find_byte(s: Seq<u8>, b: u8, from: int, to: int)
    requires
        0 <= from,
    ensures
        find_byte(s, b, from, to) matches Some(k) ==> {
            &&& from <= k < to
            &&& k < s.len()
            &&& s[k] == b
            &&& forall|j: int| from <= j < k ==> s[j] != b
        },
        find_byte(s, b, from, to) is None ==> forall|j: int|
            from <= j < to && j < s.len() ==> s[j] != b,
    decreases to - from,
{
    if from < to && from < s.len() && s[from] != b {
        lemma_find_byte(s, b, from + 1, to);
    }
}

/// A line without its final carriage return, if it has one.
pub open spec fn strip_cr(line: Seq<u8>) -> Seq<u8> {
    if line.len() > 0 && line.last() == 13 {
        line.drop_last()
    } else {
        line
    }
}

/// Reads one line starting at `pos`: the bytes up to the first `\n`, with a
/// final `\r` removed. A line that has more than `limit` bytes before its
/// `\n` fails with `LineTooLong`. At the end of the stream the rest is the
/// line (the empty line if nothing is left).
pub open spec fn raw_line_at(s: Seq<u8>, pos: int, limit: int, eof: bool) -> Step<Seq<u8>> {
    match find_byte(s, 10, pos, pos + limit + 1) {
        Some(k) => Step::Done(strip_cr(s.subrange(pos, k)), k + 1),
        None => if s.len() - pos > limit {
            Step::Fail(ParseFailure::LineTooLong)
        } else if eof {
            Step::Done(strip_cr(s.subrange(pos, s.len() as int)), s.len() as int)
        } else {
            Step::More
        },
    }
}

/// `raw_line_at`, then the line must be valid UTF-8.
pub open spec fn line_at(s: Seq<u8>, pos: int, limit: int, eof: bool) -> Step<Seq<u8>> {
    match raw_line_at(s, pos, limit, eof) {
        Step::Done(raw, p) => if valid_utf8(raw) {
            Step::Done(raw, p)
        } else {
            Step::Fail(ParseFailure::Malformed("non-utf8 line"@))
        },
        Step::Fail(e) => Step::Fail(e),
        Step::More => Step::More,
    }
}

/// What a line read consumes: a line is at most `limit` bytes and holds no
/// `\n`; the bytes taken are the line, perhaps a `\r`, and a `\n` (or, at
/// the end of the stream, nothing more); a line that is too long fails after
/// `limit + 1` bytes, none of them a `\n`.
pub proof fn lemma_line_at_progress(s: Seq<u8>, pos: int, limit: int, eof: bool)
    requires
        0 <= pos <= s.len(),
        0 <= limit,
    ensures
        line_at(s, pos, limit, eof) matches Step::Done(raw, p) ==> {
            &&& pos <= p <= s.len()
            &&& (raw.len() > 0 ==> pos < p)
            &&& raw.len() <= p - pos
            &&& raw.len() <= limit
            &&& p - pos <= limit + 1
            &&& forall|j: int| 0 <= j < raw.len() ==> raw[j] != 10
            &&& {
                ||| s.subrange(pos, p) == raw.push(10)
                ||| s.subrange(pos, p) == raw.push(13).push(10)
                ||| (eof && p == s.len() && s.subrange(pos, p) == raw)
                ||| (eof && p == s.len() && s.subrange(pos, p) == raw.push(13))
            }
        },
        line_at(s, pos, limit, eof) == Step::<Seq<u8>>::Fail(ParseFailure::LineTooLong) <==> {
            &&& s.len() - pos > limit
            &&& forall|j: int| pos <= j <= pos + limit ==> s[j] != 10
        },
        eof ==> !(line_at(s, pos, limit, eof) is More),
{
    lemma_find_byte(s, 10, pos, pos + limit + 1);
    match find_byte(s, 10, pos, pos + limit + 1) {
        Some(k) => {
            let u = s.subrange(pos, k);
            if u.len() > 0 && u.last() == 13 {
                assert(s.subrange(pos, k + 1) =~= u.drop_last().push(13).push(10));
            } else {
                assert(s.subrange(pos, k + 1) =~= u.push(10));
            }
            assert(s[k] == 10);
        },
        None => {
            if s.len() - pos <= limit {
                let u = s.subrange(pos, s.len() as int);
                if u.len() > 0 && u.last() == 13 {
                    assert(u =~= u.drop_last().push(13));
                }
            }
        },
    }
}

/// The request line: method, path, query and version, or the message of
/// the `Malformed` error.
pub open spec fn request_line(line: Seq<char>) -> Result<
    (Seq<char>, Seq<char>, Option<Seq<char>>, Seq<char>),
    Seq<char>,
> {
    let n = line.len() as int;
    let e1 = match find_char(line, ' ', 0) {
        Some(i) => i,
        None => n,
    };
    let method = line.subrange(0, e1);
    if method.len() == 0 {
        Err("missing method"@)
    } else if e1 == n {
        Err("missing request target"@)
    } else {
        let e2 = match find_char(line, ' ', e1 + 1) {
            Some(i) => i,
            None => n,
        };
        let target = line.subrange(e1 + 1, e2);
        if target.len() == 0 {
            Err("missing request target"@)
        } else if e2 == n {
            Err("missing HTTP version"@)
        } else {
            let e3 = match find_char(line, ' ', e2 + 1) {
                Some(i) => i,
                None => n,
            };
            let version = line.subrange(e2 + 1, e3);
            if version.len() == 0 {
                Err("missing HTTP version"@)
            } else if e3 < n {
                Err("too many tokens in request line"@)
            } else if version != "HTTP/1.1"@ && version != "HTTP/1.0"@ {
                Err("unsupported version "@ + version)
            } else if target[0] != '/' {
                Err("request target must start with /"@)
            } else {
                match find_char(target, '?', 0) {
                    Some(q) => Ok(
                        (
                            method,
                            target.subrange(0, q),
                            Some(target.subrange(q + 1, target.len() as int)),
                            version,
                        ),
                    ),
                    None => Ok((method, target, None, version)),
                }
            }
        }
    }
}

/// A header line: the lowercased, trimmed name and the trimmed value, or
/// the message of the `Malformed` error.
pub open spec fn header_line(line: Seq<char>) -> Result<(Seq<char>, Seq<char>), Seq<char>> {
    match find_char(line, ':', 0) {
        None => Err("bad header line: "@ + line),
        Some(c) => {
            let name = trim(line.subrange(0, c));
            if name.len() == 0 || name.contains(' ') {
                Err("bad header name: "@ + name)
            } else {
                Ok((ascii_lower(name), trim(line.subrange(c + 1, line.len() as int))))
            }
        },
    }
}

/// Reads header lines from `pos` up to and including the blank line that
/// ends them, adding each to `acc`. `total` counts the bytes of the lines
/// read so far plus two per line; `count` counts the header lines.
pub open spec fn headers_at(
    s: Seq<u8>,
    pos: int,
    eof: bool,
    total: int,
    count: int,
    acc: Seq<HeaderView>,
) -> Step<(Seq<HeaderView>, usize)>
    decreases s.len() - pos,
{
    if pos < 0 || pos > s.len() {
        Step::More
    } else {
        match line_at(s, pos, MAX_REQUEST_LINE as int, eof) {
            Step::Done(raw, p) => {
                let t = total + raw.len() + 2;
                if t > MAX_HEADER_BYTES {
                    Step::Fail(ParseFailure::HeadersTooLarge)
                } else if raw.len() == 0 {
                    Step::Done((acc, t as usize), p)
                } else if count + 1 > MAX_HEADERS {
                    Step::Fail(ParseFailure::TooManyHeaders)
                } else {
                    match header_line(decode_utf8(raw)) {
                        Err(m) => Step::Fail(ParseFailure::Malformed(m)),
                        Ok((name, value)) => {
                            proof {
                                lemma_line_at_progress(s, pos, MAX_REQUEST_LINE as int, eof);
                            }
                            headers_at(s, p, eof, t, count + 1, header_insert(acc, name, value))
                        },
                    }
                }
            },
            Step::Fail(e) => Step::Fail(e),
            Step::More => Step::More,
        }
    }
}

/// Reads the trailer lines of a chunked body, through the blank line.
pub open spec fn trailers_at(s: Seq<u8>, pos: int, eof: bool) -> Step<()>
    decreases s.len() - pos,
{
    if pos < 0 || pos > s.len() {
        Step::More
    } else {
        match line_at(s, pos, MAX_REQUEST_LINE as int, eof) {
            Step::Done(raw, p) => if raw.len() == 0 {
                Step::Done((), p)
            } else {
                proof {
                    lemma_line_at_progress(s, pos, MAX_REQUEST_LINE as int, eof);
                }
                trailers_at(s, p, eof)
            },
            Step::Fail(e) => Step::Fail(e),
            Step::More => Step::More,
        }
    }
}

/// The size field of a chunk-size line: the text before the first `;`, trimmed.
pub open spec fn chunk_size_field(line: Seq<char>) -> Seq<char> {
    trim(
        match find_char(line, ';', 0) {
            Some(i) => line.subrange(0, i),
            None => line,
        },
    )
}

/// Reads the chunks of a chunked body from `pos`, appending their data to
/// `body`, up to and including the trailers after the last (empty) chunk.
pub open spec fn chunks_at(s: Seq<u8>, pos: int, eof: bool, body: Seq<u8>) -> Step<Seq<u8>>
    decreases s.len() - pos,
{
    if pos < 0 || pos > s.len() {
        Step::More
    } else {
        match line_at(s, pos, MAX_REQUEST_LINE as int, eof) {
            Step::Done(raw, p) => {
                let line = decode_utf8(raw);
                match parse_unsigned(chunk_size_field(line), 16) {
                    None => Step::Fail(ParseFailure::Malformed("bad chunk size: "@ + line)),
                    Some(size) => if size == 0 {
                        match trailers_at(s, p, eof) {
                            Step::Done(_, q) => Step::Done(body, q),
                            Step::Fail(e) => Step::Fail(e),
                            Step::More => Step::More,
                        }
                    } else if body.len() + size > MAX_BODY_BYTES {
                        Step::Fail(ParseFailure::BodyTooLarge)
                    } else if p + size > s.len() {
                        if eof {
                            Step::Fail(ParseFailure::Io(short_read_message()))
                        } else {
                            Step::More
                        }
                    } else {
                        proof {
                            lemma_line_at_progress(s, pos, MAX_REQUEST_LINE as int, eof);
                            lemma_line_at_progress(s, p + size, MAX_REQUEST_LINE as int, eof);
                        }
                        match line_at(s, p + size, MAX_REQUEST_LINE as int, eof) {
                            Step::Done(_, q) => chunks_at(
                                s,
                                q,
                                eof,
                                body + s.subrange(p, p + size),
                            ),
                            Step::Fail(e) => Step::Fail(e),
                            Step::More => Step::More,
                        }
                    },
                }
            },
            Step::Fail(e) => Step::Fail(e),
            Step::More => Step::More,
        }
    }
}

/// The length that the `Content-Length` header gives (0 without one), or
/// the message of the `Malformed` error.
pub open spec fn content_length(headers: Seq<HeaderView>) -> Result<nat, Seq<char>> {
    match header_get(headers, "content-length"@) {
        Some(v) => match parse_unsigned(trim(v), 10) {
            Some(n) => Ok(n),
            None => Err("bad content-length: "@ + v),
        },
        None => Ok(0),
    }
}

/// Reads the body that the headers announce, starting at `pos`.
pub open spec fn body_at(s: Seq<u8>, pos: int, eof: bool, headers: Seq<HeaderView>) -> Step<
    Seq<u8>,
> {
    match header_get(headers, "transfer-encoding"@) {
        Some(te) => if eq_ignore_ascii_case(te, "chunked"@) {
            chunks_at(s, pos, eof, Seq::empty())
        } else {
            Step::Fail(ParseFailure::Malformed("unsupported transfer-encoding: "@ + te))
        },
        None => match content_length(headers) {
            Err(m) => Step::Fail(ParseFailure::Malformed(m)),
            Ok(n) => if n > MAX_BODY_BYTES {
                Step::Fail(ParseFailure::BodyTooLarge)
            } else if n == 0 {
                Step::Done(Seq::empty(), pos)
            } else if pos + n > s.len() {
                if eof {
                    Step::Fail(ParseFailure::Io(short_read_message()))
                } else {
                    Step::More
                }
            } else {
                Step::Done(s.subrange(pos, pos + n), pos + n)
            },
        },
    }
}

} // verus!

verus! {

/// The executable counterpart of `Step`.
pub enum Progress<T> {
    Done(T, usize),
    Fail(ParseError),
    More,
}

impl<T: View> View for Progress<T> {
    type V = Step<T::V>;

    open spec fn view(&self) -> Step<T::V> {
        match self {
            Progress::Done(v, p) => Step::Done(v@, *p as int),
            Progress::Fail(e) => Step::Fail(e@),
            Progress::More => Step::More,
        }
    }
}

/// One line as read from the stream: its bytes and their decoding.
pub struct Line {
    pub bytes: Vec<u8>,
    pub text: String,
}

impl View for Line {
    type V = Seq<u8>;

    open spec fn view(&self) -> Seq<u8> {
        self.bytes@
    }
}

impl Line {
    pub open spec fn wf(&self) -> bool {
        self.text@ == decode_utf8(self.bytes@)
    }
}

fn malformed(msg: &str) -> (e: ParseError)
    ensures
        e@ == ParseFailure::Malformed(msg@),
{
    ParseError::Malformed(msg.to_owned())
}

fn malformed_with(msg: &str, detail: &str) -> (e: ParseError)
    ensures
        e@ == ParseFailure::Malformed(msg@ + detail@),
{
    let mut m: String = msg.to_owned();
    m.append(detail);
    ParseError::Malformed(m)
}

/// Reads one line of at most `limit` bytes starting at `pos` (see
/// `line_at`; `lemma_line_at_progress` spells out what it consumes).
pub fn read_line_limited(input: &[u8], pos: usize, limit: usize, eof: bool) -> (r: Progress<Line>)
    requires
        pos <= input@.len(),
    ensures
        r@ == line_at(input@, pos as int, limit as int, eof),
        r matches Progress::Done(l, _) ==> l.wf(),
        r matches Progress::Done(l, p) ==> {
            &&& l.bytes@.len() <= limit
            &&& p - pos <= limit + 1
            &&& forall|j: int| 0 <= j < l.bytes@.len() ==> l.bytes@[j] != 10
            &&& {
                ||| input@.subrange(pos as int, p as int) == l.bytes@.push(10)
                ||| input@.subrange(pos as int, p as int) == l.bytes@.push(13).push(10)
                ||| (eof && p == input@.len() && input@.subrange(pos as int, p as int) == l.bytes@)
                ||| (eof && p == input@.len() && input@.subrange(pos as int, p as int)
                    == l.bytes@.push(13))
            }
        },
        (r matches Progress::Fail(ParseError::LineTooLong)) <==> {
            &&& input@.len() - pos > limit
            &&& forall|j: int| pos <= j <= pos + limit ==> input@[j] != 10
        },
{
    proof {
        lemma_line_at_progress(input@, pos as int, limit as int, eof);
    }
    let ghost s = input@;
    let long = input.len() - pos > limit;
    let end = if long {
        pos + limit + 1
    } else {
        input.len()
    };
    let mut k = pos;
    while k < end && input[k] != 10
        invariant
            pos <= k <= end <= input@.len(),
            end == (if long { pos + limit + 1 } else { input@.len() as int }),
            long == (input@.len() - pos > limit),
            find_byte(s, 10, pos as int, pos + limit + 1) == find_byte(s, 10, k as int, pos + limit + 1),
            s == input@,
        decreases end - k,
    {
        k = k + 1;
    }
    let ghost scan = find_byte(s, 10, pos as int, pos + limit + 1);
    let (mut raw, next) = if k < end {
        assert(scan == Some(k as int));
        (slice_to_vec(slice_subrange(input, pos, k)), k + 1)
    } else {
        assert(scan is None);
        if long {
            return Progress::Fail(ParseError::LineTooLong);
        } else if eof {
            (slice_to_vec(slice_subrange(input, pos, input.len())), input.len())
        } else {
            return Progress::More;
        }
    };
    let ghost unstripped = raw@;
    if raw.len() > 0 && raw[raw.len() - 1] == 13 {
        raw.pop();
    }
    assert(raw@ == strip_cr(unstripped));
    match utf8_to_string(raw.as_slice()) {
        Some(text) => Progress::Done(Line { bytes: raw, text }, next),
        None => Progress::Fail(malformed("non-utf8 line")),
    }
}

/// Splits a request line into method, path, query and version (see
/// `request_line`).
pub fn parse_request_line(line: &str) -> (r: Result<(String, String, Option<String>, String), ParseError>)
    ensures
        match (r, request_line(line@)) {
            (Ok((m, p, q, v)), Ok((sm, sp, sq, sv))) => m@ == sm && p@ == sp && v@ == sv && match (q, sq) {
                (Some(q), Some(sq)) => q@ == sq,
                (None, None) => true,
                _ => false,
            },
            (Err(e), Err(msg)) => e@ == ParseFailure::Malformed(msg),
            _ => false,
        },
{
    let c = chars_of(line);
    let n = c.len();
    proof {
        lemma_find_char_bounds(c@, ' ', 0);
    }
    let e1 = match find_char_from(&c, ' ', 0) {
        Some(i) => i,
        None => n,
    };
    if e1 == 0 {
        return Err(malformed("missing method"));
    }
    if e1 == n {
        return Err(malformed("missing request target"));
    }
    proof {
        lemma_find_char_bounds(c@, ' ', e1 + 1);
    }
    let e2 = match find_char_from(&c, ' ', e1 + 1) {
        Some(i) => i,
        None => n,
    };
    if e2 == e1 + 1 {
        return Err(malformed("missing request target"));
    }
    if e2 == n {
        return Err(malformed("missing HTTP version"));
    }
    proof {
        lemma_find_char_bounds(c@, ' ', e2 + 1);
    }
    let e3 = match find_char_from(&c, ' ', e2 + 1) {
        Some(i) => i,
        None => n,
    };
    if e3 == e2 + 1 {
        return Err(malformed("missing HTTP version"));
    }
    if e3 < n {
        return Err(malformed("too many tokens in request line"));
    }
    let method = line.substring_char(0, e1);
    let target = line.substring_char(e1 + 1, e2);
    let version = line.substring_char(e2 + 1, e3);
    if !str_eq(version, "HTTP/1.1") && !str_eq(version, "HTTP/1.0") {
        return Err(malformed_with("unsupported version ", version));
    }
    if c[e1 + 1] != '/' {
        return Err(malformed("request target must start with /"));
    }
    let tc = chars_of(target);
    proof {
        lemma_find_char_bounds(tc@, '?', 0);
    }
    match find_char_from(&tc, '?', 0) {
        Some(q) => {
            let path = target.substring_char(0, q).to_owned();
            let query = target.substring_char(q + 1, tc.len()).to_owned();
            Ok((method.to_owned(), path, Some(query), version.to_owned()))
        },
        None => Ok((method.to_owned(), target.to_owned(), None, version.to_owned())),
    }
}

/// Splits a header line into its lowercased name and its value (see
/// `header_line`).
pub fn parse_header_line(line: &str) -> (r: Result<(String, String), ParseError>)
    ensures
        match (r, header_line(line@)) {
            (Ok((n, v)), Ok((sn, sv))) => n@ == sn && v@ == sv,
            (Err(e), Err(msg)) => e@ == ParseFailure::Malformed(msg),
            _ => false,
        },
{
    let c = chars_of(line);
    proof {
        lemma_find_char_bounds(c@, ':', 0);
    }
    match find_char_from(&c, ':', 0) {
        None => Err(malformed_with("bad header line: ", line)),
        Some(i) => {
            let name = trim_str(line.substring_char(0, i));
            let value = trim_str(line.substring_char(i + 1, c.len()));
            let nc = chars_of(name);
            proof {
                lemma_find_char_bounds(nc@, ' ', 0);
            }
            let space = find_char_from(&nc, ' ', 0);
            proof {
                if name@.contains(' ') {
                    let j = choose|j: int| 0 <= j < name@.len() && name@[j] == ' ';
                    assert(nc@[j] == ' ');
                }
                if let Some(j) = space {
                    assert(name@[j as int] == ' ');
                }
            }
            if nc.len() == 0 || space.is_some() {
                return Err(malformed_with("bad header name: ", name));
            }
            Ok((to_ascii_lowercase(name), value.to_owned()))
        },
    }
}

} // verus!

verus! {

/// Reads the header block starting at `pos` (see `headers_at`): the table
/// and the bytes that the block counts against `MAX_HEADER_BYTES`, each line
/// with two bytes for its line end, the blank line included.
pub fn parse_headers(input: &[u8], pos: usize, eof: bool) -> (r: Progress<(Headers, usize)>)
    requires
        pos <= input@.len(),
    ensures
        r matches Progress::Done(_, end) ==> pos <= end <= input@.len(),
        r@ == headers_at(input@, pos as int, eof, 0, 0, Seq::empty()),
{
    let mut p = pos;
    let mut total: usize = 0;
    let mut count: usize = 0;
    let mut headers = Headers::new();
    loop
        invariant
            pos <= p <= input@.len(),
            total <= MAX_HEADER_BYTES,
            count <= MAX_HEADERS,
            headers_at(input@, pos as int, eof, 0, 0, Seq::empty()) == headers_at(
                input@,
                p as int,
                eof,
                total as int,
                count as int,
                headers@,
            ),
        decreases input@.len() - p,
    {
        proof {
            lemma_line_at_progress(input@, p as int, MAX_REQUEST_LINE as int, eof);
        }
        match read_line_limited(input, p, MAX_REQUEST_LINE, eof) {
            Progress::Fail(e) => {
                return Progress::Fail(e);
            },
            Progress::More => {
                return Progress::More;
            },
            Progress::Done(line, q) => {
                let t = total + line.bytes.len() + 2;
                if t > MAX_HEADER_BYTES {
                    return Progress::Fail(ParseError::HeadersTooLarge);
                }
                if line.bytes.len() == 0 {
                    return Progress::Done((headers, t), q);
                }
                if count + 1 > MAX_HEADERS {
                    return Progress::Fail(ParseError::TooManyHeaders);
                }
                match parse_header_line(line.text.as_str()) {
                    Err(e) => {
                        return Progress::Fail(e);
                    },
                    Ok((name, value)) => {
                        headers.insert(name, value);
                        total = t;
                        count = count + 1;
                        p = q;
                    },
                }
            },
        }
    }
}

/// Reads the trailer lines of a chunked body (see `trailers_at`).
pub fn read_trailers(input: &[u8], pos: usize, eof: bool) -> (r: Progress<()>)
    requires
        pos <= input@.len(),
    ensures
        r matches Progress::Done(_, end) ==> pos <= end <= input@.len(),
        r@ == trailers_at(input@, pos as int, eof),
{
    let mut p = pos;
    loop
        invariant
            pos <= p <= input@.len(),
            trailers_at(input@, pos as int, eof) == trailers_at(input@, p as int, eof),
        decreases input@.len() - p,
    {
        proof {
            lemma_line_at_progress(input@, p as int, MAX_REQUEST_LINE as int, eof);
        }
        match read_line_limited(input, p, MAX_REQUEST_LINE, eof) {
            Progress::Fail(e) => {
                return Progress::Fail(e);
            },
            Progress::More => {
                return Progress::More;
            },
            Progress::Done(line, q) => {
                if line.bytes.len() == 0 {
                    return Progress::Done((), q);
                }
                p = q;
            },
        }
    }
}

/// Reads the chunks of a chunked body (see `chunks_at`).
pub fn read_chunked_body(input: &[u8], pos: usize, eof: bool) -> (r: Progress<Vec<u8>>)
    requires
        pos <= input@.len(),
    ensures
        r matches Progress::Done(_, end) ==> pos <= end <= input@.len(),
        r@ == chunks_at(input@, pos as int, eof, Seq::empty()),
{
    let mut p = pos;
    let mut body: Vec<u8> = Vec::new();
    loop
        invariant
            pos <= p <= input@.len(),
            body@.len() <= MAX_BODY_BYTES,
            chunks_at(input@, pos as int, eof, Seq::empty()) == chunks_at(
                input@,
                p as int,
                eof,
                body@,
            ),
        decreases input@.len() - p,
    {
        proof {
            lemma_line_at_progress(input@, p as int, MAX_REQUEST_LINE as int, eof);
        }
        match read_line_limited(input, p, MAX_REQUEST_LINE, eof) {
            Progress::Fail(e) => {
                return Progress::Fail(e);
            },
            Progress::More => {
                return Progress::More;
            },
            Progress::Done(line, q) => {
                let text = line.text.as_str();
                let c = chars_of(text);
                proof {
                    lemma_find_char_bounds(c@, ';', 0);
                }
                let field = match find_char_from(&c, ';', 0) {
                    Some(i) => text.substring_char(0, i),
                    None => text,
                };
                let size = match parse_usize_radix(trim_str(field), 16) {
                    Some(size) => size,
                    None => {
                        return Progress::Fail(malformed_with("bad chunk size: ", text));
                    },
                };
                if size == 0 {
                    match read_trailers(input, q, eof) {
                        Progress::Done(_, end) => {
                            return Progress::Done(body, end);
                        },
                        Progress::Fail(e) => {
                            return Progress::Fail(e);
                        },
                        Progress::More => {
                            return Progress::More;
                        },
                    }
                }
                if size > MAX_BODY_BYTES - body.len() {
                    return Progress::Fail(ParseError::BodyTooLarge);
                }
                if size > input.len() - q {
                    if eof {
                        return Progress::Fail(ParseError::Io("failed to fill whole buffer".to_owned()));
                    } else {
                        return Progress::More;
                    }
                }
                let data = slice_subrange(input, q, q + size);
                let ghost before = body@;
                let mut chunk = slice_to_vec(data);
                body.append(&mut chunk);
                assert(body@ == before + input@.subrange(q as int, q + size));
                proof {
                    lemma_line_at_progress(input@, q + size, MAX_REQUEST_LINE as int, eof);
                }
                match read_line_limited(input, q + size, MAX_REQUEST_LINE, eof) {
                    Progress::Done(_, after) => {
                        p = after;
                    },
                    Progress::Fail(e) => {
                        return Progress::Fail(e);
                    },
                    Progress::More => {
                        return Progress::More;
                    },
                }
            },
        }
    }
}

/// Reads the body that the headers announce (see `body_at`).
pub fn read_body(input: &[u8], pos: usize, eof: bool, headers: &Headers) -> (r: Progress<Vec<u8>>)
    requires
        pos <= input@.len(),
    ensures
        r matches Progress::Done(_, end) ==> pos <= end <= input@.len(),
        r@ == body_at(input@, pos as int, eof, headers@),
{
    if let Some(te) = headers.get("transfer-encoding") {
        if str_eq_ignore_ascii_case(te, "chunked") {
            return read_chunked_body(input, pos, eof);
        }
        return Progress::Fail(malformed_with("unsupported transfer-encoding: ", te));
    }
    let len = match headers.get("content-length") {
        Some(v) => match parse_usize_radix(trim_str(v), 10) {
            Some(n) => n,
            None => {
                return Progress::Fail(malformed_with("bad content-length: ", v));
            },
        },
        None => 0,
    };
    if len > MAX_BODY_BYTES {
        return Progress::Fail(ParseError::BodyTooLarge);
    }
    if len == 0 {
        return Progress::Done(Vec::new(), pos);
    }
    if len > input.len() - pos {
        if eof {
            return Progress::Fail(ParseError::Io("failed to fill whole buffer".to_owned()));
        } else {
            return Progress::More;
        }
    }
    Progress::Done(slice_to_vec(slice_subrange(input, pos, pos + len)), pos + len)
}

} // verus!
