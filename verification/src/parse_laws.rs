//! Facts about the request grammar: at the end of the stream every reader
//! decides, decisions made on a prefix of the stream are final, readers stop
//! within the bytes they read, and header names are stored in lowercase.

use vstd::prelude::*;
use vstd::utf8::*;

use crate::headers::{header_get, header_insert, HeaderView};
use crate::parse::{
    body_at, chunk_size_field, chunks_at, content_length, find_byte, header_line, headers_at,
    lemma_find_byte, lemma_line_at_progress, line_at, request_line, trailers_at, Step,
};
use crate::request::{MAX_BODY_BYTES, MAX_HEADERS, MAX_HEADER_BYTES, MAX_REQUEST_LINE};
use crate::text::{
    ascii_lower, eq_ignore_ascii_case, find_char, lemma_ascii_lower_shape, lemma_find_char_bounds,
    lemma_trim_ends, parse_unsigned, trim,
};

verus! {

/// At the end of the stream the header reader always decides.
pub proof fn lemma_headers_decide_at_eof(s: Seq<u8>, pos: int, total: int, count: int, acc: Seq<HeaderView>)
    requires
        0 <= pos <= s.len(),
    ensures
        !(headers_at(s, pos, true, total, count, acc) is More),
    decreases s.len() - pos,
{
    lemma_line_at_progress(s, pos, MAX_REQUEST_LINE as int, true);
    if let Step::Done(raw, p) = line_at(s, pos, MAX_REQUEST_LINE as int, true) {
        let t = total + raw.len() + 2;
        if t <= MAX_HEADER_BYTES && raw.len() != 0 && count + 1 <= MAX_HEADERS {
            if let Ok((name, value)) = header_line(decode_utf8(raw)) {
                lemma_headers_decide_at_eof(s, p, t, count + 1, header_insert(acc, name, value));
            }
        }
    }
}

/// At the end of the stream the trailer reader always decides.
pub proof fn lemma_trailers_decide_at_eof(s: Seq<u8>, pos: int)
    requires
        0 <= pos <= s.len(),
    ensures
        !(trailers_at(s, pos, true) is More),
    decreases s.len() - pos,
{
    lemma_line_at_progress(s, pos, MAX_REQUEST_LINE as int, true);
    if let Step::Done(raw, p) = line_at(s, pos, MAX_REQUEST_LINE as int, true) {
        if raw.len() != 0 {
            lemma_trailers_decide_at_eof(s, p);
        }
    }
}

/// At the end of the stream the chunk reader always decides.
pub proof fn lemma_chunks_decide_at_eof(s: Seq<u8>, pos: int, body: Seq<u8>)
    requires
        0 <= pos <= s.len(),
    ensures
        !(chunks_at(s, pos, true, body) is More),
    decreases s.len() - pos,
{
    lemma_line_at_progress(s, pos, MAX_REQUEST_LINE as int, true);
    if let Step::Done(raw, p) = line_at(s, pos, MAX_REQUEST_LINE as int, true) {
        let line = decode_utf8(raw);
        if let Some(size) = parse_unsigned(chunk_size_field(line), 16) {
            if size == 0 {
                lemma_trailers_decide_at_eof(s, p);
            } else if body.len() + size <= MAX_BODY_BYTES && p + size <= s.len() {
                lemma_line_at_progress(s, p + size, MAX_REQUEST_LINE as int, true);
                if let Step::Done(_, q) = line_at(s, p + size, MAX_REQUEST_LINE as int, true) {
                    lemma_chunks_decide_at_eof(s, q, body + s.subrange(p, p + size));
                }
            }
        }
    }
}

/// At the end of the stream the body reader always decides.
pub proof fn lemma_body_decides_at_eof(s: Seq<u8>, pos: int, headers: Seq<HeaderView>)
    requires
        0 <= pos <= s.len(),
    ensures
        !(body_at(s, pos, true, headers) is More),
{
    lemma_chunks_decide_at_eof(s, pos, Seq::empty());
}

/// Where the header reader stops.
pub proof fn lemma_headers_end(s: Seq<u8>, pos: int, eof: bool, total: int, count: int, acc: Seq<HeaderView>)
    requires
        0 <= pos <= s.len(),
    ensures
        headers_at(s, pos, eof, total, count, acc) matches Step::Done(_, p) ==> pos <= p <= s.len(),
    decreases s.len() - pos,
{
    lemma_line_at_progress(s, pos, MAX_REQUEST_LINE as int, eof);
    if let Step::Done(raw, p) = line_at(s, pos, MAX_REQUEST_LINE as int, eof) {
        let t = total + raw.len() + 2;
        if t <= MAX_HEADER_BYTES && raw.len() != 0 && count + 1 <= MAX_HEADERS {
            if let Ok((name, value)) = header_line(decode_utf8(raw)) {
                lemma_headers_end(s, p, eof, t, count + 1, header_insert(acc, name, value));
            }
        }
    }
}

} // verus!

verus! {

/// Whether a reader has decided.
pub open spec fn decided<T>(x: Step<T>) -> bool {
    !(x is More)
}

proof fn lemma_find_byte_extend(s: Seq<u8>, t: Seq<u8>, b: u8, from: int, to: int)
    requires
        0 <= from,
        find_byte(s, b, from, to) is Some || to <= s.len(),
    ensures
        find_byte(s + t, b, from, to) == find_byte(s, b, from, to),
    decreases to - from,
{
    if from < to && from < s.len() {
        assert((s + t)[from] == s[from]);
        if s[from] != b {
            lemma_find_byte_extend(s, t, b, from + 1, to);
        }
    }
}

/// Once a line is decided, bytes arriving later do not change it.
pub proof fn lemma_line_at_extend(s: Seq<u8>, t: Seq<u8>, pos: int, eof: bool)
    requires
        0 <= pos <= s.len(),
        decided(line_at(s, pos, MAX_REQUEST_LINE as int, false)),
    ensures
        line_at(s + t, pos, MAX_REQUEST_LINE as int, eof) == line_at(s, pos, MAX_REQUEST_LINE as int, false),
{
    let limit = MAX_REQUEST_LINE as int;
    lemma_find_byte(s, 10, pos, pos + limit + 1);
    match find_byte(s, 10, pos, pos + limit + 1) {
        Some(k) => {
            lemma_find_byte_extend(s, t, 10, pos, pos + limit + 1);
            assert((s + t).subrange(pos, k) == s.subrange(pos, k));
        },
        None => {
            lemma_find_byte_extend(s, t, 10, pos, pos + limit + 1);
        },
    }
}

/// Once the header block is decided, later bytes do not change it.
pub proof fn lemma_headers_at_extend(
    s: Seq<u8>,
    t: Seq<u8>,
    pos: int,
    eof: bool,
    total: int,
    count: int,
    acc: Seq<HeaderView>,
)
    requires
        0 <= pos <= s.len(),
        decided(headers_at(s, pos, false, total, count, acc)),
    ensures
        headers_at(s + t, pos, eof, total, count, acc) == headers_at(s, pos, false, total, count, acc),
    decreases s.len() - pos,
{
    lemma_line_at_progress(s, pos, MAX_REQUEST_LINE as int, false);
    lemma_line_at_extend(s, t, pos, eof);
    if let Step::Done(raw, p) = line_at(s, pos, MAX_REQUEST_LINE as int, false) {
        let t2 = total + raw.len() + 2;
        if t2 <= MAX_HEADER_BYTES && raw.len() != 0 && count + 1 <= MAX_HEADERS {
            if let Ok((name, value)) = header_line(decode_utf8(raw)) {
                lemma_headers_at_extend(s, t, p, eof, t2, count + 1, header_insert(acc, name, value));
            }
        }
    }
}

/// Once the trailers are decided, later bytes do not change them.
pub proof fn lemma_trailers_at_extend(s: Seq<u8>, t: Seq<u8>, pos: int, eof: bool)
    requires
        0 <= pos <= s.len(),
        decided(trailers_at(s, pos, false)),
    ensures
        trailers_at(s + t, pos, eof) == trailers_at(s, pos, false),
    decreases s.len() - pos,
{
    lemma_line_at_progress(s, pos, MAX_REQUEST_LINE as int, false);
    lemma_line_at_extend(s, t, pos, eof);
    if let Step::Done(raw, p) = line_at(s, pos, MAX_REQUEST_LINE as int, false) {
        if raw.len() != 0 {
            lemma_trailers_at_extend(s, t, p, eof);
        }
    }
}

/// Once a chunked body is decided, later bytes do not change it.
pub proof fn lemma_chunks_at_extend(s: Seq<u8>, t: Seq<u8>, pos: int, eof: bool, body: Seq<u8>)
    requires
        0 <= pos <= s.len(),
        decided(chunks_at(s, pos, false, body)),
    ensures
        chunks_at(s + t, pos, eof, body) == chunks_at(s, pos, false, body),
    decreases s.len() - pos,
{
    lemma_line_at_progress(s, pos, MAX_REQUEST_LINE as int, false);
    lemma_line_at_extend(s, t, pos, eof);
    if let Step::Done(raw, p) = line_at(s, pos, MAX_REQUEST_LINE as int, false) {
        let line = decode_utf8(raw);
        if let Some(size) = parse_unsigned(chunk_size_field(line), 16) {
            if size == 0 {
                lemma_trailers_at_extend(s, t, p, eof);
            } else if body.len() + size <= MAX_BODY_BYTES && p + size <= s.len() {
                assert((s + t).subrange(p, p + size) == s.subrange(p, p + size));
                lemma_line_at_progress(s, p + size, MAX_REQUEST_LINE as int, false);
                lemma_line_at_extend(s, t, p + size, eof);
                if let Step::Done(_, q) = line_at(s, p + size, MAX_REQUEST_LINE as int, false) {
                    lemma_chunks_at_extend(s, t, q, eof, body + s.subrange(p, p + size));
                }
            }
        }
    }
}

/// Once the body is decided, later bytes do not change it.
pub proof fn lemma_body_at_extend(s: Seq<u8>, t: Seq<u8>, pos: int, eof: bool, headers: Seq<HeaderView>)
    requires
        0 <= pos <= s.len(),
        decided(body_at(s, pos, false, headers)),
    ensures
        body_at(s + t, pos, eof, headers) == body_at(s, pos, false, headers),
{
    match header_get(headers, "transfer-encoding"@) {
        Some(te) => {
            if eq_ignore_ascii_case(te, "chunked"@) {
                lemma_chunks_at_extend(s, t, pos, eof, Seq::empty());
            }
        },
        None => {
            if let Ok(n) = content_length(headers) {
                if n > 0 && n <= MAX_BODY_BYTES && pos + n <= s.len() {
                    assert((s + t).subrange(pos, pos + n) == s.subrange(pos, pos + n));
                }
            }
        },
    }
}

} // verus!

verus! {

proof fn lemma_trailers_end(s: Seq<u8>, pos: int, eof: bool)
    requires
        0 <= pos <= s.len(),
    ensures
        trailers_at(s, pos, eof) matches Step::Done(_, p) ==> pos <= p <= s.len(),
    decreases s.len() - pos,
{
    lemma_line_at_progress(s, pos, MAX_REQUEST_LINE as int, eof);
    if let Step::Done(raw, p) = line_at(s, pos, MAX_REQUEST_LINE as int, eof) {
        if raw.len() != 0 {
            lemma_trailers_end(s, p, eof);
        }
    }
}

proof fn lemma_chunks_end(s: Seq<u8>, pos: int, eof: bool, body: Seq<u8>)
    requires
        0 <= pos <= s.len(),
    ensures
        chunks_at(s, pos, eof, body) matches Step::Done(_, p) ==> pos <= p <= s.len(),
    decreases s.len() - pos,
{
    lemma_line_at_progress(s, pos, MAX_REQUEST_LINE as int, eof);
    if let Step::Done(raw, p) = line_at(s, pos, MAX_REQUEST_LINE as int, eof) {
        let line = decode_utf8(raw);
        if let Some(size) = parse_unsigned(chunk_size_field(line), 16) {
            if size == 0 {
                lemma_trailers_end(s, p, eof);
            } else if body.len() + size <= MAX_BODY_BYTES && p + size <= s.len() {
                lemma_line_at_progress(s, p + size, MAX_REQUEST_LINE as int, eof);
                if let Step::Done(_, q) = line_at(s, p + size, MAX_REQUEST_LINE as int, eof) {
                    lemma_chunks_end(s, q, eof, body + s.subrange(p, p + size));
                }
            }
        }
    }
}

/// Where the body reader stops.
pub proof fn lemma_body_end(s: Seq<u8>, pos: int, eof: bool, headers: Seq<HeaderView>)
    requires
        0 <= pos <= s.len(),
    ensures
        body_at(s, pos, eof, headers) matches Step::Done(_, p) ==> pos <= p <= s.len(),
{
    lemma_chunks_end(s, pos, eof, Seq::empty());
}

} // verus!

verus! {

/// Every name in the table is in lowercase.
pub open spec fn names_lowercase(h: Seq<HeaderView>) -> bool {
    forall|i: int| 0 <= i < h.len() ==> ascii_lower(#[trigger] h[i].0) == h[i].0
}

/// A header entry as the parser stores it: the name is not empty, holds no
/// space, is in lowercase and has no whitespace at its ends; the value has
/// no whitespace at its ends.
pub open spec fn entry_well_formed(e: HeaderView) -> bool {
    &&& e.0.len() > 0
    &&& !e.0.contains(' ')
    &&& ascii_lower(e.0) == e.0
    &&& trim(e.0) == e.0
    &&& trim(e.1) == e.1
}

/// Every entry of the table is as the parser stores it.
pub open spec fn entries_well_formed(h: Seq<HeaderView>) -> bool {
    forall|i: int| 0 <= i < h.len() ==> entry_well_formed(#[trigger] h[i])
}

/// What a header line yields is an entry as the parser stores it.
pub proof fn lemma_header_line_well_formed(line: Seq<char>)
    ensures
        header_line(line) matches Ok(e) ==> entry_well_formed(e),
{
    if let Ok((name, value)) = header_line(line) {
        let c = find_char(line, ':', 0).unwrap();
        let raw_name = line.subrange(0, c);
        let n = trim(raw_name);
        lemma_trim_ends(raw_name);
        lemma_trim_ends(line.subrange(c + 1, line.len() as int));
        lemma_ascii_lower_shape(n);
        crate::text::lemma_ascii_lower_idempotent(n);
        lemma_trim_ends(ascii_lower(n));
    }
}

/// The header reader stores only entries as `entry_well_formed` describes.
pub proof fn lemma_headers_at_entries(
    s: Seq<u8>,
    pos: int,
    eof: bool,
    total: int,
    count: int,
    acc: Seq<HeaderView>,
)
    requires
        entries_well_formed(acc),
    ensures
        headers_at(s, pos, eof, total, count, acc) matches Step::Done((h, _), _) ==> entries_well_formed(h),
    decreases s.len() - pos,
{
    if 0 <= pos <= s.len() {
        lemma_line_at_progress(s, pos, MAX_REQUEST_LINE as int, eof);
        if let Step::Done(raw, p) = line_at(s, pos, MAX_REQUEST_LINE as int, eof) {
            let t = total + raw.len() + 2;
            if t <= MAX_HEADER_BYTES && raw.len() != 0 && count + 1 <= MAX_HEADERS {
                if let Ok((name, value)) = header_line(decode_utf8(raw)) {
                    lemma_header_line_well_formed(decode_utf8(raw));
                    let next = header_insert(acc, name, value);
                    assert(entries_well_formed(next)) by {
                        crate::headers::lemma_header_index(acc, name, 0);
                        assert forall|i: int| 0 <= i < next.len() implies entry_well_formed(
                            #[trigger] next[i],
                        ) by {
                            if i < acc.len() && next[i] != acc[i] {
                                assert(next[i] == (name, value));
                            }
                        }
                    }
                    lemma_headers_at_entries(s, p, eof, t, count + 1, next);
                }
            }
        }
    }
}

} // verus!

verus! {

/// The header reader keeps at most `MAX_HEADERS` entries.
pub proof fn lemma_headers_at_count(
    s: Seq<u8>,
    pos: int,
    eof: bool,
    total: int,
    count: int,
    acc: Seq<HeaderView>,
)
    requires
        acc.len() <= count <= MAX_HEADERS,
    ensures
        headers_at(s, pos, eof, total, count, acc) matches Step::Done((h, _), _) ==> h.len() <= MAX_HEADERS,
    decreases s.len() - pos,
{
    if 0 <= pos <= s.len() {
        lemma_line_at_progress(s, pos, MAX_REQUEST_LINE as int, eof);
        if let Step::Done(raw, p) = line_at(s, pos, MAX_REQUEST_LINE as int, eof) {
            let t = total + raw.len() + 2;
            if t <= MAX_HEADER_BYTES && raw.len() != 0 && count + 1 <= MAX_HEADERS {
                if let Ok((name, value)) = header_line(decode_utf8(raw)) {
                    let next = header_insert(acc, name, value);
                    crate::headers::lemma_header_index(acc, name, 0);
                    assert(next.len() <= acc.len() + 1);
                    lemma_headers_at_count(s, p, eof, t, count + 1, next);
                }
            }
        }
    }
}

proof fn lemma_chunks_at_size(s: Seq<u8>, pos: int, eof: bool, body: Seq<u8>)
    requires
        body.len() <= MAX_BODY_BYTES,
    ensures
        chunks_at(s, pos, eof, body) matches Step::Done(b, _) ==> b.len() <= MAX_BODY_BYTES,
    decreases s.len() - pos,
{
    if 0 <= pos <= s.len() {
        lemma_line_at_progress(s, pos, MAX_REQUEST_LINE as int, eof);
        if let Step::Done(raw, p) = line_at(s, pos, MAX_REQUEST_LINE as int, eof) {
            let line = decode_utf8(raw);
            if let Some(size) = parse_unsigned(chunk_size_field(line), 16) {
                if size != 0 && body.len() + size <= MAX_BODY_BYTES && p + size <= s.len() {
                    lemma_line_at_progress(s, p + size, MAX_REQUEST_LINE as int, eof);
                    if let Step::Done(_, q) = line_at(s, p + size, MAX_REQUEST_LINE as int, eof) {
                        lemma_chunks_at_size(s, q, eof, body + s.subrange(p, p + size));
                    }
                }
            }
        }
    }
}

/// A body that the body reader accepts has at most `MAX_BODY_BYTES` bytes.
pub proof fn lemma_body_at_size(s: Seq<u8>, pos: int, eof: bool, headers: Seq<HeaderView>)
    requires
        0 <= pos,
    ensures
        body_at(s, pos, eof, headers) matches Step::Done(b, _) ==> b.len() <= MAX_BODY_BYTES,
{
    lemma_chunks_at_size(s, pos, eof, Seq::empty());
}

} // verus!

verus! {

/// A line that the reader finishes before the end of the stream ends in a
/// `\n`, so it is read the same whether or not the stream has ended.
pub proof fn lemma_line_at_before_end(s: Seq<u8>, pos: int)
    requires
        0 <= pos <= s.len(),
    ensures
        line_at(s, pos, MAX_REQUEST_LINE as int, true) matches Step::Done(_, p) && p < s.len()
            ==> line_at(s, pos, MAX_REQUEST_LINE as int, false) == line_at(
            s,
            pos,
            MAX_REQUEST_LINE as int,
            true,
        ),
{
    lemma_find_byte(s, 10, pos, pos + MAX_REQUEST_LINE + 1);
}

/// A header block that ends before the end of the stream is read the same
/// whether or not the stream has ended.
pub proof fn lemma_headers_at_before_end(
    s: Seq<u8>,
    pos: int,
    total: int,
    count: int,
    acc: Seq<HeaderView>,
)
    requires
        0 <= pos <= s.len(),
    ensures
        headers_at(s, pos, true, total, count, acc) matches Step::Done(_, p2) && p2 < s.len()
            ==> headers_at(s, pos, false, total, count, acc) == headers_at(s, pos, true, total, count, acc),
    decreases s.len() - pos,
{
    lemma_line_at_progress(s, pos, MAX_REQUEST_LINE as int, true);
    lemma_line_at_before_end(s, pos);
    if let Step::Done(raw, p) = line_at(s, pos, MAX_REQUEST_LINE as int, true) {
        let t = total + raw.len() + 2;
        if t <= MAX_HEADER_BYTES && raw.len() != 0 && count + 1 <= MAX_HEADERS {
            if let Ok((name, value)) = header_line(decode_utf8(raw)) {
                let next = header_insert(acc, name, value);
                lemma_headers_end(s, p, true, t, count + 1, next);
                lemma_headers_at_before_end(s, p, t, count + 1, next);
            }
        }
    }
}

proof fn lemma_trailers_at_before_end(s: Seq<u8>, pos: int)
    requires
        0 <= pos <= s.len(),
    ensures
        trailers_at(s, pos, true) matches Step::Done(_, q) && q < s.len() ==> trailers_at(s, pos, false)
            == trailers_at(s, pos, true),
    decreases s.len() - pos,
{
    lemma_line_at_progress(s, pos, MAX_REQUEST_LINE as int, true);
    lemma_line_at_before_end(s, pos);
    if let Step::Done(raw, p) = line_at(s, pos, MAX_REQUEST_LINE as int, true) {
        if raw.len() != 0 {
            lemma_trailers_end(s, p, true);
            lemma_trailers_at_before_end(s, p);
        }
    }
}

proof fn lemma_chunks_at_before_end(s: Seq<u8>, pos: int, body: Seq<u8>)
    requires
        0 <= pos <= s.len(),
    ensures
        chunks_at(s, pos, true, body) matches Step::Done(_, q) && q < s.len() ==> chunks_at(
            s,
            pos,
            false,
            body,
        ) == chunks_at(s, pos, true, body),
    decreases s.len() - pos,
{
    lemma_line_at_progress(s, pos, MAX_REQUEST_LINE as int, true);
    lemma_line_at_before_end(s, pos);
    if let Step::Done(raw, p) = line_at(s, pos, MAX_REQUEST_LINE as int, true) {
        let line = decode_utf8(raw);
        if let Some(size) = parse_unsigned(chunk_size_field(line), 16) {
            if size == 0 {
                lemma_trailers_end(s, p, true);
                lemma_trailers_at_before_end(s, p);
            } else if body.len() + size <= MAX_BODY_BYTES && p + size <= s.len() {
                lemma_line_at_progress(s, p + size, MAX_REQUEST_LINE as int, true);
                lemma_line_at_before_end(s, p + size);
                if let Step::Done(_, q) = line_at(s, p + size, MAX_REQUEST_LINE as int, true) {
                    lemma_chunks_end(s, q, true, body + s.subrange(p, p + size));
                    lemma_chunks_at_before_end(s, q, body + s.subrange(p, p + size));
                }
            }
        }
    }
}

/// A body that ends before the end of the stream is read the same whether
/// or not the stream has ended.
pub proof fn lemma_body_at_before_end(s: Seq<u8>, pos: int, headers: Seq<HeaderView>)
    requires
        0 <= pos <= s.len(),
    ensures
        body_at(s, pos, true, headers) matches Step::Done(_, q) && q < s.len() ==> body_at(
            s,
            pos,
            false,
            headers,
        ) == body_at(s, pos, true, headers),
{
    lemma_chunks_at_before_end(s, pos, Seq::empty());
}

} // verus!

verus! {

/// A header line is split at its first `:`. Before it is the name, which
/// is trimmed and lowercased; after it, through the end of the line, is
/// the value, which is trimmed and may itself hold `:` (as in
/// `Host: localhost:8080` or a URL).
pub proof fn lemma_header_line_splits_at_first_colon(name: Seq<char>, value: Seq<char>)
    requires
        !name.contains(':'),
        trim(name).len() > 0,
        !trim(name).contains(' '),
    ensures
        header_line(name.push(':') + value) == Ok::<(Seq<char>, Seq<char>), Seq<char>>(
            (ascii_lower(trim(name)), trim(value)),
        ),
{
    let line = name.push(':') + value;
    let c = name.len() as int;
    lemma_find_char_bounds(line, ':', 0);
    assert(line[c] == ':');
    assert forall|j: int| 0 <= j < c implies line[j] != ':' by {
        assert(line[j] == name[j]);
        if line[j] == ':' {
            assert(name.contains(':'));
        }
    }
    assert(find_char(line, ':', 0) == Some(c));
    assert(line.subrange(0, c) =~= name);
    assert(line.subrange(c + 1, line.len() as int) =~= value);
}

} // verus!

verus! {

/// A request line of three tokens separated by single spaces is read as
/// method, target and version; the target is split at its first `?` into
/// path and query, and without a `?` it is all path.
pub proof fn lemma_request_line_tokens(
    method: Seq<char>,
    path: Seq<char>,
    query: Option<Seq<char>>,
    version: Seq<char>,
)
    requires
        method.len() > 0,
        !method.contains(' '),
        path.len() > 0 && path[0] == '/',
        !path.contains(' ') && !path.contains('?'),
        query matches Some(q) ==> !q.contains(' '),
        version == "HTTP/1.1"@ || version == "HTTP/1.0"@,
    ensures
        request_line(
            method.push(' ') + (match query {
                Some(q) => path.push('?') + q,
                None => path,
            }).push(' ') + version,
        ) == Ok::<(Seq<char>, Seq<char>, Option<Seq<char>>, Seq<char>), Seq<char>>(
            (method, path, query, version),
        ),
{
    reveal_strlit("HTTP/1.1");
    reveal_strlit("HTTP/1.0");
    let target = match query {
        Some(q) => path.push('?') + q,
        None => path,
    };
    assert(!target.contains(' ')) by {
        if target.contains(' ') {
            let j = choose|j: int| 0 <= j < target.len() && target[j] == ' ';
            if let Some(q) = query {
                if j < path.len() {
                    assert(path[j] == ' ');
                } else if j > path.len() {
                    assert(q[j - path.len() - 1] == ' ');
                }
            } else {
                assert(path[j] == ' ');
            }
        }
    }
    assert(!version.contains(' ')) by {
        if version.contains(' ') {
            let j = choose|j: int| 0 <= j < version.len() && version[j] == ' ';
        }
    }
    let line = method.push(' ') + target.push(' ') + version;
    let e1 = method.len() as int;
    let e2 = e1 + 1 + target.len();
    let n = line.len() as int;
    lemma_find_char_bounds(line, ' ', 0);
    assert forall|j: int| 0 <= j < e1 implies line[j] != ' ' by {
        assert(line[j] == method[j]);
    }
    assert(line[e1] == ' ');
    assert(find_char(line, ' ', 0) == Some(e1));
    lemma_find_char_bounds(line, ' ', e1 + 1);
    assert forall|j: int| e1 + 1 <= j < e2 implies line[j] != ' ' by {
        assert(line[j] == target[j - e1 - 1]);
    }
    assert(line[e2] == ' ');
    assert(find_char(line, ' ', e1 + 1) == Some(e2));
    lemma_find_char_bounds(line, ' ', e2 + 1);
    assert forall|j: int| e2 + 1 <= j < n implies line[j] != ' ' by {
        assert(line[j] == version[j - e2 - 1]);
    }
    assert(find_char(line, ' ', e2 + 1) is None);
    assert(line.subrange(0, e1) =~= method);
    assert(line.subrange(e1 + 1, e2) =~= target);
    assert(line.subrange(e2 + 1, n) =~= version);
    assert(target[0] == '/');
    lemma_find_char_bounds(target, '?', 0);
    match query {
        Some(q) => {
            let k = path.len() as int;
            assert forall|j: int| 0 <= j < k implies target[j] != '?' by {
                assert(target[j] == path[j]);
            }
            assert(target[k] == '?');
            assert(find_char(target, '?', 0) == Some(k));
            assert(target.subrange(0, k) =~= path);
            assert(target.subrange(k + 1, target.len() as int) =~= q);
        },
        None => {
            assert forall|j: int| 0 <= j < target.len() implies target[j] != '?' by {
                assert(target[j] == path[j]);
            }
            assert(find_char(target, '?', 0) is None);
        },
    }
}

} // verus!
