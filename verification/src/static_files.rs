//! Static file serving: the request-path decisions. Reading the file
//! system is left to the caller.

use vstd::prelude::*;
use vstd::string::*;
use vstd::utf8::*;

use crate::response::{not_found_spec, status_response, with_header_spec, Response, ResponseView};
use crate::text::{chars_of, str_eq};

verus! {

/// What `String::from_utf8_lossy` makes of a byte sequence.
pub uninterp spec fn utf8_lossy_decode(bytes: Seq<u8>) -> Seq<char>;

/// Decodes bytes as UTF-8, replacing invalid sequences.
///
/// Trusted: `String::from_utf8_lossy` returns the decoding of `bytes`,
/// a function of the bytes alone, named `utf8_lossy_decode`; its
/// documentation states that valid UTF-8 comes back unchanged. How invalid
/// sequences are replaced is left unsaid here.
#[verifier::external_body]
fn utf8_lossy(bytes: &[u8]) -> (r: String)
    ensures
        r@ == utf8_lossy_decode(bytes@),
        valid_utf8(bytes@) ==> r@ == decode_utf8(bytes@),
{
    String::from_utf8_lossy(bytes).into_owned()
}

/// Whether `b` is an ASCII hexadecimal digit.
pub open spec fn is_hex_byte(b: u8) -> bool {
    (48 <= b <= 57) || (65 <= b <= 70) || (97 <= b <= 102)
}

/// The value of a hexadecimal digit.
pub open spec fn hex_value(b: u8) -> u8 {
    if 48 <= b <= 57 {
        (b - 48) as u8
    } else if 65 <= b <= 70 {
        (b - 55) as u8
    } else {
        (b - 87) as u8
    }
}

/// Whether the two bytes after a `%` decode: `u8::from_str_radix` in base 16
/// accepts two hex digits, or a `+` and one hex digit.
pub open spec fn hex_pair_decodes(b1: u8, b2: u8) -> bool {
    is_hex_byte(b2) && (is_hex_byte(b1) || b1 == 43)
}

/// The byte that a decodable pair stands for.
pub open spec fn hex_pair_value(b1: u8, b2: u8) -> u8 {
    if b1 == 43 {
        hex_value(b2)
    } else {
        (hex_value(b1) * 16 + hex_value(b2)) as u8
    }
}

/// Percent-decoding of `b` from position `i`: a `%` followed by a decodable
/// pair becomes one byte; every other byte is kept.
pub open spec fn percent_decode_from(b: Seq<u8>, i: int) -> Seq<u8>
    decreases b.len() - i,
{
    if i < 0 || i >= b.len() {
        Seq::empty()
    } else if b[i] == 37 && i + 2 < b.len() && hex_pair_decodes(b[i + 1], b[i + 2]) {
        seq![hex_pair_value(b[i + 1], b[i + 2])] + percent_decode_from(b, i + 3)
    } else {
        seq![b[i]] + percent_decode_from(b, i + 1)
    }
}

/// Percent-decoding of a whole byte sequence.
pub open spec fn percent_decode_bytes(b: Seq<u8>) -> Seq<u8> {
    percent_decode_from(b, 0)
}

fn is_hex(b: u8) -> (r: bool)
    ensures
        r == is_hex_byte(b),
{
    (48 <= b && b <= 57) || (65 <= b && b <= 70) || (97 <= b && b <= 102)
}

fn hex_val(b: u8) -> (r: u8)
    requires
        is_hex_byte(b),
    ensures
        r == hex_value(b),
        r < 16,
{
    if 48 <= b && b <= 57 {
        b - 48
    } else if 65 <= b && b <= 70 {
        b - 55
    } else {
        b - 87
    }
}

/// Percent-decodes bytes (see `percent_decode_from`).
pub fn percent_decode_to_bytes(b: &[u8]) -> (out: Vec<u8>)
    ensures
        out@ == percent_decode_bytes(b@),
{
    let mut out: Vec<u8> = Vec::new();
    let mut i: usize = 0;
    while i < b.len()
        invariant
            i <= b@.len(),
            percent_decode_bytes(b@) == out@ + percent_decode_from(b@, i as int),
        decreases b@.len() - i,
    {
        let ghost prev = out@;
        if b[i] == 37 && b.len() >= 3 && i < b.len() - 2 && is_hex(b[i + 2]) && (is_hex(b[i + 1]) || b[i + 1] == 43) {
            let v = if b[i + 1] == 43 {
                hex_val(b[i + 2])
            } else {
                hex_val(b[i + 1]) * 16 + hex_val(b[i + 2])
            };
            out.push(v);
            assert(out@ + percent_decode_from(b@, i + 3) =~= prev + percent_decode_from(b@, i as int));
            i = i + 3;
        } else {
            out.push(b[i]);
            assert(out@ + percent_decode_from(b@, i + 1) =~= prev + percent_decode_from(b@, i as int));
            i = i + 1;
        }
    }
    assert(out@ + percent_decode_from(b@, i as int) =~= out@);
    out
}

/// The text of decoded bytes: valid UTF-8 reads as what it encodes; other
/// bytes read as `String::from_utf8_lossy` makes of them.
pub open spec fn decoded_text(bytes: Seq<u8>) -> Seq<char> {
    if valid_utf8(bytes) {
        decode_utf8(bytes)
    } else {
        utf8_lossy_decode(bytes)
    }
}

/// Percent-decodes a request path and reads the result as UTF-8, replacing
/// invalid sequences.
pub fn percent_decode(s: &str) -> (r: String)
    ensures
        r@ == decoded_text(percent_decode_bytes(encode_utf8(s@))),
{
    let bytes = percent_decode_to_bytes(s.as_bytes());
    utf8_lossy(bytes.as_slice())
}

/// Index of the first character at or after `i` that is not a `/`.
pub open spec fn skip_slashes(s: Seq<char>, i: int) -> int
    decreases s.len() - i,
{
    if 0 <= i < s.len() && s[i] == '/' {
        skip_slashes(s, i + 1)
    } else {
        i
    }
}

/// `str::trim_start_matches('/')`.
pub open spec fn trim_leading_slashes(s: Seq<char>) -> Seq<char> {
    s.subrange(skip_slashes(s, 0), s.len() as int)
}

proof fn lemma_skip_slashes(s: Seq<char>, i: int)
    requires
        0 <= i <= s.len(),
    ensures
        i <= skip_slashes(s, i) <= s.len(),
        skip_slashes(s, i) < s.len() ==> s[skip_slashes(s, i)] != '/',
    decreases s.len() - i,
{
    if i < s.len() && s[i] == '/' {
        lemma_skip_slashes(s, i + 1);
    }
}

/// Whether `c` separates path components: `/` always, and `\` on a
/// platform where it separates too.
pub open spec fn is_separator(c: char, backslash: bool) -> bool {
    c == '/' || (backslash && c == '\\')
}

/// Whether a segment of `s` is `..`: on Unix the only component of a
/// relative path other than a normal name and `.`.
pub open spec fn has_parent_segment(s: Seq<char>, backslash: bool) -> bool {
    exists|i: int|
        #![trigger s[i]]
        0 <= i && i + 2 <= s.len() && s[i] == '.' && s[i + 1] == '.' && (i == 0 || is_separator(
            s[i - 1],
            backslash,
        )) && (i + 2 == s.len() || is_separator(s[i + 2], backslash))
}

/// Whether `s` starts at a root or with a drive prefix (a letter and `:`),
/// on a platform where `\` separates; such a path does not stay below the
/// directory it is joined to.
pub open spec fn has_root_or_prefix(s: Seq<char>, backslash: bool) -> bool {
    &&& backslash
    &&& s.len() > 0
    &&& (s[0] == '\\' || (s.len() >= 2 && s[1] == ':' && (('a' <= s[0] && s[0] <= 'z') || ('A'
        <= s[0] && s[0] <= 'Z'))))
}

/// The path below the served root that a decoded request path names, with
/// its leading slashes removed, unless it has a `..` segment or, where `\`
/// separates, a root or drive prefix.
pub open spec fn relative_path_of(decoded: Seq<char>, backslash: bool) -> Option<Seq<char>> {
    let rel = trim_leading_slashes(decoded);
    if has_parent_segment(rel, backslash) || has_root_or_prefix(rel, backslash) {
        None
    } else {
        Some(rel)
    }
}

/// The path below the served root that a request path names, decoding
/// percent escapes first, so that an encoded `..` is refused like a plain one.
pub open spec fn static_relative_path(req_path: Seq<char>, backslash: bool) -> Option<Seq<char>> {
    relative_path_of(decoded_text(percent_decode_bytes(encode_utf8(req_path))), backslash)
}

pub(crate) fn separates(c: char, backslash: bool) -> (r: bool)
    ensures
        r == is_separator(c, backslash),
{
    c == '/' || (backslash && c == '\\')
}

/// Whether a character sequence has a `..` segment.
pub fn contains_parent_segment(v: &Vec<char>, backslash: bool) -> (r: bool)
    ensures
        r == has_parent_segment(v@, backslash),
{
    let n = v.len();
    let mut i: usize = 0;
    while n >= 2 && i <= n - 2
        invariant
            n == v@.len(),
            forall|j: int|
                #![trigger v@[j]]
                0 <= j < i && j + 2 <= n ==> !(v@[j] == '.' && v@[j + 1] == '.' && (j == 0
                    || is_separator(v@[j - 1], backslash)) && (j + 2 == n || is_separator(
                    v@[j + 2],
                    backslash,
                ))),
        decreases n - i,
    {
        assert(i + 2 <= n);
        if v[i] == '.' && v[i + 1] == '.' && (i == 0 || separates(v[i - 1], backslash)) && (i + 2
            == n || separates(v[i + 2], backslash)) {
            assert(v@[i as int] == '.');
            return true;
        }
        i = i + 1;
    }
    false
}

pub(crate) fn starts_at_root_or_prefix(v: &Vec<char>, backslash: bool) -> (r: bool)
    ensures
        r == has_root_or_prefix(v@, backslash),
{
    if !backslash || v.len() == 0 {
        return false;
    }
    let c = v[0];
    c == '\\' || (v.len() >= 2 && v[1] == ':' && (('a' <= c && c <= 'z') || ('A' <= c && c
        <= 'Z')))
}

/// The path below the served root that a decoded request path names (see
/// `relative_path_of`).
pub fn relative_path_of_decoded(decoded: &str, backslash: bool) -> (r: Option<String>)
    ensures
        match r {
            Some(rel) => relative_path_of(decoded@, backslash) == Some(rel@),
            None => relative_path_of(decoded@, backslash) is None,
        },
{
    let c = chars_of(decoded);
    let mut k: usize = 0;
    while k < c.len() && c[k] == '/'
        invariant
            k <= c@.len(),
            c@ == decoded@,
            skip_slashes(c@, 0) == skip_slashes(c@, k as int),
        decreases c@.len() - k,
    {
        k = k + 1;
    }
    let rel = decoded.substring_char(k, c.len());
    let rc = chars_of(rel);
    if contains_parent_segment(&rc, backslash) || starts_at_root_or_prefix(&rc, backslash) {
        None
    } else {
        Some(rel.to_owned())
    }
}

/// Strips trailing separators and trailing `/.` from a path: what
/// `Path::components` drops at the end.
pub open spec fn strip_trailing(s: Seq<char>, backslash: bool) -> Seq<char>
    decreases s.len(),
{
    if s.len() > 0 && is_separator(s.last(), backslash) {
        strip_trailing(s.drop_last(), backslash)
    } else if s.len() >= 2 && s.last() == '.' && is_separator(s[s.len() - 2], backslash) {
        strip_trailing(s.drop_last(), backslash)
    } else {
        s
    }
}

/// Position just after the last separator in `s[..end]`, or 0.
pub open spec fn after_last_slash(s: Seq<char>, end: int, backslash: bool) -> int
    decreases end,
{
    if end <= 0 || end > s.len() {
        0
    } else if is_separator(s[end - 1], backslash) {
        end
    } else {
        after_last_slash(s, end - 1, backslash)
    }
}

/// `Path::file_name`: the last component when it is a normal name.
pub open spec fn file_name(path: Seq<char>, backslash: bool) -> Option<Seq<char>> {
    let t = strip_trailing(path, backslash);
    let name = t.subrange(after_last_slash(t, t.len() as int, backslash), t.len() as int);
    if name.len() == 0 || name == "."@ || name == ".."@ {
        None
    } else {
        Some(name)
    }
}

/// Position of the last `.` in `s[..end]`.
pub open spec fn last_dot(s: Seq<char>, end: int) -> Option<int>
    decreases end,
{
    if end <= 0 || end > s.len() {
        None
    } else if s[end - 1] == '.' {
        Some(end - 1)
    } else {
        last_dot(s, end - 1)
    }
}

/// `Path::extension`: what follows the last `.` of the file name, unless
/// that `.` starts the name or there is none. Where `\` separates, it
/// ends the name as `/` does.
pub open spec fn extension(path: Seq<char>, backslash: bool) -> Option<Seq<char>> {
    match file_name(path, backslash) {
        Some(name) => match last_dot(name, name.len() as int) {
            Some(d) => if d == 0 {
                None
            } else {
                Some(name.subrange(d + 1, name.len() as int))
            },
            None => None,
        },
        None => None,
    }
}

/// The `Content-Type` for a file extension; anything unknown is
/// `application/octet-stream`.
pub open spec fn content_type_of(ext: Seq<char>) -> Seq<char> {
    if ext == "html"@ || ext == "htm"@ {
        "text/html; charset=utf-8"@
    } else if ext == "css"@ {
        "text/css; charset=utf-8"@
    } else if ext == "js"@ || ext == "mjs"@ {
        "text/javascript; charset=utf-8"@
    } else if ext == "json"@ {
        "application/json"@
    } else if ext == "txt"@ {
        "text/plain; charset=utf-8"@
    } else if ext == "png"@ {
        "image/png"@
    } else if ext == "jpg"@ || ext == "jpeg"@ {
        "image/jpeg"@
    } else if ext == "gif"@ {
        "image/gif"@
    } else if ext == "svg"@ {
        "image/svg+xml"@
    } else if ext == "ico"@ {
        "image/x-icon"@
    } else if ext == "woff"@ {
        "font/woff"@
    } else if ext == "woff2"@ {
        "font/woff2"@
    } else if ext == "wasm"@ {
        "application/wasm"@
    } else if ext == "pdf"@ {
        "application/pdf"@
    } else if ext == "xml"@ {
        "application/xml"@
    } else {
        "application/octet-stream"@
    }
}

/// The `Content-Type` for a file path, by its extension.
pub open spec fn content_type_for_path(path: Seq<char>, backslash: bool) -> Seq<char> {
    match extension(path, backslash) {
        Some(ext) => content_type_of(ext),
        None => content_type_of(Seq::empty()),
    }
}

/// The `Content-Type` for a file extension.
pub fn content_type_for_extension(ext: &str) -> (r: &'static str)
    ensures
        r@ == content_type_of(ext@),
{
    if str_eq(ext, "html") || str_eq(ext, "htm") {
        "text/html; charset=utf-8"
    } else if str_eq(ext, "css") {
        "text/css; charset=utf-8"
    } else if str_eq(ext, "js") || str_eq(ext, "mjs") {
        "text/javascript; charset=utf-8"
    } else if str_eq(ext, "json") {
        "application/json"
    } else if str_eq(ext, "txt") {
        "text/plain; charset=utf-8"
    } else if str_eq(ext, "png") {
        "image/png"
    } else if str_eq(ext, "jpg") || str_eq(ext, "jpeg") {
        "image/jpeg"
    } else if str_eq(ext, "gif") {
        "image/gif"
    } else if str_eq(ext, "svg") {
        "image/svg+xml"
    } else if str_eq(ext, "ico") {
        "image/x-icon"
    } else if str_eq(ext, "woff") {
        "font/woff"
    } else if str_eq(ext, "woff2") {
        "font/woff2"
    } else if str_eq(ext, "wasm") {
        "application/wasm"
    } else if str_eq(ext, "pdf") {
        "application/pdf"
    } else if str_eq(ext, "xml") {
        "application/xml"
    } else {
        "application/octet-stream"
    }
}

} // verus!

verus! {

fn stripped_end(c: &Vec<char>, backslash: bool) -> (e: usize)
    ensures
        e <= c@.len(),
        strip_trailing(c@, backslash) == c@.subrange(0, e as int),
{
    let mut e: usize = c.len();
    assert(c@.subrange(0, e as int) == c@);
    while e > 0 && (separates(c[e - 1], backslash) || (e >= 2 && c[e - 1] == '.' && separates(
        c[e - 2],
        backslash,
    )))
        invariant
            e <= c@.len(),
            strip_trailing(c@, backslash) == strip_trailing(c@.subrange(0, e as int), backslash),
        decreases e,
    {
        assert(c@.subrange(0, e as int).drop_last() == c@.subrange(0, e - 1));
        e = e - 1;
    }
    e
}

fn segment_start(c: &Vec<char>, e: usize, backslash: bool) -> (start: usize)
    requires
        e <= c@.len(),
    ensures
        start <= e,
        start == after_last_slash(c@.subrange(0, e as int), e as int, backslash),
{
    let ghost t = c@.subrange(0, e as int);
    let mut start: usize = e;
    while start > 0 && !separates(c[start - 1], backslash)
        invariant
            start <= e <= c@.len(),
            t == c@.subrange(0, e as int),
            after_last_slash(t, e as int, backslash) == after_last_slash(t, start as int, backslash),
        decreases start,
    {
        start = start - 1;
    }
    start
}

fn dot_position(c: &Vec<char>, start: usize, e: usize) -> (r: Option<usize>)
    requires
        start <= e <= c@.len(),
    ensures
        match r {
            Some(d) => start <= d < e && last_dot(c@.subrange(start as int, e as int), (e - start) as int) == Some(d - start),
            None => last_dot(c@.subrange(start as int, e as int), (e - start) as int) is None,
        },
{
    let ghost name = c@.subrange(start as int, e as int);
    let mut d: usize = e;
    while d > start && c[d - 1] != '.'
        invariant
            start <= d <= e <= c@.len(),
            name == c@.subrange(start as int, e as int),
            last_dot(name, (e - start) as int) == last_dot(name, d - start),
        decreases d,
    {
        assert(name[d - 1 - start] == c@[d - 1]);
        d = d - 1;
    }
    if d == start {
        None
    } else {
        assert(name[d - 1 - start] == c@[d - 1]);
        Some(d - 1)
    }
}

/// The extension of a file path (see `extension`).
pub fn path_extension(path: &str, backslash: bool) -> (r: Option<String>)
    ensures
        match r {
            Some(e) => extension(path@, backslash) == Some(e@),
            None => extension(path@, backslash) is None,
        },
{
    let c = chars_of(path);
    let e = stripped_end(&c, backslash);
    let start = segment_start(&c, e, backslash);
    let ghost t = c@.subrange(0, e as int);
    let ghost name = t.subrange(after_last_slash(t, e as int, backslash), e as int);
    assert(name =~= c@.subrange(start as int, e as int));
    let n = e - start;
    proof {
        reveal_strlit(".");
        reveal_strlit("..");
        broadcast use vstd::string::group_string_axioms;
    }
    let is_dot = n == 1 && c[start] == '.';
    let is_dotdot = n == 2 && c[start] == '.' && c[start + 1] == '.';
    assert(is_dot == (name == "."@)) by {
        if n == 1 && name == "."@ {
            assert(name[0] == "."@[0]);
        }
        if is_dot {
            assert(name =~= "."@);
        }
    }
    assert(is_dotdot == (name == ".."@)) by {
        if n == 2 && name == ".."@ {
            assert(name[0] == ".."@[0]);
            assert(name[1] == ".."@[1]);
        }
        if is_dotdot {
            assert(name =~= ".."@);
        }
    }
    if n == 0 || is_dot || is_dotdot {
        return None;
    }
    match dot_position(&c, start, e) {
        None => None,
        Some(d) => {
            if d == start {
                None
            } else {
                let ext = path.substring_char(d + 1, e).to_owned();
                assert(ext@ =~= name.subrange(d - start + 1, name.len() as int));
                Some(ext)
            }
        },
    }
}

/// The `Content-Type` for a file path, by its extension (see `content_type_of`).
pub fn content_type_for(path: &str, backslash: bool) -> (r: &'static str)
    ensures
        r@ == content_type_for_path(path@, backslash),
{
    proof {
        reveal_strlit("");
        broadcast use vstd::string::group_string_axioms;
        assert(""@ =~= Seq::<char>::empty());
    }
    match path_extension(path, backslash) {
        Some(ext) => content_type_for_extension(ext.as_str()),
        None => content_type_for_extension(""),
    }
}

} // verus!

verus! {

/// The response for a file that was found: `200 OK`, a `Content-Type` by
/// the file's extension, and the file's bytes as the body.
pub open spec fn file_reply(path: Seq<char>, contents: Seq<u8>, backslash: bool) -> ResponseView {
    ResponseView {
        body: contents,
        ..with_header_spec(
            status_response(200),
            "Content-Type"@,
            content_type_for_path(path, backslash),
        )
    }
}

/// Whether `\` separates path components where the program runs.
///
/// Trusted: calls `std::path::is_separator`, which answers for the
/// platform that the program was built for; as that is a fact of the
/// machine, nothing is stated of the result.
#[verifier::external_body]
fn backslash_separates() -> (r: bool) {
    std::path::is_separator('\\')
}

/// Serves the files below a root directory.
pub struct StaticServer {
    root: String,
    backslash: bool,
}

impl StaticServer {
    /// The directory served, as given.
    pub closed spec fn served_root(&self) -> Seq<char> {
        self.root@
    }

    /// Whether `\` separates path components for this server (it does
    /// where the platform says so).
    pub closed spec fn splits_on_backslash(&self) -> bool {
        self.backslash
    }

    /// A server for the files below `root`, with the path separators of the
    /// platform.
    pub fn new(root: &str) -> (s: StaticServer)
        ensures
            s.served_root() == root@,
    {
        StaticServer { root: root.to_owned(), backslash: backslash_separates() }
    }

    /// The directory served.
    pub fn root(&self) -> (r: &str)
        ensures
            r@ == self.served_root(),
    {
        self.root.as_str()
    }

    /// Whether `\` separates path components for this server.
    pub fn backslash_separates(&self) -> (r: bool)
        ensures
            r == self.splits_on_backslash(),
    {
        self.backslash
    }

    /// The path below the root that a request path names, or `None` when
    /// the decoded path has a `..` segment or, where `\` separates, a root
    /// or drive prefix (see `static_relative_path`).
    pub fn relative_path(req_path: &str, backslash: bool) -> (r: Option<String>)
        ensures
            match r {
                Some(rel) => static_relative_path(req_path@, backslash) == Some(rel@),
                None => static_relative_path(req_path@, backslash) is None,
            },
    {
        let decoded = percent_decode(req_path);
        relative_path_of_decoded(decoded.as_str(), backslash)
    }

    /// The answer once the file has been looked up: the file's response
    /// when it was found (its resolved path and its contents), 404 otherwise;
    /// `backslash` says whether `\` separates in that path.
    pub fn reply(found: Option<(String, Vec<u8>)>, backslash: bool) -> (r: Response)
        ensures
            match found {
                Some((path, contents)) => r@ == file_reply(path@, contents@, backslash),
                None => r@ == not_found_spec(),
            },
    {
        match found {
            Some((path, contents)) => Response::ok().with_header(
                "Content-Type",
                content_type_for(path.as_str(), backslash),
            ).with_body(contents),
            None => Response::not_found(),
        }
    }
}

} // verus!

verus! {

/// A file lookup stays below the served root: the relative path that a
/// request path yields has no `..` segment, does not start with `/` and,
/// where `\` separates, has no root or drive prefix.
pub proof fn lemma_relative_path_stays_below_root(req_path: Seq<char>, backslash: bool)
    ensures
        static_relative_path(req_path, backslash) matches Some(rel) ==> {
            &&& !has_parent_segment(rel, backslash)
            &&& (rel.len() == 0 || rel[0] != '/')
            &&& !has_root_or_prefix(rel, backslash)
        },
{
    let decoded = decoded_text(percent_decode_bytes(encode_utf8(req_path)));
    lemma_skip_slashes(decoded, 0);
}

/// Bytes without a `%` are left as they are by percent-decoding.
pub proof fn lemma_percent_decode_plain(b: Seq<u8>, i: int)
    requires
        0 <= i <= b.len(),
        forall|j: int| 0 <= j < b.len() ==> b[j] != 37,
    ensures
        percent_decode_from(b, i) == b.subrange(i, b.len() as int),
    decreases b.len() - i,
{
    if i < b.len() {
        lemma_percent_decode_plain(b, i + 1);
        assert(seq![b[i]] + b.subrange(i + 1, b.len() as int) =~= b.subrange(i, b.len() as int));
    } else {
        assert(b.subrange(i, b.len() as int) =~= Seq::<u8>::empty());
    }
}

} // verus!

verus! {

/// The `Content-Type` table, entry by entry: each extension that the
/// server knows gets its fixed media type, and no extension (or an unknown
/// one) gets `application/octet-stream`.
pub proof fn lemma_content_type_table()
    ensures
        content_type_of("html"@) == "text/html; charset=utf-8"@,
        content_type_of("htm"@) == "text/html; charset=utf-8"@,
        content_type_of("css"@) == "text/css; charset=utf-8"@,
        content_type_of("js"@) == "text/javascript; charset=utf-8"@,
        content_type_of("mjs"@) == "text/javascript; charset=utf-8"@,
        content_type_of("json"@) == "application/json"@,
        content_type_of("txt"@) == "text/plain; charset=utf-8"@,
        content_type_of("png"@) == "image/png"@,
        content_type_of("jpg"@) == "image/jpeg"@,
        content_type_of("jpeg"@) == "image/jpeg"@,
        content_type_of("gif"@) == "image/gif"@,
        content_type_of("svg"@) == "image/svg+xml"@,
        content_type_of("ico"@) == "image/x-icon"@,
        content_type_of("woff"@) == "font/woff"@,
        content_type_of("woff2"@) == "font/woff2"@,
        content_type_of("wasm"@) == "application/wasm"@,
        content_type_of("pdf"@) == "application/pdf"@,
        content_type_of("xml"@) == "application/xml"@,
        content_type_of(Seq::empty()) == "application/octet-stream"@,
        content_type_of("exe"@) == "application/octet-stream"@,
        content_type_of("HTML"@) == "application/octet-stream"@,
{
    broadcast use vstd::string::group_string_axioms;
    reveal_strlit("html");
    reveal_strlit("htm");
    reveal_strlit("css");
    reveal_strlit("js");
    reveal_strlit("mjs");
    reveal_strlit("json");
    reveal_strlit("txt");
    reveal_strlit("png");
    reveal_strlit("jpg");
    reveal_strlit("jpeg");
    reveal_strlit("gif");
    reveal_strlit("svg");
    reveal_strlit("ico");
    reveal_strlit("woff");
    reveal_strlit("woff2");
    reveal_strlit("wasm");
    reveal_strlit("pdf");
    reveal_strlit("xml");
    reveal_strlit("exe");
    reveal_strlit("HTML");
    assert("html"@.len() == 4 && "html"@[0] == 'h' && "html"@[1] == 't');
    assert("htm"@.len() == 3 && "htm"@[0] == 'h' && "htm"@[1] == 't');
    assert("css"@.len() == 3 && "css"@[0] == 'c' && "css"@[1] == 's');
    assert("js"@.len() == 2 && "js"@[0] == 'j' && "js"@[1] == 's');
    assert("mjs"@.len() == 3 && "mjs"@[0] == 'm' && "mjs"@[1] == 'j');
    assert("json"@.len() == 4 && "json"@[0] == 'j' && "json"@[1] == 's');
    assert("txt"@.len() == 3 && "txt"@[0] == 't' && "txt"@[1] == 'x');
    assert("png"@.len() == 3 && "png"@[0] == 'p' && "png"@[1] == 'n');
    assert("jpg"@.len() == 3 && "jpg"@[0] == 'j' && "jpg"@[1] == 'p');
    assert("jpeg"@.len() == 4 && "jpeg"@[0] == 'j' && "jpeg"@[1] == 'p');
    assert("gif"@.len() == 3 && "gif"@[0] == 'g' && "gif"@[1] == 'i');
    assert("svg"@.len() == 3 && "svg"@[0] == 's' && "svg"@[1] == 'v');
    assert("ico"@.len() == 3 && "ico"@[0] == 'i' && "ico"@[1] == 'c');
    assert("woff"@.len() == 4 && "woff"@[0] == 'w' && "woff"@[1] == 'o');
    assert("woff2"@.len() == 5 && "woff2"@[0] == 'w' && "woff2"@[1] == 'o');
    assert("wasm"@.len() == 4 && "wasm"@[0] == 'w' && "wasm"@[1] == 'a');
    assert("pdf"@.len() == 3 && "pdf"@[0] == 'p' && "pdf"@[1] == 'd');
    assert("xml"@.len() == 3 && "xml"@[0] == 'x' && "xml"@[1] == 'm');
    assert("exe"@.len() == 3 && "exe"@[0] == 'e');
    assert("HTML"@.len() == 4 && "HTML"@[0] == 'H');
}

/// The hexadecimal digit, in upper case, for a value below 16.
pub open spec fn upper_hex_digit(d: u8) -> u8 {
    if d < 10 {
        (48 + d) as u8
    } else {
        (55 + d) as u8
    }
}

/// The hexadecimal digit, in lower case, for a value below 16.
pub open spec fn lower_hex_digit(d: u8) -> u8 {
    if d < 10 {
        (48 + d) as u8
    } else {
        (87 + d) as u8
    }
}

/// A percent escape decodes to the byte it writes in hexadecimal: for
/// every byte `x`, `%` followed by the two hex digits of `x` (in either
/// case) decodes to `x` alone.
pub proof fn lemma_percent_escape_decodes(x: u8)
    ensures
        percent_decode_bytes(seq![37u8, upper_hex_digit(x / 16), upper_hex_digit(x % 16)]) == seq![x],
        percent_decode_bytes(seq![37u8, lower_hex_digit(x / 16), lower_hex_digit(x % 16)]) == seq![x],
{
    let hi = x / 16;
    let lo = x % 16;
    assert(hi < 16 && lo < 16 && hi * 16 + lo == x);
    let u = seq![37u8, upper_hex_digit(hi), upper_hex_digit(lo)];
    let l = seq![37u8, lower_hex_digit(hi), lower_hex_digit(lo)];
    assert(hex_value(upper_hex_digit(hi)) == hi);
    assert(hex_value(upper_hex_digit(lo)) == lo);
    assert(hex_value(lower_hex_digit(hi)) == hi);
    assert(hex_value(lower_hex_digit(lo)) == lo);
    assert(percent_decode_from(u, 3) == Seq::<u8>::empty());
    assert(percent_decode_from(l, 3) == Seq::<u8>::empty());
    assert(percent_decode_from(u, 0) =~= seq![x]);
    assert(percent_decode_from(l, 0) =~= seq![x]);
}

} // verus!
