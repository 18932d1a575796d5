//! Character- and byte-level text helpers shared by the request parser,
//! the response writer and the static file handler.

use vstd::prelude::*;
use vstd::string::*;
use vstd::utf8::*;
use vstd::std_specs::iter::IteratorSpec;

verus! {

/// Decodes bytes as UTF-8, the way `String::from_utf8` does.
///
/// Trusted: `String::from_utf8` accepts exactly the valid UTF-8 byte
/// sequences and decodes them; this contract states that over vstd's
/// `valid_utf8` / `decode_utf8`.
#[verifier::external_body]
pub(crate) fn utf8_to_string(bytes: &[u8]) -> (res: Option<String>)
    ensures
        res is Some <==> valid_utf8(bytes@),
        res matches Some(s) ==> s@ == decode_utf8(bytes@),
{
    String::from_utf8(bytes.to_vec()).ok()
}

/// Collects the characters of a string into a vector.
pub fn chars_of(s: &str) -> (v: Vec<char>)
    ensures
        v@ == s@,
{
    broadcast use vstd::string::group_string_axioms;
    let mut v: Vec<char> = Vec::new();
    let mut it = s.chars();
    loop
        invariant
            it.obeys_prophetic_iter_laws(),
            s@ == v@ + it.remaining(),
            it.decrease() is Some,
        ensures
            s@ == v@,
        decreases it.decrease()->0,
    {
        match it.next() {
            Some(c) => {
                v.push(c);
            },
            None => {
                assert(v@ + it.remaining() == v@);
                break;
            },
        }
    }
    v
}

} // verus!

verus! {

/// Position of the first occurrence of `c` in `s` at or after `from`.
pub open spec fn find_char(s: Seq<char>, c: char, from: int) -> Option<int>
    decreases s.len() - from,
{
    if from < 0 || from >= s.len() {
        None
    } else if s[from] == c {
        Some(from)
    } else {
        find_char(s, c, from + 1)
    }
}

pub proof fn lemma_find_char_bounds(s: Seq<char>, c: char, from: int)
    ensures
        find_char(s, c, from) matches Some(i) ==> {
            &&& from <= i < s.len()
            &&& s[i] == c
            &&& forall|j: int| from <= j < i ==> s[j] != c
        },
        find_char(s, c, from) is None && 0 <= from ==> forall|j: int| from <= j < s.len() ==> s[j] != c,
    decreases s.len() - from,
{
    if 0 <= from < s.len() && s[from] != c {
        lemma_find_char_bounds(s, c, from + 1);
    }
}

/// Executable search for `c` in `v` starting at `from`.
pub fn find_char_from(v: &Vec<char>, c: char, from: usize) -> (r: Option<usize>)
    requires
        from <= v.len(),
    ensures
        match r {
            Some(i) => find_char(v@, c, from as int) == Some(i as int),
            None => find_char(v@, c, from as int) is None,
        },
{
    let mut i = from;
    while i < v.len()
        invariant
            from <= i <= v.len(),
            find_char(v@, c, from as int) == find_char(v@, c, i as int),
        decreases v.len() - i,
    {
        if v[i] == c {
            return Some(i);
        }
        i = i + 1;
    }
    None
}

/// `char::is_whitespace`: the Unicode `White_Space` property.
pub open spec fn is_whitespace(c: char) -> bool {
    let u = c as u32;
    ||| 0x09 <= u <= 0x0D
    ||| u == 0x20
    ||| u == 0x85
    ||| u == 0xA0
    ||| u == 0x1680
    ||| 0x2000 <= u <= 0x200A
    ||| u == 0x2028
    ||| u == 0x2029
    ||| u == 0x202F
    ||| u == 0x205F
    ||| u == 0x3000
}

pub fn char_is_whitespace(c: char) -> (r: bool)
    ensures
        r == is_whitespace(c),
{
    let u = c as u32;
    (0x09 <= u && u <= 0x0D) || u == 0x20 || u == 0x85 || u == 0xA0 || u == 0x1680 || (0x2000
        <= u && u <= 0x200A) || u == 0x2028 || u == 0x2029 || u == 0x202F || u == 0x205F || u
        == 0x3000
}

/// Index of the first non-whitespace character at or after `i`.
pub open spec fn skip_ws_front(s: Seq<char>, i: int) -> int
    decreases s.len() - i,
{
    if 0 <= i < s.len() && is_whitespace(s[i]) {
        skip_ws_front(s, i + 1)
    } else {
        i
    }
}

/// End of `s[lo..j]` once trailing whitespace is dropped.
pub open spec fn skip_ws_back(s: Seq<char>, lo: int, j: int) -> int
    decreases j - lo,
{
    if lo < j <= s.len() && is_whitespace(s[j - 1]) {
        skip_ws_back(s, lo, j - 1)
    } else {
        j
    }
}

/// `str::trim`: `s` without leading and trailing whitespace.
pub open spec fn trim(s: Seq<char>) -> Seq<char> {
    let a = skip_ws_front(s, 0);
    s.subrange(a, skip_ws_back(s, a, s.len() as int))
}

pub proof fn lemma_skip_ws_bounds(s: Seq<char>, i: int, lo: int, j: int)
    requires
        0 <= i <= s.len(),
        0 <= lo <= j <= s.len(),
    ensures
        i <= skip_ws_front(s, i) <= s.len(),
        lo <= skip_ws_back(s, lo, j) <= j,
    decreases s.len() - i + j - lo,
{
    if i < s.len() && is_whitespace(s[i]) {
        lemma_skip_ws_bounds(s, i + 1, lo, j);
    } else if lo < j && is_whitespace(s[j - 1]) {
        lemma_skip_ws_bounds(s, i, lo, j - 1);
    }
}

/// Executable `str::trim`.
pub fn trim_str(s: &str) -> (r: &str)
    ensures
        r@ == trim(s@),
{
    let v = chars_of(s);
    let mut a: usize = 0;
    while a < v.len() && char_is_whitespace(v[a])
        invariant
            a <= v.len(),
            skip_ws_front(v@, 0) == skip_ws_front(v@, a as int),
        decreases v.len() - a,
    {
        a = a + 1;
    }
    let mut b: usize = v.len();
    while b > a && char_is_whitespace(v[b - 1])
        invariant
            a <= b <= v.len(),
            skip_ws_back(v@, a as int, v.len() as int) == skip_ws_back(v@, a as int, b as int),
        decreases b - a,
    {
        b = b - 1;
    }
    s.substring_char(a, b)
}

/// ASCII lowercasing of one character, as a code point.
pub open spec fn ascii_lower_code(c: char) -> u32 {
    if 0x41 <= (c as u32) <= 0x5A {
        ((c as u32) + 32) as u32
    } else {
        c as u32
    }
}

/// ASCII lowercasing of one character.
pub open spec fn ascii_lower_char(c: char) -> char {
    ascii_lower_code(c) as char
}

/// `str::to_ascii_lowercase`.
pub open spec fn ascii_lower(s: Seq<char>) -> Seq<char> {
    s.map_values(|c: char| ascii_lower_char(c))
}

/// `str::eq_ignore_ascii_case`.
pub open spec fn eq_ignore_ascii_case(a: Seq<char>, b: Seq<char>) -> bool {
    &&& a.len() == b.len()
    &&& forall|i: int| 0 <= i < a.len() ==> ascii_lower_code(#[trigger] a[i]) == ascii_lower_code(b[i])
}

/// The lowercase letter for an uppercase ASCII letter, as a string.
fn lower_letter(c: char) -> (r: &'static str)
    requires
        'A' <= c <= 'Z',
    ensures
        r@ == seq![ascii_lower_char(c)],
{
    proof {
        reveal_strlit("a");
        reveal_strlit("b");
        reveal_strlit("c");
        reveal_strlit("d");
        reveal_strlit("e");
        reveal_strlit("f");
        reveal_strlit("g");
        reveal_strlit("h");
        reveal_strlit("i");
        reveal_strlit("j");
        reveal_strlit("k");
        reveal_strlit("l");
        reveal_strlit("m");
        reveal_strlit("n");
        reveal_strlit("o");
        reveal_strlit("p");
        reveal_strlit("q");
        reveal_strlit("r");
        reveal_strlit("s");
        reveal_strlit("t");
        reveal_strlit("u");
        reveal_strlit("v");
        reveal_strlit("w");
        reveal_strlit("x");
        reveal_strlit("y");
        reveal_strlit("z");
    }
    let r = match c {
        'A' => "a",
        'B' => "b",
        'C' => "c",
        'D' => "d",
        'E' => "e",
        'F' => "f",
        'G' => "g",
        'H' => "h",
        'I' => "i",
        'J' => "j",
        'K' => "k",
        'L' => "l",
        'M' => "m",
        'N' => "n",
        'O' => "o",
        'P' => "p",
        'Q' => "q",
        'R' => "r",
        'S' => "s",
        'T' => "t",
        'U' => "u",
        'V' => "v",
        'W' => "w",
        'X' => "x",
        'Y' => "y",
        'Z' => "z",
        _ => "z",
    };
    assert(r@ =~= seq![ascii_lower_char(c)]);
    r
}

/// `str::to_ascii_lowercase`: `A`..=`Z` become `a`..=`z`, every other
/// character stays.
pub fn to_ascii_lowercase(s: &str) -> (r: String)
    ensures
        r@ == ascii_lower(s@),
{
    let v = chars_of(s);
    let mut out: String = String::new();
    let mut i: usize = 0;
    while i < v.len()
        invariant
            v@ == s@,
            i <= v@.len(),
            out@ == ascii_lower(s@.subrange(0, i as int)),
        decreases v@.len() - i,
    {
        let c = v[i];
        if 'A' <= c && c <= 'Z' {
            out.append(lower_letter(c));
        } else {
            out.append(s.substring_char(i, i + 1));
            proof {
                vstd::utf8::char_u32_cast(c, c as u32);
                assert(ascii_lower_char(c) == c);
            }
        }
        assert(out@ =~= ascii_lower(s@.subrange(0, i + 1)));
        i = i + 1;
    }
    assert(s@.subrange(0, s@.len() as int) =~= s@);
    out
}

fn lower_code(c: char) -> (r: u32)
    ensures
        r == ascii_lower_code(c),
{
    let u = c as u32;
    if 0x41 <= u && u <= 0x5A {
        u + 32
    } else {
        u
    }
}

/// Executable `str::eq_ignore_ascii_case`.
pub fn str_eq_ignore_ascii_case(a: &str, b: &str) -> (r: bool)
    ensures
        r == eq_ignore_ascii_case(a@, b@),
{
    let va = chars_of(a);
    let vb = chars_of(b);
    if va.len() != vb.len() {
        return false;
    }
    let mut i: usize = 0;
    while i < va.len()
        invariant
            va.len() == vb.len(),
            va@ == a@,
            vb@ == b@,
            i <= va.len(),
            forall|j: int| 0 <= j < i ==> ascii_lower_code(#[trigger] va@[j]) == ascii_lower_code(
                vb@[j],
            ),
        decreases va.len() - i,
    {
        if lower_code(va[i]) != lower_code(vb[i]) {
            return false;
        }
        i = i + 1;
    }
    true
}

/// Exact string equality.
pub fn str_eq(a: &str, b: &str) -> (r: bool)
    ensures
        r == (a@ == b@),
{
    let x: String = a.to_owned();
    let y: String = b.to_owned();
    x == y
}

} // verus!

verus! {

/// `char::to_digit` before the radix check: the value of `c` as a digit in
/// bases up to 36, or 36 when `c` is no digit at all.
pub open spec fn digit_value(c: char) -> nat {
    let u = c as u32;
    if 0x30 <= u <= 0x39 {
        (u - 0x30) as nat
    } else if 0x61 <= u <= 0x7A {
        (u - 0x61 + 10) as nat
    } else if 0x41 <= u <= 0x5A {
        (u - 0x41 + 10) as nat
    } else {
        36
    }
}

pub open spec fn all_digits(s: Seq<char>, radix: nat) -> bool {
    forall|i: int| 0 <= i < s.len() ==> digit_value(#[trigger] s[i]) < radix
}

/// The number that a string of digits denotes in base `radix`.
pub open spec fn digits_value(s: Seq<char>, radix: nat) -> nat
    decreases s.len(),
{
    if s.len() == 0 {
        0
    } else {
        digits_value(s.drop_last(), radix) * radix + digit_value(s.last())
    }
}

/// `usize::from_str_radix` (and `str::parse::<usize>` for base 10): an
/// optional leading `+`, then one or more digits, and no overflow.
pub open spec fn parse_unsigned(s: Seq<char>, radix: nat) -> Option<nat> {
    let digits = if s.len() > 0 && s[0] == '+' {
        s.drop_first()
    } else {
        s
    };
    if digits.len() == 0 || !all_digits(digits, radix) || digits_value(digits, radix)
        > usize::MAX {
        None
    } else {
        Some(digits_value(digits, radix))
    }
}

proof fn lemma_digits_value_prefix(s: Seq<char>, radix: nat, i: int)
    requires
        1 <= radix,
        0 <= i <= s.len(),
        all_digits(s, radix),
    ensures
        digits_value(s.subrange(0, i), radix) <= digits_value(s, radix),
    decreases s.len(),
{
    if i < s.len() {
        assert(s.drop_last() == s.subrange(0, s.len() - 1));
        lemma_digits_value_prefix(s.drop_last(), radix, i);
        assert(s.drop_last().subrange(0, i) == s.subrange(0, i));
        let x = digits_value(s.drop_last(), radix);
        assert(x <= x * radix) by (nonlinear_arith)
            requires
                1 <= radix,
        ;
    } else {
        assert(s.subrange(0, i) == s);
    }
}

fn digit_of(c: char) -> (r: u32)
    ensures
        r == digit_value(c),
{
    let u = c as u32;
    if 0x30 <= u && u <= 0x39 {
        u - 0x30
    } else if 0x61 <= u && u <= 0x7A {
        u - 0x61 + 10
    } else if 0x41 <= u && u <= 0x5A {
        u - 0x41 + 10
    } else {
        36
    }
}

/// Executable `usize::from_str_radix` for bases 2 to 16.
pub fn parse_usize_radix(s: &str, radix: u32) -> (r: Option<usize>)
    requires
        2 <= radix <= 16,
    ensures
        match r {
            Some(v) => parse_unsigned(s@, radix as nat) == Some(v as nat),
            None => parse_unsigned(s@, radix as nat) is None,
        },
{
    let v = chars_of(s);
    let start: usize = if v.len() > 0 && v[0] == '+' {
        1
    } else {
        0
    };
    let ghost digits = if s@.len() > 0 && s@[0] == '+' {
        s@.drop_first()
    } else {
        s@
    };
    assert(digits == v@.subrange(start as int, v@.len() as int));
    if start == v.len() {
        return None;
    }
    let mut i: usize = start;
    let mut acc: u128 = 0;
    while i < v.len()
        invariant
            start <= i <= v.len(),
            v@ == s@,
            digits == v@.subrange(start as int, v@.len() as int),
            digits == (if s@.len() > 0 && s@[0] == '+' { s@.drop_first() } else { s@ }),
            digits.len() > 0,
            all_digits(v@.subrange(start as int, i as int), radix as nat),
            acc == digits_value(v@.subrange(start as int, i as int), radix as nat),
            acc <= usize::MAX,
            2 <= radix <= 16,
        decreases v.len() - i,
    {
        let d = digit_of(v[i]);
        let ghost pre = v@.subrange(start as int, i as int);
        let ghost next = v@.subrange(start as int, i + 1);
        assert(next.drop_last() == pre);
        if d >= radix {
            assert(digits[i - start] == v@[i as int]);
            assert(!all_digits(digits, radix as nat));
            return None;
        }
        assert(next.last() == v@[i as int]);
        assert(all_digits(next, radix as nat));
        assert(acc * (radix as u128) <= usize::MAX * 16) by (nonlinear_arith)
            requires
                acc <= usize::MAX,
                radix <= 16,
        ;
        acc = acc * (radix as u128) + (d as u128);
        if acc > usize::MAX as u128 {
            proof {
                if all_digits(digits, radix as nat) {
                    lemma_digits_value_prefix(digits, radix as nat, i + 1 - start);
                    assert(digits.subrange(0, i + 1 - start) == next);
                    assert(digits_value(next, radix as nat) > usize::MAX);
                }
            }
            return None;
        }
        i = i + 1;
    }
    assert(v@.subrange(start as int, v@.len() as int) == digits);
    Some(acc as usize)
}

/// Decimal digit `d` as a character.
pub open spec fn digit_char(d: nat) -> char {
    ((d + 48) as u32) as char
}

/// Decimal rendering of a number, as `format!("{}", n)` writes it.
pub open spec fn decimal(n: nat) -> Seq<char>
    decreases n,
{
    if n < 10 {
        seq![digit_char(n)]
    } else {
        decimal(n / 10) + seq![digit_char(n % 10)]
    }
}

fn digit_str(d: usize) -> (r: &'static str)
    requires
        d < 10,
    ensures
        r@ == seq![digit_char(d as nat)],
{
    proof {
        reveal_strlit("0");
        reveal_strlit("1");
        reveal_strlit("2");
        reveal_strlit("3");
        reveal_strlit("4");
        reveal_strlit("5");
        reveal_strlit("6");
        reveal_strlit("7");
        reveal_strlit("8");
        reveal_strlit("9");
    }
    let r = if d == 0 {
        "0"
    } else if d == 1 {
        "1"
    } else if d == 2 {
        "2"
    } else if d == 3 {
        "3"
    } else if d == 4 {
        "4"
    } else if d == 5 {
        "5"
    } else if d == 6 {
        "6"
    } else if d == 7 {
        "7"
    } else if d == 8 {
        "8"
    } else {
        "9"
    };
    assert(r@ =~= seq![digit_char(d as nat)]);
    r
}

/// Appends the decimal rendering of `n` to `out`.
pub fn push_decimal(out: &mut String, n: usize)
    ensures
        final(out)@ == old(out)@ + decimal(n as nat),
    decreases n,
{
    if n >= 10 {
        push_decimal(out, n / 10);
    }
    let ghost mid = out@;
    out.append(digit_str(n % 10));
    proof {
        if n >= 10 {
            assert(decimal(n as nat) == decimal((n / 10) as nat) + seq![digit_char((n % 10) as nat)]);
            assert(out@ =~= old(out)@ + decimal(n as nat));
        } else {
            assert(out@ =~= old(out)@ + decimal(n as nat));
        }
    }
}

} // verus!

verus! {

/// Lowercasing twice is lowercasing once.
pub proof fn lemma_ascii_lower_idempotent(s: Seq<char>)
    ensures
        ascii_lower(ascii_lower(s)) == ascii_lower(s),
{
    assert forall|i: int| 0 <= i < s.len() implies #[trigger] ascii_lower(ascii_lower(s))[i]
        == ascii_lower(s)[i] by {
        let c = s[i];
        let u = c as u32;
        if 0x41 <= u <= 0x5A {
            let d = ((u + 32) as u32) as char;
            assert(d as u32 == u + 32);
        } else {
            vstd::utf8::char_u32_cast(c, u);
        }
    }
    assert(ascii_lower(ascii_lower(s)) =~= ascii_lower(s));
}

} // verus!

verus! {

proof fn lemma_skip_ws_stops(s: Seq<char>, i: int, lo: int, j: int)
    requires
        0 <= i <= s.len(),
        0 <= lo <= j <= s.len(),
    ensures
        skip_ws_front(s, i) < s.len() ==> !is_whitespace(s[skip_ws_front(s, i)]),
        skip_ws_back(s, lo, j) > lo ==> !is_whitespace(s[skip_ws_back(s, lo, j) - 1]),
    decreases s.len() - i + j - lo,
{
    if i < s.len() && is_whitespace(s[i]) {
        lemma_skip_ws_stops(s, i + 1, lo, j);
    } else if lo < j && is_whitespace(s[j - 1]) {
        lemma_skip_ws_stops(s, i, lo, j - 1);
    }
}

/// Neither end of a string is whitespace.
pub open spec fn ends_not_whitespace(s: Seq<char>) -> bool {
    s.len() > 0 ==> !is_whitespace(s[0]) && !is_whitespace(s.last())
}

/// A trimmed string has no whitespace at either end, and a string with no
/// whitespace at either end is its own trim; so trimming twice is trimming
/// once.
pub proof fn lemma_trim_ends(s: Seq<char>)
    ensures
        ends_not_whitespace(trim(s)),
        ends_not_whitespace(s) ==> trim(s) == s,
        trim(trim(s)) == trim(s),
{
    let a = skip_ws_front(s, 0);
    lemma_skip_ws_bounds(s, 0, 0, s.len() as int);
    lemma_skip_ws_bounds(s, 0, a, s.len() as int);
    lemma_skip_ws_stops(s, 0, a, s.len() as int);
    if ends_not_whitespace(s) {
        assert(s.subrange(0, s.len() as int) =~= s);
    }
    let t = trim(s);
    lemma_skip_ws_bounds(t, 0, 0, t.len() as int);
    if t.len() > 0 {
        assert(t[0] == s[a]);
        assert(t.last() == s[skip_ws_back(s, a, s.len() as int) - 1]);
    }
    assert(t.subrange(0, t.len() as int) =~= t);
}

/// ASCII lowercasing keeps whether a character is whitespace and whether it
/// is a space.
pub proof fn lemma_ascii_lower_char_class(c: char)
    ensures
        is_whitespace(ascii_lower_char(c)) == is_whitespace(c),
        (ascii_lower_char(c) == ' ') == (c == ' '),
{
    let u = c as u32;
    if 0x41 <= u <= 0x5A {
        let d = ((u + 32) as u32) as char;
        assert(d as u32 == u + 32);
        assert(' ' as u32 == 0x20);
    } else {
        vstd::utf8::char_u32_cast(c, u);
    }
}

/// Lowercasing keeps the length, adds no space, and keeps a string free of
/// whitespace at its ends.
pub proof fn lemma_ascii_lower_shape(s: Seq<char>)
    ensures
        ascii_lower(s).len() == s.len(),
        ascii_lower(s).contains(' ') ==> s.contains(' '),
        ends_not_whitespace(s) ==> ends_not_whitespace(ascii_lower(s)),
{
    let l = ascii_lower(s);
    if l.contains(' ') {
        let i = choose|i: int| 0 <= i < l.len() && l[i] == ' ';
        lemma_ascii_lower_char_class(s[i]);
        assert(s[i] == ' ');
    }
    if s.len() > 0 {
        lemma_ascii_lower_char_class(s[0]);
        lemma_ascii_lower_char_class(s.last());
    }
}

} // verus!

verus! {

proof fn lemma_decimal_digits(n: nat)
    ensures
        decimal(n).len() > 0,
        all_digits(decimal(n), 10),
        digits_value(decimal(n), 10) == n,
        decimal(n)[0] != '+',
    decreases n,
{
    let d = (n % 10) as nat;
    let c = digit_char(d);
    assert(c as u32 == d + 48);
    assert(digit_value(c) == d);
    assert(decimal(n).last() == c);
    assert(n == (n / 10) * 10 + d);
    if n < 10 {
        assert(decimal(n).drop_last() =~= Seq::<char>::empty());
        assert(digits_value(Seq::<char>::empty(), 10) == 0);
    } else {
        lemma_decimal_digits(n / 10);
        assert(decimal(n).drop_last() =~= decimal(n / 10));
        assert(digits_value(decimal(n), 10) == digits_value(decimal(n / 10), 10) * 10 + d);
        assert(decimal(n)[0] == decimal(n / 10)[0]);
        assert forall|i: int| 0 <= i < decimal(n).len() implies digit_value(#[trigger] decimal(n)[i])
            < 10 by {
            if i < decimal(n).len() - 1 {
                assert(decimal(n)[i] == decimal(n / 10)[i]);
            }
        }
    }
}

/// Reading a number back from its decimal rendering gives the number, for
/// every number that fits in `usize`; and every hexadecimal digit, in
/// either case, has its value in bases up to 16.
pub proof fn lemma_number_text(n: nat, d: nat)
    requires
        n <= usize::MAX,
        d < 16,
    ensures
        parse_unsigned(decimal(n), 10) == Some(n),
        parse_unsigned(seq!['+'] + decimal(n), 10) == Some(n),
        d < 10 ==> digit_value(((48 + d) as u32) as char) == d,
        d >= 10 ==> digit_value(((87 + d) as u32) as char) == d,
        d >= 10 ==> digit_value(((55 + d) as u32) as char) == d,
{
    lemma_decimal_digits(n);
    assert((seq!['+'] + decimal(n)).drop_first() =~= decimal(n));
    assert((((48 + d) as u32) as char) as u32 == 48 + d);
    assert((((87 + d) as u32) as char) as u32 == 87 + d);
    assert((((55 + d) as u32) as char) as u32 == 55 + d);
}

/// ASCII lowercasing moves each upper-case letter down to its lower-case
/// letter (32 code points down) and leaves every other character as it
/// is; so no upper-case ASCII letter is left, and the result matches the
/// input ignoring case.
pub proof fn lemma_ascii_lower_laws(s: Seq<char>)
    ensures
        ascii_lower(s).len() == s.len(),
        forall|i: int|
            0 <= i < s.len() ==> {
                let c = s[i] as u32;
                let l = #[trigger] ascii_lower(s)[i] as u32;
                &&& (0x41 <= c <= 0x5A ==> l == c + 32)
                &&& (!(0x41 <= c <= 0x5A) ==> ascii_lower(s)[i] == s[i])
                &&& !(0x41 <= l <= 0x5A)
            },
        eq_ignore_ascii_case(s, ascii_lower(s)),
{
    assert forall|i: int| 0 <= i < s.len() implies {
        let c = s[i] as u32;
        let l = #[trigger] ascii_lower(s)[i] as u32;
        &&& (0x41 <= c <= 0x5A ==> l == c + 32)
        &&& (!(0x41 <= c <= 0x5A) ==> ascii_lower(s)[i] == s[i])
        &&& !(0x41 <= l <= 0x5A)
    } by {
        let c = s[i];
        let u = c as u32;
        if 0x41 <= u <= 0x5A {
            let d = ((u + 32) as u32) as char;
            assert(d as u32 == u + 32);
        } else {
            vstd::utf8::char_u32_cast(c, u);
        }
    }
    lemma_ascii_lower_idempotent(s);
    assert forall|i: int| 0 <= i < s.len() implies ascii_lower_code(#[trigger] s[i])
        == ascii_lower_code(ascii_lower(s)[i]) by {
        assert(ascii_lower(ascii_lower(s))[i] == ascii_lower(s)[i]);
    }
}

} // verus!

