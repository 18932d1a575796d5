use std::path::{Component, Path};

use hearth::static_files::{contains_parent_segment, path_extension};
use hearth::text::{parse_usize_radix, push_decimal, str_eq_ignore_ascii_case, trim_str};

#[test]
fn trim_agrees_with_str_trim() {
    for s in ["", "  ", " a ", "\t\n x \r", "\u{3000}a\u{85}", "\u{200B}x\u{200B}", "\u{2028}a b\u{A0}", "\u{1680}"] {
        assert_eq!(trim_str(s), s.trim(), "{s:?}");
    }
}

#[test]
fn radix_parsing_agrees_with_from_str_radix() {
    let inputs = [
        "", "+", "-", "+0", "00", "ff", "FF", "fF", "g", "+ff", "-1", " 1", "1 ", "12a", "0x1",
        "18446744073709551615", "18446744073709551616", "ffffffffffffffff", "10000000000000000",
    ];
    for s in inputs {
        for radix in [10u32, 16] {
            assert_eq!(parse_usize_radix(s, radix), usize::from_str_radix(s, radix).ok(), "{s:?} base {radix}");
        }
    }
}

#[test]
fn ascii_case_comparison_agrees_with_std() {
    let pairs = [("close", "CLOSE"), ("Keep-Alive", "keep-alive"), ("é", "É"), ("a", "ab"), ("", "")];
    for (a, b) in pairs {
        assert_eq!(str_eq_ignore_ascii_case(a, b), a.eq_ignore_ascii_case(b), "{a:?} {b:?}");
    }
}

#[test]
fn extension_agrees_with_path_extension() {
    let paths = [
        "", "/", ".", "..", "a", "a.b", ".a", "..a", "a.", "a..b", "/x/y.tar.gz", "/x/.hidden",
        "/x/y.css/", "/x/y.css/.", "/x/y.css/./", "x/..", "/x//y.js", "./a.html", "a/./b.png",
        "/r/.bashrc.txt", "...", "/a/b.", "/a/.",
    ];
    for p in paths {
        let expected = Path::new(p).extension().map(|e| e.to_str().unwrap().to_string());
        assert_eq!(path_extension(p, false), expected, "{p:?}");
    }
}

#[test]
fn parent_segment_check_agrees_with_path_components() {
    let rels = ["", "a", "..", "a/..", "../a", "a/../b", "...", "..a", "a..", "./..", "a//..//b", ".", "a/.", ".../..."];
    for r in rels {
        let chars: Vec<char> = r.chars().collect();
        let std_refuses = Path::new(r).components().any(|c| !matches!(c, Component::Normal(_) | Component::CurDir));
        assert_eq!(contains_parent_segment(&chars, false), std_refuses, "{r:?}");
    }
}

#[test]
fn decimal_agrees_with_to_string() {
    for n in [0usize, 7, 10, 200, 404, 65535, 10485760, usize::MAX] {
        let mut s = String::new();
        push_decimal(&mut s, n);
        assert_eq!(s, n.to_string());
    }
}
