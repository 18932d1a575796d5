//! Paths as the static file server compares and builds them: the
//! components of a path, whether one path lies inside another, and the file
//! that a lookup reads. `/` always separates; `\` does where the platform
//! says so.

use vstd::prelude::*;
use vstd::string::*;

use crate::static_files::{has_root_or_prefix, is_separator, separates, starts_at_root_or_prefix};
use crate::text::{chars_of, str_eq};

verus! {

/// The pieces of a path between separators (`/`, and `\` where it
/// separates), empty ones included.
pub open spec fn pieces(p: Seq<char>, backslash: bool) -> Seq<Seq<char>>
    decreases p.len(),
{
    if p.len() == 0 {
        seq![Seq::empty()]
    } else {
        let ps = pieces(p.drop_last(), backslash);
        if is_separator(p.last(), backslash) {
            ps.push(Seq::empty())
        } else {
            ps.update(ps.len() - 1, ps.last().push(p.last()))
        }
    }
}

/// The names among pieces: those that are neither empty nor `.`, in order.
pub open spec fn names_of(ps: Seq<Seq<char>>) -> Seq<Seq<char>>
    decreases ps.len(),
{
    if ps.len() == 0 {
        Seq::empty()
    } else {
        let k = names_of(ps.drop_last());
        if ps.last().len() > 0 && ps.last() != "."@ {
            k.push(ps.last())
        } else {
            k
        }
    }
}

/// `Path::components`, each written as its text: `/` for the root of a
/// path that starts with a separator, `.` for a relative path whose first
/// piece is `.`, then the names. Repeated separators, a trailing separator
/// and `.` pieces after the first add nothing. Where `\` separates, a drive
/// or verbatim prefix is kept as the text of its pieces, which compares
/// paths of one form (such as two canonical paths) as `Path` does.
pub open spec fn components(p: Seq<char>, backslash: bool) -> Seq<Seq<char>> {
    let ps = pieces(p, backslash);
    if p.len() > 0 && is_separator(p[0], backslash) {
        seq!["/"@] + names_of(ps)
    } else if ps[0] == "."@ {
        seq!["."@] + names_of(ps)
    } else {
        names_of(ps)
    }
}

/// `Path::starts_with`: the components of `root` are the first components
/// of `path`.
pub open spec fn path_within(root: Seq<char>, path: Seq<char>, backslash: bool) -> bool {
    let a = components(root, backslash);
    let b = components(path, backslash);
    a.len() <= b.len() && b.subrange(0, a.len() as int) == a
}

/// The separator that joining inserts: `\` where it separates, else `/`.
pub open spec fn main_separator(backslash: bool) -> Seq<char> {
    if backslash {
        "\\"@
    } else {
        "/"@
    }
}

/// `PathBuf::push` of `name` onto `base`: on Unix an absolute `name`
/// replaces `base`; otherwise the main separator goes between them unless
/// `base` is empty or already ends with a separator.
pub open spec fn join(base: Seq<char>, name: Seq<char>, backslash: bool) -> Seq<char> {
    if !backslash && name.len() > 0 && name[0] == '/' {
        name
    } else if base.len() == 0 || is_separator(base.last(), backslash) {
        base + name
    } else {
        base + main_separator(backslash) + name
    }
}

/// The names that `join` is stated for: any name on Unix; where `\`
/// separates, a name that starts with neither a separator nor a drive
/// prefix (`PathBuf::push` treats those specially there).
pub open spec fn joinable(name: Seq<char>, backslash: bool) -> bool {
    backslash ==> !has_root_or_prefix(name, backslash) && !(name.len() > 0 && name[0] == '/')
}

/// The file that a lookup reads: a directory stands for its `index.html`.
pub open spec fn lookup_target(candidate: Seq<char>, is_dir: bool, backslash: bool) -> Seq<char> {
    if is_dir {
        join(candidate, "index.html"@, backslash)
    } else {
        candidate
    }
}

proof fn lemma_pieces_nonempty(p: Seq<char>, backslash: bool)
    ensures
        pieces(p, backslash).len() >= 1,
    decreases p.len(),
{
    if p.len() > 0 {
        lemma_pieces_nonempty(p.drop_last(), backslash);
    }
}

/// The components of a path, in order.
fn components_of(p: &str, backslash: bool) -> (r: Vec<String>)
    ensures
        r@.len() == components(p@, backslash).len(),
        forall|i: int| 0 <= i < r@.len() ==> #[trigger] r@[i]@ == components(p@, backslash)[i],
{
    proof {
        reveal_strlit(".");
        reveal_strlit("/");
    }
    let v = chars_of(p);
    let mut names: Vec<String> = Vec::new();
    let mut cur: String = String::new();
    let mut first_dot = false;
    let mut seen_slash = false;
    let mut i: usize = 0;
    proof {
        assert(p@.subrange(0, 0) =~= Seq::<char>::empty());
    }
    while i < v.len()
        invariant
            v@ == p@,
            i <= v@.len(),
            pieces(p@.subrange(0, i as int), backslash).len() >= 1,
            seen_slash == (pieces(p@.subrange(0, i as int), backslash).len() > 1),
            cur@ == pieces(p@.subrange(0, i as int), backslash).last(),
            names@.len() == names_of(pieces(p@.subrange(0, i as int), backslash).drop_last()).len(),
            forall|j: int| 0 <= j < names@.len() ==> #[trigger] names@[j]@ == names_of(
                pieces(p@.subrange(0, i as int), backslash).drop_last(),
            )[j],
            pieces(p@.subrange(0, i as int), backslash).len() > 1 ==> first_dot == (pieces(
                p@.subrange(0, i as int),
                backslash,
            )[0] == "."@),
        decreases v@.len() - i,
    {
        let ghost q = p@.subrange(0, i as int);
        let ghost q1 = p@.subrange(0, i + 1);
        let ghost ps = pieces(q, backslash);
        proof {
            assert(q1.drop_last() =~= q);
            assert(q1.last() == v@[i as int]);
            lemma_pieces_nonempty(q, backslash);
        }
        if separates(v[i], backslash) {
            let is_dot = str_eq(cur.as_str(), ".");
            if !seen_slash {
                first_dot = is_dot;
            }
            seen_slash = true;
            let ghost before = names@;
            if !cur.as_str().is_empty() && !is_dot {
                let piece = cur;
                names.push(piece);
            }
            cur = String::new();
            proof {
                let ps1 = pieces(q1, backslash);
                assert(ps1 == ps.push(Seq::<char>::empty()));
                assert(ps1.drop_last() =~= ps);
                assert(ps == ps.drop_last().push(ps.last()));
                assert(names_of(ps) == (if ps.last().len() > 0 && ps.last() != "."@ {
                    names_of(ps.drop_last()).push(ps.last())
                } else {
                    names_of(ps.drop_last())
                }));
                assert(ps1[0] == ps[0]);
            }
        } else {
            let ch: &str = p.substring_char(i, i + 1);
            cur.append(ch);
            proof {
                let ps1 = pieces(q1, backslash);
                assert(ch@ == seq![v@[i as int]]);
                assert(ps1 == ps.update(ps.len() - 1, ps.last().push(q1.last())));
                assert(ps1.drop_last() =~= ps.drop_last());
                assert(cur@ =~= ps1.last());
                if ps.len() > 1 {
                    assert(ps1[0] == ps[0]);
                }
            }
        }
        i = i + 1;
    }
    proof {
        assert(p@.subrange(0, p@.len() as int) =~= p@);
    }
    let ghost ps = pieces(p@, backslash);
    let is_dot = str_eq(cur.as_str(), ".");
    if !seen_slash {
        first_dot = is_dot;
    }
    if !cur.as_str().is_empty() && !is_dot {
        names.push(cur);
    }
    proof {
        assert(ps == ps.drop_last().push(ps.last()));
        assert(names_of(ps) == (if ps.last().len() > 0 && ps.last() != "."@ {
            names_of(ps.drop_last()).push(ps.last())
        } else {
            names_of(ps.drop_last())
        }));
    }
    let absolute = v.len() > 0 && separates(v[0], backslash);
    if absolute || first_dot {
        let mut r: Vec<String> = Vec::new();
        if absolute {
            r.push("/".to_owned());
        } else {
            r.push(".".to_owned());
        }
        let mut j: usize = 0;
        while j < names.len()
            invariant
                r@.len() == j + 1,
                j <= names@.len(),
                r@[0]@ == components(p@, backslash)[0],
                components(p@, backslash).len() == names@.len() + 1,
                forall|k: int| 0 <= k < names@.len() ==> #[trigger] components(p@, backslash)[k + 1] == names@[k]@,
                forall|k: int| 0 <= k < r@.len() ==> #[trigger] r@[k]@ == components(p@, backslash)[k],
            decreases names@.len() - j,
        {
            let name = names[j].clone();
            r.push(name);
            j = j + 1;
        }
        r
    } else {
        names
    }
}

/// Whether `path` lies inside `root`, comparing whole components (see
/// `path_within`): what refuses a canonical path that a symlink led out of
/// the served root.
pub fn within_root(root: &str, path: &str, backslash: bool) -> (r: bool)
    ensures
        r == path_within(root@, path@, backslash),
{
    let a = components_of(root, backslash);
    let b = components_of(path, backslash);
    if a.len() > b.len() {
        return false;
    }
    let mut i: usize = 0;
    while i < a.len()
        invariant
            a@.len() <= b@.len(),
            a@.len() == components(root@, backslash).len(),
            b@.len() == components(path@, backslash).len(),
            forall|k: int| 0 <= k < a@.len() ==> #[trigger] a@[k]@ == components(root@, backslash)[k],
            forall|k: int| 0 <= k < b@.len() ==> #[trigger] b@[k]@ == components(path@, backslash)[k],
            i <= a@.len(),
            forall|k: int| 0 <= k < i ==> components(path@, backslash)[k] == #[trigger] components(root@, backslash)[k],
        decreases a@.len() - i,
    {
        if !str_eq(a[i].as_str(), b[i].as_str()) {
            assert(components(path@, backslash).subrange(0, a@.len() as int)[i as int] != components(root@, backslash)[i as int]);
            return false;
        }
        i = i + 1;
    }
    assert(components(path@, backslash).subrange(0, a@.len() as int) =~= components(root@, backslash));
    true
}

/// Whether `join_path` takes `name` (see `joinable`).
pub fn is_joinable(name: &str, backslash: bool) -> (r: bool)
    ensures
        r == joinable(name@, backslash),
{
    let v = chars_of(name);
    !backslash || (!starts_at_root_or_prefix(&v, backslash) && !(v.len() > 0 && v[0] == '/'))
}

/// `base` joined with `name` (see `join`).
pub fn join_path(base: &str, name: &str, backslash: bool) -> (r: String)
    requires
        joinable(name@, backslash),
    ensures
        r@ == join(base@, name@, backslash),
{
    proof {
        reveal_strlit("/");
        reveal_strlit("\\");
    }
    let nv = chars_of(name);
    if !backslash && nv.len() > 0 && nv[0] == '/' {
        return name.to_owned();
    }
    let bv = chars_of(base);
    let mut r: String = base.to_owned();
    if !(bv.len() == 0 || separates(bv[bv.len() - 1], backslash)) {
        r.append(if backslash { "\\" } else { "/" });
    }
    r.append(name);
    r
}

/// The file that a lookup reads once it is known whether `candidate` is a
/// directory (see `lookup_target`).
pub fn index_candidate(candidate: &str, is_dir: bool, backslash: bool) -> (r: String)
    ensures
        r@ == lookup_target(candidate@, is_dir, backslash),
{
    proof {
        reveal_strlit("index.html");
    }
    if is_dir {
        join_path(candidate, "index.html", backslash)
    } else {
        candidate.to_owned()
    }
}

} // verus!
