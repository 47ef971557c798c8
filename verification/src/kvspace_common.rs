//! Path helpers shared by every store: joining, splitting and classifying key paths.
//!
//! A key path is absolute (`/a/b`); a trailing `/` marks a directory index and a trailing `·`
//! a member index (`m·` holds the members of container `m`).

use vstd::prelude::*;
use crate::consts::{OBJ_SEP_CHAR, PATH_SEP_CHAR};
use crate::text::{chars_of, push_char, push_str, string_from_chars, string_of};
use crate::xvalue::sub_chars;

verus! {

/// The root path `/`.
pub open spec fn root_path() -> Seq<char> {
    seq![PATH_SEP_CHAR]
}

/// Whether a path ends with `c`.
pub open spec fn ends_with_char(s: Seq<char>, c: char) -> bool {
    s.len() > 0 && s.last() == c
}

/// Whether a path ends with `c`.
pub fn ends_with(s: &[char], c: char) -> (r: bool)
    ensures
        r == ends_with_char(s@, c),
{
    s.len() > 0 && s[s.len() - 1] == c
}

/// Whether a path is the root `/`.
pub fn is_root(s: &[char]) -> (r: bool)
    ensures
        r == (s@ == root_path()),
{
    let r = s.len() == 1 && s[0] == PATH_SEP_CHAR;
    proof {
        if s@.len() == 1 && s@[0] == PATH_SEP_CHAR {
            assert(s@ =~= root_path());
        }
    }
    r
}

/// The parent path joined with a child name: `/child` under the root, no extra separator
/// after a parent that ends with `/` or `·`, else `parent/child`.
pub open spec fn join_path_spec(parent: Seq<char>, child: Seq<char>) -> Seq<char> {
    if parent == root_path() {
        root_path() + child
    } else if ends_with_char(parent, PATH_SEP_CHAR) || ends_with_char(parent, OBJ_SEP_CHAR) {
        parent + child
    } else {
        parent + root_path() + child
    }
}

/// Joins a parent path and a child name; see [`join_path_spec`].
pub fn join_path(parent: &str, child: &str) -> (s: String)
    ensures
        s@ == join_path_spec(parent@, child@),
{
    let p = chars_of(parent);
    let c = chars_of(child);
    join_chars(&p, &c)
}

/// Joins a parent path and a child name given as characters.
pub fn join_chars(p: &[char], c: &[char]) -> (s: String)
    ensures
        s@ == join_path_spec(p@, c@),
{
    let mut s = string_from_chars(p);
    if !is_root(p) && !ends_with(p, PATH_SEP_CHAR) && !ends_with(p, OBJ_SEP_CHAR) {
        push_char(&mut s, PATH_SEP_CHAR);
    }
    let ghost start = s@;
    let mut i: usize = 0;
    while i < c.len()
        invariant
            i <= c.len(),
            s@ == start + c@.take(i as int),
        decreases c.len() - i,
    {
        push_char(&mut s, c[i]);
        i = i + 1;
        assert(s@ =~= start + c@.take(i as int));
    }
    assert(c@.take(c.len() as int) == c@);
    proof {
        if p@ == root_path() {
            assert(ends_with_char(p@, PATH_SEP_CHAR));
        }
    }
    s
}

/// A path without its trailing `/` or `·` (one character).
pub open spec fn strip_dir_suf_spec(path: Seq<char>) -> Seq<char> {
    if ends_with_char(path, PATH_SEP_CHAR) || ends_with_char(path, OBJ_SEP_CHAR) {
        path.drop_last()
    } else {
        path
    }
}

/// Drops a trailing `/` or `·`.
pub fn strip_dir_suf(path: &str) -> (s: String)
    ensures
        s@ == strip_dir_suf_spec(path@),
{
    let p = chars_of(path);
    let r = strip_chars(&p);
    string_from_chars(&r)
}

/// Drops a trailing `/` or `·` of a character path.
pub fn strip_chars(p: &[char]) -> (r: Vec<char>)
    ensures
        r@ == strip_dir_suf_spec(p@),
{
    if ends_with(p, PATH_SEP_CHAR) || ends_with(p, OBJ_SEP_CHAR) {
        sub_chars(p, 0, p.len() - 1)
    } else {
        sub_chars(p, 0, p.len())
    }
}

/// The index of the last `c` in `s`.
pub open spec fn rfind_char(s: Seq<char>, c: char) -> Option<nat>
    decreases s.len(),
{
    if s.len() == 0 {
        None
    } else if s.last() == c {
        Some((s.len() - 1) as nat)
    } else {
        rfind_char(s.drop_last(), c)
    }
}

/// `rfind_char` finds an occurrence inside the text.
pub proof fn lemma_rfind_char(s: Seq<char>, c: char)
    ensures
        rfind_char(s, c) matches Some(i) ==> i < s.len() && s[i as int] == c,
    decreases s.len(),
{
    if s.len() > 0 && s.last() != c {
        lemma_rfind_char(s.drop_last(), c);
    }
}

/// The index of the last `c` in `s`, if any.
pub fn rfind_index(s: &[char], c: char) -> (r: Option<usize>)
    ensures
        r matches Some(i) ==> rfind_char(s@, c) == Some(i as nat),
        r is None ==> rfind_char(s@, c) is None,
{
    let mut j: usize = s.len();
    assert(s@.take(j as int) == s@);
    while j > 0
        invariant
            j <= s.len(),
            rfind_char(s@, c) == rfind_char(s@.take(j as int), c),
        decreases j,
    {
        assert(s@.take(j as int).drop_last() == s@.take(j - 1));
        if s[j - 1] == c {
            return Some(j - 1);
        }
        j = j - 1;
    }
    None
}

/// A path split at its last `/` into (parent, last): the root gives (`/`, empty); no `/`
/// gives (empty, path); a leading `/` only gives (`/`, rest).
pub open spec fn sep_path_spec(path: Seq<char>) -> (Seq<char>, Seq<char>) {
    if path == root_path() {
        (root_path(), seq![])
    } else {
        match rfind_char(path, PATH_SEP_CHAR) {
            None => (seq![], path),
            Some(i) => if i == 0 {
                (root_path(), path.skip(1))
            } else {
                (path.take(i as int), path.skip(i as int + 1))
            },
        }
    }
}

/// The last `c` in `s`: nothing after it is `c`.
pub proof fn lemma_rfind_last(s: Seq<char>, c: char, k: int)
    requires
        rfind_char(s, c) matches Some(i) && i < k < s.len(),
    ensures
        s[k] != c,
    decreases s.len(),
{
    if s.last() != c {
        if k < s.len() - 1 {
            lemma_rfind_last(s.drop_last(), c, k);
        }
    }
}

/// Joining the two halves `sep_path` splits an absolute path into gives the path back,
/// unless the part before its last `/` ends with `/` or `·` (then `join_path` adds no
/// separator).
pub proof fn law_join_sep_path(p: Seq<char>)
    requires
        p.len() > 0,
        p[0] == PATH_SEP_CHAR,
        forall|i: int| 0 < i < p.len() && #[trigger] p[i] == PATH_SEP_CHAR
            && (forall|k: int| i < k < p.len() ==> p[k] != PATH_SEP_CHAR)
            ==> p[i - 1] != PATH_SEP_CHAR && p[i - 1] != OBJ_SEP_CHAR,
    ensures
        join_path_spec(sep_path_spec(p).0, sep_path_spec(p).1) == p,
{
    if p == root_path() {
        assert(root_path() + Seq::<char>::empty() =~= p);
        return;
    }
    lemma_rfind_char(p, PATH_SEP_CHAR);
    assert(rfind_char(p, PATH_SEP_CHAR) is Some) by {
        if rfind_char(p, PATH_SEP_CHAR) is None {
            lemma_rfind_none(p, PATH_SEP_CHAR, 0);
        }
    }
    let i = rfind_char(p, PATH_SEP_CHAR)->0;
    assert forall|k: int| i < k < p.len() implies p[k] != PATH_SEP_CHAR by {
        lemma_rfind_last(p, PATH_SEP_CHAR, k);
    }
    if i == 0 {
        assert(root_path() + p.skip(1) =~= p);
    } else {
        let parent = p.take(i as int);
        assert(parent.last() == p[i - 1]);
        assert(parent != root_path()) by {
            if parent == root_path() {
                assert(parent.last() == PATH_SEP_CHAR);
            }
        }
        assert(parent + root_path() + p.skip(i as int + 1) =~= p);
    }
}

/// `rfind_char` finds nothing only when the character does not occur.
proof fn lemma_rfind_none(s: Seq<char>, c: char, k: int)
    requires
        rfind_char(s, c) is None,
        0 <= k < s.len(),
    ensures
        s[k] != c,
    decreases s.len(),
{
    if s.last() != c && k < s.len() - 1 {
        lemma_rfind_none(s.drop_last(), c, k);
    }
}

/// A directory prefix: the root, or a path ending with `/` or `·`.
pub open spec fn dir_prefix_spec(p: Seq<char>) -> bool {
    p == root_path() || ends_with_char(p, PATH_SEP_CHAR) || ends_with_char(p, OBJ_SEP_CHAR)
}

/// Checks a directory prefix; the error names the path.
pub fn validate_dir(path: &str) -> (r: Result<(), String>)
    ensures
        r is Ok <==> dir_prefix_spec(path@),
        r matches Err(e) ==> e@ == crate::consts::ERR_DIR_MUST_END_WITH_SLASH@ + ": "@ + path@,
{
    let p = chars_of(path);
    if is_root(&p) || ends_with(&p, PATH_SEP_CHAR) || ends_with(&p, OBJ_SEP_CHAR) {
        return Ok(());
    }
    let mut e = string_of(crate::consts::ERR_DIR_MUST_END_WITH_SLASH);
    push_str(&mut e, ": ");
    push_str(&mut e, path);
    Err(e)
}

/// Splits a path into (parent, last); see [`sep_path_spec`].
pub fn sep_path(path: &str) -> (r: (String, String))
    ensures
        r.0@ == sep_path_spec(path@).0,
        r.1@ == sep_path_spec(path@).1,
{
    let p = chars_of(path);
    let (a, b) = sep_chars(&p);
    (string_from_chars(&a), string_from_chars(&b))
}

/// Splits a character path into (parent, last).
pub fn sep_chars(p: &[char]) -> (r: (Vec<char>, Vec<char>))
    ensures
        r.0@ == sep_path_spec(p@).0,
        r.1@ == sep_path_spec(p@).1,
{
    if is_root(p) {
        return (sub_chars(p, 0, 1), Vec::new());
    }
    match rfind_index(p, PATH_SEP_CHAR) {
        None => (Vec::new(), sub_chars(p, 0, p.len())),
        Some(i) => {
            proof { lemma_rfind_char(p@, PATH_SEP_CHAR); }
            assert(i < p.len());
            if i == 0 {
                let mut root: Vec<char> = Vec::new();
                root.push(PATH_SEP_CHAR);
                assert(root@ =~= root_path());
                (root, sub_chars(p, 1, p.len()))
            } else {
                (sub_chars(p, 0, i), sub_chars(p, i + 1, p.len()))
            }
        },
    }
}

/// Which separator ends the parent index of a path's last segment: `/` for a directory,
/// `·` for a member index.
#[derive(Debug, Clone, Copy, PartialEq, Eq, Structural)]
pub enum SepKind {
    SepDir,
    SepDict,
}

/// The parent index and member name of a path: a last segment `a·b` (with `b` non-empty
/// and `a` non-empty) is member `b` of `parent/a·`; any other last segment `n` is entry `n`
/// of the directory `parent/` (the root stays `/`).
pub open spec fn split_index_spec(path: Seq<char>) -> (Seq<char>, Seq<char>, SepKind) {
    let (p0, last) = sep_path_spec(path);
    let parent = if p0 == root_path() { p0 } else { p0 + root_path() };
    match rfind_char(last, OBJ_SEP_CHAR) {
        Some(i) => if i > 0 && i + 1 < last.len() {
            (parent + last.take(i as int + 1), last.skip(i as int + 1), SepKind::SepDict)
        } else {
            (parent, last, SepKind::SepDir)
        },
        None => (parent, last, SepKind::SepDir),
    }
}

/// Splits a path into (parent index, member name, separator kind); see [`split_index_spec`].
pub fn split_index(path: &str) -> (r: (String, String, SepKind))
    ensures
        r.0@ == split_index_spec(path@).0,
        r.1@ == split_index_spec(path@).1,
        r.2 == split_index_spec(path@).2,
{
    let p = chars_of(path);
    let (a, b, k) = split_index_chars(&p);
    (string_from_chars(&a), string_from_chars(&b), k)
}

/// Splits a character path into (parent index, member name, separator kind).
pub fn split_index_chars(p: &[char]) -> (r: (Vec<char>, Vec<char>, SepKind))
    ensures
        r.0@ == split_index_spec(p@).0,
        r.1@ == split_index_spec(p@).1,
        r.2 == split_index_spec(p@).2,
{
    let (mut parent, last) = sep_chars(p);
    if !is_root(&parent) {
        parent.push(PATH_SEP_CHAR);
        assert(parent@ =~= sep_path_spec(p@).0 + root_path());
    }
    match rfind_index(&last, OBJ_SEP_CHAR) {
        Some(i) => {
            proof { lemma_rfind_char(last@, OBJ_SEP_CHAR); }
            if i > 0 && i < last.len() - 1 {
                let head = sub_chars(&last, 0, i + 1);
                let mut dir = parent;
                let mut j: usize = 0;
                let ghost start = dir@;
                while j < head.len()
                    invariant
                        j <= head.len(),
                        dir@ == start + head@.take(j as int),
                    decreases head.len() - j,
                {
                    dir.push(head[j]);
                    j = j + 1;
                    assert(dir@ =~= start + head@.take(j as int));
                }
                assert(head@.take(head.len() as int) == head@);
                let name = sub_chars(&last, i + 1, last.len());
                return (dir, name, SepKind::SepDict);
            }
            (parent, last, SepKind::SepDir)
        },
        None => (parent, last, SepKind::SepDir),
    }
}

} // verus!
