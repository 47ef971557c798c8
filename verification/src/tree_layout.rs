//! Layout decisions of the tree listing: the order in which a directory's entries are
//! drawn, and the branch and indent drawn before each of them.

use vstd::prelude::*;
use vstd::seq_lib::to_multiset_insert;
use crate::backend::trim_end_slash;
use crate::consts::PATH_SEP_CHAR;
use crate::kvspace_common::ends_with_char;
use crate::text::{chars_of, push_char, string_of};
use crate::xvalue_index::string_views;

verus! {

/// `a` comes before `b` character by character (a proper prefix comes first).
pub open spec fn chars_before(a: Seq<char>, b: Seq<char>) -> bool
    decreases a.len(),
{
    if a.len() == 0 {
        b.len() > 0
    } else if b.len() == 0 {
        false
    } else if a[0] != b[0] {
        a[0] < b[0]
    } else {
        chars_before(a.drop_first(), b.drop_first())
    }
}

/// Entry `a` is drawn before entry `b`: by name without trailing `/`, and for equal names
/// the plain entry before the directory.
pub open spec fn tree_before(a: Seq<char>, b: Seq<char>) -> bool {
    let ta = trim_end_slash(a);
    let tb = trim_end_slash(b);
    chars_before(ta, tb) || (ta == tb && !ends_with_char(a, PATH_SEP_CHAR) && ends_with_char(b, PATH_SEP_CHAR))
}

/// No entry is drawn after one that should come before it.
pub open spec fn tree_sorted(s: Seq<Seq<char>>) -> bool {
    forall|i: int, j: int| 0 <= i < j < s.len() ==> !tree_before(#[trigger] s[j], #[trigger] s[i])
}

/// The branch drawn before an entry: a corner for the last one, a tee otherwise.
pub open spec fn branch_glyph(last: bool) -> Seq<char> {
    if last {
        seq!['\u{2514}', '\u{2500}', '\u{2500}', ' ']
    } else {
        seq!['\u{251c}', '\u{2500}', '\u{2500}', ' ']
    }
}

/// What the lines below an entry are indented by: blank below the last one, a bar otherwise.
pub open spec fn indent_glyph(last: bool) -> Seq<char> {
    if last {
        seq![' ', ' ', ' ', ' ']
    } else {
        seq!['\u{2502}', ' ', ' ', ' ']
    }
}

proof fn lemma_chars_before_asym(a: Seq<char>, b: Seq<char>)
    ensures
        !(chars_before(a, b) && chars_before(b, a)),
        !chars_before(a, a),
    decreases a.len(),
{
    if a.len() > 0 && b.len() > 0 && a[0] == b[0] {
        lemma_chars_before_asym(a.drop_first(), b.drop_first());
    }
    if a.len() > 0 {
        lemma_chars_before_asym(a.drop_first(), a.drop_first());
    }
}

proof fn lemma_chars_before_total(a: Seq<char>, b: Seq<char>)
    ensures
        a == b || chars_before(a, b) || chars_before(b, a),
    decreases a.len(),
{
    if a.len() > 0 && b.len() > 0 && a[0] == b[0] {
        lemma_chars_before_total(a.drop_first(), b.drop_first());
        if a.drop_first() == b.drop_first() {
            assert(a =~= seq![a[0]] + a.drop_first());
            assert(b =~= seq![b[0]] + b.drop_first());
        }
    }
}

proof fn lemma_chars_before_trans(a: Seq<char>, b: Seq<char>, c: Seq<char>)
    requires
        chars_before(a, b),
        chars_before(b, c),
    ensures
        chars_before(a, c),
    decreases a.len(),
{
    if a.len() > 0 && b.len() > 0 && c.len() > 0 && a[0] == b[0] && b[0] == c[0] {
        lemma_chars_before_trans(a.drop_first(), b.drop_first(), c.drop_first());
    }
}

/// Drawing order is a strict weak order: never both ways, and what is not before stays
/// not before along a chain.
proof fn lemma_tree_order(a: Seq<char>, b: Seq<char>, c: Seq<char>)
    ensures
        !(tree_before(a, b) && tree_before(b, a)),
        !tree_before(b, a) && !tree_before(c, b) ==> !tree_before(c, a),
{
    let (ta, tb, tc) = (trim_end_slash(a), trim_end_slash(b), trim_end_slash(c));
    lemma_chars_before_asym(ta, tb);
    lemma_chars_before_asym(ta, ta);
    lemma_chars_before_asym(tb, tc);
    lemma_chars_before_asym(ta, tc);
    lemma_chars_before_total(ta, tb);
    lemma_chars_before_total(tb, tc);
    lemma_chars_before_total(ta, tc);
    if chars_before(tc, ta) {
        if chars_before(tc, tb) {
        } else if tc == tb {
        } else {
            lemma_chars_before_trans(tb, tc, ta);
        }
        if chars_before(tb, ta) {
        } else if tb == ta {
        } else {
            if chars_before(ta, tb) && chars_before(tb, tc) {
                lemma_chars_before_trans(ta, tb, tc);
            }
            if chars_before(ta, tb) && chars_before(tc, tb) == false && tc != tb {
                lemma_chars_before_trans(ta, tb, tc);
            }
        }
    }
}

/// Character-by-character comparison; see [`chars_before`].
fn chars_before_exec(a: &[char], b: &[char]) -> (r: bool)
    ensures
        r == chars_before(a@, b@),
{
    let mut i: usize = 0;
    assert(a@.skip(0) =~= a@ && b@.skip(0) =~= b@);
    while i < a.len() && i < b.len() && a[i] == b[i]
        invariant
            i <= a@.len(),
            i <= b@.len(),
            chars_before(a@, b@) == chars_before(a@.skip(i as int), b@.skip(i as int)),
        decreases a@.len() - i,
    {
        assert(a@.skip(i as int).drop_first() =~= a@.skip(i as int + 1));
        assert(b@.skip(i as int).drop_first() =~= b@.skip(i as int + 1));
        i = i + 1;
    }
    if i == a.len() {
        assert(a@.skip(i as int).len() == 0);
        i < b.len()
    } else if i == b.len() {
        assert(b@.skip(i as int).len() == 0);
        false
    } else {
        let ca = a[i];
        let cb = b[i];
        assert(a@.skip(i as int)[0] == ca && b@.skip(i as int)[0] == cb);
        ca < cb
    }
}

/// The name without its trailing `/`s.
fn trim_slashes(a: &[char]) -> (r: Vec<char>)
    ensures
        r@ == trim_end_slash(a@),
{
    let mut e: usize = a.len();
    assert(a@.take(e as int) =~= a@);
    while e > 0 && a[e - 1] == PATH_SEP_CHAR
        invariant
            e <= a@.len(),
            trim_end_slash(a@) == trim_end_slash(a@.take(e as int)),
        decreases e,
    {
        assert(a@.take(e as int).drop_last() =~= a@.take(e as int - 1));
        e = e - 1;
    }
    let mut r: Vec<char> = Vec::new();
    let mut i: usize = 0;
    while i < e
        invariant
            i <= e <= a@.len(),
            r@ =~= a@.take(i as int),
        decreases e - i,
    {
        r.push(a[i]);
        assert(a@.take(i as int + 1) =~= a@.take(i as int).push(a@[i as int]));
        i = i + 1;
    }
    r
}

/// Whether entry `a` is drawn before entry `b`; see [`tree_before`].
fn tree_before_exec(a: &str, b: &str) -> (r: bool)
    ensures
        r == tree_before(a@, b@),
{
    let ac = chars_of(a);
    let bc = chars_of(b);
    let ta = trim_slashes(&ac);
    let tb = trim_slashes(&bc);
    if chars_before_exec(&ta, &tb) {
        return true;
    }
    let same = !chars_before_exec(&tb, &ta);
    proof {
        lemma_chars_before_total(ta@, tb@);
    }
    let a_dir = ac.len() > 0 && ac[ac.len() - 1] == PATH_SEP_CHAR;
    let b_dir = bc.len() > 0 && bc[bc.len() - 1] == PATH_SEP_CHAR;
    same && !a_dir && b_dir
}

/// A directory's entries in drawing order: by name without trailing `/`, the plain entry
/// before the directory of the same name; the same entries, each as often as given.
pub fn tree_order(children: &Vec<String>) -> (r: Vec<String>)
    ensures
        r@.to_multiset() == children@.to_multiset(),
        tree_sorted(string_views(r@)),
{
    broadcast use vstd::seq_lib::group_to_multiset_ensures;
    let mut out: Vec<String> = Vec::new();
    let mut i: usize = 0;
    assert(children@.take(0) =~= Seq::<String>::empty());
    assert(out@ =~= Seq::<String>::empty());
    while i < children.len()
        invariant
            i <= children@.len(),
            out@.to_multiset() == children@.take(i as int).to_multiset(),
            tree_sorted(string_views(out@)),
        decreases children@.len() - i,
    {
        let x = children[i].clone();
        let mut j: usize = out.len();
        while j > 0 && tree_before_exec(x.as_str(), out[j - 1].as_str())
            invariant
                j <= out@.len(),
                forall|k: int| j <= k < out@.len() ==> tree_before(x@, #[trigger] out@[k]@),
            decreases j,
        {
            j = j - 1;
        }
        let ghost o = out@;
        let ghost ov = string_views(o);
        proof {
            assert(j == 0 || !tree_before(x@, ov[j - 1]));
            assert forall|k: int| 0 <= k < j implies !tree_before(x@, #[trigger] ov[k]) by {
                if k < j - 1 {
                    assert(!tree_before(ov[j - 1], ov[k]));
                    lemma_tree_order(ov[k], ov[j - 1], x@);
                }
            }
            to_multiset_insert(o, j as int, x);
            assert(children@.take(i as int + 1) =~= children@.take(i as int).push(children@[i as int]));
            vstd::seq_lib::to_multiset_build(children@.take(i as int), children@[i as int]);
        }
        out.insert(j, x);
        proof {
            let nv = string_views(out@);
            assert forall|a: int, b: int| 0 <= a < b < nv.len() implies !tree_before(#[trigger] nv[b], #[trigger] nv[a]) by {
                if a < j && b < j {
                    assert(nv[a] == ov[a] && nv[b] == ov[b]);
                } else if a < j && b == j {
                    assert(nv[a] == ov[a]);
                } else if a < j {
                    assert(nv[a] == ov[a] && nv[b] == ov[b - 1]);
                    assert(tree_before(x@, ov[b - 1]));
                    lemma_tree_order(ov[a], x@, ov[b - 1]);
                    lemma_tree_order(x@, ov[b - 1], ov[b - 1]);
                } else if a == j {
                    assert(nv[b] == ov[b - 1]);
                    assert(tree_before(x@, ov[b - 1]));
                    lemma_tree_order(x@, ov[b - 1], x@);
                } else {
                    assert(nv[a] == ov[a - 1] && nv[b] == ov[b - 1]);
                }
            }
        }
        i = i + 1;
    }
    assert(children@.take(children@.len() as int) =~= children@);
    out
}

/// The text drawn before an entry (`indent` and its branch) and the indent of the lines
/// below it.
pub fn tree_line(indent: &str, last: bool) -> (r: (String, String))
    ensures
        r.0@ == indent@ + branch_glyph(last),
        r.1@ == indent@ + indent_glyph(last),
{
    let mut branch = string_of(indent);
    let mut next = string_of(indent);
    if last {
        push_char(&mut branch, '\u{2514}');
        push_char(&mut next, ' ');
    } else {
        push_char(&mut branch, '\u{251c}');
        push_char(&mut next, '\u{2502}');
    }
    push_char(&mut branch, '\u{2500}');
    push_char(&mut branch, '\u{2500}');
    push_char(&mut branch, ' ');
    push_char(&mut next, ' ');
    push_char(&mut next, ' ');
    push_char(&mut next, ' ');
    assert(branch@ =~= indent@ + branch_glyph(last));
    assert(next@ =~= indent@ + indent_glyph(last));
    (branch, next)
}

} // verus!
