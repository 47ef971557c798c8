//! The key-value space over a byte store: directory indexes, member indexes, soft links and
//! extension indexes, all kept as XValues under path keys.
//!
//! A directory `d/` keeps an index of its entries; a container `m` keeps its members under
//! `m·`. A pointer value at a path prefix redirects addressing below it (one hop at a time,
//! until no prefix holds a pointer); deleting acts on the pointer itself.

use vstd::prelude::*;
use crate::consts::{OBJ_SEP_CHAR, PATH_SEP_CHAR};
use crate::coord::split_on;
use crate::kvspace_common::{
    ends_with, ends_with_char, is_root, join_chars, join_path_spec, root_path, split_index_chars,
    split_index_spec, strip_chars, strip_dir_suf_spec,
};
use crate::store::{part_of, patched, starts_with_seq, KVStore};
use crate::text::{chars_of, string_from_chars};
use crate::xvalue::{sub_chars, XValue, XV};
use crate::consts::{KIND_EXT_INDEX, KIND_INDEX};
use crate::text::str_eq;
use crate::xvalue::{body_of, decode_head_spec, decode_xvalue_head, parse_kindexpr_spec};
use crate::xvalue_codec::{decode_panics, decode_stored, decode_stored_spec, decode_would_panic};
use crate::consts::{
    ERR_DIR_MUST_END_WITH_SLASH, ERR_EXT_CASCADE, ERR_EXT_DEL, ERR_EXT_WRITE, ERR_LINK_TYPE_MISMATCH,
    KIND_MAP, KIND_OBJ,
};
use crate::coord::{grow_coord_dims, is_coord_chars, parse_coord};
use crate::kvspace_common::{sep_chars, sep_path_spec};
use crate::text::{push_char, push_str, string_of};
use crate::xvalue::{encode_head, encode_head_perm_spec, MapValue};
use crate::xvalue_laws::{grown_index_body, grown_index_bytes, index_geometry_fits, names_nul_free, nul_free};
use crate::xvalue_index::{
    decode_ext_index, decode_ext_path_spec, encode_ext_index_grow, encode_index_grow,
    grow_cap_checked, index_body_len, index_shape, matrix_cap, matrix_width, new_ext_index, new_index,
    string_views,
};

verus! {

/// What a store holds under `k`: the stored value, or `Nil` when absent.
pub open spec fn stored(m: Map<Seq<char>, Seq<u8>>, k: Seq<char>) -> XV {
    if m.dom().contains(k) { decode_stored_spec(m[k]) } else { XV::Nil }
}

/// A directory value: absent, a member list or an extension index.
pub open spec fn dir_ok(v: XV) -> bool {
    v is Nil || v is Index || v is ExtIndex
}

/// A member list without its single empty placeholder.
pub open spec fn normalize_spec(c: Seq<Seq<char>>) -> Seq<Seq<char>> {
    if c.len() == 1 && c[0].len() == 0 { seq![] } else { c }
}

/// The entries a directory value lists.
pub open spec fn dir_names(v: XV) -> Seq<Seq<char>> {
    match v {
        XV::Index(c) => normalize_spec(c),
        XV::ExtIndex(c, _) => c,
        _ => seq![],
    }
}

/// The extension path of the index stored under `k` (empty unless it is an extindex).
pub open spec fn ext_of(m: Map<Seq<char>, Seq<u8>>, k: Seq<char>) -> Seq<char> {
    if m.dom().contains(k) && !decode_panics(m[k]) {
        let h = decode_head_spec(m[k]);
        if parse_kindexpr_spec(h.langtype).1 == KIND_EXT_INDEX@ {
            decode_ext_path_spec(body_of(h, m[k]), h.phys_dims)
        } else {
            seq![]
        }
    } else {
        seq![]
    }
}

/// The geometry and body of the plain member list stored under `k`, if it is one.
pub open spec fn index_geom(m: Map<Seq<char>, Seq<u8>>, k: Seq<char>) -> Option<(Seq<i32>, Seq<u8>)> {
    if m.dom().contains(k) && !decode_panics(m[k]) {
        let h = decode_head_spec(m[k]);
        if parse_kindexpr_spec(h.langtype).1 == KIND_INDEX@ {
            Some((h.phys_dims, body_of(h, m[k])))
        } else {
            None
        }
    } else {
        None
    }
}

/// The directory a call works on: resolved when asked to.
pub open spec fn dir_for(m: Map<Seq<char>, Seq<u8>>, p: Seq<char>, resolve: bool) -> Seq<char> {
    if resolve { resolved(m, p) } else { p }
}

/// What reading entry `k` of directory `p` gives: the value under `p` joined with `k`; for a
/// missing non-directory entry, the value under the extension path, if `p` has one.
pub open spec fn get_entry(m: Map<Seq<char>, Seq<u8>>, p: Seq<char>, k: Seq<char>) -> XV {
    let full = join_path_spec(p, k);
    if is_dir_spec(full) || m.dom().contains(full) {
        stored(m, full)
    } else if ext_of(m, p).len() == 0 {
        XV::Nil
    } else {
        stored(m, join_path_spec(ext_of(m, p), k))
    }
}

/// `mem` followed by the entries of `ext` it does not hold.
pub open spec fn merge_names(mem: Seq<Seq<char>>, ext: Seq<Seq<char>>) -> Seq<Seq<char>>
    decreases ext.len(),
{
    if ext.len() == 0 {
        mem
    } else {
        let t = merge_names(mem, ext.drop_last());
        if mem.contains(ext.last()) { t } else { t.push(ext.last()) }
    }
}

/// The entries of directory `d`, with those of its extension when asked to.
pub open spec fn list_spec(m: Map<Seq<char>, Seq<u8>>, d: Seq<char>, expand_ext: bool) -> Seq<Seq<char>> {
    if !is_dir_spec(d) {
        seq![]
    } else {
        let mem = dir_names(stored(m, d));
        let ext = if expand_ext && ext_of(m, d).len() > 0 { dir_names(stored(m, ext_of(m, d))) } else { seq![] };
        merge_names(mem, ext)
    }
}

/// Listing `d` reads only directory values.
pub open spec fn list_ok(m: Map<Seq<char>, Seq<u8>>, d: Seq<char>, expand_ext: bool) -> bool {
    is_dir_spec(d) ==> dir_ok(stored(m, d)) && (expand_ext && ext_of(m, d).len() > 0 ==> dir_ok(stored(m, ext_of(m, d))))
}

/// The directory part of a key path, as a directory path (`dir/`, or the root).
pub open spec fn key_dir(key: Seq<char>) -> Seq<char> {
    let p0 = sep_path_spec(key).0;
    if p0 == root_path() { p0 } else { p0 + root_path() }
}

/// The stored bytes of entry `l` of directory `p`, or of the same entry of its extension;
/// empty when neither holds it.
pub open spec fn raw_entry(m: Map<Seq<char>, Seq<u8>>, p: Seq<char>, l: Seq<char>) -> Seq<u8> {
    let full = join_path_spec(p, l);
    if m.dom().contains(full) {
        m[full]
    } else if ext_of(m, p).len() > 0 && m.dom().contains(join_path_spec(ext_of(m, p), l)) {
        m[join_path_spec(ext_of(m, p), l)]
    } else {
        seq![]
    }
}

/// A path without its directory suffix (the root kept as is).
pub open spec fn parent_clean(path: Seq<char>) -> Seq<char> {
    if is_dir_spec(path) && path != root_path() { strip_dir_suf_spec(path) } else { path }
}

/// A path with its parent directory's links followed: the last segment is kept as is (a
/// final link is not followed), a directory path comes back with a trailing `/`.
pub open spec fn resolved_parent_spec(m: Map<Seq<char>, Seq<u8>>, path: Seq<char>) -> Seq<char> {
    let clean = parent_clean(path);
    let pl = sep_path_spec(clean);
    if pl.0 == clean {
        path
    } else {
        let j = join_path_spec(resolved(m, pl.0), pl.1);
        if is_dir_spec(path) && path != root_path() { j.push(PATH_SEP_CHAR) } else { j }
    }
}

/// The bytes under `k` hold an extension index (by their head's kind).
pub open spec fn holds_ext_index(m: Map<Seq<char>, Seq<u8>>, k: Seq<char>) -> bool {
    m.dom().contains(k) && !decode_panics(m[k]) && parse_kindexpr_spec(decode_head_spec(m[k]).langtype).1 == KIND_EXT_INDEX@
}

/// The key a link standing for the directory `rp` is kept under: `rp` without its suffix.
pub open spec fn dir_link_key(rp: Seq<char>) -> Seq<char> {
    if is_dir_spec(rp) { strip_dir_suf_spec(rp) } else { rp }
}

/// The bytes under `k` carry a pointer head.
pub open spec fn link_head(m: Map<Seq<char>, Seq<u8>>, k: Seq<char>) -> bool {
    m.dom().contains(k) && !decode_panics(m[k]) && decode_head_spec(m[k]).reference == crate::xvalue::REF_PTR
}

/// The key prefix a subtree deletion or copy scans: the path without a directory's `/`.
pub open spec fn scan_base(p: Seq<char>) -> Seq<char> {
    if is_dir_spec(p) && p != root_path() { p.drop_last() } else { p }
}

/// The key a prefix's link would be stored under.
pub open spec fn link_key_of(p: Seq<char>) -> Seq<char> {
    if is_dir_spec(p) && p != root_path() { strip_dir_suf_spec(p) } else { p }
}

/// The keys named by a list of character keys.
pub open spec fn char_key_set(keys: Seq<Vec<char>>) -> Set<Seq<char>> {
    Set::new(|k: Seq<char>| exists|i: int| 0 <= i < keys.len() && (#[trigger] keys[i])@ == k)
}

/// Where entry `l` of directory `p` is stored: under `p` itself, else under the
/// extension path of `p`; `None` when neither holds it.
pub open spec fn entry_key(m: Map<Seq<char>, Seq<u8>>, p: Seq<char>, l: Seq<char>) -> Option<Seq<char>> {
    let full = join_path_spec(p, l);
    if m.dom().contains(full) {
        Some(full)
    } else if ext_of(m, p).len() > 0 && m.dom().contains(join_path_spec(ext_of(m, p), l)) {
        Some(join_path_spec(ext_of(m, p), l))
    } else {
        None
    }
}

/// Entry `idx` of directory `d`: row `idx` of its plain member list when the extension is
/// not expanded, else the `idx`-th listed entry; `None` past the end or for `idx < 0`.
pub open spec fn list_at_spec(m: Map<Seq<char>, Seq<u8>>, d: Seq<char>, idx: int, expand_ext: bool) -> Option<Seq<char>> {
    if idx < 0 {
        None
    } else if !expand_ext && is_dir_spec(d) && index_geom(m, d) is Some {
        let (dims, body) = index_geom(m, d)->0;
        if idx >= crate::xvalue_index::matrix_count_spec(dims) {
            None
        } else {
            crate::xvalue_index::matrix_at_spec(body, crate::xvalue_index::matrix_width_spec(dims), idx as nat)
        }
    } else {
        let l = list_spec(m, d, expand_ext);
        if idx < l.len() { Some(l[idx]) } else { None }
    }
}

/// The number of entries `list_len` reports: the head count of a plain member list when the
/// extension is not expanded, else the listing's length (both as `i32`).
pub open spec fn list_len_spec(m: Map<Seq<char>, Seq<u8>>, d: Seq<char>, expand_ext: bool) -> int {
    match index_geom(m, d) {
        Some((dims, _)) => if !expand_ext && is_dir_spec(d) {
            (crate::xvalue_index::matrix_count_spec(dims) as i32) as int
        } else {
            (list_spec(m, d, expand_ext).len() as i32) as int
        },
        None => (list_spec(m, d, expand_ext).len() as i32) as int,
    }
}

/// A directory path: it ends with `/` or with the member separator `·`.
pub open spec fn is_dir_spec(p: Seq<char>) -> bool {
    ends_with_char(p, PATH_SEP_CHAR) || ends_with_char(p, OBJ_SEP_CHAR)
}

/// The parent index and entry name of a path (a directory path without its suffix).
pub open spec fn parent_name_spec(p: Seq<char>) -> (Seq<char>, Seq<char>) {
    let clean = if is_dir_spec(p) && p != root_path() { strip_dir_suf_spec(p) } else { p };
    let (a, b, _) = split_index_spec(clean);
    (a, b)
}

/// `s` without leading `/`.
pub open spec fn trim_start_slash(s: Seq<char>) -> Seq<char>
    decreases s.len(),
{
    if s.len() > 0 && s[0] == PATH_SEP_CHAR { trim_start_slash(s.drop_first()) } else { s }
}

/// `s` without trailing `/`.
pub open spec fn trim_end_slash(s: Seq<char>) -> Seq<char>
    decreases s.len(),
{
    if s.len() > 0 && s.last() == PATH_SEP_CHAR { trim_end_slash(s.drop_last()) } else { s }
}

/// The segments of a path: its text between `/`, leading and trailing `/` removed.
pub open spec fn path_parts(p: Seq<char>) -> Seq<Seq<char>> {
    let t = trim_end_slash(trim_start_slash(p));
    if t.len() == 0 { seq![] } else { split_on(t, PATH_SEP_CHAR) }
}

/// The path of the first `i + 1` segments, joined under the root.
pub open spec fn prefix_path(parts: Seq<Seq<char>>, i: nat) -> Seq<char>
    decreases i,
{
    if i == 0 {
        join_path_spec(root_path(), parts[0])
    } else {
        join_path_spec(prefix_path(parts, (i - 1) as nat), parts[i as int])
    }
}

/// Segments joined by `/`.
pub open spec fn join_parts(parts: Seq<Seq<char>>) -> Seq<char>
    decreases parts.len(),
{
    if parts.len() == 0 {
        seq![]
    } else if parts.len() == 1 {
        parts[0]
    } else {
        join_parts(parts.drop_last()) + seq![PATH_SEP_CHAR] + parts.last()
    }
}

/// The first prefix (from the `i`-th on, root to leaf) that holds a pointer.
pub open spec fn first_ptr(m: Map<Seq<char>, Seq<u8>>, parts: Seq<Seq<char>>, i: nat) -> Option<nat>
    decreases parts.len() - i,
{
    if i >= parts.len() {
        None
    } else if stored(m, prefix_path(parts, i)) is Ptr {
        Some(i)
    } else {
        first_ptr(m, parts, i + 1)
    }
}

/// One hop of link resolution: the first prefix holding a pointer is replaced by the
/// pointer's target (the rest of the path kept); `false` when no prefix holds one.
pub open spec fn resolve_one_spec(m: Map<Seq<char>, Seq<u8>>, p: Seq<char>) -> (Seq<char>, bool) {
    if p == root_path() {
        (p, false)
    } else {
        let parts = path_parts(p);
        match first_ptr(m, parts, 0) {
            Some(i) => {
                let t = match stored(m, prefix_path(parts, i)) {
                    XV::Ptr(_, t) => t,
                    _ => seq![],
                };
                if i + 1 < parts.len() {
                    (join_path_spec(t, join_parts(parts.skip(i as int + 1))), true)
                } else {
                    (t, true)
                }
            },
            None => (p, false),
        }
    }
}

/// Resolution within `n` further hops: the path no prefix of which holds a pointer.
pub open spec fn resolve_steps(m: Map<Seq<char>, Seq<u8>>, p: Seq<char>, n: nat) -> Option<Seq<char>>
    decreases n,
{
    let (r, c) = resolve_one_spec(m, p);
    if !c {
        Some(r)
    } else if n == 0 {
        None
    } else {
        resolve_steps(m, r, (n - 1) as nat)
    }
}

/// Link resolution of `p` settles after finitely many hops.
pub open spec fn resolves(m: Map<Seq<char>, Seq<u8>>, p: Seq<char>) -> bool {
    exists|n: nat| #[trigger] resolve_steps(m, p, n) is Some
}

/// Link resolution of `p` settles within `usize::MAX` hops.
pub open spec fn settles(m: Map<Seq<char>, Seq<u8>>, p: Seq<char>) -> bool {
    resolve_steps(m, p, usize::MAX as nat) is Some
}

/// Where link resolution of `p` settles.
pub open spec fn resolved(m: Map<Seq<char>, Seq<u8>>, p: Seq<char>) -> Seq<char> {
    resolve_steps(m, p, choose|n: nat| #[trigger] resolve_steps(m, p, n) is Some)->0
}

/// The hop taken at the first pointer prefix.
pub proof fn lemma_resolve_one_found(m: Map<Seq<char>, Seq<u8>>, p: Seq<char>, i: nat, t: Seq<char>)
    requires
        p != root_path(),
        first_ptr(m, path_parts(p), 0) == Some(i),
        i < path_parts(p).len(),
        stored(m, prefix_path(path_parts(p), i)) matches XV::Ptr(_, tt) && tt == t,
    ensures
        resolve_one_spec(m, p) == (if i + 1 < path_parts(p).len() {
            join_path_spec(t, join_parts(path_parts(p).skip(i as int + 1)))
        } else {
            t
        }, true),
{
}

/// More hops do not change a settled resolution.
pub proof fn lemma_resolve_steps_mono(m: Map<Seq<char>, Seq<u8>>, p: Seq<char>, n: nat, k: nat)
    requires
        resolve_steps(m, p, n) is Some,
        n <= k,
    ensures
        resolve_steps(m, p, k) == resolve_steps(m, p, n),
    decreases n,
{
    let (r, c) = resolve_one_spec(m, p);
    if c && n > 0 {
        lemma_resolve_steps_mono(m, r, (n - 1) as nat, (k - 1) as nat);
    }
}

/// A resolution that settles within some hops settles on the same path as any other.
pub proof fn lemma_resolved_steps(m: Map<Seq<char>, Seq<u8>>, p: Seq<char>, n: nat)
    requires
        resolve_steps(m, p, n) is Some,
    ensures
        resolves(m, p),
        resolved(m, p) == resolve_steps(m, p, n)->0,
{
    let k = choose|k: nat| #[trigger] resolve_steps(m, p, k) is Some;
    if k <= n {
        lemma_resolve_steps_mono(m, p, k, n);
    } else {
        lemma_resolve_steps_mono(m, p, n, k);
    }
}

/// The parent index of any path is a directory path.
pub proof fn lemma_split_parent_dir(p: Seq<char>)
    ensures
        is_dir_spec(split_index_spec(p).0),
        is_dir_spec(parent_name_spec(p).0),
{
    let (p0, last) = sep_path_spec(p);
    let parent = if p0 == root_path() { p0 } else { p0 + root_path() };
    assert(is_dir_spec(parent)) by {
        if p0 == root_path() {
            assert(parent.last() == PATH_SEP_CHAR);
        } else {
            assert((p0 + root_path()).last() == PATH_SEP_CHAR);
        }
    }
    match crate::kvspace_common::rfind_char(last, OBJ_SEP_CHAR) {
        Some(i) => {
            if i > 0 && i + 1 < last.len() {
                crate::kvspace_common::lemma_rfind_char(last, OBJ_SEP_CHAR);
                let q = parent + last.take(i as int + 1);
                assert(q.last() == last[i as int]);
            }
        },
        None => {},
    }
    let clean = if is_dir_spec(p) && p != root_path() { strip_dir_suf_spec(p) } else { p };
    let (c0, clast) = sep_path_spec(clean);
    let cparent = if c0 == root_path() { c0 } else { c0 + root_path() };
    assert(is_dir_spec(cparent)) by {
        if c0 == root_path() {
            assert(cparent.last() == PATH_SEP_CHAR);
        } else {
            assert((c0 + root_path()).last() == PATH_SEP_CHAR);
        }
    }
    match crate::kvspace_common::rfind_char(clast, OBJ_SEP_CHAR) {
        Some(i) => {
            if i > 0 && i + 1 < clast.len() {
                crate::kvspace_common::lemma_rfind_char(clast, OBJ_SEP_CHAR);
                let q = cparent + clast.take(i as int + 1);
                assert(q.last() == clast[i as int]);
            }
        },
        None => {},
    }
}

/// Two stores agree on every key that is not a directory path.
pub open spec fn same_off_dirs(a: Map<Seq<char>, Seq<u8>>, b: Map<Seq<char>, Seq<u8>>) -> bool {
    forall|k: Seq<char>| !is_dir_spec(k) ==> (#[trigger] a.dom().contains(k) <==> b.dom().contains(k))
        && (a.dom().contains(k) ==> a[k] == b[k])
}

/// Agreeing off directory paths is transitive.
proof fn lemma_same_off_dirs_trans(a: Map<Seq<char>, Seq<u8>>, b: Map<Seq<char>, Seq<u8>>, c: Map<Seq<char>, Seq<u8>>)
    requires
        same_off_dirs(a, b),
        same_off_dirs(b, c),
    ensures
        same_off_dirs(a, c),
{
    assert forall|k: Seq<char>| !is_dir_spec(k) implies (#[trigger] a.dom().contains(k) <==> c.dom().contains(k))
        && (a.dom().contains(k) ==> a[k] == c[k]) by {
        assert(a.dom().contains(k) <==> b.dom().contains(k));
        assert(b.dom().contains(k) <==> c.dom().contains(k));
    }
}

/// Two stores that differ at most under a directory path agree off directory paths.
proof fn lemma_same_off_dirs_except(a: Map<Seq<char>, Seq<u8>>, b: Map<Seq<char>, Seq<u8>>, d: Seq<char>)
    requires
        a.remove(d) == b.remove(d),
        is_dir_spec(d),
    ensures
        same_off_dirs(a, b),
{
    assert forall|k: Seq<char>| !is_dir_spec(k) implies (#[trigger] a.dom().contains(k) <==> b.dom().contains(k))
        && (a.dom().contains(k) ==> a[k] == b[k]) by {
        assert(k != d);
        assert(a.remove(d).dom().contains(k) == a.dom().contains(k));
        assert(b.remove(d).dom().contains(k) == b.dom().contains(k));
        if a.dom().contains(k) {
            assert(a.remove(d)[k] == a[k]);
            assert(b.remove(d)[k] == b[k]);
        }
    }
}

/// `b` keeps some of the keys of `a`, with the same bytes under each that is not a
/// directory path.
pub open spec fn kept_off_dirs(a: Map<Seq<char>, Seq<u8>>, b: Map<Seq<char>, Seq<u8>>) -> bool {
    &&& b.dom().subset_of(a.dom())
    &&& forall|k: Seq<char>| #[trigger] b.dom().contains(k) && !is_dir_spec(k) ==> b[k] == a[k]
}

/// Two prefixes of one text: one of them starts the other.
proof fn lemma_common_prefix(x: Seq<char>, a: Seq<char>, b: Seq<char>)
    requires
        starts_with_seq(x, a),
        starts_with_seq(x, b),
    ensures
        starts_with_seq(a, b) || starts_with_seq(b, a),
{
    if b.len() <= a.len() {
        assert(a.subrange(0, b.len() as int) =~= x.subrange(0, b.len() as int));
    } else {
        assert(b.subrange(0, a.len() as int) =~= x.subrange(0, a.len() as int));
    }
}

/// The key a copied key lands under: the destination base followed by the key's suffix
/// past the source base.
pub open spec fn moved_key(k: Seq<char>, sb: Seq<char>, db: Seq<char>) -> Seq<char> {
    db + k.skip(sb.len() as int)
}

/// Neither base lies inside the other.
pub open spec fn apart(sb: Seq<char>, db: Seq<char>) -> bool {
    !starts_with_seq(sb, scan_base(db)) && !starts_with_seq(scan_base(db), sb)
}

/// Every value under `sb` that is not a directory index is still in `m` as in `m0`.
pub open spec fn sources_kept(m0: Map<Seq<char>, Seq<u8>>, m: Map<Seq<char>, Seq<u8>>, sb: Seq<char>) -> bool {
    forall|x: Seq<char>| #[trigger] m0.dom().contains(x) && starts_with_seq(x, sb) && !is_dir_spec(x)
        ==> m.dom().contains(x) && m[x] == m0[x]
}

/// A key suffix one member level below its base: empty, or `·name` with no further `·`
/// or `/` in `name`.
pub open spec fn one_level_spec(suffix: Seq<char>) -> bool {
    suffix.len() == 0 || (suffix[0] == OBJ_SEP_CHAR
        && forall|i: int| 1 <= i < suffix.len() ==> #[trigger] suffix[i] != OBJ_SEP_CHAR && suffix[i] != PATH_SEP_CHAR)
}

/// A key is copied: any key of a whole subtree, or only one member level below the base.
pub open spec fn copy_selects(k: Seq<char>, sb: Seq<char>, one: bool) -> bool {
    !one || one_level_spec(k.skip(sb.len() as int))
}

/// The first `k` keys of `ks` that are selected and are not directory indexes have been
/// copied into `m`.
pub open spec fn copied(m0: Map<Seq<char>, Seq<u8>>, m: Map<Seq<char>, Seq<u8>>, sb: Seq<char>, db: Seq<char>, ks: Seq<Seq<char>>, k: int, one: bool) -> bool {
    forall|j: int| 0 <= j < k && !is_dir_spec(#[trigger] ks[j]) && copy_selects(ks[j], sb, one)
        ==> m.dom().contains(moved_key(ks[j], sb, db)) && m[moved_key(ks[j], sb, db)] == m0[ks[j]]
}

/// A base starts every key under it.
proof fn lemma_scan_base_prefix(p: Seq<char>)
    ensures
        starts_with_seq(p, scan_base(p)),
{
    assert(p.subrange(0, scan_base(p).len() as int) =~= scan_base(p));
}

/// Clearing the destination subtree keeps the source values when the two lie apart.
proof fn lemma_sources_survive(m0: Map<Seq<char>, Seq<u8>>, m1: Map<Seq<char>, Seq<u8>>, sb: Seq<char>, db: Seq<char>)
    requires
        kept_off_dirs(m0, m1),
        forall|k: Seq<char>| #[trigger] m0.dom().contains(k) && !m1.dom().contains(k)
            ==> k == db || starts_with_seq(k, scan_base(db)),
        apart(sb, db),
    ensures
        sources_kept(m0, m1, sb),
{
    lemma_scan_base_prefix(db);
    assert forall|x: Seq<char>| #[trigger] m0.dom().contains(x) && starts_with_seq(x, sb) && !is_dir_spec(x)
        implies m1.dom().contains(x) && m1[x] == m0[x] by {
        if !m1.dom().contains(x) {
            lemma_common_prefix(x, sb, scan_base(db));
        }
    }
}

/// Copying the `k`-th source key keeps the sources and extends the copied ones.
proof fn lemma_copy_put(
    m0: Map<Seq<char>, Seq<u8>>,
    before: Map<Seq<char>, Seq<u8>>,
    after: Map<Seq<char>, Seq<u8>>,
    sb: Seq<char>,
    db: Seq<char>,
    ks: Seq<Seq<char>>,
    k: int,
    one: bool,
)
    requires
        0 <= k < ks.len(),
        forall|t: int| 0 <= t < ks.len() ==> m0.dom().contains(#[trigger] ks[t]) && starts_with_seq(ks[t], sb),
        apart(sb, db),
        sources_kept(m0, before, sb),
        copied(m0, before, sb, db, ks, k, one),
        copy_selects(ks[k], sb, one) && before.dom().contains(ks[k])
            ==> after == before.insert(moved_key(ks[k], sb, db), before[ks[k]]),
        !(copy_selects(ks[k], sb, one) && before.dom().contains(ks[k])) ==> after == before,
    ensures
        sources_kept(m0, after, sb),
        copied(m0, after, sb, db, ks, k + 1, one),
{
    let x = ks[k];
    let nk = moved_key(x, sb, db);
    lemma_scan_base_prefix(db);
    assert(starts_with_seq(nk, scan_base(db))) by {
        assert(nk.subrange(0, scan_base(db).len() as int) =~= db.subrange(0, scan_base(db).len() as int));
    }
    assert forall|y: Seq<char>| #[trigger] m0.dom().contains(y) && starts_with_seq(y, sb) && !is_dir_spec(y)
        implies after.dom().contains(y) && after[y] == m0[y] by {
        if y == nk {
            lemma_common_prefix(y, sb, scan_base(db));
        }
    }
    assert forall|j: int| 0 <= j < k + 1 && !is_dir_spec(#[trigger] ks[j]) && copy_selects(ks[j], sb, one)
        implies after.dom().contains(moved_key(ks[j], sb, db)) && after[moved_key(ks[j], sb, db)] == m0[ks[j]] by {
        let xj = ks[j];
        if moved_key(xj, sb, db) == nk {
            assert(xj.skip(sb.len() as int) =~= moved_key(xj, sb, db).skip(db.len() as int));
            assert(x.skip(sb.len() as int) =~= nk.skip(db.len() as int));
            assert(xj =~= sb + xj.skip(sb.len() as int));
            assert(x =~= sb + x.skip(sb.len() as int));
        }
    }
}

/// Every value whose key starts with `sb` is still in `m` as in `m0`.
pub open spec fn sources_all_kept(m0: Map<Seq<char>, Seq<u8>>, m: Map<Seq<char>, Seq<u8>>, sb: Seq<char>) -> bool {
    forall|x: Seq<char>| #[trigger] m0.dom().contains(x) && starts_with_seq(x, sb)
        ==> m.dom().contains(x) && m[x] == m0[x]
}

/// The first `k` keys of `ks` have been copied into `m`, each under `db` at its suffix.
pub open spec fn all_copied(m0: Map<Seq<char>, Seq<u8>>, m: Map<Seq<char>, Seq<u8>>, sb: Seq<char>, db: Seq<char>, ks: Seq<Seq<char>>, k: int) -> bool {
    forall|j: int| 0 <= j < k ==> m.dom().contains(moved_key(#[trigger] ks[j], sb, db))
        && m[moved_key(ks[j], sb, db)] == m0[ks[j]]
}

/// The parent index of a destination lies outside a source subtree apart from it.
proof fn lemma_parent_not_source(sb: Seq<char>, db: Seq<char>, x: Seq<char>)
    requires
        apart(sb, db),
        db.len() >= 2,
        db[0] == PATH_SEP_CHAR,
        db[1] != PATH_SEP_CHAR,
        starts_with_seq(x, sb),
    ensures
        x != parent_name_spec(db).0,
{
    let p = parent_name_spec(db).0;
    if x == p {
        lemma_parent_prefix(db);
        lemma_parent_facts(db);
        assert(db != root_path());
        let sc = scan_base(db);
        assert(sc.len() >= p.len());
        assert(sc.subrange(0, p.len() as int) =~= db.subrange(0, p.len() as int));
        assert(sc.subrange(0, sb.len() as int) =~= p.subrange(0, sb.len() as int));
        assert(starts_with_seq(sc, sb));
    }
}

/// Clearing the destination subtree, which rewrites only the parent index of `db`, keeps
/// every source value when the two lie apart.
proof fn lemma_sources_all_survive(m0: Map<Seq<char>, Seq<u8>>, m1: Map<Seq<char>, Seq<u8>>, sb: Seq<char>, db: Seq<char>)
    requires
        forall|k: Seq<char>| #[trigger] m0.dom().contains(k) && !m1.dom().contains(k)
            ==> k == db || starts_with_seq(k, scan_base(db)),
        forall|k: Seq<char>| #[trigger] m1.dom().contains(k) && k != parent_name_spec(db).0 ==> m1[k] == m0[k],
        apart(sb, db),
        db.len() >= 2,
        db[0] == PATH_SEP_CHAR,
        db[1] != PATH_SEP_CHAR,
    ensures
        sources_all_kept(m0, m1, sb),
{
    lemma_scan_base_prefix(db);
    assert forall|x: Seq<char>| #[trigger] m0.dom().contains(x) && starts_with_seq(x, sb)
        implies m1.dom().contains(x) && m1[x] == m0[x] by {
        if !m1.dom().contains(x) {
            if x == db {
                assert(x.subrange(0, scan_base(db).len() as int) =~= db.subrange(0, scan_base(db).len() as int));
            }
            lemma_common_prefix(x, sb, scan_base(db));
        }
        lemma_parent_not_source(sb, db, x);
    }
}

/// Copying the `k`-th source key, whatever it holds, keeps the sources and extends the
/// copied ones.
proof fn lemma_copy_put_all(
    m0: Map<Seq<char>, Seq<u8>>,
    before: Map<Seq<char>, Seq<u8>>,
    after: Map<Seq<char>, Seq<u8>>,
    sb: Seq<char>,
    db: Seq<char>,
    ks: Seq<Seq<char>>,
    k: int,
)
    requires
        0 <= k < ks.len(),
        forall|t: int| 0 <= t < ks.len() ==> m0.dom().contains(#[trigger] ks[t]) && starts_with_seq(ks[t], sb),
        apart(sb, db),
        sources_all_kept(m0, before, sb),
        all_copied(m0, before, sb, db, ks, k),
        after == before.insert(moved_key(ks[k], sb, db), before[ks[k]]),
    ensures
        sources_all_kept(m0, after, sb),
        all_copied(m0, after, sb, db, ks, k + 1),
{
    let x = ks[k];
    let nk = moved_key(x, sb, db);
    lemma_scan_base_prefix(db);
    assert(starts_with_seq(nk, scan_base(db))) by {
        assert(nk.subrange(0, scan_base(db).len() as int) =~= db.subrange(0, scan_base(db).len() as int));
    }
    assert(before.dom().contains(x) && before[x] == m0[x]);
    assert forall|y: Seq<char>| #[trigger] m0.dom().contains(y) && starts_with_seq(y, sb)
        implies after.dom().contains(y) && after[y] == m0[y] by {
        if y == nk {
            lemma_common_prefix(y, sb, scan_base(db));
        }
    }
    assert forall|j: int| 0 <= j < k + 1
        implies after.dom().contains(moved_key(#[trigger] ks[j], sb, db)) && after[moved_key(ks[j], sb, db)] == m0[ks[j]] by {
        let xj = ks[j];
        if moved_key(xj, sb, db) == nk {
            assert(xj.skip(sb.len() as int) =~= moved_key(xj, sb, db).skip(db.len() as int));
            assert(x.skip(sb.len() as int) =~= nk.skip(db.len() as int));
            assert(xj =~= sb + xj.skip(sb.len() as int));
            assert(x =~= sb + x.skip(sb.len() as int));
        }
    }
}

/// A pointer head reads back as a pointer, so a store without links has none.
proof fn lemma_link_free_no_head(m: Map<Seq<char>, Seq<u8>>, k: Seq<char>)
    requires
        link_free(m),
    ensures
        !link_head(m, k),
{
    if link_head(m, k) {
        assert(m.dom().contains(k));
        assert(decode_stored_spec(m[k]) is Ptr);
    }
}

/// The directory `mkindex` reaches after `i` segments: the root followed by each segment
/// closed with `/`.
pub open spec fn dir_chain(parts: Seq<Seq<char>>, i: nat) -> Seq<char>
    decreases i,
{
    if i == 0 {
        root_path()
    } else {
        join_path_spec(dir_chain(parts, (i - 1) as nat), parts[i - 1]).push(PATH_SEP_CHAR)
    }
}

/// The directory `mkindex` creates for `path`: its segments once links are followed.
pub open spec fn mkindex_dir(m: Map<Seq<char>, Seq<u8>>, path: Seq<char>) -> Seq<char> {
    let parts = path_parts(resolved(m, path));
    dir_chain(parts, parts.len())
}

/// Path segments that are plain names: non-empty, with no `/` and no member separator.
pub open spec fn plain_segments(pv: Seq<Seq<char>>) -> bool {
    &&& forall|j: int| 0 <= j < pv.len() ==> (#[trigger] pv[j]).len() > 0
    &&& forall|j: int, k: int| 0 <= j < pv.len() && 0 <= k < pv[j].len()
        ==> #[trigger] pv[j][k] != PATH_SEP_CHAR && pv[j][k] != OBJ_SEP_CHAR
}

/// The directories of the chain from step `i` on hold what they held in `m0`.
#[verifier::opaque]
pub open spec fn chain_kept(m: Map<Seq<char>, Seq<u8>>, m0: Map<Seq<char>, Seq<u8>>, pv: Seq<Seq<char>>, i: nat) -> bool {
    forall|t: nat| i <= t <= pv.len() ==> stored(m, #[trigger] dir_chain(pv, t)) == stored(m0, dir_chain(pv, t))
}

/// The first `i` directories of a chain of plain segments are listed in their parents,
/// unless they already held entries in `m0`.
#[verifier::opaque]
pub open spec fn chain_registered(m: Map<Seq<char>, Seq<u8>>, m0: Map<Seq<char>, Seq<u8>>, pv: Seq<Seq<char>>, i: nat) -> bool {
    plain_segments(pv) ==> forall|t: nat| 1 <= t <= i && nul_free(pv[t - 1])
        ==> listed(m, parent_name_spec(#[trigger] dir_chain(pv, t)).0, pv[t - 1].push(PATH_SEP_CHAR))
            || dir_names(stored(m0, dir_chain(pv, t))).len() > 0
}

/// One `mkindex` step, which touches only the parent of directory `i + 1`, keeps the later
/// directories and the earlier listings, and lists directory `i + 1`.
proof fn lemma_mkindex_step(m0: Map<Seq<char>, Seq<u8>>, before: Map<Seq<char>, Seq<u8>>, after: Map<Seq<char>, Seq<u8>>, pv: Seq<Seq<char>>, i: nat)
    requires
        i < pv.len(),
        chain_kept(before, m0, pv, i),
        chain_registered(before, m0, pv, i),
        after.remove(parent_name_spec(dir_chain(pv, i + 1)).0) == before.remove(parent_name_spec(dir_chain(pv, i + 1)).0),
        parent_name_spec(dir_chain(pv, i + 1)).0.len() < dir_chain(pv, i + 1).len(),
        nul_free(parent_name_spec(dir_chain(pv, i + 1)).1) ==> listed(after, parent_name_spec(dir_chain(pv, i + 1)).0,
            parent_name_spec(dir_chain(pv, i + 1)).1.push(PATH_SEP_CHAR)) || dir_names(stored(before, dir_chain(pv, i + 1))).len() > 0,
    ensures
        chain_kept(after, m0, pv, i + 1),
        chain_registered(after, m0, pv, i + 1),
{
    reveal(chain_kept);
    reveal(chain_registered);
    let pk = parent_name_spec(dir_chain(pv, i + 1)).0;
    let n = pv.len();
    assert forall|t: nat| i + 1 <= t <= n implies stored(after, #[trigger] dir_chain(pv, t)) == stored(m0, dir_chain(pv, t)) by {
        lemma_dir_chain(pv, i + 1, t);
        lemma_stored_same(before, after, pk, dir_chain(pv, t));
        assert(stored(before, dir_chain(pv, t)) == stored(m0, dir_chain(pv, t)));
    }
    if plain_segments(pv) {
        lemma_chain_parent(pv, i + 1);
        assert forall|t: nat| 1 <= t <= i + 1 && nul_free(pv[t - 1])
            implies listed(after, parent_name_spec(#[trigger] dir_chain(pv, t)).0, pv[t - 1].push(PATH_SEP_CHAR))
                || dir_names(stored(m0, dir_chain(pv, t))).len() > 0 by {
            lemma_chain_parent(pv, t);
            if t <= i {
                lemma_dir_chain(pv, (t - 1) as nat, i);
                lemma_stored_same(before, after, pk, dir_chain(pv, (t - 1) as nat));
                assert(listed(before, parent_name_spec(dir_chain(pv, t)).0, pv[t - 1].push(PATH_SEP_CHAR))
                    || dir_names(stored(m0, dir_chain(pv, t))).len() > 0);
            } else {
                assert(stored(before, dir_chain(pv, i + 1)) == stored(m0, dir_chain(pv, i + 1)));
            }
        }
    }
}

/// Reserving rows in the last directory, which touches only that directory, keeps the
/// listings of the chain.
proof fn lemma_mkindex_reserve(m0: Map<Seq<char>, Seq<u8>>, before: Map<Seq<char>, Seq<u8>>, after: Map<Seq<char>, Seq<u8>>, pv: Seq<Seq<char>>)
    requires
        chain_registered(before, m0, pv, pv.len()),
        after.remove(dir_chain(pv, pv.len())) == before.remove(dir_chain(pv, pv.len())),
    ensures
        chain_registered(after, m0, pv, pv.len()),
{
    reveal(chain_registered);
    let n = pv.len();
    if plain_segments(pv) {
        assert forall|t: nat| 1 <= t <= n && nul_free(pv[t - 1])
            implies listed(after, parent_name_spec(#[trigger] dir_chain(pv, t)).0, pv[t - 1].push(PATH_SEP_CHAR))
                || dir_names(stored(m0, dir_chain(pv, t))).len() > 0 by {
            lemma_chain_parent(pv, t);
            lemma_dir_chain(pv, (t - 1) as nat, n);
            lemma_stored_same(before, after, dir_chain(pv, n), dir_chain(pv, (t - 1) as nat));
            assert(listed(before, parent_name_spec(dir_chain(pv, t)).0, pv[t - 1].push(PATH_SEP_CHAR))
                || dir_names(stored(m0, dir_chain(pv, t))).len() > 0);
        }
    }
}

/// Two stores that differ at most under `k` hold the same value under any other key.
proof fn lemma_stored_same(a: Map<Seq<char>, Seq<u8>>, b: Map<Seq<char>, Seq<u8>>, k: Seq<char>, p: Seq<char>)
    requires
        a.remove(k) == b.remove(k),
        p != k,
    ensures
        stored(a, p) == stored(b, p),
{
    assert(a.remove(k).dom().contains(p) == a.dom().contains(p));
    assert(b.remove(k).dom().contains(p) == b.dom().contains(p));
    if a.dom().contains(p) {
        assert(a.remove(k)[p] == a[p]);
        assert(b.remove(k)[p] == b[p]);
    }
}

/// Along a chain of plain segments, each directory's parent index is the directory before
/// it, and its name there is its segment.
proof fn lemma_chain_parent(pv: Seq<Seq<char>>, j: nat)
    requires
        plain_segments(pv),
        1 <= j <= pv.len(),
    ensures
        parent_name_spec(dir_chain(pv, j)) == (dir_chain(pv, (j - 1) as nat), pv[j - 1]),
{
    let c = dir_chain(pv, (j - 1) as nat);
    let part = pv[j - 1];
    lemma_dir_chain(pv, (j - 1) as nat, (j - 1) as nat);
    assert(part.len() > 0);
    let jj = c + part;
    assert(join_path_spec(c, part) == jj) by {
        if c == root_path() {
        } else {
            assert(ends_with_char(c, PATH_SEP_CHAR));
        }
    }
    let ch = dir_chain(pv, j);
    assert(ch == jj.push(PATH_SEP_CHAR));
    assert(ch != root_path()) by {
        assert(ch.len() >= 2);
    }
    assert(is_dir_spec(ch));
    assert(strip_dir_suf_spec(ch) =~= jj);
    let i = c.len() - 1;
    assert(jj[i] == PATH_SEP_CHAR);
    crate::kvspace_common::lemma_rfind_char(jj, PATH_SEP_CHAR);
    let ri = crate::kvspace_common::rfind_char(jj, PATH_SEP_CHAR);
    assert(ri == Some(i as nat)) by {
        if ri is None {
            lemma_rfind_none(jj, PATH_SEP_CHAR);
        } else {
            let r = ri->0 as int;
            if r < i {
                crate::kvspace_common::lemma_rfind_last(jj, PATH_SEP_CHAR, i);
            } else if r > i {
                assert(jj[r] == part[r - c.len()]);
            }
        }
    }
    assert(jj != root_path());
    let (p0, last) = sep_path_spec(jj);
    assert(last =~= part) by {
        assert(jj.skip(i + 1) =~= part);
    }
    let parent = if p0 == root_path() { p0 } else { p0 + root_path() };
    assert(parent =~= c) by {
        if i == 0 {
            assert(c =~= root_path());
        } else {
            assert(p0 =~= c.take(i));
            assert(c.len() >= 3) by {
                if j - 1 > 0 {
                    lemma_dir_chain_len(pv, (j - 1) as nat);
                }
            }
            assert(p0 != root_path()) by {
                assert(p0.len() >= 2);
            }
            assert(c =~= c.take(i) + root_path());
        }
    }
    crate::kvspace_common::lemma_rfind_char(last, OBJ_SEP_CHAR);
    assert(crate::kvspace_common::rfind_char(last, OBJ_SEP_CHAR) is None) by {
        if crate::kvspace_common::rfind_char(last, OBJ_SEP_CHAR) is Some {
            let r = crate::kvspace_common::rfind_char(last, OBJ_SEP_CHAR)->0 as int;
            assert(part[r] == OBJ_SEP_CHAR);
        }
    }
}

/// A directory below the root on a chain of non-empty segments has at least three
/// characters.
proof fn lemma_dir_chain_len(pv: Seq<Seq<char>>, i: nat)
    requires
        plain_segments(pv),
        1 <= i <= pv.len(),
    ensures
        dir_chain(pv, i).len() >= 3,
{
    let c = dir_chain(pv, (i - 1) as nat);
    lemma_dir_chain(pv, (i - 1) as nat, (i - 1) as nat);
    assert(pv[i - 1].len() > 0);
    let jj = join_path_spec(c, pv[i - 1]);
    if c == root_path() {
    } else {
        assert(ends_with_char(c, PATH_SEP_CHAR));
    }
    assert(jj.len() >= 2);
}

/// The directories along a chain start at the root, end with `/` and grow.
proof fn lemma_dir_chain(parts: Seq<Seq<char>>, i: nat, n: nat)
    requires
        i <= n,
    ensures
        dir_chain(parts, i).len() <= dir_chain(parts, n).len(),
        dir_chain(parts, n).len() >= 1,
        dir_chain(parts, n)[0] == PATH_SEP_CHAR,
        dir_chain(parts, n).last() == PATH_SEP_CHAR,
        n > 0 ==> dir_chain(parts, n).len() >= 2 && dir_chain(parts, n) != root_path(),
        i < n ==> dir_chain(parts, i).len() < dir_chain(parts, n).len(),
    decreases n,
{
    if n > 0 {
        lemma_dir_chain(parts, if i < n { i } else { (n - 1) as nat }, (n - 1) as nat);
        let prev = dir_chain(parts, (n - 1) as nat);
        let j = join_path_spec(prev, parts[n - 1]);
        if prev == root_path() {
            assert(j == root_path() + parts[n - 1]);
        } else {
            assert(ends_with_char(prev, PATH_SEP_CHAR));
            assert(j == prev + parts[n - 1]);
        }
        assert(j[0] == PATH_SEP_CHAR);
        assert(j.push(PATH_SEP_CHAR)[0] == PATH_SEP_CHAR);
        assert(j.push(PATH_SEP_CHAR).len() == j.len() + 1);
    }
}

/// A member list encoded with reserved capacity reads back as a plain member list whose
/// head reserves at least that many rows.
proof fn lemma_cap_reserved(children: Seq<Seq<char>>, cap: nat, m: nat, want: nat)
    requires
        index_geometry_fits(children, cap, m),
        grown_index_body(children, cap, m, None).len() < 0x8000_0000,
        cap >= want,
    ensures
        ({
            let b = grown_index_bytes(children, cap, m, None);
            let h = decode_head_spec(b);
            &&& !decode_panics(b)
            &&& parse_kindexpr_spec(h.langtype).1 == KIND_INDEX@
            &&& crate::xvalue_index::matrix_cap_spec(h.phys_dims) >= want
        }),
{
    crate::xvalue_laws::lemma_grown_index_decode(children, cap, m, None);
    crate::consts::lemma_kind_spelling();
    let (d, body) = crate::xvalue_index::encode_index_spec(children, cap, m);
    crate::xvalue_laws::lemma_short_headlen(KIND_INDEX@, d);
    crate::xvalue_laws::lemma_typed_kinds_plain();
    crate::xvalue_laws::lemma_inline_head(KIND_INDEX@, d, body);
    let c = crate::xvalue_index::sort_names(children);
    crate::xvalue_index::lemma_sort_names_len(children);
    assert(crate::xvalue_index::matrix_cap_of(c, cap) >= cap);
}

/// `b` still holds every value `a` holds under a key that is not a directory path.
pub open spec fn keeps_present(a: Map<Seq<char>, Seq<u8>>, b: Map<Seq<char>, Seq<u8>>) -> bool {
    forall|k: Seq<char>| #[trigger] a.dom().contains(k) && !is_dir_spec(k) ==> b.dom().contains(k) && b[k] == a[k]
}

/// Keeping present values chains, and agreeing off directory paths keeps them.
proof fn lemma_keeps_present(a: Map<Seq<char>, Seq<u8>>, b: Map<Seq<char>, Seq<u8>>, c: Map<Seq<char>, Seq<u8>>)
    ensures
        same_off_dirs(a, b) ==> keeps_present(a, b),
        keeps_present(a, b) && keeps_present(b, c) ==> keeps_present(a, c),
{
    if same_off_dirs(a, b) {
        assert forall|k: Seq<char>| #[trigger] a.dom().contains(k) && !is_dir_spec(k) implies b.dom().contains(k) && b[k] == a[k] by {
            assert(a.dom().contains(k) <==> b.dom().contains(k));
        }
    }
    if keeps_present(a, b) && keeps_present(b, c) {
        assert forall|k: Seq<char>| #[trigger] a.dom().contains(k) && !is_dir_spec(k) implies c.dom().contains(k) && c[k] == a[k] by {
            assert(b.dom().contains(k));
        }
    }
}

/// Keeping present values keeps them off any one key, and chains with it.
proof fn lemma_keeps_except(a: Map<Seq<char>, Seq<u8>>, b: Map<Seq<char>, Seq<u8>>, c: Map<Seq<char>, Seq<u8>>, x: Seq<char>)
    ensures
        keeps_present(a, b) ==> keeps_present_except(a, b, x),
        keeps_present(a, b) && keeps_present_except(b, c, x) ==> keeps_present_except(a, c, x),
{
    if keeps_present(a, b) && keeps_present_except(b, c, x) {
        assert forall|k: Seq<char>| #[trigger] a.dom().contains(k) && !is_dir_spec(k) && k != x
            implies c.dom().contains(k) && c[k] == a[k] by {
            assert(b.dom().contains(k));
        }
    }
}

/// Splits character text at `sep`.
pub fn split_chars(s: &[char], sep: char) -> (r: Vec<Vec<char>>)
    ensures
        r@.len() == split_on(s@, sep).len(),
        forall|j: int| 0 <= j < r@.len() ==> (#[trigger] r@[j])@ == split_on(s@, sep)[j],
{
    let mut parts: Vec<Vec<char>> = Vec::new();
    let mut cur: Vec<char> = Vec::new();
    let mut i: usize = 0;
    while i < s.len()
        invariant
            i <= s.len(),
            ({
                let sp = split_on(s@.take(i as int), sep);
                &&& parts@.len() + 1 == sp.len()
                &&& forall|j: int| 0 <= j < parts@.len() ==> (#[trigger] parts@[j])@ == sp[j]
                &&& cur@ == sp.last()
            }),
        decreases s.len() - i,
    {
        proof {
            crate::coord::lemma_split_on_nonempty(s@.take(i as int), sep);
            assert(s@.take(i as int + 1).drop_last() == s@.take(i as int));
            assert(s@.take(i as int + 1).last() == s@[i as int]);
        }
        if s[i] == sep {
            parts.push(cur);
            cur = Vec::new();
        } else {
            cur.push(s[i]);
        }
        i = i + 1;
    }
    assert(s@.take(s.len() as int) == s@);
    parts.push(cur);
    parts
}

/// The segments of a path.
pub fn path_parts_exec(p: &[char]) -> (r: Vec<Vec<char>>)
    ensures
        r@.len() == path_parts(p@).len(),
        forall|j: int| 0 <= j < r@.len() ==> (#[trigger] r@[j])@ == path_parts(p@)[j],
{
    let mut a: usize = 0;
    assert(p@.skip(0) == p@);
    while a < p.len() && p[a] == PATH_SEP_CHAR
        invariant
            a <= p.len(),
            trim_start_slash(p@) == trim_start_slash(p@.skip(a as int)),
        decreases p.len() - a,
    {
        assert(p@.skip(a as int).drop_first() == p@.skip(a as int + 1));
        a = a + 1;
    }
    assert(trim_start_slash(p@.skip(a as int)) == p@.skip(a as int));
    let mut b: usize = p.len();
    assert(p@.skip(a as int) == p@.subrange(a as int, b as int));
    while b > a && p[b - 1] == PATH_SEP_CHAR
        invariant
            a <= b <= p.len(),
            trim_end_slash(trim_start_slash(p@)) == trim_end_slash(p@.subrange(a as int, b as int)),
        decreases b,
    {
        assert(p@.subrange(a as int, b as int).drop_last() == p@.subrange(a as int, b - 1));
        b = b - 1;
    }
    assert(trim_end_slash(p@.subrange(a as int, b as int)) == p@.subrange(a as int, b as int));
    if a == b {
        return Vec::new();
    }
    let t = sub_chars(p, a, b);
    split_chars(&t, PATH_SEP_CHAR)
}

/// The prefixes link resolution of `path` reads, root to leaf (none for the root).
pub fn link_prefixes(path: &str) -> (r: Vec<String>)
    ensures
        path@ == root_path() ==> r@.len() == 0,
        path@ != root_path() ==> r@.len() == path_parts(path@).len()
            && forall|i: int| 0 <= i < r@.len() ==> (#[trigger] r@[i])@ == prefix_path(path_parts(path@), i as nat),
{
    let pc = chars_of(path);
    let mut out: Vec<String> = Vec::new();
    if is_root(&pc) {
        return out;
    }
    let parts = path_parts_exec(&pc);
    let ghost ps = path_parts(path@);
    let mut cur: Vec<char> = Vec::new();
    cur.push(PATH_SEP_CHAR);
    assert(cur@ =~= root_path());
    let mut i: usize = 0;
    while i < parts.len()
        invariant
            i <= parts@.len(),
            parts@.len() == ps.len(),
            forall|j: int| 0 <= j < parts@.len() ==> (#[trigger] parts@[j])@ == ps[j],
            out@.len() == i,
            forall|j: int| 0 <= j < i ==> (#[trigger] out@[j])@ == prefix_path(ps, j as nat),
            i == 0 ==> cur@ == root_path(),
            i > 0 ==> cur@ == prefix_path(ps, (i - 1) as nat),
        decreases parts@.len() - i,
    {
        let next = join_chars(&cur, parts[i].as_slice());
        assert(next@ == prefix_path(ps, i as nat));
        cur = chars_of(next.as_str());
        out.push(next);
        i = i + 1;
    }
    out
}

/// One hop of link resolution of `path` over the values read at its prefixes (see
/// [`link_prefixes`]); see [`hop_spec`].
pub fn resolve_hop(path: &str, vals: &[XValue]) -> (r: (String, bool))
    requires
        path@ != root_path() ==> vals@.len() == path_parts(path@).len(),
    ensures
        r.0@ == hop_spec(path@, Seq::new(vals@.len(), |j: int| vals@[j]@)).0,
        r.1 == hop_spec(path@, Seq::new(vals@.len(), |j: int| vals@[j]@)).1,
{
    let ghost vs = Seq::new(vals@.len(), |j: int| vals@[j]@);
    let pc = chars_of(path);
    if is_root(&pc) {
        return (string_of(path), false);
    }
    let parts = path_parts_exec(&pc);
    let ghost ps = Seq::new(parts@.len(), |j: int| parts@[j]@);
    assert(ps =~= path_parts(path@));
    let mut i: usize = 0;
    while i < vals.len()
        invariant
            i <= vals@.len(),
            vals@.len() == parts@.len(),
            vs == Seq::new(vals@.len(), |j: int| vals@[j]@),
            ps == Seq::new(parts@.len(), |j: int| parts@[j]@),
            ps == path_parts(path@),
            path@ != root_path(),
            first_ptr_in(vs, 0) == first_ptr_in(vs, i as nat),
        decreases vals@.len() - i,
    {
        if let XValue::Ptr(p) = &vals[i] {
            assert(vs[i as int] == XV::Ptr(p.target_kindexpr@, p.target@));
            assert(first_ptr_in(vs, i as nat) == Some(i as nat));
            assert(path_parts(path@).len() == parts@.len());
            if i + 1 < parts.len() {
                let rest = join_parts_from(&parts, i + 1);
                assert(Seq::new(parts@.len(), |j: int| parts@[j]@) =~= ps);
                assert(rest@ == join_parts(ps.skip(i as int + 1)));
                let target = chars_of(p.target.as_str());
                let out = join_chars(&target, &rest);
                return (out, true);
            }
            return (string_of(p.target.as_str()), true);
        }
        assert(!(vs[i as int] is Ptr));
        i = i + 1;
    }
    (string_of(path), false)
}

/// The entries of a directory followed by those of its extension that it does not hold;
/// see [`merge_names`].
pub fn merge_listing(members: &Vec<String>, ext_members: &Vec<String>) -> (r: Vec<String>)
    ensures
        string_views(r@) == merge_names(string_views(members@), string_views(ext_members@)),
{
    let ghost mem = string_views(members@);
    let ghost ext = string_views(ext_members@);
    let mut result: Vec<String> = Vec::new();
    let mut i: usize = 0;
    while i < members.len()
        invariant
            i <= members@.len(),
            mem == string_views(members@),
            result@.len() == i,
            forall|t: int| 0 <= t < i ==> (#[trigger] result@[t])@ == members@[t]@,
        decreases members@.len() - i,
    {
        result.push(members[i].clone());
        i = i + 1;
    }
    assert(string_views(result@) =~= mem);
    assert(ext.take(0) =~= Seq::<Seq<char>>::empty());
    let mut j: usize = 0;
    while j < ext_members.len()
        invariant
            j <= ext_members@.len(),
            mem == string_views(members@),
            ext == string_views(ext_members@),
            string_views(result@) == merge_names(mem, ext.take(j as int)),
        decreases ext_members@.len() - j,
    {
        let x = &ext_members[j];
        let mut found = false;
        let mut q: usize = 0;
        while q < members.len()
            invariant
                q <= members@.len(),
                mem == string_views(members@),
                found <==> exists|t: int| 0 <= t < q && mem[t] == x@,
            decreases members@.len() - q,
        {
            assert(mem[q as int] == members@[q as int]@);
            if str_eq(members[q].as_str(), x.as_str()) {
                found = true;
            }
            q = q + 1;
        }
        proof {
            assert(ext.take(j as int + 1).drop_last() == ext.take(j as int));
            assert(ext.take(j as int + 1).last() == x@);
            if mem.contains(x@) {
                let t = choose|t: int| 0 <= t < mem.len() && mem[t] == x@;
                assert(found);
            }
            if found {
                let t = choose|t: int| 0 <= t < q && mem[t] == x@;
                assert(mem.contains(x@));
            }
        }
        if !found {
            let ghost before = string_views(result@);
            result.push(x.clone());
            assert(string_views(result@) =~= before.push(x@));
        }
        j = j + 1;
    }
    assert(ext.take(ext_members@.len() as int) == ext);
    result
}

/// The directory part of a path whose links a parent resolution follows, and the last
/// segment it keeps (a directory path without its suffix); `None` when the path has no
/// directory part. See [`resolved_parent_spec`].
pub fn parent_to_resolve(path: &str) -> (r: Option<(String, String)>)
    ensures
        r is None <==> sep_path_spec(parent_clean(path@)).0 == parent_clean(path@),
        r matches Some((p, l)) ==> p@ == sep_path_spec(parent_clean(path@)).0 && l@ == sep_path_spec(parent_clean(path@)).1,
{
    let pc = chars_of(path);
    let dir_suf = is_dir(&pc) && !is_root(&pc);
    assert(pc@.subrange(0, pc@.len() as int) =~= pc@);
    let clean = if dir_suf { strip_chars(&pc) } else { sub_chars(&pc, 0, pc.len()) };
    assert(clean@ == parent_clean(path@));
    let (parent, last) = sep_chars(&clean);
    if chars_equal(&parent, &clean) {
        return None;
    }
    Some((string_from_chars(&parent), string_from_chars(&last)))
}

/// A path with its directory part replaced by where that part resolves to: the resolved
/// part joined with the last segment, a directory path keeping its trailing `/`.
pub fn rejoin_parent(path: &str, resolved: &str, last: &str) -> (r: String)
    ensures
        r@ == if is_dir_spec(path@) && path@ != root_path() {
            join_path_spec(resolved@, last@).push(PATH_SEP_CHAR)
        } else {
            join_path_spec(resolved@, last@)
        },
{
    let pc = chars_of(path);
    let rc = chars_of(resolved);
    let lc = chars_of(last);
    let mut joined = join_chars(&rc, &lc);
    if is_dir(&pc) && !is_root(&pc) {
        push_char(&mut joined, PATH_SEP_CHAR);
    }
    joined
}

/// Segments `parts[from..]` joined by `/`.
pub fn join_parts_from(parts: &Vec<Vec<char>>, from: usize) -> (s: Vec<char>)
    requires
        from < parts@.len(),
    ensures
        s@ == join_parts(Seq::new(parts@.len(), |j: int| parts@[j]@).skip(from as int)),
{
    let ghost ps = Seq::new(parts@.len(), |j: int| parts@[j]@);
    let mut s = sub_chars(parts[from].as_slice(), 0, parts[from].len());
    assert(from < parts.len());
    let mut k: usize = from + 1;
    assert(ps.skip(from as int).take(1) =~= seq![ps[from as int]]);
    assert(s@ == parts@[from as int]@);
    while k < parts.len()
        invariant
            from < k <= parts@.len(),
            ps == Seq::new(parts@.len(), |j: int| parts@[j]@),
            s@ == join_parts(ps.skip(from as int).take(k - from)),
        decreases parts@.len() - k,
    {
        let ghost before = s@;
        s.push(PATH_SEP_CHAR);
        let mut q: usize = 0;
        while q < parts[k].len()
            invariant
                k < parts@.len(),
                q <= parts@[k as int]@.len(),
                s@ == before + seq![PATH_SEP_CHAR] + parts@[k as int]@.take(q as int),
            decreases parts@[k as int]@.len() - q,
        {
            s.push(parts[k][q]);
            q = q + 1;
            assert(s@ =~= before + seq![PATH_SEP_CHAR] + parts@[k as int]@.take(q as int));
        }
        assert(parts@[k as int]@.take(q as int) == parts@[k as int]@);
        let ghost t = ps.skip(from as int).take(k + 1 - from);
        assert(t.drop_last() == ps.skip(from as int).take(k - from));
        assert(t.last() == ps[k as int]);
        k = k + 1;
    }
    assert(ps.skip(from as int).take(parts@.len() - from) == ps.skip(from as int));
    s
}

/// Whether a path is a directory (ends with `/` or `·`).
pub fn is_dir(path: &[char]) -> (r: bool)
    ensures
        r == is_dir_spec(path@),
{
    ends_with(path, PATH_SEP_CHAR) || ends_with(path, OBJ_SEP_CHAR)
}

/// The parent index and entry name of a path; see [`parent_name_spec`].
pub fn parent_name(path: &[char]) -> (r: (Vec<char>, Vec<char>))
    ensures
        r.0@ == parent_name_spec(path@).0,
        r.1@ == parent_name_spec(path@).1,
{
    let clean = if is_dir(path) && !is_root(path) { strip_chars(path) } else { sub_chars(path, 0, path.len()) };
    assert(path@.subrange(0, path@.len() as int) == path@);
    let (a, b, _) = split_index_chars(&clean);
    (a, b)
}

/// A pointer may point at `target` when the target is absent, the pointer names no kind,
/// or the target's kind is the one it names; else the error says both kinds.
pub fn check_ptr_kind(target: &str, v: &XValue, ptr_kind: &str) -> (r: Result<(), String>)
    ensures
        r is Ok <==> (v@ is Nil || ptr_kind@.len() == 0 || crate::xvalue_codec::kind_of(v@) == ptr_kind@),
        r matches Err(msg) ==> msg@ == ERR_LINK_TYPE_MISMATCH@ + ": ptr kind mismatch: target "@ + target@
            + " is "@ + crate::xvalue_codec::kind_of(v@) + ", ptr expects "@ + ptr_kind@,
{
    if matches!(v, XValue::Nil) {
        return Ok(());
    }
    let k = v.kind();
    if chars_of(ptr_kind).len() > 0 && !str_eq(k, ptr_kind) {
        let mut msg = string_of(ERR_LINK_TYPE_MISMATCH);
        push_str(&mut msg, ": ptr kind mismatch: target ");
        push_str(&mut msg, target);
        push_str(&mut msg, " is ");
        push_str(&mut msg, k);
        push_str(&mut msg, ", ptr expects ");
        push_str(&mut msg, ptr_kind);
        assert(msg@ =~= ERR_LINK_TYPE_MISMATCH@ + ": ptr kind mismatch: target "@ + target@ + " is "@
            + crate::xvalue_codec::kind_of(v@) + ", ptr expects "@ + ptr_kind@);
        return Err(msg);
    }
    Ok(())
}

/// A key and the value to store under it; `raw`, when given, is stored as is (keeping the
/// head's permission bits) in place of the value's encoding.
pub struct KVPair {
    pub key: String,
    pub val: XValue,
    pub raw: Option<Vec<u8>>,
}

/// The bytes a pair stores: its raw bytes when given, else its value's encoding.
pub open spec fn pair_bytes_spec(p: KVPair) -> Seq<u8> {
    match p.raw {
        Some(r) => r@,
        None => crate::xvalue_codec::encode_value(p.val@),
    }
}

/// A pair whose key (links followed) names a plain entry: not a directory path, and the
/// value is not a container.
pub open spec fn leaf_write(m: Map<Seq<char>, Seq<u8>>, p: KVPair) -> bool {
    &&& settles(m, p.key@)
    &&& !is_dir_spec(resolved(m, p.key@))
    &&& !(p.val@ is MapVal)
}

/// A pair whose key (links followed) names an entry, not a directory path: its bytes land
/// under that key whatever the value's kind.
pub open spec fn entry_write(m: Map<Seq<char>, Seq<u8>>, p: KVPair) -> bool {
    &&& settles(m, p.key@)
    &&& !is_dir_spec(resolved(m, p.key@))
}

/// A pair whose bytes are a value's encoding and no pointer.
pub open spec fn non_link_pair(p: KVPair) -> bool {
    p.raw is None && !(p.val@ is Ptr)
}

/// A plain write: a value (not a pointer, a container or a directory index) encoded under
/// a key that is not a directory path.
pub open spec fn plain_pair(p: KVPair) -> bool {
    &&& non_link_pair(p)
    &&& !is_dir_spec(p.key@)
    &&& !(p.val@ is MapVal || p.val@ is Index || p.val@ is ExtIndex)
}

/// Plain writes to distinct keys.
pub open spec fn plain_batch(pairs: Seq<KVPair>) -> bool {
    &&& forall|i: int| 0 <= i < pairs.len() ==> plain_pair(#[trigger] pairs[i])
    &&& forall|i: int, j: int| 0 <= i < j < pairs.len() ==> (#[trigger] pairs[i]).key@ != (#[trigger] pairs[j]).key@
}

/// `b` holds every value `a` holds under a key that is neither a directory path nor `x`.
pub open spec fn keeps_present_except(a: Map<Seq<char>, Seq<u8>>, b: Map<Seq<char>, Seq<u8>>, x: Seq<char>) -> bool {
    forall|k: Seq<char>| #[trigger] a.dom().contains(k) && !is_dir_spec(k) && k != x ==> b.dom().contains(k) && b[k] == a[k]
}

/// A pair's bytes can be produced.
pub open spec fn pair_fits(p: KVPair) -> bool {
    p.raw is Some || crate::xvalue_codec::encode_fits(p.val@)
}

/// Whether a pair can be written: its raw bytes are given, or its value's encoding fits
/// in memory; see [`pair_fits`].
pub fn pair_fits_check(p: &KVPair) -> (r: bool)
    ensures
        r == pair_fits(*p),
{
    p.raw.is_some() || crate::xvalue_codec::encode_fits_check(&p.val)
}

/// `head`, a space and `detail`, the latter in its `Debug` form when `debug`.
fn message_sp(head: &str, detail: &[char], debug: bool) -> (s: String)
    ensures
        s@ == head@ + seq![' '] + if debug { crate::text::debug_text(detail@) } else { detail@ },
{
    let mut s = string_of(head);
    push_char(&mut s, ' ');
    let d = string_from_chars(detail);
    if debug {
        let q = crate::text::debug_quoted(d.as_str());
        push_str(&mut s, q.as_str());
    } else {
        push_str(&mut s, d.as_str());
    }
    assert(s@ =~= head@ + seq![' '] + if debug { crate::text::debug_text(detail@) } else { detail@ });
    s
}

/// `head` followed by `": "` and `detail`.
fn message(head: &str, detail: &[char]) -> (s: String)
    ensures
        s@ == head@ + ": "@ + detail@,
{
    let mut s = string_of(head);
    push_str(&mut s, ": ");
    let ghost start = s@;
    let mut i: usize = 0;
    while i < detail.len()
        invariant
            i <= detail@.len(),
            s@ == start + detail@.take(i as int),
        decreases detail.len() - i,
    {
        push_char(&mut s, detail[i]);
        i = i + 1;
        assert(s@ =~= start + detail@.take(i as int));
    }
    assert(detail@.take(detail@.len() as int) =~= detail@);
    s
}

/// Two `/` in a row somewhere in `s`.
pub open spec fn double_slash(s: Seq<char>) -> bool {
    exists|i: int| 0 <= i < s.len() - 1 && #[trigger] s[i] == PATH_SEP_CHAR && s[i + 1] == PATH_SEP_CHAR
}

/// The first value from the `i`-th on that is a pointer.
pub open spec fn first_ptr_in(vals: Seq<XV>, i: nat) -> Option<nat>
    decreases vals.len() - i,
{
    if i >= vals.len() {
        None
    } else if vals[i as int] is Ptr {
        Some(i)
    } else {
        first_ptr_in(vals, i + 1)
    }
}

/// One hop of link resolution of `path`, given the values under its prefixes (root to
/// leaf): the first prefix holding a pointer is replaced by the pointer's target, the rest
/// of the path kept; `false` when none does. See [`resolve_one_spec`].
pub open spec fn hop_spec(path: Seq<char>, vals: Seq<XV>) -> (Seq<char>, bool) {
    if path == root_path() {
        (path, false)
    } else {
        let parts = path_parts(path);
        match first_ptr_in(vals, 0) {
            Some(i) => {
                let t = match vals[i as int] {
                    XV::Ptr(_, t) => t,
                    _ => seq![],
                };
                if i + 1 < parts.len() {
                    (join_path_spec(t, join_parts(parts.skip(i as int + 1))), true)
                } else {
                    (t, true)
                }
            },
            None => (path, false),
        }
    }
}

/// The values under a path's prefixes are what a store holds there.
pub proof fn lemma_first_ptr_in(m: Map<Seq<char>, Seq<u8>>, parts: Seq<Seq<char>>, vals: Seq<XV>, i: nat)
    requires
        vals.len() == parts.len(),
        forall|j: int| 0 <= j < parts.len() ==> #[trigger] vals[j] == stored(m, prefix_path(parts, j as nat)),
    ensures
        first_ptr_in(vals, i) == first_ptr(m, parts, i),
    decreases parts.len() - i,
{
    if i < parts.len() {
        assert(vals[i as int] == stored(m, prefix_path(parts, i)));
        lemma_first_ptr_in(m, parts, vals, i + 1);
    }
}

/// One hop over the values read at a path's prefixes is the hop link resolution takes in a
/// store holding those values.
pub proof fn law_hop_matches_resolution(m: Map<Seq<char>, Seq<u8>>, path: Seq<char>, vals: Seq<XV>)
    requires
        vals.len() == path_parts(path).len(),
        forall|j: int| 0 <= j < vals.len() ==> #[trigger] vals[j] == stored(m, prefix_path(path_parts(path), j as nat)),
    ensures
        hop_spec(path, vals) == resolve_one_spec(m, path),
{
    lemma_first_ptr_in(m, path_parts(path), vals, 0);
    lemma_first_ptr_bound(m, path_parts(path), 0);
    if let Some(i) = first_ptr(m, path_parts(path), 0) {
        assert(vals[i as int] == stored(m, prefix_path(path_parts(path), i)));
    }
}

/// The first pointer prefix is one of the path's prefixes.
proof fn lemma_first_ptr_bound(m: Map<Seq<char>, Seq<u8>>, parts: Seq<Seq<char>>, i: nat)
    ensures
        first_ptr(m, parts, i) matches Some(j) ==> i <= j < parts.len(),
    decreases parts.len() - i,
{
    if i < parts.len() {
        lemma_first_ptr_bound(m, parts, i + 1);
    }
}

/// The reserved rows and row width the head of the index under `k` records.
#[verifier::opaque]
pub open spec fn head_cap(m: Map<Seq<char>, Seq<u8>>, k: Seq<char>) -> nat {
    crate::xvalue_index::matrix_cap_spec(decode_head_spec(m[k]).phys_dims)
}

/// See [`head_cap`].
#[verifier::opaque]
pub open spec fn head_width(m: Map<Seq<char>, Seq<u8>>, k: Seq<char>) -> nat {
    crate::xvalue_index::matrix_width_spec(decode_head_spec(m[k]).phys_dims)
}

/// The extension path an index value keeps (`None` for a plain member list).
pub open spec fn ext_part(v: XV) -> Option<Seq<char>> {
    match v {
        XV::ExtIndex(_, p) => Some(p),
        _ => None,
    }
}

/// The index under `d` holds a directory value that reads back: absent, or a member list or
/// an extension index whose bytes decode.
pub open spec fn index_readable(m: Map<Seq<char>, Seq<u8>>, d: Seq<char>) -> bool {
    !m.dom().contains(d) || (!decode_panics(m[d]) && (stored(m, d) is Index || stored(m, d) is ExtIndex))
}

/// The index under `d` can be rewritten to list `names`, its capacity grown to cover them
/// (from `cap` on) and its row width and extension kept.
pub open spec fn rewrite_fits(m: Map<Seq<char>, Seq<u8>>, d: Seq<char>, names: Seq<Seq<char>>, cap: nat) -> bool {
    &&& crate::xvalue_index::grow_cap_spec(cap, names.len()) <= usize::MAX
    &&& index_encodable(names, crate::xvalue_index::grow_cap_spec(cap, names.len()), head_width(m, d), ext_part(stored(m, d)))
}

/// Adding `name` to the index under `parent` succeeds: the index reads back, and either it
/// lists the name already or the grown list fits (a new index is the one-name list).
#[verifier::opaque]
pub open spec fn add_child_ok(m: Map<Seq<char>, Seq<u8>>, parent: Seq<char>, name: Seq<char>) -> bool {
    if !m.dom().contains(parent) {
        index_encodable(seq![name], 0, 0, None)
    } else {
        &&& index_readable(m, parent)
        &&& (dir_names(stored(m, parent)).contains(name)
            || rewrite_fits(m, parent, dir_names(stored(m, parent)).push(name), head_cap(m, parent)))
    }
}

/// The bytes `add_child` writes under `parent` for a name it does not list yet: the
/// one-name list for a new index, else the old entries with the name appended, encoded
/// (sorted) with the capacity grown to cover them, the old row width and the old extension.
pub open spec fn add_child_bytes(m: Map<Seq<char>, Seq<u8>>, parent: Seq<char>, name: Seq<char>) -> Seq<u8> {
    if !m.dom().contains(parent) {
        grown_index_bytes(seq![name], 0, 0, None)
    } else {
        let names = dir_names(stored(m, parent)).push(name);
        grown_index_bytes(names, crate::xvalue_index::grow_cap_spec(head_cap(m, parent), names.len()),
            head_width(m, parent), ext_part(stored(m, parent)))
    }
}

/// The store after a successful `add_child`: unchanged when the index lists the name
/// already, else the index rewritten by [`add_child_bytes`].
pub open spec fn add_child_result(m: Map<Seq<char>, Seq<u8>>, parent: Seq<char>, name: Seq<char>) -> Map<Seq<char>, Seq<u8>> {
    if m.dom().contains(parent) && dir_names(stored(m, parent)).contains(name) {
        m
    } else {
        m.insert(parent, add_child_bytes(m, parent, name))
    }
}

/// Removing `names` from the index under `parent` succeeds: there is no index, or it reads
/// back and the list that is left fits.
#[verifier::opaque]
pub open spec fn remove_child_ok(m: Map<Seq<char>, Seq<u8>>, parent: Seq<char>, names: Seq<Seq<char>>) -> bool {
    !m.dom().contains(parent) || {
        &&& index_readable(m, parent)
        &&& index_encodable(kept_names(dir_names(stored(m, parent)), names), head_cap(m, parent),
            head_width(m, parent), ext_part(stored(m, parent)))
    }
}

/// The row width a rewrite of the directory index under `d` keeps: the head's, or none when
/// there is no readable value.
pub open spec fn kept_width(m: Map<Seq<char>, Seq<u8>>, d: Seq<char>) -> nat {
    if m.dom().contains(d) && !decode_panics(m[d]) { head_width(m, d) } else { 0 }
}

/// Reserving `capacity` rows in the directory index under `d` succeeds: it holds a
/// directory value and the rewritten member list, its capacity grown to cover the entries,
/// fits.
#[verifier::opaque]
pub open spec fn reserve_rows_ok(m: Map<Seq<char>, Seq<u8>>, d: Seq<char>, capacity: nat) -> bool {
    let names = dir_names(stored(m, d));
    let cap = crate::xvalue_index::grow_cap_spec(capacity, names.len());
    &&& dir_ok(stored(m, d))
    &&& cap <= usize::MAX
    &&& index_encodable(names, cap, kept_width(m, d), None)
}

/// Reading the directory `q` fails: its links do not settle, or it holds a value that is
/// not a directory value.
pub open spec fn dir_trouble(m: Map<Seq<char>, Seq<u8>>, q: Seq<char>) -> bool {
    !settles(m, q) || (is_dir_spec(q) && !dir_ok(stored(m, q)))
}

/// Some directory of the store cannot be read (see [`dir_trouble`]).
pub open spec fn has_dir_trouble(m: Map<Seq<char>, Seq<u8>>) -> bool {
    exists|q: Seq<char>| #[trigger] dir_trouble(m, q)
}

/// The keys deleting `rp` removes: the key itself and, for a directory, its link key.
pub open spec fn gone_keys(rp: Seq<char>) -> Set<Seq<char>> {
    Set::new(|k: Seq<char>| k == rp || (is_dir_spec(rp) && k == strip_dir_suf_spec(rp)))
}

/// Deleting entry `nm` of the directory `pd` is allowed by its extension: `pd` is no
/// extension index, or it reads and either lists `nm` itself or its extension target
/// reads and does not list it.
pub open spec fn ext_del_ok(m: Map<Seq<char>, Seq<u8>>, pd: Seq<char>, nm: Seq<char>) -> bool {
    holds_ext_index(m, pd) ==> {
        &&& dir_ok(stored(m, pd))
        &&& dir_names(stored(m, pd)).contains(nm) || {
            &&& dir_ok(stored(m, ext_of(m, pd)))
            &&& !dir_names(stored(m, ext_of(m, pd))).contains(nm)
        }
    }
}

/// Deleting the resolved key `rp` is refused by its parent's extension: the parent is an
/// extension index that reads back and does not list the entry, while its extension target
/// reads back and does.
pub open spec fn ext_del_refused(m: Map<Seq<char>, Seq<u8>>, rp: Seq<char>) -> bool {
    let (pd, nm) = parent_name_spec(rp);
    &&& holds_ext_index(m, pd) && dir_ok(stored(m, pd)) && !dir_names(stored(m, pd)).contains(nm)
    &&& dir_ok(stored(m, ext_of(m, pd))) && dir_names(stored(m, ext_of(m, pd))).contains(nm)
}

/// One successful step of `del`, from store `m` to `m2`, deleting key `k`: keys only go
/// away, values off directory indexes stay, and (links settling) the deletion was allowed,
/// the resolved key is gone, and every key it does not name (a link's target included)
/// is still there.
pub open spec fn del_step(m: Map<Seq<char>, Seq<u8>>, k: Seq<char>, m2: Map<Seq<char>, Seq<u8>>) -> bool {
    &&& m2.dom().subset_of(m.dom())
    &&& kept_off_dirs(m, m2)
    &&& settles(m, sep_path_spec(parent_clean(k)).0) ==> {
        &&& del_one_ok(m, resolved_parent_spec(m, k))
        &&& !m2.dom().contains(resolved_parent_spec(m, k))
        &&& forall|x: Seq<char>| #[trigger] m.dom().contains(x) && !gone_keys(resolved_parent_spec(m, k)).contains(x)
            ==> m2.dom().contains(x)
    }
}

/// Deleting key `k` from store `m` fails: (links settling) the deletion is not allowed.
pub open spec fn del_refused(m: Map<Seq<char>, Seq<u8>>, k: Seq<char>) -> bool {
    settles(m, sep_path_spec(parent_clean(k)).0) ==> !del_one_ok(m, resolved_parent_spec(m, k))
}

/// The stores `ms` are those `del` passes through deleting the first `j` keys in turn.
pub open spec fn del_chain(ms: Seq<Map<Seq<char>, Seq<u8>>>, keys: Seq<Seq<char>>, j: int) -> bool {
    &&& ms.len() == j + 1
    &&& forall|i: int| 0 <= i < j ==> del_step(#[trigger] ms[i], keys[i], ms[i + 1])
}

/// Deleting the resolved key `rp` succeeds: its extension allows it and, once its keys are
/// gone, its parent index can drop its name.
#[verifier::opaque]
pub open spec fn del_one_ok(m: Map<Seq<char>, Seq<u8>>, rp: Seq<char>) -> bool {
    let (pd, nm) = parent_name_spec(rp);
    ext_del_ok(m, pd, nm) && remove_child_ok(m.remove_keys(gone_keys(rp)), pd, seq![nm])
}

/// The keys deleting the subtree at the resolved prefix `rp` removes: `rp` and every key
/// under its scan base.
pub open spec fn tree_keys(m: Map<Seq<char>, Seq<u8>>, rp: Seq<char>) -> Set<Seq<char>> {
    Set::new(|x: Seq<char>| x == rp || (m.dom().contains(x) && starts_with_seq(x, scan_base(rp))))
}

/// Registering the directory `cur` in its parent fails (see [`Backend::mkindex`]): it holds
/// no directory value, or it is empty and its parent index cannot take its name.
pub open spec fn register_fails(m: Map<Seq<char>, Seq<u8>>, cur: Seq<char>) -> bool {
    !(dir_ok(stored(m, cur)) && (dir_names(stored(m, cur)).len() > 0
        || add_child_ok(m, parent_name_spec(cur).0, parent_name_spec(cur).1.push(PATH_SEP_CHAR))))
}

/// The member list `base` with each name that `ch` pairs with the directory `p` appended,
/// in order, unless already there.
pub open spec fn added_names(base: Seq<Seq<char>>, ch: Seq<(Vec<char>, Vec<char>)>, p: Seq<char>) -> Seq<Seq<char>>
    decreases ch.len(),
{
    if ch.len() == 0 {
        base
    } else {
        let b = added_names(base, ch.drop_last(), p);
        if ch.last().0@ == p && !b.contains(ch.last().1@) { b.push(ch.last().1@) } else { b }
    }
}

/// Entry `i` of `ch` is the first to name its directory.
pub open spec fn first_parent(ch: Seq<(Vec<char>, Vec<char>)>, i: int) -> bool {
    forall|t: int| 0 <= t < i ==> (#[trigger] ch[t]).0@ != ch[i].0@
}

/// The index of the directory first named by entry `i` of `ch` can take every name `ch`
/// pairs with it: it reads back and the grown list fits, capacity grown to cover it.
#[verifier::opaque]
pub open spec fn parent_merge_ok(m: Map<Seq<char>, Seq<u8>>, ch: Seq<(Vec<char>, Vec<char>)>, i: int) -> bool {
    let p = ch[i].0@;
    let names = added_names(dir_names(stored(m, p)), ch.subrange(i, ch.len() as int), p);
    let cap0 = if m.dom().contains(p) { head_cap(m, p) } else { 0 };
    let cap = crate::xvalue_index::grow_cap_spec(cap0, names.len());
    &&& index_readable(m, p)
    &&& cap <= usize::MAX
    &&& index_encodable(names, cap, kept_width(m, p), ext_part(stored(m, p)))
}

/// The bytes `merge_children` writes for the directory first named by entry `i` of `ch`:
/// its old entries with the names `ch` pairs with it appended (when missing), encoded
/// (sorted) with the capacity grown to cover them, the old row width and extension.
pub open spec fn merge_bytes(m: Map<Seq<char>, Seq<u8>>, ch: Seq<(Vec<char>, Vec<char>)>, i: int) -> Seq<u8> {
    let p = ch[i].0@;
    let names = added_names(dir_names(stored(m, p)), ch.subrange(i, ch.len() as int), p);
    let cap0 = if m.dom().contains(p) { head_cap(m, p) } else { 0 };
    grown_index_bytes(names, crate::xvalue_index::grow_cap_spec(cap0, names.len()), kept_width(m, p), ext_part(stored(m, p)))
}

/// `added_names` keeps the list it starts from and adds each name paired with `p`.
proof fn lemma_added_names(base: Seq<Seq<char>>, ch: Seq<(Vec<char>, Vec<char>)>, p: Seq<char>, x: Seq<char>)
    ensures
        base.contains(x) ==> added_names(base, ch, p).contains(x),
        (exists|k: int| 0 <= k < ch.len() && (#[trigger] ch[k]).0@ == p && ch[k].1@ == x)
            ==> added_names(base, ch, p).contains(x),
        added_names(base, ch, p).contains(x) ==> base.contains(x)
            || exists|k: int| 0 <= k < ch.len() && (#[trigger] ch[k]).0@ == p && ch[k].1@ == x,
    decreases ch.len(),
{
    if ch.len() > 0 {
        let d = ch.drop_last();
        lemma_added_names(base, d, p, x);
        let b = added_names(base, d, p);
        if b.contains(x) {
            let t = choose|t: int| 0 <= t < b.len() && b[t] == x;
            assert(b.push(ch.last().1@)[t] == x);
        }
        if ch.last().0@ == p && ch.last().1@ == x && !b.contains(x) {
            assert(b.push(x)[b.len() as int] == x);
        }
        if exists|k: int| 0 <= k < ch.len() && (#[trigger] ch[k]).0@ == p && ch[k].1@ == x {
            let k = choose|k: int| 0 <= k < ch.len() && (#[trigger] ch[k]).0@ == p && ch[k].1@ == x;
            if k < ch.len() - 1 {
                assert(d[k] == ch[k]);
            }
        }
        if added_names(base, ch, p).contains(x) && !b.contains(x) {
            let t = choose|t: int| 0 <= t < added_names(base, ch, p).len() && added_names(base, ch, p)[t] == x;
            assert(t == b.len());
            assert(ch[ch.len() - 1] == ch.last());
        }
        if b.contains(x) && !base.contains(x) {
            let k = choose|k: int| 0 <= k < d.len() && (#[trigger] d[k]).0@ == p && d[k].1@ == x;
            assert(ch[k] == d[k]);
        }
    }
}

/// Registering names in a directory index keeps every name it listed and lists every name
/// registered there; the entries read back are the sorted old entries plus the new names.
pub proof fn law_merge_keeps_names(m: Map<Seq<char>, Seq<u8>>, ch: Seq<(Vec<char>, Vec<char>)>, i: int, x: Seq<char>)
    requires
        0 <= i < ch.len(),
        parent_merge_ok(m, ch, i),
        names_nul_free(added_names(dir_names(stored(m, ch[i].0@)), ch.subrange(i, ch.len() as int), ch[i].0@)),
        x.len() > 0,
        listed(m, ch[i].0@, x) || exists|k: int| i <= k < ch.len() && (#[trigger] ch[k]).0@ == ch[i].0@ && ch[k].1@ == x,
    ensures
        listed(m.insert(ch[i].0@, merge_bytes(m, ch, i)), ch[i].0@, x),
{
    broadcast use vstd::seq_lib::group_to_multiset_ensures;
    reveal(parent_merge_ok);
    reveal(index_encodable);
    let p = ch[i].0@;
    let sub = ch.subrange(i, ch.len() as int);
    let base = dir_names(stored(m, p));
    let names = added_names(base, sub, p);
    let cap0 = if m.dom().contains(p) { head_cap(m, p) } else { 0 };
    let cap = crate::xvalue_index::grow_cap_spec(cap0, names.len());
    lemma_added_names(base, sub, p, x);
    if !listed(m, p, x) {
        let k = choose|k: int| i <= k < ch.len() && (#[trigger] ch[k]).0@ == p && ch[k].1@ == x;
        assert(sub[k - i] == ch[k]);
    }
    assert(names.contains(x));
    let j = choose|j: int| 0 <= j < names.len() && names[j] == x;
    assert(nul_free(names[j]));
    lemma_grown_index_lists(names, cap, kept_width(m, p), ext_part(stored(m, p)), x);
}

/// Registering the pairs `ch` (directory, name) succeeds: every directory they name can
/// take its names.
pub open spec fn merge_ok(m: Map<Seq<char>, Seq<u8>>, ch: Seq<(Vec<char>, Vec<char>)>) -> bool {
    forall|i: int| 0 <= i < ch.len() && #[trigger] first_parent(ch, i) ==> parent_merge_ok(m, ch, i)
}

/// `c` is one of the member names along the chain of containers that `child` of the member
/// index `dir` hangs from: `child` itself, then each container's own name in its parent
/// member index, within `fuel` steps.
pub open spec fn chain_has(dir: Seq<char>, child: Seq<char>, c: Seq<char>, fuel: nat) -> bool
    decreases fuel,
{
    c == child || (fuel > 0 && ends_with_char(parent_name_spec(dir).0, OBJ_SEP_CHAR)
        && chain_has(parent_name_spec(dir).0, parent_name_spec(dir).1, c, (fuel - 1) as nat))
}

/// A coordinate member name a new map container cannot be made for: a component at
/// `i32::MAX`, or more axes than a value head holds.
pub open spec fn coord_too_wide(c: Seq<char>) -> bool {
    crate::coord::is_coord_spec(c) && (!crate::coord::coords_fit(seq![c])
        || crate::coord::grow_coord_dims_spec(seq![], seq![c]).len() > 0x100_0000)
}

/// Some member name along the chain of `child` under `dir` is such a coordinate.
#[verifier::opaque]
pub open spec fn chain_too_wide(dir: Seq<char>, child: Seq<char>) -> bool {
    exists|c: Seq<char>, f: nat| #[trigger] chain_has(dir, child, c, f) && coord_too_wide(c)
}

/// A write of `rk` that its parent extension index refuses: the parent is an extension
/// index that does not read back, or that does not list the entry while its extension
/// target does not read back or lists it.
pub open spec fn ext_write_refused(m: Map<Seq<char>, Seq<u8>>, rk: Seq<char>) -> bool {
    let (pd, nm, _) = split_index_spec(rk);
    holds_ext_index(m, pd) && !{
        &&& dir_ok(stored(m, pd))
        &&& dir_names(stored(m, pd)).contains(nm) || {
            &&& dir_ok(stored(m, ext_of(m, pd)))
            &&& !dir_names(stored(m, ext_of(m, pd))).contains(nm)
        }
    }
}

/// A pair `set` writes as a leaf directly under a `/` directory: its key settles, is no
/// directory path, its value is no container, and its parent index is a `/` directory.
pub open spec fn leaf_under_dir(m: Map<Seq<char>, Seq<u8>>, p: KVPair) -> bool {
    leaf_write(m, p) && ends_with_char(split_index_spec(resolved(m, p.key@)).0, PATH_SEP_CHAR)
}

/// The directory index `pd` can register the entry `nm`: it reads back and the list with
/// `nm` added (when missing) fits, its capacity grown to cover it.
pub open spec fn leaf_merge_ok(m: Map<Seq<char>, Seq<u8>>, pd: Seq<char>, nm: Seq<char>) -> bool {
    let base = dir_names(stored(m, pd));
    let names = if base.contains(nm) { base } else { base.push(nm) };
    let cap0 = if m.dom().contains(pd) { head_cap(m, pd) } else { 0 };
    let cap = crate::xvalue_index::grow_cap_spec(cap0, names.len());
    &&& index_readable(m, pd)
    &&& cap <= usize::MAX
    &&& index_encodable(names, cap, kept_width(m, pd), ext_part(stored(m, pd)))
}

/// Registering a single entry is [`leaf_merge_ok`].
proof fn lemma_merge_one(m: Map<Seq<char>, Seq<u8>>, ch: Seq<(Vec<char>, Vec<char>)>)
    requires
        ch.len() == 1,
    ensures
        merge_ok(m, ch) == leaf_merge_ok(m, ch[0].0@, ch[0].1@),
{
    reveal(parent_merge_ok);
    let pd = ch[0].0@;
    let base = dir_names(stored(m, pd));
    let sub = ch.subrange(0, 1);
    assert(sub.drop_last() =~= Seq::<(Vec<char>, Vec<char>)>::empty());
    assert(sub.last() == ch[0]);
    assert(added_names(base, sub.drop_last(), pd) == base);
    assert(first_parent(ch, 0));
    assert(ch.subrange(0, ch.len() as int) == sub);
}

/// `k` lies in the subtree rooted at the base `sb`: it is the base itself, or the base
/// followed by `/` or `·` (every key lies under the root).
pub open spec fn tree_member(k: Seq<char>, sb: Seq<char>) -> bool {
    &&& starts_with_seq(k, sb)
    &&& sb == root_path() || k.len() == sb.len() || k[sb.len() as int] == PATH_SEP_CHAR
        || k[sb.len() as int] == OBJ_SEP_CHAR
}

/// Whether `k` lies in the subtree rooted at `sb`; see [`tree_member`].
fn in_tree(k: &[char], sb: &[char]) -> (r: bool)
    ensures
        r == tree_member(k@, sb@),
{
    if !crate::store::starts_with_chars(k, sb) {
        return false;
    }
    is_root(sb) || k.len() == sb.len() || k[sb.len()] == PATH_SEP_CHAR || k[sb.len()] == OBJ_SEP_CHAR
}

/// Registering the copied root `db` in its parent can fail: some directory is unreadable,
/// or the parent index cannot take its name (as a value, a directory or a member index).
pub open spec fn register_copy_fails(m: Map<Seq<char>, Seq<u8>>, db: Seq<char>) -> bool {
    let (pd, nm) = parent_name_spec(db);
    ||| has_dir_trouble(m)
    ||| !add_child_ok(m, pd, nm)
    ||| !add_child_ok(m, pd, nm.push(PATH_SEP_CHAR))
    ||| !add_child_ok(m, pd, nm.push(OBJ_SEP_CHAR))
}

/// `mk_index_recursive` finds the directory above `inner` listed: its parent index (links
/// followed) is a directory that lists the name, as `name` or `name/`.
pub open spec fn prefix_listed(m: Map<Seq<char>, Seq<u8>>, inner: Seq<char>) -> bool {
    let (p, n, _) = split_index_spec(inner);
    &&& settles(m, p)
    &&& is_dir_spec(resolved(m, p))
    &&& dir_names(stored(m, resolved(m, p))).contains(n) || dir_names(stored(m, resolved(m, p))).contains(n.push(PATH_SEP_CHAR))
}

/// Every directory along `path` is already listed in its parent, so creating them writes
/// nothing.
pub open spec fn chain_listed(m: Map<Seq<char>, Seq<u8>>, path: Seq<char>) -> bool {
    forall|j: int| 1 <= j < path.len() && path[j] == PATH_SEP_CHAR ==> #[trigger] prefix_listed(m, path.take(j))
}

/// A write of `rk` that its parent's read-only extension layer owns: the parent is an
/// extension index that reads back without listing the entry, while its extension target
/// reads back and lists it.
pub open spec fn ext_write_blocked(m: Map<Seq<char>, Seq<u8>>, rk: Seq<char>) -> bool {
    let (pd, nm, _) = split_index_spec(rk);
    &&& holds_ext_index(m, pd) && dir_ok(stored(m, pd)) && !dir_names(stored(m, pd)).contains(nm)
    &&& dir_ok(stored(m, ext_of(m, pd))) && dir_names(stored(m, ext_of(m, pd))).contains(nm)
}

/// A pointer may point at `target` expecting `kind`: the target (read as `get` reads it,
/// links on its directory followed) is absent, no kind is expected, or it has that kind.
pub open spec fn ptr_target_ok(m: Map<Seq<char>, Seq<u8>>, target: Seq<char>, kind: Seq<char>) -> bool {
    let v = get_entry(m, resolved(m, key_dir(target)), sep_path_spec(target).1);
    v is Nil || kind.len() == 0 || crate::xvalue_codec::kind_of(v) == kind
}

/// A pair `set` refuses before writing anything: its key (links followed) holds `//`, a
/// directory value goes to a key that is not a directory path, or a pointer expects another
/// kind than its existing target has.
pub open spec fn refused_pair(m: Map<Seq<char>, Seq<u8>>, p: KVPair) -> bool {
    let k = resolved(m, p.key@);
    ||| double_slash(k)
    ||| (p.val@ is Index || p.val@ is ExtIndex) && !is_dir_spec(k)
    ||| (p.val@ matches XV::Ptr(kind, target) && settles(m, key_dir(target)) && !ptr_target_ok(m, target, kind))
}

/// Whether `s` holds two `/` in a row.
fn has_double_slash(s: &[char]) -> (r: bool)
    ensures
        r == double_slash(s@),
{
    let mut i: usize = 0;
    while i < s.len()
        invariant
            i <= s@.len(),
            forall|j: int| 0 <= j < i && j < s@.len() - 1 ==> !(#[trigger] s@[j] == PATH_SEP_CHAR && s@[j + 1] == PATH_SEP_CHAR),
        decreases s.len() - i,
    {
        if i < s.len() - 1 && s[i] == PATH_SEP_CHAR && s[i + 1] == PATH_SEP_CHAR {
            return true;
        }
        i = i + 1;
    }
    false
}

/// `s` followed by `c`.
fn with_char(s: &[char], c: char) -> (r: Vec<char>)
    ensures
        r@ == s@.push(c),
{
    let mut r = sub_chars(s, 0, s.len());
    assert(s@.subrange(0, s@.len() as int) == s@);
    r.push(c);
    r
}

/// The empty member index value (a container's members, or a new directory).
fn empty_index_bytes() -> (b: Vec<u8>)
    ensures
        b@ == crate::xvalue_codec::encode_value(XV::Index(seq![])),
        not_link(b@),
{
    let names: Vec<String> = Vec::new();
    proof {
        assert(string_views(names@) =~= Seq::<Seq<char>>::empty());
        reveal_strlit("index");
        assert(crate::xvalue_index::sort_names(Seq::<Seq<char>>::empty()) =~= Seq::<Seq<char>>::empty());
        assert(crate::xvalue_index::matrix_body(Seq::<Seq<char>>::empty(), 0, 0) =~= Seq::<u8>::empty());
    }
    let (d, b) = crate::xvalue_index::encode_index(&names);
    proof { lemma_inline_not_link(KIND_INDEX@, d@, b@, false, 0); }
    encode_head(KIND_INDEX, 0, &d, &b)
}

/// A member list (an extindex with the path `ext` when given) can be encoded with reserved
/// capacity `cap` and row width `m`: it fits in memory, its geometry fits the head's `i32`
/// dims and its body the head's length field.
#[verifier::opaque]
pub open spec fn index_encodable(names: Seq<Seq<char>>, cap: nat, m: nat, ext: Option<Seq<char>>) -> bool {
    &&& crate::xvalue_index::encode_index_fits(names, cap, m)
    &&& index_geometry_fits(names, cap, m)
    &&& grown_index_body(names, cap, m, ext).len() < 0x8000_0000
}

/// The encoding of a member list (an extindex when `ext` is given) with reserved capacity
/// and row width; an error when its geometry would not fit the head's `i32` dims or its body
/// the head's length field.
fn index_bytes(names: &[String], cap: usize, m: usize, ext: Option<&str>) -> (r: Result<Vec<u8>, String>)
    ensures
        cap == 0 && m == 0 ==> match r {
            Ok(b) => b@ == match ext {
                None => crate::xvalue_codec::encode_value(XV::Index(string_views(names@))),
                Some(e) => crate::xvalue_codec::encode_value(XV::ExtIndex(string_views(names@), e@)),
            },
            Err(_) => true,
        },
        r is Ok <==> index_encodable(string_views(names@), cap as nat, m as nat, match ext { None => None, Some(e) => Some(e@) }),
        r matches Ok(b) ==> {
            let x = match ext { None => None, Some(e) => Some(e@) };
            &&& b@ == grown_index_bytes(string_views(names@), cap as nat, m as nat, x)
            &&& index_geometry_fits(string_views(names@), cap as nat, m as nat)
            &&& grown_index_body(string_views(names@), cap as nat, m as nat, x).len() < 0x8000_0000
            &&& not_link(b@)
        },
{
    proof { reveal(index_encodable); }
    let n = match index_body_len(names, cap, m) {
        Some(n) => n,
        None => { return Err(string_of("kvspace: index too large")); },
    };
    let (c2, m2) = match index_shape(names, cap, m) {
        Some(s) => s,
        None => { return Err(string_of("kvspace: index too large")); },
    };
    proof {
        crate::xvalue_index::lemma_sort_names_len(string_views(names@));
    }
    if c2 > 0x7fff_ffff || m2 > 0x7fff_ffff || n >= 0x8000_0000 {
        return Err(string_of("kvspace: index too large"));
    }
    proof {
        reveal_strlit("index");
        reveal_strlit("extindex");
    }
    match ext {
        None => {
            let (d, b) = encode_index_grow(names, cap, m);
            proof { lemma_inline_not_link(KIND_INDEX@, d@, b@, false, 0); }
            Ok(encode_head(KIND_INDEX, 0, &d, &b))
        },
        Some(e) => {
            let el = e.as_bytes().len();
            if el >= 0x8000_0000 - n {
                return Err(string_of("kvspace: index too large"));
            }
            let (d, b) = encode_ext_index_grow(e, names, cap, m);
            proof { lemma_inline_not_link(KIND_EXT_INDEX@, d@, b@, false, 0); }
            Ok(encode_head(KIND_EXT_INDEX, 0, &d, &b))
        },
    }
}

/// Whether a list of names holds `s`.
fn contains_name(v: &Vec<String>, s: &str) -> (r: bool)
    ensures
        r == string_views(v@).contains(s@),
{
    let mut i: usize = 0;
    while i < v.len()
        invariant
            i <= v@.len(),
            forall|j: int| 0 <= j < i ==> v@[j]@ != s@,
        decreases v@.len() - i,
    {
        if str_eq(v[i].as_str(), s) {
            assert(string_views(v@)[i as int] == s@);
            return true;
        }
        i = i + 1;
    }
    proof {
        if string_views(v@).contains(s@) {
            let j = choose|j: int| 0 <= j < string_views(v@).len() && string_views(v@)[j] == s@;
            assert(v@[j]@ == s@);
        }
    }
    false
}

/// `x` is none of `names`, nor any of them followed by `/`.
pub open spec fn unnamed(x: Seq<char>, names: Seq<Seq<char>>) -> bool {
    forall|j: int| 0 <= j < names.len() ==> x != #[trigger] names[j] && x != names[j].push(PATH_SEP_CHAR)
}

/// The entries of `c`, in order, other than each of `names` and `name/`.
pub open spec fn kept_names(c: Seq<Seq<char>>, names: Seq<Seq<char>>) -> Seq<Seq<char>>
    decreases c.len(),
{
    if c.len() == 0 {
        seq![]
    } else {
        let k = kept_names(c.drop_last(), names);
        if unnamed(c.last(), names) { k.push(c.last()) } else { k }
    }
}

/// The names of `v` other than each of `names` and `name/`.
fn without_names(v: &Vec<String>, names: &[String]) -> (r: Vec<String>)
    ensures
        string_views(r@) == kept_names(string_views(v@), string_views(names@)),
        forall|x: Seq<char>| #[trigger] string_views(r@).contains(x)
            <==> string_views(v@).contains(x) && unnamed(x, string_views(names@)),
{
    let ghost nv = string_views(names@);
    let mut out: Vec<String> = Vec::new();
    let mut i: usize = 0;
    while i < v.len()
        invariant
            i <= v@.len(),
            nv == string_views(names@),
            string_views(out@) == kept_names(string_views(v@).take(i as int), nv),
            forall|x: Seq<char>| #[trigger] string_views(out@).contains(x)
                <==> string_views(v@).take(i as int).contains(x) && unnamed(x, nv),
        decreases v@.len() - i,
    {
        let n = &v[i];
        let mut removed = false;
        let mut j: usize = 0;
        while j < names.len()
            invariant
                j <= names@.len(),
                nv == string_views(names@),
                removed == !(forall|t: int| 0 <= t < j ==> n@ != #[trigger] nv[t] && n@ != nv[t].push(PATH_SEP_CHAR)),
            decreases names@.len() - j,
        {
            let mut nd = string_of(names[j].as_str());
            push_char(&mut nd, PATH_SEP_CHAR);
            assert(nv[j as int] == names@[j as int]@);
            if str_eq(n.as_str(), names[j].as_str()) || str_eq(n.as_str(), nd.as_str()) {
                removed = true;
            }
            j = j + 1;
        }
        let ghost before = string_views(out@);
        let ghost prev = string_views(v@).take(i as int);
        assert(string_views(v@).take(i as int + 1) == prev.push(n@));
        assert(prev.push(n@).drop_last() =~= prev);
        assert(prev.push(n@).last() == n@);
        assert(forall|x: Seq<char>| #[trigger] before.contains(x) <==> prev.contains(x) && unnamed(x, nv));
        if !removed {
            out.push(n.clone());
            assert(string_views(out@) == before.push(n@));
        } else {
            assert(!unnamed(n@, nv));
        }
        assert forall|x: Seq<char>| #[trigger] string_views(out@).contains(x)
            <==> string_views(v@).take(i as int + 1).contains(x) && unnamed(x, nv) by {
            if string_views(out@).contains(x) {
                let t = choose|t: int| 0 <= t < string_views(out@).len() && string_views(out@)[t] == x;
                if t < before.len() {
                    assert(before[t] == x);
                    assert(before.contains(x));
                    let u = choose|u: int| 0 <= u < prev.len() && prev[u] == x;
                    assert(prev.push(n@)[u] == x);
                } else {
                    assert(prev.push(n@)[prev.len() as int] == x);
                }
            }
            if string_views(v@).take(i as int + 1).contains(x) && unnamed(x, nv) {
                let u = choose|u: int| 0 <= u < prev.len() + 1 && prev.push(n@)[u] == x;
                if u < prev.len() {
                    assert(prev[u] == x);
                    assert(prev.contains(x));
                    assert(before.contains(x));
                    let t = choose|t: int| 0 <= t < before.len() && before[t] == x;
                    if !removed {
                        assert(string_views(out@)[t] == x);
                    } else {
                        assert(string_views(out@) == before);
                    }
                } else {
                    assert(x == n@);
                    assert(string_views(out@)[before.len() as int] == x);
                }
            }
        }
        i = i + 1;
    }
    assert(string_views(v@).take(v@.len() as int) == string_views(v@));
    out
}


/// Whether `v` holds `s`.
fn contains_chars(v: &Vec<Vec<char>>, s: &[char]) -> (r: bool)
    ensures
        r == crate::xvalue_index::views(v@).contains(s@),
{
    let mut i: usize = 0;
    while i < v.len()
        invariant
            i <= v@.len(),
            forall|j: int| 0 <= j < i ==> v@[j]@ != s@,
        decreases v@.len() - i,
    {
        if chars_equal(&v[i], s) {
            assert(crate::xvalue_index::views(v@)[i as int] == s@);
            return true;
        }
        i = i + 1;
    }
    proof {
        let vv = crate::xvalue_index::views(v@);
        if vv.contains(s@) {
            let j = choose|j: int| 0 <= j < vv.len() && vv[j] == s@;
            assert(v@[j]@ == s@);
        }
    }
    false
}

/// Directory `d` lists entry `n` (its own index, the extension aside).
pub open spec fn listed(m: Map<Seq<char>, Seq<u8>>, d: Seq<char>, n: Seq<char>) -> bool {
    dir_names(stored(m, d)).contains(n)
}

/// Only the member-list kind decodes to a member list, read as the rows of its matrix.
proof fn lemma_decode_kind_index(k: Seq<char>, dims: Seq<i32>, body: Seq<u8>)
    requires
        crate::xvalue_codec::decode_kind(k, dims, body) is Index,
    ensures
        crate::xvalue_codec::decode_kind(k, dims, body) == XV::Index(crate::xvalue_index::matrix_rows(body,
            crate::xvalue_index::matrix_width_spec(dims), crate::xvalue_index::matrix_count_spec(dims))),
{
}

/// A plain member list whose rows all lie inside its stored body, and which is not the
/// legacy single empty name.
pub open spec fn plain_full_index(m: Map<Seq<char>, Seq<u8>>, d: Seq<char>) -> bool {
    &&& is_dir_spec(d)
    &&& stored(m, d) is Index
    &&& index_geom(m, d) matches Some((dims, body))
        && crate::xvalue_index::matrix_count_spec(dims) * crate::xvalue_index::matrix_width_spec(dims) <= body.len()
        && !(crate::xvalue_index::matrix_count_spec(dims) == 1
            && crate::xvalue_index::matrix_at_spec(body, crate::xvalue_index::matrix_width_spec(dims), 0) == Some(Seq::<char>::empty()))
}

/// The listing of a plain member list is its rows, one per counted entry.
#[verifier::rlimit(50)]
proof fn lemma_plain_listing(m: Map<Seq<char>, Seq<u8>>, d: Seq<char>)
    requires
        plain_full_index(m, d),
    ensures
        ({
            let (dims, body) = index_geom(m, d)->0;
            let w = crate::xvalue_index::matrix_width_spec(dims);
            let n = crate::xvalue_index::matrix_count_spec(dims);
            &&& list_spec(m, d, false).len() == n
            &&& forall|i: int| #![trigger list_spec(m, d, false)[i]] 0 <= i < n
                ==> crate::xvalue_index::matrix_at_spec(body, w, i as nat) == Some(list_spec(m, d, false)[i])
        }),
{
    let (dims, body) = index_geom(m, d)->0;
    let w = crate::xvalue_index::matrix_width_spec(dims);
    let n = crate::xvalue_index::matrix_count_spec(dims);
    let h = decode_head_spec(m[d]);
    assert(m.dom().contains(d) && !decode_panics(m[d]));
    assert(dims == h.phys_dims && body == body_of(h, m[d]));
    assert(stored(m, d) == crate::xvalue_codec::decode_value(m[d]));
    assert(h.reference != crate::xvalue::REF_PTR);
    let k = crate::xvalue::parse_kindexpr_spec(h.langtype).1;
    assert(stored(m, d) == crate::xvalue_codec::decode_kind(k, dims, body));
    lemma_decode_kind_index(k, dims, body);
    crate::xvalue_index::lemma_matrix_rows_full(body, w, n);
    let rows = crate::xvalue_index::matrix_rows(body, w, n);
    if n == 1 {
        assert(crate::xvalue_index::matrix_at_spec(body, w, 0) == Some(rows[0]));
        if rows[0].len() == 0 {
            assert(rows[0] =~= Seq::<char>::empty());
        }
    }
    assert(normalize_spec(rows) == rows);
    assert(dir_names(stored(m, d)) == rows);
    assert(merge_names(rows, seq![]) == rows);
    assert(list_spec(m, d, false) == rows);
}

/// Reading one entry of a plain member list straight from its matrix gives the entry the
/// full listing has at that position, and nothing past its end, whenever every row lies
/// inside the stored body and the list is not the legacy single empty name.
pub proof fn law_list_at_matches_list(m: Map<Seq<char>, Seq<u8>>, d: Seq<char>, idx: int)
    requires
        plain_full_index(m, d),
    ensures
        list_at_spec(m, d, idx, false) == (if 0 <= idx < list_spec(m, d, false).len() {
            Some(list_spec(m, d, false)[idx])
        } else {
            None
        }),
{
    lemma_plain_listing(m, d);
    if 0 <= idx < list_spec(m, d, false).len() {
        assert(list_spec(m, d, false)[idx] == list_spec(m, d, false)[idx]);
    }
}

/// A name a directory's index lists is exactly a name its plain listing gives.
pub proof fn law_listed_in_listing(m: Map<Seq<char>, Seq<u8>>, d: Seq<char>, x: Seq<char>)
    requires
        is_dir_spec(d),
    ensures
        list_spec(m, d, false).contains(x) <==> listed(m, d, x),
{
    assert(merge_names(dir_names(stored(m, d)), seq![]) == dir_names(stored(m, d)));
}

/// With the extension layer expanded, entry `idx` is the `idx`-th entry of the expanded
/// listing, and nothing past its end.
pub proof fn law_list_at_expanded(m: Map<Seq<char>, Seq<u8>>, d: Seq<char>, idx: int)
    ensures
        list_at_spec(m, d, idx, true) == (if 0 <= idx < list_spec(m, d, true).len() {
            Some(list_spec(m, d, true)[idx])
        } else {
            None
        }),
{
}

/// The count `list_len` reports is the number of entries `list` gives for the same
/// arguments: always when the extension layer is expanded (its entries are counted) or the
/// directory holds no plain member list, and for a plain member list whose rows all lie in
/// its body.
pub proof fn law_list_len_counts_listing(m: Map<Seq<char>, Seq<u8>>, d: Seq<char>, expand_ext: bool)
    requires
        expand_ext || index_geom(m, d) is None || plain_full_index(m, d),
    ensures
        list_len_spec(m, d, expand_ext) == (list_spec(m, d, expand_ext).len() as i32) as int,
{
    if !expand_ext && index_geom(m, d) is Some && is_dir_spec(d) {
        lemma_plain_listing(m, d);
    }
}

/// Merging an extension layer's entries into a directory's own: the directory's entries
/// come first and in order, an entry is listed exactly when one of the two holds it, and
/// nothing is listed twice when neither list repeats an entry (an extension entry that
/// the directory itself holds is not listed again).
pub proof fn law_merge_names(mem: Seq<Seq<char>>, ext: Seq<Seq<char>>)
    ensures
        merge_names(mem, ext).len() >= mem.len(),
        merge_names(mem, ext).take(mem.len() as int) == mem,
        forall|x: Seq<char>| #[trigger] merge_names(mem, ext).contains(x) <==> mem.contains(x) || ext.contains(x),
        mem.no_duplicates() && ext.no_duplicates() ==> merge_names(mem, ext).no_duplicates(),
    decreases ext.len(),
{
    if ext.len() == 0 {
        assert(mem.take(mem.len() as int) =~= mem);
    } else {
        let e = ext.drop_last();
        let t = merge_names(mem, e);
        let y = ext.last();
        law_merge_names(mem, e);
        assert forall|x: Seq<char>| ext.contains(x) <==> e.contains(x) || x == y by {
            if ext.contains(x) {
                let i = choose|i: int| 0 <= i < ext.len() && ext[i] == x;
                if i < ext.len() - 1 {
                    assert(e[i] == x);
                }
            }
            if e.contains(x) {
                let i = choose|i: int| 0 <= i < e.len() && e[i] == x;
                assert(ext[i] == x);
            }
            if x == y {
                assert(ext[ext.len() - 1] == x);
            }
        }
        if !mem.contains(y) {
            let r = t.push(y);
            assert(r.take(mem.len() as int) =~= t.take(mem.len() as int));
            assert forall|x: Seq<char>| #[trigger] r.contains(x) <==> t.contains(x) || x == y by {
                if r.contains(x) {
                    let i = choose|i: int| 0 <= i < r.len() && r[i] == x;
                    if i < t.len() {
                        assert(t[i] == x);
                    }
                }
                if t.contains(x) {
                    let i = choose|i: int| 0 <= i < t.len() && t[i] == x;
                    assert(r[i] == x);
                }
                if x == y {
                    assert(r[t.len() as int] == x);
                }
            }
            if mem.no_duplicates() && ext.no_duplicates() {
                assert(!e.contains(y)) by {
                    if e.contains(y) {
                        let i = choose|i: int| 0 <= i < e.len() && e[i] == y;
                        assert(ext[i] == ext[ext.len() - 1]);
                    }
                }
                assert(e.no_duplicates()) by {
                    assert forall|i: int, j: int| 0 <= i < e.len() && 0 <= j < e.len() && i != j implies e[i] != e[j] by {
                        assert(e[i] == ext[i] && e[j] == ext[j]);
                    }
                }
                assert(!t.contains(y));
                assert forall|i: int, j: int| 0 <= i < r.len() && 0 <= j < r.len() && i != j implies r[i] != r[j] by {
                    if i < t.len() && j < t.len() {
                        assert(r[i] == t[i] && r[j] == t[j]);
                    } else if i < t.len() {
                        assert(r[i] == t[i]);
                        assert(t.contains(r[i]));
                    } else if j < t.len() {
                        assert(r[j] == t[j]);
                        assert(t.contains(r[j]));
                    }
                }
            }
        } else {
            if mem.no_duplicates() && ext.no_duplicates() {
                assert(e.no_duplicates()) by {
                    assert forall|i: int, j: int| 0 <= i < e.len() && 0 <= j < e.len() && i != j implies e[i] != e[j] by {
                        assert(e[i] == ext[i] && e[j] == ext[j]);
                    }
                }
            }
        }
    }
}

/// The expanded listing of a directory: its own entries first, then each entry of its
/// extension layer that it does not hold itself; an entry is listed exactly when one of
/// the two layers lists it, and none twice when neither layer repeats an entry.
pub proof fn law_expanded_listing(m: Map<Seq<char>, Seq<u8>>, d: Seq<char>)
    requires
        is_dir_spec(d),
    ensures
        ({
            let own = dir_names(stored(m, d));
            let ext = if ext_of(m, d).len() > 0 { dir_names(stored(m, ext_of(m, d))) } else { seq![] };
            let l = list_spec(m, d, true);
            &&& l.take(own.len() as int) == own
            &&& forall|x: Seq<char>| #[trigger] l.contains(x) <==> own.contains(x) || ext.contains(x)
            &&& own.no_duplicates() && ext.no_duplicates() ==> l.no_duplicates()
            &&& l == own + ext.filter(|x: Seq<char>| !own.contains(x))
            &&& l.len() == own.len() + ext.filter(|x: Seq<char>| !own.contains(x)).len()
        }),
{
    let own = dir_names(stored(m, d));
    let ext = if ext_of(m, d).len() > 0 { dir_names(stored(m, ext_of(m, d))) } else { seq![] };
    law_merge_names(own, ext);
    lemma_merge_len(own, ext);
}

/// Merging appends, in their order, the extension entries the directory does not hold.
proof fn lemma_merge_len(mem: Seq<Seq<char>>, ext: Seq<Seq<char>>)
    ensures
        merge_names(mem, ext) == mem + ext.filter(|x: Seq<char>| !mem.contains(x)),
        merge_names(mem, ext).len() == mem.len() + ext.filter(|x: Seq<char>| !mem.contains(x)).len(),
    decreases ext.len(),
{
    reveal_with_fuel(Seq::filter, 1);
    if ext.len() > 0 {
        lemma_merge_len(mem, ext.drop_last());
        let f = |x: Seq<char>| !mem.contains(x);
        assert(ext.filter(f) == if f(ext.last()) { ext.drop_last().filter(f).push(ext.last()) } else { ext.drop_last().filter(f) });
        assert(merge_names(mem, ext) =~= mem + ext.filter(f));
    } else {
        assert(ext.filter(|x: Seq<char>| !mem.contains(x)) =~= Seq::<Seq<char>>::empty());
        assert(mem + Seq::<Seq<char>>::empty() =~= mem);
    }
}

/// Adding a name to a directory index twice leaves the store as adding it once does.
pub proof fn law_add_child_idempotent(m: Map<Seq<char>, Seq<u8>>, parent: Seq<char>, name: Seq<char>)
    requires
        add_child_ok(m, parent, name),
        names_nul_free(dir_names(stored(m, parent))),
        nul_free(name),
        name.len() > 0,
    ensures
        add_child_result(add_child_result(m, parent, name), parent, name) == add_child_result(m, parent, name),
{
    law_add_child_keeps_names(m, parent, name, name);
    let m2 = add_child_result(m, parent, name);
    assert(m2.dom().contains(parent));
}

/// Adding a name to a directory index keeps every name it listed, lists the new one, and
/// stores the entries in canonical (sorted) order: when the name was not listed yet, the
/// entries read back are exactly the sorted old entries plus the name.
pub proof fn law_add_child_keeps_names(m: Map<Seq<char>, Seq<u8>>, parent: Seq<char>, name: Seq<char>, x: Seq<char>)
    requires
        add_child_ok(m, parent, name),
        names_nul_free(dir_names(stored(m, parent))),
        nul_free(name),
        name.len() > 0,
        x == name || (listed(m, parent, x) && x.len() > 0),
    ensures
        listed(add_child_result(m, parent, name), parent, x),
        !listed(m, parent, name) ==> dir_names(stored(add_child_result(m, parent, name), parent))
            == crate::xvalue_index::sort_names(dir_names(stored(m, parent)).push(name)),
{
    broadcast use vstd::seq_lib::group_to_multiset_ensures;
    reveal(add_child_ok);
    reveal(index_encodable);
    let m2 = add_child_result(m, parent, name);
    if m.dom().contains(parent) && dir_names(stored(m, parent)).contains(name) {
        return;
    }
    let (names, cap, w, ext) = if !m.dom().contains(parent) {
        (seq![name], 0nat, 0nat, None::<Seq<char>>)
    } else {
        let names = dir_names(stored(m, parent)).push(name);
        (names, crate::xvalue_index::grow_cap_spec(head_cap(m, parent), names.len()), head_width(m, parent), ext_part(stored(m, parent)))
    };
    assert(add_child_bytes(m, parent, name) == grown_index_bytes(names, cap, w, ext));
    assert(m2 == m.insert(parent, grown_index_bytes(names, cap, w, ext)));
    assert(stored(m2, parent) == decode_stored_spec(grown_index_bytes(names, cap, w, ext)));
    if !m.dom().contains(parent) {
        assert(dir_names(stored(m, parent)) =~= Seq::<Seq<char>>::empty());
        assert(names =~= dir_names(stored(m, parent)).push(name));
    }
    assert(names.contains(x)) by {
        if x == name {
            assert(names[names.len() - 1] == name);
        } else {
            let i = choose|i: int| 0 <= i < dir_names(stored(m, parent)).len() && dir_names(stored(m, parent))[i] == x;
            assert(names[i] == x);
        }
    }
    assert(names_nul_free(names));
    assert(nul_free(x));
    lemma_grown_index_lists(names, cap, w, ext, x);
    crate::xvalue_laws::lemma_grown_index_decode(names, cap, w, ext);
    crate::xvalue_index::lemma_sort_names_perm(names);
    crate::xvalue_index::lemma_sort_names_len(names);
    let c = crate::xvalue_index::sort_names(names);
    let rows = crate::xvalue_laws::grown_rows(names, cap, w);
    assert forall|i: int| 0 <= i < c.len() implies nul_free(#[trigger] c[i]) by {
        assert(c.to_multiset().count(c[i]) > 0);
        assert(names.to_multiset().count(c[i]) > 0);
        assert(names.contains(c[i]));
        let j = choose|j: int| 0 <= j < names.len() && names[j] == c[i];
    }
    assert(rows =~= c);
    assert(c.contains(name)) by {
        assert(names.to_multiset().count(name) > 0);
        assert(c.to_multiset().count(name) > 0);
    }
    if rows.len() == 1 {
        assert(rows[0] == name);
    }
}

/// A member list encoded with reserved capacity lists each of its non-empty names that
/// holds no NUL.
proof fn lemma_grown_index_lists(children: Seq<Seq<char>>, cap: nat, m: nat, ext: Option<Seq<char>>, n: Seq<char>)
    requires
        index_geometry_fits(children, cap, m),
        grown_index_body(children, cap, m, ext).len() < 0x8000_0000,
        children.contains(n),
        nul_free(n),
        n.len() > 0,
    ensures
        dir_names(decode_stored_spec(grown_index_bytes(children, cap, m, ext))).contains(n),
{
    broadcast use vstd::seq_lib::group_to_multiset_ensures;
    crate::xvalue_laws::lemma_grown_index_decode(children, cap, m, ext);
    crate::xvalue_index::lemma_sort_names_perm(children);
    crate::xvalue_index::lemma_sort_names_len(children);
    let c = crate::xvalue_index::sort_names(children);
    let rows = crate::xvalue_laws::grown_rows(children, cap, m);
    assert(children.to_multiset().count(n) > 0);
    assert(c.to_multiset().count(n) > 0);
    assert(c.contains(n));
    let i = choose|i: int| 0 <= i < c.len() && c[i] == n;
    assert(rows[i] == n);
    assert(rows.contains(n));
    if rows.len() == 1 && rows[0].len() == 0 {
        assert(i == 0);
    }
}

/// A member list without NUL in its names, encoded with reserved capacity, lists exactly
/// its own non-empty names.
proof fn lemma_grown_index_only(children: Seq<Seq<char>>, cap: nat, m: nat, ext: Option<Seq<char>>, x: Seq<char>)
    requires
        index_geometry_fits(children, cap, m),
        grown_index_body(children, cap, m, ext).len() < 0x8000_0000,
        names_nul_free(children),
    ensures
        dir_names(decode_stored_spec(grown_index_bytes(children, cap, m, ext))).contains(x) ==> children.contains(x),
{
    broadcast use vstd::seq_lib::group_to_multiset_ensures;
    crate::xvalue_laws::lemma_grown_index_decode(children, cap, m, ext);
    crate::xvalue_index::lemma_sort_names_perm(children);
    crate::xvalue_index::lemma_sort_names_len(children);
    crate::xvalue_laws::lemma_sort_nul_free(children);
    let c = crate::xvalue_index::sort_names(children);
    let rows = crate::xvalue_laws::grown_rows(children, cap, m);
    assert(rows =~= c);
    if dir_names(decode_stored_spec(grown_index_bytes(children, cap, m, ext))).contains(x) {
        assert(c.contains(x));
        assert(c.to_multiset().count(x) > 0);
        assert(children.to_multiset().count(x) > 0);
    }
}

/// An index rewritten with the entries kept after a removal lists exactly those entries
/// (the empty name aside), when no entry holds a NUL.
proof fn lemma_kept_listing(
    m: Map<Seq<char>, Seq<u8>>,
    d: Seq<char>,
    nodes: Seq<Seq<char>>,
    kept: Seq<Seq<char>>,
    names: Seq<Seq<char>>,
    cap: nat,
    w: nat,
    ext: Option<Seq<char>>,
)
    requires
        m.dom().contains(d),
        m[d] == grown_index_bytes(kept, cap, w, ext),
        index_geometry_fits(kept, cap, w),
        grown_index_body(kept, cap, w, ext).len() < 0x8000_0000,
        forall|x: Seq<char>| #[trigger] kept.contains(x) <==> nodes.contains(x) && unnamed(x, names),
        names_nul_free(nodes),
    ensures
        forall|x: Seq<char>| #[trigger] listed(m, d, x) ==> nodes.contains(x) && unnamed(x, names),
        forall|x: Seq<char>| #[trigger] nodes.contains(x) && x.len() > 0 && unnamed(x, names) ==> listed(m, d, x),
{
    assert(names_nul_free(kept)) by {
        assert forall|i: int| 0 <= i < kept.len() implies nul_free(#[trigger] kept[i]) by {
            assert(kept.contains(kept[i]));
            let j = choose|j: int| 0 <= j < nodes.len() && nodes[j] == kept[i];
        }
    }
    assert forall|x: Seq<char>| #[trigger] listed(m, d, x) implies nodes.contains(x) && unnamed(x, names) by {
        lemma_grown_index_only(kept, cap, w, ext, x);
    }
    assert forall|x: Seq<char>| #[trigger] nodes.contains(x) && x.len() > 0 && unnamed(x, names) implies listed(m, d, x) by {
        assert(kept.contains(x));
        let j = choose|j: int| 0 <= j < nodes.len() && nodes[j] == x;
        lemma_grown_index_lists(kept, cap, w, ext, x);
    }
}

/// Whether two character sequences are equal.
fn chars_equal(a: &[char], b: &[char]) -> (r: bool)
    ensures
        r == (a@ == b@),
{
    crate::text::chars_eq(a, b)
}

/// `a` followed by `b`.
fn join_raw(a: &[char], b: &[char]) -> (r: Vec<char>)
    ensures
        r@ == a@ + b@,
{
    let mut r = sub_chars(a, 0, a.len());
    assert(a@.subrange(0, a@.len() as int) == a@);
    let mut i: usize = 0;
    while i < b.len()
        invariant
            i <= b.len(),
            r@ == a@ + b@.take(i as int),
        decreases b.len() - i,
    {
        r.push(b[i]);
        i = i + 1;
        assert(r@ =~= a@ + b@.take(i as int));
    }
    assert(b@.take(b.len() as int) == b@);
    r
}

/// A key suffix one member level below its base: empty, or `·name` with no further `·`
/// or `/` in `name`.
fn one_level(suffix: &[char]) -> (r: bool)
    ensures
        r == one_level_spec(suffix@),
{
    if suffix.len() == 0 {
        return true;
    }
    if suffix[0] != OBJ_SEP_CHAR {
        return false;
    }
    let mut i: usize = 1;
    while i < suffix.len()
        invariant
            1 <= i <= suffix@.len(),
            suffix@[0] == OBJ_SEP_CHAR,
            forall|j: int| 1 <= j < i ==> #[trigger] suffix@[j] != OBJ_SEP_CHAR && suffix@[j] != PATH_SEP_CHAR,
        decreases suffix.len() - i,
    {
        if suffix[i] == OBJ_SEP_CHAR || suffix[i] == PATH_SEP_CHAR {
            return false;
        }
        i = i + 1;
    }
    true
}

/// The encoding of a container value (its members live in its member index).
fn container_bytes(v: &XValue) -> (r: Result<Vec<u8>, String>)
    ensures
        r is Ok <==> (v@ matches XV::MapVal(lt, dims) && dims.len() <= 0x100_0000 && lt.len() <= 0x100_0000),
        r matches Ok(b) ==> b@ == crate::xvalue_codec::encode_value(v@) && not_link(b@),
{
    match v {
        XValue::MapVal(m) => {
            let lc = chars_of(m.langtype.as_str());
            if m.dims.len() > 0x100_0000 || lc.len() > 0x100_0000 {
                return Err(string_of("kvspace: value too large"));
            }
            let raw: Vec<u8> = Vec::new();
            proof { lemma_inline_not_link(m.langtype@, m.dims@, raw@, false, 0); }
            Ok(encode_head(m.langtype.as_str(), 0, m.dims.as_slice(), &raw))
        },
        _ => Err(string_of("kvspace: not a container")),
    }
}

/// The key-value space over a byte store.
pub struct Backend<S: KVStore> {
    store: S,
}

impl<S: KVStore> Backend<S> {
    /// The stored bytes by key.
    pub closed spec fn contents(&self) -> Map<Seq<char>, Seq<u8>> {
        self.store.contents()
    }

    /// A space over `store`.
    pub fn new(store: S) -> (b: Self)
        ensures
            b.contents() == store.contents(),
    {
        Backend { store }
    }

    /// The value under a key (decoded; `Nil` when absent).
    fn value_at(&self, key: &[char]) -> (v: XValue)
        ensures
            v@ == stored(self.contents(), key@),
    {
        let k = string_from_chars(key);
        match self.store.get(k.as_str()) {
            None => XValue::Nil,
            Some(data) => decode_stored(data.as_slice()),
        }
    }

    /// The entries a directory value lists; see [`dir_names`].
    fn read_dir_index(&self, dir: &[char]) -> (r: Vec<String>)
        requires
            dir_ok(stored(self.contents(), dir@)),
        ensures
            string_views(r@) == dir_names(stored(self.contents(), dir@)),
    {
        let v = self.value_at(dir);
        match v {
            XValue::Index(c) => {
                if c.len() == 1 && c[0].as_str().is_empty() {
                    let r: Vec<String> = Vec::new();
                    assert(string_views(r@) =~= normalize_spec(string_views(c@)));
                    r
                } else {
                    c
                }
            },
            XValue::ExtIndex(e) => e.childs,
            _ => {
                let r: Vec<String> = Vec::new();
                assert(string_views(r@) =~= Seq::<Seq<char>>::empty());
                r
            },
        }
    }

    /// The extension path of the index under `prefix`; see [`ext_of`].
    fn prefix_ext(&self, prefix: &[char]) -> (r: Vec<char>)
        ensures
            r@ == ext_of(self.contents(), prefix@),
    {
        let k = string_from_chars(prefix);
        match self.store.get(k.as_str()) {
            None => Vec::new(),
            Some(data) => {
                if decode_would_panic(data.as_slice()) {
                    return Vec::new();
                }
                let head = decode_xvalue_head(data.as_slice());
                let kind = head.kind();
                if str_eq(kind.as_str(), KIND_EXT_INDEX) {
                    let body = head.body(data.as_slice());
                    let dims = head.dims();
                    let e = decode_ext_index(body.as_slice(), dims.as_slice());
                    chars_of(e.ext_path.as_str())
                } else {
                    Vec::new()
                }
            },
        }
    }

    /// The geometry and body of a plain member list under a directory path; see [`index_geom`].
    fn index_head_body(&self, prefix: &[char], resolve: bool) -> (r: Option<(Vec<i32>, Vec<u8>)>)
        requires
            resolve ==> settles(self.contents(), prefix@),
        ensures
            ({
                let d = dir_for(self.contents(), prefix@, resolve);
                if !is_dir_spec(d) {
                    r is None
                } else {
                    match index_geom(self.contents(), d) {
                        None => r is None,
                        Some((dims, body)) => r matches Some((a, b)) && a@ == dims && b@ == body,
                    }
                }
            }),
    {
        let resolved = if resolve { self.resolve_path(prefix) } else { sub_chars(prefix, 0, prefix.len()) };
        assert(prefix@.subrange(0, prefix@.len() as int) == prefix@);
        if !is_dir(&resolved) {
            return None;
        }
        let k = string_from_chars(&resolved);
        match self.store.get(k.as_str()) {
            None => None,
            Some(data) => {
                if decode_would_panic(data.as_slice()) {
                    return None;
                }
                let head = decode_xvalue_head(data.as_slice());
                let kind = head.kind();
                if str_eq(kind.as_str(), KIND_INDEX) {
                    Some((head.dims(), head.body(data.as_slice())))
                } else {
                    None
                }
            },
        }
    }

    /// Reads entries of the directory `prefix`; see [`get_entry`]. With `resolve`, links on
    /// the prefix are followed first.
    pub fn get(&self, prefix: &str, keys: &[String], resolve: bool) -> (r: Vec<XValue>)
        requires
            prefix@ == root_path() || is_dir_spec(prefix@),
            resolve ==> settles(self.contents(), prefix@),
        ensures
            r@.len() == keys@.len(),
            forall|i: int| 0 <= i < keys@.len() ==> (#[trigger] r@[i])@
                == get_entry(self.contents(), dir_for(self.contents(), prefix@, resolve), keys@[i]@),
    {
        let pc = chars_of(prefix);
        let p = if resolve { self.resolve_path(&pc) } else { pc };
        let ghost d = dir_for(self.contents(), prefix@, resolve);
        assert(p@ == d);
        let e = self.prefix_ext(&p);
        let mut out: Vec<XValue> = Vec::new();
        let mut i: usize = 0;
        while i < keys.len()
            invariant
                i <= keys@.len(),
                p@ == d,
                e@ == ext_of(self.contents(), d),
                out@.len() == i,
                forall|j: int| 0 <= j < i ==> (#[trigger] out@[j])@ == get_entry(self.contents(), d, keys@[j]@),
            decreases keys@.len() - i,
        {
            let kc = chars_of(keys[i].as_str());
            let full_s = join_chars(&p, &kc);
            let full = chars_of(full_s.as_str());
            let v = if is_dir(&full) || self.store.get(full_s.as_str()).is_some() {
                self.value_at(&full)
            } else if e.len() == 0 {
                XValue::Nil
            } else {
                let ef = join_chars(&e, &kc);
                self.value_at(&chars_of(ef.as_str()))
            };
            out.push(v);
            i = i + 1;
        }
        out
    }

    /// The entries of a directory, with those of its extension when `expand_ext`; see
    /// [`list_spec`].
    pub fn list(&self, prefix: &str, expand_ext: bool, resolve: bool) -> (r: Vec<String>)
        requires
            prefix@ == root_path() || is_dir_spec(prefix@),
            resolve ==> settles(self.contents(), prefix@),
            list_ok(self.contents(), dir_for(self.contents(), prefix@, resolve), expand_ext),
        ensures
            string_views(r@) == list_spec(self.contents(), dir_for(self.contents(), prefix@, resolve), expand_ext),
    {
        let pc = chars_of(prefix);
        let p = if resolve { self.resolve_path(&pc) } else { pc };
        self.list_dir(&p, expand_ext)
    }

    /// The entries of a resolved directory path.
    fn list_dir(&self, p: &[char], expand_ext: bool) -> (r: Vec<String>)
        requires
            list_ok(self.contents(), p@, expand_ext),
        ensures
            string_views(r@) == list_spec(self.contents(), p@, expand_ext),
    {
        if !is_dir(p) {
            let r: Vec<String> = Vec::new();
            assert(string_views(r@) =~= Seq::<Seq<char>>::empty());
            return r;
        }
        let members = self.read_dir_index(p);
        let mut ext_members: Vec<String> = Vec::new();
        if expand_ext {
            let e = self.prefix_ext(p);
            if e.len() > 0 {
                ext_members = self.read_dir_index(&e);
            }
        }
        let ghost mem = string_views(members@);
        let ghost ext = string_views(ext_members@);
        assert(ext == (if expand_ext && ext_of(self.contents(), p@).len() > 0 {
            dir_names(stored(self.contents(), ext_of(self.contents(), p@)))
        } else {
            seq![]
        })) by {
            if !(expand_ext && ext_of(self.contents(), p@).len() > 0) {
                assert(string_views(ext_members@) =~= Seq::<Seq<char>>::empty());
            }
        }
        merge_listing(&members, &ext_members)
    }

    /// The bytes a pair stores.
    fn pair_bytes(p: &KVPair) -> (b: Vec<u8>)
        requires
            pair_fits(*p),
        ensures
            b@ == pair_bytes_spec(*p),
    {
        match &p.raw {
            Some(r) => vstd::slice::slice_to_vec(r.as_slice()),
            None => p.val.encode(),
        }
    }

    /// Stores bytes under a character key.
    fn put(&mut self, key: &[char], val: &[u8])
        ensures
            final(self).contents() == old(self).contents().insert(key@, val@),
            link_free(old(self).contents()) && not_link(val@) ==> link_free(final(self).contents()),
    {
        let k = string_from_chars(key);
        self.store.set(k.as_str(), val);
        proof {
            if link_free(old(self).contents()) && not_link(val@) {
                lemma_link_free_insert(old(self).contents(), key@, val@);
            }
        }
    }

    /// Removes character keys.
    fn remove_keys(&mut self, keys: &[Vec<char>])
        ensures
            final(self).contents() == old(self).contents().remove_keys(char_key_set(keys@)),
    {
        let mut strs: Vec<String> = Vec::new();
        let mut i: usize = 0;
        while i < keys.len()
            invariant
                i <= keys@.len(),
                strs@.len() == i,
                forall|k: int| 0 <= k < i ==> (#[trigger] strs@[k])@ == keys@[k]@,
            decreases keys.len() - i,
        {
            strs.push(string_from_chars(keys[i].as_slice()));
            i = i + 1;
        }
        let mut refs: Vec<&str> = Vec::new();
        let mut j: usize = 0;
        while j < strs.len()
            invariant
                j <= strs@.len(),
                refs@.len() == j,
                forall|k: int| 0 <= k < j ==> (#[trigger] refs@[k])@ == strs@[k]@,
            decreases strs.len() - j,
        {
            refs.push(strs[j].as_str());
            j = j + 1;
        }
        assert(crate::store::key_set(refs@) =~= char_key_set(keys@)) by {
            assert forall|x: Seq<char>| crate::store::key_set(refs@).contains(x) implies char_key_set(keys@).contains(x) by {
                let k = choose|k: int| 0 <= k < refs@.len() && (#[trigger] refs@[k])@ == x;
                assert(keys@[k]@ == x);
            }
            assert forall|x: Seq<char>| char_key_set(keys@).contains(x) implies crate::store::key_set(refs@).contains(x) by {
                let k = choose|k: int| 0 <= k < keys@.len() && (#[trigger] keys@[k])@ == x;
                assert(refs@[k]@ == x);
            }
        }
        self.store.del(refs.as_slice());
    }

    /// Whether a key is present.
    fn present(&self, key: &[char]) -> (r: bool)
        ensures
            r == self.contents().dom().contains(key@),
    {
        let k = string_from_chars(key);
        self.store.get(k.as_str()).is_some()
    }

    /// The entries of a directory value; an error for any other value.
    fn dir_entries(&self, dir: &[char]) -> (r: Result<Vec<String>, String>)
        ensures
            r is Ok <==> dir_ok(stored(self.contents(), dir@)),
            r matches Ok(v) ==> string_views(v@) == dir_names(stored(self.contents(), dir@)),
    {
        let v = self.value_at(dir);
        if !(matches!(v, XValue::Nil) || matches!(v, XValue::Index(_)) || matches!(v, XValue::ExtIndex(_))) {
            return Err(message("read_dir_index: unexpected kind", dir));
        }
        Ok(self.read_dir_index(dir))
    }

    /// Adds `name` to the index `parent` (creating it), keeping its reserved capacity and
    /// row width; nothing when already listed.
    #[verifier::rlimit(60)]
    fn add_child(&mut self, parent: &[char], name: &[char]) -> (r: Result<(), String>)
        ensures
            final(self).contents().remove(parent@) == old(self).contents().remove(parent@),
            r is Ok <==> add_child_ok(old(self).contents(), parent@, name@),
            r is Err ==> final(self).contents() == old(self).contents(),
            r is Ok ==> final(self).contents() == add_child_result(old(self).contents(), parent@, name@),
            r is Ok && nul_free(name@) && name@.len() > 0 ==> listed(final(self).contents(), parent@, name@),
    {
        let pk = string_from_chars(parent);
        let nm = string_from_chars(name);
        match self.store.get(pk.as_str()) {
            None => {
                let mut one: Vec<String> = Vec::new();
                one.push(nm);
                assert(string_views(one@) =~= seq![name@]);
                assert(add_child_ok(old(self).contents(), parent@, name@)
                    == index_encodable(seq![name@], 0, 0, None)) by { reveal(add_child_ok); }
                let b = index_bytes(&one, 0, 0, None)?;
                self.store.set(pk.as_str(), &b);
                proof {
                    if nul_free(name@) && name@.len() > 0 {
                        assert(string_views(one@)[0] == name@);
                        lemma_grown_index_lists(string_views(one@), 0, 0, None, name@);
                    }
                }
                Ok(())
            },
            Some(data) => {
                if decode_would_panic(data.as_slice()) {
                    assert(!add_child_ok(old(self).contents(), parent@, name@)) by { reveal(add_child_ok); }
                    return Err(message("add_child: unexpected kind", parent));
                }
                let dims = decode_xvalue_head(data.as_slice()).dims();
                let old_cap = matrix_cap(&dims);
                let old_m = matrix_width(&dims);
                let v = decode_stored(data.as_slice());
                let ghost m0 = old(self).contents();
                assert(old_cap as nat == head_cap(m0, parent@)) by { reveal(head_cap); }
                assert(old_m as nat == head_width(m0, parent@)) by { reveal(head_width); }
                assert(v@ == stored(m0, parent@));
                match v {
                    XValue::Index(nodes) => {
                        let ghost all = string_views(nodes@);
                        let mut nodes = if nodes.len() == 1 && nodes[0].as_str().is_empty() { Vec::new() } else { nodes };
                        assert(string_views(nodes@) =~= normalize_spec(all));
                        assert(string_views(nodes@) == dir_names(stored(m0, parent@)));
                        assert(ext_part(stored(m0, parent@)) == None::<Seq<char>>);
                        assert(add_child_ok(m0, parent@, name@) == (string_views(nodes@).contains(name@)
                            || rewrite_fits(m0, parent@, string_views(nodes@).push(name@), old_cap as nat))) by { reveal(add_child_ok); }
                        if contains_name(&nodes, nm.as_str()) {
                            return Ok(());
                        }
                        let ghost before = string_views(nodes@);
                        nodes.push(nm);
                        assert(string_views(nodes@) == before.push(name@));
                        assert(string_views(nodes@)[before.len() as int] == name@);
                        let cap = match grow_cap_checked(old_cap, nodes.len()) {
                            Some(c) => c,
                            None => { return Err(string_of("kvspace: index too large")); },
                        };
                        let b = index_bytes(&nodes, cap, old_m, None)?;
                        self.store.set(pk.as_str(), &b);
                        proof {
                            if nul_free(name@) && name@.len() > 0 {
                                lemma_grown_index_lists(string_views(nodes@), cap as nat, old_m as nat, None, name@);
                            }
                        }
                        Ok(())
                    },
                    XValue::ExtIndex(e) => {
                        assert(string_views(e.childs@) == dir_names(stored(m0, parent@)));
                        assert(ext_part(stored(m0, parent@)) == Some(e.ext_path@));
                        assert(add_child_ok(m0, parent@, name@) == (string_views(e.childs@).contains(name@)
                            || rewrite_fits(m0, parent@, string_views(e.childs@).push(name@), old_cap as nat))) by { reveal(add_child_ok); }
                        if contains_name(&e.childs, nm.as_str()) {
                            return Ok(());
                        }
                        let mut childs = e.childs;
                        let ghost before = string_views(childs@);
                        childs.push(nm);
                        assert(string_views(childs@) == before.push(name@));
                        assert(string_views(childs@)[before.len() as int] == name@);
                        let cap = match grow_cap_checked(old_cap, childs.len()) {
                            Some(c) => c,
                            None => { return Err(string_of("kvspace: index too large")); },
                        };
                        let b = index_bytes(&childs, cap, old_m, Some(e.ext_path.as_str()))?;
                        self.store.set(pk.as_str(), &b);
                        proof {
                            if nul_free(name@) && name@.len() > 0 {
                                lemma_grown_index_lists(string_views(childs@), cap as nat, old_m as nat, Some(e.ext_path@), name@);
                            }
                        }
                        Ok(())
                    },
                    _ => {
                        assert(!add_child_ok(m0, parent@, name@)) by { reveal(add_child_ok); }
                        Err(message("add_child: unexpected kind", parent))
                    },
                }
            },
        }
    }

    /// Removes `names` (and `name/`) from the index `parent`; its capacity and row width
    /// are kept.
    fn remove_child(&mut self, parent: &[char], names: &[String]) -> (r: Result<(), String>)
        ensures
            r is Ok <==> remove_child_ok(old(self).contents(), parent@, string_views(names@)),
            r is Err ==> final(self).contents() == old(self).contents(),
            final(self).contents().dom() == old(self).contents().dom(),
            final(self).contents().remove(parent@) == old(self).contents().remove(parent@),
            link_free(old(self).contents()) ==> link_free(final(self).contents()),
            r is Ok && names_nul_free(dir_names(stored(old(self).contents(), parent@))) ==> {
                &&& forall|x: Seq<char>| #[trigger] listed(final(self).contents(), parent@, x)
                    ==> listed(old(self).contents(), parent@, x) && unnamed(x, string_views(names@))
                &&& forall|x: Seq<char>| #[trigger] listed(old(self).contents(), parent@, x) && x.len() > 0
                    && unnamed(x, string_views(names@)) ==> listed(final(self).contents(), parent@, x)
            },
    {
        let pk = string_from_chars(parent);
        match self.store.get(pk.as_str()) {
            None => {
                assert(remove_child_ok(old(self).contents(), parent@, string_views(names@))) by { reveal(remove_child_ok); }
                Ok(())
            },
            Some(data) => {
                if decode_would_panic(data.as_slice()) {
                    assert(!remove_child_ok(old(self).contents(), parent@, string_views(names@))) by { reveal(remove_child_ok); }
                    return Err(message("remove_child: unexpected kind", parent));
                }
                let dims = decode_xvalue_head(data.as_slice()).dims();
                let old_cap = matrix_cap(&dims);
                let old_m = matrix_width(&dims);
                let v = decode_stored(data.as_slice());
                let ghost m0 = old(self).contents();
                assert(old_cap as nat == head_cap(m0, parent@)) by { reveal(head_cap); }
                assert(old_m as nat == head_width(m0, parent@)) by { reveal(head_width); }
                assert(v@ == stored(m0, parent@));
                match v {
                    XValue::Index(nodes) => {
                        let ghost all = string_views(nodes@);
                        let nodes = if nodes.len() == 1 && nodes[0].as_str().is_empty() { Vec::new() } else { nodes };
                        assert(string_views(nodes@) =~= normalize_spec(all));
                        let kept = without_names(&nodes, names);
                        assert(remove_child_ok(m0, parent@, string_views(names@)) == index_encodable(string_views(kept@),
                            old_cap as nat, old_m as nat, None)) by { reveal(remove_child_ok); }
                        let b = index_bytes(&kept, old_cap, old_m, None)?;
                        self.store.set(pk.as_str(), &b);
                        proof {
                            if link_free(m0) {
                                lemma_link_free_insert(m0, parent@, b@);
                            }
                            if names_nul_free(string_views(nodes@)) {
                                lemma_kept_listing(self.contents(), parent@, string_views(nodes@), string_views(kept@), string_views(names@), old_cap as nat, old_m as nat, None);
                            }
                        }
                        Ok(())
                    },
                    XValue::ExtIndex(e) => {
                        let kept = without_names(&e.childs, names);
                        assert(remove_child_ok(m0, parent@, string_views(names@)) == index_encodable(string_views(kept@),
                            old_cap as nat, old_m as nat, Some(e.ext_path@))) by { reveal(remove_child_ok); }
                        let b = index_bytes(&kept, old_cap, old_m, Some(e.ext_path.as_str()))?;
                        self.store.set(pk.as_str(), &b);
                        proof {
                            if link_free(m0) {
                                lemma_link_free_insert(m0, parent@, b@);
                            }
                            if names_nul_free(string_views(e.childs@)) {
                                lemma_kept_listing(self.contents(), parent@, string_views(e.childs@), string_views(kept@), string_views(names@), old_cap as nat, old_m as nat, Some(e.ext_path@));
                            }
                        }
                        Ok(())
                    },
                    _ => {
                        assert(!remove_child_ok(m0, parent@, string_views(names@))) by { reveal(remove_child_ok); }
                        Err(message("remove_child: unexpected kind", parent))
                    },
                }
            },
        }
    }

    /// Makes sure the parent index of an entry exists: a member index (`…·`) is created
    /// empty, a directory (`…/`) with all its ancestors.
    fn ensure_parent_dir(&mut self, dir: &[char], depth: usize) -> (r: Result<(), String>)
        ensures
            dir@ == root_path() ==> r is Ok && final(self).contents() == old(self).contents(),
            dir@ != root_path() && ends_with_char(dir@, OBJ_SEP_CHAR) ==> r is Ok && final(self).contents() == if old(self).contents().dom().contains(dir@) {
                old(self).contents()
            } else {
                old(self).contents().insert(dir@, crate::xvalue_codec::encode_value(XV::Index(seq![])))
            },
            dir@ != root_path() && !is_dir_spec(dir@) ==> r is Err && final(self).contents() == old(self).contents(),
            r is Err ==> !is_dir_spec(dir@) || depth == 0 || has_dir_trouble(final(self).contents()),
            link_free(old(self).contents()) && dir@.len() >= 1 && dir@[0] == PATH_SEP_CHAR
                ==> short_changes(old(self).contents(), final(self).contents(), dir@.len()),
            ends_with_char(dir@, PATH_SEP_CHAR) && chain_listed(old(self).contents(), dir@)
                ==> r is Ok && final(self).contents() == old(self).contents(),
            same_off_dirs(old(self).contents(), final(self).contents()),
            link_free(old(self).contents()) ==> link_free(final(self).contents()),
        decreases depth, 1nat,
    {
        if is_root(dir) {
            return Ok(());
        }
        if ends_with(dir, OBJ_SEP_CHAR) {
            if !self.present(dir) {
                let b = empty_index_bytes();
                self.put(dir, &b);
                assert(is_dir_spec(dir@));
            }
            Ok(())
        } else if ends_with(dir, PATH_SEP_CHAR) {
            self.mk_index_recursive(dir, depth)
        } else {
            Err(message("MkIndex: path must end with", dir))
        }
    }

    /// Creates every directory along `path` (which ends with `/`) that is not yet listed in
    /// its parent, like `mkdir -p`.
    fn mk_index_recursive(&mut self, path: &[char], depth: usize) -> (r: Result<(), String>)
        ensures
            r is Err ==> depth == 0 || has_dir_trouble(final(self).contents()),
            chain_listed(old(self).contents(), path@) ==> r is Ok && final(self).contents() == old(self).contents(),
            link_free(old(self).contents()) && path@.len() >= 1 && path@[0] == PATH_SEP_CHAR
                ==> short_changes(old(self).contents(), final(self).contents(), path@.len()),
            same_off_dirs(old(self).contents(), final(self).contents()),
            link_free(old(self).contents()) ==> link_free(final(self).contents()),
        decreases depth, 0nat,
    {
        let mut i: usize = 1;
        while i < path.len()
            invariant
                1 <= i,
                chain_listed(old(self).contents(), path@) ==> self.contents() == old(self).contents(),
                link_free(old(self).contents()) && path@.len() >= 1 && path@[0] == PATH_SEP_CHAR
                    ==> short_changes(old(self).contents(), self.contents(), path@.len()),
                same_off_dirs(old(self).contents(), self.contents()),
                link_free(old(self).contents()) ==> link_free(self.contents()),
            decreases path.len() - i,
        {
            let mut j: usize = i;
            while j < path.len() && path[j] != PATH_SEP_CHAR
                invariant
                    1 <= i <= j,
                decreases path.len() - j,
            {
                j = j + 1;
            }
            if j >= path.len() {
                break;
            }
            i = j + 1;
            let dir = sub_chars(path, 0, i);
            let inner = sub_chars(path, 0, i - 1);
            let (p, n, _) = split_index_chars(&inner);
            proof {
                if chain_listed(old(self).contents(), path@) {
                    assert(inner@ =~= path@.take(j as int));
                    assert(prefix_listed(old(self).contents(), path@.take(j as int)));
                    let m = self.contents();
                    let rp = resolved(m, p@);
                    assert(dir_names(stored(m, rp)).len() > 0);
                }
            }
            let listed_here = match self.dir_exists(&p, &n) {
                Ok(b) => b,
                Err(e) => {
                    proof {
                        let m = self.contents();
                        if settles(m, p@) {
                            assert(dir_trouble(m, resolved(m, p@)));
                        } else {
                            assert(dir_trouble(m, p@));
                        }
                    }
                    return Err(e);
                },
            };
            if !listed_here {
                if depth == 0 {
                    return Err(string_of("kvspace: directories nest too deep"));
                }
                let no_names: Vec<String> = Vec::new();
                let pair = KVPair { key: string_from_chars(&dir), val: new_index(no_names.as_slice()), raw: None };
                proof {
                    let e = Seq::<Seq<char>>::empty();
                    assert(pair.val@ == XV::Index(e)) by {
                        assert(string_views(no_names@) =~= e);
                    }
                    assert(crate::xvalue_index::sort_names(e) =~= e);
                    assert(crate::xvalue_index::matrix_body(e, 0, 0) =~= Seq::<u8>::empty());
                    assert(pair_fits(pair));
                    assert(non_link_pair(pair));
                }
                let mut pairs: Vec<KVPair> = Vec::new();
                pairs.push(pair);
                let ghost before = self.contents();
                assert(pairs@[0].key@ == dir@);
                assert(dir@ =~= path@.take(i as int));
                let _ = self.set_pairs(&pairs, depth - 1);
                proof {
                    lemma_same_off_dirs_trans(old(self).contents(), before, self.contents());
                    if link_free(old(self).contents()) && path@.len() >= 1 && path@[0] == PATH_SEP_CHAR {
                        lemma_short_trans(old(self).contents(), before, self.contents(), path@.len(), dir@.len(), path@.len());
                    }
                }
            }
        }
        Ok(())
    }

    /// Whether `name` (or `name/`) is listed in the directory `parent`.
    fn dir_exists(&self, parent: &[char], name: &[char]) -> (r: Result<bool, String>)
        ensures
            settles(self.contents(), parent@) ==> ({
                let p = resolved(self.contents(), parent@);
                &&& r is Ok <==> !is_dir_spec(p) || dir_ok(stored(self.contents(), p))
                &&& r matches Ok(b) ==> b == (is_dir_spec(p) && (dir_names(stored(self.contents(), p)).contains(name@)
                    || dir_names(stored(self.contents(), p)).contains(name@.push(PATH_SEP_CHAR))))
            }),
    {
        let p = self.resolve_path(parent);
        let names = self.list_checked(&p)?;
        let n = string_from_chars(name);
        let nd = string_from_chars(&with_char(name, PATH_SEP_CHAR));
        Ok(contains_name(&names, n.as_str()) || contains_name(&names, nd.as_str()))
    }

    /// The entries of a resolved directory, without its extension; an error when the
    /// directory holds another kind of value.
    fn list_checked(&self, p: &[char]) -> (r: Result<Vec<String>, String>)
        ensures
            r is Ok <==> !is_dir_spec(p@) || dir_ok(stored(self.contents(), p@)),
            r matches Ok(v) ==> string_views(v@) == if is_dir_spec(p@) { dir_names(stored(self.contents(), p@)) } else { seq![] },
    {
        if !is_dir(p) {
            let v: Vec<String> = Vec::new();
            assert(string_views(v@) =~= Seq::<Seq<char>>::empty());
            return Ok(v);
        }
        self.dir_entries(p)
    }

    /// Writes the container values along a member's chain of parents (`a·b·c`): each missing
    /// container is created (a map when its member is a coordinate segment, else an object)
    /// and each member is registered in its parent's index.
    fn ensure_member_chain(&mut self, parent: &[char], name: &[char], children: &mut Vec<(Vec<char>, Vec<char>)>, depth: usize) -> (r: Result<(), String>)
        requires
            ends_with_char(parent@, OBJ_SEP_CHAR),
            forall|i: int| 0 <= i < old(children)@.len() ==> is_dir_spec((#[trigger] old(children)@[i]).0@),
        ensures
            forall|i: int| 0 <= i < final(children)@.len() ==> is_dir_spec((#[trigger] final(children)@[i]).0@),
            keeps_present(old(self).contents(), final(self).contents()),
            link_free(old(self).contents()) ==> link_free(final(self).contents()),
            r is Err ==> depth == 0 || has_dir_trouble(final(self).contents()) || chain_too_wide(parent@, name@),
        decreases depth, 2nat,
    {
        let ghost m0 = self.contents();
        proof { lemma_keeps_present(m0, m0, m0); assert(same_off_dirs(m0, m0)); }
        let mut dir = sub_chars(parent, 0, parent.len());
        assert(parent@.subrange(0, parent@.len() as int) == parent@);
        let mut child = sub_chars(name, 0, name.len());
        assert(name@.subrange(0, name@.len() as int) == name@);
        let mut steps: usize = 0;
        while steps < usize::MAX
            invariant
                ends_with_char(dir@, OBJ_SEP_CHAR),
                forall|i: int| 0 <= i < children@.len() ==> is_dir_spec((#[trigger] children@[i]).0@),
                m0 == old(self).contents(),
                keeps_present(m0, self.contents()),
                link_free(m0) ==> link_free(self.contents()),
                forall|c: Seq<char>, f: nat| #[trigger] chain_has(dir@, child@, c, f) ==> chain_has(parent@, name@, c, f + steps as nat),
            decreases usize::MAX - steps,
        {
            let base = strip_chars(&dir);
            let ghost before = self.contents();
            if !self.present(&base) {
                let is_c = is_coord_chars(&child);
                let v = if is_c {
                    let cs = string_from_chars(&child);
                    if !crate::coord::coords_fit_name(cs.as_str()) {
                        assert(chain_has(dir@, child@, child@, 0));
                        assert(chain_has(parent@, name@, child@, steps as nat));
                        assert(coord_too_wide(child@));
                        assert(chain_too_wide(parent@, name@)) by { reveal(chain_too_wide); }
                        return Err(message("kvspace: coordinate out of range", &child));
                    }
                    let mut names: Vec<String> = Vec::new();
                    names.push(cs);
                    assert(crate::coord::views(names@) =~= seq![names@[0]@]);
                    let no_dims: Vec<i32> = Vec::new();
                    assert(no_dims@ =~= seq![]);
                    assert(crate::coord::views(names@) =~= seq![child@]);
                    let dims = grow_coord_dims(&no_dims, &names);
                    assert(dims@ == crate::coord::grow_coord_dims_spec(seq![], seq![child@]));
                    XValue::MapVal(MapValue { langtype: string_of(KIND_MAP), dims })
                } else {
                    XValue::MapVal(MapValue { langtype: string_of(KIND_OBJ), dims: Vec::new() })
                };
                let b = match container_bytes(&v) {
                    Ok(b) => b,
                    Err(e) => {
                        proof {
                            reveal_strlit("objindex");
                            reveal_strlit("strkeymapindex");
                        }
                        assert(chain_has(dir@, child@, child@, 0));
                        assert(chain_has(parent@, name@, child@, steps as nat));
                        assert(is_c);
                        assert(coord_too_wide(child@));
                        assert(chain_too_wide(parent@, name@)) by { reveal(chain_too_wide); }
                        return Err(e);
                    },
                };
                self.put(&base, &b);
                proof {
                    assert(keeps_present(before, self.contents())) by {
                        assert forall|k: Seq<char>| #[trigger] before.dom().contains(k) && !is_dir_spec(k)
                            implies self.contents().dom().contains(k) && self.contents()[k] == before[k] by {
                            assert(k != base@);
                        }
                    }
                    lemma_keeps_present(m0, before, self.contents());
                }
            }
            let ghost mid = self.contents();
            let made = self.ensure_parent_dir(&dir, depth);
            proof {
                lemma_keeps_present(mid, self.contents(), self.contents());
                lemma_keeps_present(m0, mid, self.contents());
            }
            made?;
            assert(dir@.subrange(0, dir@.len() as int) == dir@);
            children.push((sub_chars(&dir, 0, dir.len()), sub_chars(&child, 0, child.len())));
            let (dp, dn) = parent_name(&dir);
            proof { lemma_split_parent_dir(dir@); }
            if ends_with(&dp, OBJ_SEP_CHAR) {
                assert forall|c: Seq<char>, f: nat| #[trigger] chain_has(dp@, dn@, c, f)
                    implies chain_has(parent@, name@, c, f + steps as nat + 1) by {
                    assert(chain_has(dir@, child@, c, f + 1));
                }
                dir = dp;
                child = dn;
                steps = steps + 1;
                continue;
            }
            children.push((dp, dn));
            break;
        }
        Ok(())
    }

    /// Writes one pair (see [`Backend::set`]) and records the entries that its parent
    /// indexes are to list.
    #[verifier::rlimit(60)]
    fn set_one(&mut self, p: &KVPair, children: &mut Vec<(Vec<char>, Vec<char>)>, depth: usize) -> (r: Result<(), String>)
        requires
            pair_fits(*p),
            forall|i: int| 0 <= i < old(children)@.len() ==> is_dir_spec((#[trigger] old(children)@[i]).0@),
        ensures
            forall|i: int| 0 <= i < final(children)@.len() ==> is_dir_spec((#[trigger] final(children)@[i]).0@),
            p.val@ is Index ==> same_off_dirs(old(self).contents(), final(self).contents()),
            settles(old(self).contents(), p.key@) && refused_pair(old(self).contents(), *p)
                ==> r is Err && final(self).contents() == old(self).contents(),
            r is Ok && entry_write(old(self).contents(), *p) ==> ({
                let k = resolved(old(self).contents(), p.key@);
                &&& final(self).contents().dom().contains(k)
                &&& final(self).contents()[k] == pair_bytes_spec(*p)
                &&& exists|t: int| 0 <= t < final(children)@.len()
                    && (#[trigger] final(children)@[t]).0@ == split_index_spec(k).0
                    && final(children)@[t].1@ == split_index_spec(k).1
            }),
            link_free(old(self).contents()) && non_link_pair(*p) ==> link_free(final(self).contents()),
            settles(old(self).contents(), p.key@) && !(p.val@ is MapVal)
                ==> keeps_present_except(old(self).contents(), final(self).contents(), resolved(old(self).contents(), p.key@)),
            r is Err && settles(old(self).contents(), p.key@) ==> ({
                let rk = resolved(old(self).contents(), p.key@);
                ||| refused_pair(old(self).contents(), *p)
                ||| depth == 0 || has_dir_trouble(final(self).contents())
                ||| ends_with_char(split_index_spec(rk).0, OBJ_SEP_CHAR) && chain_too_wide(split_index_spec(rk).0, split_index_spec(rk).1)
                ||| ext_write_refused(final(self).contents(), rk)
            }),
            r is Ok && leaf_under_dir(old(self).contents(), *p) ==> ({
                let (pd, nm, _) = split_index_spec(resolved(old(self).contents(), p.key@));
                &&& final(children)@.len() == old(children)@.len() + 1
                &&& final(children)@.last().0@ == pd
                &&& final(children)@.last().1@ == nm
            }),
            leaf_under_dir(old(self).contents(), *p) && !(p.val@ is Ptr) && !refused_pair(old(self).contents(), *p)
                && chain_listed(old(self).contents(), split_index_spec(resolved(old(self).contents(), p.key@)).0)
                && ext_write_blocked(old(self).contents(), resolved(old(self).contents(), p.key@))
                ==> (r matches Err(e) && e@ == ERR_EXT_WRITE@ + ": "@ + resolved(old(self).contents(), p.key@))
                    && final(self).contents() == old(self).contents(),
            p.val@ is Index && link_free(old(self).contents()) && p.key@.len() >= 1 && p.key@[0] == PATH_SEP_CHAR ==> {
                &&& short_changes(old(self).contents(), final(self).contents(), p.key@.len())
                &&& final(children)@.len() >= old(children)@.len()
                &&& final(children)@.take(old(children)@.len() as int) == old(children)@
                &&& forall|t: int| old(children)@.len() <= t < final(children)@.len()
                    ==> (#[trigger] final(children)@[t]).0@.len() <= p.key@.len()
            },
        decreases depth, 3nat,
    {
        let ghost m0 = self.contents();
        let ghost rk = resolved(m0, p.key@);
        proof {
            if non_link_pair(*p) {
                lemma_value_not_link(p.val@);
            }
            lemma_keeps_present(m0, m0, m0);
            assert(same_off_dirs(m0, m0));
            lemma_keeps_except(m0, m0, m0, rk);
        }
        let kc = chars_of(p.key.as_str());
        let resolved = self.resolve_path(&kc);
        if has_double_slash(&resolved) {
            return Err(message_sp("Set: double-slash in key", &resolved, true));
        }
        match &p.val {
            XValue::Index(_) | XValue::ExtIndex(_) => {
                if !is_dir(&resolved) {
                    return Err(message_sp("Set: directory-kind value at non-directory key", &resolved, true));
                }
            },
            _ => {},
        }
        if let XValue::Ptr(ptr) = &p.val {
            let ok = self.validate_ptr(ptr.target.as_str(), ptr.target_kindexpr.as_str());
            if ok.is_err() {
                proof {
                    if !settles(m0, key_dir(ptr.target@)) {
                        assert(dir_trouble(m0, key_dir(ptr.target@)));
                    }
                }
                return ok;
            }
        }
        if let XValue::MapVal(_) = &p.val {
            let base = if is_root(&resolved) { sub_chars(&resolved, 0, resolved.len()) } else { strip_chars(&resolved) };
            let bytes = Self::pair_bytes(p);
            let mem = with_char(&base, OBJ_SEP_CHAR);
            self.put(&base, &bytes);
            let e = empty_index_bytes();
            self.put(&mem, &e);
            let ghost mm = self.contents();
            proof {
                if entry_write(m0, *p) {
                    assert(resolved@ == rk);
                    assert(base@ == rk);
                    assert(mem@ != base@) by {
                        assert(mem@.len() == base@.len() + 1);
                    }
                    assert(mm.dom().contains(rk) && mm[rk] == pair_bytes_spec(*p));
                }
            }
            let (parent, name) = parent_name(&base);
            proof { lemma_split_parent_dir(base@); }
            self.ensure_parent_dir(&parent, depth)?;
            let ghost c0 = children@;
            children.push((parent, name));
            proof {
                if entry_write(m0, *p) {
                    assert(self.contents().dom().contains(rk) && self.contents()[rk] == pair_bytes_spec(*p));
                    assert(parent@ == split_index_spec(rk).0 && name@ == split_index_spec(rk).1);
                    assert(children@[c0.len() as int].0@ == split_index_spec(rk).0);
                }
            }
            return Ok(());
        }
        if is_dir(&resolved) {
            let (parent, name) = parent_name(&resolved);
            proof { lemma_split_parent_dir(resolved@); }
            let ghost idx = p.val@ is Index && link_free(m0) && p.key@.len() >= 1 && p.key@[0] == PATH_SEP_CHAR;
            proof {
                if idx {
                    lemma_link_free_resolves(m0, p.key@);
                    lemma_parent_facts(resolved@);
                }
            }
            proof { lemma_split_parent_dir(resolved@); }
            let ghost before = self.contents();
            let made = self.ensure_parent_dir(&parent, depth);
            proof {
                lemma_keeps_present(m0, self.contents(), self.contents());
                lemma_keeps_except(m0, self.contents(), self.contents(), rk);
            }
            made?;
            let bytes = Self::pair_bytes(p);
            let ghost mid = self.contents();
            self.put(&resolved, &bytes);
            proof {
                assert(self.contents().remove(resolved@) =~= mid.remove(resolved@));
                lemma_same_off_dirs_except(mid, self.contents(), resolved@);
                lemma_same_off_dirs_trans(before, mid, self.contents());
                lemma_keeps_present(m0, self.contents(), self.contents());
                lemma_keeps_except(m0, self.contents(), self.contents(), rk);
            }
            proof {
                if idx {
                    lemma_short_trans(m0, mid, self.contents(), parent@.len(), resolved@.len(), resolved@.len());
                }
            }
            let child = if ends_with(&resolved, OBJ_SEP_CHAR) { name } else { with_char(&name, PATH_SEP_CHAR) };
            let ghost cb = children@;
            children.push((parent, child));
            assert(children@.take(cb.len() as int) =~= cb);
            return Ok(());
        }
        let (parent, name, _) = split_index_chars(&resolved);
        proof { lemma_split_parent_dir(resolved@); }
        let made = if ends_with(&parent, OBJ_SEP_CHAR) {
            self.ensure_member_chain(&parent, &name, children, depth)
        } else {
            let r = self.ensure_parent_dir(&parent, depth);
            proof { lemma_keeps_present(m0, self.contents(), self.contents()); }
            r
        };
        proof { lemma_keeps_except(m0, self.contents(), self.contents(), rk); }
        made?;
        let ext_t = self.prefix_ext(&parent);
        if self.present(&parent) && self.ext_index_at(&parent) {
            let local = match self.dir_entries(&parent) {
                Ok(l) => l,
                Err(e) => {
                    assert(settles(m0, p.key@) ==> ext_write_refused(self.contents(), rk));
                    return Err(e);
                },
            };
            let nm = string_from_chars(&name);
            if !contains_name(&local, nm.as_str()) {
                let ext_nodes = match self.dir_entries(&ext_t) {
                    Ok(l) => l,
                    Err(e) => {
                        assert(settles(m0, p.key@) ==> ext_write_refused(self.contents(), rk));
                        return Err(e);
                    },
                };
                if contains_name(&ext_nodes, nm.as_str()) {
                    assert(settles(m0, p.key@) ==> ext_write_refused(self.contents(), rk));
                    return Err(message(ERR_EXT_WRITE, &resolved));
                }
            }
        }
        let bytes = Self::pair_bytes(p);
        let ghost mid = self.contents();
        self.put(&resolved, &bytes);
        proof {
            if settles(m0, p.key@) {
                assert forall|k: Seq<char>| #[trigger] m0.dom().contains(k) && !is_dir_spec(k) && k != rk
                    implies self.contents().dom().contains(k) && self.contents()[k] == m0[k] by {
                    assert(mid.dom().contains(k));
                }
            }
        }
        let ghost split = split_index_spec(resolved@);
        children.push((parent, name));
        assert(children@[children@.len() - 1].0@ == split.0);
        Ok(())
    }

    /// Writes `pairs` in order, then registers every written entry in its parent index.
    /// Stops at the first error; what was written before it stays.
    #[verifier::rlimit(100)]
    #[verifier::spinoff_prover]
    fn set_pairs(&mut self, pairs: &[KVPair], depth: usize) -> (r: Result<(), String>)
        requires
            forall|i: int| 0 <= i < pairs@.len() ==> pair_fits(#[trigger] pairs@[i]),
        ensures
            pairs@.len() == 0 ==> r is Ok && final(self).contents() == old(self).contents(),
            pairs@.len() == 1 && r is Ok && entry_write(old(self).contents(), pairs@[0]) ==> ({
                let k = resolved(old(self).contents(), pairs@[0].key@);
                let (d, n, _) = split_index_spec(k);
                &&& final(self).contents().dom().contains(k)
                &&& final(self).contents()[k] == pair_bytes_spec(pairs@[0])
                &&& nul_free(n) && n.len() > 0 ==> listed(final(self).contents(), d, n)
            }),
            (forall|i: int| 0 <= i < pairs@.len() ==> (#[trigger] pairs@[i]).val@ is Index)
                ==> same_off_dirs(old(self).contents(), final(self).contents()),
            pairs@.len() > 0 && settles(old(self).contents(), pairs@[0].key@) && refused_pair(old(self).contents(), pairs@[0])
                ==> r is Err && final(self).contents() == old(self).contents(),
            link_free(old(self).contents()) && (forall|i: int| 0 <= i < pairs@.len() ==> non_link_pair(#[trigger] pairs@[i]))
                ==> link_free(final(self).contents()),
            r is Ok && link_free(old(self).contents()) && plain_batch(pairs@) ==> forall|j: int| 0 <= j < pairs@.len()
                ==> final(self).contents().dom().contains((#[trigger] pairs@[j]).key@)
                    && final(self).contents()[pairs@[j].key@] == crate::xvalue_codec::encode_value(pairs@[j].val@),
            pairs@.len() == 1 && leaf_under_dir(old(self).contents(), pairs@[0]) && r is Err ==> ({
                let rk = resolved(old(self).contents(), pairs@[0].key@);
                let (pd, nm, _) = split_index_spec(rk);
                ||| refused_pair(old(self).contents(), pairs@[0])
                ||| depth == 0 || has_dir_trouble(final(self).contents())
                ||| ext_write_refused(final(self).contents(), rk)
                ||| !leaf_merge_ok(final(self).contents(), pd, nm)
            }),
            pairs@.len() == 1 && leaf_under_dir(old(self).contents(), pairs@[0]) && !(pairs@[0].val@ is Ptr)
                && !refused_pair(old(self).contents(), pairs@[0])
                && chain_listed(old(self).contents(), split_index_spec(resolved(old(self).contents(), pairs@[0].key@)).0)
                && ext_write_blocked(old(self).contents(), resolved(old(self).contents(), pairs@[0].key@))
                ==> (r matches Err(e) && e@ == ERR_EXT_WRITE@ + ": "@ + resolved(old(self).contents(), pairs@[0].key@))
                    && final(self).contents() == old(self).contents(),
            pairs@.len() == 1 && settles(old(self).contents(), pairs@[0].key@) && !(pairs@[0].val@ is MapVal)
                ==> keeps_present_except(old(self).contents(), final(self).contents(), resolved(old(self).contents(), pairs@[0].key@)),
            pairs@.len() == 1 && pairs@[0].val@ is Index && link_free(old(self).contents())
                && pairs@[0].key@.len() >= 1 && pairs@[0].key@[0] == PATH_SEP_CHAR
                ==> short_changes(old(self).contents(), final(self).contents(), pairs@[0].key@.len()),
        decreases depth, 4nat,
    {
        let ghost m0 = self.contents();
        let ghost cond = pairs@.len() == 1 && entry_write(m0, pairs@[0]);
        let ghost target = resolved(m0, pairs@[0].key@);
        let ghost all_index = forall|i: int| 0 <= i < pairs@.len() ==> (#[trigger] pairs@[i]).val@ is Index;
        let ghost refused = pairs@.len() > 0 && settles(m0, pairs@[0].key@) && refused_pair(m0, pairs@[0]);
        let ghost nl = link_free(m0) && (forall|i: int| 0 <= i < pairs@.len() ==> non_link_pair(#[trigger] pairs@[i]));
        let ghost plain = link_free(m0) && plain_batch(pairs@);
        let mut children: Vec<(Vec<char>, Vec<char>)> = Vec::new();
        let mut i: usize = 0;
        while i < pairs.len()
            invariant
                refused == (pairs@.len() > 0 && settles(m0, pairs@[0].key@) && refused_pair(m0, pairs@[0])),
                refused ==> i == 0,
                forall|i: int| 0 <= i < pairs@.len() ==> pair_fits(#[trigger] pairs@[i]),
                forall|i: int| 0 <= i < children@.len() ==> is_dir_spec((#[trigger] children@[i]).0@),
                i == 0 ==> self.contents() == m0,
                pairs@.len() == 0 ==> children@.len() == 0 && i == 0,
                i == 0 ==> children@.len() == 0,
                pairs@.len() == 1 && pairs@[0].val@ is Index && link_free(m0)
                    && pairs@[0].key@.len() >= 1 && pairs@[0].key@[0] == PATH_SEP_CHAR ==> {
                    &&& short_changes(m0, self.contents(), pairs@[0].key@.len())
                    &&& forall|t: int| 0 <= t < children@.len() ==> (#[trigger] children@[t]).0@.len() <= pairs@[0].key@.len()
                },
                i <= pairs@.len(),
                pairs@.len() == 1 && leaf_under_dir(m0, pairs@[0]) && i == 1 ==> ({
                    let (pd, nm, _) = split_index_spec(resolved(m0, pairs@[0].key@));
                    &&& children@.len() == 1
                    &&& children@[0].0@ == pd
                    &&& children@[0].1@ == nm
                }),
                cond == (pairs@.len() == 1 && entry_write(m0, pairs@[0])),
                target == resolved(m0, pairs@[0].key@),
                i > 0 && cond ==> self.contents().dom().contains(target)
                    && self.contents()[target] == pair_bytes_spec(pairs@[0]),
                i > 0 && cond ==> exists|t: int| 0 <= t < children@.len()
                    && (#[trigger] children@[t]).0@ == split_index_spec(target).0
                    && children@[t].1@ == split_index_spec(target).1,
                all_index == (forall|i: int| 0 <= i < pairs@.len() ==> (#[trigger] pairs@[i]).val@ is Index),
                all_index ==> same_off_dirs(m0, self.contents()),
                pairs@.len() == 1 && leaf_under_dir(m0, pairs@[0]) && !(pairs@[0].val@ is Ptr)
                    && !refused_pair(m0, pairs@[0])
                    && chain_listed(m0, split_index_spec(resolved(m0, pairs@[0].key@)).0)
                    && ext_write_blocked(m0, resolved(m0, pairs@[0].key@)) ==> i == 0,
                pairs@.len() == 1 && i == 1 && settles(m0, pairs@[0].key@) && !(pairs@[0].val@ is MapVal)
                    ==> keeps_present_except(m0, self.contents(), resolved(m0, pairs@[0].key@)),
                m0 == old(self).contents(),
                nl == (link_free(m0) && (forall|i: int| 0 <= i < pairs@.len() ==> non_link_pair(#[trigger] pairs@[i]))),
                nl ==> link_free(self.contents()),
                plain == (link_free(m0) && plain_batch(pairs@)),
                plain ==> link_free(self.contents()),
                plain ==> forall|j: int| 0 <= j < i ==> self.contents().dom().contains((#[trigger] pairs@[j]).key@)
                    && self.contents()[pairs@[j].key@] == crate::xvalue_codec::encode_value(pairs@[j].val@),
            decreases pairs@.len() - i,
        {
            let ghost before = self.contents();
            assert(pair_fits(pairs@[i as int]));
            proof {
                if plain {
                    assert(plain_pair(pairs@[i as int]));
                    lemma_link_free_resolves(before, pairs@[i as int].key@);
                }
            }
            let one = self.set_one(&pairs[i], &mut children, depth);
            proof {
                if all_index {
                    assert(pairs@[i as int].val@ is Index);
                    lemma_same_off_dirs_trans(m0, before, self.contents());
                }
                if nl {
                    assert(non_link_pair(pairs@[i as int]));
                }
                if plain && one is Ok {
                    let ki = pairs@[i as int].key@;
                    assert(leaf_write(before, pairs@[i as int]));
                    assert forall|j: int| 0 <= j < i + 1 implies self.contents().dom().contains((#[trigger] pairs@[j]).key@)
                        && self.contents()[pairs@[j].key@] == crate::xvalue_codec::encode_value(pairs@[j].val@) by {
                        if j < i {
                            assert(pairs@[j].key@ != ki);
                            assert(plain_pair(pairs@[j]));
                            assert(before.dom().contains(pairs@[j].key@));
                        }
                    }
                }
            }
            one?;
            i = i + 1;
        }
        let ghost before = self.contents();
        let r = self.merge_children(&children);
        proof {
            if pairs@.len() == 1 && pairs@[0].val@ is Index && link_free(m0)
                && pairs@[0].key@.len() >= 1 && pairs@[0].key@[0] == PATH_SEP_CHAR {
                let kl = pairs@[0].key@.len();
                let m2 = self.contents();
                assert(short_changes(before, m2, kl)) by {
                    assert forall|x: Seq<char>| #![trigger before.dom().contains(x)] #![trigger m2.dom().contains(x)]
                        x.len() > kl implies (before.dom().contains(x) <==> m2.dom().contains(x))
                        && (before.dom().contains(x) ==> before[x] == m2[x]) by {
                        if exists|t: int| 0 <= t < children@.len() && (#[trigger] children@[t]).0@ == x {
                            let t = choose|t: int| 0 <= t < children@.len() && (#[trigger] children@[t]).0@ == x;
                            assert(children@[t].0@.len() <= kl);
                        }
                    }
                }
                lemma_short_trans(m0, before, self.contents(), kl, kl, kl);
            }
            if pairs@.len() == 1 && settles(m0, pairs@[0].key@) && !(pairs@[0].val@ is MapVal) {
                let x = resolved(m0, pairs@[0].key@);
                assert forall|k: Seq<char>| #[trigger] m0.dom().contains(k) && !is_dir_spec(k) && k != x
                    implies self.contents().dom().contains(k) && self.contents()[k] == m0[k] by {
                    assert(before.dom().contains(k));
                }
            }
            if pairs@.len() == 1 && leaf_under_dir(m0, pairs@[0]) {
                lemma_merge_one(before, children@);
            }
            if all_index {
                lemma_same_off_dirs_trans(m0, before, self.contents());
            }
            if plain {
                assert forall|j: int| 0 <= j < pairs@.len() implies self.contents().dom().contains((#[trigger] pairs@[j]).key@)
                    && self.contents()[pairs@[j].key@] == crate::xvalue_codec::encode_value(pairs@[j].val@) by {
                    assert(plain_pair(pairs@[j]));
                    assert(before.dom().contains(pairs@[j].key@));
                }
            }
            if cond {
                assert(!is_dir_spec(target));
                assert(before.dom().contains(target));
            }
        }
        r
    }

    /// Whether the value under `k` is an extension index (by its head's kind).
    fn ext_index_at(&self, k: &[char]) -> (r: bool)
        ensures
            r == holds_ext_index(self.contents(), k@),
    {
        let key = string_from_chars(k);
        match self.store.get(key.as_str()) {
            None => false,
            Some(data) => {
                if decode_would_panic(data.as_slice()) {
                    return false;
                }
                let head = decode_xvalue_head(data.as_slice());
                let kind = head.kind();
                str_eq(kind.as_str(), KIND_EXT_INDEX)
            },
        }
    }

    /// Registers each (parent, name) in the parent's index, once per name, keeping an
    /// extension index's path and growing the capacity as needed.
    #[verifier::rlimit(100)]
    fn merge_children(&mut self, children: &Vec<(Vec<char>, Vec<char>)>) -> (r: Result<(), String>)
        requires
            forall|i: int| 0 <= i < children@.len() ==> is_dir_spec((#[trigger] children@[i]).0@),
        ensures
            r is Ok <==> merge_ok(old(self).contents(), children@),
            children@.len() == 0 ==> final(self).contents() == old(self).contents(),
            keeps_off_parents(old(self).contents(), final(self).contents(), children@),
            children@.len() <= 1 && r is Err ==> final(self).contents() == old(self).contents(),
            r is Ok ==> forall|k: int| 0 <= k < children@.len() && #[trigger] first_parent(children@, k)
                ==> final(self).contents().dom().contains(children@[k].0@)
                    && final(self).contents()[children@[k].0@] == merge_bytes(old(self).contents(), children@, k),
            same_off_dirs(old(self).contents(), final(self).contents()),
            link_free(old(self).contents()) ==> link_free(final(self).contents()),
            r is Ok ==> forall|i: int| 0 <= i < children@.len() && nul_free((#[trigger] children@[i]).1@)
                && children@[i].1@.len() > 0 ==> listed(final(self).contents(), children@[i].0@, children@[i].1@),
    {
        let ghost m0 = old(self).contents();
        let mut done: Vec<Vec<char>> = Vec::new();
        let mut i: usize = 0;
        while i < children.len()
            invariant
                i <= children@.len(),
                m0 == old(self).contents(),
                children@.len() == 0 ==> self.contents() == m0,
                i == 0 ==> self.contents() == m0,
                forall|x: Seq<char>| #[trigger] crate::xvalue_index::views(done@).contains(x)
                    ==> exists|k: int| 0 <= k < i && (#[trigger] children@[k]).0@ == x,
                forall|x: Seq<char>| !(#[trigger] crate::xvalue_index::views(done@).contains(x)) ==> {
                    &&& self.contents().dom().contains(x) == m0.dom().contains(x)
                    &&& m0.dom().contains(x) ==> self.contents()[x] == m0[x]
                },
                forall|k: int| 0 <= k < i && #[trigger] first_parent(children@, k) ==> parent_merge_ok(m0, children@, k),
                forall|k: int| 0 <= k < i && #[trigger] first_parent(children@, k) ==> self.contents().dom().contains(children@[k].0@)
                    && self.contents()[children@[k].0@] == merge_bytes(m0, children@, k),
                forall|i: int| 0 <= i < children@.len() ==> is_dir_spec((#[trigger] children@[i]).0@),
                same_off_dirs(old(self).contents(), self.contents()),
                link_free(old(self).contents()) ==> link_free(self.contents()),
                keeps_off_parents(m0, self.contents(), children@),
                forall|k: int| 0 <= k < i ==> crate::xvalue_index::views(done@).contains((#[trigger] children@[k]).0@),
                forall|k: int| 0 <= k < children@.len() && crate::xvalue_index::views(done@).contains((#[trigger] children@[k]).0@)
                    && nul_free(children@[k].1@) && children@[k].1@.len() > 0
                    ==> listed(self.contents(), children@[k].0@, children@[k].1@),
            decreases children@.len() - i,
        {
            let parent = &children[i].0;
            if contains_chars(&done, parent) {
                proof {
                    let k = choose|k: int| 0 <= k < i && (#[trigger] children@[k]).0@ == parent@;
                    assert(!first_parent(children@, i as int));
                }
                i = i + 1;
                continue;
            }
            assert(first_parent(children@, i as int)) by {
                assert forall|t: int| 0 <= t < i implies (#[trigger] children@[t]).0@ != children@[i as int].0@ by {
                    assert(crate::xvalue_index::views(done@).contains(children@[t].0@));
                }
            }
            let ghost pm = self.contents();
            assert(pm.dom().contains(parent@) == m0.dom().contains(parent@));
            let ghost ch = children@;
            let ghost done0 = crate::xvalue_index::views(done@);
            done.push(sub_chars(parent, 0, parent.len()));
            assert(parent@.subrange(0, parent@.len() as int) == parent@);
            assert(crate::xvalue_index::views(done@) == done0.push(parent@));
            assert forall|x: Seq<char>| #[trigger] crate::xvalue_index::views(done@).contains(x)
                implies exists|k: int| 0 <= k < i + 1 && (#[trigger] children@[k]).0@ == x by {
                let t = choose|t: int| 0 <= t < crate::xvalue_index::views(done@).len() && crate::xvalue_index::views(done@)[t] == x;
                if t < done0.len() {
                    assert(done0[t] == x);
                    assert(done0.contains(x));
                } else {
                    assert(children@[i as int].0@ == x);
                }
            }
            assert forall|k: int| 0 <= k < i + 1 implies crate::xvalue_index::views(done@).contains((#[trigger] children@[k]).0@) by {
                if k < i {
                    let t = choose|t: int| 0 <= t < done0.len() && done0[t] == children@[k].0@;
                    assert(crate::xvalue_index::views(done@)[t] == children@[k].0@);
                } else {
                    assert(crate::xvalue_index::views(done@)[done0.len() as int] == parent@);
                }
            }
            let mut nodes: Vec<String> = Vec::new();
            let mut ext_path: Option<String> = None;
            let mut old_cap: usize = 0;
            let mut old_m: usize = 0;
            let pk = string_from_chars(parent);
            match self.store.get(pk.as_str()) {
                None => {},
                Some(data) => {
                    assert(data@ == m0[parent@]);
                    if decode_would_panic(data.as_slice()) {
                        assert(!parent_merge_ok(m0, ch, i as int)) by { reveal(parent_merge_ok); }
                        return Err(message("Set parentChildren: unexpected kind", parent));
                    }
                    let dims = decode_xvalue_head(data.as_slice()).dims();
                    old_cap = matrix_cap(&dims);
                    old_m = matrix_width(&dims);
                    assert(old_cap as nat == head_cap(m0, parent@)) by { reveal(head_cap); }
                    assert(old_m as nat == head_width(m0, parent@)) by { reveal(head_width); }
                    let v = decode_stored(data.as_slice());
                    assert(v@ == stored(m0, parent@));
                    match v {
                        XValue::Index(c) => {
                            let ghost all = string_views(c@);
                            nodes = if c.len() == 1 && c[0].as_str().is_empty() { Vec::new() } else { c };
                            assert(string_views(nodes@) =~= normalize_spec(all));
                        },
                        XValue::ExtIndex(e) => {
                            nodes = e.childs;
                            ext_path = Some(e.ext_path);
                        },
                        _ => {
                            assert(!parent_merge_ok(m0, ch, i as int)) by { reveal(parent_merge_ok); }
                            return Err(message("Set parentChildren: unexpected kind", parent));
                        },
                    }
                },
            }
            let ghost base = string_views(nodes@);
            let ghost cap0: nat = if m0.dom().contains(parent@) { head_cap(m0, parent@) } else { 0 };
            let ghost x = match &ext_path { None => None, Some(e) => Some(e@) };
            assert(base == dir_names(stored(m0, parent@)));
            assert(old_cap as nat == cap0);
            assert(old_m as nat == kept_width(m0, parent@));
            assert(x == ext_part(stored(m0, parent@)));
            assert(index_readable(m0, parent@));
            assert(ch.subrange(i as int, i as int) =~= Seq::<(Vec<char>, Vec<char>)>::empty());
            let mut j: usize = i;
            while j < children.len()
                invariant
                    i <= j <= children@.len(),
                    parent@ == children@[i as int].0@,
                    ch == children@,
                    string_views(nodes@) == added_names(base, ch.subrange(i as int, j as int), parent@),
                    forall|k: int| i <= k < j && (#[trigger] children@[k]).0@ == parent@
                        ==> string_views(nodes@).contains(children@[k].1@),
                decreases children@.len() - j,
            {
                assert(ch.subrange(i as int, j + 1).drop_last() =~= ch.subrange(i as int, j as int));
                assert(ch.subrange(i as int, j + 1).last() == ch[j as int]);
                if chars_equal(&children[j].0, parent) {
                    let n = string_from_chars(&children[j].1);
                    if !contains_name(&nodes, n.as_str()) {
                        let ghost before = string_views(nodes@);
                        nodes.push(n);
                        assert(string_views(nodes@) == before.push(n@));
                        assert forall|k: int| i <= k < j && (#[trigger] children@[k]).0@ == parent@
                            implies string_views(nodes@).contains(children@[k].1@) by {
                            let t = choose|t: int| 0 <= t < before.len() && before[t] == children@[k].1@;
                            assert(string_views(nodes@)[t] == children@[k].1@);
                        }
                        assert(string_views(nodes@)[before.len() as int] == n@);
                    }
                }
                j = j + 1;
            }
            assert(ch.subrange(i as int, ch.len() as int) == ch.subrange(i as int, j as int));
            let cap = match grow_cap_checked(old_cap, nodes.len()) {
                Some(c) => c,
                None => {
                    assert(!parent_merge_ok(m0, ch, i as int)) by { reveal(parent_merge_ok); }
                    return Err(string_of("kvspace: index too large"));
                },
            };
            assert(parent_merge_ok(m0, ch, i as int)
                == index_encodable(string_views(nodes@), cap as nat, old_m as nat, x)) by { reveal(parent_merge_ok); }
            let bb = match &ext_path {
                Some(e) => index_bytes(&nodes, cap, old_m, Some(e.as_str())),
                None => index_bytes(&nodes, cap, old_m, None),
            };
            let b = match bb {
                Ok(b) => b,
                Err(e) => { return Err(e); },
            };
            assert(b@ == grown_index_bytes(string_views(nodes@), cap as nat, old_m as nat, x));
            assert(is_dir_spec(children@[i as int].0@));
            let ghost m_before = self.contents();
            self.store.set(pk.as_str(), &b);
            proof {
                let m1 = self.contents();
                assert forall|k: int| 0 <= k < i + 1 && #[trigger] first_parent(children@, k) implies parent_merge_ok(m0, children@, k) by {
                    if k < i {
                    }
                }
                assert(m_before == pm);
                assert forall|y: Seq<char>| !(#[trigger] crate::xvalue_index::views(done@).contains(y)) implies {
                    &&& m1.dom().contains(y) == m0.dom().contains(y)
                    &&& m0.dom().contains(y) ==> m1[y] == m0[y]
                } by {
                    assert(crate::xvalue_index::views(done@)[done0.len() as int] == parent@);
                    assert(y != parent@);
                    if done0.contains(y) {
                        let t = choose|t: int| 0 <= t < done0.len() && done0[t] == y;
                        assert(crate::xvalue_index::views(done@)[t] == y);
                    }
                }
                if link_free(old(self).contents()) {
                    lemma_link_free_insert(m_before, parent@, b@);
                }
                assert(m1 == m_before.insert(parent@, b@));
                assert(keeps_off_parents(m0, m1, children@)) by {
                    assert forall|y: Seq<char>| !(exists|t: int| 0 <= t < children@.len() && (#[trigger] children@[t]).0@ == y) implies {
                        &&& (m1.dom().contains(y) <==> m0.dom().contains(y))
                        &&& m0.dom().contains(y) ==> m1[y] == m0[y]
                    } by {
                        assert(children@[i as int].0@ == parent@);
                        assert(y != parent@);
                        assert(m0.dom().contains(y) ==> m_before.dom().contains(y) && m_before[y] == m0[y]);
                        assert(m_before.dom().contains(y) ==> m0.dom().contains(y));
                    }
                }
                assert forall|k: int| 0 <= k < children@.len()
                    && crate::xvalue_index::views(done@).contains((#[trigger] children@[k]).0@)
                    && nul_free(children@[k].1@) && children@[k].1@.len() > 0
                    implies listed(m1, children@[k].0@, children@[k].1@) by {
                    if children@[k].0@ == parent@ {
                        if k < i {
                            assert(done0.contains(children@[k].0@));
                        }
                        assert(string_views(nodes@).contains(children@[k].1@));
                        lemma_grown_index_lists(string_views(nodes@), cap as nat, old_m as nat, x, children@[k].1@);
                    } else {
                        let t = choose|t: int| 0 <= t < crate::xvalue_index::views(done@).len()
                            && crate::xvalue_index::views(done@)[t] == children@[k].0@;
                        if t < done0.len() {
                            assert(done0[t] == children@[k].0@);
                        }
                        assert(done0.contains(children@[k].0@));
                    }
                }
            }
            i = i + 1;
        }
        Ok(())
    }

    /// The value under a key path (`dir/name`), links on its directory followed.
    fn get_one(&self, key: &str) -> (v: XValue)
        ensures
            settles(self.contents(), key_dir(key@))
                ==> v@ == get_entry(self.contents(), resolved(self.contents(), key_dir(key@)), sep_path_spec(key@).1),
    {
        let kc = chars_of(key);
        let (p0, l) = sep_chars(&kc);
        let p = if is_root(&p0) { p0 } else { with_char(&p0, PATH_SEP_CHAR) };
        assert(p@ == key_dir(key@));
        let d = self.resolve_path(&p);
        let e = self.prefix_ext(&d);
        let full_s = join_chars(&d, &l);
        let full = chars_of(full_s.as_str());
        let ghost m = self.contents();
        if is_dir(&full) || self.present(&full) {
            let v = self.value_at(&full);
            assert(v@ == get_entry(m, d@, l@));
            v
        } else if e.len() == 0 {
            assert(get_entry(m, d@, l@) == XV::Nil);
            XValue::Nil
        } else {
            let ef = join_chars(&e, &l);
            let v = self.value_at(&chars_of(ef.as_str()));
            assert(v@ == get_entry(m, d@, l@));
            v
        }
    }

    /// A pointer's expected kind must match the target's kind when the target exists.
    fn validate_ptr(&self, target: &str, ptr_kind: &str) -> (r: Result<(), String>)
        ensures
            settles(self.contents(), key_dir(target@)) ==> (r is Ok <==> ptr_target_ok(self.contents(), target@, ptr_kind@)),
    {
        let v = self.get_one(target);
        check_ptr_kind(target, &v, ptr_kind)
    }

    /// Writes each pair (links on its key followed) and registers it in its parent index;
    /// a container value also gets an empty member index, a directory value its directory
    /// entry. Fails on a key with `//`, a directory value at a non-directory key, a pointer
    /// whose expected kind differs from its existing target, or a write over a read-only
    /// extension entry.
    pub fn set(&mut self, pairs: &[KVPair]) -> (r: Result<(), String>)
        requires
            forall|i: int| 0 <= i < pairs@.len() ==> pair_fits(#[trigger] pairs@[i]),
        ensures
            pairs@.len() == 0 ==> r is Ok && final(self).contents() == old(self).contents(),
            pairs@.len() == 1 && r is Ok && entry_write(old(self).contents(), pairs@[0]) ==> ({
                let k = resolved(old(self).contents(), pairs@[0].key@);
                let (d, n, _) = split_index_spec(k);
                &&& final(self).contents().dom().contains(k)
                &&& final(self).contents()[k] == pair_bytes_spec(pairs@[0])
                &&& nul_free(n) && n.len() > 0 ==> listed(final(self).contents(), d, n)
            }),
            pairs@.len() > 0 && settles(old(self).contents(), pairs@[0].key@) && refused_pair(old(self).contents(), pairs@[0])
                ==> r is Err && final(self).contents() == old(self).contents(),
            (forall|i: int| 0 <= i < pairs@.len() ==> (#[trigger] pairs@[i]).val@ is Index)
                ==> same_off_dirs(old(self).contents(), final(self).contents()),
            link_free(old(self).contents()) && (forall|i: int| 0 <= i < pairs@.len() ==> non_link_pair(#[trigger] pairs@[i]))
                ==> link_free(final(self).contents()),
            r is Ok && link_free(old(self).contents()) && plain_batch(pairs@) ==> forall|j: int| 0 <= j < pairs@.len()
                ==> final(self).contents().dom().contains((#[trigger] pairs@[j]).key@)
                    && final(self).contents()[pairs@[j].key@] == crate::xvalue_codec::encode_value(pairs@[j].val@),
            pairs@.len() == 1 && leaf_under_dir(old(self).contents(), pairs@[0]) && r is Err ==> ({
                let rk = resolved(old(self).contents(), pairs@[0].key@);
                let (pd, nm, _) = split_index_spec(rk);
                ||| refused_pair(old(self).contents(), pairs@[0])
                ||| has_dir_trouble(final(self).contents())
                ||| ext_write_refused(final(self).contents(), rk)
                ||| !leaf_merge_ok(final(self).contents(), pd, nm)
            }),
            pairs@.len() == 1 && leaf_under_dir(old(self).contents(), pairs@[0]) && !(pairs@[0].val@ is Ptr)
                && !refused_pair(old(self).contents(), pairs@[0])
                && chain_listed(old(self).contents(), split_index_spec(resolved(old(self).contents(), pairs@[0].key@)).0)
                && ext_write_blocked(old(self).contents(), resolved(old(self).contents(), pairs@[0].key@))
                ==> (r matches Err(e) && e@ == ERR_EXT_WRITE@ + ": "@ + resolved(old(self).contents(), pairs@[0].key@))
                    && final(self).contents() == old(self).contents(),
            pairs@.len() == 1 && settles(old(self).contents(), pairs@[0].key@) && !(pairs@[0].val@ is MapVal)
                ==> keeps_present_except(old(self).contents(), final(self).contents(), resolved(old(self).contents(), pairs@[0].key@)),
    {
        self.set_pairs(pairs, usize::MAX)
    }

    /// A path with its parent directory's links followed (the last segment kept; a
    /// directory path keeps a trailing `/`).
    fn resolve_parent(&self, path: &[char]) -> (r: Vec<char>)
        ensures
            settles(self.contents(), sep_path_spec(parent_clean(path@)).0) ==> r@ == resolved_parent_spec(
                self.contents(),
                path@,
            ),
    {
        let ps = string_from_chars(path);
        match parent_to_resolve(ps.as_str()) {
            None => sub_chars(path, 0, path.len()),
            Some((parent, last)) => {
                let pc = chars_of(parent.as_str());
                let resolved = self.resolve_path(&pc);
                let rs = string_from_chars(&resolved);
                let joined = rejoin_parent(ps.as_str(), rs.as_str(), last.as_str());
                chars_of(joined.as_str())
            },
        }
    }

    /// Whether the value under `k` is a pointer (by its head).
    fn ptr_at(&self, k: &[char]) -> (r: Result<bool, String>)
        ensures
            r matches Ok(b) ==> b == link_head(self.contents(), k@),
            r is Err <==> self.contents().dom().contains(k@) && decode_panics(self.contents()[k@]),
    {
        let key = string_from_chars(k);
        match self.store.get(key.as_str()) {
            None => Ok(false),
            Some(data) => {
                if decode_would_panic(data.as_slice()) {
                    return Err(message("kvspace: undecodable value", k));
                }
                let head = decode_xvalue_head(data.as_slice());
                Ok(head.is_ptr())
            },
        }
    }

    /// The raw bytes of a key (head permission bits kept), links on its directory followed
    /// and the directory's extension consulted; empty when absent.
    pub fn get_raw(&self, key: &str) -> (r: Vec<u8>)
        ensures
            settles(self.contents(), key_dir(key@)) ==>
                r@ == raw_entry(self.contents(), resolved(self.contents(), key_dir(key@)), sep_path_spec(key@).1),
    {
        let kc = chars_of(key);
        let (p0, l) = sep_chars(&kc);
        let p1 = if is_root(&p0) { p0 } else { with_char(&p0, PATH_SEP_CHAR) };
        assert(p1@ == key_dir(key@));
        let p = self.resolve_path(&p1);
        let full = join_chars(&p, &l);
        match self.store.get(full.as_str()) {
            Some(data) => { return data; },
            None => {},
        }
        let e = self.prefix_ext(&p);
        if e.len() > 0 {
            let ef = join_chars(&e, &l);
            match self.store.get(ef.as_str()) {
                Some(data) => { return data; },
                None => {},
            }
        }
        Vec::new()
    }

    /// The bytes `[off, off + len)` of a key, found as by [`Backend::get_raw`]; empty when
    /// absent.
    pub fn get_part(&self, key: &str, off: u32, len: u32) -> (r: Vec<u8>)
        ensures
            settles(self.contents(), key_dir(key@)) ==> r@ == match entry_key(
                self.contents(),
                resolved(self.contents(), key_dir(key@)),
                sep_path_spec(key@).1,
            ) {
                Some(k) => part_of(self.contents()[k], off as nat, len as nat),
                None => seq![],
            },
    {
        let kc = chars_of(key);
        let (p0, l) = sep_chars(&kc);
        let p1 = if is_root(&p0) { p0 } else { with_char(&p0, PATH_SEP_CHAR) };
        assert(p1@ == key_dir(key@));
        let p = self.resolve_path(&p1);
        let full = join_chars(&p, &l);
        if self.store.has_key(full.as_str()) {
            return match self.store.get_part(full.as_str(), off, len) {
                Some(v) => v,
                None => Vec::new(),
            };
        }
        let e = self.prefix_ext(&p);
        if e.len() > 0 {
            let ef = join_chars(&e, &l);
            if self.store.has_key(ef.as_str()) {
                return match self.store.get_part(ef.as_str(), off, len) {
                    Some(v) => v,
                    None => Vec::new(),
                };
            }
        }
        Vec::new()
    }

    /// Writes `buf` at `off` of an existing key, found as by [`Backend::get_raw`]; an error
    /// when the key is absent.
    pub fn set_part(&mut self, key: &str, off: u32, buf: &[u8]) -> (r: Result<(), String>)
        requires
            off as nat + buf@.len() <= usize::MAX,
        ensures
            settles(old(self).contents(), key_dir(key@)) ==> match entry_key(
                old(self).contents(),
                resolved(old(self).contents(), key_dir(key@)),
                sep_path_spec(key@).1,
            ) {
                Some(k) => r is Ok && final(self).contents() == old(self).contents().insert(
                    k,
                    patched(old(self).contents()[k], off as nat, buf@),
                ),
                None => r is Err && final(self).contents() == old(self).contents(),
            },
    {
        let kc = chars_of(key);
        let (p0, l) = sep_chars(&kc);
        let p1 = if is_root(&p0) { p0 } else { with_char(&p0, PATH_SEP_CHAR) };
        assert(p1@ == key_dir(key@));
        let p = self.resolve_path(&p1);
        let full = join_chars(&p, &l);
        if self.store.has_key(full.as_str()) {
            self.store.set_part(full.as_str(), off, buf);
            return Ok(());
        }
        let e = self.prefix_ext(&p);
        if e.len() > 0 {
            let ef = join_chars(&e, &l);
            if self.store.has_key(ef.as_str()) {
                self.store.set_part(ef.as_str(), off, buf);
                return Ok(());
            }
        }
        Err(message_sp("set_part: missing key", &kc, false))
    }

    /// The number of entries of a directory: read from a plain member list's head when the
    /// extension is not expanded, else counted from the listing.
    pub fn list_len(&self, prefix: &str, expand_ext: bool, resolve: bool) -> (n: i32)
        requires
            prefix@ == root_path() || is_dir_spec(prefix@),
            resolve ==> settles(self.contents(), prefix@),
            list_ok(self.contents(), dir_for(self.contents(), prefix@, resolve), expand_ext),
        ensures
            n as int == list_len_spec(self.contents(), dir_for(self.contents(), prefix@, resolve), expand_ext),
    {
        let pc = chars_of(prefix);
        if !expand_ext {
            match self.index_head_body(&pc, resolve) {
                Some((dims, _)) => {
                    return #[verifier::truncate] (crate::xvalue_index::matrix_count(&dims) as i32);
                },
                None => {},
            }
        }
        let l = self.list(prefix, expand_ext, resolve);
        assert(l@.len() == string_views(l@).len());
        #[verifier::truncate] (l.len() as i32)
    }

    /// Entry `idx` of a directory: row `idx` of a plain member list when the extension is
    /// not expanded, else the `idx`-th listed entry; `None` past the end or for `idx < 0`.
    pub fn list_at(&self, prefix: &str, idx: i32, expand_ext: bool, resolve: bool) -> (r: Option<String>)
        requires
            prefix@ == root_path() || is_dir_spec(prefix@),
            resolve ==> settles(self.contents(), prefix@),
            list_ok(self.contents(), dir_for(self.contents(), prefix@, resolve), expand_ext),
        ensures
            match list_at_spec(self.contents(), dir_for(self.contents(), prefix@, resolve), idx as int, expand_ext) {
                Some(t) => r matches Some(s) && s@ == t,
                None => r is None,
            },
    {
        if idx < 0 {
            return None;
        }
        let pc = chars_of(prefix);
        if !expand_ext {
            match self.index_head_body(&pc, resolve) {
                Some((dims, body)) => {
                    if idx as usize >= crate::xvalue_index::matrix_count(&dims) {
                        return None;
                    }
                    return crate::xvalue_index::matrix_at(&body, crate::xvalue_index::matrix_width(&dims), idx as usize);
                },
                None => {},
            }
        }
        let l = self.list(prefix, expand_ext, resolve);
        if (idx as usize) < l.len() {
            assert(string_views(l@)[idx as int] == l@[idx as int]@);
            Some(l[idx as usize].clone())
        } else {
            None
        }
    }

    /// Deletes one key (links on its directory followed; a final link is deleted itself)
    /// and drops it from its parent index; a directory key also drops its link key. Fails on
    /// a read-only extension entry.
    fn del_one(&mut self, key: &[char]) -> (r: Result<(), String>)
        ensures
            final(self).contents().dom().subset_of(old(self).contents().dom()),
            kept_off_dirs(old(self).contents(), final(self).contents()),
            settles(old(self).contents(), sep_path_spec(parent_clean(key@)).0) ==> forall|k: Seq<char>|
                #[trigger] old(self).contents().dom().contains(k)
                && !gone_keys(resolved_parent_spec(old(self).contents(), key@)).contains(k)
                ==> final(self).contents().dom().contains(k),
            settles(old(self).contents(), sep_path_spec(parent_clean(key@)).0) ==> ({
                let rp = resolved_parent_spec(old(self).contents(), key@);
                let m = old(self).contents();
                ext_del_refused(m, rp) ==> (r matches Err(e) && e@ == ERR_EXT_DEL@ + ": "@ + rp)
            }),
            settles(old(self).contents(), sep_path_spec(parent_clean(key@)).0) ==> {
                let rp = resolved_parent_spec(old(self).contents(), key@);
                &&& r is Ok <==> del_one_ok(old(self).contents(), rp)
                &&& !ext_del_ok(old(self).contents(), parent_name_spec(rp).0, parent_name_spec(rp).1)
                    ==> final(self).contents() == old(self).contents()
            },
            r is Ok && settles(old(self).contents(), sep_path_spec(parent_clean(key@)).0) ==> ({
                let rp = resolved_parent_spec(old(self).contents(), key@);
                let (pd, nm) = parent_name_spec(rp);
                &&& !final(self).contents().dom().contains(rp)
                &&& is_dir_spec(rp) ==> !final(self).contents().dom().contains(strip_dir_suf_spec(rp))
                &&& names_nul_free(dir_names(stored(old(self).contents(), pd)))
                    ==> !listed(final(self).contents(), pd, nm) && !listed(final(self).contents(), pd, nm.push(PATH_SEP_CHAR))
            }),
    {
        let resolved = self.resolve_parent(key);
        let (parent, name) = parent_name(&resolved);
        let ghost m0 = self.contents();
        let ghost settled = settles(m0, sep_path_spec(parent_clean(key@)).0);
        proof {
            if settled {
                assert(parent_name_spec(resolved@) == (parent@, name@));
            }
        }
        if self.ext_index_at(&parent) {
            let ext_t = self.prefix_ext(&parent);
            let local = match self.dir_entries(&parent) {
                Ok(l) => l,
                Err(e) => {
                    assert(!ext_del_ok(m0, parent@, name@));
                    assert(settled ==> !del_one_ok(m0, resolved@)) by { reveal(del_one_ok); }
                    return Err(e);
                },
            };
            let nm = string_from_chars(&name);
            if !contains_name(&local, nm.as_str()) {
                let ext_nodes = match self.dir_entries(&ext_t) {
                    Ok(l) => l,
                    Err(e) => {
                        assert(!ext_del_ok(m0, parent@, name@));
                        assert(settled ==> !del_one_ok(m0, resolved@)) by { reveal(del_one_ok); }
                        return Err(e);
                    },
                };
                if contains_name(&ext_nodes, nm.as_str()) {
                    assert(!ext_del_ok(m0, parent@, name@));
                    assert(settled ==> !del_one_ok(m0, resolved@)) by { reveal(del_one_ok); }
                    return Err(message(ERR_EXT_DEL, &resolved));
                }
            }
        }
        assert(ext_del_ok(m0, parent@, name@));
        let mut gone: Vec<Vec<char>> = Vec::new();
        if is_dir(&resolved) {
            gone.push(strip_chars(&resolved));
        }
        gone.push(sub_chars(&resolved, 0, resolved.len()));
        proof {
            assert(resolved@.subrange(0, resolved@.len() as int) =~= resolved@);
            assert(char_key_set(gone@).contains(resolved@)) by {
                assert(gone@[gone@.len() - 1]@ == resolved@);
            }
            if is_dir_spec(resolved@) {
                assert(char_key_set(gone@).contains(strip_dir_suf_spec(resolved@))) by {
                    assert(gone@[0]@ == strip_dir_suf_spec(resolved@));
                }
            }
        }
        assert(char_key_set(gone@) =~= gone_keys(resolved@)) by {
            assert forall|k: Seq<char>| char_key_set(gone@).contains(k) implies gone_keys(resolved@).contains(k) by {
                let i = choose|i: int| 0 <= i < gone@.len() && (#[trigger] gone@[i])@ == k;
                if is_dir_spec(resolved@) && i == 0 {
                    assert(gone@[0]@ == strip_dir_suf_spec(resolved@));
                } else {
                    assert(gone@[i]@ == resolved@);
                }
            }
        }
        self.remove_keys(&gone);
        let ghost m1 = self.contents();
        assert(m1 == m0.remove_keys(gone_keys(resolved@)));
        let mut names: Vec<String> = Vec::new();
        names.push(string_from_chars(&name));
        assert(string_views(names@) =~= seq![name@]);
        proof {
            if !m1.dom().contains(parent@) {
                assert(dir_names(stored(m1, parent@)) =~= Seq::<Seq<char>>::empty());
            } else {
                assert(m0.dom().contains(parent@));
                assert(m1[parent@] == m0[parent@]);
            }
        }
        let r = self.remove_child(&parent, &names);
        assert(settled ==> (del_one_ok(m0, resolved@) == remove_child_ok(m1, parent@, seq![name@]))) by { reveal(del_one_ok); }
        proof {
            lemma_split_parent_dir(resolved@);
            assert forall|k: Seq<char>| #[trigger] self.contents().dom().contains(k) && !is_dir_spec(k)
                implies self.contents()[k] == m0[k] by {
                assert(k != parent@);
                assert(self.contents().remove(parent@).dom().contains(k));
                assert(m1.remove(parent@)[k] == m1[k]);
            }
        }
        proof {
            if r is Ok && names_nul_free(dir_names(stored(m0, parent@))) {
                assert(names_nul_free(dir_names(stored(m1, parent@))));
                if listed(self.contents(), parent@, name@) {
                    assert(!unnamed(name@, string_views(names@))) by {
                        assert(string_views(names@)[0] == name@);
                    }
                }
                if listed(self.contents(), parent@, name@.push(PATH_SEP_CHAR)) {
                    assert(!unnamed(name@.push(PATH_SEP_CHAR), string_views(names@))) by {
                        assert(string_views(names@)[0] == name@);
                    }
                }
            }
        }
        r
    }

    /// Deletes each key in turn (see [`Backend::del_one`]): keys only ever go away, and a
    /// single key is gone afterwards, with its link key when it names a directory.
    #[verifier::rlimit(60)]
    pub fn del(&mut self, keys: &[String]) -> (r: Result<(), String>)
        ensures
            final(self).contents().dom().subset_of(old(self).contents().dom()),
            kept_off_dirs(old(self).contents(), final(self).contents()),
            keys@.len() == 1 && settles(old(self).contents(), sep_path_spec(parent_clean(keys@[0]@)).0) ==> ({
                let rp = resolved_parent_spec(old(self).contents(), keys@[0]@);
                let m = old(self).contents();
                ext_del_refused(m, rp) ==> (r matches Err(e) && e@ == ERR_EXT_DEL@ + ": "@ + rp) && final(self).contents() == m
            }),
            keys@.len() == 0 ==> r is Ok && final(self).contents() == old(self).contents(),
            keys@.len() == 1 && settles(old(self).contents(), sep_path_spec(parent_clean(keys@[0]@)).0) ==> forall|k: Seq<char>|
                #[trigger] old(self).contents().dom().contains(k)
                && !gone_keys(resolved_parent_spec(old(self).contents(), keys@[0]@)).contains(k)
                ==> final(self).contents().dom().contains(k),
            r is Ok ==> exists|ms: Seq<Map<Seq<char>, Seq<u8>>>| #[trigger] del_chain(ms, string_views(keys@), keys@.len() as int)
                && ms[0] == old(self).contents() && ms.last() == final(self).contents(),
            r is Err ==> exists|ms: Seq<Map<Seq<char>, Seq<u8>>>, j: int| 0 <= j < keys@.len()
                && #[trigger] del_chain(ms, string_views(keys@), j) && ms[0] == old(self).contents()
                && del_refused(ms[j], string_views(keys@)[j]),
            keys@.len() == 1 && settles(old(self).contents(), sep_path_spec(parent_clean(keys@[0]@)).0)
                ==> (r is Ok <==> del_one_ok(old(self).contents(), resolved_parent_spec(old(self).contents(), keys@[0]@))),
            keys@.len() == 1 && r is Ok && settles(old(self).contents(), sep_path_spec(parent_clean(keys@[0]@)).0) ==> ({
                let rp = resolved_parent_spec(old(self).contents(), keys@[0]@);
                let (pd, nm) = parent_name_spec(rp);
                &&& !final(self).contents().dom().contains(rp)
                &&& is_dir_spec(rp) ==> !final(self).contents().dom().contains(strip_dir_suf_spec(rp))
                &&& names_nul_free(dir_names(stored(old(self).contents(), pd)))
                    ==> !listed(final(self).contents(), pd, nm) && !listed(final(self).contents(), pd, nm.push(PATH_SEP_CHAR))
            }),
    {
        let ghost m0 = self.contents();
        let ghost sv = string_views(keys@);
        let ghost mut ms: Seq<Map<Seq<char>, Seq<u8>>> = seq![m0];
        let mut i: usize = 0;
        while i < keys.len()
            invariant
                i <= keys@.len(),
                m0 == old(self).contents(),
                sv == string_views(keys@),
                del_chain(ms, sv, i as int),
                ms[0] == m0,
                ms.last() == self.contents(),
                i == 0 ==> self.contents() == m0,
                self.contents().dom().subset_of(m0.dom()),
                kept_off_dirs(m0, self.contents()),
                keys@.len() == 1 && i == 1 && settles(m0, sep_path_spec(parent_clean(keys@[0]@)).0) ==> forall|k: Seq<char>|
                    #[trigger] m0.dom().contains(k) && !gone_keys(resolved_parent_spec(m0, keys@[0]@)).contains(k)
                    ==> self.contents().dom().contains(k),
                keys@.len() == 1 && i == 1 && settles(m0, sep_path_spec(parent_clean(keys@[0]@)).0)
                    ==> !ext_del_refused(m0, resolved_parent_spec(m0, keys@[0]@)),
                keys@.len() == 1 && i == 1 && settles(m0, sep_path_spec(parent_clean(keys@[0]@)).0)
                    ==> del_one_ok(m0, resolved_parent_spec(m0, keys@[0]@)),
                keys@.len() == 1 && i == 1 && settles(m0, sep_path_spec(parent_clean(keys@[0]@)).0) ==> ({
                    let rp = resolved_parent_spec(m0, keys@[0]@);
                    let (pd, nm) = parent_name_spec(rp);
                    &&& !self.contents().dom().contains(rp)
                    &&& is_dir_spec(rp) ==> !self.contents().dom().contains(strip_dir_suf_spec(rp))
                    &&& names_nul_free(dir_names(stored(m0, pd)))
                        ==> !listed(self.contents(), pd, nm) && !listed(self.contents(), pd, nm.push(PATH_SEP_CHAR))
                }),
            decreases keys@.len() - i,
        {
            let kc = chars_of(keys[i].as_str());
            let ghost before = self.contents();
            let res = self.del_one(&kc);
            assert(kept_off_dirs(m0, self.contents())) by {
                assert forall|k: Seq<char>| #[trigger] self.contents().dom().contains(k) && !is_dir_spec(k)
                    implies self.contents()[k] == m0[k] by {
                    assert(before.dom().contains(k));
                }
            }
            assert(self.contents().dom().subset_of(m0.dom())) by {
                assert forall|k: Seq<char>| self.contents().dom().contains(k) implies m0.dom().contains(k) by {
                    assert(before.dom().contains(k));
                }
            }
            assert(kc@ == sv[i as int]);
            if res.is_err() {
                assert(del_refused(ms[i as int], sv[i as int]));
                assert(del_chain(ms, sv, i as int));
                return res;
            }
            proof {
                assert(del_step(before, sv[i as int], self.contents()));
                let ms2 = ms.push(self.contents());
                assert forall|t: int| 0 <= t < i + 1 implies del_step(#[trigger] ms2[t], sv[t], ms2[t + 1]) by {
                    if t < i {
                        assert(ms2[t] == ms[t] && ms2[t + 1] == ms[t + 1]);
                    }
                }
                ms = ms2;
            }
            i = i + 1;
        }
        assert(del_chain(ms, sv, keys@.len() as int));
        Ok(())
    }

    /// Deletes a whole subtree (every key under the resolved prefix) and drops it from its
    /// parent index; a prefix that is itself a link deletes only the link.
    pub fn del_tree(&mut self, prefix: &str) -> (r: Result<(), String>)
        ensures
            final(self).contents().dom().subset_of(old(self).contents().dom()),
            old(self).contents().dom().contains(link_key_of(prefix@)) && decode_panics(old(self).contents()[link_key_of(prefix@)])
                ==> r is Err && final(self).contents() == old(self).contents(),
            !(old(self).contents().dom().contains(link_key_of(prefix@)) && decode_panics(old(self).contents()[link_key_of(prefix@)]))
                && link_head(old(self).contents(), link_key_of(prefix@))
                && settles(old(self).contents(), sep_path_spec(parent_clean(prefix@)).0)
                ==> (r is Ok <==> del_one_ok(old(self).contents(), resolved_parent_spec(old(self).contents(), prefix@))),
            !(old(self).contents().dom().contains(link_key_of(prefix@)) && decode_panics(old(self).contents()[link_key_of(prefix@)]))
                && !link_head(old(self).contents(), link_key_of(prefix@)) && settles(old(self).contents(), prefix@) ==> ({
                let rp = resolved(old(self).contents(), prefix@);
                let (pd, nm) = parent_name_spec(rp);
                r is Ok <==> remove_child_ok(old(self).contents().remove_keys(tree_keys(old(self).contents(), rp)), pd,
                    seq![nm, nm.push(OBJ_SEP_CHAR)])
            }),
            settles(old(self).contents(), prefix@) && !link_head(old(self).contents(), link_key_of(prefix@)) ==> ({
                let rp = resolved(old(self).contents(), prefix@);
                &&& kept_off_dirs(old(self).contents(), final(self).contents())
                &&& forall|k: Seq<char>| #[trigger] old(self).contents().dom().contains(k) && !final(self).contents().dom().contains(k)
                    ==> k == rp || starts_with_seq(k, scan_base(rp))
            }),
            !(old(self).contents().dom().contains(link_key_of(prefix@)) && decode_panics(old(self).contents()[link_key_of(prefix@)]))
                && settles(old(self).contents(), prefix@) && !link_head(old(self).contents(), link_key_of(prefix@))
                ==> forall|k: Seq<char>| #[trigger] starts_with_seq(k, scan_base(resolved(old(self).contents(), prefix@)))
                    ==> !final(self).contents().dom().contains(k),
            settles(old(self).contents(), prefix@) && !link_head(old(self).contents(), link_key_of(prefix@))
                ==> forall|k: Seq<char>| #[trigger] final(self).contents().dom().contains(k)
                    && k != parent_name_spec(resolved(old(self).contents(), prefix@)).0
                    ==> final(self).contents()[k] == old(self).contents()[k],
            link_free(old(self).contents()) ==> link_free(final(self).contents()),
    {
        let ghost m0 = self.contents();
        let pc = chars_of(prefix);
        let link_key = if is_dir(&pc) && !is_root(&pc) { strip_chars(&pc) } else { sub_chars(&pc, 0, pc.len()) };
        assert(pc@.subrange(0, pc@.len() as int) =~= pc@);
        assert(link_key@ == link_key_of(prefix@));
        let is_link = self.ptr_at(&link_key)?;
        if is_link {
            proof {
                if link_free(m0) {
                    lemma_link_free_no_head(m0, link_key@);
                }
            }
            let mut one: Vec<String> = Vec::new();
            one.push(string_of(prefix));
            assert(one@[0]@ == prefix@);
            return self.del(&one);
        }
        let ghost settled = settles(m0, prefix@);
        let resolved = self.resolve_path(&pc);
        let scan = if is_dir(&resolved) && !is_root(&resolved) { sub_chars(&resolved, 0, resolved.len() - 1) } else { sub_chars(&resolved, 0, resolved.len()) };
        assert(scan@ =~= scan_base(resolved@));
        let scan_s = string_from_chars(&scan);
        let keys = self.store.scan_keys(scan_s.as_str());
        let mut one: Vec<Vec<char>> = Vec::new();
        one.push(sub_chars(&resolved, 0, resolved.len()));
        assert(resolved@.subrange(0, resolved@.len() as int) =~= resolved@);
        self.remove_keys(&one);
        assert(char_key_set(one@) =~= set![resolved@]) by {
            assert(one@[0]@ == resolved@);
        }
        proof {
            assert forall|x: Seq<char>| #[trigger] m0.dom().contains(x) && !self.contents().dom().contains(x)
                implies x == resolved@ by {
                if x != resolved@ {
                    assert(!char_key_set(one@).contains(x));
                }
            }
        }
        let mut k: usize = 0;
        while k < keys.len()
            invariant
                k <= keys@.len(),
                self.contents().dom().subset_of(m0.dom()),
                kept_off_dirs(m0, self.contents()),
                forall|x: Seq<char>| #[trigger] m0.dom().contains(x) && !self.contents().dom().contains(x)
                    ==> x == resolved@ || starts_with_seq(x, scan@),
                forall|j: int| 0 <= j < k ==> !self.contents().dom().contains(#[trigger] keys@[j]@),
                forall|x: Seq<char>| (exists|i: int| 0 <= i < keys@.len() && (#[trigger] keys@[i])@ == x)
                    <==> crate::store::keys_with_prefix(m0, scan@).contains(x),
                self.contents() == m0.remove_keys(Set::new(|x: Seq<char>| x == resolved@
                    || exists|j: int| 0 <= j < k && (#[trigger] keys@[j])@ == x)),
            decreases keys@.len() - k,
        {
            let ghost before = self.contents();
            let mut gone: Vec<Vec<char>> = Vec::new();
            gone.push(chars_of(keys[k].as_str()));
            assert(char_key_set(gone@).contains(keys@[k as int]@)) by {
                assert(gone@[0]@ == keys@[k as int]@);
            }
            self.remove_keys(&gone);
            assert(char_key_set(gone@) =~= set![keys@[k as int]@]) by {
                assert(gone@[0]@ == keys@[k as int]@);
            }
            assert(self.contents() =~= m0.remove_keys(Set::new(|x: Seq<char>| x == resolved@
                || exists|j: int| 0 <= j < k + 1 && (#[trigger] keys@[j])@ == x))) by {
                let sa = Set::new(|x: Seq<char>| x == resolved@ || exists|j: int| 0 <= j < k && (#[trigger] keys@[j])@ == x);
                let sb = Set::new(|x: Seq<char>| x == resolved@ || exists|j: int| 0 <= j < k + 1 && (#[trigger] keys@[j])@ == x);
                assert forall|x: Seq<char>| sb.contains(x) <==> sa.contains(x) || x == keys@[k as int]@ by {
                    if sb.contains(x) && x != resolved@ && x != keys@[k as int]@ {
                        let j = choose|j: int| 0 <= j < k + 1 && (#[trigger] keys@[j])@ == x;
                        assert(j < k);
                    }
                    if x == keys@[k as int]@ {
                        assert(0 <= k < k + 1 && keys@[k as int]@ == x);
                    }
                    if sa.contains(x) && x != resolved@ {
                        let j = choose|j: int| 0 <= j < k && (#[trigger] keys@[j])@ == x;
                        assert(0 <= j < k + 1);
                    }
                }
            }
            assert(self.contents().dom().subset_of(m0.dom())) by {
                assert forall|x: Seq<char>| self.contents().dom().contains(x) implies m0.dom().contains(x) by {
                    assert(before.dom().contains(x));
                }
            }
            proof {
                assert forall|x: Seq<char>| #[trigger] m0.dom().contains(x) && !self.contents().dom().contains(x)
                    implies x == resolved@ || starts_with_seq(x, scan@) by {
                    if before.dom().contains(x) {
                        assert(char_key_set(gone@).contains(x));
                        let t = choose|t: int| 0 <= t < gone@.len() && (#[trigger] gone@[t])@ == x;
                        assert(x == keys@[k as int]@);
                        assert(crate::store::keys_with_prefix(m0, scan@).contains(x));
                    }
                }
                assert forall|x: Seq<char>| #[trigger] self.contents().dom().contains(x) && !is_dir_spec(x)
                    implies self.contents()[x] == m0[x] by {
                    assert(before.dom().contains(x));
                }
            }
            k = k + 1;
        }
        assert forall|x: Seq<char>| #[trigger] starts_with_seq(x, scan@) implies !self.contents().dom().contains(x) by {
            if self.contents().dom().contains(x) {
                assert(m0.dom().contains(x));
                assert(crate::store::keys_with_prefix(m0, scan@).contains(x));
                let i = choose|i: int| 0 <= i < keys@.len() && (#[trigger] keys@[i])@ == x;
                assert(!self.contents().dom().contains(keys@[i]@));
            }
        }
        proof {
            let sk = Set::new(|x: Seq<char>| x == resolved@ || exists|j: int| 0 <= j < keys@.len() && (#[trigger] keys@[j])@ == x);
            if settled {
                assert(sk =~= tree_keys(m0, resolved@)) by {
                    assert forall|x: Seq<char>| sk.contains(x) <==> tree_keys(m0, resolved@).contains(x) by {
                        if x != resolved@ {
                            if sk.contains(x) {
                                assert(crate::store::keys_with_prefix(m0, scan@).contains(x));
                            }
                            if tree_keys(m0, resolved@).contains(x) {
                                assert(crate::store::keys_with_prefix(m0, scan@).contains(x));
                            }
                        }
                    }
                }
            }
        }
        let (parent, name) = parent_name(&resolved);
        proof { lemma_split_parent_dir(resolved@); }
        let mut names: Vec<String> = Vec::new();
        names.push(string_from_chars(&name));
        names.push(string_from_chars(&with_char(&name, OBJ_SEP_CHAR)));
        assert(string_views(names@) =~= seq![name@, name@.push(OBJ_SEP_CHAR)]);
        let ghost before = self.contents();
        proof {
            if link_free(m0) {
                assert forall|x: Seq<char>| #[trigger] before.dom().contains(x)
                    implies !(decode_stored_spec(before[x]) is Ptr) by {
                    assert(m0.dom().contains(x));
                }
            }
        }
        let r = self.remove_child(&parent, &names);
        proof {
            lemma_same_off_dirs_except(before, self.contents(), parent@);
            assert forall|x: Seq<char>| #[trigger] self.contents().dom().contains(x) && !is_dir_spec(x)
                implies self.contents()[x] == m0[x] by {
                assert(before.dom().contains(x));
            }
            let m1 = self.contents();
            assert forall|x: Seq<char>| #[trigger] m1.dom().contains(x) && x != parent@
                implies m1[x] == m0[x] by {
                assert(m1.remove(parent@).dom().contains(x));
                assert(before.remove(parent@).dom().contains(x));
                assert(m1.remove(parent@)[x] == before.remove(parent@)[x]);
                assert(before.dom().contains(x));
            }
        }
        r
    }

    /// Copies one key's value (head and body as stored, whatever its kind, container values
    /// included) to `dst` and registers it there; its members are not copied.
    pub fn cp(&mut self, src: &str, dst: &str) -> (r: Result<(), String>)
        ensures
            settles(old(self).contents(), key_dir(src@)) ==> ({
                let raw = raw_entry(old(self).contents(), resolved(old(self).contents(), key_dir(src@)), sep_path_spec(src@).1);
                &&& raw.len() == 0 ==> r is Err && final(self).contents() == old(self).contents()
                &&& r is Ok && settles(old(self).contents(), dst@) && !is_dir_spec(resolved(old(self).contents(), dst@)) ==> ({
                        let k = resolved(old(self).contents(), dst@);
                        let (d, n, _) = split_index_spec(k);
                        &&& final(self).contents().dom().contains(k) && final(self).contents()[k] == raw
                        &&& nul_free(n) && n.len() > 0 ==> listed(final(self).contents(), d, n)
                    })
                &&& raw.len() > 0 && r is Err ==> exists|p: KVPair| #[trigger] p.key@ == dst@
                    && p.val@ == decode_stored_spec(raw) && (leaf_under_dir(old(self).contents(), p) ==> ({
                        let rk = resolved(old(self).contents(), dst@);
                        let (pd, nm, _) = split_index_spec(rk);
                        ||| refused_pair(old(self).contents(), p)
                        ||| has_dir_trouble(final(self).contents())
                        ||| ext_write_refused(final(self).contents(), rk)
                        ||| !leaf_merge_ok(final(self).contents(), pd, nm)
                    }))
            }),
    {
        let raw = self.get_raw(src);
        if raw.len() == 0 {
            let sc = chars_of(src);
            return Err(message("Cp: source not found", &sc));
        }
        let v = decode_stored(raw.as_slice());
        let ghost raw_v = raw@;
        let mut pairs: Vec<KVPair> = Vec::new();
        pairs.push(KVPair { key: string_of(dst), val: v, raw: Some(raw) });
        assert(pairs@[0].key@ == dst@ && pair_bytes_spec(pairs@[0]) == raw_v);
        assert(pairs@[0].val@ == decode_stored_spec(raw_v));
        let ghost p0 = pairs@[0];
        let r = self.set(&pairs);
        assert(p0.key@ == dst@);
        r
    }

    /// Registers a copied root under its parent by what it became: a value, a directory or
    /// a member index. Only directory paths change.
    fn register_copy(&mut self, dst_base: &[char], with_dir: bool) -> (r: Result<(), String>)
        ensures
            same_off_dirs(old(self).contents(), final(self).contents()),
            r is Ok && old(self).contents().dom().contains(dst_base@) && !is_dir_spec(dst_base@)
                && nul_free(parent_name_spec(dst_base@).1) && parent_name_spec(dst_base@).1.len() > 0
                ==> listed(final(self).contents(), parent_name_spec(dst_base@).0, parent_name_spec(dst_base@).1),
            r is Err ==> register_copy_fails(final(self).contents(), dst_base@),
            link_free(old(self).contents()) && dst_base@.len() >= 1 && dst_base@[0] == PATH_SEP_CHAR
                ==> short_changes(old(self).contents(), final(self).contents(), parent_name_spec(dst_base@).0.len()),
    {
        let (parent, name) = parent_name(dst_base);
        proof {
            lemma_split_parent_dir(dst_base@);
            if dst_base@.len() >= 1 && dst_base@[0] == PATH_SEP_CHAR {
                lemma_parent_facts(dst_base@);
            }
        }
        self.ensure_parent_dir(&parent, usize::MAX)?;
        let ghost m1 = self.contents();
        assert(name@.subrange(0, name@.len() as int) == name@);
        let named = if self.present(dst_base) {
            sub_chars(&name, 0, name.len())
        } else if with_dir && self.present(&with_char(dst_base, PATH_SEP_CHAR)) {
            with_char(&name, PATH_SEP_CHAR)
        } else if self.present(&with_char(dst_base, OBJ_SEP_CHAR)) {
            with_char(&name, OBJ_SEP_CHAR)
        } else {
            return Ok(());
        };
        let r = self.add_child(&parent, &named);
        proof {
            lemma_same_off_dirs_except(m1, self.contents(), parent@);
            lemma_same_off_dirs_trans(old(self).contents(), m1, self.contents());
            let m2 = self.contents();
            let n = parent@.len();
            assert(short_changes(m1, m2, n)) by {
                assert forall|k: Seq<char>| #![trigger m1.dom().contains(k)] #![trigger m2.dom().contains(k)]
                    k.len() > n implies (m1.dom().contains(k) <==> m2.dom().contains(k)) && (m1.dom().contains(k) ==> m1[k] == m2[k]) by {
                    assert(k != parent@);
                    assert(m1.remove(parent@).dom().contains(k) == m1.dom().contains(k));
                    assert(m2.remove(parent@).dom().contains(k) == m2.dom().contains(k));
                    if m1.dom().contains(k) {
                        assert(m1.remove(parent@)[k] == m1[k]);
                        assert(m2.remove(parent@)[k] == m2[k]);
                    }
                }
            }
            if link_free(old(self).contents()) && dst_base@.len() >= 1 && dst_base@[0] == PATH_SEP_CHAR {
                lemma_short_trans(old(self).contents(), m1, m2, n, n, n);
            }
        }
        r
    }

    /// The keys of the subtree rooted at the base `sb` (see [`tree_member`]).
    fn tree_keys_under(&self, sb: &[char]) -> (keys: Vec<String>)
        ensures
            forall|t: int| 0 <= t < keys@.len() ==> self.contents().dom().contains((#[trigger] keys@[t])@)
                && tree_member(keys@[t]@, sb@),
            forall|x: Seq<char>| #[trigger] self.contents().dom().contains(x) && tree_member(x, sb@)
                ==> exists|t: int| 0 <= t < keys@.len() && (#[trigger] keys@[t])@ == x,
    {
        let m0 = Ghost(self.contents());
        let scan_s = string_from_chars(sb);
        let all = self.store.scan_keys(scan_s.as_str());
        let mut keys: Vec<String> = Vec::new();
        let mut a: usize = 0;
        while a < all.len()
            invariant
                a <= all@.len(),
                self.contents() == m0@,
                scan_s@ == sb@,
                forall|x: Seq<char>| (exists|i: int| 0 <= i < all@.len() && (#[trigger] all@[i])@ == x)
                    <==> crate::store::keys_with_prefix(m0@, scan_s@).contains(x),
                forall|t: int| 0 <= t < keys@.len() ==> m0@.dom().contains((#[trigger] keys@[t])@)
                    && tree_member(keys@[t]@, sb@),
                forall|i: int| 0 <= i < a && tree_member((#[trigger] all@[i])@, sb@)
                    ==> exists|t: int| 0 <= t < keys@.len() && (#[trigger] keys@[t])@ == all@[i]@,
            decreases all@.len() - a,
        {
            let kc = chars_of(all[a].as_str());
            proof {
                assert(exists|i: int| 0 <= i < all@.len() && (#[trigger] all@[i])@ == all@[a as int]@);
                assert(crate::store::keys_with_prefix(m0@, scan_s@).contains(all@[a as int]@));
            }
            if in_tree(&kc, sb) {
                let ghost before = keys@;
                keys.push(all[a].clone());
                assert(keys@[before.len() as int]@ == all@[a as int]@);
                assert forall|i: int| 0 <= i < a + 1 && tree_member((#[trigger] all@[i])@, sb@)
                    implies exists|t: int| 0 <= t < keys@.len() && (#[trigger] keys@[t])@ == all@[i]@ by {
                    if i < a {
                        let t = choose|t: int| 0 <= t < before.len() && (#[trigger] before[t])@ == all@[i]@;
                        assert(keys@[t] == before[t]);
                    } else {
                        assert(keys@[before.len() as int]@ == all@[i]@);
                    }
                }
            }
            a = a + 1;
        }
        assert forall|x: Seq<char>| #[trigger] self.contents().dom().contains(x) && tree_member(x, sb@)
            implies exists|t: int| 0 <= t < keys@.len() && (#[trigger] keys@[t])@ == x by {
            assert(crate::store::keys_with_prefix(m0@, scan_s@).contains(x));
            let i = choose|i: int| 0 <= i < all@.len() && (#[trigger] all@[i])@ == x;
        }
        keys
    }

    /// Copies the whole subtree rooted at `src` (its base and every key below it by `/` or
    /// `·`, byte for byte; siblings that merely share the prefix stay) to `dst`, replacing
    /// what `dst` held, and registers `dst` under its parent. Fails when the subtree is
    /// empty. In a store without links, where neither subtree lies inside the other and the
    /// destination is an absolute path other than the root, every key of the subtree,
    /// directory and member indexes included, lands under `dst` at the same suffix; when
    /// the source is not empty and the destination names no directory and reads back, the
    /// keys that begin with `dst` are afterwards exactly those copies.
    #[verifier::rlimit(100)]
    #[verifier::spinoff_prover]
    pub fn cp_tree(&mut self, src: &str, dst: &str) -> (r: Result<(), String>)
        ensures
            settles(old(self).contents(), src@) && settles(old(self).contents(), dst@) ==> ({
                let sb = scan_base(resolved(old(self).contents(), src@));
                let db = scan_base(resolved(old(self).contents(), dst@));
                &&& sb == db ==> r is Ok && final(self).contents() == old(self).contents()
                &&& sb != db && (forall|k: Seq<char>| #[trigger] tree_member(k, sb) ==> !old(self).contents().dom().contains(k))
                    ==> (r matches Err(e) && e@ == "CpTree: source not found"@ + ": "@ + src@)
                        && final(self).contents() == old(self).contents()
                &&& r is Err && sb != db && (exists|k: Seq<char>| #[trigger] tree_member(k, sb) && old(self).contents().dom().contains(k))
                    ==> register_copy_fails(final(self).contents(), db)
            }),
            r is Ok && link_free(old(self).contents()) ==> ({
                let sb = scan_base(src@);
                let db = scan_base(dst@);
                apart(sb, db) ==> ({
                    &&& forall|k: Seq<char>| #[trigger] old(self).contents().dom().contains(k) && tree_member(k, sb)
                            && !is_dir_spec(k) && !is_dir_spec(moved_key(k, sb, db))
                            ==> final(self).contents().dom().contains(moved_key(k, sb, db))
                                && final(self).contents()[moved_key(k, sb, db)] == old(self).contents()[k]
                    &&& old(self).contents().dom().contains(sb) && !is_dir_spec(sb) && !is_dir_spec(db)
                        && nul_free(parent_name_spec(db).1) && parent_name_spec(db).1.len() > 0
                        ==> listed(final(self).contents(), parent_name_spec(db).0, parent_name_spec(db).1)
                })
            }),
            link_free(old(self).contents()) ==> ({
                let sb = scan_base(src@);
                let db = scan_base(dst@);
                apart(sb, db) && db.len() >= 2 && db[0] == PATH_SEP_CHAR && db[1] != PATH_SEP_CHAR
                    ==> forall|k: Seq<char>| #[trigger] old(self).contents().dom().contains(k) && tree_member(k, sb)
                        ==> final(self).contents().dom().contains(moved_key(k, sb, db))
                            && final(self).contents()[moved_key(k, sb, db)] == old(self).contents()[k]
            }),
            link_free(old(self).contents()) ==> ({
                let sb = scan_base(src@);
                let db = scan_base(dst@);
                apart(sb, db) && db.len() >= 2 && db[0] == PATH_SEP_CHAR && db[1] != PATH_SEP_CHAR && !is_dir_spec(db)
                    && !(old(self).contents().dom().contains(db) && decode_panics(old(self).contents()[db]))
                    && (exists|x: Seq<char>| #[trigger] tree_member(x, sb) && old(self).contents().dom().contains(x))
                    ==> forall|k: Seq<char>| #[trigger] final(self).contents().dom().contains(k) && starts_with_seq(k, db)
                        ==> exists|x: Seq<char>| #[trigger] tree_member(x, sb) && old(self).contents().dom().contains(x)
                            && k == moved_key(x, sb, db)
            }),
    {
        let ghost m0 = self.contents();
        let sc = chars_of(src);
        let dc = chars_of(dst);
        let src_res = self.resolve_path(&sc);
        let dst_res = self.resolve_path(&dc);
        let src_scan = if is_dir(&src_res) && !is_root(&src_res) { sub_chars(&src_res, 0, src_res.len() - 1) } else { sub_chars(&src_res, 0, src_res.len()) };
        let dst_base = if is_dir(&dst_res) && !is_root(&dst_res) { sub_chars(&dst_res, 0, dst_res.len() - 1) } else { sub_chars(&dst_res, 0, dst_res.len()) };
        assert(src_scan@ =~= scan_base(src_res@));
        assert(dst_base@ =~= scan_base(dst_res@));
        let ghost lf = link_free(m0);
        proof {
            if lf {
                lemma_link_free_resolves(m0, src@);
                lemma_link_free_resolves(m0, dst@);
            }
        }
        if chars_equal(&src_scan, &dst_base) {
            proof { lemma_scan_base_prefix(dst_base@); }
            return Ok(());
        }
        let keys = self.tree_keys_under(&src_scan);
        if keys.len() == 0 {
            proof {
                assert forall|k: Seq<char>| #[trigger] tree_member(k, src_scan@) implies !m0.dom().contains(k) by {
                    if m0.dom().contains(k) {
                        let t = choose|t: int| 0 <= t < keys@.len() && (#[trigger] keys@[t])@ == k;
                    }
                }
            }
            return Err(message("CpTree: source not found", &sc));
        }
        assert(tree_member(keys@[0]@, src_scan@) && m0.dom().contains(keys@[0]@));
        let ghost sb = src_scan@;
        let ghost db = dst_base@;
        let ghost ks = string_views(keys@);
        let ghost go = lf && apart(sb, db);
        let ghost go2 = go && db.len() >= 2 && db[0] == PATH_SEP_CHAR && db[1] != PATH_SEP_CHAR;
        let ghost go3 = go2 && !is_dir_spec(db) && !(m0.dom().contains(db) && decode_panics(m0[db]));
        proof {
            assert forall|t: int| 0 <= t < ks.len() implies m0.dom().contains(#[trigger] ks[t]) && starts_with_seq(ks[t], sb) by {
                assert(tree_member(keys@[t]@, sb));
            }
        }
        let db_s = string_from_chars(&dst_base);
        proof {
            if lf {
                lemma_link_free_resolves(m0, db);
                lemma_link_free_no_head(m0, link_key_of(db));
            }
        }
        let _ = self.del_tree(db_s.as_str());
        proof {
            if go {
                lemma_sources_survive(m0, self.contents(), sb, db);
            }
            if go2 {
                lemma_sources_all_survive(m0, self.contents(), sb, db);
            }
            if go3 {
                assert(link_key_of(db) == db);
                assert(scan_base(db) == db);
            }
        }
        let mut k: usize = 0;
        while k < keys.len()
            invariant
                k <= keys@.len(),
                sb == src_scan@,
                db == dst_base@,
                ks == string_views(keys@),
                forall|t: int| 0 <= t < ks.len() ==> m0.dom().contains(#[trigger] ks[t]) && starts_with_seq(ks[t], sb),
                go ==> apart(sb, db),
                go ==> sources_kept(m0, self.contents(), sb),
                go ==> copied(m0, self.contents(), sb, db, ks, k as int, false),
                go2 == (go && db.len() >= 2 && db[0] == PATH_SEP_CHAR && db[1] != PATH_SEP_CHAR),
                go2 ==> sources_all_kept(m0, self.contents(), sb),
                go2 ==> all_copied(m0, self.contents(), sb, db, ks, k as int),
                go2 ==> link_free(self.contents()),
                lf == link_free(m0),
                go3 == (go2 && !is_dir_spec(db) && !(m0.dom().contains(db) && decode_panics(m0[db]))),
                go3 ==> forall|x: Seq<char>| #[trigger] self.contents().dom().contains(x) && starts_with_seq(x, db)
                    ==> exists|j: int| 0 <= j < k && x == moved_key(#[trigger] ks[j], sb, db),
            decreases keys@.len() - k,
        {
            let kc = chars_of(keys[k].as_str());
            let ghost before = self.contents();
            assert(kc@ == ks[k as int]);
            if kc.len() >= src_scan.len() {
                let suffix = sub_chars(&kc, src_scan.len(), kc.len());
                let nk = join_raw(&dst_base, &suffix);
                assert(nk@ == moved_key(kc@, sb, db));
                match self.store.get(keys[k].as_str()) {
                    Some(data) => {
                        proof {
                            if go2 {
                                assert(data@ == m0[ks[k as int]]);
                                assert(not_link(data@));
                            }
                        }
                        self.put(&nk, &data);
                    },
                    None => {},
                }
            }
            proof {
                if go {
                    lemma_copy_put(m0, before, self.contents(), sb, db, ks, k as int, false);
                }
                if go2 {
                    assert(before.dom().contains(ks[k as int]));
                    lemma_copy_put_all(m0, before, self.contents(), sb, db, ks, k as int);
                }
                if go3 {
                    let after = self.contents();
                    assert forall|x: Seq<char>| #[trigger] after.dom().contains(x) && starts_with_seq(x, db)
                        implies exists|j: int| 0 <= j < k + 1 && x == moved_key(#[trigger] ks[j], sb, db) by {
                        if before.dom().contains(x) {
                            let j = choose|j: int| 0 <= j < k && x == moved_key(#[trigger] ks[j], sb, db);
                            assert(0 <= j < k + 1);
                        } else {
                            assert(x == moved_key(ks[k as int], sb, db));
                        }
                    }
                }
            }
            k = k + 1;
        }
        let ghost m2 = self.contents();
        proof {
            if go && m0.dom().contains(sb) && !is_dir_spec(sb) && !is_dir_spec(db) {
                assert(sb.skip(sb.len() as int) =~= Seq::<char>::empty());
                assert(moved_key(sb, sb, db) =~= db);
                lemma_scan_base_prefix(sb);
                assert(sb.subrange(0, sb.len() as int) =~= sb);
                assert(tree_member(sb, sb));
                let j = choose|j: int| 0 <= j < keys@.len() && (#[trigger] keys@[j])@ == sb;
                assert(ks[j] == sb);
            }
        }
        let r = self.register_copy(&dst_base, true);
        proof {
            if go3 {
                let m3 = self.contents();
                lemma_parent_facts(db);
                assert(db != root_path());
                assert forall|x: Seq<char>| #[trigger] m3.dom().contains(x) && starts_with_seq(x, db)
                    implies exists|y: Seq<char>| #[trigger] tree_member(y, sb) && m0.dom().contains(y)
                        && x == moved_key(y, sb, db) by {
                    assert(x.len() > parent_name_spec(db).0.len());
                    assert(m2.dom().contains(x) <==> m3.dom().contains(x));
                    let j = choose|j: int| 0 <= j < keys@.len() && x == moved_key(#[trigger] ks[j], sb, db);
                    assert(ks[j] == keys@[j]@);
                    assert(tree_member(ks[j], sb) && m0.dom().contains(ks[j]));
                }
            }
            if go2 {
                let m3 = self.contents();
                let pl = parent_name_spec(db).0.len();
                lemma_parent_facts(db);
                assert(db != root_path());
                assert forall|x: Seq<char>| #[trigger] m0.dom().contains(x) && tree_member(x, sb)
                    implies m3.dom().contains(moved_key(x, sb, db)) && m3[moved_key(x, sb, db)] == m0[x] by {
                    let j = choose|j: int| 0 <= j < keys@.len() && (#[trigger] keys@[j])@ == x;
                    assert(ks[j] == x);
                    let mk = moved_key(x, sb, db);
                    assert(m2.dom().contains(mk) && m2[mk] == m0[x]);
                    assert(mk.len() > pl);
                    assert(m2.dom().contains(mk) <==> m3.dom().contains(mk));
                }
            }
            if go {
                assert forall|x: Seq<char>| #[trigger] m0.dom().contains(x) && tree_member(x, sb)
                    && !is_dir_spec(x) && !is_dir_spec(moved_key(x, sb, db))
                    implies self.contents().dom().contains(moved_key(x, sb, db))
                        && self.contents()[moved_key(x, sb, db)] == m0[x] by {
                    let j = choose|j: int| 0 <= j < keys@.len() && (#[trigger] keys@[j])@ == x;
                    assert(ks[j] == x);
                    assert(m2.dom().contains(moved_key(x, sb, db)));
                }
            }
        }
        r
    }

    /// Copies a value and its direct members (one level of `·`, no `/` children) from `src`
    /// to `dst`, replacing what `dst` held, and registers `dst` under its parent. In a store
    /// without links, where neither subtree lies inside the other, the value under `src` and
    /// each of its direct members that is not a directory index land under `dst`.
    #[verifier::rlimit(100)]
    #[verifier::spinoff_prover]
    pub fn cp_list(&mut self, src: &str, dst: &str) -> (r: Result<(), String>)
        ensures
            settles(old(self).contents(), src@) && settles(old(self).contents(), dst@) ==> ({
                let sb = scan_base(resolved(old(self).contents(), src@));
                let db = scan_base(resolved(old(self).contents(), dst@));
                &&& sb == db ==> r is Ok && final(self).contents() == old(self).contents()
                &&& sb != db && (forall|k: Seq<char>| !#[trigger] crate::store::keys_with_prefix(old(self).contents(), sb).contains(k))
                    ==> r is Err && final(self).contents() == old(self).contents()
                &&& r is Err && sb != db && (exists|k: Seq<char>| #[trigger] crate::store::keys_with_prefix(old(self).contents(), sb).contains(k))
                    ==> register_copy_fails(final(self).contents(), db)
            }),
            r is Ok && link_free(old(self).contents()) ==> ({
                let sb = scan_base(src@);
                let db = scan_base(dst@);
                apart(sb, db) ==> ({
                    &&& forall|k: Seq<char>| #[trigger] old(self).contents().dom().contains(k) && starts_with_seq(k, sb)
                            && one_level_spec(k.skip(sb.len() as int))
                            && !is_dir_spec(k) && !is_dir_spec(moved_key(k, sb, db))
                            ==> final(self).contents().dom().contains(moved_key(k, sb, db))
                                && final(self).contents()[moved_key(k, sb, db)] == old(self).contents()[k]
                    &&& old(self).contents().dom().contains(sb) && !is_dir_spec(sb) && !is_dir_spec(db)
                        && nul_free(parent_name_spec(db).1) && parent_name_spec(db).1.len() > 0
                        ==> listed(final(self).contents(), parent_name_spec(db).0, parent_name_spec(db).1)
                })
            }),
    {
        let ghost m0 = self.contents();
        let sc = chars_of(src);
        let dc = chars_of(dst);
        let src_res = self.resolve_path(&sc);
        let dst_res = self.resolve_path(&dc);
        let src_base = if is_dir(&src_res) && !is_root(&src_res) { sub_chars(&src_res, 0, src_res.len() - 1) } else { sub_chars(&src_res, 0, src_res.len()) };
        let dst_base = if is_dir(&dst_res) && !is_root(&dst_res) { sub_chars(&dst_res, 0, dst_res.len() - 1) } else { sub_chars(&dst_res, 0, dst_res.len()) };
        assert(src_base@ =~= scan_base(src_res@));
        assert(dst_base@ =~= scan_base(dst_res@));
        let ghost lf = link_free(m0);
        proof {
            if lf {
                lemma_link_free_resolves(m0, src@);
                lemma_link_free_resolves(m0, dst@);
            }
        }
        if chars_equal(&src_base, &dst_base) {
            proof { lemma_scan_base_prefix(dst_base@); }
            return Ok(());
        }
        let scan_s = string_from_chars(&src_base);
        let keys = self.store.scan_keys(scan_s.as_str());
        if keys.len() == 0 {
            proof {
                assert forall|k: Seq<char>| !crate::store::keys_with_prefix(self.contents(), scan_s@).contains(k) by {
                    if crate::store::keys_with_prefix(self.contents(), scan_s@).contains(k) {
                        let i = choose|i: int| 0 <= i < keys@.len() && (#[trigger] keys@[i])@ == k;
                    }
                }
            }
            return Err(message("CpList: source not found", &sc));
        }
        proof {
            let k0 = keys@[0]@;
            assert(exists|i: int| 0 <= i < keys@.len() && (#[trigger] keys@[i])@ == k0);
            assert(crate::store::keys_with_prefix(self.contents(), scan_s@).contains(k0));
        }
        let ghost sb = src_base@;
        let ghost db = dst_base@;
        let ghost ks = string_views(keys@);
        let ghost go = lf && apart(sb, db);
        proof {
            assert forall|t: int| 0 <= t < ks.len() implies m0.dom().contains(#[trigger] ks[t]) && starts_with_seq(ks[t], sb) by {
                assert(exists|i: int| 0 <= i < keys@.len() && (#[trigger] keys@[i])@ == ks[t]);
                assert(crate::store::keys_with_prefix(m0, sb).contains(ks[t]));
            }
        }
        let db_s = string_from_chars(&dst_base);
        proof {
            if lf {
                lemma_link_free_resolves(m0, db);
                lemma_link_free_no_head(m0, link_key_of(db));
            }
        }
        let _ = self.del_tree(db_s.as_str());
        proof {
            if go {
                lemma_sources_survive(m0, self.contents(), sb, db);
            }
        }
        let mut k: usize = 0;
        while k < keys.len()
            invariant
                k <= keys@.len(),
                sb == src_base@,
                db == dst_base@,
                ks == string_views(keys@),
                forall|t: int| 0 <= t < ks.len() ==> m0.dom().contains(#[trigger] ks[t]) && starts_with_seq(ks[t], sb),
                go ==> apart(sb, db),
                go ==> sources_kept(m0, self.contents(), sb),
                go ==> copied(m0, self.contents(), sb, db, ks, k as int, true),
            decreases keys@.len() - k,
        {
            let kc = chars_of(keys[k].as_str());
            let ghost before = self.contents();
            assert(kc@ == ks[k as int]);
            if kc.len() >= src_base.len() {
                let suffix = sub_chars(&kc, src_base.len(), kc.len());
                assert(suffix@ =~= kc@.skip(sb.len() as int));
                if one_level(&suffix) {
                    let nk = join_raw(&dst_base, &suffix);
                    assert(nk@ == moved_key(kc@, sb, db));
                    match self.store.get(keys[k].as_str()) {
                        Some(data) => { self.put(&nk, &data); },
                        None => {},
                    }
                }
            }
            proof {
                if go {
                    lemma_copy_put(m0, before, self.contents(), sb, db, ks, k as int, true);
                }
            }
            k = k + 1;
        }
        let ghost m2 = self.contents();
        proof {
            if go && m0.dom().contains(sb) && !is_dir_spec(sb) && !is_dir_spec(db) {
                assert(sb.skip(sb.len() as int) =~= Seq::<char>::empty());
                assert(moved_key(sb, sb, db) =~= db);
                lemma_scan_base_prefix(sb);
                assert(crate::store::keys_with_prefix(m0, sb).contains(sb));
                let j = choose|j: int| 0 <= j < keys@.len() && (#[trigger] keys@[j])@ == sb;
                assert(ks[j] == sb);
                assert(one_level_spec(sb.skip(sb.len() as int)));
            }
        }
        let r = self.register_copy(&dst_base, false);
        proof {
            if go {
                assert forall|x: Seq<char>| #[trigger] m0.dom().contains(x) && starts_with_seq(x, sb)
                    && one_level_spec(x.skip(sb.len() as int))
                    && !is_dir_spec(x) && !is_dir_spec(moved_key(x, sb, db))
                    implies self.contents().dom().contains(moved_key(x, sb, db))
                        && self.contents()[moved_key(x, sb, db)] == m0[x] by {
                    assert(crate::store::keys_with_prefix(m0, sb).contains(x));
                    let j = choose|j: int| 0 <= j < keys@.len() && (#[trigger] keys@[j])@ == x;
                    assert(ks[j] == x);
                    assert(m2.dom().contains(moved_key(x, sb, db)));
                }
            }
        }
        r
    }

    /// One `mkindex` step: a directory without entries is registered in its parent.
    fn register_dir(&mut self, cur: &[char]) -> (r: Result<(), String>)
        requires
            cur@.len() >= 2,
            cur@[0] == PATH_SEP_CHAR,
            is_dir_spec(cur@),
        ensures
            final(self).contents().remove(parent_name_spec(cur@).0) == old(self).contents().remove(parent_name_spec(cur@).0),
            r is Ok && nul_free(parent_name_spec(cur@).1) ==> listed(final(self).contents(), parent_name_spec(cur@).0,
                parent_name_spec(cur@).1.push(PATH_SEP_CHAR)) || dir_names(stored(old(self).contents(), cur@)).len() > 0,
            r is Ok <==> dir_ok(stored(old(self).contents(), cur@)) && (dir_names(stored(old(self).contents(), cur@)).len() > 0
                || add_child_ok(old(self).contents(), parent_name_spec(cur@).0, parent_name_spec(cur@).1.push(PATH_SEP_CHAR))),
            r is Err ==> final(self).contents() == old(self).contents(),
            dir_names(stored(old(self).contents(), cur@)).len() > 0 ==> final(self).contents() == old(self).contents(),
    {
        let existing = self.dir_entries(cur)?;
        if existing.len() == 0 {
            let (parent, name) = parent_name(cur);
            let named = with_char(&name, PATH_SEP_CHAR);
            proof {
                if nul_free(name@) {
                    assert forall|t: int| 0 <= t < named@.len() implies named@[t] != '\0' by {
                        if t < name@.len() {
                            assert(named@[t] == name@[t]);
                        }
                    }
                    assert(!named@.contains('\0'));
                }
            }
            self.add_child(&parent, &named)
        } else {
            assert(string_views(existing@).len() > 0);
            Ok(())
        }
    }

    /// Rewrites the directory index `dir` with at least `capacity` reserved rows, keeping its
    /// entries and row width.
    fn reserve_rows(&mut self, dir: &[char], capacity: u32) -> (r: Result<(), String>)
        requires
            is_dir_spec(dir@),
        ensures
            r is Ok <==> reserve_rows_ok(old(self).contents(), dir@, capacity as nat),
            r is Err ==> final(self).contents() == old(self).contents(),
            final(self).contents().remove(dir@) == old(self).contents().remove(dir@),
            r is Ok ==> (index_geom(final(self).contents(), dir@) matches Some((dims, _))
                && crate::xvalue_index::matrix_cap_spec(dims) >= capacity),
    {
        let ghost m0 = self.contents();
        let nodes = match self.dir_entries(dir) {
            Ok(n) => n,
            Err(e) => {
                assert(!reserve_rows_ok(m0, dir@, capacity as nat)) by { reveal(reserve_rows_ok); }
                return Err(e);
            },
        };
        let ck = string_from_chars(dir);
        let old_m: usize = match self.store.get(ck.as_str()) {
            Some(d) => {
                if decode_would_panic(d.as_slice()) {
                    0
                } else {
                    let w = matrix_width(&decode_xvalue_head(d.as_slice()).dims());
                    assert(w as nat == head_width(m0, dir@)) by { reveal(head_width); }
                    w
                }
            },
            None => 0,
        };
        assert(old_m as nat == kept_width(m0, dir@));
        let cap = match grow_cap_checked(capacity as usize, nodes.len()) {
            Some(c) => c,
            None => {
                assert(!reserve_rows_ok(m0, dir@, capacity as nat)) by { reveal(reserve_rows_ok); }
                return Err(string_of("kvspace: index too large"));
            },
        };
        assert(reserve_rows_ok(m0, dir@, capacity as nat)
            == index_encodable(string_views(nodes@), cap as nat, old_m as nat, None)) by { reveal(reserve_rows_ok); }
        proof {
            if capacity > 0 {
                crate::xvalue_index::lemma_double_until(capacity as nat, nodes@.len() as nat);
            }
        }
        let b = index_bytes(&nodes, cap, old_m, None)?;
        let ghost before = self.contents();
        self.store.set(ck.as_str(), &b);
        proof {
            assert(self.contents().remove(dir@) =~= before.remove(dir@));
            lemma_cap_reserved(string_views(nodes@), cap as nat, old_m as nat, capacity as nat);
        }
        Ok(())
    }

    /// Creates every directory along `path` (like `mkdir -p`, links followed); with a
    /// capacity, the last directory reserves that many rows. Only directory indexes change.
    /// The last directory ends up listed in its parent unless it already held entries.
    #[verifier::rlimit(100)]
    #[verifier::spinoff_prover]
    pub fn mkindex(&mut self, path: &str, capacity: u32) -> (r: Result<(), String>)
        ensures
            !is_dir_spec(path@) ==> r is Err && final(self).contents() == old(self).contents(),
            same_off_dirs(old(self).contents(), final(self).contents()),
            r is Ok && settles(old(self).contents(), path@) ==> ({
                let d = mkindex_dir(old(self).contents(), path@);
                let (pd, nm) = parent_name_spec(d);
                &&& d != root_path() && nul_free(nm) ==> listed(final(self).contents(), pd, nm.push(PATH_SEP_CHAR))
                    || dir_names(stored(old(self).contents(), d)).len() > 0
                &&& d != root_path() && capacity > 0 ==> (index_geom(final(self).contents(), d) matches Some((dims, _))
                    && crate::xvalue_index::matrix_cap_spec(dims) >= capacity)
            }),
            r is Ok && settles(old(self).contents(), path@) ==> ({
                let pv = path_parts(resolved(old(self).contents(), path@));
                plain_segments(pv) ==> forall|t: nat| 1 <= t <= pv.len() && nul_free(pv[t - 1])
                    ==> listed(final(self).contents(), parent_name_spec(#[trigger] dir_chain(pv, t)).0, pv[t - 1].push(PATH_SEP_CHAR))
                        || dir_names(stored(old(self).contents(), dir_chain(pv, t))).len() > 0
            }),
            r is Err && is_dir_spec(path@) && settles(old(self).contents(), path@) ==> ({
                let pv = path_parts(resolved(old(self).contents(), path@));
                let d = mkindex_dir(old(self).contents(), path@);
                ||| exists|i: nat| 1 <= i <= pv.len() && #[trigger] register_fails(final(self).contents(), dir_chain(pv, i))
                ||| capacity > 0 && d != root_path() && !reserve_rows_ok(final(self).contents(), d, capacity as nat)
            }),
    {
        let ghost m0 = self.contents();
        let pc = chars_of(path);
        if !is_dir(&pc) {
            let mut msg = string_of(ERR_DIR_MUST_END_WITH_SLASH);
            push_str(&mut msg, ": Mkindex ");
            push_str(&mut msg, path);
            return Err(msg);
        }
        let resolved = self.resolve_path(&pc);
        let parts = path_parts_exec(&resolved);
        let ghost pv = path_parts(resolved@);
        let ghost n = pv.len();
        let ghost d = dir_chain(pv, n);
        proof { lemma_dir_chain(pv, 0, n); }
        let mut cur: Vec<char> = Vec::new();
        cur.push(PATH_SEP_CHAR);
        assert(cur@ =~= root_path());
        let mut i: usize = 0;
        proof {
            reveal(chain_kept);
            reveal(chain_registered);
        }
        while i < parts.len()
            invariant
                is_dir_spec(path@),
                i <= parts@.len(),
                parts@.len() == n,
                forall|j: int| 0 <= j < parts@.len() ==> (#[trigger] parts@[j])@ == pv[j],
                cur@ == dir_chain(pv, i as nat),
                d == dir_chain(pv, n),
                pv == path_parts(resolved@),
                n == pv.len(),
                settles(m0, path@) ==> resolved@ == self::resolved(m0, path@),
                m0 == old(self).contents(),
                same_off_dirs(m0, self.contents()),
                i < n ==> (self.contents().dom().contains(d) <==> m0.dom().contains(d))
                    && (m0.dom().contains(d) ==> self.contents()[d] == m0[d]),
                i == n && n > 0 && nul_free(parent_name_spec(d).1) ==> listed(self.contents(), parent_name_spec(d).0,
                    parent_name_spec(d).1.push(PATH_SEP_CHAR)) || dir_names(stored(m0, d)).len() > 0,
                chain_kept(self.contents(), m0, pv, i as nat),
                chain_registered(self.contents(), m0, pv, i as nat),
            decreases parts@.len() - i,
        {
            let j = join_chars(&cur, parts[i].as_slice());
            cur = with_char(&chars_of(j.as_str()), PATH_SEP_CHAR);
            assert(cur@ == dir_chain(pv, (i + 1) as nat));
            proof {
                lemma_dir_chain(pv, (i + 1) as nat, n);
                lemma_dir_chain(pv, (i + 1) as nat, (i + 1) as nat);
                lemma_parent_name_shorter(cur@);
                lemma_split_parent_dir(cur@);
            }
            let ghost before = self.contents();
            let ghost pk = parent_name_spec(cur@).0;
            let step = self.register_dir(&cur);
            proof {
                if step is Ok {
                    lemma_mkindex_step(m0, before, self.contents(), pv, i as nat);
                }
                lemma_same_off_dirs_except(before, self.contents(), pk);
                lemma_same_off_dirs_trans(m0, before, self.contents());
                if i + 1 < n {
                    assert(pk != d);
                    assert(self.contents().remove(pk).dom().contains(d) == before.remove(pk).dom().contains(d));
                    if before.dom().contains(d) {
                        assert(self.contents().remove(pk)[d] == before.remove(pk)[d]);
                    }
                }
            }
            if step.is_err() {
                assert(register_fails(self.contents(), dir_chain(pv, (i + 1) as nat)));
                proof {
                    if settles(m0, path@) {
                        let pw = path_parts(self::resolved(m0, path@));
                        assert(pw == pv);
                        assert(1 <= (i + 1) as nat <= pw.len());
                        assert(exists|t: nat| 1 <= t <= pw.len() && #[trigger] register_fails(self.contents(), dir_chain(pw, t)));
                    }
                }
                return step;
            }
            i = i + 1;
        }
        if capacity > 0 && !is_root(&cur) {
            let ghost before = self.contents();
            let reserved = self.reserve_rows(&cur, capacity);
            proof {
                lemma_mkindex_reserve(m0, before, self.contents(), pv);
                lemma_same_off_dirs_except(before, self.contents(), cur@);
                lemma_same_off_dirs_trans(m0, before, self.contents());
                if n > 0 {
                    lemma_parent_name_shorter(d);
                    let pd = parent_name_spec(d).0;
                    assert(pd != d);
                    assert(self.contents().remove(d).dom().contains(pd) == before.remove(d).dom().contains(pd));
                    if before.dom().contains(pd) {
                        assert(self.contents().remove(d)[pd] == before.remove(d)[pd]);
                    }
                }
            }
            if reserved.is_err() {
                assert(cur@ == d);
                return reserved;
            }
        }
        proof {
            reveal(chain_registered);
        }
        Ok(())
    }

    /// Creates an extension index at `path` (a writable layer) over the read-only directory
    /// `ext_path`. Fails when either is not a directory path, or when `ext_path` is itself an
    /// extension index.
    pub fn ext_index(&mut self, path: &str, ext_path: &str) -> (r: Result<(), String>)
        ensures
            !is_dir_spec(path@) || !is_dir_spec(ext_path@) ==> r is Err && final(self).contents() == old(self).contents(),
            is_dir_spec(path@) && is_dir_spec(ext_path@) && holds_ext_index(old(self).contents(), ext_path@)
                ==> r is Err && final(self).contents() == old(self).contents(),
            r is Ok && settles(old(self).contents(), sep_path_spec(parent_clean(path@)).0) ==> ({
                let rp = resolved_parent_spec(old(self).contents(), path@);
                let (pd, nm) = parent_name_spec(rp);
                &&& rp.len() >= 2 && rp[0] == PATH_SEP_CHAR ==> final(self).contents().dom().contains(rp)
                    && final(self).contents()[rp] == crate::xvalue_codec::encode_value(XV::ExtIndex(seq![], ext_path@))
                &&& nul_free(nm) ==> listed(final(self).contents(), pd, nm.push(PATH_SEP_CHAR))
            }),
            r is Err && settles(old(self).contents(), sep_path_spec(parent_clean(path@)).0) ==> ({
                let (pd, nm) = parent_name_spec(resolved_parent_spec(old(self).contents(), path@));
                ||| !is_dir_spec(path@) || !is_dir_spec(ext_path@) || holds_ext_index(old(self).contents(), ext_path@)
                ||| has_dir_trouble(final(self).contents())
                ||| !index_encodable(seq![], 0, 0, Some(ext_path@))
                ||| !add_child_ok(final(self).contents(), pd, nm.push(PATH_SEP_CHAR))
            }),
    {
        let pc = chars_of(path);
        let ec = chars_of(ext_path);
        if !is_dir(&pc) || !is_dir(&ec) {
            let mut msg = string_of(ERR_DIR_MUST_END_WITH_SLASH);
            push_str(&mut msg, ": ExtIndex path=");
            push_str(&mut msg, path);
            push_str(&mut msg, " extpath=");
            push_str(&mut msg, ext_path);
            return Err(msg);
        }
        if self.ext_index_at(&ec) {
            return Err(message(ERR_EXT_CASCADE, &ec));
        }
        let resolved = self.resolve_parent(&pc);
        let (parent, name) = parent_name(&resolved);
        proof { lemma_split_parent_dir(resolved@); }
        self.ensure_parent_dir(&parent, usize::MAX)?;
        let none: Vec<String> = Vec::new();
        assert(string_views(none@) =~= Seq::<Seq<char>>::empty());
        let b = index_bytes(&none, 0, 0, Some(ext_path))?;
        self.put(&resolved, &b);
        proof {
            if resolved@.len() >= 2 && resolved@[0] == PATH_SEP_CHAR && is_dir_spec(resolved@) {
                lemma_parent_name_shorter(resolved@);
            }
        }
        let ghost before = self.contents();
        let named = with_char(&name, PATH_SEP_CHAR);
        proof {
            if nul_free(name@) {
                assert forall|t: int| 0 <= t < named@.len() implies named@[t] != '\0' by {
                    if t < name@.len() {
                        assert(named@[t] == name@[t]);
                    }
                }
                assert(!named@.contains('\0'));
            }
        }
        let r = self.add_child(&parent, &named);
        proof {
            if resolved@.len() >= 2 && resolved@[0] == PATH_SEP_CHAR && is_dir_spec(resolved@) {
                assert(parent@ != resolved@);
                assert(self.contents().remove(parent@).dom().contains(resolved@));
                assert(self.contents().remove(parent@)[resolved@] == before.remove(parent@)[resolved@]);
            }
        }
        r
    }

    /// Removes an extension index (or a link standing in its place) and drops it from its
    /// parent index. Keys only go away: the link when one stands there, else the index.
    pub fn del_ext_index(&mut self, path: &str) -> (r: Result<(), String>)
        ensures
            final(self).contents().dom().subset_of(old(self).contents().dom()),
            settles(old(self).contents(), sep_path_spec(parent_clean(path@)).0) ==> ({
                let rp = resolved_parent_spec(old(self).contents(), path@);
                let lk = dir_link_key(rp);
                &&& link_head(old(self).contents(), lk) ==> final(self).contents().dom() == old(self).contents().dom().remove(lk)
                &&& !link_head(old(self).contents(), lk)
                    && !(old(self).contents().dom().contains(lk) && decode_panics(old(self).contents()[lk]))
                    ==> final(self).contents().dom() == old(self).contents().dom().remove(rp)
                &&& old(self).contents().dom().contains(lk) && decode_panics(old(self).contents()[lk])
                    ==> r is Err && final(self).contents() == old(self).contents()
                &&& !(old(self).contents().dom().contains(lk) && decode_panics(old(self).contents()[lk])) ==> ({
                    let k = if link_head(old(self).contents(), lk) { lk } else { rp };
                    r is Ok <==> remove_child_ok(old(self).contents().remove(k), parent_name_spec(rp).0, seq![parent_name_spec(rp).1])
                })
                &&& r is Ok && names_nul_free(dir_names(stored(old(self).contents(), parent_name_spec(rp).0)))
                    ==> !listed(final(self).contents(), parent_name_spec(rp).0, parent_name_spec(rp).1)
                        && !listed(final(self).contents(), parent_name_spec(rp).0, parent_name_spec(rp).1.push(PATH_SEP_CHAR))
            }),
    {
        let pc = chars_of(path);
        let resolved = self.resolve_parent(&pc);
        let link_key = if is_dir(&resolved) { strip_chars(&resolved) } else { sub_chars(&resolved, 0, resolved.len()) };
        assert(resolved@.subrange(0, resolved@.len() as int) =~= resolved@);
        assert(link_key@ == dir_link_key(resolved@));
        let (parent, name) = parent_name(&resolved);
        let mut names: Vec<String> = Vec::new();
        names.push(string_from_chars(&name));
        assert(string_views(names@) =~= seq![name@]);
        let ghost m0 = self.contents();
        let is_link = self.ptr_at(&link_key)?;
        let ghost k = if is_link { link_key@ } else { resolved@ };
        let mut one: Vec<Vec<char>> = Vec::new();
        if is_link {
            one.push(link_key);
        } else {
            one.push(sub_chars(&resolved, 0, resolved.len()));
        }
        assert(char_key_set(one@) =~= set![k]) by {
            assert forall|x: Seq<char>| char_key_set(one@).contains(x) <==> x == k by {
                if x == k {
                    assert(one@[0]@ == k);
                }
            }
        }
        self.remove_keys(&one);
        let ghost m1 = self.contents();
        assert(m1.dom() =~= m0.dom().remove(k));
        proof {
            if !m1.dom().contains(parent@) {
                assert(dir_names(stored(m1, parent@)) =~= Seq::<Seq<char>>::empty());
            } else {
                assert(m1[parent@] == m0[parent@]);
            }
        }
        assert(m1 =~= m0.remove(k));
        let r = self.remove_child(&parent, &names);
        proof {
            if r is Ok && names_nul_free(dir_names(stored(m0, parent@))) {
                assert(names_nul_free(dir_names(stored(m1, parent@))));
                if listed(self.contents(), parent@, name@) {
                    assert(!unnamed(name@, string_views(names@))) by {
                        assert(string_views(names@)[0] == name@);
                    }
                }
                if listed(self.contents(), parent@, name@.push(PATH_SEP_CHAR)) {
                    assert(!unnamed(name@.push(PATH_SEP_CHAR), string_views(names@))) by {
                        assert(string_views(names@)[0] == name@);
                    }
                }
            }
        }
        r
    }

    /// Removes every key.
    pub fn clear(&mut self) -> (r: Result<(), String>)
        ensures
            r is Ok,
            final(self).contents() == Map::<Seq<char>, Seq<u8>>::empty(),
    {
        self.store.flush();
        Ok(())
    }

    /// Disconnecting keeps nothing open: always succeeds.
    pub fn dis_conn(&mut self) -> (r: Result<(), String>)
        ensures
            r is Ok,
            final(self).contents() == old(self).contents(),
    {
        Ok(())
    }

    /// One hop of link resolution; see [`resolve_one_spec`].
    fn resolve_one(&self, path: &[char]) -> (r: (Vec<char>, bool))
        ensures
            r.0@ == resolve_one_spec(self.contents(), path@).0,
            r.1 == resolve_one_spec(self.contents(), path@).1,
    {
        let whole = sub_chars(path, 0, path.len());
        assert(path@.subrange(0, path@.len() as int) == path@);
        if is_root(path) {
            return (whole, false);
        }
        let parts = path_parts_exec(path);
        let ghost ps = Seq::new(parts@.len(), |j: int| parts@[j]@);
        assert(ps =~= path_parts(path@));
        let mut cur: Vec<char> = Vec::new();
        cur.push(PATH_SEP_CHAR);
        assert(cur@ =~= root_path());
        let mut i: usize = 0;
        while i < parts.len()
            invariant
                i <= parts@.len(),
                path@ != root_path(),
                whole@ == path@,
                ps == path_parts(path@),
                ps == Seq::new(parts@.len(), |j: int| parts@[j]@),
                i == 0 ==> cur@ == root_path(),
                i > 0 ==> cur@ == prefix_path(ps, (i - 1) as nat),
                first_ptr(self.contents(), ps, 0) == first_ptr(self.contents(), ps, i as nat),
            decreases parts@.len() - i,
        {
            let next_s = join_chars(&cur, parts[i].as_slice());
            let next = chars_of(next_s.as_str());
            let ghost pi = prefix_path(ps, i as nat);
            assert(next@ == pi);
            let v = self.value_at(&next);
            assert(v@ == stored(self.contents(), prefix_path(ps, i as nat)));
            if let XValue::Ptr(p) = v {
                assert(first_ptr(self.contents(), ps, i as nat) == Some(i as nat));
                let target = chars_of(p.target.as_str());
                assert(stored(self.contents(), prefix_path(ps, i as nat)) == XV::Ptr(p.target_kindexpr@, p.target@));
                assert(path_parts(path@).len() == parts@.len());
                if i + 1 < parts.len() {
                    let rest = join_parts_from(&parts, i + 1);
                    assert(Seq::new(parts@.len(), |j: int| parts@[j]@) =~= ps);
                    let out = join_chars(&target, &rest);
                    proof { lemma_resolve_one_found(self.contents(), path@, i as nat, p.target@); }
                    return (chars_of(out.as_str()), true);
                }
                proof { lemma_resolve_one_found(self.contents(), path@, i as nat, p.target@); }
                return (target, true);
            }
            cur = next;
            i = i + 1;
        }
        (whole, false)
    }

    /// Follows links until no prefix of the path holds a pointer. A chain of links that never
    /// settles keeps the loop running; it is bounded by `usize::MAX` hops.
    /// Whether link resolution of `path` settles within `hops` hops; `true` means it settles
    /// (the precondition of the reads that follow links).
    pub fn settles_within(&self, path: &str, hops: usize) -> (r: bool)
        ensures
            r ==> settles(self.contents(), path@),
    {
        let pc = chars_of(path);
        let mut cur = pc;
        let mut k: usize = 0;
        while k < hops
            invariant
                k <= hops,
                forall|n: nat| #[trigger] resolve_steps(self.contents(), cur@, n) is Some
                    ==> resolve_steps(self.contents(), path@, n + k as nat) is Some,
            decreases hops - k,
        {
            let (r, changed) = self.resolve_one(&cur);
            if !changed {
                proof {
                    assert(resolve_steps(self.contents(), cur@, 0) is Some);
                    assert(resolve_steps(self.contents(), path@, 0 + k as nat) is Some);
                    lemma_resolve_steps_mono(self.contents(), path@, k as nat, usize::MAX as nat);
                }
                return true;
            }
            proof {
                assert forall|n: nat| #[trigger] resolve_steps(self.contents(), r@, n) is Some
                    implies resolve_steps(self.contents(), path@, n + k as nat + 1) is Some by {
                    assert(resolve_steps(self.contents(), cur@, n + 1) == resolve_steps(self.contents(), r@, n));
                    assert(resolve_steps(self.contents(), path@, (n + 1) + k as nat) is Some);
                }
            }
            cur = r;
            k = k + 1;
        }
        false
    }

    /// Whether `get` may read under `prefix`: a directory prefix whose links settle within
    /// `hops` hops when they are followed.
    pub fn can_get(&self, prefix: &str, resolve: bool, hops: usize) -> (r: bool)
        ensures
            r ==> (prefix@ == root_path() || is_dir_spec(prefix@)) && (resolve ==> settles(self.contents(), prefix@)),
    {
        let pc = chars_of(prefix);
        if !is_root(&pc) && !is_dir(&pc) {
            return false;
        }
        !resolve || self.settles_within(prefix, hops)
    }

    /// Whether `list`, `list_len` and `list_at` may read under `prefix`: `can_get`, and the
    /// directory (and, when expanded, its extension) holds directory values.
    pub fn can_list(&self, prefix: &str, expand_ext: bool, resolve: bool, hops: usize) -> (r: bool)
        ensures
            r ==> (prefix@ == root_path() || is_dir_spec(prefix@)) && (resolve ==> settles(self.contents(), prefix@))
                && list_ok(self.contents(), dir_for(self.contents(), prefix@, resolve), expand_ext),
    {
        if !self.can_get(prefix, resolve, hops) {
            return false;
        }
        let pc = chars_of(prefix);
        let d = if resolve { self.resolve_path(&pc) } else { pc };
        if !is_dir(&d) {
            return true;
        }
        if self.dir_entries(&d).is_err() {
            return false;
        }
        if expand_ext {
            let e = self.prefix_ext(&d);
            if e.len() > 0 && self.dir_entries(&e).is_err() {
                return false;
            }
        }
        true
    }

    fn resolve_path(&self, path: &[char]) -> (r: Vec<char>)
        ensures
            settles(self.contents(), path@) ==> r@ == resolved(self.contents(), path@),
    {
        let mut cur = sub_chars(path, 0, path.len());
        assert(path@.subrange(0, path@.len() as int) == path@);
        let mut k: usize = 0;
        while k < usize::MAX
            invariant
                settles(self.contents(), path@) ==> resolve_steps(self.contents(), cur@, (usize::MAX - k) as nat)
                    == resolve_steps(self.contents(), path@, usize::MAX as nat),
            decreases usize::MAX - k,
        {
            let (r, changed) = self.resolve_one(&cur);
            if !changed {
                proof {
                    if settles(self.contents(), path@) {
                        lemma_resolved_steps(self.contents(), path@, usize::MAX as nat);
                    }
                }
                return r;
            }
            cur = r;
            k = k + 1;
        }
        proof {
            if settles(self.contents(), path@) {
                lemma_resolved_steps(self.contents(), path@, usize::MAX as nat);
            }
        }
        cur
    }
}


/// A read gives back what a write stored: when the entry `n` of directory `d` holds the
/// encoding of a value (as `set` leaves it for a plain key), reading entry `n` of `d` gives
/// the value back, its member list in canonical order, for every value whose encoding reads
/// back.
pub proof fn law_read_after_write(m: Map<Seq<char>, Seq<u8>>, d: Seq<char>, n: Seq<char>, v: XV)
    requires
        m.dom().contains(join_path_spec(d, n)),
        m[join_path_spec(d, n)] == crate::xvalue_codec::encode_value(v),
        crate::xvalue_laws::roundtrip_ok(v),
    ensures
        get_entry(m, d, n) == crate::xvalue_laws::canonical(v),
{
    crate::xvalue_laws::lemma_value_roundtrip(v);
}

/// No stored value is a pointer: no path is redirected.
pub open spec fn link_free(m: Map<Seq<char>, Seq<u8>>) -> bool {
    forall|k: Seq<char>| #[trigger] m.dom().contains(k) ==> !(decode_stored_spec(m[k]) is Ptr)
}

/// Bytes that do not read back as a pointer.
pub open spec fn not_link(b: Seq<u8>) -> bool {
    !(decode_stored_spec(b) is Ptr)
}

/// An inline encoding (`ref` 0) never reads back as a pointer.
proof fn lemma_inline_not_link(kind: Seq<char>, dims: Seq<i32>, raw: Seq<u8>, ro: bool, vid: u32)
    ensures
        not_link(encode_head_perm_spec(kind, 0, dims, raw, ro, vid)),
{
    let d = encode_head_perm_spec(kind, 0, dims, raw, ro, vid);
    crate::le::lemma_le_bytes_len(crate::xvalue::encoded_headlen(kind, 0, dims), 2);
    assert(d[2] == 0);
    assert(decode_head_spec(d).reference == 0);
}

/// The encoding of a value that is not a pointer never reads back as one.
proof fn lemma_value_not_link(v: XV)
    requires
        !(v is Ptr),
    ensures
        not_link(crate::xvalue_codec::encode_value(v)),
{
    match v {
        XV::Nil => {
            assert(decode_head_spec(Seq::<u8>::empty()) == crate::xvalue::empty_head());
        },
        XV::Bool(d, dims) => lemma_inline_not_link(crate::consts::KIND_BOOL@, dims, crate::xvalue_bool::bool_body(d), false, 0),
        XV::Int8(d, dims) => lemma_inline_not_link(crate::consts::KIND_INT8@, dims, crate::xvalue_int::int8_body(d), false, 0),
        XV::Int16(d, dims) => lemma_inline_not_link(crate::consts::KIND_INT16@, dims, crate::xvalue_int::int16_body(d), false, 0),
        XV::Int32(d, dims) => lemma_inline_not_link(crate::consts::KIND_INT32@, dims, crate::xvalue_int::int32_body(d), false, 0),
        XV::Int64(d, dims) => lemma_inline_not_link(crate::consts::KIND_INT64@, dims, crate::xvalue_int::int64_body(d), false, 0),
        XV::Uint8(d, dims) => lemma_inline_not_link(crate::consts::KIND_UINT8@, dims, d, false, 0),
        XV::Uint16(d, dims) => lemma_inline_not_link(crate::consts::KIND_UINT16@, dims, crate::xvalue_uint::uint16_body(d), false, 0),
        XV::Uint32(d, dims) => lemma_inline_not_link(crate::consts::KIND_UINT32@, dims, crate::xvalue_uint::uint32_body(d), false, 0),
        XV::Uint64(d, dims) => lemma_inline_not_link(crate::consts::KIND_UINT64@, dims, crate::xvalue_uint::uint64_body(d), false, 0),
        XV::Float32(d, dims) => lemma_inline_not_link(crate::consts::KIND_FLOAT32@, dims, crate::xvalue_uint::uint32_body(d), false, 0),
        XV::Float64(d, dims) => lemma_inline_not_link(crate::consts::KIND_FLOAT64@, dims, crate::xvalue_uint::uint64_body(d), false, 0),
        XV::CharByte(d, dims) => lemma_inline_not_link(crate::consts::KIND_CHAR_UTF8@, dims, d, false, 0),
        XV::CharAscii(d, dims) => lemma_inline_not_link(crate::consts::KIND_CHAR_ASCII@, dims, d, false, 0),
        XV::Char32(d, dims) => lemma_inline_not_link(crate::consts::KIND_CHAR@, dims, crate::xvalue_uint::uint32_body(d), false, 0),
        XV::MapVal(lt, dims) => lemma_inline_not_link(lt, dims, seq![], false, 0),
        XV::Index(c) => {
            let (d, b) = crate::xvalue_index::encode_index_spec(c, 0, 0);
            lemma_inline_not_link(KIND_INDEX@, d, b, false, 0);
        },
        XV::ExtIndex(c, p) => {
            let (d, b) = crate::xvalue_index::encode_ext_index_spec(p, c, 0, 0);
            lemma_inline_not_link(KIND_EXT_INDEX@, d, b, false, 0);
        },
        XV::Opaque(k, b, al) => lemma_inline_not_link(k, crate::xvalue_codec::array_to_header_spec(k, al), b, false, 0),
        XV::Ptr(_, _) => {},
    }
}

/// Writing bytes that are not a pointer keeps a store without links.
proof fn lemma_link_free_insert(m: Map<Seq<char>, Seq<u8>>, k: Seq<char>, b: Seq<u8>)
    requires
        link_free(m),
        not_link(b),
    ensures
        link_free(m.insert(k, b)),
{
    assert forall|x: Seq<char>| #[trigger] m.insert(k, b).dom().contains(x) implies !(decode_stored_spec(m.insert(k, b)[x]) is Ptr) by {
        if x != k {
            assert(m.dom().contains(x));
        }
    }
}

/// Without pointers no prefix of a path holds one.
proof fn lemma_no_first_ptr(m: Map<Seq<char>, Seq<u8>>, parts: Seq<Seq<char>>, i: nat)
    requires
        link_free(m),
    ensures
        first_ptr(m, parts, i) is None,
    decreases parts.len() - i,
{
    if i < parts.len() {
        let x = prefix_path(parts, i);
        if m.dom().contains(x) {
            assert(!(decode_stored_spec(m[x]) is Ptr));
        }
        lemma_no_first_ptr(m, parts, i + 1);
    }
}

/// Without pointers every path resolves to itself at once.
pub proof fn lemma_link_free_resolves(m: Map<Seq<char>, Seq<u8>>, p: Seq<char>)
    requires
        link_free(m),
    ensures
        settles(m, p),
        resolved(m, p) == p,
{
    if p != root_path() {
        lemma_no_first_ptr(m, path_parts(p), 0);
    }
    assert(resolve_steps(m, p, 0) == Some(p));
    lemma_resolve_steps_mono(m, p, 0, usize::MAX as nat);
    lemma_resolved_steps(m, p, 0);
}

/// A key is its directory joined with its last segment, for an absolute key without `//`.
pub proof fn lemma_key_dir_join(key: Seq<char>)
    requires
        key.len() >= 2,
        key[0] == PATH_SEP_CHAR,
        key[1] != PATH_SEP_CHAR,
        !ends_with_char(key, PATH_SEP_CHAR),
    ensures
        join_path_spec(key_dir(key), sep_path_spec(key).1) == key,
{
    crate::kvspace_common::lemma_rfind_char(key, PATH_SEP_CHAR);
    assert(key != root_path());
    let ri = crate::kvspace_common::rfind_char(key, PATH_SEP_CHAR);
    assert(ri is Some) by {
        if ri is None {
            lemma_rfind_none(key, PATH_SEP_CHAR);
        }
    }
    let i = ri->0;
    if i == 0 {
        assert(key_dir(key) == root_path());
        assert(root_path() + key.skip(1) =~= key);
    } else {
        assert(i != 1);
        let p0 = key.take(i as int);
        assert(p0 != root_path()) by {
            assert(p0.len() == i);
        }
        let d = p0 + root_path();
        assert(ends_with_char(d, PATH_SEP_CHAR));
        assert(d != root_path()) by {
            assert(d.len() == i + 1);
        }
        assert(d + key.skip(i as int + 1) =~= key);
    }
}

/// `rfind_char` finds nothing only when the character does not occur.
proof fn lemma_rfind_none(s: Seq<char>, c: char)
    requires
        crate::kvspace_common::rfind_char(s, c) is None,
    ensures
        forall|k: int| 0 <= k < s.len() ==> s[k] != c,
    decreases s.len(),
{
    if s.len() > 0 {
        lemma_rfind_none(s.drop_last(), c);
        assert forall|k: int| 0 <= k < s.len() implies s[k] != c by {
            if k < s.len() - 1 {
                assert(s[k] == s.drop_last()[k]);
            }
        }
    }
}

/// A read gives back what a write stored, in a store without links: when `set` has stored
/// the encoding of `v` under the key it resolves to (as it does for a plain value), reading
/// the key's last segment from its directory gives `v` back in canonical form.
pub proof fn law_set_then_get(m0: Map<Seq<char>, Seq<u8>>, m1: Map<Seq<char>, Seq<u8>>, key: Seq<char>, v: XV)
    requires
        link_free(m0),
        key.len() >= 2,
        key[0] == PATH_SEP_CHAR,
        key[1] != PATH_SEP_CHAR,
        !is_dir_spec(key),
        m1.dom().contains(resolved(m0, key)),
        m1[resolved(m0, key)] == crate::xvalue_codec::encode_value(v),
        crate::xvalue_laws::roundtrip_ok(v),
    ensures
        settles(m0, key),
        resolved(m0, key) == key,
        get_entry(m1, key_dir(key), sep_path_spec(key).1) == crate::xvalue_laws::canonical(v),
{
    lemma_link_free_resolves(m0, key);
    lemma_key_dir_join(key);
    law_read_after_write(m1, key_dir(key), sep_path_spec(key).1, v);
}

/// A copy reads back byte for byte, whatever the copied value's kind: in a store without
/// links, once `cp` has put the source's bytes under the destination key (as it does when
/// it succeeds on a key that is not a directory path), the raw read of the destination's
/// last segment from its directory gives exactly those bytes.
pub proof fn law_cp_then_get_raw(m0: Map<Seq<char>, Seq<u8>>, m1: Map<Seq<char>, Seq<u8>>, dst: Seq<char>, raw: Seq<u8>)
    requires
        link_free(m0),
        dst.len() >= 2,
        dst[0] == PATH_SEP_CHAR,
        dst[1] != PATH_SEP_CHAR,
        !is_dir_spec(dst),
        m1.dom().contains(resolved(m0, dst)),
        m1[resolved(m0, dst)] == raw,
    ensures
        raw_entry(m1, key_dir(dst), sep_path_spec(dst).1) == raw,
{
    lemma_link_free_resolves(m0, dst);
    lemma_key_dir_join(dst);
}

/// Merging in an extension's entries keeps every entry of the directory itself.
proof fn lemma_merge_keeps(mem: Seq<Seq<char>>, ext: Seq<Seq<char>>, n: Seq<char>)
    requires
        mem.contains(n),
    ensures
        merge_names(mem, ext).contains(n),
    decreases ext.len(),
{
    if ext.len() > 0 {
        lemma_merge_keeps(mem, ext.drop_last(), n);
        let t = merge_names(mem, ext.drop_last());
        let k = choose|k: int| 0 <= k < t.len() && t[k] == n;
        if !mem.contains(ext.last()) {
            assert(t.push(ext.last())[k] == n);
        }
    }
}

/// An entry its directory's index lists is returned by `list` on that directory, with or
/// without the extension's entries; `set` leaves the parent of every plain entry it writes
/// listing it.
pub proof fn law_registered_entry_listed(m: Map<Seq<char>, Seq<u8>>, d: Seq<char>, n: Seq<char>)
    requires
        is_dir_spec(d),
        listed(m, d, n),
    ensures
        list_ok(m, d, false),
        list_spec(m, d, false).contains(n),
        list_spec(m, d, true).contains(n),
{
    let mem = dir_names(stored(m, d));
    assert(dir_ok(stored(m, d)));
    lemma_merge_keeps(mem, seq![], n);
    let ext = if ext_of(m, d).len() > 0 { dir_names(stored(m, ext_of(m, d))) } else { seq![] };
    lemma_merge_keeps(mem, ext, n);
}

/// An entry its directory's index does not list is not returned by `list` on that
/// directory without the extension's entries; `del` leaves the parent of the key it removes
/// so.
pub proof fn law_unlisted_entry_not_listed(m: Map<Seq<char>, Seq<u8>>, d: Seq<char>, n: Seq<char>)
    requires
        is_dir_spec(d),
        !listed(m, d, n),
    ensures
        !list_spec(m, d, false).contains(n),
{
}

/// A plain absolute key: it starts with `/`, is not a directory path, and no `/` in it
/// directly follows a `/` or a `·`.
pub open spec fn plain_key(key: Seq<char>) -> bool {
    &&& key.len() >= 2
    &&& key[0] == PATH_SEP_CHAR
    &&& !is_dir_spec(key)
    &&& forall|i: int| 1 <= i < key.len() && #[trigger] key[i] == PATH_SEP_CHAR ==>
        key[i - 1] != PATH_SEP_CHAR && key[i - 1] != OBJ_SEP_CHAR
}

/// In a store without links a plain key's parent resolves to itself, so the key it names
/// is the key itself.
pub proof fn lemma_plain_key_parent(m: Map<Seq<char>, Seq<u8>>, key: Seq<char>)
    requires
        link_free(m),
        plain_key(key),
    ensures
        settles(m, sep_path_spec(parent_clean(key)).0),
        resolved_parent_spec(m, key) == key,
{
    assert(parent_clean(key) == key);
    let p0 = sep_path_spec(key).0;
    lemma_link_free_resolves(m, p0);
    crate::kvspace_common::lemma_rfind_char(key, PATH_SEP_CHAR);
    assert(key != root_path()) by {
        assert(key.len() >= 2);
    }
    let ri = crate::kvspace_common::rfind_char(key, PATH_SEP_CHAR);
    assert(ri is Some) by {
        if ri is None {
            lemma_rfind_none(key, PATH_SEP_CHAR);
        }
    }
    let j = ri->0;
    if j == 0 {
        assert(p0 == root_path());
        assert(p0 != key);
        assert(root_path() + key.skip(1) =~= key);
    } else {
        assert(key[j as int] == PATH_SEP_CHAR);
        assert(key[j - 1] != PATH_SEP_CHAR && key[j - 1] != OBJ_SEP_CHAR);
        assert(p0 == key.take(j as int));
        assert(p0 != key) by {
            assert(p0.len() == j);
        }
        assert(p0 != root_path()) by {
            if j == 1 {
                assert(p0[0] == key[0]);
                assert(key[1] == PATH_SEP_CHAR);
            } else {
                assert(p0.len() == j);
            }
        }
        assert(!ends_with_char(p0, PATH_SEP_CHAR) && !ends_with_char(p0, OBJ_SEP_CHAR)) by {
            assert(p0.last() == key[j - 1]);
        }
        assert(p0 + root_path() + key.skip(j as int + 1) =~= key);
    }
}

/// A deleted key reads as absent: after `del` has removed a plain key from a store
/// without links, reading the key's last segment from its directory gives nothing, unless
/// the directory is an extension index that supplies it.
pub proof fn law_del_then_get(m0: Map<Seq<char>, Seq<u8>>, m1: Map<Seq<char>, Seq<u8>>, key: Seq<char>)
    requires
        link_free(m0),
        plain_key(key),
        !m1.dom().contains(resolved_parent_spec(m0, key)),
        ext_of(m1, key_dir(key)).len() == 0,
    ensures
        get_entry(m1, key_dir(key), sep_path_spec(key).1) == XV::Nil,
{
    lemma_plain_key_parent(m0, key);
    assert(key[1] != PATH_SEP_CHAR) by {
        if key[1] == PATH_SEP_CHAR {
            assert(key[0] == PATH_SEP_CHAR);
        }
    }
    lemma_key_dir_join(key);
}

/// The parent index of an absolute path is no longer than the path, and shorter when the
/// path does not end with `/`.
proof fn lemma_split_index_parent_len(p: Seq<char>)
    requires
        p.len() >= 1,
        p[0] == PATH_SEP_CHAR,
    ensures
        split_index_spec(p).0.len() <= p.len(),
        p != root_path() && !ends_with_char(p, PATH_SEP_CHAR) ==> split_index_spec(p).0.len() < p.len(),
{
    if p == root_path() {
        return;
    }
    crate::kvspace_common::lemma_rfind_char(p, PATH_SEP_CHAR);
    let ri = crate::kvspace_common::rfind_char(p, PATH_SEP_CHAR);
    assert(ri is Some) by {
        if ri is None {
            lemma_rfind_none(p, PATH_SEP_CHAR);
        }
    }
    let j = ri->0;
    let last = sep_path_spec(p).1;
    assert(last.len() == p.len() - j - 1);
    crate::kvspace_common::lemma_rfind_char(last, OBJ_SEP_CHAR);
    if j + 1 == p.len() {
        assert(ends_with_char(p, PATH_SEP_CHAR));
    }
}

/// The parent index of an absolute path is absolute.
proof fn lemma_split_index_abs(p: Seq<char>)
    requires
        p.len() >= 1,
        p[0] == PATH_SEP_CHAR,
    ensures
        split_index_spec(p).0.len() >= 1,
        split_index_spec(p).0[0] == PATH_SEP_CHAR,
{
    if p == root_path() {
        return;
    }
    crate::kvspace_common::lemma_rfind_char(p, PATH_SEP_CHAR);
    let ri = crate::kvspace_common::rfind_char(p, PATH_SEP_CHAR);
    assert(ri is Some) by {
        if ri is None {
            lemma_rfind_none(p, PATH_SEP_CHAR);
        }
    }
    let (p0, last) = sep_path_spec(p);
    let parent = if p0 == root_path() { p0 } else { p0 + root_path() };
    assert(parent.len() >= 1 && parent[0] == PATH_SEP_CHAR);
    crate::kvspace_common::lemma_rfind_char(last, OBJ_SEP_CHAR);
    match crate::kvspace_common::rfind_char(last, OBJ_SEP_CHAR) {
        Some(i) => {
            if i > 0 && i + 1 < last.len() {
                assert((parent + last.take(i as int + 1))[0] == parent[0]);
            }
        },
        None => {},
    }
}

/// The parent index of an absolute path that does not begin with `//` begins the path.
proof fn lemma_split_index_prefix(p: Seq<char>)
    requires
        p.len() >= 1,
        p[0] == PATH_SEP_CHAR,
        p.len() < 2 || p[1] != PATH_SEP_CHAR,
    ensures
        starts_with_seq(p, split_index_spec(p).0),
{
    if p == root_path() {
        assert(p.subrange(0, 1) =~= p);
        return;
    }
    crate::kvspace_common::lemma_rfind_char(p, PATH_SEP_CHAR);
    let ri = crate::kvspace_common::rfind_char(p, PATH_SEP_CHAR);
    assert(ri is Some) by {
        if ri is None {
            lemma_rfind_none(p, PATH_SEP_CHAR);
        }
    }
    let i: int = ri->0 as int;
    let (p0, last) = sep_path_spec(p);
    let parent = if p0 == root_path() { p0 } else { p0 + root_path() };
    assert(parent =~= p.take(i + 1)) by {
        if i == 0 {
            assert(p.take(1) =~= root_path());
        } else {
            assert(p0 =~= p.take(i));
            if p0 == root_path() {
                assert(p0.len() == 1);
                assert(i == 1);
            }
        }
    }
    assert(last =~= p.skip(i + 1)) by {
        if i == 0 {
        }
    }
    crate::kvspace_common::lemma_rfind_char(last, OBJ_SEP_CHAR);
    match crate::kvspace_common::rfind_char(last, OBJ_SEP_CHAR) {
        Some(j0) => {
            let j: int = j0 as int;
            if j > 0 && j + 1 < last.len() {
                assert(parent + last.take(j + 1) =~= p.take(i + j + 2));
                assert(p.subrange(0, i + j + 2) =~= p.take(i + j + 2));
            } else {
                assert(p.subrange(0, i + 1) =~= p.take(i + 1));
            }
        },
        None => {
            assert(p.subrange(0, i + 1) =~= p.take(i + 1));
        },
    }
}

/// The parent index of an absolute path that does not begin with `//` begins the path.
pub proof fn lemma_parent_prefix(d: Seq<char>)
    requires
        d.len() >= 1,
        d[0] == PATH_SEP_CHAR,
        d.len() < 2 || d[1] != PATH_SEP_CHAR,
    ensures
        starts_with_seq(d, parent_name_spec(d).0),
{
    if is_dir_spec(d) && d != root_path() {
        assert(d.len() >= 2) by {
            if d.len() == 1 {
                assert(d =~= root_path());
            }
        }
        let clean = strip_dir_suf_spec(d);
        assert(clean[0] == PATH_SEP_CHAR);
        lemma_split_index_prefix(clean);
        let q = split_index_spec(clean).0;
        assert(d.subrange(0, q.len() as int) =~= clean.subrange(0, q.len() as int));
    } else {
        lemma_split_index_prefix(d);
    }
}

/// The parent index of an absolute path is absolute and no longer than the path, and
/// shorter than any path but the root.
pub proof fn lemma_parent_facts(d: Seq<char>)
    requires
        d.len() >= 1,
        d[0] == PATH_SEP_CHAR,
    ensures
        parent_name_spec(d).0.len() >= 1,
        parent_name_spec(d).0[0] == PATH_SEP_CHAR,
        parent_name_spec(d).0.len() <= d.len(),
        d != root_path() ==> parent_name_spec(d).0.len() < d.len(),
{
    if d == root_path() {
        lemma_split_index_abs(d);
        lemma_split_index_parent_len(d);
    } else if is_dir_spec(d) {
        assert(d.len() >= 2) by {
            if d.len() == 1 {
                assert(d =~= root_path());
            }
        }
        lemma_parent_name_shorter(d);
        let clean = strip_dir_suf_spec(d);
        assert(clean[0] == PATH_SEP_CHAR);
        lemma_split_index_abs(clean);
    } else {
        lemma_split_index_abs(d);
        lemma_split_index_parent_len(d);
    }
}

/// Only keys of at most `n` characters differ between `a` and `b`.
pub open spec fn short_changes(a: Map<Seq<char>, Seq<u8>>, b: Map<Seq<char>, Seq<u8>>, n: nat) -> bool {
    forall|k: Seq<char>|
        #![trigger a.dom().contains(k)]
        #![trigger b.dom().contains(k)]
        k.len() > n ==> (a.dom().contains(k) <==> b.dom().contains(k)) && (a.dom().contains(k) ==> a[k] == b[k])
}

/// Every key that no pair names as its parent is as it was.
pub open spec fn keeps_off_parents(a: Map<Seq<char>, Seq<u8>>, b: Map<Seq<char>, Seq<u8>>, children: Seq<(Vec<char>, Vec<char>)>) -> bool {
    forall|x: Seq<char>| #![trigger a.dom().contains(x)] #![trigger b.dom().contains(x)]
        !(exists|t: int| 0 <= t < children.len() && (#[trigger] children[t]).0@ == x) ==> {
        &&& (b.dom().contains(x) <==> a.dom().contains(x))
        &&& a.dom().contains(x) ==> b[x] == a[x]
    }
}

/// Short changes chain, bounds taken at their largest.
proof fn lemma_short_trans(a: Map<Seq<char>, Seq<u8>>, b: Map<Seq<char>, Seq<u8>>, c: Map<Seq<char>, Seq<u8>>, n1: nat, n2: nat, n: nat)
    requires
        short_changes(a, b, n1),
        short_changes(b, c, n2),
        n1 <= n,
        n2 <= n,
    ensures
        short_changes(a, c, n),
{
    assert forall|k: Seq<char>| #![trigger a.dom().contains(k)] #![trigger c.dom().contains(k)]
        k.len() > n implies (a.dom().contains(k) <==> c.dom().contains(k)) && (a.dom().contains(k) ==> a[k] == c[k]) by {
        assert(a.dom().contains(k) <==> b.dom().contains(k));
        assert(b.dom().contains(k) <==> c.dom().contains(k));
    }
}

/// The parent index of an absolute directory path is shorter than the path.
proof fn lemma_parent_name_shorter(rp: Seq<char>)
    requires
        rp.len() >= 2,
        rp[0] == PATH_SEP_CHAR,
        is_dir_spec(rp),
    ensures
        parent_name_spec(rp).0.len() < rp.len(),
{
    assert(rp != root_path());
    let clean = strip_dir_suf_spec(rp);
    assert(clean.len() == rp.len() - 1);
    assert(clean[0] == PATH_SEP_CHAR);
    lemma_split_index_parent_len(clean);
}

} // verus!
