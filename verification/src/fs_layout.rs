//! The decisions of the file-system backends, apart from the file-system calls: how a key
//! names its file, how a key maps to a path below the root and back, and how a directory
//! keeps the order of its entries.

use vstd::prelude::*;
use crate::backend::{is_dir, is_dir_spec, trim_start_slash};
use crate::consts::{DIR_INDEX_SUF, KIND_OBJ, OBJ_SEP, OBJ_SEP_CHAR, PATH_SEP_CHAR};
use crate::coord::split_on;
use crate::kvspace_common::{ends_with, ends_with_char, is_root, root_path, sep_chars, sep_path_spec, strip_chars, strip_dir_suf_spec};
use crate::text::{chars_of, decode_text, push_char, push_str, str_eq, string_from_chars, utf8_lossy};
use crate::backend::trim_end_slash;
use crate::coord::join_decimals;
use crate::kvspace_common::{split_index_chars, split_index_spec};
use crate::text::{parse_i32_chars, parse_i32_spec, push_i64};
use crate::xvalue::{XValue, XV};
use crate::xvalue_index::string_views;
use crate::xvalue_rwir::join_lines;

verus! {

/// The lower-case hexadecimal digit of `v` (0..=15).
pub open spec fn hex_digit(v: int) -> char {
    if v < 10 { (48 + v) as char } else { (87 + v) as char }
}

/// Lower-case hexadecimal text of bytes: two digits per byte, high nibble first.
pub open spec fn hex_text(b: Seq<u8>) -> Seq<char> {
    Seq::new(2 * b.len(), |i: int| if i % 2 == 0 { hex_digit(b[i / 2] as int / 16) } else { hex_digit(b[i / 2] as int % 16) })
}

/// The value of a hexadecimal digit (either case); `None` for other characters.
pub open spec fn hex_value(c: char) -> Option<int> {
    if '0' <= c <= '9' {
        Some(c as int - 48)
    } else if 'a' <= c <= 'f' {
        Some(c as int - 87)
    } else if 'A' <= c <= 'F' {
        Some(c as int - 55)
    } else {
        None
    }
}

/// One two-character group as `u8::from_str_radix(_, 16)` reads it: two hex digits, or
/// `+` and one hex digit.
pub open spec fn pair_value(a: char, b: char) -> Option<u8> {
    match (hex_value(a), hex_value(b)) {
        (Some(x), Some(y)) => Some((16 * x + y) as u8),
        (None, Some(y)) => if a == '+' { Some(y as u8) } else { None },
        _ => None,
    }
}

/// Text that decodes without failure: an even number of characters, every group valid.
pub open spec fn valid_hex(s: Seq<char>) -> bool {
    &&& s.len() % 2 == 0
    &&& forall|k: int| 0 <= k < s.len() / 2 ==> (#[trigger] pair_value(s[2 * k], s[2 * k + 1])) is Some
}

/// The bytes of valid hexadecimal text, one per group.
pub open spec fn hex_bytes(s: Seq<char>) -> Seq<u8> {
    Seq::new(s.len() / 2, |k: int| pair_value(s[2 * k], s[2 * k + 1])->0)
}

/// The digit character of a nibble.
fn nibble_char(v: u8) -> (c: char)
    requires
        v < 16,
    ensures
        c == hex_digit(v as int),
{
    if v < 10 { ((v + 48) as u8) as char } else { ((v + 87) as u8) as char }
}

/// The lower-case hexadecimal text of bytes; see [`hex_text`].
pub fn hex_encode(bytes: &[u8]) -> (s: String)
    requires
        2 * bytes@.len() <= usize::MAX,
    ensures
        s@ == hex_text(bytes@),
{
    let mut s = String::new();
    let mut i: usize = 0;
    while i < bytes.len()
        invariant
            i <= bytes@.len(),
            s@ == hex_text(bytes@.take(i as int)),
        decreases bytes@.len() - i,
    {
        let b = bytes[i];
        push_char(&mut s, nibble_char(b / 16));
        push_char(&mut s, nibble_char(b % 16));
        i = i + 1;
        assert(s@ =~= hex_text(bytes@.take(i as int)));
    }
    assert(bytes@.take(bytes@.len() as int) =~= bytes@);
    s
}

/// The value of a hexadecimal digit character.
fn hex_value_of(c: char) -> (r: Option<u8>)
    ensures
        match hex_value(c) {
            Some(v) => r == Some(v as u8),
            None => r is None,
        },
{
    if '0' <= c && c <= '9' {
        Some(((c as u32) - 48) as u8)
    } else if 'a' <= c && c <= 'f' {
        Some(((c as u32) - 87) as u8)
    } else if 'A' <= c && c <= 'F' {
        Some(((c as u32) - 55) as u8)
    } else {
        None
    }
}

/// Reads one group.
fn read_pair(a: char, b: char) -> (r: Option<u8>)
    ensures
        r == pair_value(a, b),
{
    match (hex_value_of(a), hex_value_of(b)) {
        (Some(x), Some(y)) => Some(16 * x + y),
        (None, Some(y)) => if a == '+' { Some(y) } else { None },
        _ => None,
    }
}

/// Whether text is valid hexadecimal; see [`valid_hex`].
pub fn is_valid_hex(s: &str) -> (r: bool)
    ensures
        r == valid_hex(s@),
{
    let c = chars_of(s);
    if c.len() % 2 != 0 {
        return false;
    }
    let n = c.len() / 2;
    let mut k: usize = 0;
    while k < n
        invariant
            c@ == s@,
            n == c.len() / 2,
            c.len() % 2 == 0,
            k <= n,
            forall|j: int| 0 <= j < k ==> (#[trigger] pair_value(s@[2 * j], s@[2 * j + 1])) is Some,
        decreases n - k,
    {
        if read_pair(c[2 * k], c[2 * k + 1]).is_none() {
            return false;
        }
        k = k + 1;
    }
    true
}

/// The bytes of hexadecimal text; see [`hex_bytes`].
pub fn hex_decode(s: &str) -> (r: Vec<u8>)
    requires
        valid_hex(s@),
    ensures
        r@ == hex_bytes(s@),
{
    let c = crate::text::chars_of(s);
    let n = c.len() / 2;
    let mut out: Vec<u8> = Vec::new();
    let mut k: usize = 0;
    while k < n
        invariant
            c@ == s@,
            valid_hex(s@),
            n == s@.len() / 2,
            n == c.len() / 2,
            k <= n,
            out@ == hex_bytes(s@).take(k as int),
        decreases n - k,
    {
        assert(pair_value(s@[2 * k as int], s@[2 * k as int + 1]) is Some);
        let v = read_pair(c[2 * k], c[2 * k + 1]);
        out.push(v.unwrap());
        k = k + 1;
        assert(out@ =~= hex_bytes(s@).take(k as int));
    }
    assert(hex_bytes(s@).take(n as int) =~= hex_bytes(s@));
    out
}

/// Hexadecimal text is valid and decodes to the bytes it was made from, so every key has
/// a file name of its own and the key can be read back from it.
pub proof fn lemma_hex_roundtrip(b: Seq<u8>)
    ensures
        valid_hex(hex_text(b)),
        hex_bytes(hex_text(b)) == b,
{
    let t = hex_text(b);
    assert forall|k: int| 0 <= k < b.len() implies (#[trigger] pair_value(t[2 * k], t[2 * k + 1])) == Some(b[k]) by {
        assert((2 * k) % 2 == 0 && (2 * k) / 2 == k);
        assert((2 * k + 1) % 2 == 1 && (2 * k + 1) / 2 == k);
        let hi = b[k] / 16;
        let lo = b[k] % 16;
        assert(hex_value(hex_digit(hi as int)) == Some(hi as int));
        assert(hex_value(hex_digit(lo as int)) == Some(lo as int));
        assert(16 * hi + lo == b[k]);
    }
    assert(hex_bytes(t) =~= b);
}

/// The character before position `i` of a key, `/` before the first.
pub open spec fn prev_of(s: Seq<char>, i: int) -> char {
    if i == 0 { PATH_SEP_CHAR } else { s[i - 1] }
}

/// What one key character becomes below the root: a member separator `·` that follows
/// anything but `/` becomes `·/` (the member lives in a directory named after its
/// container); every other character stays.
pub open spec fn path_piece(c: char, prev: char) -> Seq<char> {
    if c == OBJ_SEP_CHAR && prev != PATH_SEP_CHAR { seq![OBJ_SEP_CHAR, PATH_SEP_CHAR] } else { seq![c] }
}

/// A key with every member separator turned into a directory step.
pub open spec fn split_members(s: Seq<char>) -> Seq<char>
    decreases s.len(),
{
    if s.len() == 0 {
        seq![]
    } else {
        split_members(s.drop_last()) + path_piece(s.last(), prev_of(s, s.len() - 1))
    }
}

/// The path of a key below the root: its member separators turned into directory steps,
/// leading `/` removed.
pub open spec fn fs_rel_spec(key: Seq<char>) -> Seq<char> {
    trim_start_slash(split_members(key))
}

/// A path below the root with every `·/` turned back into `·`: each `/` that directly
/// follows a `·` is dropped.
pub open spec fn join_members(t: Seq<char>) -> Seq<char>
    decreases t.len(),
{
    if t.len() == 0 {
        seq![]
    } else {
        let keep = !(t.last() == PATH_SEP_CHAR && t.len() >= 2 && t[t.len() - 2] == OBJ_SEP_CHAR);
        join_members(t.drop_last()) + (if keep { seq![t.last()] } else { seq![] })
    }
}

/// The key of a path below the root: `/` for the root itself, else `/` and the path with
/// its member directories joined back.
pub open spec fn key_of_rel_spec(rel: Seq<char>) -> Seq<char> {
    let k = join_members(rel);
    if k.len() == 0 { root_path() } else { seq![PATH_SEP_CHAR] + k }
}

/// A key whose path below the root leads back to it: it starts with a single `/`, and no
/// `·` that opens a segment is directly followed by `/`.
pub open spec fn mappable_key(k: Seq<char>) -> bool {
    &&& k.len() >= 1 && k[0] == PATH_SEP_CHAR
    &&& (k.len() == 1 || k[1] != PATH_SEP_CHAR)
    &&& forall|i: int| 0 <= i && i + 2 < k.len() ==>
        !(#[trigger] k[i + 1] == OBJ_SEP_CHAR && k[i] == PATH_SEP_CHAR && k[i + 2] == PATH_SEP_CHAR)
}

/// No `·` that stays literal (it opens the text or follows `/`) is directly followed by `/`.
pub open spec fn no_literal_dot_slash(s: Seq<char>) -> bool {
    forall|i: int| 1 <= i < s.len() ==>
        !(#[trigger] s[i] == PATH_SEP_CHAR && s[i - 1] == OBJ_SEP_CHAR && prev_of(s, i - 1) == PATH_SEP_CHAR)
}

/// Joining the member directories back undoes the split, and the split ends with `/`
/// after a separator that became a directory step, else with the key's last character.
proof fn lemma_join_split(s: Seq<char>)
    requires
        no_literal_dot_slash(s),
    ensures
        join_members(split_members(s)) == s,
        s.len() > 0 ==> split_members(s).len() > 0 && split_members(s).last() == (
            if s.last() == OBJ_SEP_CHAR && prev_of(s, s.len() - 1) != PATH_SEP_CHAR { PATH_SEP_CHAR } else { s.last() }),
    decreases s.len(),
{
    if s.len() == 0 {
        return;
    }
    let s0 = s.drop_last();
    let c = s.last();
    let p = prev_of(s, s.len() - 1);
    assert forall|i: int| 1 <= i < s0.len() implies
        !(#[trigger] s0[i] == PATH_SEP_CHAR && s0[i - 1] == OBJ_SEP_CHAR && prev_of(s0, i - 1) == PATH_SEP_CHAR) by {
        assert(s0[i] == s[i] && s0[i - 1] == s[i - 1]);
        assert(prev_of(s0, i - 1) == prev_of(s, i - 1));
    }
    lemma_join_split(s0);
    let a = split_members(s0);
    if s0.len() > 0 {
        assert(p == s0.last());
    }
    if c == OBJ_SEP_CHAR && p != PATH_SEP_CHAR {
        let t = a + seq![OBJ_SEP_CHAR, PATH_SEP_CHAR];
        assert(t.drop_last() =~= a.push(OBJ_SEP_CHAR));
        assert(a.push(OBJ_SEP_CHAR).drop_last() =~= a);
        assert(join_members(a.push(OBJ_SEP_CHAR)) =~= s0.push(OBJ_SEP_CHAR));
        assert(join_members(t) =~= s);
    } else {
        let t = a + seq![c];
        assert(t.drop_last() =~= a);
        if c == PATH_SEP_CHAR && s0.len() > 0 {
            assert(!(s[s.len() - 1] == PATH_SEP_CHAR && s[s.len() - 2] == OBJ_SEP_CHAR
                && prev_of(s, s.len() - 2) == PATH_SEP_CHAR));
            assert(prev_of(s, s.len() - 2) == prev_of(s0, s0.len() - 1));
        }
        assert(join_members(t) =~= s);
    }
}

/// Joining after a leading `/` keeps the `/` and joins the rest alone.
proof fn lemma_join_slash_first(u: Seq<char>)
    ensures
        join_members(seq![PATH_SEP_CHAR] + u) == seq![PATH_SEP_CHAR] + join_members(u),
    decreases u.len(),
{
    let t = seq![PATH_SEP_CHAR] + u;
    if u.len() == 0 {
        assert(t.drop_last() =~= Seq::<char>::empty());
        assert(join_members(Seq::<char>::empty()) == Seq::<char>::empty());
        assert(t.len() == 1 && t.last() == PATH_SEP_CHAR);
        assert(join_members(t) =~= seq![PATH_SEP_CHAR]);
    } else {
        assert(t.drop_last() =~= seq![PATH_SEP_CHAR] + u.drop_last());
        lemma_join_slash_first(u.drop_last());
        if u.len() >= 2 {
            assert(t[t.len() - 2] == u[u.len() - 2]);
        } else {
            assert(t[t.len() - 2] == PATH_SEP_CHAR);
        }
        assert(join_members(t) =~= seq![PATH_SEP_CHAR] + join_members(u));
    }
}

/// The split of a prefix of a key is a prefix of the split of the key.
proof fn lemma_split_prefix(s: Seq<char>, j: int)
    requires
        0 <= j <= s.len(),
    ensures
        split_members(s.take(j)).len() <= split_members(s).len(),
        split_members(s).take(split_members(s.take(j)).len() as int) == split_members(s.take(j)),
    decreases s.len(),
{
    if j == s.len() {
        assert(s.take(j) =~= s);
        assert(split_members(s).take(split_members(s).len() as int) =~= split_members(s));
    } else {
        let s0 = s.drop_last();
        assert(s0.take(j) =~= s.take(j));
        lemma_split_prefix(s0, j);
        let a = split_members(s0);
        let b = split_members(s.take(j));
        assert(split_members(s).take(b.len() as int) =~= a.take(b.len() as int));
    }
}

/// A key maps to a path below the root and back to itself, for every key that starts with
/// a single `/` and has no segment that starts with `·/`.
pub proof fn lemma_key_path_roundtrip(k: Seq<char>)
    requires
        mappable_key(k),
    ensures
        key_of_rel_spec(fs_rel_spec(k)) == k,
{
    assert forall|i: int| 1 <= i < k.len() implies
        !(#[trigger] k[i] == PATH_SEP_CHAR && k[i - 1] == OBJ_SEP_CHAR && prev_of(k, i - 1) == PATH_SEP_CHAR) by {
        if i >= 2 && k[i] == PATH_SEP_CHAR && k[i - 1] == OBJ_SEP_CHAR {
            assert(!(k[(i - 2) + 1] == OBJ_SEP_CHAR && k[i - 2] == PATH_SEP_CHAR && k[(i - 2) + 2] == PATH_SEP_CHAR));
        }
    }
    lemma_join_split(k);
    let m = split_members(k);
    // The split starts with `/` and, when longer, with the key's second character next.
    lemma_split_prefix(k, 1);
    assert(k.take(1).drop_last() =~= Seq::<char>::empty());
    assert(split_members(Seq::<char>::empty()) == Seq::<char>::empty());
    assert(k.take(1).last() == PATH_SEP_CHAR && prev_of(k.take(1), 0) == PATH_SEP_CHAR);
    assert(split_members(k.take(1)) =~= seq![PATH_SEP_CHAR]);
    assert(m[0] == PATH_SEP_CHAR) by {
        assert(m.take(1)[0] == m[0]);
    }
    if k.len() >= 2 {
        lemma_split_prefix(k, 2);
        assert(k.take(2).drop_last() =~= k.take(1));
        assert(split_members(k.take(2)) =~= seq![PATH_SEP_CHAR, k[1]]);
        assert(m[1] == k[1]) by {
            assert(m.take(2)[1] == m[1]);
        }
    } else {
        assert(k.take(1) =~= k);
        assert(m =~= seq![PATH_SEP_CHAR]);
    }
    let u = m.drop_first();
    assert(m =~= seq![PATH_SEP_CHAR] + u);
    assert(trim_start_slash(m) =~= u) by {
        assert(m.len() > 0 && m[0] == PATH_SEP_CHAR);
        assert(trim_start_slash(m) == trim_start_slash(m.drop_first()));
        if u.len() > 0 {
            assert(u[0] == m[1]);
            assert(u[0] != PATH_SEP_CHAR);
        }
        assert(trim_start_slash(u) == u);
    }
    lemma_join_slash_first(u);
    assert(join_members(u) =~= k.drop_first());
    if join_members(u).len() == 0 {
        assert(k =~= root_path());
    } else {
        assert(seq![PATH_SEP_CHAR] + join_members(u) =~= k);
    }
}

/// The path below the root of a key; see [`fs_rel_spec`].
pub fn fs_rel_path(key: &str) -> (r: String)
    ensures
        r@ == fs_rel_spec(key@),
{
    let c = chars_of(key);
    let mut out: Vec<char> = Vec::new();
    let mut i: usize = 0;
    while i < c.len()
        invariant
            c@ == key@,
            i <= c@.len(),
            out@ == split_members(c@.take(i as int)),
        decreases c@.len() - i,
    {
        let prev = if i == 0 { PATH_SEP_CHAR } else { c[i - 1] };
        let ghost before = out@;
        if c[i] == OBJ_SEP_CHAR && prev != PATH_SEP_CHAR {
            out.push(OBJ_SEP_CHAR);
            out.push(PATH_SEP_CHAR);
        } else {
            out.push(c[i]);
        }
        proof {
            let t = c@.take(i as int + 1);
            assert(t.drop_last() =~= c@.take(i as int));
            assert(t.last() == c@[i as int]);
            assert(prev == prev_of(t, t.len() - 1));
        }
        i = i + 1;
        assert(out@ =~= split_members(c@.take(i as int)));
    }
    assert(c@.take(c@.len() as int) =~= c@);
    let mut j: usize = 0;
    assert(out@.skip(0) =~= out@);
    while j < out.len() && out[j] == PATH_SEP_CHAR
        invariant
            j <= out@.len(),
            trim_start_slash(out@) == trim_start_slash(out@.skip(j as int)),
        decreases out@.len() - j,
    {
        assert(out@.skip(j as int).drop_first() =~= out@.skip(j as int + 1));
        j = j + 1;
    }
    let rest = crate::xvalue::sub_chars(&out, j, out.len());
    assert(rest@ =~= out@.skip(j as int));
    string_from_chars(&rest)
}

/// The key of a path below the root; see [`key_of_rel_spec`].
pub fn key_of_rel(rel: &str) -> (r: String)
    ensures
        r@ == key_of_rel_spec(rel@),
{
    let c = chars_of(rel);
    let mut out: Vec<char> = Vec::new();
    let mut i: usize = 0;
    while i < c.len()
        invariant
            c@ == rel@,
            i <= c@.len(),
            out@ == join_members(c@.take(i as int)),
        decreases c@.len() - i,
    {
        let drop = c[i] == PATH_SEP_CHAR && i >= 1 && c[i - 1] == OBJ_SEP_CHAR;
        if !drop {
            out.push(c[i]);
        }
        proof {
            let t = c@.take(i as int + 1);
            assert(t.drop_last() =~= c@.take(i as int));
            assert(t.last() == c@[i as int]);
        }
        i = i + 1;
        assert(out@ =~= join_members(c@.take(i as int)));
    }
    assert(c@.take(c@.len() as int) =~= c@);
    let mut s = String::new();
    push_char(&mut s, PATH_SEP_CHAR);
    if out.len() == 0 {
        assert(s@ =~= root_path());
        s
    } else {
        let tail = string_from_chars(&out);
        crate::text::push_str(&mut s, tail.as_str());
        assert(s@ =~= seq![PATH_SEP_CHAR] + out@);
        s
    }
}

/// The suffix of a directory key's entry in its parent: `·` for a member directory, else
/// `/`.
pub open spec fn entry_suffix(key: Seq<char>) -> Seq<char> {
    if ends_with_char(key, OBJ_SEP_CHAR) { OBJ_SEP@ } else { DIR_INDEX_SUF@ }
}

/// Whether a key names a directory (it ends with `/` or `·`).
pub fn is_dir_key(key: &str) -> (r: bool)
    ensures
        r == is_dir_spec(key@),
{
    let c = chars_of(key);
    is_dir(&c)
}

/// The suffix of a directory key's entry; see [`entry_suffix`].
pub fn suffix_for(key: &str) -> (r: &'static str)
    ensures
        r@ == entry_suffix(key@),
{
    let c = chars_of(key);
    if ends_with(&c, OBJ_SEP_CHAR) { OBJ_SEP } else { DIR_INDEX_SUF }
}

/// The parent directory (with its `/`) and the last segment of a key, a directory key
/// taken without its suffix.
pub open spec fn fs_parent_name_spec(path: Seq<char>) -> (Seq<char>, Seq<char>) {
    let clean = if is_dir_spec(path) && path != root_path() { strip_dir_suf_spec(path) } else { path };
    let pl = sep_path_spec(clean);
    (if pl.0 != root_path() { pl.0 + seq![PATH_SEP_CHAR] } else { pl.0 }, pl.1)
}

/// The parent directory and last segment of a key; see [`fs_parent_name_spec`].
pub fn fs_parent_name(path: &str) -> (r: (String, String))
    ensures
        r.0@ == fs_parent_name_spec(path@).0,
        r.1@ == fs_parent_name_spec(path@).1,
{
    let c = chars_of(path);
    let clean = if is_dir(&c) && !is_root(&c) {
        strip_chars(&c)
    } else {
        crate::xvalue::sub_chars(&c, 0, c.len())
    };
    assert(c@.subrange(0, c@.len() as int) =~= c@);
    let (parent, last) = sep_chars(&clean);
    let mut pv = parent;
    if !is_root(&pv) {
        pv.push(PATH_SEP_CHAR);
    }
    (string_from_chars(&pv), string_from_chars(&last))
}

/// The non-empty parts, in order.
pub open spec fn non_empty(parts: Seq<Seq<char>>) -> Seq<Seq<char>>
    decreases parts.len(),
{
    if parts.len() == 0 {
        seq![]
    } else {
        let rest = non_empty(parts.drop_last());
        if parts.last().len() > 0 { rest.push(parts.last()) } else { rest }
    }
}

/// The entry order recorded in a directory's order file: its lines that are not empty.
pub open spec fn order_of(bytes: Seq<u8>) -> Seq<Seq<char>> {
    non_empty(split_on(decode_text(bytes), '\n'))
}

/// The non-empty texts among `parts`.
fn keep_non_empty(parts: &Vec<Vec<char>>) -> (r: Vec<String>)
    ensures
        string_views(r@) == non_empty(Seq::new(parts@.len(), |j: int| parts@[j]@)),
{
    let ghost pv = Seq::new(parts@.len(), |j: int| parts@[j]@);
    let mut out: Vec<String> = Vec::new();
    let mut i: usize = 0;
    while i < parts.len()
        invariant
            i <= parts@.len(),
            pv == Seq::new(parts@.len(), |j: int| parts@[j]@),
            string_views(out@) == non_empty(pv.take(i as int)),
        decreases parts@.len() - i,
    {
        proof {
            assert(pv.take(i as int + 1).drop_last() =~= pv.take(i as int));
            assert(pv.take(i as int + 1).last() == parts@[i as int]@);
        }
        if parts[i].len() > 0 {
            let ghost before = out@;
            out.push(string_from_chars(parts[i].as_slice()));
            assert(string_views(out@) =~= string_views(before).push(parts@[i as int]@));
        }
        i = i + 1;
    }
    assert(pv.take(parts@.len() as int) =~= pv);
    out
}

/// The entry order held by an order file's bytes; see [`order_of`].
pub fn parse_order(bytes: &[u8]) -> (r: Vec<String>)
    ensures
        string_views(r@) == order_of(bytes@),
{
    let text = utf8_lossy(bytes);
    let c = chars_of(text.as_str());
    let parts = crate::backend::split_chars(&c, '\n');
    assert(Seq::new(parts@.len(), |j: int| parts@[j]@) =~= split_on(decode_text(bytes@), '\n'));
    keep_non_empty(&parts)
}

/// The content of an order file: the entries, each followed by `\n`.
pub open spec fn order_file_text(order: Seq<Seq<char>>) -> Seq<char> {
    join_lines(order) + seq!['\n']
}

/// The content of an order file; see [`order_file_text`].
pub fn order_text(order: &[String]) -> (s: String)
    ensures
        s@ == order_file_text(string_views(order@)),
{
    let ghost parts = string_views(order@);
    let mut s = String::new();
    let mut i: usize = 0;
    while i < order.len()
        invariant
            i <= order@.len(),
            parts == string_views(order@),
            s@ == join_lines(parts.take(i as int)),
        decreases order@.len() - i,
    {
        if i > 0 {
            push_char(&mut s, '\n');
        }
        push_str(&mut s, order[i].as_str());
        proof {
            let t = parts.take(i as int + 1);
            assert(t.drop_last() =~= parts.take(i as int));
            assert(t.last() == order@[i as int]@);
            if i == 0 {
                assert(parts.take(0) =~= Seq::<Seq<char>>::empty());
            }
        }
        i = i + 1;
        assert(s@ =~= join_lines(parts.take(i as int)));
    }
    assert(parts.take(order@.len() as int) =~= parts);
    push_char(&mut s, '\n');
    s
}

/// Whether a name occurs among the texts.
fn contains_name(names: &[String], name: &str) -> (r: bool)
    ensures
        r == string_views(names@).contains(name@),
{
    let mut i: usize = 0;
    while i < names.len()
        invariant
            i <= names@.len(),
            forall|j: int| 0 <= j < i ==> names@[j]@ != name@,
        decreases names@.len() - i,
    {
        if str_eq(names[i].as_str(), name) {
            assert(string_views(names@)[i as int] == name@);
            return true;
        }
        i = i + 1;
    }
    proof {
        if string_views(names@).contains(name@) {
            let j = choose|j: int| 0 <= j < string_views(names@).len() && string_views(names@)[j] == name@;
            assert(names@[j]@ == name@);
        }
    }
    false
}

/// The order with `child` appended; `None` when it is already listed (nothing to write).
pub fn add_order(order: &[String], child: &str) -> (r: Option<Vec<String>>)
    ensures
        string_views(order@).contains(child@) ==> r is None,
        !string_views(order@).contains(child@) ==> r is Some
            && string_views(r->0@) == string_views(order@).push(child@),
{
    if contains_name(order, child) {
        return None;
    }
    let mut out: Vec<String> = Vec::new();
    let mut i: usize = 0;
    while i < order.len()
        invariant
            i <= order@.len(),
            string_views(out@) == string_views(order@).take(i as int),
        decreases order@.len() - i,
    {
        let ghost before = out@;
        out.push(crate::text::string_of(order[i].as_str()));
        assert(string_views(out@) =~= string_views(before).push(order@[i as int]@));
        i = i + 1;
        assert(string_views(out@) =~= string_views(order@).take(i as int));
    }
    let ghost before = out@;
    out.push(crate::text::string_of(child));
    assert(string_views(out@) =~= string_views(before).push(child@));
    assert(string_views(order@).take(order@.len() as int) =~= string_views(order@));
    assert(string_views(out@) =~= string_views(order@).push(child@));
    Some(out)
}

/// The texts other than `name`, in order.
pub open spec fn without(names: Seq<Seq<char>>, name: Seq<char>) -> Seq<Seq<char>>
    decreases names.len(),
{
    if names.len() == 0 {
        seq![]
    } else {
        let rest = without(names.drop_last(), name);
        if names.last() != name { rest.push(names.last()) } else { rest }
    }
}

/// Removing a name that is not listed changes nothing.
proof fn lemma_without_absent(names: Seq<Seq<char>>, name: Seq<char>)
    requires
        !names.contains(name),
    ensures
        without(names, name) == names,
    decreases names.len(),
{
    if names.len() > 0 {
        assert(!names.drop_last().contains(name)) by {
            if names.drop_last().contains(name) {
                let j = choose|j: int| 0 <= j < names.drop_last().len() && names.drop_last()[j] == name;
                assert(names[j] == name);
            }
        }
        lemma_without_absent(names.drop_last(), name);
        assert(names.last() != name) by {
            assert(names[names.len() - 1] == names.last());
        }
        assert(names.drop_last().push(names.last()) =~= names);
    }
}

/// Listing a new entry and then removing it gives the order back as it was.
pub proof fn lemma_add_remove_order(order: Seq<Seq<char>>, child: Seq<char>)
    requires
        !order.contains(child),
    ensures
        without(order.push(child), child) == order,
{
    assert(order.push(child).drop_last() =~= order);
    lemma_without_absent(order, child);
}

/// The order without `child`.
pub fn remove_order(order: &[String], child: &str) -> (r: Vec<String>)
    ensures
        string_views(r@) == without(string_views(order@), child@),
{
    let ghost ov = string_views(order@);
    let mut out: Vec<String> = Vec::new();
    let mut i: usize = 0;
    while i < order.len()
        invariant
            i <= order@.len(),
            ov == string_views(order@),
            string_views(out@) == without(ov.take(i as int), child@),
        decreases order@.len() - i,
    {
        proof {
            assert(ov.take(i as int + 1).drop_last() =~= ov.take(i as int));
            assert(ov.take(i as int + 1).last() == order@[i as int]@);
        }
        if !str_eq(order[i].as_str(), child) {
            let ghost before = out@;
            out.push(crate::text::string_of(order[i].as_str()));
            assert(string_views(out@) =~= string_views(before).push(order@[i as int]@));
        }
        i = i + 1;
    }
    assert(ov.take(order@.len() as int) =~= ov);
    out
}

/// The texts equal to `v`, in order.
pub open spec fn equal_to(cs: Seq<Seq<char>>, v: Seq<char>) -> Seq<Seq<char>>
    decreases cs.len(),
{
    if cs.len() == 0 {
        seq![]
    } else {
        let rest = equal_to(cs.drop_last(), v);
        if cs.last() == v { rest.push(cs.last()) } else { rest }
    }
}

/// Position `p` holds the first occurrence of its text.
pub open spec fn first_at(order: Seq<Seq<char>>, p: int) -> bool {
    forall|q: int| 0 <= q < p ==> order[q] != order[p]
}

/// The children listed at positions below `p`, grouped by their first position.
pub open spec fn listed_part(cs: Seq<Seq<char>>, order: Seq<Seq<char>>, p: int) -> Seq<Seq<char>>
    decreases p,
{
    if p <= 0 {
        seq![]
    } else {
        listed_part(cs, order, p - 1) + (if first_at(order, p - 1) { equal_to(cs, order[p - 1]) } else { seq![] })
    }
}

/// The children not listed in the order, in their own order.
pub open spec fn unlisted(cs: Seq<Seq<char>>, order: Seq<Seq<char>>) -> Seq<Seq<char>>
    decreases cs.len(),
{
    if cs.len() == 0 {
        seq![]
    } else {
        let rest = unlisted(cs.drop_last(), order);
        if !order.contains(cs.last()) { rest.push(cs.last()) } else { rest }
    }
}

/// Children sorted stably by the first position of their name in the order, those the
/// order does not list last.
pub open spec fn ordered_children(cs: Seq<Seq<char>>, order: Seq<Seq<char>>) -> Seq<Seq<char>> {
    listed_part(cs, order, order.len() as int) + unlisted(cs, order)
}

/// Appends the children equal to `v`.
fn push_equal(out: &mut Vec<String>, cs: &[String], v: &str)
    ensures
        string_views(final(out)@) == string_views(old(out)@) + equal_to(string_views(cs@), v@),
{
    let ghost cv = string_views(cs@);
    let ghost start = string_views(out@);
    let mut j: usize = 0;
    while j < cs.len()
        invariant
            j <= cs@.len(),
            cv == string_views(cs@),
            string_views(out@) == start + equal_to(cv.take(j as int), v@),
        decreases cs@.len() - j,
    {
        proof {
            assert(cv.take(j as int + 1).drop_last() =~= cv.take(j as int));
            assert(cv.take(j as int + 1).last() == cs@[j as int]@);
        }
        if str_eq(cs[j].as_str(), v) {
            let ghost before = out@;
            out.push(crate::text::string_of(cs[j].as_str()));
            assert(string_views(out@) =~= string_views(before).push(cs@[j as int]@));
        }
        j = j + 1;
        assert(string_views(out@) =~= start + equal_to(cv.take(j as int), v@));
    }
    assert(cv.take(cs@.len() as int) =~= cv);
}

/// Whether position `p` of the order is the first occurrence of its text.
fn is_first_at(order: &[String], p: usize) -> (r: bool)
    requires
        p < order@.len(),
    ensures
        r == first_at(string_views(order@), p as int),
{
    let mut q: usize = 0;
    while q < p
        invariant
            q <= p < order@.len(),
            forall|k: int| 0 <= k < q ==> order@[k]@ != order@[p as int]@,
        decreases p - q,
    {
        if str_eq(order[q].as_str(), order[p].as_str()) {
            assert(string_views(order@)[q as int] == string_views(order@)[p as int]);
            return false;
        }
        q = q + 1;
    }
    assert forall|k: int| 0 <= k < p implies string_views(order@)[k] != string_views(order@)[p as int] by {
        assert(order@[k]@ != order@[p as int]@);
    }
    true
}

/// Children in the order an order file records; see [`ordered_children`].
pub fn order_children(children: &[String], order: &[String]) -> (r: Vec<String>)
    ensures
        string_views(r@) == ordered_children(string_views(children@), string_views(order@)),
{
    let ghost cv = string_views(children@);
    let ghost ov = string_views(order@);
    let mut out: Vec<String> = Vec::new();
    let mut p: usize = 0;
    while p < order.len()
        invariant
            p <= order@.len(),
            cv == string_views(children@),
            ov == string_views(order@),
            string_views(out@) == listed_part(cv, ov, p as int),
        decreases order@.len() - p,
    {
        if is_first_at(order, p) {
            push_equal(&mut out, children, order[p].as_str());
        } else {
            assert(string_views(out@) =~= listed_part(cv, ov, p as int) + Seq::<Seq<char>>::empty());
        }
        p = p + 1;
    }
    let ghost listed = string_views(out@);
    let mut j: usize = 0;
    while j < children.len()
        invariant
            j <= children@.len(),
            cv == string_views(children@),
            ov == string_views(order@),
            string_views(out@) == listed + unlisted(cv.take(j as int), ov),
        decreases children@.len() - j,
    {
        proof {
            assert(cv.take(j as int + 1).drop_last() =~= cv.take(j as int));
            assert(cv.take(j as int + 1).last() == children@[j as int]@);
        }
        if !contains_name(order, children[j].as_str()) {
            let ghost before = out@;
            out.push(crate::text::string_of(children[j].as_str()));
            assert(string_views(out@) =~= string_views(before).push(children@[j as int]@));
        }
        j = j + 1;
        assert(string_views(out@) =~= listed + unlisted(cv.take(j as int), ov));
    }
    assert(cv.take(children@.len() as int) =~= cv);
    out
}

/// A dimension as a map marker file records it: its decimal text, `0` when it does not
/// parse as an `i32`.
pub open spec fn dim_of(p: Seq<char>) -> i32 {
    match parse_i32_spec(p) {
        Some(v) => v,
        None => 0,
    }
}

/// The dimensions held by a map marker file: its comma-separated non-empty fields.
pub open spec fn map_dims_of(bytes: Seq<u8>) -> Seq<i32> {
    non_empty(split_on(decode_text(bytes), ',')).map_values(|p: Seq<char>| dim_of(p))
}

/// The dimensions of a map marker file; see [`map_dims_of`].
pub fn parse_map_dims(bytes: &[u8]) -> (r: Vec<i32>)
    ensures
        r@ == map_dims_of(bytes@),
{
    let text = utf8_lossy(bytes);
    let c = chars_of(text.as_str());
    let parts = crate::backend::split_chars(&c, ',');
    assert(Seq::new(parts@.len(), |j: int| parts@[j]@) =~= split_on(decode_text(bytes@), ','));
    let fields = keep_non_empty(&parts);
    let ghost fv = string_views(fields@);
    let mut out: Vec<i32> = Vec::new();
    let mut i: usize = 0;
    while i < fields.len()
        invariant
            i <= fields@.len(),
            fv == string_views(fields@),
            out@ == fv.take(i as int).map_values(|p: Seq<char>| dim_of(p)),
        decreases fields@.len() - i,
    {
        let fc = chars_of(fields[i].as_str());
        let d = match parse_i32_chars(&fc) {
            Some(v) => v,
            None => 0,
        };
        out.push(d);
        i = i + 1;
        assert(out@ =~= fv.take(i as int).map_values(|p: Seq<char>| dim_of(p)));
    }
    assert(fv.take(fields@.len() as int) =~= fv);
    out
}

/// The text of a map marker file: the dimensions in decimal, joined by `,`.
pub open spec fn dims_csv_spec(dims: Seq<i32>) -> Seq<char> {
    join_decimals(dims.map_values(|d: i32| d as i64))
}

/// The text of a map marker file; see [`dims_csv_spec`].
pub fn dims_csv(dims: &[i32]) -> (s: String)
    ensures
        s@ == dims_csv_spec(dims@),
{
    let ghost dv = dims@.map_values(|d: i32| d as i64);
    let mut s = String::new();
    let mut i: usize = 0;
    while i < dims.len()
        invariant
            i <= dims@.len(),
            dv == dims@.map_values(|d: i32| d as i64),
            s@ == join_decimals(dv.take(i as int)),
        decreases dims@.len() - i,
    {
        if i > 0 {
            push_char(&mut s, ',');
        }
        push_i64(&mut s, dims[i] as i64);
        proof {
            let t = dv.take(i as int + 1);
            assert(t.drop_last() =~= dv.take(i as int));
            assert(t.last() == dims@[i as int] as i64);
            if i == 0 {
                assert(dv.take(0) =~= Seq::<i64>::empty());
            }
        }
        i = i + 1;
        assert(s@ =~= join_decimals(dv.take(i as int)));
    }
    assert(dv.take(dims@.len() as int) =~= dv);
    s
}

/// The file inside an extension directory that holds its extension path.
pub const EXTINDEX_MARKER: &'static str = "__extindex__";
/// The file inside a directory that holds the value stored under the directory's own key.
pub const SELF_MARKER: &'static str = "__self__";
/// The file inside a directory that records the order of its entries.
pub const ORDER_MARKER: &'static str = "__order__";
/// The file inside a member directory of a string-keyed map that holds its dimensions.
pub const MAP_MARKER: &'static str = "__map__";

/// A directory whose own name ends with `·` holds members of a container.
pub open spec fn member_dir_spec(dir_key: Seq<char>) -> bool {
    ends_with_char(trim_end_slash(dir_key), OBJ_SEP_CHAR)
}

/// Whether a directory holds members of a container; see [`member_dir_spec`].
pub fn is_member_dir(dir_key: &str) -> (r: bool)
    ensures
        r == member_dir_spec(dir_key@),
{
    let c = chars_of(dir_key);
    let mut n: usize = c.len();
    assert(c@.take(c@.len() as int) =~= c@);
    while n > 0 && c[n - 1] == PATH_SEP_CHAR
        invariant
            n <= c@.len(),
            trim_end_slash(c@) == trim_end_slash(c@.take(n as int)),
        decreases n,
    {
        assert(c@.take(n as int).drop_last() =~= c@.take(n as int - 1));
        n = n - 1;
    }
    proof {
        assert(c@.take(c@.len() as int) =~= c@);
    }
    n > 0 && c[n - 1] == OBJ_SEP_CHAR
}

/// What one file of a directory contributes to the directory's entries.
pub enum EntryAction {
    /// A marker file of the layout: no entry.
    Skip,
    /// These entry names.
    Emit(Vec<String>),
    /// A member directory inside an ordinary directory: its entries, each prefixed with
    /// the file name.
    Flatten,
}

/// Whether a file name is one of the layout's marker files.
pub open spec fn is_marker(f: Seq<char>) -> bool {
    f == EXTINDEX_MARKER@ || f == SELF_MARKER@ || f == ORDER_MARKER@ || f == MAP_MARKER@
}

/// The entry names one file gives, given whether it is a directory, whether it holds a
/// value of its own, and whether the listed directory is itself a member directory:
/// markers give none; a name ending with `·` is an entry inside a member directory and is
/// flattened elsewhere; a directory gives `name/`, and `name` too when it holds a value;
/// a file gives its name.
pub fn classify_entry(fname: &str, is_dir_entry: bool, has_self: bool, in_member_dir: bool) -> (r: EntryAction)
    ensures
        is_marker(fname@) ==> r is Skip,
        !is_marker(fname@) && ends_with_char(fname@, OBJ_SEP_CHAR) ==> (
            if in_member_dir { r matches EntryAction::Emit(v) && string_views(v@) == seq![fname@] } else { r is Flatten }),
        !is_marker(fname@) && !ends_with_char(fname@, OBJ_SEP_CHAR) && is_dir_entry ==> (
            r matches EntryAction::Emit(v) && string_views(v@) == (if has_self {
                seq![fname@ + seq![PATH_SEP_CHAR], fname@]
            } else {
                seq![fname@ + seq![PATH_SEP_CHAR]]
            })),
        !is_marker(fname@) && !ends_with_char(fname@, OBJ_SEP_CHAR) && !is_dir_entry ==> (
            r matches EntryAction::Emit(v) && string_views(v@) == seq![fname@]),
{
    if str_eq(fname, EXTINDEX_MARKER) || str_eq(fname, SELF_MARKER) || str_eq(fname, ORDER_MARKER)
        || str_eq(fname, MAP_MARKER) {
        return EntryAction::Skip;
    }
    let c = chars_of(fname);
    let mut v: Vec<String> = Vec::new();
    if ends_with(&c, OBJ_SEP_CHAR) {
        if in_member_dir {
            v.push(crate::text::string_of(fname));
            assert(string_views(v@) =~= seq![fname@]);
            EntryAction::Emit(v)
        } else {
            EntryAction::Flatten
        }
    } else if is_dir_entry {
        let mut d = crate::text::string_of(fname);
        push_char(&mut d, PATH_SEP_CHAR);
        assert(d@ =~= fname@ + seq![PATH_SEP_CHAR]);
        v.push(d);
        if has_self {
            v.push(crate::text::string_of(fname));
            assert(string_views(v@) =~= seq![fname@ + seq![PATH_SEP_CHAR], fname@]);
        } else {
            assert(string_views(v@) =~= seq![fname@ + seq![PATH_SEP_CHAR]]);
        }
        EntryAction::Emit(v)
    } else {
        v.push(crate::text::string_of(fname));
        assert(string_views(v@) =~= seq![fname@]);
        EntryAction::Emit(v)
    }
}

/// The dimensions a member directory gets when a leaf `name` is written under `parent`
/// and the directory has no dimensions marker yet: for a coordinate name under a member
/// directory, the dimensions its members span (`children`, plus `name` when missing), as
/// marker text. `None` when no marker is due, or when a coordinate leaves no room for
/// `+ 1` in `i32`.
pub fn leaf_map_dims(parent: &str, name: &str, marker_exists: bool, children: &[String]) -> (r: Option<String>)
    ensures
        ({
            let cv = crate::coord::views(children@);
            let names = if cv.contains(name@) { cv } else { cv.push(name@) };
            &&& r is Some <==> ends_with_char(parent@, OBJ_SEP_CHAR) && crate::coord::is_coord_spec(name@)
                && !marker_exists && crate::coord::coords_fit(names)
            &&& r matches Some(d) ==> d@ == dims_csv_spec(crate::coord::grow_coord_dims_spec(seq![], names))
        }),
{
    let pc = chars_of(parent);
    if !ends_with(&pc, OBJ_SEP_CHAR) || !crate::coord::is_coord(name) || marker_exists {
        return None;
    }
    let ghost cv = crate::coord::views(children@);
    let mut names: Vec<String> = Vec::new();
    let mut found = false;
    let mut i: usize = 0;
    while i < children.len()
        invariant
            i <= children@.len(),
            cv == crate::coord::views(children@),
            crate::coord::views(names@) =~= cv.take(i as int),
            found <==> cv.take(i as int).contains(name@),
        decreases children@.len() - i,
    {
        let ghost before = crate::coord::views(names@);
        if str_eq(children[i].as_str(), name) {
            found = true;
            assert(cv.take(i + 1)[i as int] == name@);
        }
        names.push(children[i].clone());
        assert(cv.take(i + 1) =~= cv.take(i as int).push(cv[i as int]));
        assert(crate::coord::views(names@) =~= before.push(children@[i as int]@));
        proof {
            if cv.take(i + 1).contains(name@) && !cv.take(i as int).contains(name@) {
                let t = choose|t: int| 0 <= t < i + 1 && #[trigger] cv.take(i + 1)[t] == name@;
                if t < i {
                    assert(cv.take(i as int)[t] == name@);
                }
            }
        }
        i = i + 1;
    }
    assert(cv.take(children@.len() as int) =~= cv);
    if !found {
        let ghost before = crate::coord::views(names@);
        names.push(string_from_chars(&chars_of(name)));
        assert(crate::coord::views(names@) =~= before.push(name@));
    }
    let ghost ns = crate::coord::views(names@);
    assert(ns == if cv.contains(name@) { cv } else { cv.push(name@) });
    let mut k: usize = 0;
    while k < names.len()
        invariant
            k <= names@.len(),
            ns == crate::coord::views(names@),
            cv == crate::coord::views(children@),
            ns == if cv.contains(name@) { cv } else { cv.push(name@) },
            ends_with_char(parent@, OBJ_SEP_CHAR) && crate::coord::is_coord_spec(name@) && !marker_exists,
            forall|t: int| 0 <= t < k ==> crate::coord::coords_fit(seq![#[trigger] ns[t]]),
        decreases names@.len() - k,
    {
        if !crate::coord::coords_fit_name(names[k].as_str()) {
            proof { crate::coord::lemma_coords_fit_each(ns); }
            assert(!crate::coord::coords_fit(seq![ns[k as int]]));
            return None;
        }
        k = k + 1;
    }
    proof { crate::coord::lemma_coords_fit_each(ns); }
    let none: Vec<i32> = Vec::new();
    assert(none@ =~= seq![]);
    let dims = crate::coord::grow_coord_dims(&none, &names);
    Some(dims_csv(&dims))
}

/// What storing a value at a resolved key does to the directory tree.
pub enum FsSetAction {
    /// Make the key's directory, record the extension path in its marker, list the entry
    /// in the parent.
    ExtDir { parent: String, entry: String, ext_path: String },
    /// Make the key's member directory, record the dimensions in its marker, list the
    /// entry in the parent.
    MapDir { parent: String, entry: String, dims: String },
    /// Make the key's member directory and list the entry in the parent.
    ObjDir { parent: String, entry: String },
    /// Make the key's directory and list the entry in the parent.
    IndexDir { parent: String, entry: String },
    /// Make the parent directory, write the value's bytes, list the name in the parent.
    Leaf { parent: String, name: String },
}

/// The changes to the directory tree that storing `v` at `resolved` makes: an extension
/// index, an object container, a map or an index becomes a directory listed in its parent
/// (the entry is the last segment with the directory suffix); any other value is a leaf of
/// its parent index.
pub fn fs_set_action(resolved: &str, v: &XValue) -> (r: FsSetAction)
    ensures
        match v@ {
            XV::ExtIndex(_, ext) => r matches FsSetAction::ExtDir { parent, entry, ext_path } && parent@
                == fs_parent_name_spec(resolved@).0 && entry@ == fs_parent_name_spec(resolved@).1 + entry_suffix(
                resolved@) && ext_path@ == ext,
            XV::MapVal(k, dims) => if k == KIND_OBJ@ {
                r matches FsSetAction::ObjDir { parent, entry } && parent@ == fs_parent_name_spec(resolved@).0
                    && entry@ == fs_parent_name_spec(resolved@).1 + OBJ_SEP@
            } else {
                r matches FsSetAction::MapDir { parent, entry, dims: d } && parent@
                    == fs_parent_name_spec(resolved@).0 && entry@ == fs_parent_name_spec(resolved@).1 + OBJ_SEP@
                    && d@ == dims_csv_spec(dims)
            },
            XV::Index(_) => r matches FsSetAction::IndexDir { parent, entry } && parent@ == fs_parent_name_spec(
                resolved@).0 && entry@ == fs_parent_name_spec(resolved@).1 + DIR_INDEX_SUF@,
            _ => r matches FsSetAction::Leaf { parent, name } && parent@ == split_index_spec(resolved@).0
                && name@ == split_index_spec(resolved@).1,
        },
{
    match v {
        XValue::ExtIndex(e) => {
            let (parent, name) = fs_parent_name(resolved);
            let mut entry = name;
            push_str(&mut entry, suffix_for(resolved));
            FsSetAction::ExtDir { parent, entry, ext_path: crate::text::string_of(e.ext_path.as_str()) }
        },
        XValue::MapVal(m) => {
            let (parent, name) = fs_parent_name(resolved);
            let mut entry = name;
            push_str(&mut entry, OBJ_SEP);
            if str_eq(m.langtype.as_str(), KIND_OBJ) {
                FsSetAction::ObjDir { parent, entry }
            } else {
                FsSetAction::MapDir { parent, entry, dims: dims_csv(m.dims.as_slice()) }
            }
        },
        XValue::Index(_) => {
            let (parent, name) = fs_parent_name(resolved);
            let mut entry = name;
            push_str(&mut entry, DIR_INDEX_SUF);
            FsSetAction::IndexDir { parent, entry }
        },
        _ => {
            let c = chars_of(resolved);
            let (parent, name, _) = split_index_chars(&c);
            FsSetAction::Leaf { parent: string_from_chars(&parent), name: string_from_chars(&name) }
        },
    }
}

} // verus!
