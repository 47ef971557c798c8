//! Member lists encoded as a fixed-width sorted matrix (shared by index, extindex and map
//! directories). The geometry `[len, cap, M]` lives in the head dims; the body is `cap` rows
//! of `M` bytes, the first `len` holding member names (UTF-8, NUL padded) in row-major order.

use std::cmp::Ordering;
use vstd::prelude::*;
use vstd::utf8::*;
use crate::coord::{cmp_coord_chars, coord_le, coord_order, lemma_coord_le};
use crate::consts::KIND_MAP;
use crate::text::{chars_of, decode_text, string_from_chars, string_of, utf8_lossy};
use crate::xvalue::{ExtIndex, MapValue, XValue, XV};

verus! {

/// Where insertion from the back stops: after the last element not ordered after `x`.
pub open spec fn insert_pos(t: Seq<Seq<char>>, x: Seq<char>) -> nat
    decreases t.len(),
{
    if t.len() == 0 {
        0
    } else if coord_order(t.last(), x) == Ordering::Greater {
        insert_pos(t.drop_last(), x)
    } else {
        t.len()
    }
}

/// Names in canonical order: a stable insertion sort by `coord_order`.
pub open spec fn sort_names(s: Seq<Seq<char>>) -> Seq<Seq<char>>
    decreases s.len(),
{
    if s.len() == 0 {
        seq![]
    } else {
        let t = sort_names(s.drop_last());
        t.insert(insert_pos(t, s.last()) as int, s.last())
    }
}

/// Names in member order (see [`coord_le`]).
pub open spec fn coord_sorted(t: Seq<Seq<char>>) -> bool {
    forall|i: int, j: int| 0 <= i < j < t.len() ==> coord_le(#[trigger] t[i], #[trigger] t[j])
}

/// Insertion stops after the last name not ordered after `x`: every name from there on is
/// ordered after it.
proof fn lemma_insert_pos_split(t: Seq<Seq<char>>, x: Seq<char>)
    ensures
        insert_pos(t, x) <= t.len(),
        forall|k: int| insert_pos(t, x) <= k < t.len() ==> !coord_le(#[trigger] t[k], x),
        insert_pos(t, x) > 0 ==> coord_le(t[insert_pos(t, x) - 1], x),
    decreases t.len(),
{
    if t.len() > 0 {
        lemma_insert_pos_split(t.drop_last(), x);
        if !coord_le(t.last(), x) {
            assert forall|k: int| insert_pos(t, x) <= k < t.len() implies !coord_le(#[trigger] t[k], x) by {
                if k < t.len() - 1 {
                    assert(t[k] == t.drop_last()[k]);
                }
            }
            if insert_pos(t, x) > 0 {
                assert(t[insert_pos(t, x) - 1] == t.drop_last()[insert_pos(t, x) - 1]);
            }
        }
    }
}

/// Canonical order sorts names into member order.
proof fn lemma_sort_names_sorted(s: Seq<Seq<char>>)
    ensures
        coord_sorted(sort_names(s)),
    decreases s.len(),
{
    broadcast use vstd::seq_lib::group_to_multiset_ensures;
    if s.len() > 0 {
        let d = s.drop_last();
        lemma_sort_names_sorted(d);
        lemma_sort_names_perm(d);
        let t = sort_names(d);
        let x = s.last();
        let p = insert_pos(t, x);
        lemma_insert_pos_split(t, x);
        let r = t.insert(p as int, x);
        assert forall|i: int, j: int| 0 <= i < j < r.len() implies coord_le(#[trigger] r[i], #[trigger] r[j]) by {
            if j < p {
                assert(r[i] == t[i] && r[j] == t[j]);
            } else if j == p {
                assert(r[i] == t[i] && r[j] == x);
                lemma_coord_le(t[i], t[p - 1], x);
                if i < p - 1 {
                    assert(coord_le(t[i], t[p - 1]));
                } else {
                    lemma_coord_le(t[i], t[i], t[i]);
                }
            } else if i < p {
                assert(r[i] == t[i] && r[j] == t[j - 1]);
            } else if i == p {
                assert(r[i] == x && r[j] == t[j - 1]);
                lemma_coord_le(t[j - 1], x, x);
            } else {
                assert(r[i] == t[i - 1] && r[j] == t[j - 1]);
            }
        }
    }
}

/// Members read back in member order: the canonical order a member list is stored and
/// listed in is sorted (numeric coordinate segments first, by value and row-major; other
/// names by text), and it holds the same names.
pub proof fn law_canonical_order(children: Seq<Seq<char>>)
    ensures
        coord_sorted(sort_names(children)),
        sort_names(children).to_multiset() == children.to_multiset(),
{
    lemma_sort_names_sorted(children);
    lemma_sort_names_perm(children);
}

/// `insert_pos` stays within the sequence.
pub proof fn lemma_insert_pos_bound(t: Seq<Seq<char>>, x: Seq<char>)
    ensures
        insert_pos(t, x) <= t.len(),
    decreases t.len(),
{
    if t.len() > 0 {
        lemma_insert_pos_bound(t.drop_last(), x);
    }
}

/// Sorting keeps the length.
pub proof fn lemma_sort_names_len(s: Seq<Seq<char>>)
    ensures
        sort_names(s).len() == s.len(),
    decreases s.len(),
{
    if s.len() > 0 {
        lemma_sort_names_len(s.drop_last());
        lemma_insert_pos_bound(sort_names(s.drop_last()), s.last());
    }
}

/// Sorting keeps the multiset of names.
pub proof fn lemma_sort_names_perm(s: Seq<Seq<char>>)
    ensures
        sort_names(s).to_multiset() == s.to_multiset(),
    decreases s.len(),
{
    broadcast use vstd::seq_lib::group_to_multiset_ensures;
    if s.len() > 0 {
        lemma_sort_names_perm(s.drop_last());
        let t = sort_names(s.drop_last());
        lemma_insert_pos_bound(t, s.last());
        broadcast use vstd::seq_lib::group_seq_properties;
        let p = insert_pos(t, s.last()) as int;
        assert(t.insert(p, s.last()) == t.take(p) + seq![s.last()] + t.skip(p));
        assert(t == t.take(p) + t.skip(p));
        assert(s == s.drop_last().push(s.last()));
        vstd::seq_lib::lemma_multiset_commutative(t.take(p), seq![s.last()]);
        vstd::seq_lib::lemma_multiset_commutative(t.take(p) + seq![s.last()], t.skip(p));
        vstd::seq_lib::lemma_multiset_commutative(t.take(p), t.skip(p));
    }
}

/// `s` cut to its first `j` elements.
pub open spec fn take_u<T>(s: Seq<T>, j: usize) -> Seq<T> {
    s.take(j as int)
}

/// `s` with `x` inserted at `p`.
pub open spec fn insert_nat<T>(s: Seq<T>, p: nat, x: T) -> Seq<T> {
    s.insert(p as int, x)
}

/// Stepping a prefix back by one element.
pub proof fn lemma_take_u_step(tv: Seq<Seq<char>>, t: Seq<Vec<char>>, j: usize, k: usize)
    requires
        tv == views(t),
        k + 1 == j,
        j <= t.len(),
    ensures
        take_u(tv, j).drop_last() == take_u(tv, k),
        take_u(tv, j).len() > 0,
        take_u(tv, j).last() == t[k as int]@,
{
    assert(take_u(tv, j).drop_last() =~= take_u(tv, k));
}

/// The prefix ends of a sequence.
pub proof fn lemma_take_u_ends(tv: Seq<Seq<char>>, j: usize, x: Seq<char>)
    requires
        j <= tv.len(),
    ensures
        j == tv.len() ==> take_u(tv, j) == tv,
        j == 0 ==> insert_pos(take_u(tv, j), x) == 0,
        insert_pos(take_u(tv, j), x) <= j,
{
    if j == tv.len() {
        assert(take_u(tv, j) =~= tv);
    }
    if j == 0 {
        assert(take_u(tv, j) =~= Seq::<Seq<char>>::empty());
    }
    lemma_insert_pos_bound(take_u(tv, j), x);
}

/// Inserting into a vector at `p` inserts its view at `p`.
pub proof fn lemma_views_insert(old_t: Seq<Vec<char>>, new_t: Seq<Vec<char>>, p: usize, x: Vec<char>)
    requires
        p <= old_t.len(),
        new_t == old_t.insert(p as int, x),
    ensures
        views(new_t) == insert_nat(views(old_t), p as nat, x@),
{
    assert(views(new_t) =~= insert_nat(views(old_t), p as nat, x@));
}

/// Inserts `x` into `t` where `insert_pos` says.
fn insert_sorted(t: &mut Vec<Vec<char>>, x: Vec<char>)
    ensures
        views(final(t)@) == insert_nat(views(old(t)@), insert_pos(views(old(t)@), x@), x@),
{
    let ghost tv = views(t@);
    let mut j: usize = t.len();
    proof { lemma_take_u_ends(tv, j, x@); }
    while j > 0
        invariant
            j <= t.len(),
            t@ == old(t)@,
            tv == views(t@),
            insert_pos(tv, x@) == insert_pos(take_u(tv, j), x@),
        ensures
            j <= t.len(),
            t@ == old(t)@,
            tv == views(t@),
            insert_pos(tv, x@) == j,
        decreases j,
    {
        let k: usize = j - 1;
        proof { lemma_take_u_step(tv, t@, j, k); }
        let o = cmp_coord_chars(&t[k], &x);
        match o {
            Ordering::Greater => {},
            _ => { break; },
        }
        j = k;
        proof { lemma_take_u_ends(tv, j, x@); }
    }
    let ghost before = t@;
    t.insert(j, x);
    proof { lemma_views_insert(before, t@, j, x); }
}

/// The character views of a list of names.
pub open spec fn views(v: Seq<Vec<char>>) -> Seq<Seq<char>> {
    Seq::new(v.len(), |i: int| v[i]@)
}

/// The character views of a list of strings.
pub open spec fn string_views(v: Seq<String>) -> Seq<Seq<char>> {
    Seq::new(v.len(), |i: int| v[i]@)
}

/// Sorts names into canonical row-major order (stable).
pub fn sort_chars(names: Vec<Vec<char>>) -> (r: Vec<Vec<char>>)
    ensures
        views(r@) == sort_names(views(names@)),
{
    let ghost nv = views(names@);
    let mut out: Vec<Vec<char>> = Vec::new();
    let mut i: usize = 0;
    while i < names.len()
        invariant
            i <= names.len(),
            nv == views(names@),
            views(out@) == sort_names(nv.take(i as int)),
        decreases names.len() - i,
    {
        assert(nv.take(i as int + 1).drop_last() == nv.take(i as int));
        assert(nv.take(i as int + 1).last() == names@[i as int]@);
        let x = clone_chars(&names[i]);
        insert_sorted(&mut out, x);
        assert(views(out@) == sort_names(nv.take(i as int + 1)));
        i = i + 1;
    }
    assert(nv.take(names.len() as int) == nv);
    out
}

/// A copy of a character vector.
pub fn clone_chars(v: &Vec<char>) -> (r: Vec<char>)
    ensures
        r@ == v@,
{
    vstd::slice::slice_to_vec(v.as_slice())
}

/// The characters of each string.
pub fn names_chars(names: &[String]) -> (r: Vec<Vec<char>>)
    ensures
        views(r@) == string_views(names@),
{
    let mut r: Vec<Vec<char>> = Vec::new();
    let mut i: usize = 0;
    while i < names.len()
        invariant
            i <= names.len(),
            r@.len() == i,
            forall|k: int| 0 <= k < i ==> (#[trigger] r@[k])@ == names@[k]@,
        decreases names.len() - i,
    {
        let cs = chars_of(names[i].as_str());
        assert(cs@ == names@[i as int]@);
        r.push(cs);
        i = i + 1;
    }
    assert(views(r@) =~= string_views(names@));
    r
}

/// Row width rounded up to a multiple of 8.
pub open spec fn align8_spec(n: nat) -> nat {
    ((n + 7) / 8 * 8) as nat
}

/// Rounds a row width up to a multiple of 8.
pub fn align8(n: usize) -> (r: usize)
    requires
        n + 7 <= usize::MAX,
    ensures
        r as nat == align8_spec(n as nat),
{
    (n + 7) / 8 * 8
}

/// Doubling `c` until it reaches `need`.
pub open spec fn double_until(c: nat, need: nat) -> nat
    decreases (if need > c { need - c } else { 0 }),
{
    if c == 0 || c >= need { c } else { double_until(2 * c, need) }
}

/// Capacity growth: unchanged when enough; `need` from empty; otherwise doubled until it
/// covers `need`.
pub open spec fn grow_cap_spec(old_cap: nat, need: nat) -> nat {
    if need <= old_cap { old_cap } else if old_cap == 0 { need } else { double_until(old_cap, need) }
}

/// Doubling ends at a value at least `need` and at least the start.
pub proof fn lemma_double_until(c: nat, need: nat)
    requires
        c >= 1,
    ensures
        double_until(c, need) >= need,
        double_until(c, need) >= c,
    decreases (if need > c { need - c } else { 0 }),
{
    if c < need {
        lemma_double_until(2 * c, need);
    }
}

/// Grows a capacity to cover `need` (see [`grow_cap_spec`]).
pub fn grow_cap(old_cap: usize, need: usize) -> (r: usize)
    requires
        grow_cap_spec(old_cap as nat, need as nat) <= usize::MAX,
    ensures
        r as nat == grow_cap_spec(old_cap as nat, need as nat),
{
    if need <= old_cap {
        old_cap
    } else if old_cap == 0 {
        need
    } else {
        let mut c: usize = old_cap;
        while c < need
            invariant
                1 <= c,
                double_until(c as nat, need as nat) == grow_cap_spec(old_cap as nat, need as nat),
                grow_cap_spec(old_cap as nat, need as nat) <= usize::MAX,
            decreases (if need > c { need - c } else { 0 }),
        {
            proof { lemma_double_until(2 * c as nat, need as nat); }
            c = c * 2;
        }
        c
    }
}

/// The UTF-8 byte length of each name, at its largest.
pub open spec fn max_len(names: Seq<Seq<char>>) -> nat
    decreases names.len(),
{
    if names.len() == 0 {
        0
    } else {
        let m = max_len(names.drop_last());
        let l = encode_utf8(names.last()).len();
        if l > m { l } else { m }
    }
}

/// `n` zero bytes.
pub open spec fn zeros(n: nat) -> Seq<u8> {
    Seq::new(n, |i: int| 0u8)
}

/// A name padded with NULs to width `m`.
pub open spec fn row_of(name: Seq<char>, m: nat) -> Seq<u8> {
    encode_utf8(name) + zeros((m - encode_utf8(name).len()) as nat)
}

/// The rows of the names, one after another.
pub open spec fn rows(names: Seq<Seq<char>>, m: nat) -> Seq<u8>
    decreases names.len(),
{
    if names.len() == 0 { seq![] } else { rows(names.drop_last(), m) + row_of(names.last(), m) }
}

/// The matrix body: the name rows, then empty rows up to `cap`.
pub open spec fn matrix_body(names: Seq<Seq<char>>, cap: nat, m: nat) -> Seq<u8> {
    rows(names, m) + zeros(((cap - names.len()) * m) as nat)
}

/// Width `M` of the matrix for these names and a lower bound.
pub open spec fn matrix_m(names: Seq<Seq<char>>, m_hint: nat) -> nat {
    let a = align8_spec(max_len(names));
    if m_hint >= a { m_hint } else { a }
}

/// Capacity of the matrix for these names and a lower bound.
pub open spec fn matrix_cap_of(names: Seq<Seq<char>>, cap_hint: nat) -> nat {
    if cap_hint >= names.len() { cap_hint } else { names.len() }
}

/// Geometry and body of an encoded member list (sorted first).
pub open spec fn encode_index_spec(children: Seq<Seq<char>>, cap_hint: nat, m_hint: nat) -> (Seq<i32>, Seq<u8>) {
    let c = sort_names(children);
    let m = matrix_m(c, m_hint);
    let cap = matrix_cap_of(c, cap_hint);
    (seq![c.len() as i32, cap as i32, m as i32], matrix_body(c, cap, m))
}

/// Encoding fits in memory.
pub open spec fn encode_index_fits(children: Seq<Seq<char>>, cap_hint: nat, m_hint: nat) -> bool {
    let c = sort_names(children);
    &&& max_len(c) + 7 <= usize::MAX
    &&& matrix_cap_of(c, cap_hint) * matrix_m(c, m_hint) <= usize::MAX
}

/// `max_len` bounds each name's byte length.
pub proof fn lemma_max_len(names: Seq<Seq<char>>, i: int)
    requires
        0 <= i < names.len(),
    ensures
        encode_utf8(names[i]).len() <= max_len(names),
    decreases names.len(),
{
    if i < names.len() - 1 {
        lemma_max_len(names.drop_last(), i);
    }
}

/// The rows take `m` bytes each when every name fits.
pub proof fn lemma_rows_len(names: Seq<Seq<char>>, m: nat)
    requires
        max_len(names) <= m,
    ensures
        rows(names, m).len() == names.len() * m,
    decreases names.len(),
{
    if names.len() > 0 {
        lemma_rows_len(names.drop_last(), m);
        lemma_max_len(names, names.len() - 1);
        assert(names.drop_last().len() * m + m == names.len() * m) by (nonlinear_arith)
            requires names.drop_last().len() + 1 == names.len();
    }
}

/// `max_len` of a prefix.
pub proof fn lemma_max_len_prefix(names: Seq<Seq<char>>, k: int)
    requires
        0 <= k <= names.len(),
    ensures
        max_len(names.take(k)) <= max_len(names),
    decreases names.len() - k,
{
    if k < names.len() {
        lemma_max_len_prefix(names, k + 1);
        assert(names.take(k + 1).drop_last() == names.take(k));
    } else {
        assert(names.take(k) == names);
    }
}

/// Encodes sorted names into a matrix body of `cap` rows of width `m`.
fn matrix_bytes(c: &Vec<Vec<char>>, cap: usize, m: usize) -> (body: Vec<u8>)
    requires
        cap >= c@.len(),
        max_len(views(c@)) <= m,
        cap * m <= usize::MAX,
    ensures
        body@ == matrix_body(views(c@), cap as nat, m as nat),
{
    let ghost cv = views(c@);
    let mut body: Vec<u8> = Vec::new();
    let mut i: usize = 0;
    while i < c.len()
        invariant
            i <= c.len(),
            cv == views(c@),
            max_len(cv) <= m,
            cap >= c@.len(),
            cap * m <= usize::MAX,
            body@ == rows(cv.take(i as int), m as nat),
        decreases c.len() - i,
    {
        let s = string_from_chars(&c[i]);
        let sb: &[u8] = s.as_str().as_bytes();
        proof {
            lemma_max_len(cv, i as int);
            assert(sb@ == encode_utf8(cv[i as int]));
            assert(cv.take(i as int + 1).drop_last() == cv.take(i as int));
            lemma_max_len_prefix(cv, i as int);
            lemma_rows_len(cv.take(i as int), m as nat);
            assert((i as nat) * (m as nat) + (m as nat) <= (cap as nat) * (m as nat)) by (nonlinear_arith)
                requires i < cap;
        }
        crate::xvalue::append_bytes(&mut body, sb);
        let mut k: usize = sb.len();
        while k < m
            invariant
                sb.len() <= k <= m,
                body@ == rows(cv.take(i as int), m as nat) + sb@ + zeros((k - sb.len()) as nat),
            decreases m - k,
        {
            body.push(0u8);
            k = k + 1;
            assert(body@ =~= rows(cv.take(i as int), m as nat) + sb@ + zeros((k - sb.len()) as nat));
        }
        i = i + 1;
        assert(body@ =~= rows(cv.take(i as int), m as nat));
    }
    assert(cv.take(c.len() as int) == cv);
    proof {
        lemma_rows_len(cv, m as nat);
        assert((cap - c.len()) * m <= cap * m) by (nonlinear_arith)
            requires cap >= c.len();
    }
    let pad: usize = (cap - c.len()) * m;
    let ghost pre = body@;
    let mut k: usize = 0;
    while k < pad
        invariant
            k <= pad,
            body@ == pre + zeros(k as nat),
        decreases pad - k,
    {
        body.push(0u8);
        k = k + 1;
        assert(body@ =~= pre + zeros(k as nat));
    }
    body
}

/// The largest UTF-8 byte length among the names.
fn max_byte_len(c: &Vec<Vec<char>>) -> (r: usize)
    ensures
        r as nat == max_len(views(c@)),
{
    let ghost cv = views(c@);
    let mut mx: usize = 0;
    let mut i: usize = 0;
    while i < c.len()
        invariant
            i <= c.len(),
            cv == views(c@),
            mx as nat == max_len(cv.take(i as int)),
        decreases c.len() - i,
    {
        let s = string_from_chars(&c[i]);
        let st: &str = s.as_str();
        let n = st.as_bytes().len();
        assert(st@ == cv[i as int]);
        assert(n == encode_utf8(cv[i as int]).len());
        assert(cv.take(i as int + 1).drop_last() == cv.take(i as int));
        assert(cv.take(i as int + 1).last() == cv[i as int]);
        if n > mx {
            mx = n;
        }
        i = i + 1;
    }
    assert(cv.take(c.len() as int) == cv);
    mx
}

/// Member list → (dims `[len, cap, M]`, body `cap × M`), sorted into canonical order;
/// `cap_hint` and `m_hint` are lower bounds that keep reserved rows and an existing width.
pub fn encode_index_grow(children: &[String], cap_hint: usize, m_hint: usize) -> (r: (Vec<i32>, Vec<u8>))
    requires
        encode_index_fits(string_views(children@), cap_hint as nat, m_hint as nat),
    ensures
        r.0@ == encode_index_spec(string_views(children@), cap_hint as nat, m_hint as nat).0,
        r.1@ == encode_index_spec(string_views(children@), cap_hint as nat, m_hint as nat).1,
{
    let cs = names_chars(children);
    let c = sort_chars(cs);
    let len = c.len();
    let ml = max_byte_len(&c);
    let a = align8(ml);
    let m: usize = if m_hint >= a { m_hint } else { a };
    let cap: usize = if cap_hint >= len { cap_hint } else { len };
    proof {
        lemma_sort_names_len(string_views(children@));
    }
    let body = matrix_bytes(&c, cap, m);
    let dims: Vec<i32> = vec![#[verifier::truncate] (len as i32), #[verifier::truncate] (cap as i32), #[verifier::truncate] (m as i32)];
    (dims, body)
}

/// The capacity grown to cover `need`, when it fits in `usize`; see [`grow_cap_spec`].
pub fn grow_cap_checked(old_cap: usize, need: usize) -> (r: Option<usize>)
    ensures
        r is Some <==> grow_cap_spec(old_cap as nat, need as nat) <= usize::MAX,
        r matches Some(c) ==> c as nat == grow_cap_spec(old_cap as nat, need as nat),
{
    if need <= old_cap || old_cap == 0 {
        return Some(grow_cap(old_cap, need));
    }
    let mut c: usize = old_cap;
    while c < need
        invariant
            1 <= c,
            double_until(c as nat, need as nat) == grow_cap_spec(old_cap as nat, need as nat),
        decreases (if need > c { need - c } else { 0 }),
    {
        if c > usize::MAX / 2 {
            proof {
                lemma_double_until(2 * c as nat, need as nat);
            }
            return None;
        }
        proof { lemma_double_until(2 * c as nat, need as nat); }
        c = c * 2;
    }
    Some(c)
}

/// The body length of the encoding of a member list, when the encoding fits in memory; see
/// [`encode_index_fits`].
pub fn index_body_len(children: &[String], cap_hint: usize, m_hint: usize) -> (r: Option<usize>)
    ensures
        r is Some <==> encode_index_fits(string_views(children@), cap_hint as nat, m_hint as nat),
        r matches Some(n) ==> n as nat == encode_index_spec(string_views(children@), cap_hint as nat, m_hint as nat).1.len(),
{
    let cs = names_chars(children);
    let c = sort_chars(cs);
    let len = c.len();
    let ml = max_byte_len(&c);
    if ml > usize::MAX - 7 {
        return None;
    }
    let a = align8(ml);
    let m: usize = if m_hint >= a { m_hint } else { a };
    let cap: usize = if cap_hint >= len { cap_hint } else { len };
    proof { lemma_sort_names_len(string_views(children@)); }
    assert((cap as u128) * (m as u128) <= 0xffff_ffff_ffff_ffff_ffff_ffff_ffff_ffffu128) by (nonlinear_arith)
        requires cap <= 0xffff_ffff_ffff_ffffu64, m <= 0xffff_ffff_ffff_ffffu64;
    let prod: u128 = (cap as u128) * (m as u128);
    if prod > usize::MAX as u128 {
        return None;
    }
    proof {
        let cv = sort_names(string_views(children@));
        lemma_rows_len(cv, m as nat);
        assert(matrix_body(cv, cap as nat, m as nat).len() == cap * m) by (nonlinear_arith)
            requires matrix_body(cv, cap as nat, m as nat).len() == cv.len() * m + (cap - cv.len()) * m,
                cap >= cv.len();
    }
    Some((cap * m) as usize)
}

/// The reserved row count and the row width of the encoding of a member list, when the row
/// width can be computed in `usize`; see [`matrix_cap_of`] and [`matrix_m`].
pub fn index_shape(children: &[String], cap_hint: usize, m_hint: usize) -> (r: Option<(usize, usize)>)
    ensures
        r is Some <==> max_len(sort_names(string_views(children@))) + 7 <= usize::MAX,
        r matches Some((cap, m)) ==> cap as nat == matrix_cap_of(sort_names(string_views(children@)), cap_hint as nat)
            && m as nat == matrix_m(sort_names(string_views(children@)), m_hint as nat),
{
    let cs = names_chars(children);
    let c = sort_chars(cs);
    let len = c.len();
    let ml = max_byte_len(&c);
    if ml > usize::MAX - 7 {
        return None;
    }
    let a = align8(ml);
    let m: usize = if m_hint >= a { m_hint } else { a };
    let cap: usize = if cap_hint >= len { cap_hint } else { len };
    proof { lemma_sort_names_len(string_views(children@)); }
    Some((cap, m))
}

/// Member list → compact encoding (`cap == len`).
pub fn encode_index(children: &[String]) -> (r: (Vec<i32>, Vec<u8>))
    requires
        encode_index_fits(string_views(children@), 0, 0),
    ensures
        r.0@ == encode_index_spec(string_views(children@), 0, 0).0,
        r.1@ == encode_index_spec(string_views(children@), 0, 0).1,
{
    encode_index_grow(children, 0, 0)
}

/// Member count `len = dims[0]` (negative counts as 0; missing as 0).
pub open spec fn matrix_count_spec(dims: Seq<i32>) -> nat {
    if dims.len() > 0 && dims[0] > 0 { dims[0] as nat } else { 0 }
}

/// Reserved rows `cap = dims[1]`.
pub open spec fn matrix_cap_spec(dims: Seq<i32>) -> nat {
    if dims.len() > 1 && dims[1] > 0 { dims[1] as nat } else { 0 }
}

/// Row width `M = dims[2]`.
pub open spec fn matrix_width_spec(dims: Seq<i32>) -> nat {
    if dims.len() > 2 && dims[2] > 0 { dims[2] as nat } else { 0 }
}

/// The member count of a matrix, from the head dims alone.
pub fn matrix_count(dims: &[i32]) -> (r: usize)
    ensures
        r as nat == matrix_count_spec(dims@),
{
    if dims.len() > 0 && dims[0] > 0 { dims[0] as usize } else { 0 }
}

/// The reserved rows of a matrix.
pub fn matrix_cap(dims: &[i32]) -> (r: usize)
    ensures
        r as nat == matrix_cap_spec(dims@),
{
    if dims.len() > 1 && dims[1] > 0 { dims[1] as usize } else { 0 }
}

/// The row width of a matrix.
pub fn matrix_width(dims: &[i32]) -> (r: usize)
    ensures
        r as nat == matrix_width_spec(dims@),
{
    if dims.len() > 2 && dims[2] > 0 { dims[2] as usize } else { 0 }
}

/// The bytes of a row up to its first NUL.
pub open spec fn until_nul(row: Seq<u8>) -> Seq<u8>
    decreases row.len(),
{
    if row.len() == 0 {
        seq![]
    } else if row[0] == 0 {
        seq![]
    } else {
        seq![row[0]] + until_nul(row.drop_first())
    }
}

/// Row `idx` of a matrix of width `m`: `None` past the end; the empty name when `m == 0`.
pub open spec fn matrix_at_spec(body: Seq<u8>, m: nat, idx: nat) -> Option<Seq<char>> {
    if m == 0 {
        Some(seq![])
    } else if idx * m + m > body.len() {
        None
    } else {
        Some(decode_text(until_nul(body.subrange((idx * m) as int, (idx * m + m) as int))))
    }
}

/// Row `idx` of the matrix (O(1)), without its NUL padding; `None` past the end.
pub fn matrix_at(body: &[u8], m: usize, idx: usize) -> (r: Option<String>)
    ensures
        r is Some <==> matrix_at_spec(body@, m as nat, idx as nat) is Some,
        r matches Some(s) ==> s@ == matrix_at_spec(body@, m as nat, idx as nat)->0,
{
    if m == 0 {
        return Some(String::new());
    }
    assert((idx as u128) * (m as u128) <= 0xffff_ffff_ffff_ffff_ffff_ffff_ffff_ffffu128 - 0x1_0000_0000_0000_0000u128) by (nonlinear_arith)
        requires idx <= 0xffff_ffff_ffff_ffffu64, m <= 0xffff_ffff_ffff_ffffu64;
    let s: u128 = (idx as u128) * (m as u128);
    let e: u128 = s + (m as u128);
    if e > body.len() as u128 {
        return None;
    }
    let s: usize = s as usize;
    let e: usize = e as usize;
    let mut end: usize = s;
    while end < e && body[end] != 0
        invariant
            s <= end <= e <= body.len(),
            until_nul(body@.subrange(s as int, e as int)) == body@.subrange(s as int, end as int) + until_nul(body@.subrange(end as int, e as int)),
        decreases e - end,
    {
        assert(body@.subrange(end as int, e as int).drop_first() == body@.subrange(end + 1, e as int));
        assert(body@.subrange(s as int, end + 1) == body@.subrange(s as int, end as int) + seq![body@[end as int]]);
        end = end + 1;
    }
    proof {
        if end < e {
            assert(body@.subrange(end as int, e as int)[0] == 0);
        }
        assert(until_nul(body@.subrange(end as int, e as int)) == Seq::<u8>::empty());
        assert(body@.subrange(s as int, s as int) == Seq::<u8>::empty());
    }
    let row = vstd::slice::slice_subrange(body, s, end);
    Some(utf8_lossy(row))
}

/// The rows `0..count` that exist (rows past the body's end are dropped).
pub open spec fn matrix_rows(body: Seq<u8>, m: nat, count: nat) -> Seq<Seq<char>>
    decreases count,
{
    if count == 0 {
        seq![]
    } else {
        let prev = matrix_rows(body, m, (count - 1) as nat);
        match matrix_at_spec(body, m, (count - 1) as nat) {
            Some(r) => prev.push(r),
            None => prev,
        }
    }
}

/// When the first `count` rows all lie inside the body, each of them is read as row `i`.
pub proof fn lemma_matrix_rows_full(body: Seq<u8>, m: nat, count: nat)
    requires
        count * m <= body.len(),
    ensures
        matrix_rows(body, m, count).len() == count,
        forall|i: int| #![trigger matrix_rows(body, m, count)[i]] 0 <= i < count
            ==> matrix_at_spec(body, m, i as nat) == Some(matrix_rows(body, m, count)[i]),
    decreases count,
{
    if count > 0 {
        let c1 = (count - 1) as nat;
        assert(c1 * m <= count * m) by (nonlinear_arith)
            requires c1 + 1 == count;
        assert(c1 * m + m == count * m) by (nonlinear_arith)
            requires c1 + 1 == count;
        lemma_matrix_rows_full(body, m, c1);
        assert(matrix_at_spec(body, m, c1) is Some);
        let prev = matrix_rows(body, m, c1);
        let all = matrix_rows(body, m, count);
        assert(all == prev.push(matrix_at_spec(body, m, c1)->0));
        assert forall|i: int| #![trigger all[i]] 0 <= i < count implies matrix_at_spec(body, m, i as nat) == Some(all[i]) by {
            if i < c1 {
                assert(all[i] == prev[i]);
                assert(matrix_at_spec(body, m, i as nat) == Some(prev[i]));
            }
        }
        assert(all.len() == count);
    }
}

/// Decodes a member list: the first `len` rows, NUL padding removed.
pub fn decode_index(body: &[u8], dims: &[i32]) -> (r: Vec<String>)
    ensures
        string_views(r@) == matrix_rows(body@, matrix_width_spec(dims@), matrix_count_spec(dims@)),
{
    let m = matrix_width(dims);
    let n = matrix_count(dims);
    decode_rows(body, m, n)
}

/// The existing rows `0..n` of a matrix of width `m`.
pub fn decode_rows(body: &[u8], m: usize, n: usize) -> (r: Vec<String>)
    ensures
        string_views(r@) == matrix_rows(body@, m as nat, n as nat),
{
    let mut out: Vec<String> = Vec::new();
    let mut i: usize = 0;
    while i < n
        invariant
            i <= n,
            string_views(out@) == matrix_rows(body@, m as nat, i as nat),
        decreases n - i,
    {
        let r = matrix_at(body, m, i);
        match r {
            Some(s) => {
                out.push(s);
            },
            None => {},
        }
        i = i + 1;
        assert(string_views(out@) =~= matrix_rows(body@, m as nat, i as nat));
    }
    out
}

/// Where the matrix starts inside an extindex body: after the extension path.
pub open spec fn ext_split(body: Seq<u8>, dims: Seq<i32>) -> nat {
    let mat = matrix_cap_spec(dims) * matrix_width_spec(dims);
    if mat >= body.len() { 0 } else { (body.len() - mat) as nat }
}

/// Decodes an extindex body: the extension path at its head, the member matrix at its tail.
pub open spec fn decode_ext_path_spec(body: Seq<u8>, dims: Seq<i32>) -> Seq<char> {
    decode_text(body.take(ext_split(body, dims) as int))
}

/// The extindex members.
pub open spec fn decode_ext_childs_spec(body: Seq<u8>, dims: Seq<i32>) -> Seq<Seq<char>> {
    matrix_rows(body.skip(ext_split(body, dims) as int), matrix_width_spec(dims), matrix_count_spec(dims))
}

/// Encoding of an extindex body: the extension path, then the member matrix.
pub open spec fn encode_ext_index_spec(ext_path: Seq<char>, children: Seq<Seq<char>>, cap_hint: nat, m_hint: nat) -> (Seq<i32>, Seq<u8>) {
    let (d, mat) = encode_index_spec(children, cap_hint, m_hint);
    (d, encode_utf8(ext_path) + mat)
}

/// Member list with reserved capacity → (dims, body = extension path + matrix).
pub fn encode_ext_index_grow(ext_path: &str, children: &[String], cap_hint: usize, m_hint: usize) -> (r: (Vec<i32>, Vec<u8>))
    requires
        encode_index_fits(string_views(children@), cap_hint as nat, m_hint as nat),
    ensures
        r.0@ == encode_ext_index_spec(ext_path@, string_views(children@), cap_hint as nat, m_hint as nat).0,
        r.1@ == encode_ext_index_spec(ext_path@, string_views(children@), cap_hint as nat, m_hint as nat).1,
{
    let (dims, mat) = encode_index_grow(children, cap_hint, m_hint);
    let mut body: Vec<u8> = Vec::new();
    crate::xvalue::append_bytes(&mut body, ext_path.as_bytes());
    crate::xvalue::append_bytes(&mut body, &mat);
    (dims, body)
}

/// Compact extindex encoding (`cap == len`).
pub fn encode_ext_index(ext_path: &str, children: &[String]) -> (r: (Vec<i32>, Vec<u8>))
    requires
        encode_index_fits(string_views(children@), 0, 0),
    ensures
        r.0@ == encode_ext_index_spec(ext_path@, string_views(children@), 0, 0).0,
        r.1@ == encode_ext_index_spec(ext_path@, string_views(children@), 0, 0).1,
{
    encode_ext_index_grow(ext_path, children, 0, 0)
}


/// Decodes an extindex body: the extension path before the matrix, the members from it.
pub fn decode_ext_index(body: &[u8], dims: &[i32]) -> (e: ExtIndex)
    ensures
        e.ext_path@ == decode_ext_path_spec(body@, dims@),
        string_views(e.childs@) == decode_ext_childs_spec(body@, dims@),
{
    let cap = matrix_cap(dims);
    let m = matrix_width(dims);
    assert(cap <= 0x7fff_ffff && m <= 0x7fff_ffff);
    assert((cap as u64) * (m as u64) <= 0x4000_0000_0000_0000u64) by (nonlinear_arith)
        requires cap <= 0x7fff_ffff, m <= 0x7fff_ffff;
    let mat: u64 = (cap as u64) * (m as u64);
    let off: usize = if mat >= body.len() as u64 { 0 } else { body.len() - (mat as usize) };
    assert(off as nat == ext_split(body@, dims@));
    let head = vstd::slice::slice_subrange(body, 0, off);
    assert(head@ == body@.take(off as int));
    let ext_path = utf8_lossy(head);
    let tail = vstd::slice::slice_subrange(body, off, body.len());
    assert(tail@ == body@.skip(off as int));
    let childs = decode_rows(tail, m, matrix_count(dims));
    ExtIndex { childs, ext_path }
}

/// A member list value.
pub fn new_index(children: &[String]) -> (x: XValue)
    ensures
        x@ == XV::Index(string_views(children@)),
{
    let mut c: Vec<String> = Vec::new();
    let mut i: usize = 0;
    while i < children.len()
        invariant
            i <= children.len(),
            c@.len() == i,
            forall|j: int| 0 <= j < i ==> (#[trigger] c@[j])@ == children@[j]@,
        decreases children.len() - i,
    {
        let ci = children[i].clone();
        c.push(ci);
        i = i + 1;
    }
    assert(string_views(c@) =~= string_views(children@));
    XValue::Index(c)
}

/// An empty scattered-key ndarray (`strkeymapindex`) with the given logical dims; a map has
/// at least one axis.
pub fn new_map_index(dims: &[i32]) -> (x: XValue)
    requires
        dims@.len() >= 1,
    ensures
        x@ == XV::MapVal(KIND_MAP@, dims@),
{
    XValue::MapVal(MapValue { langtype: string_of(KIND_MAP), dims: vstd::slice::slice_to_vec(dims) })
}

/// An extension index: local members and the read-only extension path.
pub fn new_ext_index(children: &[String], ext_path: &str) -> (x: XValue)
    ensures
        x@ == XV::ExtIndex(string_views(children@), ext_path@),
{
    let x = new_index(children);
    match x {
        XValue::Index(c) => XValue::ExtIndex(ExtIndex { childs: c, ext_path: string_of(ext_path) }),
        _ => XValue::ExtIndex(ExtIndex { childs: Vec::new(), ext_path: string_of(ext_path) }),
    }
}

} // verus!
