//! What the C ABI computes on plain values: heads written from their fields, the head
//! record handed across the boundary, the dims a langtype starts with, and error texts cut
//! to a caller's buffer.

use vstd::prelude::*;
use crate::coord::split_on;
use crate::fs_layout::{dim_of, non_empty};
use crate::le::{le_bytes, push_le};
use crate::text::{chars_of, find_char, find_char_index, parse_i32_chars, string_from_chars};
use crate::xvalue::{append_bytes, has_dims, phys_field, phys_field_bytes, store_has_dims, sub_chars, XValueHead};
use vstd::utf8::encode_utf8;

verus! {

/// The dims in a langtype's leading `[...]` (each field as `str::parse::<i32>` reads it, `0`
/// when it does not parse; empty fields skipped); none without a leading `[` and a `]`.
pub open spec fn langtype_dims_spec(lt: Seq<char>) -> Seq<i32> {
    if lt.len() > 0 && lt[0] == '[' {
        match find_char(lt, ']') {
            Some(e) => non_empty(split_on(lt.subrange(1, e as int), ',')).map_values(|p: Seq<char>| dim_of(p)),
            None => seq![],
        }
    } else {
        seq![]
    }
}

/// The dims a langtype starts with; see [`langtype_dims_spec`].
pub fn parse_langtype_dims(lt: &str) -> (r: Vec<i32>)
    ensures
        r@ == langtype_dims_spec(lt@),
{
    let c = chars_of(lt);
    let mut out: Vec<i32> = Vec::new();
    if c.len() == 0 || c[0] != '[' {
        return out;
    }
    let end = match find_char_index(&c, ']') {
        Some(e) => e,
        None => {
            return out;
        },
    };
    proof { crate::text::lemma_find_char(c@, ']'); }
    let inner = sub_chars(&c, 1, end);
    let parts = crate::backend::split_chars(&inner, ',');
    let mut i: usize = 0;
    let ghost pv = Seq::new(parts@.len(), |j: int| parts@[j]@);
    let ghost ne = non_empty(pv);
    assert(pv =~= split_on(lt@.subrange(1, end as int), ','));
    let mut j: usize = 0;
    let mut kept: Vec<Vec<char>> = Vec::new();
    while j < parts.len()
        invariant
            j <= parts@.len(),
            pv == Seq::new(parts@.len(), |k: int| parts@[k]@),
            Seq::new(kept@.len(), |k: int| kept@[k]@) == non_empty(pv.take(j as int)),
        decreases parts@.len() - j,
    {
        proof {
            assert(pv.take(j as int + 1).drop_last() =~= pv.take(j as int));
            assert(pv.take(j as int + 1).last() == parts@[j as int]@);
        }
        if parts[j].len() > 0 {
            let ghost before = kept@;
            kept.push(sub_chars(parts[j].as_slice(), 0, parts[j].len()));
            assert(parts@[j as int]@.subrange(0, parts@[j as int]@.len() as int) =~= parts@[j as int]@);
            assert(Seq::new(kept@.len(), |k: int| kept@[k]@) =~= Seq::new(before.len(), |k: int| before[k]@).push(
                parts@[j as int]@));
        }
        j = j + 1;
    }
    assert(pv.take(parts@.len() as int) =~= pv);
    let ghost kv = Seq::new(kept@.len(), |k: int| kept@[k]@);
    while i < kept.len()
        invariant
            i <= kept@.len(),
            kv == Seq::new(kept@.len(), |k: int| kept@[k]@),
            out@ == kv.take(i as int).map_values(|p: Seq<char>| dim_of(p)),
        decreases kept@.len() - i,
    {
        let d = match parse_i32_chars(kept[i].as_slice()) {
            Some(v) => v,
            None => 0,
        };
        out.push(d);
        i = i + 1;
        assert(out@ =~= kv.take(i as int).map_values(|p: Seq<char>| dim_of(p)));
    }
    assert(kv.take(kept@.len() as int) =~= kv);
    out
}

/// A value written from head fields: the head (`headlen` cut to 16 bits, `body_len` to 32)
/// with the physical dims taken from the langtype, then `body_len` zero bytes for the
/// caller to fill.
pub open spec fn built_tlv(r: u8, st: u8, ro: u8, vid: u32, lt: Seq<char>, body_len: nat) -> Seq<u8> {
    let pf = phys_field(st, langtype_dims_spec(lt));
    let hl = 13 + pf.len() + encode_utf8(lt).len();
    le_bytes(hl as nat, 2) + seq![r, st, ro] + le_bytes(vid as nat, 4) + le_bytes(body_len, 4) + pf
        + encode_utf8(lt) + Seq::new(body_len, |i: int| 0u8)
}

/// Writes a head from its fields and reserves the body; see [`built_tlv`].
pub fn build_tlv(reference: u8, storetype: u8, ro: u8, vid: u32, langtype: &str, body_len: usize) -> (b: Vec<u8>)
    requires
        14 + 56 * langtype@.len() + body_len <= usize::MAX,
    ensures
        b@ == built_tlv(reference, storetype, ro, vid, langtype@, body_len as nat),
{
    let dims = parse_langtype_dims(langtype);
    let lt = langtype.as_bytes();
    proof {
        crate::xvalue::lemma_utf8_len_bound(langtype@);
        lemma_langtype_dims_len(langtype@);
    }
    let pf = phys_field_bytes(storetype, &dims);
    let headlen: usize = 13 + pf.len() + lt.len();
    let mut v: Vec<u8> = Vec::new();
    push_le(&mut v, headlen as u64, 2);
    v.push(reference);
    v.push(storetype);
    v.push(ro);
    push_le(&mut v, vid as u64, 4);
    push_le(&mut v, body_len as u64, 4);
    append_bytes(&mut v, &pf);
    append_bytes(&mut v, lt);
    let ghost before = v@;
    let mut k: usize = 0;
    while k < body_len
        invariant
            k <= body_len,
            v@ == before + Seq::new(k as nat, |i: int| 0u8),
        decreases body_len - k,
    {
        v.push(0u8);
        k = k + 1;
        assert(v@ =~= before + Seq::new(k as nat, |i: int| 0u8));
    }
    proof {
        crate::le::lemma_pow256_values();
    }
    assert(v@ =~= built_tlv(reference, storetype, ro, vid, langtype@, body_len as nat));
    v
}

/// A langtype has no more dims than characters.
proof fn lemma_langtype_dims_len(lt: Seq<char>)
    ensures
        langtype_dims_spec(lt).len() <= lt.len(),
{
    if lt.len() > 0 && lt[0] == '[' {
        crate::text::lemma_find_char(lt, ']');
        match find_char(lt, ']') {
            Some(e) => {
                let inner = lt.subrange(1, e as int);
                lemma_split_len(inner, ',');
                lemma_non_empty_len(split_on(inner, ','));
            },
            None => {},
        }
    }
}

/// Splitting gives at most one part more than the text has characters.
proof fn lemma_split_len(s: Seq<char>, sep: char)
    ensures
        split_on(s, sep).len() <= s.len() + 1,
    decreases s.len(),
{
    if s.len() > 0 {
        lemma_split_len(s.drop_last(), sep);
        crate::coord::lemma_split_on_nonempty(s.drop_last(), sep);
    }
}

/// Keeping the non-empty parts keeps at most all of them.
proof fn lemma_non_empty_len(parts: Seq<Seq<char>>)
    ensures
        non_empty(parts).len() <= parts.len(),
    decreases parts.len(),
{
    if parts.len() > 0 {
        lemma_non_empty_len(parts.drop_last());
    }
}

/// A head as the C ABI hands it over: its fields, the first eight physical dims (zero
/// filled), and up to 255 bytes of the langtype's UTF-8 followed by zeros.
#[allow(non_camel_case_types)]
pub struct kvspaceHead_t {
    pub headlen: u16,
    pub reference: u8,
    pub storetype: u8,
    pub ro: u8,
    pub vid: u32,
    pub body_len: i32,
    pub ndim: i32,
    pub dims: [i32; 8],
    pub langtype: [u8; 256],
    pub langtype_len: i32,
    pub body_offset: i32,
}

/// The number of langtype bytes a head record keeps.
pub open spec fn kept_langtype_len(lt: Seq<char>) -> nat {
    if encode_utf8(lt).len() < 255 { encode_utf8(lt).len() } else { 255 }
}

/// The head record of a head.
pub fn head_record(head: &XValueHead) -> (o: kvspaceHead_t)
    ensures
        o.headlen == head.headlen,
        o.reference == head.reference,
        o.storetype == head.storetype,
        o.ro == (if head.ro { 1u8 } else { 0u8 }),
        o.vid == head.vid,
        o.body_len == head.body_len,
        o.body_offset == head.headlen as i32,
        o.ndim as int == (if head.phys_dims@.len() < 8 { head.phys_dims@.len() as int } else { 8 }),
        forall|i: int| 0 <= i < 8 ==> o.dims@[i] == (if i < head.phys_dims@.len() { head.phys_dims@[i] } else { 0 }),
        o.langtype_len as nat == kept_langtype_len(head.langtype@),
        forall|i: int| 0 <= i < 256 ==> o.langtype@[i] == (if i < kept_langtype_len(head.langtype@) {
            encode_utf8(head.langtype@)[i]
        } else {
            0u8
        }),
{
    let lt = head.langtype.as_str().as_bytes();
    let n: usize = if lt.len() < 255 { lt.len() } else { 255 };
    let mut lbuf = [0u8; 256];
    let mut i: usize = 0;
    while i < n
        invariant
            n <= 255,
            n <= lt@.len(),
            lt@ == encode_utf8(head.langtype@),
            i <= n,
            forall|k: int| 0 <= k < 256 ==> lbuf@[k] == (if k < i { lt@[k] } else { 0u8 }),
        decreases n - i,
    {
        lbuf[i] = lt[i];
        i = i + 1;
    }
    let pd = &head.phys_dims;
    let nd: usize = if pd.len() < 8 { pd.len() } else { 8 };
    let mut dbuf = [0i32; 8];
    let mut j: usize = 0;
    while j < nd
        invariant
            nd <= 8,
            nd <= pd@.len(),
            j <= nd,
            forall|k: int| 0 <= k < 8 ==> dbuf@[k] == (if k < j { pd@[k] } else { 0i32 }),
        decreases nd - j,
    {
        dbuf[j] = pd[j];
        j = j + 1;
    }
    kvspaceHead_t {
        headlen: head.headlen,
        reference: head.reference,
        storetype: head.storetype,
        ro: if head.ro { 1u8 } else { 0u8 },
        vid: head.vid,
        body_len: head.body_len,
        ndim: nd as i32,
        dims: dbuf,
        langtype: lbuf,
        langtype_len: n as i32,
        body_offset: head.head_len(),
    }
}

/// The error text written into a caller's buffer of `cap` bytes: the message's UTF-8 cut
/// to `cap - 1` bytes, then a terminating zero.
pub open spec fn err_buffer(msg: Seq<char>, cap: nat) -> Seq<u8> {
    let b = encode_utf8(msg);
    let n = if b.len() < cap - 1 { b.len() } else { (cap - 1) as nat };
    b.take(n as int).push(0u8)
}

/// The bytes an error message leaves in a buffer of `cap` bytes; see [`err_buffer`].
pub fn err_bytes(msg: &str, cap: u32) -> (r: Vec<u8>)
    requires
        cap > 0,
    ensures
        r@ == err_buffer(msg@, cap as nat),
{
    let b = msg.as_bytes();
    let limit: usize = (cap - 1) as usize;
    let n: usize = if b.len() < limit { b.len() } else { limit };
    let mut out: Vec<u8> = Vec::new();
    let mut i: usize = 0;
    while i < n
        invariant
            n <= b@.len(),
            i <= n,
            out@ == b@.take(i as int),
        decreases n - i,
    {
        out.push(b[i]);
        i = i + 1;
        assert(out@ =~= b@.take(i as int));
    }
    out.push(0u8);
    out
}

/// An in-place write fits the stored value: it exists, its head's body length is the one
/// written, and its bytes are exactly head and body.
pub open spec fn in_place_fits(existing: Seq<u8>, h: crate::xvalue::HeadView, body_len: u32) -> bool {
    existing.len() > 0 && h.body_len as u32 == body_len && existing.len() == h.headlen + body_len
}

/// Whether an in-place write of `body_len` bytes fits the stored bytes and their head; see
/// [`in_place_fits`].
pub fn in_place_ok(existing: &[u8], head: &XValueHead, body_len: u32) -> (r: bool)
    ensures
        r == in_place_fits(existing@, head@, body_len),
{
    if existing.len() == 0 {
        return false;
    }
    let hl: usize = head.headlen as usize;
    (head.body_len as u32) == body_len && existing.len() as u64 == hl as u64 + body_len as u64
}

} // verus!
