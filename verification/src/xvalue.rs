//! The XValue head: three orthogonal axes (`ref` × `storetype` × `langtype`) and its wire form.
//!
//! head = `[headlen u16 LE][ref u8][storetype u8][ro u8][vid u32 LE][body_len u32 LE]`
//!        `[ndim u8 + dims u32 LE each, for ARRAYND/index/extindex][langtype UTF-8]`,
//! followed by `body_len` raw body bytes.

use vstd::prelude::*;
use vstd::utf8::*;
use crate::consts::{KIND_DEF_RWIR, KIND_EXT_INDEX, KIND_INDEX, KIND_RWFUNC, OBJ_SEP_CHAR};
use crate::coord::split_on;
use crate::le::{le_bytes, le_value, push_le, read_le, signed_of, twos, pow256, lemma_pow256_values};
use crate::text::{
    chars_eq, chars_of, contains_char, find_char, find_char_index, int_to_decimal, parse_i32_chars,
    parse_i32_spec, push_char, push_i64, string_from_chars, trim, trim_chars, utf8_lossy, decode_text,
};

verus! {

/// Bytes before the physical dims: headlen(2)+ref(1)+storetype(1)+ro(1)+vid(4)+body_len(4).
pub const HEAD_PREFIX: usize = 13;

pub const REF_INLINE: u8 = 0;
pub const REF_PTR: u8 = 1;
pub const REF_EXT: u8 = 2;

pub const STORETYPE_NONE: u8 = 0;
pub const STORETYPE_ATOM: u8 = 1;
pub const STORETYPE_ARRAYND: u8 = 2;
pub const STORETYPE_INDEX: u8 = 3;
pub const STORETYPE_EXTINDEX: u8 = 4;

/// ARRAYND, index and extindex carry the `ndim + dims` physical field.
pub open spec fn has_dims(st: u8) -> bool {
    st == STORETYPE_ARRAYND || st == STORETYPE_INDEX || st == STORETYPE_EXTINDEX
}

/// Whether the storetype carries the `ndim + dims` physical field.
pub fn store_has_dims(st: u8) -> (r: bool)
    ensures
        r == has_dims(st),
{
    st == STORETYPE_ARRAYND || st == STORETYPE_INDEX || st == STORETYPE_EXTINDEX
}

/// Kinds laid out as an index (`index`, `extindex`, `rwfunc`, `def rwir`).
pub open spec fn is_index_kind_spec(k: Seq<char>) -> bool {
    k == KIND_INDEX@ || k == KIND_EXT_INDEX@ || k == KIND_RWFUNC@ || k == KIND_DEF_RWIR@
}

/// Whether a kind is laid out as an index.
pub fn is_index_kind(kind: &[char]) -> (r: bool)
    ensures
        r == is_index_kind_spec(kind@),
{
    let a = chars_of(KIND_INDEX);
    let b = chars_of(KIND_EXT_INDEX);
    let c = chars_of(KIND_RWFUNC);
    let d = chars_of(KIND_DEF_RWIR);
    chars_eq(kind, &a) || chars_eq(kind, &b) || chars_eq(kind, &c) || chars_eq(kind, &d)
}

/// A map langtype `{key}·{value}` holds the member separator.
pub open spec fn is_map_langtype_spec(k: Seq<char>) -> bool {
    k.contains(OBJ_SEP_CHAR)
}

/// Whether a kind is a map langtype `{memitemkeylangtype}·{memitemvaluelangtype}`.
pub fn is_map_langtype(kind: &str) -> (r: bool)
    ensures
        r == is_map_langtype_spec(kind@),
{
    let k = chars_of(kind);
    contains_char(&k, OBJ_SEP_CHAR)
}

/// The storetype of a base kind with `ndim` dimensions.
pub open spec fn storetype_of_spec(kind: Seq<char>, ndim: int) -> u8 {
    if kind.len() == 0 {
        STORETYPE_NONE
    } else if kind == KIND_EXT_INDEX@ {
        STORETYPE_EXTINDEX
    } else if is_index_kind_spec(kind) || is_map_langtype_spec(kind) {
        STORETYPE_INDEX
    } else if ndim > 0 {
        STORETYPE_ARRAYND
    } else {
        STORETYPE_ATOM
    }
}

/// The storetype of a base kind with `ndim` dimensions.
pub fn storetype_of(kind: &[char], ndim: i32) -> (r: u8)
    ensures
        r == storetype_of_spec(kind@, ndim as int),
{
    if kind.len() == 0 {
        return STORETYPE_NONE;
    }
    let e = chars_of(KIND_EXT_INDEX);
    if chars_eq(kind, &e) {
        return STORETYPE_EXTINDEX;
    }
    if is_index_kind(kind) || contains_char(kind, OBJ_SEP_CHAR) {
        return STORETYPE_INDEX;
    }
    if ndim > 0 {
        return STORETYPE_ARRAYND;
    }
    STORETYPE_ATOM
}

/// Splits a kindexpr into (has a leading `[...]`, the part after the first `]`).
pub open spec fn kx_base(kx: Seq<char>) -> (bool, Seq<char>) {
    if kx.len() > 0 && kx[0] == '[' {
        match find_char(kx, ']') {
            Some(e) => (true, kx.skip(e as int + 1)),
            None => (false, kx),
        }
    } else {
        (false, kx)
    }
}

/// The storetype a pointer head carries: that of its target's full kindexpr.
pub open spec fn storetype_from_kindexpr_spec(kx: Seq<char>) -> u8 {
    if kx.len() == 0 {
        STORETYPE_NONE
    } else {
        let (dims, base) = kx_base(kx);
        if base == KIND_EXT_INDEX@ {
            STORETYPE_EXTINDEX
        } else if is_index_kind_spec(base) || (base.len() > 0 && base[0] == '/')
            || base.contains(OBJ_SEP_CHAR) {
            STORETYPE_INDEX
        } else if dims {
            STORETYPE_ARRAYND
        } else {
            STORETYPE_ATOM
        }
    }
}

/// Copies `s[from..to]` into a new vector.
pub fn sub_chars(s: &[char], from: usize, to: usize) -> (r: Vec<char>)
    requires
        from <= to <= s.len(),
    ensures
        r@ == s@.subrange(from as int, to as int),
{
    let mut r: Vec<char> = Vec::new();
    let mut i: usize = from;
    while i < to
        invariant
            from <= i <= to <= s.len(),
            r@ == s@.subrange(from as int, i as int),
        decreases to - i,
    {
        r.push(s[i]);
        i = i + 1;
        assert(r@ =~= s@.subrange(from as int, i as int));
    }
    r
}

/// The storetype of a pointer head, from the target's full kindexpr.
pub fn storetype_from_kindexpr(kx: &[char]) -> (r: u8)
    ensures
        r == storetype_from_kindexpr_spec(kx@),
{
    if kx.len() == 0 {
        return STORETYPE_NONE;
    }
    let mut has_dims_part = false;
    let mut base: Vec<char> = sub_chars(kx, 0, kx.len());
    if kx[0] == '[' {
        match find_char_index(kx, ']') {
            Some(e) => {
                proof { crate::text::lemma_find_char(kx@, ']'); }
                has_dims_part = true;
                base = sub_chars(kx, e + 1, kx.len());
                assert(base@ == kx@.skip(e + 1));
            },
            None => {},
        }
    }
    assert(kx@.subrange(0, kx@.len() as int) == kx@);
    let e = chars_of(KIND_EXT_INDEX);
    if chars_eq(&base, &e) {
        return STORETYPE_EXTINDEX;
    }
    if is_index_kind(&base) || (base.len() > 0 && base[0] == '/') || contains_char(&base, OBJ_SEP_CHAR) {
        return STORETYPE_INDEX;
    }
    if has_dims_part {
        return STORETYPE_ARRAYND;
    }
    STORETYPE_ATOM
}

/// The integers `d` joined by `,` in decimal.
pub open spec fn dims_text(d: Seq<i32>) -> Seq<char>
    decreases d.len(),
{
    if d.len() == 0 {
        seq![]
    } else if d.len() == 1 {
        int_to_decimal(d[0] as int)
    } else {
        dims_text(d.drop_last()) + seq![','] + int_to_decimal(d.last() as int)
    }
}

/// The langtype string: `[d0,d1,...]kind` for a non-scalar ARRAYND, else the bare kind.
pub open spec fn langtype_spec(kind: Seq<char>, st: u8, dims: Seq<i32>) -> Seq<char> {
    if st == STORETYPE_ARRAYND && dims.len() > 0 {
        seq!['['] + dims_text(dims) + seq![']'] + kind
    } else {
        kind
    }
}

/// Appends `[d0,d1,...]`.
pub fn push_dims_text(s: &mut String, dims: &[i32])
    ensures
        final(s)@ == old(s)@ + seq!['['] + dims_text(dims@) + seq![']'],
{
    push_char(s, '[');
    let mut i: usize = 0;
    while i < dims.len()
        invariant
            i <= dims.len(),
            s@ == old(s)@ + seq!['['] + dims_text(dims@.take(i as int)),
        decreases dims.len() - i,
    {
        if i > 0 {
            push_char(s, ',');
        }
        push_i64(s, dims[i] as i64);
        assert(dims@.take(i as int + 1).drop_last() == dims@.take(i as int));
        i = i + 1;
    }
    assert(dims@.take(dims.len() as int) == dims@);
    push_char(s, ']');
}

/// Builds the langtype string (`[dims]` prefix only for a non-scalar ARRAYND).
pub fn build_langtype(kind: &[char], storetype: u8, dims: &[i32]) -> (s: String)
    ensures
        s@ == langtype_spec(kind@, storetype, dims@),
{
    let mut s = String::new();
    if storetype == STORETYPE_ARRAYND && dims.len() > 0 {
        push_dims_text(&mut s, dims);
    }
    let mut i: usize = 0;
    let ghost start = s@;
    while i < kind.len()
        invariant
            i <= kind.len(),
            s@ == start + kind@.take(i as int),
        decreases kind.len() - i,
    {
        push_char(&mut s, kind[i]);
        i = i + 1;
        assert(s@ =~= start + kind@.take(i as int));
    }
    assert(kind@.take(kind.len() as int) == kind@);
    s
}

/// A part of a `[...]` shape is a dimension when it trims to empty, `?` or an `i32`.
pub open spec fn shape_part_ok(p: Seq<char>) -> bool {
    trim(p).len() == 0 || trim(p) == seq!['?'] || parse_i32_spec(trim(p)) is Some
}

/// Every part is a dimension.
pub open spec fn shape_parts_ok(parts: Seq<Seq<char>>) -> bool {
    forall|j: int| 0 <= j < parts.len() ==> shape_part_ok(#[trigger] parts[j])
}

/// The dims of a shape: its non-empty parts parsed (`0` where a part does not parse as-is).
pub open spec fn shape_dims(parts: Seq<Seq<char>>) -> Seq<i32>
    decreases parts.len(),
{
    if parts.len() == 0 {
        seq![]
    } else if parts.last().len() == 0 {
        shape_dims(parts.drop_last())
    } else {
        shape_dims(parts.drop_last()).push(
            match parse_i32_spec(parts.last()) { Some(v) => v, None => 0i32 })
    }
}

/// A kindexpr split into (dims, base kind). A map langtype (holding `·`) has no shape; a
/// leading `[...]` is a shape only when each of its parts is a dimension.
pub open spec fn parse_kindexpr_spec(s: Seq<char>) -> (Seq<i32>, Seq<char>) {
    if s.contains(OBJ_SEP_CHAR) {
        (seq![], s)
    } else if s.len() > 0 && s[0] == '[' {
        match find_char(s, ']') {
            Some(e) => {
                let parts = split_on(s.subrange(1, e as int), ',');
                if shape_parts_ok(parts) {
                    (shape_dims(parts), s.skip(e as int + 1))
                } else {
                    (seq![], s)
                }
            },
            None => (seq![], s),
        }
    } else {
        (seq![], s)
    }
}

/// Splits a shape text at `,` into its parts.
pub fn split_commas(s: &[char]) -> (r: Vec<Vec<char>>)
    ensures
        r@.len() == split_on(s@, ',').len(),
        forall|j: int| 0 <= j < r@.len() ==> (#[trigger] r@[j])@ == split_on(s@, ',')[j],
{
    let mut parts: Vec<Vec<char>> = Vec::new();
    let mut cur: Vec<char> = Vec::new();
    let mut i: usize = 0;
    while i < s.len()
        invariant
            i <= s.len(),
            ({
                let sp = split_on(s@.take(i as int), ',');
                &&& parts@.len() + 1 == sp.len()
                &&& forall|j: int| 0 <= j < parts@.len() ==> (#[trigger] parts@[j])@ == sp[j]
                &&& cur@ == sp.last()
            }),
        decreases s.len() - i,
    {
        proof {
            crate::coord::lemma_split_on_nonempty(s@.take(i as int), ',');
            assert(s@.take(i as int + 1).drop_last() == s@.take(i as int));
            assert(s@.take(i as int + 1).last() == s@[i as int]);
        }
        if s[i] == ',' {
            parts.push(cur);
            cur = Vec::new();
        } else {
            cur.push(s[i]);
        }
        i = i + 1;
    }
    assert(s@.take(s.len() as int) == s@);
    parts.push(cur);
    parts
}

/// Splits a kindexpr into (dims, base kind); see [`parse_kindexpr_spec`].
pub fn parse_kindexpr(s: &[char]) -> (r: (Vec<i32>, Vec<char>))
    ensures
        r.0@ == parse_kindexpr_spec(s@).0,
        r.1@ == parse_kindexpr_spec(s@).1,
{
    let whole = sub_chars(s, 0, s.len());
    assert(s@.subrange(0, s@.len() as int) == s@);
    if contains_char(s, OBJ_SEP_CHAR) {
        return (Vec::new(), whole);
    }
    if s.len() == 0 || s[0] != '[' {
        return (Vec::new(), whole);
    }
    let e = match find_char_index(s, ']') {
        Some(e) => e,
        None => { return (Vec::new(), whole); },
    };
    proof { crate::text::lemma_find_char(s@, ']'); }
    let inner = sub_chars(s, 1, e);
    let parts = split_commas(&inner);
    let ghost sp = split_on(inner@, ',');
    assert(inner@ == s@.subrange(1, e as int));
    let mut j: usize = 0;
    while j < parts.len()
        invariant
            j <= parts.len(),
            whole@ == s@,
            s@.len() > 0 && s@[0] == '[',
            !s@.contains(OBJ_SEP_CHAR),
            find_char(s@, ']') == Some(e as nat),
            sp == split_on(s@.subrange(1, e as int), ','),
            parts@.len() == sp.len(),
            forall|k: int| 0 <= k < parts@.len() ==> (#[trigger] parts@[k])@ == sp[k],
            forall|k: int| 0 <= k < j ==> shape_part_ok(#[trigger] sp[k]),
        decreases parts.len() - j,
    {
        let t = trim_chars(&parts[j]);
        let ok = t.len() == 0 || (t.len() == 1 && t[0] == '?') || parse_i32_chars(&t).is_some();
        proof {
            if t.len() == 1 && t[0] == '?' {
                assert(t@ == seq!['?']);
            }
            if t@ == seq!['?'] {
                assert(t.len() == 1 && t[0] == '?');
            }
        }
        if !ok {
            assert(!shape_part_ok(sp[j as int]));
            assert(!shape_parts_ok(sp));
            return (Vec::new(), whole);
        }
        j = j + 1;
    }
    let mut dims: Vec<i32> = Vec::new();
    let mut k: usize = 0;
    while k < parts.len()
        invariant
            k <= parts.len(),
            parts@.len() == sp.len(),
            forall|q: int| 0 <= q < parts@.len() ==> (#[trigger] parts@[q])@ == sp[q],
            dims@ == shape_dims(sp.take(k as int)),
        decreases parts.len() - k,
    {
        assert(sp.take(k as int + 1).drop_last() == sp.take(k as int));
        assert(sp.take(k as int + 1).last() == sp[k as int]);
        if parts[k].len() > 0 {
            let v = match parse_i32_chars(&parts[k]) {
                Some(v) => v,
                None => 0,
            };
            dims.push(v);
        }
        k = k + 1;
    }
    assert(sp.take(parts.len() as int) == sp);
    let base = sub_chars(s, e + 1, s.len());
    (dims, base)
}


/// The decoded fields of a head.
pub struct HeadView {
    pub headlen: nat,
    pub reference: u8,
    pub storetype: u8,
    pub langtype: Seq<char>,
    pub phys_dims: Seq<i32>,
    pub ro: bool,
    pub vid: u32,
    pub body_len: i32,
}

/// The head of an XValue: where it lives (`reference`), its physical layout (`storetype`),
/// its full kindexpr (`langtype`), the physical dims, permission bits and the body length.
#[derive(Clone, Debug, PartialEq)]
pub struct XValueHead {
    pub headlen: u16,
    pub reference: u8,
    pub storetype: u8,
    pub langtype: String,
    pub phys_dims: Vec<i32>,
    pub ro: bool,
    pub vid: u32,
    pub body_len: i32,
}

impl View for XValueHead {
    type V = HeadView;

    open spec fn view(&self) -> HeadView {
        HeadView {
            headlen: self.headlen as nat,
            reference: self.reference,
            storetype: self.storetype,
            langtype: self.langtype@,
            phys_dims: self.phys_dims@,
            ro: self.ro,
            vid: self.vid,
            body_len: self.body_len,
        }
    }
}

/// The all-zero head, what a malformed prefix decodes to.
pub open spec fn empty_head() -> HeadView {
    HeadView {
        headlen: 0,
        reference: 0,
        storetype: 0,
        langtype: seq![],
        phys_dims: seq![],
        ro: false,
        vid: 0,
        body_len: 0,
    }
}

/// The product of the dims (1 for a scalar).
pub open spec fn dims_product(d: Seq<i32>) -> int
    decreases d.len(),
{
    if d.len() == 0 { 1 } else { dims_product(d.drop_last()) * d.last() }
}

/// Every running product of the dims fits in `i32`.
pub open spec fn product_fits(d: Seq<i32>) -> bool {
    forall|k: int| 0 <= k <= d.len() ==> i32::MIN <= #[trigger] dims_product(d.take(k)) <= i32::MAX
}

/// The product of the dims, computed left to right.
pub fn product_i32(d: &[i32]) -> (r: i32)
    requires
        product_fits(d@),
    ensures
        r as int == dims_product(d@),
{
    let mut p: i32 = 1;
    let mut i: usize = 0;
    assert(d@.take(0) == Seq::<i32>::empty());
    while i < d.len()
        invariant
            i <= d.len(),
            product_fits(d@),
            p as int == dims_product(d@.take(i as int)),
        decreases d.len() - i,
    {
        assert(d@.take(i as int + 1).drop_last() == d@.take(i as int));
        assert(i32::MIN <= dims_product(d@.take(i as int + 1)) <= i32::MAX);
        p = p * d[i];
        i = i + 1;
    }
    assert(d@.take(d.len() as int) == d@);
    p
}

impl XValueHead {
    /// The all-zero head.
    pub fn empty() -> (h: XValueHead)
        ensures
            h@ == empty_head(),
    {
        XValueHead {
            headlen: 0,
            reference: 0,
            storetype: 0,
            langtype: String::new(),
            phys_dims: Vec::new(),
            ro: false,
            vid: 0,
            body_len: 0,
        }
    }

    /// Where the value lives: 0 inline, 1 pointer, 2 extension handle.
    pub fn reference(&self) -> (r: i32)
        ensures
            r == self.reference as i32,
    {
        self.reference as i32
    }

    /// Whether the value is a pointer (`ref == 1`).
    pub fn is_ptr(&self) -> (r: bool)
        ensures
            r == (self.reference == REF_PTR),
    {
        self.reference == REF_PTR
    }

    /// The base kind: the langtype without its shape.
    pub fn kind(&self) -> (k: String)
        ensures
            k@ == parse_kindexpr_spec(self.langtype@).1,
    {
        let lt = chars_of(self.langtype.as_str());
        let (_, base) = parse_kindexpr(&lt);
        string_from_chars(&base)
    }

    /// The physical dims.
    pub fn dims(&self) -> (d: Vec<i32>)
        ensures
            d@ == self.phys_dims@,
    {
        vstd::slice::slice_to_vec(self.phys_dims.as_slice())
    }

    /// The number of physical dims.
    pub fn ndim(&self) -> (n: i32)
        ensures
            n == self.phys_dims@.len() as i32,
    {
        self.phys_dims.len() as i32
    }

    /// Element count: the product of the physical dims, 1 for a scalar.
    pub fn array_len(&self) -> (n: i32)
        requires
            product_fits(self.phys_dims@),
        ensures
            n as int == dims_product(self.phys_dims@),
    {
        product_i32(self.phys_dims.as_slice())
    }

    /// The head's byte count (the body starts here).
    pub fn head_len(&self) -> (n: i32)
        ensures
            n == self.headlen as i32,
    {
        self.headlen as i32
    }

    /// The body within the full value bytes `data`; empty when `data` is too short.
    pub fn body(&self, data: &[u8]) -> (b: Vec<u8>)
        requires
            !(self.body_len < 0 && self.headlen as int >= -(self.body_len as int)),
        ensures
            b@ == body_of(self@, data@),
    {
        let off: usize = self.headlen as usize;
        if self.body_len < 0 {
            return Vec::new();
        }
        let n: usize = self.body_len as usize;
        if off + n > data.len() {
            return Vec::new();
        }
        let s = vstd::slice::slice_subrange(data, off, off + n);
        vstd::slice::slice_to_vec(s)
    }
}

/// The body a head delimits within `data` (empty when out of range).
pub open spec fn body_of(h: HeadView, data: Seq<u8>) -> Seq<u8> {
    if h.body_len < 0 || h.headlen + h.body_len > data.len() {
        seq![]
    } else {
        data.subrange(h.headlen as int, h.headlen + h.body_len)
    }
}

/// Appends bytes.
pub fn append_bytes(buf: &mut Vec<u8>, src: &[u8])
    ensures
        final(buf)@ == old(buf)@ + src@,
{
    let mut i: usize = 0;
    while i < src.len()
        invariant
            i <= src.len(),
            buf@ == old(buf)@ + src@.take(i as int),
        decreases src.len() - i,
    {
        buf.push(src[i]);
        i = i + 1;
        assert(buf@ =~= old(buf)@ + src@.take(i as int));
    }
    assert(src@.take(src.len() as int) == src@);
}

/// The low byte of an `i32` (two's complement).
pub open spec fn low_byte(r: i32) -> u8 {
    (r as int % 256) as u8
}

/// The bytes of dims, each `u32` little-endian (two's complement).
pub open spec fn dims_le(d: Seq<i32>) -> Seq<u8>
    decreases d.len(),
{
    if d.len() == 0 {
        seq![]
    } else {
        dims_le(d.drop_last()) + le_bytes(twos(d.last() as int, 4), 4)
    }
}

/// The physical field: `ndim u8` and the dims, for storetypes that carry it.
pub open spec fn phys_field(st: u8, phys: Seq<i32>) -> Seq<u8> {
    if has_dims(st) {
        seq![(phys.len() % 256) as u8] + dims_le(phys)
    } else {
        seq![]
    }
}

/// (storetype, langtype, physical dims) of a head: a pointer takes the target's kindexpr as
/// is; an inline value derives them from its base kind and dims.
pub open spec fn head_axes(kind: Seq<char>, r: i32, dims: Seq<i32>) -> (u8, Seq<char>, Seq<i32>) {
    if r == 1 {
        (storetype_from_kindexpr_spec(kind), kind, seq![])
    } else {
        let st = storetype_of_spec(kind, (dims.len() as i32) as int);
        (st, langtype_spec(kind, st, dims), if has_dims(st) { dims } else { seq![] })
    }
}

/// The head length an encoding gets (before truncation to `u16`).
pub open spec fn encoded_headlen(kind: Seq<char>, r: i32, dims: Seq<i32>) -> nat {
    let (st, lt, phys) = head_axes(kind, r, dims);
    (13 + phys_field(st, phys).len() + encode_utf8(lt).len()) as nat
}

/// The full encoding of a value: head then raw body.
pub open spec fn encode_head_perm_spec(kind: Seq<char>, r: i32, dims: Seq<i32>, raw: Seq<u8>, ro: bool, vid: u32) -> Seq<u8> {
    let (st, lt, phys) = head_axes(kind, r, dims);
    le_bytes(encoded_headlen(kind, r, dims), 2) + seq![low_byte(r), st, if ro { 1u8 } else { 0u8 }]
        + le_bytes(vid as nat, 4) + le_bytes(raw.len(), 4) + phys_field(st, phys) + encode_utf8(lt) + raw
}

/// Encodes `kind` with an inline layout (`ref` 0) or as a pointer (`ref` 1), no permission bits.
pub fn encode_head(kind: &str, reference: i32, dims: &[i32], raw: &[u8]) -> (b: Vec<u8>)
    requires
        24 + 52 * dims@.len() + 4 * kind@.len() + raw@.len() <= usize::MAX,
    ensures
        b@ == encode_head_perm_spec(kind@, reference, dims@, raw@, false, 0),
{
    encode_head_perm(kind, reference, dims, raw, false, 0)
}

/// Every UTF-8 encoding takes at most four bytes per character.
pub proof fn lemma_utf8_len_bound(s: Seq<char>)
    ensures
        encode_utf8(s).len() <= 4 * s.len(),
        s.len() <= encode_utf8(s).len(),
    decreases s.len(),
{
    if s.len() > 0 {
        lemma_utf8_len_bound(s.drop_first());
    }
}

/// The langtype of a non-pointer head is at most its kind plus the dims text.
pub proof fn lemma_dims_text_len(d: Seq<i32>)
    ensures
        dims_text(d).len() <= 12 * d.len(),
    decreases d.len(),
{
    if d.len() > 0 {
        lemma_dims_text_len(d.drop_last());
        lemma_int_decimal_len(d.last() as int);
    }
}

/// An `i32` takes at most eleven characters in decimal.
pub proof fn lemma_int_decimal_len(i: int)
    requires
        i32::MIN <= i <= i32::MAX,
    ensures
        int_to_decimal(i).len() <= 11,
{
    let n: nat = if i < 0 { (-i) as nat } else { i as nat };
    lemma_pow10_values();
    lemma_nat_decimal_len(n, 10);
}

/// A natural below `10^k` takes at most `k` digits.
pub proof fn lemma_nat_decimal_len(n: nat, k: nat)
    requires
        k >= 1,
        n < pow10(k),
    ensures
        crate::text::nat_to_decimal(n).len() <= k,
    decreases k,
{
    if n >= 10 {
        assert(k > 1) by {
            if k == 1 { lemma_pow10_values(); }
        }
        assert(pow10(k) == 10 * pow10((k - 1) as nat));
        lemma_nat_decimal_len(n / 10, (k - 1) as nat);
    }
}

/// The powers of ten up to `10^10`.
pub proof fn lemma_pow10_values()
    ensures
        pow10(1) == 10,
        pow10(10) == 10_000_000_000,
{
    assert(pow10(0) == 1);
    assert(pow10(1) == 10);
    assert(pow10(2) == 100);
    assert(pow10(3) == 1000);
    assert(pow10(4) == 10000);
    assert(pow10(5) == 100000);
    assert(pow10(6) == 1000000);
    assert(pow10(7) == 10000000);
    assert(pow10(8) == 100000000);
    assert(pow10(9) == 1000000000);
    assert(pow10(10) == 10000000000);
}

/// `10^k`.
pub open spec fn pow10(k: nat) -> nat
    decreases k,
{
    if k == 0 { 1 } else { 10 * pow10((k - 1) as nat) }
}

/// `dims_le` takes four bytes per dim.
pub proof fn lemma_dims_le_len(d: Seq<i32>)
    ensures
        dims_le(d).len() == 4 * d.len(),
    decreases d.len(),
{
    if d.len() > 0 {
        lemma_dims_le_len(d.drop_last());
        crate::le::lemma_le_bytes_len(twos(d.last() as int, 4), 4);
    }
}

/// The physical field bytes.
pub fn phys_field_bytes(st: u8, phys: &[i32]) -> (b: Vec<u8>)
    ensures
        b@ == phys_field(st, phys@),
        b@.len() == if has_dims(st) { 1 + 4 * phys@.len() } else { 0 },
{
    let mut buf: Vec<u8> = Vec::new();
    proof { lemma_dims_le_len(phys@); }
    if store_has_dims(st) {
        buf.push((phys.len() % 256) as u8);
        let mut i: usize = 0;
        while i < phys.len()
            invariant
                i <= phys.len(),
                buf@ == seq![(phys@.len() % 256) as u8] + dims_le(phys@.take(i as int)),
            decreases phys.len() - i,
        {
            let d = phys[i];
            let u: u64 = if d < 0 { (d as i64 + 0x1_0000_0000) as u64 } else { d as u64 };
            proof { lemma_pow256_values(); }
            push_le(&mut buf, u, 4);
            assert(phys@.take(i as int + 1).drop_last() == phys@.take(i as int));
            i = i + 1;
        }
        assert(phys@.take(phys.len() as int) == phys@);
    }
    buf
}

/// The fixed 13-byte head prefix.
pub fn head_prefix_bytes(headlen: usize, reference: i32, st: u8, ro: bool, vid: u32, raw_len: usize) -> (b: Vec<u8>)
    ensures
        b@ == le_bytes(headlen as nat, 2) + seq![low_byte(reference), st, if ro { 1u8 } else { 0u8 }]
            + le_bytes(vid as nat, 4) + le_bytes(raw_len as nat, 4),
{
    let mut buf: Vec<u8> = Vec::new();
    push_le(&mut buf, headlen as u64, 2);
    let m: i64 = (reference as i64) % 256;
    let m2: i64 = if m < 0 { m + 256 } else { m };
    buf.push(m2 as u8);
    buf.push(st);
    buf.push(if ro { 1u8 } else { 0u8 });
    push_le(&mut buf, vid as u64, 4);
    push_le(&mut buf, raw_len as u64, 4);
    assert(m2 as u8 == low_byte(reference));
    buf
}

/// Encodes a head with explicit reference, read-only bit and vid, followed by `raw`.
pub fn encode_head_perm(kind: &str, reference: i32, dims: &[i32], raw: &[u8], ro: bool, vid: u32) -> (b: Vec<u8>)
    requires
        24 + 52 * dims@.len() + 4 * kind@.len() + raw@.len() <= usize::MAX,
    ensures
        b@ == encode_head_perm_spec(kind@, reference, dims@, raw@, ro, vid),
{
    let kc = chars_of(kind);
    let mut st: u8 = 0;
    let mut lt: String = String::new();
    let mut phys: Vec<i32> = Vec::new();
    if reference == 1 {
        st = storetype_from_kindexpr(&kc);
        lt = string_from_chars(&kc);
    } else {
        st = storetype_of(&kc, #[verifier::truncate] (dims.len() as i32));
        lt = build_langtype(&kc, st, dims);
        if store_has_dims(st) {
            phys = vstd::slice::slice_to_vec(dims);
        }
    }
    let ghost axes = head_axes(kind@, reference, dims@);
    assert(st == axes.0 && lt@ == axes.1 && phys@ == axes.2);
    let lt_str: &str = lt.as_str();
    let lt_bytes: &[u8] = lt_str.as_bytes();
    assert(lt_str@ == lt@);
    assert(lt_bytes@ == encode_utf8(lt@));
    proof {
        lemma_utf8_len_bound(lt@);
        lemma_dims_text_len(dims@);
        assert(lt@.len() <= kind@.len() + 2 + 12 * dims@.len());
        assert(phys@.len() <= dims@.len());
    }
    let pf = phys_field_bytes(st, &phys);
    let headlen: usize = 13 + pf.len() + lt_bytes.len();
    assert(headlen as nat == encoded_headlen(kind@, reference, dims@));
    let mut buf = head_prefix_bytes(headlen, reference, st, ro, vid, raw.len());
    append_bytes(&mut buf, &pf);
    append_bytes(&mut buf, lt_bytes);
    append_bytes(&mut buf, raw);
    buf
}

/// The head length field.
pub open spec fn field_headlen(d: Seq<u8>) -> nat {
    le_value(d.subrange(0, 2))
}

/// The body length field, as the signed `i32` the head keeps.
pub open spec fn field_body_len(d: Seq<u8>) -> i32 {
    signed_of(le_value(d.subrange(9, 13)), 4) as i32
}

/// The `i32` stored little-endian at `o`.
pub open spec fn i32_at(d: Seq<u8>, o: int) -> i32 {
    signed_of(le_value(d.subrange(o, o + 4)), 4) as i32
}

/// How many dims a head holds: the declared `ndim`, cut to what fits before `headlen`.
pub open spec fn dims_count(ndim: nat, headlen: nat) -> nat {
    let room = ((headlen - 14) / 4) as nat;
    if ndim <= room { ndim } else { room }
}

/// The dims read from a head.
pub open spec fn dims_read(d: Seq<u8>, count: nat) -> Seq<i32> {
    Seq::new(count, |k: int| i32_at(d, 14 + 4 * k))
}

/// The prefix checks pass: at least 13 bytes, `13 <= headlen <= len`.
pub open spec fn head_prefix_ok(d: Seq<u8>) -> bool {
    d.len() >= 13 && field_headlen(d) >= 13 && d.len() >= field_headlen(d)
}

/// Decoding reads past the head: a dims-carrying storetype with `headlen == 13`.
pub open spec fn head_decode_panics(d: Seq<u8>) -> bool {
    head_prefix_ok(d) && has_dims(d[3]) && field_headlen(d) == 13
}

/// The head fields decoded from `d` when the prefix checks pass.
pub open spec fn decode_fields(d: Seq<u8>) -> HeadView {
    let hl = field_headlen(d);
    let st = d[3];
    let count = if has_dims(st) { dims_count(d[13] as nat, hl) } else { 0 };
    let o = if has_dims(st) { 14 + 4 * count } else { 13 };
    HeadView {
        headlen: hl,
        reference: d[2],
        storetype: st,
        langtype: decode_text(d.subrange(o as int, hl as int)),
        phys_dims: if has_dims(st) { dims_read(d, count) } else { seq![] },
        ro: d[4] != 0,
        vid: le_value(d.subrange(5, 9)) as u32,
        body_len: field_body_len(d),
    }
}

/// What `decode_xvalue_head_prefix` gives: the head fields, or the empty head.
pub open spec fn decode_head_prefix_spec(d: Seq<u8>) -> HeadView {
    if head_prefix_ok(d) { decode_fields(d) } else { empty_head() }
}

/// Checking the body length overflows: negative body length no larger than `headlen`.
pub open spec fn head_body_panics(d: Seq<u8>) -> bool {
    head_prefix_ok(d) && field_body_len(d) < 0 && field_headlen(d) >= -(field_body_len(d) as int)
}

/// The body fits after the head.
pub open spec fn body_fits(d: Seq<u8>) -> bool {
    field_body_len(d) >= 0 && field_headlen(d) + field_body_len(d) <= d.len()
}

/// What `decode_xvalue_head` gives: the head fields when the body is complete, else empty.
pub open spec fn decode_head_spec(d: Seq<u8>) -> HeadView {
    if head_prefix_ok(d) && body_fits(d) { decode_fields(d) } else { empty_head() }
}

/// Reads the `i32` at `o`.
pub fn read_i32_le(data: &[u8], o: usize) -> (r: i32)
    requires
        o + 4 <= data.len(),
    ensures
        r == i32_at(data@, o as int),
{
    let u = read_le(data, o, 4);
    proof {
        crate::le::lemma_le_value_bound(data@.subrange(o as int, o + 4));
        lemma_pow256_values();
    }
    if u >= 0x8000_0000 {
        let v: i64 = u as i64 - 0x1_0000_0000;
        v as i32
    } else {
        u as i32
    }
}

/// Decodes head fields after the prefix checks.
fn decode_fields_exec(data: &[u8]) -> (h: XValueHead)
    requires
        head_prefix_ok(data@),
        !head_decode_panics(data@),
    ensures
        h@ == decode_fields(data@),
{
    proof { lemma_pow256_values(); }
    let hl64 = read_le(data, 0, 2);
    proof { crate::le::lemma_le_value_bound(data@.subrange(0, 2)); }
    let headlen: usize = hl64 as usize;
    let reference = data[2];
    let storetype = data[3];
    let ro = data[4] != 0;
    let vid64 = read_le(data, 5, 4);
    proof { crate::le::lemma_le_value_bound(data@.subrange(5, 9)); }
    let vid: u32 = vid64 as u32;
    let bl = read_i32_le(data, 9);
    let mut o: usize = HEAD_PREFIX;
    let mut phys: Vec<i32> = Vec::new();
    if store_has_dims(storetype) {
        let ndim: usize = data[o] as usize;
        o = o + 1;
        let mut k: usize = 0;
        while k < ndim
            invariant
                headlen == field_headlen(data@),
                14 <= headlen <= data.len(),
                ndim == data@[13] as nat,
                k <= ndim,
                o == 14 + 4 * k,
                o <= headlen,
                phys@ == dims_read(data@, k as nat),
            ensures
                headlen == field_headlen(data@),
                14 <= headlen <= data.len(),
                ndim == data@[13] as nat,
                k <= ndim,
                o == 14 + 4 * k,
                o <= headlen,
                phys@ == dims_read(data@, k as nat),
                k == ndim || o + 4 > headlen,
            decreases ndim - k,
        {
            if o + 4 > headlen {
                break;
            }
            let v = read_i32_le(data, o);
            phys.push(v);
            o = o + 4;
            k = k + 1;
            assert(phys@ =~= dims_read(data@, k as nat));
        }
        assert(k == dims_count(ndim as nat, headlen as nat));
    }
    let lt_bytes = vstd::slice::slice_subrange(data, o, headlen);
    let langtype = utf8_lossy(lt_bytes);
    XValueHead {
        headlen: headlen as u16,
        reference,
        storetype,
        langtype,
        phys_dims: phys,
        ro,
        vid,
        body_len: bl,
    }
}

/// Decodes only the head of `data`; the body need not be present. A prefix that is too
/// short or whose `headlen` is out of range decodes to the empty head.
pub fn decode_xvalue_head_prefix(data: &[u8]) -> (h: XValueHead)
    requires
        !head_decode_panics(data@),
    ensures
        h@ == decode_head_prefix_spec(data@),
{
    if data.len() < HEAD_PREFIX {
        return XValueHead::empty();
    }
    let hl = read_le(data, 0, 2);
    if hl < 13 || (data.len() as u64) < hl {
        return XValueHead::empty();
    }
    decode_fields_exec(data)
}

/// Decodes the head of a complete value; a truncated value (body past the end) decodes to
/// the empty head.
pub fn decode_xvalue_head(data: &[u8]) -> (h: XValueHead)
    requires
        !head_decode_panics(data@),
        !head_body_panics(data@),
    ensures
        h@ == decode_head_spec(data@),
{
    if data.len() < HEAD_PREFIX {
        return XValueHead::empty();
    }
    let hl = read_le(data, 0, 2);
    if hl < 13 || (data.len() as u64) < hl {
        return XValueHead::empty();
    }
    let h = decode_fields_exec(data);
    if h.body_len < 0 {
        return XValueHead::empty();
    }
    if (h.headlen as u64) + (h.body_len as u64) > data.len() as u64 {
        return XValueHead::empty();
    }
    h
}

/// Four bytes of `dims_le` at each dim's slot.
pub proof fn lemma_dims_le_index(d: Seq<i32>, k: int)
    requires
        0 <= k < d.len(),
    ensures
        dims_le(d).subrange(4 * k, 4 * k + 4) == le_bytes(twos(d[k] as int, 4), 4),
    decreases d.len(),
{
    lemma_dims_le_len(d);
    lemma_dims_le_len(d.drop_last());
    crate::le::lemma_le_bytes_len(twos(d.last() as int, 4), 4);
    if k < d.len() - 1 {
        lemma_dims_le_index(d.drop_last(), k);
        assert(dims_le(d).subrange(4 * k, 4 * k + 4) == dims_le(d.drop_last()).subrange(4 * k, 4 * k + 4));
    } else {
        assert(dims_le(d).subrange(4 * k, 4 * k + 4) == le_bytes(twos(d.last() as int, 4), 4));
    }
}

/// Two's complement of an `i32` reads back as the same `i32`.
pub proof fn lemma_twos_i32(v: i32)
    ensures
        le_value(le_bytes(twos(v as int, 4), 4)) == twos(v as int, 4),
        signed_of(twos(v as int, 4), 4) as i32 == v,
{
    lemma_pow256_values();
    crate::le::lemma_le_roundtrip(twos(v as int, 4), 4);
}

/// A value's encoding is a well-formed, complete value whose decoded head gives back what
/// was encoded: the head length, reference byte, storetype, langtype, physical dims,
/// read-only bit, vid and body length. This holds whenever the head fits its `u16` length
/// field, the dims fit the `u8` count and the body length fits a non-negative `i32`.
pub proof fn lemma_head_roundtrip(kind: Seq<char>, r: i32, dims: Seq<i32>, raw: Seq<u8>, ro: bool, vid: u32)
    requires
        encoded_headlen(kind, r, dims) < 0x10000,
        dims.len() < 256,
        raw.len() < 0x8000_0000,
    ensures
        ({
            let d = encode_head_perm_spec(kind, r, dims, raw, ro, vid);
            let (st, lt, phys) = head_axes(kind, r, dims);
            &&& !head_decode_panics(d)
            &&& !head_body_panics(d)
            &&& decode_head_spec(d) == HeadView {
                headlen: encoded_headlen(kind, r, dims),
                reference: low_byte(r),
                storetype: st,
                langtype: lt,
                phys_dims: phys,
                ro: ro,
                vid: vid,
                body_len: raw.len() as i32,
            }
            &&& decode_head_prefix_spec(d) == decode_head_spec(d)
            &&& body_of(decode_head_spec(d), d) == raw
        }),
{
    broadcast use vstd::utf8::group_utf8_lib;
    lemma_pow256_values();
    let d = encode_head_perm_spec(kind, r, dims, raw, ro, vid);
    let (st, lt, phys) = head_axes(kind, r, dims);
    let hl = encoded_headlen(kind, r, dims);
    let a = le_bytes(hl, 2);
    let b = seq![low_byte(r), st, if ro { 1u8 } else { 0u8 }];
    let c = le_bytes(vid as nat, 4);
    let e = le_bytes(raw.len(), 4);
    let p = phys_field(st, phys);
    let l = encode_utf8(lt);
    crate::le::lemma_le_bytes_len(hl, 2);
    crate::le::lemma_le_bytes_len(vid as nat, 4);
    crate::le::lemma_le_bytes_len(raw.len(), 4);
    lemma_dims_le_len(phys);
    assert(d == a + b + c + e + p + l + raw);
    assert(d.subrange(0, 2) == a);
    assert(d.subrange(5, 9) == c);
    assert(d.subrange(9, 13) == e);
    crate::le::lemma_le_roundtrip(hl, 2);
    crate::le::lemma_le_roundtrip(vid as nat, 4);
    crate::le::lemma_le_roundtrip(raw.len(), 4);
    assert(field_headlen(d) == hl);
    assert(d[2] == low_byte(r));
    assert(d[3] == st);
    assert(le_value(d.subrange(5, 9)) == vid as nat);
    assert(le_value(d.subrange(9, 13)) == raw.len());
    assert(field_body_len(d) == raw.len() as i32);
    assert(hl == 13 + p.len() + l.len());
    if has_dims(st) {
        assert(d[13] == (phys.len() % 256) as u8);
        assert(phys.len() % 256 == phys.len());
        assert(dims_count(d[13] as nat, hl) == phys.len());
        assert forall|k: int| 0 <= k < phys.len() implies #[trigger] dims_read(d, phys.len())[k] == phys[k] by {
            lemma_dims_le_index(phys, k);
            assert(d.subrange(14 + 4 * k, 14 + 4 * k + 4) == dims_le(phys).subrange(4 * k, 4 * k + 4));
            lemma_twos_i32(phys[k]);
        }
        assert(dims_read(d, phys.len()) =~= phys);
        assert(d.subrange(14 + 4 * phys.len() as int, hl as int) == l);
    } else {
        assert(phys == Seq::<i32>::empty());
        assert(d.subrange(13, hl as int) == l);
    }
    assert(decode_text(l) == lt);
    assert(d.subrange(hl as int, hl + raw.len() as int) == raw);
}

// ── Values ──────────────────────────────────────────────────────────────

/// A fixed-width array: contiguous elements and their shape. Empty dims = scalar, `[n]` =
/// one axis, `[d0, d1]` = two axes; decode passes the head dims through so that encoding
/// preserves the shape.
#[derive(Clone, Debug, PartialEq)]
pub struct Arr<T> {
    pub data: Vec<T>,
    pub dims: Vec<i32>,
}

/// A map value container: the full map langtype and its logical shape; members live in the
/// sibling member index.
#[derive(Clone, Debug, PartialEq)]
pub struct MapValue {
    pub langtype: String,
    pub dims: Vec<i32>,
}

/// A pointer: the target's full kindexpr and the target key path.
#[derive(Clone, Debug, PartialEq)]
pub struct Ptr {
    pub target_kindexpr: String,
    pub target: String,
}

/// An extension index: local members and the read-only extension path.
#[derive(Clone, Debug, PartialEq)]
pub struct ExtIndex {
    pub childs: Vec<String>,
    pub ext_path: String,
}

/// A value of a kind this library does not interpret: kept as raw bytes.
#[derive(Clone, Debug, PartialEq)]
pub struct Opaque {
    pub kind: String,
    pub body: Vec<u8>,
    pub array_len: i32,
}

/// Every value kind the store holds. Floating-point arrays hold their IEEE-754 bit patterns.
#[derive(Clone, Debug, PartialEq)]
pub enum XValue {
    Nil,
    Ptr(Ptr),
    Bool(Arr<bool>),
    Int8(Arr<i8>),
    Int16(Arr<i16>),
    Int32(Arr<i32>),
    Int64(Arr<i64>),
    Uint8(Arr<u8>),
    Uint16(Arr<u16>),
    Uint32(Arr<u32>),
    Uint64(Arr<u64>),
    Float32(Arr<u32>),
    Float64(Arr<u64>),
    CharByte(Arr<u8>),
    CharAscii(Arr<u8>),
    Char32(Arr<u32>),
    MapVal(MapValue),
    Index(Vec<String>),
    ExtIndex(ExtIndex),
    Opaque(Opaque),
}

/// The mathematical content of a value.
pub enum XV {
    Nil,
    Ptr(Seq<char>, Seq<char>),
    Bool(Seq<bool>, Seq<i32>),
    Int8(Seq<i8>, Seq<i32>),
    Int16(Seq<i16>, Seq<i32>),
    Int32(Seq<i32>, Seq<i32>),
    Int64(Seq<i64>, Seq<i32>),
    Uint8(Seq<u8>, Seq<i32>),
    Uint16(Seq<u16>, Seq<i32>),
    Uint32(Seq<u32>, Seq<i32>),
    Uint64(Seq<u64>, Seq<i32>),
    Float32(Seq<u32>, Seq<i32>),
    Float64(Seq<u64>, Seq<i32>),
    CharByte(Seq<u8>, Seq<i32>),
    CharAscii(Seq<u8>, Seq<i32>),
    Char32(Seq<u32>, Seq<i32>),
    MapVal(Seq<char>, Seq<i32>),
    Index(Seq<Seq<char>>),
    ExtIndex(Seq<Seq<char>>, Seq<char>),
    Opaque(Seq<char>, Seq<u8>, i32),
}

impl View for XValue {
    type V = XV;

    open spec fn view(&self) -> XV {
        match self {
            XValue::Nil => XV::Nil,
            XValue::Ptr(p) => XV::Ptr(p.target_kindexpr@, p.target@),
            XValue::Bool(a) => XV::Bool(a.data@, a.dims@),
            XValue::Int8(a) => XV::Int8(a.data@, a.dims@),
            XValue::Int16(a) => XV::Int16(a.data@, a.dims@),
            XValue::Int32(a) => XV::Int32(a.data@, a.dims@),
            XValue::Int64(a) => XV::Int64(a.data@, a.dims@),
            XValue::Uint8(a) => XV::Uint8(a.data@, a.dims@),
            XValue::Uint16(a) => XV::Uint16(a.data@, a.dims@),
            XValue::Uint32(a) => XV::Uint32(a.data@, a.dims@),
            XValue::Uint64(a) => XV::Uint64(a.data@, a.dims@),
            XValue::Float32(a) => XV::Float32(a.data@, a.dims@),
            XValue::Float64(a) => XV::Float64(a.data@, a.dims@),
            XValue::CharByte(a) => XV::CharByte(a.data@, a.dims@),
            XValue::CharAscii(a) => XV::CharAscii(a.data@, a.dims@),
            XValue::Char32(a) => XV::Char32(a.data@, a.dims@),
            XValue::MapVal(m) => XV::MapVal(m.langtype@, m.dims@),
            XValue::Index(c) => XV::Index(crate::xvalue_index::string_views(c@)),
            XValue::ExtIndex(e) => XV::ExtIndex(crate::xvalue_index::string_views(e.childs@), e.ext_path@),
            XValue::Opaque(o) => XV::Opaque(o.kind@, o.body@, o.array_len),
        }
    }
}

/// Dims from an element count (non-char kinds): `[n]` for `n > 1`, else scalar.
pub open spec fn dims_from_len_spec(n: nat) -> Seq<i32> {
    if n > 1 { seq![n as i32] } else { seq![] }
}

/// Dims from an element count (non-char kinds): `[n]` for `n > 1`, else scalar.
pub fn dims_from_len(n: usize) -> (d: Vec<i32>)
    ensures
        d@ == dims_from_len_spec(n as nat),
{
    if n > 1 {
        vec![#[verifier::truncate] (n as i32)]
    } else {
        Vec::new()
    }
}

} // verus!
