//! Whole values: the kind, element count and wire encoding of every XValue, and decoding a
//! complete value (head + body) back.

use vstd::prelude::*;
use vstd::utf8::*;
use crate::consts::{
    KIND_BOOL, KIND_CHAR, KIND_CHAR_ASCII, KIND_CHAR_UTF8, KIND_DURATION, KIND_EXT_INDEX,
    KIND_FLOAT32, KIND_FLOAT64, KIND_INDEX, KIND_INT16, KIND_INT32, KIND_INT64, KIND_INT8, KIND_MAP,
    KIND_TIME, KIND_UINT16, KIND_UINT32, KIND_UINT64, KIND_UINT8,
};
use crate::text::{decode_text, str_eq, string_of, utf8_lossy};
use crate::xvalue::{
    body_of, decode_head_spec, decode_xvalue_head, dims_product, encode_head, encode_head_perm_spec,
    head_body_panics, head_decode_panics, is_map_langtype, is_map_langtype_spec,
    parse_kindexpr_spec, product_fits, product_i32, Arr, ExtIndex, HeadView, MapValue, Opaque, Ptr,
    XValue, XValueHead, XV, REF_PTR,
};
use crate::xvalue_bool::{bool_body, bool_vals, decode_bool, encode_bool};
use crate::xvalue_byte::{
    decode_char32, decode_char_ascii, decode_char_byte, encode_char32, encode_char_ascii,
    encode_char_byte, is_char_kind, is_char_kind_spec,
};
use crate::xvalue_float::{decode_float32, decode_float64, encode_float32, encode_float64};
use crate::xvalue_index::{
    decode_ext_childs_spec, decode_ext_index, decode_ext_path_spec, decode_index,
    encode_ext_index, encode_ext_index_spec, encode_index, encode_index_fits, encode_index_spec,
    matrix_count_spec, matrix_rows, matrix_width_spec,
};
use crate::xvalue_int::{
    decode_int16, decode_int32, decode_int64, decode_int8, encode_int16, encode_int32, encode_int64,
    encode_int8, int16_body, int16_vals, int32_body, int32_vals, int64_body, int64_vals, int8_body,
    int8_vals,
};
use crate::xvalue_uint::{
    decode_uint16, decode_uint32, decode_uint64, decode_uint8, encode_uint16, encode_uint32,
    encode_uint64, encode_uint8, uint16_body, uint16_vals, uint32_body, uint32_vals, uint64_body,
    uint64_vals,
};

verus! {

/// The kind name of a value: the target's kindexpr for a pointer, the element kind of an
/// array, the langtype of a map, the stored kind of an opaque value; empty for `Nil`.
pub open spec fn kind_of(v: XV) -> Seq<char> {
    match v {
        XV::Nil => seq![],
        XV::Ptr(k, _) => k,
        XV::Bool(..) => KIND_BOOL@,
        XV::Int8(..) => KIND_INT8@,
        XV::Int16(..) => KIND_INT16@,
        XV::Int32(..) => KIND_INT32@,
        XV::Int64(..) => KIND_INT64@,
        XV::Uint8(..) => KIND_UINT8@,
        XV::Uint16(..) => KIND_UINT16@,
        XV::Uint32(..) => KIND_UINT32@,
        XV::Uint64(..) => KIND_UINT64@,
        XV::Float32(..) => KIND_FLOAT32@,
        XV::Float64(..) => KIND_FLOAT64@,
        XV::CharByte(..) => KIND_CHAR_UTF8@,
        XV::CharAscii(..) => KIND_CHAR_ASCII@,
        XV::Char32(..) => KIND_CHAR@,
        XV::MapVal(lt, _) => lt,
        XV::Index(_) => KIND_INDEX@,
        XV::ExtIndex(..) => KIND_EXT_INDEX@,
        XV::Opaque(k, _, _) => k,
    }
}

/// The element count of a value: 0 for `Nil`, 1 for a pointer or a member list, the number
/// of elements of an array (as an `i32`), the product of a map's dims, the stored count of
/// an opaque value.
pub open spec fn array_len_of(v: XV) -> int {
    match v {
        XV::Nil => 0,
        XV::Ptr(..) => 1,
        XV::Bool(d, _) => (d.len() as i32) as int,
        XV::Int8(d, _) => (d.len() as i32) as int,
        XV::Int16(d, _) => (d.len() as i32) as int,
        XV::Int32(d, _) => (d.len() as i32) as int,
        XV::Int64(d, _) => (d.len() as i32) as int,
        XV::Uint8(d, _) => (d.len() as i32) as int,
        XV::Uint16(d, _) => (d.len() as i32) as int,
        XV::Uint32(d, _) => (d.len() as i32) as int,
        XV::Uint64(d, _) => (d.len() as i32) as int,
        XV::Float32(d, _) => (d.len() as i32) as int,
        XV::Float64(d, _) => (d.len() as i32) as int,
        XV::CharByte(d, _) => (d.len() as i32) as int,
        XV::CharAscii(d, _) => (d.len() as i32) as int,
        XV::Char32(d, _) => (d.len() as i32) as int,
        XV::MapVal(_, dims) => dims_product(dims),
        XV::Index(_) => 1,
        XV::ExtIndex(..) => 1,
        XV::Opaque(_, _, al) => al as int,
    }
}

/// The dims an opaque value is written with: a character kind is always one axis of
/// `max(al, 0)`; any other kind is one axis of `al` when `al > 1`, else a scalar.
pub open spec fn array_to_header_spec(kind: Seq<char>, al: i32) -> Seq<i32> {
    if is_char_kind_spec(kind) {
        seq![if al > 0 { al } else { 0i32 }]
    } else if al > 1 {
        seq![al]
    } else {
        seq![]
    }
}

/// An opaque value's encoding: its kind, dims from its count, and its raw body.
pub open spec fn tlv_spec(kind: Seq<char>, raw: Seq<u8>, al: i32) -> Seq<u8> {
    encode_head_perm_spec(kind, 0, array_to_header_spec(kind, al), raw, false, 0)
}

/// A pointer's encoding: the target kindexpr as langtype, `ref` 1, the target path as body.
pub open spec fn tlv_ptr_spec(target_kindexpr: Seq<char>, raw: Seq<u8>) -> Seq<u8> {
    encode_head_perm_spec(target_kindexpr, 1, seq![], raw, false, 0)
}

/// The full encoding of a value. `Nil` encodes to no bytes; a member list is sorted into its
/// matrix first.
pub open spec fn encode_value(v: XV) -> Seq<u8> {
    match v {
        XV::Nil => seq![],
        XV::Ptr(k, t) => tlv_ptr_spec(k, encode_utf8(t)),
        XV::Bool(d, dims) => encode_head_perm_spec(KIND_BOOL@, 0, dims, bool_body(d), false, 0),
        XV::Int8(d, dims) => encode_head_perm_spec(KIND_INT8@, 0, dims, int8_body(d), false, 0),
        XV::Int16(d, dims) => encode_head_perm_spec(KIND_INT16@, 0, dims, int16_body(d), false, 0),
        XV::Int32(d, dims) => encode_head_perm_spec(KIND_INT32@, 0, dims, int32_body(d), false, 0),
        XV::Int64(d, dims) => encode_head_perm_spec(KIND_INT64@, 0, dims, int64_body(d), false, 0),
        XV::Uint8(d, dims) => encode_head_perm_spec(KIND_UINT8@, 0, dims, d, false, 0),
        XV::Uint16(d, dims) => encode_head_perm_spec(KIND_UINT16@, 0, dims, uint16_body(d), false, 0),
        XV::Uint32(d, dims) => encode_head_perm_spec(KIND_UINT32@, 0, dims, uint32_body(d), false, 0),
        XV::Uint64(d, dims) => encode_head_perm_spec(KIND_UINT64@, 0, dims, uint64_body(d), false, 0),
        XV::Float32(d, dims) => encode_head_perm_spec(KIND_FLOAT32@, 0, dims, uint32_body(d), false, 0),
        XV::Float64(d, dims) => encode_head_perm_spec(KIND_FLOAT64@, 0, dims, uint64_body(d), false, 0),
        XV::CharByte(d, dims) => encode_head_perm_spec(KIND_CHAR_UTF8@, 0, dims, d, false, 0),
        XV::CharAscii(d, dims) => encode_head_perm_spec(KIND_CHAR_ASCII@, 0, dims, d, false, 0),
        XV::Char32(d, dims) => encode_head_perm_spec(KIND_CHAR@, 0, dims, uint32_body(d), false, 0),
        XV::MapVal(lt, dims) => encode_head_perm_spec(lt, 0, dims, seq![], false, 0),
        XV::Index(c) => {
            let (d, b) = encode_index_spec(c, 0, 0);
            encode_head_perm_spec(KIND_INDEX@, 0, d, b, false, 0)
        },
        XV::ExtIndex(c, p) => {
            let (d, b) = encode_ext_index_spec(p, c, 0, 0);
            encode_head_perm_spec(KIND_EXT_INDEX@, 0, d, b, false, 0)
        },
        XV::Opaque(k, b, al) => tlv_spec(k, b, al),
    }
}

/// The encoding of a value fits in memory.
pub open spec fn encode_fits(v: XV) -> bool {
    match v {
        XV::Nil => true,
        XV::Ptr(k, t) => 24 + 4 * k.len() + encode_utf8(t).len() <= usize::MAX,
        XV::Bool(d, dims) => d.len() + 52 * dims.len() + 64 <= usize::MAX,
        XV::Int8(d, dims) => d.len() + 52 * dims.len() + 64 <= usize::MAX,
        XV::Int16(d, dims) => 2 * d.len() + 52 * dims.len() + 64 <= usize::MAX,
        XV::Int32(d, dims) => 4 * d.len() + 52 * dims.len() + 64 <= usize::MAX,
        XV::Int64(d, dims) => 8 * d.len() + 52 * dims.len() + 64 <= usize::MAX,
        XV::Uint8(d, dims) => d.len() + 52 * dims.len() + 64 <= usize::MAX,
        XV::Uint16(d, dims) => 2 * d.len() + 52 * dims.len() + 64 <= usize::MAX,
        XV::Uint32(d, dims) => 4 * d.len() + 52 * dims.len() + 64 <= usize::MAX,
        XV::Uint64(d, dims) => 8 * d.len() + 52 * dims.len() + 64 <= usize::MAX,
        XV::Float32(d, dims) => 4 * d.len() + 52 * dims.len() + 64 <= usize::MAX,
        XV::Float64(d, dims) => 8 * d.len() + 52 * dims.len() + 64 <= usize::MAX,
        XV::CharByte(d, dims) => d.len() + 52 * dims.len() + 64 <= usize::MAX,
        XV::CharAscii(d, dims) => d.len() + 52 * dims.len() + 64 <= usize::MAX,
        XV::Char32(d, dims) => 4 * d.len() + 52 * dims.len() + 64 <= usize::MAX,
        XV::MapVal(lt, dims) => 24 + 52 * dims.len() + 4 * lt.len() <= usize::MAX,
        XV::Index(c) => encode_index_fits(c, 0, 0) && encode_index_spec(c, 0, 0).1.len() + 300
            <= usize::MAX,
        XV::ExtIndex(c, p) => encode_index_fits(c, 0, 0) && encode_ext_index_spec(p, c, 0, 0).1.len()
            + 300 <= usize::MAX,
        XV::Opaque(k, b, _) => 76 + 4 * k.len() + b.len() <= usize::MAX,
    }
}

/// A kind that no typed decoder claims: it decodes to an opaque value.
pub open spec fn opaque_kind(k: Seq<char>) -> bool {
    &&& !is_map_langtype_spec(k)
    &&& k != KIND_BOOL@ && k != KIND_INT8@ && k != KIND_INT16@ && k != KIND_INT32@
    &&& k != KIND_INT64@ && k != KIND_UINT8@ && k != KIND_UINT16@ && k != KIND_UINT32@
    &&& k != KIND_UINT64@ && k != KIND_FLOAT32@ && k != KIND_FLOAT64@ && k != KIND_CHAR_UTF8@
    &&& k != KIND_CHAR_ASCII@ && k != KIND_CHAR@ && k != KIND_MAP@ && k != KIND_INDEX@
    &&& k != KIND_EXT_INDEX@
}

/// The value a body of base kind `k` with dims `dims` stands for.
pub open spec fn decode_kind(k: Seq<char>, dims: Seq<i32>, body: Seq<u8>) -> XV {
    if is_map_langtype_spec(k) {
        XV::MapVal(k, dims)
    } else if k == KIND_BOOL@ {
        XV::Bool(bool_vals(body), dims)
    } else if k == KIND_INT8@ {
        XV::Int8(int8_vals(body), dims)
    } else if k == KIND_INT16@ {
        XV::Int16(int16_vals(body), dims)
    } else if k == KIND_INT32@ {
        XV::Int32(int32_vals(body), dims)
    } else if k == KIND_INT64@ {
        XV::Int64(int64_vals(body), dims)
    } else if k == KIND_UINT8@ {
        XV::Uint8(body, dims)
    } else if k == KIND_UINT16@ {
        XV::Uint16(uint16_vals(body), dims)
    } else if k == KIND_UINT32@ {
        XV::Uint32(uint32_vals(body), dims)
    } else if k == KIND_UINT64@ {
        XV::Uint64(uint64_vals(body), dims)
    } else if k == KIND_FLOAT32@ {
        XV::Float32(uint32_vals(body), dims)
    } else if k == KIND_FLOAT64@ {
        XV::Float64(uint64_vals(body), dims)
    } else if k == KIND_CHAR_UTF8@ {
        XV::CharByte(body, dims)
    } else if k == KIND_CHAR_ASCII@ {
        XV::CharAscii(body, dims)
    } else if k == KIND_CHAR@ {
        XV::Char32(uint32_vals(body), dims)
    } else if k == KIND_MAP@ {
        XV::MapVal(k, dims)
    } else if k == KIND_INDEX@ {
        XV::Index(matrix_rows(body, matrix_width_spec(dims), matrix_count_spec(dims)))
    } else if k == KIND_EXT_INDEX@ {
        XV::ExtIndex(decode_ext_childs_spec(body, dims), decode_ext_path_spec(body, dims))
    } else {
        XV::Opaque(k, body, dims_product(dims) as i32)
    }
}

/// The value a head and its body stand for: a pointer for `ref` 1, else by the base kind of
/// the langtype, with the head's physical dims.
pub open spec fn decode_body(h: HeadView, body: Seq<u8>) -> XV {
    if h.reference == REF_PTR {
        XV::Ptr(h.langtype, decode_text(body))
    } else {
        decode_kind(parse_kindexpr_spec(h.langtype).1, h.phys_dims, body)
    }
}

/// Decoding a head's body computes the element count (a product that must fit `i32`) only
/// for an opaque kind.
pub open spec fn decode_body_ok(h: HeadView) -> bool {
    h.reference != REF_PTR && opaque_kind(parse_kindexpr_spec(h.langtype).1) ==> product_fits(h.phys_dims)
}

/// The value of complete bytes: `Nil` for an empty (or malformed) non-pointer head, else what
/// its head and body stand for.
pub open spec fn decode_value(d: Seq<u8>) -> XV {
    let h = decode_head_spec(d);
    if h.langtype.len() == 0 && h.reference != REF_PTR {
        XV::Nil
    } else {
        decode_body(h, body_of(h, d))
    }
}

/// Decoding `d` reads past its head, overflows a body length or an element count.
pub open spec fn decode_panics(d: Seq<u8>) -> bool {
    ||| head_decode_panics(d)
    ||| head_body_panics(d)
    ||| {
        let h = decode_head_spec(d);
        !(h.langtype.len() == 0 && h.reference != REF_PTR) && !decode_body_ok(h)
    }
}

/// The dims an opaque value is written with; see [`array_to_header_spec`].
pub fn array_to_header(kind: &str, array_len: i32) -> (d: Vec<i32>)
    ensures
        d@ == array_to_header_spec(kind@, array_len),
{
    if is_char_kind(kind) {
        vec![if array_len > 0 { array_len } else { 0 }]
    } else if array_len > 1 {
        vec![array_len]
    } else {
        Vec::new()
    }
}

/// Encodes an opaque value: kind, dims from its element count, raw body.
pub fn tlv_encode(kind: &str, raw: &[u8], array_len: i32) -> (b: Vec<u8>)
    requires
        76 + 4 * kind@.len() + raw@.len() <= usize::MAX,
    ensures
        b@ == tlv_spec(kind@, raw@, array_len),
{
    let dims = array_to_header(kind, array_len);
    encode_head(kind, 0, &dims, raw)
}

/// Encodes a pointer: the target's full kindexpr as langtype, the target path as body.
pub fn tlv_encode_ptr(target_kindexpr: &str, raw: &[u8]) -> (b: Vec<u8>)
    requires
        24 + 4 * target_kindexpr@.len() + raw@.len() <= usize::MAX,
    ensures
        b@ == tlv_ptr_spec(target_kindexpr@, raw@),
{
    let dims: Vec<i32> = Vec::new();
    encode_head(target_kindexpr, 1, &dims, raw)
}

/// A pointer to `target` whose target has kindexpr `target_kindexpr`.
pub fn new_ptr(target_kindexpr: &str, target: &str) -> (x: XValue)
    ensures
        x@ == XV::Ptr(target_kindexpr@, target@),
{
    XValue::Ptr(Ptr { target_kindexpr: string_of(target_kindexpr), target: string_of(target) })
}

/// The target path of a pointer; empty for any other value.
pub fn ptr_target(v: &XValue) -> (t: String)
    ensures
        t@ == (match v@ { XV::Ptr(_, t) => t, _ => seq![] }),
{
    match v {
        XValue::Ptr(p) => p.target.clone(),
        _ => String::new(),
    }
}

/// Whether a value is `Nil`.
pub fn is_none(v: &XValue) -> (r: bool)
    ensures
        r == (v@ is Nil),
{
    match v {
        XValue::Nil => true,
        _ => false,
    }
}

/// Whether a value is a pointer.
pub fn is_ptr(v: &XValue) -> (r: bool)
    ensures
        r == (v@ is Ptr),
{
    match v {
        XValue::Ptr(_) => true,
        _ => false,
    }
}

/// The byte width of one element of a fixed-width kind; 0 for any other kind.
pub open spec fn elem_size_spec(k: Seq<char>) -> i32 {
    if k == KIND_INT8@ || k == KIND_UINT8@ || k == KIND_CHAR_UTF8@ || k == KIND_CHAR_ASCII@
        || k == KIND_BOOL@ {
        1
    } else if k == KIND_INT16@ || k == KIND_UINT16@ {
        2
    } else if k == KIND_INT32@ || k == KIND_UINT32@ || k == KIND_FLOAT32@ || k == KIND_CHAR@ {
        4
    } else if k == KIND_INT64@ || k == KIND_UINT64@ || k == KIND_FLOAT64@ || k == KIND_TIME@
        || k == KIND_DURATION@ {
        8
    } else {
        0
    }
}

/// The byte width of one element of a fixed-width kind; 0 for any other kind.
pub fn elem_size(kind: &str) -> (r: i32)
    ensures
        r == elem_size_spec(kind@),
{
    if str_eq(kind, KIND_INT8) || str_eq(kind, KIND_UINT8) || str_eq(kind, KIND_CHAR_UTF8)
        || str_eq(kind, KIND_CHAR_ASCII) || str_eq(kind, KIND_BOOL) {
        1
    } else if str_eq(kind, KIND_INT16) || str_eq(kind, KIND_UINT16) {
        2
    } else if str_eq(kind, KIND_INT32) || str_eq(kind, KIND_UINT32) || str_eq(kind, KIND_FLOAT32)
        || str_eq(kind, KIND_CHAR) {
        4
    } else if str_eq(kind, KIND_INT64) || str_eq(kind, KIND_UINT64) || str_eq(kind, KIND_FLOAT64)
        || str_eq(kind, KIND_TIME) || str_eq(kind, KIND_DURATION) {
        8
    } else {
        0
    }
}

impl XValue {
    /// The kind name; see [`kind_of`].
    pub fn kind(&self) -> (k: &str)
        ensures
            k@ == kind_of(self@),
    {
        proof { reveal_strlit(""); }
        match self {
            XValue::Nil => "",
            XValue::Ptr(p) => p.target_kindexpr.as_str(),
            XValue::Bool(_) => KIND_BOOL,
            XValue::Int8(_) => KIND_INT8,
            XValue::Int16(_) => KIND_INT16,
            XValue::Int32(_) => KIND_INT32,
            XValue::Int64(_) => KIND_INT64,
            XValue::Uint8(_) => KIND_UINT8,
            XValue::Uint16(_) => KIND_UINT16,
            XValue::Uint32(_) => KIND_UINT32,
            XValue::Uint64(_) => KIND_UINT64,
            XValue::Float32(_) => KIND_FLOAT32,
            XValue::Float64(_) => KIND_FLOAT64,
            XValue::CharByte(_) => KIND_CHAR_UTF8,
            XValue::CharAscii(_) => KIND_CHAR_ASCII,
            XValue::Char32(_) => KIND_CHAR,
            XValue::MapVal(m) => m.langtype.as_str(),
            XValue::Index(_) => KIND_INDEX,
            XValue::ExtIndex(_) => KIND_EXT_INDEX,
            XValue::Opaque(o) => o.kind.as_str(),
        }
    }

    /// Whether the value is a pointer.
    pub fn is_ptr(&self) -> (r: bool)
        ensures
            r == (self@ is Ptr),
    {
        match self {
            XValue::Ptr(_) => true,
            _ => false,
        }
    }

    /// The element count; see [`array_len_of`]. A map's dims product must fit `i32`.
    pub fn array_len(&self) -> (n: i32)
        requires
            self@ matches XV::MapVal(_, dims) ==> product_fits(dims),
        ensures
            n as int == array_len_of(self@),
    {
        match self {
            XValue::Nil => 0,
            XValue::Ptr(_) => 1,
            XValue::Bool(d) => #[verifier::truncate] (d.data.len() as i32),
            XValue::Int8(d) => #[verifier::truncate] (d.data.len() as i32),
            XValue::Int16(d) => #[verifier::truncate] (d.data.len() as i32),
            XValue::Int32(d) => #[verifier::truncate] (d.data.len() as i32),
            XValue::Int64(d) => #[verifier::truncate] (d.data.len() as i32),
            XValue::Uint8(d) => #[verifier::truncate] (d.data.len() as i32),
            XValue::Uint16(d) => #[verifier::truncate] (d.data.len() as i32),
            XValue::Uint32(d) => #[verifier::truncate] (d.data.len() as i32),
            XValue::Uint64(d) => #[verifier::truncate] (d.data.len() as i32),
            XValue::Float32(d) => #[verifier::truncate] (d.data.len() as i32),
            XValue::Float64(d) => #[verifier::truncate] (d.data.len() as i32),
            XValue::CharByte(d) => #[verifier::truncate] (d.data.len() as i32),
            XValue::CharAscii(d) => #[verifier::truncate] (d.data.len() as i32),
            XValue::Char32(d) => #[verifier::truncate] (d.data.len() as i32),
            XValue::MapVal(m) => product_i32(m.dims.as_slice()),
            XValue::Index(_) => 1,
            XValue::ExtIndex(_) => 1,
            XValue::Opaque(o) => o.array_len,
        }
    }

    /// The full encoding (head + body); see [`encode_value`].
    pub fn encode(&self) -> (b: Vec<u8>)
        requires
            encode_fits(self@),
        ensures
            b@ == encode_value(self@),
    {
        proof {
            reveal_strlit("index");
            reveal_strlit("extindex");
        }
        match self {
            XValue::Nil => Vec::new(),
            XValue::Ptr(p) => tlv_encode_ptr(p.target_kindexpr.as_str(), p.target.as_str().as_bytes()),
            XValue::Bool(d) => encode_bool(d.data.as_slice(), d.dims.as_slice()),
            XValue::Int8(d) => encode_int8(d.data.as_slice(), d.dims.as_slice()),
            XValue::Int16(d) => encode_int16(d.data.as_slice(), d.dims.as_slice()),
            XValue::Int32(d) => encode_int32(d.data.as_slice(), d.dims.as_slice()),
            XValue::Int64(d) => encode_int64(d.data.as_slice(), d.dims.as_slice()),
            XValue::Uint8(d) => encode_uint8(d.data.as_slice(), d.dims.as_slice()),
            XValue::Uint16(d) => encode_uint16(d.data.as_slice(), d.dims.as_slice()),
            XValue::Uint32(d) => encode_uint32(d.data.as_slice(), d.dims.as_slice()),
            XValue::Uint64(d) => encode_uint64(d.data.as_slice(), d.dims.as_slice()),
            XValue::Float32(d) => encode_float32(d.data.as_slice(), d.dims.as_slice()),
            XValue::Float64(d) => encode_float64(d.data.as_slice(), d.dims.as_slice()),
            XValue::CharByte(d) => encode_char_byte(d.data.as_slice(), d.dims.as_slice()),
            XValue::CharAscii(d) => encode_char_ascii(d.data.as_slice(), d.dims.as_slice()),
            XValue::Char32(d) => encode_char32(d.data.as_slice(), d.dims.as_slice()),
            XValue::MapVal(m) => {
                let raw: Vec<u8> = Vec::new();
                encode_head(m.langtype.as_str(), 0, m.dims.as_slice(), &raw)
            },
            XValue::Index(c) => {
                let (d, b) = encode_index(c.as_slice());
                encode_head(KIND_INDEX, 0, &d, &b)
            },
            XValue::ExtIndex(e) => {
                let (d, b) = encode_ext_index(e.ext_path.as_str(), e.childs.as_slice());
                encode_head(KIND_EXT_INDEX, 0, &d, &b)
            },
            XValue::Opaque(o) => tlv_encode(o.kind.as_str(), o.body.as_slice(), o.array_len),
        }
    }
}

impl XValueHead {
    /// The value this head and `body` stand for; see [`decode_body`].
    pub fn decode(&self, body: &[u8]) -> (v: XValue)
        requires
            decode_body_ok(self@),
        ensures
            v@ == decode_body(self@, body@),
    {
        if self.is_ptr() {
            return XValue::Ptr(Ptr { target_kindexpr: self.langtype.clone(), target: utf8_lossy(body) });
        }
        let kind = self.kind();
        let dims = self.dims();
        if is_map_langtype(kind.as_str()) {
            return XValue::MapVal(MapValue { langtype: kind, dims });
        }
        let k = kind.as_str();
        if str_eq(k, KIND_BOOL) {
            XValue::Bool(decode_bool(body, &dims))
        } else if str_eq(k, KIND_INT8) {
            XValue::Int8(decode_int8(body, &dims))
        } else if str_eq(k, KIND_INT16) {
            XValue::Int16(decode_int16(body, &dims))
        } else if str_eq(k, KIND_INT32) {
            XValue::Int32(decode_int32(body, &dims))
        } else if str_eq(k, KIND_INT64) {
            XValue::Int64(decode_int64(body, &dims))
        } else if str_eq(k, KIND_UINT8) {
            XValue::Uint8(decode_uint8(body, &dims))
        } else if str_eq(k, KIND_UINT16) {
            XValue::Uint16(decode_uint16(body, &dims))
        } else if str_eq(k, KIND_UINT32) {
            XValue::Uint32(decode_uint32(body, &dims))
        } else if str_eq(k, KIND_UINT64) {
            XValue::Uint64(decode_uint64(body, &dims))
        } else if str_eq(k, KIND_FLOAT32) {
            XValue::Float32(decode_float32(body, &dims))
        } else if str_eq(k, KIND_FLOAT64) {
            XValue::Float64(decode_float64(body, &dims))
        } else if str_eq(k, KIND_CHAR_UTF8) {
            XValue::CharByte(decode_char_byte(body, &dims))
        } else if str_eq(k, KIND_CHAR_ASCII) {
            XValue::CharAscii(decode_char_ascii(body, &dims))
        } else if str_eq(k, KIND_CHAR) {
            XValue::Char32(decode_char32(body, &dims))
        } else if str_eq(k, KIND_MAP) {
            XValue::MapVal(MapValue { langtype: string_of(k), dims })
        } else if str_eq(k, KIND_INDEX) {
            XValue::Index(decode_index(body, &dims))
        } else if str_eq(k, KIND_EXT_INDEX) {
            XValue::ExtIndex(decode_ext_index(body, &dims))
        } else {
            let al = self.array_len();
            XValue::Opaque(Opaque { kind: string_of(k), body: vstd::slice::slice_to_vec(body), array_len: al })
        }
    }
}

/// Decodes complete value bytes; see [`decode_value`].
pub fn decode_xvalue(data: &[u8]) -> (v: XValue)
    requires
        !decode_panics(data@),
    ensures
        v@ == decode_value(data@),
{
    let h = decode_xvalue_head(data);
    if h.langtype.as_str().is_empty() && !h.is_ptr() {
        return XValue::Nil;
    }
    let b = h.body(data);
    h.decode(&b)
}

/// The body bytes of a value's encoding; empty for `Nil`.
pub fn body_bytes(v: &XValue) -> (b: Vec<u8>)
    requires
        encode_fits(v@),
        !head_decode_panics(encode_value(v@)),
        !head_body_panics(encode_value(v@)),
    ensures
        b@ == (if v@ is Nil { seq![] } else {
            body_of(decode_head_spec(encode_value(v@)), encode_value(v@))
        }),
{
    if is_none(v) {
        return Vec::new();
    }
    let data = v.encode();
    let h = decode_xvalue_head(&data);
    h.body(&data)
}


/// Whether a kind decodes to an opaque value; see [`opaque_kind`].
pub fn is_opaque_kind(k: &str) -> (r: bool)
    ensures
        r == opaque_kind(k@),
{
    !is_map_langtype(k) && !str_eq(k, KIND_BOOL) && !str_eq(k, KIND_INT8) && !str_eq(k, KIND_INT16)
        && !str_eq(k, KIND_INT32) && !str_eq(k, KIND_INT64) && !str_eq(k, KIND_UINT8)
        && !str_eq(k, KIND_UINT16) && !str_eq(k, KIND_UINT32) && !str_eq(k, KIND_UINT64)
        && !str_eq(k, KIND_FLOAT32) && !str_eq(k, KIND_FLOAT64) && !str_eq(k, KIND_CHAR_UTF8)
        && !str_eq(k, KIND_CHAR_ASCII) && !str_eq(k, KIND_CHAR) && !str_eq(k, KIND_MAP)
        && !str_eq(k, KIND_INDEX) && !str_eq(k, KIND_EXT_INDEX)
}

/// Whether every running product of the dims fits in `i32`.
pub fn fits_product(d: &[i32]) -> (r: bool)
    ensures
        r == product_fits(d@),
{
    let mut p: i64 = 1;
    let mut i: usize = 0;
    assert(d@.take(0) == Seq::<i32>::empty());
    while i < d.len()
        invariant
            i <= d.len(),
            p as int == dims_product(d@.take(i as int)),
            forall|k: int| 0 <= k <= i ==> i32::MIN <= #[trigger] dims_product(d@.take(k)) <= i32::MAX,
        decreases d.len() - i,
    {
        assert(d@.take(i as int + 1).drop_last() == d@.take(i as int));
        assert(i32::MIN <= p <= i32::MAX);
        assert(-0x4000_0000_0000_0000 <= (p as int) * (d[i as int] as int) <= 0x4000_0000_0000_0000) by (nonlinear_arith)
            requires i32::MIN <= p <= i32::MAX, i32::MIN <= d[i as int] <= i32::MAX;
        let q: i64 = p * (d[i] as i64);
        if q < i32::MIN as i64 || q > i32::MAX as i64 {
            assert(!(i32::MIN <= dims_product(d@.take(i as int + 1)) <= i32::MAX));
            return false;
        }
        p = q;
        i = i + 1;
    }
    assert(d@.take(d.len() as int) == d@);
    true
}

/// Whether decoding `data` would read past its head or overflow; see [`decode_panics`].
pub fn decode_would_panic(data: &[u8]) -> (r: bool)
    ensures
        r == decode_panics(data@),
{
    if data.len() < 13 {
        return false;
    }
    let hl = crate::le::read_le(data, 0, 2);
    proof {
        crate::le::lemma_le_value_bound(data@.subrange(0, 2));
        crate::le::lemma_pow256_values();
    }
    if hl < 13 || (data.len() as u64) < hl {
        return false;
    }
    if crate::xvalue::store_has_dims(data[3]) && hl == 13 {
        return true;
    }
    let bl = crate::xvalue::read_i32_le(data, 9);
    assert(bl == crate::xvalue::field_body_len(data@));
    assert(hl == crate::xvalue::field_headlen(data@));
    assert(crate::xvalue::head_prefix_ok(data@));
    if bl < 0 && (hl as i64) >= -(bl as i64) {
        return true;
    }
    let h = decode_xvalue_head(data);
    if h.langtype.as_str().is_empty() && !h.is_ptr() {
        return false;
    }
    if h.is_ptr() {
        return false;
    }
    let k = h.kind();
    is_opaque_kind(k.as_str()) && !fits_product(h.phys_dims.as_slice())
}

/// What stored bytes read as: their value, or `Nil` when they do not decode.
pub open spec fn decode_stored_spec(d: Seq<u8>) -> XV {
    if decode_panics(d) { XV::Nil } else { decode_value(d) }
}

/// Reads stored bytes as a value; bytes that do not decode (a head that reads past its end,
/// a body length or an element count that overflows) read as `Nil`.
pub fn decode_stored(data: &[u8]) -> (v: XValue)
    ensures
        v@ == decode_stored_spec(data@),
{
    if decode_would_panic(data) {
        XValue::Nil
    } else {
        decode_xvalue(data)
    }
}

/// The bytes `encode_with_perm` writes for a value: its encoding re-headed with the
/// permission bits `ro` and `vid` (kind, reference, dims and body kept).
pub open spec fn perm_bytes(v: XV, ro: bool, vid: u32) -> Seq<u8> {
    let d = encode_value(v);
    let h = crate::xvalue::decode_head_spec(d);
    crate::xvalue::encode_head_perm_spec(crate::xvalue::parse_kindexpr_spec(h.langtype).1, h.reference as i32,
        h.phys_dims, crate::xvalue::body_of(h, d), ro, vid)
}

/// A value's encoding with the permission bits `ro` and `vid`; nothing for `None`. `None`
/// is returned when the encoding does not read back as a head and body, or the re-headed
/// value would not fit in memory.
pub fn encode_with_perm(v: &XValue, ro: bool, vid: u32) -> (r: Option<Vec<u8>>)
    requires
        encode_fits(v@),
    ensures
        v@ is Nil ==> (r matches Some(b) && b@.len() == 0),
        !(v@ is Nil) && !decode_panics(encode_value(v@)) && r is None ==> {
            let h = crate::xvalue::decode_head_spec(encode_value(v@));
            24 + 52 * h.phys_dims.len() + 4 * crate::xvalue::parse_kindexpr_spec(h.langtype).1.len()
                + crate::xvalue::body_of(h, encode_value(v@)).len() > usize::MAX
        },
        !(v@ is Nil) && decode_panics(encode_value(v@)) ==> r is None,
        !(v@ is Nil) ==> (r matches Some(b) ==> b@ == perm_bytes(v@, ro, vid)),
{
    if is_none(v) {
        return Some(Vec::new());
    }
    let data = v.encode();
    if decode_would_panic(&data) {
        return None;
    }
    let h = decode_xvalue_head(&data);
    let kind = h.kind();
    let dims = h.dims();
    let body = h.body(&data);
    let kc = crate::text::chars_of(kind.as_str());
    let n1 = dims.len() as u128;
    let n2 = kc.len() as u128;
    let n3 = body.len() as u128;
    if 24 + 52 * n1 + 4 * n2 + n3 > usize::MAX as u128 {
        return None;
    }
    Some(crate::xvalue::encode_head_perm(kind.as_str(), h.reference(), &dims, &body, ro, vid))
}


/// Whether a value's encoding fits in memory; see [`encode_fits`].
pub fn encode_fits_check(v: &XValue) -> (r: bool)
    ensures
        r == encode_fits(v@),
{
    let lim: u128 = usize::MAX as u128;
    match v {
        XValue::Nil => true,
        XValue::Ptr(p) => {
            let k = crate::text::chars_of(p.target_kindexpr.as_str());
            let tb = p.target.as_str().as_bytes();
            assert(tb@ == encode_utf8(p.target@));
            24 + 4 * (k.len() as u128) + (tb.len() as u128) <= lim
        },
        XValue::Bool(a) => (a.data.len() as u128) + 52 * (a.dims.len() as u128) + 64 <= lim,
        XValue::Int8(a) => (a.data.len() as u128) + 52 * (a.dims.len() as u128) + 64 <= lim,
        XValue::Int16(a) => 2 * (a.data.len() as u128) + 52 * (a.dims.len() as u128) + 64 <= lim,
        XValue::Int32(a) => 4 * (a.data.len() as u128) + 52 * (a.dims.len() as u128) + 64 <= lim,
        XValue::Int64(a) => 8 * (a.data.len() as u128) + 52 * (a.dims.len() as u128) + 64 <= lim,
        XValue::Uint8(a) => (a.data.len() as u128) + 52 * (a.dims.len() as u128) + 64 <= lim,
        XValue::Uint16(a) => 2 * (a.data.len() as u128) + 52 * (a.dims.len() as u128) + 64 <= lim,
        XValue::Uint32(a) => 4 * (a.data.len() as u128) + 52 * (a.dims.len() as u128) + 64 <= lim,
        XValue::Uint64(a) => 8 * (a.data.len() as u128) + 52 * (a.dims.len() as u128) + 64 <= lim,
        XValue::Float32(a) => 4 * (a.data.len() as u128) + 52 * (a.dims.len() as u128) + 64 <= lim,
        XValue::Float64(a) => 8 * (a.data.len() as u128) + 52 * (a.dims.len() as u128) + 64 <= lim,
        XValue::CharByte(a) => (a.data.len() as u128) + 52 * (a.dims.len() as u128) + 64 <= lim,
        XValue::CharAscii(a) => (a.data.len() as u128) + 52 * (a.dims.len() as u128) + 64 <= lim,
        XValue::Char32(a) => 4 * (a.data.len() as u128) + 52 * (a.dims.len() as u128) + 64 <= lim,
        XValue::MapVal(m) => {
            let lt = crate::text::chars_of(m.langtype.as_str());
            24 + 52 * (m.dims.len() as u128) + 4 * (lt.len() as u128) <= lim
        },
        XValue::Index(c) => match crate::xvalue_index::index_body_len(c.as_slice(), 0, 0) {
            Some(n) => (n as u128) + 300 <= lim,
            None => false,
        },
        XValue::ExtIndex(e) => match crate::xvalue_index::index_body_len(e.childs.as_slice(), 0, 0) {
            Some(n) => {
                let pb = e.ext_path.as_str().as_bytes();
                assert(pb@ == encode_utf8(e.ext_path@));
                (pb.len() as u128) + (n as u128) + 300 <= lim
            },
            None => false,
        },
        XValue::Opaque(o) => {
            let k = crate::text::chars_of(o.kind.as_str());
            76 + 4 * (k.len() as u128) + (o.body.len() as u128) <= lim
        },
    }
}

} // verus!
