//! Character arrays: `char/utf8` and `char/ascii` (one byte each) and `char/utf32` (code points).
//! A character value is always a one-axis sequence: its dims are `[len]`.

use vstd::prelude::*;
use crate::consts::{KIND_CHAR, KIND_CHAR_ASCII, KIND_CHAR_UTF8};
use crate::le::{decode_words, encode_words, lemma_pow256_values, words_of};
use crate::text::chars_of;
use crate::xvalue::{encode_head, encode_head_perm_spec, Arr, XValue};
use crate::xvalue_uint::{uint32_body, uint32_vals};

verus! {

/// Whether a kind belongs to the character family (prefix `char/`).
pub open spec fn is_char_kind_spec(k: Seq<char>) -> bool {
    k.len() >= 5 && k[0] == 'c' && k[1] == 'h' && k[2] == 'a' && k[3] == 'r' && k[4] == '/'
}

/// Whether a kind belongs to the character family (prefix `char/`).
pub fn is_char_kind(kind: &str) -> (r: bool)
    ensures
        r == is_char_kind_spec(kind@),
{
    let k = chars_of(kind);
    k.len() >= 5 && k[0] == 'c' && k[1] == 'h' && k[2] == 'a' && k[3] == 'r' && k[4] == '/'
}

/// The dims of a character sequence of `n` elements: `[n]`.
pub open spec fn char_dims_spec(n: nat) -> Seq<i32> {
    seq![n as i32]
}

/// The dims of a character sequence of `n` elements: `[n]`.
pub fn char_dims(n: usize) -> (d: Vec<i32>)
    ensures
        d@ == char_dims_spec(n as nat),
{
    vec![#[verifier::truncate] (n as i32)]
}

/// A `char/utf8` value from bytes.
pub fn new_char_byte(v: &[u8]) -> (x: XValue)
    ensures
        x matches XValue::CharByte(a) && a.data@ == v@ && a.dims@ == char_dims_spec(v@.len()),
{
    XValue::CharByte(Arr { data: vstd::slice::slice_to_vec(v), dims: char_dims(v.len()) })
}

/// A `char/ascii` value from bytes.
pub fn new_char_ascii(v: &[u8]) -> (x: XValue)
    ensures
        x matches XValue::CharAscii(a) && a.data@ == v@ && a.dims@ == char_dims_spec(v@.len()),
{
    XValue::CharAscii(Arr { data: vstd::slice::slice_to_vec(v), dims: char_dims(v.len()) })
}

/// A `char/utf32` value from code points.
pub fn new_char32(v: &[u32]) -> (x: XValue)
    ensures
        x matches XValue::Char32(a) && a.data@ == v@ && a.dims@ == char_dims_spec(v@.len()),
{
    XValue::Char32(Arr { data: vstd::slice::slice_to_vec(v), dims: char_dims(v.len()) })
}

/// The code points of a string.
pub open spec fn code_points(s: Seq<char>) -> Seq<u32> {
    s.map_values(|c: char| c as u32)
}

/// A character value of `kind` from a string: the UTF-8 bytes for `char/utf8` and
/// `char/ascii`, the code points (`char/utf32`) for any other kind.
pub fn new_char(kind: &str, s: &str) -> (x: XValue)
    ensures
        kind@ == KIND_CHAR_UTF8@ ==> (x matches XValue::CharByte(a)
            && a.data@ == vstd::utf8::encode_utf8(s@) && a.dims@ == char_dims_spec(a.data@.len())),
        kind@ == KIND_CHAR_ASCII@ ==> (x matches XValue::CharAscii(a)
            && a.data@ == vstd::utf8::encode_utf8(s@) && a.dims@ == char_dims_spec(a.data@.len())),
        kind@ != KIND_CHAR_UTF8@ && kind@ != KIND_CHAR_ASCII@ ==> (x matches XValue::Char32(a)
            && a.data@ == code_points(s@) && a.dims@ == char_dims_spec(s@.len())),
{
    let k = chars_of(kind);
    let u8k = chars_of(KIND_CHAR_UTF8);
    let ak = chars_of(KIND_CHAR_ASCII);
    proof {
        reveal_strlit("char/utf8");
        reveal_strlit("char/ascii");
        assert(KIND_CHAR_UTF8@[5] != KIND_CHAR_ASCII@[5]);
    }
    if crate::text::chars_eq(&k, &u8k) {
        let b = s.as_bytes();
        XValue::CharByte(Arr { data: vstd::slice::slice_to_vec(b), dims: char_dims(b.len()) })
    } else if crate::text::chars_eq(&k, &ak) {
        let b = s.as_bytes();
        XValue::CharAscii(Arr { data: vstd::slice::slice_to_vec(b), dims: char_dims(b.len()) })
    } else {
        let cs = chars_of(s);
        let mut v: Vec<u32> = Vec::new();
        let mut i: usize = 0;
        while i < cs.len()
            invariant
                i <= cs.len(),
                cs@ == s@,
                v@ == code_points(cs@.take(i as int)),
            decreases cs.len() - i,
        {
            v.push(cs[i] as u32);
            i = i + 1;
            assert(v@ =~= code_points(cs@.take(i as int)));
        }
        assert(cs@.take(cs.len() as int) == cs@);
        let n = v.len();
        XValue::Char32(Arr { data: v, dims: char_dims(n) })
    }
}

/// Decodes `char/utf8` bytes with the given dims.
pub fn decode_char_byte(body: &[u8], dims: &[i32]) -> (a: Arr<u8>)
    ensures
        a.data@ == body@,
        a.dims@ == dims@,
{
    Arr { data: vstd::slice::slice_to_vec(body), dims: vstd::slice::slice_to_vec(dims) }
}

/// Decodes `char/ascii` bytes with the given dims.
pub fn decode_char_ascii(body: &[u8], dims: &[i32]) -> (a: Arr<u8>)
    ensures
        a.data@ == body@,
        a.dims@ == dims@,
{
    Arr { data: vstd::slice::slice_to_vec(body), dims: vstd::slice::slice_to_vec(dims) }
}

/// Encodes `char/utf8` bytes with the given dims.
pub fn encode_char_byte(data: &[u8], dims: &[i32]) -> (b: Vec<u8>)
    requires
        data@.len() + 52 * dims@.len() + 64 <= usize::MAX,
    ensures
        b@ == encode_head_perm_spec(KIND_CHAR_UTF8@, 0, dims@, data@, false, 0),
{
    proof { reveal_strlit("char/utf8"); }
    encode_head(KIND_CHAR_UTF8, 0, dims, data)
}

/// Encodes `char/ascii` bytes with the given dims.
pub fn encode_char_ascii(data: &[u8], dims: &[i32]) -> (b: Vec<u8>)
    requires
        data@.len() + 52 * dims@.len() + 64 <= usize::MAX,
    ensures
        b@ == encode_head_perm_spec(KIND_CHAR_ASCII@, 0, dims@, data@, false, 0),
{
    proof { reveal_strlit("char/ascii"); }
    encode_head(KIND_CHAR_ASCII, 0, dims, data)
}

/// Decodes `u32` words with the given dims.
pub fn decode_char32(body: &[u8], dims: &[i32]) -> (a: Arr<u32>)
    ensures
        a.data@ == uint32_vals(body@),
        a.dims@ == dims@,
{
    let w = decode_words(body, 4);
    let mut data: Vec<u32> = Vec::new();
    let mut i: usize = 0;
    proof { lemma_pow256_values(); }
    while i < w.len()
        invariant
            i <= w.len(),
            crate::le::pow256(2) == 0x10000,
            crate::le::pow256(4) == 0x1_0000_0000,
            crate::le::pow256(8) == 0x1_0000_0000_0000_0000,
            w@.len() == words_of(body@, 4).len(),
            forall|k: int| 0 <= k < w@.len() ==> (#[trigger] w@[k]) as nat == words_of(body@, 4)[k],
            data@.len() == i,
            forall|k: int| 0 <= k < i ==> (#[trigger] data@[k]) as nat == w@[k] as nat,
        decreases w.len() - i,
    {
        proof { crate::codec::lemma_words_of_fit(body@, 4, i as int); }
        data.push(w[i] as u32);
        i = i + 1;
    }
    assert(data@ =~= uint32_vals(body@));
    Arr { data, dims: vstd::slice::slice_to_vec(dims) }
}

/// Encodes `char/utf32` values with the given dims.
pub fn encode_char32(data: &[u32], dims: &[i32]) -> (b: Vec<u8>)
    requires
        4 * data@.len() + 52 * dims@.len() + 64 <= usize::MAX,
    ensures
        b@ == encode_head_perm_spec(KIND_CHAR@, 0, dims@, uint32_body(data@), false, 0),
{
    let mut v: Vec<u64> = Vec::new();
    let mut i: usize = 0;
    while i < data.len()
        invariant
            i <= data.len(),
            v@.len() == i,
            forall|k: int| 0 <= k < i ==> (#[trigger] v@[k]) as nat == data@[k] as nat,
        decreases data.len() - i,
    {
        v.push(data[i] as u64);
        i = i + 1;
    }
    let raw = encode_words(&v, 4);
    proof {
        assert(Seq::new(v@.len(), |k: int| v@[k] as nat) =~= data@.map_values(|x: u32| x as nat));
        reveal_strlit("char/utf32");
        crate::le::lemma_words_le_len(data@.map_values(|x: u32| x as nat), 4);
    }
    encode_head(KIND_CHAR, 0, dims, &raw)
}

} // verus!
