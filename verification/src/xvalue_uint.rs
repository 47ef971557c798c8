//! Unsigned integer arrays: `uint8` (raw bytes), `uint16`, `uint32`, `uint64` (little-endian).

use vstd::prelude::*;
use crate::codec::{unsigned_body, lemma_unsigned_roundtrip};
use crate::consts::{KIND_UINT16, KIND_UINT32, KIND_UINT64, KIND_UINT8};
use crate::le::{decode_words, encode_words, lemma_pow256_values, words_of};
use crate::xvalue::{dims_from_len, dims_from_len_spec, encode_head, encode_head_perm_spec, Arr, XValue};

verus! {

/// The body of `uint16` values.
pub open spec fn uint16_body(d: Seq<u16>) -> Seq<u8> {
    unsigned_body(d.map_values(|v: u16| v as nat), 2)
}

/// The `uint16` values of a body (a trailing partial word is ignored).
pub open spec fn uint16_vals(b: Seq<u8>) -> Seq<u16> {
    words_of(b, 2).map_values(|v: nat| v as u16)
}

/// The body of `uint32` values.
pub open spec fn uint32_body(d: Seq<u32>) -> Seq<u8> {
    unsigned_body(d.map_values(|v: u32| v as nat), 4)
}

/// The `uint32` values of a body (a trailing partial word is ignored).
pub open spec fn uint32_vals(b: Seq<u8>) -> Seq<u32> {
    words_of(b, 4).map_values(|v: nat| v as u32)
}

/// The body of `uint64` values.
pub open spec fn uint64_body(d: Seq<u64>) -> Seq<u8> {
    unsigned_body(d.map_values(|v: u64| v as nat), 8)
}

/// The `uint64` values of a body (a trailing partial word is ignored).
pub open spec fn uint64_vals(b: Seq<u8>) -> Seq<u64> {
    words_of(b, 8).map_values(|v: nat| v as u64)
}

/// Decoding the body of unsigned values gives them back, for every width.
pub proof fn lemma_uint_roundtrip(d16: Seq<u16>, d32: Seq<u32>, d64: Seq<u64>)
    ensures
        uint16_vals(uint16_body(d16)) == d16,
        uint32_vals(uint32_body(d32)) == d32,
        uint64_vals(uint64_body(d64)) == d64,
{
    lemma_pow256_values();
    let a = d16.map_values(|v: u16| v as nat);
    lemma_unsigned_roundtrip(a, 2);
    assert(uint16_vals(uint16_body(d16)) =~= d16);
    let b = d32.map_values(|v: u32| v as nat);
    lemma_unsigned_roundtrip(b, 4);
    assert(uint32_vals(uint32_body(d32)) =~= d32);
    let c = d64.map_values(|v: u64| v as nat);
    lemma_unsigned_roundtrip(c, 8);
    assert(uint64_vals(uint64_body(d64)) =~= d64);
}

/// A scalar or one-axis `uint8` value.
pub fn new_uint8(v: &[u8]) -> (x: XValue)
    ensures
        x matches XValue::Uint8(a) && a.data@ == v@ && a.dims@ == dims_from_len_spec(v@.len()),
{
    XValue::Uint8(Arr { data: vstd::slice::slice_to_vec(v), dims: dims_from_len(v.len()) })
}

/// A scalar or one-axis `uint16` value.
pub fn new_uint16(v: &[u16]) -> (x: XValue)
    ensures
        x matches XValue::Uint16(a) && a.data@ == v@ && a.dims@ == dims_from_len_spec(v@.len()),
{
    XValue::Uint16(Arr { data: vstd::slice::slice_to_vec(v), dims: dims_from_len(v.len()) })
}

/// A scalar or one-axis `uint32` value.
pub fn new_uint32(v: &[u32]) -> (x: XValue)
    ensures
        x matches XValue::Uint32(a) && a.data@ == v@ && a.dims@ == dims_from_len_spec(v@.len()),
{
    XValue::Uint32(Arr { data: vstd::slice::slice_to_vec(v), dims: dims_from_len(v.len()) })
}

/// A scalar or one-axis `uint64` value.
pub fn new_uint64(v: &[u64]) -> (x: XValue)
    ensures
        x matches XValue::Uint64(a) && a.data@ == v@ && a.dims@ == dims_from_len_spec(v@.len()),
{
    XValue::Uint64(Arr { data: vstd::slice::slice_to_vec(v), dims: dims_from_len(v.len()) })
}

/// Decodes `uint8` values (the body itself) with the given dims.
pub fn decode_uint8(body: &[u8], dims: &[i32]) -> (a: Arr<u8>)
    ensures
        a.data@ == body@,
        a.dims@ == dims@,
{
    Arr { data: vstd::slice::slice_to_vec(body), dims: vstd::slice::slice_to_vec(dims) }
}

/// Encodes `uint8` values (the body is the bytes) with the given dims.
pub fn encode_uint8(data: &[u8], dims: &[i32]) -> (b: Vec<u8>)
    requires
        data@.len() + 52 * dims@.len() + 64 <= usize::MAX,
    ensures
        b@ == encode_head_perm_spec(KIND_UINT8@, 0, dims@, data@, false, 0),
{
    proof { reveal_strlit("uint8"); }
    encode_head(KIND_UINT8, 0, dims, data)
}

/// Decodes `u16` words with the given dims.
pub fn decode_uint16(body: &[u8], dims: &[i32]) -> (a: Arr<u16>)
    ensures
        a.data@ == uint16_vals(body@),
        a.dims@ == dims@,
{
    let w = decode_words(body, 2);
    let mut data: Vec<u16> = Vec::new();
    let mut i: usize = 0;
    proof { lemma_pow256_values(); }
    while i < w.len()
        invariant
            i <= w.len(),
            crate::le::pow256(2) == 0x10000,
            crate::le::pow256(4) == 0x1_0000_0000,
            crate::le::pow256(8) == 0x1_0000_0000_0000_0000,
            w@.len() == words_of(body@, 2).len(),
            forall|k: int| 0 <= k < w@.len() ==> (#[trigger] w@[k]) as nat == words_of(body@, 2)[k],
            data@.len() == i,
            forall|k: int| 0 <= k < i ==> (#[trigger] data@[k]) as nat == w@[k] as nat,
        decreases w.len() - i,
    {
        proof { crate::codec::lemma_words_of_fit(body@, 2, i as int); }
        data.push(w[i] as u16);
        i = i + 1;
    }
    assert(data@ =~= uint16_vals(body@));
    Arr { data, dims: vstd::slice::slice_to_vec(dims) }
}

/// Encodes `uint16` values with the given dims.
pub fn encode_uint16(data: &[u16], dims: &[i32]) -> (b: Vec<u8>)
    requires
        2 * data@.len() + 52 * dims@.len() + 64 <= usize::MAX,
    ensures
        b@ == encode_head_perm_spec(KIND_UINT16@, 0, dims@, uint16_body(data@), false, 0),
{
    let mut v: Vec<u64> = Vec::new();
    let mut i: usize = 0;
    while i < data.len()
        invariant
            i <= data.len(),
            v@.len() == i,
            forall|k: int| 0 <= k < i ==> (#[trigger] v@[k]) as nat == data@[k] as nat,
        decreases data.len() - i,
    {
        v.push(data[i] as u64);
        i = i + 1;
    }
    let raw = encode_words(&v, 2);
    proof {
        assert(Seq::new(v@.len(), |k: int| v@[k] as nat) =~= data@.map_values(|x: u16| x as nat));
        reveal_strlit("uint16");
        crate::le::lemma_words_le_len(data@.map_values(|x: u16| x as nat), 2);
    }
    encode_head(KIND_UINT16, 0, dims, &raw)
}

/// Decodes `u32` words with the given dims.
pub fn decode_uint32(body: &[u8], dims: &[i32]) -> (a: Arr<u32>)
    ensures
        a.data@ == uint32_vals(body@),
        a.dims@ == dims@,
{
    let w = decode_words(body, 4);
    let mut data: Vec<u32> = Vec::new();
    let mut i: usize = 0;
    proof { lemma_pow256_values(); }
    while i < w.len()
        invariant
            i <= w.len(),
            crate::le::pow256(2) == 0x10000,
            crate::le::pow256(4) == 0x1_0000_0000,
            crate::le::pow256(8) == 0x1_0000_0000_0000_0000,
            w@.len() == words_of(body@, 4).len(),
            forall|k: int| 0 <= k < w@.len() ==> (#[trigger] w@[k]) as nat == words_of(body@, 4)[k],
            data@.len() == i,
            forall|k: int| 0 <= k < i ==> (#[trigger] data@[k]) as nat == w@[k] as nat,
        decreases w.len() - i,
    {
        proof { crate::codec::lemma_words_of_fit(body@, 4, i as int); }
        data.push(w[i] as u32);
        i = i + 1;
    }
    assert(data@ =~= uint32_vals(body@));
    Arr { data, dims: vstd::slice::slice_to_vec(dims) }
}

/// Encodes `uint32` values with the given dims.
pub fn encode_uint32(data: &[u32], dims: &[i32]) -> (b: Vec<u8>)
    requires
        4 * data@.len() + 52 * dims@.len() + 64 <= usize::MAX,
    ensures
        b@ == encode_head_perm_spec(KIND_UINT32@, 0, dims@, uint32_body(data@), false, 0),
{
    let mut v: Vec<u64> = Vec::new();
    let mut i: usize = 0;
    while i < data.len()
        invariant
            i <= data.len(),
            v@.len() == i,
            forall|k: int| 0 <= k < i ==> (#[trigger] v@[k]) as nat == data@[k] as nat,
        decreases data.len() - i,
    {
        v.push(data[i] as u64);
        i = i + 1;
    }
    let raw = encode_words(&v, 4);
    proof {
        assert(Seq::new(v@.len(), |k: int| v@[k] as nat) =~= data@.map_values(|x: u32| x as nat));
        reveal_strlit("uint32");
        crate::le::lemma_words_le_len(data@.map_values(|x: u32| x as nat), 4);
    }
    encode_head(KIND_UINT32, 0, dims, &raw)
}

/// Decodes `u64` words with the given dims.
pub fn decode_uint64(body: &[u8], dims: &[i32]) -> (a: Arr<u64>)
    ensures
        a.data@ == uint64_vals(body@),
        a.dims@ == dims@,
{
    let w = decode_words(body, 8);
    let mut data: Vec<u64> = Vec::new();
    let mut i: usize = 0;
    proof { lemma_pow256_values(); }
    while i < w.len()
        invariant
            i <= w.len(),
            crate::le::pow256(2) == 0x10000,
            crate::le::pow256(4) == 0x1_0000_0000,
            crate::le::pow256(8) == 0x1_0000_0000_0000_0000,
            w@.len() == words_of(body@, 8).len(),
            forall|k: int| 0 <= k < w@.len() ==> (#[trigger] w@[k]) as nat == words_of(body@, 8)[k],
            data@.len() == i,
            forall|k: int| 0 <= k < i ==> (#[trigger] data@[k]) as nat == w@[k] as nat,
        decreases w.len() - i,
    {
        proof { crate::codec::lemma_words_of_fit(body@, 8, i as int); }
        data.push(w[i] as u64);
        i = i + 1;
    }
    assert(data@ =~= uint64_vals(body@));
    Arr { data, dims: vstd::slice::slice_to_vec(dims) }
}

/// Encodes `uint64` values with the given dims.
pub fn encode_uint64(data: &[u64], dims: &[i32]) -> (b: Vec<u8>)
    requires
        8 * data@.len() + 52 * dims@.len() + 64 <= usize::MAX,
    ensures
        b@ == encode_head_perm_spec(KIND_UINT64@, 0, dims@, uint64_body(data@), false, 0),
{
    let mut v: Vec<u64> = Vec::new();
    let mut i: usize = 0;
    while i < data.len()
        invariant
            i <= data.len(),
            v@.len() == i,
            forall|k: int| 0 <= k < i ==> (#[trigger] v@[k]) as nat == data@[k] as nat,
        decreases data.len() - i,
    {
        v.push(data[i] as u64);
        i = i + 1;
    }
    let raw = encode_words(&v, 8);
    proof {
        assert(Seq::new(v@.len(), |k: int| v@[k] as nat) =~= data@.map_values(|x: u64| x as nat));
        reveal_strlit("uint64");
        crate::le::lemma_words_le_len(data@.map_values(|x: u64| x as nat), 8);
    }
    encode_head(KIND_UINT64, 0, dims, &raw)
}

} // verus!
