//! Signed integer arrays: `int8`, `int16`, `int32`, `int64` (little-endian two's complement).

use vstd::prelude::*;
use crate::codec::{decode_signed, encode_signed, signed_body, signed_vals, signed_fits, lemma_signed_roundtrip};
use crate::consts::{KIND_INT16, KIND_INT32, KIND_INT64, KIND_INT8};
use crate::le::lemma_pow256_values;
use crate::xvalue::{dims_from_len, dims_from_len_spec, encode_head, encode_head_perm_spec, Arr, XValue};

verus! {

/// The body of `int8` values.
pub open spec fn int8_body(d: Seq<i8>) -> Seq<u8> {
    signed_body(d.map_values(|v: i8| v as int), 1)
}

/// The body of `int16` values.
pub open spec fn int16_body(d: Seq<i16>) -> Seq<u8> {
    signed_body(d.map_values(|v: i16| v as int), 2)
}

/// The body of `int32` values.
pub open spec fn int32_body(d: Seq<i32>) -> Seq<u8> {
    signed_body(d.map_values(|v: i32| v as int), 4)
}

/// The body of `int64` values.
pub open spec fn int64_body(d: Seq<i64>) -> Seq<u8> {
    signed_body(d.map_values(|v: i64| v as int), 8)
}

/// The `int8` values of a body (one per byte).
pub open spec fn int8_vals(b: Seq<u8>) -> Seq<i8> {
    signed_vals(b, 1).map_values(|v: int| v as i8)
}

/// The `int16` values of a body (a trailing partial word is ignored).
pub open spec fn int16_vals(b: Seq<u8>) -> Seq<i16> {
    signed_vals(b, 2).map_values(|v: int| v as i16)
}

/// The `int32` values of a body (a trailing partial word is ignored).
pub open spec fn int32_vals(b: Seq<u8>) -> Seq<i32> {
    signed_vals(b, 4).map_values(|v: int| v as i32)
}

/// The `int64` values of a body (a trailing partial word is ignored).
pub open spec fn int64_vals(b: Seq<u8>) -> Seq<i64> {
    signed_vals(b, 8).map_values(|v: int| v as i64)
}

/// Decoding the body of signed values gives them back, for every width.
pub proof fn lemma_int_roundtrip(d8: Seq<i8>, d16: Seq<i16>, d32: Seq<i32>, d64: Seq<i64>)
    ensures
        int8_vals(int8_body(d8)) == d8,
        int16_vals(int16_body(d16)) == d16,
        int32_vals(int32_body(d32)) == d32,
        int64_vals(int64_body(d64)) == d64,
{
    lemma_pow256_values();
    assert(crate::le::pow256(1) == 256) by { reveal_with_fuel(crate::le::pow256, 2); }
    let a = d8.map_values(|v: i8| v as int);
    assert forall|k: int| 0 <= k < a.len() implies signed_fits(#[trigger] a[k], 1) by {}
    lemma_signed_roundtrip(a, 1);
    assert(int8_vals(int8_body(d8)) =~= d8);
    let b = d16.map_values(|v: i16| v as int);
    assert forall|k: int| 0 <= k < b.len() implies signed_fits(#[trigger] b[k], 2) by {}
    lemma_signed_roundtrip(b, 2);
    assert(int16_vals(int16_body(d16)) =~= d16);
    let c = d32.map_values(|v: i32| v as int);
    assert forall|k: int| 0 <= k < c.len() implies signed_fits(#[trigger] c[k], 4) by {}
    lemma_signed_roundtrip(c, 4);
    assert(int32_vals(int32_body(d32)) =~= d32);
    let e = d64.map_values(|v: i64| v as int);
    assert forall|k: int| 0 <= k < e.len() implies signed_fits(#[trigger] e[k], 8) by {}
    lemma_signed_roundtrip(e, 8);
    assert(int64_vals(int64_body(d64)) =~= d64);
}

/// A scalar or one-axis `int8` value.
pub fn new_int8(v: &[i8]) -> (x: XValue)
    ensures
        x matches XValue::Int8(a) && a.data@ == v@ && a.dims@ == dims_from_len_spec(v@.len()),
{
    XValue::Int8(Arr { data: vstd::slice::slice_to_vec(v), dims: dims_from_len(v.len()) })
}

/// A scalar or one-axis `int16` value.
pub fn new_int16(v: &[i16]) -> (x: XValue)
    ensures
        x matches XValue::Int16(a) && a.data@ == v@ && a.dims@ == dims_from_len_spec(v@.len()),
{
    XValue::Int16(Arr { data: vstd::slice::slice_to_vec(v), dims: dims_from_len(v.len()) })
}

/// A scalar or one-axis `int32` value.
pub fn new_int32(v: &[i32]) -> (x: XValue)
    ensures
        x matches XValue::Int32(a) && a.data@ == v@ && a.dims@ == dims_from_len_spec(v@.len()),
{
    XValue::Int32(Arr { data: vstd::slice::slice_to_vec(v), dims: dims_from_len(v.len()) })
}

/// A scalar or one-axis `int64` value.
pub fn new_int64(v: &[i64]) -> (x: XValue)
    ensures
        x matches XValue::Int64(a) && a.data@ == v@ && a.dims@ == dims_from_len_spec(v@.len()),
{
    XValue::Int64(Arr { data: vstd::slice::slice_to_vec(v), dims: dims_from_len(v.len()) })
}

/// Encodes `int8` values with the given dims.
pub fn encode_int8(data: &[i8], dims: &[i32]) -> (b: Vec<u8>)
    requires
        1 * data@.len() + 52 * dims@.len() + 64 <= usize::MAX,
    ensures
        b@ == encode_head_perm_spec(KIND_INT8@, 0, dims@, int8_body(data@), false, 0),
{
    let mut v: Vec<i64> = Vec::new();
    let mut i: usize = 0;
    while i < data.len()
        invariant
            i <= data.len(),
            v@.len() == i,
            forall|k: int| 0 <= k < i ==> (#[trigger] v@[k]) as int == data@[k] as int,
        decreases data.len() - i,
    {
        v.push(data[i] as i64);
        i = i + 1;
    }
    proof {
        lemma_pow256_values();
        assert(crate::le::pow256(1) == 256) by { reveal_with_fuel(crate::le::pow256, 2); }
        assert(v@.map_values(|x: i64| x as int) =~= data@.map_values(|x: i8| x as int));
    }
    let raw = encode_signed(&v, 1);
    proof {
        reveal_strlit("int8");
        crate::le::lemma_words_le_len(crate::codec::signed_words(data@.map_values(|x: i8| x as int), 1), 1);
    }
    encode_head(KIND_INT8, 0, dims, &raw)
}

/// Decodes `int8` values with the given dims.
pub fn decode_int8(body: &[u8], dims: &[i32]) -> (a: Arr<i8>)
    ensures
        a.data@ == int8_vals(body@),
        a.dims@ == dims@,
{
    let w = decode_signed(body, 1);
    let mut data: Vec<i8> = Vec::new();
    let mut i: usize = 0;
    proof { lemma_pow256_values(); assert(crate::le::pow256(1) == 256) by { reveal_with_fuel(crate::le::pow256, 2); } }
    while i < w.len()
        invariant
            i <= w.len(),
            crate::le::pow256(1) == 256,
            crate::le::pow256(2) == 0x10000,
            crate::le::pow256(4) == 0x1_0000_0000,
            crate::le::pow256(8) == 0x1_0000_0000_0000_0000,
            w@.map_values(|v: i64| v as int) == signed_vals(body@, 1),
            data@.len() == i,
            forall|k: int| 0 <= k < i ==> (#[trigger] data@[k]) as int == w@[k] as int,
        decreases w.len() - i,
    {
        proof { crate::codec::lemma_signed_vals_fit(body@, 1, i as int); }
        assert(w@.map_values(|v: i64| v as int)[i as int] == w@[i as int] as int);
        data.push(w[i] as i8);
        i = i + 1;
    }
    assert(data@ =~= int8_vals(body@));
    Arr { data, dims: vstd::slice::slice_to_vec(dims) }
}

/// Encodes `int16` values with the given dims.
pub fn encode_int16(data: &[i16], dims: &[i32]) -> (b: Vec<u8>)
    requires
        2 * data@.len() + 52 * dims@.len() + 64 <= usize::MAX,
    ensures
        b@ == encode_head_perm_spec(KIND_INT16@, 0, dims@, int16_body(data@), false, 0),
{
    let mut v: Vec<i64> = Vec::new();
    let mut i: usize = 0;
    while i < data.len()
        invariant
            i <= data.len(),
            v@.len() == i,
            forall|k: int| 0 <= k < i ==> (#[trigger] v@[k]) as int == data@[k] as int,
        decreases data.len() - i,
    {
        v.push(data[i] as i64);
        i = i + 1;
    }
    proof {
        lemma_pow256_values();
        assert(crate::le::pow256(1) == 256) by { reveal_with_fuel(crate::le::pow256, 2); }
        assert(v@.map_values(|x: i64| x as int) =~= data@.map_values(|x: i16| x as int));
    }
    let raw = encode_signed(&v, 2);
    proof {
        reveal_strlit("int16");
        crate::le::lemma_words_le_len(crate::codec::signed_words(data@.map_values(|x: i16| x as int), 2), 2);
    }
    encode_head(KIND_INT16, 0, dims, &raw)
}

/// Decodes `int16` values with the given dims.
pub fn decode_int16(body: &[u8], dims: &[i32]) -> (a: Arr<i16>)
    ensures
        a.data@ == int16_vals(body@),
        a.dims@ == dims@,
{
    let w = decode_signed(body, 2);
    let mut data: Vec<i16> = Vec::new();
    let mut i: usize = 0;
    proof { lemma_pow256_values(); assert(crate::le::pow256(1) == 256) by { reveal_with_fuel(crate::le::pow256, 2); } }
    while i < w.len()
        invariant
            i <= w.len(),
            crate::le::pow256(1) == 256,
            crate::le::pow256(2) == 0x10000,
            crate::le::pow256(4) == 0x1_0000_0000,
            crate::le::pow256(8) == 0x1_0000_0000_0000_0000,
            w@.map_values(|v: i64| v as int) == signed_vals(body@, 2),
            data@.len() == i,
            forall|k: int| 0 <= k < i ==> (#[trigger] data@[k]) as int == w@[k] as int,
        decreases w.len() - i,
    {
        proof { crate::codec::lemma_signed_vals_fit(body@, 2, i as int); }
        assert(w@.map_values(|v: i64| v as int)[i as int] == w@[i as int] as int);
        data.push(w[i] as i16);
        i = i + 1;
    }
    assert(data@ =~= int16_vals(body@));
    Arr { data, dims: vstd::slice::slice_to_vec(dims) }
}

/// Encodes `int32` values with the given dims.
pub fn encode_int32(data: &[i32], dims: &[i32]) -> (b: Vec<u8>)
    requires
        4 * data@.len() + 52 * dims@.len() + 64 <= usize::MAX,
    ensures
        b@ == encode_head_perm_spec(KIND_INT32@, 0, dims@, int32_body(data@), false, 0),
{
    let mut v: Vec<i64> = Vec::new();
    let mut i: usize = 0;
    while i < data.len()
        invariant
            i <= data.len(),
            v@.len() == i,
            forall|k: int| 0 <= k < i ==> (#[trigger] v@[k]) as int == data@[k] as int,
        decreases data.len() - i,
    {
        v.push(data[i] as i64);
        i = i + 1;
    }
    proof {
        lemma_pow256_values();
        assert(crate::le::pow256(1) == 256) by { reveal_with_fuel(crate::le::pow256, 2); }
        assert(v@.map_values(|x: i64| x as int) =~= data@.map_values(|x: i32| x as int));
    }
    let raw = encode_signed(&v, 4);
    proof {
        reveal_strlit("int32");
        crate::le::lemma_words_le_len(crate::codec::signed_words(data@.map_values(|x: i32| x as int), 4), 4);
    }
    encode_head(KIND_INT32, 0, dims, &raw)
}

/// Decodes `int32` values with the given dims.
pub fn decode_int32(body: &[u8], dims: &[i32]) -> (a: Arr<i32>)
    ensures
        a.data@ == int32_vals(body@),
        a.dims@ == dims@,
{
    let w = decode_signed(body, 4);
    let mut data: Vec<i32> = Vec::new();
    let mut i: usize = 0;
    proof { lemma_pow256_values(); assert(crate::le::pow256(1) == 256) by { reveal_with_fuel(crate::le::pow256, 2); } }
    while i < w.len()
        invariant
            i <= w.len(),
            crate::le::pow256(1) == 256,
            crate::le::pow256(2) == 0x10000,
            crate::le::pow256(4) == 0x1_0000_0000,
            crate::le::pow256(8) == 0x1_0000_0000_0000_0000,
            w@.map_values(|v: i64| v as int) == signed_vals(body@, 4),
            data@.len() == i,
            forall|k: int| 0 <= k < i ==> (#[trigger] data@[k]) as int == w@[k] as int,
        decreases w.len() - i,
    {
        proof { crate::codec::lemma_signed_vals_fit(body@, 4, i as int); }
        assert(w@.map_values(|v: i64| v as int)[i as int] == w@[i as int] as int);
        data.push(w[i] as i32);
        i = i + 1;
    }
    assert(data@ =~= int32_vals(body@));
    Arr { data, dims: vstd::slice::slice_to_vec(dims) }
}

/// Encodes `int64` values with the given dims.
pub fn encode_int64(data: &[i64], dims: &[i32]) -> (b: Vec<u8>)
    requires
        8 * data@.len() + 52 * dims@.len() + 64 <= usize::MAX,
    ensures
        b@ == encode_head_perm_spec(KIND_INT64@, 0, dims@, int64_body(data@), false, 0),
{
    let mut v: Vec<i64> = Vec::new();
    let mut i: usize = 0;
    while i < data.len()
        invariant
            i <= data.len(),
            v@.len() == i,
            forall|k: int| 0 <= k < i ==> (#[trigger] v@[k]) as int == data@[k] as int,
        decreases data.len() - i,
    {
        v.push(data[i] as i64);
        i = i + 1;
    }
    proof {
        lemma_pow256_values();
        assert(crate::le::pow256(1) == 256) by { reveal_with_fuel(crate::le::pow256, 2); }
        assert(v@.map_values(|x: i64| x as int) =~= data@.map_values(|x: i64| x as int));
    }
    let raw = encode_signed(&v, 8);
    proof {
        reveal_strlit("int64");
        crate::le::lemma_words_le_len(crate::codec::signed_words(data@.map_values(|x: i64| x as int), 8), 8);
    }
    encode_head(KIND_INT64, 0, dims, &raw)
}

/// Decodes `int64` values with the given dims.
pub fn decode_int64(body: &[u8], dims: &[i32]) -> (a: Arr<i64>)
    ensures
        a.data@ == int64_vals(body@),
        a.dims@ == dims@,
{
    let w = decode_signed(body, 8);
    let mut data: Vec<i64> = Vec::new();
    let mut i: usize = 0;
    proof { lemma_pow256_values(); assert(crate::le::pow256(1) == 256) by { reveal_with_fuel(crate::le::pow256, 2); } }
    while i < w.len()
        invariant
            i <= w.len(),
            crate::le::pow256(1) == 256,
            crate::le::pow256(2) == 0x10000,
            crate::le::pow256(4) == 0x1_0000_0000,
            crate::le::pow256(8) == 0x1_0000_0000_0000_0000,
            w@.map_values(|v: i64| v as int) == signed_vals(body@, 8),
            data@.len() == i,
            forall|k: int| 0 <= k < i ==> (#[trigger] data@[k]) as int == w@[k] as int,
        decreases w.len() - i,
    {
        proof { crate::codec::lemma_signed_vals_fit(body@, 8, i as int); }
        assert(w@.map_values(|v: i64| v as int)[i as int] == w@[i as int] as int);
        data.push(w[i] as i64);
        i = i + 1;
    }
    assert(data@ =~= int64_vals(body@));
    Arr { data, dims: vstd::slice::slice_to_vec(dims) }
}

} // verus!
