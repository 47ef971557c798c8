//! Floating-point arrays, held as their IEEE-754 bit patterns: `float32` as `u32`, `float64` as `u64`.

use vstd::prelude::*;
use crate::consts::{KIND_FLOAT32, KIND_FLOAT64};
use crate::le::{decode_words, encode_words, lemma_pow256_values, words_of};
use crate::xvalue::{dims_from_len, dims_from_len_spec, encode_head, encode_head_perm_spec, Arr, XValue};
use crate::xvalue_uint::{uint32_body, uint32_vals, uint64_body, uint64_vals};

verus! {

/// A scalar or one-axis `float32` value from its bit patterns.
pub fn new_float32(v: &[u32]) -> (x: XValue)
    ensures
        x matches XValue::Float32(a) && a.data@ == v@ && a.dims@ == dims_from_len_spec(v@.len()),
{
    XValue::Float32(Arr { data: vstd::slice::slice_to_vec(v), dims: dims_from_len(v.len()) })
}

/// A scalar or one-axis `float64` value from its bit patterns.
pub fn new_float64(v: &[u64]) -> (x: XValue)
    ensures
        x matches XValue::Float64(a) && a.data@ == v@ && a.dims@ == dims_from_len_spec(v@.len()),
{
    XValue::Float64(Arr { data: vstd::slice::slice_to_vec(v), dims: dims_from_len(v.len()) })
}

/// Decodes `u32` words with the given dims.
pub fn decode_float32(body: &[u8], dims: &[i32]) -> (a: Arr<u32>)
    ensures
        a.data@ == uint32_vals(body@),
        a.dims@ == dims@,
{
    let w = decode_words(body, 4);
    let mut data: Vec<u32> = Vec::new();
    let mut i: usize = 0;
    proof { lemma_pow256_values(); }
    while i < w.len()
        invariant
            i <= w.len(),
            crate::le::pow256(2) == 0x10000,
            crate::le::pow256(4) == 0x1_0000_0000,
            crate::le::pow256(8) == 0x1_0000_0000_0000_0000,
            w@.len() == words_of(body@, 4).len(),
            forall|k: int| 0 <= k < w@.len() ==> (#[trigger] w@[k]) as nat == words_of(body@, 4)[k],
            data@.len() == i,
            forall|k: int| 0 <= k < i ==> (#[trigger] data@[k]) as nat == w@[k] as nat,
        decreases w.len() - i,
    {
        proof { crate::codec::lemma_words_of_fit(body@, 4, i as int); }
        data.push(w[i] as u32);
        i = i + 1;
    }
    assert(data@ =~= uint32_vals(body@));
    Arr { data, dims: vstd::slice::slice_to_vec(dims) }
}

/// Encodes `float32` values with the given dims.
pub fn encode_float32(data: &[u32], dims: &[i32]) -> (b: Vec<u8>)
    requires
        4 * data@.len() + 52 * dims@.len() + 64 <= usize::MAX,
    ensures
        b@ == encode_head_perm_spec(KIND_FLOAT32@, 0, dims@, uint32_body(data@), false, 0),
{
    let mut v: Vec<u64> = Vec::new();
    let mut i: usize = 0;
    while i < data.len()
        invariant
            i <= data.len(),
            v@.len() == i,
            forall|k: int| 0 <= k < i ==> (#[trigger] v@[k]) as nat == data@[k] as nat,
        decreases data.len() - i,
    {
        v.push(data[i] as u64);
        i = i + 1;
    }
    let raw = encode_words(&v, 4);
    proof {
        assert(Seq::new(v@.len(), |k: int| v@[k] as nat) =~= data@.map_values(|x: u32| x as nat));
        reveal_strlit("float32");
        crate::le::lemma_words_le_len(data@.map_values(|x: u32| x as nat), 4);
    }
    encode_head(KIND_FLOAT32, 0, dims, &raw)
}

/// Decodes `u64` words with the given dims.
pub fn decode_float64(body: &[u8], dims: &[i32]) -> (a: Arr<u64>)
    ensures
        a.data@ == uint64_vals(body@),
        a.dims@ == dims@,
{
    let w = decode_words(body, 8);
    let mut data: Vec<u64> = Vec::new();
    let mut i: usize = 0;
    proof { lemma_pow256_values(); }
    while i < w.len()
        invariant
            i <= w.len(),
            crate::le::pow256(2) == 0x10000,
            crate::le::pow256(4) == 0x1_0000_0000,
            crate::le::pow256(8) == 0x1_0000_0000_0000_0000,
            w@.len() == words_of(body@, 8).len(),
            forall|k: int| 0 <= k < w@.len() ==> (#[trigger] w@[k]) as nat == words_of(body@, 8)[k],
            data@.len() == i,
            forall|k: int| 0 <= k < i ==> (#[trigger] data@[k]) as nat == w@[k] as nat,
        decreases w.len() - i,
    {
        proof { crate::codec::lemma_words_of_fit(body@, 8, i as int); }
        data.push(w[i] as u64);
        i = i + 1;
    }
    assert(data@ =~= uint64_vals(body@));
    Arr { data, dims: vstd::slice::slice_to_vec(dims) }
}

/// Encodes `float64` values with the given dims.
pub fn encode_float64(data: &[u64], dims: &[i32]) -> (b: Vec<u8>)
    requires
        8 * data@.len() + 52 * dims@.len() + 64 <= usize::MAX,
    ensures
        b@ == encode_head_perm_spec(KIND_FLOAT64@, 0, dims@, uint64_body(data@), false, 0),
{
    let mut v: Vec<u64> = Vec::new();
    let mut i: usize = 0;
    while i < data.len()
        invariant
            i <= data.len(),
            v@.len() == i,
            forall|k: int| 0 <= k < i ==> (#[trigger] v@[k]) as nat == data@[k] as nat,
        decreases data.len() - i,
    {
        v.push(data[i] as u64);
        i = i + 1;
    }
    let raw = encode_words(&v, 8);
    proof {
        assert(Seq::new(v@.len(), |k: int| v@[k] as nat) =~= data@.map_values(|x: u64| x as nat));
        reveal_strlit("float64");
        crate::le::lemma_words_le_len(data@.map_values(|x: u64| x as nat), 8);
    }
    encode_head(KIND_FLOAT64, 0, dims, &raw)
}

} // verus!
