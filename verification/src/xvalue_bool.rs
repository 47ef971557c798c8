//! Boolean arrays: one byte per element, `1` for true, `0` for false.

use vstd::prelude::*;
use crate::consts::KIND_BOOL;
use crate::xvalue::{dims_from_len, dims_from_len_spec, encode_head, encode_head_perm_spec, Arr, XValue};

verus! {

/// The body of `bool` values.
pub open spec fn bool_body(d: Seq<bool>) -> Seq<u8> {
    d.map_values(|v: bool| if v { 1u8 } else { 0u8 })
}

/// The `bool` values of a body: every non-zero byte is true.
pub open spec fn bool_vals(b: Seq<u8>) -> Seq<bool> {
    b.map_values(|x: u8| x != 0)
}

/// Decoding the body of booleans gives them back.
pub proof fn lemma_bool_roundtrip(d: Seq<bool>)
    ensures
        bool_vals(bool_body(d)) == d,
{
    assert(bool_vals(bool_body(d)) =~= d);
}

/// A scalar or one-axis `bool` value.
pub fn new_bool(v: &[bool]) -> (x: XValue)
    ensures
        x matches XValue::Bool(a) && a.data@ == v@ && a.dims@ == dims_from_len_spec(v@.len()),
{
    XValue::Bool(Arr { data: vstd::slice::slice_to_vec(v), dims: dims_from_len(v.len()) })
}

/// Decodes `bool` values with the given dims.
pub fn decode_bool(body: &[u8], dims: &[i32]) -> (a: Arr<bool>)
    ensures
        a.data@ == bool_vals(body@),
        a.dims@ == dims@,
{
    let mut data: Vec<bool> = Vec::new();
    let mut i: usize = 0;
    while i < body.len()
        invariant
            i <= body.len(),
            data@ == bool_vals(body@.take(i as int)),
        decreases body.len() - i,
    {
        data.push(body[i] != 0);
        i = i + 1;
        assert(data@ =~= bool_vals(body@.take(i as int)));
    }
    assert(body@.take(body.len() as int) == body@);
    Arr { data, dims: vstd::slice::slice_to_vec(dims) }
}

/// Encodes `bool` values with the given dims.
pub fn encode_bool(data: &[bool], dims: &[i32]) -> (b: Vec<u8>)
    requires
        data@.len() + 52 * dims@.len() + 64 <= usize::MAX,
    ensures
        b@ == encode_head_perm_spec(KIND_BOOL@, 0, dims@, bool_body(data@), false, 0),
{
    let mut raw: Vec<u8> = Vec::new();
    let mut i: usize = 0;
    while i < data.len()
        invariant
            i <= data.len(),
            raw@ == bool_body(data@.take(i as int)),
        decreases data.len() - i,
    {
        raw.push(if data[i] { 1u8 } else { 0u8 });
        i = i + 1;
        assert(raw@ =~= bool_body(data@.take(i as int)));
    }
    assert(data@.take(data.len() as int) == data@);
    proof { reveal_strlit("bool"); }
    encode_head(KIND_BOOL, 0, dims, &raw)
}

} // verus!
