//! Empty containers: string-keyed maps and dicts.

use vstd::prelude::*;
use crate::consts::{KIND_DICT, KIND_MAP};
use crate::xvalue::{Opaque, XValue, XV};

verus! {

/// An empty string-keyed map of the given shape (at least one dimension).
pub fn new_map(dims: &[i32]) -> (x: XValue)
    requires
        dims@.len() >= 1,
    ensures
        x@ == XV::MapVal(KIND_MAP@, dims@),
{
    crate::xvalue_index::new_map_index(dims)
}

/// An empty dict, kept as an opaque value of kind `dict` with no body.
pub fn new_dict() -> (x: XValue)
    ensures
        x@ == XV::Opaque(KIND_DICT@, seq![], 0),
{
    let body: Vec<u8> = Vec::new();
    XValue::Opaque(Opaque { kind: crate::text::string_of(KIND_DICT), body, array_len: 0 })
}

} // verus!
