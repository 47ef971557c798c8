//! `rwir` and `rwfunc` values. Both bodies start with two 16-bit little-endian counts, the
//! reads and the writes; an `rwir` goes on with its signature text, an `rwfunc` with the
//! type annotations of its parameters joined by `\n`. An `rwfunc` carries its number of
//! instructions as array length.

use vstd::prelude::*;
use crate::consts::{KIND_RWFUNC, KIND_RWIR};
use crate::coord::split_on;
use crate::le::{le_bytes, push_le};
use crate::text::{chars_of, decode_text, push_char, push_str, string_from_chars, utf8_lossy};
use crate::xvalue::{append_bytes, Opaque, XValue, XV};
use crate::xvalue_codec::{tlv_encode, tlv_spec};
use vstd::utf8::encode_utf8;

verus! {

/// The two leading counts of a body, each truncated to 16 bits.
pub open spec fn counts_prefix(num_reads: i32, num_writes: i32) -> Seq<u8> {
    le_bytes((num_reads as u16) as nat, 2) + le_bytes((num_writes as u16) as nat, 2)
}

/// The 16-bit little-endian count at `off`.
pub open spec fn count_at(body: Seq<u8>, off: int) -> int {
    body[off] as int + 256 * body[off + 1] as int
}

/// The `rwir` body: the counts, then the UTF-8 bytes of the signature.
pub open spec fn rwir_body(num_reads: i32, num_writes: i32, sig: Seq<char>) -> Seq<u8> {
    counts_prefix(num_reads, num_writes) + encode_utf8(sig)
}

/// `parts` joined with `\n` between neighbours.
pub open spec fn join_lines(parts: Seq<Seq<char>>) -> Seq<char>
    decreases parts.len(),
{
    if parts.len() == 0 {
        seq![]
    } else if parts.len() == 1 {
        parts[0]
    } else {
        join_lines(parts.drop_last()) + seq!['\n'] + parts.last()
    }
}

/// The `rwfunc` body: the counts, then the UTF-8 bytes of the joined parameter types.
pub open spec fn rwfunc_body(num_reads: i32, num_writes: i32, param_types: Seq<Seq<char>>) -> Seq<u8> {
    counts_prefix(num_reads, num_writes) + encode_utf8(join_lines(param_types))
}

/// The parameter types recorded in an `rwfunc` body: none when nothing follows the
/// counts, else the text after them split at `\n`.
pub open spec fn param_types_of(body: Seq<u8>) -> Seq<Seq<char>> {
    if body.len() <= 4 { seq![] } else { split_on(decode_text(body.skip(4)), '\n') }
}

/// A register-window instruction: its raw body.
#[derive(Clone, Debug, PartialEq)]
pub struct Rwir {
    pub body: Vec<u8>,
}

/// A register-window function: its raw body and its number of instructions.
#[derive(Clone, Debug, PartialEq)]
pub struct Rwfunc {
    pub body: Vec<u8>,
    pub al: i32,
}

/// The count at `off` of a body.
fn read_count(body: &Vec<u8>, off: usize) -> (r: i32)
    requires
        off + 2 <= body.len(),
    ensures
        r as int == count_at(body@, off as int),
{
    let lo: u8 = body[off];
    let hi: u8 = body[off + 1];
    (lo as i32) + (hi as i32) * 256
}

/// The counts, then the given bytes.
fn body_with_counts(num_reads: i32, num_writes: i32, rest: &[u8]) -> (b: Vec<u8>)
    ensures
        b@ == counts_prefix(num_reads, num_writes) + rest@,
{
    let mut raw: Vec<u8> = Vec::new();
    push_le(&mut raw, (num_reads as u16) as u64, 2);
    push_le(&mut raw, (num_writes as u16) as u64, 2);
    append_bytes(&mut raw, rest);
    assert(raw@ =~= counts_prefix(num_reads, num_writes) + rest@);
    raw
}

impl Rwir {
    /// The number of reads.
    pub fn num_reads(&self) -> (r: i32)
        requires
            self.body@.len() >= 2,
        ensures
            r as int == count_at(self.body@, 0),
    {
        read_count(&self.body, 0)
    }

    /// The number of writes.
    pub fn num_writes(&self) -> (r: i32)
        requires
            self.body@.len() >= 4,
        ensures
            r as int == count_at(self.body@, 2),
    {
        read_count(&self.body, 2)
    }

    /// The signature text (bytes that are not UTF-8 decode lossily).
    pub fn sig(&self) -> (s: String)
        requires
            self.body@.len() >= 4,
        ensures
            s@ == decode_text(self.body@.skip(4)),
    {
        let rest = vstd::slice::slice_subrange(self.body.as_slice(), 4, self.body.len());
        assert(rest@ == self.body@.skip(4));
        utf8_lossy(rest)
    }

    /// Encodes the instruction: kind `rwir`, array length 1.
    pub fn encode(&self) -> (b: Vec<u8>)
        requires
            self.body@.len() + 200 <= usize::MAX,
        ensures
            b@ == tlv_spec(KIND_RWIR@, self.body@, 1),
    {
        proof { reveal_strlit("rwir"); }
        tlv_encode(KIND_RWIR, self.body.as_slice(), 1)
    }
}

impl Rwfunc {
    /// The number of reads.
    pub fn num_reads(&self) -> (r: i32)
        requires
            self.body@.len() >= 2,
        ensures
            r as int == count_at(self.body@, 0),
    {
        read_count(&self.body, 0)
    }

    /// The number of writes.
    pub fn num_writes(&self) -> (r: i32)
        requires
            self.body@.len() >= 4,
        ensures
            r as int == count_at(self.body@, 2),
    {
        read_count(&self.body, 2)
    }

    /// The number of instructions.
    pub fn num_insts(&self) -> (r: i32)
        ensures
            r == self.al,
    {
        self.al
    }

    /// The parameter type annotations; see [`param_types_of`].
    pub fn param_types(&self) -> (r: Vec<String>)
        ensures
            r@.len() == param_types_of(self.body@).len(),
            forall|j: int| 0 <= j < r@.len() ==> (#[trigger] r@[j])@ == param_types_of(self.body@)[j],
    {
        let mut out: Vec<String> = Vec::new();
        if self.body.len() <= 4 {
            return out;
        }
        let rest = vstd::slice::slice_subrange(self.body.as_slice(), 4, self.body.len());
        assert(rest@ == self.body@.skip(4));
        let text = utf8_lossy(rest);
        let chars = chars_of(text.as_str());
        let parts = crate::backend::split_chars(&chars, '\n');
        let mut i: usize = 0;
        while i < parts.len()
            invariant
                i <= parts@.len(),
                parts@.len() == param_types_of(self.body@).len(),
                forall|j: int| 0 <= j < parts@.len() ==> (#[trigger] parts@[j])@ == param_types_of(self.body@)[j],
                out@.len() == i,
                forall|j: int| 0 <= j < i ==> (#[trigger] out@[j])@ == param_types_of(self.body@)[j],
            decreases parts@.len() - i,
        {
            let s = string_from_chars(parts[i].as_slice());
            out.push(s);
            i = i + 1;
        }
        out
    }

    /// Encodes the function: kind `rwfunc`, its number of instructions as array length.
    pub fn encode(&self) -> (b: Vec<u8>)
        requires
            self.body@.len() + 200 <= usize::MAX,
        ensures
            b@ == tlv_spec(KIND_RWFUNC@, self.body@, self.al),
    {
        proof { reveal_strlit("rwfunc"); }
        tlv_encode(KIND_RWFUNC, self.body.as_slice(), self.al)
    }
}

/// An `rwir` value, kept as an opaque value of kind `rwir` with array length 1.
pub fn new_rwir(num_reads: i32, num_writes: i32, sig: &str) -> (x: XValue)
    ensures
        x@ == XV::Opaque(KIND_RWIR@, rwir_body(num_reads, num_writes, sig@), 1),
{
    let raw = body_with_counts(num_reads, num_writes, sig.as_bytes());
    XValue::Opaque(Opaque { kind: crate::text::string_of(KIND_RWIR), body: raw, array_len: 1 })
}

/// The `rwir` held by a body.
pub fn decode_rwir(body: &[u8]) -> (r: Rwir)
    ensures
        r.body@ == body@,
{
    Rwir { body: vstd::slice::slice_to_vec(body) }
}

/// An `rwfunc` value with no parameter types, kept as an opaque value of kind `rwfunc`
/// whose array length is the number of instructions.
pub fn new_rwfunc(num_insts: i32, num_reads: i32, num_writes: i32) -> (x: XValue)
    ensures
        x@ == XV::Opaque(KIND_RWFUNC@, counts_prefix(num_reads, num_writes), num_insts),
{
    let empty: Vec<u8> = Vec::new();
    let raw = body_with_counts(num_reads, num_writes, empty.as_slice());
    assert(raw@ =~= counts_prefix(num_reads, num_writes));
    XValue::Opaque(Opaque { kind: crate::text::string_of(KIND_RWFUNC), body: raw, array_len: num_insts })
}

/// An `rwfunc` value with parameter type annotations, joined by `\n` after the counts.
pub fn new_rwfunc_with_types(num_insts: i32, num_reads: i32, num_writes: i32, param_types: &[String]) -> (x: XValue)
    ensures
        x@ == XV::Opaque(
            KIND_RWFUNC@,
            rwfunc_body(num_reads, num_writes, param_types@.map_values(|p: String| p@)),
            num_insts,
        ),
{
    let ghost parts = param_types@.map_values(|p: String| p@);
    let mut joined = String::new();
    let mut i: usize = 0;
    while i < param_types.len()
        invariant
            i <= param_types@.len(),
            parts == param_types@.map_values(|p: String| p@),
            joined@ == join_lines(parts.take(i as int)),
        decreases param_types@.len() - i,
    {
        if i > 0 {
            push_char(&mut joined, '\n');
        }
        push_str(&mut joined, param_types[i].as_str());
        proof {
            let t = parts.take(i as int + 1);
            assert(t.drop_last() =~= parts.take(i as int));
            assert(t.last() == param_types@[i as int]@);
            if i == 0 {
                assert(parts.take(0) =~= Seq::<Seq<char>>::empty());
            }
        }
        i = i + 1;
        assert(joined@ =~= join_lines(parts.take(i as int)));
    }
    assert(parts.take(param_types@.len() as int) =~= parts);
    let raw = body_with_counts(num_reads, num_writes, joined.as_str().as_bytes());
    XValue::Opaque(Opaque { kind: crate::text::string_of(KIND_RWFUNC), body: raw, array_len: num_insts })
}

/// The `rwfunc` held by a body, with its number of instructions.
pub fn decode_rwfunc(body: &[u8], al: i32) -> (r: Rwfunc)
    ensures
        r.body@ == body@,
        r.al == al,
{
    Rwfunc { body: vstd::slice::slice_to_vec(body), al }
}

} // verus!
