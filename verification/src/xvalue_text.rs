//! Short display texts of directory values and booleans.

use vstd::prelude::*;
use crate::consts::KIND_NONE;
use crate::text::{decode_text, int_to_decimal, nat_to_decimal, push_char, push_i64, push_str, push_u64, utf8_lossy};
use crate::xvalue::{dims_text, push_dims_text, ExtIndex, XValue, XV};
use crate::xvalue_codec::kind_of;

verus! {

/// `(n)`: a member count in brackets.
pub open spec fn count_text(n: nat) -> Seq<char> {
    seq!['('] + nat_to_decimal(n) + seq![')']
}

/// The text of an extension index with `n` local members: `(n) …path` when it has an
/// extension path, `(empty ext)` when it has neither path nor members, else `(n)`.
pub open spec fn ext_index_text(n: nat, ext_path: Seq<char>) -> Seq<char> {
    if ext_path.len() > 0 {
        count_text(n) + seq![' ', '\u{2026}'] + ext_path
    } else if n == 0 {
        "(empty ext)"@
    } else {
        count_text(n)
    }
}

/// The text of an index: `(empty)` for the single empty member, else `(n)`.
pub open spec fn index_text(childs: Seq<Seq<char>>) -> Seq<char> {
    if childs.len() == 1 && childs[0].len() == 0 { "(empty)"@ } else { count_text(childs.len()) }
}

/// The text of a boolean.
pub open spec fn bool_text(b: bool) -> Seq<char> {
    if b { "true"@ } else { "false"@ }
}

/// Appends `(n)`.
fn push_count(s: &mut String, n: usize)
    ensures
        final(s)@ == old(s)@ + count_text(n as nat),
{
    push_char(s, '(');
    push_u64(s, n as u64);
    push_char(s, ')');
    assert(final(s)@ =~= old(s)@ + count_text(n as nat));
}

impl ExtIndex {
    /// The display text; see [`ext_index_text`].
    pub fn value_string(&self) -> (s: String)
        ensures
            s@ == ext_index_text(self.childs@.len(), self.ext_path@),
    {
        let mut s = String::new();
        proof {
            reveal_strlit("(empty ext)");
        }
        if crate::text::chars_of(self.ext_path.as_str()).len() > 0 {
            push_count(&mut s, self.childs.len());
            push_char(&mut s, ' ');
            push_char(&mut s, '\u{2026}');
            push_str(&mut s, self.ext_path.as_str());
            assert(s@ =~= ext_index_text(self.childs@.len(), self.ext_path@));
        } else if self.childs.len() == 0 {
            push_str(&mut s, "(empty ext)");
            assert(s@ =~= ext_index_text(self.childs@.len(), self.ext_path@));
        } else {
            push_count(&mut s, self.childs.len());
        }
        s
    }
}

/// The display text of an index's members; see [`index_text`].
pub fn index_value_string(childs: &[String]) -> (s: String)
    ensures
        s@ == index_text(childs@.map_values(|c: String| c@)),
{
    let mut s = String::new();
    proof {
        reveal_strlit("(empty)");
    }
    if childs.len() == 1 && crate::text::chars_of(childs[0].as_str()).len() == 0 {
        push_str(&mut s, "(empty)");
        assert(s@ =~= "(empty)"@);
    } else {
        push_count(&mut s, childs.len());
        assert(s@ =~= count_text(childs@.len()));
    }
    proof {
        assert(childs@.map_values(|c: String| c@).len() == childs@.len());
        if childs@.len() >= 1 {
            assert(childs@.map_values(|c: String| c@)[0] == childs@[0]@);
        }
    }
    s
}

/// `true` or `false`.
pub fn bool_string(b: bool) -> (s: String)
    ensures
        s@ == bool_text(b),
{
    let mut s = String::new();
    proof {
        reveal_strlit("true");
        reveal_strlit("false");
    }
    if b {
        push_str(&mut s, "true");
    } else {
        push_str(&mut s, "false");
    }
    assert(s@ =~= bool_text(b));
    s
}

/// The character of a code point (`char::from_u32`): `None` for surrogates and values past
/// `0x10FFFF`.
#[verifier::external_body]
fn char_from_u32(c: u32) -> (r: Option<char>)
    ensures
        (c < 0xD800 || (0xE000 <= c && c <= 0x10FFFF)) ==> r == Some(c as char),
        !(c < 0xD800 || (0xE000 <= c && c <= 0x10FFFF)) ==> r is None,
{
    char::from_u32(c)
}

/// The character shown for a code point: the replacement character for what is not a
/// scalar value.
pub open spec fn code_char(c: u32) -> char {
    if c < 0xD800 || (0xE000 <= c && c <= 0x10FFFF) { c as char } else { '\u{FFFD}' }
}

/// The plain text of a value: `None` for the absent value; `→` and the target for a
/// pointer; the first element of a number or boolean array; the text of a character
/// array; `map[dims]` for a map; the member count of an index; the bytes of an opaque
/// value. Floating-point arrays have no text here (`None`).
pub open spec fn value_text(v: XV) -> Option<Seq<char>> {
    match v {
        XV::Nil => Some(KIND_NONE@),
        XV::Ptr(_, t) => Some(seq!['\u{2192}'] + t),
        XV::Bool(d, _) => Some(bool_text(d[0])),
        XV::Int8(d, _) => Some(int_to_decimal(d[0] as int)),
        XV::Int16(d, _) => Some(int_to_decimal(d[0] as int)),
        XV::Int32(d, _) => Some(int_to_decimal(d[0] as int)),
        XV::Int64(d, _) => Some(int_to_decimal(d[0] as int)),
        XV::Uint8(d, _) => Some(nat_to_decimal(d[0] as nat)),
        XV::Uint16(d, _) => Some(nat_to_decimal(d[0] as nat)),
        XV::Uint32(d, _) => Some(nat_to_decimal(d[0] as nat)),
        XV::Uint64(d, _) => Some(nat_to_decimal(d[0] as nat)),
        XV::Float32(..) => None,
        XV::Float64(..) => None,
        XV::CharByte(d, _) => Some(decode_text(d)),
        XV::CharAscii(d, _) => Some(decode_text(d)),
        XV::Char32(d, _) => Some(d.map_values(|c: u32| code_char(c))),
        XV::MapVal(_, dims) => Some("map"@ + seq!['['] + dims_text(dims) + seq![']']),
        XV::Index(c) => Some(index_text(c)),
        XV::ExtIndex(c, p) => Some(ext_index_text(c.len(), p)),
        XV::Opaque(_, b, _) => Some(decode_text(b)),
    }
}

/// A value whose plain text reads a first element has one.
pub open spec fn has_first(v: XV) -> bool {
    match v {
        XV::Bool(d, _) => d.len() > 0,
        XV::Int8(d, _) => d.len() > 0,
        XV::Int16(d, _) => d.len() > 0,
        XV::Int32(d, _) => d.len() > 0,
        XV::Int64(d, _) => d.len() > 0,
        XV::Uint8(d, _) => d.len() > 0,
        XV::Uint16(d, _) => d.len() > 0,
        XV::Uint32(d, _) => d.len() > 0,
        XV::Uint64(d, _) => d.len() > 0,
        _ => true,
    }
}

/// The code text of a value: `None` for the absent value; `→target:kind` for a pointer;
/// else the kind, `:` and the plain text.
pub open spec fn code_text(v: XV) -> Option<Seq<char>> {
    match v {
        XV::Nil => Some(KIND_NONE@),
        XV::Ptr(k, t) => Some(seq!['\u{2192}'] + t + seq![':'] + k),
        _ => match value_text(v) {
            Some(t) => Some(kind_of(v) + seq![':'] + t),
            None => None,
        },
    }
}

impl XValue {
    /// The plain text of the value; see [`value_text`].
    pub fn value_string(&self) -> (r: Option<String>)
        requires
            has_first(self@),
        ensures
            match r {
                Some(s) => value_text(self@) == Some(s@),
                None => value_text(self@) is None,
            },
    {
        let mut s = String::new();
        proof {
            reveal_strlit("None");
            reveal_strlit("map");
        }
        match self {
            XValue::Nil => {
                push_str(&mut s, KIND_NONE);
            },
            XValue::Ptr(p) => {
                push_char(&mut s, '\u{2192}');
                push_str(&mut s, p.target.as_str());
            },
            XValue::Bool(a) => {
                s = bool_string(a.data[0]);
            },
            XValue::Int8(a) => push_i64(&mut s, a.data[0] as i64),
            XValue::Int16(a) => push_i64(&mut s, a.data[0] as i64),
            XValue::Int32(a) => push_i64(&mut s, a.data[0] as i64),
            XValue::Int64(a) => push_i64(&mut s, a.data[0]),
            XValue::Uint8(a) => push_u64(&mut s, a.data[0] as u64),
            XValue::Uint16(a) => push_u64(&mut s, a.data[0] as u64),
            XValue::Uint32(a) => push_u64(&mut s, a.data[0] as u64),
            XValue::Uint64(a) => push_u64(&mut s, a.data[0]),
            XValue::Float32(_) => {
                return None;
            },
            XValue::Float64(_) => {
                return None;
            },
            XValue::CharByte(a) => {
                s = utf8_lossy(a.data.as_slice());
            },
            XValue::CharAscii(a) => {
                s = utf8_lossy(a.data.as_slice());
            },
            XValue::Char32(a) => {
                let mut i: usize = 0;
                while i < a.data.len()
                    invariant
                        i <= a.data@.len(),
                        s@ == a.data@.take(i as int).map_values(|c: u32| code_char(c)),
                    decreases a.data@.len() - i,
                {
                    let c = match char_from_u32(a.data[i]) {
                        Some(ch) => ch,
                        None => '\u{FFFD}',
                    };
                    push_char(&mut s, c);
                    i = i + 1;
                    assert(s@ =~= a.data@.take(i as int).map_values(|c: u32| code_char(c)));
                }
                assert(a.data@.take(a.data@.len() as int) =~= a.data@);
            },
            XValue::MapVal(m) => {
                push_str(&mut s, "map");
                push_dims_text(&mut s, m.dims.as_slice());
            },
            XValue::Index(c) => {
                s = index_value_string(c.as_slice());
            },
            XValue::ExtIndex(e) => {
                s = e.value_string();
            },
            XValue::Opaque(o) => {
                s = utf8_lossy(o.body.as_slice());
            },
        }
        assert(value_text(self@) == Some(s@)) by {
            match self@ {
                XV::Nil => assert(s@ =~= KIND_NONE@),
                XV::Ptr(_, t) => assert(s@ =~= seq!['\u{2192}'] + t),
                XV::MapVal(_, dims) => assert(s@ =~= "map"@ + seq!['['] + dims_text(dims) + seq![']']),
                XV::Int8(..) => assert(s@ =~= value_text(self@)->0),
                XV::Int16(..) => assert(s@ =~= value_text(self@)->0),
                XV::Int32(..) => assert(s@ =~= value_text(self@)->0),
                XV::Int64(..) => assert(s@ =~= value_text(self@)->0),
                XV::Uint8(..) => assert(s@ =~= value_text(self@)->0),
                XV::Uint16(..) => assert(s@ =~= value_text(self@)->0),
                XV::Uint32(..) => assert(s@ =~= value_text(self@)->0),
                XV::Uint64(..) => assert(s@ =~= value_text(self@)->0),
                _ => {},
            }
        }
        Some(s)
    }

    /// The code text of the value; see [`code_text`].
    pub fn code_string(&self) -> (r: Option<String>)
        requires
            has_first(self@),
        ensures
            match r {
                Some(s) => code_text(self@) == Some(s@),
                None => code_text(self@) is None,
            },
    {
        proof { reveal_strlit("None"); }
        match self {
            XValue::Nil => {
                let s = crate::text::string_of(KIND_NONE);
                Some(s)
            },
            XValue::Ptr(p) => {
                let mut s = String::new();
                push_char(&mut s, '\u{2192}');
                push_str(&mut s, p.target.as_str());
                push_char(&mut s, ':');
                push_str(&mut s, p.target_kindexpr.as_str());
                assert(s@ =~= seq!['\u{2192}'] + p.target@ + seq![':'] + p.target_kindexpr@);
                Some(s)
            },
            _ => match self.value_string() {
                Some(t) => {
                    let mut s = crate::text::string_of(self.kind());
                    push_char(&mut s, ':');
                    push_str(&mut s, t.as_str());
                    assert(s@ =~= kind_of(self@) + seq![':'] + t@);
                    Some(s)
                },
                None => None,
            },
        }
    }
}

} // verus!
