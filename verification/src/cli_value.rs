//! The value notation of the command line: `*kind:/target` for a pointer,
//! `map[2,3]` for an empty map, `kind:text` for a scalar.

use vstd::prelude::*;
use crate::consts::{KIND_INDEX, KIND_MAP, KIND_OBJ};
use crate::coord::split_on;
use crate::fs_layout::{dim_of, non_empty};
use crate::text::{
    all_digits, chars_of, decimal_value, find_char, find_char_index, parse_i32_chars, parse_i64_digits,
    push_str, string_from_chars,
};
use crate::xvalue::{dims_from_len_spec, sub_chars, MapValue, XValue, XV};
use vstd::utf8::encode_utf8;

verus! {

/// What `str::parse::<i64>` gives: an optional sign and a non-empty run of digits in
/// range.
pub open spec fn parse_i64_spec(p: Seq<char>) -> Option<i64> {
    if p.len() > 0 && p[0] == '-' {
        let r = p.drop_first();
        if r.len() > 0 && all_digits(r) && decimal_value(r) <= 0x8000_0000_0000_0000 {
            Some((-decimal_value(r)) as i64)
        } else {
            None
        }
    } else if p.len() > 0 && p[0] == '+' {
        let r = p.drop_first();
        if r.len() > 0 && all_digits(r) && decimal_value(r) <= i64::MAX {
            Some(decimal_value(r) as i64)
        } else {
            None
        }
    } else if p.len() > 0 && all_digits(p) && decimal_value(p) <= i64::MAX {
        Some(decimal_value(p) as i64)
    } else {
        None
    }
}

/// Parses an `i64` the way `str::parse::<i64>` does; see [`parse_i64_spec`].
pub fn parse_i64_chars(p: &[char]) -> (r: Option<i64>)
    ensures
        r == parse_i64_spec(p@),
{
    if p.len() == 0 {
        return None;
    }
    let neg = p[0] == '-';
    let start: usize = if p[0] == '-' || p[0] == '+' { 1 } else { 0 };
    let rest = sub_chars(p, start, p.len());
    if start == 1 {
        assert(rest@ =~= p@.drop_first());
    } else {
        assert(rest@ =~= p@);
    }
    if neg {
        // The magnitude of the most negative value does not fit an `i64`: read all but the
        // last digit first.
        if rest.len() == 0 {
            return None;
        }
        let head = sub_chars(&rest, 0, rest.len() - 1);
        let last = rest[rest.len() - 1];
        assert(head@ =~= rest@.drop_last());
        if !('0' <= last && last <= '9') {
            assert(!all_digits(rest@));
            return None;
        }
        let d: i64 = (last as u32 - 48) as i64;
        let hv: i64 = if head.len() == 0 {
            0
        } else {
            match parse_i64_digits(&head) {
                Some(v) => v,
                None => {
                    proof {
                        if all_digits(rest@) {
                            assert(all_digits(head@));
                            crate::text::lemma_decimal_nonneg(head@);
                            assert(decimal_value(rest@) == decimal_value(head@) * 10 + d);
                        }
                    }
                    return None;
                },
            }
        };
        proof {
            if head@.len() > 0 {
                assert(all_digits(head@));
            }
            assert(decimal_value(rest@) == decimal_value(head@) * 10 + d);
            assert(head@.len() == 0 ==> decimal_value(head@) == 0);
        }
        if hv > 922_337_203_685_477_580 || (hv == 922_337_203_685_477_580 && d > 8) {
            return None;
        }
        assert(all_digits(rest@)) by {
            assert forall|k: int| 0 <= k < rest@.len() implies crate::text::is_digit(#[trigger] rest@[k]) by {
                if k < rest@.len() - 1 {
                    assert(rest@[k] == head@[k]);
                }
            }
        }
        assert(0 <= hv) by {
            if head@.len() > 0 {
                crate::text::lemma_decimal_nonneg(head@);
            }
        }
        let m: i64 = -(hv * 10) - d;
        Some(m)
    } else {
        match parse_i64_digits(&rest) {
            None => None,
            Some(v) => {
                proof { crate::text::lemma_decimal_nonneg(rest@); }
                Some(v)
            },
        }
    }
}

/// `s` with every leading copy of `p` removed (as `str::trim_start_matches` does).
pub open spec fn strip_prefix_all(s: Seq<char>, p: Seq<char>) -> Seq<char>
    decreases s.len(),
{
    if p.len() > 0 && s.len() >= p.len() && s.take(p.len() as int) == p {
        strip_prefix_all(s.skip(p.len() as int), p)
    } else {
        s
    }
}

/// The bracket and colon characters a map's dims are written between.
pub open spec fn dims_punct(c: char) -> bool {
    c == ':' || c == '[' || c == ']'
}

/// `s` without leading punctuation.
pub open spec fn trim_punct_start(s: Seq<char>) -> Seq<char>
    decreases s.len(),
{
    if s.len() > 0 && dims_punct(s[0]) { trim_punct_start(s.drop_first()) } else { s }
}

/// `s` without trailing punctuation.
pub open spec fn trim_punct_end(s: Seq<char>) -> Seq<char>
    decreases s.len(),
{
    if s.len() > 0 && dims_punct(s.last()) { trim_punct_end(s.drop_last()) } else { s }
}

/// `s` without leading `:`.
pub open spec fn trim_colons(s: Seq<char>) -> Seq<char>
    decreases s.len(),
{
    if s.len() > 0 && s[0] == ':' { trim_colons(s.drop_first()) } else { s }
}

/// A parsed command-line value. Floating-point text is handed back as text, for the caller
/// to read as a float.
pub enum CliValue {
    Value(XValue),
    Float64(String),
    Float32(String),
}

/// The mathematical content of a parsed command-line value.
pub enum CliView {
    Value(XV),
    Float64(Seq<char>),
    Float32(Seq<char>),
}

impl View for CliValue {
    type V = CliView;

    open spec fn view(&self) -> CliView {
        match self {
            CliValue::Value(v) => CliView::Value(v@),
            CliValue::Float64(s) => CliView::Float64(s@),
            CliValue::Float32(s) => CliView::Float32(s@),
        }
    }
}

/// The message for a map written without dims.
pub const ERR_MAP_NEEDS_DIMS: &'static str = "map \u{9700}\u{8981} dims\u{ff0c}\u{5982} map[2,3]:";

/// `msg` followed by the text's `Debug` form (in double quotes, escaped).
pub open spec fn quoted(msg: Seq<char>, text: Seq<char>) -> Seq<char> {
    msg + crate::text::debug_text(text)
}

/// What a command-line value denotes:
/// - `*kind:/target` (or `*/target`) is a pointer to the target with that kind;
/// - `map...` is an empty map whose dims are the comma-separated fields after the `map`
///   prefixes and the brackets and colons around them (at least one is needed);
/// - `kind:text` is an `int`, a `bool` (`true`/`false`), a `string`, `nil`, an empty
///   `index` or `objindex`, or a `float`/`float32` left as text; any other kind, or text
///   the kind does not accept, is an error.
pub open spec fn cli_value_spec(raw: Seq<char>) -> Result<CliView, Seq<char>> {
    if raw.len() > 0 && raw[0] == '*' {
        let rest = raw.drop_first();
        match find_char(rest, ':') {
            Some(c) => Ok(CliView::Value(XV::Ptr(rest.take(c as int), rest.skip(c as int + 1)))),
            None => Ok(CliView::Value(XV::Ptr(seq![], rest))),
        }
    } else if raw.len() >= 3 && raw.take(3) == "map"@ {
        let body = trim_punct_end(trim_punct_start(strip_prefix_all(raw, "map"@)));
        let dims = non_empty(split_on(body, ',')).map_values(|p: Seq<char>| dim_of(p));
        if dims.len() == 0 {
            Err(ERR_MAP_NEEDS_DIMS@)
        } else {
            Ok(CliView::Value(XV::MapVal(KIND_MAP@, dims)))
        }
    } else {
        let split: int = match find_char(raw, ':') {
            Some(c) => c as int,
            None => raw.len() as int,
        };
        let kind = raw.take(split);
        let repr = trim_colons(raw.skip(split));
        if kind == "int"@ {
            match parse_i64_spec(repr) {
                Some(i) => Ok(CliView::Value(XV::Int64(seq![i], dims_from_len_spec(1)))),
                None => Err(quoted("invalid int: "@, repr)),
            }
        } else if kind == "float"@ {
            Ok(CliView::Float64(repr))
        } else if kind == "float32"@ {
            Ok(CliView::Float32(repr))
        } else if kind == "bool"@ {
            if repr == "true"@ {
                Ok(CliView::Value(XV::Bool(seq![true], dims_from_len_spec(1))))
            } else if repr == "false"@ {
                Ok(CliView::Value(XV::Bool(seq![false], dims_from_len_spec(1))))
            } else {
                Err(quoted("invalid bool: "@, repr))
            }
        } else if kind == "string"@ {
            Ok(CliView::Value(XV::CharByte(encode_utf8(repr), crate::xvalue_byte::char_dims_spec(encode_utf8(repr).len()))))
        } else if kind == "nil"@ {
            Ok(CliView::Value(XV::Nil))
        } else if kind == KIND_INDEX@ {
            Ok(CliView::Value(XV::Index(seq![])))
        } else if kind == KIND_OBJ@ {
            Ok(CliView::Value(XV::MapVal(KIND_OBJ@, seq![])))
        } else {
            Err(quoted("unknown kind: "@, kind))
        }
    }
}

/// `msg` followed by the text's `Debug` form (in double quotes, escaped).
fn quote(msg: &str, text: &[char]) -> (s: String)
    ensures
        s@ == quoted(msg@, text@),
{
    let mut s = crate::text::string_of(msg);
    let t = string_from_chars(text);
    let q = crate::text::debug_quoted(t.as_str());
    push_str(&mut s, q.as_str());
    s
}

/// Whether `s` starts with `p`.
fn starts_with_at(s: &[char], from: usize, p: &[char]) -> (r: bool)
    requires
        from <= s@.len(),
    ensures
        r == (s@.len() - from >= p@.len() && s@.subrange(from as int, from + p@.len()) == p@),
{
    if s.len() - from < p.len() {
        return false;
    }
    let n = s.len();
    let mut i: usize = 0;
    while i < p.len()
        invariant
            n == s@.len(),
            from + p@.len() <= n,
            i <= p@.len(),
            forall|k: int| 0 <= k < i ==> s@[from + k] == p@[k],
        decreases p@.len() - i,
    {
        if s[from + i] != p[i] {
            assert(s@.subrange(from as int, from + p@.len())[i as int] != p@[i as int]);
            return false;
        }
        i = i + 1;
    }
    assert(s@.subrange(from as int, from + p@.len()) =~= p@);
    true
}

/// The dims text of a map value: `map` prefixes, then surrounding brackets and colons, taken
/// off.
fn map_body(c: &[char]) -> (r: Vec<char>)
    ensures
        r@ == trim_punct_end(trim_punct_start(strip_prefix_all(c@, "map"@))),
{
    let m = chars_of("map");
    proof { reveal_strlit("map"); }
    let n = c.len();
    let mut from: usize = 0;
    assert(c@.skip(0) =~= c@);
    while starts_with_at(c, from, &m)
        invariant
            m@ == "map"@,
            m@.len() == 3,
            n == c@.len(),
            from <= c@.len(),
            strip_prefix_all(c@, "map"@) == strip_prefix_all(c@.skip(from as int), "map"@),
        decreases c@.len() - from,
    {
        assert(c@.skip(from as int).take(3) =~= c@.subrange(from as int, from + 3));
        assert(c@.skip(from as int).skip(3) =~= c@.skip(from + 3));
        from = from + 3;
    }
    proof {
        let t = c@.skip(from as int);
        if t.len() >= 3 {
            assert(t.take(3) =~= c@.subrange(from as int, from + 3));
        }
    }
    let mut a: usize = from;
    assert(c@.skip(from as int) =~= c@.subrange(from as int, c@.len() as int));
    while a < c.len() && (c[a] == ':' || c[a] == '[' || c[a] == ']')
        invariant
            from <= a <= c@.len(),
            trim_punct_start(c@.skip(from as int)) == trim_punct_start(c@.subrange(a as int, c@.len() as int)),
        decreases c@.len() - a,
    {
        assert(c@.subrange(a as int, c@.len() as int).drop_first() =~= c@.subrange(a + 1, c@.len() as int));
        a = a + 1;
    }
    let mut b: usize = c.len();
    assert(c@.subrange(a as int, c@.len() as int) =~= c@.subrange(a as int, b as int));
    while b > a && (c[b - 1] == ':' || c[b - 1] == '[' || c[b - 1] == ']')
        invariant
            a <= b <= c@.len(),
            trim_punct_end(c@.subrange(a as int, c@.len() as int)) == trim_punct_end(c@.subrange(a as int, b as int)),
        decreases b,
    {
        assert(c@.subrange(a as int, b as int).drop_last() =~= c@.subrange(a as int, b - 1));
        b = b - 1;
    }
    proof {
        let t = c@.subrange(a as int, c@.len() as int);
        assert(trim_punct_start(c@.skip(from as int)) == t);
    }
    sub_chars(c, a, b)
}

/// The dims of a map value's dims text.
fn dims_of_text(body: &[char]) -> (r: Vec<i32>)
    ensures
        r@ == non_empty(split_on(body@, ',')).map_values(|p: Seq<char>| dim_of(p)),
{
    let parts = crate::backend::split_chars(body, ',');
    let ghost pv = Seq::new(parts@.len(), |j: int| parts@[j]@);
    assert(pv =~= split_on(body@, ','));
    let mut out: Vec<i32> = Vec::new();
    let mut j: usize = 0;
    while j < parts.len()
        invariant
            j <= parts@.len(),
            pv == Seq::new(parts@.len(), |k: int| parts@[k]@),
            out@ == non_empty(pv.take(j as int)).map_values(|p: Seq<char>| dim_of(p)),
        decreases parts@.len() - j,
    {
        proof {
            assert(pv.take(j as int + 1).drop_last() =~= pv.take(j as int));
            assert(pv.take(j as int + 1).last() == parts@[j as int]@);
        }
        if parts[j].len() > 0 {
            let d = match parse_i32_chars(parts[j].as_slice()) {
                Some(v) => v,
                None => 0,
            };
            let ghost before = out@;
            out.push(d);
            proof {
                let ne = non_empty(pv.take(j as int));
                assert(non_empty(pv.take(j as int + 1)) == ne.push(parts@[j as int]@));
                assert(out@ =~= ne.push(parts@[j as int]@).map_values(|p: Seq<char>| dim_of(p)));
            }
        } else {
            assert(non_empty(pv.take(j as int + 1)) == non_empty(pv.take(j as int)));
        }
        j = j + 1;
    }
    assert(pv.take(parts@.len() as int) =~= pv);
    out
}

/// Whether two character runs are equal.
fn same(a: &[char], b: &str) -> (r: bool)
    ensures
        r == (a@ == b@),
{
    let bc = chars_of(b);
    crate::text::chars_eq(a, &bc)
}

/// Parses a command-line value; see [`cli_value_spec`].
pub fn parse_value(raw: &str) -> (r: Result<CliValue, String>)
    ensures
        match r {
            Ok(v) => cli_value_spec(raw@) == Ok::<CliView, Seq<char>>(v@),
            Err(e) => cli_value_spec(raw@) == Err::<CliView, Seq<char>>(e@),
        },
{
    let c = chars_of(raw);
    proof {
        reveal_strlit("");
        reveal_strlit("map");
        reveal_strlit("int");
        reveal_strlit("float");
        reveal_strlit("float32");
        reveal_strlit("bool");
        reveal_strlit("true");
        reveal_strlit("false");
        reveal_strlit("string");
        reveal_strlit("nil");
    }
    if c.len() > 0 && c[0] == '*' {
        let rest = sub_chars(&c, 1, c.len());
        assert(rest@ =~= c@.drop_first());
        proof { crate::text::lemma_find_char(rest@, ':'); }
        return match find_char_index(&rest, ':') {
            Some(i) => {
                let k = sub_chars(&rest, 0, i);
                let t = sub_chars(&rest, i + 1, rest.len());
                assert(k@ =~= rest@.take(i as int));
                assert(t@ =~= rest@.skip(i + 1));
                let ks = string_from_chars(&k);
                let ts = string_from_chars(&t);
                let v = crate::xvalue_codec::new_ptr(ks.as_str(), ts.as_str());
                assert(v@ == XV::Ptr(rest@.take(i as int), rest@.skip(i + 1)));
                Ok(CliValue::Value(v))
            },
            None => {
                let rs = string_from_chars(&rest);
                let e = String::new();
                let v = crate::xvalue_codec::new_ptr(e.as_str(), rs.as_str());
                assert(v@ == XV::Ptr(seq![], rest@));
                Ok(CliValue::Value(v))
            },
        };
    }
    let m = chars_of("map");
    if starts_with_at(&c, 0, &m) {
        assert(c@.subrange(0, 3) =~= c@.take(3));
        let body = map_body(&c);
        let dims = dims_of_text(&body);
        if dims.len() == 0 {
            return Err(crate::text::string_of(ERR_MAP_NEEDS_DIMS));
        }
        return Ok(CliValue::Value(XValue::MapVal(MapValue { langtype: crate::text::string_of(KIND_MAP), dims })));
    }
    assert(!(c@.len() >= 3 && c@.take(3) == "map"@)) by {
        if c@.len() >= 3 && c@.take(3) == "map"@ {
            assert(c@.subrange(0, 3) =~= c@.take(3));
        }
    }
    proof { crate::text::lemma_find_char(c@, ':'); }
    let split: usize = match find_char_index(&c, ':') {
        Some(i) => i,
        None => c.len(),
    };
    let kind = sub_chars(&c, 0, split);
    assert(kind@ =~= c@.take(split as int));
    let mut a: usize = split;
    assert(c@.skip(split as int) =~= c@.subrange(split as int, c@.len() as int));
    while a < c.len() && c[a] == ':'
        invariant
            split <= a <= c@.len(),
            trim_colons(c@.skip(split as int)) == trim_colons(c@.subrange(a as int, c@.len() as int)),
        decreases c@.len() - a,
    {
        assert(c@.subrange(a as int, c@.len() as int).drop_first() =~= c@.subrange(a + 1, c@.len() as int));
        a = a + 1;
    }
    let repr = sub_chars(&c, a, c.len());
    assert(trim_colons(c@.skip(split as int)) == repr@);
    if same(&kind, "int") {
        match parse_i64_chars(&repr) {
            Some(i) => {
                let mut one: Vec<i64> = Vec::new();
                one.push(i);
                assert(one@ =~= seq![i]);
                let v = crate::xvalue_int::new_int64(one.as_slice());
                assert(v@ == XV::Int64(seq![i], dims_from_len_spec(1)));
                Ok(CliValue::Value(v))
            },
            None => Err(quote("invalid int: ", &repr)),
        }
    } else if same(&kind, "float") {
        Ok(CliValue::Float64(string_from_chars(&repr)))
    } else if same(&kind, "float32") {
        Ok(CliValue::Float32(string_from_chars(&repr)))
    } else if same(&kind, "bool") {
        if same(&repr, "true") {
            let mut one: Vec<bool> = Vec::new();
            one.push(true);
            assert(one@ =~= seq![true]);
            Ok(CliValue::Value(crate::xvalue_bool::new_bool(one.as_slice())))
        } else if same(&repr, "false") {
            let mut one: Vec<bool> = Vec::new();
            one.push(false);
            assert(one@ =~= seq![false]);
            Ok(CliValue::Value(crate::xvalue_bool::new_bool(one.as_slice())))
        } else {
            Err(quote("invalid bool: ", &repr))
        }
    } else if same(&kind, "string") {
        let text = string_from_chars(&repr);
        Ok(CliValue::Value(crate::xvalue_byte::new_char_byte(text.as_str().as_bytes())))
    } else if same(&kind, "nil") {
        Ok(CliValue::Value(XValue::Nil))
    } else if same(&kind, KIND_INDEX) {
        let none: Vec<String> = Vec::new();
        let v = crate::xvalue_index::new_index(&none);
        assert(crate::xvalue_index::string_views(none@) =~= Seq::<Seq<char>>::empty());
        Ok(CliValue::Value(v))
    } else if same(&kind, KIND_OBJ) {
        Ok(CliValue::Value(XValue::MapVal(MapValue { langtype: crate::text::string_of(KIND_OBJ), dims: Vec::new() })))
    } else {
        Err(quote("unknown kind: ", &kind))
    }
}

} // verus!
