//! Laws of the wire format: a langtype parses back into the shape and kind it was built
//! from, and a value decodes back from its encoding.

use vstd::prelude::*;
use crate::consts::OBJ_SEP_CHAR;
use crate::coord::split_on;
use crate::text::{
    all_digits, decimal_value, digit_char, find_char, int_to_decimal, is_digit, is_white,
    lemma_find_char_at, nat_to_decimal, parse_i32_spec, trim, trim_end, trim_start,
};
use vstd::utf8::*;
use crate::xvalue_index::{
    align8_spec, encode_index_spec, lemma_max_len, lemma_rows_len, lemma_sort_names_perm, matrix_at_spec,
    matrix_body, matrix_cap_of, matrix_count_spec, matrix_m, matrix_rows, matrix_width_spec, max_len,
    row_of, rows, sort_names, until_nul, zeros,
};
use crate::consts::{
    lemma_kind_spelling, KIND_BOOL, KIND_CHAR, KIND_CHAR_ASCII, KIND_CHAR_UTF8, KIND_EXT_INDEX,
    KIND_FLOAT32, KIND_FLOAT64, KIND_INDEX, KIND_INT16, KIND_INT32, KIND_INT64, KIND_INT8, KIND_MAP,
    KIND_UINT16, KIND_UINT32, KIND_UINT64, KIND_UINT8,
};
use crate::xvalue::XV;
use crate::xvalue_bool::{bool_body, lemma_bool_roundtrip};
use crate::xvalue_byte::is_char_kind_spec;
use crate::xvalue_codec::{
    array_to_header_spec, decode_body, decode_body_ok, decode_kind, decode_panics, decode_value, encode_value,
    opaque_kind, tlv_ptr_spec, tlv_spec,
};
use crate::xvalue_index::{decode_ext_childs_spec, decode_ext_path_spec, encode_ext_index_spec, ext_split};
use crate::xvalue_int::{int16_body, int32_body, int64_body, int8_body, lemma_int_roundtrip};
use crate::xvalue_uint::{lemma_uint_roundtrip, uint16_body, uint32_body, uint64_body};
use crate::xvalue::{
    body_of, decode_head_spec, encode_head_perm_spec, encoded_headlen, head_axes, head_body_panics,
    head_decode_panics, lemma_head_roundtrip, storetype_of_spec, has_dims, REF_INLINE, REF_PTR,
    dims_text, langtype_spec, parse_kindexpr_spec, shape_dims, shape_part_ok, shape_parts_ok,
    STORETYPE_ARRAYND,
};

verus! {

/// The decimal notation of a natural number is a non-empty run of digits of that value.
pub proof fn lemma_nat_decimal(n: nat)
    ensures
        nat_to_decimal(n).len() >= 1,
        all_digits(nat_to_decimal(n)),
        decimal_value(nat_to_decimal(n)) == n,
    decreases n,
{
    if n >= 10 {
        lemma_nat_decimal(n / 10);
        let s = nat_to_decimal(n / 10);
        let c = digit_char((n % 10) as int);
        assert(((n % 10 + 48) as u8) as int == n % 10 + 48);
        assert(c as int == n % 10 + 48);
        assert(nat_to_decimal(n) == s.push(c));
        assert(s.push(c).drop_last() == s);
        assert(s.push(c).last() == c);
        assert(is_digit(c));
        assert(decimal_value(s.push(c)) == decimal_value(s) * 10 + (c as int - 48));
        assert(n == (n / 10) * 10 + n % 10);
        assert forall|k: int| 0 <= k < s.push(c).len() implies is_digit(#[trigger] s.push(c)[k]) by {
            if k < s.len() {
                assert(s.push(c)[k] == s[k]);
            }
        }
    } else {
        let c = digit_char(n as int);
        assert(((n + 48) as u8) as int == n + 48);
        assert(c as int == n + 48);
        assert(is_digit(c));
        assert(seq![c].drop_last() == Seq::<char>::empty());
        assert(decimal_value(seq![c]) == decimal_value(Seq::<char>::empty()) * 10 + (c as int - 48));
    }
}

/// The decimal notation of an `i32` trims to itself and parses back to the value.
pub proof fn lemma_int_decimal_parse(v: i32)
    ensures
        trim(int_to_decimal(v as int)) == int_to_decimal(v as int),
        parse_i32_spec(int_to_decimal(v as int)) == Some(v),
        int_to_decimal(v as int).len() >= 1,
        forall|k: int| 0 <= k < int_to_decimal(v as int).len() ==>
            is_digit(#[trigger] int_to_decimal(v as int)[k]) || int_to_decimal(v as int)[k] == '-',
{
    let s = int_to_decimal(v as int);
    if v < 0 {
        let m = (-(v as int)) as nat;
        lemma_nat_decimal(m);
        let r = nat_to_decimal(m);
        assert(s == seq!['-'] + r);
        assert(s.drop_first() == r);
        assert(s.last() == r.last());
        assert(is_digit(r[r.len() - 1]));
        assert forall|k: int| 0 <= k < s.len() implies is_digit(#[trigger] s[k]) || s[k] == '-' by {
            if k > 0 {
                assert(s[k] == r[k - 1]);
            }
        }
    } else {
        lemma_nat_decimal(v as nat);
        assert(is_digit(s[0]));
        assert(is_digit(s[s.len() - 1]));
    }
    assert(!is_white(s[0]));
    assert(trim_start(s) == s);
    assert(!is_white(s.last()));
    assert(trim_end(s) == s);
}

/// Splitting text without the separator gives the text itself.
pub proof fn lemma_split_on_none(s: Seq<char>, sep: char)
    requires
        !s.contains(sep),
    ensures
        split_on(s, sep) == seq![s],
    decreases s.len(),
{
    if s.len() > 0 {
        assert(!s.drop_last().contains(sep)) by {
            if s.drop_last().contains(sep) {
                let k = choose|k: int| 0 <= k < s.drop_last().len() && s.drop_last()[k] == sep;
                assert(s[k] == sep);
            }
        }
        lemma_split_on_none(s.drop_last(), sep);
        assert(s.last() != sep) by {
            assert(s[s.len() - 1] == s.last());
        }
        assert(s.drop_last().push(s.last()) == s);
        assert(split_on(s, sep) =~= seq![s]);
    } else {
        assert(s =~= Seq::<char>::empty());
    }
}

/// Appending a separator and a part without separators adds that part.
pub proof fn lemma_split_on_append(a: Seq<char>, b: Seq<char>, sep: char)
    requires
        !b.contains(sep),
    ensures
        split_on(a + seq![sep] + b, sep) == split_on(a, sep).push(b),
    decreases b.len(),
{
    let s = a + seq![sep] + b;
    if b.len() == 0 {
        assert(s == a + seq![sep]);
        assert(s.drop_last() == a);
        assert(s.last() == sep);
        assert(b =~= Seq::<char>::empty());
        assert(split_on(s, sep) =~= split_on(a, sep).push(b));
    } else {
        assert(!b.drop_last().contains(sep)) by {
            if b.drop_last().contains(sep) {
                let k = choose|k: int| 0 <= k < b.drop_last().len() && b.drop_last()[k] == sep;
                assert(b[k] == sep);
            }
        }
        lemma_split_on_append(a, b.drop_last(), sep);
        assert(s.drop_last() == a + seq![sep] + b.drop_last());
        assert(s.last() == b.last());
        assert(b.last() != sep) by {
            assert(b[b.len() - 1] == b.last());
        }
        assert(b.drop_last().push(b.last()) == b);
        let prev = split_on(a, sep).push(b.drop_last());
        assert(prev.update(prev.len() - 1, prev.last().push(s.last())) =~= split_on(a, sep).push(b));
        assert(split_on(s, sep) =~= split_on(a, sep).push(b));
    }
}

/// The parts of a shape text.
pub open spec fn decimal_parts(d: Seq<i32>) -> Seq<Seq<char>> {
    Seq::new(d.len(), |k: int| int_to_decimal(d[k] as int))
}

/// A shape text holds only digits, `-` and `,`.
pub proof fn lemma_dims_text_chars(d: Seq<i32>)
    ensures
        forall|k: int| 0 <= k < dims_text(d).len() ==>
            is_digit(#[trigger] dims_text(d)[k]) || dims_text(d)[k] == '-' || dims_text(d)[k] == ',',
    decreases d.len(),
{
    if d.len() == 1 {
        lemma_int_decimal_parse(d[0]);
    } else if d.len() > 1 {
        lemma_dims_text_chars(d.drop_last());
        lemma_int_decimal_parse(d.last());
        let a = dims_text(d.drop_last());
        let b = int_to_decimal(d.last() as int);
        assert(dims_text(d) == a + seq![','] + b);
        assert forall|k: int| 0 <= k < dims_text(d).len() implies
            is_digit(#[trigger] dims_text(d)[k]) || dims_text(d)[k] == '-' || dims_text(d)[k] == ',' by {
            if k < a.len() {
                assert(dims_text(d)[k] == a[k]);
            } else if k > a.len() {
                assert(dims_text(d)[k] == b[k - a.len() - 1]);
            }
        }
    }
}

/// A shape text splits at `,` into the decimal notation of each dim.
pub proof fn lemma_split_dims_text(d: Seq<i32>)
    requires
        d.len() >= 1,
    ensures
        split_on(dims_text(d), ',') == decimal_parts(d),
    decreases d.len(),
{
    let b = int_to_decimal(d.last() as int);
    lemma_int_decimal_parse(d.last());
    assert(!b.contains(',')) by {
        if b.contains(',') {
            let k = choose|k: int| 0 <= k < b.len() && b[k] == ',';
            assert(is_digit(b[k]) || b[k] == '-');
        }
    }
    if d.len() == 1 {
        lemma_split_on_none(b, ',');
        assert(decimal_parts(d) =~= seq![b]);
    } else {
        lemma_split_dims_text(d.drop_last());
        lemma_split_on_append(dims_text(d.drop_last()), b, ',');
        assert(decimal_parts(d.drop_last()).push(b) =~= decimal_parts(d));
    }
}

/// Each decimal part is a dimension, and the shape's dims are the values.
pub proof fn lemma_decimal_parts_shape(d: Seq<i32>)
    ensures
        shape_parts_ok(decimal_parts(d)),
        shape_dims(decimal_parts(d)) == d,
    decreases d.len(),
{
    let p = decimal_parts(d);
    assert forall|j: int| 0 <= j < p.len() implies shape_part_ok(#[trigger] p[j]) by {
        lemma_int_decimal_parse(d[j]);
    }
    if d.len() > 0 {
        lemma_decimal_parts_shape(d.drop_last());
        assert(p.drop_last() =~= decimal_parts(d.drop_last()));
        lemma_int_decimal_parse(d.last());
        assert(p.last() == int_to_decimal(d.last() as int));
        assert(d.drop_last().push(d.last()) == d);
    } else {
        assert(p.len() == 0);
    }
}

/// A base kind without the member separator that does not open with `[` parses as itself.
pub proof fn lemma_parse_plain_kind(k: Seq<char>)
    requires
        k.contains(OBJ_SEP_CHAR) || !(k.len() > 0 && k[0] == '['),
    ensures
        parse_kindexpr_spec(k) == (Seq::<i32>::empty(), k),
{
}

/// A langtype parses back into the shape and base kind it was built from: the `[dims]` of an
/// ARRAYND value and its kind, or, for any other layout, no shape and the kind. This holds
/// for every base kind that opens with neither `[` nor holds the member separator `·`; a map
/// langtype (which holds `·`) parses as itself with no shape.
pub proof fn lemma_langtype_roundtrip(kind: Seq<char>, st: u8, dims: Seq<i32>)
    requires
        !kind.contains(OBJ_SEP_CHAR),
        !(kind.len() > 0 && kind[0] == '['),
    ensures
        parse_kindexpr_spec(langtype_spec(kind, st, dims)) == (
            if st == STORETYPE_ARRAYND && dims.len() > 0 { dims } else { Seq::<i32>::empty() },
            kind,
        ),
{
    if st == STORETYPE_ARRAYND && dims.len() > 0 {
        let t = dims_text(dims);
        let s = seq!['['] + t + seq![']'] + kind;
        assert(langtype_spec(kind, st, dims) == s);
        lemma_dims_text_chars(dims);
        assert(!s.contains(OBJ_SEP_CHAR)) by {
            if s.contains(OBJ_SEP_CHAR) {
                let k = choose|k: int| 0 <= k < s.len() && s[k] == OBJ_SEP_CHAR;
                if k == 0 {
                } else if k <= t.len() {
                    assert(s[k] == t[k - 1]);
                } else if k == t.len() + 1 {
                } else {
                    assert(s[k] == kind[k - t.len() - 2]);
                    assert(kind.contains(OBJ_SEP_CHAR));
                }
            }
        }
        let e = t.len() + 1;
        assert(s[e as int] == ']');
        assert forall|k: int| 0 <= k < e implies s[k] != ']' by {
            if k > 0 {
                assert(s[k] == t[k - 1]);
            }
        }
        lemma_find_char_at(s, ']', e as int);
        assert(s.subrange(1, e as int) == t);
        lemma_split_dims_text(dims);
        lemma_decimal_parts_shape(dims);
        assert(s.skip(e as int + 1) == kind);
    } else {
        lemma_parse_plain_kind(kind);
    }
}


/// A name that can stand in a member matrix: it holds no NUL (NUL pads the rows).
pub open spec fn nul_free(name: Seq<char>) -> bool {
    !name.contains('\0')
}

/// Every name can stand in a member matrix.
pub open spec fn names_nul_free(names: Seq<Seq<char>>) -> bool {
    forall|i: int| 0 <= i < names.len() ==> nul_free(#[trigger] names[i])
}

/// The bytes of a non-NUL scalar are all non-zero.
proof fn lemma_scalar_bytes_nonzero(c: u32)
    by (bit_vector)
    requires
        c != 0,
    ensures
        has_width_1_encoding(c) ==> leading_byte_width_1(c) != 0,
        leading_byte_width_2(c) != 0,
        leading_byte_width_3(c) != 0,
        leading_byte_width_4(c) != 0,
        last_continuation_byte(c) != 0,
        second_last_continuation_byte(c) != 0,
        third_last_continuation_byte(c) != 0,
{
}

/// The UTF-8 encoding of a NUL-free string has no zero byte and no fewer bytes than characters.
pub proof fn lemma_utf8_nonzero(s: Seq<char>)
    requires
        nul_free(s),
    ensures
        forall|k: int| 0 <= k < encode_utf8(s).len() ==> #[trigger] encode_utf8(s)[k] != 0,
        encode_utf8(s).len() >= s.len(),
    decreases s.len(),
{
    if s.len() > 0 {
        let t = s.drop_first();
        assert(nul_free(t)) by {
            if t.contains('\0') {
                let k = choose|k: int| 0 <= k < t.len() && t[k] == '\0';
                assert(s[k + 1] == '\0');
            }
        }
        lemma_utf8_nonzero(t);
        let c = s[0] as u32;
        assert(s[0] != '\0');
        assert(c != 0) by {
            vstd::utf8::char_u32_cast(s[0], c);
            if c == 0 {
                assert((0u32 as char) == '\0');
            }
        }
        lemma_scalar_bytes_nonzero(c);
        vstd::utf8::char_is_scalar(s[0]);
        let e = encode_scalar(c);
        assert(encode_utf8(s) == e + encode_utf8(t));
        assert(e.len() >= 1);
        assert forall|k: int| 0 <= k < encode_utf8(s).len() implies #[trigger] encode_utf8(s)[k] != 0 by {
            if k < e.len() {
                assert(encode_utf8(s)[k] == e[k]);
            } else {
                assert(encode_utf8(s)[k] == encode_utf8(t)[k - e.len()]);
            }
        }
    }
}

/// A row stops at its padding: the bytes before the first NUL of `b + zeros` are `b`.
pub proof fn lemma_until_nul_padded(b: Seq<u8>, n: nat)
    requires
        forall|k: int| 0 <= k < b.len() ==> #[trigger] b[k] != 0,
    ensures
        until_nul(b + zeros(n)) == b,
    decreases b.len(),
{
    let r = b + zeros(n);
    if b.len() == 0 {
        assert(r =~= zeros(n));
        if n > 0 {
            assert(r[0] == 0);
        }
    } else {
        assert(r[0] == b[0]);
        assert(r.drop_first() =~= b.drop_first() + zeros(n));
        lemma_until_nul_padded(b.drop_first(), n);
        assert(seq![b[0]] + b.drop_first() =~= b);
    }
}

/// Row `i` of the rows of `names` is the padded `names[i]`.
pub proof fn lemma_rows_index(names: Seq<Seq<char>>, m: nat, i: int)
    requires
        max_len(names) <= m,
        0 <= i < names.len(),
    ensures
        i * m + m <= rows(names, m).len(),
        rows(names, m).subrange(i * m, i * m + m) == row_of(names[i], m),
    decreases names.len(),
{
    lemma_rows_len(names, m);
    let p = names.drop_last();
    assert(max_len(p) <= max_len(names));
    lemma_rows_len(p, m);
    lemma_max_len(names, names.len() - 1);
    assert(row_of(names.last(), m).len() == m);
    assert(rows(names, m) == rows(p, m) + row_of(names.last(), m));
    assert(i * m + m <= names.len() * m) by (nonlinear_arith) requires i < names.len();
    if i < names.len() - 1 {
        lemma_rows_index(p, m, i);
        assert(rows(names, m).subrange(i * m, i * m + m) == rows(p, m).subrange(i * m, i * m + m));
    } else {
        assert(i * m == p.len() * m) by (nonlinear_arith) requires i == p.len();
    }
}

/// The rows read back from a member matrix are its names, when none holds a NUL.
pub proof fn lemma_matrix_rows(names: Seq<Seq<char>>, cap: nat, m: nat, n: nat)
    requires
        names_nul_free(names),
        max_len(names) <= m,
        names.len() <= cap,
        n <= names.len(),
    ensures
        matrix_rows(matrix_body(names, cap, m), m, n) == names.take(n as int),
    decreases n,
{
    broadcast use vstd::utf8::group_utf8_lib;
    if n > 0 {
        lemma_matrix_rows(names, cap, m, (n - 1) as nat);
        let i = (n - 1) as int;
        let body = matrix_body(names, cap, m);
        lemma_rows_index(names, m, i);
        lemma_rows_len(names, m);
        lemma_utf8_nonzero(names[i]);
        lemma_max_len(names, i);
        let u = encode_utf8(names[i]);
        if m == 0 {
            assert(u.len() == 0);
            assert(names[i].len() == 0);
            assert(names[i] =~= Seq::<char>::empty());
            assert(matrix_at_spec(body, m, i as nat) == Some(names[i]));
        } else {
            assert(body.subrange(i * m, i * m + m) == rows(names, m).subrange(i * m, i * m + m));
            lemma_until_nul_padded(u, (m - u.len()) as nat);
            assert(matrix_at_spec(body, m, i as nat) == Some(names[i]));
        }
        assert(names.take(n as int) == names.take(i).push(names[i]));
    } else {
        assert(names.take(0) =~= Seq::<Seq<char>>::empty());
    }
}

/// Sorting keeps every name NUL-free.
pub proof fn lemma_sort_nul_free(names: Seq<Seq<char>>)
    requires
        names_nul_free(names),
    ensures
        names_nul_free(sort_names(names)),
{
    broadcast use vstd::seq_lib::group_to_multiset_ensures;
    lemma_sort_names_perm(names);
    let t = sort_names(names);
    assert forall|i: int| 0 <= i < t.len() implies nul_free(#[trigger] t[i]) by {
        assert(t.contains(t[i]));
        assert(t.to_multiset().count(t[i]) > 0);
        assert(names.to_multiset().count(t[i]) > 0);
        assert(names.contains(t[i]));
    }
}

/// The geometry of an encoded member list fits the head's `i32` dims.
pub open spec fn index_geometry_fits(children: Seq<Seq<char>>, cap_hint: nat, m_hint: nat) -> bool {
    let c = sort_names(children);
    &&& matrix_cap_of(c, cap_hint) <= i32::MAX
    &&& matrix_m(c, m_hint) <= i32::MAX
}

/// Decoding an encoded member list gives the members back in canonical (row-major
/// coordinate) order, whatever capacity and row width were reserved, when no member name
/// holds a NUL and the geometry fits the head's dims.
pub proof fn lemma_index_roundtrip(children: Seq<Seq<char>>, cap_hint: nat, m_hint: nat)
    requires
        names_nul_free(children),
        index_geometry_fits(children, cap_hint, m_hint),
    ensures
        ({
            let (d, b) = encode_index_spec(children, cap_hint, m_hint);
            matrix_rows(b, matrix_width_spec(d), matrix_count_spec(d)) == sort_names(children)
        }),
{
    let c = sort_names(children);
    crate::xvalue_index::lemma_sort_names_len(children);
    lemma_sort_nul_free(children);
    let m = matrix_m(c, m_hint);
    let cap = matrix_cap_of(c, cap_hint);
    let (d, b) = encode_index_spec(children, cap_hint, m_hint);
    assert(max_len(c) <= m);
    assert(matrix_width_spec(d) == m);
    assert(matrix_count_spec(d) == c.len());
    lemma_matrix_rows(c, cap, m, c.len());
    assert(c.take(c.len() as int) == c);
}


/// A head fits its fields: the head length its `u16`, the dims count its `u8`, the body
/// length a non-negative `i32`.
pub open spec fn head_fits(kind: Seq<char>, r: i32, dims: Seq<i32>, raw: Seq<u8>) -> bool {
    &&& encoded_headlen(kind, r, dims) < 0x10000
    &&& dims.len() < 256
    &&& raw.len() < 0x8000_0000
}

/// An inline value's head decodes to its kind, its dims and its body.
pub proof fn lemma_inline_head(kind: Seq<char>, dims: Seq<i32>, raw: Seq<u8>)
    requires
        kind.len() > 0,
        kind.contains(OBJ_SEP_CHAR) || !(kind[0] == '['),
        head_fits(kind, 0, dims, raw),
    ensures
        ({
            let d = encode_head_perm_spec(kind, 0, dims, raw, false, 0);
            let h = decode_head_spec(d);
            &&& !head_decode_panics(d)
            &&& !head_body_panics(d)
            &&& h.reference == REF_INLINE
            &&& h.langtype.len() > 0
            &&& parse_kindexpr_spec(h.langtype).1 == kind
            &&& h.phys_dims == dims
            &&& body_of(h, d) == raw
        }),
{
    lemma_head_roundtrip(kind, 0, dims, raw, false, 0);
    let (st, lt, phys) = head_axes(kind, 0, dims);
    assert(st == storetype_of_spec(kind, (dims.len() as i32) as int));
    assert((dims.len() as i32) as int == dims.len());
    assert(phys == dims);
    if kind.contains(OBJ_SEP_CHAR) {
        assert(lt == kind);
    } else {
        lemma_langtype_roundtrip(kind, st, dims);
        assert(lt.len() >= kind.len());
    }
}


/// The value a value reads back as: a member list in canonical order, anything else as is.
pub open spec fn canonical(v: XV) -> XV {
    match v {
        XV::Index(c) => XV::Index(sort_names(c)),
        XV::ExtIndex(c, p) => XV::ExtIndex(sort_names(c), p),
        _ => v,
    }
}

/// A value whose encoding reads back: its head fits its fields; a map's langtype is
/// `strkeymapindex` or a `{key}·{value}` langtype; member names hold no NUL and the matrix
/// geometry fits; an opaque kind is one no typed decoder claims, does not open with `[`, and
/// has a count that its dims can carry (at least 1, or at least 0 for a `char/` kind).
pub open spec fn roundtrip_ok(v: XV) -> bool {
    match v {
        XV::Nil => true,
        XV::Ptr(k, t) => head_fits(k, 1, seq![], encode_utf8(t)),
        XV::Bool(d, dims) => head_fits(KIND_BOOL@, 0, dims, bool_body(d)),
        XV::Int8(d, dims) => head_fits(KIND_INT8@, 0, dims, int8_body(d)),
        XV::Int16(d, dims) => head_fits(KIND_INT16@, 0, dims, int16_body(d)),
        XV::Int32(d, dims) => head_fits(KIND_INT32@, 0, dims, int32_body(d)),
        XV::Int64(d, dims) => head_fits(KIND_INT64@, 0, dims, int64_body(d)),
        XV::Uint8(d, dims) => head_fits(KIND_UINT8@, 0, dims, d),
        XV::Uint16(d, dims) => head_fits(KIND_UINT16@, 0, dims, uint16_body(d)),
        XV::Uint32(d, dims) => head_fits(KIND_UINT32@, 0, dims, uint32_body(d)),
        XV::Uint64(d, dims) => head_fits(KIND_UINT64@, 0, dims, uint64_body(d)),
        XV::Float32(d, dims) => head_fits(KIND_FLOAT32@, 0, dims, uint32_body(d)),
        XV::Float64(d, dims) => head_fits(KIND_FLOAT64@, 0, dims, uint64_body(d)),
        XV::CharByte(d, dims) => head_fits(KIND_CHAR_UTF8@, 0, dims, d),
        XV::CharAscii(d, dims) => head_fits(KIND_CHAR_ASCII@, 0, dims, d),
        XV::Char32(d, dims) => head_fits(KIND_CHAR@, 0, dims, uint32_body(d)),
        XV::MapVal(lt, dims) => (lt == KIND_MAP@ || lt.contains(OBJ_SEP_CHAR)) && head_fits(lt, 0, dims, seq![]),
        XV::Index(c) => {
            &&& names_nul_free(c)
            &&& index_geometry_fits(c, 0, 0)
            &&& head_fits(KIND_INDEX@, 0, encode_index_spec(c, 0, 0).0, encode_index_spec(c, 0, 0).1)
        },
        XV::ExtIndex(c, p) => {
            &&& names_nul_free(c)
            &&& index_geometry_fits(c, 0, 0)
            &&& head_fits(KIND_EXT_INDEX@, 0, encode_ext_index_spec(p, c, 0, 0).0,
                encode_ext_index_spec(p, c, 0, 0).1)
        },
        XV::Opaque(k, b, al) => {
            &&& k.len() > 0
            &&& opaque_kind(k)
            &&& k[0] != '['
            &&& if is_char_kind_spec(k) { al >= 0 } else { al >= 1 }
            &&& head_fits(k, 0, array_to_header_spec(k, al), b)
        },
    }
}

/// The extension path and the member matrix of an extindex body read back apart, whatever
/// capacity and row width were reserved.
pub proof fn lemma_ext_index_roundtrip(p: Seq<char>, children: Seq<Seq<char>>, cap_hint: nat, m_hint: nat)
    requires
        names_nul_free(children),
        index_geometry_fits(children, cap_hint, m_hint),
    ensures
        ({
            let (d, b) = encode_ext_index_spec(p, children, cap_hint, m_hint);
            &&& decode_ext_path_spec(b, d) == p
            &&& decode_ext_childs_spec(b, d) == sort_names(children)
        }),
{
    broadcast use vstd::utf8::group_utf8_lib;
    let c = sort_names(children);
    crate::xvalue_index::lemma_sort_names_len(children);
    lemma_sort_nul_free(children);
    let m = matrix_m(c, m_hint);
    let cap = matrix_cap_of(c, cap_hint);
    let (d, mat) = encode_index_spec(children, cap_hint, m_hint);
    let (d2, b) = encode_ext_index_spec(p, children, cap_hint, m_hint);
    let u = encode_utf8(p);
    assert(b == u + mat);
    assert(d2 == d);
    assert(max_len(c) <= m);
    lemma_rows_len(c, m);
    assert(mat.len() == cap * m) by (nonlinear_arith)
        requires mat.len() == c.len() * m + (cap - c.len()) * m, cap >= c.len();
    assert(crate::xvalue_index::matrix_cap_spec(d) == cap);
    assert(matrix_width_spec(d) == m);
    assert(ext_split(b, d) == u.len());
    assert(b.take(u.len() as int) == u);
    assert(b.skip(u.len() as int) == mat);
    lemma_index_roundtrip(children, cap_hint, m_hint);
}

/// A head over a short kind and a few dims fits its `u16` length field.
pub proof fn lemma_short_headlen(kind: Seq<char>, dims: Seq<i32>)
    requires
        kind.len() <= 64,
        dims.len() <= 8,
    ensures
        encoded_headlen(kind, 0, dims) < 0x10000,
{
    let (st, lt, phys) = head_axes(kind, 0, dims);
    crate::xvalue::lemma_dims_text_len(dims);
    crate::xvalue::lemma_dims_le_len(dims);
    crate::xvalue::lemma_utf8_len_bound(lt);
    assert(lt.len() <= kind.len() + 2 + 12 * dims.len());
    assert(crate::xvalue::phys_field(st, phys).len() <= 1 + 4 * dims.len());
}

/// The encoding of a member list with reserved capacity and row width: a plain index, or an
/// extindex with the extension path `ext`.
pub open spec fn grown_index_bytes(children: Seq<Seq<char>>, cap_hint: nat, m_hint: nat, ext: Option<Seq<char>>) -> Seq<u8> {
    match ext {
        None => {
            let (d, b) = encode_index_spec(children, cap_hint, m_hint);
            encode_head_perm_spec(KIND_INDEX@, 0, d, b, false, 0)
        },
        Some(p) => {
            let (d, b) = encode_ext_index_spec(p, children, cap_hint, m_hint);
            encode_head_perm_spec(KIND_EXT_INDEX@, 0, d, b, false, 0)
        },
    }
}

/// The body of [`grown_index_bytes`].
pub open spec fn grown_index_body(children: Seq<Seq<char>>, cap_hint: nat, m_hint: nat, ext: Option<Seq<char>>) -> Seq<u8> {
    match ext {
        None => encode_index_spec(children, cap_hint, m_hint).1,
        Some(p) => encode_ext_index_spec(p, children, cap_hint, m_hint).1,
    }
}

/// The rows a member list encoded with reserved capacity and row width reads back as.
pub open spec fn grown_rows(children: Seq<Seq<char>>, cap_hint: nat, m_hint: nat) -> Seq<Seq<char>> {
    let c = sort_names(children);
    let m = matrix_m(c, m_hint);
    matrix_rows(matrix_body(c, matrix_cap_of(c, cap_hint), m), m, c.len())
}

/// The first `n` rows of a matrix body read back one per name; a name without a NUL reads
/// back as itself.
pub proof fn lemma_matrix_rows_at(names: Seq<Seq<char>>, cap: nat, m: nat, n: nat)
    requires
        max_len(names) <= m,
        names.len() <= cap,
        n <= names.len(),
    ensures
        matrix_rows(matrix_body(names, cap, m), m, n).len() == n,
        forall|i: int| 0 <= i < n && nul_free(names[i]) ==> #[trigger] matrix_rows(matrix_body(names, cap, m), m, n)[i] == names[i],
    decreases n,
{
    broadcast use vstd::utf8::group_utf8_lib;
    if n > 0 {
        lemma_matrix_rows_at(names, cap, m, (n - 1) as nat);
        let i = (n - 1) as int;
        let body = matrix_body(names, cap, m);
        lemma_rows_index(names, m, i);
        lemma_rows_len(names, m);
        lemma_max_len(names, i);
        let u = encode_utf8(names[i]);
        assert(matrix_at_spec(body, m, i as nat) is Some);
        if nul_free(names[i]) {
            lemma_utf8_nonzero(names[i]);
            if m == 0 {
                assert(u.len() == 0);
                assert(names[i].len() == 0);
                assert(names[i] =~= Seq::<char>::empty());
            } else {
                assert(body.subrange(i * m, i * m + m) == rows(names, m).subrange(i * m, i * m + m));
                lemma_until_nul_padded(u, (m - u.len()) as nat);
            }
            assert(matrix_at_spec(body, m, i as nat) == Some(names[i]));
        }
    }
}

/// A member list encoded with reserved capacity and row width reads back, without failing,
/// as its rows in canonical order (with its extension path for an extindex), when the
/// geometry fits the head's dims and the body its length field; a name without a NUL reads
/// back as itself.
pub proof fn lemma_grown_index_decode(children: Seq<Seq<char>>, cap_hint: nat, m_hint: nat, ext: Option<Seq<char>>)
    requires
        index_geometry_fits(children, cap_hint, m_hint),
        grown_index_body(children, cap_hint, m_hint, ext).len() < 0x8000_0000,
    ensures
        !decode_panics(grown_index_bytes(children, cap_hint, m_hint, ext)),
        decode_value(grown_index_bytes(children, cap_hint, m_hint, ext)) == match ext {
            None => XV::Index(grown_rows(children, cap_hint, m_hint)),
            Some(p) => XV::ExtIndex(grown_rows(children, cap_hint, m_hint), p),
        },
        grown_rows(children, cap_hint, m_hint).len() == children.len(),
        forall|i: int| 0 <= i < children.len() && nul_free(sort_names(children)[i])
            ==> #[trigger] grown_rows(children, cap_hint, m_hint)[i] == sort_names(children)[i],
{
    broadcast use vstd::utf8::group_utf8_lib;
    lemma_typed_kinds_plain();
    lemma_kind_spelling();
    let c = sort_names(children);
    crate::xvalue_index::lemma_sort_names_len(children);
    let m = matrix_m(c, m_hint);
    let cap = matrix_cap_of(c, cap_hint);
    let (d, mat) = encode_index_spec(children, cap_hint, m_hint);
    assert(max_len(c) <= m);
    assert(matrix_width_spec(d) == m);
    assert(matrix_count_spec(d) == c.len());
    lemma_matrix_rows_at(c, cap, m, c.len());
    match ext {
        None => {
            lemma_short_headlen(KIND_INDEX@, d);
            lemma_inline_decode(KIND_INDEX@, d, mat);
            lemma_decode_kinds(d, mat);
        },
        Some(p) => {
            let (d2, b) = encode_ext_index_spec(p, children, cap_hint, m_hint);
            let u = encode_utf8(p);
            assert(b == u + mat);
            assert(d2 == d);
            lemma_rows_len(c, m);
            assert(mat.len() == cap * m) by (nonlinear_arith)
                requires mat.len() == c.len() * m + (cap - c.len()) * m, cap >= c.len();
            assert(crate::xvalue_index::matrix_cap_spec(d) == cap);
            assert(ext_split(b, d) == u.len());
            assert(b.take(u.len() as int) == u);
            assert(b.skip(u.len() as int) == mat);
            lemma_short_headlen(KIND_EXT_INDEX@, d);
            lemma_inline_decode(KIND_EXT_INDEX@, d, b);
            lemma_decode_kinds(d, b);
        },
    }
}

/// An inline value decodes by its base kind, its dims and its body, without failing.
pub proof fn lemma_inline_decode(kind: Seq<char>, dims: Seq<i32>, raw: Seq<u8>)
    requires
        kind.len() > 0,
        kind.contains(OBJ_SEP_CHAR) || !(kind[0] == '['),
        head_fits(kind, 0, dims, raw),
        opaque_kind(kind) ==> crate::xvalue::product_fits(dims),
    ensures
        !decode_panics(encode_head_perm_spec(kind, 0, dims, raw, false, 0)),
        decode_value(encode_head_perm_spec(kind, 0, dims, raw, false, 0)) == decode_kind(kind, dims, raw),
{
    lemma_inline_head(kind, dims, raw);
}

/// How each typed kind decodes.
pub proof fn lemma_decode_kinds(dims: Seq<i32>, b: Seq<u8>)
    ensures
        decode_kind(KIND_BOOL@, dims, b) == XV::Bool(crate::xvalue_bool::bool_vals(b), dims),
        decode_kind(KIND_INT8@, dims, b) == XV::Int8(crate::xvalue_int::int8_vals(b), dims),
        decode_kind(KIND_INT16@, dims, b) == XV::Int16(crate::xvalue_int::int16_vals(b), dims),
        decode_kind(KIND_INT32@, dims, b) == XV::Int32(crate::xvalue_int::int32_vals(b), dims),
        decode_kind(KIND_INT64@, dims, b) == XV::Int64(crate::xvalue_int::int64_vals(b), dims),
        decode_kind(KIND_UINT8@, dims, b) == XV::Uint8(b, dims),
        decode_kind(KIND_UINT16@, dims, b) == XV::Uint16(crate::xvalue_uint::uint16_vals(b), dims),
        decode_kind(KIND_UINT32@, dims, b) == XV::Uint32(crate::xvalue_uint::uint32_vals(b), dims),
        decode_kind(KIND_UINT64@, dims, b) == XV::Uint64(crate::xvalue_uint::uint64_vals(b), dims),
        decode_kind(KIND_FLOAT32@, dims, b) == XV::Float32(crate::xvalue_uint::uint32_vals(b), dims),
        decode_kind(KIND_FLOAT64@, dims, b) == XV::Float64(crate::xvalue_uint::uint64_vals(b), dims),
        decode_kind(KIND_CHAR_UTF8@, dims, b) == XV::CharByte(b, dims),
        decode_kind(KIND_CHAR_ASCII@, dims, b) == XV::CharAscii(b, dims),
        decode_kind(KIND_CHAR@, dims, b) == XV::Char32(crate::xvalue_uint::uint32_vals(b), dims),
        decode_kind(KIND_MAP@, dims, b) == XV::MapVal(KIND_MAP@, dims),
        decode_kind(KIND_INDEX@, dims, b) == XV::Index(matrix_rows(b, matrix_width_spec(dims), matrix_count_spec(dims))),
        decode_kind(KIND_EXT_INDEX@, dims, b) == XV::ExtIndex(decode_ext_childs_spec(b, dims), decode_ext_path_spec(b, dims)),
{
    lemma_kind_spelling();
}

/// No typed kind is opaque, and every typed kind is plain (no `[` first, no `·`).
pub proof fn lemma_typed_kinds_plain()
    ensures
        !opaque_kind(KIND_BOOL@) && KIND_BOOL@.len() > 0 && KIND_BOOL@[0] != '[' && !KIND_BOOL@.contains(OBJ_SEP_CHAR),
        !opaque_kind(KIND_INT8@) && KIND_INT8@.len() > 0 && KIND_INT8@[0] != '[',
        !opaque_kind(KIND_INT16@) && KIND_INT16@.len() > 0 && KIND_INT16@[0] != '[',
        !opaque_kind(KIND_INT32@) && KIND_INT32@.len() > 0 && KIND_INT32@[0] != '[',
        !opaque_kind(KIND_INT64@) && KIND_INT64@.len() > 0 && KIND_INT64@[0] != '[',
        !opaque_kind(KIND_UINT8@) && KIND_UINT8@.len() > 0 && KIND_UINT8@[0] != '[',
        !opaque_kind(KIND_UINT16@) && KIND_UINT16@.len() > 0 && KIND_UINT16@[0] != '[',
        !opaque_kind(KIND_UINT32@) && KIND_UINT32@.len() > 0 && KIND_UINT32@[0] != '[',
        !opaque_kind(KIND_UINT64@) && KIND_UINT64@.len() > 0 && KIND_UINT64@[0] != '[',
        !opaque_kind(KIND_FLOAT32@) && KIND_FLOAT32@.len() > 0 && KIND_FLOAT32@[0] != '[',
        !opaque_kind(KIND_FLOAT64@) && KIND_FLOAT64@.len() > 0 && KIND_FLOAT64@[0] != '[',
        !opaque_kind(KIND_CHAR_UTF8@) && KIND_CHAR_UTF8@.len() > 0 && KIND_CHAR_UTF8@[0] != '[',
        !opaque_kind(KIND_CHAR_ASCII@) && KIND_CHAR_ASCII@.len() > 0 && KIND_CHAR_ASCII@[0] != '[',
        !opaque_kind(KIND_CHAR@) && KIND_CHAR@.len() > 0 && KIND_CHAR@[0] != '[',
        !opaque_kind(KIND_MAP@) && KIND_MAP@.len() > 0 && KIND_MAP@[0] != '[',
        !opaque_kind(KIND_INDEX@) && KIND_INDEX@.len() > 0 && KIND_INDEX@[0] != '[',
        !opaque_kind(KIND_EXT_INDEX@) && KIND_EXT_INDEX@.len() > 0 && KIND_EXT_INDEX@[0] != '[',
{
    lemma_kind_spelling();
}

/// The roundtrip law for the `Bool`, `Int8`, `Int16`, `Int32`, `Int64` values.
proof fn lemma_value_roundtrip_a(v: XV)
    requires
        roundtrip_ok(v),
        v is Bool || v is Int8 || v is Int16 || v is Int32 || v is Int64,
    ensures
        !decode_panics(encode_value(v)),
        decode_value(encode_value(v)) == canonical(v),
{
    lemma_typed_kinds_plain();
    match v {
        XV::Bool(d, dims) => {
            lemma_inline_decode(KIND_BOOL@, dims, bool_body(d));
            lemma_decode_kinds(dims, bool_body(d));
            lemma_bool_roundtrip(d);
        },
        XV::Int8(d, dims) => {
            lemma_inline_decode(KIND_INT8@, dims, int8_body(d));
            lemma_decode_kinds(dims, int8_body(d));
            lemma_int_roundtrip(d, seq![], seq![], seq![]);
        },
        XV::Int16(d, dims) => {
            lemma_inline_decode(KIND_INT16@, dims, int16_body(d));
            lemma_decode_kinds(dims, int16_body(d));
            lemma_int_roundtrip(seq![], d, seq![], seq![]);
        },
        XV::Int32(d, dims) => {
            lemma_inline_decode(KIND_INT32@, dims, int32_body(d));
            lemma_decode_kinds(dims, int32_body(d));
            lemma_int_roundtrip(seq![], seq![], d, seq![]);
        },
        XV::Int64(d, dims) => {
            lemma_inline_decode(KIND_INT64@, dims, int64_body(d));
            lemma_decode_kinds(dims, int64_body(d));
            lemma_int_roundtrip(seq![], seq![], seq![], d);
        },
        _ => {},
    }
}

/// The roundtrip law for the `Uint8`, `Uint16`, `Uint32`, `Uint64`, `Float32`, `Float64` values.
proof fn lemma_value_roundtrip_b(v: XV)
    requires
        roundtrip_ok(v),
        v is Uint8 || v is Uint16 || v is Uint32 || v is Uint64 || v is Float32 || v is Float64,
    ensures
        !decode_panics(encode_value(v)),
        decode_value(encode_value(v)) == canonical(v),
{
    lemma_typed_kinds_plain();
    match v {
        XV::Uint8(d, dims) => {
            lemma_inline_decode(KIND_UINT8@, dims, d);
            lemma_decode_kinds(dims, d);
        },
        XV::Uint16(d, dims) => {
            lemma_inline_decode(KIND_UINT16@, dims, uint16_body(d));
            lemma_decode_kinds(dims, uint16_body(d));
            lemma_uint_roundtrip(d, seq![], seq![]);
        },
        XV::Uint32(d, dims) => {
            lemma_inline_decode(KIND_UINT32@, dims, uint32_body(d));
            lemma_decode_kinds(dims, uint32_body(d));
            lemma_uint_roundtrip(seq![], d, seq![]);
        },
        XV::Uint64(d, dims) => {
            lemma_inline_decode(KIND_UINT64@, dims, uint64_body(d));
            lemma_decode_kinds(dims, uint64_body(d));
            lemma_uint_roundtrip(seq![], seq![], d);
        },
        XV::Float32(d, dims) => {
            lemma_inline_decode(KIND_FLOAT32@, dims, uint32_body(d));
            lemma_decode_kinds(dims, uint32_body(d));
            lemma_uint_roundtrip(seq![], d, seq![]);
        },
        XV::Float64(d, dims) => {
            lemma_inline_decode(KIND_FLOAT64@, dims, uint64_body(d));
            lemma_decode_kinds(dims, uint64_body(d));
            lemma_uint_roundtrip(seq![], seq![], d);
        },
        _ => {},
    }
}

/// The roundtrip law for the `CharByte`, `CharAscii`, `Char32` values.
proof fn lemma_value_roundtrip_c(v: XV)
    requires
        roundtrip_ok(v),
        v is CharByte || v is CharAscii || v is Char32,
    ensures
        !decode_panics(encode_value(v)),
        decode_value(encode_value(v)) == canonical(v),
{
    lemma_typed_kinds_plain();
    match v {
        XV::CharByte(d, dims) => {
            lemma_inline_decode(KIND_CHAR_UTF8@, dims, d);
            lemma_decode_kinds(dims, d);
        },
        XV::CharAscii(d, dims) => {
            lemma_inline_decode(KIND_CHAR_ASCII@, dims, d);
            lemma_decode_kinds(dims, d);
        },
        XV::Char32(d, dims) => {
            lemma_inline_decode(KIND_CHAR@, dims, uint32_body(d));
            lemma_decode_kinds(dims, uint32_body(d));
            lemma_uint_roundtrip(seq![], d, seq![]);
        },
        _ => {},
    }
}

/// The roundtrip law for the `MapVal`, `Index`, `ExtIndex` values.
proof fn lemma_value_roundtrip_d(v: XV)
    requires
        roundtrip_ok(v),
        v is MapVal || v is Index || v is ExtIndex,
    ensures
        !decode_panics(encode_value(v)),
        decode_value(encode_value(v)) == canonical(v),
{
    lemma_typed_kinds_plain();
    match v {
        XV::MapVal(lt, dims) => {
            lemma_kind_spelling();
            lemma_inline_decode(lt, dims, seq![]);
            lemma_decode_kinds(dims, seq![]);
        },
        XV::Index(c) => {
            let (d, b) = encode_index_spec(c, 0, 0);
            lemma_inline_decode(KIND_INDEX@, d, b);
            lemma_decode_kinds(d, b);
            lemma_index_roundtrip(c, 0, 0);
        },
        XV::ExtIndex(c, p) => {
            let (d, b) = encode_ext_index_spec(p, c, 0, 0);
            lemma_inline_decode(KIND_EXT_INDEX@, d, b);
            lemma_decode_kinds(d, b);
            lemma_ext_index_roundtrip(p, c, 0, 0);
        },
        _ => {},
    }
}

/// The roundtrip law for the `Nil`, `Ptr`, `Opaque` values.
proof fn lemma_value_roundtrip_e(v: XV)
    requires
        roundtrip_ok(v),
        v is Nil || v is Ptr || v is Opaque,
    ensures
        !decode_panics(encode_value(v)),
        decode_value(encode_value(v)) == canonical(v),
{
    lemma_typed_kinds_plain();
    match v {
        XV::Nil => {
            assert(decode_head_spec(seq![]) == crate::xvalue::empty_head());
        },
        XV::Ptr(k, t) => {
            broadcast use vstd::utf8::group_utf8_lib;
            lemma_head_roundtrip(k, 1, seq![], encode_utf8(t), false, 0);
        },
        XV::Opaque(k, b, al) => {
            let dims = array_to_header_spec(k, al);
            assert(crate::xvalue::product_fits(dims)) by {
                assert(dims.take(0) =~= Seq::<i32>::empty());
                if dims.len() == 1 {
                    assert(dims.take(1) =~= dims);
                    assert(dims.drop_last() =~= Seq::<i32>::empty());
                }
                assert forall|j: int| 0 <= j <= dims.len() implies
                    i32::MIN <= #[trigger] crate::xvalue::dims_product(dims.take(j)) <= i32::MAX by {
                    if j == 1 {
                        assert(dims.take(1) =~= dims);
                    }
                }
            }
            lemma_inline_decode(k, dims, b);
            if dims.len() == 1 {
                assert(dims.drop_last() =~= Seq::<i32>::empty());
            }
        },
        _ => {},
    }
}

/// Decoding a value's encoding never fails and gives the value back, its member list in
/// canonical (row-major coordinate) order, for every value whose encoding can read back
/// (see [`roundtrip_ok`]).
pub proof fn lemma_value_roundtrip(v: XV)
    requires
        roundtrip_ok(v),
    ensures
        !decode_panics(encode_value(v)),
        decode_value(encode_value(v)) == canonical(v),
{
    if v is Bool || v is Int8 || v is Int16 || v is Int32 || v is Int64 {
        lemma_value_roundtrip_a(v);
    } else if v is Uint8 || v is Uint16 || v is Uint32 || v is Uint64 || v is Float32 || v is Float64 {
        lemma_value_roundtrip_b(v);
    } else if v is CharByte || v is CharAscii || v is Char32 {
        lemma_value_roundtrip_c(v);
    } else if v is MapVal || v is Index || v is ExtIndex {
        lemma_value_roundtrip_d(v);
    } else {
        lemma_value_roundtrip_e(v);
    }
}

} // verus!
