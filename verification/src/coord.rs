//! Coordinate segments `[s0,s1,...]` of scattered-key arrays: building, parsing, checking
//! and their row-major order.

use std::cmp::Ordering;
use vstd::prelude::*;
use crate::text::{chars_of, decimal_value, int_to_decimal, is_digit, parse_i64_digits, push_char, push_i64};
use crate::text::{digit_char, nat_to_decimal};

verus! {

/// The text of the integers `c` joined by `,` in decimal.
pub open spec fn join_decimals(c: Seq<i64>) -> Seq<char>
    decreases c.len(),
{
    if c.len() == 0 {
        seq![]
    } else if c.len() == 1 {
        int_to_decimal(c[0] as int)
    } else {
        join_decimals(c.drop_last()) + seq![','] + int_to_decimal(c.last() as int)
    }
}

/// The coordinate segment `[c0,c1,...]`.
pub open spec fn coord_text(c: Seq<i64>) -> Seq<char> {
    seq!['['] + join_decimals(c) + seq![']']
}

/// Builds the coordinate segment `[s0,s1,...]`: decimal, no spaces.
pub fn format_coord(coords: &[i64]) -> (s: String)
    ensures
        s@ == coord_text(coords@),
{
    let mut s = String::new();
    push_char(&mut s, '[');
    let mut i: usize = 0;
    while i < coords.len()
        invariant
            i <= coords.len(),
            s@ == seq!['['] + join_decimals(coords@.take(i as int)),
        decreases coords.len() - i,
    {
        if i > 0 {
            push_char(&mut s, ',');
        }
        push_i64(&mut s, coords[i]);
        assert(coords@.take(i as int + 1).drop_last() == coords@.take(i as int));
        i = i + 1;
    }
    assert(coords@.take(coords.len() as int) == coords@);
    push_char(&mut s, ']');
    s
}

/// Decimal notation is non-empty, all digits, and reads back as the number.
pub proof fn lemma_nat_decimal(n: nat)
    ensures
        nat_to_decimal(n).len() > 0,
        forall|k: int| 0 <= k < nat_to_decimal(n).len() ==> is_digit(#[trigger] nat_to_decimal(n)[k]),
        decimal_value(nat_to_decimal(n)) == n,
        !nat_to_decimal(n).contains(','),
    decreases n,
{
    if n < 10 {
        let c = digit_char(n as int);
        assert(c as int == n + 48);
        assert(nat_to_decimal(n).drop_last() =~= Seq::<char>::empty());
        assert(nat_to_decimal(n).last() == c);
        assert(decimal_value(nat_to_decimal(n)) == decimal_value(Seq::<char>::empty()) * 10 + (c as int - 48));
    } else {
        lemma_nat_decimal(n / 10);
        let t = nat_to_decimal(n / 10);
        let c = digit_char((n % 10) as int);
        assert(c as int == n % 10 + 48);
        assert(nat_to_decimal(n).drop_last() =~= t);
        assert(nat_to_decimal(n).last() == c);
        assert(decimal_value(nat_to_decimal(n)) == decimal_value(t) * 10 + (c as int - 48));
        assert(n == (n / 10) * 10 + n % 10);
        assert forall|k: int| 0 <= k < nat_to_decimal(n).len() implies is_digit(#[trigger] nat_to_decimal(n)[k]) by {
            if k < t.len() {
                assert(nat_to_decimal(n)[k] == t[k]);
            }
        }
        assert(!nat_to_decimal(n).contains(',')) by {
            if nat_to_decimal(n).contains(',') {
                let k = choose|k: int| 0 <= k < nat_to_decimal(n).len() && nat_to_decimal(n)[k] == ',';
                assert(is_digit(nat_to_decimal(n)[k]));
            }
        }
    }
}

/// A text without `sep` is one part.
proof fn lemma_split_on_plain(t: Seq<char>, sep: char)
    requires
        !t.contains(sep),
    ensures
        split_on(t, sep) == seq![t],
    decreases t.len(),
{
    if t.len() == 0 {
        assert(t =~= Seq::<char>::empty());
    }
    if t.len() > 0 {
        assert(!t.drop_last().contains(sep)) by {
            if t.drop_last().contains(sep) {
                let k = choose|k: int| 0 <= k < t.drop_last().len() && t.drop_last()[k] == sep;
                assert(t[k] == sep);
            }
        }
        lemma_split_on_plain(t.drop_last(), sep);
        assert(t.last() != sep) by {
            assert(t[t.len() - 1] == t.last());
        }
        assert(t.drop_last().push(t.last()) =~= t);
        let prev = split_on(t.drop_last(), sep);
        assert(prev.len() == 1 && prev.last() == t.drop_last());
        assert(split_on(t, sep) == prev.update(prev.len() - 1, prev.last().push(t.last())));
        assert(seq![t.drop_last()].update(0, t.drop_last().push(t.last())) =~= seq![t]);
    }
}

/// Splitting after a separator adds the rest as one more part.
proof fn lemma_split_on_append(s: Seq<char>, t: Seq<char>, sep: char)
    requires
        !t.contains(sep),
    ensures
        split_on(s + seq![sep] + t, sep) == split_on(s, sep).push(t),
    decreases t.len(),
{
    if t.len() == 0 {
        assert(t =~= Seq::<char>::empty());
        assert((s + seq![sep] + t).drop_last() =~= s);
        assert((s + seq![sep] + t).last() == sep);
        assert(split_on(s + seq![sep] + t, sep) == split_on(s, sep).push(seq![]));
    } else {
        let u = t.drop_last();
        assert(!u.contains(sep)) by {
            if u.contains(sep) {
                let k = choose|k: int| 0 <= k < u.len() && u[k] == sep;
                assert(t[k] == sep);
            }
        }
        lemma_split_on_append(s, u, sep);
        assert((s + seq![sep] + t).drop_last() =~= s + seq![sep] + u);
        assert(t.last() != sep) by {
            assert(t[t.len() - 1] == t.last());
        }
        assert((s + seq![sep] + t).last() == t.last());
        lemma_split_on_nonempty(s, sep);
        assert(u.push(t.last()) =~= t);
        let prev = split_on(s + seq![sep] + u, sep);
        assert(prev.len() - 1 == split_on(s, sep).len() && prev.last() == u);
        assert(split_on(s + seq![sep] + t, sep) == prev.update(prev.len() - 1, prev.last().push(t.last())));
        assert(split_on(s, sep).push(u).update(split_on(s, sep).len() as int, u.push(t.last())) =~= split_on(s, sep).push(t));
    }
}

/// The parts of joined decimals are the numbers' notations.
proof fn lemma_split_join(c: Seq<i64>)
    requires
        c.len() > 0,
        forall|k: int| 0 <= k < c.len() ==> 0 <= #[trigger] c[k],
    ensures
        split_on(join_decimals(c), ',') == Seq::new(c.len(), |k: int| nat_to_decimal(c[k] as nat)),
    decreases c.len(),
{
    lemma_nat_decimal(c.last() as nat);
    if c.len() == 1 {
        lemma_split_on_plain(int_to_decimal(c[0] as int), ',');
        assert(Seq::new(c.len(), |k: int| nat_to_decimal(c[k] as nat)) =~= seq![nat_to_decimal(c[0] as nat)]);
    } else {
        lemma_split_join(c.drop_last());
        lemma_split_on_append(join_decimals(c.drop_last()), int_to_decimal(c.last() as int), ',');
        assert(Seq::new(c.drop_last().len(), |k: int| nat_to_decimal(c.drop_last()[k] as nat)).push(nat_to_decimal(c.last() as nat))
            =~= Seq::new(c.len(), |k: int| nat_to_decimal(c[k] as nat)));
    }
}

/// Parsing reads back the segment a list of non-negative coordinates is written as.
pub proof fn law_parse_format_coord(c: Seq<i64>)
    requires
        c.len() > 0,
        forall|k: int| 0 <= k < c.len() ==> 0 <= #[trigger] c[k],
    ensures
        parse_coord_spec(coord_text(c)) == Some(c),
{
    let s = coord_text(c);
    lemma_split_join(c);
    assert(coord_inner(s) =~= join_decimals(c));
    let parts = split_on(coord_inner(s), ',');
    assert forall|j: int| 0 <= j < parts.len() implies (#[trigger] parse_part(parts[j])) is Some
        && parse_part(parts[j])->0 == c[j] by {
        lemma_nat_decimal(c[j] as nat);
    }
    assert(coord_inner(s).len() > 0) by {
        assert(parts[0].len() > 0) by { lemma_nat_decimal(c[0] as nat); }
        if coord_inner(s).len() == 0 {
            assert(split_on(coord_inner(s), ',') == seq![Seq::<char>::empty()]);
        }
    }
    assert(parts_values(parts) =~= c);
}

/// `s` split at every `sep`, left to right; always at least one (possibly empty) part.
pub open spec fn split_on(s: Seq<char>, sep: char) -> Seq<Seq<char>>
    decreases s.len(),
{
    if s.len() == 0 {
        seq![seq![]]
    } else {
        let prev = split_on(s.drop_last(), sep);
        if s.last() == sep {
            prev.push(seq![])
        } else {
            prev.update(prev.len() - 1, prev.last().push(s.last()))
        }
    }
}

/// `split_on` never yields an empty list of parts.
pub proof fn lemma_split_on_nonempty(s: Seq<char>, sep: char)
    ensures
        split_on(s, sep).len() >= 1,
    decreases s.len(),
{
    if s.len() > 0 {
        lemma_split_on_nonempty(s.drop_last(), sep);
    }
}

/// The `i64` value of a non-empty all-digit part that fits, else `None`.
pub open spec fn parse_part(p: Seq<char>) -> Option<i64> {
    if p.len() > 0 && (forall|k: int| 0 <= k < p.len() ==> is_digit(#[trigger] p[k]))
        && decimal_value(p) <= i64::MAX {
        Some(decimal_value(p) as i64)
    } else {
        None
    }
}

/// All parts parse.
pub open spec fn parts_parse(parts: Seq<Seq<char>>) -> bool {
    forall|j: int| 0 <= j < parts.len() ==> (#[trigger] parse_part(parts[j])) is Some
}

/// The values of parts that all parse.
pub open spec fn parts_values(parts: Seq<Seq<char>>) -> Seq<i64> {
    Seq::new(parts.len(), |j: int| parse_part(parts[j])->0)
}

/// The inside of a `[...]` segment.
pub open spec fn coord_inner(s: Seq<char>) -> Seq<char> {
    s.subrange(1, s.len() - 1)
}

/// `[` first and `]` last, at least two characters.
pub open spec fn bracketed(s: Seq<char>) -> bool {
    s.len() >= 2 && s[0] == '[' && s[s.len() - 1] == ']'
}

/// The integer coordinates of a segment matching `\[[0-9]+(,[0-9]+)*\]`, else `None`.
pub open spec fn parse_coord_spec(s: Seq<char>) -> Option<Seq<i64>> {
    if bracketed(s) && coord_inner(s).len() > 0 && parts_parse(split_on(coord_inner(s), ',')) {
        Some(parts_values(split_on(coord_inner(s), ',')))
    } else {
        None
    }
}

/// Parses an integer coordinate segment, strictly `\[[0-9]+(,[0-9]+)*\]`; `None` otherwise.
pub fn parse_coord(name: &str) -> (r: Option<Vec<i64>>)
    ensures
        r is Some <==> parse_coord_spec(name@) is Some,
        r matches Some(v) ==> v@ == parse_coord_spec(name@)->0,
{
    let cs = chars_of(name);
    parse_coord_chars(&cs)
}

/// `parse_coord` over a character slice.
pub fn parse_coord_chars(cs: &[char]) -> (r: Option<Vec<i64>>)
    ensures
        r is Some <==> parse_coord_spec(cs@) is Some,
        r matches Some(v) ==> v@ == parse_coord_spec(cs@)->0,
{
    let n = cs.len();
    if n < 2 || cs[0] != '[' || cs[n - 1] != ']' {
        return None;
    }
    if n == 2 {
        return None;
    }
    let ghost inner = coord_inner(cs@);
    let mut vals: Vec<i64> = Vec::new();
    let mut part: Vec<char> = Vec::new();
    let mut i: usize = 1;
    while i < n - 1
        invariant
            n == cs.len(),
            n >= 3,
            1 <= i <= n - 1,
            inner == cs@.subrange(1, n - 1),
            ({
                let parts = split_on(inner.take(i - 1), ',');
                &&& parts.len() >= 1
                &&& part@ == parts.last()
                &&& vals@.len() == parts.len() - 1
                &&& forall|j: int| 0 <= j < vals@.len() ==> parse_part(#[trigger] parts[j]) == Some(vals@[j])
            }),
        decreases n - 1 - i,
    {
        proof {
            lemma_split_on_nonempty(inner.take(i - 1), ',');
            assert(inner.take(i as int).drop_last() == inner.take(i - 1));
            assert(inner.take(i as int).last() == cs@[i as int]);
        }
        let c = cs[i];
        if c == ',' {
            let p = parse_i64_digits(&part);
            match p {
                None => {
                    proof {
                        let parts = split_on(inner, ',');
                        lemma_split_on_prefix_stable(inner, ',', i as int);
                        assert(parts[vals@.len() as int] == part@);
                    }
                    return None;
                },
                Some(v) => {
                    vals.push(v);
                    part = Vec::new();
                },
            }
        } else {
            part.push(c);
        }
        i = i + 1;
    }
    proof {
        assert(inner.take(n - 2) == inner);
        lemma_split_on_nonempty(inner, ',');
    }
    let p = parse_i64_digits(&part);
    match p {
        None => None,
        Some(v) => {
            vals.push(v);
            proof {
                let parts = split_on(inner, ',');
                assert forall|j: int| 0 <= j < parts.len() implies (#[trigger] parse_part(parts[j])) is Some by {
                    assert(parse_part(parts[j]) == Some(vals@[j]));
                }
                assert(vals@ == parts_values(parts));
            }
            Some(vals)
        },
    }
}

/// Once a `,` has been read, the parts before it stay the same however the text goes on.
pub proof fn lemma_split_on_prefix_stable(s: Seq<char>, sep: char, i: int)
    requires
        1 <= i <= s.len(),
        s[i - 1] == sep,
    ensures
        split_on(s, sep).len() >= split_on(s.take(i), sep).len(),
        forall|j: int| 0 <= j < split_on(s.take(i), sep).len() - 1 ==>
            #[trigger] split_on(s, sep)[j] == split_on(s.take(i), sep)[j],
        split_on(s.take(i - 1), sep).last() == split_on(s, sep)[split_on(s.take(i - 1), sep).len() - 1],
        split_on(s.take(i), sep).len() == split_on(s.take(i - 1), sep).len() + 1,
    decreases s.len() - i,
{
    lemma_split_on_nonempty(s.take(i - 1), sep);
    assert(s.take(i).drop_last() == s.take(i - 1));
    assert(s.take(s.len() as int) == s);
    lemma_split_on_prefix_stable_step(s, sep, i, s.len() as int);
}

/// Growing the text from `take(i)` to `take(m)` keeps every part before the last of `take(i)`.
proof fn lemma_split_on_prefix_stable_step(s: Seq<char>, sep: char, i: int, m: int)
    requires
        1 <= i <= m <= s.len(),
        s[i - 1] == sep,
    ensures
        split_on(s.take(m), sep).len() >= split_on(s.take(i), sep).len(),
        forall|j: int| 0 <= j < split_on(s.take(i), sep).len() - 1 ==>
            #[trigger] split_on(s.take(m), sep)[j] == split_on(s.take(i), sep)[j],
        split_on(s.take(i - 1), sep).last() == split_on(s.take(m), sep)[split_on(s.take(i - 1), sep).len() - 1],
        split_on(s.take(i), sep).len() == split_on(s.take(i - 1), sep).len() + 1,
    decreases m - i,
{
    lemma_split_on_nonempty(s.take(i - 1), sep);
    assert(s.take(i).drop_last() == s.take(i - 1));
    if m > i {
        lemma_split_on_prefix_stable_step(s, sep, i, m - 1);
        lemma_split_on_nonempty(s.take(m - 1), sep);
        assert(s.take(m).drop_last() == s.take(m - 1));
    }
    if m == s.len() {
        assert(s.take(m) == s);
    }
}


/// A coordinate segment: `[`, a non-empty inside without `[` or `]`, then `]`.
pub open spec fn is_coord_spec(s: Seq<char>) -> bool {
    &&& s.len() >= 3
    &&& s[0] == '['
    &&& s[s.len() - 1] == ']'
    &&& forall|k: int| 1 <= k < s.len() - 1 ==> #[trigger] s[k] != '[' && s[k] != ']'
}

/// Whether a member name is a coordinate segment (any non-empty `[..]` without nested
/// brackets); the inside need not be integers.
pub fn is_coord(name: &str) -> (b: bool)
    ensures
        b == is_coord_spec(name@),
{
    let cs = chars_of(name);
    is_coord_chars(&cs)
}

/// `is_coord` over a character slice.
pub fn is_coord_chars(cs: &[char]) -> (b: bool)
    ensures
        b == is_coord_spec(cs@),
{
    let n = cs.len();
    if n < 3 || cs[0] != '[' || cs[n - 1] != ']' {
        return false;
    }
    let mut i: usize = 1;
    while i < n - 1
        invariant
            n == cs.len(),
            n >= 3,
            1 <= i <= n - 1,
            forall|k: int| 1 <= k < i ==> #[trigger] cs@[k] != '[' && cs@[k] != ']',
        decreases n - 1 - i,
    {
        if cs[i] == '[' || cs[i] == ']' {
            return false;
        }
        i = i + 1;
    }
    true
}

/// Lexicographic order of character sequences by code point (the order of their UTF-8 bytes).
pub open spec fn char_lex(a: Seq<char>, b: Seq<char>) -> Ordering
    decreases a.len(),
{
    if a.len() == 0 && b.len() == 0 {
        Ordering::Equal
    } else if a.len() == 0 {
        Ordering::Less
    } else if b.len() == 0 {
        Ordering::Greater
    } else if a[0] < b[0] {
        Ordering::Less
    } else if a[0] > b[0] {
        Ordering::Greater
    } else {
        char_lex(a.drop_first(), b.drop_first())
    }
}

/// Lexicographic order of integer keys (a proper prefix comes first).
pub open spec fn key_lex(a: Seq<int>, b: Seq<int>) -> Ordering
    decreases a.len(),
{
    if a.len() == 0 && b.len() == 0 {
        Ordering::Equal
    } else if a.len() == 0 {
        Ordering::Less
    } else if b.len() == 0 {
        Ordering::Greater
    } else if a[0] < b[0] {
        Ordering::Less
    } else if a[0] > b[0] {
        Ordering::Greater
    } else {
        key_lex(a.drop_first(), b.drop_first())
    }
}

/// A decimal digit's value plus one, so that `0` can end a field's key.
pub open spec fn digit_rank(c: char) -> int {
    (c as int) - ('0' as int) + 1
}

/// The ranks of a run of digits.
pub open spec fn digit_ranks(s: Seq<char>) -> Seq<int> {
    Seq::new(s.len(), |i: int| digit_rank(s[i]))
}

/// `s` without its leading `0`s.
pub open spec fn strip_lead_zeros(s: Seq<char>) -> Seq<char>
    decreases s.len(),
{
    if s.len() > 0 && s[0] == '0' { strip_lead_zeros(s.drop_first()) } else { s }
}

/// `s` without its trailing `0`s.
pub open spec fn strip_trail_zeros(s: Seq<char>) -> Seq<char>
    decreases s.len(),
{
    if s.len() > 0 && s.last() == '0' { strip_trail_zeros(s.drop_last()) } else { s }
}

/// The numeric key of one field `ip` or `ip.fp`: the number of digits of the integer part
/// without leading zeros, those digits, the fraction's digits without trailing zeros, then
/// an end mark below every digit. Two fields' keys compare lexicographically as their
/// values compare.
pub open spec fn field_key(ip: Seq<char>, fp: Seq<char>) -> Seq<int> {
    let i = strip_lead_zeros(ip);
    seq![i.len() as int] + digit_ranks(i) + digit_ranks(strip_trail_zeros(fp)) + seq![0int]
}

/// Reading the inside of a coordinate segment: the keys of the finished fields, the current
/// field's integer and fraction digits, whether a `.` was seen in it, and whether the text
/// read so far fits `[0-9]+(\.[0-9]+)?(,[0-9]+(\.[0-9]+)?)*`.
pub open spec fn coord_scan(t: Seq<char>) -> (Seq<int>, Seq<char>, Seq<char>, bool, bool)
    decreases t.len(),
{
    if t.len() == 0 {
        (seq![], seq![], seq![], false, true)
    } else {
        scan_step(coord_scan(t.drop_last()), t.last())
    }
}

/// The current field of a scan is complete: integer digits, and fraction digits after a `.`.
pub open spec fn field_done(st: (Seq<int>, Seq<char>, Seq<char>, bool, bool)) -> bool {
    st.1.len() > 0 && (!st.3 || st.2.len() > 0)
}

/// One character of a scan.
pub open spec fn scan_step(st: (Seq<int>, Seq<char>, Seq<char>, bool, bool), c: char) -> (Seq<int>, Seq<char>, Seq<char>, bool, bool) {
    if !st.4 {
        st
    } else if crate::text::is_digit(c) {
        if st.3 { (st.0, st.1, st.2.push(c), true, true) } else { (st.0, st.1.push(c), st.2, false, true) }
    } else if c == '.' && !st.3 && st.1.len() > 0 {
        (st.0, st.1, st.2, true, true)
    } else if c == ',' && field_done(st) {
        (st.0 + field_key(st.1, st.2), seq![], seq![], false, true)
    } else {
        (st.0, st.1, st.2, st.3, false)
    }
}

/// The numeric key of a coordinate segment `[s0,s1,...]` whose fields are non-negative
/// integers or decimals: the fields' keys in order. `None` for any other name.
pub open spec fn num_key(s: Seq<char>) -> Option<Seq<int>> {
    if is_coord_spec(s) {
        let st = coord_scan(coord_inner(s));
        if st.4 && field_done(st) { Some(st.0 + field_key(st.1, st.2)) } else { None }
    } else {
        None
    }
}

/// The class of a member name in member order: numeric coordinate segments, then other
/// bracketed segments, then plain names.
pub open spec fn coord_rank(s: Seq<char>) -> int {
    if num_key(s) is Some { 0 } else if is_coord_spec(s) { 1 } else { 2 }
}

/// Row-major member order: numeric coordinate segments first, by value field after field
/// (`[2] < [10] < [10.5]`, `[1,5] < [2,0]`, a proper prefix first), equal values by text;
/// then other bracketed segments, then plain names, each by text.
pub open spec fn coord_order(a: Seq<char>, b: Seq<char>) -> Ordering {
    if coord_rank(a) < coord_rank(b) {
        Ordering::Less
    } else if coord_rank(a) > coord_rank(b) {
        Ordering::Greater
    } else if coord_rank(a) == 0 {
        let o = key_lex(num_key(a)->0, num_key(b)->0);
        if o == Ordering::Equal { char_lex(a, b) } else { o }
    } else {
        char_lex(a, b)
    }
}

/// A coordinate segment (any non-empty `[..]`) orders before every name that is not one,
/// whichever side it stands on.
pub proof fn law_coords_before_names(a: Seq<char>, b: Seq<char>)
    requires
        is_coord_spec(a),
        !is_coord_spec(b),
    ensures
        coord_order(a, b) == Ordering::Less,
        coord_order(b, a) == Ordering::Greater,
{
    assert(num_key(b) is None);
}

/// Text order decides at the first place two texts differ, and a proper prefix comes first.
proof fn lemma_char_lex_first_diff(a: Seq<char>, b: Seq<char>, i: int)
    requires
        0 <= i <= a.len(),
        i <= b.len(),
        a.take(i) == b.take(i),
        (i == a.len() && i < b.len()) || (i < a.len() && i < b.len() && a[i] < b[i]),
    ensures
        char_lex(a, b) == Ordering::Less,
    decreases i,
{
    if i > 0 {
        assert(a[0] == a.take(i)[0] && b[0] == b.take(i)[0]);
        assert(a.drop_first().take(i - 1) =~= a.take(i).drop_first());
        assert(b.drop_first().take(i - 1) =~= b.take(i).drop_first());
        lemma_char_lex_first_diff(a.drop_first(), b.drop_first(), i - 1);
    }
}

/// Names of one class that are not numeric coordinates (two plain names, or two bracketed
/// segments that do not read as numbers) are ordered by their text: at the first character
/// where they differ, and a proper prefix first.
pub proof fn law_names_by_text(a: Seq<char>, b: Seq<char>, i: int)
    requires
        num_key(a) is None,
        num_key(b) is None,
        is_coord_spec(a) == is_coord_spec(b),
        0 <= i <= a.len(),
        i <= b.len(),
        a.take(i) == b.take(i),
        (i == a.len() && i < b.len()) || (i < a.len() && i < b.len() && a[i] < b[i]),
    ensures
        coord_order(a, b) == Ordering::Less,
        coord_order(b, a) == Ordering::Greater,
{
    lemma_char_lex_first_diff(a, b, i);
    lemma_char_lex(b, a, a);
}

/// `a` is not ordered after `b` in member order.
pub open spec fn coord_le(a: Seq<char>, b: Seq<char>) -> bool {
    coord_order(a, b) != Ordering::Greater
}

/// Text order is a total order: swapping the sides flips it, `Equal` means the same text,
/// and it chains.
pub proof fn lemma_char_lex(a: Seq<char>, b: Seq<char>, c: Seq<char>)
    ensures
        char_lex(a, b) == Ordering::Greater <==> char_lex(b, a) == Ordering::Less,
        char_lex(a, b) == Ordering::Equal ==> a == b,
        a == b ==> char_lex(a, b) == Ordering::Equal,
        char_lex(a, b) != Ordering::Greater && char_lex(b, c) != Ordering::Greater ==> char_lex(a, c) != Ordering::Greater,
    decreases a.len(),
{
    if a.len() > 0 && b.len() > 0 {
        if c.len() > 0 {
            lemma_char_lex(a.drop_first(), b.drop_first(), c.drop_first());
        } else {
            lemma_char_lex(a.drop_first(), b.drop_first(), c);
        }
        if char_lex(a, b) == Ordering::Equal {
            assert(a == seq![a[0]] + a.drop_first());
            assert(b == seq![b[0]] + b.drop_first());
        }
    }
    if a == b && a.len() > 0 {
        lemma_char_lex(a.drop_first(), b.drop_first(), c);
    }
}

/// Key order is a total order: swapping flips it, `Equal` means the same key, it chains.
pub proof fn lemma_key_lex(a: Seq<int>, b: Seq<int>, c: Seq<int>)
    ensures
        key_lex(a, b) == Ordering::Greater <==> key_lex(b, a) == Ordering::Less,
        key_lex(a, b) == Ordering::Equal <==> a == b,
        key_lex(a, b) != Ordering::Greater && key_lex(b, c) != Ordering::Greater ==> key_lex(a, c) != Ordering::Greater,
    decreases a.len(),
{
    if a.len() > 0 && b.len() > 0 {
        if c.len() > 0 {
            lemma_key_lex(a.drop_first(), b.drop_first(), c.drop_first());
        } else {
            lemma_key_lex(a.drop_first(), b.drop_first(), c);
        }
        if key_lex(a, b) == Ordering::Equal {
            assert(a[0] == b[0]);
            assert(a.drop_first() == b.drop_first());
            assert(a =~= b) by {
                assert forall|k: int| 0 <= k < a.len() implies a[k] == b[k] by {
                    if k > 0 {
                        assert(a.drop_first()[k - 1] == b.drop_first()[k - 1]);
                    }
                }
            }
        }
    }
    if a.len() == 0 && b.len() == 0 {
        assert(a =~= b);
    }
    if a == b && a.len() > 0 {
        lemma_key_lex(a.drop_first(), b.drop_first(), c);
    }
}

/// Member order is a total order on all names: any two compare, and it chains.
pub proof fn lemma_coord_le(a: Seq<char>, b: Seq<char>, c: Seq<char>)
    ensures
        coord_le(a, b) || coord_le(b, a),
        coord_le(a, b) && coord_le(b, c) ==> coord_le(a, c),
{
    lemma_char_lex(a, b, c);
    lemma_char_lex(b, a, c);
    lemma_char_lex(a, c, b);
    if coord_rank(a) == 0 && coord_rank(b) == 0 {
        let kc = if coord_rank(c) == 0 { num_key(c)->0 } else { seq![] };
        lemma_key_lex(num_key(a)->0, num_key(b)->0, kc);
        lemma_key_lex(num_key(b)->0, num_key(a)->0, kc);
        lemma_key_lex(num_key(a)->0, kc, num_key(b)->0);
    }
}

/// The elements of `s` from index `i` on.
pub open spec fn tail_from<T>(s: Seq<T>, i: usize) -> Seq<T> {
    s.skip(i as int)
}

/// The first element of a tail is the element at its start.
pub proof fn lemma_tail_from_first<T>(s: Seq<T>, i: usize)
    requires
        i < s.len(),
    ensures
        tail_from(s, i).len() > 0,
        tail_from(s, i)[0] == s[i as int],
{
}

/// Dropping the first element of a tail moves its start by one.
pub proof fn lemma_tail_from_step<T>(s: Seq<T>, i: usize, j: usize)
    requires
        i < s.len(),
        j == i + 1,
    ensures
        tail_from(s, i).drop_first() == tail_from(s, j),
{
    assert(tail_from(s, i).drop_first() =~= tail_from(s, j));
}

/// A tail's length.
pub proof fn lemma_tail_from_len<T>(s: Seq<T>, i: usize)
    requires
        i <= s.len(),
    ensures
        tail_from(s, i).len() == s.len() - i,
        i == 0 ==> tail_from(s, i) == s,
{
    if i == 0 {
        assert(tail_from(s, i) =~= s);
    }
}

/// Text order of two character slices.
pub fn char_lex_cmp(a: &[char], b: &[char]) -> (o: Ordering)
    ensures
        o == char_lex(a@, b@),
{
    let mut i: usize = 0;
    proof {
        lemma_tail_from_len(a@, 0);
        lemma_tail_from_len(b@, 0);
    }
    while i < a.len() && i < b.len()
        invariant
            i <= a.len(),
            i <= b.len(),
            char_lex(a@, b@) == char_lex(tail_from(a@, i), tail_from(b@, i)),
        decreases a.len() - i,
    {
        proof {
            lemma_tail_from_first(a@, i);
            lemma_tail_from_first(b@, i);
        }
        if a[i] < b[i] {
            return Ordering::Less;
        }
        if a[i] > b[i] {
            return Ordering::Greater;
        }
        let ghost prev = i;
        i = i + 1;
        proof {
            lemma_tail_from_step(a@, prev, i);
            lemma_tail_from_step(b@, prev, i);
        }
    }
    proof {
        lemma_tail_from_len(a@, i);
        lemma_tail_from_len(b@, i);
    }
    if a.len() == b.len() {
        Ordering::Equal
    } else if i == a.len() {
        Ordering::Less
    } else {
        Ordering::Greater
    }
}

/// The integer values of a key held in `usize`s.
pub open spec fn as_ints(v: Seq<usize>) -> Seq<int> {
    Seq::new(v.len(), |i: int| v[i] as int)
}

/// Key order of two keys held in `usize`s.
pub fn key_lex_cmp(a: &[usize], b: &[usize]) -> (o: Ordering)
    ensures
        o == key_lex(as_ints(a@), as_ints(b@)),
{
    let ghost sa = as_ints(a@);
    let ghost sb = as_ints(b@);
    let mut i: usize = 0;
    proof {
        lemma_tail_from_len(sa, 0);
        lemma_tail_from_len(sb, 0);
    }
    while i < a.len() && i < b.len()
        invariant
            i <= a.len(),
            i <= b.len(),
            sa == as_ints(a@),
            sb == as_ints(b@),
            key_lex(sa, sb) == key_lex(tail_from(sa, i), tail_from(sb, i)),
        decreases a.len() - i,
    {
        proof {
            lemma_tail_from_first(sa, i);
            lemma_tail_from_first(sb, i);
        }
        if a[i] < b[i] {
            return Ordering::Less;
        }
        if a[i] > b[i] {
            return Ordering::Greater;
        }
        let ghost prev = i;
        i = i + 1;
        proof {
            lemma_tail_from_step(sa, prev, i);
            lemma_tail_from_step(sb, prev, i);
        }
    }
    proof {
        lemma_tail_from_len(sa, i);
        lemma_tail_from_len(sb, i);
    }
    if a.len() == b.len() {
        Ordering::Equal
    } else if i == a.len() {
        Ordering::Less
    } else {
        Ordering::Greater
    }
}

/// A scan holds digits only in its current field.
proof fn lemma_scan_digits(t: Seq<char>)
    ensures
        forall|k: int| 0 <= k < coord_scan(t).1.len() ==> crate::text::is_digit(#[trigger] coord_scan(t).1[k]),
        forall|k: int| 0 <= k < coord_scan(t).2.len() ==> crate::text::is_digit(#[trigger] coord_scan(t).2[k]),
        !coord_scan(t).3 ==> coord_scan(t).2.len() == 0,
    decreases t.len(),
{
    if t.len() > 0 {
        lemma_scan_digits(t.drop_last());
        let st = coord_scan(t.drop_last());
        let c = t.last();
        if st.4 && crate::text::is_digit(c) {
            if st.3 {
                assert forall|k: int| 0 <= k < st.2.push(c).len() implies crate::text::is_digit(#[trigger] st.2.push(c)[k]) by {
                    if k < st.2.len() { assert(st.2.push(c)[k] == st.2[k]); }
                }
            } else {
                assert forall|k: int| 0 <= k < st.1.push(c).len() implies crate::text::is_digit(#[trigger] st.1.push(c)[k]) by {
                    if k < st.1.len() { assert(st.1.push(c)[k] == st.1[k]); }
                }
            }
        }
    }
}

/// A scan that has failed stays failed.
proof fn lemma_scan_stuck(s: Seq<char>, i: int, k: int)
    requires
        0 <= i <= k <= s.len(),
        !coord_scan(s.take(i)).4,
    ensures
        !coord_scan(s.take(k)).4,
    decreases k - i,
{
    if k > i {
        lemma_scan_stuck(s, i, k - 1);
        assert(s.take(k).drop_last() =~= s.take(k - 1));
    }
}

/// Appends the key of the field `ip` (`.fp`) to `key`; see [`field_key`].
#[verifier::rlimit(50)]
fn push_field_key(key: &mut Vec<usize>, ip: &Vec<char>, fp: &Vec<char>)
    requires
        forall|k: int| 0 <= k < ip@.len() ==> crate::text::is_digit(#[trigger] ip@[k]),
        forall|k: int| 0 <= k < fp@.len() ==> crate::text::is_digit(#[trigger] fp@[k]),
    ensures
        as_ints(final(key)@) == as_ints(old(key)@) + field_key(ip@, fp@),
{
    let mut j: usize = 0;
    assert(ip@.skip(0) =~= ip@);
    while j < ip.len() && ip[j] == '0'
        invariant
            j <= ip@.len(),
            strip_lead_zeros(ip@) == strip_lead_zeros(ip@.skip(j as int)),
        decreases ip@.len() - j,
    {
        assert(ip@.skip(j as int).drop_first() =~= ip@.skip(j as int + 1));
        j = j + 1;
    }
    let ghost i = strip_lead_zeros(ip@);
    assert(i == ip@.skip(j as int));
    let mut e: usize = fp.len();
    assert(fp@.take(fp@.len() as int) =~= fp@);
    while e > 0 && fp[e - 1] == '0'
        invariant
            e <= fp@.len(),
            strip_trail_zeros(fp@) == strip_trail_zeros(fp@.take(e as int)),
        decreases e,
    {
        assert(fp@.take(e as int).drop_last() =~= fp@.take(e as int - 1));
        e = e - 1;
    }
    let ghost f = strip_trail_zeros(fp@);
    assert(f == fp@.take(e as int));
    let ghost start = as_ints(key@);
    key.push(ip.len() - j);
    assert(as_ints(key@) =~= start + seq![i.len() as int]);
    let mut k: usize = j;
    while k < ip.len()
        invariant
            j <= k <= ip@.len(),
            i == ip@.skip(j as int),
            forall|t: int| 0 <= t < ip@.len() ==> crate::text::is_digit(#[trigger] ip@[t]),
            as_ints(key@) =~= start + seq![i.len() as int] + digit_ranks(i).take(k - j),
        decreases ip@.len() - k,
    {
        let ghost before = as_ints(key@);
        let d = ip[k];
        assert(crate::text::is_digit(ip@[k as int]));
        key.push(((d as u32) - 47) as usize);
        assert(digit_ranks(i).take(k + 1 - j) =~= digit_ranks(i).take(k - j).push(digit_rank(ip@[k as int])));
        assert(as_ints(key@) =~= before.push(digit_rank(ip@[k as int])));
        k = k + 1;
    }
    assert(digit_ranks(i).take(ip@.len() - j) =~= digit_ranks(i));
    let ghost mid = as_ints(key@);
    let mut q: usize = 0;
    while q < e
        invariant
            q <= e <= fp@.len(),
            f == fp@.take(e as int),
            forall|t: int| 0 <= t < fp@.len() ==> crate::text::is_digit(#[trigger] fp@[t]),
            as_ints(key@) =~= mid + digit_ranks(f).take(q as int),
        decreases e - q,
    {
        let ghost before = as_ints(key@);
        let d = fp[q];
        assert(crate::text::is_digit(fp@[q as int]));
        key.push(((d as u32) - 47) as usize);
        assert(digit_ranks(f).take(q + 1) =~= digit_ranks(f).take(q as int).push(digit_rank(fp@[q as int])));
        assert(as_ints(key@) =~= before.push(digit_rank(fp@[q as int])));
        q = q + 1;
    }
    assert(digit_ranks(f).take(e as int) =~= digit_ranks(f));
    let ghost last = as_ints(key@);
    key.push(0);
    assert(as_ints(key@) =~= last.push(0));
    assert(as_ints(key@) =~= as_ints(old(key)@) + field_key(ip@, fp@));
}

/// The numeric key of a coordinate segment; see [`num_key`].
pub fn num_key_chars(cs: &[char]) -> (r: Option<Vec<usize>>)
    ensures
        match r {
            Some(v) => num_key(cs@) == Some(as_ints(v@)),
            None => num_key(cs@) is None,
        },
{
    if !is_coord_chars(cs) {
        return None;
    }
    let n = cs.len();
    let ghost inner = coord_inner(cs@);
    let mut key: Vec<usize> = Vec::new();
    let mut ip: Vec<char> = Vec::new();
    let mut fp: Vec<char> = Vec::new();
    let mut frac = false;
    let mut i: usize = 1;
    assert(inner.take(0) =~= Seq::<char>::empty());
    while i < n - 1
        invariant
            n == cs@.len(),
            n >= 3,
            1 <= i <= n - 1,
            inner == cs@.subrange(1, n - 1),
            coord_scan(inner.take(i - 1)) == (as_ints(key@), ip@, fp@, frac, true),
        decreases n - 1 - i,
    {
        let c = cs[i];
        let ghost t = inner.take(i - 1);
        assert(inner.take(i as int) =~= t.push(c));
        assert(t.push(c).drop_last() =~= t);
        proof { lemma_scan_digits(t); }
        assert(ip@ == coord_scan(t).1 && fp@ == coord_scan(t).2 && frac == coord_scan(t).3 && as_ints(key@) == coord_scan(t).0);
        if '0' <= c && c <= '9' {
            if frac { fp.push(c); } else { ip.push(c); }
        } else if c == '.' && !frac && ip.len() > 0 {
            frac = true;
        } else if c == ',' && ip.len() > 0 && (!frac || fp.len() > 0) {
            push_field_key(&mut key, &ip, &fp);
            ip = Vec::new();
            fp = Vec::new();
            frac = false;
            assert(ip@ =~= Seq::<char>::empty() && fp@ =~= Seq::<char>::empty());
        } else {
            proof {
                assert(!coord_scan(inner.take(i as int)).4);
                lemma_scan_stuck(inner, i as int, n - 2);
                assert(inner.take(n - 2) =~= inner);
            }
            return None;
        }
        i = i + 1;
    }
    assert(inner.take(n - 2) =~= inner);
    if ip.len() == 0 || (frac && fp.len() == 0) {
        return None;
    }
    proof { lemma_scan_digits(inner); }
    push_field_key(&mut key, &ip, &fp);
    Some(key)
}

/// Row-major order of member names; see [`coord_order`].
pub fn cmp_coord(a: &str, b: &str) -> (o: Ordering)
    ensures
        o == coord_order(a@, b@),
{
    let ac = chars_of(a);
    let bc = chars_of(b);
    cmp_coord_chars(&ac, &bc)
}

/// The class of a name in member order, given whether it has a numeric key; see
/// [`coord_rank`].
fn rank_of(cs: &[char], numeric: bool) -> (r: u8)
    requires
        numeric == num_key(cs@) is Some,
    ensures
        r as int == coord_rank(cs@),
{
    if numeric { 0 } else if is_coord_chars(cs) { 1 } else { 2 }
}

/// `cmp_coord` over character slices.
pub fn cmp_coord_chars(a: &[char], b: &[char]) -> (o: Ordering)
    ensures
        o == coord_order(a@, b@),
{
    let ka = num_key_chars(a);
    let kb = num_key_chars(b);
    let ra = rank_of(a, ka.is_some());
    let rb = rank_of(b, kb.is_some());
    if ra < rb {
        return Ordering::Less;
    }
    if ra > rb {
        return Ordering::Greater;
    }
    match (ka, kb) {
        (Some(x), Some(y)) => {
            let o = key_lex_cmp(&x, &y);
            match o {
                Ordering::Equal => char_lex_cmp(a, b),
                _ => o,
            }
        },
        _ => char_lex_cmp(a, b),
    }
}

/// Coordinates `c` lie inside `dims`: same number of axes, each in `0..dims[i]`.
pub open spec fn coord_in_dims_spec(c: Seq<i64>, d: Seq<i32>) -> bool {
    c.len() == d.len() && forall|i: int| 0 <= i < c.len() ==> 0 <= #[trigger] c[i] < d[i]
}

/// Whether the coordinates lie inside `dims` (same rank, each axis in range).
pub fn coord_in_dims(coords: &[i64], dims: &[i32]) -> (b: bool)
    ensures
        b == coord_in_dims_spec(coords@, dims@),
{
    if coords.len() != dims.len() {
        return false;
    }
    let mut i: usize = 0;
    while i < coords.len()
        invariant
            coords.len() == dims.len(),
            i <= coords.len(),
            forall|k: int| 0 <= k < i ==> 0 <= #[trigger] coords@[k] < dims@[k],
        decreases coords.len() - i,
    {
        let d: i64 = dims[i] as i64;
        if coords[i] < 0 || coords[i] >= d {
            return false;
        }
        i = i + 1;
    }
    true
}

/// One-axis dims that hold coordinate `v`: `max(dims[0], v + 1)`, or `v + 1` when empty.
/// `v` is taken as `i32` (truncated), as the key format stores dims as `i32`.
pub fn grow_dim(dims: &[i32], v: i64) -> (r: Vec<i32>)
    requires
        (v as i32) < i32::MAX,
    ensures
        dims@.len() == 0 ==> r@ == seq![((v as i32) + 1) as i32],
        dims@.len() > 0 ==> r@ == seq![if dims@[0] >= (v as i32) + 1 { dims@[0] } else { ((v as i32) + 1) as i32 }],
{
    let w: i32 = v as i32;
    let n: i32 = w + 1;
    if dims.len() == 0 {
        vec![n]
    } else if dims[0] >= n {
        vec![dims[0]]
    } else {
        vec![n]
    }
}

/// Every integer coordinate found in `names` leaves room for `+ 1` in `i32`.
pub open spec fn coords_fit(names: Seq<Seq<char>>) -> bool {
    forall|j: int, k: int|
        0 <= j < names.len() && parse_coord_spec(names[j]) is Some
            && 0 <= k < parse_coord_spec(names[j])->0.len()
        ==> (#[trigger] parse_coord_spec(names[j])->0[k] as i32) < i32::MAX
}

/// Whether every integer coordinate of a name leaves room for `+ 1` in `i32`.
pub fn coords_fit_name(name: &str) -> (r: bool)
    ensures
        r == coords_fit(seq![name@]),
{
    match parse_coord(name) {
        None => true,
        Some(co) => {
            let mut k: usize = 0;
            while k < co.len()
                invariant
                    k <= co@.len(),
                    parse_coord_spec(name@) is Some,
                    co@ == parse_coord_spec(name@)->0,
                    forall|t: int| 0 <= t < k ==> (co@[t] as i32) < i32::MAX,
                decreases co@.len() - k,
            {
                if (co[k] as i32) == i32::MAX {
                    assert(seq![name@][0] == name@);
                    assert(!((parse_coord_spec(seq![name@][0])->0[k as int] as i32) < i32::MAX));
                    assert(!coords_fit(seq![name@]));
                    return false;
                }
                k = k + 1;
            }
            true
        },
    }
}

/// Every name of a list leaves room for `+ 1` in its coordinates exactly when each one
/// alone does.
pub proof fn lemma_coords_fit_each(names: Seq<Seq<char>>)
    ensures
        coords_fit(names) <==> forall|i: int| 0 <= i < names.len() ==> coords_fit(seq![#[trigger] names[i]]),
{
    if coords_fit(names) {
        assert forall|i: int| 0 <= i < names.len() implies coords_fit(seq![#[trigger] names[i]]) by {
            assert forall|j: int, k: int| 0 <= j < 1 && parse_coord_spec(seq![names[i]][j]) is Some
                && 0 <= k < parse_coord_spec(seq![names[i]][j])->0.len()
                implies (#[trigger] parse_coord_spec(seq![names[i]][j])->0[k] as i32) < i32::MAX by {
                assert(seq![names[i]][j] == names[i]);
            }
        }
    }
    if forall|i: int| 0 <= i < names.len() ==> coords_fit(seq![#[trigger] names[i]]) {
        assert forall|j: int, k: int| 0 <= j < names.len() && parse_coord_spec(names[j]) is Some
            && 0 <= k < parse_coord_spec(names[j])->0.len()
            implies (#[trigger] parse_coord_spec(names[j])->0[k] as i32) < i32::MAX by {
            assert(coords_fit(seq![names[j]]));
            assert(seq![names[j]][0] == names[j]);
        }
    }
}

/// Dims after taking one name into account.
pub open spec fn grow_by_name(d: Seq<i32>, n: Seq<char>) -> Seq<i32> {
    match parse_coord_spec(n) {
        None => d,
        Some(co) => {
            let d0 = if d.len() == 0 { Seq::new(co.len(), |i: int| 0i32) } else { d };
            if co.len() == d0.len() {
                Seq::new(d0.len(), |i: int|
                    if d0[i] >= (co[i] as i32) + 1 { d0[i] } else { ((co[i] as i32) + 1) as i32 })
            } else {
                d0
            }
        },
    }
}

/// Dims after taking all names in order.
pub open spec fn grow_by_names(d: Seq<i32>, names: Seq<Seq<char>>) -> Seq<i32>
    decreases names.len(),
{
    if names.len() == 0 {
        d
    } else {
        grow_by_name(grow_by_names(d, names.drop_last()), names.last())
    }
}

/// The dims a set of coordinate members spans; one axis of `names.len()` when none parses.
pub open spec fn grow_coord_dims_spec(d: Seq<i32>, names: Seq<Seq<char>>) -> Seq<i32> {
    let g = grow_by_names(d, names);
    if g.len() == 0 { seq![names.len() as i32] } else { g }
}

/// The views of a slice of strings.
pub open spec fn views(v: Seq<String>) -> Seq<Seq<char>> {
    Seq::new(v.len(), |i: int| v[i]@)
}

/// Dims spanned by coordinate members: per axis the largest integer coordinate plus one,
/// starting from `dims` (or from the first integer segment's rank when `dims` is empty);
/// one axis of the member count when no member is an integer segment.
pub fn grow_coord_dims(dims: &[i32], names: &[String]) -> (r: Vec<i32>)
    requires
        coords_fit(views(names@)),
    ensures
        r@ == grow_coord_dims_spec(dims@, views(names@)),
{
    let ghost ns = views(names@);
    let mut d: Vec<i32> = vstd::slice::slice_to_vec(dims);
    let mut j: usize = 0;
    while j < names.len()
        invariant
            j <= names.len(),
            ns == views(names@),
            coords_fit(ns),
            d@ == grow_by_names(dims@, ns.take(j as int)),
        decreases names.len() - j,
    {
        assert(ns.take(j as int + 1).drop_last() == ns.take(j as int));
        assert(ns.take(j as int + 1).last() == names@[j as int]@);
        let co = parse_coord(names[j].as_str());
        match co {
            None => {},
            Some(co) => {
                if d.len() == 0 {
                    d = Vec::new();
                    let mut k: usize = 0;
                    while k < co.len()
                        invariant
                            k <= co.len(),
                            d@ == Seq::new(k as nat, |i: int| 0i32),
                        decreases co.len() - k,
                    {
                        d.push(0);
                        k = k + 1;
                    }
                }
                if co.len() == d.len() {
                    let ghost d0 = d@;
                    let mut k: usize = 0;
                    while k < co.len()
                        invariant
                            co.len() == d.len(),
                            d0.len() == d@.len(),
                            k <= co.len(),
                            co@ == parse_coord_spec(names@[j as int]@)->0,
                            parse_coord_spec(names@[j as int]@) is Some,
                            coords_fit(ns),
                            ns == views(names@),
                            j < names.len(),
                            forall|i: int| 0 <= i < k ==> #[trigger] d@[i] == (if d0[i] >= (co@[i] as i32) + 1 { d0[i] } else { ((co@[i] as i32) + 1) as i32 }),
                            forall|i: int| k <= i < d@.len() ==> #[trigger] d@[i] == d0[i],
                        decreases co.len() - k,
                    {
                        assert(ns[j as int] == names@[j as int]@);
                        assert((parse_coord_spec(ns[j as int])->0[k as int] as i32) < i32::MAX);
                        let w: i32 = co[k] as i32;
                        let n: i32 = w + 1;
                        if d[k] < n {
                            d.set(k, n);
                        }
                        k = k + 1;
                    }
                    assert(d@ =~= Seq::new(d0.len(), |i: int|
                        if d0[i] >= (co@[i] as i32) + 1 { d0[i] } else { ((co@[i] as i32) + 1) as i32 }));
                }
            },
        }
        j = j + 1;
    }
    assert(ns.take(names.len() as int) == ns);
    if d.len() == 0 {
        let n: i32 = names.len() as i32;
        return vec![n];
    }
    d
}

/// A name usable as an `objindex` member: non-empty; none of `/`, the member separator `·`,
/// `[ ] \n \r \0`, U+2025, U+2026 or an ASCII control character (`.` is allowed).
pub open spec fn valid_member_name_spec(s: Seq<char>) -> bool {
    &&& s.len() > 0
    &&& forall|k: int| 0 <= k < s.len() ==> !forbidden_member_char(#[trigger] s[k])
}

/// Characters an `objindex` member name may not hold.
pub open spec fn forbidden_member_char(c: char) -> bool {
    c == '/' || c == '\u{b7}' || c == '[' || c == ']' || c == '\n' || c == '\r' || c == '\0'
        || c == '\u{2025}' || c == '\u{2026}' || (c as u32) < 0x20
}

/// Whether `name` obeys the `objindex` member-name constraints.
pub fn valid_member_name(name: &str) -> (b: bool)
    ensures
        b == valid_member_name_spec(name@),
{
    let cs = chars_of(name);
    if cs.len() == 0 {
        return false;
    }
    let mut i: usize = 0;
    while i < cs.len()
        invariant
            i <= cs.len(),
            cs@ == name@,
            forall|k: int| 0 <= k < i ==> !forbidden_member_char(#[trigger] cs@[k]),
        decreases cs.len() - i,
    {
        let c = cs[i];
        if c == '/' || c == '\u{b7}' || c == '[' || c == ']' || c == '\n' || c == '\r' || c == '\0'
            || c == '\u{2025}' || c == '\u{2026}' || (c as u32) < 0x20 {
            return false;
        }
        i = i + 1;
    }
    true
}

} // verus!
