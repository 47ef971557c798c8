//! Character-level helpers for building and inspecting strings, and the decimal notation
//! that the key formats use for integers.

use vstd::prelude::*;
use vstd::utf8::*;

verus! {

/// The characters of `s`, in order.
pub fn chars_of(s: &str) -> (v: Vec<char>)
    ensures
        v@ == s@,
{
    let mut v: Vec<char> = Vec::new();
    for c in it: s.chars()
        invariant
            v@ == it.seq().take(it.index() as int),
    {
        v.push(c);
    }
    v
}

/// Appends one character to a string (`String::push`).
#[verifier::external_body]
pub(crate) fn push_char(s: &mut String, c: char)
    ensures
        final(s)@ == old(s)@.push(c),
{
    s.push(c);
}

/// Appends a string slice (`String::push_str`).
#[verifier::external_body]
pub(crate) fn push_str(s: &mut String, t: &str)
    ensures
        final(s)@ == old(s)@ + t@,
{
    s.push_str(t);
}

/// What `String::from_utf8_lossy` makes of a byte sequence that is not valid UTF-8: a
/// function of the bytes alone.
pub uninterp spec fn lossy_utf8(b: Seq<u8>) -> Seq<char>;

/// The text of a byte sequence: its UTF-8 decoding, or the lossy one when invalid.
pub open spec fn decode_text(b: Seq<u8>) -> Seq<char> {
    if valid_utf8(b) { decode_utf8(b) } else { lossy_utf8(b) }
}

/// Decodes bytes as UTF-8 with `String::from_utf8_lossy`. Valid UTF-8 decodes exactly; what
/// an invalid sequence becomes (U+FFFD replacements) is only named, not spelled out.
#[verifier::external_body]
pub(crate) fn utf8_lossy(b: &[u8]) -> (s: String)
    ensures
        valid_utf8(b@) ==> s@ == decode_utf8(b@),
        !valid_utf8(b@) ==> s@ == lossy_utf8(b@),
{
    String::from_utf8_lossy(b).into_owned()
}

/// What `format!("{:?}", s)` makes of text: the text in double quotes, with the escapes of
/// `str`'s `Debug` (for `"`, `\\`, control and non-printable characters); a function of the
/// text alone.
pub uninterp spec fn debug_text(s: Seq<char>) -> Seq<char>;

/// Renders text as its `Debug` form (`format!("{:?}", s)`); the result is only named.
#[verifier::external_body]
pub(crate) fn debug_quoted(s: &str) -> (r: String)
    ensures
        r@ == debug_text(s@),
{
    format!("{:?}", s)
}

/// A string holding exactly the characters of `v`.
pub fn string_from_chars(v: &[char]) -> (s: String)
    ensures
        s@ == v@,
{
    let mut s = String::new();
    let mut i: usize = 0;
    while i < v.len()
        invariant
            i <= v.len(),
            s@ == v@.take(i as int),
        decreases v.len() - i,
    {
        push_char(&mut s, v[i]);
        i = i + 1;
        assert(s@ == v@.take(i as int));
    }
    assert(v@.take(v.len() as int) == v@);
    s
}

/// A copy of `t` as an owned string.
pub fn string_of(t: &str) -> (s: String)
    ensures
        s@ == t@,
{
    let mut s = String::new();
    push_str(&mut s, t);
    assert(s@ == t@);
    s
}

/// The decimal digit character for `d` (0..=9).
pub open spec fn digit_char(d: int) -> char {
    ((d + 48) as u8) as char
}

/// Decimal notation of a natural number, most significant digit first, no leading zeros.
pub open spec fn nat_to_decimal(n: nat) -> Seq<char>
    decreases n,
{
    if n < 10 {
        seq![digit_char(n as int)]
    } else {
        nat_to_decimal(n / 10).push(digit_char((n % 10) as int))
    }
}

/// Decimal notation of an integer, with a leading `-` when negative.
pub open spec fn int_to_decimal(i: int) -> Seq<char> {
    if i < 0 {
        seq!['-'] + nat_to_decimal((-i) as nat)
    } else {
        nat_to_decimal(i as nat)
    }
}

/// Appends the decimal notation of `n`.
pub fn push_u64(s: &mut String, n: u64)
    ensures
        final(s)@ == old(s)@ + nat_to_decimal(n as nat),
    decreases n,
{
    if n >= 10 {
        push_u64(s, n / 10);
    }
    let d: u8 = (n % 10) as u8;
    push_char(s, (d + 48) as char);
    assert(final(s)@ == old(s)@ + nat_to_decimal(n as nat));
}

/// Appends the decimal notation of `i`.
pub fn push_i64(s: &mut String, i: i64)
    ensures
        final(s)@ == old(s)@ + int_to_decimal(i as int),
{
    if i < 0 {
        push_char(s, '-');
        let m: i128 = -(i as i128);
        push_u64(s, m as u64);
        assert(final(s)@ == old(s)@ + int_to_decimal(i as int));
    } else {
        push_u64(s, i as u64);
    }
}

/// True when `c` is an ASCII decimal digit.
pub open spec fn is_digit(c: char) -> bool {
    '0' <= c <= '9'
}

/// The value of a sequence of decimal digits (most significant first).
pub open spec fn decimal_value(s: Seq<char>) -> int
    decreases s.len(),
{
    if s.len() == 0 {
        0
    } else {
        decimal_value(s.drop_last()) * 10 + (s.last() as int - 48)
    }
}

/// Parses a non-empty all-digit run as an `i64`; `None` when a character is not a digit,
/// when the run is empty, or when the value does not fit.
pub fn parse_i64_digits(s: &[char]) -> (r: Option<i64>)
    ensures
        r is Some <==> (s@.len() > 0 && (forall|k: int| 0 <= k < s@.len() ==> is_digit(#[trigger] s@[k]))
            && decimal_value(s@) <= i64::MAX),
        r matches Some(v) ==> v as int == decimal_value(s@),
{
    if s.len() == 0 {
        return None;
    }
    let mut v: i64 = 0;
    let mut i: usize = 0;
    while i < s.len()
        invariant
            i <= s.len(),
            forall|k: int| 0 <= k < i ==> is_digit(#[trigger] s@[k]),
            v as int == decimal_value(s@.take(i as int)),
            0 <= v,
        decreases s.len() - i,
    {
        let c = s[i];
        assert(s@.take(i as int + 1).drop_last() == s@.take(i as int));
        if !('0' <= c && c <= '9') {
            return None;
        }
        let d: i64 = (c as u32 - 48) as i64;
        if v > (i64::MAX - d) / 10 {
            proof {
                if forall|k: int| 0 <= k < s@.len() ==> is_digit(#[trigger] s@[k]) {
                    lemma_decimal_prefix_grows(s@, i as int + 1);
                }
            }
            return None;
        }
        v = v * 10 + d;
        i = i + 1;
    }
    assert(s@.take(s.len() as int) == s@);
    Some(v)
}

/// Extending an all-digit prefix never makes its value smaller.
pub proof fn lemma_decimal_prefix_grows(s: Seq<char>, n: int)
    requires
        0 <= n <= s.len(),
        forall|k: int| 0 <= k < s.len() ==> is_digit(#[trigger] s[k]),
    ensures
        decimal_value(s.take(n)) <= decimal_value(s),
        0 <= decimal_value(s.take(n)),
    decreases s.len() - n,
{
    lemma_decimal_nonneg(s.take(n));
    if n < s.len() {
        lemma_decimal_prefix_grows(s, n + 1);
        assert(s.take(n + 1).drop_last() == s.take(n));
    } else {
        assert(s.take(n) == s);
    }
}

/// A run of digits has a non-negative value.
pub proof fn lemma_decimal_nonneg(s: Seq<char>)
    requires
        forall|k: int| 0 <= k < s.len() ==> is_digit(#[trigger] s[k]),
    ensures
        0 <= decimal_value(s),
    decreases s.len(),
{
    if s.len() > 0 {
        lemma_decimal_nonneg(s.drop_last());
        assert(is_digit(s[s.len() - 1]));
    }
}


/// Whether two strings hold the same characters.
pub fn str_eq(a: &str, b: &str) -> (r: bool)
    ensures
        r == (a@ == b@),
{
    let ac = chars_of(a);
    let bc = chars_of(b);
    chars_eq(&ac, &bc)
}

/// Whether two character slices are equal.
pub fn chars_eq(a: &[char], b: &[char]) -> (r: bool)
    ensures
        r == (a@ == b@),
{
    if a.len() != b.len() {
        return false;
    }
    let mut i: usize = 0;
    while i < a.len()
        invariant
            a.len() == b.len(),
            i <= a.len(),
            forall|k: int| 0 <= k < i ==> a@[k] == b@[k],
        decreases a.len() - i,
    {
        if a[i] != b[i] {
            return false;
        }
        i = i + 1;
    }
    assert(a@ =~= b@);
    true
}

/// Whether `s` holds the character `c`.
pub fn contains_char(s: &[char], c: char) -> (r: bool)
    ensures
        r == s@.contains(c),
{
    let mut i: usize = 0;
    while i < s.len()
        invariant
            i <= s.len(),
            forall|k: int| 0 <= k < i ==> s@[k] != c,
        decreases s.len() - i,
    {
        if s[i] == c {
            assert(s@[i as int] == c);
            return true;
        }
        i = i + 1;
    }
    false
}

/// The index of the first `c` in `s`.
pub open spec fn find_char(s: Seq<char>, c: char) -> Option<nat>
    decreases s.len(),
{
    if s.len() == 0 {
        None
    } else if s[0] == c {
        Some(0)
    } else {
        match find_char(s.drop_first(), c) {
            Some(i) => Some(i + 1),
            None => None,
        }
    }
}

/// `find_char` finds the first occurrence.
pub proof fn lemma_find_char(s: Seq<char>, c: char)
    ensures
        find_char(s, c) matches Some(i) ==> i < s.len() && s[i as int] == c
            && forall|k: int| 0 <= k < i ==> s[k] != c,
        find_char(s, c) is None ==> !s.contains(c),
    decreases s.len(),
{
    if s.len() > 0 {
        lemma_find_char(s.drop_first(), c);
        if s[0] != c {
            if let Some(i) = find_char(s.drop_first(), c) {
                assert forall|k: int| 0 <= k < i + 1 implies s[k] != c by {
                    if k > 0 {
                        assert(s[k] == s.drop_first()[k - 1]);
                    }
                }
            }
            if find_char(s.drop_first(), c) is None {
                assert forall|k: int| 0 <= k < s.len() implies s[k] != c by {
                    if k > 0 {
                        assert(s[k] == s.drop_first()[k - 1]);
                    }
                }
            }
        }
    }
}

/// The index of the first `c` in `s`, if any.
pub fn find_char_index(s: &[char], c: char) -> (r: Option<usize>)
    ensures
        r matches Some(i) ==> find_char(s@, c) == Some(i as nat),
        r is None ==> find_char(s@, c) is None,
{
    let mut i: usize = 0;
    while i < s.len()
        invariant
            i <= s.len(),
            forall|k: int| 0 <= k < i ==> s@[k] != c,
        decreases s.len() - i,
    {
        if s[i] == c {
            proof { lemma_find_char_at(s@, c, i as int); }
            return Some(i);
        }
        i = i + 1;
    }
    proof { lemma_find_char_none(s@, c); }
    None
}

/// The first occurrence is at `i` when `s[i] == c` and no earlier character is `c`.
pub proof fn lemma_find_char_at(s: Seq<char>, c: char, i: int)
    requires
        0 <= i < s.len(),
        s[i] == c,
        forall|k: int| 0 <= k < i ==> s[k] != c,
    ensures
        find_char(s, c) == Some(i as nat),
    decreases i,
{
    if i > 0 {
        lemma_find_char_at(s.drop_first(), c, i - 1);
    }
}

/// No occurrence means `find_char` is `None`.
pub proof fn lemma_find_char_none(s: Seq<char>, c: char)
    requires
        forall|k: int| 0 <= k < s.len() ==> s[k] != c,
    ensures
        find_char(s, c) is None,
    decreases s.len(),
{
    if s.len() > 0 {
        lemma_find_char_none(s.drop_first(), c);
    }
}

/// Unicode `White_Space` (what `char::is_whitespace` and `str::trim` use).
pub open spec fn is_white(c: char) -> bool {
    ('\u{9}' <= c <= '\u{d}') || c == ' ' || c == '\u{85}' || c == '\u{a0}' || c == '\u{1680}'
        || ('\u{2000}' <= c <= '\u{200a}') || c == '\u{2028}' || c == '\u{2029}' || c == '\u{202f}'
        || c == '\u{205f}' || c == '\u{3000}'
}

/// `s` without leading white space.
pub open spec fn trim_start(s: Seq<char>) -> Seq<char>
    decreases s.len(),
{
    if s.len() > 0 && is_white(s[0]) { trim_start(s.drop_first()) } else { s }
}

/// `s` without trailing white space.
pub open spec fn trim_end(s: Seq<char>) -> Seq<char>
    decreases s.len(),
{
    if s.len() > 0 && is_white(s.last()) { trim_end(s.drop_last()) } else { s }
}

/// `s` without leading and trailing white space.
pub open spec fn trim(s: Seq<char>) -> Seq<char> {
    trim_end(trim_start(s))
}

/// Whether `c` is white space.
pub fn is_white_char(c: char) -> (r: bool)
    ensures
        r == is_white(c),
{
    ('\u{9}' <= c && c <= '\u{d}') || c == ' ' || c == '\u{85}' || c == '\u{a0}' || c == '\u{1680}'
        || ('\u{2000}' <= c && c <= '\u{200a}') || c == '\u{2028}' || c == '\u{2029}' || c == '\u{202f}'
        || c == '\u{205f}' || c == '\u{3000}'
}

/// Trims white space at both ends of a character slice.
pub fn trim_chars(s: &[char]) -> (r: Vec<char>)
    ensures
        r@ == trim(s@),
{
    let mut a: usize = 0;
    assert(s@.skip(0) == s@);
    while a < s.len() && is_white_char(s[a])
        invariant
            a <= s.len(),
            trim_start(s@) == trim_start(s@.skip(a as int)),
        decreases s.len() - a,
    {
        assert(s@.skip(a as int).drop_first() == s@.skip(a as int + 1));
        a = a + 1;
    }
    assert(trim_start(s@.skip(a as int)) == s@.skip(a as int));
    let mut b: usize = s.len();
    while b > a && is_white_char(s[b - 1])
        invariant
            a <= b <= s.len(),
            trim(s@) == trim_end(s@.subrange(a as int, b as int)),
        decreases b,
    {
        assert(s@.subrange(a as int, b as int).drop_last() == s@.subrange(a as int, b - 1));
        b = b - 1;
    }
    assert(trim_end(s@.subrange(a as int, b as int)) == s@.subrange(a as int, b as int));
    let mut r: Vec<char> = Vec::new();
    let mut i: usize = a;
    while i < b
        invariant
            a <= i <= b <= s.len(),
            r@ == s@.subrange(a as int, i as int),
        decreases b - i,
    {
        r.push(s[i]);
        i = i + 1;
        assert(r@ =~= s@.subrange(a as int, i as int));
    }
    r
}

/// All characters are decimal digits.
pub open spec fn all_digits(s: Seq<char>) -> bool {
    forall|k: int| 0 <= k < s.len() ==> is_digit(#[trigger] s[k])
}

/// What `str::parse::<i32>` gives: an optional sign and a non-empty run of digits in range.
pub open spec fn parse_i32_spec(p: Seq<char>) -> Option<i32> {
    if p.len() > 0 && p[0] == '-' {
        let r = p.drop_first();
        if r.len() > 0 && all_digits(r) && decimal_value(r) <= 0x8000_0000 {
            Some((-decimal_value(r)) as i32)
        } else {
            None
        }
    } else if p.len() > 0 && p[0] == '+' {
        let r = p.drop_first();
        if r.len() > 0 && all_digits(r) && decimal_value(r) <= i32::MAX {
            Some(decimal_value(r) as i32)
        } else {
            None
        }
    } else if p.len() > 0 && all_digits(p) && decimal_value(p) <= i32::MAX {
        Some(decimal_value(p) as i32)
    } else {
        None
    }
}

/// Parses an `i32` the way `str::parse::<i32>` does.
pub fn parse_i32_chars(p: &[char]) -> (r: Option<i32>)
    ensures
        r == parse_i32_spec(p@),
{
    if p.len() == 0 {
        return None;
    }
    let neg = p[0] == '-';
    let start: usize = if p[0] == '-' || p[0] == '+' { 1 } else { 0 };
    let mut rest: Vec<char> = Vec::new();
    let mut i: usize = start;
    while i < p.len()
        invariant
            start <= i <= p.len(),
            rest@ == p@.subrange(start as int, i as int),
        decreases p.len() - i,
    {
        rest.push(p[i]);
        i = i + 1;
        assert(rest@ =~= p@.subrange(start as int, i as int));
    }
    if start == 1 {
        assert(rest@ == p@.drop_first());
    } else {
        assert(rest@ == p@);
    }
    match parse_i64_digits(&rest) {
        None => {
            None
        },
        Some(v) => {
            proof { lemma_decimal_nonneg(rest@); }
            if neg {
                if v <= 0x8000_0000 {
                    let w: i64 = -v;
                    Some(w as i32)
                } else {
                    None
                }
            } else {
                if v <= 0x7fff_ffff {
                    Some(v as i32)
                } else {
                    None
                }
            }
        },
    }
}

} // verus!
