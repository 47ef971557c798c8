//! `duration` values: signed nanosecond counts (little-endian `i64`), and their text in the
//! form `1h2m3.5s`, `1.5ms`, `800ns`.

use vstd::prelude::*;
use crate::codec::{decode_signed, encode_signed, signed_body, signed_fits};
use crate::consts::KIND_DURATION;
use crate::text::{digit_char, nat_to_decimal, push_char, push_u64};
use crate::xvalue::{Opaque, XValue, XV};
use crate::xvalue_codec::{tlv_encode, tlv_spec};
use crate::xvalue_int::int64_vals;

verus! {

/// `10^k`.
pub open spec fn pow10(k: nat) -> nat
    decreases k,
{
    if k == 0 { 1 } else { 10 * pow10((k - 1) as nat) }
}

/// The last `k` decimal digits of `r`, most significant first, zero-padded.
pub open spec fn padded_digits(r: nat, k: nat) -> Seq<char>
    decreases k,
{
    if k == 0 { seq![] } else { padded_digits(r / 10, (k - 1) as nat).push(digit_char((r % 10) as int)) }
}

/// `s` without its trailing `0` characters.
pub open spec fn strip_zeros(s: Seq<char>) -> Seq<char>
    decreases s.len(),
{
    if s.len() > 0 && s.last() == '0' { strip_zeros(s.drop_last()) } else { s }
}

/// The fractional part of `v / 10^prec`: `.` and its `prec` digits without trailing zeros;
/// empty when they are all zero.
pub open spec fn frac_text(v: nat, prec: nat) -> Seq<char> {
    let d = strip_zeros(padded_digits(v % pow10(prec), prec));
    if d.len() == 0 { seq![] } else { seq!['.'] + d }
}

/// The body of `duration` values (nanoseconds).
pub open spec fn duration_body(d: Seq<i64>) -> Seq<u8> {
    signed_body(d.map_values(|v: i64| v as int), 8)
}

/// A `duration` value, kept as an opaque value of kind `duration` with one element per
/// count.
pub fn new_duration(v: &[i64]) -> (x: XValue)
    ensures
        x@ == XV::Opaque(KIND_DURATION@, duration_body(v@), v@.len() as i32),
{
    let raw = i64_body(v);
    XValue::Opaque(Opaque {
        kind: crate::text::string_of(KIND_DURATION),
        body: raw,
        array_len: #[verifier::truncate] (v.len() as i32),
    })
}

/// The body of `i64` values.
pub fn i64_body(v: &[i64]) -> (b: Vec<u8>)
    ensures
        b@ == duration_body(v@),
{
    proof {
        crate::le::lemma_pow256_values();
        assert forall|k: int| 0 <= k < v@.len() implies signed_fits(#[trigger] v@[k] as int, 8) by {}
    }
    encode_signed(v, 8)
}

/// The `duration` values of a body (a trailing partial word is ignored).
pub fn decode_duration(body: &[u8]) -> (r: Vec<i64>)
    ensures
        r@ == int64_vals(body@),
{
    let w = decode_signed(body, 8);
    assert(w@ =~= int64_vals(body@)) by {
        assert forall|k: int| 0 <= k < w@.len() implies w@[k] == int64_vals(body@)[k] by {
            assert(w@.map_values(|v: i64| v as int)[k] == w@[k] as int);
        }
    }
    w
}

/// Encodes `duration` values: kind `duration`, one element per count.
pub fn encode_duration(data: &[i64]) -> (b: Vec<u8>)
    requires
        8 * data@.len() + 200 <= usize::MAX,
    ensures
        b@ == tlv_spec(KIND_DURATION@, duration_body(data@), data@.len() as i32),
{
    let raw = i64_body(data);
    proof {
        reveal_strlit("duration");
        crate::le::lemma_words_le_len(crate::codec::signed_words(data@.map_values(|v: i64| v as int), 8), 8);
    }
    tlv_encode(KIND_DURATION, &raw, #[verifier::truncate] (data.len() as i32))
}

/// The fractional digits and the integral part of `v / 10^prec`.
pub fn fmt_frac(v: u64, prec: u32) -> (r: (Vec<char>, u64))
    requires
        prec <= 9,
    ensures
        r.0@ == frac_text(v as nat, prec as nat),
        r.1 as nat == v as nat / pow10(prec as nat),
{
    let mut pow: u64 = 1;
    let mut k: u32 = 0;
    while k < prec
        invariant
            k <= prec <= 9,
            pow as nat == pow10(k as nat),
            1 <= pow <= 1_000_000_000,
        decreases prec - k,
    {
        assert(pow10(k as nat + 1) == 10 * pow10(k as nat));
        assert(pow10(k as nat) <= 100_000_000) by {
            lemma_pow10_le(k as nat, 8);
            reveal_with_fuel(pow10, 9);
        }
        pow = pow * 10;
        k = k + 1;
    }
    let int_part = v / pow;
    let rem0 = v % pow;
    let mut rem = rem0;
    assert(pow10(0) == 1);
    assert(rem0 as nat / 1 == rem0 as nat);
    let mut digits: Vec<char> = Vec::new();
    let mut i: u32 = 0;
    proof { lemma_pow10_pos(prec as nat); }
    while i < prec
        invariant
            i <= prec <= 9,
            pow as nat == pow10(prec as nat),
            rem0 as nat == v as nat % pow10(prec as nat),
            rem as nat == rem0 as nat / pow10(i as nat),
            strip_zeros(padded_digits(rem0 as nat, prec as nat))
                == strip_zeros(padded_digits(rem as nat, (prec - i) as nat) + rev(digits@)),
            digits@.len() > 0 ==> digits@[0] != '0',
        decreases prec - i,
    {
        let digit = rem % 10;
        proof { lemma_digits_step(rem as nat, (prec - i) as nat, digits@); }
        rem = rem / 10;
        proof {
            lemma_pow10_pos(i as nat);
            vstd::arithmetic::div_mod::lemma_div_denominator(rem0 as int, pow10(i as nat) as int, 10);
            assert(pow10(i as nat + 1) == pow10(i as nat) * 10);
        }
        if digit != 0 || digits.len() > 0 {
            let c = ((digit as u8) + 48) as char;
            assert(c == digit_char(digit as int));
            let ghost before = digits@;
            digits.push(c);
            proof { lemma_rev_push(before, c); }
        } else {
            proof { lemma_strip_zero_front(padded_digits(rem as nat, (prec - i - 1) as nat), digits@); }
        }
        i = i + 1;
    }
    assert(padded_digits(rem as nat, 0) == Seq::<char>::empty());
    assert(Seq::<char>::empty() + rev(digits@) == rev(digits@));
    let mut out: Vec<char> = Vec::new();
    proof { lemma_strip_rev(digits@); }
    if digits.len() > 0 {
        out.push('.');
        let mut j: usize = digits.len();
        while j > 0
            invariant
                j <= digits@.len(),
                out@ == seq!['.'] + rev(digits@.skip(j as int)),
            decreases j,
        {
            j = j - 1;
            let ghost before = out@;
            out.push(digits[j]);
            proof {
                assert(digits@.skip(j as int) == seq![digits@[j as int]] + digits@.skip(j as int + 1));
                lemma_rev_cons(digits@[j as int], digits@.skip(j as int + 1));
            }
            assert(out@ =~= seq!['.'] + rev(digits@.skip(j as int)));
        }
        assert(digits@.skip(0) == digits@);
    }
    (out, int_part)
}

/// The magnitude of a signed count.
pub open spec fn abs_nat(d: i64) -> nat {
    if d < 0 { (-(d as int)) as nat } else { d as nat }
}

/// The text of a duration of `d` nanoseconds: `0s`; under a second `800ns`, `1.5µs`,
/// `2.25ms` (trailing fractional zeros dropped); else `[Hh][Mm]S[.fff]s` with hours and
/// minutes only when non-zero; `-` in front of a negative duration.
pub open spec fn duration_text(d: i64) -> Seq<char> {
    let u = abs_nat(d);
    let body = if u < 1_000_000_000 {
        if u == 0 {
            seq!['0', 's']
        } else {
            let prec: nat = if u < 1000 { 0 } else if u < 1_000_000 { 3 } else { 6 };
            let unit: char = if u < 1000 { 'n' } else if u < 1_000_000 { '\u{00B5}' } else { 'm' };
            nat_to_decimal(u / pow10(prec)) + frac_text(u, prec) + seq![unit, 's']
        }
    } else {
        let secs = u / pow10(9);
        let b = nat_to_decimal(secs % 60) + frac_text(u, 9) + seq!['s'];
        let mins = secs / 60;
        if mins > 0 {
            let b2 = nat_to_decimal(mins % 60) + seq!['m'] + b;
            let hours = mins / 60;
            if hours > 0 { nat_to_decimal(hours) + seq!['h'] + b2 } else { b2 }
        } else {
            b
        }
    };
    if d < 0 { seq!['-'] + body } else { body }
}

/// Appends characters.
fn push_chars(s: &mut String, c: &[char])
    ensures
        final(s)@ == old(s)@ + c@,
{
    let mut i: usize = 0;
    while i < c.len()
        invariant
            i <= c.len(),
            s@ == old(s)@ + c@.take(i as int),
        decreases c.len() - i,
    {
        push_char(s, c[i]);
        i = i + 1;
        assert(s@ =~= old(s)@ + c@.take(i as int));
    }
    assert(c@.take(c.len() as int) == c@);
}

/// The text of a duration; see [`duration_text`].
pub fn duration_string(d: i64) -> (s: String)
    ensures
        s@ == duration_text(d),
{
    let neg = d < 0;
    let u: u64 = if neg { (-(d as i128)) as u64 } else { d as u64 };
    assert(u as nat == abs_nat(d));
    let mut s = String::new();
    if neg {
        push_char(&mut s, '-');
    }
    let ghost start = s@;
    proof {
        reveal_with_fuel(pow10, 10);
    }
    if u < 1_000_000_000 {
        if u == 0 {
            push_char(&mut s, '0');
            push_char(&mut s, 's');
            return s;
        }
        let prec: u32 = if u < 1000 { 0 } else if u < 1_000_000 { 3 } else { 6 };
        let unit: char = if u < 1000 { 'n' } else if u < 1_000_000 { '\u{00B5}' } else { 'm' };
        let (frac, int_part) = fmt_frac(u, prec);
        push_u64(&mut s, int_part);
        push_chars(&mut s, &frac);
        push_char(&mut s, unit);
        push_char(&mut s, 's');
        assert(s@ =~= start + (nat_to_decimal(int_part as nat) + frac@ + seq![unit, 's']));
        s
    } else {
        let (frac, secs) = fmt_frac(u, 9);
        let ss = secs % 60;
        let mins = secs / 60;
        if mins > 0 {
            let mm = mins % 60;
            let hours = mins / 60;
            if hours > 0 {
                push_u64(&mut s, hours);
                push_char(&mut s, 'h');
            }
            push_u64(&mut s, mm);
            push_char(&mut s, 'm');
        }
        push_u64(&mut s, ss);
        push_chars(&mut s, &frac);
        push_char(&mut s, 's');
        proof {
            let b = nat_to_decimal(ss as nat) + frac@ + seq!['s'];
            if mins > 0 {
                let b2 = nat_to_decimal((mins % 60) as nat) + seq!['m'] + b;
                if mins / 60 > 0 {
                    assert(s@ =~= start + (nat_to_decimal((mins / 60) as nat) + seq!['h'] + b2));
                } else {
                    assert(s@ =~= start + b2);
                }
            } else {
                assert(s@ =~= start + b);
            }
        }
        s
    }
}

/// `s` reversed.
pub open spec fn rev(s: Seq<char>) -> Seq<char>
    decreases s.len(),
{
    if s.len() == 0 { seq![] } else { rev(s.drop_first()).push(s[0]) }
}

/// Reversing `s + [c]` puts `c` first.
proof fn lemma_rev_push(s: Seq<char>, c: char)
    ensures
        rev(s.push(c)) == seq![c] + rev(s),
    decreases s.len(),
{
    if s.len() == 0 {
        assert(s.push(c) =~= seq![c]);
        assert(seq![c].drop_first() =~= Seq::<char>::empty());
        assert(rev(Seq::<char>::empty()) == Seq::<char>::empty());
        assert(rev(seq![c]) == rev(seq![c].drop_first()).push(seq![c][0]));
        assert(rev(s.push(c)) =~= seq![c] + rev(s));
    } else {
        assert(s.push(c).drop_first() == s.drop_first().push(c));
        assert(s.push(c)[0] == s[0]);
        lemma_rev_push(s.drop_first(), c);
        assert(rev(s.push(c)) == rev(s.drop_first().push(c)).push(s[0]));
        assert(rev(s) == rev(s.drop_first()).push(s[0]));
        assert((seq![c] + rev(s.drop_first())).push(s[0]) =~= seq![c] + rev(s.drop_first()).push(s[0]));
    }
}

/// Reversing `[c] + s` puts `c` last.
proof fn lemma_rev_cons(c: char, s: Seq<char>)
    ensures
        rev(seq![c] + s) == rev(s).push(c),
{
    assert((seq![c] + s).drop_first() == s);
}

/// One digit step: peeling the last digit of `r` moves it to the front of what is kept.
proof fn lemma_digits_step(r: nat, k: nat, kept: Seq<char>)
    requires
        k >= 1,
    ensures
        padded_digits(r, k) + rev(kept) == padded_digits(r / 10, (k - 1) as nat) + (seq![digit_char((r % 10) as int)] + rev(kept)),
{
    assert(padded_digits(r, k) == padded_digits(r / 10, (k - 1) as nat).push(digit_char((r % 10) as int)));
    assert(padded_digits(r, k) + rev(kept) =~= padded_digits(r / 10, (k - 1) as nat) + (seq![digit_char((r % 10) as int)] + rev(kept)));
}

/// A zero digit in front of nothing but zeros-to-strip is stripped with them.
proof fn lemma_strip_zero_front(a: Seq<char>, kept: Seq<char>)
    requires
        kept.len() == 0,
    ensures
        strip_zeros(a + (seq!['0'] + rev(kept))) == strip_zeros(a + rev(kept)),
{
    assert(rev(kept) == Seq::<char>::empty());
    assert(a + (seq!['0'] + rev(kept)) == a.push('0'));
    assert(a.push('0').drop_last() == a);
    assert(a + rev(kept) == a);
}

/// Reversed digits whose first digit is not zero have no trailing zero.
proof fn lemma_strip_rev(d: Seq<char>)
    requires
        d.len() > 0 ==> d[0] != '0',
    ensures
        strip_zeros(rev(d)) == rev(d),
        rev(d).len() == d.len(),
    decreases d.len(),
{
    if d.len() > 0 {
        lemma_rev_len(d.drop_first());
        assert(rev(d).last() == d[0]);
    }
}

/// Reversal keeps the length.
proof fn lemma_rev_len(d: Seq<char>)
    ensures
        rev(d).len() == d.len(),
    decreases d.len(),
{
    if d.len() > 0 {
        lemma_rev_len(d.drop_first());
    }
}

/// `10^k` is positive.
proof fn lemma_pow10_pos(k: nat)
    ensures
        pow10(k) >= 1,
    decreases k,
{
    if k > 0 {
        lemma_pow10_pos((k - 1) as nat);
    }
}

/// `10^k <= 10^m` for `k <= m`.
proof fn lemma_pow10_le(k: nat, m: nat)
    requires
        k <= m,
    ensures
        pow10(k) <= pow10(m),
    decreases m,
{
    lemma_pow10_pos(m);
    if k < m {
        lemma_pow10_le(k, (m - 1) as nat);
        lemma_pow10_pos((m - 1) as nat);
    }
}

} // verus!
