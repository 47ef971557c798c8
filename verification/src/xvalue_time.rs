//! `time` values: nanoseconds since the Unix epoch (little-endian `i64`), shown as
//! `YYYY/MM/DD HH:MM:SS` in UTC.

use vstd::prelude::*;
use crate::consts::KIND_TIME;
use crate::text::{nat_to_decimal, push_char, push_u64};
use crate::xvalue::{Opaque, XValue, XV};
use crate::xvalue_codec::{tlv_encode, tlv_spec};
use crate::xvalue_duration::{duration_body, i64_body};
use crate::xvalue_int::int64_vals;

verus! {

/// Days of the 400-year era, year of the era, day of that year and the March-based month
/// index of a day of the era, as the civil calendar computes them.
pub open spec fn year_of_era(doe: int) -> int {
    (doe - doe / 1460 + doe / 36524 - doe / 146096) / 365
}

/// Day of the (March-based) year for a day of the era.
pub open spec fn day_of_year(doe: int) -> int {
    let yoe = year_of_era(doe);
    doe - (365 * yoe + yoe / 4 - yoe / 100)
}

/// The proleptic Gregorian date `(year, month, day)` that lies `z` days after 1970-01-01.
pub open spec fn civil_from_days_spec(z: int) -> (int, int, int) {
    let zz = z + 719_468;
    let era = zz / 146_097;
    let doe = zz % 146_097;
    let y = year_of_era(doe) + era * 400;
    let doy = day_of_year(doe);
    let mp = (5 * doy + 2) / 153;
    let d = doy - (153 * mp + 2) / 5 + 1;
    let m = if mp < 10 { mp + 3 } else { mp - 9 };
    (if m <= 2 { y + 1 } else { y }, m, d)
}

/// Within one era the year index stays below 400 and the day of the year in `0..=365`.
pub proof fn lemma_day_of_year_range(doe: int)
    requires
        0 <= doe < 146_097,
    ensures
        0 <= year_of_era(doe) <= 399,
        0 <= day_of_year(doe) <= 365,
        0 <= (5 * day_of_year(doe) + 2) / 153 <= 11,
        1 <= day_of_year(doe) - (153 * ((5 * day_of_year(doe) + 2) / 153) + 2) / 5 + 1 <= 31,
{
}

/// `digits` left-padded with `0` to at least `w` characters.
pub open spec fn pad_zeros(digits: Seq<char>, w: nat) -> Seq<char> {
    if digits.len() >= w {
        digits
    } else {
        Seq::new((w - digits.len()) as nat, |i: int| '0') + digits
    }
}

/// An integer zero-padded to width `w`, the sign counting toward the width (as `{:0w}`
/// renders it).
pub open spec fn zero_padded(n: int, w: nat) -> Seq<char> {
    if n < 0 {
        seq!['-'] + pad_zeros(nat_to_decimal((-n) as nat), if w > 0 { (w - 1) as nat } else { 0 })
    } else {
        pad_zeros(nat_to_decimal(n as nat), w)
    }
}

/// The UTC text `YYYY/MM/DD HH:MM:SS` of the instant `ns` nanoseconds after the epoch
/// (the second is rounded down).
pub open spec fn time_text(ns: int) -> Seq<char> {
    let secs = ns / 1_000_000_000;
    let days = secs / 86_400;
    let sod = secs % 86_400;
    let ymd = civil_from_days_spec(days);
    zero_padded(ymd.0, 4) + seq!['/'] + zero_padded(ymd.1, 2) + seq!['/'] + zero_padded(ymd.2, 2)
        + seq![' '] + zero_padded(sod / 3600, 2) + seq![':'] + zero_padded((sod % 3600) / 60, 2)
        + seq![':'] + zero_padded(sod % 60, 2)
}

/// The body of `time` values.
pub open spec fn time_body(d: Seq<i64>) -> Seq<u8> {
    duration_body(d)
}

/// A `time` value, kept as an opaque value of kind `time` with one element per instant.
pub fn new_time(v: &[i64]) -> (x: XValue)
    ensures
        x@ == XV::Opaque(KIND_TIME@, time_body(v@), v@.len() as i32),
{
    let raw = i64_body(v);
    XValue::Opaque(Opaque {
        kind: crate::text::string_of(KIND_TIME),
        body: raw,
        array_len: #[verifier::truncate] (v.len() as i32),
    })
}

/// The `time` values of a body (a trailing partial word is ignored).
pub fn decode_time(body: &[u8]) -> (r: Vec<i64>)
    ensures
        r@ == int64_vals(body@),
{
    crate::xvalue_duration::decode_duration(body)
}

/// Encodes `time` values: kind `time`, one element per instant.
pub fn encode_time(data: &[i64]) -> (b: Vec<u8>)
    requires
        8 * data@.len() + 200 <= usize::MAX,
    ensures
        b@ == tlv_spec(KIND_TIME@, time_body(data@), data@.len() as i32),
{
    let raw = i64_body(data);
    proof {
        reveal_strlit("time");
        crate::le::lemma_words_le_len(crate::codec::signed_words(data@.map_values(|v: i64| v as int), 8), 8);
    }
    tlv_encode(KIND_TIME, &raw, #[verifier::truncate] (data.len() as i32))
}

/// The civil date `z` days after 1970-01-01.
fn civil_from_days(z: i64) -> (r: (i64, i64, i64))
    requires
        -110_000 <= z <= 110_000,
    ensures
        (r.0 as int, r.1 as int, r.2 as int) == civil_from_days_spec(z as int),
        1500 <= r.0 <= 2500,
        1 <= r.1 <= 12,
        1 <= r.2 <= 31,
{
    let zz = z + 719_468;
    let era = zz.checked_div_euclid(146_097).unwrap();
    let doe_i = zz.checked_rem_euclid(146_097).unwrap();
    proof { lemma_day_of_year_range(doe_i as int); }
    let doe = doe_i as u64;
    let yoe = (doe - doe / 1_460 + doe / 36_524 - doe / 146_096) / 365;
    let y = yoe as i64 + era * 400;
    let doy = doe - (365 * yoe + yoe / 4 - yoe / 100);
    let mp = (5 * doy + 2) / 153;
    let d = doy - (153 * mp + 2) / 5 + 1;
    let m = if mp < 10 { mp + 3 } else { mp - 9 };
    let y2 = if m <= 2 { y + 1 } else { y };
    (y2, m as i64, d as i64)
}

/// Appends `n` zero-padded to two digits.
fn push_two_digits(s: &mut String, n: u64)
    requires
        n < 100,
    ensures
        final(s)@ == old(s)@ + zero_padded(n as int, 2),
{
    proof { reveal_with_fuel(nat_to_decimal, 3); }
    if n < 10 {
        push_char(s, '0');
        push_u64(s, n);
        assert(Seq::new(1, |i: int| '0') =~= seq!['0']);
    } else {
        push_u64(s, n);
    }
    assert(final(s)@ =~= old(s)@ + zero_padded(n as int, 2));
}

/// The UTC text of an instant; see [`time_text`].
pub fn format_time(ns: i64) -> (s: String)
    ensures
        s@ == time_text(ns as int),
{
    let total_sec = ns.checked_div_euclid(1_000_000_000).unwrap();
    let days = total_sec.checked_div_euclid(86_400).unwrap();
    let sod_i = total_sec.checked_rem_euclid(86_400).unwrap();
    let (y, m, d) = civil_from_days(days);
    let sod = sod_i as u64;
    let h = sod / 3600;
    let mi = (sod % 3600) / 60;
    let sec = sod % 60;
    let mut s = String::new();
    proof { reveal_with_fuel(nat_to_decimal, 5); }
    push_u64(&mut s, y as u64);
    assert(zero_padded(y as int, 4) == nat_to_decimal(y as nat));
    push_char(&mut s, '/');
    push_two_digits(&mut s, m as u64);
    push_char(&mut s, '/');
    push_two_digits(&mut s, d as u64);
    push_char(&mut s, ' ');
    push_two_digits(&mut s, h);
    push_char(&mut s, ':');
    push_two_digits(&mut s, mi);
    push_char(&mut s, ':');
    push_two_digits(&mut s, sec);
    assert(s@ =~= time_text(ns as int));
    s
}

} // verus!
