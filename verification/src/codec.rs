//! Fixed-width element bodies: signed and unsigned values as little-endian words.

use vstd::prelude::*;
use crate::le::{
    decode_words, encode_words, lemma_pow256_values, lemma_words_roundtrip, pow256, signed_of, twos,
    words_fit, words_le, words_of,
};

verus! {

/// The supported element widths.
pub open spec fn width_ok(w: nat) -> bool {
    w == 1 || w == 2 || w == 4 || w == 8
}

/// A signed value fits in `w` bytes of two's complement.
pub open spec fn signed_fits(v: int, w: nat) -> bool {
    -(pow256(w) / 2) <= v < pow256(w) / 2
}

/// Signed values as `w`-byte two's-complement words.
pub open spec fn signed_words(d: Seq<int>, w: nat) -> Seq<nat> {
    Seq::new(d.len(), |k: int| twos(d[k], w))
}

/// The body of signed values: consecutive `w`-byte two's-complement words.
pub open spec fn signed_body(d: Seq<int>, w: nat) -> Seq<u8> {
    words_le(signed_words(d, w), w)
}

/// The signed values of the complete `w`-byte words of a body.
pub open spec fn signed_vals(b: Seq<u8>, w: nat) -> Seq<int> {
    Seq::new(words_of(b, w).len(), |k: int| signed_of(words_of(b, w)[k], w))
}

/// The body of unsigned values: consecutive `w`-byte words.
pub open spec fn unsigned_body(d: Seq<nat>, w: nat) -> Seq<u8> {
    words_le(d, w)
}

/// Two's complement of a value that fits reads back as the value.
pub proof fn lemma_twos_roundtrip(v: int, w: nat)
    requires
        width_ok(w),
        signed_fits(v, w),
    ensures
        twos(v, w) < pow256(w),
        signed_of(twos(v, w), w) == v,
{
    lemma_pow256_values();
    assert(pow256(1) == 256) by { reveal_with_fuel(pow256, 2); }
}

/// Signed values that fit read back from their body.
pub proof fn lemma_signed_roundtrip(d: Seq<int>, w: nat)
    requires
        width_ok(w),
        forall|k: int| 0 <= k < d.len() ==> signed_fits(#[trigger] d[k], w),
    ensures
        signed_vals(signed_body(d, w), w) == d,
{
    let ws = signed_words(d, w);
    assert forall|k: int| 0 <= k < ws.len() implies #[trigger] ws[k] < pow256(w) by {
        lemma_twos_roundtrip(d[k], w);
    }
    assert(words_fit(ws, w));
    lemma_words_roundtrip(ws, w);
    assert forall|k: int| 0 <= k < d.len() implies #[trigger] signed_vals(signed_body(d, w), w)[k] == d[k] by {
        lemma_twos_roundtrip(d[k], w);
    }
    assert(signed_vals(signed_body(d, w), w) =~= d);
}

/// Unsigned values that fit read back from their body.
pub proof fn lemma_unsigned_roundtrip(d: Seq<nat>, w: nat)
    requires
        width_ok(w),
        forall|k: int| 0 <= k < d.len() ==> #[trigger] d[k] < pow256(w),
    ensures
        words_of(unsigned_body(d, w), w) == d,
{
    assert(words_fit(d, w));
    lemma_words_roundtrip(d, w);
}

/// Every value read from a body fits its width.
pub proof fn lemma_signed_vals_fit(b: Seq<u8>, w: nat, k: int)
    requires
        width_ok(w),
        0 <= k < signed_vals(b, w).len(),
    ensures
        signed_fits(signed_vals(b, w)[k], w),
{
    lemma_pow256_values();
    assert(pow256(1) == 256) by { reveal_with_fuel(pow256, 2); }
    assert(w * k + w <= b.len()) by (nonlinear_arith)
        requires k < b.len() / w, w >= 1;
    crate::le::lemma_le_value_bound(b.subrange(w * k, w * k + w));
}

/// Every value read from a body as unsigned fits its width.
pub proof fn lemma_words_of_fit(b: Seq<u8>, w: nat, k: int)
    requires
        width_ok(w),
        0 <= k < words_of(b, w).len(),
    ensures
        words_of(b, w)[k] < pow256(w),
{
    assert(w * k + w <= b.len()) by (nonlinear_arith)
        requires k < b.len() / w, w >= 1;
    crate::le::lemma_le_value_bound(b.subrange(w * k, w * k + w));
}

/// `2^(8w)` as an `i128`.
fn width_pow(w: usize) -> (p: i128)
    requires
        width_ok(w as nat),
    ensures
        p as int == pow256(w as nat),
{
    proof {
        lemma_pow256_values();
        assert(pow256(1) == 256) by { reveal_with_fuel(pow256, 2); }
    }
    if w == 1 {
        0x100
    } else if w == 2 {
        0x1_0000
    } else if w == 4 {
        0x1_0000_0000
    } else {
        0x1_0000_0000_0000_0000
    }
}

/// Writes signed values as `w`-byte two's-complement little-endian words.
pub fn encode_signed(vals: &[i64], w: usize) -> (b: Vec<u8>)
    requires
        width_ok(w as nat),
        forall|k: int| 0 <= k < vals@.len() ==> signed_fits(#[trigger] vals@[k] as int, w as nat),
    ensures
        b@ == signed_body(vals@.map_values(|v: i64| v as int), w as nat),
{
    let p = width_pow(w);
    let ghost d = vals@.map_values(|v: i64| v as int);
    let mut us: Vec<u64> = Vec::new();
    let mut i: usize = 0;
    while i < vals.len()
        invariant
            i <= vals.len(),
            width_ok(w as nat),
            p as int == pow256(w as nat),
            d == vals@.map_values(|v: i64| v as int),
            forall|k: int| 0 <= k < vals@.len() ==> signed_fits(#[trigger] vals@[k] as int, w as nat),
            us@.len() == i,
            forall|k: int| 0 <= k < i ==> (#[trigger] us@[k]) as nat == twos(d[k], w as nat),
        decreases vals.len() - i,
    {
        let v = vals[i];
        proof { lemma_twos_roundtrip(v as int, w as nat); lemma_pow256_values(); }
        let u: u64 = if v < 0 { (v as i128 + p) as u64 } else { v as u64 };
        us.push(u);
        i = i + 1;
    }
    let b = encode_words(&us, w);
    assert(Seq::new(us@.len(), |k: int| us@[k] as nat) =~= signed_words(d, w as nat));
    b
}

/// Reads the complete `w`-byte words of a body as signed values.
pub fn decode_signed(body: &[u8], w: usize) -> (r: Vec<i64>)
    requires
        width_ok(w as nat),
    ensures
        r@.map_values(|v: i64| v as int) == signed_vals(body@, w as nat),
{
    let p = width_pow(w);
    let us = decode_words(body, w);
    let mut r: Vec<i64> = Vec::new();
    let mut i: usize = 0;
    while i < us.len()
        invariant
            i <= us.len(),
            width_ok(w as nat),
            p as int == pow256(w as nat),
            us@.len() == words_of(body@, w as nat).len(),
            forall|k: int| 0 <= k < us@.len() ==> (#[trigger] us@[k]) as nat == words_of(body@, w as nat)[k],
            r@.len() == i,
            forall|k: int| 0 <= k < i ==> (#[trigger] r@[k]) as int == signed_of(words_of(body@, w as nat)[k], w as nat),
        decreases us.len() - i,
    {
        let u = us[i];
        proof {
            lemma_pow256_values();
            assert(w * i + w <= body@.len()) by (nonlinear_arith)
                requires i < us@.len(), us@.len() == body@.len() / (w as nat), w >= 1;
            crate::le::lemma_le_value_bound(body@.subrange(w * i, w * i + w));
            assert(u as nat == words_of(body@, w as nat)[i as int]);
        }
        let v: i64 = if (u as i128) * 2 >= p { (u as i128 - p) as i64 } else { u as i64 };
        r.push(v);
        i = i + 1;
    }
    assert(r@.map_values(|v: i64| v as int) =~= signed_vals(body@, w as nat));
    r
}

} // verus!
