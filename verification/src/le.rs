//! Little-endian integer fields of the wire format.

use vstd::prelude::*;

verus! {

/// `256^n`.
pub open spec fn pow256(n: nat) -> nat
    decreases n,
{
    if n == 0 { 1 } else { 256 * pow256((n - 1) as nat) }
}

/// The `n` low-order bytes of `v`, least significant first.
pub open spec fn le_bytes(v: nat, n: nat) -> Seq<u8>
    decreases n,
{
    if n == 0 {
        seq![]
    } else {
        seq![(v % 256) as u8] + le_bytes(v / 256, (n - 1) as nat)
    }
}

/// The value of a little-endian byte sequence.
pub open spec fn le_value(s: Seq<u8>) -> nat
    decreases s.len(),
{
    if s.len() == 0 {
        0
    } else {
        s[0] as nat + 256 * le_value(s.drop_first())
    }
}

/// `le_bytes` has the requested length.
pub proof fn lemma_le_bytes_len(v: nat, n: nat)
    ensures
        le_bytes(v, n).len() == n,
    decreases n,
{
    if n > 0 {
        lemma_le_bytes_len(v / 256, (n - 1) as nat);
    }
}

/// `256^n` is positive.
pub proof fn lemma_pow256_pos(n: nat)
    ensures
        pow256(n) >= 1,
    decreases n,
{
    if n > 0 {
        lemma_pow256_pos((n - 1) as nat);
    }
}

/// The fixed powers the fields use.
pub proof fn lemma_pow256_values()
    ensures
        pow256(1) == 0x100,
        pow256(2) == 0x10000,
        pow256(4) == 0x1_0000_0000,
        pow256(8) == 0x1_0000_0000_0000_0000,
{
    assert(pow256(0) == 1);
    assert(pow256(1) == 0x100);
    assert(pow256(2) == 0x10000);
    assert(pow256(3) == 0x100_0000);
    assert(pow256(4) == 0x1_0000_0000);
    assert(pow256(5) == 0x100_0000_0000);
    assert(pow256(6) == 0x1_0000_0000_0000);
    assert(pow256(7) == 0x100_0000_0000_0000);
    assert(pow256(8) == 0x1_0000_0000_0000_0000);
}

/// Reading back `n` written bytes gives the value modulo `256^n`.
pub proof fn lemma_le_roundtrip(v: nat, n: nat)
    ensures
        le_value(le_bytes(v, n)) == v % pow256(n),
    decreases n,
{
    lemma_le_bytes_len(v, n);
    if n > 0 {
        lemma_le_roundtrip(v / 256, (n - 1) as nat);
        let b = le_bytes(v, n);
        assert(b.drop_first() == le_bytes(v / 256, (n - 1) as nat));
        lemma_pow256_pos((n - 1) as nat);
        let p = pow256((n - 1) as nat);
        // v % (256 p) == v % 256 + 256 * ((v / 256) % p)
        assert(v % (256 * p) == v % 256 + 256 * ((v / 256) % p)) by (nonlinear_arith)
            requires
                p >= 1,
        {
            vstd::arithmetic::div_mod::lemma_breakdown(v as int, 256, p as int);
        }
    }
}

/// A little-endian value is below `256^len`.
pub proof fn lemma_le_value_bound(s: Seq<u8>)
    ensures
        le_value(s) < pow256(s.len()),
    decreases s.len(),
{
    if s.len() > 0 {
        lemma_le_value_bound(s.drop_first());
    }
}

/// Writing back the value read from bytes gives the same bytes.
pub proof fn lemma_le_bytes_of_value(s: Seq<u8>)
    ensures
        le_bytes(le_value(s), s.len()) == s,
    decreases s.len(),
{
    if s.len() > 0 {
        lemma_le_bytes_of_value(s.drop_first());
        let v = le_value(s);
        assert(v % 256 == s[0] as nat);
        assert(v / 256 == le_value(s.drop_first()));
        assert(le_bytes(v, s.len()) =~= seq![s[0]] + s.drop_first());
    } else {
        assert(le_bytes(le_value(s), 0) =~= s);
    }
}

/// Appends the `n` low-order bytes of `v`, least significant first.
pub fn push_le(buf: &mut Vec<u8>, v: u64, n: usize)
    requires
        n <= 8,
    ensures
        final(buf)@ == old(buf)@ + le_bytes(v as nat, n as nat),
    decreases n,
{
    if n > 0 {
        buf.push((v % 256) as u8);
        push_le(buf, v / 256, n - 1);
        assert(final(buf)@ =~= old(buf)@ + le_bytes(v as nat, n as nat));
    } else {
        assert(final(buf)@ =~= old(buf)@ + le_bytes(v as nat, n as nat));
    }
}

/// Reads `n` little-endian bytes at `off`.
pub fn read_le(data: &[u8], off: usize, n: usize) -> (r: u64)
    requires
        n <= 8,
        off + n <= data.len(),
    ensures
        r as nat == le_value(data@.subrange(off as int, off + n)),
    decreases n,
{
    proof {
        lemma_le_value_bound(data@.subrange(off as int, off + n));
        lemma_pow256_values();
        lemma_pow256_mono(n as nat, 8);
    }
    if n == 0 {
        0
    } else {
        let rest = read_le(data, off + 1, n - 1);
        assert(data@.subrange(off as int, off + n).drop_first() == data@.subrange(off + 1, off + n));
        proof {
            lemma_le_value_bound(data@.subrange(off + 1, off + n));
            lemma_pow256_mono((n - 1) as nat, 7);
            assert(pow256(7) == 0x100_0000_0000_0000);
        }
        (data[off] as u64) + 256 * rest
    }
}

/// `256^n` grows with `n`.
pub proof fn lemma_pow256_mono(a: nat, b: nat)
    requires
        a <= b,
    ensures
        pow256(a) <= pow256(b),
    decreases b,
{
    if a < b {
        lemma_pow256_mono(a, (b - 1) as nat);
        lemma_pow256_pos((b - 1) as nat);
    }
}

/// The two's-complement bit pattern of a signed value of `bits` width, as a natural number.
pub open spec fn twos(v: int, width: nat) -> nat {
    if v < 0 { (v + pow256(width)) as nat } else { v as nat }
}

/// The signed value of a `width`-byte two's-complement pattern.
pub open spec fn signed_of(u: nat, width: nat) -> int {
    if u >= pow256(width) / 2 { u - pow256(width) } else { u as int }
}

/// Values written as consecutive `w`-byte little-endian words.
pub open spec fn words_le(vals: Seq<nat>, w: nat) -> Seq<u8>
    decreases vals.len(),
{
    if vals.len() == 0 { seq![] } else { words_le(vals.drop_last(), w) + le_bytes(vals.last(), w) }
}

/// The complete `w`-byte words of `body` (a trailing partial word is ignored).
pub open spec fn words_of(body: Seq<u8>, w: nat) -> Seq<nat> {
    Seq::new(body.len() / w, |k: int| le_value(body.subrange(w * k, w * k + w)))
}

/// `words_le` takes `w` bytes per value.
pub proof fn lemma_words_le_len(vals: Seq<nat>, w: nat)
    ensures
        words_le(vals, w).len() == vals.len() * w,
    decreases vals.len(),
{
    if vals.len() > 0 {
        lemma_words_le_len(vals.drop_last(), w);
        lemma_le_bytes_len(vals.last(), w);
        assert(vals.drop_last().len() * w + w == vals.len() * w) by (nonlinear_arith)
            requires vals.drop_last().len() + 1 == vals.len();
    }
}

/// Every value fits in `w` bytes.
pub open spec fn words_fit(vals: Seq<nat>, w: nat) -> bool {
    forall|k: int| 0 <= k < vals.len() ==> #[trigger] vals[k] < pow256(w)
}

/// Reading back words that fit gives the values.
pub proof fn lemma_words_roundtrip(vals: Seq<nat>, w: nat)
    requires
        w >= 1,
        words_fit(vals, w),
    ensures
        words_of(words_le(vals, w), w) == vals,
    decreases vals.len(),
{
    lemma_words_le_len(vals, w);
    let b = words_le(vals, w);
    assert((vals.len() * w) / w == vals.len()) by (nonlinear_arith) requires w >= 1;
    if vals.len() > 0 {
        let pv = vals.drop_last();
        lemma_words_roundtrip(pv, w);
        lemma_words_le_len(pv, w);
        lemma_le_bytes_len(vals.last(), w);
        assert forall|k: int| 0 <= k < vals.len() implies
            #[trigger] words_of(b, w)[k] == vals[k] by {
            assert(pv.len() * w + w == vals.len() * w) by (nonlinear_arith)
                requires pv.len() + 1 == vals.len();
            if k < vals.len() - 1 {
                assert(w * k + w <= pv.len() * w) by (nonlinear_arith)
                    requires k < pv.len(), w >= 1;
                assert(b.subrange(w * k, w * k + w) == words_le(pv, w).subrange(w * k, w * k + w));
                assert((pv.len() * w) / w == pv.len()) by (nonlinear_arith) requires w >= 1;
                assert(words_of(words_le(pv, w), w)[k] == le_value(words_le(pv, w).subrange(w * k, w * k + w)));
                assert(pv[k] == vals[k]);
            } else {
                assert(w * k == pv.len() * w) by (nonlinear_arith) requires k == pv.len();
                assert(b.subrange(w * k, w * k + w) == le_bytes(vals.last(), w));
                lemma_le_roundtrip(vals.last(), w);
                assert(vals.last() < pow256(w));
                vstd::arithmetic::div_mod::lemma_small_mod(vals.last(), pow256(w));
            }
        }
    }
    assert(words_of(b, w).len() == vals.len());
    assert(words_of(b, w) =~= vals);
}

/// Writes values as `w`-byte little-endian words.
pub fn encode_words(vals: &[u64], w: usize) -> (b: Vec<u8>)
    requires
        1 <= w <= 8,
    ensures
        b@ == words_le(Seq::new(vals@.len(), |k: int| vals@[k] as nat), w as nat),
{
    let ghost vs = Seq::new(vals@.len(), |k: int| vals@[k] as nat);
    let mut b: Vec<u8> = Vec::new();
    let mut i: usize = 0;
    while i < vals.len()
        invariant
            i <= vals.len(),
            1 <= w <= 8,
            vs == Seq::new(vals@.len(), |k: int| vals@[k] as nat),
            b@ == words_le(vs.take(i as int), w as nat),
        decreases vals.len() - i,
    {
        push_le(&mut b, vals[i], w);
        assert(vs.take(i as int + 1).drop_last() == vs.take(i as int));
        i = i + 1;
    }
    assert(vs.take(vals.len() as int) == vs);
    b
}

/// Reads the complete `w`-byte words of `body`.
pub fn decode_words(body: &[u8], w: usize) -> (r: Vec<u64>)
    requires
        1 <= w <= 8,
    ensures
        r@.len() == body@.len() / (w as nat),
        forall|k: int| 0 <= k < r@.len() ==> (#[trigger] r@[k]) as nat == words_of(body@, w as nat)[k],
{
    let n: usize = body.len() / w;
    let mut r: Vec<u64> = Vec::new();
    let mut i: usize = 0;
    while i < n
        invariant
            i <= n,
            n == body@.len() / (w as nat),
            1 <= w <= 8,
            r@.len() == i,
            forall|k: int| 0 <= k < i ==> (#[trigger] r@[k]) as nat == words_of(body@, w as nat)[k],
        decreases n - i,
    {
        assert(i * w + w <= body.len()) by (nonlinear_arith)
            requires i < n, n == body.len() / w, w >= 1;
        assert(w * i == i * w) by (nonlinear_arith);
        let v = read_le(body, i * w, w);
        r.push(v);
        i = i + 1;
    }
    r
}

} // verus!
