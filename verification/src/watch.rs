//! Watching a key: when two values count as equal, and how long to wait between reads.

use vstd::prelude::*;
use crate::text::str_eq;
use crate::xvalue::{body_of, decode_head_spec, head_body_panics, head_decode_panics, XValue, XV};
use crate::xvalue_codec::{body_bytes, encode_fits, encode_value, kind_of};

verus! {

/// The body bytes of a value's encoding (none for the absent value).
pub open spec fn value_body(v: XV) -> Seq<u8> {
    if v is Nil { seq![] } else { body_of(decode_head_spec(encode_value(v)), encode_value(v)) }
}

/// A value whose encoding's body can be read back.
pub open spec fn body_readable(v: XV) -> bool {
    encode_fits(v) && !head_decode_panics(encode_value(v)) && !head_body_panics(encode_value(v))
}

/// Whether two byte runs are equal.
fn bytes_eq(a: &[u8], b: &[u8]) -> (r: bool)
    ensures
        r == (a@ == b@),
{
    if a.len() != b.len() {
        return false;
    }
    let mut i: usize = 0;
    while i < a.len()
        invariant
            a@.len() == b@.len(),
            i <= a@.len(),
            forall|k: int| 0 <= k < i ==> a@[k] == b@[k],
        decreases a@.len() - i,
    {
        if a[i] != b[i] {
            return false;
        }
        i = i + 1;
    }
    assert(a@ =~= b@);
    true
}

/// Two values count as equal when their kinds and the bodies of their encodings are.
pub fn equal_xvalue(a: &XValue, b: &XValue) -> (r: bool)
    requires
        body_readable(a@),
        body_readable(b@),
    ensures
        r == (kind_of(a@) == kind_of(b@) && value_body(a@) == value_body(b@)),
{
    if !str_eq(a.kind(), b.kind()) {
        return false;
    }
    let ba = body_bytes(a);
    let bb = body_bytes(b);
    bytes_eq(&ba, &bb)
}

/// Reads made without waiting before a watch starts to sleep.
pub const WATCH_SPINS: i64 = 100;

/// The wait after `wait_ns`: one microsecond first, then doubled, never past the tick
/// (a wait already at or past the tick stays).
pub open spec fn next_wait(wait_ns: nat, tick_ns: nat) -> nat {
    if wait_ns == 0 {
        1000
    } else if wait_ns < tick_ns {
        if 2 * wait_ns <= tick_ns { 2 * wait_ns } else { tick_ns }
    } else {
        wait_ns
    }
}

/// The step of a watch after a read that did not match: the first reads are retried at
/// once; after them each retry sleeps for the next wait. Gives the new spin count, the new
/// wait and how long to sleep before the next read.
pub fn watch_backoff(spins: i64, wait_ns: u64, tick_ns: u64) -> (r: (i64, u64, Option<u64>))
    ensures
        spins < WATCH_SPINS ==> r.0 == spins + 1 && r.1 == wait_ns && r.2 is None,
        spins >= WATCH_SPINS ==> r.0 == spins && r.1 as nat == next_wait(wait_ns as nat, tick_ns as nat)
            && r.2 == Some(r.1),
{
    if spins < WATCH_SPINS {
        return (spins + 1, wait_ns, None);
    }
    let next: u64 = if wait_ns == 0 {
        1000
    } else if wait_ns < tick_ns {
        if wait_ns <= tick_ns / 2 { 2 * wait_ns } else { tick_ns }
    } else {
        wait_ns
    };
    (spins, next, Some(next))
}

/// The children listed without the extension's entries, which a listing with the
/// extension appends last: all but the last `ext_count` (none when fewer are listed).
pub fn without_ext_tail(children: &[String], ext_count: usize) -> (r: Vec<String>)
    ensures
        crate::xvalue_index::string_views(r@) == crate::xvalue_index::string_views(children@).take(
            if children@.len() >= ext_count { children@.len() - ext_count } else { 0 }),
{
    let n: usize = if children.len() >= ext_count { children.len() - ext_count } else { 0 };
    let mut out: Vec<String> = Vec::new();
    let mut i: usize = 0;
    while i < n
        invariant
            n <= children@.len(),
            i <= n,
            crate::xvalue_index::string_views(out@) == crate::xvalue_index::string_views(children@).take(i as int),
        decreases n - i,
    {
        let ghost before = out@;
        out.push(crate::text::string_of(children[i].as_str()));
        assert(crate::xvalue_index::string_views(out@) =~= crate::xvalue_index::string_views(before).push(children@[i as int]@));
        i = i + 1;
        assert(crate::xvalue_index::string_views(out@) =~= crate::xvalue_index::string_views(children@).take(i as int));
    }
    out
}

} // verus!
