//! The framing of the Redis protocol the Redis store speaks: commands as arrays of bulk
//! strings, replies read line by line.

use vstd::prelude::*;
use crate::cli_value::{parse_i64_chars, parse_i64_spec};
use crate::text::{chars_of, decode_text, nat_to_decimal, utf8_lossy};
use crate::xvalue::append_bytes;
use vstd::string::StringSliceAdditionalSpecFns;
use vstd::utf8::encode_utf8;

verus! {

/// The ASCII bytes of a decimal count.
pub open spec fn count_bytes(n: nat) -> Seq<u8> {
    encode_utf8(nat_to_decimal(n))
}

/// One bulk string: `$len\r\n`, the bytes, `\r\n`.
pub open spec fn bulk_frame(a: Seq<u8>) -> Seq<u8> {
    seq![36u8] + count_bytes(a.len()) + seq![13u8, 10u8] + a + seq![13u8, 10u8]
}

/// The bulk strings of the arguments, in order.
pub open spec fn bulk_frames(args: Seq<Seq<u8>>) -> Seq<u8>
    decreases args.len(),
{
    if args.len() == 0 { seq![] } else { bulk_frames(args.drop_last()) + bulk_frame(args.last()) }
}

/// A command: `*n\r\n` and one bulk string per argument.
pub open spec fn command_frame(args: Seq<Seq<u8>>) -> Seq<u8> {
    seq![42u8] + count_bytes(args.len()) + seq![13u8, 10u8] + bulk_frames(args)
}

/// Appends the decimal digits of `n`.
fn push_count(buf: &mut Vec<u8>, n: usize)
    ensures
        final(buf)@ == old(buf)@ + count_bytes(n as nat),
{
    let mut s = String::new();
    crate::text::push_u64(&mut s, n as u64);
    let b = s.as_str().as_bytes();
    append_bytes(buf, b);
}

/// The bytes of a command; see [`command_frame`].
pub fn command_bytes(args: &[Vec<u8>]) -> (out: Vec<u8>)
    ensures
        out@ == command_frame(Seq::new(args@.len(), |i: int| args@[i]@)),
{
    let ghost av = Seq::new(args@.len(), |i: int| args@[i]@);
    let mut out: Vec<u8> = Vec::new();
    out.push(42u8);
    push_count(&mut out, args.len());
    out.push(13u8);
    out.push(10u8);
    let ghost start = out@;
    let mut i: usize = 0;
    while i < args.len()
        invariant
            i <= args@.len(),
            av == Seq::new(args@.len(), |k: int| args@[k]@),
            out@ == start + bulk_frames(av.take(i as int)),
        decreases args@.len() - i,
    {
        let ghost before = out@;
        out.push(36u8);
        push_count(&mut out, args[i].len());
        out.push(13u8);
        out.push(10u8);
        append_bytes(&mut out, args[i].as_slice());
        out.push(13u8);
        out.push(10u8);
        proof {
            let t = av.take(i as int + 1);
            assert(t.drop_last() =~= av.take(i as int));
            assert(t.last() == args@[i as int]@);
            assert(out@ =~= before + bulk_frame(args@[i as int]@));
        }
        i = i + 1;
        assert(out@ =~= start + bulk_frames(av.take(i as int)));
    }
    assert(av.take(args@.len() as int) =~= av);
    assert(out@ =~= command_frame(av));
    out
}

/// What one reply line announces.
pub enum ReplyLine {
    /// An empty line.
    Empty,
    /// `+text`.
    Simple(String),
    /// `-text`.
    Error(String),
    /// `:n` (0 when `n` does not parse).
    Integer(i64),
    /// `$n`: a bulk string of `n` bytes follows (-1 when `n` does not parse).
    BulkLen(i64),
    /// `*n`: `n` replies follow (-1 when `n` does not parse).
    ArrayLen(i64),
    /// A line with another first byte.
    Unexpected(u8),
}

/// The number a line carries after its type byte, or `dflt` when it does not parse.
pub open spec fn line_number(line: Seq<u8>, dflt: i64) -> i64 {
    match parse_i64_spec(decode_text(line.skip(1))) {
        Some(v) => v,
        None => dflt,
    }
}

/// The number after the type byte.
fn read_number(line: &[u8], dflt: i64) -> (r: i64)
    requires
        line@.len() >= 1,
    ensures
        r == line_number(line@, dflt),
{
    let rest = vstd::slice::slice_subrange(line, 1, line.len());
    assert(rest@ =~= line@.skip(1));
    let text = utf8_lossy(rest);
    let c = chars_of(text.as_str());
    match parse_i64_chars(&c) {
        Some(v) => v,
        None => dflt,
    }
}

/// What a reply line (without its `\r\n`) announces.
pub fn classify_line(line: &[u8]) -> (r: ReplyLine)
    ensures
        line@.len() == 0 ==> r is Empty,
        line@.len() > 0 && line@[0] == 43u8 ==> (r matches ReplyLine::Simple(s) && s@ == decode_text(line@.skip(1))),
        line@.len() > 0 && line@[0] == 45u8 ==> (r matches ReplyLine::Error(s) && s@ == decode_text(line@.skip(1))),
        line@.len() > 0 && line@[0] == 58u8 ==> r == ReplyLine::Integer(line_number(line@, 0i64)),
        line@.len() > 0 && line@[0] == 36u8 ==> r == ReplyLine::BulkLen(line_number(line@, -1i64)),
        line@.len() > 0 && line@[0] == 42u8 ==> r == ReplyLine::ArrayLen(line_number(line@, -1i64)),
        line@.len() > 0 && !(line@[0] == 43u8 || line@[0] == 45u8 || line@[0] == 58u8 || line@[0] == 36u8
            || line@[0] == 42u8) ==> r == ReplyLine::Unexpected(line@[0]),
{
    if line.len() == 0 {
        return ReplyLine::Empty;
    }
    let t = line[0];
    if t == 43u8 || t == 45u8 {
        let rest = vstd::slice::slice_subrange(line, 1, line.len());
        assert(rest@ =~= line@.skip(1));
        let text = utf8_lossy(rest);
        if t == 43u8 { ReplyLine::Simple(text) } else { ReplyLine::Error(text) }
    } else if t == 58u8 {
        ReplyLine::Integer(read_number(line, 0))
    } else if t == 36u8 {
        ReplyLine::BulkLen(read_number(line, -1))
    } else if t == 42u8 {
        ReplyLine::ArrayLen(read_number(line, -1))
    } else {
        ReplyLine::Unexpected(t)
    }
}

/// A scanned key belongs to `prefix`: it starts with the prefix (the prefix itself
/// included), as the store's `scan_keys` promises.
pub open spec fn key_under(k: Seq<u8>, prefix: Seq<u8>) -> bool {
    k.len() >= prefix.len() && k.take(prefix.len() as int) == prefix
}

/// Whether a scanned key belongs to `prefix`; see [`key_under`].
pub fn scan_match(k: &str, prefix: &str) -> (r: bool)
    ensures
        r == key_under(encode_utf8(k@), encode_utf8(prefix@)),
{
    let kb = k.as_bytes();
    let pb = prefix.as_bytes();
    assert(kb@ == encode_utf8(k@) && pb@ == encode_utf8(prefix@));
    if kb.len() < pb.len() {
        return false;
    }
    let mut i: usize = 0;
    while i < pb.len()
        invariant
            kb@ == encode_utf8(k@),
            pb@ == encode_utf8(prefix@),
            pb@.len() <= kb@.len(),
            i <= pb@.len(),
            forall|j: int| 0 <= j < i ==> kb@[j] == pb@[j],
        decreases pb@.len() - i,
    {
        if kb[i] != pb[i] {
            assert(kb@.take(pb@.len() as int)[i as int] != pb@[i as int]);
            assert(kb@ != pb@) by {
                if kb@ == pb@ {
                    assert(kb@[i as int] == pb@[i as int]);
                }
            }
            assert(kb@.take(pb@.len() as int) != pb@);
            assert(!key_under(kb@, pb@));
            return false;
        }
        i = i + 1;
    }
    assert(kb@.take(pb@.len() as int) =~= pb@);
    true
}

} // verus!
