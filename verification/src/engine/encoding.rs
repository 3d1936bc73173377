//! Low-level encodings shared by the log, the tables and the key codecs.
//!
//! A timestamp `ts` is stored as `u64::MAX - ts` in big-endian byte order, so a *larger*
//! timestamp sorts *earlier*: for a fixed user key the newest version is the first key in
//! ascending byte order.

use vstd::prelude::*;
use crate::bytes;

verus! {

/// The length of an encoded timestamp.
pub const TS_LEN: usize = 8;

/// The encoding of a timestamp: the big-endian bytes of its complement.
pub open spec fn ts_bytes(ts: u64) -> Seq<u8> {
    bytes::be64((u64::MAX - ts) as u64)
}

/// The low 32 bits of a length.
pub open spec fn len32(n: nat) -> u32 {
    (n % 0x1_0000_0000) as u32
}

/// A byte string with its `u32` length in front.
pub open spec fn length_prefixed(b: Seq<u8>) -> Seq<u8> {
    bytes::be32(len32(b.len())) + b
}

/// The length-prefixed byte string at `pos` and the position behind it; `None` where `buf` ends
/// too early.
pub open spec fn length_prefixed_at(buf: Seq<u8>, pos: int) -> Option<(Seq<u8>, int)> {
    if pos + 4 > buf.len() {
        None
    } else {
        let n = bytes::u32_at(buf, pos) as int;
        if pos + 4 + n > buf.len() {
            None
        } else {
            Some((buf.subrange(pos + 4, pos + 4 + n), pos + 4 + n))
        }
    }
}

/// The low 32 bits of a length.
pub fn low32(n: usize) -> (r: u32)
    ensures
        r == len32(n as nat),
{
    let r: u32 = (n as u64 % 0x1_0000_0000) as u32;
    r
}

/// Encode a timestamp so newer (larger) timestamps sort first.
pub fn encode_ts(ts: u64) -> (r: [u8; 8])
    ensures
        r@ == ts_bytes(ts),
{
    be64_array(u64::MAX - ts)
}

/// The big-endian bytes of `x` as an array.
pub fn be64_array(x: u64) -> (r: [u8; 8])
    ensures
        r@ == bytes::be64(x),
{
    let x1: u64 = x / 256;
    let x2: u64 = x1 / 256;
    let x3: u64 = x2 / 256;
    let x4: u64 = x3 / 256;
    let x5: u64 = x4 / 256;
    let x6: u64 = x5 / 256;
    let x7: u64 = x6 / 256;
    let r: [u8; 8] = [
        (x7 % 256) as u8,
        (x6 % 256) as u8,
        (x5 % 256) as u8,
        (x4 % 256) as u8,
        (x3 % 256) as u8,
        (x2 % 256) as u8,
        (x1 % 256) as u8,
        (x % 256) as u8,
    ];
    proof {
        reveal_with_fuel(bytes::be_bytes, 9);
        assert(r@ =~= bytes::be64(x));
    }
    r
}

/// Inverse of [`encode_ts`].
pub fn decode_ts(b: &[u8]) -> (r: u64)
    requires
        b@.len() == 8,
    ensures
        r == u64::MAX - bytes::u64_at(b@, 0),
{
    u64::MAX - bytes::read_u64(b, 0)
}

/// Append a `u32`-length-prefixed byte string to `buf`.
pub fn put_length_prefixed(buf: &mut Vec<u8>, b: &[u8])
    ensures
        final(buf)@ == old(buf)@ + length_prefixed(b@),
{
    let ghost before = buf@;
    bytes::put_u32(buf, low32(b.len()));
    bytes::push_all(buf, b);
    assert(buf@ =~= before + length_prefixed(b@));
}

/// Read the `u32`-length-prefixed byte string starting at `*pos` and advance `*pos` past it.
/// `None` on truncation (used to detect torn tails), with `*pos` left alone.
pub fn get_length_prefixed<'a>(buf: &'a [u8], pos: &mut usize) -> (r: Option<&'a [u8]>)
    requires
        *old(pos) + 4 <= usize::MAX,
    ensures
        match length_prefixed_at(buf@, *old(pos) as int) {
            Some((b, end)) => r matches Some(s) && s@ == b && *final(pos) == end,
            None => r is None && *final(pos) == *old(pos),
        },
{
    let start: usize = *pos;
    if start + 4 > buf.len() {
        return None;
    }
    let len: usize = bytes::read_u32(buf, start) as usize;
    let data_start: usize = start + 4;
    if len > buf.len() - data_start {
        return None;
    }
    let data_end: usize = data_start + len;
    *pos = data_end;
    Some(bytes::slice(buf, data_start, data_end))
}

/// Timestamps survive the encoding.
pub proof fn law_ts_roundtrip(ts: u64)
    ensures
        ts_bytes(ts).len() == 8,
        u64::MAX - bytes::u64_at(ts_bytes(ts), 0) == ts,
{
    let b = ts_bytes(ts);
    bytes::lemma_be64_len((u64::MAX - ts) as u64);
    assert(b.subrange(0, 8) =~= b);
    bytes::lemma_u64_at(b, 0, (u64::MAX - ts) as u64);
}

/// Newer (larger) timestamps produce strictly smaller encodings, and older ones larger.
pub proof fn law_ts_descending(a: u64, b: u64)
    ensures
        bytes::lex_lt(ts_bytes(a), ts_bytes(b)) <==> a > b,
        ts_bytes(a) == ts_bytes(b) <==> a == b,
{
    bytes::lemma_pow256_values();
    bytes::lemma_be_order((u64::MAX - a) as nat, (u64::MAX - b) as nat, 8);
    law_ts_roundtrip(a);
    law_ts_roundtrip(b);
}

/// What was written with a length prefix reads back, wherever it stands, as long as its length
/// fits the prefix.
pub proof fn law_length_prefixed_roundtrip(before: Seq<u8>, b: Seq<u8>, after: Seq<u8>)
    requires
        b.len() < 0x1_0000_0000,
    ensures
        length_prefixed_at(before + length_prefixed(b) + after, before.len() as int) == Some(
            (b, (before.len() + length_prefixed(b).len()) as int),
        ),
{
    broadcast use bytes::group_be_len;
    let s = before + length_prefixed(b) + after;
    let pos = before.len() as int;
    assert(s.subrange(pos, pos + 4) =~= bytes::be32(len32(b.len())));
    bytes::lemma_u32_at(s, pos, len32(b.len()));
    assert(s.subrange(pos + 4, pos + 4 + b.len()) =~= b);
}

/// A length-prefixed string that is cut short is rejected.
pub proof fn law_length_prefixed_truncation(before: Seq<u8>, b: Seq<u8>, cut: int)
    requires
        b.len() < 0x1_0000_0000,
        0 <= cut < length_prefixed(b).len(),
    ensures
        length_prefixed_at(before + length_prefixed(b).take(cut), before.len() as int) is None,
{
    broadcast use bytes::group_be_len;
    let s = before + length_prefixed(b).take(cut);
    let pos = before.len() as int;
    if cut >= 4 {
        assert(s.subrange(pos, pos + 4) =~= bytes::be32(len32(b.len())));
        bytes::lemma_u32_at(s, pos, len32(b.len()));
    }
}

} // verus!
