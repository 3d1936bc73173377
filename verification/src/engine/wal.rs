//! The write-ahead log: record format and replay.
//!
//! This module only frames; it knows nothing about memtables or threads. The group commit that
//! batches concurrent writers and flushes once per group is in [`crate::engine::db`].
//!
//! ## Record frame
//!
//! ```text
//! [len:u32][crc32c:u32][seq:u64][payload...]
//!  \_______________/    \__________________/
//!     header (8B)         body (len bytes), crc covers the body
//! ```
//!
//! `payload` is an opaque batch body (see [`crate::engine::batch::WriteBatch::encode`]) and
//! `len = 8 + payload.len()`. A record is *intact* iff its full body is present and the checksum
//! matches; the first record that is not marks the **torn tail** and ends replay. Because a write
//! is acknowledged only after its group was flushed, a torn tail can only be a write in flight
//! that nobody was told about.

use vstd::prelude::*;
use crate::bytes;
use crate::engine::checksum;
use crate::engine::encoding;

verus! {

/// A log record: its sequence number and its payload.
pub type Record = (u64, Seq<u8>);

/// What the checksum of a record covers.
pub open spec fn record_body(r: Record) -> Seq<u8> {
    bytes::be64(r.0) + r.1
}

/// A framed record.
pub open spec fn frame(r: Record) -> Seq<u8> {
    bytes::be32(encoding::len32(record_body(r).len())) + bytes::be32(
        checksum::crc_of(record_body(r)),
    ) + record_body(r)
}

/// A run of framed records.
pub open spec fn log_bytes(rs: Seq<Record>) -> Seq<u8>
    decreases rs.len(),
{
    if rs.len() == 0 {
        Seq::empty()
    } else {
        log_bytes(rs.drop_last()) + frame(rs.last())
    }
}

/// Whether the record's length fits its field.
pub open spec fn record_fits(r: Record) -> bool {
    r.1.len() + 8 < 0x1_0000_0000
}

/// The intact record at `pos` and the position behind it.
pub open spec fn record_at(data: Seq<u8>, pos: int) -> Option<(Record, int)> {
    if pos + 8 > data.len() {
        None
    } else {
        let len = bytes::u32_at(data, pos) as int;
        let end = pos + 8 + len;
        if end > data.len() {
            None
        } else {
            let body = data.subrange(pos + 8, end);
            if checksum::crc_of(body) != bytes::u32_at(data, pos + 4) || len < 8 {
                None
            } else {
                Some(((bytes::u64_at(body, 0), body.skip(8)), end))
            }
        }
    }
}

/// The intact records from `pos` on.
pub open spec fn records_from(data: Seq<u8>, pos: int) -> Seq<Record>
    decreases data.len() - pos,
{
    match record_at(data, pos) {
        Some((r, next)) => seq![r] + records_from(data, next),
        None => Seq::empty(),
    }
}

/// The position behind the last of the intact records from `pos` on.
pub open spec fn intact_end(data: Seq<u8>, pos: int) -> int
    decreases data.len() - pos,
{
    match record_at(data, pos) {
        Some((_, next)) => intact_end(data, next),
        None => pos,
    }
}

/// Frame one record.
pub fn encode_record(seq: u64, payload: &[u8]) -> (r: Vec<u8>)
    ensures
        r@ == frame((seq, payload@)),
{
    let mut body: Vec<u8> = Vec::new();
    bytes::put_u64(&mut body, seq);
    bytes::push_all(&mut body, payload);
    assert(body@ =~= record_body((seq, payload@)));
    let mut out: Vec<u8> = Vec::new();
    bytes::put_u32(&mut out, encoding::low32(body.len()));
    bytes::put_u32(&mut out, checksum::crc(body.as_slice()));
    bytes::push_all(&mut out, body.as_slice());
    assert(out@ =~= frame((seq, payload@)));
    out
}

/// The append side of a single log segment.
pub struct WalWriter {
    path: String,
    written: usize,
}

impl WalWriter {
    /// Where the segment is.
    pub closed spec fn path_view(&self) -> Seq<char> {
        self.path@
    }

    /// The bytes appended so far.
    pub closed spec fn written(&self) -> nat {
        self.written as nat
    }

    /// A fresh segment at `path`.
    pub fn create(path: String) -> (w: WalWriter)
        ensures
            w.path_view() == path@,
            w.written() == 0,
    {
        WalWriter { path, written: 0 }
    }

    /// Append one framed record carrying `seq` and `payload`: returns the bytes that go to the
    /// end of the segment.
    pub fn append(&mut self, seq: u64, payload: &[u8]) -> (r: Vec<u8>)
        requires
            old(self).written() + frame((seq, payload@)).len() <= usize::MAX,
        ensures
            r@ == frame((seq, payload@)),
            final(self).written() == old(self).written() + r@.len(),
            final(self).path_view() == old(self).path_view(),
    {
        let r = encode_record(seq, payload);
        self.written = self.written + r.len();
        r
    }

    /// Bytes written to this segment so far.
    pub fn size(&self) -> (n: usize)
        ensures
            n == self.written(),
    {
        self.written
    }

    /// Where the segment is.
    pub fn path(&self) -> (p: &str)
        ensures
            p@ == self.path_view(),
    {
        self.path.as_str()
    }
}

/// Reads a log segment, yielding intact records and stopping at the torn tail.
pub struct WalReader {
    data: Vec<u8>,
    pos: usize,
}

impl WalReader {
    /// The segment's bytes.
    pub closed spec fn data(&self) -> Seq<u8> {
        self.data@
    }

    /// How far the segment was read.
    pub closed spec fn pos(&self) -> nat {
        self.pos as nat
    }

    /// The reader is within its segment.
    pub closed spec fn wf(&self) -> bool {
        self.pos <= self.data@.len()
    }

    /// Read a segment from the bytes of its file.
    pub fn open(data: Vec<u8>) -> (r: WalReader)
        ensures
            r.wf(),
            r.data() == data@,
            r.pos() == 0,
    {
        WalReader { data, pos: 0 }
    }

    /// Byte offset behind the last record read. At the end of replay that is the first record
    /// that is not intact, or the segment's length when the whole segment is.
    pub fn valid_len(&self) -> (n: usize)
        ensures
            n == self.pos(),
    {
        self.pos
    }

    /// Next intact `(seq, payload)`, or `None` at the end or at a torn tail.
    pub fn next_record(&mut self) -> (r: Option<(u64, Vec<u8>)>)
        requires
            old(self).wf(),
        ensures
            final(self).wf(),
            final(self).data() == old(self).data(),
            match r {
                Some((seq, payload)) => record_at(old(self).data(), old(self).pos() as int) == Some(
                    ((seq, payload@), final(self).pos() as int),
                ) && final(self).pos() > old(self).pos(),
                None => record_at(old(self).data(), old(self).pos() as int) is None
                    && final(self).pos() == old(self).pos(),
            },
    {
        let n: usize = self.data.len();
        let start: usize = self.pos;
        if n - start < 8 {
            return None;
        }
        let len: u32 = bytes::read_u32(self.data.as_slice(), start);
        let crc: u32 = bytes::read_u32(self.data.as_slice(), start + 4);
        let body_start: usize = start + 8;
        if len as u64 > (n - body_start) as u64 {
            return None;
        }
        let body_end: usize = body_start + len as usize;
        let body = bytes::slice(self.data.as_slice(), body_start, body_end);
        if checksum::crc(body) != crc {
            return None;
        }
        if body.len() < 8 {
            return None;
        }
        let seq: u64 = bytes::read_u64(body, 0);
        let rest = bytes::slice(body, 8, body.len());
        assert(rest@ =~= body@.skip(8));
        let payload = bytes::copy(rest);
        self.pos = body_end;
        Some((seq, payload))
    }
}

proof fn lemma_record_roundtrip(before: Seq<u8>, r: Record, after: Seq<u8>)
    requires
        record_fits(r),
    ensures
        record_at(before + frame(r) + after, before.len() as int) == Some(
            (r, (before.len() + frame(r).len()) as int),
        ),
        frame(r).len() == 16 + r.1.len(),
{
    broadcast use bytes::group_be_len;
    let s = before + frame(r) + after;
    let pos = before.len() as int;
    let body = record_body(r);
    let len = encoding::len32(body.len());
    let c = checksum::crc_of(body);
    assert(s.subrange(pos, pos + 4) =~= bytes::be32(len));
    bytes::lemma_u32_at(s, pos, len);
    assert(s.subrange(pos + 4, pos + 8) =~= bytes::be32(c));
    bytes::lemma_u32_at(s, pos + 4, c);
    assert(s.subrange(pos + 8, pos + 8 + len) =~= body);
    assert(body.subrange(0, 8) =~= bytes::be64(r.0));
    bytes::lemma_u64_at(body, 0, r.0);
    assert(body.skip(8) =~= r.1);
}

proof fn lemma_log_prefix(rs: Seq<Record>, k: int) -> (after: Seq<u8>)
    requires
        0 <= k < rs.len(),
    ensures
        log_bytes(rs) == log_bytes(rs.take(k)) + frame(rs[k]) + after,
    decreases rs.len() - k,
{
    assert(rs.take(k + 1).drop_last() =~= rs.take(k));
    if k + 1 == rs.len() {
        assert(rs.take(k + 1) =~= rs);
        assert(log_bytes(rs) =~= log_bytes(rs.take(k)) + frame(rs[k]) + Seq::<u8>::empty());
        Seq::empty()
    } else {
        let a = lemma_log_prefix(rs, k + 1);
        assert(log_bytes(rs) =~= log_bytes(rs.take(k)) + frame(rs[k]) + (frame(rs[k + 1]) + a));
        frame(rs[k + 1]) + a
    }
}

proof fn lemma_records_suffix(rs: Seq<Record>, tail: Seq<u8>, k: int)
    requires
        0 <= k <= rs.len(),
        forall|i: int| 0 <= i < rs.len() ==> record_fits(#[trigger] rs[i]),
    ensures
        records_from(log_bytes(rs) + tail, log_bytes(rs.take(k)).len() as int) == rs.skip(k)
            + records_from(log_bytes(rs) + tail, log_bytes(rs).len() as int),
        intact_end(log_bytes(rs) + tail, log_bytes(rs.take(k)).len() as int) == intact_end(
            log_bytes(rs) + tail,
            log_bytes(rs).len() as int,
        ),
    decreases rs.len() - k,
{
    let data = log_bytes(rs) + tail;
    let end = records_from(data, log_bytes(rs).len() as int);
    if k == rs.len() {
        assert(rs.take(k) =~= rs);
        assert(rs.skip(k) + end =~= end);
    } else {
        let after = lemma_log_prefix(rs, k);
        let before = log_bytes(rs.take(k));
        assert(data =~= before + frame(rs[k]) + (after + tail));
        lemma_record_roundtrip(before, rs[k], after + tail);
        assert(rs.take(k + 1).drop_last() =~= rs.take(k));
        lemma_records_suffix(rs, tail, k + 1);
        assert(rs.skip(k) + end =~= seq![rs[k]] + (rs.skip(k + 1) + end));
    }
}

/// Replay of records followed by anything gives the records and goes on behind them.
pub proof fn lemma_replay_prefix(rs: Seq<Record>, tail: Seq<u8>)
    requires
        forall|i: int| 0 <= i < rs.len() ==> record_fits(#[trigger] rs[i]),
    ensures
        records_from(log_bytes(rs) + tail, 0) == rs + records_from(
            log_bytes(rs) + tail,
            log_bytes(rs).len() as int,
        ),
        intact_end(log_bytes(rs) + tail, 0) == intact_end(
            log_bytes(rs) + tail,
            log_bytes(rs).len() as int,
        ),
{
    assert(rs.take(0) =~= Seq::<Record>::empty());
    assert(rs.skip(0) =~= rs);
    lemma_records_suffix(rs, tail, 0);
}

/// What was appended to a log is what replay gives, all of it intact.
pub proof fn law_log_roundtrip(rs: Seq<Record>)
    requires
        forall|i: int| 0 <= i < rs.len() ==> record_fits(#[trigger] rs[i]),
    ensures
        records_from(log_bytes(rs), 0) == rs,
        intact_end(log_bytes(rs), 0) == log_bytes(rs).len(),
{
    let none = Seq::<u8>::empty();
    assert(log_bytes(rs) + none =~= log_bytes(rs));
    lemma_replay_prefix(rs, none);
    assert(rs + Seq::<Record>::empty() =~= rs);
}

/// A record that was cut short by a crash costs exactly itself: replay gives every record in
/// front of it, and the torn tail starts where it does.
pub proof fn law_torn_tail(rs: Seq<Record>, torn: Record, cut: int)
    requires
        forall|i: int| 0 <= i < rs.len() ==> record_fits(#[trigger] rs[i]),
        record_fits(torn),
        0 <= cut < frame(torn).len(),
    ensures
        records_from(log_bytes(rs) + frame(torn).take(cut), 0) == rs,
        intact_end(log_bytes(rs) + frame(torn).take(cut), 0) == log_bytes(rs).len(),
{
    broadcast use bytes::group_be_len;
    let tail = frame(torn).take(cut);
    let data = log_bytes(rs) + tail;
    let pos = log_bytes(rs).len() as int;
    lemma_replay_prefix(rs, tail);
    if cut >= 8 {
        let len = encoding::len32(record_body(torn).len());
        assert(data.subrange(pos, pos + 4) =~= bytes::be32(len));
        bytes::lemma_u32_at(data, pos, len);
    }
    assert(record_at(data, pos) is None);
    assert(rs + Seq::<Record>::empty() =~= rs);
}

} // verus!
