//! What the files hold: where each field of a record stands, and that damage is noticed instead of
//! read.

use vstd::prelude::*;
use crate::bytes;
use crate::engine::batch;
use crate::engine::batch::OpView;
use crate::engine::checksum;
use crate::engine::encoding;
use crate::engine::error::ErrorView;
use crate::engine::keys;
use crate::engine::keys::{Cf, LockKind, LockView};
use crate::engine::manifest;
use crate::engine::manifest::ManifestView;
use crate::engine::sstable::block;
use crate::engine::sstable::block::Entry;
use crate::engine::sstable::reader;
use crate::engine::sstable::reader::TableView;
use crate::engine::sstable::table;
use crate::engine::sstable::writer;
use crate::engine::wal;
use crate::engine::wal::Record;

verus! {

/// A record in the log: the length of what follows the header, its checksum, the sequence number
/// and the payload.
pub proof fn law_frame_layout(r: Record)
    requires
        wal::record_fits(r),
    ensures
        ({
            let f = wal::frame(r);
            &&& f.len() == r.1.len() + 16
            &&& bytes::u32_at(f, 0) == r.1.len() + 8
            &&& bytes::u32_at(f, 4) == checksum::crc_of(f.skip(8))
            &&& bytes::u64_at(f, 8) == r.0
            &&& f.skip(16) == r.1
        }),
{
    broadcast use bytes::group_be_len;
    let f = wal::frame(r);
    let body = wal::record_body(r);
    let len = encoding::len32(body.len());
    assert(f.subrange(0, 4) =~= bytes::be32(len));
    bytes::lemma_u32_at(f, 0, len);
    assert(f.subrange(4, 8) =~= bytes::be32(checksum::crc_of(body)));
    bytes::lemma_u32_at(f, 4, checksum::crc_of(body));
    assert(f.skip(8) =~= body);
    assert(f.subrange(8, 16) =~= bytes::be64(r.0));
    bytes::lemma_u64_at(f, 8, r.0);
    assert(f.skip(16) =~= r.1);
}

/// Replay stops at a record whose checksum is wrong: what is in front of it comes back, and neither
/// it nor anything behind it does.
pub proof fn law_log_damage(rs: Seq<Record>, rest: Seq<u8>)
    requires
        forall|i: int| 0 <= i < rs.len() ==> wal::record_fits(#[trigger] rs[i]),
        rest.len() >= 8,
        8 + bytes::u32_at(rest, 0) <= rest.len(),
        bytes::u32_at(rest, 4) != checksum::crc_of(
            rest.subrange(8, 8 + bytes::u32_at(rest, 0)),
        ),
    ensures
        wal::records_from(wal::log_bytes(rs) + rest, 0) == rs,
        wal::intact_end(wal::log_bytes(rs) + rest, 0) == wal::log_bytes(rs).len(),
{
    let data = wal::log_bytes(rs) + rest;
    let pos = wal::log_bytes(rs).len() as int;
    wal::lemma_replay_prefix(rs, rest);
    let len = bytes::u32_at(rest, 0) as int;
    assert(data.subrange(pos, pos + 4) =~= rest.subrange(0, 4));
    assert(data.subrange(pos + 4, pos + 8) =~= rest.subrange(4, 8));
    assert(data.subrange(pos + 8, pos + 8 + len) =~= rest.subrange(8, 8 + len));
    assert(wal::record_at(data, pos) is None);
    assert(rs + Seq::<Record>::empty() =~= rs);
}

/// A lock: its kind, when its transaction started, when it expires, and the primary key.
pub proof fn law_lock_layout(l: LockView)
    requires
        l.primary.len() < 0x1_0000_0000,
    ensures
        ({
            let b = keys::lock_bytes(l);
            &&& b.len() == l.primary.len() + 21
            &&& b[0] == (if l.kind == LockKind::Put {
                0u8
            } else {
                1u8
            })
            &&& bytes::u64_at(b, 1) == l.start_ts
            &&& bytes::u64_at(b, 9) == l.ttl
            &&& bytes::u32_at(b, 17) == l.primary.len()
            &&& b.skip(21) == l.primary
        }),
{
    broadcast use bytes::group_be_len;
    let b = keys::lock_bytes(l);
    assert(b.subrange(1, 9) =~= bytes::be64(l.start_ts));
    bytes::lemma_u64_at(b, 1, l.start_ts);
    assert(b.subrange(9, 17) =~= bytes::be64(l.ttl));
    bytes::lemma_u64_at(b, 9, l.ttl);
    let n = encoding::len32(l.primary.len());
    assert(b.subrange(17, 21) =~= bytes::be32(n));
    bytes::lemma_u32_at(b, 17, n);
    assert(b.skip(21) =~= l.primary);
}

/// A version's storage key: the user key, then the timestamp, counted down from the highest so
/// that newer versions sort first. A commit record holds just the start of its transaction.
pub proof fn law_version_layout(key: Seq<u8>, ts: u64)
    ensures
        ({
            let k = keys::data_key(key, ts);
            &&& k.len() == key.len() + 8
            &&& k.take(key.len() as int) == key
            &&& bytes::u64_at(k, key.len() as int) == u64::MAX - ts
        }),
        bytes::be64(ts).len() == 8,
        keys::write_value_of(bytes::be64(ts)) == Some(ts),
{
    broadcast use bytes::group_be_len;
    let k = keys::data_key(key, ts);
    encoding::law_ts_roundtrip(ts);
    assert(k.take(key.len() as int) =~= key);
    let t = encoding::ts_bytes(ts);
    let n = key.len() as int;
    assert(k.subrange(n, n + 8) =~= t);
    assert(t.subrange(0, 8) =~= t);
    keys::law_write_value_roundtrip(ts);
}

/// A stored value: a zero and the value, or a one for a deletion; anything else cannot be read.
pub proof fn law_value_layout(v: Seq<u8>, b: Seq<u8>)
    ensures
        keys::tagged(Some(v)).len() == v.len() + 1,
        keys::tagged(Some(v))[0] == 0,
        keys::tagged(Some(v)).skip(1) == v,
        keys::tagged(None) == seq![1u8],
        b.len() == 0 || b[0] > 1 ==> keys::untagged(b) is None,
{
    assert(keys::tagged(Some(v)).skip(1) =~= v);
}

/// A mutation in a batch: whether it puts or deletes, the family, the key with its length, and the
/// value with its length where there is one.
pub proof fn law_op_layout(op: OpView)
    requires
        op.fits(),
    ensures
        ({
            let b = op.encoded();
            let n = op.key.len() as int;
            &&& b[0] == (if op.value is Some {
                0u8
            } else {
                1u8
            })
            &&& b[1] == (match op.cf {
                Cf::Default => 0u8,
                Cf::Write => 1u8,
                Cf::Lock => 2u8,
            })
            &&& bytes::u32_at(b, 2) == n
            &&& b.subrange(6, 6 + n) == op.key
            &&& match op.value {
                Some(v) => b.len() == 10 + n + v.len() && bytes::u32_at(b, 6 + n) == v.len()
                    && b.skip(10 + n) == v,
                None => b.len() == 6 + n,
            }
        }),
{
    broadcast use bytes::group_be_len;
    let b = op.encoded();
    let n = op.key.len() as int;
    let m = encoding::len32(op.key.len());
    assert(b.subrange(2, 6) =~= bytes::be32(m));
    bytes::lemma_u32_at(b, 2, m);
    assert(b.subrange(6, 6 + n) =~= op.key);
    if let Some(v) = op.value {
        let w = encoding::len32(v.len());
        assert(b.subrange(6 + n, 10 + n) =~= bytes::be32(w));
        bytes::lemma_u32_at(b, 6 + n, w);
        assert(b.skip(10 + n) =~= v);
    }
}

/// A batch: the number of its mutations, then each of them, in order.
pub proof fn law_batch_layout(ops: Seq<OpView>, op: OpView)
    requires
        ops.len() < 0xffff_ffff,
    ensures
        bytes::u32_at(batch::batch_bytes(ops), 0) == ops.len(),
        batch::batch_bytes(ops.push(op)).skip(4) == batch::batch_bytes(ops).skip(4)
            + op.encoded(),
        batch::batch_bytes(Seq::empty()).len() == 4,
{
    broadcast use bytes::group_be_len;
    let b = batch::batch_bytes(ops);
    let n = encoding::len32(ops.len());
    assert(b.subrange(0, 4) =~= bytes::be32(n));
    bytes::lemma_u32_at(b, 0, n);
    let c = batch::batch_bytes(ops.push(op));
    assert(ops.push(op).drop_last() =~= ops);
    assert(b.skip(4) =~= batch::encoded_ops(ops));
    assert(c.skip(4) =~= batch::encoded_ops(ops.push(op)));
}

/// A manifest: a magic number, the watermark, the number of tables, their numbers, and a checksum
/// of all that.
pub proof fn law_manifest_layout(m: ManifestView, i: int)
    requires
        m.sstables.len() < 0x1_0000_0000,
        0 <= i < m.sstables.len(),
    ensures
        ({
            let b = manifest::manifest_bytes(m);
            let n = m.sstables.len();
            &&& b.len() == 24 + 8 * n
            &&& bytes::u64_at(b, 0) == 0x4d41_4e49_4630_31
            &&& bytes::u64_at(b, 8) == m.last_flushed_seq
            &&& bytes::u32_at(b, 16) == n
            &&& bytes::u64_at(b, 20 + 8 * i) == m.sstables[i]
            &&& bytes::u32_at(b, b.len() - 4) == checksum::crc_of(b.take(b.len() - 4))
        }),
{
    broadcast use {bytes::group_be_len, bytes::lemma_be64_list_len};
    let b = manifest::manifest_bytes(m);
    let body = manifest::manifest_body(m);
    let n = encoding::len32(m.sstables.len());
    assert(b.subrange(0, 8) =~= bytes::be64(manifest::MANIFEST_MAGIC));
    bytes::lemma_u64_at(b, 0, manifest::MANIFEST_MAGIC);
    assert(b.subrange(8, 16) =~= bytes::be64(m.last_flushed_seq));
    bytes::lemma_u64_at(b, 8, m.last_flushed_seq);
    assert(b.subrange(16, 20) =~= bytes::be32(n));
    bytes::lemma_u32_at(b, 16, n);
    bytes::lemma_be64_list_at(m.sstables, i);
    assert(b.subrange(20 + 8 * i, 28 + 8 * i) =~= bytes::be64_list(m.sstables).subrange(
        8 * i,
        8 * i + 8,
    ));
    bytes::lemma_u64_at(b, 20 + 8 * i, m.sstables[i]);
    assert(b.take(b.len() - 4) =~= body);
    assert(b.subrange(b.len() - 4, b.len() as int) =~= bytes::be32(checksum::crc_of(body)));
    bytes::lemma_u32_at(b, b.len() - 4, checksum::crc_of(body));
}

/// A manifest that is too short, whose checksum is wrong, or that is none at all is reported as
/// corrupt.
pub proof fn law_manifest_damage(b: Seq<u8>)
    ensures
        b.len() < 24 || bytes::u32_at(b, b.len() - 4) != checksum::crc_of(b.take(b.len() - 4))
            || bytes::u64_at(b, 0) != 0x4d41_4e49_4630_31 ==> manifest::manifest_of(b) matches Err(
            ErrorView::Corruption(_),
        ),
{
    if b.len() >= 24 {
        assert(b.take(b.len() - 4).subrange(0, 8) =~= b.subrange(0, 8));
    }
}

/// A table ends with where its index is, how long it is, and a magic number.
#[verifier::spinoff_prover]
pub proof fn law_table_layout(es: Seq<Entry>)
    requires
        table::table_fits(es),
    ensures
        ({
            let b = writer::table_bytes(es);
            let n = b.len() as int;
            &&& n >= 20
            &&& bytes::u64_at(b, n - 8) == 0x5353_5442_5f56_3031
            &&& bytes::u32_at(b, n - 12) == writer::index_block(writer::blocks_of(es)).len()
            &&& bytes::u64_at(b, n - 20) == writer::data_bytes(writer::blocks_of(es)).len()
            &&& n == bytes::u64_at(b, n - 20) + bytes::u32_at(b, n - 12) + 20
        }),
{
    let bl = writer::blocks_of(es);
    lemma_offset(bl);
    lemma_tail(
        writer::data_bytes(bl) + writer::index_block(bl),
        writer::offset_of(bl) as u64,
        encoding::len32(writer::index_block(bl).len()),
        writer::FOOTER_MAGIC,
    );
}

/// What stands in a tail of three numbers.
proof fn lemma_tail(pre: Seq<u8>, x: u64, y: u32, z: u64)
    ensures
        ({
            let b = pre + (bytes::be64(x) + bytes::be32(y) + bytes::be64(z));
            let n = b.len() as int;
            &&& n == pre.len() + 20
            &&& bytes::u64_at(b, n - 20) == x
            &&& bytes::u32_at(b, n - 12) == y
            &&& bytes::u64_at(b, n - 8) == z
        }),
{
    broadcast use bytes::group_be_len;
    let b = pre + (bytes::be64(x) + bytes::be32(y) + bytes::be64(z));
    let n = b.len() as int;
    assert(b.subrange(n - 20, n - 12) =~= bytes::be64(x));
    bytes::lemma_u64_at(b, n - 20, x);
    assert(b.subrange(n - 12, n - 8) =~= bytes::be32(y));
    bytes::lemma_u32_at(b, n - 12, y);
    assert(b.subrange(n - 8, n) =~= bytes::be64(z));
    bytes::lemma_u64_at(b, n - 8, z);
}

proof fn lemma_offset(bl: Seq<Seq<Entry>>)
    requires
        forall|i: int|
            0 <= i < bl.len() ==> writer::disk_block(#[trigger] bl[i]).len() < 0x1_0000_0000,
    ensures
        writer::offset_of(bl) == writer::data_bytes(bl).len(),
    decreases bl.len(),
{
    if bl.len() > 0 {
        let d = bl.drop_last();
        assert forall|i: int| 0 <= i < d.len() implies writer::disk_block(#[trigger] d[i]).len()
            < 0x1_0000_0000 by {
            assert(bl[i] == d[i]);
        }
        lemma_offset(d);
        assert(bl[bl.len() - 1] == bl.last());
    }
}

/// A file that is too short for a footer, does not end in the magic number, or whose index has a
/// wrong checksum does not open as a table.
pub proof fn law_table_damage(b: Seq<u8>, file_no: u64)
    ensures
        b.len() < 20 ==> reader::table_of(b, file_no) is Err,
        b.len() >= 20 && bytes::u64_at(b, b.len() - 8) != 0x5353_5442_5f56_3031
            ==> reader::table_of(b, file_no) is Err,
        b.len() >= 20 && ({
            let at = bytes::u64_at(b, b.len() - 20) as int;
            let len = bytes::u32_at(b, b.len() - 12) as int;
            len < 4 || at + len > b.len() || bytes::u32_at(b, at + len - 4) != checksum::crc_of(
                b.subrange(at, at + len - 4),
            )
        }) ==> reader::table_of(b, file_no) is Err,
{
    if b.len() >= 20 {
        let at = bytes::u64_at(b, b.len() - 20) as int;
        let len = bytes::u32_at(b, b.len() - 12) as int;
        if 4 <= len && at + len <= b.len() {
            let idx = b.subrange(at, at + len);
            assert(idx.take(len - 4) =~= b.subrange(at, at + len - 4));
            assert(idx.subrange(len - 4, len) =~= b.subrange(at + len - 4, at + len));
        }
    }
}

/// A block whose checksum is wrong is not read: a lookup that falls in it fails.
pub proof fn law_block_damage(t: TableView, i: int, cf: Cf, key: Seq<u8>)
    requires
        0 <= i < t.index.len(),
        ({
            let at = t.index[i].offset as int;
            let len = t.index[i].len as int;
            len < 4 || at + len > t.data.len() || bytes::u32_at(t.data, at + len - 4)
                != checksum::crc_of(t.data.subrange(at, at + len - 4))
        }),
    ensures
        t.block(i) is Err,
        t.split(reader::storage_key(cf, key)) == i + 1 ==> t.get(cf, key) is Err,
{
    let at = t.index[i].offset as int;
    let len = t.index[i].len as int;
    if 4 <= len && at + len <= t.data.len() {
        let b = t.data.subrange(at, at + len);
        assert(b.take(len - 4) =~= t.data.subrange(at, at + len - 4));
        assert(b.subrange(len - 4, len) =~= t.data.subrange(at + len - 4, at + len));
    }
}

/// An entry of a block: the key and the value, each with its length in front.
pub proof fn law_entry_layout(e: Entry)
    requires
        block::entry_fits(e),
    ensures
        ({
            let b = block::entry_bytes(e);
            let n = e.0.len() as int;
            &&& b.len() == 8 + n + e.1.len()
            &&& bytes::u32_at(b, 0) == n
            &&& b.subrange(4, 4 + n) == e.0
            &&& bytes::u32_at(b, 4 + n) == e.1.len()
            &&& b.skip(8 + n) == e.1
        }),
{
    broadcast use bytes::group_be_len;
    let b = block::entry_bytes(e);
    let n = e.0.len() as int;
    let k = encoding::len32(e.0.len());
    let v = encoding::len32(e.1.len());
    assert(b.subrange(0, 4) =~= bytes::be32(k));
    bytes::lemma_u32_at(b, 0, k);
    assert(b.subrange(4, 4 + n) =~= e.0);
    assert(b.subrange(4 + n, 8 + n) =~= bytes::be32(v));
    bytes::lemma_u32_at(b, 4 + n, v);
    assert(b.skip(8 + n) =~= e.1);
}

} // verus!
