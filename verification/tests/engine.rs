//! The storage engine: encodings, log, tables, commits, recovery, snapshots and transactions.

use arcux::engine::batch::WriteBatch;
use arcux::engine::clock::Tso;
use arcux::engine::commit::Commit;
use arcux::engine::db::{prewrite_op, Effect, Engine, GroupIo, Op};
use arcux::engine::encoding::{decode_ts, encode_ts, get_length_prefixed, put_length_prefixed};
use arcux::engine::error::Error;
use arcux::engine::keys::{
    decode_data_key, decode_write_value, encode_data_key, encode_write_value, Cf, Lock, LockKind,
    Value,
};
use arcux::engine::manifest::Manifest;
use arcux::engine::memtable::{MemValue, Memtable};
use arcux::engine::options::{FsyncMode, Options};
use arcux::engine::percolator::{Mutation, Transaction};
use arcux::engine::recovery::{list_numbered, segment_name, sst_name, DiskImage};
use arcux::engine::sstable::block::{encode_entry, entries};
use arcux::engine::sstable::reader::{make_storage_key, SstReader};
use arcux::engine::sstable::writer::SstWriter;
use arcux::engine::wal::{encode_record, WalReader, WalWriter};

const MAX_TTL: u64 = u64::MAX;

fn options() -> Options {
    Options::new("data".to_string())
}

fn open() -> Engine {
    Engine::open(options(), &DiskImage::new()).unwrap()
}

fn open_with(threshold: usize) -> Engine {
    Engine::open(options().with_memtable_threshold(threshold), &DiskImage::new()).unwrap()
}

fn commit_put(eng: &mut Engine, tso: &mut Tso, key: &[u8], val: &[u8]) -> u64 {
    let start_ts = tso.now();
    let txn =
        Transaction::new(start_ts, vec![Mutation::put(key.to_vec(), val.to_vec())]).unwrap();
    txn.prewrite(eng, MAX_TTL).unwrap();
    let commit_ts = tso.now();
    txn.commit(eng, commit_ts).unwrap();
    commit_ts
}

fn put(e: &mut Engine, key: &[u8], value: &[u8], start_ts: u64, commit_ts: u64) {
    let txn =
        Transaction::new(start_ts, vec![Mutation::put(key.to_vec(), value.to_vec())]).unwrap();
    txn.prewrite(e, commit_ts + 1_000_000).unwrap();
    txn.commit(e, commit_ts).unwrap();
}

fn del(e: &mut Engine, key: &[u8], start_ts: u64, commit_ts: u64) {
    let txn = Transaction::new(start_ts, vec![Mutation::delete(key.to_vec())]).unwrap();
    txn.prewrite(e, commit_ts + 1_000_000).unwrap();
    txn.commit(e, commit_ts).unwrap();
}

fn keys(pairs: &[(Vec<u8>, Vec<u8>)]) -> Vec<Vec<u8>> {
    pairs.iter().map(|(k, _)| k.clone()).collect()
}

fn one(cf: Cf, key: &[u8], value: &[u8]) -> WriteBatch {
    let mut b = WriteBatch::new();
    b.put(cf, key.to_vec(), value.to_vec());
    b
}

#[test]
fn batch_roundtrip() {
    let mut b = WriteBatch::new();
    b.put(Cf::Default, b"k1".to_vec(), b"v1".to_vec());
    b.delete(Cf::Lock, b"k1".to_vec());
    b.put(Cf::Write, b"k1".to_vec(), 42u64.to_be_bytes().to_vec());
    assert_eq!(b.len(), 3);
    let decoded = WriteBatch::decode(&b.encode()).unwrap();
    assert_eq!(decoded, b);
}

#[test]
fn empty_batch_roundtrip() {
    let b = WriteBatch::new();
    assert!(b.is_empty());
    assert_eq!(WriteBatch::decode(&b.encode()), Some(b));
}

#[test]
fn decode_rejects_garbage() {
    assert_eq!(WriteBatch::decode(&[]), None);
    assert_eq!(WriteBatch::decode(&[0, 0, 0, 5]), None); // claims 5 ops, has none
}

#[test]
fn clock_strictly_monotonic() {
    let mut tso = Tso::new();
    let a = tso.now();
    let b = tso.now();
    let c = tso.now();
    assert!(a < b && b < c);
}

#[test]
fn put_get_delete_raw() {
    let mut eng = open();
    let mut b = WriteBatch::new();
    b.put(Cf::Default, b"k1".to_vec(), b"v1".to_vec());
    b.put(Cf::Lock, b"k1".to_vec(), b"lock".to_vec());
    assert_eq!(eng.write(b).unwrap(), 1);

    assert_eq!(eng.get_cf_raw(Cf::Default, b"k1").unwrap(), Some(b"v1".to_vec()));
    assert_eq!(eng.get_cf_raw(Cf::Lock, b"k1").unwrap(), Some(b"lock".to_vec()));
    assert_eq!(eng.get_cf_raw(Cf::Write, b"k1").unwrap(), None);

    let mut b2 = WriteBatch::new();
    b2.delete(Cf::Lock, b"k1".to_vec());
    assert_eq!(eng.write(b2).unwrap(), 2);

    assert_eq!(eng.get_cf_raw(Cf::Lock, b"k1").unwrap(), None);
    assert_eq!(eng.get_cf_raw(Cf::Default, b"k1").unwrap(), Some(b"v1".to_vec()));
}

#[test]
fn flush_persists_and_reads_back_from_sstables() {
    // Tiny threshold forces many freezes/flushes.
    let mut eng = open_with(256);
    for i in 0..200u64 {
        let mut b = WriteBatch::new();
        b.put(Cf::Default, format!("key{i:04}").into_bytes(), vec![b'x'; 32]);
        eng.write(b).unwrap();
    }
    assert!(eng.sstable_count() > 1, "expected multiple SSTables");
    assert!(eng.last_flushed_seq() > 0);

    // Every key must still be readable — now served from SSTables.
    for i in 0..200u64 {
        assert_eq!(
            eng.get_cf_raw(Cf::Default, format!("key{i:04}").as_bytes()).unwrap(),
            Some(vec![b'x'; 32]),
            "key{i} lost after flush"
        );
    }

    // The manifest on disk reflects the live SSTables.
    let mut disk = DiskImage::new();
    disk.perform_all(&eng.take_effects());
    let m = Manifest::load(disk.manifest.as_deref()).unwrap();
    assert_eq!(m.sstables.len(), eng.sstable_count());
    assert_eq!(m.last_flushed_seq, eng.last_flushed_seq());
}

#[test]
fn tombstone_in_sstable_shadows_older_sstable() {
    let mut eng = open_with(64);

    // First flush: put k -> v.
    let mut b = WriteBatch::new();
    b.put(Cf::Default, b"k".to_vec(), b"v".to_vec());
    b.put(Cf::Default, b"filler1".to_vec(), vec![b'a'; 64]); // force a freeze
    eng.write(b).unwrap();

    // Second flush: delete k.
    let mut b2 = WriteBatch::new();
    b2.delete(Cf::Default, b"k".to_vec());
    b2.put(Cf::Default, b"filler2".to_vec(), vec![b'b'; 64]); // force another freeze
    eng.write(b2).unwrap();

    assert!(eng.sstable_count() >= 2);
    assert_eq!(eng.get_cf_raw(Cf::Default, b"k").unwrap(), None, "newer tombstone must win");
}

#[test]
fn ts_roundtrip_and_bounds() {
    for ts in [0u64, 1, 42, u64::MAX - 1, u64::MAX] {
        assert_eq!(decode_ts(&encode_ts(ts)), ts);
    }
}

#[test]
fn newer_ts_sorts_first() {
    // ts=10 is newer than ts=5, so its encoding must be lexicographically smaller.
    assert!(encode_ts(10) < encode_ts(5));
    assert!(encode_ts(u64::MAX) < encode_ts(0));
}

#[test]
fn length_prefixed_roundtrip() {
    let mut buf = Vec::new();
    put_length_prefixed(&mut buf, b"hello");
    put_length_prefixed(&mut buf, b"");
    put_length_prefixed(&mut buf, b"world!");
    let mut pos = 0;
    assert_eq!(get_length_prefixed(&buf, &mut pos), Some(&b"hello"[..]));
    assert_eq!(get_length_prefixed(&buf, &mut pos), Some(&b""[..]));
    assert_eq!(get_length_prefixed(&buf, &mut pos), Some(&b"world!"[..]));
    assert_eq!(get_length_prefixed(&buf, &mut pos), None); // exhausted
}

#[test]
fn length_prefixed_detects_truncation() {
    let mut buf = Vec::new();
    put_length_prefixed(&mut buf, b"abcdef");
    buf.truncate(buf.len() - 2); // chop the tail
    let mut pos = 0;
    assert_eq!(get_length_prefixed(&buf, &mut pos), None);
}

#[test]
fn data_key_roundtrip() {
    let k = encode_data_key(b"account/alice", 1234);
    let (uk, ts) = decode_data_key(&k).unwrap();
    assert_eq!(uk, b"account/alice");
    assert_eq!(ts, 1234);
}

#[test]
fn data_key_versions_sort_newest_first() {
    let older = encode_data_key(b"k", 5);
    let newer = encode_data_key(b"k", 9);
    assert!(newer < older, "newer version must sort before older");
}

#[test]
fn value_roundtrip() {
    assert_eq!(
        Value::decode(&Value::Put(b"v".to_vec()).encode()),
        Some(Value::Put(b"v".to_vec()))
    );
    assert_eq!(Value::decode(&Value::Delete.encode()), Some(Value::Delete));
    assert_eq!(Value::decode(&[]), None);
}

#[test]
fn write_value_roundtrip() {
    assert_eq!(decode_write_value(&encode_write_value(777)), Some(777));
    assert_eq!(decode_write_value(&[1, 2, 3]), None);
}

#[test]
fn lock_roundtrip() {
    let lock = Lock {
        primary: b"primary-key".to_vec(),
        start_ts: 100,
        ttl: 250,
        kind: LockKind::Put,
    };
    assert_eq!(Lock::decode(&lock.encode()), Some(lock.clone()));
    assert!(lock.is_primary(b"primary-key"));
    assert!(!lock.is_primary(b"secondary-key"));
}

#[test]
fn cf_id_roundtrip() {
    for cf in Cf::ALL {
        assert_eq!(Cf::from_u8(cf.id()), Some(cf));
    }
    assert_eq!(Cf::from_u8(99), None);
}

#[test]
fn roundtrip_through_disk() {
    let mut disk = DiskImage::new();
    assert_eq!(Manifest::load(disk.manifest.as_deref()).unwrap(), Manifest::default());

    let m = Manifest { last_flushed_seq: 42, sstables: vec![1, 2, 7] };
    disk.perform(&Effect::StoreManifest(m.encode()));
    assert_eq!(Manifest::load(disk.manifest.as_deref()).unwrap(), m);

    // Overwrite atomically with a newer image.
    let m2 = Manifest { last_flushed_seq: 99, sstables: vec![1, 2, 7, 9] };
    disk.perform(&Effect::StoreManifest(m2.encode()));
    assert_eq!(Manifest::load(disk.manifest.as_deref()).unwrap(), m2);
}

#[test]
fn detects_corruption() {
    let m = Manifest { last_flushed_seq: 5, sstables: vec![3] };
    let mut bytes = m.encode();
    let n = bytes.len();
    bytes[n - 5] ^= 0xFF; // flip a byte in the body
    assert!(Manifest::load(Some(&bytes)).is_err());
}

#[test]
fn apply_get_seek() {
    let mut m = Memtable::new();
    let mut b = WriteBatch::new();
    b.put(Cf::Default, b"a".to_vec(), b"1".to_vec());
    b.put(Cf::Default, b"c".to_vec(), b"3".to_vec());
    b.delete(Cf::Lock, b"x".to_vec());
    m.apply(5, &b);

    assert_eq!(m.get_cf(Cf::Default, b"a"), Some(MemValue::Put(b"1".to_vec())));
    assert_eq!(m.get_cf(Cf::Lock, b"x"), Some(MemValue::Delete));
    assert_eq!(m.get_cf(Cf::Default, b"missing"), None);
    assert_eq!(m.max_seq(), 5);

    // seek("b") -> first key >= "b" is "c"
    assert_eq!(
        m.seek_cf(Cf::Default, b"b"),
        Some((b"c".to_vec(), MemValue::Put(b"3".to_vec())))
    );
    // seek past the end -> None
    assert_eq!(m.seek_cf(Cf::Default, b"z"), None);
}

#[test]
fn later_write_overwrites() {
    let mut m = Memtable::new();
    let mut b = WriteBatch::new();
    b.put(Cf::Default, b"k".to_vec(), b"old".to_vec());
    m.apply(1, &b);
    let mut b2 = WriteBatch::new();
    b2.put(Cf::Default, b"k".to_vec(), b"new".to_vec());
    m.apply(2, &b2);
    assert_eq!(m.get_cf(Cf::Default, b"k"), Some(MemValue::Put(b"new".to_vec())));
}

#[test]
fn unresolved_read_reports_a_lock_then_sees_the_commit() {
    let mut e = open();

    // Prewrite leaves a lock at start_ts=10 (the txn is in-flight, not yet committed).
    e.prewrite_one(b"k", &Value::Put(b"v".to_vec()), b"k", 10, 1_000_000).unwrap();

    // A non-mutating read at/after the lock's start_ts reports it instead of resolving.
    match e.mvcc_get_unresolved(b"k", 20) {
        Err(Error::KeyIsLocked(_)) => {}
        other => panic!("expected KeyIsLocked, got {other:?}"),
    }
    // A read *before* the lock exists is unshadowed and simply sees no committed version.
    assert_eq!(e.mvcc_get_unresolved(b"k", 5).unwrap(), None);

    // Once the txn commits, the lock is gone and the value is visible.
    e.resolve_commit(b"k", 10, 15).unwrap();
    assert_eq!(e.mvcc_get_unresolved(b"k", 20).unwrap(), Some(b"v".to_vec()));
}

#[test]
fn scans_a_range_in_key_order() {
    let mut e = open();
    for (i, k) in [b"a", b"b", b"c", b"d"].iter().enumerate() {
        put(&mut e, *k, b"v", 10 + i as u64, 20 + i as u64);
    }
    let all = e.scan(b"", b"", 1000, 0, true).unwrap();
    assert_eq!(keys(&all), vec![b"a".to_vec(), b"b".to_vec(), b"c".to_vec(), b"d".to_vec()]);
    // Half-open [b, d): b, c — d excluded.
    let mid = e.scan(b"b", b"d", 1000, 0, true).unwrap();
    assert_eq!(keys(&mid), vec![b"b".to_vec(), b"c".to_vec()]);
}

#[test]
fn scan_sees_the_version_at_read_ts() {
    let mut e = open();
    put(&mut e, b"k", b"v1", 10, 20);
    put(&mut e, b"k", b"v2", 30, 40);
    assert_eq!(
        e.scan(b"k", b"z", 25, 0, true).unwrap(),
        vec![(b"k".to_vec(), b"v1".to_vec())]
    );
    assert_eq!(
        e.scan(b"k", b"z", 45, 0, true).unwrap(),
        vec![(b"k".to_vec(), b"v2".to_vec())]
    );
    // Before any commit → empty.
    assert!(e.scan(b"k", b"z", 5, 0, true).unwrap().is_empty());
}

#[test]
fn scan_skips_deleted_keys() {
    let mut e = open();
    put(&mut e, b"a", b"1", 10, 20);
    put(&mut e, b"b", b"2", 10, 20);
    del(&mut e, b"a", 30, 40);
    let live = e.scan(b"", b"", 1000, 0, true).unwrap();
    assert_eq!(keys(&live), vec![b"b".to_vec()], "the deleted key drops out of the scan");
}

#[test]
fn scan_respects_limit() {
    let mut e = open();
    for k in [b"a", b"b", b"c", b"d"] {
        put(&mut e, k, b"v", 10, 20);
    }
    let two = e.scan(b"", b"", 1000, 2, true).unwrap();
    assert_eq!(keys(&two), vec![b"a".to_vec(), b"b".to_vec()]);
}

#[test]
fn scan_merges_across_memtable_and_sstables() {
    // A tiny memtable threshold forces flushes, so the data spans multiple SSTables; the
    // merge must still return a single ordered stream (and the newest version per key).
    let mut e = open_with(1); // flush aggressively

    put(&mut e, b"a", b"1", 10, 20);
    put(&mut e, b"c", b"3", 10, 20);
    put(&mut e, b"b", b"2", 10, 20);
    put(&mut e, b"b", b"2b", 30, 40); // a newer version of b, in a later level
    assert!(e.sstable_count() > 0, "the tiny threshold should have flushed SSTables");

    let all = e.scan(b"", b"", 1000, 0, true).unwrap();
    assert_eq!(
        all,
        vec![
            (b"a".to_vec(), b"1".to_vec()),
            (b"b".to_vec(), b"2b".to_vec()), // newest version wins across levels
            (b"c".to_vec(), b"3".to_vec()),
        ],
    );
}

#[test]
fn block_entries_roundtrip() {
    let mut buf = Vec::new();
    encode_entry(&mut buf, b"\x00aaa", b"\x00v1");
    encode_entry(&mut buf, b"\x00bbb", b"\x01"); // tombstone-encoded value
    let got: Vec<_> = entries(&buf);
    assert_eq!(
        got,
        vec![
            (b"\x00aaa".to_vec(), b"\x00v1".to_vec()),
            (b"\x00bbb".to_vec(), b"\x01".to_vec()),
        ]
    );
}

#[test]
fn record_roundtrip() {
    let mut file: Vec<u8> = Vec::new();
    let mut w = WalWriter::create("000.wal".to_string());
    file.extend(w.append(1, b"alpha"));
    file.extend(w.append(2, b""));
    file.extend(w.append(3, b"gamma-payload"));
    assert_eq!(w.size(), file.len());
    assert_eq!(w.path(), "000.wal");
    let len = file.len();
    let mut r = WalReader::open(file);
    assert_eq!(r.next_record(), Some((1, b"alpha".to_vec())));
    assert_eq!(r.next_record(), Some((2, b"".to_vec())));
    assert_eq!(r.next_record(), Some((3, b"gamma-payload".to_vec())));
    assert_eq!(r.next_record(), None);
    assert_eq!(r.valid_len(), len);
}

#[test]
fn round_trips_real_batches() {
    let mut b1 = WriteBatch::new();
    b1.put(Cf::Default, b"alice".to_vec(), b"100".to_vec());
    let mut b2 = WriteBatch::new();
    b2.put(Cf::Write, b"alice".to_vec(), 7u64.to_be_bytes().to_vec());
    b2.delete(Cf::Lock, b"alice".to_vec());

    let mut file: Vec<u8> = Vec::new();
    {
        let mut w = WalWriter::create("000001.wal".to_string());
        file.extend(w.append(10, &b1.encode()));
        file.extend(w.append(11, &b2.encode()));
    }

    let mut r = WalReader::open(file);
    let (s1, p1) = r.next_record().unwrap();
    let (s2, p2) = r.next_record().unwrap();
    assert_eq!((s1, WriteBatch::decode(&p1).unwrap()), (10, b1));
    assert_eq!((s2, WriteBatch::decode(&p2).unwrap()), (11, b2));
    assert_eq!(r.next_record(), None);
}

#[test]
fn truncated_tail_is_discarded() {
    let mut file: Vec<u8> = Vec::new();
    {
        let mut w = WalWriter::create("000001.wal".to_string());
        file.extend(w.append(1, b"first"));
        file.extend(w.append(2, b"second"));
        file.extend(w.append(3, b"third-record-that-will-be-torn"));
    }
    // A crash mid-append: bytes off the end, so that the last record's body is truncated.
    file.truncate(file.len() - 6);

    let mut r = WalReader::open(file);
    assert_eq!(r.next_record(), Some((1, b"first".to_vec())));
    assert_eq!(r.next_record(), Some((2, b"second".to_vec())));
    assert_eq!(r.next_record(), None, "torn third record must be dropped");
}

#[test]
fn bitflip_in_tail_record_fails_crc() {
    let mut file: Vec<u8> = Vec::new();
    {
        let mut w = WalWriter::create("000001.wal".to_string());
        file.extend(w.append(1, b"intact"));
        file.extend(w.append(2, b"corruptme"));
    }
    // Flip the very last byte of the file (inside record 2's payload).
    let last = file.len() - 1;
    file[last] ^= 0xFF;

    let mut r = WalReader::open(file);
    assert_eq!(r.next_record(), Some((1, b"intact".to_vec())));
    assert_eq!(r.next_record(), None, "CRC mismatch must stop replay at record 2");
}

#[test]
fn reopen_preserves_mixed_sstable_and_wal_data() {
    // Small threshold so the first ~half flushes to SSTables and the rest stays in
    // the active memtable / WAL tail.
    let opts = || options().with_memtable_threshold(512);
    let mut disk = DiskImage::new();

    {
        let mut eng = Engine::open(opts(), &disk).unwrap();
        for i in 0..300u64 {
            let mut b = WriteBatch::new();
            b.put(
                Cf::Default,
                format!("key{i:05}").into_bytes(),
                format!("val{i}").into_bytes(),
            );
            eng.write(b).unwrap();
        }
        assert!(eng.sstable_count() > 0, "expected some flushed SSTables");
        assert!(eng.last_seq() > eng.last_flushed_seq(), "expected un-flushed WAL tail");
        disk.perform_all(&eng.take_effects());
    }

    // Reopen: recovery must reconstruct every key from SSTables + replayed WAL.
    let eng = Engine::open(opts(), &disk).unwrap();
    for i in 0..300u64 {
        assert_eq!(
            eng.get_cf_raw(Cf::Default, format!("key{i:05}").as_bytes()).unwrap(),
            Some(format!("val{i}").into_bytes()),
            "key{i} missing after reopen"
        );
    }
    // Sequence numbers must not regress.
    assert_eq!(eng.last_seq(), 300);
}

#[test]
fn snapshot_is_stable_across_later_commits() {
    let mut eng = open();
    let mut tso = Tso::new();

    commit_put(&mut eng, &mut tso, b"x", b"v1");
    let rt = tso.now(); // snapshot after v1, before v2
    commit_put(&mut eng, &mut tso, b"x", b"v2");

    // The old snapshot still sees v1; a fresh snapshot sees v2.
    assert_eq!(eng.snapshot(rt).get(&mut eng, b"x").unwrap(), Some(b"v1".to_vec()));
    let rt2 = tso.now();
    assert_eq!(eng.snapshot(rt2).get(&mut eng, b"x").unwrap(), Some(b"v2".to_vec()));
}

#[test]
fn no_dirty_reads() {
    let mut eng = open();
    let mut tso = Tso::new();

    commit_put(&mut eng, &mut tso, b"p", b"base");
    let rt_mid = tso.now(); // after base commit

    // An uncommitted prewrite at a *later* start_ts than our snapshot.
    let sd = tso.now();
    eng.prewrite_one(b"p", &Value::Put(b"dirty".to_vec()), b"p", sd, MAX_TTL).unwrap();

    // The snapshot taken before the dirty txn started sees committed base, never dirty.
    assert_eq!(eng.snapshot(rt_mid).get(&mut eng, b"p").unwrap(), Some(b"base".to_vec()));
}

#[test]
fn commit_makes_value_visible_at_and_after_commit_ts() {
    let mut eng = open();
    let mut tso = Tso::new();
    let start_ts = tso.now();
    let txn = Transaction::new(
        start_ts,
        vec![Mutation::put(b"acct".to_vec(), b"100".to_vec())],
    )
    .unwrap();
    txn.prewrite(&mut eng, MAX_TTL).unwrap();
    let commit_ts = tso.now();
    txn.commit(&mut eng, commit_ts).unwrap();

    // Visible after commit.
    let rt = tso.now();
    assert_eq!(eng.snapshot(rt).get(&mut eng, b"acct").unwrap(), Some(b"100".to_vec()));
    // A snapshot taken at our own start_ts must NOT see it (committed later).
    assert_eq!(eng.snapshot(start_ts).get(&mut eng, b"acct").unwrap(), None);
}

#[test]
fn prewrite_aborts_on_existing_lock() {
    let mut eng = open();
    let mut tso = Tso::new();
    let t1 = tso.now();
    eng.prewrite_one(b"k", &Value::Put(b"a".to_vec()), b"k", t1, MAX_TTL).unwrap();

    let t2 = tso.now();
    let res = eng.prewrite_one(b"k", &Value::Put(b"b".to_vec()), b"k", t2, MAX_TTL);
    assert!(
        matches!(res, Err(Error::Conflict(_))),
        "second prewrite must conflict on the lock"
    );
}

#[test]
fn prewrite_aborts_on_write_after_snapshot() {
    let mut eng = open();
    let mut tso = Tso::new();
    // Allocate a *stale* start_ts first.
    let stale_start = tso.now();
    // Another transaction commits the same key at a later commit_ts.
    commit_put(&mut eng, &mut tso, b"k", b"newer");
    // Prewriting with the stale start_ts now sees a commit newer than our snapshot.
    let res = eng.prewrite_one(b"k", &Value::Put(b"x".to_vec()), b"k", stale_start, MAX_TTL);
    assert!(matches!(res, Err(Error::Conflict(_))), "write-after-snapshot must conflict");
}

#[test]
fn reader_rolls_committed_secondary_forward() {
    let mut eng = open();
    let mut tso = Tso::new();
    // Two-key txn: primary p, secondary s.
    let start_ts = tso.now();
    let muts = vec![
        Mutation::put(b"p".to_vec(), b"vp".to_vec()),
        Mutation::put(b"s".to_vec(), b"vs".to_vec()),
    ];
    let txn = Transaction::new(start_ts, muts).unwrap();
    txn.prewrite(&mut eng, MAX_TTL).unwrap();
    let commit_ts = tso.now();
    // A crash after the primary commit but before secondaries are finalized.
    txn.commit_primary(&mut eng, commit_ts).unwrap();
    assert!(eng.get_cf_raw(Cf::Lock, b"s").unwrap().is_some(), "secondary still locked");

    // A reader resolves the leftover lock by rolling the secondary forward.
    let rt = tso.now();
    assert_eq!(eng.snapshot(rt).get(&mut eng, b"s").unwrap(), Some(b"vs".to_vec()));
    assert_eq!(eng.snapshot(rt).get(&mut eng, b"p").unwrap(), Some(b"vp".to_vec()));
    // The lock is gone and a Write record now exists for s.
    assert_eq!(eng.get_cf_raw(Cf::Lock, b"s").unwrap(), None);
    assert!(eng.get_cf_raw(Cf::Write, &encode_data_key(b"s", rt)).is_ok());
}

#[test]
fn reader_rolls_back_expired_lock_to_prior_value() {
    let mut eng = open();
    let mut tso = Tso::new();
    // Prior committed value.
    commit_put(&mut eng, &mut tso, b"p", b"old");

    // A new txn prewrites p="new" with a TTL that is already in the past for any
    // later reader (ttl == its own start_ts), and never commits.
    let s1 = tso.now();
    eng.prewrite_one(b"p", &Value::Put(b"new".to_vec()), b"p", s1, /*ttl*/ s1).unwrap();

    let rt = tso.now();
    assert!(rt > s1, "reader timestamp must exceed the expired ttl");
    // Reader rolls the dead lock back and sees the prior committed value.
    assert_eq!(eng.snapshot(rt).get(&mut eng, b"p").unwrap(), Some(b"old".to_vec()));
    assert_eq!(eng.get_cf_raw(Cf::Lock, b"p").unwrap(), None, "expired lock removed");
    assert_eq!(
        eng.get_cf_raw(Cf::Default, &encode_data_key(b"p", s1)).unwrap(),
        None,
        "uncommitted value removed"
    );
}

#[test]
fn reader_waits_on_live_lock() {
    let mut eng = open();
    let mut tso = Tso::new();
    let s = tso.now();
    eng.prewrite_one(b"q", &Value::Put(b"pending".to_vec()), b"q", s, MAX_TTL).unwrap();

    let rt = tso.now();
    let res = eng.snapshot(rt).get(&mut eng, b"q");
    assert!(
        matches!(res, Err(Error::KeyIsLocked(_))),
        "a live lock must block the read, not expose the value"
    );
}

// ---- more of each part --------------------------------------------------------------

#[test]
fn timestamps_have_fixed_bytes() {
    assert_eq!(encode_ts(0), [0xFF; 8]);
    assert_eq!(encode_ts(u64::MAX), [0; 8]);
    assert_eq!(encode_ts(1), [0xFF, 0xFF, 0xFF, 0xFF, 0xFF, 0xFF, 0xFF, 0xFE]);
    assert_eq!(encode_data_key(b"k", u64::MAX), b"k\0\0\0\0\0\0\0\0".to_vec());
    assert_eq!(decode_data_key(b"short"), None);
    let mut buf = Vec::new();
    put_length_prefixed(&mut buf, b"ab");
    assert_eq!(buf, vec![0, 0, 0, 2, b'a', b'b']);
}

#[test]
fn a_record_is_framed_by_length_and_checksum() {
    let r = encode_record(7, b"abc");
    assert_eq!(r.len(), 4 + 4 + 8 + 3);
    assert_eq!(&r[8..16], &7u64.to_be_bytes()[..]);
    assert_eq!(&r[16..], &b"abc"[..]);
    // The checksum covers the sequence number: another one is another checksum.
    assert_ne!(encode_record(8, b"abc")[0..8], r[0..8]);
}

#[test]
fn a_table_gives_back_what_was_added() {
    let mut w = SstWriter::create();
    for i in 0..500u32 {
        let key = make_storage_key(Cf::Default, format!("key{i:05}").as_bytes());
        let value = MemValue::Put(vec![b'v'; (i % 40) as usize]).encode();
        w.add(&key, &value);
    }
    w.add(&make_storage_key(Cf::Write, b"w"), &MemValue::Delete.encode());
    let t = SstReader::open(w.finish(), 3).unwrap();
    assert_eq!(t.file_no(), 3);
    assert_eq!(t.get(Cf::Default, b"key00017").unwrap(), Some(MemValue::Put(vec![b'v'; 17])));
    assert_eq!(t.get(Cf::Default, b"key00500").unwrap(), None);
    assert_eq!(t.get(Cf::Write, b"w").unwrap(), Some(MemValue::Delete));
    assert_eq!(t.get(Cf::Lock, b"w").unwrap(), None);
    assert_eq!(
        t.seek(Cf::Default, b"key00017x").unwrap(),
        Some((b"key00018".to_vec(), MemValue::Put(vec![b'v'; 18])))
    );
    // A seek stays in its family.
    assert_eq!(t.seek(Cf::Default, b"zzz").unwrap(), None);
    assert_eq!(t.seek(Cf::Write, b"").unwrap(), Some((b"w".to_vec(), MemValue::Delete)));
}

#[test]
fn a_damaged_table_is_refused() {
    let mut w = SstWriter::create();
    w.add(&make_storage_key(Cf::Default, b"k"), &MemValue::Put(b"v".to_vec()).encode());
    let good = w.finish();
    assert!(SstReader::open(good.clone(), 1).is_ok());
    assert!(SstReader::open(good[..10].to_vec(), 1).is_err());
    let mut bad = good.clone();
    let n = bad.len();
    bad[n - 1] ^= 1; // the magic
    match SstReader::open(bad, 1) {
        Err(Error::Corruption(_)) => {}
        _ => panic!("expected a corruption error"),
    }
}

#[test]
fn a_memtable_lists_its_keys_in_order() {
    let mut m = Memtable::new();
    assert!(m.is_empty());
    let mut b = WriteBatch::new();
    b.put(Cf::Write, b"c".to_vec(), b"3".to_vec());
    b.put(Cf::Write, b"a".to_vec(), b"1".to_vec());
    b.delete(Cf::Write, b"b".to_vec());
    m.apply(9, &b);
    assert!(!m.is_empty());
    assert_eq!(
        m.iter_cf(Cf::Write),
        vec![
            (b"a".to_vec(), MemValue::Put(b"1".to_vec())),
            (b"b".to_vec(), MemValue::Delete),
            (b"c".to_vec(), MemValue::Put(b"3".to_vec())),
        ]
    );
    assert_eq!(m.iter_cf(Cf::Default), vec![]);
    assert_eq!(MemValue::Delete.into_present(), None);
}

#[test]
fn a_group_gets_rising_sequence_numbers() {
    let mut eng = open();
    let group = vec![
        Op::Write(one(Cf::Default, b"a", b"1")),
        Op::Write(one(Cf::Default, b"b", b"2")),
        Op::Write(one(Cf::Default, b"c", b"3")),
    ];
    let r = eng.process_group(&group, &GroupIo::clean());
    assert_eq!(r.len(), 3);
    assert_eq!(*r[0].as_ref().unwrap(), 1);
    assert_eq!(*r[1].as_ref().unwrap(), 2);
    assert_eq!(*r[2].as_ref().unwrap(), 3);
    assert_eq!(eng.last_seq(), 3);
}

#[test]
fn a_failed_sync_fails_the_whole_group() {
    let mut eng = open();
    let group =
        vec![Op::Write(one(Cf::Default, b"a", b"1")), Op::Write(one(Cf::Default, b"b", b"2"))];
    let mut io = GroupIo::clean();
    io.sync = Some("disk on fire".to_string());
    let r = eng.process_group(&group, &io);
    for x in &r {
        match x {
            Err(e) => assert!(e.message().contains("disk on fire")),
            Ok(n) => panic!("{n} was acknowledged without a flush"),
        }
    }
}

#[test]
fn two_prewrites_of_a_key_in_one_group_exclude_each_other() {
    let mut eng = open();
    let group = vec![
        prewrite_op(b"k", &Value::Put(b"a".to_vec()), b"k", 5, MAX_TTL),
        prewrite_op(b"k", &Value::Delete, b"k", 6, MAX_TTL),
    ];
    let r = eng.process_group(&group, &GroupIo::clean());
    assert!(r[0].is_ok());
    assert!(matches!(r[1], Err(Error::Conflict(_))));
    // The first lock stands.
    let raw = eng.get_cf_raw(Cf::Lock, b"k").unwrap().unwrap();
    let lock = Lock::decode(&raw).unwrap();
    assert_eq!((lock.start_ts, lock.kind, lock.ttl), (5, LockKind::Put, MAX_TTL));
}

#[test]
fn a_resolution_of_another_transaction_does_nothing() {
    let mut eng = open();
    eng.prewrite_one(b"k", &Value::Put(b"v".to_vec()), b"k", 10, MAX_TTL).unwrap();
    eng.resolve_rollback(b"k", 9).unwrap();
    eng.resolve_commit(b"k", 8, 20).unwrap();
    assert!(eng.get_cf_raw(Cf::Lock, b"k").unwrap().is_some());
    eng.resolve_rollback(b"k", 10).unwrap();
    assert_eq!(eng.get_cf_raw(Cf::Lock, b"k").unwrap(), None);
    assert_eq!(eng.mvcc_get(b"k", 100).unwrap(), None);
}

#[test]
fn a_transaction_needs_a_mutation() {
    assert!(matches!(Transaction::new(1, vec![]), Err(Error::InvalidArgument(_))));
    let txn = Transaction::new(
        4,
        vec![Mutation::put(b"p".to_vec(), b"1".to_vec()), Mutation::delete(b"s".to_vec())],
    )
    .unwrap();
    assert_eq!(txn.start_ts(), 4);
    assert_eq!(txn.primary(), b"p");
}

#[test]
fn a_failed_prewrite_of_a_transaction_leaves_no_lock() {
    let mut eng = open();
    eng.prewrite_one(b"b", &Value::Put(b"x".to_vec()), b"b", 5, MAX_TTL).unwrap();
    let txn = Transaction::new(
        7,
        vec![
            Mutation::put(b"a".to_vec(), b"1".to_vec()),
            Mutation::put(b"b".to_vec(), b"2".to_vec()),
        ],
    )
    .unwrap();
    assert!(matches!(txn.prewrite(&mut eng, MAX_TTL), Err(Error::Conflict(_))));
    assert_eq!(eng.get_cf_raw(Cf::Lock, b"a").unwrap(), None);
}

#[test]
fn transfers_conserve_the_sum() {
    let mut eng = open();
    let mut tso = Tso::new();
    for k in [b"a", b"b", b"c"] {
        commit_put(&mut eng, &mut tso, k, &[100]);
    }
    let mut rng: u64 = 7;
    for _ in 0..60 {
        rng = rng.wrapping_mul(6364136223846793005).wrapping_add(1442695040888963407);
        let from = ((rng >> 33) % 3) as usize;
        let to = (from + 1) % 3;
        let names = [b"a", b"b", b"c"];
        let start = tso.now();
        let x = eng.snapshot(start).get(&mut eng, names[from]).unwrap().unwrap()[0];
        let y = eng.snapshot(start).get(&mut eng, names[to]).unwrap().unwrap()[0];
        if x < 5 || y > 250 {
            continue;
        }
        let txn = Transaction::new(
            start,
            vec![
                Mutation::put(names[from].to_vec(), vec![x - 5]),
                Mutation::put(names[to].to_vec(), vec![y + 5]),
            ],
        )
        .unwrap();
        txn.prewrite(&mut eng, MAX_TTL).unwrap();
        txn.commit(&mut eng, tso.now()).unwrap();
    }
    let rt = tso.now();
    let mut sum: u64 = 0;
    for k in [b"a", b"b", b"c"] {
        sum += eng.snapshot(rt).get(&mut eng, k).unwrap().unwrap()[0] as u64;
    }
    assert_eq!(sum, 300);
}

#[test]
fn every_prefix_of_the_effects_recovers_the_acknowledged_writes() {
    let opts = || options().with_memtable_threshold(200);
    let mut eng = Engine::open(opts(), &DiskImage::new()).unwrap();
    let mut disk = DiskImage::new();
    disk.perform_all(&eng.take_effects());
    for i in 0..40u64 {
        eng.write(one(Cf::Default, format!("k{i:02}").as_bytes(), &i.to_be_bytes())).unwrap();
        // A crash after any one of the changes on disk.
        for e in eng.take_effects() {
            disk.perform(&e);
            let back = Engine::open(opts(), &disk).unwrap();
            for j in 0..i {
                assert_eq!(
                    back.get_cf_raw(Cf::Default, format!("k{j:02}").as_bytes()).unwrap(),
                    Some(j.to_be_bytes().to_vec())
                );
            }
        }
    }
}

#[test]
fn a_torn_append_is_dropped_on_recovery() {
    let mut disk = DiskImage::new();
    let mut eng = Engine::open(options(), &disk).unwrap();
    eng.write(one(Cf::Default, b"kept", b"1")).unwrap();
    disk.perform_all(&eng.take_effects());
    eng.write(one(Cf::Default, b"torn", b"2")).unwrap();
    for e in eng.take_effects() {
        match e {
            Effect::Append(n, bytes) => {
                disk.perform(&Effect::Append(n, bytes[..bytes.len() - 3].to_vec()))
            }
            other => disk.perform(&other),
        }
    }
    let back = Engine::open(options(), &disk).unwrap();
    assert_eq!(back.get_cf_raw(Cf::Default, b"kept").unwrap(), Some(b"1".to_vec()));
    assert_eq!(back.get_cf_raw(Cf::Default, b"torn").unwrap(), None);
    assert_eq!(back.last_seq(), 1);
}

#[test]
fn files_are_numbered_and_listed_in_order() {
    assert_eq!(segment_name(2), "00000000000000000002.wal");
    assert_eq!(sst_name(13), "00000000000000000013.sst");
    let names = vec![
        segment_name(10),
        sst_name(1),
        "MANIFEST".to_string(),
        segment_name(9),
        "x.wal".to_string(),
    ];
    let found: Vec<u64> = list_numbered(&names, ".wal").into_iter().map(|(n, _)| n).collect();
    assert_eq!(found, vec![9, 10]);
}

#[test]
fn options_are_set_one_by_one() {
    let o = options();
    assert_eq!(o.data_dir, "data");
    assert_eq!(o.fsync_mode, FsyncMode::Fsync);
    let o = o.with_fsync_mode(FsyncMode::Off).with_memtable_threshold(77);
    assert_eq!((o.fsync_mode, o.memtable_size_threshold), (FsyncMode::Off, 77));
    let e = Engine::open(o, &DiskImage::new()).unwrap();
    assert_eq!(e.options().memtable_size_threshold, 77);
}

#[test]
fn errors_say_what_went_wrong() {
    assert!(Error::conflict("lock on k").message().contains("lock on k"));
    assert!(Error::corruption("bad block").message().contains("bad block"));
    assert!(Error::invalid("empty").message().contains("empty"));
}

#[test]
fn a_group_is_answered_as_if_its_requests_had_come_alone() {
    let put = |v: &[u8]| Value::Put(v.to_vec());
    let group = vec![
        prewrite_op(b"k", &put(b"1"), b"k", 5, MAX_TTL),
        Op::Write(one(Cf::Default, b"x", b"2")),
        prewrite_op(b"k", &put(b"3"), b"k", 9, MAX_TTL),
        prewrite_op(b"m", &put(b"4"), b"k", 5, MAX_TTL),
    ];
    let (mut together, mut alone) = (open(), open());
    let a = together.process_group(&group, &GroupIo::clean());
    let mut b = Vec::new();
    for op in group {
        b.extend(alone.process_group(&vec![op], &GroupIo::clean()));
    }
    let plain = |r: &Vec<Result<u64, Error>>| -> Vec<Option<u64>> {
        r.iter().map(|x| x.as_ref().ok().copied()).collect()
    };
    assert_eq!(plain(&a), vec![Some(1), Some(2), None, Some(3)]);
    assert_eq!(plain(&a), plain(&b));
    for (cf, key) in [(Cf::Lock, b"k"), (Cf::Lock, b"m"), (Cf::Default, b"x")] {
        assert_eq!(together.get_cf_raw(cf, key).unwrap(), alone.get_cf_raw(cf, key).unwrap());
    }
}

#[test]
fn a_crash_keeps_a_front_part_of_a_group() {
    let mut disk = DiskImage::new();
    let mut eng = open();
    disk.perform_all(&eng.take_effects());
    let group: Vec<Op> =
        (0..5u8).map(|i| Op::Write(one(Cf::Default, &[b'k', i], &[i]))).collect();
    for r in eng.process_group(&group, &GroupIo::clean()) {
        r.unwrap();
    }
    let mut kept = 0;
    for e in eng.take_effects() {
        disk.perform(&e);
        let back = Engine::open(options(), &disk).unwrap();
        let held = (0..5u8)
            .map(|i| back.get_cf_raw(Cf::Default, &[b'k', i]).unwrap() == Some(vec![i]))
            .collect::<Vec<bool>>();
        let n = held.iter().filter(|h| **h).count();
        assert!(held[..n].iter().all(|h| *h), "no later write without the earlier ones");
        assert!(n >= kept);
        kept = n;
    }
    assert_eq!(kept, 5);
}

// ---- keys that are prefixes of one another ----------------------------------------------

#[test]
fn a_newer_commit_conflicts_whatever_longer_keys_there_are() {
    let mut eng = open();
    put(&mut eng, b"a", b"1", 1, 5);
    put(&mut eng, b"ab", b"2", 2, 6);
    let r = eng.prewrite_one(b"a", &Value::Put(b"3".to_vec()), b"a", 4, MAX_TTL);
    assert!(matches!(r, Err(Error::Conflict(_))));
    assert_eq!(eng.get_cf_raw(Cf::Lock, b"a").unwrap(), None);
    assert_eq!(eng.mvcc_get(b"a", 10).unwrap(), Some(b"1".to_vec()));
    // With a later start there is none, and the longer key alone is none of its business.
    let r = eng.prewrite_one(b"a", &Value::Put(b"3".to_vec()), b"a", 5, MAX_TTL);
    assert!(matches!(r, Err(Error::Conflict(_))));
    eng.prewrite_one(b"a", &Value::Put(b"3".to_vec()), b"a", 6, MAX_TTL).unwrap();
    let mut eng = open();
    put(&mut eng, b"ab", b"2", 2, 6);
    eng.prewrite_one(b"a", &Value::Put(b"3".to_vec()), b"a", 4, MAX_TTL).unwrap();
}

#[test]
fn a_secondary_rolls_forward_whatever_longer_keys_than_the_primary_there_are() {
    let mut eng = open();
    put(&mut eng, b"pa", b"x", 1, 2);
    let txn = Transaction::new(
        10,
        vec![
            Mutation::put(b"p".to_vec(), b"vp".to_vec()),
            Mutation::put(b"s".to_vec(), b"vs".to_vec()),
        ],
    )
    .unwrap();
    txn.prewrite(&mut eng, MAX_TTL).unwrap();
    txn.commit_primary(&mut eng, 20).unwrap();
    assert_eq!(eng.mvcc_get(b"s", 30).unwrap(), Some(b"vs".to_vec()));
    assert_eq!(eng.get_cf_raw(Cf::Lock, b"s").unwrap(), None);
    assert_eq!(eng.find_commit_ts(b"p", 10).unwrap(), Some(20));
    assert_eq!(eng.find_commit_ts(b"p", 11).unwrap(), None);
}

#[test]
fn a_snapshot_reads_its_own_key_among_longer_ones() {
    let mut eng = open();
    let long: Vec<u8> = b"a".iter().copied().chain(u64::MAX.to_be_bytes()).collect();
    put(&mut eng, b"a", b"1", 1, 10);
    put(&mut eng, b"ab", b"2", 2, 20);
    put(&mut eng, &long, b"3", 3, 30);
    put(&mut eng, b"a", b"4", 21, 40);
    for (ts, want) in [(9, None), (10, Some(b"1")), (39, Some(b"1")), (40, Some(b"4"))] {
        assert_eq!(eng.mvcc_get(b"a", ts).unwrap(), want.map(|v| v.to_vec()));
    }
    assert_eq!(eng.mvcc_get(b"ab", 40).unwrap(), Some(b"2".to_vec()));
    assert_eq!(eng.mvcc_get(&long, 40).unwrap(), Some(b"3".to_vec()));
    assert_eq!(eng.mvcc_get(b"", 40).unwrap(), None);
}

#[test]
fn a_scan_lists_keys_in_their_own_order() {
    let mut eng = open();
    put(&mut eng, b"ab", b"2", 1, 2);
    put(&mut eng, b"a", b"1", 3, 4);
    put(&mut eng, b"b", b"3", 5, 6);
    put(&mut eng, b"a", b"4", 7, 8);
    let found = |eng: &mut Engine, from: &[u8], to: &[u8], limit: usize| -> Vec<Vec<u8>> {
        keys(&eng.scan(from, to, 100, limit, true).unwrap())
    };
    assert_eq!(found(&mut eng, b"", b"", 0), vec![b"a".to_vec(), b"ab".to_vec(), b"b".to_vec()]);
    assert_eq!(found(&mut eng, b"", b"ab", 0), vec![b"a".to_vec()]);
    assert_eq!(found(&mut eng, b"ab", b"", 0), vec![b"ab".to_vec(), b"b".to_vec()]);
    assert_eq!(found(&mut eng, b"", b"", 1), vec![b"a".to_vec()]);
    assert_eq!(found(&mut eng, b"", b"", 2), vec![b"a".to_vec(), b"ab".to_vec()]);
    assert_eq!(eng.scan(b"", b"ab", 5, 0, true).unwrap(), vec![(b"a".to_vec(), b"1".to_vec())]);
    let mut eng = open();
    put(&mut eng, b"a", b"1", 1, 2);
    assert_eq!(found(&mut eng, b"ab", b"", 0), Vec::<Vec<u8>>::new());
}

// ---- one file operation at a time -------------------------------------------------------

#[test]
fn a_group_step_by_step_ends_where_the_whole_group_does() {
    let opts = || options().with_memtable_threshold(1);
    let group = || {
        vec![
            prewrite_op(b"k", &Value::Put(b"1".to_vec()), b"k", 5, MAX_TTL),
            prewrite_op(b"k", &Value::Put(b"2".to_vec()), b"k", 6, MAX_TTL),
            Op::Write(one(Cf::Default, b"x", b"3")),
        ]
    };
    let mut whole = Engine::open(opts(), &DiskImage::new()).unwrap();
    let mut steps = Engine::open(opts(), &DiskImage::new()).unwrap();
    let (mut disk, mut image) = (DiskImage::new(), DiskImage::new());
    image.perform_all(&whole.take_effects());
    disk.perform_all(&steps.take_effects());
    let want = whole.process_group(&group(), &GroupIo::clean());
    image.perform_all(&whole.take_effects());
    let (mut commit, mut due) = Commit::begin(&mut steps, group());
    let mut seen = Vec::new();
    while let Some(effect) = due {
        seen.push(match &effect {
            Effect::Append(..) => "append",
            Effect::Sync(_) => "sync",
            Effect::CreateSegment(_) => "segment",
            Effect::WriteTable(..) => "table",
            Effect::StoreManifest(_) => "manifest",
            _ => "other",
        });
        disk.perform(&effect);
        due = commit.resume(&mut steps, &None);
    }
    assert_eq!(seen, vec!["append", "append", "sync", "segment", "table", "manifest"]);
    let got = commit.finish();
    assert_eq!(got.len(), want.len());
    for (a, b) in got.iter().zip(&want) {
        assert_eq!(a.as_ref().ok(), b.as_ref().ok());
    }
    assert_eq!(steps.last_seq(), whole.last_seq());
    for engine in [Engine::open(opts(), &disk).unwrap(), Engine::open(opts(), &image).unwrap()] {
        assert_eq!(engine.get_cf_raw(Cf::Default, b"x").unwrap(), Some(b"3".to_vec()));
        assert_eq!(engine.last_seq(), 2);
    }
}

#[test]
fn a_step_that_fails_is_answered() {
    // An append that fails: the writer hears of it, the others go on.
    let mut eng = open();
    let group = vec![
        Op::Write(one(Cf::Default, b"a", b"1")),
        Op::Write(one(Cf::Default, b"b", b"2")),
    ];
    let (mut commit, due) = Commit::begin(&mut eng, group);
    assert!(matches!(due, Some(Effect::Append(..))));
    let due = commit.resume(&mut eng, &Some("full".to_string()));
    assert!(matches!(due, Some(Effect::Append(..))));
    let due = commit.resume(&mut eng, &None);
    assert!(matches!(due, Some(Effect::Sync(_))));
    assert!(commit.resume(&mut eng, &None).is_none());
    let r = commit.finish();
    assert!(matches!(r[0], Err(Error::Io(_))));
    assert_eq!(*r[1].as_ref().unwrap(), 2);
    assert_eq!(eng.get_cf_raw(Cf::Default, b"a").unwrap(), None);
    assert_eq!(eng.get_cf_raw(Cf::Default, b"b").unwrap(), Some(b"2".to_vec()));

    // A flush of the log that fails: nothing is acknowledged.
    let (mut commit, _) = Commit::begin(&mut eng, vec![Op::Write(one(Cf::Default, b"c", b"3"))]);
    assert!(commit.resume(&mut eng, &None).is_some());
    assert!(commit.resume(&mut eng, &Some("gone".to_string())).is_none());
    let r = commit.finish();
    assert!(matches!(&r[0], Err(e) if e.message().contains("group fsync failed")));
}

#[test]
fn an_engine_that_is_opened_again_reads_the_same() {
    let opts = || options().with_memtable_threshold(120);
    let mut disk = DiskImage::new();
    let mut eng = Engine::open(opts(), &disk).unwrap();
    for i in 0..30u8 {
        eng.write(one(Cf::Default, &[b'k', i % 7], &[i])).unwrap();
        let _ = eng.prewrite_one(&[b'l', i % 3], &Value::Delete, b"l", i as u64, MAX_TTL);
    }
    disk.perform_all(&eng.take_effects());
    let back = Engine::open(opts(), &disk).unwrap();
    assert_eq!(back.last_seq(), eng.last_seq());
    for cf in [Cf::Default, Cf::Lock, Cf::Write] {
        for i in 0..8u8 {
            for k in [[b'k', i], [b'l', i]] {
                assert_eq!(back.get_cf_raw(cf, &k).unwrap(), eng.get_cf_raw(cf, &k).unwrap());
            }
        }
    }
}

#[test]
fn a_manifest_stands_in_its_directory() {
    assert_eq!(Manifest::path("data"), "data/MANIFEST");
    assert_eq!(Manifest::path("data/"), "data/MANIFEST");
    assert_eq!(Manifest::path("/"), "/MANIFEST");
    assert_eq!(Manifest::path(""), "MANIFEST");
}

#[test]
fn a_table_with_an_empty_index_is_corrupt_wherever_it_is_said_to_be() {
    let mut w = SstWriter::create();
    w.add(&make_storage_key(Cf::Default, b"k"), &MemValue::Put(b"v".to_vec()).encode());
    let mut bad = w.finish();
    let f = bad.len() - 20;
    bad[f..f + 8].copy_from_slice(&u64::MAX.to_be_bytes());
    bad[f + 8..f + 12].copy_from_slice(&0u32.to_be_bytes());
    match SstReader::open(bad.clone(), 1) {
        Err(Error::Corruption(m)) => assert_eq!(m, "sstable index too small"),
        _ => panic!("expected a corruption error"),
    }
    // Anything longer out there cannot be read at all.
    bad[f + 8..f + 12].copy_from_slice(&1u32.to_be_bytes());
    assert!(matches!(SstReader::open(bad, 1), Err(Error::Io(_))));
}

// ---- file operations that fail ----------------------------------------------------------

fn reads_alike(a: &Engine, b: &Engine) {
    for i in 0..8u8 {
        assert_eq!(
            a.get_cf_raw(Cf::Default, &[b'k', i]).unwrap(),
            b.get_cf_raw(Cf::Default, &[b'k', i]).unwrap()
        );
    }
}

#[test]
fn a_memtable_whose_flush_failed_is_flushed_first() {
    let opts = || options().with_memtable_threshold(1);
    let mut disk = DiskImage::new();
    let mut eng = Engine::open(opts(), &disk).unwrap();
    disk.perform_all(&eng.take_effects());
    let mut bad = GroupIo::clean();
    bad.table = Some("disk full".to_string());
    let put = |k: &[u8], v: &[u8]| vec![Op::Write(one(Cf::Default, k, v))];
    eng.process_group(&put(b"k", b"old"), &bad);
    disk.perform_all(&eng.take_effects());
    // The next flush succeeds: it is that of the older memtable.
    eng.process_group(&put(b"k", b"new"), &GroupIo::clean());
    let effects = eng.take_effects();
    disk.perform_all(&effects);
    let table = effects
        .into_iter()
        .find_map(|e| match e {
            Effect::WriteTable(n, data) => Some(SstReader::open(data, n).unwrap()),
            _ => None,
        })
        .expect("a table");
    assert_eq!(table.get(Cf::Default, b"k").unwrap(), Some(MemValue::Put(b"old".to_vec())));
    assert_eq!(eng.get_cf_raw(Cf::Default, b"k").unwrap(), Some(b"new".to_vec()));
    let back = Engine::open(opts(), &disk).unwrap();
    assert_eq!(back.get_cf_raw(Cf::Default, b"k").unwrap(), Some(b"new".to_vec()));
    assert_eq!(back.last_seq(), 2);
}

#[test]
fn whatever_fails_the_files_hold_what_the_engine_reads() {
    let fail = || Some("no".to_string());
    let opts = || options().with_memtable_threshold(60);
    let mut disk = DiskImage::new();
    let mut eng = Engine::open(opts(), &disk).unwrap();
    disk.perform_all(&eng.take_effects());
    for round in 0..60u8 {
        let group: Vec<Op> = (0..3u8)
            .map(|i| Op::Write(one(Cf::Default, &[b'k', (round + i) % 8], &[round, i])))
            .collect();
        let mut io = GroupIo::clean();
        match round % 7 {
            1 => io.table = fail(),
            2 => io.manifest = fail(),
            3 => io.segment = fail(),
            4 => io.append = vec![None, fail(), None],
            5 => io.sync = fail(),
            _ => {}
        }
        let answers = eng.process_group(&group, &io);
        assert_eq!(answers.iter().all(|a| a.is_err()), round % 7 == 5);
        // A crash at any point gives a state that reads somehow; at the end, the engine's own.
        for e in eng.take_effects() {
            disk.perform(&e);
            assert!(Engine::open(opts(), &disk).is_ok());
        }
        let back = Engine::open(opts(), &disk).unwrap();
        reads_alike(&back, &eng);
        assert!(back.last_seq() <= eng.last_seq());
        if round % 7 != 4 {
            assert_eq!(back.last_seq(), eng.last_seq());
        }
    }
}
