//! What a write leaves for those that read after it, and what becomes of a lock that is resolved.

use vstd::prelude::*;
use crate::bytes;
use crate::engine::batch::OpView;
use crate::engine::db;
use crate::engine::db::{EngineView, RequestView, ResolveAction};
use crate::engine::error::ErrorView;
use crate::engine::isolation;
use crate::engine::keys;
use crate::engine::keys::Cf;
use crate::engine::locks;
use crate::engine::memtable::Tables;
use crate::engine::merged;
use crate::engine::mvcc;
use crate::engine::scan::ScanView;

verus! {

/// Whether a mutation is the last one of a key in a batch.
pub open spec fn last_of(ops: Seq<OpView>, cf: Cf, key: Seq<u8>, i: int) -> bool {
    &&& 0 <= i < ops.len()
    &&& ops[i].cf == cf
    &&& ops[i].key == key
    &&& forall|j: int| i < j < ops.len() ==> !((#[trigger] ops[j]).cf == cf && ops[j].key == key)
}

/// Whether a batch leaves a key alone.
pub open spec fn leaves(ops: Seq<OpView>, cf: Cf, key: Seq<u8>) -> bool {
    forall|j: int| 0 <= j < ops.len() ==> !((#[trigger] ops[j]).cf == cf && ops[j].key == key)
}

/// What a list of mutations makes of a key.
proof fn lemma_last(t: Tables, ops: Seq<OpView>, cf: Cf, key: Seq<u8>)
    ensures
        forall|i: int| #[trigger]
            last_of(ops, cf, key, i) ==> merged::present(t.apply_all(ops).of(cf), key)
                == ops[i].value,
        leaves(ops, cf, key) ==> merged::present(t.apply_all(ops).of(cf), key) == merged::present(
            t.of(cf),
            key,
        ),
    decreases ops.len(),
{
    if ops.len() > 0 {
        let d = ops.drop_last();
        let n = ops.len() - 1;
        lemma_last(t, d, cf, key);
        assert(ops[n] == ops.last());
        assert forall|i: int| #[trigger] last_of(ops, cf, key, i) implies merged::present(
            t.apply_all(ops).of(cf),
            key,
        ) == ops[i].value by {
            if i < n {
                assert(!(ops[n].cf == cf && ops[n].key == key));
                assert forall|j: int| i < j < d.len() implies !((#[trigger] d[j]).cf == cf
                    && d[j].key == key) by {
                    assert(ops[j] == d[j]);
                }
                assert(last_of(d, cf, key, i));
            }
        }
        if leaves(ops, cf, key) {
            assert forall|j: int| 0 <= j < d.len() implies !((#[trigger] d[j]).cf == cf
                && d[j].key == key) by {
                assert(ops[j] == d[j]);
            }
            assert(!(ops[n].cf == cf && ops[n].key == key));
        }
    }
}

/// **Reading one's writes.** A batch that is written is acknowledged with the next sequence number,
/// and from then on a read of a key gives what the last mutation of that very key in it says, a
/// deletion as absent; every key that it leaves alone, in any family, reads as before.
pub proof fn law_written(v: EngineView, ops: Seq<OpView>, cf: Cf, key: Seq<u8>)
    requires
        v.sound(),
        isolation::fits(v, RequestView::Write(ops)),
        v.seq < u64::MAX,
    ensures
        ({
            let (w, r) = v.submit(RequestView::Write(ops));
            &&& r == Ok::<u64, ErrorView>((v.seq + 1) as u64)
            &&& w.seq == v.seq + 1
            &&& forall|i: int| #[trigger]
                last_of(ops, cf, key, i) ==> w.get(cf, key) == Ok::<Option<Seq<u8>>, ErrorView>(
                    ops[i].value,
                )
            &&& leaves(ops, cf, key) ==> w.get(cf, key) == v.get(cf, key)
        }),
{
    merged::law_submit(v, RequestView::Write(ops));
    let w = v.submit(RequestView::Write(ops)).0;
    lemma_last(v.merged(), ops, cf, key);
    merged::law_get(v, cf, key);
    merged::law_get(w, cf, key);
}

/// **Resolving a lock.** Where the key is locked by the very transaction, a commit leaves a record
/// at its timestamp that points at the transaction and keeps the value, and a rollback leaves no
/// value; either way the lock goes, and no other lock, record or value changes. Where it is not
/// locked, or by another transaction, nothing changes.
pub proof fn law_resolved(v: EngineView, key: Seq<u8>, start_ts: u64, action: ResolveAction)
    requires
        v.sound(),
        isolation::fits(v, mvcc::resolve_request(key, start_ts, action)),
        locks::lock_entry(v.merged(), key) is Some ==> locks::held(v.merged(), key) is Some,
    ensures
        ({
            let (w, r) = v.resolve(key, start_ts, action);
            let (t, u) = (v.merged(), w.merged());
            &&& r is Ok
            &&& w.sound()
            &&& if locks::held(t, key) matches Some(l) && l.start_ts == start_ts {
                &&& locks::lock_entry(u, key) is None
                &&& forall|k: Seq<u8>|
                    k != key ==> #[trigger] locks::lock_entry(u, k) == locks::lock_entry(t, k)
                &&& match action {
                    ResolveAction::Commit(c) => u.default == t.default && u.write
                        == t.write.insert(keys::data_key(key, c), Some(bytes::be64(start_ts))),
                    ResolveAction::Rollback => u.write == t.write && u.default
                        == t.default.insert(keys::data_key(key, start_ts), None),
                }
            } else {
                u == t
            }
        }),
{
    let req = mvcc::resolve_request(key, start_ts, action);
    merged::law_submit(v, req);
    isolation::lemma_lock_on(v, key);
    isolation::lemma_rollback_tables(v.merged(), key, start_ts);
    if let ResolveAction::Commit(c) = action {
        isolation::lemma_commit_tables(v.merged(), key, start_ts, c);
    }
    let w = v.submit(req).0;
    assert(v.resolve(key, start_ts, action).0 == w);
    if locks::held(v.merged(), key) matches Some(l) && l.start_ts == start_ts {
        assert(v.decide(req) == db::DecisionView::Apply(db::resolve_ops(key, start_ts, action)));
    }
}

/// A scan reads each key as a single read of its kind does.
pub proof fn law_scan_reads(v: EngineView, key: Seq<u8>, q: ScanView)
    ensures
        q.resolve ==> v.scan_read(key, q) == v.mvcc_get(key, q.read_ts),
        !q.resolve ==> v.scan_read(key, q) == (v, v.mvcc_get_unresolved(key, q.read_ts)),
{
    reveal(EngineView::scan_read);
}

} // verus!
