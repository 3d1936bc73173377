//! What a lock means to those that read: said of the entries of the merged tables, whichever key
//! of a transaction they belong to.

use vstd::prelude::*;
use crate::bytes;
use crate::engine::db;
use crate::engine::db::{EngineView, PrewriteView, RequestView, ResolveAction};
use crate::engine::error::ErrorView;
use crate::engine::isolation;
use crate::engine::keys;
use crate::engine::keys::LockView;
use crate::engine::memtable::Tables;
use crate::engine::merged;
use crate::engine::mvcc;
use crate::engine::range;
use crate::engine::scan::{Pair, ScanView};
use crate::text;

verus! {

/// The entry that the Lock family has on a key.
pub open spec fn lock_entry(t: Tables, key: Seq<u8>) -> Option<Seq<u8>> {
    if t.lock.contains_key(key) {
        t.lock[key]
    } else {
        None
    }
}

/// The lock that the Lock family has on a key.
pub open spec fn held(t: Tables, key: Seq<u8>) -> Option<LockView> {
    match lock_entry(t, key) {
        Some(b) => keys::lock_of(b),
        None => None,
    }
}

/// Whether a key has a lock from at or before a timestamp.
pub open spec fn held_at(t: Tables, key: Seq<u8>, ts: u64) -> bool {
    held(t, key) matches Some(l) && l.start_ts <= ts
}

/// Whether every entry of the Lock family is a lock.
pub open spec fn locks_read(t: Tables) -> bool {
    forall|key: Seq<u8>| #[trigger] lock_entry(t, key) is Some ==> held(t, key) is Some
}

/// A replicated read never looks behind a lock: where the key has a lock from at or before the
/// snapshot, whichever key is its primary and whatever became of that one, the answer is that the
/// key is locked, and by which transaction. Only where there is no such lock does it answer with
/// the newest version at or before the snapshot. A lock that cannot be read is reported.
pub proof fn law_unresolved(v: EngineView, key: Seq<u8>, ts: u64)
    requires
        v.sound(),
        isolation::split_keys(v.merged().write),
    ensures
        ({
            let t = v.merged();
            let r = v.mvcc_get_unresolved(key, ts);
            &&& held_at(t, key, ts) ==> r == Err::<Option<Seq<u8>>, ErrorView>(
                ErrorView::KeyIsLocked(
                    "key locked by txn "@ + text::decimal(held(t, key)->0.start_ts as nat)
                        + " (a replicated read won't resolve it)"@,
                ),
            )
            &&& lock_entry(t, key) is Some && held(t, key) is None ==> r == Err::<
                Option<Seq<u8>>,
                ErrorView,
            >(ErrorView::Corruption("lock decode"@))
            &&& (lock_entry(t, key) is None || held(t, key) is Some) && !held_at(t, key, ts) ==> r
                == isolation::read_in(t, key, ts)
        }),
{
    isolation::lemma_lock_on(v, key);
    isolation::law_reads_merged(v, key, ts);
}

/// A version that is committed is what a replicated read gives, up to the next commit of its key,
/// where no lock is in the way.
pub proof fn law_unresolved_newest(
    v: EngineView,
    key: Seq<u8>,
    ts: u64,
    commit_ts: u64,
    start_ts: u64,
    value: Option<Seq<u8>>,
)
    requires
        v.sound(),
        isolation::split_keys(v.merged().write),
        lock_entry(v.merged(), key) is None || (held(v.merged(), key) matches Some(l) && l.start_ts
            > ts),
        commit_ts <= ts,
        v.merged().write.contains_key(keys::data_key(key, commit_ts)),
        v.merged().write[keys::data_key(key, commit_ts)] == Some(bytes::be64(start_ts)),
        forall|c: u64|
            commit_ts < c <= ts ==> !(#[trigger] v.merged().write.contains_key(
                keys::data_key(key, c),
            )),
        v.merged().default.contains_key(keys::data_key(key, start_ts)),
        v.merged().default[keys::data_key(key, start_ts)] == Some(keys::tagged(value)),
    ensures
        v.mvcc_get_unresolved(key, ts) == Ok::<Option<Seq<u8>>, ErrorView>(value),
{
    law_unresolved(v, key, ts);
    isolation::law_read_newest(v.merged(), key, ts, commit_ts, start_ts);
    keys::law_tagged_roundtrip(value);
}

/// A key that was never committed at or before the snapshot reads as absent, where no lock is in
/// the way.
pub proof fn law_unresolved_absent(v: EngineView, key: Seq<u8>, ts: u64)
    requires
        v.sound(),
        isolation::split_keys(v.merged().write),
        lock_entry(v.merged(), key) is None || (held(v.merged(), key) matches Some(l) && l.start_ts
            > ts),
        forall|c: u64|
            c <= ts ==> !(#[trigger] v.merged().write.contains_key(keys::data_key(key, c))),
    ensures
        v.mvcc_get_unresolved(key, ts) == Ok::<Option<Seq<u8>>, ErrorView>(None),
{
    law_unresolved(v, key, ts);
    isolation::law_read_absent(v.merged(), key, ts);
}

/// A prewrite hides its key from replicated reads: from its start on they are told that the key
/// is locked, and before it they read what they read without it.
pub proof fn law_prewrite_hides(v: EngineView, p: PrewriteView, ts: u64)
    requires
        v.sound(),
        isolation::split_keys(v.merged().write),
        isolation::fits(v, RequestView::Prewrite(p)),
        isolation::uncommitted(v.merged(), p.key, p.start_ts),
        p.primary.len() < 0x1_0000_0000,
        v.submit(RequestView::Prewrite(p)).1 is Ok,
    ensures
        ({
            let r = v.submit(RequestView::Prewrite(p)).0.mvcc_get_unresolved(p.key, ts);
            if p.start_ts <= ts {
                r matches Err(ErrorView::KeyIsLocked(_))
            } else {
                r == v.mvcc_get_unresolved(p.key, ts)
            }
        }),
{
    let w = v.submit(RequestView::Prewrite(p)).0;
    let l = LockView { primary: p.primary, start_ts: p.start_ts, ttl: p.ttl, kind: p.kind };
    isolation::law_prewrite(v, p);
    merged::law_submit(v, RequestView::Prewrite(p));
    keys::law_lock_roundtrip(l);
    isolation::law_write_conflict(v, p);
    isolation::law_prewrite_invisible(v.merged(), p, p.key, ts);
    law_unresolved(w, p.key, ts);
    law_unresolved(v, p.key, ts);
}

/// The lock on a transaction's primary, from the merged tables.
proof fn lemma_primary_lock(v: EngineView, key: Seq<u8>)
    requires
        v.sound(),
    ensures
        v.primary_lock(key) == match lock_entry(v.merged(), key) {
            None => Ok::<Option<LockView>, ErrorView>(None),
            Some(b) => match keys::lock_of(b) {
                Some(l) => Ok(Some(l)),
                None => Err(ErrorView::Corruption("primary lock decode"@)),
            },
        },
{
    merged::law_get(v, keys::Cf::Lock, key);
}

/// A resolving read with no lock from at or before its snapshot in the way gives the newest
/// version at or before it and changes nothing.
pub proof fn law_read_free(v: EngineView, key: Seq<u8>, ts: u64)
    requires
        v.sound(),
        isolation::split_keys(v.merged().write),
        lock_entry(v.merged(), key) is None || (held(v.merged(), key) matches Some(l) && l.start_ts
            > ts),
    ensures
        v.mvcc_get(key, ts) == (v, isolation::read_in(v.merged(), key, ts)),
{
    isolation::lemma_lock_on(v, key);
    isolation::law_reads_merged(v, key, ts);
}

/// Whether the transaction of a lock still holds its primary.
pub open spec fn primary_held(t: Tables, l: LockView) -> bool {
    held(t, l.primary) matches Some(p) && p.start_ts == l.start_ts
}

/// A resolving read waits for a transaction that still holds its primary within its time to live:
/// it is told so and changes nothing.
pub proof fn law_read_waits(v: EngineView, key: Seq<u8>, ts: u64)
    requires
        v.sound(),
        held_at(v.merged(), key, ts),
        primary_held(v.merged(), held(v.merged(), key)->0),
        ts <= held(v.merged(), held(v.merged(), key)->0.primary)->0.ttl,
    ensures
        v.mvcc_get(key, ts).0 == v,
        v.mvcc_get(key, ts).1 matches Err(ErrorView::KeyIsLocked(_)),
{
    let l = held(v.merged(), key)->0;
    isolation::lemma_lock_on(v, key);
    lemma_primary_lock(v, l.primary);
}

/// A resolving read clears a transaction away that holds its primary past its time to live: the
/// key and the primary lose lock and value, and the read goes on without them.
pub proof fn law_read_clears(v: EngineView, key: Seq<u8>, ts: u64)
    requires
        v.sound(),
        isolation::split_keys(v.merged().write),
        held_at(v.merged(), key, ts),
        primary_held(v.merged(), held(v.merged(), key)->0),
        ts > held(v.merged(), held(v.merged(), key)->0.primary)->0.ttl,
        ({
            let l = held(v.merged(), key)->0;
            let r = mvcc::resolve_request(l.primary, l.start_ts, ResolveAction::Rollback);
            let s = mvcc::resolve_request(key, l.start_ts, ResolveAction::Rollback);
            isolation::fits(v, r) && isolation::fits(v.submit(r).0, s)
        }),
    ensures
        ({
            let l = held(v.merged(), key)->0;
            let (w, r) = v.mvcc_get(key, ts);
            let t = w.merged();
            &&& w.sound()
            &&& r == isolation::read_in(t, key, ts)
            &&& t.write == v.merged().write
            &&& lock_entry(t, key) is None
            &&& lock_entry(t, l.primary) is None
            &&& forall|k: Seq<u8>|
                k != key && k != l.primary ==> #[trigger] lock_entry(t, k) == lock_entry(
                    v.merged(),
                    k,
                )
        }),
{
    let l = held(v.merged(), key)->0;
    isolation::lemma_lock_on(v, key);
    lemma_primary_lock(v, l.primary);
    let p = held(v.merged(), l.primary)->0;
    let r = mvcc::resolve_request(l.primary, l.start_ts, ResolveAction::Rollback);
    isolation::lemma_rollback_tables(v.merged(), l.primary, l.start_ts);
    if key != l.primary {
        isolation::law_expired(v, key, ts, l, p);
        let t1 = v.merged().apply_all(db::rollback_ops(l.primary, l.start_ts));
        isolation::lemma_rollback_tables(t1, key, l.start_ts);
    } else {
        merged::law_submit(v, r);
        isolation::lemma_one_round(v, key, ts, r);
        isolation::law_reads_merged(v.submit(r).0, key, ts);
    }
}

/// A resolving read follows a transaction that no longer holds its primary: where the primary has
/// a commit that points at it, the key is committed at that very timestamp, and otherwise rolled
/// back; either way the lock goes, no other lock does, and the read goes on.
pub proof fn law_read_follows(v: EngineView, key: Seq<u8>, ts: u64, commit_ts: u64)
    requires
        v.sound(),
        isolation::split_keys(v.merged().write),
        held_at(v.merged(), key, ts),
        lock_entry(v.merged(), held(v.merged(), key)->0.primary) is Some ==> held(
            v.merged(),
            held(v.merged(), key)->0.primary,
        ) is Some,
        !primary_held(v.merged(), held(v.merged(), key)->0),
        ({
            let l = held(v.merged(), key)->0;
            let w = v.merged().write;
            &&& isolation::committed_at(w, l.primary, l.start_ts, commit_ts)
                || isolation::never_committed(w, l.primary, l.start_ts)
            &&& isolation::fits(
                v,
                mvcc::resolve_request(key, l.start_ts, ResolveAction::Commit(commit_ts)),
            )
            &&& isolation::fits(
                v,
                mvcc::resolve_request(key, l.start_ts, ResolveAction::Rollback),
            )
        }),
    ensures
        ({
            let l = held(v.merged(), key)->0;
            let (w, r) = v.mvcc_get(key, ts);
            let t = w.merged();
            &&& w.sound()
            &&& r == isolation::read_in(t, key, ts)
            &&& lock_entry(t, key) is None
            &&& forall|k: Seq<u8>|
                k != key ==> #[trigger] lock_entry(t, k) == lock_entry(v.merged(), k)
            &&& isolation::committed_at(
                v.merged().write,
                l.primary,
                l.start_ts,
                commit_ts,
            ) ==> t.write == v.merged().write.insert(
                keys::data_key(key, commit_ts),
                Some(bytes::be64(l.start_ts)),
            ) && t.default == v.merged().default
            &&& isolation::never_committed(v.merged().write, l.primary, l.start_ts) ==> t.write
                == v.merged().write && t.default == v.merged().default.insert(
                keys::data_key(key, l.start_ts),
                None,
            )
        }),
{
    let l = held(v.merged(), key)->0;
    let w = v.merged().write;
    isolation::lemma_lock_on(v, key);
    lemma_primary_lock(v, l.primary);
    isolation::lemma_commit_tables(v.merged(), key, l.start_ts, commit_ts);
    isolation::lemma_rollback_tables(v.merged(), key, l.start_ts);
    if isolation::committed_at(w, l.primary, l.start_ts, commit_ts) {
        isolation::law_roll_forward(v, key, ts, l, commit_ts);
    } else {
        isolation::law_roll_back(v, key, ts, l);
    }
}

/// What an entry of the Write family points at: the transaction whose start it holds, and nothing
/// where it is a deletion mark.
pub proof fn law_points_at(a: u64, b: u64)
    ensures
        mvcc::points_at(Some(bytes::be64(a)), b) == (a == b),
        !mvcc::points_at(None, b),
{
    keys::law_write_value_roundtrip(a);
}

/// Whether a pair is one that a snapshot has in a range: committed at or before it, not deleted,
/// and with no lock from at or before it in the way.
pub open spec fn shown(t: Tables, start: Seq<u8>, end: Seq<u8>, ts: u64, p: Pair) -> bool {
    &&& bytes::lex_le(start, p.0)
    &&& end.len() == 0 || bytes::lex_lt(p.0, end)
    &&& !held_at(t, p.0, ts)
    &&& isolation::read_in(t, p.0, ts) == Ok::<Option<Seq<u8>>, ErrorView>(Some(p.1))
}

/// A replicated scan of tables that can be read gives the pairs that the snapshot has in the
/// range, in key order, each once: all of them, or the first ones where they are more than the
/// limit. It changes nothing, and leaves out the keys that are locked.
pub proof fn law_unresolved_scan(v: EngineView, start: Seq<u8>, q: ScanView)
    requires
        v.sound(),
        isolation::split_keys(v.merged().write),
        !q.resolve,
        locks_read(v.merged()),
        forall|key: Seq<u8>|
            (#[trigger] isolation::read_in(v.merged(), key, q.read_ts)) is Ok,
    ensures
        ({
            let t = v.merged();
            let (w, r) = v.scan(start, q);
            &&& w == v
            &&& r matches Ok(s) && {
                &&& forall|i: int, j: int|
                    #![trigger s[i], s[j]]
                    0 <= i < j < s.len() ==> bytes::lex_lt(s[i].0, s[j].0)
                &&& forall|i: int|
                    0 <= i < s.len() ==> shown(t, start, q.end, q.read_ts, #[trigger] s[i])
                &&& q.limit > 0 ==> s.len() <= q.limit
                &&& forall|p: Pair| #[trigger]
                    shown(t, start, q.end, q.read_ts, p) ==> s.contains(p) || (q.limit > 0
                        && s.len() == q.limit && bytes::lex_lt(s.last().0, p.0))
            }
        }),
{
    let t = v.merged();
    reveal(EngineView::scan_read);
    range::law_quiet(v, q);
    range::law_scan(v, start, q);
    assert forall|key: Seq<u8>|
        (#[trigger] v.scan_read(key, q)).1 == v.mvcc_get_unresolved(key, q.read_ts) && (if held_at(
            t,
            key,
            q.read_ts,
        ) {
            v.scan_read(key, q).1 matches Err(ErrorView::KeyIsLocked(_))
        } else {
            v.scan_read(key, q).1 == isolation::read_in(t, key, q.read_ts)
        }) by {
        law_unresolved(v, key, q.read_ts);
        assert(isolation::read_in(t, key, q.read_ts) is Ok);
        assert(lock_entry(t, key) is Some ==> held(t, key) is Some);
    }
    if let Ok(s) = v.scan(start, q).1 {
        assert(range::answers(v, q, start, s));
        assert forall|i: int| 0 <= i < s.len() implies shown(
            t,
            start,
            q.end,
            q.read_ts,
            #[trigger] s[i],
        ) by {
            assert(range::visible(v, q, s[i].0) == Some(s[i].1));
            assert(v.scan_read(s[i].0, q).1 is Ok);
        }
        assert forall|p: Pair| #[trigger] shown(t, start, q.end, q.read_ts, p) implies s.contains(p)
            || (q.limit > 0 && s.len() == q.limit && bytes::lex_lt(s.last().0, p.0)) by {
            assert(v.scan_read(p.0, q).1 == isolation::read_in(t, p.0, q.read_ts));
            assert(range::visible(v, q, p.0) == Some(p.1));
            assert(range::given(q, s, p.0, p.1));
        }
    }
}

} // verus!
