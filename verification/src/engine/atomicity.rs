//! What a transaction as a whole promises: all of its keys change at one timestamp, or none do.
//!
//! The laws speak of a sound engine whose flushes fit, and of transactions whose primary key
//! fits the length prefix of a lock.

use vstd::prelude::*;
use crate::bytes;
use crate::engine::db;
use crate::engine::db::{EngineView, RequestView, ResolveAction};
use crate::engine::error::ErrorView;
use crate::engine::isolation;
use crate::engine::keys;
use crate::engine::keys::{Cf, LockKind, LockView};
use crate::engine::memtable::{KeyMap, Tables};
use crate::engine::merged;
use crate::engine::mvcc;
use crate::engine::percolator::TxnView;

verus! {

/// Where the value of the `i`-th mutation stands.
pub open spec fn value_key(x: TxnView, i: int) -> Seq<u8> {
    keys::data_key(x.mutations[i].key, x.start_ts)
}

/// Where the commit record of the `i`-th mutation stands.
pub open spec fn record_key(x: TxnView, i: int, commit_ts: u64) -> Seq<u8> {
    keys::data_key(x.mutations[i].key, commit_ts)
}

/// The lock of the `i`-th mutation.
pub open spec fn lock_of_mutation(x: TxnView, i: int, ttl: u64) -> LockView {
    LockView {
        primary: x.primary(),
        start_ts: x.start_ts,
        ttl,
        kind: if x.mutations[i].value is Some {
            LockKind::Put
        } else {
            LockKind::Delete
        },
    }
}

/// A Default family with the values of the first `k` mutations.
pub open spec fn stored(d: KeyMap, x: TxnView, k: nat) -> KeyMap
    decreases k,
{
    if k == 0 {
        d
    } else {
        stored(d, x, (k - 1) as nat).insert(
            value_key(x, k - 1),
            Some(keys::tagged(x.mutations[k - 1].value)),
        )
    }
}

/// A Default family with the values of the first `k` mutations deleted.
pub open spec fn erased(d: KeyMap, x: TxnView, k: nat) -> KeyMap
    decreases k,
{
    if k == 0 {
        d
    } else {
        erased(d, x, (k - 1) as nat).insert(value_key(x, k - 1), None)
    }
}

/// A Lock family with the locks of the first `k` mutations.
pub open spec fn locked(l: KeyMap, x: TxnView, ttl: u64, k: nat) -> KeyMap
    decreases k,
{
    if k == 0 {
        l
    } else {
        locked(l, x, ttl, (k - 1) as nat).insert(
            x.mutations[k - 1].key,
            Some(keys::lock_bytes(lock_of_mutation(x, k - 1, ttl))),
        )
    }
}

/// A Lock family with the locks of the first `k` mutations deleted.
pub open spec fn released(l: KeyMap, x: TxnView, k: nat) -> KeyMap
    decreases k,
{
    if k == 0 {
        l
    } else {
        released(l, x, (k - 1) as nat).insert(x.mutations[k - 1].key, None)
    }
}

/// A Write family with the commit records of the first `k` mutations.
pub open spec fn recorded(w: KeyMap, x: TxnView, commit_ts: u64, k: nat) -> KeyMap
    decreases k,
{
    if k == 0 {
        w
    } else {
        recorded(w, x, commit_ts, (k - 1) as nat).insert(
            record_key(x, k - 1, commit_ts),
            Some(bytes::be64(x.start_ts)),
        )
    }
}

/// The tables with the first `k` mutations prewritten.
pub open spec fn prewritten_tables(t: Tables, x: TxnView, ttl: u64, k: nat) -> Tables {
    Tables {
        default: stored(t.default, x, k),
        write: t.write,
        lock: locked(t.lock, x, ttl, k),
    }
}

/// The tables with the first `k` mutations committed.
pub open spec fn committed_tables(t: Tables, x: TxnView, commit_ts: u64, k: nat) -> Tables {
    Tables {
        default: t.default,
        write: recorded(t.write, x, commit_ts, k),
        lock: released(t.lock, x, k),
    }
}

/// The tables with the first `k` mutations rolled back.
pub open spec fn abandoned_tables(t: Tables, x: TxnView, k: nat) -> Tables {
    Tables { default: erased(t.default, x, k), write: t.write, lock: released(t.lock, x, k) }
}

/// Whether the keys of the first `k` mutations differ.
pub open spec fn distinct(x: TxnView, k: nat) -> bool {
    forall|i: int, j: int|
        0 <= i < j < k ==> (#[trigger] x.mutations[i]).key != (#[trigger] x.mutations[j]).key
}

/// Whether the first `k` prewrites leave memtables that flush to tables with lengths that fit.
pub open spec fn prewrites_fit(v: EngineView, x: TxnView, ttl: u64, k: nat) -> bool {
    forall|i: int|
        0 <= i < k ==> isolation::fits(
            x.prewritten(v, ttl, i as nat).0,
            #[trigger] x.prewrite_of(i, ttl),
        )
}

/// The request that rolls the `i`-th mutation forward.
pub open spec fn forward(x: TxnView, i: int, commit_ts: u64) -> RequestView {
    RequestView::Resolve {
        key: x.mutations[i].key,
        start_ts: x.start_ts,
        action: ResolveAction::Commit(commit_ts),
    }
}

/// The request that rolls the `i`-th mutation back.
pub open spec fn back(x: TxnView, i: int) -> RequestView {
    RequestView::Resolve {
        key: x.mutations[i].key,
        start_ts: x.start_ts,
        action: ResolveAction::Rollback,
    }
}

/// Whether a commit leaves memtables that flush to tables with lengths that fit.
pub open spec fn commit_fits(v: EngineView, x: TxnView, commit_ts: u64) -> bool {
    &&& isolation::fits(
        v,
        RequestView::Write(db::commit_ops(x.primary(), x.start_ts, commit_ts)),
    )
    &&& forall|i: int|
        0 <= i < x.mutations.len() ==> isolation::fits(
            x.finalized(x.commit_primary(v, commit_ts).0, commit_ts, i as nat).0,
            #[trigger] forward(x, i, commit_ts),
        )
}

/// Whether the first `k` rollbacks leave memtables that flush to tables with lengths that fit.
pub open spec fn rollbacks_fit(v: EngineView, x: TxnView, k: nat) -> bool {
    forall|i: int|
        0 <= i < k ==> isolation::fits(x.abandoned(v, i as nat), #[trigger] back(x, i))
}

/// The locks of the first `k` mutations are there.
proof fn lemma_locked(l: KeyMap, x: TxnView, ttl: u64, k: nat, i: int)
    requires
        0 <= i < k <= x.mutations.len(),
        distinct(x, k),
    ensures
        merged::present(locked(l, x, ttl, k), x.mutations[i].key) == Some(
            keys::lock_bytes(lock_of_mutation(x, i, ttl)),
        ),
    decreases k,
{
    if i < k - 1 {
        assert(x.mutations[i].key != x.mutations[k - 1].key);
        lemma_locked(l, x, ttl, (k - 1) as nat, i);
    }
}

/// Locks of other keys stay.
proof fn lemma_locked_others(l: KeyMap, x: TxnView, ttl: u64, k: nat, key: Seq<u8>)
    requires
        k <= x.mutations.len(),
        forall|i: int| 0 <= i < k ==> (#[trigger] x.mutations[i]).key != key,
    ensures
        merged::present(locked(l, x, ttl, k), key) == merged::present(l, key),
    decreases k,
{
    if k > 0 {
        assert(x.mutations[k - 1].key != key);
        lemma_locked_others(l, x, ttl, (k - 1) as nat, key);
    }
}

/// What the release of the first `k` locks leaves of a lock.
proof fn lemma_released(l: KeyMap, x: TxnView, k: nat, key: Seq<u8>)
    requires
        k <= x.mutations.len(),
    ensures
        merged::present(released(l, x, k), key) == if exists|i: int|
            0 <= i < k && (#[trigger] x.mutations[i]).key == key {
            None
        } else {
            merged::present(l, key)
        },
    decreases k,
{
    if k > 0 {
        lemma_released(l, x, (k - 1) as nat, key);
        if x.mutations[k - 1].key == key {
        } else if exists|i: int| 0 <= i < k - 1 && (#[trigger] x.mutations[i]).key == key {
            let i = choose|i: int| 0 <= i < k - 1 && (#[trigger] x.mutations[i]).key == key;
            assert(0 <= i < k && x.mutations[i].key == key);
        }
    }
}

/// A prewrite that succeeds met no lock, and applies its mutations.
#[verifier::spinoff_prover]
#[verifier::rlimit(60)]
proof fn lemma_prewrite_step(v: EngineView, x: TxnView, ttl: u64, i: int)
    requires
        v.sound(),
        isolation::fits(v, x.prewrite_of(i, ttl)),
    ensures
        v.submit(x.prewrite_of(i, ttl)).0.sound(),
        v.submit(x.prewrite_of(i, ttl)).1 is Ok ==> {
            let t = v.merged();
            let u = v.submit(x.prewrite_of(i, ttl)).0.merged();
            &&& merged::present(t.lock, x.mutations[i].key) is None
            &&& u.write == t.write
            &&& u.lock == t.lock.insert(
                x.mutations[i].key,
                Some(keys::lock_bytes(lock_of_mutation(x, i, ttl))),
            )
            &&& u.default == t.default.insert(
                value_key(x, i),
                Some(keys::tagged(x.mutations[i].value)),
            )
        },
        v.submit(x.prewrite_of(i, ttl)).1 is Err ==> v.submit(x.prewrite_of(i, ttl)).0.merged()
            == v.merged(),
{
    let req = x.prewrite_of(i, ttl);
    merged::law_submit(v, req);
    if let RequestView::Prewrite(p) = req {
        isolation::law_prewrite(v, p);
    }
}

/// A key that is not locked after the first prewrites is none of theirs, and was not locked
/// before.
proof fn lemma_unlocked(l: KeyMap, x: TxnView, ttl: u64, k: nat)
    requires
        0 < k <= x.mutations.len(),
        distinct(x, (k - 1) as nat),
        merged::present(locked(l, x, ttl, (k - 1) as nat), x.mutations[k - 1].key) is None,
    ensures
        distinct(x, k),
        merged::present(l, x.mutations[k - 1].key) is None,
{
    let key = x.mutations[k - 1].key;
    assert forall|i: int| 0 <= i < k - 1 implies (#[trigger] x.mutations[i]).key != key by {
        lemma_locked(l, x, ttl, (k - 1) as nat, i);
    }
    lemma_locked_others(l, x, ttl, (k - 1) as nat, key);
}

/// As far as the prewrites succeed, the tables hold their values and locks.
#[verifier::spinoff_prover]
#[verifier::rlimit(40)]
proof fn lemma_prewritten(v: EngineView, x: TxnView, ttl: u64, k: nat)
    requires
        v.sound(),
        k <= x.mutations.len(),
        prewrites_fit(v, x, ttl, k),
    ensures
        ({
            let (w, r, n) = x.prewritten(v, ttl, k);
            &&& w.sound()
            &&& n <= k
            &&& r is Ok ==> n == k
            &&& distinct(x, n)
            &&& w.merged() == prewritten_tables(v.merged(), x, ttl, n)
            &&& forall|i: int|
                0 <= i < n ==> merged::present(
                    v.merged().lock,
                    (#[trigger] x.mutations[i]).key,
                ) is None
        }),
    decreases k,
{
    if k > 0 {
        lemma_prewritten(v, x, ttl, (k - 1) as nat);
        let (w, r, n) = x.prewritten(v, ttl, (k - 1) as nat);
        let l = v.merged().lock;
        if r is Ok {
            assert(isolation::fits(w, x.prewrite_of(k - 1, ttl)));
            lemma_prewrite_step(w, x, ttl, k - 1);
            if w.submit(x.prewrite_of(k - 1, ttl)).1 is Ok {
                lemma_unlocked(l, x, ttl, k);
            }
        }
    }
}

/// Rolling a mutation forward applies its commit where its lock is there.
proof fn lemma_forward_step(v: EngineView, x: TxnView, ttl: u64, commit_ts: u64, i: int)
    requires
        v.sound(),
        x.primary().len() < 0x1_0000_0000,
        isolation::fits(v, forward(x, i, commit_ts)),
        merged::present(v.merged().lock, x.mutations[i].key) == Some(
            keys::lock_bytes(lock_of_mutation(x, i, ttl)),
        ),
    ensures
        ({
            let (w, r) = v.submit(forward(x, i, commit_ts));
            let t = v.merged();
            &&& w.sound()
            &&& r is Ok
            &&& w.merged() == (Tables {
                default: t.default,
                write: t.write.insert(
                    record_key(x, i, commit_ts),
                    Some(bytes::be64(x.start_ts)),
                ),
                lock: t.lock.insert(x.mutations[i].key, None),
            })
        }),
{
    merged::law_submit(v, forward(x, i, commit_ts));
    isolation::lemma_lock_on(v, x.mutations[i].key);
    keys::law_lock_roundtrip(lock_of_mutation(x, i, ttl));
    isolation::lemma_commit_tables(v.merged(), x.mutations[i].key, x.start_ts, commit_ts);
}

/// As far as the mutations are rolled forward, the tables hold their records, and the locks are
/// gone.
proof fn lemma_finalized(
    v: EngineView,
    t: Tables,
    x: TxnView,
    ttl: u64,
    commit_ts: u64,
    k: nat,
)
    requires
        v.sound(),
        x.primary().len() < 0x1_0000_0000,
        distinct(x, x.mutations.len()),
        1 <= k <= x.mutations.len(),
        v.merged() == committed_tables(
            prewritten_tables(t, x, ttl, x.mutations.len()),
            x,
            commit_ts,
            1,
        ),
        forall|i: int|
            0 <= i < x.mutations.len() ==> isolation::fits(
                x.finalized(v, commit_ts, i as nat).0,
                #[trigger] forward(x, i, commit_ts),
            ),
    ensures
        ({
            let (w, r) = x.finalized(v, commit_ts, k);
            &&& w.sound()
            &&& r is Ok
            &&& w.merged() == committed_tables(
                prewritten_tables(t, x, ttl, x.mutations.len()),
                x,
                commit_ts,
                k,
            )
        }),
    decreases k,
{
    let n = x.mutations.len();
    let p = prewritten_tables(t, x, ttl, n);
    if k == 1 {
        assert(x.finalized(v, commit_ts, 0) == (v, Ok::<(), ErrorView>(())));
    } else {
        lemma_finalized(v, t, x, ttl, commit_ts, (k - 1) as nat);
        let (w, r) = x.finalized(v, commit_ts, (k - 1) as nat);
        let key = x.mutations[k - 1].key;
        assert(x.mutations[0].key != key);
        lemma_locked(t.lock, x, ttl, n, k - 1);
        lemma_released(p.lock, x, (k - 1) as nat, key);
        assert forall|i: int| 0 <= i < k - 1 implies (#[trigger] x.mutations[i]).key != key by {}
        assert(isolation::fits(w, forward(x, k - 1, commit_ts)));
        lemma_forward_step(w, x, ttl, commit_ts, k - 1);
    }
}

/// All: a transaction whose prewrite succeeded commits, and then every one of its keys has its
/// value, a commit record at the one commit timestamp, and no lock; nothing else has changed.
pub proof fn law_committed(v: EngineView, x: TxnView, ttl: u64, commit_ts: u64)
    requires
        v.sound(),
        x.mutations.len() > 0,
        x.primary().len() < 0x1_0000_0000,
        prewrites_fit(v, x, ttl, x.mutations.len()),
        commit_fits(x.prewrite(v, ttl).0, x, commit_ts),
        x.prewrite(v, ttl).1 is Ok,
    ensures
        ({
            let w = x.prewrite(v, ttl).0;
            let (e, r) = x.commit(w, commit_ts);
            let n = x.mutations.len();
            &&& w.sound()
            &&& w.merged() == prewritten_tables(v.merged(), x, ttl, n)
            &&& r is Ok
            &&& e.sound()
            &&& e.merged() == after(v.merged(), x, ttl, commit_ts)
            &&& distinct(x, n)
        }),
{
    let n = x.mutations.len();
    lemma_prewritten(v, x, ttl, n);
    let w = x.prewrite(v, ttl).0;
    let t = v.merged();
    let p = prewritten_tables(t, x, ttl, n);
    let req = RequestView::Write(db::commit_ops(x.primary(), x.start_ts, commit_ts));
    merged::law_submit(w, req);
    isolation::lemma_commit_tables(p, x.primary(), x.start_ts, commit_ts);
    let e = x.commit_primary(w, commit_ts).0;
    assert(released(p.lock, x, 0) == p.lock);
    assert(released(p.lock, x, 1) == p.lock.insert(x.mutations[0].key, None));
    assert(recorded(p.write, x, commit_ts, 0) == p.write);
    assert(recorded(p.write, x, commit_ts, 1) == p.write.insert(
        record_key(x, 0, commit_ts),
        Some(bytes::be64(x.start_ts)),
    ));
    assert(e.merged() == committed_tables(p, x, commit_ts, 1));
    lemma_finalized(e, t, x, ttl, commit_ts, n);
}

/// What the first `k` values leave of a Default family.
proof fn lemma_stored(d: KeyMap, x: TxnView, k: nat, y: Seq<u8>)
    requires
        k <= x.mutations.len(),
        forall|i: int| 0 <= i < k ==> y != #[trigger] value_key(x, i),
    ensures
        merged::present(stored(d, x, k), y) == merged::present(d, y),
    decreases k,
{
    if k > 0 {
        assert(y != value_key(x, k - 1));
        lemma_stored(d, x, (k - 1) as nat, y);
    }
}

proof fn lemma_stored_own(d: KeyMap, x: TxnView, k: nat, i: int)
    requires
        0 <= i < k <= x.mutations.len(),
        distinct(x, k),
    ensures
        merged::present(stored(d, x, k), value_key(x, i)) == Some(
            keys::tagged(x.mutations[i].value),
        ),
    decreases k,
{
    if i < k - 1 {
        assert(x.mutations[i].key != x.mutations[k - 1].key);
        keys::law_data_key_roundtrip(x.mutations[i].key, x.start_ts);
        keys::law_data_key_roundtrip(x.mutations[k - 1].key, x.start_ts);
        lemma_stored_own(d, x, (k - 1) as nat, i);
    }
}

/// What the first `k` commit records leave of a Write family.
proof fn lemma_recorded(w: KeyMap, x: TxnView, commit_ts: u64, k: nat, y: Seq<u8>)
    requires
        k <= x.mutations.len(),
    ensures
        ({
            let own = exists|i: int| 0 <= i < k && y == #[trigger] record_key(x, i, commit_ts);
            let r = recorded(w, x, commit_ts, k);
            &&& r.contains_key(y) <==> w.contains_key(y) || own
            &&& own ==> r[y] == Some(bytes::be64(x.start_ts))
            &&& !own && w.contains_key(y) ==> r[y] == w[y]
        }),
    decreases k,
{
    if k > 0 {
        lemma_recorded(w, x, commit_ts, (k - 1) as nat, y);
        let last = record_key(x, k - 1, commit_ts);
        if y == last {
            assert(0 <= k - 1 < k && y == record_key(x, k - 1, commit_ts));
        } else if exists|i: int|
            0 <= i < k - 1 && y == #[trigger] record_key(x, i, commit_ts) {
            let i = choose|i: int|
                0 <= i < k - 1 && y == #[trigger] record_key(x, i, commit_ts);
            assert(0 <= i < k && y == record_key(x, i, commit_ts));
        }
    }
}

/// The tables that a whole transaction leaves.
pub open spec fn after(t: Tables, x: TxnView, ttl: u64, commit_ts: u64) -> Tables {
    let n = x.mutations.len();
    committed_tables(prewritten_tables(t, x, ttl, n), x, commit_ts, n)
}

/// A committed transaction is seen whole: snapshots from the commit on read each of its values, up
/// to the next commit of the key.
pub proof fn law_committed_visible(
    t: Tables,
    x: TxnView,
    ttl: u64,
    commit_ts: u64,
    i: int,
    ts: u64,
)
    requires
        distinct(x, x.mutations.len()),
        0 <= i < x.mutations.len(),
        commit_ts <= ts,
        forall|c: u64|
            commit_ts < c <= ts ==> !(#[trigger] t.write.contains_key(
                keys::data_key(x.mutations[i].key, c),
            )),
    ensures
        isolation::read_in(after(t, x, ttl, commit_ts), x.mutations[i].key, ts) == Ok::<
            Option<Seq<u8>>,
            ErrorView,
        >(x.mutations[i].value),
{
    let n = x.mutations.len();
    let u = after(t, x, ttl, commit_ts);
    let key = x.mutations[i].key;
    let k = record_key(x, i, commit_ts);
    lemma_recorded(t.write, x, commit_ts, n, k);
    assert forall|c: u64| commit_ts < c <= ts implies !(#[trigger] u.write.contains_key(
        keys::data_key(key, c),
    )) by {
        let y = keys::data_key(key, c);
        assert(!t.write.contains_key(y));
        lemma_recorded(t.write, x, commit_ts, n, y);
        keys::law_data_key_roundtrip(key, c);
        assert forall|j: int| 0 <= j < n implies y != #[trigger] record_key(x, j, commit_ts) by {
            keys::law_data_key_roundtrip(x.mutations[j].key, commit_ts);
        }
    }
    isolation::law_read_newest(u, key, ts, commit_ts, x.start_ts);
    lemma_stored_own(t.default, x, n, i);
    keys::law_tagged_roundtrip(x.mutations[i].value);
}

/// Nothing else is seen of it: what a snapshot from before the commit reads, or a snapshot of
/// another key, stays as it was.
pub proof fn law_committed_stable(
    t: Tables,
    x: TxnView,
    ttl: u64,
    commit_ts: u64,
    key: Seq<u8>,
    ts: u64,
)
    requires
        forall|i: int|
            0 <= i < x.mutations.len() ==> isolation::uncommitted(
                t,
                (#[trigger] x.mutations[i]).key,
                x.start_ts,
            ),
        forall|i: int|
            0 <= i < x.mutations.len() && (#[trigger] x.mutations[i]).key == key ==> commit_ts
                > ts,
    ensures
        isolation::read_in(after(t, x, ttl, commit_ts), key, ts) == isolation::read_in(t, key, ts),
{
    let n = x.mutations.len();
    let u = after(t, x, ttl, commit_ts);
    assert forall|c: u64| c <= ts implies #[trigger] t.write.contains_key(keys::data_key(key, c))
        == u.write.contains_key(keys::data_key(key, c)) && (t.write.contains_key(
        keys::data_key(key, c),
    ) ==> t.write[keys::data_key(key, c)] == u.write[keys::data_key(key, c)]) by {
        let y = keys::data_key(key, c);
        lemma_recorded(t.write, x, commit_ts, n, y);
        keys::law_data_key_roundtrip(key, c);
        assert forall|j: int| 0 <= j < n implies y != #[trigger] record_key(x, j, commit_ts) by {
            keys::law_data_key_roundtrip(x.mutations[j].key, commit_ts);
        }
    }
    isolation::lemma_same_versions(t.write, u.write, key, ts);
    if let Some((c, e)) = isolation::version_in(t.write, key, ts) {
        assert(isolation::newest(t.write, key, ts, c));
        lemma_same_value(t, u, x, key, c);
    }
}

/// The value that a commit of another transaction points at stays.
proof fn lemma_same_value(t: Tables, u: Tables, x: TxnView, key: Seq<u8>, c: u64)
    requires
        t.write.contains_key(keys::data_key(key, c)),
        u.default == stored(t.default, x, x.mutations.len()),
        forall|i: int|
            0 <= i < x.mutations.len() ==> isolation::uncommitted(
                t,
                (#[trigger] x.mutations[i]).key,
                x.start_ts,
            ),
    ensures
        t.write[keys::data_key(key, c)] matches Some(b) ==> (keys::write_value_of(b) matches Some(s)
            ==> isolation::value_in(u, key, s) == isolation::value_in(t, key, s)),
{
    let k = keys::data_key(key, c);
    keys::law_data_key_roundtrip(key, c);
    if let Some(b) = t.write[k] {
        if let Some(s) = keys::write_value_of(b) {
            let y = keys::data_key(key, s);
            assert forall|i: int| 0 <= i < x.mutations.len() implies y != #[trigger] value_key(
                x,
                i,
            ) by {
                if y == value_key(x, i) {
                    keys::law_data_key_roundtrip(key, s);
                    keys::law_data_key_roundtrip(x.mutations[i].key, x.start_ts);
                    assert(isolation::uncommitted(t, x.mutations[i].key, x.start_ts));
                }
            }
            lemma_stored(t.default, x, x.mutations.len(), y);
        }
    }
}

/// A committed transaction holds no lock, and takes no other's.
pub proof fn law_committed_unlocked(
    t: Tables,
    x: TxnView,
    ttl: u64,
    commit_ts: u64,
    key: Seq<u8>,
)
    ensures
        merged::present(after(t, x, ttl, commit_ts).lock, key) == if exists|i: int|
            0 <= i < x.mutations.len() && (#[trigger] x.mutations[i]).key == key {
            None
        } else {
            merged::present(t.lock, key)
        },
{
    let n = x.mutations.len();
    lemma_released(locked(t.lock, x, ttl, n), x, n, key);
    if !exists|i: int| 0 <= i < n && (#[trigger] x.mutations[i]).key == key {
        lemma_locked_others(t.lock, x, ttl, n, key);
    }
}

/// Rolling a mutation back takes its lock and its value away where its lock is there.
proof fn lemma_back_step(v: EngineView, x: TxnView, ttl: u64, i: int)
    requires
        v.sound(),
        x.primary().len() < 0x1_0000_0000,
        isolation::fits(v, back(x, i)),
        merged::present(v.merged().lock, x.mutations[i].key) == Some(
            keys::lock_bytes(lock_of_mutation(x, i, ttl)),
        ),
    ensures
        ({
            let w = v.submit(back(x, i)).0;
            let t = v.merged();
            &&& w.sound()
            &&& w.merged() == (Tables {
                default: t.default.insert(value_key(x, i), None),
                write: t.write,
                lock: t.lock.insert(x.mutations[i].key, None),
            })
        }),
{
    merged::law_submit(v, back(x, i));
    isolation::lemma_lock_on(v, x.mutations[i].key);
    keys::law_lock_roundtrip(lock_of_mutation(x, i, ttl));
    isolation::lemma_rollback_tables(v.merged(), x.mutations[i].key, x.start_ts);
}

/// As far as the mutations are rolled back, their values and locks are gone.
proof fn lemma_abandoned(v: EngineView, t: Tables, x: TxnView, ttl: u64, n: nat, k: nat)
    requires
        v.sound(),
        x.primary().len() < 0x1_0000_0000,
        distinct(x, n),
        k <= n <= x.mutations.len(),
        v.merged() == prewritten_tables(t, x, ttl, n),
        rollbacks_fit(v, x, n),
    ensures
        x.abandoned(v, k).sound(),
        x.abandoned(v, k).merged() == abandoned_tables(prewritten_tables(t, x, ttl, n), x, k),
    decreases k,
{
    let p = prewritten_tables(t, x, ttl, n);
    if k > 0 {
        lemma_abandoned(v, t, x, ttl, n, (k - 1) as nat);
        let w = x.abandoned(v, (k - 1) as nat);
        let key = x.mutations[k - 1].key;
        lemma_locked(t.lock, x, ttl, n, k - 1);
        lemma_released(p.lock, x, (k - 1) as nat, key);
        assert forall|i: int| 0 <= i < k - 1 implies (#[trigger] x.mutations[i]).key != key by {}
        assert(isolation::fits(w, back(x, k - 1)));
        lemma_back_step(w, x, ttl, k - 1);
    }
}

/// What the first `k` deletions leave of a Default family.
proof fn lemma_erased(d: KeyMap, x: TxnView, k: nat, y: Seq<u8>)
    requires
        k <= x.mutations.len(),
        forall|i: int| 0 <= i < k ==> y != #[trigger] value_key(x, i),
    ensures
        merged::present(erased(d, x, k), y) == merged::present(d, y),
    decreases k,
{
    if k > 0 {
        assert(y != value_key(x, k - 1));
        lemma_erased(d, x, (k - 1) as nat, y);
    }
}

/// What is left of a transaction whose prewrite failed.
pub open spec fn aborted(v: EngineView, x: TxnView, ttl: u64) -> Tables {
    let n = x.prewritten(v, ttl, x.mutations.len()).2;
    abandoned_tables(prewritten_tables(v.merged(), x, ttl, n), x, n)
}

/// Nothing: a transaction whose prewrite fails leaves no commit record and no lock behind, and
/// takes no other's.
pub proof fn law_aborted(v: EngineView, x: TxnView, ttl: u64)
    requires
        v.sound(),
        x.mutations.len() > 0,
        x.primary().len() < 0x1_0000_0000,
        prewrites_fit(v, x, ttl, x.mutations.len()),
        x.prewrite(v, ttl).1 is Err,
        ({
            let (w, r, n) = x.prewritten(v, ttl, x.mutations.len());
            rollbacks_fit(w, x, n)
        }),
    ensures
        x.prewrite(v, ttl).0.sound(),
        x.prewrite(v, ttl).0.merged() == aborted(v, x, ttl),
        aborted(v, x, ttl).write == v.merged().write,
        forall|key: Seq<u8>| #[trigger]
            merged::present(aborted(v, x, ttl).lock, key) == merged::present(
                v.merged().lock,
                key,
            ),
{
    let len = x.mutations.len();
    lemma_prewritten(v, x, ttl, len);
    let (w, r, n) = x.prewritten(v, ttl, len);
    lemma_abandoned(w, v.merged(), x, ttl, n, n);
    let l = v.merged().lock;
    assert forall|key: Seq<u8>| #[trigger]
        merged::present(aborted(v, x, ttl).lock, key) == merged::present(l, key) by {
        lemma_released(locked(l, x, ttl, n), x, n, key);
        if !exists|i: int| 0 <= i < n && (#[trigger] x.mutations[i]).key == key {
            lemma_locked_others(l, x, ttl, n, key);
        }
    }
}

/// A transaction whose prewrite failed is never seen: every read stays as it was.
pub proof fn law_aborted_invisible(v: EngineView, x: TxnView, ttl: u64, key: Seq<u8>, ts: u64)
    requires
        forall|i: int|
            0 <= i < x.mutations.len() ==> isolation::uncommitted(
                v.merged(),
                (#[trigger] x.mutations[i]).key,
                x.start_ts,
            ),
    ensures
        isolation::read_in(aborted(v, x, ttl), key, ts) == isolation::read_in(
            v.merged(),
            key,
            ts,
        ),
{
    let t = v.merged();
    let u = aborted(v, x, ttl);
    let n = x.prewritten(v, ttl, x.mutations.len()).2;
    lemma_locks_taken(v, x, ttl, x.mutations.len());
    if let Some((c, Some(b))) = isolation::version_in(t.write, key, ts) {
        assert(isolation::newest(t.write, key, ts, c));
        keys::law_data_key_roundtrip(key, c);
        if let Some(s) = keys::write_value_of(b) {
            let y = keys::data_key(key, s);
            assert forall|i: int| 0 <= i < n implies y != #[trigger] value_key(x, i) by {
                if y == value_key(x, i) {
                    keys::law_data_key_roundtrip(key, s);
                    keys::law_data_key_roundtrip(x.mutations[i].key, x.start_ts);
                    assert(isolation::uncommitted(t, x.mutations[i].key, x.start_ts));
                    assert(t.write.contains_key(keys::data_key(key, c)));
                }
            }
            lemma_stored(t.default, x, n, y);
            lemma_erased(stored(t.default, x, n), x, n, y);
        }
    }
}

/// The number of locks taken is at most the number of mutations.
proof fn lemma_locks_taken(v: EngineView, x: TxnView, ttl: u64, k: nat)
    ensures
        x.prewritten(v, ttl, k).2 <= k,
    decreases k,
{
    if k > 0 {
        lemma_locks_taken(v, x, ttl, (k - 1) as nat);
    }
}

/// The primary's commit decides: from then on a reader that meets the lock of another of the
/// transaction's keys completes its commit and reads its value, whether or not the transaction
/// went on.
pub proof fn law_primary_decides(
    v: EngineView,
    x: TxnView,
    ttl: u64,
    commit_ts: u64,
    i: int,
    ts: u64,
)
    requires
        v.sound(),
        1 <= i < x.mutations.len(),
        x.primary().len() < 0x1_0000_0000,
        x.start_ts <= ts,
        commit_ts <= ts,
        prewrites_fit(v, x, ttl, x.mutations.len()),
        x.prewrite(v, ttl).1 is Ok,
        isolation::fits(
            x.prewrite(v, ttl).0,
            RequestView::Write(db::commit_ops(x.primary(), x.start_ts, commit_ts)),
        ),
        isolation::fits(
            x.commit_primary(x.prewrite(v, ttl).0, commit_ts).0,
            forward(x, i, commit_ts),
        ),
        isolation::split_keys(v.merged().write),
        isolation::never_committed(v.merged().write, x.primary(), x.start_ts),
        forall|c: u64|
            commit_ts < c <= ts ==> !(#[trigger] v.merged().write.contains_key(
                keys::data_key(x.mutations[i].key, c),
            )),
    ensures
        x.commit_primary(x.prewrite(v, ttl).0, commit_ts).0.mvcc_get(x.mutations[i].key, ts).1
            == Ok::<Option<Seq<u8>>, ErrorView>(x.mutations[i].value),
{
    let n = x.mutations.len();
    let t = v.merged();
    let p = prewritten_tables(t, x, ttl, n);
    let key = x.mutations[i].key;
    let lock = lock_of_mutation(x, i, ttl);
    lemma_prewritten(v, x, ttl, n);
    let w = x.prewrite(v, ttl).0;
    merged::law_submit(
        w,
        RequestView::Write(db::commit_ops(x.primary(), x.start_ts, commit_ts)),
    );
    isolation::lemma_commit_tables(p, x.primary(), x.start_ts, commit_ts);
    let e = x.commit_primary(w, commit_ts).0;
    assert(x.mutations[0].key != key);
    lemma_locked(t.lock, x, ttl, n, i);
    isolation::lemma_lock_on(e, key);
    keys::law_lock_roundtrip(lock);
    merged::law_get(e, Cf::Lock, x.primary());
    keys::law_write_value_roundtrip(x.start_ts);
    keys::law_data_key_roundtrip(x.primary(), commit_ts);
    assert(isolation::committed_at(e.merged().write, x.primary(), x.start_ts, commit_ts)) by {
        assert forall|d: u64|
            d > commit_ts && #[trigger] e.merged().write.contains_key(
                keys::data_key(x.primary(), d),
            ) implies !mvcc::points_at(
            e.merged().write[keys::data_key(x.primary(), d)],
            x.start_ts,
        ) by {
            keys::law_data_key_roundtrip(x.primary(), d);
            assert(t.write.contains_key(keys::data_key(x.primary(), d)));
        }
    }
    isolation::law_roll_forward(e, key, ts, lock, commit_ts);
    let u = e.merged().apply_all(db::commit_ops(key, x.start_ts, commit_ts));
    isolation::lemma_commit_tables(e.merged(), key, x.start_ts, commit_ts);
    keys::law_data_key_roundtrip(key, commit_ts);
    assert forall|c: u64| commit_ts < c <= ts implies !(#[trigger] u.write.contains_key(
        keys::data_key(key, c),
    )) by {
        keys::law_data_key_roundtrip(key, c);
        assert(!t.write.contains_key(keys::data_key(key, c)));
    }
    isolation::law_read_newest(u, key, ts, commit_ts, x.start_ts);
    lemma_stored_own(t.default, x, n, i);
    keys::law_tagged_roundtrip(x.mutations[i].value);
}

/// Whether nothing stands in the way of a mutation: no commit of its key is at or after the
/// transaction's start, and nobody holds a lock on it.
#[verifier::opaque]
pub open spec fn clear(t: Tables, x: TxnView, i: int) -> bool {
    &&& forall|c: u64|
        c >= x.start_ts ==> !(#[trigger] t.write.contains_key(keys::data_key(x.mutations[i].key, c)))
    &&& !(t.lock.contains_key(x.mutations[i].key) && t.lock[x.mutations[i].key] is Some)
}

/// A prewrite succeeds exactly where nothing stands in the way of any of the mutations, and no two
/// of them are of one key.
pub proof fn law_prewrite_owed(v: EngineView, x: TxnView, ttl: u64)
    requires
        v.sound(),
        prewrites_fit(v, x, ttl, x.mutations.len()),
    ensures
        x.prewrite(v, ttl).1 is Ok <==> {
            &&& forall|i: int, j: int|
                0 <= i < j < x.mutations.len() ==> (#[trigger] x.mutations[i]).key
                    != (#[trigger] x.mutations[j]).key
            &&& forall|i: int| 0 <= i < x.mutations.len() ==> #[trigger] clear(v.merged(), x, i)
        },
{
    lemma_owed(v, x, ttl, x.mutations.len());
}

proof fn lemma_owed(v: EngineView, x: TxnView, ttl: u64, k: nat)
    requires
        v.sound(),
        k <= x.mutations.len(),
        prewrites_fit(v, x, ttl, k),
    ensures
        x.prewritten(v, ttl, k).1 is Ok <==> distinct(x, k) && forall|i: int|
            0 <= i < k ==> #[trigger] clear(v.merged(), x, i),
    decreases k,
{
    if k > 0 {
        let m = (k - 1) as nat;
        let t = v.merged();
        lemma_owed(v, x, ttl, m);
        let ok = x.prewritten(v, ttl, k).1 is Ok;
        if x.prewritten(v, ttl, m).1 is Ok {
            lemma_owed_step(v, x, ttl, k);
            assert(ok == (clear(t, x, m as int) && apart(x, m)));
            if distinct(x, k) {
                assert forall|i: int| 0 <= i < m implies (#[trigger] x.mutations[i]).key
                    != x.mutations[m as int].key by {}
            }
            if ok {
                assert forall|i: int, j: int| 0 <= i < j < k implies (#[trigger] x.mutations[i]).key
                    != (#[trigger] x.mutations[j]).key by {}
                assert forall|i: int| 0 <= i < k implies #[trigger] clear(t, x, i) by {}
            }
        } else if distinct(x, k) && forall|i: int| 0 <= i < k ==> #[trigger] clear(t, x, i) {
            assert(distinct(x, m));
            assert forall|i: int| 0 <= i < m implies #[trigger] clear(t, x, i) by {}
        }
    }
}

/// Whether the `m`-th mutation is of another key than those in front of it.
spec fn apart(x: TxnView, m: nat) -> bool {
    forall|i: int| 0 <= i < m ==> (#[trigger] x.mutations[i]).key != x.mutations[m as int].key
}

#[verifier::spinoff_prover]
#[verifier::rlimit(60)]
proof fn lemma_owed_step(v: EngineView, x: TxnView, ttl: u64, k: nat)
    requires
        v.sound(),
        0 < k <= x.mutations.len(),
        prewrites_fit(v, x, ttl, k),
        x.prewritten(v, ttl, (k - 1) as nat).1 is Ok,
    ensures
        x.prewritten(v, ttl, k).1 is Ok <==> clear(v.merged(), x, k - 1) && apart(
            x,
            (k - 1) as nat,
        ),
{
    let m = (k - 1) as nat;
    let t = v.merged();
    lemma_prewritten(v, x, ttl, m);
    let w = x.prewritten(v, ttl, m).0;
    let key = x.mutations[m as int].key;
    assert(isolation::fits(w, x.prewrite_of(m as int, ttl)));
    lemma_outcome(w, x, ttl, m as int);
    lemma_clear(t, x, m as int);
    if apart(x, m) {
        lemma_locked_others(t.lock, x, ttl, m, key);
    } else {
        let i = choose|i: int| 0 <= i < m && (#[trigger] x.mutations[i]).key == key;
        lemma_locked(t.lock, x, ttl, m, i);
    }
}

/// When the prewrite of one mutation succeeds.
proof fn lemma_outcome(w: EngineView, x: TxnView, ttl: u64, i: int)
    requires
        w.sound(),
        isolation::fits(w, x.prewrite_of(i, ttl)),
    ensures
        w.submit(x.prewrite_of(i, ttl)).1 is Ok <==> !isolation::committed_in(
            w.merged().write,
            x.mutations[i].key,
            x.start_ts,
        ) && merged::present(w.merged().lock, x.mutations[i].key) is None,
{
    if let RequestView::Prewrite(p) = x.prewrite_of(i, ttl) {
        isolation::law_prewrite(w, p);
    }
}

proof fn lemma_clear(t: Tables, x: TxnView, i: int)
    ensures
        clear(t, x, i) <==> !isolation::committed_in(t.write, x.mutations[i].key, x.start_ts)
            && merged::present(t.lock, x.mutations[i].key) is None,
{
    reveal(clear);
    let key = x.mutations[i].key;
    if isolation::committed_in(t.write, key, x.start_ts) {
        let c = choose|c: u64|
            c >= x.start_ts && #[trigger] t.write.contains_key(keys::data_key(key, c));
        assert(t.write.contains_key(keys::data_key(key, c)));
    }
}

} // verus!
