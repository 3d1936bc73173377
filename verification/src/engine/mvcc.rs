//! Multi-version snapshot reads and Percolator lock resolution.
//!
//! A read at `read_ts` resolves the correct committed version:
//!
//! 1. **Lock check**: if the Lock family holds a lock on the key with `start_ts <= read_ts`, the
//!    read cannot proceed until that transaction's fate is known, so it resolves the lock and
//!    looks again.
//! 2. **Write family**: seek the newest commit with `commit_ts <= read_ts` to obtain the
//!    transaction's `start_ts`.
//! 3. **Default family**: read the value stored at `(key, start_ts)`.
//!
//! A reader that meets a leftover lock follows it to the primary and either rolls the key it met
//! **forward** (the primary committed), **back** (the primary's lock expired, so the transaction
//! is dead), or **waits** (the primary is still alive).

use vstd::prelude::*;
use crate::bytes;
use crate::engine::db;
use crate::engine::db::{Engine, EngineView, Op, RequestView, ResolveAction, ResolveSpec};
use crate::engine::error::{Error, ErrorView, Result};
use crate::engine::finite;
use crate::engine::keys;
use crate::engine::keys::{Cf, Lock, LockView, Value};
use crate::engine::memtable::MemValue;
use crate::engine::sstable::reader::ReadResult;
use crate::text;

verus! {

/// Rounds of lock resolution that one read makes.
pub const MAX_RESOLVE_ROUNDS: u32 = 8;

/// A read view at a fixed timestamp.
pub struct Snapshot {
    read_ts: u64,
}

impl Snapshot {
    /// The timestamp that the view reads at.
    pub closed spec fn ts(&self) -> u64 {
        self.read_ts
    }

    /// The value of `key` in the view.
    pub fn get(&self, engine: &mut Engine, key: &[u8]) -> (r: Result<Option<Vec<u8>>>)
        requires
            old(engine)@.finite(),
        ensures
            final(engine)@ == old(engine)@.mvcc_get(key@, self.ts()).0,
            db::value_result(r) == old(engine)@.mvcc_get(key@, self.ts()).1,
            final(engine)@.finite(),
    {
        engine.mvcc_get(key, self.read_ts)
    }

    /// The timestamp that the view reads at.
    pub fn read_ts(&self) -> (r: u64)
        ensures
            r == self.ts(),
    {
        self.read_ts
    }
}

/// The text for a lock whose transaction may still be running.
pub open spec fn alive_text(primary: Seq<u8>, ttl: u64) -> Seq<char> {
    "primary "@ + text::byte_list(primary) + " lock alive (ttl "@ + text::decimal(ttl as nat)
        + ")"@
}

/// The text for a lock that a replicated read leaves alone.
pub open spec fn unresolved_text(start_ts: u64) -> Seq<char> {
    "key locked by txn "@ + text::decimal(start_ts as nat)
        + " (a replicated read won't resolve it)"@
}

impl EngineView {
    /// The newest commit of `key` at or before `ts`, and its value.
    pub open spec fn read_committed(self, key: Seq<u8>, ts: u64) -> ReadResult<Option<Seq<u8>>> {
        match self.version_from(key, keys::data_key(key, ts), true) {
            Err(e) => Err(e),
            Ok(None) => Ok(None),
            Ok(Some((_, None))) => Ok(None),
            Ok(Some((_, Some(b)))) => match keys::write_value_of(b) {
                None => Err(ErrorView::Corruption("write-cf value"@)),
                Some(start_ts) => self.value_at(key, start_ts),
            },
        }
    }

    /// The value that a transaction wrote.
    pub open spec fn value_at(self, key: Seq<u8>, start_ts: u64) -> ReadResult<Option<Seq<u8>>> {
        match self.get(Cf::Default, keys::data_key(key, start_ts)) {
            Err(e) => Err(e),
            Ok(None) => Ok(None),
            Ok(Some(b)) => match keys::untagged(b) {
                None => Err(ErrorView::Corruption("default-cf value"@)),
                Some(v) => Ok(v),
            },
        }
    }

    /// The commit timestamp of the version of `primary` that points at `start_ts`, among the
    /// versions from `from` on. Versions of other user keys that stand in between are passed over.
    pub open spec fn commit_from(self, primary: Seq<u8>, start_ts: u64, from: Seq<u8>) -> ReadResult<
        Option<u64>,
    >
        decreases finite::keys_behind(self, Cf::Write, from).len(),
        when self.finite()
        via Self::commit_from_ends
    {
        match self.seek(Cf::Write, from) {
            Err(e) => Err(e),
            Ok(None) => Ok(None),
            Ok(Some((wkey, wval))) => match keys::split_data_key(wkey) {
                None => Err(ErrorView::Corruption("write-cf key decode"@)),
                Some((wuser, commit_ts)) => if wuser == primary && points_at(wval, start_ts) {
                    Ok(Some(commit_ts))
                } else if bytes::lex_lt(keys::data_key(primary, 0), wkey) {
                    Ok(None)
                } else {
                    self.commit_from(primary, start_ts, wkey.push(0u8))
                },
            },
        }
    }

    #[via_fn]
    proof fn commit_from_ends(self, primary: Seq<u8>, start_ts: u64, from: Seq<u8>) {
        finite::lemma_seek_advances(self, Cf::Write, from);
    }

    /// The commit timestamp of a transaction, by its primary: `None` where it never committed.
    pub open spec fn find_commit_ts(self, primary: Seq<u8>, start_ts: u64) -> ReadResult<
        Option<u64>,
    > {
        self.commit_from(primary, start_ts, keys::data_key(primary, u64::MAX))
    }

    /// The lock on a transaction's primary key.
    pub open spec fn primary_lock(self, primary: Seq<u8>) -> ReadResult<Option<LockView>> {
        match self.get(Cf::Lock, primary) {
            Err(e) => Err(e),
            Ok(None) => Ok(None),
            Ok(Some(b)) => match keys::lock_of(b) {
                Some(l) => Ok(Some(l)),
                None => Err(ErrorView::Corruption("primary lock decode"@)),
            },
        }
    }

    /// What is to be done about a leftover lock on `key`.
    pub open spec fn resolution(self, key: Seq<u8>, lock: LockView, now: u64) -> ReadResult<
        Seq<RequestView>,
    > {
        let primary = lock.primary;
        match self.primary_lock(primary) {
            Err(e) => Err(e),
            Ok(pl) => if pl matches Some(p) && p.start_ts == lock.start_ts {
                let p = pl.unwrap();
                if now > p.ttl {
                    if key != primary {
                        Ok(
                            seq![
                                resolve_request(primary, lock.start_ts, ResolveAction::Rollback),
                                resolve_request(key, lock.start_ts, ResolveAction::Rollback),
                            ],
                        )
                    } else {
                        Ok(
                            seq![
                                resolve_request(primary, lock.start_ts, ResolveAction::Rollback),
                            ],
                        )
                    }
                } else {
                    Err(ErrorView::KeyIsLocked(alive_text(primary, p.ttl)))
                }
            } else {
                match self.find_commit_ts(primary, lock.start_ts) {
                    Err(e) => Err(e),
                    Ok(Some(commit_ts)) => Ok(
                        seq![
                            resolve_request(
                                key,
                                lock.start_ts,
                                ResolveAction::Commit(commit_ts),
                            ),
                        ],
                    ),
                    Ok(None) => Ok(
                        seq![resolve_request(key, lock.start_ts, ResolveAction::Rollback)],
                    ),
                }
            },
        }
    }

    /// Requests one after another, up to the first that fails.
    pub open spec fn submit_all(self, reqs: Seq<RequestView>) -> (EngineView, ReadResult<()>)
        decreases reqs.len(),
    {
        if reqs.len() == 0 {
            (self, Ok(()))
        } else {
            let (v, r) = self.submit_all(reqs.drop_last());
            match r {
                Err(e) => (v, Err(e)),
                Ok(_) => {
                    let (w, s) = v.submit(reqs.last());
                    (
                        w,
                        match s {
                            Ok(_) => Ok(()),
                            Err(e) => Err(e),
                        },
                    )
                },
            }
        }
    }

    /// What is to be done about locks before `key` can be read at `ts`: `None` for nothing.
    pub open spec fn lock_step(self, key: Seq<u8>, ts: u64) -> ReadResult<Option<Seq<RequestView>>> {
        match self.lock_on(key) {
            Err(e) => Err(e),
            Ok(None) => Ok(None),
            Ok(Some(lock)) => if lock.start_ts > ts {
                Ok(None)
            } else {
                match self.resolution(key, lock, ts) {
                    Err(e) => Err(e),
                    Ok(reqs) => Ok(Some(reqs)),
                }
            },
        }
    }

    /// Up to `n` rounds of lock resolution.
    pub open spec fn settle_locks(self, key: Seq<u8>, ts: u64, n: nat) -> (EngineView, ReadResult<()>)
        decreases n,
    {
        if n == 0 {
            (self, Ok(()))
        } else {
            match self.lock_step(key, ts) {
                Err(e) => (self, Err(e)),
                Ok(None) => (self, Ok(())),
                Ok(Some(reqs)) => {
                    let (v, r) = self.submit_all(reqs);
                    match r {
                        Err(e) => (v, Err(e)),
                        Ok(_) => v.settle_locks(key, ts, (n - 1) as nat),
                    }
                },
            }
        }
    }

    /// A snapshot read that resolves locks.
    pub open spec fn mvcc_get(self, key: Seq<u8>, ts: u64) -> (
        EngineView,
        ReadResult<Option<Seq<u8>>>,
    ) {
        let (v, r) = self.settle_locks(key, ts, 8);
        match r {
            Err(e) => (v, Err(e)),
            Ok(_) => (v, v.read_committed(key, ts)),
        }
    }

    /// A snapshot read that reports locks.
    pub open spec fn mvcc_get_unresolved(self, key: Seq<u8>, ts: u64) -> ReadResult<
        Option<Seq<u8>>,
    > {
        match self.lock_on(key) {
            Err(e) => Err(e),
            Ok(Some(lock)) => if lock.start_ts <= ts {
                Err(ErrorView::KeyIsLocked(unresolved_text(lock.start_ts)))
            } else {
                self.read_committed(key, ts)
            },
            Ok(None) => self.read_committed(key, ts),
        }
    }
}

/// A request to resolve a lock.
pub open spec fn resolve_request(key: Seq<u8>, start_ts: u64, action: ResolveAction) -> RequestView {
    RequestView::Resolve { key, start_ts, action }
}

/// Whether a Write entry points at the transaction that started at `start_ts`.
pub open spec fn points_at(wval: Option<Seq<u8>>, start_ts: u64) -> bool {
    match wval {
        Some(b) => keys::write_value_of(b) == Some(start_ts),
        None => false,
    }
}

/// Resolution keeps the memtables finite.
pub proof fn lemma_submit_all_finite(v: EngineView, reqs: Seq<RequestView>)
    requires
        v.finite(),
    ensures
        v.submit_all(reqs).0.finite(),
    decreases reqs.len(),
{
    if reqs.len() > 0 {
        lemma_submit_all_finite(v, reqs.drop_last());
        finite::lemma_submit_finite(v.submit_all(reqs.drop_last()).0, reqs.last());
    }
}

/// What a result of a lock step is, as values.
pub open spec fn step_view(r: Result<Option<Vec<Op>>>) -> ReadResult<Option<Seq<RequestView>>> {
    match r {
        Ok(Some(ops)) => Ok(Some(db::request_views(ops@))),
        Ok(None) => Ok(None),
        Err(e) => Err(e@),
    }
}

fn resolve_op(key: &[u8], start_ts: u64, action: ResolveAction) -> (op: Op)
    ensures
        op@ == resolve_request(key@, start_ts, action),
{
    Op::Resolve(ResolveSpec { key: bytes::copy(key), start_ts, action })
}

impl Engine {
    /// A snapshot read view at `read_ts`.
    pub fn snapshot(&self, read_ts: u64) -> (s: Snapshot)
        ensures
            s.ts() == read_ts,
    {
        Snapshot { read_ts }
    }

    /// Snapshot-isolated point read: the value committed for `user_key` as of `read_ts`, or
    /// `None` if there is no visible committed version (or it is a deletion mark). Locks that
    /// could hide a version are resolved first, in at most eight rounds.
    pub fn mvcc_get(&mut self, user_key: &[u8], read_ts: u64) -> (r: Result<Option<Vec<u8>>>)
        requires
            old(self)@.finite(),
        ensures
            final(self)@ == old(self)@.mvcc_get(user_key@, read_ts).0,
            db::value_result(r) == old(self)@.mvcc_get(user_key@, read_ts).1,
            final(self)@.finite(),
    {
        let mut round: u32 = 0;
        let ghost start = self@;
        while round < MAX_RESOLVE_ROUNDS
            invariant_except_break
                start.settle_locks(user_key@, read_ts, 8) == self@.settle_locks(
                    user_key@,
                    read_ts,
                    (8 - round) as nat,
                ),
            invariant
                0 <= round <= 8,
                start == old(self)@,
                self@.finite(),
            ensures
                start.settle_locks(user_key@, read_ts, 8) == (self@, Ok::<(), ErrorView>(())),
            decreases 8 - round,
        {
            match self.lock_step(user_key, read_ts) {
                Err(e) => {
                    return Err(e);
                },
                Ok(None) => {
                    break;
                },
                Ok(Some(ops)) => {
                    match self.submit_ops(ops) {
                        Err(e) => {
                            return Err(e);
                        },
                        Ok(()) => {},
                    }
                },
            }
            round = round + 1;
        }
        self.read_committed(user_key, read_ts)
    }

    /// Like [`Engine::mvcc_get`] but **non-mutating**: a lock with `start_ts <= read_ts` is
    /// reported rather than *resolved*. Resolution is a write, and in a replicated region every
    /// write goes through the log (not a read) or replicas would diverge.
    pub fn mvcc_get_unresolved(&self, user_key: &[u8], read_ts: u64) -> (r: Result<
        Option<Vec<u8>>,
    >)
        requires
            self@.finite(),
        ensures
            db::value_result(r) == self@.mvcc_get_unresolved(user_key@, read_ts),
    {
        match self.current_lock(user_key) {
            Err(e) => Err(e),
            Ok(Some(lock)) => {
                if lock.start_ts <= read_ts {
                    let mut m: String = text::owned("key locked by txn ");
                    text::push_decimal(&mut m, lock.start_ts);
                    m.push_str(" (a replicated read won't resolve it)");
                    assert(m@ =~= unresolved_text(lock.start_ts));
                    return Err(Error::KeyIsLocked(m));
                }
                self.read_committed(user_key, read_ts)
            },
            Ok(None) => self.read_committed(user_key, read_ts),
        }
    }

    /// The newest commit at or before `read_ts` and its value. Any lock that hides a version was
    /// dealt with before.
    pub fn read_committed(&self, user_key: &[u8], read_ts: u64) -> (r: Result<Option<Vec<u8>>>)
        requires
            self@.finite(),
        ensures
            db::value_result(r) == self@.read_committed(user_key@, read_ts),
    {
        let newest = self.version_from(
            user_key,
            keys::encode_data_key(user_key, read_ts),
            true,
        );
        let start_ts: u64 = match newest {
            Ok(Some((_, MemValue::Put(b)))) => match keys::decode_write_value(b.as_slice()) {
                Some(s) => s,
                None => {
                    return Err(Error::corruption("write-cf value"));
                },
            },
            Ok(Some((_, MemValue::Delete))) => {
                return Ok(None);
            },
            Ok(None) => {
                return Ok(None);
            },
            Err(e) => {
                return Err(e);
            },
        };
        match self.get_cf_raw(
            Cf::Default,
            keys::encode_data_key(user_key, start_ts).as_slice(),
        ) {
            Ok(Some(b)) => match Value::decode(b.as_slice()) {
                Some(v) => Ok(v.into_option()),
                None => Err(Error::corruption("default-cf value")),
            },
            Ok(None) => Ok(None),
            Err(e) => Err(e),
        }
    }

    /// What is to be done about locks before `user_key` can be read at `read_ts`: requests to
    /// submit before looking again, or `None` where nothing stands in the way.
    pub fn lock_step(&self, user_key: &[u8], read_ts: u64) -> (r: Result<Option<Vec<Op>>>)
        requires
            self@.finite(),
        ensures
            step_view(r) == self@.lock_step(user_key@, read_ts),
    {
        match self.current_lock(user_key) {
            Err(e) => Err(e),
            Ok(None) => Ok(None),
            Ok(Some(lock)) => {
                if lock.start_ts > read_ts {
                    return Ok(None);
                }
                match self.resolution(user_key, &lock, read_ts) {
                    Ok(ops) => Ok(Some(ops)),
                    Err(e) => Err(e),
                }
            },
        }
    }

    /// Submit requests one after another, up to the first that fails.
    fn submit_ops(&mut self, ops: Vec<Op>) -> (r: Result<()>)
        requires
            old(self)@.finite(),
        ensures
            final(self)@ == old(self)@.submit_all(db::request_views(ops@)).0,
            db::result_view(r) == old(self)@.submit_all(db::request_views(ops@)).1,
            final(self)@.finite(),
    {
        let ghost start = self@;
        let ghost all = db::request_views(ops@);
        let mut rest = ops;
        let n: usize = rest.len();
        let mut i: usize = 0;
        proof {
            assert(all.take(0) =~= Seq::<RequestView>::empty());
            assert(db::request_views(rest@) =~= all.skip(0));
        }
        while i < n
            invariant
                0 <= i <= n,
                n == all.len(),
                start == old(self)@,
                start.finite(),
                self@.finite(),
                all == db::request_views(ops@),
                rest@.len() == n - i,
                db::request_views(rest@) == all.skip(i as int),
                start.submit_all(all.take(i as int)) == (self@, Ok::<(), ErrorView>(())),
            decreases n - i,
        {
            let ghost now = rest@;
            let op = rest.remove(0);
            proof {
                assert(all.take(i + 1).drop_last() =~= all.take(i as int));
                assert(op@ == db::request_views(now)[0]);
                assert(all.take(i + 1).last() == op@);
                assert forall|j: int| 0 <= j < rest@.len() implies rest@[j]@ == all.skip(i + 1)[j] by {
                    assert(rest@[j] == now[j + 1]);
                    assert(db::request_views(now)[j + 1] == all.skip(i as int)[j + 1]);
                }
                assert(db::request_views(rest@) =~= all.skip(i + 1));
            }
            match self.submit(op) {
                Ok(_) => {},
                Err(e) => {
                    proof {
                        lemma_submit_all_error(start, all, i + 1);
                        lemma_submit_all_finite(start, all.take(i + 1));
                    }
                    return Err(e);
                },
            }
            i = i + 1;
        }
        proof {
            assert(all.take(i as int) =~= all);
            lemma_submit_all_finite(start, all);
        }
        Ok(())
    }

    /// What is to be done about a leftover lock on `key`, by its `primary`.
    pub fn resolution(&self, key: &[u8], lock: &Lock, now_ts: u64) -> (r: Result<Vec<Op>>)
        requires
            self@.finite(),
        ensures
            match r {
                Ok(ops) => self@.resolution(key@, lock@, now_ts) == Ok::<
                    Seq<RequestView>,
                    ErrorView,
                >(db::request_views(ops@)),
                Err(e) => self@.resolution(key@, lock@, now_ts) == Err::<
                    Seq<RequestView>,
                    ErrorView,
                >(e@),
            },
    {
        let primary = lock.primary.as_slice();
        let mut ops: Vec<Op> = Vec::new();
        let pl = match self.get_cf_raw(Cf::Lock, primary) {
            Ok(Some(b)) => match Lock::decode(b.as_slice()) {
                Some(l) => Some(l),
                None => {
                    return Err(Error::corruption("primary lock decode"));
                },
            },
            Ok(None) => None,
            Err(e) => {
                return Err(e);
            },
        };
        match &pl {
            Some(p) => {
                if p.start_ts == lock.start_ts {
                    if now_ts > p.ttl {
                        ops.push(resolve_op(primary, lock.start_ts, ResolveAction::Rollback));
                        if !bytes::bytes_eq(key, primary) {
                            ops.push(resolve_op(key, lock.start_ts, ResolveAction::Rollback));
                        }
                        proof {
                            let want = self@.resolution(key@, lock@, now_ts)->Ok_0;
                            assert(db::request_views(ops@) =~= want);
                        }
                        return Ok(ops);
                    }
                    let mut m: String = text::owned("primary ");
                    text::push_byte_list(&mut m, primary);
                    m.push_str(" lock alive (ttl ");
                    text::push_decimal(&mut m, p.ttl);
                    m.push_str(")");
                    assert(m@ =~= alive_text(lock@.primary, p@.ttl));
                    return Err(Error::KeyIsLocked(m));
                }
            },
            None => {},
        }
        match self.find_commit_ts(primary, lock.start_ts) {
            Ok(Some(commit_ts)) => {
                ops.push(resolve_op(key, lock.start_ts, ResolveAction::Commit(commit_ts)));
            },
            Ok(None) => {
                ops.push(resolve_op(key, lock.start_ts, ResolveAction::Rollback));
            },
            Err(e) => {
                return Err(e);
            },
        }
        proof {
            let want = self@.resolution(key@, lock@, now_ts)->Ok_0;
            assert(db::request_views(ops@) =~= want);
        }
        Ok(ops)
    }

    /// Find the primary's commit record that points at `start_ts`, scanning its versions newest
    /// to oldest. `None`: the transaction never committed.
    pub fn find_commit_ts(&self, primary: &[u8], start_ts: u64) -> (r: Result<Option<u64>>)
        requires
            self@.finite(),
        ensures
            db::result_view(r) == self@.find_commit_ts(primary@, start_ts),
    {
        let mut seek: Vec<u8> = keys::encode_data_key(primary, u64::MAX);
        let last = keys::encode_data_key(primary, 0);
        loop
            invariant
                self@.finite(),
                last@ == keys::data_key(primary@, 0),
                self@.find_commit_ts(primary@, start_ts) == self@.commit_from(
                    primary@,
                    start_ts,
                    seek@,
                ),
            decreases finite::keys_behind(self@, Cf::Write, seek@).len(),
        {
            proof {
                finite::lemma_seek_advances(self@, Cf::Write, seek@);
            }
            let (wkey, wval) = match self.seek_cf_raw(Cf::Write, seek.as_slice()) {
                Ok(Some(p)) => p,
                Ok(None) => {
                    return Ok(None);
                },
                Err(e) => {
                    return Err(e);
                },
            };
            match keys::decode_data_key(wkey.as_slice()) {
                None => {
                    return Err(Error::corruption("write-cf key decode"));
                },
                Some((wuser, commit_ts)) => {
                    if bytes::bytes_eq(wuser, primary) {
                        match &wval {
                            MemValue::Put(b) => {
                                match keys::decode_write_value(b.as_slice()) {
                                    Some(s) => {
                                        if s == start_ts {
                                            return Ok(Some(commit_ts));
                                        }
                                    },
                                    None => {},
                                }
                            },
                            MemValue::Delete => {},
                        }
                    }
                },
            }
            if bytes::bytes_lt(last.as_slice(), wkey.as_slice()) {
                return Ok(None);
            }
            seek = wkey;
            seek.push(0);
        }
    }
}

proof fn lemma_submit_all_error(v: EngineView, reqs: Seq<RequestView>, k: int)
    requires
        0 <= k <= reqs.len(),
        v.submit_all(reqs.take(k)).1 is Err,
    ensures
        v.submit_all(reqs) == v.submit_all(reqs.take(k)),
    decreases reqs.len() - k,
{
    if k < reqs.len() {
        assert(reqs.take(k + 1).drop_last() =~= reqs.take(k));
        lemma_submit_all_error(v, reqs, k + 1);
    } else {
        assert(reqs.take(k) =~= reqs);
    }
}

} // verus!
