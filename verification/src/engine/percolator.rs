//! Single-node Percolator transactions.
//!
//! A transaction is a list of [`Mutation`]s with one designated **primary** key (`mutations[0]`).
//! Commit is two-phase:
//!
//! * **Prewrite** every key (primary first): atomically check for conflicts and, if clear, write
//!   the value to the Default family at `start_ts` and a lock to the Lock family. Any conflict
//!   aborts.
//! * **Commit**: write the **primary**'s Write record at `commit_ts` and drop its lock as a single
//!   atomic batch: *this is the transaction's linearization point*. Then roll the secondaries
//!   forward. A crash after the primary commit but before the secondaries are finalized is
//!   harmless: a later reader completes them by lock resolution (see [`crate::engine::mvcc`]).

use vstd::prelude::*;
use crate::bytes;
use crate::engine::batch::WriteBatch;
use crate::engine::db;
use crate::engine::db::{Engine, EngineView, RequestView, ResolveAction};
use crate::engine::error::{Error, ErrorView, Result};
use crate::engine::keys;
use crate::engine::keys::{Cf, Value};
use crate::engine::sstable::reader::ReadResult;

verus! {

/// One key/value mutation within a transaction.
#[derive(Debug, Clone)]
pub struct Mutation {
    pub key: Vec<u8>,
    pub value: Value,
}

/// A [`Mutation`] as values.
pub struct MutationView {
    pub key: Seq<u8>,
    pub value: Option<Seq<u8>>,
}

impl View for Mutation {
    type V = MutationView;

    open spec fn view(&self) -> MutationView {
        MutationView { key: self.key@, value: self.value@ }
    }
}

impl Mutation {
    /// Write a value.
    pub fn put(key: Vec<u8>, value: Vec<u8>) -> (m: Mutation)
        ensures
            m@ == (MutationView { key: key@, value: Some(value@) }),
    {
        Mutation { key, value: Value::Put(value) }
    }

    /// Delete.
    pub fn delete(key: Vec<u8>) -> (m: Mutation)
        ensures
            m@ == (MutationView { key: key@, value: None }),
    {
        Mutation { key, value: Value::Delete }
    }
}

/// The views of a list of mutations.
pub open spec fn mutation_views(s: Seq<Mutation>) -> Seq<MutationView> {
    Seq::new(s.len(), |i: int| s[i]@)
}

/// A [`Transaction`] as values.
pub struct TxnView {
    pub start_ts: u64,
    pub mutations: Seq<MutationView>,
}

impl TxnView {
    /// The primary key: the first mutation's.
    pub open spec fn primary(self) -> Seq<u8> {
        self.mutations[0].key
    }

    /// The prewrite request of the `i`-th mutation.
    pub open spec fn prewrite_of(self, i: int, ttl: u64) -> RequestView {
        db::prewrite_request(
            self.mutations[i].key,
            self.mutations[i].value,
            self.primary(),
            self.start_ts,
            ttl,
        )
    }

    /// The first `k` mutations prewritten, up to the first that fails: the state, the outcome,
    /// and how many locks were taken.
    pub open spec fn prewritten(self, v: EngineView, ttl: u64, k: nat) -> (
        EngineView,
        ReadResult<()>,
        nat,
    )
        decreases k,
    {
        if k == 0 {
            (v, Ok(()), 0)
        } else {
            let (w, r, n) = self.prewritten(v, ttl, (k - 1) as nat);
            match r {
                Err(e) => (w, Err(e), n),
                Ok(_) => {
                    let (x, s) = w.submit(self.prewrite_of(k - 1, ttl));
                    match s {
                        Ok(_) => (x, Ok(()), k),
                        Err(e) => (x, Err(e), n),
                    }
                },
            }
        }
    }

    /// The locks of the first `n` mutations dropped, as far as they are still this transaction's.
    pub open spec fn abandoned(self, v: EngineView, n: nat) -> EngineView
        decreases n,
    {
        if n == 0 {
            v
        } else {
            self.abandoned(v, (n - 1) as nat).resolve(
                self.mutations[n - 1].key,
                self.start_ts,
                ResolveAction::Rollback,
            ).0
        }
    }

    /// The first phase.
    pub open spec fn prewrite(self, v: EngineView, ttl: u64) -> (EngineView, ReadResult<()>) {
        let (w, r, n) = self.prewritten(v, ttl, self.mutations.len());
        match r {
            Ok(_) => (w, Ok(())),
            Err(e) => (self.abandoned(w, n), Err(e)),
        }
    }

    /// The primary's commit.
    pub open spec fn commit_primary(self, v: EngineView, commit_ts: u64) -> (
        EngineView,
        ReadResult<()>,
    ) {
        let (w, r) = v.submit(
            RequestView::Write(db::commit_ops(self.primary(), self.start_ts, commit_ts)),
        );
        (
            w,
            match r {
                Ok(_) => Ok(()),
                Err(e) => Err(e),
            },
        )
    }

    /// The first `k` mutations' keys rolled forward, the primary left out, up to the first that
    /// fails.
    pub open spec fn finalized(self, v: EngineView, commit_ts: u64, k: nat) -> (
        EngineView,
        ReadResult<()>,
    )
        decreases k,
    {
        if k == 0 {
            (v, Ok(()))
        } else {
            let (w, r) = self.finalized(v, commit_ts, (k - 1) as nat);
            match r {
                Err(e) => (w, Err(e)),
                Ok(_) => if self.mutations[k - 1].key == self.primary() {
                    (w, Ok(()))
                } else {
                    w.resolve(
                        self.mutations[k - 1].key,
                        self.start_ts,
                        ResolveAction::Commit(commit_ts),
                    )
                },
            }
        }
    }

    /// The second phase.
    pub open spec fn commit(self, v: EngineView, commit_ts: u64) -> (EngineView, ReadResult<()>) {
        let (w, r) = self.commit_primary(v, commit_ts);
        match r {
            Err(e) => (w, Err(e)),
            Ok(_) => self.finalized(w, commit_ts, self.mutations.len()),
        }
    }
}

/// A transaction.
pub struct Transaction {
    start_ts: u64,
    primary: Vec<u8>,
    mutations: Vec<Mutation>,
}

impl View for Transaction {
    type V = TxnView;

    closed spec fn view(&self) -> TxnView {
        TxnView { start_ts: self.start_ts, mutations: mutation_views(self.mutations@) }
    }
}

impl Transaction {
    /// There is a first mutation, and its key is the primary.
    pub closed spec fn wf(&self) -> bool {
        self.mutations@.len() > 0 && self.primary@ == self.mutations@[0].key@
    }

    /// Begin a transaction at `start_ts`. `mutations[0]` becomes the primary.
    pub fn new(start_ts: u64, mutations: Vec<Mutation>) -> (r: Result<Transaction>)
        ensures
            match r {
                Ok(t) => mutations@.len() > 0 && t.wf() && t@ == (TxnView {
                    start_ts,
                    mutations: mutation_views(mutations@),
                }),
                Err(e) => mutations@.len() == 0 && e@ == ErrorView::InvalidArgument(
                    "transaction needs at least one mutation"@,
                ),
            },
    {
        if mutations.len() == 0 {
            return Err(Error::invalid("transaction needs at least one mutation"));
        }
        let primary = bytes::copy(mutations[0].key.as_slice());
        Ok(Transaction { start_ts, primary, mutations })
    }

    /// The timestamp that the transaction reads at.
    pub fn start_ts(&self) -> (r: u64)
        ensures
            r == self@.start_ts,
    {
        self.start_ts
    }

    /// The primary key.
    pub fn primary(&self) -> (r: &[u8])
        requires
            self.wf(),
        ensures
            r@ == self@.primary(),
    {
        self.primary.as_slice()
    }

    /// Phase 1: prewrite all keys (primary first, so a reader that finds a secondary lock can
    /// always follow it to a primary that is at least as far along). On the first conflict, drops
    /// this transaction's own partial locks (so they do not block others) and returns the error.
    pub fn prewrite(&self, engine: &mut Engine, ttl: u64) -> (r: Result<()>)
        requires
            self.wf(),
            old(engine)@.finite(),
        ensures
            final(engine)@.finite(),
            final(engine)@ == self@.prewrite(old(engine)@, ttl).0,
            db::result_view(r) == self@.prewrite(old(engine)@, ttl).1,
    {
        let ghost start = engine@;
        let mut i: usize = 0;
        while i < self.mutations.len()
            invariant
                0 <= i <= self.mutations@.len(),
                self.wf(),
                start == old(engine)@,
                engine@.finite(),
                self@.mutations.len() == self.mutations@.len(),
                self@.prewritten(start, ttl, i as nat) == (
                    engine@,
                    Ok::<(), ErrorView>(()),
                    i as nat,
                ),
            decreases self.mutations@.len() - i,
        {
            let m = &self.mutations[i];
            assert(self@.mutations[i as int] == m@);
            match engine.prewrite_one(
                m.key.as_slice(),
                &m.value,
                self.primary.as_slice(),
                self.start_ts,
                ttl,
            ) {
                Ok(_) => {},
                Err(e) => {
                    proof {
                        lemma_prewritten_error(
                            self@,
                            start,
                            ttl,
                            (i + 1) as nat,
                            self@.mutations.len(),
                        );
                    }
                    self.abandon(engine, i);
                    return Err(e);
                },
            }
            i = i + 1;
        }
        Ok(())
    }

    /// Drop the locks of the first `n` mutations, each only if it is still this transaction's.
    fn abandon(&self, engine: &mut Engine, n: usize)
        requires
            n <= self@.mutations.len(),
            old(engine)@.finite(),
        ensures
            final(engine)@.finite(),
            final(engine)@ == self@.abandoned(old(engine)@, n as nat),
    {
        let ghost start = engine@;
        let mut i: usize = 0;
        while i < n
            invariant
                0 <= i <= n,
                n <= self.mutations@.len(),
                start == old(engine)@,
                engine@.finite(),
                engine@ == self@.abandoned(start, i as nat),
            decreases n - i,
        {
            assert(self@.mutations[i as int] == self.mutations@[i as int]@);
            let _ = engine.resolve_rollback(self.mutations[i].key.as_slice(), self.start_ts);
            i = i + 1;
        }
    }

    /// Phase 2a: commit the primary, the atomic linearization point.
    pub fn commit_primary(&self, engine: &mut Engine, commit_ts: u64) -> (r: Result<()>)
        requires
            self.wf(),
            old(engine)@.finite(),
        ensures
            final(engine)@.finite(),
            final(engine)@ == self@.commit_primary(old(engine)@, commit_ts).0,
            db::result_view(r) == self@.commit_primary(old(engine)@, commit_ts).1,
    {
        let mut b = WriteBatch::new();
        b.put(
            Cf::Write,
            keys::encode_data_key(self.primary.as_slice(), commit_ts),
            bytes::copy(keys::encode_write_value(self.start_ts).as_slice()),
        );
        b.delete(Cf::Lock, bytes::copy(self.primary.as_slice()));
        assert(b@ =~= db::commit_ops(self@.primary(), self@.start_ts, commit_ts));
        match engine.write(b) {
            Ok(_) => Ok(()),
            Err(e) => Err(e),
        }
    }

    /// Phase 2b: roll the secondaries forward. Conditional (only acts if the lock is still this
    /// transaction's), so it is safe against a reader that finalized the same secondary first and
    /// a third transaction that then locked the key anew.
    pub fn finalize_secondaries(&self, engine: &mut Engine, commit_ts: u64) -> (r: Result<()>)
        requires
            self.wf(),
            old(engine)@.finite(),
        ensures
            final(engine)@.finite(),
            final(engine)@ == self@.finalized(
                old(engine)@,
                commit_ts,
                self@.mutations.len(),
            ).0,
            db::result_view(r) == self@.finalized(
                old(engine)@,
                commit_ts,
                self@.mutations.len(),
            ).1,
    {
        let ghost start = engine@;
        let mut i: usize = 0;
        while i < self.mutations.len()
            invariant
                0 <= i <= self.mutations@.len(),
                self.wf(),
                start == old(engine)@,
                engine@.finite(),
                self@.mutations.len() == self.mutations@.len(),
                self@.finalized(start, commit_ts, i as nat) == (
                    engine@,
                    Ok::<(), ErrorView>(()),
                ),
            decreases self.mutations@.len() - i,
        {
            let m = &self.mutations[i];
            assert(self@.mutations[i as int] == m@);
            if !bytes::bytes_eq(m.key.as_slice(), self.primary.as_slice()) {
                match engine.resolve_commit(m.key.as_slice(), self.start_ts, commit_ts) {
                    Ok(()) => {},
                    Err(e) => {
                        proof {
                            lemma_finalized_error(
                                self@,
                                start,
                                commit_ts,
                                (i + 1) as nat,
                                self@.mutations.len(),
                            );
                        }
                        return Err(e);
                    },
                }
            }
            i = i + 1;
        }
        Ok(())
    }

    /// Commit: primary, then secondaries.
    pub fn commit(&self, engine: &mut Engine, commit_ts: u64) -> (r: Result<()>)
        requires
            self.wf(),
            old(engine)@.finite(),
        ensures
            final(engine)@.finite(),
            final(engine)@ == self@.commit(old(engine)@, commit_ts).0,
            db::result_view(r) == self@.commit(old(engine)@, commit_ts).1,
    {
        match self.commit_primary(engine, commit_ts) {
            Ok(()) => self.finalize_secondaries(engine, commit_ts),
            Err(e) => Err(e),
        }
    }
}

proof fn lemma_prewritten_error(t: TxnView, v: EngineView, ttl: u64, k: nat, n: nat)
    requires
        k <= n,
        t.prewritten(v, ttl, k).1 is Err,
    ensures
        t.prewritten(v, ttl, n) == t.prewritten(v, ttl, k),
    decreases n - k,
{
    if k < n {
        lemma_prewritten_error(t, v, ttl, k, (n - 1) as nat);
    }
}

proof fn lemma_finalized_error(t: TxnView, v: EngineView, commit_ts: u64, k: nat, n: nat)
    requires
        k <= n,
        t.finalized(v, commit_ts, k).1 is Err,
    ensures
        t.finalized(v, commit_ts, n) == t.finalized(v, commit_ts, k),
    decreases n - k,
{
    if k < n {
        lemma_finalized_error(t, v, commit_ts, k, (n - 1) as nat);
    }
}

} // verus!
