//! The engine core: wires the log, memtables, tables and manifest into a single durable store,
//! and holds the steps of the **group commit**.
//!
//! ## Group commit
//!
//! All writes go through one committer. It takes every batch that waits into a *group*, appends
//! them to the log, flushes the log **once**, applies them to the active memtable and answers
//! every writer. One committer makes sequence-number assignment and memtable ordering trivially
//! correct.
//!
//! ## Flush
//!
//! When the active memtable crosses the size threshold the committer **freezes** it (a fresh one
//! takes its place, the log moves to a new segment) and flushes the oldest frozen one to a table, then
//! advances the watermark and replaces the manifest. That is the one just frozen, unless a flush has
//! failed: then the memtable whose flush failed goes first, so that tables stay in the order of the
//! writes and the watermark never passes a write that is in no table.
//!
//! Reads go newest to oldest: active memtable, frozen memtables, tables (newest first). A
//! deletion mark at any level is authoritative and shadows everything below it.
//!
//! The state machine here decides; what it wants on disk it hands out as bytes, and each step
//! that depends on a file operation takes that operation's outcome.

use vstd::prelude::*;
use crate::bytes;
use crate::engine::batch;
use crate::engine::batch::{OpView, WriteBatch};
use crate::engine::error::{Error, ErrorView, Result};
use crate::engine::finite;
use crate::engine::keys;
use crate::engine::keys::{Cf, Lock, LockKind, LockView, Value};
use crate::engine::manifest;
use crate::engine::manifest::{Manifest, ManifestView};
use crate::engine::memtable;
use crate::engine::memtable::{MemValue, Memtable, MemtableView, Tables};
use crate::engine::options::Options;
use crate::engine::sstable::block::Entry;
use crate::engine::sstable::reader;
use crate::engine::sstable::reader::{ReadResult, SstReader, TableView};
use crate::engine::sstable::table;
use crate::engine::sstable::writer;
use crate::engine::sstable::writer::SstWriter;
use crate::engine::wal;
use crate::text;

verus! {

/// Cap on how many batches one group commit coalesces.
pub const MAX_GROUP: usize = 1024;

/// A Percolator prewrite, evaluated atomically by the committer: it checks for conflicts against
/// the live state and, only if clear, writes the Default value and the Lock.
pub struct PrewriteSpec {
    pub key: Vec<u8>,
    /// The encoded [`Value`] written to the Default family at `start_ts`.
    pub value: Vec<u8>,
    pub primary: Vec<u8>,
    pub start_ts: u64,
    pub ttl: u64,
    pub kind: LockKind,
}

/// How to resolve a lock: complete its transaction's commit on this key, or roll it back.
#[derive(Clone, Copy)]
pub enum ResolveAction {
    /// Commit at this timestamp.
    Commit(u64),
    Rollback,
}

/// A conditional lock resolution: looks at `key`'s lock again when it is applied and acts only if
/// it still belongs to `start_ts`. Deleting whatever lock is on `key` would race with another
/// transaction that locked `key` anew, and break mutual exclusion.
pub struct ResolveSpec {
    pub key: Vec<u8>,
    pub start_ts: u64,
    pub action: ResolveAction,
}

/// Work for the committer. `Write` is unconditional; `Prewrite` and `Resolve` check first.
pub enum Op {
    Write(WriteBatch),
    Prewrite(PrewriteSpec),
    Resolve(ResolveSpec),
}

/// A [`PrewriteSpec`] as values.
pub struct PrewriteView {
    pub key: Seq<u8>,
    pub value: Seq<u8>,
    pub primary: Seq<u8>,
    pub start_ts: u64,
    pub ttl: u64,
    pub kind: LockKind,
}

/// An [`Op`] as values.
pub enum RequestView {
    Write(Seq<OpView>),
    Prewrite(PrewriteView),
    Resolve { key: Seq<u8>, start_ts: u64, action: ResolveAction },
}

impl View for Op {
    type V = RequestView;

    open spec fn view(&self) -> RequestView {
        match self {
            Op::Write(b) => RequestView::Write(b@),
            Op::Prewrite(s) => RequestView::Prewrite(
                PrewriteView {
                    key: s.key@,
                    value: s.value@,
                    primary: s.primary@,
                    start_ts: s.start_ts,
                    ttl: s.ttl,
                    kind: s.kind,
                },
            ),
            Op::Resolve(s) => RequestView::Resolve {
                key: s.key@,
                start_ts: s.start_ts,
                action: s.action,
            },
        }
    }
}

/// The mutations of a prewrite that passed its checks: the value and the lock.
pub open spec fn prewrite_ops(p: PrewriteView) -> Seq<OpView> {
    seq![
        OpView {
            cf: Cf::Default,
            key: keys::data_key(p.key, p.start_ts),
            value: Some(p.value),
        },
        OpView {
            cf: Cf::Lock,
            key: p.key,
            value: Some(
                keys::lock_bytes(
                    LockView { primary: p.primary, start_ts: p.start_ts, ttl: p.ttl, kind: p.kind },
                ),
            ),
        },
    ]
}

/// The mutations of a commit: the Write record appears and the lock goes.
pub open spec fn commit_ops(key: Seq<u8>, start_ts: u64, commit_ts: u64) -> Seq<OpView> {
    seq![
        OpView {
            cf: Cf::Write,
            key: keys::data_key(key, commit_ts),
            value: Some(bytes::be64(start_ts)),
        },
        OpView { cf: Cf::Lock, key, value: None },
    ]
}

/// The mutations of a rollback: the lock and the value that was never committed go.
pub open spec fn rollback_ops(key: Seq<u8>, start_ts: u64) -> Seq<OpView> {
    seq![
        OpView { cf: Cf::Lock, key, value: None },
        OpView { cf: Cf::Default, key: keys::data_key(key, start_ts), value: None },
    ]
}

/// The mutations of a resolution.
pub open spec fn resolve_ops(key: Seq<u8>, start_ts: u64, action: ResolveAction) -> Seq<OpView> {
    match action {
        ResolveAction::Commit(commit_ts) => commit_ops(key, start_ts, commit_ts),
        ResolveAction::Rollback => rollback_ops(key, start_ts),
    }
}

/// The batch for a lock resolution that passed its check.
pub fn build_resolve_batch(spec: &ResolveSpec) -> (b: WriteBatch)
    ensures
        b@ == resolve_ops(spec.key@, spec.start_ts, spec.action),
{
    let mut b = WriteBatch::new();
    match spec.action {
        ResolveAction::Commit(commit_ts) => {
            b.put(
                Cf::Write,
                keys::encode_data_key(spec.key.as_slice(), commit_ts),
                bytes::copy(keys::encode_write_value(spec.start_ts).as_slice()),
            );
            b.delete(Cf::Lock, bytes::copy(spec.key.as_slice()));
        },
        ResolveAction::Rollback => {
            b.delete(Cf::Lock, bytes::copy(spec.key.as_slice()));
            b.delete(Cf::Default, keys::encode_data_key(spec.key.as_slice(), spec.start_ts));
        },
    }
    assert(b@ =~= resolve_ops(spec.key@, spec.start_ts, spec.action));
    b
}

/// The batch for a prewrite that passed its checks.
pub fn build_prewrite_batch(spec: &PrewriteSpec) -> (b: WriteBatch)
    ensures
        RequestView::Prewrite(
            PrewriteView {
                key: spec.key@,
                value: spec.value@,
                primary: spec.primary@,
                start_ts: spec.start_ts,
                ttl: spec.ttl,
                kind: spec.kind,
            },
        ) matches RequestView::Prewrite(p) && b@ == prewrite_ops(p),
{
    let mut b = WriteBatch::new();
    b.put(
        Cf::Default,
        keys::encode_data_key(spec.key.as_slice(), spec.start_ts),
        bytes::copy(spec.value.as_slice()),
    );
    let lock = Lock {
        primary: bytes::copy(spec.primary.as_slice()),
        start_ts: spec.start_ts,
        ttl: spec.ttl,
        kind: spec.kind,
    };
    b.put(Cf::Lock, bytes::copy(spec.key.as_slice()), lock.encode());
    proof {
        let p = PrewriteView {
            key: spec.key@,
            value: spec.value@,
            primary: spec.primary@,
            start_ts: spec.start_ts,
            ttl: spec.ttl,
            kind: spec.kind,
        };
        assert(b@ =~= prewrite_ops(p));
    }
    b
}

/// A change of the files on disk.
#[derive(Debug, Clone, PartialEq, Eq)]
pub enum Effect {
    /// A new, empty log segment.
    CreateSegment(u64),
    /// Bytes behind the end of a log segment.
    Append(u64, Vec<u8>),
    /// A log segment flushed to stable storage, as the options say.
    Sync(u64),
    /// A table's file.
    WriteTable(u64, Vec<u8>),
    /// A new manifest in place of the old one.
    StoreManifest(Vec<u8>),
    /// A log segment removed.
    RemoveSegment(u64),
    /// A table's file removed.
    RemoveTable(u64),
}

/// An [`Effect`] as values.
pub enum EffectView {
    CreateSegment(u64),
    Append(u64, Seq<u8>),
    Sync(u64),
    WriteTable(u64, Seq<u8>),
    StoreManifest(Seq<u8>),
    RemoveSegment(u64),
    RemoveTable(u64),
}

impl View for Effect {
    type V = EffectView;

    open spec fn view(&self) -> EffectView {
        match self {
            Effect::CreateSegment(n) => EffectView::CreateSegment(*n),
            Effect::Append(n, b) => EffectView::Append(*n, b@),
            Effect::Sync(n) => EffectView::Sync(*n),
            Effect::WriteTable(n, b) => EffectView::WriteTable(*n, b@),
            Effect::StoreManifest(b) => EffectView::StoreManifest(b@),
            Effect::RemoveSegment(n) => EffectView::RemoveSegment(*n),
            Effect::RemoveTable(n) => EffectView::RemoveTable(*n),
        }
    }
}

/// The views of a list of effects.
pub open spec fn effect_views(s: Seq<Effect>) -> Seq<EffectView> {
    Seq::new(s.len(), |i: int| s[i]@)
}

/// What a seek finds: a key and its entry.
pub type Found = Option<(Seq<u8>, Option<Seq<u8>>)>;

/// The better of two candidates of a seek, the first from a newer level: the smaller key, and
/// the newer one of equal keys.
pub open spec fn newer_wins(a: Found, b: Found) -> Found {
    match (a, b) {
        (None, _) => b,
        (_, None) => a,
        (Some(x), Some(y)) => if bytes::lex_le(x.0, y.0) {
            a
        } else {
            b
        },
    }
}

pub proof fn lemma_newer_wins_assoc(a: Found, b: Found, c: Found)
    ensures
        newer_wins(newer_wins(a, b), c) == newer_wins(a, newer_wins(b, c)),
{
    if a is Some && b is Some && c is Some {
        let (x, y, z) = (a.unwrap().0, b.unwrap().0, c.unwrap().0);
        bytes::lemma_lex_facts(x, y, z);
        bytes::lemma_lex_facts(y, z, x);
        bytes::lemma_lex_facts(z, y, x);
    }
}

/// A key's entry in the newest of the memtables that has one.
pub open spec fn mems_get(ms: Seq<MemtableView>, cf: Cf, key: Seq<u8>) -> Option<Option<Seq<u8>>>
    decreases ms.len(),
{
    if ms.len() == 0 {
        None
    } else {
        match table::entry_of(ms.last().tables.of(cf), key) {
            Some(v) => Some(v),
            None => mems_get(ms.drop_last(), cf, key),
        }
    }
}

/// A key's value in the newest of the tables that has an entry.
pub open spec fn tables_get(ts: Seq<TableView>, cf: Cf, key: Seq<u8>) -> ReadResult<Option<Seq<u8>>>
    decreases ts.len(),
{
    if ts.len() == 0 {
        Ok(None)
    } else {
        match ts.last().get(cf, key) {
            Err(e) => Err(e),
            Ok(Some(v)) => Ok(v),
            Ok(None) => tables_get(ts.drop_last(), cf, key),
        }
    }
}

/// The next key over all memtables.
pub open spec fn mems_seek(ms: Seq<MemtableView>, cf: Cf, from: Seq<u8>) -> Found
    decreases ms.len(),
{
    if ms.len() == 0 {
        None
    } else {
        newer_wins(
            memtable::seek_in(ms.last().tables.of(cf), from),
            mems_seek(ms.drop_last(), cf, from),
        )
    }
}

/// The next key over all tables.
pub open spec fn tables_seek(ts: Seq<TableView>, cf: Cf, from: Seq<u8>) -> ReadResult<Found>
    decreases ts.len(),
{
    if ts.len() == 0 {
        Ok(None)
    } else {
        match ts.last().seek(cf, from) {
            Err(e) => Err(e),
            Ok(a) => match tables_seek(ts.drop_last(), cf, from) {
                Err(e) => Err(e),
                Ok(b) => Ok(newer_wins(a, b)),
            },
        }
    }
}

/// A number that starts over at the end of its range.
pub open spec fn succ(n: u64) -> u64 {
    if n == u64::MAX {
        0
    } else {
        (n + 1) as u64
    }
}

/// The larger of two numbers.
pub open spec fn larger(a: u64, b: u64) -> u64 {
    if a > b {
        a
    } else {
        b
    }
}

/// What the committer does about one request.
pub enum DecisionView {
    /// Log and apply these mutations.
    Apply(Seq<OpView>),
    /// Answer without writing.
    Done(core::result::Result<u64, ErrorView>),
}

/// What the committer does about one request.
pub enum Decision {
    /// Log and apply this batch.
    Apply(WriteBatch),
    /// Answer without writing.
    Done(Result<u64>),
}

/// A result with its error as values.
pub open spec fn result_view<T>(r: Result<T>) -> core::result::Result<T, ErrorView> {
    match r {
        Ok(v) => Ok(v),
        Err(e) => Err(e@),
    }
}

/// A result with its value and its error as values.
pub open spec fn value_result(r: Result<Option<Vec<u8>>>) -> ReadResult<Option<Seq<u8>>> {
    match r {
        Ok(v) => Ok(memtable::opt_view(v)),
        Err(e) => Err(e@),
    }
}

/// What a seek found, as values.
pub open spec fn found_view(f: Option<(Vec<u8>, MemValue)>) -> Found {
    match f {
        Some((k, v)) => Some((k@, v@)),
        None => None,
    }
}

/// A seek's result as values.
pub open spec fn found_result(r: Result<Option<(Vec<u8>, MemValue)>>) -> ReadResult<Found> {
    match r {
        Ok(f) => Ok(found_view(f)),
        Err(e) => Err(e@),
    }
}

impl View for Decision {
    type V = DecisionView;

    open spec fn view(&self) -> DecisionView {
        match self {
            Decision::Apply(b) => DecisionView::Apply(b@),
            Decision::Done(r) => DecisionView::Done(result_view(*r)),
        }
    }
}

/// How the file operations of a group went: `None` for success, or the text of the error.
pub struct GroupIo {
    /// The append of the `i`-th request's record; success where there is no entry.
    pub append: Vec<Option<String>>,
    /// The flush of the log.
    pub sync: Option<String>,
    /// The creation of the next log segment.
    pub segment: Option<String>,
    /// The writing of the table.
    pub table: Option<String>,
    /// The replacement of the manifest.
    pub manifest: Option<String>,
}

/// A [`GroupIo`] as values.
pub struct GroupIoView {
    pub append: Seq<Option<Seq<char>>>,
    pub sync: Option<Seq<char>>,
    pub segment: Option<Seq<char>>,
    pub table: Option<Seq<char>>,
    pub manifest: Option<Seq<char>>,
}

/// The views of a list of outcomes.
pub open spec fn opt_texts(s: Seq<Option<String>>) -> Seq<Option<Seq<char>>> {
    Seq::new(s.len(), |i: int| text::opt_text(s[i]))
}

impl View for GroupIo {
    type V = GroupIoView;

    open spec fn view(&self) -> GroupIoView {
        GroupIoView {
            append: opt_texts(self.append@),
            sync: text::opt_text(self.sync),
            segment: text::opt_text(self.segment),
            table: text::opt_text(self.table),
            manifest: text::opt_text(self.manifest),
        }
    }
}

impl GroupIoView {
    /// Every operation succeeded.
    pub open spec fn clean() -> GroupIoView {
        GroupIoView {
            append: Seq::empty(),
            sync: None,
            segment: None,
            table: None,
            manifest: None,
        }
    }

    /// The outcome of the `i`-th append.
    pub open spec fn append_at(self, i: int) -> Option<Seq<char>> {
        if 0 <= i < self.append.len() {
            self.append[i]
        } else {
            None
        }
    }
}

impl GroupIo {
    /// Every operation succeeded.
    pub fn clean() -> (io: GroupIo)
        ensures
            io@ == GroupIoView::clean(),
    {
        let io = GroupIo {
            append: Vec::new(),
            sync: None,
            segment: None,
            table: None,
            manifest: None,
        };
        assert(io@.append =~= Seq::<Option<Seq<char>>>::empty());
        io
    }
}

/// The engine's state as values.
#[verifier::ext_equal]
pub struct EngineView {
    pub opts: Options,
    /// The memtable that takes new writes.
    pub active: MemtableView,
    /// Frozen memtables, oldest first.
    pub immutable: Seq<MemtableView>,
    /// Live tables, oldest first.
    pub tables: Seq<TableView>,
    /// Last assigned log sequence number.
    pub seq: u64,
    /// Highest sequence number captured in a table.
    pub last_flushed: u64,
    /// Next log segment number.
    pub next_seg: u64,
    /// Next table number.
    pub next_sst: u64,
    /// The log segment that takes new records.
    pub segment: u64,
    /// Changes on disk that nobody took note of yet.
    pub effects: Seq<EffectView>,
}

/// What a group leaves behind on the way: the state, the answers, and whether a record was
/// logged.
pub struct GroupState {
    pub engine: EngineView,
    pub results: Seq<core::result::Result<u64, ErrorView>>,
    pub appended: bool,
}

/// Every success turned into the failure of the group's flush.
pub open spec fn failed_sync(
    results: Seq<core::result::Result<u64, ErrorView>>,
    msg: Seq<char>,
) -> Seq<core::result::Result<u64, ErrorView>> {
    Seq::new(
        results.len(),
        |i: int|
            match results[i] {
                Ok(_) => Err(
                    ErrorView::Corruption("group fsync failed: "@ + ErrorView::Io(msg).message()),
                ),
                Err(e) => Err(e),
            },
    )
}

/// A version of a user key: its commit timestamp and its entry.
pub type Version = Option<(u64, Option<Seq<u8>>)>;

/// A version that was found, as values.
pub open spec fn version_result(r: Result<Option<(u64, MemValue)>>) -> ReadResult<Version> {
    match r {
        Ok(Some((c, v))) => Ok(Some((c, v@))),
        Ok(None) => Ok(None),
        Err(e) => Err(e@),
    }
}

impl EngineView {
    /// A family's key over all levels: the newest entry counts, a deletion mark as absent.
    pub open spec fn get(self, cf: Cf, key: Seq<u8>) -> ReadResult<Option<Seq<u8>>> {
        match table::entry_of(self.active.tables.of(cf), key) {
            Some(v) => Ok(v),
            None => match mems_get(self.immutable, cf, key) {
                Some(v) => Ok(v),
                None => tables_get(self.tables, cf, key),
            },
        }
    }

    /// The smallest key at or behind `from` over all levels, the newest level winning ties.
    pub open spec fn seek(self, cf: Cf, from: Seq<u8>) -> ReadResult<Found> {
        match tables_seek(self.tables, cf, from) {
            Err(e) => Err(e),
            Ok(older) => Ok(
                newer_wins(
                    memtable::seek_in(self.active.tables.of(cf), from),
                    newer_wins(mems_seek(self.immutable, cf, from), older),
                ),
            ),
        }
    }

    /// The lock on a key.
    pub open spec fn lock_on(self, key: Seq<u8>) -> ReadResult<Option<LockView>> {
        match self.get(Cf::Lock, key) {
            Err(e) => Err(e),
            Ok(None) => Ok(None),
            Ok(Some(b)) => match keys::lock_of(b) {
                Some(l) => Ok(Some(l)),
                None => Err(ErrorView::Corruption("lock decode"@)),
            },
        }
    }

    /// The newest version of `key` at or behind `from` in the Write family: its commit timestamp
    /// and its entry. Versions of other user keys can stand in between; they are passed over, up
    /// to where the oldest version of `key` would stand. A storage key without a timestamp is
    /// passed over too, or, where `strict`, reported.
    pub open spec fn version_from(self, key: Seq<u8>, from: Seq<u8>, strict: bool) -> ReadResult<
        Version,
    >
        decreases finite::keys_behind(self, Cf::Write, from).len(),
        when self.finite()
        via Self::version_from_ends
    {
        match self.seek(Cf::Write, from) {
            Err(e) => Err(e),
            Ok(None) => Ok(None),
            Ok(Some((wkey, wval))) => match keys::split_data_key(wkey) {
                Some((wuser, commit_ts)) => if wuser == key {
                    Ok(Some((commit_ts, wval)))
                } else if bytes::lex_lt(keys::data_key(key, 0), wkey) {
                    Ok(None)
                } else {
                    self.version_from(key, wkey.push(0u8), strict)
                },
                None => if strict {
                    Err(ErrorView::Corruption("write-cf key decode"@))
                } else if bytes::lex_lt(keys::data_key(key, 0), wkey) {
                    Ok(None)
                } else {
                    self.version_from(key, wkey.push(0u8), strict)
                },
            },
        }
    }

    #[via_fn]
    proof fn version_from_ends(self, key: Seq<u8>, from: Seq<u8>, strict: bool) {
        finite::lemma_seek_advances(self, Cf::Write, from);
    }

    /// Whether the newest commit of `key` is at or after `start_ts`.
    pub open spec fn committed_since(self, key: Seq<u8>, start_ts: u64) -> ReadResult<bool> {
        match self.version_from(key, keys::data_key(key, u64::MAX), false) {
            Err(e) => Err(e),
            Ok(None) => Ok(false),
            Ok(Some((commit_ts, _))) => Ok(commit_ts >= start_ts),
        }
    }

    /// The prewrite checks: no commit newer than the snapshot, and no lock.
    #[verifier::opaque]
    pub open spec fn prewrite_check(self, key: Seq<u8>, start_ts: u64) -> ReadResult<()> {
        match self.committed_since(key, start_ts) {
            Err(e) => Err(e),
            Ok(true) => Err(ErrorView::Conflict("write conflict: a newer commit exists"@)),
            Ok(false) => match self.get(Cf::Lock, key) {
                Err(e) => Err(e),
                Ok(Some(_)) => Err(
                    ErrorView::Conflict("key is already locked by another transaction"@),
                ),
                Ok(None) => Ok(()),
            },
        }
    }

    /// What the committer does about a request in this state.
    pub open spec fn decide(self, req: RequestView) -> DecisionView {
        match req {
            RequestView::Write(ops) => DecisionView::Apply(ops),
            RequestView::Prewrite(p) => match self.prewrite_check(p.key, p.start_ts) {
                Ok(_) => DecisionView::Apply(prewrite_ops(p)),
                Err(e) => DecisionView::Done(Err(e)),
            },
            RequestView::Resolve { key, start_ts, action } => match self.lock_on(key) {
                Ok(Some(lock)) => if lock.start_ts == start_ts {
                    DecisionView::Apply(resolve_ops(key, start_ts, action))
                } else {
                    DecisionView::Done(Ok(0))
                },
                Ok(None) => DecisionView::Done(Ok(0)),
                Err(e) => DecisionView::Done(Err(e)),
            },
        }
    }

    /// The state once the next sequence number is taken.
    pub open spec fn numbered(self) -> EngineView {
        EngineView { seq: succ(self.seq), ..self }
    }

    /// The state once the record with the current sequence number is in the log.
    pub open spec fn logged(self, ops: Seq<OpView>) -> EngineView {
        EngineView {
            active: self.active.apply(self.seq, ops),
            effects: self.effects.push(
                EffectView::Append(
                    self.segment,
                    wal::frame((self.seq, batch::batch_bytes(ops))),
                ),
            ),
            ..self
        }
    }

    /// One request of a group.
    pub open spec fn run_one(
        self,
        req: RequestView,
        append: Option<Seq<char>>,
    ) -> (EngineView, core::result::Result<u64, ErrorView>, bool) {
        match self.decide(req) {
            DecisionView::Done(r) => (self, r, false),
            DecisionView::Apply(ops) => {
                let n = self.numbered();
                match append {
                    None => (n.logged(ops), Ok(n.seq), true),
                    Some(m) => (n, Err(ErrorView::Io(m)), false),
                }
            },
        }
    }

    /// The requests of a group, one after another.
    pub open spec fn run_all(self, reqs: Seq<RequestView>, io: GroupIoView) -> GroupState
        decreases reqs.len(),
    {
        if reqs.len() == 0 {
            GroupState { engine: self, results: Seq::empty(), appended: false }
        } else {
            let before = self.run_all(reqs.drop_last(), io);
            let (e, r, a) = before.engine.run_one(reqs.last(), io.append_at(reqs.len() - 1));
            GroupState {
                engine: e,
                results: before.results.push(r),
                appended: before.appended || a,
            }
        }
    }

    /// The state once the log was flushed.
    pub open spec fn synced(self) -> EngineView {
        EngineView { effects: self.effects.push(EffectView::Sync(self.segment)), ..self }
    }

    /// Whether the active memtable is full.
    pub open spec fn full(self) -> bool {
        self.active.size >= self.opts.memtable_size_threshold
    }

    /// The state with the active memtable frozen and a segment number taken.
    pub open spec fn frozen(self) -> EngineView {
        EngineView {
            active: MemtableView::fresh(),
            immutable: self.immutable.push(self.active),
            next_seg: succ(self.next_seg),
            ..self
        }
    }

    /// The state once segment `n` takes the log.
    pub open spec fn rotated(self, n: u64) -> EngineView {
        EngineView {
            segment: n,
            effects: self.effects.push(EffectView::CreateSegment(n)),
            ..self
        }
    }

    /// The state once a table number is taken.
    pub open spec fn table_numbered(self) -> EngineView {
        EngineView { next_sst: succ(self.next_sst), ..self }
    }

    /// The state once the file of table `n` is written.
    pub open spec fn table_written(self, n: u64, data: Seq<u8>) -> EngineView {
        EngineView { effects: self.effects.push(EffectView::WriteTable(n, data)), ..self }
    }

    /// The state once a table is live.
    pub open spec fn installed(self, t: TableView) -> EngineView {
        EngineView { tables: self.tables.push(t), ..self }
    }

    /// The state with the oldest frozen memtable counted as flushed.
    pub open spec fn advanced(self) -> EngineView {
        EngineView {
            last_flushed: larger(self.last_flushed, self.immutable[0].max_seq),
            ..self
        }
    }

    /// The manifest of this state.
    pub open spec fn manifest(self) -> ManifestView {
        ManifestView {
            last_flushed_seq: self.last_flushed,
            sstables: Seq::new(self.tables.len(), |i: int| self.tables[i].file_no),
        }
    }

    /// The state once the manifest is stored and the oldest frozen memtable forgotten.
    pub open spec fn forgotten(self) -> EngineView {
        EngineView {
            immutable: self.immutable.skip(1),
            effects: self.effects.push(
                EffectView::StoreManifest(manifest::manifest_bytes(self.manifest())),
            ),
            ..self
        }
    }

    /// The oldest frozen memtable's table: its file's bytes.
    pub open spec fn table_image(self) -> Seq<u8> {
        writer::table_bytes(table::entries_of(self.immutable[0].tables))
    }

    /// The oldest frozen memtable written to a table and the table made live; an error leaves
    /// what was done until then.
    pub open spec fn flush_data(self, outcome: Option<Seq<char>>) -> (EngineView, ReadResult<()>) {
        if self.immutable[0].size == 0 {
            (self, Ok(()))
        } else {
            let n = self.next_sst;
            let numbered = self.table_numbered();
            match outcome {
                Some(m) => (numbered, Err(ErrorView::Io(m))),
                None => {
                    let w = numbered.table_written(n, self.table_image());
                    match reader::table_of(self.table_image(), n) {
                        Err(e) => (w, Err(e)),
                        Ok(t) => (w.installed(t), Ok(())),
                    }
                },
            }
        }
    }

    /// The oldest frozen memtable flushed. One whose flush failed stays in front of those that were
    /// frozen behind it, so tables are made in the order in which they were written.
    pub open spec fn flushed(self, io: GroupIoView) -> (EngineView, ReadResult<()>) {
        let (d, r) = self.flush_data(io.table);
        match r {
            Err(e) => (d, Err(e)),
            Ok(_) => {
                let a = d.advanced();
                match io.manifest {
                    Some(m) => (a, Err(ErrorView::Io(m))),
                    None => (a.forgotten(), Ok(())),
                }
            },
        }
    }

    /// The end of a group that was flushed: a full memtable is frozen and flushed.
    pub open spec fn settled(self, io: GroupIoView) -> EngineView {
        if self.full() {
            let n = self.next_seg;
            let f = self.frozen();
            let r = if io.segment is None {
                f.rotated(n)
            } else {
                f
            };
            r.flushed(io).0
        } else {
            self
        }
    }

    /// A whole group: the state it leaves and its answers.
    pub open spec fn process(
        self,
        reqs: Seq<RequestView>,
        io: GroupIoView,
    ) -> (EngineView, Seq<core::result::Result<u64, ErrorView>>) {
        let g = self.run_all(reqs, io);
        if g.appended {
            match io.sync {
                Some(m) => (g.engine, failed_sync(g.results, m)),
                None => (g.engine.synced().settled(io), g.results),
            }
        } else {
            (g.engine.settled(io), g.results)
        }
    }

    /// One request with every file operation succeeding.
    #[verifier::opaque]
    pub open spec fn submit(self, req: RequestView) -> (
        EngineView,
        core::result::Result<u64, ErrorView>,
    ) {
        let (e, rs) = self.process(seq![req], GroupIoView::clean());
        (e, rs[0])
    }
}

spec fn mem_views(s: Seq<Memtable>) -> Seq<MemtableView> {
    Seq::new(s.len(), |i: int| s[i]@)
}

spec fn table_views(s: Seq<SstReader>) -> Seq<TableView> {
    Seq::new(s.len(), |i: int| s[i]@)
}

/// An open engine.
pub struct Engine {
    opts: Options,
    active: Memtable,
    immutable: Vec<Memtable>,
    tables: Vec<SstReader>,
    seq: u64,
    last_flushed: u64,
    next_seg: u64,
    next_sst: u64,
    segment: u64,
    effects: Vec<Effect>,
}

impl View for Engine {
    type V = EngineView;

    closed spec fn view(&self) -> EngineView {
        EngineView {
            opts: self.opts,
            active: self.active@,
            immutable: mem_views(self.immutable@),
            tables: table_views(self.tables@),
            seq: self.seq,
            last_flushed: self.last_flushed,
            next_seg: self.next_seg,
            next_sst: self.next_sst,
            segment: self.segment,
            effects: effect_views(self.effects@),
        }
    }
}

/// The better of two candidates of a seek, the first from a newer level.
fn pick(a: Option<(Vec<u8>, MemValue)>, b: Option<(Vec<u8>, MemValue)>) -> (r: Option<
    (Vec<u8>, MemValue),
>)
    ensures
        found_view(r) == newer_wins(found_view(a), found_view(b)),
{
    match (a, b) {
        (None, y) => y,
        (x, None) => x,
        (Some(x), Some(y)) => if bytes::bytes_le(x.0.as_slice(), y.0.as_slice()) {
            Some(x)
        } else {
            Some(y)
        },
    }
}

/// A table's bytes from a frozen memtable: families in id order, each already sorted, with the
/// family's id in front of each key so that the whole is sorted.
pub fn write_sst(mem: &Memtable) -> (r: Vec<u8>)
    ensures
        r@ == writer::table_bytes(table::entries_of(mem@.tables)),
        table::describes(table::entries_of(mem@.tables), mem@.tables),
{
    let mut w = SstWriter::create();
    add_family(&mut w, mem, Cf::Default);
    add_family(&mut w, mem, Cf::Write);
    add_family(&mut w, mem, Cf::Lock);
    proof {
        table::lemma_entries_of(w@, mem@.tables);
    }
    w.finish()
}

/// Whether the entries are those of the families up to and including the `n`-th.
spec fn describes_up_to(es: Seq<Entry>, t: Tables, n: int) -> bool {
    &&& table::sorted(es)
    &&& forall|i: int|
        0 <= i < es.len() ==> {
            let e = #[trigger] es[i];
            &&& e.0.len() > 0
            &&& e.0[0] < n
            &&& Cf::of_u8(e.0[0]) matches Some(cf)
            &&& t.of(cf).contains_key(e.0.skip(1))
            &&& e.1 == keys::tagged(t.of(cf)[e.0.skip(1)])
        }
    &&& forall|cf: Cf, k: Seq<u8>|
        #![trigger t.of(cf).contains_key(k)]
        cf.id_spec() < n && t.of(cf).contains_key(k) ==> exists|i: int|
            0 <= i < es.len() && #[trigger] es[i].0 == reader::storage_key(cf, k)
}

fn add_family(w: &mut SstWriter, mem: &Memtable, cf: Cf)
    requires
        old(w).wf(),
        describes_up_to(old(w)@, mem@.tables, cf.id_spec() as int),
    ensures
        final(w).wf(),
        describes_up_to(final(w)@, mem@.tables, cf.id_spec() + 1),
        cf == Cf::Lock ==> table::describes(final(w)@, mem@.tables),
{
    let all = mem.iter_cf(cf);
    let ghost before = w@;
    let ghost ps = memtable::pair_views(all@);
    let ghost m = mem@.tables.of(cf);
    let mut i: usize = 0;
    while i < all.len()
        invariant
            0 <= i <= all@.len(),
            w.wf(),
            ps == memtable::pair_views(all@),
            w@.len() == before.len() + i,
            forall|j: int| 0 <= j < before.len() ==> #[trigger] w@[j] == before[j],
            forall|j: int|
                before.len() <= j < w@.len() ==> (#[trigger] w@[j]) == (
                    reader::storage_key(cf, ps[j - before.len()].0),
                    keys::tagged(ps[j - before.len()].1),
                ),
        decreases all@.len() - i,
    {
        let sk = reader::make_storage_key(cf, all[i].0.as_slice());
        let v = all[i].1.encode();
        w.add(sk.as_slice(), v.as_slice());
        i = i + 1;
    }
    proof {
        lemma_family_added(before, w@, ps, mem@.tables, cf);
    }
}

proof fn lemma_family_added(
    before: Seq<Entry>,
    es: Seq<Entry>,
    ps: Seq<(Seq<u8>, Option<Seq<u8>>)>,
    t: Tables,
    cf: Cf,
)
    requires
        describes_up_to(before, t, cf.id_spec() as int),
        memtable::lists(ps, t.of(cf)),
        es.len() == before.len() + ps.len(),
        forall|j: int| 0 <= j < before.len() ==> #[trigger] es[j] == before[j],
        forall|j: int|
            before.len() <= j < es.len() ==> (#[trigger] es[j]) == (
                reader::storage_key(cf, ps[j - before.len()].0),
                keys::tagged(ps[j - before.len()].1),
            ),
    ensures
        describes_up_to(es, t, cf.id_spec() + 1),
        cf == Cf::Lock ==> table::describes(es, t),
{
    let n = before.len() as int;
    assert forall|i: int, j: int| 0 <= i < j < es.len() implies bytes::lex_lt(
        #[trigger] es[i].0,
        #[trigger] es[j].0,
    ) by {
        if j < n {
            assert(bytes::lex_lt(before[i].0, before[j].0));
        } else if i < n {
            assert(es[i] == before[i]);
            assert(es[i].0[0] < es[j].0[0]);
        } else {
            let (x, y) = (ps[i - n].0, ps[j - n].0);
            assert(bytes::lex_lt(x, y));
            bytes::lemma_lex_common_prefix(seq![cf.id_spec()], x, y);
        }
    }
    assert forall|i: int| 0 <= i < es.len() implies ({
        let e = #[trigger] es[i];
        &&& e.0.len() > 0
        &&& e.0[0] < cf.id_spec() + 1
        &&& Cf::of_u8(e.0[0]) matches Some(c)
        &&& t.of(c).contains_key(e.0.skip(1))
        &&& e.1 == keys::tagged(t.of(c)[e.0.skip(1)])
    }) by {
        if i < n {
            assert(es[i] == before[i]);
        } else {
            let p = ps[i - n];
            assert(reader::storage_key(cf, p.0).skip(1) =~= p.0);
            keys::law_cf_roundtrip(cf);
            assert(t.of(cf).contains_key(p.0));
        }
    }
    assert forall|c: Cf, k: Seq<u8>|
        #![trigger t.of(c).contains_key(k)]
        c.id_spec() < cf.id_spec() + 1 && t.of(c).contains_key(k) implies exists|i: int|
        0 <= i < es.len() && #[trigger] es[i].0 == reader::storage_key(c, k) by {
        if c.id_spec() < cf.id_spec() {
            let i = choose|i: int|
                0 <= i < before.len() && #[trigger] before[i].0 == reader::storage_key(c, k);
            assert(es[i].0 == reader::storage_key(c, k));
        } else {
            assert(c == cf);
            let i = choose|i: int| 0 <= i < ps.len() && #[trigger] ps[i].0 == k;
            assert(es[n + i].0 == reader::storage_key(c, k));
        }
    }
    if cf == Cf::Lock {
        reveal(table::describes);
        assert forall|c: Cf, k: Seq<u8>|
            #![trigger t.of(c).contains_key(k)]
            t.of(c).contains_key(k) implies exists|i: int|
            0 <= i < es.len() && #[trigger] es[i].0 == reader::storage_key(c, k) by {
            assert(c.id_spec() < 3);
        }
    }
}

impl Engine {
    /// An engine in the given state, with nothing frozen.
    pub fn assemble(
        opts: Options,
        active: Memtable,
        tables: Vec<SstReader>,
        seq: u64,
        last_flushed: u64,
        segment: u64,
        next_sst: u64,
        effects: Vec<Effect>,
    ) -> (e: Engine)
        ensures
            e@.opts == opts,
            e@.active == active@,
            e@.immutable == Seq::<MemtableView>::empty(),
            e@.tables == Seq::new(tables@.len(), |i: int| tables@[i]@),
            e@.seq == seq,
            e@.last_flushed == last_flushed,
            e@.next_seg == succ(segment),
            e@.next_sst == next_sst,
            e@.segment == segment,
            e@.effects == effect_views(effects@),
    {
        let e = Engine {
            opts,
            active,
            immutable: Vec::new(),
            tables,
            seq,
            last_flushed,
            next_seg: segment.wrapping_add(1),
            next_sst,
            segment,
            effects,
        };
        assert(e@.immutable =~= Seq::<MemtableView>::empty());
        assert(e@.tables =~= Seq::new(tables@.len(), |i: int| tables@[i]@));
        e
    }

    fn get_cf(&self, cf: Cf, key: &[u8]) -> (r: Result<Option<Vec<u8>>>)
        ensures
            value_result(r) == self@.get(cf, key@),
    {
        match self.active.get_cf(cf, key) {
            Some(v) => {
                return Ok(v.into_present());
            },
            None => {},
        }
        let mut i: usize = self.immutable.len();
        assert(self@.immutable.take(i as int) =~= self@.immutable);
        while i > 0
            invariant
                0 <= i <= self.immutable@.len(),
                table::entry_of(self@.active.tables.of(cf), key@) is None,
                mems_get(self@.immutable, cf, key@) == mems_get(
                    self@.immutable.take(i as int),
                    cf,
                    key@,
                ),
            decreases i,
        {
            let ghost t = self@.immutable.take(i as int);
            i = i - 1;
            assert(t.last() == self.immutable@[i as int]@);
            assert(t.drop_last() =~= self@.immutable.take(i as int));
            match self.immutable[i].get_cf(cf, key) {
                Some(v) => {
                    return Ok(v.into_present());
                },
                None => {},
            }
        }
        let mut j: usize = self.tables.len();
        assert(self@.tables.take(j as int) =~= self@.tables);
        while j > 0
            invariant
                0 <= j <= self.tables@.len(),
                self@.get(cf, key@) == tables_get(self@.tables.take(j as int), cf, key@),
            decreases j,
        {
            let ghost t = self@.tables.take(j as int);
            j = j - 1;
            assert(t.last() == self.tables@[j as int]@);
            assert(t.drop_last() =~= self@.tables.take(j as int));
            match self.tables[j].get(cf, key) {
                Ok(Some(v)) => {
                    return Ok(v.into_present());
                },
                Ok(None) => {},
                Err(e) => {
                    return Err(e);
                },
            }
        }
        Ok(None)
    }

    /// Merged forward seek across all levels: the smallest key of the family at or behind `from`,
    /// with the newest level winning ties.
    fn seek_cf(&self, cf: Cf, from: &[u8]) -> (r: Result<Option<(Vec<u8>, MemValue)>>)
        ensures
            found_result(r) == self@.seek(cf, from@),
    {
        let mut best = self.active.seek_cf(cf, from);
        let ghost first = found_view(best);
        let mut i: usize = self.immutable.len();
        assert(self@.immutable.take(i as int) =~= self@.immutable);
        while i > 0
            invariant
                0 <= i <= self.immutable@.len(),
                newer_wins(
                    found_view(best),
                    mems_seek(self@.immutable.take(i as int), cf, from@),
                ) == newer_wins(first, mems_seek(self@.immutable, cf, from@)),
            decreases i,
        {
            let ghost t = self@.immutable.take(i as int);
            let ghost had = found_view(best);
            i = i - 1;
            proof {
                assert(t.last() == self.immutable@[i as int]@);
                assert(t.drop_last() =~= self@.immutable.take(i as int));
                lemma_newer_wins_assoc(
                    had,
                    memtable::seek_in(t.last().tables.of(cf), from@),
                    mems_seek(t.drop_last(), cf, from@),
                );
            }
            let next = self.immutable[i].seek_cf(cf, from);
            best = pick(best, next);
        }
        let ghost mems = newer_wins(first, mems_seek(self@.immutable, cf, from@));
        let mut j: usize = self.tables.len();
        assert(self@.tables.take(j as int) =~= self@.tables);
        assert(found_view(best) == mems);
        while j > 0
            invariant
                0 <= j <= self.tables@.len(),
                match tables_seek(self@.tables, cf, from@) {
                    Err(e) => tables_seek(self@.tables.take(j as int), cf, from@) == Err::<
                        Found,
                        ErrorView,
                    >(e),
                    Ok(all) => tables_seek(self@.tables.take(j as int), cf, from@) matches Ok(
                        rest,
                    ) && newer_wins(found_view(best), rest) == newer_wins(mems, all),
                },
            decreases j,
        {
            let ghost t = self@.tables.take(j as int);
            let ghost had = found_view(best);
            j = j - 1;
            proof {
                assert(t.last() == self.tables@[j as int]@);
                assert(t.drop_last() =~= self@.tables.take(j as int));
            }
            match self.tables[j].seek(cf, from) {
                Ok(next) => {
                    proof {
                        match tables_seek(t.drop_last(), cf, from@) {
                            Ok(rest) => {
                                lemma_newer_wins_assoc(had, found_view(next), rest);
                            },
                            Err(_) => {},
                        }
                    }
                    best = pick(best, next);
                },
                Err(e) => {
                    return Err(e);
                },
            }
        }
        proof {
            match tables_seek(self@.tables, cf, from@) {
                Ok(all) => {
                    lemma_newer_wins_assoc(first, mems_seek(self@.immutable, cf, from@), all);
                },
                Err(_) => {},
            }
        }
        Ok(best)
    }

    /// The current lock on `key`, if any.
    pub fn current_lock(&self, key: &[u8]) -> (r: Result<Option<Lock>>)
        ensures
            match r {
                Ok(Some(l)) => self@.lock_on(key@) == Ok::<Option<LockView>, ErrorView>(Some(l@)),
                Ok(None) => self@.lock_on(key@) == Ok::<Option<LockView>, ErrorView>(None),
                Err(e) => self@.lock_on(key@) == Err::<Option<LockView>, ErrorView>(e@),
            },
    {
        match self.get_cf(Cf::Lock, key) {
            Ok(Some(b)) => match Lock::decode(b.as_slice()) {
                Some(l) => Ok(Some(l)),
                None => Err(Error::corruption("lock decode")),
            },
            Ok(None) => Ok(None),
            Err(e) => Err(e),
        }
    }

    /// The newest version of `key` at or behind `from` in the Write family. Storage keys hold no
    /// mark between the user key and the timestamp, so versions of a longer or a shorter user key
    /// can stand among those of `key`: they are passed over.
    pub(crate) fn version_from(&self, key: &[u8], start: Vec<u8>, strict: bool) -> (r: Result<
        Option<(u64, MemValue)>,
    >)
        requires
            self@.finite(),
        ensures
            version_result(r) == self@.version_from(key@, start@, strict),
    {
        let last = keys::encode_data_key(key, 0);
        let mut from = start;
        loop
            invariant
                self@.finite(),
                last@ == keys::data_key(key@, 0),
                self@.version_from(key@, start@, strict) == self@.version_from(
                    key@,
                    from@,
                    strict,
                ),
            decreases finite::keys_behind(self@, Cf::Write, from@).len(),
        {
            proof {
                finite::lemma_seek_advances(self@, Cf::Write, from@);
            }
            let (wkey, wval) = match self.seek_cf(Cf::Write, from.as_slice()) {
                Ok(Some(f)) => f,
                Ok(None) => {
                    return Ok(None);
                },
                Err(e) => {
                    return Err(e);
                },
            };
            match keys::decode_data_key(wkey.as_slice()) {
                Some((wuser, commit_ts)) => {
                    if bytes::bytes_eq(wuser, key) {
                        return Ok(Some((commit_ts, wval)));
                    }
                },
                None => {
                    if strict {
                        return Err(Error::corruption("write-cf key decode"));
                    }
                },
            }
            if bytes::bytes_lt(last.as_slice(), wkey.as_slice()) {
                return Ok(None);
            }
            from = wkey;
            from.push(0);
        }
    }

    /// Percolator prewrite conflict checks against the live state (all levels): abort if a commit
    /// newer than the snapshot exists, or any lock is present.
    pub fn check_prewrite(&self, key: &[u8], start_ts: u64) -> (r: Result<()>)
        requires
            self@.finite(),
        ensures
            result_view(r) == self@.prewrite_check(key@, start_ts),
    {
        proof {
            reveal(EngineView::prewrite_check);
        }
        match self.version_from(key, keys::encode_data_key(key, u64::MAX), false) {
            Ok(Some((commit_ts, _))) => {
                if commit_ts >= start_ts {
                    return Err(Error::conflict("write conflict: a newer commit exists"));
                }
            },
            Ok(None) => {},
            Err(e) => {
                return Err(e);
            },
        }
        match self.get_cf(Cf::Lock, key) {
            Ok(Some(_)) => Err(Error::conflict("key is already locked by another transaction")),
            Ok(None) => Ok(()),
            Err(e) => Err(e),
        }
    }

    /// What to do about a request in the current state.
    pub fn decide(&self, op: &Op) -> (d: Decision)
        requires
            self@.finite(),
        ensures
            d@ == self@.decide(op@),
    {
        match op {
            Op::Write(b) => Decision::Apply(b.dup()),
            Op::Prewrite(spec) => match self.check_prewrite(spec.key.as_slice(), spec.start_ts) {
                Ok(()) => Decision::Apply(build_prewrite_batch(spec)),
                Err(e) => Decision::Done(Err(e)),
            },
            Op::Resolve(spec) => match self.current_lock(spec.key.as_slice()) {
                Ok(Some(lock)) => if lock.start_ts == spec.start_ts {
                    Decision::Apply(build_resolve_batch(spec))
                } else {
                    Decision::Done(Ok(0))
                },
                Ok(None) => Decision::Done(Ok(0)),
                Err(e) => Decision::Done(Err(e)),
            },
        }
    }

    /// Take the next sequence number for `batch` and frame its log record.
    pub fn log(&mut self, batch: &WriteBatch) -> (r: (u64, Vec<u8>))
        ensures
            final(self)@ == old(self)@.numbered(),
            r.0 == final(self)@.seq,
            r.1@ == wal::frame((r.0, batch::batch_bytes(batch@))),
    {
        let ghost before = self@;
        self.seq = self.seq.wrapping_add(1);
        let frame = wal::encode_record(self.seq, batch.encode().as_slice());
        assert(self@ =~= before.numbered());
        (self.seq, frame)
    }

    /// Apply `batch`, whose record has the last sequence number, once the outcome of its append
    /// is known; the answer for its writer.
    pub fn appended(&mut self, batch: &WriteBatch, frame: Vec<u8>, outcome: &Option<String>) -> (r:
        Result<u64>)
        requires
            frame@ == wal::frame((old(self)@.seq, batch::batch_bytes(batch@))),
        ensures
            match text::opt_text(*outcome) {
                None => final(self)@ == old(self)@.logged(batch@) && result_view(r) == Ok::<
                    u64,
                    ErrorView,
                >(old(self)@.seq),
                Some(m) => final(self)@ == old(self)@ && result_view(r) == Err::<u64, ErrorView>(
                    ErrorView::Io(m),
                ),
            },
    {
        match outcome {
            None => {
                let ghost before = self@;
                self.active.apply(self.seq, batch);
                self.push_effect(Effect::Append(self.segment, frame));
                assert(self@ =~= before.logged(batch@));
                Ok(self.seq)
            },
            Some(m) => Err(Error::Io(m.clone())),
        }
    }

    fn push_effect(&mut self, e: Effect)
        ensures
            final(self)@ == (EngineView { effects: old(self)@.effects.push(e@), ..old(self)@ }),
    {
        let ghost before = self@;
        self.effects.push(e);
        assert(self@.effects =~= before.effects.push(e@));
    }

    /// Note that the log was flushed.
    pub fn note_synced(&mut self)
        ensures
            final(self)@ == old(self)@.synced(),
    {
        self.push_effect(Effect::Sync(self.segment));
    }

    /// Freeze the active memtable if it is full: a fresh one takes its place. Returns the number
    /// of the log segment to create.
    pub fn freeze(&mut self) -> (r: Option<u64>)
        ensures
            match r {
                Some(n) => old(self)@.full() && n == old(self)@.next_seg && final(self)@ == old(
                    self,
                )@.frozen(),
                None => !old(self)@.full() && final(self)@ == old(self)@,
            },
    {
        if self.active.approx_size() < self.opts.memtable_size_threshold {
            return None;
        }
        let ghost before = self@;
        let mut m = Memtable::new();
        core::mem::swap(&mut m, &mut self.active);
        self.immutable.push(m);
        let n: u64 = self.next_seg;
        self.next_seg = n.wrapping_add(1);
        assert(self@.immutable =~= before.immutable.push(before.active));
        Some(n)
    }

    /// Move the log to the segment `n` that was created.
    pub fn rotate(&mut self, n: u64)
        ensures
            final(self)@ == old(self)@.rotated(n),
    {
        self.segment = n;
        self.push_effect(Effect::CreateSegment(n));
    }

    /// Begin the flush of the oldest frozen memtable: the table's number and bytes, or `None`
    /// where it holds nothing.
    pub fn flush_begin(&mut self) -> (r: Option<(u64, Vec<u8>)>)
        requires
            old(self)@.immutable.len() > 0,
        ensures
            match r {
                Some((n, data)) => old(self)@.immutable[0].size > 0 && n == old(self)@.next_sst
                    && data@ == old(self)@.table_image() && final(self)@ == old(
                    self,
                )@.table_numbered(),
                None => old(self)@.immutable[0].size == 0 && final(self)@ == old(self)@,
            },
    {
        assert(self@.immutable[0] == self.immutable@[0]@);
        if self.immutable[0].is_empty() {
            return None;
        }
        let data = write_sst(&self.immutable[0]);
        let n: u64 = self.next_sst;
        self.next_sst = n.wrapping_add(1);
        Some((n, data))
    }

    /// Make the table `n` live once its file is written.
    pub fn flush_install(&mut self, n: u64, data: Vec<u8>, outcome: &Option<String>) -> (r: Result<
        (),
    >)
        ensures
            match text::opt_text(*outcome) {
                Some(m) => final(self)@ == old(self)@ && result_view(r) == Err::<(), ErrorView>(
                    ErrorView::Io(m),
                ),
                None => match reader::table_of(data@, n) {
                    Err(e) => final(self)@ == old(self)@.table_written(n, data@) && result_view(r)
                        == Err::<(), ErrorView>(e),
                    Ok(t) => final(self)@ == old(self)@.table_written(n, data@).installed(t)
                        && result_view(r) == Ok::<(), ErrorView>(()),
                },
            },
    {
        match outcome {
            Some(m) => {
                return Err(Error::Io(m.clone()));
            },
            None => {},
        }
        let ghost before = self@;
        self.push_effect(Effect::WriteTable(n, bytes::copy(data.as_slice())));
        match SstReader::open(data, n) {
            Ok(t) => {
                self.tables.push(t);
                assert(self@.tables =~= before.tables.push(t@));
                Ok(())
            },
            Err(e) => Err(e),
        }
    }

    /// Count the oldest frozen memtable as flushed; the manifest to store.
    pub fn flush_advance(&mut self) -> (m: Manifest)
        requires
            old(self)@.immutable.len() > 0,
        ensures
            final(self)@ == old(self)@.advanced(),
            m@ == final(self)@.manifest(),
    {
        assert(self@.immutable[0] == self.immutable@[0]@);
        let s: u64 = self.immutable[0].max_seq();
        if !(self.last_flushed > s) {
            self.last_flushed = s;
        }
        self.manifest()
    }

    /// The manifest of the current state.
    pub fn manifest(&self) -> (m: Manifest)
        ensures
            m@ == self@.manifest(),
    {
        let mut sstables: Vec<u64> = Vec::new();
        let mut i: usize = 0;
        while i < self.tables.len()
            invariant
                0 <= i <= self.tables@.len(),
                sstables@.len() == i,
                forall|j: int| 0 <= j < i ==> #[trigger] sstables@[j] == self.tables@[j]@.file_no,
            decreases self.tables@.len() - i,
        {
            sstables.push(self.tables[i].file_no());
            i = i + 1;
        }
        let m = Manifest { last_flushed_seq: self.last_flushed, sstables };
        assert(m@.sstables =~= self@.manifest().sstables);
        m
    }

    /// Forget the oldest frozen memtable once the manifest is stored.
    pub fn flush_finish(&mut self, outcome: &Option<String>) -> (r: Result<()>)
        requires
            old(self)@.immutable.len() > 0,
        ensures
            match text::opt_text(*outcome) {
                Some(m) => final(self)@ == old(self)@ && result_view(r) == Err::<(), ErrorView>(
                    ErrorView::Io(m),
                ),
                None => final(self)@ == old(self)@.forgotten() && result_view(r) == Ok::<
                    (),
                    ErrorView,
                >(()),
            },
    {
        match outcome {
            Some(m) => Err(Error::Io(m.clone())),
            None => {
                let ghost before = self@;
                let image = self.manifest().encode();
                self.push_effect(Effect::StoreManifest(image));
                let _ = self.immutable.remove(0);
                assert(self@.immutable =~= before.immutable.skip(1));
                Ok(())
            },
        }
    }

    /// Flush the oldest frozen memtable to a table, install its reader, advance the watermark,
    /// replace the manifest, then drop the memtable. Order matters: the table is readable
    /// *before* the memtable is forgotten.
    pub fn flush_memtable(&mut self, io: &GroupIo) -> (r: Result<()>)
        requires
            old(self)@.immutable.len() > 0,
        ensures
            final(self)@ == old(self)@.flushed(io@).0,
            result_view(r) == old(self)@.flushed(io@).1,
    {
        match self.flush_begin() {
            Some((n, data)) => match self.flush_install(n, data, &io.table) {
                Ok(()) => {},
                Err(e) => {
                    return Err(e);
                },
            },
            None => {},
        }
        let _ = self.flush_advance();
        self.flush_finish(&io.manifest)
    }

    /// Process a group: per request, append to the log and apply to the memtable; one flush for
    /// the whole group; then, if full, freeze and flush the memtable. Gives a result per request
    /// (a conflicting prewrite yields a conflict and writes nothing).
    ///
    /// Requests are applied to the memtable *before* the group's flush so that a later one in the
    /// same group sees an earlier one (two prewrites of the same key conflict). Nothing is
    /// answered until the flush, and a crash before it drops the whole group.
    ///
    /// `io` says how the file operations went. A failed flush of a frozen memtable is not
    /// reported: the memtable stays readable.
    pub fn process_group(&mut self, group: &Vec<Op>, io: &GroupIo) -> (r: Vec<Result<u64>>)
        requires
            old(self)@.finite(),
        ensures
            final(self)@ == old(self)@.process(request_views(group@), io@).0,
            result_views(r@) == old(self)@.process(request_views(group@), io@).1,
            final(self)@.finite(),
    {
        let mut results: Vec<Result<u64>> = Vec::new();
        let mut any: bool = false;
        let ghost start = self@;
        let ghost reqs = request_views(group@);
        let mut i: usize = 0;
        assert(reqs.take(0) =~= Seq::<RequestView>::empty());
        assert(result_views(results@) =~= Seq::<core::result::Result<u64, ErrorView>>::empty());
        while i < group.len()
            invariant
                0 <= i <= group@.len(),
                reqs == request_views(group@),
                start == old(self)@,
                start.finite(),
                self@ == start.run_all(reqs.take(i as int), io@).engine,
                result_views(results@) == start.run_all(reqs.take(i as int), io@).results,
                any == start.run_all(reqs.take(i as int), io@).appended,
            decreases group@.len() - i,
        {
            let ghost had = result_views(results@);
            proof {
                assert(reqs.take(i + 1).drop_last() =~= reqs.take(i as int));
                assert(reqs.take(i + 1).last() == group@[i as int]@);
                finite::lemma_run_finite(start, reqs.take(i as int), io@);
            }
            match self.decide(&group[i]) {
                Decision::Done(r) => {
                    results.push(r);
                },
                Decision::Apply(batch) => {
                    let (seq, frame) = self.log(&batch);
                    let outcome: Option<String> = if i < io.append.len() {
                        dup_outcome(&io.append[i])
                    } else {
                        None
                    };
                    assert(text::opt_text(outcome) == io@.append_at(i as int));
                    let r = self.appended(&batch, frame, &outcome);
                    if outcome.is_none() {
                        any = true;
                    }
                    results.push(r);
                },
            }
            assert(result_views(results@) =~= had.push(result_view(results@.last())));
            i = i + 1;
        }
        assert(reqs.take(i as int) =~= reqs);
        proof {
            finite::lemma_process_finite(start, reqs, io@);
        }
        if any {
            match &io.sync {
                Some(m) => {
                    fail_unsynced(&mut results, m.as_str());
                    return results;
                },
                None => {
                    self.note_synced();
                },
            }
        }
        match self.freeze() {
            Some(n) => {
                if io.segment.is_none() {
                    self.rotate(n);
                }
                let _ = self.flush_memtable(io);
            },
            None => {},
        }
        results
    }

    /// One request in a group of its own, with every file operation succeeding; what it changes
    /// on disk is among the effects.
    pub fn submit(&mut self, op: Op) -> (r: Result<u64>)
        requires
            old(self)@.finite(),
        ensures
            final(self)@.finite(),
            final(self)@ == old(self)@.submit(op@).0,
            result_view(r) == old(self)@.submit(op@).1,
    {
        let mut group: Vec<Op> = Vec::new();
        group.push(op);
        assert(request_views(group@) =~= seq![op@]);
        let ghost (e, rs) = self@.process(seq![op@], GroupIoView::clean());
        proof {
            reveal(EngineView::submit);
            lemma_process_len(self@, seq![op@], GroupIoView::clean());
        }
        let mut results = self.process_group(&group, &GroupIo::clean());
        assert(result_views(results@)[0] == rs[0]);
        results.swap_remove(0)
    }

    /// Durably apply an atomic batch; returns the assigned log sequence number.
    pub fn write(&mut self, batch: WriteBatch) -> (r: Result<u64>)
        requires
            old(self)@.finite(),
        ensures
            final(self)@.finite(),
            batch@.len() == 0 ==> final(self)@ == old(self)@ && result_view(r) == Ok::<
                u64,
                ErrorView,
            >(old(self)@.seq),
            batch@.len() > 0 ==> final(self)@ == old(self)@.submit(RequestView::Write(batch@)).0
                && result_view(r) == old(self)@.submit(RequestView::Write(batch@)).1,
    {
        if batch.is_empty() {
            return Ok(self.seq);
        }
        self.submit(Op::Write(batch))
    }

    /// Percolator prewrite of a single key: atomically check for conflicts, then write the
    /// Default value and the Lock. A conflict where another commit newer than `start_ts` exists
    /// or the key is already locked.
    pub fn prewrite_one(
        &mut self,
        key: &[u8],
        value: &Value,
        primary: &[u8],
        start_ts: u64,
        ttl: u64,
    ) -> (r: Result<u64>)
        requires
            old(self)@.finite(),
        ensures
            final(self)@.finite(),
            final(self)@ == old(self)@.submit(
                prewrite_request(key@, value@, primary@, start_ts, ttl),
            ).0,
            result_view(r) == old(self)@.submit(
                prewrite_request(key@, value@, primary@, start_ts, ttl),
            ).1,
    {
        let op = prewrite_op(key, value, primary, start_ts, ttl);
        self.submit(op)
    }

    /// Complete a transaction's commit on `key` (write the Write record and drop the lock), but
    /// only if `key`'s lock still belongs to `start_ts`.
    pub fn resolve_commit(&mut self, key: &[u8], start_ts: u64, commit_ts: u64) -> (r: Result<()>)
        requires
            old(self)@.finite(),
        ensures
            final(self)@.finite(),
            final(self)@ == old(self)@.resolve(
                key@,
                start_ts,
                ResolveAction::Commit(commit_ts),
            ).0,
            result_view(r) == old(self)@.resolve(
                key@,
                start_ts,
                ResolveAction::Commit(commit_ts),
            ).1,
    {
        let spec = ResolveSpec {
            key: bytes::copy(key),
            start_ts,
            action: ResolveAction::Commit(commit_ts),
        };
        match self.submit(Op::Resolve(spec)) {
            Ok(_) => Ok(()),
            Err(e) => Err(e),
        }
    }

    /// Roll `key` back (drop the lock and the uncommitted Default value), only if its lock still
    /// belongs to `start_ts`.
    pub fn resolve_rollback(&mut self, key: &[u8], start_ts: u64) -> (r: Result<()>)
        requires
            old(self)@.finite(),
        ensures
            final(self)@.finite(),
            final(self)@ == old(self)@.resolve(key@, start_ts, ResolveAction::Rollback).0,
            result_view(r) == old(self)@.resolve(key@, start_ts, ResolveAction::Rollback).1,
    {
        let spec = ResolveSpec {
            key: bytes::copy(key),
            start_ts,
            action: ResolveAction::Rollback,
        };
        match self.submit(Op::Resolve(spec)) {
            Ok(_) => Ok(()),
            Err(e) => Err(e),
        }
    }

    /// Raw point read of a family's key across the memtables and all tables.
    pub fn get_cf_raw(&self, cf: Cf, key: &[u8]) -> (r: Result<Option<Vec<u8>>>)
        ensures
            value_result(r) == self@.get(cf, key@),
    {
        self.get_cf(cf, key)
    }

    /// Merged forward seek: the smallest key of the family at or behind `from` across all levels,
    /// newest level winning ties.
    pub fn seek_cf_raw(&self, cf: Cf, from: &[u8]) -> (r: Result<Option<(Vec<u8>, MemValue)>>)
        ensures
            found_result(r) == self@.seek(cf, from@),
    {
        self.seek_cf(cf, from)
    }

    /// The settings.
    pub fn options(&self) -> (o: &Options)
        ensures
            *o == self@.opts,
    {
        &self.opts
    }

    /// The most recently assigned log sequence number.
    pub fn last_seq(&self) -> (n: u64)
        ensures
            n == self@.seq,
    {
        self.seq
    }

    /// Highest sequence number durably captured in a table.
    pub fn last_flushed_seq(&self) -> (n: u64)
        ensures
            n == self@.last_flushed,
    {
        self.last_flushed
    }

    /// Number of live tables.
    pub fn sstable_count(&self) -> (n: usize)
        ensures
            n == self@.tables.len(),
    {
        self.tables.len()
    }

    /// The log segment that takes new records.
    pub fn segment(&self) -> (n: u64)
        ensures
            n == self@.segment,
    {
        self.segment
    }

    /// Hand out the changes on disk since the last call, oldest first.
    pub fn take_effects(&mut self) -> (r: Vec<Effect>)
        ensures
            effect_views(r@) == old(self)@.effects,
            final(self)@ == (EngineView { effects: Seq::empty(), ..old(self)@ }),
    {
        let mut out: Vec<Effect> = Vec::new();
        core::mem::swap(&mut out, &mut self.effects);
        assert(self@.effects =~= Seq::<EffectView>::empty());
        out
    }
}

impl EngineView {
    /// A lock resolution.
    pub open spec fn resolve(self, key: Seq<u8>, start_ts: u64, action: ResolveAction) -> (
        EngineView,
        ReadResult<()>,
    ) {
        let (e, r) = self.submit(RequestView::Resolve { key, start_ts, action });
        (
            e,
            match r {
                Ok(_) => Ok(()),
                Err(x) => Err(x),
            },
        )
    }
}

/// The prewrite request of one mutation.
pub open spec fn prewrite_request(
    key: Seq<u8>,
    value: Option<Seq<u8>>,
    primary: Seq<u8>,
    start_ts: u64,
    ttl: u64,
) -> RequestView {
    RequestView::Prewrite(
        PrewriteView {
            key,
            value: keys::tagged(value),
            primary,
            start_ts,
            ttl,
            kind: if value is Some {
                LockKind::Put
            } else {
                LockKind::Delete
            },
        },
    )
}

/// The prewrite request of one mutation.
pub fn prewrite_op(key: &[u8], value: &Value, primary: &[u8], start_ts: u64, ttl: u64) -> (op: Op)
    ensures
        op@ == prewrite_request(key@, value@, primary@, start_ts, ttl),
{
    let kind = match value {
        Value::Put(_) => LockKind::Put,
        Value::Delete => LockKind::Delete,
    };
    Op::Prewrite(
        PrewriteSpec {
            key: bytes::copy(key),
            value: value.encode(),
            primary: bytes::copy(primary),
            start_ts,
            ttl,
            kind,
        },
    )
}

/// The views of a group's requests.
pub open spec fn request_views(s: Seq<Op>) -> Seq<RequestView> {
    Seq::new(s.len(), |i: int| s[i]@)
}

/// The views of a group's answers.
pub open spec fn result_views(s: Seq<Result<u64>>) -> Seq<core::result::Result<u64, ErrorView>> {
    Seq::new(s.len(), |i: int| result_view(s[i]))
}

proof fn lemma_process_len(e: EngineView, reqs: Seq<RequestView>, io: GroupIoView)
    ensures
        e.run_all(reqs, io).results.len() == reqs.len(),
        e.process(reqs, io).1.len() == reqs.len(),
    decreases reqs.len(),
{
    if reqs.len() > 0 {
        lemma_process_len(e, reqs.drop_last(), io);
    }
}

fn dup_outcome(o: &Option<String>) -> (r: Option<String>)
    ensures
        text::opt_text(r) == text::opt_text(*o),
{
    match o {
        Some(s) => Some(s.clone()),
        None => None,
    }
}

/// A failed flush of the log invalidates every success of its group.
pub fn fail_unsynced(results: &mut Vec<Result<u64>>, msg: &str)
    ensures
        result_views(final(results)@) == failed_sync(result_views(old(results)@), msg@),
{
    let mut full: String = text::owned("group fsync failed: ");
    let shown = Error::Io(text::owned(msg)).message();
    full.push_str(shown.as_str());
    let ghost before = results@;
    let mut i: usize = 0;
    while i < results.len()
        invariant
            0 <= i <= results@.len(),
            results@.len() == before.len(),
            full@ == "group fsync failed: "@ + ErrorView::Io(msg@).message(),
            forall|j: int|
                0 <= j < i ==> result_view(#[trigger] results@[j]) == failed_sync(
                    result_views(before),
                    msg@,
                )[j],
            forall|j: int| i <= j < before.len() ==> #[trigger] results@[j] == before[j],
        decreases results@.len() - i,
    {
        if results[i].is_ok() {
            results.set(i, Err(Error::corruption(full.as_str())));
        }
        i = i + 1;
    }
    assert(result_views(results@) =~= failed_sync(result_views(before), msg@));
}

} // verus!
