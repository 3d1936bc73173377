//! Raft persistent state, behind a trait.
//!
//! The core writes its crash-critical state (term, vote and the log) through [`Storage`]. Safety
//! requires this to be durable *before* a node acts on it, so a real implementation flushes in
//! these methods; the core just calls them in the right order. [`MemStorage`] is the in-memory
//! one.

use vstd::prelude::*;
use crate::bytes;
use crate::raft::message;
use crate::raft::message::{Entry, EntryView, HardState};

verus! {

/// A point-in-time snapshot: the state machine's committed state through `last_included_index`
/// (opaque `data`), the group's membership as of that index, and the log position it covers. Once
/// taken, the log keeps only entries **above** the snapshot.
#[derive(Clone, Debug, Default, PartialEq, Eq)]
pub struct Snapshot {
    pub last_included_index: u64,
    pub last_included_term: u64,
    pub conf_state: Vec<u64>,
    pub learners: Vec<u64>,
    pub data: Vec<u8>,
}

/// A [`Snapshot`] as values.
#[verifier::ext_equal]
pub struct SnapshotView {
    pub last_included_index: u64,
    pub last_included_term: u64,
    pub conf_state: Seq<u64>,
    pub learners: Seq<u64>,
    pub data: Seq<u8>,
}

impl View for Snapshot {
    type V = SnapshotView;

    open spec fn view(&self) -> SnapshotView {
        SnapshotView {
            last_included_index: self.last_included_index,
            last_included_term: self.last_included_term,
            conf_state: self.conf_state@,
            learners: self.learners@,
            data: self.data@,
        }
    }
}

impl Snapshot {
    /// A copy of the snapshot.
    pub fn dup(&self) -> (s: Snapshot)
        ensures
            s@ == self@,
    {
        Snapshot {
            last_included_index: self.last_included_index,
            last_included_term: self.last_included_term,
            conf_state: self.conf_state.clone(),
            learners: self.learners.clone(),
            data: bytes::copy(self.data.as_slice()),
        }
    }
}

/// An optional snapshot as values.
pub open spec fn opt_snapshot(s: Option<Snapshot>) -> Option<SnapshotView> {
    match s {
        Some(x) => Some(x@),
        None => None,
    }
}

/// What a store holds.
#[verifier::ext_equal]
pub struct StorageView {
    pub hard: HardState,
    /// The entries above the snapshot.
    pub log: Seq<EntryView>,
    pub snap: Option<SnapshotView>,
}

impl StorageView {
    /// Nothing yet.
    pub open spec fn fresh() -> StorageView {
        StorageView {
            hard: HardState { current_term: 0, voted_for: None },
            log: Seq::empty(),
            snap: None,
        }
    }

    /// The snapshot's index, or 0: the log's offset.
    pub open spec fn base(self) -> u64 {
        match self.snap {
            Some(s) => s.last_included_index,
            None => 0,
        }
    }

    /// The log is contiguous above the snapshot, with room for the next index.
    pub open spec fn wf(self) -> bool {
        message::contiguous(self.base(), self.log)
    }

    /// Index of the last log entry, or the snapshot's.
    pub open spec fn last_index(self) -> u64 {
        (self.base() + self.log.len()) as u64
    }

    /// The first index that the log could still hold.
    pub open spec fn first_index(self) -> u64 {
        (self.base() + 1) as u64
    }

    /// The term at an index: 0 at 0, the snapshot's at its index, the entry's in the log, and
    /// none anywhere else.
    pub open spec fn term(self, index: u64) -> Option<u64> {
        if index == 0 {
            Some(0)
        } else if index == self.base() {
            Some(self.snap.unwrap().last_included_term)
        } else if index < self.base() || index > self.last_index() {
            None
        } else {
            Some(self.log[index - self.base() - 1].term)
        }
    }

    /// The entries from `low` to `high`, both included, as far as the log holds them.
    pub open spec fn entries(self, low: u64, high: u64) -> Seq<EntryView> {
        let base = self.base();
        let lo = if low <= base {
            0
        } else {
            low - base - 1
        };
        let hi = if high > self.last_index() {
            self.log.len() as int
        } else {
            high - base
        };
        if lo >= hi {
            Seq::empty()
        } else {
            self.log.subrange(lo, hi)
        }
    }

    /// The store with more entries.
    pub open spec fn append(self, es: Seq<EntryView>) -> StorageView {
        StorageView { log: self.log + es, ..self }
    }

    /// The store without the entries from `from` on.
    pub open spec fn truncate(self, from: u64) -> StorageView {
        if from <= self.base() + 1 {
            StorageView { log: Seq::empty(), ..self }
        } else if from > self.last_index() {
            self
        } else {
            StorageView { log: self.log.take(from - self.base() - 1), ..self }
        }
    }

    /// The store with the log up to `index` replaced by a snapshot.
    pub open spec fn compact(self, snap: SnapshotView) -> StorageView {
        let index = snap.last_included_index;
        if index <= self.base() {
            self
        } else {
            let n = index - self.base();
            StorageView {
                log: if n >= self.log.len() {
                    Seq::empty()
                } else {
                    self.log.skip(n)
                },
                snap: Some(snap),
                ..self
            }
        }
    }

    /// The store with everything but the hard state replaced by a snapshot.
    pub open spec fn install(self, snap: SnapshotView) -> StorageView {
        StorageView { log: Seq::empty(), snap: Some(snap), ..self }
    }
}

/// Durable Raft state. The log is contiguous and starts at [`Storage::first_index`]: 1 for an
/// uncompacted log, or the snapshot's index plus one. Indices are absolute; entries below
/// `first_index` are inside the snapshot.
pub trait Storage: Sized {
    /// What the store holds.
    spec fn model(&self) -> StorageView;

    /// The last persisted term and vote. `(0, None)` for a fresh node.
    fn hard_state(&self) -> (h: HardState)
        ensures
            h == self.model().hard,
    ;

    /// Durably record term and vote. Must not return until it is crash-safe.
    fn save_hard_state(&mut self, hs: HardState)
        ensures
            final(self).model() == (StorageView { hard: hs, ..old(self).model() }),
    ;

    /// Index of the last log entry, or the snapshot's index (0 if neither exists).
    fn last_index(&self) -> (i: u64)
        requires
            self.model().wf(),
        ensures
            i == self.model().last_index(),
    ;

    /// Term of the entry at `index`. Index 0 has term 0; the snapshot boundary has its term; an
    /// index compacted away or past the end has none.
    fn term(&self, index: u64) -> (t: Option<u64>)
        requires
            self.model().wf(),
        ensures
            t == self.model().term(index),
    ;

    /// Entries in the inclusive range `[low, high]`, clamped to what the log still holds.
    fn entries(&self, low: u64, high: u64) -> (r: Vec<Entry>)
        requires
            self.model().wf(),
        ensures
            message::entry_views(r@) == self.model().entries(low, high),
    ;

    /// Append contiguous entries. Must be durable before returning.
    fn append(&mut self, entries: &[Entry])
        requires
            old(self).model().wf(),
            message::contiguous(
                old(self).model().last_index(),
                message::entry_views(entries@),
            ),
        ensures
            final(self).model() == old(self).model().append(message::entry_views(entries@)),
    ;

    /// Delete every entry with `index >= from` (used to resolve a log conflict).
    fn truncate_suffix(&mut self, from: u64)
        requires
            old(self).model().wf(),
        ensures
            final(self).model() == old(self).model().truncate(from),
    ;

    /// The stored snapshot, or `None` if uncompacted.
    fn snapshot(&self) -> (s: Option<Snapshot>)
        ensures
            opt_snapshot(s) == self.model().snap,
    ;

    /// The first index that the log could still hold.
    fn first_index(&self) -> (i: u64)
        requires
            self.model().wf(),
        ensures
            i == self.model().first_index(),
    ;

    /// Record a snapshot of committed state through `index`, with the membership as of that
    /// index, and discard the log entries up to it. Nothing happens where the log is already
    /// compacted that far. Durable before returning.
    fn compact(
        &mut self,
        index: u64,
        term: u64,
        conf_state: Vec<u64>,
        learners: Vec<u64>,
        data: Vec<u8>,
    )
        requires
            old(self).model().wf(),
            index < u64::MAX,
        ensures
            final(self).model() == old(self).model().compact(
                SnapshotView {
                    last_included_index: index,
                    last_included_term: term,
                    conf_state: conf_state@,
                    learners: learners@,
                    data: data@,
                },
            ),
    ;

    /// Install a snapshot received from the leader: adopt it and drop the log. Durable before
    /// returning.
    fn apply_snapshot(&mut self, snap: Snapshot)
        requires
            old(self).model().wf(),
            snap@.last_included_index < u64::MAX,
        ensures
            final(self).model() == old(self).model().install(snap@),
    ;
}

/// In-memory [`Storage`].
#[derive(Clone, Debug, Default)]
pub struct MemStorage {
    hard: HardState,
    /// Entries strictly above the snapshot; `log[i]` has absolute index `base + i + 1`.
    log: Vec<Entry>,
    snap: Option<Snapshot>,
}

impl MemStorage {
    /// An empty store.
    pub fn new() -> (s: MemStorage)
        ensures
            s.model() == StorageView::fresh(),
    {
        let s = MemStorage { hard: HardState::default(), log: Vec::new(), snap: None };
        assert(s.model() =~= StorageView::fresh());
        s
    }

    fn base(&self) -> (b: u64)
        ensures
            b == self.model().base(),
    {
        match &self.snap {
            Some(s) => s.last_included_index,
            None => 0,
        }
    }
}

impl Storage for MemStorage {
    closed spec fn model(&self) -> StorageView {
        StorageView {
            hard: self.hard,
            log: message::entry_views(self.log@),
            snap: opt_snapshot(self.snap),
        }
    }

    fn hard_state(&self) -> (h: HardState) {
        self.hard
    }

    fn save_hard_state(&mut self, hs: HardState) {
        self.hard = hs;
    }

    fn last_index(&self) -> (i: u64) {
        self.base() + self.log.len() as u64
    }

    fn term(&self, index: u64) -> (t: Option<u64>) {
        if index == 0 {
            return Some(0);
        }
        let base: u64 = self.base();
        if index == base {
            return match &self.snap {
                Some(s) => Some(s.last_included_term),
                None => None,
            };
        }
        if index < base {
            return None;
        }
        let at: u64 = index - base - 1;
        if at < self.log.len() as u64 {
            Some(self.log[at as usize].term)
        } else {
            None
        }
    }

    fn entries(&self, low: u64, high: u64) -> (r: Vec<Entry>) {
        let base: u64 = self.base();
        let n: usize = self.log.len();
        let lo: u64 = if low <= base {
            0
        } else {
            low - base - 1
        };
        let hi: u64 = if high <= base {
            0
        } else if high - base > n as u64 {
            n as u64
        } else {
            high - base
        };
        if lo >= hi {
            let none: Vec<Entry> = Vec::new();
            assert(message::entry_views(none@) =~= Seq::<EntryView>::empty());
            return none;
        }
        message::dup_entries(self.log.as_slice(), lo as usize, hi as usize)
    }

    fn append(&mut self, entries: &[Entry]) {
        let ghost before = self.model();
        let mut more = message::dup_entries(entries, 0, entries.len());
        self.log.append(&mut more);
        assert(message::entry_views(entries@).subrange(0, entries@.len() as int)
            =~= message::entry_views(entries@));
        assert(self.model() =~= before.append(message::entry_views(entries@)));
    }

    fn truncate_suffix(&mut self, from: u64) {
        let ghost before = self.model();
        let base: u64 = self.base();
        if from <= base + 1 {
            self.log.clear();
        } else {
            let keep: u64 = from - base - 1;
            if keep < self.log.len() as u64 {
                self.log.truncate(keep as usize);
            }
        }
        assert(self.model() =~= before.truncate(from));
    }

    fn snapshot(&self) -> (s: Option<Snapshot>) {
        match &self.snap {
            Some(s) => Some(s.dup()),
            None => None,
        }
    }

    fn first_index(&self) -> (i: u64) {
        self.base() + 1
    }

    fn compact(
        &mut self,
        index: u64,
        term: u64,
        conf_state: Vec<u64>,
        learners: Vec<u64>,
        data: Vec<u8>,
    ) {
        let ghost before = self.model();
        let base: u64 = self.base();
        if index <= base {
            return ;
        }
        let n: u64 = index - base;
        if n >= self.log.len() as u64 {
            self.log.clear();
        } else {
            let rest = message::dup_entries(self.log.as_slice(), n as usize, self.log.len());
            self.log = rest;
        }
        let snap = Snapshot {
            last_included_index: index,
            last_included_term: term,
            conf_state,
            learners,
            data,
        };
        self.snap = Some(snap);
        assert(self.model() =~= before.compact(snap@));
    }

    fn apply_snapshot(&mut self, snap: Snapshot) {
        let ghost before = self.model();
        self.log.clear();
        self.snap = Some(snap);
        assert(self.model() =~= before.install(snap@));
    }
}

} // verus!
