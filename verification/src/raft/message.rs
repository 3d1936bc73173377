//! Raft message types, free of any transport.

use vstd::prelude::*;
use crate::bytes;
use crate::engine::encoding;

verus! {

/// What a log entry carries: an opaque state-machine command that the core forwards to the
/// application, or a **membership change** that the core itself interprets.
#[derive(Clone, Copy, Debug, PartialEq, Eq, Structural)]
pub enum EntryType {
    Normal,
    ConfChange,
}

impl Default for EntryType {
    fn default() -> (r: Self)
        ensures
            r == EntryType::Normal,
    {
        EntryType::Normal
    }
}

/// A single log entry. `index` is 1-based and contiguous; `term` is the leader's term when the
/// entry was created; `data` is the opaque command, or an encoded [`ConfChange`].
#[derive(Clone, Debug, PartialEq, Eq)]
pub struct Entry {
    pub term: u64,
    pub index: u64,
    pub entry_type: EntryType,
    pub data: Vec<u8>,
}

/// An [`Entry`] as values.
pub struct EntryView {
    pub term: u64,
    pub index: u64,
    pub kind: EntryType,
    pub data: Seq<u8>,
}

impl View for Entry {
    type V = EntryView;

    open spec fn view(&self) -> EntryView {
        EntryView { term: self.term, index: self.index, kind: self.entry_type, data: self.data@ }
    }
}

impl Entry {
    /// A normal (state-machine command) entry.
    pub fn normal(term: u64, index: u64, data: Vec<u8>) -> (e: Self)
        ensures
            e@ == (EntryView { term, index, kind: EntryType::Normal, data: data@ }),
    {
        Entry { term, index, entry_type: EntryType::Normal, data }
    }

    /// A copy of the entry.
    pub fn dup(&self) -> (e: Entry)
        ensures
            e@ == self@,
    {
        Entry {
            term: self.term,
            index: self.index,
            entry_type: self.entry_type,
            data: bytes::copy(self.data.as_slice()),
        }
    }
}

/// The views of a list of entries.
pub open spec fn entry_views(s: Seq<Entry>) -> Seq<EntryView> {
    Seq::new(s.len(), |i: int| s[i]@)
}

/// Copies of the entries from `from` on, up to `to`.
pub fn dup_entries(s: &[Entry], from: usize, to: usize) -> (r: Vec<Entry>)
    requires
        from <= to <= s@.len(),
    ensures
        entry_views(r@) == entry_views(s@).subrange(from as int, to as int),
{
    let mut out: Vec<Entry> = Vec::new();
    let mut i: usize = from;
    while i < to
        invariant
            from <= i <= to <= s@.len(),
            out@.len() == i - from,
            forall|j: int| 0 <= j < out@.len() ==> (#[trigger] out@[j])@ == s@[from + j]@,
        decreases to - i,
    {
        out.push(s[i].dup());
        i = i + 1;
    }
    assert(entry_views(out@) =~= entry_views(s@).subrange(from as int, to as int));
    out
}

/// A single-server membership change: **exactly one** member at a time, so the old and new
/// majorities always overlap and no joint consensus is needed. Encoded into the `data` of a
/// configuration entry.
///
/// `AddLearner` adds a **non-voting** replica: it receives the log like any follower but never
/// votes, never campaigns, and never counts toward the commit majority, so adding a cold replica
/// cannot stall commits. Once caught up, `AddNode` on the learner **promotes** it to a voter.
#[derive(Clone, Copy, Debug, PartialEq, Eq, Structural)]
pub enum ConfChange {
    /// Add `id` as a voter, or, if it is currently a learner, promote it.
    AddNode(u64),
    /// Remove `id` from the group entirely (voter or learner).
    RemoveNode(u64),
    /// Add `id` as a non-voting learner (a no-op if it is already a voter).
    AddLearner(u64),
}

impl ConfChange {
    /// The affected node id.
    pub open spec fn node(self) -> u64 {
        match self {
            ConfChange::AddNode(id) => id,
            ConfChange::RemoveNode(id) => id,
            ConfChange::AddLearner(id) => id,
        }
    }

    /// The operation's code.
    pub open spec fn op(self) -> u8 {
        match self {
            ConfChange::AddNode(_) => 1,
            ConfChange::RemoveNode(_) => 2,
            ConfChange::AddLearner(_) => 3,
        }
    }
}

/// The change with this code.
pub open spec fn change_of(op: u8, id: u64) -> Option<ConfChange> {
    if op == 1 {
        Some(ConfChange::AddNode(id))
    } else if op == 2 {
        Some(ConfChange::RemoveNode(id))
    } else if op == 3 {
        Some(ConfChange::AddLearner(id))
    } else {
        None
    }
}

/// A change and the membership that results from it.
pub type ConfRecord = (ConfChange, Seq<u64>, Seq<u64>);

/// The payload of a configuration entry.
pub open spec fn conf_bytes(cc: ConfChange, voters: Seq<u64>, learners: Seq<u64>) -> Seq<u8> {
    seq![cc.op()] + bytes::be64(cc.node()) + bytes::be32(encoding::len32(voters.len()))
        + bytes::be64_list(voters) + bytes::be32(encoding::len32(learners.len()))
        + bytes::be64_list(learners)
}

/// The learners that a payload lists from `p` on; none where the section is missing.
pub open spec fn learners_at(b: Seq<u8>, p: int) -> Option<Seq<u64>> {
    if p + 4 > b.len() {
        Some(Seq::empty())
    } else {
        let n = bytes::u32_at(b, p);
        if p + 4 + 8 * n > b.len() {
            None
        } else {
            Some(bytes::u64s_at(b, p + 4, n as nat))
        }
    }
}

/// The change and the membership that a payload encodes.
pub open spec fn conf_of(b: Seq<u8>) -> Option<ConfRecord> {
    if b.len() < 13 {
        None
    } else {
        let n = bytes::u32_at(b, 9);
        let p = 13 + 8 * n;
        match change_of(b[0], bytes::u64_at(b, 1)) {
            None => None,
            Some(cc) => if p > b.len() {
                None
            } else {
                match learners_at(b, p) {
                    None => None,
                    Some(ls) => Some((cc, bytes::u64s_at(b, 13, n as nat), ls)),
                }
            },
        }
    }
}

impl ConfChange {
    /// The affected node id.
    pub fn node_id(&self) -> (id: u64)
        ensures
            id == self.node(),
    {
        match self {
            ConfChange::AddNode(id) => *id,
            ConfChange::RemoveNode(id) => *id,
            ConfChange::AddLearner(id) => *id,
        }
    }

    /// Encode the operation **and the resulting membership** (voters and learners). Recording the
    /// absolute membership (not just the delta) lets any replica, including a freshly added one
    /// that never saw the group's initial configuration, adopt the new membership directly.
    /// Layout: `[op:u8][node_id:u64][nv:u32][voter:u64 * nv][nl:u32][learner:u64 * nl]`.
    pub fn encode(&self, voters: &[u64], learners: &[u64]) -> (b: Vec<u8>)
        ensures
            b@ == conf_bytes(*self, voters@, learners@),
    {
        let op: u8 = match self {
            ConfChange::AddNode(_) => 1,
            ConfChange::RemoveNode(_) => 2,
            ConfChange::AddLearner(_) => 3,
        };
        let mut b: Vec<u8> = Vec::new();
        b.push(op);
        bytes::put_u64(&mut b, self.node_id());
        bytes::put_u32(&mut b, encoding::low32(voters.len()));
        bytes::put_u64s(&mut b, voters);
        bytes::put_u32(&mut b, encoding::low32(learners.len()));
        bytes::put_u64s(&mut b, learners);
        assert(b@ =~= conf_bytes(*self, voters@, learners@));
        b
    }

    /// Inverse of [`ConfChange::encode`]: the change, the resulting voters and the resulting
    /// learners; `None` on a malformed payload. A payload without a learner section has none.
    pub fn decode(b: &[u8]) -> (r: Option<(ConfChange, Vec<u64>, Vec<u64>)>)
        ensures
            match r {
                Some((cc, vs, ls)) => conf_of(b@) == Some((cc, vs@, ls@)),
                None => conf_of(b@) is None,
            },
    {
        if b.len() < 13 {
            return None;
        }
        let id: u64 = bytes::read_u64(b, 1);
        let cc = match b[0] {
            1 => ConfChange::AddNode(id),
            2 => ConfChange::RemoveNode(id),
            3 => ConfChange::AddLearner(id),
            _ => {
                return None;
            },
        };
        let nv: u32 = bytes::read_u32(b, 9);
        let voters = match bytes::read_u64s(b, 13, nv) {
            Some(v) => v,
            None => {
                return None;
            },
        };
        let p: usize = 13 + 8 * nv as usize;
        if b.len() - p < 4 {
            let none: Vec<u64> = Vec::new();
            assert(none@ =~= Seq::<u64>::empty());
            return Some((cc, voters, none));
        }
        let nl: u32 = bytes::read_u32(b, p);
        match bytes::read_u64s(b, p + 4, nl) {
            Some(learners) => Some((cc, voters, learners)),
            None => None,
        }
    }
}

/// A configuration entry's payload reads back.
pub proof fn law_conf_roundtrip(cc: ConfChange, voters: Seq<u64>, learners: Seq<u64>)
    requires
        voters.len() < 0x1_0000_0000,
        learners.len() < 0x1_0000_0000,
    ensures
        conf_of(conf_bytes(cc, voters, learners)) == Some((cc, voters, learners)),
{
    broadcast use {bytes::group_be_len, bytes::lemma_be64_list_len};
    let b = conf_bytes(cc, voters, learners);
    let nv = encoding::len32(voters.len());
    let nl = encoding::len32(learners.len());
    let h1 = seq![cc.op()] + bytes::be64(cc.node()) + bytes::be32(nv);
    let t1 = bytes::be32(nl) + bytes::be64_list(learners);
    assert(b =~= h1 + bytes::be64_list(voters) + t1);
    bytes::lemma_u64s_at(h1, voters, t1);
    let h2 = h1 + bytes::be64_list(voters) + bytes::be32(nl);
    assert(b =~= h2 + bytes::be64_list(learners) + Seq::<u8>::empty());
    bytes::lemma_u64s_at(h2, learners, Seq::empty());
    assert(b.subrange(1, 9) =~= bytes::be64(cc.node()));
    bytes::lemma_u64_at(b, 1, cc.node());
    assert(b.subrange(9, 13) =~= bytes::be32(nv));
    bytes::lemma_u32_at(b, 9, nv);
    let p = 13 + 8 * nv;
    assert(b.subrange(p, p + 4) =~= bytes::be32(nl));
    bytes::lemma_u32_at(b, p, nl);
}

/// The persistent, crash-critical scalar state: the current term and the candidate voted for in
/// that term. The log, the third piece of persistent state, is in
/// [`crate::raft::storage::Storage`].
#[derive(Clone, Copy, Debug, PartialEq, Eq)]
pub struct HardState {
    pub current_term: u64,
    pub voted_for: Option<u64>,
}

impl Default for HardState {
    fn default() -> (h: Self)
        ensures
            h == (HardState { current_term: 0, voted_for: None }),
    {
        HardState { current_term: 0, voted_for: None }
    }
}

/// An addressed message. `term` is the sender's term.
#[derive(Clone, Debug, PartialEq, Eq)]
pub struct Message {
    pub from: u64,
    pub to: u64,
    pub term: u64,
    pub body: MessageBody,
}

/// What a message says.
#[derive(Clone, Debug, PartialEq, Eq)]
pub enum MessageBody {
    /// Candidate to peers: solicit a vote.
    RequestVote { last_log_index: u64, last_log_term: u64 },
    /// Peer to candidate: the vote decision.
    RequestVoteResp { granted: bool },
    /// Leader to followers: replicate entries, or heartbeat.
    AppendEntries {
        prev_log_index: u64,
        prev_log_term: u64,
        entries: Vec<Entry>,
        leader_commit: u64,
    },
    /// Follower to leader: append result and the follower's new match point.
    AppendEntriesResp { success: bool, match_index: u64 },
    /// Leader to follower: install a snapshot of committed state through `last_included_index`,
    /// sent when the leader has already **compacted** the log that the follower still needs.
    /// `conf_state` carries the group's voters and `learners` its non-voting replicas as of that
    /// index.
    InstallSnapshot {
        last_included_index: u64,
        last_included_term: u64,
        conf_state: Vec<u64>,
        learners: Vec<u64>,
        data: Vec<u8>,
    },
    /// Follower to leader: the snapshot was installed up to `match_index`.
    InstallSnapshotResp { match_index: u64 },
    /// Leader to transfer target: campaign **now**. The target starts an election immediately
    /// without waiting out its randomized timeout.
    TimeoutNow,
}

/// A [`MessageBody`] as values.
pub enum BodyView {
    RequestVote { last_log_index: u64, last_log_term: u64 },
    RequestVoteResp { granted: bool },
    AppendEntries {
        prev_log_index: u64,
        prev_log_term: u64,
        entries: Seq<EntryView>,
        leader_commit: u64,
    },
    AppendEntriesResp { success: bool, match_index: u64 },
    InstallSnapshot {
        last_included_index: u64,
        last_included_term: u64,
        conf_state: Seq<u64>,
        learners: Seq<u64>,
        data: Seq<u8>,
    },
    InstallSnapshotResp { match_index: u64 },
    TimeoutNow,
}

/// A [`Message`] as values.
pub struct MessageView {
    pub from: u64,
    pub to: u64,
    pub term: u64,
    pub body: BodyView,
}

impl View for MessageBody {
    type V = BodyView;

    open spec fn view(&self) -> BodyView {
        match self {
            MessageBody::RequestVote { last_log_index, last_log_term } => BodyView::RequestVote {
                last_log_index: *last_log_index,
                last_log_term: *last_log_term,
            },
            MessageBody::RequestVoteResp { granted } => BodyView::RequestVoteResp {
                granted: *granted,
            },
            MessageBody::AppendEntries {
                prev_log_index,
                prev_log_term,
                entries,
                leader_commit,
            } => BodyView::AppendEntries {
                prev_log_index: *prev_log_index,
                prev_log_term: *prev_log_term,
                entries: entry_views(entries@),
                leader_commit: *leader_commit,
            },
            MessageBody::AppendEntriesResp { success, match_index } => BodyView::AppendEntriesResp {
                success: *success,
                match_index: *match_index,
            },
            MessageBody::InstallSnapshot {
                last_included_index,
                last_included_term,
                conf_state,
                learners,
                data,
            } => BodyView::InstallSnapshot {
                last_included_index: *last_included_index,
                last_included_term: *last_included_term,
                conf_state: conf_state@,
                learners: learners@,
                data: data@,
            },
            MessageBody::InstallSnapshotResp { match_index } => BodyView::InstallSnapshotResp {
                match_index: *match_index,
            },
            MessageBody::TimeoutNow => BodyView::TimeoutNow,
        }
    }
}

impl View for Message {
    type V = MessageView;

    open spec fn view(&self) -> MessageView {
        MessageView { from: self.from, to: self.to, term: self.term, body: self.body@ }
    }
}

/// The views of a list of messages.
pub open spec fn message_views(s: Seq<Message>) -> Seq<MessageView> {
    Seq::new(s.len(), |i: int| s[i]@)
}

/// Whether entries are numbered one after another behind `prev`, with room behind the last.
pub open spec fn contiguous(prev: u64, es: Seq<EntryView>) -> bool {
    &&& prev + es.len() < u64::MAX
    &&& forall|k: int| 0 <= k < es.len() ==> (#[trigger] es[k]).index == prev + 1 + k
}

impl MessageView {
    /// Whether the message is one that a node can send: entries numbered one after another, and
    /// positions and terms that leave room for the next one.
    pub open spec fn well_formed(self) -> bool {
        &&& self.body is TimeoutNow ==> self.term < u64::MAX
        &&& match self.body {
            BodyView::AppendEntries { prev_log_index, entries, .. } => contiguous(
                prev_log_index,
                entries,
            ),
            BodyView::AppendEntriesResp { match_index, .. } => match_index < u64::MAX,
            BodyView::InstallSnapshot { last_included_index, .. } => last_included_index
                < u64::MAX,
            BodyView::InstallSnapshotResp { match_index } => match_index < u64::MAX,
            _ => true,
        }
    }
}

impl Message {
    /// Whether the message is one that a node can send. A transport drops any other.
    pub fn well_formed(&self) -> (r: bool)
        ensures
            r == self@.well_formed(),
    {
        match &self.body {
            MessageBody::TimeoutNow => self.term < u64::MAX,
            MessageBody::AppendEntries { prev_log_index, entries, .. } => {
                let n: usize = entries.len();
                if n as u64 >= u64::MAX - *prev_log_index {
                    return false;
                }
                let mut k: usize = 0;
                while k < n
                    invariant
                        0 <= k <= n,
                        n == entries@.len(),
                        prev_log_index + n < u64::MAX,
                        forall|j: int|
                            0 <= j < k ==> (#[trigger] entry_views(entries@)[j]).index
                                == prev_log_index + 1 + j,
                        self@.body matches BodyView::AppendEntries { prev_log_index: p, entries: es, .. }
                            && p == *prev_log_index && es == entry_views(entries@),
                    decreases n - k,
                {
                    if entries[k].index != *prev_log_index + 1 + k as u64 {
                        assert(entry_views(entries@)[k as int].index != prev_log_index + 1 + k);
                        return false;
                    }
                    k = k + 1;
                }
                true
            },
            MessageBody::AppendEntriesResp { match_index, .. } => *match_index < u64::MAX,
            MessageBody::InstallSnapshot { last_included_index, .. } => *last_included_index
                < u64::MAX,
            MessageBody::InstallSnapshotResp { match_index } => *match_index < u64::MAX,
            _ => true,
        }
    }
}

} // verus!
