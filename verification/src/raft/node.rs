//! The Raft state machine: a pure, I/O-free core.
//!
//! Driving it is three calls:
//! - [`RaftNode::tick`] advances the logical clock (election and heartbeat timers);
//! - [`RaftNode::step`] feeds in one inbound [`Message`];
//! - [`RaftNode::propose`] (leader only) appends a client command.
//!
//! Each may produce outbound messages and newly committed entries, drained with
//! [`RaftNode::take_messages`] and [`RaftNode::take_committed`]. There is no clock, no socket and
//! no thread inside.
//!
//! Term, vote and log entries are written through [`Storage`] *before* the corresponding reply is
//! emitted.

use std::collections::{BTreeMap, BTreeSet};
use vstd::prelude::*;
use crate::raft::members;
use crate::raft::members::MembersView;
use crate::raft::message;
use crate::raft::message::{
    BodyView, ConfChange, Entry, EntryType, EntryView, HardState, Message, MessageBody,
    MessageView,
};
use crate::raft::storage;
use crate::raft::storage::{Snapshot, SnapshotView, Storage, StorageView};

verus! {

/// What a node currently does.
#[derive(Clone, Copy, Debug, PartialEq, Eq, Structural)]
pub enum Role {
    Follower,
    Candidate,
    Leader,
}

/// Static configuration for one peer.
#[derive(Clone, Debug)]
pub struct Config {
    /// This node's id.
    pub id: u64,
    /// All voting members of the group, *including* `id`.
    pub voters: Vec<u64>,
    /// Base election timeout, in ticks. The effective timeout is randomized in
    /// `[election_timeout, 2 * election_timeout)` to break up split votes.
    pub election_timeout: u32,
    /// Heartbeat period, in ticks. Should be less than `election_timeout` so a live leader keeps
    /// followers from timing out.
    pub heartbeat_timeout: u32,
    /// Seed for the node's election-timeout randomization.
    pub seed: u64,
}

/// The default seed of a node.
pub open spec fn default_seed(id: u64) -> u64 {
    ((id * 0x9E37_79B9_7F4A_7C15) % 0x1_0000_0000_0000_0000) as u64
}

impl Config {
    /// A configuration with sensible defaults (election 10 ticks, heartbeat 1 tick) and a seed by
    /// id so distinct nodes randomize to distinct timeouts.
    pub fn new(id: u64, voters: Vec<u64>) -> (c: Self)
        ensures
            c.id == id,
            c.voters@ == voters@,
            c.election_timeout == 10,
            c.heartbeat_timeout == 1,
            c.seed == default_seed(id),
    {
        Config {
            id,
            voters,
            election_timeout: 10,
            heartbeat_timeout: 1,
            seed: id.wrapping_mul(0x9E37_79B9_7F4A_7C15),
        }
    }
}

/// Why a proposal was refused.
#[derive(Clone, Copy, Debug, PartialEq, Eq, Structural)]
pub enum ProposeError {
    /// Only the leader may append commands; the caller should redirect to
    /// [`RaftNode::leader_id`].
    NotLeader,
    /// A membership change is already in flight (uncommitted). Only **one** configuration change
    /// at a time; retry after the pending one commits.
    ConfChangeInProgress,
    /// A leader may not remove itself: transfer leadership, then remove the old leader from the
    /// new one.
    CannotRemoveLeader,
}

/// One step of the xorshift generator.
pub open spec fn xorshift(x: u64) -> u64 {
    let a = x ^ (x << 13u64);
    let b = a ^ (a >> 7u64);
    b ^ (b << 17u64)
}

/// A map's value, or a default where the key is missing.
pub open spec fn value_or(m: Map<u64, u64>, k: u64, default: u64) -> u64 {
    if m.contains_key(k) {
        m[k]
    } else {
        default
    }
}

/// The membership that the last configuration entry records; `base` where there is none.
pub open spec fn last_conf(es: Seq<EntryView>, base: MembersView) -> MembersView
    decreases es.len(),
{
    if es.len() == 0 {
        base
    } else if es.last().kind == EntryType::ConfChange {
        match message::conf_of(es.last().data) {
            Some((_, voters, learners)) => MembersView { voters, learners },
            None => last_conf(es.drop_last(), base),
        }
    } else {
        last_conf(es.drop_last(), base)
    }
}

/// Whether an entry changes the membership.
pub open spec fn any_conf(es: Seq<EntryView>) -> bool {
    exists|i: int| 0 <= i < es.len() && (#[trigger] es[i]).kind == EntryType::ConfChange
}

/// How many of the ids have a match point at or past `n`.
pub open spec fn acks(ids: Seq<u64>, matched: Map<u64, u64>, n: u64) -> nat
    decreases ids.len(),
{
    if ids.len() == 0 {
        0
    } else {
        acks(ids.drop_last(), matched, n) + if value_or(matched, ids.last(), 0) >= n {
            1nat
        } else {
            0
        }
    }
}

/// A node's state as values.
#[verifier::ext_equal]
pub struct NodeView {
    pub id: u64,
    /// The active voters, derived from the log.
    pub voters: Seq<u64>,
    /// The active learners, derived from the log.
    pub learners: Seq<u64>,
    /// The initial voters.
    pub boot: Seq<u64>,
    pub st: StorageView,
    pub role: Role,
    pub term: u64,
    pub vote: Option<u64>,
    pub commit: u64,
    pub applied: u64,
    pub leader: Option<u64>,
    /// Who granted this candidate their vote.
    pub votes: Set<u64>,
    /// The next index to send to each member.
    pub next: Map<u64, u64>,
    /// The highest index known to be on each member.
    pub matched: Map<u64, u64>,
    pub election_elapsed: u32,
    pub heartbeat_elapsed: u32,
    /// The current randomized election timeout.
    pub timeout: u32,
    pub election_timeout: u32,
    pub heartbeat_timeout: u32,
    pub rng: u64,
    /// Messages to send.
    pub outbox: Seq<MessageView>,
    /// A snapshot that was installed and not yet taken.
    pub pending: Option<(u64, Seq<u8>)>,
}

/// One more, up to the top of the range.
pub open spec fn bump(n: u32) -> u32 {
    if n == u32::MAX {
        n
    } else {
        (n + 1) as u32
    }
}

/// The smaller of two numbers.
pub open spec fn smaller(a: u64, b: u64) -> u64 {
    if a < b {
        a
    } else {
        b
    }
}

/// The larger of two numbers.
pub open spec fn larger(a: u64, b: u64) -> u64 {
    if a > b {
        a
    } else {
        b
    }
}

/// The position of the first of `es` (at indices behind `prev`, from the `k`-th on) that the
/// store does not hold yet: one past its end, or one with another term. Entries that the snapshot
/// covers count as held.
pub open spec fn first_new(st: StorageView, prev: u64, es: Seq<EntryView>, k: int) -> int
    decreases es.len() - k,
{
    if k >= es.len() {
        es.len() as int
    } else {
        let idx = (prev + 1 + k) as u64;
        if idx <= st.base() {
            first_new(st, prev, es, k + 1)
        } else if idx <= st.last_index() && st.term(idx) == Some(es[k].term) {
            first_new(st, prev, es, k + 1)
        } else {
            k
        }
    }
}

/// The store with `es`, which stand behind `prev`, spliced in from the `k`-th on.
pub open spec fn spliced(st: StorageView, prev: u64, es: Seq<EntryView>, k: int) -> StorageView {
    let idx = (prev + 1 + k) as u64;
    let kept = if idx <= st.last_index() {
        st.truncate(idx)
    } else {
        st
    };
    kept.append(es.skip(k))
}

impl NodeView {
    /// The store is in order, holds the current term and vote, and the members are those that it
    /// records; timers and positions leave room for the next step.
    pub open spec fn wf(self) -> bool {
        &&& self.st.wf()
        &&& self.st.hard == (HardState { current_term: self.term, voted_for: self.vote })
        &&& self.members() == self.conf_at(self.st.last_index())
        &&& self.commit < u64::MAX
        &&& self.applied < u64::MAX
        &&& self.timers_ok()
        &&& self.progress_ok()
    }

    /// The election timeout can be randomized.
    pub open spec fn timers_ok(self) -> bool {
        1 <= self.election_timeout <= 0x8000_0000
    }

    /// Sending starts at 1 at the earliest, and match points leave room for the next index.
    pub open spec fn progress_ok(self) -> bool {
        &&& forall|k: u64| #[trigger] self.next.contains_key(k) ==> self.next[k] >= 1
        &&& forall|k: u64| #[trigger] self.matched.contains_key(k) ==> self.matched[k] < u64::MAX
    }

    /// The active members.
    pub open spec fn members(self) -> MembersView {
        MembersView { voters: self.voters, learners: self.learners }
    }

    /// The membership that the log starts from: the snapshot's, or the initial one.
    pub open spec fn base_members(self) -> MembersView {
        match self.st.snap {
            Some(s) => MembersView { voters: s.conf_state, learners: s.learners },
            None => MembersView { voters: self.boot, learners: Seq::empty() },
        }
    }

    /// The membership as of `index`: the one that the highest configuration entry at or below it
    /// records.
    pub open spec fn conf_at(self, index: u64) -> MembersView {
        last_conf(
            self.st.entries(self.st.first_index(), index),
            self.base_members(),
        ).sorted()
    }

    /// A majority of the voters.
    pub open spec fn majority(self) -> nat {
        self.voters.len() / 2 + 1
    }

    /// Whether this node votes.
    pub open spec fn is_voter(self) -> bool {
        self.voters.contains(self.id)
    }

    /// The other voters.
    pub open spec fn peers(self) -> Seq<u64> {
        members::without(self.voters, self.id)
    }

    /// The other members: all that the log is sent to.
    pub open spec fn targets(self) -> Seq<u64> {
        members::without(self.voters + self.learners, self.id)
    }

    /// The term of the last entry.
    pub open spec fn last_log_term(self) -> u64 {
        match self.st.term(self.st.last_index()) {
            Some(t) => t,
            None => 0,
        }
    }

    /// A message queued.
    pub open spec fn send(self, to: u64, body: BodyView) -> NodeView {
        NodeView {
            outbox: self.outbox.push(MessageView { from: self.id, to, term: self.term, body }),
            ..self
        }
    }

    /// Term and vote written through.
    pub open spec fn persist(self) -> NodeView {
        NodeView {
            st: StorageView {
                hard: HardState { current_term: self.term, voted_for: self.vote },
                ..self.st
            },
            ..self
        }
    }

    /// The election timer started anew with another random timeout.
    pub open spec fn reset_timer(self) -> NodeView {
        let rng = xorshift(self.rng);
        NodeView {
            election_elapsed: 0,
            rng,
            timeout: (self.election_timeout + rng % self.election_timeout as u64) as u32,
            ..self
        }
    }

    /// The leader's snapshot sent, where there is one.
    pub open spec fn send_snapshot(self, to: u64) -> NodeView {
        match self.st.snap {
            None => self,
            Some(s) => self.send(
                to,
                BodyView::InstallSnapshot {
                    last_included_index: s.last_included_index,
                    last_included_term: s.last_included_term,
                    conf_state: s.conf_state,
                    learners: s.learners,
                    data: s.data,
                },
            ),
        }
    }

    /// What the leader sends to a member: the entries from its next index on, or the snapshot
    /// where those are compacted away.
    pub open spec fn send_append(self, to: u64) -> NodeView {
        let last = self.st.last_index();
        let next = value_or(self.next, to, (last + 1) as u64);
        if next < self.st.first_index() {
            self.send_snapshot(to)
        } else {
            let prev = if next == 0 {
                0
            } else {
                (next - 1) as u64
            };
            self.send(
                to,
                BodyView::AppendEntries {
                    prev_log_index: prev,
                    prev_log_term: match self.st.term(prev) {
                        Some(t) => t,
                        None => 0,
                    },
                    entries: self.st.entries(next, last),
                    leader_commit: self.commit,
                },
            )
        }
    }

    /// What the leader sends, to each of the ids.
    pub open spec fn send_appends(self, ids: Seq<u64>) -> NodeView
        decreases ids.len(),
    {
        if ids.len() == 0 {
            self
        } else {
            self.send_appends(ids.drop_last()).send_append(ids.last())
        }
    }

    /// What the leader sends, to every other member.
    pub open spec fn broadcast_append(self) -> NodeView {
        self.send_appends(self.targets())
    }

    /// Requests for votes, to each of the ids.
    pub open spec fn ask_votes(self, ids: Seq<u64>) -> NodeView
        decreases ids.len(),
    {
        if ids.len() == 0 {
            self
        } else {
            self.ask_votes(ids.drop_last()).send(
                ids.last(),
                BodyView::RequestVote {
                    last_log_index: self.st.last_index(),
                    last_log_term: self.last_log_term(),
                },
            )
        }
    }

    /// The node as leader of its term.
    pub open spec fn become_leader(self) -> NodeView {
        let last = self.st.last_index();
        let all = self.voters + self.learners;
        (NodeView {
            role: Role::Leader,
            leader: Some(self.id),
            next: Map::new(|k: u64| all.contains(k), |k: u64| (last + 1) as u64),
            matched: Map::new(|k: u64| all.contains(k), |k: u64| 0u64).insert(self.id, last),
            heartbeat_elapsed: 0,
            ..self
        }).broadcast_append()
    }

    /// The node as follower, in `term` where that is newer.
    pub open spec fn become_follower(self, term: u64, leader: Option<u64>) -> NodeView {
        let v = if term > self.term {
            (NodeView { term, vote: None, ..self }).persist()
        } else {
            self
        };
        (NodeView { role: Role::Follower, leader, ..v }).reset_timer()
    }

    /// A new election: a new term, a vote for itself, and requests to the other voters.
    pub open spec fn start_election(self) -> NodeView {
        let v = (NodeView {
            role: Role::Candidate,
            term: (self.term + 1) as u64,
            vote: Some(self.id),
            ..self
        }).persist();
        let w = (NodeView { leader: None, votes: set![self.id], ..v }).reset_timer();
        if 1 >= w.majority() {
            w.become_leader()
        } else {
            w.ask_votes(w.peers())
        }
    }

    /// The clock advanced by one tick.
    pub open spec fn tick(self) -> NodeView {
        match self.role {
            Role::Leader => {
                let n = bump(self.heartbeat_elapsed);
                if n >= self.heartbeat_timeout {
                    (NodeView { heartbeat_elapsed: 0, ..self }).broadcast_append()
                } else {
                    NodeView { heartbeat_elapsed: n, ..self }
                }
            },
            _ => {
                let v = NodeView { election_elapsed: bump(self.election_elapsed), ..self };
                if v.election_elapsed >= v.timeout && v.is_voter() {
                    v.start_election()
                } else {
                    v
                }
            },
        }
    }

    /// The members taken from the log; a leader that is no longer a voter steps down.
    pub open spec fn recompute_conf(self) -> NodeView {
        let m = self.conf_at(self.st.last_index());
        let v = NodeView { voters: m.voters, learners: m.learners, ..self };
        if v.role == Role::Leader && !v.is_voter() {
            v.become_follower(v.term, None)
        } else {
            v
        }
    }

    /// The highest index from `n` down to the commit index that is of the current term and on a
    /// majority; the commit index where there is none.
    pub open spec fn committable(self, n: u64) -> u64
        decreases n,
    {
        if n <= self.commit {
            self.commit
        } else if self.st.term(n) == Some(self.term) && acks(self.voters, self.matched, n)
            >= self.majority() {
            n
        } else {
            self.committable((n - 1) as u64)
        }
    }

    /// The commit index advanced as far as the commit rule allows: an entry of the leader's own
    /// term that a majority holds commits, and everything in front of it with it.
    pub open spec fn advance_commit(self) -> NodeView {
        NodeView { commit: self.committable(self.st.last_index()), ..self }
    }

    /// The leader's own progress after it appended the entry at `index`.
    pub open spec fn own_progress(self, index: u64) -> NodeView {
        NodeView {
            matched: self.matched.insert(self.id, index),
            next: self.next.insert(self.id, (index + 1) as u64),
            ..self
        }
    }

    /// A client command appended.
    pub open spec fn propose(self, data: Seq<u8>) -> (NodeView, Result<u64, ProposeError>) {
        if self.role != Role::Leader {
            (self, Err(ProposeError::NotLeader))
        } else {
            let index = (self.st.last_index() + 1) as u64;
            let e = EntryView { term: self.term, index, kind: EntryType::Normal, data };
            let v = NodeView { st: self.st.append(seq![e]), ..self };
            (v.own_progress(index).advance_commit().broadcast_append(), Ok(index))
        }
    }

    /// Whether a membership change is not committed yet.
    pub open spec fn pending_conf(self) -> bool {
        any_conf(
            self.st.entries(
                larger((self.commit + 1) as u64, self.st.first_index()),
                self.st.last_index(),
            ),
        )
    }

    /// Whether a change brings in a member that the log is not sent to yet.
    pub open spec fn starts_fresh(self, cc: ConfChange) -> bool {
        match cc {
            ConfChange::AddNode(id) => !self.learners.contains(id),
            ConfChange::RemoveNode(_) => false,
            ConfChange::AddLearner(id) => !self.voters.contains(id) && !self.learners.contains(id),
        }
    }

    /// A membership change appended.
    pub open spec fn propose_conf(self, cc: ConfChange) -> (NodeView, Result<u64, ProposeError>) {
        if self.role != Role::Leader {
            (self, Err(ProposeError::NotLeader))
        } else if self.pending_conf() {
            (self, Err(ProposeError::ConfChangeInProgress))
        } else if cc == ConfChange::RemoveNode(self.id) {
            (self, Err(ProposeError::CannotRemoveLeader))
        } else {
            let m = self.members().change(cc).sorted();
            let index = (self.st.last_index() + 1) as u64;
            let e = EntryView {
                term: self.term,
                index,
                kind: EntryType::ConfChange,
                data: message::conf_bytes(cc, m.voters, m.learners),
            };
            let v = NodeView { st: self.st.append(seq![e]), ..self };
            let w = v.own_progress(index).recompute_conf();
            let x = if self.starts_fresh(cc) {
                NodeView {
                    next: w.next.insert(cc.node(), 1),
                    matched: w.matched.insert(cc.node(), 0),
                    ..w
                }
            } else {
                w
            };
            (x.advance_commit().broadcast_append(), Ok(index))
        }
    }

    /// Whether a candidate's log is at least as up to date as this node's.
    pub open spec fn up_to_date(self, index: u64, term: u64) -> bool {
        term > self.last_log_term() || (term == self.last_log_term() && index
            >= self.st.last_index())
    }

    /// Whether a request for a vote is granted.
    pub open spec fn grants(self, from: u64, term: u64, index: u64, log_term: u64) -> bool {
        &&& term >= self.term
        &&& self.vote is None || self.vote == Some(from)
        &&& self.up_to_date(index, log_term)
    }

    /// A request for a vote answered.
    pub open spec fn on_request_vote(self, from: u64, term: u64, index: u64, log_term: u64) -> NodeView {
        if self.grants(from, term, index, log_term) {
            (NodeView { vote: Some(from), ..self }).persist().reset_timer().send(
                from,
                BodyView::RequestVoteResp { granted: true },
            )
        } else {
            self.send(from, BodyView::RequestVoteResp { granted: false })
        }
    }

    /// A vote counted.
    pub open spec fn on_vote(self, from: u64, term: u64, granted: bool) -> NodeView {
        if self.role != Role::Candidate || term != self.term || !granted {
            self
        } else {
            let v = NodeView { votes: self.votes.insert(from), ..self };
            if v.votes.len() >= v.majority() {
                v.become_leader()
            } else {
                v
            }
        }
    }

    /// A valid leader acknowledged.
    pub open spec fn follow(self, from: u64) -> NodeView {
        (NodeView { role: Role::Follower, leader: Some(from), ..self }).reset_timer()
    }

    /// Entries from a leader handled.
    pub open spec fn on_append(
        self,
        from: u64,
        term: u64,
        prev: u64,
        prev_term: u64,
        es: Seq<EntryView>,
        leader_commit: u64,
    ) -> NodeView {
        if term < self.term {
            self.send(from, BodyView::AppendEntriesResp { success: false, match_index: 0 })
        } else {
            let v = self.follow(from);
            let base = self.st.base();
            let last_new = (prev + es.len()) as u64;
            if last_new <= base {
                v.send(from, BodyView::AppendEntriesResp { success: true, match_index: base })
            } else if prev >= base && self.st.term(prev) != Some(prev_term) {
                v.send(from, BodyView::AppendEntriesResp { success: false, match_index: 0 })
            } else {
                let k = first_new(self.st, prev, es, 0);
                let w = if k < es.len() {
                    (NodeView { st: spliced(v.st, prev, es, k), ..v }).recompute_conf()
                } else {
                    v
                };
                let x = if leader_commit > w.commit {
                    NodeView { commit: smaller(leader_commit, last_new), ..w }
                } else {
                    w
                };
                x.send(
                    from,
                    BodyView::AppendEntriesResp { success: true, match_index: last_new },
                )
            }
        }
    }

    /// A member's progress raised to a match point.
    pub open spec fn raise(self, from: u64, index: u64) -> NodeView {
        let m = larger(index, value_or(self.matched, from, 0));
        NodeView {
            matched: self.matched.insert(from, m),
            next: self.next.insert(from, (m + 1) as u64),
            ..self
        }
    }

    /// A follower's answer handled: progress on success, a step back and a retry on a mismatch.
    pub open spec fn on_append_resp(self, from: u64, term: u64, success: bool, index: u64) -> NodeView {
        if self.role != Role::Leader || term != self.term {
            self
        } else if success {
            self.raise(from, index).advance_commit()
        } else {
            let next = value_or(self.next, from, 1);
            let back = if next <= 2 {
                1
            } else {
                (next - 1) as u64
            };
            (NodeView { next: self.next.insert(from, back), ..self }).send_append(from)
        }
    }

    /// A snapshot from a leader handled.
    pub open spec fn on_snapshot(self, from: u64, term: u64, snap: SnapshotView) -> NodeView {
        let index = snap.last_included_index;
        if term < self.term {
            self.send(from, BodyView::InstallSnapshotResp { match_index: 0 })
        } else {
            let v = self.follow(from);
            if index <= v.commit {
                v.send(from, BodyView::InstallSnapshotResp { match_index: v.commit })
            } else {
                (NodeView {
                    st: v.st.install(snap),
                    commit: index,
                    applied: index,
                    pending: Some((index, snap.data)),
                    ..v
                }).recompute_conf().send(
                    from,
                    BodyView::InstallSnapshotResp { match_index: index },
                )
            }
        }
    }

    /// A follower's answer to a snapshot handled.
    pub open spec fn on_snapshot_resp(self, from: u64, term: u64, index: u64) -> NodeView {
        if self.role != Role::Leader || term != self.term {
            self
        } else {
            self.raise(from, index).advance_commit()
        }
    }

    /// A request to campaign handled: a voter of the same term that does not lead yet starts an
    /// election at once.
    pub open spec fn on_timeout_now(self, term: u64) -> NodeView {
        if term == self.term && self.role != Role::Leader && self.is_voter() {
            self.start_election()
        } else {
            self
        }
    }

    /// A newer term adopted.
    pub open spec fn adopt(self, m: MessageView) -> NodeView {
        if m.term > self.term {
            self.become_follower(
                m.term,
                match m.body {
                    BodyView::AppendEntries { .. } => Some(m.from),
                    BodyView::InstallSnapshot { .. } => Some(m.from),
                    _ => None,
                },
            )
        } else {
            self
        }
    }

    /// One message processed.
    pub open spec fn step(self, m: MessageView) -> NodeView {
        let v = self.adopt(m);
        match m.body {
            BodyView::RequestVote { last_log_index, last_log_term } => v.on_request_vote(
                m.from,
                m.term,
                last_log_index,
                last_log_term,
            ),
            BodyView::RequestVoteResp { granted } => v.on_vote(m.from, m.term, granted),
            BodyView::AppendEntries {
                prev_log_index,
                prev_log_term,
                entries,
                leader_commit,
            } => v.on_append(
                m.from,
                m.term,
                prev_log_index,
                prev_log_term,
                entries,
                leader_commit,
            ),
            BodyView::AppendEntriesResp { success, match_index } => v.on_append_resp(
                m.from,
                m.term,
                success,
                match_index,
            ),
            BodyView::InstallSnapshot {
                last_included_index,
                last_included_term,
                conf_state,
                learners,
                data,
            } => v.on_snapshot(
                m.from,
                m.term,
                SnapshotView {
                    last_included_index,
                    last_included_term,
                    conf_state,
                    learners,
                    data,
                },
            ),
            BodyView::InstallSnapshotResp { match_index } => v.on_snapshot_resp(
                m.from,
                m.term,
                match_index,
            ),
            BodyView::TimeoutNow => v.on_timeout_now(m.term),
        }
    }

    /// The entries that are committed and not handed out yet.
    pub open spec fn committed(self) -> Seq<EntryView> {
        if self.commit <= self.applied {
            Seq::empty()
        } else {
            self.st.entries((self.applied + 1) as u64, self.commit)
        }
    }

    /// The log compacted up to `index`.
    pub open spec fn compacted(self, index: u64, data: Seq<u8>) -> NodeView {
        if index <= self.st.base() || index > self.applied {
            self
        } else {
            let m = self.conf_at(index);
            NodeView {
                st: self.st.compact(
                    SnapshotView {
                        last_included_index: index,
                        last_included_term: self.st.term(index).unwrap(),
                        conf_state: m.voters,
                        learners: m.learners,
                        data,
                    },
                ),
                ..self
            }
        }
    }

    /// A node started from a store.
    pub open spec fn start(
        id: u64,
        voters: Seq<u64>,
        election_timeout: u32,
        heartbeat_timeout: u32,
        seed: u64,
        st: StorageView,
    ) -> NodeView {
        (NodeView {
            id,
            voters,
            learners: Seq::empty(),
            boot: voters,
            st,
            role: Role::Follower,
            term: st.hard.current_term,
            vote: st.hard.voted_for,
            commit: 0,
            applied: 0,
            leader: None,
            votes: Set::empty(),
            next: Map::empty(),
            matched: Map::empty(),
            election_elapsed: 0,
            heartbeat_elapsed: 0,
            timeout: election_timeout,
            election_timeout: if election_timeout == 0 {
                1
            } else {
                election_timeout
            },
            heartbeat_timeout: if heartbeat_timeout == 0 {
                1
            } else {
                heartbeat_timeout
            },
            rng: seed | 1,
            outbox: Seq::empty(),
            pending: None,
        }).reset_timer().recompute_conf()
    }
}

/// A peer of a Raft group.
pub struct RaftNode<S: Storage> {
    id: u64,
    voters: Vec<u64>,
    learners: Vec<u64>,
    boot: Vec<u64>,
    storage: S,
    role: Role,
    term: u64,
    vote: Option<u64>,
    commit: u64,
    applied: u64,
    leader: Option<u64>,
    votes: BTreeSet<u64>,
    next: BTreeMap<u64, u64>,
    matched: BTreeMap<u64, u64>,
    election_elapsed: u32,
    heartbeat_elapsed: u32,
    timeout: u32,
    election_timeout: u32,
    heartbeat_timeout: u32,
    rng: u64,
    outbox: Vec<Message>,
    pending: Option<(u64, Vec<u8>)>,
}

/// A pending snapshot as values.
pub open spec fn pending_view(p: Option<(u64, Vec<u8>)>) -> Option<(u64, Seq<u8>)> {
    match p {
        Some((i, d)) => Some((i, d@)),
        None => None,
    }
}

impl<S: Storage> View for RaftNode<S> {
    type V = NodeView;

    closed spec fn view(&self) -> NodeView {
        NodeView {
            id: self.id,
            voters: self.voters@,
            learners: self.learners@,
            boot: self.boot@,
            st: self.storage.model(),
            role: self.role,
            term: self.term,
            vote: self.vote,
            commit: self.commit,
            applied: self.applied,
            leader: self.leader,
            votes: self.votes@,
            next: self.next@,
            matched: self.matched@,
            election_elapsed: self.election_elapsed,
            heartbeat_elapsed: self.heartbeat_elapsed,
            timeout: self.timeout,
            election_timeout: self.election_timeout,
            heartbeat_timeout: self.heartbeat_timeout,
            rng: self.rng,
            outbox: message::message_views(self.outbox@),
            pending: pending_view(self.pending),
        }
    }
}

fn lookup(m: &BTreeMap<u64, u64>, k: u64, default: u64) -> (r: u64)
    ensures
        r == value_or(m@, k, default),
{
    match m.get(&k) {
        Some(v) => *v,
        None => default,
    }
}

fn fill(ids: &Vec<u64>, more: &Vec<u64>, value: u64) -> (m: BTreeMap<u64, u64>)
    ensures
        m@ == Map::new(|k: u64| (ids@ + more@).contains(k), |k: u64| value),
{
    let mut m: BTreeMap<u64, u64> = BTreeMap::new();
    let ghost all = ids@ + more@;
    let mut i: usize = 0;
    while i < ids.len()
        invariant
            0 <= i <= ids@.len(),
            forall|k: u64| #[trigger] m@.contains_key(k) <==> ids@.take(i as int).contains(k),
            forall|k: u64| #[trigger] m@.contains_key(k) ==> m@[k] == value,
        decreases ids@.len() - i,
    {
        proof {
            lemma_take_contains(ids@, i as int);
        }
        m.insert(ids[i], value);
        i = i + 1;
    }
    assert(ids@.take(i as int) =~= ids@);
    let mut j: usize = 0;
    assert(more@.take(0) =~= Seq::<u64>::empty());
    while j < more.len()
        invariant
            0 <= j <= more@.len(),
            forall|k: u64| #[trigger]
                m@.contains_key(k) <==> (ids@.contains(k) || more@.take(j as int).contains(k)),
            forall|k: u64| #[trigger] m@.contains_key(k) ==> m@[k] == value,
        decreases more@.len() - j,
    {
        proof {
            lemma_take_contains(more@, j as int);
        }
        m.insert(more[j], value);
        j = j + 1;
    }
    assert(more@.take(j as int) =~= more@);
    proof {
        lemma_concat_contains(ids@, more@);
        assert(m@ =~= Map::new(|k: u64| all.contains(k), |k: u64| value));
    }
    m
}

proof fn lemma_take_contains(s: Seq<u64>, i: int)
    requires
        0 <= i < s.len(),
    ensures
        forall|k: u64| #[trigger]
            s.take(i + 1).contains(k) <==> (s.take(i).contains(k) || k == s[i]),
{
    assert forall|k: u64| #[trigger] s.take(i + 1).contains(k) <==> (s.take(i).contains(k) || k
        == s[i]) by {
        if s.take(i).contains(k) {
            let j = choose|j: int| 0 <= j < i && s.take(i)[j] == k;
            assert(s.take(i + 1)[j] == k);
        }
        let t = s.take(i + 1);
        if t.contains(k) {
            let j = choose|j: int| 0 <= j < t.len() && t[j] == k;
            if j < i {
                assert(s.take(i)[j] == k);
            }
        }
        assert(s.take(i + 1)[i] == s[i]);
    }
}

proof fn lemma_concat_contains(a: Seq<u64>, b: Seq<u64>)
    ensures
        forall|k: u64| #[trigger] (a + b).contains(k) <==> (a.contains(k) || b.contains(k)),
{
    assert forall|k: u64| #[trigger] (a + b).contains(k) <==> (a.contains(k) || b.contains(k)) by {
        if a.contains(k) {
            let j = choose|j: int| 0 <= j < a.len() && a[j] == k;
            assert((a + b)[j] == k);
        }
        if b.contains(k) {
            let j = choose|j: int| 0 <= j < b.len() && b[j] == k;
            assert((a + b)[a.len() + j] == k);
        }
        if (a + b).contains(k) {
            let j = choose|j: int| 0 <= j < (a + b).len() && (a + b)[j] == k;
            if j < a.len() {
                assert(a[j] == k);
            } else {
                assert(b[j - a.len()] == k);
            }
        }
    }
}

/// Positions that leave room stay so with one more.
proof fn lemma_append_wf(st: StorageView, es: Seq<EntryView>)
    requires
        st.wf(),
        message::contiguous(st.last_index(), es),
    ensures
        st.append(es).wf(),
        st.append(es).base() == st.base(),
        st.append(es).last_index() == st.last_index() + es.len(),
{
    let a = st.append(es);
    assert forall|k: int| 0 <= k < a.log.len() implies (#[trigger] a.log[k]).index == a.base() + 1
        + k by {
        if k < st.log.len() {
            assert(a.log[k] == st.log[k]);
        } else {
            assert(a.log[k] == es[k - st.log.len()]);
        }
    }
}

proof fn lemma_truncate_wf(st: StorageView, from: u64)
    requires
        st.wf(),
        st.base() < from <= st.last_index(),
    ensures
        st.truncate(from).wf(),
        st.truncate(from).base() == st.base(),
        st.truncate(from).last_index() == from - 1,
{
    let t = st.truncate(from);
    assert forall|k: int| 0 <= k < t.log.len() implies (#[trigger] t.log[k]).index == t.base() + 1
        + k by {
        assert(t.log[k] == st.log[k]);
    }
}

/// Where the first new entry stands: right behind what the store keeps.
pub proof fn lemma_first_new(st: StorageView, prev: u64, es: Seq<EntryView>, k: int)
    requires
        st.wf(),
        message::contiguous(prev, es),
        prev <= st.last_index(),
        0 <= k <= es.len(),
        k == 0 || prev + k <= st.last_index(),
    ensures
        ({
            let n = first_new(st, prev, es, k);
            &&& k <= n <= es.len()
            &&& n < es.len() ==> prev + 1 + n > st.base() && prev + 1 + n <= st.last_index() + 1
        }),
    decreases es.len() - k,
{
    if k < es.len() {
        let idx = (prev + 1 + k) as u64;
        if idx <= st.base() || (idx <= st.last_index() && st.term(idx) == Some(es[k].term)) {
            lemma_first_new(st, prev, es, k + 1);
        }
    }
}

/// What splicing leaves.
pub proof fn lemma_spliced_wf(st: StorageView, prev: u64, es: Seq<EntryView>)
    requires
        st.wf(),
        message::contiguous(prev, es),
        prev <= st.last_index(),
        first_new(st, prev, es, 0) < es.len(),
    ensures
        ({
            let k = first_new(st, prev, es, 0);
            let s = spliced(st, prev, es, k);
            &&& s.wf()
            &&& s.base() == st.base()
            &&& s.last_index() == prev + es.len()
            &&& s.hard == st.hard
            &&& message::contiguous((prev + k) as u64, es.skip(k))
        }),
{
    lemma_first_new(st, prev, es, 0);
    let k = first_new(st, prev, es, 0);
    let idx = (prev + 1 + k) as u64;
    let rest = es.skip(k);
    let kept = if idx <= st.last_index() {
        st.truncate(idx)
    } else {
        st
    };
    if idx <= st.last_index() {
        lemma_truncate_wf(st, idx);
    }
    assert forall|j: int| 0 <= j < rest.len() implies (#[trigger] rest[j]).index == prev + k + 1
        + j by {
        assert(rest[j] == es[k + j]);
    }
    lemma_append_wf(kept, rest);
}

impl<S: Storage> RaftNode<S> {
    /// Construct a node, recovering persistent state from `storage`. A restarted node always
    /// comes back as a follower (the role is volatile) but with its term, vote and log intact, so
    /// it never votes twice within a term.
    pub fn new(cfg: Config, storage: S) -> (n: Self)
        requires
            storage.model().wf(),
            cfg.election_timeout <= 0x8000_0000,
        ensures
            n@ == NodeView::start(
                cfg.id,
                cfg.voters@,
                cfg.election_timeout,
                cfg.heartbeat_timeout,
                cfg.seed,
                storage.model(),
            ),
            n@.wf(),
    {
        let hs = storage.hard_state();
        let boot: Vec<u64> = cfg.voters.clone();
        let mut node = RaftNode {
            id: cfg.id,
            voters: cfg.voters,
            learners: Vec::new(),
            boot,
            storage,
            role: Role::Follower,
            term: hs.current_term,
            vote: hs.voted_for,
            commit: 0,
            applied: 0,
            leader: None,
            votes: BTreeSet::new(),
            next: BTreeMap::new(),
            matched: BTreeMap::new(),
            election_elapsed: 0,
            heartbeat_elapsed: 0,
            timeout: cfg.election_timeout,
            election_timeout: if cfg.election_timeout == 0 {
                1
            } else {
                cfg.election_timeout
            },
            heartbeat_timeout: if cfg.heartbeat_timeout == 0 {
                1
            } else {
                cfg.heartbeat_timeout
            },
            rng: cfg.seed | 1,
            outbox: Vec::new(),
            pending: None,
        };
        assert(node@.outbox =~= Seq::<MessageView>::empty());
        assert(node@.learners =~= Seq::<u64>::empty());
        node.reset_election_timer();
        node.recompute_conf();
        node
    }

    /// This node's id.
    pub fn id(&self) -> (r: u64)
        ensures
            r == self@.id,
    {
        self.id
    }

    /// What the node currently does.
    pub fn role(&self) -> (r: Role)
        ensures
            r == self@.role,
    {
        self.role
    }

    /// Whether the node leads.
    pub fn is_leader(&self) -> (r: bool)
        ensures
            r == (self@.role == Role::Leader),
    {
        match self.role {
            Role::Leader => true,
            _ => false,
        }
    }

    /// The current term.
    pub fn current_term(&self) -> (r: u64)
        ensures
            r == self@.term,
    {
        self.term
    }

    /// The candidate voted for in the current term.
    pub fn voted_for(&self) -> (r: Option<u64>)
        ensures
            r == self@.vote,
    {
        self.vote
    }

    /// The highest index known to be committed.
    pub fn commit_index(&self) -> (r: u64)
        ensures
            r == self@.commit,
    {
        self.commit
    }

    /// The highest index handed out to be applied.
    pub fn last_applied(&self) -> (r: u64)
        ensures
            r == self@.applied,
    {
        self.applied
    }

    /// The index of the last entry.
    pub fn last_log_index(&self) -> (r: u64)
        requires
            self@.wf(),
        ensures
            r == self@.st.last_index(),
    {
        self.storage.last_index()
    }

    /// The lowest index that the log still holds: the snapshot's plus one after compaction, else
    /// 1.
    pub fn first_index(&self) -> (r: u64)
        requires
            self@.wf(),
        ensures
            r == self@.st.first_index(),
    {
        self.storage.first_index()
    }

    /// The leader that this node knows of.
    pub fn leader_id(&self) -> (r: Option<u64>)
        ensures
            r == self@.leader,
    {
        self.leader
    }

    /// The current voting members, derived from the log.
    pub fn voters(&self) -> (r: &[u64])
        ensures
            r@ == self@.voters,
    {
        self.voters.as_slice()
    }

    /// The current non-voting members, derived from the log.
    pub fn learners(&self) -> (r: &[u64])
        ensures
            r@ == self@.learners,
    {
        self.learners.as_slice()
    }

    /// The store.
    pub fn storage(&self) -> (r: &S)
        ensures
            r.model() == self@.st,
    {
        &self.storage
    }

    /// All that the log holds.
    pub fn log_entries(&self) -> (r: Vec<Entry>)
        requires
            self@.wf(),
        ensures
            message::entry_views(r@) == self@.st.entries(1, self@.st.last_index()),
    {
        self.storage.entries(1, self.storage.last_index())
    }

    /// Advance the logical clock by one tick.
    pub fn tick(&mut self)
        requires
            old(self)@.wf(),
            old(self)@.term < u64::MAX,
        ensures
            final(self)@ == old(self)@.tick(),
            final(self)@.wf(),
    {
        proof {
            lemma_tick_wf(self@);
        }
        match self.role {
            Role::Leader => {
                self.heartbeat_elapsed = self.heartbeat_elapsed.saturating_add(1);
                if self.heartbeat_elapsed >= self.heartbeat_timeout {
                    self.heartbeat_elapsed = 0;
                    self.broadcast_append();
                }
            },
            _ => {
                self.election_elapsed = self.election_elapsed.saturating_add(1);
                if self.election_elapsed >= self.timeout && members::has_id(
                    &self.voters,
                    self.id,
                ) {
                    self.start_election();
                }
            },
        }
    }

    /// Append a client command (leader only). Returns the assigned log index.
    pub fn propose(&mut self, data: Vec<u8>) -> (r: Result<u64, ProposeError>)
        requires
            old(self)@.wf(),
            old(self)@.st.last_index() < u64::MAX - 1,
        ensures
            (final(self)@, r) == old(self)@.propose(data@),
            final(self)@.wf(),
    {
        proof {
            lemma_propose_wf(self@, data@);
        }
        match self.role {
            Role::Leader => {},
            _ => {
                return Err(ProposeError::NotLeader);
            },
        }
        let ghost before = self@;
        let index: u64 = self.storage.last_index() + 1;
        let entry = Entry::normal(self.term, index, data);
        self.append_one(entry);
        self.matched.insert(self.id, index);
        self.next.insert(self.id, index + 1);
        self.maybe_advance_commit();
        self.broadcast_append();
        Ok(index)
    }

    /// Append a single-server membership change (leader only). The change takes effect on
    /// **append**, and commits under the new majority. Returns the entry's log index.
    pub fn propose_conf_change(&mut self, cc: ConfChange) -> (r: Result<u64, ProposeError>)
        requires
            old(self)@.wf(),
            old(self)@.st.last_index() < u64::MAX - 1,
        ensures
            (final(self)@, r) == old(self)@.propose_conf(cc),
            final(self)@.wf(),
    {
        proof {
            lemma_propose_conf_wf(self@, cc);
        }
        match self.role {
            Role::Leader => {},
            _ => {
                return Err(ProposeError::NotLeader);
            },
        }
        if self.has_pending_conf_change() {
            return Err(ProposeError::ConfChangeInProgress);
        }
        match cc {
            ConfChange::RemoveNode(id) => {
                if id == self.id {
                    return Err(ProposeError::CannotRemoveLeader);
                }
            },
            _ => {},
        }
        let fresh: bool = match cc {
            ConfChange::AddNode(id) => !members::has_id(&self.learners, id),
            ConfChange::RemoveNode(_) => false,
            ConfChange::AddLearner(id) => !members::has_id(&self.voters, id) && !members::has_id(
                &self.learners,
                id,
            ),
        };
        let (vs, ls) = members::apply_conf_change(&self.voters, &self.learners, cc);
        let vs = members::sort_ids(&vs);
        let ls = members::sort_ids(&ls);
        let index: u64 = self.storage.last_index() + 1;
        let entry = Entry {
            term: self.term,
            index,
            entry_type: EntryType::ConfChange,
            data: cc.encode(vs.as_slice(), ls.as_slice()),
        };
        let ghost e = entry@;
        let ghost before = self@;
        proof {
            let m = before.members().change(cc).sorted();
            assert(m =~= MembersView { voters: vs@, learners: ls@ });
        }
        self.append_one(entry);
        self.matched.insert(self.id, index);
        self.next.insert(self.id, index + 1);
        assert(self@ =~= (NodeView { st: before.st.append(seq![e]), ..before }).own_progress(
            index,
        ));
        self.recompute_conf();
        if fresh {
            self.next.insert(cc.node_id(), 1);
            self.matched.insert(cc.node_id(), 0);
        }
        self.maybe_advance_commit();
        self.broadcast_append();
        Ok(index)
    }

    /// Process one inbound message.
    pub fn step(&mut self, msg: Message)
        requires
            old(self)@.wf(),
            old(self)@.term < u64::MAX || msg.body !is TimeoutNow,
            msg@.well_formed(),
        ensures
            final(self)@ == old(self)@.step(msg@),
            final(self)@.wf(),
    {
        proof {
            lemma_step_wf(self@, msg@);
            lemma_adopt(self@, msg@);
        }
        let from: u64 = msg.from;
        let term: u64 = msg.term;
        if term > self.term {
            let leader = match &msg.body {
                MessageBody::AppendEntries { .. } => Some(from),
                MessageBody::InstallSnapshot { .. } => Some(from),
                _ => None,
            };
            self.become_follower(term, leader);
        }
        match msg.body {
            MessageBody::RequestVote { last_log_index, last_log_term } => {
                self.handle_request_vote(from, term, last_log_index, last_log_term);
            },
            MessageBody::RequestVoteResp { granted } => {
                self.handle_request_vote_resp(from, term, granted);
            },
            MessageBody::AppendEntries {
                prev_log_index,
                prev_log_term,
                entries,
                leader_commit,
            } => {
                self.handle_append_entries(
                    from,
                    term,
                    prev_log_index,
                    prev_log_term,
                    entries,
                    leader_commit,
                );
            },
            MessageBody::AppendEntriesResp { success, match_index } => {
                self.handle_append_resp(from, term, success, match_index);
            },
            MessageBody::InstallSnapshot {
                last_included_index,
                last_included_term,
                conf_state,
                learners,
                data,
            } => {
                self.handle_install_snapshot(
                    from,
                    term,
                    Snapshot {
                        last_included_index,
                        last_included_term,
                        conf_state,
                        learners,
                        data,
                    },
                );
            },
            MessageBody::InstallSnapshotResp { match_index } => {
                self.handle_install_snapshot_resp(from, term, match_index);
            },
            MessageBody::TimeoutNow => {
                self.handle_timeout_now(term);
            },
        }
    }

    /// Take the queued outbound messages.
    pub fn take_messages(&mut self) -> (r: Vec<Message>)
        requires
            old(self)@.wf(),
        ensures
            message::message_views(r@) == old(self)@.outbox,
            final(self)@ == (NodeView { outbox: Seq::empty(), ..old(self)@ }),
            final(self)@.wf(),
    {
        let ghost before = self@;
        let mut out: Vec<Message> = Vec::new();
        core::mem::swap(&mut out, &mut self.outbox);
        assert(self@.outbox =~= Seq::<MessageView>::empty());
        assert(self@.conf_at(self@.st.last_index()) == before.conf_at(before.st.last_index()));
        out
    }

    /// Take entries that have become committed since the last call, advancing `last_applied`. The
    /// caller must apply them to the state machine in order.
    pub fn take_committed(&mut self) -> (r: Vec<Entry>)
        requires
            old(self)@.wf(),
        ensures
            message::entry_views(r@) == old(self)@.committed(),
            final(self)@ == (NodeView {
                applied: larger(old(self)@.applied, old(self)@.commit),
                ..old(self)@
            }),
            final(self)@.wf(),
    {
        let ghost before = self@;
        if self.commit <= self.applied {
            let none: Vec<Entry> = Vec::new();
            assert(message::entry_views(none@) =~= Seq::<EntryView>::empty());
            return none;
        }
        let entries = self.storage.entries(self.applied + 1, self.commit);
        self.applied = self.commit;
        assert(self@.conf_at(self@.st.last_index()) == before.conf_at(before.st.last_index()));
        entries
    }

    /// Take a just-installed snapshot `(last_included_index, data)`, if one arrived from the
    /// leader since the last call. The caller **loads it into the state machine**: drain this
    /// *before* [`RaftNode::take_committed`].
    pub fn take_snapshot(&mut self) -> (r: Option<(u64, Vec<u8>)>)
        requires
            old(self)@.wf(),
        ensures
            pending_view(r) == old(self)@.pending,
            final(self)@ == (NodeView { pending: None, ..old(self)@ }),
            final(self)@.wf(),
    {
        let ghost before = self@;
        let r = self.pending.take();
        assert(self@.conf_at(self@.st.last_index()) == before.conf_at(before.st.last_index()));
        r
    }

    /// Compact the log: record a snapshot of state through `index` (which the caller has already
    /// captured and applied) and discard entries at or below it. A no-op if already compacted
    /// past `index`, or where `index` was not applied.
    pub fn compact(&mut self, index: u64, data: Vec<u8>)
        requires
            old(self)@.wf(),
            old(self)@.st.base() < index <= old(self)@.applied ==> index <= old(
                self,
            )@.st.last_index(),
        ensures
            final(self)@ == old(self)@.compacted(index, data@),
            final(self)@.wf(),
    {
        let base: u64 = self.storage.first_index() - 1;
        if index <= base || index > self.applied {
            return ;
        }
        let ghost before = self@;
        match self.storage.term(index) {
            Some(term) => {
                let (vs, ls) = self.conf_at(index);
                self.storage.compact(index, term, vs, ls, data);
                assert(self@ =~= before.compacted(index, data@));
                proof {
                    lemma_compacted_wf(before, index, data@);
                }
            },
            None => {},
        }
    }

    /// Whether there is outbound work or newly committed or snapshot state to drain.
    pub fn has_ready(&self) -> (r: bool)
        ensures
            r == (self@.outbox.len() > 0 || self@.commit > self@.applied || self@.pending is Some),
    {
        self.outbox.len() > 0 || self.commit > self.applied || self.pending.is_some()
    }

    fn append_one(&mut self, entry: Entry)
        requires
            old(self)@.st.wf(),
            entry@.index == old(self)@.st.last_index() + 1,
            entry@.index < u64::MAX,
        ensures
            final(self)@ == (NodeView { st: old(self)@.st.append(seq![entry@]), ..old(self)@ }),
    {
        let ghost before = self@;
        let ghost e = entry@;
        let mut one: Vec<Entry> = Vec::new();
        one.push(entry);
        assert(message::entry_views(one@) =~= seq![e]);
        self.storage.append(one.as_slice());
        assert(self@ =~= NodeView { st: before.st.append(seq![e]), ..before });
    }

    fn start_election(&mut self)
        requires
            old(self)@.st.wf(),
            old(self)@.timers_ok(),
            old(self)@.term < u64::MAX,
        ensures
            final(self)@ == old(self)@.start_election(),
    {
        self.role = Role::Candidate;
        self.term = self.term + 1;
        self.vote = Some(self.id);
        self.persist_hard_state();
        self.leader = None;
        self.votes.clear();
        self.votes.insert(self.id);
        assert(self.votes@ =~= set![self.id]);
        self.reset_election_timer();
        if 1 >= self.majority() {
            self.become_leader();
            return ;
        }
        let ghost w = self@;
        let last_log_index: u64 = self.storage.last_index();
        let last_log_term: u64 = self.last_log_term();
        let peers = members::drop_id(&self.voters, self.id);
        let mut i: usize = 0;
        assert(peers@.take(0) =~= Seq::<u64>::empty());
        while i < peers.len()
            invariant
                0 <= i <= peers@.len(),
                self@ == w.ask_votes(peers@.take(i as int)),
                last_log_index == w.st.last_index(),
                last_log_term == w.last_log_term(),
            decreases peers@.len() - i,
        {
            assert(peers@.take(i + 1).drop_last() =~= peers@.take(i as int));
            self.send(
                peers[i],
                MessageBody::RequestVote { last_log_index, last_log_term },
            );
            i = i + 1;
        }
        assert(peers@.take(i as int) =~= peers@);
    }

    fn become_leader(&mut self)
        requires
            old(self)@.st.wf(),
        ensures
            final(self)@ == old(self)@.become_leader(),
    {
        let ghost before = self@;
        self.role = Role::Leader;
        self.leader = Some(self.id);
        let last: u64 = self.storage.last_index();
        self.next = fill(&self.voters, &self.learners, last + 1);
        self.matched = fill(&self.voters, &self.learners, 0);
        self.matched.insert(self.id, last);
        self.heartbeat_elapsed = 0;
        proof {
            let all = before.voters + before.learners;
            assert(self@.next =~= Map::new(|k: u64| all.contains(k), |k: u64| (last + 1) as u64));
        }
        self.broadcast_append();
    }

    fn become_follower(&mut self, term: u64, leader: Option<u64>)
        requires
            old(self)@.timers_ok(),
        ensures
            final(self)@ == old(self)@.become_follower(term, leader),
    {
        if term > self.term {
            self.term = term;
            self.vote = None;
            self.persist_hard_state();
        }
        self.role = Role::Follower;
        self.leader = leader;
        self.reset_election_timer();
    }

    fn handle_request_vote(&mut self, from: u64, term: u64, cand_last_index: u64, cand_last_term: u64)
        requires
            old(self)@.st.wf(),
            old(self)@.timers_ok(),
        ensures
            final(self)@ == old(self)@.on_request_vote(
                from,
                term,
                cand_last_index,
                cand_last_term,
            ),
    {
        let mut granted: bool = false;
        if term >= self.term {
            let last_term: u64 = self.last_log_term();
            let log_ok: bool = cand_last_term > last_term || (cand_last_term == last_term
                && cand_last_index >= self.storage.last_index());
            let can_vote: bool = match self.vote {
                None => true,
                Some(v) => v == from,
            };
            if can_vote && log_ok {
                granted = true;
                self.vote = Some(from);
                self.persist_hard_state();
                self.reset_election_timer();
            }
        }
        self.send(from, MessageBody::RequestVoteResp { granted });
    }

    fn handle_request_vote_resp(&mut self, from: u64, term: u64, granted: bool)
        requires
            old(self)@.st.wf(),
        ensures
            final(self)@ == old(self)@.on_vote(from, term, granted),
    {
        match self.role {
            Role::Candidate => {},
            _ => {
                return ;
            },
        }
        if term != self.term {
            return ;
        }
        if granted {
            self.votes.insert(from);
            if self.votes.len() >= self.majority() {
                self.become_leader();
            }
        }
    }

    fn handle_append_entries(
        &mut self,
        from: u64,
        term: u64,
        prev_log_index: u64,
        prev_log_term: u64,
        entries: Vec<Entry>,
        leader_commit: u64,
    )
        requires
            old(self)@.st.wf(),
            old(self)@.timers_ok(),
            message::contiguous(prev_log_index, message::entry_views(entries@)),
        ensures
            final(self)@ == old(self)@.on_append(
                from,
                term,
                prev_log_index,
                prev_log_term,
                message::entry_views(entries@),
                leader_commit,
            ),
    {
        let ghost es = message::entry_views(entries@);
        if term < self.term {
            self.send(from, MessageBody::AppendEntriesResp { success: false, match_index: 0 });
            return ;
        }
        self.role = Role::Follower;
        self.leader = Some(from);
        self.reset_election_timer();
        let ghost v = self@;
        let base: u64 = self.storage.first_index() - 1;
        let last_new: u64 = prev_log_index + entries.len() as u64;
        if last_new <= base {
            self.send(from, MessageBody::AppendEntriesResp { success: true, match_index: base });
            return ;
        }
        if prev_log_index >= base {
            let matches: bool = match self.storage.term(prev_log_index) {
                Some(t) => t == prev_log_term,
                None => false,
            };
            if !matches {
                self.send(
                    from,
                    MessageBody::AppendEntriesResp { success: false, match_index: 0 },
                );
                return ;
            }
        }
        let k: usize = self.find_new(prev_log_index, &entries);
        if k < entries.len() {
            self.splice(prev_log_index, &entries, k);
            self.recompute_conf();
        }
        if leader_commit > self.commit {
            self.commit = if leader_commit < last_new {
                leader_commit
            } else {
                last_new
            };
        }
        self.send(from, MessageBody::AppendEntriesResp { success: true, match_index: last_new });
    }

    /// The position of the first entry that the store does not hold yet.
    fn find_new(&self, prev: u64, entries: &Vec<Entry>) -> (k: usize)
        requires
            self@.st.wf(),
            message::contiguous(prev, message::entry_views(entries@)),
        ensures
            k == first_new(self@.st, prev, message::entry_views(entries@), 0),
    {
        let ghost es = message::entry_views(entries@);
        let base: u64 = self.storage.first_index() - 1;
        let last: u64 = self.storage.last_index();
        let mut k: usize = 0;
        while k < entries.len()
            invariant
                0 <= k <= entries@.len(),
                es == message::entry_views(entries@),
                self@.st.wf(),
                message::contiguous(prev, es),
                base == self@.st.base(),
                last == self@.st.last_index(),
                first_new(self@.st, prev, es, 0) == first_new(self@.st, prev, es, k as int),
            decreases entries@.len() - k,
        {
            let idx: u64 = prev + 1 + k as u64;
            assert(es[k as int] == entries@[k as int]@);
            if idx > base {
                if idx > last {
                    return k;
                }
                match self.storage.term(idx) {
                    Some(t) => {
                        if t != entries[k].term {
                            return k;
                        }
                    },
                    None => {
                        return k;
                    },
                }
            }
            k = k + 1;
        }
        k
    }

    /// Put the entries from the `k`-th on in place of whatever the store holds there.
    fn splice(&mut self, prev: u64, entries: &Vec<Entry>, k: usize)
        requires
            old(self)@.st.wf(),
            message::contiguous(prev, message::entry_views(entries@)),
            prev <= old(self)@.st.last_index() || prev < old(self)@.st.base(),
            k == first_new(old(self)@.st, prev, message::entry_views(entries@), 0),
            k < entries@.len(),
        ensures
            final(self)@ == (NodeView {
                st: spliced(old(self)@.st, prev, message::entry_views(entries@), k as int),
                ..old(self)@
            }),
            final(self)@.st.wf(),
    {
        let ghost before = self@;
        let ghost es = message::entry_views(entries@);
        proof {
            lemma_first_new(self@.st, prev, es, 0);
            lemma_spliced_wf(self@.st, prev, es);
        }
        let idx: u64 = prev + 1 + k as u64;
        if idx <= self.storage.last_index() {
            proof {
                lemma_truncate_wf(self@.st, idx);
            }
            self.storage.truncate_suffix(idx);
        }
        let rest = message::dup_entries(entries.as_slice(), k, entries.len());
        assert(message::entry_views(rest@) =~= es.skip(k as int));
        self.storage.append(rest.as_slice());
        assert(self@ =~= NodeView { st: spliced(before.st, prev, es, k as int), ..before });
    }

    fn handle_append_resp(&mut self, from: u64, term: u64, success: bool, match_index: u64)
        requires
            old(self)@.st.wf(),
            old(self)@.progress_ok(),
            match_index < u64::MAX,
        ensures
            final(self)@ == old(self)@.on_append_resp(from, term, success, match_index),
    {
        match self.role {
            Role::Leader => {},
            _ => {
                return ;
            },
        }
        if term != self.term {
            return ;
        }
        if success {
            self.raise(from, match_index);
            self.maybe_advance_commit();
        } else {
            let next: u64 = lookup(&self.next, from, 1);
            let back: u64 = if next <= 2 {
                1
            } else {
                next - 1
            };
            self.next.insert(from, back);
            self.send_append(from);
        }
    }

    fn raise(&mut self, from: u64, match_index: u64)
        requires
            old(self)@.progress_ok(),
            match_index < u64::MAX,
        ensures
            final(self)@ == old(self)@.raise(from, match_index),
    {
        let prev: u64 = lookup(&self.matched, from, 0);
        let m: u64 = if match_index > prev {
            match_index
        } else {
            prev
        };
        self.matched.insert(from, m);
        self.next.insert(from, m + 1);
    }

    /// Install a snapshot that the leader sent because it had compacted the entries this node
    /// still needed, and keep the data for [`RaftNode::take_snapshot`].
    fn handle_install_snapshot(&mut self, from: u64, term: u64, snap: Snapshot)
        requires
            old(self)@.st.wf(),
            old(self)@.timers_ok(),
            snap@.last_included_index < u64::MAX,
        ensures
            final(self)@ == old(self)@.on_snapshot(from, term, snap@),
    {
        if term < self.term {
            self.send(from, MessageBody::InstallSnapshotResp { match_index: 0 });
            return ;
        }
        self.role = Role::Follower;
        self.leader = Some(from);
        self.reset_election_timer();
        let index: u64 = snap.last_included_index;
        if index <= self.commit {
            self.send(from, MessageBody::InstallSnapshotResp { match_index: self.commit });
            return ;
        }
        let data = crate::bytes::copy(snap.data.as_slice());
        self.storage.apply_snapshot(snap);
        self.commit = index;
        self.applied = index;
        self.pending = Some((index, data));
        self.recompute_conf();
        self.send(from, MessageBody::InstallSnapshotResp { match_index: index });
    }

    fn handle_install_snapshot_resp(&mut self, from: u64, term: u64, match_index: u64)
        requires
            old(self)@.st.wf(),
            old(self)@.progress_ok(),
            match_index < u64::MAX,
        ensures
            final(self)@ == old(self)@.on_snapshot_resp(from, term, match_index),
    {
        match self.role {
            Role::Leader => {},
            _ => {
                return ;
            },
        }
        if term != self.term {
            return ;
        }
        self.raise(from, match_index);
        self.maybe_advance_commit();
    }

    fn handle_timeout_now(&mut self, term: u64)
        requires
            old(self)@.st.wf(),
            old(self)@.timers_ok(),
            old(self)@.term < u64::MAX,
        ensures
            final(self)@ == old(self)@.on_timeout_now(term),
    {
        if term == self.term && !self.is_leader() && members::has_id(&self.voters, self.id) {
            self.start_election();
        }
    }

    /// Advance the commit index to the highest index that a majority holds **and** whose entry is
    /// of the current term: a leader only commits entries from earlier terms indirectly, by
    /// committing one of its own.
    fn maybe_advance_commit(&mut self)
        requires
            old(self)@.st.wf(),
        ensures
            final(self)@ == old(self)@.advance_commit(),
    {
        let majority: usize = self.majority();
        let last: u64 = self.storage.last_index();
        let mut n: u64 = last;
        while n > self.commit
            invariant
                self@ == old(self)@,
                self@.st.wf(),
                majority == self@.majority(),
                last == self@.st.last_index(),
                self@.committable(last) == self@.committable(n),
            decreases n,
        {
            let of_term: bool = match self.storage.term(n) {
                Some(t) => t == self.term,
                None => false,
            };
            if of_term && self.count_acks(n) >= majority {
                self.commit = n;
                return ;
            }
            n = n - 1;
        }
        assert(self@ =~= old(self)@.advance_commit());
    }

    fn count_acks(&self, n: u64) -> (r: usize)
        ensures
            r == acks(self@.voters, self@.matched, n),
    {
        let mut count: usize = 0;
        let mut i: usize = 0;
        assert(self.voters@.take(0) =~= Seq::<u64>::empty());
        while i < self.voters.len()
            invariant
                0 <= i <= self.voters@.len(),
                count <= i,
                count == acks(self.voters@.take(i as int), self.matched@, n),
            decreases self.voters@.len() - i,
        {
            assert(self.voters@.take(i + 1).drop_last() =~= self.voters@.take(i as int));
            if lookup(&self.matched, self.voters[i], 0) >= n {
                count = count + 1;
            }
            i = i + 1;
        }
        assert(self.voters@.take(i as int) =~= self.voters@);
        count
    }

    fn broadcast_append(&mut self)
        requires
            old(self)@.st.wf(),
        ensures
            final(self)@ == old(self)@.broadcast_append(),
    {
        let ghost start = self@;
        let mut all: Vec<u64> = self.voters.clone();
        let mut more: Vec<u64> = self.learners.clone();
        all.append(&mut more);
        let targets = members::drop_id(&all, self.id);
        let mut i: usize = 0;
        assert(targets@.take(0) =~= Seq::<u64>::empty());
        assert(targets@ == start.targets());
        while i < targets.len()
            invariant
                0 <= i <= targets@.len(),
                start.st.wf(),
                self@ == start.send_appends(targets@.take(i as int)),
                self@.st == start.st,
            decreases targets@.len() - i,
        {
            assert(targets@.take(i + 1).drop_last() =~= targets@.take(i as int));
            self.send_append(targets[i]);
            i = i + 1;
        }
        assert(targets@.take(i as int) =~= targets@);
    }

    fn send_append(&mut self, to: u64)
        requires
            old(self)@.st.wf(),
        ensures
            final(self)@ == old(self)@.send_append(to),
            final(self)@.st == old(self)@.st,
    {
        let last: u64 = self.storage.last_index();
        let next: u64 = lookup(&self.next, to, last + 1);
        if next < self.storage.first_index() {
            self.send_snapshot(to);
            return ;
        }
        let prev: u64 = if next == 0 {
            0
        } else {
            next - 1
        };
        let prev_log_term: u64 = match self.storage.term(prev) {
            Some(t) => t,
            None => 0,
        };
        let entries = self.storage.entries(next, last);
        self.send(
            to,
            MessageBody::AppendEntries {
                prev_log_index: prev,
                prev_log_term,
                entries,
                leader_commit: self.commit,
            },
        );
    }

    fn send_snapshot(&mut self, to: u64)
        ensures
            final(self)@ == old(self)@.send_snapshot(to),
            final(self)@.st == old(self)@.st,
    {
        match self.storage.snapshot() {
            None => {},
            Some(s) => {
                self.send(
                    to,
                    MessageBody::InstallSnapshot {
                        last_included_index: s.last_included_index,
                        last_included_term: s.last_included_term,
                        conf_state: s.conf_state,
                        learners: s.learners,
                        data: s.data,
                    },
                );
            },
        }
    }

    fn send(&mut self, to: u64, body: MessageBody)
        ensures
            final(self)@ == old(self)@.send(to, body@),
    {
        let ghost before = self@;
        let m = Message { from: self.id, to, term: self.term, body };
        self.outbox.push(m);
        assert(self@.outbox =~= before.outbox.push(m@));
    }

    fn persist_hard_state(&mut self)
        ensures
            final(self)@ == old(self)@.persist(),
    {
        self.storage.save_hard_state(
            HardState { current_term: self.term, voted_for: self.vote },
        );
    }

    fn majority(&self) -> (r: usize)
        ensures
            r == self@.majority(),
    {
        self.voters.len() / 2 + 1
    }

    /// Whether an uncommitted configuration entry is in the live log.
    fn has_pending_conf_change(&self) -> (r: bool)
        requires
            self@.st.wf(),
            self@.commit < u64::MAX,
        ensures
            r == self@.pending_conf(),
    {
        let c: u64 = self.commit + 1;
        let f: u64 = self.storage.first_index();
        let lo: u64 = if c > f {
            c
        } else {
            f
        };
        let es = self.storage.entries(lo, self.storage.last_index());
        let ghost vs = message::entry_views(es@);
        let mut i: usize = 0;
        while i < es.len()
            invariant
                0 <= i <= es@.len(),
                vs == message::entry_views(es@),
                vs == self@.st.entries(lo, self@.st.last_index()),
                lo == larger((self@.commit + 1) as u64, self@.st.first_index()),
                forall|j: int| 0 <= j < i ==> (#[trigger] vs[j]).kind != EntryType::ConfChange,
            decreases es@.len() - i,
        {
            match es[i].entry_type {
                EntryType::ConfChange => {
                    assert(vs[i as int].kind == EntryType::ConfChange);
                    return true;
                },
                EntryType::Normal => {},
            }
            i = i + 1;
        }
        false
    }

    /// The members as of `index`.
    fn conf_at(&self, index: u64) -> (r: (Vec<u64>, Vec<u64>))
        requires
            self@.st.wf(),
        ensures
            self@.conf_at(index) == (MembersView { voters: r.0@, learners: r.1@ }),
    {
        let mut vs: Vec<u64> = self.boot.clone();
        let mut ls: Vec<u64> = Vec::new();
        match self.storage.snapshot() {
            Some(s) => {
                vs = s.conf_state;
                ls = s.learners;
            },
            None => {},
        }
        let es = self.storage.entries(self.storage.first_index(), index);
        let ghost all = message::entry_views(es@);
        let ghost base = self@.base_members();
        let mut i: usize = 0;
        proof {
            assert(all.take(0) =~= Seq::<EntryView>::empty());
            assert(base =~= MembersView { voters: vs@, learners: ls@ });
        }
        while i < es.len()
            invariant
                0 <= i <= es@.len(),
                all == message::entry_views(es@),
                last_conf(all.take(i as int), base) == (MembersView {
                    voters: vs@,
                    learners: ls@,
                }),
            decreases es@.len() - i,
        {
            proof {
                assert(all.take(i + 1).drop_last() =~= all.take(i as int));
                assert(all.take(i + 1).last() == es@[i as int]@);
            }
            match es[i].entry_type {
                EntryType::ConfChange => match ConfChange::decode(es[i].data.as_slice()) {
                    Some((_, v, l)) => {
                        vs = v;
                        ls = l;
                    },
                    None => {},
                },
                EntryType::Normal => {},
            }
            i = i + 1;
        }
        assert(all.take(i as int) =~= all);
        (members::sort_ids(&vs), members::sort_ids(&ls))
    }

    /// Derive the members from durable state anew after any log mutation. A leader that finds
    /// itself removed from the group steps down.
    fn recompute_conf(&mut self)
        requires
            old(self)@.st.wf(),
            old(self)@.timers_ok(),
        ensures
            final(self)@ == old(self)@.recompute_conf(),
    {
        let (vs, ls) = self.conf_at(self.storage.last_index());
        self.voters = vs;
        self.learners = ls;
        if self.is_leader() && !members::has_id(&self.voters, self.id) {
            self.become_follower(self.term, None);
        }
    }

    fn last_log_term(&self) -> (t: u64)
        requires
            self@.st.wf(),
        ensures
            t == self@.last_log_term(),
    {
        match self.storage.term(self.storage.last_index()) {
            Some(t) => t,
            None => 0,
        }
    }

    fn reset_election_timer(&mut self)
        requires
            old(self)@.timers_ok(),
        ensures
            final(self)@ == old(self)@.reset_timer(),
    {
        self.election_elapsed = 0;
        let mut x: u64 = self.rng;
        x = x ^ (x << 13u64);
        x = x ^ (x >> 7u64);
        x = x ^ (x << 17u64);
        self.rng = x;
        let span: u32 = self.election_timeout;
        let r: u64 = x % span as u64;
        self.timeout = span + r as u32;
    }
}

/// Sending touches nothing but the outbox.
pub proof fn lemma_send_appends(v: NodeView, ids: Seq<u64>)
    ensures
        v.send_appends(ids) == (NodeView { outbox: v.send_appends(ids).outbox, ..v }),
    decreases ids.len(),
{
    if ids.len() > 0 {
        lemma_send_appends(v, ids.drop_last());
    }
}

/// Asking for votes touches nothing but the outbox.
pub proof fn lemma_ask_votes(v: NodeView, ids: Seq<u64>)
    ensures
        v.ask_votes(ids) == (NodeView { outbox: v.ask_votes(ids).outbox, ..v }),
    decreases ids.len(),
{
    if ids.len() > 0 {
        lemma_ask_votes(v, ids.drop_last());
    }
}

/// The members depend on the store and the initial voters alone.
pub proof fn lemma_conf_same(a: NodeView, b: NodeView, index: u64)
    requires
        a.st.log == b.st.log,
        a.st.snap == b.st.snap,
        a.boot == b.boot,
    ensures
        a.conf_at(index) == b.conf_at(index),
{
}

pub proof fn lemma_leader_wf(v: NodeView)
    requires
        v.wf(),
    ensures
        v.become_leader().wf(),
        v.become_leader().term == v.term,
        v.become_leader().st == v.st,
{
    let last = v.st.last_index();
    let all = v.voters + v.learners;
    let w = NodeView {
        role: Role::Leader,
        leader: Some(v.id),
        next: Map::new(|k: u64| all.contains(k), |k: u64| (last + 1) as u64),
        matched: Map::new(|k: u64| all.contains(k), |k: u64| 0u64).insert(v.id, last),
        heartbeat_elapsed: 0,
        ..v
    };
    lemma_send_appends(w, w.targets());
    lemma_conf_same(w.broadcast_append(), v, last);
}

pub proof fn lemma_election_wf(v: NodeView)
    requires
        v.wf(),
        v.term < u64::MAX,
    ensures
        v.start_election().wf(),
{
    let a = (NodeView {
        role: Role::Candidate,
        term: (v.term + 1) as u64,
        vote: Some(v.id),
        ..v
    }).persist();
    let w = (NodeView { leader: None, votes: set![v.id], ..a }).reset_timer();
    lemma_conf_same(w, v, v.st.last_index());
    assert(w.wf());
    lemma_leader_wf(w);
    lemma_ask_votes(w, w.peers());
    lemma_conf_same(w.ask_votes(w.peers()), v, v.st.last_index());
}

pub proof fn lemma_tick_wf(v: NodeView)
    requires
        v.wf(),
        v.term < u64::MAX,
    ensures
        v.tick().wf(),
{
    let i = v.st.last_index();
    match v.role {
        Role::Leader => {
            let w = NodeView { heartbeat_elapsed: 0, ..v };
            lemma_send_appends(w, w.targets());
            lemma_conf_same(w.broadcast_append(), v, i);
            lemma_conf_same(
                NodeView { heartbeat_elapsed: bump(v.heartbeat_elapsed), ..v },
                v,
                i,
            );
        },
        _ => {
            let w = NodeView { election_elapsed: bump(v.election_elapsed), ..v };
            lemma_conf_same(w, v, i);
            lemma_election_wf(w);
        },
    }
}

pub proof fn lemma_follower_wf(v: NodeView, term: u64, leader: Option<u64>)
    requires
        v.wf(),
    ensures
        v.become_follower(term, leader).wf(),
        v.become_follower(term, leader).term == larger(term, v.term),
        v.become_follower(term, leader).st.log == v.st.log,
        v.become_follower(term, leader).st.snap == v.st.snap,
{
    let w = v.become_follower(term, leader);
    lemma_conf_same(w, v, v.st.last_index());
}

pub proof fn lemma_adopt(v: NodeView, m: MessageView)
    requires
        v.wf(),
        m.well_formed(),
    ensures
        v.adopt(m).wf(),
        v.adopt(m).term == larger(m.term, v.term),
        v.term < u64::MAX && m.term < u64::MAX ==> v.adopt(m).term < u64::MAX,
{
    if m.term > v.term {
        lemma_follower_wf(v, m.term, None);
        lemma_follower_wf(v, m.term, Some(m.from));
    }
}

/// What deriving the members anew leaves, apart from the members: the same node, or the same node
/// stepped down.
pub proof fn lemma_recompute_wf(v: NodeView)
    requires
        v.st.wf(),
        v.st.hard == (HardState { current_term: v.term, voted_for: v.vote }),
        v.commit < u64::MAX,
        v.applied < u64::MAX,
        v.timers_ok(),
        v.progress_ok(),
    ensures
        v.recompute_conf().wf(),
        v.recompute_conf().st == v.st,
        v.recompute_conf().term == v.term,
        v.recompute_conf().id == v.id,
        v.recompute_conf().outbox == v.outbox,
        v.recompute_conf().next == v.next,
        v.recompute_conf().matched == v.matched,
        v.recompute_conf().commit == v.commit,
        v.recompute_conf().boot == v.boot,
{
    let m = v.conf_at(v.st.last_index());
    let w = NodeView { voters: m.voters, learners: m.learners, ..v };
    lemma_conf_same(w, v, v.st.last_index());
    assert(w.members() =~= m);
    assert(w.wf());
    lemma_follower_wf(w, w.term, None);
}

pub proof fn lemma_commit_bound(v: NodeView, n: u64)
    ensures
        v.commit <= v.committable(n),
        v.committable(n) <= larger(v.commit, n),
    decreases n,
{
    if n > v.commit {
        lemma_commit_bound(v, (n - 1) as u64);
    }
}

pub proof fn lemma_advance_wf(v: NodeView)
    requires
        v.wf(),
    ensures
        v.advance_commit().wf(),
{
    lemma_commit_bound(v, v.st.last_index());
    lemma_conf_same(v.advance_commit(), v, v.st.last_index());
}

pub proof fn lemma_broadcast_wf(v: NodeView)
    requires
        v.wf(),
    ensures
        v.broadcast_append().wf(),
{
    lemma_send_appends(v, v.targets());
    lemma_conf_same(v.broadcast_append(), v, v.st.last_index());
}

/// An entry that carries no membership leaves the members as they are.
proof fn lemma_normal_entry(v: NodeView, e: EntryView)
    requires
        v.st.wf(),
        e.index == v.st.last_index() + 1,
        e.index < u64::MAX,
        e.kind == EntryType::Normal,
    ensures
        ({
            let w = NodeView { st: v.st.append(seq![e]), ..v };
            w.conf_at(w.st.last_index()) == v.conf_at(v.st.last_index())
        }),
{
    let w = NodeView { st: v.st.append(seq![e]), ..v };
    lemma_one_more(v.st, e);
    let a = v.st.entries(v.st.first_index(), v.st.last_index());
    let b = w.st.entries(w.st.first_index(), w.st.last_index());
    assert(b.drop_last() =~= a);
    assert(b.last() == e);
}

/// The whole log, before and after one more entry.
pub proof fn lemma_one_more(st: StorageView, e: EntryView)
    requires
        st.wf(),
        e.index == st.last_index() + 1,
        e.index < u64::MAX,
    ensures
        st.append(seq![e]).wf(),
        st.append(seq![e]).last_index() == st.last_index() + 1,
        st.entries(st.first_index(), st.last_index()) == st.log,
        st.append(seq![e]).entries(
            st.append(seq![e]).first_index(),
            st.append(seq![e]).last_index(),
        ) == st.log.push(e),
{
    lemma_append_wf(st, seq![e]);
    assert(st.entries(st.first_index(), st.last_index()) =~= st.log);
    let a = st.append(seq![e]);
    assert(a.log =~= st.log.push(e));
    assert(a.entries(a.first_index(), a.last_index()) =~= a.log);
}

pub proof fn lemma_propose_wf(v: NodeView, data: Seq<u8>)
    requires
        v.wf(),
        v.st.last_index() < u64::MAX - 1,
    ensures
        v.propose(data).0.wf(),
{
    if v.role == Role::Leader {
        let index = (v.st.last_index() + 1) as u64;
        let e = EntryView { term: v.term, index, kind: EntryType::Normal, data };
        lemma_one_more(v.st, e);
        lemma_normal_entry(v, e);
        let a = NodeView { st: v.st.append(seq![e]), ..v };
        let b = a.own_progress(index);
        lemma_conf_same(b, a, a.st.last_index());
        assert(b.wf());
        lemma_advance_wf(b);
        lemma_broadcast_wf(b.advance_commit());
    }
}

proof fn lemma_propose_conf_wf(v: NodeView, cc: ConfChange)
    requires
        v.wf(),
        v.st.last_index() < u64::MAX - 1,
    ensures
        v.propose_conf(cc).0.wf(),
{
    if v.role == Role::Leader && !v.pending_conf() && cc != ConfChange::RemoveNode(v.id) {
        let m = v.members().change(cc).sorted();
        let index = (v.st.last_index() + 1) as u64;
        let e = EntryView {
            term: v.term,
            index,
            kind: EntryType::ConfChange,
            data: message::conf_bytes(cc, m.voters, m.learners),
        };
        lemma_one_more(v.st, e);
        let a = (NodeView { st: v.st.append(seq![e]), ..v }).own_progress(index);
        lemma_recompute_wf(a);
        let w = a.recompute_conf();
        let x = if v.starts_fresh(cc) {
            NodeView {
                next: w.next.insert(cc.node(), 1),
                matched: w.matched.insert(cc.node(), 0),
                ..w
            }
        } else {
            w
        };
        lemma_conf_same(x, w, w.st.last_index());
        assert(x.wf());
        lemma_advance_wf(x);
        lemma_broadcast_wf(x.advance_commit());
    }
}

/// What one stretch of the log records, on top of another.
proof fn lemma_last_conf_split(a: Seq<EntryView>, b: Seq<EntryView>, base: MembersView)
    ensures
        last_conf(a + b, base) == last_conf(b, last_conf(a, base)),
    decreases b.len(),
{
    if b.len() == 0 {
        assert(a + b =~= a);
    } else {
        assert((a + b).drop_last() =~= a + b.drop_last());
        assert((a + b).last() == b.last());
        lemma_last_conf_split(a, b.drop_last(), base);
    }
}

/// Sorting the base first makes no difference to the sorted outcome.
proof fn lemma_last_conf_sorted(b: Seq<EntryView>, base: MembersView)
    ensures
        last_conf(b, base.sorted()).sorted() == last_conf(b, base).sorted(),
    decreases b.len(),
{
    if b.len() == 0 {
        members::lemma_sorted_ids(base.voters);
        members::lemma_sorted_ids(base.learners);
        members::lemma_sorted_already(members::sorted_ids(base.voters));
        members::lemma_sorted_already(members::sorted_ids(base.learners));
    } else {
        lemma_last_conf_sorted(b.drop_last(), base);
    }
}

pub proof fn lemma_compacted_wf(v: NodeView, index: u64, data: Seq<u8>)
    requires
        v.wf(),
        v.st.base() < index <= v.st.last_index(),
        index <= v.applied,
    ensures
        v.compacted(index, data).wf(),
        v.compacted(index, data).st.base() == index,
        v.compacted(index, data).st.last_index() == v.st.last_index(),
{
    let c = v.compacted(index, data);
    let n = index - v.st.base();
    let low = v.st.log.take(n);
    let high = v.st.log.skip(n);
    assert(c.st.log =~= high);
    assert forall|k: int| 0 <= k < c.st.log.len() implies (#[trigger] c.st.log[k]).index
        == c.st.base() + 1 + k by {
        assert(c.st.log[k] == v.st.log[n + k]);
    }
    assert(c.st.wf());
    assert(v.st.entries(v.st.first_index(), v.st.last_index()) =~= low + high);
    assert(v.st.entries(v.st.first_index(), index) =~= low);
    assert(c.st.entries(c.st.first_index(), c.st.last_index()) =~= high);
    lemma_last_conf_split(low, high, v.base_members());
    lemma_last_conf_sorted(high, last_conf(low, v.base_members()));
    assert(c.base_members() =~= last_conf(low, v.base_members()).sorted());
}

pub proof fn lemma_send_wf(v: NodeView, to: u64, body: BodyView)
    requires
        v.wf(),
    ensures
        v.send(to, body).wf(),
{
    lemma_conf_same(v.send(to, body), v, v.st.last_index());
}

pub proof fn lemma_append_handler_wf(
    v: NodeView,
    from: u64,
    term: u64,
    prev: u64,
    prev_term: u64,
    es: Seq<EntryView>,
    leader_commit: u64,
)
    requires
        v.wf(),
        message::contiguous(prev, es),
    ensures
        v.on_append(from, term, prev, prev_term, es, leader_commit).wf(),
{
    let last_new = (prev + es.len()) as u64;
    let no = BodyView::AppendEntriesResp { success: false, match_index: 0 };
    lemma_send_wf(v, from, no);
    let f = v.follow(from);
    lemma_conf_same(f, v, v.st.last_index());
    assert(f.wf());
    lemma_send_wf(f, from, no);
    lemma_send_wf(
        f,
        from,
        BodyView::AppendEntriesResp { success: true, match_index: v.st.base() },
    );
    let k = first_new(v.st, prev, es, 0);
    if term >= v.term && last_new > v.st.base() && !(prev >= v.st.base() && v.st.term(prev)
        != Some(prev_term)) {
        let w = if k < es.len() {
            lemma_spliced_wf(v.st, prev, es);
            let a = NodeView { st: spliced(f.st, prev, es, k), ..f };
            lemma_recompute_wf(a);
            a.recompute_conf()
        } else {
            f
        };
        let x = if leader_commit > w.commit {
            NodeView { commit: smaller(leader_commit, last_new), ..w }
        } else {
            w
        };
        lemma_conf_same(x, w, w.st.last_index());
        lemma_send_wf(
            x,
            from,
            BodyView::AppendEntriesResp { success: true, match_index: last_new },
        );
    }
}

pub proof fn lemma_step_wf(v: NodeView, m: MessageView)
    requires
        v.wf(),
        v.term < u64::MAX || m.body !is TimeoutNow,
        m.well_formed(),
    ensures
        v.step(m).wf(),
{
    lemma_adopt(v, m);
    let a = v.adopt(m);
    let i = a.st.last_index();
    match m.body {
        BodyView::RequestVote { last_log_index, last_log_term } => {
            let g = (NodeView { vote: Some(m.from), ..a }).persist().reset_timer();
            lemma_conf_same(g, a, i);
            lemma_send_wf(g, m.from, BodyView::RequestVoteResp { granted: true });
            lemma_send_wf(a, m.from, BodyView::RequestVoteResp { granted: false });
        },
        BodyView::RequestVoteResp { granted } => {
            let w = NodeView { votes: a.votes.insert(m.from), ..a };
            lemma_conf_same(w, a, i);
            lemma_leader_wf(w);
        },
        BodyView::AppendEntries {
            prev_log_index,
            prev_log_term,
            entries,
            leader_commit,
        } => {
            lemma_append_handler_wf(
                a,
                m.from,
                m.term,
                prev_log_index,
                prev_log_term,
                entries,
                leader_commit,
            );
        },
        BodyView::AppendEntriesResp { success, match_index } => {
            let r = a.raise(m.from, match_index);
            lemma_conf_same(r, a, i);
            lemma_advance_wf(r);
            let next = value_or(a.next, m.from, 1);
            let back = if next <= 2 {
                1
            } else {
                (next - 1) as u64
            };
            let b = NodeView { next: a.next.insert(m.from, back), ..a };
            lemma_conf_same(b, a, i);
            assert(b.wf());
            lemma_conf_same(b.send_append(m.from), a, i);
        },
        BodyView::InstallSnapshot {
            last_included_index,
            last_included_term,
            conf_state,
            learners,
            data,
        } => {
            let snap = SnapshotView {
                last_included_index,
                last_included_term,
                conf_state,
                learners,
                data,
            };
            lemma_send_wf(a, m.from, BodyView::InstallSnapshotResp { match_index: 0 });
            let f = a.follow(m.from);
            lemma_conf_same(f, a, i);
            assert(f.wf());
            lemma_send_wf(f, m.from, BodyView::InstallSnapshotResp { match_index: f.commit });
            let g = NodeView {
                st: f.st.install(snap),
                commit: last_included_index,
                applied: last_included_index,
                pending: Some((last_included_index, data)),
                ..f
            };
            lemma_recompute_wf(g);
            lemma_send_wf(
                g.recompute_conf(),
                m.from,
                BodyView::InstallSnapshotResp { match_index: last_included_index },
            );
        },
        BodyView::InstallSnapshotResp { match_index } => {
            let r = a.raise(m.from, match_index);
            lemma_conf_same(r, a, i);
            lemma_advance_wf(r);
        },
        BodyView::TimeoutNow => {
            lemma_election_wf(a);
        },
    }
}

} // verus!
