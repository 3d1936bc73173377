//! One replica of the placement driver: a Raft node that drives the replicated state machine.
//!
//! It is transport-free: the caller ticks it, steps it, and routes the outbound messages of
//! [`PdReplica::ready`].

use vstd::prelude::*;
use crate::bytes;
use crate::pd::command;
use crate::pd::command::{CmdView, PdCmd};
use crate::pd::fsm;
use crate::pd::fsm::{FsmView, PdFsm};
use crate::raft::message;
use crate::raft::message::{Entry, EntryType, EntryView, Message};
use crate::raft::node;
use crate::raft::node::{Config, NodeView, ProposeError, RaftNode, Role};
use crate::raft::storage;
use crate::raft::storage::{MemStorage, Storage, StorageView};

verus! {

/// How far ahead of the current need a reservation raises the high-water.
pub const RESERVE_WINDOW: u64 = 0x1_0000;

/// How far the log may run past the last snapshot before a replica compacts.
pub const COMPACT_THRESHOLD: u64 = 64;

/// What [`PdReplica::ready`] surfaces: the node's outbound messages to route, and the log indices
/// that just committed.
pub struct Ready {
    pub messages: Vec<Message>,
    pub committed: Vec<u64>,
}

/// A replica as values.
#[verifier::ext_equal]
pub struct ReplicaView {
    pub node: NodeView,
    pub fsm: FsmView,
    /// The next timestamp that this node may hand out.
    pub served: u64,
    /// The term that this node led when it was last drained.
    pub led: Option<u64>,
    /// The index of the entry appended on winning, until it is applied.
    pub reset: Option<u64>,
}

/// At least one.
pub open spec fn at_least_one(n: u64) -> u64 {
    if n == 0 {
        1
    } else {
        n
    }
}

/// The state machine after a list of committed entries. Empty entries and membership changes do
/// not touch it.
pub open spec fn applied(f: FsmView, es: Seq<EntryView>) -> FsmView
    decreases es.len(),
{
    if es.len() == 0 {
        f
    } else {
        let g = applied(f, es.drop_last());
        let e = es.last();
        if e.kind == EntryType::Normal && e.data.len() > 0 {
            g.apply(command::cmd_of(e.data))
        } else {
            g
        }
    }
}

/// The indices of a list of entries.
pub open spec fn indices(es: Seq<EntryView>) -> Seq<u64> {
    Seq::new(es.len(), |i: int| es[i].index)
}

impl ReplicaView {
    /// Node and state machine are in order.
    pub open spec fn wf(self) -> bool {
        self.node.wf() && self.fsm.wf()
    }

    /// On winning an election, an empty entry is appended, so that entries of earlier terms come
    /// to be committed with it.
    pub open spec fn crowned(self) -> ReplicaView {
        let leads = self.node.role == Role::Leader;
        if leads && self.led != Some(self.node.term) {
            let (node, r) = self.node.propose(Seq::empty());
            ReplicaView {
                node,
                led: Some(self.node.term),
                reset: match r {
                    Ok(i) => Some(i),
                    Err(_) => None,
                },
                ..self
            }
        } else if leads {
            self
        } else {
            ReplicaView { led: None, reset: None, ..self }
        }
    }

    /// An installed snapshot is adopted.
    pub open spec fn caught_up(self) -> ReplicaView {
        match self.node.pending {
            Some((_, data)) => {
                let fsm = self.fsm.restore(data);
                ReplicaView {
                    node: NodeView { pending: None, ..self.node },
                    fsm,
                    served: fsm::larger(self.served, fsm.tso_upper),
                    ..self
                }
            },
            None => self,
        }
    }

    /// The committed entries are applied.
    pub open spec fn settled(self) -> ReplicaView {
        ReplicaView {
            node: NodeView {
                applied: node::larger(self.node.applied, self.node.commit),
                ..self.node
            },
            fsm: applied(self.fsm, self.node.committed()),
            ..self
        }
    }

    /// Once this term's entries are applied, a new leader hands out only timestamps above
    /// everything that any earlier leader reserved.
    pub open spec fn reset_cursor(self) -> ReplicaView {
        match self.reset {
            Some(i) => if self.node.applied >= i {
                ReplicaView { served: self.fsm.tso_upper, reset: None, ..self }
            } else {
                self
            },
            None => self,
        }
    }

    /// The log is compacted where it has run far enough past its start, and holds what was
    /// applied.
    pub open spec fn trimmed(self) -> ReplicaView {
        let n = self.node;
        if n.applied + 1 >= n.st.first_index() + 64 && n.applied <= n.st.last_index() {
            ReplicaView { node: n.compacted(n.applied, self.fsm.bytes()), ..self }
        } else {
            self
        }
    }

    /// Everything but the messages.
    pub open spec fn prepared(self) -> ReplicaView {
        self.crowned().caught_up().settled().reset_cursor().trimmed()
    }

    /// The replica after its effects are drained.
    pub open spec fn ready(self) -> ReplicaView {
        let p = self.prepared();
        ReplicaView { node: NodeView { outbox: Seq::empty(), ..p.node }, ..p }
    }

    /// The indices that are drained.
    pub open spec fn newly(self) -> Seq<u64> {
        indices(self.crowned().caught_up().node.committed())
    }

    /// The outcome of handing out timestamps. A leader whose cursor is still to be reset, or whose
    /// win is still to be drained, hands out none: they could have been handed out by an earlier
    /// leader.
    pub open spec fn hand_out(self, count: u64) -> Option<u64> {
        if self.node.role == Role::Leader && self.led == Some(self.node.term) && self.reset is None
            && self.served + at_least_one(count) <= self.fsm.tso_upper {
            Some(self.served)
        } else {
            None
        }
    }

    /// The replica after handing out timestamps.
    pub open spec fn handed(self, count: u64) -> ReplicaView {
        match self.hand_out(count) {
            Some(_) => ReplicaView { served: (self.served + at_least_one(count)) as u64, ..self },
            None => self,
        }
    }

    /// Whether there is room for another reservation.
    pub open spec fn can_reserve(self, count: u64) -> bool {
        &&& self.served + at_least_one(count) + 0x1_0000 <= u64::MAX
        &&& self.fsm.tso_upper + 0x1_0000 <= u64::MAX
    }

    /// The high-water of the next reservation.
    pub open spec fn reserved(self, count: u64) -> u64 {
        let need = (self.served + at_least_one(count)) as u64;
        (fsm::larger(need, self.fsm.tso_upper) + 0x1_0000) as u64
    }

    /// A replica that starts from a store.
    pub open spec fn start(id: u64, voters: Seq<u64>, st: StorageView) -> ReplicaView {
        let node = NodeView::start(id, voters, 10, 1, node::default_seed(id), st);
        let fsm = match st.snap {
            Some(s) => FsmView::fresh().restore(s.data),
            None => FsmView::fresh(),
        };
        ReplicaView {
            node,
            fsm,
            served: match st.snap {
                Some(_) => fsm.tso_upper,
                None => 0,
            },
            led: None,
            reset: None,
        }
    }
}

/// A replica of the placement driver.
pub struct PdReplica<S: Storage> {
    node: RaftNode<S>,
    fsm: PdFsm,
    served: u64,
    led: Option<u64>,
    reset: Option<u64>,
}

impl<S: Storage> View for PdReplica<S> {
    type V = ReplicaView;

    closed spec fn view(&self) -> ReplicaView {
        ReplicaView {
            node: self.node@,
            fsm: self.fsm@,
            served: self.served,
            led: self.led,
            reset: self.reset,
        }
    }
}

impl PdReplica<MemStorage> {
    /// A replica of the `voters` group with the given `id`, in memory.
    pub fn new(id: u64, voters: Vec<u64>) -> (r: PdReplica<MemStorage>)
        ensures
            r@ == ReplicaView::start(id, voters@, StorageView::fresh()),
            r@.wf(),
    {
        PdReplica::with_storage(id, voters, MemStorage::new())
    }
}

impl<S: Storage> PdReplica<S> {
    /// A replica backed by `storage`. With a durable one, the committed high-water, placement and
    /// catalog survive a full restart.
    pub fn with_storage(id: u64, voters: Vec<u64>, storage: S) -> (r: PdReplica<S>)
        requires
            storage.model().wf(),
        ensures
            r@ == ReplicaView::start(id, voters@, storage.model()),
            r@.wf(),
    {
        let ghost st = storage.model();
        let node = RaftNode::new(Config::new(id, voters), storage);
        proof {
            assert(node@.st == st) by {
                crate::raft::safety::lemma_start_store(
                    id,
                    voters@,
                    10,
                    1,
                    node::default_seed(id),
                    st,
                );
            }
        }
        let mut r = PdReplica {
            node,
            fsm: PdFsm::new(),
            served: 0,
            led: None,
            reset: None,
        };
        r.recover();
        r
    }

    /// Seed the state machine from a snapshot that the store already holds. The log entries above
    /// it replay once this node learns the commit index again; the snapshot's own were compacted
    /// away, so nothing will deliver them again.
    fn recover(&mut self)
        requires
            old(self)@.wf(),
        ensures
            final(self)@ == (match old(self)@.node.st.snap {
                Some(s) => ReplicaView {
                    fsm: old(self)@.fsm.restore(s.data),
                    served: old(self)@.fsm.restore(s.data).tso_upper,
                    ..old(self)@
                },
                None => old(self)@,
            }),
            final(self)@.wf(),
    {
        match self.node.storage().snapshot() {
            Some(s) => {
                let _ = self.fsm.restore(s.data.as_slice());
                self.served = self.fsm.tso_upper();
            },
            None => {},
        }
    }

    /// This replica's id.
    pub fn id(&self) -> (r: u64)
        ensures
            r == self@.node.id,
    {
        self.node.id()
    }

    /// Whether this replica leads.
    pub fn is_leader(&self) -> (r: bool)
        ensures
            r == (self@.node.role == Role::Leader),
    {
        self.node.is_leader()
    }

    /// The leader that this replica knows of.
    pub fn leader_id(&self) -> (r: Option<u64>)
        ensures
            r == self@.node.leader,
    {
        self.node.leader_id()
    }

    /// The current term.
    pub fn current_term(&self) -> (r: u64)
        ensures
            r == self@.node.term,
    {
        self.node.current_term()
    }

    /// The state machine.
    pub fn fsm(&self) -> (r: &PdFsm)
        ensures
            r@ == self@.fsm,
    {
        &self.fsm
    }

    /// The store of the log.
    pub fn storage(&self) -> (r: &S)
        ensures
            r.model() == self@.node.st,
    {
        self.node.storage()
    }

    /// Set the replication target. At least 1.
    pub fn set_replicas(&mut self, n: usize)
        ensures
            final(self)@ == (ReplicaView {
                fsm: FsmView {
                    replicas: if n == 0 {
                        1
                    } else {
                        n
                    },
                    ..old(self)@.fsm
                },
                ..old(self)@
            }),
            old(self)@.wf() ==> final(self)@.wf(),
    {
        self.fsm.set_replicas(n);
    }

    /// The failure detector's sweep, on this replica's view.
    pub fn sweep(&mut self, now: u64, timeout_ms: u64) -> (r: Vec<u64>)
        requires
            old(self)@.wf(),
        ensures
            r@ == crate::pd::cluster::downed(old(self)@.fsm.members.nodes, now, timeout_ms),
            final(self)@ == (ReplicaView {
                fsm: FsmView {
                    members: crate::pd::cluster::MembershipView {
                        nodes: crate::pd::cluster::swept(
                            old(self)@.fsm.members.nodes,
                            now,
                            timeout_ms,
                        ),
                        ..old(self)@.fsm.members
                    },
                    ..old(self)@.fsm
                },
                ..old(self)@
            }),
            final(self)@.wf(),
    {
        self.fsm.sweep(now, timeout_ms)
    }

    /// Advance the logical clock. Drain effects with [`PdReplica::ready`].
    pub fn tick(&mut self)
        requires
            old(self)@.wf(),
            old(self)@.node.term < u64::MAX,
        ensures
            final(self)@ == (ReplicaView { node: old(self)@.node.tick(), ..old(self)@ }),
            final(self)@.wf(),
    {
        self.node.tick();
    }

    /// Feed in one inbound message. Drain effects with [`PdReplica::ready`].
    pub fn step(&mut self, m: Message)
        requires
            old(self)@.wf(),
            old(self)@.node.term < u64::MAX || m.body !is TimeoutNow,
            m@.well_formed(),
        ensures
            final(self)@ == (ReplicaView { node: old(self)@.node.step(m@), ..old(self)@ }),
            final(self)@.wf(),
    {
        self.node.step(m);
    }

    /// The first index that the log still holds.
    pub fn first_index(&self) -> (r: u64)
        requires
            self@.wf(),
        ensures
            r == self@.node.st.first_index(),
    {
        self.node.first_index()
    }

    /// The last index of the log.
    pub fn last_log_index(&self) -> (r: u64)
        requires
            self@.wf(),
        ensures
            r == self@.node.st.last_index(),
    {
        self.node.last_log_index()
    }

    /// Propose a command (leader only); the returned index commits once a majority persists it.
    pub fn propose(&mut self, cmd: &PdCmd) -> (r: Result<u64, ProposeError>)
        requires
            old(self)@.wf(),
            old(self)@.node.st.last_index() < u64::MAX - 1,
        ensures
            (final(self)@.node, r) == old(self)@.node.propose(cmd@.bytes()),
            final(self)@ == (ReplicaView { node: final(self)@.node, ..old(self)@ }),
            final(self)@.wf(),
    {
        self.node.propose(cmd.encode())
    }

    /// Apply one list of committed entries.
    fn apply_entries(&mut self, es: &Vec<Entry>) -> (committed: Vec<u64>)
        requires
            old(self)@.wf(),
        ensures
            committed@ == indices(message::entry_views(es@)),
            final(self)@ == (ReplicaView {
                fsm: applied(old(self)@.fsm, message::entry_views(es@)),
                ..old(self)@
            }),
            final(self)@.wf(),
    {
        let ghost before = self@;
        let ghost all = message::entry_views(es@);
        let mut committed: Vec<u64> = Vec::new();
        let mut i: usize = 0;
        assert(all.take(0) =~= Seq::<EntryView>::empty());
        while i < es.len()
            invariant
                0 <= i <= es@.len(),
                all == message::entry_views(es@),
                committed@.len() == i,
                forall|j: int| 0 <= j < i ==> (#[trigger] committed@[j]) == all[j].index,
                self@ == (ReplicaView { fsm: applied(before.fsm, all.take(i as int)), ..before }),
                self@.wf(),
            decreases es@.len() - i,
        {
            proof {
                assert(all.take(i + 1).drop_last() =~= all.take(i as int));
                assert(all.take(i + 1).last() == es@[i as int]@);
            }
            committed.push(es[i].index);
            match es[i].entry_type {
                EntryType::Normal => {
                    if es[i].data.len() > 0 {
                        self.fsm.apply(es[i].data.as_slice());
                    }
                },
                EntryType::ConfChange => {},
            }
            i = i + 1;
        }
        assert(all.take(i as int) =~= all);
        assert(committed@ =~= indices(all));
        committed
    }

    /// Whether the replica was a leader of the current term when it was last drained.
    fn leads_on(&self) -> (r: bool)
        ensures
            r == (self@.led == Some(self@.node.term)),
    {
        match self.led {
            Some(t) => t == self.node.current_term(),
            None => false,
        }
    }

    /// Apply anything newly committed and return the node's outbound messages and the indices
    /// that just committed. Call after every tick, step and proposal.
    pub fn ready(&mut self) -> (r: Ready)
        requires
            old(self)@.wf(),
            old(self)@.node.role == Role::Leader ==> old(self)@.node.st.last_index() < u64::MAX - 1,
        ensures
            final(self)@ == old(self)@.ready(),
            message::message_views(r.messages@) == old(self)@.prepared().node.outbox,
            r.committed@ == old(self)@.newly(),
            final(self)@.wf(),
    {
        let ghost start = self@;
        let leads: bool = self.node.is_leader();
        let term: u64 = self.node.current_term();
        let known: bool = self.leads_on();
        if leads && !known {
            let empty: Vec<u8> = Vec::new();
            assert(empty@ =~= Seq::<u8>::empty());
            self.reset = match self.node.propose(empty) {
                Ok(i) => Some(i),
                Err(_) => None,
            };
        }
        if leads {
            self.led = Some(term);
        } else {
            self.led = None;
            self.reset = None;
        }
        assert(self@ =~= start.crowned());
        match self.node.take_snapshot() {
            Some((_, data)) => {
                let _ = self.fsm.restore(data.as_slice());
                let upper: u64 = self.fsm.tso_upper();
                if upper > self.served {
                    self.served = upper;
                }
            },
            None => {},
        }
        assert(self@ =~= start.crowned().caught_up());
        let es = self.node.take_committed();
        let committed = self.apply_entries(&es);
        let ghost settled = start.crowned().caught_up().settled();
        assert(self@ =~= settled);
        match self.reset {
            Some(i) => {
                if self.node.last_applied() >= i {
                    self.served = self.fsm.tso_upper();
                    self.reset = None;
                }
            },
            None => {},
        }
        assert(self@ =~= settled.reset_cursor());
        let done: u64 = self.node.last_applied();
        let first: u64 = self.node.first_index();
        if done + 1 >= first && done + 1 - first >= COMPACT_THRESHOLD && done
            <= self.node.last_log_index() {
            let data = self.fsm.snapshot();
            self.node.compact(done, data);
        }
        assert(self@ =~= start.prepared());
        let messages = self.node.take_messages();
        assert(self@ =~= start.ready());
        Ready { messages, committed }
    }

    /// Hand out `count` contiguous timestamps (leader only), or `None` if the reserved window is
    /// exhausted, or a new leader has not yet applied the entry that it appends when its win is
    /// drained: the caller must first commit [`PdReplica::reserve_ts_cmd`], and retry.
    pub fn hand_out(&mut self, count: u64) -> (r: Option<u64>)
        ensures
            r == old(self)@.hand_out(count),
            final(self)@ == old(self)@.handed(count),
    {
        let n: u64 = if count == 0 {
            1
        } else {
            count
        };
        if self.node.is_leader() && self.leads_on() && self.reset.is_none() && n
            <= u64::MAX - self.served
            && self.served + n <= self.fsm.tso_upper() {
            let first: u64 = self.served;
            self.served = self.served + n;
            Some(first)
        } else {
            None
        }
    }

    /// Whether there is room for another reservation in the range of timestamps.
    pub fn can_reserve(&self, count: u64) -> (r: bool)
        ensures
            r == self@.can_reserve(count),
    {
        let n: u64 = if count == 0 {
            1
        } else {
            count
        };
        n <= u64::MAX - self.served && self.served + n <= u64::MAX - RESERVE_WINDOW
            && self.fsm.tso_upper() <= u64::MAX - RESERVE_WINDOW
    }

    /// The reservation that a leader should propose so that it can then hand out at least `count`
    /// timestamps: it raises the high-water a whole window past the immediate need.
    pub fn reserve_ts_cmd(&self, count: u64) -> (r: PdCmd)
        requires
            self@.can_reserve(count),
        ensures
            r@ == (CmdView::ReserveTs { upper: self@.reserved(count) }),
    {
        let n: u64 = if count == 0 {
            1
        } else {
            count
        };
        let need: u64 = self.served + n;
        let upper: u64 = self.fsm.tso_upper();
        let base: u64 = if need > upper {
            need
        } else {
            upper
        };
        PdCmd::ReserveTs { upper: base + RESERVE_WINDOW }
    }

    /// The next timestamp that this leader would hand out.
    pub fn served(&self) -> (r: u64)
        ensures
            r == self@.served,
    {
        self.served
    }
}

/// Timestamps that are handed out lie below the replicated high-water, and each grant starts where
/// the last one ended.
pub proof fn law_hand_out(r: ReplicaView, count: u64)
    ensures
        r.hand_out(count) matches Some(first) ==> {
            &&& first == r.served
            &&& first + at_least_one(count) <= r.fsm.tso_upper
            &&& r.handed(count).served == first + at_least_one(count)
            &&& r.handed(count).fsm == r.fsm
        },
        r.hand_out(count) is None ==> r.handed(count) == r,
{
}

/// A committed reservation makes the hand-out that it was made for succeed.
pub proof fn law_reservation(r: ReplicaView, count: u64)
    requires
        r.can_reserve(count),
        r.node.role == Role::Leader,
        r.led == Some(r.node.term),
        r.reset is None,
    ensures
        ({
            let f = r.fsm.apply(Some(CmdView::ReserveTs { upper: r.reserved(count) }));
            (ReplicaView { fsm: f, ..r }).hand_out(count) == Some(r.served)
        }),
{
}

/// Once a new leader has applied the entry that it appended on winning, it hands out only
/// timestamps at or above the high-water that it has applied; before, it hands out none.
pub proof fn law_new_leader(r: ReplicaView, count: u64)
    requires
        r.crowned().reset is Some,
    ensures
        r.prepared().node.applied >= r.crowned().reset->0 ==> r.prepared().served
            == r.prepared().fsm.tso_upper && r.prepared().reset is None,
        r.prepared().node.applied < r.crowned().reset->0 ==> r.prepared().hand_out(count) is None,
{
    let c = r.crowned();
    let s = c.caught_up().settled();
    assert(s.reset == c.reset);
    assert(s.reset_cursor().trimmed().node.applied == s.node.applied);
}

} // verus!
