//! A group of nodes under any schedule of events: messages may be delivered in any order, many
//! times or never, and nodes may restart from what they persisted.

use vstd::prelude::*;
use crate::raft::members;
use crate::raft::message::{BodyView, ConfChange, EntryView, MessageView};
use crate::raft::node::{NodeView, Role};
use crate::raft::storage::StorageView;

verus! {

/// The nodes of a group, those that it may still take in included, the voters that it starts with,
/// and every message that a node has queued so far.
#[verifier::ext_equal]
pub struct Cluster {
    pub voters: Seq<u64>,
    pub nodes: Map<u64, NodeView>,
    pub sent: Set<MessageView>,
}

/// Something that happens at one node.
pub enum Event {
    /// The clock advances by one tick.
    Tick { id: u64 },
    /// A message that was queued before arrives.
    Deliver { m: MessageView },
    /// The node is told to campaign now.
    Campaign { id: u64, from: u64, term: u64 },
    /// A client hands over a command.
    Propose { id: u64, data: Seq<u8> },
    /// The membership is to change.
    Change { id: u64, cc: ConfChange },
    /// The log is compacted.
    Compact { id: u64, index: u64, data: Seq<u8> },
    /// The driver takes the queued messages.
    TakeMessages { id: u64 },
    /// The driver takes the entries that have become committed.
    TakeCommitted { id: u64 },
    /// The driver takes an installed snapshot.
    TakeSnapshot { id: u64 },
    /// The node starts again from its store.
    Restart { id: u64, election_timeout: u32, heartbeat_timeout: u32, seed: u64 },
}

impl Event {
    /// The node at which it happens.
    pub open spec fn node(self) -> u64 {
        match self {
            Event::Tick { id } => id,
            Event::Deliver { m } => m.to,
            Event::Campaign { id, .. } => id,
            Event::Propose { id, .. } => id,
            Event::Change { id, .. } => id,
            Event::Compact { id, .. } => id,
            Event::TakeMessages { id } => id,
            Event::TakeCommitted { id } => id,
            Event::TakeSnapshot { id } => id,
            Event::Restart { id, .. } => id,
        }
    }
}

/// The entry that a store holds at an index, where it is not compacted away.
pub open spec fn entry_at(st: StorageView, index: u64) -> Option<EntryView> {
    if st.base() < index <= st.last_index() {
        Some(st.log[index - st.base() - 1])
    } else {
        None
    }
}

/// A node freshly made for a group.
pub open spec fn started(v: NodeView, id: u64, voters: Seq<u64>) -> bool {
    &&& v.timers_ok()
    &&& exists|seed: u64|
        v == #[trigger] NodeView::start(
            id,
            voters,
            v.election_timeout,
            v.heartbeat_timeout,
            seed,
            StorageView::fresh(),
        )
}

/// Whether a snapshot drops no entry behind it that the node may share with the leader: it is
/// ignored, or the node holds another entry in the place of its last one, or nothing behind that.
pub open spec fn takes_snapshot(v: NodeView, term: u64, index: u64, last_term: u64) -> bool {
    ||| term < v.term
    ||| index <= v.commit
    ||| v.st.last_index() <= index
    ||| v.st.base() <= index && v.st.term(index) != Some(last_term)
}

impl Cluster {
    /// A new group: distinct voters in order, a fresh node for each, and fresh nodes that may join
    /// later, all started with the same voters.
    pub open spec fn initial(self) -> bool {
        &&& self.voters.len() > 0
        &&& members::ascending(self.voters)
        &&& forall|id: u64| #[trigger]
            self.voters.contains(id) ==> self.nodes.contains_key(id)
        &&& forall|id: u64| #[trigger]
            self.nodes.contains_key(id) ==> started(self.nodes[id], id, self.voters)
        &&& self.sent == Set::<MessageView>::empty()
    }

    /// What the node at which an event happens becomes.
    pub open spec fn react(self, e: Event) -> NodeView {
        let v = self.nodes[e.node()];
        match e {
            Event::Tick { .. } => v.tick(),
            Event::Deliver { m } => v.step(m),
            Event::Campaign { id, from, term } => v.step(
                MessageView { from, to: id, term, body: BodyView::TimeoutNow },
            ),
            Event::Propose { data, .. } => v.propose(data).0,
            Event::Change { cc, .. } => v.propose_conf(cc).0,
            Event::Compact { index, data, .. } => v.compacted(index, data),
            Event::TakeMessages { .. } => NodeView { outbox: Seq::empty(), ..v },
            Event::TakeCommitted { .. } => NodeView {
                applied: crate::raft::node::larger(v.applied, v.commit),
                ..v
            },
            Event::TakeSnapshot { .. } => NodeView { pending: None, ..v },
            Event::Restart { id, election_timeout, heartbeat_timeout, seed } => NodeView::start(
                id,
                self.voters,
                election_timeout,
                heartbeat_timeout,
                seed,
                v.st,
            ),
        }
    }

    /// Whether an event can happen: it is at a node of the group, messages come from nodes, and
    /// terms and indices leave room. A snapshot is delivered only where it drops nothing behind it
    /// that the node may have confirmed to the leader. The membership changes only once the leader has
    /// committed an entry of its own term: two leaders that each change it before they have could
    /// both find a majority.
    pub open spec fn allows(self, e: Event) -> bool {
        let v = self.nodes[e.node()];
        &&& self.nodes.contains_key(e.node())
        &&& match e {
            Event::Tick { .. } => v.term < u64::MAX,
            Event::Deliver { m } => {
                &&& self.sent.contains(m)
                &&& m.well_formed()
                &&& v.term < u64::MAX
                &&& match m.body {
                    BodyView::InstallSnapshot {
                        last_included_index,
                        last_included_term,
                        ..
                    } => takes_snapshot(v, m.term, last_included_index, last_included_term),
                    _ => true,
                }
            },
            Event::Campaign { term, .. } => term < u64::MAX && v.term < u64::MAX,
            Event::Propose { .. } => v.st.last_index() < u64::MAX - 1,
            Event::Change { cc, .. } => {
                let m = v.members().change(cc).sorted();
                &&& v.st.last_index() < u64::MAX - 1
                &&& m.voters.len() <= u32::MAX
                &&& m.learners.len() <= u32::MAX
                &&& v.propose_conf(cc).1 is Ok ==> v.st.term(v.commit) == Some(v.term)
            },
            Event::Compact { index, .. } => v.st.base() < index <= v.applied ==> index
                <= v.st.last_index(),
            Event::Restart { election_timeout, .. } => election_timeout <= 0x8000_0000,
            _ => true,
        }
    }

    /// The group after an event.
    pub open spec fn after(self, e: Event) -> Cluster {
        let v = self.react(e);
        Cluster {
            nodes: self.nodes.insert(e.node(), v),
            sent: self.sent.union(v.outbox.to_set()),
            ..self
        }
    }

    /// The group after a list of events.
    pub open spec fn run(self, es: Seq<Event>) -> Cluster
        decreases es.len(),
    {
        if es.len() == 0 {
            self
        } else {
            self.run(es.drop_last()).after(es.last())
        }
    }

    /// Whether each event of a list can happen when it does.
    pub open spec fn lawful(self, es: Seq<Event>) -> bool
        decreases es.len(),
    {
        es.len() > 0 ==> {
            &&& self.lawful(es.drop_last())
            &&& self.run(es.drop_last()).allows(es.last())
        }
    }

    /// Whether a node leads a term.
    pub open spec fn leads(self, id: u64, term: u64) -> bool {
        &&& self.nodes.contains_key(id)
        &&& self.nodes[id].role == Role::Leader
        &&& self.nodes[id].term == term
    }
}

} // verus!
