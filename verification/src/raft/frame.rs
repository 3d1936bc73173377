//! What a node's steps leave as it is: its snapshot, what it has applied, and what it sends of the
//! snapshot.

use vstd::prelude::*;
use crate::raft::message::{BodyView, EntryType, EntryView, MessageView};
use crate::raft::node;
use crate::raft::node::{NodeView, ProposeError, Role};
use crate::raft::safety;
use crate::raft::steps;

verus! {

/// A snapshot in a message is the leader's own.
pub open spec fn carried(v: NodeView, m: MessageView) -> bool {
    match m.body {
        BodyView::InstallSnapshot { last_included_index, data, .. } => {
            &&& v.role == Role::Leader
            &&& m.term == v.term
            &&& v.st.snap is Some
            &&& v.st.snap->0.last_included_index == last_included_index
            &&& v.st.snap->0.data == data
        },
        _ => true,
    }
}

/// Every snapshot that is queued is the leader's own.
pub open spec fn fair(v: NodeView) -> bool {
    forall|k: int| 0 <= k < v.outbox.len() ==> carried(v, #[trigger] v.outbox[k])
}

/// The snapshot and what is applied are as before, and no less is committed.
pub open spec fn still(v: NodeView, w: NodeView) -> bool {
    &&& w.st.snap == v.st.snap
    &&& w.applied == v.applied
    &&& w.pending == v.pending
    &&& w.commit >= v.commit
}

/// A snapshot was installed.
pub open spec fn installed(v: NodeView, w: NodeView, m: MessageView) -> bool {
    match m.body {
        BodyView::InstallSnapshot { last_included_index, data, .. } => {
            &&& last_included_index > v.commit
            &&& w.st.snap is Some
            &&& w.st.snap->0.last_included_index == last_included_index
            &&& w.st.snap->0.data == data
            &&& w.applied == last_included_index
            &&& w.commit == last_included_index
            &&& w.pending == Some((last_included_index, data))
            &&& w.role == Role::Follower
            &&& w.term == m.term
            &&& m.term >= v.term
        },
        _ => false,
    }
}

/// What a leader sends of its snapshot is its own.
pub proof fn lemma_send_all_fair(v: NodeView, ids: Seq<u64>)
    requires
        v.role == Role::Leader,
        fair(v),
    ensures
        fair(v.send_appends(ids)),
    decreases ids.len(),
{
    if ids.len() > 0 {
        lemma_send_all_fair(v, ids.drop_last());
        node::lemma_send_appends(v, ids.drop_last());
        lemma_send_fair(v.send_appends(ids.drop_last()), ids.last());
    }
}

/// The same, of one member.
pub proof fn lemma_send_fair(v: NodeView, to: u64)
    requires
        v.role == Role::Leader,
        fair(v),
    ensures
        fair(v.send_append(to)),
        v.send_append(to) == (NodeView { outbox: v.send_append(to).outbox, ..v }),
{
    let w = v.send_append(to);
    assert forall|k: int| 0 <= k < w.outbox.len() implies carried(w, #[trigger] w.outbox[k]) by {
        if k < v.outbox.len() {
            assert(w.outbox[k] == v.outbox[k]);
            assert(carried(v, v.outbox[k]));
        }
    }
}

/// Requests for votes carry no snapshot.
proof fn lemma_ask_fair(v: NodeView, ids: Seq<u64>)
    requires
        v.outbox.len() == 0,
    ensures
        fair(v.ask_votes(ids)),
        forall|k: int|
            0 <= k < v.ask_votes(ids).outbox.len() ==> (#[trigger] v.ask_votes(
                ids,
            ).outbox[k]).body is RequestVote,
    decreases ids.len(),
{
    if ids.len() > 0 {
        let a = v.ask_votes(ids.drop_last());
        lemma_ask_fair(v, ids.drop_last());
        let w = v.ask_votes(ids);
        assert forall|k: int| 0 <= k < w.outbox.len() implies (#[trigger] w.outbox[k]).body
            is RequestVote by {
            if k < a.outbox.len() {
                assert(w.outbox[k] == a.outbox[k]);
            }
        }
    }
}

/// A node that comes to lead, or goes on.
proof fn lemma_lead_fair(v: NodeView)
    requires
        v.outbox.len() == 0,
    ensures
        fair(v.become_leader()),
        still(v, v.become_leader()),
        v.become_leader().term == v.term,
{
    let w = steps::winner(v);
    lemma_send_all_fair(w, w.targets());
    node::lemma_send_appends(w, w.targets());
}

/// A tick.
pub proof fn lemma_tick_frame(v: NodeView)
    requires
        v.outbox.len() == 0,
        v.term < u64::MAX,
    ensures
        fair(v.tick()),
        still(v, v.tick()),
        v.role == Role::Leader ==> v.tick().role == Role::Leader && v.tick().term == v.term,
        v.role != Role::Leader && v.tick().role == Role::Leader ==> v.tick().term == v.term + 1,
{
    let b = NodeView { heartbeat_elapsed: 0, ..v };
    if v.role == Role::Leader {
        lemma_send_all_fair(b, b.targets());
        node::lemma_send_appends(b, b.targets());
    } else {
        let x = NodeView { election_elapsed: node::bump(v.election_elapsed), ..v };
        let c = steps::candidate(x);
        lemma_lead_fair(c);
        lemma_ask_fair(c, c.peers());
        node::lemma_ask_votes(c, c.peers());
    }
}

/// A command.
pub proof fn lemma_propose_frame(v: NodeView, data: Seq<u8>)
    requires
        fair(v),
    ensures
        fair(v.propose(data).0),
        still(v, v.propose(data).0),
        v.propose(data).0.role == v.role,
        v.propose(data).0.term == v.term,
        v.role == Role::Leader ==> v.propose(data).1 == Ok::<u64, ProposeError>(
            (v.st.last_index() + 1) as u64,
        ),
{
    if v.role == Role::Leader {
        let index = (v.st.last_index() + 1) as u64;
        let e = EntryView {
            term: v.term,
            index,
            kind: EntryType::Normal,
            data,
        };
        let b = (NodeView { st: v.st.append(seq![e]), ..v }).own_progress(index);
        let c = b.advance_commit();
        node::lemma_commit_bound(b, b.st.last_index());
        assert forall|k: int| 0 <= k < c.outbox.len() implies carried(
            c,
            #[trigger] c.outbox[k],
        ) by {
            assert(carried(v, v.outbox[k]));
        }
        lemma_send_all_fair(c, c.targets());
        node::lemma_send_appends(c, c.targets());
    }
}

/// A message.
#[verifier::spinoff_prover]
#[verifier::rlimit(40)]
pub proof fn lemma_step_frame(v: NodeView, m: MessageView)
    requires
        v.outbox.len() == 0,
        m.body !is TimeoutNow,
        match m.body {
            BodyView::AppendEntries { prev_log_index, entries, leader_commit, .. } => leader_commit
                <= prev_log_index + entries.len() <= u64::MAX,
            _ => true,
        },
    ensures
        fair(v.step(m)),
        still(v, v.step(m)) || installed(v, v.step(m), m),
        v.role == Role::Leader && v.step(m).role == Role::Leader ==> v.step(m).term == v.term,
        v.role != Role::Leader && v.step(m).role == Role::Leader ==> v.role == Role::Candidate
            && v.step(m).term == v.term,
{
    safety::law_commit_forward(v, m);
    let a = v.adopt(m);
    assert(still(v, a));
    assert(a.outbox.len() == 0);
    match m.body {
        BodyView::RequestVoteResp { .. } => {
            let w = NodeView { votes: a.votes.insert(m.from), ..a };
            lemma_lead_fair(w);
        },
        BodyView::AppendEntriesResp { match_index, .. } => {
            let next = node::value_or(a.next, m.from, 1);
            let back = if next <= 2 {
                1
            } else {
                (next - 1) as u64
            };
            let b = NodeView { next: a.next.insert(m.from, back), ..a };
            if a.role == Role::Leader {
                lemma_send_fair(b, m.from);
            }
        },
        _ => {},
    }
}

/// A tick leaves the id as it is.
pub proof fn lemma_tick_id(v: NodeView)
    ensures
        v.tick().id == v.id,
{
    let b = NodeView { heartbeat_elapsed: 0, ..v };
    node::lemma_send_appends(b, b.targets());
    let c = steps::candidate(NodeView { election_elapsed: node::bump(v.election_elapsed), ..v });
    node::lemma_send_appends(steps::winner(c), steps::winner(c).targets());
    node::lemma_ask_votes(c, c.peers());
}

/// So does a message.
pub proof fn lemma_step_id(v: NodeView, m: MessageView)
    ensures
        v.step(m).id == v.id,
{
    let a = v.adopt(m);
    let c = steps::candidate(a);
    node::lemma_send_appends(steps::winner(c), steps::winner(c).targets());
    node::lemma_ask_votes(c, c.peers());
    let w = NodeView { votes: a.votes.insert(m.from), ..a };
    node::lemma_send_appends(steps::winner(w), steps::winner(w).targets());
}

} // verus!
