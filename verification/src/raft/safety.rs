//! The safety of the group: what holds of every state that it can reach, under any order, loss
//! and repetition of messages, any restarts, compaction, and changes of the membership.

use vstd::prelude::*;
use crate::raft::cluster::{entry_at, Cluster, Event};
use crate::raft::history;
use crate::raft::history::History;
use crate::raft::members;
use crate::raft::message;
use crate::raft::message::{
    BodyView, ConfChange, EntryType, EntryView, HardState, MessageView,
};
use crate::raft::node;
use crate::raft::node::{NodeView, ProposeError, Role};
use crate::raft::steps;
use crate::raft::storage::StorageView;

verus! {

/// A new group has no history.
pub proof fn lemma_initial(c: Cluster) -> (h: History)
    requires
        c.initial(),
    ensures
        h.describes(c),
{
    let h = History {
        full: Map::new(|n: u64| true, |n: u64| Seq::<EntryView>::empty()),
        voted: Map::empty(),
        clog: Map::empty(),
        elected: Map::empty(),
        quorum: Map::empty(),
        tlog: Map::empty(),
        acked: Map::empty(),
    };
    assert(h.votes_ok()) by {
        reveal(History::votes_ok);
    }
    assert forall|id: u64| #[trigger] c.nodes.contains_key(id) implies h.node_ok(
        c.voters,
        id,
        c.nodes[id],
    ) && h.outbox_ok(c.voters, c.nodes[id]) by {
        let v = c.nodes[id];
        let seed = choose|seed: u64|
            v == #[trigger] NodeView::start(
                id,
                c.voters,
                v.election_timeout,
                v.heartbeat_timeout,
                seed,
                StorageView::fresh(),
            );
        lemma_first_start(h, c.voters, id, v, seed);
    }
    h
}

/// A fresh node.
proof fn lemma_first_start(h: History, voters: Seq<u64>, id: u64, v: NodeView, seed: u64)
    requires
        v.timers_ok(),
        members::ascending(voters),
        v == NodeView::start(
            id,
            voters,
            v.election_timeout,
            v.heartbeat_timeout,
            seed,
            StorageView::fresh(),
        ),
        h.full.contains_key(id),
        h.full[id] == Seq::<EntryView>::empty(),
        h.voted == Map::<(u64, u64), u64>::empty(),
        h.clog == Map::<(u64, u64), Seq<EntryView>>::empty(),
        h.elected == Map::<u64, u64>::empty(),
        h.acked == Map::<(u64, u64), nat>::empty(),
    ensures
        h.node_ok(voters, id, v),
        h.outbox_ok(voters, v),
{
    let st = StorageView::fresh();
    let a = NodeView {
        id,
        voters,
        learners: Seq::empty(),
        boot: voters,
        st,
        role: Role::Follower,
        term: 0,
        vote: None,
        commit: 0,
        applied: 0,
        leader: None,
        votes: Set::empty(),
        next: Map::empty(),
        matched: Map::empty(),
        election_elapsed: 0,
        heartbeat_elapsed: 0,
        timeout: v.election_timeout,
        election_timeout: v.election_timeout,
        heartbeat_timeout: v.heartbeat_timeout,
        rng: seed | 1,
        outbox: Seq::empty(),
        pending: None,
    };
    let b = a.reset_timer();
    assert(h.sound(h.full[id], 0)) by {
        reveal(History::sound);
    }
    assert(h.stores(voters, b)) by {
        assert(st.log =~= h.full[id].skip(0));
    }
    steps::lemma_recompute(h, voters, b);
    node::lemma_recompute_wf(b);
    if v.heartbeat_timeout == 0 {
        assert(v.heartbeat_timeout == 1);
    }
    assert(v == b.recompute_conf());
    assert(v.members() =~= history::conf(voters, h.full[id]));
    assert(h.acks_ok(v)) by {
        reveal(History::acks_ok);
    }
}

/// What an event makes of a node is on record.
#[verifier::spinoff_prover]
#[verifier::rlimit(60)]
pub proof fn lemma_react(c: Cluster, h: History, e: Event) -> (g: History)
    requires
        h.describes(c),
        c.allows(e),
    ensures
        g.good(c.voters, e.node(), c.react(e)),
        h.grows(g, e.node()),
{
    let id = e.node();
    let v = c.nodes[id];
    let w = c.react(e);
    assert(c.nodes.contains_key(id));
    history::lemma_grows_same(h, id);
    assert(h.good(c.voters, id, v));
    match e {
        Event::Tick { .. } => steps::lemma_tick(h, c.voters, id, v),
        Event::Deliver { m } => steps::lemma_step(h, c.voters, id, v, m),
        Event::Campaign { from, term, .. } => steps::lemma_step(
            h,
            c.voters,
            id,
            v,
            MessageView { from, to: id, term, body: BodyView::TimeoutNow },
        ),
        Event::Propose { data, .. } => steps::lemma_propose(h, c.voters, id, v, data),
        Event::Change { cc, .. } => steps::lemma_propose_conf(h, c.voters, id, v, cc),
        Event::Compact { index, data, .. } => {
            steps::lemma_compact(h, c.voters, id, v, index, data);
            h
        },
        Event::TakeMessages { .. } => {
            let x = NodeView { outbox: Seq::<MessageView>::empty(), ..v };
            node::lemma_conf_same(x, v, v.st.last_index());
            assert(h.acks_ok(x)) by {
                reveal(History::acks_ok);
            }
            h
        },
        Event::TakeCommitted { .. } => {
            steps::lemma_quiet(h, c.voters, id, v, w);
            h
        },
        Event::TakeSnapshot { .. } => {
            steps::lemma_quiet(h, c.voters, id, v, w);
            h
        },
        Event::Restart { election_timeout, heartbeat_timeout, seed, .. } => {
            steps::lemma_restart(
                h,
                c.voters,
                id,
                v,
                election_timeout,
                heartbeat_timeout,
                seed,
            );
            h
        },
    }
}

/// The others and the messages stay in order while one node is at work.
#[verifier::spinoff_prover]
#[verifier::rlimit(40)]
pub proof fn lemma_rest(c: Cluster, h: History, g: History, id: u64, w: NodeView)
    requires
        h.describes(c),
        g.good(c.voters, id, w),
        h.grows(g, id),
    ensures
        g.describes(
            (Cluster {
                nodes: c.nodes.insert(id, w),
                sent: c.sent.union(w.outbox.to_set()),
                ..c
            }),
        ),
{
    let d = Cluster {
        nodes: c.nodes.insert(id, w),
        sent: c.sent.union(w.outbox.to_set()),
        ..c
    };
    assert forall|n: u64| #[trigger] d.nodes.contains_key(n) implies g.node_ok(
        d.voters,
        n,
        d.nodes[n],
    ) && g.outbox_ok(d.voters, d.nodes[n]) by {
        if n != id {
            assert(c.nodes.contains_key(n));
            history::lemma_other_grows(h, g, id, c.voters, n, c.nodes[n]);
            steps::lemma_outbox_grows(h, g, id, c.voters, c.nodes[n]);
        }
    }
    assert forall|m: MessageView| #[trigger] d.sent.contains(m) implies g.message_ok(
        d.voters,
        m,
    ) by {
        if c.sent.contains(m) {
            history::lemma_message_grows(h, g, id, c.voters, m);
        } else {
            let k = choose|k: int| 0 <= k < w.outbox.len() && w.outbox[k] == m;
            assert(g.message_ok(c.voters, w.outbox[k]));
        }
    }
}

/// An event leaves the history in order.
proof fn lemma_event(c: Cluster, h: History, e: Event) -> (g: History)
    requires
        h.describes(c),
        c.allows(e),
    ensures
        g.describes(c.after(e)),
        h.grows(g, e.node()),
{
    let g = lemma_react(c, h, e);
    lemma_rest(c, h, g, e.node(), c.react(e));
    g
}

/// Every reachable state has a history.
proof fn lemma_run(c: Cluster, es: Seq<Event>) -> (h: History)
    requires
        c.initial(),
        c.lawful(es),
    ensures
        h.describes(c.run(es)),
        c.run(es).voters == c.voters,
    decreases es.len(),
{
    if es.len() == 0 {
        lemma_initial(c)
    } else {
        let h = lemma_run(c, es.drop_last());
        lemma_event(c.run(es.drop_last()), h, es.last())
    }
}

/// Nodes come and go only in the voters' list.
proof fn lemma_same_nodes(c: Cluster, es: Seq<Event>, n: u64)
    requires
        c.lawful(es),
    ensures
        c.run(es).nodes.contains_key(n) <==> c.nodes.contains_key(n),
    decreases es.len(),
{
    if es.len() > 0 {
        lemma_same_nodes(c, es.drop_last(), n);
    }
}

/// The beginning of a lawful run is lawful.
proof fn lemma_lawful_take(c: Cluster, es: Seq<Event>, k: int)
    requires
        c.lawful(es),
        0 <= k <= es.len(),
    ensures
        c.lawful(es.take(k)),
    decreases es.len(),
{
    if k < es.len() {
        lemma_lawful_take(c, es.drop_last(), k);
        assert(es.drop_last().take(k) =~= es.take(k));
    } else {
        assert(es.take(k) =~= es);
    }
}

/// What one moment's history says, a later one's does too.
pub open spec fn carries(h: History, g: History, voters: Seq<u64>) -> bool {
    &&& forall|t: u64| #[trigger]
        h.elected.contains_key(t) ==> g.elected.contains_key(t) && g.elected[t] == h.elected[t]
    &&& forall|log: Seq<EntryView>, n: int, top: int| #[trigger]
        h.settled(voters, log, n, top) && 0 <= n ==> g.settled(voters, log, n, top)
}

/// Two moments of one run.
proof fn lemma_span(c: Cluster, es: Seq<Event>, k: int) -> (r: (History, History))
    requires
        c.initial(),
        c.lawful(es),
        0 <= k <= es.len(),
    ensures
        r.0.describes(c.run(es.take(k))),
        r.1.describes(c.run(es)),
        carries(r.0, r.1, c.voters),
        c.run(es.take(k)).voters == c.voters,
        c.run(es).voters == c.voters,
    decreases es.len(),
{
    if k == es.len() {
        assert(es.take(k) =~= es);
        let h = lemma_run(c, es);
        (h, h)
    } else {
        let before = es.drop_last();
        assert(es.take(k) =~= before.take(k));
        let (h, g) = lemma_span(c, before, k);
        let e = es.last();
        let f = lemma_event(c.run(before), g, e);
        assert forall|log: Seq<EntryView>, n: int, top: int| #[trigger]
            h.settled(c.voters, log, n, top) && 0 <= n implies f.settled(c.voters, log, n, top) by {
            assert(g.settled(c.voters, log, n, top));
            history::lemma_settled_grows(g, f, e.node(), c.voters, log, n, top);
        }
        (h, f)
    }
}

/// The entry at an index, where the store holds it, is the one of the whole log.
proof fn lemma_entry_at(h: History, voters: Seq<u64>, id: u64, v: NodeView, i: u64)
    requires
        h.node_ok(voters, id, v),
        i >= 1,
    ensures
        entry_at(v.st, i) is Some ==> i <= h.full[id].len() && entry_at(v.st, i)->0
            == h.full[id][i - 1],
        v.st.last_index() == h.full[id].len(),
{
    steps::lemma_store(h, voters, id, v);
    let base = v.st.base() as int;
    if v.st.base() < i <= v.st.last_index() {
        assert(v.st.log[i - base - 1] == h.full[id][i - 1]);
    }
}

/// **Election safety**: a term has at most one leader, at any two moments of a run.
pub proof fn law_election_safety(c: Cluster, es: Seq<Event>, k: int, a: u64, b: u64, term: u64)
    requires
        c.initial(),
        c.lawful(es),
        0 <= k <= es.len(),
        c.run(es.take(k)).leads(a, term),
        c.run(es).leads(b, term),
    ensures
        a == b,
{
    let (h, g) = lemma_span(c, es, k);
    let x = c.run(es.take(k));
    let y = c.run(es);
    assert(h.node_ok(c.voters, a, x.nodes[a]));
    assert(g.node_ok(c.voters, b, y.nodes[b]));
    assert(h.elected.contains_key(term));
}

/// The logs of two nodes match.
proof fn lemma_match(h: History, voters: Seq<u64>, a: u64, b: u64, v: NodeView, w: NodeView, i: u64, j: u64)
    requires
        h.node_ok(voters, a, v),
        h.node_ok(voters, b, w),
        entry_at(v.st, i) is Some,
        entry_at(w.st, i) is Some,
        entry_at(v.st, i)->0.term == entry_at(w.st, i)->0.term,
        1 <= j <= i,
        entry_at(v.st, j) is Some,
        entry_at(w.st, j) is Some,
    ensures
        entry_at(v.st, j) == entry_at(w.st, j),
{
    lemma_entry_at(h, voters, a, v, i);
    lemma_entry_at(h, voters, b, w, i);
    lemma_entry_at(h, voters, a, v, j);
    lemma_entry_at(h, voters, b, w, j);
    history::lemma_logs_match(
        h,
        h.full[a],
        h.full[b],
        v.term as int,
        w.term as int,
        i - 1,
    );
    assert(h.full[a].take(i as int)[j - 1] == h.full[a][j - 1]);
    assert(h.full[b].take(i as int)[j - 1] == h.full[b][j - 1]);
}

/// **Log matching**: where two nodes hold entries of the same term at the same index, their logs
/// are the same up to it.
pub proof fn law_log_matching(c: Cluster, es: Seq<Event>, a: u64, b: u64, i: u64, j: u64)
    requires
        c.initial(),
        c.lawful(es),
        c.nodes.contains_key(a),
        c.nodes.contains_key(b),
        ({
            let x = entry_at(c.run(es).nodes[a].st, i);
            let y = entry_at(c.run(es).nodes[b].st, i);
            x is Some && y is Some && x->0.term == y->0.term
        }),
        1 <= j <= i,
        entry_at(c.run(es).nodes[a].st, j) is Some,
        entry_at(c.run(es).nodes[b].st, j) is Some,
    ensures
        entry_at(c.run(es).nodes[a].st, j) == entry_at(c.run(es).nodes[b].st, j),
{
    let h = lemma_run(c, es);
    let d = c.run(es);
    let v = d.nodes[a];
    let w = d.nodes[b];
    lemma_same_nodes(c, es, a);
    lemma_same_nodes(c, es, b);
    lemma_match(h, c.voters, a, b, v, w, i, j);
}

/// **Leader completeness**: what a node knew to be committed is in the log of every leader of the
/// same or a later term, then and later.
pub proof fn law_leader_completeness(c: Cluster, es: Seq<Event>, k: int, a: u64, b: u64, i: u64)
    requires
        c.initial(),
        c.lawful(es),
        0 <= k <= es.len(),
        c.nodes.contains_key(a),
        1 <= i <= c.run(es.take(k)).nodes[a].commit,
        c.nodes.contains_key(b),
        c.run(es).nodes[b].role == Role::Leader,
        c.run(es.take(k)).nodes[a].term <= c.run(es).nodes[b].term,
    ensures
        i <= c.run(es.take(k)).nodes[a].st.last_index(),
        i <= c.run(es).nodes[b].st.last_index(),
        ({
            let x = entry_at(c.run(es.take(k)).nodes[a].st, i);
            let y = entry_at(c.run(es).nodes[b].st, i);
            x is Some && y is Some ==> x == y
        }),
{
    let (h, g) = lemma_span(c, es, k);
    let x = c.run(es.take(k));
    let y = c.run(es);
    let v = x.nodes[a];
    let w = y.nodes[b];
    lemma_lawful_take(c, es, k);
    lemma_same_nodes(c, es.take(k), a);
    lemma_same_nodes(c, es, b);
    lemma_entry_at(h, c.voters, a, v, i);
    lemma_entry_at(g, c.voters, b, w, i);
    let full = h.full[a];
    assert(h.settled(c.voters, full, v.commit as int, v.term as int));
    steps::lemma_settled_len(h, c.voters, full, v.commit as int, v.term as int);
    assert(g.settled(c.voters, full, v.commit as int, v.term as int));
    lemma_leader_has(g, c.voters, full, v.commit as int, v.term as int, b, w, i as int);
}

/// A leader has what is settled.
proof fn lemma_leader_has(
    g: History,
    voters: Seq<u64>,
    full: Seq<EntryView>,
    n: int,
    top: int,
    b: u64,
    w: NodeView,
    i: int,
)
    requires
        g.ok(voters),
        g.node_ok(voters, b, w),
        w.role == Role::Leader,
        g.settled(voters, full, n, top),
        top <= w.term,
        1 <= i <= n <= full.len(),
    ensures
        i <= g.full[b].len(),
        full[i - 1] == g.full[b][i - 1],
{
    assert(g.leader_ok(w));
    history::lemma_settled_in(g, voters, full, n, top, w.term);
    assert(full.take(n)[i - 1] == full[i - 1]);
    assert(g.full[b].take(n)[i - 1] == g.full[b][i - 1]);
}

/// **State machine safety**: no two nodes, at any two moments of a run, take different entries at
/// the same index for committed.
pub proof fn law_state_machine_safety(c: Cluster, es: Seq<Event>, k: int, a: u64, b: u64, i: u64)
    requires
        c.initial(),
        c.lawful(es),
        0 <= k <= es.len(),
        c.nodes.contains_key(a),
        c.nodes.contains_key(b),
        1 <= i <= c.run(es.take(k)).nodes[a].commit,
        i <= c.run(es).nodes[b].commit,
    ensures
        i <= c.run(es.take(k)).nodes[a].st.last_index(),
        i <= c.run(es).nodes[b].st.last_index(),
        ({
            let x = entry_at(c.run(es.take(k)).nodes[a].st, i);
            let y = entry_at(c.run(es).nodes[b].st, i);
            x is Some && y is Some ==> x == y
        }),
{
    let (h, g) = lemma_span(c, es, k);
    let x = c.run(es.take(k));
    let y = c.run(es);
    let v = x.nodes[a];
    let w = y.nodes[b];
    lemma_lawful_take(c, es, k);
    lemma_same_nodes(c, es.take(k), a);
    lemma_same_nodes(c, es, b);
    lemma_entry_at(h, c.voters, a, v, i);
    lemma_entry_at(g, c.voters, b, w, i);
    let full = h.full[a];
    assert(h.settled(c.voters, full, v.commit as int, v.term as int));
    assert(g.settled(c.voters, full, v.commit as int, v.term as int));
    history::lemma_settled_agree(
        g,
        c.voters,
        full,
        g.full[b],
        v.commit as int,
        w.commit as int,
        v.term as int,
        w.term as int,
        i as int,
    );
}

/// The term never goes down, and a vote once cast in a term stands for the whole of it.
pub proof fn law_vote_once(v: NodeView, m: MessageView)
    requires
        v.term < u64::MAX,
        m.term < u64::MAX,
    ensures
        v.step(m).term >= v.term,
        v.step(m).term == v.term && v.vote is Some ==> v.step(m).vote == v.vote,
        v.tick().term >= v.term,
        v.tick().term == v.term && v.vote is Some ==> v.tick().vote == v.vote,
{
    let a = v.adopt(m);
    lemma_still(NodeView { heartbeat_elapsed: 0, ..v });
    lemma_campaign(NodeView { election_elapsed: node::bump(v.election_elapsed), ..v });
    assert(a.term >= v.term);
    assert(a.term == v.term ==> a.vote == v.vote);
    match m.body {
        BodyView::RequestVoteResp { .. } => {
            let w = NodeView { votes: a.votes.insert(m.from), ..a };
            node::lemma_send_appends(steps::winner(w), steps::winner(w).targets());
        },
        BodyView::TimeoutNow => {
            lemma_campaign(a);
        },
        _ => {},
    }
}

/// Terms go by one rule, whatever the message: a node takes up a newer term as a follower, keeps
/// its own otherwise, keeps its vote within a term, and has written both through.
pub proof fn law_term_rule(v: NodeView, m: MessageView)
    requires
        v.wf(),
        m.well_formed(),
        m.body !is TimeoutNow,
    ensures
        ({
            let w = v.step(m);
            &&& w.term == node::larger(v.term, m.term)
            &&& m.term > v.term ==> w.role == Role::Follower
            &&& w.term == v.term && v.vote is Some ==> w.vote == v.vote
            &&& w.st.hard == (HardState { current_term: w.term, voted_for: w.vote })
        }),
{
    node::lemma_step_wf(v, m);
    let a = v.adopt(m);
    let w = NodeView { votes: a.votes.insert(m.from), ..a };
    node::lemma_send_appends(steps::winner(w), steps::winner(w).targets());
}

/// Sending keeps term and vote.
proof fn lemma_still(v: NodeView)
    ensures
        v.broadcast_append().term == v.term,
        v.broadcast_append().vote == v.vote,
{
    node::lemma_send_appends(v, v.targets());
}

/// Campaigning starts a new term.
proof fn lemma_campaign(v: NodeView)
    ensures
        v.term < u64::MAX ==> v.start_election().term == v.term + 1,
{
    let w = steps::candidate(v);
    node::lemma_send_appends(steps::winner(w), steps::winner(w).targets());
    node::lemma_ask_votes(w, w.peers());
}

/// A node that is no voter never campaigns on its own.
pub proof fn law_bystander(v: NodeView)
    requires
        !v.is_voter(),
        v.role != Role::Leader,
    ensures
        v.tick().role == v.role,
        v.tick().term == v.term,
        v.tick().outbox == v.outbox,
{
}

/// A vote goes only to a candidate whose log is at least as up to date.
pub proof fn law_vote_up_to_date(v: NodeView, m: MessageView)
    requires
        m.body is RequestVote,
        v.step(m).outbox.len() > v.outbox.len(),
        v.step(m).outbox.last().body == (BodyView::RequestVoteResp { granted: true }),
    ensures
        v.up_to_date(m.body->last_log_index, m.body->last_log_term),
        m.term >= v.term,
{
}

/// An append never touches what the node's snapshot covers.
pub proof fn law_snapshot_immutable(v: NodeView, m: MessageView)
    requires
        m.body is AppendEntries,
    ensures
        v.step(m).st.snap == v.st.snap,
{
}

/// A restart keeps term, vote, log and snapshot, and derives the members from them.
pub proof fn law_restart(
    v: NodeView,
    election_timeout: u32,
    heartbeat_timeout: u32,
    seed: u64,
)
    requires
        v.wf(),
    ensures
        ({
            let w = NodeView::start(
                v.id,
                v.boot,
                election_timeout,
                heartbeat_timeout,
                seed,
                v.st,
            );
            &&& w.term == v.term
            &&& w.vote == v.vote
            &&& w.st == v.st
            &&& w.members() == v.members()
            &&& w.role == Role::Follower
        }),
{
    let w = NodeView::start(v.id, v.boot, election_timeout, heartbeat_timeout, seed, v.st);
    node::lemma_conf_same(w, v, v.st.last_index());
    assert(w.members() =~= v.conf_at(v.st.last_index()));
}

/// A node starts with what its store holds.
pub proof fn lemma_start_store(
    id: u64,
    voters: Seq<u64>,
    election_timeout: u32,
    heartbeat_timeout: u32,
    seed: u64,
    st: StorageView,
)
    ensures
        NodeView::start(id, voters, election_timeout, heartbeat_timeout, seed, st).st == st,
        NodeView::start(id, voters, election_timeout, heartbeat_timeout, seed, st).id == id,
{
}

/// The commit index never goes down, as long as no message claims more than it carries: a leader
/// sends all of its log from some entry on, and never claims more than its log.
pub proof fn law_commit_forward(v: NodeView, m: MessageView)
    requires
        match m.body {
            BodyView::AppendEntries { prev_log_index, entries, leader_commit, .. } => leader_commit
                <= prev_log_index + entries.len() <= u64::MAX,
            _ => true,
        },
    ensures
        v.step(m).commit >= v.commit,
        v.tick().commit >= v.commit,
{
    let a = v.adopt(m);
    node::lemma_send_appends(a, a.targets());
    let h = NodeView { heartbeat_elapsed: 0, ..v };
    node::lemma_send_appends(h, h.targets());
    let x = NodeView { election_elapsed: node::bump(v.election_elapsed), ..v };
    let cx = steps::candidate(x);
    node::lemma_send_appends(steps::winner(cx), steps::winner(cx).targets());
    node::lemma_ask_votes(cx, cx.peers());
    let ca = steps::candidate(a);
    node::lemma_send_appends(steps::winner(ca), steps::winner(ca).targets());
    node::lemma_ask_votes(ca, ca.peers());
    let w = NodeView { votes: a.votes.insert(m.from), ..a };
    node::lemma_send_appends(steps::winner(w), steps::winner(w).targets());
    match m.body {
        BodyView::AppendEntriesResp { match_index, .. } => {
            let r = a.raise(m.from, match_index);
            node::lemma_commit_bound(r, r.st.last_index());
        },
        BodyView::InstallSnapshotResp { match_index } => {
            let r = a.raise(m.from, match_index);
            node::lemma_commit_bound(r, r.st.last_index());
        },
        _ => {},
    }
}

/// As long as a node leads, what it knows its members to hold never shrinks, in whatever order
/// their answers arrive.
pub proof fn law_match_forward(v: NodeView, m: MessageView, id: u64)
    requires
        v.role == Role::Leader,
        v.step(m).role == Role::Leader,
        v.step(m).term == v.term,
        m.term < u64::MAX,
        v.matched.contains_key(id),
    ensures
        v.step(m).matched.contains_key(id),
        v.step(m).matched[id] >= v.matched[id],
{
    let a = v.adopt(m);
    let c = steps::candidate(a);
    node::lemma_send_appends(steps::winner(c), steps::winner(c).targets());
    node::lemma_ask_votes(c, c.peers());
}

/// A membership change takes effect when its entry is appended: the members are those that it
/// results in.
pub proof fn law_change_on_append(v: NodeView, cc: ConfChange)
    requires
        v.wf(),
        v.st.last_index() < u64::MAX - 1,
        v.propose_conf(cc).1 is Ok,
        v.members().change(cc).sorted().voters.len() <= u32::MAX,
        v.members().change(cc).sorted().learners.len() <= u32::MAX,
    ensures
        v.propose_conf(cc).0.members() == v.members().change(cc).sorted(),
{
    let m = v.members().change(cc).sorted();
    let index = (v.st.last_index() + 1) as u64;
    let e = EntryView {
        term: v.term,
        index,
        kind: EntryType::ConfChange,
        data: message::conf_bytes(cc, m.voters, m.learners),
    };
    let a = NodeView { st: v.st.append(seq![e]), ..v };
    let b = a.own_progress(index);
    node::lemma_one_more(v.st, e);
    message::law_conf_roundtrip(cc, m.voters, m.learners);
    let w = b.recompute_conf();
    let x = if v.starts_fresh(cc) {
        NodeView {
            next: w.next.insert(cc.node(), 1),
            matched: w.matched.insert(cc.node(), 0),
            ..w
        }
    } else {
        w
    };
    node::lemma_send_appends(x.advance_commit(), x.advance_commit().targets());
    assert(v.st.log.push(e).last() == e);
    let got = node::last_conf(v.st.log.push(e), b.base_members());
    assert(got =~= m);
    members::lemma_sorted_ids(v.members().change(cc).voters);
    members::lemma_sorted_ids(v.members().change(cc).learners);
    members::lemma_sorted_already(m.voters);
    members::lemma_sorted_already(m.learners);
    assert(m.sorted() =~= m);
}

/// Only one membership change is under way at a time.
pub proof fn law_one_change(v: NodeView, cc: ConfChange)
    requires
        v.role == Role::Leader,
        v.pending_conf(),
    ensures
        v.propose_conf(cc) == (v, Err::<u64, ProposeError>(ProposeError::ConfChangeInProgress)),
{
}

/// A learner leaves the voters, and so every majority, as they are.
pub proof fn law_learner(v: NodeView, id: u64)
    requires
        v.wf(),
    ensures
        v.members().change(ConfChange::AddLearner(id)).sorted().voters == v.voters,
{
    let last = node::last_conf(
        v.st.entries(v.st.first_index(), v.st.last_index()),
        v.base_members(),
    );
    members::lemma_sorted_ids(last.voters);
    members::lemma_sorted_already(v.voters);
}

} // verus!
