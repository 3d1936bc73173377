//! What holds of a group goes on to hold, whatever one node does next.

use vstd::prelude::*;
use vstd::set_lib::*;
use crate::raft::cluster;
use crate::raft::history;
use crate::raft::history::{conf, electors, is_majority, near, term_at, History};
use crate::raft::members;
use crate::raft::members::MembersView;
use crate::raft::message;
use crate::raft::message::{BodyView, ConfChange, EntryType, EntryView, MessageView};
use crate::raft::node;
use crate::raft::node::{NodeView, Role};
use crate::raft::storage::SnapshotView;

verus! {

/// What a store that holds the end of a whole log answers.
pub proof fn lemma_store(h: History, voters: Seq<u64>, id: u64, v: NodeView)
    requires
        h.node_ok(voters, id, v),
    ensures
        v.st.last_index() == h.full[id].len(),
        v.last_log_term() == term_at(h.full[id], h.full[id].len() as int),
        forall|p: u64|
            v.st.base() <= p <= h.full[id].len() ==> #[trigger] v.st.term(p) == Some(
                term_at(h.full[id], p as int),
            ),
        forall|p: u64| p > h.full[id].len() ==> #[trigger] v.st.term(p) == Option::<u64>::None,
{
    let full = h.full[id];
    let base = v.st.base() as int;
    assert forall|p: u64| v.st.base() <= p <= full.len() implies #[trigger] v.st.term(p) == Some(
        term_at(full, p as int),
    ) by {
        if p > v.st.base() {
            assert(v.st.log[p - base - 1] == full[p - 1]);
        }
    }
}

/// Deriving the members of a log from those of its front.
pub proof fn lemma_conf_split(a: Seq<EntryView>, b: Seq<EntryView>, base: MembersView)
    ensures
        node::last_conf(a + b, base) == node::last_conf(b, node::last_conf(a, base)),
    decreases b.len(),
{
    if b.len() > 0 {
        assert((a + b).drop_last() =~= a + b.drop_last());
        assert((a + b).last() == b.last());
        lemma_conf_split(a, b.drop_last(), base);
    } else {
        assert(a + b =~= a);
    }
}

/// Whether the members that a log starts from are sorted does not matter.
pub proof fn lemma_conf_sorted(es: Seq<EntryView>, base: MembersView)
    ensures
        node::last_conf(es, base.sorted()).sorted() == node::last_conf(es, base).sorted(),
    decreases es.len(),
{
    if es.len() > 0 {
        lemma_conf_sorted(es.drop_last(), base);
    } else {
        members::lemma_sorted_ids(base.voters);
        members::lemma_sorted_ids(base.learners);
        members::lemma_sorted_already(base.sorted().voters);
        members::lemma_sorted_already(base.sorted().learners);
    }
}

/// The members that a store records are those of the whole log.
pub proof fn lemma_members(h: History, voters: Seq<u64>, v: NodeView, index: u64)
    requires
        h.stores(voters, v),
        v.boot == voters,
        v.st.base() <= index <= h.full[v.id].len(),
        h.full[v.id].len() < u64::MAX,
    ensures
        v.conf_at(index) == conf(voters, h.full[v.id].take(index as int)),
{
    let full = h.full[v.id];
    let base = v.st.base() as int;
    let first = MembersView { voters, learners: Seq::empty() };
    let es = v.st.entries(v.st.first_index(), index);
    assert(es =~= full.subrange(base, index as int));
    assert(full.take(index as int) =~= full.take(base) + es);
    lemma_conf_split(full.take(base), es, first);
    match v.st.snap {
        Some(_) => {
            lemma_conf_sorted(es, node::last_conf(full.take(base), first));
            assert(v.base_members() =~= conf(voters, full.take(base)));
        },
        None => {
            assert(full.take(base) =~= Seq::<EntryView>::empty());
        },
    }
}

/// Deriving the members anew finds those of the whole log.
pub proof fn lemma_recompute(h: History, voters: Seq<u64>, v: NodeView)
    requires
        h.stores(voters, v),
        v.boot == voters,
        v.st.wf(),
    ensures
        v.conf_at(v.st.last_index()) == conf(voters, h.full[v.id]),
        v.st.last_index() == h.full[v.id].len(),
{
    let full = h.full[v.id];
    lemma_members(h, voters, v, v.st.last_index());
    assert(full.take(full.len() as int) =~= full);
}

/// Whether two states of a node differ in nothing that the record speaks of.
pub open spec fn same_role(v: NodeView, w: NodeView) -> bool {
    &&& w.id == v.id
    &&& w.voters == v.voters
    &&& w.learners == v.learners
    &&& w.boot == v.boot
    &&& w.st == v.st
    &&& w.role == v.role
    &&& w.term == v.term
    &&& w.vote == v.vote
    &&& w.commit == v.commit
    &&& w.votes == v.votes
    &&& w.next == v.next
    &&& w.matched == v.matched
}

/// Timers, the known leader and what was handed out do not matter.
pub proof fn lemma_quiet(h: History, voters: Seq<u64>, id: u64, v: NodeView, w: NodeView)
    requires
        h.good(voters, id, v),
        same_role(v, w),
        w.outbox == v.outbox,
        w.applied <= w.commit,
        w.timers_ok(),
    ensures
        h.good(voters, id, w),
{
    node::lemma_conf_same(w, v, v.st.last_index());
    assert(h.acks_ok(w)) by {
        reveal(History::acks_ok);
    }
}

/// One more message.
pub proof fn lemma_send(h: History, voters: Seq<u64>, id: u64, v: NodeView, to: u64, body: BodyView)
    requires
        h.good(voters, id, v),
        h.message_ok(voters, MessageView { from: v.id, to, term: v.term, body }),
    ensures
        h.good(voters, id, v.send(to, body)),
{
    let w = v.send(to, body);
    node::lemma_send_wf(v, to, body);
    assert(h.acks_ok(w)) by {
        reveal(History::acks_ok);
    }
    assert forall|k: int| 0 <= k < w.outbox.len() implies h.message_ok(
        voters,
        #[trigger] w.outbox[k],
    ) by {
        if k < v.outbox.len() {
            assert(w.outbox[k] == v.outbox[k]);
        }
    }
}

/// What a leader sends to one voter.
pub proof fn lemma_send_append(h: History, voters: Seq<u64>, id: u64, v: NodeView, to: u64)
    requires
        h.good(voters, id, v),
        v.role == Role::Leader,
        to != id,
    ensures
        h.good(voters, id, v.send_append(to)),
{
    let full = h.full[id];
    let base = v.st.base() as int;
    let last = v.st.last_index();
    lemma_store(h, voters, id, v);
    let next = node::value_or(v.next, to, (last + 1) as u64);
    assert(1 <= next <= full.len() + 1);
    assert(h.settled(voters, full, v.commit as int, v.term as int));
    if next < v.st.first_index() {
        let s = v.st.snap->0;
        lemma_settled_len(h, voters, full, base, v.term as int);
        lemma_send(
            h,
            voters,
            id,
            v,
            to,
            BodyView::InstallSnapshot {
                last_included_index: s.last_included_index,
                last_included_term: s.last_included_term,
                conf_state: s.conf_state,
                learners: s.learners,
                data: s.data,
            },
        );
    } else {
        let prev = (next - 1) as u64;
        let es = v.st.entries(next, last);
        assert(es =~= full.subrange(prev as int, full.len() as int));
        lemma_settled_len(h, voters, full, v.commit as int, v.term as int);
        assert(v.st.term(prev) == Some(term_at(full, prev as int)));
        lemma_send(
            h,
            voters,
            id,
            v,
            to,
            BodyView::AppendEntries {
                prev_log_index: prev,
                prev_log_term: term_at(full, prev as int),
                entries: es,
                leader_commit: v.commit,
            },
        );
    }
}

/// Nothing behind the end of a log is settled.
pub proof fn lemma_settled_len(h: History, voters: Seq<u64>, log: Seq<EntryView>, c: int, top: int)
    requires
        h.settled(voters, log, c, top),
        0 <= c,
    ensures
        c <= log.len(),
{
}

/// What a leader sends to several voters.
pub proof fn lemma_send_all(h: History, voters: Seq<u64>, id: u64, v: NodeView, ids: Seq<u64>)
    requires
        h.good(voters, id, v),
        v.role == Role::Leader,
        forall|k: int| 0 <= k < ids.len() ==> #[trigger] ids[k] != id,
    ensures
        h.good(voters, id, v.send_appends(ids)),
    decreases ids.len(),
{
    if ids.len() > 0 {
        assert forall|k: int| 0 <= k < ids.drop_last().len() implies #[trigger] ids.drop_last()[k]
            != id by {
            assert(ids.drop_last()[k] == ids[k]);
        }
        lemma_send_all(h, voters, id, v, ids.drop_last());
        node::lemma_send_appends(v, ids.drop_last());
        assert(ids.last() == ids[ids.len() - 1]);
        lemma_send_append(h, voters, id, v.send_appends(ids.drop_last()), ids.last());
    }
}

/// What a leader sends to all others.
pub proof fn lemma_broadcast(h: History, voters: Seq<u64>, id: u64, v: NodeView)
    requires
        h.good(voters, id, v),
        v.role == Role::Leader,
    ensures
        h.good(voters, id, v.broadcast_append()),
{
    members::lemma_without(v.voters + v.learners, v.id);
    let ids = v.targets();
    assert forall|k: int| 0 <= k < ids.len() implies #[trigger] ids[k] != id by {
        assert(ids.contains(ids[k]));
    }
    lemma_send_all(h, voters, id, v, ids);
}

/// Requests for votes.
pub proof fn lemma_ask(h: History, voters: Seq<u64>, id: u64, v: NodeView, ids: Seq<u64>)
    requires
        h.good(voters, id, v),
        v.role == Role::Candidate,
        forall|k: int| 0 <= k < ids.len() ==> v.voters.contains(#[trigger] ids[k]),
    ensures
        h.good(voters, id, v.ask_votes(ids)),
    decreases ids.len(),
{
    if ids.len() > 0 {
        assert forall|k: int| 0 <= k < ids.drop_last().len() implies v.voters.contains(
            #[trigger] ids.drop_last()[k],
        ) by {
            assert(ids.drop_last()[k] == ids[k]);
        }
        assert(v.voters.contains(ids[ids.len() - 1]));
        lemma_ask(h, voters, id, v, ids.drop_last());
        node::lemma_ask_votes(v, ids.drop_last());
        lemma_store(h, voters, id, v);
        lemma_send(
            h,
            voters,
            id,
            v.ask_votes(ids.drop_last()),
            ids.last(),
            BodyView::RequestVote {
                last_log_index: v.st.last_index(),
                last_log_term: v.last_log_term(),
            },
        );
    }
}

/// A newer term.
pub proof fn lemma_newer_term(
    h: History,
    voters: Seq<u64>,
    id: u64,
    v: NodeView,
    term: u64,
    leader: Option<u64>,
)
    requires
        h.good(voters, id, v),
        term > v.term,
    ensures
        h.good(voters, id, v.become_follower(term, leader)),
{
    let w = v.become_follower(term, leader);
    let full = h.full[id];
    node::lemma_follower_wf(v, term, leader);
    assert(h.sound(full, term as int)) by {
        reveal(History::sound);
    }
    assert(h.acks_ok(w)) by {
        reveal(History::acks_ok);
        assert forall|t: u64, i: int| #[trigger] h.own(t, i) && i <= h.ack(w.id, t) implies t
            <= w.term && h.kept(h.full[w.id], t, i, w.term as int) by {
            assert(h.kept(full, t, i, v.term as int));
            if !h.holds(full, t, i) {
                let s = choose|s: u64| t < s <= v.term && #[trigger] h.lacks(s, t, i);
                assert(h.lacks(s, t, i) && t < s <= w.term);
            }
        }
    }
    history::lemma_settled_later(h, voters, full, v.commit as int, v.term as int, term as int);
    history::lemma_settled_later(h, voters, full, v.st.base() as int, v.term as int, term as int);
    assert(h.stores(voters, w));
}

/// The record with one more vote.
pub open spec fn with_vote(h: History, n: u64, u: u64, c: u64) -> History {
    History { voted: h.voted.insert((n, u), c), ..h }
}

/// A vote for a log that is at least as up to date keeps what the voter had confirmed.
pub proof fn lemma_up_to_date(
    h: History,
    voters: Seq<u64>,
    mine: Seq<EntryView>,
    theirs: Seq<EntryView>,
    top: int,
    u: u64,
    t: u64,
    i: int,
)
    requires
        h.ok(voters),
        h.sound(mine, top),
        h.sound(theirs, u - 1),
        h.own(t, i),
        h.holds(mine, t, i),
        term_at(theirs, theirs.len() as int) > term_at(mine, mine.len() as int) || (term_at(
            theirs,
            theirs.len() as int,
        ) == term_at(mine, mine.len() as int) && theirs.len() >= mine.len()),
    ensures
        h.holds(theirs, t, i) || exists|s: u64| t < s < u && #[trigger] h.lacks(s, t, i),
{
    let last = mine.len() - 1;
    assert(mine.take(i)[i - 1] == mine[i - 1]);
    assert(h.tlog[t].take(i)[i - 1] == h.tlog[t][i - 1]);
    history::lemma_terms_ordered(h, voters, mine, top, i - 1, last);
    let s = term_at(theirs, theirs.len() as int);
    assert(s >= t);
    assert(h.term_ok(voters, t));
    assert(theirs.len() > 0);
    let k = theirs.len() - 1;
    history::lemma_entry(h, theirs, u - 1, k);
    assert(theirs.take(k + 1) =~= theirs);
    if s == t {
        history::lemma_holds_less(theirs, h.tlog[t], k + 1, i);
    } else if h.lacks(s, t, i) {
        assert(t < s < u);
    } else {
        assert(h.holds(h.tlog[s], t, i));
        assert(h.term_ok(voters, s));
        assert(h.tlog[s].take(i)[i - 1] == h.tlog[s][i - 1]);
        if k < i {
            if k < i - 1 {
                history::lemma_terms_ordered(h, voters, h.tlog[s], s as int, k, i - 1);
            }
            assert(false);
        }
        history::lemma_holds_less(theirs, h.tlog[s], k + 1, i);
    }
}

/// One more vote: what holds of the record.
pub proof fn lemma_vote_record(h: History, voters: Seq<u64>, id: u64, v: NodeView, c: u64)
    requires
        h.good(voters, id, v),
        v.vote is None,
        h.clog.contains_key((c, v.term)),
        electors(voters, h.clog[(c, v.term)]).contains(id),
        ({
            let theirs = h.clog[(c, v.term)];
            let mine = h.full[id];
            term_at(theirs, theirs.len() as int) > term_at(mine, mine.len() as int) || (term_at(
                theirs,
                theirs.len() as int,
            ) == term_at(mine, mine.len() as int) && theirs.len() >= mine.len())
        }),
    ensures
        with_vote(h, id, v.term, c).ok(voters),
        h.grows(with_vote(h, id, v.term, c), id),
{
    let u = v.term;
    let g = with_vote(h, id, u, c);
    history::lemma_grows_same(h, id);
    assert(h.grows(g, id));
    assert forall|t: u64| #[trigger] g.elected.contains_key(t) implies g.term_ok(voters, t) by {
        assert(h.term_ok(voters, t));
        history::lemma_sound_grows(h, g, id, h.tlog[t], t as int);
        history::lemma_changes_grow(h, g, id, voters, t);
        assert forall|n: u64| #[trigger] g.quorum[t].contains(n) implies g.voted.contains_key(
            (n, t),
        ) && g.voted[(n, t)] == g.elected[t] by {
            assert(h.voted.contains_key((n, t)));
        }
    }
    assert forall|n: u64, t: u64| #[trigger] g.acked.contains_key((n, t)) implies
        g.elected.contains_key(t) && g.ack(n, t) <= g.tlog[t].len() by {
        assert(h.ack(n, t) == g.ack(n, t));
    }
    assert forall|d: u64, s: u64| #[trigger] g.clog.contains_key((d, s)) implies g.sound(
        g.clog[(d, s)],
        s - 1,
    ) by {
        history::lemma_sound_grows(h, g, id, h.clog[(d, s)], s - 1);
    }
    assert(g.votes_ok()) by {
        reveal(History::votes_ok);
        assert forall|n: u64, w: u64, t: u64, i: int|
            #![trigger g.voted.contains_key((n, w)), g.own(t, i)]
            g.voted.contains_key((n, w)) && g.own(t, i) && t < w && i <= g.ack(n, t) implies
            g.vote_ok(n, w, t, i) by {
            assert(h.own(t, i));
            assert(h.ack(n, t) == g.ack(n, t));
            if n == id && w == u {
                assert(h.acks_ok(v));
                assert(h.kept(h.full[id], t, i, u as int)) by {
                    reveal(History::acks_ok);
                }
                if h.elected.contains_key(u) {
                    assert(h.term_ok(voters, u));
                    if h.quorum[u].contains(n) {
                        assert(h.voted.contains_key((n, u)));
                    }
                }
                if h.holds(h.full[id], t, i) {
                    lemma_up_to_date(
                        h,
                        voters,
                        h.full[id],
                        h.clog[(c, u)],
                        v.term as int,
                        u,
                        t,
                        i,
                    );
                    if !h.holds(h.clog[(c, u)], t, i) {
                        let s = choose|s: u64| t < s < u && #[trigger] h.lacks(s, t, i);
                        assert(g.lacks(s, t, i));
                    }
                } else {
                    let s = choose|s: u64| t < s <= u && #[trigger] h.lacks(s, t, i);
                    assert(g.lacks(s, t, i));
                }
            } else {
                assert(h.voted.contains_key((n, w)));
                assert(h.vote_ok(n, w, t, i));
                if exists|s: u64| t < s < w && #[trigger] h.lacks(s, t, i) {
                    let s = choose|s: u64| t < s < w && #[trigger] h.lacks(s, t, i);
                    assert(g.lacks(s, t, i));
                }
            }
        }
    }
}

/// A granted vote.
pub proof fn lemma_grant(h: History, voters: Seq<u64>, id: u64, v: NodeView, c: u64) -> (g: History)
    requires
        h.good(voters, id, v),
        v.vote is None || v.vote == Some(c),
        h.clog.contains_key((c, v.term)),
        electors(voters, h.clog[(c, v.term)]).contains(id),
        ({
            let theirs = h.clog[(c, v.term)];
            let mine = h.full[id];
            term_at(theirs, theirs.len() as int) > term_at(mine, mine.len() as int) || (term_at(
                theirs,
                theirs.len() as int,
            ) == term_at(mine, mine.len() as int) && theirs.len() >= mine.len())
        }),
    ensures
        g.good(voters, id, (NodeView { vote: Some(c), ..v }).persist().reset_timer()),
        h.grows(g, id),
        g.voted.contains_key((id, v.term)) && g.voted[(id, v.term)] == c,
{
    let w = (NodeView { vote: Some(c), ..v }).persist().reset_timer();
    node::lemma_conf_same(w, v, v.st.last_index());
    let g = if v.vote is None {
        lemma_vote_record(h, voters, id, v, c);
        with_vote(h, id, v.term, c)
    } else {
        history::lemma_grows_same(h, id);
        h
    };
    lemma_same_log(h, g, voters, id, v, w);
    assert(g.vote_recorded(w));
    if w.role == Role::Candidate {
        assert(h.candidate_ok(v));
        assert(g.candidate_ok(w));
    }
    if w.role == Role::Leader {
        assert(g.leader_ok(w));
    }
    g
}

/// The record may grow while a node's log stays as it is.
pub proof fn lemma_same_log(h: History, g: History, voters: Seq<u64>, id: u64, v: NodeView, w: NodeView)
    requires
        h.good(voters, id, v),
        g.ok(voters),
        h.grows(g, id),
        g.full[id] == h.full[id],
        w.id == v.id,
        w.st.log == v.st.log,
        w.st.snap == v.st.snap,
        w.term >= v.term,
        w.commit == v.commit,
        w.outbox == v.outbox,
        forall|t: u64| #![trigger g.ack(id, t)] g.ack(id, t) == h.ack(id, t),
    ensures
        g.stores(voters, w),
        g.sound(g.full[id], w.term as int),
        g.acks_ok(w),
        g.settled(voters, g.full[id], w.commit as int, w.term as int),
        g.settled(voters, g.full[id], w.st.base() as int, w.term as int),
        g.outbox_ok(voters, w),
{
    let full = h.full[id];
    history::lemma_sound_grows(h, g, id, full, v.term as int);
    assert(g.sound(full, w.term as int)) by {
        reveal(History::sound);
    }
    assert(g.acks_ok(w)) by {
        reveal(History::acks_ok);
        assert forall|t: u64, i: int| #[trigger] g.own(t, i) && i <= g.ack(w.id, t) implies t
            <= w.term && g.kept(g.full[w.id], t, i, w.term as int) by {
            assert(h.ack(id, t) == g.ack(id, t));
            assert(h.acked.contains_key((id, t)));
            history::lemma_own_grows(h, g, id, t, i);
            assert(h.own(t, i));
            history::lemma_kept_grows(h, g, id, full, t, i, v.term as int);
            if !g.holds(full, t, i) {
                let s = choose|s: u64| t < s <= v.term && #[trigger] g.lacks(s, t, i);
                assert(g.lacks(s, t, i) && t < s <= w.term);
            }
        }
    }
    history::lemma_settled_grows(h, g, id, voters, full, v.commit as int, v.term as int);
    history::lemma_settled_later(g, voters, full, v.commit as int, v.term as int, w.term as int);
    history::lemma_settled_grows(h, g, id, voters, full, v.st.base() as int, v.term as int);
    history::lemma_settled_later(
        g,
        voters,
        full,
        v.st.base() as int,
        v.term as int,
        w.term as int,
    );
    lemma_outbox_grows(h, g, id, voters, v);
}

/// What was queued stays in order.
pub proof fn lemma_outbox_grows(h: History, g: History, id: u64, voters: Seq<u64>, v: NodeView)
    requires
        h.grows(g, id),
        members::ascending(voters),
        h.outbox_ok(voters, v),
    ensures
        g.outbox_ok(voters, v),
{
    assert forall|k: int| 0 <= k < v.outbox.len() implies g.message_ok(
        voters,
        #[trigger] v.outbox[k],
    ) by {
        history::lemma_message_grows(h, g, id, voters, v.outbox[k]);
    }
}

/// The record with a new candidate, which votes for itself.
pub open spec fn with_candidate(h: History, n: u64, u: u64) -> History {
    History {
        voted: h.voted.insert((n, u), n),
        clog: h.clog.insert((n, u), h.full[n]),
        ..h
    }
}

/// The node as it stands when it has voted for itself in a new term.
pub open spec fn candidate(v: NodeView) -> NodeView {
    let a = (NodeView {
        role: Role::Candidate,
        term: (v.term + 1) as u64,
        vote: Some(v.id),
        ..v
    }).persist();
    (NodeView { leader: None, votes: set![v.id], ..a }).reset_timer()
}

/// A new candidate.
pub proof fn lemma_candidate(h: History, voters: Seq<u64>, id: u64, v: NodeView) -> (g: History)
    requires
        h.good(voters, id, v),
        v.term < u64::MAX,
        v.is_voter(),
    ensures
        g.good(voters, id, candidate(v)),
        h.grows(g, id),
{
    let u = (v.term + 1) as u64;
    let w = candidate(v);
    let g = with_candidate(h, id, u);
    assert(!h.voted.contains_key((id, u)));
    assert(!h.clog.contains_key((id, u)));
    history::lemma_grows_same(h, id);
    assert(h.grows(g, id));
    assert forall|t: u64| #[trigger] g.elected.contains_key(t) implies g.term_ok(voters, t) by {
        assert(h.term_ok(voters, t));
        history::lemma_sound_grows(h, g, id, h.tlog[t], t as int);
        history::lemma_changes_grow(h, g, id, voters, t);
        assert(h.clog.contains_key((h.elected[t], t)));
        assert forall|n: u64| #[trigger] g.quorum[t].contains(n) implies g.voted.contains_key(
            (n, t),
        ) && g.voted[(n, t)] == g.elected[t] by {
            assert(h.voted.contains_key((n, t)));
        }
    }
    assert forall|n: u64, t: u64| #[trigger] g.acked.contains_key((n, t)) implies
        g.elected.contains_key(t) && g.ack(n, t) <= g.tlog[t].len() by {
        assert(h.ack(n, t) == g.ack(n, t));
    }
    assert forall|d: u64, s: u64| #[trigger] g.clog.contains_key((d, s)) implies g.sound(
        g.clog[(d, s)],
        s - 1,
    ) by {
        if d == id && s == u {
            history::lemma_sound_grows(h, g, id, h.full[id], v.term as int);
        } else {
            assert(h.clog.contains_key((d, s)));
            history::lemma_sound_grows(h, g, id, h.clog[(d, s)], s - 1);
        }
    }
    assert(g.votes_ok()) by {
        reveal(History::votes_ok);
        assert forall|n: u64, x: u64, t: u64, i: int|
            #![trigger g.voted.contains_key((n, x)), g.own(t, i)]
            g.voted.contains_key((n, x)) && g.own(t, i) && t < x && i <= g.ack(n, t) implies
            g.vote_ok(n, x, t, i) by {
            assert(h.own(t, i));
            assert(h.ack(n, t) == g.ack(n, t));
            if n == id && x == u {
                assert(h.kept(h.full[id], t, i, v.term as int)) by {
                    reveal(History::acks_ok);
                }
                if !h.holds(h.full[id], t, i) {
                    let s = choose|s: u64| t < s <= v.term && #[trigger] h.lacks(s, t, i);
                    assert(g.lacks(s, t, i));
                }
            } else {
                assert(h.voted.contains_key((n, x)));
                assert(h.vote_ok(n, x, t, i));
                let c = h.voted[(n, x)];
                if h.clog.contains_key((c, x)) && h.holds(h.clog[(c, x)], t, i) {
                    assert(g.clog.contains_key((c, x)));
                } else if exists|s: u64| t < s < x && #[trigger] h.lacks(s, t, i) {
                    let s = choose|s: u64| t < s < x && #[trigger] h.lacks(s, t, i);
                    assert(g.lacks(s, t, i));
                }
            }
        }
    }
    node::lemma_conf_same(w, v, v.st.last_index());
    lemma_same_log(h, g, voters, id, v, w);
    assert(g.vote_recorded(w));
    assert(g.candidate_ok(w)) by {
        if g.elected.contains_key(u) && g.elected[u] == id {
            assert(h.term_ok(voters, u));
            assert(h.clog.contains_key((id, u)));
        }
    }
    g
}

/// The record with a new winner.
pub open spec fn with_winner(h: History, n: u64, u: u64, q: Set<u64>) -> History {
    History {
        elected: h.elected.insert(u, n),
        quorum: h.quorum.insert(u, q),
        tlog: h.tlog.insert(u, h.full[n]),
        acked: h.acked.insert((n, u), h.full[n].len()),
        ..h
    }
}

/// The node as it stands when it has won, before it sends anything.
pub open spec fn winner(v: NodeView) -> NodeView {
    let last = v.st.last_index();
    let all = v.voters + v.learners;
    NodeView {
        role: Role::Leader,
        leader: Some(v.id),
        next: Map::new(|k: u64| all.contains(k), |k: u64| (last + 1) as u64),
        matched: Map::new(|k: u64| all.contains(k), |k: u64| 0u64).insert(v.id, last),
        heartbeat_elapsed: 0,
        ..v
    }
}

/// Nobody has confirmed anything in a term without a winner.
pub proof fn lemma_no_acks(h: History, voters: Seq<u64>, u: u64, n: u64)
    requires
        h.ok(voters),
        !h.elected.contains_key(u),
    ensures
        h.ack(n, u) == 0,
        !h.acked.contains_key((n, u)),
{
    if h.acked.contains_key((n, u)) {
        assert(h.elected.contains_key(u));
    }
}

/// A candidate with a majority wins a term that nobody has won.
pub proof fn lemma_unwon(h: History, voters: Seq<u64>, id: u64, v: NodeView)
    requires
        h.good(voters, id, v),
        v.role == Role::Candidate,
        is_majority(v.votes, v.voters),
    ensures
        !h.elected.contains_key(v.term),
{
    let u = v.term;
    if h.elected.contains_key(u) {
        assert(h.term_ok(voters, u));
        history::lemma_one_winner(h, voters, u, id, v.votes);
    }
}

/// A new winner: what holds of the record.
pub proof fn lemma_winner_record(h: History, voters: Seq<u64>, id: u64, v: NodeView)
    requires
        h.good(voters, id, v),
        v.role == Role::Candidate,
        is_majority(v.votes, v.voters),
    ensures
        with_winner(h, id, v.term, v.votes).ok(voters),
        h.grows(with_winner(h, id, v.term, v.votes), id),
{
    let u = v.term;
    let full = h.full[id];
    let g = with_winner(h, id, u, v.votes);
    lemma_unwon(h, voters, id, v);
    history::lemma_grows_same(h, id);
    assert forall|n: u64, t: u64| #![trigger g.ack(n, t)] h.ack(n, t) <= g.ack(n, t) && (n != id
        ==> g.ack(n, t) == h.ack(n, t)) by {
        if n == id && t == u {
            lemma_no_acks(h, voters, u, n);
        }
    }
    assert(h.grows(g, id));
    assert forall|t: u64| #[trigger] g.elected.contains_key(t) implies g.term_ok(voters, t) by {
        if t == u {
            assert(h.clog.contains_key((id, u)));
            assert(h.sound(h.clog[(id, u)], u - 1));
            history::lemma_sound_grows(h, g, id, full, u - 1);
            assert(g.sound(full, u as int)) by {
                reveal(History::sound);
            }
            assert(full.take(full.len() as int) =~= full);
            assert forall|i: int| #[trigger] g.own(u, i) implies false by {
                history::lemma_entry(h, full, u - 1, i - 1);
            }
        } else {
            assert(h.elected.contains_key(t));
            assert(h.term_ok(voters, t));
            history::lemma_sound_grows(h, g, id, h.tlog[t], t as int);
            history::lemma_changes_grow(h, g, id, voters, t);
        }
    }
    assert forall|n: u64, t: u64| #[trigger] g.acked.contains_key((n, t)) implies
        g.elected.contains_key(t) && g.ack(n, t) <= g.tlog[t].len() by {
        if !(n == id && t == u) {
            assert(h.acked.contains_key((n, t)));
            assert(h.ack(n, t) == g.ack(n, t));
        }
    }
    assert forall|d: u64, s: u64| #[trigger] g.clog.contains_key((d, s)) implies g.sound(
        g.clog[(d, s)],
        s - 1,
    ) by {
        history::lemma_sound_grows(h, g, id, h.clog[(d, s)], s - 1);
    }
    assert(g.votes_ok()) by {
        reveal(History::votes_ok);
        assert forall|n: u64, x: u64, t: u64, i: int|
            #![trigger g.voted.contains_key((n, x)), g.own(t, i)]
            g.voted.contains_key((n, x)) && g.own(t, i) && t < x && i <= g.ack(n, t) implies
            g.vote_ok(n, x, t, i) by {
            if t == u {
                history::lemma_entry(h, full, u - 1, i - 1);
                assert(false);
            }
            assert(h.own(t, i));
            assert(h.ack(n, t) == g.ack(n, t));
            assert(h.voted.contains_key((n, x)));
            assert(h.vote_ok(n, x, t, i));
            let c = h.voted[(n, x)];
            if h.clog.contains_key((c, x)) && h.holds(h.clog[(c, x)], t, i) {
                assert(g.holds(g.clog[(c, x)], t, i));
            } else if exists|s: u64| t < s < x && #[trigger] h.lacks(s, t, i) {
                let s = choose|s: u64| t < s < x && #[trigger] h.lacks(s, t, i);
                assert(g.lacks(s, t, i));
            }
        }
    }
}

/// A new winner.
pub proof fn lemma_winner(h: History, voters: Seq<u64>, id: u64, v: NodeView) -> (g: History)
    requires
        h.good(voters, id, v),
        v.role == Role::Candidate,
        v.votes.len() >= v.majority(),
    ensures
        g.good(voters, id, v.become_leader()),
        h.grows(g, id),
        v.become_leader().role == Role::Leader,
{
    let u = v.term;
    let full = h.full[id];
    history::lemma_electors(voters, full);
    history::lemma_voters_set(v.voters);
    assert(v.votes.subset_of(v.voters.to_set())) by {
        assert forall|n: u64| #[trigger] v.votes.contains(n) implies v.voters.to_set().contains(
            n,
        ) by {
            assert(h.voted.contains_key((n, u)));
        }
    }
    assert(is_majority(v.votes, v.voters));
    let g = with_winner(h, id, u, v.votes);
    let w = winner(v);
    lemma_winner_record(h, voters, id, v);
    lemma_unwon(h, voters, id, v);
    lemma_store(h, voters, id, v);
    node::lemma_conf_same(w, v, v.st.last_index());
    assert(w.wf());
    history::lemma_sound_grows(h, g, id, full, v.term as int);
    assert(g.acks_ok(w)) by {
        reveal(History::acks_ok);
        assert(h.sound(h.clog[(id, u)], u - 1));
        assert forall|t: u64, i: int| #[trigger] g.own(t, i) && i <= g.ack(w.id, t) implies t
            <= w.term && g.kept(g.full[w.id], t, i, w.term as int) by {
            if t == u {
                history::lemma_entry(h, full, u - 1, i - 1);
                assert(false);
            }
            assert(h.ack(id, t) == g.ack(id, t));
            assert(h.own(t, i));
            history::lemma_kept_grows(h, g, id, full, t, i, v.term as int);
        }
    }
    history::lemma_settled_grows(h, g, id, voters, full, v.commit as int, v.term as int);
    history::lemma_settled_grows(h, g, id, voters, full, v.st.base() as int, v.term as int);
    lemma_outbox_grows(h, g, id, voters, v);
    assert(g.leader_ok(w)) by {
        assert forall|k: u64| #[trigger] w.matched.contains_key(k) implies w.matched[k] <= g.ack(
            k,
            w.term,
        ) by {}
    }
    assert(g.good(voters, id, w));
    lemma_broadcast(g, voters, id, w);
    node::lemma_send_appends(w, w.targets());
    g
}

/// An election started.
pub proof fn lemma_election(h: History, voters: Seq<u64>, id: u64, v: NodeView) -> (g: History)
    requires
        h.good(voters, id, v),
        v.term < u64::MAX,
        v.is_voter(),
    ensures
        g.good(voters, id, v.start_election()),
        h.grows(g, id),
{
    let w = candidate(v);
    let g1 = lemma_candidate(h, voters, id, v);
    if 1 >= w.majority() {
        assert(w.votes =~= set![id]);
        assert(w.votes.len() == 1);
        let g2 = lemma_winner(g1, voters, id, w);
        history::lemma_grows_both(h, g1, g2, id);
        g2
    } else {
        members::lemma_without(w.voters, w.id);
        assert forall|k: int| 0 <= k < w.peers().len() implies w.voters.contains(
            #[trigger] w.peers()[k],
        ) by {
            assert(w.peers().contains(w.peers()[k]));
        }
        lemma_ask(g1, voters, id, w, w.peers());
        g1
    }
}

/// The position of the first entry that a node does not hold: right behind what it shares with
/// the winner's log.
pub proof fn lemma_where_new(
    h: History,
    voters: Seq<u64>,
    id: u64,
    v: NodeView,
    log: Seq<EntryView>,
    prev: u64,
    es: Seq<EntryView>,
    k: int,
)
    requires
        h.good(voters, id, v),
        h.sound(log, v.term as int),
        prev + es.len() <= log.len(),
        prev + es.len() < u64::MAX,
        es == log.subrange(prev as int, prev + es.len()),
        0 <= k <= es.len(),
        ({
            let q = if prev + k < v.st.base() {
                v.st.base() as int
            } else {
                prev + k
            };
            q <= h.full[id].len() && q <= log.len() && h.full[id].take(q) == log.take(q)
        }),
    ensures
        ({
            let full = h.full[id];
            let n = node::first_new(v.st, prev, es, k);
            let q = prev + n;
            &&& k <= n <= es.len()
            &&& n < es.len() ==> {
                &&& v.st.base() <= q <= full.len()
                &&& full.take(q) == log.take(q)
                &&& q < full.len() ==> full[q].term != log[q].term
            }
            &&& n == es.len() && q >= v.st.base() ==> q <= full.len() && full.take(q) == log.take(
                q,
            )
        }),
    decreases es.len() - k,
{
    let full = h.full[id];
    lemma_store(h, voters, id, v);
    if k < es.len() {
        let idx = (prev + 1 + k) as u64;
        assert(es[k] == log[prev + k]);
        if idx <= v.st.base() {
            lemma_where_new(h, voters, id, v, log, prev, es, k + 1);
        } else {
            let q = prev + k;
            assert(full.take(q) == log.take(q));
            if idx <= v.st.last_index() {
                assert(v.st.term(idx) == Some(full[q].term));
                if full[q].term == log[q].term {
                    history::lemma_logs_match(h, full, log, v.term as int, v.term as int, q);
                    lemma_where_new(h, voters, id, v, log, prev, es, k + 1);
                }
            }
        }
    }
}

/// The store after new entries are spliced in.
pub proof fn lemma_splice(
    h: History,
    voters: Seq<u64>,
    id: u64,
    v: NodeView,
    log: Seq<EntryView>,
    prev: u64,
    es: Seq<EntryView>,
    k: int,
)
    requires
        h.good(voters, id, v),
        prev + es.len() <= log.len(),
        prev + es.len() < u64::MAX,
        es == log.subrange(prev as int, prev + es.len()),
        0 <= k < es.len(),
        v.st.base() <= prev + k <= h.full[id].len(),
        h.full[id].take(prev + k) == log.take(prev + k),
    ensures
        ({
            let s = node::spliced(v.st, prev, es, k);
            &&& s.log == log.take((prev + es.len()) as int).skip(v.st.base() as int)
            &&& s.snap == v.st.snap
            &&& s.hard == v.st.hard
        }),
{
    let full = h.full[id];
    let base = v.st.base() as int;
    let q = prev + k;
    let end = (prev + es.len()) as int;
    let idx = (q + 1) as u64;
    lemma_store(h, voters, id, v);
    let kept = if idx <= v.st.last_index() {
        v.st.truncate(idx)
    } else {
        v.st
    };
    let want = log.take(end).skip(base);
    assert(kept.log =~= full.take(q).skip(base));
    assert(es.skip(k) =~= log.subrange(q, end));
    let got = kept.log + es.skip(k);
    assert(got.len() == want.len());
    assert forall|x: int| 0 <= x < got.len() implies got[x] == want[x] by {
        if x < kept.log.len() {
            assert(full.take(q)[base + x] == full[base + x]);
            assert(log.take(q)[base + x] == log[base + x]);
        }
    }
    assert(got =~= want);
}

/// The record with a node's log replaced, and confirmed up to a position in its term.
pub open spec fn with_log(h: History, id: u64, t: u64, full: Seq<EntryView>, n: nat) -> History {
    History {
        full: h.full.insert(id, full),
        acked: h.acked.insert(
            (id, t),
            if h.ack(id, t) > n {
                h.ack(id, t)
            } else {
                n
            },
        ),
        ..h
    }
}

/// A node's log follows the winner's: what holds of the record.
pub proof fn lemma_follow_record(
    h: History,
    voters: Seq<u64>,
    id: u64,
    v: NodeView,
    full: Seq<EntryView>,
    n: int,
)
    requires
        h.good(voters, id, v),
        h.elected.contains_key(v.term),
        0 <= n <= h.tlog[v.term].len(),
    ensures
        with_log(h, id, v.term, full, n as nat).ok(voters),
        h.grows(with_log(h, id, v.term, full, n as nat), id),
{
    let u = v.term;
    let g = with_log(h, id, u, full, n as nat);
    history::lemma_grows_same(h, id);
    assert forall|m: u64, t: u64| #![trigger g.ack(m, t)] h.ack(m, t) <= g.ack(m, t) && (m != id
        ==> g.ack(m, t) == h.ack(m, t)) by {}
    assert(h.grows(g, id));
    assert forall|t: u64| #[trigger] g.elected.contains_key(t) implies g.term_ok(voters, t) by {
        assert(h.term_ok(voters, t));
        history::lemma_sound_grows(h, g, id, h.tlog[t], t as int);
        history::lemma_changes_grow(h, g, id, voters, t);
    }
    assert forall|m: u64, t: u64| #[trigger] g.acked.contains_key((m, t)) implies
        g.elected.contains_key(t) && g.ack(m, t) <= g.tlog[t].len() by {
        if h.acked.contains_key((m, t)) {
            assert(h.ack(m, t) <= h.tlog[t].len());
        }
    }
    assert forall|d: u64, s: u64| #[trigger] g.clog.contains_key((d, s)) implies g.sound(
        g.clog[(d, s)],
        s - 1,
    ) by {
        history::lemma_sound_grows(h, g, id, h.clog[(d, s)], s - 1);
    }
    assert(g.votes_ok()) by {
        reveal(History::votes_ok);
        assert forall|m: u64, x: u64, t: u64, i: int|
            #![trigger g.voted.contains_key((m, x)), g.own(t, i)]
            g.voted.contains_key((m, x)) && g.own(t, i) && t < x && i <= g.ack(m, t) implies
            g.vote_ok(m, x, t, i) by {
            assert(h.voted.contains_key((m, x)));
            assert(h.own(t, i));
            if m == id {
                assert(x <= v.term);
            }
            assert(h.ack(m, t) == g.ack(m, t));
            assert(h.vote_ok(m, x, t, i));
            let c = h.voted[(m, x)];
            if h.clog.contains_key((c, x)) && h.holds(h.clog[(c, x)], t, i) {
                assert(g.holds(g.clog[(c, x)], t, i));
            } else if exists|s: u64| t < s < x && #[trigger] h.lacks(s, t, i) {
                let s = choose|s: u64| t < s < x && #[trigger] h.lacks(s, t, i);
                assert(g.lacks(s, t, i));
            }
        }
    }
}

/// What is settled in a log is so in one that takes on the winner's from where they part.
proof fn lemma_settled_follow(
    h: History,
    voters: Seq<u64>,
    old: Seq<EntryView>,
    full: Seq<EntryView>,
    u: u64,
    n: int,
    c: int,
)
    requires
        h.ok(voters),
        h.elected.contains_key(u),
        0 <= n <= h.tlog[u].len(),
        full == h.tlog[u].take(n),
        exists|q: int| #![trigger old.take(q)] {
            &&& 0 <= q <= old.len()
            &&& q <= n
            &&& old.take(q) == h.tlog[u].take(q)
            &&& q == old.len() || (q < n && old[q].term != h.tlog[u][q].term)
        },
        0 <= c,
        h.settled(voters, old, c, u as int),
    ensures
        h.settled(voters, full, c, u as int),
{
    history::lemma_settled_in(h, voters, old, c, u as int, u);
    lemma_shared(old, h.tlog[u], full, n, c);
    if c > 0 {
        let (t, j) = choose|t: u64, j: int| #[trigger]
            h.chosen(voters, t, j) && t <= u && c <= j && h.holds(old, t, c);
        assert(h.chosen(voters, t, j) && h.holds(full, t, c));
    }
}

/// What a node confirmed, it still holds once its log follows the winner's.
proof fn lemma_follow_acks(h: History, voters: Seq<u64>, id: u64, v: NodeView, full: Seq<EntryView>, n: int)
    requires
        h.good(voters, id, v),
        h.elected.contains_key(v.term),
        0 <= n <= h.tlog[v.term].len(),
        n <= full.len(),
        full.take(n) == h.tlog[v.term].take(n),
        full == h.full[id] || {
            &&& full == h.tlog[v.term].take(n)
            &&& exists|q: int| #![trigger h.full[id].take(q)] {
                &&& 0 <= q <= h.full[id].len()
                &&& q <= n
                &&& h.full[id].take(q) == h.tlog[v.term].take(q)
                &&& q == h.full[id].len() || (q < n && h.full[id][q].term
                    != h.tlog[v.term][q].term)
            }
        },
    ensures
        with_log(h, id, v.term, full, n as nat).acks_ok(v),
{
    let u = v.term;
    let old = h.full[id];
    let log = h.tlog[u];
    let g = with_log(h, id, u, full, n as nat);
    assert(g.acks_ok(v)) by {
        reveal(History::acks_ok);
        assert forall|t: u64, i: int| #[trigger] g.own(t, i) && i <= g.ack(v.id, t) implies t
            <= v.term && g.kept(g.full[v.id], t, i, v.term as int) by {
            assert(h.own(t, i));
            if t == u && i <= n {
                history::lemma_holds_less(full, log, n, i);
                assert(g.holds(full, t, i));
            } else {
                assert(i <= h.ack(id, t));
                assert(h.kept(old, t, i, u as int));
                if h.holds(old, t, i) {
                    if full != old {
                        if h.holds(log, t, i) {
                            lemma_shared(old, log, full, n, i);
                            assert(g.holds(full, t, i));
                        } else {
                            assert(t != u);
                            assert(g.lacks(u, t, i));
                        }
                    } else {
                        assert(g.holds(full, t, i));
                    }
                } else {
                    let s = choose|s: u64| t < s <= u && #[trigger] h.lacks(s, t, i);
                    assert(g.lacks(s, t, i));
                }
            }
        }
    }
}

/// A node's log follows the winner's. It keeps its old log where that agrees, and otherwise takes
/// the winner's up to `n`.
#[verifier::spinoff_prover]
#[verifier::rlimit(60)]
pub proof fn lemma_follow(
    h: History,
    voters: Seq<u64>,
    id: u64,
    v: NodeView,
    w: NodeView,
    full: Seq<EntryView>,
    n: int,
) -> (g: History)
    requires
        h.good(voters, id, v),
        h.elected.contains_key(v.term),
        h.elected[v.term] != id,
        0 <= n <= h.tlog[v.term].len(),
        n <= full.len(),
        full.take(n) == h.tlog[v.term].take(n),
        full == h.full[id] || {
            &&& full == h.tlog[v.term].take(n)
            &&& exists|q: int| #![trigger h.full[id].take(q)] {
                &&& 0 <= q <= h.full[id].len()
                &&& q <= n
                &&& h.full[id].take(q) == h.tlog[v.term].take(q)
                &&& q == h.full[id].len() || (q < n && h.full[id][q].term
                    != h.tlog[v.term][q].term)
            }
        },
        w.wf(),
        w.id == v.id,
        w.members() == conf(voters, full),
        w.boot == voters,
        w.role == Role::Follower,
        w.term == v.term,
        w.vote == v.vote,
        w.outbox == v.outbox,
        w.applied <= w.commit,
        with_log(h, id, v.term, full, n as nat).stores(voters, w),
        w.commit == v.commit || h.settled(voters, full, w.commit as int, v.term as int),
        w.st.base() == v.st.base() || h.settled(voters, full, w.st.base() as int, v.term as int),
    ensures
        g.good(voters, id, w),
        h.grows(g, id),
        g.ack(id, v.term) >= n,
        g == with_log(h, id, v.term, full, n as nat),
{
    let u = v.term;
    let old = h.full[id];
    let log = h.tlog[u];
    let g = with_log(h, id, u, full, n as nat);
    lemma_follow_record(h, voters, id, v, full, n);
    assert(h.term_ok(voters, u));
    if full != old {
        history::lemma_take_sound(h, log, u as int, n);
    }
    history::lemma_sound_grows(h, g, id, full, u as int);
    if full != old {
        lemma_settled_follow(h, voters, old, full, u, n, v.commit as int);
        lemma_settled_follow(h, voters, old, full, u, n, v.st.base() as int);
    }
    history::lemma_settled_grows(h, g, id, voters, full, w.commit as int, u as int);
    history::lemma_settled_grows(h, g, id, voters, full, w.st.base() as int, u as int);
    lemma_follow_acks(h, voters, id, v, full, n);
    assert(g.acks_ok(w)) by {
        reveal(History::acks_ok);
    }
    assert(g.vote_recorded(w));
    lemma_outbox_grows(h, g, id, voters, v);
    g
}

/// What two logs share survives when one takes on the other from where they part.
pub proof fn lemma_shared(old: Seq<EntryView>, log: Seq<EntryView>, full: Seq<EntryView>, n: int, i: int)
    requires
        0 <= n <= log.len(),
        full == log.take(n),
        0 <= i <= old.len(),
        i <= log.len(),
        old.take(i) == log.take(i),
        exists|q: int| #![trigger old.take(q)] {
            &&& 0 <= q <= old.len()
            &&& q <= n
            &&& old.take(q) == log.take(q)
            &&& q == old.len() || (q < n && old[q].term != log[q].term)
        },
    ensures
        i <= full.len(),
        full.take(i) == old.take(i),
{
    let q = choose|q: int| #![trigger old.take(q)] {
        &&& 0 <= q <= old.len()
        &&& q <= n
        &&& old.take(q) == log.take(q)
        &&& q == old.len() || (q < n && old[q].term != log[q].term)
    };
    if q < i {
        assert(old.take(i)[q] == old[q]);
        assert(log.take(i)[q] == log[q]);
    }
    assert(full.take(i) =~= log.take(i));
}

/// The node once it acknowledges the leader.
pub proof fn lemma_follower(h: History, voters: Seq<u64>, id: u64, v: NodeView, from: u64)
    requires
        h.good(voters, id, v),
        h.elected.contains_key(v.term),
        h.elected[v.term] == from,
        from != id,
    ensures
        h.good(voters, id, v.follow(from)),
{
    let w = v.follow(from);
    node::lemma_conf_same(w, v, v.st.last_index());
    assert(h.acks_ok(w)) by {
        reveal(History::acks_ok);
    }
}

/// Entries from the leader of the node's term.
#[verifier::spinoff_prover]
#[verifier::rlimit(60)]
pub proof fn lemma_append(h: History, voters: Seq<u64>, id: u64, v: NodeView, m: MessageView) -> (g: History)
    requires
        h.good(voters, id, v),
        h.message_ok(voters, m),
        m.to == id,
        m.term <= v.term,
        m.well_formed(),
        m.body is AppendEntries,
    ensures
        ({
            let e = m.body;
            g.good(
                voters,
                id,
                v.on_append(
                    m.from,
                    m.term,
                    e->prev_log_index,
                    e->prev_log_term,
                    e->AppendEntries_entries,
                    e->leader_commit,
                ),
            )
        }),
        h.grows(g, id),
{
    let prev = m.body->prev_log_index;
    let prev_term = m.body->prev_log_term;
    let es = m.body->AppendEntries_entries;
    let leader_commit = m.body->leader_commit;
    let no = BodyView::AppendEntriesResp { success: false, match_index: 0 };
    let end = (prev + es.len()) as u64;
    history::lemma_grows_same(h, id);
    if m.term < v.term {
        lemma_send(h, voters, id, v, m.from, no);
        h
    } else {
        let f = v.follow(m.from);
        lemma_follower(h, voters, id, v, m.from);
        let u = v.term;
        let base = v.st.base();
        let full = h.full[id];
        let log = h.tlog[u];
        assert(h.term_ok(voters, u));
        lemma_store(h, voters, id, v);
        history::lemma_settled_in(h, voters, full, base as int, u as int, u);
        if end <= base {
            let g = lemma_follow(h, voters, id, f, f, full, base as int);
            lemma_send(
                g,
                voters,
                id,
                f,
                m.from,
                BodyView::AppendEntriesResp { success: true, match_index: base },
            );
            g
        } else if prev >= base && v.st.term(prev) != Some(prev_term) {
            lemma_send(h, voters, id, f, m.from, no);
            h
        } else {
            if prev >= base {
                if prev > 0 {
                    history::lemma_logs_match(h, full, log, u as int, u as int, prev - 1);
                } else {
                    assert(full.take(0) =~= log.take(0));
                }
            }
            lemma_where_new(h, voters, id, v, log, prev, es, 0);
            let k = node::first_new(v.st, prev, es, 0);
            let q = prev + k;
            let next_full = if k < es.len() {
                log.take(end as int)
            } else {
                full
            };
            let w = if k < es.len() {
                (NodeView { st: node::spliced(f.st, prev, es, k), ..f }).recompute_conf()
            } else {
                f
            };
            let x = if leader_commit > w.commit {
                NodeView { commit: node::smaller(leader_commit, end), ..w }
            } else {
                w
            };
            if k < es.len() {
                lemma_splice(h, voters, id, v, log, prev, es, k);
                let a = NodeView { st: node::spliced(f.st, prev, es, k), ..f };
                assert(next_full.len() == end);
                let g0 = with_log(h, id, u, next_full, end as nat);
                assert(g0.stores(voters, a)) by {
                    history::lemma_holds_less(full, log, q, base as int);
                    assert(next_full.take(base as int) =~= log.take(base as int));
                    if base > 0 {
                        assert(full.take(q)[base - 1] == full[base - 1]);
                        assert(log.take(q)[base - 1] == log[base - 1]);
                    }
                }
                assert(a.st.wf()) by {
                    assert forall|j: int| 0 <= j < a.st.log.len() implies (#[trigger] a.st.log[j]).index
                        == a.st.base() + 1 + j by {
                        assert(a.st.log[j] == log[base + j]);
                        history::lemma_entry(h, log, u as int, base + j);
                    }
                }
                lemma_recompute(g0, voters, a);
                assert(w.members() =~= conf(voters, next_full));
                assert(w.st == a.st && w.role == Role::Follower);
                assert(next_full.take(end as int) =~= next_full);
                assert(full.take(q) == log.take(q));
            }
            node::lemma_append_handler_wf(
                v,
                m.from,
                m.term,
                prev,
                prev_term,
                es,
                leader_commit,
            );
            let done = BodyView::AppendEntriesResp { success: true, match_index: end };
            assert(v.on_append(m.from, m.term, prev, prev_term, es, leader_commit) == x.send(
                m.from,
                done,
            ));
            assert(x.wf()) by {
                node::lemma_conf_same(x, x.send(m.from, done), x.st.last_index());
            }
            if leader_commit > w.commit {
                history::lemma_settled_prefix(
                    h,
                    voters,
                    log,
                    next_full,
                    leader_commit as int,
                    u as int,
                    end as int,
                );
            }
            let g = lemma_follow(h, voters, id, f, x, next_full, end as int);
            lemma_send(g, voters, id, x, m.from, done);
            g
        }
    }
}

/// A snapshot from the leader of the node's term.
pub proof fn lemma_snapshot(h: History, voters: Seq<u64>, id: u64, v: NodeView, m: MessageView, snap: SnapshotView) -> (g: History)
    requires
        h.good(voters, id, v),
        h.message_ok(voters, m),
        m.to == id,
        m.term <= v.term,
        m.well_formed(),
        m.body == (BodyView::InstallSnapshot {
            last_included_index: snap.last_included_index,
            last_included_term: snap.last_included_term,
            conf_state: snap.conf_state,
            learners: snap.learners,
            data: snap.data,
        }),
        cluster::takes_snapshot(v, m.term, snap.last_included_index, snap.last_included_term),
    ensures
        g.good(voters, id, v.on_snapshot(m.from, m.term, snap)),
        h.grows(g, id),
{
    let index = snap.last_included_index;
    history::lemma_grows_same(h, id);
    if m.term < v.term {
        lemma_send(h, voters, id, v, m.from, BodyView::InstallSnapshotResp { match_index: 0 });
        h
    } else {
        let f = v.follow(m.from);
        lemma_follower(h, voters, id, v, m.from);
        let u = v.term;
        let full = h.full[id];
        let log = h.tlog[u];
        assert(h.term_ok(voters, u));
        lemma_store(h, voters, id, v);
        if index <= v.commit {
            history::lemma_settled_in(h, voters, full, v.commit as int, u as int, u);
            let g = lemma_follow(h, voters, id, f, f, full, v.commit as int);
            lemma_send(
                g,
                voters,
                id,
                f,
                m.from,
                BodyView::InstallSnapshotResp { match_index: v.commit },
            );
            g
        } else {
            let n = index as int;
            let next_full = log.take(n);
            let a = NodeView {
                st: f.st.install(snap),
                commit: index,
                applied: index,
                pending: Some((index, snap.data)),
                ..f
            };
            let g0 = with_log(h, id, u, next_full, n as nat);
            assert(a.st.log =~= next_full.skip(n));
            assert(next_full[n - 1] == log[n - 1]);
            assert(next_full.take(n) =~= next_full);
            assert(g0.stores(voters, a));
            lemma_recompute(g0, voters, a);
            let b = a.recompute_conf();
            assert(b.members() =~= conf(voters, next_full));
            node::lemma_recompute_wf(a);
            assert(g0.stores(voters, b));
            history::lemma_settled_prefix(h, voters, log, next_full, n, u as int, n);
            assert(full.take(0) =~= log.take(0));
            if v.st.last_index() > index {
                assert(v.st.term(index) == Some(term_at(full, n)));
            }
            lemma_parting(h, full, log, u as int, n, 0);
            let g = lemma_follow(h, voters, id, f, b, next_full, n);
            lemma_send(
                g,
                voters,
                id,
                b,
                m.from,
                BodyView::InstallSnapshotResp { match_index: index },
            );
            g
        }
    }
}

/// Two sound logs agree up to some position: the end of the first, or where their terms differ.
proof fn lemma_parting(h: History, old: Seq<EntryView>, log: Seq<EntryView>, top: int, n: int, k: int)
    requires
        h.sound(old, top),
        h.sound(log, top),
        0 <= k <= old.len(),
        k <= n <= log.len(),
        old.len() <= n || old[n - 1].term != log[n - 1].term,
        1 <= n,
        old.take(k) == log.take(k),
    ensures
        exists|q: int| #![trigger old.take(q)] {
            &&& 0 <= q <= old.len()
            &&& q <= n
            &&& old.take(q) == log.take(q)
            &&& q == old.len() || (q < n && old[q].term != log[q].term)
        },
    decreases old.len() - k,
{
    if k < old.len() && k < n && old[k].term == log[k].term {
        history::lemma_logs_match(h, old, log, top, top, k);
        lemma_parting(h, old, log, top, n, k + 1);
    } else {
        if k == n {
            assert(old.take(k)[n - 1] == old[n - 1]);
            assert(log.take(k)[n - 1] == log[n - 1]);
        }
        assert(old.take(k) == log.take(k));
    }
}

/// The voters that a leader counts have confirmed the entry.
proof fn lemma_count(h: History, ids: Seq<u64>, v: NodeView, n: u64)
    requires
        ids.no_duplicates(),
        h.leader_ok(v),
    ensures
        ids.to_set().filter(|k: u64| h.ack(k, v.term) >= n).finite(),
        n >= 1 ==> node::acks(ids, v.matched, n) <= ids.to_set().filter(
            |k: u64| h.ack(k, v.term) >= n,
        ).len(),
    decreases ids.len(),
{
    let f = |k: u64| h.ack(k, v.term) >= n;
    let s = ids.to_set().filter(f);
    vstd::seq_lib::seq_to_set_is_finite(ids);
    lemma_set_subset_finite(ids.to_set(), s);
    if ids.len() > 0 && n >= 1 {
        let rest = ids.drop_last();
        let x = ids.last();
        let r = rest.to_set().filter(f);
        assert(rest.no_duplicates());
        lemma_count(h, rest, v, n);
        assert(!rest.contains(x));
        assert(r.subset_of(s)) by {
            assert forall|k: u64| r.contains(k) implies s.contains(k) by {
                let j = choose|j: int| 0 <= j < rest.len() && rest[j] == k;
                assert(ids[j] == k);
            }
        }
        if node::value_or(v.matched, x, 0) >= n {
            assert(h.ack(x, v.term) >= n);
            assert(ids[ids.len() - 1] == x);
            assert(r.insert(x).subset_of(s));
            assert(!r.contains(x));
            lemma_len_subset(r.insert(x), s);
        } else {
            lemma_len_subset(r, s);
        }
    }
}

/// What a leader commits is chosen.
proof fn lemma_commits(h: History, voters: Seq<u64>, id: u64, v: NodeView, n: u64)
    requires
        h.good(voters, id, v),
        v.role == Role::Leader,
        n <= v.st.last_index(),
    ensures
        h.settled(voters, h.full[id], v.committable(n) as int, v.term as int),
    decreases n,
{
    if n > v.commit {
        lemma_store(h, voters, id, v);
        if v.st.term(n) == Some(v.term) && node::acks(v.voters, v.matched, n) >= v.majority() {
            let full = h.full[id];
            let ids = v.voters;
            history::lemma_electors(voters, full);
            history::lemma_voters_set(ids);
            assert(ids.no_duplicates()) by {
                assert forall|i: int, j: int|
                    0 <= i < ids.len() && 0 <= j < ids.len() && i != j implies ids[i] != ids[j] by {
                    if i < j {
                        assert(ids[i] < ids[j]);
                    } else {
                        assert(ids[j] < ids[i]);
                    }
                }
            }
            lemma_count(h, ids, v, n);
            if n < v.st.base() {
                history::lemma_settled_later(
                    h,
                    voters,
                    full,
                    v.st.base() as int,
                    v.term as int,
                    v.term as int,
                );
                assert(v.st.term(n) is None);
            }
            assert(v.st.term(n) == Some(term_at(full, n as int)));
            assert(h.own(v.term, n as int));
            let s = h.holders(ids, v.term, n as int);
            assert(s =~= ids.to_set().filter(|k: u64| h.ack(k, v.term) >= n));
            assert(full.take(full.len() as int) =~= full);
            assert(h.chosen_at(voters, v.term, n as int, full.len() as int));
            assert(h.chosen(voters, v.term, n as int));
            assert(h.holds(full, v.term, n as int));
        } else {
            lemma_commits(h, voters, id, v, (n - 1) as u64);
        }
    }
}

/// A leader advances its commit index.
pub proof fn lemma_advance(h: History, voters: Seq<u64>, id: u64, v: NodeView)
    requires
        h.good(voters, id, v),
        v.role == Role::Leader,
    ensures
        h.good(voters, id, v.advance_commit()),
{
    let w = v.advance_commit();
    lemma_commits(h, voters, id, v, v.st.last_index());
    node::lemma_advance_wf(v);
    node::lemma_commit_bound(v, v.st.last_index());
    assert(h.acks_ok(w)) by {
        reveal(History::acks_ok);
    }
}

/// A leader learns how far a voter is.
pub proof fn lemma_raise(h: History, voters: Seq<u64>, id: u64, v: NodeView, from: u64, index: u64)
    requires
        h.good(voters, id, v),
        v.role == Role::Leader,
        index <= h.ack(from, v.term),
        index < u64::MAX,
    ensures
        h.good(voters, id, v.raise(from, index)),
{
    let w = v.raise(from, index);
    let m = node::larger(index, node::value_or(v.matched, from, 0));
    assert(m <= h.ack(from, v.term));
    assert(h.ack(from, v.term) <= h.full[id].len()) by {
        if h.acked.contains_key((from, v.term)) {
            assert(h.elected.contains_key(v.term));
        }
    }
    node::lemma_conf_same(w, v, v.st.last_index());
    assert(h.acks_ok(w)) by {
        reveal(History::acks_ok);
    }
    assert(h.leader_ok(w));
}

/// A follower's answer.
pub proof fn lemma_append_resp(h: History, voters: Seq<u64>, id: u64, v: NodeView, m: MessageView)
    requires
        h.good(voters, id, v),
        h.message_ok(voters, m),
        m.well_formed(),
        m.body is AppendEntriesResp,
        m.to == id,
    ensures
        h.good(
            voters,
            id,
            v.on_append_resp(
                m.from,
                m.term,
                m.body->success,
                m.body->AppendEntriesResp_match_index,
            ),
        ),
{
    let success = m.body->success;
    let index = m.body->AppendEntriesResp_match_index;
    if v.role == Role::Leader && m.term == v.term {
        if success {
            lemma_raise(h, voters, id, v, m.from, index);
            lemma_advance(h, voters, id, v.raise(m.from, index));
        } else {
            let next = node::value_or(v.next, m.from, 1);
            let back = if next <= 2 {
                1
            } else {
                (next - 1) as u64
            };
            let w = NodeView { next: v.next.insert(m.from, back), ..v };
            node::lemma_conf_same(w, v, v.st.last_index());
            assert(h.acks_ok(w)) by {
                reveal(History::acks_ok);
            }
            assert(h.leader_ok(w));
            lemma_send_append(h, voters, id, w, m.from);
        }
    }
}

/// A request for a vote.
pub proof fn lemma_request(h: History, voters: Seq<u64>, id: u64, v: NodeView, m: MessageView) -> (g: History)
    requires
        h.good(voters, id, v),
        h.message_ok(voters, m),
        m.to == id,
        m.term <= v.term,
        m.body is RequestVote,
    ensures
        g.good(
            voters,
            id,
            v.on_request_vote(
                m.from,
                m.term,
                m.body->last_log_index,
                m.body->last_log_term,
            ),
        ),
        h.grows(g, id),
{
    lemma_store(h, voters, id, v);
    if v.grants(m.from, m.term, m.body->last_log_index, m.body->last_log_term) {
        let g = lemma_grant(h, voters, id, v, m.from);
        lemma_send(
            g,
            voters,
            id,
            (NodeView { vote: Some(m.from), ..v }).persist().reset_timer(),
            m.from,
            BodyView::RequestVoteResp { granted: true },
        );
        g
    } else {
        history::lemma_grows_same(h, id);
        lemma_send(h, voters, id, v, m.from, BodyView::RequestVoteResp { granted: false });
        h
    }
}

/// A vote.
pub proof fn lemma_vote(h: History, voters: Seq<u64>, id: u64, v: NodeView, m: MessageView) -> (g: History)
    requires
        h.good(voters, id, v),
        h.message_ok(voters, m),
        m.to == id,
        m.body is RequestVoteResp,
    ensures
        g.good(voters, id, v.on_vote(m.from, m.term, m.body->granted)),
        h.grows(g, id),
{
    history::lemma_grows_same(h, id);
    if v.role == Role::Candidate && m.term == v.term && m.body->granted {
        let w = NodeView { votes: v.votes.insert(m.from), ..v };
        node::lemma_conf_same(w, v, v.st.last_index());
        assert(h.acks_ok(w)) by {
            reveal(History::acks_ok);
        }
        assert(h.candidate_ok(w));
        assert(h.good(voters, id, w));
        if w.votes.len() >= w.majority() {
            lemma_winner(h, voters, id, w)
        } else {
            h
        }
    } else {
        h
    }
}

/// One message.
pub proof fn lemma_step(h: History, voters: Seq<u64>, id: u64, v: NodeView, m: MessageView) -> (g: History)
    requires
        h.good(voters, id, v),
        h.message_ok(voters, m) || m.body is TimeoutNow,
        m.to == id,
        m.well_formed(),
        v.term < u64::MAX,
        match m.body {
            BodyView::InstallSnapshot { last_included_index, last_included_term, .. } =>
                cluster::takes_snapshot(v, m.term, last_included_index, last_included_term),
            _ => true,
        },
    ensures
        g.good(voters, id, v.step(m)),
        h.grows(g, id),
{
    let a = v.adopt(m);
    history::lemma_grows_same(h, id);
    if m.term > v.term {
        lemma_newer_term(h, voters, id, v, m.term, None);
        lemma_newer_term(h, voters, id, v, m.term, Some(m.from));
    }
    assert(h.good(voters, id, a));
    assert(a.st.last_index() == v.st.last_index());
    match m.body {
        BodyView::RequestVote { .. } => lemma_request(h, voters, id, a, m),
        BodyView::RequestVoteResp { .. } => lemma_vote(h, voters, id, a, m),
        BodyView::AppendEntries { .. } => lemma_append(h, voters, id, a, m),
        BodyView::AppendEntriesResp { .. } => {
            lemma_append_resp(h, voters, id, a, m);
            h
        },
        BodyView::InstallSnapshot {
            last_included_index,
            last_included_term,
            conf_state,
            learners,
            data,
        } => lemma_snapshot(
            h,
            voters,
            id,
            a,
            m,
            SnapshotView {
                last_included_index,
                last_included_term,
                conf_state,
                learners,
                data,
            },
        ),
        BodyView::InstallSnapshotResp { match_index } => {
            if a.role == Role::Leader && m.term == a.term {
                lemma_raise(h, voters, id, a, m.from, match_index);
                lemma_advance(h, voters, id, a.raise(m.from, match_index));
            }
            h
        },
        BodyView::TimeoutNow => {
            if m.term == a.term && a.role != Role::Leader && a.is_voter() {
                lemma_election(h, voters, id, a)
            } else {
                h
            }
        },
    }
}

/// One tick.
#[verifier::spinoff_prover]
#[verifier::rlimit(40)]
pub proof fn lemma_tick(h: History, voters: Seq<u64>, id: u64, v: NodeView) -> (g: History)
    requires
        h.good(voters, id, v),
        v.term < u64::MAX,
    ensures
        g.good(voters, id, v.tick()),
        h.grows(g, id),
{
    history::lemma_grows_same(h, id);
    match v.role {
        Role::Leader => {
            let n = node::bump(v.heartbeat_elapsed);
            let w = NodeView { heartbeat_elapsed: 0, ..v };
            lemma_quiet(h, voters, id, v, w);
            lemma_broadcast(h, voters, id, w);
            lemma_quiet(h, voters, id, v, NodeView { heartbeat_elapsed: n, ..v });
            h
        },
        _ => {
            let w = NodeView { election_elapsed: node::bump(v.election_elapsed), ..v };
            lemma_quiet(h, voters, id, v, w);
            if w.election_elapsed >= w.timeout && w.is_voter() {
                lemma_election(h, voters, id, w)
            } else {
                h
            }
        },
    }
}

/// The record with one more entry of a leader.
pub open spec fn with_entry(h: History, id: u64, u: u64, e: EntryView) -> History {
    History {
        full: h.full.insert(id, h.full[id].push(e)),
        tlog: h.tlog.insert(u, h.tlog[u].push(e)),
        acked: h.acked.insert((id, u), h.full[id].len() + 1),
        ..h
    }
}

/// A membership change that a leader may make: it can be read, changes one voter at most, and an
/// entry of the leader's own, behind the change before, is chosen.
pub open spec fn permitted(h: History, voters: Seq<u64>, v: NodeView, e: EntryView) -> bool {
    let full = h.full[v.id];
    &&& message::conf_of(e.data) is Some
    &&& near(electors(voters, full), electors(voters, full.push(e)))
    &&& exists|j: int|
        history::last_change(full) <= j && #[trigger] h.chosen_by(
            electors(voters, full),
            v.term,
            j,
        )
}

/// One more entry: what holds of the record.
pub proof fn lemma_entry_record(h: History, voters: Seq<u64>, id: u64, v: NodeView, e: EntryView)
    requires
        h.good(voters, id, v),
        v.role == Role::Leader,
        e.term == v.term,
        e.index == h.full[id].len() + 1,
        e.kind == EntryType::ConfChange ==> permitted(h, voters, v, e),
    ensures
        with_entry(h, id, v.term, e).ok(voters),
        h.grows(with_entry(h, id, v.term, e), id),
        with_entry(h, id, v.term, e).sound(h.full[id].push(e), v.term as int),
{
    let u = v.term;
    let full = h.full[id];
    let next = full.push(e);
    let g = with_entry(h, id, u, e);
    assert(h.term_ok(voters, u));
    history::lemma_grows_same(h, id);
    assert(next.take(full.len() as int) =~= full);
    assert forall|n: u64, t: u64| #![trigger g.ack(n, t)] h.ack(n, t) <= g.ack(n, t) && (n != id
        ==> g.ack(n, t) == h.ack(n, t)) by {
        if n == id && t == u {
            if h.acked.contains_key((n, t)) {
                assert(h.ack(n, t) <= h.tlog[t].len());
            }
        }
    }
    assert(h.grows(g, id));
    history::lemma_sound_grows(h, g, id, full, u as int);
    assert(g.sound(next, u as int)) by {
        reveal(History::sound);
        assert forall|k: int| 0 <= k < next.len() implies {
            let t = (#[trigger] next[k]).term;
            &&& 1 <= t <= u
            &&& g.elected.contains_key(t)
            &&& k < g.tlog[t].len()
            &&& next.take(k + 1) == g.tlog[t].take(k + 1)
            &&& next[k].index == k + 1
        } by {
            if k < full.len() {
                assert(next[k] == full[k]);
                assert(next.take(k + 1) =~= full.take(k + 1));
            }
        }
    }
    assert forall|t: u64| #[trigger] g.elected.contains_key(t) implies g.term_ok(voters, t) by {
        assert(h.term_ok(voters, t));
        if t == u {
            let c = h.clog[(id, u)];
            assert(next.take(c.len() as int) =~= full.take(c.len() as int));
            assert forall|i: int| #[trigger] g.own(u, i) && g.tlog[u][i - 1].kind
                == EntryType::ConfChange implies g.change_ok(voters, u, i) by {
                if i <= full.len() {
                    history::lemma_own_grows(h, g, id, u, i);
                    assert(next[i - 1] == full[i - 1]);
                    history::lemma_change_grows(h, g, id, voters, u, i);
                } else {
                    lemma_permitted(h, voters, id, v, e);
                }
            }
        } else {
            history::lemma_sound_grows(h, g, id, h.tlog[t], t as int);
            history::lemma_changes_grow(h, g, id, voters, t);
        }
    }
    assert forall|n: u64, t: u64| #[trigger] g.acked.contains_key((n, t)) implies
        g.elected.contains_key(t) && g.ack(n, t) <= g.tlog[t].len() by {
        if !(n == id && t == u) {
            assert(h.acked.contains_key((n, t)));
            assert(h.ack(n, t) == g.ack(n, t));
        }
    }
    assert forall|d: u64, s: u64| #[trigger] g.clog.contains_key((d, s)) implies g.sound(
        g.clog[(d, s)],
        s - 1,
    ) by {
        history::lemma_sound_grows(h, g, id, h.clog[(d, s)], s - 1);
    }
    assert(g.votes_ok()) by {
        reveal(History::votes_ok);
        assert forall|n: u64, x: u64, t: u64, i: int|
            #![trigger g.voted.contains_key((n, x)), g.own(t, i)]
            g.voted.contains_key((n, x)) && g.own(t, i) && t < x && i <= g.ack(n, t) implies
            g.vote_ok(n, x, t, i) by {
            assert(h.voted.contains_key((n, x)));
            if n == id {
                assert(x <= u);
            }
            assert(h.ack(n, t) == g.ack(n, t));
            assert(h.acked.contains_key((n, t)));
            history::lemma_own_grows(h, g, id, t, i);
            assert(h.own(t, i));
            assert(h.vote_ok(n, x, t, i));
            let c = h.voted[(n, x)];
            if h.clog.contains_key((c, x)) && h.holds(h.clog[(c, x)], t, i) {
                history::lemma_holds_grows(h, g, id, h.clog[(c, x)], t, i);
            } else if exists|s: u64| t < s < x && #[trigger] h.lacks(s, t, i) {
                let s = choose|s: u64| t < s < x && #[trigger] h.lacks(s, t, i);
                history::lemma_lacks_grows(h, g, id, s, t, i);
            } else {
                history::lemma_lacks_grows(h, g, id, x, t, i);
            }
        }
    }
}

/// A permitted change is in order once it is made.
proof fn lemma_permitted(h: History, voters: Seq<u64>, id: u64, v: NodeView, e: EntryView)
    requires
        h.good(voters, id, v),
        v.role == Role::Leader,
        permitted(h, voters, v, e),
        h.grows(with_entry(h, id, v.term, e), id),
    ensures
        with_entry(h, id, v.term, e).change_ok(voters, v.term, h.full[id].len() as int + 1),
{
    let full = h.full[id];
    let u = v.term;
    let g = with_entry(h, id, u, e);
    let next = full.push(e);
    let i = full.len() as int + 1;
    assert(g.tlog[u] == next);
    assert(next.take(i - 1) =~= full);
    assert(next.take(i) =~= next);
    let j = choose|j: int|
        history::last_change(full) <= j && #[trigger] h.chosen_by(electors(voters, full), u, j);
    history::lemma_electors(voters, full);
    history::lemma_chosen_by_grows(h, g, id, electors(voters, full), u, j);
    assert(h.own(u, j));
    assert(history::last_change(full) <= j < i && g.chosen_by(electors(voters, full), u, j));
}

/// One more entry of a leader.
#[verifier::spinoff_prover]
#[verifier::rlimit(40)]
proof fn lemma_own_entry(h: History, voters: Seq<u64>, id: u64, v: NodeView, e: EntryView, b: NodeView)
    requires
        h.good(voters, id, v),
        v.role == Role::Leader,
        e.term == v.term,
        e.index == h.full[id].len() + 1,
        e.kind == EntryType::ConfChange ==> permitted(h, voters, v, e),
        b.wf(),
        b.id == v.id,
        b.boot == v.boot,
        b.members() == conf(voters, h.full[id].push(e)),
        b.st == v.st.append(seq![e]),
        b.role == Role::Leader,
        b.is_voter(),
        b.term == v.term,
        b.vote == v.vote,
        b.commit == v.commit,
        b.applied == v.applied,
        b.outbox == v.outbox,
        forall|k: u64| #[trigger]
            b.matched.contains_key(k) ==> b.matched[k] == 0 || (k == id && b.matched[k] == e.index)
                || (v.matched.contains_key(k) && b.matched[k] == v.matched[k]),
        forall|k: u64| #[trigger]
            b.next.contains_key(k) ==> b.next[k] <= h.full[id].len() + 2,
    ensures
        with_entry(h, id, v.term, e).good(voters, id, b),
        h.grows(with_entry(h, id, v.term, e), id),
{
    let u = v.term;
    let full = h.full[id];
    let g = with_entry(h, id, u, e);
    lemma_store(h, voters, id, v);
    lemma_entry_record(h, voters, id, v, e);
    let next = full.push(e);
    let base = v.st.base() as int;
    assert(b.st.log =~= next.skip(base));
    assert(g.stores(voters, b)) by {
        assert(next.take(base) =~= full.take(base));
        if base > 0 {
            assert(next[base - 1] == full[base - 1]);
        }
    }
    assert(g.leader_ok(b)) by {
        assert forall|k: u64| #[trigger] b.matched.contains_key(k) implies b.matched[k] <= g.ack(
            k,
            b.term,
        ) by {
            assert(h.ack(k, u) <= g.ack(k, u));
        }
    }
    assert(g.acks_ok(b)) by {
        reveal(History::acks_ok);
        assert forall|t: u64, i: int| #[trigger] g.own(t, i) && i <= g.ack(b.id, t) implies t
            <= b.term && g.kept(g.full[b.id], t, i, b.term as int) by {
            if t == u {
                assert(g.holds(next, t, i));
            } else {
                assert(h.ack(id, t) == g.ack(id, t));
                assert(h.acked.contains_key((id, t)));
                history::lemma_own_grows(h, g, id, t, i);
                assert(h.own(t, i));
                history::lemma_kept_grows(h, g, id, full, t, i, u as int);
                if g.holds(full, t, i) {
                    assert(next.take(i) =~= full.take(i));
                }
            }
        }
    }
    assert(full.take(full.len() as int) =~= next.take(full.len() as int));
    history::lemma_settled_grows(h, g, id, voters, full, v.commit as int, u as int);
    lemma_settled_len(g, voters, full, v.commit as int, u as int);
    history::lemma_settled_prefix(
        g,
        voters,
        full,
        next,
        v.commit as int,
        u as int,
        full.len() as int,
    );
    history::lemma_settled_grows(h, g, id, voters, full, base, u as int);
    history::lemma_settled_prefix(g, voters, full, next, base, u as int, full.len() as int);
    lemma_outbox_grows(h, g, id, voters, v);
}

/// A command leaves the members as they are.
proof fn lemma_plain_conf(log: Seq<EntryView>, e: EntryView, base: MembersView)
    requires
        e.kind == EntryType::Normal,
    ensures
        node::last_conf(log.push(e), base) == node::last_conf(log, base),
{
    assert(log.push(e).last() == e);
    assert(log.push(e).drop_last() =~= log);
}

/// A command.
#[verifier::spinoff_prover]
#[verifier::rlimit(40)]
pub proof fn lemma_propose(h: History, voters: Seq<u64>, id: u64, v: NodeView, data: Seq<u8>) -> (g: History)
    requires
        h.good(voters, id, v),
        v.st.last_index() < u64::MAX - 1,
    ensures
        g.good(voters, id, v.propose(data).0),
        h.grows(g, id),
{
    history::lemma_grows_same(h, id);
    if v.role == Role::Leader {
        let index = (v.st.last_index() + 1) as u64;
        let e = EntryView { term: v.term, index, kind: EntryType::Normal, data };
        let a = NodeView { st: v.st.append(seq![e]), ..v };
        let b = a.own_progress(index);
        let g = with_entry(h, id, v.term, e);
        let full = h.full[id];
        let next = full.push(e);
        lemma_store(h, voters, id, v);
        node::lemma_one_more(v.st, e);
        lemma_plain_conf(full, e, MembersView { voters, learners: Seq::empty() });
        lemma_plain_conf(v.st.log, e, v.base_members());
        assert(b.members() == b.conf_at(b.st.last_index()));
        lemma_own_entry(h, voters, id, v, e, b);
        lemma_advance(g, voters, id, b);
        lemma_broadcast(g, voters, id, b.advance_commit());
        g
    } else {
        h
    }
}

/// A change makes a difference of one voter at most.
proof fn lemma_change_near(m: MembersView, cc: ConfChange)
    ensures
        near(m.voters, m.change(cc).sorted().voters),
{
    let a = m.voters;
    let c = m.change(cc).voters;
    let b = m.change(cc).sorted().voters;
    members::lemma_sorted_ids(c);
    assert(b.to_set() =~= c.to_set()) by {
        assert forall|x: u64| b.to_set().contains(x) <==> c.to_set().contains(x) by {
            assert(b.contains(x) <==> c.contains(x));
        }
    }
    match cc {
        ConfChange::AddNode(x) => {
            if !a.contains(x) {
                assert(c.to_set() =~= a.to_set().insert(x)) by {
                    assert forall|y: u64| c.to_set().contains(y) <==> a.to_set().insert(x).contains(
                        y,
                    ) by {
                        if a.contains(y) {
                            let k = choose|k: int| 0 <= k < a.len() && a[k] == y;
                            assert(c[k] == y);
                        }
                        assert(c[a.len() as int] == x);
                    }
                }
            }
        },
        ConfChange::RemoveNode(x) => {
            members::lemma_without(a, x);
            if a.contains(x) {
                assert(a.to_set() =~= c.to_set().insert(x)) by {
                    assert forall|y: u64| a.to_set().contains(y) <==> c.to_set().insert(x).contains(
                        y,
                    ) by {
                        assert(c.contains(y) <==> (a.contains(y) && y != x));
                    }
                }
            } else {
                assert(a.to_set() =~= c.to_set()) by {
                    assert forall|y: u64| a.to_set().contains(y) <==> c.to_set().contains(y) by {
                        assert(c.contains(y) <==> (a.contains(y) && y != x));
                    }
                }
            }
        },
        ConfChange::AddLearner(_) => {},
    }
}

/// A leader with no change under way whose commit index stands at an entry of its own has had one
/// chosen by its voters behind the last change.
proof fn lemma_caught_up(h: History, voters: Seq<u64>, id: u64, v: NodeView) -> (j: int)
    requires
        h.good(voters, id, v),
        v.role == Role::Leader,
        !v.pending_conf(),
        v.st.term(v.commit) == Some(v.term),
    ensures
        history::last_change(h.full[id]) <= j,
        h.chosen_by(electors(voters, h.full[id]), v.term, j),
{
    let full = h.full[id];
    let u = v.term;
    let c = v.commit as int;
    let base = v.st.base() as int;
    lemma_store(h, voters, id, v);
    lemma_settled_len(h, voters, full, c, u as int);
    assert(h.term_ok(voters, u));
    assert(c > 0 && base <= c);
    assert(v.st.term(v.commit) == Some(term_at(full, c)));
    let (t, j) = choose|t: u64, j: int| #[trigger]
        h.chosen(voters, t, j) && t <= u && c <= j && h.holds(full, t, c);
    assert(full.take(c)[c - 1] == full[c - 1]);
    assert(h.tlog[t].take(c)[c - 1] == h.tlog[t][c - 1]);
    assert(h.chosen(voters, t, j));
    let n = choose|n: int| #[trigger] h.chosen_at(voters, t, j, n);
    assert(h.own(t, j));
    assert(h.term_ok(voters, t));
    history::lemma_entry(h, h.tlog[t], t as int, c - 1);
    assert(t == u);
    let es = v.st.entries(
        node::larger((v.commit + 1) as u64, v.st.first_index()),
        v.st.last_index(),
    );
    assert forall|k: int| c <= k < full.len() implies (#[trigger] full[k]).kind
        != EntryType::ConfChange by {
        assert(es =~= full.skip(c));
        assert(es[k - c] == full[k]);
    }
    history::lemma_change_bound(full, c);
    assert forall|k: int| n <= k < full.len() implies (#[trigger] full[k]).kind
        != EntryType::ConfChange by {}
    history::lemma_conf_tail(voters, full, n);
    j
}

/// A membership change.
#[verifier::spinoff_prover]
#[verifier::rlimit(80)]
pub proof fn lemma_propose_conf(h: History, voters: Seq<u64>, id: u64, v: NodeView, cc: ConfChange) -> (g: History)
    requires
        h.good(voters, id, v),
        v.st.last_index() < u64::MAX - 1,
        v.propose_conf(cc).1 is Ok ==> v.st.term(v.commit) == Some(v.term),
        v.members().change(cc).sorted().voters.len() <= u32::MAX,
        v.members().change(cc).sorted().learners.len() <= u32::MAX,
    ensures
        g.good(voters, id, v.propose_conf(cc).0),
        h.grows(g, id),
{
    history::lemma_grows_same(h, id);
    if v.propose_conf(cc).1 is Err {
        h
    } else {
        let full = h.full[id];
        let m = v.members().change(cc).sorted();
        let index = (v.st.last_index() + 1) as u64;
        let e = EntryView {
            term: v.term,
            index,
            kind: EntryType::ConfChange,
            data: message::conf_bytes(cc, m.voters, m.learners),
        };
        let a = NodeView { st: v.st.append(seq![e]), ..v };
        let b = a.own_progress(index);
        let w = b.recompute_conf();
        let x = if v.starts_fresh(cc) {
            NodeView {
                next: w.next.insert(cc.node(), 1),
                matched: w.matched.insert(cc.node(), 0),
                ..w
            }
        } else {
            w
        };
        let next = full.push(e);
        lemma_store(h, voters, id, v);
        node::lemma_one_more(v.st, e);
        message::law_conf_roundtrip(cc, m.voters, m.learners);
        members::lemma_sorted_ids(v.members().change(cc).voters);
        members::lemma_sorted_ids(v.members().change(cc).learners);
        members::lemma_sorted_already(m.voters);
        members::lemma_sorted_already(m.learners);
        assert(m.sorted() =~= m);
        assert(next.last() == e);
        assert(conf(voters, next) =~= m);
        assert(v.st.log.push(e).last() == e);
        assert(b.conf_at(b.st.last_index()) =~= m);
        lemma_change_near(v.members(), cc);
        let j = lemma_caught_up(h, voters, id, v);
        assert(permitted(h, voters, v, e));
        lemma_stays_voter(v, cc);
        assert(w.role == Role::Leader && w.members() == m);
        assert(b.progress_ok());
        node::lemma_recompute_wf(b);
        node::lemma_conf_same(x, w, x.st.last_index());
        lemma_own_entry(h, voters, id, v, e, x);
        let g = with_entry(h, id, v.term, e);
        lemma_advance(g, voters, id, x);
        lemma_broadcast(g, voters, id, x.advance_commit());
        g
    }
}

/// A leader that changes the members stays a voter.
proof fn lemma_stays_voter(v: NodeView, cc: ConfChange)
    requires
        v.is_voter(),
        cc != ConfChange::RemoveNode(v.id),
    ensures
        v.members().change(cc).sorted().voters.contains(v.id),
{
    let a = v.voters;
    let c = v.members().change(cc).voters;
    members::lemma_sorted_ids(c);
    assert(c.contains(v.id)) by {
        match cc {
            ConfChange::AddNode(x) => {
                let k = choose|k: int| 0 <= k < a.len() && a[k] == v.id;
                assert(c[k] == v.id);
            },
            ConfChange::RemoveNode(x) => {
                members::lemma_without(a, x);
            },
            ConfChange::AddLearner(_) => {},
        }
    }
    assert(v.members().change(cc).sorted().voters.contains(v.id) <==> c.contains(v.id));
}

/// Compaction.
pub proof fn lemma_compact(h: History, voters: Seq<u64>, id: u64, v: NodeView, index: u64, data: Seq<u8>)
    requires
        h.good(voters, id, v),
    ensures
        h.good(voters, id, v.compacted(index, data)),
{
    let w = v.compacted(index, data);
    if v.st.base() < index <= v.applied {
        let full = h.full[id];
        let u = v.term as int;
        let base = v.st.base() as int;
        lemma_store(h, voters, id, v);
        lemma_settled_len(h, voters, full, v.commit as int, u);
        node::lemma_compacted_wf(v, index, data);
        lemma_members(h, voters, v, index);
        assert(v.st.term(index) == Some(term_at(full, index as int)));
        assert(w.st.log =~= full.skip(index as int));
        assert(h.stores(voters, w));
        assert(h.settled(voters, full, index as int, u)) by {
            let (t, j) = choose|t: u64, j: int| #[trigger]
                h.chosen(voters, t, j) && t <= u && v.commit <= j && h.holds(full, t, v.commit as int);
            history::lemma_holds_less(full, h.tlog[t], v.commit as int, index as int);
            assert(h.chosen(voters, t, j) && h.holds(full, t, index as int));
        }
        assert(h.acks_ok(w)) by {
            reveal(History::acks_ok);
        }
    }
}

/// A restart.
pub proof fn lemma_restart(
    h: History,
    voters: Seq<u64>,
    id: u64,
    v: NodeView,
    election_timeout: u32,
    heartbeat_timeout: u32,
    seed: u64,
)
    requires
        h.good(voters, id, v),
        election_timeout <= 0x8000_0000,
    ensures
        h.good(
            voters,
            id,
            NodeView::start(id, voters, election_timeout, heartbeat_timeout, seed, v.st),
        ),
{
    let w = NodeView::start(id, voters, election_timeout, heartbeat_timeout, seed, v.st);
    let a = NodeView {
        id,
        voters,
        learners: Seq::empty(),
        boot: voters,
        st: v.st,
        role: Role::Follower,
        term: v.st.hard.current_term,
        vote: v.st.hard.voted_for,
        commit: 0,
        applied: 0,
        leader: None,
        votes: Set::empty(),
        next: Map::empty(),
        matched: Map::empty(),
        election_elapsed: 0,
        heartbeat_elapsed: 0,
        timeout: election_timeout,
        election_timeout: if election_timeout == 0 {
            1
        } else {
            election_timeout
        },
        heartbeat_timeout: if heartbeat_timeout == 0 {
            1
        } else {
            heartbeat_timeout
        },
        rng: seed | 1,
        outbox: Seq::empty(),
        pending: None,
    };
    let b = a.reset_timer();
    node::lemma_recompute_wf(b);
    lemma_recompute(h, voters, b);
    assert(w.members() =~= conf(voters, h.full[id]));
    assert(h.acks_ok(w)) by {
        reveal(History::acks_ok);
    }
}

} // verus!
