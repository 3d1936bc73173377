//! What has happened in a group so far, and what holds of every state that it can reach.
//!
//! `voters` are those that the group started with. Who votes later is in the log: each log has its
//! own members, and two of them can be far apart. What keeps the group safe is that a leader
//! changes one voter at a time, and not before an entry of its own is chosen behind the change
//! before: so a candidate either has voters in common with whoever chose an entry, or lacks a
//! change that was itself chosen.

use vstd::prelude::*;
use vstd::set_lib::*;
use crate::raft::cluster::Cluster;
use crate::raft::members;
use crate::raft::members::MembersView;
use crate::raft::message;
use crate::raft::message::{BodyView, EntryType, EntryView, MessageView};
use crate::raft::node;
use crate::raft::node::{NodeView, Role};

verus! {

/// What has happened so far.
pub struct History {
    /// Each node's whole log, the compacted part included.
    pub full: Map<u64, Seq<EntryView>>,
    /// Whom a node voted for in a term.
    pub voted: Map<(u64, u64), u64>,
    /// A candidate's log when it started its election in a term.
    pub clog: Map<(u64, u64), Seq<EntryView>>,
    /// Who won a term.
    pub elected: Map<u64, u64>,
    /// Who voted for the winner of a term before it had won.
    pub quorum: Map<u64, Set<u64>>,
    /// The winner's log as it last was in its term.
    pub tlog: Map<u64, Seq<EntryView>>,
    /// How far a node has confirmed to hold the log of a term's winner.
    pub acked: Map<(u64, u64), nat>,
}

/// The term at a position of a whole log.
pub open spec fn term_at(log: Seq<EntryView>, p: int) -> u64 {
    if p == 0 {
        0
    } else {
        log[p - 1].term
    }
}

/// A majority of the voters.
pub open spec fn is_majority(q: Set<u64>, voters: Seq<u64>) -> bool {
    &&& q.subset_of(voters.to_set())
    &&& q.len() >= voters.len() / 2 + 1
}

/// The members that a whole log records; the first voters where it records none.
pub open spec fn conf(voters: Seq<u64>, log: Seq<EntryView>) -> MembersView {
    node::last_conf(log, MembersView { voters, learners: Seq::empty() }).sorted()
}

/// Those who vote by a whole log.
pub open spec fn electors(voters: Seq<u64>, log: Seq<EntryView>) -> Seq<u64> {
    conf(voters, log).voters
}

/// Where the last membership change of a log stands; 0 where there is none.
pub open spec fn last_change(log: Seq<EntryView>) -> nat
    decreases log.len(),
{
    if log.len() == 0 {
        0
    } else if log.last().kind == EntryType::ConfChange {
        log.len()
    } else {
        last_change(log.drop_last())
    }
}

/// Whether two lists of voters differ by one at most.
pub open spec fn near(a: Seq<u64>, b: Seq<u64>) -> bool {
    ||| a.to_set() == b.to_set()
    ||| exists|x: u64| b.to_set() == #[trigger] a.to_set().insert(x)
    ||| exists|x: u64| a.to_set() == #[trigger] b.to_set().insert(x)
}

impl History {
    /// How far a node has confirmed a term's log.
    pub open spec fn ack(self, n: u64, t: u64) -> nat {
        if self.acked.contains_key((n, t)) {
            self.acked[(n, t)]
        } else {
            0
        }
    }

    /// Every entry came from the winner of its term, together with all in front of it.
    #[verifier::opaque]
    pub open spec fn sound(self, log: Seq<EntryView>, top: int) -> bool {
        forall|k: int|
            0 <= k < log.len() ==> {
                let t = (#[trigger] log[k]).term;
                &&& 1 <= t <= top
                &&& self.elected.contains_key(t)
                &&& k < self.tlog[t].len()
                &&& log.take(k + 1) == self.tlog[t].take(k + 1)
                &&& log[k].index == k + 1
            }
    }

    /// The entry at `i` is one that the winner of `t` made itself.
    pub open spec fn own(self, t: u64, i: int) -> bool {
        &&& self.elected.contains_key(t)
        &&& 1 <= i <= self.tlog[t].len()
        &&& self.tlog[t][i - 1].term == t
    }

    /// A log agrees with that of the winner of `t` up to `i`.
    pub open spec fn holds(self, log: Seq<EntryView>, t: u64, i: int) -> bool {
        &&& i <= log.len()
        &&& log.take(i) == self.tlog[t].take(i)
    }

    /// The winner of `s` lacks what the winner of `t` had up to `i`.
    pub open spec fn lacks(self, s: u64, t: u64, i: int) -> bool {
        self.elected.contains_key(s) && !self.holds(self.tlog[s], t, i)
    }

    /// A log still holds what the winner of `t` had up to `i`, unless a later winner, up to
    /// `top`, lacks it.
    pub open spec fn kept(self, log: Seq<EntryView>, t: u64, i: int, top: int) -> bool {
        self.holds(log, t, i) || exists|s: u64| t < s <= top && #[trigger] self.lacks(s, t, i)
    }

    /// The voters that have confirmed a term's log up to `i`.
    pub open spec fn holders(self, voters: Seq<u64>, t: u64, i: int) -> Set<u64> {
        voters.to_set().filter(|n: u64| self.ack(n, t) >= i)
    }

    /// A majority of `ids` holds an entry of the winner of `t`.
    pub open spec fn chosen_by(self, ids: Seq<u64>, t: u64, i: int) -> bool {
        self.own(t, i) && is_majority(self.holders(ids, t, i), ids)
    }

    /// A majority of those who voted when the winner's log had `n` entries holds its entry.
    pub open spec fn chosen_at(self, voters: Seq<u64>, t: u64, i: int, n: int) -> bool {
        &&& i <= n <= self.tlog[t].len()
        &&& self.chosen_by(electors(voters, self.tlog[t].take(n)), t, i)
    }

    /// A majority holds an entry of the winner of `t`.
    pub open spec fn chosen(self, voters: Seq<u64>, t: u64, i: int) -> bool {
        exists|n: int| #[trigger] self.chosen_at(voters, t, i, n)
    }

    /// A membership change that the winner of `t` made: it can be read, changes one voter at most,
    /// and came when an entry of the same winner, behind the change before, was chosen.
    pub open spec fn change_ok(self, voters: Seq<u64>, t: u64, i: int) -> bool {
        let before = self.tlog[t].take(i - 1);
        &&& message::conf_of(self.tlog[t][i - 1].data) is Some
        &&& near(electors(voters, before), electors(voters, self.tlog[t].take(i)))
        &&& exists|j: int|
            last_change(before) <= j < i && #[trigger] self.chosen_by(
                electors(voters, before),
                t,
                j,
            )
    }

    /// The first `c` entries of a log are in front of a chosen one, or are that.
    pub open spec fn settled(
        self,
        voters: Seq<u64>,
        log: Seq<EntryView>,
        c: int,
        top: int,
    ) -> bool {
        c == 0 || exists|t: u64, j: int| #[trigger]
            self.chosen(voters, t, j) && t <= top && c <= j && self.holds(log, t, c)
    }

    /// A candidate's log holds what its voter had confirmed, unless a winner in between lacks it,
    /// or the vote came after the election and the winner lacks it.
    #[verifier::opaque]
    pub open spec fn votes_ok(self) -> bool {
        forall|n: u64, u: u64, t: u64, i: int|
            #![trigger self.voted.contains_key((n, u)), self.own(t, i)]
            self.voted.contains_key((n, u)) && self.own(t, i) && t < u && i <= self.ack(n, t)
                ==> self.vote_ok(n, u, t, i)
    }

    /// The same, of one vote and one entry.
    pub open spec fn vote_ok(self, n: u64, u: u64, t: u64, i: int) -> bool {
        let c = self.voted[(n, u)];
        ||| self.clog.contains_key((c, u)) && self.holds(self.clog[(c, u)], t, i)
        ||| exists|s: u64| t < s < u && #[trigger] self.lacks(s, t, i)
        ||| self.elected.contains_key(u) && !self.quorum[u].contains(n) && self.lacks(u, t, i)
    }

    /// What holds of a term that was won.
    pub open spec fn term_ok(self, voters: Seq<u64>, t: u64) -> bool {
        let e = self.elected[t];
        &&& self.sound(self.tlog[t], t as int)
        &&& t >= 1
        &&& self.clog.contains_key((e, t))
        &&& self.clog[(e, t)].len() <= self.tlog[t].len()
        &&& self.tlog[t].take(self.clog[(e, t)].len() as int) == self.clog[(e, t)]
        &&& is_majority(self.quorum[t], electors(voters, self.clog[(e, t)]))
        &&& forall|n: u64| #[trigger]
            self.quorum[t].contains(n) ==> self.voted.contains_key((n, t)) && self.voted[(n, t)]
                == e
        &&& forall|i: int| #[trigger]
            self.own(t, i) && self.tlog[t][i - 1].kind == EntryType::ConfChange ==> self.change_ok(
                voters,
                t,
                i,
            )
    }

    /// Votes go to candidates, from those who vote by the candidate's log.
    pub open spec fn ballots_ok(self, voters: Seq<u64>) -> bool {
        forall|n: u64, u: u64| #[trigger]
            self.voted.contains_key((n, u)) ==> {
                let c = self.voted[(n, u)];
                &&& self.clog.contains_key((c, u))
                &&& electors(voters, self.clog[(c, u)]).contains(n)
            }
    }

    /// What holds of the history.
    pub open spec fn ok(self, voters: Seq<u64>) -> bool {
        &&& members::ascending(voters)
        &&& forall|t: u64| #[trigger] self.elected.contains_key(t) ==> self.term_ok(voters, t)
        &&& forall|n: u64, t: u64| #[trigger]
            self.acked.contains_key((n, t)) ==> self.elected.contains_key(t) && self.ack(n, t)
                <= self.tlog[t].len()
        &&& forall|c: u64, u: u64| #[trigger]
            self.clog.contains_key((c, u)) ==> self.sound(self.clog[(c, u)], u - 1)
        &&& self.votes_ok()
        &&& self.ballots_ok(voters)
    }

    /// A node's store holds the end of its whole log.
    pub open spec fn stores(self, voters: Seq<u64>, v: NodeView) -> bool {
        let full = self.full[v.id];
        let base = v.st.base() as int;
        &&& base <= full.len()
        &&& v.st.log == full.skip(base)
        &&& match v.st.snap {
            Some(s) => {
                &&& s.last_included_term == term_at(full, base)
                &&& s.conf_state == conf(voters, full.take(base)).voters
                &&& s.learners == conf(voters, full.take(base)).learners
            },
            None => true,
        }
    }

    /// A node's votes are on record.
    pub open spec fn vote_recorded(self, v: NodeView) -> bool {
        &&& forall|t: u64| #[trigger] self.voted.contains_key((v.id, t)) ==> t <= v.term
        &&& forall|t: u64| #[trigger] self.clog.contains_key((v.id, t)) ==> t <= v.term
        &&& self.voted.contains_key((v.id, v.term)) <==> v.vote is Some
        &&& v.vote is Some ==> self.voted[(v.id, v.term)] == v.vote->0
    }

    /// A candidate's votes are on record, and it has not won its term.
    pub open spec fn candidate_ok(self, v: NodeView) -> bool {
        &&& v.term >= 1
        &&& v.vote == Some(v.id)
        &&& v.is_voter()
        &&& v.votes.finite()
        &&& self.clog.contains_key((v.id, v.term))
        &&& self.clog[(v.id, v.term)] == self.full[v.id]
        &&& forall|n: u64| #[trigger]
            v.votes.contains(n) ==> self.voted.contains_key((n, v.term)) && self.voted[(n, v.term)]
                == v.id
        &&& !(self.elected.contains_key(v.term) && self.elected[v.term] == v.id)
    }

    /// A leader won its term, and its view of the others is on record.
    pub open spec fn leader_ok(self, v: NodeView) -> bool {
        let full = self.full[v.id];
        &&& v.vote == Some(v.id)
        &&& v.is_voter()
        &&& self.elected.contains_key(v.term)
        &&& self.elected[v.term] == v.id
        &&& self.tlog[v.term] == full
        &&& forall|k: u64| #[trigger]
            v.matched.contains_key(k) ==> v.matched[k] <= self.ack(k, v.term)
        &&& forall|k: u64| #[trigger] v.next.contains_key(k) ==> v.next[k] <= full.len() + 1
    }

    /// What a node confirmed, it still holds, unless a later winner lacks it.
    #[verifier::opaque]
    pub open spec fn acks_ok(self, v: NodeView) -> bool {
        forall|t: u64, i: int| #[trigger]
            self.own(t, i) && i <= self.ack(v.id, t) ==> t <= v.term && self.kept(
                self.full[v.id],
                t,
                i,
                v.term as int,
            )
    }

    /// What holds of a node.
    pub open spec fn node_ok(self, voters: Seq<u64>, id: u64, v: NodeView) -> bool {
        &&& v.wf()
        &&& v.id == id
        &&& v.boot == voters
        &&& v.members() == conf(voters, self.full[id])
        &&& self.stores(voters, v)
        &&& self.sound(self.full[id], v.term as int)
        &&& self.vote_recorded(v)
        &&& v.role == Role::Candidate ==> self.candidate_ok(v)
        &&& v.role == Role::Leader ==> self.leader_ok(v)
        &&& self.acks_ok(v)
        &&& self.settled(voters, self.full[id], v.commit as int, v.term as int)
        &&& self.settled(voters, self.full[id], v.st.base() as int, v.term as int)
        &&& v.applied <= v.commit
    }

    /// What holds of a message.
    pub open spec fn message_ok(self, voters: Seq<u64>, m: MessageView) -> bool {
        match m.body {
            BodyView::RequestVote { last_log_index, last_log_term } => {
                let log = self.clog[(m.from, m.term)];
                &&& self.clog.contains_key((m.from, m.term))
                &&& electors(voters, log).contains(m.to)
                &&& last_log_index == log.len()
                &&& last_log_term == term_at(log, log.len() as int)
            },
            BodyView::RequestVoteResp { granted } => granted ==> self.voted.contains_key(
                (m.from, m.term),
            ) && self.voted[(m.from, m.term)] == m.to,
            BodyView::AppendEntries { prev_log_index, prev_log_term, entries, leader_commit } => {
                let log = self.tlog[m.term];
                let end = prev_log_index + entries.len();
                &&& self.elected.contains_key(m.term)
                &&& self.elected[m.term] == m.from
                &&& m.from != m.to
                &&& end <= log.len()
                &&& entries == log.subrange(prev_log_index as int, end as int)
                &&& prev_log_term == term_at(log, prev_log_index as int)
                &&& leader_commit <= end
                &&& self.settled(voters, log, leader_commit as int, m.term as int)
            },
            BodyView::AppendEntriesResp { success, match_index } => {
                &&& m.from != m.to
                &&& success ==> match_index <= self.ack(m.from, m.term)
            },
            BodyView::InstallSnapshot {
                last_included_index,
                last_included_term,
                conf_state,
                learners,
                ..
            } => {
                let log = self.tlog[m.term];
                &&& self.elected.contains_key(m.term)
                &&& self.elected[m.term] == m.from
                &&& m.from != m.to
                &&& 1 <= last_included_index <= log.len()
                &&& last_included_term == term_at(log, last_included_index as int)
                &&& conf_state == conf(voters, log.take(last_included_index as int)).voters
                &&& learners == conf(voters, log.take(last_included_index as int)).learners
                &&& self.settled(voters, log, last_included_index as int, m.term as int)
            },
            BodyView::InstallSnapshotResp { match_index } => match_index <= self.ack(
                m.from,
                m.term,
            ),
            BodyView::TimeoutNow => true,
        }
    }

    /// What holds of what a node has queued.
    pub open spec fn outbox_ok(self, voters: Seq<u64>, v: NodeView) -> bool {
        forall|k: int| 0 <= k < v.outbox.len() ==> self.message_ok(voters, #[trigger] v.outbox[k])
    }

    /// What holds while one node is at work.
    pub open spec fn good(self, voters: Seq<u64>, id: u64, v: NodeView) -> bool {
        &&& self.ok(voters)
        &&& self.node_ok(voters, id, v)
        &&& self.outbox_ok(voters, v)
    }

    /// What holds of a group.
    pub open spec fn describes(self, c: Cluster) -> bool {
        &&& self.ok(c.voters)
        &&& forall|id: u64| #[trigger]
            c.nodes.contains_key(id) ==> self.node_ok(c.voters, id, c.nodes[id])
                && self.outbox_ok(c.voters, c.nodes[id])
        &&& forall|m: MessageView| #[trigger] c.sent.contains(m) ==> self.message_ok(c.voters, m)
    }

    /// Node `id` did something: records were added, none was changed, and nothing that belongs to
    /// another node was touched.
    pub open spec fn grows(self, next: History, id: u64) -> bool {
        &&& forall|n: u64, t: u64| #[trigger]
            self.voted.contains_key((n, t)) ==> next.voted.contains_key((n, t))
                && next.voted[(n, t)] == self.voted[(n, t)]
        &&& forall|n: u64, t: u64| #[trigger]
            next.voted.contains_key((n, t)) && n != id ==> self.voted.contains_key((n, t))
        &&& forall|n: u64, t: u64| #[trigger]
            self.clog.contains_key((n, t)) ==> next.clog.contains_key((n, t))
                && next.clog[(n, t)] == self.clog[(n, t)]
        &&& forall|n: u64, t: u64| #[trigger]
            next.clog.contains_key((n, t)) && n != id ==> self.clog.contains_key((n, t))
        &&& forall|t: u64| #[trigger]
            self.elected.contains_key(t) ==> {
                &&& next.elected.contains_key(t)
                &&& next.elected[t] == self.elected[t]
                &&& next.quorum[t] == self.quorum[t]
                &&& self.tlog[t].len() <= next.tlog[t].len()
                &&& next.tlog[t].take(self.tlog[t].len() as int) == self.tlog[t]
                &&& forall|k: int|
                    self.tlog[t].len() <= k < next.tlog[t].len() ==> (#[trigger] next.tlog[t][k]).term
                        == t
                &&& self.elected[t] != id ==> next.tlog[t] == self.tlog[t]
            }
        &&& forall|t: u64| #[trigger]
            next.elected.contains_key(t) && !self.elected.contains_key(t) ==> next.elected[t]
                == id
        &&& forall|n: u64, t: u64| #![trigger next.ack(n, t)]
            self.ack(n, t) <= next.ack(n, t) && (n != id ==> next.ack(n, t) == self.ack(n, t))
        &&& forall|n: u64| n != id ==> #[trigger] next.full[n] == self.full[n]
    }
}

/// Those who vote by a log are ascending.
pub proof fn lemma_electors(voters: Seq<u64>, log: Seq<EntryView>)
    ensures
        members::ascending(electors(voters, log)),
        members::ascending(conf(voters, log).learners),
{
    let m = node::last_conf(log, MembersView { voters, learners: Seq::empty() });
    members::lemma_sorted_ids(m.voters);
    members::lemma_sorted_ids(m.learners);
}

/// Majorities of lists that differ by one at most have a member in common.
pub proof fn lemma_near_meet(a: Set<u64>, b: Set<u64>, x: Seq<u64>, y: Seq<u64>) -> (n: u64)
    requires
        is_majority(a, x),
        is_majority(b, y),
        members::ascending(x),
        members::ascending(y),
        near(x, y),
    ensures
        a.contains(n),
        b.contains(n),
{
    let (p, q) = (x.to_set(), y.to_set());
    lemma_voters_set(x);
    lemma_voters_set(y);
    if a.disjoint(b) {
        lemma_set_subset_finite(p, a);
        lemma_set_subset_finite(q, b);
        lemma_set_disjoint_lens(a, b);
        if q.subset_of(p) {
            assert((a + b).subset_of(p));
            lemma_len_subset(a + b, p);
            if p != q {
                let z = choose|z: u64| p == #[trigger] q.insert(z);
                assert(p.len() <= q.len() + 1);
            }
        } else {
            let z = choose|z: u64| q == #[trigger] p.insert(z);
            assert((a + b).subset_of(q));
            lemma_len_subset(a + b, q);
            assert(q.len() <= p.len() + 1);
        }
        assert(false);
    }
    choose|n: u64| a.contains(n) && b.contains(n)
}

/// What the last change of a log is.
pub proof fn lemma_last_change(log: Seq<EntryView>)
    ensures
        last_change(log) <= log.len(),
        last_change(log) > 0 ==> log[last_change(log) - 1].kind == EntryType::ConfChange,
        forall|k: int|
            last_change(log) <= k < log.len() ==> (#[trigger] log[k]).kind
                != EntryType::ConfChange,
    decreases log.len(),
{
    if log.len() > 0 && log.last().kind != EntryType::ConfChange {
        let d = log.drop_last();
        lemma_last_change(d);
        assert forall|k: int| last_change(log) <= k < log.len() implies (#[trigger] log[k]).kind
            != EntryType::ConfChange by {
            if k < d.len() {
                assert(d[k] == log[k]);
            }
        }
    }
}

/// The last change is behind every position that holds one, and not behind one without any
/// further change.
pub proof fn lemma_change_bound(log: Seq<EntryView>, p: int)
    ensures
        1 <= p <= log.len() && log[p - 1].kind == EntryType::ConfChange ==> p <= last_change(log),
        0 <= p && (forall|k: int|
            p <= k < log.len() ==> (#[trigger] log[k]).kind != EntryType::ConfChange)
            ==> last_change(log) <= p,
{
    lemma_last_change(log);
    let l = last_change(log) as int;
    if 0 <= p < l {
        assert(log[l - 1].kind == EntryType::ConfChange);
    }
}

/// Behind its last change a log's members are the same.
pub proof fn lemma_conf_tail(voters: Seq<u64>, log: Seq<EntryView>, n: int)
    requires
        0 <= n <= log.len(),
        forall|k: int| n <= k < log.len() ==> (#[trigger] log[k]).kind != EntryType::ConfChange,
    ensures
        conf(voters, log.take(n)) == conf(voters, log),
    decreases log.len(),
{
    if n < log.len() {
        let d = log.drop_last();
        assert(log.last() == log[log.len() - 1]);
        assert forall|k: int| n <= k < d.len() implies (#[trigger] d[k]).kind
            != EntryType::ConfChange by {
            assert(d[k] == log[k]);
        }
        lemma_conf_tail(voters, d, n);
        assert(d.take(n) =~= log.take(n));
    } else {
        assert(log.take(n) =~= log);
    }
}

/// The voters as a set: as many as in the list.
pub proof fn lemma_voters_set(voters: Seq<u64>)
    requires
        members::ascending(voters),
    ensures
        voters.to_set().finite(),
        voters.to_set().len() == voters.len(),
        forall|n: u64| #[trigger] voters.to_set().contains(n) <==> voters.contains(n),
{
    assert(voters.no_duplicates()) by {
        assert forall|i: int, j: int|
            0 <= i < voters.len() && 0 <= j < voters.len() && i != j implies voters[i]
            != voters[j] by {
            if i < j {
                assert(voters[i] < voters[j]);
            } else {
                assert(voters[j] < voters[i]);
            }
        }
    }
    voters.unique_seq_to_set();
    vstd::seq_lib::seq_to_set_is_finite(voters);
}

/// What an entry of a sound log is.
pub proof fn lemma_entry(h: History, log: Seq<EntryView>, top: int, k: int)
    requires
        h.sound(log, top),
        0 <= k < log.len(),
    ensures
        1 <= log[k].term <= top,
        h.elected.contains_key(log[k].term),
        k < h.tlog[log[k].term].len(),
        log.take(k + 1) == h.tlog[log[k].term].take(k + 1),
        h.tlog[log[k].term][k] == log[k],
        log[k].index == k + 1,
        h.own(log[k].term, k + 1),
{
    reveal(History::sound);
    let t = log[k].term;
    assert(log.take(k + 1)[k] == log[k]);
    assert(h.tlog[t].take(k + 1)[k] == h.tlog[t][k]);
}

/// Terms do not go down along a sound log.
pub proof fn lemma_terms_ordered(h: History, voters: Seq<u64>, log: Seq<EntryView>, top: int, i: int, j: int)
    requires
        h.ok(voters),
        h.sound(log, top),
        0 <= i <= j < log.len(),
    ensures
        log[i].term <= log[j].term,
{
    lemma_entry(h, log, top, j);
    let t = log[j].term;
    assert(h.term_ok(voters, t));
    assert(log.take(j + 1)[i] == log[i]);
    assert(h.tlog[t].take(j + 1)[i] == h.tlog[t][i]);
    lemma_entry(h, h.tlog[t], t as int, i);
}

/// Two sound logs that agree on the term at a position agree up to it.
pub proof fn lemma_logs_match(h: History, a: Seq<EntryView>, b: Seq<EntryView>, ta: int, tb: int, k: int)
    requires
        h.sound(a, ta),
        h.sound(b, tb),
        0 <= k < a.len(),
        k < b.len(),
        a[k].term == b[k].term,
    ensures
        a.take(k + 1) == b.take(k + 1),
{
    lemma_entry(h, a, ta, k);
    lemma_entry(h, b, tb, k);
}

/// A part of a log that agrees up to a position agrees up to any before.
pub proof fn lemma_holds_less(a: Seq<EntryView>, b: Seq<EntryView>, i: int, j: int)
    requires
        0 <= j <= i,
        i <= a.len(),
        i <= b.len(),
        a.take(i) == b.take(i),
    ensures
        a.take(j) == b.take(j),
{
    assert(a.take(j) =~= a.take(i).take(j));
    assert(b.take(j) =~= b.take(i).take(j));
}

/// A majority that voted for a candidate makes sure that its log holds what was chosen by voters
/// that differ by one at most, as long as no winner in between lacks it.
proof fn lemma_vote_holds(
    h: History,
    voters: Seq<u64>,
    c: u64,
    u: u64,
    q: Set<u64>,
    ids: Seq<u64>,
    t: u64,
    i: int,
)
    requires
        h.ok(voters),
        h.clog.contains_key((c, u)),
        is_majority(q, electors(voters, h.clog[(c, u)])),
        forall|n: u64| #[trigger]
            q.contains(n) ==> h.voted.contains_key((n, u)) && h.voted[(n, u)] == c,
        h.chosen_by(ids, t, i),
        members::ascending(ids),
        near(ids, electors(voters, h.clog[(c, u)])),
        t < u,
        forall|s: u64| t < s < u ==> !(#[trigger] h.lacks(s, t, i)),
        h.elected.contains_key(u) ==> q.subset_of(h.quorum[u]) || !h.lacks(u, t, i),
    ensures
        h.holds(h.clog[(c, u)], t, i),
{
    let b = h.clog[(c, u)];
    lemma_electors(voters, b);
    let n = lemma_near_meet(h.holders(ids, t, i), q, ids, electors(voters, b));
    assert(h.ack(n, t) >= i);
    assert(h.voted.contains_key((n, u)));
    assert(h.own(t, i));
    assert(h.vote_ok(n, u, t, i)) by {
        reveal(History::votes_ok);
    }
}

/// Where the first change of a log behind `q` stands; 0 where there is none.
spec fn next_change(log: Seq<EntryView>, q: int) -> int
    decreases log.len() - q,
{
    if q < 0 || q >= log.len() {
        0
    } else if log[q].kind == EntryType::ConfChange {
        q + 1
    } else {
        next_change(log, q + 1)
    }
}

/// What the first change behind `q` is.
proof fn lemma_next_change(voters: Seq<u64>, log: Seq<EntryView>, q: int)
    requires
        0 <= q <= log.len(),
    ensures
        ({
            let p = next_change(log, q);
            &&& p == 0 ==> conf(voters, log) == conf(voters, log.take(q))
            &&& p != 0 ==> {
                &&& q < p <= log.len()
                &&& log[p - 1].kind == EntryType::ConfChange
                &&& conf(voters, log.take(p - 1)) == conf(voters, log.take(q))
                &&& last_change(log.take(p - 1)) <= q
            }
        }),
{
    lemma_next_clear(log, q);
    let p = next_change(log, q);
    if p == 0 {
        lemma_conf_tail(voters, log, q);
    } else {
        let a = log.take(p - 1);
        assert forall|k: int| q <= k < a.len() implies (#[trigger] a[k]).kind
            != EntryType::ConfChange by {
            assert(a[k] == log[k]);
        }
        lemma_conf_tail(voters, a, q);
        assert(a.take(q) =~= log.take(q));
        lemma_change_bound(a, q);
    }
}

proof fn lemma_next_clear(log: Seq<EntryView>, q: int)
    requires
        0 <= q <= log.len(),
    ensures
        ({
            let p = next_change(log, q);
            &&& p == 0 ==> forall|k: int|
                q <= k < log.len() ==> (#[trigger] log[k]).kind != EntryType::ConfChange
            &&& p != 0 ==> {
                &&& q < p <= log.len()
                &&& log[p - 1].kind == EntryType::ConfChange
                &&& forall|k: int|
                    q <= k < p - 1 ==> (#[trigger] log[k]).kind != EntryType::ConfChange
            }
        }),
    decreases log.len() - q,
{
    if q < log.len() && log[q].kind != EntryType::ConfChange {
        lemma_next_clear(log, q + 1);
    }
}

/// Two logs agree up to here and no further.
spec fn parts(a: Seq<EntryView>, b: Seq<EntryView>, q: int) -> bool {
    &&& 0 <= q <= a.len()
    &&& q <= b.len()
    &&& a.take(q) == b.take(q)
    &&& forall|r: int| #![trigger a.take(r)]
        q < r <= a.len() && r <= b.len() ==> a.take(r) != b.take(r)
}

/// Two logs agree up to some position and no further.
proof fn lemma_parts(a: Seq<EntryView>, b: Seq<EntryView>, k: int) -> (q: int)
    requires
        0 <= k <= a.len(),
        k <= b.len(),
        a.take(k) == b.take(k),
    ensures
        parts(a, b, q),
    decreases a.len() - k,
{
    if k < a.len() && k < b.len() && a[k] == b[k] {
        assert(a.take(k + 1) =~= a.take(k).push(a[k]));
        assert(b.take(k + 1) =~= b.take(k).push(b[k]));
        lemma_parts(a, b, k + 1)
    } else {
        assert forall|r: int| #![trigger a.take(r)] k < r <= a.len() && r
            <= b.len() implies a.take(r) != b.take(r) by {
            assert(a.take(r)[k] == a[k]);
            assert(b.take(r)[k] == b[k]);
        }
        k
    }
}

/// Logs that agree with a third up to some positions agree up to the smaller one.
proof fn lemma_agree(a: Seq<EntryView>, b: Seq<EntryView>, c: Seq<EntryView>, i: int, j: int, k: int)
    requires
        0 <= k <= i <= a.len(),
        k <= j <= b.len(),
        i <= c.len(),
        j <= c.len(),
        a.take(i) == c.take(i),
        b.take(j) == c.take(j),
    ensures
        a.take(k) == b.take(k),
{
    lemma_holds_less(a, c, i, k);
    lemma_holds_less(b, c, j, k);
}

/// A membership change in a sound log: its winner had an entry of its own chosen, by those who
/// voted before the change, at a position not before the change in front of it.
proof fn lemma_change(h: History, voters: Seq<u64>, log: Seq<EntryView>, top: int, p: int) -> (j: int)
    requires
        h.ok(voters),
        h.sound(log, top),
        1 <= p <= log.len(),
        log[p - 1].kind == EntryType::ConfChange,
    ensures
        ({
            let t = log[p - 1].term;
            &&& t <= top
            &&& h.elected.contains_key(t)
            &&& p <= h.tlog[t].len()
            &&& log.take(p) == h.tlog[t].take(p)
            &&& log.take(j) == h.tlog[t].take(j)
            &&& near(electors(voters, log.take(p - 1)), electors(voters, log.take(p)))
            &&& last_change(log.take(p - 1)) <= j < p
            &&& h.chosen_by(electors(voters, log.take(p - 1)), t, j)
            &&& h.chosen(voters, t, j)
            &&& 1 <= j
            &&& log[j - 1].term == t
        }),
{
    let t = log[p - 1].term;
    lemma_entry(h, log, top, p - 1);
    assert(h.term_ok(voters, t));
    assert(h.own(t, p));
    let w = h.tlog[t];
    lemma_holds_less(log, w, p, p - 1);
    assert(h.change_ok(voters, t, p));
    let before = w.take(p - 1);
    let j = choose|j: int|
        last_change(before) <= j < p && #[trigger] h.chosen_by(electors(voters, before), t, j);
    assert(h.own(t, j));
    lemma_holds_less(log, w, p, j);
    assert(log.take(p)[j - 1] == log[j - 1]);
    assert(w.take(p)[j - 1] == w[j - 1]);
    assert(h.chosen_at(voters, t, j, p - 1));
    j
}

/// A log with an entry of a later term holds what the winner of that term holds in front of it.
proof fn lemma_later_entry(
    h: History,
    voters: Seq<u64>,
    log: Seq<EntryView>,
    top: int,
    p: int,
    t: u64,
    i: int,
)
    requires
        h.ok(voters),
        h.sound(log, top),
        1 <= p <= log.len(),
        h.own(t, i),
        log[p - 1].term > t || (log[p - 1].term == t && p >= i),
        log[p - 1].term > t ==> h.holds(h.tlog[log[p - 1].term], t, i),
    ensures
        h.holds(log, t, i),
{
    let s = log[p - 1].term;
    lemma_entry(h, log, top, p - 1);
    assert(h.term_ok(voters, s));
    assert(h.term_ok(voters, t));
    let w = h.tlog[s];
    if s > t {
        assert(w.take(i)[i - 1] == w[i - 1]);
        assert(h.tlog[t].take(i)[i - 1] == h.tlog[t][i - 1]);
        if p <= i {
            lemma_terms_ordered(h, voters, w, s as int, p - 1, i - 1);
            assert(false);
        }
        lemma_holds_less(log, w, p, i);
    } else {
        lemma_holds_less(log, w, p, i);
    }
}

/// A chosen entry is in the log of every later winner.
#[verifier::spinoff_prover]
#[verifier::rlimit(40)]
pub proof fn lemma_completeness(h: History, voters: Seq<u64>, t: u64, i: int, u: u64)
    requires
        h.ok(voters),
        h.chosen(voters, t, i),
        h.elected.contains_key(u),
        t <= u,
    ensures
        h.holds(h.tlog[u], t, i),
    decreases u, 3nat,
{
    let n = choose|n: int| #[trigger] h.chosen_at(voters, t, i, n);
    if t < u {
        lemma_candidate_holds(h, voters, t, i, n, u);
        let e = h.elected[u];
        assert(h.term_ok(voters, u));
        let l = h.clog[(e, u)];
        assert(l.take(l.len() as int) =~= l);
        lemma_holds_less(h.tlog[u], l, l.len() as int, i);
    }
}

/// What was chosen is not lacked by any winner before `u`.
proof fn lemma_none_lacks(h: History, voters: Seq<u64>, t: u64, i: int, u: u64)
    requires
        h.ok(voters),
        h.chosen(voters, t, i),
    ensures
        forall|s: u64| t < s < u ==> !(#[trigger] h.lacks(s, t, i)),
    decreases u, 0nat,
{
    assert forall|s: u64| t < s < u implies !(#[trigger] h.lacks(s, t, i)) by {
        if h.elected.contains_key(s) {
            lemma_completeness(h, voters, t, i, s);
        }
    }
}

/// A chosen entry is in the log with which a later winner stood for election.
#[verifier::spinoff_prover]
#[verifier::rlimit(60)]
pub proof fn lemma_candidate_holds(h: History, voters: Seq<u64>, t: u64, i: int, n: int, u: u64)
    requires
        h.ok(voters),
        h.chosen_at(voters, t, i, n),
        h.elected.contains_key(u),
        t < u,
    ensures
        h.holds(h.clog[(h.elected[u], u)], t, i),
    decreases u, 2nat,
{
    let e = h.elected[u];
    let b = h.clog[(e, u)];
    let a = h.tlog[t].take(n);
    let top = u - 1;
    assert(h.term_ok(voters, u));
    assert(h.term_ok(voters, t));
    assert(h.chosen(voters, t, i));
    assert(h.own(t, i));
    lemma_take_sound(h, h.tlog[t], t as int, n);
    if exists|p: int|
        1 <= p <= b.len() && ((#[trigger] b[p - 1]).term > t || (b[p - 1].term == t && p >= i)) {
        let p = choose|p: int|
            1 <= p <= b.len() && ((#[trigger] b[p - 1]).term > t || (b[p - 1].term == t && p >= i));
        lemma_entry(h, b, top, p - 1);
        if b[p - 1].term > t {
            lemma_completeness(h, voters, t, i, b[p - 1].term);
        }
        lemma_later_entry(h, voters, b, top, p, t, i);
    } else {
        assert(a.take(0) =~= b.take(0));
        let q = lemma_parts(a, b, 0);
        lemma_next_change(voters, a, q);
        lemma_next_change(voters, b, q);
        let (a1, b1) = (next_change(a, q), next_change(b, q));
        if i <= q {
            lemma_holds_less(a, b, q, i);
            assert(a.take(i) =~= h.tlog[t].take(i));
        } else if b1 != 0 && next_change(b, b1) != 0 {
            lemma_two_changes(h, voters, t, i, n, u, q);
        } else {
            lemma_one_change(h, voters, t, i, n, u, q);
        }
    }
}

/// The candidate's log has two changes that the other does not share: the first was chosen, so
/// that they would share it.
proof fn lemma_two_changes(h: History, voters: Seq<u64>, t: u64, i: int, n: int, u: u64, q: int)
    requires
        h.ok(voters),
        h.chosen_at(voters, t, i, n),
        h.elected.contains_key(u),
        t < u,
        ({
            let b = h.clog[(h.elected[u], u)];
            &&& parts(h.tlog[t].take(n), b, q)
            &&& q < i
            &&& forall|p: int| 1 <= p <= b.len() ==> (#[trigger] b[p - 1]).term <= t
            &&& next_change(b, q) != 0
            &&& next_change(b, next_change(b, q)) != 0
        }),
    ensures
        h.holds(h.clog[(h.elected[u], u)], t, i),
    decreases u, 1nat,
{
    let b = h.clog[(h.elected[u], u)];
    let a = h.tlog[t].take(n);
    assert(h.term_ok(voters, u));
    assert(h.sound(b, u - 1));
    lemma_next_change(voters, b, q);
    let b1 = next_change(b, q);
    lemma_next_change(voters, b, b1);
    let b2 = next_change(b, b1);
    let j = lemma_change(h, voters, b, u - 1, b2);
    let x = b.take(b2 - 1);
    lemma_change_bound(x, b1);
    assert(x[b1 - 1] == b[b1 - 1]);
    let s = b[b2 - 1].term;
    assert(s <= t);
    lemma_completeness(h, voters, s, j, t);
    // The winner of `t` and the candidate agree up to `j`, which is at or behind the first change.
    let m = if j < n {
        j
    } else {
        n
    };
    assert(h.tlog[t].take(j) == b.take(j));
    lemma_holds_less(h.tlog[t], b, j, m);
    assert(a.take(m) =~= h.tlog[t].take(m));
    assert(m > q);
    assert(false);
}

/// The candidate's log has one change at most that the other does not share: then their voters
/// differ by one at most, or the later of two changes brings what the other lacks.
proof fn lemma_one_change(h: History, voters: Seq<u64>, t: u64, i: int, n: int, u: u64, q: int)
    requires
        h.ok(voters),
        h.chosen_at(voters, t, i, n),
        h.elected.contains_key(u),
        t < u,
        ({
            let b = h.clog[(h.elected[u], u)];
            &&& parts(h.tlog[t].take(n), b, q)
            &&& q < i
            &&& forall|p: int| 1 <= p <= b.len() ==> (#[trigger] b[p - 1]).term <= t
            &&& next_change(b, q) == 0 || next_change(b, next_change(b, q)) == 0
        }),
    ensures
        h.holds(h.clog[(h.elected[u], u)], t, i),
    decreases u, 1nat,
{
    let e = h.elected[u];
    let b = h.clog[(e, u)];
    let w = h.tlog[t];
    let a = w.take(n);
    assert(h.term_ok(voters, u));
    assert(h.term_ok(voters, t));
    assert(h.sound(b, u - 1));
    lemma_take_sound(h, w, t as int, n);
    lemma_next_change(voters, a, q);
    lemma_next_change(voters, b, q);
    let a1 = next_change(a, q);
    let b1 = next_change(b, q);
    let base = electors(voters, a.take(q));
    lemma_electors(voters, a.take(q));
    lemma_electors(voters, a);
    lemma_electors(voters, b);
    assert(h.chosen(voters, t, i));
    if a1 == 0 {
        if b1 != 0 {
            let j = lemma_change(h, voters, b, u - 1, b1);
            lemma_next_change(voters, b, b1);
        }
        lemma_none_lacks(h, voters, t, i, u);
        lemma_vote_holds(h, voters, e, u, h.quorum[u], electors(voters, a), t, i);
    } else {
        let ja = lemma_change(h, voters, a, t as int, a1);
        let ta = a[a1 - 1].term;
        lemma_next_change(voters, a, a1);
        let a2 = next_change(a, a1);
        if b1 == 0 && a2 == 0 {
            lemma_near_sym(base, electors(voters, a));
            lemma_none_lacks(h, voters, t, i, u);
            lemma_vote_holds(h, voters, e, u, h.quorum[u], electors(voters, a), t, i);
        } else if b1 == 0 {
            let j = lemma_change(h, voters, a, t as int, a2);
            let x = a.take(a2 - 1);
            lemma_change_bound(x, a1);
            assert(x[a1 - 1] == a[a1 - 1]);
            let s = a[a2 - 1].term;
            lemma_electors(voters, x);
            lemma_near_sym(base, electors(voters, x));
            lemma_none_lacks(h, voters, s, j, u);
            lemma_vote_holds(h, voters, e, u, h.quorum[u], electors(voters, x), s, j);
            assert(a.take(j) == b.take(j));
            assert(false);
        } else {
            let jb = lemma_change(h, voters, b, u - 1, b1);
            let tb = b[b1 - 1].term;
            lemma_next_change(voters, b, b1);
            if ta == tb {
                let m = if a1 < b1 {
                    a1
                } else {
                    b1
                };
                lemma_agree(a, b, h.tlog[ta], a1, b1, m);
                assert(a.take(m) == b.take(m));
                assert(false);
            } else if ta < tb {
                lemma_completeness(h, voters, tb, jb, t);
                assert(w.take(jb) == b.take(jb));
                assert(w.take(jb)[jb - 1] == w[jb - 1]);
                assert(b.take(jb)[jb - 1] == b[jb - 1]);
                assert(w[a1 - 1] == a[a1 - 1]);
                if jb <= a1 {
                    lemma_terms_ordered(h, voters, w, t as int, jb - 1, a1 - 1);
                }
                lemma_holds_less(w, b, jb, a1);
                assert(a.take(a1) =~= w.take(a1));
                assert(a.take(a1) == b.take(a1));
                assert(false);
            } else {
                lemma_none_lacks(h, voters, ta, ja, u);
                lemma_vote_holds(h, voters, e, u, h.quorum[u], base, ta, ja);
                assert(a.take(ja) == b.take(ja));
                assert(b.take(ja)[ja - 1] == b[ja - 1]);
                assert(a.take(ja)[ja - 1] == a[ja - 1]);
                if ja <= b1 {
                    lemma_terms_ordered(h, voters, b, u - 1, ja - 1, b1 - 1);
                }
                assert(false);
            }
        }
    }
}

/// The voters of two candidates of a term have one in common, so that only one of them can win.
#[verifier::spinoff_prover]
#[verifier::rlimit(60)]
pub proof fn lemma_one_winner(h: History, voters: Seq<u64>, u: u64, c: u64, votes: Set<u64>)
    requires
        h.ok(voters),
        h.elected.contains_key(u),
        h.clog.contains_key((c, u)),
        is_majority(votes, electors(voters, h.clog[(c, u)])),
        forall|n: u64| #[trigger]
            votes.contains(n) ==> h.voted.contains_key((n, u)) && h.voted[(n, u)] == c,
    ensures
        h.elected[u] == c,
{
    let e = h.elected[u];
    let a = h.clog[(e, u)];
    let b = h.clog[(c, u)];
    assert(h.term_ok(voters, u));
    assert(h.sound(a, u - 1));
    assert(h.sound(b, u - 1));
    assert(a.take(0) =~= b.take(0));
    let q = lemma_parts(a, b, 0);
    lemma_next_change(voters, a, q);
    lemma_next_change(voters, b, q);
    let (a1, b1) = (next_change(a, q), next_change(b, q));
    lemma_electors(voters, a);
    lemma_electors(voters, b);
    if a1 != 0 {
        lemma_next_change(voters, a, a1);
        let _ = lemma_change(h, voters, a, u - 1, a1);
    }
    if b1 != 0 {
        lemma_next_change(voters, b, b1);
        let _ = lemma_change(h, voters, b, u - 1, b1);
    }
    if e != c {
        if a1 != 0 && b1 != 0 {
            assert(parts(b, a, q)) by {
                assert forall|r: int| #![trigger b.take(r)] q < r <= b.len() && r
                    <= a.len() implies b.take(r) != a.take(r) by {
                    assert(a.take(r) != b.take(r));
                }
            }
            if a[a1 - 1].term == b[b1 - 1].term {
                let m = if a1 < b1 {
                    a1
                } else {
                    b1
                };
                lemma_agree(a, b, h.tlog[a[a1 - 1].term], a1, b1, m);
                assert(a.take(m) == b.take(m));
                assert(false);
            } else if a[a1 - 1].term < b[b1 - 1].term {
                lemma_diverged(h, voters, u, e, h.quorum[u], a, b, q);
            } else {
                lemma_diverged(h, voters, u, c, votes, b, a, q);
            }
        } else if a1 == 0 && b1 != 0 && next_change(b, b1) != 0 {
            lemma_ahead(h, voters, u, e, h.quorum[u], a, b, q);
        } else if b1 == 0 && a1 != 0 && next_change(a, a1) != 0 {
            assert(parts(b, a, q)) by {
                assert forall|r: int| #![trigger b.take(r)] q < r <= b.len() && r
                    <= a.len() implies b.take(r) != a.take(r) by {
                    assert(a.take(r) != b.take(r));
                }
            }
            lemma_ahead(h, voters, u, c, votes, b, a, q);
        } else {
            let n = lemma_near_meet(
                h.quorum[u],
                votes,
                electors(voters, a),
                electors(voters, b),
            );
            assert(h.voted[(n, u)] == e);
            assert(h.voted[(n, u)] == c);
        }
    }
}

/// A candidate's votes: a majority of those who vote by its log.
spec fn stands(h: History, voters: Seq<u64>, c: u64, u: u64, votes: Set<u64>) -> bool {
    &&& h.clog.contains_key((c, u))
    &&& is_majority(votes, electors(voters, h.clog[(c, u)]))
    &&& forall|n: u64| #[trigger]
        votes.contains(n) ==> h.voted.contains_key((n, u)) && h.voted[(n, u)] == c
}

/// What was chosen before a term that was won, a candidate of it holds, if its voters differ by
/// one at most.
proof fn lemma_stands_holds(
    h: History,
    voters: Seq<u64>,
    u: u64,
    c: u64,
    votes: Set<u64>,
    ids: Seq<u64>,
    t: u64,
    i: int,
)
    requires
        h.ok(voters),
        h.elected.contains_key(u),
        stands(h, voters, c, u, votes),
        h.chosen_by(ids, t, i),
        h.chosen(voters, t, i),
        members::ascending(ids),
        near(ids, electors(voters, h.clog[(c, u)])),
        t < u,
    ensures
        h.holds(h.clog[(c, u)], t, i),
{
    lemma_none_lacks(h, voters, t, i, u);
    lemma_completeness(h, voters, t, i, u);
    lemma_vote_holds(h, voters, c, u, votes, ids, t, i);
}

/// Where one log has two changes that the other does not share, the first was chosen, so that the
/// candidate with the other log would hold it.
proof fn lemma_ahead(
    h: History,
    voters: Seq<u64>,
    u: u64,
    c: u64,
    votes: Set<u64>,
    a: Seq<EntryView>,
    b: Seq<EntryView>,
    q: int,
)
    requires
        h.ok(voters),
        h.elected.contains_key(u),
        stands(h, voters, c, u, votes),
        a == h.clog[(c, u)],
        h.sound(b, u - 1),
        parts(a, b, q),
        next_change(a, q) == 0,
        next_change(b, q) != 0,
    ensures
        next_change(b, next_change(b, q)) == 0,
{
    lemma_next_change(voters, a, q);
    lemma_next_change(voters, b, q);
    let b1 = next_change(b, q);
    lemma_next_change(voters, b, b1);
    let b2 = next_change(b, b1);
    if b2 != 0 {
        let _ = lemma_change(h, voters, b, u - 1, b1);
        let j = lemma_change(h, voters, b, u - 1, b2);
        let x = b.take(b2 - 1);
        lemma_change_bound(x, b1);
        assert(x[b1 - 1] == b[b1 - 1]);
        lemma_electors(voters, x);
        lemma_near_sym(electors(voters, a), electors(voters, x));
        lemma_stands_holds(h, voters, u, c, votes, electors(voters, x), b[b2 - 1].term, j);
        assert(a.take(j) == b.take(j));
    }
}

/// Where two logs went on with different changes, the candidate with the earlier one lacks what
/// was chosen before the later one was made.
#[verifier::spinoff_prover]
#[verifier::rlimit(40)]
proof fn lemma_diverged(
    h: History,
    voters: Seq<u64>,
    u: u64,
    c: u64,
    votes: Set<u64>,
    a: Seq<EntryView>,
    b: Seq<EntryView>,
    q: int,
)
    requires
        h.ok(voters),
        h.elected.contains_key(u),
        stands(h, voters, c, u, votes),
        a == h.clog[(c, u)],
        h.sound(b, u - 1),
        parts(a, b, q),
        next_change(a, q) != 0,
        next_change(b, q) != 0,
    ensures
        a[next_change(a, q) - 1].term >= b[next_change(b, q) - 1].term,
{
    assert(h.sound(a, u - 1));
    lemma_next_change(voters, a, q);
    lemma_next_change(voters, b, q);
    let (a1, b1) = (next_change(a, q), next_change(b, q));
    let (ta, tb) = (a[a1 - 1].term, b[b1 - 1].term);
    if ta < tb {
        let base = electors(voters, a.take(q));
        lemma_electors(voters, a.take(q));
        let _ = lemma_change(h, voters, a, u - 1, a1);
        let j = lemma_change(h, voters, b, u - 1, b1);
        lemma_next_change(voters, a, a1);
        let a2 = next_change(a, a1);
        assert(b.take(j)[j - 1] == b[j - 1]);
        if a2 == 0 {
            lemma_stands_holds(h, voters, u, c, votes, base, tb, j);
            assert(a.take(j)[j - 1] == a[j - 1]);
            if j <= a1 {
                lemma_terms_ordered(h, voters, a, u - 1, j - 1, a1 - 1);
            }
            assert(a.take(j) == b.take(j));
        } else {
            let k = lemma_change(h, voters, a, u - 1, a2);
            let x = a.take(a2 - 1);
            lemma_change_bound(x, a1);
            assert(x[a1 - 1] == a[a1 - 1]);
            let s = a[a2 - 1].term;
            if s < tb {
                lemma_completeness(h, voters, s, k, tb);
                let m = if k < b1 {
                    k
                } else {
                    b1
                };
                lemma_agree(a, b, h.tlog[tb], k, b1, m);
                assert(a.take(m) == b.take(m));
            } else if s == tb {
                let m = if a2 < b1 {
                    a2
                } else {
                    b1
                };
                lemma_agree(a, b, h.tlog[tb], a2, b1, m);
                assert(a.take(m) == b.take(m));
            } else {
                lemma_completeness(h, voters, tb, j, s);
                let w = h.tlog[s];
                assert(h.term_ok(voters, s));
                assert(w.take(j)[j - 1] == w[j - 1]);
                assert(w.take(a2)[a1 - 1] == w[a1 - 1]);
                assert(a.take(a2)[a1 - 1] == a[a1 - 1]);
                if j <= a1 {
                    lemma_terms_ordered(h, voters, w, s as int, j - 1, a1 - 1);
                }
                let m = if a2 < j {
                    a2
                } else {
                    j
                };
                lemma_agree(a, b, w, a2, j, m);
                assert(a.take(m) == b.take(m));
            }
        }
    }
}

/// Nearness goes both ways.
proof fn lemma_near_sym(a: Seq<u64>, b: Seq<u64>)
    requires
        near(a, b),
    ensures
        near(b, a),
{
}

/// A part of a sound log is sound.
pub proof fn lemma_take_sound(h: History, log: Seq<EntryView>, top: int, n: int)
    requires
        h.sound(log, top),
        0 <= n <= log.len(),
    ensures
        h.sound(log.take(n), top),
{
    reveal(History::sound);
    let a = log.take(n);
    assert forall|k: int| 0 <= k < a.len() implies {
        let t = (#[trigger] a[k]).term;
        &&& 1 <= t <= top
        &&& h.elected.contains_key(t)
        &&& k < h.tlog[t].len()
        &&& a.take(k + 1) == h.tlog[t].take(k + 1)
        &&& a[k].index == k + 1
    } by {
        assert(a[k] == log[k]);
        assert(a.take(k + 1) =~= log.take(k + 1));
    }
}

/// What is settled in one log is the same in the log of any winner at or past its term.
pub proof fn lemma_settled_in(h: History, voters: Seq<u64>, log: Seq<EntryView>, c: int, top: int, u: u64)
    requires
        h.ok(voters),
        h.settled(voters, log, c, top),
        h.elected.contains_key(u),
        top <= u,
        0 <= c,
    ensures
        c <= log.len() || c == 0,
        h.holds(h.tlog[u], u, c),
        log.take(c) == h.tlog[u].take(c),
{
    if c > 0 {
        let (t, j) = choose|t: u64, j: int| #[trigger]
            h.chosen(voters, t, j) && t <= top && c <= j && h.holds(log, t, c);
        lemma_completeness(h, voters, t, j, u);
        lemma_holds_less(h.tlog[u], h.tlog[t], j, c);
    } else {
        assert(log.take(0) =~= h.tlog[u].take(0));
    }
}

/// Settled entries agree.
pub proof fn lemma_settled_agree(
    h: History,
    voters: Seq<u64>,
    a: Seq<EntryView>,
    b: Seq<EntryView>,
    ca: int,
    cb: int,
    ta: int,
    tb: int,
    i: int,
)
    requires
        h.ok(voters),
        h.settled(voters, a, ca, ta),
        h.settled(voters, b, cb, tb),
        1 <= i <= ca,
        i <= cb,
    ensures
        i <= a.len(),
        i <= b.len(),
        a[i - 1] == b[i - 1],
{
    let (t, j) = choose|t: u64, j: int| #[trigger]
        h.chosen(voters, t, j) && t <= ta && ca <= j && h.holds(a, t, ca);
    let (s, k) = choose|s: u64, k: int| #[trigger]
        h.chosen(voters, s, k) && s <= tb && cb <= k && h.holds(b, s, cb);
    lemma_holds_less(a, h.tlog[t], ca, i);
    lemma_holds_less(b, h.tlog[s], cb, i);
    if t <= s {
        lemma_completeness(h, voters, t, j, s);
        lemma_holds_less(h.tlog[s], h.tlog[t], j, i);
    } else {
        lemma_completeness(h, voters, s, k, t);
        lemma_holds_less(h.tlog[t], h.tlog[s], k, i);
    }
    assert(a.take(i)[i - 1] == a[i - 1]);
    assert(b.take(i)[i - 1] == b[i - 1]);
}

/// Sound logs stay so.
pub proof fn lemma_sound_grows(h: History, g: History, id: u64, log: Seq<EntryView>, top: int)
    requires
        h.grows(g, id),
        h.sound(log, top),
    ensures
        g.sound(log, top),
{
    assert forall|k: int| 0 <= k < log.len() implies {
        let t = (#[trigger] log[k]).term;
        &&& 1 <= t <= top
        &&& g.elected.contains_key(t)
        &&& k < g.tlog[t].len()
        &&& log.take(k + 1) == g.tlog[t].take(k + 1)
        &&& log[k].index == k + 1
    } by {
        lemma_entry(h, log, top, k);
        let t = log[k].term;
        let n = h.tlog[t].len() as int;
        assert(h.tlog[t].take(n) =~= h.tlog[t]);
        lemma_holds_less(g.tlog[t], h.tlog[t], n, k + 1);
    }
    reveal(History::sound);
}

/// What was agreed on stays so.
pub proof fn lemma_holds_grows(h: History, g: History, id: u64, log: Seq<EntryView>, t: u64, i: int)
    requires
        h.grows(g, id),
        h.elected.contains_key(t),
        0 <= i <= h.tlog[t].len(),
    ensures
        h.holds(log, t, i) <==> g.holds(log, t, i),
        g.tlog[t].take(i) == h.tlog[t].take(i),
{
    let n = h.tlog[t].len() as int;
    assert(h.tlog[t].take(n) =~= h.tlog[t]);
    lemma_holds_less(g.tlog[t], h.tlog[t], n, i);
}

/// An own entry stays one, and no old position becomes one.
pub proof fn lemma_own_grows(h: History, g: History, id: u64, t: u64, i: int)
    requires
        h.grows(g, id),
        h.elected.contains_key(t),
        i <= h.tlog[t].len(),
    ensures
        h.own(t, i) <==> g.own(t, i),
{
    if 1 <= i {
        let n = h.tlog[t].len() as int;
        assert(g.tlog[t].take(n)[i - 1] == g.tlog[t][i - 1]);
    }
}

/// A winner that lacks an entry never gets it.
pub proof fn lemma_lacks_grows(h: History, g: History, id: u64, s: u64, t: u64, i: int)
    requires
        h.grows(g, id),
        h.own(t, i),
        h.lacks(s, t, i),
        s != t,
    ensures
        g.lacks(s, t, i),
{
    lemma_holds_grows(h, g, id, h.tlog[s], t, i);
    if g.holds(g.tlog[s], t, i) {
        let n = h.tlog[s].len() as int;
        if i <= n {
            assert(h.tlog[s].take(n) =~= h.tlog[s]);
            lemma_holds_less(g.tlog[s], h.tlog[s], n, i);
        } else {
            assert(g.tlog[s].take(i)[i - 1] == g.tlog[s][i - 1]);
            assert(h.tlog[t].take(i)[i - 1] == h.tlog[t][i - 1]);
            assert(g.tlog[s][i - 1].term == s);
        }
    }
}

/// What is kept stays so.
pub proof fn lemma_kept_grows(h: History, g: History, id: u64, log: Seq<EntryView>, t: u64, i: int, top: int)
    requires
        h.grows(g, id),
        h.own(t, i),
        h.kept(log, t, i, top),
    ensures
        g.kept(log, t, i, top),
{
    lemma_holds_grows(h, g, id, log, t, i);
    if !h.holds(log, t, i) {
        let s = choose|s: u64| t < s <= top && #[trigger] h.lacks(s, t, i);
        lemma_lacks_grows(h, g, id, s, t, i);
    }
}

/// What some voters hold stays so.
pub proof fn lemma_chosen_by_grows(h: History, g: History, id: u64, ids: Seq<u64>, t: u64, i: int)
    requires
        h.grows(g, id),
        members::ascending(ids),
        h.chosen_by(ids, t, i),
    ensures
        g.chosen_by(ids, t, i),
{
    lemma_own_grows(h, g, id, t, i);
    lemma_voters_set(ids);
    let a = h.holders(ids, t, i);
    let b = g.holders(ids, t, i);
    assert(a.subset_of(b)) by {
        assert forall|n: u64| a.contains(n) implies b.contains(n) by {
            assert(g.ack(n, t) >= h.ack(n, t));
        }
    }
    lemma_set_subset_finite(ids.to_set(), b);
    lemma_len_subset(a, b);
}

/// What is chosen stays so.
pub proof fn lemma_chosen_grows(h: History, g: History, id: u64, voters: Seq<u64>, t: u64, i: int)
    requires
        h.grows(g, id),
        h.chosen(voters, t, i),
    ensures
        g.chosen(voters, t, i),
{
    let n = choose|n: int| #[trigger] h.chosen_at(voters, t, i, n);
    let log = h.tlog[t].take(n);
    lemma_holds_grows(h, g, id, h.tlog[t], t, n);
    lemma_electors(voters, log);
    lemma_chosen_by_grows(h, g, id, electors(voters, log), t, i);
    assert(g.chosen_at(voters, t, i, n));
}

/// A membership change stays in order.
pub proof fn lemma_change_grows(h: History, g: History, id: u64, voters: Seq<u64>, t: u64, i: int)
    requires
        h.grows(g, id),
        h.own(t, i),
        h.change_ok(voters, t, i),
    ensures
        g.change_ok(voters, t, i),
{
    let before = h.tlog[t].take(i - 1);
    lemma_holds_grows(h, g, id, h.tlog[t], t, i - 1);
    lemma_holds_grows(h, g, id, h.tlog[t], t, i);
    assert(h.tlog[t].take(i)[i - 1] == h.tlog[t][i - 1]);
    assert(g.tlog[t].take(i)[i - 1] == g.tlog[t][i - 1]);
    let j = choose|j: int|
        last_change(before) <= j < i && #[trigger] h.chosen_by(electors(voters, before), t, j);
    lemma_electors(voters, before);
    lemma_chosen_by_grows(h, g, id, electors(voters, before), t, j);
    assert(last_change(before) <= j < i && g.chosen_by(electors(voters, before), t, j));
}

/// The membership changes of a winner stay in order, as long as it made no new one.
pub proof fn lemma_changes_grow(h: History, g: History, id: u64, voters: Seq<u64>, t: u64)
    requires
        h.grows(g, id),
        h.elected.contains_key(t),
        h.term_ok(voters, t),
        g.tlog[t] == h.tlog[t],
    ensures
        forall|i: int| #[trigger]
            g.own(t, i) && g.tlog[t][i - 1].kind == EntryType::ConfChange ==> g.change_ok(
                voters,
                t,
                i,
            ),
{
    assert forall|i: int| #[trigger] g.own(t, i) && g.tlog[t][i - 1].kind
        == EntryType::ConfChange implies g.change_ok(voters, t, i) by {
        assert(h.own(t, i));
        lemma_change_grows(h, g, id, voters, t, i);
    }
}

/// What is settled stays so.
pub proof fn lemma_settled_grows(
    h: History,
    g: History,
    id: u64,
    voters: Seq<u64>,
    log: Seq<EntryView>,
    c: int,
    top: int,
)
    requires
        h.grows(g, id),
        members::ascending(voters),
        h.settled(voters, log, c, top),
        0 <= c,
    ensures
        g.settled(voters, log, c, top),
{
    if c > 0 {
        let (t, j) = choose|t: u64, j: int| #[trigger]
            h.chosen(voters, t, j) && t <= top && c <= j && h.holds(log, t, c);
        lemma_chosen_grows(h, g, id, voters, t, j);
        lemma_holds_grows(h, g, id, log, t, c);
    }
}

/// A longer stretch of time settles no less.
pub proof fn lemma_settled_later(h: History, voters: Seq<u64>, log: Seq<EntryView>, c: int, top: int, later: int)
    requires
        h.settled(voters, log, c, top),
        top <= later,
    ensures
        h.settled(voters, log, c, later),
{
    if c > 0 {
        let (t, j) = choose|t: u64, j: int| #[trigger]
            h.chosen(voters, t, j) && t <= top && c <= j && h.holds(log, t, c);
        assert(h.chosen(voters, t, j) && t <= later);
    }
}

/// What holds of a message goes on to hold.
pub proof fn lemma_message_grows(h: History, g: History, id: u64, voters: Seq<u64>, m: MessageView)
    requires
        h.grows(g, id),
        members::ascending(voters),
        h.message_ok(voters, m),
    ensures
        g.message_ok(voters, m),
{
    match m.body {
        BodyView::RequestVote { .. } => {
            assert(h.clog.contains_key((m.from, m.term)));
        },
        BodyView::RequestVoteResp { granted } => {
            if granted {
                assert(h.voted.contains_key((m.from, m.term)));
            }
        },
        BodyView::AppendEntries { prev_log_index, prev_log_term, entries, leader_commit } => {
            let t = m.term;
            let end = (prev_log_index + entries.len()) as int;
            let a = h.tlog[t];
            let b = g.tlog[t];
            lemma_holds_grows(h, g, id, a, t, end);
            assert(b.subrange(prev_log_index as int, end) =~= b.take(end).subrange(
                prev_log_index as int,
                end,
            ));
            assert(a.subrange(prev_log_index as int, end) =~= a.take(end).subrange(
                prev_log_index as int,
                end,
            ));
            if prev_log_index > 0 {
                assert(b.take(end)[prev_log_index - 1] == b[prev_log_index - 1]);
                assert(a.take(end)[prev_log_index - 1] == a[prev_log_index - 1]);
            }
            lemma_settled_grows(h, g, id, voters, a, leader_commit as int, t as int);
            lemma_settled_prefix(g, voters, a, b, leader_commit as int, t as int, end);
        },
        BodyView::AppendEntriesResp { .. } => {
            assert(h.ack(m.from, m.term) <= g.ack(m.from, m.term));
        },
        BodyView::InstallSnapshot { last_included_index, .. } => {
            let t = m.term;
            let n = last_included_index as int;
            let a = h.tlog[t];
            let b = g.tlog[t];
            lemma_holds_grows(h, g, id, a, t, n);
            assert(b.take(n)[n - 1] == b[n - 1]);
            assert(a.take(n)[n - 1] == a[n - 1]);
            assert(b.take(n) == a.take(n));
            lemma_settled_grows(h, g, id, voters, a, n, t as int);
            lemma_settled_prefix(g, voters, a, b, n, t as int, n);
        },
        BodyView::InstallSnapshotResp { .. } => {
            assert(h.ack(m.from, m.term) <= g.ack(m.from, m.term));
        },
        BodyView::TimeoutNow => {},
    }
}

/// What is settled in one log is settled in another that agrees with it.
pub proof fn lemma_settled_prefix(
    h: History,
    voters: Seq<u64>,
    a: Seq<EntryView>,
    b: Seq<EntryView>,
    c: int,
    top: int,
    n: int,
)
    requires
        h.settled(voters, a, c, top),
        0 <= c <= n,
        n <= b.len(),
        n <= a.len(),
        a.take(n) == b.take(n),
    ensures
        h.settled(voters, b, c, top),
{
    if c > 0 {
        let (t, j) = choose|t: u64, j: int| #[trigger]
            h.chosen(voters, t, j) && t <= top && c <= j && h.holds(a, t, c);
        lemma_holds_less(a, b, n, c);
        assert(h.holds(b, t, c));
    }
}

/// What holds of another node goes on to hold.
pub proof fn lemma_other_grows(h: History, g: History, id: u64, voters: Seq<u64>, other: u64, v: NodeView)
    requires
        h.grows(g, id),
        h.ok(voters),
        g.ok(voters),
        other != id,
        h.node_ok(voters, other, v),
    ensures
        g.node_ok(voters, other, v),
{
    let full = h.full[other];
    assert(g.full[other] == full);
    lemma_sound_grows(h, g, id, full, v.term as int);
    lemma_settled_grows(h, g, id, voters, full, v.commit as int, v.term as int);
    lemma_settled_grows(h, g, id, voters, full, v.st.base() as int, v.term as int);
    assert(g.vote_recorded(v));
    if v.role == Role::Candidate {
        assert forall|n: u64| #[trigger] v.votes.contains(n) implies g.voted.contains_key(
            (n, v.term),
        ) && g.voted[(n, v.term)] == v.id by {
            assert(h.voted.contains_key((n, v.term)));
        }
        assert(h.clog.contains_key((v.id, v.term)));
        assert(g.candidate_ok(v));
    }
    if v.role == Role::Leader {
        assert(h.elected.contains_key(v.term));
        assert forall|k: u64| #[trigger] v.matched.contains_key(k) implies v.matched[k] <= g.ack(
            k,
            v.term,
        ) by {
            assert(h.ack(k, v.term) <= g.ack(k, v.term));
        }
        assert(g.leader_ok(v));
    }
    assert(g.acks_ok(v)) by {
        reveal(History::acks_ok);
        assert forall|t: u64, i: int| #[trigger] g.own(t, i) && i <= g.ack(v.id, t) implies t
            <= v.term && g.kept(g.full[v.id], t, i, v.term as int) by {
            assert(h.ack(v.id, t) == g.ack(v.id, t));
            assert(h.acked.contains_key((v.id, t)));
            lemma_own_grows(h, g, id, t, i);
            assert(h.own(t, i));
            lemma_kept_grows(h, g, id, full, t, i, v.term as int);
        }
    }
}

/// Nothing changed: nothing is lost.
pub proof fn lemma_grows_same(h: History, id: u64)
    ensures
        h.grows(h, id),
{
    assert forall|t: u64| #[trigger] h.elected.contains_key(t) implies h.tlog[t].take(
        h.tlog[t].len() as int,
    ) == h.tlog[t] by {
        assert(h.tlog[t].take(h.tlog[t].len() as int) =~= h.tlog[t]);
    }
}

/// One thing after another.
pub proof fn lemma_grows_both(a: History, b: History, c: History, id: u64)
    requires
        a.grows(b, id),
        b.grows(c, id),
    ensures
        a.grows(c, id),
{
    assert forall|t: u64| #[trigger] a.elected.contains_key(t) implies {
        &&& c.elected.contains_key(t)
        &&& c.elected[t] == a.elected[t]
        &&& c.quorum[t] == a.quorum[t]
        &&& a.tlog[t].len() <= c.tlog[t].len()
        &&& c.tlog[t].take(a.tlog[t].len() as int) == a.tlog[t]
        &&& forall|k: int|
            a.tlog[t].len() <= k < c.tlog[t].len() ==> (#[trigger] c.tlog[t][k]).term == t
        &&& a.elected[t] != id ==> c.tlog[t] == a.tlog[t]
    } by {
        assert(b.elected.contains_key(t));
        let n = a.tlog[t].len() as int;
        let m = b.tlog[t].len() as int;
        assert(c.tlog[t].take(n) =~= c.tlog[t].take(m).take(n));
        assert forall|k: int| n <= k < c.tlog[t].len() implies (#[trigger] c.tlog[t][k]).term
            == t by {
            if k < m {
                assert(c.tlog[t].take(m)[k] == c.tlog[t][k]);
                assert(b.tlog[t][k].term == t);
            }
        }
    }
    assert forall|n: u64, t: u64| #![trigger c.ack(n, t)] a.ack(n, t) <= c.ack(n, t) && (n != id
        ==> c.ack(n, t) == a.ack(n, t)) by {
        assert(b.ack(n, t) <= c.ack(n, t));
        assert(a.ack(n, t) <= b.ack(n, t));
    }
    assert forall|n: u64| n != id implies #[trigger] c.full[n] == a.full[n] by {
        assert(c.full[n] == b.full[n]);
        assert(b.full[n] == a.full[n]);
    }
    assert forall|n: u64, t: u64| #[trigger] a.voted.contains_key((n, t)) implies
        c.voted.contains_key((n, t)) && c.voted[(n, t)] == a.voted[(n, t)] by {
        assert(b.voted.contains_key((n, t)));
    }
    assert forall|n: u64, t: u64| #[trigger] c.voted.contains_key((n, t)) && n != id implies
        a.voted.contains_key((n, t)) by {
        assert(b.voted.contains_key((n, t)));
    }
    assert forall|n: u64, t: u64| #[trigger] a.clog.contains_key((n, t)) implies
        c.clog.contains_key((n, t)) && c.clog[(n, t)] == a.clog[(n, t)] by {
        assert(b.clog.contains_key((n, t)));
    }
    assert forall|n: u64, t: u64| #[trigger] c.clog.contains_key((n, t)) && n != id implies
        a.clog.contains_key((n, t)) by {
        assert(b.clog.contains_key((n, t)));
    }
    assert forall|t: u64| #[trigger] c.elected.contains_key(t) && !a.elected.contains_key(t) implies
        c.elected[t] == id by {
        if b.elected.contains_key(t) {
            assert(b.elected[t] == id);
        }
    }
}

} // verus!
