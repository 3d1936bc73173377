//! What a node does with each message, each tick and each proposal, said of its log entries, its
//! snapshot and its records of the other members.

use vstd::prelude::*;
use crate::raft::members;
use crate::raft::members::MembersView;
use crate::raft::message;
use crate::raft::message::{BodyView, ConfChange, EntryType, EntryView, MessageView};
use crate::raft::node;
use crate::raft::node::{NodeView, ProposeError, Role};
use crate::raft::safety;
use crate::raft::storage::SnapshotView;

verus! {

/// The index of the last entry that a log has, where the entries below it may be in a snapshot.
pub open spec fn end_index(v: NodeView) -> int {
    if v.st.log.len() > 0 {
        v.st.log.last().index as int
    } else if v.st.snap is Some {
        v.st.snap->0.last_included_index as int
    } else {
        0
    }
}

/// The term of the last entry that a log has, where that entry may be in a snapshot; 0 where
/// there is no entry at all.
pub open spec fn end_term(v: NodeView) -> int {
    if v.st.log.len() > 0 {
        v.st.log.last().term as int
    } else if v.st.snap is Some && v.st.snap->0.last_included_index > 0 {
        v.st.snap->0.last_included_term as int
    } else {
        0
    }
}

/// **The election restriction.** Every request for a vote is answered, in the newer of the two
/// terms. The vote is granted exactly to a candidate of a term that is not older, where the node
/// has not given that term's vote to another one, and where the candidate's last term is higher
/// than the node's own, or is the same with a last index that is not lower. A vote that is
/// granted is recorded and written through, and puts off the node's own election; one that is
/// refused leaves the record as it was.
pub proof fn law_vote(v: NodeView, m: MessageView)
    requires
        v.wf(),
        m.body is RequestVote,
    ensures
        ({
            let w = v.step(m);
            let index = m.body->last_log_index;
            let term = m.body->last_log_term;
            let free = m.term > v.term || (m.term == v.term && (v.vote is None || v.vote == Some(
                m.from,
            )));
            let fresh = term > end_term(v) || (term == end_term(v) && index >= end_index(v));
            let granted = free && fresh;
            &&& w.term == (if m.term > v.term {
                m.term
            } else {
                v.term
            })
            &&& w.outbox == v.outbox.push(
                MessageView {
                    from: v.id,
                    to: m.from,
                    term: w.term,
                    body: BodyView::RequestVoteResp { granted },
                },
            )
            &&& w.vote == (if granted {
                Some(m.from)
            } else if m.term > v.term {
                None
            } else {
                v.vote
            })
            &&& w.st.hard.current_term == w.term
            &&& w.st.hard.voted_for == w.vote
            &&& w.st.log == v.st.log
            &&& w.st.snap == v.st.snap
            &&& granted || m.term > v.term ==> w.election_elapsed == 0
            &&& !granted && m.term <= v.term ==> w.election_elapsed == v.election_elapsed
                && w.role == v.role
        }),
{
    if v.st.log.len() > 0 {
        assert(v.st.log[v.st.log.len() - 1].index == v.st.base() + v.st.log.len());
    }
}

/// The index up to which the log is in the snapshot.
pub open spec fn floor(v: NodeView) -> int {
    match v.st.snap {
        Some(s) => s.last_included_index as int,
        None => 0,
    }
}

/// The entry that the log has at an index.
pub open spec fn slot(v: NodeView, index: int) -> Option<EntryView> {
    if floor(v) < index <= floor(v) + v.st.log.len() {
        Some(v.st.log[index - floor(v) - 1])
    } else {
        None
    }
}

/// The term that is known at an index: that of the log's entry or of the snapshot, and 0 at the
/// very start.
pub open spec fn term_at(v: NodeView, index: int) -> Option<u64> {
    if index == 0 {
        Some(0)
    } else if v.st.snap is Some && index == v.st.snap->0.last_included_index {
        Some(v.st.snap->0.last_included_term)
    } else {
        match slot(v, index) {
            Some(e) => Some(e.term),
            None => None,
        }
    }
}

/// The ids of a list but one.
pub open spec fn others(s: Seq<u64>, id: u64) -> Seq<u64> {
    s.filter(|x: u64| x != id)
}

/// Leaving an id out is a filter.
proof fn lemma_others(s: Seq<u64>, id: u64)
    ensures
        members::without(s, id) == others(s, id),
    decreases s.len(),
{
    reveal(Seq::filter);
    if s.len() > 0 {
        lemma_others(s.drop_last(), id);
    }
}

/// The log ends where its last entry does.
proof fn lemma_end(v: NodeView)
    requires
        v.wf(),
    ensures
        end_index(v) == floor(v) + v.st.log.len(),
        end_index(v) == v.st.last_index(),
        floor(v) == v.st.base(),
        end_term(v) == v.last_log_term(),
        term_at(v, end_index(v)) == Some(end_term(v) as u64),
{
    if v.st.log.len() > 0 {
        assert(v.st.log[v.st.log.len() - 1].index == v.st.base() + v.st.log.len());
    }
}

/// The next index that a leader has to send to a member.
pub open spec fn due(v: NodeView, to: u64) -> int {
    if v.next.contains_key(to) {
        v.next[to] as int
    } else {
        end_index(v) + 1
    }
}

/// Whether a message is what a leader owes a member: all that the log has from the next index on,
/// with the position and the term right in front of it, or the snapshot where the next index is
/// in there.
pub open spec fn owed(v: NodeView, to: u64, m: MessageView) -> bool {
    &&& m.from == v.id
    &&& m.to == to
    &&& m.term == v.term
    &&& if due(v, to) <= floor(v) {
        m.body == (BodyView::InstallSnapshot {
            last_included_index: v.st.snap->0.last_included_index,
            last_included_term: v.st.snap->0.last_included_term,
            conf_state: v.st.snap->0.conf_state,
            learners: v.st.snap->0.learners,
            data: v.st.snap->0.data,
        })
    } else {
        m.body matches BodyView::AppendEntries {
            prev_log_index,
            prev_log_term,
            entries,
            leader_commit,
        } && {
            &&& prev_log_index == due(v, to) - 1
            &&& term_at(v, prev_log_index as int) matches Some(t) ==> prev_log_term == t
            &&& entries.len() == (if due(v, to) <= end_index(v) {
                end_index(v) - due(v, to) + 1
            } else {
                0
            })
            &&& forall|i: int|
                0 <= i < entries.len() ==> Some(#[trigger] entries[i]) == slot(v, due(v, to) + i)
            &&& leader_commit == v.commit
        }
    }
}

/// What is sent to one member is what it is owed.
proof fn lemma_owed(v: NodeView, to: u64)
    requires
        v.st.wf(),
        v.progress_ok(),
        end_index(v) == v.st.last_index(),
    ensures
        v.send_append(to).outbox.len() == v.outbox.len() + 1,
        v.send_append(to).outbox.drop_last() == v.outbox,
        owed(v, to, v.send_append(to).outbox.last()),
{
    let w = v.send_append(to);
    assert(w.outbox.drop_last() =~= v.outbox);
    let n = due(v, to);
    assert(n >= 1);
    if n > floor(v) {
        let es = v.st.entries(n as u64, v.st.last_index());
        assert forall|i: int| 0 <= i < es.len() implies Some(#[trigger] es[i]) == slot(v, n + i) by {
            assert(es[i] == v.st.log[n - floor(v) - 1 + i]);
        }
    }
}

/// Whether one message more for each of the ids was sent, each what its receiver is owed.
pub open spec fn sent(v: NodeView, ids: Seq<u64>, before: Seq<MessageView>, after: Seq<MessageView>) -> bool {
    &&& after.len() == before.len() + ids.len()
    &&& forall|i: int| 0 <= i < before.len() ==> #[trigger] after[i] == before[i]
    &&& forall|i: int|
        0 <= i < ids.len() ==> owed(v, ids[i], #[trigger] after[before.len() + i])
}

proof fn lemma_sent(v: NodeView, ids: Seq<u64>)
    requires
        v.st.wf(),
        v.progress_ok(),
        end_index(v) == v.st.last_index(),
    ensures
        sent(v, ids, v.outbox, v.send_appends(ids).outbox),
    decreases ids.len(),
{
    if ids.len() > 0 {
        let rest = ids.drop_last();
        lemma_sent(v, rest);
        node::lemma_send_appends(v, rest);
        let u = v.send_appends(rest);
        lemma_owed(u, ids.last());
        let a = u.outbox;
        let b = v.send_appends(ids).outbox;
        assert(b.drop_last() == a);
        assert forall|i: int| 0 <= i < v.outbox.len() implies #[trigger] b[i] == v.outbox[i] by {
            assert(b.drop_last()[i] == b[i]);
            assert(a[i] == v.outbox[i]);
        }
        assert forall|i: int| 0 <= i < ids.len() implies owed(
            v,
            ids[i],
            #[trigger] b[v.outbox.len() + i],
        ) by {
            if i < rest.len() {
                assert(b.drop_last()[v.outbox.len() + i] == b[v.outbox.len() + i]);
                assert(owed(v, rest[i], a[v.outbox.len() + i]));
            } else {
                assert(owed(u, ids.last(), b.last()));
            }
        }
    }
}

/// A leader's broadcast: every other member, voter or learner, is sent what it is owed, and
/// nothing else changes.
pub proof fn law_broadcast(v: NodeView)
    requires
        v.wf(),
    ensures
        ({
            let w = v.broadcast_append();
            &&& w == (NodeView { outbox: w.outbox, ..v })
            &&& sent(v, others(v.voters + v.learners, v.id), v.outbox, w.outbox)
        }),
{
    lemma_end(v);
    lemma_others(v.voters + v.learners, v.id);
    lemma_sent(v, v.targets());
    node::lemma_send_appends(v, v.targets());
}

/// Whether a log has a sent entry already: in the snapshot, or at its index with its term.
pub open spec fn has_already(v: NodeView, prev: u64, es: Seq<EntryView>, k: int) -> bool {
    prev + 1 + k <= floor(v) || (slot(v, prev + 1 + k) matches Some(e) && e.term == es[k].term)
}

/// Where the first entry that is not held stands.
proof fn lemma_first_missing(v: NodeView, prev: u64, es: Seq<EntryView>, k: int)
    requires
        v.wf(),
        prev + es.len() < u64::MAX,
        0 <= k <= es.len(),
    ensures
        ({
            let n = node::first_new(v.st, prev, es, k);
            &&& k <= n <= es.len()
            &&& forall|j: int| k <= j < n ==> #[trigger] has_already(v, prev, es, j)
            &&& n < es.len() ==> !has_already(v, prev, es, n)
        }),
    decreases es.len() - k,
{
    lemma_end(v);
    if k < es.len() && has_already(v, prev, es, k) {
        lemma_first_missing(v, prev, es, k + 1);
    }
}

/// Entries from a leader of an older term are refused, and change nothing.
pub proof fn law_append_stale(v: NodeView, m: MessageView)
    requires
        m.body is AppendEntries,
        m.term < v.term,
    ensures
        v.step(m) == (NodeView {
            outbox: v.outbox.push(
                MessageView {
                    from: v.id,
                    to: m.from,
                    term: v.term,
                    body: BodyView::AppendEntriesResp { success: false, match_index: 0 },
                },
            ),
            ..v
        }),
{
}

/// **Appending.** Entries from a leader of a term that is not older make the node its follower.
/// They are refused exactly where the log does not have the position in front of them with the
/// term that the leader has there; what the snapshot covers counts as held. Where they are taken,
/// the log has each of them afterwards: what it had already stays, with all that is behind it,
/// and from the first one that it did not have on it goes exactly as the leader says. A commit index
/// of the leader that is ahead is followed, as far as the entries that were sent go.
#[verifier::spinoff_prover]
#[verifier::rlimit(60)]
pub proof fn law_append(v: NodeView, m: MessageView)
    requires
        v.wf(),
        m.well_formed(),
        m.body is AppendEntries,
        m.term >= v.term,
    ensures
        ({
            let w = v.step(m);
            let prev = m.body->AppendEntries_prev_log_index;
            let es = m.body->AppendEntries_entries;
            let last = prev + es.len();
            let covered = last <= floor(v);
            let joins = prev < floor(v) || term_at(v, prev as int) == Some(
                m.body->AppendEntries_prev_log_term,
            );
            &&& w.role == Role::Follower
            &&& w.leader == Some(m.from)
            &&& w.term == m.term
            &&& w.election_elapsed == 0
            &&& w.st.snap == v.st.snap
            &&& w.outbox == v.outbox.push(
                MessageView {
                    from: v.id,
                    to: m.from,
                    term: m.term,
                    body: BodyView::AppendEntriesResp {
                        success: covered || joins,
                        match_index: if covered {
                            floor(v) as u64
                        } else if joins {
                            last as u64
                        } else {
                            0
                        },
                    },
                },
            )
            &&& covered || !joins ==> w.st.log == v.st.log && w.commit == v.commit
            &&& !covered && joins ==> {
                let c = m.body->AppendEntries_leader_commit;
                &&& w.commit == (if c <= v.commit {
                    v.commit as int
                } else if c <= last {
                    c as int
                } else {
                    last
                })
                &&& (forall|k: int| 0 <= k < es.len() ==> #[trigger] has_already(v, prev, es, k))
                    ==> w.st.log == v.st.log
                &&& forall|k: int|
                    0 <= k < es.len() && !#[trigger] has_already(v, prev, es, k) && (forall|j: int|
                        0 <= j < k ==> #[trigger] has_already(v, prev, es, j)) ==> {
                        &&& end_index(w) == last
                        &&& forall|i: int|
                            floor(v) < i <= prev + k ==> #[trigger] slot(w, i) == slot(v, i)
                        &&& forall|j: int|
                            k <= j < es.len() ==> #[trigger] slot(w, prev + 1 + j) == Some(es[j])
                    }
            }
        }),
{
    let a = v.adopt(m);
    let prev = m.body->AppendEntries_prev_log_index;
    let es = m.body->AppendEntries_entries;
    let last = prev + es.len();
    node::lemma_adopt(v, m);
    node::lemma_step_wf(v, m);
    lemma_end(v);
    lemma_end(a);
    let w = v.step(m);
    lemma_end(w);
    lemma_first_missing(v, prev, es, 0);
    let n = node::first_new(v.st, prev, es, 0);
    assert(a.st.log == v.st.log && a.st.snap == v.st.snap);
    lemma_first_same(v.st.log, a, v, prev, es, 0);
    let joins = prev < floor(v) || term_at(v, prev as int) == Some(
        m.body->AppendEntries_prev_log_term,
    );
    if last > floor(v) && joins {
        if forall|k: int| 0 <= k < es.len() ==> #[trigger] has_already(v, prev, es, k) {
            assert(n == es.len()) by {
                if n < es.len() {
                    assert(has_already(v, prev, es, n));
                }
            }
            assert(w.st.log == v.st.log);
        }
        assert forall|k: int|
            0 <= k < es.len() && !#[trigger] has_already(v, prev, es, k) && (forall|j: int|
                0 <= j < k ==> #[trigger] has_already(v, prev, es, j)) implies {
            &&& end_index(w) == last
            &&& forall|i: int| floor(v) < i <= prev + k ==> #[trigger] slot(w, i) == slot(v, i)
            &&& forall|j: int| k <= j < es.len() ==> #[trigger] slot(w, prev + 1 + j) == Some(es[j])
        } by {
            assert(n == k) by {
                if n < k {
                    assert(has_already(v, prev, es, n));
                } else if k < n {
                    assert(has_already(v, prev, es, k));
                }
            }
            node::lemma_first_new(v.st, prev, es, 0);
            node::lemma_spliced_wf(a.st, prev, es);
            assert(w.st.log == node::spliced(a.st, prev, es, k).log);
            assert(w.st.log.len() == last - floor(v));
            assert forall|i: int| floor(v) < i <= prev + k implies #[trigger] slot(w, i) == slot(
                v,
                i,
            ) by {}
            assert forall|j: int| k <= j < es.len() implies #[trigger] slot(w, prev + 1 + j)
                == Some(es[j]) by {
                assert(es.skip(k)[j - k] == es[j]);
            }
        }
    }
}

/// The first new entry depends on the log and the snapshot alone.
proof fn lemma_first_same(
    log: Seq<EntryView>,
    a: NodeView,
    b: NodeView,
    prev: u64,
    es: Seq<EntryView>,
    k: int,
)
    requires
        a.st.log == log,
        b.st.log == log,
        a.st.snap == b.st.snap,
        0 <= k <= es.len(),
    ensures
        node::first_new(a.st, prev, es, k) == node::first_new(b.st, prev, es, k),
    decreases es.len() - k,
{
    if k < es.len() {
        lemma_first_same(log, a, b, prev, es, k + 1);
    }
}

/// Whether a member is known to have the log up to an index.
pub open spec fn reached(matched: Map<u64, u64>, index: int) -> spec_fn(u64) -> bool {
    |id: u64| matched.contains_key(id) && matched[id] >= index
}

/// Whether more than half of the voters are known to have the log up to an index.
pub open spec fn on_majority(v: NodeView, index: int) -> bool {
    2 * v.voters.filter(reached(v.matched, index)).len() > v.voters.len()
}

proof fn lemma_acks(ids: Seq<u64>, matched: Map<u64, u64>, n: u64)
    requires
        n >= 1,
    ensures
        node::acks(ids, matched, n) == ids.filter(reached(matched, n as int)).len(),
    decreases ids.len(),
{
    reveal(Seq::filter);
    if ids.len() > 0 {
        lemma_acks(ids.drop_last(), matched, n);
    }
}

/// Whether an index is one that the commit rule allows: of the leader's own term, and on a
/// majority.
pub open spec fn commits(v: NodeView, index: int) -> bool {
    term_at(v, index) == Some(v.term) && on_majority(v, index)
}

/// Whether a commit index was advanced as far as the rule allows and no further.
pub open spec fn advanced(v: NodeView, from: u64, to: u64) -> bool {
    &&& from <= to
    &&& from < to ==> to <= end_index(v) && commits(v, to as int)
    &&& forall|n: int| to < n <= end_index(v) ==> !#[trigger] commits(v, n)
}

proof fn lemma_committable(v: NodeView, n: u64)
    requires
        v.st.wf(),
        end_index(v) == v.st.last_index(),
        n <= v.st.last_index(),
    ensures
        v.commit <= v.committable(n),
        v.commit < v.committable(n) ==> v.committable(n) <= n && commits(
            v,
            v.committable(n) as int,
        ),
        forall|k: int| v.committable(n) < k <= n ==> !#[trigger] commits(v, k),
    decreases n,
{
    if n > v.commit {
        lemma_acks(v.voters, v.matched, n);
        assert(term_at(v, n as int) == v.st.term(n));
        let here = v.st.term(n) == Some(v.term) && node::acks(v.voters, v.matched, n)
            >= v.majority();
        assert(here == commits(v, n as int));
        if !here {
            lemma_committable(v, (n - 1) as u64);
        }
    }
}

/// **The commit rule.** What a member reports to have raises what the leader knows of it, and
/// never lowers it. The commit index goes to the highest index that is of the leader's own term
/// and on more than half of the voters, and stays where there is none beyond it.
pub proof fn law_acknowledged(v: NodeView, m: MessageView)
    requires
        v.wf(),
        m.well_formed(),
        v.role == Role::Leader,
        m.term == v.term,
        (m.body matches BodyView::AppendEntriesResp { success, .. } && success)
            || m.body is InstallSnapshotResp,
    ensures
        ({
            let w = v.step(m);
            let told = match m.body {
                BodyView::AppendEntriesResp { match_index, .. } => match_index,
                BodyView::InstallSnapshotResp { match_index } => match_index,
                _ => 0,
            };
            &&& w.role == Role::Leader
            &&& w.st == v.st
            &&& w.outbox == v.outbox
            &&& w.matched.contains_key(m.from)
            &&& w.matched[m.from] == (if v.matched.contains_key(m.from) && v.matched[m.from]
                > told {
                v.matched[m.from]
            } else {
                told
            })
            &&& w.next.contains_key(m.from)
            &&& w.next[m.from] == w.matched[m.from] + 1
            &&& forall|id: u64|
                id != m.from ==> (#[trigger] w.matched.contains_key(id) == v.matched.contains_key(
                    id,
                )) && (v.matched.contains_key(id) ==> w.matched[id] == v.matched[id])
            &&& advanced(w, v.commit, w.commit)
        }),
{
    let told = match m.body {
        BodyView::AppendEntriesResp { match_index, .. } => match_index,
        BodyView::InstallSnapshotResp { match_index } => match_index,
        _ => 0,
    };
    lemma_end(v);
    let r = v.raise(m.from, told);
    let w = v.step(m);
    lemma_committable(r, r.st.last_index());
    assert(r.advance_commit() == w);
    lemma_same_rule(r, w);
}

/// The rule does not depend on the commit index, nor on what was sent.
proof fn lemma_same_rule(a: NodeView, b: NodeView)
    requires
        a.st == b.st,
        a.term == b.term,
        a.voters == b.voters,
        a.matched == b.matched,
    ensures
        forall|n: int|
            #![trigger commits(a, n)]
            #![trigger commits(b, n)]
            commits(a, n) == commits(b, n),
        end_index(a) == end_index(b),
{
}

/// A member whose log does not join is sent from one index earlier, down to the first.
pub proof fn law_backed_up(v: NodeView, m: MessageView)
    requires
        v.wf(),
        v.role == Role::Leader,
        m.term == v.term,
        m.body matches BodyView::AppendEntriesResp { success, .. } && !success,
    ensures
        ({
            let w = v.step(m);
            let next = if v.next.contains_key(m.from) {
                v.next[m.from]
            } else {
                1
            };
            &&& w.next == v.next.insert(
                m.from,
                if next > 1 {
                    (next - 1) as u64
                } else {
                    1
                },
            )
            &&& sent(w, seq![m.from], v.outbox, w.outbox)
            &&& w.st == v.st
            &&& w.matched == v.matched
            &&& w.commit == v.commit
            &&& w.role == Role::Leader
        }),
{
    lemma_end(v);
    let next = node::value_or(v.next, m.from, 1);
    let back = if next <= 2 {
        1
    } else {
        (next - 1) as u64
    };
    let u = NodeView { next: v.next.insert(m.from, back), ..v };
    let w = v.step(m);
    assert(w == u.send_append(m.from));
    lemma_owed(u, m.from);
    assert(w.outbox.drop_last() == v.outbox);
    assert forall|i: int| 0 <= i < v.outbox.len() implies #[trigger] w.outbox[i] == v.outbox[i] by {
        assert(w.outbox.drop_last()[i] == w.outbox[i]);
    }
    assert(owed(u, m.from, w.outbox.last()));
    assert(owed(w, m.from, w.outbox.last()));
}

/// Whether a node leads as one that was just elected: it knows of no member but itself, takes
/// every member to have all that it has, and sends each other one a first message.
pub open spec fn takes_over(v: NodeView, w: NodeView) -> bool {
    let all = v.voters + v.learners;
    &&& w.role == Role::Leader
    &&& w.leader == Some(v.id)
    &&& w.term == v.term
    &&& w.vote == v.vote
    &&& w.st == v.st
    &&& w.commit == v.commit
    &&& forall|id: u64| all.contains(id) ==> #[trigger] w.next.contains_key(id) && w.next[id]
        == end_index(v) + 1
    &&& w.matched.contains_key(v.id) && w.matched[v.id] == end_index(v)
    &&& forall|id: u64|
        id != v.id && #[trigger] w.matched.contains_key(id) ==> w.matched[id] == 0
    &&& sent(w, others(all, v.id), v.outbox, w.outbox)
}

proof fn lemma_takes_over(v: NodeView)
    requires
        v.wf(),
    ensures
        takes_over(v, v.become_leader()),
{
    let last = v.st.last_index();
    let all = v.voters + v.learners;
    let x = NodeView {
        role: Role::Leader,
        leader: Some(v.id),
        next: Map::new(|k: u64| all.contains(k), |k: u64| (last + 1) as u64),
        matched: Map::new(|k: u64| all.contains(k), |k: u64| 0u64).insert(v.id, last),
        heartbeat_elapsed: 0,
        ..v
    };
    let w = v.become_leader();
    lemma_end(v);
    lemma_others(all, v.id);
    node::lemma_send_appends(x, x.targets());
    lemma_sent(x, x.targets());
    assert(w == x.send_appends(x.targets()));
    assert(sent(w, others(all, v.id), v.outbox, w.outbox)) by {
        let ids = others(all, v.id);
        assert forall|i: int| 0 <= i < ids.len() implies owed(
            w,
            ids[i],
            #[trigger] w.outbox[v.outbox.len() + i],
        ) by {
            assert(owed(x, ids[i], w.outbox[v.outbox.len() + i]));
        }
    }
}

/// **Elections are won by a majority.** A vote that is granted in the candidate's own term is
/// counted once for each voter that sent it. The candidate leads from the moment on at which more
/// than half of the voters are counted, and not before; nobody else leads by it.
pub proof fn law_counted(v: NodeView, m: MessageView)
    requires
        v.wf(),
        m.body is RequestVoteResp,
        m.term == v.term,
    ensures
        ({
            let w = v.step(m);
            let x = NodeView { votes: v.votes.insert(m.from), ..v };
            if v.role == Role::Candidate && m.body->RequestVoteResp_granted {
                if 2 * x.votes.len() > v.voters.len() {
                    takes_over(x, w)
                } else {
                    w == x
                }
            } else {
                w == v
            }
        }),
{
    let x = NodeView { votes: v.votes.insert(m.from), ..v };
    node::lemma_conf_same(x, v, v.st.last_index());
    assert(x.members() =~= v.members());
    lemma_takes_over(x);
}

/// Whether a node has started an election: a new term with its own vote, written through, and a
/// request to each other voter that says where its log ends.
pub open spec fn campaigns(v: NodeView, w: NodeView) -> bool {
    let ids = others(v.voters, v.id);
    &&& w.term == v.term + 1
    &&& w.vote == Some(v.id)
    &&& w.st.hard.current_term == w.term
    &&& w.st.hard.voted_for == w.vote
    &&& w.st.log == v.st.log
    &&& w.st.snap == v.st.snap
    &&& w.commit == v.commit
    &&& if v.voters.len() <= 1 {
        w.role == Role::Leader && w.leader == Some(v.id)
    } else {
        &&& w.role == Role::Candidate
        &&& w.leader is None
        &&& w.votes == set![v.id]
        &&& w.election_elapsed == 0
        &&& w.outbox.len() == v.outbox.len() + ids.len()
        &&& forall|i: int| 0 <= i < v.outbox.len() ==> #[trigger] w.outbox[i] == v.outbox[i]
        &&& forall|i: int|
            0 <= i < ids.len() ==> #[trigger] w.outbox[v.outbox.len() + i] == (MessageView {
                from: v.id,
                to: ids[i],
                term: w.term,
                body: BodyView::RequestVote {
                    last_log_index: end_index(v) as u64,
                    last_log_term: end_term(v) as u64,
                },
            })
    }
}

proof fn lemma_asked(v: NodeView, ids: Seq<u64>)
    ensures
        ({
            let w = v.ask_votes(ids);
            &&& w.outbox.len() == v.outbox.len() + ids.len()
            &&& forall|i: int| 0 <= i < v.outbox.len() ==> #[trigger] w.outbox[i] == v.outbox[i]
            &&& forall|i: int|
                0 <= i < ids.len() ==> #[trigger] w.outbox[v.outbox.len() + i] == (MessageView {
                    from: v.id,
                    to: ids[i],
                    term: v.term,
                    body: BodyView::RequestVote {
                        last_log_index: v.st.last_index(),
                        last_log_term: v.last_log_term(),
                    },
                })
        }),
    decreases ids.len(),
{
    if ids.len() > 0 {
        lemma_asked(v, ids.drop_last());
        node::lemma_ask_votes(v, ids.drop_last());
    }
}

proof fn lemma_campaigns(v: NodeView)
    requires
        v.wf(),
        v.term < u64::MAX,
    ensures
        campaigns(v, v.start_election()),
{
    let a = (NodeView {
        role: Role::Candidate,
        term: (v.term + 1) as u64,
        vote: Some(v.id),
        ..v
    }).persist();
    let w = (NodeView { leader: None, votes: set![v.id], ..a }).reset_timer();
    lemma_end(v);
    lemma_others(w.voters, w.id);
    lemma_asked(w, w.peers());
    node::lemma_ask_votes(w, w.peers());
    assert(w.st.last_index() == v.st.last_index());
    assert(w.last_log_term() == v.last_log_term());
    let x = w.become_leader();
    node::lemma_conf_same(w, v, v.st.last_index());
    assert(w.wf()) by {
        node::lemma_election_wf(v);
        assert(w.st.wf());
        assert(w.members() =~= v.members());
    }
    lemma_takes_over(w);
}

/// A tick of a node that does not lead brings its election nearer. A voter whose timeout has run
/// out starts one; everyone else only waits, and a node that is no voter never does more.
pub proof fn law_waits(v: NodeView)
    requires
        v.wf(),
        v.role != Role::Leader,
        v.term < u64::MAX,
        v.election_elapsed < u32::MAX,
    ensures
        v.voters.contains(v.id) && v.election_elapsed + 1 >= v.timeout ==> campaigns(v, v.tick()),
        !(v.voters.contains(v.id) && v.election_elapsed + 1 >= v.timeout) ==> v.tick() == (
        NodeView { election_elapsed: (v.election_elapsed + 1) as u32, ..v }),
{
    let x = NodeView { election_elapsed: node::bump(v.election_elapsed), ..v };
    node::lemma_conf_same(x, v, v.st.last_index());
    assert(x.members() =~= v.members());
    lemma_campaigns(x);
}

/// A leader's tick: every so many ticks each other member is sent what it is owed, and never more
/// often.
pub proof fn law_beats(v: NodeView)
    requires
        v.wf(),
        v.role == Role::Leader,
        v.heartbeat_elapsed < u32::MAX,
    ensures
        ({
            let w = v.tick();
            if v.heartbeat_elapsed + 1 >= v.heartbeat_timeout {
                &&& w == (NodeView { heartbeat_elapsed: 0, outbox: w.outbox, ..v })
                &&& sent(v, others(v.voters + v.learners, v.id), v.outbox, w.outbox)
            } else {
                w == (NodeView { heartbeat_elapsed: (v.heartbeat_elapsed + 1) as u32, ..v })
            }
        }),
{
    let x = NodeView { heartbeat_elapsed: 0, ..v };
    node::lemma_conf_same(x, v, v.st.last_index());
    assert(x.members() =~= v.members());
    law_broadcast(x);
    let w = x.broadcast_append();
    let ids = others(v.voters + v.learners, v.id);
    assert forall|i: int| 0 <= i < ids.len() implies owed(
        v,
        ids[i],
        #[trigger] w.outbox[v.outbox.len() + i],
    ) by {
        assert(owed(x, ids[i], w.outbox[v.outbox.len() + i]));
    }
}

/// A request to campaign from the leader of the node's own term starts an election at once, where
/// the node votes and does not lead; everywhere else it does nothing.
pub proof fn law_timeout_now(v: NodeView, m: MessageView)
    requires
        v.wf(),
        m.body is TimeoutNow,
        m.term == v.term,
        v.term < u64::MAX,
    ensures
        v.role != Role::Leader && v.voters.contains(v.id) ==> campaigns(v, v.step(m)),
        v.role == Role::Leader || !v.voters.contains(v.id) ==> v.step(m) == v,
{
    lemma_campaigns(v);
}

/// **Proposing.** Only a leader takes a command. It puts it at the end of its log, in its own term
/// and at the index that it answers with, commits as far as the rule allows, and sends every other
/// member what it is owed; anyone else refuses and does nothing.
pub proof fn law_proposed(v: NodeView, data: Seq<u8>)
    requires
        v.wf(),
        v.st.last_index() < u64::MAX - 1,
    ensures
        ({
            let (w, r) = v.propose(data);
            if v.role != Role::Leader {
                w == v && r == Err::<u64, ProposeError>(ProposeError::NotLeader)
            } else {
                let index = (end_index(v) + 1) as u64;
                &&& r == Ok::<u64, ProposeError>(index)
                &&& w.st.log == v.st.log.push(
                    EntryView { term: v.term, index, kind: EntryType::Normal, data },
                )
                &&& w.st.snap == v.st.snap
                &&& w.role == Role::Leader
                &&& w.term == v.term
                &&& w.matched.contains_key(v.id) && w.matched[v.id] == index
                &&& advanced(w, v.commit, w.commit)
                &&& sent(w, others(v.voters + v.learners, v.id), v.outbox, w.outbox)
            }
        }),
{
    lemma_end(v);
    if v.role == Role::Leader {
        let index = (v.st.last_index() + 1) as u64;
        let e = EntryView { term: v.term, index, kind: EntryType::Normal, data };
        let a = NodeView { st: v.st.append(seq![e]), ..v };
        let b = a.own_progress(index);
        let c = b.advance_commit();
        let w = v.propose(data).0;
        assert(a.st.log =~= v.st.log.push(e));
        node::lemma_one_more(v.st, e);
        assert(end_index(b) == b.st.last_index());
        lemma_committable(b, b.st.last_index());
        assert(w == c.broadcast_append());
        node::lemma_send_appends(c, c.targets());
        lemma_others(c.voters + c.learners, c.id);
        lemma_sent(c, c.targets());
        lemma_same_rule(b, w);
        let ids = others(v.voters + v.learners, v.id);
        assert forall|i: int| 0 <= i < ids.len() implies owed(
            w,
            ids[i],
            #[trigger] w.outbox[v.outbox.len() + i],
        ) by {
            assert(owed(c, ids[i], w.outbox[v.outbox.len() + i]));
        }
    }
}

/// A membership change is refused by a node that does not lead, while another one is not
/// committed, and where it would remove the leader itself; it is taken everywhere else, at the
/// next index.
pub proof fn law_change_taken(v: NodeView, cc: ConfChange)
    requires
        v.wf(),
    ensures
        ({
            let (w, r) = v.propose_conf(cc);
            let open = exists|i: int|
                v.commit < i && (#[trigger] slot(v, i) matches Some(e) && e.kind
                    == EntryType::ConfChange);
            &&& r is Err ==> w == v
            &&& r == Err::<u64, ProposeError>(ProposeError::NotLeader) <==> v.role != Role::Leader
            &&& r == Err::<u64, ProposeError>(ProposeError::ConfChangeInProgress) <==> v.role
                == Role::Leader && open
            &&& r == Err::<u64, ProposeError>(ProposeError::CannotRemoveLeader) <==> v.role
                == Role::Leader && !open && cc == ConfChange::RemoveNode(v.id)
            &&& r matches Ok(i) ==> i == (end_index(v) + 1) as u64
        }),
{
    lemma_end(v);
    lemma_open(v);
}

proof fn lemma_open(v: NodeView)
    requires
        v.wf(),
    ensures
        v.pending_conf() <==> exists|i: int|
            v.commit < i && (#[trigger] slot(v, i) matches Some(e) && e.kind
                == EntryType::ConfChange),
{
    lemma_end(v);
    let low = node::larger((v.commit + 1) as u64, v.st.first_index());
    let es = v.st.entries(low, v.st.last_index());
    if v.pending_conf() {
        let k = choose|k: int| 0 <= k < es.len() && (#[trigger] es[k]).kind == EntryType::ConfChange;
        assert(es[k] == v.st.log[low - floor(v) - 1 + k]);
        assert(slot(v, low + k) == Some(es[k]));
    }
    if exists|i: int|
        v.commit < i && (#[trigger] slot(v, i) matches Some(e) && e.kind == EntryType::ConfChange) {
        let i = choose|i: int|
            v.commit < i && (#[trigger] slot(v, i) matches Some(e) && e.kind
                == EntryType::ConfChange);
        assert(low <= i <= v.st.last_index());
        assert(es[i - low] == v.st.log[i - floor(v) - 1]);
    }
}

/// What is handed out to be applied is the log from the first index that was not applied up to the
/// commit index, in order and without a gap, as far as the log still has it.
pub proof fn law_handed_out(v: NodeView)
    requires
        v.wf(),
        floor(v) <= v.applied,
        v.commit <= end_index(v),
    ensures
        ({
            let s = v.committed();
            &&& s.len() == (if v.commit > v.applied {
                v.commit - v.applied
            } else {
                0
            })
            &&& forall|i: int|
                0 <= i < s.len() ==> Some(#[trigger] s[i]) == slot(v, v.applied + 1 + i)
        }),
{
    lemma_end(v);
    let s = v.committed();
    if v.commit > v.applied {
        assert forall|i: int| 0 <= i < s.len() implies Some(#[trigger] s[i]) == slot(
            v,
            v.applied + 1 + i,
        ) by {
            assert(s[i] == v.st.log[v.applied - floor(v) + i]);
        }
    }
}

/// Compacting puts the log up to an applied index into a snapshot of the given data, with the
/// term and the members as of that index, and leaves every entry above it. An index that is in the
/// snapshot already, or was not applied, changes nothing.
pub proof fn law_compacts(v: NodeView, index: u64, data: Seq<u8>)
    requires
        v.wf(),
        floor(v) < index <= v.applied ==> index <= end_index(v),
    ensures
        ({
            let w = v.compacted(index, data);
            if floor(v) < index <= v.applied {
                &&& w.st.snap matches Some(s) && s.last_included_index == index
                    && Some(s.last_included_term) == term_at(v, index as int) && s.data == data
                    && s.conf_state == v.conf_at(index).voters && s.learners == v.conf_at(
                    index,
                ).learners
                &&& end_index(w) == end_index(v)
                &&& end_term(w) == end_term(v)
                &&& forall|i: int| i > index ==> #[trigger] slot(w, i) == slot(v, i)
                &&& w == (NodeView { st: w.st, ..v })
                &&& w.st.hard == v.st.hard
            } else {
                w == v
            }
        }),
{
    lemma_end(v);
    if floor(v) < index <= v.applied {
        node::lemma_compacted_wf(v, index, data);
        let w = v.compacted(index, data);
        lemma_end(w);
        assert forall|i: int| i > index implies #[trigger] slot(w, i) == slot(v, i) by {}
        if w.st.log.len() == 0 {
            assert(index == end_index(v));
        }
    }
}

/// **Catching up by snapshot.** A snapshot from a leader of a term that is not older makes the
/// node its follower. One that goes beyond the commit index replaces the log, sets commit and
/// applied index to its own, and is there to be loaded; any other changes none of these. Either
/// way the answer says how far the node has the log.
pub proof fn law_installed(v: NodeView, m: MessageView)
    requires
        v.wf(),
        m.well_formed(),
        m.body is InstallSnapshot,
        m.term >= v.term,
    ensures
        ({
            let w = v.step(m);
            let index = m.body->InstallSnapshot_last_included_index;
            &&& w.role == Role::Follower
            &&& w.leader == Some(m.from)
            &&& w.term == m.term
            &&& w.election_elapsed == 0
            &&& w.outbox == v.outbox.push(
                MessageView {
                    from: v.id,
                    to: m.from,
                    term: m.term,
                    body: BodyView::InstallSnapshotResp {
                        match_index: if index > v.commit {
                            index
                        } else {
                            v.commit
                        },
                    },
                },
            )
            &&& if index > v.commit {
                &&& w.st.log.len() == 0
                &&& w.st.snap == Some(
                    SnapshotView {
                        last_included_index: index,
                        last_included_term: m.body->InstallSnapshot_last_included_term,
                        conf_state: m.body->InstallSnapshot_conf_state,
                        learners: m.body->InstallSnapshot_learners,
                        data: m.body->InstallSnapshot_data,
                    },
                )
                &&& w.commit == index
                &&& w.applied == index
                &&& w.pending == Some((index, m.body->InstallSnapshot_data))
            } else {
                &&& w.st.log == v.st.log
                &&& w.st.snap == v.st.snap
                &&& w.commit == v.commit
                &&& w.applied == v.applied
                &&& w.pending == v.pending
            }
        }),
{
    node::lemma_adopt(v, m);
}

/// **Changing the members.** A change that is taken is an entry at the end of the log, in the
/// leader's term. It is in force at once: adding a voter adds just that one and takes it off the
/// learners, removing a member takes it off both lists, and adding a learner leaves the voters and
/// adds just that one unless it votes already. The entry says so to whoever has it.
pub proof fn law_changed(v: NodeView, cc: ConfChange)
    requires
        v.wf(),
        v.st.last_index() < u64::MAX - 1,
        v.propose_conf(cc).1 is Ok,
        v.voters.len() < u32::MAX,
        v.learners.len() < u32::MAX,
    ensures
        ({
            let w = v.propose_conf(cc).0;
            let e = w.st.log.last();
            &&& members::ascending(w.voters)
            &&& members::ascending(w.learners)
            &&& w.st.log.len() > 0
            &&& w.st.log.drop_last() == v.st.log
            &&& w.st.snap == v.st.snap
            &&& e.term == v.term
            &&& e.index == end_index(v) + 1
            &&& e.kind == EntryType::ConfChange
            &&& message::conf_of(e.data) == Some((cc, w.voters, w.learners))
            &&& forall|y: u64|
                #![trigger w.voters.contains(y)]
                #![trigger w.learners.contains(y)]
                match cc {
                    ConfChange::AddNode(id) => {
                        &&& w.voters.contains(y) == (v.voters.contains(y) || y == id)
                        &&& w.learners.contains(y) == (v.learners.contains(y) && y != id)
                    },
                    ConfChange::RemoveNode(id) => {
                        &&& w.voters.contains(y) == (v.voters.contains(y) && y != id)
                        &&& w.learners.contains(y) == (v.learners.contains(y) && y != id)
                    },
                    ConfChange::AddLearner(id) => {
                        &&& w.voters.contains(y) == v.voters.contains(y)
                        &&& w.learners.contains(y) == (v.learners.contains(y) || (y == id
                            && !v.voters.contains(id)))
                    },
                }
            &&& cc !is RemoveNode && !v.voters.contains(cc.node()) && !v.learners.contains(
                cc.node(),
            ) ==> {
                &&& w.next.contains_key(cc.node()) && w.next[cc.node()] == 1
                &&& w.matched.contains_key(cc.node()) && w.matched[cc.node()] == 0
            }
            &&& v.learners.contains(cc.node()) && v.matched.contains_key(cc.node()) && cc.node()
                != v.id ==> w.matched.contains_key(cc.node()) && w.matched[cc.node()]
                == v.matched[cc.node()]
            &&& advanced(w, v.commit, w.commit)
            &&& sent(w, others(w.voters + w.learners, v.id), v.outbox, w.outbox)
        }),
{
    let m = v.members().change(cc);
    let s = m.sorted();
    lemma_end(v);
    lemma_sizes(v, cc);
    safety::law_change_on_append(v, cc);
    members::lemma_sorted_ids(m.voters);
    members::lemma_sorted_ids(m.learners);
    let id = cc.node();
    members::lemma_without(v.voters, id);
    members::lemma_without(v.learners, id);
    lemma_pushed(v.voters, id);
    lemma_pushed(v.learners, id);
    message::law_conf_roundtrip(cc, s.voters, s.learners);
    let index = (v.st.last_index() + 1) as u64;
    let e = EntryView {
        term: v.term,
        index,
        kind: EntryType::ConfChange,
        data: message::conf_bytes(cc, s.voters, s.learners),
    };
    let w = v.propose_conf(cc).0;
    let a = NodeView { st: v.st.append(seq![e]), ..v };
    let b = a.own_progress(index).recompute_conf();
    let x = if v.starts_fresh(cc) {
        NodeView {
            next: b.next.insert(cc.node(), 1),
            matched: b.matched.insert(cc.node(), 0),
            ..b
        }
    } else {
        b
    };
    let c = x.advance_commit();
    node::lemma_send_appends(c, c.targets());
    assert(w == c.broadcast_append());
    assert(a.st.log =~= v.st.log.push(e));
    assert(w.st.log == a.st.log);
    assert(w.st.log.drop_last() =~= v.st.log);
    lemma_changed_sent(v, cc, x);
    assert(w.voters == s.voters && w.learners == s.learners) by {
        assert(w.members() == s);
    }
}

/// What is sent and committed with a change.
proof fn lemma_changed_sent(v: NodeView, cc: ConfChange, x: NodeView)
    requires
        v.wf(),
        x.st.wf(),
        x.progress_ok(),
        x.st.log.len() > 0,
        x.st.log.last().index == x.st.last_index(),
        x.commit == v.commit,
        x.outbox == v.outbox,
        x.id == v.id,
    ensures
        ({
            let w = x.advance_commit().broadcast_append();
            &&& advanced(w, v.commit, w.commit)
            &&& sent(w, others(w.voters + w.learners, v.id), v.outbox, w.outbox)
        }),
{
    let c = x.advance_commit();
    let w = c.broadcast_append();
    assert(end_index(x) == x.st.last_index());
    lemma_committable(x, x.st.last_index());
    node::lemma_send_appends(c, c.targets());
    lemma_others(c.voters + c.learners, c.id);
    lemma_sent(c, c.targets());
    lemma_same_rule(x, w);
    let ids = others(w.voters + w.learners, v.id);
    assert forall|i: int| 0 <= i < ids.len() implies owed(
        w,
        ids[i],
        #[trigger] w.outbox[v.outbox.len() + i],
    ) by {
        assert(owed(c, ids[i], w.outbox[v.outbox.len() + i]));
    }
}

proof fn lemma_pushed(s: Seq<u64>, id: u64)
    ensures
        forall|y: u64| #[trigger] s.push(id).contains(y) <==> s.contains(y) || y == id,
{
    assert forall|y: u64| #[trigger] s.push(id).contains(y) <==> s.contains(y) || y == id by {
        if s.contains(y) {
            let k = choose|k: int| 0 <= k < s.len() && s[k] == y;
            assert(s.push(id)[k] == y);
        }
        assert(s.push(id)[s.len() as int] == id);
    }
}

/// A changed membership is at most one member larger.
proof fn lemma_sizes(v: NodeView, cc: ConfChange)
    ensures
        v.members().change(cc).sorted().voters.len() <= v.voters.len() + 1,
        v.members().change(cc).sorted().learners.len() <= v.learners.len() + 1,
{
    let m = v.members().change(cc);
    members::lemma_without(v.voters, cc.node());
    members::lemma_without(v.learners, cc.node());
    lemma_sorted_len(m.voters);
    lemma_sorted_len(m.learners);
}

proof fn lemma_sorted_len(s: Seq<u64>)
    ensures
        members::sorted_ids(s).len() <= s.len(),
    decreases s.len(),
{
    if s.len() > 0 {
        lemma_sorted_len(s.drop_last());
        lemma_inserted_len(members::sorted_ids(s.drop_last()), s.last());
    }
}

proof fn lemma_inserted_len(s: Seq<u64>, x: u64)
    ensures
        members::insert_id(s, x).len() <= s.len() + 1,
    decreases s.len(),
{
    if s.len() > 0 {
        lemma_inserted_len(s.drop_last(), x);
    }
}

/// The members are those that the newest readable change in the log says, whatever is older; those
/// of the snapshot where the log has no change, and the initial voters where there is no snapshot
/// either.
pub proof fn law_members(v: NodeView, k: int)
    requires
        v.wf(),
        -1 <= k < v.st.log.len(),
        k >= 0 ==> v.st.log[k].kind == EntryType::ConfChange && message::conf_of(
            v.st.log[k].data,
        ) is Some,
        forall|i: int|
            k < i < v.st.log.len() && (#[trigger] v.st.log[i]).kind == EntryType::ConfChange
                ==> message::conf_of(v.st.log[i].data) is None,
    ensures
        ({
            let (vs, ls) = if k >= 0 {
                let c = message::conf_of(v.st.log[k].data)->0;
                (c.1, c.2)
            } else {
                match v.st.snap {
                    Some(s) => (s.conf_state, s.learners),
                    None => (v.boot, Seq::<u64>::empty()),
                }
            };
            &&& members::ascending(v.voters)
            &&& members::ascending(v.learners)
            &&& forall|y: u64| #[trigger] v.voters.contains(y) <==> vs.contains(y)
            &&& forall|y: u64| #[trigger] v.learners.contains(y) <==> ls.contains(y)
        }),
{
    lemma_end(v);
    let es = v.st.entries(v.st.first_index(), v.st.last_index());
    assert(es =~= v.st.log);
    lemma_last_conf(v.st.log, v.base_members(), k);
    let m = node::last_conf(v.st.log, v.base_members());
    members::lemma_sorted_ids(m.voters);
    members::lemma_sorted_ids(m.learners);
    assert(v.members() == m.sorted());
}

proof fn lemma_last_conf(es: Seq<EntryView>, base: MembersView, k: int)
    requires
        -1 <= k < es.len(),
        k >= 0 ==> es[k].kind == EntryType::ConfChange && message::conf_of(es[k].data) is Some,
        forall|i: int|
            k < i < es.len() && (#[trigger] es[i]).kind == EntryType::ConfChange
                ==> message::conf_of(es[i].data) is None,
    ensures
        k < 0 ==> node::last_conf(es, base) == base,
        k >= 0 ==> node::last_conf(es, base).voters == (message::conf_of(es[k].data)->0).1
            && node::last_conf(es, base).learners == (message::conf_of(es[k].data)->0).2,
    decreases es.len(),
{
    if es.len() > 0 && k < es.len() - 1 {
        let d = es.drop_last();
        assert forall|i: int|
            k < i < d.len() && (#[trigger] d[i]).kind == EntryType::ConfChange implies message::conf_of(
            d[i].data,
        ) is None by {
            assert(es[i] == d[i]);
        }
        lemma_last_conf(d, base, k);
        assert(es.last() == es[es.len() - 1]);
    }
}

/// A snapshot from a leader of an older term is refused, and changes nothing.
pub proof fn law_install_stale(v: NodeView, m: MessageView)
    requires
        m.body is InstallSnapshot,
        m.term < v.term,
    ensures
        v.step(m) == (NodeView {
            outbox: v.outbox.push(
                MessageView {
                    from: v.id,
                    to: m.from,
                    term: v.term,
                    body: BodyView::InstallSnapshotResp { match_index: 0 },
                },
            ),
            ..v
        }),
{
}

/// A response counts only for the one who asked, in the very term in which it was asked: votes for a
/// candidate, and reports of progress for a leader. A response to anyone else, or of an older term,
/// changes nothing.
pub proof fn law_ignored(v: NodeView, m: MessageView)
    requires
        m.term <= v.term,
    ensures
        m.body is RequestVoteResp && (m.term < v.term || v.role != Role::Candidate) ==> v.step(m)
            == v,
        (m.body is AppendEntriesResp || m.body is InstallSnapshotResp) && (m.term < v.term || v.role
            != Role::Leader) ==> v.step(m) == v,
        m.body is TimeoutNow && m.term < v.term ==> v.step(m) == v,
{
}

/// A message of a newer term is handled by a follower of that term that has not voted in it: what
/// comes of it is the same as if the node had been one.
pub proof fn law_newer_term(v: NodeView, m: MessageView)
    requires
        m.term > v.term,
    ensures
        ({
            let a = v.adopt(m);
            &&& v.step(m) == a.step(m)
            &&& a.role == Role::Follower
            &&& a.term == m.term
            &&& a.vote is None
            &&& a.st.hard.current_term == m.term
            &&& a.st.hard.voted_for is None
            &&& a.st.log == v.st.log
            &&& a.st.snap == v.st.snap
            &&& a.commit == v.commit
            &&& a.applied == v.applied
            &&& a.outbox == v.outbox
            &&& a.leader == (if m.body is AppendEntries || m.body is InstallSnapshot {
                Some(m.from)
            } else {
                None
            })
        }),
{
}

/// An election timeout is drawn anew each time, between the configured one and twice that.
pub proof fn law_timeout(v: NodeView)
    requires
        v.timers_ok(),
    ensures
        v.reset_timer().election_elapsed == 0,
        v.election_timeout <= v.reset_timer().timeout < 2 * v.election_timeout,
{
    let r = node::xorshift(v.rng);
    let t = v.election_timeout as u64;
    assert(r % t < t) by (nonlinear_arith)
        requires
            t > 0,
    ;
}

} // verus!
