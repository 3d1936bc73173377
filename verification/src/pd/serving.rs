//! What callers of the placement driver are owed: timestamps, assignments and replies, said of
//! what was asked, what was committed and who waits.

use vstd::prelude::*;
use crate::pd::cluster::{PlacedView, ReplicaSetView};
use crate::pd::command::CmdView;
use crate::pd::fsm::FsmView;
use crate::pd::group;
use crate::pd::group::{ActionView, CommandView, GroupView, Parked};
use crate::pd::replica;
use crate::pd::replica::ReplicaView;
use crate::pd::service;
use crate::pd::service::StatusView;
use crate::pd::tso::TsoView;
use crate::raft::message::{BodyView, EntryType, EntryView, MessageView};
use crate::raft::node::{NodeView, Role};
use crate::raft::storage::StorageView;

verus! {

/// A single oracle hands out from the current millisecond on, or right behind the last allocation
/// where that is later, and leaves no gap beyond that. It does so as long as the range has room
/// for the timestamps and for the window that is reserved with them.
pub proof fn law_granted(t: TsoView, ms: u64, count: u64)
    requires
        ms < 0x4000_0000_0000,
        t.next + count + 0x2_0000 <= u64::MAX,
        ms * 0x4_0000 + count + 0x2_0000 <= u64::MAX,
    ensures
        t.grant(ms, count) matches Ok(g) && {
            let n: int = if count > 1 {
                count as int
            } else {
                1
            };
            &&& g.first == (if t.next > ms * 0x4_0000 {
                t.next as int
            } else {
                ms * 0x4_0000
            })
            &&& g.next == g.first + n
            &&& g.fresh <==> g.next > t.upper
            &&& g.upper == (if g.fresh {
                g.next + 0x1_0000
            } else {
                t.upper as int
            })
        },
{
    assert(ms * 0x4_0000 < 0x1_0000_0000_0000_0000) by (nonlinear_arith)
        requires
            ms < 0x4000_0000_0000,
    ;
}

/// A leader that has drained its win hands out timestamps exactly where the committed window still
/// has as many, and then from where the last ones ended; a node that does not lead never does.
pub proof fn law_served(r: ReplicaView, count: u64)
    ensures
        ({
            let n: int = if count > 1 {
                count as int
            } else {
                1
            };
            let room = r.served + n <= r.fsm.tso_upper;
            &&& r.node.role != Role::Leader ==> r.hand_out(count) is None
            &&& r.node.role == Role::Leader && r.led == Some(r.node.term) && r.reset is None ==> if room {
                &&& r.hand_out(count) == Some(r.served)
                &&& r.handed(count).served == r.served + n
            } else {
                &&& r.hand_out(count) is None
                &&& r.handed(count) == r
            }
        }),
{
}

/// A reservation covers what it is made for and a window more, above everything reserved so far,
/// and not without bound.
pub proof fn law_reserves(r: ReplicaView, count: u64)
    requires
        r.can_reserve(count),
    ensures
        ({
            let n: int = if count > 1 {
                count as int
            } else {
                1
            };
            let u = r.reserved(count);
            &&& u >= r.served + n + 0x1_0000
            &&& u >= r.fsm.tso_upper + 0x1_0000
            &&& u == r.served + n + 0x1_0000 || u == r.fsm.tso_upper + 0x1_0000
            &&& r.fsm.apply(Some(CmdView::ReserveTs { upper: u })).tso_upper == u
        }),
{
}

/// Whether an entry is one that the state machine takes.
pub open spec fn taken(e: EntryView) -> bool {
    e.kind == EntryType::Normal && e.data.len() > 0
}

/// Committed entries are applied one after another, in order: applying some and then the rest is
/// the same as applying all, and an entry that is empty or changes the members leaves the state.
pub proof fn law_applied(f: FsmView, a: Seq<EntryView>, b: Seq<EntryView>)
    ensures
        replica::applied(f, a + b) == replica::applied(replica::applied(f, a), b),
        a.len() == 1 && !taken(a[0]) ==> replica::applied(f, a) == f,
        a.len() == 1 && taken(a[0]) ==> replica::applied(f, a) == f.apply(
            crate::pd::command::cmd_of(a[0].data),
        ),
        a.len() == 0 ==> replica::applied(f, a) == f,
    decreases b.len(),
{
    if a.len() == 1 {
        assert(a.drop_last() =~= Seq::empty());
        assert(replica::applied(f, a.drop_last()) == f);
        assert(a.last() == a[0]);
    }
    if b.len() == 0 {
        assert(a + b =~= a);
    } else {
        law_applied(f, a, b.drop_last());
        assert((a + b).drop_last() =~= a + b.drop_last());
        assert((a + b).last() == b.last());
    }
}

/// Draining a replica applies exactly what was committed and not applied, and tells which entries
/// those were.
pub proof fn law_drained(r: ReplicaView)
    requires
        r.node.role != Role::Leader || r.led == Some(r.node.term),
        r.node.pending is None,
    ensures
        r.ready().fsm == replica::applied(r.fsm, r.node.committed()),
        r.newly().len() == r.node.committed().len(),
        forall|i: int|
            0 <= i < r.newly().len() ==> #[trigger] r.newly()[i] == r.node.committed()[i].index,
        r.ready().node.applied == (if r.node.commit > r.node.applied {
            r.node.commit
        } else {
            r.node.applied
        }),
        r.ready().node.outbox.len() == 0,
{
    let c = r.crowned();
    assert(c.node == r.node && c.fsm == r.fsm);
    assert(c.node.committed() == r.node.committed());
}

/// A new leader appends an empty entry of its term, so that what earlier leaders left comes to be
/// committed with it, and does so once for each term that it wins.
pub proof fn law_crowned(r: ReplicaView)
    requires
        r.node.role == Role::Leader,
    ensures
        r.led != Some(r.node.term) ==> {
            let c = r.crowned();
            &&& c.node.st.log.len() == r.node.st.log.len() + 1
            &&& c.node.st.log.last().term == r.node.term
            &&& c.node.st.log.last().data.len() == 0
            &&& c.led == Some(r.node.term)
            &&& c.reset == Some(c.node.st.log.last().index)
        },
        r.led == Some(r.node.term) ==> r.crowned() == r,
{
    if r.led != Some(r.node.term) {
        let index = (r.node.st.last_index() + 1) as u64;
        let e = EntryView { term: r.node.term, index, kind: EntryType::Normal, data: Seq::empty() };
        let a = NodeView { st: r.node.st.append(seq![e]), ..r.node };
        let b = a.own_progress(index).advance_commit();
        crate::raft::node::lemma_send_appends(b, b.targets());
        assert(a.st.log =~= r.node.st.log.push(e));
    }
}

/// Whether the proposals are in order of their indices, each index once.
pub open spec fn in_line(s: Seq<Parked>) -> bool {
    forall|i: int, j: int| #![trigger s[i], s[j]] 0 <= i < j < s.len() ==> s[i].index < s[j].index
}

proof fn lemma_spot(s: Seq<Parked>, index: u64, i: int)
    requires
        0 <= i <= s.len(),
        forall|j: int| 0 <= j < i ==> (#[trigger] s[j]).index < index,
    ensures
        i <= group::spot(s, index, i) <= s.len(),
        forall|j: int| 0 <= j < group::spot(s, index, i) ==> (#[trigger] s[j]).index < index,
        group::spot(s, index, i) < s.len() ==> s[group::spot(s, index, i)].index >= index,
    decreases s.len() - i,
{
    if i < s.len() && s[i].index < index {
        lemma_spot(s, index, i + 1);
    }
}

/// A proposal that waits for an index is found there, and nowhere else.
pub proof fn law_waiting(s: Seq<Parked>, index: u64)
    requires
        in_line(s),
    ensures
        forall|p: Parked|
            #![trigger s.contains(p)]
            s.contains(p) && p.index == index <==> group::waiting(s, index) == Some(p),
{
    lemma_spot(s, index, 0);
    let k = group::spot(s, index, 0);
    assert forall|p: Parked| #![trigger s.contains(p)] s.contains(p) && p.index == index implies group::waiting(
        s,
        index,
    ) == Some(p) by {
        let i = choose|i: int| 0 <= i < s.len() && s[i] == p;
        if i < k {
            assert(s[i].index < index);
        } else if k < i {
            assert(s[k].index < s[i].index);
        }
    }
}

proof fn lemma_parked(s: Seq<Parked>, p: Parked)
    requires
        in_line(s),
    ensures
        in_line(group::parked(s, p)),
        forall|q: Parked| #[trigger]
            group::parked(s, p).contains(q) <==> q == p || (s.contains(q) && q.index != p.index),
{
    lemma_spot(s, p.index, 0);
    let i = group::spot(s, p.index, 0);
    let t = group::parked(s, p);
    let fresh = group::waiting(s, p.index) is None;
    assert(t[i] == p);
    assert forall|a: int, b: int| #![trigger t[a], t[b]] 0 <= a < b < t.len() implies t[a].index
        < t[b].index by {
        if !fresh {
            assert(s[a].index < s[b].index);
        } else {
            let x = if a <= i {
                a
            } else {
                a - 1
            };
            let y = if b <= i {
                b
            } else {
                b - 1
            };
            if a != i && b != i {
                assert(s[x].index < s[y].index);
            } else if a == i {
                assert(t[b] == s[b - 1]);
                if i < b - 1 {
                    assert(s[i].index < s[b - 1].index);
                }
            }
        }
    }
    assert forall|q: Parked| #[trigger] t.contains(q) <==> q == p || (s.contains(q) && q.index
        != p.index) by {
        if t.contains(q) && q != p {
            let k = choose|k: int| 0 <= k < t.len() && t[k] == q;
            let j = if fresh && k > i {
                k - 1
            } else {
                k
            };
            assert(s[j] == q);
            if k < i {
                assert(t[k].index < t[i].index);
            } else {
                assert(t[i].index < t[k].index);
            }
        }
        if s.contains(q) && q.index != p.index {
            let k = choose|k: int| 0 <= k < s.len() && s[k] == q;
            let j = if fresh && k >= i {
                k + 1
            } else {
                k
            };
            assert(t[j] == q);
        }
    }
}

proof fn lemma_resolved(s: Seq<Parked>, index: u64)
    requires
        in_line(s),
    ensures
        in_line(group::resolved(s, index)),
        forall|q: Parked| #[trigger]
            group::resolved(s, index).contains(q) <==> s.contains(q) && q.index != index,
{
    lemma_spot(s, index, 0);
    let r = group::resolved(s, index);
    let m = group::spot(s, index, 0);
    let there = group::waiting(s, index) is Some;
    assert forall|a: int, b: int| #![trigger r[a], r[b]] 0 <= a < b < r.len() implies r[a].index
        < r[b].index by {
        let x = if there && a >= m {
            a + 1
        } else {
            a
        };
        let y = if there && b >= m {
            b + 1
        } else {
            b
        };
        assert(s[x].index < s[y].index);
    }
    assert forall|q: Parked| #[trigger] r.contains(q) <==> s.contains(q) && q.index != index by {
        if r.contains(q) {
            let k = choose|k: int| 0 <= k < r.len() && r[k] == q;
            let j = if there && k >= m {
                k + 1
            } else {
                k
            };
            assert(s[j] == q);
            if j < m {
                assert(s[j].index < index);
            } else if there {
                assert(s[m].index < s[j].index);
            } else if m < j {
                assert(s[m].index < s[j].index);
            }
        }
        if s.contains(q) && q.index != index {
            let k = choose|k: int| 0 <= k < s.len() && s[k] == q;
            let j = if there && k > m {
                k - 1
            } else {
                k
            };
            assert(r[j] == q);
        }
    }
}

/// Parking a proposal keeps the others, but for one that waited for the very index; resolving an
/// index takes off just what waited for it.
pub proof fn law_parked(s: Seq<Parked>, p: Parked, index: u64)
    requires
        in_line(s),
    ensures
        in_line(group::parked(s, p)),
        in_line(group::resolved(s, index)),
        forall|q: Parked| #[trigger]
            group::parked(s, p).contains(q) <==> q == p || (s.contains(q) && q.index != p.index),
        forall|q: Parked| #[trigger]
            group::resolved(s, index).contains(q) <==> s.contains(q) && q.index != index,
{
    lemma_parked(s, p);
    lemma_resolved(s, index);
}

/// A heartbeat that reaches a leader goes into its log, and its caller waits for that very entry.
pub proof fn law_heartbeat_logged(
    g: GroupView,
    node_id: u64,
    address: Seq<char>,
    regions: Seq<ReplicaSetView>,
    now: u64,
    ticket: u64,
)
    requires
        g.replica.node.role == Role::Leader,
        in_line(g.heartbeats),
    ensures
        ({
            let h = g.input(
                CommandView::Heartbeat { node_id, address, regions, now, ticket },
            ).group;
            let e = h.replica.node.st.log.last();
            &&& h.replica.node.st.log.len() == g.replica.node.st.log.len() + 1
            &&& e.data == (CmdView::Heartbeat { node_id, address, regions, now }).bytes()
            &&& e.kind == EntryType::Normal
            &&& e.term == g.replica.node.term
            &&& h.heartbeats.contains(Parked { index: e.index, subject: node_id, ticket })
            &&& h.allocations == g.allocations
            &&& h.replica.fsm == g.replica.fsm
        }),
{
    reveal(GroupView::input);
    let data = (CmdView::Heartbeat { node_id, address, regions, now }).bytes();
    lemma_logged(g.replica.node, data);
    let index = (g.replica.node.st.last_index() + 1) as u64;
    law_parked(g.heartbeats, Parked { index, subject: node_id, ticket }, 0);
}

proof fn lemma_logged(v: NodeView, data: Seq<u8>)
    requires
        v.role == Role::Leader,
    ensures
        ({
            let index = (v.st.last_index() + 1) as u64;
            let e = EntryView { term: v.term, index, kind: EntryType::Normal, data };
            &&& v.propose(data).1 == Ok::<u64, crate::raft::node::ProposeError>(index)
            &&& v.propose(data).0.st.log == v.st.log.push(e)
            &&& v.propose(data).0.role == Role::Leader
            &&& v.propose(data).0.term == v.term
        }),
{
    let index = (v.st.last_index() + 1) as u64;
    let e = EntryView { term: v.term, index, kind: EntryType::Normal, data };
    let a = NodeView { st: v.st.append(seq![e]), ..v };
    let b = a.own_progress(index).advance_commit();
    crate::raft::node::lemma_send_appends(b, b.targets());
    assert(a.st.log =~= v.st.log.push(e));
}

/// Timestamps are asked of a leader: what the window has is handed out at once, and the caller is
/// told the first and how many. Otherwise a reservation that covers them goes into the log, and the
/// caller waits for that very entry.
pub proof fn law_allocation(g: GroupView, count: u64, ticket: u64)
    requires
        g.replica.node.role == Role::Leader,
        count >= 1,
        in_line(g.allocations),
        g.replica.can_reserve(count),
    ensures
        ({
            let i = g.input(CommandView::AllocTs { count, ticket });
            let r = g.replica;
            let e = i.group.replica.node.st.log.last();
            if r.led == Some(r.node.term) && r.reset is None && r.served + count
                <= r.fsm.tso_upper {
                &&& i.actions == seq![
                    ActionView::Timestamps { ticket, range: Some((r.served, count)) },
                ]
                &&& i.group.replica.served == r.served + count
                &&& i.group.replica.node == r.node
            } else {
                &&& i.group.replica.node.st.log.len() == r.node.st.log.len() + 1
                &&& e.data == (CmdView::ReserveTs { upper: r.reserved(count) }).bytes()
                &&& e.kind == EntryType::Normal
                &&& i.group.allocations.contains(Parked { index: e.index, subject: count, ticket })
                &&& i.group.replica.served == r.served
            }
        }),
{
    reveal(GroupView::input);
    let data = (CmdView::ReserveTs { upper: g.replica.reserved(count) }).bytes();
    lemma_logged(g.replica.node, data);
    let index = (g.replica.node.st.last_index() + 1) as u64;
    law_parked(g.allocations, Parked { index, subject: count, ticket }, 0);
}

/// When the entry of a heartbeat is committed, its caller gets the assignment of the node that the
/// heartbeat was of, from the state that the entry has led to, and waits no more. When that of a
/// reservation is, its caller gets the timestamps that it was made for.
pub proof fn law_committed_answered(g: GroupView, index: u64, p: Parked, acts: Seq<ActionView>)
    requires
        in_line(g.heartbeats),
        in_line(g.allocations),
        p.index == index,
    ensures
        ({
            let (h, a) = g.answer(index, acts);
            let both = g.heartbeats.contains(p) || g.allocations.contains(p);
            &&& forall|i: int| 0 <= i < acts.len() ==> #[trigger] a[i] == acts[i]
            &&& g.heartbeats.contains(p) ==> a.len() > acts.len() && a[acts.len() as int] == (
            ActionView::Assigned {
                ticket: p.ticket,
                regions: Some(g.replica.fsm.assignment_for(p.subject)),
            })
            &&& g.allocations.contains(p) ==> a.len() > acts.len() && a.last() == (
            ActionView::Timestamps {
                ticket: p.ticket,
                range: match g.replica.hand_out(p.subject) {
                    Some(first) => Some((first, p.subject)),
                    None => None,
                },
            }) && h.replica == g.replica.handed(p.subject)
            &&& !h.heartbeats.contains(p)
            &&& !h.allocations.contains(p)
            &&& forall|q: Parked|
                q.index != index ==> (#[trigger] h.heartbeats.contains(q) == g.heartbeats.contains(
                    q,
                ))
            &&& forall|q: Parked|
                q.index != index ==> (#[trigger] h.allocations.contains(q)
                    == g.allocations.contains(q))
            &&& group::waiting(g.heartbeats, index) is None && group::waiting(
                g.allocations,
                index,
            ) is None ==> a == acts && h == g
        }),
{
    law_waiting(g.heartbeats, index);
    law_waiting(g.allocations, index);
    law_parked(g.heartbeats, p, index);
    law_parked(g.allocations, p, index);
}

/// Whether a message is a response to a peer.
pub open spec fn responds(m: MessageView, peer: u64) -> bool {
    m.to == peer && answers(m.body)
}

/// Whether a message is the first of a list that is a response to a peer.
pub open spec fn first_response(ms: Seq<MessageView>, peer: u64, k: int) -> bool {
    &&& 0 <= k < ms.len()
    &&& responds(ms[k], peer)
    &&& forall|i: int| 0 <= i < k ==> !responds(#[trigger] ms[i], peer)
}

proof fn lemma_sent(ms: Seq<MessageView>)
    ensures
        group::routed(ms, None).1 is None,
        group::routed(ms, None).0.len() == ms.len(),
        forall|i: int|
            0 <= i < ms.len() ==> #[trigger] group::routed(ms, None).0[i] == ActionView::Send(
                ms[i],
            ),
    decreases ms.len(),
{
    if ms.len() > 0 {
        lemma_sent(ms.drop_last());
    }
}

proof fn lemma_replied(ms: Seq<MessageView>, peer: u64, ticket: u64) -> (k: int)
    ensures
        ({
            let (acts, left) = group::routed(ms, Some((peer, ticket)));
            &&& acts.len() == ms.len()
            &&& forall|i: int|
                0 <= i < ms.len() && i != k ==> #[trigger] acts[i] == ActionView::Send(ms[i])
            &&& match left {
                Some(r) => r == (peer, ticket) && k == ms.len() && forall|i: int|
                    0 <= i < ms.len() ==> !responds(#[trigger] ms[i], peer),
                None => first_response(ms, peer, k) && acts[k] == (ActionView::Reply {
                    ticket,
                    message: Some(ms[k]),
                }),
            }
        }),
    decreases ms.len(),
{
    if ms.len() == 0 {
        0
    } else {
        let d = ms.drop_last();
        let j = lemma_replied(d, peer, ticket);
        let (a, l) = group::routed(d, Some((peer, ticket)));
        let (acts, left) = group::routed(ms, Some((peer, ticket)));
        assert(acts.drop_last() =~= a);
        assert forall|i: int| 0 <= i < d.len() implies #[trigger] acts[i] == a[i] && ms[i] == d[i] by {
            assert(acts.drop_last()[i] == acts[i]);
        }
        let last = ms.len() - 1;
        assert(ms.last() == ms[last]);
        if l is None {
            assert(ms[j] == d[j]);
            assert forall|i: int| 0 <= i < j implies !responds(#[trigger] ms[i], peer) by {
                assert(d[i] == ms[i]);
            }
            j
        } else if responds(ms[last], peer) {
            assert forall|i: int| 0 <= i < last implies !responds(#[trigger] ms[i], peer) by {
                assert(d[i] == ms[i]);
            }
            last
        } else {
            assert forall|i: int| 0 <= i < ms.len() implies !responds(#[trigger] ms[i], peer) by {
                if i < last {
                    assert(d[i] == ms[i]);
                }
            }
            ms.len() as int
        }
    }
}

/// No message is lost and none is made up: each goes out, in order, to its peer or as the reply to
/// the one that waits. The reply is the first response to that peer; where nobody waits, or there
/// is no such response, all are sent.
pub proof fn law_routed(ms: Seq<MessageView>, reply: Option<(u64, u64)>, k: int)
    requires
        0 <= k < ms.len(),
    ensures
        group::routed(ms, reply).0.len() == ms.len(),
        group::routed(ms, reply).0[k] == match reply {
            Some((peer, ticket)) => if first_response(ms, peer, k) {
                ActionView::Reply { ticket, message: Some(ms[k]) }
            } else {
                ActionView::Send(ms[k])
            },
            None => ActionView::Send(ms[k]),
        },
        group::routed(ms, reply).1 is Some <==> (reply matches Some((peer, _)) && forall|i: int|
            0 <= i < ms.len() ==> !responds(#[trigger] ms[i], peer)),
{
    match reply {
        Some((peer, ticket)) => {
            let j = lemma_replied(ms, peer, ticket);
            if first_response(ms, peer, k) && j < ms.len() {
                assert(first_response(ms, peer, j));
                if j < k {
                    assert(!responds(ms[j], peer));
                } else if k < j {
                    assert(!responds(ms[k], peer));
                }
            }
        },
        None => {
            lemma_sent(ms);
        },
    }
}

/// Whether a message answers a request.
pub open spec fn answers(b: BodyView) -> bool {
    b is RequestVoteResp || b is AppendEntriesResp || b is InstallSnapshotResp
}

/// A change of the leader or of the term is announced, once; nothing else is.
pub proof fn law_announced(g: GroupView)
    ensures
        ({
            let (h, a) = g.proclaimed();
            let n = g.replica.node;
            &&& h.announced == (n.leader, n.term)
            &&& h.replica == g.replica
            &&& if g.announced.0 != n.leader || g.announced.1 != n.term {
                a == seq![
                    ActionView::Announce {
                        leads: n.role == Role::Leader,
                        leader: n.leader,
                        term: n.term,
                    },
                ]
            } else {
                a.len() == 0
            }
            &&& h.proclaimed().1.len() == 0
        }),
{
}

/// Whoever waits at a node that no longer leads is told so, each one; at a leader nobody is.
pub proof fn law_released(g: GroupView)
    ensures
        ({
            let (h, a) = g.released();
            if g.replica.node.role == Role::Leader {
                h == g && a.len() == 0
            } else {
                &&& h.heartbeats.len() == 0
                &&& h.allocations.len() == 0
                &&& a.len() == g.heartbeats.len() + g.allocations.len()
                &&& forall|p: Parked| #[trigger]
                    g.heartbeats.contains(p) ==> a.contains(
                        ActionView::Assigned { ticket: p.ticket, regions: None },
                    )
                &&& forall|p: Parked| #[trigger]
                    g.allocations.contains(p) ==> a.contains(
                        ActionView::Timestamps { ticket: p.ticket, range: None },
                    )
            }
        }),
{
    let (h, a) = g.released();
    if g.replica.node.role != Role::Leader {
        assert forall|p: Parked| #[trigger] g.heartbeats.contains(p) implies a.contains(
            ActionView::Assigned { ticket: p.ticket, regions: None },
        ) by {
            let i = choose|i: int| 0 <= i < g.heartbeats.len() && g.heartbeats[i] == p;
            assert(a[i] == (ActionView::Assigned { ticket: p.ticket, regions: None }));
        }
        assert forall|p: Parked| #[trigger] g.allocations.contains(p) implies a.contains(
            ActionView::Timestamps { ticket: p.ticket, range: None },
        ) by {
            let i = choose|i: int| 0 <= i < g.allocations.len() && g.allocations[i] == p;
            assert(a[g.heartbeats.len() + i] == (ActionView::Timestamps {
                ticket: p.ticket,
                range: None,
            }));
        }
    }
}

/// A key's route tells the region's id, range and version, and the node and its address; where no
/// node that is up covers the key, there is none.
pub proof fn law_route_told(p: PlacedView)
    ensures
        service::route_answer(None) is Err,
        service::route_answer(Some(p)) matches Ok(r) && {
            &&& r.region_id == p.region.id
            &&& r.start_key == p.region.start
            &&& r.end_key == p.region.end
            &&& r.epoch == p.region.epoch
            &&& r.node_id == p.node_id
            &&& r.address == p.address
        },
{
}

/// Whoever asks a node that does not lead is told the leader's address, where a leader is known and
/// has one, and that there is none otherwise.
pub proof fn law_redirects(g: GroupView)
    ensures
        service::redirected(g) == StatusView::Unavailable(
            match g.replica.node.leader {
                Some(id) => if g.addrs.contains_key(id) {
                    Some(g.addrs[id])
                } else {
                    None
                },
                None => None,
            },
        ),
        g.peer_addr(g.replica.node.id) is None,
        forall|id: u64|
            id != g.replica.node.id ==> (#[trigger] g.peer_addr(id) == if g.addrs.contains_key(id) {
                Some(g.addrs[id])
            } else {
                None
            }),
{
}

/// The log is compacted once sixty-four of the entries in it were applied: into a snapshot of the
/// whole state as of what was applied. Before that nothing is.
pub proof fn law_trimmed(r: ReplicaView)
    requires
        r.wf(),
    ensures
        ({
            let t = r.trimmed();
            let base: int = match r.node.st.snap {
                Some(s) => s.last_included_index as int,
                None => 0,
            };
            &&& t.fsm == r.fsm
            &&& t.served == r.served
            &&& if r.node.applied >= base + 64 && r.node.applied <= base + r.node.st.log.len() {
                t.node.st.snap matches Some(s) && s.last_included_index == r.node.applied && s.data
                    == r.fsm.bytes()
            } else {
                t == r
            }
        }),
{
}

/// A snapshot that a leader sent is loaded: the state becomes the one in it, and no timestamp below
/// its high-water is handed out any more. A replica without one waits for its log.
pub proof fn law_caught_up(r: ReplicaView)
    ensures
        r.node.pending is None ==> r.caught_up() == r,
        r.node.pending matches Some((_, data)) ==> ({
            let c = r.caught_up();
            &&& c.fsm == r.fsm.restore(data)
            &&& c.served >= r.served
            &&& c.served >= c.fsm.tso_upper
            &&& c.served == r.served || c.served == c.fsm.tso_upper
            &&& c.node.pending is None
        }),
{
}

/// A replica starts as a follower with the term, the vote and the log that its store has, and with
/// the state of the store's snapshot; below that one's high-water it hands out nothing.
pub proof fn law_started(id: u64, voters: Seq<u64>, st: StorageView)
    ensures
        ({
            let r = ReplicaView::start(id, voters, st);
            &&& r.node.role == Role::Follower
            &&& r.node.term == st.hard.current_term
            &&& r.node.vote == st.hard.voted_for
            &&& r.node.st == st
            &&& r.led is None
            &&& r.fsm == (match st.snap {
                Some(s) => FsmView::fresh().restore(s.data),
                None => FsmView::fresh(),
            })
            &&& r.served >= (if st.snap is Some {
                r.fsm.tso_upper
            } else {
                0
            })
            &&& forall|n: u64| #[trigger] r.hand_out(n) is None
        }),
{
}

/// A node sends nothing to itself, and to another what its address is known for.
pub proof fn law_addressed(g: GroupView, to: u64)
    ensures
        to == g.replica.node.id ==> g.peer_addr(to) is None,
        to != g.replica.node.id && g.addrs.contains_key(to) ==> g.peer_addr(to) == Some(
            g.addrs[to],
        ),
        to != g.replica.node.id && !g.addrs.contains_key(to) ==> g.peer_addr(to) is None,
        g.replica.node.leader is None ==> g.leader_addr() is None,
        g.replica.node.leader == Some(to) && g.addrs.contains_key(to) ==> g.leader_addr() == Some(
            g.addrs[to],
        ),
        g.replica.node.leader == Some(to) && !g.addrs.contains_key(to) ==> g.leader_addr() is None,
{
}

} // verus!
