//! What a group's driver answers is what its replica hands out: every range of timestamps that a
//! command is answered with is a grant of [`crate::pd::oracle`], and no other is.

use vstd::prelude::*;
use crate::pd::command::CmdView;
use crate::pd::group;
use crate::pd::group::{ActionView, CommandView, GroupView};
use crate::pd::oracle::{Grant, Happening, Oracle};
use crate::pd::replica::{at_least_one, ReplicaView};
use crate::raft::frame;
use crate::raft::message::{EntryType, EntryView, MessageView};
use crate::raft::node;
use crate::raft::node::{NodeView, Role};

verus! {

/// The grants that a list of actions answers with, in order.
pub open spec fn issued(acts: Seq<ActionView>, term: u64) -> Seq<Grant>
    decreases acts.len(),
{
    if acts.len() == 0 {
        Seq::empty()
    } else {
        let rest = issued(acts.drop_last(), term);
        match acts.last() {
            ActionView::Timestamps { range: Some((first, count)), .. } => rest.push(
                Grant { term, first, count: at_least_one(count) },
            ),
            _ => rest,
        }
    }
}

/// What happens to a replica when allocations that wait for committed indices are answered.
pub open spec fn asked(g: GroupView, committed: Seq<u64>) -> Seq<Happening>
    decreases committed.len(),
{
    if committed.len() == 0 {
        Seq::empty()
    } else {
        let rest = asked(g, committed.drop_last());
        let h = g.answered(committed.drop_last()).0;
        match group::waiting(h.allocations, committed.last()) {
            Some(p) => rest.push(Happening::HandOut { id: g.replica.node.id, count: p.subject }),
            None => rest,
        }
    }
}

/// What happens to a replica when a command is taken in, before anything that waits is answered.
pub open spec fn taken(g: GroupView, c: CommandView) -> Seq<Happening> {
    let id = g.replica.node.id;
    match c {
        CommandView::Tick => seq![Happening::Tick { id }],
        CommandView::Step(m) => seq![Happening::Deliver { m }],
        CommandView::StepReply(m, _) => seq![Happening::Deliver { m }],
        CommandView::Heartbeat { node_id, address, regions, now, .. } => seq![
            Happening::Propose {
                id,
                data: (CmdView::Heartbeat { node_id, address, regions, now }).bytes(),
            },
        ],
        CommandView::AllocTs { count, .. } => if g.replica.hand_out(count) is Some {
            seq![Happening::HandOut { id, count }, Happening::Drain { id }]
        } else if g.replica.node.role == Role::Leader && g.replica.can_reserve(count) {
            seq![
                Happening::Propose {
                    id,
                    data: (CmdView::ReserveTs { upper: g.replica.reserved(count) }).bytes(),
                },
            ]
        } else {
            seq![Happening::Drain { id }]
        },
        CommandView::Stop => seq![Happening::Drain { id }],
    }
}

/// What happens to a replica when a command is handled.
pub open spec fn doings(g: GroupView, c: CommandView) -> Seq<Happening> {
    let i = g.input(c).group;
    taken(g, c) + asked(
        GroupView { replica: i.replica.ready(), ..i },
        i.replica.newly(),
    )
}

/// One list after the other.
proof fn lemma_run_join(o: Oracle, a: Seq<Happening>, b: Seq<Happening>)
    ensures
        o.run(a + b) == o.run(a).run(b),
    decreases b.len(),
{
    if b.len() == 0 {
        assert(a + b =~= a);
    } else {
        assert((a + b).drop_last() =~= a + b.drop_last());
        lemma_run_join(o, a, b.drop_last());
    }
}

proof fn lemma_issued_join(a: Seq<ActionView>, b: Seq<ActionView>, term: u64)
    ensures
        issued(a + b, term) == issued(a, term) + issued(b, term),
    decreases b.len(),
{
    if b.len() == 0 {
        assert(a + b =~= a);
        assert(issued(a, term) + issued(b, term) =~= issued(a, term));
    } else {
        assert((a + b).drop_last() =~= a + b.drop_last());
        lemma_issued_join(a, b.drop_last(), term);
        assert(issued(a + b, term) =~= issued(a, term) + issued(b, term));
    }
}

proof fn lemma_none_issued(a: Seq<ActionView>, term: u64)
    requires
        forall|i: int|
            0 <= i < a.len() ==> !((#[trigger] a[i]) is Timestamps && a[i]->range is Some),
    ensures
        issued(a, term) == Seq::<Grant>::empty(),
    decreases a.len(),
{
    if a.len() > 0 {
        assert(a.last() == a[a.len() - 1]);
        assert forall|i: int| 0 <= i < a.drop_last().len() implies !((#[trigger] a.drop_last()[i])
            is Timestamps && a.drop_last()[i]->range is Some) by {
            assert(a.drop_last()[i] == a[i]);
        }
        lemma_none_issued(a.drop_last(), term);
    }
}

proof fn lemma_routed_none(ms: Seq<MessageView>, reply: Option<(u64, u64)>)
    ensures
        forall|i: int|
            0 <= i < group::routed(ms, reply).0.len() ==> !((#[trigger] group::routed(
                ms,
                reply,
            ).0[i]) is Timestamps),
    decreases ms.len(),
{
    if ms.len() > 0 {
        lemma_routed_none(ms.drop_last(), reply);
    }
}

/// Handing out, as it happens to a group.
proof fn lemma_hand_out(o: Oracle, id: u64, count: u64)
    requires
        o.replicas.contains_key(id),
    ensures
        ({
            let n = o.after(Happening::HandOut { id, count });
            let r = o.replicas[id];
            &&& n.replicas == o.replicas.insert(id, r.handed(count))
            &&& r.hand_out(count) is None ==> n.grants == o.grants
            &&& r.hand_out(count) is Some ==> n.grants == o.grants.push(
                Grant {
                    term: r.node.term,
                    first: r.hand_out(count)->0,
                    count: at_least_one(count),
                },
            )
            &&& n.sent == o.sent
            &&& n.voters == o.voters
            &&& r.handed(count).node == r.node
        }),
{
    reveal(Oracle::after);
}

/// A replica after its effects are drained.
#[verifier::opaque]
spec fn drained(x: ReplicaView) -> ReplicaView {
    x.ready()
}

/// Reacting and draining, as it happens to a group.
proof fn lemma_drain(o: Oracle, e: Happening, x: ReplicaView)
    requires
        e is Tick || e is Deliver || e is Propose || e is Drain,
        o.touched(e) == x,
    ensures
        o.after(e).replicas == o.replicas.insert(e.node(), drained(x)),
        o.after(e).grants == o.grants,
{
    reveal(Oracle::after);
    reveal(drained);
}

proof fn lemma_touched_tick(o: Oracle, id: u64)
    requires
        o.replicas.contains_key(id),
    ensures
        o.touched((Happening::Tick { id })) == (ReplicaView {
            node: o.replicas[id].node.tick(),
            ..o.replicas[id]
        }),
{
    reveal(Oracle::touched);
}

proof fn lemma_touched_deliver(o: Oracle, m: MessageView)
    requires
        o.replicas.contains_key(m.to),
    ensures
        o.touched((Happening::Deliver { m })) == (ReplicaView {
            node: o.replicas[m.to].node.step(m),
            ..o.replicas[m.to]
        }),
{
    reveal(Oracle::touched);
}

proof fn lemma_touched_propose(o: Oracle, id: u64, data: Seq<u8>)
    requires
        o.replicas.contains_key(id),
    ensures
        o.touched((Happening::Propose { id, data })) == (ReplicaView {
            node: o.replicas[id].node.propose(data).0,
            ..o.replicas[id]
        }),
{
    reveal(Oracle::touched);
}

proof fn lemma_touched_drain(o: Oracle, id: u64)
    requires
        o.replicas.contains_key(id),
        o.replicas[id].node.outbox == Seq::<MessageView>::empty(),
    ensures
        o.touched((Happening::Drain { id })) == o.replicas[id],
{
    reveal(Oracle::touched);
    let v = o.replicas[id].node;
    assert((NodeView { outbox: Seq::empty(), ..v }) == v);
}

/// What one committed index does to a group.
spec fn next(m: Oracle, h: GroupView, index: u64) -> Oracle {
    match group::waiting(h.allocations, index) {
        Some(p) => m.after(Happening::HandOut { id: h.replica.node.id, count: p.subject }),
        None => m,
    }
}

/// One committed index is answered.
proof fn lemma_one(m: Oracle, h: GroupView, index: u64, acts: Seq<ActionView>, b: Seq<Grant>)
    requires
        m.replicas.contains_key(h.replica.node.id),
        m.replicas[h.replica.node.id] == h.replica,
        m.grants == b + issued(acts, h.replica.node.term),
    ensures
        h.answer(index, acts).0.replica.node == h.replica.node,
        next(m, h, index).replicas == m.replicas.insert(
            h.replica.node.id,
            h.answer(index, acts).0.replica,
        ),
        next(m, h, index).grants == b + issued(h.answer(index, acts).1, h.replica.node.term),
{
    let id = h.replica.node.id;
    let term = h.replica.node.term;
    let (k, all) = h.answer(index, acts);
    let a = match group::waiting(h.heartbeats, index) {
        Some(p) => acts.push(
            ActionView::Assigned {
                ticket: p.ticket,
                regions: Some(h.replica.fsm.assignment_for(p.subject)),
            },
        ),
        None => acts,
    };
    assert(issued(a, term) == issued(acts, term)) by {
        if group::waiting(h.heartbeats, index) is Some {
            assert(a.drop_last() =~= acts);
        }
    }
    match group::waiting(h.allocations, index) {
        Some(p) => {
            lemma_hand_out(m, id, p.subject);
            assert(all.drop_last() =~= a);
            assert(next(m, h, index).grants =~= b + issued(all, term));
        },
        None => {
            assert(m.replicas.insert(id, h.replica) =~= m.replicas);
        },
    }
}

/// Answering what waits is handing out.
proof fn lemma_asked(o: Oracle, g: GroupView, committed: Seq<u64>)
    requires
        o.replicas.contains_key(g.replica.node.id),
        o.replicas[g.replica.node.id] == g.replica,
    ensures
        g.answered(committed).0.replica.node == g.replica.node,
        o.run(asked(g, committed)).replicas == o.replicas.insert(
            g.replica.node.id,
            g.answered(committed).0.replica,
        ),
        o.run(asked(g, committed)).grants == o.grants + issued(
            g.answered(committed).1,
            g.replica.node.term,
        ),
    decreases committed.len(),
{
    let id = g.replica.node.id;
    let term = g.replica.node.term;
    if committed.len() == 0 {
        assert(o.replicas.insert(id, g.replica) =~= o.replicas);
        assert(o.grants + issued(g.answered(committed).1, term) =~= o.grants);
    } else {
        let front = committed.drop_last();
        lemma_asked(o, g, front);
        let m = o.run(asked(g, front));
        let (h, acts) = g.answered(front);
        lemma_one(m, h, committed.last(), acts, o.grants);
        assert(o.run(asked(g, committed)) == next(m, h, committed.last())) by {
            if group::waiting(h.allocations, committed.last()) is Some {
                assert(asked(g, committed).drop_last() =~= asked(g, front));
            }
        }
        assert(m.replicas.insert(id, g.answered(committed).0.replica) =~= o.replicas.insert(
            id,
            g.answered(committed).0.replica,
        ));
    }
}

/// Nothing that a leader does changes its term while its effects are drained.
proof fn lemma_ready_term(x: ReplicaView)
    ensures
        x.ready().node.term == x.node.term,
        x.ready().node.id == x.node.id,
{
    let none = Seq::<u8>::empty();
    lemma_propose_same(x.node, none);
}

proof fn lemma_propose_same(v: NodeView, data: Seq<u8>)
    ensures
        v.propose(data).0.term == v.term,
        v.propose(data).0.id == v.id,
{
    if v.role == Role::Leader {
        let index = (v.st.last_index() + 1) as u64;
        let e = EntryView {
            term: v.term,
            index,
            kind: EntryType::Normal,
            data,
        };
        let b = (NodeView { st: v.st.append(seq![e]), ..v }).own_progress(index).advance_commit();
        node::lemma_send_appends(b, b.targets());
    }
}

/// Taking a command in touches the replica as the first happening does.
proof fn lemma_touch(o: Oracle, g: GroupView, c: CommandView)
    requires
        o.replicas.contains_key(g.replica.node.id),
        o.replicas[g.replica.node.id] == g.replica,
        g.replica.node.outbox == Seq::<MessageView>::empty(),
        c matches CommandView::Step(m) ==> m.to == g.replica.node.id,
        c matches CommandView::StepReply(m, _) ==> m.to == g.replica.node.id,
        c is AllocTs ==> g.replica.hand_out(c->AllocTs_count) is None,
    ensures
        taken(g, c).len() == 1,
        o.touched(taken(g, c)[0]) == g.input(c).group.replica,
{
    reveal(GroupView::input);
    let id = g.replica.node.id;
    match c {
        CommandView::Tick => lemma_touched_tick(o, id),
        CommandView::Step(m) => lemma_touched_deliver(o, m),
        CommandView::StepReply(m, _) => lemma_touched_deliver(o, m),
        CommandView::Heartbeat { node_id, address, regions, now, .. } => lemma_touched_propose(
            o,
            id,
            (CmdView::Heartbeat { node_id, address, regions, now }).bytes(),
        ),
        CommandView::AllocTs { count, .. } => {
            lemma_touched_drain(o, id);
            lemma_touched_propose(
                o,
                id,
                (CmdView::ReserveTs { upper: g.replica.reserved(count) }).bytes(),
            );
        },
        CommandView::Stop => lemma_touched_drain(o, id),
    }
}

/// Taking a command in is one of the things that can happen to a replica, and hands out what the
/// command is answered with at once.
proof fn lemma_taken(o: Oracle, g: GroupView, c: CommandView)
    requires
        o.replicas.contains_key(g.replica.node.id),
        o.replicas[g.replica.node.id] == g.replica,
        g.replica.node.outbox == Seq::<MessageView>::empty(),
        c matches CommandView::Step(m) ==> m.to == g.replica.node.id,
        c matches CommandView::StepReply(m, _) ==> m.to == g.replica.node.id,
    ensures
        o.run(taken(g, c)).replicas == o.replicas.insert(
            g.replica.node.id,
            drained(g.input(c).group.replica),
        ),
        o.run(taken(g, c)).grants == o.grants + issued(
            g.input(c).actions,
            g.input(c).group.replica.node.term,
        ),
{
    let acts = g.input(c).actions;
    let x = g.input(c).group.replica;
    let es = taken(g, c);
    if c is AllocTs && g.replica.hand_out(c->AllocTs_count) is Some {
        lemma_taken_grant(o, g, c);
    } else {
        lemma_touch(o, g, c);
        assert(es.drop_last() =~= Seq::<Happening>::empty());
        assert(o.run(es.drop_last()) == o);
        lemma_drain(o, es[0], x);
        lemma_nothing_at_once(g, c);
        lemma_none_issued(acts, x.node.term);
        assert(o.grants + issued(acts, x.node.term) =~= o.grants);
    }
}

/// Timestamps that are at hand are handed out at once.
proof fn lemma_taken_grant(o: Oracle, g: GroupView, c: CommandView)
    requires
        o.replicas.contains_key(g.replica.node.id),
        o.replicas[g.replica.node.id] == g.replica,
        g.replica.node.outbox == Seq::<MessageView>::empty(),
        c is AllocTs,
        g.replica.hand_out(c->AllocTs_count) is Some,
    ensures
        o.run(taken(g, c)).replicas == o.replicas.insert(
            g.replica.node.id,
            drained(g.input(c).group.replica),
        ),
        o.run(taken(g, c)).grants == o.grants + issued(
            g.input(c).actions,
            g.input(c).group.replica.node.term,
        ),
{
    let id = g.replica.node.id;
    let r = g.replica;
    let count = c->AllocTs_count;
    let acts = g.input(c).actions;
    let x = g.input(c).group.replica;
    assert(x == r.handed(count) && acts == seq![
        ActionView::Timestamps {
            ticket: c->AllocTs_ticket,
            range: Some((r.hand_out(count)->0, count)),
        },
    ]) by {
        reveal(GroupView::input);
    }
    let e = Happening::HandOut { id, count };
    let f = Happening::Drain { id };
    let es = taken(g, c);
    assert(es =~= seq![e, f]);
    assert(es.drop_last() =~= seq![e]);
    assert(seq![e].drop_last() =~= Seq::<Happening>::empty());
    assert(o.run(Seq::<Happening>::empty()) == o);
    let m = o.after(e);
    assert(o.run(seq![e]) == m);
    lemma_hand_out(o, id, count);
    lemma_touched_drain(m, id);
    lemma_drain(m, f, x);
    assert(m.replicas.insert(id, drained(x)) =~= o.replicas.insert(id, drained(x)));
    assert(acts.drop_last() =~= Seq::<ActionView>::empty());
    assert(issued(Seq::<ActionView>::empty(), r.node.term) =~= Seq::<Grant>::empty());
    assert(m.grants =~= o.grants + issued(acts, x.node.term));
}

/// No other command is answered with timestamps at once.
proof fn lemma_nothing_at_once(g: GroupView, c: CommandView)
    requires
        c is AllocTs ==> g.replica.hand_out(c->AllocTs_count) is None,
    ensures
        forall|k: int|
            0 <= k < g.input(c).actions.len() ==> !((#[trigger] g.input(c).actions[k]) is Timestamps
                && g.input(c).actions[k]->range is Some),
{
    reveal(GroupView::input);
}

/// What is answered beside the allocations holds no timestamps.
proof fn lemma_answers_only(
    a: Seq<ActionView>,
    ms: Seq<MessageView>,
    reply: Option<(u64, u64)>,
    answers: Seq<ActionView>,
    h: GroupView,
    term: u64,
)
    ensures
        ({
            let (sent, left) = group::routed(ms, reply);
            let (free, refusals) = h.released();
            let (done, news) = free.proclaimed();
            &&& done.replica == h.replica
            &&& issued(a + sent + group::unanswered(left) + answers + refusals + news, term)
                == issued(a, term) + issued(answers, term)
        }),
{
    let (sent, left) = group::routed(ms, reply);
    let (free, refusals) = h.released();
    let (done, news) = free.proclaimed();
    let none = group::unanswered(left);
    lemma_routed_none(ms, reply);
    lemma_none_issued(sent, term);
    lemma_none_issued(none, term);
    lemma_none_issued(refusals, term);
    lemma_none_issued(news, term);
    lemma_issued_join(a, sent, term);
    lemma_issued_join(a + sent, none, term);
    lemma_issued_join(a + sent + none, answers, term);
    lemma_issued_join(a + sent + none + answers, refusals, term);
    lemma_issued_join(a + sent + none + answers + refusals, news, term);
    assert(issued(a + sent + none + answers + refusals + news, term) =~= issued(a, term) + issued(
        answers,
        term,
    ));
}

/// Every range of timestamps that a command is answered with is handed out by the replica, in
/// order, and nothing else is; and everything that handling a command does to the replica is a
/// happening of the group's.
pub proof fn law_answers_are_grants(o: Oracle, g: GroupView, c: CommandView)
    requires
        o.replicas.contains_key(g.replica.node.id),
        o.replicas[g.replica.node.id] == g.replica,
        g.replica.node.outbox == Seq::<MessageView>::empty(),
        c matches CommandView::Step(m) ==> m.to == g.replica.node.id,
        c matches CommandView::StepReply(m, _) ==> m.to == g.replica.node.id,
    ensures
        o.run(doings(g, c)).replicas == o.replicas.insert(
            g.replica.node.id,
            g.handle(c).0.replica,
        ),
        o.run(doings(g, c)).grants == o.grants + issued(
            g.handle(c).1,
            g.handle(c).0.replica.node.term,
        ),
        g.handle(c).0.replica.node.outbox == Seq::<MessageView>::empty(),
{
    let id = g.replica.node.id;
    let i = g.input(c);
    let x = i.group.replica;
    let z = x.ready();
    let d = GroupView { replica: z, ..i.group };
    let a = o.run(taken(g, c));
    lemma_run_join(o, taken(g, c), asked(d, x.newly()));
    lemma_taken(o, g, c);
    assert(drained(x) == z) by {
        reveal(drained);
    }
    lemma_ready_term(x);
    lemma_input_id(g, c);
    lemma_asked(a, d, x.newly());
    let (answered, answers) = d.answered(x.newly());
    lemma_answers_only(
        i.actions,
        x.prepared().node.outbox,
        i.reply,
        answers,
        answered,
        x.node.term,
    );
    assert(a.replicas.insert(id, answered.replica) =~= o.replicas.insert(id, answered.replica));
    assert(o.run(doings(g, c)).grants =~= o.grants + (issued(i.actions, x.node.term) + issued(
        answers,
        x.node.term,
    )));
}

/// Taking a command in leaves the replica's id as it is.
proof fn lemma_input_id(g: GroupView, c: CommandView)
    ensures
        g.input(c).group.replica.node.id == g.replica.node.id,
{
    reveal(GroupView::input);
    let v = g.replica.node;
    match c {
        CommandView::Tick => frame::lemma_tick_id(v),
        CommandView::Step(m) => frame::lemma_step_id(v, m),
        CommandView::StepReply(m, _) => frame::lemma_step_id(v, m),
        CommandView::Heartbeat { node_id, address, regions, now, .. } => lemma_propose_same(
            v,
            (CmdView::Heartbeat { node_id, address, regions, now }).bytes(),
        ),
        CommandView::AllocTs { count, .. } => lemma_propose_same(
            v,
            (CmdView::ReserveTs { upper: g.replica.reserved(count) }).bytes(),
        ),
        CommandView::Stop => {},
    }
}

} // verus!
