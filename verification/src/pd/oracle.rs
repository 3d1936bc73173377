//! A group of replicas under any schedule: no timestamp is handed out twice, a later leader hands
//! out only later ones, and replicas that have come equally far agree.

use vstd::prelude::*;
use crate::pd;
use crate::pd::assurance;
use crate::pd::cluster::{MembershipView, TableView};
use crate::pd::command;
use crate::pd::command::CmdView;
use crate::pd::fsm;
use crate::pd::fsm::{FsmView, Image};
use crate::pd::region::{RegistryView, TableId};
use crate::pd::replica::{applied, at_least_one, ReplicaView};
use crate::raft::cluster;
use crate::raft::cluster::{Cluster, Event};
use crate::raft::frame;
use crate::raft::history;
use crate::raft::history::History;
use crate::raft::members;
use crate::raft::message::{BodyView, EntryView, MessageView};
use crate::raft::node;
use crate::raft::node::{NodeView, Role};
use crate::raft::safety;
use crate::raft::steps;
use crate::raft::storage::StorageView;

verus! {

/// Timestamps that a leader handed out: `count` of them, from `first` on.
pub struct Grant {
    /// The term of the leader.
    pub term: u64,
    pub first: u64,
    pub count: u64,
}

impl Grant {
    /// One past the last timestamp.
    pub open spec fn end(self) -> int {
        self.first + self.count
    }
}

/// The replicas of a group, every message that one of them has queued so far, and every grant.
pub struct Oracle {
    pub voters: Seq<u64>,
    pub replicas: Map<u64, ReplicaView>,
    pub sent: Set<MessageView>,
    pub grants: Seq<Grant>,
}

/// Something that happens at one replica. Its effects are drained at once.
pub enum Happening {
    /// The clock advances by one tick.
    Tick { id: u64 },
    /// A message that was queued before arrives.
    Deliver { m: MessageView },
    /// A command is proposed.
    Propose { id: u64, data: Seq<u8> },
    /// The replica is only asked for its effects.
    Drain { id: u64 },
    /// Timestamps are asked for.
    HandOut { id: u64, count: u64 },
    /// Data nodes that have been silent for too long are marked down.
    Sweep { id: u64, now: u64, timeout_ms: u64 },
    /// The replica starts again from its store.
    Restart { id: u64 },
}

impl Happening {
    /// The replica at which it happens.
    pub open spec fn node(self) -> u64 {
        match self {
            Happening::Tick { id } => id,
            Happening::Deliver { m } => m.to,
            Happening::Propose { id, .. } => id,
            Happening::Drain { id } => id,
            Happening::HandOut { id, .. } => id,
            Happening::Sweep { id, .. } => id,
            Happening::Restart { id } => id,
        }
    }

    /// What it is to the replica's node.
    pub open spec fn event(self) -> Event {
        match self {
            Happening::Tick { id } => Event::Tick { id },
            Happening::Deliver { m } => Event::Deliver { m },
            Happening::Propose { id, data } => Event::Propose { id, data },
            Happening::Drain { id } => Event::TakeMessages { id },
            Happening::HandOut { id, .. } => Event::TakeMessages { id },
            Happening::Sweep { id, .. } => Event::TakeMessages { id },
            Happening::Restart { id } => Event::Restart {
                id,
                election_timeout: 10,
                heartbeat_timeout: 1,
                seed: node::default_seed(id),
            },
        }
    }
}

/// Whether a snapshot of a state can be read back. It can wherever everything in it fits its length
/// field.
pub open spec fn legible(f: FsmView) -> bool {
    fsm::image_of(f.bytes()) == Some(assurance::image(f))
}

/// A replica after silent data nodes were marked down.
pub open spec fn swept(r: ReplicaView, now: u64, timeout_ms: u64) -> ReplicaView {
    let f = r.fsm;
    ReplicaView {
        fsm: FsmView {
            members: MembershipView {
                nodes: pd::cluster::swept(f.members.nodes, now, timeout_ms),
                ..f.members
            },
            ..f
        },
        ..r
    }
}

impl Oracle {
    /// The nodes of the replicas.
    pub open spec fn raft(self) -> Cluster {
        Cluster {
            voters: self.voters,
            nodes: Map::new(
                |id: u64| self.replicas.contains_key(id),
                |id: u64| self.replicas[id].node,
            ),
            sent: self.sent,
        }
    }

    /// A new group: distinct voters in order, a fresh replica for each, and nothing sent or handed
    /// out.
    pub open spec fn initial(self) -> bool {
        &&& self.voters.len() > 0
        &&& members::ascending(self.voters)
        &&& forall|id: u64| #[trigger]
            self.voters.contains(id) ==> self.replicas.contains_key(id)
        &&& forall|id: u64| #[trigger]
            self.replicas.contains_key(id) ==> self.replicas[id] == ReplicaView::start(
                id,
                self.voters,
                StorageView::fresh(),
            )
        &&& self.sent == Set::<MessageView>::empty()
        &&& self.grants == Seq::<Grant>::empty()
    }

    /// The replica after its node has reacted, with the effects still to be drained.
    #[verifier::opaque]
    pub open spec fn touched(self, e: Happening) -> ReplicaView {
        let r = self.replicas[e.node()];
        ReplicaView { node: self.raft().react(e.event()), ..r }
    }

    /// Whether something can happen: the node can take it, there is room in the log, and the
    /// state can be compacted. Replicas are not told to campaign.
    pub open spec fn allows(self, e: Happening) -> bool {
        &&& self.replicas.contains_key(e.node())
        &&& self.raft().allows(e.event())
        &&& match e {
            Happening::HandOut { .. } => true,
            Happening::Sweep { .. } => true,
            Happening::Restart { .. } => true,
            Happening::Deliver { m } => m.body !is TimeoutNow && drains(self.touched(e)),
            _ => drains(self.touched(e)),
        }
    }

    /// The group after something happened.
    #[verifier::opaque]
    pub open spec fn after(self, e: Happening) -> Oracle {
        let id = e.node();
        let r = self.replicas[id];
        match e {
            Happening::HandOut { count, .. } => Oracle {
                replicas: self.replicas.insert(id, r.handed(count)),
                grants: match r.hand_out(count) {
                    Some(first) => self.grants.push(
                        Grant { term: r.node.term, first, count: at_least_one(count) },
                    ),
                    None => self.grants,
                },
                ..self
            },
            Happening::Sweep { now, timeout_ms, .. } => Oracle {
                replicas: self.replicas.insert(id, swept(r, now, timeout_ms)),
                ..self
            },
            Happening::Restart { .. } => Oracle {
                replicas: self.replicas.insert(
                    id,
                    ReplicaView::start(id, self.voters, r.node.st),
                ),
                ..self
            },
            _ => {
                let x = self.touched(e);
                Oracle {
                    replicas: self.replicas.insert(id, x.ready()),
                    sent: self.sent.union(x.prepared().node.outbox.to_set()),
                    ..self
                }
            },
        }
    }

    /// The group after a list of happenings.
    pub open spec fn run(self, es: Seq<Happening>) -> Oracle
        decreases es.len(),
    {
        if es.len() == 0 {
            self
        } else {
            self.run(es.drop_last()).after(es.last())
        }
    }

    /// Whether each of a list can happen when it does.
    pub open spec fn lawful(self, es: Seq<Happening>) -> bool
        decreases es.len(),
    {
        es.len() > 0 ==> {
            &&& self.lawful(es.drop_last())
            &&& self.run(es.drop_last()).allows(es.last())
        }
    }
}

/// Whether there is room for one more entry, and a snapshot of the state can be read back.
pub open spec fn drains(x: ReplicaView) -> bool {
    &&& x.node.st.last_index() < u64::MAX - 1
    &&& legible(x.prepared().fsm)
}

/// Whether no replica marks a data node down.
pub open spec fn calm(es: Seq<Happening>) -> bool {
    forall|i: int| 0 <= i < es.len() ==> (#[trigger] es[i]) !is Sweep
}

/// What a state machine holds that its log alone decides. Which data nodes are live is up to each
/// replica, and with it who founds a region.
#[verifier::ext_equal]
pub struct Ledger {
    pub upper: u64,
    pub catalog: Seq<TableView>,
    pub next_table_id: TableId,
    pub regions: RegistryView,
}

/// The ledger of a state machine.
pub open spec fn ledger(f: FsmView) -> Ledger {
    Ledger {
        upper: f.tso_upper,
        catalog: f.catalog,
        next_table_id: f.next_table_id,
        regions: f.regions,
    }
}

/// The ledger in a snapshot.
pub open spec fn written(i: Image) -> Ledger {
    Ledger {
        upper: i.upper,
        catalog: i.catalog,
        next_table_id: i.next_table_id,
        regions: i.regions,
    }
}

impl Ledger {
    /// Another has everything that this one has: no lower a high-water, every table, and no lower
    /// a next table id.
    pub open spec fn within(self, other: Ledger) -> bool {
        &&& self.upper <= other.upper
        &&& self.next_table_id <= other.next_table_id
        &&& self.catalog.is_prefix_of(other.catalog)
    }
}

/// The state that a log comes to.
#[verifier::opaque]
pub open spec fn state(log: Seq<EntryView>) -> FsmView {
    applied(FsmView::fresh(), log)
}

/// The ledger that a log comes to.
pub open spec fn replayed(log: Seq<EntryView>) -> Ledger {
    ledger(state(log))
}

/// The high-water that a log comes to.
pub open spec fn high(log: Seq<EntryView>) -> u64 {
    replayed(log).upper
}

/// A command does to a ledger what the ledger decides, and takes nothing from it.
proof fn lemma_ledger(f: FsmView, g: FsmView, c: Option<CmdView>)
    requires
        ledger(f) == ledger(g),
    ensures
        ledger(f.apply(c)) == ledger(g.apply(c)),
        ledger(f).within(ledger(f.apply(c))),
{
}

/// A longer log comes to no less.
proof fn lemma_longer(log: Seq<EntryView>, i: int, j: int)
    requires
        0 <= i <= j <= log.len(),
    ensures
        replayed(log.take(i)).within(replayed(log.take(j))),
        high(log.take(i)) <= high(log.take(j)),
    decreases j - i,
{
    reveal(state);
    if i < j {
        lemma_longer(log, i, j - 1);
        assert(log.take(j).drop_last() =~= log.take(j - 1));
        let f = applied(FsmView::fresh(), log.take(j - 1));
        let e = log[j - 1];
        assert(log.take(j).last() == e);
        lemma_ledger(f, f, command::cmd_of(e.data));
    }
}

/// Applying entries to the ledger of one log gives that of both.
proof fn lemma_replay(f: FsmView, a: Seq<EntryView>, es: Seq<EntryView>)
    requires
        ledger(f) == replayed(a),
    ensures
        ledger(applied(f, es)) == replayed(a + es),
    decreases es.len(),
{
    reveal(state);
    if es.len() > 0 {
        let front = es.drop_last();
        lemma_replay(f, a, front);
        assert((a + es).drop_last() =~= a + front);
        assert((a + es).last() == es.last());
        lemma_ledger(
            applied(f, front),
            applied(FsmView::fresh(), a + front),
            command::cmd_of(es.last().data),
        );
    } else {
        assert(a + es =~= a);
    }
}

/// What a log never changes, and what it only raises.
proof fn lemma_settings(log: Seq<EntryView>, i: int, j: int)
    requires
        0 <= i <= j <= log.len(),
        j < u64::MAX,
    ensures
        state(log.take(i)).version <= state(log.take(j)).version <= j + 1,
        state(log.take(j)).members.seed == FsmView::fresh().members.seed,
        state(log.take(j)).replicas == FsmView::fresh().replicas,
    decreases j,
{
    reveal(state);
    if j > 0 {
        lemma_settings(log, if i < j { i } else { j - 1 }, j - 1);
        assert(log.take(j).drop_last() =~= log.take(j - 1));
        assert(log.take(j).last() == log[j - 1]);
    }
}

/// Applying entries to the state of one log gives that of both.
proof fn lemma_state(a: Seq<EntryView>, es: Seq<EntryView>)
    ensures
        applied(state(a), es) == state(a + es),
    decreases es.len(),
{
    reveal(state);
    if es.len() > 0 {
        lemma_state(a, es.drop_last());
        assert((a + es).drop_last() =~= a + es.drop_last());
        assert((a + es).last() == es.last());
    } else {
        assert(a + es =~= a);
    }
}

/// Whether a state is that of some front part of a log.
spec fn early(f: FsmView, log: Seq<EntryView>) -> bool {
    exists|i: int| 0 <= i <= log.len() && f == #[trigger] state(log.take(i))
}

/// Whether a snapshot's bytes hold the ledger that a log comes to; where no replica has marked a
/// data node down, the whole state.
spec fn vouches(calm: bool, data: Seq<u8>, log: Seq<EntryView>) -> bool {
    &&& fsm::image_of(data) is Some
    &&& written(fsm::image_of(data)->0) == replayed(log)
    &&& calm ==> fsm::image_of(data)->0 == assurance::image(state(log))
}

/// How far a replica's state machine has come.
pub open spec fn mark(v: NodeView) -> u64 {
    node::larger(v.st.base(), v.applied)
}

/// A replica's snapshot holds the ledger of the log in front of it.
spec fn covered(calm: bool, h: History, v: NodeView) -> bool {
    v.st.snap is Some ==> vouches(
        calm,
        v.st.snap->0.data,
        h.full[v.id].take(v.st.base() as int),
    )
}

/// A replica's ledger is that of the log that it has applied; where no replica has marked a data
/// node down, its state is.
spec fn tracks(calm: bool, h: History, r: ReplicaView) -> bool {
    let log = h.full[r.node.id].take(mark(r.node) as int);
    &&& ledger(r.fsm) == replayed(log)
    &&& calm ==> r.fsm == state(log)
    &&& covered(calm, h, r.node)
}

/// A snapshot in a message holds the ledger of the sender's log in front of it.
spec fn faithful(calm: bool, h: History, m: MessageView) -> bool {
    match m.body {
        BodyView::InstallSnapshot { last_included_index, data, .. } => vouches(
            calm,
            data,
            h.tlog[m.term].take(last_included_index as int),
        ),
        _ => true,
    }
}

/// Who has handed out from where.
struct Record {
    h: History,
    /// Where the leader of a term started to hand out.
    starts: Map<u64, u64>,
    /// No replica has marked a data node down.
    calm: bool,
}

/// A leader starts at the high-water of the log with which it was elected, or above it.
spec fn starts_ok(h: History, starts: Map<u64, u64>) -> bool {
    forall|u: u64| #[trigger]
        starts.contains_key(u) ==> h.elected.contains_key(u) && starts[u] >= high(
            h.clog[(h.elected[u], u)],
        )
}

/// A grant lies at or above its leader's start, and below the high-water of entries that are settled.
spec fn grant_ok(h: History, voters: Seq<u64>, starts: Map<u64, u64>, g: Grant) -> bool {
    &&& starts.contains_key(g.term)
    &&& starts[g.term] <= g.first
    &&& exists|log: Seq<EntryView>, c: int| #[trigger]
        h.settled(voters, log, c, g.term as int) && 0 <= c <= log.len() && g.end() <= high(
            log.take(c),
        )
}

/// A leader's cursor is past everything that it has handed out, or is still to be reset.
spec fn cursor_ok(h: History, starts: Map<u64, u64>, grants: Seq<Grant>, r: ReplicaView) -> bool {
    r.node.role == Role::Leader ==> match r.reset {
        Some(i) => {
            &&& h.clog[(r.node.id, r.node.term)].len() < i
            &&& !starts.contains_key(r.node.term)
        },
        None => {
            &&& starts.contains_key(r.node.term)
            &&& starts[r.node.term] <= r.served
            &&& forall|k: int|
                0 <= k < grants.len() && (#[trigger] grants[k]).term == r.node.term
                    ==> grants[k].end() <= r.served
        },
    }
}

/// The term that a node leads.
pub open spec fn leading(v: NodeView) -> Option<u64> {
    if v.role == Role::Leader {
        Some(v.term)
    } else {
        None
    }
}

/// What holds of a replica between happenings.
spec fn replica_ok(calm: bool, h: History, starts: Map<u64, u64>, grants: Seq<Grant>, r: ReplicaView) -> bool {
    &&& r.node.pending is None
    &&& r.node.outbox.len() == 0
    &&& r.led == leading(r.node)
    &&& tracks(calm, h, r)
    &&& cursor_ok(h, starts, grants, r)
}

/// What holds of the grants.
spec fn grants_ok(h: History, voters: Seq<u64>, starts: Map<u64, u64>, grants: Seq<Grant>) -> bool {
    &&& forall|k: int|
        0 <= k < grants.len() ==> grant_ok(h, voters, starts, #[trigger] grants[k])
    &&& forall|j: int, k: int|
        #![trigger grants[j], grants[k]]
        0 <= j < k < grants.len() && grants[j].term == grants[k].term ==> grants[j].end()
            <= grants[k].first
}

impl Record {
    /// What holds of a group.
    #[verifier::opaque]
    spec fn describes(self, o: Oracle) -> bool {
        &&& self.h.describes(o.raft())
        &&& starts_ok(self.h, self.starts)
        &&& grants_ok(self.h, o.voters, self.starts, o.grants)
        &&& forall|id: u64| #[trigger]
            o.replicas.contains_key(id) ==> replica_ok(
                self.calm,
                self.h,
                self.starts,
                o.grants,
                o.replicas[id],
            )
        &&& forall|m: MessageView| #[trigger] o.sent.contains(m) ==> faithful(self.calm, self.h, m)
    }
}

/// What is settled up to the mark.
proof fn lemma_mark_settled(h: History, voters: Seq<u64>, id: u64, v: NodeView)
    requires
        h.node_ok(voters, id, v),
    ensures
        h.settled(voters, h.full[id], mark(v) as int, v.term as int),
        mark(v) <= h.full[id].len(),
        v.commit <= h.full[id].len(),
        v.st.base() <= h.full[id].len(),
{
    let full = h.full[id];
    let u = v.term as int;
    if v.st.base() < v.applied {
        let (t, j) = choose|t: u64, j: int| #[trigger]
            h.chosen(voters, t, j) && t <= u && v.commit <= j && h.holds(full, t, v.commit as int);
        history::lemma_holds_less(full, h.tlog[t], v.commit as int, v.applied as int);
        assert(h.chosen(voters, t, j) && h.holds(full, t, v.applied as int));
    }
    steps::lemma_settled_len(h, voters, full, mark(v) as int, u);
    steps::lemma_settled_len(h, voters, full, v.commit as int, u);
}

/// What was settled is in every log in which as much is settled later.
proof fn lemma_front_kept(
    h: History,
    g: History,
    id: u64,
    voters: Seq<u64>,
    a: Seq<EntryView>,
    n: int,
    ta: int,
    b: Seq<EntryView>,
    c: int,
    tb: int,
)
    requires
        h.grows(g, id),
        g.ok(voters),
        h.settled(voters, a, n, ta),
        g.settled(voters, b, c, tb),
        0 <= n <= c,
    ensures
        n <= a.len(),
        n <= b.len(),
        a.take(n) == b.take(n),
{
    history::lemma_settled_grows(h, g, id, voters, a, n, ta);
    steps::lemma_settled_len(g, voters, a, n, ta);
    steps::lemma_settled_len(g, voters, b, c, tb);
    assert forall|i: int| 0 <= i < n implies a[i] == b[i] by {
        history::lemma_settled_agree(g, voters, a, b, n, c, ta, tb, i + 1);
    }
    assert(a.take(n) =~= b.take(n));
}

/// A replica's ledger is that of the log that it has applied, or will be once it has adopted the
/// snapshot that was installed.
spec fn reached(calm: bool, g: History, x: ReplicaView) -> bool {
    let log = g.full[x.node.id].take(mark(x.node) as int);
    &&& covered(calm, g, x.node)
    &&& match x.node.pending {
        None => ledger(x.fsm) == replayed(log) && (calm ==> x.fsm == state(log)),
        Some((_, data)) => {
            &&& x.node.role == Role::Follower
            &&& vouches(calm, data, log)
            &&& ledger(x.fsm).within(replayed(log))
            &&& calm ==> early(x.fsm, log)
        },
    }
}

/// What holds of a replica whose node has reacted.
spec fn reacted(calm: bool, h: History, g: History, r: ReplicaView, x: ReplicaView) -> bool {
    &&& reached(calm, g, x)
    &&& x.node.role == Role::Leader ==> if r.node.role == Role::Leader {
        x.node.term == r.node.term
    } else {
        !h.elected.contains_key(x.node.term)
    }
}

/// Where no snapshot was installed, the ledger is that of the same entries.
proof fn lemma_still(calm: bool, h: History, g: History, voters: Seq<u64>, id: u64, r: ReplicaView, w: NodeView)
    requires
        h.node_ok(voters, id, r.node),
        g.good(voters, id, w),
        h.grows(g, id),
        tracks(calm, h, r),
        frame::still(r.node, w),
    ensures
        tracks(calm, g, (ReplicaView { node: w, ..r })),
{
    let v = r.node;
    lemma_mark_settled(h, voters, id, v);
    lemma_mark_settled(g, voters, id, w);
    let (a, b) = (h.full[id], g.full[id]);
    let m = mark(v) as int;
    let base = v.st.base() as int;
    lemma_front_kept(h, g, id, voters, a, m, v.term as int, b, mark(w) as int, w.term as int);
    assert(a.take(m).take(base) =~= a.take(base));
    assert(b.take(m).take(base) =~= b.take(base));
}

/// An installed snapshot holds the ledger of the log that it stands for.
proof fn lemma_installed(o: Oracle, rec: Record, g: History, m: MessageView)
    requires
        rec.describes(o),
        o.allows((Happening::Deliver { m })),
        g.good(o.voters, m.to, o.replicas[m.to].node.step(m)),
        rec.h.grows(g, m.to),
        frame::installed(o.replicas[m.to].node, o.replicas[m.to].node.step(m), m),
    ensures
        ({
            let w = o.replicas[m.to].node.step(m);
            let log = g.full[m.to].take(mark(w) as int);
            &&& covered(rec.calm, g, w)
            &&& vouches(rec.calm, (w.pending->0).1, log)
            &&& ledger(o.replicas[m.to].fsm).within(replayed(log))
            &&& rec.calm ==> early(o.replicas[m.to].fsm, log)
        }),
{
    reveal(Record::describes);
    let h = rec.h;
    let id = m.to;
    let r = o.replicas[id];
    let v = r.node;
    let w = v.step(m);
    let c = o.raft();
    assert(c.nodes.contains_key(id) && c.nodes[id] == v);
    assert(c.allows(Event::Deliver { m }));
    assert(h.message_ok(o.voters, m));
    assert(faithful(rec.calm, h, m));
    let index = w.commit as int;
    assert(mark(w) == index);
    lemma_mark_settled(h, o.voters, id, v);
    assert(replica_ok(rec.calm, h, rec.starts, o.grants, r));
    assert(v.st.base() <= index) by {
        steps::lemma_store(h, o.voters, id, v);
    }
    lemma_front_kept(
        h,
        g,
        id,
        o.voters,
        h.tlog[m.term],
        index,
        m.term as int,
        g.full[id],
        index,
        w.term as int,
    );
    lemma_front_kept(
        h,
        g,
        id,
        o.voters,
        h.full[id],
        mark(v) as int,
        v.term as int,
        g.full[id],
        index,
        w.term as int,
    );
    lemma_longer(g.full[id], mark(v) as int, index);
    let log = g.full[id].take(index);
    assert(log.take(mark(v) as int) =~= g.full[id].take(mark(v) as int));
}

/// Who comes to lead wins a term that nobody had won.
proof fn lemma_new_term(h: History, g: History, voters: Seq<u64>, id: u64, v: NodeView, w: NodeView)
    requires
        h.ok(voters),
        h.node_ok(voters, id, v),
        g.node_ok(voters, id, w),
        h.grows(g, id),
        w.role == Role::Leader,
        w.term == v.term + 1 || (v.role == Role::Candidate && w.term == v.term),
    ensures
        !h.elected.contains_key(w.term),
{
    if h.elected.contains_key(w.term) {
        assert(g.elected[w.term] == h.elected[w.term]);
        assert(g.leader_ok(w));
        assert(h.term_ok(voters, w.term));
        assert(h.clog.contains_key((id, w.term)));
    }
}

/// The replica's node reacts.
#[verifier::spinoff_prover]
#[verifier::rlimit(40)]
proof fn lemma_touched(o: Oracle, rec: Record, e: Happening) -> (g: History)
    requires
        rec.describes(o),
        o.allows(e),
        e is Tick || e is Deliver || e is Propose || e is Drain,
    ensures
        g.good(o.voters, e.node(), o.touched(e).node),
        rec.h.grows(g, e.node()),
        frame::fair(o.touched(e).node),
        reacted(rec.calm, rec.h, g, o.replicas[e.node()], o.touched(e)),
{
    reveal(Oracle::touched);
    reveal(Record::describes);
    let h = rec.h;
    let id = e.node();
    let r = o.replicas[id];
    let v = r.node;
    let c = o.raft();
    assert(c.nodes.contains_key(id) && c.nodes[id] == v);
    assert(e.event().node() == id);
    let w = c.react(e.event());
    let g = safety::lemma_react(c, h, e.event());
    assert(replica_ok(rec.calm, h, rec.starts, o.grants, r));
    match e {
        Happening::Tick { .. } => {
            frame::lemma_tick_frame(v);
            lemma_still(rec.calm, h, g, o.voters, id, r, w);
            if v.role != Role::Leader && w.role == Role::Leader {
                lemma_new_term(h, g, o.voters, id, v, w);
            }
        },
        Happening::Deliver { m } => {
            assert(h.message_ok(o.voters, m));
            assert(m.well_formed());
            frame::lemma_step_frame(v, m);
            if frame::still(v, w) {
                lemma_still(rec.calm, h, g, o.voters, id, r, w);
            } else {
                lemma_installed(o, rec, g, m);
            }
            if v.role != Role::Leader && w.role == Role::Leader {
                lemma_new_term(h, g, o.voters, id, v, w);
            }
        },
        Happening::Propose { data, .. } => {
            frame::lemma_propose_frame(v, data);
            lemma_still(rec.calm, h, g, o.voters, id, r, w);
        },
        _ => {
            assert(w == v) by {
                assert(v.outbox =~= Seq::<MessageView>::empty());
            }
            lemma_still(rec.calm, h, g, o.voters, id, r, w);
        },
    }
    g
}

/// A new leader appends its entry.
#[verifier::spinoff_prover]
#[verifier::rlimit(40)]
proof fn lemma_crowned(
    rec: Record,
    g: History,
    voters: Seq<u64>,
    grants: Seq<Grant>,
    r: ReplicaView,
    x: ReplicaView,
) -> (k: History)
    requires
        rec.h.ok(voters),
        rec.h.node_ok(voters, r.node.id, r.node),
        g.good(voters, r.node.id, x.node),
        rec.h.grows(g, r.node.id),
        starts_ok(rec.h, rec.starts),
        replica_ok(rec.calm, rec.h, rec.starts, grants, r),
        x == (ReplicaView { node: x.node, ..r }),
        reacted(rec.calm, rec.h, g, r, x),
        frame::fair(x.node),
        x.node.st.last_index() < u64::MAX - 1,
    ensures
        k.good(voters, r.node.id, x.crowned().node),
        rec.h.grows(k, r.node.id),
        frame::fair(x.crowned().node),
        reached(rec.calm, k, x.crowned()),
        cursor_ok(k, rec.starts, grants, x.crowned()),
        x.crowned().led == leading(x.crowned().node),
{
    let h = rec.h;
    let id = r.node.id;
    let w = x.node;
    let y = x.crowned();
    if w.role == Role::Leader {
        assert(g.leader_ok(w));
        assert(g.term_ok(voters, w.term));
        if x.led != Some(w.term) {
            let none = Seq::<u8>::empty();
            let k = steps::lemma_propose(g, voters, id, w, none);
            frame::lemma_propose_frame(w, none);
            lemma_still(rec.calm, g, k, voters, id, x, y.node);
            history::lemma_grows_both(h, g, k, id);
            steps::lemma_store(g, voters, id, w);
            assert(g.clog.contains_key((id, w.term)));
            k
        } else {
            assert(h.leader_ok(r.node));
            assert(h.term_ok(voters, w.term));
            assert(h.clog.contains_key((id, w.term)));
            g
        }
    } else {
        g
    }
}

/// A snapshot that has no less is adopted as it is.
proof fn lemma_restored(calm: bool, f: FsmView, data: Seq<u8>, log: Seq<EntryView>)
    requires
        vouches(calm, data, log),
        ledger(f).within(replayed(log)),
        calm ==> early(f, log),
        log.len() < u64::MAX,
    ensures
        ledger(f.restore(data)) == replayed(log),
        calm ==> f.restore(data) == state(log),
{
    if calm {
        let i = choose|i: int| 0 <= i <= log.len() && f == #[trigger] state(log.take(i));
        let n = log.len() as int;
        lemma_settings(log, i, n);
        lemma_settings(log, i, i);
        assert(log.take(n) =~= log);
        assert(f.restore(data) =~= state(log));
    }
}

/// An installed snapshot is adopted.
proof fn lemma_caught_up(calm: bool, k: History, voters: Seq<u64>, id: u64, y: ReplicaView)
    requires
        k.good(voters, id, y.node),
        reached(calm, k, y),
    ensures
        k.good(voters, id, y.caught_up().node),
        tracks(calm, k, y.caught_up()),
{
    steps::lemma_quiet(k, voters, id, y.node, y.caught_up().node);
    if let Some((_, data)) = y.node.pending {
        lemma_mark_settled(k, voters, id, y.node);
        lemma_restored(calm, y.fsm, data, k.full[id].take(mark(y.node) as int));
    }
}

/// The committed entries that are still to be applied.
proof fn lemma_committed(k: History, voters: Seq<u64>, id: u64, v: NodeView)
    requires
        k.good(voters, id, v),
    ensures
        mark(v) <= node::larger(mark(v), v.commit) <= k.full[id].len(),
        v.committed() == k.full[id].subrange(mark(v) as int, node::larger(mark(v), v.commit) as int),
{
    lemma_mark_settled(k, voters, id, v);
    steps::lemma_store(k, voters, id, v);
    let full = k.full[id];
    let m = mark(v) as int;
    assert(v.st.log == full.skip(v.st.base() as int));
    assert(v.committed() =~= full.subrange(m, node::larger(mark(v), v.commit) as int));
}

/// The committed entries are applied.
#[verifier::spinoff_prover]
#[verifier::rlimit(40)]
proof fn lemma_applied(calm: bool, k: History, voters: Seq<u64>, id: u64, a: ReplicaView)
    requires
        k.good(voters, id, a.node),
        tracks(calm, k, a),
    ensures
        k.good(voters, id, a.settled().node),
        tracks(calm, k, a.settled()),
{
    let v = a.node;
    let w = a.settled().node;
    steps::lemma_quiet(k, voters, id, v, w);
    lemma_committed(k, voters, id, v);
    let full = k.full[id];
    let m = mark(v) as int;
    let n = mark(w) as int;
    assert(n == node::larger(mark(v), v.commit));
    assert(full.take(m) + v.committed() =~= full.take(n));
    lemma_replay(a.fsm, full.take(m), v.committed());
    lemma_state(full.take(m), v.committed());
}

/// The cursor is reset where it is due.
proof fn lemma_cursor(rec: Record, k: History, voters: Seq<u64>, grants: Seq<Grant>, b: ReplicaView) -> (
    starts: Map<u64, u64>)
    requires
        k.good(voters, b.node.id, b.node),
        tracks(rec.calm, k, b),
        cursor_ok(k, rec.starts, grants, b),
        starts_ok(k, rec.starts),
        grants_ok(k, voters, rec.starts, grants),
    ensures
        cursor_ok(k, starts, grants, b.reset_cursor()),
        starts_ok(k, starts),
        forall|u: u64| #[trigger]
            rec.starts.contains_key(u) ==> starts.contains_key(u) && starts[u] == rec.starts[u],
        forall|u: u64| #[trigger]
            starts.contains_key(u) && u != b.node.term ==> rec.starts.contains_key(u),
        b.node.role != Role::Leader ==> starts == rec.starts,
{
    let v = b.node;
    if v.role == Role::Leader && b.reset is Some && v.applied >= b.reset->0 {
        let starts = rec.starts.insert(v.term, b.fsm.tso_upper);
        assert(k.leader_ok(v));
        assert(k.term_ok(voters, v.term));
        let l = k.clog[(v.id, v.term)];
        let full = k.full[v.id];
        lemma_mark_settled(k, voters, v.id, v);
        assert(full.take(l.len() as int) == l);
        lemma_longer(full, l.len() as int, mark(v) as int);
        assert forall|i: int|
            0 <= i < grants.len() && (#[trigger] grants[i]).term == v.term implies grants[i].end()
            <= b.fsm.tso_upper by {
            assert(grant_ok(k, voters, rec.starts, grants[i]));
        }
        starts
    } else {
        rec.starts
    }
}

/// The log is compacted.
proof fn lemma_trimmed(calm: bool, k: History, voters: Seq<u64>, id: u64, c: ReplicaView)
    requires
        k.good(voters, id, c.node),
        tracks(calm, k, c),
        legible(c.fsm),
    ensures
        k.good(voters, id, c.trimmed().node),
        tracks(calm, k, c.trimmed()),
{
    steps::lemma_compact(k, voters, id, c.node, c.node.applied, c.fsm.bytes());
}

/// Starts and grants stay in order.
proof fn lemma_grants_grow(rec: Record, k: History, id: u64, voters: Seq<u64>, grants: Seq<Grant>)
    requires
        rec.h.ok(voters),
        rec.h.grows(k, id),
        starts_ok(rec.h, rec.starts),
        grants_ok(rec.h, voters, rec.starts, grants),
    ensures
        starts_ok(k, rec.starts),
        grants_ok(k, voters, rec.starts, grants),
{
    let h = rec.h;
    assert forall|u: u64| #[trigger] rec.starts.contains_key(u) implies k.elected.contains_key(u)
        && rec.starts[u] >= high(k.clog[(k.elected[u], u)]) by {
        assert(h.elected.contains_key(u));
        assert(h.term_ok(voters, u));
        assert(h.clog.contains_key((h.elected[u], u)));
    }
    assert forall|i: int| 0 <= i < grants.len() implies grant_ok(
        k,
        voters,
        rec.starts,
        #[trigger] grants[i],
    ) by {
        let g = grants[i];
        assert(grant_ok(h, voters, rec.starts, g));
        let (log, c) = choose|log: Seq<EntryView>, c: int| #[trigger]
            h.settled(voters, log, c, g.term as int) && 0 <= c <= log.len() && g.end() <= high(
                log.take(c),
            );
        history::lemma_settled_grows(h, k, id, voters, log, c, g.term as int);
    }
}

/// More starts do not matter to the grants.
proof fn lemma_grants_more(
    k: History,
    voters: Seq<u64>,
    a: Map<u64, u64>,
    b: Map<u64, u64>,
    grants: Seq<Grant>,
)
    requires
        grants_ok(k, voters, a, grants),
        forall|u: u64| #[trigger] a.contains_key(u) ==> b.contains_key(u) && b[u] == a[u],
    ensures
        grants_ok(k, voters, b, grants),
{
    assert forall|i: int| 0 <= i < grants.len() implies grant_ok(
        k,
        voters,
        b,
        #[trigger] grants[i],
    ) by {
        assert(grant_ok(k, voters, a, grants[i]));
    }
}

/// The snapshots under way stay in order.
proof fn lemma_faithful_grows(calm: bool, h: History, k: History, id: u64, voters: Seq<u64>, m: MessageView)
    requires
        h.grows(k, id),
        h.message_ok(voters, m),
        faithful(calm, h, m),
    ensures
        faithful(calm, k, m),
{
    match m.body {
        BodyView::InstallSnapshot { last_included_index, .. } => {
            let (a, b) = (h.tlog[m.term], k.tlog[m.term]);
            let i = last_included_index as int;
            assert(h.elected.contains_key(m.term));
            assert(b.take(a.len() as int).take(i) =~= b.take(i));
        },
        _ => {},
    }
}

/// The other replicas stay in order.
proof fn lemma_other_replica(
    rec: Record,
    k: History,
    starts: Map<u64, u64>,
    id: u64,
    voters: Seq<u64>,
    grants: Seq<Grant>,
    r: ReplicaView,
    term: u64,
)
    requires
        rec.h.ok(voters),
        rec.h.grows(k, id),
        r.node.id != id,
        rec.h.node_ok(voters, r.node.id, r.node),
        replica_ok(rec.calm, rec.h, rec.starts, grants, r),
        forall|u: u64| #[trigger]
            rec.starts.contains_key(u) ==> starts.contains_key(u) && starts[u] == rec.starts[u],
        forall|u: u64| #[trigger]
            starts.contains_key(u) && u != term ==> rec.starts.contains_key(u),
        starts != rec.starts ==> k.elected.contains_key(term) && k.elected[term] == id,
    ensures
        replica_ok(rec.calm, k, starts, grants, r),
{
    let h = rec.h;
    assert(k.full[r.node.id] == h.full[r.node.id]);
    if r.node.role == Role::Leader {
        assert(h.leader_ok(r.node));
        assert(h.term_ok(voters, r.node.term));
        assert(h.clog.contains_key((r.node.id, r.node.term)));
    }
}

/// What a replica sent while it was at work is in order.
proof fn lemma_sent(calm: bool, k: History, voters: Seq<u64>, id: u64, y: ReplicaView, m: MessageView)
    requires
        k.good(voters, id, y.node),
        frame::fair(y.node),
        covered(calm, k, y.node),
        y.node.outbox.contains(m),
    ensures
        faithful(calm, k, m),
{
    let i = choose|i: int| 0 <= i < y.node.outbox.len() && y.node.outbox[i] == m;
    assert(frame::carried(y.node, y.node.outbox[i]));
    if y.node.role == Role::Leader {
        assert(k.leader_ok(y.node));
    }
}

/// What one replica at work leaves behind.
spec fn worked(o: Oracle, rec: Record, id: u64, x: ReplicaView, k: History, starts: Map<u64, u64>) -> bool {
    let (p, z) = (x.prepared(), x.ready());
    &&& rec.h.grows(k, id)
    &&& k.good(o.voters, id, p.node)
    &&& k.good(o.voters, id, z.node)
    &&& replica_ok(rec.calm, k, starts, o.grants, z)
    &&& starts_ok(k, starts)
    &&& grants_ok(k, o.voters, starts, o.grants)
    &&& forall|m: MessageView| #[trigger] p.node.outbox.contains(m) ==> faithful(rec.calm, k, m)
    &&& forall|u: u64| #[trigger]
        rec.starts.contains_key(u) ==> starts.contains_key(u) && starts[u] == rec.starts[u]
    &&& forall|u: u64| #[trigger]
        starts.contains_key(u) && u != z.node.term ==> rec.starts.contains_key(u)
    &&& starts != rec.starts ==> k.elected.contains_key(z.node.term) && k.elected[z.node.term] == id
}

/// Draining a replica whose node has reacted.
#[verifier::spinoff_prover]
#[verifier::rlimit(60)]
proof fn lemma_work(o: Oracle, rec: Record, id: u64, x: ReplicaView, g: History) -> (r: (
    History,
    Map<u64, u64>,
))
    requires
        rec.h.ok(o.voters),
        starts_ok(rec.h, rec.starts),
        grants_ok(rec.h, o.voters, rec.starts, o.grants),
        rec.h.node_ok(o.voters, id, o.replicas[id].node),
        replica_ok(rec.calm, rec.h, rec.starts, o.grants, o.replicas[id]),
        x == (ReplicaView { node: x.node, ..o.replicas[id] }),
        g.good(o.voters, id, x.node),
        rec.h.grows(g, id),
        frame::fair(x.node),
        reacted(rec.calm, rec.h, g, o.replicas[id], x),
        drains(x),
    ensures
        worked(o, rec, id, x, r.0, r.1),
{
    let k = lemma_crowned(rec, g, o.voters, o.grants, o.replicas[id], x);
    let y = x.crowned();
    lemma_caught_up(rec.calm, k, o.voters, id, y);
    lemma_applied(rec.calm, k, o.voters, id, y.caught_up());
    let b = y.caught_up().settled();
    lemma_grants_grow(rec, k, id, o.voters, o.grants);
    assert(cursor_ok(k, rec.starts, o.grants, b));
    let starts = lemma_cursor(rec, k, o.voters, o.grants, b);
    let d = b.reset_cursor();
    lemma_trimmed(rec.calm, k, o.voters, id, d);
    let p = x.prepared();
    let z = x.ready();
    lemma_emptied(k, o.voters, id, p.node);
    lemma_grants_more(k, o.voters, rec.starts, starts, o.grants);
    if b.node.role == Role::Leader {
        assert(k.leader_ok(b.node));
    }
    assert forall|m: MessageView| #[trigger] p.node.outbox.contains(m) implies faithful(rec.calm, k, m) by {
        assert(p.node.outbox == y.node.outbox);
        lemma_sent(rec.calm, k, o.voters, id, y, m);
    }
    (k, starts)
}

/// Taking the messages changes nothing else.
proof fn lemma_emptied(k: History, voters: Seq<u64>, id: u64, p: NodeView)
    requires
        k.good(voters, id, p),
    ensures
        k.good(voters, id, (NodeView { outbox: Seq::empty(), ..p })),
{
    let z = NodeView { outbox: Seq::<MessageView>::empty(), ..p };
    node::lemma_conf_same(z, p, p.st.last_index());
    assert(k.acks_ok(z)) by {
        reveal(History::acks_ok);
    }
}

/// A replica reacts, and its effects are drained.
#[verifier::spinoff_prover]
#[verifier::rlimit(40)]
proof fn lemma_drained(o: Oracle, rec: Record, e: Happening) -> (next: Record)
    requires
        rec.describes(o),
        o.allows(e),
        e is Tick || e is Deliver || e is Propose || e is Drain,
    ensures
        next.describes(o.after(e)),
        next.calm == rec.calm,
        rec.h.grows(next.h, e.node()),
{
    reveal(Oracle::touched);
    reveal(Oracle::after);
    reveal(Record::describes);
    let h = rec.h;
    let id = e.node();
    let x = o.touched(e);
    let c = o.raft();
    assert(c.nodes.contains_key(id) && c.nodes[id] == o.replicas[id].node);
    let g = lemma_touched(o, rec, e);
    let (k, starts) = lemma_work(o, rec, id, x, g);
    let (p, z) = (x.prepared(), x.ready());
    let n = o.after(e);
    lemma_rest(o, rec, k, id, p.node, z.node);
    assert(n.raft() =~= (Cluster {
        nodes: c.nodes.insert(id, z.node),
        sent: c.sent.union(p.node.outbox.to_set()),
        ..c
    }));
    assert forall|i: u64| #[trigger] n.replicas.contains_key(i) implies replica_ok(
        rec.calm,
        k,
        starts,
        n.grants,
        n.replicas[i],
    ) by {
        if i != id {
            assert(o.replicas.contains_key(i));
            assert(c.nodes.contains_key(i) && c.nodes[i] == o.replicas[i].node);
            lemma_other_replica(
                rec,
                k,
                starts,
                id,
                o.voters,
                o.grants,
                o.replicas[i],
                z.node.term,
            );
        }
    }
    assert forall|m: MessageView| #[trigger] n.sent.contains(m) implies faithful(rec.calm, k, m) by {
        if o.sent.contains(m) {
            assert(c.sent.contains(m));
            lemma_faithful_grows(rec.calm, h, k, id, o.voters, m);
        } else {
            assert(p.node.outbox.contains(m));
        }
    }
    Record { h: k, starts, calm: rec.calm }
}

/// The rest of the group, after a replica's messages were taken.
proof fn lemma_rest(o: Oracle, rec: Record, k: History, id: u64, p: NodeView, z: NodeView)
    requires
        rec.describes(o),
        rec.h.grows(k, id),
        k.good(o.voters, id, p),
        k.good(o.voters, id, z),
        z.outbox.len() == 0,
    ensures
        k.describes(
            (Cluster {
                nodes: o.raft().nodes.insert(id, z),
                sent: o.sent.union(p.outbox.to_set()),
                ..o.raft()
            }),
        ),
{
    reveal(Record::describes);
    let c = o.raft();
    safety::lemma_rest(c, rec.h, k, id, p);
    let d = Cluster {
        nodes: c.nodes.insert(id, p),
        sent: c.sent.union(p.outbox.to_set()),
        ..c
    };
    history::lemma_grows_same(k, id);
    safety::lemma_rest(d, k, k, id, z);
    assert(d.nodes.insert(id, z) =~= c.nodes.insert(id, z));
    assert(d.sent.union(z.outbox.to_set()) =~= d.sent);
}

/// Timestamps are handed out.
proof fn lemma_granted(o: Oracle, rec: Record, id: u64, count: u64)
    requires
        rec.describes(o),
        o.replicas.contains_key(id),
    ensures
        rec.describes(o.after((Happening::HandOut { id, count }))),
{
    reveal(Oracle::after);
    reveal(Record::describes);
    let h = rec.h;
    let r = o.replicas[id];
    let v = r.node;
    let n = o.after(Happening::HandOut { id, count });
    let c = o.raft();
    assert(c.nodes.contains_key(id) && c.nodes[id] == v);
    assert(n.raft() =~= c);
    assert(replica_ok(rec.calm, h, rec.starts, o.grants, r));
    if r.hand_out(count) is Some {
        let g = Grant { term: v.term, first: r.served, count: at_least_one(count) };
        lemma_mark_settled(h, o.voters, id, v);
        assert(h.leader_ok(v));
        assert(h.settled(o.voters, h.full[id], mark(v) as int, g.term as int) && g.end() <= high(
            h.full[id].take(mark(v) as int),
        ));
        assert(grant_ok(h, o.voters, rec.starts, g));
        assert forall|i: int| 0 <= i < n.grants.len() implies grant_ok(
            h,
            o.voters,
            rec.starts,
            #[trigger] n.grants[i],
        ) by {
            if i < o.grants.len() {
                assert(n.grants[i] == o.grants[i]);
            }
        }
        assert forall|i: int, j: int|
            #![trigger n.grants[i], n.grants[j]]
            0 <= i < j < n.grants.len() && n.grants[i].term == n.grants[j].term implies n.grants[i].end()
            <= n.grants[j].first by {
            assert(n.grants[i] == o.grants[i]);
            if j < o.grants.len() {
                assert(n.grants[j] == o.grants[j]);
            }
        }
        assert forall|i: u64| #[trigger] n.replicas.contains_key(i) implies replica_ok(
            rec.calm,
            h,
            rec.starts,
            n.grants,
            n.replicas[i],
        ) by {
            assert(o.replicas.contains_key(i));
            let q = o.replicas[i];
            assert(c.nodes.contains_key(i) && c.nodes[i] == q.node);
            assert(replica_ok(rec.calm, h, rec.starts, o.grants, q));
            if q.node.role == Role::Leader {
                assert(h.leader_ok(q.node));
                assert forall|a: int|
                    0 <= a < n.grants.len() && (#[trigger] n.grants[a]).term == q.node.term
                        && q.reset is None implies n.grants[a].end() <= n.replicas[i].served by {
                    if a < o.grants.len() {
                        assert(n.grants[a] == o.grants[a]);
                    }
                }
            }
        }
    } else {
        assert(n.replicas =~= o.replicas);
    }
}

/// Silent data nodes are marked down.
proof fn lemma_swept(o: Oracle, rec: Record, e: Happening) -> (next: Record)
    requires
        rec.describes(o),
        o.replicas.contains_key(e.node()),
        e is Sweep,
    ensures
        next.describes(o.after(e)),
        next.h == rec.h,
{
    reveal(Oracle::after);
    reveal(Record::describes);
    let n = o.after(e);
    let next = Record { calm: false, ..rec };
    assert(n.raft() =~= o.raft());
    assert forall|i: u64| #[trigger] n.replicas.contains_key(i) implies replica_ok(
        false,
        rec.h,
        rec.starts,
        n.grants,
        n.replicas[i],
    ) by {
        assert(o.replicas.contains_key(i));
        assert(replica_ok(rec.calm, rec.h, rec.starts, o.grants, o.replicas[i]));
    }
    assert forall|m: MessageView| #[trigger] n.sent.contains(m) implies faithful(false, rec.h, m) by {
        assert(faithful(rec.calm, rec.h, m));
    }
    next
}

/// The state of a new machine is that of the empty log.
proof fn lemma_fresh(log: Seq<EntryView>)
    ensures
        state(log.take(0)) == FsmView::fresh(),
        early(FsmView::fresh(), log),
        ledger(FsmView::fresh()).within(replayed(log)),
{
    reveal(state);
    assert(log.take(0) =~= Seq::<EntryView>::empty());
    assert(FsmView::fresh() == state(log.take(0)));
    lemma_longer(log, 0, log.len() as int);
    assert(log.take(log.len() as int) =~= log);
}

/// A replica that starts again has the state of its snapshot.
proof fn lemma_reborn(calm: bool, h: History, voters: Seq<u64>, id: u64, v: NodeView)
    requires
        h.node_ok(voters, id, v),
        covered(calm, h, v),
    ensures
        tracks(calm, h, ReplicaView::start(id, voters, v.st)),
        ReplicaView::start(id, voters, v.st).node.role == Role::Follower,
        ReplicaView::start(id, voters, v.st).node.pending is None,
        ReplicaView::start(id, voters, v.st).node.outbox.len() == 0,
{
    let w = NodeView::start(id, voters, 10, 1, node::default_seed(id), v.st);
    safety::law_restart(v, 10, 1, node::default_seed(id));
    lemma_mark_settled(h, voters, id, v);
    let log = h.full[id].take(v.st.base() as int);
    assert(mark(w) == v.st.base());
    lemma_fresh(log);
    match v.st.snap {
        Some(sn) => lemma_restored(calm, FsmView::fresh(), sn.data, log),
        None => {
            assert(log.take(0) =~= log);
        },
    }
}

/// A replica starts again.
proof fn lemma_restarted(o: Oracle, rec: Record, id: u64)
    requires
        rec.describes(o),
        o.allows((Happening::Restart { id })),
    ensures
        rec.describes(o.after((Happening::Restart { id }))),
{
    reveal(Oracle::after);
    reveal(Record::describes);
    let h = rec.h;
    let v = o.replicas[id].node;
    let n = o.after(Happening::Restart { id });
    let c = o.raft();
    assert(c.nodes.contains_key(id) && c.nodes[id] == v);
    assert(replica_ok(rec.calm, h, rec.starts, o.grants, o.replicas[id]));
    lemma_reborn(rec.calm, h, o.voters, id, v);
    let w = ReplicaView::start(id, o.voters, v.st).node;
    steps::lemma_restart(h, o.voters, id, v, 10, 1, node::default_seed(id));
    history::lemma_grows_same(h, id);
    lemma_rest(o, rec, h, id, w, w);
    assert(n.raft() =~= (Cluster {
        nodes: c.nodes.insert(id, w),
        sent: c.sent.union(w.outbox.to_set()),
        ..c
    }));
}

/// A new group has nothing on record.
proof fn lemma_first(o: Oracle) -> (rec: Record)
    requires
        o.initial(),
    ensures
        rec.describes(o),
        rec.calm,
{
    reveal(state);
    reveal(Record::describes);
    let c = o.raft();
    assert forall|id: u64| #[trigger] c.nodes.contains_key(id) implies cluster::started(
        c.nodes[id],
        id,
        c.voters,
    ) by {
        let v = o.replicas[id].node;
        assert(o.replicas.contains_key(id));
        assert(v == NodeView::start(
            id,
            c.voters,
            v.election_timeout,
            v.heartbeat_timeout,
            node::default_seed(id),
            StorageView::fresh(),
        ));
    }
    assert forall|id: u64| #[trigger] c.voters.contains(id) implies c.nodes.contains_key(id) by {
        assert(o.voters.contains(id));
    }
    let h = safety::lemma_initial(c);
    let rec = Record { h, starts: Map::empty(), calm: true };
    assert forall|id: u64| #[trigger] o.replicas.contains_key(id) implies replica_ok(
        rec.calm,
        h,
        rec.starts,
        o.grants,
        o.replicas[id],
    ) by {
        let r = o.replicas[id];
        assert(c.nodes.contains_key(id));
        assert(h.full[r.node.id].take(0) =~= Seq::<EntryView>::empty());
    }
    rec
}

/// Whatever happens is on record.
#[verifier::spinoff_prover]
#[verifier::rlimit(40)]
proof fn lemma_happening(o: Oracle, rec: Record, e: Happening) -> (next: Record)
    requires
        rec.describes(o),
        o.allows(e),
    ensures
        next.describes(o.after(e)),
        o.after(e).voters == o.voters,
        e !is Sweep ==> next.calm == rec.calm,
        rec.h.grows(next.h, e.node()),
{
    reveal(Oracle::after);
    history::lemma_grows_same(rec.h, e.node());
    match e {
        Happening::HandOut { id, count } => {
            lemma_granted(o, rec, id, count);
            rec
        },
        Happening::Sweep { .. } => {
            lemma_swept(o, rec, e)
        },
        Happening::Restart { id } => {
            lemma_restarted(o, rec, id);
            rec
        },
        _ => lemma_drained(o, rec, e),
    }
}

/// Every reachable state is on record.
#[verifier::spinoff_prover]
#[verifier::rlimit(40)]
proof fn lemma_run(o: Oracle, es: Seq<Happening>) -> (rec: Record)
    requires
        o.initial(),
        o.lawful(es),
    ensures
        rec.describes(o.run(es)),
        o.run(es).voters == o.voters,
        calm(es) ==> rec.calm,
    decreases es.len(),
{
    if es.len() == 0 {
        lemma_first(o)
    } else {
        let rec = lemma_run(o, es.drop_last());
        assert(calm(es) ==> calm(es.drop_last()) && es.last() !is Sweep);
        lemma_happening(o.run(es.drop_last()), rec, es.last())
    }
}

/// Whether a high-water is settled by some term: entries that are chosen then come to it.
spec fn assured(h: History, voters: Seq<u64>, t: u64, upper: int) -> bool {
    exists|log: Seq<EntryView>, c: int| #[trigger]
        h.settled(voters, log, c, t as int) && 0 <= c <= log.len() && upper <= high(log.take(c))
}

/// What was settled in an earlier term is in front of everything that a later leader starts from.
proof fn lemma_above(rec: Record, voters: Seq<u64>, earlier: u64, upper: int, u: u64)
    requires
        rec.h.ok(voters),
        starts_ok(rec.h, rec.starts),
        assured(rec.h, voters, earlier, upper),
        rec.starts.contains_key(u),
        earlier < u,
    ensures
        upper <= rec.starts[u],
{
    let h = rec.h;
    let (log, c) = choose|log: Seq<EntryView>, c: int| #[trigger]
        h.settled(voters, log, c, earlier as int) && 0 <= c <= log.len() && upper <= high(
            log.take(c),
        );
    let l = h.clog[(h.elected[u], u)];
    assert(h.elected.contains_key(u));
    if c > 0 {
        let (t, j) = choose|t: u64, j: int| #[trigger]
            h.chosen(voters, t, j) && t <= earlier && c <= j && h.holds(log, t, c);
        let n = choose|n: int| #[trigger] h.chosen_at(voters, t, j, n);
        history::lemma_candidate_holds(h, voters, t, j, n, u);
        history::lemma_holds_less(l, h.tlog[t], j, c);
    } else {
        assert(log.take(c) =~= l.take(c));
    }
    assert(log.take(c) == l.take(c));
    assert(l.take(l.len() as int) =~= l);
    lemma_longer(l, c, l.len() as int);
}

/// The high-water that a replica had at an earlier moment stays settled.
proof fn lemma_since(o: Oracle, es: Seq<Happening>, n: int, a: u64) -> (rec: Record)
    requires
        o.initial(),
        o.lawful(es),
        0 <= n <= es.len(),
        o.run(es.take(n)).replicas.contains_key(a),
    ensures
        rec.describes(o.run(es)),
        ({
            let r = o.run(es.take(n)).replicas[a];
            assured(rec.h, o.voters, r.node.term, r.fsm.tso_upper as int)
        }),
    decreases es.len() - n,
{
    let r = o.run(es.take(n)).replicas[a];
    let t = r.node.term;
    let upper = r.fsm.tso_upper as int;
    if n == es.len() {
        reveal(Record::describes);
        assert(es.take(n) =~= es);
        let rec = lemma_run(o, es);
        let c = o.run(es).raft();
        assert(c.nodes.contains_key(a) && c.nodes[a] == r.node);
        lemma_mark_settled(rec.h, o.voters, a, r.node);
        assert(replica_ok(rec.calm, rec.h, rec.starts, o.run(es).grants, r));
        assert(rec.h.settled(o.voters, rec.h.full[a], mark(r.node) as int, t as int));
        rec
    } else {
        let front = es.drop_last();
        assert(front.take(n) =~= es.take(n));
        let before = lemma_since(o, front, n, a);
        let rec = lemma_happening(o.run(front), before, es.last());
        let (log, c) = choose|log: Seq<EntryView>, c: int| #[trigger]
            before.h.settled(o.voters, log, c, t as int) && 0 <= c <= log.len() && upper <= high(
                log.take(c),
            );
        history::lemma_settled_grows(
            before.h,
            rec.h,
            es.last().node(),
            o.voters,
            log,
            c,
            t as int,
        );
        rec
    }
}

/// Timestamps come out of a reserved window above everything before: a replica hands out none, or
/// at least one, below the high-water that is committed, at or above every high-water that a
/// replica of an earlier term ever had, and behind all that it and earlier leaders handed out. That
/// holds at any moment, whatever its node `w` has done since its effects were last drained, such as
/// winning an election.
pub proof fn law_handed_above(
    o: Oracle,
    es: Seq<Happening>,
    n: int,
    a: u64,
    b: u64,
    w: NodeView,
    count: u64,
)
    requires
        o.initial(),
        o.lawful(es),
        0 <= n <= es.len(),
        o.run(es.take(n)).replicas.contains_key(a),
        o.run(es).replicas.contains_key(b),
    ensures
        ({
            let x = o.run(es.take(n)).replicas[a];
            let y = ReplicaView { node: w, ..o.run(es).replicas[b] };
            let grants = o.run(es).grants;
            y.hand_out(count) matches Some(first) ==> {
                &&& first + at_least_one(count) <= y.fsm.tso_upper
                &&& x.node.term < w.term ==> x.fsm.tso_upper <= first
                &&& forall|k: int|
                    0 <= k < grants.len() && (#[trigger] grants[k]).term <= w.term
                        ==> grants[k].end() <= first
            }
        }),
{
    reveal(Record::describes);
    let rec = lemma_since(o, es, n, a);
    lemma_voters(o, es);
    let x = o.run(es.take(n)).replicas[a];
    let r = o.run(es).replicas[b];
    let y = ReplicaView { node: w, ..r };
    let grants = o.run(es).grants;
    assert(replica_ok(rec.calm, rec.h, rec.starts, grants, r));
    if y.hand_out(count) is Some {
        let first = r.served;
        assert(r.node.role == Role::Leader && r.node.term == w.term);
        if x.node.term < w.term {
            lemma_above(rec, o.voters, x.node.term, x.fsm.tso_upper as int, w.term);
        }
        assert forall|k: int|
            0 <= k < grants.len() && (#[trigger] grants[k]).term <= w.term implies grants[k].end()
            <= first by {
            let g = grants[k];
            assert(grant_ok(rec.h, o.voters, rec.starts, g));
            if g.term < w.term {
                lemma_above(rec, o.voters, g.term, g.end(), w.term);
            }
        }
    }
}

/// The voters stay.
proof fn lemma_voters(o: Oracle, es: Seq<Happening>)
    ensures
        o.run(es).voters == o.voters,
    decreases es.len(),
{
    reveal(Oracle::after);
    if es.len() > 0 {
        lemma_voters(o, es.drop_last());
    }
}

/// No timestamp is ever handed out twice, whatever happens to the group: messages lost, repeated or
/// out of order, leaders that fail, are replaced or do not know that they were, replicas that start
/// again, logs that are compacted.
pub proof fn law_timestamps_unique(o: Oracle, es: Seq<Happening>, j: int, k: int)
    requires
        o.initial(),
        o.lawful(es),
        0 <= j < k < o.run(es).grants.len(),
    ensures
        ({
            let (a, b) = (o.run(es).grants[j], o.run(es).grants[k]);
            a.end() <= b.first || b.end() <= a.first
        }),
{
    reveal(Record::describes);
    let rec = lemma_run(o, es);
    let (a, b) = (o.run(es).grants[j], o.run(es).grants[k]);
    assert(grant_ok(rec.h, o.voters, rec.starts, a) && grant_ok(rec.h, o.voters, rec.starts, b));
    if a.term < b.term {
        lemma_above(rec, o.voters, a.term, a.end(), b.term);
    } else if b.term < a.term {
        lemma_above(rec, o.voters, b.term, b.end(), a.term);
    }
}

/// A leader never goes back behind what a leader of an earlier term handed out, and each leader
/// hands out its timestamps in rising order.
pub proof fn law_timestamps_rise(o: Oracle, es: Seq<Happening>, j: int, k: int)
    requires
        o.initial(),
        o.lawful(es),
        0 <= j < o.run(es).grants.len(),
        0 <= k < o.run(es).grants.len(),
    ensures
        ({
            let (a, b) = (o.run(es).grants[j], o.run(es).grants[k]);
            &&& a.term < b.term ==> a.end() <= b.first
            &&& a.term == b.term && j < k ==> a.end() <= b.first
        }),
{
    reveal(Record::describes);
    let rec = lemma_run(o, es);
    let (a, b) = (o.run(es).grants[j], o.run(es).grants[k]);
    assert(grant_ok(rec.h, o.voters, rec.starts, a) && grant_ok(rec.h, o.voters, rec.starts, b));
    if a.term < b.term {
        lemma_above(rec, o.voters, a.term, a.end(), b.term);
    }
}

/// Replicas that have come equally far agree on the high-water, the tables and their ranges; and one
/// that has come further has every table that the other has, no lower a high-water and no lower a
/// next table id. Nothing that was committed is lost when a leader fails.
pub proof fn law_replicas_agree(o: Oracle, es: Seq<Happening>, a: u64, b: u64)
    requires
        o.initial(),
        o.lawful(es),
        o.run(es).replicas.contains_key(a),
        o.run(es).replicas.contains_key(b),
        mark(o.run(es).replicas[a].node) <= mark(o.run(es).replicas[b].node),
    ensures
        ({
            let (x, y) = (o.run(es).replicas[a], o.run(es).replicas[b]);
            &&& ledger(x.fsm).within(ledger(y.fsm))
            &&& mark(x.node) == mark(y.node) ==> ledger(x.fsm) == ledger(y.fsm)
        }),
{
    reveal(Record::describes);
    let rec = lemma_run(o, es);
    let h = rec.h;
    let n = o.run(es);
    let (x, y) = (n.replicas[a], n.replicas[b]);
    let c = n.raft();
    assert(c.nodes.contains_key(a) && c.nodes[a] == x.node);
    assert(c.nodes.contains_key(b) && c.nodes[b] == y.node);
    lemma_mark_settled(h, o.voters, a, x.node);
    lemma_mark_settled(h, o.voters, b, y.node);
    history::lemma_grows_same(h, a);
    lemma_front_kept(
        h,
        h,
        a,
        o.voters,
        h.full[a],
        mark(x.node) as int,
        x.node.term as int,
        h.full[b],
        mark(y.node) as int,
        y.node.term as int,
    );
    lemma_longer(h.full[b], mark(x.node) as int, mark(y.node) as int);
}

/// As long as no replica marks a data node down, replicas that have come equally far hold the same
/// state: the same nodes, the same tables and regions, and the same founders of each.
pub proof fn law_replicas_converge(o: Oracle, es: Seq<Happening>, a: u64, b: u64)
    requires
        o.initial(),
        o.lawful(es),
        calm(es),
        o.run(es).replicas.contains_key(a),
        o.run(es).replicas.contains_key(b),
        mark(o.run(es).replicas[a].node) == mark(o.run(es).replicas[b].node),
    ensures
        o.run(es).replicas[a].fsm == o.run(es).replicas[b].fsm,
{
    reveal(Record::describes);
    let rec = lemma_run(o, es);
    let h = rec.h;
    let n = o.run(es);
    let (x, y) = (n.replicas[a], n.replicas[b]);
    let c = n.raft();
    assert(c.nodes.contains_key(a) && c.nodes[a] == x.node);
    assert(c.nodes.contains_key(b) && c.nodes[b] == y.node);
    lemma_mark_settled(h, o.voters, a, x.node);
    lemma_mark_settled(h, o.voters, b, y.node);
    history::lemma_grows_same(h, a);
    lemma_front_kept(
        h,
        h,
        a,
        o.voters,
        h.full[a],
        mark(x.node) as int,
        x.node.term as int,
        h.full[b],
        mark(y.node) as int,
        y.node.term as int,
    );
}

} // verus!
