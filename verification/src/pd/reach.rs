//! What holds of every state that a placement driver can come to.

use vstd::prelude::*;
use crate::bytes;
use crate::pd::assurance;
use crate::pd::cluster;
use crate::pd::cluster::{MembershipView, NodeStateView, ReplicaSetView, Table, TableView};
use crate::pd::command;
use crate::pd::command::CmdView;
use crate::pd::fsm;
use crate::pd::fsm::{EntryView, FsmView};
use crate::pd::order;
use crate::pd::region::{RegionView, DEFAULT_TABLE_NAME};

verus! {

/// How a state came about.
pub enum Origin {
    /// A new state machine.
    Fresh,
    /// A log entry was applied.
    Applied { from: Box<Origin>, data: Seq<u8> },
    /// The snapshot of another state machine was restored.
    Restored { from: Box<Origin>, other: Box<Origin> },
    /// Silent nodes were marked down.
    Swept { from: Box<Origin>, now: u64, timeout_ms: u64 },
    /// The replication target was set.
    Aimed { from: Box<Origin>, replicas: usize },
}

/// The state that came about.
pub open spec fn outcome(o: Origin) -> FsmView
    decreases o,
{
    match o {
        Origin::Fresh => FsmView::fresh(),
        Origin::Applied { from, data } => outcome(*from).apply(command::cmd_of(data)),
        Origin::Restored { from, other } => outcome(*from).restore(outcome(*other).bytes()),
        Origin::Swept { from, now, timeout_ms } => {
            let f = outcome(*from);
            FsmView {
                members: MembershipView {
                    nodes: cluster::swept(f.members.nodes, now, timeout_ms),
                    ..f.members
                },
                ..f
            }
        },
        Origin::Aimed { from, replicas } => FsmView {
            replicas: if replicas == 0 {
                1
            } else {
                replicas
            },
            ..outcome(*from)
        },
    }
}

/// Whether every snapshot that was restored fits its length fields.
pub open spec fn roomy(o: Origin) -> bool
    decreases o,
{
    match o {
        Origin::Fresh => true,
        Origin::Applied { from, .. } => roomy(*from),
        Origin::Restored { from, other } => roomy(*from) && roomy(*other) && assurance::fits(
            outcome(*other),
        ),
        Origin::Swept { from, .. } => roomy(*from),
        Origin::Aimed { from, .. } => roomy(*from),
    }
}

/// Whether no version has used up its range.
pub open spec fn counted(o: Origin) -> bool
    decreases o,
{
    match o {
        Origin::Fresh => true,
        Origin::Applied { from, .. } => counted(*from) && outcome(*from).version < u64::MAX,
        Origin::Restored { from, other } => counted(*from) && counted(*other),
        Origin::Swept { from, .. } => counted(*from),
        Origin::Aimed { from, .. } => counted(*from),
    }
}

/// The default table comes first, names and ids are distinct, no name is empty, and every id is
/// below the next one.
pub open spec fn orderly(f: FsmView) -> bool {
    let s = f.catalog;
    &&& f.wf()
    &&& f.members.seed.len() == 0
    &&& f.next_table_id >= 1
    &&& s.len() >= 1
    &&& s[0] == fsm::default_table()
    &&& forall|i: int| 0 <= i < s.len() ==> (#[trigger] s[i]).name.len() > 0 && s[i].id < f.next_table_id
    &&& forall|i: int, j: int|
        #![trigger s[i], s[j]]
        0 <= i < j < s.len() ==> s[i].name != s[j].name && s[i].id < s[j].id
}

/// Every state that can come about is in order.
pub proof fn law_orderly(o: Origin)
    requires
        roomy(o),
    ensures
        orderly(outcome(o)),
    decreases o,
{
    match o {
        Origin::Fresh => {
            reveal_strlit("default");
            assert(FsmView::fresh().catalog[0].name.len() > 0);
        },
        Origin::Applied { from, data } => {
            law_orderly(*from);
            law_apply_orderly(outcome(*from), command::cmd_of(data));
        },
        Origin::Restored { from, other } => {
            law_orderly(*from);
            law_orderly(*other);
            law_restore_orderly(outcome(*from), outcome(*other));
        },
        Origin::Swept { from, now, timeout_ms } => {
            law_orderly(*from);
            let (a, b) = (outcome(*from).members, outcome(o).members);
            assert forall|i: int, j: int|
                #![trigger b.nodes[i], b.nodes[j]]
                0 <= i < j < b.nodes.len() implies b.nodes[i].id < b.nodes[j].id by {
                assert(a.nodes[i].id < a.nodes[j].id);
            }
        },
        Origin::Aimed { from, .. } => {
            law_orderly(*from);
        },
    }
}

/// A version is never 0, which would say that there is no catalog.
pub proof fn law_counted(o: Origin)
    requires
        counted(o),
    ensures
        outcome(o).version >= 1,
    decreases o,
{
    match o {
        Origin::Fresh => {},
        Origin::Applied { from, data } => {
            law_counted(*from);
            assurance::law_watermarks(outcome(*from), command::cmd_of(data), data);
        },
        Origin::Restored { from, other } => {
            law_counted(*from);
            assurance::law_watermarks(outcome(*from), None, outcome(*other).bytes());
        },
        Origin::Swept { from, .. } => {
            law_counted(*from);
        },
        Origin::Aimed { from, .. } => {
            law_counted(*from);
        },
    }
}

/// Every command keeps a state in order.
pub proof fn law_apply_orderly(f: FsmView, c: Option<CmdView>)
    requires
        orderly(f),
    ensures
        orderly(f.apply(c)),
{
    match c {
        Some(CmdView::Heartbeat { node_id, address, regions, now }) => {
            lemma_heartbeat_wf(f, node_id, address, regions, now);
        },
        Some(CmdView::DeclareTable { name, regime }) => {
            let g = f.declare(name, regime);
            lemma_declared(f, name, regime);
            if cluster::live(g.members.nodes).len() > 0 {
                assurance::lemma_founded_again(g.region_members, g.regions.regions, g.founding());
            }
        },
        _ => {},
    }
}

/// A declaration keeps a catalog in order.
proof fn lemma_declared(f: FsmView, name: Seq<char>, regime: cluster::Regime)
    requires
        orderly(f),
    ensures
        orderly(f.declare(name, regime)),
{
    let g = f.declare(name, regime);
    if g != f {
        let (s, t) = (f.catalog, g.catalog);
        assert forall|i: int, j: int|
            #![trigger t[i], t[j]]
            0 <= i < j < t.len() implies t[i].name != t[j].name && t[i].id < t[j].id by {
            assert(t[i] == s[i]);
            if j < s.len() {
                assert(t[j] == s[j]);
            } else if s[i].name == name {
                assurance::lemma_named(s, name, i, 0);
            }
        }
        assert forall|i: int| 0 <= i < t.len() implies (#[trigger] t[i]).name.len() > 0 && t[i].id
            < g.next_table_id by {
            if i < s.len() {
                assert(t[i] == s[i]);
            }
        }
        assert(t[0] == s[0]);
    }
}

/// A heartbeat keeps nodes and voters in order.
pub proof fn lemma_heartbeat_wf(
    f: FsmView,
    node: u64,
    address: Seq<char>,
    reported: Seq<ReplicaSetView>,
    now: u64,
)
    requires
        f.wf(),
        f.members.seed.len() == 0,
    ensures
        f.heartbeat(node, address, reported, now).wf(),
{
    let m = f.members.heartbeat(node, address, reported, Seq::empty(), now);
    let n = NodeStateView {
        id: node,
        address,
        last_seen: now,
        down: false,
        regions: f.members.assigned(node, reported),
        tables: Seq::empty(),
    };
    assert(f.members.seed =~= Seq::empty());
    assert(f.members == (MembershipView { nodes: f.members.nodes, seed: Seq::empty() }));
    cluster::lemma_upsert(f.members.nodes, n);
    assert(m == (MembershipView {
        nodes: cluster::upsert(f.members.nodes, n),
        seed: Seq::empty(),
    }));
    let s = fsm::adopted(f.region_members, f.regions.regions, node, reported);
    assurance::lemma_adopted(f.region_members, f.regions.regions, node, reported, 0);
    let a = FsmView { region_members: s, members: m, ..f };
    if cluster::live(m.nodes).len() > 0 {
        assurance::lemma_founded_again(s, a.regions.regions, a.founding());
    }
}

/// Restoring the snapshot of a state in order gives one.
pub proof fn law_restore_orderly(f: FsmView, other: FsmView)
    requires
        orderly(f),
        orderly(other),
        assurance::fits(other),
    ensures
        orderly(f.restore(other.bytes())),
{
    assurance::law_restore(f, other);
    assurance::law_snapshot_roundtrip(other);
    let g = f.restore(other.bytes());
    let (a, b) = (other.members, g.members);
    assert forall|i: int, j: int|
        #![trigger b.nodes[i], b.nodes[j]]
        0 <= i < j < b.nodes.len() implies b.nodes[i].id < b.nodes[j].id by {
        assert(a.nodes[i].id < a.nodes[j].id);
    }
}

/// A snapshot brings back the whole state: a new state machine with the same replication target
/// that restores the snapshot of any state that can come about holds that state.
pub proof fn law_restored_whole(o: Origin)
    requires
        roomy(o),
        counted(o),
        assurance::fits(outcome(o)),
    ensures
        ({
            let f = outcome(o);
            (FsmView { replicas: f.replicas, ..FsmView::fresh() }).restore(f.bytes()) == f
        }),
{
    let f = outcome(o);
    law_orderly(o);
    law_counted(o);
    assurance::law_snapshot_roundtrip(f);
    let g = (FsmView { replicas: f.replicas, ..FsmView::fresh() }).restore(f.bytes());
    assert(g.members.seed =~= f.members.seed);
    assert(g =~= f);
}

/// The listing of the tables of a state in order has every table once, in strictly rising order of
/// the names, and the default table among them; no name is empty, and no id is there twice or has
/// not been handed out.
pub proof fn law_listing(f: FsmView)
    requires
        orderly(f),
    ensures
        ({
            let s = order::sorted(order::key_of::<Table>(), f.catalog);
            &&& s.len() == f.catalog.len()
            &&& s.contains(fsm::default_table())
            &&& forall|i: int| 0 <= i < f.catalog.len() ==> s.contains(#[trigger] f.catalog[i])
            &&& forall|i: int| 0 <= i < s.len() ==> f.catalog.contains(#[trigger] s[i])
            &&& forall|i: int|
                0 <= i < s.len() ==> (#[trigger] s[i]).name.len() > 0 && s[i].id < f.next_table_id
            &&& forall|i: int, j: int|
                #![trigger s[i], s[j]]
                0 <= i < j < s.len() ==> s[i].id != s[j].id
            &&& forall|i: int, j: int|
                #![trigger s[i], s[j]]
                0 <= i < j < s.len() ==> bytes::lex_lt(
                    vstd::utf8::encode_utf8(s[i].name),
                    vstd::utf8::encode_utf8(s[j].name),
                )
        }),
{
    let key = order::key_of::<Table>();
    let c = f.catalog;
    let s = order::sorted(key, c);
    assert forall|i: int, j: int| #![trigger c[i], c[j]] 0 <= i < j < c.len() implies key(c[i]) != key(
        c[j],
    ) by {
        vstd::utf8::encode_utf8_decode_utf8(c[i].name);
        vstd::utf8::encode_utf8_decode_utf8(c[j].name);
    }
    order::lemma_sorted(key, c);
    order::lemma_sorted_strictly(key, c);
    assert forall|i: int| 0 <= i < c.len() implies s.contains(#[trigger] c[i]) by {
        order::lemma_from(key, c, i);
    }
    assert forall|i: int| 0 <= i < s.len() implies c.contains(#[trigger] s[i]) by {
        order::lemma_from(key, c, i);
    }
    assert(s.contains(c[0]));
    assert forall|i: int| 0 <= i < s.len() implies (#[trigger] s[i]).name.len() > 0 && s[i].id
        < f.next_table_id by {
        assert(c.contains(s[i]));
        let a = choose|a: int| 0 <= a < c.len() && c[a] == s[i];
        assert(c[a].name.len() > 0);
    }
    assert forall|i: int, j: int| #![trigger s[i], s[j]] 0 <= i < j < s.len() implies s[i].id
        != s[j].id by {
        assert(c.contains(s[i]) && c.contains(s[j]));
        let a = choose|a: int| 0 <= a < c.len() && c[a] == s[i];
        let b = choose|b: int| 0 <= b < c.len() && c[b] == s[j];
        assert(bytes::lex_lt(key(s[i]), key(s[j])));
        bytes::lemma_lex_irreflexive(key(s[i]));
        assert(a < b ==> c[a].id < c[b].id);
        assert(b < a ==> c[b].id < c[a].id);
    }
    assert forall|i: int, j: int| #![trigger s[i], s[j]] 0 <= i < j < s.len() implies bytes::lex_lt(
        vstd::utf8::encode_utf8(s[i].name),
        vstd::utf8::encode_utf8(s[j].name),
    ) by {
        assert(bytes::lex_lt(key(s[i]), key(s[j])));
    }
}

/// Whether a declaration is of a new table: it has a name, one that no table has, and there is an
/// id for it.
pub open spec fn declares(f: FsmView, name: Seq<char>) -> bool {
    &&& name.len() > 0
    &&& forall|i: int| 0 <= i < f.catalog.len() ==> (#[trigger] f.catalog[i]).name != name
    &&& f.next_table_id < u32::MAX
}

/// The version starts at one. A declaration raises it by one where it is of a new table; a
/// heartbeat where the node was unknown, a group had grown, or a region was founded; a reservation
/// or an entry that cannot be read never does. A snapshot leaves the larger of the two.
pub proof fn law_version(f: FsmView, c: Option<CmdView>, b: Seq<u8>)
    requires
        orderly(f),
        f.version < u64::MAX,
    ensures
        FsmView::fresh().version == 1,
        f.apply(c).version == f.version + match c {
            None => 0int,
            Some(CmdView::ReserveTs { .. }) => 0int,
            Some(CmdView::DeclareTable { name, .. }) => if declares(f, name) {
                1int
            } else {
                0int
            },
            Some(CmdView::Heartbeat { node_id, address, regions, now }) => if cluster::node_at(
                f.members.nodes,
                node_id,
            ) is None || fsm::adopts(f.region_members, f.regions.regions, node_id, regions)
                || heard(f, node_id, address, regions, now).finds() {
                1int
            } else {
                0int
            },
        },
        f.restore(b).version == match fsm::image_of(b) {
            Some(i) => fsm::larger(f.version, i.version),
            None => f.version,
        },
{
    if let Some(CmdView::DeclareTable { name, .. }) = c {
        let s = f.catalog;
        let k = fsm::table_named(s, name, 0);
        lemma_first_named(s, name, 0);
        if k < s.len() {
            assert(s[k].name == name);
        }
        assert(s[0].name == DEFAULT_TABLE_NAME@);
    }
}

/// A state once a heartbeat was heard and the groups that it reports were adopted, before regions
/// are founded.
pub open spec fn heard(
    f: FsmView,
    node: u64,
    address: Seq<char>,
    reported: Seq<ReplicaSetView>,
    now: u64,
) -> FsmView {
    FsmView {
        region_members: fsm::adopted(f.region_members, f.regions.regions, node, reported),
        members: f.members.heartbeat(node, address, reported, Seq::empty(), now),
        ..f
    }
}

/// The first table with a name has it, and there is none where none does.
pub proof fn lemma_first_named(s: Seq<TableView>, name: Seq<char>, i: int)
    requires
        0 <= i <= s.len(),
    ensures
        i <= fsm::table_named(s, name, i) <= s.len(),
        fsm::table_named(s, name, i) < s.len() ==> s[fsm::table_named(s, name, i)].name == name,
        forall|j: int|
            i <= j < fsm::table_named(s, name, i) ==> (#[trigger] s[j]).name != name,
    decreases s.len() - i,
{
    if i < s.len() && s[i].name != name {
        lemma_first_named(s, name, i + 1);
    }
}

/// A heartbeat that leaves the version leaves every region's voters: whoever waits for a new
/// version misses no change of an assignment.
pub proof fn law_version_covers(
    f: FsmView,
    node: u64,
    address: Seq<char>,
    reported: Seq<ReplicaSetView>,
    now: u64,
    id: u64,
)
    requires
        orderly(f),
        f.version < u64::MAX,
        f.heartbeat(node, address, reported, now).version == f.version,
    ensures
        fsm::voters_of(f.heartbeat(node, address, reported, now).region_members, id)
            == fsm::voters_of(f.region_members, id),
{
    let a = heard(f, node, address, reported, now);
    lemma_not_adopted(f.region_members, f.regions.regions, node, reported, id);
    if cluster::live(a.members.nodes).len() > 0 {
        lemma_not_founded(a.region_members, a.regions.regions, a.founding());
    }
}

/// Where no group has grown, adopting leaves every region's voters.
proof fn lemma_not_adopted(
    s: Seq<EntryView>,
    regions: Seq<RegionView>,
    node: u64,
    reported: Seq<ReplicaSetView>,
    id: u64,
)
    requires
        fsm::entries_ok(s),
        !fsm::adopts(s, regions, node, reported),
    ensures
        fsm::entries_ok(fsm::adopted(s, regions, node, reported)),
        fsm::voters_of(fsm::adopted(s, regions, node, reported), id) == fsm::voters_of(s, id),
    decreases reported.len(),
{
    if reported.len() > 0 {
        lemma_not_adopted(s, regions, node, reported.drop_last(), id);
        let t = fsm::adopted(s, regions, node, reported.drop_last());
        let rs = reported.last();
        fsm::lemma_with_voters(t, rs.region.id, fsm::voters_of(t, rs.region.id));
    }
}

/// Where nothing is to be founded, founding changes nothing.
proof fn lemma_not_founded(s: Seq<EntryView>, regions: Seq<RegionView>, founding: Seq<u64>)
    requires
        !fsm::founds(s, regions, founding),
    ensures
        fsm::founded(s, regions, founding) == s,
    decreases regions.len(),
{
    if regions.len() > 0 {
        lemma_not_founded(s, regions.drop_last(), founding);
    }
}

} // verus!
