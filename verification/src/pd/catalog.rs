//! What the placement driver assigns: each region's regime, its voters and those that it is grown
//! toward, said of the tables that were declared and of the nodes that were heard from.

use vstd::prelude::*;
use crate::bytes;
use crate::pd::assurance;
use crate::pd::cluster;
use crate::pd::cluster::{PlacedView, Regime, ReplicaSetView, TableView};
use crate::pd::command;
use crate::pd::command::CmdView;
use crate::pd::fsm;
use crate::pd::fsm::{EntryView, FsmView};
use crate::pd::order;
use crate::pd::placement;
use crate::pd::reach;
use crate::pd::region;
use crate::pd::region::RegionView;

verus! {

/// Whether a key begins with the prefix of a table.
pub open spec fn prefixed(key: Seq<u8>, t: TableView) -> bool {
    key.len() >= 4 && key.take(4) == bytes::be32(t.id)
}

/// The first table with an id has it, and there is none where none does.
proof fn lemma_with_id(s: Seq<TableView>, id: u32, i: int)
    requires
        0 <= i <= s.len(),
    ensures
        i <= fsm::table_with(s, id, i) <= s.len(),
        fsm::table_with(s, id, i) < s.len() ==> s[fsm::table_with(s, id, i)].id == id,
        forall|j: int| i <= j < fsm::table_with(s, id, i) ==> (#[trigger] s[j]).id != id,
    decreases s.len() - i,
{
    if i < s.len() && s[i].id != id {
        lemma_with_id(s, id, i + 1);
    }
}

/// The prefix of a key names one table.
proof fn lemma_prefix(key: Seq<u8>, id: u32)
    requires
        key.len() >= 4,
    ensures
        key.take(4) == bytes::be32(id) <==> region::table_of(key) == id,
{
    broadcast use bytes::group_be_len;
    let k = region::table_of(key);
    if key.take(4) == bytes::be32(id) {
        assert(key.subrange(0, 4) =~= key.take(4));
        bytes::lemma_u32_at(key, 0, id);
    } else if k == id {
        let d = key.subrange(0, 4);
        bytes::lemma_be_value_inverse(d);
        bytes::lemma_be_value_bound(d);
        bytes::lemma_pow256_values();
        assert(d =~= key.take(4));
    }
}

/// A key has the regime of the table that its prefix names. A key that begins with the prefix of
/// no declared table, or is too short to have one, has the strong regime.
pub proof fn law_regime_for(f: FsmView, key: Seq<u8>)
    requires
        reach::orderly(f),
    ensures
        forall|j: int|
            0 <= j < f.catalog.len() && prefixed(key, #[trigger] f.catalog[j]) ==> f.regime_for(key)
                == f.catalog[j].regime,
        (forall|j: int| 0 <= j < f.catalog.len() ==> !prefixed(key, #[trigger] f.catalog[j]))
            ==> f.regime_for(key) == Regime::Cp,
{
    let s = f.catalog;
    let id = region::table_of(key);
    let i = fsm::table_with(s, id, 0);
    lemma_with_id(s, id, 0);
    assert forall|j: int| 0 <= j < s.len() && prefixed(key, #[trigger] s[j]) implies f.regime_for(
        key,
    ) == s[j].regime by {
        lemma_prefix(key, s[j].id);
        assert(s[j].id == id);
        if i < j {
            assert(s[i].id < s[j].id);
        } else if j < i {
            assert(s[j].id != id);
        }
    }
    if forall|j: int| 0 <= j < s.len() ==> !prefixed(key, #[trigger] s[j]) {
        if i < s.len() {
            if key.len() >= 4 {
                lemma_prefix(key, s[i].id);
                assert(prefixed(key, s[i]));
            } else if i > 0 {
                assert(s[0].id < s[i].id);
            }
        }
    }
}

/// The assignment has every region once, in order. A region that starts in the range of a
/// declared table carries that table's regime, and every other region the strong one.
pub proof fn law_assigned_regime(f: FsmView, k: int)
    requires
        reach::orderly(f),
        0 <= k < f.regions.regions.len(),
    ensures
        ({
            let a = f.assignment();
            &&& a.len() == f.regions.regions.len()
            &&& a[k].region == f.regions.regions[k]
            &&& forall|j: int|
                0 <= j < f.catalog.len() && prefixed(a[k].region.start, #[trigger] f.catalog[j])
                    ==> a[k].regime == f.catalog[j].regime
            &&& (forall|j: int|
                0 <= j < f.catalog.len() ==> !prefixed(a[k].region.start, #[trigger] f.catalog[j]))
                ==> a[k].regime == Regime::Cp
        }),
{
    law_regime_for(f, f.regions.regions[k].start);
}

/// Whether a catalog still has every table of another, where it was.
pub open spec fn extends(a: Seq<TableView>, b: Seq<TableView>) -> bool {
    a.len() <= b.len() && forall|i: int| 0 <= i < a.len() ==> #[trigger] b[i] == a[i]
}

/// No command takes a table back or changes one.
pub proof fn law_tables_stay(f: FsmView, log: Seq<Seq<u8>>)
    ensures
        extends(f.catalog, assurance::replay(f, log).catalog),
    decreases log.len(),
{
    if log.len() > 0 {
        law_tables_stay(f, log.drop_last());
        let g = assurance::replay(f, log.drop_last());
        let h = g.apply(command::cmd_of(log.last()));
        assert(extends(g.catalog, h.catalog));
        assert forall|i: int| 0 <= i < f.catalog.len() implies #[trigger] h.catalog[i]
            == f.catalog[i] by {
            assert(g.catalog[i] == f.catalog[i]);
        }
    }
}

/// Every log of commands keeps a state in order, with one region for each table.
proof fn lemma_replayed(f: FsmView, log: Seq<Seq<u8>>)
    requires
        reach::orderly(f),
        assurance::tabled(f),
    ensures
        reach::orderly(assurance::replay(f, log)),
        assurance::tabled(assurance::replay(f, log)),
    decreases log.len(),
{
    if log.len() > 0 {
        lemma_replayed(f, log.drop_last());
        let g = assurance::replay(f, log.drop_last());
        reach::law_apply_orderly(g, command::cmd_of(log.last()));
        assurance::law_one_region_per_table(g, command::cmd_of(log.last()));
    }
}

/// A declaration of a new table appends it to the catalog with the next id; one of a name that is
/// empty or taken, or with no id left, changes no table.
pub proof fn law_declared(f: FsmView, name: Seq<char>, regime: Regime)
    requires
        reach::orderly(f),
    ensures
        ({
            let g = f.apply(Some(CmdView::DeclareTable { name, regime }));
            if reach::declares(f, name) {
                &&& g.catalog == f.catalog.push(TableView { id: f.next_table_id, name, regime })
                &&& g.next_table_id == f.next_table_id + 1
            } else {
                &&& g.catalog == f.catalog
                &&& g.next_table_id == f.next_table_id
                &&& g.regions == f.regions
                &&& g.version == f.version
            }
        }),
{
    let s = f.catalog;
    let k = fsm::table_named(s, name, 0);
    reach::lemma_first_named(s, name, 0);
    if k < s.len() {
        assert(s[k].name == name);
    }
    assert(s[0].name == region::DEFAULT_TABLE_NAME@);
}

/// **A table keeps its regime.** After a declaration of a new table there is a region that starts
/// at the table's prefix. The assignment has it with the regime that was declared, and so it does
/// after any further commands.
pub proof fn law_regime_kept(f: FsmView, name: Seq<char>, regime: Regime, log: Seq<Seq<u8>>)
    requires
        reach::orderly(f),
        assurance::tabled(f),
        reach::declares(f, name),
    ensures
        ({
            let id = f.next_table_id;
            let g = f.apply(Some(CmdView::DeclareTable { name, regime }));
            let a = assurance::replay(g, log).assignment();
            &&& exists|k: int|
                0 <= k < a.len() && (#[trigger] a[k]).region.start == bytes::be32(id) && a[k].regime
                    == regime
            &&& forall|k: int|
                0 <= k < a.len() && (#[trigger] a[k]).region.start == bytes::be32(id)
                    ==> a[k].regime == regime
        }),
{
    broadcast use bytes::group_be_len;
    let id = f.next_table_id;
    let c = Some(CmdView::DeclareTable { name, regime });
    let g = f.apply(c);
    law_declared(f, name, regime);
    reach::law_apply_orderly(f, c);
    assurance::law_one_region_per_table(f, c);
    let h = assurance::replay(g, log);
    lemma_replayed(g, log);
    law_tables_stay(g, log);
    let n = f.catalog.len() as int;
    assert(g.catalog[n] == (TableView { id, name, regime }));
    assert(h.catalog[n] == g.catalog[n]);
    let a = h.assignment();
    assert forall|k: int| 0 <= k < a.len() && (#[trigger] a[k]).region.start == bytes::be32(
        id,
    ) implies a[k].regime == regime by {
        law_assigned_regime(h, k);
        assert(bytes::be32(id).take(4) =~= bytes::be32(id));
        assert(prefixed(a[k].region.start, h.catalog[n]));
    }
    assert(h.catalog.len() == h.next_table_id);
    assert(h.regions.regions[id as int].start == bytes::be32(id));
    assert(a[id as int].region.start == bytes::be32(id));
}

/// Whether a node votes in a region or is wanted in it.
pub open spec fn concerned(node: u64) -> spec_fn(ReplicaSetView) -> bool {
    |r: ReplicaSetView| r.voters.contains(node) || r.desired.contains(node)
}

/// A node is sent exactly the part of the assignment that it votes in or is wanted in, in order.
pub proof fn law_sent(f: FsmView, node: u64)
    requires
        f.version > 0,
    ensures
        f.assignment_for(node) == f.assignment().filter(concerned(node)),
{
    lemma_concerning(f.assignment(), node);
}

proof fn lemma_concerning(s: Seq<ReplicaSetView>, node: u64)
    ensures
        fsm::concerning(s, node) == s.filter(concerned(node)),
    decreases s.len(),
{
    reveal(Seq::filter);
    if s.len() > 0 {
        lemma_concerning(s.drop_last(), node);
    }
}

/// The voters that a region is assigned are those of its entry, and none where it has no entry.
pub proof fn law_assigned_voters(f: FsmView, k: int)
    requires
        f.wf(),
        0 <= k < f.regions.regions.len(),
    ensures
        ({
            let r = f.assignment()[k];
            &&& forall|i: int|
                0 <= i < f.region_members.len() && (#[trigger] f.region_members[i]).region
                    == r.region.id ==> r.voters == f.region_members[i].voters
            &&& (forall|i: int|
                0 <= i < f.region_members.len() ==> (#[trigger] f.region_members[i]).region
                    != r.region.id) ==> r.voters.len() == 0
        }),
{
    let s = f.region_members;
    let id = f.regions.regions[k].id;
    fsm::lemma_place(s, id, 0);
    assert forall|i: int| 0 <= i < s.len() && (#[trigger] s[i]).region == id implies fsm::voters_of(
        s,
        id,
    ) == s[i].voters by {
        fsm::lemma_entry_found(s, i);
    }
}

/// A region is grown toward the target: its voters come first and stay. Behind them come nodes
/// that are up, none twice, lower ids first, until the target is reached or no such node is left.
pub proof fn law_assigned_desired(f: FsmView, k: int)
    requires
        f.wf(),
        0 <= k < f.regions.regions.len(),
    ensures
        ({
            let r = f.assignment()[k];
            let v = r.voters;
            let d = r.desired;
            let live = cluster::live(f.members.nodes);
            &&& v.len() <= d.len()
            &&& forall|i: int| 0 <= i < v.len() ==> #[trigger] d[i] == v[i]
            &&& forall|i: int|
                v.len() <= i < d.len() ==> live.contains(#[trigger] d[i]) && !v.contains(d[i])
            &&& forall|i: int, j: int|
                #![trigger d[i], d[j]]
                v.len() <= i < j < d.len() ==> d[i] < d[j]
            &&& d.len() > v.len() ==> d.len() <= f.replicas
            &&& d.len() < f.replicas ==> forall|x: u64| #[trigger]
                live.contains(x) ==> d.contains(x)
            &&& forall|x: u64, i: int|
                #![trigger live.contains(x), d[i]]
                live.contains(x) && !d.contains(x) && v.len() <= i < d.len() ==> d[i] < x
        }),
{
    let live = cluster::live(f.members.nodes);
    placement::law_live(f.members);
    lemma_wanted(
        fsm::voters_of(f.region_members, f.regions.regions[k].id),
        live,
        f.replicas as nat,
    );
}

proof fn lemma_wanted(v: Seq<u64>, live: Seq<u64>, n: nat)
    requires
        forall|a: int, b: int|
            #![trigger live[a], live[b]]
            0 <= a < b < live.len() ==> live[a] < live[b],
    ensures
        ({
            let d = fsm::wanted(v, live, n);
            &&& v.len() <= d.len()
            &&& forall|i: int| 0 <= i < v.len() ==> #[trigger] d[i] == v[i]
            &&& forall|i: int|
                v.len() <= i < d.len() ==> live.contains(#[trigger] d[i]) && !v.contains(d[i])
            &&& forall|i: int, j: int|
                #![trigger d[i], d[j]]
                v.len() <= i < j < d.len() ==> d[i] < d[j]
            &&& d.len() > v.len() ==> d.len() <= n
            &&& d.len() < n ==> forall|x: u64| #[trigger] live.contains(x) ==> d.contains(x)
            &&& forall|x: u64, i: int|
                #![trigger live.contains(x), d[i]]
                live.contains(x) && !d.contains(x) && v.len() <= i < d.len() ==> d[i] < x
        }),
    decreases live.len(),
{
    if live.len() > 0 {
        let rest = live.drop_last();
        let x = live.last();
        assert forall|a: int, b: int| #![trigger rest[a], rest[b]] 0 <= a < b < rest.len() implies rest[a]
            < rest[b] by {
            assert(live[a] < live[b]);
        }
        lemma_wanted(v, rest, n);
        let w = fsm::wanted(v, rest, n);
        let d = fsm::wanted(v, live, n);
        assert forall|y: u64| #[trigger] rest.contains(y) implies live.contains(y) && y < x by {
            let a = choose|a: int| 0 <= a < rest.len() && rest[a] == y;
            assert(live[a] == y);
            assert(live[a] < live[live.len() - 1]);
        }
        assert(live.contains(x)) by {
            assert(live[live.len() - 1] == x);
        }
        assert forall|y: u64| #[trigger] live.contains(y) implies y == x || rest.contains(y) by {
            let a = choose|a: int| 0 <= a < live.len() && live[a] == y;
            if a < rest.len() {
                assert(rest[a] == y);
            }
        }
        assert forall|y: u64| #[trigger] w.contains(y) implies d.contains(y) by {
            let a = choose|a: int| 0 <= a < w.len() && w[a] == y;
            assert(d[a] == y);
        }
        assert forall|i: int| v.len() <= i < d.len() implies live.contains(#[trigger] d[i])
            && !v.contains(d[i]) by {
            if i < w.len() {
                assert(d[i] == w[i]);
            } else {
                assert(d[i] == x);
                if v.contains(x) {
                    let a = choose|a: int| 0 <= a < v.len() && v[a] == x;
                    assert(w[a] == x);
                }
            }
        }
        assert forall|i: int, j: int| #![trigger d[i], d[j]] v.len() <= i < j < d.len() implies d[i]
            < d[j] by {
            assert(d[i] == w[i]);
            if j < w.len() {
                assert(d[j] == w[j]);
            } else {
                assert(rest.contains(w[i]));
            }
        }
        if d.len() < n {
            assert(d.contains(x)) by {
                if !w.contains(x) {
                    assert(d[w.len() as int] == x);
                }
            }
            assert forall|y: u64| #[trigger] live.contains(y) implies d.contains(y) by {
                if y != x {
                    assert(rest.contains(y));
                    assert(w.contains(y));
                }
            }
        }
        assert forall|y: u64, i: int|
            #![trigger live.contains(y), d[i]]
            live.contains(y) && !d.contains(y) && v.len() <= i < d.len() implies d[i] < y by {
            if i < w.len() {
                assert(d[i] == w[i]);
                if y == x {
                    assert(rest.contains(w[i]));
                } else {
                    assert(rest.contains(y));
                    assert(!w.contains(y));
                }
            } else {
                assert(d[i] == x);
                assert(rest.contains(y));
                assert(w.len() < n);
                assert(w.contains(y));
            }
        }
    }
}

/// Founding gives its set to each region that has no voters, and to no other.
proof fn lemma_founded(s: Seq<EntryView>, regions: Seq<RegionView>, founding: Seq<u64>, id: u64)
    requires
        fsm::entries_ok(s),
        founding.len() > 0,
    ensures
        fsm::entries_ok(fsm::founded(s, regions, founding)),
        fsm::voters_of(fsm::founded(s, regions, founding), id) == if fsm::voters_of(s, id).len()
            == 0 && exists|i: int| 0 <= i < regions.len() && (#[trigger] regions[i]).id == id {
            founding
        } else {
            fsm::voters_of(s, id)
        },
    decreases regions.len(),
{
    if regions.len() > 0 {
        let init = regions.drop_last();
        lemma_founded(s, init, founding, id);
        let t = fsm::founded(s, init, founding);
        fsm::lemma_with_voters(t, regions.last().id, founding);
        if exists|i: int| 0 <= i < init.len() && (#[trigger] init[i]).id == id {
            let i = choose|i: int| 0 <= i < init.len() && (#[trigger] init[i]).id == id;
            assert(regions[i].id == id);
        }
        if exists|i: int| 0 <= i < regions.len() && (#[trigger] regions[i]).id == id {
            let i = choose|i: int| 0 <= i < regions.len() && (#[trigger] regions[i]).id == id;
            if i < init.len() {
                assert(init[i].id == id);
            }
        }
        assert(regions.last() == regions[regions.len() - 1]);
    }
}

/// Whether a region of the table has this id.
pub open spec fn has_region(f: FsmView, id: u64) -> bool {
    exists|i: int| 0 <= i < f.regions.regions.len() && (#[trigger] f.regions.regions[i]).id == id
}

/// The voters that a region gets where it has none: the nodes that are up with the lowest ids, as
/// many as the target says.
pub open spec fn founders(f: FsmView) -> Seq<u64> {
    let live = cluster::live(f.members.nodes);
    live.take(
        if live.len() < f.replicas {
            live.len() as int
        } else {
            f.replicas as int
        },
    )
}

/// Where a node is up, founding leaves no region without voters.
proof fn lemma_found(f: FsmView, id: u64)
    requires
        f.wf(),
    ensures
        fsm::voters_of(f.found().region_members, id) == if fsm::voters_of(
            f.region_members,
            id,
        ).len() == 0 && has_region(f, id) {
            founders(f)
        } else {
            fsm::voters_of(f.region_members, id)
        },
{
    let live = cluster::live(f.members.nodes);
    assert(live.take(live.len() as int) =~= live);
    if live.len() > 0 {
        assert(f.founding() == founders(f));
        lemma_founded(f.region_members, f.regions.regions, f.founding(), id);
    }
}

/// A declaration founds every region that has no voters, the new table's among them, with the
/// nodes that are up; it leaves the voters of every other region.
pub proof fn law_declared_voters(f: FsmView, name: Seq<char>, regime: Regime, id: u64)
    requires
        reach::orderly(f),
    ensures
        ({
            let g = f.apply(Some(CmdView::DeclareTable { name, regime }));
            let before = fsm::voters_of(f.region_members, id);
            let after = fsm::voters_of(g.region_members, id);
            &&& before.len() > 0 || !has_region(g, id) ==> after == before
            &&& before.len() == 0 && has_region(g, id) ==> after == founders(f)
        }),
{
    let d = f.declare(name, regime);
    lemma_found(d, id);
    let g = f.apply(Some(CmdView::DeclareTable { name, regime }));
    assert(g.regions == d.regions);
}

/// A report of other regions leaves a region's voters.
proof fn lemma_unreported(
    s: Seq<EntryView>,
    regions: Seq<RegionView>,
    node: u64,
    reported: Seq<ReplicaSetView>,
    id: u64,
)
    requires
        fsm::entries_ok(s),
        forall|j: int| 0 <= j < reported.len() ==> (#[trigger] reported[j]).region.id != id,
    ensures
        fsm::entries_ok(fsm::adopted(s, regions, node, reported)),
        fsm::voters_of(fsm::adopted(s, regions, node, reported), id) == fsm::voters_of(s, id),
    decreases reported.len(),
{
    if reported.len() > 0 {
        let rest = reported.drop_last();
        assert forall|j: int| 0 <= j < rest.len() implies (#[trigger] rest[j]).region.id != id by {
            assert(reported[j] == rest[j]);
        }
        lemma_unreported(s, regions, node, rest, id);
        let t = fsm::adopted(s, regions, node, rest);
        let rs = reported.last();
        assert(reported[reported.len() - 1] == rs);
        fsm::lemma_with_voters(t, rs.region.id, order::ascending_numbers(rs.voters));
        fsm::lemma_with_voters(t, rs.region.id, fsm::voters_of(t, rs.region.id));
    }
}

/// Whether a node's report says that a group has grown: the node is one of its voters, and so is
/// every voter on record, and there are more.
pub open spec fn grown(current: Seq<u64>, node: u64, rs: ReplicaSetView) -> bool {
    &&& rs.voters.contains(node)
    &&& rs.voters.len() > current.len()
    &&& forall|i: int| 0 <= i < current.len() ==> rs.voters.contains(#[trigger] current[i])
}

proof fn lemma_adopted_at(
    s: Seq<EntryView>,
    regions: Seq<RegionView>,
    node: u64,
    reported: Seq<ReplicaSetView>,
    k: int,
)
    requires
        fsm::entries_ok(s),
        0 <= k < reported.len(),
        forall|j: int|
            0 <= j < reported.len() && j != k ==> (#[trigger] reported[j]).region.id
                != reported[k].region.id,
        exists|i: int|
            0 <= i < regions.len() && (#[trigger] regions[i]).id == reported[k].region.id,
    ensures
        ({
            let id = reported[k].region.id;
            let current = fsm::voters_of(s, id);
            let t = fsm::adopted(s, regions, node, reported);
            &&& fsm::entries_ok(t)
            &&& fsm::voters_of(t, id) == if grown(current, node, reported[k]) {
                order::ascending_numbers(reported[k].voters)
            } else {
                current
            }
        }),
    decreases reported.len(),
{
    let id = reported[k].region.id;
    let rest = reported.drop_last();
    let rs = reported.last();
    let t = fsm::adopted(s, regions, node, rest);
    if k < rest.len() {
        assert(rest[k] == reported[k]);
        assert forall|j: int| 0 <= j < rest.len() && j != k implies (#[trigger] rest[j]).region.id
            != rest[k].region.id by {
            assert(reported[j] == rest[j]);
        }
        lemma_adopted_at(s, regions, node, rest, k);
        assert(reported[reported.len() - 1].region.id != id);
    } else {
        assert forall|j: int| 0 <= j < rest.len() implies (#[trigger] rest[j]).region.id != id by {
            assert(reported[j] == rest[j]);
        }
        lemma_unreported(s, regions, node, rest, id);
        region::lemma_with_id(regions, id, 0);
        let i = choose|i: int| 0 <= i < regions.len() && (#[trigger] regions[i]).id == id;
        assert(regions[i].id == id);
        assert(rs == reported[k]);
        assert(region::with_id(regions, id, 0) < regions.len());
        let current = fsm::voters_of(t, id);
        assert(grown(current, node, rs) == (fsm::counts(regions, node, rs) && fsm::grows(
            current,
            rs,
        )));
    }
    fsm::lemma_with_voters(t, rs.region.id, order::ascending_numbers(rs.voters));
    fsm::lemma_with_voters(t, rs.region.id, fsm::voters_of(t, rs.region.id));
}

/// **Groups grow by report.** Where a node reports a region of the table as grown, the voters on
/// record become those that it reports, lower ids first. Any other report of a region that has
/// voters leaves them, and a region without voters is founded by the nodes that are up.
pub proof fn law_reported_voters(
    f: FsmView,
    node: u64,
    address: Seq<char>,
    reported: Seq<ReplicaSetView>,
    now: u64,
    k: int,
)
    requires
        reach::orderly(f),
        0 <= k < reported.len(),
        forall|j: int|
            0 <= j < reported.len() && j != k ==> (#[trigger] reported[j]).region.id
                != reported[k].region.id,
        has_region(f, reported[k].region.id),
    ensures
        ({
            let g = f.apply(
                Some(CmdView::Heartbeat { node_id: node, address, regions: reported, now }),
            );
            let id = reported[k].region.id;
            let before = fsm::voters_of(f.region_members, id);
            let after = fsm::voters_of(g.region_members, id);
            if grown(before, node, reported[k]) {
                &&& after.len() == reported[k].voters.len()
                &&& forall|x: u64| #[trigger]
                    after.contains(x) <==> reported[k].voters.contains(x)
                &&& forall|a: int, b: int|
                    #![trigger after[a], after[b]]
                    0 <= a < b < after.len() ==> after[a] <= after[b]
            } else if before.len() > 0 {
                after == before
            } else {
                after == founders(g)
            }
        }),
{
    let id = reported[k].region.id;
    let a = reach::heard(f, node, address, reported, now);
    lemma_adopted_at(f.region_members, f.regions.regions, node, reported, k);
    reach::lemma_heartbeat_wf(f, node, address, reported, now);
    lemma_found(a, id);
    order::lemma_ascending_numbers(reported[k].voters);
    lemma_rising(reported[k].voters);
    let g = f.apply(Some(CmdView::Heartbeat { node_id: node, address, regions: reported, now }));
    assert(g.region_members == a.found().region_members);
    assert(g.members == a.members);
    assert(founders(g) == founders(a));
    assert(has_region(a, id));
}

/// A heartbeat that does not report a region leaves its voters, and founds it where it has none.
pub proof fn law_unreported_voters(
    f: FsmView,
    node: u64,
    address: Seq<char>,
    reported: Seq<ReplicaSetView>,
    now: u64,
    id: u64,
)
    requires
        reach::orderly(f),
        forall|j: int| 0 <= j < reported.len() ==> (#[trigger] reported[j]).region.id != id,
    ensures
        ({
            let g = f.apply(
                Some(CmdView::Heartbeat { node_id: node, address, regions: reported, now }),
            );
            let before = fsm::voters_of(f.region_members, id);
            let after = fsm::voters_of(g.region_members, id);
            &&& before.len() > 0 || !has_region(f, id) ==> after == before
            &&& before.len() == 0 && has_region(f, id) ==> after == founders(g)
        }),
{
    let a = reach::heard(f, node, address, reported, now);
    lemma_unreported(f.region_members, f.regions.regions, node, reported, id);
    reach::lemma_heartbeat_wf(f, node, address, reported, now);
    lemma_found(a, id);
    let g = f.apply(Some(CmdView::Heartbeat { node_id: node, address, regions: reported, now }));
    assert(g.region_members == a.found().region_members);
    assert(founders(g) == founders(a));
    assert(has_region(a, id) == has_region(f, id));
}

proof fn lemma_rising(s: Seq<u64>)
    ensures
        forall|a: int, b: int|
            #![trigger order::ascending_numbers(s)[a], order::ascending_numbers(s)[b]]
            0 <= a < b < order::ascending_numbers(s).len() ==> order::ascending_numbers(s)[a]
                <= order::ascending_numbers(s)[b],
    decreases s.len(),
{
    if s.len() > 0 {
        let t = order::ascending_numbers(s.drop_last());
        let x = s.last();
        lemma_rising(s.drop_last());
        lemma_number_slot(t, x);
        let i = order::number_slot(t, x);
        let u = t.insert(i, x);
        assert forall|a: int, b: int| #![trigger u[a], u[b]] 0 <= a < b < u.len() implies u[a]
            <= u[b] by {
            let p = if a < i {
                a
            } else {
                a - 1
            };
            let q = if b < i {
                b
            } else {
                b - 1
            };
            if a != i && b != i {
                assert(t[p] <= t[q]);
            } else if b == i {
                assert(t[a] <= x);
            } else {
                assert(x <= t[q]);
            }
        }
    }
}

proof fn lemma_number_slot(t: Seq<u64>, x: u64)
    requires
        forall|a: int, b: int| #![trigger t[a], t[b]] 0 <= a < b < t.len() ==> t[a] <= t[b],
    ensures
        0 <= order::number_slot(t, x) <= t.len(),
        forall|j: int| 0 <= j < order::number_slot(t, x) ==> #[trigger] t[j] <= x,
        forall|j: int| order::number_slot(t, x) <= j < t.len() ==> x <= #[trigger] t[j],
    decreases t.len(),
{
    if t.len() > 0 {
        if x < t.last() {
            let d = t.drop_last();
            assert forall|a: int, b: int| #![trigger d[a], d[b]] 0 <= a < b < d.len() implies d[a]
                <= d[b] by {
                assert(t[a] <= t[b]);
            }
            lemma_number_slot(d, x);
            assert forall|j: int| order::number_slot(t, x) <= j < t.len() implies x
                <= #[trigger] t[j] by {
                if j < d.len() {
                    assert(d[j] == t[j]);
                }
            }
            assert forall|j: int| 0 <= j < order::number_slot(t, x) implies #[trigger] t[j] <= x by {
                assert(d[j] == t[j]);
            }
        } else {
            assert forall|j: int| 0 <= j < t.len() implies #[trigger] t[j] <= x by {
                if j < t.len() - 1 {
                    assert(t[j] <= t[t.len() - 1]);
                }
            }
        }
    }
}

/// A table's id is found by its name, and that of the default table also by no name at all; a name
/// that no table has gives none.
pub proof fn law_table_id(f: FsmView, name: Seq<char>, j: int)
    requires
        reach::orderly(f),
        0 <= j < f.catalog.len(),
        f.catalog[j].name == name,
    ensures
        fsm::table_named(f.catalog, name, 0) == j,
        fsm::table_named(f.catalog, region::DEFAULT_TABLE_NAME@, 0) == 0,
        f.catalog[0].id == 0,
{
    let s = f.catalog;
    reach::lemma_first_named(s, name, 0);
    let k = fsm::table_named(s, name, 0);
    if k < j {
        assert(s[k].name != s[j].name);
    } else if j < k {
        assert(s[j].name != name);
    }
    assert(s[0].name == region::DEFAULT_TABLE_NAME@);
}

/// The regions that a node owns are those of the listing that are placed on it, in order, each with
/// its regime and its voters.
pub proof fn law_owned(s: Seq<PlacedView>, node: u64)
    ensures
        ({
            let r = fsm::owned_by(s, node);
            let mine = s.filter(placed_on(node));
            &&& r.len() == mine.len()
            &&& forall|i: int|
                0 <= i < r.len() ==> (#[trigger] r[i]).region == mine[i].region && r[i].regime
                    == mine[i].regime && r[i].voters == mine[i].voters && r[i].desired.len() == 0
        }),
    decreases s.len(),
{
    reveal(Seq::filter);
    if s.len() > 0 {
        law_owned(s.drop_last(), node);
    }
}

/// Whether a region is placed on a node.
pub open spec fn placed_on(node: u64) -> spec_fn(PlacedView) -> bool {
    |p: PlacedView| p.node_id == node
}

/// A heartbeat that brings nothing new leaves the version: the node is known, it reports no group
/// as grown, and every region has voters. The voters stay as well.
pub proof fn law_nothing_new(
    f: FsmView,
    node: u64,
    address: Seq<char>,
    reported: Seq<ReplicaSetView>,
    now: u64,
    id: u64,
)
    requires
        reach::orderly(f),
        cluster::node_at(f.members.nodes, node) is Some,
        forall|k: int|
            0 <= k < reported.len() ==> !grown(
                fsm::voters_of(f.region_members, (#[trigger] reported[k]).region.id),
                node,
                reported[k],
            ),
        forall|i: int|
            0 <= i < f.regions.regions.len() ==> fsm::voters_of(
                f.region_members,
                (#[trigger] f.regions.regions[i]).id,
            ).len() > 0,
    ensures
        ({
            let g = f.apply(
                Some(CmdView::Heartbeat { node_id: node, address, regions: reported, now }),
            );
            &&& g.version == f.version
            &&& fsm::voters_of(g.region_members, id) == fsm::voters_of(f.region_members, id)
            &&& g.catalog == f.catalog
            &&& g.regions == f.regions
        }),
{
    let s = f.region_members;
    let rs = f.regions.regions;
    lemma_ungrown(s, rs, node, reported);
    let a = reach::heard(f, node, address, reported, now);
    assert forall|i: int| 0 <= i < rs.len() implies fsm::voters_of(
        a.region_members,
        (#[trigger] rs[i]).id,
    ).len() > 0 by {
        assert(fsm::voters_of(s, rs[i].id).len() > 0);
    }
    assurance::lemma_nothing_to_found(a.region_members, rs, a.founding());
}

proof fn lemma_ungrown(
    s: Seq<EntryView>,
    regions: Seq<RegionView>,
    node: u64,
    reported: Seq<ReplicaSetView>,
)
    requires
        fsm::entries_ok(s),
        forall|k: int|
            0 <= k < reported.len() ==> !grown(
                fsm::voters_of(s, (#[trigger] reported[k]).region.id),
                node,
                reported[k],
            ),
    ensures
        !fsm::adopts(s, regions, node, reported),
        fsm::entries_ok(fsm::adopted(s, regions, node, reported)),
        forall|id: u64| #[trigger]
            fsm::voters_of(fsm::adopted(s, regions, node, reported), id) == fsm::voters_of(s, id),
    decreases reported.len(),
{
    if reported.len() > 0 {
        let rest = reported.drop_last();
        let rs = reported.last();
        let t = fsm::adopted(s, regions, node, rest);
        assert forall|k: int| 0 <= k < rest.len() implies !grown(
            fsm::voters_of(s, (#[trigger] rest[k]).region.id),
            node,
            rest[k],
        ) by {
            assert(reported[k] == rest[k]);
        }
        lemma_ungrown(s, regions, node, rest);
        assert(reported[reported.len() - 1] == rs);
        let current = fsm::voters_of(t, rs.region.id);
        assert(current == fsm::voters_of(s, rs.region.id));
        assert(!grown(current, node, rs));
        assert(!(fsm::counts(regions, node, rs) && fsm::grows(current, rs)));
        fsm::lemma_with_voters(t, rs.region.id, current);
        let u = fsm::adopted(s, regions, node, reported);
        assert forall|id: u64| #[trigger] fsm::voters_of(u, id) == fsm::voters_of(s, id) by {
            assert(fsm::voters_of(t, id) == fsm::voters_of(s, id));
            if fsm::counts(regions, node, rs) && id != rs.region.id {
                assert(fsm::voters_of(fsm::with_voters(t, rs.region.id, current), id)
                    == fsm::voters_of(t, id));
            }
        }
    }
}

} // verus!
