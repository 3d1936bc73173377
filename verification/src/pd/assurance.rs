//! What the placement driver's state machine promises as a whole.

use vstd::prelude::*;
use crate::bytes;
use crate::pd::cluster;
use crate::pd::cluster::{Regime, ReplicaSetView, TableView};
use crate::pd::codec;
use crate::pd::command;
use crate::pd::command::CmdView;
use crate::pd::fsm;
use crate::pd::fsm::{EntryView, FsmView, Image};
use crate::pd::order;
use crate::pd::region;
use crate::pd::region::{RegionView, RegistryView};

verus! {

broadcast use bytes::group_be_len;

/// Everything fits its length field.
pub open spec fn fits(f: FsmView) -> bool {
    &&& f.members.fits()
    &&& f.catalog.len() < 0x1_0000_0000
    &&& forall|i: int| 0 <= i < f.catalog.len() ==> cluster::text_fits((#[trigger] f.catalog[i]).name)
    &&& f.region_members.len() < 0x1_0000_0000
    &&& forall|i: int|
        0 <= i < f.region_members.len() ==> (#[trigger] f.region_members[i]).voters.len()
            < 0x1_0000_0000
    &&& f.regions.fits()
}

/// What a snapshot of a state holds.
pub open spec fn image(f: FsmView) -> Image {
    Image {
        upper: f.tso_upper,
        nodes: f.members.nodes,
        version: f.version,
        next_table_id: f.next_table_id,
        catalog: f.catalog,
        region_members: f.region_members,
        regions: f.regions,
    }
}

/// Entries in order, set one by one, are themselves.
proof fn lemma_with_all(s: Seq<EntryView>)
    requires
        fsm::entries_ok(s),
    ensures
        fsm::with_all(Seq::empty(), s) == s,
    decreases s.len(),
{
    if s.len() > 0 {
        let t = s.drop_last();
        let e = s.last();
        assert forall|a: int, b: int| #![trigger t[a], t[b]] 0 <= a < b < t.len() implies t[a].region
            < t[b].region by {
            assert(s[a].region < s[b].region);
        }
        lemma_with_all(t);
        fsm::lemma_place(t, e.region, 0);
        let p = fsm::place(t, e.region, 0);
        if p < t.len() {
            assert(s[p].region < s[s.len() - 1].region);
        }
        assert(t.insert(t.len() as int, e) =~= s);
    }
}

/// The catalog part of a snapshot is read back from its bytes.
proof fn lemma_catalog_codes(f: FsmView, before: Seq<u8>, after: Seq<u8>)
    requires
        fits(f),
    ensures
        fsm::catalog_from(before + f.catalog_bytes() + after, before.len() as int) == Some(
            (
                (f.version, f.next_table_id, f.catalog, f.region_members),
                (before.len() + f.catalog_bytes().len()) as int,
            ),
        ),
{
    let v = bytes::be64(f.version);
    let n = bytes::be32(f.next_table_id);
    let t = codec::counted_bytes(fsm::table_writer(), f.catalog);
    let e = codec::counted_bytes(fsm::entry_writer(), f.region_members);
    let whole = before + f.catalog_bytes() + after;
    let p1 = before + v;
    let p2 = p1 + n;
    let p3 = p2 + t;
    assert(codec::u64_from(whole, before.len() as int) == Some((f.version, p1.len() as int))) by {
        codec::lemma_u64_codes(f.version, before, n + t + e + after);
        assert(whole =~= before + v + (n + t + e + after));
    }
    assert(codec::u32_from(whole, p1.len() as int) == Some((f.next_table_id, p2.len() as int))) by {
        codec::lemma_u32_codes(f.next_table_id, p1, t + e + after);
        assert(whole =~= p1 + n + (t + e + after));
    }
    assert(codec::counted_from(fsm::table_parser(), whole, p2.len() as int) == Some(
        (f.catalog, p3.len() as int),
    )) by {
        lemma_tables_code(f.catalog);
        codec::lemma_counted_codes(
            fsm::table_parser(),
            fsm::table_writer(),
            f.catalog,
            p2,
            e + after,
        );
        assert(whole =~= p2 + t + (e + after));
    }
    assert(codec::counted_from(fsm::entry_parser(), whole, p3.len() as int) == Some(
        (f.region_members, (p3 + e).len() as int),
    )) by {
        lemma_entries_code(f.region_members);
        codec::lemma_counted_codes(
            fsm::entry_parser(),
            fsm::entry_writer(),
            f.region_members,
            p3,
            after,
        );
        assert(whole =~= p3 + e + after);
    }
}

proof fn lemma_tables_code(s: Seq<TableView>)
    requires
        forall|i: int| 0 <= i < s.len() ==> cluster::text_fits((#[trigger] s[i]).name),
    ensures
        forall|k: int|
            0 <= k < s.len() ==> codec::codes(
                fsm::table_parser(),
                #[trigger] fsm::table_writer()(s[k]),
                s[k],
            ),
{
    assert forall|k: int| 0 <= k < s.len() implies codec::codes(
        fsm::table_parser(),
        #[trigger] fsm::table_writer()(s[k]),
        s[k],
    ) by {
        let f = fsm::table_parser();
        let enc = fsm::table_writer()(s[k]);
        assert forall|before: Seq<u8>, after: Seq<u8>| #[trigger]
            f(before + enc + after, before.len() as int) == Some(
                (s[k], (before.len() + enc.len()) as int),
            ) by {
            fsm::lemma_table_codes(s[k], before, after);
        }
    }
}

proof fn lemma_entries_code(s: Seq<EntryView>)
    requires
        forall|i: int| 0 <= i < s.len() ==> (#[trigger] s[i]).voters.len() < 0x1_0000_0000,
    ensures
        forall|k: int|
            0 <= k < s.len() ==> codec::codes(
                fsm::entry_parser(),
                #[trigger] fsm::entry_writer()(s[k]),
                s[k],
            ),
{
    assert forall|k: int| 0 <= k < s.len() implies codec::codes(
        fsm::entry_parser(),
        #[trigger] fsm::entry_writer()(s[k]),
        s[k],
    ) by {
        let f = fsm::entry_parser();
        let enc = fsm::entry_writer()(s[k]);
        assert forall|before: Seq<u8>, after: Seq<u8>| #[trigger]
            f(before + enc + after, before.len() as int) == Some(
                (s[k], (before.len() + enc.len()) as int),
            ) by {
            fsm::lemma_entry_codes(s[k], before, after);
        }
    }
}

/// A snapshot carries the whole state: what is read back from it is what was written.
pub proof fn law_snapshot_roundtrip(f: FsmView)
    requires
        f.wf(),
        fits(f),
    ensures
        fsm::image_of(f.bytes()) == Some(image(f)),
{
    let u = bytes::be64(f.tso_upper);
    let m = f.members.bytes();
    let c = f.catalog_bytes();
    let r = f.regions.bytes();
    let b = f.bytes();
    let none = Seq::<u8>::empty();
    assert(codec::u64_from(b, 0) == Some((f.tso_upper, 8int))) by {
        codec::lemma_u64_codes(f.tso_upper, none, m + c + r);
        assert(none + u + (m + c + r) =~= b);
    }
    assert(cluster::nodes_of(b.skip(8)) == Some((f.members.nodes, m.len() as int))) by {
        cluster::law_membership_roundtrip(f.members, c + r);
        assert(b.skip(8) =~= m + (c + r));
    }
    let at = (u + m).len() as int;
    assert(fsm::catalog_from(b, at) == Some(
        ((f.version, f.next_table_id, f.catalog, f.region_members), (at + c.len()) as int),
    )) by {
        lemma_catalog_codes(f, u + m, r);
        assert(b =~= (u + m) + c + r);
    }
    assert(b.skip((at + c.len()) as int) =~= r);
    region::law_registry_roundtrip(f.regions);
    lemma_with_all(f.region_members);
}

/// A replica that restores another's snapshot holds the other's state; its own watermarks never
/// go down.
pub proof fn law_restore(f: FsmView, other: FsmView)
    requires
        other.wf(),
        fits(other),
    ensures
        ({
            let g = f.restore(other.bytes());
            &&& g.members.nodes == other.members.nodes
            &&& g.regions == other.regions
            &&& g.catalog == other.catalog
            &&& g.region_members == other.region_members
            &&& g.tso_upper == fsm::larger(f.tso_upper, other.tso_upper)
            &&& g.version == fsm::larger(f.version, other.version)
            &&& g.next_table_id >= f.next_table_id
            &&& g.next_table_id >= other.next_table_id
        }),
{
    law_snapshot_roundtrip(other);
}

/// The catalog part of a snapshot is read exactly.
proof fn lemma_catalog_exact(b: Seq<u8>, pos: int, cut: int)
    requires
        0 <= pos,
        0 <= cut <= b.len(),
    ensures
        match fsm::catalog_from(b, pos) {
            Some((x, end)) => {
                &&& pos <= end <= b.len()
                &&& cut >= end ==> fsm::catalog_from(b.take(cut), pos) == Some((x, end))
                &&& cut < end ==> fsm::catalog_from(b.take(cut), pos) is None
            },
            None => fsm::catalog_from(b.take(cut), pos) is None,
        },
{
    codec::lemma_cut(b, pos, cut);
    codec::lemma_cut(b, pos + 8, cut);
    fsm::lemma_table_exact();
    fsm::lemma_entry_exact();
    codec::lemma_counted_exact(fsm::table_parser(), b, pos + 12, cut);
    if let Some((t, r)) = codec::counted_from(fsm::table_parser(), b, pos + 12) {
        codec::lemma_counted_exact(fsm::entry_parser(), b, r, cut);
    }
}

/// A snapshot that is cut short anywhere is refused, and changes nothing.
pub proof fn law_snapshot_truncation(f: FsmView, other: FsmView, cut: int)
    requires
        other.wf(),
        fits(other),
        0 <= cut < other.bytes().len(),
    ensures
        fsm::image_of(other.bytes().take(cut)) is None,
        f.restore(other.bytes().take(cut)) == f,
{
    let u = bytes::be64(other.tso_upper);
    let m = other.members.bytes();
    let c = other.catalog_bytes();
    let r = other.regions.bytes();
    let b = other.bytes();
    let s = b.take(cut);
    law_snapshot_roundtrip(other);
    if cut >= 8 {
        let rest = b.skip(8);
        assert(s.skip(8) =~= rest.take(cut - 8));
        cluster::law_membership_roundtrip(other.members, c + r);
        assert(rest =~= m + (c + r));
        cluster::lemma_node_exact();
        codec::lemma_counted_exact(cluster::node_parser(), rest, 0, cut - 8);
        let at = (u + m).len() as int;
        if cut >= at {
            assert(cluster::nodes_of(s.skip(8)) == Some((other.members.nodes, m.len() as int)));
            lemma_catalog_codes(other, u + m, r);
            assert(b =~= (u + m) + c + r);
            lemma_catalog_exact(b, at, cut);
            let end = (at + c.len()) as int;
            if cut >= end {
                assert(s.skip(end) =~= r.take(cut - end));
                lemma_registry_cut(other.regions, cut - end);
            }
        }
    }
}

/// A registry that is cut short is refused.
proof fn lemma_registry_cut(v: RegistryView, cut: int)
    requires
        v.fits(),
        0 <= cut < v.bytes().len(),
    ensures
        region::registry_of(v.bytes().take(cut)) is None,
{
    let b = v.bytes();
    region::law_registry_roundtrip(v);
    codec::lemma_cut(b, 0, cut);
    let f = region::region_parser();
    assert(codec::exact(f)) by {
        assert forall|b: Seq<u8>, pos: int, cut: int| 0 <= pos && 0 <= cut
            <= b.len() implies #[trigger] codec::exact_at(f, b, pos, cut) by {
            region::lemma_region_exact(b, pos, cut);
        }
    }
    codec::lemma_counted_exact(f, b, 8, cut);
    let a = bytes::be64(v.next_id);
    let none = Seq::<u8>::empty();
    region::lemma_regions_code(v.regions);
    codec::lemma_counted_codes(f, region::region_writer(), v.regions, a, none);
    assert(a + codec::counted_bytes(region::region_writer(), v.regions) + none =~= b);
}

/// No command and no snapshot ever lowers the timestamp high-water or the next table id, so no
/// timestamp and no table id is ever handed out twice; and the catalog version goes up until it
/// has used up its range.
pub proof fn law_watermarks(f: FsmView, c: Option<CmdView>, b: Seq<u8>)
    ensures
        f.apply(c).tso_upper >= f.tso_upper,
        f.apply(c).next_table_id >= f.next_table_id,
        f.version < u64::MAX ==> f.apply(c).version >= f.version,
        f.restore(b).tso_upper >= f.tso_upper,
        f.restore(b).next_table_id >= f.next_table_id,
        f.restore(b).version >= f.version,
{
}

/// The state after a log of commands.
pub open spec fn replay(f: FsmView, log: Seq<Seq<u8>>) -> FsmView
    decreases log.len(),
{
    if log.len() == 0 {
        f
    } else {
        replay(f, log.drop_last()).apply(command::cmd_of(log.last()))
    }
}

/// A replica that has applied more of the log than another has a timestamp high-water that is at
/// least as high: a new leader that has applied all that was committed never reissues a timestamp
/// that an old one handed out below its own high-water.
pub proof fn law_failover(f: FsmView, log: Seq<Seq<u8>>, n: int)
    requires
        0 <= n <= log.len(),
    ensures
        replay(f, log.take(n)).tso_upper <= replay(f, log).tso_upper,
        replay(f, log.take(n)).next_table_id <= replay(f, log).next_table_id,
    decreases log.len(),
{
    if n == log.len() {
        assert(log.take(n) =~= log);
    } else {
        let before = log.drop_last();
        assert(log.take(n) =~= before.take(n));
        law_failover(f, before, n);
        law_watermarks(replay(f, before), command::cmd_of(log.last()), Seq::empty());
    }
}

/// Founding again changes nothing.
pub proof fn lemma_founded_again(s: Seq<EntryView>, regions: Seq<RegionView>, founding: Seq<u64>)
    requires
        fsm::entries_ok(s),
        founding.len() > 0,
    ensures
        fsm::entries_ok(fsm::founded(s, regions, founding)),
        forall|i: int|
            0 <= i < regions.len() ==> fsm::voters_of(
                fsm::founded(s, regions, founding),
                (#[trigger] regions[i]).id,
            ).len() > 0,
        forall|id: u64|
            fsm::voters_of(s, id).len() > 0 ==> #[trigger] fsm::voters_of(
                fsm::founded(s, regions, founding),
                id,
            ) == fsm::voters_of(s, id),
    decreases regions.len(),
{
    if regions.len() > 0 {
        let init = regions.drop_last();
        lemma_founded_again(s, init, founding);
        let t = fsm::founded(s, init, founding);
        let id = regions.last().id;
        fsm::lemma_with_voters(t, id, founding);
        let u = fsm::founded(s, regions, founding);
        assert forall|i: int| 0 <= i < regions.len() implies fsm::voters_of(
            u,
            (#[trigger] regions[i]).id,
        ).len() > 0 by {
            if i < init.len() {
                assert(init[i] == regions[i]);
                assert(fsm::voters_of(t, init[i].id).len() > 0);
            }
            if regions[i].id != id {
                assert(fsm::voters_of(fsm::with_voters(t, id, founding), regions[i].id)
                    == fsm::voters_of(t, regions[i].id));
            }
        }
        assert forall|x: u64| fsm::voters_of(s, x).len() > 0 implies #[trigger] fsm::voters_of(u, x)
            == fsm::voters_of(s, x) by {
            assert(fsm::voters_of(t, x) == fsm::voters_of(s, x));
            if x != id {
                assert(fsm::voters_of(fsm::with_voters(t, id, founding), x) == fsm::voters_of(t, x));
            }
        }
    }
}

/// With voters for every region there is nothing to found.
pub proof fn lemma_nothing_to_found(s: Seq<EntryView>, regions: Seq<RegionView>, founding: Seq<u64>)
    requires
        forall|i: int| 0 <= i < regions.len() ==> fsm::voters_of(s, (#[trigger] regions[i]).id).len() > 0,
    ensures
        fsm::founded(s, regions, founding) == s,
        !fsm::founds(s, regions, founding),
    decreases regions.len(),
{
    if regions.len() > 0 {
        let init = regions.drop_last();
        assert forall|i: int| 0 <= i < init.len() implies fsm::voters_of(
            s,
            (#[trigger] init[i]).id,
        ).len() > 0 by {
            assert(init[i] == regions[i]);
        }
        lemma_nothing_to_found(s, init, founding);
        assert(fsm::voters_of(s, regions[regions.len() - 1].id).len() > 0);
    }
}

/// Applying a declaration again, as a restart does, changes nothing: it burns no id, carves no
/// region, and bumps no version.
pub proof fn law_declare_once(f: FsmView, name: Seq<char>, regime: Regime)
    requires
        f.wf(),
    ensures
        ({
            let c = Some(CmdView::DeclareTable { name, regime });
            f.apply(c).apply(c) == f.apply(c)
        }),
{
    let c = Some(CmdView::DeclareTable { name, regime });
    let g = f.declare(name, regime);
    let h = g.found();
    if g != f {
        lemma_named(g.catalog, name, g.catalog.len() - 1, 0);
    }
    assert(h.declare(name, regime) == h);
    if cluster::live(g.members.nodes).len() > 0 {
        let founding = g.founding();
        assert(founding.len() > 0);
        lemma_founded_again(g.region_members, g.regions.regions, founding);
        lemma_nothing_to_found(h.region_members, h.regions.regions, founding);
        assert(h.found() =~= h);
    }
}

/// A name that is in a catalog is found.
pub proof fn lemma_named(s: Seq<TableView>, name: Seq<char>, k: int, i: int)
    requires
        0 <= i <= k < s.len(),
        s[k].name == name,
    ensures
        fsm::table_named(s, name, i) <= k,
    decreases k - i,
{
    if s[i].name != name {
        lemma_named(s, name, k, i + 1);
    }
}

/// Every region is a table and every table is a region: ids are handed out in order, each table's
/// region starts at its prefix, and the regions follow one another over the whole keyspace.
pub open spec fn tabled(f: FsmView) -> bool {
    let n = f.next_table_id as int;
    let s = f.regions.regions;
    &&& n >= 1
    &&& s.len() == n
    &&& f.regions.tiled()
    &&& f.regions.next_id == n + 1
    &&& forall|i: int| 1 <= i < n ==> (#[trigger] s[i]).start == bytes::be32(i as u32)
    &&& forall|i: int| 0 <= i < n ==> (#[trigger] s[i]).epoch <= n + 1
    &&& f.catalog.len() == n
    &&& forall|i: int| 0 <= i < n ==> (#[trigger] f.catalog[i]).id == i
}

/// A new state machine has one table and one region.
pub proof fn law_fresh_tabled()
    ensures
        tabled(FsmView::fresh()),
{
    let s = FsmView::fresh().regions.regions;
    assert(s.len() == 1);
}

/// Prefixes sort like the ids.
proof fn lemma_prefix_order(a: u32, b: u32)
    ensures
        bytes::lex_lt(bytes::be32(a), bytes::be32(b)) == (a < b),
{
    bytes::lemma_pow256_values();
    bytes::lemma_be_order(a as nat, b as nat, 4);
}

/// Every command keeps one region for each table, with no gap.
pub proof fn law_one_region_per_table(f: FsmView, c: Option<CmdView>)
    requires
        tabled(f),
    ensures
        tabled(f.apply(c)),
{
    if let Some(CmdView::DeclareTable { name, regime }) = c {
        let g = f.declare(name, regime);
        if g != f {
            let n = f.next_table_id;
            let key = bytes::be32(n);
            let s = f.regions.regions;
            let last = s.len() - 1;
            lemma_tail(f, key);
            region::law_split_tiled(f.regions, key);
            region::law_split_epochs(f.regions, key);
            let t = g.regions.regions;
            assert forall|i: int| 1 <= i < n + 1 implies (#[trigger] t[i]).start == bytes::be32(
                i as u32,
            ) by {
                if i < last {
                    assert(t[i] == s[i]);
                }
            }
            assert forall|i: int| 0 <= i < n + 1 implies (#[trigger] t[i]).epoch <= n + 2 by {
                if i < last {
                    assert(t[i] == s[i]);
                } else {
                    assert(s[last].epoch <= n + 1);
                }
            }
            assert forall|i: int| 0 <= i < n + 1 implies (#[trigger] g.catalog[i]).id == i by {
                if i < n {
                    assert(g.catalog[i] == f.catalog[i]);
                }
            }
            assert(tabled(g));
        }
        assert(tabled(g.found()));
    }
}

/// The next table's prefix falls in the last region, strictly inside.
proof fn lemma_tail(f: FsmView, key: Seq<u8>)
    requires
        tabled(f),
        f.next_table_id < u32::MAX,
        key == bytes::be32(f.next_table_id),
    ensures
        region::covering(f.regions.regions, key, 0) == f.regions.regions.len() - 1,
        f.regions.split(key).1 is Ok,
{
    let n = f.next_table_id;
    let s = f.regions.regions;
    let last = s.len() - 1;
    assert(bytes::lex_lt(s[last].start, key)) by {
        if last >= 1 {
            lemma_prefix_order(last as u32, n);
        } else {
            assert(s[0].start.len() == 0);
        }
    }
    bytes::lemma_lex_facts(s[last].start, key, key);
    assert(s[last].contains(key));
    region::law_tiled_routes(f.regions, key);
    region::lemma_covering(s, key, 0);
    let i = region::covering(s, key, 0);
    assert(s[i].contains(key));
    assert(f.regions.regions[i].contains(key) && f.regions.regions[last].contains(key));
    bytes::lemma_lex_total(key, s[last].start);
    bytes::lemma_lex_facts(key, s[last].start, key);
    assert(s[last].epoch <= n + 1);
}

/// A region's voters are never dropped: every command leaves each region all of its members.
pub proof fn law_voters_only_grow(f: FsmView, c: Option<CmdView>, id: u64)
    requires
        f.wf(),
    ensures
        fsm::all_in(
            fsm::voters_of(f.region_members, id),
            fsm::voters_of(f.apply(c).region_members, id),
        ),
{
    let old = fsm::voters_of(f.region_members, id);
    match c {
        Some(CmdView::Heartbeat { node_id, address, regions, now }) => {
            lemma_adopted(f.region_members, f.regions.regions, node_id, regions, id);
            let s = fsm::adopted(f.region_members, f.regions.regions, node_id, regions);
            let a = FsmView {
                region_members: s,
                members: f.members.heartbeat(node_id, address, regions, Seq::empty(), now),
                ..f
            };
            lemma_found_keeps(a, id);
            let mid = fsm::voters_of(s, id);
            let new = fsm::voters_of(a.found().region_members, id);
            assert forall|i: int| 0 <= i < old.len() implies new.contains(#[trigger] old[i]) by {
                assert(mid.contains(old[i]));
            }
        },
        Some(CmdView::DeclareTable { name, regime }) => {
            let g = f.declare(name, regime);
            lemma_found_keeps(g, id);
        },
        _ => {
            assert forall|i: int| 0 <= i < old.len() implies old.contains(#[trigger] old[i]) by {}
        },
    }
}

/// Founding keeps the voters that there are.
proof fn lemma_found_keeps(f: FsmView, id: u64)
    requires
        fsm::entries_ok(f.region_members),
        f.replicas >= 1,
    ensures
        ({
            let old = fsm::voters_of(f.region_members, id);
            let new = fsm::voters_of(f.found().region_members, id);
            (old.len() > 0 ==> new == old) && fsm::all_in(old, new)
        }),
{
    let old = fsm::voters_of(f.region_members, id);
    let new = fsm::voters_of(f.found().region_members, id);
    if cluster::live(f.members.nodes).len() > 0 {
        lemma_founded_again(f.region_members, f.regions.regions, f.founding());
    }
    assert forall|i: int| 0 <= i < old.len() implies new.contains(#[trigger] old[i]) by {
        assert(new == old);
    }
}

/// Adopting reports keeps the voters that there are.
pub proof fn lemma_adopted(
    s: Seq<EntryView>,
    regions: Seq<RegionView>,
    node: u64,
    reported: Seq<ReplicaSetView>,
    id: u64,
)
    requires
        fsm::entries_ok(s),
    ensures
        fsm::entries_ok(fsm::adopted(s, regions, node, reported)),
        fsm::all_in(
            fsm::voters_of(s, id),
            fsm::voters_of(fsm::adopted(s, regions, node, reported), id),
        ),
    decreases reported.len(),
{
    let old = fsm::voters_of(s, id);
    if reported.len() == 0 {
        assert forall|i: int| 0 <= i < old.len() implies old.contains(#[trigger] old[i]) by {}
    } else {
        lemma_adopted(s, regions, node, reported.drop_last(), id);
        let t = fsm::adopted(s, regions, node, reported.drop_last());
        let rs = reported.last();
        let current = fsm::voters_of(t, rs.region.id);
        fsm::lemma_with_voters(t, rs.region.id, order::ascending_numbers(rs.voters));
        fsm::lemma_with_voters(t, rs.region.id, current);
        let u = fsm::adopted(s, regions, node, reported);
        let new = fsm::voters_of(u, id);
        assert forall|i: int| 0 <= i < old.len() implies new.contains(#[trigger] old[i]) by {
            assert(fsm::voters_of(t, id).contains(old[i]));
            if fsm::counts(regions, node, rs) && id == rs.region.id && fsm::grows(current, rs) {
                let k = choose|k: int| 0 <= k < current.len() && current[k] == old[i];
                assert(rs.voters.contains(current[k]));
                order::lemma_ascending_numbers(rs.voters);
            }
        }
    }
}

/// The voters that are wanted hold all members, hold only members and live nodes, and are no more
/// than the target where the members are not.
pub proof fn law_wanted(members: Seq<u64>, live: Seq<u64>, replicas: nat)
    ensures
        fsm::wanted(members, live, replicas).len() >= members.len(),
        fsm::wanted(members, live, replicas).take(members.len() as int) == members,
        fsm::wanted(members, live, replicas).len() <= if members.len() > replicas {
            members.len()
        } else {
            replicas
        },
        forall|i: int|
            members.len() <= i < fsm::wanted(members, live, replicas).len() ==> live.contains(
                #[trigger] fsm::wanted(members, live, replicas)[i],
            ),
    decreases live.len(),
{
    let w = fsm::wanted(members, live, replicas);
    if live.len() == 0 {
        assert(w.take(members.len() as int) =~= members);
    } else {
        let rest = live.drop_last();
        law_wanted(members, rest, replicas);
        let v = fsm::wanted(members, rest, replicas);
        assert(w.take(members.len() as int) =~= v.take(members.len() as int));
        assert forall|i: int| members.len() <= i < w.len() implies live.contains(#[trigger] w[i]) by {
            if i < v.len() {
                assert(w[i] == v[i]);
                let k = choose|k: int| 0 <= k < rest.len() && rest[k] == v[i];
                assert(live[k] == w[i]);
            } else {
                assert(live[live.len() - 1] == w[i]);
            }
        }
    }
}

/// A registered node that reports nothing founds the regions that have no voters; the first node
/// of a cluster founds them alone.
pub proof fn law_first_node_founds_alone(address: Seq<char>, node: u64, now: u64)
    ensures
        ({
            let f = FsmView::fresh().apply(
                Some(CmdView::Heartbeat { node_id: node, address, regions: Seq::empty(), now }),
            );
            fsm::voters_of(f.region_members, 1) == seq![node]
        }),
{
    let f0 = FsmView::fresh();
    let none = Seq::<ReplicaSetView>::empty();
    let nodes = f0.members.heartbeat(node, address, none, Seq::empty(), now).nodes;
    assert(nodes.len() == 1 && nodes[0].id == node && !nodes[0].down);
    assert(nodes.drop_last() =~= Seq::empty());
    assert(cluster::live(nodes.drop_last()) =~= Seq::empty());
    assert(cluster::live(nodes) =~= seq![node]);
    let s = Seq::<EntryView>::empty();
    let regions = f0.regions.regions;
    assert(regions.drop_last() =~= Seq::empty());
    assert(fsm::adopted(s, regions, node, none) == s);
    assert(fsm::founded(s, regions.drop_last(), seq![node]) == s);
    fsm::lemma_with_voters(s, 1, seq![node]);
}

} // verus!
