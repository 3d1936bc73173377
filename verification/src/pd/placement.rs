//! What the membership records, assigns and routes, said of the nodes and what they report.

use vstd::prelude::*;
use crate::bytes;
use crate::pd::cluster;
use crate::pd::cluster::{
    ConflictView, MembershipView, NodeStateView, PlacedRegion, PlacedView, Regime, ReplicaSetView,
    Sighting,
};
use crate::pd::order;
use crate::pd::region::RegionView;

verus! {

/// Whether a node is on record with these regions.
pub open spec fn recorded(m: MembershipView, id: u64, regions: Seq<ReplicaSetView>) -> bool {
    exists|i: int|
        0 <= i < m.nodes.len() && (#[trigger] m.nodes[i]).id == id && m.nodes[i].regions == regions
}

/// What putting a node in its place leaves: the node, and all others.
proof fn lemma_upserted(m: MembershipView, n: NodeStateView)
    requires
        m.wf(),
    ensures
        forall|x: NodeStateView| #[trigger]
            cluster::upsert(m.nodes, n).contains(x) <==> x == n || (m.nodes.contains(x) && x.id
                != n.id),
{
    let s = m.nodes;
    let t = cluster::upsert(s, n);
    let i = cluster::rank(s, n.id, 0);
    cluster::lemma_rank(s, n.id, 0);
    let fresh = !(i < s.len() && s[i].id == n.id);
    assert(t[i] == n);
    assert forall|x: NodeStateView| s.contains(x) && x.id != n.id implies t.contains(x) by {
        let k = choose|k: int| 0 <= k < s.len() && s[k] == x;
        let j = if fresh && k >= i {
            k + 1
        } else {
            k
        };
        assert(t[j] == x);
    }
    assert forall|x: NodeStateView| t.contains(x) implies x == n || (s.contains(x) && x.id
        != n.id) by {
        let k = choose|k: int| 0 <= k < t.len() && t[k] == x;
        if k != i {
            let j = if fresh && k > i {
                k - 1
            } else {
                k
            };
            assert(s[j] == x);
            if j < i {
                assert(s[j].id < n.id);
            } else if j > i {
                assert(m.nodes[i].id < m.nodes[j].id);
            } else {
                assert(fresh);
            }
        }
    }
}

/// A node on record has one record.
proof fn lemma_one_record(m: MembershipView, i: int)
    requires
        m.wf(),
        0 <= i < m.nodes.len(),
    ensures
        cluster::node_at(m.nodes, m.nodes[i].id) == Some(m.nodes[i]),
{
    assert(MembershipView { nodes: m.nodes, seed: Seq::empty() }.wf());
    cluster::lemma_found(m.nodes, i);
}

/// A heartbeat puts its node on record as it describes itself: up, seen now, at its address, with
/// its tables, and with the regions that it is answered with. Every other node stays as it was.
pub proof fn law_heartbeat(
    m: MembershipView,
    id: u64,
    address: Seq<char>,
    reported: Seq<ReplicaSetView>,
    tables: Seq<(Seq<char>, Regime)>,
    now: u64,
)
    requires
        m.wf(),
    ensures
        ({
            let w = m.heartbeat(id, address, reported, tables, now);
            let n = NodeStateView {
                id,
                address,
                last_seen: now,
                down: false,
                regions: m.assigned(id, reported),
                tables,
            };
            &&& w.seed == m.seed
            &&& forall|x: NodeStateView| #[trigger]
                w.nodes.contains(x) <==> x == n || (m.nodes.contains(x) && x.id != id)
        }),
{
    lemma_upserted(
        m,
        NodeStateView {
            id,
            address,
            last_seen: now,
            down: false,
            regions: m.assigned(id, reported),
            tables,
        },
    );
}

/// A report is authoritative: after a heartbeat that reports regions, exactly those are on record
/// for the node, whatever was before, and they are the answer.
pub proof fn law_heartbeat_reported(
    m: MembershipView,
    id: u64,
    address: Seq<char>,
    reported: Seq<ReplicaSetView>,
    tables: Seq<(Seq<char>, Regime)>,
    now: u64,
)
    requires
        m.wf(),
        reported.len() > 0,
    ensures
        m.assigned(id, reported) == reported,
        recorded(m.heartbeat(id, address, reported, tables, now), id, reported),
        forall|other: Seq<ReplicaSetView>|
            other != reported ==> !#[trigger] recorded(
                m.heartbeat(id, address, reported, tables, now),
                id,
                other,
            ),
{
    lemma_record(m, id, address, reported, tables, now);
}

/// A node is on record with what it is answered, and with nothing else.
proof fn lemma_record(
    m: MembershipView,
    id: u64,
    address: Seq<char>,
    reported: Seq<ReplicaSetView>,
    tables: Seq<(Seq<char>, Regime)>,
    now: u64,
)
    requires
        m.wf(),
    ensures
        forall|other: Seq<ReplicaSetView>| #[trigger]
            recorded(m.heartbeat(id, address, reported, tables, now), id, other) <==> other
                == m.assigned(id, reported),
{
    let w = m.heartbeat(id, address, reported, tables, now);
    let n = NodeStateView {
        id,
        address,
        last_seen: now,
        down: false,
        regions: m.assigned(id, reported),
        tables,
    };
    lemma_upserted(m, n);
    assert(w.nodes.contains(n));
    let k = choose|k: int| 0 <= k < w.nodes.len() && w.nodes[k] == n;
    assert(w.nodes[k].id == id && w.nodes[k].regions == m.assigned(id, reported));
    assert forall|other: Seq<ReplicaSetView>| #[trigger] recorded(w, id, other) implies other
        == m.assigned(id, reported) by {
        let i = choose|i: int|
            0 <= i < w.nodes.len() && (#[trigger] w.nodes[i]).id == id && w.nodes[i].regions
                == other;
        assert(w.nodes.contains(w.nodes[i]));
    }
}

/// A node that reports nothing keeps the regions that are on record for it.
pub proof fn law_heartbeat_kept(
    m: MembershipView,
    id: u64,
    address: Seq<char>,
    tables: Seq<(Seq<char>, Regime)>,
    now: u64,
    regions: Seq<ReplicaSetView>,
)
    requires
        m.wf(),
        recorded(m, id, regions),
        regions.len() > 0,
    ensures
        m.assigned(id, Seq::empty()) == regions,
        recorded(m.heartbeat(id, address, Seq::empty(), tables, now), id, regions),
{
    let i = choose|i: int|
        0 <= i < m.nodes.len() && (#[trigger] m.nodes[i]).id == id && m.nodes[i].regions
            == regions;
    lemma_one_record(m, i);
    lemma_record(m, id, address, Seq::empty(), tables, now);
}

/// The regions that a seed has for a node, in order.
pub open spec fn seeds(m: MembershipView, id: u64) -> Seq<(RegionView, u64)> {
    m.seed.filter(for_node(id))
}

/// Whether a part of a seed is for a node.
pub open spec fn for_node(id: u64) -> spec_fn((RegionView, u64)) -> bool {
    |x: (RegionView, u64)| x.1 == id
}

/// A node that has nothing on record and reports nothing is given its part of the seed. Where the
/// seed has nothing for it, the first node of a cluster without a seed is given the whole
/// keyspace, and everyone else nothing. What is given has no voters and the strong regime.
pub proof fn law_heartbeat_given(m: MembershipView, id: u64)
    requires
        m.wf(),
        forall|i: int|
            0 <= i < m.nodes.len() && (#[trigger] m.nodes[i]).id == id ==> m.nodes[i].regions.len()
                == 0,
    ensures
        ({
            let r = m.assigned(id, Seq::empty());
            let mine = seeds(m, id);
            let taken = exists|i: int|
                0 <= i < m.nodes.len() && (#[trigger] m.nodes[i]).regions.len() > 0;
            &&& mine.len() > 0 ==> r.len() == mine.len() && forall|i: int|
                0 <= i < r.len() ==> (#[trigger] r[i]).region == mine[i].0
            &&& mine.len() == 0 && (taken || m.seed.len() > 0) ==> r.len() == 0
            &&& mine.len() == 0 && !taken && m.seed.len() == 0 ==> r.len() == 1 && r[0].region
                == (RegionView { id: 1, start: Seq::empty(), end: Seq::empty(), epoch: 1 })
            &&& forall|i: int|
                0 <= i < r.len() ==> (#[trigger] r[i]).regime == Regime::Cp && r[i].voters.len()
                    == 0 && r[i].desired.len() == 0
        }),
{
    lemma_seeded(m.seed, id);
    cluster::lemma_rank(m.nodes, id, 0);
}

proof fn lemma_seeded(seed: Seq<(RegionView, u64)>, id: u64)
    ensures
        ({
            let f = seed.filter(for_node(id));
            let s = cluster::seeded_for(seed, id);
            s.len() == f.len() && forall|i: int| 0 <= i < s.len() ==> #[trigger] s[i] == f[i].0
        }),
    decreases seed.len(),
{
    reveal(Seq::filter);
    if seed.len() > 0 {
        lemma_seeded(seed.drop_last(), id);
    }
}

/// Whether a node is up and has a region that covers a key.
pub open spec fn covers(n: NodeStateView, key: Seq<u8>) -> bool {
    !n.down && exists|j: int|
        0 <= j < n.regions.len() && (#[trigger] n.regions[j]).region.contains(key)
}

/// A key is routed exactly where some node that is up has a region that covers it: to the first
/// such node in order of the ids, and to the first such region of that node, as it is on record.
pub proof fn law_route(m: MembershipView, key: Seq<u8>)
    requires
        m.wf(),
    ensures
        ({
            let r = cluster::routed(m.nodes, key, 0);
            &&& r is None <==> forall|i: int|
                0 <= i < m.nodes.len() ==> !covers(#[trigger] m.nodes[i], key)
            &&& forall|i: int, j: int|
                #![trigger m.nodes[i].regions[j]]
                0 <= i < m.nodes.len() && !m.nodes[i].down && 0 <= j < m.nodes[i].regions.len()
                    && m.nodes[i].regions[j].region.contains(key) && (forall|k: int|
                    0 <= k < i ==> !covers(#[trigger] m.nodes[k], key)) && (forall|k: int|
                    0 <= k < j ==> !(#[trigger] m.nodes[i].regions[k]).region.contains(key)) ==> r
                    == Some(
                    PlacedView {
                        region: m.nodes[i].regions[j].region,
                        node_id: m.nodes[i].id,
                        address: m.nodes[i].address,
                        regime: m.nodes[i].regions[j].regime,
                        voters: m.nodes[i].regions[j].voters,
                    },
                )
        }),
{
    let s = m.nodes;
    lemma_routed(s, key, 0);
    assert forall|i: int, j: int|
        #![trigger m.nodes[i].regions[j]]
        0 <= i < s.len() && !s[i].down && 0 <= j < s[i].regions.len()
            && s[i].regions[j].region.contains(key) && (forall|k: int|
            0 <= k < i ==> !covers(#[trigger] s[k], key)) && (forall|k: int|
            0 <= k < j ==> !(#[trigger] s[i].regions[k]).region.contains(key)) implies
        cluster::routed(s, key, 0) == Some(cluster::placed(s[i], s[i].regions[j])) by {
        assert(covers(s[i], key));
        let x = first_covering(s, key, 0);
        assert(x == i) by {
            if x < i {
                assert(covers(s[x], key));
            }
        }
        lemma_held(s[i].regions, key, 0);
        let h = cluster::holding(s[i].regions, key, 0);
        if h < j {
            assert(s[i].regions[h].region.contains(key));
        } else if j < h {
            assert(!s[i].regions[j].region.contains(key));
        }
    }
}

spec fn first_covering(s: Seq<NodeStateView>, key: Seq<u8>, i: int) -> int
    decreases s.len() - i,
{
    if i >= s.len() {
        s.len() as int
    } else if covers(s[i], key) {
        i
    } else {
        first_covering(s, key, i + 1)
    }
}

proof fn lemma_held(r: Seq<ReplicaSetView>, key: Seq<u8>, i: int)
    requires
        0 <= i <= r.len(),
    ensures
        i <= cluster::holding(r, key, i) <= r.len(),
        cluster::holding(r, key, i) < r.len() ==> r[cluster::holding(r, key, i)].region.contains(
            key,
        ),
        forall|k: int|
            i <= k < cluster::holding(r, key, i) ==> !(#[trigger] r[k]).region.contains(key),
    decreases r.len() - i,
{
    if i < r.len() && !r[i].region.contains(key) {
        lemma_held(r, key, i + 1);
    }
}

proof fn lemma_routed(s: Seq<NodeStateView>, key: Seq<u8>, i: int)
    requires
        0 <= i <= s.len(),
    ensures
        ({
            let x = first_covering(s, key, i);
            &&& i <= x <= s.len()
            &&& forall|k: int| i <= k < x ==> !covers(#[trigger] s[k], key)
            &&& if x < s.len() {
                covers(s[x], key) && cluster::routed(s, key, i) == Some(
                    cluster::placed(s[x], s[x].regions[cluster::holding(s[x].regions, key, 0)]),
                )
            } else {
                cluster::routed(s, key, i) is None
            }
        }),
    decreases s.len() - i,
{
    if i < s.len() {
        lemma_held(s[i].regions, key, 0);
        if !covers(s[i], key) {
            lemma_routed(s, key, i + 1);
            let h = cluster::holding(s[i].regions, key, 0);
            if !s[i].down && h < s[i].regions.len() {
                assert(s[i].regions[h].region.contains(key));
            }
        } else {
            let j = choose|j: int|
                0 <= j < s[i].regions.len() && (#[trigger] s[i].regions[j]).region.contains(key);
            assert(s[i].regions[j].region.contains(key));
        }
    }
}

/// Whether a placed region is one of a node that is up, as it is on record.
pub open spec fn stands(m: MembershipView, p: PlacedView) -> bool {
    exists|i: int, j: int|
        #![trigger m.nodes[i].regions[j]]
        0 <= i < m.nodes.len() && 0 <= j < m.nodes[i].regions.len() && !m.nodes[i].down
            && p.node_id == m.nodes[i].id && p.address == m.nodes[i].address && p.region
            == m.nodes[i].regions[j].region && p.regime == m.nodes[i].regions[j].regime && p.voters
            == m.nodes[i].regions[j].voters
}

/// The listing has each region of each node that is up, as it is on record, and nothing else; the
/// start keys never go down along it.
pub proof fn law_list(m: MembershipView)
    ensures
        forall|p: PlacedView| #[trigger] m.list().contains(p) <==> stands(m, p),
        forall|a: int, b: int|
            #![trigger m.list()[a], m.list()[b]]
            0 <= a < b < m.list().len() ==> bytes::lex_le(
                m.list()[a].region.start,
                m.list()[b].region.start,
            ),
{
    let s = m.nodes;
    let p = cluster::placements(s);
    let key = order::key_of::<PlacedRegion>();
    let l = m.list();
    lemma_placements(s);
    order::lemma_sorted(key, p);
    assert forall|x: PlacedView| stands(m, x) implies #[trigger] l.contains(x) by {
        let (i, j) = choose|i: int, j: int|
            #![trigger m.nodes[i].regions[j]]
            0 <= i < m.nodes.len() && 0 <= j < m.nodes[i].regions.len() && !m.nodes[i].down
                && x.node_id == m.nodes[i].id && x.address == m.nodes[i].address && x.region
                == m.nodes[i].regions[j].region && x.regime == m.nodes[i].regions[j].regime
                && x.voters == m.nodes[i].regions[j].voters;
        assert(x == cluster::placed(s[i], s[i].regions[j]));
        assert(p.contains(x));
        let k = choose|k: int| 0 <= k < p.len() && p[k] == x;
        order::lemma_from(key, p, k);
    }
    assert forall|x: PlacedView| #[trigger] l.contains(x) implies stands(m, x) by {
        let k = choose|k: int| 0 <= k < l.len() && l[k] == x;
        order::lemma_from(key, p, k);
        assert(p.contains(x));
        let (i, j) = choose|i: int, j: int|
            #![trigger s[i].regions[j]]
            0 <= i < s.len() && !s[i].down && 0 <= j < s[i].regions.len() && x
                == cluster::placed(s[i], s[i].regions[j]);
        assert(s[i].regions[j] == m.nodes[i].regions[j]);
    }
    assert forall|a: int, b: int| #![trigger l[a], l[b]] 0 <= a < b < l.len() implies bytes::lex_le(
        l[a].region.start,
        l[b].region.start,
    ) by {
        assert(bytes::lex_le(key(l[a]), key(l[b])));
    }
}

proof fn lemma_placements(s: Seq<NodeStateView>)
    ensures
        forall|i: int, j: int|
            #![trigger s[i].regions[j]]
            0 <= i < s.len() && !s[i].down && 0 <= j < s[i].regions.len()
                ==> cluster::placements(s).contains(cluster::placed(s[i], s[i].regions[j])),
        forall|x: PlacedView| #[trigger]
            cluster::placements(s).contains(x) ==> exists|i: int, j: int|
                #![trigger s[i].regions[j]]
                0 <= i < s.len() && !s[i].down && 0 <= j < s[i].regions.len() && x
                    == cluster::placed(s[i], s[i].regions[j]),
    decreases s.len(),
{
    let p = cluster::placements(s);
    if s.len() > 0 {
        let t = s.drop_last();
        let q = cluster::placements(t);
        let n = s.last();
        lemma_placements(t);
        assert forall|i: int, j: int|
            #![trigger s[i].regions[j]]
            0 <= i < s.len() && !s[i].down && 0 <= j < s[i].regions.len() implies p.contains(
            cluster::placed(s[i], s[i].regions[j]),
        ) by {
            let x = cluster::placed(s[i], s[i].regions[j]);
            if i < t.len() {
                assert(t[i].regions[j] == s[i].regions[j]);
                assert(q.contains(x));
                let k = choose|k: int| 0 <= k < q.len() && q[k] == x;
                assert(p[k] == x);
            } else {
                assert(p[q.len() + j] == x);
            }
        }
        assert forall|x: PlacedView| #[trigger] p.contains(x) implies exists|i: int, j: int|
            #![trigger s[i].regions[j]]
            0 <= i < s.len() && !s[i].down && 0 <= j < s[i].regions.len() && x == cluster::placed(
                s[i],
                s[i].regions[j],
            ) by {
            let k = choose|k: int| 0 <= k < p.len() && p[k] == x;
            if k < q.len() {
                assert(q.contains(x));
                let (i, j) = choose|i: int, j: int|
                    #![trigger t[i].regions[j]]
                    0 <= i < t.len() && !t[i].down && 0 <= j < t[i].regions.len() && x
                        == cluster::placed(t[i], t[i].regions[j]);
                assert(s[i].regions[j] == t[i].regions[j]);
            } else {
                assert(s[s.len() - 1].regions[k - q.len()] == n.regions[k - q.len()]);
            }
        }
    }
}

/// The nodes that are up are exactly those that are not marked down, each once and in order of
/// the ids.
pub proof fn law_live(m: MembershipView)
    requires
        m.wf(),
    ensures
        forall|id: u64| #[trigger]
            cluster::live(m.nodes).contains(id) <==> exists|i: int|
                0 <= i < m.nodes.len() && (#[trigger] m.nodes[i]).id == id && !m.nodes[i].down,
        forall|a: int, b: int|
            #![trigger cluster::live(m.nodes)[a], cluster::live(m.nodes)[b]]
            0 <= a < b < cluster::live(m.nodes).len() ==> cluster::live(m.nodes)[a]
                < cluster::live(m.nodes)[b],
{
    lemma_live(m.nodes);
}

proof fn lemma_live(s: Seq<NodeStateView>)
    requires
        (MembershipView { nodes: s, seed: Seq::empty() }).wf(),
    ensures
        forall|id: u64| #[trigger]
            cluster::live(s).contains(id) <==> exists|i: int|
                0 <= i < s.len() && (#[trigger] s[i]).id == id && !s[i].down,
        forall|a: int, b: int|
            #![trigger cluster::live(s)[a], cluster::live(s)[b]]
            0 <= a < b < cluster::live(s).len() ==> cluster::live(s)[a] < cluster::live(s)[b],
    decreases s.len(),
{
    if s.len() > 0 {
        let t = s.drop_last();
        let m = MembershipView { nodes: s, seed: Seq::empty() };
        assert forall|a: int, b: int| #![trigger t[a], t[b]] 0 <= a < b < t.len() implies t[a].id
            < t[b].id by {
            assert(m.nodes[a].id < m.nodes[b].id);
        }
        lemma_live(t);
        let p = cluster::live(t);
        let l = cluster::live(s);
        let n = s.last();
        assert forall|id: u64| #[trigger] l.contains(id) implies exists|i: int|
            0 <= i < s.len() && (#[trigger] s[i]).id == id && !s[i].down by {
            let k = choose|k: int| 0 <= k < l.len() && l[k] == id;
            if k < p.len() {
                assert(p.contains(id)) by {
                    assert(p[k] == id);
                }
                let i = choose|i: int| 0 <= i < t.len() && (#[trigger] t[i]).id == id && !t[i].down;
                assert(s[i] == t[i]);
            } else {
                assert(s[s.len() - 1].id == id);
            }
        }
        assert forall|id: u64|
            (exists|i: int| 0 <= i < s.len() && (#[trigger] s[i]).id == id && !s[i].down) implies
            #[trigger] l.contains(id) by {
            let i = choose|i: int| 0 <= i < s.len() && (#[trigger] s[i]).id == id && !s[i].down;
            if i < t.len() {
                assert(t[i] == s[i]);
                assert(p.contains(id));
                let k = choose|k: int| 0 <= k < p.len() && p[k] == id;
                assert(l[k] == id);
            } else {
                assert(l[p.len() as int] == id);
            }
        }
        assert forall|a: int, b: int| #![trigger l[a], l[b]] 0 <= a < b < l.len() implies l[a]
            < l[b] by {
            if b >= p.len() {
                assert(p.contains(l[a])) by {
                    assert(p[a] == l[a]);
                }
                let i = choose|i: int|
                    0 <= i < t.len() && (#[trigger] t[i]).id == l[a] && !t[i].down;
                assert(m.nodes[i].id < m.nodes[s.len() - 1].id);
            }
        }
    }
}

/// How many tables the nodes in front of the `i`-th declared.
pub open spec fn in_front(s: Seq<NodeStateView>, i: int) -> int
    decreases i,
{
    if i <= 0 {
        0
    } else {
        in_front(s, i - 1) + s[i - 1].tables.len()
    }
}

/// All declarations are seen, in order of the nodes and as each node lists them.
pub proof fn law_sightings(s: Seq<NodeStateView>, i: int, j: int)
    requires
        0 <= i < s.len(),
        0 <= j < s[i].tables.len(),
    ensures
        cluster::sightings(s).len() == in_front(s, s.len() as int),
        0 <= in_front(s, i) + j < cluster::sightings(s).len(),
        cluster::sightings(s)[in_front(s, i) + j] == (Sighting {
            name: s[i].tables[j].0,
            regime: s[i].tables[j].1,
            node_id: s[i].id,
        }),
    decreases s.len(),
{
    let t = s.drop_last();
    lemma_sightings_len(s);
    lemma_sightings_len(t);
    lemma_in_front(s, t, i);
    lemma_in_front(s, t, t.len() as int);
    if i < t.len() {
        law_sightings(t, i, j);
        assert(t[i] == s[i]);
        assert(cluster::sightings(s)[in_front(s, i) + j] == cluster::sightings(
            t,
        )[in_front(s, i) + j]);
    }
}

proof fn lemma_sightings_len(s: Seq<NodeStateView>)
    ensures
        cluster::sightings(s).len() == in_front(s, s.len() as int),
    decreases s.len(),
{
    if s.len() > 0 {
        let t = s.drop_last();
        lemma_sightings_len(t);
        lemma_in_front(s, t, t.len() as int);
    }
}

proof fn lemma_in_front(s: Seq<NodeStateView>, t: Seq<NodeStateView>, i: int)
    requires
        0 <= i <= t.len() <= s.len(),
        forall|k: int| 0 <= k < t.len() ==> #[trigger] s[k] == t[k],
    ensures
        in_front(s, i) == in_front(t, i),
    decreases i,
{
    if i > 0 {
        lemma_in_front(s, t, i - 1);
        assert(s[i - 1] == t[i - 1]);
    }
}

/// Whether a declaration is the first of its name.
pub open spec fn opens(s: Seq<Sighting>, k: int) -> bool {
    &&& 0 <= k < s.len()
    &&& forall|i: int| 0 <= i < k ==> (#[trigger] s[i]).name != s[k].name
}

/// Whether a declaration is the first that contradicts the first one of its name.
pub open spec fn contradicts(s: Seq<Sighting>, k: int, l: int) -> bool {
    &&& opens(s, k)
    &&& k < l < s.len()
    &&& s[l].name == s[k].name
    &&& s[l].regime != s[k].regime
    &&& forall|i: int|
        k < i < l && (#[trigger] s[i]).name == s[k].name ==> s[i].regime == s[k].regime
}

/// The tables are those that were declared, each as its first declaration has it.
pub proof fn law_tables(s: Seq<Sighting>)
    ensures
        forall|x: Sighting| #[trigger]
            cluster::firsts(s).contains(x) <==> exists|k: int| #[trigger] opens(s, k) && s[k] == x,
        forall|i: int, j: int|
            #![trigger cluster::firsts(s)[i], cluster::firsts(s)[j]]
            0 <= i < j < cluster::firsts(s).len() ==> cluster::firsts(s)[i].name
                != cluster::firsts(s)[j].name,
        forall|k: int|
            0 <= k < s.len() ==> exists|i: int|
                0 <= i < cluster::firsts(s).len() && (#[trigger] cluster::firsts(s)[i]).name
                    == (#[trigger] s[k]).name,
    decreases s.len(),
{
    if s.len() > 0 {
        let d = s.drop_last();
        let last = s.len() - 1;
        law_tables(d);
        let f = cluster::firsts(d);
        let g = cluster::firsts(s);
        let x = s.last();
        lemma_named(f, x.name, 0);
        let seen = cluster::named(f, x.name, 0) < f.len();
        assert(seen == !opens(s, last)) by {
            if seen {
                let i = cluster::named(f, x.name, 0);
                assert(f.contains(f[i]));
                let k = choose|k: int| #[trigger] opens(d, k) && d[k] == f[i];
                assert(s[k].name == x.name);
            } else if !opens(s, last) {
                let i = choose|i: int| 0 <= i < last && (#[trigger] s[i]).name == x.name;
                assert(d[i] == s[i]);
                let j = choose|j: int| 0 <= j < f.len() && (#[trigger] f[j]).name == d[i].name;
                assert(f[j].name == x.name);
            }
        }
        assert forall|k: int| 0 <= k < d.len() implies #[trigger] opens(d, k) == opens(s, k) by {
            if opens(d, k) {
                assert forall|i: int| 0 <= i < k implies (#[trigger] s[i]).name != s[k].name by {
                    assert(d[i] == s[i]);
                }
            }
            if opens(s, k) {
                assert forall|i: int| 0 <= i < k implies (#[trigger] d[i]).name != d[k].name by {
                    assert(s[i] == d[i]);
                }
            }
        }
        assert forall|y: Sighting| #[trigger] g.contains(y) implies exists|k: int| #[trigger]
            opens(s, k) && s[k] == y by {
            let i = choose|i: int| 0 <= i < g.len() && g[i] == y;
            if i < f.len() {
                assert(f.contains(y)) by {
                    assert(f[i] == y);
                }
                let k = choose|k: int| #[trigger] opens(d, k) && d[k] == y;
                assert(opens(s, k) && s[k] == y);
            } else {
                assert(opens(s, last) && s[last] == y);
            }
        }
        assert forall|y: Sighting|
            (exists|k: int| #[trigger] opens(s, k) && s[k] == y) implies #[trigger] g.contains(y) by {
            let k = choose|k: int| #[trigger] opens(s, k) && s[k] == y;
            if k < d.len() {
                assert(opens(d, k) && d[k] == y);
                assert(f.contains(y));
                let i = choose|i: int| 0 <= i < f.len() && f[i] == y;
                assert(g[i] == y);
            } else {
                assert(g[f.len() as int] == y);
            }
        }
        assert forall|k: int| 0 <= k < s.len() implies exists|i: int|
            0 <= i < g.len() && (#[trigger] g[i]).name == (#[trigger] s[k]).name by {
            if k < d.len() {
                assert(d[k] == s[k]);
                let i = choose|i: int| 0 <= i < f.len() && (#[trigger] f[i]).name == d[k].name;
                assert(g[i] == f[i]);
            } else if seen {
                let i = cluster::named(f, x.name, 0);
                assert(g[i].name == s[k].name);
            } else {
                assert(g[f.len() as int].name == s[k].name);
            }
        }
        assert forall|i: int, j: int|
            #![trigger g[i], g[j]]
            0 <= i < j < g.len() implies g[i].name != g[j].name by {
            assert(g[i] == f[i]);
            if j < f.len() {
                assert(g[j] == f[j]);
            } else {
                assert(f[i].name != x.name);
            }
        }
    }
}

proof fn lemma_named(s: Seq<Sighting>, name: Seq<char>, i: int)
    requires
        0 <= i <= s.len(),
    ensures
        i <= cluster::named(s, name, i) <= s.len(),
        cluster::named(s, name, i) < s.len() ==> s[cluster::named(s, name, i)].name == name,
        forall|j: int| i <= j < cluster::named(s, name, i) ==> (#[trigger] s[j]).name != name,
    decreases s.len() - i,
{
    if i < s.len() && s[i].name != name {
        lemma_named(s, name, i + 1);
    }
}

/// A conflict is reported for each table that two declarations describe differently, and for no
/// other: with the first declaration, and with the first that contradicts it.
pub proof fn law_conflicts(s: Seq<Sighting>)
    ensures
        forall|c: ConflictView| #[trigger]
            cluster::conflicts(s).contains(c) <==> exists|k: int, l: int| #[trigger]
                contradicts(s, k, l) && c == (ConflictView {
                    name: s[k].name,
                    regime: s[k].regime,
                    node_id: s[k].node_id,
                    other_regime: s[l].regime,
                    other_node_id: s[l].node_id,
                }),
    decreases s.len(),
{
    if s.len() > 0 {
        let d = s.drop_last();
        let last = s.len() - 1;
        law_conflicts(d);
        law_tables(d);
        let f = cluster::firsts(d);
        let x = s.last();
        let i = cluster::named(f, x.name, 0);
        lemma_named(f, x.name, 0);
        let old = cluster::conflicts(d);
        let new = cluster::conflicts(s);
        assert(forall|k: int| 0 <= k < d.len() ==> #[trigger] d[k] == s[k]);
        assert forall|k: int, l: int| 0 <= l < d.len() implies #[trigger] contradicts(d, k, l)
            == contradicts(s, k, l) by {
            lemma_contradicts(d, s, k, l);
        }
        let adds = i < f.len() && f[i].regime != x.regime && !cluster::conflicted(old, x.name);
        lemma_adds(s, adds);
        assert forall|c: ConflictView| #[trigger] new.contains(c) implies exists|k: int, l: int| #[trigger]
            contradicts(s, k, l) && c == told(s, k, l) by {
            let n = choose|n: int| 0 <= n < new.len() && new[n] == c;
            if n < old.len() {
                assert(old[n] == c);
                assert(old.contains(c));
                let (k, l) = choose|k: int, l: int| #[trigger]
                    contradicts(d, k, l) && c == told(d, k, l);
                assert(contradicts(s, k, l) && c == told(s, k, l));
            } else {
                assert(f.contains(f[i]));
                let k = choose|k: int| #[trigger] contradicts(s, k, last) && s[k] == f[i];
                assert(c == told(s, k, last));
            }
        }
        assert forall|c: ConflictView|
            (exists|k: int, l: int| #[trigger] contradicts(s, k, l) && c == told(s, k, l)) implies #[trigger] new.contains(
            c,
        ) by {
            let (k, l) = choose|k: int, l: int| #[trigger]
                contradicts(s, k, l) && c == told(s, k, l);
            if l < last {
                assert(contradicts(d, k, l) && c == told(d, k, l));
                assert(old.contains(c));
                let n = choose|n: int| 0 <= n < old.len() && old[n] == c;
                assert(new[n] == c);
            } else {
                let h = choose|h: int| #[trigger] contradicts(s, h, last) && s[h] == f[i];
                assert(h == k) by {
                    if h < k {
                        assert(s[h].name != s[k].name);
                    } else if k < h {
                        assert(s[k].name != s[h].name);
                    }
                }
                assert(new[old.len() as int] == c);
            }
        }
    }
}

/// The conflict that two declarations make.
pub open spec fn told(s: Seq<Sighting>, k: int, l: int) -> ConflictView {
    ConflictView {
        name: s[k].name,
        regime: s[k].regime,
        node_id: s[k].node_id,
        other_regime: s[l].regime,
        other_node_id: s[l].node_id,
    }
}

proof fn lemma_contradicts(d: Seq<Sighting>, s: Seq<Sighting>, k: int, l: int)
    requires
        d.len() <= s.len(),
        forall|i: int| 0 <= i < d.len() ==> #[trigger] d[i] == s[i],
        l < d.len(),
    ensures
        contradicts(d, k, l) == contradicts(s, k, l),
{
    if contradicts(s, k, l) {
        assert forall|i: int| 0 <= i < k implies (#[trigger] d[i]).name != d[k].name by {
            assert(s[i].name != s[k].name);
        }
        assert forall|i: int|
            k < i < l && (#[trigger] d[i]).name == d[k].name implies d[i].regime == d[k].regime by {
            assert(s[i].name == s[k].name);
        }
    }
    if contradicts(d, k, l) {
        assert forall|i: int| 0 <= i < k implies (#[trigger] s[i]).name != s[k].name by {
            assert(d[i].name != d[k].name);
        }
        assert forall|i: int|
            k < i < l && (#[trigger] s[i]).name == s[k].name implies s[i].regime == s[k].regime by {
            assert(d[i].name == d[k].name);
        }
    }
}

/// When one more declaration makes a conflict.
proof fn lemma_adds(s: Seq<Sighting>, adds: bool)
    requires
        s.len() > 0,
        ({
            let d = s.drop_last();
            let f = cluster::firsts(d);
            let i = cluster::named(f, s.last().name, 0);
            adds == (i < f.len() && f[i].regime != s.last().regime && !cluster::conflicted(
                cluster::conflicts(d),
                s.last().name,
            ))
        }),
        forall|c: ConflictView| #[trigger]
            cluster::conflicts(s.drop_last()).contains(c) <==> exists|k: int, l: int| #[trigger]
                contradicts(s.drop_last(), k, l) && c == told(s.drop_last(), k, l),
    ensures
        ({
            let last = s.len() - 1;
            let f = cluster::firsts(s.drop_last());
            let i = cluster::named(f, s.last().name, 0);
            &&& adds ==> exists|k: int| #[trigger] contradicts(s, k, last) && s[k] == f[i]
            &&& (exists|k: int| #[trigger] contradicts(s, k, last)) ==> adds
        }),
{
    let d = s.drop_last();
    let last = s.len() - 1;
    let f = cluster::firsts(d);
    let x = s.last();
    let i = cluster::named(f, x.name, 0);
    let old = cluster::conflicts(d);
    law_tables(d);
    lemma_named(f, x.name, 0);
    assert(forall|k: int| 0 <= k < d.len() ==> #[trigger] d[k] == s[k]);
    if adds {
        assert(f.contains(f[i]));
        let k = choose|k: int| #[trigger] opens(d, k) && d[k] == f[i];
        assert(opens(s, k)) by {
            assert forall|a: int| 0 <= a < k implies (#[trigger] s[a]).name != s[k].name by {
                assert(d[a].name != d[k].name);
            }
        }
        assert(contradicts(s, k, last)) by {
            if exists|a: int|
                k < a < last && (#[trigger] s[a]).name == s[k].name && s[a].regime
                    != s[k].regime {
                let a = choose|a: int|
                    k < a < last && (#[trigger] s[a]).name == s[k].name && s[a].regime
                        != s[k].regime;
                let l = lemma_least(d, k, a);
                let c = told(d, k, l);
                assert(contradicts(d, k, l) && c == told(d, k, l));
                assert(old.contains(c));
                let n = choose|n: int| 0 <= n < old.len() && old[n] == c;
                assert(old[n].name == x.name);
            }
        }
    }
    if exists|k: int| #[trigger] contradicts(s, k, last) {
        let k = choose|k: int| #[trigger] contradicts(s, k, last);
        assert(opens(d, k)) by {
            assert forall|a: int| 0 <= a < k implies (#[trigger] d[a]).name != d[k].name by {
                assert(s[a].name != s[k].name);
            }
        }
        assert(f.contains(d[k]));
        let j = choose|j: int| 0 <= j < f.len() && f[j] == d[k];
        assert(f[j].name == x.name);
        assert(i <= j) by {
            if j < i {
                assert(f[j].name != x.name);
            }
        }
        assert(i == j) by {
            if i < j {
                assert(f[i].name != f[j].name);
            }
        }
        if cluster::conflicted(old, x.name) {
            let n = choose|n: int| 0 <= n < old.len() && (#[trigger] old[n]).name == x.name;
            assert(old.contains(old[n]));
            let (h, l) = choose|h: int, l: int| #[trigger]
                contradicts(d, h, l) && old[n] == told(d, h, l);
            assert(h == k) by {
                if h < k {
                    assert(d[h].name != d[k].name);
                } else if k < h {
                    assert(d[k].name != d[h].name);
                }
            }
            assert(s[l].name == s[k].name && s[l].regime != s[k].regime);
        }
    }
}

/// The first contradiction at or before one.
proof fn lemma_least(s: Seq<Sighting>, k: int, a: int) -> (l: int)
    requires
        opens(s, k),
        k < a < s.len(),
        s[a].name == s[k].name,
        s[a].regime != s[k].regime,
    ensures
        contradicts(s, k, l),
        l <= a,
    decreases a - k,
{
    if exists|b: int|
        k < b < a && (#[trigger] s[b]).name == s[k].name && s[b].regime != s[k].regime {
        let b = choose|b: int|
            k < b < a && (#[trigger] s[b]).name == s[k].name && s[b].regime != s[k].regime;
        lemma_least(s, k, b)
    } else {
        a
    }
}

/// A node is known once it was heard from, and down where it is marked so.
pub proof fn law_known(m: MembershipView, id: u64)
    requires
        m.wf(),
    ensures
        cluster::node_at(m.nodes, id) is Some <==> exists|i: int|
            0 <= i < m.nodes.len() && (#[trigger] m.nodes[i]).id == id,
        forall|i: int|
            0 <= i < m.nodes.len() && (#[trigger] m.nodes[i]).id == id ==> cluster::node_at(
                m.nodes,
                id,
            ) == Some(m.nodes[i]),
{
    cluster::lemma_rank(m.nodes, id, 0);
    assert forall|i: int| 0 <= i < m.nodes.len() && (#[trigger] m.nodes[i]).id == id implies cluster::node_at(
        m.nodes,
        id,
    ) == Some(m.nodes[i]) by {
        lemma_one_record(m, i);
    }
}

/// A sweep names exactly the nodes that were up and have been silent for longer than the timeout,
/// in order; just those are down afterwards, besides those that were, and nothing else changes.
pub proof fn law_swept(s: Seq<NodeStateView>, now: u64, timeout_ms: u64)
    ensures
        ({
            let t = cluster::swept(s, now, timeout_ms);
            let d = cluster::downed(s, now, timeout_ms);
            &&& t.len() == s.len()
            &&& forall|i: int|
                0 <= i < s.len() ==> #[trigger] t[i] == (NodeStateView {
                    down: s[i].down || now - s[i].last_seen > timeout_ms,
                    ..s[i]
                })
            &&& forall|id: u64| #[trigger]
                d.contains(id) <==> exists|i: int|
                    0 <= i < s.len() && (#[trigger] s[i]).id == id && !s[i].down && now
                        - s[i].last_seen > timeout_ms
        }),
    decreases s.len(),
{
    if s.len() > 0 {
        let r = s.drop_last();
        let p = cluster::downed(r, now, timeout_ms);
        let d = cluster::downed(s, now, timeout_ms);
        law_swept(r, now, timeout_ms);
        assert forall|id: u64| #[trigger] d.contains(id) implies exists|i: int|
            0 <= i < s.len() && (#[trigger] s[i]).id == id && !s[i].down && now - s[i].last_seen
                > timeout_ms by {
            let k = choose|k: int| 0 <= k < d.len() && d[k] == id;
            if k < p.len() {
                assert(p[k] == id);
                assert(p.contains(id));
                let i = choose|i: int|
                    0 <= i < r.len() && (#[trigger] r[i]).id == id && !r[i].down && now
                        - r[i].last_seen > timeout_ms;
                assert(s[i] == r[i]);
            } else {
                assert(s[s.len() - 1].id == id);
            }
        }
        assert forall|id: u64|
            (exists|i: int|
                0 <= i < s.len() && (#[trigger] s[i]).id == id && !s[i].down && now
                    - s[i].last_seen > timeout_ms) implies #[trigger] d.contains(id) by {
            let i = choose|i: int|
                0 <= i < s.len() && (#[trigger] s[i]).id == id && !s[i].down && now
                    - s[i].last_seen > timeout_ms;
            if i < r.len() {
                assert(r[i] == s[i]);
                assert(p.contains(id));
                let k = choose|k: int| 0 <= k < p.len() && p[k] == id;
                assert(d[k] == id);
            } else {
                assert(d[p.len() as int] == id);
            }
        }
    }
}

} // verus!
