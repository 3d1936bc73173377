//! Between what the placement driver keeps and its wire form.
//!
//! Ownership (`node_id`, `address`) is asymmetric on the wire: a data node that reports its own
//! regions leaves them empty, since each is tagged with the heartbeat's node, and the placement
//! driver fills them in where it answers a routing query.

use vstd::prelude::*;
use crate::bytes;
use crate::pd::cluster::{ConflictView, PlacedRegion, PlacedView, Regime, ReplicaSet, ReplicaSetView, Table, TableConflict, TableView};
use crate::pd::order;
use crate::pd::region::{Region, RegionView, TableId};
use crate::text;

verus! {

/// A regime on the wire, where a peer may say what this one does not know.
#[derive(Clone, Copy, Debug, PartialEq, Eq, Structural)]
pub enum WireRegime {
    Cp,
    Ap,
    Unrecognized,
}

/// A region on the wire.
#[derive(Clone, Debug, PartialEq, Eq)]
pub struct WireRegion {
    pub id: u64,
    pub start_key: Vec<u8>,
    pub end_key: Vec<u8>,
    pub epoch: u64,
    pub node_id: u64,
    pub address: String,
    pub regime: WireRegime,
    pub voters: Vec<u64>,
    pub desired: Vec<u64>,
}

/// A [`WireRegion`] as values.
#[verifier::ext_equal]
pub struct WireRegionView {
    pub id: u64,
    pub start_key: Seq<u8>,
    pub end_key: Seq<u8>,
    pub epoch: u64,
    pub node_id: u64,
    pub address: Seq<char>,
    pub regime: WireRegime,
    pub voters: Seq<u64>,
    pub desired: Seq<u64>,
}

impl View for WireRegion {
    type V = WireRegionView;

    open spec fn view(&self) -> WireRegionView {
        WireRegionView {
            id: self.id,
            start_key: self.start_key@,
            end_key: self.end_key@,
            epoch: self.epoch,
            node_id: self.node_id,
            address: self.address@,
            regime: self.regime,
            voters: self.voters@,
            desired: self.desired@,
        }
    }
}

/// A table on the wire.
#[derive(Clone, Debug, PartialEq, Eq)]
pub struct TableDecl {
    pub name: String,
    pub regime: WireRegime,
    pub id: TableId,
}

/// A [`TableDecl`] as values.
#[verifier::ext_equal]
pub struct TableDeclView {
    pub name: Seq<char>,
    pub regime: WireRegime,
    pub id: TableId,
}

impl View for TableDecl {
    type V = TableDeclView;

    open spec fn view(&self) -> TableDeclView {
        TableDeclView { name: self.name@, regime: self.regime, id: self.id }
    }
}

/// Where a node can be reached.
#[derive(Clone, Debug, PartialEq, Eq)]
pub struct NodeAddr {
    pub node_id: u64,
    pub address: String,
}

impl View for NodeAddr {
    type V = (u64, Seq<char>);

    open spec fn view(&self) -> (u64, Seq<char>) {
        (self.node_id, self.address@)
    }
}

/// A conflict between two nodes on the wire.
#[derive(Clone, Debug, PartialEq, Eq)]
pub struct WireConflict {
    pub name: String,
    pub regime: WireRegime,
    pub node_id: u64,
    pub other_regime: WireRegime,
    pub other_node_id: u64,
}

/// A [`WireConflict`] as values.
#[verifier::ext_equal]
pub struct WireConflictView {
    pub name: Seq<char>,
    pub regime: WireRegime,
    pub node_id: u64,
    pub other_regime: WireRegime,
    pub other_node_id: u64,
}

impl View for WireConflict {
    type V = WireConflictView;

    open spec fn view(&self) -> WireConflictView {
        WireConflictView {
            name: self.name@,
            regime: self.regime,
            node_id: self.node_id,
            other_regime: self.other_regime,
            other_node_id: self.other_node_id,
        }
    }
}

/// The answer to a question for the tables.
#[derive(Clone, Debug, PartialEq, Eq)]
pub struct ListTablesResponse {
    pub tables: Vec<TableDecl>,
    pub conflicts: Vec<WireConflict>,
}

/// A regime as it goes out.
pub open spec fn regime_out(r: Regime) -> WireRegime {
    match r {
        Regime::Cp => WireRegime::Cp,
        Regime::Ap => WireRegime::Ap,
    }
}

/// A regime as it comes in: what is not known is strong, never weakened silently.
pub open spec fn regime_in(r: WireRegime) -> Regime {
    match r {
        WireRegime::Ap => Regime::Ap,
        _ => Regime::Cp,
    }
}

/// A region as it goes out, with no owner.
pub open spec fn region_out(r: RegionView) -> WireRegionView {
    WireRegionView {
        id: r.id,
        start_key: r.start,
        end_key: r.end,
        epoch: r.epoch,
        node_id: 0,
        address: Seq::empty(),
        regime: WireRegime::Cp,
        voters: Seq::empty(),
        desired: Seq::empty(),
    }
}

/// A region as it comes in, its owner dropped.
pub open spec fn region_in(r: WireRegionView) -> RegionView {
    RegionView { id: r.id, start: r.start_key, end: r.end_key, epoch: r.epoch }
}

/// A replica set as it goes out.
pub open spec fn replicas_out(s: ReplicaSetView) -> WireRegionView {
    WireRegionView {
        regime: regime_out(s.regime),
        voters: s.voters,
        desired: s.desired,
        ..region_out(s.region)
    }
}

/// A replica set as it comes in.
pub open spec fn replicas_in(r: WireRegionView) -> ReplicaSetView {
    ReplicaSetView {
        region: region_in(r),
        regime: regime_in(r.regime),
        voters: r.voters,
        desired: r.desired,
    }
}

/// A placed region as it goes out, with its owner.
pub open spec fn placed_out(p: PlacedView) -> WireRegionView {
    WireRegionView {
        node_id: p.node_id,
        address: p.address,
        regime: regime_out(p.regime),
        voters: p.voters,
        ..region_out(p.region)
    }
}

/// A table as it goes out.
pub open spec fn table_out(t: TableView) -> TableDeclView {
    TableDeclView { name: t.name, regime: regime_out(t.regime), id: t.id }
}

/// A table as it comes in.
pub open spec fn table_in(t: TableDeclView) -> TableView {
    TableView { id: t.id, name: t.name, regime: regime_in(t.regime) }
}

/// A conflict as it goes out.
pub open spec fn conflict_out(c: ConflictView) -> WireConflictView {
    WireConflictView {
        name: c.name,
        regime: regime_out(c.regime),
        node_id: c.node_id,
        other_regime: regime_out(c.other_regime),
        other_node_id: c.other_node_id,
    }
}

/// A region as a data node sends it: no owner, which the heartbeat's node id gives.
pub fn to_proto(r: &Region) -> (w: WireRegion)
    ensures
        w@ == region_out(r@),
{
    let w = WireRegion {
        id: r.id,
        start_key: bytes::copy(r.start.as_slice()),
        end_key: bytes::copy(r.end.as_slice()),
        epoch: r.epoch,
        node_id: 0,
        address: text::owned(""),
        regime: WireRegime::Cp,
        voters: Vec::new(),
        desired: Vec::new(),
    };
    proof {
        reveal_strlit("");
        assert(w@ =~= region_out(r@));
    }
    w
}

/// A replica set as it is sent, with its regime and voters; ownership stays unset.
pub fn replica_set_to_proto(rs: &ReplicaSet) -> (w: WireRegion)
    ensures
        w@ == replicas_out(rs@),
{
    let mut w = to_proto(&rs.region);
    w.regime = regime_to_proto(rs.regime);
    w.voters = rs.voters.clone();
    w.desired = rs.desired.clone();
    assert(w@ =~= replicas_out(rs@));
    w
}

/// A received replica set.
pub fn replica_set_from_proto(r: &WireRegion) -> (s: ReplicaSet)
    ensures
        s@ == replicas_in(r@),
{
    ReplicaSet {
        region: from_proto(r),
        regime: regime_from_proto(r.regime),
        voters: r.voters.clone(),
        desired: r.desired.clone(),
    }
}

/// A regime as it is sent.
pub fn regime_to_proto(regime: Regime) -> (r: WireRegime)
    ensures
        r == regime_out(regime),
{
    match regime {
        Regime::Cp => WireRegime::Cp,
        Regime::Ap => WireRegime::Ap,
    }
}

/// A received regime.
pub fn regime_from_proto(regime: WireRegime) -> (r: Regime)
    ensures
        r == regime_in(regime),
{
    match regime {
        WireRegime::Ap => Regime::Ap,
        _ => Regime::Cp,
    }
}

/// A table as it is sent.
pub fn table_to_proto(t: &Table) -> (r: TableDecl)
    ensures
        r@ == table_out(t@),
{
    TableDecl {
        name: text::owned(t.name.as_str()),
        regime: regime_to_proto(t.regime),
        id: t.id,
    }
}

/// A received table.
pub fn table_from_proto(t: &TableDecl) -> (r: Table)
    ensures
        r@ == table_in(t@),
{
    Table { id: t.id, name: text::owned(t.name.as_str()), regime: regime_from_proto(t.regime) }
}

/// A table that a data node declares: its name and regime.
pub fn table_decl_from_proto(t: &TableDecl) -> (r: (String, Regime))
    ensures
        (r.0@, r.1) == (t@.name, regime_in(t@.regime)),
{
    (text::owned(t.name.as_str()), regime_from_proto(t.regime))
}

/// Where a node can be reached, as it is sent.
pub fn node_addr_to_proto(node_id: u64, address: &str) -> (r: NodeAddr)
    ensures
        r@ == (node_id, address@),
{
    NodeAddr { node_id, address: text::owned(address) }
}

/// A placed region as it is sent to a client, with its owner, so that the client can go there.
pub fn placed_to_proto(p: &PlacedRegion) -> (w: WireRegion)
    ensures
        w@ == placed_out(p@),
{
    let mut w = to_proto(&p.region);
    w.node_id = p.node_id;
    w.address = text::owned(p.address.as_str());
    w.regime = regime_to_proto(p.regime);
    w.voters = p.voters.clone();
    assert(w@ =~= placed_out(p@));
    w
}

/// A received region.
pub fn from_proto(r: &WireRegion) -> (s: Region)
    ensures
        s@ == region_in(r@),
{
    Region {
        id: r.id,
        start: bytes::copy(r.start_key.as_slice()),
        end: bytes::copy(r.end_key.as_slice()),
        epoch: r.epoch,
    }
}

/// Replica sets as they are sent.
pub fn replica_sets_to_proto(s: &Vec<ReplicaSet>) -> (r: Vec<WireRegion>)
    ensures
        order::views(r@) == Seq::new(s@.len(), |i: int| replicas_out(order::views(s@)[i])),
{
    let mut out: Vec<WireRegion> = Vec::new();
    let mut i: usize = 0;
    while i < s.len()
        invariant
            0 <= i <= s@.len(),
            out@.len() == i,
            forall|j: int| 0 <= j < i ==> (#[trigger] out@[j])@ == replicas_out(s@[j]@),
        decreases s@.len() - i,
    {
        out.push(replica_set_to_proto(&s[i]));
        i = i + 1;
    }
    assert(order::views(out@) =~= Seq::new(
        s@.len(),
        |i: int| replicas_out(order::views(s@)[i]),
    ));
    out
}

/// Received replica sets.
pub fn replica_sets_from_proto(s: &Vec<WireRegion>) -> (r: Vec<ReplicaSet>)
    ensures
        order::views(r@) == Seq::new(s@.len(), |i: int| replicas_in(order::views(s@)[i])),
{
    let mut out: Vec<ReplicaSet> = Vec::new();
    let mut i: usize = 0;
    while i < s.len()
        invariant
            0 <= i <= s@.len(),
            out@.len() == i,
            forall|j: int| 0 <= j < i ==> (#[trigger] out@[j])@ == replicas_in(s@[j]@),
        decreases s@.len() - i,
    {
        out.push(replica_set_from_proto(&s[i]));
        i = i + 1;
    }
    assert(order::views(out@) =~= Seq::new(s@.len(), |i: int| replicas_in(order::views(s@)[i])));
    out
}

/// Placed regions as they are sent.
pub fn placed_list_to_proto(s: &Vec<PlacedRegion>) -> (r: Vec<WireRegion>)
    ensures
        order::views(r@) == Seq::new(s@.len(), |i: int| placed_out(order::views(s@)[i])),
{
    let mut out: Vec<WireRegion> = Vec::new();
    let mut i: usize = 0;
    while i < s.len()
        invariant
            0 <= i <= s@.len(),
            out@.len() == i,
            forall|j: int| 0 <= j < i ==> (#[trigger] out@[j])@ == placed_out(s@[j]@),
        decreases s@.len() - i,
    {
        out.push(placed_to_proto(&s[i]));
        i = i + 1;
    }
    assert(order::views(out@) =~= Seq::new(s@.len(), |i: int| placed_out(order::views(s@)[i])));
    out
}

/// The answer to a question for the tables, from what the placement driver knows.
pub fn list_tables_response(tables: &Vec<Table>, conflicts: &Vec<TableConflict>) -> (r:
    ListTablesResponse)
    ensures
        order::views(r.tables@) == Seq::new(
            tables@.len(),
            |i: int| table_out(order::views(tables@)[i]),
        ),
        order::views(r.conflicts@) == Seq::new(
            conflicts@.len(),
            |i: int| conflict_out(order::views(conflicts@)[i]),
        ),
{
    let mut ts: Vec<TableDecl> = Vec::new();
    let mut i: usize = 0;
    while i < tables.len()
        invariant
            0 <= i <= tables@.len(),
            ts@.len() == i,
            forall|j: int| 0 <= j < i ==> (#[trigger] ts@[j])@ == table_out(tables@[j]@),
        decreases tables@.len() - i,
    {
        ts.push(table_to_proto(&tables[i]));
        i = i + 1;
    }
    let mut cs: Vec<WireConflict> = Vec::new();
    let mut i: usize = 0;
    while i < conflicts.len()
        invariant
            0 <= i <= conflicts@.len(),
            cs@.len() == i,
            forall|j: int| 0 <= j < i ==> (#[trigger] cs@[j])@ == conflict_out(conflicts@[j]@),
        decreases conflicts@.len() - i,
    {
        cs.push(
            WireConflict {
                name: text::owned(conflicts[i].name.as_str()),
                regime: regime_to_proto(conflicts[i].regime),
                node_id: conflicts[i].node_id,
                other_regime: regime_to_proto(conflicts[i].other_regime),
                other_node_id: conflicts[i].other_node_id,
            },
        );
        i = i + 1;
    }
    assert(order::views(ts@) =~= Seq::new(
        tables@.len(),
        |i: int| table_out(order::views(tables@)[i]),
    ));
    assert(order::views(cs@) =~= Seq::new(
        conflicts@.len(),
        |i: int| conflict_out(order::views(conflicts@)[i]),
    ));
    ListTablesResponse { tables: ts, conflicts: cs }
}

/// Regions, replica sets and tables arrive as they were sent.
pub proof fn law_wire_roundtrip(r: RegionView, s: ReplicaSetView, t: TableView, p: PlacedView)
    ensures
        region_in(region_out(r)) == r,
        replicas_in(replicas_out(s)) == s,
        table_in(table_out(t)) == t,
        region_in(placed_out(p)) == p.region,
{
}

/// Everything goes out in its own field: a region's range, version and owner, the regime, the voters
/// and those that are wanted; what has no owner has none, and what has no voters has none.
pub proof fn law_wire_fields(s: ReplicaSetView, p: PlacedView, t: TableView, c: ConflictView)
    ensures
        ({
            let w = replicas_out(s);
            &&& w.id == s.region.id && w.start_key == s.region.start && w.end_key == s.region.end
                && w.epoch == s.region.epoch
            &&& w.voters == s.voters && w.desired == s.desired
            &&& w.node_id == 0 && w.address.len() == 0
            &&& w.regime == WireRegime::Ap <==> s.regime == Regime::Ap
            &&& w.regime == WireRegime::Cp <==> s.regime == Regime::Cp
        }),
        ({
            let w = placed_out(p);
            &&& w.id == p.region.id && w.start_key == p.region.start && w.end_key == p.region.end
                && w.epoch == p.region.epoch
            &&& w.node_id == p.node_id && w.address == p.address && w.voters == p.voters
            &&& w.desired.len() == 0
            &&& w.regime == WireRegime::Ap <==> p.regime == Regime::Ap
            &&& w.regime == WireRegime::Cp <==> p.regime == Regime::Cp
        }),
        ({
            let w = table_out(t);
            &&& w.name == t.name && w.id == t.id
            &&& w.regime == WireRegime::Ap <==> t.regime == Regime::Ap
            &&& w.regime == WireRegime::Cp <==> t.regime == Regime::Cp
        }),
        ({
            let w = conflict_out(c);
            &&& w.name == c.name && w.node_id == c.node_id && w.other_node_id == c.other_node_id
            &&& w.regime == WireRegime::Ap <==> c.regime == Regime::Ap
            &&& w.other_regime == WireRegime::Ap <==> c.other_regime == Regime::Ap
            &&& w.regime == WireRegime::Cp <==> c.regime == Regime::Cp
            &&& w.other_regime == WireRegime::Cp <==> c.other_regime == Regime::Cp
        }),
        forall|r: WireRegime| #[trigger]
            regime_in(r) == Regime::Ap <==> r == WireRegime::Ap,
{
}

} // verus!
