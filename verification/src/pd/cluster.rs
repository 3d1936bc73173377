//! Cluster membership and region placement: the authoritative view of which data nodes are alive
//! and which regions each one owns.
//!
//! ## Placement authority
//!
//! A data node stays authoritative for the **epochs and splits** of the regions that it holds,
//! but **placement**, which node hosts which region, is decided here. A node learns its
//! assignment through the heartbeat *response*: it reports the regions that it currently has
//! (none on a fresh start), and is told the regions that it should own.
//!
//! - A node that reports a non-empty set is taken at its word.
//! - A node that reports nothing is *assigned*: its [`Membership::seeded`] partition if one was
//!   configured, otherwise the whole keyspace if the cluster is still empty.
//!
//! ## Failure detection
//!
//! Each heartbeat stamps the node with the time that the caller supplies. [`Membership::sweep`]
//! marks any node that has been silent for longer than a timeout as **down**; a down node's
//! regions drop out of the routing view until it heartbeats again.

use vstd::prelude::*;
use crate::bytes;
use crate::engine::encoding;
use crate::pd::codec;
use crate::pd::order;
use crate::pd::order::Keyed;
use crate::pd::region;
use crate::pd::region::{Region, RegionView, TableId};
use crate::text;

verus! {

broadcast use bytes::group_be_len;

/// How a range is served: **CP** through a Raft group, **AP** as a leaderless replica set.
#[derive(Clone, Copy, Debug, PartialEq, Eq, Structural)]
pub enum Regime {
    Cp,
    Ap,
}

impl Default for Regime {
    fn default() -> (r: Self)
        ensures
            r == Regime::Cp,
    {
        Regime::Cp
    }
}

impl Regime {
    /// The byte that stands for a regime.
    pub open spec fn tag_byte(self) -> u8 {
        match self {
            Regime::Cp => 0,
            Regime::Ap => 1,
        }
    }

    /// The byte that stands for a regime. Written out, so that the encoding does not change with
    /// the order of the variants.
    pub fn tag(self) -> (r: u8)
        ensures
            r == self.tag_byte(),
    {
        match self {
            Regime::Cp => 0,
            Regime::Ap => 1,
        }
    }
}

/// The regime that a byte stands for.
pub open spec fn regime_of_tag(tag: u8) -> Option<Regime> {
    if tag == 0 {
        Some(Regime::Cp)
    } else if tag == 1 {
        Some(Regime::Ap)
    } else {
        None
    }
}

/// The regime that a byte stands for.
pub fn regime_of(tag: u8) -> (r: Option<Regime>)
    ensures
        r == regime_of_tag(tag),
{
    match tag {
        0 => Some(Regime::Cp),
        1 => Some(Regime::Ap),
        _ => None,
    }
}

/// The regime at a position, and the position behind it.
pub open spec fn regime_from(b: Seq<u8>, pos: int) -> Option<(Regime, int)> {
    match codec::byte_from(b, pos) {
        Some((t, p)) => match regime_of_tag(t) {
            Some(r) => Some((r, p)),
            None => None,
        },
        None => None,
    }
}

/// Read a regime.
pub fn get_regime(buf: &[u8], pos: usize) -> (r: Option<(Regime, usize)>)
    ensures
        match regime_from(buf@, pos as int) {
            Some((x, end)) => r matches Some((y, p)) && y == x && p == end,
            None => r is None,
        },
{
    match codec::get_byte(buf, pos) {
        Some((t, p)) => match regime_of(t) {
            Some(x) => Some((x, p)),
            None => None,
        },
        None => None,
    }
}

/// A region as a node reports it: the range, how it is served, the replica set that holds it, and
/// the one that it is grown toward.
#[derive(Clone, Debug, PartialEq, Eq)]
pub struct ReplicaSet {
    pub region: Region,
    pub regime: Regime,
    pub voters: Vec<u64>,
    /// The voters that are wanted; empty in a node's own report.
    pub desired: Vec<u64>,
}

/// A [`ReplicaSet`] as values.
#[verifier::ext_equal]
pub struct ReplicaSetView {
    pub region: RegionView,
    pub regime: Regime,
    pub voters: Seq<u64>,
    pub desired: Seq<u64>,
}

impl View for ReplicaSet {
    type V = ReplicaSetView;

    open spec fn view(&self) -> ReplicaSetView {
        ReplicaSetView {
            region: self.region@,
            regime: self.regime,
            voters: self.voters@,
            desired: self.desired@,
        }
    }
}

impl ReplicaSetView {
    /// A region with no regime or replica-set information.
    pub open spec fn bare(region: RegionView) -> ReplicaSetView {
        ReplicaSetView { region, regime: Regime::Cp, voters: Seq::empty(), desired: Seq::empty() }
    }

    /// What of it is saved: all but the voters that are wanted.
    pub open spec fn bytes(self) -> Seq<u8> {
        self.region.bytes() + seq![self.regime.tag_byte()] + codec::counted_bytes(
            codec::u64_writer(),
            self.voters,
        )
    }

    /// What is saved fits its length fields, and is all that there is.
    pub open spec fn fits(self) -> bool {
        self.region.fits() && self.voters.len() < 0x1_0000_0000 && self.desired.len() == 0
    }
}

/// The replica set at a position, and the position behind it.
pub open spec fn set_from(b: Seq<u8>, pos: int) -> Option<(ReplicaSetView, int)> {
    match region::region_from(b, pos) {
        Some((r, p)) => match regime_from(b, p) {
            Some((regime, q)) => match codec::counted_from(codec::u64_parser(), b, q) {
                Some((voters, e)) => Some(
                    (ReplicaSetView { region: r, regime, voters, desired: Seq::empty() }, e),
                ),
                None => None,
            },
            None => None,
        },
        None => None,
    }
}

/// How a replica set of a list is read.
pub open spec fn set_parser() -> spec_fn(Seq<u8>, int) -> Option<(ReplicaSetView, int)> {
    |b: Seq<u8>, pos: int| set_from(b, pos)
}

/// How a replica set of a list is written.
pub open spec fn set_writer() -> spec_fn(ReplicaSetView) -> Seq<u8> {
    |r: ReplicaSetView| r.bytes()
}

/// A replica set is read back from its bytes.
pub proof fn lemma_set_codes(r: ReplicaSetView, before: Seq<u8>, after: Seq<u8>)
    requires
        r.fits(),
    ensures
        set_from(before + r.bytes() + after, before.len() as int) == Some(
            (r, (before.len() + r.bytes().len()) as int),
        ),
{
    let a = r.region.bytes();
    let b = seq![r.regime.tag_byte()];
    let c = codec::counted_bytes(codec::u64_writer(), r.voters);
    let whole = before + r.bytes() + after;
    region::lemma_region_codes(r.region, before, b + c + after);
    assert(whole =~= before + a + (b + c + after));
    assert(whole[(before + a).len() as int] == b[0]);
    codec::lemma_u64s_code(r.voters);
    codec::lemma_counted_codes(
        codec::u64_parser(),
        codec::u64_writer(),
        r.voters,
        before + a + b,
        after,
    );
    assert(whole =~= (before + a + b) + c + after);
    assert(r.desired =~= Seq::<u64>::empty());
}

/// Replica sets are read exactly.
pub proof fn lemma_set_exact()
    ensures
        codec::exact(set_parser()),
{
    let f = set_parser();
    codec::lemma_u64_exact();
    assert forall|b: Seq<u8>, pos: int, cut: int| 0 <= pos && 0 <= cut
        <= b.len() implies #[trigger] codec::exact_at(f, b, pos, cut) by {
        region::lemma_region_exact(b, pos, cut);
        if let Some((r, p)) = region::region_from(b, pos) {
            if let Some((regime, q)) = regime_from(b, p) {
                codec::lemma_counted_exact(codec::u64_parser(), b, q, cut);
            }
        }
    }
}

/// Read a replica set.
pub fn get_replica_set(buf: &[u8], pos: usize) -> (r: Option<(ReplicaSet, usize)>)
    ensures
        match set_from(buf@, pos as int) {
            Some((x, end)) => r matches Some((y, p)) && y@ == x && p == end,
            None => r is None,
        },
{
    let (region, p) = match region::get_region(buf, pos) {
        Some(x) => x,
        None => {
            return None;
        },
    };
    let (regime, p) = match get_regime(buf, p) {
        Some(x) => x,
        None => {
            return None;
        },
    };
    let (voters, p) = match codec::get_u64s(buf, p) {
        Some(x) => x,
        None => {
            return None;
        },
    };
    let desired: Vec<u64> = Vec::new();
    assert(desired@ =~= Seq::<u64>::empty());
    Some((ReplicaSet { region, regime, voters, desired }, p))
}

/// Append a replica set.
pub fn put_replica_set(out: &mut Vec<u8>, rs: &ReplicaSet)
    ensures
        final(out)@ == old(out)@ + rs@.bytes(),
{
    let ghost before = out@;
    region::put_region(out, &rs.region);
    out.push(rs.regime.tag());
    codec::put_u64s(out, rs.voters.as_slice());
    assert(out@ =~= before + rs@.bytes());
}

/// Read a counted list of replica sets.
pub fn get_replica_sets(buf: &[u8], pos: usize) -> (r: Option<(Vec<ReplicaSet>, usize)>)
    ensures
        match codec::counted_from(set_parser(), buf@, pos as int) {
            Some((x, end)) => r matches Some((y, p)) && order::views(y@) == x && p == end,
            None => r is None,
        },
{
    let (n, start) = match codec::get_u32(buf, pos) {
        Some(x) => x,
        None => {
            return None;
        },
    };
    let ghost f = set_parser();
    let mut out: Vec<ReplicaSet> = Vec::new();
    let mut q: usize = start;
    let mut i: u32 = 0;
    assert(order::views(out@) =~= Seq::<ReplicaSetView>::empty());
    while i < n
        invariant
            0 <= i <= n,
            f == set_parser(),
            codec::u32_from(buf@, pos as int) == Some((n, start as int)),
            codec::list_from(f, buf@, start as int, i as nat) == Some(
                (order::views(out@), q as int),
            ),
        decreases n - i,
    {
        match get_replica_set(buf, q) {
            Some((x, end)) => {
                let ghost before = order::views(out@);
                let ghost xv = x@;
                out.push(x);
                q = end;
                assert(order::views(out@) =~= before.push(xv));
            },
            None => {
                proof {
                    assert(codec::list_from(f, buf@, start as int, (i + 1) as nat) is None);
                    codec::lemma_list_none(f, buf@, start as int, (i + 1) as nat, n as nat);
                }
                return None;
            },
        }
        i = i + 1;
    }
    Some((out, q))
}

/// Append a counted list of replica sets.
pub fn put_replica_sets(out: &mut Vec<u8>, s: &Vec<ReplicaSet>)
    ensures
        final(out)@ == old(out)@ + codec::counted_bytes(set_writer(), order::views(s@)),
{
    let ghost before = out@;
    let ghost all = order::views(s@);
    bytes::put_u32(out, encoding::low32(s.len()));
    let ghost head = out@;
    let mut i: usize = 0;
    assert(all.take(0) =~= Seq::<ReplicaSetView>::empty());
    assert(out@ =~= head + codec::list_bytes(set_writer(), all.take(0)));
    while i < s.len()
        invariant
            0 <= i <= s@.len(),
            all == order::views(s@),
            out@ == head + codec::list_bytes(set_writer(), all.take(i as int)),
        decreases s@.len() - i,
    {
        proof {
            assert(all.take(i + 1).drop_last() =~= all.take(i as int));
            assert(all.take(i + 1).last() == s@[i as int]@);
        }
        put_replica_set(out, &s[i]);
        assert(out@ =~= head + codec::list_bytes(set_writer(), all.take(i + 1)));
        i = i + 1;
    }
    assert(all.take(i as int) =~= all);
    assert(out@ =~= before + codec::counted_bytes(set_writer(), all));
}

impl ReplicaSet {
    /// A region with no regime or replica-set information: the shape that the unreplicated
    /// single-node paths use.
    pub fn bare(region: Region) -> (r: ReplicaSet)
        ensures
            r@ == ReplicaSetView::bare(region@),
    {
        let ghost v = region@;
        let r = ReplicaSet {
            region,
            regime: Regime::Cp,
            voters: Vec::new(),
            desired: Vec::new(),
        };
        assert(r@ =~= ReplicaSetView::bare(v));
        r
    }

    /// A copy of the replica set.
    pub fn dup(&self) -> (r: ReplicaSet)
        ensures
            r@ == self@,
    {
        ReplicaSet {
            region: self.region.dup(),
            regime: self.regime,
            voters: self.voters.clone(),
            desired: self.desired.clone(),
        }
    }
}

/// Copies of a list of replica sets.
pub fn dup_sets(s: &Vec<ReplicaSet>) -> (r: Vec<ReplicaSet>)
    ensures
        order::views(r@) == order::views(s@),
{
    let mut out: Vec<ReplicaSet> = Vec::new();
    let mut i: usize = 0;
    while i < s.len()
        invariant
            0 <= i <= s@.len(),
            out@.len() == i,
            forall|j: int| 0 <= j < i ==> (#[trigger] out@[j])@ == s@[j]@,
        decreases s@.len() - i,
    {
        out.push(s[i].dup());
        i = i + 1;
    }
    assert(order::views(out@) =~= order::views(s@));
    out
}

/// A region tagged with the node that owns it: what a routing client is told.
#[derive(Clone, Debug, PartialEq, Eq)]
pub struct PlacedRegion {
    pub region: Region,
    pub node_id: u64,
    pub address: String,
    pub regime: Regime,
    /// The region's replica set, empty where the reporting node did not say.
    pub voters: Vec<u64>,
}

/// A [`PlacedRegion`] as values.
#[verifier::ext_equal]
pub struct PlacedView {
    pub region: RegionView,
    pub node_id: u64,
    pub address: Seq<char>,
    pub regime: Regime,
    pub voters: Seq<u64>,
}

impl View for PlacedRegion {
    type V = PlacedView;

    open spec fn view(&self) -> PlacedView {
        PlacedView {
            region: self.region@,
            node_id: self.node_id,
            address: self.address@,
            regime: self.regime,
            voters: self.voters@,
        }
    }
}

impl Keyed for PlacedRegion {
    open spec fn key(v: PlacedView) -> Seq<u8> {
        v.region.start
    }

    fn before(&self, other: &Self) -> (r: bool) {
        bytes::bytes_lt(self.region.start.as_slice(), other.region.start.as_slice())
    }
}

/// A declared table.
#[derive(Clone, Debug, PartialEq, Eq)]
pub struct Table {
    pub id: TableId,
    pub name: String,
    pub regime: Regime,
}

/// A [`Table`] as values.
#[verifier::ext_equal]
pub struct TableView {
    pub id: TableId,
    pub name: Seq<char>,
    pub regime: Regime,
}

impl View for Table {
    type V = TableView;

    open spec fn view(&self) -> TableView {
        TableView { id: self.id, name: self.name@, regime: self.regime }
    }
}

impl Keyed for Table {
    open spec fn key(v: TableView) -> Seq<u8> {
        vstd::utf8::encode_utf8(v.name)
    }

    fn before(&self, other: &Self) -> (r: bool) {
        bytes::bytes_lt(
            text::utf8_bytes(self.name.as_str()),
            text::utf8_bytes(other.name.as_str()),
        )
    }
}

impl Table {
    /// A copy of the table.
    pub fn dup(&self) -> (r: Table)
        ensures
            r@ == self@,
    {
        Table { id: self.id, name: text::owned(self.name.as_str()), regime: self.regime }
    }
}

/// A table that two nodes describe differently: a misconfigured cluster, since a table's regime
/// decides how its keys are tiled and routed.
#[derive(Clone, Debug, PartialEq, Eq)]
pub struct TableConflict {
    pub name: String,
    pub regime: Regime,
    pub node_id: u64,
    pub other_regime: Regime,
    pub other_node_id: u64,
}

/// A [`TableConflict`] as values.
#[verifier::ext_equal]
pub struct ConflictView {
    pub name: Seq<char>,
    pub regime: Regime,
    pub node_id: u64,
    pub other_regime: Regime,
    pub other_node_id: u64,
}

impl View for TableConflict {
    type V = ConflictView;

    open spec fn view(&self) -> ConflictView {
        ConflictView {
            name: self.name@,
            regime: self.regime,
            node_id: self.node_id,
            other_regime: self.other_regime,
            other_node_id: self.other_node_id,
        }
    }
}

impl Keyed for TableConflict {
    open spec fn key(v: ConflictView) -> Seq<u8> {
        vstd::utf8::encode_utf8(v.name)
    }

    fn before(&self, other: &Self) -> (r: bool) {
        bytes::bytes_lt(
            text::utf8_bytes(self.name.as_str()),
            text::utf8_bytes(other.name.as_str()),
        )
    }
}

/// A table as a node declares it: its name and regime.
pub open spec fn decl_view(d: (String, Regime)) -> (Seq<char>, Regime) {
    (d.0@, d.1)
}

/// The views of a list of declarations.
pub open spec fn decl_views(s: Seq<(String, Regime)>) -> Seq<(Seq<char>, Regime)> {
    Seq::new(s.len(), |i: int| decl_view(s[i]))
}

/// The declaration at a position, and the position behind it.
pub open spec fn decl_from(b: Seq<u8>, pos: int) -> Option<((Seq<char>, Regime), int)> {
    match codec::text_from(b, pos) {
        Some((name, p)) => match regime_from(b, p) {
            Some((regime, e)) => Some(((name, regime), e)),
            None => None,
        },
        None => None,
    }
}

/// How a declaration of a list is read.
pub open spec fn decl_parser() -> spec_fn(Seq<u8>, int) -> Option<((Seq<char>, Regime), int)> {
    |b: Seq<u8>, pos: int| decl_from(b, pos)
}

/// A declaration in bytes.
pub open spec fn decl_bytes(d: (Seq<char>, Regime)) -> Seq<u8> {
    codec::text_bytes(d.0) + seq![d.1.tag_byte()]
}

/// How a declaration of a list is written.
pub open spec fn decl_writer() -> spec_fn((Seq<char>, Regime)) -> Seq<u8> {
    |d: (Seq<char>, Regime)| decl_bytes(d)
}

/// A text fits its length field.
pub open spec fn text_fits(t: Seq<char>) -> bool {
    vstd::utf8::encode_utf8(t).len() < 0x1_0000_0000
}

/// A declaration is read back from its bytes.
pub proof fn lemma_decl_codes(d: (Seq<char>, Regime), before: Seq<u8>, after: Seq<u8>)
    requires
        text_fits(d.0),
    ensures
        decl_from(before + decl_bytes(d) + after, before.len() as int) == Some(
            (d, (before.len() + decl_bytes(d).len()) as int),
        ),
{
    let a = codec::text_bytes(d.0);
    let b = seq![d.1.tag_byte()];
    let whole = before + decl_bytes(d) + after;
    codec::lemma_text_codes(d.0, before, b + after);
    assert(whole =~= before + a + (b + after));
    assert(whole[(before + a).len() as int] == b[0]);
}

/// Declarations are read exactly.
pub proof fn lemma_decl_exact()
    ensures
        codec::exact(decl_parser()),
{
    let f = decl_parser();
    assert forall|b: Seq<u8>, pos: int, cut: int| 0 <= pos && 0 <= cut
        <= b.len() implies #[trigger] codec::exact_at(f, b, pos, cut) by {
        codec::lemma_bytes_exact(b, pos, cut);
    }
}

/// Read a counted list of declarations.
fn get_decls(buf: &[u8], pos: usize) -> (r: Option<(Vec<(String, Regime)>, usize)>)
    ensures
        match codec::counted_from(decl_parser(), buf@, pos as int) {
            Some((x, end)) => r matches Some((y, p)) && decl_views(y@) == x && p == end,
            None => r is None,
        },
{
    let (n, start) = match codec::get_u32(buf, pos) {
        Some(x) => x,
        None => {
            return None;
        },
    };
    let ghost f = decl_parser();
    let mut out: Vec<(String, Regime)> = Vec::new();
    let mut q: usize = start;
    let mut i: u32 = 0;
    assert(decl_views(out@) =~= Seq::<(Seq<char>, Regime)>::empty());
    while i < n
        invariant
            0 <= i <= n,
            f == decl_parser(),
            codec::u32_from(buf@, pos as int) == Some((n, start as int)),
            codec::list_from(f, buf@, start as int, i as nat) == Some((decl_views(out@), q as int)),
        decreases n - i,
    {
        let ghost before = decl_views(out@);
        let mut got: Option<((String, Regime), usize)> = None;
        match codec::get_text(buf, q) {
            Some((name, p)) => match get_regime(buf, p) {
                Some((regime, e)) => {
                    got = Some(((name, regime), e));
                },
                None => {},
            },
            None => {},
        }
        match got {
            Some((x, end)) => {
                let ghost xv = decl_view(x);
                out.push(x);
                q = end;
                assert(decl_views(out@) =~= before.push(xv));
            },
            None => {
                proof {
                    assert(codec::list_from(f, buf@, start as int, (i + 1) as nat) is None);
                    codec::lemma_list_none(f, buf@, start as int, (i + 1) as nat, n as nat);
                }
                return None;
            },
        }
        i = i + 1;
    }
    Some((out, q))
}

/// Append a counted list of declarations.
fn put_decls(out: &mut Vec<u8>, s: &Vec<(String, Regime)>)
    ensures
        final(out)@ == old(out)@ + codec::counted_bytes(decl_writer(), decl_views(s@)),
{
    let ghost before = out@;
    let ghost all = decl_views(s@);
    bytes::put_u32(out, encoding::low32(s.len()));
    let ghost head = out@;
    let mut i: usize = 0;
    assert(all.take(0) =~= Seq::<(Seq<char>, Regime)>::empty());
    assert(out@ =~= head + codec::list_bytes(decl_writer(), all.take(0)));
    while i < s.len()
        invariant
            0 <= i <= s@.len(),
            all == decl_views(s@),
            out@ == head + codec::list_bytes(decl_writer(), all.take(i as int)),
        decreases s@.len() - i,
    {
        proof {
            assert(all.take(i + 1).drop_last() =~= all.take(i as int));
            assert(all.take(i + 1).last() == decl_view(s@[i as int]));
        }
        codec::put_text(out, s[i].0.as_str());
        out.push(s[i].1.tag());
        assert(out@ =~= head + codec::list_bytes(decl_writer(), all.take(i + 1)));
        i = i + 1;
    }
    assert(all.take(i as int) =~= all);
    assert(out@ =~= before + codec::counted_bytes(decl_writer(), all));
}

/// What is known about one data node.
struct NodeState {
    id: u64,
    address: String,
    last_seen: u64,
    down: bool,
    regions: Vec<ReplicaSet>,
    /// The tables that this node has declared.
    tables: Vec<(String, Regime)>,
}

/// What is known about one data node, as values.
#[verifier::ext_equal]
pub struct NodeStateView {
    pub id: u64,
    pub address: Seq<char>,
    pub last_seen: u64,
    pub down: bool,
    pub regions: Seq<ReplicaSetView>,
    pub tables: Seq<(Seq<char>, Regime)>,
}

impl View for NodeState {
    type V = NodeStateView;

    closed spec fn view(&self) -> NodeStateView {
        NodeStateView {
            id: self.id,
            address: self.address@,
            last_seen: self.last_seen,
            down: self.down,
            regions: order::views(self.regions@),
            tables: decl_views(self.tables@),
        }
    }
}

impl NodeStateView {
    /// All but the lists, in bytes.
    pub open spec fn head(self) -> Seq<u8> {
        bytes::be64(self.id) + codec::text_bytes(self.address) + bytes::be64(self.last_seen)
            + seq![
            if self.down {
                1u8
            } else {
                0u8
            },
        ]
    }

    /// The node in bytes.
    pub open spec fn bytes(self) -> Seq<u8> {
        self.head() + codec::counted_bytes(set_writer(), self.regions) + codec::counted_bytes(
            decl_writer(),
            self.tables,
        )
    }

    /// Everything fits its length field.
    pub open spec fn fits(self) -> bool {
        &&& text_fits(self.address)
        &&& self.regions.len() < 0x1_0000_0000
        &&& forall|i: int| 0 <= i < self.regions.len() ==> (#[trigger] self.regions[i]).fits()
        &&& self.tables.len() < 0x1_0000_0000
        &&& forall|i: int| 0 <= i < self.tables.len() ==> text_fits((#[trigger] self.tables[i]).0)
    }
}

/// What stands in front of a node's lists, and the position behind it.
pub open spec fn head_from(b: Seq<u8>, pos: int) -> Option<((u64, Seq<char>, u64, bool), int)> {
    match codec::u64_from(b, pos) {
        Some((id, p)) => match codec::text_from(b, p) {
            Some((address, q)) => match codec::u64_from(b, q) {
                Some((last_seen, r)) => match codec::byte_from(b, r) {
                    Some((down, s)) => Some(((id, address, last_seen, down != 0), s)),
                    None => None,
                },
                None => None,
            },
            None => None,
        },
        None => None,
    }
}

/// A node's lists, and the position behind them.
pub open spec fn lists_from(b: Seq<u8>, pos: int) -> Option<
    ((Seq<ReplicaSetView>, Seq<(Seq<char>, Regime)>), int),
> {
    match codec::counted_from(set_parser(), b, pos) {
        Some((regions, t)) => match codec::counted_from(decl_parser(), b, t) {
            Some((tables, e)) => Some(((regions, tables), e)),
            None => None,
        },
        None => None,
    }
}

/// The node at a position, and the position behind it.
pub open spec fn node_from(b: Seq<u8>, pos: int) -> Option<(NodeStateView, int)> {
    match head_from(b, pos) {
        Some(((id, address, last_seen, down), p)) => match lists_from(b, p) {
            Some(((regions, tables), e)) => Some(
                (NodeStateView { id, address, last_seen, down, regions, tables }, e),
            ),
            None => None,
        },
        None => None,
    }
}

/// How a node of a list is read.
pub open spec fn node_parser() -> spec_fn(Seq<u8>, int) -> Option<(NodeStateView, int)> {
    |b: Seq<u8>, pos: int| node_from(b, pos)
}

/// How a node of a list is written.
pub open spec fn node_writer() -> spec_fn(NodeStateView) -> Seq<u8> {
    |n: NodeStateView| n.bytes()
}

/// What stands in front of a node's lists is read back from its bytes.
proof fn lemma_head_codes(n: NodeStateView, before: Seq<u8>, after: Seq<u8>)
    requires
        text_fits(n.address),
    ensures
        head_from(before + n.head() + after, before.len() as int) == Some(
            (
                (n.id, n.address, n.last_seen, n.down),
                (before.len() + n.head().len()) as int,
            ),
        ),
{
    let a = bytes::be64(n.id);
    let b = codec::text_bytes(n.address);
    let c = bytes::be64(n.last_seen);
    let d = seq![
        if n.down {
            1u8
        } else {
            0u8
        },
    ];
    let whole = before + n.head() + after;
    let p1 = before + a;
    let p2 = p1 + b;
    let p3 = p2 + c;
    assert(whole =~= before + a + (b + c + d + after));
    assert(whole =~= p1 + b + (c + d + after));
    assert(whole =~= p2 + c + (d + after));
    assert(whole =~= p3 + d + after);
    codec::lemma_u64_codes(n.id, before, b + c + d + after);
    codec::lemma_text_codes(n.address, p1, c + d + after);
    codec::lemma_u64_codes(n.last_seen, p2, d + after);
    assert(whole[p3.len() as int] == d[0]);
}

/// A node's lists are read back from their bytes.
proof fn lemma_lists_code(
    regions: Seq<ReplicaSetView>,
    tables: Seq<(Seq<char>, Regime)>,
    before: Seq<u8>,
    after: Seq<u8>,
)
    requires
        regions.len() < 0x1_0000_0000,
        forall|i: int| 0 <= i < regions.len() ==> (#[trigger] regions[i]).fits(),
        tables.len() < 0x1_0000_0000,
        forall|i: int| 0 <= i < tables.len() ==> text_fits((#[trigger] tables[i]).0),
    ensures
        ({
            let e = codec::counted_bytes(set_writer(), regions);
            let f = codec::counted_bytes(decl_writer(), tables);
            lists_from(before + e + f + after, before.len() as int) == Some(
                ((regions, tables), (before.len() + e.len() + f.len()) as int),
            )
        }),
{
    let e = codec::counted_bytes(set_writer(), regions);
    let f = codec::counted_bytes(decl_writer(), tables);
    let whole = before + e + f + after;
    assert(codec::counted_from(set_parser(), whole, before.len() as int) == Some(
        (regions, (before + e).len() as int),
    )) by {
        lemma_sets_code(regions);
        codec::lemma_counted_codes(set_parser(), set_writer(), regions, before, f + after);
        assert(whole =~= before + e + (f + after));
    }
    assert(codec::counted_from(decl_parser(), whole, (before + e).len() as int) == Some(
        (tables, (before + e + f).len() as int),
    )) by {
        lemma_decls_code(tables);
        codec::lemma_counted_codes(decl_parser(), decl_writer(), tables, before + e, after);
    }
}

/// A node is read back from its bytes.
pub proof fn lemma_node_codes(n: NodeStateView, before: Seq<u8>, after: Seq<u8>)
    requires
        n.fits(),
    ensures
        node_from(before + n.bytes() + after, before.len() as int) == Some(
            (n, (before.len() + n.bytes().len()) as int),
        ),
{
    let a = n.head();
    let e = codec::counted_bytes(set_writer(), n.regions);
    let f = codec::counted_bytes(decl_writer(), n.tables);
    let whole = before + n.bytes() + after;
    lemma_head_codes(n, before, e + f + after);
    assert(whole =~= before + a + (e + f + after));
    lemma_lists_code(n.regions, n.tables, before + a, after);
    assert(whole =~= (before + a) + e + f + after);
}

/// Each replica set of a list is read back from its bytes.
pub proof fn lemma_sets_code(s: Seq<ReplicaSetView>)
    requires
        forall|i: int| 0 <= i < s.len() ==> (#[trigger] s[i]).fits(),
    ensures
        forall|k: int|
            0 <= k < s.len() ==> codec::codes(set_parser(), #[trigger] set_writer()(s[k]), s[k]),
{
    assert forall|k: int| 0 <= k < s.len() implies codec::codes(
        set_parser(),
        #[trigger] set_writer()(s[k]),
        s[k],
    ) by {
        let f = set_parser();
        let enc = set_writer()(s[k]);
        assert forall|before: Seq<u8>, after: Seq<u8>| #[trigger]
            f(before + enc + after, before.len() as int) == Some(
                (s[k], (before.len() + enc.len()) as int),
            ) by {
            lemma_set_codes(s[k], before, after);
        }
    }
}

/// Each declaration of a list is read back from its bytes.
pub proof fn lemma_decls_code(s: Seq<(Seq<char>, Regime)>)
    requires
        forall|i: int| 0 <= i < s.len() ==> text_fits((#[trigger] s[i]).0),
    ensures
        forall|k: int|
            0 <= k < s.len() ==> codec::codes(decl_parser(), #[trigger] decl_writer()(s[k]), s[k]),
{
    assert forall|k: int| 0 <= k < s.len() implies codec::codes(
        decl_parser(),
        #[trigger] decl_writer()(s[k]),
        s[k],
    ) by {
        let f = decl_parser();
        let enc = decl_writer()(s[k]);
        assert forall|before: Seq<u8>, after: Seq<u8>| #[trigger]
            f(before + enc + after, before.len() as int) == Some(
                (s[k], (before.len() + enc.len()) as int),
            ) by {
            lemma_decl_codes(s[k], before, after);
        }
    }
}

/// Each node of a list is read back from its bytes.
pub proof fn lemma_nodes_code(s: Seq<NodeStateView>)
    requires
        forall|i: int| 0 <= i < s.len() ==> (#[trigger] s[i]).fits(),
    ensures
        forall|k: int|
            0 <= k < s.len() ==> codec::codes(node_parser(), #[trigger] node_writer()(s[k]), s[k]),
{
    assert forall|k: int| 0 <= k < s.len() implies codec::codes(
        node_parser(),
        #[trigger] node_writer()(s[k]),
        s[k],
    ) by {
        let f = node_parser();
        let enc = node_writer()(s[k]);
        assert forall|before: Seq<u8>, after: Seq<u8>| #[trigger]
            f(before + enc + after, before.len() as int) == Some(
                (s[k], (before.len() + enc.len()) as int),
            ) by {
            lemma_node_codes(s[k], before, after);
        }
    }
}

/// What stands in front of a node's lists is read exactly.
proof fn lemma_head_exact(b: Seq<u8>, pos: int, cut: int)
    requires
        0 <= pos,
        0 <= cut <= b.len(),
    ensures
        match head_from(b, pos) {
            Some((x, end)) => {
                &&& pos <= end <= b.len()
                &&& cut >= end ==> head_from(b.take(cut), pos) == Some((x, end))
                &&& cut < end ==> head_from(b.take(cut), pos) is None
            },
            None => head_from(b.take(cut), pos) is None,
        },
{
    codec::lemma_cut(b, pos, cut);
    codec::lemma_bytes_exact(b, pos + 8, cut);
    if let Some((address, q)) = codec::text_from(b, pos + 8) {
        codec::lemma_cut(b, q, cut);
    }
}

/// A node's lists are read exactly.
proof fn lemma_lists_exact(b: Seq<u8>, pos: int, cut: int)
    requires
        0 <= pos,
        0 <= cut <= b.len(),
    ensures
        match lists_from(b, pos) {
            Some((x, end)) => {
                &&& pos <= end <= b.len()
                &&& cut >= end ==> lists_from(b.take(cut), pos) == Some((x, end))
                &&& cut < end ==> lists_from(b.take(cut), pos) is None
            },
            None => lists_from(b.take(cut), pos) is None,
        },
{
    lemma_set_exact();
    lemma_decl_exact();
    codec::lemma_counted_exact(set_parser(), b, pos, cut);
    if let Some((regions, t)) = codec::counted_from(set_parser(), b, pos) {
        codec::lemma_counted_exact(decl_parser(), b, t, cut);
    }
}

/// Nodes are read exactly.
pub proof fn lemma_node_exact()
    ensures
        codec::exact(node_parser()),
{
    let f = node_parser();
    assert forall|b: Seq<u8>, pos: int, cut: int| 0 <= pos && 0 <= cut
        <= b.len() implies #[trigger] codec::exact_at(f, b, pos, cut) by {
        lemma_head_exact(b, pos, cut);
        if let Some((x, p)) = head_from(b, pos) {
            lemma_lists_exact(b, p, cut);
        }
    }
}

/// Read a node.
fn get_node(buf: &[u8], pos: usize) -> (r: Option<(NodeState, usize)>)
    ensures
        match node_from(buf@, pos as int) {
            Some((x, end)) => r matches Some((y, p)) && y@ == x && p == end,
            None => r is None,
        },
{
    let (id, p) = match codec::get_u64(buf, pos) {
        Some(x) => x,
        None => {
            return None;
        },
    };
    let (address, p) = match codec::get_text(buf, p) {
        Some(x) => x,
        None => {
            return None;
        },
    };
    let (last_seen, p) = match codec::get_u64(buf, p) {
        Some(x) => x,
        None => {
            return None;
        },
    };
    let (down, p) = match codec::get_byte(buf, p) {
        Some(x) => x,
        None => {
            return None;
        },
    };
    let (regions, p) = match get_replica_sets(buf, p) {
        Some(x) => x,
        None => {
            return None;
        },
    };
    let (tables, p) = match get_decls(buf, p) {
        Some(x) => x,
        None => {
            return None;
        },
    };
    Some((NodeState { id, address, last_seen, down: down != 0, regions, tables }, p))
}

/// Append a node.
fn put_node(out: &mut Vec<u8>, n: &NodeState)
    ensures
        final(out)@ == old(out)@ + n@.bytes(),
{
    let ghost before = out@;
    bytes::put_u64(out, n.id);
    codec::put_text(out, n.address.as_str());
    bytes::put_u64(out, n.last_seen);
    out.push(
        if n.down {
            1
        } else {
            0
        },
    );
    put_replica_sets(out, &n.regions);
    put_decls(out, &n.tables);
    assert(out@ =~= before + n@.bytes());
}

/// Where a node of an id stands, or would: behind those with lower ids.
pub open spec fn rank(s: Seq<NodeStateView>, id: u64, i: int) -> int
    decreases s.len() - i,
{
    if i >= s.len() || s[i].id >= id {
        i
    } else {
        rank(s, id, i + 1)
    }
}

/// The node of an id.
pub open spec fn node_at(s: Seq<NodeStateView>, id: u64) -> Option<NodeStateView> {
    let i = rank(s, id, 0);
    if i < s.len() && s[i].id == id {
        Some(s[i])
    } else {
        None
    }
}

/// The nodes with one put in its place, in place of any of its id.
pub open spec fn upsert(s: Seq<NodeStateView>, n: NodeStateView) -> Seq<NodeStateView> {
    let i = rank(s, n.id, 0);
    if i < s.len() && s[i].id == n.id {
        s.update(i, n)
    } else {
        s.insert(i, n)
    }
}

/// The nodes with each of a list put in its place, in order.
pub open spec fn upsert_all(s: Seq<NodeStateView>, more: Seq<NodeStateView>) -> Seq<NodeStateView>
    decreases more.len(),
{
    if more.len() == 0 {
        s
    } else {
        upsert(upsert_all(s, more.drop_last()), more.last())
    }
}

/// The regions of a seed that are for a node.
pub open spec fn seeded_for(seed: Seq<(RegionView, u64)>, id: u64) -> Seq<RegionView>
    decreases seed.len(),
{
    if seed.len() == 0 {
        Seq::empty()
    } else {
        let s = seeded_for(seed.drop_last(), id);
        if seed.last().1 == id {
            s.push(seed.last().0)
        } else {
            s
        }
    }
}

/// Bare replica sets for a list of regions.
pub open spec fn bare_all(s: Seq<RegionView>) -> Seq<ReplicaSetView> {
    Seq::new(s.len(), |i: int| ReplicaSetView::bare(s[i]))
}

/// A table as some node declared it.
pub struct Sighting {
    pub name: Seq<char>,
    pub regime: Regime,
    pub node_id: u64,
}

/// What one node declared.
pub open spec fn sightings_of(n: NodeStateView) -> Seq<Sighting> {
    Seq::new(
        n.tables.len(),
        |i: int| Sighting { name: n.tables[i].0, regime: n.tables[i].1, node_id: n.id },
    )
}

/// What all nodes declared, in order of their ids.
pub open spec fn sightings(s: Seq<NodeStateView>) -> Seq<Sighting>
    decreases s.len(),
{
    if s.len() == 0 {
        Seq::empty()
    } else {
        sightings(s.drop_last()) + sightings_of(s.last())
    }
}

/// The first sightings of the tables.
pub open spec fn firsts(s: Seq<Sighting>) -> Seq<Sighting>
    decreases s.len(),
{
    if s.len() == 0 {
        Seq::empty()
    } else {
        let f = firsts(s.drop_last());
        if named(f, s.last().name, 0) < f.len() {
            f
        } else {
            f.push(s.last())
        }
    }
}

/// The position of the first sighting of a name.
pub open spec fn named(s: Seq<Sighting>, name: Seq<char>, i: int) -> int
    decreases s.len() - i,
{
    if i >= s.len() {
        s.len() as int
    } else if s[i].name == name {
        i
    } else {
        named(s, name, i + 1)
    }
}

/// Whether a table is among the conflicts.
pub open spec fn conflicted(s: Seq<ConflictView>, name: Seq<char>) -> bool {
    exists|i: int| 0 <= i < s.len() && (#[trigger] s[i]).name == name
}

/// The tables that a later sighting describes otherwise than the first, one entry for each.
pub open spec fn conflicts(s: Seq<Sighting>) -> Seq<ConflictView>
    decreases s.len(),
{
    if s.len() == 0 {
        Seq::empty()
    } else {
        let c = conflicts(s.drop_last());
        let f = firsts(s.drop_last());
        let x = s.last();
        let i = named(f, x.name, 0);
        if i < f.len() && f[i].regime != x.regime && !conflicted(c, x.name) {
            c.push(
                ConflictView {
                    name: x.name,
                    regime: f[i].regime,
                    node_id: f[i].node_id,
                    other_regime: x.regime,
                    other_node_id: x.node_id,
                },
            )
        } else {
            c
        }
    }
}

/// The declarations of a list of sightings.
pub open spec fn decls_of(s: Seq<Sighting>) -> Seq<(Seq<char>, Regime)> {
    Seq::new(s.len(), |i: int| (s[i].name, s[i].regime))
}

/// What a declaration is sorted by.
pub open spec fn decl_key() -> spec_fn((Seq<char>, Regime)) -> Seq<u8> {
    |d: (Seq<char>, Regime)| vstd::utf8::encode_utf8(d.0)
}

/// Whether a node has been silent for too long.
pub open spec fn silent(n: NodeStateView, now: u64, timeout_ms: u64) -> bool {
    !n.down && now - n.last_seen > timeout_ms
}

/// The nodes after a sweep.
pub open spec fn swept(s: Seq<NodeStateView>, now: u64, timeout_ms: u64) -> Seq<NodeStateView> {
    Seq::new(
        s.len(),
        |i: int|
            if silent(s[i], now, timeout_ms) {
                NodeStateView { down: true, ..s[i] }
            } else {
                s[i]
            },
    )
}

/// The ids of the nodes that a sweep marks.
pub open spec fn downed(s: Seq<NodeStateView>, now: u64, timeout_ms: u64) -> Seq<u64>
    decreases s.len(),
{
    if s.len() == 0 {
        Seq::empty()
    } else {
        let d = downed(s.drop_last(), now, timeout_ms);
        if silent(s.last(), now, timeout_ms) {
            d.push(s.last().id)
        } else {
            d
        }
    }
}

/// The ids of the nodes that are not down.
pub open spec fn live(s: Seq<NodeStateView>) -> Seq<u64>
    decreases s.len(),
{
    if s.len() == 0 {
        Seq::empty()
    } else if s.last().down {
        live(s.drop_last())
    } else {
        live(s.drop_last()).push(s.last().id)
    }
}

/// The nodes and where to reach them.
pub open spec fn addresses(s: Seq<NodeStateView>) -> Seq<(u64, Seq<char>)> {
    Seq::new(s.len(), |i: int| (s[i].id, s[i].address))
}

/// A node's region with its owner.
pub open spec fn placed(n: NodeStateView, r: ReplicaSetView) -> PlacedView {
    PlacedView {
        region: r.region,
        node_id: n.id,
        address: n.address,
        regime: r.regime,
        voters: r.voters,
    }
}

/// All of a node's regions with their owner.
pub open spec fn placed_by(n: NodeStateView) -> Seq<PlacedView> {
    Seq::new(n.regions.len(), |i: int| placed(n, n.regions[i]))
}

/// The regions of all live nodes, in order of the nodes' ids.
pub open spec fn placements(s: Seq<NodeStateView>) -> Seq<PlacedView>
    decreases s.len(),
{
    if s.len() == 0 {
        Seq::empty()
    } else if s.last().down {
        placements(s.drop_last())
    } else {
        placements(s.drop_last()) + placed_by(s.last())
    }
}

/// The position of the first of a node's regions that covers a key.
pub open spec fn holding(s: Seq<ReplicaSetView>, key: Seq<u8>, i: int) -> int
    decreases s.len() - i,
{
    if i >= s.len() {
        s.len() as int
    } else if s[i].region.contains(key) {
        i
    } else {
        holding(s, key, i + 1)
    }
}

/// The first live node's region that covers a key.
pub open spec fn routed(s: Seq<NodeStateView>, key: Seq<u8>, i: int) -> Option<PlacedView>
    decreases s.len() - i,
{
    if i >= s.len() {
        None
    } else if s[i].down {
        routed(s, key, i + 1)
    } else {
        let j = holding(s[i].regions, key, 0);
        if j < s[i].regions.len() {
            Some(placed(s[i], s[i].regions[j]))
        } else {
            routed(s, key, i + 1)
        }
    }
}

/// Whether any node has a region.
pub open spec fn any_regions(s: Seq<NodeStateView>) -> bool {
    exists|i: int| 0 <= i < s.len() && (#[trigger] s[i]).regions.len() > 0
}

/// The membership as values.
#[verifier::ext_equal]
pub struct MembershipView {
    pub nodes: Seq<NodeStateView>,
    pub seed: Seq<(RegionView, u64)>,
}

impl MembershipView {
    /// Each node is there once, in order of its id.
    pub open spec fn wf(self) -> bool {
        forall|i: int, j: int|
            #![trigger self.nodes[i], self.nodes[j]]
            0 <= i < j < self.nodes.len() ==> self.nodes[i].id < self.nodes[j].id
    }

    /// What a node that reported no region gets.
    pub open spec fn assign(self, id: u64) -> Seq<RegionView> {
        let mine = seeded_for(self.seed, id);
        if mine.len() > 0 {
            mine
        } else if any_regions(self.nodes) || self.seed.len() > 0 {
            Seq::empty()
        } else {
            seq![RegionView::whole(1)]
        }
    }

    /// The regions that a node is told to own.
    pub open spec fn assigned(self, id: u64, reported: Seq<ReplicaSetView>) -> Seq<ReplicaSetView> {
        if reported.len() > 0 {
            reported
        } else {
            match node_at(self.nodes, id) {
                Some(n) => if n.regions.len() > 0 {
                    n.regions
                } else {
                    bare_all(self.assign(id))
                },
                None => bare_all(self.assign(id)),
            }
        }
    }

    /// The membership after a heartbeat.
    pub open spec fn heartbeat(
        self,
        id: u64,
        address: Seq<char>,
        reported: Seq<ReplicaSetView>,
        tables: Seq<(Seq<char>, Regime)>,
        now: u64,
    ) -> MembershipView {
        MembershipView {
            nodes: upsert(
                self.nodes,
                NodeStateView {
                    id,
                    address,
                    last_seen: now,
                    down: false,
                    regions: self.assigned(id, reported),
                    tables,
                },
            ),
            ..self
        }
    }

    /// The region view of all live nodes, sorted by start key.
    pub open spec fn list(self) -> Seq<PlacedView> {
        order::sorted(order::key_of::<PlacedRegion>(), placements(self.nodes))
    }

    /// The nodes in bytes.
    pub open spec fn bytes(self) -> Seq<u8> {
        codec::counted_bytes(node_writer(), self.nodes)
    }

    /// Everything fits its length field.
    pub open spec fn fits(self) -> bool {
        &&& self.nodes.len() < 0x1_0000_0000
        &&& forall|i: int| 0 <= i < self.nodes.len() ==> (#[trigger] self.nodes[i]).fits()
    }
}

/// The nodes that bytes start with, and the position behind them.
pub open spec fn nodes_of(b: Seq<u8>) -> Option<(Seq<NodeStateView>, int)> {
    match codec::counted_from(node_parser(), b, 0) {
        Some((s, e)) => Some((upsert_all(Seq::empty(), s), e)),
        None => None,
    }
}

/// The cluster's per-node membership and placement.
pub struct Membership {
    /// One for each node, in order of their ids.
    nodes: Vec<NodeState>,
    /// Optional initial placement: a region and the node that it is for. Consumed lazily: a node
    /// that reports nothing adopts the entries that are for it.
    seed: Vec<(Region, u64)>,
}

/// The views of a seed.
pub open spec fn seed_views(s: Seq<(Region, u64)>) -> Seq<(RegionView, u64)> {
    Seq::new(s.len(), |i: int| (s[i].0@, s[i].1))
}

/// The views of a list of addresses.
pub open spec fn address_views(s: Seq<(u64, String)>) -> Seq<(u64, Seq<char>)> {
    Seq::new(s.len(), |i: int| (s[i].0, s[i].1@))
}

/// An optional placed region as values.
pub open spec fn opt_placed(p: Option<PlacedRegion>) -> Option<PlacedView> {
    match p {
        Some(x) => Some(x@),
        None => None,
    }
}

impl View for Membership {
    type V = MembershipView;

    closed spec fn view(&self) -> MembershipView {
        MembershipView { nodes: order::views(self.nodes@), seed: seed_views(self.seed@) }
    }
}

/// A copy of a list of declarations, for sorting by name.
struct Decl {
    name: String,
    regime: Regime,
}

impl View for Decl {
    type V = (Seq<char>, Regime);

    closed spec fn view(&self) -> (Seq<char>, Regime) {
        (self.name@, self.regime)
    }
}

impl Keyed for Decl {
    open spec fn key(v: (Seq<char>, Regime)) -> Seq<u8> {
        vstd::utf8::encode_utf8(v.0)
    }

    fn before(&self, other: &Self) -> (r: bool) {
        bytes::bytes_lt(
            text::utf8_bytes(self.name.as_str()),
            text::utf8_bytes(other.name.as_str()),
        )
    }
}

/// The first sightings, with their texts.
struct Seen {
    name: String,
    regime: Regime,
    node_id: u64,
}

spec fn seen_views(s: Seq<Seen>) -> Seq<Sighting> {
    Seq::new(
        s.len(),
        |i: int| Sighting { name: s[i].name@, regime: s[i].regime, node_id: s[i].node_id },
    )
}

/// Where a name was first seen.
fn find_seen(s: &Vec<Seen>, name: &str) -> (r: usize)
    ensures
        r == named(seen_views(s@), name@, 0),
        r <= s@.len(),
{
    let mut i: usize = 0;
    while i < s.len()
        invariant
            0 <= i <= s@.len(),
            named(seen_views(s@), name@, 0) == named(seen_views(s@), name@, i as int),
        decreases s@.len() - i,
    {
        if text::str_eq(s[i].name.as_str(), name) {
            return i;
        }
        i = i + 1;
    }
    i
}

fn has_conflict(s: &Vec<TableConflict>, name: &str) -> (r: bool)
    ensures
        r == conflicted(order::views(s@), name@),
{
    let mut i: usize = 0;
    while i < s.len()
        invariant
            0 <= i <= s@.len(),
            forall|j: int| 0 <= j < i ==> (#[trigger] order::views(s@)[j]).name != name@,
        decreases s@.len() - i,
    {
        if text::str_eq(s[i].name.as_str(), name) {
            assert(order::views(s@)[i as int].name == name@);
            return true;
        }
        i = i + 1;
    }
    false
}

impl Membership {
    /// An empty cluster. The first node to heartbeat with no regions bootstraps the whole
    /// keyspace.
    pub fn new() -> (m: Membership)
        ensures
            m@ == (MembershipView { nodes: Seq::empty(), seed: Seq::empty() }),
            m@.wf(),
    {
        let m = Membership { nodes: Vec::new(), seed: Vec::new() };
        assert(m@ =~= MembershipView { nodes: Seq::empty(), seed: Seq::empty() });
        m
    }

    /// A cluster seeded with an explicit initial placement: each region is handed to its node the
    /// first time that it heartbeats with no regions of its own.
    pub fn seeded(seed: Vec<(Region, u64)>) -> (m: Membership)
        ensures
            m@ == (MembershipView { nodes: Seq::empty(), seed: seed_views(seed@) }),
            m@.wf(),
    {
        let ghost sv = seed_views(seed@);
        let m = Membership { nodes: Vec::new(), seed };
        assert(m@ =~= MembershipView { nodes: Seq::empty(), seed: sv });
        m
    }

    /// Where a node stands, or would.
    fn find(&self, id: u64) -> (r: usize)
        ensures
            r == rank(self@.nodes, id, 0),
            r <= self@.nodes.len(),
    {
        let mut i: usize = 0;
        while i < self.nodes.len() && self.nodes[i].id < id
            invariant
                0 <= i <= self.nodes@.len(),
                rank(self@.nodes, id, 0) == rank(self@.nodes, id, i as int),
            decreases self.nodes@.len() - i,
        {
            i = i + 1;
        }
        i
    }

    /// Put a node in its place.
    fn put(&mut self, n: NodeState)
        requires
            old(self)@.wf(),
        ensures
            final(self)@ == (MembershipView {
                nodes: upsert(old(self)@.nodes, n@),
                ..old(self)@
            }),
            final(self)@.wf(),
    {
        let ghost before = self@;
        let ghost nv = n@;
        proof {
            lemma_upsert(before.nodes, nv);
        }
        let i: usize = self.find(n.id);
        if i < self.nodes.len() && self.nodes[i].id == n.id {
            self.nodes.set(i, n);
        } else {
            self.nodes.insert(i, n);
        }
        proof {
            assert(self@.nodes =~= upsert(before.nodes, nv));
            let w = MembershipView { nodes: self@.nodes, seed: Seq::empty() };
            assert(w.wf());
            assert forall|a: int, b: int| #![trigger self@.nodes[a], self@.nodes[b]] 0 <= a < b
                < self@.nodes.len() implies self@.nodes[a].id < self@.nodes[b].id by {
                assert(w.nodes[a].id < w.nodes[b].id);
            }
        }
    }

    /// The regions of the seed that are for a node.
    fn seeded_regions(&self, id: u64) -> (r: Vec<Region>)
        ensures
            order::views(r@) == seeded_for(self@.seed, id),
    {
        let ghost all = self@.seed;
        let mut out: Vec<Region> = Vec::new();
        let mut i: usize = 0;
        assert(all.take(0) =~= Seq::<(RegionView, u64)>::empty());
        assert(order::views(out@) =~= Seq::<RegionView>::empty());
        while i < self.seed.len()
            invariant
                0 <= i <= self.seed@.len(),
                all == self@.seed,
                order::views(out@) == seeded_for(all.take(i as int), id),
            decreases self.seed@.len() - i,
        {
            proof {
                assert(all.take(i + 1).drop_last() =~= all.take(i as int));
                assert(all.take(i + 1).last() == (self.seed@[i as int].0@, self.seed@[i as int].1));
            }
            if self.seed[i].1 == id {
                let ghost before = order::views(out@);
                let r = self.seed[i].0.dup();
                let ghost rv = r@;
                out.push(r);
                assert(order::views(out@) =~= before.push(rv));
            }
            i = i + 1;
        }
        assert(all.take(i as int) =~= all);
        out
    }

    /// Decide the regions to hand a node that reported none: its seed partition if there is one,
    /// otherwise the whole keyspace if no region exists anywhere yet.
    fn assign(&self, id: u64) -> (r: Vec<Region>)
        ensures
            order::views(r@) == self@.assign(id),
    {
        let mine = self.seeded_regions(id);
        if mine.len() > 0 {
            return mine;
        }
        let none: Vec<Region> = Vec::new();
        assert(order::views(none@) =~= Seq::<RegionView>::empty());
        if self.seed.len() > 0 {
            return none;
        }
        let mut i: usize = 0;
        while i < self.nodes.len()
            invariant
                0 <= i <= self.nodes@.len(),
                seeded_for(self@.seed, id).len() == 0,
                order::views(none@) == Seq::<RegionView>::empty(),
                forall|j: int| 0 <= j < i ==> (#[trigger] self@.nodes[j]).regions.len() == 0,
            decreases self.nodes@.len() - i,
        {
            if self.nodes[i].regions.len() > 0 {
                assert(self@.nodes[i as int].regions.len() > 0);
                return none;
            }
            i = i + 1;
        }
        let mut all: Vec<Region> = Vec::new();
        all.push(Region::whole(1));
        assert(order::views(all@) =~= seq![RegionView::whole(1)]);
        all
    }

    /// Record a heartbeat and return the regions that are assigned to the node.
    ///
    /// `reported` is the node's own current region set (authoritative when non-empty); `now` is
    /// the current time in ms. A node that reports nothing keeps what is on record for it, or is
    /// given its seed partition, or the whole keyspace if the cluster is still empty.
    pub fn heartbeat(
        &mut self,
        node_id: u64,
        address: String,
        reported: Vec<ReplicaSet>,
        tables: Vec<(String, Regime)>,
        now: u64,
    ) -> (r: Vec<ReplicaSet>)
        requires
            old(self)@.wf(),
        ensures
            order::views(r@) == old(self)@.assigned(node_id, order::views(reported@)),
            final(self)@ == old(self)@.heartbeat(
                node_id,
                address@,
                order::views(reported@),
                decl_views(tables@),
                now,
            ),
            final(self)@.wf(),
    {
        let ghost before = self@;
        let ghost rv = order::views(reported@);
        let assigned = if reported.len() > 0 {
            reported
        } else {
            let i: usize = self.find(node_id);
            if i < self.nodes.len() && self.nodes[i].id == node_id && self.nodes[i].regions.len()
                > 0 {
                let copy = dup_sets(&self.nodes[i].regions);
                copy
            } else {
                proof {
                    assert(rv.len() == 0);
                }
                let regions = self.assign(node_id);
                let ghost given = order::views(regions@);
                let mut out: Vec<ReplicaSet> = Vec::new();
                let mut j: usize = 0;
                while j < regions.len()
                    invariant
                        0 <= j <= regions@.len(),
                        out@.len() == j,
                        forall|k: int|
                            0 <= k < j ==> (#[trigger] out@[k])@ == ReplicaSetView::bare(
                                regions@[k]@,
                            ),
                    decreases regions@.len() - j,
                {
                    out.push(ReplicaSet::bare(regions[j].dup()));
                    j = j + 1;
                }
                assert(order::views(out@) =~= bare_all(given));
                out
            }
        };
        assert(order::views(assigned@) == before.assigned(node_id, rv));
        let copy = dup_sets(&assigned);
        self.put(
            NodeState {
                id: node_id,
                address,
                last_seen: now,
                down: false,
                regions: copy,
                tables,
            },
        );
        assigned
    }

    /// The cluster-wide catalog: every table that any node has declared, sorted by name. Where
    /// nodes disagree about a regime this reports the lowest-numbered node's view.
    pub fn tables(&self) -> (r: Vec<(String, Regime)>)
        ensures
            decl_views(r@) == order::sorted(
                decl_key(),
                decls_of(firsts(sightings(self@.nodes))),
            ),
    {
        let seen = self.first_sightings();
        let ghost fs = seen_views(seen@);
        let mut list: Vec<Decl> = Vec::new();
        let mut i: usize = 0;
        while i < seen.len()
            invariant
                0 <= i <= seen@.len(),
                list@.len() == i,
                forall|j: int|
                    0 <= j < i ==> (#[trigger] list@[j])@ == (seen@[j].name@, seen@[j].regime),
            decreases seen@.len() - i,
        {
            list.push(Decl { name: text::owned(seen[i].name.as_str()), regime: seen[i].regime });
            i = i + 1;
        }
        proof {
            assert(order::views(list@) =~= decls_of(fs));
            assert(order::key_of::<Decl>() =~= decl_key());
        }
        let sorted = order::sort(list);
        let ghost sv = order::views(sorted@);
        let mut out: Vec<(String, Regime)> = Vec::new();
        let mut i: usize = 0;
        while i < sorted.len()
            invariant
                0 <= i <= sorted@.len(),
                out@.len() == i,
                forall|j: int| 0 <= j < i ==> decl_view(#[trigger] out@[j]) == sorted@[j]@,
            decreases sorted@.len() - i,
        {
            out.push((text::owned(sorted[i].name.as_str()), sorted[i].regime));
            i = i + 1;
        }
        assert(decl_views(out@) =~= sv);
        out
    }

    /// The first sightings of the tables, in order of the nodes' ids.
    fn first_sightings(&self) -> (r: Vec<Seen>)
        ensures
            seen_views(r@) == firsts(sightings(self@.nodes)),
    {
        let ghost all = self@.nodes;
        let mut seen: Vec<Seen> = Vec::new();
        let mut i: usize = 0;
        assert(all.take(0) =~= Seq::<NodeStateView>::empty());
        assert(seen_views(seen@) =~= Seq::<Sighting>::empty());
        while i < self.nodes.len()
            invariant
                0 <= i <= self.nodes@.len(),
                all == self@.nodes,
                seen_views(seen@) == firsts(sightings(all.take(i as int))),
            decreases self.nodes@.len() - i,
        {
            let ghost base = sightings(all.take(i as int));
            let ghost mine = sightings_of(all[i as int]);
            proof {
                assert(all.take(i + 1).drop_last() =~= all.take(i as int));
                assert(all.take(i + 1).last() == all[i as int]);
                assert(base + mine.take(0) =~= base);
            }
            let mut j: usize = 0;
            while j < self.nodes[i as usize].tables.len()
                invariant
                    0 <= i < self.nodes@.len(),
                    0 <= j <= self.nodes@[i as int].tables@.len(),
                    all == self@.nodes,
                    mine == sightings_of(all[i as int]),
                    seen_views(seen@) == firsts(base + mine.take(j as int)),
                decreases self.nodes@[i as int].tables@.len() - j,
            {
                let ghost here = base + mine.take(j + 1);
                proof {
                    assert(here.drop_last() =~= base + mine.take(j as int));
                    assert(here.last() == mine[j as int]);
                    assert(all[i as int].tables[j as int] == decl_view(
                        self.nodes@[i as int].tables@[j as int],
                    ));
                }
                let name = text::owned(self.nodes[i].tables[j].0.as_str());
                if find_seen(&seen, name.as_str()) >= seen.len() {
                    let ghost before = seen_views(seen@);
                    seen.push(
                        Seen {
                            name,
                            regime: self.nodes[i].tables[j].1,
                            node_id: self.nodes[i].id,
                        },
                    );
                    assert(seen_views(seen@) =~= before.push(here.last()));
                }
                j = j + 1;
            }
            assert(mine.take(j as int) =~= mine);
            i = i + 1;
        }
        assert(all.take(i as int) =~= all);
        seen
    }

    /// Tables that two nodes describe with different regimes. A mismatch is silent otherwise: the
    /// nodes tile the keyspace differently and route the same keys to different regimes.
    ///
    /// One entry for each such table, naming the two lowest-numbered nodes that disagree.
    pub fn table_conflicts(&self) -> (r: Vec<TableConflict>)
        ensures
            order::views(r@) == order::sorted(
                order::key_of::<TableConflict>(),
                conflicts(sightings(self@.nodes)),
            ),
    {
        let ghost all = self@.nodes;
        let mut seen: Vec<Seen> = Vec::new();
        let mut out: Vec<TableConflict> = Vec::new();
        let mut i: usize = 0;
        assert(all.take(0) =~= Seq::<NodeStateView>::empty());
        assert(seen_views(seen@) =~= Seq::<Sighting>::empty());
        assert(order::views(out@) =~= Seq::<ConflictView>::empty());
        while i < self.nodes.len()
            invariant
                0 <= i <= self.nodes@.len(),
                all == self@.nodes,
                seen_views(seen@) == firsts(sightings(all.take(i as int))),
                order::views(out@) == conflicts(sightings(all.take(i as int))),
            decreases self.nodes@.len() - i,
        {
            let ghost base = sightings(all.take(i as int));
            let ghost mine = sightings_of(all[i as int]);
            proof {
                assert(all.take(i + 1).drop_last() =~= all.take(i as int));
                assert(all.take(i + 1).last() == all[i as int]);
                assert(base + mine.take(0) =~= base);
            }
            let mut j: usize = 0;
            while j < self.nodes[i as usize].tables.len()
                invariant
                    0 <= i < self.nodes@.len(),
                    0 <= j <= self.nodes@[i as int].tables@.len(),
                    all == self@.nodes,
                    mine == sightings_of(all[i as int]),
                    seen_views(seen@) == firsts(base + mine.take(j as int)),
                    order::views(out@) == conflicts(base + mine.take(j as int)),
                decreases self.nodes@[i as int].tables@.len() - j,
            {
                let ghost here = base + mine.take(j + 1);
                proof {
                    assert(here.drop_last() =~= base + mine.take(j as int));
                    assert(here.last() == mine[j as int]);
                    assert(all[i as int].tables[j as int] == decl_view(
                        self.nodes@[i as int].tables@[j as int],
                    ));
                }
                let name = text::owned(self.nodes[i].tables[j].0.as_str());
                let regime: Regime = self.nodes[i].tables[j].1;
                let id: u64 = self.nodes[i].id;
                let k: usize = find_seen(&seen, name.as_str());
                if k >= seen.len() {
                    let ghost before = seen_views(seen@);
                    seen.push(Seen { name, regime, node_id: id });
                    assert(seen_views(seen@) =~= before.push(here.last()));
                } else if seen[k].regime != regime && !has_conflict(&out, name.as_str()) {
                    let ghost before = order::views(out@);
                    let c = TableConflict {
                        name,
                        regime: seen[k].regime,
                        node_id: seen[k].node_id,
                        other_regime: regime,
                        other_node_id: id,
                    };
                    let ghost cv = c@;
                    out.push(c);
                    assert(order::views(out@) =~= before.push(cv));
                    assert(cv.name == here.last().name);
                }
                j = j + 1;
            }
            assert(mine.take(j as int) =~= mine);
            i = i + 1;
        }
        assert(all.take(i as int) =~= all);
        order::sort(out)
    }

    /// Mark every node whose last heartbeat is older than `timeout_ms` as down, and return the
    /// ids that are newly marked. A down node's regions leave the routing view until it
    /// heartbeats again.
    pub fn sweep(&mut self, now: u64, timeout_ms: u64) -> (r: Vec<u64>)
        requires
            old(self)@.wf(),
        ensures
            r@ == downed(old(self)@.nodes, now, timeout_ms),
            final(self)@ == (MembershipView {
                nodes: swept(old(self)@.nodes, now, timeout_ms),
                ..old(self)@
            }),
            final(self)@.wf(),
    {
        let ghost before = self@;
        let mut out: Vec<u64> = Vec::new();
        let mut i: usize = 0;
        assert(before.nodes.take(0) =~= Seq::<NodeStateView>::empty());
        while i < self.nodes.len()
            invariant
                0 <= i <= self.nodes@.len(),
                self.nodes@.len() == before.nodes.len(),
                seed_views(self.seed@) == before.seed,
                out@ == downed(before.nodes.take(i as int), now, timeout_ms),
                forall|j: int|
                    0 <= j < i ==> (#[trigger] self.nodes@[j])@ == swept(
                        before.nodes,
                        now,
                        timeout_ms,
                    )[j],
                forall|j: int|
                    i <= j < self.nodes@.len() ==> (#[trigger] self.nodes@[j])@
                        == before.nodes[j],
            decreases self.nodes@.len() - i,
        {
            proof {
                assert(before.nodes.take(i + 1).drop_last() =~= before.nodes.take(i as int));
                assert(before.nodes.take(i + 1).last() == self.nodes@[i as int]@);
            }
            let seen: u64 = self.nodes[i].last_seen;
            let age: u64 = if now > seen {
                now - seen
            } else {
                0
            };
            if !self.nodes[i].down && age > timeout_ms {
                let n = NodeState {
                    id: self.nodes[i].id,
                    address: text::owned(self.nodes[i].address.as_str()),
                    last_seen: seen,
                    down: true,
                    regions: dup_sets(&self.nodes[i].regions),
                    tables: dup_decls(&self.nodes[i].tables),
                };
                assert(n@ =~= swept(before.nodes, now, timeout_ms)[i as int]);
                out.push(n.id);
                self.nodes.set(i, n);
            }
            i = i + 1;
        }
        proof {
            assert(before.nodes.take(i as int) =~= before.nodes);
            assert(self@.nodes =~= swept(before.nodes, now, timeout_ms));
            assert forall|a: int, b: int| #![trigger self@.nodes[a], self@.nodes[b]] 0 <= a < b
                < self@.nodes.len() implies self@.nodes[a].id < self@.nodes[b].id by {
                assert(before.nodes[a].id < before.nodes[b].id);
            }
        }
        out
    }

    /// The region (and the node that owns it) that covers `key`, among **live** nodes.
    pub fn route(&self, key: &[u8]) -> (r: Option<PlacedRegion>)
        ensures
            opt_placed(r) == routed(self@.nodes, key@, 0),
    {
        let mut i: usize = 0;
        while i < self.nodes.len()
            invariant
                0 <= i <= self.nodes@.len(),
                routed(self@.nodes, key@, 0) == routed(self@.nodes, key@, i as int),
            decreases self.nodes@.len() - i,
        {
            assert(self@.nodes[i as int] == self.nodes@[i as int]@);
            if !self.nodes[i].down {
                let j: usize = find_holding(&self.nodes[i].regions, key);
                if j < self.nodes[i].regions.len() {
                    return Some(place(&self.nodes[i], &self.nodes[i].regions[j]));
                }
            }
            i = i + 1;
        }
        None
    }

    /// Every placed region across all live nodes, sorted by start key.
    pub fn list(&self) -> (r: Vec<PlacedRegion>)
        ensures
            order::views(r@) == self@.list(),
    {
        let ghost all = self@.nodes;
        let mut out: Vec<PlacedRegion> = Vec::new();
        let mut i: usize = 0;
        assert(all.take(0) =~= Seq::<NodeStateView>::empty());
        assert(order::views(out@) =~= Seq::<PlacedView>::empty());
        while i < self.nodes.len()
            invariant
                0 <= i <= self.nodes@.len(),
                all == self@.nodes,
                order::views(out@) == placements(all.take(i as int)),
            decreases self.nodes@.len() - i,
        {
            let ghost base = placements(all.take(i as int));
            let ghost mine = placed_by(all[i as int]);
            proof {
                assert(all.take(i + 1).drop_last() =~= all.take(i as int));
                assert(all.take(i + 1).last() == all[i as int]);
                assert(base + mine.take(0) =~= base);
            }
            if !self.nodes[i].down {
                let mut j: usize = 0;
                while j < self.nodes[i as usize].regions.len()
                    invariant
                        0 <= i < self.nodes@.len(),
                        0 <= j <= self.nodes@[i as int].regions@.len(),
                        all == self@.nodes,
                        mine == placed_by(all[i as int]),
                        order::views(out@) == base + mine.take(j as int),
                    decreases self.nodes@[i as int].regions@.len() - j,
                {
                    let p = place(&self.nodes[i], &self.nodes[i].regions[j]);
                    let ghost before = order::views(out@);
                    let ghost pv = p@;
                    out.push(p);
                    proof {
                        assert(pv == mine[j as int]);
                        assert(order::views(out@) =~= before.push(pv));
                        assert(base + mine.take(j + 1) =~= (base + mine.take(j as int)).push(pv));
                    }
                    j = j + 1;
                }
                assert(mine.take(j as int) =~= mine);
            }
            i = i + 1;
        }
        assert(all.take(i as int) =~= all);
        order::sort(out)
    }

    /// Whether a node is currently considered down.
    pub fn is_down(&self, node_id: u64) -> (r: bool)
        ensures
            r == match node_at(self@.nodes, node_id) {
                Some(n) => n.down,
                None => false,
            },
    {
        let i: usize = self.find(node_id);
        i < self.nodes.len() && self.nodes[i].id == node_id && self.nodes[i].down
    }

    /// Whether a node has ever reported in.
    pub fn knows(&self, node_id: u64) -> (r: bool)
        ensures
            r == (node_at(self@.nodes, node_id) is Some),
    {
        let i: usize = self.find(node_id);
        i < self.nodes.len() && self.nodes[i].id == node_id
    }

    /// The ids of the nodes that are not down, in order.
    pub fn live_nodes(&self) -> (r: Vec<u64>)
        ensures
            r@ == live(self@.nodes),
    {
        let ghost all = self@.nodes;
        let mut out: Vec<u64> = Vec::new();
        let mut i: usize = 0;
        assert(all.take(0) =~= Seq::<NodeStateView>::empty());
        while i < self.nodes.len()
            invariant
                0 <= i <= self.nodes@.len(),
                all == self@.nodes,
                out@ == live(all.take(i as int)),
            decreases self.nodes@.len() - i,
        {
            proof {
                assert(all.take(i + 1).drop_last() =~= all.take(i as int));
                assert(all.take(i + 1).last() == self.nodes@[i as int]@);
            }
            if !self.nodes[i].down {
                out.push(self.nodes[i].id);
            }
            i = i + 1;
        }
        assert(all.take(i as int) =~= all);
        out
    }

    /// Every known node and where to reach it, in order of their ids.
    pub fn node_addrs(&self) -> (r: Vec<(u64, String)>)
        ensures
            address_views(r@) == addresses(self@.nodes),
    {
        let mut out: Vec<(u64, String)> = Vec::new();
        let mut i: usize = 0;
        while i < self.nodes.len()
            invariant
                0 <= i <= self.nodes@.len(),
                out@.len() == i,
                forall|j: int|
                    0 <= j < i ==> (#[trigger] out@[j]).0 == self.nodes@[j]@.id && out@[j].1@
                        == self.nodes@[j]@.address,
            decreases self.nodes@.len() - i,
        {
            out.push((self.nodes[i].id, text::owned(self.nodes[i].address.as_str())));
            i = i + 1;
        }
        assert(address_views(out@) =~= addresses(self@.nodes));
        out
    }

    /// Append the nodes in bytes. The seed is **not** among them: it is startup configuration,
    /// not replicated state.
    pub fn encode_into(&self, out: &mut Vec<u8>)
        ensures
            final(out)@ == old(out)@ + self@.bytes(),
    {
        let ghost before = out@;
        let ghost all = self@.nodes;
        bytes::put_u32(out, encoding::low32(self.nodes.len()));
        let ghost head = out@;
        let mut i: usize = 0;
        assert(all.take(0) =~= Seq::<NodeStateView>::empty());
        assert(out@ =~= head + codec::list_bytes(node_writer(), all.take(0)));
        while i < self.nodes.len()
            invariant
                0 <= i <= self.nodes@.len(),
                all == self@.nodes,
                out@ == head + codec::list_bytes(node_writer(), all.take(i as int)),
            decreases self.nodes@.len() - i,
        {
            proof {
                assert(all.take(i + 1).drop_last() =~= all.take(i as int));
                assert(all.take(i + 1).last() == self.nodes@[i as int]@);
            }
            put_node(out, &self.nodes[i]);
            assert(out@ =~= head + codec::list_bytes(node_writer(), all.take(i + 1)));
            i = i + 1;
        }
        assert(all.take(i as int) =~= all);
        assert(out@ =~= before + self@.bytes());
    }

    /// A membership with the nodes that bytes start with and this one's seed, and how many bytes
    /// they take; `None` where the bytes are cut short or malformed.
    pub fn decode(&self, buf: &[u8]) -> (r: Option<(Membership, usize)>)
        ensures
            match nodes_of(buf@) {
                Some((nodes, end)) => r matches Some((m, p)) && m@ == (MembershipView {
                    nodes,
                    ..self@
                }) && p == end && m@.wf(),
                None => r is None,
            },
    {
        let (n, start) = match codec::get_u32(buf, 0) {
            Some(x) => x,
            None => {
                return None;
            },
        };
        let ghost f = node_parser();
        let mut seed: Vec<(Region, u64)> = Vec::new();
        let mut k: usize = 0;
        while k < self.seed.len()
            invariant
                0 <= k <= self.seed@.len(),
                seed@.len() == k,
                forall|j: int|
                    0 <= j < k ==> (#[trigger] seed@[j]).0@ == self.seed@[j].0@ && seed@[j].1
                        == self.seed@[j].1,
            decreases self.seed@.len() - k,
        {
            seed.push((self.seed[k].0.dup(), self.seed[k].1));
            k = k + 1;
        }
        let mut m = Membership { nodes: Vec::new(), seed };
        proof {
            assert(m@.seed =~= self@.seed);
            assert(m@.nodes =~= Seq::<NodeStateView>::empty());
        }
        let ghost mut got: Seq<NodeStateView> = Seq::empty();
        let mut q: usize = start;
        let mut i: u32 = 0;
        while i < n
            invariant
                0 <= i <= n,
                f == node_parser(),
                m@.wf(),
                m@.seed == self@.seed,
                codec::u32_from(buf@, 0) == Some((n, start as int)),
                codec::list_from(f, buf@, start as int, i as nat) == Some((got, q as int)),
                m@.nodes == upsert_all(Seq::empty(), got),
            decreases n - i,
        {
            match get_node(buf, q) {
                Some((x, end)) => {
                    proof {
                        assert(got.push(x@).drop_last() =~= got);
                        got = got.push(x@);
                    }
                    m.put(x);
                    q = end;
                },
                None => {
                    proof {
                        assert(codec::list_from(f, buf@, start as int, (i + 1) as nat) is None);
                        codec::lemma_list_none(
                            f,
                            buf@,
                            start as int,
                            (i + 1) as nat,
                            n as nat,
                        );
                    }
                    return None;
                },
            }
            i = i + 1;
        }
        assert(m@ =~= MembershipView { nodes: m@.nodes, ..self@ });
        Some((m, q))
    }

    /// Replace the nodes by those that `bytes` hold. `None` on a truncated or malformed image,
    /// with the current view untouched: a bad snapshot must not half-apply.
    pub fn decode_from(&mut self, bytes: &[u8]) -> (r: Option<()>)
        requires
            old(self)@.wf(),
        ensures
            match nodes_of(bytes@) {
                Some((nodes, _)) => r is Some && final(self)@ == (MembershipView {
                    nodes,
                    ..old(self)@
                }),
                None => r is None && final(self)@ == old(self)@,
            },
            final(self)@.wf(),
    {
        match self.decode(bytes) {
            Some((m, _)) => {
                *self = m;
                Some(())
            },
            None => None,
        }
    }
}

impl Default for Membership {
    fn default() -> (m: Self)
        ensures
            m@ == (MembershipView { nodes: Seq::empty(), seed: Seq::empty() }),
    {
        Membership::new()
    }
}

/// Copies of a list of declarations.
fn dup_decls(s: &Vec<(String, Regime)>) -> (r: Vec<(String, Regime)>)
    ensures
        decl_views(r@) == decl_views(s@),
{
    let mut out: Vec<(String, Regime)> = Vec::new();
    let mut i: usize = 0;
    while i < s.len()
        invariant
            0 <= i <= s@.len(),
            out@.len() == i,
            forall|j: int| 0 <= j < i ==> decl_view(#[trigger] out@[j]) == decl_view(s@[j]),
        decreases s@.len() - i,
    {
        out.push((text::owned(s[i].0.as_str()), s[i].1));
        i = i + 1;
    }
    assert(decl_views(out@) =~= decl_views(s@));
    out
}

/// The position of the first region that covers a key.
fn find_holding(s: &Vec<ReplicaSet>, key: &[u8]) -> (r: usize)
    ensures
        r == holding(order::views(s@), key@, 0),
        r <= s@.len(),
{
    let mut i: usize = 0;
    while i < s.len()
        invariant
            0 <= i <= s@.len(),
            holding(order::views(s@), key@, 0) == holding(order::views(s@), key@, i as int),
        decreases s@.len() - i,
    {
        if s[i].region.contains(key) {
            return i;
        }
        i = i + 1;
    }
    i
}

/// A node's region with its owner.
fn place(n: &NodeState, rs: &ReplicaSet) -> (r: PlacedRegion)
    ensures
        r@ == placed(n@, rs@),
{
    PlacedRegion {
        region: rs.region.dup(),
        node_id: n.id,
        address: text::owned(n.address.as_str()),
        regime: rs.regime,
        voters: rs.voters.clone(),
    }
}

/// Where a node stands among nodes in order.
pub proof fn lemma_rank(s: Seq<NodeStateView>, id: u64, i: int)
    requires
        0 <= i <= s.len(),
        forall|j: int| 0 <= j < i ==> (#[trigger] s[j]).id < id,
    ensures
        i <= rank(s, id, i) <= s.len(),
        forall|j: int| 0 <= j < rank(s, id, i) ==> (#[trigger] s[j]).id < id,
        rank(s, id, i) < s.len() ==> s[rank(s, id, i)].id >= id,
    decreases s.len() - i,
{
    if i < s.len() && s[i].id < id {
        lemma_rank(s, id, i + 1);
    }
}

/// Putting a node in its place keeps the order.
pub proof fn lemma_upsert(s: Seq<NodeStateView>, n: NodeStateView)
    requires
        (MembershipView { nodes: s, seed: Seq::empty() }).wf(),
    ensures
        (MembershipView { nodes: upsert(s, n), seed: Seq::empty() }).wf(),
        node_at(upsert(s, n), n.id) == Some(n),
        forall|id: u64| id != n.id ==> #[trigger] node_at(upsert(s, n), id) == node_at(s, id),
{
    let m = MembershipView { nodes: s, seed: Seq::empty() };
    let i = rank(s, n.id, 0);
    lemma_rank(s, n.id, 0);
    let t = upsert(s, n);
    assert forall|a: int, b: int| #![trigger t[a], t[b]] 0 <= a < b < t.len() implies t[a].id
        < t[b].id by {
        if i < s.len() && s[i].id == n.id {
            assert(m.nodes[a].id < m.nodes[b].id);
        } else {
            let x = if a <= i {
                a
            } else {
                a - 1
            };
            let y = if b <= i {
                b
            } else {
                b - 1
            };
            if a != i && b != i {
                assert(m.nodes[x].id < m.nodes[y].id);
            } else if a == i {
                assert(t[b] == s[b - 1]);
                if i < b - 1 {
                    assert(m.nodes[i].id < m.nodes[b - 1].id);
                }
            }
        }
    }
    let w = MembershipView { nodes: t, seed: Seq::empty() };
    assert(t[i] == n);
    lemma_found(t, i);
    assert forall|id: u64| id != n.id implies #[trigger] node_at(t, id) == node_at(s, id) by {
        lemma_rank(s, id, 0);
        lemma_rank(t, id, 0);
        let p = rank(s, id, 0);
        let q = rank(t, id, 0);
        if p < s.len() && s[p].id == id {
            let x = if i < s.len() && s[i].id == n.id {
                p
            } else if p < i {
                p
            } else {
                p + 1
            };
            assert(t[x] == s[p]);
            lemma_found(t, x);
        } else if q < t.len() && t[q].id == id {
            let x = if i < s.len() && s[i].id == n.id {
                q
            } else if q < i {
                q
            } else {
                q - 1
            };
            assert(q != i);
            assert(s[x] == t[q]);
            lemma_found(s, x);
        }
    }
}

/// A node is found where it stands.
pub proof fn lemma_found(s: Seq<NodeStateView>, i: int)
    requires
        (MembershipView { nodes: s, seed: Seq::empty() }).wf(),
        0 <= i < s.len(),
    ensures
        node_at(s, s[i].id) == Some(s[i]),
        rank(s, s[i].id, 0) == i,
{
    let m = MembershipView { nodes: s, seed: Seq::empty() };
    let p = rank(s, s[i].id, 0);
    lemma_rank(s, s[i].id, 0);
    if p < i {
        assert(m.nodes[p].id < m.nodes[i].id);
    }
    if i < p {
        assert(s[i].id < s[i].id);
    }
}

/// Nodes in order, put in place one by one, are themselves.
pub proof fn lemma_upsert_all(s: Seq<NodeStateView>)
    requires
        (MembershipView { nodes: s, seed: Seq::empty() }).wf(),
    ensures
        upsert_all(Seq::empty(), s) == s,
    decreases s.len(),
{
    if s.len() > 0 {
        let t = s.drop_last();
        let m = MembershipView { nodes: s, seed: Seq::empty() };
        assert forall|a: int, b: int| #![trigger t[a], t[b]] 0 <= a < b < t.len() implies t[a].id
            < t[b].id by {
            assert(m.nodes[a].id < m.nodes[b].id);
        }
        lemma_upsert_all(t);
        let n = s.last();
        lemma_rank(t, n.id, 0);
        let p = rank(t, n.id, 0);
        if p < t.len() {
            assert(m.nodes[p].id < m.nodes[s.len() - 1].id);
        }
        assert(t.insert(t.len() as int, n) =~= s);
    }
}

/// The nodes are read back from their bytes.
pub proof fn law_membership_roundtrip(m: MembershipView, after: Seq<u8>)
    requires
        m.wf(),
        m.fits(),
    ensures
        nodes_of(m.bytes() + after) == Some((m.nodes, m.bytes().len() as int)),
{
    lemma_nodes_code(m.nodes);
    let none = Seq::<u8>::empty();
    codec::lemma_counted_codes(node_parser(), node_writer(), m.nodes, none, after);
    assert(none + m.bytes() + after =~= m.bytes() + after);
    assert(MembershipView { nodes: m.nodes, seed: Seq::empty() }.wf());
    lemma_upsert_all(m.nodes);
}

/// The nodes end within the bytes.
pub proof fn lemma_nodes_end(b: Seq<u8>)
    ensures
        nodes_of(b) matches Some((_, end)) ==> 0 <= end <= b.len(),
{
    lemma_node_exact();
    codec::lemma_counted_exact(node_parser(), b, 0, b.len() as int);
}

/// An image that is cut short is refused.
pub proof fn law_membership_truncation(m: MembershipView, cut: int)
    requires
        m.wf(),
        m.fits(),
        0 <= cut < m.bytes().len(),
    ensures
        nodes_of(m.bytes().take(cut)) is None,
{
    let none = Seq::<u8>::empty();
    law_membership_roundtrip(m, none);
    assert(m.bytes() + none =~= m.bytes());
    lemma_node_exact();
    codec::lemma_counted_exact(node_parser(), m.bytes(), 0, cut);
}

/// A heartbeat of one node leaves what is known of every other.
pub proof fn law_heartbeat_others(
    m: MembershipView,
    id: u64,
    address: Seq<char>,
    reported: Seq<ReplicaSetView>,
    tables: Seq<(Seq<char>, Regime)>,
    now: u64,
    other: u64,
)
    requires
        m.wf(),
        other != id,
    ensures
        node_at(m.heartbeat(id, address, reported, tables, now).nodes, other) == node_at(
            m.nodes,
            other,
        ),
        node_at(m.heartbeat(id, address, reported, tables, now).nodes, id) matches Some(n)
            && !n.down && n.regions == m.assigned(id, reported),
{
    assert(MembershipView { nodes: m.nodes, seed: Seq::empty() }.wf());
    lemma_upsert(
        m.nodes,
        NodeStateView {
            id,
            address,
            last_seen: now,
            down: false,
            regions: m.assigned(id, reported),
            tables,
        },
    );
}

/// What is routed to is a live node's region that covers the key.
pub proof fn law_route_live(s: Seq<NodeStateView>, key: Seq<u8>, i: int)
    requires
        0 <= i,
    ensures
        routed(s, key, i) matches Some(p) ==> {
            &&& p.region.contains(key)
            &&& exists|j: int|
                i <= j < s.len() && !(#[trigger] s[j]).down && s[j].id == p.node_id
        },
    decreases s.len() - i,
{
    if i < s.len() {
        law_route_live(s, key, i + 1);
        if !s[i].down {
            lemma_holding(s[i].regions, key, 0);
        }
    }
}

/// What the search for a covering region finds.
proof fn lemma_holding(s: Seq<ReplicaSetView>, key: Seq<u8>, i: int)
    requires
        0 <= i <= s.len(),
    ensures
        i <= holding(s, key, i) <= s.len(),
        holding(s, key, i) < s.len() ==> s[holding(s, key, i)].region.contains(key),
    decreases s.len() - i,
{
    if i < s.len() && !s[i].region.contains(key) {
        lemma_holding(s, key, i + 1);
    }
}

/// A node that has been silent for longer than the timeout is down after a sweep, and none that
/// has not is marked by it.
pub proof fn law_sweep(m: MembershipView, now: u64, timeout_ms: u64, i: int)
    requires
        0 <= i < m.nodes.len(),
    ensures
        now - m.nodes[i].last_seen > timeout_ms ==> swept(m.nodes, now, timeout_ms)[i].down,
        now - m.nodes[i].last_seen <= timeout_ms ==> swept(m.nodes, now, timeout_ms)[i]
            == m.nodes[i],
        swept(m.nodes, now, timeout_ms)[i].regions == m.nodes[i].regions,
{
}

/// A regime reads back from its byte, strong from 0 and available from 1, and no other byte stands
/// for one.
pub proof fn law_regime_tags(r: Regime, tag: u8)
    ensures
        regime_of_tag(r.tag_byte()) == Some(r),
        regime_of_tag(tag) == Some(r) ==> tag == r.tag_byte(),
        Regime::Cp.tag_byte() == 0,
        Regime::Ap.tag_byte() == 1,
        tag > 1 ==> regime_of_tag(tag) is None,
{
}

} // verus!
