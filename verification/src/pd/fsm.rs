//! The placement driver's authoritative state as a **replicated state machine**.
//!
//! Two pieces of state that no failover may lose or corrupt are replicated across an ordered log:
//!
//! * the **timestamp high-water**: the leader raises it *through the log* before it hands out any
//!   timestamp below it, so a new leader that resumes from the committed watermark can never
//!   reissue a timestamp; and
//! * the **placement, liveness and catalog view**: each data node's heartbeat and each table
//!   declaration is a committed command, so every replica shares one routing view.

use vstd::prelude::*;
use crate::bytes;
use crate::engine::encoding;
use crate::pd::cluster;
use crate::pd::cluster::{
    Membership, MembershipView, PlacedRegion, PlacedView, Regime, ReplicaSet, ReplicaSetView,
    Table, TableView,
};
use crate::pd::codec;
use crate::pd::command;
use crate::pd::command::{CmdView, PdCmd};
use crate::pd::order;
use crate::pd::region;
use crate::pd::region::{
    RegionRegistry, RegionView, RegistryView, TableId, DEFAULT_TABLE_ID, DEFAULT_TABLE_NAME,
};
use crate::text;

verus! {

broadcast use bytes::group_be_len;

/// How many voters each region is grown to, unless configured otherwise.
pub const DEFAULT_REPLICAS: usize = 3;

/// A region's actual voters.
struct Entry {
    region: u64,
    voters: Vec<u64>,
}

/// A region's actual voters, as values.
#[verifier::ext_equal]
pub struct EntryView {
    pub region: u64,
    pub voters: Seq<u64>,
}

impl View for Entry {
    type V = EntryView;

    closed spec fn view(&self) -> EntryView {
        EntryView { region: self.region, voters: self.voters@ }
    }
}

/// Where a region's entry stands, or would: behind those with lower ids.
pub open spec fn place(s: Seq<EntryView>, id: u64, i: int) -> int
    decreases s.len() - i,
{
    if i >= s.len() || s[i].region >= id {
        i
    } else {
        place(s, id, i + 1)
    }
}

/// Whether a region has an entry.
pub open spec fn has_entry(s: Seq<EntryView>, id: u64) -> bool {
    place(s, id, 0) < s.len() && s[place(s, id, 0)].region == id
}

/// A region's voters; none where it has no entry.
pub open spec fn voters_of(s: Seq<EntryView>, id: u64) -> Seq<u64> {
    if has_entry(s, id) {
        s[place(s, id, 0)].voters
    } else {
        Seq::empty()
    }
}

/// The entries with a region's voters set.
pub open spec fn with_voters(s: Seq<EntryView>, id: u64, voters: Seq<u64>) -> Seq<EntryView> {
    let i = place(s, id, 0);
    if has_entry(s, id) {
        s.update(i, EntryView { region: id, voters })
    } else {
        s.insert(i, EntryView { region: id, voters })
    }
}

/// The entries with each of a list set, in order.
pub open spec fn with_all(s: Seq<EntryView>, more: Seq<EntryView>) -> Seq<EntryView>
    decreases more.len(),
{
    if more.len() == 0 {
        s
    } else {
        with_voters(with_all(s, more.drop_last()), more.last().region, more.last().voters)
    }
}

/// Each region has one entry, in order of its id.
pub open spec fn entries_ok(s: Seq<EntryView>) -> bool {
    forall|i: int, j: int|
        #![trigger s[i], s[j]]
        0 <= i < j < s.len() ==> s[i].region < s[j].region
}

/// Whether every id of one list is in another.
pub open spec fn all_in(a: Seq<u64>, b: Seq<u64>) -> bool {
    forall|i: int| 0 <= i < a.len() ==> b.contains(#[trigger] a[i])
}

/// The entries once every region without voters is founded by the given set.
pub open spec fn founded(
    s: Seq<EntryView>,
    regions: Seq<RegionView>,
    founding: Seq<u64>,
) -> Seq<EntryView>
    decreases regions.len(),
{
    if regions.len() == 0 {
        s
    } else {
        let t = founded(s, regions.drop_last(), founding);
        let id = regions.last().id;
        if voters_of(t, id).len() == 0 {
            with_voters(t, id, founding)
        } else {
            t
        }
    }
}

/// Whether founding changes anything.
pub open spec fn founds(s: Seq<EntryView>, regions: Seq<RegionView>, founding: Seq<u64>) -> bool
    decreases regions.len(),
{
    if regions.len() == 0 {
        false
    } else {
        founds(s, regions.drop_last(), founding) || voters_of(
            founded(s, regions.drop_last(), founding),
            regions.last().id,
        ).len() == 0
    }
}

/// Whether a report counts: the node is among the voters that it reports, and the region exists.
pub open spec fn counts(regions: Seq<RegionView>, node: u64, rs: ReplicaSetView) -> bool {
    rs.voters.contains(node) && region::with_id(regions, rs.region.id, 0) < regions.len()
}

/// Whether a report grows a group: it holds every current member and at least one more.
pub open spec fn grows(current: Seq<u64>, rs: ReplicaSetView) -> bool {
    rs.voters.len() > current.len() && all_in(current, rs.voters)
}

/// The entries once a node's reports of grown groups are adopted.
pub open spec fn adopted(
    s: Seq<EntryView>,
    regions: Seq<RegionView>,
    node: u64,
    reported: Seq<ReplicaSetView>,
) -> Seq<EntryView>
    decreases reported.len(),
{
    if reported.len() == 0 {
        s
    } else {
        let t = adopted(s, regions, node, reported.drop_last());
        let rs = reported.last();
        if !counts(regions, node, rs) {
            t
        } else {
            let current = voters_of(t, rs.region.id);
            if grows(current, rs) {
                with_voters(t, rs.region.id, order::ascending_numbers(rs.voters))
            } else {
                with_voters(t, rs.region.id, current)
            }
        }
    }
}

/// Whether adopting changes any group.
pub open spec fn adopts(
    s: Seq<EntryView>,
    regions: Seq<RegionView>,
    node: u64,
    reported: Seq<ReplicaSetView>,
) -> bool
    decreases reported.len(),
{
    if reported.len() == 0 {
        false
    } else {
        let t = adopted(s, regions, node, reported.drop_last());
        let rs = reported.last();
        adopts(s, regions, node, reported.drop_last()) || (counts(regions, node, rs) && grows(
            voters_of(t, rs.region.id),
            rs,
        ))
    }
}

/// The first of a list.
pub open spec fn first(s: Seq<u64>, n: nat) -> Seq<u64> {
    if s.len() <= n {
        s
    } else {
        s.take(n as int)
    }
}

/// The voters that a region is grown toward: its members, then live nodes that are not among
/// them, in order, until there are enough.
pub open spec fn wanted(members: Seq<u64>, live: Seq<u64>, replicas: nat) -> Seq<u64>
    decreases live.len(),
{
    if live.len() == 0 {
        members
    } else {
        let w = wanted(members, live.drop_last(), replicas);
        if w.len() >= replicas || w.contains(live.last()) {
            w
        } else {
            w.push(live.last())
        }
    }
}

/// The position of the first table with a name.
pub open spec fn table_named(s: Seq<TableView>, name: Seq<char>, i: int) -> int
    decreases s.len() - i,
{
    if i >= s.len() {
        s.len() as int
    } else if s[i].name == name {
        i
    } else {
        table_named(s, name, i + 1)
    }
}

/// The position of the first table with an id.
pub open spec fn table_with(s: Seq<TableView>, id: TableId, i: int) -> int
    decreases s.len() - i,
{
    if i >= s.len() {
        s.len() as int
    } else if s[i].id == id {
        i
    } else {
        table_with(s, id, i + 1)
    }
}

/// A table in bytes.
pub open spec fn table_bytes(t: TableView) -> Seq<u8> {
    codec::text_bytes(t.name) + seq![t.regime.tag_byte()] + bytes::be32(t.id)
}

/// How a table of a list is written.
pub open spec fn table_writer() -> spec_fn(TableView) -> Seq<u8> {
    |t: TableView| table_bytes(t)
}

/// The table at a position, and the position behind it.
pub open spec fn table_from(b: Seq<u8>, pos: int) -> Option<(TableView, int)> {
    match cluster::decl_from(b, pos) {
        Some(((name, regime), p)) => match codec::u32_from(b, p) {
            Some((id, e)) => Some((TableView { id, name, regime }, e)),
            None => None,
        },
        None => None,
    }
}

/// How a table of a list is read.
pub open spec fn table_parser() -> spec_fn(Seq<u8>, int) -> Option<(TableView, int)> {
    |b: Seq<u8>, pos: int| table_from(b, pos)
}

/// A region's voters in bytes.
pub open spec fn entry_bytes(e: EntryView) -> Seq<u8> {
    bytes::be64(e.region) + codec::counted_bytes(codec::u64_writer(), e.voters)
}

/// How an entry of a list is written.
pub open spec fn entry_writer() -> spec_fn(EntryView) -> Seq<u8> {
    |e: EntryView| entry_bytes(e)
}

/// The entry at a position, and the position behind it.
pub open spec fn entry_from(b: Seq<u8>, pos: int) -> Option<(EntryView, int)> {
    match codec::u64_from(b, pos) {
        Some((id, p)) => match codec::counted_from(codec::u64_parser(), b, p) {
            Some((voters, e)) => Some((EntryView { region: id, voters }, e)),
            None => None,
        },
        None => None,
    }
}

/// How an entry of a list is read.
pub open spec fn entry_parser() -> spec_fn(Seq<u8>, int) -> Option<(EntryView, int)> {
    |b: Seq<u8>, pos: int| entry_from(b, pos)
}

/// The larger of two numbers.
pub open spec fn larger(a: u64, b: u64) -> u64 {
    if a > b {
        a
    } else {
        b
    }
}

/// The next version; the last is followed by 0.
pub open spec fn next_version(v: u64) -> u64 {
    if v == u64::MAX {
        0
    } else {
        (v + 1) as u64
    }
}

/// The state machine as values.
#[verifier::ext_equal]
pub struct FsmView {
    pub members: MembershipView,
    /// The committed timestamp high-water.
    pub tso_upper: u64,
    /// The authoritative region table.
    pub regions: RegistryView,
    /// Declared tables, in declaration order.
    pub catalog: Seq<TableView>,
    /// The next table id to hand out.
    pub next_table_id: TableId,
    /// Bumped whenever an assignment changes.
    pub version: u64,
    /// Each region's actual voters.
    pub region_members: Seq<EntryView>,
    /// The voter count that each region is grown toward. Configuration, not replicated state.
    pub replicas: usize,
}

/// The table that always exists.
pub open spec fn default_table() -> TableView {
    TableView { id: 0, name: DEFAULT_TABLE_NAME@, regime: Regime::Cp }
}

/// The replicated part of a snapshot, as it is read.
pub struct Image {
    pub upper: u64,
    pub nodes: Seq<cluster::NodeStateView>,
    pub version: u64,
    pub next_table_id: TableId,
    pub catalog: Seq<TableView>,
    pub region_members: Seq<EntryView>,
    pub regions: RegistryView,
}

/// The catalog part of a snapshot: version, next id, tables and voters, and the position behind.
pub open spec fn catalog_from(b: Seq<u8>, pos: int) -> Option<
    ((u64, TableId, Seq<TableView>, Seq<EntryView>), int),
> {
    match codec::u64_from(b, pos) {
        Some((version, p)) => match codec::u32_from(b, p) {
            Some((next, q)) => match codec::counted_from(table_parser(), b, q) {
                Some((tables, r)) => match codec::counted_from(entry_parser(), b, r) {
                    Some((entries, e)) => Some(((version, next, tables, entries), e)),
                    None => None,
                },
                None => None,
            },
            None => None,
        },
        None => None,
    }
}

/// The snapshot that bytes hold.
pub open spec fn image_of(b: Seq<u8>) -> Option<Image> {
    match codec::u64_from(b, 0) {
        Some((upper, _)) => match cluster::nodes_of(b.skip(8)) {
            Some((nodes, n)) => match catalog_from(b, n + 8) {
                Some(((version, next_table_id, catalog, entries), p)) => match region::registry_of(
                    b.skip(p),
                ) {
                    Some(regions) => Some(
                        Image {
                            upper,
                            nodes,
                            version,
                            next_table_id,
                            catalog,
                            region_members: with_all(Seq::empty(), entries),
                            regions,
                        },
                    ),
                    None => None,
                },
                None => None,
            },
            None => None,
        },
        None => None,
    }
}

impl FsmView {
    /// A new state machine.
    pub open spec fn fresh() -> FsmView {
        FsmView {
            members: MembershipView { nodes: Seq::empty(), seed: Seq::empty() },
            tso_upper: 0,
            regions: RegistryView::fresh(),
            catalog: seq![default_table()],
            next_table_id: 1,
            version: 1,
            region_members: Seq::empty(),
            replicas: 3,
        }
    }

    /// Nodes and entries are each there once, in order, and regions are grown to at least one
    /// voter.
    pub open spec fn wf(self) -> bool {
        &&& self.members.wf()
        &&& entries_ok(self.region_members)
        &&& self.replicas >= 1
    }

    /// The set that founds a region now: the first live nodes.
    pub open spec fn founding(self) -> Seq<u64> {
        first(cluster::live(self.members.nodes), self.replicas as nat)
    }

    /// Every region with no members given its founding set; unchanged while no node is live.
    pub open spec fn found(self) -> FsmView {
        if cluster::live(self.members.nodes).len() == 0 {
            self
        } else {
            FsmView {
                region_members: founded(self.region_members, self.regions.regions, self.founding()),
                ..self
            }
        }
    }

    /// Whether that changes anything.
    pub open spec fn finds(self) -> bool {
        cluster::live(self.members.nodes).len() > 0 && founds(
            self.region_members,
            self.regions.regions,
            self.founding(),
        )
    }

    /// One committed table declaration.
    pub open spec fn declare(self, name: Seq<char>, regime: Regime) -> FsmView {
        if name.len() == 0 || name == DEFAULT_TABLE_NAME@ || table_named(self.catalog, name, 0)
            < self.catalog.len() || self.next_table_id == u32::MAX {
            self
        } else {
            FsmView {
                next_table_id: (self.next_table_id + 1) as u32,
                catalog: self.catalog.push(TableView { id: self.next_table_id, name, regime }),
                regions: self.regions.split(bytes::be32(self.next_table_id)).0,
                version: next_version(self.version),
                ..self
            }
        }
    }

    /// One committed heartbeat.
    pub open spec fn heartbeat(
        self,
        node: u64,
        address: Seq<char>,
        reported: Seq<ReplicaSetView>,
        now: u64,
    ) -> FsmView {
        let is_new = cluster::node_at(self.members.nodes, node) is None;
        let grown = adopts(self.region_members, self.regions.regions, node, reported);
        let a = FsmView {
            region_members: adopted(
                self.region_members,
                self.regions.regions,
                node,
                reported,
            ),
            members: self.members.heartbeat(node, address, reported, Seq::empty(), now),
            ..self
        };
        let b = a.found();
        if is_new || grown || a.finds() {
            FsmView { version: next_version(b.version), ..b }
        } else {
            b
        }
    }

    /// One committed command.
    pub open spec fn apply(self, c: Option<CmdView>) -> FsmView {
        match c {
            None => self,
            Some(CmdView::ReserveTs { upper }) => FsmView {
                tso_upper: larger(self.tso_upper, upper),
                ..self
            },
            Some(CmdView::Heartbeat { node_id, address, regions, now }) => self.heartbeat(
                node_id,
                address,
                regions,
                now,
            ),
            Some(CmdView::DeclareTable { name, regime }) => self.declare(name, regime).found(),
        }
    }

    /// A key's regime: that of the table that its prefix names, strong where there is none.
    pub open spec fn regime_for(self, key: Seq<u8>) -> Regime {
        let i = table_with(self.catalog, region::table_of(key), 0);
        if i < self.catalog.len() {
            self.catalog[i].regime
        } else {
            Regime::Cp
        }
    }

    /// What a region is assigned: its regime, its voters, and those that it is grown toward.
    pub open spec fn assigned(self, r: RegionView) -> ReplicaSetView {
        let voters = voters_of(self.region_members, r.id);
        ReplicaSetView {
            region: r,
            regime: self.regime_for(r.start),
            voters,
            desired: wanted(
                voters,
                cluster::live(self.members.nodes),
                self.replicas as nat,
            ),
        }
    }

    /// The whole assignment.
    pub open spec fn assignment(self) -> Seq<ReplicaSetView> {
        Seq::new(self.regions.regions.len(), |i: int| self.assigned(self.regions.regions[i]))
    }

    /// What a node is sent.
    pub open spec fn assignment_for(self, node: u64) -> Seq<ReplicaSetView> {
        if self.version == 0 {
            owned_by(self.members.list(), node)
        } else {
            concerning(self.assignment(), node)
        }
    }

    /// The catalog part of a snapshot in bytes.
    pub open spec fn catalog_bytes(self) -> Seq<u8> {
        bytes::be64(self.version) + bytes::be32(self.next_table_id) + codec::counted_bytes(
            table_writer(),
            self.catalog,
        ) + codec::counted_bytes(entry_writer(), self.region_members)
    }

    /// The whole applied state in bytes.
    pub open spec fn bytes(self) -> Seq<u8> {
        bytes::be64(self.tso_upper) + self.members.bytes() + self.catalog_bytes()
            + self.regions.bytes()
    }

    /// The state after a snapshot is adopted. Watermarks never go down.
    pub open spec fn adopt(self, i: Image) -> FsmView {
        FsmView {
            members: MembershipView { nodes: i.nodes, ..self.members },
            tso_upper: larger(self.tso_upper, i.upper),
            regions: i.regions,
            catalog: i.catalog,
            next_table_id: if i.next_table_id > self.next_table_id {
                i.next_table_id
            } else {
                self.next_table_id
            },
            version: larger(self.version, i.version),
            region_members: i.region_members,
            ..self
        }
    }

    /// The state after a snapshot; unchanged where it cannot be read.
    pub open spec fn restore(self, b: Seq<u8>) -> FsmView {
        match image_of(b) {
            Some(i) => self.adopt(i),
            None => self,
        }
    }
}

/// The regions of a node, out of a list of placed ones.
pub open spec fn owned_by(s: Seq<PlacedView>, node: u64) -> Seq<ReplicaSetView>
    decreases s.len(),
{
    if s.len() == 0 {
        Seq::empty()
    } else {
        let t = owned_by(s.drop_last(), node);
        let p = s.last();
        if p.node_id == node {
            t.push(
                ReplicaSetView {
                    region: p.region,
                    regime: p.regime,
                    voters: p.voters,
                    desired: Seq::empty(),
                },
            )
        } else {
            t
        }
    }
}

/// The replica sets that a node votes in, or is wanted in.
pub open spec fn concerning(s: Seq<ReplicaSetView>, node: u64) -> Seq<ReplicaSetView>
    decreases s.len(),
{
    if s.len() == 0 {
        Seq::empty()
    } else {
        let t = concerning(s.drop_last(), node);
        if s.last().voters.contains(node) || s.last().desired.contains(node) {
            t.push(s.last())
        } else {
            t
        }
    }
}

/// The placement driver's replicated state machine.
pub struct PdFsm {
    members: Membership,
    tso_upper: u64,
    regions: RegionRegistry,
    catalog: Vec<Table>,
    next_table_id: TableId,
    version: u64,
    region_members: Vec<Entry>,
    replicas: usize,
}

impl View for PdFsm {
    type V = FsmView;

    closed spec fn view(&self) -> FsmView {
        FsmView {
            members: self.members@,
            tso_upper: self.tso_upper,
            regions: self.regions@,
            catalog: order::views(self.catalog@),
            next_table_id: self.next_table_id,
            version: self.version,
            region_members: order::views(self.region_members@),
            replicas: self.replicas,
        }
    }
}

fn contains_id(s: &Vec<u64>, id: u64) -> (r: bool)
    ensures
        r == s@.contains(id),
{
    crate::raft::members::has_id(s, id)
}

fn find_entry(s: &Vec<Entry>, id: u64) -> (r: usize)
    ensures
        r == place(order::views(s@), id, 0),
        r <= s@.len(),
{
    let mut i: usize = 0;
    while i < s.len() && s[i].region < id
        invariant
            0 <= i <= s@.len(),
            place(order::views(s@), id, 0) == place(order::views(s@), id, i as int),
        decreases s@.len() - i,
    {
        i = i + 1;
    }
    i
}

fn entry_voters(s: &Vec<Entry>, id: u64) -> (r: Vec<u64>)
    ensures
        r@ == voters_of(order::views(s@), id),
{
    let i: usize = find_entry(s, id);
    if i < s.len() && s[i].region == id {
        s[i].voters.clone()
    } else {
        let none: Vec<u64> = Vec::new();
        assert(none@ =~= Seq::<u64>::empty());
        none
    }
}

fn set_voters(s: &mut Vec<Entry>, id: u64, voters: Vec<u64>)
    ensures
        order::views(final(s)@) == with_voters(order::views(old(s)@), id, voters@),
{
    let ghost before = order::views(s@);
    let ghost vv = voters@;
    let i: usize = find_entry(s, id);
    if i < s.len() && s[i].region == id {
        s.set(i, Entry { region: id, voters });
        assert(order::views(s@) =~= with_voters(before, id, vv));
    } else {
        s.insert(i, Entry { region: id, voters });
        assert(order::views(s@) =~= with_voters(before, id, vv));
    }
}

fn is_all_in(a: &Vec<u64>, b: &Vec<u64>) -> (r: bool)
    ensures
        r == all_in(a@, b@),
{
    let mut i: usize = 0;
    while i < a.len()
        invariant
            0 <= i <= a@.len(),
            forall|j: int| 0 <= j < i ==> b@.contains(#[trigger] a@[j]),
        decreases a@.len() - i,
    {
        if !contains_id(b, a[i]) {
            assert(!b@.contains(a@[i as int]));
            return false;
        }
        i = i + 1;
    }
    true
}

impl PdFsm {
    /// A new state machine: one region over the whole keyspace, which is the default table's.
    pub fn new() -> (f: PdFsm)
        ensures
            f@ == FsmView::fresh(),
            f@.wf(),
    {
        let mut catalog: Vec<Table> = Vec::new();
        catalog.push(
            Table {
                id: DEFAULT_TABLE_ID,
                name: text::owned(DEFAULT_TABLE_NAME),
                regime: Regime::Cp,
            },
        );
        let f = PdFsm {
            members: Membership::new(),
            tso_upper: 0,
            regions: RegionRegistry::in_memory(),
            catalog,
            next_table_id: DEFAULT_TABLE_ID + 1,
            version: 1,
            region_members: Vec::new(),
            replicas: DEFAULT_REPLICAS,
        };
        assert(f@ =~= FsmView::fresh());
        f
    }

    /// Set the replication target. At least 1.
    pub fn set_replicas(&mut self, n: usize)
        ensures
            final(self)@ == (FsmView {
                replicas: if n == 0 {
                    1
                } else {
                    n
                },
                ..old(self)@
            }),
            old(self)@.wf() ==> final(self)@.wf(),
    {
        self.replicas = if n == 0 {
            1
        } else {
            n
        };
    }

    /// The replication target that every region is grown to.
    pub fn replicas(&self) -> (r: usize)
        ensures
            r == self@.replicas,
    {
        self.replicas
    }

    /// Apply one committed command. Deterministic given the state and the bytes, so replicas that
    /// apply the same log converge. A malformed or empty payload is ignored.
    pub fn apply(&mut self, bytes: &[u8])
        requires
            old(self)@.wf(),
        ensures
            final(self)@ == old(self)@.apply(command::cmd_of(bytes@)),
            final(self)@.wf(),
    {
        let ghost before = self@;
        match PdCmd::decode(bytes) {
            None => {},
            Some(PdCmd::ReserveTs { upper }) => {
                if upper > self.tso_upper {
                    self.tso_upper = upper;
                }
                assert(self@ =~= before.apply(command::cmd_of(bytes@)));
            },
            Some(PdCmd::Heartbeat { node_id, address, regions, now }) => {
                self.apply_heartbeat(node_id, address, regions, now);
            },
            Some(PdCmd::DeclareTable { name, regime }) => {
                self.declare_table(name, regime);
                let _ = self.found_unfounded_regions();
            },
        }
    }

    fn apply_heartbeat(
        &mut self,
        node_id: u64,
        address: String,
        regions: Vec<ReplicaSet>,
        now: u64,
    )
        requires
            old(self)@.wf(),
        ensures
            final(self)@ == old(self)@.heartbeat(
                node_id,
                address@,
                order::views(regions@),
                now,
            ),
            final(self)@.wf(),
    {
        let ghost before = self@;
        let ghost rv = order::views(regions@);
        let is_new: bool = !self.members.knows(node_id);
        let grown: bool = self.adopt_grown_voters(node_id, &regions);
        let none: Vec<(String, Regime)> = Vec::new();
        assert(cluster::decl_views(none@) =~= Seq::<(Seq<char>, Regime)>::empty());
        let _ = self.members.heartbeat(node_id, address, regions, none, now);
        let ghost a = FsmView {
            region_members: adopted(before.region_members, before.regions.regions, node_id, rv),
            members: before.members.heartbeat(node_id, address@, rv, Seq::empty(), now),
            ..before
        };
        assert(self@ =~= a);
        let founded: bool = self.found_unfounded_regions();
        if is_new || grown || founded {
            self.bump();
        }
    }

    /// A new assignment.
    fn bump(&mut self)
        ensures
            final(self)@ == (FsmView { version: next_version(old(self)@.version), ..old(self)@ }),
    {
        self.version = if self.version == u64::MAX {
            0
        } else {
            self.version + 1
        };
    }

    /// Give every region with no members its founding set: the first live nodes, in order of
    /// their ids. On a fresh cluster the first node to register is the only live one, so it
    /// founds the default region **alone**, and the region grows as more nodes register. Returns
    /// whether anything was founded.
    fn found_unfounded_regions(&mut self) -> (r: bool)
        requires
            old(self)@.wf(),
        ensures
            r == old(self)@.finds(),
            final(self)@ == old(self)@.found(),
            final(self)@.wf(),
    {
        let ghost before = self@;
        let live = self.members.live_nodes();
        if live.len() == 0 {
            return false;
        }
        let n: usize = if live.len() <= self.replicas {
            live.len()
        } else {
            self.replicas
        };
        let mut founding: Vec<u64> = Vec::new();
        let mut k: usize = 0;
        while k < n
            invariant
                0 <= k <= n <= live@.len(),
                founding@ == live@.take(k as int),
            decreases n - k,
        {
            founding.push(live[k]);
            assert(founding@ =~= live@.take(k + 1));
            k = k + 1;
        }
        assert(founding@ =~= before.founding());
        let regions = self.regions.list();
        let ghost all = order::views(regions@);
        let mut any: bool = false;
        let mut i: usize = 0;
        assert(all.take(0) =~= Seq::<RegionView>::empty());
        while i < regions.len()
            invariant
                0 <= i <= regions@.len(),
                all == order::views(regions@),
                founding@ == before.founding(),
                before.wf(),
                entries_ok(order::views(self.region_members@)),
                self@ == (FsmView {
                    region_members: founded(
                        before.region_members,
                        all.take(i as int),
                        founding@,
                    ),
                    ..before
                }),
                any == founds(before.region_members, all.take(i as int), founding@),
            decreases regions@.len() - i,
        {
            proof {
                assert(all.take(i + 1).drop_last() =~= all.take(i as int));
                assert(all.take(i + 1).last() == regions@[i as int]@);
            }
            let id: u64 = regions[i].id;
            let current = entry_voters(&self.region_members, id);
            if current.len() == 0 {
                proof {
                    lemma_with_voters(self@.region_members, id, founding@);
                }
                set_voters(&mut self.region_members, id, founding.clone());
                any = true;
            }
            i = i + 1;
        }
        assert(all.take(i as int) =~= all);
        any
    }

    /// Adopt a larger voter set that a node reports for a region that it leads.
    ///
    /// Only **growth** is taken: the report must hold every current member and at least one more.
    /// A report that drops one is a stale view and is ignored. Returns whether anything grew.
    fn adopt_grown_voters(&mut self, node_id: u64, reported: &Vec<ReplicaSet>) -> (r: bool)
        requires
            old(self)@.wf(),
        ensures
            r == adopts(
                old(self)@.region_members,
                old(self)@.regions.regions,
                node_id,
                order::views(reported@),
            ),
            final(self)@ == (FsmView {
                region_members: adopted(
                    old(self)@.region_members,
                    old(self)@.regions.regions,
                    node_id,
                    order::views(reported@),
                ),
                ..old(self)@
            }),
            final(self)@.wf(),
    {
        let ghost before = self@;
        let ghost all = order::views(reported@);
        let ghost regions = before.regions.regions;
        let mut grown: bool = false;
        let mut i: usize = 0;
        assert(all.take(0) =~= Seq::<ReplicaSetView>::empty());
        while i < reported.len()
            invariant
                0 <= i <= reported@.len(),
                all == order::views(reported@),
                regions == before.regions.regions,
                before.wf(),
                entries_ok(order::views(self.region_members@)),
                self@ == (FsmView {
                    region_members: adopted(
                        before.region_members,
                        regions,
                        node_id,
                        all.take(i as int),
                    ),
                    ..before
                }),
                grown == adopts(before.region_members, regions, node_id, all.take(i as int)),
            decreases reported@.len() - i,
        {
            proof {
                assert(all.take(i + 1).drop_last() =~= all.take(i as int));
                assert(all.take(i + 1).last() == reported@[i as int]@);
            }
            let id: u64 = reported[i].region.id;
            let known: bool = self.regions.by_id(id).is_some();
            proof {
                region::lemma_with_id(regions, id, 0);
            }
            if contains_id(&reported[i].voters, node_id) && known {
                let current = entry_voters(&self.region_members, id);
                if reported[i].voters.len() > current.len() && is_all_in(
                    &current,
                    &reported[i].voters,
                ) {
                    let sorted = order::sort_numbers(&reported[i].voters);
                    proof {
                        lemma_with_voters(self@.region_members, id, sorted@);
                    }
                    set_voters(&mut self.region_members, id, sorted);
                    grown = true;
                } else {
                    proof {
                        lemma_with_voters(self@.region_members, id, current@);
                    }
                    set_voters(&mut self.region_members, id, current);
                }
            }
            i = i + 1;
        }
        assert(all.take(i as int) =~= all);
        grown
    }

    /// The voter set that is wanted for a region: its members, plus live nodes that are not yet
    /// among them, in order of their ids, until there are enough. Never smaller than the members.
    fn desired(&self, members: &Vec<u64>, live: &Vec<u64>) -> (r: Vec<u64>)
        ensures
            r@ == wanted(members@, live@, self@.replicas as nat),
    {
        let mut out: Vec<u64> = members.clone();
        let mut i: usize = 0;
        assert(live@.take(0) =~= Seq::<u64>::empty());
        while i < live.len()
            invariant
                0 <= i <= live@.len(),
                out@ == wanted(members@, live@.take(i as int), self@.replicas as nat),
            decreases live@.len() - i,
        {
            assert(live@.take(i + 1).drop_last() =~= live@.take(i as int));
            if out.len() < self.replicas && !contains_id(&out, live[i]) {
                out.push(live[i]);
            }
            i = i + 1;
        }
        assert(live@.take(i as int) =~= live@);
        out
    }

    /// The position of a table by name.
    fn find_table(&self, name: &str) -> (r: usize)
        ensures
            r == table_named(self@.catalog, name@, 0),
            r <= self@.catalog.len(),
    {
        let mut i: usize = 0;
        while i < self.catalog.len()
            invariant
                0 <= i <= self.catalog@.len(),
                table_named(self@.catalog, name@, 0) == table_named(
                    self@.catalog,
                    name@,
                    i as int,
                ),
            decreases self.catalog@.len() - i,
        {
            if text::str_eq(self.catalog[i].name.as_str(), name) {
                return i;
            }
            i = i + 1;
        }
        i
    }

    /// Allocate the table an id and carve its range out of the region table. Deterministic and
    /// idempotent. The name is checked before the allocation, so that a replayed entry cannot
    /// burn an id.
    ///
    /// **One split, and the carved range is empty by construction.** Ids are handed out in order,
    /// so the new table's range sits above every id ever issued, inside the region that runs to
    /// the end of the keyspace.
    fn declare_table(&mut self, name: String, regime: Regime)
        requires
            old(self)@.wf(),
        ensures
            final(self)@ == old(self)@.declare(name@, regime),
            final(self)@.wf(),
    {
        let ghost before = self@;
        if text::str_eq(name.as_str(), "") || text::str_eq(name.as_str(), DEFAULT_TABLE_NAME) {
            proof {
                reveal_strlit("");
                assert(name@.len() == 0 || name@ == DEFAULT_TABLE_NAME@);
            }
            return ;
        }
        proof {
            reveal_strlit("");
            if name@.len() == 0 {
                assert(name@ =~= ""@);
            }
        }
        if self.find_table(name.as_str()) < self.catalog.len() {
            return ;
        }
        let id: TableId = self.next_table_id;
        if id == TableId::MAX {
            return ;
        }
        self.next_table_id = id + 1;
        let t = Table { id, name, regime };
        let ghost tv = t@;
        self.catalog.push(t);
        assert(self@.catalog =~= before.catalog.push(tv));
        let prefix = region::table_prefix(id);
        let _ = self.regions.split(prefix.as_slice());
        self.bump();
        assert(self@ =~= before.declare(tv.name, regime));
    }

    /// The catalog version: bumped whenever an assignment changes.
    pub fn catalog_version(&self) -> (r: u64)
        ensures
            r == self@.version,
    {
        self.version
    }

    /// The authoritative region table, each region with its regime, its actual voters, and the
    /// voters that it is grown toward. This is what a node reconciles against.
    pub fn assignment(&self) -> (r: Vec<ReplicaSet>)
        ensures
            order::views(r@) == self@.assignment(),
    {
        let live = self.members.live_nodes();
        let regions = self.regions.list();
        let ghost all = self@.regions.regions;
        let mut out: Vec<ReplicaSet> = Vec::new();
        let mut i: usize = 0;
        while i < regions.len()
            invariant
                0 <= i <= regions@.len(),
                all == self@.regions.regions,
                order::views(regions@) == all,
                live@ == cluster::live(self@.members.nodes),
                out@.len() == i,
                forall|j: int| 0 <= j < i ==> (#[trigger] out@[j])@ == self@.assigned(all[j]),
            decreases regions@.len() - i,
        {
            assert(regions@[i as int]@ == all[i as int]);
            let voters = entry_voters(&self.region_members, regions[i].id);
            let desired = self.desired(&voters, &live);
            let regime = self.regime_for(regions[i].start.as_slice());
            out.push(ReplicaSet { region: regions[i].dup(), regime, voters, desired });
            i = i + 1;
        }
        assert(order::views(out@) =~= self@.assignment());
        out
    }

    /// A key's regime, read off the table id that its prefix carries. An id with no catalog entry
    /// is strong by default.
    pub fn regime_for(&self, key: &[u8]) -> (r: Regime)
        ensures
            r == self@.regime_for(key@),
    {
        let id: TableId = region::table_id_of(key);
        let mut i: usize = 0;
        while i < self.catalog.len()
            invariant
                0 <= i <= self.catalog@.len(),
                table_with(self@.catalog, id, 0) == table_with(self@.catalog, id, i as int),
                id == region::table_of(key@),
            decreases self.catalog@.len() - i,
        {
            if self.catalog[i].id == id {
                return self.catalog[i].regime;
            }
            i = i + 1;
        }
        Regime::Cp
    }

    /// The tables, sorted by name. Always includes the default one.
    pub fn catalog(&self) -> (r: Vec<Table>)
        ensures
            order::views(r@) == order::sorted(order::key_of::<Table>(), self@.catalog),
    {
        let mut out: Vec<Table> = Vec::new();
        let mut i: usize = 0;
        while i < self.catalog.len()
            invariant
                0 <= i <= self.catalog@.len(),
                out@.len() == i,
                forall|j: int| 0 <= j < i ==> (#[trigger] out@[j])@ == self.catalog@[j]@,
            decreases self.catalog@.len() - i,
        {
            out.push(self.catalog[i].dup());
            i = i + 1;
        }
        assert(order::views(out@) =~= self@.catalog);
        order::sort(out)
    }

    /// The id allocated to a name, if it is declared. An empty name stands for the default table.
    pub fn table_id(&self, name: &str) -> (r: Option<TableId>)
        ensures
            ({
                let n = if name@.len() == 0 {
                    DEFAULT_TABLE_NAME@
                } else {
                    name@
                };
                let i = table_named(self@.catalog, n, 0);
                if i < self@.catalog.len() {
                    r == Some(self@.catalog[i].id)
                } else {
                    r is None
                }
            }),
    {
        proof {
            reveal_strlit("");
            if name@.len() == 0 {
                assert(name@ =~= ""@);
            }
        }
        let i: usize = if text::str_eq(name, "") {
            self.find_table(DEFAULT_TABLE_NAME)
        } else {
            self.find_table(name)
        };
        if i < self.catalog.len() {
            Some(self.catalog[i].id)
        } else {
            None
        }
    }

    /// The next id that would be handed out.
    pub fn next_table_id(&self) -> (r: TableId)
        ensures
            r == self@.next_table_id,
    {
        self.next_table_id
    }

    /// The committed timestamp high-water: an upper bound on every timestamp handed out so far.
    pub fn tso_upper(&self) -> (r: u64)
        ensures
            r == self@.tso_upper,
    {
        self.tso_upper
    }

    /// Every known node and where to reach it.
    pub fn node_addrs(&self) -> (r: Vec<(u64, String)>)
        ensures
            cluster::address_views(r@) == cluster::addresses(self@.members.nodes),
    {
        self.members.node_addrs()
    }

    /// The region table.
    pub fn regions(&self) -> (r: &RegionRegistry)
        ensures
            r@ == self@.regions,
    {
        &self.regions
    }

    /// Route a key to the region and node that own it.
    pub fn route(&self, key: &[u8]) -> (r: Option<PlacedRegion>)
        ensures
            cluster::opt_placed(r) == cluster::routed(self@.members.nodes, key@, 0),
    {
        self.members.route(key)
    }

    /// The whole placed-region view.
    pub fn list(&self) -> (r: Vec<PlacedRegion>)
        ensures
            order::views(r@) == self@.members.list(),
    {
        self.members.list()
    }

    /// What a node should be hosting: every region that it is a voter of, or is wanted in. Before
    /// there is a catalog (version 0), what the node itself reported.
    pub fn assignment_for(&self, node_id: u64) -> (r: Vec<ReplicaSet>)
        ensures
            order::views(r@) == self@.assignment_for(node_id),
    {
        if self.version == 0 {
            return self.regions_of(node_id);
        }
        let sets = self.assignment();
        let ghost all = order::views(sets@);
        let mut out: Vec<ReplicaSet> = Vec::new();
        let mut i: usize = 0;
        assert(all.take(0) =~= Seq::<ReplicaSetView>::empty());
        assert(order::views(out@) =~= Seq::<ReplicaSetView>::empty());
        while i < sets.len()
            invariant
                0 <= i <= sets@.len(),
                all == order::views(sets@),
                order::views(out@) == concerning(all.take(i as int), node_id),
            decreases sets@.len() - i,
        {
            proof {
                assert(all.take(i + 1).drop_last() =~= all.take(i as int));
                assert(all.take(i + 1).last() == sets@[i as int]@);
            }
            if contains_id(&sets[i].voters, node_id) || contains_id(&sets[i].desired, node_id) {
                let ghost before = order::views(out@);
                let rs = sets[i].dup();
                let ghost rv = rs@;
                out.push(rs);
                assert(order::views(out@) =~= before.push(rv));
            }
            i = i + 1;
        }
        assert(all.take(i as int) =~= all);
        out
    }

    /// The regions that a node reported.
    pub fn regions_of(&self, node_id: u64) -> (r: Vec<ReplicaSet>)
        ensures
            order::views(r@) == owned_by(self@.members.list(), node_id),
    {
        let placed = self.members.list();
        let ghost all = order::views(placed@);
        let mut out: Vec<ReplicaSet> = Vec::new();
        let mut i: usize = 0;
        assert(all.take(0) =~= Seq::<PlacedView>::empty());
        assert(order::views(out@) =~= Seq::<ReplicaSetView>::empty());
        while i < placed.len()
            invariant
                0 <= i <= placed@.len(),
                all == order::views(placed@),
                order::views(out@) == owned_by(all.take(i as int), node_id),
            decreases placed@.len() - i,
        {
            proof {
                assert(all.take(i + 1).drop_last() =~= all.take(i as int));
                assert(all.take(i + 1).last() == placed@[i as int]@);
            }
            if placed[i].node_id == node_id {
                let ghost before = order::views(out@);
                let rs = ReplicaSet {
                    region: placed[i].region.dup(),
                    regime: placed[i].regime,
                    voters: placed[i].voters.clone(),
                    desired: Vec::new(),
                };
                let ghost rv = rs@;
                assert(rv.desired =~= Seq::<u64>::empty());
                out.push(rs);
                assert(order::views(out@) =~= before.push(rv));
            }
            i = i + 1;
        }
        assert(all.take(i as int) =~= all);
        out
    }

    /// The underlying membership registry.
    pub fn members(&self) -> (r: &Membership)
        ensures
            r@ == self@.members,
    {
        &self.members
    }

    /// The failure detector's sweep, on this replica's view.
    pub fn sweep(&mut self, now: u64, timeout_ms: u64) -> (r: Vec<u64>)
        requires
            old(self)@.wf(),
        ensures
            r@ == cluster::downed(old(self)@.members.nodes, now, timeout_ms),
            final(self)@ == (FsmView {
                members: MembershipView {
                    nodes: cluster::swept(old(self)@.members.nodes, now, timeout_ms),
                    ..old(self)@.members
                },
                ..old(self)@
            }),
            final(self)@.wf(),
    {
        self.members.sweep(now, timeout_ms)
    }
}

impl Default for PdFsm {
    fn default() -> (f: Self)
        ensures
            f@ == FsmView::fresh(),
    {
        PdFsm::new()
    }
}

/// Where an entry stands among entries in order.
pub proof fn lemma_place(s: Seq<EntryView>, id: u64, i: int)
    requires
        0 <= i <= s.len(),
        forall|j: int| 0 <= j < i ==> (#[trigger] s[j]).region < id,
    ensures
        i <= place(s, id, i) <= s.len(),
        forall|j: int| 0 <= j < place(s, id, i) ==> (#[trigger] s[j]).region < id,
        place(s, id, i) < s.len() ==> s[place(s, id, i)].region >= id,
    decreases s.len() - i,
{
    if i < s.len() && s[i].region < id {
        lemma_place(s, id, i + 1);
    }
}

/// An entry is found where it stands.
pub proof fn lemma_entry_found(s: Seq<EntryView>, i: int)
    requires
        entries_ok(s),
        0 <= i < s.len(),
    ensures
        place(s, s[i].region, 0) == i,
        has_entry(s, s[i].region),
        voters_of(s, s[i].region) == s[i].voters,
{
    let p = place(s, s[i].region, 0);
    lemma_place(s, s[i].region, 0);
    if p < i {
        assert(s[p].region < s[i].region);
    }
    if i < p {
        assert(s[i].region < s[i].region);
    }
}

/// Setting a region's voters sets those, and leaves every other region's.
pub proof fn lemma_with_voters(s: Seq<EntryView>, id: u64, voters: Seq<u64>)
    requires
        entries_ok(s),
    ensures
        entries_ok(with_voters(s, id, voters)),
        voters_of(with_voters(s, id, voters), id) == voters,
        has_entry(with_voters(s, id, voters), id),
        forall|other: u64|
            other != id ==> #[trigger] voters_of(with_voters(s, id, voters), other) == voters_of(
                s,
                other,
            ),
{
    let i = place(s, id, 0);
    lemma_place(s, id, 0);
    let t = with_voters(s, id, voters);
    assert forall|a: int, b: int| #![trigger t[a], t[b]] 0 <= a < b < t.len() implies t[a].region
        < t[b].region by {
        if has_entry(s, id) {
            assert(s[a].region < s[b].region);
        } else {
            if a != i && b != i {
                let x = if a < i {
                    a
                } else {
                    a - 1
                };
                let y = if b < i {
                    b
                } else {
                    b - 1
                };
                assert(s[x].region < s[y].region);
            } else if a == i {
                if i < b - 1 {
                    assert(s[i].region < s[b - 1].region);
                }
                assert(t[b] == s[b - 1]);
            }
        }
    }
    assert(t[i] == EntryView { region: id, voters });
    lemma_entry_found(t, i);
    assert forall|other: u64| other != id implies #[trigger] voters_of(t, other) == voters_of(
        s,
        other,
    ) by {
        lemma_place(s, other, 0);
        lemma_place(t, other, 0);
        let p = place(s, other, 0);
        let q = place(t, other, 0);
        if has_entry(s, other) {
            let x = if has_entry(s, id) || p < i {
                p
            } else {
                p + 1
            };
            assert(t[x] == s[p]);
            lemma_entry_found(t, x);
        } else if has_entry(t, other) {
            assert(q != i);
            let x = if has_entry(s, id) || q < i {
                q
            } else {
                q - 1
            };
            assert(s[x] == t[q]);
            lemma_entry_found(s, x);
        }
    }
}

/// Read a counted list of tables.
fn get_tables(buf: &[u8], pos: usize) -> (r: Option<(Vec<Table>, usize)>)
    ensures
        match codec::counted_from(table_parser(), buf@, pos as int) {
            Some((x, end)) => r matches Some((y, p)) && order::views(y@) == x && p == end,
            None => r is None,
        },
{
    let (n, start) = match codec::get_u32(buf, pos) {
        Some(x) => x,
        None => {
            return None;
        },
    };
    let ghost f = table_parser();
    let mut out: Vec<Table> = Vec::new();
    let mut q: usize = start;
    let mut i: u32 = 0;
    assert(order::views(out@) =~= Seq::<TableView>::empty());
    while i < n
        invariant
            0 <= i <= n,
            f == table_parser(),
            codec::u32_from(buf@, pos as int) == Some((n, start as int)),
            codec::list_from(f, buf@, start as int, i as nat) == Some(
                (order::views(out@), q as int),
            ),
        decreases n - i,
    {
        let ghost before = order::views(out@);
        let mut got: Option<(Table, usize)> = None;
        match codec::get_text(buf, q) {
            Some((name, p)) => match cluster::get_regime(buf, p) {
                Some((regime, p)) => match codec::get_u32(buf, p) {
                    Some((id, e)) => {
                        got = Some((Table { id, name, regime }, e));
                    },
                    None => {},
                },
                None => {},
            },
            None => {},
        }
        match got {
            Some((x, end)) => {
                let ghost xv = x@;
                out.push(x);
                q = end;
                assert(order::views(out@) =~= before.push(xv));
            },
            None => {
                proof {
                    assert(codec::list_from(f, buf@, start as int, (i + 1) as nat) is None);
                    codec::lemma_list_none(f, buf@, start as int, (i + 1) as nat, n as nat);
                }
                return None;
            },
        }
        i = i + 1;
    }
    Some((out, q))
}

/// Read a counted list of regions' voters, each put in its place.
fn get_entries(buf: &[u8], pos: usize) -> (r: Option<(Vec<Entry>, usize)>)
    ensures
        match codec::counted_from(entry_parser(), buf@, pos as int) {
            Some((x, end)) => r matches Some((y, p)) && order::views(y@) == with_all(
                Seq::empty(),
                x,
            ) && entries_ok(order::views(y@)) && p == end,
            None => r is None,
        },
{
    let (n, start) = match codec::get_u32(buf, pos) {
        Some(x) => x,
        None => {
            return None;
        },
    };
    let ghost f = entry_parser();
    let mut out: Vec<Entry> = Vec::new();
    let ghost mut all: Seq<EntryView> = Seq::empty();
    let mut q: usize = start;
    let mut i: u32 = 0;
    assert(order::views(out@) =~= Seq::<EntryView>::empty());
    while i < n
        invariant
            0 <= i <= n,
            f == entry_parser(),
            codec::u32_from(buf@, pos as int) == Some((n, start as int)),
            codec::list_from(f, buf@, start as int, i as nat) == Some((all, q as int)),
            order::views(out@) == with_all(Seq::empty(), all),
            entries_ok(order::views(out@)),
        decreases n - i,
    {
        let mut got: Option<((u64, Vec<u64>), usize)> = None;
        match codec::get_u64(buf, q) {
            Some((id, p)) => match codec::get_u64s(buf, p) {
                Some((voters, e)) => {
                    got = Some(((id, voters), e));
                },
                None => {},
            },
            None => {},
        }
        match got {
            Some(((id, voters), end)) => {
                proof {
                    let x = EntryView { region: id, voters: voters@ };
                    assert(all.push(x).drop_last() =~= all);
                    lemma_with_voters(order::views(out@), id, voters@);
                    all = all.push(x);
                }
                set_voters(&mut out, id, voters);
                q = end;
            },
            None => {
                proof {
                    assert(codec::list_from(f, buf@, start as int, (i + 1) as nat) is None);
                    codec::lemma_list_none(f, buf@, start as int, (i + 1) as nat, n as nat);
                }
                return None;
            },
        }
        i = i + 1;
    }
    Some((out, q))
}

impl PdFsm {
    /// The whole applied state in bytes, for a snapshot at the compaction point.
    ///
    /// The watermark **must** be exact: it is what stops a new leader from reissuing a timestamp.
    /// The region table, catalog, version and voters are not rebuilt by any heartbeat, so a
    /// snapshot without them would lose the cluster's tables.
    pub fn snapshot(&self) -> (r: Vec<u8>)
        ensures
            r@ == self@.bytes(),
    {
        let mut out: Vec<u8> = Vec::new();
        bytes::put_u64(&mut out, self.tso_upper);
        self.members.encode_into(&mut out);
        let ghost head = out@;
        self.put_catalog(&mut out);
        self.regions.encode_into(&mut out);
        assert(out@ =~= self@.bytes());
        out
    }

    /// Append the catalog part of a snapshot.
    fn put_catalog(&self, out: &mut Vec<u8>)
        ensures
            final(out)@ == old(out)@ + self@.catalog_bytes(),
    {
        let ghost before = out@;
        let ghost tables = self@.catalog;
        let ghost entries = self@.region_members;
        bytes::put_u64(out, self.version);
        bytes::put_u32(out, self.next_table_id);
        let ghost start = out@;
        bytes::put_u32(out, encoding::low32(self.catalog.len()));
        let ghost head = out@;
        let mut i: usize = 0;
        assert(tables.take(0) =~= Seq::<TableView>::empty());
        assert(out@ =~= head + codec::list_bytes(table_writer(), tables.take(0)));
        while i < self.catalog.len()
            invariant
                0 <= i <= self.catalog@.len(),
                tables == self@.catalog,
                out@ == head + codec::list_bytes(table_writer(), tables.take(i as int)),
            decreases self.catalog@.len() - i,
        {
            proof {
                assert(tables.take(i + 1).drop_last() =~= tables.take(i as int));
                assert(tables.take(i + 1).last() == self.catalog@[i as int]@);
            }
            codec::put_text(out, self.catalog[i].name.as_str());
            out.push(self.catalog[i].regime.tag());
            bytes::put_u32(out, self.catalog[i].id);
            assert(out@ =~= head + codec::list_bytes(table_writer(), tables.take(i + 1)));
            i = i + 1;
        }
        assert(tables.take(i as int) =~= tables);
        let ghost mid = out@;
        assert(mid =~= start + codec::counted_bytes(table_writer(), tables));
        bytes::put_u32(out, encoding::low32(self.region_members.len()));
        let ghost head = out@;
        let mut i: usize = 0;
        assert(entries.take(0) =~= Seq::<EntryView>::empty());
        assert(out@ =~= head + codec::list_bytes(entry_writer(), entries.take(0)));
        while i < self.region_members.len()
            invariant
                0 <= i <= self.region_members@.len(),
                entries == self@.region_members,
                out@ == head + codec::list_bytes(entry_writer(), entries.take(i as int)),
            decreases self.region_members@.len() - i,
        {
            proof {
                assert(entries.take(i + 1).drop_last() =~= entries.take(i as int));
                assert(entries.take(i + 1).last() == self.region_members@[i as int]@);
            }
            bytes::put_u64(out, self.region_members[i].region);
            codec::put_u64s(out, self.region_members[i].voters.as_slice());
            assert(out@ =~= head + codec::list_bytes(entry_writer(), entries.take(i + 1)));
            i = i + 1;
        }
        assert(entries.take(i as int) =~= entries);
        assert(out@ =~= mid + codec::counted_bytes(entry_writer(), entries));
        assert(out@ =~= before + self@.catalog_bytes());
    }

    /// Adopt a snapshot's state, replacing what this replica had. The watermarks stay monotonic
    /// even against an older snapshot that arrives late. False, with nothing changed, where the
    /// snapshot cannot be read: it is never half-applied.
    pub fn restore(&mut self, bytes: &[u8]) -> (ok: bool)
        requires
            old(self)@.wf(),
        ensures
            ok == (image_of(bytes@) is Some),
            final(self)@ == old(self)@.restore(bytes@),
            final(self)@.wf(),
    {
        let ghost before = self@;
        let (upper, _) = match codec::get_u64(bytes, 0) {
            Some(x) => x,
            None => {
                return false;
            },
        };
        let rest = bytes::slice(bytes, 8, bytes.len());
        assert(rest@ =~= bytes@.skip(8));
        let (members, n) = match self.members.decode(rest) {
            Some(x) => x,
            None => {
                return false;
            },
        };
        proof {
            cluster::lemma_nodes_end(rest@);
        }
        let p: usize = n + 8;
        let (version, p) = match codec::get_u64(bytes, p) {
            Some(x) => x,
            None => {
                return false;
            },
        };
        let (next_table_id, p) = match codec::get_u32(bytes, p) {
            Some(x) => x,
            None => {
                return false;
            },
        };
        let (catalog, p) = match get_tables(bytes, p) {
            Some(x) => x,
            None => {
                return false;
            },
        };
        let ghost tables_end = p;
        let (entries, p) = match get_entries(bytes, p) {
            Some(x) => x,
            None => {
                return false;
            },
        };
        proof {
            lemma_entry_exact();
            codec::lemma_counted_exact(
                entry_parser(),
                bytes@,
                tables_end as int,
                bytes@.len() as int,
            );
        }
        let tail = bytes::slice(bytes, p, bytes.len());
        assert(tail@ =~= bytes@.skip(p as int));
        let regions = match RegionRegistry::decode(tail) {
            Some(x) => x,
            None => {
                return false;
            },
        };
        self.members = members;
        self.regions = regions;
        self.catalog = catalog;
        self.region_members = entries;
        if version > self.version {
            self.version = version;
        }
        if next_table_id > self.next_table_id {
            self.next_table_id = next_table_id;
        }
        if upper > self.tso_upper {
            self.tso_upper = upper;
        }
        assert(self@ =~= before.restore(bytes@));
        true
    }
}

/// A table is read back from its bytes.
pub proof fn lemma_table_codes(t: TableView, before: Seq<u8>, after: Seq<u8>)
    requires
        cluster::text_fits(t.name),
    ensures
        table_from(before + table_bytes(t) + after, before.len() as int) == Some(
            (t, (before.len() + table_bytes(t).len()) as int),
        ),
{
    let d = cluster::decl_bytes((t.name, t.regime));
    let i = bytes::be32(t.id);
    let whole = before + table_bytes(t) + after;
    cluster::lemma_decl_codes((t.name, t.regime), before, i + after);
    assert(whole =~= before + d + (i + after));
    codec::lemma_u32_codes(t.id, before + d, after);
    assert(whole =~= (before + d) + i + after);
}

/// Tables are read exactly.
pub proof fn lemma_table_exact()
    ensures
        codec::exact(table_parser()),
{
    let f = table_parser();
    let g = cluster::decl_parser();
    cluster::lemma_decl_exact();
    assert forall|b: Seq<u8>, pos: int, cut: int| 0 <= pos && 0 <= cut
        <= b.len() implies #[trigger] codec::exact_at(f, b, pos, cut) by {
        assert(codec::exact_at(g, b, pos, cut));
        if let Some((x, p)) = cluster::decl_from(b, pos) {
            codec::lemma_cut(b, p, cut);
        }
    }
}

/// An entry is read back from its bytes.
pub proof fn lemma_entry_codes(e: EntryView, before: Seq<u8>, after: Seq<u8>)
    requires
        e.voters.len() < 0x1_0000_0000,
    ensures
        entry_from(before + entry_bytes(e) + after, before.len() as int) == Some(
            (e, (before.len() + entry_bytes(e).len()) as int),
        ),
{
    let a = bytes::be64(e.region);
    let v = codec::counted_bytes(codec::u64_writer(), e.voters);
    let whole = before + entry_bytes(e) + after;
    codec::lemma_u64_codes(e.region, before, v + after);
    assert(whole =~= before + a + (v + after));
    codec::lemma_u64s_code(e.voters);
    codec::lemma_counted_codes(
        codec::u64_parser(),
        codec::u64_writer(),
        e.voters,
        before + a,
        after,
    );
    assert(whole =~= (before + a) + v + after);
}

/// Entries are read exactly.
pub proof fn lemma_entry_exact()
    ensures
        codec::exact(entry_parser()),
{
    let f = entry_parser();
    codec::lemma_u64_exact();
    assert forall|b: Seq<u8>, pos: int, cut: int| 0 <= pos && 0 <= cut
        <= b.len() implies #[trigger] codec::exact_at(f, b, pos, cut) by {
        codec::lemma_cut(b, pos, cut);
        if let Some((x, p)) = codec::u64_from(b, pos) {
            codec::lemma_counted_exact(codec::u64_parser(), b, p, cut);
        }
    }
}

} // verus!
