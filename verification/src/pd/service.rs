//! What the placement driver answers to its callers: the decisions of its two services, one over
//! an oracle and a membership of its own, one over a replicated group.
//!
//! A follower of a group answers no request itself: timestamps and placement must come from the
//! one leader, or snapshot isolation could see two timestamp streams. It refuses, and names the
//! leader's address where it knows it, so that the caller goes there.

use vstd::prelude::*;
use crate::pd::clock::{Clock, SystemClock};
use crate::pd::cluster;
use crate::pd::cluster::{Membership, MembershipView, PlacedRegion, PlacedView, Regime, ReplicaSet, ReplicaSetView, Table, TableView};
use crate::pd::convert;
use crate::pd::convert::{ListTablesResponse, TableDecl, WireRegion};
use crate::pd::group::{Command, CommandView, GroupView, PdGroup};
use crate::pd::order;
use crate::pd::region::Region;
use crate::pd::replica;
use crate::pd::tso;
use crate::pd::tso::{Grant, Tso, TsoError, TsoView};
use crate::raft::node::Role;
use crate::raft::storage::Storage;
use crate::text;

verus! {

/// Default failure-detector timeout: a node silent for longer than this is marked down.
pub const DEFAULT_FD_TIMEOUT_MS: u64 = 6_000;

/// Default sweep period of the failure detector.
pub const DEFAULT_FD_INTERVAL_MS: u64 = 1_000;

/// Why a request is refused.
#[derive(Clone, Debug, PartialEq, Eq)]
pub enum PdStatus {
    /// No timestamp could be handed out.
    Internal(TsoError),
    /// No live node owns a region that covers the key.
    NotFound,
    /// The service keeps no region table to carve.
    Unimplemented,
    /// This node does not lead; the leader's address, where one is known.
    Unavailable(Option<String>),
}

/// A [`PdStatus`] as values.
pub enum StatusView {
    Internal(TsoError),
    NotFound,
    Unimplemented,
    Unavailable(Option<Seq<char>>),
}

impl View for PdStatus {
    type V = StatusView;

    open spec fn view(&self) -> StatusView {
        match self {
            PdStatus::Internal(e) => StatusView::Internal(*e),
            PdStatus::NotFound => StatusView::NotFound,
            PdStatus::Unimplemented => StatusView::Unimplemented,
            PdStatus::Unavailable(a) => StatusView::Unavailable(
                match a {
                    Some(s) => Some(s@),
                    None => None,
                },
            ),
        }
    }
}

impl StatusView {
    /// What the caller is told.
    pub open spec fn text(self) -> Seq<char> {
        match self {
            StatusView::Internal(_) => "tso alloc failed: the range of timestamps is used up"@,
            StatusView::NotFound => "no live region covers the key"@,
            StatusView::Unimplemented =>
                "create_table needs a replicated PD (start it with `arcux-pd -n 1 -c 1` or a 3-node group); the single-process PD keeps no region table to carve"@,
            StatusView::Unavailable(Some(a)) => "not pd leader; leader at "@ + a,
            StatusView::Unavailable(None) => "not pd leader; no leader elected yet"@,
        }
    }
}

impl PdStatus {
    /// What the caller is told.
    pub fn message(&self) -> (r: String)
        ensures
            r@ == self@.text(),
    {
        match self {
            PdStatus::Internal(_) => text::owned(
                "tso alloc failed: the range of timestamps is used up",
            ),
            PdStatus::NotFound => text::owned("no live region covers the key"),
            PdStatus::Unimplemented => text::owned(
                "create_table needs a replicated PD (start it with `arcux-pd -n 1 -c 1` or a 3-node group); the single-process PD keeps no region table to carve",
            ),
            PdStatus::Unavailable(Some(a)) => {
                let mut s = text::owned("not pd leader; leader at ");
                s.push_str(a.as_str());
                s
            },
            PdStatus::Unavailable(None) => text::owned("not pd leader; no leader elected yet"),
        }
    }
}

/// The answer to a question for timestamps: `[timestamp, timestamp + count)`.
#[derive(Clone, Copy, Debug, PartialEq, Eq, Structural)]
pub struct GetTimestampResponse {
    pub timestamp: u64,
    pub count: u32,
}

/// The answer to a question for a key's region.
#[derive(Clone, Debug, PartialEq, Eq)]
pub struct GetRegionResponse {
    pub region_id: u64,
    pub start_key: Vec<u8>,
    pub end_key: Vec<u8>,
    pub epoch: u64,
    pub node_id: u64,
    pub address: String,
}

/// A [`GetRegionResponse`] as values.
#[verifier::ext_equal]
pub struct RouteView {
    pub region_id: u64,
    pub start_key: Seq<u8>,
    pub end_key: Seq<u8>,
    pub epoch: u64,
    pub node_id: u64,
    pub address: Seq<char>,
}

impl View for GetRegionResponse {
    type V = RouteView;

    open spec fn view(&self) -> RouteView {
        RouteView {
            region_id: self.region_id,
            start_key: self.start_key@,
            end_key: self.end_key@,
            epoch: self.epoch,
            node_id: self.node_id,
            address: self.address@,
        }
    }
}

/// A data node's heartbeat.
pub struct HeartbeatRequest {
    pub node_id: u64,
    pub address: String,
    pub regions: Vec<WireRegion>,
    pub tables: Vec<TableDecl>,
}

impl HeartbeatRequest {
    /// The regions that it reports.
    pub open spec fn reported(&self) -> Seq<ReplicaSetView> {
        Seq::new(
            self.regions@.len(),
            |i: int| convert::replicas_in(order::views(self.regions@)[i]),
        )
    }

    /// The tables that it declares.
    pub open spec fn declared(&self) -> Seq<(Seq<char>, Regime)> {
        Seq::new(
            self.tables@.len(),
            |i: int| (self.tables@[i].name@, convert::regime_in(self.tables@[i].regime)),
        )
    }
}

/// The answer to a heartbeat: what the node should own, and the catalog that it is to adopt where
/// the version is newer than its own.
pub struct HeartbeatResponse {
    pub regions: Vec<WireRegion>,
    pub catalog_version: u64,
    pub tables: Vec<TableDecl>,
}

/// The count of a question for timestamps: at least one.
pub open spec fn asked(count: u32) -> u32 {
    if count == 0 {
        1
    } else {
        count
    }
}

fn at_least(count: u32) -> (r: u32)
    ensures
        r == asked(count),
{
    if count == 0 {
        1
    } else {
        count
    }
}

/// The route to a placed region.
pub open spec fn route_to(p: PlacedView) -> RouteView {
    RouteView {
        region_id: p.region.id,
        start_key: p.region.start,
        end_key: p.region.end,
        epoch: p.region.epoch,
        node_id: p.node_id,
        address: p.address,
    }
}

/// The answer to a question for a key's region.
pub open spec fn route_answer(p: Option<PlacedView>) -> Result<RouteView, StatusView> {
    match p {
        Some(p) => Ok(route_to(p)),
        None => Err(StatusView::NotFound),
    }
}

/// A result as values.
pub open spec fn route_result(r: Result<GetRegionResponse, PdStatus>) -> Result<
    RouteView,
    StatusView,
> {
    match r {
        Ok(g) => Ok(g@),
        Err(e) => Err(e@),
    }
}

fn route_reply(p: Option<PlacedRegion>) -> (r: Result<GetRegionResponse, PdStatus>)
    ensures
        route_result(r) == route_answer(cluster::opt_placed(p)),
{
    match p {
        Some(p) => Ok(
            GetRegionResponse {
                region_id: p.region.id,
                start_key: p.region.start,
                end_key: p.region.end,
                epoch: p.region.epoch,
                node_id: p.node_id,
                address: p.address,
            },
        ),
        None => Err(PdStatus::NotFound),
    }
}

/// The placement driver's shared state: the timestamp oracle, and the membership and placement
/// that data nodes populate by heartbeats.
pub struct Pd<C: Clock> {
    pub tso: Tso<C>,
    pub members: Membership,
    /// A node silent for longer than this (ms) is marked down by the failure detector.
    pub fd_timeout_ms: u64,
    /// How often (ms) the failure detector sweeps.
    pub fd_interval_ms: u64,
}

impl<C: Clock> Pd<C> {
    /// Oracle and membership are in order.
    pub open spec fn wf(&self) -> bool {
        self.tso@.wf() && self.members@.wf()
    }

    /// The failure detector has its default timing.
    pub open spec fn default_timing(&self) -> bool {
        self.fd_timeout_ms == 6_000 && self.fd_interval_ms == 1_000
    }

    fn from_parts(tso: Tso<C>, members: Membership) -> (p: Pd<C>)
        ensures
            p.tso == tso,
            p.members == members,
            p.default_timing(),
    {
        Pd {
            tso,
            members,
            fd_timeout_ms: DEFAULT_FD_TIMEOUT_MS,
            fd_interval_ms: DEFAULT_FD_INTERVAL_MS,
        }
    }

    /// Another timing for the failure detector. It sweeps every millisecond at most.
    pub fn with_failure_detector(self, timeout_ms: u64, interval_ms: u64) -> (p: Pd<C>)
        ensures
            p.tso == self.tso,
            p.members == self.members,
            p.fd_timeout_ms == timeout_ms,
            p.fd_interval_ms == replica::at_least_one(interval_ms),
    {
        let every: u64 = if interval_ms == 0 {
            1
        } else {
            interval_ms
        };
        Pd {
            tso: self.tso,
            members: self.members,
            fd_timeout_ms: timeout_ms,
            fd_interval_ms: every,
        }
    }
}

impl Pd<SystemClock> {
    /// A restart-safe placement driver from what its watermark file holds. The membership starts
    /// empty and is rebuilt from heartbeats.
    pub fn open(saved: Option<&[u8]>) -> (p: Pd<SystemClock>)
        ensures
            p.tso@ == TsoView::opened(
                match saved {
                    Some(b) => Some(b@),
                    None => None,
                },
            ),
            p.members@ == (MembershipView { nodes: Seq::empty(), seed: Seq::empty() }),
            p.default_timing(),
            p.wf(),
            p.tso.ready(),
    {
        Pd::from_parts(Tso::<SystemClock>::open(saved), Membership::new())
    }

    /// A placement driver in memory, with no restart safety.
    pub fn ephemeral() -> (p: Pd<SystemClock>)
        ensures
            p.tso@ == TsoView::opened(None),
            p.members@ == (MembershipView { nodes: Seq::empty(), seed: Seq::empty() }),
            p.default_timing(),
            p.wf(),
            p.tso.ready(),
    {
        Pd::from_parts(Tso::<SystemClock>::ephemeral(), Membership::new())
    }

    /// A placement driver in memory with an initial placement of regions on nodes.
    pub fn seeded(seed: Vec<(Region, u64)>) -> (p: Pd<SystemClock>)
        ensures
            p.tso@ == TsoView::opened(None),
            p.members@ == (MembershipView {
                nodes: Seq::empty(),
                seed: cluster::seed_views(seed@),
            }),
            p.default_timing(),
            p.wf(),
            p.tso.ready(),
    {
        Pd::from_parts(Tso::<SystemClock>::ephemeral(), Membership::seeded(seed))
    }
}

/// The service over an oracle and a membership of its own.
pub struct PdApi<C: Clock> {
    pub tso: Tso<C>,
    pub members: Membership,
}

impl<C: Clock> PdApi<C> {
    /// The service over an oracle and a membership.
    pub fn new(tso: Tso<C>, members: Membership) -> (r: PdApi<C>)
        ensures
            r.tso == tso,
            r.members == members,
    {
        PdApi { tso, members }
    }

    /// What a block of `count` timestamps (at least one) at a time would be. A new watermark is to
    /// be saved before the grant is accepted.
    pub fn plan_timestamp(&self, ms: u64, count: u32) -> (r: Result<Grant, PdStatus>)
        ensures
            match self.tso@.grant(ms, asked(count) as u64) {
                Ok(g) => r == Ok::<Grant, PdStatus>(g),
                Err(e) => r matches Err(s) && s@ == StatusView::Internal(e),
            },
    {
        match self.tso.plan(ms, at_least(count) as u64) {
            Ok(g) => Ok(g),
            Err(e) => Err(PdStatus::Internal(e)),
        }
    }

    /// Hand out a planned block.
    pub fn accept_timestamp(&mut self, g: Grant, count: u32) -> (r: GetTimestampResponse)
        ensures
            r == (GetTimestampResponse { timestamp: g.first, count: asked(count) }),
            final(self).tso@ == (TsoView { next: g.next, upper: g.upper }),
            final(self).members == old(self).members,
            final(self).tso.ready() == old(self).tso.ready(),
            forall|ms: u64| #[trigger] final(self).tso.may_read(ms) == old(self).tso.may_read(ms),
    {
        let timestamp: u64 = self.tso.accept(g);
        GetTimestampResponse { timestamp, count: at_least(count) }
    }

    /// A contiguous block of `count` timestamps (at least one) from an oracle that keeps no file.
    /// It starts at the time that the clock says, or where the last one ended.
    pub fn get_timestamp(&mut self, count: u32) -> (r: Result<GetTimestampResponse, PdStatus>)
        requires
            old(self).tso.ready(),
        ensures
            exists|ms: u64|
                {
                    let g = old(self).tso@.grant(ms, asked(count) as u64);
                    &&& #[trigger] old(self).tso.may_read(ms)
                    &&& final(self).tso@ == old(self).tso@.after(g)
                    &&& match g {
                        Ok(x) => r == Ok::<GetTimestampResponse, PdStatus>(
                            GetTimestampResponse { timestamp: x.first, count: asked(count) },
                        ),
                        Err(e) => r matches Err(s) && s@ == StatusView::Internal(e),
                    }
                },
            final(self).members == old(self).members,
            final(self).tso.ready(),
            forall|ms: u64| #[trigger] final(self).tso.may_read(ms) == old(self).tso.may_read(ms),
    {
        let ms: u64 = self.tso.time();
        let ghost g = self.tso@.grant(ms, asked(count) as u64);
        match self.plan_timestamp(ms, count) {
            Ok(g) => Ok(self.accept_timestamp(g, count)),
            Err(e) => Err(e),
        }
    }

    /// The region and the node that a key belongs to, in the live view.
    pub fn get_region(&self, key: &[u8]) -> (r: Result<GetRegionResponse, PdStatus>)
        ensures
            route_result(r) == route_answer(cluster::routed(self.members@.nodes, key@, 0)),
    {
        route_reply(self.members.route(key))
    }

    /// A node reports the regions that it owns and where it serves; it is told what it should own.
    /// There is no authoritative region table here, so there is no catalog to adopt: version 0.
    pub fn heartbeat(&mut self, req: HeartbeatRequest, now: u64) -> (r: HeartbeatResponse)
        requires
            old(self).members@.wf(),
        ensures
            ({
                let assigned = old(self).members@.assigned(req.node_id, req.reported());
                order::views(r.regions@) == Seq::new(
                    assigned.len(),
                    |i: int| convert::replicas_out(assigned[i]),
                )
            }),
            r.catalog_version == 0,
            r.tables@.len() == 0,
            final(self).members@ == old(self).members@.heartbeat(
                req.node_id,
                req.address@,
                req.reported(),
                req.declared(),
                now,
            ),
            final(self).members@.wf(),
            final(self).tso == old(self).tso,
    {
        let reported = convert::replica_sets_from_proto(&req.regions);
        assert(order::views(reported@) =~= req.reported());
        let mut tables: Vec<(String, Regime)> = Vec::new();
        let mut i: usize = 0;
        while i < req.tables.len()
            invariant
                0 <= i <= req.tables@.len(),
                tables@.len() == i,
                forall|j: int|
                    0 <= j < i ==> ((#[trigger] tables@[j]).0@, tables@[j].1) == (
                        req.tables@[j].name@,
                        convert::regime_in(req.tables@[j].regime),
                    ),
            decreases req.tables@.len() - i,
        {
            tables.push(convert::table_decl_from_proto(&req.tables[i]));
            i = i + 1;
        }
        assert(cluster::decl_views(tables@) =~= req.declared());
        let assigned = self.members.heartbeat(req.node_id, req.address, reported, tables, now);
        HeartbeatResponse {
            regions: convert::replica_sets_to_proto(&assigned),
            catalog_version: 0,
            tables: Vec::new(),
        }
    }

    /// Not served here: to carve a table needs the replicated region table.
    pub fn create_table(&self) -> (r: PdStatus)
        ensures
            r@ == StatusView::Unimplemented,
    {
        PdStatus::Unimplemented
    }

    /// The tables that nodes have declared, and those that two nodes describe differently. No ids
    /// are allocated here.
    pub fn list_tables(&self) -> (r: ListTablesResponse)
        ensures
            ({
                let decls = order::sorted(
                    cluster::decl_key(),
                    cluster::decls_of(cluster::firsts(cluster::sightings(self.members@.nodes))),
                );
                let clashes = order::sorted(
                    order::key_of::<cluster::TableConflict>(),
                    cluster::conflicts(cluster::sightings(self.members@.nodes)),
                );
                &&& order::views(r.tables@) == Seq::new(
                    decls.len(),
                    |i: int|
                        convert::table_out(
                            TableView { id: 0, name: decls[i].0, regime: decls[i].1 },
                        ),
                )
                &&& order::views(r.conflicts@) == Seq::new(
                    clashes.len(),
                    |i: int| convert::conflict_out(clashes[i]),
                )
            }),
    {
        let decls = self.members.tables();
        let mut tables: Vec<Table> = Vec::new();
        let mut i: usize = 0;
        while i < decls.len()
            invariant
                0 <= i <= decls@.len(),
                tables@.len() == i,
                forall|j: int|
                    0 <= j < i ==> (#[trigger] tables@[j])@ == (TableView {
                        id: 0,
                        name: decls@[j].0@,
                        regime: decls@[j].1,
                    }),
            decreases decls@.len() - i,
        {
            tables.push(
                Table { id: 0, name: text::owned(decls[i].0.as_str()), regime: decls[i].1 },
            );
            i = i + 1;
        }
        let r = convert::list_tables_response(&tables, &self.members.table_conflicts());
        proof {
            let dv = cluster::decl_views(decls@);
            assert(order::views(r.tables@) =~= Seq::new(
                dv.len(),
                |i: int|
                    convert::table_out(TableView { id: 0, name: dv[i].0, regime: dv[i].1 }),
            ));
        }
        r
    }

    /// The whole live region view, with owners.
    pub fn list_regions(&self) -> (r: Vec<WireRegion>)
        ensures
            ({
                let all = self.members@.list();
                order::views(r@) == Seq::new(all.len(), |i: int| convert::placed_out(all[i]))
            }),
    {
        convert::placed_list_to_proto(&self.members.list())
    }
}

/// The refusal of a follower.
pub open spec fn redirected(g: GroupView) -> StatusView {
    StatusView::Unavailable(g.leader_addr())
}

/// The service over a replicated group.
pub struct ReplicatedPdApi<S: Storage> {
    pub group: PdGroup<S>,
}

impl<S: Storage> ReplicatedPdApi<S> {
    /// The service over a group.
    pub fn new(group: PdGroup<S>) -> (r: ReplicatedPdApi<S>)
        ensures
            r.group == group,
    {
        ReplicatedPdApi { group }
    }

    /// The refusal of a follower, so that the caller goes to the leader.
    pub fn redirect(&self) -> (r: PdStatus)
        ensures
            r@ == redirected(self.group@),
    {
        PdStatus::Unavailable(self.group.leader_addr())
    }

    /// The command that a question for timestamps is for the group.
    pub fn timestamp_command(&self, count: u32, ticket: u64) -> (c: Command)
        ensures
            c@ == (CommandView::AllocTs { count: asked(count) as u64, ticket }),
    {
        Command::alloc_ts(at_least(count) as u64, ticket)
    }

    /// The answer to a question for timestamps, from the group's.
    pub fn timestamp_reply(&self, range: Option<(u64, u64)>) -> (r: Result<
        GetTimestampResponse,
        PdStatus,
    >)
        requires
            range matches Some((_, n)) ==> n <= u32::MAX,
        ensures
            match range {
                Some((first, n)) => r == Ok::<GetTimestampResponse, PdStatus>(
                    GetTimestampResponse { timestamp: first, count: n as u32 },
                ),
                None => r matches Err(s) && s@ == redirected(self.group@),
            },
    {
        match range {
            Some((first, n)) => Ok(GetTimestampResponse { timestamp: first, count: n as u32 }),
            None => Err(self.redirect()),
        }
    }

    /// The region and the node that a key belongs to, where this node leads.
    pub fn get_region(&self, key: &[u8]) -> (r: Result<GetRegionResponse, PdStatus>)
        ensures
            route_result(r) == if self.group@.replica.node.role == Role::Leader {
                route_answer(
                    cluster::routed(self.group@.replica.fsm.members.nodes, key@, 0),
                )
            } else {
                Err(redirected(self.group@))
            },
    {
        if !self.group.is_leader() {
            return Err(self.redirect());
        }
        route_reply(self.group.fsm().route(key))
    }

    /// The command that a heartbeat is for the group.
    pub fn heartbeat_command(&self, req: HeartbeatRequest, now: u64, ticket: u64) -> (c: Command)
        ensures
            c@ == (CommandView::Heartbeat {
                node_id: req.node_id,
                address: req.address@,
                regions: req.reported(),
                now,
                ticket,
            }),
    {
        let regions = convert::replica_sets_from_proto(&req.regions);
        assert(order::views(regions@) =~= req.reported());
        Command::Heartbeat { node_id: req.node_id, address: req.address, regions, now, ticket }
    }

    /// The answer to a heartbeat, from the group's: the assignment, and the catalog that goes with
    /// it.
    pub fn heartbeat_reply(&self, assigned: Option<Vec<ReplicaSet>>) -> (r: Result<
        HeartbeatResponse,
        PdStatus,
    >)
        ensures
            match assigned {
                Some(s) => r matches Ok(h) && {
                    let catalog = order::sorted(
                        order::key_of::<Table>(),
                        self.group@.replica.fsm.catalog,
                    );
                    &&& order::views(h.regions@) == Seq::new(
                        s@.len(),
                        |i: int| convert::replicas_out(order::views(s@)[i]),
                    )
                    &&& h.catalog_version == self.group@.replica.fsm.version
                    &&& order::views(h.tables@) == Seq::new(
                        catalog.len(),
                        |i: int| convert::table_out(catalog[i]),
                    )
                },
                None => r matches Err(s) && s@ == redirected(self.group@),
            },
    {
        match assigned {
            Some(s) => {
                let none: Vec<cluster::TableConflict> = Vec::new();
                let tables = convert::list_tables_response(&self.group.fsm().catalog(), &none);
                Ok(
                    HeartbeatResponse {
                        regions: convert::replica_sets_to_proto(&s),
                        catalog_version: self.group.fsm().catalog_version(),
                        tables: tables.tables,
                    },
                )
            },
            None => Err(self.redirect()),
        }
    }

    /// The whole placed-region view, where this node leads.
    pub fn list_regions(&self) -> (r: Result<Vec<WireRegion>, PdStatus>)
        ensures
            if self.group@.replica.node.role == Role::Leader {
                r matches Ok(v) && {
                    let all = self.group@.replica.fsm.members.list();
                    order::views(v@) == Seq::new(all.len(), |i: int| convert::placed_out(all[i]))
                }
            } else {
                r matches Err(s) && s@ == redirected(self.group@)
            },
    {
        if !self.group.is_leader() {
            return Err(self.redirect());
        }
        Ok(convert::placed_list_to_proto(&self.group.fsm().list()))
    }

    /// The catalog, and the tables that two nodes describe differently, where this node leads.
    pub fn list_tables(&self) -> (r: Result<ListTablesResponse, PdStatus>)
        ensures
            if self.group@.replica.node.role == Role::Leader {
                r matches Ok(t) && {
                    let catalog = order::sorted(
                        order::key_of::<Table>(),
                        self.group@.replica.fsm.catalog,
                    );
                    let clashes = order::sorted(
                        order::key_of::<cluster::TableConflict>(),
                        cluster::conflicts(
                            cluster::sightings(self.group@.replica.fsm.members.nodes),
                        ),
                    );
                    &&& order::views(t.tables@) == Seq::new(
                        catalog.len(),
                        |i: int| convert::table_out(catalog[i]),
                    )
                    &&& order::views(t.conflicts@) == Seq::new(
                        clashes.len(),
                        |i: int| convert::conflict_out(clashes[i]),
                    )
                }
            } else {
                r matches Err(s) && s@ == redirected(self.group@)
            },
    {
        if !self.group.is_leader() {
            return Err(self.redirect());
        }
        Ok(
            convert::list_tables_response(
                &self.group.fsm().catalog(),
                &self.group.fsm().members().table_conflicts(),
            ),
        )
    }

    /// The failure detector's sweep: only the leader marks silent nodes down.
    pub fn sweep(&mut self, now: u64, timeout_ms: u64) -> (r: Vec<u64>)
        requires
            old(self).group@.replica.wf(),
        ensures
            r@ == if old(self).group@.replica.node.role == Role::Leader {
                cluster::downed(old(self).group@.replica.fsm.members.nodes, now, timeout_ms)
            } else {
                Seq::empty()
            },
            final(self).group@ == if old(self).group@.replica.node.role == Role::Leader {
                old(self).group@.swept(now, timeout_ms)
            } else {
                old(self).group@
            },
            final(self).group@.replica.wf(),
    {
        if self.group.is_leader() {
            self.group.sweep(now, timeout_ms)
        } else {
            Vec::new()
        }
    }
}

} // verus!
