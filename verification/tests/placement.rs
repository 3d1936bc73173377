//! The replicated placement driver: timestamps, catalog, regions, replicas and failover.

use std::collections::{BTreeMap, BTreeSet, HashMap};
use std::sync::atomic::{AtomicU64, Ordering};

use arcux::pd::cluster::{Regime, ReplicaSet};
use arcux::pd::command::PdCmd;
use arcux::pd::convert::{
    regime_from_proto, replica_set_from_proto, replica_set_to_proto, to_proto, TableDecl,
    WireRegime,
};
use arcux::pd::format::{check_or_init, FormatError};
use arcux::pd::fsm::PdFsm;
use arcux::pd::group::{start, Action, Command, PdGroup, PdGroupOptions};
use arcux::pd::region::{
    table_key, table_prefix, Region, DEFAULT_TABLE_ID, DEFAULT_TABLE_NAME,
};
use arcux::pd::replica::{PdReplica, COMPACT_THRESHOLD};
use arcux::pd::service::{HeartbeatRequest, Pd, PdApi, PdStatus, ReplicatedPdApi};
use arcux::pd::topology::{as_uri, start_group, topology, TopologyError};
use arcux::pd::tso::{split, Tso, TsoError};
use arcux::pd::wire::{
    append_request, append_request_to_msg, append_response, append_response_to_msg,
    install_snapshot_request, install_snapshot_request_to_msg, peer_request,
    peer_request_to_msg, peer_response, peer_response_to_msg, vote_request,
    vote_request_to_msg, vote_response, PeerRequest, PD_GROUP_ID,
};
use arcux::raft::message::{Entry, Message, MessageBody};
use arcux::raft::storage::{MemStorage, Storage};

fn region(id: u64, start: &[u8], end: &[u8], epoch: u64) -> Region {
    Region { id, start: start.to_vec(), end: end.to_vec(), epoch }
}

/// Drive a single-node replica until it wins its own election.
fn elect<S: Storage>(r: &mut PdReplica<S>) {
    for _ in 0..40 {
        r.tick();
        let _ = r.ready();
        if r.is_leader() {
            return;
        }
    }
    panic!("single-node replica never became leader");
}

#[test]
fn fsm_snapshot_round_trips_watermark_and_membership() {
    let mut a = PdFsm::new();
    a.apply(&PdCmd::ReserveTs { upper: 4242 }.encode());
    a.apply(
        &PdCmd::Heartbeat {
            node_id: 7,
            address: "http://n7".into(),
            regions: vec![region(1, b"", b"m", 3), region(2, b"m", b"", 3)]
                .into_iter()
                .map(ReplicaSet::bare)
                .collect(),
            now: 1_000,
        }
        .encode(),
    );

    let mut b = PdFsm::new();
    assert!(b.restore(&a.snapshot()));
    assert_eq!(b.tso_upper(), 4242);
    assert_eq!(b.list().len(), 2, "placement survives the snapshot");
    assert_eq!(b.route(b"z").map(|p| p.node_id), Some(7));
}

#[test]
fn restore_never_regresses_the_watermark() {
    // An older snapshot arriving late must not walk the high-water backwards — that is what
    // stops a leader reissuing a timestamp it already served.
    let mut fsm = PdFsm::new();
    fsm.apply(&PdCmd::ReserveTs { upper: 9_000 }.encode());

    let mut older = PdFsm::new();
    older.apply(&PdCmd::ReserveTs { upper: 100 }.encode());
    assert!(fsm.restore(&older.snapshot()));
    assert_eq!(fsm.tso_upper(), 9_000);
}

#[test]
fn a_truncated_snapshot_is_rejected_rather_than_half_applied() {
    let mut fsm = PdFsm::new();
    fsm.apply(&PdCmd::ReserveTs { upper: 500 }.encode());
    assert!(!fsm.restore(&[]));
    assert!(!fsm.restore(&[0u8; 4]));
    assert_eq!(fsm.tso_upper(), 500, "a bad image leaves the state untouched");
}

#[test]
fn the_committed_watermark_survives_a_restart() {
    // The reason PD needs a durable log: without one this replica would come back at zero, and a
    // new leader could reissue a timestamp a previous one had already handed out.
    let issued;
    let reserved;
    let saved;
    {
        let mut r = PdReplica::with_storage(1, vec![1], MemStorage::new());
        elect(&mut r);
        let cmd = r.reserve_ts_cmd(10);
        r.propose(&cmd).unwrap();
        let _ = r.ready();
        reserved = r.fsm().tso_upper();
        issued = r.hand_out(5).expect("window reserved");
        assert!(reserved >= 10);
        saved = r.storage().clone();
    }

    let mut r = PdReplica::with_storage(1, vec![1], saved);
    elect(&mut r);
    assert_eq!(r.fsm().tso_upper(), reserved, "the reserved high-water survived");
    assert!(
        r.hand_out(1).map(|ts| ts >= issued + 5).unwrap_or(true),
        "a restarted leader never reissues a timestamp it already served"
    );
}

#[test]
fn the_log_is_compacted_and_its_snapshot_carries_the_state() {
    let reserved;
    let saved;
    {
        let mut r = PdReplica::with_storage(1, vec![1], MemStorage::new());
        elect(&mut r);

        let hb = PdCmd::Heartbeat {
            node_id: 7,
            address: "http://n7".into(),
            regions: vec![region(1, b"", b"", 1)].into_iter().map(ReplicaSet::bare).collect(),
            now: 1_000,
        };
        r.propose(&hb).unwrap();
        let _ = r.ready();

        // Enough reservations to cross COMPACT_THRESHOLD.
        for _ in 0..(COMPACT_THRESHOLD + 8) {
            let cmd = r.reserve_ts_cmd(4);
            r.propose(&cmd).unwrap();
            let _ = r.ready();
        }
        reserved = r.fsm().tso_upper();
        assert!(r.first_index() > 1, "the log was compacted, not grown without bound");
        saved = r.storage().clone();
    }

    // Reopened: the entries below the compaction point are gone from the log, so whatever
    // state is present before this replica applies anything came from the snapshot.
    let mut r = PdReplica::with_storage(1, vec![1], saved);
    let from_snapshot = r.fsm().tso_upper();
    assert!(from_snapshot > 0, "the snapshot alone seeded the watermark");
    assert_eq!(r.fsm().route(b"k").map(|p| p.node_id), Some(7), "and the placement view");

    // The tail above the snapshot replays once the node re-learns its commit index.
    elect(&mut r);
    assert_eq!(r.fsm().tso_upper(), reserved, "snapshot plus tail restores the full state");
}

#[test]
fn cmd_round_trips() {
    let cmds = vec![
        PdCmd::ReserveTs { upper: 1 << 40 },
        PdCmd::Heartbeat {
            node_id: 7,
            address: "http://127.0.0.1:50051".into(),
            regions: vec![region(1, b"", b"m", 2), region(9, b"m", b"", 2)]
                .into_iter()
                .map(ReplicaSet::bare)
                .collect(),
            now: 123_456,
        },
        PdCmd::Heartbeat {
            node_id: 3,
            address: String::new(),
            regions: vec![],
            now: 0,
        },
        // A regime and a replica set on the wire — what a node reports about its regions.
        PdCmd::Heartbeat {
            node_id: 4,
            address: "http://n4".into(),
            regions: vec![ReplicaSet {
                region: region(2, b"a", b"z", 7),
                regime: Regime::Ap,
                voters: vec![4, 5, 6],
                desired: Vec::new(),
            }],
            now: 99,
        },
    ];
    for c in cmds {
        assert_eq!(PdCmd::decode(&c.encode()), Some(c));
    }
    // Garbage decodes to None, not a panic.
    assert_eq!(PdCmd::decode(&[]), None);
    assert_eq!(PdCmd::decode(&[9, 9, 9]), None);
}

#[test]
fn fsm_applies_reserve_and_heartbeat() {
    let mut fsm = PdFsm::new();
    fsm.apply(&PdCmd::ReserveTs { upper: 1000 }.encode());
    assert_eq!(fsm.tso_upper(), 1000);
    // A lower reservation never regresses the watermark.
    fsm.apply(&PdCmd::ReserveTs { upper: 500 }.encode());
    assert_eq!(fsm.tso_upper(), 1000);

    fsm.apply(
        &PdCmd::Heartbeat {
            node_id: 7,
            address: "http://a".into(),
            regions: vec![region(1, b"", b"", 1)]
                .into_iter()
                .map(ReplicaSet::bare)
                .collect(),
            now: 100,
        }
        .encode(),
    );
    let p = fsm.route(b"anything").unwrap();
    assert_eq!((p.node_id, p.address.as_str()), (7, "http://a"));
}

/// Declare `name`, as a committed entry would.
fn declare(fsm: &mut PdFsm, name: &str, regime: Regime) {
    fsm.apply(&PdCmd::DeclareTable { name: name.to_string(), regime }.encode());
}

#[test]
fn the_default_table_exists_before_anything_is_declared() {
    let mut fsm = PdFsm::new();
    assert_eq!(fsm.table_id(DEFAULT_TABLE_NAME), Some(DEFAULT_TABLE_ID));
    // An omitted table name resolves to it, which is what makes zero-config use work.
    assert_eq!(fsm.table_id(""), Some(DEFAULT_TABLE_ID));
    assert_eq!(fsm.catalog().len(), 1);
    // Version 1, not 0: a node reads 0 as "PD holds no catalog, nothing to adopt".
    assert_eq!(fsm.catalog_version(), 1);
}

#[test]
fn ids_are_allocated_in_order_and_never_reuse_the_default() {
    let mut fsm = PdFsm::new();
    declare(&mut fsm, "orders", Regime::Cp);
    declare(&mut fsm, "clicks", Regime::Ap);
    assert_eq!(fsm.table_id("orders"), Some(1));
    assert_eq!(fsm.table_id("clicks"), Some(2));
    assert_eq!(fsm.next_table_id(), 3);
    // The regime travels with the id, and is read back off a key's prefix.
    assert_eq!(fsm.regime_for(&table_key(2, b"post7")), Regime::Ap);
    assert_eq!(fsm.regime_for(&table_key(1, b"o1")), Regime::Cp);
    // An undeclared id is strong by default, as an undeclared range always was.
    assert_eq!(fsm.regime_for(&table_key(9, b"k")), Regime::Cp);
}

#[test]
fn declaring_a_table_splits_exactly_one_region_and_leaves_no_gap() {
    let mut fsm = PdFsm::new();
    declare(&mut fsm, "orders", Regime::Cp);
    declare(&mut fsm, "clicks", Regime::Ap);

    // The headline invariant: one region per table, nothing in between.
    let regions = fsm.regions().list();
    assert_eq!(regions.len(), 3, "default + 2 tables, and no untabled gap regions");
    assert!(regions[0].start.is_empty(), "the default region starts at the keyspace start");
    assert!(regions[2].end.is_empty(), "the newest table runs to +inf");
    for w in regions.windows(2) {
        assert_eq!(w[0].end, w[1].start, "contiguous: a gap could only appear here");
    }
    assert_eq!(regions[1].start, table_prefix(1).to_vec());
    assert_eq!(regions[2].start, table_prefix(2).to_vec());
}

#[test]
fn re_applying_a_declaration_does_not_burn_an_id() {
    // A restart replays the log. If the allocation ran before the name check, every later
    // table would shift and replicas that did not replay would disagree about every id.
    let mut fsm = PdFsm::new();
    let entry = PdCmd::DeclareTable { name: "orders".into(), regime: Regime::Cp }.encode();
    fsm.apply(&entry);
    fsm.apply(&entry);
    fsm.apply(&entry);

    assert_eq!(fsm.table_id("orders"), Some(1));
    assert_eq!(fsm.next_table_id(), 2, "the replays allocated nothing");
    assert_eq!(fsm.regions().list().len(), 2, "and carved nothing");
}

#[test]
fn the_default_table_is_never_re_declarable() {
    let mut fsm = PdFsm::new();
    declare(&mut fsm, DEFAULT_TABLE_NAME, Regime::Ap);
    declare(&mut fsm, "", Regime::Ap);
    assert_eq!(fsm.catalog().len(), 1);
    assert_eq!(fsm.regime_for(&table_key(DEFAULT_TABLE_ID, b"k")), Regime::Cp);
    assert_eq!(fsm.next_table_id(), 1, "neither burned an id");
}

#[test]
fn restore_never_regresses_the_allocator() {
    let mut a = PdFsm::new();
    declare(&mut a, "orders", Regime::Cp);
    declare(&mut a, "clicks", Regime::Ap);
    let image = a.snapshot();

    // A follower that is ahead must not adopt an older allocator: reissuing an id would give
    // two tables the same key range.
    let mut b = PdFsm::new();
    for name in ["a", "b", "c", "d"] {
        declare(&mut b, name, Regime::Cp);
    }
    assert_eq!(b.next_table_id(), 5);
    assert!(b.restore(&image));
    assert_eq!(b.next_table_id(), 5, "fetch_max, like the TSO watermark");

    // A fresh replica adopts the whole catalog, ids included.
    let mut c = PdFsm::new();
    assert!(c.restore(&image));
    assert_eq!(c.table_id("orders"), Some(1));
    assert_eq!(c.table_id("clicks"), Some(2));
    assert_eq!(c.next_table_id(), 3);
    assert_eq!(c.regime_for(&table_key(2, b"k")), Regime::Ap, "regimes survive the snapshot");
}

#[test]
fn single_node_commits_and_serves_timestamps() {
    // A one-node PD group self-elects, then reserves + hands out timestamps through Raft.
    let mut r = PdReplica::new(1, vec![1]);
    for _ in 0..40 {
        r.tick();
        let _ = r.ready();
        if r.is_leader() {
            break;
        }
    }
    assert!(r.is_leader());

    // Exhausted before any reservation.
    assert_eq!(r.hand_out(1), None);
    let cmd = r.reserve_ts_cmd(10);
    r.propose(&cmd).unwrap();
    let _ = r.ready(); // single-node group commits immediately
    assert!(r.fsm().tso_upper() >= 10);

    let first = r.hand_out(5).expect("window reserved");
    let next = r.hand_out(5).unwrap();
    assert_eq!(next, first + 5, "contiguous, strictly increasing");
    assert!(next + 5 <= r.fsm().tso_upper());
}

/// A node's heartbeat, as a committed entry. `led` are regions it reports leading, with the
/// voters its group has; everything else a real node reports carries no voters.
fn heartbeat(fsm: &mut PdFsm, node: u64, led: Vec<(u64, Vec<u64>)>) {
    let regions = led
        .into_iter()
        .map(|(id, voters)| {
            let region = fsm.regions().list().into_iter().find(|r| r.id == id).expect("region");
            ReplicaSet { region, regime: Regime::Cp, voters, desired: Vec::new() }
        })
        .collect();
    fsm.apply(
        &PdCmd::Heartbeat { node_id: node, address: format!("http://n{node}"), regions, now: 1 }
            .encode(),
    );
}

fn default_region(fsm: &PdFsm) -> ReplicaSet {
    fsm.assignment().into_iter().next().expect("the default region")
}

#[test]
fn the_first_node_founds_a_region_alone() {
    let mut fsm = PdFsm::new();
    heartbeat(&mut fsm, 1, vec![]);
    let r = default_region(&fsm);
    assert_eq!(r.voters, vec![1], "the bootstrap: founded by the only live node");
    assert_eq!(r.desired, vec![1]);
}

#[test]
fn later_nodes_are_desired_not_members() {
    // The split-brain fix: a node registering later must not be handed the region as a
    // founding voter — it has to be added to the running group by membership change.
    let mut fsm = PdFsm::new();
    heartbeat(&mut fsm, 1, vec![]);
    heartbeat(&mut fsm, 2, vec![]);
    heartbeat(&mut fsm, 3, vec![]);
    let r = default_region(&fsm);
    assert_eq!(r.voters, vec![1], "members are fixed at founding");
    assert_eq!(r.desired, vec![1, 2, 3], "and grown toward the live nodes");
    // Node 3 is sent the region (to join it), though it is not a member.
    assert_eq!(fsm.assignment_for(3).len(), 1);
}

#[test]
fn desired_is_capped_at_the_replication_target() {
    let mut fsm = PdFsm::new();
    fsm.set_replicas(2);
    for node in 1..=4 {
        heartbeat(&mut fsm, node, vec![]);
    }
    assert_eq!(default_region(&fsm).desired, vec![1, 2]);
    assert!(fsm.assignment_for(4).is_empty(), "a node beyond the target is given nothing");
}

#[test]
fn a_leader_report_that_grows_the_group_is_adopted_and_bumps_the_version() {
    let mut fsm = PdFsm::new();
    heartbeat(&mut fsm, 1, vec![]);
    heartbeat(&mut fsm, 2, vec![]);
    let before = fsm.catalog_version();
    let id = default_region(&fsm).region.id;

    heartbeat(&mut fsm, 1, vec![(id, vec![1, 2])]);
    assert_eq!(default_region(&fsm).voters, vec![1, 2]);
    assert!(fsm.catalog_version() > before, "nodes re-reconcile on a membership change");
}

#[test]
fn a_report_that_drops_a_voter_or_comes_from_outside_is_ignored() {
    let mut fsm = PdFsm::new();
    heartbeat(&mut fsm, 1, vec![]);
    heartbeat(&mut fsm, 2, vec![]);
    let id = default_region(&fsm).region.id;
    heartbeat(&mut fsm, 1, vec![(id, vec![1, 2])]);

    // Shrinking is not this path's to do: a report without node 1 is a stale view.
    heartbeat(&mut fsm, 2, vec![(id, vec![2, 3])]);
    assert_eq!(default_region(&fsm).voters, vec![1, 2]);
    // A node reporting a group it is not in says nothing about it.
    heartbeat(&mut fsm, 3, vec![(id, vec![1, 2, 4])]);
    assert_eq!(default_region(&fsm).voters, vec![1, 2]);
}

#[test]
fn a_table_created_on_a_formed_cluster_starts_fully_replicated() {
    let mut fsm = PdFsm::new();
    for node in 1..=3 {
        heartbeat(&mut fsm, node, vec![]);
    }
    declare(&mut fsm, "orders", Regime::Cp);
    let orders = fsm
        .assignment()
        .into_iter()
        .find(|rs| rs.region.start == table_prefix(1).to_vec())
        .expect("orders region");
    assert_eq!(orders.voters, vec![1, 2, 3], "founded by every live node, no growing needed");
}

#[test]
fn a_table_declared_before_any_node_is_founded_when_one_registers() {
    let mut fsm = PdFsm::new();
    declare(&mut fsm, "orders", Regime::Cp);
    assert!(fsm.assignment().iter().all(|rs| rs.voters.is_empty()), "no node to found it yet");
    heartbeat(&mut fsm, 1, vec![]);
    assert!(fsm.assignment().iter().all(|rs| rs.voters == vec![1]));
}

#[test]
fn region_members_survive_a_snapshot() {
    let mut a = PdFsm::new();
    heartbeat(&mut a, 1, vec![]);
    heartbeat(&mut a, 2, vec![]);
    let id = default_region(&a).region.id;
    heartbeat(&mut a, 1, vec![(id, vec![1, 2])]);

    let mut b = PdFsm::new();
    assert!(b.restore(&a.snapshot()));
    assert_eq!(default_region(&b).voters, vec![1, 2], "members are not rebuilt by heartbeats");
}

// ---- the oracle ---------------------------------------------------------------------

#[test]
fn tso_strictly_monotonic() {
    let mut tso = Tso::ephemeral();
    let a = tso.now().unwrap();
    let b = tso.now().unwrap();
    let c = tso.allocate(5).unwrap();
    assert!(a < b && b < c);
    // alloc(5) reserved a contiguous range above c.
    assert!(tso.now().unwrap() >= c + 5);
}

#[test]
fn never_regresses_across_restart() {
    // The oracle's file: a new watermark is saved before its grant is accepted.
    let mut file: Option<Vec<u8>> = None;
    let issued = {
        let mut tso = Tso::open(file.as_deref());
        let mut last = 0;
        for _ in 0..10 {
            let g = tso.plan(tso.time(), 1).unwrap();
            if g.fresh {
                file = Some(g.upper.to_be_bytes().to_vec());
            }
            last = tso.accept(g);
            assert!(last > 0);
        }
        last
    };
    // Reopen: every newly issued timestamp must exceed everything issued before
    // the "crash", even though we never cleanly flushed `next`.
    let mut tso = Tso::open(file.as_deref());
    let after = tso.now().unwrap();
    assert!(after > issued, "TSO regressed: {after} <= {issued}");
}

#[test]
fn batch_reserves_contiguous_block() {
    // With a frozen physical clock the logical bits alone advance, so a batch hands
    // back an exactly contiguous block (no millisecond tick to bump the floor).
    let mut tso = Tso::with_clock(|| 0);
    let first = tso.allocate(100).unwrap();
    let next = tso.now().unwrap();
    assert_eq!(next, first + 100, "a batch must reserve a contiguous range");
}

#[test]
fn physical_component_tracks_wall_clock() {
    // Drive the clock forward by one ms between allocations: the physical high bits
    // must advance, and the timestamp jumps to the new millisecond's floor.
    let ms = AtomicU64::new(1000);
    let mut tso = Tso::with_clock(move || ms.fetch_add(1, Ordering::SeqCst));
    let t1 = tso.now().unwrap();
    let t2 = tso.now().unwrap();
    let (p1, _) = split(t1);
    let (p2, _) = split(t2);
    assert!(p2 > p1, "physical component must advance with wall-clock: {p1} -> {p2}");
    assert!(t2 > t1, "and the timestamp stays strictly monotonic");
}

#[test]
fn backwards_clock_never_regresses() {
    // A wall clock that jumps backwards must not produce a smaller timestamp.
    let seq = AtomicU64::new(0);
    let mut tso = Tso::with_clock(move || {
        // returns 5000, then 10 (a backwards jump), then 5001…
        match seq.fetch_add(1, Ordering::SeqCst) {
            0 => 5000,
            1 => 10,
            n => 5000 + n,
        }
    });
    let a = tso.now().unwrap();
    let b = tso.now().unwrap(); // clock went backwards here
    let c = tso.now().unwrap();
    assert!(a < b && b < c, "monotonic despite a backwards clock: {a} {b} {c}");
}

#[test]
fn vote_round_trips() {
    let out = Message {
        from: 2,
        to: 1,
        term: 5,
        body: MessageBody::RequestVote { last_log_index: 9, last_log_term: 4 },
    };
    let req = vote_request(&out);
    assert_eq!((req.candidate_id, req.term, req.group_id), (2, 5, PD_GROUP_ID));
    assert_eq!(vote_request_to_msg(&req, 1), out);
}

#[test]
fn append_round_trips() {
    let out = Message {
        from: 1,
        to: 3,
        term: 7,
        body: MessageBody::AppendEntries {
            prev_log_index: 2,
            prev_log_term: 6,
            entries: vec![Entry::normal(7, 3, b"x".to_vec())],
            leader_commit: 2,
        },
    };
    let req = append_request(&out);
    assert_eq!(append_request_to_msg(&req, 3), out);

    let reply = Message {
        from: 3,
        to: 1,
        term: 7,
        body: MessageBody::AppendEntriesResp { success: true, match_index: 3 },
    };
    let resp = append_response(Some(&reply));
    assert_eq!(append_response_to_msg(&resp, 3, 1), reply);
}

/// An in-process bus of PD replicas. Messages are delivered synchronously; a "down" node
/// receives nothing and its outbound messages are dropped, modelling a crash/partition.
struct Cluster {
    nodes: BTreeMap<u64, PdReplica<MemStorage>>,
    down: BTreeSet<u64>,
    bus: Vec<Message>,
}

impl Cluster {
    fn new(ids: &[u64]) -> Cluster {
        let voters: Vec<u64> = ids.to_vec();
        let nodes = ids.iter().map(|&id| (id, PdReplica::new(id, voters.clone()))).collect();
        Cluster { nodes, down: BTreeSet::new(), bus: Vec::new() }
    }

    /// Deliver every queued message (and the responses they generate) until the bus quiesces.
    fn pump(&mut self) {
        for _ in 0..100_000 {
            let batch = std::mem::take(&mut self.bus);
            if batch.is_empty() {
                break;
            }
            for m in batch {
                if self.down.contains(&m.to) {
                    continue;
                }
                if let Some(r) = self.nodes.get_mut(&m.to) {
                    r.step(m);
                    let out = r.ready().messages;
                    self.bus.extend(out);
                }
            }
        }
    }

    /// One logical tick on every live node, then settle all resulting traffic.
    fn tick(&mut self) {
        let down = self.down.clone();
        for (id, r) in self.nodes.iter_mut() {
            if down.contains(id) {
                continue;
            }
            r.tick();
            self.bus.extend(r.ready().messages);
        }
        self.pump();
    }

    /// Tick until some live node is leader (or panic), returning its id.
    fn elect_leader(&mut self) -> u64 {
        for _ in 0..500 {
            self.tick();
            if let Some(id) = self.leader() {
                // A couple more ticks so the fresh leader's no-op commits and it is read-ready.
                self.tick();
                self.tick();
                return id;
            }
        }
        panic!("no leader elected");
    }

    fn leader(&self) -> Option<u64> {
        self.nodes
            .iter()
            .find(|(id, r)| !self.down.contains(id) && r.is_leader())
            .map(|(id, _)| *id)
    }

    /// Propose a command on `leader`, then settle so a majority commits and applies it.
    fn commit(&mut self, leader: u64, cmd: &PdCmd) {
        {
            let r = self.nodes.get_mut(&leader).expect("leader exists");
            r.propose(cmd).expect("leader accepts the proposal");
            let out = r.ready().messages;
            self.bus.extend(out);
        }
        self.pump();
        // Followers learn the advanced commit index on the next heartbeat, so tick to flush it.
        self.tick();
        self.tick();
    }

    fn kill(&mut self, id: u64) {
        self.down.insert(id);
    }
}

#[test]
fn pd_survives_leader_failover_without_losing_placement_or_regressing_tso() {
    let mut c = Cluster::new(&[1, 2, 3]);
    let leader = c.elect_leader();

    // The leader reserves a TSO window and records a data node's placement — both through Raft.
    let reserve = {
        let l = c.nodes.get(&leader).unwrap();
        l.reserve_ts_cmd(4)
    };
    let reserved_upper = match reserve {
        PdCmd::ReserveTs { upper } => upper,
        _ => unreachable!(),
    };
    c.commit(leader, &reserve);
    c.commit(
        leader,
        &PdCmd::Heartbeat {
            node_id: 7,
            address: "http://node7".into(),
            regions: vec![ReplicaSet::bare(region(1, b"", b"m", 1))],
            now: 1_000,
        },
    );

    // Every live replica has converged on the same committed state.
    for (id, r) in c.nodes.iter() {
        assert_eq!(r.fsm().tso_upper(), reserved_upper, "node {id} has the reserved high-water");
        assert_eq!(r.fsm().route(b"k").unwrap().node_id, 7, "node {id} has the placement");
    }

    // The leader hands out a few timestamps from its reserved window; capture the largest.
    let mut highest_issued = 0;
    {
        let l = c.nodes.get_mut(&leader).unwrap();
        for _ in 0..3 {
            let ts = l.hand_out(1).expect("window has room");
            assert!(ts < reserved_upper, "issued timestamp stays under the committed high-water");
            highest_issued = highest_issued.max(ts);
        }
    }

    // Kill the leader. The surviving two (still a majority of three) elect a new leader.
    c.kill(leader);
    let new_leader = c.elect_leader();
    assert_ne!(new_leader, leader, "a different node took over");

    // 1) Placement survived the failover.
    let p = c.nodes.get(&new_leader).unwrap().fsm().route(b"k").unwrap();
    assert_eq!(p.node_id, 7, "the new leader still routes to the placed node");

    // 2) The TSO never regresses: the new leader resumes at the committed high-water, so the
    //    very next timestamp it hands out is strictly greater than anything the old leader did.
    // The new leader reset its cursor to the committed high-water on election, so it reserves a
    // fresh window before serving (discarding the old leader's unused tail — the "at most one
    // window skipped on failover" property).
    let resumed = match c.nodes.get_mut(&new_leader).unwrap().hand_out(1) {
        Some(ts) => ts,
        None => {
            let cmd = c.nodes.get(&new_leader).unwrap().reserve_ts_cmd(1);
            c.commit(new_leader, &cmd);
            c.nodes.get_mut(&new_leader).unwrap().hand_out(1).expect("new leader serves a timestamp")
        }
    };
    assert!(
        resumed >= reserved_upper && resumed > highest_issued,
        "resumed timestamp {resumed} must exceed the old high-water {reserved_upper} and every issued ts {highest_issued}",
    );

    // 3) The new leader can still drive fresh consensus (placement writes commit under the
    //    surviving majority).
    c.commit(
        new_leader,
        &PdCmd::Heartbeat {
            node_id: 8,
            address: "http://node8".into(),
            regions: vec![ReplicaSet::bare(region(2, b"m", b"", 1))],
            now: 2_000,
        },
    );
    let survivors: Vec<u64> = c.nodes.keys().copied().filter(|id| !c.down.contains(id)).collect();
    for id in survivors {
        let r = c.nodes.get(&id).unwrap();
        assert_eq!(r.fsm().route(b"z").unwrap().node_id, 8, "node {id} applied the post-failover write");
    }
}

#[test]
fn the_oracle_stops_at_the_end_of_its_range() {
    let mut tso = Tso::with_clock(|| 0);
    assert_eq!(tso.allocate(u64::MAX), Err(TsoError::Exhausted));
    // A refused allocation changes nothing.
    let first = tso.now().unwrap();
    assert_eq!(first, 1);
    assert_eq!(split(5 * 0x4_0000 + 3), (5, 3));
}

#[test]
fn a_torn_watermark_file_counts_as_none() {
    let mut tso = Tso::open(Some(&[1, 2, 3]));
    let g = tso.allocate_at(0, 1).unwrap();
    assert_eq!(g, 1);
    let mut resumed = Tso::open(Some(&7_000u64.to_be_bytes()));
    assert_eq!(resumed.allocate_at(0, 1).unwrap(), 7_000);
}

// ---- the service over an oracle and a membership --------------------------------------

#[test]
fn tso_is_monotonic_and_batches() {
    let pd = Pd::ephemeral();
    let mut c = PdApi::new(pd.tso, pd.members);

    let a = c.get_timestamp(1).unwrap();
    let b = c.get_timestamp(10).unwrap();
    let d = c.get_timestamp(1).unwrap();

    assert!(a.timestamp < b.timestamp, "timestamps strictly increase");
    assert_eq!(b.count, 10, "the batch size is echoed back");
    assert!(d.timestamp >= b.timestamp + 10, "a batch of 10 reserves a contiguous block");
    assert_eq!(c.get_timestamp(0).unwrap().count, 1);
}

#[test]
fn heartbeat_populates_routing() {
    let pd = Pd::ephemeral();
    let mut c = PdApi::new(pd.tso, pd.members);

    // Before any node reports in, PD cannot route.
    assert_eq!(c.get_region(b"k"), Err(PdStatus::NotFound));

    // A node reports the two regions it owns, along with its serving address.
    let regions = vec![
        to_proto(&Region { id: 1, start: vec![], end: b"m".to_vec(), epoch: 2 }),
        to_proto(&Region { id: 2, start: b"m".to_vec(), end: vec![], epoch: 2 }),
    ];
    let reply = c.heartbeat(
        HeartbeatRequest { node_id: 1, regions, address: "http://node1".into(), tables: vec![] },
        5,
    );
    assert_eq!((reply.regions.len(), reply.catalog_version), (2, 0));

    // Now routing reflects the reported topology, tagged with the owning node.
    let r = c.get_region(b"z").unwrap();
    assert_eq!(r.region_id, 2);
    assert_eq!(r.epoch, 2);
    assert_eq!(r.node_id, 1, "PD attributes the region to the reporting node");
    assert_eq!(r.address, "http://node1", "and carries its serving address for routing");

    let all = c.list_regions();
    assert_eq!(all.len(), 2);
    assert_eq!(all[0].node_id, 1);
}

#[test]
fn the_service_reports_tables_and_conflicts() {
    let pd = Pd::seeded(vec![]).with_failure_detector(10, 0);
    assert_eq!((pd.fd_timeout_ms, pd.fd_interval_ms), (10, 1));
    let mut c = PdApi::new(pd.tso, pd.members);
    for (node_id, events) in [(7u64, WireRegime::Ap), (8, WireRegime::Unrecognized)] {
        c.heartbeat(
            HeartbeatRequest {
                node_id,
                regions: vec![],
                address: format!("http://node{node_id}"),
                tables: vec![
                    TableDecl { name: "ledger".into(), regime: WireRegime::Cp, id: 0 },
                    TableDecl { name: "events".into(), regime: events, id: 0 },
                ],
            },
            1,
        );
    }
    let t = c.list_tables();
    let names: Vec<&str> = t.tables.iter().map(|t| t.name.as_str()).collect();
    assert_eq!(names, vec!["events", "ledger"], "the union, name-sorted");
    assert_eq!(t.conflicts.len(), 1, "only `events` disagrees");
    let x = &t.conflicts[0];
    assert_eq!((x.name.as_str(), x.node_id, x.other_node_id), ("events", 7, 8));
    assert_eq!((x.regime, x.other_regime), (WireRegime::Ap, WireRegime::Cp));
    assert!(c.create_table().message().contains("replicated PD"));
}

// ---- the group ------------------------------------------------------------------------

/// Three groups that send each other requests and get responses, as over a network.
struct Net {
    groups: BTreeMap<u64, PdGroup<MemStorage>>,
    down: BTreeSet<u64>,
    answers: Vec<Action>,
}

impl Net {
    fn new(ids: &[u64]) -> Net {
        let addrs: HashMap<u64, String> =
            ids.iter().map(|&id| (id, format!("http://pd{id}"))).collect();
        let groups = ids.iter().map(|&id| (id, start_group(id, addrs.clone()))).collect();
        Net { groups, down: BTreeSet::new(), answers: Vec::new() }
    }

    fn run(&mut self, id: u64, c: Command) {
        let mut todo = vec![(id, c)];
        while let Some((id, c)) = todo.pop() {
            if self.down.contains(&id) {
                continue;
            }
            let g = self.groups.get_mut(&id).unwrap();
            assert!(g.has_room());
            for a in g.handle(c).unwrap() {
                match a {
                    Action::Send(m) => todo.extend(self.exchange(id, m)),
                    other => self.answers.push(other),
                }
            }
        }
    }

    /// One request to a peer and back.
    fn exchange(&mut self, from: u64, m: Message) -> Vec<(u64, Command)> {
        let to = m.to;
        if self.groups[&from].peer_addr(to).is_none() || self.down.contains(&to) {
            return vec![];
        }
        let Some(req) = peer_request(&m) else { return vec![] };
        let inbound = peer_request_to_msg(&req, to);
        assert_eq!(inbound, m);
        let mut reply: Option<Message> = None;
        let mut more = vec![];
        for a in
            self.groups.get_mut(&to).unwrap().handle(Command::StepReply(inbound, 99)).unwrap()
        {
            match a {
                Action::Reply { ticket, message } => {
                    assert_eq!(ticket, 99);
                    reply = message;
                }
                Action::Send(x) => more.extend(self.exchange(to, x)),
                other => self.answers.push(other),
            }
        }
        let resp = peer_response(&req, reply.as_ref());
        if let Some(back) = peer_response_to_msg(&m, &resp, to, from) {
            more.push((from, Command::Step(back)));
        }
        more
    }

    fn tick(&mut self) {
        let ids: Vec<u64> = self.groups.keys().copied().collect();
        for id in ids {
            self.run(id, Command::Tick);
        }
    }

    fn leader(&self) -> Option<u64> {
        self.groups
            .iter()
            .find(|(id, g)| !self.down.contains(id) && g.is_leader())
            .map(|(id, _)| *id)
    }

    fn elect(&mut self) -> u64 {
        for _ in 0..500 {
            self.tick();
            if let Some(id) = self.leader() {
                self.tick();
                self.tick();
                return id;
            }
        }
        panic!("no leader elected");
    }

    fn timestamps(&mut self, id: u64, count: u64) -> Option<(u64, u64)> {
        self.answers.clear();
        self.run(id, Command::alloc_ts(count, 41));
        self.tick();
        for a in &self.answers {
            if let Action::Timestamps { ticket: 41, range } = a {
                return *range;
            }
        }
        panic!("no answer");
    }

    fn heartbeat(&mut self, id: u64, node: u64) -> Option<Vec<ReplicaSet>> {
        self.answers.clear();
        self.run(
            id,
            Command::Heartbeat {
                node_id: node,
                address: format!("http://node{node}"),
                regions: vec![],
                now: 10,
                ticket: 42,
            },
        );
        self.tick();
        for a in &self.answers {
            if let Action::Assigned { ticket: 42, regions } = a {
                return regions.clone();
            }
        }
        panic!("no answer");
    }
}

#[test]
fn a_group_elects_serves_redirects_and_fails_over() {
    let mut net = Net::new(&[1, 2, 3]);
    let leader = net.elect();
    let follower = [1, 2, 3].into_iter().find(|x| *x != leader).unwrap();

    // A follower refuses, and names the leader.
    assert_eq!(net.timestamps(follower, 1), None);
    assert_eq!(net.heartbeat(follower, 7), None);
    assert_eq!(net.groups[&follower].leader_id(), Some(leader));
    assert_eq!(net.groups[&follower].leader_addr(), Some(format!("http://pd{leader}")));

    // The leader serves, through the log.
    let (t1, n1) = net.timestamps(leader, 1).unwrap();
    let (t2, _) = net.timestamps(leader, 10).unwrap();
    assert_eq!((n1, t2), (1, t1 + 1));
    let assigned = net.heartbeat(leader, 7).unwrap();
    assert_eq!(assigned.len(), 1);
    assert_eq!(assigned[0].voters, vec![7]);

    // Kill the leader: the survivors elect another, which never reissues a timestamp.
    net.down.insert(leader);
    let next = net.elect();
    assert_ne!(next, leader);
    let (t3, _) = net.timestamps(next, 1).unwrap();
    assert!(t3 >= t2 + 10);
    assert_eq!(net.groups[&next].fsm().node_addrs(), vec![(7, "http://node7".to_string())]);
    let grown = net.heartbeat(next, 8).unwrap();
    assert_eq!(grown[0].desired, vec![7, 8]);
}

#[test]
fn the_replicated_service_answers_only_where_it_leads() {
    let mut g = start(PdGroupOptions {
        id: 1,
        voters: vec![1],
        addrs: HashMap::from([(1, "http://pd1".to_string())]),
    });
    let mut announced = Vec::new();
    let api = ReplicatedPdApi::new(start(PdGroupOptions {
        id: 2,
        voters: vec![1, 2],
        addrs: HashMap::new(),
    }));
    assert_eq!(api.get_region(b"k"), Err(PdStatus::Unavailable(None)));
    assert_eq!(api.list_regions().err(), Some(PdStatus::Unavailable(None)));
    assert_eq!(api.list_tables().err(), Some(PdStatus::Unavailable(None)));
    assert_eq!(api.timestamp_reply(None), Err(PdStatus::Unavailable(None)));
    assert_eq!(api.redirect().message(), "not pd leader; no leader elected yet");
    assert_eq!(
        PdStatus::Unavailable(Some("http://a".into())).message(),
        "not pd leader; leader at http://a"
    );

    for _ in 0..40 {
        for a in g.handle(Command::Tick).unwrap() {
            if let Action::Announce { leads, leader, term } = a {
                announced.push((leads, leader, term));
            }
        }
    }
    assert_eq!(announced, vec![(true, Some(1), 1)]);
    let mut api = ReplicatedPdApi::new(g);
    let c = api.timestamp_command(0, 3);
    let acts = api.group.handle(c).unwrap();
    let range = match &acts[..] {
        [Action::Timestamps { ticket: 3, range }] => *range,
        _ => panic!("one answer"),
    };
    let first = api.timestamp_reply(range).unwrap();
    assert_eq!(first.count, 1);
    let req = HeartbeatRequest {
        node_id: 4,
        address: "http://n4".into(),
        regions: vec![],
        tables: vec![],
    };
    let c = api.heartbeat_command(req, 100, 5);
    let assigned = match api.group.handle(c).unwrap().pop() {
        Some(Action::Assigned { ticket: 5, regions }) => regions,
        _ => panic!("one answer"),
    };
    let h = api.heartbeat_reply(assigned).unwrap();
    assert_eq!(h.regions.len(), 1);
    assert_eq!(h.catalog_version, api.group.fsm().catalog_version());
    assert_eq!(h.tables[0].name, "default");
    assert_eq!(api.list_tables().unwrap().tables.len(), 1);
    // The first node is given the whole keyspace.
    assert_eq!(api.get_region(b"k").unwrap().node_id, 4);
    assert_eq!(api.list_regions().unwrap().len(), 1);
    assert_eq!(api.sweep(10_000, 100), vec![4]);
    assert_eq!(api.get_region(b"k"), Err(PdStatus::NotFound));
    assert!(api.group.handle(Command::Stop).is_none());
}

// ---- the wire ---------------------------------------------------------------------------

#[test]
fn snapshots_and_missing_replies_cross_the_wire() {
    let out = Message {
        from: 1,
        to: 3,
        term: 7,
        body: MessageBody::InstallSnapshot {
            last_included_index: 12,
            last_included_term: 6,
            conf_state: vec![1, 2, 3],
            learners: vec![4],
            data: b"state".to_vec(),
        },
    };
    let req = install_snapshot_request(&out);
    assert_eq!(install_snapshot_request_to_msg(&req, 3), out);
    // The answer does not say how far it reaches: that is what was sent.
    let req = PeerRequest::Install(req);
    let resp = peer_response(
        &req,
        Some(&Message {
            from: 3,
            to: 1,
            term: 8,
            body: MessageBody::InstallSnapshotResp { match_index: 12 },
        }),
    );
    let back = peer_response_to_msg(&out, &resp, 3, 1).unwrap();
    assert_eq!((back.term, back.body), (8, MessageBody::InstallSnapshotResp { match_index: 12 }));
    // No reply is a refusal of term 0.
    let r = vote_response(None);
    assert_eq!((r.term, r.vote_granted), (0, false));
    let r = append_response(Some(&out));
    assert_eq!((r.term, r.success, r.match_index), (0, false, 0));
    assert_eq!(peer_request(&back_of(3)), None);
}

fn back_of(from: u64) -> Message {
    Message { from, to: 1, term: 1, body: MessageBody::RequestVoteResp { granted: true } }
}

#[test]
fn replica_sets_cross_the_wire() {
    let rs = ReplicaSet {
        region: region(3, b"a", b"b", 9),
        regime: Regime::Ap,
        voters: vec![1, 2],
        desired: vec![1, 2, 3],
    };
    let w = replica_set_to_proto(&rs);
    assert_eq!((w.node_id, w.address.as_str()), (0, ""));
    assert_eq!(replica_set_from_proto(&w), rs);
    assert_eq!(regime_from_proto(WireRegime::Unrecognized), Regime::Cp);
}

// ---- the format marker and the topology -------------------------------------------------

#[test]
fn a_fresh_directory_is_stamped_and_then_accepted() {
    let marker = check_or_init(None, true).expect("fresh directory").expect("the marker is written");
    assert_eq!(marker, b"arcux-format 2\n");
    // Idempotent: opening the same directory again is fine.
    assert_eq!(check_or_init(Some(&marker), false), Ok(None));
}

#[test]
fn a_directory_with_data_and_no_marker_is_refused() {
    // Exactly what a format-1 data directory looks like: files, no marker.
    let err = check_or_init(None, false).expect_err("an old directory must be refused");
    let text = err.message("data", "/d");
    assert!(text.contains("no migration"), "the error says what to do: {text}");
    assert!(text.starts_with("data directory '/d'"));
}

#[test]
fn a_marker_from_another_format_is_refused() {
    let err = check_or_init(Some(b"arcux-format 99\n"), false)
        .expect_err("a future format is refused");
    assert_eq!(err, FormatError::Other(99));
    let text = err.message("PD data", "/d");
    assert!(text.contains("format 99"), "the error names what it found: {text}");
}

#[test]
fn a_crashed_atomic_write_leaves_a_directory_that_is_not_fresh() {
    // A stray `regions.tmp` means this directory was in use, so it is not a fresh one to stamp.
    assert!(check_or_init(None, false).is_err());
}

#[test]
fn a_marker_that_cannot_be_read_is_refused() {
    for bad in [&b""[..], b"arcux-format", b"arcux-format two", b"other 2", b"\xff\xfe"] {
        assert_eq!(check_or_init(Some(bad), true), Err(FormatError::Unreadable));
    }
    // White space around the marker and its number does not matter.
    assert_eq!(check_or_init(Some(b" \tarcux-format   +2 \r\n"), true), Ok(None));
}

#[test]
fn a_topology_is_derived_or_given() {
    let (addrs, bind) = topology(2, Some(3), None, vec![]).unwrap();
    assert_eq!(bind, "127.0.0.1:2380");
    assert_eq!(addrs.len(), 3);
    assert_eq!(addrs[&3], "http://127.0.0.1:2381");
    assert_eq!(
        topology(4, Some(3), None, vec![]).err().map(|e| e.message()),
        Some("--node-id 4 must be in 1..=3".to_string())
    );
    assert_eq!(topology(1, None, None, vec![]).err(), Some(TopologyError::NoListen));
    let (addrs, bind) = topology(
        1,
        None,
        Some("10.0.0.1:2379".into()),
        vec![(2, "http://x".into()), (2, "http://y".into())],
    )
    .unwrap();
    assert_eq!(bind, "10.0.0.1:2379");
    assert_eq!(addrs[&1], "http://10.0.0.1:2379");
    assert_eq!(addrs[&2], "http://y");
    assert_eq!(as_uri("https://z"), "https://z");
}

// ---- the state machine ------------------------------------------------------------------

#[test]
fn every_cut_of_a_snapshot_is_refused_and_changes_nothing() {
    let mut a = PdFsm::new();
    a.apply(&PdCmd::ReserveTs { upper: 77 }.encode());
    declare(&mut a, "orders", Regime::Ap);
    heartbeat(&mut a, 1, vec![]);
    let image = a.snapshot();
    for n in 0..image.len() {
        let mut b = PdFsm::new();
        b.apply(&PdCmd::ReserveTs { upper: 5 }.encode());
        let before = b.snapshot();
        assert!(!b.restore(&image[..n]), "a cut at {n}");
        assert_eq!(b.snapshot(), before);
    }
    let mut b = PdFsm::new();
    assert!(b.restore(&image));
    assert_eq!(b.snapshot(), image);
}

/// A leader that has won but not yet committed an entry of its own may have no idea how far the
/// last one went: it hands out nothing until then.
#[test]
fn a_new_leader_hands_out_nothing_before_its_own_entry_is_applied() {
    let mut c = Cluster::new(&[1, 2, 3]);
    let old = c.elect_leader();
    let cmd = c.nodes.get(&old).unwrap().reserve_ts_cmd(8);
    c.commit(old, &cmd);
    let upper = c.nodes.get(&old).unwrap().fsm().tso_upper();
    assert_eq!(c.nodes.get_mut(&old).unwrap().hand_out(8), Some(0));
    c.kill(old);

    // Votes get through; nothing else does.
    let mut new = 0;
    for _ in 0..500 {
        let mut queue = Vec::new();
        for (id, r) in c.nodes.iter_mut() {
            if *id != old {
                r.tick();
                queue.extend(r.ready().messages);
            }
        }
        while let Some(m) = queue.pop() {
            let vote = matches!(
                m.body,
                MessageBody::RequestVote { .. } | MessageBody::RequestVoteResp { .. }
            );
            if vote && m.to != old {
                let r = c.nodes.get_mut(&m.to).unwrap();
                r.step(m);
                queue.extend(r.ready().messages);
            }
        }
        if let Some(id) = c.leader() {
            new = id;
            break;
        }
    }
    assert_ne!(new, 0, "someone took over");
    {
        let r = c.nodes.get_mut(&new).unwrap();
        assert_eq!(r.fsm().tso_upper(), upper);
        assert!(r.served() < upper, "its cursor is not reset yet");
        assert_eq!(r.hand_out(1), None);
    }

    // Once its entry is committed and applied, it goes on above everything that was reserved.
    c.tick();
    c.tick();
    let cmd = c.nodes.get(&new).unwrap().reserve_ts_cmd(1);
    c.commit(new, &cmd);
    assert_eq!(c.nodes.get_mut(&new).unwrap().hand_out(2), Some(upper));
    assert_eq!(c.nodes.get_mut(&new).unwrap().hand_out(1), Some(upper + 2));

    // The old leader, back and still sure of itself, only hands out what it had reserved.
    let stale = c.nodes.get_mut(&old).unwrap().hand_out(1);
    assert_eq!(stale, Some(8));
}

#[test]
fn a_replica_that_catches_up_by_snapshot_holds_the_same_state() {
    let mut c = Cluster::new(&[1, 2, 3]);
    let leader = c.elect_leader();
    let late = if leader == 3 { 2 } else { 3 };
    c.kill(late);
    c.commit(
        leader,
        &PdCmd::Heartbeat {
            node_id: 7,
            address: "http://node7".into(),
            regions: vec![ReplicaSet::bare(region(1, b"", b"m", 1))],
            now: 1_000,
        },
    );
    c.commit(
        leader,
        &PdCmd::DeclareTable { name: "orders".into(), regime: Regime::Ap },
    );
    for _ in 0..COMPACT_THRESHOLD {
        let cmd = c.nodes.get(&leader).unwrap().reserve_ts_cmd(4);
        c.commit(leader, &cmd);
    }
    assert!(c.nodes.get(&leader).unwrap().first_index() > 1, "the leader has compacted its log");
    assert_eq!(c.nodes.get(&late).unwrap().fsm().tso_upper(), 0);

    c.down.remove(&late);
    for _ in 0..200 {
        c.tick();
    }
    let states: Vec<Vec<u8>> = c.nodes.values().map(|r| r.fsm().snapshot()).collect();
    assert!(c.nodes.get(&late).unwrap().first_index() > 1, "it took the snapshot");
    assert!(states[0] == states[1] && states[1] == states[2]);
    assert!(c.nodes.get(&late).unwrap().fsm().tso_upper() > 0);
}

#[test]
fn the_version_goes_up_with_each_change_and_with_nothing_else() {
    let mut f = PdFsm::new();
    assert_eq!(f.catalog_version(), 1);
    f.apply(&PdCmd::ReserveTs { upper: 9 }.encode());
    f.apply(b"");
    f.apply(b"\xffnonsense");
    assert_eq!(f.catalog_version(), 1);
    // A new node, and with it the founding of the first region: one change.
    heartbeat(&mut f, 1, vec![]);
    assert_eq!(f.catalog_version(), 2);
    heartbeat(&mut f, 1, vec![]);
    assert_eq!(f.catalog_version(), 2);
    declare(&mut f, "orders", Regime::Ap);
    assert_eq!(f.catalog_version(), 3);
    declare(&mut f, "orders", Regime::Cp);
    declare(&mut f, "", Regime::Cp);
    declare(&mut f, DEFAULT_TABLE_NAME, Regime::Ap);
    assert_eq!(f.catalog_version(), 3);
    heartbeat(&mut f, 2, vec![]);
    assert_eq!(f.catalog_version(), 4);
    // A group that has grown.
    heartbeat(&mut f, 1, vec![(1, vec![1, 2])]);
    assert_eq!(f.catalog_version(), 5);
    heartbeat(&mut f, 1, vec![(1, vec![1, 2])]);
    assert_eq!(f.catalog_version(), 5);
    // A snapshot leaves the larger.
    let image = f.snapshot();
    let mut g = PdFsm::new();
    assert!(g.restore(&image));
    assert_eq!(g.catalog_version(), 5);
    let early = PdFsm::new().snapshot();
    assert!(g.restore(&early));
    assert_eq!(g.catalog_version(), 5);
}

#[test]
fn tables_are_listed_by_name_each_with_its_own_id() {
    let mut f = PdFsm::new();
    for name in ["zebra", "apple", "éclair", "mango", "apple"] {
        declare(&mut f, name, Regime::Ap);
    }
    let mut g = PdFsm::new();
    assert!(g.restore(&f.snapshot()));
    for m in [&f, &g] {
        let list: Vec<(String, u32)> =
            m.catalog().into_iter().map(|t| (t.name, t.id)).collect();
        let want = [("apple", 2), ("default", 0), ("mango", 4), ("zebra", 1), ("éclair", 3)];
        assert_eq!(list, want.map(|(n, i)| (n.to_string(), i)).to_vec());
        assert_eq!(m.next_table_id(), 5);
    }
}

#[test]
fn a_new_state_machine_restores_any_snapshot_whole() {
    let mut f = PdFsm::new();
    f.set_replicas(5);
    declare(&mut f, "orders", Regime::Ap);
    heartbeat(&mut f, 3, vec![]);
    heartbeat(&mut f, 4, vec![(1, vec![3, 4])]);
    f.apply(&PdCmd::ReserveTs { upper: 1 << 40 }.encode());
    assert_eq!(f.sweep(1_000_000, 10), vec![3, 4]);
    let mut g = PdFsm::new();
    g.set_replicas(5);
    assert!(g.restore(&f.snapshot()));
    assert_eq!(g.snapshot(), f.snapshot());
    assert_eq!(g.assignment(), f.assignment());
    assert_eq!(g.replicas(), 5);
    // What comes next comes to the same.
    for m in [&mut f, &mut g] {
        declare(m, "items", Regime::Cp);
        heartbeat(m, 4, vec![]);
    }
    assert_eq!(g.snapshot(), f.snapshot());
}

#[test]
fn a_group_is_told_its_replication_target() {
    let addrs: HashMap<u64, String> = [(1, "http://a".to_string())].into_iter().collect();
    let mut group = start_group(1, addrs);
    assert_eq!(group.fsm().replicas(), 3);
    group.set_replicas(2);
    assert_eq!(group.fsm().replicas(), 2);
    group.set_replicas(0);
    assert_eq!(group.fsm().replicas(), 1);
}

/// A replica that loses and wins leadership before its effects are drained has not reset its cursor
/// yet: another leader may have handed out what it still has.
#[test]
fn a_win_that_is_not_drained_yet_hands_out_nothing() {
    let mut r = PdReplica::new(1, vec![1]);
    elect(&mut r);
    let cmd = r.reserve_ts_cmd(4);
    r.propose(&cmd).unwrap();
    let _ = r.ready();
    let upper = r.fsm().tso_upper();
    assert_eq!(r.hand_out(4), Some(0));
    r.step(Message {
        from: 2,
        to: 1,
        term: 9,
        body: MessageBody::RequestVote { last_log_index: 0, last_log_term: 0 },
    });
    assert!(!r.is_leader());
    assert_eq!(r.hand_out(1), None);
    for _ in 0..40 {
        r.tick();
        if r.is_leader() {
            break;
        }
    }
    assert!(r.is_leader() && r.current_term() > 9);
    assert_eq!(r.hand_out(1), None, "the win is not drained");
    let _ = r.ready();
    let _ = r.ready();
    assert_eq!(r.served(), upper, "the cursor is behind everything that was reserved");
    let cmd = r.reserve_ts_cmd(1);
    r.propose(&cmd).unwrap();
    let _ = r.ready();
    assert_eq!(r.hand_out(1), Some(upper));
}
