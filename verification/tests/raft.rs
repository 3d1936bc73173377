//! The consensus core: nodes, their store, and whole clusters under partitions.

use std::collections::BTreeMap;

use arcux::raft::message::{ConfChange, Entry, EntryType, HardState, Message, MessageBody};
use arcux::raft::node::{Config, ProposeError, RaftNode, Role};
use arcux::raft::storage::{MemStorage, Snapshot, Storage};

fn node(id: u64, voters: &[u64]) -> RaftNode<MemStorage> {
    RaftNode::new(Config::new(id, voters.to_vec()), MemStorage::new())
}

#[test]
fn single_node_self_elects_on_timeout() {
    let mut n = node(1, &[1]);
    for _ in 0..40 {
        n.tick();
        if n.is_leader() {
            break;
        }
    }
    assert!(n.is_leader());
    assert_eq!(n.current_term(), 1);
}

#[test]
fn candidate_votes_for_itself_and_persists_term() {
    let mut n = node(1, &[1, 2, 3]);
    // Force an election by ticking past the timeout.
    for _ in 0..40 {
        n.tick();
        if n.role() == Role::Candidate {
            break;
        }
    }
    assert_eq!(n.role(), Role::Candidate);
    assert_eq!(n.voted_for(), Some(1));
    assert_eq!(n.storage().hard_state().current_term, n.current_term());
    assert_eq!(n.storage().hard_state().voted_for, Some(1));
}

#[test]
fn rejects_vote_for_shorter_log() {
    // A leader builds a 2-entry log, then a candidate with an empty log asks
    // for a vote in a higher term: the up-to-date check must reject it.
    let mut leader = node(1, &[1, 2, 3]);
    // Drive to candidate, then hand it a majority by injecting one granted
    // vote (self + node 2 = 2 of 3).
    for _ in 0..40 {
        leader.tick();
        if leader.role() == Role::Candidate {
            break;
        }
    }
    let term = leader.current_term();
    let _ = leader.take_messages();
    leader.step(Message {
        from: 2,
        to: 1,
        term,
        body: MessageBody::RequestVoteResp { granted: true },
    });
    assert!(leader.is_leader());
    // drain election traffic
    let _ = leader.take_messages();
    leader.propose(b"a".to_vec()).unwrap();
    leader.propose(b"b".to_vec()).unwrap();
    let _ = leader.take_messages();

    leader.step(Message {
        from: 2,
        to: 1,
        term: leader.current_term() + 5,
        body: MessageBody::RequestVote {
            last_log_index: 0,
            last_log_term: 0,
        },
    });
    let out = leader.take_messages();
    let granted = matches!(
        out.last().map(|m| &m.body),
        Some(MessageBody::RequestVoteResp { granted: true })
    );
    assert!(!granted, "must not vote for a candidate with a shorter log");
    // It did adopt the higher term, though.
    assert_eq!(leader.role(), Role::Follower);
}

fn ent(term: u64, index: u64) -> Entry {
    Entry::normal(term, index, vec![index as u8])
}

#[test]
fn stale_append_below_snapshot_is_ignored() {
    // With an async, reordering transport a follower can
    // receive an `AppendEntries` referencing entries it has already snapshotted away. It
    // must neither panic nor rewrite the immutable snapshot region.
    let mut n = node(2, &[1, 2, 3]);
    // Install a snapshot up to index 64 (as if the leader compacted past us).
    n.step(Message {
        from: 1,
        to: 2,
        term: 1,
        body: MessageBody::InstallSnapshot {
            last_included_index: 64,
            last_included_term: 1,
            conf_state: vec![1, 2, 3],
                learners: vec![],
            data: b"snap".to_vec(),
        },
    });
    assert_eq!(n.first_index(), 65);
    assert_eq!(n.last_log_index(), 64);
    assert_eq!(n.commit_index(), 64);
    let _ = n.take_snapshot(); // drain the installed snapshot
    let _ = n.take_messages();

    // A stale, fully-covered append (entries 1..=5) arrives late — trivially satisfied,
    // must not touch the log.
    n.step(Message {
        from: 1,
        to: 2,
        term: 1,
        body: MessageBody::AppendEntries {
            prev_log_index: 0,
            prev_log_term: 0,
            entries: (1..=5).map(|i| ent(1, i)).collect(),
            leader_commit: 64,
        },
    });
    assert_eq!(n.first_index(), 65, "snapshot boundary preserved");
    assert_eq!(n.last_log_index(), 64, "no entries below the snapshot were spliced in");
    // It acks its true match point (the snapshot index).
    let ack = n.take_messages();
    assert!(matches!(
        ack.last().map(|m| &m.body),
        Some(MessageBody::AppendEntriesResp { success: true, match_index: 64 })
    ));

    // A stale append that *starts* below the snapshot but extends above it must splice in
    // only the portion above the boundary (indices 65..=70).
    n.step(Message {
        from: 1,
        to: 2,
        term: 1,
        body: MessageBody::AppendEntries {
            prev_log_index: 0,
            prev_log_term: 0,
            entries: (1..=70).map(|i| ent(1, i)).collect(),
            leader_commit: 70,
        },
    });
    assert_eq!(n.last_log_index(), 70, "the above-snapshot tail was appended");
    assert_eq!(n.first_index(), 65, "snapshot boundary still intact");
    assert_eq!(n.storage().term(65), Some(1));
}

/// Drive a fresh node to leadership in a group where it holds a majority alone-ish; here we
/// use a single-node group so it self-elects, which is enough to exercise the leader-only
/// membership-change guards.
fn solo_leader(id: u64) -> RaftNode<MemStorage> {
    let mut n = node(id, &[id]);
    for _ in 0..40 {
        n.tick();
        if n.is_leader() {
            break;
        }
    }
    assert!(n.is_leader());
    n
}

#[test]
fn conf_change_is_effective_on_append_and_gated_one_at_a_time() {
    let mut n = solo_leader(1);
    assert_eq!(n.voters(), &[1]);

    // Adding a voter takes effect immediately (on append), before commit.
    let idx = n.propose_conf_change(ConfChange::AddNode(2)).unwrap();
    assert_eq!(n.voters(), &[1, 2]);
    assert!(idx >= 1);

    // A second change while the first is uncommitted is rejected (node 2 never acks in this
    // solo harness, so the AddNode stays pending).
    assert_eq!(
        n.propose_conf_change(ConfChange::AddNode(3)),
        Err(ProposeError::ConfChangeInProgress)
    );
}

#[test]
fn leader_refuses_to_remove_itself() {
    let mut n = solo_leader(1);
    // A leader can't remove *itself* (that needs a leadership transfer first, deferred).
    assert_eq!(
        n.propose_conf_change(ConfChange::RemoveNode(1)),
        Err(ProposeError::CannotRemoveLeader)
    );
}

#[test]
fn non_leader_conf_change_is_rejected() {
    let mut n = node(2, &[1, 2, 3]); // a follower
    assert_eq!(
        n.propose_conf_change(ConfChange::AddNode(4)),
        Err(ProposeError::NotLeader)
    );
}

#[test]
fn config_recovers_from_the_log_on_restart() {
    // A leader adds a voter, then we rebuild a node from the same durable storage: the
    // recovered config must include the added voter (derived from the log), not the stale
    // bootstrap config.
    let storage = {
        let mut n = solo_leader(1);
        n.propose_conf_change(ConfChange::AddNode(2)).unwrap();
        assert_eq!(n.voters(), &[1, 2]);
        n.storage().clone()
    };
    // Restart with the *bootstrap* config [1] — the log's ConfChange must override it.
    let restarted = RaftNode::new(Config::new(1, vec![1]), storage);
    assert_eq!(restarted.voters(), &[1, 2], "membership recovered from the log");
}



fn seed(count: u64) -> MemStorage {
    let mut s = MemStorage::new();
    s.append(&(1..=count).map(|i| ent(1, i)).collect::<Vec<_>>());
    s
}

#[test]
fn compact_drops_prefix_and_keeps_offset_math() {
    let mut s = seed(5);
    assert_eq!(s.first_index(), 1);
    assert_eq!(s.last_index(), 5);

    s.compact(3, 1, vec![1, 2, 3], vec![], b"snap@3".to_vec());

    // Boundary + offsets.
    assert_eq!(s.first_index(), 4);
    assert_eq!(s.last_index(), 5);
    assert_eq!(s.term(3), Some(1)); // snapshot boundary returns its term
    assert_eq!(s.term(2), None); // compacted away
    assert_eq!(s.term(4), Some(1)); // still in the log
    assert_eq!(s.term(0), Some(0)); // sentinel

    // Entries below first_index are gone; the tail survives with absolute indices.
    assert_eq!(s.entries(1, 5), vec![ent(1, 4), ent(1, 5)]);
    assert_eq!(s.entries(4, 5), vec![ent(1, 4), ent(1, 5)]);

    // Snapshot is retrievable.
    let snap = s.snapshot().unwrap();
    assert_eq!(snap.last_included_index, 3);
    assert_eq!(snap.last_included_term, 1);
    assert_eq!(snap.conf_state, vec![1, 2, 3]);
    assert_eq!(snap.data, b"snap@3");
}

#[test]
fn append_after_compaction_continues_at_absolute_index() {
    let mut s = seed(5);
    s.compact(5, 1, vec![], vec![], b"snap@5".to_vec());
    assert_eq!(s.first_index(), 6);
    assert_eq!(s.last_index(), 5); // no entries above the snapshot yet

    s.append(&[ent(2, 6), ent(2, 7)]);
    assert_eq!(s.last_index(), 7);
    assert_eq!(s.term(6), Some(2));
    assert_eq!(s.term(5), Some(1)); // boundary term from the snapshot
    assert_eq!(s.entries(6, 7), vec![ent(2, 6), ent(2, 7)]);
}

#[test]
fn compact_is_idempotent_and_ignores_stale_index() {
    let mut s = seed(5);
    s.compact(3, 1, vec![], vec![], b"a".to_vec());
    s.compact(2, 1, vec![], vec![], b"stale".to_vec()); // below current snapshot: ignored
    assert_eq!(s.first_index(), 4);
    assert_eq!(s.snapshot().unwrap().data, b"a");
}

#[test]
fn truncate_suffix_after_compaction() {
    let mut s = seed(6);
    s.compact(3, 1, vec![], vec![], b"snap".to_vec());
    s.truncate_suffix(5); // drop indices >= 5
    assert_eq!(s.last_index(), 4);
    assert_eq!(s.entries(4, 6), vec![ent(1, 4)]);

    // Truncating into the snapshot clears the whole tail.
    s.truncate_suffix(4);
    assert_eq!(s.last_index(), 3); // back to the snapshot boundary
    assert!(s.entries(4, 6).is_empty());
}

#[test]
fn apply_snapshot_supersedes_the_log() {
    let mut s = seed(5);
    s.apply_snapshot(Snapshot {
        last_included_index: 10,
        last_included_term: 4,
        conf_state: vec![1, 2, 3],
        learners: vec![],
        data: b"installed".to_vec(),
    });
    assert_eq!(s.first_index(), 11);
    assert_eq!(s.last_index(), 10);
    assert_eq!(s.term(10), Some(4));
    assert_eq!(s.term(5), None); // old log entries are gone
    assert!(s.entries(1, 10).is_empty());

    // Replication resumes above the installed snapshot.
    s.append(&[ent(4, 11)]);
    assert_eq!(s.last_index(), 11);
    assert_eq!(s.entries(11, 11), vec![ent(4, 11)]);
}

/// Tracks every entry each node has *applied* (taken via `take_committed`) and
/// asserts they never disagree at any index — State Machine Safety.
#[derive(Default)]
struct Checker {
    applied: BTreeMap<u64, Vec<Entry>>,
    // index -> the (term, data) first observed as applied there
    committed: BTreeMap<u64, (u64, Vec<u8>)>,
}

impl Checker {
    fn record(&mut self, id: u64, entries: Vec<Entry>) {
        let log = self.applied.entry(id).or_default();
        for e in entries {
            if let Some((term, data)) = self.committed.get(&e.index) {
                assert!(
                    *term == e.term && *data == e.data,
                    "STATE MACHINE SAFETY violated at index {}: node {id} applied \
                     (term {}, {:?}) but another node applied (term {}, {:?})",
                    e.index,
                    e.term,
                    e.data,
                    term,
                    data,
                );
            } else {
                self.committed.insert(e.index, (e.term, e.data.clone()));
            }
            // applied indices must be contiguous and monotonic per node
            assert_eq!(
                e.index,
                log.last().map(|p| p.index).unwrap_or(0) + 1,
                "node {id} applied index {} out of order",
                e.index
            );
            log.push(e);
        }
    }
}

struct Cluster {
    nodes: BTreeMap<u64, RaftNode<MemStorage>>,
    // partition id per node; two nodes can exchange messages iff equal.
    part: BTreeMap<u64, u32>,
    checker: Checker,
}

impl Cluster {
    fn new(ids: &[u64]) -> Self {
        let mut nodes = BTreeMap::new();
        let mut part = BTreeMap::new();
        for &id in ids {
            nodes.insert(id, RaftNode::new(Config::new(id, ids.to_vec()), MemStorage::new()));
            part.insert(id, 0);
        }
        Cluster {
            nodes,
            part,
            checker: Checker::default(),
        }
    }

    fn reachable(&self, a: u64, b: u64) -> bool {
        self.part[&a] == self.part[&b]
    }

    fn collect_applied(&mut self) {
        for (id, node) in self.nodes.iter_mut() {
            let committed = node.take_committed();
            if !committed.is_empty() {
                self.checker.record(*id, committed);
            }
        }
    }

    /// Deliver all in-flight messages until the cluster goes quiet.
    fn pump(&mut self) {
        for _ in 0..200_000 {
            let mut msgs = Vec::new();
            for node in self.nodes.values_mut() {
                msgs.extend(node.take_messages());
            }
            if msgs.is_empty() {
                break;
            }
            for m in msgs {
                if self.reachable(m.from, m.to) {
                    if let Some(dst) = self.nodes.get_mut(&m.to) {
                        dst.step(m);
                    }
                }
                // else: dropped at the partition boundary
            }
            self.collect_applied();
        }
        self.collect_applied();
        self.assert_election_safety();
    }

    fn tick(&mut self) {
        for node in self.nodes.values_mut() {
            node.tick();
        }
        self.pump();
    }

    fn tick_n(&mut self, n: usize) {
        for _ in 0..n {
            self.tick();
        }
    }

    /// The highest-term leader, if any.
    fn leader(&self) -> Option<u64> {
        let mut best: Option<(u64, u64)> = None;
        for (id, n) in &self.nodes {
            if n.role() == Role::Leader {
                let t = n.current_term();
                if best.map_or(true, |(bt, _)| t > bt) {
                    best = Some((t, *id));
                }
            }
        }
        best.map(|(_, id)| id)
    }

    fn run_until_leader(&mut self, max_ticks: usize) -> u64 {
        for _ in 0..max_ticks {
            self.tick();
            if let Some(l) = self.leader() {
                return l;
            }
        }
        panic!("no leader elected within {max_ticks} ticks");
    }

    fn propose(&mut self, leader: u64, data: &[u8]) -> u64 {
        let idx = self
            .nodes
            .get_mut(&leader)
            .unwrap()
            .propose(data.to_vec())
            .expect("argument must be the leader");
        self.pump();
        idx
    }

    /// Propose to whichever node currently believes itself leader (may be a
    /// minority leader whose entry never commits — that's fine, safety must hold
    /// regardless). No-op if there is no leader.
    fn try_propose(&mut self, data: &[u8]) {
        if let Some(l) = self.leader() {
            let _ = self.nodes.get_mut(&l).unwrap().propose(data.to_vec());
            self.pump();
        }
    }

    fn isolate(&mut self, id: u64) {
        *self.part.get_mut(&id).unwrap() = 10_000 + id as u32;
    }

    fn set_partition(&mut self, groups: &[&[u64]]) {
        for (g, members) in groups.iter().enumerate() {
            for &m in *members {
                *self.part.get_mut(&m).unwrap() = g as u32;
            }
        }
    }

    fn heal(&mut self) {
        for v in self.part.values_mut() {
            *v = 0;
        }
    }

    fn assert_election_safety(&self) {
        let mut leaders_by_term: BTreeMap<u64, u64> = BTreeMap::new();
        for (id, n) in &self.nodes {
            if n.role() == Role::Leader {
                if let Some(prev) = leaders_by_term.insert(n.current_term(), *id) {
                    panic!(
                        "ELECTION SAFETY violated: nodes {prev} and {id} both leader in term {}",
                        n.current_term()
                    );
                }
            }
        }
    }

    /// After healing + settling, every node's log must be byte-for-byte identical.
    fn assert_logs_converged(&self) {
        let mut iter = self.nodes.values();
        let first = iter.next().unwrap().log_entries();
        for n in self.nodes.values() {
            assert_eq!(
                n.log_entries(),
                first,
                "logs did not converge: node {} differs",
                n.id()
            );
        }
    }

    fn commit_index(&self, id: u64) -> u64 {
        self.nodes[&id].commit_index()
    }
    fn last_index(&self, id: u64) -> u64 {
        self.nodes[&id].last_log_index()
    }
}

// ---------------------------------------------------------------------------

#[test]
fn single_node_elects_and_commits() {
    let mut c = Cluster::new(&[1]);
    let leader = c.run_until_leader(50);
    assert_eq!(leader, 1);

    let i1 = c.propose(1, b"x");
    let i2 = c.propose(1, b"y");
    assert_eq!((i1, i2), (1, 2));
    assert_eq!(c.commit_index(1), 2);
    assert_eq!(
        c.checker.applied[&1],
        vec![
            Entry::normal(1, 1, b"x".to_vec()),
            Entry::normal(1, 2, b"y".to_vec()),
        ]
    );
}

#[test]
fn three_nodes_elect_exactly_one_leader() {
    let mut c = Cluster::new(&[1, 2, 3]);
    let leader = c.run_until_leader(60);
    let leaders: Vec<u64> = c
        .nodes
        .values()
        .filter(|n| n.role() == Role::Leader)
        .map(|n| n.id())
        .collect();
    assert_eq!(leaders, vec![leader], "exactly one leader");
    // followers agree on who the leader is
    for n in c.nodes.values() {
        if !n.is_leader() {
            assert_eq!(n.leader_id(), Some(leader));
        }
    }
}

#[test]
fn leader_replicates_and_commits_on_all() {
    let mut c = Cluster::new(&[1, 2, 3]);
    let leader = c.run_until_leader(60);
    let term = c.nodes[&leader].current_term();

    c.propose(leader, b"a");
    c.propose(leader, b"b");
    c.propose(leader, b"c");
    // let the advanced commit index ride out on the next heartbeats
    c.tick_n(3);

    let expected = vec![
        Entry::normal(term, 1, b"a".to_vec()),
        Entry::normal(term, 2, b"b".to_vec()),
        Entry::normal(term, 3, b"c".to_vec()),
    ];
    for id in [1, 2, 3] {
        assert_eq!(c.commit_index(id), 3, "node {id} commit index");
        assert_eq!(c.checker.applied[&id], expected, "node {id} applied log");
    }
}

#[test]
fn isolated_follower_catches_up_after_heal() {
    let mut c = Cluster::new(&[1, 2, 3]);
    let leader = c.run_until_leader(60);
    let follower = [1, 2, 3].into_iter().find(|x| *x != leader).unwrap();

    // Cut the follower off; the remaining two still form a majority and commit.
    c.isolate(follower);
    c.propose(leader, b"a");
    c.propose(leader, b"b");
    c.propose(leader, b"c");
    c.tick_n(3);
    assert_eq!(c.last_index(follower), 0, "isolated follower saw nothing");
    assert_eq!(c.commit_index(leader), 3, "majority still commits");

    // Reconnect: the leader rewinds next_index and back-fills the follower.
    c.heal();
    c.tick_n(8);
    assert_eq!(c.last_index(follower), 3);
    assert_eq!(c.commit_index(follower), 3);
    c.assert_logs_converged();
}

#[test]
fn minority_leader_cannot_commit_majority_elects_and_proceeds() {
    let mut c = Cluster::new(&[1, 2, 3, 4, 5]);
    let old_leader = c.run_until_leader(80);
    c.propose(old_leader, b"committed-before");
    c.tick_n(3);
    for id in 1..=5 {
        assert_eq!(c.commit_index(id), 1, "node {id} sees the pre-partition commit");
    }

    // Partition: old leader + one follower (minority) | the other three (majority).
    let others: Vec<u64> = (1..=5).filter(|x| *x != old_leader).collect();
    let minority = [old_leader, others[0]];
    let majority = [others[1], others[2], others[3]];
    c.set_partition(&[&minority, &majority]);

    // Old leader proposes into the minority: it replicates to its one reachable
    // follower but can never reach a 3-of-5 majority, so commit stays put.
    let _ = c.nodes.get_mut(&old_leader).unwrap().propose(b"stuck".to_vec());
    c.pump();
    c.tick_n(5);
    assert_eq!(c.commit_index(old_leader), 1, "minority leader is stuck at the old commit");

    // The majority side elects a fresh leader (higher term) and makes progress.
    let mut new_leader = None;
    for _ in 0..120 {
        c.tick();
        for &m in &majority {
            if c.nodes[&m].is_leader() {
                new_leader = Some(m);
            }
        }
        if new_leader.is_some() {
            break;
        }
    }
    let new_leader = new_leader.expect("majority must elect a leader");
    assert!(c.nodes[&new_leader].current_term() > c.nodes[&old_leader].current_term());

    let committed = c.propose(new_leader, b"after-partition");
    c.tick_n(3);
    for &m in &majority {
        assert_eq!(c.commit_index(m), committed, "majority commits the new entry");
    }

    // Heal: the old leader hears the higher term, steps down, and its
    // uncommitted "stuck" entry is overwritten by the majority's log.
    c.heal();
    c.tick_n(12);
    assert_eq!(c.nodes[&old_leader].role(), Role::Follower);
    c.assert_logs_converged();
    // The conflicting uncommitted write never became committed anywhere.
    assert!(
        c.checker
            .committed
            .values()
            .all(|(_, d)| d.as_slice() != b"stuck"),
        "an uncommitted minority write must never commit"
    );
}

#[test]
fn restart_preserves_term_vote_and_log() {
    let mut c = Cluster::new(&[1, 2, 3]);
    let leader = c.run_until_leader(60);
    c.propose(leader, b"a");
    let term = c.nodes[&leader].current_term();

    // Take the leader's durable state and rebuild a node from it: a reboot.
    let persisted = c.nodes[&leader].storage().clone();
    let restarted = RaftNode::new(Config::new(leader, vec![1, 2, 3]), persisted);

    assert_eq!(restarted.current_term(), term, "term survives restart");
    assert_eq!(restarted.last_log_index(), 1, "log survives restart");
    assert_eq!(restarted.voted_for(), Some(leader), "vote survives restart");
    assert_eq!(restarted.role(), Role::Follower, "role is volatile, comes back as follower");
    assert_eq!(restarted.commit_index(), 0, "commit index is volatile, rebuilt from leader");
}

#[test]
fn randomized_partitions_preserve_safety() {
    // Continuous fault injection: random partitions, heals and proposes. The
    // Checker asserts State Machine Safety after every single step; at the end we
    // heal and require full log convergence.
    for seed in 0..24u64 {
        let mut c = Cluster::new(&[1, 2, 3, 4, 5]);
        let mut rng = seed.wrapping_mul(0x9E37_79B9_7F4A_7C15) | 1;
        let mut next = || {
            rng ^= rng << 13;
            rng ^= rng >> 7;
            rng ^= rng << 17;
            rng
        };

        c.run_until_leader(100);
        let mut counter = 0u64;
        for _ in 0..160 {
            match next() % 6 {
                0 => {
                    // random two-way partition
                    let mut g0 = Vec::new();
                    let mut g1 = Vec::new();
                    for id in 1..=5u64 {
                        if next() % 2 == 0 {
                            g0.push(id);
                        } else {
                            g1.push(id);
                        }
                    }
                    c.set_partition(&[&g0, &g1]);
                }
                1 => c.heal(),
                _ => {}
            }
            if next() % 2 == 0 {
                counter += 1;
                c.try_propose(format!("v{counter}").as_bytes());
            }
            c.tick();
            // (Checker ran inside every pump; safety already asserted.)
        }

        // Heal, then settle on a single leader. Convergence of *uncommitted*
        // tails requires the new leader to actually produce entries of its own
        // term (a stale uncommitted tail is only overwritten on a conflicting
        // append — never truncated speculatively), so drive a few proposals.
        c.heal();
        c.tick_n(40);
        let leader = c.leader().expect("seed: a leader should exist after healing");
        for _ in 0..6 {
            counter += 1;
            c.propose(leader, format!("v{counter}").as_bytes());
        }
        c.tick_n(20);
        c.assert_logs_converged();
    }
}

// ---- more of each part --------------------------------------------------------------

#[test]
fn membership_changes_have_fixed_bytes() {
    let b = ConfChange::AddLearner(7).encode(&[1, 2], &[7]);
    let mut want = vec![3u8, 0, 0, 0, 0, 0, 0, 0, 7, 0, 0, 0, 2];
    want.extend_from_slice(&1u64.to_be_bytes());
    want.extend_from_slice(&2u64.to_be_bytes());
    want.extend_from_slice(&[0, 0, 0, 1]);
    want.extend_from_slice(&7u64.to_be_bytes());
    assert_eq!(b, want);
    assert_eq!(
        ConfChange::decode(&b),
        Some((ConfChange::AddLearner(7), vec![1, 2], vec![7]))
    );
    // Without the learner section there are no learners.
    assert_eq!(
        ConfChange::decode(&b[..29]),
        Some((ConfChange::AddLearner(7), vec![1, 2], vec![]))
    );
    assert_eq!(ConfChange::decode(&b[..12]), None);
    assert_eq!(ConfChange::decode(&[9; 13]), None);
    assert_eq!(ConfChange::RemoveNode(4).node_id(), 4);
}

#[test]
fn a_vote_is_given_once_in_a_term() {
    let mut n = node(1, &[1, 2, 3]);
    for (from, want) in [(2, true), (3, false), (2, true)] {
        n.step(Message {
            from,
            to: 1,
            term: 4,
            body: MessageBody::RequestVote { last_log_index: 0, last_log_term: 0 },
        });
        let out = n.take_messages();
        assert_eq!(
            out.last().map(|m| m.body.clone()),
            Some(MessageBody::RequestVoteResp { granted: want }),
            "candidate {from}"
        );
    }
    assert_eq!(
        n.storage().hard_state(),
        HardState { current_term: 4, voted_for: Some(2) }
    );
}

#[test]
fn a_learner_replicates_but_never_campaigns_or_counts() {
    let mut n = solo_leader(1);
    n.propose_conf_change(ConfChange::AddLearner(9)).unwrap();
    assert_eq!((n.voters(), n.learners()), (&[1][..], &[9][..]));
    // The lone voter is still a majority.
    assert_eq!(n.commit_index(), n.last_log_index());
    // A node outside of the voters does not start an election.
    let mut l = node(9, &[1]);
    for _ in 0..100 {
        l.tick();
    }
    assert_eq!(l.role(), Role::Follower);
    assert_eq!(l.current_term(), 0);
}

#[test]
fn a_requested_campaign_starts_at_once() {
    let mut n = node(1, &[1, 2, 3]);
    n.step(Message { from: 2, to: 1, term: 3, body: MessageBody::TimeoutNow });
    assert_eq!(n.role(), Role::Candidate);
    assert_eq!(n.current_term(), 4);
    let asked: Vec<u64> = n.take_messages().iter().map(|m| m.to).collect();
    assert_eq!(asked, vec![2, 3]);
}

#[test]
fn a_leader_sends_a_snapshot_for_what_it_compacted() {
    let mut n = solo_leader(1);
    for i in 0..5u8 {
        n.propose(vec![i]).unwrap();
    }
    let done = n.take_committed();
    assert_eq!(done.len(), 5);
    assert_eq!(done[0].entry_type, EntryType::Normal);
    n.compact(4, b"state@4".to_vec());
    assert_eq!(n.first_index(), 5);
    // A node that joins starts below the snapshot.
    n.propose_conf_change(ConfChange::AddNode(2)).unwrap();
    let out = n.take_messages();
    match &out.last().unwrap().body {
        MessageBody::InstallSnapshot { last_included_index, data, conf_state, .. } => {
            assert_eq!(*last_included_index, 4);
            assert_eq!(data, b"state@4");
            assert_eq!(conf_state, &vec![1]);
        }
        other => panic!("expected a snapshot, got {other:?}"),
    }
}

#[test]
fn messages_that_no_node_sends_are_told_apart() {
    let mut m = Message {
        from: 1,
        to: 2,
        term: 1,
        body: MessageBody::AppendEntries {
            prev_log_index: 4,
            prev_log_term: 1,
            entries: vec![ent(1, 5), ent(1, 6)],
            leader_commit: 0,
        },
    };
    assert!(m.well_formed());
    if let MessageBody::AppendEntries { prev_log_index, .. } = &mut m.body {
        *prev_log_index = 3; // a gap
    }
    assert!(!m.well_formed());
}

#[test]
fn safety_holds_while_members_come_and_go() {
    let mut c = Cluster::new(&[1, 2, 3]);
    for id in [4, 5] {
        c.nodes.insert(id, node(id, &[1, 2, 3]));
        c.part.insert(id, 0);
    }
    let leader = c.run_until_leader(100);
    assert!(leader <= 3, "only a voter campaigns");
    c.propose(leader, b"a");
    for id in [4, 5] {
        let at = c.nodes.get_mut(&leader).unwrap().propose_conf_change(ConfChange::AddNode(id));
        c.pump();
        c.tick_n(3);
        assert!(c.commit_index(leader) >= at.unwrap());
    }
    assert_eq!(c.nodes[&5].voters(), &[1, 2, 3, 4, 5]);
    // The newcomers count: with two of the first three gone there is still a majority.
    let gone: Vec<u64> = (1..=3).filter(|id| *id != leader).collect();
    c.isolate(gone[0]);
    c.isolate(gone[1]);
    let at = c.propose(leader, b"b");
    assert!(c.commit_index(leader) >= at);
    // One that is gone is removed, and a new leader is found without it.
    c.nodes.get_mut(&leader).unwrap().propose_conf_change(ConfChange::RemoveNode(gone[0])).unwrap();
    c.pump();
    c.isolate(leader);
    c.set_partition(&[&[gone[1], 4, 5]]);
    c.tick_n(120);
    let next = c.leader().unwrap();
    assert!(next != leader && next != gone[0]);
    let at = c.propose(next, b"c");
    assert!(c.commit_index(next) >= at);
    assert_eq!(c.nodes[&next].voters().len(), 4);
    c.set_partition(&[&[gone[1], leader, 4, 5]]);
    c.tick_n(60);
    assert_eq!(c.nodes[&leader].log_entries(), c.nodes[&next].log_entries());
}

#[test]
fn a_late_answer_takes_nothing_back() {
    let mut n = node(1, &[1, 2, 3]);
    while n.role() != Role::Candidate {
        n.tick();
    }
    let term = n.current_term();
    n.step(Message { from: 2, to: 1, term, body: MessageBody::RequestVoteResp { granted: true } });
    assert!(n.is_leader());
    for i in 0..3u8 {
        n.propose(vec![i]).unwrap();
    }
    for match_index in [3, 1] {
        n.step(Message {
            from: 2,
            to: 1,
            term,
            body: MessageBody::AppendEntriesResp { success: true, match_index },
        });
    }
    assert_eq!(n.commit_index(), 3);
    n.take_messages();
    n.tick();
    let sent = n.take_messages();
    let prev = sent.iter().find(|m| m.to == 2).map(|m| match &m.body {
        MessageBody::AppendEntries { prev_log_index, entries, .. } => {
            (*prev_log_index, entries.len())
        }
        other => panic!("expected entries, got {other:?}"),
    });
    assert_eq!(prev, Some((3, 0)), "what member 2 has confirmed is not sent again");
}

#[test]
fn terms_go_by_one_rule_whatever_the_message() {
    let bodies = || {
        vec![
            MessageBody::RequestVote { last_log_index: 0, last_log_term: 0 },
            MessageBody::RequestVoteResp { granted: false },
            MessageBody::AppendEntries {
                prev_log_index: 0,
                prev_log_term: 0,
                entries: Vec::new(),
                leader_commit: 0,
            },
        ]
    };
    for term in [1, 3, 9, u64::MAX] {
        for body in bodies() {
            let mut n = node(1, &[1, 2, 3]);
            n.step(Message {
                from: 2,
                to: 1,
                term: 3,
                body: MessageBody::RequestVote { last_log_index: 0, last_log_term: 0 },
            });
            assert_eq!((n.current_term(), n.voted_for()), (3, Some(2)));
            n.step(Message { from: 3, to: 1, term, body });
            assert_eq!(n.current_term(), term.max(3));
            if term > 3 {
                assert_eq!(n.role(), Role::Follower);
            } else {
                assert_eq!(n.voted_for(), Some(2), "one vote in a term");
            }
            let hard = n.storage().hard_state();
            assert_eq!(hard.current_term, n.current_term());
            assert_eq!(hard.voted_for, n.voted_for());
        }
    }
}
