//! Nodes, what they report, and the routing that comes of it.

use arcux::pd::cluster::{regime_of, Membership, Regime, ReplicaSet};
use arcux::pd::region::Region;

fn region(id: u64, start: &[u8], end: &[u8], epoch: u64) -> Region {
    Region { id, start: start.to_vec(), end: end.to_vec(), epoch }
}

/// Report bare regions: no regime, no voters, no declared tables.
fn hb(m: &mut Membership, id: u64, addr: &str, regions: Vec<Region>, now: u64) -> Vec<Region> {
    m.heartbeat(id, addr.into(), regions.into_iter().map(ReplicaSet::bare).collect(), vec![], now)
        .into_iter()
        .map(|rs| rs.region)
        .collect()
}

/// Report declared tables only, with no regions.
fn hb_tables(m: &mut Membership, id: u64, addr: &str, tables: Vec<(&str, Regime)>, now: u64) {
    let tables = tables.into_iter().map(|(n, r)| (n.to_string(), r)).collect();
    m.heartbeat(id, addr.into(), vec![], tables, now);
}

#[test]
fn a_reported_region_keeps_its_regime_and_replica_set() {
    // `node_id` names one holder; `voters` is what lets PD describe a three-voter region.
    let mut m = Membership::new();
    let rs = ReplicaSet {
        region: region(1, b"", b"", 1),
        regime: Regime::Ap,
        voters: vec![1, 2, 3],
        desired: vec![],
    };
    m.heartbeat(1, "http://a".into(), vec![rs], vec![], 100);

    let placed = m.route(b"k").unwrap();
    assert_eq!(placed.regime, Regime::Ap);
    assert_eq!(placed.voters, vec![1, 2, 3]);
}

#[test]
fn tables_union_across_nodes() {
    let mut m = Membership::new();
    hb_tables(&mut m, 1, "http://a", vec![("ledger", Regime::Cp)], 100);
    hb_tables(&mut m, 2, "http://b", vec![("events", Regime::Ap), ("ledger", Regime::Cp)], 100);

    assert_eq!(
        m.tables(),
        vec![("events".to_string(), Regime::Ap), ("ledger".to_string(), Regime::Cp)]
    );
    assert!(m.table_conflicts().is_empty(), "agreeing nodes are not a conflict");
}

#[test]
fn a_table_two_nodes_declare_differently_is_a_conflict() {
    // The silent misconfiguration this exists to catch: the nodes tile the keyspace
    // differently and route the same keys to different regimes, with nothing to notice.
    let mut m = Membership::new();
    hb_tables(&mut m, 1, "http://a", vec![("events", Regime::Ap)], 100);
    hb_tables(&mut m, 2, "http://b", vec![("events", Regime::Cp)], 100);

    let conflicts = m.table_conflicts();
    assert_eq!(conflicts.len(), 1);
    let c = &conflicts[0];
    assert_eq!(c.name, "events");
    assert_eq!((c.node_id, c.regime), (1, Regime::Ap));
    assert_eq!((c.other_node_id, c.other_regime), (2, Regime::Cp));
}

#[test]
fn encode_decode_round_trips_every_node_field() {
    let mut a = Membership::new();
    // Node 1 carries the interesting shape: a regime, a replica set, and a declared table.
    // If any of these were dropped here, PD's log compaction would silently lose them.
    a.heartbeat(
        1,
        "http://n1".into(),
        vec![ReplicaSet {
            region: region(1, b"", b"m", 2),
            regime: Regime::Ap,
            voters: vec![1, 2, 3],
            desired: vec![],
        }],
        vec![("events".to_string(), Regime::Ap)],
        8_900,
    );
    hb(&mut a, 2, "http://n2", vec![region(2, b"m", b"", 2)], 1_000);
    // Only node 2 is stale, so the down flag has something to carry and node 1 still routes.
    assert_eq!(a.sweep(9_000, 1_000), vec![2]);

    let mut bytes = Vec::new();
    a.encode_into(&mut bytes);
    let mut b = Membership::new();
    assert_eq!(b.decode_from(&bytes), Some(()));

    assert_eq!(b.list().len(), a.list().len());
    let placed = b.route(b"a").expect("address and regions survive");
    assert_eq!(placed.node_id, 1);
    assert_eq!(placed.regime, Regime::Ap, "the regime survives");
    assert_eq!(placed.voters, vec![1, 2, 3], "the replica set survives");
    assert_eq!(b.tables(), vec![("events".to_string(), Regime::Ap)], "declarations survive");
    assert!(!b.is_down(1));
    assert!(b.is_down(2), "the down flag survives");
}

#[test]
fn a_truncated_image_is_rejected_and_leaves_state_alone() {
    let mut m = Membership::new();
    hb(&mut m, 1, "http://n1", vec![region(1, b"", b"", 1)], 1_000);
    let mut bytes = Vec::new();
    m.encode_into(&mut bytes);

    let mut victim = Membership::new();
    hb(&mut victim, 9, "http://n9", vec![region(1, b"", b"", 1)], 1_000);
    assert_eq!(victim.decode_from(&bytes[..bytes.len() - 3]), None);
    assert_eq!(victim.route(b"k").map(|p| p.node_id), Some(9), "state untouched");
}

#[test]
fn fresh_cluster_bootstraps_whole_keyspace_to_first_node() {
    let mut m = Membership::new();
    let assigned = hb(&mut m, 1, "http://a", vec![], 100);
    assert_eq!(assigned, vec![region(1, b"", b"", 1)]);
    // Everything routes to node 1.
    let p = m.route(b"anything").unwrap();
    assert_eq!((p.node_id, p.address.as_str()), (1, "http://a"));
}

#[test]
fn second_node_does_not_clobber_the_first() {
    let mut m = Membership::new();
    // Node 1 owns [-inf, m); node 2 owns [m, +inf).
    hb(&mut m, 1, "http://a", vec![region(1, b"", b"m", 2)], 100);
    hb(&mut m, 2, "http://b", vec![region(2, b"m", b"", 2)], 100);

    // Both nodes' regions coexist.
    assert_eq!(m.route(b"a").unwrap().node_id, 1);
    assert_eq!(m.route(b"z").unwrap().node_id, 2);
    assert_eq!(m.list().len(), 2);
}

#[test]
fn seed_places_regions_across_nodes_on_first_heartbeat() {
    let mut m = Membership::seeded(vec![
        (region(1, b"", b"m", 1), 1),
        (region(2, b"m", b"", 1), 2),
    ]);
    // Each node reports empty and receives its seed partition.
    assert_eq!(hb(&mut m, 1, "http://a", vec![], 100), vec![region(1, b"", b"m", 1)]);
    assert_eq!(hb(&mut m, 2, "http://b", vec![], 100), vec![region(2, b"m", b"", 1)]);
    assert_eq!(m.route(b"a").unwrap().address, "http://a");
    assert_eq!(m.route(b"z").unwrap().address, "http://b");
}

#[test]
fn failure_detector_marks_a_silent_node_down() {
    let mut m = Membership::new();
    hb(&mut m, 1, "http://a", vec![region(1, b"", b"", 1)], 1000);
    // Not yet past the timeout.
    assert!(m.sweep(1500, 1000).is_empty());
    assert!(!m.is_down(1));
    // Past the timeout → marked down, and its regions leave the routing view.
    assert_eq!(m.sweep(2500, 1000), vec![1]);
    assert!(m.is_down(1));
    assert!(m.route(b"x").is_none());
    // A fresh heartbeat revives it.
    hb(&mut m, 1, "http://a", vec![region(1, b"", b"", 1)], 3000);
    assert!(!m.is_down(1));
    assert!(m.route(b"x").is_some());
}

#[test]
fn restarted_node_reporting_its_regions_is_taken_at_its_word() {
    let mut m = Membership::seeded(vec![(region(1, b"", b"", 1), 1)]);
    // After a split the node reports two regions; PD echoes them, not the seed.
    let reported = vec![region(1, b"", b"m", 2), region(7, b"m", b"", 2)];
    let assigned = hb(&mut m, 1, "http://a", reported.clone(), 100);
    assert_eq!(assigned, reported);
    assert_eq!(m.route(b"z").unwrap().region.id, 7);
}

#[test]
fn regimes_have_fixed_tags() {
    assert_eq!(regime_of(Regime::Cp.tag()), Some(Regime::Cp));
    assert_eq!(regime_of(Regime::Ap.tag()), Some(Regime::Ap));
    assert_eq!(regime_of(200), None);
    assert_eq!(Regime::default(), Regime::Cp);
}

#[test]
fn live_nodes_and_their_addresses_are_listed_in_order() {
    let mut m = Membership::new();
    hb(&mut m, 5, "http://e", vec![], 100);
    hb(&mut m, 2, "http://b", vec![region(9, b"x", b"", 1)], 5_000);
    assert_eq!(m.live_nodes(), vec![2, 5]);
    assert_eq!(m.sweep(5_500, 1_000), vec![5]);
    assert_eq!(m.live_nodes(), vec![2]);
    assert!(m.knows(5) && !m.knows(6));
    assert_eq!(
        m.node_addrs(),
        vec![(2, "http://b".to_string()), (5, "http://e".to_string())]
    );
}

#[test]
fn every_cut_of_an_image_is_refused() {
    let mut m = Membership::new();
    hb(&mut m, 1, "http://n1", vec![region(1, b"", b"k", 1), region(2, b"k", b"", 4)], 1_000);
    hb_tables(&mut m, 2, "http://n2", vec![("events", Regime::Ap)], 1_000);
    let mut bytes = Vec::new();
    m.encode_into(&mut bytes);
    for n in 0..bytes.len() {
        let mut other = Membership::new();
        assert_eq!(other.decode_from(&bytes[..n]), None);
        assert!(other.list().is_empty());
    }
}
