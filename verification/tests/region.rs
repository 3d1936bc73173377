//! Regions: routing, splitting, and what is saved of them.

use arcux::pd::region::{
    table_id_of, table_key, table_prefix, Region, RegionError, RegionRegistry,
};

#[test]
fn whole_keyspace_routes_everything() {
    let reg = RegionRegistry::in_memory();
    assert_eq!(reg.route(b"").unwrap().id, 1);
    assert_eq!(reg.route(b"anything").unwrap().id, 1);
    assert_eq!(reg.route(&[0xff; 32]).unwrap().id, 1);
}

#[test]
fn split_partitions_keyspace_and_bumps_epoch() {
    let mut reg = RegionRegistry::in_memory();
    let (left, right) = reg.split(b"m").unwrap();

    assert_eq!(left.id, 1);
    assert_eq!(left.start, b"");
    assert_eq!(left.end, b"m");
    assert_eq!(left.epoch, 2, "split bumps the original region's epoch");
    assert_eq!(right.start, b"m");
    assert_eq!(right.end, b"");
    assert_eq!(right.epoch, 2);
    assert_ne!(right.id, left.id, "right half gets a fresh id");

    // Routing now respects the boundary.
    assert_eq!(reg.route(b"a").unwrap().id, left.id);
    assert_eq!(reg.route(b"m").unwrap().id, right.id, "boundary is inclusive on the right half");
    assert_eq!(reg.route(b"z").unwrap().id, right.id);

    // A second split nests correctly.
    let (l2, r2) = reg.split(b"t").unwrap();
    assert_eq!(l2.id, right.id);
    assert_eq!(l2.end, b"t");
    assert_eq!(r2.start, b"t");
    assert_eq!(reg.list().len(), 3);
}

#[test]
fn split_rejects_boundary_and_outside_keys() {
    let mut reg = RegionRegistry::in_memory();
    reg.split(b"m").unwrap();
    // Splitting exactly at an existing region start is a no-op slice → rejected.
    assert!(reg.split(b"m").is_err());
    // Empty key cannot split (it equals every region's −∞ start).
    assert!(reg.split(b"").is_err());
}

#[test]
fn persists_and_reloads() {
    let saved = {
        let mut reg = RegionRegistry::open(None).unwrap();
        reg.split(b"m").unwrap();
        reg.split(b"t").unwrap();
        reg.encode()
    };
    let reg = RegionRegistry::open(Some(&saved)).unwrap();
    let regions = reg.list();
    assert_eq!(regions.len(), 3);
    // Epoch survives the reload — critical, or a restarted node could accept a
    // stale client's epoch.
    assert_eq!(reg.route(b"a").unwrap().epoch, 2);
    assert_eq!(reg.route(b"z").unwrap().end, b"");
}

#[test]
fn replace_adopts_reported_regions() {
    let mut pd = RegionRegistry::empty();
    assert!(pd.route(b"k").is_none());
    pd.replace(vec![
        Region { id: 5, start: b"".to_vec(), end: b"m".to_vec(), epoch: 3 },
        Region { id: 9, start: b"m".to_vec(), end: b"".to_vec(), epoch: 3 },
    ]);
    assert_eq!(pd.route(b"a").unwrap().id, 5);
    assert_eq!(pd.route(b"z").unwrap().id, 9);
}

#[test]
fn a_split_says_why_it_is_refused() {
    let mut reg = RegionRegistry::in_memory();
    reg.split(b"m").unwrap();
    assert_eq!(reg.split(b"m"), Err(RegionError::AtStart));
    let mut none = RegionRegistry::empty();
    assert_eq!(none.split(b"k"), Err(RegionError::Outside));
    assert_ne!(RegionError::AtStart.message(), RegionError::Outside.message());
}

#[test]
fn a_damaged_region_file_is_refused() {
    let mut reg = RegionRegistry::in_memory();
    reg.split(b"m").unwrap();
    let saved = reg.encode();
    assert_eq!(
        RegionRegistry::open(Some(&saved[..saved.len() - 1])).err(),
        Some(RegionError::Corrupt)
    );
    // A failed load leaves what is there.
    let mut other = RegionRegistry::empty();
    other.replace(vec![Region { id: 4, start: vec![], end: vec![], epoch: 9 }]);
    assert!(!other.decode_from(&saved[..5]));
    assert_eq!(other.route(b"x").unwrap().id, 4);
    assert!(other.decode_from(&saved));
    assert_eq!(other.list(), reg.list());
}

#[test]
fn after_any_splits_every_key_has_one_region() {
    let mut reg = RegionRegistry::in_memory();
    for k in [&b"m"[..], b"c", b"t", b"mm", b"a", b"zz"] {
        reg.split(k).unwrap();
    }
    let all = reg.list();
    assert_eq!(all.len(), 7);
    assert!(all[0].start.is_empty() && all[6].end.is_empty());
    for w in all.windows(2) {
        assert_eq!(w[0].end, w[1].start);
    }
    for k in [&b""[..], b"a", b"b", b"m", b"ma", b"mz", b"zzz"] {
        let holders: Vec<u64> =
            all.iter().filter(|r| r.contains(k)).map(|r| r.id).collect();
        assert_eq!(holders.len(), 1);
        assert_eq!(reg.route(k).unwrap().id, holders[0]);
        assert_eq!(reg.by_id(holders[0]).unwrap().id, holders[0]);
    }
}

#[test]
fn a_key_carries_its_table() {
    assert_eq!(table_prefix(258), [0, 0, 1, 2]);
    assert_eq!(table_key(258, b"k"), vec![0, 0, 1, 2, b'k']);
    assert_eq!(table_id_of(&table_key(77, b"")), 77);
    assert_eq!(table_id_of(b"abc"), 0);
}
