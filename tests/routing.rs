use curve25519_dalek::edwards::CompressedEdwardsY;
use r5n::{log2_xor_dist, Peer, PeerId, RoutingTable};

fn peer(n: u8) -> Peer {
    let mut key = [0u8; 32];
    key[0] = n;
    key[31] = n.wrapping_mul(31);
    Peer(CompressedEdwardsY(key))
}

fn host() -> PeerId {
    PeerId([0; 64])
}

#[test]
fn empty_table_has_no_eviction_candidate() {
    let table = RoutingTable::new(host());
    assert_eq!(table.len(), 0);
    for d in [0u16, 1, 256, 511, 512, 513, 1000] {
        assert_eq!(table.last_k(d), None);
        assert_eq!(table.count(d), 0);
    }
}

#[test]
fn bucket_counts_and_latest_route() {
    let mut table = RoutingTable::new(host());
    let h = host();
    let mut dists = Vec::new();
    for n in 0..40u8 {
        let p = peer(n);
        dists.push(log2_xor_dist(&h, &p.id()));
        // created out of order: later peers are not always younger
        let created = ((n as u64) * 7919) % 101;
        assert!(table.insert(p, created).is_ok());
    }
    assert_eq!(table.len(), 40);
    for d in 0..=512u16 {
        let members: Vec<usize> = (0..40).filter(|i| dists[*i] == d).collect();
        assert_eq!(table.count(d), members.len());
        match table.last_k(d) {
            None => assert!(members.is_empty()),
            Some(i) => {
                let latest = members
                    .iter()
                    .map(|n| ((*n as u64) * 7919) % 101)
                    .max()
                    .unwrap();
                let r = table.route(i);
                assert_eq!(r.dist, d);
                assert_eq!(r.created, latest);
            }
        }
    }
    // routes are sorted by distance, then creation
    for i in 1..table.len() {
        let a = table.route(i - 1);
        let b = table.route(i);
        assert!((a.dist, a.created) <= (b.dist, b.created));
    }
}

#[test]
fn same_distance_created_and_key_is_replaced() {
    let mut table = RoutingTable::new(host());
    assert!(table.insert(peer(9), 5).is_ok());
    let d = log2_xor_dist(&host(), &peer(9).id());
    assert_eq!(table.count(d), 1);
    match table.insert(peer(9), 5) {
        Err(old) => assert_eq!(old.0 .0, peer(9).0 .0),
        Ok(()) => panic!("expected the previous route back"),
    }
    assert_eq!(table.len(), 1);
    assert_eq!(table.count(d), 1);
    // a later connection of the same peer is a new route
    assert!(table.insert(peer(9), 6).is_ok());
    assert_eq!(table.len(), 2);
    assert_eq!(table.count(d), 2);
    assert_eq!(table.last_k(d), Some(1));
    assert_eq!(table.route(1).created, 6);
}

#[test]
fn equal_creation_orders_by_key_bytes() {
    let mut table = RoutingTable::new(host());
    let h = host();
    // find two peers at the same distance
    let mut found = None;
    'outer: for a in 0..60u8 {
        for b in (a + 1)..60u8 {
            if log2_xor_dist(&h, &peer(a).id()) == log2_xor_dist(&h, &peer(b).id()) {
                found = Some((a, b));
                break 'outer;
            }
        }
    }
    let (a, b) = found.unwrap();
    assert!(table.insert(peer(b), 3).is_ok());
    assert!(table.insert(peer(a), 3).is_ok());
    assert_eq!(table.route(0).peer.0 .0, peer(a).0 .0);
    assert_eq!(table.route(1).peer.0 .0, peer(b).0 .0);
    let d = log2_xor_dist(&h, &peer(a).id());
    assert_eq!(table.last_k(d), Some(1));
}

#[test]
fn peers_compare_by_key_bytes() {
    assert!(peer(1) == peer(1));
    assert!(peer(1) != peer(2));
    assert!(peer(1) < peer(2));
    assert!(peer(3) > peer(2));
    assert_eq!(peer(4).partial_cmp(&peer(4)), Some(std::cmp::Ordering::Equal));
}

#[test]
fn remove_takes_out_the_first_route_of_a_peer() {
    let mut table = RoutingTable::new(host());
    assert!(table.insert(peer(1), 10).is_ok());
    assert!(table.insert(peer(2), 11).is_ok());
    assert!(table.insert(peer(1), 12).is_ok());
    let d1 = log2_xor_dist(&host(), &peer(1).id());
    let before = table.count(d1);
    let r = table.remove(&peer(1)).unwrap();
    assert_eq!(r.created, 10);
    assert_eq!(r.dist, d1);
    assert_eq!(table.len(), 2);
    assert_eq!(table.count(d1), before - 1);
    let r = table.remove(&peer(1)).unwrap();
    assert_eq!(r.created, 12);
    assert!(table.remove(&peer(1)).is_none());
    assert_eq!(table.len(), 1);
    assert!(table.remove(&peer(3)).is_none());
    assert_eq!(table.route(0).peer.0 .0, peer(2).0 .0);
}
