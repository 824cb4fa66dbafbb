use curve25519_dalek::edwards::CompressedEdwardsY;
use r5n::bloom::{BloomFilter, PeerBloomFilter};
use r5n::Peer;

#[test]
fn happy() {
    let mut bloom = PeerBloomFilter::default();
    let bloom = bloom.get_mut();

    let peer1 = Peer(CompressedEdwardsY([1; 32])).id();
    let peer2 = Peer(CompressedEdwardsY([2; 32])).id();
    let peer3 = Peer(CompressedEdwardsY([3; 32])).id();

    // none of the peers should be in the set
    assert!(!bloom.test(&peer1.0));
    assert!(!bloom.test(&peer2.0));
    assert!(!bloom.test(&peer3.0));

    // only peer1 should be in the set
    bloom.insert(&peer1.0);
    assert!(bloom.test(&peer1.0));
    assert!(!bloom.test(&peer2.0));
    assert!(!bloom.test(&peer3.0));

    // peer1 and peer2 should be in the set
    bloom.insert(&peer2.0);
    assert!(bloom.test(&peer1.0));
    assert!(bloom.test(&peer2.0));
    assert!(!bloom.test(&peer3.0));

    // all should be in the set
    bloom.insert(&peer3.0);
    assert!(bloom.test(&peer1.0));
    assert!(bloom.test(&peer2.0));
    assert!(bloom.test(&peer3.0));
}

#[test]
fn vec() {
    let mut bloom = BloomFilter::new(128).unwrap();

    let peer1 = Peer(CompressedEdwardsY([1; 32])).id();
    let peer2 = Peer(CompressedEdwardsY([2; 32])).id();
    let peer3 = Peer(CompressedEdwardsY([3; 32])).id();

    // none of the peers should be in the set
    assert!(!bloom.test(&peer1.0));
    assert!(!bloom.test(&peer2.0));
    assert!(!bloom.test(&peer3.0));

    // only peer1 should be in the set
    bloom.insert(&peer1.0);
    assert!(bloom.test(&peer1.0));
    assert!(!bloom.test(&peer2.0));
    assert!(!bloom.test(&peer3.0));

    // peer1 and peer2 should be in the set
    bloom.insert(&peer2.0);
    assert!(bloom.test(&peer1.0));
    assert!(bloom.test(&peer2.0));
    assert!(!bloom.test(&peer3.0));

    // all should be in the set
    bloom.insert(&peer3.0);
    assert!(bloom.test(&peer1.0));
    assert!(bloom.test(&peer2.0));
    assert!(bloom.test(&peer3.0));
}

#[test]
fn new_needs_power_of_two_of_at_least_eight() {
    assert!(BloomFilter::new(0).is_none());
    assert!(BloomFilter::new(4).is_none());
    assert!(BloomFilter::new(7).is_none());
    assert!(BloomFilter::new(100).is_none());
    let f = BloomFilter::new(8).unwrap();
    assert_eq!(f.as_bytes().len(), 1);
    let f = BloomFilter::new(1 << 20).unwrap();
    assert_eq!(f.as_bytes().len(), 1 << 17);
    assert!(f.as_bytes().iter().all(|b| *b == 0));
}

#[test]
fn from_needs_power_of_two_length() {
    assert!(BloomFilter::from(vec![]).is_none());
    assert!(BloomFilter::from(vec![0; 3]).is_none());
    assert!(BloomFilter::from(vec![0; 1]).is_some());
    let f = BloomFilter::from(vec![0xff; 4]).unwrap();
    assert!(f.test(&[0x5a; 64]));
    assert_eq!(f.into_bytes(), vec![0xff; 4]);
}

#[test]
fn insert_sets_exactly_the_selected_bits() {
    // every word of this key is 0x0000_0009: bit 1 of byte 1
    let mut key = [0u8; 64];
    for j in 0..16 {
        key[4 * j + 3] = 9;
    }
    let mut f = BloomFilter::new(64).unwrap();
    assert!(!f.test(&key));
    f.insert(&key);
    assert_eq!(f.as_bytes(), &vec![0, 2, 0, 0, 0, 0, 0, 0]);
    assert!(f.test(&key));
}

#[test]
fn words_are_big_endian_and_masked() {
    // word 0x0000_0101: bit 1 of byte 0x20, masked to byte 0 in a 32-byte filter
    let mut key = [0u8; 64];
    for j in 0..16 {
        key[4 * j + 2] = 1;
        key[4 * j + 3] = 1;
    }
    let mut f = BloomFilter::new(256).unwrap();
    f.insert(&key);
    let mut expected = vec![0u8; 32];
    expected[0] = 2;
    assert_eq!(f.as_bytes(), &expected);
}

#[test]
fn peer_filter_from_header_bytes() {
    let f = PeerBloomFilter::from_bytes([0xff; 128]);
    assert!(f.get_ref().test(&[1; 64]));
    assert_eq!(f.get_ref().as_bytes().len(), 128);
    let g = PeerBloomFilter::from_bytes([0; 128]);
    assert!(!g.get_ref().test(&[1; 64]));
}
