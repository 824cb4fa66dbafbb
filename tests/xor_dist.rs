use r5n::{log2_xor_dist, xor, PeerId};

#[test]
fn xor_dist() {
    let peer1 = PeerId([0; 64]);
    let mut peer2 = PeerId([0; 64]);
    let mut peer3 = PeerId([0; 64]);

    peer2.0[5] ^= 1 << 4;
    peer3.0[13] ^= 1 << 2;

    assert_eq!((63 - 5) * 8 + (4 + 1), 469);
    assert_eq!(log2_xor_dist(&peer1, &peer2), 469);
    assert_eq!(log2_xor_dist(&peer2, &peer1), 469);

    assert_eq!((63 - 13) * 8 + (2 + 1), 403);
    assert_eq!(log2_xor_dist(&peer1, &peer3), 403);
    assert_eq!(log2_xor_dist(&peer3, &peer1), 403);

    assert_eq!(log2_xor_dist(&peer2, &peer3), 469);
    assert_eq!(log2_xor_dist(&peer3, &peer2), 469);
}

#[test]
fn xor_dist_of_identical_ids_is_zero() {
    let a = PeerId([0x5a; 64]);
    let b = PeerId([0x5a; 64]);
    assert_eq!(log2_xor_dist(&a, &b), 0);
    assert_eq!(log2_xor_dist(&PeerId([0; 64]), &PeerId([0; 64])), 0);
}

#[test]
fn xor_dist_is_symmetric() {
    let mut a = PeerId([0; 64]);
    let mut b = PeerId([0; 64]);
    for i in 0..64 {
        a.0[i] = (i * 7) as u8;
        b.0[i] = (i * 7) as u8;
    }
    b.0[20] ^= 0x21;
    assert_eq!(log2_xor_dist(&a, &b), log2_xor_dist(&b, &a));
    assert_eq!(log2_xor_dist(&a, &b), (63 - 20) * 8 + 6);
}

#[test]
fn xor_dist_single_bit_everywhere() {
    for n in 0..512usize {
        let a = PeerId([0xc3; 64]);
        let mut b = PeerId([0xc3; 64]);
        let m = 511 - n;
        b.0[m / 8] ^= 0x80 >> (m % 8);
        assert_eq!(log2_xor_dist(&a, &b) as usize, n + 1);
    }
}

#[test]
fn xor_dist_extremes() {
    let a = PeerId([0; 64]);
    let mut top = PeerId([0; 64]);
    top.0[0] = 0x80;
    let mut bottom = PeerId([0; 64]);
    bottom.0[63] = 0x01;
    assert_eq!(log2_xor_dist(&a, &top), 512);
    assert_eq!(log2_xor_dist(&a, &bottom), 1);
    // only the most significant difference counts
    assert_eq!(log2_xor_dist(&top, &bottom), 512);
}

#[test]
fn xor_bytewise() {
    let mut x = [0u8; 64];
    let mut y = [0u8; 64];
    for i in 0..64 {
        x[i] = i as u8;
        y[i] = 0xff;
    }
    let r = xor(&x, &y);
    for i in 0..64 {
        assert_eq!(r[i], !(i as u8));
    }
    assert_eq!(xor(&x, &x), [0u8; 64]);
}
