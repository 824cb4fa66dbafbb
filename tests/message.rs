use r5n::message::{
    Flags, GetMessageHeader, HelloMessage, MessageHeader, PutMessage, PutMessageHeader,
    MESSAGE_TYPE_PUT, PUT_HEADER_LEN,
};

/// A PUT message with the given flags, path and tail after the path.
fn put_bytes(flags: u8, path: &[u8], tail: &[u8], size_extra: i32) -> Vec<u8> {
    let mut b = vec![0u8; PUT_HEADER_LEN];
    let size = (PUT_HEADER_LEN + path.len() + tail.len()) as i32 + size_extra;
    b[0..2].copy_from_slice(&(size as u16).to_be_bytes());
    b[2..4].copy_from_slice(&MESSAGE_TYPE_PUT.to_be_bytes());
    b[4..8].copy_from_slice(&13u32.to_be_bytes());
    b[8] = 0;
    b[9] = flags;
    b[10..12].copy_from_slice(&3u16.to_be_bytes());
    b[12..14].copy_from_slice(&5u16.to_be_bytes());
    b[14..16].copy_from_slice(&(path.len() as u16).to_be_bytes());
    b[16..24].copy_from_slice(&0x0102030405060708u64.to_be_bytes());
    for i in 24..152 {
        b[i] = 0xaa;
    }
    for i in 152..216 {
        b[i] = i as u8;
    }
    b.extend_from_slice(path);
    b.extend_from_slice(tail);
    b
}

#[test]
fn message_header_fields() {
    let h = MessageHeader::parse(&[0x01, 0x02, 0x00, 0x92, 0xff]).unwrap();
    assert_eq!(h.message_size, 0x0102);
    assert_eq!(h.message_type, 146);
    assert!(MessageHeader::parse(&[0, 1, 2]).is_none());
}

#[test]
fn flags_bits() {
    let f = Flags(0b1010);
    assert!(!f.get_demultiplex());
    assert!(f.get_record_route());
    assert!(!f.get_find_approximate());
    assert!(f.get_truncated());
    let g = Flags(0b0101);
    assert!(g.get_demultiplex());
    assert!(!g.get_record_route());
    assert!(g.get_find_approximate());
    assert!(!g.get_truncated());
}

#[test]
fn put_header_fields() {
    let b = put_bytes(0, &[], &[], 0);
    let h = PutMessageHeader::parse(&b).unwrap();
    assert_eq!(h.header.message_size as usize, PUT_HEADER_LEN);
    assert_eq!(h.header.message_type, 146);
    assert_eq!(h.block_type, 13);
    assert_eq!(h.version, 0);
    assert_eq!(h.hop_count, 3);
    assert_eq!(h.replication_level, 5);
    assert_eq!(h.path_len, 0);
    assert_eq!(h.expiration.0, 0x0102030405060708);
    assert_eq!(h.peer_bloom_filter.get_ref().as_bytes(), &vec![0xaa; 128]);
    assert_eq!(h.block_key.0[0], 152);
    assert_eq!(h.block_key.0[63], 215);
    assert!(PutMessageHeader::parse(&b[..PUT_HEADER_LEN - 1]).is_none());
}

#[test]
fn put_plain_sections() {
    let b = put_bytes(0, &[1, 2, 3], &[9, 8, 7, 6], 0);
    let m = PutMessage::parse(&b).unwrap();
    assert!(m.truncated_origin.is_none());
    assert_eq!(m.put_path, vec![1, 2, 3]);
    assert!(m.last_hop_signature.is_none());
    assert_eq!(m.block, vec![9, 8, 7, 6]);
}

#[test]
fn put_with_origin_and_signature() {
    // the origin comes before the path: build it by hand
    let mut b = put_bytes(0b1010, &[], &[], 0);
    b.extend_from_slice(&[0x11; 32]);
    b.extend_from_slice(&[5, 6]);
    b.extend_from_slice(&[0x33; 64]);
    b.extend_from_slice(&[0x44; 3]);
    let size = b.len() as u16;
    b[0..2].copy_from_slice(&size.to_be_bytes());
    b[14..16].copy_from_slice(&2u16.to_be_bytes());
    let m = PutMessage::parse(&b).unwrap();
    assert_eq!(m.truncated_origin, Some([0x11; 32]));
    assert_eq!(m.put_path, vec![5, 6]);
    assert_eq!(m.last_hop_signature, Some([0x33; 64]));
    assert_eq!(m.block, vec![0x44; 3]);
}

#[test]
fn put_size_bounds_the_body() {
    // two trailing bytes beyond message_size are not part of the block
    let mut b = put_bytes(0, &[1], &[2, 3], 0);
    b.extend_from_slice(&[0xee, 0xee]);
    let m = PutMessage::parse(&b).unwrap();
    assert_eq!(m.block, vec![2, 3]);
}

#[test]
fn put_rejects_malformed() {
    // short buffer
    assert!(PutMessage::parse(&[0u8; 100]).is_none());
    // size beyond the buffer
    assert!(PutMessage::parse(&put_bytes(0, &[1], &[], 1)).is_none());
    // size below the header
    let mut b = put_bytes(0, &[], &[], 0);
    b[0..2].copy_from_slice(&10u16.to_be_bytes());
    assert!(PutMessage::parse(&b).is_none());
    // wrong message type
    let mut b = put_bytes(0, &[], &[], 0);
    b[3] = 147;
    assert!(PutMessage::parse(&b).is_none());
    // path longer than the body
    let mut b = put_bytes(0, &[1, 2], &[], 0);
    b[14..16].copy_from_slice(&3u16.to_be_bytes());
    assert!(PutMessage::parse(&b).is_none());
    // truncated flag without room for the origin
    assert!(PutMessage::parse(&put_bytes(0b1000, &[], &[0; 31], 0)).is_none());
    // record-route flag without room for the signature
    assert!(PutMessage::parse(&put_bytes(0b0010, &[], &[0; 63], 0)).is_none());
    // exactly enough room
    let m = PutMessage::parse(&put_bytes(0b0010, &[], &[7; 64], 0)).unwrap();
    assert_eq!(m.last_hop_signature, Some([7; 64]));
    assert!(m.block.is_empty());
}

#[test]
fn get_header_fields() {
    let mut b = vec![0u8; 210];
    b[0..2].copy_from_slice(&208u16.to_be_bytes());
    b[2..4].copy_from_slice(&147u16.to_be_bytes());
    b[4..8].copy_from_slice(&7u32.to_be_bytes());
    b[9] = 0b0100;
    b[14..16].copy_from_slice(&300u16.to_be_bytes());
    b[16] = 0x80;
    b[144] = 0x42;
    b[207] = 0x43;
    let h = GetMessageHeader::parse(&b).unwrap();
    assert_eq!(h.header.message_size, 208);
    assert_eq!(h.block_type, 7);
    assert!(h.flags.get_find_approximate());
    assert_eq!(h.result_filter_size, 300);
    assert_eq!(h.peer_bloom_filter.get_ref().as_bytes()[0], 0x80);
    assert_eq!(h.query_hash[0], 0x42);
    assert_eq!(h.query_hash[63], 0x43);
    assert!(GetMessageHeader::parse(&b[..207]).is_none());
}

#[test]
fn hello_message_fields() {
    let mut b = vec![0u8; 80];
    b[0..2].copy_from_slice(&80u16.to_be_bytes());
    b[6..8].copy_from_slice(&2u16.to_be_bytes());
    b[8] = 0x99;
    b[72..80].copy_from_slice(&12345u64.to_be_bytes());
    let m = HelloMessage::parse(&b).unwrap();
    assert_eq!(m.header.message_size, 80);
    assert_eq!(m.version, 0);
    assert_eq!(m.num_addresses, 2);
    assert_eq!(m.signature[0], 0x99);
    assert_eq!(m.expiration.0, 12345);
    assert!(HelloMessage::parse(&b[..79]).is_none());
}
