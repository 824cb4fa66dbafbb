//! Wire formats of the protocol messages. All integers are big-endian;
//! each parser checks every length before it reads and returns no value
//! on a short or inconsistent buffer.

use vstd::prelude::*;

use crate::block::{BlockKey, Timestamp};
use crate::bloom::PeerBloomFilter;
use crate::codec::{be16, be32, be64, read_array, read_u16, read_u32, read_u64, read_vec};

verus! {

/// Message type of a PUT message.
pub const MESSAGE_TYPE_PUT: u16 = 146;

/// Bytes in a message header.
pub const MESSAGE_HEADER_LEN: usize = 4;

/// Bytes in the fixed header of a PUT message.
pub const PUT_HEADER_LEN: usize = 216;

/// Bytes in the fixed header of a GET message.
pub const GET_HEADER_LEN: usize = 208;

/// Bytes in a HELLO message.
pub const HELLO_MESSAGE_LEN: usize = 80;

/// Size and type, at the start of every message.
pub struct MessageHeader {
    pub message_size: u16,
    pub message_type: u16,
}

impl MessageHeader {
    pub open spec fn decodes(&self, b: Seq<u8>, off: int) -> bool {
        &&& self.message_size as int == be16(b, off)
        &&& self.message_type as int == be16(b, off + 2)
    }

    /// The header at the start of `b`.
    pub fn parse(b: &[u8]) -> (r: Option<MessageHeader>)
        ensures
            r is Some <==> b@.len() >= MESSAGE_HEADER_LEN,
            r matches Some(h) ==> h.decodes(b@, 0),
    {
        if b.len() < MESSAGE_HEADER_LEN {
            return None;
        }
        Some(MessageHeader { message_size: read_u16(b, 0), message_type: read_u16(b, 2) })
    }
}

/// The flags byte of PUT and GET messages.
pub struct Flags(pub u8);

impl Flags {
    pub open spec fn bit(&self, n: u8) -> bool {
        (self.0 >> n) & 1u8 == 1u8
    }

    pub fn get_demultiplex(&self) -> (r: bool)
        ensures
            r == self.bit(0),
    {
        (self.0 >> 0) & 1 == 1
    }

    pub fn get_record_route(&self) -> (r: bool)
        ensures
            r == self.bit(1),
    {
        (self.0 >> 1) & 1 == 1
    }

    pub fn get_find_approximate(&self) -> (r: bool)
        ensures
            r == self.bit(2),
    {
        (self.0 >> 2) & 1 == 1
    }

    pub fn get_truncated(&self) -> (r: bool)
        ensures
            r == self.bit(3),
    {
        (self.0 >> 3) & 1 == 1
    }
}

/// A HELLO message: a peer's signed address advertisement.
pub struct HelloMessage {
    pub header: MessageHeader,
    /// Always zero in this protocol version.
    pub version: u16,
    pub num_addresses: u16,
    pub signature: [u8; 64],
    pub expiration: Timestamp,
}

impl HelloMessage {
    /// The fixed part of a HELLO message at the start of `b`.
    pub fn parse(b: &[u8]) -> (r: Option<HelloMessage>)
        ensures
            r is Some <==> b@.len() >= HELLO_MESSAGE_LEN,
            r matches Some(m) ==> {
                &&& m.header.decodes(b@, 0)
                &&& m.version as int == be16(b@, 4)
                &&& m.num_addresses as int == be16(b@, 6)
                &&& m.signature@ == b@.subrange(8, 72)
                &&& m.expiration.0 as int == be64(b@, 72)
            },
    {
        if b.len() < HELLO_MESSAGE_LEN {
            return None;
        }
        Some(
            HelloMessage {
                header: MessageHeader { message_size: read_u16(b, 0), message_type: read_u16(b, 2) },
                version: read_u16(b, 4),
                num_addresses: read_u16(b, 6),
                signature: read_array::<64>(b, 8),
                expiration: Timestamp(read_u64(b, 72)),
            },
        )
    }
}

/// The fixed header of a PUT message.
pub struct PutMessageHeader {
    pub header: MessageHeader,
    pub block_type: u32,
    pub version: u8,
    pub flags: Flags,
    pub hop_count: u16,
    pub replication_level: u16,
    pub path_len: u16,
    pub expiration: Timestamp,
    pub peer_bloom_filter: PeerBloomFilter,
    pub block_key: BlockKey,
}

impl PutMessageHeader {
    /// This header is the one at the start of `b`.
    pub open spec fn decodes(&self, b: Seq<u8>) -> bool {
        &&& self.header.decodes(b, 0)
        &&& self.block_type as int == be32(b, 4)
        &&& self.version == b[8]
        &&& self.flags.0 == b[9]
        &&& self.hop_count as int == be16(b, 10)
        &&& self.replication_level as int == be16(b, 12)
        &&& self.path_len as int == be16(b, 14)
        &&& self.expiration.0 as int == be64(b, 16)
        &&& self.peer_bloom_filter.wf()
        &&& self.peer_bloom_filter.view() == b.subrange(24, 152)
        &&& self.block_key.0@ == b.subrange(152, 216)
    }

    /// The fixed PUT header at the start of `b`.
    pub fn parse(b: &[u8]) -> (r: Option<PutMessageHeader>)
        ensures
            r is Some <==> b@.len() >= PUT_HEADER_LEN,
            r matches Some(h) ==> h.decodes(b@),
    {
        if b.len() < PUT_HEADER_LEN {
            return None;
        }
        Some(
            PutMessageHeader {
                header: MessageHeader { message_size: read_u16(b, 0), message_type: read_u16(b, 2) },
                block_type: read_u32(b, 4),
                version: b[8],
                flags: Flags(b[9]),
                hop_count: read_u16(b, 10),
                replication_level: read_u16(b, 12),
                path_len: read_u16(b, 14),
                expiration: Timestamp(read_u64(b, 16)),
                peer_bloom_filter: PeerBloomFilter::from_bytes(read_array::<128>(b, 24)),
                block_key: BlockKey(read_array::<64>(b, 152)),
            },
        )
    }
}

/// Bytes of the truncated origin in a PUT message with flags `f`.
pub open spec fn origin_len(f: u8) -> int {
    if (f >> 3u8) & 1u8 == 1u8 {
        32
    } else {
        0
    }
}

/// Bytes of the last-hop signature in a PUT message with flags `f`.
pub open spec fn signature_len(f: u8) -> int {
    if (f >> 1u8) & 1u8 == 1u8 {
        64
    } else {
        0
    }
}

/// Whether `b` holds a well-framed PUT message: a full header of the PUT
/// type, a size within the buffer, and room in the body for the optional
/// origin, the path and the optional signature.
pub open spec fn put_well_framed(b: Seq<u8>) -> bool {
    &&& b.len() >= PUT_HEADER_LEN
    &&& be16(b, 2) == MESSAGE_TYPE_PUT
    &&& PUT_HEADER_LEN <= be16(b, 0) <= b.len()
    &&& PUT_HEADER_LEN + origin_len(b[9]) + be16(b, 14) + signature_len(b[9]) <= be16(b, 0)
}

/// A PUT message, split into its sections.
pub struct PutMessage {
    pub header: PutMessageHeader,
    pub truncated_origin: Option<[u8; 32]>,
    pub put_path: Vec<u8>,
    pub last_hop_signature: Option<[u8; 64]>,
    pub block: Vec<u8>,
}

impl PutMessage {
    /// Splits a PUT message: header, then within `message_size` bytes an
    /// optional truncated origin, the path, an optional last-hop signature
    /// and the block. `None` unless `b` is well framed.
    pub fn parse(b: &[u8]) -> (r: Option<PutMessage>)
        ensures
            r is Some <==> put_well_framed(b@),
            r matches Some(m) ==> {
                let f = b@[9];
                let path_start = PUT_HEADER_LEN + origin_len(f);
                let path_end = path_start + be16(b@, 14);
                let block_start = path_end + signature_len(f);
                &&& m.header.decodes(b@)
                &&& (m.truncated_origin is Some <==> origin_len(f) == 32)
                &&& m.truncated_origin matches Some(t) ==> t@ == b@.subrange(
                    PUT_HEADER_LEN as int,
                    PUT_HEADER_LEN + 32,
                )
                &&& m.put_path@ == b@.subrange(path_start, path_end)
                &&& (m.last_hop_signature is Some <==> signature_len(f) == 64)
                &&& m.last_hop_signature matches Some(s) ==> s@ == b@.subrange(
                    path_end,
                    path_end + 64,
                )
                &&& m.block@ == b@.subrange(block_start, be16(b@, 0))
            },
    {
        let header = match PutMessageHeader::parse(b) {
            Some(h) => h,
            None => return None,
        };
        if header.header.message_type != MESSAGE_TYPE_PUT {
            return None;
        }
        let size = header.header.message_size as usize;
        if size < PUT_HEADER_LEN || size > b.len() {
            return None;
        }
        let mut pos: usize = PUT_HEADER_LEN;
        let truncated_origin = if header.flags.get_truncated() {
            if size - pos < 32 {
                return None;
            }
            let t = read_array::<32>(b, pos);
            pos = pos + 32;
            Some(t)
        } else {
            None
        };
        let path_len = header.path_len as usize;
        if size - pos < path_len {
            return None;
        }
        let put_path = read_vec(b, pos, pos + path_len);
        pos = pos + path_len;
        let last_hop_signature = if header.flags.get_record_route() {
            if size - pos < 64 {
                return None;
            }
            let s = read_array::<64>(b, pos);
            pos = pos + 64;
            Some(s)
        } else {
            None
        };
        let block = read_vec(b, pos, size);
        Some(PutMessage { header, truncated_origin, put_path, last_hop_signature, block })
    }
}

/// The fixed header of a GET message.
pub struct GetMessageHeader {
    pub header: MessageHeader,
    pub block_type: u32,
    pub version: u8,
    pub flags: Flags,
    pub hop_count: u16,
    pub replication_level: u16,
    pub result_filter_size: u16,
    pub peer_bloom_filter: PeerBloomFilter,
    pub query_hash: [u8; 64],
}

impl GetMessageHeader {
    /// The fixed GET header at the start of `b`.
    pub fn parse(b: &[u8]) -> (r: Option<GetMessageHeader>)
        ensures
            r is Some <==> b@.len() >= GET_HEADER_LEN,
            r matches Some(h) ==> {
                &&& h.header.decodes(b@, 0)
                &&& h.block_type as int == be32(b@, 4)
                &&& h.version == b@[8]
                &&& h.flags.0 == b@[9]
                &&& h.hop_count as int == be16(b@, 10)
                &&& h.replication_level as int == be16(b@, 12)
                &&& h.result_filter_size as int == be16(b@, 14)
                &&& h.peer_bloom_filter.wf()
                &&& h.peer_bloom_filter.view() == b@.subrange(16, 144)
                &&& h.query_hash@ == b@.subrange(144, 208)
            },
    {
        if b.len() < GET_HEADER_LEN {
            return None;
        }
        Some(
            GetMessageHeader {
                header: MessageHeader { message_size: read_u16(b, 0), message_type: read_u16(b, 2) },
                block_type: read_u32(b, 4),
                version: b[8],
                flags: Flags(b[9]),
                hop_count: read_u16(b, 10),
                replication_level: read_u16(b, 12),
                result_filter_size: read_u16(b, 14),
                peer_bloom_filter: PeerBloomFilter::from_bytes(read_array::<128>(b, 16)),
                query_hash: read_array::<64>(b, 144),
            },
        )
    }
}

/// A RESULT message; its layout is not fixed by this library.
pub struct ResultMessage {}

} // verus!
