//! Peer-facing core of an R5N distributed hash table: XOR-metric routing,
//! the wire codec, HELLO block validation and bloom-filter based
//! loop and duplicate suppression.

use vstd::prelude::*;

pub mod block;
pub mod bloom;
mod codec;
mod crypto;
pub mod message;
pub mod routing;
pub mod underlay;

pub use routing::{Route, RoutingTable};

verus! {

/// The Edwards point type of curve25519-dalek: a public wrapper around the
/// 32 bytes of a compressed point.
#[verifier::external_type_specification]
pub struct ExCompressedEdwardsY(curve25519_dalek::edwards::CompressedEdwardsY);

/// An Ed25519 public key, compared and ordered by its raw bytes.
pub struct Peer(pub curve25519_dalek::edwards::CompressedEdwardsY);

/// A 512-bit routing identifier: the SHA-512 digest of a peer's public key.
pub struct PeerId(pub [u8; 64]);

/// A protocol message handed to or received from the underlay.
pub struct Message;

impl Peer {
    /// The raw bytes of the public key.
    pub open spec fn key(&self) -> Seq<u8> {
        self.0.0@
    }

    /// The identifier of this peer in XOR-metric space.
    pub fn id(&self) -> (r: PeerId)
        ensures
            r.0@ == crypto::sha512_of(self.key()),
    {
        PeerId(crypto::sha512(self.0.0.as_slice()))
    }
}

impl PartialEq for Peer {
    fn eq(&self, other: &Peer) -> (r: bool)
        ensures
            r == (self.key() == other.key()),
    {
        routing::key_compare(&self.0.0, &other.0.0) == 0
    }
}

impl vstd::std_specs::cmp::PartialEqSpecImpl for Peer {
    open spec fn obeys_eq_spec() -> bool {
        true
    }

    open spec fn eq_spec(&self, other: &Peer) -> bool {
        self.key() == other.key()
    }
}

impl Eq for Peer {
}

/// Byte order of two keys as an `Ordering`.
pub open spec fn key_order(a: Seq<u8>, b: Seq<u8>) -> core::cmp::Ordering {
    if routing::key_lt(a, b) {
        core::cmp::Ordering::Less
    } else if a == b {
        core::cmp::Ordering::Equal
    } else {
        core::cmp::Ordering::Greater
    }
}

impl PartialOrd for Peer {
    fn partial_cmp(&self, other: &Peer) -> (r: Option<core::cmp::Ordering>)
        ensures
            r == Some(key_order(self.key(), other.key())),
    {
        let c = routing::key_compare(&self.0.0, &other.0.0);
        if c < 0 {
            Some(core::cmp::Ordering::Less)
        } else if c == 0 {
            Some(core::cmp::Ordering::Equal)
        } else {
            Some(core::cmp::Ordering::Greater)
        }
    }
}

impl vstd::std_specs::cmp::PartialOrdSpecImpl for Peer {
    open spec fn obeys_partial_cmp_spec() -> bool {
        true
    }

    open spec fn partial_cmp_spec(&self, other: &Peer) -> Option<core::cmp::Ordering> {
        Some(key_order(self.key(), other.key()))
    }
}

/// Number of significant bits of a byte: the position of its highest set bit
/// plus one, or zero for zero.
pub open spec fn bit_len(x: u8) -> nat
    decreases x,
{
    if x == 0 {
        0
    } else {
        1 + bit_len(x / 2)
    }
}

/// XOR distance of two identifiers, scanning bytes from index `i` on: the
/// number of the most significant differing bit counted from the low end,
/// plus one; zero when they agree from `i` to the end.
pub open spec fn xor_dist_from(a: Seq<u8>, b: Seq<u8>, i: int) -> nat
    decreases 64 - i,
{
    if i >= 64 || i < 0 {
        0
    } else if a[i] != b[i] {
        ((63 - i) * 8 + bit_len(a[i] ^ b[i])) as nat
    } else {
        xor_dist_from(a, b, i + 1)
    }
}

/// XOR distance of two 64-byte identifiers, in `0..=512`.
pub open spec fn xor_dist(a: Seq<u8>, b: Seq<u8>) -> nat {
    xor_dist_from(a, b, 0)
}

proof fn lemma_bit_len_below(x: u8)
    ensures
        x < 2 ==> bit_len(x) <= 1,
        x < 4 ==> bit_len(x) <= 2,
        x < 8 ==> bit_len(x) <= 3,
        x < 16 ==> bit_len(x) <= 4,
        x < 32 ==> bit_len(x) <= 5,
        x < 64 ==> bit_len(x) <= 6,
        x < 128 ==> bit_len(x) <= 7,
        bit_len(x) <= 8,
    decreases x,
{
    if x != 0 {
        lemma_bit_len_below(x / 2);
    }
}

proof fn lemma_xor_dist_from_bound(a: Seq<u8>, b: Seq<u8>, i: int)
    requires
        0 <= i <= 64,
    ensures
        xor_dist_from(a, b, i) <= (64 - i) * 8,
    decreases 64 - i,
{
    if i < 64 {
        if a[i] != b[i] {
            lemma_bit_len_below(a[i] ^ b[i]);
        } else {
            lemma_xor_dist_from_bound(a, b, i + 1);
        }
    }
}

/// XOR distance never exceeds 512.
pub proof fn lemma_xor_dist_le(a: Seq<u8>, b: Seq<u8>)
    ensures
        xor_dist(a, b) <= 512,
{
    lemma_xor_dist_from_bound(a, b, 0);
}

/// Significant bits of a byte, counted by shifting it out.
fn byte_bit_len(x: u8) -> (r: u16)
    ensures
        r as nat == bit_len(x),
        r <= 8,
{
    let mut v: u8 = x;
    let mut n: u16 = 0;
    proof {
        lemma_bit_len_below(x);
    }
    while v != 0
        invariant
            n as nat + bit_len(v) == bit_len(x),
            bit_len(x) <= 8,
        decreases v,
    {
        assert(v >> 1u8 == v / 2) by (bit_vector);
        v = v >> 1;
        n = n + 1;
    }
    n
}

/// Logarithmic XOR distance of two identifiers: the position of their most
/// significant differing bit, counted from bit 0 at the low end, plus one;
/// zero for identical identifiers.
pub fn log2_xor_dist(peer1: &PeerId, peer2: &PeerId) -> (r: u16)
    ensures
        r as nat == xor_dist(peer1.0@, peer2.0@),
        r <= 512,
{
    let mut i: usize = 0;
    while i < 64
        invariant
            0 <= i <= 64,
            peer1.0@.len() == 64,
            peer2.0@.len() == 64,
            xor_dist(peer1.0@, peer2.0@) == xor_dist_from(peer1.0@, peer2.0@, i as int),
        decreases 64 - i,
    {
        let x = peer1.0[i] ^ peer2.0[i];
        if x != 0 {
            proof {
                let p = peer1.0@[i as int];
                let q = peer2.0@[i as int];
                assert(p ^ q != 0u8 ==> p != q) by (bit_vector);
            }
            let len = byte_bit_len(x);
            let dist = (63 - i as u16) * 8 + len;
            proof {
                lemma_xor_dist_from_bound(peer1.0@, peer2.0@, i as int);
            }
            return dist;
        }
        assert(peer1.0@[i as int] == peer2.0@[i as int]) by {
            let p = peer1.0@[i as int];
            let q = peer2.0@[i as int];
            assert(p ^ q == 0u8 ==> p == q) by (bit_vector);
        }
        i = i + 1;
    }
    0
}

/// Bytewise exclusive or of two 64-byte strings.
pub fn xor(x: &[u8; 64], y: &[u8; 64]) -> (r: [u8; 64])
    ensures
        forall|i: int| 0 <= i < 64 ==> #[trigger] r@[i] == x@[i] ^ y@[i],
{
    let mut out: [u8; 64] = [0u8; 64];
    let mut i: usize = 0;
    while i < 64
        invariant
            0 <= i <= 64,
            out@.len() == 64,
            x@.len() == 64,
            y@.len() == 64,
            forall|j: int| 0 <= j < i ==> #[trigger] out@[j] == x@[j] ^ y@[j],
        decreases 64 - i,
    {
        out[i] = x[i] ^ y[i];
        i = i + 1;
    }
    out
}

/// An identifier is at distance zero from itself.
pub proof fn lemma_xor_dist_self(a: Seq<u8>)
    ensures
        xor_dist(a, a) == 0,
{
    lemma_xor_dist_self_from(a, 0);
}

proof fn lemma_xor_dist_self_from(a: Seq<u8>, i: int)
    ensures
        xor_dist_from(a, a, i) == 0,
    decreases 64 - i,
{
    if 0 <= i < 64 {
        lemma_xor_dist_self_from(a, i + 1);
    }
}

/// XOR distance is symmetric.
pub proof fn lemma_xor_dist_symmetric(a: Seq<u8>, b: Seq<u8>)
    ensures
        xor_dist(a, b) == xor_dist(b, a),
{
    lemma_xor_dist_symmetric_from(a, b, 0);
}

proof fn lemma_xor_dist_symmetric_from(a: Seq<u8>, b: Seq<u8>, i: int)
    ensures
        xor_dist_from(a, b, i) == xor_dist_from(b, a, i),
    decreases 64 - i,
{
    if 0 <= i < 64 {
        let p = a[i];
        let q = b[i];
        assert(p ^ q == q ^ p) by (bit_vector);
        lemma_xor_dist_symmetric_from(a, b, i + 1);
    }
}

/// Two identifiers that differ in exactly one bit, bit `511 - n` counted
/// from the most significant end, are at distance `n + 1`.
pub proof fn lemma_xor_dist_single_bit(a: Seq<u8>, b: Seq<u8>, n: nat)
    requires
        a.len() == 64,
        n < 512,
        b == a.update(
            (511 - n) / 8,
            a[(511 - n) / 8] ^ (0x80u8 >> (((511 - n) % 8) as u8)),
        ),
    ensures
        xor_dist(a, b) == n + 1,
{
    let j: int = (511 - n) / 8;
    let k: u8 = ((511 - n) % 8) as u8;
    let p = a[j];
    let m: u8 = 0x80u8 >> k;
    assert(p ^ (p ^ m) == m) by (bit_vector);
    assert(k < 8 ==> m != 0) by (bit_vector)
        requires
            m == 0x80u8 >> k,
    ;
    assert(p != p ^ m) by (bit_vector)
        requires
            m != 0,
    ;
    lemma_bit_len_of_top_shift(k);
    lemma_prefix_equal(a, b, j, 0);
}

proof fn lemma_bit_len_of_top_shift(k: u8)
    requires
        k < 8,
    ensures
        bit_len(0x80u8 >> k) == 8 - k,
{
    reveal_with_fuel(bit_len, 9);
    if k == 0 {
        assert(0x80u8 >> 0u8 == 128u8) by (bit_vector);
    } else if k == 1 {
        assert(0x80u8 >> 1u8 == 64u8) by (bit_vector);
    } else if k == 2 {
        assert(0x80u8 >> 2u8 == 32u8) by (bit_vector);
    } else if k == 3 {
        assert(0x80u8 >> 3u8 == 16u8) by (bit_vector);
    } else if k == 4 {
        assert(0x80u8 >> 4u8 == 8u8) by (bit_vector);
    } else if k == 5 {
        assert(0x80u8 >> 5u8 == 4u8) by (bit_vector);
    } else if k == 6 {
        assert(0x80u8 >> 6u8 == 2u8) by (bit_vector);
    } else {
        assert(0x80u8 >> 7u8 == 1u8) by (bit_vector);
    }
}

proof fn lemma_prefix_equal(a: Seq<u8>, b: Seq<u8>, j: int, i: int)
    requires
        0 <= i <= j < 64,
        a.len() == 64,
        b.len() == 64,
        forall|t: int| 0 <= t < j ==> a[t] == b[t],
    ensures
        xor_dist_from(a, b, i) == xor_dist_from(a, b, j),
    decreases j - i,
{
    if i < j {
        lemma_prefix_equal(a, b, j, i + 1);
    }
}

} // verus!
