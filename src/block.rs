//! Content blocks and their validation, with the HELLO block as the
//! concrete block type.

use vstd::arithmetic::power2::{lemma2_to64, lemma_pow2_pos, lemma_pow2_unfold, pow2};
use vstd::prelude::*;

use crate::bloom::{
    contains, inserted, is_pow2_len, lemma_empty_contains_nothing, lemma_insert_contains,
    lemma_inserted_len, BloomFilter,
};
use crate::codec::{be64, read_array, read_u64, read_vec};
use crate::crypto::{ed25519_accepts, ed25519_verify, is_utf8, sha512, sha512_of, utf8_valid};
use crate::{xor, Peer};

verus! {

/// Bytes in the fixed header of a HELLO block.
pub const HELLO_HEADER_LEN: usize = 104;

/// Size field of the signed HELLO payload.
pub const SIGNED_PAYLOAD_SIZE: u32 = 80;

/// Signature purpose of a HELLO block.
pub const HELLO_SIGNATURE_PURPOSE: u32 = 7;

/// Outcome of checking a result against a result filter.
#[derive(PartialEq, Eq, Structural, Debug, Clone, Copy)]
pub enum FilterResult {
    /// Block is a valid result, and there may be more.
    More,
    /// The given block is the last possible valid result.
    Last,
    /// Block is a valid result, but was already seen (filtered by the
    /// result filter) and should not be returned to the previous hop.
    /// Peers that do not understand the block type may return such
    /// duplicates anyway, so receivers must tolerate them.
    Duplicate,
    /// Block does not satisfy the constraints of the query and should not
    /// be returned to the previous hop; the same tolerance applies.
    Irrelevant,
}

/// A 64-byte content address.
pub struct BlockKey(pub [u8; 64]);

/// An absolute expiration time, in microseconds.
#[derive(Clone, Copy)]
pub struct Timestamp(pub u64);

/// The 32 bytes of an Ed25519 public key.
#[derive(Clone, Copy)]
pub struct PublicKey(pub [u8; 32]);

impl PublicKey {
    /// The peer with this key.
    pub fn peer(self) -> (r: Peer)
        ensures
            r.key() == self.0@,
    {
        Peer(curve25519_dalek::edwards::CompressedEdwardsY(self.0))
    }
}

/// The big-endian bytes of a 32-bit integer.
pub open spec fn u32_be(x: u32) -> Seq<u8> {
    seq![(x / 0x100_0000) as u8, ((x / 0x1_0000) % 0x100) as u8, ((x / 0x100) % 0x100) as u8, (x % 0x100) as u8]
}

/// The big-endian bytes of a 64-bit integer.
pub open spec fn u64_be(x: u64) -> Seq<u8> {
    u32_be((x / 0x1_0000_0000) as u32) + u32_be((x % 0x1_0000_0000) as u32)
}

/// The 80 bytes a HELLO signature covers: size, purpose, expiration and
/// the digest of the address bytes.
pub open spec fn signed_payload(expiration: u64, addrs_digest: Seq<u8>) -> Seq<u8> {
    u32_be(SIGNED_PAYLOAD_SIZE) + u32_be(HELLO_SIGNATURE_PURPOSE) + u64_be(expiration) + addrs_digest
}

/// Whether a HELLO block of this key, signature, expiration and address
/// bytes carries a valid signature.
pub open spec fn hello_signature_valid(
    public_key: Seq<u8>,
    signature: Seq<u8>,
    expiration: u64,
    addrs: Seq<u8>,
) -> bool {
    ed25519_accepts(public_key, signed_payload(expiration, sha512_of(addrs)), signature)
}

/// Bytewise exclusive or of two byte strings of 64 bytes.
pub open spec fn xor_bytes(a: Seq<u8>, b: Seq<u8>) -> Seq<u8> {
    Seq::new(64, |i: int| a[i] ^ b[i])
}

/// The classification of a result whose filter key is made from the
/// digest of the mutator `m` and the digest of the result's content `c`.
pub open spec fn result_class(rf: Seq<u8>, m: Seq<u8>, c: Seq<u8>) -> FilterResult {
    if rf.len() < 4 || !is_pow2_len((rf.len() - 4) as nat) {
        FilterResult::Irrelevant
    } else if contains(rf.subrange(4, rf.len() as int), xor_bytes(m, c)) {
        FilterResult::Duplicate
    } else {
        FilterResult::More
    }
}

/// The result filter after the result with digests `m` and `c` was
/// accepted; unchanged where `rf` is malformed.
pub open spec fn result_recorded(rf: Seq<u8>, m: Seq<u8>, c: Seq<u8>) -> Seq<u8> {
    if rf.len() < 4 || !is_pow2_len((rf.len() - 4) as nat) {
        rf
    } else {
        rf.subrange(0, 4) + inserted(rf.subrange(4, rf.len() as int), xor_bytes(m, c))
    }
}

/// The fixed header of a HELLO block.
pub struct HelloBlockHeader {
    pub peer_public_key: PublicKey,
    pub signature: [u8; 64],
    pub expiration: Timestamp,
}

/// The payload a HELLO signature covers; it is never transmitted.
pub struct HelloBlockSignaturePayload {
    pub size: u32,
    pub purpose: u32,
    pub expiration: Timestamp,
    pub hash_addrs: [u8; 64],
}

impl HelloBlockSignaturePayload {
    /// The payload for a block with this expiration and address digest.
    pub fn new(expiration: Timestamp, hash_addrs: [u8; 64]) -> (r: Self)
        ensures
            r.size == SIGNED_PAYLOAD_SIZE,
            r.purpose == HELLO_SIGNATURE_PURPOSE,
            r.expiration == expiration,
            r.hash_addrs == hash_addrs,
    {
        HelloBlockSignaturePayload {
            size: SIGNED_PAYLOAD_SIZE,
            purpose: HELLO_SIGNATURE_PURPOSE,
            expiration,
            hash_addrs,
        }
    }

    /// The 80 bytes of the payload, big-endian.
    pub fn as_bytes(&self) -> (r: Vec<u8>)
        ensures
            r@ == u32_be(self.size) + u32_be(self.purpose) + u64_be(self.expiration.0)
                + self.hash_addrs@,
    {
        let mut out: Vec<u8> = Vec::new();
        push_u32(&mut out, self.size);
        push_u32(&mut out, self.purpose);
        let e = self.expiration.0;
        push_u32(&mut out, (e / 0x1_0000_0000) as u32);
        push_u32(&mut out, (e % 0x1_0000_0000) as u32);
        let ghost before = out@;
        let mut i: usize = 0;
        while i < 64
            invariant
                0 <= i <= 64,
                self.hash_addrs@.len() == 64,
                out@ == before + self.hash_addrs@.subrange(0, i as int),
            decreases 64 - i,
        {
            out.push(self.hash_addrs[i]);
            i = i + 1;
            proof {
                assert(out@ =~= before + self.hash_addrs@.subrange(0, i as int));
            }
        }
        proof {
            assert(self.hash_addrs@.subrange(0, 64) =~= self.hash_addrs@);
            assert(u64_be(self.expiration.0) =~= u32_be((e / 0x1_0000_0000) as u32) + u32_be(
                (e % 0x1_0000_0000) as u32,
            ));
            assert(out@ =~= u32_be(self.size) + u32_be(self.purpose) + u64_be(self.expiration.0)
                + self.hash_addrs@);
        }
        out
    }
}

fn push_u32(out: &mut Vec<u8>, x: u32)
    ensures
        final(out)@ == old(out)@ + u32_be(x),
{
    out.push((x / 0x100_0000) as u8);
    out.push(((x / 0x1_0000) % 0x100) as u8);
    out.push(((x / 0x100) % 0x100) as u8);
    out.push((x % 0x100) as u8);
    proof {
        assert(out@ =~= old(out)@ + u32_be(x));
    }
}

/// A parsed HELLO block: its header and the bytes of its NUL-terminated
/// address list.
pub struct HelloBlock {
    header: HelloBlockHeader,
    addrs: Vec<u8>,
}

impl HelloBlock {
    pub closed spec fn public_key(&self) -> Seq<u8> {
        self.header.peer_public_key.0@
    }

    pub closed spec fn signature(&self) -> Seq<u8> {
        self.header.signature@
    }

    pub closed spec fn expiration(&self) -> u64 {
        self.header.expiration.0
    }

    /// The address bytes that follow the header.
    pub closed spec fn addr_bytes(&self) -> Seq<u8> {
        self.addrs@
    }

    /// The block in `b`: a header, then address bytes that are valid UTF-8
    /// and under the header's key carry the header's signature. `None`
    /// otherwise.
    pub fn parse(b: &[u8]) -> (r: Option<HelloBlock>)
        ensures
            r is Some <==> {
                &&& b@.len() >= HELLO_HEADER_LEN
                &&& hello_signature_valid(
                    b@.subrange(0, 32),
                    b@.subrange(32, 96),
                    be64(b@, 96) as u64,
                    b@.subrange(HELLO_HEADER_LEN as int, b@.len() as int),
                )
                &&& utf8_valid(b@.subrange(HELLO_HEADER_LEN as int, b@.len() as int))
            },
            r matches Some(h) ==> {
                &&& h.public_key() == b@.subrange(0, 32)
                &&& h.signature() == b@.subrange(32, 96)
                &&& h.expiration() as int == be64(b@, 96)
                &&& h.addr_bytes() == b@.subrange(HELLO_HEADER_LEN as int, b@.len() as int)
            },
    {
        if b.len() < HELLO_HEADER_LEN {
            return None;
        }
        let header = HelloBlockHeader {
            peer_public_key: PublicKey(read_array::<32>(b, 0)),
            signature: read_array::<64>(b, 32),
            expiration: Timestamp(read_u64(b, 96)),
        };
        let addrs = read_vec(b, HELLO_HEADER_LEN, b.len());
        let block = HelloBlock { header, addrs };
        if !block.validate_block_store_request() {
            return None;
        }
        if !is_utf8(block.addrs.as_slice()) {
            return None;
        }
        Some(block)
    }

    /// Whether a query for a HELLO block is acceptable: HELLO blocks take
    /// no extended query.
    pub fn validate_block_query(_key: &BlockKey, x_query: &[u8]) -> (r: bool)
        ensures
            r == (x_query@.len() == 0),
    {
        x_query.len() == 0
    }

    /// The key under which this block is stored: the identifier of the
    /// peer it advertises.
    pub fn derive_block_key(&self) -> (r: Option<BlockKey>)
        ensures
            r matches Some(k) && k.0@ == sha512_of(self.public_key()),
    {
        let peer = self.header.peer_public_key.peer();
        Some(BlockKey(peer.id().0))
    }

    /// Whether the header's signature is valid, under the header's key,
    /// for the payload made of the expiration and the digest of the
    /// address bytes.
    pub fn validate_block_store_request(&self) -> (r: bool)
        ensures
            r == hello_signature_valid(
                self.public_key(),
                self.signature(),
                self.expiration(),
                self.addr_bytes(),
            ),
    {
        let digest = sha512(self.addrs.as_slice());
        let payload = HelloBlockSignaturePayload::new(self.header.expiration, digest);
        let bytes = payload.as_bytes();
        ed25519_verify(&self.header.peer_public_key.0, bytes.as_slice(), &self.header.signature)
    }

    /// A fresh result filter for `filter_size` expected results: the
    /// mutator, big-endian, then a zeroed bloom filter of four bytes for
    /// each expected result, their number rounded up to a power of two.
    pub fn setup_result_filter(&self, filter_size: u32, mutator: u32) -> (r: Vec<u8>)
        requires
            filter_size <= MAX_FILTER_SIZE,
        ensures
            r@.len() == 4 + 4 * next_pow2(filter_size as nat),
            r@.subrange(0, 4) == u32_be(mutator),
            forall|i: int| 4 <= i < r@.len() ==> r@[i] == 0u8,
            is_pow2_len((r@.len() - 4) as nat),
    {
        let e = next_power_of_two(filter_size);
        let b: usize = (e as usize) * 4;
        let mut result_filter: Vec<u8> = Vec::new();
        push_u32(&mut result_filter, mutator);
        let mut i: usize = 0;
        while i < b
            invariant
                0 <= i <= b,
                result_filter@.len() == 4 + i,
                result_filter@.subrange(0, 4) == u32_be(mutator),
                forall|j: int| 4 <= j < result_filter@.len() ==> result_filter@[j] == 0u8,
            decreases b - i,
        {
            result_filter.push(0u8);
            i = i + 1;
            proof {
                assert(result_filter@.subrange(0, 4) =~= u32_be(mutator));
            }
        }
        proof {
            lemma_four_times_pow2(e);
        }
        result_filter
    }

    /// Checks this block against the result filter `rf` of a query:
    /// `Irrelevant` if `rf` is malformed, `Duplicate` if the filter already
    /// holds the result, `More` otherwise. The filter is not changed.
    pub fn filter_result(&self, _key: &BlockKey, rf: &[u8], _x_query: &[u8]) -> (r: FilterResult)
        ensures
            rf@.len() < 4 ==> r == FilterResult::Irrelevant,
            rf@.len() >= 4 ==> r == result_class(
                rf@,
                sha512_of(rf@.subrange(0, 4)),
                sha512_of(self.addr_bytes()),
            ),
    {
        if rf.len() < 4 {
            return FilterResult::Irrelevant;
        }
        let m = sha512(&rf[0..4]);
        let c = sha512(self.addrs.as_slice());
        classify_result(rf, &m, &c)
    }

    /// Records this block as seen in the result filter `rf`, so that a
    /// later check of it returns `Duplicate`. A malformed `rf` is left
    /// unchanged.
    pub fn insert_result(&self, rf: &mut Vec<u8>)
        ensures
            old(rf)@.len() >= 4 ==> final(rf)@ == result_recorded(
                old(rf)@,
                sha512_of(old(rf)@.subrange(0, 4)),
                sha512_of(self.addr_bytes()),
            ),
            old(rf)@.len() < 4 ==> final(rf)@ == old(rf)@,
    {
        if rf.len() < 4 {
            return;
        }
        let m = sha512(&rf.as_slice()[0..4]);
        let c = sha512(self.addrs.as_slice());
        record_result(rf, &m, &c);
    }

    /// The addresses of this block, in order.
    pub fn addrs(&self) -> (r: Addrs)
        ensures
            r.rest() == self.addr_bytes(),
    {
        Addrs { bytes: self.addrs.clone(), pos: 0 }
    }
}

/// Classifies a result against the result filter `rf`, given the digest
/// `m` of the filter's mutator and the digest `c` of the result's content.
pub fn classify_result(rf: &[u8], m: &[u8; 64], c: &[u8; 64]) -> (r: FilterResult)
    ensures
        r == result_class(rf@, m@, c@),
{
    let n = rf.len();
    if n < 4 {
        return FilterResult::Irrelevant;
    }
    let bytes = read_vec(rf, 4, n);
    let bloom = match BloomFilter::from(bytes) {
        Some(f) => f,
        None => return FilterResult::Irrelevant,
    };
    let key = xor(m, c);
    proof {
        assert(key@ =~= xor_bytes(m@, c@));
    }
    if bloom.test(&key) {
        FilterResult::Duplicate
    } else {
        FilterResult::More
    }
}

/// Inserts the result with mutator digest `m` and content digest `c` into
/// the result filter `rf`; a malformed `rf` is left unchanged.
pub fn record_result(rf: &mut Vec<u8>, m: &[u8; 64], c: &[u8; 64])
    ensures
        final(rf)@ == result_recorded(old(rf)@, m@, c@),
{
    let n = rf.len();
    if n < 4 {
        return;
    }
    let bytes = read_vec(rf.as_slice(), 4, n);
    let mut bloom = match BloomFilter::from(bytes) {
        Some(f) => f,
        None => return,
    };
    let key = xor(m, c);
    proof {
        assert(key@ =~= xor_bytes(m@, c@));
    }
    bloom.insert(&key);
    let tail = bloom.into_bytes();
    let mut out = read_vec(rf.as_slice(), 0, 4);
    let ghost head = out@;
    let mut i: usize = 0;
    while i < tail.len()
        invariant
            0 <= i <= tail@.len(),
            out@ == head + tail@.subrange(0, i as int),
        decreases tail@.len() - i,
    {
        out.push(tail[i]);
        i = i + 1;
        proof {
            assert(out@ =~= head + tail@.subrange(0, i as int));
        }
    }
    proof {
        assert(tail@.subrange(0, tail@.len() as int) =~= tail@);
    }
    *rf = out;
}

/// A fresh result filter classifies a result as new; once the result is
/// recorded, the same check finds it a duplicate, and the mutator is kept.
pub proof fn lemma_result_filter_round_trip(rf: Seq<u8>, m: Seq<u8>, c: Seq<u8>)
    requires
        rf.len() >= 4,
        is_pow2_len((rf.len() - 4) as nat),
        forall|i: int| 4 <= i < rf.len() ==> rf[i] == 0u8,
    ensures
        result_class(rf, m, c) == FilterResult::More,
        result_recorded(rf, m, c).subrange(0, 4) == rf.subrange(0, 4),
        result_class(result_recorded(rf, m, c), m, c) == FilterResult::Duplicate,
{
    let tail = rf.subrange(4, rf.len() as int);
    let key = xor_bytes(m, c);
    lemma_empty_contains_nothing(tail, key);
    lemma_insert_contains(tail, key, key);
    lemma_inserted_len(tail, key);
    let rec = result_recorded(rf, m, c);
    assert(rec.subrange(0, 4) =~= rf.subrange(0, 4));
    assert(rec.subrange(4, rec.len() as int) =~= inserted(tail, key));
}

/// The addresses of a HELLO block: NUL-terminated strings, read in order.
pub struct Addrs {
    bytes: Vec<u8>,
    pos: usize,
}

impl Addrs {
    pub closed spec fn wf(&self) -> bool {
        self.pos <= self.bytes@.len()
    }

    /// The bytes not yet read.
    pub closed spec fn rest(&self) -> Seq<u8> {
        self.bytes@.subrange(self.pos as int, self.bytes@.len() as int)
    }

    /// The next address: the bytes up to the next NUL, which is consumed.
    /// `None`, with nothing consumed, once no NUL is left; bytes after the
    /// last NUL are never returned.
    pub fn next(&mut self) -> (r: Option<Vec<u8>>)
        requires
            old(self).wf(),
        ensures
            final(self).wf(),
            r is None <==> forall|i: int| 0 <= i < old(self).rest().len() ==> old(self).rest()[i] != 0u8,
            r is None ==> final(self).rest() == old(self).rest(),
            r matches Some(a) ==> {
                &&& a@.len() < old(self).rest().len()
                &&& a@ == old(self).rest().subrange(0, a@.len() as int)
                &&& old(self).rest()[a@.len() as int] == 0u8
                &&& forall|i: int| 0 <= i < a@.len() ==> a@[i] != 0u8
                &&& final(self).rest() == old(self).rest().subrange(
                    a@.len() as int + 1,
                    old(self).rest().len() as int,
                )
            },
    {
        let n = self.bytes.len();
        let mut k = self.pos;
        while k < n && self.bytes[k] != 0
            invariant
                self.pos <= k <= n,
                n == self.bytes@.len(),
                forall|i: int| self.pos <= i < k ==> self.bytes@[i] != 0u8,
            decreases n - k,
        {
            k = k + 1;
        }
        if k == n {
            proof {
                assert forall|i: int| 0 <= i < self.rest().len() implies self.rest()[i] != 0u8 by {
                    assert(self.rest()[i] == self.bytes@[self.pos + i]);
                }
            }
            return None;
        }
        let a = read_vec(self.bytes.as_slice(), self.pos, k);
        let ghost before = self.rest();
        proof {
            assert(before[k - self.pos] == 0u8);
            assert(a@ =~= before.subrange(0, a@.len() as int));
        }
        self.pos = k + 1;
        proof {
            assert(self.rest() =~= before.subrange(a@.len() as int + 1, before.len() as int));
        }
        Some(a)
    }
}

/// Largest expected result count a result filter can be set up for:
/// beyond it the filter's size in bits no longer fits 32 bits.
pub const MAX_FILTER_SIZE: u32 = 0x0800_0000;

/// The smallest power of two not below `n`.
pub open spec fn next_pow2(n: nat) -> nat
    decreases n,
{
    if n <= 1 {
        1
    } else {
        2 * next_pow2(((n + 1) / 2) as nat)
    }
}

/// The smallest power of two not below `n`, by halving.
fn next_power_of_two(n: u32) -> (r: u32)
    requires
        n <= MAX_FILTER_SIZE,
    ensures
        r as nat == next_pow2(n as nat),
        1 <= r <= MAX_FILTER_SIZE,
        r & vstd::prelude::sub(r, 1) == 0,
    decreases n,
{
    proof {
        lemma2_to64();
        lemma_next_pow2_le(n as nat, 27);
    }
    if n <= 1 {
        proof {
            assert(1u32 & vstd::prelude::sub(1u32, 1) == 0) by (bit_vector);
        }
        1
    } else {
        let h = next_power_of_two((n + 1) / 2);
        let r = h + h;
        proof {
            assert(r == vstd::prelude::add(h, h));
            assert(r & vstd::prelude::sub(r, 1) == 0) by (bit_vector)
                requires
                    r == vstd::prelude::add(h, h),
                    1 <= h <= 0x0800_0000u32,
                    h & vstd::prelude::sub(h, 1) == 0,
            ;
        }
        r
    }
}

proof fn lemma_next_pow2_le(n: nat, k: nat)
    requires
        n <= pow2(k),
    ensures
        next_pow2(n) <= pow2(k),
        next_pow2(n) >= 1,
    decreases k,
{
    lemma_pow2_pos(k);
    lemma2_to64();
    if n > 1 {
        assert(k > 0);
        lemma_pow2_unfold(k);
        lemma_next_pow2_le(((n + 1) / 2) as nat, (k - 1) as nat);
    }
}

proof fn lemma_four_times_pow2(e: u32)
    requires
        1 <= e <= MAX_FILTER_SIZE,
        e & vstd::prelude::sub(e, 1) == 0,
    ensures
        is_pow2_len(4 * e as nat),
{
    let d = vstd::prelude::add(e, e);
    let y = vstd::prelude::add(d, d);
    assert(y == 4 * e);
    let x = y as usize;
    assert(x & vstd::prelude::sub(x, 1) == 0) by (bit_vector)
        requires
            x == y as usize,
            y == vstd::prelude::add(d, d),
            d == vstd::prelude::add(e, e),
            1 <= e <= 0x0800_0000u32,
            e & vstd::prelude::sub(e, 1) == 0,
    ;
}

} // verus!
