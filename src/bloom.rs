//! Bloom filters over 512-bit keys. A key is read as sixteen big-endian
//! 32-bit words; each word `k` selects bit `k & 7` of byte `(k >> 3) & mask`,
//! where `mask` is the buffer length minus one.

use vstd::prelude::*;

verus! {

/// Whether `n` is a usable buffer length: a power of two.
pub open spec fn is_pow2_len(n: nat) -> bool {
    0 < n <= usize::MAX && (n as usize) & ((n - 1) as usize) == 0
}

/// The `j`-th big-endian 32-bit word of a key.
pub open spec fn key_word(key: Seq<u8>, j: int) -> u32 {
    ((key[4 * j] as u32) << 24u32) | ((key[4 * j + 1] as u32) << 16u32) | ((key[4 * j + 2] as u32)
        << 8u32) | (key[4 * j + 3] as u32)
}

/// The byte a word selects in a buffer of `len` bytes.
pub open spec fn word_byte(w: u32, len: nat) -> int {
    (((w >> 3u32) as usize) & ((len - 1) as usize)) as int
}

/// The bit a word selects within its byte.
pub open spec fn word_bit(w: u32) -> u8 {
    (w & 7u32) as u8
}

pub open spec fn bit_is_set(bytes: Seq<u8>, i: int, bit: u8) -> bool {
    (bytes[i] >> bit) & 1u8 == 1u8
}

/// Whether the bit selected by word `j` of `key` is set.
pub open spec fn word_is_set(bytes: Seq<u8>, key: Seq<u8>, j: int) -> bool {
    bit_is_set(bytes, word_byte(key_word(key, j), bytes.len()), word_bit(key_word(key, j)))
}

/// Membership: every bit that the key selects is set.
pub open spec fn contains(bytes: Seq<u8>, key: Seq<u8>) -> bool {
    forall|j: int| 0 <= j < 16 ==> #[trigger] word_is_set(bytes, key, j)
}

/// The buffer with the bits of the first `n` words of `key` set.
pub open spec fn insert_words(bytes: Seq<u8>, key: Seq<u8>, n: int) -> Seq<u8>
    decreases n,
{
    if n <= 0 {
        bytes
    } else {
        let b = insert_words(bytes, key, n - 1);
        let w = key_word(key, n - 1);
        let i = word_byte(w, bytes.len());
        b.update(i, b[i] | (1u8 << word_bit(w)))
    }
}

/// The buffer after inserting `key`.
pub open spec fn inserted(bytes: Seq<u8>, key: Seq<u8>) -> Seq<u8> {
    insert_words(bytes, key, 16)
}

/// An approximate-membership set over 64-byte keys, held in a buffer whose
/// length is a power of two.
pub struct BloomFilter {
    byte_mask: usize,
    bytes: Vec<u8>,
}

impl View for BloomFilter {
    type V = Seq<u8>;

    closed spec fn view(&self) -> Seq<u8> {
        self.bytes@
    }
}

impl BloomFilter {
    pub closed spec fn wf(&self) -> bool {
        is_pow2_len(self.bytes@.len()) && self.byte_mask == self.bytes@.len() - 1
    }

    /// A zeroed filter of `bits` bits; `None` unless `bits` is a power of
    /// two and at least 8.
    pub fn new(bits: u32) -> (r: Option<Self>)
        ensures
            r is Some <==> (bits >= 8 && bits & vstd::prelude::sub(bits, 1) == 0),
            r matches Some(f) ==> f.wf() && f@ == Seq::new((bits / 8) as nat, |i: int| 0u8),
    {
        if bits < 8 || bits & (bits - 1) != 0 {
            return None;
        }
        let n: usize = (bits / 8) as usize;
        proof {
            let b = bits;
            assert(b >= 8 && b & vstd::prelude::sub(b, 1) == 0 ==> (b / 8) & vstd::prelude::sub(b / 8, 1) == 0 && b / 8 > 0)
                by (bit_vector);
            let m = (b / 8) as usize;
            assert(m & vstd::prelude::sub(m, 1) == 0) by (bit_vector)
                requires
                    m == (b / 8) as usize,
                    b >= 8,
                    b & vstd::prelude::sub(b, 1) == 0,
            ;
        }
        let bytes = vec![0u8; n];
        proof {
            assert(bytes@ =~= Seq::new((bits / 8) as nat, |i: int| 0u8));
        }
        Some(BloomFilter { byte_mask: n - 1, bytes })
    }

    /// A filter over the given buffer; `None` unless its length is a power
    /// of two.
    pub fn from(bytes: Vec<u8>) -> (r: Option<Self>)
        ensures
            r is Some <==> is_pow2_len(bytes@.len()),
            r matches Some(f) ==> f.wf() && f@ == bytes@,
    {
        let n = bytes.len();
        if n == 0 || n & (n - 1) != 0 {
            return None;
        }
        Some(BloomFilter { byte_mask: n - 1, bytes })
    }

    /// The filter's buffer.
    pub fn into_bytes(self) -> (r: Vec<u8>)
        ensures
            r@ == self@,
    {
        self.bytes
    }

    /// The filter's buffer, borrowed.
    pub fn as_bytes(&self) -> (r: &Vec<u8>)
        ensures
            r@ == self@,
    {
        &self.bytes
    }

    /// Whether `key` may be in the set: false means it certainly is not.
    pub fn test(&self, key: &[u8; 64]) -> (r: bool)
        requires
            self.wf(),
        ensures
            r == contains(self@, key@),
    {
        let mut out = true;
        let mut j: usize = 0;
        while j < 16
            invariant
                self.wf(),
                key@.len() == 64,
                0 <= j <= 16,
                out == (forall|t: int| 0 <= t < j ==> #[trigger] word_is_set(self@, key@, t)),
            decreases 16 - j,
        {
            let w = read_word(key, j);
            let (byte, bit) = self.select(w);
            let set = (self.bytes[byte] >> bit) & 1 == 1;
            if !set {
                out = false;
            }
            proof {
                assert(set == word_is_set(self@, key@, j as int));
                if !set {
                    assert(!(forall|t: int| 0 <= t < j + 1 ==> #[trigger] word_is_set(self@, key@, t)));
                }
                assert(out == (forall|t: int| 0 <= t < j + 1 ==> #[trigger] word_is_set(self@, key@, t)));
            }
            j = j + 1;
        }
        out
    }

    /// Adds `key` to the set by setting every bit it selects.
    pub fn insert(&mut self, key: &[u8; 64])
        requires
            old(self).wf(),
        ensures
            final(self).wf(),
            final(self)@ == inserted(old(self)@, key@),
    {
        let ghost start = self@;
        let mut j: usize = 0;
        while j < 16
            invariant
                self.wf(),
                key@.len() == 64,
                0 <= j <= 16,
                self@.len() == start.len(),
                self@ == insert_words(start, key@, j as int),
            decreases 16 - j,
        {
            let w = read_word(key, j);
            let (byte, bit) = self.select(w);
            let v = self.bytes[byte] | (1u8 << bit);
            self.bytes.set(byte, v);
            j = j + 1;
        }
    }

    /// The byte index and bit that a word selects.
    fn select(&self, w: u32) -> (r: (usize, u8))
        requires
            self.wf(),
        ensures
            r.0 as int == word_byte(w, self@.len()),
            r.0 < self@.len(),
            r.1 == word_bit(w),
            r.1 < 8,
    {
        let byte = ((w >> 3) as usize) & self.byte_mask;
        let bit = (w & 7) as u8;
        proof {
            let m = self.byte_mask;
            let x = (w >> 3u32) as usize;
            assert(x & m <= m) by (bit_vector);
            assert((w & 7u32) < 8) by (bit_vector);
        }
        (byte, bit)
    }
}

/// Reads word `j` of a key, big-endian.
fn read_word(key: &[u8; 64], j: usize) -> (r: u32)
    requires
        j < 16,
    ensures
        r == key_word(key@, j as int),
{
    let i = 4 * j;
    ((key[i] as u32) << 24) | ((key[i + 1] as u32) << 16) | ((key[i + 2] as u32) << 8) | (
    key[i + 3] as u32)
}

/// The fixed 1024-bit filter carried in request headers to prevent loops.
pub struct PeerBloomFilter {
    filter: BloomFilter,
}

impl PeerBloomFilter {
    pub closed spec fn wf(&self) -> bool {
        self.filter.wf() && self.filter@.len() == 128
    }

    pub closed spec fn view(&self) -> Seq<u8> {
        self.filter@
    }

    /// The filter held in the 128 bytes of a header.
    pub fn from_bytes(bits: [u8; 128]) -> (r: Self)
        ensures
            r.wf(),
            r.view() == bits@,
    {
        let mut bytes: Vec<u8> = Vec::new();
        let mut i: usize = 0;
        while i < 128
            invariant
                0 <= i <= 128,
                bits@.len() == 128,
                bytes@ == bits@.subrange(0, i as int),
            decreases 128 - i,
        {
            bytes.push(bits[i]);
            i = i + 1;
            proof {
                assert(bytes@ =~= bits@.subrange(0, i as int));
            }
        }
        proof {
            assert(bytes@ =~= bits@);
            assert(128usize & 127usize == 0) by (bit_vector);
        }
        PeerBloomFilter { filter: BloomFilter { byte_mask: 127, bytes } }
    }

    pub fn get_ref(&self) -> (r: &BloomFilter)
        requires
            self.wf(),
        ensures
            r.wf(),
            r@ == self.view(),
            r@.len() == 128,
    {
        &self.filter
    }

    pub fn get_mut(&mut self) -> (r: &mut BloomFilter)
        requires
            old(self).wf(),
        ensures
            r.wf(),
            r@ == old(self).view(),
            final(self).view() == final(r)@,
            final(self).wf() <==> final(r).wf() && final(r)@.len() == 128,
    {
        &mut self.filter
    }
}

impl Default for PeerBloomFilter {
    fn default() -> (r: Self)
        ensures
            r.wf(),
            r.view() == Seq::new(128, |i: int| 0u8),
    {
        PeerBloomFilter::from_bytes([0u8; 128])
    }
}

proof fn lemma_word_bit_lt(w: u32)
    ensures
        word_bit(w) < 8,
{
    assert((w & 7u32) < 8) by (bit_vector);
}

proof fn lemma_word_byte_lt(w: u32, len: nat)
    requires
        is_pow2_len(len),
    ensures
        0 <= word_byte(w, len) < len,
{
    let m = (len - 1) as usize;
    let x = (w >> 3u32) as usize;
    assert(x & m <= m) by (bit_vector);
}

proof fn lemma_set_bit_keeps(x: u8, s: u8, t: u8)
    requires
        s < 8,
        t < 8,
    ensures
        (x >> t) & 1u8 == 1u8 ==> ((x | (1u8 << s)) >> t) & 1u8 == 1u8,
        ((x | (1u8 << s)) >> s) & 1u8 == 1u8,
{
    assert((x >> t) & 1u8 == 1u8 ==> ((x | (1u8 << s)) >> t) & 1u8 == 1u8) by (bit_vector)
        requires
            s < 8,
            t < 8,
    ;
    assert(((x | (1u8 << s)) >> s) & 1u8 == 1u8) by (bit_vector)
        requires
            s < 8,
    ;
}

proof fn lemma_insert_words_len(bytes: Seq<u8>, key: Seq<u8>, n: int)
    requires
        is_pow2_len(bytes.len()),
    ensures
        insert_words(bytes, key, n).len() == bytes.len(),
    decreases n,
{
    if n > 0 {
        lemma_insert_words_len(bytes, key, n - 1);
        lemma_word_byte_lt(key_word(key, n - 1), bytes.len());
    }
}

/// Setting bits keeps every bit that was set, and sets those of the first
/// `n` words.
proof fn lemma_insert_words(bytes: Seq<u8>, key: Seq<u8>, n: int, i: int, t: u8)
    requires
        is_pow2_len(bytes.len()),
        0 <= i < bytes.len(),
        t < 8,
        0 <= n <= 16,
    ensures
        bit_is_set(bytes, i, t) ==> bit_is_set(insert_words(bytes, key, n), i, t),
        forall|j: int| 0 <= j < n ==> #[trigger] word_is_set(insert_words(bytes, key, n), key, j),
    decreases n,
{
    if n > 0 {
        lemma_insert_words(bytes, key, n - 1, i, t);
        lemma_insert_words_len(bytes, key, n - 1);
        lemma_insert_words_len(bytes, key, n);
        let b = insert_words(bytes, key, n - 1);
        let w = key_word(key, n - 1);
        let p = word_byte(w, bytes.len());
        let s = word_bit(w);
        lemma_word_bit_lt(w);
        lemma_word_byte_lt(w, bytes.len());
        lemma_set_bit_keeps(b[p], s, t);
        lemma_set_bit_keeps(b[p], s, s);
        assert forall|j: int| 0 <= j < n implies #[trigger] word_is_set(
            insert_words(bytes, key, n),
            key,
            j,
        ) by {
            if j < n - 1 {
                let wj = key_word(key, j);
                lemma_word_bit_lt(wj);
                lemma_word_byte_lt(wj, bytes.len());
                lemma_insert_words(bytes, key, n - 1, word_byte(wj, bytes.len()), word_bit(wj));
                lemma_set_bit_keeps(b[p], s, word_bit(wj));
                assert(word_is_set(b, key, j));
            }
        }
    }
}

/// Inserting a key keeps the buffer's length.
pub proof fn lemma_inserted_len(bytes: Seq<u8>, key: Seq<u8>)
    requires
        is_pow2_len(bytes.len()),
    ensures
        inserted(bytes, key).len() == bytes.len(),
{
    lemma_insert_words_len(bytes, key, 16);
}

/// Nothing is in a zeroed filter.
pub proof fn lemma_empty_contains_nothing(bytes: Seq<u8>, key: Seq<u8>)
    requires
        is_pow2_len(bytes.len()),
        forall|i: int| 0 <= i < bytes.len() ==> bytes[i] == 0u8,
    ensures
        !contains(bytes, key),
{
    let w = key_word(key, 0);
    lemma_word_byte_lt(w, bytes.len());
    let s = word_bit(w);
    assert((0u8 >> s) & 1u8 == 0u8) by (bit_vector);
    assert(!word_is_set(bytes, key, 0));
}

/// A key is in the filter once it has been inserted, and inserting keys
/// never removes one that was in it.
pub proof fn lemma_insert_contains(bytes: Seq<u8>, key: Seq<u8>, other: Seq<u8>)
    requires
        is_pow2_len(bytes.len()),
    ensures
        contains(inserted(bytes, key), key),
        contains(bytes, other) ==> contains(inserted(bytes, key), other),
{
    lemma_insert_words(bytes, key, 16, 0, 0);
    lemma_insert_words_len(bytes, key, 16);
    if contains(bytes, other) {
        assert forall|j: int| 0 <= j < 16 implies #[trigger] word_is_set(
            inserted(bytes, key),
            other,
            j,
        ) by {
            assert(word_is_set(bytes, other, j));
            let w = key_word(other, j);
            lemma_word_bit_lt(w);
            lemma_word_byte_lt(w, bytes.len());
            lemma_insert_words(bytes, key, 16, word_byte(w, bytes.len()), word_bit(w));
        }
    }
}

} // verus!
