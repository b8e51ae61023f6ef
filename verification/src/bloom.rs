use vstd::prelude::*;
use vstd::bytes::*;
use vstd::slice::*;
use vstd::wrapping::u64_specs;
use crate::error::IoError;

verus! {

pub const SEED1: u64 = 0x517cc1b727220a95;

pub const SEED2: u64 = 0x9e3779b97f4a7c15;

pub const PRIME: u64 = 0x100000001b3;

/// A Bloom filter over byte keys: `num_bits` bits packed eight to a byte,
/// probed `k` times per key by double hashing.
pub struct BloomFilter {
    pub bits: Vec<u8>,
    pub num_bits: usize,
    pub k: u32,
}

/// Number of bytes needed to hold `num_bits` bits.
pub open spec fn byte_count(num_bits: nat) -> nat {
    num_bits / 8 + if num_bits % 8 != 0 { 1nat } else { 0nat }
}

/// The one-bit mask of `bit` inside its byte.
pub open spec fn bit_mask(bit: int) -> u8 {
    1u8 << ((bit % 8) as u8)
}

/// Whether `bit` is set in the packed bit array `bits`.
pub open spec fn bit_set_in(bits: Seq<u8>, bit: int) -> bool {
    bits[bit / 8] & bit_mask(bit) != 0
}

/// One round of the seeded FNV-style mixing that the filter hashes keys with.
pub open spec fn hash_step(h: u64, b: u8) -> u64 {
    let x = h ^ (b as u64);
    let y = u64_specs::wrapping_mul(x, PRIME);
    y ^ (y >> 32u64)
}

/// The hash of `key` started from `seed`.
pub open spec fn spec_hash_with_seed(key: Seq<u8>, seed: u64) -> u64
    decreases key.len(),
{
    if key.len() == 0 {
        seed
    } else {
        hash_step(spec_hash_with_seed(key.drop_last(), seed), key.last())
    }
}

/// The bit position of the `i`-th probe of a key whose hash pair is `(h1, h2)`.
pub open spec fn probe(h1: u64, h2: u64, i: int, num_bits: nat) -> int {
    (u64_specs::wrapping_add(h1, u64_specs::wrapping_mul(i as u64, h2)) as int) % (num_bits as int)
}

/// The positions of the first `j` probes of `key`.
pub open spec fn probes_upto(key: Seq<u8>, num_bits: nat, j: int) -> Set<int> {
    Set::new(
        |p: int|
            exists|i: int|
                0 <= i < j && p == probe(
                    spec_hash_with_seed(key, SEED1),
                    spec_hash_with_seed(key, SEED2),
                    i,
                    num_bits,
                ),
    )
}

/// The positions of all `k` probes of `key`: the bits that inserting it sets.
pub open spec fn probe_set(key: Seq<u8>, num_bits: nat, k: nat) -> Set<int> {
    probes_upto(key, num_bits, k as int)
}

/// The serialized form: `num_bits` as a little-endian `u32`, `k` as one byte,
/// then the bit array.
pub open spec fn spec_bloom_bytes(num_bits: usize, k: u32, bits: Seq<u8>) -> Seq<u8> {
    spec_u32_to_le_bytes(num_bits as u32) + seq![k as u8] + bits
}

/// The set bits of a filter that started as `start` after `keys` were
/// inserted in order.
pub open spec fn inserted_all(start: Set<int>, keys: Seq<Seq<u8>>, num_bits: nat, k: nat) -> Set<int>
    decreases keys.len(),
{
    if keys.len() == 0 {
        start
    } else {
        inserted_all(start, keys.drop_last(), num_bits, k).union(
            probe_set(keys.last(), num_bits, k),
        )
    }
}

/// No false negatives: after any run of insertions every inserted key still
/// passes `may_contain`, and no bit that was set is ever cleared.
pub proof fn law_no_false_negatives(start: Set<int>, keys: Seq<Seq<u8>>, num_bits: nat, k: nat)
    ensures
        start.subset_of(inserted_all(start, keys, num_bits, k)),
        forall|i: int|
            0 <= i < keys.len() ==> #[trigger] probe_set(keys[i], num_bits, k).subset_of(
                inserted_all(start, keys, num_bits, k),
            ),
    decreases keys.len(),
{
    if keys.len() > 0 {
        law_no_false_negatives(start, keys.drop_last(), num_bits, k);
        assert forall|i: int| 0 <= i < keys.len() implies #[trigger] probe_set(
            keys[i],
            num_bits,
            k,
        ).subset_of(inserted_all(start, keys, num_bits, k)) by {
            let prev = inserted_all(start, keys.drop_last(), num_bits, k);
            let all = inserted_all(start, keys, num_bits, k);
            assert(all == prev.union(probe_set(keys.last(), num_bits, k)));
            if i < keys.len() - 1 {
                assert(keys.drop_last()[i] == keys[i]);
                assert(probe_set(keys.drop_last()[i], num_bits, k).subset_of(prev));
            }
        }
        let prev = inserted_all(start, keys.drop_last(), num_bits, k);
        assert(start.subset_of(prev));
    }
}

/// Reading back what `write_to` wrote gives the same filter: `num_bits` and
/// `k` where they fit their fields, and the same bit array.
pub proof fn law_bloom_bytes_round_trip(num_bits: usize, k: u32, bits: Seq<u8>, rest: Seq<u8>)
    requires
        num_bits <= u32::MAX,
        k <= u8::MAX,
        bits.len() == byte_count(num_bits as nat),
    ensures
        spec_read_bloom(spec_bloom_bytes(num_bits, k, bits) + rest) == Ok::<
            (usize, u32, Seq<u8>),
            IoError,
        >((num_bits, k, bits)),
{
    lemma_auto_spec_u32_to_from_le_bytes();
    let b = spec_bloom_bytes(num_bits, k, bits) + rest;
    assert(b.subrange(0, 4) =~= spec_u32_to_le_bytes(num_bits as u32));
    assert(b.subrange(5, 5 + byte_count(num_bits as nat) as int) =~= bits);
}

/// The first `i + 1` probes are the first `i` and the probe numbered `i`.
pub proof fn lemma_probes_step(key: Seq<u8>, num_bits: nat, i: int)
    requires
        0 <= i,
    ensures
        probes_upto(key, num_bits, i + 1) == probes_upto(key, num_bits, i).insert(
            probe(spec_hash_with_seed(key, SEED1), spec_hash_with_seed(key, SEED2), i, num_bits),
        ),
{
    let h1 = spec_hash_with_seed(key, SEED1);
    let h2 = spec_hash_with_seed(key, SEED2);
    let q = probe(h1, h2, i, num_bits);
    assert forall|p: int| probes_upto(key, num_bits, i + 1).contains(p) implies probes_upto(
        key,
        num_bits,
        i,
    ).insert(q).contains(p) by {
        let w = choose|w: int| 0 <= w < i + 1 && p == probe(h1, h2, w, num_bits);
        if w < i {
            assert(probes_upto(key, num_bits, i).contains(p));
        }
    }
    assert forall|p: int| probes_upto(key, num_bits, i).insert(q).contains(p) implies probes_upto(
        key,
        num_bits,
        i + 1,
    ).contains(p) by {
        if p == q {
            assert(0 <= i < i + 1 && p == probe(h1, h2, i, num_bits));
        } else {
            let w = choose|w: int| 0 <= w < i && p == probe(h1, h2, w, num_bits);
            assert(0 <= w < i + 1 && p == probe(h1, h2, w, num_bits));
        }
    }
    assert(probes_upto(key, num_bits, i + 1) =~= probes_upto(key, num_bits, i).insert(q));
}

/// Setting the mask of one bit sets that bit and leaves the other seven alone.
pub proof fn lemma_or_mask(b: u8, i: u8, j: u8)
    requires
        i < 8,
        j < 8,
    ensures
        (b | (1u8 << i)) & (1u8 << i) != 0,
        i != j ==> (((b | (1u8 << i)) & (1u8 << j) != 0) == (b & (1u8 << j) != 0)),
        0u8 & (1u8 << j) == 0,
{
    assert((b | (1u8 << i)) & (1u8 << i) != 0) by (bit_vector)
        requires
            i < 8,
    ;
    assert(i != j ==> (((b | (1u8 << i)) & (1u8 << j) != 0) == (b & (1u8 << j) != 0)))
        by (bit_vector)
        requires
            i < 8,
            j < 8,
    ;
    assert(0u8 & (1u8 << j) == 0) by (bit_vector);
}

/// No bit of `bits` at or above `num_bits` is set.
pub open spec fn clean_bits(num_bits: usize, bits: Seq<u8>) -> bool {
    forall|j: int| num_bits <= j < bits.len() * 8 ==> !#[trigger] bit_set_in(bits, j)
}

/// A byte is fixed by its eight bits.
proof fn lemma_byte_from_bits(x: u8, y: u8)
    requires
        forall|i: u8| i < 8 ==> ((x & (1u8 << i) != 0) == (y & (1u8 << i) != 0)),
    ensures
        x == y,
{
    let b0 = (x & (1u8 << 0u8) != 0) == (y & (1u8 << 0u8) != 0);
    let b1 = (x & (1u8 << 1u8) != 0) == (y & (1u8 << 1u8) != 0);
    let b2 = (x & (1u8 << 2u8) != 0) == (y & (1u8 << 2u8) != 0);
    let b3 = (x & (1u8 << 3u8) != 0) == (y & (1u8 << 3u8) != 0);
    let b4 = (x & (1u8 << 4u8) != 0) == (y & (1u8 << 4u8) != 0);
    let b5 = (x & (1u8 << 5u8) != 0) == (y & (1u8 << 5u8) != 0);
    let b6 = (x & (1u8 << 6u8) != 0) == (y & (1u8 << 6u8) != 0);
    let b7 = (x & (1u8 << 7u8) != 0) == (y & (1u8 << 7u8) != 0);
    assert(b0 && b1 && b2 && b3 && b4 && b5 && b6 && b7);
    assert(((x & (1u8 << 0u8) != 0) == (y & (1u8 << 0u8) != 0)) && ((x & (1u8 << 1u8) != 0) == (y
        & (1u8 << 1u8) != 0)) && ((x & (1u8 << 2u8) != 0) == (y & (1u8 << 2u8) != 0)) && ((x & (1u8
        << 3u8) != 0) == (y & (1u8 << 3u8) != 0)) && ((x & (1u8 << 4u8) != 0) == (y & (1u8 << 4u8)
        != 0)) && ((x & (1u8 << 5u8) != 0) == (y & (1u8 << 5u8) != 0)) && ((x & (1u8 << 6u8) != 0)
        == (y & (1u8 << 6u8) != 0)) && ((x & (1u8 << 7u8) != 0) == (y & (1u8 << 7u8) != 0)) ==> x
        == y) by (bit_vector);
}

/// The bit array of a filter whose bits above `num_bits` are clear is fixed
/// by its set of set bits: the bytes that a filter writes are determined by
/// what it holds.
pub proof fn lemma_clean_bits_determined(num_bits: usize, a: Seq<u8>, b: Seq<u8>)
    requires
        a.len() == b.len(),
        clean_bits(num_bits, a),
        clean_bits(num_bits, b),
        bloom_set(num_bits, a) == bloom_set(num_bits, b),
    ensures
        a == b,
{
    assert forall|q: int| 0 <= q < a.len() implies a[q] == b[q] by {
        assert forall|i: u8| i < 8 implies ((a[q] & (1u8 << i) != 0) == (b[q] & (1u8 << i) != 0)) by {
            let j = 8 * q + i;
            assert(j / 8 == q && j % 8 == i);
            assert(((j % 8) as u8) == i);
            assert(bit_mask(j) == 1u8 << i);
            assert(bit_set_in(a, j) == (a[q] & (1u8 << i) != 0));
            assert(bit_set_in(b, j) == (b[q] & (1u8 << i) != 0));
            if j < num_bits {
                assert(bloom_set(num_bits, a).contains(j) == bloom_set(num_bits, b).contains(j));
                assert(bloom_set(num_bits, a).contains(j) == bit_set_in(a, j));
                assert(bloom_set(num_bits, b).contains(j) == bit_set_in(b, j));
            } else {
                assert(j < a.len() * 8);
                assert(!bit_set_in(a, j) && !bit_set_in(b, j));
            }
            assert(bit_set_in(a, j) == bit_set_in(b, j));
        }
        lemma_byte_from_bits(a[q], b[q]);
    }
    assert(a =~= b);
}

/// The set of bit positions below `num_bits` that are set in `bits`.
pub open spec fn bloom_set(num_bits: usize, bits: Seq<u8>) -> Set<int> {
    Set::new(|j: int| 0 <= j < num_bits && bit_set_in(bits, j))
}

/// What reading a filter from the front of `b` gives: `num_bits`, `k` and
/// the bit array, or `UnexpectedEof` when `b` is too short.
pub open spec fn spec_read_bloom(b: Seq<u8>) -> Result<(usize, u32, Seq<u8>), IoError> {
    if b.len() < 5 {
        Err(IoError::UnexpectedEof)
    } else {
        let num_bits = spec_u32_from_le_bytes(b.subrange(0, 4)) as usize;
        let n = byte_count(num_bits as nat);
        if b.len() < 5 + n {
            Err(IoError::UnexpectedEof)
        } else {
            Ok((num_bits, b[4] as u32, b.subrange(5, 5 + n as int)))
        }
    }
}

impl View for BloomFilter {
    type V = Set<int>;

    /// The set of bit positions below `num_bits` that are set.
    open spec fn view(&self) -> Set<int> {
        bloom_set(self.num_bits, self.bits@)
    }
}

impl BloomFilter {
    /// The bit array is exactly as long as `num_bits` needs.
    pub open spec fn wf(&self) -> bool {
        self.bits@.len() == byte_count(self.num_bits as nat)
    }

    /// No bit at or above `num_bits` is set.
    pub open spec fn clean(&self) -> bool {
        clean_bits(self.num_bits, self.bits@)
    }

    /// Probing is defined: there are bits to probe, or no probes at all.
    pub open spec fn can_probe(&self) -> bool {
        self.num_bits > 0 || self.k == 0
    }

    pub open spec fn is_set(&self, bit: int) -> bool {
        bit_set_in(self.bits@, bit)
    }

    /// A filter of `num_bits` cleared bits that probes each key `k` times.
    pub fn new(num_bits: usize, k: u32) -> (r: Self)
        ensures
            r.wf(),
            r.num_bits == num_bits,
            r.k == k,
            r.bits@ == Seq::new(byte_count(num_bits as nat), |i: int| 0u8),
            r@ == Set::<int>::empty(),
            r.clean(),
    {
        let num_byte = num_bits / 8 + if num_bits % 8 != 0 { 1 } else { 0 };
        let bits: Vec<u8> = vec![0u8; num_byte];
        let r = Self { bits, num_bits, k };
        assert(r.bits@ =~= Seq::new(byte_count(num_bits as nat), |i: int| 0u8));
        assert forall|j: int| !r@.contains(j) by {
            if 0 <= j < num_bits {
                lemma_or_mask(0, 0, (j % 8) as u8);
            }
        }
        assert(r@ =~= Set::<int>::empty());
        assert forall|j: int| num_bits <= j < r.bits@.len() * 8 implies !#[trigger] bit_set_in(
            r.bits@,
            j,
        ) by {
            lemma_or_mask(0, 0, (j % 8) as u8);
        }
        r
    }

    /// The byte that holds `bit`, and the mask of `bit` inside it.
    pub fn bit_ops(&self, bit: usize) -> (r: (usize, u8))
        requires
            bit < self.num_bits,
        ensures
            r.0 == bit / 8,
            r.1 == bit_mask(bit as int),
    {
        let byte_index = bit / 8;
        let bit_index = bit % 8;
        let bit_mask = 1u8 << (bit_index as u8);
        (byte_index, bit_mask)
    }

    /// Sets one bit; no other bit changes.
    pub fn set_bit(&mut self, bit: usize)
        requires
            old(self).wf(),
            bit < old(self).num_bits,
        ensures
            final(self).wf(),
            final(self).num_bits == old(self).num_bits,
            final(self).k == old(self).k,
            final(self).bits@ == old(self).bits@.update(
                (bit / 8) as int,
                old(self).bits@[(bit / 8) as int] | bit_mask(bit as int),
            ),
            final(self).is_set(bit as int),
            forall|j: int| j != bit && 0 <= j < old(self).num_bits ==>
                (#[trigger] final(self).is_set(j) == old(self).is_set(j)),
            final(self)@ == old(self)@.insert(bit as int),
            old(self).clean() ==> final(self).clean(),
    {
        let (byte_index, bit_mask) = self.bit_ops(bit);
        let old_byte = self.bits[byte_index];
        self.bits.set(byte_index, old_byte | bit_mask);
        proof {
            lemma_or_mask(old_byte, (bit % 8) as u8, (bit % 8) as u8);
            assert forall|j: int| j != bit && 0 <= j < old(self).num_bits implies
                (#[trigger] bit_set_in(self.bits@, j) == bit_set_in(old(self).bits@, j)) by {
                if j / 8 == bit / 8 {
                    lemma_or_mask(old_byte, (bit % 8) as u8, (j % 8) as u8);
                }
            }
            assert forall|j: int| #[trigger] self@.contains(j) == old(self)@.insert(
                bit as int,
            ).contains(j) by {
                if j != bit && 0 <= j < old(self).num_bits {
                    assert(bit_set_in(self.bits@, j) == bit_set_in(old(self).bits@, j));
                }
            }
            assert(self@ =~= old(self)@.insert(bit as int));
            if old(self).clean() {
                assert forall|j: int| self.num_bits <= j < self.bits@.len() * 8 implies
                    !#[trigger] bit_set_in(self.bits@, j) by {
                    assert(!bit_set_in(old(self).bits@, j));
                    if j / 8 == bit / 8 {
                        lemma_or_mask(old_byte, (bit % 8) as u8, (j % 8) as u8);
                    }
                }
            }
        }
    }

    /// Whether one bit is set.
    pub fn test_bit(&self, bit: usize) -> (r: bool)
        requires
            self.wf(),
            bit < self.num_bits,
        ensures
            r == self.is_set(bit as int),
            r == self@.contains(bit as int),
    {
        let (byte_index, bit_mask) = self.bit_ops(bit);
        (self.bits[byte_index] & bit_mask) != 0
    }

    fn probe_position(&self, h1: u64, h2: u64, i: u32) -> (pos: usize)
        requires
            self.num_bits > 0,
        ensures
            pos == probe(h1, h2, i as int, self.num_bits as nat),
            pos < self.num_bits,
    {
        let p = h1.wrapping_add((i as u64).wrapping_mul(h2)) % (self.num_bits as u64);
        p as usize
    }

    /// Sets the bits of every probe of `key`.
    pub fn insert(&mut self, key: &[u8])
        requires
            old(self).wf(),
            old(self).can_probe(),
        ensures
            final(self).wf(),
            final(self).num_bits == old(self).num_bits,
            final(self).k == old(self).k,
            final(self)@ == old(self)@.union(
                probe_set(key@, old(self).num_bits as nat, old(self).k as nat),
            ),
            old(self).clean() ==> final(self).clean(),
    {
        let (h1, h2) = hash_pair(key);
        let ghost nb = self.num_bits as nat;
        let mut i: u32 = 0;
        while i < self.k
            invariant
                self.wf(),
                self.num_bits == old(self).num_bits,
                self.k == old(self).k,
                self.can_probe(),
                i <= self.k,
                nb == self.num_bits as nat,
                h1 == spec_hash_with_seed(key@, SEED1),
                h2 == spec_hash_with_seed(key@, SEED2),
                self@ == old(self)@.union(probes_upto(key@, nb, i as int)),
                old(self).clean() ==> self.clean(),
            decreases self.k - i,
        {
            let pos = self.probe_position(h1, h2, i);
            self.set_bit(pos);
            proof {
                lemma_probes_step(key@, nb, i as int);
                assert(self@ =~= old(self)@.union(probes_upto(key@, nb, i + 1)));
            }
            i = i + 1;
        }
    }

    /// False when some probe of `key` finds its bit clear: the key was never
    /// inserted. True when every probe finds its bit set.
    pub fn may_contain(&self, key: &[u8]) -> (r: bool)
        requires
            self.wf(),
            self.can_probe(),
        ensures
            r == probe_set(key@, self.num_bits as nat, self.k as nat).subset_of(self@),
    {
        let (h1, h2) = hash_pair(key);
        let ghost nb = self.num_bits as nat;
        let mut i: u32 = 0;
        while i < self.k
            invariant
                self.wf(),
                self.can_probe(),
                i <= self.k,
                nb == self.num_bits as nat,
                h1 == spec_hash_with_seed(key@, SEED1),
                h2 == spec_hash_with_seed(key@, SEED2),
                probes_upto(key@, nb, i as int).subset_of(self@),
            decreases self.k - i,
        {
            let pos = self.probe_position(h1, h2, i);
            if !self.test_bit(pos) {
                proof {
                    assert(0 <= i < self.k && pos == probe(h1, h2, i as int, nb));
                    assert(probes_upto(key@, nb, self.k as int).contains(pos as int));
                }
                return false;
            }
            proof {
                lemma_probes_step(key@, nb, i as int);
            }
            i = i + 1;
        }
        true
    }

    /// Appends the serialized filter to `out`.
    pub fn write_to(&self, out: &mut Vec<u8>)
        ensures
            final(out)@ == old(out)@ + spec_bloom_bytes(self.num_bits, self.k, self.bits@),
    {
        let mut header = u32_to_le_bytes(self.num_bits as u32);
        header.push(self.k as u8);
        let ghost start = out@;
        out.append(&mut header);
        let mut i: usize = 0;
        while i < self.bits.len()
            invariant
                out@ == start + spec_u32_to_le_bytes(self.num_bits as u32) + seq![self.k as u8]
                    + self.bits@.take(i as int),
                i <= self.bits.len(),
            decreases self.bits.len() - i,
        {
            out.push(self.bits[i]);
            proof {
                assert(self.bits@.take(i + 1) =~= self.bits@.take(i as int).push(self.bits@[i as int]));
            }
            i = i + 1;
        }
        proof {
            assert(self.bits@.take(i as int) =~= self.bits@);
        }
    }

    /// The number of bytes that `write_to` appends.
    pub fn serialized_size(&self) -> (r: usize)
        requires
            self.bits@.len() + 5 <= usize::MAX,
        ensures
            r == spec_bloom_bytes(self.num_bits, self.k, self.bits@).len(),
            r == 5 + self.bits@.len(),
    {
        proof { vstd::bytes::lemma_auto_spec_u32_to_from_le_bytes(); }
        4 + 1 + self.bits.len()
    }

    /// Reads a filter back from the front of `bytes`; bytes after the bit
    /// array are ignored. Fails with `UnexpectedEof` when `bytes` is too short.
    pub fn read_from(bytes: &[u8]) -> (r: Result<Self, IoError>)
        ensures
            match r {
                Ok(f) => {
                    &&& spec_read_bloom(bytes@) == Ok::<(usize, u32, Seq<u8>), IoError>(
                        (f.num_bits, f.k, f.bits@),
                    )
                    &&& f.wf()
                },
                Err(e) => spec_read_bloom(bytes@) == Err::<(usize, u32, Seq<u8>), IoError>(e),
            },
    {
        if bytes.len() < 4 {
            return Err(IoError::UnexpectedEof);
        }
        let num_bits = u32_from_le_bytes(slice_subrange(bytes, 0, 4)) as usize;
        if bytes.len() < 5 {
            return Err(IoError::UnexpectedEof);
        }
        let k = bytes[4];
        let byte_count = num_bits / 8 + if num_bits % 8 != 0 { 1 } else { 0 };
        if bytes.len() - 5 < byte_count {
            return Err(IoError::UnexpectedEof);
        }
        let bit_array = slice_to_vec(slice_subrange(bytes, 5, 5 + byte_count));
        Ok(Self { bits: bit_array, num_bits, k: k as u32 })
    }
}

/// The seeded hash of `key`.
pub fn hash_with_seed(key: &[u8], seed: u64) -> (r: u64)
    ensures
        r == spec_hash_with_seed(key@, seed),
{
    let mut hash = seed;
    let mut i: usize = 0;
    while i < key.len()
        invariant
            i <= key.len(),
            hash == spec_hash_with_seed(key@.take(i as int), seed),
        decreases key.len() - i,
    {
        let byte = key[i];
        hash = hash ^ (byte as u64);
        hash = hash.wrapping_mul(PRIME);
        hash = hash ^ (hash >> 32u64);
        proof {
            assert(key@.take(i + 1).drop_last() =~= key@.take(i as int));
        }
        i = i + 1;
    }
    proof {
        assert(key@.take(i as int) =~= key@);
    }
    hash
}

/// The two hashes that the probe positions of `key` derive from.
pub fn hash_pair(key: &[u8]) -> (r: (u64, u64))
    ensures
        r.0 == spec_hash_with_seed(key@, SEED1),
        r.1 == spec_hash_with_seed(key@, SEED2),
{
    (hash_with_seed(key, SEED1), hash_with_seed(key, SEED2))
}

} // verus!
