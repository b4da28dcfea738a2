//! A Bloom filter using double hashing to derive its probe positions.  SSTables
//! carry one so that reads can rule out absent keys without searching.
use vstd::prelude::*;

verus! {

pub const FNV_OFFSET: u64 = 0xcbf29ce484222325;
pub const FNV_PRIME: u64 = 0x100000001b3;
pub const HASH_SEED: u64 = 0xdeadbeefcafe1234;
pub const MIX_C1: u64 = 0xff51afd7ed558ccd;
pub const MIX_C2: u64 = 0xc4ceb9fe1a85ec53;

/// FNV-1a, 64 bits.
pub open spec fn spec_fnv1a_64(data: Seq<u8>) -> u64
    decreases data.len(),
{
    if data.len() == 0 {
        FNV_OFFSET
    } else {
        vstd::wrapping::u64_specs::wrapping_mul(spec_fnv1a_64(data.drop_last()) ^ (data.last() as u64), FNV_PRIME)
    }
}

/// The 64-bit finaliser of MurmurHash3.
pub open spec fn spec_murmur_mix(k: u64) -> u64 {
    let k1 = k ^ (k >> 33u64);
    let k2 = vstd::wrapping::u64_specs::wrapping_mul(k1, MIX_C1);
    let k3 = k2 ^ (k2 >> 33u64);
    let k4 = vstd::wrapping::u64_specs::wrapping_mul(k3, MIX_C2);
    k4 ^ (k4 >> 33u64)
}

/// The two base hashes of a key; the second is odd.
pub open spec fn spec_hashes(key: Seq<u8>) -> (u64, u64) {
    let h1 = spec_fnv1a_64(key);
    (h1, spec_murmur_mix(h1 ^ HASH_SEED) | 1)
}

/// The `i`-th probe position of a key in a filter of `m` bits.
pub open spec fn probe(key: Seq<u8>, i: nat, m: nat) -> nat {
    let (h1, h2) = spec_hashes(key);
    (vstd::wrapping::u64_specs::wrapping_add(h1, vstd::wrapping::u64_specs::wrapping_mul(i as u64, h2)) as nat) % m
}

/// The one-bit mask for bit `b` of a word.
pub open spec fn bit_mask(b: nat) -> u64 {
    1u64 << (b as u64)
}

/// Bit `p` of the filter's bit array is set.
pub open spec fn bit_set(bits: Seq<u64>, p: nat) -> bool {
    bits[(p / 64) as int] & bit_mask(p % 64) != 0
}

/// The bit array after setting the first `n` probe positions of `key`.
pub open spec fn spec_insert(bits: Seq<u64>, key: Seq<u8>, n: nat, m: nat) -> Seq<u64>
    decreases n,
{
    if n == 0 {
        bits
    } else {
        let b = spec_insert(bits, key, (n - 1) as nat, m);
        let q = probe(key, (n - 1) as nat, m);
        b.update((q / 64) as int, b[(q / 64) as int] | bit_mask(q % 64))
    }
}

/// All the probe positions of `key` are set.
pub open spec fn spec_may_contain(bits: Seq<u64>, key: Seq<u8>, n: nat, m: nat) -> bool {
    forall|i: nat| i < n ==> bit_set(bits, #[trigger] probe(key, i, m))
}

/// A Bloom filter: `num_hashes` probes into an array of `num_bits` bits stored
/// in 64-bit words.
pub struct BloomFilter {
    bits: Vec<u64>,
    num_bits: usize,
    num_hashes: usize,
}

fn fnv1a_64(data: &[u8]) -> (r: u64)
    ensures
        r == spec_fnv1a_64(data@),
{
    let mut hash: u64 = 0xcbf29ce484222325;
    let mut i: usize = 0;
    while i < data.len()
        invariant
            i <= data.len(),
            hash == spec_fnv1a_64(data@.subrange(0, i as int)),
        decreases data.len() - i,
    {
        proof {
            let t = data@.subrange(0, i + 1);
            assert(t.drop_last() =~= data@.subrange(0, i as int));
        }
        hash = hash ^ (data[i] as u64);
        hash = hash.wrapping_mul(0x100000001b3);
        i = i + 1;
    }
    assert(data@.subrange(0, data@.len() as int) =~= data@);
    hash
}

fn murmur_mix(k: u64) -> (r: u64)
    ensures
        r == spec_murmur_mix(k),
{
    let mut k = k;
    k = k ^ (k >> 33u64);
    k = k.wrapping_mul(0xff51afd7ed558ccd);
    k = k ^ (k >> 33u64);
    k = k.wrapping_mul(0xc4ceb9fe1a85ec53);
    k = k ^ (k >> 33u64);
    k
}

/// Setting bit `b` of a word leaves every other bit as it was.
proof fn lemma_set_bit(w: u64, a: u64, b: u64)
    requires
        a < 64,
        b < 64,
    ensures
        ((w | (1u64 << b)) & (1u64 << a) != 0) == ((w & (1u64 << a) != 0) || a == b),
{
    assert(((w | (1u64 << b)) & (1u64 << a) != 0) == ((w & (1u64 << a) != 0) || a == b)) by (bit_vector)
        requires
            a < 64,
            b < 64,
    ;
}

/// Bits stay set under `spec_insert`, and the probes it sets are set.
proof fn lemma_insert_bits(bits: Seq<u64>, key: Seq<u8>, n: nat, m: nat, p: nat)
    requires
        m > 0,
        (m - 1) / 64 < bits.len(),
        p < m,
    ensures
        spec_insert(bits, key, n, m).len() == bits.len(),
        bit_set(spec_insert(bits, key, n, m), p) == (bit_set(bits, p) || exists|i: nat| i < n && p == #[trigger] probe(key, i, m)),
    decreases n,
{
    if n > 0 {
        lemma_insert_bits(bits, key, (n - 1) as nat, m, p);
        let b = spec_insert(bits, key, (n - 1) as nat, m);
        let q = probe(key, (n - 1) as nat, m);
        assert(q < m);
        let nb = spec_insert(bits, key, n, m);
        if p / 64 == q / 64 {
            lemma_set_bit(b[(q / 64) as int], (p % 64) as u64, (q % 64) as u64);
            assert(nb[(p / 64) as int] == b[(q / 64) as int] | bit_mask(q % 64));
        } else {
            assert(nb[(p / 64) as int] == b[(p / 64) as int]);
        }
        if exists|i: nat| i < n && p == #[trigger] probe(key, i, m) {
            let i = choose|i: nat| i < n && p == #[trigger] probe(key, i, m);
            if i < n - 1 {
                assert(exists|j: nat| j < n - 1 && p == #[trigger] probe(key, j, m));
            }
        }
        if exists|i: nat| i < (n - 1) as nat && p == #[trigger] probe(key, i, m) {
            let i = choose|i: nat| i < (n - 1) as nat && p == #[trigger] probe(key, i, m);
            assert(i < n && p == probe(key, i, m));
        }
    }
}

impl BloomFilter {
    /// The bit array.
    pub closed spec fn bits_spec(&self) -> Seq<u64> {
        self.bits@
    }

    /// The number of bits in use.
    pub closed spec fn nbits(&self) -> nat {
        self.num_bits as nat
    }

    /// The number of probes per key.
    pub closed spec fn nhashes(&self) -> nat {
        self.num_hashes as nat
    }

    /// The filter can be probed: it has bits, and its array covers them.
    pub open spec fn wf(&self) -> bool {
        self.nbits() > 0 && (self.nbits() - 1) / 64 < self.bits_spec().len()
    }

    /// The filter's answer for `key`.
    pub open spec fn contains_spec(&self, key: Seq<u8>) -> bool {
        spec_may_contain(self.bits_spec(), key, self.nhashes(), self.nbits())
    }

    /// An empty filter of at least 64 bits and at least one probe, sized from
    /// the estimates `num_bits_hint` and `num_hashes_hint`.
    pub fn with_params(num_bits_hint: usize, num_hashes_hint: usize) -> (r: BloomFilter)
        ensures
            r.wf(),
            r.nbits() == if num_bits_hint < 64 { 64 } else { num_bits_hint as nat },
            r.nhashes() == if num_hashes_hint < 1 { 1 } else { num_hashes_hint as nat },
            r.bits_spec().len() == (r.nbits() + 63) / 64,
            forall|i: int| 0 <= i < r.bits_spec().len() ==> #[trigger] r.bits_spec()[i] == 0,
    {
        let num_bits = if num_bits_hint < 64 { 64 } else { num_bits_hint };
        let num_hashes = if num_hashes_hint < 1 { 1 } else { num_hashes_hint };
        let words = num_bits / 64 + if num_bits % 64 == 0 { 0 } else { 1 };
        let mut bits: Vec<u64> = Vec::with_capacity(words);
        let mut i: usize = 0;
        while i < words
            invariant
                i <= words,
                bits@.len() == i,
                forall|j: int| 0 <= j < i ==> #[trigger] bits@[j] == 0,
            decreases words - i,
        {
            bits.push(0);
            i = i + 1;
        }
        BloomFilter { bits, num_bits, num_hashes }
    }

    /// Reconstruct a filter from its parts (as stored in an SSTable).
    pub fn from_raw(bits: Vec<u64>, num_bits: usize, num_hashes: usize) -> (r: BloomFilter)
        ensures
            r.bits_spec() == bits@,
            r.nbits() == num_bits,
            r.nhashes() == num_hashes,
    {
        BloomFilter { bits, num_bits, num_hashes }
    }

    pub fn num_bits(&self) -> (r: usize)
        ensures
            r == self.nbits(),
    {
        self.num_bits
    }

    pub fn num_hashes(&self) -> (r: usize)
        ensures
            r == self.nhashes(),
    {
        self.num_hashes
    }

    pub fn raw_bits(&self) -> (r: &[u64])
        ensures
            r@ == self.bits_spec(),
    {
        self.bits.as_slice()
    }

    fn hashes(&self, key: &[u8]) -> (r: (u64, u64))
        ensures
            r == spec_hashes(key@),
    {
        let h1 = fnv1a_64(key);
        let h2 = murmur_mix(h1 ^ 0xdeadbeefcafe1234);
        (h1, h2 | 1)
    }

    /// Add a key: set each of its probe positions.
    pub fn insert(&mut self, key: &[u8])
        requires
            old(self).wf(),
        ensures
            final(self).wf(),
            final(self).nbits() == old(self).nbits(),
            final(self).nhashes() == old(self).nhashes(),
            final(self).bits_spec() == spec_insert(old(self).bits_spec(), key@, old(self).nhashes(), old(self).nbits()),
    {
        let (h1, h2) = self.hashes(key);
        let ghost start = self.bits@;
        let mut i: usize = 0;
        while i < self.num_hashes
            invariant
                self.num_bits == old(self).num_bits,
                self.num_hashes == old(self).num_hashes,
                self.num_bits > 0,
                (self.num_bits - 1) / 64 < self.bits@.len(),
                start == old(self).bits@,
                (h1, h2) == spec_hashes(key@),
                i <= self.num_hashes,
                self.bits@ == spec_insert(start, key@, i as nat, self.num_bits as nat),
            decreases self.num_hashes - i,
        {
            let pos = (h1.wrapping_add((i as u64).wrapping_mul(h2))) % (self.num_bits as u64);
            proof {
                assert(pos == probe(key@, i as nat, self.num_bits as nat));
                assert(pos / 64 <= (self.num_bits - 1) / 64);
            }
            let w = (pos / 64) as usize;
            let m = 1u64 << (pos % 64);
            let old_word = self.bits[w];
            self.bits.set(w, old_word | m);
            i = i + 1;
        }
    }

    /// `false` when the key is certainly not in the set; `true` when it may be.
    pub fn may_contain(&self, key: &[u8]) -> (r: bool)
        requires
            self.nhashes() == 0 || self.wf(),
        ensures
            r == self.contains_spec(key@),
    {
        let (h1, h2) = self.hashes(key);
        let mut i: usize = 0;
        while i < self.num_hashes
            invariant
                self.nhashes() == 0 || self.wf(),
                (h1, h2) == spec_hashes(key@),
                i <= self.num_hashes,
                forall|j: nat| j < i ==> bit_set(self.bits@, #[trigger] probe(key@, j, self.num_bits as nat)),
            decreases self.num_hashes - i,
        {
            let pos = (h1.wrapping_add((i as u64).wrapping_mul(h2))) % (self.num_bits as u64);
            proof {
                assert(pos == probe(key@, i as nat, self.num_bits as nat));
                assert(pos / 64 <= (self.num_bits - 1) / 64);
            }
            if self.bits[(pos / 64) as usize] & (1u64 << (pos % 64)) == 0 {
                return false;
            }
            i = i + 1;
        }
        true
    }
}

/// A key that was inserted is reported as possibly present: a Bloom filter
/// has no false negatives.
pub proof fn lemma_no_false_negatives(bits: Seq<u64>, key: Seq<u8>, n: nat, m: nat)
    requires
        m > 0,
        (m - 1) / 64 < bits.len(),
    ensures
        spec_may_contain(spec_insert(bits, key, n, m), key, n, m),
{
    assert forall|i: nat| i < n implies bit_set(spec_insert(bits, key, n, m), #[trigger] probe(key, i, m)) by {
        lemma_insert_bits(bits, key, n, m, probe(key, i, m));
    }
}

/// Inserting a key never makes the filter forget another: every key it
/// reported as possibly present it still reports.
pub proof fn lemma_insert_monotone(bits: Seq<u64>, key: Seq<u8>, other: Seq<u8>, n: nat, m: nat)
    requires
        m > 0,
        (m - 1) / 64 < bits.len(),
        spec_may_contain(bits, other, n, m),
    ensures
        spec_may_contain(spec_insert(bits, key, n, m), other, n, m),
{
    assert forall|i: nat| i < n implies bit_set(spec_insert(bits, key, n, m), #[trigger] probe(other, i, m)) by {
        lemma_insert_bits(bits, key, n, m, probe(other, i, m));
    }
}

/// Inserting keeps the array's length.
pub proof fn lemma_insert_len(bits: Seq<u64>, key: Seq<u8>, n: nat, m: nat)
    requires
        m > 0,
        (m - 1) / 64 < bits.len(),
    ensures
        spec_insert(bits, key, n, m).len() == bits.len(),
{
    lemma_insert_bits(bits, key, n, m, 0);
}

} // verus!
