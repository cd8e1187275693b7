//! The Bloom filter of a table: a bit set that never denies a key it was
//! built from.

use vstd::prelude::*;
use crate::checksum::{xxhash64_digest, xxhash64_of};

verus! {

/// The largest number of bits in a filter.
pub const MAX_FILTER_BITS: u64 = 0x4000_0000;

/// The smallest number of bits in a filter.
pub const MIN_FILTER_BITS: u64 = 64;

/// The largest number of probes per key.
pub const MAX_PROBES: u64 = 30;

/// The hash by which a user key is entered into a filter.
pub open spec fn spec_bloom_hash(user_key: Seq<u8>) -> u64 {
    xxhash64_of(0, user_key)
}

/// The position of the `i`-th probe of hash `h` in a filter of `nbits` bits.
pub open spec fn spec_probe(h: u64, i: int, nbits: int) -> int {
    (((h & 0xffff_ffff) as int) + i * ((h >> 32) as int)) % nbits
}

/// Whether bit `pos` of `bits` is set.
pub open spec fn bit_is_set(bits: Seq<u8>, pos: int) -> bool {
    bits[pos / 8] & (1u8 << ((pos % 8) as u8)) != 0
}

/// Whether one of the first `i` probes of `h` falls on bit `p`.
pub open spec fn hash_sets_bit(h: u64, i: int, nbits: int, p: int) -> bool
    decreases i,
{
    if i <= 0 {
        false
    } else {
        spec_probe(h, i - 1, nbits) == p || hash_sets_bit(h, i - 1, nbits, p)
    }
}

/// Whether one of the `k` probes of one of the first `j` hashes falls on bit `p`.
pub open spec fn hashes_set_bit(hashes: Seq<u64>, j: int, k: int, nbits: int, p: int) -> bool
    decreases j,
{
    if j <= 0 {
        false
    } else {
        hash_sets_bit(hashes[j - 1], k, nbits, p) || hashes_set_bit(hashes, j - 1, k, nbits, p)
    }
}

/// The number of bytes of bits in a filter for `n` keys at `bits_per_key`.
pub open spec fn spec_filter_bytes(n: int, bits_per_key: int) -> int {
    let want = n * bits_per_key;
    let bits = if want < MIN_FILTER_BITS {
        MIN_FILTER_BITS as int
    } else if want > MAX_FILTER_BITS {
        MAX_FILTER_BITS as int
    } else {
        want
    };
    (bits + 7) / 8
}

/// The number of probes per key at `bits_per_key`: about 0.69 times the
/// bits per key, at least 1 and at most 30.
pub open spec fn spec_probe_count(bits_per_key: int) -> int {
    let k = bits_per_key * 69 / 100;
    if k < 1 {
        1
    } else if k > MAX_PROBES {
        MAX_PROBES as int
    } else {
        k
    }
}

/// `filter` is the filter of `hashes` at `bits_per_key`: empty where no bits
/// are asked for; else the bits, of which exactly those are set that a probe
/// of a hash falls on, followed by one byte that holds the number of probes.
pub open spec fn is_filter_of(filter: Seq<u8>, hashes: Seq<u64>, bits_per_key: u32) -> bool {
    if bits_per_key == 0 {
        filter.len() == 0
    } else {
        let nbytes = spec_filter_bytes(hashes.len() as int, bits_per_key as int);
        let k = spec_probe_count(bits_per_key as int);
        &&& filter.len() == nbytes + 1
        &&& filter[nbytes] == k
        &&& forall|p: int|
            0 <= p < nbytes * 8 ==> bit_is_set(filter, p) == hashes_set_bit(
                hashes,
                hashes.len() as int,
                k,
                nbytes * 8,
                p,
            )
    }
}

/// Whether a serialized filter admits hash `h`. A filter without bits, or
/// with a probe count that this format does not know, admits everything.
pub open spec fn spec_filter_may_contain_hash(filter: Seq<u8>, h: u64) -> bool {
    if filter.len() <= 1 {
        true
    } else {
        let k = filter[filter.len() - 1] as int;
        let nbits = (filter.len() - 1) * 8;
        if k > MAX_PROBES {
            true
        } else {
            forall|i: int| 0 <= i < k ==> bit_is_set(filter, #[trigger] spec_probe(h, i, nbits))
        }
    }
}

/// Whether a serialized filter admits a user key.
pub open spec fn spec_filter_may_contain(filter: Seq<u8>, user_key: Seq<u8>) -> bool {
    spec_filter_may_contain_hash(filter, spec_bloom_hash(user_key))
}

proof fn lemma_probe_in_range(h: u64, i: int, nbits: int)
    requires
        0 <= i,
        nbits > 0,
    ensures
        0 <= spec_probe(h, i, nbits) < nbits,
{
    let a = ((h & 0xffff_ffff) as int) + i * ((h >> 32) as int);
    assert(0 <= i * ((h >> 32) as int)) by (nonlinear_arith)
        requires
            0 <= i,
            0 <= (h >> 32) as int,
    ;
    assert(0 <= a % nbits < nbits) by (nonlinear_arith)
        requires
            0 <= a,
            nbits > 0,
    ;
}

proof fn lemma_hash_sets_bit_witness(h: u64, k: int, nbits: int, i: int)
    requires
        0 <= i < k,
    ensures
        hash_sets_bit(h, k, nbits, spec_probe(h, i, nbits)),
    decreases k,
{
    if i < k - 1 {
        lemma_hash_sets_bit_witness(h, k - 1, nbits, i);
    }
}

proof fn lemma_hashes_set_bit_witness(hashes: Seq<u64>, n: int, k: int, nbits: int, j: int, p: int)
    requires
        0 <= j < n,
        hash_sets_bit(hashes[j], k, nbits, p),
    ensures
        hashes_set_bit(hashes, n, k, nbits, p),
    decreases n,
{
    if j < n - 1 {
        lemma_hashes_set_bit_witness(hashes, n - 1, k, nbits, j, p);
    }
}

/// A filter never denies a hash that it was built from.
pub proof fn lemma_filter_admits_its_hashes(
    filter: Seq<u8>,
    hashes: Seq<u64>,
    bits_per_key: u32,
    j: int,
)
    requires
        is_filter_of(filter, hashes, bits_per_key),
        0 <= j < hashes.len(),
    ensures
        spec_filter_may_contain_hash(filter, hashes[j]),
{
    if bits_per_key != 0 {
        let nbytes = spec_filter_bytes(hashes.len() as int, bits_per_key as int);
        let k = spec_probe_count(bits_per_key as int);
        let nbits = nbytes * 8;
        assert forall|i: int| 0 <= i < k implies bit_is_set(
            filter,
            #[trigger] spec_probe(hashes[j], i, nbits),
        ) by {
            let p = spec_probe(hashes[j], i, nbits);
            lemma_probe_in_range(hashes[j], i, nbits);
            lemma_hash_sets_bit_witness(hashes[j], k, nbits, i);
            lemma_hashes_set_bit_witness(hashes, hashes.len() as int, k, nbits, j, p);
        }
    }
}

/// Sets bit `pos` of `bits` and leaves the others as they are.
fn set_bit(bits: &mut Vec<u8>, pos: usize)
    requires
        pos < old(bits).len() * 8,
    ensures
        final(bits).len() == old(bits).len(),
        forall|p: int|
            0 <= p < old(bits).len() * 8 ==> bit_is_set(final(bits)@, p) == (bit_is_set(
                old(bits)@,
                p,
            ) || p == pos),
{
    let idx: usize = pos / 8;
    let s: u8 = (pos % 8) as u8;
    let b: u8 = bits[idx];
    let nb: u8 = b | (1u8 << s);
    bits.set(idx, nb);
    assert forall|p: int| 0 <= p < old(bits).len() * 8 implies bit_is_set(bits@, p) == (bit_is_set(
        old(bits)@,
        p,
    ) || p == pos) by {
        let t: u8 = (p % 8) as u8;
        if p / 8 == idx as int {
            assert(((b | (1u8 << s)) & (1u8 << t) != 0) == ((b & (1u8 << t)) != 0 || s == t))
                by (bit_vector)
                requires
                    s < 8,
                    t < 8,
            ;
        }
    }
}

/// The hash by which a user key is entered into a filter.
pub fn bloom_hash(user_key: &[u8]) -> (r: u64)
    ensures
        r == spec_bloom_hash(user_key@),
{
    xxhash64_digest(0, user_key)
}

/// Computes the position of the `i`-th probe of `h` among `nbits` bits.
fn probe(h: u64, i: u64, nbits: usize) -> (r: usize)
    requires
        i < MAX_PROBES,
        0 < nbits <= MAX_FILTER_BITS * 2,
    ensures
        r == spec_probe(h, i as int, nbits as int),
        r < nbits,
{
    let h1: u64 = h & 0xffff_ffff;
    let h2: u64 = h >> 32;
    assert(h1 <= 0xffff_ffff) by (bit_vector)
        requires
            h1 == h & 0xffff_ffff,
    ;
    assert(h2 <= 0xffff_ffff) by (bit_vector)
        requires
            h2 == h >> 32,
    ;
    assert(i * h2 <= 30 * 0xffff_ffff) by (nonlinear_arith)
        requires
            i < 30,
            h2 <= 0xffff_ffff,
    ;
    let a: u64 = h1 + i * h2;
    proof {
        lemma_probe_in_range(h, i as int, nbits as int);
    }
    (a % (nbits as u64)) as usize
}

/// Builds the serialized filter of `hashes` at `bits_per_key`.
pub fn build_filter(hashes: &Vec<u64>, bits_per_key: u32) -> (r: Vec<u8>)
    ensures
        is_filter_of(r@, hashes@, bits_per_key),
{
    let mut bits: Vec<u8> = Vec::new();
    if bits_per_key == 0 {
        return bits;
    }
    let n: usize = hashes.len();
    let want: u64 = if n as u64 > MAX_FILTER_BITS {
        assert(n * bits_per_key > MAX_FILTER_BITS) by (nonlinear_arith)
            requires
                n > MAX_FILTER_BITS,
                bits_per_key >= 1,
        ;
        MAX_FILTER_BITS
    } else {
        assert(n * bits_per_key <= MAX_FILTER_BITS * 0xffff_ffff) by (nonlinear_arith)
            requires
                n <= MAX_FILTER_BITS,
                bits_per_key <= 0xffff_ffff,
        ;
        let w: u64 = (n as u64) * (bits_per_key as u64);
        if w < MIN_FILTER_BITS {
            MIN_FILTER_BITS
        } else if w > MAX_FILTER_BITS {
            MAX_FILTER_BITS
        } else {
            w
        }
    };
    let nbytes: usize = ((want + 7) / 8) as usize;
    assert(nbytes == spec_filter_bytes(n as int, bits_per_key as int));
    let nbits: usize = nbytes * 8;
    let k0: u64 = (bits_per_key as u64) * 69 / 100;
    let k: u64 = if k0 < 1 {
        1
    } else if k0 > MAX_PROBES {
        MAX_PROBES
    } else {
        k0
    };
    assert(k == spec_probe_count(bits_per_key as int));
    let mut b: usize = 0;
    while b < nbytes
        invariant
            b <= nbytes,
            bits.len() == b,
            forall|p: int| 0 <= p < b * 8 ==> !bit_is_set(bits@, p),
        decreases nbytes - b,
    {
        let ghost prev = bits@;
        bits.push(0u8);
        assert forall|p: int| 0 <= p < (b + 1) * 8 implies !bit_is_set(bits@, p) by {
            let t: u8 = (p % 8) as u8;
            if p / 8 < b {
                assert(bits@[p / 8] == prev[p / 8]);
                assert(!bit_is_set(prev, p));
            } else {
                assert(bits@[p / 8] == 0u8);
                assert(0u8 & (1u8 << t) == 0) by (bit_vector);
            }
        }
        b += 1;
    }
    let mut j: usize = 0;
    while j < n
        invariant
            j <= n,
            n == hashes.len(),
            bits.len() == nbytes,
            nbits == nbytes * 8,
            0 < nbits <= MAX_FILTER_BITS * 2,
            1 <= k <= MAX_PROBES,
            forall|p: int|
                0 <= p < nbits ==> bit_is_set(bits@, p) == hashes_set_bit(
                    hashes@,
                    j as int,
                    k as int,
                    nbits as int,
                    p,
                ),
        decreases n - j,
    {
        let h: u64 = hashes[j];
        let mut i: u64 = 0;
        while i < k
            invariant
                i <= k,
                j < n,
                n == hashes.len(),
                h == hashes@[j as int],
                bits.len() == nbytes,
                nbits == nbytes * 8,
                0 < nbits <= MAX_FILTER_BITS * 2,
                1 <= k <= MAX_PROBES,
                forall|p: int|
                    0 <= p < nbits ==> bit_is_set(bits@, p) == (hashes_set_bit(
                        hashes@,
                        j as int,
                        k as int,
                        nbits as int,
                        p,
                    ) || hash_sets_bit(h, i as int, nbits as int, p)),
            decreases k - i,
        {
            let pos: usize = probe(h, i, nbits);
            set_bit(&mut bits, pos);
            i += 1;
        }
        j += 1;
    }
    let ghost before = bits@;
    bits.push(k as u8);
    assert forall|p: int| 0 <= p < nbytes * 8 implies bit_is_set(bits@, p) == hashes_set_bit(
        hashes@,
        hashes@.len() as int,
        k as int,
        nbytes * 8,
        p,
    ) by {
        assert(bits@[p / 8] == before[p / 8]);
        assert(bit_is_set(bits@, p) == bit_is_set(before, p));
    }
    bits
}

/// Whether a serialized filter admits hash `h`.
pub fn filter_may_contain_hash(filter: &[u8], h: u64) -> (r: bool)
    ensures
        r == spec_filter_may_contain_hash(filter@, h),
{
    if filter.len() <= 1 {
        return true;
    }
    let nbytes: usize = filter.len() - 1;
    let k: u64 = filter[nbytes] as u64;
    if k > MAX_PROBES || nbytes as u64 > MAX_FILTER_BITS / 4 {
        return filter_may_contain_hash_wide(filter, h);
    }
    let nbits: usize = nbytes * 8;
    let mut i: u64 = 0;
    while i < k
        invariant
            i <= k,
            k <= MAX_PROBES,
            k == filter@[nbytes as int],
            nbytes == filter.len() - 1,
            nbits == nbytes * 8,
            0 < nbits <= MAX_FILTER_BITS * 2,
            forall|t: int| 0 <= t < i ==> bit_is_set(filter@, #[trigger] spec_probe(h, t, nbits as int)),
        decreases k - i,
    {
        let pos: usize = probe(h, i, nbits);
        let s: u8 = (pos % 8) as u8;
        if filter[pos / 8] & (1u8 << s) == 0 {
            assert(!bit_is_set(filter@, spec_probe(h, i as int, nbits as int)));
            return false;
        }
        i += 1;
    }
    true
}

/// The same answer for a filter larger than this library builds, by
/// arithmetic that is wide enough for any length.
fn filter_may_contain_hash_wide(filter: &[u8], h: u64) -> (r: bool)
    requires
        filter.len() > 1,
    ensures
        r == spec_filter_may_contain_hash(filter@, h),
{
    let nbytes: usize = filter.len() - 1;
    let k: u64 = filter[nbytes] as u64;
    if k > MAX_PROBES {
        return true;
    }
    let nbits: u128 = (nbytes as u128) * 8;
    let h1: u64 = h & 0xffff_ffff;
    let h2: u64 = h >> 32;
    assert(h1 <= 0xffff_ffff) by (bit_vector)
        requires
            h1 == h & 0xffff_ffff,
    ;
    assert(h2 <= 0xffff_ffff) by (bit_vector)
        requires
            h2 == h >> 32,
    ;
    let mut i: u64 = 0;
    while i < k
        invariant
            i <= k,
            k <= MAX_PROBES,
            k == filter@[nbytes as int],
            nbytes == filter.len() - 1,
            nbits == nbytes * 8,
            nbits > 0,
            h1 == h & 0xffff_ffff,
            h2 == h >> 32,
            h1 <= 0xffff_ffff,
            h2 <= 0xffff_ffff,
            forall|t: int| 0 <= t < i ==> bit_is_set(filter@, #[trigger] spec_probe(h, t, nbits as int)),
        decreases k - i,
    {
        assert(i * h2 <= 30 * 0xffff_ffff) by (nonlinear_arith)
            requires
                i < 30,
                h2 <= 0xffff_ffff,
        ;
        let a: u128 = (h1 + i * h2) as u128;
        proof {
            lemma_probe_in_range(h, i as int, nbits as int);
        }
        let pos: u128 = a % nbits;
        let idx: usize = (pos / 8) as usize;
        let s: u8 = (pos % 8) as u8;
        if filter[idx] & (1u8 << s) == 0 {
            assert(!bit_is_set(filter@, spec_probe(h, i as int, nbits as int)));
            return false;
        }
        i += 1;
    }
    true
}

/// Whether a serialized filter admits a user key.
pub fn filter_may_contain(filter: &[u8], user_key: &[u8]) -> (r: bool)
    ensures
        r == spec_filter_may_contain(filter@, user_key@),
{
    filter_may_contain_hash(filter, bloom_hash(user_key))
}

} // verus!
