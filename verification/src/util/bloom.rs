//! A Bloom filter over the hashes of keys: an array of bits, in which each
//! key sets a number of bits that its hash picks, followed by one byte that
//! tells that number.

use vstd::prelude::*;

verus! {

/// The largest number of bits that a key sets.
pub const BLOOM_MAX_PROBES: usize = 30;

/// The largest number of bytes that the bits of a filter take.
pub const BLOOM_MAX_BYTES: usize = 0x1000_0000;

/// The hash of a key (FNV-1a, 32 bits): for each byte in turn, the byte is
/// added to the low bits and the hash multiplied by the FNV prime.
pub open spec fn spec_bloom_hash(key: Seq<u8>) -> u32
    decreases key.len(),
{
    if key.len() == 0 {
        0x811C_9DC5
    } else {
        (((spec_bloom_hash(key.drop_last()) ^ (key.last() as u32)) * 0x0100_0193)
            % 0x1_0000_0000) as u32
    }
}

/// What is added to a hash to get from one probe to the next: the hash
/// rotated right by 17 bits.
pub open spec fn spec_probe_delta(hash: u32) -> u32 {
    (hash >> 17) | (hash << 15)
}

/// The value that picks the `j`-th bit of a key with this hash.
pub open spec fn spec_probe(hash: u32, j: nat) -> u32
    decreases j,
{
    if j == 0 {
        hash
    } else {
        ((spec_probe(hash, (j - 1) as nat) + spec_probe_delta(hash)) % 0x1_0000_0000) as u32
    }
}

/// The bit that the `j`-th probe of a key with this hash picks in an array
/// of `byte_count` bytes.
pub open spec fn spec_probe_bit(byte_count: nat, hash: u32, j: nat) -> int {
    let probe: int = spec_probe(hash, j) as int;
    let bit_count: int = (byte_count * 8) as int;
    probe % bit_count
}

/// The byte with only bit `i` set.
pub open spec fn spec_bit_mask(i: u8) -> u8 {
    1u8 << i
}

/// Whether bit `pos` of `bits` is set.
pub open spec fn spec_bit_is_set(bits: Seq<u8>, pos: int) -> bool {
    bits[pos / 8] & spec_bit_mask((pos % 8) as u8) != 0
}

/// `bits` with bit `pos` set.
pub open spec fn spec_set_bit(bits: Seq<u8>, pos: int) -> Seq<u8> {
    bits.update(pos / 8, bits[pos / 8] | spec_bit_mask((pos % 8) as u8))
}

/// `bits` with the first `k` bits of a key with this hash set.
pub open spec fn spec_add_probes(bits: Seq<u8>, hash: u32, k: nat) -> Seq<u8>
    decreases k,
{
    if k == 0 {
        bits
    } else {
        spec_set_bit(
            spec_add_probes(bits, hash, (k - 1) as nat),
            spec_probe_bit(bits.len(), hash, (k - 1) as nat),
        )
    }
}

/// `bits` with `k` bits set for each of the first `n` of `hashes`.
pub open spec fn spec_add_hashes(bits: Seq<u8>, hashes: Seq<u32>, n: nat, k: nat) -> Seq<u8>
    decreases n,
{
    if n == 0 {
        bits
    } else {
        spec_add_probes(spec_add_hashes(bits, hashes, (n - 1) as nat, k), hashes[n - 1], k)
    }
}

/// How many bits a key sets in a filter that has `bits_per_key` bits for
/// each key: 69 hundredths of that number, but at least 1 and at most 30.
pub open spec fn spec_probe_count(bits_per_key: nat) -> nat {
    let k = bits_per_key * 69 / 100;
    if k < 1 {
        1
    } else if k > BLOOM_MAX_PROBES {
        BLOOM_MAX_PROBES as nat
    } else {
        k
    }
}

/// How many bytes the bits of a filter for `keys` keys take: `bits_per_key`
/// bits for each key, rounded up to whole bytes, but at least 8 bytes and at
/// most `BLOOM_MAX_BYTES`.
pub open spec fn spec_filter_bytes(keys: nat, bits_per_key: nat) -> nat {
    let bits = keys * bits_per_key;
    if bits <= 64 {
        8
    } else if bits >= BLOOM_MAX_BYTES * 8 {
        BLOOM_MAX_BYTES as nat
    } else {
        ((bits + 7) / 8) as nat
    }
}

/// The filter for keys with these hashes.
pub open spec fn spec_bloom_filter(hashes: Seq<u32>, bits_per_key: nat) -> Seq<u8> {
    let k = spec_probe_count(bits_per_key);
    let empty = Seq::new(spec_filter_bytes(hashes.len(), bits_per_key), |i: int| 0u8);
    spec_add_hashes(empty, hashes, hashes.len(), k).push(k as u8)
}

/// Whether a filter leaves it open that a key with this hash is among the
/// keys it was made for. A filter of less than two bytes holds no key; one
/// that tells of more than 30 bits for each key is of a kind not known here
/// and excludes nothing.
pub open spec fn spec_hash_may_match(filter: Seq<u8>, hash: u32) -> bool {
    let bits = filter.drop_last();
    let k = filter.last();
    &&& filter.len() >= 2
    &&& k <= BLOOM_MAX_PROBES ==> forall|j: nat|
        j < k ==> spec_bit_is_set(bits, #[trigger] spec_probe_bit(bits.len(), hash, j))
}

/// Whether a filter leaves it open that `key` is among the keys it was made
/// for.
pub open spec fn spec_key_may_match(filter: Seq<u8>, key: Seq<u8>) -> bool {
    spec_hash_may_match(filter, spec_bloom_hash(key))
}

/// Computes the hash of a key.
pub fn bloom_hash(key: &[u8]) -> (hash: u32)
    ensures
        hash == spec_bloom_hash(key@),
{
    let mut hash: u32 = 0x811C_9DC5;
    let mut i: usize = 0;
    while i < key.len()
        invariant
            i <= key@.len(),
            hash == spec_bloom_hash(key@.subrange(0, i as int)),
        decreases key@.len() - i,
    {
        assert(key@.subrange(0, i + 1).drop_last() =~= key@.subrange(0, i as int));
        let mixed: u64 = (hash ^ (key[i] as u32)) as u64;
        hash = ((mixed * 0x0100_0193) % 0x1_0000_0000) as u32;
        i += 1;
    }
    assert(key@.subrange(0, i as int) =~= key@);
    hash
}

fn probe_delta(hash: u32) -> (delta: u32)
    ensures
        delta == spec_probe_delta(hash),
{
    (hash >> 17) | (hash << 15)
}

fn next_probe(probe: u32, delta: u32) -> (next: u32)
    ensures
        next == ((probe + delta) % 0x1_0000_0000) as u32,
{
    ((probe as u64 + delta as u64) % 0x1_0000_0000) as u32
}

fn bit_mask(i: usize) -> (mask: u8)
    requires
        i < 8,
    ensures
        mask == spec_bit_mask(i as u8),
{
    1u8 << (i as u8)
}

fn probe_bit(byte_count: usize, probe: u32) -> (pos: usize)
    requires
        byte_count > 0,
    ensures
        pos == probe as int % (byte_count * 8) as int,
        pos / 8 < byte_count,
{
    if byte_count >= 0x2000_0000 {
        proof {
            vstd::arithmetic::div_mod::lemma_small_mod(probe as nat, (byte_count * 8) as nat);
        }
        probe as usize
    } else {
        probe as usize % (byte_count * 8)
    }
}

/// Computes how many bits a key sets.
pub fn probe_count(bits_per_key: usize) -> (k: usize)
    ensures
        k == spec_probe_count(bits_per_key as nat),
        1 <= k <= BLOOM_MAX_PROBES,
{
    if bits_per_key >= 100 {
        BLOOM_MAX_PROBES
    } else {
        let k: usize = bits_per_key * 69 / 100;
        if k < 1 {
            1
        } else if k > BLOOM_MAX_PROBES {
            BLOOM_MAX_PROBES
        } else {
            k
        }
    }
}

/// Computes how many bytes the bits of a filter take.
pub fn filter_bytes(keys: usize, bits_per_key: usize) -> (bytes: usize)
    ensures
        bytes == spec_filter_bytes(keys as nat, bits_per_key as nat),
        8 <= bytes <= BLOOM_MAX_BYTES,
{
    let max_bits: usize = BLOOM_MAX_BYTES * 8;
    if keys == 0 || bits_per_key == 0 {
        assert(keys * bits_per_key == 0) by (nonlinear_arith)
            requires
                keys == 0 || bits_per_key == 0,
        ;
        return 8;
    }
    if keys > max_bits / bits_per_key {
        assert(keys * bits_per_key >= max_bits) by (nonlinear_arith)
            requires
                bits_per_key > 0,
                keys > max_bits / bits_per_key,
        ;
        return BLOOM_MAX_BYTES;
    }
    assert(keys * bits_per_key <= max_bits) by (nonlinear_arith)
        requires
            bits_per_key > 0,
            keys <= max_bits / bits_per_key,
    ;
    let bits: usize = keys * bits_per_key;
    if bits <= 64 {
        8
    } else if bits >= max_bits {
        BLOOM_MAX_BYTES
    } else {
        (bits + 7) / 8
    }
}

/// Setting a bit sets it and leaves the bits that are set as they are.
pub proof fn lemma_set_bit(bits: Seq<u8>, pos: int, other: int)
    requires
        0 <= pos < bits.len() * 8,
        0 <= other < bits.len() * 8,
    ensures
        spec_set_bit(bits, pos).len() == bits.len(),
        spec_bit_is_set(spec_set_bit(bits, pos), pos),
        spec_bit_is_set(bits, other) ==> spec_bit_is_set(spec_set_bit(bits, pos), other),
{
    let byte = bits[pos / 8];
    let i = (pos % 8) as u8;
    let j = (other % 8) as u8;
    assert((byte | (1u8 << i)) & (1u8 << i) != 0) by (bit_vector)
        requires
            i < 8,
    ;
    assert(byte & (1u8 << j) != 0 ==> (byte | (1u8 << i)) & (1u8 << j) != 0) by (bit_vector)
        requires
            i < 8,
            j < 8,
    ;
}

/// The bits of a key are set once they were added, and the bits set before
/// stay set.
pub proof fn lemma_add_probes(bits: Seq<u8>, hash: u32, k: nat)
    requires
        bits.len() > 0,
    ensures
        spec_add_probes(bits, hash, k).len() == bits.len(),
        forall|j: nat|
            j < k ==> spec_bit_is_set(
                spec_add_probes(bits, hash, k),
                #[trigger] spec_probe_bit(bits.len(), hash, j),
            ),
        forall|pos: int|
            0 <= pos < bits.len() * 8 && spec_bit_is_set(bits, pos) ==> #[trigger] spec_bit_is_set(
                spec_add_probes(bits, hash, k),
                pos,
            ),
    decreases k,
{
    if k > 0 {
        let before = spec_add_probes(bits, hash, (k - 1) as nat);
        let set = spec_probe_bit(bits.len(), hash, (k - 1) as nat);
        lemma_add_probes(bits, hash, (k - 1) as nat);
        let after = spec_add_probes(bits, hash, k);
        assert forall|j: nat| j < k implies spec_bit_is_set(
            after,
            #[trigger] spec_probe_bit(bits.len(), hash, j),
        ) by {
            lemma_set_bit(before, set, spec_probe_bit(bits.len(), hash, j));
        }
        assert forall|pos: int|
            0 <= pos < bits.len() * 8 && spec_bit_is_set(bits, pos) implies #[trigger] spec_bit_is_set(
            after,
            pos,
        ) by {
            lemma_set_bit(before, set, pos);
        }
    }
}

/// Once the bits of keys were added, the bits of each of the keys are set.
pub proof fn lemma_add_hashes(bits: Seq<u8>, hashes: Seq<u32>, n: nat, k: nat)
    requires
        bits.len() > 0,
        n <= hashes.len(),
    ensures
        spec_add_hashes(bits, hashes, n, k).len() == bits.len(),
        forall|i: int, j: nat|
            0 <= i < n && j < k ==> spec_bit_is_set(
                spec_add_hashes(bits, hashes, n, k),
                #[trigger] spec_probe_bit(bits.len(), hashes[i], j),
            ),
    decreases n,
{
    if n > 0 {
        let before = spec_add_hashes(bits, hashes, (n - 1) as nat, k);
        lemma_add_hashes(bits, hashes, (n - 1) as nat, k);
        lemma_add_probes(before, hashes[n - 1], k);
    }
}

/// A filter excludes none of the keys that it was made for.
pub proof fn lemma_bloom_filter_is_sound(hashes: Seq<u32>, bits_per_key: nat, i: int)
    requires
        0 <= i < hashes.len(),
    ensures
        spec_hash_may_match(spec_bloom_filter(hashes, bits_per_key), hashes[i]),
{
    let k = spec_probe_count(bits_per_key);
    let empty = Seq::new(spec_filter_bytes(hashes.len(), bits_per_key), |i: int| 0u8);
    let bits = spec_add_hashes(empty, hashes, hashes.len(), k);
    lemma_add_hashes(empty, hashes, hashes.len(), k);
    assert(bits.push(k as u8).drop_last() =~= bits);
}

/// Makes the filter for keys with these hashes.
pub fn create_filter(hashes: &[u32], bits_per_key: usize) -> (filter: Vec<u8>)
    ensures
        filter@ == spec_bloom_filter(hashes@, bits_per_key as nat),
        forall|i: int| 0 <= i < hashes@.len() ==> spec_hash_may_match(filter@, #[trigger] hashes@[i]),
{
    let k: usize = probe_count(bits_per_key);
    let bytes: usize = filter_bytes(hashes.len(), bits_per_key);
    let mut filter: Vec<u8> = Vec::new();
    filter.resize(bytes, 0);
    let ghost empty = Seq::new(bytes as nat, |i: int| 0u8);
    assert(filter@ =~= empty);
    let mut i: usize = 0;
    while i < hashes.len()
        invariant
            i <= hashes@.len(),
            8 <= bytes <= BLOOM_MAX_BYTES,
            empty.len() == bytes,
            filter@ == spec_add_hashes(empty, hashes@, i as nat, k as nat),
            filter@.len() == bytes,
        decreases hashes@.len() - i,
    {
        let hash: u32 = hashes[i];
        let delta: u32 = probe_delta(hash);
        let ghost before = filter@;
        let mut probe: u32 = hash;
        let mut j: usize = 0;
        while j < k
            invariant
                j <= k,
                8 <= bytes <= BLOOM_MAX_BYTES,
                before.len() == bytes,
                delta == spec_probe_delta(hash),
                probe == spec_probe(hash, j as nat),
                filter@ == spec_add_probes(before, hash, j as nat),
                filter@.len() == bytes,
            decreases k - j,
        {
            let pos: usize = probe_bit(bytes, probe);
            let mask: u8 = bit_mask(pos % 8);
            let byte: u8 = filter[pos / 8];
            filter.set(pos / 8, byte | mask);
            probe = next_probe(probe, delta);
            j += 1;
        }
        i += 1;
    }
    filter.push(k as u8);
    proof {
        assert forall|i: int| 0 <= i < hashes@.len() implies spec_hash_may_match(
            filter@,
            #[trigger] hashes@[i],
        ) by {
            lemma_bloom_filter_is_sound(hashes@, bits_per_key as nat, i);
        }
    }
    filter
}

/// Tells whether a filter leaves it open that a key with this hash is among
/// the keys it was made for.
pub fn hash_may_match(filter: &[u8], hash: u32) -> (may_match: bool)
    ensures
        may_match == spec_hash_may_match(filter@, hash),
{
    let len: usize = filter.len();
    if len < 2 {
        return false;
    }
    let k: usize = filter[len - 1] as usize;
    if k > BLOOM_MAX_PROBES {
        return true;
    }
    let ghost bits = filter@.drop_last();
    let delta: u32 = probe_delta(hash);
    let mut probe: u32 = hash;
    let mut j: usize = 0;
    while j < k
        invariant
            j <= k,
            k == filter@.last(),
            k <= BLOOM_MAX_PROBES,
            len == filter@.len(),
            len >= 2,
            bits == filter@.drop_last(),
            delta == spec_probe_delta(hash),
            probe == spec_probe(hash, j as nat),
            forall|i: nat|
                i < j ==> spec_bit_is_set(
                    bits,
                    #[trigger] spec_probe_bit(bits.len(), hash, i),
                ),
        decreases k - j,
    {
        let pos: usize = probe_bit(len - 1, probe);
        let mask: u8 = bit_mask(pos % 8);
        if filter[pos / 8] & mask == 0 {
            assert(!spec_bit_is_set(bits, spec_probe_bit(bits.len(), hash, j as nat)));
            return false;
        }
        probe = next_probe(probe, delta);
        j += 1;
    }
    true
}

/// Tells whether a filter leaves it open that `key` is among the keys it
/// was made for.
pub fn key_may_match(filter: &[u8], key: &[u8]) -> (may_match: bool)
    ensures
        may_match == spec_key_may_match(filter@, key@),
{
    hash_may_match(filter, bloom_hash(key))
}

} // verus!
