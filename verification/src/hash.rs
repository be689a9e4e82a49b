//! Hashing of match anchors, and the size of the hash table.
use vstd::arithmetic::power2::*;
use vstd::bytes::*;
use vstd::prelude::*;

verus! {

/// Number of leading bytes hashed to form a match anchor.
pub const HASH_LEN: usize = 8;

/// Lower bound on the hash-table size (log2 of the number of buckets).
pub const MIN_HASH_BITS: u32 = 12;

/// Upper bound on the hash-table size (log2 of the number of buckets).
pub const MAX_HASH_BITS: u32 = 25;

/// The odd factor that an anchor is multiplied by.
pub const HASH_FACTOR: u64 = 0x9E37_79B1_85EB_CA87;

/// Whether `bits` is the table size for an input of `len` bytes: the smallest one, within the
/// bounds, that leaves an average of at most 4 anchors to a bucket.
pub open spec fn is_table_bits(len: int, bits: u32) -> bool {
    &&& MIN_HASH_BITS <= bits <= MAX_HASH_BITS
    &&& bits < MAX_HASH_BITS ==> len <= 4 * pow2(bits as nat)
    &&& bits > MIN_HASH_BITS ==> len > 4 * pow2((bits - 1) as nat)
}

/// The table size for an input of `len` bytes.
pub open spec fn table_bits(len: int) -> u32 {
    choose|bits: u32| is_table_bits(len, bits)
}

/// The bucket, out of `2^bits`, of the anchor that `window` starts with: the topmost `bits` bits
/// of the product, modulo `2^64`, of the anchor's little-endian value and a fixed factor.
pub open spec fn anchor_bucket(window: Seq<u8>, bits: u32) -> int {
    (spec_u64_from_le_bytes(window.take(HASH_LEN as int)) * HASH_FACTOR) % (u64::MAX + 1) / (pow2(
        (64 - bits) as nat,
    ) as int)
}

/// Table sizes order as input lengths do, so that at most one size fits a length.
pub proof fn law_table_bits_monotone(len1: int, bits1: u32, len2: int, bits2: u32)
    requires
        is_table_bits(len1, bits1),
        is_table_bits(len2, bits2),
        len1 <= len2,
    ensures
        bits1 <= bits2,
        len1 == len2 ==> bits1 == bits2,
{
    if bits1 > bits2 {
        lemma_pow2_increases(bits2 as nat, (bits1 - 1) as nat);
    } else if bits2 > bits1 {
        lemma_pow2_increases(bits1 as nat, (bits2 - 1) as nat);
    }
}

proof fn lemma_pow2_increases(a: nat, b: nat)
    requires
        a <= b,
    ensures
        pow2(a) <= pow2(b),
{
    if a < b {
        lemma_pow2_strictly_increases(a, b);
    }
}

/// The size that fits is the table size.
pub proof fn lemma_table_bits(len: int, bits: u32)
    requires
        is_table_bits(len, bits),
    ensures
        table_bits(len) == bits,
{
    law_table_bits_monotone(len, table_bits(len), len, bits);
}

proof fn lemma_some_table_bits(len: int, bits: u32)
    requires
        MIN_HASH_BITS <= bits <= MAX_HASH_BITS,
        bits > MIN_HASH_BITS ==> len > 4 * pow2((bits - 1) as nat),
    ensures
        exists|b: u32| is_table_bits(len, b),
    decreases MAX_HASH_BITS - bits,
{
    if bits < MAX_HASH_BITS && len > 4 * pow2(bits as nat) {
        lemma_some_table_bits(len, (bits + 1) as u32);
    } else {
        assert(is_table_bits(len, bits));
    }
}

/// The table size fits every length.
pub proof fn lemma_table_bits_fits(len: int)
    ensures
        is_table_bits(len, table_bits(len)),
{
    lemma_some_table_bits(len, MIN_HASH_BITS);
}

/// A table below the upper bound holds at most 4 anchors to a bucket on average; one above the
/// lower bound holds more than 2.
pub proof fn law_average_bucket_load(len: int, bits: u32)
    requires
        is_table_bits(len, bits),
    ensures
        bits < MAX_HASH_BITS ==> len <= 4 * pow2(bits as nat),
        bits > MIN_HASH_BITS ==> len > 2 * pow2(bits as nat),
{
    if bits > MIN_HASH_BITS {
        lemma_pow2_unfold(bits as nat);
    }
}

/// Every bucket lies in the table.
pub proof fn lemma_anchor_bucket_range(window: Seq<u8>, bits: u32)
    requires
        1 <= bits <= 64,
    ensures
        0 <= anchor_bucket(window, bits) < pow2(bits as nat),
{
    let x = (spec_u64_from_le_bytes(window.take(HASH_LEN as int)) * HASH_FACTOR) % (u64::MAX + 1);
    let d = pow2((64 - bits) as nat) as int;
    let n = pow2(bits as nat) as int;
    lemma_pow2_pos((64 - bits) as nat);
    lemma_pow2_adds(bits as nat, (64 - bits) as nat);
    lemma2_to64();
    assert(n * d == u64::MAX + 1);
    assert(0 <= x < n * d);
    assert(0 <= x / d < n) by (nonlinear_arith)
        requires
            0 <= x < n * d,
            d > 0,
    ;
}

/// The bucket in a smaller table is the leading bits of the bucket in a larger one.
pub proof fn law_smaller_table_bucket(window: Seq<u8>, j: u32, k: u32)
    requires
        1 <= j <= k <= 64,
    ensures
        anchor_bucket(window, j) == anchor_bucket(window, k) / (pow2((k - j) as nat) as int),
        anchor_bucket(window, j) == (anchor_bucket(window, k) as u64) >> ((k - j) as u64),
        0 <= anchor_bucket(window, j) < pow2(j as nat),
        0 <= anchor_bucket(window, k) < pow2(k as nat),
{
    let x = (spec_u64_from_le_bytes(window.take(HASH_LEN as int)) * HASH_FACTOR) % (u64::MAX + 1);
    let a = pow2((64 - k) as nat) as int;
    let c = pow2((k - j) as nat) as int;
    lemma_pow2_pos((64 - k) as nat);
    lemma_pow2_pos((k - j) as nat);
    lemma_pow2_adds((64 - k) as nat, (k - j) as nat);
    vstd::arithmetic::div_mod::lemma_div_denominator(x, a, c);
    lemma_anchor_bucket_range(window, j);
    lemma_anchor_bucket_range(window, k);
    lemma_pow2_increases(k as nat, 64);
    lemma2_to64();
    vstd::bits::lemma_u64_shr_is_div(anchor_bucket(window, k) as u64, (k - j) as u64);
}

/// Number of buckets in a table of `bits` bits.
pub fn bucket_count(bits: u32) -> (nb: usize)
    requires
        bits <= MAX_HASH_BITS,
    ensures
        nb == pow2(bits as nat),
        nb <= 0x200_0000,
{
    proof {
        lemma_pow2_increases(bits as nat, 25);
        lemma2_to64();
        vstd::bits::lemma_usize_shl_is_mul(1usize, bits as usize);
    }
    1usize << bits
}

/// Hash-table size for an input of `len` bytes, as log2 of the bucket count.
///
/// Sized for an average bucket load of at most 4. The table scales with the input: in a table of
/// fixed size, unrelated anchors collide into the same buckets once the input outgrows it. Scaling
/// also keeps small inputs from paying for a table sized for large ones.
pub fn bits_for(len: usize) -> (bits: u32)
    ensures
        is_table_bits(len as int, bits),
        bits == table_bits(len as int),
{
    let mut bits: u32 = MIN_HASH_BITS;
    while bits < MAX_HASH_BITS && len > 4 * bucket_count(bits)
        invariant
            MIN_HASH_BITS <= bits <= MAX_HASH_BITS,
            bits > MIN_HASH_BITS ==> len > 4 * pow2((bits - 1) as nat),
        ensures
            is_table_bits(len as int, bits),
        decreases MAX_HASH_BITS - bits,
    {
        bits = bits + 1;
    }
    proof {
        lemma_table_bits(len as int, bits);
    }
    bits
}

/// The bucket of the anchor that `bytes` starts with.
pub fn hash8(bytes: &[u8], bits: u32) -> (b: usize)
    requires
        bytes@.len() >= HASH_LEN,
        1 <= bits <= usize::BITS,
    ensures
        b == anchor_bucket(bytes@, bits),
        b < pow2(bits as nat),
{
    let x = u64_from_le_bytes(&bytes[0..HASH_LEN]);
    let product = x.wrapping_mul(HASH_FACTOR);
    proof {
        assert(bytes@.subrange(0, HASH_LEN as int) =~= bytes@.take(HASH_LEN as int));
        vstd::bits::lemma_u64_shr_is_div(product, (64 - bits) as u64);
        lemma_anchor_bucket_range(bytes@, bits);
        lemma_pow2_increases(bits as nat, usize::BITS as nat);
        lemma2_to64();
    }
    (product >> (64 - bits)) as usize
}

} // verus!
