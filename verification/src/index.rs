//! A hash index over the old input, in which matches are looked up.
use crate::hash;
use crate::hash::{bits_for, bucket_count, hash8, HASH_LEN, MAX_HASH_BITS, MIN_HASH_BITS};
use crate::matching;
use crate::matching::{matchlen, MAX_CHAIN};
use crate::par_index::build_index_parallel;
use vstd::arithmetic::power2::*;
use vstd::prelude::*;

verus! {

/// The contents of a hash index: the bucket slices and where each of them starts.
#[verifier::ext_equal]
pub struct Table {
    /// Log2 of the number of buckets.
    pub bits: u32,
    /// Where each bucket slice starts, and where the last one ends.
    pub offsets: Seq<u32>,
    /// The bucket slices, one after the other.
    pub positions: Seq<i32>,
}

/// Number of positions below `m` whose anchors fall into a bucket before `b`.
pub open spec fn anchors_before(old: Seq<u8>, bits: u32, m: int, b: int) -> int
    decreases m,
{
    if m <= 0 {
        0
    } else {
        anchors_before(old, bits, m - 1, b) + if matching::bucket_at(old, m - 1, bits) < b {
            1int
        } else {
            0int
        }
    }
}

/// The slices of the buckets before `b`, one after the other.
pub open spec fn buckets_before(old: Seq<u8>, bits: u32, m: int, b: int) -> Seq<i32>
    decreases b,
{
    if b <= 0 {
        Seq::empty()
    } else {
        buckets_before(old, bits, m, b - 1) + matching::bucket(old, bits, m, b - 1)
    }
}

/// Where the bucket slices of an index over positions `0..m` start.
pub open spec fn offsets_of(old: Seq<u8>, bits: u32, m: int) -> Seq<u32> {
    Seq::new(pow2(bits as nat) + 1, |b: int| anchors_before(old, bits, m, b) as u32)
}

/// The bucket slices of an index over positions `0..m`.
pub open spec fn positions_of(old: Seq<u8>, bits: u32, m: int) -> Seq<i32> {
    buckets_before(old, bits, m, pow2(bits as nat) as int)
}

/// The index of `old`.
pub open spec fn table_of(old: Seq<u8>) -> Table {
    let bits = hash::table_bits(old.len() as int);
    let m = matching::anchor_count(old.len() as int);
    Table { bits, offsets: offsets_of(old, bits, m), positions: positions_of(old, bits, m) }
}

/// The slice of a bucket starts where the slices before it end.
pub proof fn lemma_anchors_before_step(old: Seq<u8>, bits: u32, m: int, b: int)
    ensures
        anchors_before(old, bits, m, b + 1) == anchors_before(old, bits, m, b) + matching::bucket(
            old,
            bits,
            m,
            b,
        ).len(),
    decreases m,
{
    if m > 0 {
        lemma_anchors_before_step(old, bits, m - 1, b);
    }
}

/// The starts of the bucket slices do not decrease.
pub proof fn lemma_anchors_before_monotone(old: Seq<u8>, bits: u32, m: int, b1: int, b2: int)
    requires
        b1 <= b2,
        0 <= m,
    ensures
        0 <= anchors_before(old, bits, m, b1) <= anchors_before(old, bits, m, b2) <= m,
    decreases m,
{
    if m > 0 {
        lemma_anchors_before_monotone(old, bits, m - 1, b1, b2);
    }
}

/// The first bucket slice starts at 0 and the last one ends at `m`.
pub proof fn lemma_anchors_before_ends(old: Seq<u8>, bits: u32, m: int)
    requires
        0 <= m,
        1 <= bits <= 64,
    ensures
        anchors_before(old, bits, m, 0) == 0,
        anchors_before(old, bits, m, pow2(bits as nat) as int) == m,
    decreases m,
{
    if m > 0 {
        lemma_anchors_before_ends(old, bits, m - 1);
        hash::lemma_anchor_bucket_range(old.skip(m - 1), bits);
    }
}

/// The bucket slices before `b` fill the index up to where the slice of `b` starts.
pub proof fn lemma_buckets_before_len(old: Seq<u8>, bits: u32, m: int, b: int)
    requires
        0 <= m,
        0 <= b,
        1 <= bits <= 64,
    ensures
        buckets_before(old, bits, m, b).len() == anchors_before(old, bits, m, b),
    decreases b,
{
    if b > 0 {
        lemma_buckets_before_len(old, bits, m, b - 1);
        lemma_anchors_before_step(old, bits, m, b - 1);
    } else {
        lemma_anchors_before_ends(old, bits, m);
    }
}

/// Earlier bucket slices stay in place as later ones are added.
pub proof fn lemma_buckets_before_prefix(old: Seq<u8>, bits: u32, m: int, b1: int, b2: int)
    requires
        0 <= b1 <= b2,
    ensures
        buckets_before(old, bits, m, b1).is_prefix_of(buckets_before(old, bits, m, b2)),
    decreases b2,
{
    if b1 < b2 {
        lemma_buckets_before_prefix(old, bits, m, b1, b2 - 1);
        let shorter = buckets_before(old, bits, m, b1);
        let longer = buckets_before(old, bits, m, b2 - 1);
        let all = buckets_before(old, bits, m, b2);
        assert(shorter =~= longer.subrange(0, shorter.len() as int));
        assert(shorter =~= all.subrange(0, shorter.len() as int));
    }
}

/// The slice of a bucket holds exactly the positions whose anchors fall into it, in descending
/// order.
pub proof fn law_bucket_slice(old: Seq<u8>, bits: u32, m: int, b: int)
    requires
        0 <= m,
        1 <= bits <= 64,
        0 <= b < pow2(bits as nat),
    ensures
        0 <= anchors_before(old, bits, m, b) <= anchors_before(old, bits, m, b + 1) <= positions_of(
            old,
            bits,
            m,
        ).len(),
        positions_of(old, bits, m).len() == m,
        positions_of(old, bits, m).subrange(
            anchors_before(old, bits, m, b),
            anchors_before(old, bits, m, b + 1),
        ) == matching::bucket(old, bits, m, b),
{
    let nb = pow2(bits as nat) as int;
    let all = positions_of(old, bits, m);
    let lo = anchors_before(old, bits, m, b);
    let hi = anchors_before(old, bits, m, b + 1);
    lemma_anchors_before_monotone(old, bits, m, b, b + 1);
    lemma_anchors_before_monotone(old, bits, m, b + 1, nb);
    lemma_anchors_before_ends(old, bits, m);
    lemma_buckets_before_len(old, bits, m, b);
    lemma_buckets_before_len(old, bits, m, b + 1);
    lemma_buckets_before_len(old, bits, m, nb);
    lemma_buckets_before_prefix(old, bits, m, b + 1, nb);
    let upto = buckets_before(old, bits, m, b + 1);
    assert(upto =~= all.subrange(0, hi));
    assert(all.subrange(lo, hi) =~= upto.subrange(lo, hi));
    assert(upto.subrange(lo, hi) =~= matching::bucket(old, bits, m, b));
}

/// The bucket slices before `b` hold positions of those buckets, none twice.
pub proof fn lemma_buckets_before_distinct(old: Seq<u8>, bits: u32, m: int, b: int)
    requires
        0 <= m <= i32::MAX,
    ensures
        buckets_before(old, bits, m, b).no_duplicates(),
        forall|k: int|
            0 <= k < buckets_before(old, bits, m, b).len() ==> {
                let p = #[trigger] buckets_before(old, bits, m, b)[k];
                0 <= p < m && matching::bucket_at(old, p as int, bits) < b
            },
    decreases b,
{
    if b > 0 {
        lemma_buckets_before_distinct(old, bits, m, b - 1);
        matching::lemma_bucket(old, bits, m, b - 1);
        let head = buckets_before(old, bits, m, b - 1);
        let slice = matching::bucket(old, bits, m, b - 1);
        let all = buckets_before(old, bits, m, b);
        assert forall|k: int| 0 <= k < all.len() implies {
            let p = #[trigger] all[k];
            0 <= p < m && matching::bucket_at(old, p as int, bits) < b
        } by {
            if k < head.len() {
                assert(all[k] == head[k]);
            } else {
                assert(all[k] == slice[k - head.len()]);
            }
        }
        assert forall|j: int, k: int| 0 <= j < k < all.len() implies all[j] != all[k] by {
            if k < head.len() {
                assert(head[j] != head[k]);
            } else if j < head.len() {
                assert(matching::bucket_at(old, head[j] as int, bits) < b - 1);
                assert(matching::bucket_at(old, slice[k - head.len()] as int, bits) == b - 1);
            } else {
                assert(slice[j - head.len()] > slice[k - head.len()]);
            }
        }
    }
}

/// An index holds every position once and nothing else.
pub proof fn law_every_position_indexed(old: Seq<u8>, bits: u32, m: int, i: int)
    requires
        0 <= i < m <= i32::MAX,
        1 <= bits <= 64,
    ensures
        positions_of(old, bits, m).contains(i as i32),
        positions_of(old, bits, m).no_duplicates(),
        positions_of(old, bits, m).len() == m,
        forall|k: int| 0 <= k < m ==> 0 <= #[trigger] positions_of(old, bits, m)[k] < m,
{
    let b = matching::bucket_at(old, i, bits);
    hash::lemma_anchor_bucket_range(old.skip(i), bits);
    lemma_buckets_before_distinct(old, bits, m, pow2(bits as nat) as int);
    law_bucket_slice(old, bits, m, b);
    matching::lemma_bucket_complete(old, bits, m, b, i);
    let k = matching::bucket(old, bits, m, b).index_of(i as i32);
    let lo = anchors_before(old, bits, m, b);
    let hi = anchors_before(old, bits, m, b + 1);
    assert(positions_of(old, bits, m).subrange(lo, hi)[k] == positions_of(old, bits, m)[lo + k]);
}

/// The positions below `i` are the last ones of their buckets.
pub proof fn lemma_bucket_suffix(old: Seq<u8>, bits: u32, m: int, b: int, i: int)
    requires
        0 <= i <= m,
    ensures
        matching::bucket(old, bits, i, b).len() <= matching::bucket(old, bits, m, b).len(),
        matching::bucket(old, bits, m, b).skip(
            matching::bucket(old, bits, m, b).len() - matching::bucket(old, bits, i, b).len(),
        ) == matching::bucket(old, bits, i, b),
    decreases m,
{
    let all = matching::bucket(old, bits, m, b);
    let low = matching::bucket(old, bits, i, b);
    if i < m {
        lemma_bucket_suffix(old, bits, m - 1, b, i);
        let rest = matching::bucket(old, bits, m - 1, b);
        assert(all.skip(all.len() - low.len()) =~= rest.skip(rest.len() - low.len()));
    } else {
        assert(all.skip(0) =~= all);
    }
}

/// Bucket slices that are filled in place make up the index.
pub proof fn lemma_positions_filled(
    old: Seq<u8>,
    bits: u32,
    m: int,
    positions: Seq<i32>,
    b: int,
)
    requires
        0 <= m,
        1 <= bits <= 64,
        positions.len() == m,
        0 <= b <= pow2(bits as nat),
        forall|c: int, k: int|
            0 <= c < pow2(bits as nat) && 0 <= k < matching::bucket(old, bits, m, c).len()
                ==> positions[anchors_before(old, bits, m, c) + k]
                == #[trigger] matching::bucket(old, bits, m, c)[k],
    ensures
        0 <= anchors_before(old, bits, m, b) <= m,
        positions.take(anchors_before(old, bits, m, b)) == buckets_before(old, bits, m, b),
    decreases b,
{
    lemma_anchors_before_monotone(old, bits, m, b, b);
    lemma_anchors_before_ends(old, bits, m);
    if b > 0 {
        lemma_positions_filled(old, bits, m, positions, b - 1);
        lemma_anchors_before_step(old, bits, m, b - 1);
        let lo = anchors_before(old, bits, m, b - 1);
        let hi = anchors_before(old, bits, m, b);
        let slice = matching::bucket(old, bits, m, b - 1);
        assert forall|j: int| 0 <= j < hi implies positions[j] == #[trigger] buckets_before(
            old,
            bits,
            m,
            b,
        )[j] by {
            if j >= lo {
                assert(slice[j - lo] == positions[lo + (j - lo)]);
            } else {
                assert(positions.take(lo)[j] == positions[j]);
            }
        }
        lemma_buckets_before_len(old, bits, m, b);
        assert(positions.take(hi) =~= buckets_before(old, bits, m, b));
    } else {
        assert(positions.take(0) =~= Seq::empty());
    }
}

/// A hash-chain match finder over the old input.
///
/// Every position of the old input is indexed by the hash of its first [`HASH_LEN`] bytes. Buckets
/// are stored one after the other: `positions[offsets[b]..offsets[b + 1]]` holds every position
/// whose anchor hashes to bucket `b`, sorted by descending position; a lookup scans that slice
/// (capped at [`MAX_CHAIN`] candidates).
///
/// This finds *good* matches, not provably longest ones as a suffix array would, but every match
/// is verified byte for byte. Building it is far cheaper than a suffix array.
pub struct Matcher {
    offsets: Vec<u32>,
    positions: Vec<i32>,
    bits: u32,
}

impl View for Matcher {
    type V = Table;

    closed spec fn view(&self) -> Table {
        Table { bits: self.bits, offsets: self.offsets@, positions: self.positions@ }
    }
}

/// Turns bucket sizes into the places where the bucket slices start. Entry `b + 1` of `offsets`
/// holds the size of bucket `b`. Returns the starts once more, as cursors.
pub(crate) fn prefix_sums(
    m: usize,
    bits: u32,
    offsets: &mut Vec<u32>,
    Ghost(data): Ghost<Seq<u8>>,
) -> (cursors: Vec<u32>)
    requires
        MIN_HASH_BITS <= bits <= MAX_HASH_BITS,
        m <= i32::MAX,
        old(offsets)@.len() == pow2(bits as nat) + 1,
        old(offsets)@[0] == 0,
        forall|c: int|
            0 < c <= pow2(bits as nat) ==> #[trigger] old(offsets)@[c] == matching::bucket(
                data,
                bits,
                m as int,
                c - 1,
            ).len(),
    ensures
        final(offsets)@ == offsets_of(data, bits, m as int),
        cursors@ == offsets_of(data, bits, m as int).drop_last(),
{
    let nb = bucket_count(bits);
    let mut cursors: Vec<u32> = vec![0u32; nb];
    let mut b: usize = 0;
    proof {
        lemma_anchors_before_ends(data, bits, m as int);
    }
    while b < nb
        invariant
            MIN_HASH_BITS <= bits <= MAX_HASH_BITS,
            m <= i32::MAX,
            nb == pow2(bits as nat),
            b <= nb,
            nb <= 0x200_0000,
            offsets@.len() == nb + 1,
            cursors@.len() == nb,
            forall|c: int|
                0 <= c <= b ==> #[trigger] offsets@[c] == anchors_before(
                    data,
                    bits,
                    m as int,
                    c,
                ),
            forall|c: int|
                b < c <= nb ==> #[trigger] offsets@[c] == matching::bucket(
                    data,
                    bits,
                    m as int,
                    c - 1,
                ).len(),
            forall|c: int|
                0 <= c < b ==> #[trigger] cursors@[c] == anchors_before(
                    data,
                    bits,
                    m as int,
                    c,
                ),
        decreases nb - b,
    {
        proof {
            lemma_anchors_before_step(data, bits, m as int, b as int);
            lemma_anchors_before_monotone(data, bits, m as int, b as int, b + 1);
        }
        let start: u32 = offsets[b];
        let size: u32 = offsets[b + 1];
        offsets.set(b + 1, start + size);
        cursors.set(b, start);
        b += 1;
    }
    proof {
        assert forall|c: int| 0 <= c <= nb implies #[trigger] offsets@[c] == offsets_of(
            data,
            bits,
            m as int,
        )[c] by {
            lemma_anchors_before_monotone(data, bits, m as int, c, c);
        }
        assert(offsets@ =~= offsets_of(data, bits, m as int));
        assert(cursors@ =~= offsets_of(data, bits, m as int).drop_last());
    }
    cursors
}

impl Matcher {
    /// The index of `old`, for which matches are looked up in it.
    ///
    /// Positions are stored as `i32`, so larger inputs have to be turned away before.
    pub fn build(old: &[u8]) -> (res: Self)
        requires
            old@.len() <= i32::MAX,
        ensures
            res@ == table_of(old@),
    {
        let bits = bits_for(old.len());
        let m: usize = if old.len() >= HASH_LEN {
            old.len() - HASH_LEN + 1
        } else {
            0
        };
        let (offsets, positions) = Self::build_index(old, m, bits);
        Matcher { offsets, positions, bits }
    }

    /// The index of `old`, built on several threads. It is the same as the one built on one.
    pub fn build_parallel(old: &[u8]) -> (res: Self)
        requires
            old@.len() <= i32::MAX,
        ensures
            res@ == table_of(old@),
    {
        let bits = bits_for(old.len());
        let m: usize = if old.len() >= HASH_LEN {
            old.len() - HASH_LEN + 1
        } else {
            0
        };
        let (offsets, positions) = build_index_parallel(old, m, bits);
        Matcher { offsets, positions, bits }
    }

    /// Indexes positions `0..m` of `old`: counts bucket sizes, sums them up into `offsets`, then
    /// scatters positions so that every bucket slice is sorted by descending position.
    pub fn build_index(old: &[u8], m: usize, bits: u32) -> (res: (Vec<u32>, Vec<i32>))
        requires
            MIN_HASH_BITS <= bits <= MAX_HASH_BITS,
            m <= i32::MAX,
            m <= matching::anchor_count(old@.len() as int),
        ensures
            res.0@ == offsets_of(old@, bits, m as int),
            res.1@ == positions_of(old@, bits, m as int),
    {
        let nb = bucket_count(bits);
        let mut offsets: Vec<u32> = vec![0u32; nb + 1];
        let mut i: usize = 0;
        while i < m
            invariant
                MIN_HASH_BITS <= bits <= MAX_HASH_BITS,
                m <= i32::MAX,
                m <= matching::anchor_count(old@.len() as int),
                nb == pow2(bits as nat),
                nb <= 0x200_0000,
                i <= m,
                offsets@.len() == nb + 1,
                offsets@[0] == 0,
                forall|c: int|
                    0 < c <= nb ==> #[trigger] offsets@[c] == matching::bucket(
                        old@,
                        bits,
                        i as int,
                        c - 1,
                    ).len(),
            decreases m - i,
        {
            let b = hash8(&old[i..old.len()], bits);
            assert(old@.subrange(i as int, old@.len() as int) =~= old@.skip(i as int));
            let size: u32 = offsets[b + 1];
            proof {
                lemma_bucket_len(old@, bits, i as int, b as int);
            }
            offsets.set(b + 1, size + 1);
            i += 1;
        }
        let mut cursors = prefix_sums(m, bits, &mut offsets, Ghost(old@));
        // Scattering positions in descending order leaves every bucket slice sorted descending.
        let mut positions: Vec<i32> = vec![0i32; m];
        let mut i: usize = m;
        proof {
            lemma_starts(old@, bits, m as int);
        }
        while i > 0
            invariant
                MIN_HASH_BITS <= bits <= MAX_HASH_BITS,
                m <= i32::MAX,
                m <= matching::anchor_count(old@.len() as int),
                nb == pow2(bits as nat),
                i <= m,
                positions@.len() == m,
                cursors@.len() == nb,
                forall|c: int|
                    0 <= c < nb ==> #[trigger] cursors@[c] == anchors_before(
                        old@,
                        bits,
                        m as int,
                        c,
                    ) + matching::bucket(old@, bits, m as int, c).len() - matching::bucket(
                        old@,
                        bits,
                        i as int,
                        c,
                    ).len(),
                scattered_down_to(old@, bits, m as int, i as int, positions@),
            decreases i,
        {
            i -= 1;
            let b = hash8(&old[i..old.len()], bits);
            assert(old@.subrange(i as int, old@.len() as int) =~= old@.skip(i as int));
            let slot: u32 = cursors[b];
            let ghost before = positions@;
            proof {
                lemma_scatter_slot(old@, bits, m as int, i as int, b as int);
                assert(matching::bucket(old@, bits, i + 1, b as int).len() == 1
                    + matching::bucket(old@, bits, i as int, b as int).len());
            }
            positions.set(slot as usize, i as i32);
            cursors.set(b, slot + 1);
            proof {
                lemma_scatter_step(old@, bits, m as int, i as int, b as int, before);
            }
        }
        proof {
            lemma_positions_filled(old@, bits, m as int, positions@, nb as int);
            lemma_anchors_before_ends(old@, bits, m as int);
            assert(positions@.take(m as int) =~= positions@);
        }
        (offsets, positions)
    }

    /// Finds a long match for `new[scan..]` within `old`, returning `(pos, len)` where
    /// `old[pos..pos + len] == new[scan..scan + len]`. Returns `(0, 0)` when no anchor matches.
    pub fn longest_match(&self, old: &[u8], new: &[u8], scan: usize) -> (res: (usize, usize))
        requires
            self@ == table_of(old@),
            old@.len() <= i32::MAX,
        ensures
            (res.0 as int, res.1 as int) == matching::found_match(old@, new@, scan as int),
            res.0 + res.1 <= old@.len(),
            res == (0usize, 0usize) || res.1 >= HASH_LEN,
            res.1 == 0 || scan + res.1 <= new@.len(),
            res.1 > 0 ==> old@.subrange(res.0 as int, res.0 + res.1) == new@.subrange(
                scan as int,
                scan + res.1,
            ),
    {
        if new.len() < HASH_LEN || scan > new.len() - HASH_LEN {
            return (0, 0);
        }
        let target = &new[scan..new.len()];
        let ghost m = matching::anchor_count(old@.len() as int);
        proof {
            hash::lemma_table_bits_fits(old@.len() as int);
            assert(target@ =~= new@.skip(scan as int));
            matching::law_found_match_agrees(old@, new@, scan as int);
            lemma_starts(old@, self.bits, m);
        }
        let b = hash8(target, self.bits);
        assert(self.offsets.len() == pow2(self.bits as nat) + 1);
        let start: usize = self.offsets[b] as usize;
        let stop: usize = self.offsets[b + 1] as usize;
        let ghost slice = matching::bucket(old@, self.bits, m, b as int);
        let ghost cands = matching::candidates(old@, target@);
        proof {
            law_bucket_slice(old@, self.bits, m, b as int);
            matching::lemma_bucket(old@, self.bits, m, b as int);
        }
        let end: usize = if stop - start <= MAX_CHAIN {
            stop
        } else {
            start + MAX_CHAIN
        };
        assert(self.positions@.subrange(start as int, end as int) =~= cands) by {
            assert(slice.take(end - start) =~= self.positions@.subrange(start as int, end as int));
        }
        let mut best_pos: usize = 0;
        let mut best_len: usize = 0;
        // Candidates are sorted by descending position: most recent first.
        let mut j: usize = start;
        assert(cands.take(0) =~= Seq::empty());
        assert(cands.take(end - start) =~= cands);
        while j < end
            invariant
                old@.len() <= i32::MAX,
                start <= j <= end,
                end <= self.positions@.len(),
                self.positions@.subrange(start as int, end as int) == cands,
                cands.take(end - start) == cands,
                forall|k: int| 0 <= k < cands.len() ==> 0 <= #[trigger] cands[k] < old@.len(),
                (best_pos as int, best_len as int) == matching::best_candidate(
                    old@,
                    target@,
                    cands.take(j - start),
                ),
                best_len <= target@.len(),
                best_len <= old@.len(),
            ensures
                (best_pos as int, best_len as int) == matching::best_candidate(
                    old@,
                    target@,
                    cands,
                ),
            decreases end - j,
        {
            let ghost head = cands.take(j - start);
            let ghost longer = cands.take(j + 1 - start);
            assert(cands[j - start] == self.positions@[j as int]);
            assert(longer.drop_last() =~= head);
            assert(longer.last() == self.positions@[j as int]);
            let pos: usize = self.positions[j] as usize;
            j += 1;
            proof {
                matching::lemma_match_len(old@.skip(pos as int), target@);
            }
            // Skip candidates that cannot extend past the best match found so far.
            if best_len < target.len() && (best_len == 0 || (pos + best_len < old.len()
                && old[pos + best_len] == target[best_len])) {
                let l = matchlen(&old[pos..old.len()], target);
                assert(old@.subrange(pos as int, old@.len() as int) =~= old@.skip(pos as int));
                if l > best_len {
                    best_len = l;
                    best_pos = pos;
                    if best_len == target.len() {
                        proof {
                            matching::lemma_best_candidate_whole(
                                old@,
                                target@,
                                cands,
                                j - start,
                            );
                        }
                        break;
                    }
                }
            } else {
                assert(matching::match_len(old@.skip(pos as int), target@) <= best_len) by {
                    if best_len < target@.len() && pos + best_len < old@.len() {
                        assert(old@.skip(pos as int)[best_len as int] != target@[best_len as int]);
                    }
                }
            }
        }
        // Anchors that only share the bucket agree on less than an anchor.
        if best_len < HASH_LEN {
            return (0, 0);
        }
        (best_pos, best_len)
    }
}

/// Whether the positions from `i` to `m` are in place.
pub open spec fn scattered_down_to(
    old: Seq<u8>,
    bits: u32,
    m: int,
    i: int,
    positions: Seq<i32>,
) -> bool {
    forall|c: int, k: int|
        0 <= c < pow2(bits as nat) && 0 <= k < matching::bucket(old, bits, m, c).len()
            - matching::bucket(old, bits, i, c).len() ==> positions[anchors_before(old, bits, m, c)
            + k] == #[trigger] matching::bucket(old, bits, m, c)[k]
}

/// Putting position `i` into the next free slot of its bucket keeps the positions above it in
/// place.
pub proof fn lemma_scatter_step(
    old: Seq<u8>,
    bits: u32,
    m: int,
    i: int,
    b: int,
    positions: Seq<i32>,
)
    requires
        0 <= i < m <= i32::MAX,
        1 <= bits <= 64,
        0 <= b < pow2(bits as nat),
        matching::bucket_at(old, i, bits) == b,
        positions.len() == m,
        scattered_down_to(old, bits, m, i + 1, positions),
    ensures
        scattered_down_to(
            old,
            bits,
            m,
            i,
            positions.update(
                anchors_before(old, bits, m, b) + matching::bucket(old, bits, m, b).len()
                    - matching::bucket(old, bits, i + 1, b).len(),
                i as i32,
            ),
        ),
{
    let all = matching::bucket(old, bits, m, b);
    let slot = anchors_before(old, bits, m, b) + all.len() - matching::bucket(
        old,
        bits,
        i + 1,
        b,
    ).len();
    let after = positions.update(slot, i as i32);
    lemma_scatter_slot(old, bits, m, i, b);
    assert forall|c: int, k: int|
        0 <= c < pow2(bits as nat) && 0 <= k < matching::bucket(old, bits, m, c).len()
            - matching::bucket(old, bits, i, c).len() implies after[anchors_before(old, bits, m, c)
        + k] == #[trigger] matching::bucket(old, bits, m, c)[k] by {
        let place = anchors_before(old, bits, m, c) + k;
        lemma_slices_apart(old, bits, m, b, c);
        lemma_anchors_before_step(old, bits, m, c);
        lemma_anchors_before_monotone(old, bits, m, c, c + 1);
        assert(0 <= place < m);
        if c != b || place != slot {
            assert(place != slot);
            assert(positions[place] == matching::bucket(old, bits, m, c)[k]);
        }
    }
}

/// A bucket holds no more positions than there are.
pub proof fn lemma_bucket_len(old: Seq<u8>, bits: u32, m: int, b: int)
    requires
        0 <= m,
    ensures
        matching::bucket(old, bits, m, b).len() <= m,
    decreases m,
{
    if m > 0 {
        lemma_bucket_len(old, bits, m - 1, b);
    }
}

/// The starts of the bucket slices as numbers in the table.
pub proof fn lemma_starts(old: Seq<u8>, bits: u32, m: int)
    requires
        0 <= m <= i32::MAX,
    ensures
        forall|b: int|
            0 <= b <= pow2(bits as nat) ==> #[trigger] offsets_of(old, bits, m)[b]
                == anchors_before(old, bits, m, b),
{
    assert forall|b: int| 0 <= b <= pow2(bits as nat) implies #[trigger] offsets_of(
        old,
        bits,
        m,
    )[b] == anchors_before(old, bits, m, b) by {
        lemma_anchors_before_monotone(old, bits, m, b, b);
    }
}

/// With the positions above `i` in place, position `i` goes to the next free slot of its bucket.
pub proof fn lemma_scatter_slot(old: Seq<u8>, bits: u32, m: int, i: int, b: int)
    requires
        0 <= i < m <= i32::MAX,
        1 <= bits <= 64,
        0 <= b < pow2(bits as nat),
        matching::bucket_at(old, i, bits) == b,
    ensures
        ({
            let k = matching::bucket(old, bits, m, b).len() - matching::bucket(
                old,
                bits,
                i + 1,
                b,
            ).len();
            &&& 0 <= k < matching::bucket(old, bits, m, b).len()
            &&& matching::bucket(old, bits, m, b)[k] == i
            &&& anchors_before(old, bits, m, b) + k < m
            &&& 0 <= anchors_before(old, bits, m, b)
        }),
{
    lemma_bucket_suffix(old, bits, m, b, i + 1);
    let all = matching::bucket(old, bits, m, b);
    let low = matching::bucket(old, bits, i + 1, b);
    assert(low[0] == i);
    assert(all.skip(all.len() - low.len())[0] == all[all.len() - low.len()]);
    lemma_anchors_before_step(old, bits, m, b);
    lemma_anchors_before_monotone(old, bits, m, b, b + 1);
}

/// Slices of different buckets have no place in common.
pub proof fn lemma_slices_apart(old: Seq<u8>, bits: u32, m: int, b: int, c: int)
    requires
        0 <= m,
    ensures
        b < c ==> anchors_before(old, bits, m, b) + matching::bucket(old, bits, m, b).len()
            <= anchors_before(old, bits, m, c),
        c < b ==> anchors_before(old, bits, m, c) + matching::bucket(old, bits, m, c).len()
            <= anchors_before(old, bits, m, b),
{
    lemma_anchors_before_step(old, bits, m, b);
    lemma_anchors_before_step(old, bits, m, c);
    if b < c {
        lemma_anchors_before_monotone(old, bits, m, b + 1, c);
    } else if c < b {
        lemma_anchors_before_monotone(old, bits, m, c + 1, b);
    }
}

} // verus!
