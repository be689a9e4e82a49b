//! Building the hash index on several threads.
use crate::hash;
use crate::hash::{bucket_count, hash8, MAX_HASH_BITS, MIN_HASH_BITS};
use crate::index;
use crate::index::prefix_sums;
use crate::matching;
use crate::parallel;
use crate::parallel::{chunk_ranges, par_map, sort_range_descending, CHUNK};
use vstd::arithmetic::power2::*;
use vstd::prelude::*;

verus! {

/// Number of buckets that are sorted on one thread.
pub const LEAF_BUCKETS: usize = 4096;

/// The slice of bucket `b` in `positions`, which start with the slice of bucket `lo`.
pub open spec fn slice_of(offsets: Seq<u32>, lo: int, positions: Seq<i32>, b: int) -> Seq<i32> {
    positions.subrange(offsets[b] - offsets[lo], offsets[b + 1] - offsets[lo])
}

/// Whether the slices of the buckets `lo..hi` are sorted copies of what they were. Both sequences
/// start with the slice of bucket `lo`.
pub open spec fn slices_sorted(
    offsets: Seq<u32>,
    lo: int,
    hi: int,
    before: Seq<i32>,
    after: Seq<i32>,
) -> bool {
    &&& after.len() == before.len()
    &&& forall|b: int|
        lo <= b < hi ==> parallel::is_sorted_copy(
            slice_of(offsets, lo, before, b),
            #[trigger] slice_of(offsets, lo, after, b),
        )
}

/// Whether the starts of the slices of the buckets `lo..=hi` do not decrease.
pub open spec fn ascending_starts(offsets: Seq<u32>, lo: int, hi: int) -> bool {
    &&& 0 <= lo <= hi < offsets.len()
    &&& forall|b: int, c: int| lo <= b <= c <= hi ==> offsets[b] <= offsets[c]
}

/// Sorts the slices of the buckets `lo..hi` one after the other.
fn sort_leaf(offsets: &Vec<u32>, lo: usize, hi: usize, positions: Vec<i32>) -> (res: Vec<i32>)
    requires
        ascending_starts(offsets@, lo as int, hi as int),
        positions@.len() == offsets@[hi as int] - offsets@[lo as int],
    ensures
        slices_sorted(offsets@, lo as int, hi as int, positions@, res@),
{
    let mut res = positions;
    let base: u32 = offsets[lo];
    let mut b: usize = lo;
    while b < hi
        invariant
            ascending_starts(offsets@, lo as int, hi as int),
            positions@.len() == offsets@[hi as int] - offsets@[lo as int],
            base == offsets@[lo as int],
            lo <= b <= hi,
            hi < offsets.len(),
            res@.len() == positions@.len(),
            slices_sorted(offsets@, lo as int, b as int, positions@, res@),
            forall|i: int|
                offsets@[b as int] - base <= i < positions@.len() ==> #[trigger] res@[i]
                    == positions@[i],
        decreases hi - b,
    {
        let s: usize = (offsets[b] - base) as usize;
        let e: usize = (offsets[b + 1] - base) as usize;
        let ghost before = res@;
        sort_range_descending(&mut res, s, e);
        proof {
            assert(before.subrange(s as int, e as int) =~= positions@.subrange(s as int, e as int));
            assert forall|c: int| lo <= c < b + 1 implies parallel::is_sorted_copy(
                slice_of(offsets@, lo as int, positions@, c),
                #[trigger] slice_of(offsets@, lo as int, res@, c),
            ) by {
                if c < b {
                    assert(slice_of(offsets@, lo as int, res@, c) =~= slice_of(
                        offsets@,
                        lo as int,
                        before,
                        c,
                    ));
                }
            }
        }
        b += 1;
    }
    res
}

/// Sorts every bucket slice of `positions` in descending order, splitting the bucket range
/// recursively so that disjoint slices are sorted in parallel. `positions` covers the buckets
/// `lo..hi`; its first element is at global offset `offsets[lo]`.
pub fn sort_buckets(
    offsets: &Vec<u32>,
    lo: usize,
    hi: usize,
    positions: Vec<i32>,
) -> (res: Vec<i32>)
    requires
        ascending_starts(offsets@, lo as int, hi as int),
        positions@.len() == offsets@[hi as int] - offsets@[lo as int],
    ensures
        slices_sorted(offsets@, lo as int, hi as int, positions@, res@),
    decreases hi - lo,
{
    if hi - lo <= LEAF_BUCKETS {
        return sort_leaf(offsets, lo, hi, positions);
    }
    let ghost whole = positions@;
    let mid: usize = lo + (hi - lo) / 2;
    let mut left = positions;
    let right = left.split_off((offsets[mid] - offsets[lo]) as usize);
    let ghost (left0, right0) = (left@, right@);
    let sort_left = move || -> (res: Vec<i32>)
        requires
            ascending_starts(offsets@, lo as int, mid as int),
            left@.len() == offsets@[mid as int] - offsets@[lo as int],
        ensures
            slices_sorted(offsets@, lo as int, mid as int, left@, res@),
        { sort_buckets(offsets, lo, mid, left) };
    let sort_right = move || -> (res: Vec<i32>)
        requires
            ascending_starts(offsets@, mid as int, hi as int),
            right@.len() == offsets@[hi as int] - offsets@[mid as int],
        ensures
            slices_sorted(offsets@, mid as int, hi as int, right@, res@),
        { sort_buckets(offsets, mid, hi, right) };
    let (mut res, mut tail) = rayon::join(sort_left, sort_right);
    let ghost (left1, right1) = (res@, tail@);
    res.append(&mut tail);
    proof {
        assert forall|b: int| lo <= b < hi implies parallel::is_sorted_copy(
            slice_of(offsets@, lo as int, whole, b),
            #[trigger] slice_of(offsets@, lo as int, res@, b),
        ) by {
            if b < mid {
                assert(slice_of(offsets@, lo as int, whole, b) =~= slice_of(
                    offsets@,
                    lo as int,
                    left0,
                    b,
                ));
                assert(slice_of(offsets@, lo as int, res@, b) =~= slice_of(
                    offsets@,
                    lo as int,
                    left1,
                    b,
                ));
            } else {
                assert(slice_of(offsets@, lo as int, whole, b) =~= slice_of(
                    offsets@,
                    mid as int,
                    right0,
                    b,
                ));
                assert(slice_of(offsets@, lo as int, res@, b) =~= slice_of(
                    offsets@,
                    mid as int,
                    right1,
                    b,
                ));
            }
        }
    }
    res
}

/// The buckets of the anchors at the positions `start..end`.
fn bucket_ids(old: &[u8], bits: u32, start: usize, end: usize) -> (ids: Vec<u32>)
    requires
        MIN_HASH_BITS <= bits <= MAX_HASH_BITS,
        start <= end <= matching::anchor_count(old@.len() as int),
    ensures
        ids@.len() == end - start,
        forall|i: int|
            0 <= i < ids@.len() ==> #[trigger] ids@[i] == matching::bucket_at(
                old@,
                start + i,
                bits,
            ),
{
    let mut ids: Vec<u32> = Vec::with_capacity(end - start);
    let nb = bucket_count(bits);
    let mut i: usize = start;
    while i < end
        invariant
            MIN_HASH_BITS <= bits <= MAX_HASH_BITS,
            start <= i <= end <= matching::anchor_count(old@.len() as int),
            nb == pow2(bits as nat),
            nb <= 0x200_0000,
            ids@.len() == i - start,
            forall|k: int|
                0 <= k < ids@.len() ==> #[trigger] ids@[k] == matching::bucket_at(
                    old@,
                    start + k,
                    bits,
                ),
        decreases end - i,
    {
        let b = hash8(&old[i..old.len()], bits);
        assert(old@.subrange(i as int, old@.len() as int) =~= old@.skip(i as int));
        ids.push(b as u32);
        i += 1;
    }
    ids
}

/// The buckets of the anchors at the positions `0..m`, worked out chunk by chunk in parallel.
pub fn all_bucket_ids(old: &[u8], m: usize, bits: u32) -> (ids: Vec<u32>)
    requires
        MIN_HASH_BITS <= bits <= MAX_HASH_BITS,
        m <= matching::anchor_count(old@.len() as int),
    ensures
        ids@.len() == m,
        forall|i: int| 0 <= i < m ==> #[trigger] ids@[i] == matching::bucket_at(old@, i, bits),
{
    let ranges = chunk_ranges(m);
    let ids_of = |r: &(usize, usize)| -> (ids: Vec<u32>)
        requires
            r.0 <= r.1 <= m,
        ensures
            ids@.len() == r.1 - r.0,
            forall|i: int|
                0 <= i < ids@.len() ==> #[trigger] ids@[i] == matching::bucket_at(
                    old@,
                    r.0 + i,
                    bits,
                ),
        { bucket_ids(old, bits, r.0, r.1) };
    let parts: Vec<Vec<u32>> = par_map(ranges.as_slice(), ids_of);
    let mut ids: Vec<u32> = Vec::with_capacity(m);
    let mut k: usize = 0;
    while k < parts.len()
        invariant
            parts@.len() == ranges@.len(),
            ranges@.len() == parallel::chunk_count(m as int),
            k <= parts@.len(),
            forall|c: int|
                0 <= c < ranges@.len() ==> (#[trigger] ranges@[c]).0 == c * CHUNK && ranges@[c].1
                    == parallel::chunk_end(m as int, c) && ranges@[c].0 < ranges@[c].1 <= m,
            forall|c: int|
                0 <= c < parts@.len() ==> (#[trigger] parts@[c])@.len() == ranges@[c].1
                    - ranges@[c].0,
            forall|c: int, i: int|
                0 <= c < parts@.len() && 0 <= i < parts@[c]@.len() ==> #[trigger] parts@[c]@[i]
                    == matching::bucket_at(old@, ranges@[c].0 + i, bits),
            ids@.len() == if k == 0 {
                0
            } else {
                ranges@[k - 1].1 as int
            },
            forall|i: int|
                0 <= i < ids@.len() ==> #[trigger] ids@[i] == matching::bucket_at(old@, i, bits),
        decreases parts@.len() - k,
    {
        let ghost before = ids@;
        let part: &Vec<u32> = &parts[k];
        assert(ranges@[k as int].0 == ids@.len());
        ids.extend_from_slice(part.as_slice());
        assert forall|i: int| 0 <= i < ids@.len() implies #[trigger] ids@[i]
            == matching::bucket_at(old@, i, bits) by {
            if i < before.len() {
                assert(ids@[i] == before[i]);
            } else {
                assert(ids@[i] == parts@[k as int]@[i - before.len()]);
            }
        }
        k += 1;
    }
    assert(ids@.len() == m);
    ids
}

/// Whether the positions below `i` are in place, in ascending order within their buckets.
pub open spec fn scattered_up_to(
    old: Seq<u8>,
    bits: u32,
    m: int,
    i: int,
    positions: Seq<i32>,
) -> bool {
    forall|c: int, k: int|
        0 <= c < pow2(bits as nat) && 0 <= k < matching::bucket(old, bits, i, c).len()
            ==> positions[index::anchors_before(old, bits, m, c) + matching::bucket(
            old,
            bits,
            i,
            c,
        ).len() - 1 - k] == #[trigger] matching::bucket(old, bits, i, c)[k]
}

/// Putting position `i` into the next free slot of its bucket keeps the positions below it in
/// place.
pub proof fn lemma_scatter_up_step(
    old: Seq<u8>,
    bits: u32,
    m: int,
    i: int,
    b: int,
    positions: Seq<i32>,
)
    requires
        0 <= i < m <= i32::MAX,
        1 <= bits <= 64,
        0 <= b < pow2(bits as nat),
        matching::bucket_at(old, i, bits) == b,
        positions.len() == m,
        scattered_up_to(old, bits, m, i, positions),
    ensures
        ({
            let slot = index::anchors_before(old, bits, m, b) + matching::bucket(
                old,
                bits,
                i,
                b,
            ).len();
            &&& 0 <= slot < m
            &&& scattered_up_to(old, bits, m, i + 1, positions.update(slot, i as i32))
        }),
{
    let slot = index::anchors_before(old, bits, m, b) + matching::bucket(old, bits, i, b).len();
    let after = positions.update(slot, i as i32);
    index::lemma_bucket_suffix(old, bits, m, b, i + 1);
    index::lemma_anchors_before_step(old, bits, m, b);
    index::lemma_anchors_before_monotone(old, bits, m, b, b + 1);
    assert forall|c: int, k: int|
        0 <= c < pow2(bits as nat) && 0 <= k < matching::bucket(
            old,
            bits,
            i + 1,
            c,
        ).len() implies after[index::anchors_before(old, bits, m, c) + matching::bucket(
        old,
        bits,
        i + 1,
        c,
    ).len() - 1 - k] == #[trigger] matching::bucket(old, bits, i + 1, c)[k] by {
        let size = matching::bucket(old, bits, i + 1, c).len();
        let place = index::anchors_before(old, bits, m, c) + size - 1 - k;
        index::lemma_slices_apart(old, bits, m, b, c);
        index::lemma_bucket_suffix(old, bits, m, c, i + 1);
        index::lemma_anchors_before_step(old, bits, m, c);
        index::lemma_anchors_before_monotone(old, bits, m, c, c + 1);
        if c != b {
            assert(positions[place] == matching::bucket(old, bits, i, c)[k]);
        } else if k > 0 {
            assert(matching::bucket(old, bits, i + 1, c)[k] == matching::bucket(old, bits, i, c)[k
                - 1]);
        }
    }
}

/// A sequence has the same elements backwards.
proof fn lemma_reverse_to_multiset(s: Seq<i32>)
    ensures
        s.reverse().to_multiset() == s.to_multiset(),
    decreases s.len(),
{
    broadcast use vstd::seq_lib::group_to_multiset_ensures;

    if s.len() == 0 {
        assert(s.reverse() =~= s);
    } else {
        let rest = s.drop_last();
        lemma_reverse_to_multiset(rest);
        assert(s =~= rest.push(s.last()));
        assert(s.reverse() =~= seq![s.last()] + rest.reverse());
        vstd::seq_lib::lemma_multiset_commutative(seq![s.last()], rest.reverse());
        assert(seq![s.last()] =~= Seq::<i32>::empty().push(s.last()));
        assert(s.reverse().to_multiset() =~= s.to_multiset());
    }
}

/// A bucket that was filled in ascending order, once sorted, is in the order of the index.
pub proof fn lemma_sorted_bucket(
    old: Seq<u8>,
    bits: u32,
    m: int,
    b: int,
    before: Seq<i32>,
    after: Seq<i32>,
)
    requires
        m <= i32::MAX,
        before == matching::bucket(old, bits, m, b).reverse(),
        parallel::is_sorted_copy(before, after),
    ensures
        after == matching::bucket(old, bits, m, b),
{
    let slice = matching::bucket(old, bits, m, b);
    matching::lemma_bucket(old, bits, m, b);
    lemma_reverse_to_multiset(slice);
    let leq = |x: i32, y: i32| x >= y;
    vstd::seq_lib::lemma_sorted_unique(after, slice, leq);
}

/// Indexes positions `0..m` of `old` on several threads: hashes the anchors, counts bucket sizes,
/// sums them up into `offsets`, scatters the positions, then sorts every bucket slice by
/// descending position.
pub fn build_index_parallel(old: &[u8], m: usize, bits: u32) -> (res: (Vec<u32>, Vec<i32>))
    requires
        MIN_HASH_BITS <= bits <= MAX_HASH_BITS,
        m <= i32::MAX,
        m <= matching::anchor_count(old@.len() as int),
    ensures
        res.0@ == index::offsets_of(old@, bits, m as int),
        res.1@ == index::positions_of(old@, bits, m as int),
{
    let nb = bucket_count(bits);
    let ids = all_bucket_ids(old, m, bits);
    let mut offsets: Vec<u32> = vec![0u32; nb + 1];
    let mut i: usize = 0;
    while i < m
        invariant
            MIN_HASH_BITS <= bits <= MAX_HASH_BITS,
            m <= i32::MAX,
            nb == pow2(bits as nat),
            nb <= 0x200_0000,
            i <= m,
            ids@.len() == m,
            forall|k: int|
                0 <= k < m ==> #[trigger] ids@[k] == matching::bucket_at(old@, k, bits),
            offsets@.len() == nb + 1,
            offsets@[0] == 0,
            forall|c: int|
                0 < c <= nb ==> #[trigger] offsets@[c] == matching::bucket(
                    old@,
                    bits,
                    i as int,
                    c - 1,
                ).len(),
        decreases m - i,
    {
        let b: usize = ids[i] as usize;
        proof {
            hash::lemma_anchor_bucket_range(old@.skip(i as int), bits);
            index::lemma_bucket_len(old@, bits, i as int, b as int);
        }
        let size: u32 = offsets[b + 1];
        offsets.set(b + 1, size + 1);
        i += 1;
    }
    let mut cursors = prefix_sums(m, bits, &mut offsets, Ghost(old@));
    let mut positions: Vec<i32> = vec![0i32; m];
    let mut i: usize = 0;
    proof {
        index::lemma_starts(old@, bits, m as int);
    }
    while i < m
        invariant
            MIN_HASH_BITS <= bits <= MAX_HASH_BITS,
            m <= i32::MAX,
            nb == pow2(bits as nat),
            i <= m,
            ids@.len() == m,
            forall|k: int|
                0 <= k < m ==> #[trigger] ids@[k] == matching::bucket_at(old@, k, bits),
            positions@.len() == m,
            cursors@.len() == nb,
            forall|c: int|
                0 <= c < nb ==> #[trigger] cursors@[c] == index::anchors_before(
                    old@,
                    bits,
                    m as int,
                    c,
                ) + matching::bucket(old@, bits, i as int, c).len(),
            scattered_up_to(old@, bits, m as int, i as int, positions@),
        decreases m - i,
    {
        let b: usize = ids[i] as usize;
        proof {
            hash::lemma_anchor_bucket_range(old@.skip(i as int), bits);
            lemma_scatter_up_step(old@, bits, m as int, i as int, b as int, positions@);
        }
        let slot: u32 = cursors[b];
        positions.set(slot as usize, i as i32);
        cursors.set(b, slot + 1);
        i += 1;
    }
    let ghost filled = positions@;
    proof {
        assert forall|b: int, c: int| 0 <= b <= c <= nb implies offsets@[b] <= offsets@[c] by {
            index::lemma_anchors_before_monotone(old@, bits, m as int, b, c);
        }
        index::lemma_anchors_before_ends(old@, bits, m as int);
    }
    let positions = sort_buckets(&offsets, 0, nb, positions);
    proof {
        lemma_index_sorted(old@, bits, m as int, filled, positions@);
    }
    (offsets, positions)
}

/// Sorting the bucket slices of an index that was filled in ascending order completes it.
pub proof fn lemma_index_sorted(
    old: Seq<u8>,
    bits: u32,
    m: int,
    filled: Seq<i32>,
    sorted: Seq<i32>,
)
    requires
        0 <= m <= i32::MAX,
        1 <= bits <= 64,
        filled.len() == m,
        scattered_up_to(old, bits, m, m, filled),
        slices_sorted(
            index::offsets_of(old, bits, m),
            0,
            pow2(bits as nat) as int,
            filled,
            sorted,
        ),
    ensures
        sorted == index::positions_of(old, bits, m),
{
    let offsets = index::offsets_of(old, bits, m);
    let nb = pow2(bits as nat) as int;
    index::lemma_starts(old, bits, m);
    index::lemma_anchors_before_ends(old, bits, m);
    assert forall|c: int, k: int|
        0 <= c < nb && 0 <= k < matching::bucket(old, bits, m, c).len() implies sorted[
    index::anchors_before(old, bits, m, c) + k] == #[trigger] matching::bucket(
        old,
        bits,
        m,
        c,
    )[k] by {
        let slice = matching::bucket(old, bits, m, c);
        let lo = index::anchors_before(old, bits, m, c);
        index::lemma_anchors_before_step(old, bits, m, c);
        index::lemma_anchors_before_monotone(old, bits, m, c, c + 1);
        let before = slice_of(offsets, 0, filled, c);
        let after = slice_of(offsets, 0, sorted, c);
        assert forall|j: int| 0 <= j < slice.len() implies before[j] == #[trigger] slice.reverse()[
        j] by {
            assert(slice[slice.len() - 1 - j] == filled[lo + slice.len() - 1 - (slice.len() - 1
                - j)]);
        }
        assert(before =~= slice.reverse());
        lemma_sorted_bucket(old, bits, m, c, before, after);
        assert(after[k] == sorted[lo + k]);
    }
    index::lemma_positions_filled(old, bits, m, sorted, nb);
    assert(sorted.take(m) =~= sorted);
}

} // verus!
