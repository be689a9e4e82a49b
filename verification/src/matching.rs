//! What a match is: how far two byte strings agree, and which position of the old input agrees
//! furthest with a place in the new one.
use crate::hash;
use crate::hash::HASH_LEN;
use vstd::prelude::*;

verus! {

/// Upper bound on the number of candidates inspected per lookup, to keep the worst case (highly
/// repetitive regions) bounded.
pub const MAX_CHAIN: usize = 32;

/// Whether `a` and `b` agree on exactly their first `n` bytes.
pub open spec fn is_match_len(a: Seq<u8>, b: Seq<u8>, n: int) -> bool {
    &&& 0 <= n <= a.len()
    &&& n <= b.len()
    &&& forall|i: int| 0 <= i < n ==> #[trigger] a[i] == b[i]
    &&& n < a.len() && n < b.len() ==> a[n] != b[n]
}

/// The length of the longest common prefix of `a` and `b`.
pub open spec fn match_len(a: Seq<u8>, b: Seq<u8>) -> int
    decreases a.len(),
{
    if a.len() == 0 || b.len() == 0 || a[0] != b[0] {
        0
    } else {
        1 + match_len(a.drop_first(), b.drop_first())
    }
}

/// The common-prefix length is the one length on which two strings exactly agree.
pub proof fn lemma_match_len(a: Seq<u8>, b: Seq<u8>)
    ensures
        is_match_len(a, b, match_len(a, b)),
    decreases a.len(),
{
    if !(a.len() == 0 || b.len() == 0 || a[0] != b[0]) {
        let (a1, b1) = (a.drop_first(), b.drop_first());
        lemma_match_len(a1, b1);
        let n = match_len(a, b);
        assert forall|i: int| 0 <= i < n implies #[trigger] a[i] == b[i] by {
            if i > 0 {
                assert(a1[i - 1] == b1[i - 1]);
            }
        }
    }
}

/// No two lengths are exact common-prefix lengths of the same strings.
pub proof fn lemma_match_len_unique(a: Seq<u8>, b: Seq<u8>, n: int)
    requires
        is_match_len(a, b, n),
    ensures
        match_len(a, b) == n,
{
    lemma_match_len(a, b);
    let k = match_len(a, b);
    if n < k {
        assert(a[n] == b[n]);
    } else if k < n {
        assert(a[k] == b[k]);
    }
}

/// Number of positions of an input that have a whole anchor.
pub open spec fn anchor_count(len: int) -> int {
    if len >= HASH_LEN {
        len - HASH_LEN + 1
    } else {
        0
    }
}

/// The bucket of the anchor at position `i` of `old`.
pub open spec fn bucket_at(old: Seq<u8>, i: int, bits: u32) -> int {
    hash::anchor_bucket(old.skip(i), bits)
}

/// The positions below `m` whose anchors fall into bucket `b`, in descending order.
pub open spec fn bucket(old: Seq<u8>, bits: u32, m: int, b: int) -> Seq<i32>
    decreases m,
{
    if m <= 0 {
        Seq::empty()
    } else if bucket_at(old, m - 1, bits) == b {
        seq![(m - 1) as i32] + bucket(old, bits, m - 1, b)
    } else {
        bucket(old, bits, m - 1, b)
    }
}

/// The positions of `old` that a lookup of `target` inspects: the topmost ones, at most
/// `MAX_CHAIN`, whose anchors fall into the bucket of the target's.
pub open spec fn candidates(old: Seq<u8>, target: Seq<u8>) -> Seq<i32> {
    let bits = hash::table_bits(old.len() as int);
    let all = bucket(old, bits, anchor_count(old.len() as int), hash::anchor_bucket(target, bits));
    all.take(if all.len() <= MAX_CHAIN { all.len() as int } else { MAX_CHAIN as int })
}

/// Out of `cands`, the first position at which `old` agrees furthest with `target`, and how far
/// it agrees; `(0, 0)` if it agrees nowhere.
pub open spec fn best_candidate(old: Seq<u8>, target: Seq<u8>, cands: Seq<i32>) -> (int, int)
    decreases cands.len(),
{
    if cands.len() == 0 {
        (0, 0)
    } else {
        let best = best_candidate(old, target, cands.drop_last());
        let len = match_len(old.skip(cands.last() as int), target);
        if len > best.1 {
            (cands.last() as int, len)
        } else {
            best
        }
    }
}

/// The match that is found for `new` from `scan` on: a position in `old` and a length. It is
/// `(0, 0)` where no candidate agrees on a whole anchor, so that anchors which only share a bucket
/// do not count.
pub open spec fn found_match(old: Seq<u8>, new: Seq<u8>, scan: int) -> (int, int) {
    if scan + HASH_LEN > new.len() {
        (0, 0)
    } else {
        let best = best_candidate(old, new.skip(scan), candidates(old, new.skip(scan)));
        if best.1 < HASH_LEN {
            (0, 0)
        } else {
            best
        }
    }
}

/// Every position in a bucket is an anchor position in range, and the bucket is in strictly
/// descending order.
pub proof fn lemma_bucket(old: Seq<u8>, bits: u32, m: int, b: int)
    requires
        m <= i32::MAX,
    ensures
        forall|k: int|
            0 <= k < bucket(old, bits, m, b).len() ==> {
                let p = #[trigger] bucket(old, bits, m, b)[k];
                0 <= p < m && bucket_at(old, p as int, bits) == b
            },
        forall|j: int, k: int|
            0 <= j < k < bucket(old, bits, m, b).len() ==> bucket(old, bits, m, b)[j] > bucket(
                old,
                bits,
                m,
                b,
            )[k],
    decreases m,
{
    if m > 0 {
        lemma_bucket(old, bits, m - 1, b);
        let rest = bucket(old, bits, m - 1, b);
        if bucket_at(old, m - 1, bits) == b {
            let all = bucket(old, bits, m, b);
            assert(forall|k: int| 1 <= k < all.len() ==> #[trigger] all[k] == rest[k - 1]);
        }
    }
}

/// A bucket holds every anchor position that falls into it.
pub proof fn lemma_bucket_complete(old: Seq<u8>, bits: u32, m: int, b: int, i: int)
    requires
        0 <= i < m <= i32::MAX,
        bucket_at(old, i, bits) == b,
    ensures
        bucket(old, bits, m, b).contains(i as i32),
    decreases m,
{
    let all = bucket(old, bits, m, b);
    if i == m - 1 {
        assert(all[0] == i);
    } else {
        lemma_bucket_complete(old, bits, m - 1, b, i);
        let rest = bucket(old, bits, m - 1, b);
        let k = rest.index_of(i as i32);
        if bucket_at(old, m - 1, bits) == b {
            assert(all[k + 1] == i as i32);
        } else {
            assert(all[k] == i as i32);
        }
    }
}

/// The best candidate agrees with the target byte for byte over its length, no candidate agrees
/// further, and none before it agrees as far.
pub proof fn lemma_best_candidate(old: Seq<u8>, target: Seq<u8>, cands: Seq<i32>)
    requires
        forall|k: int| 0 <= k < cands.len() ==> 0 <= #[trigger] cands[k] <= old.len(),
    ensures
        ({
            let (pos, len) = best_candidate(old, target, cands);
            &&& 0 <= pos
            &&& 0 <= len <= target.len()
            &&& pos + len <= old.len()
            &&& old.subrange(pos, pos + len) == target.take(len)
            &&& forall|k: int|
                0 <= k < cands.len() ==> match_len(old.skip(#[trigger] cands[k] as int), target)
                    <= len
            &&& len == 0 ==> pos == 0
            &&& len > 0 ==> exists|k: int|
                {
                    &&& 0 <= k < cands.len()
                    &&& #[trigger] cands[k] == pos
                    &&& match_len(old.skip(pos), target) == len
                    &&& forall|j: int|
                        0 <= j < k ==> match_len(old.skip(#[trigger] cands[j] as int), target) < len
                }
        }),
    decreases cands.len(),
{
    let (pos, len) = best_candidate(old, target, cands);
    if cands.len() == 0 {
        assert(old.subrange(0, 0) =~= target.take(0));
    } else {
        let head = cands.drop_last();
        let n = head.len();
        assert(cands[n as int] == cands.last());
        assert(forall|k: int| 0 <= k < n ==> #[trigger] head[k] == cands[k]);
        lemma_best_candidate(old, target, head);
        let best = best_candidate(old, target, head);
        let last = cands.last() as int;
        let l = match_len(old.skip(last), target);
        lemma_match_len(old.skip(last), target);
        assert forall|k: int| 0 <= k < cands.len() implies match_len(
            old.skip(#[trigger] cands[k] as int),
            target,
        ) <= len by {
            if k < n {
                assert(head[k] == cands[k]);
            }
        }
        if l > best.1 {
            assert forall|i: int| 0 <= i < l implies old.subrange(pos, pos + len)[i]
                == #[trigger] target.take(len)[i] by {
                assert(old.skip(last)[i] == target[i]);
            }
            assert(old.subrange(pos, pos + len) =~= target.take(len));
            assert forall|j: int| 0 <= j < n implies match_len(
                old.skip(#[trigger] cands[j] as int),
                target,
            ) < len by {
                assert(head[j] == cands[j]);
            }
        } else if len > 0 {
            let k = choose|k: int|
                {
                    &&& 0 <= k < head.len()
                    &&& #[trigger] head[k] == pos
                    &&& match_len(old.skip(pos), target) == len
                    &&& forall|j: int|
                        0 <= j < k ==> match_len(old.skip(#[trigger] head[j] as int), target) < len
                };
            assert(cands[k] == pos);
            assert forall|j: int| 0 <= j < k implies match_len(
                old.skip(#[trigger] cands[j] as int),
                target,
            ) < len by {
                assert(head[j] == cands[j]);
            }
        }
    }
}

/// No candidate improves on one that agrees with the whole target.
pub proof fn lemma_best_candidate_whole(old: Seq<u8>, target: Seq<u8>, cands: Seq<i32>, n: int)
    requires
        0 <= n <= cands.len(),
        best_candidate(old, target, cands.take(n)).1 == target.len(),
    ensures
        best_candidate(old, target, cands) == best_candidate(old, target, cands.take(n)),
    decreases cands.len(),
{
    if n == cands.len() {
        assert(cands.take(n) =~= cands);
    } else {
        assert(cands.drop_last().take(n) =~= cands.take(n));
        lemma_best_candidate_whole(old, target, cands.drop_last(), n);
        lemma_match_len(old.skip(cands.last() as int), target);
    }
}

/// Every match that is found is one byte for byte, and lies within both inputs. Where no
/// candidate agrees on a whole anchor the match is empty.
pub proof fn law_found_match_agrees(old: Seq<u8>, new: Seq<u8>, scan: int)
    requires
        old.len() <= i32::MAX,
        0 <= scan <= new.len(),
    ensures
        ({
            let (pos, len) = found_match(old, new, scan);
            &&& 0 <= pos
            &&& 0 <= len
            &&& pos + len <= old.len()
            &&& scan + len <= new.len()
            &&& old.subrange(pos, pos + len) == new.subrange(scan, scan + len)
            &&& len == 0 ==> pos == 0
            &&& len == 0 || len >= HASH_LEN
        }),
{
    assert(old.subrange(0, 0) =~= new.subrange(scan, scan));
    if scan + HASH_LEN <= new.len() {
        let target = new.skip(scan);
        let bits = hash::table_bits(old.len() as int);
        let m = anchor_count(old.len() as int);
        lemma_bucket(old, bits, m, hash::anchor_bucket(target, bits));
        lemma_best_candidate(old, target, candidates(old, target));
        let (pos, len) = found_match(old, new, scan);
        assert(target.take(len) =~= new.subrange(scan, scan + len));
    }
}

/// No candidate of a lookup that agrees on a whole anchor agrees further than the match that is
/// found.
pub proof fn law_found_match_longest(old: Seq<u8>, new: Seq<u8>, scan: int, k: int)
    requires
        old.len() <= i32::MAX,
        0 <= scan,
        scan + HASH_LEN <= new.len(),
        0 <= k < candidates(old, new.skip(scan)).len(),
        match_len(old.skip(candidates(old, new.skip(scan))[k] as int), new.skip(scan)) >= HASH_LEN,
    ensures
        match_len(old.skip(candidates(old, new.skip(scan))[k] as int), new.skip(scan))
            <= found_match(old, new, scan).1,
{
    let target = new.skip(scan);
    let bits = hash::table_bits(old.len() as int);
    let m = anchor_count(old.len() as int);
    lemma_bucket(old, bits, m, hash::anchor_bucket(target, bits));
    lemma_best_candidate(old, target, candidates(old, target));
}

/// A match that is found covers the whole anchor: it is empty, or at least as long as an anchor
/// and at a position of `old` that has the anchor. So where no anchor of `old` matches, the result
/// is `(0, 0)`.
pub proof fn law_found_match_has_anchor(old: Seq<u8>, new: Seq<u8>, scan: int)
    requires
        old.len() <= i32::MAX,
        0 <= scan <= new.len(),
    ensures
        found_match(old, new, scan) == (0int, 0int) || {
            let (pos, len) = found_match(old, new, scan);
            &&& len >= HASH_LEN
            &&& 0 <= pos < anchor_count(old.len() as int)
            &&& scan + HASH_LEN <= new.len()
            &&& old.subrange(pos, pos + HASH_LEN) == new.subrange(scan, scan + HASH_LEN)
        },
        (forall|i: int|
            0 <= i < anchor_count(old.len() as int) ==> #[trigger] old.subrange(i, i + HASH_LEN)
                != new.subrange(scan, scan + HASH_LEN)) ==> found_match(old, new, scan) == (
            0int,
            0int,
        ),
{
    law_found_match_agrees(old, new, scan);
    let (pos, len) = found_match(old, new, scan);
    if len > 0 {
        assert(old.subrange(pos, pos + HASH_LEN) =~= old.subrange(pos, pos + len).take(
            HASH_LEN as int,
        ));
        assert(new.subrange(scan, scan + HASH_LEN) =~= new.subrange(scan, scan + len).take(
            HASH_LEN as int,
        ));
    }
}

/// A lookup inspects at most `MAX_CHAIN` positions. They are in the target's bucket and in strictly
/// descending order, and no position in the bucket that is left out lies above any of them.
pub proof fn law_candidates(old: Seq<u8>, target: Seq<u8>, i: int)
    requires
        old.len() <= i32::MAX,
        0 <= i < anchor_count(old.len() as int),
        bucket_at(old, i, hash::table_bits(old.len() as int)) == hash::anchor_bucket(
            target,
            hash::table_bits(old.len() as int),
        ),
    ensures
        candidates(old, target).len() <= MAX_CHAIN,
        forall|k: int|
            0 <= k < candidates(old, target).len() ==> {
                let p = #[trigger] candidates(old, target)[k];
                &&& 0 <= p < anchor_count(old.len() as int)
                &&& bucket_at(old, p as int, hash::table_bits(old.len() as int))
                    == hash::anchor_bucket(target, hash::table_bits(old.len() as int))
            },
        forall|j: int, k: int|
            0 <= j < k < candidates(old, target).len() ==> candidates(old, target)[j] > candidates(
                old,
                target,
            )[k],
        candidates(old, target).contains(i as i32) || (candidates(old, target).len() == MAX_CHAIN
            && forall|k: int| 0 <= k < MAX_CHAIN ==> #[trigger] candidates(old, target)[k] > i),
{
    let bits = hash::table_bits(old.len() as int);
    let m = anchor_count(old.len() as int);
    let b = hash::anchor_bucket(target, bits);
    let all = bucket(old, bits, m, b);
    let cands = candidates(old, target);
    lemma_bucket(old, bits, m, b);
    lemma_bucket_complete(old, bits, m, b, i);
    let at = all.index_of(i as i32);
    if at < cands.len() {
        assert(cands[at] == i as i32);
    }
}

/// An anchor of `new` that occurs in `old` is found, unless `MAX_CHAIN` positions above it share
/// its bucket: the match is then at least as long as the anchor.
pub proof fn law_anchor_found(old: Seq<u8>, new: Seq<u8>, scan: int, i: int)
    requires
        old.len() <= i32::MAX,
        0 <= scan,
        scan + HASH_LEN <= new.len(),
        0 <= i < anchor_count(old.len() as int),
        old.subrange(i, i + HASH_LEN) == new.subrange(scan, scan + HASH_LEN),
    ensures
        found_match(old, new, scan).1 >= match_len(old.skip(i), new.skip(scan)) >= HASH_LEN || {
            &&& candidates(old, new.skip(scan)).len() == MAX_CHAIN
            &&& forall|k: int|
                0 <= k < MAX_CHAIN ==> #[trigger] candidates(old, new.skip(scan))[k] > i
        },
{
    let target = new.skip(scan);
    let cands = candidates(old, target);
    assert(old.skip(i).take(HASH_LEN as int) =~= old.subrange(i, i + HASH_LEN));
    assert(target.take(HASH_LEN as int) =~= new.subrange(scan, scan + HASH_LEN));
    law_candidates(old, target, i);
    if cands.contains(i as i32) {
        let k = cands.index_of(i as i32);
        lemma_match_len(old.skip(i), target);
        let n = match_len(old.skip(i), target);
        if n < HASH_LEN {
            assert(old.skip(i).take(HASH_LEN as int)[n] == target.take(HASH_LEN as int)[n]);
        }
        law_found_match_longest(old, new, scan, k);
    }
}

/// How many leading bytes `old` and `new` have in common.
pub fn matchlen(old: &[u8], new: &[u8]) -> (n: usize)
    ensures
        n == match_len(old@, new@),
        is_match_len(old@, new@, n as int),
{
    let mut n: usize = 0;
    while n < old.len() && n < new.len() && old[n] == new[n]
        invariant
            n <= old@.len(),
            n <= new@.len(),
            forall|i: int| 0 <= i < n ==> #[trigger] old@[i] == new@[i],
        decreases old@.len() - n,
    {
        n += 1;
    }
    proof {
        lemma_match_len_unique(old@, new@, n as int);
    }
    n
}

} // verus!
