//! Work that is spread over threads: what is taken from outside, and how inputs are divided.
use rayon::iter::{IntoParallelRefIterator, ParallelIterator};
use std::cmp::Ordering;
use vstd::prelude::*;

verus! {

/// Size of the chunks that an input is divided into.
///
/// This is a fixed constant, not derived from the thread count: chunk boundaries determine where
/// seek records fall, so patch bytes depend only on the input. It keeps the overhead per chunk
/// negligible while still splitting small inputs enough to matter.
pub const CHUNK: usize = 262_144;

/// Number of chunks of an input of `n` bytes.
pub open spec fn chunk_count(n: int) -> int {
    (n + CHUNK - 1) / (CHUNK as int)
}

/// Where chunk `k` of an input of `n` bytes ends; it starts where chunk `k - 1` ends.
pub open spec fn chunk_end(n: int, k: int) -> int {
    if (k + 1) * CHUNK <= n {
        (k + 1) * CHUNK
    } else {
        n
    }
}

/// `rayon::join` runs each of two closures once, possibly in parallel, and returns both results.
/// A panic of either would be passed on; where rayon's thread pool cannot be set up it panics
/// itself, which no argument decides.
pub assume_specification<A, B, RA, RB>[ rayon::join::<A, B, RA, RB> ](
    oper_a: A,
    oper_b: B,
) -> (res: (RA, RB)) where
    A: FnOnce() -> RA + Send,
    B: FnOnce() -> RB + Send,
    RA: Send,
    RB: Send,

    requires
        oper_a.requires(()),
        oper_b.requires(()),
    ensures
        oper_a.ensures((), res.0),
        oper_b.ensures((), res.1),
;

/// Maps `f` over `items` with rayon's parallel slice iterator, `par_iter().map(f).collect()`.
/// Every item is mapped, and the results come in the order of the items. Panics are as for
/// `rayon::join`.
#[verifier::external_body]
pub(crate) fn par_map<T, R, F>(items: &[T], f: F) -> (res: Vec<R>) where
    T: Sync,
    R: Send,
    F: Fn(&T) -> R + Sync + Send,

    requires
        forall|i: int| 0 <= i < items@.len() ==> call_requires(f, (&#[trigger] items@[i],)),
    ensures
        res@.len() == items@.len(),
        forall|i: int| 0 <= i < items@.len() ==> call_ensures(f, (&items@[i],), #[trigger] res@[i]),
{
    items.par_iter().map(f).collect()
}

/// Orders larger positions before smaller ones.
pub fn descending(x: &i32, y: &i32) -> (res: Ordering)
    ensures
        res == if *x > *y {
            Ordering::Less
        } else if *x == *y {
            Ordering::Equal
        } else {
            Ordering::Greater
        },
{
    if *x > *y {
        Ordering::Less
    } else if *x == *y {
        Ordering::Equal
    } else {
        Ordering::Greater
    }
}

/// Whether `after` is `before` in descending order.
pub open spec fn is_sorted_copy(before: Seq<i32>, after: Seq<i32>) -> bool {
    &&& after.to_multiset() == before.to_multiset()
    &&& forall|i: int, j: int| 0 <= i < j < after.len() ==> after[i] >= after[j]
}

/// Whether `after` is `before` with the places from `s` to `e` in descending order.
pub open spec fn is_range_sorted(before: Seq<i32>, after: Seq<i32>, s: usize, e: usize) -> bool {
    &&& after.len() == before.len()
    &&& is_sorted_copy(before.subrange(s as int, e as int), after.subrange(s as int, e as int))
    &&& forall|i: int| 0 <= i < s || e <= i < before.len() ==> #[trigger] after[i] == before[i]
}

/// Sorts `v[s..e]` in descending order with the standard library's `sort_unstable_by`, which
/// permutes the slice so that it is in order.
#[verifier::external_body]
pub(crate) fn sort_range_descending(v: &mut Vec<i32>, s: usize, e: usize)
    requires
        s <= e <= old(v)@.len(),
    ensures
        is_range_sorted(old(v)@, final(v)@, s, e),
{
    v[s..e].sort_unstable_by(descending)
}

/// The chunks of an input of `n` bytes, as start and end.
pub fn chunk_ranges(n: usize) -> (ranges: Vec<(usize, usize)>)
    ensures
        ranges@.len() == chunk_count(n as int),
        forall|k: int|
            0 <= k < ranges@.len() ==> (#[trigger] ranges@[k]).0 == k * CHUNK && ranges@[k].1
                == chunk_end(n as int, k) && ranges@[k].0 < ranges@[k].1 <= n,
{
    let mut ranges: Vec<(usize, usize)> = Vec::new();
    let mut start: usize = 0;
    while start < n
        invariant
            start <= n,
            start < n ==> start == ranges@.len() * CHUNK,
            start == n ==> ranges@.len() == chunk_count(n as int),
            forall|k: int|
                0 <= k < ranges@.len() ==> (#[trigger] ranges@[k]).0 == k * CHUNK && ranges@[k].1
                    == chunk_end(n as int, k) && ranges@[k].0 < ranges@[k].1 <= n,
        decreases n - start,
    {
        let end: usize = if n - start > CHUNK {
            start + CHUNK
        } else {
            n
        };
        ranges.push((start, end));
        start = end;
    }
    ranges
}

} // verus!
