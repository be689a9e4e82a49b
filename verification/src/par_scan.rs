//! Scanning the new input on several threads.
use crate::index;
use crate::index::Matcher;
use crate::parallel;
use crate::parallel::{chunk_ranges, par_map, CHUNK};
use crate::patch;
use crate::plan;
use crate::record;
use crate::record::{append_slice, write_seek_record};
use crate::scan::diff_scan;
use vstd::prelude::*;

verus! {

/// Chunk `k` of `new`.
pub open spec fn chunk(new: Seq<u8>, k: int) -> Seq<u8> {
    new.subrange(k * CHUNK, parallel::chunk_end(new.len() as int, k))
}

/// The record in front of the patch for chunk `k`: it moves the decoder's read position back to 0.
/// The first chunk has none.
pub open spec fn rewind(old: Seq<u8>, new: Seq<u8>, k: int) -> Seq<u8> {
    if k > 0 {
        record::encode(record::seek_record(-plan::end_of_patch(old, chunk(new, k - 1))))
    } else {
        Seq::empty()
    }
}

/// The patches for the first `n` chunks of `new`, one after the other.
pub open spec fn stitched(old: Seq<u8>, new: Seq<u8>, n: int) -> Seq<u8>
    decreases n,
{
    if n <= 0 {
        Seq::empty()
    } else {
        stitched(old, new, n - 1) + rewind(old, new, n - 1) + plan::patch_of(
            old,
            chunk(new, n - 1),
        )
    }
}

/// The patch from `old` to `new` that consists of independent patches for the chunks of `new`.
pub open spec fn chunked_patch_of(old: Seq<u8>, new: Seq<u8>) -> Seq<u8> {
    stitched(old, new, parallel::chunk_count(new.len() as int))
}

/// From the end of the patch for chunk `k - 1`, the seek record and the patch for chunk `k` yield
/// chunk `k`.
proof fn lemma_next_chunk(old: Seq<u8>, new: Seq<u8>, k: int)
    requires
        old.len() <= i32::MAX,
        new.len() <= u64::MAX,
        1 <= k < parallel::chunk_count(new.len() as int),
    ensures
        patch::apply(
            old,
            rewind(old, new, k) + plan::patch_of(old, chunk(new, k)),
            plan::end_of_patch(old, chunk(new, k - 1)),
        ) == Ok::<(Seq<u8>, int), patch::PatchError>(
            (chunk(new, k), plan::end_of_patch(old, chunk(new, k))),
        ),
{
    let c = chunk(new, k);
    let sub = plan::patch_of(old, c);
    let end = plan::end_of_patch(old, chunk(new, k - 1));
    plan::law_round_trip(old, chunk(new, k - 1));
    plan::law_round_trip(old, c);
    patch::law_seek_record(old, -end, end);
    patch::law_apply_concat(old, rewind(old, new, k), sub, end);
    assert(Seq::<u8>::empty() + c =~= c);
}

/// The chunks before `k` and chunk `k` make up the chunks before `k + 1`.
proof fn lemma_chunks_join(new: Seq<u8>, k: int)
    requires
        1 <= k < parallel::chunk_count(new.len() as int),
    ensures
        new.take(parallel::chunk_end(new.len() as int, k - 1)) + chunk(new, k) == new.take(
            parallel::chunk_end(new.len() as int, k),
        ),
{
    assert(new.take(parallel::chunk_end(new.len() as int, k - 1)) + chunk(new, k) =~= new.take(
        parallel::chunk_end(new.len() as int, k),
    ));
}

/// Applying the patches for the first `n` chunks yields the first `n` chunks.
pub proof fn lemma_stitched(old: Seq<u8>, new: Seq<u8>, n: int)
    requires
        old.len() <= i32::MAX,
        new.len() <= u64::MAX,
        0 <= n <= parallel::chunk_count(new.len() as int),
    ensures
        n > 0 ==> patch::apply(old, stitched(old, new, n), 0) == Ok::<
            (Seq<u8>, int),
            patch::PatchError,
        >(
            (
                new.take(parallel::chunk_end(new.len() as int, n - 1)),
                plan::end_of_patch(old, chunk(new, n - 1)),
            ),
        ),
    decreases n,
{
    if n > 0 {
        let c = chunk(new, n - 1);
        let sub = plan::patch_of(old, c);
        let head = stitched(old, new, n - 1);
        let mark = rewind(old, new, n - 1);
        if n == 1 {
            plan::law_round_trip(old, c);
            assert(head + mark + sub =~= sub);
            assert(c =~= new.take(parallel::chunk_end(new.len() as int, 0)));
        } else {
            lemma_stitched(old, new, n - 1);
            lemma_next_chunk(old, new, n - 1);
            patch::law_apply_concat(old, head, mark + sub, 0);
            assert(head + mark + sub =~= head + (mark + sub));
            lemma_chunks_join(new, n - 1);
        }
    }
}

/// The patch that consists of patches for chunks, applied to `old`, yields `new`.
pub proof fn law_chunked_round_trip(old: Seq<u8>, new: Seq<u8>)
    requires
        old.len() <= i32::MAX,
        new.len() <= u64::MAX,
    ensures
        patch::decode(old, chunked_patch_of(old, new)) == Ok::<Seq<u8>, patch::PatchError>(new),
{
    let n = parallel::chunk_count(new.len() as int);
    if new.len() == 0 {
        assert(new =~= Seq::empty());
    } else {
        lemma_stitched(old, new, n);
        assert(new.take(parallel::chunk_end(new.len() as int, n - 1)) =~= new);
    }
}

/// A patch that consists of patches for chunks and is cut short never yields wrong bytes: applying
/// its first `k` bytes either fails because it ends in the middle of a record, or yields a prefix
/// of `new`.
pub proof fn law_truncated_chunked_round_trip(old: Seq<u8>, new: Seq<u8>, k: int)
    requires
        old.len() <= i32::MAX,
        new.len() <= u64::MAX,
        0 <= k <= chunked_patch_of(old, new).len(),
    ensures
        match patch::decode(old, chunked_patch_of(old, new).take(k)) {
            Ok(bytes) => bytes.is_prefix_of(new),
            Err(e) => e == patch::PatchError::UnexpectedEof,
        },
{
    law_chunked_round_trip(old, new);
    patch::law_truncated_patch(old, chunked_patch_of(old, new), 0, k);
}

/// An input that is no longer than a chunk has the same patch either way.
pub proof fn law_single_chunk(old: Seq<u8>, new: Seq<u8>)
    requires
        old.len() <= i32::MAX,
        new.len() <= CHUNK,
    ensures
        chunked_patch_of(old, new) == plan::patch_of(old, new),
{
    if new.len() == 0 {
        assert(chunked_patch_of(old, new) =~= plan::patch_of(old, new));
    } else {
        assert(parallel::chunk_count(new.len() as int) == 1);
        assert(stitched(old, new, 0) =~= Seq::empty());
        assert(chunk(new, 0) =~= new);
        assert(chunked_patch_of(old, new) =~= plan::patch_of(old, new));
    }
}

/// The patch for `new[start..end]`, and the decoder's read position after it.
fn diff_chunk(
    old: &[u8],
    new: &[u8],
    matcher: &Matcher,
    start: usize,
    end: usize,
) -> (res: (Vec<u8>, i64))
    requires
        old@.len() <= i32::MAX,
        matcher@ == index::table_of(old@),
        start <= end <= new@.len(),
    ensures
        res.0@ == plan::patch_of(old@, new@.subrange(start as int, end as int)),
        res.1 == plan::end_of_patch(old@, new@.subrange(start as int, end as int)),
        0 <= res.1 <= old@.len(),
{
    let mut buf: Vec<u8> = Vec::new();
    let end_pos = diff_scan(old, &new[start..end], matcher, &mut buf);
    proof {
        plan::law_round_trip(old@, new@.subrange(start as int, end as int));
        assert(buf@ =~= plan::patch_of(old@, new@.subrange(start as int, end as int)));
    }
    (buf, end_pos)
}

/// Parallel scan: splits `new_bytes` into contiguous chunks, diffs each chunk independently
/// against `old_bytes` (on its own thread), then stitches the resulting sub-patches back into one
/// stream.
///
/// Each chunk's records assume that the decoder's read position starts at 0, so before every chunk
/// after the first there is a zero-length record that seeks back to 0. The result reconstructs
/// `new_bytes` byte for byte; the only cost of chunking is slightly reduced compression
/// (cross-chunk match offsets are not shared), never correctness.
pub fn parallel_scan(
    old_bytes: &[u8],
    new_bytes: &[u8],
    matcher: &Matcher,
    writer: &mut Vec<u8>,
)
    requires
        old_bytes@.len() <= i32::MAX,
        matcher@ == index::table_of(old_bytes@),
    ensures
        final(writer)@ == old(writer)@ + chunked_patch_of(old_bytes@, new_bytes@),
{
    let n: usize = new_bytes.len();
    if n == 0 {
        assert(writer@ =~= old(writer)@ + chunked_patch_of(old_bytes@, new_bytes@));
        return;
    }
    let ranges = chunk_ranges(n);
    if ranges.len() == 1 {
        proof {
            law_single_chunk(old_bytes@, new_bytes@);
        }
        diff_scan(old_bytes, new_bytes, matcher, writer);
        return;
    }
    let diff_range = |r: &(usize, usize)| -> (res: (Vec<u8>, i64))
        requires
            r.0 <= r.1 <= new_bytes@.len(),
        ensures
            res.0@ == plan::patch_of(old_bytes@, new_bytes@.subrange(r.0 as int, r.1 as int)),
            res.1 == plan::end_of_patch(old_bytes@, new_bytes@.subrange(r.0 as int, r.1 as int)),
            0 <= res.1 <= old_bytes@.len(),
        { diff_chunk(old_bytes, new_bytes, matcher, r.0, r.1) };
    let results: Vec<(Vec<u8>, i64)> = par_map(ranges.as_slice(), diff_range);
    assert forall|k: int| 0 <= k < results@.len() implies {
        &&& (#[trigger] results@[k]).0@ == plan::patch_of(old_bytes@, chunk(new_bytes@, k))
        &&& results@[k].1 == plan::end_of_patch(old_bytes@, chunk(new_bytes@, k))
        &&& 0 <= results@[k].1 <= old_bytes@.len()
    } by {
        assert(ranges@[k].0 == k * CHUNK);
    }
    let mut prev_end: i64 = 0;
    let mut idx: usize = 0;
    assert(writer@ =~= old(writer)@ + stitched(old_bytes@, new_bytes@, 0));
    while idx < results.len()
        invariant
            old_bytes@.len() <= i32::MAX,
            idx <= results@.len(),
            forall|k: int|
                0 <= k < results@.len() ==> {
                    &&& (#[trigger] results@[k]).0@ == plan::patch_of(
                        old_bytes@,
                        chunk(new_bytes@, k),
                    )
                    &&& results@[k].1 == plan::end_of_patch(old_bytes@, chunk(new_bytes@, k))
                    &&& 0 <= results@[k].1 <= old_bytes@.len()
                },
            0 <= prev_end <= old_bytes@.len(),
            idx > 0 ==> prev_end == plan::end_of_patch(old_bytes@, chunk(new_bytes@, idx - 1)),
            writer@ == old(writer)@ + stitched(old_bytes@, new_bytes@, idx as int),
        decreases results@.len() - idx,
    {
        let ghost before = writer@;
        if idx > 0 {
            // The decoder's read position is currently `prev_end`; reset it to 0 for this chunk.
            write_seek_record(writer, -(prev_end as isize));
        }
        assert(writer@ =~= before + rewind(old_bytes@, new_bytes@, idx as int));
        append_slice(writer, results[idx].0.as_slice());
        prev_end = results[idx].1;
        idx += 1;
        assert(writer@ =~= old(writer)@ + stitched(old_bytes@, new_bytes@, idx as int));
    }
}

} // verus!
