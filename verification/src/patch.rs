//! Applying a patch to the old input.
use crate::record;
use crate::record::{append_slice, offtin, HEADER_LEN};
use vstd::bytes::u64_from_le_bytes;
use vstd::prelude::*;

verus! {

/// Why a patch cannot be applied.
#[derive(Clone, Copy, Debug, PartialEq, Eq, Structural)]
pub enum PatchError {
    /// The patch ends in the middle of a record.
    UnexpectedEof,
    /// A record reads old bytes that do not exist.
    InvalidData,
}

/// What applying a patch comes to: the new bytes and the final read position in the old input, or
/// the error.
pub type Outcome = Result<(Seq<u8>, int), PatchError>;

/// The outcome `rest` with `out` in front of its new bytes.
pub open spec fn prepend(out: Seq<u8>, rest: Outcome) -> Outcome {
    match rest {
        Ok((bytes, oldpos)) => Ok((out + bytes, oldpos)),
        Err(e) => Err(e),
    }
}

/// The bytes that `mix` stands for at position `oldpos` of `old`: bytewise sums, modulo 256.
pub open spec fn unmix(old: Seq<u8>, oldpos: int, mix: Seq<u8>) -> Seq<u8> {
    Seq::new(mix.len(), |i: int| mix[i].wrapping_add(old[oldpos + i]))
}

/// Applies the records of `p` to `old`, with the read position at `oldpos`.
pub open spec fn apply(old: Seq<u8>, p: Seq<u8>, oldpos: int) -> Outcome
    decreases p.len(),
{
    let mix_len = record::word_at(p, 0) as int;
    let copy_len = record::word_at(p, 8) as int;
    let seek = record::signed_value(record::word_at(p, 16));
    let mix_end = HEADER_LEN + mix_len;
    let end = mix_end + copy_len;
    if p.len() == 0 {
        Ok((Seq::empty(), oldpos))
    } else if p.len() < HEADER_LEN || p.len() < end {
        Err(PatchError::UnexpectedEof)
    } else if oldpos < 0 || oldpos + mix_len > old.len() {
        Err(PatchError::InvalidData)
    } else {
        prepend(
            unmix(old, oldpos, p.subrange(HEADER_LEN as int, mix_end)) + p.subrange(mix_end, end),
            apply(old, p.skip(end), oldpos + mix_len + seek),
        )
    }
}

/// What the patch `p` makes of `old`: the new bytes, or the error.
pub open spec fn decode(old: Seq<u8>, p: Seq<u8>) -> Result<Seq<u8>, PatchError> {
    match apply(old, p, 0) {
        Ok((bytes, _)) => Ok(bytes),
        Err(e) => Err(e),
    }
}

/// Applying a patch that starts with the record `r`.
pub proof fn lemma_apply_record(old: Seq<u8>, r: record::Record, tail: Seq<u8>, oldpos: int)
    requires
        r.mix.len() <= u64::MAX,
        r.copy.len() <= u64::MAX,
        -record::SIGN_BIT < r.seek < record::SIGN_BIT,
        0 <= oldpos,
        oldpos + r.mix.len() <= old.len(),
    ensures
        apply(old, record::encode(r) + tail, oldpos) == prepend(
            unmix(old, oldpos, r.mix) + r.copy,
            apply(old, tail, oldpos + r.mix.len() + r.seek),
        ),
{
    let p = record::encode(r) + tail;
    let head = record::header(r.mix.len() as int, r.copy.len() as int, r.seek);
    assert(p =~= head + (r.mix + r.copy + tail));
    record::lemma_header_fields(
        r.mix.len() as int,
        r.copy.len() as int,
        r.seek,
        r.mix + r.copy + tail,
    );
    record::law_signed_field_round_trip(r.seek);
    let mix_end = HEADER_LEN + r.mix.len();
    let end = mix_end + r.copy.len();
    assert(p.subrange(HEADER_LEN as int, mix_end as int) =~= r.mix);
    assert(p.subrange(mix_end as int, end as int) =~= r.copy);
    assert(p.skip(end as int) =~= tail);
}

/// Applying one patch after another: the second starts where the first left the read position.
pub proof fn law_apply_concat(old: Seq<u8>, p: Seq<u8>, q: Seq<u8>, oldpos: int)
    ensures
        apply(old, p, oldpos) matches Ok((bytes, end)) ==> apply(old, p + q, oldpos) == prepend(
            bytes,
            apply(old, q, end),
        ),
    decreases p.len(),
{
    if apply(old, p, oldpos) is Ok {
        let (bytes, end) = apply(old, p, oldpos)->Ok_0;
        let pq = p + q;
        if p.len() == 0 {
            assert(pq =~= q);
            if apply(old, q, end) is Ok {
                assert(bytes + apply(old, q, end)->Ok_0.0 =~= apply(old, q, end)->Ok_0.0);
            }
        } else {
            assert(pq.subrange(0, 8) =~= p.subrange(0, 8));
            assert(pq.subrange(8, 16) =~= p.subrange(8, 16));
            assert(pq.subrange(16, 24) =~= p.subrange(16, 24));
            let mix_len = record::word_at(p, 0) as int;
            let mix_end = HEADER_LEN + mix_len;
            let rec_end = mix_end + record::word_at(p, 8);
            let next = oldpos + mix_len + record::signed_value(record::word_at(p, 16));
            assert(pq.subrange(HEADER_LEN as int, mix_end) =~= p.subrange(
                HEADER_LEN as int,
                mix_end,
            ));
            assert(pq.subrange(mix_end, rec_end) =~= p.subrange(mix_end, rec_end));
            assert(pq.skip(rec_end) =~= p.skip(rec_end) + q);
            law_apply_concat(old, p.skip(rec_end), q, next);
            let out = unmix(old, oldpos, p.subrange(HEADER_LEN as int, mix_end)) + p.subrange(
                mix_end,
                rec_end,
            );
            let rest = apply(old, p.skip(rec_end), next)->Ok_0.0;
            assert(bytes == out + rest);
            if apply(old, q, end) is Ok {
                let tail = apply(old, q, end)->Ok_0.0;
                assert(out + (rest + tail) =~= bytes + tail);
            }
        }
    }
}

/// A patch that is cut short never yields wrong bytes: applying its first `k` bytes either fails
/// because the patch ends in the middle of a record, or yields a prefix of the new bytes.
pub proof fn law_truncated_patch(old: Seq<u8>, p: Seq<u8>, oldpos: int, k: int)
    requires
        apply(old, p, oldpos) is Ok,
        0 <= k <= p.len(),
    ensures
        match apply(old, p.take(k), oldpos) {
            Ok((bytes, _)) => bytes.is_prefix_of(apply(old, p, oldpos)->Ok_0.0),
            Err(e) => e == PatchError::UnexpectedEof,
        },
    decreases p.len(),
{
    let q = p.take(k);
    if k >= HEADER_LEN {
        assert(q.subrange(0, 8) =~= p.subrange(0, 8));
        assert(q.subrange(8, 16) =~= p.subrange(8, 16));
        assert(q.subrange(16, 24) =~= p.subrange(16, 24));
        let mix_len = record::word_at(p, 0) as int;
        let mix_end = HEADER_LEN + mix_len;
        let end = mix_end + record::word_at(p, 8);
        let next = oldpos + mix_len + record::signed_value(record::word_at(p, 16));
        if k >= end {
            assert(q.subrange(HEADER_LEN as int, mix_end) =~= p.subrange(
                HEADER_LEN as int,
                mix_end,
            ));
            assert(q.subrange(mix_end, end) =~= p.subrange(mix_end, end));
            assert(q.skip(end) =~= p.skip(end).take(k - end));
            law_truncated_patch(old, p.skip(end), next, k - end);
        }
    }
}

/// A record that is cut short cannot be applied, wherever it is cut.
pub proof fn law_truncated_record(old: Seq<u8>, r: record::Record, oldpos: int, k: int)
    requires
        r.mix.len() <= u64::MAX,
        r.copy.len() <= u64::MAX,
        0 < k < record::encode(r).len(),
    ensures
        apply(old, record::encode(r).take(k), oldpos) == Err::<(Seq<u8>, int), PatchError>(
            PatchError::UnexpectedEof,
        ),
{
    let p = record::encode(r);
    let q = p.take(k);
    if k >= HEADER_LEN {
        let head = record::header(r.mix.len() as int, r.copy.len() as int, r.seek);
        assert(p =~= head + (r.mix + r.copy));
        record::lemma_header_fields(
            r.mix.len() as int,
            r.copy.len() as int,
            r.seek,
            r.mix + r.copy,
        );
        assert(q.subrange(0, 8) =~= p.subrange(0, 8));
        assert(q.subrange(8, 16) =~= p.subrange(8, 16));
    }
}

/// A seek record yields no bytes and moves the read position.
pub proof fn law_seek_record(old: Seq<u8>, seek: int, oldpos: int)
    requires
        -record::SIGN_BIT < seek < record::SIGN_BIT,
        0 <= oldpos <= old.len(),
    ensures
        apply(old, record::encode(record::seek_record(seek)), oldpos) == Ok::<
            (Seq<u8>, int),
            PatchError,
        >((Seq::empty(), oldpos + seek)),
{
    let r = record::seek_record(seek);
    lemma_apply_record(old, r, Seq::empty(), oldpos);
    assert(record::encode(r) + Seq::<u8>::empty() =~= record::encode(r));
    assert(unmix(old, oldpos, r.mix) + r.copy + Seq::<u8>::empty() =~= Seq::empty());
}

/// Applies `patch_bytes` to `old_bytes` and appends the result to `new`, which stays as it was if
/// the patch cannot be applied.
#[verifier::rlimit(30)]
pub fn patch(old_bytes: &[u8], patch_bytes: &[u8], new: &mut Vec<u8>) -> (res: Result<
    (),
    PatchError,
>)
    ensures
        match decode(old_bytes@, patch_bytes@) {
            Ok(bytes) => res is Ok && final(new)@ == old(new)@ + bytes,
            Err(e) => res == Err::<(), PatchError>(e) && final(new)@ == old(new)@,
        },
{
    let start: usize = new.len();
    let mut at: usize = 0;
    let mut oldpos: i128 = 0;
    let ghost mut out: Seq<u8> = Seq::empty();
    proof {
        assert(patch_bytes@.skip(0) =~= patch_bytes@);
        if apply(old_bytes@, patch_bytes@, 0) is Ok {
            let bytes = apply(old_bytes@, patch_bytes@, 0)->Ok_0.0;
            assert(out + bytes =~= bytes);
        }
    }
    while at < patch_bytes.len()
        invariant
            start == old(new)@.len(),
            at <= patch_bytes@.len(),
            new@ == old(new)@ + out,
            -0x2_0000_0000_0000_0000 < oldpos < 0x2_0000_0000_0000_0000,
            apply(old_bytes@, patch_bytes@, 0) == prepend(
                out,
                apply(old_bytes@, patch_bytes@.skip(at as int), oldpos as int),
            ),
        decreases patch_bytes@.len() - at,
    {
        let ghost p = patch_bytes@.skip(at as int);
        let ghost out0 = out;
        let left: usize = patch_bytes.len() - at;
        if left < HEADER_LEN {
            new.truncate(start);
            assert(new@ =~= old(new)@);
            return Err(PatchError::UnexpectedEof);
        }
        let mix_len: u64 = u64_from_le_bytes(&patch_bytes[at..at + 8]);
        let copy_len: u64 = u64_from_le_bytes(&patch_bytes[at + 8..at + 16]);
        let seek: i64 = offtin(&patch_bytes[at + 16..at + 24]);
        assert(p.subrange(0, 8) =~= patch_bytes@.subrange(at as int, at + 8));
        assert(p.subrange(8, 16) =~= patch_bytes@.subrange(at + 8, at + 16));
        assert(p.subrange(16, 24) =~= patch_bytes@.subrange(at + 16, at + 24));
        let data: u64 = (left - HEADER_LEN) as u64;
        if mix_len > data || copy_len > data - mix_len {
            new.truncate(start);
            assert(new@ =~= old(new)@);
            return Err(PatchError::UnexpectedEof);
        }
        if oldpos < 0 || oldpos + mix_len as i128 > old_bytes.len() as i128 {
            new.truncate(start);
            assert(new@ =~= old(new)@);
            return Err(PatchError::InvalidData);
        }
        let mix: usize = mix_len as usize;
        let mix_start: usize = at + HEADER_LEN;
        let mix_end: usize = mix_start + mix;
        let end: usize = mix_end + copy_len as usize;
        let old_start: usize = oldpos as usize;
        let ghost sums = unmix(
            old_bytes@,
            oldpos as int,
            p.subrange(HEADER_LEN as int, HEADER_LEN + mix),
        );
        let mut i: usize = 0;
        while i < mix
            invariant
                i <= mix,
                mix_start + mix == mix_end,
                mix_end <= patch_bytes@.len(),
                old_start + mix <= old_bytes.len(),
                sums.len() == mix,
                forall|k: int|
                    0 <= k < mix ==> #[trigger] sums[k] == patch_bytes@[mix_start + k].wrapping_add(
                        old_bytes@[old_start + k],
                    ),
                new@ == old(new)@ + out0 + sums.take(i as int),
            decreases mix - i,
        {
            new.push(patch_bytes[mix_start + i].wrapping_add(old_bytes[old_start + i]));
            assert(sums[i as int] == patch_bytes@[mix_start + i].wrapping_add(
                old_bytes@[old_start + i],
            ));
            assert(new@ =~= old(new)@ + out0 + sums.take(i + 1));
            i += 1;
        }
        append_slice(new, &patch_bytes[mix_end..end]);
        proof {
            let copy = p.subrange(HEADER_LEN + mix, end - at);
            assert(copy =~= patch_bytes@.subrange(mix_end as int, end as int));
            assert(p.skip(end - at) =~= patch_bytes@.skip(end as int));
            out = out0 + (sums + copy);
            assert(new@ =~= old(new)@ + out);
            let rest = apply(old_bytes@, patch_bytes@.skip(end as int), oldpos + mix + seek);
            if rest is Ok {
                assert(out0 + (sums + copy + rest->Ok_0.0) =~= out + rest->Ok_0.0);
            }
        }
        oldpos = oldpos + mix_len as i128 + seek as i128;
        at = end;
    }
    proof {
        assert(patch_bytes@.skip(at as int) =~= Seq::empty());
        assert(out + Seq::<u8>::empty() =~= out);
    }
    Ok(())
}

} // verus!
