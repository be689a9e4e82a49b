//! What the format, the decoder, the hash index and its lookups promise.
//!
//! The laws here speak of bytes, positions and numbers alone, so that they can be read without
//! the definitions behind the functions that they are about.
use crate::hash;
use crate::index;
use crate::matching;
use crate::parallel;
use crate::patch;
use crate::record;
use vstd::arithmetic::power2::*;
use vstd::bytes::*;
use vstd::prelude::*;

verus! {

/// The field of a negative number is that of its magnitude with the top bit of the last byte set:
/// the two differ in nothing else.
pub proof fn law_sign_is_top_bit(x: int)
    requires
        0 < x < 0x8000_0000_0000_0000,
    ensures
        ({
            let p = spec_u64_to_le_bytes(record::signed_word(x));
            let n = spec_u64_to_le_bytes(record::signed_word(-x));
            &&& p == spec_u64_to_le_bytes(x as u64)
            &&& p.len() == 8
            &&& n.len() == 8
            &&& n.take(7) == p.take(7)
            &&& p[7] < 128
            &&& n[7] == p[7] + 128
        }),
{
    let w = x as u64;
    let v = record::signed_word(-x);
    assert(v == w + 0x8000_0000_0000_0000);
    spec_u64_to_le_bytes_to_open(w);
    spec_u64_to_le_bytes_to_open(v);
    assert({
        &&& (v & 0xff) == (w & 0xff)
        &&& ((v >> 8) & 0xff) == ((w >> 8) & 0xff)
        &&& ((v >> 16) & 0xff) == ((w >> 16) & 0xff)
        &&& ((v >> 24) & 0xff) == ((w >> 24) & 0xff)
        &&& ((v >> 32) & 0xff) == ((w >> 32) & 0xff)
        &&& ((v >> 40) & 0xff) == ((w >> 40) & 0xff)
        &&& ((v >> 48) & 0xff) == ((w >> 48) & 0xff)
        &&& ((v >> 56) & 0xff) == ((w >> 56) & 0xff) + 128
        &&& ((w >> 56) & 0xff) < 128
    }) by (bit_vector)
        requires
            w < 0x8000_0000_0000_0000u64,
            v == w + 0x8000_0000_0000_0000u64,
    ;
    assert(spec_u64_to_le_bytes(v).take(7) =~= spec_u64_to_le_bytes(w).take(7));
}

/// A word without its top bit reads as itself, and with its top bit as the negative of that. A
/// number that fits is written as the word that reads as it.
pub proof fn law_sign_is_read_back(w: u64)
    requires
        w < 0x8000_0000_0000_0000,
    ensures
        record::signed_value(w) == w,
        record::signed_value((w + 0x8000_0000_0000_0000) as u64) == -w,
        record::signed_word(w as int) == w,
        w > 0 ==> record::signed_word(-w) == w + 0x8000_0000_0000_0000,
{
}

/// A record is its header, its mix bytes and its copy bytes. The header is three little-endian
/// words: the two lengths, and the seek with its sign in the top bit.
pub proof fn law_record_layout(r: record::Record)
    requires
        -0x8000_0000_0000_0000 < r.seek < 0x8000_0000_0000_0000,
    ensures
        record::encode(r) == spec_u64_to_le_bytes(r.mix.len() as u64) + spec_u64_to_le_bytes(
            r.copy.len() as u64,
        ) + spec_u64_to_le_bytes(
            (if r.seek >= 0 {
                r.seek
            } else {
                0x8000_0000_0000_0000 - r.seek
            }) as u64,
        ) + r.mix + r.copy,
        record::encode(r).len() == 24 + r.mix.len() + r.copy.len(),
        record::header(r.mix.len() as int, r.copy.len() as int, r.seek) == record::encode(r).take(
            24,
        ),
{
    lemma_auto_spec_u64_to_from_le_bytes();
    assert(record::encode(r).take(24) =~= record::header(
        r.mix.len() as int,
        r.copy.len() as int,
        r.seek,
    ));
}

/// A seek record has no data.
pub proof fn law_seek_record_layout(seek: int)
    ensures
        record::seek_record(seek).mix.len() == 0,
        record::seek_record(seek).copy.len() == 0,
        record::seek_record(seek).seek == seek,
{
}

/// The word that a patch holds at a place.
pub proof fn law_word_at(p: Seq<u8>, at: int, w: u64)
    requires
        0 <= at,
        at + 8 <= p.len(),
        p.subrange(at, at + 8) == spec_u64_to_le_bytes(w),
    ensures
        record::word_at(p, at) == w,
{
    lemma_auto_spec_u64_to_from_le_bytes();
}

/// Decoding a whole record: mix bytes are added to the old bytes at the read position, copy bytes
/// are taken as they are, and decoding goes on behind the record with the read position moved past
/// the mix bytes and by the seek. The seek word `w` is sign and magnitude.
pub proof fn law_decode_record(
    old: Seq<u8>,
    mix: Seq<u8>,
    copy: Seq<u8>,
    w: u64,
    tail: Seq<u8>,
    oldpos: int,
)
    requires
        mix.len() <= u64::MAX,
        copy.len() <= u64::MAX,
    ensures
        ({
            let p = spec_u64_to_le_bytes(mix.len() as u64) + spec_u64_to_le_bytes(
                copy.len() as u64,
            ) + spec_u64_to_le_bytes(w) + mix + copy + tail;
            let seek = if w < 0x8000_0000_0000_0000 {
                w as int
            } else {
                0x8000_0000_0000_0000 - w
            };
            &&& oldpos < 0 || oldpos + mix.len() > old.len() ==> patch::apply(old, p, oldpos)
                == Err::<(Seq<u8>, int), patch::PatchError>(patch::PatchError::InvalidData)
            &&& 0 <= oldpos && oldpos + mix.len() <= old.len() ==> match patch::apply(
                old,
                tail,
                oldpos + mix.len() + seek,
            ) {
                Ok((rest, end)) => match patch::apply(old, p, oldpos) {
                    Ok((out, e)) => {
                        &&& e == end
                        &&& out.len() == mix.len() + copy.len() + rest.len()
                        &&& forall|i: int|
                            0 <= i < mix.len() ==> #[trigger] out[i] as int == (mix[i]
                                + old[oldpos + i]) % 256
                        &&& out.skip(mix.len() as int) == copy + rest
                    },
                    Err(_) => false,
                },
                Err(e) => patch::apply(old, p, oldpos) == Err::<(Seq<u8>, int), patch::PatchError>(
                    e,
                ),
            }
        }),
{
    lemma_auto_spec_u64_to_from_le_bytes();
    let a = spec_u64_to_le_bytes(mix.len() as u64);
    let b = spec_u64_to_le_bytes(copy.len() as u64);
    let c = spec_u64_to_le_bytes(w);
    let p = a + b + c + mix + copy + tail;
    assert(p.subrange(0, 8) =~= a);
    assert(p.subrange(8, 16) =~= b);
    assert(p.subrange(16, 24) =~= c);
    let mix_end = 24 + mix.len() as int;
    let end = mix_end + copy.len();
    assert(p.subrange(24, mix_end) =~= mix);
    assert(p.subrange(mix_end, end) =~= copy);
    assert(p.skip(end) =~= tail);
    if 0 <= oldpos && oldpos + mix.len() <= old.len() {
        let seek = if w < 0x8000_0000_0000_0000 {
            w as int
        } else {
            0x8000_0000_0000_0000 - w
        };
        let next = patch::apply(old, tail, oldpos + mix.len() + seek);
        if next is Ok {
            let rest = next->Ok_0.0;
            let out = patch::unmix(old, oldpos, mix) + copy + rest;
            assert(patch::apply(old, p, oldpos)->Ok_0.0 == out);
            assert(out.skip(mix.len() as int) =~= copy + rest);
        }
    }
}

/// Decoding ends where the patch ends. One that ends within a header, or with less data than the
/// last header announces, is reported as such.
pub proof fn law_decode_end(old: Seq<u8>, p: Seq<u8>, oldpos: int)
    ensures
        p.len() == 0 ==> patch::apply(old, p, oldpos) == Ok::<(Seq<u8>, int), patch::PatchError>(
            (Seq::empty(), oldpos),
        ),
        0 < p.len() < 24 ==> patch::apply(old, p, oldpos) == Err::<
            (Seq<u8>, int),
            patch::PatchError,
        >(patch::PatchError::UnexpectedEof),
        p.len() >= 24 && p.len() < 24 + spec_u64_from_le_bytes(p.subrange(0, 8))
            + spec_u64_from_le_bytes(p.subrange(8, 16)) ==> patch::apply(old, p, oldpos) == Err::<
            (Seq<u8>, int),
            patch::PatchError,
        >(patch::PatchError::UnexpectedEof),
{
}

/// Decoding a patch starts at the front of the old input; what it gives is what its records give.
pub proof fn law_decode_starts_at_front(old: Seq<u8>, p: Seq<u8>)
    ensures
        match patch::apply(old, p, 0) {
            Ok((bytes, _)) => patch::decode(old, p) == Ok::<Seq<u8>, patch::PatchError>(bytes),
            Err(e) => patch::decode(old, p) == Err::<Seq<u8>, patch::PatchError>(e),
        },
{
}

/// The bucket of an anchor is the topmost bits of its little-endian value times a fixed odd
/// factor, modulo `2^64`. It depends on the first 8 bytes only.
pub proof fn law_anchor_bucket(window: Seq<u8>, bits: u32)
    requires
        window.len() >= 8,
        1 <= bits <= 64,
    ensures
        ({
            let product = (spec_u64_from_le_bytes(window.subrange(0, 8)) * 0x9E37_79B1_85EB_CA87)
                % 0x1_0000_0000_0000_0000;
            let b = hash::anchor_bucket(window, bits);
            b * pow2((64 - bits) as nat) <= product < (b + 1) * pow2((64 - bits) as nat)
        }),
{
    assert(window.take(8) =~= window.subrange(0, 8));
    let product = (spec_u64_from_le_bytes(window.subrange(0, 8)) * 0x9E37_79B1_85EB_CA87)
        % 0x1_0000_0000_0000_0000;
    let d = pow2((64 - bits) as nat) as int;
    let b = hash::anchor_bucket(window, bits);
    lemma_pow2_pos((64 - bits) as nat);
    assert(b == product / d);
    assert(b * d <= product < (b + 1) * d) by (nonlinear_arith)
        requires
            d > 0,
            b == product / d,
    ;
}

/// The table for an input of `len` bytes has at least `2^12` and at most `2^25` buckets, and within
/// these bounds the fewest that leave at most 4 bytes of input to a bucket.
pub proof fn law_table_size(len: int)
    ensures
        12 <= hash::table_bits(len) <= 25,
        hash::table_bits(len) < 25 ==> len <= 4 * pow2(hash::table_bits(len) as nat),
        hash::table_bits(len) > 12 ==> len > 4 * pow2((hash::table_bits(len) - 1) as nat),
{
    hash::lemma_table_bits_fits(len);
}

/// The common-prefix length of two strings: they agree up to there and differ, or one of them ends,
/// at that place.
pub proof fn law_match_len(a: Seq<u8>, b: Seq<u8>)
    ensures
        0 <= matching::match_len(a, b) <= a.len(),
        matching::match_len(a, b) <= b.len(),
        a.take(matching::match_len(a, b)) == b.take(matching::match_len(a, b)),
        matching::match_len(a, b) < a.len() && matching::match_len(a, b) < b.len() ==> a[
        matching::match_len(a, b)] != b[matching::match_len(a, b)],
{
    matching::lemma_match_len(a, b);
    let n = matching::match_len(a, b);
    assert(a.take(n) =~= b.take(n));
}

/// The index over positions `0..m`: its slices lie one behind the other from 0 to `m`, each holds
/// positions of its own bucket in descending order, and every position occurs once.
pub proof fn law_index_contents(old: Seq<u8>, bits: u32, m: int)
    requires
        0 <= m <= i32::MAX,
        1 <= bits <= 64,
    ensures
        ({
            let offsets = index::offsets_of(old, bits, m);
            let positions = index::positions_of(old, bits, m);
            &&& offsets.len() == pow2(bits as nat) + 1
            &&& offsets[0] == 0
            &&& offsets[pow2(bits as nat) as int] == m
            &&& forall|b: int, c: int|
                0 <= b <= c <= pow2(bits as nat) ==> #[trigger] offsets[b] <= #[trigger] offsets[c]
            &&& positions.len() == m
            &&& positions.no_duplicates()
            &&& forall|i: int| 0 <= i < m ==> #[trigger] positions.contains(i as i32)
            &&& forall|k: int| 0 <= k < m ==> 0 <= #[trigger] positions[k] < m
            &&& forall|b: int, k: int|
                #![trigger offsets[b], positions[k]]
                0 <= b < pow2(bits as nat) && offsets[b] <= k < offsets[b + 1]
                    ==> hash::anchor_bucket(old.skip(positions[k] as int), bits) == b
            &&& forall|b: int, j: int, k: int|
                #![trigger offsets[b], positions[j], positions[k]]
                0 <= b < pow2(bits as nat) && offsets[b] <= j < k < offsets[b + 1] ==> positions[j]
                    > positions[k]
        }),
{
    let nb = pow2(bits as nat) as int;
    let offsets = index::offsets_of(old, bits, m);
    let positions = index::positions_of(old, bits, m);
    index::lemma_starts(old, bits, m);
    index::lemma_anchors_before_ends(old, bits, m);
    index::lemma_buckets_before_len(old, bits, m, nb);
    index::lemma_buckets_before_distinct(old, bits, m, nb);
    assert forall|b: int, c: int| 0 <= b <= c <= nb implies #[trigger] offsets[b]
        <= #[trigger] offsets[c] by {
        index::lemma_anchors_before_monotone(old, bits, m, b, c);
    }
    assert forall|i: int| 0 <= i < m implies #[trigger] positions.contains(i as i32) by {
        index::law_every_position_indexed(old, bits, m, i);
    }
    assert forall|b: int, k: int|
        #![trigger offsets[b], positions[k]]
        0 <= b < nb && offsets[b] <= k < offsets[b + 1] implies hash::anchor_bucket(
        old.skip(positions[k] as int),
        bits,
    ) == b by {
        index::law_bucket_slice(old, bits, m, b);
        matching::lemma_bucket(old, bits, m, b);
        let slice = matching::bucket(old, bits, m, b);
        assert(positions.subrange(offsets[b] as int, offsets[b + 1] as int)[k - offsets[b]]
            == positions[k]);
        assert(matching::bucket_at(old, slice[k - offsets[b]] as int, bits) == b);
    }
    assert forall|b: int, j: int, k: int|
        #![trigger offsets[b], positions[j], positions[k]]
        0 <= b < nb && offsets[b] <= j < k < offsets[b + 1] implies positions[j] > positions[k] by {
        index::law_bucket_slice(old, bits, m, b);
        matching::lemma_bucket(old, bits, m, b);
        let slice = matching::bucket(old, bits, m, b);
        let part = positions.subrange(offsets[b] as int, offsets[b + 1] as int);
        assert(part[j - offsets[b]] == positions[j]);
        assert(part[k - offsets[b]] == positions[k]);
        assert(slice[j - offsets[b]] > slice[k - offsets[b]]);
    }
}

/// The index of `old` holds every position at which 8 bytes of `old` start, once, and nothing
/// else. What it holds is laid out as for those positions in a table of the size for `old`.
pub proof fn law_index_of_input(old: Seq<u8>)
    requires
        old.len() <= i32::MAX,
    ensures
        ({
            let t = index::table_of(old);
            let m = if old.len() >= 8 {
                old.len() - 7
            } else {
                0
            };
            &&& t.bits == hash::table_bits(old.len() as int)
            &&& t.positions.no_duplicates()
            &&& forall|i: int|
                0 <= i && i + 8 <= old.len() ==> #[trigger] t.positions.contains(i as i32)
            &&& forall|k: int|
                0 <= k < t.positions.len() ==> 0 <= #[trigger] t.positions[k] && t.positions[k] + 8
                    <= old.len()
            &&& t.positions.len() == m
            &&& t.offsets == index::offsets_of(old, t.bits, m)
            &&& t.positions == index::positions_of(old, t.bits, m)
        }),
{
    hash::lemma_table_bits_fits(old.len() as int);
    let bits = hash::table_bits(old.len() as int);
    let m = if old.len() >= 8 {
        old.len() - 7
    } else {
        0
    };
    assert(m == matching::anchor_count(old.len() as int));
    law_index_contents(old, bits, m);
}

/// The bucket at a position is that of the anchor that starts there.
pub proof fn law_bucket_at(old: Seq<u8>, i: int, bits: u32)
    ensures
        matching::bucket_at(old, i, bits) == hash::anchor_bucket(old.skip(i), bits),
{
}

/// The positions of `old` above `i` whose anchors fall into the same bucket as the one at `i`.
pub open spec fn rivals(old: Seq<u8>, i: int) -> Set<int> {
    Set::new(
        |j: int|
            i < j && j + 8 <= old.len() && hash::anchor_bucket(
                old.skip(j),
                hash::table_bits(old.len() as int),
            ) == hash::anchor_bucket(old.skip(i), hash::table_bits(old.len() as int)),
    )
}

/// Of the positions below `m` in a bucket, those above `i` come before it.
proof fn lemma_positions_above(old: Seq<u8>, bits: u32, m: int, b: int, i: int, above: Set<int>)
    requires
        0 <= i < m <= i32::MAX,
        forall|j: int|
            #![trigger above.contains(j)]
            above.contains(j) <==> i < j < m && matching::bucket_at(old, j, bits) == b,
    ensures
        above.finite(),
        above.len() == matching::bucket(old, bits, m, b).len() - matching::bucket(
            old,
            bits,
            i + 1,
            b,
        ).len(),
    decreases m,
{
    if m == i + 1 {
        assert(above =~= Set::empty());
    } else {
        let rest = above.remove(m - 1);
        assert forall|j: int|
            #![trigger rest.contains(j)]
            rest.contains(j) <==> i < j < m - 1 && matching::bucket_at(old, j, bits) == b by {
            assert(above.contains(j) <==> i < j < m && matching::bucket_at(old, j, bits) == b);
        }
        lemma_positions_above(old, bits, m - 1, b, i, rest);
        if matching::bucket_at(old, m - 1, bits) == b {
            assert(above.contains(m - 1));
            assert(above =~= rest.insert(m - 1));
        } else {
            assert(!above.contains(m - 1));
            assert(above =~= rest);
        }
    }
}

/// A position is a candidate of a lookup for its bucket exactly if fewer than 32 others in the
/// bucket lie above it; their number is its place among the candidates.
proof fn lemma_candidate_place(old: Seq<u8>, target: Seq<u8>, i: int)
    requires
        old.len() <= i32::MAX,
        0 <= i,
        i + 8 <= old.len(),
        hash::anchor_bucket(old.skip(i), hash::table_bits(old.len() as int))
            == hash::anchor_bucket(target, hash::table_bits(old.len() as int)),
    ensures
        rivals(old, i).finite(),
        rivals(old, i).len() < 32 ==> {
            &&& rivals(old, i).len() < matching::candidates(old, target).len()
            &&& matching::candidates(old, target)[rivals(old, i).len() as int] == i
        },
        rivals(old, i).len() >= 32 ==> !matching::candidates(old, target).contains(i as i32),
{
    let bits = hash::table_bits(old.len() as int);
    let m = matching::anchor_count(old.len() as int);
    let b = hash::anchor_bucket(target, bits);
    hash::lemma_table_bits_fits(old.len() as int);
    hash::lemma_anchor_bucket_range(target, bits);
    let above = rivals(old, i);
    lemma_positions_above(old, bits, m, b, i, above);
    index::lemma_scatter_slot(old, bits, m, i, b);
    matching::lemma_bucket(old, bits, m, b);
    let all = matching::bucket(old, bits, m, b);
    let cands = matching::candidates(old, target);
    let k = above.len() as int;
    assert(all[k] == i);
    if k < 32 {
        assert(cands[k] == all[k]);
    } else if cands.contains(i as i32) {
        let j = cands.index_of(i as i32);
        assert(all[j] == cands[j]);
        assert(all[j] > all[k]);
    }
}

/// A lookup finds what is there: if `old` agrees with `new` from `scan` on over `n` bytes, at least
/// 8, at a position `i`, the match found is at least that long, unless 32 positions above `i` share
/// the bucket of its anchor.
pub proof fn law_lookup_finds(old: Seq<u8>, new: Seq<u8>, scan: int, i: int, n: int)
    requires
        old.len() <= i32::MAX,
        8 <= n,
        0 <= scan,
        scan + n <= new.len(),
        0 <= i,
        i + n <= old.len(),
        old.subrange(i, i + n) == new.subrange(scan, scan + n),
        rivals(old, i).len() < 32,
    ensures
        matching::found_match(old, new, scan).1 >= n,
{
    let target = new.skip(scan);
    let cands = matching::candidates(old, target);
    assert(old.skip(i).take(8) =~= old.subrange(i, i + n).take(8));
    assert(target.take(8) =~= new.subrange(scan, scan + n).take(8));
    lemma_candidate_place(old, target, i);
    let k = rivals(old, i).len() as int;
    matching::lemma_match_len(old.skip(i), target);
    let l = matching::match_len(old.skip(i), target);
    if l < n {
        assert(old.subrange(i, i + n)[l] == new.subrange(scan, scan + n)[l]);
    }
    matching::law_found_match_longest(old, new, scan, k);
}

/// What a lookup finds is there: the match is `(0, 0)`, or at least 8 bytes long, equal byte for
/// byte, not extendable, at a position with fewer than 32 others above it in its bucket, and at no
/// position above it does `old` agree as far.
pub proof fn law_lookup_sound(old: Seq<u8>, new: Seq<u8>, scan: int)
    requires
        old.len() <= i32::MAX,
        0 <= scan,
    ensures
        matching::found_match(old, new, scan) == (0int, 0int) || {
            let (pos, len) = matching::found_match(old, new, scan);
            &&& 8 <= len
            &&& 0 <= pos
            &&& pos + len <= old.len()
            &&& scan + len <= new.len()
            &&& old.subrange(pos, pos + len) == new.subrange(scan, scan + len)
            &&& pos + len < old.len() && scan + len < new.len() ==> old[pos + len] != new[scan
                + len]
            &&& rivals(old, pos).len() < 32
            &&& forall|i: int|
                pos < i && i + len <= old.len() ==> #[trigger] old.subrange(i, i + len)
                    != new.subrange(scan, scan + len)
        },
{
    let (pos, len) = matching::found_match(old, new, scan);
    if (pos, len) != (0int, 0int) {
        matching::law_found_match_agrees(old, new, scan);
        let target = new.skip(scan);
        let cands = matching::candidates(old, target);
        let bits = hash::table_bits(old.len() as int);
        let m = matching::anchor_count(old.len() as int);
        matching::lemma_bucket(old, bits, m, hash::anchor_bucket(target, bits));
        matching::lemma_best_candidate(old, target, cands);
        let k = choose|k: int|
            {
                &&& 0 <= k < cands.len()
                &&& #[trigger] cands[k] == pos
                &&& matching::match_len(old.skip(pos), target) == len
                &&& forall|j: int|
                    0 <= j < k ==> matching::match_len(
                        old.skip(#[trigger] cands[j] as int),
                        target,
                    ) < len
            };
        matching::lemma_match_len(old.skip(pos), target);
        assert(old.skip(pos).take(8) =~= old.subrange(pos, pos + len).take(8));
        assert(target.take(8) =~= new.subrange(scan, scan + len).take(8));
        lemma_candidate_place(old, target, pos);
        assert(cands.contains(pos as i32));
        assert forall|i: int| pos < i && i + len <= old.len() implies #[trigger] old.subrange(
            i,
            i + len,
        ) != new.subrange(scan, scan + len) by {
            if old.subrange(i, i + len) == new.subrange(scan, scan + len) {
                assert(old.skip(i).take(8) =~= old.subrange(i, i + len).take(8));
                lemma_candidate_place(old, target, i);
                assert(rivals(old, i).subset_of(rivals(old, pos)));
                vstd::set_lib::lemma_len_subset(rivals(old, i), rivals(old, pos));
                let j = rivals(old, i).len() as int;
                assert(cands[j] == i);
                matching::law_candidates(old, target, i);
                assert(j < k);
                matching::lemma_match_len(old.skip(i), target);
                let l = matching::match_len(old.skip(i), target);
                if l < len {
                    assert(old.subrange(i, i + len)[l] == new.subrange(scan, scan + len)[l]);
                }
            }
        }
    }
}

/// How an input is divided: chunks of 262144 bytes from the front, the last one possibly shorter,
/// none of them empty.
pub proof fn law_chunks(n: int)
    requires
        0 <= n,
    ensures
        (parallel::chunk_count(n) - 1) * 262144 < n <= parallel::chunk_count(n) * 262144 || n == 0
            && parallel::chunk_count(n) == 0,
        forall|k: int|
            0 <= k < parallel::chunk_count(n) - 1 ==> #[trigger] parallel::chunk_end(n, k) == (k
                + 1) * 262144,
        n > 0 ==> parallel::chunk_end(n, parallel::chunk_count(n) - 1) == n,
{
}

} // verus!
