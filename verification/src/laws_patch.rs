//! What whole patches look like: inputs whose patch is known byte for byte, and how a patch in
//! chunks is put together.
use crate::diff;
use crate::extend;
use crate::laws;
use crate::laws_scan;
use crate::matching;
use crate::par_index;
use crate::par_scan;
use crate::parallel;
use crate::patch;
use crate::plan;
use crate::record;
use vstd::bytes::*;
use vstd::prelude::*;

verus! {

/// `n` zero bytes.
pub open spec fn zeros(n: int) -> Seq<u8> {
    Seq::new(n as nat, |i: int| 0u8)
}

/// A header in bytes: the lengths, and the seek with its sign in the top bit.
pub open spec fn header_bytes(mix_len: int, copy_len: int, seek: int) -> Seq<u8> {
    spec_u64_to_le_bytes(mix_len as u64) + spec_u64_to_le_bytes(copy_len as u64)
        + spec_u64_to_le_bytes(
        (if seek >= 0 {
            seek
        } else {
            0x8000_0000_0000_0000 - seek
        }) as u64,
    )
}

/// Whether `a` and `b` have no byte value in common.
pub open spec fn no_common_byte(a: Seq<u8>, b: Seq<u8>) -> bool {
    forall|i: int, j: int|
        #![trigger a[i], b[j]]
        0 <= i < a.len() && 0 <= j < b.len() ==> a[i] != b[j]
}

/// A new input that starts like the old one and goes on with foreign bytes has matches in its
/// first part only.
proof fn lemma_prefix_match(old: Seq<u8>, k: int, x: Seq<u8>, s: int)
    requires
        old.len() <= i32::MAX,
        0 <= k <= old.len(),
        no_common_byte(x, old),
        0 <= s,
    ensures
        ({
            let (pos, len) = matching::found_match(old, old.take(k) + x, s);
            &&& 0 <= len
            &&& 0 <= pos
            &&& pos + len <= old.len()
            &&& s < k ==> s + len <= k
            &&& s >= k ==> len == 0 && pos == 0
        }),
{
    let new = old.take(k) + x;
    let (pos, len) = matching::found_match(old, new, s);
    laws::law_lookup_sound(old, new, s);
    if len > 0 && s + len > k {
        let j = if s < k {
            k
        } else {
            s
        };
        assert(old.subrange(pos, pos + len)[j - s] == new.subrange(s, s + len)[j - s]);
        assert(new[j] == x[j - k]);
        assert(x[j - k] != old[pos + (j - s)]);
    }
}

/// Under the straight alignment exactly the bytes of the first part agree.
proof fn lemma_prefix_agreements(old: Seq<u8>, k: int, x: Seq<u8>, a: int, b: int)
    requires
        0 <= k <= old.len(),
        no_common_byte(x, old),
        0 <= a <= b <= k + x.len(),
    ensures
        extend::agreements(old, old.take(k) + x, 0, a, b) == (if b <= k {
            b
        } else {
            k
        }) - (if a <= k {
            a
        } else {
            k
        }),
    decreases b - a,
{
    if a < b {
        let new = old.take(k) + x;
        lemma_prefix_agreements(old, k, x, a, b - 1);
        if b - 1 < k {
            assert(new[b - 1] == old[b - 1]);
        } else {
            assert(new[b - 1] == x[b - 1 - k]);
            if b - 1 < old.len() {
                assert(x[b - 1 - k] != old[b - 1]);
            }
        }
    }
}

/// The matches of the first part do not reach beyond it.
proof fn lemma_prefix_reach(old: Seq<u8>, k: int, x: Seq<u8>, from: int, s: int)
    requires
        old.len() <= i32::MAX,
        0 <= k <= old.len(),
        no_common_byte(x, old),
        0 <= from <= k,
        s < k,
    ensures
        from <= plan::reach(old, old.take(k) + x, from, s) <= k,
        s >= from ==> s + matching::found_match(old, old.take(k) + x, s).1 <= plan::reach(
            old,
            old.take(k) + x,
            from,
            s,
        ),
    decreases s + 1 - from,
{
    if s >= from {
        lemma_prefix_reach(old, k, x, from, s - 1);
        lemma_prefix_match(old, k, x, s);
    }
}

/// The best forward extension is the whole of the first part.
proof fn lemma_prefix_forward(old: Seq<u8>, k: int, x: Seq<u8>, m: int)
    requires
        0 <= k <= old.len(),
        no_common_byte(x, old),
        0 <= m <= k + x.len(),
    ensures
        extend::forward_len(old, old.take(k) + x, 0, 0, m) == if m <= k {
            m
        } else {
            k
        },
    decreases m,
{
    if m > 0 {
        lemma_prefix_forward(old, k, x, m - 1);
        lemma_prefix_agreements(old, k, x, 0, m);
        lemma_prefix_agreements(
            old,
            k,
            x,
            0,
            if m - 1 <= k {
                m - 1
            } else {
                k
            },
        );
    }
}

/// From a state of the first record on, the scan closes no record before the end.
proof fn lemma_prefix_scan(old: Seq<u8>, k: int, x: Seq<u8>, c: plan::Cursor) -> (q: int)
    requires
        old.len() <= i32::MAX,
        0 <= k <= old.len(),
        no_common_byte(x, old),
        k + x.len() <= u64::MAX,
        c.valid(old, old.take(k) + x),
        c.lastscan == 0,
        c.lastpos == 0,
        c.scan < k + x.len(),
        c.resume() <= k,
    ensures
        0 <= q <= old.len(),
        x.len() > 0 || c.resume() < k && k < 8 ==> q == 0,
        c.resume() == k && x.len() == 0 ==> q == c.pos,
        plan::rest_of_patch(old, old.take(k) + x, c).0 == header_bytes(
            k,
            x.len() as int,
            q - k,
        ) + zeros(k) + x,
    decreases c.left(old.take(k) + x),
{
    let new = old.take(k) + x;
    let n = new.len() as int;
    let from = c.resume();
    plan::lemma_advance(old, new, c);
    plan::lemma_next_stop(old, new, 0, from, from);
    laws_scan::law_scan_step(old, new, c);
    let a = plan::advance(old, new, c);
    if a.scan < n {
        lemma_prefix_match(old, k, x, a.scan);
        if a.scan >= k {
            // No match and nothing to beat: the scan does not stop here.
            let far = plan::reach(old, new, from, a.scan);
            extend::lemma_agreements_bounds(
                old,
                new,
                0,
                a.scan,
                if far >= a.scan {
                    far
                } else {
                    a.scan
                },
            );
            assert(false);
        }
        lemma_prefix_reach(old, k, x, from, a.scan);
        let far = plan::reach(old, new, from, a.scan);
        lemma_prefix_agreements(old, k, x, a.scan, far);
        assert(!plan::closes(old, new, c));
        if k < 8 {
            laws::law_lookup_sound(old, new, a.scan);
        }
        lemma_prefix_scan(old, k, x, a)
    } else {
        let q = a.pos;
        let limit = plan::forward_limit(old, a);
        lemma_prefix_forward(old, k, x, limit);
        assert(plan::cut(old, new, a) == (k, 0int));
        let r = plan::closed_record(old, new, a);
        assert(r.mix =~= zeros(k)) by {
            assert forall|i: int| 0 <= i < k implies #[trigger] r.mix[i] == 0u8 by {
                assert(new[i] == old[i]);
            }
        }
        assert(r.copy =~= x);
        let next = plan::next_record(old, new, a);
        laws_scan::law_scan_step(old, new, next);
        laws::law_record_layout(r);
        assert(record::encode(r) + Seq::<u8>::empty() =~= header_bytes(k, x.len() as int, q - k)
            + zeros(k) + x);
        q
    }
}

/// A new input that starts with the first `k` bytes of the old one and goes on with bytes that do
/// not occur in it: the patch is one record of `k` zero mix bytes, with the foreign bytes as its
/// copy bytes.
pub proof fn law_patch_of_foreign_tail(old: Seq<u8>, k: int, x: Seq<u8>)
    requires
        old.len() <= i32::MAX,
        0 <= k <= old.len(),
        0 < x.len(),
        k + x.len() <= u64::MAX,
        no_common_byte(x, old),
    ensures
        plan::patch_of(old, old.take(k) + x) == header_bytes(k, x.len() as int, -k) + zeros(k) + x,
{
    let q = lemma_prefix_scan(old, k, x, plan::Cursor::start());
}

/// The first `k` bytes of the old input as the new one: the patch is one record of `k` zero mix
/// bytes and no copy bytes, which leaves the read position somewhere in the old input.
pub proof fn law_patch_of_prefix(old: Seq<u8>, k: int) -> (end: int)
    requires
        old.len() <= i32::MAX,
        0 < k <= old.len(),
    ensures
        0 <= end <= old.len(),
        plan::patch_of(old, old.take(k)) == header_bytes(k, 0, end - k) + zeros(k),
{
    let x = Seq::<u8>::empty();
    assert(old.take(k) + x =~= old.take(k));
    let end = lemma_prefix_scan(old, k, x, plan::Cursor::start());
    assert(header_bytes(k, 0, end - k) + zeros(k) + x =~= header_bytes(k, 0, end - k) + zeros(k));
    end
}

/// The first anchor of an input is found in the input itself, over its whole length.
proof fn lemma_identical_match(old: Seq<u8>)
    requires
        8 <= old.len() <= i32::MAX,
        laws::rivals(old, 0).len() < 32,
    ensures
        matching::found_match(old, old, 0) == (0int, old.len() as int),
{
    laws::law_lookup_finds(old, old, 0, 0, old.len() as int);
    laws::law_lookup_sound(old, old, 0);
}

/// The scan of an input against itself stops at the front, without closing the record.
proof fn lemma_identical_stop(old: Seq<u8>)
    requires
        8 <= old.len() <= i32::MAX,
        laws::rivals(old, 0).len() < 32,
    ensures
        plan::advance(old, old, plan::Cursor::start()) == (plan::Cursor {
            scan: 0,
            len: old.len() as int,
            pos: 0,
            lastscan: 0,
            lastpos: 0,
        }),
        !plan::closes(old, old, plan::Cursor::start()),
{
    let n = old.len() as int;
    let x = Seq::<u8>::empty();
    assert(old.take(n) + x =~= old);
    lemma_identical_match(old);
    assert(plan::reach(old, old, 0, -1) == 0);
    assert(plan::reach(old, old, 0, 0) == n);
    lemma_prefix_agreements(old, n, x, 0, n);
    assert(plan::stops_at(old, old, 0, 0, 0));
    assert(plan::next_stop(old, old, 0, 0, 0) == 0);
}

/// The patch from an input to itself is one record of zero mix bytes, without a copy byte, that
/// leaves the read position at the front, unless 32 positions share the bucket of the first anchor.
pub proof fn law_patch_of_identical(old: Seq<u8>)
    requires
        0 < old.len() <= i32::MAX,
        old.len() >= 8 ==> laws::rivals(old, 0).len() < 32,
    ensures
        plan::patch_of(old, old) == header_bytes(
            old.len() as int,
            0,
            -(old.len() as int),
        ) + zeros(old.len() as int),
{
    let n = old.len() as int;
    let x = Seq::<u8>::empty();
    let c = plan::Cursor::start();
    assert(old.take(n) + x =~= old);
    assert(header_bytes(n, 0, -n) + zeros(n) + x =~= header_bytes(n, 0, -n) + zeros(n));
    if n < 8 {
        let q = lemma_prefix_scan(old, n, x, c);
    } else {
        lemma_identical_stop(old);
        let a = plan::advance(old, old, c);
        laws_scan::law_scan_step(old, old, c);
        plan::lemma_advance(old, old, c);
        let q = lemma_prefix_scan(old, n, x, a);
    }
}

/// Where all bytes agree the best forward extension is the longest.
proof fn lemma_all_agree(old: Seq<u8>, new: Seq<u8>, offset: int, a: int, m: int)
    requires
        0 <= m,
        forall|j: int| a <= j < a + m ==> #[trigger] extend::agrees(old, new, offset, j),
    ensures
        extend::agreements(old, new, offset, a, a + m) == m,
        extend::forward_len(old, new, offset, a, m) == m,
    decreases m,
{
    if m > 0 {
        lemma_all_agree(old, new, offset, a, m - 1);
        assert(extend::agrees(old, new, offset, a + m - 1));
    } else {
        assert(extend::agreements(old, new, offset, a, a) == 0);
    }
}

/// A record of zero mix bytes alone.
proof fn lemma_zero_record(r: record::Record, n: int, seek: int)
    requires
        0 <= n,
        r.mix == zeros(n),
        r.copy.len() == 0,
        r.seek == seek,
        -0x8000_0000_0000_0000 < seek < 0x8000_0000_0000_0000,
    ensures
        record::encode(r) == header_bytes(n, 0, seek) + zeros(n),
{
    laws::law_record_layout(r);
    assert(record::encode(r) =~= header_bytes(n, 0, seek) + zeros(n));
}

/// The state at the first stop of a scan of `b + a` against `a + b`: `b` is found behind `a`.
proof fn lemma_swapped_first(a: Seq<u8>, b: Seq<u8>)
    requires
        a.len() + b.len() <= i32::MAX,
        9 <= a.len(),
        9 <= b.len(),
        no_common_byte(a, b),
        laws::rivals(a + b, a.len() as int).len() < 32,
    ensures
        plan::advance(a + b, b + a, plan::Cursor::start()) == (plan::Cursor {
            scan: 0,
            len: b.len() as int,
            pos: a.len() as int,
            lastscan: 0,
            lastpos: 0,
        }),
        plan::closes(a + b, b + a, plan::Cursor::start()),
{
    let (old, new) = (a + b, b + a);
    let (na, nb) = (a.len() as int, b.len() as int);
    assert(old.subrange(na, na + nb) =~= b);
    assert(new.subrange(0, nb) =~= b);
    laws::law_lookup_finds(old, new, 0, na, nb);
    laws::law_lookup_sound(old, new, 0);
    let (pos, len) = matching::found_match(old, new, 0);
    assert(old.subrange(pos, pos + len)[0] == new.subrange(0, len)[0]);
    assert(old[pos] == b[0]);
    if pos < na {
        assert(a[pos] != b[0]);
    }
    assert(pos == na && len == nb);
    assert(plan::reach(old, new, 0, -1) == 0);
    assert(plan::reach(old, new, 0, 0) == nb);
    let front = if na <= nb {
        na
    } else {
        nb
    };
    assert(laws_scan::same_bytes(old, new, 0, 0, front) =~= Set::empty()) by {
        assert forall|j: int| 0 <= j < front implies old[j] != new[j] by {
            assert(old[j] == a[j] && new[j] == b[j]);
        }
    }
    laws_scan::law_agreements(old, new, 0, 0, front);
    extend::lemma_agreements_split(old, new, 0, 0, front, nb);
    extend::lemma_agreements_bounds(old, new, 0, front, nb);
    assert(plan::stops_at(old, new, 0, 0, 0));
    assert(plan::next_stop(old, new, 0, 0, 0) == 0);
}

/// The state at the second stop: `a` is found at the front of `a + b`, however far away that is.
proof fn lemma_swapped_second(a: Seq<u8>, b: Seq<u8>, c: plan::Cursor)
    requires
        a.len() + b.len() <= i32::MAX,
        9 <= a.len(),
        9 <= b.len(),
        no_common_byte(a, b),
        laws::rivals(a + b, 0).len() < 32,
        c == (plan::Cursor {
            scan: 0,
            len: b.len() as int,
            pos: a.len() as int,
            lastscan: 0,
            lastpos: a.len() as int,
        }),
    ensures
        plan::advance(a + b, b + a, c) == (plan::Cursor {
            scan: b.len() as int,
            len: a.len() as int,
            pos: 0,
            lastscan: 0,
            lastpos: a.len() as int,
        }),
        plan::closes(a + b, b + a, c),
{
    let (old, new) = (a + b, b + a);
    let (na, nb) = (a.len() as int, b.len() as int);
    assert(old.subrange(0, na) =~= a);
    assert(new.subrange(nb, nb + na) =~= a);
    laws::law_lookup_finds(old, new, nb, 0, na);
    laws::law_lookup_sound(old, new, nb);
    let (pos, len) = matching::found_match(old, new, nb);
    if pos > na {
        assert(old.subrange(pos, pos + len)[0] == new.subrange(nb, nb + len)[0]);
        assert(a[0] != b[pos - na]);
    } else if pos > 0 {
        assert(old.subrange(pos, pos + len)[na - pos] == new.subrange(nb, nb + len)[na - pos]);
        assert(a[na - pos] != b[0]);
    }
    assert(pos == 0 && len == na);
    assert(plan::reach(old, new, nb, nb - 1) == nb);
    assert(plan::reach(old, new, nb, nb) == nb + na);
    extend::lemma_agreements_bounds(old, new, na, nb, nb + na);
    assert(plan::stops_at(old, new, na, nb, nb));
    assert(plan::next_stop(old, new, na, nb, nb) == nb);
}

/// The rest of the patch from the second record on.
proof fn lemma_swapped_rest(a: Seq<u8>, b: Seq<u8>, c: plan::Cursor)
    requires
        a.len() + b.len() <= i32::MAX,
        9 <= a.len(),
        9 <= b.len(),
        no_common_byte(a, b),
        laws::rivals(a + b, 0).len() < 32,
        c == (plan::Cursor {
            scan: 0,
            len: b.len() as int,
            pos: a.len() as int,
            lastscan: 0,
            lastpos: a.len() as int,
        }),
    ensures
        plan::rest_of_patch(a + b, b + a, c).0 == (header_bytes(
            b.len() as int,
            0,
            -(a.len() + b.len()),
        ) + zeros(b.len() as int)) + (header_bytes(a.len() as int, 0, -(a.len() as int)) + zeros(
            a.len() as int,
        )),
{
    let (old, new) = (a + b, b + a);
    let (na, nb) = (a.len() as int, b.len() as int);
    lemma_swapped_second(a, b, c);
    laws_scan::law_scan_step(old, new, c);
    let stop = plan::advance(old, new, c);
    assert forall|j: int| 0 <= j < 0 + nb implies #[trigger] extend::agrees(old, new, na, j) by {
        assert(old[j + na] == b[j]);
        assert(new[j] == b[j]);
    }
    lemma_all_agree(old, new, na, 0, nb);
    assert(plan::cut(old, new, stop) == (nb, 0int));
    let r = plan::closed_record(old, new, stop);
    assert(r.mix =~= zeros(nb)) by {
        assert forall|i: int| 0 <= i < nb implies #[trigger] r.mix[i] == 0u8 by {
            assert(new[i] == old[na + i]);
        }
    }
    lemma_zero_record(r, nb, -(na + nb));
    let c2 = plan::next_record(old, new, stop);
    laws_scan::law_scan_step(old, new, c2);
    let end = plan::advance(old, new, c2);
    assert(end.scan == na + nb && end.pos == 0);
    assert(plan::closes(old, new, c2));
    assert forall|j: int| nb <= j < nb + na implies #[trigger] extend::agrees(
        old,
        new,
        -nb,
        j,
    ) by {
        assert(old[j - nb] == a[j - nb]);
        assert(new[j] == a[j - nb]);
    }
    lemma_all_agree(old, new, -nb, nb, na);
    assert(plan::cut(old, new, end) == (na, 0int));
    let r2 = plan::closed_record(old, new, end);
    assert(r2.mix =~= zeros(na)) by {
        assert forall|i: int| 0 <= i < na implies #[trigger] r2.mix[i] == 0u8 by {
            assert(new[nb + i] == old[i]);
        }
    }
    lemma_zero_record(r2, na, -na);
    let c3 = plan::next_record(old, new, end);
    laws_scan::law_scan_step(old, new, c3);
    assert(record::encode(r2) + Seq::<u8>::empty() =~= record::encode(r2));
}

/// Swapping the two parts of an input, however long they are, costs no copy byte: the patch goes to
/// the second part, takes all of it, goes back to the front and takes all of the first part. The
/// parts have no byte in common, and neither part's first anchor has 32 others above it in its
/// bucket.
pub proof fn law_patch_of_swapped_parts(a: Seq<u8>, b: Seq<u8>)
    requires
        a.len() + b.len() <= i32::MAX,
        9 <= a.len(),
        9 <= b.len(),
        no_common_byte(a, b),
        laws::rivals(a + b, 0).len() < 32,
        laws::rivals(a + b, a.len() as int).len() < 32,
    ensures
        plan::patch_of(a + b, b + a) == header_bytes(0, 0, a.len() as int) + (header_bytes(
            b.len() as int,
            0,
            -(a.len() + b.len()),
        ) + zeros(b.len() as int)) + (header_bytes(a.len() as int, 0, -(a.len() as int)) + zeros(
            a.len() as int,
        )),
{
    let (old, new) = (a + b, b + a);
    let (na, nb) = (a.len() as int, b.len() as int);
    let c = plan::Cursor::start();
    lemma_swapped_first(a, b);
    laws_scan::law_scan_step(old, new, c);
    let stop = plan::advance(old, new, c);
    assert(plan::cut(old, new, stop) == (0int, 0int));
    let r = plan::closed_record(old, new, stop);
    assert(r.mix =~= zeros(0));
    lemma_zero_record(r, 0, na);
    assert(header_bytes(0, 0, na) + zeros(0) =~= header_bytes(0, 0, na));
    let next = plan::next_record(old, new, stop);
    lemma_swapped_rest(a, b, next);
    let second = header_bytes(nb, 0, -(na + nb)) + zeros(nb);
    let third = header_bytes(na, 0, -na) + zeros(na);
    assert(header_bytes(0, 0, na) + (second + third) =~= header_bytes(0, 0, na) + second + third);
}

/// The chunks of the first part are chunks of the whole, and so are their patches.
proof fn lemma_stitched_front(old: Seq<u8>, a: Seq<u8>, b: Seq<u8>, k: int, n: int)
    requires
        a.len() == k * 262144,
        0 <= n <= k,
    ensures
        par_scan::stitched(old, a + b, n) == par_scan::stitched(old, a, n),
        n > 0 ==> par_scan::chunk(a + b, n - 1) == par_scan::chunk(a, n - 1),
    decreases n,
{
    if n > 0 {
        lemma_stitched_front(old, a, b, k, n - 1);
        assert(par_scan::chunk(a + b, n - 1) =~= par_scan::chunk(a, n - 1));
    }
}

/// The chunks of the second part come behind those of the first.
proof fn lemma_stitched_back(old: Seq<u8>, a: Seq<u8>, b: Seq<u8>, k: int, n: int)
    requires
        1 <= k,
        a.len() == k * 262144,
        1 <= n <= parallel::chunk_count(b.len() as int),
    ensures
        par_scan::stitched(old, a + b, k + n) == par_scan::stitched(old, a, k) + par_scan::rewind(
            old,
            a + b,
            k,
        ) + par_scan::stitched(old, b, n),
        par_scan::chunk(a + b, k + n - 1) == par_scan::chunk(b, n - 1),
    decreases n,
{
    let new = a + b;
    assert(par_scan::chunk(new, k + n - 1) =~= par_scan::chunk(b, n - 1));
    let sub = plan::patch_of(old, par_scan::chunk(b, n - 1));
    let front = par_scan::stitched(old, a, k) + par_scan::rewind(old, new, k);
    if n == 1 {
        lemma_stitched_front(old, a, b, k, k);
        assert(par_scan::stitched(old, b, 0) =~= Seq::empty());
        assert(par_scan::stitched(old, b, 1) =~= sub);
        assert(par_scan::stitched(old, new, k + 1) =~= front + sub);
    } else {
        lemma_stitched_back(old, a, b, k, n - 1);
        let back = par_scan::stitched(old, b, n - 1);
        let mark = par_scan::rewind(old, b, n - 1);
        assert(par_scan::rewind(old, new, k + n - 1) == mark);
        assert(par_scan::stitched(old, new, k + n) == (front + back) + mark + sub);
        assert((front + back) + mark + sub =~= front + (back + mark + sub));
    }
}

/// A patch in chunks is the patches of its chunks: behind a whole number of chunks `a`, whose patch
/// leaves the read position at `end`, the patch goes back to the front and goes on as the one for
/// the rest `b` alone.
pub proof fn law_chunks_are_independent(old: Seq<u8>, a: Seq<u8>, b: Seq<u8>, k: int, end: int)
    requires
        old.len() <= i32::MAX,
        a.len() <= u64::MAX,
        1 <= k,
        a.len() == k * 262144,
        0 < b.len(),
        patch::apply(old, par_scan::chunked_patch_of(old, a), 0) == Ok::<
            (Seq<u8>, int),
            patch::PatchError,
        >((a, end)),
    ensures
        0 <= end <= old.len(),
        par_scan::chunked_patch_of(old, a + b) == par_scan::chunked_patch_of(old, a)
            + header_bytes(0, 0, -end) + par_scan::chunked_patch_of(old, b),
{
    let new = a + b;
    let n = parallel::chunk_count(b.len() as int);
    assert(parallel::chunk_count(a.len() as int) == k);
    assert(parallel::chunk_count(new.len() as int) == k + n);
    par_scan::lemma_stitched(old, a, k);
    let last = par_scan::chunk(a, k - 1);
    assert(end == plan::end_of_patch(old, last));
    plan::law_round_trip(old, last);
    lemma_stitched_front(old, a, b, k, k);
    lemma_stitched_back(old, a, b, k, n);
    let r = record::seek_record(-end);
    assert(par_scan::rewind(old, new, k) == record::encode(r));
    laws::law_record_layout(r);
    assert(record::encode(r) =~= header_bytes(0, 0, -end));
}

/// A patch in chunks leaves the read position within the old input, so that the next chunk can
/// follow.
pub proof fn law_chunked_patch_applies(old: Seq<u8>, new: Seq<u8>) -> (end: int)
    requires
        old.len() <= i32::MAX,
        new.len() <= u64::MAX,
    ensures
        0 <= end <= old.len(),
        patch::apply(old, par_scan::chunked_patch_of(old, new), 0) == Ok::<
            (Seq<u8>, int),
            patch::PatchError,
        >((new, end)),
{
    let n = parallel::chunk_count(new.len() as int);
    if new.len() == 0 {
        assert(new =~= Seq::empty());
        0
    } else {
        par_scan::lemma_stitched(old, new, n);
        assert(new.take(parallel::chunk_end(new.len() as int, n - 1)) =~= new);
        let last = par_scan::chunk(new, n - 1);
        plan::law_round_trip(old, last);
        plan::end_of_patch(old, last)
    }
}

/// An input of up to 262144 bytes is one chunk: its patch in chunks is its patch.
pub proof fn law_short_input_is_one_chunk(old: Seq<u8>, new: Seq<u8>)
    requires
        old.len() <= i32::MAX,
        new.len() <= 262144,
    ensures
        par_scan::chunked_patch_of(old, new) == plan::patch_of(old, new),
        new.len() == 0 ==> plan::patch_of(old, new).len() == 0,
{
    par_scan::law_single_chunk(old, new);
}

/// Which patch is made is decided by whether it is made in chunks, and by nothing else.
pub proof fn law_patch_bytes(old: Seq<u8>, new: Seq<u8>)
    ensures
        diff::patch_bytes(old, new, false) == plan::patch_of(old, new),
        diff::patch_bytes(old, new, true) == par_scan::chunked_patch_of(old, new),
{
}

/// Sorting bucket slices: every slice between two neighbouring starts holds what it held, in
/// descending order.
pub proof fn law_sorted_slices(
    offsets: Seq<u32>,
    lo: int,
    hi: int,
    before: Seq<i32>,
    after: Seq<i32>,
    b: int,
)
    requires
        par_index::slices_sorted(offsets, lo, hi, before, after),
        lo <= b < hi,
    ensures
        after.len() == before.len(),
        after.subrange(offsets[b] - offsets[lo], offsets[b + 1] - offsets[lo]).to_multiset()
            == before.subrange(offsets[b] - offsets[lo], offsets[b + 1] - offsets[lo]).to_multiset(),
        forall|i: int, j: int|
            0 <= i < j < after.subrange(offsets[b] - offsets[lo], offsets[b + 1] - offsets[lo]).len()
                ==> #[trigger] after.subrange(
                offsets[b] - offsets[lo],
                offsets[b + 1] - offsets[lo],
            )[i] >= #[trigger] after.subrange(
                offsets[b] - offsets[lo],
                offsets[b + 1] - offsets[lo],
            )[j],
{
    let slice = par_index::slice_of(offsets, lo, after, b);
    assert(parallel::is_sorted_copy(par_index::slice_of(offsets, lo, before, b), slice));
}

} // verus!
