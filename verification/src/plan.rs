//! Which records a patch consists of.
//!
//! The new input is scanned from front to back. The scan stops where a match is found that beats
//! the alignment of the record in progress. There the record is closed: its end and the match are
//! extended towards each other, and the bytes between them become literals.
use crate::extend;
use crate::matching;
use crate::patch;
use crate::record;
use vstd::prelude::*;

verus! {

/// By how many agreeing bytes a match has to beat the current alignment.
pub const MATCH_MARGIN: i64 = 8;

/// A state of the scan.
#[verifier::ext_equal]
pub struct Cursor {
    /// Where the scan stands in the new input.
    pub scan: int,
    /// The length of the match found there.
    pub len: int,
    /// The position of that match in the old input.
    pub pos: int,
    /// Where the record in progress starts in the new input.
    pub lastscan: int,
    /// Where it starts in the old input.
    pub lastpos: int,
}

impl Cursor {
    /// The state before the first record.
    pub open spec fn start() -> Cursor {
        Cursor { scan: 0, len: 0, pos: 0, lastscan: 0, lastpos: 0 }
    }

    /// How the record in progress is laid over the old input.
    pub open spec fn offset(self) -> int {
        self.lastpos - self.lastscan
    }

    /// Where the scan takes up again.
    pub open spec fn resume(self) -> int {
        self.scan + self.len
    }

    /// Whether this is a state of a scan of `new` against `old`.
    pub open spec fn valid(self, old: Seq<u8>, new: Seq<u8>) -> bool {
        &&& old.len() <= i32::MAX
        &&& 0 <= self.lastscan <= self.scan <= new.len()
        &&& 0 <= self.lastpos <= old.len()
        &&& 0 <= self.pos
        &&& 0 <= self.len
        &&& self.pos + self.len <= old.len()
        &&& self.scan < new.len() ==> self.resume() <= new.len()
        &&& self.scan == new.len() ==> self.lastscan == new.len()
    }

    /// How much of the new input is left to scan.
    pub open spec fn left(self, new: Seq<u8>) -> int {
        if self.scan < new.len() {
            new.len() - self.resume() + 1
        } else {
            0
        }
    }
}

/// How far into the new input the matches found from `from` to `s` reach.
pub open spec fn reach(old: Seq<u8>, new: Seq<u8>, from: int, s: int) -> int
    decreases s + 1 - from,
{
    if s < from {
        from
    } else {
        let before = reach(old, new, from, s - 1);
        let end = s + matching::found_match(old, new, s).1;
        if end > before {
            end
        } else {
            before
        }
    }
}

/// How many bytes the current alignment gets right from `s` on, as far as the matches found so far
/// reach.
pub open spec fn score(old: Seq<u8>, new: Seq<u8>, offset: int, from: int, s: int) -> int {
    extend::agreements(old, new, offset, s, reach(old, new, from, s))
}

/// Whether the scan stops at `s`: the match there is as good as the current alignment, or beats it
/// by more than the margin.
pub open spec fn stops_at(old: Seq<u8>, new: Seq<u8>, offset: int, from: int, s: int) -> bool {
    let len = matching::found_match(old, new, s).1;
    let current = score(old, new, offset, from, s);
    len == current && len != 0 || len > current + MATCH_MARGIN
}

/// The first place from `s` on at which a scan that took up at `from` stops, or the end of `new`.
pub open spec fn next_stop(old: Seq<u8>, new: Seq<u8>, offset: int, from: int, s: int) -> int
    decreases new.len() - s,
{
    if s >= new.len() {
        new.len() as int
    } else if stops_at(old, new, offset, from, s) {
        s
    } else {
        next_stop(old, new, offset, from, s + 1)
    }
}

/// Where the scan stops next.
pub open spec fn stop_of(old: Seq<u8>, new: Seq<u8>, c: Cursor) -> int {
    next_stop(old, new, c.offset(), c.resume(), c.resume())
}

/// The state at the next stop.
pub open spec fn advance(old: Seq<u8>, new: Seq<u8>, c: Cursor) -> Cursor {
    let stop = stop_of(old, new, c);
    let (pos, len) = if stop < new.len() {
        matching::found_match(old, new, stop)
    } else if c.resume() < new.len() {
        // The last places of the new input have no whole anchor.
        (0, 0)
    } else {
        (c.pos, c.len)
    };
    Cursor { scan: stop, len, pos, ..c }
}

/// Whether the record in progress ends at the next stop. It goes on where the match only confirms
/// the current alignment.
pub open spec fn closes(old: Seq<u8>, new: Seq<u8>, c: Cursor) -> bool {
    let stop = stop_of(old, new, c);
    stop == new.len() || matching::found_match(old, new, stop).1 != score(
        old,
        new,
        c.offset(),
        c.resume(),
        stop,
    )
}

/// The longest that the record in progress can be extended forward.
pub open spec fn forward_limit(old: Seq<u8>, c: Cursor) -> int {
    if c.scan - c.lastscan <= old.len() - c.lastpos {
        c.scan - c.lastscan
    } else {
        old.len() - c.lastpos
    }
}

/// The longest that the match can be extended backward.
pub open spec fn backward_limit(c: Cursor) -> int {
    if c.scan - c.lastscan <= c.pos {
        c.scan - c.lastscan
    } else {
        c.pos
    }
}

/// How far the record in progress is extended forward and the match backward, without regard to
/// each other.
pub open spec fn extensions(old: Seq<u8>, new: Seq<u8>, c: Cursor) -> (int, int) {
    (
        extend::forward_len(old, new, c.offset(), c.lastscan, forward_limit(old, c)),
        if c.scan < new.len() {
            extend::backward_len(old, new, c.pos - c.scan, c.scan, backward_limit(c))
        } else {
            0
        },
    )
}

/// How far the record in progress is extended forward and the match backward.
pub open spec fn cut(old: Seq<u8>, new: Seq<u8>, c: Cursor) -> (int, int) {
    let (lenf, lenb) = extensions(old, new, c);
    let start = c.scan - lenb;
    let overlap = c.lastscan + lenf - start;
    if overlap > 0 {
        let lens = extend::split_len(old, new, c.offset(), c.pos - c.scan, start, overlap);
        (lenf + lens - overlap, lenb - lens)
    } else {
        (lenf, lenb)
    }
}

/// The differences between `new[lastscan..]` and `old[lastpos..]` over `n` bytes, modulo 256.
pub open spec fn differences(
    old: Seq<u8>,
    new: Seq<u8>,
    lastscan: int,
    lastpos: int,
    n: int,
) -> Seq<u8> {
    Seq::new(n as nat, |i: int| new[lastscan + i].wrapping_sub(old[lastpos + i]))
}

/// The record that is closed at the stop `c`.
pub open spec fn closed_record(old: Seq<u8>, new: Seq<u8>, c: Cursor) -> record::Record {
    let (lenf, lenb) = cut(old, new, c);
    record::Record {
        mix: differences(old, new, c.lastscan, c.lastpos, lenf),
        copy: new.subrange(c.lastscan + lenf, c.scan - lenb),
        seek: c.pos - lenb - (c.lastpos + lenf),
    }
}

/// The state after the record at the stop `c` is closed.
pub open spec fn next_record(old: Seq<u8>, new: Seq<u8>, c: Cursor) -> Cursor {
    let lenb = cut(old, new, c).1;
    Cursor { lastscan: c.scan - lenb, lastpos: c.pos - lenb, ..c }
}

/// The rest of the patch from the state `c` on, and the decoder's read position at its end.
pub open spec fn rest_of_patch(old: Seq<u8>, new: Seq<u8>, c: Cursor) -> (Seq<u8>, int)
    decreases c.left(new),
    when c.valid(old, new)
    via rest_of_patch_decreases
{
    if c.scan >= new.len() {
        (Seq::empty(), c.lastpos)
    } else {
        let stop = advance(old, new, c);
        if closes(old, new, c) {
            let rest = rest_of_patch(old, new, next_record(old, new, stop));
            (record::encode(closed_record(old, new, stop)) + rest.0, rest.1)
        } else {
            rest_of_patch(old, new, stop)
        }
    }
}

#[via_fn]
proof fn rest_of_patch_decreases(old: Seq<u8>, new: Seq<u8>, c: Cursor) {
    if c.scan < new.len() {
        lemma_advance(old, new, c);
    }
}

/// The patch from `old` to `new`.
pub open spec fn patch_of(old: Seq<u8>, new: Seq<u8>) -> Seq<u8> {
    rest_of_patch(old, new, Cursor::start()).0
}

/// The decoder's read position in `old` after the patch.
pub open spec fn end_of_patch(old: Seq<u8>, new: Seq<u8>) -> int {
    rest_of_patch(old, new, Cursor::start()).1
}

/// A scan stops at a stop or at the end.
pub proof fn lemma_next_stop(old: Seq<u8>, new: Seq<u8>, offset: int, from: int, s: int)
    requires
        s <= new.len(),
    ensures
        s <= next_stop(old, new, offset, from, s) <= new.len(),
        next_stop(old, new, offset, from, s) < new.len() ==> stops_at(
            old,
            new,
            offset,
            from,
            next_stop(old, new, offset, from, s),
        ),
        forall|t: int|
            s <= t < next_stop(old, new, offset, from, s) ==> !stops_at(old, new, offset, from, t),
    decreases new.len() - s,
{
    if s < new.len() && !stops_at(old, new, offset, from, s) {
        lemma_next_stop(old, new, offset, from, s + 1);
    }
}

/// A step of the scan makes headway, and at the stop both extensions stay in range.
pub proof fn lemma_advance(old: Seq<u8>, new: Seq<u8>, c: Cursor)
    requires
        c.valid(old, new),
        c.scan < new.len(),
    ensures
        ({
            let stop = advance(old, new, c);
            &&& c.resume() <= stop.scan <= new.len()
            &&& 0 <= stop.pos
            &&& 0 <= stop.len
            &&& stop.pos + stop.len <= old.len()
            &&& stop.scan < new.len() ==> c.resume() < stop.resume() <= new.len()
            &&& stop.scan < new.len() ==> stop.valid(old, new)
            &&& next_record(old, new, stop).valid(old, new)
            &&& next_record(old, new, stop).left(new) < c.left(new)
            &&& stop.scan < new.len() ==> stop.left(new) < c.left(new)
        }),
{
    let from = c.resume();
    let stop = advance(old, new, c);
    lemma_next_stop(old, new, c.offset(), from, from);
    if stop.scan < new.len() {
        matching::law_found_match_agrees(old, new, stop.scan);
        if stop.scan == from && stop.len == 0 {
            assert(reach(old, new, from, from - 1) == from);
            assert(reach(old, new, from, from) == from);
            assert(score(old, new, c.offset(), from, from) == 0);
        }
    }
    lemma_cut(old, new, stop);
}

/// The two extensions stay within the inputs and do not overlap.
pub proof fn lemma_cut(old: Seq<u8>, new: Seq<u8>, c: Cursor)
    requires
        0 <= c.lastscan <= c.scan <= new.len(),
        0 <= c.lastpos <= old.len(),
        0 <= c.pos <= old.len(),
    ensures
        ({
            let (f, b) = extensions(old, new, c);
            &&& 0 <= f <= forward_limit(old, c)
            &&& 0 <= b <= backward_limit(c)
        }),
        ({
            let (lenf, lenb) = cut(old, new, c);
            &&& 0 <= lenf <= forward_limit(old, c)
            &&& 0 <= lenb <= backward_limit(c)
            &&& c.lastscan + lenf <= c.scan - lenb
            &&& c.scan == new.len() ==> lenb == 0
        }),
{
    let (lenf, lenb) = extensions(old, new, c);
    extend::law_forward_len_best(
        old,
        new,
        c.offset(),
        c.lastscan,
        forward_limit(old, c),
        0,
    );
    if c.scan < new.len() {
        extend::law_backward_len_best(
            old,
            new,
            c.pos - c.scan,
            c.scan,
            backward_limit(c),
            0,
        );
    }
    let start = c.scan - lenb;
    let overlap = c.lastscan + lenf - start;
    if overlap > 0 {
        extend::law_split_len_best(old, new, c.offset(), c.pos - c.scan, start, overlap, 0);
    }
}

/// The differences over the old bytes are the new bytes.
pub proof fn lemma_unmix_differences(
    old: Seq<u8>,
    new: Seq<u8>,
    lastscan: int,
    lastpos: int,
    n: int,
)
    requires
        0 <= n,
        0 <= lastscan,
        lastscan + n <= new.len(),
    ensures
        patch::unmix(old, lastpos, differences(old, new, lastscan, lastpos, n)) == new.subrange(
            lastscan,
            lastscan + n,
        ),
{
    let mix = differences(old, new, lastscan, lastpos, n);
    assert(patch::unmix(old, lastpos, mix) =~= new.subrange(lastscan, lastscan + n));
}

/// The record that is closed at the stop `c` stands for the new bytes up to where the next record
/// starts, and moves the read position to where that one starts in the old input.
pub proof fn lemma_closed_record(old: Seq<u8>, new: Seq<u8>, c: Cursor)
    requires
        old.len() <= i32::MAX,
        0 <= c.lastscan <= c.scan <= new.len(),
        0 <= c.lastpos <= old.len(),
        0 <= c.pos <= old.len(),
    ensures
        ({
            let r = closed_record(old, new, c);
            let next = next_record(old, new, c);
            &&& c.lastscan <= next.lastscan <= new.len()
            &&& c.lastpos + r.mix.len() <= old.len()
            &&& r.copy.len() <= new.len()
            &&& -i32::MAX <= r.seek <= i32::MAX
            &&& c.lastpos + r.mix.len() + r.seek == next.lastpos
            &&& patch::unmix(old, c.lastpos, r.mix) + r.copy == new.subrange(
                c.lastscan,
                next.lastscan,
            )
        }),
{
    let (lenf, lenb) = cut(old, new, c);
    let r = closed_record(old, new, c);
    lemma_cut(old, new, c);
    lemma_unmix_differences(old, new, c.lastscan, c.lastpos, lenf);
    assert(new.subrange(c.lastscan, c.lastscan + lenf) + r.copy =~= new.subrange(
        c.lastscan,
        c.scan - lenb,
    ));
}

/// Applying the rest of the patch yields the rest of the new input, and leaves the read position
/// where the plan says.
pub proof fn lemma_rest_of_patch(old: Seq<u8>, new: Seq<u8>, c: Cursor)
    requires
        c.valid(old, new),
        new.len() <= u64::MAX,
    ensures
        patch::apply(old, rest_of_patch(old, new, c).0, c.lastpos) == Ok::<
            (Seq<u8>, int),
            patch::PatchError,
        >((new.skip(c.lastscan), rest_of_patch(old, new, c).1)),
        0 <= rest_of_patch(old, new, c).1 <= old.len(),
    decreases c.left(new),
{
    if c.scan >= new.len() {
        assert(new.skip(c.lastscan) =~= Seq::empty());
    } else {
        lemma_advance(old, new, c);
        let stop = advance(old, new, c);
        if closes(old, new, c) {
            let next = next_record(old, new, stop);
            let r = closed_record(old, new, stop);
            let rest = rest_of_patch(old, new, next);
            lemma_closed_record(old, new, stop);
            lemma_rest_of_patch(old, new, next);
            patch::lemma_apply_record(old, r, rest.0, c.lastpos);
            assert(new.subrange(c.lastscan, next.lastscan) + new.skip(next.lastscan) =~= new.skip(
                c.lastscan,
            ));
        } else {
            lemma_rest_of_patch(old, new, stop);
        }
    }
}

/// The patch from `old` to `new`, applied to `old`, yields `new`, and leaves the decoder's read
/// position where the plan says.
pub proof fn law_round_trip(old: Seq<u8>, new: Seq<u8>)
    requires
        old.len() <= i32::MAX,
        new.len() <= u64::MAX,
    ensures
        patch::decode(old, patch_of(old, new)) == Ok::<Seq<u8>, patch::PatchError>(new),
        patch::apply(old, patch_of(old, new), 0) == Ok::<(Seq<u8>, int), patch::PatchError>(
            (new, end_of_patch(old, new)),
        ),
        0 <= end_of_patch(old, new) <= old.len(),
{
    lemma_rest_of_patch(old, new, Cursor::start());
    assert(new.skip(0) =~= new);
}

/// A patch from `old` to `new` that is cut short never yields wrong bytes: applying its first `k`
/// bytes either fails because it ends in the middle of a record, or yields a prefix of `new`.
pub proof fn law_truncated_round_trip(old: Seq<u8>, new: Seq<u8>, k: int)
    requires
        old.len() <= i32::MAX,
        new.len() <= u64::MAX,
        0 <= k <= patch_of(old, new).len(),
    ensures
        match patch::decode(old, patch_of(old, new).take(k)) {
            Ok(bytes) => bytes.is_prefix_of(new),
            Err(e) => e == patch::PatchError::UnexpectedEof,
        },
{
    law_round_trip(old, new);
    patch::law_truncated_patch(old, patch_of(old, new), 0, k);
}

} // verus!
