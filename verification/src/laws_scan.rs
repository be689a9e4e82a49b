//! What the scan promises: where it stops, how a record is cut there, and what the record holds.
//!
//! The laws here count agreeing bytes as sets of places and write every bound out over the inputs,
//! so that they can be read without the definitions behind the functions that they are about.
use crate::extend;
use crate::laws;
use crate::matching;
use crate::plan;
use crate::record;
use vstd::prelude::*;

verus! {

/// The places of `new[a..b]` that hold the same byte as the place `offset` further on in `old`.
pub open spec fn same_bytes(old: Seq<u8>, new: Seq<u8>, offset: int, a: int, b: int) -> Set<int> {
    Set::new(|j: int| a <= j < b && 0 <= j + offset < old.len() && old[j + offset] == new[j])
}

/// What it is worth to lay `new[at..at + i]` over `old[pos..]`: bytes that are the same, less bytes
/// that are not.
pub open spec fn worth_forward(old: Seq<u8>, new: Seq<u8>, at: int, pos: int, i: int) -> int {
    2 * same_bytes(old, new, pos - at, at, at + i).len() - i
}

/// What it is worth to lay `new[at - i..at]` over `old[pos - i..pos]`.
pub open spec fn worth_backward(old: Seq<u8>, new: Seq<u8>, at: int, pos: int, i: int) -> int {
    2 * same_bytes(old, new, pos - at, at - i, at).len() - i
}

/// How many more bytes of `new[at..at + i]` are the same in `old[pos1..]` than in `old[pos2..]`.
pub open spec fn worth_split(
    old: Seq<u8>,
    new: Seq<u8>,
    at: int,
    pos1: int,
    pos2: int,
    i: int,
) -> int {
    same_bytes(old, new, pos1 - at, at, at + i).len() - same_bytes(
        old,
        new,
        pos2 - at,
        at,
        at + i,
    ).len()
}

/// Whether `f` is the shortest best length over which `new[lastscan..]` is laid over
/// `old[lastpos..]`, out of all that end by `scan` and within `old`.
pub open spec fn is_best_forward(
    old: Seq<u8>,
    new: Seq<u8>,
    lastscan: int,
    lastpos: int,
    scan: int,
    f: int,
) -> bool {
    &&& 0 <= f
    &&& lastscan + f <= scan
    &&& lastpos + f <= old.len()
    &&& forall|i: int|
        0 <= i && lastscan + i <= scan && lastpos + i <= old.len() ==> {
            &&& #[trigger] worth_forward(old, new, lastscan, lastpos, i) <= worth_forward(
                old,
                new,
                lastscan,
                lastpos,
                f,
            )
            &&& i < f ==> worth_forward(old, new, lastscan, lastpos, i) < worth_forward(
                old,
                new,
                lastscan,
                lastpos,
                f,
            )
        }
}

/// Whether `b` is the shortest best length over which `new[..scan]` is laid over `old[..pos]` from
/// the back, out of all that start no earlier than `lastscan` and within `old`.
pub open spec fn is_best_backward(
    old: Seq<u8>,
    new: Seq<u8>,
    lastscan: int,
    scan: int,
    pos: int,
    b: int,
) -> bool {
    &&& 0 <= b
    &&& lastscan <= scan - b
    &&& b <= pos
    &&& forall|i: int|
        0 <= i && lastscan <= scan - i && i <= pos ==> {
            &&& #[trigger] worth_backward(old, new, scan, pos, i) <= worth_backward(
                old,
                new,
                scan,
                pos,
                b,
            )
            &&& i < b ==> worth_backward(old, new, scan, pos, i) < worth_backward(
                old,
                new,
                scan,
                pos,
                b,
            )
        }
}

/// Whether `l` is the smallest best share of `new[at..at + n]` for `old[pos1..]`, the rest being
/// left to `old[pos2..]`.
pub open spec fn is_best_split(
    old: Seq<u8>,
    new: Seq<u8>,
    at: int,
    pos1: int,
    pos2: int,
    n: int,
    l: int,
) -> bool {
    &&& 0 <= l <= n
    &&& forall|i: int|
        0 <= i <= n ==> {
            &&& #[trigger] worth_split(old, new, at, pos1, pos2, i) <= worth_split(
                old,
                new,
                at,
                pos1,
                pos2,
                l,
            )
            &&& i < l ==> worth_split(old, new, at, pos1, pos2, i) < worth_split(
                old,
                new,
                at,
                pos1,
                pos2,
                l,
            )
        }
}

/// Whether `r` is the furthest end of a match that is found from `from` to `s`.
pub open spec fn is_furthest_end(
    old: Seq<u8>,
    new: Seq<u8>,
    from: int,
    s: int,
    r: int,
) -> bool {
    &&& forall|t: int| from <= t <= s ==> t + (#[trigger] matching::found_match(old, new, t)).1 <= r
    &&& exists|t: int| from <= t <= s && t + (#[trigger] matching::found_match(old, new, t)).1 == r
}

/// Counting agreeing bytes one by one gives the number of places.
pub proof fn law_agreements(old: Seq<u8>, new: Seq<u8>, offset: int, a: int, b: int)
    ensures
        same_bytes(old, new, offset, a, b).finite(),
        extend::agreements(old, new, offset, a, b) == same_bytes(old, new, offset, a, b).len(),
    decreases b - a,
{
    let all = same_bytes(old, new, offset, a, b);
    if b <= a {
        assert(all =~= Set::empty());
    } else {
        let rest = same_bytes(old, new, offset, a, b - 1);
        law_agreements(old, new, offset, a, b - 1);
        if 0 <= b - 1 + offset < old.len() && old[b - 1 + offset] == new[b - 1] {
            assert(all =~= rest.insert(b - 1));
        } else {
            assert(all =~= rest);
        }
    }
}

/// The forward extension of at most `n` bytes is the shortest of the best ones.
pub proof fn law_extend_forward(old: Seq<u8>, new: Seq<u8>, at: int, pos: int, n: int, i: int)
    requires
        0 <= i <= n,
    ensures
        ({
            let f = extend::forward_len(old, new, pos - at, at, n);
            &&& 0 <= f <= n
            &&& worth_forward(old, new, at, pos, i) <= worth_forward(old, new, at, pos, f)
            &&& i < f ==> worth_forward(old, new, at, pos, i) < worth_forward(old, new, at, pos, f)
        }),
{
    let f = extend::forward_len(old, new, pos - at, at, n);
    extend::law_forward_len_best(old, new, pos - at, at, n, i);
    law_agreements(old, new, pos - at, at, at + i);
    law_agreements(old, new, pos - at, at, at + f);
}

/// The backward extension of at most `n` bytes is the shortest of the best ones.
pub proof fn law_extend_backward(old: Seq<u8>, new: Seq<u8>, at: int, pos: int, n: int, i: int)
    requires
        0 <= i <= n,
    ensures
        ({
            let b = extend::backward_len(old, new, pos - at, at, n);
            &&& 0 <= b <= n
            &&& worth_backward(old, new, at, pos, i) <= worth_backward(old, new, at, pos, b)
            &&& i < b ==> worth_backward(old, new, at, pos, i) < worth_backward(
                old,
                new,
                at,
                pos,
                b,
            )
        }),
{
    let b = extend::backward_len(old, new, pos - at, at, n);
    extend::law_backward_len_best(old, new, pos - at, at, n, i);
    law_agreements(old, new, pos - at, at - i, at);
    law_agreements(old, new, pos - at, at - b, at);
}

/// The split of an overlap of `n` bytes is the smallest of the best ones.
pub proof fn law_split_overlap(
    old: Seq<u8>,
    new: Seq<u8>,
    at: int,
    pos1: int,
    pos2: int,
    n: int,
    i: int,
)
    requires
        0 <= i <= n,
    ensures
        ({
            let l = extend::split_len(old, new, pos1 - at, pos2 - at, at, n);
            &&& 0 <= l <= n
            &&& worth_split(old, new, at, pos1, pos2, i) <= worth_split(
                old,
                new,
                at,
                pos1,
                pos2,
                l,
            )
            &&& i < l ==> worth_split(old, new, at, pos1, pos2, i) < worth_split(
                old,
                new,
                at,
                pos1,
                pos2,
                l,
            )
        }),
{
    let l = extend::split_len(old, new, pos1 - at, pos2 - at, at, n);
    extend::law_split_len_best(old, new, pos1 - at, pos2 - at, at, n, i);
    law_agreements(old, new, pos1 - at, at, at + i);
    law_agreements(old, new, pos2 - at, at, at + i);
    law_agreements(old, new, pos1 - at, at, at + l);
    law_agreements(old, new, pos2 - at, at, at + l);
}

/// Some match found from `from` to `s` reaches furthest, and that is how far they reach.
pub proof fn law_reach(old: Seq<u8>, new: Seq<u8>, from: int, s: int)
    requires
        old.len() <= i32::MAX,
        0 <= from <= s,
    ensures
        is_furthest_end(old, new, from, s, plan::reach(old, new, from, s)),
        forall|r: int|
            #[trigger] is_furthest_end(old, new, from, s, r) ==> r == plan::reach(
                old,
                new,
                from,
                s,
            ),
    decreases s - from,
{
    let far = plan::reach(old, new, from, s);
    laws::law_lookup_sound(old, new, s);
    if s == from {
        assert(plan::reach(old, new, from, s - 1) == from);
        assert(far == s + matching::found_match(old, new, s).1);
    } else {
        law_reach(old, new, from, s - 1);
        let before = plan::reach(old, new, from, s - 1);
        let t0 = choose|t: int|
            from <= t <= s - 1 && t + (#[trigger] matching::found_match(old, new, t)).1 == before;
        assert(from <= t0 <= s && t0 + matching::found_match(old, new, t0).1 == before);
    }
    assert(is_furthest_end(old, new, from, s, far));
    assert forall|r: int| #[trigger] is_furthest_end(old, new, from, s, r) implies r == far by {
        let t1 = choose|t: int|
            from <= t <= s && t + (#[trigger] matching::found_match(old, new, t)).1 == r;
        let t2 = choose|t: int|
            from <= t <= s && t + (#[trigger] matching::found_match(old, new, t)).1 == far;
        assert(t1 + matching::found_match(old, new, t1).1 <= far);
        assert(t2 + matching::found_match(old, new, t2).1 <= r);
    }
}

/// Where the scan stops depends on lengths alone, wherever in `old` the match lies.
///
/// Of a place `s`, let `len` be the length of the match found there, and `same` the number of bytes
/// of `new[s..r]` that are the same in `old` under the current alignment, where `r` is the furthest
/// end of a match found since the scan took up. The scan passes `s` over if neither
/// `len == same != 0` nor `len > same + 8`, and stops at the first place at which one of them
/// holds, or at the end. The record is closed there unless `len == same`.
pub proof fn law_stop(old: Seq<u8>, new: Seq<u8>, c: plan::Cursor)
    requires
        old.len() <= i32::MAX,
        0 <= c.lastscan <= c.scan < new.len(),
        0 <= c.lastpos <= old.len(),
        0 <= c.pos,
        0 <= c.len,
        c.pos + c.len <= old.len(),
        c.scan + c.len <= new.len(),
    ensures
        ({
            let a = plan::advance(old, new, c);
            let from = c.scan + c.len;
            let offset = c.lastpos - c.lastscan;
            &&& from <= a.scan <= new.len()
            &&& a.lastscan == c.lastscan
            &&& a.lastpos == c.lastpos
            &&& forall|s: int, r: int|
                #![trigger is_furthest_end(old, new, from, s, r)]
                from <= s < a.scan && is_furthest_end(old, new, from, s, r) ==> {
                    let len = matching::found_match(old, new, s).1;
                    let same = same_bytes(old, new, offset, s, r).len();
                    !(len == same && len != 0) && len <= same + 8
                }
            &&& a.scan < new.len() ==> (a.pos, a.len) == matching::found_match(old, new, a.scan)
            &&& a.scan < new.len() ==> forall|r: int|
                #[trigger] is_furthest_end(old, new, from, a.scan, r) ==> {
                    let same = same_bytes(old, new, offset, a.scan, r).len();
                    &&& (a.len == same && a.len != 0) || a.len > same + 8
                    &&& plan::closes(old, new, c) == (a.len != same)
                }
            &&& a.scan == new.len() ==> plan::closes(old, new, c)
            &&& a.scan == new.len() && from < new.len() ==> a.pos == 0 && a.len == 0
            &&& a.scan == new.len() && from == new.len() ==> a.pos == c.pos && a.len == c.len
        }),
{
    let a = plan::advance(old, new, c);
    let from = c.scan + c.len;
    let offset = c.lastpos - c.lastscan;
    plan::lemma_next_stop(old, new, offset, from, from);
    assert forall|s: int, r: int|
        #![trigger is_furthest_end(old, new, from, s, r)]
        from <= s < a.scan && is_furthest_end(old, new, from, s, r) implies {
        let len = matching::found_match(old, new, s).1;
        let same = same_bytes(old, new, offset, s, r).len();
        !(len == same && len != 0) && len <= same + 8
    } by {
        law_reach(old, new, from, s);
        law_agreements(old, new, offset, s, r);
        assert(!plan::stops_at(old, new, offset, from, s));
    }
    if a.scan < new.len() {
        law_reach(old, new, from, a.scan);
        law_agreements(old, new, offset, a.scan, plan::reach(old, new, from, a.scan));
        assert(plan::stops_at(old, new, offset, from, a.scan));
    }
}

/// The extensions around a stop, before any overlap is split, are the shortest best ones of all
/// that fit between the start of the record and the stop and within `old`. At the end of `new`
/// there is no match to extend.
pub proof fn law_extensions(old: Seq<u8>, new: Seq<u8>, c: plan::Cursor)
    requires
        0 <= c.lastscan <= c.scan <= new.len(),
        0 <= c.lastpos <= old.len(),
        0 <= c.pos <= old.len(),
    ensures
        is_best_forward(
            old,
            new,
            c.lastscan,
            c.lastpos,
            c.scan,
            plan::extensions(old, new, c).0,
        ),
        c.scan < new.len() ==> is_best_backward(
            old,
            new,
            c.lastscan,
            c.scan,
            c.pos,
            plan::extensions(old, new, c).1,
        ),
        c.scan == new.len() ==> plan::extensions(old, new, c).1 == 0,
{
    let (f, b) = plan::extensions(old, new, c);
    plan::lemma_cut(old, new, c);
    assert forall|i: int|
        0 <= i && c.lastscan + i <= c.scan && c.lastpos + i <= old.len() implies {
        &&& #[trigger] worth_forward(old, new, c.lastscan, c.lastpos, i) <= worth_forward(
            old,
            new,
            c.lastscan,
            c.lastpos,
            f,
        )
        &&& i < f ==> worth_forward(old, new, c.lastscan, c.lastpos, i) < worth_forward(
            old,
            new,
            c.lastscan,
            c.lastpos,
            f,
        )
    } by {
        law_extend_forward(old, new, c.lastscan, c.lastpos, plan::forward_limit(old, c), i);
    }
    if c.scan < new.len() {
        assert forall|i: int| 0 <= i && c.lastscan <= c.scan - i && i <= c.pos implies {
            &&& #[trigger] worth_backward(old, new, c.scan, c.pos, i) <= worth_backward(
                old,
                new,
                c.scan,
                c.pos,
                b,
            )
            &&& i < b ==> worth_backward(old, new, c.scan, c.pos, i) < worth_backward(
                old,
                new,
                c.scan,
                c.pos,
                b,
            )
        } by {
            law_extend_backward(old, new, c.scan, c.pos, plan::backward_limit(c), i);
        }
    }
}

/// Where a record is cut. With `f` and `b` the shortest best extensions forward and backward: if
/// they do not overlap, there; if they do, the overlap is divided at its smallest best share `l`.
pub proof fn law_cut(old: Seq<u8>, new: Seq<u8>, c: plan::Cursor, f: int, b: int, l: int)
    requires
        0 <= c.lastscan <= c.scan <= new.len(),
        0 <= c.lastpos <= old.len(),
        0 <= c.pos <= old.len(),
        is_best_forward(old, new, c.lastscan, c.lastpos, c.scan, f),
        c.scan < new.len() ==> is_best_backward(old, new, c.lastscan, c.scan, c.pos, b),
        c.scan == new.len() ==> b == 0,
        c.lastscan + f > c.scan - b ==> is_best_split(
            old,
            new,
            c.scan - b,
            c.lastpos + (c.scan - b - c.lastscan),
            c.pos - b,
            c.lastscan + f - (c.scan - b),
            l,
        ),
    ensures
        c.lastscan + f <= c.scan - b ==> plan::cut(old, new, c) == (f, b),
        c.lastscan + f > c.scan - b ==> plan::cut(old, new, c) == (
            c.scan - b + l - c.lastscan,
            b - l,
        ),
{
    law_extensions(old, new, c);
    let (f1, b1) = plan::extensions(old, new, c);
    assert(worth_forward(old, new, c.lastscan, c.lastpos, f1) == worth_forward(
        old,
        new,
        c.lastscan,
        c.lastpos,
        f,
    ));
    assert(f1 == f);
    if c.scan < new.len() {
        assert(worth_backward(old, new, c.scan, c.pos, b1) == worth_backward(
            old,
            new,
            c.scan,
            c.pos,
            b,
        ));
    }
    assert(b1 == b);
    let start = c.scan - b;
    let overlap = c.lastscan + f - start;
    if overlap > 0 {
        let pos1 = c.lastpos + (start - c.lastscan);
        let pos2 = c.pos - b;
        assert(pos1 - start == c.offset());
        assert(pos2 - start == c.pos - c.scan);
        let l1 = extend::split_len(old, new, c.offset(), c.pos - c.scan, start, overlap);
        law_split_overlap(old, new, start, pos1, pos2, overlap, l);
        assert(worth_split(old, new, start, pos1, pos2, l1) <= worth_split(
            old,
            new,
            start,
            pos1,
            pos2,
            l,
        ));
        assert(l1 == l);
    }
}

/// What a record holds that is closed at the stop `c`: the differences over the forward extension,
/// the bytes between the two extensions, and the way from the end of the one to the start of the
/// other in `old`. The next record starts where the backward extension starts.
pub proof fn law_closed_record(old: Seq<u8>, new: Seq<u8>, c: plan::Cursor)
    requires
        old.len() <= i32::MAX,
        0 <= c.lastscan <= c.scan <= new.len(),
        0 <= c.lastpos <= old.len(),
        0 <= c.pos <= old.len(),
    ensures
        ({
            let (lenf, lenb) = plan::cut(old, new, c);
            let r = plan::closed_record(old, new, c);
            let next = plan::next_record(old, new, c);
            &&& r.mix.len() == lenf
            &&& forall|i: int|
                0 <= i < lenf ==> (#[trigger] r.mix[i] + old[c.lastpos + i]) % 256
                    == new[c.lastscan + i]
            &&& r.copy == new.subrange(c.lastscan + lenf, c.scan - lenb)
            &&& r.seek == (c.pos - lenb) - (c.lastpos + lenf)
            &&& next.lastscan == c.scan - lenb
            &&& next.lastpos == c.pos - lenb
            &&& next.scan == c.scan
            &&& next.pos == c.pos
            &&& next.len == c.len
        }),
{
    plan::lemma_cut(old, new, c);
}

/// The differences that a record stores, added to the old bytes, are the new bytes.
pub proof fn law_differences(old: Seq<u8>, new: Seq<u8>, lastscan: int, lastpos: int, n: int)
    requires
        0 <= n,
    ensures
        plan::differences(old, new, lastscan, lastpos, n).len() == n,
        forall|i: int|
            0 <= i < n ==> (#[trigger] plan::differences(old, new, lastscan, lastpos, n)[i]
                + old[lastpos + i]) % 256 == new[lastscan + i],
{
}

/// How the patch unfolds: from a state in mid scan, the rest of the patch is the record closed at
/// the next stop, if one is, followed by the rest of the patch from there on. At the end nothing is
/// left.
pub proof fn law_scan_step(old: Seq<u8>, new: Seq<u8>, c: plan::Cursor)
    requires
        old.len() <= i32::MAX,
        0 <= c.lastscan <= c.scan <= new.len(),
        0 <= c.lastpos <= old.len(),
        0 <= c.pos,
        0 <= c.len,
        c.pos + c.len <= old.len(),
        c.scan < new.len() ==> c.scan + c.len <= new.len(),
        c.scan == new.len() ==> c.lastscan == new.len(),
    ensures
        c.scan == new.len() ==> plan::rest_of_patch(old, new, c) == (Seq::<u8>::empty(), c.lastpos),
        c.scan < new.len() ==> {
            let a = plan::advance(old, new, c);
            let rest = plan::rest_of_patch(old, new, c);
            let next = plan::rest_of_patch(old, new, plan::next_record(old, new, a));
            &&& plan::closes(old, new, c) ==> rest.0 == record::encode(
                plan::closed_record(old, new, a),
            ) + next.0 && rest.1 == next.1
            &&& !plan::closes(old, new, c) ==> rest == plan::rest_of_patch(old, new, a)
        },
{
    assert(c.valid(old, new));
    if c.scan < new.len() {
        plan::lemma_advance(old, new, c);
        let a = plan::advance(old, new, c);
        let next = plan::next_record(old, new, a);
        if plan::closes(old, new, c) {
            assert(plan::rest_of_patch(old, new, c) == (
                record::encode(plan::closed_record(old, new, a)) + plan::rest_of_patch(
                    old,
                    new,
                    next,
                ).0,
                plan::rest_of_patch(old, new, next).1,
            ));
        } else {
            assert(plan::rest_of_patch(old, new, c) == plan::rest_of_patch(old, new, a));
        }
    }
}

/// The scan starts at the front of both inputs.
pub proof fn law_scan_start(old: Seq<u8>, new: Seq<u8>)
    ensures
        ({
            let c = plan::Cursor { scan: 0, len: 0, pos: 0, lastscan: 0, lastpos: 0 };
            &&& plan::Cursor::start() == c
            &&& plan::patch_of(old, new) == plan::rest_of_patch(old, new, c).0
            &&& plan::end_of_patch(old, new) == plan::rest_of_patch(old, new, c).1
        }),
{
}

} // verus!
