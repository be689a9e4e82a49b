//! How far a stretch of the new input is covered by the old input around a match.
//!
//! A stretch of the new input is laid over the old input at a fixed offset and its agreeing bytes
//! are counted. An extension of a match is worth its length if more than half of its bytes agree.
use vstd::prelude::*;

verus! {

/// Whether the byte at place `j` of `new` agrees with the one `offset` places further on in `old`.
pub open spec fn agrees(old: Seq<u8>, new: Seq<u8>, offset: int, j: int) -> bool {
    0 <= j + offset < old.len() && old[j + offset] == new[j]
}

/// Number of agreeing bytes in `new[a..b]`.
pub open spec fn agreements(old: Seq<u8>, new: Seq<u8>, offset: int, a: int, b: int) -> int
    decreases b - a,
{
    if b <= a {
        0
    } else {
        agreements(old, new, offset, a, b - 1) + if agrees(old, new, offset, b - 1) {
            1int
        } else {
            0int
        }
    }
}

/// What it is worth to extend a match forward over `new[a..a + i]`: agreeing bytes less
/// disagreeing ones.
pub open spec fn forward_gain(old: Seq<u8>, new: Seq<u8>, offset: int, a: int, i: int) -> int {
    2 * agreements(old, new, offset, a, a + i) - i
}

/// The shortest extension forward from `a`, of at most `n` bytes, that is worth the most.
pub open spec fn forward_len(old: Seq<u8>, new: Seq<u8>, offset: int, a: int, n: int) -> int
    decreases n,
{
    if n <= 0 {
        0
    } else {
        let best = forward_len(old, new, offset, a, n - 1);
        if forward_gain(old, new, offset, a, n) > forward_gain(old, new, offset, a, best) {
            n
        } else {
            best
        }
    }
}

/// What it is worth to extend a match backward over `new[b - i..b]`.
pub open spec fn backward_gain(old: Seq<u8>, new: Seq<u8>, offset: int, b: int, i: int) -> int {
    2 * agreements(old, new, offset, b - i, b) - i
}

/// The shortest extension backward from `b`, of at most `n` bytes, that is worth the most.
pub open spec fn backward_len(old: Seq<u8>, new: Seq<u8>, offset: int, b: int, n: int) -> int
    decreases n,
{
    if n <= 0 {
        0
    } else {
        let best = backward_len(old, new, offset, b, n - 1);
        if backward_gain(old, new, offset, b, n) > backward_gain(old, new, offset, b, best) {
            n
        } else {
            best
        }
    }
}

/// What it is worth to give `new[a..a + i]` to the earlier of two extensions, laid over `old` at
/// `offset1`, instead of the later one, at `offset2`.
pub open spec fn split_gain(
    old: Seq<u8>,
    new: Seq<u8>,
    offset1: int,
    offset2: int,
    a: int,
    i: int,
) -> int {
    agreements(old, new, offset1, a, a + i) - agreements(old, new, offset2, a, a + i)
}

/// How many of the `n` bytes from `a` on, which two extensions both cover, go to the earlier one:
/// the fewest that are worth the most.
pub open spec fn split_len(
    old: Seq<u8>,
    new: Seq<u8>,
    offset1: int,
    offset2: int,
    a: int,
    n: int,
) -> int
    decreases n,
{
    if n <= 0 {
        0
    } else {
        let best = split_len(old, new, offset1, offset2, a, n - 1);
        if split_gain(old, new, offset1, offset2, a, n) > split_gain(
            old,
            new,
            offset1,
            offset2,
            a,
            best,
        ) {
            n
        } else {
            best
        }
    }
}

/// The forward extension is in range and worth at least as much as every other one, and more than
/// every shorter one.
pub proof fn law_forward_len_best(
    old: Seq<u8>,
    new: Seq<u8>,
    offset: int,
    a: int,
    n: int,
    i: int,
)
    requires
        0 <= i <= n,
    ensures
        0 <= forward_len(old, new, offset, a, n) <= n,
        forward_gain(old, new, offset, a, i) <= forward_gain(
            old,
            new,
            offset,
            a,
            forward_len(old, new, offset, a, n),
        ),
        i < forward_len(old, new, offset, a, n) ==> forward_gain(old, new, offset, a, i)
            < forward_gain(old, new, offset, a, forward_len(old, new, offset, a, n)),
    decreases n,
{
    if n > 0 {
        law_forward_len_best(old, new, offset, a, n - 1, if i < n { i } else { 0 });
    }
}

/// The backward extension is in range and worth at least as much as every other one, and more
/// than every shorter one.
pub proof fn law_backward_len_best(
    old: Seq<u8>,
    new: Seq<u8>,
    offset: int,
    b: int,
    n: int,
    i: int,
)
    requires
        0 <= i <= n,
    ensures
        0 <= backward_len(old, new, offset, b, n) <= n,
        backward_gain(old, new, offset, b, i) <= backward_gain(
            old,
            new,
            offset,
            b,
            backward_len(old, new, offset, b, n),
        ),
        i < backward_len(old, new, offset, b, n) ==> backward_gain(old, new, offset, b, i)
            < backward_gain(old, new, offset, b, backward_len(old, new, offset, b, n)),
    decreases n,
{
    if n > 0 {
        law_backward_len_best(old, new, offset, b, n - 1, if i < n { i } else { 0 });
    }
}

/// The split of an overlap is in range and leaves at least as many agreeing bytes as every other
/// one, and more than every earlier one.
pub proof fn law_split_len_best(
    old: Seq<u8>,
    new: Seq<u8>,
    offset1: int,
    offset2: int,
    a: int,
    n: int,
    i: int,
)
    requires
        0 <= i <= n,
    ensures
        0 <= split_len(old, new, offset1, offset2, a, n) <= n,
        split_gain(old, new, offset1, offset2, a, i) <= split_gain(
            old,
            new,
            offset1,
            offset2,
            a,
            split_len(old, new, offset1, offset2, a, n),
        ),
        i < split_len(old, new, offset1, offset2, a, n) ==> split_gain(
            old,
            new,
            offset1,
            offset2,
            a,
            i,
        ) < split_gain(
            old,
            new,
            offset1,
            offset2,
            a,
            split_len(old, new, offset1, offset2, a, n),
        ),
    decreases n,
{
    if n > 0 {
        law_split_len_best(old, new, offset1, offset2, a, n - 1, if i < n { i } else { 0 });
    }
}

/// The number of agreeing bytes is between none and all of them, and at most the number of old
/// bytes from the start of the stretch on.
pub proof fn lemma_agreements_bounds(old: Seq<u8>, new: Seq<u8>, offset: int, a: int, b: int)
    requires
        a <= b,
        0 <= a + offset,
    ensures
        0 <= agreements(old, new, offset, a, b) <= b - a,
        agreements(old, new, offset, a, b) <= old.len(),
        a + offset <= old.len() ==> agreements(old, new, offset, a, b) <= old.len() - (a + offset),
    decreases b - a,
{
    if a < b {
        lemma_agreements_bounds(old, new, offset, a, b - 1);
    }
}

/// A stretch can be counted in two parts.
pub proof fn lemma_agreements_split(
    old: Seq<u8>,
    new: Seq<u8>,
    offset: int,
    a: int,
    m: int,
    b: int,
)
    requires
        a <= m <= b,
    ensures
        agreements(old, new, offset, a, b) == agreements(old, new, offset, a, m) + agreements(
            old,
            new,
            offset,
            m,
            b,
        ),
    decreases b - m,
{
    if m < b {
        lemma_agreements_split(old, new, offset, a, m, b - 1);
    }
}

/// A stretch can also be counted from its front.
pub proof fn lemma_agreements_front(old: Seq<u8>, new: Seq<u8>, offset: int, a: int, b: int)
    requires
        a < b,
    ensures
        agreements(old, new, offset, a, b) == agreements(old, new, offset, a + 1, b) + if agrees(
            old,
            new,
            offset,
            a,
        ) {
            1int
        } else {
            0int
        },
    decreases b - a,
{
    if a + 1 < b {
        lemma_agreements_front(old, new, offset, a, b - 1);
    } else {
        assert(agreements(old, new, offset, a, a) == 0);
        assert(agreements(old, new, offset, a + 1, b) == 0);
    }
}

/// The best extension forward from `new[lastscan..]`, laid over `old[lastpos..]`, that ends by
/// `scan`.
pub fn extend_forward(
    old: &[u8],
    new: &[u8],
    lastscan: usize,
    lastpos: usize,
    scan: usize,
) -> (lenf: usize)
    requires
        old@.len() <= i32::MAX,
        lastscan <= scan <= new@.len(),
        lastpos <= old@.len(),
    ensures
        lenf == forward_len(
            old@,
            new@,
            lastpos - lastscan,
            lastscan as int,
            if scan - lastscan <= old@.len() - lastpos {
                scan - lastscan
            } else {
                old@.len() - lastpos
            },
        ),
{
    let ghost offset = lastpos - lastscan;
    let mut s: i64 = 0;
    let mut best: i64 = 0;
    let mut lenf: usize = 0;
    let mut i: usize = 0;
    while i < scan - lastscan && i < old.len() - lastpos
        invariant
            old@.len() <= i32::MAX,
            lastscan <= scan <= new@.len(),
            lastpos <= old@.len(),
            offset == lastpos - lastscan,
            lenf <= i <= scan - lastscan,
            i <= old@.len() - lastpos,
            s == agreements(old@, new@, offset, lastscan as int, lastscan + i),
            best == agreements(old@, new@, offset, lastscan as int, lastscan + lenf),
            0 <= best <= s <= i,
            lenf == forward_len(old@, new@, offset, lastscan as int, i as int),
        decreases old@.len() - lastpos - i,
    {
        if old[lastpos + i] == new[lastscan + i] {
            s += 1;
        }
        i += 1;
        if s * 2 - i as i64 > best * 2 - lenf as i64 {
            best = s;
            lenf = i;
        }
    }
    lenf
}

/// The best extension backward from `new[..scan]`, laid over `old[..pos]`, that starts no earlier
/// than `lastscan`.
pub fn extend_backward(
    old: &[u8],
    new: &[u8],
    lastscan: usize,
    scan: usize,
    pos: usize,
) -> (lenb: usize)
    requires
        old@.len() <= i32::MAX,
        lastscan <= scan <= new@.len(),
        pos <= old@.len(),
    ensures
        lenb == backward_len(
            old@,
            new@,
            pos - scan,
            scan as int,
            if scan - lastscan <= pos {
                scan - lastscan
            } else {
                pos as int
            },
        ),
{
    let ghost offset = pos - scan;
    let mut s: i64 = 0;
    let mut best: i64 = 0;
    let mut lenb: usize = 0;
    let mut i: usize = 1;
    while i <= scan - lastscan && i <= pos
        invariant
            old@.len() <= i32::MAX,
            lastscan <= scan <= new@.len(),
            pos <= old@.len(),
            offset == pos - scan,
            lenb < i,
            i - 1 <= scan - lastscan,
            i - 1 <= pos,
            s == agreements(old@, new@, offset, scan - (i - 1), scan as int),
            best == agreements(old@, new@, offset, scan - lenb, scan as int),
            0 <= best <= s < i,
            lenb == backward_len(old@, new@, offset, scan as int, i - 1),
        decreases pos + 1 - i,
    {
        proof {
            lemma_agreements_front(old@, new@, offset, scan - i, scan as int);
        }
        if old[pos - i] == new[scan - i] {
            s += 1;
        }
        if s * 2 - i as i64 > best * 2 - lenb as i64 {
            best = s;
            lenb = i;
        }
        i += 1;
    }
    lenb
}

/// How many of the `overlap` bytes of `new[start..]` are better laid over `old[pos1..]` than over
/// `old[pos2..]`.
pub fn split_overlap(
    old: &[u8],
    new: &[u8],
    start: usize,
    pos1: usize,
    pos2: usize,
    overlap: usize,
) -> (lens: usize)
    requires
        old@.len() <= i32::MAX,
        start + overlap <= new@.len(),
        pos1 + overlap <= old@.len(),
        pos2 + overlap <= old@.len(),
    ensures
        lens == split_len(
            old@,
            new@,
            pos1 - start,
            pos2 - start,
            start as int,
            overlap as int,
        ),
{
    let ghost offset1 = pos1 - start;
    let ghost offset2 = pos2 - start;
    let mut s: i64 = 0;
    let mut best: i64 = 0;
    let mut lens: usize = 0;
    let mut i: usize = 0;
    while i < overlap
        invariant
            old@.len() <= i32::MAX,
            start + overlap <= new.len(),
            pos1 + overlap <= old.len(),
            pos2 + overlap <= old.len(),
            offset1 == pos1 - start,
            offset2 == pos2 - start,
            lens <= i <= overlap,
            s == split_gain(old@, new@, offset1, offset2, start as int, i as int),
            best == split_gain(old@, new@, offset1, offset2, start as int, lens as int),
            -i <= s <= i,
            lens == split_len(old@, new@, offset1, offset2, start as int, i as int),
        decreases overlap - i,
    {
        if new[start + i] == old[pos1 + i] {
            s += 1;
        }
        if new[start + i] == old[pos2 + i] {
            s -= 1;
        }
        i += 1;
        if s > best {
            best = s;
            lens = i;
        }
    }
    lens
}

} // verus!
