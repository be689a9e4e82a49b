//! Scanning the new input and writing the records of the patch.
use crate::extend;
use crate::extend::{extend_backward, extend_forward, split_overlap};
use crate::index;
use crate::index::Matcher;
use crate::matching;
use crate::patch;
use crate::plan;
use crate::plan::MATCH_MARGIN;
use crate::record;
use crate::record::{append_slice, write_header};
use vstd::prelude::*;

verus! {

/// Whether byte `j` of `new` agrees with its counterpart in `old`, where `new[lastscan..]` is laid
/// over `old[lastpos..]`.
fn agrees_at(old: &[u8], new: &[u8], lastscan: usize, lastpos: usize, j: usize) -> (res: bool)
    requires
        lastscan <= j < new@.len(),
        lastpos <= old@.len(),
    ensures
        res == extend::agrees(old@, new@, lastpos - lastscan, j as int),
{
    j - lastscan < old.len() - lastpos && old[lastpos + (j - lastscan)] == new[j]
}

/// How many bytes of `new[a..b]` agree with their counterparts in `old`, where `new[lastscan..]`
/// is laid over `old[lastpos..]`.
fn count_agreeing(
    old: &[u8],
    new: &[u8],
    lastscan: usize,
    lastpos: usize,
    a: usize,
    b: usize,
) -> (n: i64)
    requires
        old@.len() <= i32::MAX,
        lastscan <= a <= b <= new@.len(),
        lastpos <= old@.len(),
    ensures
        n == extend::agreements(old@, new@, lastpos - lastscan, a as int, b as int),
{
    let ghost offset = lastpos - lastscan;
    let mut n: i64 = 0;
    let mut j: usize = a;
    while j < b
        invariant
            old@.len() <= i32::MAX,
            lastscan <= a <= j <= b <= new@.len(),
            lastpos <= old@.len(),
            offset == lastpos - lastscan,
            n == extend::agreements(old@, new@, offset, a as int, j as int),
        decreases b - j,
    {
        proof {
            extend::lemma_agreements_bounds(old@, new@, offset, a as int, j as int);
        }
        if agrees_at(old, new, lastscan, lastpos, j) {
            n += 1;
        }
        j += 1;
    }
    n
}

/// Where a scan stops.
pub struct Stop {
    /// The place in the new input.
    pub scan: usize,
    /// The position in the old input of the match found there.
    pub pos: usize,
    /// The length of that match.
    pub len: usize,
    /// Whether the record in progress ends there.
    pub closes: bool,
}

/// Scans `new` from `scan + len` on for the next stop. The record in progress started at
/// `lastscan` in `new` and at `lastpos` in `old`; the last match found is `(pos, len)`.
pub fn find_stop(
    old: &[u8],
    new: &[u8],
    matcher: &Matcher,
    scan: usize,
    pos: usize,
    len: usize,
    lastscan: usize,
    lastpos: usize,
) -> (stop: Stop)
    requires
        matcher@ == index::table_of(old@),
        (plan::Cursor {
            scan: scan as int,
            len: len as int,
            pos: pos as int,
            lastscan: lastscan as int,
            lastpos: lastpos as int,
        }).valid(old@, new@),
        scan < new@.len(),
    ensures
        ({
            let c = plan::Cursor {
                scan: scan as int,
                len: len as int,
                pos: pos as int,
                lastscan: lastscan as int,
                lastpos: lastpos as int,
            };
            &&& stop.scan == plan::advance(old@, new@, c).scan
            &&& stop.pos == plan::advance(old@, new@, c).pos
            &&& stop.len == plan::advance(old@, new@, c).len
            &&& stop.closes == plan::closes(old@, new@, c)
        }),
{
    let ghost c = plan::Cursor {
        scan: scan as int,
        len: len as int,
        pos: pos as int,
        lastscan: lastscan as int,
        lastpos: lastpos as int,
    };
    let ghost offset = c.offset();
    assert(scan + len <= new.len());
    let from: usize = scan + len;
    let mut stop_pos: usize = pos;
    let mut stop_len: usize = len;
    let mut at: usize = from;
    // The current alignment's agreeing bytes are counted up to here.
    let mut scsc: usize = from;
    // Those before `at` are taken off. This drops below zero for a moment where no match is found
    // at a place that agrees under the current alignment: it is taken off before it is counted.
    let mut oldscore: i64 = 0;
    let mut found: bool = false;
    while at < new.len()
        invariant_except_break
            scsc == plan::reach(old@, new@, from as int, at - 1),
            from <= scsc <= new@.len(),
            oldscore == extend::agreements(old@, new@, offset, from as int, scsc as int)
                - extend::agreements(old@, new@, offset, from as int, at as int),
            plan::stop_of(old@, new@, c) == plan::next_stop(
                old@,
                new@,
                offset,
                from as int,
                at as int,
            ),
            at == from ==> stop_pos == c.pos && stop_len == c.len,
            at > from && at == new@.len() ==> stop_pos == 0 && stop_len == 0,
            !found,
        invariant
            matcher@ == index::table_of(old@),
            c.valid(old@, new@),
            c.lastscan == lastscan,
            c.lastpos == lastpos,
            c.resume() == from,
            offset == c.offset(),
            offset == lastpos - lastscan,
            lastscan <= from <= at <= new@.len(),
        ensures
            at == plan::stop_of(old@, new@, c),
            found == (at < new@.len()),
            at == new@.len() && from == new@.len() ==> stop_pos == c.pos && stop_len == c.len,
            at == new@.len() && from < new@.len() ==> stop_pos == 0 && stop_len == 0,
            found ==> {
                &&& (stop_pos as int, stop_len as int) == matching::found_match(
                    old@,
                    new@,
                    at as int,
                )
                &&& oldscore == plan::score(old@, new@, offset, from as int, at as int)
            },
        decreases new@.len() - at,
    {
        let (p, l) = matcher.longest_match(old, new, at);
        stop_pos = p;
        stop_len = l;
        if scsc < at + l {
            proof {
                extend::lemma_agreements_bounds(old@, new@, offset, from as int, scsc as int);
                extend::lemma_agreements_bounds(old@, new@, offset, from as int, at as int);
                extend::lemma_agreements_split(
                    old@,
                    new@,
                    offset,
                    from as int,
                    scsc as int,
                    at + l,
                );
                extend::lemma_agreements_bounds(old@, new@, offset, from as int, at + l);
            }
            oldscore += count_agreeing(old, new, lastscan, lastpos, scsc, at + l);
            scsc = at + l;
        }
        proof {
            extend::lemma_agreements_bounds(old@, new@, offset, from as int, scsc as int);
            extend::lemma_agreements_bounds(old@, new@, offset, from as int, at as int);
            assert(scsc == plan::reach(old@, new@, from as int, at as int));
            extend::lemma_agreements_split(
                old@,
                new@,
                offset,
                from as int,
                at as int,
                scsc as int,
            );
        }
        if l as i64 == oldscore && l != 0 || l as i64 > oldscore + MATCH_MARGIN {
            found = true;
            break;
        }
        if agrees_at(old, new, lastscan, lastpos, at) {
            oldscore -= 1;
        }
        at += 1;
    }
    proof {
        plan::lemma_advance(old@, new@, c);
    }
    let closes: bool = at == new.len() || stop_len as i64 != oldscore;
    Stop { scan: at, pos: stop_pos, len: stop_len, closes }
}

/// How far the record in progress is extended forward and the match at the stop backward.
pub fn find_cut(
    old: &[u8],
    new: &[u8],
    scan: usize,
    pos: usize,
    len: usize,
    lastscan: usize,
    lastpos: usize,
) -> (res: (usize, usize))
    requires
        old@.len() <= i32::MAX,
        lastscan <= scan <= new@.len(),
        lastpos <= old@.len(),
        pos <= old@.len(),
    ensures
        (res.0 as int, res.1 as int) == plan::cut(
            old@,
            new@,
            plan::Cursor {
                scan: scan as int,
                len: len as int,
                pos: pos as int,
                lastscan: lastscan as int,
                lastpos: lastpos as int,
            },
        ),
{
    let ghost c = plan::Cursor {
        scan: scan as int,
        len: len as int,
        pos: pos as int,
        lastscan: lastscan as int,
        lastpos: lastpos as int,
    };
    proof {
        plan::lemma_cut(old@, new@, c);
    }
    let lenf = extend_forward(old, new, lastscan, lastpos, scan);
    let lenb = if scan < new.len() {
        extend_backward(old, new, lastscan, scan, pos)
    } else {
        0
    };
    assert((lenf as int, lenb as int) == plan::extensions(old@, new@, c));
    if lastscan + lenf > scan - lenb {
        let start: usize = scan - lenb;
        let overlap: usize = lastscan + lenf - start;
        let lens = split_overlap(
            old,
            new,
            start,
            lastpos + lenf - overlap,
            pos - lenb,
            overlap,
        );
        (lenf + lens - overlap, lenb - lens)
    } else {
        (lenf, lenb)
    }
}

/// Appends the differences between `new_bytes[lastscan..]` and `old_bytes[lastpos..]` over `n`
/// bytes to `writer`.
fn write_differences(
    old_bytes: &[u8],
    new_bytes: &[u8],
    lastscan: usize,
    lastpos: usize,
    n: usize,
    writer: &mut Vec<u8>,
)
    requires
        lastscan + n <= new_bytes@.len(),
        lastpos + n <= old_bytes@.len(),
    ensures
        final(writer)@ == old(writer)@ + plan::differences(
            old_bytes@,
            new_bytes@,
            lastscan as int,
            lastpos as int,
            n as int,
        ),
{
    let ghost all = plan::differences(
        old_bytes@,
        new_bytes@,
        lastscan as int,
        lastpos as int,
        n as int,
    );
    let mut i: usize = 0;
    assert(writer@ =~= old(writer)@ + all.take(0));
    while i < n
        invariant
            i <= n,
            lastscan + n <= new_bytes.len(),
            lastpos + n <= old_bytes.len(),
            all == plan::differences(
                old_bytes@,
                new_bytes@,
                lastscan as int,
                lastpos as int,
                n as int,
            ),
            writer@ == old(writer)@ + all.take(i as int),
        decreases n - i,
    {
        writer.push(new_bytes[lastscan + i].wrapping_sub(old_bytes[lastpos + i]));
        assert(writer@ =~= old(writer)@ + all.take(i + 1));
        i += 1;
    }
    assert(all.take(n as int) =~= all);
}

/// Closes the record in progress at a stop: appends it to `writer` and returns how far the record
/// is extended forward and the match at the stop backward.
fn write_record(
    old_bytes: &[u8],
    new_bytes: &[u8],
    scan: usize,
    pos: usize,
    len: usize,
    lastscan: usize,
    lastpos: usize,
    writer: &mut Vec<u8>,
) -> (res: (usize, usize))
    requires
        old_bytes@.len() <= i32::MAX,
        lastscan <= scan <= new_bytes@.len(),
        lastpos <= old_bytes@.len(),
        pos <= old_bytes@.len(),
    ensures
        ({
            let c = plan::Cursor {
                scan: scan as int,
                len: len as int,
                pos: pos as int,
                lastscan: lastscan as int,
                lastpos: lastpos as int,
            };
            &&& (res.0 as int, res.1 as int) == plan::cut(old_bytes@, new_bytes@, c)
            &&& final(writer)@ == old(writer)@ + record::encode(
                plan::closed_record(old_bytes@, new_bytes@, c),
            )
        }),
{
    let ghost c = plan::Cursor {
        scan: scan as int,
        len: len as int,
        pos: pos as int,
        lastscan: lastscan as int,
        lastpos: lastpos as int,
    };
    proof {
        plan::lemma_cut(old_bytes@, new_bytes@, c);
    }
    let (lenf, lenb) = find_cut(old_bytes, new_bytes, scan, pos, len, lastscan, lastpos);
    let seek: isize = (pos - lenb) as isize - (lastpos + lenf) as isize;
    let copy_start: usize = lastscan + lenf;
    let copy_end: usize = scan - lenb;
    write_header(lenf, copy_end - copy_start, seek, writer);
    write_differences(old_bytes, new_bytes, lastscan, lastpos, lenf, writer);
    append_slice(writer, &new_bytes[copy_start..copy_end]);
    assert(writer@ =~= old(writer)@ + record::encode(
        plan::closed_record(old_bytes@, new_bytes@, c),
    ));
    (lenf, lenb)
}

/// Diffs the whole of `new_bytes` against `old_bytes` and appends the resulting patch records to
/// `writer`.
///
/// The records are self-contained: applying them with a decoder whose read position starts at 0
/// reproduces `new_bytes` exactly. The return value is the decoder's read position *after* the
/// last record (still assuming it started at 0). That value is what the parallel stitcher uses to
/// emit a "seek back to 0" record between independently diffed chunks.
#[verifier::rlimit(30)]
pub fn diff_scan(
    old_bytes: &[u8],
    new_bytes: &[u8],
    matcher: &Matcher,
    writer: &mut Vec<u8>,
) -> (decoder_oldpos: i64)
    requires
        old_bytes@.len() <= i32::MAX,
        matcher@ == index::table_of(old_bytes@),
    ensures
        final(writer)@ == old(writer)@ + plan::patch_of(old_bytes@, new_bytes@),
        decoder_oldpos == plan::end_of_patch(old_bytes@, new_bytes@),
        patch::apply(old_bytes@, plan::patch_of(old_bytes@, new_bytes@), 0) == Ok::<
            (Seq<u8>, int),
            patch::PatchError,
        >((new_bytes@, decoder_oldpos as int)),
{
    // Tracks the decoder's read position as records are emitted, starting from 0.
    let mut decoder_oldpos: i64 = 0;
    let mut scan: usize = 0;
    let mut len: usize = 0;
    let mut pos: usize = 0;
    let mut lastscan: usize = 0;
    let mut lastpos: usize = 0;
    let ghost whole = plan::rest_of_patch(old_bytes@, new_bytes@, plan::Cursor::start());
    let ghost mut c = plan::Cursor::start();
    let ghost mut done: Seq<u8> = Seq::empty();
    assert(done + whole.0 =~= whole.0);
    while scan < new_bytes.len()
        invariant
            old_bytes@.len() <= i32::MAX,
            matcher@ == index::table_of(old_bytes@),
            c == (plan::Cursor {
                scan: scan as int,
                len: len as int,
                pos: pos as int,
                lastscan: lastscan as int,
                lastpos: lastpos as int,
            }),
            c.valid(old_bytes@, new_bytes@),
            decoder_oldpos == lastpos,
            writer@ == old(writer)@ + done,
            done + plan::rest_of_patch(old_bytes@, new_bytes@, c).0 == whole.0,
            plan::rest_of_patch(old_bytes@, new_bytes@, c).1 == whole.1,
        decreases c.left(new_bytes@),
    {
        let ghost c0 = c;
        let ghost stop_c = plan::advance(old_bytes@, new_bytes@, c0);
        proof {
            plan::lemma_advance(old_bytes@, new_bytes@, c0);
            plan::lemma_cut(old_bytes@, new_bytes@, stop_c);
        }
        let stop = find_stop(
            old_bytes,
            new_bytes,
            matcher,
            scan,
            pos,
            len,
            lastscan,
            lastpos,
        );
        scan = stop.scan;
        pos = stop.pos;
        len = stop.len;
        proof {
            c = stop_c;
        }
        if stop.closes {
            let (lenf, lenb) = write_record(
                old_bytes,
                new_bytes,
                scan,
                pos,
                len,
                lastscan,
                lastpos,
                writer,
            );
            let seek: isize = (pos - lenb) as isize - (lastpos + lenf) as isize;
            // Mirror the decoder's read position for this record: past the mix bytes, then seek.
            decoder_oldpos = decoder_oldpos + lenf as i64 + seek as i64;
            lastscan = scan - lenb;
            lastpos = pos - lenb;
            proof {
                c = plan::next_record(old_bytes@, new_bytes@, stop_c);
                let rec = record::encode(plan::closed_record(old_bytes@, new_bytes@, stop_c));
                let rest = plan::rest_of_patch(old_bytes@, new_bytes@, c);
                assert(done + (rec + rest.0) =~= (done + rec) + rest.0);
                done = done + rec;
                assert(writer@ =~= old(writer)@ + done);
            }
        }
    }
    proof {
        assert(done + Seq::<u8>::empty() =~= done);
        plan::law_round_trip(old_bytes@, new_bytes@);
    }
    decoder_oldpos
}

} // verus!
