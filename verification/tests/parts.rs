use bsdiff::extend::{extend_backward, extend_forward, split_overlap};
use bsdiff::hash::{bucket_count, hash8};
use bsdiff::index::Matcher;
use bsdiff::matching::{matchlen, MAX_CHAIN};
use bsdiff::par_index::{all_bucket_ids, build_index_parallel, sort_buckets, LEAF_BUCKETS};
use bsdiff::parallel::{chunk_ranges, descending, CHUNK};
use bsdiff::record::{lentout, offtin, offtout, write_seek_record};
use bsdiff::scan::{diff_scan, find_cut, find_stop};
use bsdiff::{diff, diff_parallel, patch, DiffError, PatchError};
use std::cmp::Ordering;

fn header(mix: u64, copy: u64, seek: u64) -> Vec<u8> {
    let mut out = mix.to_le_bytes().to_vec();
    out.extend_from_slice(&copy.to_le_bytes());
    out.extend_from_slice(&seek.to_le_bytes());
    out
}

#[test]
fn signed_fields() {
    for (x, bytes) in [
        (0isize, [0u8, 0, 0, 0, 0, 0, 0, 0]),
        (258, [2, 1, 0, 0, 0, 0, 0, 0]),
        (-1, [1, 0, 0, 0, 0, 0, 0, 0x80]),
        (-258, [2, 1, 0, 0, 0, 0, 0, 0x80]),
        (i32::MAX as isize, [0xff, 0xff, 0xff, 0x7f, 0, 0, 0, 0]),
    ] {
        let mut buf = Vec::new();
        offtout(x, &mut buf);
        assert_eq!(buf, bytes);
        assert_eq!(offtin(&buf), x as i64);
    }
    let mut buf = Vec::new();
    lentout(258, &mut buf);
    assert_eq!(buf, [2, 1, 0, 0, 0, 0, 0, 0]);
}

#[test]
fn seek_record_moves_the_read_position() {
    let mut p = Vec::new();
    write_seek_record(&mut p, 2);
    assert_eq!(p, header(0, 0, 2));
    write_seek_record(&mut p, -1);
    p.extend_from_slice(&header(2, 0, 0));
    p.extend_from_slice(&[0, 1]);
    let mut new = Vec::new();
    patch(b"abcd", &p, &mut new).unwrap();
    assert_eq!(new, b"bd");
}

#[test]
fn patch_errors() {
    let mut new = vec![1];
    // A record that reads past the old input, and one before its start.
    let mut p = header(2, 0, 0);
    p.extend_from_slice(&[0, 0]);
    assert_eq!(patch(b"a", &p, &mut new), Err(PatchError::InvalidData));
    let mut p = header(0, 1, (1 << 63) | 1);
    p.push(b'z');
    assert_eq!(patch(b"a", &p, &mut Vec::new()), Ok(()));
    p.extend_from_slice(&header(0, 0, 0));
    assert_eq!(patch(b"a", &p, &mut new), Err(PatchError::InvalidData));
    // Lengths that no patch can have.
    let p = header(u64::MAX, u64::MAX, 0);
    assert_eq!(patch(b"a", &p, &mut new), Err(PatchError::UnexpectedEof));
    assert_eq!(patch(b"a", &[0; 23], &mut new), Err(PatchError::UnexpectedEof));
    assert_eq!(new, vec![1]);
}

#[test]
fn oversized_old_input_is_turned_away() {
    let old = vec![0u8; i32::MAX as usize + 1];
    let mut out = vec![5];
    assert_eq!(diff(&old, b"new", &mut out), Err(DiffError::InvalidInput));
    assert_eq!(diff_parallel(&old, b"new", &mut out), Err(DiffError::InvalidInput));
    assert_eq!(out, vec![5]);
    assert_eq!(
        DiffError::InvalidInput.message(),
        "bsdiff: `old` inputs larger than 2 GiB are not supported"
    );
}

#[test]
fn truncated_patches_yield_prefixes() {
    let old = b"the quick brown fox jumps over the lazy dog";
    let new = b"over the lazy dog the quick brown fix jumps";
    let mut p = Vec::new();
    diff(old, new, &mut p).unwrap();
    let mut whole = 0;
    for k in 0..=p.len() {
        let mut out = Vec::new();
        match patch(old, &p[..k], &mut out) {
            Ok(()) => {
                whole += 1;
                assert!(new.starts_with(&out));
            }
            Err(e) => assert_eq!(e, PatchError::UnexpectedEof),
        }
    }
    // Nothing, and the ends of the three records.
    assert_eq!(whole, 4);
}

#[test]
fn anchors_and_buckets() {
    assert_eq!(hash8(b"abcdefgh", 12), 2889);
    assert_eq!(hash8(b"abcdefghZZZ", 25), 23672656);
    assert_eq!(hash8(&[1, 2, 3, 4, 5, 6, 7, 8], 20), 157219);
    assert_eq!(bucket_count(12), 4096);
    assert_eq!(bucket_count(25), 1 << 25);
    assert_eq!(matchlen(b"abcX", b"abcY"), 3);
    assert_eq!(matchlen(b"abc", b"abcd"), 3);
    assert_eq!(matchlen(b"", b"abcd"), 0);
}

#[test]
fn lookups() {
    let old = b"abcdefgh1abcdefghi2abcdefgh3";
    let m = Matcher::build(old);
    assert_eq!(m.longest_match(old, b"abcdefghi", 0), (9, 9));
    assert_eq!(m.longest_match(old, b"--abcdefgh", 2), (19, 8));
    assert_eq!(m.longest_match(old, b"--abcdefgh", 3), (0, 0));
    assert_eq!(m.longest_match(old, b"ABCDEFGH", 0), (0, 0));
    assert_eq!(m.longest_match(old, b"abcdefgh", 9), (0, 0));
    let short = Matcher::build(b"abc");
    assert_eq!(short.longest_match(b"abc", b"abcabcabc", 0), (0, 0));
}

#[test]
fn anchors_that_only_share_a_bucket_do_not_match() {
    let old = [0, 0, 0, 0, 0, 0, 0x37, 0xDB];
    let new = [0u8; 8];
    assert_eq!(hash8(&old, 12), hash8(&new, 12));
    for m in [Matcher::build(&old), Matcher::build_parallel(&old)] {
        assert_eq!(m.longest_match(&old, &new, 0), (0, 0));
        assert_eq!(m.longest_match(&old, &old, 0), (0, 8));
    }
    let mut p = Vec::new();
    diff(&old, &new, &mut p).unwrap();
    let mut expected = header(6, 2, (1 << 63) | 6);
    expected.extend_from_slice(&[0; 8]);
    assert_eq!(p, expected);
}

#[test]
fn smaller_tables_use_the_leading_bits() {
    for bytes in [*b"abcdefgh", [0xff; 8], [1, 2, 3, 4, 5, 6, 7, 8]] {
        for k in 1..=usize::BITS {
            for j in 1..=k {
                assert_eq!(hash8(&bytes, j), hash8(&bytes, k) >> (k - j));
            }
        }
    }
}

#[test]
fn lookups_are_capped() {
    // The longest match is at the lowest position, behind more than the cap of others.
    let mut old = b"ANCHOR!!tail-of-first".to_vec();
    for i in 0..40u8 {
        old.extend_from_slice(b"ANCHOR!!");
        old.push(48 + i);
    }
    let m = Matcher::build(&old);
    assert!(MAX_CHAIN < 40);
    assert_eq!(m.longest_match(&old, b"ANCHOR!!tail-of-first", 0), (372, 8));
}

#[test]
fn serial_and_parallel_indexes_are_identical() {
    for n in [0usize, 5, 8, 1000, 70_000, CHUNK + 5000] {
        let old: Vec<u8> = (0..n).map(|i| ((i * i / 7 + i / 300) % 5) as u8).collect();
        let m = if n >= 8 { n - 7 } else { 0 };
        for bits in [12u32, 14] {
            let serial = Matcher::build_index(&old, m, bits);
            assert_eq!(build_index_parallel(&old, m, bits), serial);
            let (offsets, positions) = serial;
            assert_eq!(offsets.len(), (1 << bits) + 1);
            assert_eq!(positions.len(), m);
            for b in 0..1usize << bits {
                let slice = &positions[offsets[b] as usize..offsets[b + 1] as usize];
                for w in slice.windows(2) {
                    assert!(w[0] > w[1]);
                }
                for p in slice {
                    assert_eq!(hash8(&old[*p as usize..], bits), b);
                }
            }
        }
        let ids = all_bucket_ids(&old, m, 13);
        assert_eq!(ids.len(), m);
        for (i, b) in ids.iter().enumerate() {
            assert_eq!(hash8(&old[i..], 13), *b as usize);
        }
    }
}

#[test]
fn buckets_are_sorted_descending() {
    let nb = 3 * LEAF_BUCKETS;
    let offsets: Vec<u32> = (0..=nb as u32).map(|b| b * 3).collect();
    let positions: Vec<i32> = (0..nb as i32).flat_map(|b| [b, b + 7, b - 7]).collect();
    let sorted = sort_buckets(&offsets, 0, nb, positions);
    let expected: Vec<i32> = (0..nb as i32).flat_map(|b| [b + 7, b, b - 7]).collect();
    assert_eq!(sorted, expected);
    assert_eq!(descending(&2, &1), Ordering::Less);
    assert_eq!(descending(&1, &1), Ordering::Equal);
    assert_eq!(descending(&1, &2), Ordering::Greater);
}

#[test]
fn chunks() {
    assert_eq!(chunk_ranges(0), vec![]);
    assert_eq!(chunk_ranges(1), vec![(0, 1)]);
    assert_eq!(chunk_ranges(CHUNK), vec![(0, CHUNK)]);
    assert_eq!(
        chunk_ranges(2 * CHUNK + 1),
        vec![(0, CHUNK), (CHUNK, 2 * CHUNK), (2 * CHUNK, 2 * CHUNK + 1)]
    );
}

#[test]
fn extensions() {
    // Three agreeing bytes, one disagreeing, one agreeing: the shortest best stops at three.
    assert_eq!(extend_forward(b"abcde", b"abcXe", 0, 0, 5), 3);
    assert_eq!(extend_forward(b"abcdefg", b"abcXefg", 0, 0, 7), 7);
    assert_eq!(extend_forward(b"abc", b"abcdef", 0, 0, 6), 3);
    assert_eq!(extend_backward(b"abcde", b"aXcde", 0, 5, 5), 3);
    assert_eq!(extend_backward(b"abcde", b"zzcde", 0, 5, 5), 3);
    assert_eq!(extend_backward(b"bcde", b"abcde", 0, 5, 4), 4);
    // The first two bytes agree at the earlier place, the last two at the later one.
    assert_eq!(split_overlap(b"ab--__cd", b"abcd", 0, 0, 4, 4), 2);
    assert_eq!(split_overlap(b"zzzzabcd", b"abcd", 0, 0, 4, 4), 0);
}

#[test]
fn stops_and_cuts() {
    let old = b"abcdefghijklmnop";
    let new = b"zzabcdefghijklmnopyy";
    let m = Matcher::build(old);
    let stop = find_stop(old, new, &m, 0, 0, 0, 0, 0);
    assert_eq!((stop.scan, stop.pos, stop.len, stop.closes), (2, 0, 16, true));
    assert_eq!(find_cut(old, new, 2, 0, 16, 0, 0), (0, 0));
    // The match confirms the current alignment: the record goes on.
    let stop = find_stop(old, old, &m, 0, 0, 0, 0, 0);
    assert_eq!((stop.scan, stop.pos, stop.len, stop.closes), (0, 0, 16, false));
    let stop = find_stop(old, old, &m, 0, 0, 16, 0, 0);
    assert_eq!((stop.scan, stop.pos, stop.len, stop.closes), (16, 0, 16, true));
}

#[test]
fn scan_reports_the_final_read_position() {
    let old = b"abcdefghijklmnop0123456789";
    let m = Matcher::build(old);
    let mut p = Vec::new();
    let end = diff_scan(old, b"0123456789abcdefghijklmnop", &m, &mut p);
    // Let the decoder go on from there.
    write_seek_record(&mut p, -(end as isize));
    p.extend_from_slice(&header(3, 0, 0));
    p.extend_from_slice(&[0, 0, 0]);
    let mut new = Vec::new();
    patch(old, &p, &mut new).unwrap();
    assert_eq!(new, b"0123456789abcdefghijklmnopabc");
}
