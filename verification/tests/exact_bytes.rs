use bsdiff::parallel::CHUNK;
use bsdiff::{diff, diff_parallel, patch};

fn fnv(bytes: &[u8]) -> u64 {
    let mut h: u64 = 0xcbf2_9ce4_8422_2325;
    for b in bytes {
        h = (h ^ u64::from(*b)).wrapping_mul(0x100_0000_01b3);
    }
    h
}

fn lcg(seed: u64, n: usize, modulus: u64) -> Vec<u8> {
    let mut x = seed;
    let mut out = Vec::with_capacity(n);
    for _ in 0..n {
        x = x.wrapping_mul(6_364_136_223_846_793_005).wrapping_add(1_442_695_040_888_963_407);
        out.push(((x >> 33) % modulus) as u8);
    }
    out
}

fn make_pair(size: usize) -> (Vec<u8>, Vec<u8>) {
    let mut old = Vec::with_capacity(size);
    for i in 0..size {
        old.push(((i * 37 + i / 3 + (i >> 7) * 11) % 251) as u8);
    }

    let insert_len = (size / 128).clamp(512, 8 * 1024);
    let mut new = Vec::with_capacity(size + insert_len * 2);
    new.extend_from_slice(&old[..size / 4]);
    new.extend((0..insert_len).map(|i| (255 - (i * 13 % 251)) as u8));
    new.extend_from_slice(&old[size / 5..size * 2 / 3]);
    new.extend((0..insert_len).map(|i| ((i * 17 + 3) % 251) as u8));
    new.extend_from_slice(&old[size * 3 / 4..]);

    let edit_step = (new.len() / 64).max(1);
    for i in (insert_len..new.len()).step_by(edit_step) {
        new[i] ^= 0x5a;
    }

    (old, new)
}

fn diff_of(old: &[u8], new: &[u8]) -> Vec<u8> {
    let mut out = Vec::new();
    diff(old, new, &mut out).unwrap();
    out
}

fn parallel_diff_of(old: &[u8], new: &[u8]) -> Vec<u8> {
    let mut out = Vec::new();
    diff_parallel(old, new, &mut out).unwrap();
    out
}

fn assert_patch(old: &[u8], new: &[u8], len: usize, hash: u64) {
    let bytes = diff_of(old, new);
    assert_eq!(bytes.len(), len);
    assert_eq!(fnv(&bytes), hash);
    if new.len() <= CHUNK {
        // One chunk: the index built on several threads leads to the same patch.
        assert_eq!(parallel_diff_of(old, new), bytes);
    }
    let mut patched = Vec::new();
    patch(old, &bytes, &mut patched).unwrap();
    assert_eq!(patched, new);
}

#[test]
fn literal_after_a_mixed_run() {
    assert_eq!(
        diff_of(&[1, 2, 3], &[1, 2, 3, 4]),
        vec![3, 0, 0, 0, 0, 0, 0, 0, 1, 0, 0, 0, 0, 0, 0, 0, 3, 0, 0, 0, 0, 0, 0, 0x80, 0, 0, 0, 4]
    );
    assert_eq!(
        diff_of(b"Hello, world!", b"Hello, Rust!"),
        vec![
            7, 0, 0, 0, 0, 0, 0, 0, 5, 0, 0, 0, 0, 0, 0, 0, 7, 0, 0, 0, 0, 0, 0, 128, 0, 0, 0, 0, 0,
            0, 0, 82, 117, 115, 116, 33
        ]
    );
}

#[test]
fn differences_wrap_around() {
    assert_eq!(
        diff_of(b"aaaaabaaaaacaaaaad", b"aaaaacaaaaabaaaaae"),
        vec![
            17, 0, 0, 0, 0, 0, 0, 0, 1, 0, 0, 0, 0, 0, 0, 0, 17, 0, 0, 0, 0, 0, 0, 128, 0, 0, 0, 0,
            0, 1, 0, 0, 0, 0, 0, 255, 0, 0, 0, 0, 0, 101
        ]
    );
}

#[test]
fn moved_blocks_become_seeks() {
    assert_eq!(
        diff_of(
            b"the quick brown fox jumps over the lazy dog",
            b"over the lazy dog the quick brown fix jumps"
        ),
        vec![
            0, 0, 0, 0, 0, 0, 0, 0, 0, 0, 0, 0, 0, 0, 0, 0, 26, 0, 0, 0, 0, 0, 0, 0, 17, 0, 0, 0, 0,
            0, 0, 0, 1, 0, 0, 0, 0, 0, 0, 0, 43, 0, 0, 0, 0, 0, 0, 128, 0, 0, 0, 0, 0, 0, 0, 0, 0,
            0, 0, 0, 0, 0, 0, 0, 0, 32, 25, 0, 0, 0, 0, 0, 0, 0, 0, 0, 0, 0, 0, 0, 0, 0, 25, 0, 0,
            0, 0, 0, 0, 128, 0, 0, 0, 0, 0, 0, 0, 0, 0, 0, 0, 0, 0, 0, 0, 0, 0, 250, 0, 0, 0, 0, 0,
            0, 0
        ]
    );
}

#[test]
fn of_equally_long_matches_the_last_one_wins() {
    let old = b"abcdefghijkl1abcdefghijkl2abcdefghijkl3";
    let new = b"xxxxabcdefghijklyyyy";
    let expected = vec![
        0, 0, 0, 0, 0, 0, 0, 0, 4, 0, 0, 0, 0, 0, 0, 0, 26, 0, 0, 0, 0, 0, 0, 0, 120, 120, 120, 120,
        12, 0, 0, 0, 0, 0, 0, 0, 4, 0, 0, 0, 0, 0, 0, 0, 38, 0, 0, 0, 0, 0, 0, 128, 0, 0, 0, 0, 0,
        0, 0, 0, 0, 0, 0, 0, 121, 121, 121, 121,
    ];
    assert_eq!(diff_of(old, new), expected);
    // The parallel build scatters in the other order: only the sort brings the last one to front.
    assert_eq!(parallel_diff_of(old, new), expected);
}

#[test]
fn patches_of_repetitive_inputs() {
    assert_patch(&lcg(1, 300, 2), &lcg(101, 400, 2), 544, 0x6de2_0fa6_3c50_a374);
    assert_patch(&lcg(2, 500, 3), &lcg(102, 450, 3), 522, 0x51e0_cf65_22f0_0e5d);
    assert_patch(&lcg(7, 20000, 4), &lcg(107, 3000, 4), 3480, 0xa58e_66a1_e993_b518);
    assert_patch(&lcg(9, 1000, 2), &lcg(109, 1000, 2), 1312, 0xaf98_e503_1507_20e4);
}

#[test]
fn patch_of_scattered_edits() {
    let old = lcg(11, 64, 256);
    let mut new = old.clone();
    for i in (4..new.len()).step_by(5) {
        new[i] = new[i].wrapping_add(1);
    }
    assert_patch(&old, &new, 88, 0x1630_e827_8dd0_e751);
}

#[test]
fn patch_of_overlapping_extensions() {
    let old = lcg(21, 3000, 256);
    let mut new = old[..1000].to_vec();
    new.extend_from_slice(&old[980..2000]);
    new.extend_from_slice(&old[1990..]);
    assert_patch(&old, &new, 3102, 0x2659_b4ac_aca7_b4eb);
}

#[test]
fn patch_of_shuffled_blocks() {
    let old = lcg(5, 40000, 256);
    let mut new = old[10000..30000].to_vec();
    new.extend_from_slice(&old[..15000]);
    new.extend_from_slice(&old[25000..]);
    for i in (0..new.len()).step_by(97) {
        new[i] = new[i].wrapping_add(1);
    }
    assert_patch(&old, &new, 50096, 0x8fec_2379_712f_f5a8);
}

#[test]
fn patch_of_a_synthetic_pair() {
    let (old, new) = make_pair(64 * 1024);
    assert_patch(&old, &new, 64495, 0xfcb6_2567_f77e_586c);
}

#[test]
fn patch_in_several_chunks() {
    let (old, new) = make_pair(320 * 1024);
    assert!(new.len() > CHUNK);
    assert_patch(&old, &new, 322045, 0x5163_1ceb_c270_8d3c);
    let chunked = parallel_diff_of(&old, &new);
    assert_eq!(chunked.len(), 322165);
    assert_eq!(fnv(&chunked), 0x938d_8f94_d4fb_1fad);
    let mut patched = Vec::new();
    patch(&old, &chunked, &mut patched).unwrap();
    assert_eq!(patched, new);
}

#[test]
fn patch_is_appended() {
    let mut out = vec![9, 9];
    diff(b"abc", b"abd", &mut out).unwrap();
    assert_eq!(out[..2], [9, 9]);
    assert_eq!(out[2..], diff_of(b"abc", b"abd"));
    let mut new = vec![7];
    patch(b"abc", &out[2..], &mut new).unwrap();
    assert_eq!(new, b"\x07abd");
}
