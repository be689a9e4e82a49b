use bsdiff::hash::{bits_for, MAX_HASH_BITS, MIN_HASH_BITS};
use bsdiff::{diff, diff_parallel, patch, PatchError};

fn assert_round_trip(old: &[u8], new: &[u8]) {
    let mut patch_bytes = Vec::new();
    diff(old, new, &mut patch_bytes).unwrap();
    let mut patched = Vec::with_capacity(new.len());
    patch(old, &patch_bytes, &mut patched).unwrap();
    assert_eq!(patched, new);

    let mut chunked = Vec::new();
    diff_parallel(old, new, &mut chunked).unwrap();
    let mut patched = Vec::with_capacity(new.len());
    patch(old, &chunked, &mut patched).unwrap();
    assert_eq!(patched, new);
}

#[test]
fn hash_table_scales_with_input() {
    assert_eq!(bits_for(0), MIN_HASH_BITS);
    assert_eq!(bits_for(1 << 14), MIN_HASH_BITS);
    // Load factor ~4: a 4 MiB input gets a 2^20-bucket table.
    assert_eq!(bits_for(4 << 20), 20);
    assert_eq!(bits_for(64 << 20), 24);
    // Capped: table growth stops at 2^25 buckets (128 MiB of i32s).
    assert_eq!(bits_for(256 << 20), MAX_HASH_BITS);
    assert_eq!(bits_for(usize::MAX), MAX_HASH_BITS);
}

#[test]
fn test_round_trip_edge_cases() {
    assert_round_trip(&[], &[]);
    assert_round_trip(&[], b"new data");
    assert_round_trip(b"old data", &[]);
    assert_round_trip(b"aaaaabaaaaacaaaaad", b"aaaaacaaaaabaaaaae");
}

#[test]
fn test_round_trip_large_repetitive_input() {
    let mut old = Vec::with_capacity(96 * 1024);
    for i in 0..96 * 1024 {
        old.push(((i * 37 + i / 3) % 251) as u8);
    }

    let mut new = Vec::with_capacity(old.len() + 1024);
    new.extend_from_slice(&old[..24 * 1024]);
    new.extend((0..512).map(|i| (255 - i % 251) as u8));
    new.extend_from_slice(&old[20 * 1024..64 * 1024]);
    new.extend((0..512).map(|i| (i % 251) as u8));
    new.extend_from_slice(&old[68 * 1024..]);

    assert_round_trip(&old, &new);
}

#[test]
fn test_truncated_patch() {
    let one = vec![1, 2, 3];
    let two = [1, 2, 3, 4];
    let mut buf = Vec::new();

    diff(&one, &two, &mut buf).unwrap();

    let mut patched = Vec::new();
    while buf.len() > 1 {
        buf.pop();
        let error = patch(&one, buf.as_slice(), &mut patched).unwrap_err();
        assert_eq!(error, PatchError::UnexpectedEof);
    }
}
