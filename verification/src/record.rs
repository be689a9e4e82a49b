//! The patch format: a sequence of control records, each one a 24-byte header followed by its
//! data.
//!
//! A record's header holds three 8-byte little-endian fields: the number of mix bytes, the number
//! of copy bytes, and a signed seek. The mix bytes are added to bytes of the old input, the copy
//! bytes are taken as they are, and the seek moves the read position in the old input.
use vstd::bytes::*;
use vstd::prelude::*;

verus! {

/// Size of a record's header in bytes.
pub const HEADER_LEN: usize = 24;

/// The sign bit of a signed field.
pub const SIGN_BIT: u64 = 0x8000_0000_0000_0000;

/// A control record.
#[verifier::ext_equal]
pub struct Record {
    /// Bytes to be added to the old bytes at the read position.
    pub mix: Seq<u8>,
    /// Bytes to be taken as they are.
    pub copy: Seq<u8>,
    /// How far the read position moves after the mix bytes.
    pub seek: int,
}

/// The 64-bit word that stands for the signed number `x`: sign and magnitude, not two's
/// complement.
pub open spec fn signed_word(x: int) -> u64 {
    if x >= 0 {
        x as u64
    } else {
        (SIGN_BIT - x) as u64
    }
}

/// The signed number that the 64-bit word `w` stands for.
pub open spec fn signed_value(w: u64) -> int {
    if w < SIGN_BIT {
        w as int
    } else {
        SIGN_BIT - w
    }
}

/// A record's header: the two lengths and the seek.
pub open spec fn header(mix_len: int, copy_len: int, seek: int) -> Seq<u8> {
    spec_u64_to_le_bytes(mix_len as u64) + spec_u64_to_le_bytes(copy_len as u64)
        + spec_u64_to_le_bytes(signed_word(seek))
}

/// The bytes of a record.
pub open spec fn encode(r: Record) -> Seq<u8> {
    header(r.mix.len() as int, r.copy.len() as int, r.seek) + r.mix + r.copy
}

/// A record that consumes no data and moves the read position by `seek`.
pub open spec fn seek_record(seek: int) -> Record {
    Record { mix: Seq::empty(), copy: Seq::empty(), seek }
}

/// The number that the 8 bytes of `p` from `at` on hold.
pub open spec fn word_at(p: Seq<u8>, at: int) -> u64 {
    spec_u64_from_le_bytes(p.subrange(at, at + 8))
}

/// A signed field read back is the number that was written, for every number whose magnitude fits
/// in 63 bits.
pub proof fn law_signed_field_round_trip(x: int)
    requires
        -SIGN_BIT < x < SIGN_BIT,
    ensures
        signed_value(signed_word(x)) == x,
{
}

/// A length field reads the same as a signed field, for every length that fits in 63 bits.
pub proof fn law_length_is_signed_field(len: int)
    requires
        0 <= len < SIGN_BIT,
    ensures
        signed_word(len) == len,
        signed_value(len as u64) == len,
{
}

/// The fields of a header are those that it was made of, whatever follows it.
pub proof fn lemma_header_fields(mix_len: int, copy_len: int, seek: int, tail: Seq<u8>)
    requires
        0 <= mix_len <= u64::MAX,
        0 <= copy_len <= u64::MAX,
    ensures
        header(mix_len, copy_len, seek).len() == HEADER_LEN,
        word_at(header(mix_len, copy_len, seek) + tail, 0) == mix_len,
        word_at(header(mix_len, copy_len, seek) + tail, 8) == copy_len,
        word_at(header(mix_len, copy_len, seek) + tail, 16) == signed_word(seek),
{
    lemma_auto_spec_u64_to_from_le_bytes();
    let a = spec_u64_to_le_bytes(mix_len as u64);
    let b = spec_u64_to_le_bytes(copy_len as u64);
    let c = spec_u64_to_le_bytes(signed_word(seek));
    let p = header(mix_len, copy_len, seek) + tail;
    assert(p.subrange(0, 8) =~= a);
    assert(p.subrange(8, 16) =~= b);
    assert(p.subrange(16, 24) =~= c);
}

/// Appends the bytes of `src` to `dst`.
pub fn append_slice(dst: &mut Vec<u8>, src: &[u8])
    ensures
        final(dst)@ == old(dst)@ + src@,
{
    dst.extend_from_slice(src);
    assert(dst@ =~= old(dst)@ + src@);
}

/// Appends the length `len` to `buf` as a field.
pub fn lentout(len: usize, buf: &mut Vec<u8>)
    ensures
        final(buf)@ == old(buf)@ + spec_u64_to_le_bytes(len as u64),
{
    let mut bytes = u64_to_le_bytes(len as u64);
    buf.append(&mut bytes);
}

/// Appends the signed number `x` to `buf` as a field.
pub fn offtout(x: isize, buf: &mut Vec<u8>)
    requires
        x > i64::MIN,
    ensures
        final(buf)@ == old(buf)@ + spec_u64_to_le_bytes(signed_word(x as int)),
{
    // so it works on 32-bit platforms
    let x64 = x as i64;
    let word: u64 = if x64 >= 0 {
        x64 as u64
    } else {
        let magnitude: u64 = (-x64) as u64;
        assert(magnitude | (1u64 << 63) == magnitude + 0x8000_0000_0000_0000u64) by (bit_vector)
            requires
                magnitude < 0x8000_0000_0000_0000u64,
        ;
        magnitude | (1u64 << 63)
    };
    let mut bytes = u64_to_le_bytes(word);
    buf.append(&mut bytes);
}

/// Reads the signed field that `buf` holds.
pub fn offtin(buf: &[u8]) -> (x: i64)
    requires
        buf@.len() == 8,
    ensures
        x == signed_value(spec_u64_from_le_bytes(buf@)),
{
    let word = u64_from_le_bytes(buf);
    if word < SIGN_BIT {
        word as i64
    } else {
        -((word - SIGN_BIT) as i64)
    }
}

/// Appends a header to `writer`.
pub fn write_header(mix_len: usize, copy_len: usize, seek: isize, writer: &mut Vec<u8>)
    requires
        seek > i64::MIN,
    ensures
        final(writer)@ == old(writer)@ + header(mix_len as int, copy_len as int, seek as int),
{
    lentout(mix_len, writer);
    lentout(copy_len, writer);
    offtout(seek, writer);
    assert(writer@ =~= old(writer)@ + header(mix_len as int, copy_len as int, seek as int));
}

/// Appends a control record to `writer` that consumes no data and moves the decoder's read
/// position by `seek`.
pub fn write_seek_record(writer: &mut Vec<u8>, seek: isize)
    requires
        seek > i64::MIN,
    ensures
        final(writer)@ == old(writer)@ + encode(seek_record(seek as int)),
{
    write_header(0, 0, seek, writer);
    assert(encode(seek_record(seek as int)) =~= header(0, 0, seek as int));
}

} // verus!
