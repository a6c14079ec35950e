//! Binary vocabulary format.
//!
//! Format (little-endian):
//! - Magic bytes: "WPVC" (4 bytes)
//! - Version: u8 (1 byte)
//! - Vocab size: u64 (8 bytes)
//! - Tokens: [length: u64, bytes: [u8; length]]... (UTF-8 bytes)
//! - Checksum: u32 (4 bytes, CRC32 of all preceding bytes)

use vstd::prelude::*;
use vstd::utf8::encode_utf8;
use crate::pre_tokenize::concat_all;
use crate::vocab::Vocab;

verus! {

/// Current format version.
pub const VERSION: u8 = 1;

/// "WordPiece Vocabulary": the magic bytes "WPVC" that open a binary
/// vocabulary file.
pub open spec fn spec_magic() -> Seq<u8> {
    seq![0x57u8, 0x50u8, 0x56u8, 0x43u8]
}

/// One step of the bitwise CRC32 (IEEE, reflected polynomial 0xEDB88320).
pub open spec fn crc_bit(c: u32) -> u32 {
    if c & 1 != 0 {
        (c >> 1) ^ 0xEDB88320u32
    } else {
        c >> 1
    }
}

/// `k` bitwise steps.
pub open spec fn crc_bits(c: u32, k: nat) -> u32
    decreases k,
{
    if k == 0 {
        c
    } else {
        crc_bits(crc_bit(c), (k - 1) as nat)
    }
}

/// The CRC register after one more byte.
pub open spec fn crc_update(c: u32, b: u8) -> u32 {
    crc_bits(c ^ (b as u32), 8)
}

/// The CRC register after the bytes `data`, starting from `init`.
pub open spec fn crc_fold(init: u32, data: Seq<u8>) -> u32
    decreases data.len(),
{
    if data.len() == 0 {
        init
    } else {
        crc_update(crc_fold(init, data.drop_last()), data.last())
    }
}

/// The CRC32 (IEEE) checksum of `data`.
pub open spec fn spec_crc32(data: Seq<u8>) -> u32 {
    !crc_fold(0xFFFF_FFFFu32, data)
}

/// Little-endian bytes of a `u64`.
pub open spec fn le_u64(x: u64) -> Seq<u8> {
    seq![
        x as u8,
        (x >> 8u64) as u8,
        (x >> 16u64) as u8,
        (x >> 24u64) as u8,
        (x >> 32u64) as u8,
        (x >> 40u64) as u8,
        (x >> 48u64) as u8,
        (x >> 56u64) as u8,
    ]
}

/// Little-endian bytes of a `u32`.
pub open spec fn le_u32(x: u32) -> Seq<u8> {
    seq![x as u8, (x >> 8u32) as u8, (x >> 16u32) as u8, (x >> 24u32) as u8]
}

/// The record of one token: its UTF-8 length, then its UTF-8 bytes.
pub open spec fn token_record(t: Seq<char>) -> Seq<u8> {
    le_u64(encode_utf8(t).len() as u64) + encode_utf8(t)
}

/// Everything before the checksum.
pub open spec fn binary_body(toks: Seq<Seq<char>>) -> Seq<u8> {
    spec_magic() + seq![VERSION] + le_u64(toks.len() as u64) + concat_all(
        toks.map_values(|t: Seq<char>| token_record(t)),
    )
}

/// The bytes of a binary vocabulary file: the body, then its CRC32.
pub open spec fn spec_vocab_binary(toks: Seq<Seq<char>>) -> Seq<u8> {
    binary_body(toks) + le_u32(spec_crc32(binary_body(toks)))
}

/// The number that the bytes `s` from position `i` on stand for, read
/// little-endian: `s[i] + 256 * s[i + 1] + 256^2 * s[i + 2] + ...`.
pub open spec fn le_value_from(s: Seq<u8>, i: int) -> int
    decreases s.len() - i,
{
    if i < 0 || i >= s.len() {
        0
    } else {
        s[i] + 256 * le_value_from(s, i + 1)
    }
}

/// The number that the bytes `s` stand for, read little-endian.
pub open spec fn le_value(s: Seq<u8>) -> int {
    le_value_from(s, 0)
}

/// The eight bytes written for a `u64` read back, little-endian, as that
/// number; the four written for a `u32` likewise.
pub proof fn lemma_le_roundtrip(x: u64, y: u32)
    ensures
        le_u64(x).len() == 8,
        le_value(le_u64(x)) == x,
        le_u32(y).len() == 4,
        le_value(le_u32(y)) == y,
{
    let b = le_u64(x);
    assert(x == (x as u8) as u64 + 256 * (x >> 8u64)) by (bit_vector);
    assert((x >> 8u64) == ((x >> 8u64) as u8) as u64 + 256 * (x >> 16u64)) by (bit_vector);
    assert((x >> 16u64) == ((x >> 16u64) as u8) as u64 + 256 * (x >> 24u64)) by (bit_vector);
    assert((x >> 24u64) == ((x >> 24u64) as u8) as u64 + 256 * (x >> 32u64)) by (bit_vector);
    assert((x >> 32u64) == ((x >> 32u64) as u8) as u64 + 256 * (x >> 40u64)) by (bit_vector);
    assert((x >> 40u64) == ((x >> 40u64) as u8) as u64 + 256 * (x >> 48u64)) by (bit_vector);
    assert((x >> 48u64) == ((x >> 48u64) as u8) as u64 + 256 * (x >> 56u64)) by (bit_vector);
    assert((x >> 56u64) == ((x >> 56u64) as u8) as u64) by (bit_vector);
    assert(le_value_from(b, 8) == 0);
    assert(le_value_from(b, 7) == (x >> 56u64));
    assert(le_value_from(b, 6) == (x >> 48u64));
    assert(le_value_from(b, 5) == (x >> 40u64));
    assert(le_value_from(b, 4) == (x >> 32u64));
    assert(le_value_from(b, 3) == (x >> 24u64));
    assert(le_value_from(b, 2) == (x >> 16u64));
    assert(le_value_from(b, 1) == (x >> 8u64));
    assert(le_value_from(b, 0) == x);
    let c = le_u32(y);
    assert(y == (y as u8) as u32 + 256 * (y >> 8u32)) by (bit_vector);
    assert((y >> 8u32) == ((y >> 8u32) as u8) as u32 + 256 * (y >> 16u32)) by (bit_vector);
    assert((y >> 16u32) == ((y >> 16u32) as u8) as u32 + 256 * (y >> 24u32)) by (bit_vector);
    assert((y >> 24u32) == ((y >> 24u32) as u8) as u32) by (bit_vector);
    assert(le_value_from(c, 4) == 0);
    assert(le_value_from(c, 3) == (y >> 24u32));
    assert(le_value_from(c, 2) == (y >> 16u32));
    assert(le_value_from(c, 1) == (y >> 8u32));
    assert(le_value_from(c, 0) == y);
}

/// Layout of the binary format: the file opens with the magic bytes and
/// the version, then the vocabulary size; its last four bytes are the
/// little-endian CRC32 of all the bytes before them. Read back as
/// little-endian numbers, bytes 5 to 12 give the number of tokens and the
/// last four bytes the checksum.
pub proof fn lemma_binary_layout(toks: Seq<Seq<char>>)
    ensures
        spec_vocab_binary(toks).len() >= 17,
        spec_vocab_binary(toks).take(4) == spec_magic(),
        spec_vocab_binary(toks)[4] == VERSION,
        spec_vocab_binary(toks).subrange(5, 13) == le_u64(toks.len() as u64),
        spec_vocab_binary(toks).skip(spec_vocab_binary(toks).len() - 4) == le_u32(
            spec_crc32(spec_vocab_binary(toks).take(spec_vocab_binary(toks).len() - 4)),
        ),
        toks.len() <= u64::MAX ==> le_value(spec_vocab_binary(toks).subrange(5, 13)) == toks.len(),
        le_value(spec_vocab_binary(toks).skip(spec_vocab_binary(toks).len() - 4)) == spec_crc32(
            spec_vocab_binary(toks).take(spec_vocab_binary(toks).len() - 4),
        ),
{
    let body = binary_body(toks);
    let data = spec_vocab_binary(toks);
    let head = spec_magic() + seq![VERSION] + le_u64(toks.len() as u64);
    let recs = concat_all(toks.map_values(|t: Seq<char>| token_record(t)));
    assert(body == head + recs);
    assert(data.take(data.len() - 4) =~= body);
    assert(data.skip(data.len() - 4) =~= le_u32(spec_crc32(body)));
    assert(data.take(4) =~= spec_magic());
    assert(data[4] == head[4]);
    assert(data.subrange(5, 13) =~= le_u64(toks.len() as u64));
    lemma_le_roundtrip(toks.len() as u64, spec_crc32(body));
}

/// Simple CRC32 implementation (IEEE polynomial).
pub fn crc32(data: &[u8]) -> (r: u32)
    ensures
        r == spec_crc32(data@),
{
    let mut crc: u32 = 0xFFFF_FFFF;
    let mut i: usize = 0;
    assert(data@.take(0) =~= Seq::<u8>::empty());
    while i < data.len()
        invariant
            i <= data@.len(),
            crc == crc_fold(0xFFFF_FFFFu32, data@.take(i as int)),
        decreases data@.len() - i,
    {
        let ghost before = crc;
        let byte = data[i];
        crc = crc ^ (byte as u32);
        let mut k: u32 = 0;
        while k < 8
            invariant
                k <= 8,
                crc_bits(crc, (8 - k) as nat) == crc_update(before, byte),
            decreases 8 - k,
        {
            if crc & 1 != 0 {
                crc = (crc >> 1) ^ 0xEDB88320;
            } else {
                crc = crc >> 1;
            }
            k = k + 1;
        }
        assert(data@.take(i + 1).drop_last() =~= data@.take(i as int));
        i = i + 1;
    }
    assert(data@.take(data@.len() as int) =~= data@);
    !crc
}

/// Appends the little-endian bytes of `x`.
fn push_le_u64(data: &mut Vec<u8>, x: u64)
    ensures
        final(data)@ == old(data)@ + le_u64(x),
{
    data.push(x as u8);
    data.push((x >> 8) as u8);
    data.push((x >> 16) as u8);
    data.push((x >> 24) as u8);
    data.push((x >> 32) as u8);
    data.push((x >> 40) as u8);
    data.push((x >> 48) as u8);
    data.push((x >> 56) as u8);
    assert(data@ =~= old(data)@ + le_u64(x));
}

/// Appends the little-endian bytes of `x`.
fn push_le_u32(data: &mut Vec<u8>, x: u32)
    ensures
        final(data)@ == old(data)@ + le_u32(x),
{
    data.push(x as u8);
    data.push((x >> 8) as u8);
    data.push((x >> 16) as u8);
    data.push((x >> 24) as u8);
    assert(data@ =~= old(data)@ + le_u32(x));
}

/// Appends `bytes`.
fn push_bytes(data: &mut Vec<u8>, bytes: &[u8])
    ensures
        final(data)@ == old(data)@ + bytes@,
{
    let mut i: usize = 0;
    while i < bytes.len()
        invariant
            i <= bytes@.len(),
            data@ == old(data)@ + bytes@.take(i as int),
        decreases bytes@.len() - i,
    {
        data.push(bytes[i]);
        assert(bytes@.take(i + 1) =~= bytes@.take(i as int).push(bytes@[i as int]));
        i = i + 1;
    }
    assert(bytes@.take(bytes@.len() as int) =~= bytes@);
}

/// The contents of a binary vocabulary file for `vocab`.
pub fn vocab_to_binary(vocab: &Vocab) -> (data: Vec<u8>)
    ensures
        data@ == spec_vocab_binary(vocab@),
{
    let mut data: Vec<u8> = Vec::new();
    // Magic bytes
    data.push(0x57);
    data.push(0x50);
    data.push(0x56);
    data.push(0x43);
    // Version
    data.push(VERSION);
    // Vocab size
    push_le_u64(&mut data, vocab.len() as u64);
    let ghost toks = vocab@;
    let ghost head = data@;
    assert(head =~= spec_magic() + seq![VERSION] + le_u64(toks.len() as u64));
    let ghost f = |t: Seq<char>| token_record(t);
    assert(toks.take(0).map_values(f) =~= Seq::<Seq<u8>>::empty());
    // Tokens: each is [length: u64][bytes]
    let mut id: usize = 0;
    while id < vocab.len()
        invariant
            id <= toks.len(),
            toks == vocab@,
            f == (|t: Seq<char>| token_record(t)),
            data@ == head + concat_all(toks.take(id as int).map_values(f)),
        decreases toks.len() - id,
    {
        match vocab.get_token(id) {
            Some(token) => {
                let bytes = token.as_bytes();
                push_le_u64(&mut data, bytes.len() as u64);
                push_bytes(&mut data, bytes);
                proof {
                    let m = toks.take(id + 1).map_values(f);
                    assert(m.drop_last() =~= toks.take(id as int).map_values(f));
                    assert(m.last() == token_record(toks[id as int]));
                }
            },
            None => {},
        }
        id = id + 1;
    }
    assert(toks.take(toks.len() as int) =~= toks);
    // Checksum of everything so far
    let checksum = crc32(data.as_slice());
    push_le_u32(&mut data, checksum);
    data
}

} // verus!
