//! Integers in byte strings, in network (big-endian) and in little-endian
//! order.

use vstd::prelude::*;

verus! {

/// Two bytes of `s` at `i`, most significant first.
pub open spec fn be16(s: Seq<u8>, i: int) -> nat {
    (s[i] * 0x100 + s[i + 1]) as nat
}

/// Three bytes of `s` at `i`, most significant first.
pub open spec fn be24(s: Seq<u8>, i: int) -> nat {
    (s[i] * 0x1_0000 + s[i + 1] * 0x100 + s[i + 2]) as nat
}

/// Four bytes of `s` at `i`, most significant first.
pub open spec fn be32(s: Seq<u8>, i: int) -> nat {
    be16(s, i) * 0x1_0000 + be16(s, i + 2)
}

/// Eight bytes of `s` at `i`, most significant first.
pub open spec fn be64(s: Seq<u8>, i: int) -> nat {
    be32(s, i) * 0x1_0000_0000 + be32(s, i + 4)
}

/// Two bytes of `s` at `i`, least significant first.
pub open spec fn le16(s: Seq<u8>, i: int) -> nat {
    (s[i] + s[i + 1] * 0x100) as nat
}

/// Four bytes of `s` at `i`, least significant first.
pub open spec fn le32(s: Seq<u8>, i: int) -> nat {
    le16(s, i) + le16(s, i + 2) * 0x1_0000
}

/// Eight bytes of `s` at `i`, least significant first.
pub open spec fn le64(s: Seq<u8>, i: int) -> nat {
    le32(s, i) + le32(s, i + 4) * 0x1_0000_0000
}

/// The big-endian 16-bit number at `i`.
pub fn get_be16(s: &[u8], i: usize) -> (r: u16)
    requires
        i + 2 <= s.len(),
    ensures
        r == be16(s@, i as int),
{
    s[i] as u16 * 0x100 + s[i + 1] as u16
}

/// The big-endian 24-bit number at `i`.
pub fn get_be24(s: &[u8], i: usize) -> (r: u32)
    requires
        i + 3 <= s.len(),
    ensures
        r == be24(s@, i as int),
        r < 0x100_0000,
{
    s[i] as u32 * 0x1_0000 + s[i + 1] as u32 * 0x100 + s[i + 2] as u32
}

/// The big-endian 32-bit number at `i`.
pub fn get_be32(s: &[u8], i: usize) -> (r: u32)
    requires
        i + 4 <= s.len(),
    ensures
        r == be32(s@, i as int),
{
    get_be16(s, i) as u32 * 0x1_0000 + get_be16(s, i + 2) as u32
}

/// The big-endian 64-bit number at `i`.
pub fn get_be64(s: &[u8], i: usize) -> (r: u64)
    requires
        i + 8 <= s.len(),
    ensures
        r == be64(s@, i as int),
{
    get_be32(s, i) as u64 * 0x1_0000_0000 + get_be32(s, i + 4) as u64
}

/// The little-endian 16-bit number at `i`.
pub fn get_le16(s: &[u8], i: usize) -> (r: u16)
    requires
        i + 2 <= s.len(),
    ensures
        r == le16(s@, i as int),
{
    s[i] as u16 + s[i + 1] as u16 * 0x100
}

/// The little-endian 32-bit number at `i`.
pub fn get_le32(s: &[u8], i: usize) -> (r: u32)
    requires
        i + 4 <= s.len(),
    ensures
        r == le32(s@, i as int),
{
    get_le16(s, i) as u32 + get_le16(s, i + 2) as u32 * 0x1_0000
}

/// The little-endian 64-bit number at `i`.
pub fn get_le64(s: &[u8], i: usize) -> (r: u64)
    requires
        i + 8 <= s.len(),
    ensures
        r == le64(s@, i as int),
{
    get_le32(s, i) as u64 + get_le32(s, i + 4) as u64 * 0x1_0000_0000
}

// ---- writing ----

/// A 16-bit number as two bytes, most significant first if `big`.
#[verifier::opaque]
pub open spec fn put16(v: u16, big: bool) -> Seq<u8> {
    if big {
        seq![(v / 0x100) as u8, (v % 0x100) as u8]
    } else {
        seq![(v % 0x100) as u8, (v / 0x100) as u8]
    }
}

/// A 32-bit number as four bytes, most significant first if `big`.
#[verifier::opaque]
pub open spec fn put32(v: u32, big: bool) -> Seq<u8> {
    if big {
        put16((v / 0x1_0000) as u16, true) + put16((v % 0x1_0000) as u16, true)
    } else {
        put16((v % 0x1_0000) as u16, false) + put16((v / 0x1_0000) as u16, false)
    }
}

/// A 16-bit number takes two bytes.
pub broadcast proof fn lemma_put16_len(v: u16, big: bool)
    ensures
        (#[trigger] put16(v, big)).len() == 2,
{
    reveal(put16);
}

/// A 32-bit number takes four bytes.
pub broadcast proof fn lemma_put32_len(v: u32, big: bool)
    ensures
        (#[trigger] put32(v, big)).len() == 4,
{
    reveal(put16);
    reveal(put32);
}

// ---- laws ----

/// Big-endian numbers weigh their first byte most.
pub proof fn law_big_endian_weights(s: Seq<u8>, i: int)
    ensures
        be16(s, i) == 0x100 * s[i] + s[i + 1],
        be24(s, i) == 0x1_0000 * s[i] + 0x100 * s[i + 1] + s[i + 2],
        be32(s, i) == 0x100_0000 * s[i] + 0x1_0000 * s[i + 1] + 0x100 * s[i + 2] + s[i + 3],
        be64(s, i) == 0x100_0000_0000_0000 * s[i] + 0x1_0000_0000_0000 * s[i + 1]
            + 0x100_0000_0000 * s[i + 2] + 0x1_0000_0000 * s[i + 3] + 0x100_0000 * s[i + 4]
            + 0x1_0000 * s[i + 5] + 0x100 * s[i + 6] + s[i + 7],
{
}

/// Little-endian numbers weigh their last byte most: they are the big-endian
/// numbers of the same bytes in reverse.
pub proof fn law_little_endian_is_reversed(s: Seq<u8>, i: int)
    requires
        0 <= i,
    ensures
        i + 2 <= s.len() ==> le16(s, i) == be16(s.reverse(), s.len() - i - 2),
        i + 4 <= s.len() ==> le32(s, i) == be32(s.reverse(), s.len() - i - 4),
        i + 8 <= s.len() ==> le64(s, i) == be64(s.reverse(), s.len() - i - 8),
{
}

} // verus!
