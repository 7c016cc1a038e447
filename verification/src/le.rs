//! Little-endian integers read from byte slices at an offset.
use vstd::prelude::*;

verus! {

/// The number that the two bytes at `at` encode, least significant first.
pub open spec fn le16(s: Seq<u8>, at: int) -> int {
    s[at] + s[at + 1] * 0x100
}

/// The number that the four bytes at `at` encode, least significant first.
pub open spec fn le32(s: Seq<u8>, at: int) -> int {
    le16(s, at) + le16(s, at + 2) * 0x1_0000
}

/// The number that the eight bytes at `at` encode, least significant first.
pub open spec fn le64(s: Seq<u8>, at: int) -> int {
    le32(s, at) + le32(s, at + 4) * 0x1_0000_0000
}

/// Reads the little-endian `u16` at `at`.
pub fn le16_at(data: &[u8], at: usize) -> (r: u16)
    requires
        at + 2 <= data@.len(),
    ensures
        r == le16(data@, at as int),
{
    let _n = data.len();
    (data[at] as u16) + (data[at + 1] as u16) * 0x100
}

/// Reads the little-endian `u32` at `at`.
pub fn le32_at(data: &[u8], at: usize) -> (r: u32)
    requires
        at + 4 <= data@.len(),
    ensures
        r == le32(data@, at as int),
{
    let _n = data.len();
    let lo = le16_at(data, at);
    let hi = le16_at(data, at + 2);
    assert((hi as u32) * 0x1_0000 <= 0xFFFF_0000) by (nonlinear_arith)
        requires
            hi <= 0xFFFF,
    ;
    (lo as u32) + (hi as u32) * 0x1_0000
}

/// Reads the little-endian `u64` at `at`.
pub fn le64_at(data: &[u8], at: usize) -> (r: u64)
    requires
        at + 8 <= data@.len(),
    ensures
        r == le64(data@, at as int),
{
    let _n = data.len();
    let lo = le32_at(data, at);
    let hi = le32_at(data, at + 4);
    assert((hi as u64) * 0x1_0000_0000 <= 0xFFFF_FFFF_0000_0000) by (nonlinear_arith)
        requires
            hi <= 0xFFFF_FFFF,
    ;
    (lo as u64) + (hi as u64) * 0x1_0000_0000
}

/// The number a run of bytes encodes, least significant byte first.
pub open spec fn le_value(b: Seq<u8>) -> nat
    decreases b.len(),
{
    if b.len() == 0 {
        0
    } else {
        b[0] as nat + 256 * le_value(b.drop_first())
    }
}

/// The bytes `a..b` of `s` encode their first byte plus 256 times what the
/// rest encode.
proof fn lemma_le_value_step(s: Seq<u8>, a: int, b: int)
    requires
        0 <= a < b <= s.len(),
    ensures
        le_value(s.subrange(a, b)) == s[a] + 256 * le_value(s.subrange(a + 1, b)),
{
    assert(s.subrange(a, b).drop_first() =~= s.subrange(a + 1, b));
}

/// The two bytes at `at` read as `le16` encode the number `le_value` gives.
pub proof fn lemma_le16_value(s: Seq<u8>, at: int)
    requires
        0 <= at,
        at + 2 <= s.len(),
    ensures
        le16(s, at) == le_value(s.subrange(at, at + 2)),
        le16(s, at) < 0x1_0000,
{
    lemma_le_value_step(s, at, at + 2);
    lemma_le_value_step(s, at + 1, at + 2);
    assert(s.subrange(at + 2, at + 2).len() == 0);
}

/// The four bytes at `at` read as `le32` encode the number `le_value`
/// gives.
pub proof fn lemma_le32_value(s: Seq<u8>, at: int)
    requires
        0 <= at,
        at + 4 <= s.len(),
    ensures
        le32(s, at) == le_value(s.subrange(at, at + 4)),
        le32(s, at) < 0x1_0000_0000,
{
    lemma_le_value_step(s, at, at + 4);
    lemma_le_value_step(s, at + 1, at + 4);
    lemma_le_value_step(s, at + 2, at + 4);
    lemma_le_value_step(s, at + 3, at + 4);
    assert(s.subrange(at + 4, at + 4).len() == 0);
}

/// The eight bytes at `at` read as `le64` encode the number `le_value`
/// gives.
pub proof fn lemma_le64_value(s: Seq<u8>, at: int)
    requires
        0 <= at,
        at + 8 <= s.len(),
    ensures
        le64(s, at) == le_value(s.subrange(at, at + 8)),
        le64(s, at) < 0x1_0000_0000_0000_0000,
{
    lemma_le_value_step(s, at, at + 8);
    lemma_le_value_step(s, at + 1, at + 8);
    lemma_le_value_step(s, at + 2, at + 8);
    lemma_le_value_step(s, at + 3, at + 8);
    lemma_le_value_step(s, at + 4, at + 8);
    lemma_le_value_step(s, at + 5, at + 8);
    lemma_le_value_step(s, at + 6, at + 8);
    lemma_le_value_step(s, at + 7, at + 8);
    assert(s.subrange(at + 8, at + 8).len() == 0);
}

} // verus!
