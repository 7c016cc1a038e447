//! Big-endian integers as they lie in memory on the little-endian RISC-V
//! target: the raw field holds the bytes in memory order, `get` gives the
//! number they encode most significant byte first.
use vstd::prelude::*;
use crate::bits::{
    lemma_halves_bits, lemma_sign_round_trip, lemma_swap16_bits, lemma_swap32_bits,
};

verus! {

/// The number that two bytes encode, most significant byte first.
pub open spec fn be16(b0: u8, b1: u8) -> int {
    b0 * 0x100 + b1
}

/// The number that four bytes encode, most significant byte first.
pub open spec fn be32(b0: u8, b1: u8, b2: u8, b3: u8) -> int {
    b0 * 0x100_0000 + b1 * 0x1_0000 + b2 * 0x100 + b3
}

/// The number that eight bytes encode, most significant byte first.
pub open spec fn be64(s: Seq<u8>) -> int
    recommends s.len() >= 8,
{
    be32(s[0], s[1], s[2], s[3]) * 0x1_0000_0000 + be32(s[4], s[5], s[6], s[7])
}

/// The value of a 16-bit word read with its bytes in the opposite order.
pub open spec fn swapped16(x: u16) -> int {
    (x % 0x100) * 0x100 + x / 0x100
}

/// The value of a 32-bit word read with its bytes in the opposite order.
pub open spec fn swapped32(x: u32) -> int {
    (x % 0x100) * 0x100_0000 + (x / 0x100 % 0x100) * 0x1_0000 + (x / 0x1_0000 % 0x100) * 0x100
        + x / 0x100_0000
}

/// The value of a 64-bit word read with its bytes in the opposite order.
pub open spec fn swapped64(x: u64) -> int {
    swapped32((x % 0x1_0000_0000) as u32) * 0x1_0000_0000 + swapped32((x / 0x1_0000_0000) as u32)
}

/// Reverses the byte order of a 16-bit word.
pub fn swap16(x: u16) -> (r: u16)
    ensures
        r == swapped16(x),
{
    let r = (x << 8u16) | (x >> 8u16);
    proof {
        lemma_swap16_bits(x);
    }
    r
}

/// Reverses the byte order of a 32-bit word.
pub fn swap32(x: u32) -> (r: u32)
    ensures
        r == swapped32(x),
{
    let r = ((x & 0xff) << 24u32) | ((x & 0xff00) << 8u32) | ((x >> 8u32) & 0xff00) | (x >> 24u32);
    proof {
        lemma_swap32_bits(x);
    }
    r
}

/// Reverses the byte order of a 64-bit word.
pub fn swap64(x: u64) -> (r: u64)
    ensures
        r == swapped64(x),
{
    let lo = swap32((x & 0xffff_ffff) as u32);
    let hi = swap32((x >> 32u64) as u32);
    let r = ((lo as u64) << 32u64) | (hi as u64);
    proof {
        lemma_halves_bits(x, lo as u64, hi as u64);
    }
    r
}

/// A big-endian `u16` as it lies in memory.
#[derive(Debug, Clone, Copy)]
pub struct BigEndianU16(u16);

/// A big-endian `u32` as it lies in memory.
#[derive(Debug, Clone, Copy)]
pub struct BigEndianU32(u32);

/// A big-endian `u64` as it lies in memory.
#[derive(Debug, Clone, Copy)]
pub struct BigEndianU64(u64);

/// A big-endian `i16` as it lies in memory.
#[derive(Debug, Clone, Copy)]
pub struct BigEndianI16(i16);

/// A big-endian `i32` as it lies in memory.
#[derive(Debug, Clone, Copy)]
pub struct BigEndianI32(i32);

/// A big-endian `i64` as it lies in memory.
#[derive(Debug, Clone, Copy)]
pub struct BigEndianI64(i64);


/// Reads a little-endian `u16` from the first two bytes.
fn read_le16(data: &[u8]) -> (r: u16)
    requires
        data.len() >= 2,
    ensures
        swapped16(r) == be16(data[0], data[1]),
        r == data[0] + data[1] * 0x100,
{
    let b0 = data[0];
    let b1 = data[1];
    let r = (b0 as u16) + (b1 as u16) * 0x100;
    assert(r % 0x100 == b0 && r / 0x100 == b1);
    r
}

/// Reads a little-endian `u32` from the first four bytes.
fn read_le32(data: &[u8]) -> (r: u32)
    requires
        data.len() >= 4,
    ensures
        swapped32(r) == be32(data[0], data[1], data[2], data[3]),
        r == data[0] + data[1] * 0x100 + data[2] * 0x1_0000 + data[3] * 0x100_0000,
{
    let b0 = data[0];
    let b1 = data[1];
    let b2 = data[2];
    let b3 = data[3];
    let r = (b0 as u32) + (b1 as u32) * 0x100 + (b2 as u32) * 0x1_0000 + (b3 as u32) * 0x100_0000;
    let ghost q1: int = b1 + b2 * 0x100 + b3 * 0x1_0000;
    let ghost q2: int = b2 + b3 * 0x100;
    assert(r % 0x100 == b0 && r / 0x100 == q1) by (nonlinear_arith)
        requires
            r == b0 + q1 * 0x100,
            0 <= b0 < 0x100,
            0 <= q1,
    ;
    assert(q1 % 0x100 == b1 && q1 / 0x100 == q2) by (nonlinear_arith)
        requires
            q1 == b1 + q2 * 0x100,
            0 <= b1 < 0x100,
            0 <= q2,
    ;
    assert(q2 % 0x100 == b2 && q2 / 0x100 == b3) by (nonlinear_arith)
        requires
            q2 == b2 + b3 * 0x100,
            0 <= b2 < 0x100,
            0 <= b3,
    ;
    assert(r / 0x1_0000 == q2) by (nonlinear_arith)
        requires
            r / 0x100 == q1,
            q1 / 0x100 == q2,
            r >= 0,
    ;
    assert(r / 0x100_0000 == b3) by (nonlinear_arith)
        requires
            r / 0x1_0000 == q2,
            q2 / 0x100 == b3,
            r >= 0,
    ;
    r
}

/// Reads a little-endian `u64` from the first eight bytes.
fn read_le64(data: &[u8]) -> (r: u64)
    requires
        data.len() >= 8,
    ensures
        swapped64(r) == be64(data@),
{
    let lo = read_le32(data);
    let hi_slice = slice_from(data, 4);
    let hi = read_le32(hi_slice);
    let r = (lo as u64) + (hi as u64) * 0x1_0000_0000;
    assert(r % 0x1_0000_0000 == lo && r / 0x1_0000_0000 == hi) by (nonlinear_arith)
        requires
            r == lo + hi * 0x1_0000_0000,
            0 <= lo < 0x1_0000_0000,
            0 <= hi,
    ;
    r
}

/// The bytes of `data` from `start` on.
pub fn slice_from(data: &[u8], start: usize) -> (r: &[u8])
    requires
        start <= data.len(),
    ensures
        r@ == data@.subrange(start as int, data@.len() as int),
{
    vstd::slice::slice_subrange(data, start, data.len())
}

impl BigEndianU16 {
    /// The value these bytes encode, most significant byte first.
    pub closed spec fn value(self) -> int {
        swapped16(self.0)
    }

    /// Takes the first two bytes of `data`, or `None` when there are fewer.
    pub fn from_bytes(data: &[u8]) -> (r: Option<Self>)
        ensures
            r.is_some() <==> data.len() >= 2,
            r.is_some() ==> r.unwrap().value() == be16(data[0], data[1]),
    {
        if data.len() < 2 {
            None
        } else {
            Some(BigEndianU16(read_le16(data)))
        }
    }

    /// The number these bytes encode.
    pub fn get(&self) -> (r: u16)
        ensures
            r == self.value(),
    {
        swap16(self.0)
    }
}

impl BigEndianU32 {
    /// The value these bytes encode, most significant byte first.
    pub closed spec fn value(self) -> int {
        swapped32(self.0)
    }

    /// The value lies in the range of a `u32`.
    pub broadcast proof fn lemma_value_range(x: BigEndianU32)
        ensures
            0 <= #[trigger] x.value() <= u32::MAX,
    {
    }

    /// Takes the first four bytes of `data`, or `None` when there are fewer.
    pub fn from_bytes(data: &[u8]) -> (r: Option<Self>)
        ensures
            r.is_some() <==> data.len() >= 4,
            r.is_some() ==> r.unwrap().value() == be32(data[0], data[1], data[2], data[3]),
    {
        if data.len() < 4 {
            None
        } else {
            Some(BigEndianU32(read_le32(data)))
        }
    }

    /// The number these bytes encode.
    pub fn get(&self) -> (r: u32)
        ensures
            r == self.value(),
    {
        swap32(self.0)
    }
}

impl BigEndianU64 {
    /// The value these bytes encode, most significant byte first.
    pub closed spec fn value(self) -> int {
        swapped64(self.0)
    }

    /// The value lies in the range of a `u64`.
    pub broadcast proof fn lemma_value_range(x: BigEndianU64)
        ensures
            0 <= #[trigger] x.value() <= u64::MAX,
    {
    }

    /// Takes the first eight bytes of `data`, or `None` when there are fewer.
    pub fn from_bytes(data: &[u8]) -> (r: Option<Self>)
        ensures
            r.is_some() <==> data.len() >= 8,
            r.is_some() ==> r.unwrap().value() == be64(data@),
    {
        if data.len() < 8 {
            None
        } else {
            Some(BigEndianU64(read_le64(data)))
        }
    }

    /// The number these bytes encode.
    pub fn get(&self) -> (r: u64)
        ensures
            r == self.value(),
    {
        swap64(self.0)
    }
}

impl BigEndianI16 {
    /// The value these bytes encode as a two's complement number, most
    /// significant byte first.
    pub closed spec fn value(self) -> i16 {
        (swapped16(self.0 as u16) as u16) as i16
    }

    /// Takes the first two bytes of `data`, or `None` when there are fewer.
    pub fn from_bytes(data: &[u8]) -> (r: Option<Self>)
        ensures
            r.is_some() <==> data.len() >= 2,
            r.is_some() ==> r.unwrap().value() == (be16(data[0], data[1]) as u16) as i16,
    {
        if data.len() < 2 {
            None
        } else {
            let raw = read_le16(data);
            let v = raw as i16;
            proof {
                lemma_sign_round_trip(raw, 0, 0);
            }
            Some(BigEndianI16(v))
        }
    }

    /// The number these bytes encode.
    pub fn get(&self) -> (r: i16)
        ensures
            r == self.value(),
    {
        swap16(self.0 as u16) as i16
    }
}

impl BigEndianI32 {
    /// The value these bytes encode as a two's complement number, most
    /// significant byte first.
    pub closed spec fn value(self) -> i32 {
        (swapped32(self.0 as u32) as u32) as i32
    }

    /// Takes the first four bytes of `data`, or `None` when there are fewer.
    pub fn from_bytes(data: &[u8]) -> (r: Option<Self>)
        ensures
            r.is_some() <==> data.len() >= 4,
            r.is_some() ==> r.unwrap().value() == (be32(data[0], data[1], data[2], data[3])
                as u32) as i32,
    {
        if data.len() < 4 {
            None
        } else {
            let raw = read_le32(data);
            let v = raw as i32;
            proof {
                lemma_sign_round_trip(0, raw, 0);
            }
            Some(BigEndianI32(v))
        }
    }

    /// The number these bytes encode.
    pub fn get(&self) -> (r: i32)
        ensures
            r == self.value(),
    {
        swap32(self.0 as u32) as i32
    }
}

impl BigEndianI64 {
    /// The value these bytes encode as a two's complement number, most
    /// significant byte first.
    pub closed spec fn value(self) -> i64 {
        (swapped64(self.0 as u64) as u64) as i64
    }

    /// Takes the first eight bytes of `data`, or `None` when there are fewer.
    pub fn from_bytes(data: &[u8]) -> (r: Option<Self>)
        ensures
            r.is_some() <==> data.len() >= 8,
            r.is_some() ==> r.unwrap().value() == (be64(data@) as u64) as i64,
    {
        if data.len() < 8 {
            None
        } else {
            let raw = read_le64(data);
            let v = raw as i64;
            proof {
                lemma_sign_round_trip(0, 0, raw);
            }
            Some(BigEndianI64(v))
        }
    }

    /// The number these bytes encode.
    pub fn get(&self) -> (r: i64)
        ensures
            r == self.value(),
    {
        swap64(self.0 as u64) as i64
    }
}

} // verus!
