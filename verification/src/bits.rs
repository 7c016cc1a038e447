//! Facts about the bit operations the library uses, each group proved once
//! by the bit-vector solver.
use vstd::prelude::*;

verus! {

/// Shifts and masks of a 64-bit address: its page number fields, its
/// offsets into pages of each size, and alignment.
pub proof fn lemma_address_bits(a: u64)
    by (bit_vector)
    ensures
        (a >> 12u64) & 0x1FF == (a / 0x1000) % 0x200,
        (a >> 21u64) & 0x1FF == (a / 0x20_0000) % 0x200,
        (a >> 30u64) & 0x1FF == (a / 0x4000_0000) % 0x200,
        (a >> 30u64) & 0x3FF_FFFF == (a / 0x4000_0000) % 0x400_0000,
        (a >> 12u64) & 0x0FFF_FFFF_FFFF == (a / 0x1000) % 0x1000_0000_0000,
        a & 0xFFF == a % 0x1000,
        a & !0xFFFu64 == a - a % 0x1000,
        a & 0x1F_FFFF == a % 0x20_0000,
        a & !0x1F_FFFFu64 == a - a % 0x20_0000,
        a & 0x3FFF_FFFF == a % 0x4000_0000,
        a & !0x3FFF_FFFFu64 == a - a % 0x4000_0000,
        a % 0x20_0000 == 0 ==> a % 0x1000 == 0,
        a % 0x4000_0000 == 0 ==> a % 0x1000 == 0,
        a % 0x1000 == 0 ==> ((a / 0x1000) % 0x10_0000_0000_0000) * 0x1000 == a,
        a % 0x1000 == 0 ==> (((a / 0x1000) % 0x1000_0000_0000) % 0x10_0000_0000_0000) * 0x1000
            == a % 0x100_0000_0000_0000,
{
}

/// The fields of a page table entry's bits `b`, and what the setters of the
/// flag byte (`f`), the software bits (`v`) and the page number (`p`) leave
/// of the other fields.
pub proof fn lemma_entry_fields(b: u64, f: u8, v: u8, p: u64)
    by (bit_vector)
    ensures
        (b >> 10u64) << 12u64 == (b / 0x400 % 0x10_0000_0000_0000) * 0x1000,
        b == (b / 0x400) * 0x400 + (b / 0x100 % 4) * 0x100 + b % 0x100,
        ((b & !0xFFu64) | (f as u64)) / 0x100 % 4 == b / 0x100 % 4,
        ((b & !0xFFu64) | (f as u64)) / 0x400 == b / 0x400,
        ((b & !(0x3u64 << 8u64)) | ((v & 0x3) as u64)) / 0x100 % 4 == 0,
        ((b & !(0x3u64 << 8u64)) | ((v & 0x3) as u64)) / 0x400 == b / 0x400,
        p < 0x10_0000_0000_0000 ==> ((b & 0x3FF) | (p << 10u64)) / 0x400 == p,
        p < 0x10_0000_0000_0000 ==> ((b & 0x3FF) | (p << 10u64)) / 0x100 % 4 == b / 0x100 % 4,
{
}

/// The fields of an entry's bits `b` after bits 8 and 9 are set to the low
/// two bits of `v`: the software field is those bits, the rest is kept.
pub proof fn lemma_entry_rsw_field(b: u64, v: u8)
    by (bit_vector)
    ensures
        ((b & !(0x3u64 << 8u64)) | (((v & 0x3) as u64) << 8u64)) / 0x100 % 4 == (v & 3) as u64,
        ((b & !(0x3u64 << 8u64)) | (((v & 0x3) as u64) << 8u64)) / 0x400 == b / 0x400,
        ((b & !(0x3u64 << 8u64)) | (((v & 0x3) as u64) << 8u64)) % 0x100 == b % 0x100,
{
}

/// The flag byte of an entry's bits `b`: its valid bit, and the byte after
/// the flag setter writes `f`.
pub proof fn lemma_entry_flag_byte(b: u64, f: u8)
    by (bit_vector)
    ensures
        b as u8 == (b % 0x100) as u8,
        (((b % 0x100) as u8) & 1u8 == 1u8) == (b % 2 == 1),
        (b % 0x100) as u8 == 0u8 ==> b % 2 == 0,
        (((b & !0xFFu64) | (f as u64)) % 0x100) as u8 == f,
{
}

/// The flag byte after the software bits setter writes `v`, and after the
/// page number setter writes `p`.
pub proof fn lemma_entry_flag_byte_kept(b: u64, v: u8, p: u64)
    by (bit_vector)
    ensures
        (((b & !(0x3u64 << 8u64)) | ((v & 0x3) as u64)) % 0x100) as u8 == (b % 0x100) as u8 | (v & 3),
        p < 0x10_0000_0000_0000 ==> (((b & 0x3FF) | (p << 10u64)) % 0x100) as u8 == (b % 0x100) as u8,
{
}

/// The valid bit and the software bits of an entry's bits `b`.
pub proof fn lemma_entry_low_bits(b: u64)
    by (bit_vector)
    ensures
        (b & 1 == 1) == (b % 2 == 1),
        ((b >> 8u64) & 0b11) as u8 == (b / 0x100 % 4) as u8,
{
}

/// An entry put together from a page number below `2^54`, software bits
/// below 4 and a flag byte gives those fields back.
pub proof fn lemma_entry_assembly(ppn: u64, r: u64, f: u64)
    by (bit_vector)
    ensures
        ppn < 0x40_0000_0000_0000 && r < 4 && f < 0x100 ==> {
            let b = (ppn * 0x400 + r * 0x100 + f) as u64;
            b / 0x400 == ppn && b / 0x100 % 4 == r && b % 0x100 == f
        },
{
}

/// Constants of the flag byte and of the address space.
pub proof fn lemma_bit_constants()
    by (bit_vector)
    ensures
        0u8 & 1u8 != 1u8,
        1u8 & 1u8 == 1u8,
        1u8 & 2u8 != 2u8,
        1u8 & 8u8 != 8u8,
        0x10u8 | 0x01u8 == 0x11u8,
        0x02u8 | 0x04u8 == 0x06u8,
        0x06u8 | 0x10u8 == 0x16u8,
        0x16u8 | 0x01u8 == 0x17u8,
        0x80u8 | 0x40u8 == 0xC0u8,
        0xC0u8 | 0x02u8 == 0xC2u8,
        0xC2u8 | 0x04u8 == 0xC6u8,
        0xC6u8 | 0x01u8 == 0xC7u8,
        0xC7u8 & 0x02u8 == 0x02u8,
        0xC7u8 & 0x01u8 == 0x01u8,
        2u8 & 3u8 == 2u8,
        0x17u8 | 0x02u8 == 0x17u8,
        0x17u8 & 0x01u8 == 0x01u8,
        0x17u8 & 0x02u8 == 0x02u8,
        0x49u8 & 0x01u8 == 0x01u8,
        0x49u8 & 0x08u8 == 0x08u8,
        0x40u8 | 0x08u8 == 0x48u8,
        0x48u8 | 0x01u8 == 0x49u8,
        1u64 << 38u64 == 0x40_0000_0000,
        u64::MAX << 38u64 == 0xFFFF_FFC0_0000_0000,
        0u64 & 0x40_0000_0000 != 0x40_0000_0000u64,
        0x3F_FFFF_FFFFu64 & 0x40_0000_0000 != 0x40_0000_0000u64,
        u64::MAX & 0x40_0000_0000 == 0x40_0000_0000,
        u64::MAX | 0xFFFF_FFC0_0000_0000 == u64::MAX,
        0x40_0000_0000u64 | 0xFFFF_FFC0_0000_0000 == 0xFFFF_FFC0_0000_0000u64,
        0x40_0000_0000u64 & 0x40_0000_0000 == 0x40_0000_0000u64,
{
}

/// The three page sizes are powers of two.
pub proof fn lemma_page_shifts()
    by (bit_vector)
    ensures
        1u64 << 12u64 == 0x1000u64,
        1u64 << 21u64 == 0x20_0000u64,
        1u64 << 30u64 == 0x4000_0000u64,
{
}

/// Copying bit 38 into the bits above it keeps an address aligned to a
/// page of 4 KiB, 2 MiB or 1 GiB.
pub proof fn lemma_sign_extend_aligned(x: u64)
    by (bit_vector)
    ensures
        x % 0x1000 == 0 ==> (x | 0xFFFF_FFC0_0000_0000u64) % 0x1000 == 0,
        x % 0x20_0000 == 0 ==> (x | 0xFFFF_FFC0_0000_0000u64) % 0x20_0000 == 0,
        x % 0x4000_0000 == 0 ==> (x | 0xFFFF_FFC0_0000_0000u64) % 0x4000_0000 == 0,
{
}

/// Setting bits never lowers a number.
pub proof fn lemma_or_not_lower(x: u64)
    by (bit_vector)
    ensures
        (x | 0xFFFF_FFC0_0000_0000u64) >= x,
{
}

/// Setting more bits of a flag byte keeps the valid, read and execute bits
/// it had.
pub proof fn lemma_or_keeps_bits(x: u8, y: u8)
    by (bit_vector)
    ensures
        x & 1u8 == 1u8 ==> (x | y) & 1u8 == 1u8,
        x & 2u8 == 2u8 ==> (x | y) & 2u8 == 2u8,
        x & 8u8 == 8u8 ==> (x | y) & 8u8 == 8u8,
{
}

/// Clearing the bits of `n` that a mask `m` covers takes them off `n`.
pub proof fn lemma_and_not(n: u64, m: u64)
    by (bit_vector)
    ensures
        n & m <= n,
        n & !m == n - (n & m),
{
}

/// Clearing the bits below a power of two rounds down to a multiple of it.
pub proof fn lemma_pow2_mask(n: u64, k: u64)
    requires
        k < 64,
    ensures
        1u64 << k > 0,
        n & !(((1u64 << k) - 1) as u64) == n - n % (1u64 << k),
{
    vstd::bits::lemma_u64_pow2_no_overflow(k as nat);
    vstd::bits::lemma_u64_shl_is_mul(1, k);
    vstd::bits::lemma_u64_low_bits_mask_is_mod(n, k as nat);
    lemma_and_not(n, ((1u64 << k) - 1) as u64);
}

/// Fields of machine and supervisor registers: the `misa` width field as
/// this kernel reads it, the extension bits, the floating point status of
/// `sstatus` and how it is replaced, and the fields of `satp`.
pub proof fn lemma_register_fields(x: u64, s: u64, mode: u64, asid: u64, ppn: u64)
    by (bit_vector)
    ensures
        (x & (0b11u64 << 6u64)) >> 6u64 == x / 64 % 4,
        x & 0x3FF_FFFF == x % 0x400_0000,
        (x >> 13u64) & 3 == x / 0x2000 % 4,
        s < 4 ==> (x & !(3u64 << 13u64)) | (s << 13u64) == x - (x / 0x2000 % 4) * 0x2000 + s * 0x2000,
        (x >> 44u64) & 0xFFFF == x / 0x1000_0000_0000 % 0x1_0000,
        x >> 60u64 == x / 0x1000_0000_0000_0000,
        mode < 16 && asid < 0x1_0000 && ppn < 0x1000_0000_0000 ==> (mode << 60u64) | (asid << 44u64) | ppn
            == mode * 0x1000_0000_0000_0000 + asid * 0x1000_0000_0000 + ppn,
{
}

/// Bit `i` of `x`, for `i` below 64, read by a shift and a mask.
pub proof fn lemma_bit_at(x: u64, i: u64)
    by (bit_vector)
    requires
        i < 64,
    ensures
        ((x >> i) & 1 == 1) == ((x >> i) % 2 == 1),
{
}

/// A 16-bit code over a 16-bit magic number, put together by a shift and an
/// or, is their sum.
pub proof fn lemma_exit_word(m: u64, c: u64)
    by (bit_vector)
    requires
        m < 0x1_0000,
        c < 0x1_0000,
    ensures
        m | (c << 16u64) == m + c * 0x1_0000,
{
}

/// The fields of a FAT time or date word, read by masks and shifts.
pub proof fn lemma_fat_time_bits(v: u16)
    by (bit_vector)
    ensures
        v & 0x001F == v % 32,
        (v & 0b0000_0111_1110_0000) >> 5u16 == v / 32 % 64,
        (v & 0b1111_1000_0000_0000) >> 11u16 == v / 2048,
        v & 0xF == v % 16,
        v & 0x7F == v % 128,
        0b0000_0001_1110_0000u16 >> 5u16 == 0xF,
        0b1111_1110_0000_0000u16 >> 9u16 == 0x7F,
{
}

/// Page numbers below 512 put together by shifts give the same address as
/// put together by sums.
pub proof fn lemma_vpn_assembly(a0: u64, a1: u64, a2: u64)
    by (bit_vector)
    ensures
        a0 < 0x200 && a1 < 0x200 && a2 < 0x200 ==> (a0 << 12u64) | (a1 << 21u64) | (a2 << 30u64)
            == a0 * 0x1000 + a1 * 0x20_0000 + a2 * 0x4000_0000,
{
}

/// The page numbers of an address, summed and sign-extended, give the start
/// of its page when the address is canonical.
pub proof fn lemma_vpn_round_trip(a: u64)
    by (bit_vector)
    ensures
        (((a / 0x1000) % 0x200) * 0x1000 + ((a / 0x20_0000) % 0x200) * 0x20_0000 + ((a / 0x4000_0000)
            % 0x200) * 0x4000_0000) as u64 == a & 0x7F_FFFF_F000,
        (a < 0x40_0000_0000 || a >= 0xFFFF_FFC0_0000_0000) ==> (if (a & 0x7F_FFFF_F000)
            & 0x40_0000_0000 == 0x40_0000_0000 {
            (a & 0x7F_FFFF_F000) | 0xFFFF_FFC0_0000_0000
        } else {
            a & 0x7F_FFFF_F000
        }) == a - a % 0x1000,
{
}

/// Swapping the bytes of a 16-bit value.
pub proof fn lemma_swap16_bits(x: u16)
    by (bit_vector)
    ensures
        (x << 8u16) | (x >> 8u16) == (x % 0x100) * 0x100 + x / 0x100,
{
}

/// Swapping the bytes of a 32-bit value.
pub proof fn lemma_swap32_bits(x: u32)
    by (bit_vector)
    ensures
        ((x & 0xff) << 24u32) | ((x & 0xff00) << 8u32) | ((x >> 8u32) & 0xff00) | (x >> 24u32) == (x
            % 0x100) * 0x100_0000 + (x / 0x100 % 0x100) * 0x1_0000 + (x / 0x1_0000 % 0x100) * 0x100 + x
            / 0x100_0000,
{
}

/// The halves of a 64-bit value, and a value put together from halves.
pub proof fn lemma_halves_bits(x: u64, lo: u64, hi: u64)
    by (bit_vector)
    ensures
        (x & 0xffff_ffff) as u32 == (x % 0x1_0000_0000) as u32,
        (x >> 32u64) as u32 == (x / 0x1_0000_0000) as u32,
        lo <= 0xffff_ffff && hi <= 0xffff_ffff ==> (lo << 32u64) | hi == lo * 0x1_0000_0000 + hi,
{
}

/// Reading a value as signed and back gives it unchanged.
pub proof fn lemma_sign_round_trip(a: u16, b: u32, c: u64)
    by (bit_vector)
    ensures
        (a as i16) as u16 == a,
        (b as i32) as u32 == b,
        (c as i64) as u64 == c,
{
}

/// Rotating a word left by `k` places moves bit `i` to bit `i + k` modulo
/// 64.
pub proof fn lemma_rotate_bits(x: u64, k: u64)
    by (bit_vector)
    requires
        k < 64,
    ensures
        forall|i: u64|
            i < 64 ==> ((((if k == 0 { x } else { (x << k) | (x >> ((64 - k) as u64)) }) >> ((i + k) % 64)
                as u64) & 1 == 1) <==> ((x >> i) & 1 == 1)),
{
}

/// Masks of the low bits of a word: one more bit, and setting then clearing
/// a clear bit.
pub proof fn lemma_mask_bits(m: u64, e: u64, b: u64)
    by (bit_vector)
    ensures
        0u64 | (1u64 << 0u64) == 1u64,
        ((1u64 << 1u64) - 1) as u64 == 1u64,
        (((1u64 << 63u64) - 1) as u64) | (1u64 << 63u64) == u64::MAX,
        0 < m < 63 ==> (((1u64 << m) - 1) as u64) | (1u64 << m) == ((1u64 << ((m + 1) as u64)) - 1) as u64,
        b < 64 ==> ((e | (1u64 << b)) >> b) & 1 == 1,
        b < 64 ==> ((e >> b) & 1u64 == 0u64 ==> (e | (1u64 << b)) & !(1u64 << b) == e),
{
}

} // verus!
