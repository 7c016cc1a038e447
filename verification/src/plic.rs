//! The arithmetic of the platform-level interrupt controller's registers:
//! the word and bit that stand for an interrupt source, and what a write
//! puts there. The registers are memory-mapped; the caller reads and writes
//! them with these values.
use vstd::prelude::*;

verus! {

/// The highest priority a source or a threshold can have.
pub const MAX_PRIORITY: u32 = 7;

/// Bit `b` of `w`.
pub open spec fn bit32(w: u32, b: u32) -> bool {
    (w >> b) & 1 == 1
}

/// The highest priority a source or a threshold can have.
pub fn max_priority() -> (r: usize)
    ensures
        r == MAX_PRIORITY,
{
    7
}

/// The value that setting a priority or a threshold to `priority` writes:
/// a priority above the highest becomes the highest.
pub fn clamped_priority(priority: usize) -> (r: u32)
    ensures
        r == if priority > MAX_PRIORITY { MAX_PRIORITY as int } else { priority as int },
{
    if priority > 7 {
        MAX_PRIORITY
    } else {
        priority as u32
    }
}

/// The index of the 32-bit word of the enable and pending arrays that holds
/// the bit of `source`.
pub fn source_word(source: usize) -> (r: usize)
    ensures
        r == source / 32,
{
    source / 32
}

/// The bit of `source` within its word.
pub fn source_bit(source: usize) -> (r: u32)
    ensures
        r == source % 32,
{
    (source % 32) as u32
}

/// The enable word `word` with the bit of `source` set.
pub fn with_source_enabled(word: u32, source: usize) -> (r: u32)
    ensures
        r == word | (1u32 << (source % 32) as u32),
{
    word | (1u32 << source_bit(source))
}

/// The enable word `word` with the bit of `source` clear.
pub fn with_source_disabled(word: u32, source: usize) -> (r: u32)
    ensures
        r == word & !(1u32 << (source % 32) as u32),
{
    word & !(1u32 << source_bit(source))
}

/// Whether the pending word `word` has the bit of `source` set.
pub fn source_pending(word: u32, source: usize) -> (r: bool)
    ensures
        r == bit32(word, (source % 32) as u32),
{
    (word >> source_bit(source)) & 1 == 1
}

/// What a read of a context's claim register says: no interrupt for 0,
/// else the id of the claimed interrupt.
pub fn claimed(value: u32) -> (r: Option<usize>)
    ensures
        value == 0 ==> r.is_none(),
        value != 0 ==> r == Some(value as usize),
{
    if value == 0 {
        None
    } else {
        Some(value as usize)
    }
}

/// Enabling a source sets its bit and keeps every other bit; disabling
/// clears its bit and keeps every other bit.
pub proof fn lemma_enable_disable(word: u32, b: u32, c: u32)
    requires
        b < 32,
        c < 32,
        c != b,
    ensures
        bit32(word | (1u32 << b), b),
        !bit32(word & !(1u32 << b), b),
        bit32(word | (1u32 << b), c) == bit32(word, c),
        bit32(word & !(1u32 << b), c) == bit32(word, c),
{
    assert(((word | (1u32 << b)) >> b) & 1 == 1) by (bit_vector)
        requires
            b < 32,
    ;
    assert(((word & !(1u32 << b)) >> b) & 1 != 1) by (bit_vector)
        requires
            b < 32,
    ;
    assert((((word | (1u32 << b)) >> c) & 1 == 1) == (((word >> c) & 1) == 1)) by (bit_vector)
        requires
            b < 32,
            c < 32,
            c != b,
    ;
    assert((((word & !(1u32 << b)) >> c) & 1 == 1) == (((word >> c) & 1) == 1)) by (bit_vector)
        requires
            b < 32,
            c < 32,
            c != b,
    ;
}

} // verus!
