//! Permission and status bits of a page table entry.
use vstd::prelude::*;

verus! {

/// Bit of `Flags::NONE`.
pub const NONE: u8 = 0;

/// Bit of `Flags::VALID`.
pub const VALID: u8 = 1;

/// Bit of `Flags::READ`.
pub const READ: u8 = 2;

/// Bit of `Flags::WRITE`.
pub const WRITE: u8 = 4;

/// Bit of `Flags::EXECUTE`.
pub const EXECUTE: u8 = 8;

/// Bit of `Flags::USER`.
pub const USER: u8 = 16;

/// Bit of `Flags::GLOBAL`.
pub const GLOBAL: u8 = 32;

/// Bit of `Flags::ACCESSED`.
pub const ACCESSED: u8 = 64;

/// Bit of `Flags::DIRTY`.
pub const DIRTY: u8 = 128;

/// The low byte of a page table entry: valid, read, write, execute, user,
/// global, accessed and dirty bits.
#[derive(Debug, Clone, Copy, PartialEq, Eq, Structural)]
pub struct Flags(u8);

/// The flags of a page table entry, one field per bit.
pub struct FlagsStruct {
    pub valid: bool,
    pub read: bool,
    pub write: bool,
    pub execute: bool,
    pub user: bool,
    pub global: bool,
    pub accessed: bool,
    pub dirty: bool,
}

/// The letter of a flag when `b` has it, else a dash.
pub open spec fn letter_for(b: u8, bit: u8, c: char) -> char {
    if has_all(b, bit) {
        c
    } else {
        '-'
    }
}

/// The eight letters of a flag byte, from dirty down to valid.
pub open spec fn flag_letters(b: u8) -> Seq<char> {
    seq![
        letter_for(b, 128, 'd'),
        letter_for(b, 64, 'a'),
        letter_for(b, 32, 'g'),
        letter_for(b, 16, 'u'),
        letter_for(b, 8, 'x'),
        letter_for(b, 4, 'w'),
        letter_for(b, 2, 'r'),
        letter_for(b, 1, 'v'),
    ]
}

/// Whether every bit of `rhs` is set in `lhs`.
pub open spec fn has_all(lhs: u8, rhs: u8) -> bool {
    lhs & rhs == rhs
}

impl Flags {
    /// No bit set.
    #[allow(non_snake_case)]
    pub fn NONE() -> (r: Flags)
        ensures
            r.bits() == NONE,
    {
        Flags(NONE)
    }

    /// The entry is valid.
    #[allow(non_snake_case)]
    pub fn VALID() -> (r: Flags)
        ensures
            r.bits() == VALID,
    {
        Flags(VALID)
    }

    /// The page may be read.
    #[allow(non_snake_case)]
    pub fn READ() -> (r: Flags)
        ensures
            r.bits() == READ,
    {
        Flags(READ)
    }

    /// The page may be written.
    #[allow(non_snake_case)]
    pub fn WRITE() -> (r: Flags)
        ensures
            r.bits() == WRITE,
    {
        Flags(WRITE)
    }

    /// The page may be executed.
    #[allow(non_snake_case)]
    pub fn EXECUTE() -> (r: Flags)
        ensures
            r.bits() == EXECUTE,
    {
        Flags(EXECUTE)
    }

    /// The page is reachable from user mode.
    #[allow(non_snake_case)]
    pub fn USER() -> (r: Flags)
        ensures
            r.bits() == USER,
    {
        Flags(USER)
    }

    /// The mapping exists in every address space.
    #[allow(non_snake_case)]
    pub fn GLOBAL() -> (r: Flags)
        ensures
            r.bits() == GLOBAL,
    {
        Flags(GLOBAL)
    }

    /// The page has been accessed.
    #[allow(non_snake_case)]
    pub fn ACCESSED() -> (r: Flags)
        ensures
            r.bits() == ACCESSED,
    {
        Flags(ACCESSED)
    }

    /// The page has been written.
    #[allow(non_snake_case)]
    pub fn DIRTY() -> (r: Flags)
        ensures
            r.bits() == DIRTY,
    {
        Flags(DIRTY)
    }

    /// The bits of these flags.
    pub closed spec fn bits(self) -> u8 {
        self.0
    }

    /// The flags with the given bits.
    pub closed spec fn from_bits(b: u8) -> Flags {
        Flags(b)
    }

    /// `from_bits` keeps the bits it was given.
    pub proof fn lemma_from_bits(b: u8)
        ensures
            Flags::from_bits(b).bits() == b,
    {
    }

    /// The flags with only the user bit.
    pub closed spec fn USER_spec() -> Flags {
        Flags(USER)
    }

    /// No flag set.
    pub closed spec fn NONE_spec() -> Flags {
        Flags(NONE)
    }

    /// `NONE_spec` has no bit set.
    pub proof fn lemma_none_spec()
        ensures
            Flags::NONE_spec().bits() == NONE,
    {
    }

    /// `USER_spec` has only the user bit.
    pub proof fn lemma_user_spec()
        ensures
            Flags::USER_spec().bits() == USER,
    {
    }

    /// Two sets of flags are equal exactly when their bits are.
    pub broadcast proof fn lemma_eq_bits(a: Flags, b: Flags)
        ensures
            #[trigger] a.bits() == #[trigger] b.bits() <==> a == b,
    {
    }

    /// Flags with the given bits.
    pub fn new(n: u8) -> (r: Self)
        ensures
            r.bits() == n,
    {
        Flags(n)
    }

    /// The bits of these flags.
    pub fn value(self) -> (r: u8)
        ensures
            r == self.bits(),
    {
        self.0
    }

    /// The union of two sets of flags.
    pub fn bitor(self, rhs: Self) -> (r: Self)
        ensures
            r.bits() == self.bits() | rhs.bits(),
    {
        Flags(self.0 | rhs.0)
    }

    /// Adds the bits of `rhs` to these flags.
    pub fn bitor_assign(&mut self, rhs: Self)
        ensures
            final(self).bits() == old(self).bits() | rhs.bits(),
    {
        *self = Flags(self.0 | rhs.0);
    }

    /// Whether every bit of `rhs` is set in these flags.
    pub fn bitand(self, rhs: Self) -> (r: bool)
        ensures
            r == has_all(self.bits(), rhs.bits()),
    {
        (self.0 & rhs.0) == rhs.0
    }

    /// The flags as `Debug` shows them: eight letters from dirty down to
    /// valid (`d`, `a`, `g`, `u`, `x`, `w`, `r`, `v`), a dash for each flag
    /// that is clear.
    pub fn letters(self) -> (r: Vec<char>)
        ensures
            r@ == flag_letters(self.bits()),
    {
        let m = self.matchable();
        let mut out: Vec<char> = Vec::new();
        out.push(if m.dirty { 'd' } else { '-' });
        out.push(if m.accessed { 'a' } else { '-' });
        out.push(if m.global { 'g' } else { '-' });
        out.push(if m.user { 'u' } else { '-' });
        out.push(if m.execute { 'x' } else { '-' });
        out.push(if m.write { 'w' } else { '-' });
        out.push(if m.read { 'r' } else { '-' });
        out.push(if m.valid { 'v' } else { '-' });
        proof {
            assert(out@ =~= flag_letters(self.bits()));
        }
        out
    }

    /// The flags one field per bit.
    pub fn matchable(self) -> (r: FlagsStruct)
        ensures
            r.valid == has_all(self.bits(), 1),
            r.read == has_all(self.bits(), 2),
            r.write == has_all(self.bits(), 4),
            r.execute == has_all(self.bits(), 8),
            r.user == has_all(self.bits(), 16),
            r.global == has_all(self.bits(), 32),
            r.accessed == has_all(self.bits(), 64),
            r.dirty == has_all(self.bits(), 128),
    {
        FlagsStruct {
            valid: self.bitand(Self::VALID()),
            read: self.bitand(Self::READ()),
            write: self.bitand(Self::WRITE()),
            execute: self.bitand(Self::EXECUTE()),
            user: self.bitand(Self::USER()),
            global: self.bitand(Self::GLOBAL()),
            accessed: self.bitand(Self::ACCESSED()),
            dirty: self.bitand(Self::DIRTY()),
        }
    }
}

} // verus!
