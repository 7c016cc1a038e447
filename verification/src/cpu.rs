//! Values of RISC-V control registers: `misa`, `satp` and the floating point
//! status field of `sstatus`.
use vstd::prelude::*;
use vstd::arithmetic::power2::pow2;
use crate::bits::{lemma_bit_at, lemma_register_fields};
use crate::paging::entry::PhysicalAddress;

verus! {

/// The value of the `misa` register.
#[derive(Debug, Clone, Copy)]
pub struct Misa(pub u64);

/// The extension bits of `misa`, bit `i` standing for the letter `'A' + i`.
#[derive(Debug, Clone, Copy)]
pub struct Extensions(pub u64);

impl Misa {
    /// The width field, read two bits above bit 6 and scaled by 32.
    pub fn mxl(self) -> (r: u64)
        ensures
            r == 32 * (self.0 / 64 % 4),
    {
        proof {
            lemma_register_fields(self.0, 0, 0, 0, 0);
        }
        32 * ((self.0 & (0b11u64 << 6u64)) >> 6u64)
    }

    /// The extension bits: the low 26 bits.
    pub fn extensions(self) -> (r: Extensions)
        ensures
            r.0 == self.0 % 0x400_0000,
    {
        proof {
            lemma_register_fields(self.0, 0, 0, 0, 0);
        }
        Extensions(self.0 & 0x3FF_FFFF)
    }
}

/// Whether bit `i` of `x` is set.
pub open spec fn bit_of(x: u64, i: nat) -> bool {
    (x as nat / pow2(i)) % 2 == 1
}

/// The letter of extension `i`.
pub open spec fn extension_letter(i: nat) -> char {
    (65 + i) as char
}

/// The letters of the extensions among the first `n` whose bits are set, in
/// order.
pub open spec fn letters_below(x: u64, n: nat) -> Seq<char>
    decreases n,
{
    if n == 0 {
        Seq::empty()
    } else if bit_of(x, (n - 1) as nat) {
        letters_below(x, (n - 1) as nat).push(extension_letter((n - 1) as nat))
    } else {
        letters_below(x, (n - 1) as nat)
    }
}

impl Extensions {
    /// The letters of the extensions present, from `A` to `Z`.
    pub fn letters(&self) -> (r: Vec<char>)
        ensures
            r@ == letters_below(self.0, 26),
    {
        let mut r: Vec<char> = Vec::new();
        let mut i: u64 = 0;
        while i < 26
            invariant
                i <= 26,
                r@ == letters_below(self.0, i as nat),
            decreases 26 - i,
        {
            proof {
                vstd::bits::lemma_u64_shr_is_div(self.0, i);
                lemma_bit_at(self.0, i);
            }
            if (self.0 >> i) & 1 == 1 {
                let c = (65u8 + i as u8) as char;
                r.push(c);
            }
            i = i + 1;
        }
        r
    }
}

/// Address translation modes of `satp`.
#[derive(Debug, Clone, Copy, PartialEq, Eq, Structural)]
pub enum SatpMode {
    Bare,
    Sv39,
    Sv48,
    Sv57,
    Sv64,
}

impl SatpMode {
    /// The mode's number in the register.
    pub open spec fn number(self) -> u64 {
        match self {
            SatpMode::Bare => 0,
            SatpMode::Sv39 => 8,
            SatpMode::Sv48 => 9,
            SatpMode::Sv57 => 10,
            SatpMode::Sv64 => 11,
        }
    }

    /// The mode's number in the register.
    pub fn value(self) -> (r: u64)
        ensures
            r == self.number(),
    {
        match self {
            SatpMode::Bare => 0,
            SatpMode::Sv39 => 8,
            SatpMode::Sv48 => 9,
            SatpMode::Sv57 => 10,
            SatpMode::Sv64 => 11,
        }
    }
}

/// The fields of the `satp` register.
#[derive(Debug, Clone, Copy)]
pub struct Satp {
    pub mode: SatpMode,
    pub asid: u16,
    pub root_page_table: PhysicalAddress,
}

impl Satp {
    /// The register value: the mode in bits 60..64, the address space id
    /// from bit 44 and the root table's page number below, or-ed together.
    pub fn as_usize(self) -> (r: u64)
        ensures
            r == ((self.mode.number() << 60u64) | ((self.asid as u64) << 44u64))
                | self.root_page_table.page_number(),
            self.root_page_table.page_number() < 0x1000_0000_0000 ==> r == self.mode.number()
                * 0x1000_0000_0000_0000 + self.asid * 0x1000_0000_0000
                + self.root_page_table.page_number(),
    {
        let mode = self.mode.value();
        let ppn = self.root_page_table.ppn();
        proof {
            lemma_register_fields(0, 0, mode, self.asid as u64, ppn);
        }
        (mode << 60u64) | ((self.asid as u64) << 44u64) | ppn
    }

    /// The fields of a register value whose mode is bare, Sv39 or Sv48: the
    /// root table's address is the value shifted up by 12.
    pub fn from_usize(value: u64) -> (r: Satp)
        requires
            value / 0x1000_0000_0000_0000 == 0 || value / 0x1000_0000_0000_0000 == 8 || value
                / 0x1000_0000_0000_0000 == 9,
        ensures
            r.mode.number() == value / 0x1000_0000_0000_0000,
            r.asid == value / 0x1000_0000_0000 % 0x1_0000,
            r.root_page_table.value() == (value << 12u64),
    {
        proof {
            lemma_register_fields(value, 0, 0, 0, 0);
        }
        let asid = ((value >> 44u64) & 0xFFFF) as u16;
        let root_page_table = PhysicalAddress::new(value << 12u64);
        let top = value >> 60u64;
        let mode = if top == 0 {
            SatpMode::Bare
        } else if top == 8 {
            SatpMode::Sv39
        } else {
            SatpMode::Sv48
        };
        Satp { mode, asid, root_page_table }
    }
}

/// The floating point status field of `sstatus`.
#[derive(Debug, Clone, Copy, PartialEq, Eq, Structural)]
pub enum FloatingPointStatus {
    Off,
    Initial,
    Clean,
    Dirty,
}

impl FloatingPointStatus {
    /// The status's number in the field.
    pub open spec fn number(self) -> u64 {
        match self {
            FloatingPointStatus::Off => 0,
            FloatingPointStatus::Initial => 1,
            FloatingPointStatus::Clean => 2,
            FloatingPointStatus::Dirty => 3,
        }
    }
}

/// The floating point status that an `sstatus` value holds in bits 13..15.
pub fn fs(sstatus: u64) -> (r: FloatingPointStatus)
    ensures
        r.number() == sstatus / 0x2000 % 4,
{
    proof {
        lemma_register_fields(sstatus, 0, 0, 0, 0);
    }
    let field = (sstatus >> 13u64) & 3;
    if field == 0 {
        FloatingPointStatus::Off
    } else if field == 1 {
        FloatingPointStatus::Initial
    } else if field == 2 {
        FloatingPointStatus::Clean
    } else {
        FloatingPointStatus::Dirty
    }
}

/// The `sstatus` value with its floating point status replaced by `status`.
pub fn set_fs(sstatus: u64, status: FloatingPointStatus) -> (r: u64)
    ensures
        r == sstatus - (sstatus / 0x2000 % 4) * 0x2000 + status.number() * 0x2000,
{
    let n: u64 = match status {
        FloatingPointStatus::Off => 0,
        FloatingPointStatus::Initial => 1,
        FloatingPointStatus::Clean => 2,
        FloatingPointStatus::Dirty => 3,
    };
    proof {
        lemma_register_fields(sstatus, n, 0, 0, 0);
    }
    (sstatus & !(3u64 << 13u64)) | (n << 13u64)
}

} // verus!
