//! Sv39 page table entries, virtual and physical addresses and page sizes.
use vstd::prelude::*;
use crate::paging::flags::{Flags, VALID, READ, EXECUTE};
use crate::bits::{
    lemma_address_bits, lemma_bit_constants, lemma_entry_assembly, lemma_entry_fields,
    lemma_entry_flag_byte, lemma_entry_flag_byte_kept, lemma_entry_low_bits, lemma_vpn_assembly,
    lemma_vpn_round_trip,
};

verus! {

/// Bits of a virtual page number field.
pub const VPN_BITMASK: u64 = 0x1FF;

/// Bits of a physical page number as the entry stores it.
pub const PPN_MASK: u64 = 0x0FFF_FFFF_FFFF;

/// Number of bits a virtual address of the Sv39 scheme uses.
pub const VA_BITS: u64 = 39;

/// The first address above the lower half of the Sv39 address space.
pub const HALF: u64 = 0x40_0000_0000;

/// The bits that sign extension sets above bit 38.
pub const SIGN_EXTENSION: u64 = 0xFFFF_FF80_0000_0000;

/// The end of the user half of the address space, as the kernel uses it.
pub const USERSPACE_END: u64 = 0x3F_FFFF_FFFF;

/// The first address of the kernel half of the address space.
pub const KERNELSPACE_START: u64 = 0xFFFF_FFC0_0000_0000;

/// `2^64`.
pub open spec fn two64() -> int {
    0x1_0000_0000_0000_0000
}

/// An address with bit 38 copied into all the bits above it.
pub open spec fn sign_extend(addr: u64) -> u64 {
    if addr & 0x40_0000_0000 == 0x40_0000_0000 {
        addr | 0xFFFF_FFC0_0000_0000
    } else {
        addr
    }
}

/// One entry of a page table.
#[derive(Debug, Clone, Copy)]
pub struct PageTableEntry(u64);

/// What an entry points to.
#[derive(Debug, Clone, Copy, PartialEq, Eq, Structural)]
pub enum EntryKind {
    NotValid,
    Leaf,
    Branch(PhysicalAddress),
}

/// The two software bits of a leaf entry.
#[derive(Debug, Clone, Copy, PartialEq, Eq, Structural, PartialOrd, Ord)]
pub struct Rsw(u8);

/// A virtual address of the Sv39 scheme.
#[derive(Debug, Clone, Copy, PartialEq, Eq, Structural, PartialOrd, Ord)]
pub struct VirtualAddress(u64);

/// A physical address.
#[derive(Debug, Clone, Copy, PartialEq, Eq, Structural, PartialOrd, Ord)]
pub struct PhysicalAddress(u64);

/// The sizes of page that a leaf entry can map.
#[derive(Debug, Clone, Copy, PartialEq, Eq, Structural)]
pub enum PageSize {
    Kilopage,
    Megapage,
    Gigapage,
}

impl PageSize {
    /// The number of bytes a page of this size spans.
    pub open spec fn bytes(self) -> u64 {
        match self {
            PageSize::Kilopage => 0x1000,
            PageSize::Megapage => 0x20_0000,
            PageSize::Gigapage => 0x4000_0000,
        }
    }

    /// The level of the page table whose leaves map pages of this size.
    pub open spec fn level(self) -> nat {
        match self {
            PageSize::Kilopage => 0,
            PageSize::Megapage => 1,
            PageSize::Gigapage => 2,
        }
    }

    /// The size one level further down, if any.
    pub open spec fn below(self) -> Option<PageSize> {
        match self {
            PageSize::Kilopage => None,
            PageSize::Megapage => Some(PageSize::Kilopage),
            PageSize::Gigapage => Some(PageSize::Megapage),
        }
    }

    /// Checks that `addr` is a multiple of this page size; the caller must
    /// hand in such an address.
    pub fn assert_addr_aligned(self, addr: u64)
        requires
            addr % self.bytes() == 0,
    {
    }

    /// The number of bytes a page of this size spans.
    pub fn to_byte_size(self) -> (r: u64)
        ensures
            r == self.bytes(),
    {
        match self {
            PageSize::Kilopage => 0x1000,
            PageSize::Megapage => 0x20_0000,
            PageSize::Gigapage => 0x4000_0000,
        }
    }

    /// The page size one level further down, if any.
    pub fn next(self) -> (r: Option<PageSize>)
        ensures
            r == self.below(),
    {
        match self {
            PageSize::Kilopage => None,
            PageSize::Megapage => Some(PageSize::Kilopage),
            PageSize::Gigapage => Some(PageSize::Megapage),
        }
    }

    /// The page size of the root table's leaves.
    pub fn top_level() -> (r: PageSize)
        ensures
            r == PageSize::Gigapage,
    {
        PageSize::Gigapage
    }

    /// The level of the page table whose leaves map pages of this size.
    pub fn index(self) -> (r: usize)
        ensures
            r == self.level(),
    {
        match self {
            PageSize::Kilopage => 0,
            PageSize::Megapage => 1,
            PageSize::Gigapage => 2,
        }
    }
}

impl Rsw {
    /// The bits of this value.
    pub closed spec fn bits(self) -> u8 {
        self.0
    }

    /// The software field is two bits wide.
    #[verifier::type_invariant]
    pub closed spec fn fits(self) -> bool {
        self.0 < 4
    }

    /// Two values are equal exactly when their bits are.
    pub broadcast proof fn lemma_eq_bits(a: Rsw, b: Rsw)
        ensures
            #[trigger] a.bits() == #[trigger] b.bits() <==> a == b,
    {
    }

    /// No software bits: the page belongs to the region that maps it.
    #[allow(non_snake_case)]
    pub fn NONE() -> (r: Rsw)
        ensures
            r.bits() == 0,
    {
        Rsw(0)
    }

    /// The software bits of a page of shared memory.
    pub closed spec fn SHARED_MEMORY_spec() -> Rsw {
        Rsw(1)
    }

    /// The page is shared memory.
    #[allow(non_snake_case)]
    pub fn SHARED_MEMORY() -> (r: Rsw)
        ensures
            r.bits() == 1,
            r == Rsw::SHARED_MEMORY_spec(),
    {
        Rsw(1)
    }

    /// The software bits of a page mapped directly.
    pub closed spec fn DIRECT_spec() -> Rsw {
        Rsw(2)
    }

    /// The page is mapped directly.
    #[allow(non_snake_case)]
    pub fn DIRECT() -> (r: Rsw)
        ensures
            r.bits() == 2,
            r == Rsw::DIRECT_spec(),
    {
        Rsw(2)
    }
}

impl PhysicalAddress {
    /// The address as a number.
    pub closed spec fn value(self) -> u64 {
        self.0
    }

    /// Two addresses are equal exactly when their values are.
    pub broadcast proof fn lemma_eq_value(a: PhysicalAddress, b: PhysicalAddress)
        ensures
            #[trigger] a.value() == #[trigger] b.value() <==> a == b,
    {
    }

    /// The address with value `v`.
    pub closed spec fn at(v: u64) -> PhysicalAddress {
        PhysicalAddress(v)
    }

    /// The address with value `v` has value `v`.
    pub broadcast proof fn lemma_at(v: u64)
        ensures
            #[trigger] PhysicalAddress::at(v).value() == v,
    {
    }

    /// The physical page number of this address.
    pub open spec fn page_number(self) -> u64 {
        ((self.value() / 0x1000) % 0x1000_0000_0000) as u64
    }

    /// The address `addr`.
    pub fn new(addr: u64) -> (r: Self)
        ensures
            r.value() == addr,
    {
        PhysicalAddress(addr)
    }

    /// The address `bytes` further on; the sum must not overflow.
    pub fn offset(self, bytes: u64) -> (r: Self)
        requires
            self.value() + bytes <= u64::MAX,
        ensures
            r.value() == self.value() + bytes,
    {
        PhysicalAddress(self.0 + bytes)
    }

    /// The address as a number.
    pub fn as_usize(self) -> (r: u64)
        ensures
            r == self.value(),
    {
        self.0
    }

    /// The three physical page number fields of the address: bits 12..21,
    /// 21..30 and 30..56.
    pub fn ppns(self) -> (r: [u64; 3])
        ensures
            r@[0] == (self.value() / 0x1000) % 0x200,
            r@[1] == (self.value() / 0x20_0000) % 0x200,
            r@[2] == (self.value() / 0x4000_0000) % 0x400_0000,
    {
        let a = self.0;
        let r0 = (a >> 12u64) & 0x1FF;
        let r1 = (a >> 21u64) & 0x1FF;
        let r2 = (a >> 30u64) & 0x3FF_FFFF;
        proof {
            lemma_address_bits(a);
        }
        [r0, r1, r2]
    }

    /// The 44-bit physical page number of the address, shifted down.
    pub fn ppn(self) -> (r: u64)
        ensures
            r == self.page_number(),
    {
        let a = self.0;
        let r = (a >> 12u64) & PPN_MASK;
        proof {
            lemma_address_bits(a);
        }
        r
    }

    /// The offset of the address into a page of the given size.
    pub fn offset_into_page(self, page_size: PageSize) -> (r: u64)
        ensures
            r == self.value() % page_size.bytes(),
    {
        let a = self.0;
        let size = page_size.to_byte_size();
        let r = a & (size - 1);
        proof {
            lemma_mask_is_mod(a, page_size);
        }
        r
    }

    /// The null address.
    pub fn null() -> (r: Self)
        ensures
            r.value() == 0,
    {
        PhysicalAddress(0)
    }
}

/// Masking with `size - 1` takes the remainder by a page size.
pub proof fn lemma_mask_is_mod(a: u64, size: PageSize)
    ensures
        a & (size.bytes() - 1) as u64 == a % size.bytes(),
        a & !((size.bytes() - 1) as u64) == a - a % size.bytes(),
{
    lemma_address_bits(a);
}


impl PageTableEntry {
    /// The entry's bits.
    pub closed spec fn bits(self) -> u64 {
        self.0
    }

    /// Two entries are equal exactly when their bits are.
    pub broadcast proof fn lemma_eq_bits(a: PageTableEntry, b: PageTableEntry)
        ensures
            #[trigger] a.bits() == #[trigger] b.bits() <==> a == b,
    {
    }

    /// The flag byte: bits 0..8.
    pub open spec fn flag_byte(self) -> u8 {
        (self.bits() % 0x100) as u8
    }

    /// The software bits: bits 8..10.
    pub open spec fn rsw_field(self) -> u8 {
        (self.bits() / 0x100 % 4) as u8
    }

    /// The physical page number field: bits 10..64.
    pub open spec fn ppn_field(self) -> u64 {
        self.bits() / 0x400
    }

    /// Whether the valid bit is set.
    pub open spec fn valid(self) -> bool {
        self.bits() % 2 == 1
    }

    /// The physical address the page number field points to, cut to 64
    /// bits: the low 52 bits of the field, shifted up by 12.
    pub open spec fn target(self) -> u64 {
        ((self.ppn_field() % 0x10_0000_0000_0000) * 0x1000) as u64
    }

    /// What the entry points to: nothing, a page, or the next table.
    pub open spec fn kind_of(self) -> EntryKind {
        if !has_flag(self.flag_byte(), VALID) {
            EntryKind::NotValid
        } else if has_flag(self.flag_byte(), READ) || has_flag(self.flag_byte(), EXECUTE) {
            EntryKind::Leaf
        } else {
            EntryKind::Branch(PhysicalAddress::at(self.target()))
        }
    }

    /// The entry whose fields are the given page number, software bits and
    /// flag byte.
    pub closed spec fn with_fields(ppn: u64, rsw: u8, flags: u8) -> PageTableEntry {
        PageTableEntry((ppn * 0x400 + (rsw % 4) as int * 0x100 + flags) as u64)
    }

    /// An entry is determined by its three fields.
    pub proof fn lemma_fields(e: PageTableEntry)
        ensures
            e == PageTableEntry::with_fields(e.ppn_field(), e.rsw_field(), e.flag_byte()),
    {
        let b = e.0;
        let r: u64 = b / 0x100 % 4;
        let f: u64 = b % 0x100;
        lemma_entry_fields(b, 0, 0, 0);
        assert((e.rsw_field() % 4) as int == r);
        assert(e.flag_byte() as int == f);
    }

    /// The fields of `with_fields` are the ones it was given, for a page
    /// number below `2^54` and software bits below 4.
    pub proof fn lemma_with_fields(ppn: u64, rsw: u8, flags: u8)
        requires
            ppn < 0x40_0000_0000_0000,
            rsw < 4,
        ensures
            PageTableEntry::with_fields(ppn, rsw, flags).ppn_field() == ppn,
            PageTableEntry::with_fields(ppn, rsw, flags).rsw_field() == rsw,
            PageTableEntry::with_fields(ppn, rsw, flags).flag_byte() == flags,
    {
        let r = rsw as u64;
        let f = flags as u64;
        let b = (ppn * 0x400 + r * 0x100 + f) as u64;
        lemma_entry_assembly(ppn, r, f);
        assert(PageTableEntry::with_fields(ppn, rsw, flags).0 == b);
    }

    /// An entry with all bits clear.
    pub fn new() -> (r: Self)
        ensures
            r.bits() == 0,
    {
        PageTableEntry(0)
    }

    /// An entry with the given bits.
    pub fn from_bits(bits: u64) -> (r: Self)
        ensures
            r.bits() == bits,
    {
        PageTableEntry(bits)
    }

    /// The entry's bits.
    pub fn as_bits(self) -> (r: u64)
        ensures
            r == self.bits(),
    {
        self.0
    }

    /// Whether the valid bit is set.
    pub fn is_valid(self) -> (r: bool)
        ensures
            r == self.valid(),
    {
        let b = self.0;
        proof {
            lemma_entry_low_bits(b);
        }
        b & 1 == 1
    }

    /// The flag byte of the entry.
    pub fn flags(self) -> (r: Flags)
        ensures
            r.bits() == self.flag_byte(),
    {
        let b = self.0;
        proof {
            lemma_entry_flag_byte(b, 0);
        }
        Flags::new(b as u8)
    }

    /// Replaces the flag byte, keeping the other bits.
    pub fn set_flags(&mut self, flags: Flags)
        ensures
            final(self).flag_byte() == flags.bits(),
            final(self).rsw_field() == old(self).rsw_field(),
            final(self).ppn_field() == old(self).ppn_field(),
    {
        let b = self.0;
        let f = flags.value();
        let n = (b & !0xFFu64) | (f as u64);
        proof {
            lemma_entry_fields(b, f, 0, 0);
            lemma_entry_flag_byte(b, f);
        }
        self.0 = n;
    }

    /// The software bits of the entry.
    pub fn rsw(self) -> (r: Rsw)
        ensures
            r.bits() == self.rsw_field(),
    {
        let b = self.0;
        let r = ((b >> 8u64) & 0b11) as u8;
        proof {
            lemma_entry_low_bits(b);
            assert(((b >> 8u64) & 0b11) < 4) by (bit_vector);
        }
        Rsw(r)
    }

    /// Sets the software field, bits 8 and 9, to `rsw`, keeping the flags
    /// and the page number.
    pub fn write_rsw_field(&mut self, rsw: Rsw)
        ensures
            final(self).rsw_field() == rsw.bits(),
            final(self).flag_byte() == old(self).flag_byte(),
            final(self).ppn_field() == old(self).ppn_field(),
    {
        let b = self.0;
        let v = rsw.0;
        let n = (b & !(0x3u64 << 8u64)) | (((v & 0x3) as u64) << 8u64);
        proof {
            use_type_invariant(&rsw);
            crate::bits::lemma_entry_rsw_field(b, v);
            assert(v < 4 ==> v & 3 == v) by (bit_vector);
        }
        self.0 = n;
    }

    /// Clears the software bits and sets the low two bits of `rsw` into the
    /// flag byte's valid and read bits: the value goes into bits 0..2, not
    /// into bits 8..10.
    pub fn set_rsw(&mut self, rsw: Rsw)
        ensures
            final(self).rsw_field() == 0,
            final(self).flag_byte() == old(self).flag_byte() | (rsw.bits() & 3),
            final(self).ppn_field() == old(self).ppn_field(),
    {
        let b = self.0;
        let v = rsw.0;
        let n = (b & !(0x3u64 << 8u64)) | ((v & 0x3) as u64);
        proof {
            lemma_entry_fields(b, 0, v, 0);
            lemma_entry_flag_byte_kept(b, v, 0);
        }
        self.0 = n;
    }

    /// The physical address the entry points to, if the entry is valid.
    pub fn ppn(self) -> (r: Option<PhysicalAddress>)
        ensures
            r == (if self.valid() {
                Some(PhysicalAddress::at(self.target()))
            } else {
                None
            }),
    {
        if !self.is_valid() {
            return None;
        }
        let b = self.0;
        let a = (b >> 10u64) << 12u64;
        proof {
            lemma_entry_fields(b, 0, 0, 0);
        }
        Some(PhysicalAddress::new(a))
    }

    /// After `set_ppn` of an address below 2^56, the entry points at that
    /// address's page: `ppn` of a valid entry gives the address rounded down
    /// to its page.
    pub proof fn lemma_set_ppn_points_at(e: PageTableEntry, address: PhysicalAddress)
        requires
            e.ppn_field() == address.page_number(),
            address.value() < 0x100_0000_0000_0000,
        ensures
            e.target() == address.value() - address.value() % 0x1000,
    {
        let a = address.value() as int;
        assert(a / 0x1000 < 0x1000_0000_0000) by (nonlinear_arith)
            requires
                0 <= a < 0x100_0000_0000_0000,
        ;
        assert((a / 0x1000) * 0x1000 == a - a % 0x1000) by (nonlinear_arith)
            requires
                0 <= a,
        ;
    }

    /// Points the entry at the page of `address`, keeping flags and software
    /// bits.
    pub fn set_ppn(&mut self, address: PhysicalAddress)
        ensures
            final(self).ppn_field() == address.page_number(),
            final(self).flag_byte() == old(self).flag_byte(),
            final(self).rsw_field() == old(self).rsw_field(),
    {
        let p = address.ppn();
        let b = self.0;
        let n = (b & 0x3FF) | (p << 10u64);
        proof {
            lemma_entry_fields(b, 0, 0, p);
            lemma_entry_flag_byte_kept(b, 0, p);
        }
        self.0 = n;
    }

    /// What the entry points to.
    pub fn kind(self) -> (r: EntryKind)
        ensures
            r == self.kind_of(),
    {
        let flags = self.flags();
        if !flags.bitand(Flags::VALID()) {
            EntryKind::NotValid
        } else if flags.bitand(Flags::READ()) || flags.bitand(Flags::EXECUTE()) {
            EntryKind::Leaf
        } else {
            match self.ppn() {
                Some(p) => EntryKind::Branch(p),
                None => {
                    proof {
                        let b = self.bits();
                        lemma_entry_flag_byte(b, 0);
                    }
                    EntryKind::NotValid
                },
            }
        }
    }
}

/// Whether every bit of `bit` is set in `byte`.
pub open spec fn has_flag(byte: u8, bit: u8) -> bool {
    byte & bit == bit
}


/// Whether an address lies in the kernel half: its top bit is set.
pub open spec fn in_kernel_half(v: u64) -> bool {
    v >= 0x8000_0000_0000_0000
}

/// Whether an address lies in the range the kernel gives to user space.
pub open spec fn in_userspace(v: u64) -> bool {
    v < USERSPACE_END
}

/// Whether an address lies in the range the kernel keeps for itself.
pub open spec fn in_kernelspace(v: u64) -> bool {
    KERNELSPACE_START <= v && v < u64::MAX
}

/// The address `bytes` above `a`, when the sum does not overflow, stays in
/// the same half and does not land in the hole between the halves.
pub open spec fn added(a: u64, bytes: u64) -> Option<u64> {
    if a + bytes > u64::MAX {
        None
    } else {
        let n = (a + bytes) as u64;
        if in_kernel_half(n) == in_kernel_half(a) && (in_kernel_half(n) || in_userspace(n)) {
            Some(n)
        } else {
            None
        }
    }
}

/// The address `bytes` below `a`, when the difference is not negative, stays
/// in the same half and lies in the user or kernel range.
pub open spec fn subtracted(a: u64, bytes: u64) -> Option<u64> {
    if a < bytes {
        None
    } else {
        let n = (a - bytes) as u64;
        if in_kernel_half(n) == in_kernel_half(a) && (in_kernelspace(n) || in_userspace(n)) {
            Some(n)
        } else {
            None
        }
    }
}

/// The address `offset` away from `a`, under the rules of `added` and
/// `subtracted`.
pub open spec fn offset_by(a: u64, offset: i64) -> Option<u64> {
    if offset > 0 {
        added(a, offset as u64)
    } else {
        subtracted(a, (-offset) as u64)
    }
}

/// The virtual page number of `level` (0 to 2) of an address.
pub open spec fn vpn_of(v: u64, level: int) -> u64 {
    if level == 0 {
        (v / 0x1000) % 0x200
    } else if level == 1 {
        (v / 0x20_0000) % 0x200
    } else {
        (v / 0x4000_0000) % 0x200
    }
}

impl VirtualAddress {
    /// The address as a number.
    pub closed spec fn value(self) -> u64 {
        self.0
    }

    /// The address with value `v`.
    pub closed spec fn at(v: u64) -> VirtualAddress {
        VirtualAddress(v)
    }

    /// The address with value `v` has value `v`.
    pub broadcast proof fn lemma_at(v: u64)
        ensures
            #[trigger] VirtualAddress::at(v).value() == v,
    {
    }

    /// Two addresses are equal exactly when their values are.
    pub broadcast proof fn lemma_eq_value(a: VirtualAddress, b: VirtualAddress)
        ensures
            #[trigger] a.value() == #[trigger] b.value() <==> a == b,
    {
    }

    /// The address `addr` with bit 38 copied into the bits above it.
    pub fn new(addr: u64) -> (r: Self)
        ensures
            r.value() == sign_extend(addr),
    {
        let top_most_bit: u64 = 1u64 << 38u64;
        proof {
            lemma_bit_constants();
        }
        let mut a = addr;
        if a & top_most_bit == top_most_bit {
            let ext: u64 = u64::MAX << 38u64;
            a = a | ext;
        }
        VirtualAddress(a)
    }

    /// The address `bytes` further on; the caller must keep it valid.
    pub fn add(self, bytes: u64) -> (r: Self)
        requires
            added(self.value(), bytes).is_some(),
        ensures
            r.value() == added(self.value(), bytes).unwrap(),
    {
        match self.checked_add(bytes) {
            Some(address) => address,
            None => {
                proof {
                    assert(false);
                }
                self
            },
        }
    }

    /// The address `bytes` further on, or `None` when the sum overflows,
    /// leaves the half it started in, or lands in the hole between halves.
    pub fn checked_add(self, bytes: u64) -> (r: Option<Self>)
        ensures
            r.is_some() == added(self.value(), bytes).is_some(),
            r.is_some() ==> r.unwrap().value() == added(self.value(), bytes).unwrap(),
    {
        let new = match self.0.checked_add(bytes) {
            Some(n) => n,
            None => return None,
        };
        let same_region = Self::is_kernel(new) == Self::is_kernel(self.0);
        let not_hole = Self::is_kernel(new) || new < USERSPACE_END;
        if !same_region || !not_hole {
            return None;
        }
        Some(VirtualAddress(new))
    }

    /// Whether a value has its top bit set.
    fn is_kernel(v: u64) -> (r: bool)
        ensures
            r == in_kernel_half(v),
    {
        v >= 0x8000_0000_0000_0000
    }

    /// The address `offset` away; the caller must keep it valid.
    pub fn offset(self, offset: i64) -> (r: Self)
        requires
            offset != i64::MIN,
            offset_by(self.value(), offset).is_some(),
        ensures
            r.value() == offset_by(self.value(), offset).unwrap(),
    {
        match self.checked_offset(offset) {
            Some(address) => address,
            None => {
                proof {
                    assert(false);
                }
                self
            },
        }
    }

    /// The address `offset` away, or `None` when it would leave the half it
    /// started in or land outside the user and kernel ranges.
    pub fn checked_offset(self, offset: i64) -> (r: Option<Self>)
        requires
            offset != i64::MIN,
        ensures
            r.is_some() == offset_by(self.value(), offset).is_some(),
            r.is_some() ==> r.unwrap().value() == offset_by(self.value(), offset).unwrap(),
    {
        if offset > 0 {
            self.checked_add(offset as u64)
        } else {
            let o = (-offset) as u64;
            let new = match self.0.checked_sub(o) {
                Some(n) => n,
                None => return None,
            };
            let same_region = Self::is_kernel(new) == Self::is_kernel(self.0);
            let not_hole = (KERNELSPACE_START <= new && new < u64::MAX) || new < USERSPACE_END;
            if !same_region || !not_hole {
                return None;
            }
            Some(VirtualAddress(new))
        }
    }

    /// The address `offset` away without the checks of `checked_offset`; the
    /// result must not overflow.
    pub fn unchecked_offset(self, offset: i64) -> (r: Self)
        requires
            offset != i64::MIN,
            offset > 0 ==> self.value() + offset <= u64::MAX,
            offset <= 0 ==> self.value() + offset >= 0,
        ensures
            r.value() == self.value() + offset,
    {
        if offset > 0 {
            VirtualAddress(self.0 + offset as u64)
        } else {
            let o = (-offset) as u64;
            VirtualAddress(self.0 - o)
        }
    }

    /// The address as a number.
    pub fn as_usize(self) -> (r: u64)
        ensures
            r == self.value(),
    {
        self.0
    }

    /// Whether the address is zero.
    pub fn is_null(self) -> (r: bool)
        ensures
            r == (self.value() == 0),
    {
        self.0 == 0
    }

    /// The address rounded down to a multiple of the page size.
    pub fn align_down_to(self, size: PageSize) -> (r: Self)
        ensures
            r.value() == self.value() - self.value() % size.bytes(),
    {
        let bytes = size.to_byte_size();
        proof {
            lemma_mask_is_mod(self.0, size);
        }
        VirtualAddress(self.0 & !(bytes - 1))
    }

    /// The start of the page after the one holding the address; the sum must
    /// not overflow.
    pub fn align_to_next(self, size: PageSize) -> (r: Self)
        requires
            self.value() - self.value() % size.bytes() + size.bytes() <= u64::MAX,
        ensures
            r.value() == self.value() - self.value() % size.bytes() + size.bytes(),
    {
        let down = self.align_down_to(size);
        VirtualAddress(down.0 + size.to_byte_size())
    }

    /// The three virtual page numbers of the address, lowest level first.
    pub fn vpns(self) -> (r: [usize; 3])
        ensures
            r@.len() == 3,
            forall|i: int| 0 <= i < 3 ==> r@[i] == vpn_of(self.value(), i),
    {
        let a = self.0;
        let v0 = (a >> 12u64) & VPN_BITMASK;
        let v1 = (a >> 21u64) & VPN_BITMASK;
        let v2 = (a >> 30u64) & VPN_BITMASK;
        proof {
            lemma_address_bits(a);
        }
        let r = [v0 as usize, v1 as usize, v2 as usize];
        assert(r@[0] == vpn_of(a, 0) && r@[1] == vpn_of(a, 1) && r@[2] == vpn_of(a, 2));
        r
    }

    /// The offset of the address into a page of the given size.
    pub fn offset_into_page(self, page_size: PageSize) -> (r: u64)
        ensures
            r == self.value() % page_size.bytes(),
    {
        proof {
            lemma_mask_is_mod(self.0, page_size);
        }
        self.0 & (page_size.to_byte_size() - 1)
    }

    /// Whether the address is a multiple of the page size.
    pub fn is_aligned(self, page_size: PageSize) -> (r: bool)
        ensures
            r == (self.value() % page_size.bytes() == 0),
    {
        self.offset_into_page(page_size) == 0
    }

    /// The address whose page numbers are `vpns`, lowest level first, with
    /// bit 38 copied into the bits above it.
    pub fn from_vpns(vpns: [usize; 3]) -> (r: Self)
        ensures
            r.value() == sign_extend(
                ((vpns@[0] as u64) << 12u64) | ((vpns@[1] as u64) << 21u64) | ((vpns@[2] as u64)
                    << 30u64),
            ),
            vpns@[0] < 0x200 && vpns@[1] < 0x200 && vpns@[2] < 0x200 ==> r.value() == sign_extend(
                (vpns@[0] * 0x1000 + vpns@[1] * 0x20_0000 + vpns@[2] * 0x4000_0000) as u64,
            ),
    {
        let a0 = vpns[0] as u64;
        let a1 = vpns[1] as u64;
        let a2 = vpns[2] as u64;
        let addr = (a0 << 12u64) | (a1 << 21u64) | (a2 << 30u64);
        proof {
            lemma_vpn_assembly(a0, a1, a2);
        }
        Self::new(addr)
    }

    /// Whether the address lies in the kernel half.
    pub fn is_kernel_region(self) -> (r: bool)
        ensures
            r == in_kernel_half(self.value()),
    {
        Self::is_kernel(self.0)
    }

    /// The range the kernel gives to user space.
    pub fn userspace_range() -> (r: core::ops::Range<VirtualAddress>)
        ensures
            r.start.value() == 0,
            r.end.value() == USERSPACE_END,
    {
        proof {
            lemma_bit_constants();
        }
        VirtualAddress::new(0)..VirtualAddress::new(USERSPACE_END)
    }

    /// The range the kernel keeps for itself.
    pub fn kernelspace_range() -> (r: core::ops::Range<VirtualAddress>)
        ensures
            r.start.value() == KERNELSPACE_START,
            r.end.value() == u64::MAX,
    {
        let start = VirtualAddress::from_vpns([0, 0, 256]);
        let end = VirtualAddress::new(u64::MAX);
        proof {
            lemma_bit_constants();
        }
        assert((0usize * 0x1000 + 0usize * 0x20_0000 + 256usize * 0x4000_0000) as u64
            == 0x40_0000_0000u64);
        start..end
    }
}

/// Whether the bits of an address above bit 38 all equal bit 38.
pub open spec fn canonical(a: u64) -> bool {
    a < HALF || a >= KERNELSPACE_START
}

/// The fields of an entry by its bits, as the Sv39 scheme lays them out:
/// the flags are bits 0..8 (valid is bit 0), the software bits 8..10, the
/// page number bits 10..64, and the address it points to is the page
/// number's low 52 bits shifted up by 12.
pub proof fn lemma_entry_layout(e: PageTableEntry)
    ensures
        e.flag_byte() == (e.bits() & 0xFF) as u8,
        e.valid() == (e.bits() & 1 == 1),
        e.rsw_field() == ((e.bits() >> 8u64) & 3) as u8,
        e.ppn_field() == e.bits() >> 10u64,
        e.target() == ((e.bits() >> 10u64) & 0xF_FFFF_FFFF_FFFF) << 12u64,
{
    let b = e.bits();
    assert((b % 0x100) as u8 == (b & 0xFF) as u8 && (b % 2 == 1) == (b & 1 == 1) && (b / 0x100 % 4) as u8
        == ((b >> 8u64) & 3) as u8 && b / 0x400 == b >> 10u64 && (((b / 0x400) % 0x10_0000_0000_0000) * 0x1000) as u64
        == ((b >> 10u64) & 0xF_FFFF_FFFF_FFFF) << 12u64) by (bit_vector);
}

/// The page numbers of an address, put back together, give the start of its
/// page: for every address whose top bits copy bit 38.
pub proof fn lemma_vpns_round_trip(a: u64)
    requires
        canonical(a),
    ensures
        sign_extend(
            (vpn_of(a, 0) * 0x1000 + vpn_of(a, 1) * 0x20_0000 + vpn_of(a, 2) * 0x4000_0000) as u64,
        ) == a - a % 0x1000,
{
    lemma_vpn_round_trip(a);
}

} // verus!
