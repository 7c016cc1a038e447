//! Page-aligned ranges of addresses, and the offsets between the physical
//! map, the kernel's sections and physical memory.
use vstd::prelude::*;
use crate::paging::entry::{added, sign_extend, PageSize, PhysicalAddress, VirtualAddress};

verus! {

/// Keeps `Address` to the two kinds of address of this crate.
pub trait Sealed {
}

impl Sealed for VirtualAddress {
}

impl Sealed for PhysicalAddress {
}

/// A virtual or physical address.
pub trait Address: Sealed + Sized + Copy {
    /// The address as a number.
    spec fn addr(self) -> u64;

    /// Whether `checked_add` of `amount` succeeds, and what it gives.
    spec fn added_to(self, amount: u64) -> Option<u64>;

    /// The address as a number.
    fn address(self) -> (r: u64)
        ensures
            r == self.addr(),
    ;

    /// The address `addr`.
    fn from_address(addr: u64) -> Self;

    /// The address `amount` bytes further on, where there is one.
    fn checked_add(self, amount: u64) -> (r: Option<Self>)
        ensures
            r.is_some() == self.added_to(amount).is_some(),
            r.is_some() ==> r.unwrap().addr() == self.added_to(amount).unwrap(),
    ;
}

impl Address for VirtualAddress {
    open spec fn addr(self) -> u64 {
        self.value()
    }

    open spec fn added_to(self, amount: u64) -> Option<u64> {
        added(self.value(), amount)
    }

    fn address(self) -> (r: u64) {
        self.as_usize()
    }

    fn from_address(addr: u64) -> (r: Self)
        ensures
            r.value() == sign_extend(addr),
    {
        VirtualAddress::new(addr)
    }

    fn checked_add(self, amount: u64) -> (r: Option<Self>) {
        VirtualAddress::checked_add(self, amount)
    }
}

impl Address for PhysicalAddress {
    open spec fn addr(self) -> u64 {
        self.value()
    }

    open spec fn added_to(self, amount: u64) -> Option<u64> {
        if self.value() + amount <= u64::MAX {
            Some((self.value() + amount) as u64)
        } else {
            None
        }
    }

    fn address(self) -> (r: u64) {
        self.as_usize()
    }

    fn from_address(addr: u64) -> (r: Self)
        ensures
            r.value() == addr,
    {
        PhysicalAddress::new(addr)
    }

    fn checked_add(self, amount: u64) -> (r: Option<Self>) {
        match self.as_usize().checked_add(amount) {
            Some(sum) => Some(PhysicalAddress::new(sum)),
            None => None,
        }
    }
}

/// The pages of `page_size` from `start` up to `end`.
#[derive(Clone, Copy)]
pub struct PageRange<A: Address> {
    pub start: A,
    pub end: A,
    pub page_size: PageSize,
}

impl<A: Address> PageRange<A> {
    /// The range from `start` to `end`, both aligned to `page_size`.
    pub fn new(start: A, end: A, page_size: PageSize) -> (r: Self)
        requires
            start.addr() % page_size.bytes() == 0,
            end.addr() % page_size.bytes() == 0,
        ensures
            r.start == start,
            r.end == end,
            r.page_size == page_size,
    {
        page_size.assert_addr_aligned(start.address());
        page_size.assert_addr_aligned(end.address());
        PageRange { start, end, page_size }
    }

    /// The range as a standard range of addresses.
    pub fn into_std_range(self) -> (r: core::ops::Range<A>)
        ensures
            r.start == self.start,
            r.end == self.end,
    {
        self.start..self.end
    }

    /// The pages of the range, one at a time.
    pub fn iter(&self) -> (r: PageRangeIter<A>)
        ensures
            r.current == self.start,
            r.end == self.end,
            r.page_size == self.page_size,
    {
        PageRangeIter { current: self.start, end: self.end, page_size: self.page_size }
    }
}

/// The pages of a range not handed out yet.
pub struct PageRangeIter<A: Address> {
    pub current: A,
    pub end: A,
    pub page_size: PageSize,
}

impl<A: Address> PageRangeIter<A> {
    /// The next page: none once the end is reached or when the next page
    /// would not be an address; else the current page, the iterator moving
    /// on by one page.
    pub fn next(&mut self) -> (r: Option<A>)
        ensures
            old(self).current.addr() == old(self).end.addr() ==> r.is_none() && *final(self) == *old(self),
            old(self).current.addr() != old(self).end.addr() ==> match old(self).current.added_to(
                old(self).page_size.bytes(),
            ) {
                None => r.is_none() && *final(self) == *old(self),
                Some(n) => r == Some(old(self).current) && final(self).current.addr() == n
                    && final(self).end == old(self).end && final(self).page_size == old(self).page_size,
            },
    {
        if self.current.address() == self.end.address() {
            return None;
        }
        let new = match self.current.checked_add(self.page_size.to_byte_size()) {
            Some(n) => n,
            None => return None,
        };
        let old_current = self.current;
        self.current = new;
        Some(old_current)
    }
}

/// The virtual address of `phys` in the physical map at `phys_offset`.
pub fn phys2virt(phys: PhysicalAddress, phys_offset: u64) -> (r: VirtualAddress)
    requires
        phys.value() + phys_offset <= u64::MAX,
    ensures
        r.value() == sign_extend((phys.value() + phys_offset) as u64),
{
    VirtualAddress::new(phys.offset(phys_offset).as_usize())
}

/// The physical address that `virt` in the physical map at `phys_offset`
/// stands for.
pub fn virt2phys(virt: VirtualAddress, phys_offset: u64) -> (r: PhysicalAddress)
    requires
        virt.value() >= phys_offset,
    ensures
        r.value() == virt.value() - phys_offset,
{
    PhysicalAddress::new(virt.as_usize() - phys_offset)
}

/// The virtual address of `phys` in the kernel's sections, which the loader
/// put at `load_location` and which run at `page_offset`.
pub fn kernel_section_p2v(phys: PhysicalAddress, load_location: u64, page_offset: u64) -> (r: VirtualAddress)
    requires
        load_location != 0,
        phys.value() >= load_location,
        phys.value() - load_location + page_offset <= u64::MAX,
    ensures
        r.value() == sign_extend((phys.value() - load_location + page_offset) as u64),
{
    VirtualAddress::new(phys.as_usize() - load_location + page_offset)
}

/// The physical address of `virt` in the kernel's sections, which the
/// loader put at `load_location` and which run at `page_offset`.
pub fn kernel_section_v2p(virt: VirtualAddress, load_location: u64, page_offset: u64) -> (r: PhysicalAddress)
    requires
        load_location != 0,
        virt.value() >= page_offset,
        virt.value() - page_offset + load_location <= u64::MAX,
    ensures
        r.value() == virt.value() - page_offset + load_location,
{
    PhysicalAddress::new(virt.as_usize() - page_offset + load_location)
}

} // verus!
