//! The memory manager of a user address space: its page table and the map
//! of what each span of the space holds.
use vstd::prelude::*;
use crate::address_map::{
    alloc_entries, allocates, free_entries, frees, hi, lo, lower_bound, AddressMap, AddressRegion,
    AddressRegionKind, Entries, Userspace,
};
use crate::paging::entry::{
    added, in_kernel_half, offset_by, sign_extend, PageSize, PageTableEntry, PhysicalAddress, Rsw,
    VirtualAddress,
};
use crate::paging::flags::Flags;
use crate::paging::table::{
    walk_from, lemma_map_ok_fresh, leaf_flags_ok, map_ok, map_spec, zero_table, PageTable, Walk,
};
use crate::region::{
    backing_ok, backing_result, run_addresses, MemoryRegion, PhysicalRegion, SharedPhysicalRegion, UniquePhysicalRegion,
};
use crate::phys::BitmapAllocator;
use crate::paging::table::{leaf_byte, makes_leaf, maps_to, run_ok, run_spec};
use core::ops::Range;
use crate::address_map::{region_of, unoccupied};
use crate::paging::entry::USERSPACE_END;
use crate::placement::{
    free_pick, rounded, guarded_linear_pick, guarded_pick, guarded_random_pick, jittered, lemma_page_size_pow2,
    linear_pick, random_pick, tries, Probe, RANDOM_TRIES,
};
use crate::utils::{is_pow2, round_up_to_next};
use crate::trap::Trap;
use crate::paging::entry::has_flag;

verus! {

/// Why a span of user memory may not be used.
#[derive(Debug, Clone, Copy, PartialEq, Eq, Structural)]
pub enum InvalidRegion {
    NotMapped,
    InvalidPermissions,
}

/// What a new region is filled with.
pub enum FillOption<'a> {
    Data(&'a [u8]),
    Unitialized,
    Zeroed,
}

/// A region to allocate: `len` pages of `size`, with `flags`.
pub struct RegionDescription<'a> {
    pub size: PageSize,
    pub len: usize,
    pub contiguous: bool,
    pub flags: Flags,
    pub fill: FillOption<'a>,
    pub kind: AddressRegionKind,
}

/// The start of the `k`th page of 4 KiB from `start`.
pub open spec fn page_at(start: u64, k: int) -> int {
    start + k * 0x1000
}

/// The number of pages of 4 KiB from `start` up to `end`.
pub open spec fn page_count(start: u64, end: u64) -> int {
    if end <= start {
        0
    } else {
        (end - start + 0xFFF) / 0x1000
    }
}

/// The pages of 4 KiB that cover `[start, end)`: from the page holding
/// `start` up to the page after the one holding `end`.
pub open spec fn cover_start(start: u64) -> u64 {
    (start - start % 0x1000) as u64
}

/// The end of the pages that `is_user_region_valid` checks for a span
/// ending at `end`.
pub open spec fn cover_end(end: u64) -> u64 {
    if end % 0x1000 == 0 {
        end
    } else {
        (end - end % 0x1000 + 0x1000) as u64
    }
}

/// Page table entries with room for the tables one more map may add.
pub open spec fn table_room(t: Seq<PageTableEntry>) -> bool {
    &&& t.len() / 512 + 2 < 0x100_0000_0000
    &&& t.len() + 1024 <= usize::MAX
}

/// Whether a guard page can be placed at `g`: `g` is page-aligned, the page
/// is a valid address, its span is free in the map, and the table can map
/// it.
pub open spec fn guard_ok(t: Seq<PageTableEntry>, e: Entries, g: u64) -> bool {
    &&& g % 0x1000 == 0
    &&& added(g, 0x1000).is_some()
    &&& allocates(e, g, (g + 0x1000) as u64)
    &&& map_ok(t, 0, 2, g, PageSize::Kilopage)
    &&& table_room(t)
}

/// The address map entries after a guard page at `g`.
pub open spec fn guard_entries(e: Entries, g: u64) -> Entries {
    alloc_entries(
        e,
        lower_bound(e, g),
        g,
        (g + 0x1000) as u64,
        MemoryRegion::GuardPage,
        AddressRegionKind::Guard,
        Flags::from_bits(0x11),
        Flags::USER_spec(),
    )
}

/// The page table entries after a guard page at `g`: address 0 mapped with
/// only the user and valid bits, marked as mapped directly.
pub open spec fn guard_table(t: Seq<PageTableEntry>, g: u64) -> Seq<PageTableEntry> {
    map_spec(t, 0, 2, g, PageSize::Kilopage, Flags::from_bits(0x11), PhysicalAddress::at(0), Some(Rsw::DIRECT_spec()))
}

/// The memory manager of one user address space.
pub struct MemoryManager {
    table: PageTable,
    address_map: AddressMap<Userspace>,
}

impl MemoryManager {
    /// The page table's entries.
    pub closed spec fn table_view(&self) -> Seq<PageTableEntry> {
        self.table@
    }

    /// Where the walk of the page table for `va` ends.
    pub closed spec fn walk(&self, va: u64) -> Walk {
        self.table.walk(va)
    }

    /// The entries of the address map.
    pub closed spec fn map_entries(&self) -> Entries {
        self.address_map.entries()
    }

    /// The page table and the address map are well formed.
    pub closed spec fn wf(&self) -> bool {
        &&& self.table.wf()
        &&& self.address_map.wf()
    }

    /// The address map's spans tile user space, with no two free regions
    /// side by side.
    pub closed spec fn map_tiled(&self) -> bool {
        self.address_map.tiled()
    }

    /// The page table has room for the tables one more map may add.
    pub open spec fn room(&self) -> bool {
        table_room(self.table_view())
    }

    /// Whether a leaf at the end of the walk for `va` may carry the flag
    /// byte of `g`.
    pub closed spec fn flags_ok(&self, va: u64, g: Flags) -> bool {
        self.table.flags_ok(va, g)
    }

    /// The flags of the leaf the walk for `va` ends at.
    pub closed spec fn leaf_flags(&self, va: u64) -> Flags {
        Flags::from_bits(self.table@[self.table.walk(va)->Leaf_0].flag_byte())
    }

    /// A manager whose page table has no mapping yet and whose address map
    /// holds a guard page at address 0 and the rest of the space free.
    pub fn new() -> (r: Self)
        ensures
            r.wf(),
            r.map_entries() == guard_entries(
                seq![(USERSPACE_END, region_of(None, 0, USERSPACE_END, AddressRegionKind::Unoccupied, Flags::NONE_spec()))],
                0,
            ),
            r.table_view() == guard_table(crate::paging::table::zero_table(), 0),
            r.map_tiled(),
    {
        let table = PageTable::new_raw();
        let address_map = AddressMap::<Userspace>::new();
        let mut this = MemoryManager { table, address_map };
        proof {
            lemma_map_ok_fresh(0, PageSize::Kilopage);
            VirtualAddress::lemma_at(0);
            VirtualAddress::lemma_at(crate::paging::entry::USERSPACE_END);
            let s = this.address_map.entries();
            assert(lower_bound(s, 0) == 0);
        }
        let at = VirtualAddress::new(0);
        proof {
            assert(sign_extend(0) == 0) by {
                crate::bits::lemma_bit_constants();
            }
        }
        this.guard(at);
        this
    }

    /// Places a guard page at `at`: a span of 4 KiB taken in the address map
    /// and a page of the table mapped to address 0 with only the user and
    /// valid bits, which user code can never touch.
    pub fn guard(&mut self, at: VirtualAddress)
        requires
            old(self).wf(),
            guard_ok(old(self).table_view(), old(self).map_entries(), at.value()),
        ensures
            final(self).wf(),
            old(self).map_tiled() ==> final(self).map_tiled(),
            final(self).map_entries() == guard_entries(old(self).map_entries(), at.value()),
            final(self).table_view() == guard_table(old(self).table_view(), at.value()),
            forall|va: u64, sz: PageSize, p: PhysicalAddress|
                #[trigger] maps_to(old(self).table_view(), va, sz, p) ==> maps_to(final(self).table_view(), va, sz, p),
    {
        let end = at.add(0x1000);
        let flags = Flags::USER().bitor(Flags::VALID());
        proof {
            Flags::lemma_eq_bits(flags, Flags::from_bits(0x11));
            Flags::lemma_from_bits(0x11);
            assert(0x10u8 | 0x01u8 == 0x11u8) by {
                crate::bits::lemma_bit_constants();
            }
        }
        let r = self.address_map.allocate(at..end, MemoryRegion::GuardPage, AddressRegionKind::Guard, flags);
        proof {
            VirtualAddress::lemma_at(at.value());
        }
        match r {
            Ok(()) => {},
            Err(_) => {
                proof {
                    assert(false);
                }
            },
        }
        let null = PhysicalAddress::null();
        let rsw = Rsw::DIRECT();
        proof {
            PhysicalAddress::lemma_eq_value(null, PhysicalAddress::at(0));
            PhysicalAddress::lemma_at(0);
        }
        let ghost pre = self.table;
        self.table.map(null, at, flags, PageSize::Kilopage, rsw);
        proof {
            crate::paging::table::lemma_map_keeps_maps_to(pre, null, at, flags, PageSize::Kilopage, Some(rsw));
        }
    }
}

impl MemoryManager {
    /// Whether the page of 4 KiB at `v` may be used: it lies in the user
    /// half, is mapped, and `f` accepts its flags.
    pub open spec fn page_passes<F: Fn(Flags) -> bool>(&self, v: u64, f: F) -> bool {
        &&& !in_kernel_half(v)
        &&& self.walk(v) is Leaf
        &&& exists|b: bool| f.ensures((self.leaf_flags(v),), b) && b
    }

    /// Whether the page at `v` fails for `reason`: a kernel address or flags
    /// that `f` refuses are invalid permissions, a page with no mapping is
    /// not mapped.
    pub open spec fn page_fails<F: Fn(Flags) -> bool>(&self, v: u64, f: F, reason: InvalidRegion) -> bool {
        match reason {
            InvalidRegion::InvalidPermissions => in_kernel_half(v) || (self.walk(v) is Leaf && exists|b: bool|
                f.ensures((self.leaf_flags(v),), b) && !b),
            InvalidRegion::NotMapped => !in_kernel_half(v) && self.walk(v) is Unmapped,
        }
    }

    /// The flags of the page of `virt`, if it is mapped.
    pub fn page_flags(&self, virt: VirtualAddress) -> (r: Option<Flags>)
        requires
            self.wf(),
            !(self.walk(virt.value()) is Broken),
        ensures
            self.walk(virt.value()) is Leaf ==> r == Some(self.leaf_flags(virt.value())),
            !(self.walk(virt.value()) is Leaf) ==> r.is_none(),
    {
        let r = self.table.page_flags(virt);
        proof {
            if self.walk(virt.value()) is Leaf {
                let b = self.table@[self.table.walk(virt.value())->Leaf_0].flag_byte();
                Flags::lemma_from_bits(b);
                Flags::lemma_eq_bits(r.unwrap(), Flags::from_bits(b));
            }
        }
        r
    }

    /// Replaces the flags of the page of `virt` by what `f` makes of them;
    /// returns whether the page is mapped.
    pub fn modify_page_flags<F: FnOnce(Flags) -> Flags>(&mut self, virt: VirtualAddress, f: F) -> (r: bool)
        requires
            old(self).wf(),
            !(old(self).walk(virt.value()) is Broken),
            forall|fl: Flags| call_requires(f, (fl,)),
            forall|fl: Flags, g: Flags| call_ensures(f, (fl,), g) ==> old(self).flags_ok(virt.value(), g),
        ensures
            final(self).wf(),
            r == old(self).walk(virt.value()) is Leaf,
            final(self).map_entries() == old(self).map_entries(),
            match old(self).walk(virt.value()) {
                Walk::Leaf(slot, _) => exists|g: Flags| {
                    &&& call_ensures(f, (Flags::from_bits(old(self).table_view()[slot].flag_byte()),), g)
                    &&& final(self).table_view() == old(self).table_view().update(
                        slot,
                        PageTableEntry::with_fields(
                            old(self).table_view()[slot].ppn_field(),
                            old(self).table_view()[slot].rsw_field(),
                            g.bits(),
                        ),
                    )
                },
                _ => final(self).table_view() == old(self).table_view(),
            },
    {
        self.table.modify_page_flags(virt, f)
    }

    /// The software bits of the page of `virt`, if it is mapped.
    pub fn rsw(&self, virt: VirtualAddress) -> (r: Option<Rsw>)
        requires
            !(self.walk(virt.value()) is Broken),
        ensures
            self.walk(virt.value()) is Leaf ==> r.is_some() && r.unwrap().bits()
                == self.table_view()[self.walk(virt.value())->Leaf_0].rsw_field(),
            !(self.walk(virt.value()) is Leaf) ==> r.is_none(),
    {
        self.table.page_rsw(virt)
    }

    /// Replaces the software bits of the page of `virt`, bits 8 and 9, by
    /// what `f` makes of them, keeping its flags and page; returns whether
    /// the page is mapped.
    pub fn modify_rsw<F: FnOnce(Rsw) -> Rsw>(&mut self, virt: VirtualAddress, f: F) -> (r: bool)
        requires
            old(self).wf(),
            !(old(self).walk(virt.value()) is Broken),
            forall|x: Rsw| call_requires(f, (x,)),
        ensures
            final(self).wf(),
            r == old(self).walk(virt.value()) is Leaf,
            final(self).map_entries() == old(self).map_entries(),
            match old(self).walk(virt.value()) {
                Walk::Leaf(slot, _) => exists|x: Rsw, g: Rsw| {
                    &&& x.bits() == old(self).table_view()[slot].rsw_field()
                    &&& call_ensures(f, (x,), g)
                    &&& g.bits() < 4
                    &&& final(self).table_view() == old(self).table_view().update(
                        slot,
                        PageTableEntry::with_fields(
                            old(self).table_view()[slot].ppn_field(),
                            g.bits(),
                            old(self).table_view()[slot].flag_byte(),
                        ),
                    )
                },
                _ => final(self).table_view() == old(self).table_view(),
            },
    {
        self.table.replace_page_rsw(virt, f)
    }

    /// After `modify_rsw` replaced the software bits of the page `va` maps
    /// by `g`, the walk for `va` still ends at the same entry, which holds
    /// the software bits `g` with the frame and flags it had: the page
    /// reads back with `g` and its old flags.
    pub proof fn lemma_modify_rsw_reads_back(before: MemoryManager, after: MemoryManager, va: u64, g: Rsw)
        requires
            before.walk(va) is Leaf,
            g.bits() < 4,
            after.table_view() == before.table_view().update(
                before.walk(va)->Leaf_0,
                PageTableEntry::with_fields(
                    before.table_view()[before.walk(va)->Leaf_0].ppn_field(),
                    g.bits(),
                    before.table_view()[before.walk(va)->Leaf_0].flag_byte(),
                ),
            ),
        ensures
            after.walk(va) == before.walk(va),
            after.table_view()[after.walk(va)->Leaf_0].rsw_field() == g.bits(),
            after.table_view()[after.walk(va)->Leaf_0].flag_byte() == before.table_view()[before.walk(va)->Leaf_0].flag_byte(),
            after.table_view()[after.walk(va)->Leaf_0].ppn_field() == before.table_view()[before.walk(va)->Leaf_0].ppn_field(),
    {
        let s = before.table_view();
        let slot = before.walk(va)->Leaf_0;
        crate::paging::table::lemma_walk_leaf(s, 0, 2, va);
        let old_e = s[slot];
        assert(old_e.ppn_field() < 0x40_0000_0000_0000) by {
            assert(old_e.bits() / 0x400 < 0x40_0000_0000_0000);
        }
        PageTableEntry::lemma_with_fields(old_e.ppn_field(), g.bits(), old_e.flag_byte());
        let e = PageTableEntry::with_fields(old_e.ppn_field(), g.bits(), old_e.flag_byte());
        crate::paging::table::lemma_walk_same_leaf(s, 0, 2, va, e);
    }

    /// Whether the walk for `virt` can be done, so that `page_flags`,
    /// `resolve` and the page fault resolution may look it up.
    pub fn walks_cleanly(&self, virt: VirtualAddress) -> (r: bool)
        ensures
            r == !(self.walk(virt.value()) is Broken),
    {
        self.table.walks_cleanly(virt)
    }

    /// The physical address the page of `virt` is mapped to, if it is.
    pub fn resolve(&self, virt: VirtualAddress) -> (r: Option<PhysicalAddress>)
        requires
            !(self.walk(virt.value()) is Broken),
        ensures
            self.walk(virt.value()) is Leaf ==> r.is_some() && r.unwrap().value()
                == self.table_view()[self.walk(virt.value())->Leaf_0].target(),
            !(self.walk(virt.value()) is Leaf) ==> r.is_none(),
    {
        self.table.resolve(virt)
    }

    /// The physical address of the page table's root.
    pub fn table_phys_address(&self) -> (r: PhysicalAddress)
        ensures
            r.value() == 0,
    {
        self.table.physical_address()
    }

    /// The region under the first key of the address map at or above `at`.
    pub fn region_for(&self, at: VirtualAddress) -> (r: Option<&AddressRegion>)
        requires
            self.wf(),
        ensures
            ({
                let i = lower_bound(self.map_entries(), at.value());
                if i < self.map_entries().len() {
                    r == Some(&self.map_entries()[i].1)
                } else {
                    r.is_none()
                }
            }),
    {
        self.address_map.find(at)
    }

    /// Whether no table of the last level holds an entry that reads as a
    /// branch.
    pub closed spec fn listable(&self) -> bool {
        self.table.no_last_level_branch()
    }

    /// The listing of the page table's user half.
    pub fn page_table_debug(&self) -> (r: Vec<crate::paging::table::PageTableDebug>)
        requires
            self.wf(),
            self.listable(),
        ensures
            r@.len() == crate::paging::table::listing(self.table_view(), 0, 2, 0, 0).len(),
            forall|k: int|
                0 <= k < r@.len() ==> crate::paging::table::line_matches(
                    #[trigger] r@[k],
                    crate::paging::table::listing(self.table_view(), 0, 2, 0, 0)[k],
                ),
    {
        self.table.debug()
    }

    /// The address map.
    pub fn address_map_debug(&self) -> (r: &AddressMap<Userspace>)
        ensures
            r.entries() == self.map_entries(),
    {
        &self.address_map
    }

    /// Maps the page of `size` at `map_from` to `map_to` with `flags`,
    /// marking it as mapped directly so that the table never frees it.
    pub fn map_direct(&mut self, map_from: PhysicalAddress, map_to: VirtualAddress, size: PageSize, flags: Flags)
        requires
            old(self).wf(),
            map_from.value() % size.bytes() == 0,
            map_to.value() % size.bytes() == 0,
            map_ok(old(self).table_view(), 0, 2, map_to.value(), size),
            leaf_flags_ok(flags, Some(Rsw::DIRECT_spec()), size),
            old(self).room(),
        ensures
            final(self).wf(),
            final(self).map_entries() == old(self).map_entries(),
            final(self).table_view() == map_spec(
                old(self).table_view(),
                0,
                2,
                map_to.value(),
                size,
                flags,
                map_from,
                Some(Rsw::DIRECT_spec()),
            ),
    {
        let rsw = Rsw::DIRECT();
        proof {
            Rsw::lemma_eq_bits(rsw, Rsw::DIRECT_spec());
        }
        self.table.map(map_from, map_to, flags, size, rsw);
    }

    /// Checks every page of 4 KiB within `range`, from the one holding its
    /// start to the one holding its last address: each must lie in the user
    /// half, be mapped, and have flags that `f` accepts. Gives back the first
    /// page that fails and why.
    pub fn is_user_region_valid<F: Fn(Flags) -> bool>(
        &self,
        range: core::ops::Range<VirtualAddress>,
        f: F,
    ) -> (r: Result<(), (VirtualAddress, InvalidRegion)>)
        requires
            self.wf(),
            range.end.value() % 0x1000 != 0 ==> range.end.value() - range.end.value() % 0x1000 + 0x1000
                <= u64::MAX,
            forall|fl: Flags| f.requires((fl,)),
            forall|k: int|
                0 <= k < page_count(cover_start(range.start.value()), cover_end(range.end.value()))
                    && !in_kernel_half(
                    #[trigger] sign_extend(page_at(cover_start(range.start.value()), k) as u64),
                ) ==> !(self.walk(sign_extend(page_at(cover_start(range.start.value()), k) as u64))
                    is Broken),
        ensures
            ({
                let cs = cover_start(range.start.value());
                let n = page_count(cs, cover_end(range.end.value()));
                match r {
                    Ok(()) => forall|k: int|
                        0 <= k < n ==> self.page_passes(
                            #[trigger] sign_extend(page_at(cs, k) as u64),
                            f,
                        ),
                    Err((page, reason)) => exists|k: int|
                        0 <= k < n && page.value() == #[trigger] sign_extend(page_at(cs, k) as u64)
                            && self.page_fails(page.value(), f, reason) && forall|j: int|
                            0 <= j < k ==> self.page_passes(
                                #[trigger] sign_extend(page_at(cs, j) as u64),
                                f,
                            ),
                }
            }),
    {
        let start = range.start.align_down_to(PageSize::Kilopage);
        let end = if range.end.is_aligned(PageSize::Kilopage) {
            range.end
        } else {
            range.end.align_to_next(PageSize::Kilopage)
        };
        let ghost cs = cover_start(range.start.value());
        let ghost n = page_count(cs, cover_end(range.end.value()));
        let mut page_addr = start.as_usize();
        let end_addr = end.as_usize();
        let ghost mut k: int = 0;
        proof {
            assert(start.value() == cs);
            assert(end.value() == cover_end(range.end.value()));
        }
        while page_addr < end_addr
            invariant
                cs == cover_start(range.start.value()),
                n == page_count(cs, cover_end(range.end.value())),
                end_addr == cover_end(range.end.value()),
                cs % 0x1000 == 0,
                end_addr % 0x1000 == 0,
                page_addr == page_at(cs, k),
                0 <= k,
                page_addr <= end_addr ==> k <= n,
                page_addr < end_addr ==> k < n,
                self.wf(),
                forall|fl: Flags| f.requires((fl,)),
                forall|kk: int|
                    0 <= kk < n && !in_kernel_half(#[trigger] sign_extend(page_at(cs, kk) as u64))
                        ==> !(self.walk(sign_extend(page_at(cs, kk) as u64)) is Broken),
                forall|j: int| 0 <= j < k ==> self.page_passes(#[trigger] sign_extend(page_at(cs, j) as u64), f),
            decreases end_addr - page_addr,
        {
            let page = VirtualAddress::new(page_addr);
            let ghost v = sign_extend(page_at(cs, k) as u64);
            proof {
                assert(page_at(cs, k) as u64 == page_addr);
                assert(page.value() == v);
                assert(0 <= k < n);
            }
            if page.is_kernel_region() {
                return Err((page, InvalidRegion::InvalidPermissions));
            }
            match self.page_flags(page) {
                Some(flags) => {
                    let ok = f(flags);
                    proof {
                        assert(f.ensures((self.leaf_flags(v),), ok));
                    }
                    if !ok {
                        return Err((page, InvalidRegion::InvalidPermissions));
                    }
                },
                None => {
                    return Err((page, InvalidRegion::NotMapped));
                },
            }
            page_addr = page_addr + 0x1000;
            proof {
                k = k + 1;
            }
        }
        Ok(())
    }
}

/// The `k`th page of a region of pages of `size` starting at `at`.
pub open spec fn region_page(at: u64, size: PageSize, k: int) -> u64 {
    added(at, (k * size.bytes()) as u64).unwrap()
}

impl MemoryManager {
    /// The region of the address map that `dealloc_region` of `at` frees.
    pub open spec fn region_at(&self, at: u64) -> AddressRegion {
        self.map_entries()[lower_bound(self.map_entries(), at)].1
    }

    /// The index of the leaf entry that maps the `k`th page of the region
    /// that holds `at`, counted from the region's start.
    pub open spec fn region_slot(&self, at: u64, k: int) -> int {
        let region = self.region_at(at).region.unwrap();
        self.walk(region_page(lo(self.region_at(at)), region.size_of(), k))->Leaf_0
    }

    /// Frees the taken region that `region_for(at)` finds, unmaps its pages
    /// from the region's start on, and hands back what backed it.
    pub fn dealloc_region(&mut self, at: VirtualAddress) -> (r: MemoryRegion)
        requires
            old(self).wf(),
            lower_bound(old(self).map_entries(), at.value()) < old(self).map_entries().len(),
            old(self).region_at(at.value()).region.is_some(),
            frees(
                old(self).map_entries(),
                lo(old(self).region_at(at.value())),
                hi(old(self).region_at(at.value())),
            ),
            offset_by(hi(old(self).region_at(at.value())), -1i64).is_some(),
            ({
                let region = old(self).region_at(at.value()).region.unwrap();
                forall|k: int|
                    0 <= k < region.count() ==> {
                        &&& k * region.size_of().bytes() <= u64::MAX
                        &&& #[trigger] added(lo(old(self).region_at(at.value())), (k * region.size_of().bytes()) as u64).is_some()
                        &&& old(self).walk(region_page(lo(old(self).region_at(at.value())), region.size_of(), k)) is Leaf
                    }
            }),
            forall|k1: int, k2: int|
                0 <= k1 < k2 < old(self).region_at(at.value()).region.unwrap().count() ==> #[trigger] old(
                    self,
                ).region_slot(at.value(), k1) != #[trigger] old(self).region_slot(at.value(), k2),
        ensures
            final(self).wf(),
            old(self).map_tiled() ==> final(self).map_tiled(),
            r == old(self).region_at(at.value()).region.unwrap(),
            final(self).map_entries() == free_entries(
                old(self).map_entries(),
                lower_bound(old(self).map_entries(), lo(old(self).region_at(at.value()))),
            ),
            final(self).table_view().len() == old(self).table_view().len(),
            forall|j: int|
                0 <= j < old(self).table_view().len() ==> #[trigger] final(self).table_view()[j] == if exists|k: int|
                    0 <= k < r.count() && old(self).region_slot(at.value(), k) == j {
                    PageTableEntry::with_fields(0, 0, 0)
                } else {
                    old(self).table_view()[j]
                },
    {
        proof {
            old(self).address_map.lemma_wf();
            let s = old(self).map_entries();
            let i1 = lower_bound(s, at.value());
            crate::address_map::lemma_lower_bound(s, at.value());
            let i2 = lower_bound(s, lo(s[i1].1));
            crate::address_map::lemma_lower_bound(s, lo(s[i1].1));
            assert(0 <= i1 < s.len());
            assert(0 <= i2 < s.len());
            assert(s.contains(s[i1]));
            assert(s.contains(s[i2]));
            assert(s[i1].0 == s[i2].0);
            assert(i1 == i2);
        }
        let found = match self.address_map.find(at) {
            Some(region) => region,
            None => {
                proof {
                    assert(false);
                }
                return MemoryRegion::GuardPage;
            },
        };
        let base = found.span.start;
        let span = found.span.start..found.span.end;
        proof {
            VirtualAddress::lemma_at(span.start.value());
        }
        let region = match self.address_map.free(span) {
            Ok(region) => region,
            Err(_) => {
                proof {
                    assert(false);
                }
                return MemoryRegion::GuardPage;
            },
        };
        let count = region.page_count();
        let size = region.page_size();
        let bytes = size.to_byte_size();
        let ghost orig = self.table_view();
        let ghost orig_self = *old(self);
        proof {
            assert(base.value() == lo(orig_self.region_at(at.value())));
            assert forall|k: int| 0 <= k < count implies {
                &&& k * bytes <= u64::MAX
                &&& #[trigger] added(base.value(), (k * bytes) as u64).is_some()
                &&& orig_self.walk(region_page(base.value(), size, k)) is Leaf
            } by {
                assert(added(base.value(), (k * region.size_of().bytes()) as u64).is_some());
            }
        }
        let mut i: usize = 0;
        while i < count
            invariant
                self.wf(),
                count == region.count(),
                size == region.size_of(),
                bytes == size.bytes(),
                region == orig_self.region_at(at.value()).region.unwrap(),
                base.value() == lo(orig_self.region_at(at.value())),
                orig_self.map_tiled() ==> self.map_tiled(),
                orig == orig_self.table_view(),
                0 <= i <= count,
                self.table_view().len() == orig.len(),
                self.map_entries() == free_entries(
                    orig_self.map_entries(),
                    lower_bound(orig_self.map_entries(), lo(orig_self.region_at(at.value()))),
                ),
                forall|k: int|
                    0 <= k < count ==> {
                        &&& k * bytes <= u64::MAX
                        &&& #[trigger] added(base.value(), (k * bytes) as u64).is_some()
                        &&& orig_self.walk(region_page(base.value(), size, k)) is Leaf
                    },
                forall|k1: int, k2: int|
                    0 <= k1 < k2 < count ==> #[trigger] orig_self.region_slot(at.value(), k1)
                        != #[trigger] orig_self.region_slot(at.value(), k2),
                forall|k: int|
                    i <= k < count ==> #[trigger] self.walk(region_page(base.value(), size, k)) == orig_self.walk(
                        region_page(base.value(), size, k),
                    ),
                forall|j: int|
                    0 <= j < orig.len() ==> #[trigger] self.table_view()[j] == if exists|k: int|
                        0 <= k < i && orig_self.region_slot(at.value(), k) == j {
                        PageTableEntry::with_fields(0, 0, 0)
                    } else {
                        orig[j]
                    },
            decreases count - i,
        {
            let ghost k = i as int;
            proof {
                assert(added(base.value(), (k * bytes) as u64).is_some());
                assert(k * bytes <= u64::MAX);
            }
            let off = (i as u64) * bytes;
            let page = base.add(off);
            let ghost v = region_page(base.value(), size, k);
            let ghost before = self.table_view();
            let ghost slot = orig_self.region_slot(at.value(), k);
            let ghost zero = PageTableEntry::with_fields(0, 0, 0);
            proof {
                assert(page.value() == v);
                assert(self.walk(v) == orig_self.walk(v));
                assert(slot == self.walk(v)->Leaf_0);
                crate::paging::table::lemma_walk_leaf(before, 0, 2, v);
                assert forall|m: int| i < m < count implies #[trigger] walk_from(
                    before.update(slot, zero),
                    0,
                    2,
                    region_page(base.value(), size, m),
                ) == orig_self.walk(region_page(base.value(), size, m)) by {
                    let vm = region_page(base.value(), size, m);
                    VirtualAddress::lemma_at(vm);
                    assert(self.walk(region_page(base.value(), size, m)) == orig_self.walk(region_page(base.value(), size, m)));
                    assert(orig_self.region_slot(at.value(), k) != orig_self.region_slot(at.value(), m));
                    self.table.lemma_unmap_keeps_others(page, VirtualAddress::at(vm));
                }
            }
            self.table.unmap(page);
            proof {
                assert(self.table_view() == before.update(slot, zero));
                assert forall|m: int| i + 1 <= m < count implies #[trigger] self.walk(region_page(base.value(), size, m))
                    == orig_self.walk(region_page(base.value(), size, m)) by {
                    assert(walk_from(before.update(slot, zero), 0, 2, region_page(base.value(), size, m))
                        == orig_self.walk(region_page(base.value(), size, m)));
                }
                assert forall|j: int| 0 <= j < orig.len() implies #[trigger] self.table_view()[j] == if exists|kk: int|
                    0 <= kk < i + 1 && orig_self.region_slot(at.value(), kk) == j {
                    zero
                } else {
                    orig[j]
                } by {
                    if j == slot {
                        assert(orig_self.region_slot(at.value(), k) == j);
                    } else {
                        assert(self.table_view()[j] == before[j]);
                        if exists|kk: int| 0 <= kk < i + 1 && orig_self.region_slot(at.value(), kk) == j {
                            let kk = choose|kk: int| 0 <= kk < i + 1 && orig_self.region_slot(at.value(), kk) == j;
                            assert(kk < i);
                        }
                    }
                }
            }
            i = i + 1;
        }
        region
    }
}


impl MemoryManager {
    /// Every free span of the address map starts inside user space.
    pub open spec fn free_starts_in_space(&self) -> bool {
        forall|k: int|
            0 <= k < unoccupied(self.map_entries()).len() ==> lo(#[trigger] unoccupied(self.map_entries())[k])
                < USERSPACE_END
    }

    /// Searches for a free span for `n_pages` pages of `size`: first up to a
    /// hundred random tries, each drawn from one clock reading of
    /// `readings`, then the free regions in order; `None` when nothing fits.
    /// A random try fits when the region under it is free and has room up to
    /// its end.
    pub fn find_free_region(&self, size: PageSize, n_pages: usize, readings: &[u64]) -> (r: Option<
        VirtualAddress,
    >)
        requires
            self.wf(),
            n_pages * size.bytes() <= u64::MAX,
            self.free_starts_in_space(),
        ensures
            match free_pick(self.map_entries(), readings@, size.bytes(), n_pages * size.bytes()) {
                Some(a) => r.is_some() && r.unwrap().value() == a,
                None => r.is_none(),
            },
    {
        let bytes = size.to_byte_size();
        proof {
            lemma_page_size_pow2(size);
            assert(n_pages * bytes <= u64::MAX);
        }
        let total: u64 = (n_pages as u64) * bytes;
        let ghost s = self.map_entries();
        let ghost all = tries(readings@);
        let limit: usize = if readings.len() < RANDOM_TRIES {
            readings.len()
        } else {
            RANDOM_TRIES
        };
        let space_end = VirtualAddress::userspace_range().end.as_usize();
        proof {
            assert(all.skip(0) =~= all);
        }
        let mut i: usize = 0;
        while i < limit
            invariant
                self.wf(),
                s == self.map_entries(),
                all == tries(readings@),
                limit == all.len(),
                limit <= readings@.len(),
                forall|j: int| 0 <= j < limit ==> all[j] == readings@[j],
                i <= limit,
                is_pow2(bytes),
                bytes == size.bytes(),
                total == n_pages * size.bytes(),
                space_end == USERSPACE_END,
                random_pick(s, all.skip(i as int), bytes, total as int) == random_pick(s, all, bytes, total as int),
            decreases limit - i,
        {
            let ghost rest = all.skip(i as int);
            proof {
                assert(rest[0] == readings@[i as int]);
                assert(rest.drop_first() =~= all.skip(i + 1));
            }
            let drawn = readings[i].wrapping_mul(717) % space_end;
            proof {
                assert(drawn == jittered(readings@[i as int]));
            }
            match self.address_map.find(VirtualAddress::new(drawn)) {
                Some(region) => {
                    let region_end = region.span.end.as_usize();
                    let aligned = VirtualAddress::new(round_up_to_next(drawn, bytes));
                    if region.is_unoccupied() && aligned.as_usize() <= region_end && region_end - aligned.as_usize()
                        >= total {
                        return Some(aligned);
                    }
                },
                None => {},
            }
            i = i + 1;
        }
        proof {
            assert(all.skip(limit as int).len() == 0);
        }
        let free = self.address_map.unoccupied_regions();
        let ghost us = unoccupied(s);
        proof {
            assert(us.skip(0) =~= us);
        }
        let mut k: usize = 0;
        while k < free.len()
            invariant
                s == self.map_entries(),
                us == unoccupied(s),
                random_pick(s, tries(readings@), bytes, total as int).is_none(),
                total == n_pages * size.bytes(),
                free@.len() == us.len(),
                forall|j: int| 0 <= j < free@.len() ==> *free@[j] == us[j],
                forall|j: int| 0 <= j < us.len() ==> lo(#[trigger] us[j]) < USERSPACE_END,
                k <= free@.len(),
                is_pow2(bytes),
                bytes == size.bytes(),
                bytes <= 0x4000_0000,
                linear_pick(us.skip(k as int), bytes, total as int) == linear_pick(us, bytes, total as int),
            decreases free@.len() - k,
        {
            let ghost rest = us.skip(k as int);
            proof {
                assert(rest[0] == us[k as int]);
                assert(rest.drop_first() =~= us.skip(k + 1));
                assert(lo(us[k as int]) < USERSPACE_END);
            }
            let region = free[k];
            let start = region.span.start.as_usize();
            let end = region.span.end.as_usize();
            let aligned = VirtualAddress::new(round_up_to_next(start, bytes));
            if aligned.as_usize() <= end && end - aligned.as_usize() >= total {
                return Some(aligned);
            }
            k = k + 1;
        }
        proof {
            assert(us.skip(free@.len() as int).len() == 0);
        }
        None
    }

    /// Searches, like `find_free_region`, for a span of `n_pages` pages of
    /// `size` that leaves room for guard pages: a random try must also find
    /// the region just past the span free, and the walk starts each free
    /// region one page in and checks the same. `None` when nothing fits.
    pub fn find_free_region_with_guards(&self, size: PageSize, n_pages: usize, readings: &[u64]) -> (r: Option<
        VirtualAddress,
    >)
        requires
            self.wf(),
            n_pages * size.bytes() <= u64::MAX,
            self.free_starts_in_space(),
            guarded_pick(self.map_entries(), readings@, size.bytes(), n_pages * size.bytes()) != Probe::Fails,
        ensures
            match guarded_pick(self.map_entries(), readings@, size.bytes(), n_pages * size.bytes()) {
                Probe::Found(a) => r.is_some() && r.unwrap().value() == a,
                _ => r.is_none(),
            },
    {
        let bytes = size.to_byte_size();
        proof {
            lemma_page_size_pow2(size);
            assert(n_pages * bytes <= u64::MAX);
        }
        let total: u64 = (n_pages as u64) * bytes;
        let ghost s = self.map_entries();
        let ghost all = tries(readings@);
        let limit: usize = if readings.len() < RANDOM_TRIES {
            readings.len()
        } else {
            RANDOM_TRIES
        };
        let space_end = VirtualAddress::userspace_range().end.as_usize();
        proof {
            assert(all.skip(0) =~= all);
        }
        let mut i: usize = 0;
        while i < limit
            invariant
                self.wf(),
                s == self.map_entries(),
                all == tries(readings@),
                limit == all.len(),
                limit <= readings@.len(),
                forall|j: int| 0 <= j < limit ==> all[j] == readings@[j],
                i <= limit,
                is_pow2(bytes),
                bytes == size.bytes(),
                total == n_pages * size.bytes(),
                space_end == USERSPACE_END,
                guarded_pick(s, readings@, bytes, total as int) != Probe::Fails,
                guarded_random_pick(s, all.skip(i as int), bytes, total as int) == guarded_random_pick(
                    s,
                    all,
                    bytes,
                    total as int,
                ),
            decreases limit - i,
        {
            let ghost rest = all.skip(i as int);
            proof {
                assert(rest[0] == readings@[i as int]);
                assert(rest.drop_first() =~= all.skip(i + 1));
            }
            let drawn = readings[i].wrapping_mul(717) % space_end;
            proof {
                assert(drawn == jittered(readings@[i as int]));
            }
            match self.address_map.find(VirtualAddress::new(drawn)) {
                Some(region) => {
                    let region_end = region.span.end.as_usize();
                    let aligned = VirtualAddress::new(round_up_to_next(drawn, bytes));
                    if aligned.as_usize() <= region_end {
                        let past = aligned.add(total);
                        let above = match self.address_map.find(past) {
                            Some(above) => above,
                            None => {
                                proof {
                                    assert(false);
                                }
                                return None;
                            },
                        };
                        if above.is_unoccupied() && region_end - aligned.as_usize() >= total {
                            return Some(aligned);
                        }
                    }
                },
                None => {},
            }
            i = i + 1;
        }
        proof {
            assert(all.skip(limit as int).len() == 0);
        }
        let free = self.address_map.unoccupied_regions();
        let ghost us = unoccupied(s);
        proof {
            assert(us.skip(0) =~= us);
        }
        let mut k: usize = 0;
        while k < free.len()
            invariant
                self.wf(),
                s == self.map_entries(),
                us == unoccupied(s),
                guarded_random_pick(s, tries(readings@), bytes, total as int) == Probe::Next,
                guarded_pick(s, readings@, bytes, total as int) != Probe::Fails,
                total == n_pages * size.bytes(),
                free@.len() == us.len(),
                forall|j: int| 0 <= j < free@.len() ==> *free@[j] == us[j],
                forall|j: int| 0 <= j < us.len() ==> lo(#[trigger] us[j]) < USERSPACE_END,
                k <= free@.len(),
                is_pow2(bytes),
                bytes == size.bytes(),
                bytes <= 0x4000_0000,
                guarded_linear_pick(s, us.skip(k as int), bytes, total as int) == guarded_linear_pick(
                    s,
                    us,
                    bytes,
                    total as int,
                ),
            decreases free@.len() - k,
        {
            let ghost rest = us.skip(k as int);
            proof {
                assert(rest[0] == us[k as int]);
                assert(rest.drop_first() =~= us.skip(k + 1));
            }
            let region = free[k];
            let end = region.span.end.as_usize();
            let after_guard = region.span.start.add(0x1000);
            let aligned = VirtualAddress::new(round_up_to_next(after_guard.as_usize(), bytes));
            if aligned.as_usize() <= end {
                let past = aligned.add(total);
                let above = match self.address_map.find(past) {
                    Some(above) => above,
                    None => {
                        proof {
                            assert(false);
                        }
                        return None;
                    },
                };
                if above.is_unoccupied() && end - aligned.as_usize() >= total {
                    return Some(aligned);
                }
            }
            k = k + 1;
        }
        proof {
            assert(us.skip(free@.len() as int).len() == 0);
        }
        None
    }
}


/// The physical addresses of a list of page addresses.
pub open spec fn page_seq(addrs: Seq<u64>) -> Seq<PhysicalAddress> {
    Seq::new(addrs.len(), |i: int| PhysicalAddress::at(addrs[i]))
}

/// Whether, on a page table with entries `table` and an address map with
/// entries `entries`, the pages `phys` can be mapped from `at` on with
/// `flags` and `rsw`, and the span of `bytes` from `at` taken.
pub open spec fn install_ok(
    table: Seq<PageTableEntry>,
    entries: Entries,
    at: u64,
    bytes: u64,
    phys: Seq<PhysicalAddress>,
    size: PageSize,
    flags: Flags,
    rsw: Rsw,
) -> bool {
    &&& leaf_flags_ok(flags, Some(rsw), size)
    &&& run_ok(table, phys, at, size, flags, Some(rsw))
    &&& added(at, bytes).is_some()
    &&& added(at, bytes).unwrap() >= 1
    &&& allocates(entries, at, added(at, bytes).unwrap())
}

/// For a power of two `len`, the device pages `map_mmio_device` maps: one
/// for `len` up to 4096, else `len / 4096`.
pub proof fn lemma_mmio_pages(len: u64)
    requires
        is_pow2(len),
    ensures
        0x1000u64 % len == 0 || 0x1000u64 - 0x1000u64 % len + len <= u64::MAX,
        rounded(0x1000u64, len) <= u64::MAX,
{
    let k = choose|k: u64| k < 64 && len == 1u64 << k;
    crate::bits::lemma_pow2_mask(0, k);
    if len > 0x1000 {
        vstd::arithmetic::div_mod::lemma_small_mod(0x1000, len as nat);
    } else {
        vstd::arithmetic::div_mod::lemma_mod_bound(0x1000, len as int);
    }
}

/// A list of physical addresses whose values are `addrs` is `page_seq(addrs)`.
pub proof fn lemma_page_seq(phys: Seq<PhysicalAddress>, addrs: Seq<u64>)
    requires
        phys.len() == addrs.len(),
        forall|i: int| 0 <= i < phys.len() ==> #[trigger] phys[i].value() == addrs[i],
    ensures
        phys == page_seq(addrs),
{
    assert forall|i: int| 0 <= i < phys.len() implies phys[i] == page_seq(addrs)[i] by {
        PhysicalAddress::lemma_at(addrs[i]);
        PhysicalAddress::lemma_eq_value(phys[i], PhysicalAddress::at(addrs[i]));
    }
    assert(phys =~= page_seq(addrs));
}

impl MemoryManager {
    /// The start of a new region: the address asked for, or else where
    /// `find_free_region` places `n_pages` pages of `size`.
    pub open spec fn region_start(
        &self,
        at: Option<VirtualAddress>,
        readings: Seq<u64>,
        size: PageSize,
        n_pages: usize,
    ) -> u64 {
        match at {
            Some(a) => a.value(),
            None => free_pick(self.map_entries(), readings, size.bytes(), n_pages * size.bytes()).unwrap() as u64,
        }
    }

    /// Whether `region_start` names an address: one was asked for, or the
    /// search finds one.
    pub open spec fn start_found(
        &self,
        at: Option<VirtualAddress>,
        readings: Seq<u64>,
        size: PageSize,
        n_pages: usize,
    ) -> bool {
        at.is_none() ==> {
            &&& self.free_starts_in_space()
            &&& free_pick(self.map_entries(), readings, size.bytes(), n_pages * size.bytes()).is_some()
        }
    }

    /// Maps the pages `phys` from `at` on and takes the span `[at, end)` in
    /// the address map for `region`.
    fn install(
        &mut self,
        at: VirtualAddress,
        end: VirtualAddress,
        phys: &Vec<PhysicalAddress>,
        size: PageSize,
        flags: Flags,
        rsw: Rsw,
        region: MemoryRegion,
        kind: AddressRegionKind,
    )
        requires
            old(self).wf(),
            leaf_flags_ok(flags, Some(rsw), size),
            run_ok(old(self).table_view(), phys@, at.value(), size, flags, Some(rsw)),
            end.value() >= 1,
            allocates(old(self).map_entries(), at.value(), end.value()),
        ensures
            final(self).wf(),
            final(self).table_view() == run_spec(old(self).table_view(), phys@, at.value(), size, flags, Some(rsw)),
            makes_leaf(leaf_byte(flags, Some(rsw))) ==> forall|i: int|
                0 <= i < phys@.len() ==> #[trigger] maps_to(
                    final(self).table_view(),
                    (at.value() + i * size.bytes()) as u64,
                    size,
                    phys@[i],
                ),
            final(self).map_entries() == alloc_entries(
                old(self).map_entries(),
                lower_bound(old(self).map_entries(), at.value()),
                at.value(),
                end.value(),
                region,
                kind,
                flags,
                Flags::USER_spec(),
            ),
    {
        self.table.map_pages(phys, at, flags, size, Some(rsw));
        match self.address_map.allocate(at..end, region, kind, flags) {
            Ok(()) => {},
            Err(_) => {
                proof {
                    assert(false);
                }
            },
        }
    }

    /// Allocates a region of `len` pages of `size` at `at`, or where
    /// `find_free_region` places it when `at` is `None`: takes its frames
    /// from the allocator (one run when contiguous, else page by page), maps
    /// them in order with `flags`, marked as mapped directly so that the
    /// table never frees them, and records the region as backed by them.
    /// The pages' contents, which `fill` asks for, are written by the caller
    /// through the physical addresses, which this library cannot reach.
    pub fn alloc_region(
        &mut self,
        allocator: &mut BitmapAllocator,
        at: Option<VirtualAddress>,
        description: RegionDescription,
        readings: &[u64],
    ) -> (r: Range<VirtualAddress>)
        requires
            old(self).wf(),
            old(allocator).wf(),
            description.len * description.size.bytes() <= u64::MAX,
            old(self).start_found(at, readings@, description.size, description.len),
            backing_ok(
                old(allocator)@,
                old(allocator).start(),
                old(allocator).end(),
                description.size,
                description.len,
                description.contiguous,
            ),
            install_ok(
                old(self).table_view(),
                old(self).map_entries(),
                old(self).region_start(at, readings@, description.size, description.len),
                (description.len * description.size.bytes()) as u64,
                page_seq(
                    backing_result(
                        old(allocator)@,
                        old(allocator).start(),
                        old(allocator).end(),
                        description.size,
                        description.len,
                        description.contiguous,
                    ).1,
                ),
                description.size,
                description.flags,
                Rsw::DIRECT_spec(),
            ),
        ensures
            ({
                let a = old(self).region_start(at, readings@, description.size, description.len);
                let total = (description.len * description.size.bytes()) as u64;
                let (bm, pages) = backing_result(
                    old(allocator)@,
                    old(allocator).start(),
                    old(allocator).end(),
                    description.size,
                    description.len,
                    description.contiguous,
                );
                &&& final(self).wf()
                &&& final(allocator).wf()
                &&& final(allocator).start() == old(allocator).start()
                &&& final(allocator).end() == old(allocator).end()
                &&& final(allocator)@ == bm
                &&& r.start.value() == a
                &&& r.end.value() == added(a, total).unwrap()
                &&& final(self).table_view() == run_spec(
                    old(self).table_view(),
                    page_seq(pages),
                    a,
                    description.size,
                    description.flags,
                    Some(Rsw::DIRECT_spec()),
                )
                &&& makes_leaf(leaf_byte(description.flags, Some(Rsw::DIRECT_spec()))) ==> forall|i: int|
                    0 <= i < description.len ==> #[trigger] maps_to(
                        final(self).table_view(),
                        (a + i * description.size.bytes()) as u64,
                        description.size,
                        page_seq(pages)[i],
                    )
                &&& exists|b: UniquePhysicalRegion|
                    {
                        &&& b.addresses() == pages
                        &&& b.size_of() == description.size
                        &&& b.count() == description.len
                        &&& (description.contiguous || description.len == 1 ==> b.kind_of() is Contiguous)
                        &&& (!(description.contiguous || description.len == 1) ==> b.kind_of() is Sparse)
                        &&& final(self).map_entries() == alloc_entries(
                            old(self).map_entries(),
                            lower_bound(old(self).map_entries(), a),
                            a,
                            added(a, total).unwrap(),
                            MemoryRegion::Backed(PhysicalRegion::Unique(b)),
                            description.kind,
                            description.flags,
                            Flags::USER_spec(),
                        )
                    }
            }),
    {
        let RegionDescription { size, len, contiguous, flags, fill: _, kind } = description;
        let start = match at {
            Some(a) => a,
            None => match self.find_free_region(size, len, readings) {
                Some(a) => a,
                None => {
                    proof {
                        assert(false);
                    }
                    VirtualAddress::new(0)
                },
            },
        };
        let backing = UniquePhysicalRegion::take_backing(allocator, size, len, contiguous);
        let phys = backing.physical_addresses();
        proof {
            lemma_page_seq(phys@, backing.addresses());
        }
        let bytes = size.to_byte_size();
        proof {
            assert(len * bytes <= u64::MAX);
        }
        let end = start.add((len as u64) * bytes);
        let rsw = Rsw::DIRECT();
        let ghost b = backing;
        self.install(start, end, &phys, size, flags, rsw, MemoryRegion::Backed(PhysicalRegion::Unique(backing)), kind);
        start..end
    }

    /// Like `alloc_region`, but the frames go behind a shared handle, which
    /// the address map keeps a copy of and which is handed back so that the
    /// region can be mapped into other spaces; its pages are marked as
    /// shared memory.
    pub fn alloc_shared_region(
        &mut self,
        allocator: &mut BitmapAllocator,
        at: Option<VirtualAddress>,
        description: RegionDescription,
        readings: &[u64],
    ) -> (r: (Range<VirtualAddress>, SharedPhysicalRegion))
        requires
            old(self).wf(),
            old(allocator).wf(),
            description.len * description.size.bytes() <= u64::MAX,
            old(self).start_found(at, readings@, description.size, description.len),
            backing_ok(
                old(allocator)@,
                old(allocator).start(),
                old(allocator).end(),
                description.size,
                description.len,
                description.contiguous,
            ),
            install_ok(
                old(self).table_view(),
                old(self).map_entries(),
                old(self).region_start(at, readings@, description.size, description.len),
                (description.len * description.size.bytes()) as u64,
                page_seq(
                    backing_result(
                        old(allocator)@,
                        old(allocator).start(),
                        old(allocator).end(),
                        description.size,
                        description.len,
                        description.contiguous,
                    ).1,
                ),
                description.size,
                description.flags,
                Rsw::SHARED_MEMORY_spec(),
            ),
        ensures
            ({
                let a = old(self).region_start(at, readings@, description.size, description.len);
                let total = (description.len * description.size.bytes()) as u64;
                let (bm, pages) = backing_result(
                    old(allocator)@,
                    old(allocator).start(),
                    old(allocator).end(),
                    description.size,
                    description.len,
                    description.contiguous,
                );
                let b = r.1.inner();
                &&& final(self).wf()
                &&& final(allocator).wf()
                &&& final(allocator).start() == old(allocator).start()
                &&& final(allocator).end() == old(allocator).end()
                &&& final(allocator)@ == bm
                &&& r.0.start.value() == a
                &&& r.0.end.value() == added(a, total).unwrap()
                &&& final(self).table_view() == run_spec(
                    old(self).table_view(),
                    page_seq(pages),
                    a,
                    description.size,
                    description.flags,
                    Some(Rsw::SHARED_MEMORY_spec()),
                )
                &&& makes_leaf(leaf_byte(description.flags, Some(Rsw::SHARED_MEMORY_spec()))) ==> forall|i: int|
                    0 <= i < description.len ==> #[trigger] maps_to(
                        final(self).table_view(),
                        (a + i * description.size.bytes()) as u64,
                        description.size,
                        page_seq(pages)[i],
                    )
                &&& b.addresses() == pages
                &&& b.size_of() == description.size
                &&& b.count() == description.len
                &&& (description.contiguous || description.len == 1 ==> b.kind_of() is Contiguous)
                &&& (!(description.contiguous || description.len == 1) ==> b.kind_of() is Sparse)
                &&& final(self).map_entries() == alloc_entries(
                    old(self).map_entries(),
                    lower_bound(old(self).map_entries(), a),
                    a,
                    added(a, total).unwrap(),
                    MemoryRegion::Backed(PhysicalRegion::Shared(r.1)),
                    description.kind,
                    description.flags,
                    Flags::USER_spec(),
                )
            }),
    {
        let RegionDescription { size, len, contiguous, flags, fill: _, kind } = description;
        let start = match at {
            Some(a) => a,
            None => match self.find_free_region(size, len, readings) {
                Some(a) => a,
                None => {
                    proof {
                        assert(false);
                    }
                    VirtualAddress::new(0)
                },
            },
        };
        let backing = UniquePhysicalRegion::take_backing(allocator, size, len, contiguous);
        let phys = backing.physical_addresses();
        proof {
            lemma_page_seq(phys@, backing.addresses());
        }
        let bytes = size.to_byte_size();
        proof {
            assert(len * bytes <= u64::MAX);
        }
        let end = start.add((len as u64) * bytes);
        let rsw = Rsw::SHARED_MEMORY();
        let shared = backing.into_shared_region();
        let kept = shared.clone();
        self.install(start, end, &phys, size, flags, rsw, MemoryRegion::Backed(PhysicalRegion::Shared(kept)), kind);
        (start..end, shared)
    }

    /// Maps the shared `region` at `at`, or where `find_free_region` places
    /// it, with `flags`, its pages marked as shared memory, and records it
    /// in the address map.
    pub fn apply_shared_region(
        &mut self,
        at: Option<VirtualAddress>,
        flags: Flags,
        region: SharedPhysicalRegion,
        kind: AddressRegionKind,
        readings: &[u64],
    ) -> (r: Range<VirtualAddress>)
        requires
            old(self).wf(),
            region.inner().fits(),
            region.inner().count() * region.inner().size_of().bytes() <= u64::MAX,
            old(self).start_found(at, readings@, region.inner().size_of(), region.inner().count()),
            install_ok(
                old(self).table_view(),
                old(self).map_entries(),
                old(self).region_start(at, readings@, region.inner().size_of(), region.inner().count()),
                (region.inner().count() * region.inner().size_of().bytes()) as u64,
                page_seq(region.inner().addresses()),
                region.inner().size_of(),
                flags,
                Rsw::SHARED_MEMORY_spec(),
            ),
        ensures
            ({
                let size = region.inner().size_of();
                let n = region.inner().count();
                let a = old(self).region_start(at, readings@, size, n);
                let total = (n * size.bytes()) as u64;
                &&& final(self).wf()
                &&& r.start.value() == a
                &&& r.end.value() == added(a, total).unwrap()
                &&& final(self).table_view() == run_spec(
                    old(self).table_view(),
                    page_seq(region.inner().addresses()),
                    a,
                    size,
                    flags,
                    Some(Rsw::SHARED_MEMORY_spec()),
                )
                &&& makes_leaf(leaf_byte(flags, Some(Rsw::SHARED_MEMORY_spec()))) ==> forall|i: int|
                    0 <= i < region.inner().addresses().len() ==> #[trigger] maps_to(
                        final(self).table_view(),
                        (a + i * size.bytes()) as u64,
                        size,
                        page_seq(region.inner().addresses())[i],
                    )
                &&& final(self).map_entries() == alloc_entries(
                    old(self).map_entries(),
                    lower_bound(old(self).map_entries(), a),
                    a,
                    added(a, total).unwrap(),
                    MemoryRegion::Backed(PhysicalRegion::Shared(region)),
                    kind,
                    flags,
                    Flags::USER_spec(),
                )
            }),
    {
        let size = region.deref().page_size();
        let n_pages = region.deref().n_pages();
        let start = match at {
            Some(a) => a,
            None => match self.find_free_region(size, n_pages, readings) {
                Some(a) => a,
                None => {
                    proof {
                        assert(false);
                    }
                    VirtualAddress::new(0)
                },
            },
        };
        let phys = region.deref().physical_addresses();
        proof {
            lemma_page_seq(phys@, region.inner().addresses());
        }
        let bytes = size.to_byte_size();
        proof {
            assert(n_pages * bytes <= u64::MAX);
        }
        let end = start.add((n_pages as u64) * bytes);
        let rsw = Rsw::SHARED_MEMORY();
        self.install(start, end, &phys, size, flags, rsw, MemoryRegion::Backed(PhysicalRegion::Shared(region)), kind);
        start..end
    }

    /// Maps the device memory at `from` into this space at `to`, or where
    /// `find_free_region` places it: `round_up_to_next(4096, len) / 4096`
    /// pages of 4 KiB, read-write for user code and marked as mapped
    /// directly, recorded as a shared device region over a span of
    /// `4096 * len` bytes. The caller vouches that the memory may be
    /// aliased.
    pub fn map_mmio_device(
        &mut self,
        from: PhysicalAddress,
        to: Option<VirtualAddress>,
        len: usize,
        readings: &[u64],
    ) -> (r: (Range<VirtualAddress>, SharedPhysicalRegion))
        requires
            old(self).wf(),
            is_pow2(len as u64),
            from.value() % 0x1000 == 0,
            from.value() + rounded(0x1000, len as u64) <= u64::MAX,
            0x1000 * len <= u64::MAX,
            old(self).start_found(to, readings@, PageSize::Kilopage, (rounded(0x1000, len as u64) / 0x1000) as usize),
            install_ok(
                old(self).table_view(),
                old(self).map_entries(),
                old(self).region_start(to, readings@, PageSize::Kilopage, (rounded(0x1000, len as u64) / 0x1000) as usize),
                (0x1000 * len) as u64,
                page_seq(run_addresses(from.value(), 0x1000, rounded(0x1000, len as u64) / 0x1000)),
                PageSize::Kilopage,
                Flags::from_bits(0x17),
                Rsw::DIRECT_spec(),
            ),
        ensures
            ({
                let n = (rounded(0x1000, len as u64) / 0x1000) as usize;
                let a = old(self).region_start(to, readings@, PageSize::Kilopage, n);
                let b = r.1.inner();
                &&& final(self).wf()
                &&& r.0.start.value() == a
                &&& r.0.end.value() == added(a, (0x1000 * len) as u64).unwrap()
                &&& b.kind_of() is Mmio
                &&& b.addresses() == run_addresses(from.value(), 0x1000, n as int)
                &&& b.size_of() == PageSize::Kilopage
                &&& b.count() == n
                &&& final(self).table_view() == run_spec(
                    old(self).table_view(),
                    page_seq(run_addresses(from.value(), 0x1000, n as int)),
                    a,
                    PageSize::Kilopage,
                    Flags::from_bits(0x17),
                    Some(Rsw::DIRECT_spec()),
                )
                &&& forall|i: int|
                    0 <= i < n ==> #[trigger] maps_to(
                        final(self).table_view(),
                        (a + i * 0x1000) as u64,
                        PageSize::Kilopage,
                        PhysicalAddress::at((from.value() + i * 0x1000) as u64),
                    )
                &&& final(self).map_entries() == alloc_entries(
                    old(self).map_entries(),
                    lower_bound(old(self).map_entries(), a),
                    a,
                    added(a, (0x1000 * len) as u64).unwrap(),
                    MemoryRegion::Backed(PhysicalRegion::Shared(r.1)),
                    AddressRegionKind::Mmio,
                    Flags::from_bits(0x17),
                    Flags::USER_spec(),
                )
            }),
    {
        let n_pages = (round_up_to_next(0x1000, len as u64) / 0x1000) as usize;
        proof {
            lemma_mmio_pages(len as u64);
        }
        let start = match to {
            Some(a) => a,
            None => match self.find_free_region(PageSize::Kilopage, n_pages, readings) {
                Some(a) => a,
                None => {
                    proof {
                        assert(false);
                    }
                    VirtualAddress::new(0)
                },
            },
        };
        let backing = UniquePhysicalRegion::mmio(from, PageSize::Kilopage, n_pages).into_shared_region();
        let phys = backing.deref().physical_addresses();
        proof {
            lemma_page_seq(phys@, backing.inner().addresses());
        }
        let end = start.add(0x1000 * (len as u64));
        let flags = Flags::READ().bitor(Flags::WRITE()).bitor(Flags::USER()).bitor(Flags::VALID());
        proof {
            crate::bits::lemma_bit_constants();
            Flags::lemma_from_bits(0x17);
            Flags::lemma_eq_bits(flags, Flags::from_bits(0x17));
        }
        let rsw = Rsw::DIRECT();
        proof {
            assert(makes_leaf(leaf_byte(flags, Some(rsw))));
            assert forall|i: int| 0 <= i < n_pages implies #[trigger] page_seq(backing.inner().addresses())[i]
                == PhysicalAddress::at((from.value() + i * 0x1000) as u64) by {
            }
        }
        let kept = backing.clone();
        self.install(start, end, &phys, PageSize::Kilopage, flags, rsw, MemoryRegion::Backed(PhysicalRegion::Shared(kept)), AddressRegionKind::Mmio);
        proof {
            assert forall|i: int| 0 <= i < n_pages implies #[trigger] maps_to(
                self.table_view(),
                (start.value() + i * 0x1000) as u64,
                PageSize::Kilopage,
                PhysicalAddress::at((from.value() + i * 0x1000) as u64),
            ) by {
                assert(phys@[i] == page_seq(backing.inner().addresses())[i]);
                assert(maps_to(self.table_view(), (start.value() + i * PageSize::Kilopage.bytes()) as u64, PageSize::Kilopage, phys@[i]));
            }
        }
        (start..end, backing)
    }

    /// Like `alloc_region`, at the place `find_free_region_with_guards`
    /// finds, with a guard page in the page below the region and one just
    /// past it. Returns the region's start.
    pub fn alloc_guarded_region(
        &mut self,
        allocator: &mut BitmapAllocator,
        description: RegionDescription,
        readings: &[u64],
    ) -> (r: VirtualAddress)
        requires
            old(self).wf(),
            old(allocator).wf(),
            description.len * description.size.bytes() <= u64::MAX,
            old(self).free_starts_in_space(),
            guarded_pick(
                old(self).map_entries(),
                readings@,
                description.size.bytes(),
                description.len * description.size.bytes(),
            ) is Found,
            ({
                let size = description.size;
                let total = (description.len * size.bytes()) as u64;
                let a = guarded_pick(old(self).map_entries(), readings@, size.bytes(), total as int)->Found_0;
                let below = sign_extend((a - 0x1000) as u64);
                let t1 = guard_table(old(self).table_view(), below);
                let e1 = guard_entries(old(self).map_entries(), below);
                let pages = page_seq(
                    backing_result(
                        old(allocator)@,
                        old(allocator).start(),
                        old(allocator).end(),
                        size,
                        description.len,
                        description.contiguous,
                    ).1,
                );
                let t2 = run_spec(t1, pages, a, size, description.flags, Some(Rsw::DIRECT_spec()));
                let above = added(a, total).unwrap();
                &&& a >= 0x1000
                &&& guard_ok(old(self).table_view(), old(self).map_entries(), below)
                &&& backing_ok(
                    old(allocator)@,
                    old(allocator).start(),
                    old(allocator).end(),
                    size,
                    description.len,
                    description.contiguous,
                )
                &&& install_ok(t1, e1, a, total, pages, size, description.flags, Rsw::DIRECT_spec())
                &&& forall|b: UniquePhysicalRegion|
                    #[trigger] guard_ok(
                        t2,
                        alloc_entries(
                            e1,
                            lower_bound(e1, a),
                            a,
                            above,
                            MemoryRegion::Backed(PhysicalRegion::Unique(b)),
                            description.kind,
                            description.flags,
                            Flags::USER_spec(),
                        ),
                        above,
                    )
            }),
        ensures
            ({
                let size = description.size;
                let total = (description.len * size.bytes()) as u64;
                let a = guarded_pick(old(self).map_entries(), readings@, size.bytes(), total as int)->Found_0;
                let below = sign_extend((a - 0x1000) as u64);
                let t1 = guard_table(old(self).table_view(), below);
                let e1 = guard_entries(old(self).map_entries(), below);
                let (bm, pages) = backing_result(
                    old(allocator)@,
                    old(allocator).start(),
                    old(allocator).end(),
                    size,
                    description.len,
                    description.contiguous,
                );
                let t2 = run_spec(t1, page_seq(pages), a, size, description.flags, Some(Rsw::DIRECT_spec()));
                let above = added(a, total).unwrap();
                &&& r.value() == a
                &&& final(self).wf()
                &&& final(allocator).wf()
                &&& final(allocator).start() == old(allocator).start()
                &&& final(allocator).end() == old(allocator).end()
                &&& final(allocator)@ == bm
                &&& final(self).table_view() == guard_table(t2, above)
                &&& makes_leaf(leaf_byte(description.flags, Some(Rsw::DIRECT_spec()))) ==> forall|i: int|
                    0 <= i < description.len ==> #[trigger] maps_to(
                        final(self).table_view(),
                        (a + i * size.bytes()) as u64,
                        size,
                        page_seq(pages)[i],
                    )
                &&& exists|b: UniquePhysicalRegion|
                    {
                        &&& b.addresses() == pages
                        &&& b.size_of() == size
                        &&& b.count() == description.len
                        &&& (description.contiguous || description.len == 1 ==> b.kind_of() is Contiguous)
                        &&& (!(description.contiguous || description.len == 1) ==> b.kind_of() is Sparse)
                        &&& final(self).map_entries() == guard_entries(
                            alloc_entries(
                                e1,
                                lower_bound(e1, a),
                                a,
                                above,
                                MemoryRegion::Backed(PhysicalRegion::Unique(b)),
                                description.kind,
                                description.flags,
                                Flags::USER_spec(),
                            ),
                            above,
                        )
                    }
            }),
    {
        let RegionDescription { size, len, contiguous, flags, fill, kind } = description;
        let at = match self.find_free_region_with_guards(size, len, readings) {
            Some(a) => a,
            None => {
                proof {
                    assert(false);
                }
                return VirtualAddress::new(0);
            },
        };
        let below = VirtualAddress::new(at.as_usize() - 0x1000);
        self.guard(below);
        let ghost mid = *self;
        let ghost bm0 = allocator@;
        let ghost alloc0 = *allocator;
        let range = self.alloc_region(allocator, Some(at), RegionDescription { size, len, contiguous, flags, fill, kind }, readings);
        let above = range.end;
        proof {
            let total = (len * size.bytes()) as u64;
            let pages = backing_result(bm0, alloc0.start(), alloc0.end(), size, len, contiguous).1;
            let b = choose|b: UniquePhysicalRegion|
                {
                    &&& b.addresses() == pages
                    &&& b.size_of() == size
                    &&& b.count() == len
                    &&& (contiguous || len == 1 ==> b.kind_of() is Contiguous)
                    &&& (!(contiguous || len == 1) ==> b.kind_of() is Sparse)
                    &&& self.map_entries() == alloc_entries(
                        mid.map_entries(),
                        lower_bound(mid.map_entries(), at.value()),
                        at.value(),
                        added(at.value(), total).unwrap(),
                        MemoryRegion::Backed(PhysicalRegion::Unique(b)),
                        kind,
                        flags,
                        Flags::USER_spec(),
                    )
                };
            assert(guard_ok(
                self.table_view(),
                alloc_entries(
                    mid.map_entries(),
                    lower_bound(mid.map_entries(), at.value()),
                    at.value(),
                    added(at.value(), total).unwrap(),
                    MemoryRegion::Backed(PhysicalRegion::Unique(b)),
                    kind,
                    flags,
                    Flags::USER_spec(),
                ),
                added(at.value(), total).unwrap(),
            ));
        }
        let ghost t2 = self.table_view();
        self.guard(above);
        proof {
            let pages = page_seq(backing_result(bm0, alloc0.start(), alloc0.end(), size, len, contiguous).1);
            if makes_leaf(leaf_byte(flags, Some(Rsw::DIRECT_spec()))) {
                assert forall|i: int| 0 <= i < len implies #[trigger] maps_to(
                    self.table_view(),
                    (at.value() + i * size.bytes()) as u64,
                    size,
                    pages[i],
                ) by {
                    assert(maps_to(t2, (at.value() + i * size.bytes()) as u64, size, pages[i]));
                }
            }
        }
        at
    }
}

/// The flag bits a resolved page fault of `kind` sets: accessed, and dirty
/// too for a store.
pub open spec fn fault_bits(kind: Trap) -> u8 {
    if kind is StorePageFault {
        0xC0
    } else {
        0x40
    }
}

/// The flag a page needs for an access of `kind`: write for a store, read
/// for a load or an instruction fetch.
pub open spec fn fault_needs(kind: Trap) -> u8 {
    if kind is StorePageFault {
        crate::paging::flags::WRITE
    } else {
        crate::paging::flags::READ
    }
}

/// A user page fault is resolved exactly when the address lies in a taken
/// region that is not a guard page, the page is mapped, and the flag byte
/// of the leaf that maps it has the write bit (bit 2) for a store, or the
/// read bit (bit 1) for a load or an instruction fetch. A resolved fault
/// sets the accessed bit (bit 6), and for a store the dirty bit (bit 7).
pub proof fn lemma_fault_needs_the_access_right(m: MemoryManager, kind: Trap, va: u64)
    requires
        kind is LoadPageFault || kind is StorePageFault || kind is InstructionPageFault,
    ensures
        m.fault_ok(kind, va) <==> {
            let i = lower_bound(m.map_entries(), va);
            &&& i < m.map_entries().len()
            &&& m.map_entries()[i].1.region matches Some(r) && !(r is GuardPage)
            &&& m.walk(va) is Leaf
            &&& kind is StorePageFault ==> m.table_view()[m.walk(va)->Leaf_0].flag_byte() & 4 == 4
            &&& !(kind is StorePageFault) ==> m.table_view()[m.walk(va)->Leaf_0].flag_byte() & 2 == 2
        },
        kind is StorePageFault ==> fault_bits(kind) == 0x80u8 | 0x40u8,
        !(kind is StorePageFault) ==> fault_bits(kind) == 0x40,
{
    if m.walk(va) is Leaf {
        Flags::lemma_from_bits(m.table_view()[m.walk(va)->Leaf_0].flag_byte());
    }
    assert(0x80u8 | 0x40u8 == 0xC0u8) by (bit_vector);
}

/// Whether the flag byte `b` with `bits` or-ed in still reads as a leaf when
/// `b` does.
proof fn lemma_or_keeps_leaf(b: u8, bits: u8)
    by (bit_vector)
    ensures
        b & 2 == 2 ==> (b | bits) & 2 == 2,
        b & 8 == 8 ==> (b | bits) & 8 == 8,
        b & 1 == 1 ==> (b | bits) & 1 == 1,
{
}

impl MemoryManager {
    /// Whether a user page fault of `kind` at `va` can be resolved: the
    /// region the address map finds for it is taken and is not a guard page,
    /// the page is mapped, and its flags allow the access.
    pub open spec fn fault_ok(&self, kind: Trap, va: u64) -> bool {
        let i = lower_bound(self.map_entries(), va);
        &&& i < self.map_entries().len()
        &&& self.map_entries()[i].1.region matches Some(r) && !(r is GuardPage)
        &&& self.walk(va) is Leaf
        &&& has_flag(self.leaf_flags(va).bits(), fault_needs(kind))
    }

    /// Resolves a page fault of `kind` at `fault` in user code: when the
    /// region holding the address is taken and not a guard page, and the
    /// page is mapped with the flag the access needs, the page is marked
    /// accessed, and dirty for a store, and the fault is resolved; otherwise
    /// nothing changes and the task is to end.
    pub fn resolve_page_fault(&mut self, kind: Trap, fault: VirtualAddress) -> (r: bool)
        requires
            old(self).wf(),
            kind is LoadPageFault || kind is StorePageFault || kind is InstructionPageFault,
            !(old(self).walk(fault.value()) is Broken),
        ensures
            final(self).wf(),
            final(self).map_entries() == old(self).map_entries(),
            r == old(self).fault_ok(kind, fault.value()),
            r ==> {
                let slot = old(self).walk(fault.value())->Leaf_0;
                let e = old(self).table_view()[slot];
                final(self).table_view() == old(self).table_view().update(
                    slot,
                    PageTableEntry::with_fields(e.ppn_field(), e.rsw_field(), e.flag_byte() | fault_bits(kind)),
                )
            },
            !r ==> final(self).table_view() == old(self).table_view(),
    {
        let taken = match self.region_for(fault) {
            None => false,
            Some(r) => match &r.region {
                None => false,
                Some(MemoryRegion::GuardPage) => false,
                Some(_) => true,
            },
        };
        if !taken {
            return false;
        }
        let flags = match self.page_flags(fault) {
            Some(flags) => flags,
            None => return false,
        };
        let store = match kind {
            Trap::StorePageFault => true,
            _ => false,
        };
        let need = if store { Flags::WRITE() } else { Flags::READ() };
        if !flags.bitand(need) {
            return false;
        }
        let bits = if store { Flags::DIRTY().bitor(Flags::ACCESSED()) } else { Flags::ACCESSED() };
        let new = flags.bitor(bits);
        proof {
            let slot = self.walk(fault.value())->Leaf_0;
            crate::paging::table::lemma_walk_leaf(self.table_view(), 0, 2, fault.value());
            let b = self.table_view()[slot].flag_byte();
            Flags::lemma_from_bits(b);
            lemma_or_keeps_leaf(b, bits.bits());
            assert(0x80u8 | 0x40u8 == 0xC0u8) by (bit_vector);
            assert(self.flags_ok(fault.value(), new));
        }
        self.modify_page_flags(fault, move |_f: Flags| -> (g: Flags)
            ensures
                g == new,
            { new })
    }
}

} // verus!
