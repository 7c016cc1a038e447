use lib::manager::{InvalidRegion, MemoryManager};
use lib::paging::entry::{EntryKind, PageSize, PageTableEntry, PhysicalAddress, Rsw, VirtualAddress};
use lib::paging::flags::Flags;
use lib::paging::table::PageTable;
use lib::user::{InvalidUserPtr, RawUserPtr, RawUserSlice, Read, ReadWrite};

fn rw() -> Flags {
    Flags::READ().bitor(Flags::WRITE()).bitor(Flags::VALID()).bitor(Flags::USER())
}

#[test]
fn map_then_resolve_gives_the_page_back() {
    let mut table = PageTable::new_raw();
    let va = VirtualAddress::new(0x4000_1000);
    table.map(PhysicalAddress::new(0x8020_0000), va, rw(), PageSize::Kilopage, Rsw::NONE());
    assert_eq!(table.resolve(va).unwrap().as_usize(), 0x8020_0000);
    assert_eq!(table.page_flags(va).unwrap().value(), rw().value());
    assert_eq!(table.page_rsw(va).unwrap(), Rsw::NONE());
    assert!(table.resolve(VirtualAddress::new(0x4000_2000)).is_none());
}

#[test]
fn map_keeps_earlier_mappings() {
    let mut table = PageTable::new_raw();
    let a = VirtualAddress::new(0x1000);
    let b = VirtualAddress::new(0x20_0000);
    let c = VirtualAddress::new(0x4000_0000);
    table.map(PhysicalAddress::new(0x9000), a, rw(), PageSize::Kilopage, Rsw::NONE());
    table.map(PhysicalAddress::new(0x40_0000), b, rw(), PageSize::Megapage, Rsw::NONE());
    table.static_map(PhysicalAddress::new(0x8000_0000), c, rw(), PageSize::Gigapage);
    assert_eq!(table.resolve(a).unwrap().as_usize(), 0x9000);
    assert_eq!(table.resolve(VirtualAddress::new(0x20_1234)).unwrap().as_usize(), 0x40_0000);
    assert_eq!(table.resolve(c).unwrap().as_usize(), 0x8000_0000);
}

#[test]
fn unmap_clears_only_its_page() {
    let mut table = PageTable::new_raw();
    let a = VirtualAddress::new(0x1000);
    let b = VirtualAddress::new(0x2000);
    table.map(PhysicalAddress::new(0x9000), a, rw(), PageSize::Kilopage, Rsw::NONE());
    table.map(PhysicalAddress::new(0xA000), b, rw(), PageSize::Kilopage, Rsw::NONE());
    table.unmap(a);
    assert!(table.resolve(a).is_none());
    assert_eq!(table.resolve(b).unwrap().as_usize(), 0xA000);
}

#[test]
fn software_bits_land_in_the_flag_byte() {
    // Setting software bits writes their low two bits into the valid and
    // read flags and clears the software field.
    let mut table = PageTable::new_raw();
    let a = VirtualAddress::new(0x1000);
    let flags = Flags::READ().bitor(Flags::VALID());
    table.map(PhysicalAddress::new(0x9000), a, flags, PageSize::Kilopage, Rsw::DIRECT());
    assert_eq!(table.page_flags(a).unwrap().value(), flags.value() | 2);
    assert_eq!(table.page_rsw(a).unwrap(), Rsw::NONE());
}

#[test]
fn modify_page_flags_reports_mapping() {
    let mut table = PageTable::new_raw();
    let a = VirtualAddress::new(0x1000);
    table.map(PhysicalAddress::new(0x9000), a, rw(), PageSize::Kilopage, Rsw::NONE());
    assert!(table.modify_page_flags(a, |f: Flags| f.bitor(Flags::EXECUTE())));
    assert!(table.page_flags(a).unwrap().bitand(Flags::EXECUTE()));
    assert!(!table.modify_page_flags(VirtualAddress::new(0x5000), |f: Flags| f));
    assert!(table.modify_page_rsw(a, |r: Rsw| r));
}

#[test]
fn debug_lists_user_leaves() {
    let mut table = PageTable::new_raw();
    table.map(PhysicalAddress::new(0x9000), VirtualAddress::new(0x1000), rw(), PageSize::Kilopage, Rsw::NONE());
    table.map(PhysicalAddress::new(0x40_0000), VirtualAddress::new(0x20_0000), rw(), PageSize::Megapage, Rsw::NONE());
    let lines = table.debug();
    assert_eq!(lines.len(), 2);
    assert_eq!(lines[0].virt.as_usize(), 0x1000);
    assert_eq!(lines[0].size_to_letter(), 'K');
    assert_eq!(lines[1].phys.as_usize(), 0x40_0000);
    assert_eq!(lines[1].size_to_letter(), 'M');
    assert_eq!(table.physical_address().as_usize(), 0);
}

#[test]
fn entry_fields() {
    let mut e = PageTableEntry::new();
    assert!(!e.is_valid());
    assert_eq!(e.kind(), EntryKind::NotValid);
    e.set_flags(Flags::VALID());
    e.set_ppn(PhysicalAddress::new(0x1234_5000));
    assert_eq!(e.as_bits(), (0x12345 << 10) | 1);
    assert!(matches!(e.kind(), EntryKind::Branch(_)));
    e.set_flags(Flags::VALID().bitor(Flags::READ()));
    assert_eq!(e.kind(), EntryKind::Leaf);
    assert_eq!(e.ppn().unwrap().as_usize(), 0x1234_5000);
}

#[test]
fn manager_guard_and_validation() {
    let mut m = MemoryManager::new();
    // The page at 0 is a guard page: it is taken in the address map.
    let region = m.region_for(VirtualAddress::new(0)).unwrap();
    assert!(!region.is_unoccupied());
    m.map_direct(PhysicalAddress::new(0x9000), VirtualAddress::new(0x10_0000), PageSize::Kilopage, rw());
    assert_eq!(m.resolve(VirtualAddress::new(0x10_0000)).unwrap().as_usize(), 0x9000);
    let ok = m.is_user_region_valid(
        VirtualAddress::new(0x10_0000)..VirtualAddress::new(0x10_0010),
        |f: Flags| f.bitand(Flags::READ()),
    );
    assert!(ok.is_ok());
    // An end on a page boundary stops the check at the page before it.
    let whole = m.is_user_region_valid(
        VirtualAddress::new(0x10_0000)..VirtualAddress::new(0x10_1000),
        |f: Flags| f.bitand(Flags::READ()),
    );
    assert!(whole.is_ok());
    // One byte more reaches the next page, which is not mapped.
    let beyond = m.is_user_region_valid(
        VirtualAddress::new(0x10_0000)..VirtualAddress::new(0x10_1001),
        |f: Flags| f.bitand(Flags::READ()),
    );
    assert!(matches!(beyond, Err((p, InvalidRegion::NotMapped)) if p.as_usize() == 0x10_1000));
    let refused = m.is_user_region_valid(
        VirtualAddress::new(0x10_0000)..VirtualAddress::new(0x10_0010),
        |f: Flags| f.bitand(Flags::EXECUTE()),
    );
    assert!(matches!(refused, Err((_, InvalidRegion::InvalidPermissions))));
    let kernel = m.is_user_region_valid(
        VirtualAddress::new(0xFFFF_FFC0_0000_0000)..VirtualAddress::new(0xFFFF_FFC0_0000_0010),
        |_f: Flags| true,
    );
    assert!(matches!(kernel, Err((_, InvalidRegion::InvalidPermissions))));
}

#[test]
fn user_pointers_are_checked() {
    let mut m = MemoryManager::new();
    m.map_direct(PhysicalAddress::new(0x9000), VirtualAddress::new(0x10_0000), PageSize::Kilopage, rw());
    m.map_direct(PhysicalAddress::new(0xA000), VirtualAddress::new(0x10_1000), PageSize::Kilopage, rw());
    let p: RawUserPtr<Read, u64> = RawUserPtr::readable(VirtualAddress::new(0x10_0008));
    assert!(p.validate(&m).is_ok());
    let unaligned: RawUserPtr<Read, u64> = RawUserPtr::readable(VirtualAddress::new(0x10_0001));
    assert!(matches!(unaligned.validate(&m), Err(InvalidUserPtr::Unaligned)));
    let unmapped: RawUserPtr<ReadWrite, u64> = RawUserPtr::writable(VirtualAddress::new(0x20_0000));
    assert!(matches!(unmapped.validate(&m), Err(InvalidUserPtr::NotMapped)));
    let empty: RawUserSlice<Read, u8> = RawUserSlice::readable(VirtualAddress::new(0x30_0000), 0);
    assert!(empty.is_empty());
    assert_eq!(empty.validate(&m).ok().unwrap().len(), 0);
    let slice: RawUserSlice<Read, u8> = RawUserSlice::new(VirtualAddress::new(0x10_0000), 16);
    assert_eq!(slice.len(), 16);
    assert_eq!(slice.addr().as_usize(), 0x10_0000);
    assert!(slice.validate(&m).is_ok());
}


#[test]
fn flags_show_as_letters() {
    let letters: String = rw().letters().into_iter().collect();
    assert_eq!(letters, "---u-wrv");
    let all: String = Flags::new(0xFF).letters().into_iter().collect();
    assert_eq!(all, "dagux wrv".replace(' ', ""));
    let none: String = Flags::NONE().letters().into_iter().collect();
    assert_eq!(none, "--------");
}

#[test]
fn dropping_a_table_frees_pages_then_tables() {
    let mut table = PageTable::new_raw();
    table.map(PhysicalAddress::new(0x9000), VirtualAddress::new(0x1000), rw(), PageSize::Kilopage, Rsw::NONE());
    let freed = table.deallocate();
    let got: Vec<(u64, PageSize)> = freed.iter().map(|(p, s)| (p.as_usize(), *s)).collect();
    // The leaf's page, then the last-level table, then the middle table;
    // the root is not among them.
    assert_eq!(got, vec![(0x9000, PageSize::Kilopage), (0x2000, PageSize::Kilopage), (0x1000, PageSize::Kilopage)]);
}

#[test]
fn page_numbers_are_44_bits() {
    assert_eq!(PhysicalAddress::new(0x8020_0000).ppn(), 0x80200);
    assert_eq!(PhysicalAddress::new(1 << 56).ppn(), 0);
}

#[test]
fn manager_modify_rsw_reports_mapping() {
    let mut m = MemoryManager::new();
    m.map_direct(PhysicalAddress::new(0x9000), VirtualAddress::new(0x10_0000), PageSize::Kilopage, rw());
    let before = m.page_flags(VirtualAddress::new(0x10_0000)).unwrap().value();
    assert!(m.modify_rsw(VirtualAddress::new(0x10_0000), |_r: Rsw| Rsw::SHARED_MEMORY()));
    assert_eq!(m.page_flags(VirtualAddress::new(0x10_0000)).unwrap().value(), before);
    assert_eq!(m.rsw(VirtualAddress::new(0x10_0000)).unwrap(), Rsw::SHARED_MEMORY());
    assert!(m.modify_rsw(VirtualAddress::new(0x10_0000), |_r: Rsw| Rsw::NONE()));
    assert_eq!(m.page_flags(VirtualAddress::new(0x10_0000)).unwrap().value(), before);
    assert_eq!(m.rsw(VirtualAddress::new(0x10_0000)).unwrap(), Rsw::NONE());
    assert!(!m.modify_rsw(VirtualAddress::new(0x20_0000), |r: Rsw| r));
}

#[test]
fn walks_reach_leaves_or_gaps() {
    let mut m = MemoryManager::new();
    m.map_direct(PhysicalAddress::new(0x9000), VirtualAddress::new(0x10_0000), PageSize::Kilopage, rw());
    assert!(m.walks_cleanly(VirtualAddress::new(0x10_0000)));
    assert!(m.walks_cleanly(VirtualAddress::new(0x50_0000)));
    let mut table = PageTable::new_raw();
    table.map(PhysicalAddress::new(0x9000), VirtualAddress::new(0x1000), rw(), PageSize::Kilopage, Rsw::NONE());
    table.unmap(VirtualAddress::new(0x1000));
    assert!(table.walks_cleanly(VirtualAddress::new(0x1000)));
    assert!(table.resolve(VirtualAddress::new(0x1000)).is_none());
}
