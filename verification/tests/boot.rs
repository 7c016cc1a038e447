use lib::boot::{early_paging, kernel_memory_region, KernelLayout};
use lib::byteorder::BigEndianU64;
use lib::fdt::MemoryRegion;
use lib::paging::entry::VirtualAddress;
use lib::phys::BitmapAllocator;

fn be(v: u64) -> BigEndianU64 {
    BigEndianU64::from_bytes(&v.to_be_bytes()).unwrap()
}

fn region(start: u64, size: u64) -> MemoryRegion {
    MemoryRegion { starting_address: be(start), size: be(size) }
}

fn layout() -> KernelLayout {
    KernelLayout {
        kernel_start: 0x8020_0000,
        kernel_end: 0x8030_0000,
        bss: 0x8028_0000..0x8028_2000,
        data: 0x8027_0000..0x8027_1000,
        tmp_stack: 0x8029_0000..0x8029_2000,
        text: 0x8020_0000..0x8020_3000,
        load_location: 0x8020_0000,
        page_offset: 0xFFFF_FFFF_8000_0000,
    }
}

#[test]
fn kernel_region_is_the_first_that_holds_the_image() {
    let regions = vec![region(0, 0x1000), region(0x8000_0000, 0x800_0000), region(0x8000_0000, 0x1000_0000)];
    assert_eq!(kernel_memory_region(&regions, &layout()), Some(1));
    let none = vec![region(0, 0x1000)];
    assert_eq!(kernel_memory_region(&none, &layout()), None);
}

#[test]
fn boot_table_maps_sections_and_physical_memory() {
    let mut frames = BitmapAllocator::new();
    let memory = region(0x8000_0000, 0x800_0000);
    let phys_offset = 0xFFFF_FFC0_0000_0000;
    let (table, satp) = early_paging(
        &mut frames,
        &memory,
        &layout(),
        0x8200_0000,
        0x1000,
        phys_offset,
        lib::paging::entry::PhysicalAddress::new(0x8030_0000),
    );
    assert_eq!(satp, 0x8000_0000_0008_0300);
    let text = VirtualAddress::new(0xFFFF_FFFF_8000_1000);
    assert_eq!(table.resolve(text).unwrap().as_usize(), 0x8020_1000);
    assert_eq!(table.page_flags(text).unwrap().value(), 0x49);
    let bss = VirtualAddress::new(0xFFFF_FFFF_8008_1000);
    assert_eq!(table.resolve(bss).unwrap().as_usize(), 0x8028_1000);
    assert_eq!(table.page_flags(bss).unwrap().value(), 0xC7);
    assert!(table.resolve(VirtualAddress::new(0xFFFF_FFFF_8008_2000)).is_none());
    let phys = VirtualAddress::new(phys_offset + 0x8000_1234);
    assert_eq!(table.resolve(phys).unwrap().as_usize(), 0x8000_0000);
    assert!(table.resolve(VirtualAddress::new(phys_offset + 64 * 0x4000_0000)).is_none());
    // The device tree's two pages are kept from the allocator: the first
    // free page is the one after the allocator's own.
    let page = frames.allocate(lib::paging::entry::PageSize::Kilopage).unwrap();
    assert_eq!(page.as_phys_address().as_usize(), 0x8030_1000);
}

#[test]
fn bootstrap_satp_is_sv39_with_the_root_page() {
    assert_eq!(lib::boot::bootstrap_satp(lib::paging::entry::PhysicalAddress::new(0x8020_0000)), 0x8000_0000_0008_0200);
}
