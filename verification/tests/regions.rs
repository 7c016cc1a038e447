use lib::trap::{trap_action, trap_handler, Handled, Trap, TrapAction};
use lib::address_map::AddressRegionKind;
use lib::manager::{FillOption, MemoryManager, RegionDescription};
use lib::paging::entry::{PageSize, PhysicalAddress, Rsw, VirtualAddress};
use lib::paging::flags::Flags;
use lib::phys::BitmapAllocator;
use lib::region::{MemoryRegion, UniquePhysicalRegion};

fn rw() -> Flags {
    Flags::READ().bitor(Flags::WRITE()).bitor(Flags::VALID()).bitor(Flags::USER())
}

fn allocator() -> BitmapAllocator {
    let mut a = BitmapAllocator::new();
    a.init(0x8000_0000, 0x8010_0000);
    a
}

fn description<'a>(size: PageSize, len: usize, contiguous: bool) -> RegionDescription<'a> {
    RegionDescription { size, len, contiguous, flags: rw(), fill: FillOption::Zeroed, kind: AddressRegionKind::Data }
}

#[test]
fn free_region_walk_starts_after_the_null_guard() {
    let m = MemoryManager::new();
    let small = m.find_free_region(PageSize::Kilopage, 4, &[]).unwrap();
    assert_eq!(small.as_usize(), 0x1000);
    let large = m.find_free_region(PageSize::Megapage, 1, &[]).unwrap();
    assert_eq!(large.as_usize(), 0x20_0000);
}

#[test]
fn random_try_takes_only_free_regions() {
    let m = MemoryManager::new();
    // A reading of 0 draws address 0, which lies in the guard page: the try
    // is refused and the walk over the free regions decides.
    let one = m.find_free_region(PageSize::Kilopage, 1, &[0]).unwrap();
    assert_eq!(one.as_usize(), 0x1000);
    // A reading of 1 draws 717, still in the guard page.
    let drawn = m.find_free_region(PageSize::Kilopage, 1, &[1]).unwrap();
    assert_eq!(drawn.as_usize(), 0x1000);
    // A reading of 0x1_0000 draws 0x2CD_0000, inside the free space.
    let free = m.find_free_region(PageSize::Kilopage, 2, &[0x1_0000]).unwrap();
    assert_eq!(free.as_usize(), 0x2CD_0000);
}

#[test]
fn guarded_search_leaves_a_page_below() {
    let m = MemoryManager::new();
    let at = m.find_free_region_with_guards(PageSize::Kilopage, 2, &[]).unwrap();
    assert_eq!(at.as_usize(), 0x2000);
}

#[test]
fn allocated_region_is_mapped_and_recorded() {
    let mut m = MemoryManager::new();
    let mut frames = allocator();
    let range = m.alloc_region(&mut frames, Some(VirtualAddress::new(0x10_0000)), description(PageSize::Kilopage, 2, true), &[]);
    assert_eq!(range.start.as_usize(), 0x10_0000);
    assert_eq!(range.end.as_usize(), 0x10_2000);
    let first = m.resolve(VirtualAddress::new(0x10_0000)).unwrap().as_usize();
    let second = m.resolve(VirtualAddress::new(0x10_1000)).unwrap().as_usize();
    assert_eq!(second, first + 0x1000);
    assert!(first >= 0x8000_1000 && first < 0x8010_0000);
    // The software bits are written where `set_rsw` puts them: into the
    // flag byte, where the bit of `DIRECT` is the read bit, so the software
    // field reads as clear.
    assert_eq!(m.rsw(VirtualAddress::new(0x10_0000)).unwrap(), Rsw::NONE());
    assert_eq!(m.page_flags(VirtualAddress::new(0x10_1000)).unwrap().value(), rw().value());
    let region = m.region_for(VirtualAddress::new(0x10_1000)).unwrap();
    assert!(!region.is_unoccupied());
    assert_eq!(region.kind, AddressRegionKind::Data);
    assert_eq!(region.span.start.as_usize(), 0x10_0000);
    assert_eq!(region.span.end.as_usize(), 0x10_2000);
    assert!(m.resolve(VirtualAddress::new(0x10_2000)).is_none());
}

#[test]
fn sparse_region_takes_pages_one_by_one() {
    let mut m = MemoryManager::new();
    let mut frames = allocator();
    let range = m.alloc_region(&mut frames, None, description(PageSize::Kilopage, 3, false), &[]);
    assert_eq!(range.start.as_usize(), 0x1000);
    let a = m.resolve(VirtualAddress::new(0x1000)).unwrap().as_usize();
    let b = m.resolve(VirtualAddress::new(0x2000)).unwrap().as_usize();
    let c = m.resolve(VirtualAddress::new(0x3000)).unwrap().as_usize();
    assert!(a != b && b != c && a != c);
    let backing = m.dealloc_region(VirtualAddress::new(0x1000));
    assert!(matches!(backing, MemoryRegion::Backed(_)));
    assert_eq!(backing.page_count(), 3);
    assert!(m.resolve(VirtualAddress::new(0x2000)).is_none());
}

#[test]
fn dealloc_from_inside_unmaps_the_whole_region() {
    let mut m = MemoryManager::new();
    let mut frames = allocator();
    m.alloc_region(&mut frames, None, description(PageSize::Kilopage, 3, false), &[]);
    let backing = m.dealloc_region(VirtualAddress::new(0x2000));
    assert_eq!(backing.page_count(), 3);
    assert!(m.resolve(VirtualAddress::new(0x1000)).is_none());
    assert!(m.resolve(VirtualAddress::new(0x2000)).is_none());
    assert!(m.resolve(VirtualAddress::new(0x3000)).is_none());
    assert!(m.region_for(VirtualAddress::new(0x2000)).unwrap().is_unoccupied());
}

#[test]
fn shared_region_maps_into_a_second_space() {
    let mut m = MemoryManager::new();
    let mut other = MemoryManager::new();
    let mut frames = allocator();
    let (range, shared) =
        m.alloc_shared_region(&mut frames, Some(VirtualAddress::new(0x40_0000)), description(PageSize::Kilopage, 1, true), &[]);
    assert_eq!(range.end.as_usize(), 0x40_1000);
    let phys = m.resolve(VirtualAddress::new(0x40_0000)).unwrap().as_usize();
    assert_eq!(m.rsw(VirtualAddress::new(0x40_0000)).unwrap(), Rsw::NONE());
    let there = other.apply_shared_region(Some(VirtualAddress::new(0x80_0000)), rw(), shared, AddressRegionKind::UserSharedMemory, &[]);
    assert_eq!(there.start.as_usize(), 0x80_0000);
    assert_eq!(other.resolve(VirtualAddress::new(0x80_0000)).unwrap().as_usize(), phys);
}

#[test]
fn device_memory_maps_read_write_for_user_code() {
    let mut m = MemoryManager::new();
    let (range, device) = m.map_mmio_device(PhysicalAddress::new(0x1000_0000), None, 0x1000, &[]);
    // One page is mapped; the span recorded is 4096 times the length.
    assert_eq!(range.start.as_usize(), 0x1000);
    assert_eq!(range.end.as_usize(), 0x1000 + 0x1000 * 0x1000);
    assert_eq!(device.deref().n_pages(), 1);
    assert_eq!(m.resolve(VirtualAddress::new(0x1000)).unwrap().as_usize(), 0x1000_0000);
    assert_eq!(m.page_flags(VirtualAddress::new(0x1000)).unwrap().value(), 0x17);
    assert!(m.resolve(VirtualAddress::new(0x2000)).is_none());
    assert_eq!(m.region_for(VirtualAddress::new(0x2000)).unwrap().kind, AddressRegionKind::Mmio);
}

#[test]
fn guarded_region_has_guards_on_both_sides() {
    let mut m = MemoryManager::new();
    let mut frames = allocator();
    let at = m.alloc_guarded_region(&mut frames, description(PageSize::Kilopage, 2, true), &[]);
    assert_eq!(at.as_usize(), 0x2000);
    assert_eq!(m.region_for(VirtualAddress::new(0x1000)).unwrap().kind, AddressRegionKind::Guard);
    assert_eq!(m.region_for(VirtualAddress::new(0x4000)).unwrap().kind, AddressRegionKind::Guard);
    assert_eq!(m.resolve(VirtualAddress::new(0x1000)).unwrap().as_usize(), 0);
    assert!(m.resolve(VirtualAddress::new(0x3000)).unwrap().as_usize() >= 0x8000_0000);
}

#[test]
fn released_frames_can_be_taken_again() {
    let mut frames = allocator();
    let run = UniquePhysicalRegion::alloc_contiguous(&mut frames, PageSize::Kilopage, 2);
    let first = run.physical_addresses()[0].as_usize();
    run.release(&mut frames);
    let again = UniquePhysicalRegion::alloc_contiguous(&mut frames, PageSize::Kilopage, 2);
    assert_eq!(again.physical_addresses()[0].as_usize(), first);
    let sparse = UniquePhysicalRegion::alloc_sparse(&mut frames, PageSize::Kilopage, 3);
    let pages: Vec<usize> = sparse.physical_addresses().iter().map(|p| p.as_usize() as usize).collect();
    sparse.release(&mut frames);
    let one = frames.allocate(PageSize::Kilopage).unwrap();
    assert_eq!(one.as_phys_address().as_usize() as usize, pages[0]);
}

#[test]
fn whole_entry_runs_round_trip() {
    let mut frames = allocator();
    // The search steps by the run's length in entries: entries 0 and 1 hold
    // the bitmap's own page, so the run starts at entry 2.
    let page = frames.alloc_contiguous(PageSize::Kilopage, 128).unwrap();
    assert_eq!(page.as_phys_address().as_usize(), 0x8008_0000);
    frames.dealloc_contiguous(page, PageSize::Kilopage, 128);
    let again = frames.alloc_contiguous(PageSize::Kilopage, 128).unwrap();
    assert_eq!(again.as_phys_address().as_usize(), 0x8008_0000);
    frames.dealloc_contiguous(again, PageSize::Kilopage, 128);
    let whole = frames.alloc_contiguous(PageSize::Kilopage, 64).unwrap();
    assert_eq!(whole.as_phys_address().as_usize(), 0x8004_0000);
}

#[test]
fn small_runs_round_trip() {
    let mut frames = allocator();
    let run = frames.alloc_contiguous(PageSize::Kilopage, 3).unwrap();
    assert_eq!(run.as_phys_address().as_usize(), 0x8000_1000);
    frames.dealloc_contiguous(run, PageSize::Kilopage, 3);
    let again = frames.alloc_contiguous(PageSize::Kilopage, 3).unwrap();
    assert_eq!(again.as_phys_address().as_usize(), 0x8000_1000);
}

#[test]
fn page_faults_mark_pages_or_end_the_task() {
    let mut m = MemoryManager::new();
    let mut frames = allocator();
    m.alloc_region(&mut frames, Some(VirtualAddress::new(0x10_0000)), description(PageSize::Kilopage, 1, true), &[]);
    let page = VirtualAddress::new(0x10_0000);
    let before = m.page_flags(page).unwrap().value();
    assert!(m.resolve_page_fault(Trap::LoadPageFault, page));
    assert_eq!(m.page_flags(page).unwrap().value(), before | 0x40);
    assert!(m.resolve_page_fault(Trap::StorePageFault, page));
    assert_eq!(m.page_flags(page).unwrap().value(), before | 0xC0);
    // The guard page at 0 and an address no region takes end the task.
    assert!(!m.resolve_page_fault(Trap::LoadPageFault, VirtualAddress::new(0)));
    assert!(!m.resolve_page_fault(Trap::StorePageFault, VirtualAddress::new(0x20_0000)));
}

#[test]
fn traps_map_to_actions() {
    assert_eq!(trap_action(Trap::SupervisorTimerInterrupt, false), TrapAction::Reschedule);
    assert_eq!(trap_action(Trap::UserModeEnvironmentCall, false), TrapAction::Syscall);
    assert_eq!(trap_action(Trap::SupervisorExternalInterrupt, true), TrapAction::ExternalInterrupt);
    assert_eq!(trap_action(Trap::LoadPageFault, true), TrapAction::KernelFault);
    assert_eq!(trap_action(Trap::StorePageFault, false), TrapAction::UserFault);
    assert_eq!(trap_action(Trap::Breakpoint, false), TrapAction::Unhandled);
}

#[test]
fn trap_handler_resolves_user_faults_and_reports_the_rest() {
    let mut m = MemoryManager::new();
    let mut frames = allocator();
    m.alloc_region(&mut frames, Some(VirtualAddress::new(0x10_0000)), description(PageSize::Kilopage, 1, true), &[]);
    let before = m.page_flags(VirtualAddress::new(0x10_0000)).unwrap().value();
    assert_eq!(trap_handler(&mut m, Trap::StorePageFault, 0x1000, 0x10_0008), Handled::Resumed);
    assert_eq!(m.page_flags(VirtualAddress::new(0x10_0000)).unwrap().value(), before | 0xC0);
    assert_eq!(trap_handler(&mut m, Trap::LoadPageFault, 0x1000, 0x20_0000), Handled::KillTask);
    assert_eq!(trap_handler(&mut m, Trap::LoadPageFault, 0xFFFF_FFFF_8000_0000, 0x10_0000), Handled::KernelBug);
    assert_eq!(trap_handler(&mut m, Trap::SupervisorTimerInterrupt, 0x1000, 0), Handled::Reschedule);
    assert_eq!(trap_handler(&mut m, Trap::UserModeEnvironmentCall, 0x1000, 0), Handled::Syscall);
    assert_eq!(trap_handler(&mut m, Trap::Breakpoint, 0x1000, 0), Handled::KernelBug);
}

#[test]
fn found_regions_lie_inside_one_free_region() {
    let mut m = MemoryManager::new();
    let mut frames = allocator();
    m.alloc_region(&mut frames, Some(VirtualAddress::new(0x10_0000)), description(PageSize::Kilopage, 4, true), &[]);
    for readings in [vec![], vec![0x1234_5678], vec![7, 0xDEAD_BEEF, 42]] {
        let a = m.find_free_region(PageSize::Kilopage, 4, &readings).unwrap();
        let r = m.region_for(a).unwrap();
        assert!(r.region.is_none());
        assert!(r.span.start.as_usize() <= a.as_usize());
        assert!(a.as_usize() + 4 * 0x1000 <= r.span.end.as_usize());
    }
}
