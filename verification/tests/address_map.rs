use lib::address_map::{AddressMap, AddressMappingError, AddressRegion, AddressRegionKind, Userspace};
use lib::paging::entry::VirtualAddress;
use lib::paging::flags::Flags;
use lib::region::MemoryRegion;

#[test]
fn split_works() {
    // Initial allocation, aka splitting into three parts
    let mut am = AddressMap::<Userspace>::new();
    let subrange = VirtualAddress::new(0x1_0000)..VirtualAddress::new(0x5_0000);
    am.allocate(subrange.clone(), MemoryRegion::GuardPage, AddressRegionKind::Unoccupied, Flags::READ()).unwrap();

    assert_eq!(
        am.occupied_regions(),
        vec![&AddressRegion {
            region: Some(MemoryRegion::GuardPage),
            span: subrange.clone(),
            kind: AddressRegionKind::Unoccupied,
            permissions: Flags::READ(),
        }]
    );

    assert_eq!(
        am.unoccupied_regions(),
        vec![
            &AddressRegion {
                region: None,
                span: VirtualAddress::new(0)..subrange.start,
                kind: AddressRegionKind::Unoccupied,
                permissions: Flags::USER(),
            },
            &AddressRegion {
                region: None,
                span: subrange.end..VirtualAddress::userspace_range().end,
                kind: AddressRegionKind::Unoccupied,
                permissions: Flags::USER(),
            }
        ]
    );

    // Full first-subrange allocation
    let mut am = AddressMap::<Userspace>::new();
    let subrange = VirtualAddress::new(0x1_0000)..VirtualAddress::new(0x5_0000);
    am.allocate(subrange.clone(), MemoryRegion::GuardPage, AddressRegionKind::Unoccupied, Flags::USER()).unwrap();
    am.allocate(
        VirtualAddress::new(0)..subrange.start,
        MemoryRegion::GuardPage,
        AddressRegionKind::Unoccupied,
        Flags::USER(),
    )
    .unwrap();

    assert_eq!(
        am.occupied_regions(),
        vec![
            &AddressRegion {
                region: Some(MemoryRegion::GuardPage),
                span: VirtualAddress::new(0)..subrange.start,
                kind: AddressRegionKind::Unoccupied,
                permissions: Flags::USER(),
            },
            &AddressRegion {
                region: Some(MemoryRegion::GuardPage),
                span: subrange.clone(),
                kind: AddressRegionKind::Unoccupied,
                permissions: Flags::USER(),
            },
        ]
    );

    assert_eq!(
        am.unoccupied_regions(),
        vec![&AddressRegion {
            region: None,
            span: subrange.end..VirtualAddress::userspace_range().end,
            kind: AddressRegionKind::Unoccupied,
            permissions: Flags::USER(),
        }]
    );

    // Full second-subrange allocation
    let mut am = AddressMap::<Userspace>::new();
    let subrange = VirtualAddress::new(0x1_0000)..VirtualAddress::new(0x5_0000);
    am.allocate(subrange.clone(), MemoryRegion::GuardPage, AddressRegionKind::Unoccupied, Flags::USER()).unwrap();
    am.allocate(
        subrange.end..VirtualAddress::userspace_range().end,
        MemoryRegion::GuardPage,
        AddressRegionKind::Unoccupied,
        Flags::USER(),
    )
    .unwrap();

    assert_eq!(
        am.occupied_regions(),
        vec![
            &AddressRegion {
                region: Some(MemoryRegion::GuardPage),
                span: subrange.clone(),
                kind: AddressRegionKind::Unoccupied,
                permissions: Flags::USER(),
            },
            &AddressRegion {
                region: Some(MemoryRegion::GuardPage),
                span: subrange.end..VirtualAddress::userspace_range().end,
                kind: AddressRegionKind::Unoccupied,
                permissions: Flags::USER(),
            }
        ]
    );

    assert_eq!(
        am.unoccupied_regions(),
        vec![&AddressRegion {
            region: None,
            span: VirtualAddress::new(0)..subrange.start,
            kind: AddressRegionKind::Unoccupied,
            permissions: Flags::USER(),
        }]
    );
}

#[test]
fn coalesce_works() {
    let mut am = AddressMap::<Userspace>::new();
    let subrange = VirtualAddress::new(0x1_0000)..VirtualAddress::new(0x5_0000);

    am.allocate(subrange.clone(), MemoryRegion::GuardPage, AddressRegionKind::Unoccupied, Flags::USER()).unwrap();
    am.free(subrange).unwrap();

    assert_eq!(
        am.unoccupied_regions()[0],
        &AddressRegion {
            region: None,
            span: VirtualAddress::userspace_range(),
            kind: AddressRegionKind::Unoccupied,
            permissions: Flags::USER(),
        }
    );
}

#[test]
fn doesnt_grab_existing_region() {
    let mut am = AddressMap::<Userspace>::new();
    let subrange = VirtualAddress::new(0x1_0000)..VirtualAddress::new(0x5_0000);

    am.allocate(subrange.clone(), MemoryRegion::GuardPage, AddressRegionKind::Unoccupied, Flags::USER()).unwrap();
    am.allocate(
        VirtualAddress::new(0x4_0000)..VirtualAddress::new(0x5_0000),
        MemoryRegion::GuardPage,
        AddressRegionKind::Unoccupied,
        Flags::USER(),
    )
    .unwrap_err();
    am.free(subrange).unwrap();

    assert_eq!(
        am.unoccupied_regions()[0],
        &AddressRegion {
            region: None,
            span: VirtualAddress::userspace_range(),
            kind: AddressRegionKind::Unoccupied,
            permissions: Flags::USER(),
        }
    );
}

#[test]
fn allocate_outside_the_space_is_out_of_bounds() {
    let mut am = AddressMap::<Userspace>::new();
    let beyond = VirtualAddress::new(0x40_0000_0000)..VirtualAddress::new(0x40_0000_1000);
    assert_eq!(
        am.allocate(beyond, MemoryRegion::GuardPage, AddressRegionKind::Guard, Flags::USER()),
        Err(AddressMappingError::OutOfBounds)
    );
}

#[test]
fn free_of_a_free_span_is_nonexistent() {
    let mut am = AddressMap::<Userspace>::new();
    let span = VirtualAddress::new(0x1_0000)..VirtualAddress::new(0x2_0000);
    assert!(matches!(am.free(span), Err(AddressMappingError::Nonexistent)));
}

#[test]
fn find_gives_the_region_holding_an_address() {
    let mut am = AddressMap::<Userspace>::new();
    let subrange = VirtualAddress::new(0x1_0000)..VirtualAddress::new(0x5_0000);
    am.allocate(subrange.clone(), MemoryRegion::GuardPage, AddressRegionKind::Stack, Flags::READ()).unwrap();
    let found = am.find(VirtualAddress::new(0x2_0000)).unwrap();
    assert_eq!(found.span, subrange);
    assert!(!found.is_unoccupied());
    let free = am.find(VirtualAddress::new(0x6_0000)).unwrap();
    assert!(free.is_unoccupied());
}

#[test]
fn free_merges_only_its_free_neighbours() {
    let va = VirtualAddress::new;
    let mut am = AddressMap::<Userspace>::new();
    am.allocate(va(0x1000)..va(0x2000), MemoryRegion::GuardPage, AddressRegionKind::Unoccupied, Flags::USER()).unwrap();
    am.allocate(va(0x3000)..va(0x4000), MemoryRegion::GuardPage, AddressRegionKind::Unoccupied, Flags::USER()).unwrap();
    assert!(matches!(am.free(va(0x3000)..va(0x4000)), Ok(MemoryRegion::GuardPage)));
    let taken: Vec<_> = am.occupied_regions().into_iter().map(|r| r.span.clone()).collect();
    assert_eq!(taken, vec![va(0x1000)..va(0x2000)]);
    let free: Vec<_> = am.unoccupied_regions().into_iter().map(|r| r.span.clone()).collect();
    assert_eq!(free, vec![va(0)..va(0x1000), va(0x2000)..VirtualAddress::userspace_range().end]);
    let found = am.find(va(0x2800)).unwrap();
    assert_eq!(found.span, va(0x2000)..VirtualAddress::userspace_range().end);
    am.allocate(va(0x5000)..va(0x6000), MemoryRegion::GuardPage, AddressRegionKind::Unoccupied, Flags::USER()).unwrap();
}

#[test]
fn free_after_allocate_leaves_the_taken_regions_as_before() {
    let mut am = AddressMap::<Userspace>::new();
    let first = VirtualAddress::new(0x1_0000)..VirtualAddress::new(0x2_0000);
    am.allocate(first.clone(), MemoryRegion::GuardPage, AddressRegionKind::Stack, Flags::USER()).unwrap();
    let before: Vec<_> = am.occupied_regions().iter().map(|r| (r.span.clone(), r.kind, r.permissions)).collect();
    let second = VirtualAddress::new(0x4_0000)..VirtualAddress::new(0x6_0000);
    am.allocate(second.clone(), MemoryRegion::GuardPage, AddressRegionKind::Data, Flags::READ()).unwrap();
    assert_eq!(am.occupied_regions().len(), 2);
    assert!(matches!(am.free(second), Ok(MemoryRegion::GuardPage)));
    let after: Vec<_> = am.occupied_regions().iter().map(|r| (r.span.clone(), r.kind, r.permissions)).collect();
    assert_eq!(after, before);
}

#[test]
fn a_fresh_map_is_one_free_region_without_permissions() {
    let am = AddressMap::<Userspace>::new();
    let regions = am.unoccupied_regions();
    assert_eq!(regions.len(), 1);
    assert_eq!(regions[0].permissions, Flags::NONE());
    assert_eq!(regions[0].span, VirtualAddress::userspace_range());
}

#[test]
fn allocate_across_two_regions_is_occupied() {
    let mut am = AddressMap::<Userspace>::new();
    am.allocate(
        VirtualAddress::new(0x1_0000)..VirtualAddress::new(0x2_0000),
        MemoryRegion::GuardPage,
        AddressRegionKind::Stack,
        Flags::USER(),
    )
    .unwrap();
    assert_eq!(
        am.allocate(
            VirtualAddress::new(0x8000)..VirtualAddress::new(0x1_8000),
            MemoryRegion::GuardPage,
            AddressRegionKind::Stack,
            Flags::USER(),
        ),
        Err(AddressMappingError::Occupied)
    );
}
