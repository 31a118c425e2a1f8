use rust_os::arch::x86_64::paging::{higher_half_alias_addr, ActivationPlan};
use rust_os::memory::{
    map_range, AllocationResult, PagingAllocationRecord, reset_host_shadow_page_tables_for_tests, unmap_range, AddressSpace,
    BitmapAllocator, EntryFlags, MappingRequest, MemoryRegion, PagingError, RegionKind,
    TableMemory, VirtualAddressLayout, KERNEL_ALLOC_BASE, KERNEL_DIRECT_MAP_BASE,
};
use rust_os::KERNEL_BOOT_PHYS_BASE;

fn allocator_fixture(memory: &mut TableMemory) -> BitmapAllocator {
    reset_host_shadow_page_tables_for_tests(memory);

    let regions = [
        MemoryRegion::from_aligned_range(0x0000, 0x1000, RegionKind::Reserved),
        MemoryRegion::from_aligned_range(0x1000, 0x200000, RegionKind::Usable),
    ];

    let storage_len = BitmapAllocator::required_storage_bytes_for_managed_pages(512);
    let storage = vec![0u8; storage_len];

    BitmapAllocator::from_regions(&regions, storage).expect("allocator should initialize")
}

#[test]
fn paging_indices_match_x86_64_layout() {
    let addr = 0xffff_8000_1234_5000u64;
    assert_eq!(VirtualAddressLayout::pml4_index(addr), 256);
    assert_eq!(VirtualAddressLayout::pdpt_index(addr), 0);
    assert_eq!(VirtualAddressLayout::pd_index(addr), 145);
    assert_eq!(VirtualAddressLayout::pt_index(addr), 325);
}

#[test]
fn direct_map_translation_round_trips_within_managed_range() {
    let managed_phys_limit = 0x20_0000;
    let virt_addr = VirtualAddressLayout::phys_to_direct_map_virt(0x0014_5000, managed_phys_limit)
        .expect("physical address should fit the direct map");
    assert_eq!(virt_addr, KERNEL_DIRECT_MAP_BASE + 0x0014_5000);
    assert_eq!(
        VirtualAddressLayout::direct_map_virt_to_phys(virt_addr, managed_phys_limit),
        Some(0x0014_5000)
    );
    assert!(VirtualAddressLayout::phys_to_direct_map_virt(managed_phys_limit, managed_phys_limit).is_none());
}

#[test]
fn kernel_template_maps_kernel_direct_map_and_transition_alias() {
    let mut memory = TableMemory::new();
    let mut allocator = allocator_fixture(&mut memory);
    let (mut kernel, template) =
        AddressSpace::create_kernel_template(&mut allocator, &mut memory, KERNEL_BOOT_PHYS_BASE, 4)
            .expect("kernel template should build");

    let higher_half = kernel.translate(&memory, 0xffff_8000_0000_0000).expect("higher-half mapping present");
    assert_eq!(higher_half.phys_addr, KERNEL_BOOT_PHYS_BASE);

    let alias = kernel.translate(&memory, KERNEL_BOOT_PHYS_BASE).expect("transition alias present");
    assert_eq!(alias.phys_addr, KERNEL_BOOT_PHYS_BASE);

    let direct_map = kernel
        .translate(&memory, KERNEL_DIRECT_MAP_BASE + 0x3000)
        .expect("direct-map translation present");
    assert_eq!(direct_map.phys_addr, 0x3000);
    assert_eq!(template.managed_phys_limit, 0x200000);

    unmap_range(&mut kernel, &mut memory, template.transition_alias_start, template.transition_alias_page_count)
        .expect("alias removal should succeed");
    assert!(kernel.translate(&memory, KERNEL_BOOT_PHYS_BASE).is_none());
}

#[test]
fn higher_half_alias_address_uses_transition_alias_offset() {
    let low_addr = KERNEL_BOOT_PHYS_BASE + 0x3456;
    let higher_half = higher_half_alias_addr(low_addr, KERNEL_BOOT_PHYS_BASE).expect("offset should fit");
    assert_eq!(higher_half, 0xffff_8000_0000_3456);
}

#[test]
fn activation_plan_carries_higher_half_stack_and_alias_metadata() {
    let mut memory = TableMemory::new();
    let mut allocator = allocator_fixture(&mut memory);
    let (kernel, template) =
        AddressSpace::create_kernel_template(&mut allocator, &mut memory, KERNEL_BOOT_PHYS_BASE, 2)
            .expect("kernel template should build");

    let plan = ActivationPlan::from_template(
        kernel.root_table_phys_addr,
        0xffff_8000_0000_2000,
        0xffff_8000_0200_8000,
        0x0000_0000_0010_0000,
        &template,
    );

    assert_eq!(plan.root_table_phys_addr, kernel.root_table_phys_addr);
    assert_eq!(plan.higher_half_entry_addr, 0xffff_8000_0000_2000);
    assert_eq!(plan.higher_half_stack_top, 0xffff_8000_0200_8000);
    assert_eq!(plan.runtime_context_addr, 0x0000_0000_0010_0000);
    assert_eq!(plan.transition_alias_start, KERNEL_BOOT_PHYS_BASE);
    assert_eq!(plan.transition_alias_page_count, 2);
}

#[test]
fn kernel_template_leaves_kernel_alloc_window_available() {
    let mut memory = TableMemory::new();
    let mut allocator = allocator_fixture(&mut memory);
    let (mut kernel, _) =
        AddressSpace::create_kernel_template(&mut allocator, &mut memory, KERNEL_BOOT_PHYS_BASE, 4)
            .expect("kernel template should build");

    let allocation = kernel
        .allocate_kernel_virtual(&mut allocator, &mut memory, 32, EntryFlags::writable() | EntryFlags::no_execute())
        .expect("kernel alloc window should remain usable after template setup");

    assert!(allocation.virt_start_addr >= KERNEL_ALLOC_BASE);
}

#[test]
fn map_range_rolls_back_intermediate_allocations_on_conflict() {
    let mut memory = TableMemory::new();
    let mut allocator = allocator_fixture(&mut memory);
    let mut space = AddressSpace::new_kernel(&mut allocator, &mut memory).expect("kernel space");
    let before = allocator.free_page_count();

    map_range(
        &mut space,
        &mut allocator,
        &mut memory,
        MappingRequest {
            start_virt_addr: 0xffff_8000_0000_0000,
            target_phys_start: 0x4000,
            page_count: 2,
            flags: EntryFlags::writable(),
            allow_overwrite: false,
        },
    )
    .expect("initial mapping should work");

    let after_first = allocator.free_page_count();
    let err = map_range(
        &mut space,
        &mut allocator,
        &mut memory,
        MappingRequest {
            start_virt_addr: 0xffff_8000_0000_1000,
            target_phys_start: 0x9000,
            page_count: 2,
            flags: EntryFlags::writable(),
            allow_overwrite: false,
        },
    )
    .expect_err("overlap should fail");
    assert_eq!(err, PagingError::MappingConflict);
    assert_eq!(allocator.free_page_count(), after_first);
    assert!(after_first < before);
}

#[test]
fn kernel_owned_virtual_allocation_consumes_allocator_pages() {
    let mut memory = TableMemory::new();
    let mut allocator = allocator_fixture(&mut memory);
    let mut space = AddressSpace::new_kernel(&mut allocator, &mut memory).expect("kernel space");
    let before = allocator.free_page_count();

    let allocation = space
        .allocate_kernel_virtual(&mut allocator, &mut memory, 3, EntryFlags::writable())
        .expect("allocation should succeed");

    assert_eq!(allocation.page_count, 3);
    assert!(space.translate(&memory, allocation.virt_start_addr).is_some());
    assert!(allocator.free_page_count() < before);
}

#[test]
fn process_address_spaces_share_kernel_mapping_but_keep_private_mappings_isolated() {
    let mut memory = TableMemory::new();
    let mut allocator = allocator_fixture(&mut memory);
    let (kernel, template) =
        AddressSpace::create_kernel_template(&mut allocator, &mut memory, KERNEL_BOOT_PHYS_BASE, 2)
            .expect("kernel template should build");

    let mut process_a =
        AddressSpace::from_kernel_template(&mut allocator, &mut memory, &template).expect("process a");
    let process_b =
        AddressSpace::from_kernel_template(&mut allocator, &mut memory, &template).expect("process b");

    let kernel_page = kernel.translate(&memory, 0xffff_8000_0000_0000).expect("kernel mapping");
    let process_page = process_a.translate(&memory, 0xffff_8000_0000_0000).expect("shared mapping");
    assert_eq!(kernel_page.phys_addr, process_page.phys_addr);
    assert_eq!(
        process_a
            .translate(&memory, KERNEL_DIRECT_MAP_BASE + 0x5000)
            .expect("process inherits direct map")
            .phys_addr,
        0x5000
    );

    map_range(
        &mut process_a,
        &mut allocator,
        &mut memory,
        MappingRequest {
            start_virt_addr: 0x0040_0000,
            target_phys_start: 0x12000,
            page_count: 1,
            flags: EntryFlags::writable() | EntryFlags::user(),
            allow_overwrite: false,
        },
    )
    .expect("private mapping should succeed");

    assert!(process_a.translate(&memory, 0x0040_0000).is_some());
    assert!(process_b.translate(&memory, 0x0040_0000).is_none());
}

#[test]
fn destroy_reclaims_process_private_paging_pages() {
    let mut memory = TableMemory::new();
    let mut allocator = allocator_fixture(&mut memory);
    let (_, template) =
        AddressSpace::create_kernel_template(&mut allocator, &mut memory, KERNEL_BOOT_PHYS_BASE, 2)
            .expect("kernel template should build");
    let mut process =
        AddressSpace::from_kernel_template(&mut allocator, &mut memory, &template).expect("process");
    let before_mapping = allocator.free_page_count();

    map_range(
        &mut process,
        &mut allocator,
        &mut memory,
        MappingRequest {
            start_virt_addr: 0x0080_0000,
            target_phys_start: 0x18000,
            page_count: 4,
            flags: EntryFlags::writable() | EntryFlags::user(),
            allow_overwrite: false,
        },
    )
    .expect("mapping should succeed");
    let after_mapping = allocator.free_page_count();
    assert!(after_mapping < before_mapping);

    process.destroy(&mut allocator).expect("destroy should reclaim");
    assert!(allocator.free_page_count() > after_mapping);
}

#[test]
fn refused_requests_change_nothing() {
    let mut memory = TableMemory::new();
    let mut allocator = allocator_fixture(&mut memory);
    let mut space = AddressSpace::new_kernel(&mut allocator, &mut memory).expect("kernel space");
    let before = allocator.free_page_count();
    let request = MappingRequest {
        start_virt_addr: 0xffff_8000_0000_0000,
        target_phys_start: 0x4000,
        page_count: 0,
        flags: EntryFlags::writable(),
        allow_overwrite: false,
    };
    assert_eq!(map_range(&mut space, &mut allocator, &mut memory, request), Err(PagingError::EmptyRequest));
    let unaligned = MappingRequest { start_virt_addr: 0xffff_8000_0000_0010, page_count: 1, ..request };
    assert_eq!(map_range(&mut space, &mut allocator, &mut memory, unaligned), Err(PagingError::UnalignedAddress));
    let outside = MappingRequest { start_virt_addr: 0x0000_8000_0000_0000 - 0x1000, page_count: 2, ..request };
    assert_eq!(map_range(&mut space, &mut allocator, &mut memory, outside), Err(PagingError::AddressOutOfRange));
    assert_eq!(allocator.free_page_count(), before);
    assert!(space.translate(&memory, 0xffff_8000_0000_0000).is_none());
}

#[test]
fn mapped_pages_translate_to_their_frames_with_offset_and_flags() {
    let mut memory = TableMemory::new();
    let mut allocator = allocator_fixture(&mut memory);
    let mut space = AddressSpace::new_kernel(&mut allocator, &mut memory).expect("kernel space");
    map_range(
        &mut space,
        &mut allocator,
        &mut memory,
        MappingRequest {
            start_virt_addr: 0xffff_8000_0010_0000,
            target_phys_start: 0x7000,
            page_count: 3,
            flags: EntryFlags::writable() | EntryFlags::no_execute(),
            allow_overwrite: false,
        },
    )
    .expect("mapping should succeed");
    let page = space.translate(&memory, 0xffff_8000_0010_2abc).expect("mapped");
    assert_eq!(page.phys_addr, 0x9abc);
    assert_eq!(page.flags.bits(), 0x8000_0000_0000_0003);
    assert!(space.translate(&memory, 0xffff_8000_0010_3000).is_none());
    assert!(space.translate(&memory, 0xffff_8000_000f_f000).is_none());
}

#[test]
fn unmapping_removes_exactly_the_range() {
    let mut memory = TableMemory::new();
    let mut allocator = allocator_fixture(&mut memory);
    let mut space = AddressSpace::new_kernel(&mut allocator, &mut memory).expect("kernel space");
    map_range(
        &mut space,
        &mut allocator,
        &mut memory,
        MappingRequest {
            start_virt_addr: 0xffff_8000_0000_0000,
            target_phys_start: 0x4000,
            page_count: 4,
            flags: EntryFlags::writable(),
            allow_overwrite: false,
        },
    )
    .expect("mapping should succeed");
    unmap_range(&mut space, &mut memory, 0xffff_8000_0000_1000, 2).expect("unmap");
    assert!(space.translate(&memory, 0xffff_8000_0000_0000).is_some());
    assert!(space.translate(&memory, 0xffff_8000_0000_1000).is_none());
    assert!(space.translate(&memory, 0xffff_8000_0000_2000).is_none());
    assert!(space.translate(&memory, 0xffff_8000_0000_3000).is_some());
    assert_eq!(unmap_range(&mut space, &mut memory, 0xffff_8000_0000_0000, 0), Err(PagingError::EmptyRequest));
    assert_eq!(unmap_range(&mut space, &mut memory, 0xffff_8000_0000_0001, 1), Err(PagingError::UnalignedAddress));
}

#[test]
fn overwriting_is_allowed_when_asked() {
    let mut memory = TableMemory::new();
    let mut allocator = allocator_fixture(&mut memory);
    let mut space = AddressSpace::new_kernel(&mut allocator, &mut memory).expect("kernel space");
    let request = MappingRequest {
        start_virt_addr: 0xffff_8000_0000_0000,
        target_phys_start: 0x4000,
        page_count: 1,
        flags: EntryFlags::writable(),
        allow_overwrite: false,
    };
    map_range(&mut space, &mut allocator, &mut memory, request).expect("first");
    let again = MappingRequest { target_phys_start: 0x8000, allow_overwrite: true, ..request };
    map_range(&mut space, &mut allocator, &mut memory, again).expect("overwrite");
    assert_eq!(space.translate(&memory, 0xffff_8000_0000_0000).unwrap().phys_addr, 0x8000);
}

#[test]
fn kernel_window_exhaustion_gives_frames_back() {
    let mut memory = TableMemory::new();
    let mut allocator = allocator_fixture(&mut memory);
    let mut space = AddressSpace::new_kernel(&mut allocator, &mut memory).expect("kernel space");
    space.next_kernel_alloc_virt = rust_os::memory::KERNEL_ALLOC_LIMIT - 0x1000;
    let before = allocator.free_page_count();
    let err = space.allocate_kernel_virtual(&mut allocator, &mut memory, 2, EntryFlags::writable()).unwrap_err();
    assert_eq!(err, PagingError::AddressOutOfRange);
    assert_eq!(allocator.free_page_count(), before);
    assert_eq!(
        space.allocate_kernel_virtual(&mut allocator, &mut memory, 0, EntryFlags::writable()).unwrap_err(),
        PagingError::OutOfMemory
    );
}

#[test]
fn template_carries_only_kernel_half_root_entries() {
    let mut memory = TableMemory::new();
    let mut allocator = allocator_fixture(&mut memory);
    let (kernel, template) =
        AddressSpace::create_kernel_template(&mut allocator, &mut memory, KERNEL_BOOT_PHYS_BASE, 2)
            .expect("kernel template should build");
    assert_eq!(template.root_entries.len(), 2);
    assert_eq!(template.root_entries[0].0, 256);
    assert_eq!(template.root_entries[1].0, 257);
    assert_eq!(template.transition_alias_start, KERNEL_BOOT_PHYS_BASE);
    assert_eq!(kernel.kernel_regions().len(), 3);
    let process = AddressSpace::from_kernel_template(&mut allocator, &mut memory, &template).expect("process");
    assert!(process.translate(&memory, KERNEL_BOOT_PHYS_BASE).is_none());
    assert!(kernel.translate(&memory, KERNEL_BOOT_PHYS_BASE).is_some());
}

#[test]
fn record_rolls_back_unpublished_spans() {
    let mut memory = TableMemory::new();
    let mut allocator = allocator_fixture(&mut memory);
    let before = allocator.free_page_count();
    let mut record = PagingAllocationRecord::new();
    for _ in 0..3 {
        let AllocationResult::Allocated(span) = allocator.allocate_page() else {
            panic!("expected page");
        };
        record.push(span).expect("room");
    }
    assert_eq!(record.spans().len(), 3);
    assert_eq!(allocator.free_page_count(), before - 3);
    record.rollback(&mut allocator).expect("rollback");
    assert_eq!(allocator.free_page_count(), before);

    let AllocationResult::Allocated(span) = allocator.allocate_page() else {
        panic!("expected page");
    };
    let mut kept = PagingAllocationRecord::new();
    kept.push(span).expect("room");
    kept.publish();
    kept.rollback(&mut allocator).expect("published records keep their frames");
    assert_eq!(allocator.free_page_count(), before - 1);
}

#[test]
fn mapping_an_aligned_two_megabyte_run_takes_three_tables() {
    let mut memory = TableMemory::new();
    let mut allocator = allocator_fixture(&mut memory);
    let mut space = AddressSpace::new_kernel(&mut allocator, &mut memory).expect("kernel space");
    let before = allocator.free_page_count();

    map_range(
        &mut space,
        &mut allocator,
        &mut memory,
        MappingRequest {
            start_virt_addr: 0xffff_8000_0020_0000,
            target_phys_start: 0x20_0000,
            page_count: 512,
            flags: EntryFlags::writable(),
            allow_overwrite: false,
        },
    )
    .expect("mapping should succeed");

    assert_eq!(allocator.free_page_count(), before - 3);
}

#[test]
fn crossing_a_two_megabyte_boundary_takes_one_more_table() {
    let mut memory = TableMemory::new();
    let mut allocator = allocator_fixture(&mut memory);
    let mut space = AddressSpace::new_kernel(&mut allocator, &mut memory).expect("kernel space");
    let before = allocator.free_page_count();

    map_range(
        &mut space,
        &mut allocator,
        &mut memory,
        MappingRequest {
            start_virt_addr: 0xffff_8000_001f_f000,
            target_phys_start: 0x10_0000,
            page_count: 2,
            flags: EntryFlags::writable(),
            allow_overwrite: false,
        },
    )
    .expect("mapping should succeed");

    assert_eq!(allocator.free_page_count(), before - 4);
}

#[test]
fn record_rolls_back_runs_of_several_pages() {
    let mut memory = TableMemory::new();
    let mut allocator = allocator_fixture(&mut memory);
    let before = allocator.free_page_count();
    let mut record = PagingAllocationRecord::new();
    let mut taken = Vec::new();
    for count in [3usize, 2, 4] {
        let AllocationResult::Allocated(span) = allocator.allocate_pages(count) else {
            panic!("expected a run of pages");
        };
        record.push(span).expect("room");
        taken.push(span);
    }
    assert_eq!(allocator.free_page_count(), before - 9);
    assert_eq!(record.rollback(&mut allocator), Ok(()));
    assert_eq!(allocator.free_page_count(), before);
    assert_eq!(record.spans().len(), 0);
    for span in taken {
        for page in span.start_page_index..span.start_page_index + span.page_count {
            assert!(allocator.is_page_free(page));
        }
    }
}

#[test]
fn mapping_runs_out_of_frames_only_after_using_the_free_ones() {
    let mut memory = TableMemory::new();
    let mut allocator = allocator_fixture(&mut memory);
    let mut space = AddressSpace::new_kernel(&mut allocator, &mut memory).expect("kernel space");
    while allocator.free_page_count() > 2 {
        let _ = allocator.allocate_page();
    }

    let err = map_range(
        &mut space,
        &mut allocator,
        &mut memory,
        MappingRequest {
            start_virt_addr: 0xffff_8000_0000_0000,
            target_phys_start: 0x4000,
            page_count: 1,
            flags: EntryFlags::writable(),
            allow_overwrite: false,
        },
    )
    .expect_err("three tables are needed and two frames are free");
    assert_eq!(err, PagingError::OutOfMemory);
    assert_eq!(allocator.free_page_count(), 2);
    assert!(space.translate(&memory, 0xffff_8000_0000_0000).is_none());
}
