use rust_os::memory::{
    BootMemoryMapSnapshot, InitError,
    AllocationResult, BitmapAllocator, MemoryRegion, PageSpan, RegionKind, PAGE_SIZE,
};

fn allocator_fixture() -> BitmapAllocator {
    let regions = [
        MemoryRegion::from_aligned_range(0x0000, 0x1000, RegionKind::Reserved),
        MemoryRegion::from_aligned_range(0x1000, 0x9000, RegionKind::Usable),
        MemoryRegion::from_aligned_range(0x9000, 0xb000, RegionKind::Kernel),
        MemoryRegion::from_aligned_range(0xb000, 0xc000, RegionKind::Boot),
    ];

    let storage_len = BitmapAllocator::required_storage_bytes_for_managed_pages(12);
    let storage = vec![0u8; storage_len];

    BitmapAllocator::from_regions(&regions, storage).expect("allocator should initialize")
}

#[test]
fn initialization_marks_reserved_kernel_boot_and_metadata_pages_unavailable() {
    let allocator = allocator_fixture();
    let metadata = allocator.metadata_span();

    assert!(!allocator.is_page_allocatable(0));
    assert!(!allocator.is_page_allocatable(metadata.start_page_index));
    assert!(!allocator.is_page_allocatable(9));
    assert!(!allocator.is_page_allocatable(11));
    assert!(allocator.is_page_allocatable(metadata.start_page_index + metadata.page_count));
}

#[test]
fn initialization_counts_only_free_usable_pages() {
    let allocator = allocator_fixture();

    assert_eq!(allocator.free_page_count(), 7);
    assert_eq!(allocator.managed_page_count(), 12);
}

#[test]
fn allocate_page_returns_first_free_page_after_metadata() {
    let mut allocator = allocator_fixture();

    let AllocationResult::Allocated(span) = allocator.allocate_page() else {
        panic!("expected allocated page");
    };

    assert_eq!(span.start_phys_addr, (2 * PAGE_SIZE) as u64);
    assert_eq!(allocator.free_page_count(), 6);
}

#[test]
fn allocate_multiple_pages_requires_contiguous_run() {
    let mut allocator = allocator_fixture();

    let _ = allocator.allocate_page();
    let AllocationResult::Allocated(span) = allocator.allocate_pages(2) else {
        panic!("expected contiguous allocation");
    };

    assert_eq!(span, PageSpan::new(3, 2).unwrap());
}

#[test]
fn zero_page_request_is_rejected() {
    let mut allocator = allocator_fixture();

    assert_eq!(allocator.allocate_pages(0), AllocationResult::InvalidRequest);
}

#[test]
fn exhausted_allocator_reports_out_of_memory() {
    let mut allocator = allocator_fixture();

    while matches!(allocator.allocate_page(), AllocationResult::Allocated(_)) {}

    assert_eq!(allocator.allocate_page(), AllocationResult::OutOfMemory);
}

#[test]
fn free_releases_allocated_pages_for_reuse() {
    let mut allocator = allocator_fixture();

    let AllocationResult::Allocated(span) = allocator.allocate_pages(2) else {
        panic!("expected allocated span");
    };
    assert_eq!(allocator.free_pages(span), AllocationResult::Released(span));

    let AllocationResult::Allocated(reused) = allocator.allocate_pages(2) else {
        panic!("expected reused span");
    };
    assert_eq!(reused, span);
}

#[test]
fn invalid_free_of_metadata_page_is_rejected_without_state_change() {
    let mut allocator = allocator_fixture();
    let metadata = allocator.metadata_span();
    let free_pages_before = allocator.free_page_count();

    assert_eq!(allocator.free_pages(metadata), AllocationResult::InvalidFree);
    assert_eq!(allocator.free_page_count(), free_pages_before);
}

#[test]
fn invalid_free_of_never_allocated_span_is_rejected() {
    let mut allocator = allocator_fixture();

    assert_eq!(
        allocator.free_pages(PageSpan::new(4, 2).unwrap()),
        AllocationResult::InvalidFree
    );
}

#[test]
fn allocating_then_freeing_restores_the_free_count() {
    let mut allocator = allocator_fixture();
    let before = allocator.free_page_count();

    let AllocationResult::Allocated(span) = allocator.allocate_pages(3) else {
        panic!("expected allocated span");
    };
    assert_eq!(allocator.free_page_count(), before - 3);
    for page in span.start_page_index..span.start_page_index + span.page_count {
        assert!(!allocator.is_page_free(page));
    }
    assert_eq!(allocator.free_pages(span), AllocationResult::Released(span));
    assert_eq!(allocator.free_page_count(), before);
    for page in span.start_page_index..span.start_page_index + span.page_count {
        assert!(allocator.is_page_free(page));
    }
}

#[test]
fn request_larger_than_free_pages_is_out_of_memory() {
    let mut allocator = allocator_fixture();

    assert_eq!(allocator.allocate_pages(8), AllocationResult::OutOfMemory);
    assert_eq!(allocator.free_page_count(), 7);
}

#[test]
fn double_free_is_rejected() {
    let mut allocator = allocator_fixture();

    let AllocationResult::Allocated(span) = allocator.allocate_page() else {
        panic!("expected allocated page");
    };
    assert_eq!(allocator.free_pages(span), AllocationResult::Released(span));
    assert_eq!(allocator.free_pages(span), AllocationResult::InvalidFree);
}

#[test]
fn metadata_sizes_follow_the_bitmaps() {
    assert_eq!(BitmapAllocator::required_storage_bytes_for_managed_pages(12), 4);
    assert_eq!(BitmapAllocator::required_storage_bytes_for_managed_pages(512), 128);
    assert_eq!(BitmapAllocator::metadata_page_count_for_managed_pages(12), 1);
    assert_eq!(BitmapAllocator::metadata_page_count_for_managed_pages(20000), 2);
}

#[test]
fn empty_memory_map_is_rejected() {
    let regions: [MemoryRegion; 0] = [];
    let result = BitmapAllocator::from_regions(&regions, vec![0u8; 16]);
    assert!(matches!(result, Err(rust_os::memory::InitError::EmptyMemoryMap)));
}

#[test]
fn too_small_storage_is_rejected() {
    let regions = [MemoryRegion::from_aligned_range(0x0000, 0x9000, RegionKind::Usable)];
    let result = BitmapAllocator::from_regions(&regions, vec![0u8; 1]);
    assert!(matches!(result, Err(rust_os::memory::InitError::StorageTooSmall)));
}

#[test]
fn allocation_wraps_to_the_first_free_run() {
    let mut allocator = allocator_fixture();
    let mut taken = Vec::new();
    while let AllocationResult::Allocated(span) = allocator.allocate_page() {
        taken.push(span);
    }
    assert_eq!(taken.len(), 7);
    assert_eq!(allocator.free_page_count(), 0);

    let freed = taken[1];
    assert_eq!(allocator.free_pages(freed), AllocationResult::Released(freed));
    let AllocationResult::Allocated(again) = allocator.allocate_page() else {
        panic!("a free page must be found again");
    };
    assert_eq!(again, freed);
}

#[test]
fn allocating_and_freeing_keep_the_layout_and_spare_the_bitmap_pages() {
    let mut allocator = allocator_fixture();
    let managed = allocator.managed_page_count();
    let metadata = allocator.metadata_span();
    let allocatable: Vec<bool> = (0..managed).map(|p| allocator.is_page_allocatable(p)).collect();

    let AllocationResult::Allocated(first) = allocator.allocate_pages(2) else {
        panic!("expected a run");
    };
    let _ = allocator.allocate_page();
    assert_eq!(allocator.free_pages(first), AllocationResult::Released(first));
    let mut handed_out = Vec::new();
    while let AllocationResult::Allocated(span) = allocator.allocate_page() {
        handed_out.push(span);
    }

    assert_eq!(allocator.managed_page_count(), managed);
    assert_eq!(allocator.metadata_span(), metadata);
    for page in 0..managed {
        assert_eq!(allocator.is_page_allocatable(page), allocatable[page]);
    }
    for span in handed_out {
        assert!(!metadata.contains_page(span.start_page_index));
        assert!(allocatable[span.start_page_index]);
    }
}

#[test]
fn boot_snapshot_manages_pages_up_to_the_highest_usable_address() {
    let regions = [
        MemoryRegion::from_aligned_range(0x0000, 0x1000, RegionKind::Reserved),
        MemoryRegion::from_aligned_range(0x1000, 0x9000, RegionKind::Usable),
        MemoryRegion::from_aligned_range(0x9000, 0xb000, RegionKind::Kernel),
    ];
    let snapshot = BootMemoryMapSnapshot {
        regions: &regions,
        descriptor_count: 3,
        descriptor_size: 48,
        page_size: PAGE_SIZE,
        highest_usable_address: 0x8800,
    };
    let storage = vec![0u8; BitmapAllocator::required_storage_bytes_for_managed_pages(9)];
    let allocator = BitmapAllocator::from_boot_snapshot(&snapshot, storage).expect("allocator should initialize");

    assert_eq!(allocator.managed_page_count(), 9);
    assert_eq!(allocator.metadata_span(), PageSpan::new(1, 1).unwrap());
    assert_eq!(allocator.free_page_count(), 7);
    assert!(!allocator.is_page_allocatable(0));
    assert!(!allocator.is_page_allocatable(1));
    assert!(allocator.is_page_allocatable(8));

    let empty = BootMemoryMapSnapshot { highest_usable_address: 0, ..snapshot };
    let storage = vec![0u8; 16];
    assert_eq!(BitmapAllocator::from_boot_snapshot(&empty, storage).err(), Some(InitError::EmptyMemoryMap));
}
