use rust_os::boot::uefi::{collect_boot_regions, descriptor_kind, MemoryDescriptor, EFI_ABORTED};
use rust_os::memory::{
    align_down, align_up, BootMemoryMapSnapshot, MemoryRegion, RegionKind, PAGE_SIZE,
};

#[test]
fn alignment_helpers_match_page_size() {
    assert_eq!(align_up(0x1003, PAGE_SIZE as u64), 0x2000);
    assert_eq!(align_down(0x3fff, PAGE_SIZE as u64), 0x3000);
}

#[test]
fn normalized_region_discards_sub_page_fragments() {
    let region = MemoryRegion::normalized(0x1003, 0x2ffd, RegionKind::Usable).unwrap();

    assert_eq!(region.start_phys_addr, 0x2000);
    assert_eq!(region.page_count, 2);
    assert_eq!(region.length_bytes, (PAGE_SIZE * 2) as u64);
}

#[test]
fn snapshot_reports_managed_page_count_from_highest_usable_address() {
    let regions = [
        MemoryRegion::from_aligned_range(0x1000, 0x4000, RegionKind::Reserved),
        MemoryRegion::from_aligned_range(0x4000, 0x9000, RegionKind::Usable),
    ];
    let snapshot = BootMemoryMapSnapshot {
        regions: &regions,
        descriptor_count: 2,
        descriptor_size: 48,
        page_size: PAGE_SIZE,
        highest_usable_address: 0x9000,
    };

    assert_eq!(snapshot.managed_page_count(), 9);
}

#[test]
fn region_without_a_whole_page_is_dropped() {
    assert!(MemoryRegion::normalized(0x1001, 0x1000, RegionKind::Usable).is_none());
    assert_eq!(align_up(0x2000, 0x1000), 0x2000);
    assert_eq!(align_up(7, 0), 7);
}

fn descriptor(memory_type: u32, physical_start: u64, number_of_pages: u64) -> MemoryDescriptor {
    MemoryDescriptor {
        memory_type,
        pad: 0,
        physical_start,
        virtual_start: 0,
        number_of_pages,
        attribute: 0,
    }
}

#[test]
fn firmware_memory_types_map_to_region_kinds() {
    assert_eq!(descriptor_kind(7), RegionKind::Usable);
    assert_eq!(descriptor_kind(1), RegionKind::Kernel);
    assert_eq!(descriptor_kind(2), RegionKind::Kernel);
    assert_eq!(descriptor_kind(3), RegionKind::Boot);
    assert_eq!(descriptor_kind(4), RegionKind::Boot);
    assert_eq!(descriptor_kind(11), RegionKind::Reserved);
}

#[test]
fn boot_regions_skip_empty_descriptors_and_track_highest_usable_end() {
    let descriptors = [
        descriptor(7, 0x1000, 3),
        descriptor(11, 0x4000, 0),
        descriptor(3, 0x4000, 2),
        descriptor(7, 0x1_0000, 4),
    ];
    let (regions, highest) = collect_boot_regions(&descriptors, 8).expect("fits");
    assert_eq!(regions.len(), 3);
    assert_eq!(regions[0], MemoryRegion::from_aligned_range(0x1000, 0x4000, RegionKind::Usable));
    assert_eq!(regions[1], MemoryRegion::from_aligned_range(0x4000, 0x6000, RegionKind::Boot));
    assert_eq!(regions[2], MemoryRegion::from_aligned_range(0x1_0000, 0x1_4000, RegionKind::Usable));
    assert_eq!(highest, 0x1_4000);
}

#[test]
fn boot_regions_beyond_capacity_abort() {
    let descriptors = [descriptor(7, 0x1000, 1), descriptor(7, 0x3000, 1)];
    assert_eq!(collect_boot_regions(&descriptors, 1).map(|(r, _)| r.len()), Err(EFI_ABORTED));
}
