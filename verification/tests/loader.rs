use rust_os::loader::kernel_image::header_size_from_prefix;
use rust_os::boot::uefi::{check_memory_map_probe, read_descriptors, loaded_image_range_of, EFI_ABORTED, EFI_BUFFER_TOO_SMALL};
use rust_os::loader::paging::{build, current_stack_window, page_align_range};
use rust_os::memory::{AddressSpace, AddressSpaceKind, TableMemory};
use rust_os::boot::handoff::{BootInfo, MemoryMapInfo, PhysicalRange};
use rust_os::loader::elf::{required_header_bytes, ElfImage};
use rust_os::loader::handoff::prepare;
use rust_os::loader::kernel_image::{plan_kernel_image, LoadedSegment, MAX_LOAD_SEGMENTS};
use rust_os::loader::memory::EarlyLayout;
use rust_os::loader::paging::BuiltPageTables;

fn put_u16(bytes: &mut [u8], offset: usize, value: u16) {
    bytes[offset..offset + 2].copy_from_slice(&value.to_le_bytes());
}

fn put_u32(bytes: &mut [u8], offset: usize, value: u32) {
    bytes[offset..offset + 4].copy_from_slice(&value.to_le_bytes());
}

fn put_u64(bytes: &mut [u8], offset: usize, value: u64) {
    bytes[offset..offset + 8].copy_from_slice(&value.to_le_bytes());
}

fn elf_with_segments(segments: &[(u32, u64, u64, u64, u64)]) -> Vec<u8> {
    let mut bytes = vec![0u8; 64 + 56 * segments.len()];
    bytes[0..4].copy_from_slice(&[0x7f, b'E', b'L', b'F']);
    bytes[4] = 2;
    bytes[5] = 1;
    put_u16(&mut bytes, 16, 2);
    put_u16(&mut bytes, 18, 0x3e);
    put_u64(&mut bytes, 24, 0xffff_ffff_8000_1000);
    put_u64(&mut bytes, 32, 64);
    put_u16(&mut bytes, 52, 64);
    put_u16(&mut bytes, 54, 56);
    put_u16(&mut bytes, 56, segments.len() as u16);
    for (index, &(typ, offset, vaddr, filesz, memsz)) in segments.iter().enumerate() {
        let ph = 64 + 56 * index;
        put_u32(&mut bytes, ph, typ);
        put_u32(&mut bytes, ph + 4, 5);
        put_u64(&mut bytes, ph + 8, offset);
        put_u64(&mut bytes, ph + 16, vaddr);
        put_u64(&mut bytes, ph + 32, filesz);
        put_u64(&mut bytes, ph + 40, memsz);
        put_u64(&mut bytes, ph + 48, 0x1000);
    }
    bytes
}

#[test]
fn elf_header_checks_name_the_failed_stage() {
    let good = elf_with_segments(&[(1, 0x1000, 0xffff_ffff_8000_0000, 0x100, 0x200)]);
    assert_eq!(required_header_bytes(&good).ok(), Some(64 + 56));
    assert_eq!(required_header_bytes(&good[..10]).err().map(|e| e.stage), Some("ehdr_size"));
    let mut bad = good.clone();
    bad[1] = b'X';
    assert_eq!(required_header_bytes(&bad).err().map(|e| e.stage), Some("magic"));
    let mut bad = good.clone();
    bad[4] = 1;
    assert_eq!(required_header_bytes(&bad).err().map(|e| e.stage), Some("class"));
    let mut bad = good.clone();
    bad[5] = 2;
    assert_eq!(required_header_bytes(&bad).err().map(|e| e.stage), Some("endianness"));
    let mut bad = good.clone();
    put_u16(&mut bad, 16, 1);
    assert_eq!(required_header_bytes(&bad).err().map(|e| e.stage), Some("type"));
    let mut bad = good.clone();
    put_u16(&mut bad, 18, 0x28);
    assert_eq!(required_header_bytes(&bad).err().map(|e| e.stage), Some("machine"));
    let mut bad = good.clone();
    put_u16(&mut bad, 52, 40);
    assert_eq!(required_header_bytes(&bad).err().map(|e| e.stage), Some("ehsize"));
    let mut bad = good.clone();
    put_u16(&mut bad, 54, 32);
    assert_eq!(required_header_bytes(&bad).err().map(|e| e.stage), Some("phentsize"));
    assert_eq!(ElfImage::parse(&good[..100]).err().map(|e| e.stage), Some("ph_table_bounds"));
}

#[test]
fn load_segments_skip_other_program_headers() {
    let bytes = elf_with_segments(&[
        (6, 0, 0, 0, 0),
        (1, 0x1000, 0xffff_ffff_8000_0000, 0x100, 0x200),
        (4, 0, 0, 0, 0),
        (1, 0x2000, 0xffff_ffff_8000_2000, 0x80, 0x80),
    ]);
    let image = ElfImage::parse(&bytes).expect("valid image");
    assert_eq!(image.entry_point().ok(), Some(0xffff_ffff_8000_1000));
    let mut iter = image.load_segments();
    let first = iter.next().expect("first").ok().expect("readable");
    assert_eq!(first.file_offset, 0x1000);
    assert_eq!(first.virtual_address, 0xffff_ffff_8000_0000);
    assert_eq!(first.memory_size, 0x200);
    assert_eq!(first.flags, 5);
    let second = iter.next().expect("second").ok().expect("readable");
    assert_eq!(second.virtual_address, 0xffff_ffff_8000_2000);
    assert!(iter.next().is_none());
}

#[test]
fn kernel_plan_places_segments_by_virtual_offset() {
    let bytes = elf_with_segments(&[
        (1, 0x1000, 0xffff_ffff_8000_0000, 0x100, 0x200),
        (1, 0x2000, 0xffff_ffff_8000_3000, 0x80, 0x1000),
    ]);
    let image = ElfImage::parse(&bytes).expect("valid image");
    let loaded = plan_kernel_image(&image, 0x3000, 0x40_0000, 0x10_0000).ok().expect("plan");
    assert_eq!(loaded.segment_count, 2);
    assert_eq!(loaded.entry_point, 0xffff_ffff_8000_1000);
    assert_eq!(loaded.segments[0].physical_start, 0x40_0000);
    assert_eq!(loaded.segments[0].physical_end, 0x40_0200);
    assert_eq!(loaded.segments[1].physical_start, 0x40_3000);
    assert_eq!(loaded.segments[1].physical_end, 0x40_4000);
    assert_eq!(loaded.physical_end, 0x40_4000);
    assert_eq!(loaded.file_size, 0x3000);
}

#[test]
fn kernel_plan_refusals_name_the_stage() {
    let bytes = elf_with_segments(&[(1, 0x1000, 0xffff_ffff_8000_0000, 0x100, 0x200)]);
    let image = ElfImage::parse(&bytes).expect("valid image");
    assert_eq!(plan_kernel_image(&image, 0x1080, 0x40_0000, 0x10_0000).err().map(|e| e.stage), Some("segment_bounds"));
    assert_eq!(plan_kernel_image(&image, 0x3000, 0x40_0000, 0x100).err().map(|e| e.stage), Some("bounds_check"));
    let shrunk = elf_with_segments(&[(1, 0x1000, 0xffff_ffff_8000_0000, 0x300, 0x200)]);
    let image = ElfImage::parse(&shrunk).expect("valid image");
    assert_eq!(plan_kernel_image(&image, 0x3000, 0x40_0000, 0x10_0000).err().map(|e| e.stage), Some("segment_bounds"));
    let none = elf_with_segments(&[(4, 0, 0, 0, 0)]);
    let image = ElfImage::parse(&none).expect("valid image");
    assert_eq!(plan_kernel_image(&image, 0x3000, 0x40_0000, 0x10_0000).err().map(|e| e.stage), Some("segment_plan"));
    let many: Vec<(u32, u64, u64, u64, u64)> = (0..17).map(|k| (1, 0, 0x1000 * k as u64, 0, 0x1000)).collect();
    let bytes = elf_with_segments(&many);
    let image = ElfImage::parse(&bytes).expect("valid image");
    assert_eq!(plan_kernel_image(&image, 0x3000, 0x40_0000, 0x100_0000).err().map(|e| e.stage), Some("segment_capacity"));
}

fn memory_map_bytes(descriptors: &[(u32, u64, u64)], descriptor_size: usize) -> Vec<u8> {
    let mut bytes = vec![0u8; descriptors.len() * descriptor_size];
    for (index, &(typ, start, pages)) in descriptors.iter().enumerate() {
        let at = index * descriptor_size;
        put_u32(&mut bytes, at, typ);
        put_u64(&mut bytes, at + 8, start);
        put_u64(&mut bytes, at + 24, pages);
    }
    bytes
}

fn boot_info_for(map: &[u8], descriptor_size: usize) -> BootInfo {
    BootInfo::new(
        PhysicalRange { start: 0x1000, end: 0x2000 },
        MemoryMapInfo { map: 0x9000, map_size: map.len(), map_key: 1, descriptor_size, descriptor_version: 1 },
    )
}

#[test]
fn early_layout_carves_tables_and_handoff_from_the_largest_region() {
    let map = memory_map_bytes(&[(7, 0x1000, 0x100), (2, 0x10_0000, 0x100), (7, 0x40_0000, 0xc00)], 48);
    let boot_info = boot_info_for(&map, 48);
    assert_eq!(boot_info.memory_map.descriptor_count(), 3);
    let layout = EarlyLayout::from_boot_info(&boot_info, &map);
    assert_eq!(layout.region, PhysicalRange { start: 0x40_0000, end: 0x100_0000 });
    assert_eq!(layout.page_table_region, PhysicalRange { start: 0xff_0000, end: 0x100_0000 });
    assert_eq!(layout.boot_info_region, PhysicalRange { start: 0xfe_0000, end: 0xff_0000 });
    assert_eq!(layout.kernel_usable_region, PhysicalRange { start: 0x40_0000, end: 0xe0_0000 });
}

#[test]
fn early_layout_is_empty_without_conventional_memory_above_two_mib() {
    let map = memory_map_bytes(&[(7, 0x1000, 0x100)], 40);
    let boot_info = boot_info_for(&map, 40);
    let layout = EarlyLayout::from_boot_info(&boot_info, &map);
    assert!(layout.region.is_empty());
    assert!(layout.page_table_region.is_empty());
    assert!(layout.boot_info_region.is_empty());
    assert!(layout.kernel_usable_region.is_empty());
}

#[test]
fn handoff_reports_kernel_ranges_and_remaining_memory() {
    let map = memory_map_bytes(&[(7, 0x40_0000, 0xc00)], 48);
    let boot_info = boot_info_for(&map, 48);
    let layout = EarlyLayout::from_boot_info(&boot_info, &map);
    let bytes = elf_with_segments(&[
        (1, 0x1000, 0xffff_ffff_8000_0000, 0x100, 0x200),
        (1, 0x2000, 0xffff_ffff_8000_3000, 0x80, 0x1000),
    ]);
    let image = ElfImage::parse(&bytes).expect("valid image");
    let loaded = plan_kernel_image(&image, 0x3000, layout.kernel_usable_region.start, 0x10_0000).ok().expect("plan");
    let tables = BuiltPageTables {
        pml4_physical_start: 0xff_0000,
        pages_used: 4,
        stack_window: PhysicalRange { start: 0x8000, end: 0x1_8000 },
        memory_map_window: PhysicalRange { start: 0x9000, end: 0xa000 },
    };
    let prepared = prepare(boot_info, layout, &loaded, tables).ok().expect("prepared");
    assert_eq!(prepared.physical_address, 0xfe_0000);
    assert_eq!(prepared.boot_info.usable_range_count, 1);
    assert_eq!(prepared.boot_info.usable_ranges[0], PhysicalRange { start: 0x40_4000, end: 0xe0_0000 });
    assert_eq!(prepared.boot_info.kernel_image.virtual_range, PhysicalRange { start: 0xffff_ffff_8000_0000, end: 0xffff_ffff_8000_4000 });
    assert_eq!(prepared.boot_info.kernel_image.physical_range, PhysicalRange { start: 0x40_0000, end: 0x40_4000 });
    assert_eq!(prepared.boot_info.paging.pml4_physical_start, 0xff_0000);

    let mut empty_layout = layout;
    empty_layout.boot_info_region = PhysicalRange::empty();
    assert_eq!(prepare(boot_info, empty_layout, &loaded, tables).err().map(|e| e.stage), Some("boot_info_region"));

    let mut hollow = loaded.clone();
    hollow.segments = vec![LoadedSegment::empty()];
    hollow.segment_count = 1;
    assert_eq!(prepare(boot_info, layout, &hollow, tables).err().map(|e| e.stage), Some("kernel_virtual_range"));
}

#[test]
fn header_size_comes_from_the_program_header_table() {
    let bytes = elf_with_segments(&[(1, 0x1000, 0xffff_ffff_8000_0000, 0x100, 0x200)]);
    assert_eq!(header_size_from_prefix(&bytes[..64]), Ok(120));
    let mut bad = bytes.clone();
    bad[0] = 0;
    assert_eq!(header_size_from_prefix(&bad[..64]), Err(rust_os::boot::uefi::EFI_ABORTED));
}

#[test]
fn memory_map_probe_and_descriptors() {
    assert_eq!(check_memory_map_probe(EFI_BUFFER_TOO_SMALL, 48, 4800, 16384), Ok(()));
    assert_eq!(check_memory_map_probe(0, 48, 4800, 16384), Err(EFI_ABORTED));
    assert_eq!(check_memory_map_probe(EFI_BUFFER_TOO_SMALL, 24, 4800, 16384), Err(EFI_BUFFER_TOO_SMALL));
    assert_eq!(check_memory_map_probe(7, 48, 4800, 16384), Err(7));
    assert_eq!(check_memory_map_probe(EFI_BUFFER_TOO_SMALL, 48, 20000, 16384), Err(EFI_BUFFER_TOO_SMALL));
    let map = memory_map_bytes(&[(7, 0x1000, 3), (3, 0x8000, 1)], 48);
    let descriptors = read_descriptors(&map, map.len(), 48);
    assert_eq!(descriptors.len(), 2);
    assert_eq!(descriptors[0].memory_type, 7);
    assert_eq!(descriptors[0].physical_start, 0x1000);
    assert_eq!(descriptors[1].number_of_pages, 1);
    assert_eq!(loaded_image_range_of(0x1000, 0x2000), Ok((0x1000, 0x3000)));
    assert_eq!(loaded_image_range_of(u64::MAX, 1), Err(EFI_ABORTED));
}

#[test]
fn page_tables_map_the_switch_windows_and_the_kernel() {
    let map = memory_map_bytes(&[(7, 0x40_0000, 0xc00)], 48);
    let boot_info = boot_info_for(&map, 48);
    let layout = EarlyLayout::from_boot_info(&boot_info, &map);
    let bytes = elf_with_segments(&[
        (1, 0x1000, 0xffff_ffff_8000_0000, 0x100, 0x200),
        (1, 0x2000, 0xffff_ffff_8000_3000, 0x80, 0x1000),
    ]);
    let image = ElfImage::parse(&bytes).expect("valid image");
    let loaded = plan_kernel_image(&image, 0x3000, layout.kernel_usable_region.start, 0x10_0000).ok().expect("plan");
    let mut memory = TableMemory::new();
    let tables = build(&boot_info, layout, &loaded, 0x7_ff00, &mut memory).ok().expect("tables");
    assert_eq!(tables.pml4_physical_start, 0xff_0000);
    assert_eq!(tables.stack_window, current_stack_window(0x7_ff00));
    assert_eq!(tables.stack_window, PhysicalRange { start: 0x7_1000, end: 0x8_1000 });
    assert_eq!(tables.memory_map_window, page_align_range(PhysicalRange { start: 0x9000, end: 0x9030 }));
    assert!(tables.pages_used >= 1);
    let written = memory.table_addresses();
    assert_eq!(written.len(), tables.pages_used);
    for table in written {
        assert!(table >= tables.pml4_physical_start);
        assert!(table < tables.pml4_physical_start + (tables.pages_used as u64) * 4096);
        assert_eq!(table % 4096, 0);
    }

    let probe = AddressSpace {
        root_table_phys_addr: tables.pml4_physical_start,
        root_table_virt_addr: tables.pml4_physical_start,
        kind: AddressSpaceKind::Kernel,
        managed_phys_limit: 0,
        owned_table_pages: Vec::new(),
        private_mapping_floor: 0,
        private_mapping_ceiling: 0,
        next_kernel_alloc_virt: 0,
        kernel_regions: Vec::new(),
    };
    let segment = probe.translate(&memory, 0xffff_ffff_8000_0010).expect("kernel segment mapped");
    assert_eq!(segment.phys_addr, 0x40_0010);
    let stack = probe.translate(&memory, 0x7_8000).expect("stack mapped");
    assert_eq!(stack.phys_addr, 0x7_8000);
    assert_eq!(stack.flags.bits() & 3, 3);
    let map_window = probe.translate(&memory, 0x9000).expect("memory map mapped");
    assert_eq!(map_window.flags.bits() & 3, 3);
    assert!(probe.translate(&memory, 0x50_0000).is_none());
}

#[test]
fn planned_segments_are_padded_with_empty_entries() {
    let bytes = elf_with_segments(&[(1, 0x1000, 0xffff_ffff_8000_0000, 0x100, 0x200)]);
    let image = ElfImage::parse(&bytes).expect("valid image");
    let loaded = plan_kernel_image(&image, 0x3000, 0x40_0000, 0x10_0000).ok().expect("plan");
    assert_eq!(loaded.segment_count, 1);
    assert_eq!(loaded.segments.len(), MAX_LOAD_SEGMENTS);
    for segment in &loaded.segments[1..] {
        assert_eq!(*segment, LoadedSegment::empty());
    }
}
