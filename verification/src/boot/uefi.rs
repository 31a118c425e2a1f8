//! UEFI memory descriptors and the boot memory snapshot built from them.

use vstd::prelude::*;

use crate::bytes::{le_u32, le_u64, spec_le_u32, spec_le_u64};
use crate::memory::map::{MemoryRegion, RegionKind, PAGE_SIZE, spec_align_down, spec_align_up};

verus! {

/// A UEFI status code (64 bits wide on x86_64).
pub type EfiStatus = u64;

pub const EFI_SUCCESS: EfiStatus = 0;
pub const EFI_BUFFER_TOO_SMALL: EfiStatus = 0x8000_0000_0000_0005;
pub const EFI_ABORTED: EfiStatus = 0x8000_0000_0000_0015;

pub const EFI_LOADER_CODE: u32 = 1;
pub const EFI_LOADER_DATA: u32 = 2;
pub const EFI_BOOT_SERVICES_CODE: u32 = 3;
pub const EFI_BOOT_SERVICES_DATA: u32 = 4;
pub const EFI_CONVENTIONAL_MEMORY: u32 = 7;

/// Bytes of one memory descriptor as the firmware lays it out.
pub const MEMORY_DESCRIPTOR_BYTES: usize = 40;

/// The header that starts every UEFI table.
#[derive(Clone, Copy, Debug, PartialEq, Eq, Structural)]
pub struct TableHeader {
    pub signature: u64,
    pub revision: u32,
    pub header_size: u32,
    pub crc32: u32,
    pub reserved: u32,
}

/// The text console's current mode.
#[derive(Clone, Copy, Debug, PartialEq, Eq, Structural)]
pub struct SimpleTextOutputMode {
    pub max_mode: i32,
    pub mode: i32,
    pub attribute: i32,
    pub cursor_column: i32,
    pub cursor_row: i32,
    pub cursor_visible: bool,
}

/// The text console protocol, by the addresses of its entry points.
#[derive(Clone, Copy, Debug, PartialEq, Eq, Structural)]
pub struct SimpleTextOutputProtocol {
    pub reset: u64,
    pub output_string: u64,
    pub test_string: u64,
    pub query_mode: u64,
    pub set_mode: u64,
    pub set_attribute: u64,
    pub clear_screen: u64,
    pub set_cursor_position: u64,
    pub enable_cursor: u64,
    pub mode: u64,
}

/// One entry of the firmware memory map.
#[derive(Clone, Copy, Debug, PartialEq, Eq, Structural)]
pub struct MemoryDescriptor {
    pub memory_type: u32,
    pub pad: u32,
    pub physical_start: u64,
    pub virtual_start: u64,
    pub number_of_pages: u64,
    pub attribute: u64,
}

/// A UEFI protocol identifier.
#[derive(Clone, Copy, Debug)]
pub struct Guid {
    pub data1: u32,
    pub data2: u16,
    pub data3: u16,
    pub data4: [u8; 8],
}

/// The descriptor stored at `offset` of a memory map.
pub open spec fn spec_descriptor_at(bytes: Seq<u8>, offset: int) -> MemoryDescriptor {
    MemoryDescriptor {
        memory_type: spec_le_u32(bytes, offset) as u32,
        pad: spec_le_u32(bytes, offset + 4) as u32,
        physical_start: spec_le_u64(bytes, offset + 8) as u64,
        virtual_start: spec_le_u64(bytes, offset + 16) as u64,
        number_of_pages: spec_le_u64(bytes, offset + 24) as u64,
        attribute: spec_le_u64(bytes, offset + 32) as u64,
    }
}

impl MemoryDescriptor {
    /// Reads the descriptor stored at `offset` of a memory map.
    pub fn read(bytes: &[u8], offset: usize) -> (descriptor: Self)
        requires
            offset + MEMORY_DESCRIPTOR_BYTES <= bytes@.len(),
        ensures
            descriptor == spec_descriptor_at(bytes@, offset as int),
    {
        let len = bytes.len();
        assert(offset + MEMORY_DESCRIPTOR_BYTES <= len);
        MemoryDescriptor {
            memory_type: le_u32(bytes, offset),
            pad: le_u32(bytes, offset + 4),
            physical_start: le_u64(bytes, offset + 8),
            virtual_start: le_u64(bytes, offset + 16),
            number_of_pages: le_u64(bytes, offset + 24),
            attribute: le_u64(bytes, offset + 32),
        }
    }
}

/// The kind of region a firmware memory type becomes.
pub open spec fn spec_descriptor_kind(memory_type: u32) -> RegionKind {
    if memory_type == EFI_CONVENTIONAL_MEMORY {
        RegionKind::Usable
    } else if memory_type == EFI_LOADER_CODE || memory_type == EFI_LOADER_DATA {
        RegionKind::Kernel
    } else if memory_type == EFI_BOOT_SERVICES_CODE || memory_type == EFI_BOOT_SERVICES_DATA {
        RegionKind::Boot
    } else {
        RegionKind::Reserved
    }
}

/// Conventional memory is usable, the loader's own memory is the kernel's, boot
/// services memory is boot memory, and everything else is reserved.
pub fn descriptor_kind(memory_type: u32) -> (kind: RegionKind)
    ensures
        kind == spec_descriptor_kind(memory_type),
{
    if memory_type == EFI_CONVENTIONAL_MEMORY {
        RegionKind::Usable
    } else if memory_type == EFI_LOADER_CODE || memory_type == EFI_LOADER_DATA {
        RegionKind::Kernel
    } else if memory_type == EFI_BOOT_SERVICES_CODE || memory_type == EFI_BOOT_SERVICES_DATA {
        RegionKind::Boot
    } else {
        RegionKind::Reserved
    }
}

/// The whole pages a descriptor covers, as a region of its kind, if any.
pub open spec fn spec_descriptor_region(d: MemoryDescriptor) -> Option<MemoryRegion> {
    let byte_len = if d.number_of_pages * 4096 > u64::MAX { u64::MAX } else { (d.number_of_pages * 4096) as u64 };
    MemoryRegion::spec_normalized(d.physical_start, byte_len, spec_descriptor_kind(d.memory_type))
}

/// The regions of the first `n` descriptors, in order, skipping those that cover no
/// whole page.
pub open spec fn spec_snapshot_regions(descriptors: Seq<MemoryDescriptor>, n: int) -> Seq<MemoryRegion>
    decreases n,
{
    if n <= 0 {
        Seq::empty()
    } else {
        match spec_descriptor_region(descriptors[n - 1]) {
            Some(r) => spec_snapshot_regions(descriptors, n - 1).push(r),
            None => spec_snapshot_regions(descriptors, n - 1),
        }
    }
}

/// The end of the highest usable region among the first `n` descriptors (0 if none).
pub open spec fn spec_highest_usable(descriptors: Seq<MemoryDescriptor>, n: int) -> u64
    decreases n,
{
    if n <= 0 {
        0
    } else {
        let below = spec_highest_usable(descriptors, n - 1);
        match spec_descriptor_region(descriptors[n - 1]) {
            Some(r) => if r.kind == RegionKind::Usable && r.start_phys_addr + r.length_bytes > below {
                (r.start_phys_addr + r.length_bytes) as u64
            } else {
                below
            },
            None => below,
        }
    }
}

/// The end of the bytes descriptor `d` covers, capped at the top of memory.
pub open spec fn descriptor_end(d: MemoryDescriptor) -> int {
    if d.physical_start + d.number_of_pages * 4096 > u64::MAX {
        u64::MAX as int
    } else {
        d.physical_start + d.number_of_pages * 4096
    }
}

/// The 4 KiB page at `a` lies wholly within what descriptor `d` covers.
pub open spec fn page_within(d: MemoryDescriptor, a: int) -> bool {
    a % 4096 == 0 && d.physical_start <= a && a + 4096 <= descriptor_end(d)
}

/// Descriptor `d` covers at least one whole 4 KiB page.
#[verifier::opaque]
pub open spec fn covers_whole_page(d: MemoryDescriptor) -> bool {
    exists|a: int| #[trigger] page_within(d, a)
}

/// How many of the first `n` descriptors cover at least one whole page.
pub open spec fn whole_page_descriptors(descriptors: Seq<MemoryDescriptor>, n: int) -> int
    decreases n,
{
    if n <= 0 {
        0
    } else {
        whole_page_descriptors(descriptors, n - 1) + if covers_whole_page(descriptors[n - 1]) { 1int } else { 0int }
    }
}

pub(crate) proof fn lemma_multiples_apart(a: int, b: int)
    requires
        a % 4096 == 0,
        b % 4096 == 0,
        a < b,
    ensures
        a + 4096 <= b,
{
    crate::memory::map::lemma_multiple_difference(a, b, 4096);
    let q = (b - a) / 4096;
    assert(q >= 1) by (nonlinear_arith)
        requires
            b - a == q * 4096,
            b - a > 0,
    ;
}

/// A descriptor gives a region exactly when it covers a whole page; the region is of
/// the descriptor's own kind and is made of whole pages the descriptor covers.
pub proof fn lemma_descriptor_region(d: MemoryDescriptor)
    requires
        spec_align_up(d.physical_start as int, 4096) <= u64::MAX,
    ensures
        spec_descriptor_region(d) is Some <==> covers_whole_page(d),
        spec_descriptor_region(d) matches Some(r) ==> {
            &&& r.kind == spec_descriptor_kind(d.memory_type)
            &&& page_within(d, r.start_phys_addr as int)
            &&& r.start_phys_addr + r.length_bytes <= descriptor_end(d)
            &&& r.length_bytes > 0
        },
{
    let s = d.physical_start as int;
    let e = descriptor_end(d);
    crate::memory::map::lemma_alignment(s, 4096);
    crate::memory::map::lemma_alignment(e, 4096);
    let byte_len = if d.number_of_pages * 4096 > u64::MAX { u64::MAX } else { (d.number_of_pages * 4096) as u64 };
    let raw_end = if d.physical_start + byte_len > u64::MAX { u64::MAX as int } else { d.physical_start + byte_len };
    assert(raw_end == e);
    reveal(covers_whole_page);
    let lo = spec_align_up(s, 4096);
    let hi = spec_align_down(e, 4096);
    if hi > lo {
        lemma_multiples_apart(lo, hi);
        assert(page_within(d, lo));
    }
    if covers_whole_page(d) {
        let a = choose|a: int| #[trigger] page_within(d, a);
        if a < lo {
            lemma_multiples_apart(a, lo);
        }
        if a + 4096 > hi {
            assert((a + 4096) % 4096 == 0);
            lemma_multiples_apart(hi, a + 4096);
        }
    }
}

proof fn lemma_snapshot_len(descriptors: Seq<MemoryDescriptor>, n: int)
    requires
        0 <= n <= descriptors.len(),
        forall|k: int| 0 <= k < descriptors.len() ==> spec_align_up(#[trigger] descriptors[k].physical_start as int, 4096) <= u64::MAX,
    ensures
        spec_snapshot_regions(descriptors, n).len() == whole_page_descriptors(descriptors, n),
    decreases n,
{
    if n > 0 {
        lemma_snapshot_len(descriptors, n - 1);
        lemma_descriptor_region(descriptors[n - 1]);
    }
}

proof fn lemma_snapshot_at(descriptors: Seq<MemoryDescriptor>, n: int, k: int)
    requires
        0 <= k < n <= descriptors.len(),
        covers_whole_page(descriptors[k]),
        forall|j: int| 0 <= j < descriptors.len() ==> spec_align_up(#[trigger] descriptors[j].physical_start as int, 4096) <= u64::MAX,
    ensures
        whole_page_descriptors(descriptors, k) < spec_snapshot_regions(descriptors, n).len(),
        spec_descriptor_region(descriptors[k]) == Some(spec_snapshot_regions(descriptors, n)[whole_page_descriptors(descriptors, k)]),
    decreases n,
{
    lemma_descriptor_region(descriptors[k]);
    lemma_snapshot_len(descriptors, n - 1);
    lemma_descriptor_region(descriptors[n - 1]);
    let prev = spec_snapshot_regions(descriptors, n - 1);
    let cur = spec_snapshot_regions(descriptors, n);
    let idx = whole_page_descriptors(descriptors, k);
    lemma_whole_page_descriptors_grow(descriptors, 0, k);
    if covers_whole_page(descriptors[n - 1]) {
        assert(cur == prev.push(spec_descriptor_region(descriptors[n - 1])->0));
    } else {
        assert(cur == prev);
    }
    if k < n - 1 {
        lemma_snapshot_at(descriptors, n - 1, k);
        assert(idx < prev.len());
        if covers_whole_page(descriptors[n - 1]) {
            assert(prev.push(spec_descriptor_region(descriptors[n - 1])->0)[idx] == prev[idx]);
        }
        assert(cur[idx] == prev[idx]);
    } else {
        assert(idx == prev.len());
    }
}

/// Every descriptor that covers a whole page gives exactly one region of the
/// snapshot, of its own kind and in map order, whatever its kind; no other
/// descriptor gives one.
pub proof fn lemma_snapshot_keeps_every_descriptor(descriptors: Seq<MemoryDescriptor>, n: int)
    requires
        0 <= n <= descriptors.len(),
        forall|k: int| 0 <= k < descriptors.len() ==> spec_align_up(#[trigger] descriptors[k].physical_start as int, 4096) <= u64::MAX,
    ensures
        spec_snapshot_regions(descriptors, n).len() == whole_page_descriptors(descriptors, n),
        forall|k: int|
            0 <= k < n && covers_whole_page(#[trigger] descriptors[k]) ==> {
                let r = spec_snapshot_regions(descriptors, n)[whole_page_descriptors(descriptors, k)];
                &&& spec_descriptor_region(descriptors[k]) == Some(r)
                &&& r.kind == spec_descriptor_kind(descriptors[k].memory_type)
                &&& page_within(descriptors[k], r.start_phys_addr as int)
            },
{
    lemma_snapshot_len(descriptors, n);
    assert forall|k: int|
        0 <= k < n && covers_whole_page(#[trigger] descriptors[k]) implies {
            let r = spec_snapshot_regions(descriptors, n)[whole_page_descriptors(descriptors, k)];
            &&& spec_descriptor_region(descriptors[k]) == Some(r)
            &&& r.kind == spec_descriptor_kind(descriptors[k].memory_type)
            &&& page_within(descriptors[k], r.start_phys_addr as int)
        } by {
        lemma_snapshot_at(descriptors, n, k);
        lemma_descriptor_region(descriptors[k]);
    }
}

proof fn lemma_whole_page_descriptors_grow(descriptors: Seq<MemoryDescriptor>, n: int, m: int)
    requires
        n <= m,
    ensures
        whole_page_descriptors(descriptors, n) <= whole_page_descriptors(descriptors, m),
    decreases m - n,
{
    if n < m {
        lemma_whole_page_descriptors_grow(descriptors, n, m - 1);
    }
}

proof fn lemma_snapshot_regions_grow(descriptors: Seq<MemoryDescriptor>, n: int, m: int)
    requires
        n <= m,
    ensures
        spec_snapshot_regions(descriptors, n).len() <= spec_snapshot_regions(descriptors, m).len(),
    decreases m - n,
{
    if n < m {
        lemma_snapshot_regions_grow(descriptors, n, m - 1);
    }
}

/// The regions of a firmware memory map, as the boot memory snapshot holds them, and
/// the end of the highest usable one; `EFI_ABORTED` when more regions than
/// `capacity` come of it.
pub fn collect_boot_regions(descriptors: &[MemoryDescriptor], capacity: usize) -> (result: Result<(Vec<MemoryRegion>, u64), EfiStatus>)
    requires
        forall|k: int| 0 <= k < descriptors@.len() ==> spec_align_up(#[trigger] descriptors@[k].physical_start as int, 4096) <= u64::MAX,
    ensures
        spec_snapshot_regions(descriptors@, descriptors@.len() as int).len() > capacity ==> result == Err::<(Vec<MemoryRegion>, u64), EfiStatus>(EFI_ABORTED),
        spec_snapshot_regions(descriptors@, descriptors@.len() as int).len() <= capacity ==> (result matches Ok((regions, highest)) && regions@
            == spec_snapshot_regions(descriptors@, descriptors@.len() as int) && highest == spec_highest_usable(descriptors@, descriptors@.len() as int)),
{
    let mut regions: Vec<MemoryRegion> = Vec::new();
    let mut highest: u64 = 0;
    let mut index: usize = 0;
    while index < descriptors.len()
        invariant
            index <= descriptors@.len(),
            forall|k: int| 0 <= k < descriptors@.len() ==> spec_align_up(#[trigger] descriptors@[k].physical_start as int, 4096) <= u64::MAX,
            regions@ == spec_snapshot_regions(descriptors@, index as int),
            regions@.len() <= capacity,
            highest == spec_highest_usable(descriptors@, index as int),
        decreases descriptors@.len() - index,
    {
        let descriptor = descriptors[index];
        let kind = descriptor_kind(descriptor.memory_type);
        let byte_len = match descriptor.number_of_pages.checked_mul(PAGE_SIZE as u64) {
            Some(len) => len,
            None => u64::MAX,
        };
        match MemoryRegion::normalized(descriptor.physical_start, byte_len, kind) {
            Some(region) => {
                if regions.len() >= capacity {
                    proof {
                        lemma_snapshot_regions_grow(descriptors@, index + 1, descriptors@.len() as int);
                    }
                    return Err(EFI_ABORTED);
                }
                if kind == RegionKind::Usable {
                    let end = region.start_phys_addr + region.length_bytes;
                    if end > highest {
                        highest = end;
                    }
                }
                regions.push(region);
            },
            None => {},
        }
        index = index + 1;
    }
    Ok((regions, highest))
}


/// What the firmware's answer to a size probe of the memory map allows: a probe must
/// report a too-small buffer and descriptors at least as large as ours, and the map
/// must fit the storage set aside for it.
pub fn check_memory_map_probe(
    probe_status: EfiStatus,
    descriptor_size: usize,
    required_size: usize,
    storage_len: usize,
) -> (result: Result<(), EfiStatus>)
    ensures
        probe_status != EFI_BUFFER_TOO_SMALL || descriptor_size < MEMORY_DESCRIPTOR_BYTES ==> result == Err::<(), EfiStatus>(
            if probe_status == EFI_SUCCESS { EFI_ABORTED } else { probe_status },
        ),
        probe_status == EFI_BUFFER_TOO_SMALL && descriptor_size >= MEMORY_DESCRIPTOR_BYTES && required_size > storage_len ==> result
            == Err::<(), EfiStatus>(EFI_BUFFER_TOO_SMALL),
        probe_status == EFI_BUFFER_TOO_SMALL && descriptor_size >= MEMORY_DESCRIPTOR_BYTES && required_size <= storage_len ==> result is Ok,
{
    if probe_status != EFI_BUFFER_TOO_SMALL || descriptor_size < MEMORY_DESCRIPTOR_BYTES {
        return Err(if probe_status == EFI_SUCCESS { EFI_ABORTED } else { probe_status });
    }
    if required_size > storage_len {
        return Err(EFI_BUFFER_TOO_SMALL);
    }
    Ok(())
}

/// The descriptors of a memory map of `memory_map_size` bytes laid out every
/// `descriptor_size` bytes in `bytes`.
pub fn read_descriptors(bytes: &[u8], memory_map_size: usize, descriptor_size: usize) -> (descriptors: Vec<MemoryDescriptor>)
    requires
        descriptor_size >= MEMORY_DESCRIPTOR_BYTES,
        memory_map_size <= bytes@.len(),
    ensures
        descriptors@.len() == memory_map_size / descriptor_size,
        forall|k: int| 0 <= k < descriptors@.len() ==> #[trigger] descriptors@[k] == spec_descriptor_at(bytes@, k * descriptor_size),
{
    let count = memory_map_size / descriptor_size;
    let mut descriptors: Vec<MemoryDescriptor> = Vec::new();
    let mut index: usize = 0;
    proof {
        assert(count * descriptor_size <= memory_map_size) by (nonlinear_arith)
            requires
                count == memory_map_size / descriptor_size,
                descriptor_size > 0,
        ;
    }
    while index < count
        invariant
            index <= count,
            count == memory_map_size / descriptor_size,
            count * descriptor_size <= memory_map_size,
            memory_map_size <= bytes@.len(),
            descriptor_size >= MEMORY_DESCRIPTOR_BYTES,
            descriptors@.len() == index,
            forall|k: int| 0 <= k < index ==> #[trigger] descriptors@[k] == spec_descriptor_at(bytes@, k * descriptor_size),
        decreases count - index,
    {
        proof {
            assert(index * descriptor_size + descriptor_size <= count * descriptor_size) by (nonlinear_arith)
                requires
                    index < count,
                    descriptor_size > 0,
            ;
        }
        let offset = index * descriptor_size;
        descriptors.push(MemoryDescriptor::read(bytes, offset));
        index = index + 1;
    }
    descriptors
}

/// The loaded image's physical range from its base and size; `EFI_ABORTED` when it
/// would run past the top of the address space.
pub fn loaded_image_range_of(image_base: u64, image_size: u64) -> (range: Result<(u64, u64), EfiStatus>)
    ensures
        image_base + image_size <= u64::MAX ==> range == Ok::<(u64, u64), EfiStatus>((image_base, (image_base + image_size) as u64)),
        image_base + image_size > u64::MAX ==> range == Err::<(u64, u64), EfiStatus>(EFI_ABORTED),
{
    match image_base.checked_add(image_size) {
        Some(end) => Ok((image_base, end)),
        None => Err(EFI_ABORTED),
    }
}

} // verus!
