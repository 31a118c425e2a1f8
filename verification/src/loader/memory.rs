//! The loader's early physical memory layout: one large region of conventional
//! memory above 2 MiB, carved into page tables, hand-off data and kernel memory.

use vstd::prelude::*;

use crate::boot::handoff::{BootInfo, MemoryMapIter};
use crate::boot::uefi::{spec_descriptor_at, MemoryDescriptor, EFI_CONVENTIONAL_MEMORY, MEMORY_DESCRIPTOR_BYTES};

pub use crate::boot::handoff::PhysicalRange;

verus! {

pub const TWO_MIB: u64 = 0x20_0000;
pub const FOUR_KIB: u64 = 4096;
pub const MIN_EARLY_REGION_START: u64 = 0x20_0000;
pub const DEFAULT_PAGE_TABLE_BYTES: u64 = 0x1_0000;
pub const DEFAULT_BOOT_INFO_BYTES: u64 = 0x1_0000;

/// The alignments the layout uses.
pub open spec fn layout_alignment(align: u64) -> bool {
    align == FOUR_KIB || align == TWO_MIB
}

/// `value` rounded up to `align`, saturating near the top of the address space.
pub open spec fn spec_align_up(value: u64, align: u64) -> u64 {
    (if value + (align - 1) > u64::MAX { u64::MAX } else { (value + (align - 1)) as u64 }) & !((align - 1) as u64)
}

/// `value` rounded down to `align`.
pub open spec fn spec_align_down(value: u64, align: u64) -> u64 {
    value & !((align - 1) as u64)
}

/// Rounding down to a layout alignment drops the remainder.
proof fn lemma_align_down(value: u64, align: u64)
    requires
        layout_alignment(align),
    ensures
        spec_align_down(value, align) == value - value % align,
        spec_align_down(value, align) % align == 0,
{
    if align == FOUR_KIB {
        assert(value & !(4095u64) == value - value % 4096) by (bit_vector);
        assert((value & !(4095u64)) % 4096 == 0) by (bit_vector);
    } else {
        assert(value & !(0x1f_ffffu64) == value - value % 0x20_0000) by (bit_vector);
        assert((value & !(0x1f_ffffu64)) % 0x20_0000 == 0) by (bit_vector);
    }
}

fn align_up(value: u64, align: u64) -> (result: u64)
    requires
        layout_alignment(align),
    ensures
        result == spec_align_up(value, align),
        result % align == 0,
{
    let mask = align - 1;
    let bumped = match value.checked_add(mask) {
        Some(v) => v,
        None => u64::MAX,
    };
    proof {
        lemma_align_down(bumped, align);
    }
    bumped & !mask
}

fn align_down(value: u64, align: u64) -> (result: u64)
    requires
        layout_alignment(align),
    ensures
        result == spec_align_down(value, align),
        result == value - value % align,
        result % align == 0,
{
    proof {
        lemma_align_down(value, align);
    }
    value & !(align - 1)
}

/// The aligned part of a range, or the empty range when nothing aligned is left.
pub open spec fn spec_aligned_region(range: PhysicalRange, align: u64) -> PhysicalRange {
    let start = spec_align_up(range.start, align);
    let end = spec_align_down(range.end, align);
    if start < end { PhysicalRange { start, end } } else { PhysicalRange::spec_empty() }
}

fn aligned_region(range: PhysicalRange, align: u64) -> (aligned: PhysicalRange)
    requires
        layout_alignment(align),
    ensures
        aligned == spec_aligned_region(range, align),
{
    let start = align_up(range.start, align);
    let end = align_down(range.end, align);
    if start < end {
        PhysicalRange { start, end }
    } else {
        PhysicalRange::empty()
    }
}

fn aligned_prefix(range: PhysicalRange, align: u64) -> (aligned: PhysicalRange)
    requires
        layout_alignment(align),
    ensures
        aligned == spec_aligned_region(range, align),
{
    let aligned = aligned_region(range, align);
    if aligned.is_empty() {
        return aligned;
    }
    PhysicalRange { start: aligned.start, end: aligned.end }
}

/// The last `size` bytes of a range, aligned, if they start inside it.
pub open spec fn spec_carve_from_end(range: PhysicalRange, size: u64, align: u64) -> Option<PhysicalRange> {
    if range.start >= range.end {
        None
    } else {
        let end = spec_align_down(range.end, align);
        let start = spec_align_down(if end >= size { (end - size) as u64 } else { 0 }, align);
        if start >= range.start && start < end { Some(PhysicalRange { start, end }) } else { None }
    }
}

fn carve_from_end(range: PhysicalRange, size: u64, align: u64) -> (carved: Option<PhysicalRange>)
    requires
        layout_alignment(align),
    ensures
        carved == spec_carve_from_end(range, size, align),
{
    if range.is_empty() {
        return None;
    }
    let end = align_down(range.end, align);
    let start = align_down(end.saturating_sub(size), align);
    if start >= range.start && start < end {
        Some(PhysicalRange { start, end })
    } else {
        None
    }
}

/// A range without its last `bytes` bytes, or the empty range if no more is left.
pub open spec fn spec_shrink_end(range: PhysicalRange, bytes: u64) -> PhysicalRange {
    if range.spec_size_bytes() <= bytes {
        PhysicalRange::spec_empty()
    } else {
        PhysicalRange { start: range.start, end: (range.end - bytes) as u64 }
    }
}

fn shrink_end(range: PhysicalRange, bytes: u64) -> (shrunk: PhysicalRange)
    ensures
        shrunk == spec_shrink_end(range, bytes),
{
    if range.size_bytes() <= bytes {
        return PhysicalRange::empty();
    }
    PhysicalRange { start: range.start, end: range.end - bytes }
}

/// The 2 MiB-aligned part above 2 MiB of the memory a descriptor covers.
pub open spec fn spec_candidate(d: MemoryDescriptor) -> PhysicalRange {
    let start = if d.physical_start > MIN_EARLY_REGION_START { d.physical_start } else { MIN_EARLY_REGION_START };
    let bytes = if d.number_of_pages * FOUR_KIB > u64::MAX { u64::MAX } else { (d.number_of_pages * FOUR_KIB) as u64 };
    let end = if d.physical_start + bytes > u64::MAX { u64::MAX } else { (d.physical_start + bytes) as u64 };
    spec_aligned_region(PhysicalRange { start, end }, TWO_MIB)
}

/// The largest candidate region among the first `n` descriptors of a map (the
/// earliest of equal sizes), or the empty range.
pub open spec fn spec_best_region(map: Seq<u8>, descriptor_size: int, n: int) -> PhysicalRange
    decreases n,
{
    if n <= 0 {
        PhysicalRange::spec_empty()
    } else {
        let best = spec_best_region(map, descriptor_size, n - 1);
        let d = spec_descriptor_at(map, (n - 1) * descriptor_size);
        if d.memory_type == EFI_CONVENTIONAL_MEMORY && spec_candidate(d).spec_size_bytes() > best.spec_size_bytes() {
            spec_candidate(d)
        } else {
            best
        }
    }
}

/// Descriptor `k` of a map whose descriptors are `descriptor_size` bytes apart.
pub open spec fn map_descriptor(map: Seq<u8>, descriptor_size: int, k: int) -> MemoryDescriptor {
    spec_descriptor_at(map, k * descriptor_size)
}

/// The region an early layout is carved from is the largest 2 MiB-aligned candidate
/// of the map's conventional descriptors: no conventional descriptor among the
/// first `n` offers a larger one, and it is the candidate of one of them, or empty
/// when there is none.
pub proof fn lemma_early_region_is_largest(map: Seq<u8>, descriptor_size: int, n: int)
    ensures
        ({
            let region = spec_layout(spec_best_region(map, descriptor_size, n)).region;
            &&& forall|k: int|
                0 <= k < n && (#[trigger] map_descriptor(map, descriptor_size, k)).memory_type == EFI_CONVENTIONAL_MEMORY
                    ==> spec_candidate(map_descriptor(map, descriptor_size, k)).spec_size_bytes() <= region.spec_size_bytes()
            &&& region == PhysicalRange::spec_empty() || exists|k: int|
                0 <= k < n && (#[trigger] map_descriptor(map, descriptor_size, k)).memory_type == EFI_CONVENTIONAL_MEMORY
                    && region == spec_candidate(map_descriptor(map, descriptor_size, k))
        }),
    decreases n,
{
    if n > 0 {
        lemma_early_region_is_largest(map, descriptor_size, n - 1);
        let best = spec_best_region(map, descriptor_size, n - 1);
        let d = map_descriptor(map, descriptor_size, n - 1);
        assert(d == spec_descriptor_at(map, (n - 1) * descriptor_size));
        if best != PhysicalRange::spec_empty() {
            let k = choose|k: int|
                0 <= k < n - 1 && (#[trigger] map_descriptor(map, descriptor_size, k)).memory_type == EFI_CONVENTIONAL_MEMORY
                    && best == spec_candidate(map_descriptor(map, descriptor_size, k));
            assert(0 <= k < n);
        }
        if d.memory_type == EFI_CONVENTIONAL_MEMORY && spec_candidate(d).spec_size_bytes() > best.spec_size_bytes() {
            assert(0 <= n - 1 < n);
        }
    }
}

/// The memory map holds its descriptors in `map`.
pub open spec fn map_readable(boot_info: BootInfo, map: Seq<u8>) -> bool {
    &&& boot_info.memory_map.descriptor_size >= MEMORY_DESCRIPTOR_BYTES
    &&& boot_info.memory_map.map_size <= map.len()
}

/// The region the early layout is carved from: the largest stretch of conventional
/// memory, 2 MiB-aligned and above 2 MiB.
fn select_early_region(boot_info: &BootInfo, map: &[u8]) -> (best: PhysicalRange)
    requires
        map_readable(*boot_info, map@),
    ensures
        best == spec_best_region(
            map@,
            boot_info.memory_map.descriptor_size as int,
            (boot_info.memory_map.map_size / boot_info.memory_map.descriptor_size) as int,
        ),
        best.start % 0x20_0000 == 0,
        best.end % 0x20_0000 == 0,
{
    let dsize = boot_info.memory_map.descriptor_size;
    let count = boot_info.memory_map.descriptor_count();
    let mut iter: MemoryMapIter = boot_info.memory_map.descriptors();
    let mut best = PhysicalRange::empty();
    let mut k: usize = 0;
    proof {
        assert(count * dsize <= boot_info.memory_map.map_size) by (nonlinear_arith)
            requires
                count == boot_info.memory_map.map_size / dsize,
                dsize > 0,
        ;
    }
    while k < count
        invariant
            k <= count,
            iter.descriptor_size == dsize,
            dsize >= MEMORY_DESCRIPTOR_BYTES,
            iter.offset == k * dsize,
            iter.remaining == count - k,
            iter.offset + iter.remaining * iter.descriptor_size <= map@.len(),
            best == spec_best_region(map@, dsize as int, k as int),
            best.start % 0x20_0000 == 0,
            best.end % 0x20_0000 == 0,
        decreases count - k,
    {
        let descriptor = match iter.next(map) {
            Some(d) => d,
            None => {
                return best;
            },
        };
        proof {
            assert((k + 1) * dsize == k * dsize + dsize) by (nonlinear_arith);
        }
        if descriptor.memory_type == EFI_CONVENTIONAL_MEMORY {
            let start = if descriptor.physical_start > MIN_EARLY_REGION_START {
                descriptor.physical_start
            } else {
                MIN_EARLY_REGION_START
            };
            let bytes = match descriptor.number_of_pages.checked_mul(FOUR_KIB) {
                Some(v) => v,
                None => u64::MAX,
            };
            let end = match descriptor.physical_start.checked_add(bytes) {
                Some(v) => v,
                None => u64::MAX,
            };
            let aligned = aligned_region(PhysicalRange { start, end }, TWO_MIB);
            proof {
                lemma_aligned_region_within(PhysicalRange { start, end }, TWO_MIB);
            }
            if aligned.size_bytes() > best.size_bytes() {
                best = aligned;
            }
        }
        k = k + 1;
    }
    best
}

/// The early layout: the chosen region; its last 64 KiB for page tables; the 64 KiB
/// below them for the hand-off data; and the 2 MiB-aligned rest for the kernel.
#[derive(Clone, Copy, Debug, PartialEq, Eq, Structural)]
pub struct EarlyLayout {
    pub region: PhysicalRange,
    pub kernel_usable_region: PhysicalRange,
    pub boot_info_region: PhysicalRange,
    pub page_table_region: PhysicalRange,
}

/// The layout carved from `region`.
pub open spec fn spec_layout(region: PhysicalRange) -> EarlyLayout {
    let page_table_region = match spec_carve_from_end(region, DEFAULT_PAGE_TABLE_BYTES, FOUR_KIB) {
        Some(r) => r,
        None => PhysicalRange::spec_empty(),
    };
    let boot_info_source = spec_shrink_end(region, page_table_region.spec_size_bytes());
    let boot_info_region = match spec_carve_from_end(boot_info_source, DEFAULT_BOOT_INFO_BYTES, FOUR_KIB) {
        Some(r) => r,
        None => PhysicalRange::spec_empty(),
    };
    let reserved = page_table_region.spec_size_bytes() + boot_info_region.spec_size_bytes();
    let kernel_source = spec_shrink_end(region, if reserved > u64::MAX { u64::MAX } else { reserved as u64 });
    EarlyLayout {
        region,
        kernel_usable_region: spec_aligned_region(kernel_source, TWO_MIB),
        boot_info_region,
        page_table_region,
    }
}

impl EarlyLayout {
    /// The layout for the memory map `boot_info` describes, whose descriptors are the
    /// bytes `map`.
    #[verifier::rlimit(40)]
    pub fn from_boot_info(boot_info: &BootInfo, map: &[u8]) -> (layout: Self)
        requires
            map_readable(*boot_info, map@),
        ensures
            layout == spec_layout(
                spec_best_region(
                    map@,
                    boot_info.memory_map.descriptor_size as int,
                    (boot_info.memory_map.map_size / boot_info.memory_map.descriptor_size) as int,
                ),
            ),
            layout_nested(layout),
    {
        let region = select_early_region(boot_info, map);
        let page_table_region = match carve_from_end(region, DEFAULT_PAGE_TABLE_BYTES, FOUR_KIB) {
            Some(r) => r,
            None => PhysicalRange::empty(),
        };
        let boot_info_source = shrink_end(region, page_table_region.size_bytes());
        let boot_info_region = match carve_from_end(boot_info_source, DEFAULT_BOOT_INFO_BYTES, FOUR_KIB) {
            Some(r) => r,
            None => PhysicalRange::empty(),
        };
        let reserved = page_table_region.size_bytes().saturating_add(boot_info_region.size_bytes());
        let kernel_source = shrink_end(region, reserved);
        let kernel_usable_region = aligned_prefix(kernel_source, TWO_MIB);
        let layout = EarlyLayout { region, kernel_usable_region, boot_info_region, page_table_region };
        assert(layout == spec_layout(region));
        proof {
            lemma_layout_nested(region);
        }
        layout
    }
}


/// `inner` is empty or lies within `[lo, hi)`.
pub open spec fn within(inner: PhysicalRange, lo: u64, hi: u64) -> bool {
    inner.start < inner.end ==> lo <= inner.start && inner.end <= hi
}

/// The pieces of a layout lie inside its region, in order from the bottom: the
/// kernel's memory, then the hand-off region, then the page-table region, none
/// overlapping another; the page-table and hand-off regions are page-aligned and
/// the kernel's memory is 2 MiB-aligned.
pub open spec fn layout_nested(l: EarlyLayout) -> bool {
    &&& within(l.page_table_region, l.region.start, l.region.end)
    &&& within(l.boot_info_region, l.region.start, if l.page_table_region.start < l.page_table_region.end {
        l.page_table_region.start
    } else {
        l.region.end
    })
    &&& within(l.kernel_usable_region, l.region.start, if l.boot_info_region.start < l.boot_info_region.end {
        l.boot_info_region.start
    } else if l.page_table_region.start < l.page_table_region.end {
        l.page_table_region.start
    } else {
        l.region.end
    })
    &&& l.page_table_region.start < l.page_table_region.end ==> l.page_table_region.start % 4096 == 0 && l.page_table_region.end % 4096 == 0
    &&& l.boot_info_region.start < l.boot_info_region.end ==> l.boot_info_region.start % 4096 == 0 && l.boot_info_region.end % 4096 == 0
    &&& l.kernel_usable_region.start < l.kernel_usable_region.end ==> l.kernel_usable_region.start % 0x20_0000 == 0
        && l.kernel_usable_region.end % 0x20_0000 == 0
}

proof fn lemma_aligned_region_within(range: PhysicalRange, align: u64)
    requires
        layout_alignment(align),
    ensures
        within(spec_aligned_region(range, align), range.start, range.end),
        spec_aligned_region(range, align).start < spec_aligned_region(range, align).end ==> spec_aligned_region(range, align).start
            % align == 0 && spec_aligned_region(range, align).end % align == 0,
{
    let up_in = if range.start + (align - 1) > u64::MAX { u64::MAX } else { (range.start + (align - 1)) as u64 };
    lemma_align_down(up_in, align);
    lemma_align_down(range.end, align);
}

proof fn lemma_carve_within(range: PhysicalRange, size: u64)
    ensures
        spec_carve_from_end(range, size, FOUR_KIB) matches Some(r) ==> r.start < r.end && within(r, range.start, range.end)
            && r.start % 4096 == 0 && r.end % 4096 == 0 && (range.end % 4096 == 0 ==> r.end == range.end),
{
    lemma_align_down(range.end, FOUR_KIB);
    let end = spec_align_down(range.end, FOUR_KIB);
    lemma_align_down(if end >= size { (end - size) as u64 } else { 0 }, FOUR_KIB);
}

/// A layout carved from a page-aligned region is nested.
pub proof fn lemma_layout_nested(region: PhysicalRange)
    requires
        region.start % 4096 == 0,
        region.end % 4096 == 0,
    ensures
        layout_nested(spec_layout(region)),
{
    let l = spec_layout(region);
    lemma_carve_within(region, DEFAULT_PAGE_TABLE_BYTES);
    let pt = l.page_table_region;
    let bi_source = spec_shrink_end(region, pt.spec_size_bytes());
    lemma_carve_within(bi_source, DEFAULT_BOOT_INFO_BYTES);
    let bi = l.boot_info_region;
    let reserved = pt.spec_size_bytes() + bi.spec_size_bytes();
    let kernel_source = spec_shrink_end(region, if reserved > u64::MAX { u64::MAX } else { reserved as u64 });
    lemma_aligned_region_within(kernel_source, TWO_MIB);
    if pt.start < pt.end {
        assert(pt.end == region.end);
    }
    if bi.start < bi.end {
        assert(bi_source.start < bi_source.end);
        assert(bi_source.end % 4096 == 0);
        assert(bi.end == bi_source.end);
    }
}

} // verus!
