//! The hand-off information the loader leaves for the kernel.

use vstd::prelude::*;

use crate::boot::handoff::{BootInfo, KernelImageInfo, PagingInfo, PhysicalRange, MAX_USABLE_RANGES};
use crate::loader::kernel_image::{LoadedKernelImage, LoadedSegment};
use crate::loader::memory::EarlyLayout;
use crate::loader::paging::BuiltPageTables;

verus! {

pub const PAGE_SIZE: u64 = 4096;

/// The hand-off information and the physical address it is to be written at.
#[derive(Clone, Copy, Debug)]
pub struct PreparedHandoff {
    pub physical_address: u64,
    pub boot_info: BootInfo,
}

/// A failure to prepare the hand-off, named by the step that failed.
#[derive(Clone, Copy, Debug)]
pub struct HandoffError {
    pub stage: &'static str,
}

/// `value` rounded up to a page, saturating near the top of the address space.
pub open spec fn spec_page_align_up(value: u64) -> u64 {
    (if value + 4095 > u64::MAX { u64::MAX } else { (value + 4095) as u64 }) & !4095u64
}

fn align_up(value: u64, align: u64) -> (result: u64)
    requires
        align == PAGE_SIZE,
    ensures
        result == spec_page_align_up(value),
{
    let mask = align - 1;
    let bumped = match value.checked_add(mask) {
        Some(v) => v,
        None => u64::MAX,
    };
    bumped & !mask
}

/// The part of the kernel's usable region past the loaded image, from the page
/// after the image's end.
pub open spec fn spec_remaining_kernel_usable(region: PhysicalRange, physical_end: u64) -> PhysicalRange {
    let start = spec_page_align_up(physical_end);
    if region.start >= region.end || start >= region.end {
        PhysicalRange::spec_empty()
    } else {
        PhysicalRange { start, end: region.end }
    }
}

/// `a` is a 4 KiB page boundary.
pub open spec fn is_page_boundary(a: int) -> bool {
    a % 4096 == 0
}

/// The usable memory handed to the kernel never overlaps the kernel image: it starts
/// on the first page boundary at or after the image's end and runs to the end of the
/// kernel's usable region; it is empty only when that region is empty or ends at or
/// before that boundary.
pub proof fn lemma_usable_after_image(region: PhysicalRange, physical_end: u64)
    requires
        physical_end <= 0xffff_ffff_ffff_f000,
    ensures
        ({
            let u = spec_remaining_kernel_usable(region, physical_end);
            &&& u.start < u.end ==> {
                &&& physical_end <= u.start < physical_end + 4096
                &&& u.start % 4096 == 0
                &&& u.end == region.end
            }
            &&& u.start >= u.end ==> region.start >= region.end || forall|a: int|
                #[trigger] is_page_boundary(a) && physical_end <= a ==> a >= region.end
        }),
{
    assert(spec_page_align_up(physical_end) == crate::loader::paging::spec_page_up(physical_end));
    crate::loader::paging::lemma_page_up(physical_end);
    let start = spec_page_align_up(physical_end);
    assert forall|a: int| #[trigger] is_page_boundary(a) && physical_end <= a implies a >= start by {
        if a < start {
            crate::boot::uefi::lemma_multiples_apart(a, start as int);
        }
    }
}

fn remaining_kernel_usable(kernel_usable_region: PhysicalRange, loaded_kernel: &LoadedKernelImage) -> (range: PhysicalRange)
    ensures
        range == spec_remaining_kernel_usable(kernel_usable_region, loaded_kernel.physical_end),
{
    if kernel_usable_region.is_empty() {
        return PhysicalRange::empty();
    }
    let start = align_up(loaded_kernel.physical_end, PAGE_SIZE);
    if start >= kernel_usable_region.end {
        return PhysicalRange::empty();
    }
    PhysicalRange { start, end: kernel_usable_region.end }
}

/// The lowest virtual start and highest virtual end among the first `n` segments
/// that occupy memory.
pub open spec fn spec_virtual_bounds(segs: Seq<LoadedSegment>, n: int) -> (u64, u64)
    decreases n,
{
    if n <= 0 {
        (u64::MAX, 0u64)
    } else {
        let (start, end) = spec_virtual_bounds(segs, n - 1);
        let s = segs[n - 1];
        if s.memory_size == 0 {
            (start, end)
        } else {
            let seg_end = if s.virtual_address + s.memory_size > u64::MAX { u64::MAX } else { (s.virtual_address + s.memory_size) as u64 };
            (
                if s.virtual_address < start { s.virtual_address } else { start },
                if seg_end > end { seg_end } else { end },
            )
        }
    }
}

/// The virtual range the kernel's segments span.
fn kernel_virtual_range(loaded_kernel: &LoadedKernelImage) -> (result: Result<PhysicalRange, HandoffError>)
    requires
        loaded_kernel.segment_count <= loaded_kernel.segments@.len(),
    ensures
        ({
            let (start, end) = spec_virtual_bounds(loaded_kernel.segments@, loaded_kernel.segment_count as int);
            &&& start < end ==> result == Ok::<PhysicalRange, HandoffError>(PhysicalRange { start, end })
            &&& start >= end ==> (result matches Err(e) && e.stage == "kernel_virtual_range")
        }),
{
    let mut start: u64 = u64::MAX;
    let mut end: u64 = 0;
    let mut k: usize = 0;
    while k < loaded_kernel.segment_count
        invariant
            k <= loaded_kernel.segment_count,
            loaded_kernel.segment_count <= loaded_kernel.segments@.len(),
            (start, end) == spec_virtual_bounds(loaded_kernel.segments@, k as int),
        decreases loaded_kernel.segment_count - k,
    {
        let segment = loaded_kernel.segments[k];
        if segment.memory_size != 0 {
            if segment.virtual_address < start {
                start = segment.virtual_address;
            }
            let seg_end = match segment.virtual_address.checked_add(segment.memory_size) {
                Some(v) => v,
                None => u64::MAX,
            };
            if seg_end > end {
                end = seg_end;
            }
        }
        k = k + 1;
    }
    if start >= end {
        return Err(HandoffError { stage: "kernel_virtual_range" });
    }
    Ok(PhysicalRange { start, end })
}

/// Fills in the hand-off information for the kernel: the usable memory left past
/// the kernel image, the image's physical and virtual ranges and entry point, and
/// the paging information; it goes at the start of the layout's hand-off region.
pub fn prepare(
    boot_info: BootInfo,
    layout: EarlyLayout,
    loaded_kernel: &LoadedKernelImage,
    page_tables: BuiltPageTables,
) -> (result: Result<PreparedHandoff, HandoffError>)
    requires
        loaded_kernel.segment_count <= loaded_kernel.segments@.len(),
    ensures
        layout.boot_info_region.start >= layout.boot_info_region.end ==> (result matches Err(e) && e.stage == "boot_info_region"),
        layout.boot_info_region.start < layout.boot_info_region.end && vstd::layout::size_of::<BootInfo>()
            > layout.boot_info_region.spec_size_bytes() ==> (result matches Err(e) && e.stage == "boot_info_size"),
        ({
            let (start, end) = spec_virtual_bounds(loaded_kernel.segments@, loaded_kernel.segment_count as int);
            let usable = spec_remaining_kernel_usable(layout.kernel_usable_region, loaded_kernel.physical_end);
            &&& layout.boot_info_region.start < layout.boot_info_region.end && vstd::layout::size_of::<BootInfo>()
                <= layout.boot_info_region.spec_size_bytes() && start >= end ==> (result matches Err(e) && e.stage == "kernel_virtual_range")
            &&& result matches Ok(prepared) ==> {
                &&& layout.boot_info_region.start < layout.boot_info_region.end
                &&& vstd::layout::size_of::<BootInfo>() <= layout.boot_info_region.spec_size_bytes()
                &&& start < end
                &&& prepared.physical_address == layout.boot_info_region.start
                &&& prepared.boot_info.loader_image == boot_info.loader_image
                &&& prepared.boot_info.memory_map == boot_info.memory_map
                &&& usable.start < usable.end ==> prepared.boot_info.usable_range_count == 1
                    && prepared.boot_info.usable_ranges@[0] == usable
                    && forall|k: int| 1 <= k < MAX_USABLE_RANGES ==> #[trigger] prepared.boot_info.usable_ranges@[k] == boot_info.usable_ranges@[k]
                &&& usable.start >= usable.end ==> prepared.boot_info.usable_range_count == 0
                    && prepared.boot_info.usable_ranges@ == boot_info.usable_ranges@
                &&& prepared.boot_info.kernel_image == (KernelImageInfo {
                    physical_range: PhysicalRange { start: loaded_kernel.physical_start, end: loaded_kernel.physical_end },
                    virtual_range: PhysicalRange { start, end },
                    entry_point: loaded_kernel.entry_point,
                })
                &&& prepared.boot_info.paging == (PagingInfo {
                    pml4_physical_start: page_tables.pml4_physical_start,
                    kernel_stack_physical: page_tables.stack_window,
                    kernel_stack_virtual: page_tables.stack_window,
                })
            }
            &&& layout.boot_info_region.start < layout.boot_info_region.end && vstd::layout::size_of::<BootInfo>()
                <= layout.boot_info_region.spec_size_bytes() && start < end ==> result is Ok
        }),
{
    let mut boot_info = boot_info;
    let physical_address = layout.boot_info_region.start;
    if layout.boot_info_region.is_empty() {
        return Err(HandoffError { stage: "boot_info_region" });
    }
    let boot_info_size = core::mem::size_of::<BootInfo>() as u64;
    if boot_info_size > layout.boot_info_region.size_bytes() {
        return Err(HandoffError { stage: "boot_info_size" });
    }
    boot_info.usable_range_count = 0;
    let post_kernel_usable = remaining_kernel_usable(layout.kernel_usable_region, loaded_kernel);
    if !post_kernel_usable.is_empty() {
        boot_info.usable_ranges[0] = post_kernel_usable;
        boot_info.usable_range_count = 1;
    }
    let virtual_range = match kernel_virtual_range(loaded_kernel) {
        Ok(range) => range,
        Err(e) => {
            return Err(e);
        },
    };
    boot_info.kernel_image = KernelImageInfo {
        physical_range: PhysicalRange { start: loaded_kernel.physical_start, end: loaded_kernel.physical_end },
        virtual_range,
        entry_point: loaded_kernel.entry_point,
    };
    boot_info.paging = PagingInfo {
        pml4_physical_start: page_tables.pml4_physical_start,
        kernel_stack_physical: page_tables.stack_window,
        kernel_stack_virtual: page_tables.stack_window,
    };
    Ok(PreparedHandoff { physical_address, boot_info })
}

} // verus!
