//! The information the loader hands the kernel.

use vstd::prelude::*;

use crate::boot::uefi::{spec_descriptor_at, MemoryDescriptor, MEMORY_DESCRIPTOR_BYTES};

verus! {

/// How many usable ranges the hand-off carries.
pub const MAX_USABLE_RANGES: usize = 8;

/// A range of physical addresses, `[start, end)`.
#[derive(Clone, Copy, Debug, PartialEq, Eq, Structural)]
pub struct PhysicalRange {
    pub start: u64,
    pub end: u64,
}

impl PhysicalRange {
    pub open spec fn spec_empty() -> PhysicalRange {
        PhysicalRange { start: 0, end: 0 }
    }

    /// The range that holds nothing.
    pub fn empty() -> (range: Self)
        ensures
            range == Self::spec_empty(),
    {
        PhysicalRange { start: 0, end: 0 }
    }

    /// Bytes in the range (zero when the end is not past the start).
    pub open spec fn spec_size_bytes(&self) -> u64 {
        if self.end >= self.start { (self.end - self.start) as u64 } else { 0 }
    }

    pub fn size_bytes(&self) -> (size: u64)
        ensures
            size == self.spec_size_bytes(),
    {
        self.end.saturating_sub(self.start)
    }

    pub fn is_empty(&self) -> (empty: bool)
        ensures
            empty == (self.start >= self.end),
    {
        self.start >= self.end
    }
}

/// Where the kernel image sits, physically and virtually, and where it starts.
#[derive(Clone, Copy, Debug, PartialEq, Eq, Structural)]
pub struct KernelImageInfo {
    pub physical_range: PhysicalRange,
    pub virtual_range: PhysicalRange,
    pub entry_point: u64,
}

impl KernelImageInfo {
    pub open spec fn spec_empty() -> KernelImageInfo {
        KernelImageInfo {
            physical_range: PhysicalRange::spec_empty(),
            virtual_range: PhysicalRange::spec_empty(),
            entry_point: 0,
        }
    }

    pub fn empty() -> (info: Self)
        ensures
            info == Self::spec_empty(),
    {
        KernelImageInfo { physical_range: PhysicalRange::empty(), virtual_range: PhysicalRange::empty(), entry_point: 0 }
    }
}

/// The kernel's root table and stack.
#[derive(Clone, Copy, Debug, PartialEq, Eq, Structural)]
pub struct PagingInfo {
    pub pml4_physical_start: u64,
    pub kernel_stack_physical: PhysicalRange,
    pub kernel_stack_virtual: PhysicalRange,
}

impl PagingInfo {
    pub open spec fn spec_empty() -> PagingInfo {
        PagingInfo {
            pml4_physical_start: 0,
            kernel_stack_physical: PhysicalRange::spec_empty(),
            kernel_stack_virtual: PhysicalRange::spec_empty(),
        }
    }

    pub fn empty() -> (info: Self)
        ensures
            info == Self::spec_empty(),
    {
        PagingInfo {
            pml4_physical_start: 0,
            kernel_stack_physical: PhysicalRange::empty(),
            kernel_stack_virtual: PhysicalRange::empty(),
        }
    }
}

/// The firmware memory map: the address and size of its buffer, and the layout of
/// its descriptors.
#[derive(Clone, Copy, Debug, PartialEq, Eq, Structural)]
pub struct MemoryMapInfo {
    pub map: u64,
    pub map_size: usize,
    pub map_key: usize,
    pub descriptor_size: usize,
    pub descriptor_version: u32,
}

impl MemoryMapInfo {
    /// Whole descriptors in the map.
    pub fn descriptor_count(&self) -> (count: usize)
        requires
            self.descriptor_size > 0,
        ensures
            count == self.map_size / self.descriptor_size,
    {
        self.map_size / self.descriptor_size
    }

    /// Walks the map's descriptors from the first.
    pub fn descriptors(&self) -> (iter: MemoryMapIter)
        requires
            self.descriptor_size > 0,
        ensures
            iter.offset == 0,
            iter.remaining == self.map_size / self.descriptor_size,
            iter.descriptor_size == self.descriptor_size,
    {
        MemoryMapIter { offset: 0, remaining: self.descriptor_count(), descriptor_size: self.descriptor_size }
    }
}

/// A walk over the descriptors of a memory map, by byte offset into its buffer.
#[derive(Clone, Copy, Debug, PartialEq, Eq, Structural)]
pub struct MemoryMapIter {
    pub offset: usize,
    pub remaining: usize,
    pub descriptor_size: usize,
}

impl MemoryMapIter {
    /// The next descriptor of `map`, the map's buffer, if any is left.
    pub fn next(&mut self, map: &[u8]) -> (descriptor: Option<MemoryDescriptor>)
        requires
            old(self).descriptor_size >= MEMORY_DESCRIPTOR_BYTES,
            old(self).offset + old(self).remaining * old(self).descriptor_size <= map@.len(),
        ensures
            old(self).remaining == 0 ==> descriptor is None && *final(self) == *old(self),
            old(self).remaining > 0 ==> {
                &&& descriptor == Some(spec_descriptor_at(map@, old(self).offset as int))
                &&& final(self).offset == old(self).offset + old(self).descriptor_size
                &&& final(self).remaining == old(self).remaining - 1
                &&& final(self).descriptor_size == old(self).descriptor_size
            },
            final(self).offset + final(self).remaining * final(self).descriptor_size <= map@.len(),
    {
        if self.remaining == 0 {
            return None;
        }
        proof {
            assert(self.remaining * self.descriptor_size == (self.remaining - 1) * self.descriptor_size + self.descriptor_size) by (nonlinear_arith);
            assert((self.remaining - 1) * self.descriptor_size >= 0) by (nonlinear_arith)
                requires
                    self.remaining >= 1,
            ;
        }
        let len = map.len();
        let descriptor = MemoryDescriptor::read(map, self.offset);
        self.offset = self.offset + self.descriptor_size;
        self.remaining = self.remaining - 1;
        Some(descriptor)
    }
}

/// Everything the kernel learns from the loader.
#[derive(Clone, Copy, Debug)]
pub struct BootInfo {
    pub loader_image: PhysicalRange,
    pub memory_map: MemoryMapInfo,
    pub usable_range_count: usize,
    pub usable_ranges: [PhysicalRange; 8],
    pub kernel_image: KernelImageInfo,
    pub paging: PagingInfo,
}

impl BootInfo {
    /// Hand-off information with only the loader image and the memory map filled in.
    pub fn new(loader_image: PhysicalRange, memory_map: MemoryMapInfo) -> (info: Self)
        ensures
            info.loader_image == loader_image,
            info.memory_map == memory_map,
            info.usable_range_count == 0,
            forall|k: int| 0 <= k < MAX_USABLE_RANGES ==> #[trigger] info.usable_ranges@[k] == PhysicalRange::spec_empty(),
            info.kernel_image == KernelImageInfo::spec_empty(),
            info.paging == PagingInfo::spec_empty(),
    {
        let e = PhysicalRange::empty();
        BootInfo {
            loader_image,
            memory_map,
            usable_range_count: 0,
            usable_ranges: [e, e, e, e, e, e, e, e],
            kernel_image: KernelImageInfo::empty(),
            paging: PagingInfo::empty(),
        }
    }
}

} // verus!
