//! Physical memory: the boot memory map, the page-frame allocator and paging.

pub mod bitmap;
pub mod map;
pub mod paging;

pub use bitmap::{BitmapAllocator, InitError};
pub use map::{
    align_down, align_up, AllocationResult, BootMemoryMapSnapshot, MemoryRegion, PageSpan,
    PhysAddr, RegionKind, MAX_MEMORY_REGIONS, PAGE_SIZE, UEFI_MEMORY_MAP_STORAGE_BYTES,
};
pub use paging::{
    map_range, reset_host_shadow_page_tables_for_tests, unmap_range, AddressSpace,
    AddressSpaceKind, EntryFlags, KernelMappingTemplate, KernelVirtualAllocation, MappedPage,
    MappingRequest, PageTableLevel, PagingAllocationRecord, PagingError, TableMemory,
    VirtualAddressLayout, KERNEL_ALLOC_BASE, KERNEL_ALLOC_LIMIT, KERNEL_DIRECT_MAP_BASE,
    KERNEL_DIRECT_MAP_LIMIT, KERNEL_VIRT_BASE, PAGE_TABLE_ADDR_MASK, PAGE_TABLE_ENTRIES,
};
