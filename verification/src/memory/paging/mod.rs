//! Four-level x86_64 page tables: entry formats, the table memory, the walk,
//! mapping and unmapping, and address spaces.

pub mod address_space;
pub mod mapper;
pub mod table;
pub mod table_memory;
pub mod walk;

pub use address_space::{
    reset_host_shadow_page_tables_for_tests, AddressSpace, AddressSpaceKind,
    KernelMappingTemplate, KernelVirtualAllocation, PagingAllocationRecord,
};
pub use mapper::{map_range, unmap_range, PagingError};
pub use table::{
    EntryFlags, MappedPage, MappingRequest, PageTableLevel, VirtualAddressLayout,
    KERNEL_ALLOC_BASE, KERNEL_ALLOC_LIMIT, KERNEL_BOOT_PHYS_BASE, KERNEL_DIRECT_MAP_BASE,
    KERNEL_DIRECT_MAP_LIMIT, KERNEL_VIRT_BASE, PAGE_TABLE_ADDR_MASK, PAGE_TABLE_ENTRIES,
};
pub use table_memory::TableMemory;
