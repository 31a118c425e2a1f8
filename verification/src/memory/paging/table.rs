//! Page-table entry formats and the layout of the virtual address space.

use vstd::prelude::*;

use crate::memory::map::{PhysAddr, PAGE_SIZE};

verus! {

pub const PAGE_TABLE_ENTRIES: usize = 512;
pub const PAGE_TABLE_ADDR_MASK: u64 = 0x000f_ffff_ffff_f000;
pub const KERNEL_VIRT_BASE: u64 = 0xffff_8000_0000_0000;
pub const KERNEL_DIRECT_MAP_BASE: u64 = 0xffff_8080_0000_0000;
pub const KERNEL_DIRECT_MAP_LIMIT: u64 = 0xffff_8100_0000_0000;
pub const KERNEL_ALLOC_BASE: u64 = 0xffff_8000_0200_0000;
pub const KERNEL_ALLOC_LIMIT: u64 = 0xffff_8000_4000_0000;
pub const PROCESS_PRIVATE_LIMIT: u64 = 0x0000_8000_0000_0000;
/// Physical address at which the loader places the kernel image; the loader's
/// transition alias maps it one-to-one.
pub const KERNEL_BOOT_PHYS_BASE: u64 = 0x0020_0000;
/// Root-table slot used by the one-to-one transition alias of the kernel image.
pub const KERNEL_BOOTSTRAP_ALIAS_PML4_INDEX: usize = 0;

#[derive(Clone, Copy, Debug, PartialEq, Eq, Structural)]
pub enum PageTableLevel {
    Pml4,
    Pdpt,
    Pd,
    Pt,
}

impl PageTableLevel {
    /// The level one step closer to the leaves.
    pub open spec fn spec_child(self) -> Option<PageTableLevel> {
        match self {
            PageTableLevel::Pml4 => Some(PageTableLevel::Pdpt),
            PageTableLevel::Pdpt => Some(PageTableLevel::Pd),
            PageTableLevel::Pd => Some(PageTableLevel::Pt),
            PageTableLevel::Pt => None,
        }
    }

    pub fn child(self) -> (level: Option<Self>)
        ensures
            level == self.spec_child(),
    {
        match self {
            PageTableLevel::Pml4 => Some(PageTableLevel::Pdpt),
            PageTableLevel::Pdpt => Some(PageTableLevel::Pd),
            PageTableLevel::Pd => Some(PageTableLevel::Pt),
            PageTableLevel::Pt => None,
        }
    }
}

/// The flag bits of a page-table entry.
#[derive(Clone, Copy, Debug, PartialEq, Eq, Structural)]
pub struct EntryFlags(u64);

impl EntryFlags {
    /// The entry refers to a table or page.
    pub fn present() -> (flags: Self)
        ensures
            flags.spec_bits() == 1,
    {
        EntryFlags(1)
    }

    /// Writes are allowed.
    pub fn writable() -> (flags: Self)
        ensures
            flags.spec_bits() == 2,
    {
        EntryFlags(2)
    }

    /// User-mode accesses are allowed.
    pub fn user() -> (flags: Self)
        ensures
            flags.spec_bits() == 4,
    {
        EntryFlags(4)
    }

    /// Write-through caching.
    pub fn write_through() -> (flags: Self)
        ensures
            flags.spec_bits() == 8,
    {
        EntryFlags(8)
    }

    /// Caching disabled.
    pub fn no_cache() -> (flags: Self)
        ensures
            flags.spec_bits() == 16,
    {
        EntryFlags(16)
    }

    /// Kept in the TLB across address-space switches.
    pub fn global() -> (flags: Self)
        ensures
            flags.spec_bits() == 256,
    {
        EntryFlags(256)
    }

    /// Instruction fetches are not allowed.
    pub fn no_execute() -> (flags: Self)
        ensures
            flags.spec_bits() == 0x8000_0000_0000_0000,
    {
        EntryFlags(0x8000_0000_0000_0000)
    }


    pub closed spec fn spec_bits(self) -> u64 {
        self.0
    }

    pub fn empty() -> (flags: Self)
        ensures
            flags.spec_bits() == 0,
    {
        EntryFlags(0)
    }

    pub fn bits(self) -> (bits: u64)
        ensures
            bits == self.spec_bits(),
    {
        self.0
    }

    /// The flags with exactly these bits.
    pub closed spec fn spec_from_bits(bits: u64) -> EntryFlags {
        EntryFlags(bits)
    }

    pub proof fn lemma_from_bits(bits: u64)
        ensures
            Self::spec_from_bits(bits).spec_bits() == bits,
    {
    }

    /// Flags are their bits.
    pub proof fn lemma_bits_determine(a: EntryFlags, b: EntryFlags)
        requires
            a.spec_bits() == b.spec_bits(),
        ensures
            a == b,
    {
    }

    pub fn from_bits(bits: u64) -> (flags: Self)
        ensures
            flags.spec_bits() == bits,
            flags == Self::spec_from_bits(bits),
    {
        EntryFlags(bits)
    }

    pub fn contains(self, other: Self) -> (contained: bool)
        ensures
            contained == (self.spec_bits() & other.spec_bits() == other.spec_bits()),
    {
        (self.0 & other.0) == other.0
    }

    /// Adds the bits of `rhs` to these flags.
    pub fn bitor_assign(&mut self, rhs: Self)
        ensures
            final(self).spec_bits() == old(self).spec_bits() | rhs.spec_bits(),
    {
        self.0 = self.0 | rhs.0;
    }
}

impl core::ops::BitOr for EntryFlags {
    type Output = Self;

    fn bitor(self, rhs: Self) -> (flags: Self)
        ensures
            flags.spec_bits() == self.spec_bits() | rhs.spec_bits(),
    {
        EntryFlags(self.0 | rhs.0)
    }
}

impl vstd::std_specs::ops::BitOrSpecImpl for EntryFlags {
    open spec fn obeys_bitor_spec() -> bool {
        true
    }

    open spec fn bitor_req(self, rhs: EntryFlags) -> bool {
        true
    }

    closed spec fn bitor_spec(self, rhs: EntryFlags) -> EntryFlags {
        EntryFlags(self.0 | rhs.0)
    }
}

/// A request to map `page_count` consecutive pages.
#[derive(Clone, Copy, Debug, PartialEq, Eq, Structural)]
pub struct MappingRequest {
    pub start_virt_addr: u64,
    pub target_phys_start: PhysAddr,
    pub page_count: usize,
    pub flags: EntryFlags,
    pub allow_overwrite: bool,
}

impl MappingRequest {
    pub fn end_virt_addr_exclusive(&self) -> (end: u64)
        requires
            self.start_virt_addr + self.page_count * 4096 <= u64::MAX,
            self.page_count * 4096 <= usize::MAX,
        ensures
            end == self.start_virt_addr + self.page_count * 4096,
    {
        self.start_virt_addr + (self.page_count * PAGE_SIZE) as u64
    }
}

/// A resolved translation of one virtual address.
#[derive(Clone, Copy, Debug, PartialEq, Eq, Structural)]
pub struct MappedPage {
    pub virt_addr: u64,
    pub phys_addr: PhysAddr,
    pub flags: EntryFlags,
}

pub open spec fn spec_table_index(addr: u64, shift: u64) -> usize {
    ((addr >> shift) & 0x1ff) as usize
}

pub open spec fn spec_pml4_index(addr: u64) -> usize {
    spec_table_index(addr, 39)
}

pub open spec fn spec_pdpt_index(addr: u64) -> usize {
    spec_table_index(addr, 30)
}

pub open spec fn spec_pd_index(addr: u64) -> usize {
    spec_table_index(addr, 21)
}

pub open spec fn spec_pt_index(addr: u64) -> usize {
    spec_table_index(addr, 12)
}

pub open spec fn spec_page_offset(addr: u64) -> u64 {
    addr & 0xfff
}

/// The four table indexes of `addr`, from the root down.
pub open spec fn spec_indexes(addr: u64) -> Seq<usize> {
    seq![spec_pml4_index(addr), spec_pdpt_index(addr), spec_pd_index(addr), spec_pt_index(addr)]
}

pub open spec fn spec_is_direct_map_address(addr: u64) -> bool {
    KERNEL_DIRECT_MAP_BASE <= addr < KERNEL_DIRECT_MAP_LIMIT
}

/// Where a physical address shows up in the kernel's direct map, if it does.
pub open spec fn spec_phys_to_direct_map_virt(phys_addr: u64, managed_phys_limit: u64) -> Option<u64> {
    if phys_addr >= managed_phys_limit {
        None
    } else if KERNEL_DIRECT_MAP_BASE + phys_addr < KERNEL_DIRECT_MAP_LIMIT {
        Some((KERNEL_DIRECT_MAP_BASE + phys_addr) as u64)
    } else {
        None
    }
}

/// Which physical address a direct-map address stands for, if any.
pub open spec fn spec_direct_map_virt_to_phys(virt_addr: u64, managed_phys_limit: u64) -> Option<u64> {
    if !spec_is_direct_map_address(virt_addr) {
        None
    } else if virt_addr - KERNEL_DIRECT_MAP_BASE < managed_phys_limit {
        Some((virt_addr - KERNEL_DIRECT_MAP_BASE) as u64)
    } else {
        None
    }
}

/// The fixed layout of the x86_64 four-level virtual address space.
pub struct VirtualAddressLayout;

impl VirtualAddressLayout {
    pub fn direct_map_window_size_bytes() -> (size: u64)
        ensures
            size == KERNEL_DIRECT_MAP_LIMIT - KERNEL_DIRECT_MAP_BASE,
    {
        KERNEL_DIRECT_MAP_LIMIT - KERNEL_DIRECT_MAP_BASE
    }

    pub fn pml4_index(addr: u64) -> (index: usize)
        ensures
            index == spec_pml4_index(addr),
            index < 512,
    {
        assert(((addr >> 39u64) & 0x1ffu64) < 512) by (bit_vector);
        ((addr >> 39u64) & 0x1ffu64) as usize
    }

    pub fn pdpt_index(addr: u64) -> (index: usize)
        ensures
            index == spec_pdpt_index(addr),
            index < 512,
    {
        assert(((addr >> 30u64) & 0x1ffu64) < 512) by (bit_vector);
        ((addr >> 30u64) & 0x1ffu64) as usize
    }

    pub fn pd_index(addr: u64) -> (index: usize)
        ensures
            index == spec_pd_index(addr),
            index < 512,
    {
        assert(((addr >> 21u64) & 0x1ffu64) < 512) by (bit_vector);
        ((addr >> 21u64) & 0x1ffu64) as usize
    }

    pub fn pt_index(addr: u64) -> (index: usize)
        ensures
            index == spec_pt_index(addr),
            index < 512,
    {
        assert(((addr >> 12u64) & 0x1ffu64) < 512) by (bit_vector);
        ((addr >> 12u64) & 0x1ffu64) as usize
    }

    pub fn page_offset(addr: u64) -> (offset: usize)
        ensures
            offset == spec_page_offset(addr),
            offset < 4096,
    {
        assert((addr & 0xfffu64) < 4096) by (bit_vector);
        assert((addr as usize) & 0xfffusize == (addr & 0xfffu64) as usize) by (bit_vector);
        (addr as usize) & (PAGE_SIZE - 1)
    }

    /// The four table indexes of `addr`; together with the page offset they give
    /// back the low 48 bits of the address.
    pub fn indexes(addr: u64) -> (indexes: [usize; 4])
        ensures
            indexes@ == spec_indexes(addr),
            addr & 0xffff_ffff_ffff == ((indexes@[0] as u64) << 39u64) | ((indexes@[1] as u64) << 30u64)
                | ((indexes@[2] as u64) << 21u64) | ((indexes@[3] as u64) << 12u64) | spec_page_offset(addr),
    {
        let i0 = Self::pml4_index(addr);
        let i1 = Self::pdpt_index(addr);
        let i2 = Self::pd_index(addr);
        let i3 = Self::pt_index(addr);
        let a0 = (addr >> 39u64) & 0x1ffu64;
        let a1 = (addr >> 30u64) & 0x1ffu64;
        let a2 = (addr >> 21u64) & 0x1ffu64;
        let a3 = (addr >> 12u64) & 0x1ffu64;
        assert(a0 < 512 && a1 < 512 && a2 < 512 && a3 < 512) by (bit_vector)
            requires
                a0 == (addr >> 39u64) & 0x1ffu64,
                a1 == (addr >> 30u64) & 0x1ffu64,
                a2 == (addr >> 21u64) & 0x1ffu64,
                a3 == (addr >> 12u64) & 0x1ffu64,
        ;
        assert(i0 as u64 == a0 && i1 as u64 == a1 && i2 as u64 == a2 && i3 as u64 == a3);
        assert(addr & 0xffff_ffff_ffffu64 == (a0 << 39u64) | (a1 << 30u64) | (a2 << 21u64) | (a3
            << 12u64) | (addr & 0xfffu64)) by (bit_vector)
            requires
                a0 == (addr >> 39u64) & 0x1ffu64,
                a1 == (addr >> 30u64) & 0x1ffu64,
                a2 == (addr >> 21u64) & 0x1ffu64,
                a3 == (addr >> 12u64) & 0x1ffu64,
        ;
        let indexes = [i0, i1, i2, i3];
        assert(indexes@[0] == i0 && indexes@[1] == i1 && indexes@[2] == i2 && indexes@[3] == i3);
        indexes
    }

    pub fn is_page_aligned(addr: u64) -> (aligned: bool)
        ensures
            aligned == (spec_page_offset(addr) == 0),
            aligned == (addr % 4096 == 0),
    {
        assert((addr & 0xfffu64 == 0) == (addr % 4096 == 0)) by (bit_vector);
        Self::page_offset(addr) == 0
    }

    pub fn is_kernel_address(addr: u64) -> (kernel: bool)
        ensures
            kernel == (addr >= KERNEL_VIRT_BASE),
    {
        addr >= KERNEL_VIRT_BASE
    }

    pub fn is_direct_map_address(addr: u64) -> (direct: bool)
        ensures
            direct == spec_is_direct_map_address(addr),
    {
        addr >= KERNEL_DIRECT_MAP_BASE && addr < KERNEL_DIRECT_MAP_LIMIT
    }

    pub fn is_process_private_address(addr: u64) -> (private: bool)
        ensures
            private == (addr < PROCESS_PRIVATE_LIMIT),
    {
        addr < PROCESS_PRIVATE_LIMIT
    }

    pub fn phys_to_direct_map_virt(phys_addr: PhysAddr, managed_phys_limit: PhysAddr) -> (virt:
        Option<u64>)
        requires
            phys_addr < managed_phys_limit ==> KERNEL_DIRECT_MAP_BASE + phys_addr <= u64::MAX,
        ensures
            virt == spec_phys_to_direct_map_virt(phys_addr, managed_phys_limit),
    {
        if phys_addr >= managed_phys_limit {
            return None;
        }
        let virt_addr = KERNEL_DIRECT_MAP_BASE + phys_addr;
        if virt_addr < KERNEL_DIRECT_MAP_LIMIT {
            Some(virt_addr)
        } else {
            None
        }
    }

    pub fn direct_map_virt_to_phys(virt_addr: u64, managed_phys_limit: PhysAddr) -> (phys: Option<
        PhysAddr,
    >)
        ensures
            phys == spec_direct_map_virt_to_phys(virt_addr, managed_phys_limit),
    {
        if !Self::is_direct_map_address(virt_addr) {
            return None;
        }
        let phys_addr = virt_addr - KERNEL_DIRECT_MAP_BASE;
        if phys_addr < managed_phys_limit {
            Some(phys_addr)
        } else {
            None
        }
    }
}

/// The direct map is a two-way translation: a physical address below the managed
/// limit that the direct map reaches comes back from its direct-map address, and a
/// direct-map address that translates to a physical address is where that address shows up.
pub proof fn lemma_direct_map_round_trip(phys_addr: u64, virt_addr: u64, managed_phys_limit: u64)
    ensures
        spec_phys_to_direct_map_virt(phys_addr, managed_phys_limit) == Some(virt_addr)
            <==> spec_direct_map_virt_to_phys(virt_addr, managed_phys_limit) == Some(phys_addr),
{
}

} // verus!
