//! Physical memory map: page-aligned regions, spans of page frames and the
//! alignment helpers used throughout the memory code.

use vstd::prelude::*;

verus! {

/// Size of one page frame in bytes.
pub const PAGE_SIZE: usize = 4096;
/// Number of regions a boot memory snapshot can hold.
pub const MAX_MEMORY_REGIONS: usize = 128;
/// Bytes reserved for the raw firmware memory map.
pub const UEFI_MEMORY_MAP_STORAGE_BYTES: usize = 16384;

/// A physical address.
pub type PhysAddr = u64;

/// `value` rounded up to a multiple of `alignment` (unchanged for a zero alignment).
pub open spec fn spec_align_up(value: int, alignment: int) -> int {
    if alignment == 0 {
        value
    } else if value % alignment == 0 {
        value
    } else {
        value + (alignment - value % alignment)
    }
}

/// `value` rounded down to a multiple of `alignment` (unchanged for a zero alignment).
pub open spec fn spec_align_down(value: int, alignment: int) -> int {
    if alignment == 0 {
        value
    } else {
        value - value % alignment
    }
}

/// Rounding up lands on the next multiple at or above the value, rounding down on the
/// last multiple at or below it.
pub proof fn lemma_alignment(value: int, alignment: int)
    requires
        alignment > 0,
        value >= 0,
    ensures
        spec_align_up(value, alignment) % alignment == 0,
        value <= spec_align_up(value, alignment) < value + alignment,
        spec_align_down(value, alignment) % alignment == 0,
        spec_align_down(value, alignment) <= value < spec_align_down(value, alignment) + alignment,
        value % alignment == 0 ==> spec_align_up(value, alignment) == value,
        value % alignment == 0 ==> spec_align_down(value, alignment) == value,
        spec_align_down(value, alignment) >= 0,
{
    let q = value / alignment;
    let r = value % alignment;
    vstd::arithmetic::div_mod::lemma_fundamental_div_mod(value, alignment);
    assert(0 <= r < alignment);
    vstd::arithmetic::div_mod::lemma_mod_multiples_vanish(q, 0, alignment);
    vstd::arithmetic::div_mod::lemma_mod_multiples_vanish(q + 1, 0, alignment);
    assert(alignment * (q + 1) == alignment * q + alignment) by (nonlinear_arith);
    assert(0int % alignment == 0);
    vstd::arithmetic::div_mod::lemma_div_pos_is_pos(value, alignment);
    assert(alignment * q >= 0) by (nonlinear_arith)
        requires
            alignment > 0,
            q >= 0,
    ;
}

/// The difference of two multiples of `m` is a multiple of `m`, and splits into whole `m`s.
pub proof fn lemma_multiple_difference(a: int, b: int, m: int)
    requires
        m > 0,
        a % m == 0,
        b % m == 0,
        a <= b,
    ensures
        (b - a) % m == 0,
        (b - a) == ((b - a) / m) * m,
{
    vstd::arithmetic::div_mod::lemma_sub_mod_noop(b, a, m);
    assert(0int % m == 0);
    vstd::arithmetic::div_mod::lemma_fundamental_div_mod(b - a, m);
    assert(m * ((b - a) / m) == ((b - a) / m) * m) by (nonlinear_arith);
}

/// Rounds `value` up to the next multiple of `alignment`.
pub fn align_up(value: u64, alignment: u64) -> (result: u64)
    requires
        spec_align_up(value as int, alignment as int) <= u64::MAX,
    ensures
        result == spec_align_up(value as int, alignment as int),
        alignment > 0 ==> result % alignment == 0,
        alignment > 0 ==> value <= result < value + alignment,
{
    if alignment == 0 {
        return value;
    }
    proof {
        lemma_alignment(value as int, alignment as int);
    }
    let remainder = value % alignment;
    if remainder == 0 {
        value
    } else {
        value + (alignment - remainder)
    }
}

/// Rounds `value` down to a multiple of `alignment`.
pub fn align_down(value: u64, alignment: u64) -> (result: u64)
    ensures
        result == spec_align_down(value as int, alignment as int),
        alignment > 0 ==> result % alignment == 0,
        alignment > 0 ==> result <= value < result + alignment,
{
    if alignment == 0 {
        value
    } else {
        proof {
            lemma_alignment(value as int, alignment as int);
        }
        value - (value % alignment)
    }
}

#[derive(Clone, Copy, Debug, PartialEq, Eq, Structural)]
pub enum RegionKind {
    Usable,
    Reserved,
    Kernel,
    Boot,
    AllocatorMetadata,
}

/// A page-aligned range of physical memory, described both in bytes and in page frames.
#[derive(Clone, Copy, Debug, PartialEq, Eq, Structural)]
pub struct MemoryRegion {
    pub start_phys_addr: PhysAddr,
    pub length_bytes: u64,
    pub start_page_index: usize,
    pub page_count: usize,
    pub kind: RegionKind,
}

impl MemoryRegion {
    /// The region `[start, end)` with its page index and page count derived from the bytes.
    pub open spec fn spec_from_aligned_range(start: u64, end: u64, kind: RegionKind) -> MemoryRegion {
        MemoryRegion {
            start_phys_addr: start,
            length_bytes: (end - start) as u64,
            start_page_index: ((start as usize) / 4096) as usize,
            page_count: (((end - start) as u64 as usize) / 4096) as usize,
            kind,
        }
    }

    pub fn from_aligned_range(
        start_phys_addr: PhysAddr,
        end_phys_addr_exclusive: PhysAddr,
        kind: RegionKind,
    ) -> (region: Self)
        requires
            start_phys_addr <= end_phys_addr_exclusive,
        ensures
            region == Self::spec_from_aligned_range(start_phys_addr, end_phys_addr_exclusive, kind),
    {
        let start_page_index = (start_phys_addr as usize) / PAGE_SIZE;
        let page_count = ((end_phys_addr_exclusive - start_phys_addr) as usize) / PAGE_SIZE;
        MemoryRegion {
            start_phys_addr,
            length_bytes: end_phys_addr_exclusive - start_phys_addr,
            start_page_index,
            page_count,
            kind,
        }
    }

    /// What `normalized` gives: the whole pages inside `[start, start + length)`
    /// (the end saturating at `u64::MAX`), or nothing when no whole page fits.
    pub open spec fn spec_normalized(start: u64, length: u64, kind: RegionKind) -> Option<MemoryRegion> {
        let aligned_start = spec_align_up(start as int, 4096);
        let raw_end = if start + length > u64::MAX { u64::MAX as int } else { start + length };
        let aligned_end = spec_align_down(raw_end, 4096);
        if aligned_end <= aligned_start {
            None
        } else {
            Some(Self::spec_from_aligned_range(aligned_start as u64, aligned_end as u64, kind))
        }
    }

    pub fn normalized(start_phys_addr: PhysAddr, length_bytes: u64, kind: RegionKind) -> (region:
        Option<Self>)
        requires
            spec_align_up(start_phys_addr as int, 4096) <= u64::MAX,
        ensures
            region == Self::spec_normalized(start_phys_addr, length_bytes, kind),
            region matches Some(r) ==> {
                &&& r.start_phys_addr % 4096 == 0
                &&& r.length_bytes % 4096 == 0
                &&& r.length_bytes > 0
                &&& r.length_bytes <= usize::MAX ==> (r.page_count > 0 && r.length_bytes == r.page_count * 4096)
                &&& start_phys_addr <= r.start_phys_addr
                &&& r.start_phys_addr + r.length_bytes <= start_phys_addr + length_bytes
            },
    {
        proof {
            lemma_alignment(start_phys_addr as int, 4096);
            let raw_end = if start_phys_addr + length_bytes > u64::MAX { u64::MAX as int } else { start_phys_addr + length_bytes };
            lemma_alignment(raw_end, 4096);
        }
        let aligned_start = align_up(start_phys_addr, PAGE_SIZE as u64);
        let aligned_end = align_down(start_phys_addr.saturating_add(length_bytes), PAGE_SIZE as u64);
        if aligned_end <= aligned_start {
            return None;
        }
        let region = Self::from_aligned_range(aligned_start, aligned_end, kind);
        proof {
            lemma_multiple_difference(aligned_start as int, aligned_end as int, 4096);
            let len = (aligned_end - aligned_start) as int;
            assert(len > 0);
            if len <= usize::MAX {
                assert(((len as u64) as usize) as int == len);
                assert(len / 4096 > 0) by {
                    vstd::arithmetic::div_mod::lemma_fundamental_div_mod(len, 4096);
                }
            }
        }
        Some(region)
    }

    pub fn end_phys_addr_exclusive(&self) -> (end: PhysAddr)
        requires
            self.start_phys_addr + self.length_bytes <= u64::MAX,
        ensures
            end == self.start_phys_addr + self.length_bytes,
    {
        self.start_phys_addr + self.length_bytes
    }

    pub open spec fn spec_end_page_index(&self) -> int {
        self.start_page_index + self.page_count
    }

    pub fn end_page_index(&self) -> (end: usize)
        requires
            self.start_page_index + self.page_count <= usize::MAX,
        ensures
            end == self.spec_end_page_index(),
    {
        self.start_page_index + self.page_count
    }
}

/// The memory map captured from firmware before the allocator takes over.
#[derive(Clone, Copy, Debug)]
pub struct BootMemoryMapSnapshot<'a> {
    pub regions: &'a [MemoryRegion],
    pub descriptor_count: usize,
    pub descriptor_size: usize,
    pub page_size: usize,
    pub highest_usable_address: PhysAddr,
}

/// `value` divided by `divisor`, rounded up.
pub open spec fn spec_div_ceil(value: int, divisor: int) -> int {
    if value % divisor == 0 { value / divisor } else { value / divisor + 1 }
}

impl<'a> BootMemoryMapSnapshot<'a> {
    /// Number of page frames up to the highest usable address, rounded up.
    pub fn managed_page_count(&self) -> (count: usize)
        ensures
            count == spec_div_ceil((self.highest_usable_address as usize) as int, 4096),
    {
        let address = self.highest_usable_address as usize;
        let whole = address / PAGE_SIZE;
        if address % PAGE_SIZE == 0 {
            whole
        } else {
            whole + 1
        }
    }
}

/// A run of consecutive page frames.
#[derive(Clone, Copy, Debug, PartialEq, Eq, Structural)]
pub struct PageSpan {
    pub start_page_index: usize,
    pub page_count: usize,
    pub start_phys_addr: PhysAddr,
    pub end_phys_addr_exclusive: PhysAddr,
}

impl PageSpan {
    /// The span of `page_count` frames from `start_page_index`, with its byte bounds.
    pub open spec fn spec_new(start_page_index: usize, page_count: usize) -> PageSpan {
        PageSpan {
            start_page_index,
            page_count,
            start_phys_addr: (start_page_index * 4096) as u64,
            end_phys_addr_exclusive: ((start_page_index + page_count) * 4096) as u64,
        }
    }

    pub fn new(start_page_index: usize, page_count: usize) -> (span: Option<Self>)
        requires
            (start_page_index + page_count) * 4096 <= usize::MAX,
        ensures
            page_count == 0 <==> span is None,
            page_count > 0 ==> span == Some(Self::spec_new(start_page_index, page_count)),
    {
        if page_count == 0 {
            return None;
        }
        let start_phys_addr = (start_page_index * PAGE_SIZE) as PhysAddr;
        let end_phys_addr_exclusive = ((start_page_index + page_count) * PAGE_SIZE) as PhysAddr;
        Some(PageSpan { start_page_index, page_count, start_phys_addr, end_phys_addr_exclusive })
    }

    pub open spec fn spec_contains_page(&self, page_index: int) -> bool {
        self.start_page_index <= page_index < self.start_page_index + self.page_count
    }

    pub fn contains_page(&self, page_index: usize) -> (contained: bool)
        requires
            self.start_page_index + self.page_count <= usize::MAX,
        ensures
            contained == self.spec_contains_page(page_index as int),
    {
        page_index >= self.start_page_index && page_index < self.start_page_index + self.page_count
    }
}

/// Outcome of an allocator request.
#[derive(Clone, Copy, Debug, PartialEq, Eq, Structural)]
pub enum AllocationResult {
    Allocated(PageSpan),
    Released(PageSpan),
    OutOfMemory,
    InvalidRequest,
    InvalidFree,
}

} // verus!
