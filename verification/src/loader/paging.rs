//! The page tables the loader builds for the kernel: identity maps of the memory
//! the switch still uses, and the kernel's segments at their virtual addresses.
//! Table pages come, in order, from the layout's page-table region.

use vstd::prelude::*;

use crate::boot::handoff::BootInfo;
use crate::loader::kernel_image::LoadedKernelImage;
use crate::loader::memory::{EarlyLayout, PhysicalRange};
use crate::memory::bitmap::AllocatorState;
use crate::memory::map::PageSpan;
use crate::memory::paging::table_memory::{table_entry, table_page, zero_page, TableMemory};
use crate::memory::paging::walk::{
    frame_of, index_at, leaf_entry, lemma_index_bounds, lemma_link_table, lemma_next_page_tables,
    lemma_table_link_entry, lemma_tables_for_pages_grow, lemma_tree_alloc_shrinks, lemma_walk_prefix_closed,
    lemma_write_leaf, lemma_zero_fresh, missing_tables, reachable, same_slots, table_at, tables_for_pages, tree_shape,
    tree_wf,
};

verus! {

pub const PAGE_SIZE: u64 = 4096;
pub const STACK_WINDOW_BYTES: u64 = 0x1_0000;
pub const ENTRY_COUNT: usize = 512;
pub const ADDRESS_MASK: u64 = 0x000f_ffff_ffff_f000;
pub const PRESENT: u64 = 1;
pub const WRITABLE: u64 = 2;
/// Flags of the identity mappings: present and writable.
pub const IDENTITY_FLAGS: u64 = 3;
pub const NO_EXECUTE: u64 = 0x8000_0000_0000_0000;
pub const ELF_FLAG_EXECUTABLE: u32 = 1;
pub const ELF_FLAG_WRITABLE: u32 = 2;

/// Tables the loader built: the root, how many table pages it used, and the
/// identity-mapped windows of the loader's stack and of the firmware memory map.
#[derive(Clone, Copy, Debug, PartialEq, Eq, Structural)]
pub struct BuiltPageTables {
    pub pml4_physical_start: u64,
    pub pages_used: usize,
    pub stack_window: PhysicalRange,
    pub memory_map_window: PhysicalRange,
}

/// A failure to build the tables, named by the step that failed.
#[derive(Clone, Copy, Debug)]
pub struct BuildError {
    pub stage: &'static str,
}

/// Physical addresses a table entry can name lie below 2^52.
pub open spec fn phys_addr_limit() -> int {
    0x10_0000_0000_0000
}

/// Frames below `next_free` taken, the rest free.
pub open spec fn frames_below(next_free: u64) -> AllocatorState {
    AllocatorState {
        used: Seq::new((phys_addr_limit() / 4096) as nat, |i: int| i * 4096 < next_free),
        allocatable: Seq::new((phys_addr_limit() / 4096) as nat, |i: int| true),
        free_page_count: 0,
        metadata_span: PageSpan::spec_new(0, 0),
        last_search_page: 0,
    }
}

/// Every entry of the tables above the leaves is empty or present.
pub open spec fn links_present(mem: Map<u64, Seq<u64>>, root: u64) -> bool {
    forall|v: u64, l: nat, i: int|
        l < 3 && #[trigger] table_at(mem, root, v, l) is Some ==> table_entry(mem, table_at(mem, root, v, l)->0, i) == 0
            || #[trigger] (table_entry(mem, table_at(mem, root, v, l)->0, i) & 1) == 1
}

/// `value` rounded up to a page, saturating near the top of the address space.
pub open spec fn spec_page_up(value: u64) -> u64 {
    (if value + 4095 > u64::MAX { u64::MAX } else { (value + 4095) as u64 }) & !4095u64
}

/// `value` rounded down to a page.
pub open spec fn spec_page_down(value: u64) -> u64 {
    value & !4095u64
}

proof fn lemma_page_down(value: u64)
    ensures
        spec_page_down(value) == value - value % 4096,
{
    assert(value & !4095u64 == value - value % 4096) by (bit_vector);
}

pub(crate) proof fn lemma_page_up(value: u64)
    ensures
        spec_page_up(value) % 4096 == 0,
        value <= 0xffff_ffff_ffff_f000 ==> value <= spec_page_up(value) < value + 4096,
        value > 0xffff_ffff_ffff_f000 ==> spec_page_up(value) == 0xffff_ffff_ffff_f000,
{
    if value + 4095 > u64::MAX {
        assert(u64::MAX & !4095u64 == 0xffff_ffff_ffff_f000u64) by (bit_vector);
    } else {
        let b = (value + 4095) as u64;
        assert(b & !4095u64 == b - b % 4096) by (bit_vector);
    }
}

/// Page-aligned bounds of a range differ by whole pages.
proof fn lemma_page_span(start: u64, end: u64)
    requires
        start % 4096 == 0,
        end % 4096 == 0,
        start <= end,
    ensures
        (end - start) / 4096 * 4096 == end - start,
        (end - start) / 4096 >= 0,
{
    crate::memory::map::lemma_multiple_difference(start as int, end as int, 4096);
}

fn align_up(value: u64, align: u64) -> (result: u64)
    requires
        align == PAGE_SIZE,
    ensures
        result == spec_page_up(value),
        result % 4096 == 0,
{
    let mask = align - 1;
    let bumped = match value.checked_add(mask) {
        Some(v) => v,
        None => u64::MAX,
    };
    proof {
        lemma_page_down(bumped);
    }
    bumped & !mask
}

fn align_down(value: u64, align: u64) -> (result: u64)
    requires
        align == PAGE_SIZE,
    ensures
        result == spec_page_down(value),
        result == value - value % 4096,
{
    proof {
        lemma_page_down(value);
    }
    value & !(align - 1)
}

/// The table index `virtual_address` selects at the level whose index starts at
/// bit `shift`.
fn table_index(virtual_address: u64, shift: u64) -> (index: usize)
    requires
        shift == 39 || shift == 30 || shift == 21 || shift == 12,
    ensures
        index == (virtual_address >> shift) & 0x1ff,
        index < ENTRY_COUNT,
{
    assert((virtual_address >> shift) & 0x1ff < 512) by (bit_vector);
    ((virtual_address >> shift) & 0x1ff) as usize
}

/// The table address an entry names.
fn table_address(entry: u64) -> (address: u64)
    ensures
        address == entry & ADDRESS_MASK,
{
    entry & ADDRESS_MASK
}

/// The leaf a page of a range gets: its frame's address and the flags.
pub open spec fn range_entry(phys_page: u64, k: int, flags: u64) -> u64 {
    (((phys_page + k * 4096) as u64) & ADDRESS_MASK) | flags
}

/// The leaf for `w` once the first `n` pages from `virt_page` have been mapped onto
/// frames from `phys_page` over `mem` (a later page wins in a shared slot).
pub open spec fn built_leaf(
    mem: Map<u64, Seq<u64>>,
    root: u64,
    virt_page: u64,
    phys_page: u64,
    flags: u64,
    n: int,
    w: u64,
) -> Option<u64>
    decreases n,
{
    if n <= 0 {
        leaf_entry(mem, root, w)
    } else if same_slots(w, (virt_page + (n - 1) * 4096) as u64) {
        let x = range_entry(phys_page, n - 1, flags);
        if x == 0 { None } else { Some(x) }
    } else {
        built_leaf(mem, root, virt_page, phys_page, flags, n - 1, w)
    }
}

/// Bump allocation of table pages from a region, over the table memory.
struct PageTableBuilder {
    next_free: u64,
    region_end: u64,
    pml4_physical_start: u64,
    pages_used: usize,
}

impl PageTableBuilder {
    spec fn wf(&self, mem: Map<u64, Seq<u64>>) -> bool {
        &&& self.pml4_physical_start % 4096 == 0
        &&& self.next_free % 4096 == 0
        &&& self.pml4_physical_start + 4096 <= self.next_free <= self.region_end
        &&& self.region_end <= phys_addr_limit()
        &&& self.pages_used * 4096 == self.next_free - self.pml4_physical_start
        &&& tree_wf(mem, self.pml4_physical_start, frames_below(self.next_free))
        &&& links_present(mem, self.pml4_physical_start)
        &&& crate::memory::paging::walk::pages_sized(mem)
        &&& forall|q: u64| #[trigger] reachable(mem, self.pml4_physical_start, q) == (self.pml4_physical_start <= q < self.next_free
            && q % 4096 == 0)
    }

    /// Takes the next page of the region for a table and zeroes it.
    fn allocate_table(&mut self, memory: &mut TableMemory) -> (result: Result<u64, BuildError>)
        requires
            old(memory).wf(),
            old(self).next_free % 4096 == 0,
            old(self).region_end <= phys_addr_limit(),
            old(self).pml4_physical_start <= old(self).next_free <= old(self).region_end,
            old(self).pages_used * 4096 == old(self).next_free - old(self).pml4_physical_start,
            old(self).region_end / 4096 <= usize::MAX,
        ensures
            final(memory).wf(),
            final(self).pml4_physical_start == old(self).pml4_physical_start,
            final(self).region_end == old(self).region_end,
            final(self).next_free % 4096 == 0,
            final(self).pages_used * 4096 == final(self).next_free - final(self).pml4_physical_start,
            old(self).next_free + 4096 > old(self).region_end ==> {
                &&& result matches Err(e) && e.stage == "page_table_capacity"
                &&& *final(self) == *old(self)
                &&& final(memory)@ == old(memory)@
            },
            old(self).next_free + 4096 <= old(self).region_end ==> {
                &&& result == Ok::<u64, BuildError>(old(self).next_free)
                &&& final(self).next_free == old(self).next_free + 4096
                &&& final(memory)@ == old(memory)@.insert(old(self).next_free, zero_page())
            },
    {
        let table_physical = align_up(self.next_free, PAGE_SIZE);
        assert(table_physical == self.next_free) by {
            lemma_page_down((self.next_free + 4095) as u64);
        }
        let next = match table_physical.checked_add(PAGE_SIZE) {
            Some(v) => v,
            None => {
                return Err(BuildError { stage: "table_overflow" });
            },
        };
        if next > self.region_end {
            return Err(BuildError { stage: "page_table_capacity" });
        }
        memory.zero(table_physical);
        self.next_free = next;
        self.pages_used = self.pages_used + 1;
        Ok(table_physical)
    }
}


impl PageTableBuilder {
    /// The table entry `entry_index` of `table_physical` names, creating and linking
    /// a zeroed table when the entry is not present.
    fn get_or_create_child(
        &mut self,
        memory: &mut TableMemory,
        table_physical: u64,
        entry_index: usize,
        Ghost(v): Ghost<u64>,
        Ghost(depth): Ghost<nat>,
    ) -> (result: Result<u64, BuildError>)
        requires
            old(memory).wf(),
            old(self).wf(old(memory)@),
            old(self).region_end / 4096 <= usize::MAX,
            depth < 3,
            table_at(old(memory)@, old(self).pml4_physical_start, v, depth) == Some(table_physical),
            entry_index == index_at(v, depth as int),
        ensures
            final(memory).wf(),
            final(self).wf(final(memory)@),
            final(self).pml4_physical_start == old(self).pml4_physical_start,
            final(self).region_end == old(self).region_end,
            forall|w: u64| #[trigger] leaf_entry(final(memory)@, final(self).pml4_physical_start, w)
                == leaf_entry(old(memory)@, old(self).pml4_physical_start, w),
            result matches Ok(child) ==> table_at(final(memory)@, final(self).pml4_physical_start, v, depth + 1) == Some(child),
            result matches Err(e) ==> e.stage == "page_table_capacity",
            result is Err ==> final(self).next_free + 4096 > final(self).region_end,
            final(self).next_free <= old(self).next_free + 4096,
            table_at(old(memory)@, old(self).pml4_physical_start, v, depth + 1) is Some ==> {
                &&& result is Ok
                &&& final(self).next_free == old(self).next_free
                &&& final(memory)@ == old(memory)@
            },
            old(self).next_free + 4096 <= old(self).region_end ==> result is Ok,
    {
        let ghost root = self.pml4_physical_start;
        let ghost mem0 = memory@;
        let ghost alloc0 = frames_below(self.next_free);
        proof {
            lemma_index_bounds(v);
        }
        let entry = memory.read(table_physical, entry_index);
        proof {
            assert(table_entry(mem0, table_physical, index_at(v, depth as int)) == entry);
            assert(table_at(mem0, root, v, depth) == Some(table_physical));
            assert(((depth + 1) as nat - 1) as nat == depth);
            if entry != 0 {
                assert(entry == 0 || entry & 1 == 1);
                assert(entry & 1u64 == 1 ==> entry & 1u64 != 0) by (bit_vector);
            }
        }
        if entry & PRESENT != 0 {
            assert(entry != 0) by (bit_vector)
                requires
                    entry & 1u64 != 0,
            ;
            return Ok(table_address(entry));
        }
        proof {
            assert(entry == 0 || entry & 1 == 1);
            assert(entry & 1u64 != 1) by (bit_vector)
                requires
                    entry & 1u64 == 0,
            ;
        }
        let child = match self.allocate_table(memory) {
            Ok(c) => c,
            Err(e) => {
                return Err(e);
            },
        };
        let ghost mem1 = memory@;
        let ghost alloc1 = frames_below(self.next_free);
        let link = child | PRESENT | WRITABLE;
        proof {
            let s = child as int / 4096;
            assert(child as int == s * 4096);
            lemma_table_link_entry(s);
            assert(link == child | 3u64) by (bit_vector)
                requires
                    link == child | 1u64 | 2u64,
            ;
            assert(alloc0.is_free(frame_of(child)));
            assert forall|w: u64, l: nat| l <= 3 implies #[trigger] table_at(mem0, root, w, l) != Some(child) by {
                if table_at(mem0, root, w, l) == Some(child) {
                    assert(!alloc0.is_free(frame_of(child)));
                }
            }
            lemma_zero_fresh(mem0, root, child, alloc0);
            assert forall|i: int| #[trigger] alloc1.is_free(i) implies alloc0.is_free(i) by {}
            lemma_tree_alloc_shrinks(mem1, root, alloc0, alloc1);
            assert(!alloc1.is_free(frame_of(child)));
            assert(table_at(mem1, root, v, depth) == Some(table_physical));
            assert(table_physical != child);
            assert(table_entry(mem1, table_physical, index_at(v, depth as int)) == 0);
            lemma_link_table(mem1, root, alloc1, v, depth, table_physical, link, child);
            crate::memory::paging::walk::lemma_zero_reach(mem0, root, child, alloc0);
            crate::memory::paging::walk::lemma_link_reach(mem1, root, alloc1, v, depth, table_physical, link, child);
            assert((child | 3u64) & 1u64 == 1) by (bit_vector);
        }
        memory.write(table_physical, entry_index, link);
        proof {
            let mem2 = memory@;
            assert forall|w: u64, l: nat, i: int|
                l < 3 && #[trigger] table_at(mem2, root, w, l) is Some implies table_entry(mem2, table_at(mem2, root, w, l)->0, i) == 0
                    || #[trigger] (table_entry(mem2, table_at(mem2, root, w, l)->0, i) & 1) == 1 by {
                let q = table_at(mem2, root, w, l)->0;
                if q == child {
                    assert(table_entry(mem2, q, i) == 0);
                } else if q == table_physical {
                    if i == entry_index as int {
                        assert(table_entry(mem2, q, i) == link);
                    } else {
                        assert(table_entry(mem2, q, i) == table_entry(mem0, q, i));
                        assert(table_at(mem1, root, w, l) == Some(q));
                        assert(table_at(mem0, root, w, l) == Some(q));
                        assert(table_entry(mem0, q, i) == 0 || (table_entry(mem0, q, i) & 1) == 1);
                    }
                } else {
                    assert(table_entry(mem2, q, i) == table_entry(mem0, q, i));
                    assert(table_at(mem1, root, w, l) == Some(q));
                    assert(table_at(mem0, root, w, l) == Some(q));
                    assert(table_entry(mem0, q, i) == 0 || (table_entry(mem0, q, i) & 1) == 1);
                }
            }
        }
        Ok(child)
    }

    /// Maps the page at `virtual_address` to the frame at `physical_address`.
    fn map_page(&mut self, memory: &mut TableMemory, virtual_address: u64, physical_address: u64, flags: u64) -> (result:
        Result<(), BuildError>)
        requires
            old(memory).wf(),
            old(self).wf(old(memory)@),
            old(self).region_end / 4096 <= usize::MAX,
        ensures
            final(memory).wf(),
            final(self).wf(final(memory)@),
            final(self).pml4_physical_start == old(self).pml4_physical_start,
            final(self).region_end == old(self).region_end,
            result matches Err(e) ==> e.stage == "page_table_capacity",
            result is Err ==> final(self).next_free + 4096 > final(self).region_end,
            ({
                let x = (physical_address & ADDRESS_MASK) | flags;
                let root = old(self).pml4_physical_start;
                &&& result is Ok ==> forall|w: u64| #[trigger] leaf_entry(final(memory)@, root, w) == if same_slots(w, virtual_address) {
                    if x == 0 { None } else { Some(x) }
                } else {
                    leaf_entry(old(memory)@, root, w)
                }
                &&& result is Err ==> forall|w: u64| #[trigger] leaf_entry(final(memory)@, root, w) == leaf_entry(old(memory)@, root, w)
                &&& result is Ok ==> table_at(final(memory)@, root, virtual_address, 3) is Some
                &&& final(self).next_free <= old(self).next_free + 4096 * missing_tables(old(memory)@, root, virtual_address)
                &&& old(self).next_free + 4096 * missing_tables(old(memory)@, root, virtual_address) <= old(self).region_end ==> result is Ok
            }),
    {
        let ghost root = self.pml4_physical_start;
        let ghost mem0 = memory@;
        let ghost nf0 = self.next_free;
        let ghost t1 = table_at(mem0, root, virtual_address, 1) is Some;
        let ghost t2 = table_at(mem0, root, virtual_address, 2) is Some;
        let ghost t3 = table_at(mem0, root, virtual_address, 3) is Some;
        proof {
            if t3 {
                lemma_walk_prefix_closed(mem0, root, virtual_address, 2, 3);
            }
            if t2 {
                lemma_walk_prefix_closed(mem0, root, virtual_address, 1, 2);
            }
        }
        let i0 = table_index(virtual_address, 39);
        let i1 = table_index(virtual_address, 30);
        let i2 = table_index(virtual_address, 21);
        let i3 = table_index(virtual_address, 12);
        assert(table_at(memory@, root, virtual_address, 0) == Some(root));
        let pdpt = match self.get_or_create_child(memory, self.pml4_physical_start, i0, Ghost(virtual_address), Ghost(0)) {
            Ok(t) => t,
            Err(e) => {
                return Err(e);
            },
        };
        let ghost mem1 = memory@;
        assert(t1 ==> mem1 == mem0 && self.next_free == nf0);
        assert(self.next_free <= nf0 + 4096 * (if t1 { 0int } else { 1int }));
        let pd = match self.get_or_create_child(memory, pdpt, i1, Ghost(virtual_address), Ghost(1)) {
            Ok(t) => t,
            Err(e) => {
                return Err(e);
            },
        };
        let ghost mem2 = memory@;
        assert(t2 ==> mem2 == mem0 && self.next_free == nf0);
        assert(self.next_free <= nf0 + 4096 * ((if t1 { 0int } else { 1int }) + (if t2 { 0int } else { 1int })));
        let pt = match self.get_or_create_child(memory, pd, i2, Ghost(virtual_address), Ghost(2)) {
            Ok(t) => t,
            Err(e) => {
                return Err(e);
            },
        };
        assert(self.next_free <= nf0 + 4096 * missing_tables(mem0, root, virtual_address));
        let value = (physical_address & ADDRESS_MASK) | flags;
        let ghost mem1 = memory@;
        proof {
            lemma_write_leaf(mem1, root, frames_below(self.next_free), virtual_address, pt, value);
            crate::memory::paging::walk::lemma_same_walks_reach(
                mem1,
                mem1.insert(pt, table_page(mem1, pt).update(index_at(virtual_address, 3), value)),
                root,
            );
        }
        memory.write(pt, i3, value);
        proof {
            let mem2 = memory@;
            assert forall|w: u64, l: nat, i: int|
                l < 3 && #[trigger] table_at(mem2, root, w, l) is Some implies table_entry(mem2, table_at(mem2, root, w, l)->0, i) == 0
                    || #[trigger] (table_entry(mem2, table_at(mem2, root, w, l)->0, i) & 1) == 1 by {
                let q = table_at(mem2, root, w, l)->0;
                assert(table_at(mem1, root, w, l) == Some(q));
                if q == pt {
                    assert(table_at(mem1, root, virtual_address, 3) == table_at(mem1, root, w, l));
                }
                assert(table_entry(mem2, q, i) == table_entry(mem1, q, i));
                assert(table_entry(mem1, q, i) == 0 || (table_entry(mem1, q, i) & 1) == 1);
            }
        }
        Ok(())
    }
}


/// The leaf for `w` after the first `n` pages from `virt_page` were mapped onto
/// frames from `phys_page`, over the leaf `below` (a later page wins in a shared
/// slot).
pub open spec fn range_leaf(virt_page: u64, phys_page: u64, flags: u64, n: int, w: u64, below: Option<u64>) -> Option<u64>
    decreases n,
{
    if n <= 0 {
        below
    } else if same_slots(w, (virt_page + (n - 1) * 4096) as u64) {
        let x = range_entry(phys_page, n - 1, flags);
        if x == 0 { None } else { Some(x) }
    } else {
        range_leaf(virt_page, phys_page, flags, n - 1, w, below)
    }
}

/// A range the builder maps: first virtual page, first frame, page count, flags.
pub struct PlannedRange {
    pub virt_page: u64,
    pub phys_page: u64,
    pub pages: int,
    pub flags: u64,
}

/// The leaf for `w` once `ranges` were mapped, in order, over empty tables.
pub open spec fn stacked_leaf(ranges: Seq<PlannedRange>, w: u64) -> Option<u64>
    decreases ranges.len(),
{
    if ranges.len() == 0 {
        None
    } else {
        let r = ranges.last();
        range_leaf(r.virt_page, r.phys_page, r.flags, r.pages, w, stacked_leaf(ranges.drop_last(), w))
    }
}

/// Pages from the one holding `start` to the one holding the last of `size` bytes.
pub open spec fn range_pages(start: u64, size: u64) -> int {
    if size == 0 || start + size > u64::MAX {
        0
    } else {
        (spec_page_up((start + size) as u64) - spec_page_down(start)) / 4096
    }
}

/// What mapping `size` bytes from `virtual_start` onto `physical_start` maps.
pub open spec fn planned_range(virtual_start: u64, physical_start: u64, size: u64, flags: u64) -> PlannedRange {
    PlannedRange {
        virt_page: spec_page_down(virtual_start),
        phys_page: spec_page_down(physical_start),
        pages: range_pages(virtual_start, size),
        flags,
    }
}

/// At most how many tables mapping a planned range creates.
pub open spec fn planned_tables(r: PlannedRange) -> int {
    tables_for_pages(r.virt_page, r.pages)
}

/// The frames of the range stay below the top of the address space.
pub open spec fn range_fits(virtual_start: u64, physical_start: u64, size: u64) -> bool {
    spec_page_down(physical_start) + range_pages(virtual_start, size) * 4096 <= u64::MAX
}

proof fn lemma_built_leaf(mem: Map<u64, Seq<u64>>, root: u64, vp: u64, pp: u64, flags: u64, n: int, w: u64)
    ensures
        built_leaf(mem, root, vp, pp, flags, n, w) == range_leaf(vp, pp, flags, n, w, leaf_entry(mem, root, w)),
    decreases n,
{
    if n > 0 {
        lemma_built_leaf(mem, root, vp, pp, flags, n - 1, w);
    }
}

impl PageTableBuilder {
    /// Maps `size_bytes` from `virtual_start` onto `physical_start`, page by page;
    /// the two must share their offset within a page.
    fn map_range(
        &mut self,
        memory: &mut TableMemory,
        virtual_start: u64,
        physical_start: u64,
        size_bytes: u64,
        flags: u64,
    ) -> (result: Result<(), BuildError>)
        requires
            old(memory).wf(),
            old(self).wf(old(memory)@),
            old(self).region_end / 4096 <= usize::MAX,
            range_fits(virtual_start, physical_start, size_bytes),
        ensures
            final(memory).wf(),
            final(self).wf(final(memory)@),
            final(self).pml4_physical_start == old(self).pml4_physical_start,
            final(self).region_end == old(self).region_end,
            size_bytes > 0 && virtual_start % 4096 != physical_start % 4096 ==> (result matches Err(e) && e.stage == "page_offset"),
            size_bytes > 0 && virtual_start % 4096 == physical_start % 4096 && virtual_start + size_bytes > u64::MAX ==> (result matches Err(
                e,
            ) && e.stage == "range_end"),
            result matches Err(e) ==> e.stage == "page_offset" || e.stage == "range_end" || e.stage == "page_table_capacity",
            result matches Err(e) && e.stage == "page_offset" ==> virtual_start % 4096 != physical_start % 4096,
            result matches Err(e) && e.stage == "range_end" ==> virtual_start + size_bytes > u64::MAX,
            result matches Err(e) && e.stage == "page_table_capacity" ==> final(self).next_free + 4096 > final(self).region_end,
            result is Ok ==> {
                let r = planned_range(virtual_start, physical_start, size_bytes, flags);
                forall|w: u64| #[trigger] leaf_entry(final(memory)@, final(self).pml4_physical_start, w)
                    == range_leaf(r.virt_page, r.phys_page, r.flags, r.pages, w, leaf_entry(old(memory)@, old(self).pml4_physical_start, w))
            },
            final(self).next_free <= old(self).next_free + 4096 * planned_tables(planned_range(virtual_start, physical_start, size_bytes, flags)),
            size_bytes == 0 ==> result is Ok,
            virtual_start % 4096 == physical_start % 4096 && virtual_start + size_bytes <= u64::MAX && old(self).next_free + 4096
                * planned_tables(planned_range(virtual_start, physical_start, size_bytes, flags)) <= old(self).region_end ==> result is Ok,
    {
        let ghost root = self.pml4_physical_start;
        let ghost mem0 = memory@;
        let ghost nf0 = self.next_free;
        let ghost owed = old(self).next_free + 4096 * planned_tables(planned_range(virtual_start, physical_start, size_bytes, flags))
            <= old(self).region_end;
        proof {
            crate::memory::paging::walk::lemma_tables_for_pages_nonneg(
                spec_page_down(virtual_start),
                range_pages(virtual_start, size_bytes),
            );
        }
        if size_bytes == 0 {
            return Ok(());
        }
        let mask: u64 = PAGE_SIZE - 1;
        assert(mask == 4095u64);
        assert((virtual_start & 4095u64) == virtual_start % 4096) by (bit_vector);
        assert((physical_start & 4095u64) == physical_start % 4096) by (bit_vector);
        if (virtual_start & mask) != (physical_start & mask) {
            return Err(BuildError { stage: "page_offset" });
        }
        let mapped_end = match virtual_start.checked_add(size_bytes) {
            Some(v) => v,
            None => {
                return Err(BuildError { stage: "range_end" });
            },
        };
        let vp0 = align_down(virtual_start, PAGE_SIZE);
        let pp0 = align_down(physical_start, PAGE_SIZE);
        let end_page = align_up(mapped_end, PAGE_SIZE);
        let ghost total = range_pages(virtual_start, size_bytes);
        proof {
            lemma_page_up(mapped_end);
            lemma_page_down(virtual_start);
            lemma_page_span(vp0, end_page);
            assert(end_page >= vp0);
            assert(end_page - vp0 == total * 4096);
            assert(planned_tables(planned_range(virtual_start, physical_start, size_bytes, flags)) == tables_for_pages(vp0, total));
        }
        let mut virtual_page = vp0;
        let mut physical_page = pp0;
        let ghost mut k: int = 0;
        while virtual_page < end_page
            invariant
                memory.wf(),
                self.wf(memory@),
                self.region_end / 4096 <= usize::MAX,
                self.pml4_physical_start == root,
                root == old(self).pml4_physical_start,
                self.region_end == old(self).region_end,
                size_bytes > 0,
                virtual_start % 4096 == physical_start % 4096,
                virtual_start + size_bytes <= u64::MAX,
                0 <= k <= total,
                end_page - vp0 == total * 4096,
                virtual_page == vp0 + k * 4096,
                physical_page == pp0 + k * 4096,
                pp0 + total * 4096 <= u64::MAX,
                forall|w: u64| #[trigger] leaf_entry(memory@, root, w) == range_leaf(vp0, pp0, flags, k, w, leaf_entry(mem0, root, w)),
                self.next_free <= nf0 + 4096 * tables_for_pages(vp0, k),
                k > 0 ==> table_at(memory@, root, (vp0 + (k - 1) * 4096) as u64, 3) is Some,
                owed ==> nf0 + 4096 * tables_for_pages(vp0, total) <= self.region_end,
                planned_tables(planned_range(virtual_start, physical_start, size_bytes, flags)) == tables_for_pages(vp0, total),
                nf0 == old(self).next_free,
                owed == (old(self).next_free + 4096 * planned_tables(planned_range(virtual_start, physical_start, size_bytes, flags))
                    <= old(self).region_end),
            decreases end_page - virtual_page,
        {
            let ghost mem_before = memory@;
            proof {
                if k > 0 {
                    lemma_next_page_tables(mem_before, root, (vp0 + (k - 1) * 4096) as u64, virtual_page);
                    assert((vp0 + k * 4096) as u64 == virtual_page);
                }
                lemma_tables_for_pages_grow(vp0, k + 1, total);
                assert(missing_tables(mem_before, root, virtual_page) <= tables_for_pages(vp0, k + 1) - tables_for_pages(vp0, k));
            }
            match self.map_page(memory, virtual_page, physical_page, flags) {
                Ok(()) => {},
                Err(e) => {
                    return Err(e);
                },
            }
            proof {
                assert forall|w: u64| #[trigger] leaf_entry(memory@, root, w) == range_leaf(vp0, pp0, flags, k + 1, w, leaf_entry(mem0, root, w)) by {
                    assert(leaf_entry(mem_before, root, w) == range_leaf(vp0, pp0, flags, k, w, leaf_entry(mem0, root, w)));
                    assert((vp0 + k * 4096) as u64 == virtual_page);
                }
                k = k + 1;
            }
            virtual_page = virtual_page + PAGE_SIZE;
            physical_page = physical_page + PAGE_SIZE;
        }
        assert(k == total);
        Ok(())
    }

    /// Maps a range of physical memory at its own addresses.
    fn map_identity(&mut self, memory: &mut TableMemory, range: PhysicalRange, flags: u64) -> (result: Result<(), BuildError>)
        requires
            old(memory).wf(),
            old(self).wf(old(memory)@),
            old(self).region_end / 4096 <= usize::MAX,
        ensures
            final(memory).wf(),
            final(self).wf(final(memory)@),
            final(self).pml4_physical_start == old(self).pml4_physical_start,
            final(self).region_end == old(self).region_end,
            result matches Err(e) ==> e.stage == "page_table_capacity",
            result is Err ==> final(self).next_free + 4096 > final(self).region_end,
            result is Ok ==> forall|w: u64| #[trigger] leaf_entry(final(memory)@, final(self).pml4_physical_start, w)
                == identity_leaf(range, flags, w, leaf_entry(old(memory)@, old(self).pml4_physical_start, w)),
            final(self).next_free <= old(self).next_free + 4096 * identity_tables(range),
            old(self).next_free + 4096 * identity_tables(range) <= old(self).region_end ==> result is Ok,
    {
        if range.is_empty() {
            return Ok(());
        }
        proof {
            lemma_page_down(range.start);
            lemma_page_up(range.end);
            if range.end <= 0xffff_ffff_ffff_f000 {
                lemma_page_span(spec_page_down(range.start), spec_page_up(range.end));
            } else {
                lemma_page_span(spec_page_down(range.start), 0xffff_ffff_ffff_f000);
            }
        }
        self.map_range(memory, range.start, range.start, range.size_bytes(), flags)
    }
}

/// At most how many tables mapping a range at its own addresses creates.
pub open spec fn identity_tables(range: PhysicalRange) -> int {
    if range.start >= range.end {
        0
    } else {
        planned_tables(planned_range(range.start, range.start, range.spec_size_bytes(), IDENTITY_FLAGS))
    }
}

/// The leaf for `w` after a range was mapped at its own addresses over `below`.
pub open spec fn identity_leaf(range: PhysicalRange, flags: u64, w: u64, below: Option<u64>) -> Option<u64> {
    if range.start >= range.end {
        below
    } else {
        let r = planned_range(range.start, range.start, range.spec_size_bytes(), flags);
        range_leaf(r.virt_page, r.phys_page, r.flags, r.pages, w, below)
    }
}


impl PageTableBuilder {
    /// A builder over `page_table_region` whose first table, zeroed, is the root.
    fn new(page_table_region: PhysicalRange, memory: &mut TableMemory) -> (result: Result<Self, BuildError>)
        requires
            old(memory).wf(),
            page_table_region.end <= phys_addr_limit(),
            page_table_region.end / 4096 <= usize::MAX,
        ensures
            final(memory).wf(),
            page_table_region.start >= page_table_region.end || page_table_region.spec_size_bytes() < 4096 ==> {
                &&& result matches Err(e) && e.stage == "page_table_region"
                &&& final(memory)@ == old(memory)@
            },
            result matches Err(e) ==> e.stage == "page_table_region" || e.stage == "page_table_capacity",
            result matches Err(e) && e.stage == "page_table_capacity" ==> spec_page_up(page_table_region.start) + 4096
                > page_table_region.end,
            page_table_region.start < page_table_region.end && spec_page_up(page_table_region.start) + 4096
                <= page_table_region.end ==> result is Ok,
            result matches Ok(builder) ==> {
                &&& builder.wf(final(memory)@)
                &&& builder.next_free == spec_page_up(page_table_region.start) + 4096
                &&& builder.pml4_physical_start == spec_page_up(page_table_region.start)
                &&& builder.region_end == page_table_region.end
                &&& builder.region_end / 4096 <= usize::MAX
                &&& forall|w: u64| #[trigger] leaf_entry(final(memory)@, builder.pml4_physical_start, w) is None
            },
    {
        proof {
            lemma_page_up(page_table_region.start);
        }
        if page_table_region.is_empty() || page_table_region.size_bytes() < PAGE_SIZE {
            return Err(BuildError { stage: "page_table_region" });
        }
        proof {
            lemma_page_up(page_table_region.start);
        }
        let pml4_physical_start = align_up(page_table_region.start, PAGE_SIZE);
        let mut builder = PageTableBuilder {
            next_free: pml4_physical_start,
            region_end: page_table_region.end,
            pml4_physical_start,
            pages_used: 0,
        };
        match builder.allocate_table(memory) {
            Ok(_) => {},
            Err(e) => {
                return Err(e);
            },
        }
        proof {
            memory.lemma_pages_sized();
            let root = pml4_physical_start;
            let alloc = frames_below(builder.next_free);
            assert(!alloc.is_free(frame_of(root)));
            crate::memory::paging::address_space::lemma_fresh_root(memory@, root, alloc);
            assert forall|v: u64, l: nat, i: int|
                l < 3 && #[trigger] table_at(memory@, root, v, l) is Some implies table_entry(memory@, table_at(memory@, root, v, l)->0, i) == 0
                    || #[trigger] (table_entry(memory@, table_at(memory@, root, v, l)->0, i) & 1) == 1 by {
                if l >= 1 {
                    assert(table_at(memory@, root, v, l) is None);
                }
                assert(table_at(memory@, root, v, 0) == Some(root));
            }
            assert forall|q: u64| #[trigger] reachable(memory@, root, q) == (root <= q < builder.next_free && q % 4096 == 0) by {
                if reachable(memory@, root, q) {
                    let (w, l) = choose|w: u64, l: nat| l <= 3 && #[trigger] table_at(memory@, root, w, l) == Some(q);
                    if l >= 1 {
                        assert(table_at(memory@, root, w, l) is None);
                    }
                }
                if root <= q < builder.next_free && q % 4096 == 0 {
                    assert(q == root);
                    assert(table_at(memory@, root, 0, 0) == Some(root));
                }
            }
        }
        Ok(builder)
    }
}

/// The window of 64 KiB of stack below the page above `stack_pointer`.
pub open spec fn spec_stack_window(stack_pointer: u64) -> PhysicalRange {
    let end = spec_page_up(if stack_pointer + 4096 > u64::MAX { u64::MAX } else { (stack_pointer + 4096) as u64 });
    PhysicalRange { start: spec_page_down(if end >= STACK_WINDOW_BYTES { (end - STACK_WINDOW_BYTES) as u64 } else { 0 }), end }
}

/// The stack the loader runs on, around `stack_pointer`, to stay mapped across
/// the switch.
pub fn current_stack_window(stack_pointer: u64) -> (window: PhysicalRange)
    ensures
        window == spec_stack_window(stack_pointer),
{
    let above = match stack_pointer.checked_add(PAGE_SIZE) {
        Some(v) => v,
        None => u64::MAX,
    };
    let end = align_up(above, PAGE_SIZE);
    let start = align_down(end.saturating_sub(STACK_WINDOW_BYTES), PAGE_SIZE);
    PhysicalRange { start, end }
}

/// A range widened to whole pages, or the empty range.
pub open spec fn spec_page_align_range(range: PhysicalRange) -> PhysicalRange {
    if range.start >= range.end {
        PhysicalRange::spec_empty()
    } else {
        PhysicalRange { start: spec_page_down(range.start), end: spec_page_up(range.end) }
    }
}

pub fn page_align_range(range: PhysicalRange) -> (aligned: PhysicalRange)
    ensures
        aligned == spec_page_align_range(range),
{
    if range.is_empty() {
        return PhysicalRange::empty();
    }
    PhysicalRange { start: align_down(range.start, PAGE_SIZE), end: align_up(range.end, PAGE_SIZE) }
}

/// The flags a segment's pages get: present, writable if the segment is, and not
/// executable unless the segment is.
pub open spec fn segment_flags(flags: u32) -> u64 {
    let writable: u64 = if flags & ELF_FLAG_WRITABLE != 0 { PRESENT | WRITABLE } else { PRESENT };
    if flags & ELF_FLAG_EXECUTABLE == 0 { writable | NO_EXECUTE } else { writable }
}

/// The four flag sets a segment's pages can get.
pub open spec fn segment_flag_set(fl: u64) -> bool {
    fl == 1 || fl == 3 || fl == 0x8000_0000_0000_0001 || fl == 0x8000_0000_0000_0003
}

proof fn lemma_entry_bits(a: u64, fl: u64)
    by (bit_vector)
    requires
        fl == 1 || fl == 3 || fl == 0x8000_0000_0000_0001 || fl == 0x8000_0000_0000_0003,
    ensures
        ((a & 0x000f_ffff_ffff_f000u64) | fl) & 1u64 == 1u64,
        ((a & 0x000f_ffff_ffff_f000u64) | fl) & 2u64 == fl & 2u64,
        ((a & 0x000f_ffff_ffff_f000u64) | fl) & 0x8000_0000_0000_0000u64 == fl & 0x8000_0000_0000_0000u64,
        ((a & 0x000f_ffff_ffff_f000u64) | fl) != 0,
{
}

/// The flags a segment's pages get are present, not executable exactly when the
/// segment's PF_X bit is clear, and writable exactly when its PF_W bit is set.
pub proof fn lemma_segment_flags(flags: u32)
    ensures
        segment_flag_set(segment_flags(flags)),
        segment_flags(flags) & 1 == 1,
        (segment_flags(flags) & NO_EXECUTE != 0) <==> (flags & 1 == 0),
        (segment_flags(flags) & WRITABLE != 0) <==> (flags & 2 != 0),
{
    assert((1u64 | 2u64) == 3u64 && (3u64 | 0x8000_0000_0000_0000u64) == 0x8000_0000_0000_0003u64 && (1u64
        | 0x8000_0000_0000_0000u64) == 0x8000_0000_0000_0001u64 && 1u64 & 1 == 1 && 3u64 & 1 == 1
        && 0x8000_0000_0000_0001u64 & 1 == 1 && 0x8000_0000_0000_0003u64 & 1 == 1 && 1u64 & 2 == 0 && 3u64 & 2 != 0
        && 0x8000_0000_0000_0001u64 & 2 == 0 && 0x8000_0000_0000_0003u64 & 2 != 0 && 1u64 & 0x8000_0000_0000_0000u64
        == 0 && 3u64 & 0x8000_0000_0000_0000u64 == 0 && 0x8000_0000_0000_0001u64 & 0x8000_0000_0000_0000u64 != 0
        && 0x8000_0000_0000_0003u64 & 0x8000_0000_0000_0000u64 != 0) by (bit_vector);
}

/// Within a range mapped with one of the segment flag sets, every address in one
/// of its pages gets a leaf: present, with the set's writable and no-execute bits.
proof fn lemma_range_leaf_bits(vp: u64, pp: u64, fl: u64, n: int, w: u64, below: Option<u64>)
    requires
        segment_flag_set(fl),
    ensures
        (exists|k: int| 0 <= k < n && #[trigger] same_slots(w, (vp + k * 4096) as u64)) ==> (range_leaf(vp, pp, fl, n, w, below) matches Some(
            x,
        ) && x & 1 == 1 && x & WRITABLE == fl & WRITABLE && x & NO_EXECUTE == fl & NO_EXECUTE),
    decreases n,
{
    if n > 0 {
        if same_slots(w, (vp + (n - 1) * 4096) as u64) {
            lemma_entry_bits((pp + (n - 1) * 4096) as u64, fl);
        } else {
            if exists|k: int| 0 <= k < n && #[trigger] same_slots(w, (vp + k * 4096) as u64) {
                let k = choose|k: int| 0 <= k < n && #[trigger] same_slots(w, (vp + k * 4096) as u64);
                assert(k < n - 1);
            }
            lemma_range_leaf_bits(vp, pp, fl, n - 1, w, below);
        }
    }
}

/// Every address in a page of a kernel segment's range gets a leaf that is present,
/// not executable exactly when the segment's PF_X bit is clear, and writable exactly
/// when its PF_W bit is set, whatever the ranges mapped before it gave.
pub proof fn lemma_segment_leaf_flags(s: crate::loader::kernel_image::LoadedSegment, w: u64, below: Option<u64>)
    ensures
        ({
            let r = planned_range(s.virtual_address, s.physical_start, s.memory_size, segment_flags(s.flags));
            (exists|k: int| 0 <= k < r.pages && #[trigger] same_slots(w, (r.virt_page + k * 4096) as u64)) ==> (range_leaf(
                r.virt_page,
                r.phys_page,
                r.flags,
                r.pages,
                w,
                below,
            ) matches Some(x) && x & 1 == 1 && ((x & NO_EXECUTE != 0) <==> (s.flags & 1 == 0)) && ((x & WRITABLE != 0) <==> (s.flags
                & 2 != 0)))
        }),
{
    let r = planned_range(s.virtual_address, s.physical_start, s.memory_size, segment_flags(s.flags));
    lemma_segment_flags(s.flags);
    lemma_range_leaf_bits(r.virt_page, r.phys_page, r.flags, r.pages, w, below);
}

/// `ranges` and then `range` mapped one-to-one, present and writable, if it is not empty.
pub open spec fn push_identity(ranges: Seq<PlannedRange>, range: PhysicalRange) -> Seq<PlannedRange> {
    if range.start >= range.end {
        ranges
    } else {
        ranges.push(planned_range(range.start, range.start, range.spec_size_bytes(), IDENTITY_FLAGS))
    }
}

/// The ranges of the first `n` segments that occupy memory.
pub open spec fn segment_ranges(segs: Seq<crate::loader::kernel_image::LoadedSegment>, n: int) -> Seq<PlannedRange>
    decreases n,
{
    if n <= 0 {
        Seq::empty()
    } else {
        let s = segs[n - 1];
        if s.memory_size == 0 {
            segment_ranges(segs, n - 1)
        } else {
            segment_ranges(segs, n - 1).push(planned_range(s.virtual_address, s.physical_start, s.memory_size, segment_flags(s.flags)))
        }
    }
}

/// Everything `build` maps, in order: the loader image, the hand-off region, the
/// page-table region, the stack window and the memory-map window one-to-one, then
/// the kernel's segments.
pub open spec fn build_ranges(
    loader_image: PhysicalRange,
    layout: EarlyLayout,
    stack_window: PhysicalRange,
    memory_map_window: PhysicalRange,
    segs: Seq<crate::loader::kernel_image::LoadedSegment>,
    count: int,
) -> Seq<PlannedRange> {
    push_identity(
        push_identity(
            push_identity(push_identity(push_identity(Seq::empty(), loader_image), layout.boot_info_region), layout.page_table_region),
            stack_window,
        ),
        memory_map_window,
    ) + segment_ranges(segs, count)
}

proof fn lemma_stacked_push(ranges: Seq<PlannedRange>, r: PlannedRange, w: u64)
    ensures
        stacked_leaf(ranges.push(r), w) == range_leaf(r.virt_page, r.phys_page, r.flags, r.pages, w, stacked_leaf(ranges, w)),
{
    assert(ranges.push(r).drop_last() =~= ranges);
}

proof fn lemma_identity_push(ranges: Seq<PlannedRange>, range: PhysicalRange, w: u64)
    ensures
        stacked_leaf(push_identity(ranges, range), w) == identity_leaf(range, IDENTITY_FLAGS, w, stacked_leaf(ranges, w)),
{
    if range.start < range.end {
        lemma_stacked_push(ranges, planned_range(range.start, range.start, range.spec_size_bytes(), IDENTITY_FLAGS), w);
    }
}

/// At most how many tables mapping `ranges` creates: the sum over the ranges.
pub open spec fn ranges_tables(ranges: Seq<PlannedRange>) -> int
    decreases ranges.len(),
{
    if ranges.len() == 0 {
        0
    } else {
        ranges_tables(ranges.drop_last()) + planned_tables(ranges.last())
    }
}

proof fn lemma_ranges_tables_push(ranges: Seq<PlannedRange>, r: PlannedRange)
    ensures
        ranges_tables(ranges.push(r)) == ranges_tables(ranges) + planned_tables(r),
        planned_tables(r) >= 0,
{
    assert(ranges.push(r).drop_last() =~= ranges);
    crate::memory::paging::walk::lemma_tables_for_pages_nonneg(r.virt_page, r.pages);
}

proof fn lemma_identity_tables(ranges: Seq<PlannedRange>, range: PhysicalRange)
    ensures
        ranges_tables(push_identity(ranges, range)) == ranges_tables(ranges) + identity_tables(range),
        identity_tables(range) >= 0,
{
    if range.start < range.end {
        lemma_ranges_tables_push(ranges, planned_range(range.start, range.start, range.spec_size_bytes(), IDENTITY_FLAGS));
    }
}

/// The tables for the first `k` segments' ranges are at most those for the first `m`.
proof fn lemma_segment_tables_grow(base: Seq<PlannedRange>, segs: Seq<crate::loader::kernel_image::LoadedSegment>, k: int, m: int)
    requires
        0 <= k <= m,
    ensures
        ranges_tables(base + segment_ranges(segs, k)) <= ranges_tables(base + segment_ranges(segs, m)),
    decreases m - k,
{
    if k < m {
        lemma_segment_tables_grow(base, segs, k, m - 1);
        let s = segs[m - 1];
        if s.memory_size != 0 {
            let r = planned_range(s.virtual_address, s.physical_start, s.memory_size, segment_flags(s.flags));
            assert(base + segment_ranges(segs, m) =~= (base + segment_ranges(segs, m - 1)).push(r));
            lemma_ranges_tables_push(base + segment_ranges(segs, m - 1), r);
        }
    }
}

/// When building cannot fail: the page-table region holds the root and every table
/// the ranges may need, and every segment that occupies memory shares its offset
/// within a page with its frames and ends below the top of the address space.
pub open spec fn build_owed(boot_info: BootInfo, layout: EarlyLayout, loaded_kernel: LoadedKernelImage, stack_pointer: u64) -> bool {
    let region = layout.page_table_region;
    let segs = loaded_kernel.segments@;
    let ranges = build_ranges(
        boot_info.loader_image,
        layout,
        spec_stack_window(stack_pointer),
        spec_memory_map_window(boot_info),
        segs,
        loaded_kernel.segment_count as int,
    );
    &&& region.start < region.end
    &&& spec_page_up(region.start) + 4096 * (1 + ranges_tables(ranges)) <= region.end
    &&& forall|k: int| 0 <= k < loaded_kernel.segment_count && (#[trigger] segs[k]).memory_size > 0 ==> {
        &&& segs[k].virtual_address % 4096 == segs[k].physical_start % 4096
        &&& segs[k].virtual_address + segs[k].memory_size <= u64::MAX
    }
}

/// The memory map's buffer widened to whole pages.
pub open spec fn spec_memory_map_window(boot_info: BootInfo) -> PhysicalRange {
    spec_page_align_range(PhysicalRange {
        start: boot_info.memory_map.map,
        end: (boot_info.memory_map.map + boot_info.memory_map.map_size) as u64,
    })
}

/// Builds the kernel's page tables in the layout's page-table region: the memory
/// the switch still touches one-to-one, and each kernel segment that occupies
/// memory at its virtual address, writable and executable as the segment says.
/// It succeeds whenever `build_owed` holds. The tables are the first `pages_used`
/// pages of the region from the root on: exactly those pages are the tables the
/// walk from the root reaches.
pub fn build(
    boot_info: &BootInfo,
    layout: EarlyLayout,
    loaded_kernel: &LoadedKernelImage,
    stack_pointer: u64,
    memory: &mut TableMemory,
) -> (result: Result<BuiltPageTables, BuildError>)
    requires
        old(memory).wf(),
        layout.page_table_region.end <= phys_addr_limit(),
        layout.page_table_region.end / 4096 <= usize::MAX,
        boot_info.memory_map.map + boot_info.memory_map.map_size <= u64::MAX,
        loaded_kernel.segment_count <= loaded_kernel.segments@.len(),
        forall|k: int| 0 <= k < loaded_kernel.segment_count ==> range_fits(
            (#[trigger] loaded_kernel.segments@[k]).virtual_address,
            loaded_kernel.segments@[k].physical_start,
            loaded_kernel.segments@[k].memory_size,
        ),
    ensures
        final(memory).wf(),
        layout.page_table_region.start >= layout.page_table_region.end || layout.page_table_region.spec_size_bytes() < 4096 ==> (result matches Err(
            e,
        ) && e.stage == "page_table_region"),
        result matches Err(e) ==> e.stage == "page_table_region" || e.stage == "page_table_capacity" || e.stage == "page_offset"
            || e.stage == "range_end",
        result matches Err(e) && e.stage == "page_table_capacity" ==> forall|q: u64|
            spec_page_up(layout.page_table_region.start) <= q && q + 4096 <= layout.page_table_region.end && q % 4096 == 0
                ==> #[trigger] reachable(final(memory)@, spec_page_up(layout.page_table_region.start), q),
        result matches Ok(tables) ==> {
            let ranges = build_ranges(
                boot_info.loader_image,
                layout,
                spec_stack_window(stack_pointer),
                spec_memory_map_window(*boot_info),
                loaded_kernel.segments@,
                loaded_kernel.segment_count as int,
            );
            &&& tables.pml4_physical_start == spec_page_up(layout.page_table_region.start)
            &&& tables.stack_window == spec_stack_window(stack_pointer)
            &&& tables.memory_map_window == spec_memory_map_window(*boot_info)
            &&& tables.pages_used * 4096 <= layout.page_table_region.end - tables.pml4_physical_start
            &&& tables.pages_used >= 1
            &&& forall|q: u64| #[trigger] reachable(final(memory)@, tables.pml4_physical_start, q) == (tables.pml4_physical_start <= q
                < tables.pml4_physical_start + tables.pages_used * 4096 && q % 4096 == 0)
            &&& forall|w: u64| #[trigger] leaf_entry(final(memory)@, tables.pml4_physical_start, w) == stacked_leaf(ranges, w)
        },
        build_owed(*boot_info, layout, *loaded_kernel, stack_pointer) ==> result is Ok,
{
    let stack_window = current_stack_window(stack_pointer);
    let map_start = boot_info.memory_map.map;
    let map_end = map_start + boot_info.memory_map.map_size as u64;
    let memory_map_window = page_align_range(PhysicalRange { start: map_start, end: map_end });
    let loader_image = boot_info.loader_image;
    let ghost s0 = Seq::<PlannedRange>::empty();
    let ghost s1 = push_identity(s0, loader_image);
    let ghost s2 = push_identity(s1, layout.boot_info_region);
    let ghost s3 = push_identity(s2, layout.page_table_region);
    let ghost s4 = push_identity(s3, stack_window);
    let ghost s5 = push_identity(s4, memory_map_window);
    let ghost total = ranges_tables(s5 + segment_ranges(loaded_kernel.segments@, loaded_kernel.segment_count as int));
    let ghost owed = build_owed(*boot_info, layout, *loaded_kernel, stack_pointer);
    proof {
        lemma_identity_tables(s0, loader_image);
        lemma_identity_tables(s1, layout.boot_info_region);
        lemma_identity_tables(s2, layout.page_table_region);
        lemma_identity_tables(s3, stack_window);
        lemma_identity_tables(s4, memory_map_window);
        lemma_segment_tables_grow(s5, loaded_kernel.segments@, 0, loaded_kernel.segment_count as int);
        assert(s5 + segment_ranges(loaded_kernel.segments@, 0) =~= s5);
        assert(owed ==> spec_page_up(layout.page_table_region.start) + 4096 * (1 + total) <= layout.page_table_region.end);
    }
    let mut builder = match PageTableBuilder::new(layout.page_table_region, memory) {
        Ok(b) => b,
        Err(e) => {
            return Err(e);
        },
    };
    let ghost root = builder.pml4_physical_start;
    let ghost m0 = memory@;
    match builder.map_identity(memory, loader_image, IDENTITY_FLAGS) {
        Ok(()) => {},
        Err(e) => {
            return Err(e);
        },
    }
    assert(builder.next_free <= root + 4096 * (1 + ranges_tables(s1)));
    let ghost m1 = memory@;
    match builder.map_identity(memory, layout.boot_info_region, IDENTITY_FLAGS) {
        Ok(()) => {},
        Err(e) => {
            return Err(e);
        },
    }
    assert(builder.next_free <= root + 4096 * (1 + ranges_tables(s2)));
    let ghost m2 = memory@;
    match builder.map_identity(memory, layout.page_table_region, IDENTITY_FLAGS) {
        Ok(()) => {},
        Err(e) => {
            return Err(e);
        },
    }
    assert(builder.next_free <= root + 4096 * (1 + ranges_tables(s3)));
    let ghost m3 = memory@;
    match builder.map_identity(memory, stack_window, IDENTITY_FLAGS) {
        Ok(()) => {},
        Err(e) => {
            return Err(e);
        },
    }
    assert(builder.next_free <= root + 4096 * (1 + ranges_tables(s4)));
    let ghost m4 = memory@;
    match builder.map_identity(memory, memory_map_window, IDENTITY_FLAGS) {
        Ok(()) => {},
        Err(e) => {
            return Err(e);
        },
    }
    proof {
        assert forall|w: u64| #[trigger] leaf_entry(memory@, root, w) == stacked_leaf(s5, w) by {
            lemma_identity_push(s0, loader_image, w);
            lemma_identity_push(s1, layout.boot_info_region, w);
            lemma_identity_push(s2, layout.page_table_region, w);
            lemma_identity_push(s3, stack_window, w);
            lemma_identity_push(s4, memory_map_window, w);
            assert(leaf_entry(m0, root, w) is None);
            assert(leaf_entry(m1, root, w) == identity_leaf(loader_image, IDENTITY_FLAGS, w, leaf_entry(m0, root, w)));
            assert(leaf_entry(m2, root, w) == identity_leaf(layout.boot_info_region, IDENTITY_FLAGS, w, leaf_entry(m1, root, w)));
            assert(leaf_entry(m3, root, w) == identity_leaf(layout.page_table_region, IDENTITY_FLAGS, w, leaf_entry(m2, root, w)));
            assert(leaf_entry(m4, root, w) == identity_leaf(stack_window, IDENTITY_FLAGS, w, leaf_entry(m3, root, w)));
        }
        assert(s5 + segment_ranges(loaded_kernel.segments@, 0) =~= s5);
    }
    let mut k: usize = 0;
    while k < loaded_kernel.segment_count
        invariant
            memory.wf(),
            builder.wf(memory@),
            builder.region_end / 4096 <= usize::MAX,
            builder.pml4_physical_start == root,
            builder.region_end == layout.page_table_region.end,
            root == spec_page_up(layout.page_table_region.start),
            layout.page_table_region.start < layout.page_table_region.end,
            layout.page_table_region.spec_size_bytes() >= 4096,
            k <= loaded_kernel.segment_count,
            loaded_kernel.segment_count <= loaded_kernel.segments@.len(),
            forall|j: int| 0 <= j < loaded_kernel.segment_count ==> range_fits(
                (#[trigger] loaded_kernel.segments@[j]).virtual_address,
                loaded_kernel.segments@[j].physical_start,
                loaded_kernel.segments@[j].memory_size,
            ),
            forall|w: u64| #[trigger] leaf_entry(memory@, root, w) == stacked_leaf(s5 + segment_ranges(loaded_kernel.segments@, k as int), w),
            builder.next_free <= root + 4096 * (1 + ranges_tables(s5 + segment_ranges(loaded_kernel.segments@, k as int))),
            total == ranges_tables(s5 + segment_ranges(loaded_kernel.segments@, loaded_kernel.segment_count as int)),
            owed == build_owed(*boot_info, layout, *loaded_kernel, stack_pointer),
            owed ==> root + 4096 * (1 + total) <= builder.region_end,
        decreases loaded_kernel.segment_count - k,
    {
        let segment = loaded_kernel.segments[k];
        let ghost before = s5 + segment_ranges(loaded_kernel.segments@, k as int);
        proof {
            lemma_segment_tables_grow(s5, loaded_kernel.segments@, k + 1, loaded_kernel.segment_count as int);
            if segment.memory_size != 0 {
                let r = planned_range(segment.virtual_address, segment.physical_start, segment.memory_size, segment_flags(segment.flags));
                assert(s5 + segment_ranges(loaded_kernel.segments@, k + 1) =~= before.push(r));
                lemma_ranges_tables_push(before, r);
            }
        }
        if segment.memory_size != 0 {
            let mut flags = PRESENT;
            if segment.flags & ELF_FLAG_WRITABLE != 0 {
                flags = flags | WRITABLE;
            }
            if segment.flags & ELF_FLAG_EXECUTABLE == 0 {
                flags = flags | NO_EXECUTE;
            }
            let ghost mem_before = memory@;
            match builder.map_range(memory, segment.virtual_address, segment.physical_start, segment.memory_size, flags) {
                Ok(()) => {},
                Err(e) => {
                    return Err(e);
                },
            }
            proof {
                let r = planned_range(segment.virtual_address, segment.physical_start, segment.memory_size, segment_flags(segment.flags));
                assert(s5 + segment_ranges(loaded_kernel.segments@, k + 1) =~= before.push(r));
                assert forall|w: u64| #[trigger] leaf_entry(memory@, root, w) == stacked_leaf(s5 + segment_ranges(loaded_kernel.segments@, k + 1), w) by {
                    lemma_stacked_push(before, r, w);
                    assert(leaf_entry(mem_before, root, w) == stacked_leaf(before, w));
                }
            }
        } else {
            assert(s5 + segment_ranges(loaded_kernel.segments@, k + 1) =~= before);
        }
        k = k + 1;
    }
    Ok(BuiltPageTables {
        pml4_physical_start: builder.pml4_physical_start,
        pages_used: builder.pages_used,
        stack_window,
        memory_map_window,
    })
}

} // verus!
