//! Address spaces: a root table, the table frames it owns, and the kernel's
//! regions and allocation window.

use vstd::prelude::*;

use crate::memory::bitmap::{AllocatorState, BitmapAllocator};
use crate::memory::map::{AllocationResult, PageSpan, PhysAddr, PAGE_SIZE};
use crate::memory::paging::mapper::{
    fresh_leaf, frames_in_bounds, map_owed, map_range, range_mapped, request_in_bounds, request_page, spec_validate,
    PagingError,
};
use crate::memory::paging::table::{
    spec_pml4_index, EntryFlags, MappedPage, MappingRequest, KERNEL_ALLOC_BASE, KERNEL_ALLOC_LIMIT,
    KERNEL_BOOTSTRAP_ALIAS_PML4_INDEX, KERNEL_DIRECT_MAP_BASE, KERNEL_VIRT_BASE,
    PAGE_TABLE_ADDR_MASK, PAGE_TABLE_ENTRIES, PROCESS_PRIVATE_LIMIT,
};
use crate::memory::paging::table_memory::{table_entry, table_page, zero_page, TableMemory};
use crate::memory::paging::walk::{
    frame_of, index_at, lemma_isolated_walk, lemma_table_link_entry, leaf_entry, pages_sized,
    reachable, same_slots, table_at, tables_for_pages, tables_in_use, tree_shape, tree_wf,
};

verus! {

/// Every managed frame has a physical address that a table entry can hold.
pub open spec fn phys_fits_state(alloc: AllocatorState) -> bool {
    alloc.managed_page_count() * 4096 <= 0x10_0000_0000_0000
}

/// Most table spans one record or one address space keeps.
pub const MAX_OWNED_SPANS: usize = 256;
/// Most regions the kernel address space records.
pub const MAX_KERNEL_REGIONS: usize = 16;
/// Most root entries a kernel template carries.
pub const MAX_TEMPLATE_ROOT_ENTRIES: usize = 4;

#[derive(Clone, Copy, Debug, PartialEq, Eq, Structural)]
pub enum AddressSpaceKind {
    Kernel,
    Process,
}

// ---------------------------------------------------------------------------
// Allocations made on behalf of one paging operation.

/// A frame index appears as the start of one of `spans`.
pub open spec fn frame_in(spans: Seq<PageSpan>, i: int) -> bool {
    exists|k: int| 0 <= k < spans.len() && #[trigger] spans[k].start_page_index == i
}

/// `after` is `before` with each of `spans` (distinct single frames, free in
/// `before`) taken into use.
pub open spec fn allocated_pages(before: AllocatorState, after: AllocatorState, spans: Seq<PageSpan>) -> bool {
    &&& after.allocatable == before.allocatable
    &&& after.metadata_span == before.metadata_span
    &&& after.used.len() == before.used.len()
    &&& after.free_page_count + spans.len() == before.free_page_count
    &&& forall|k: int|
        0 <= k < spans.len() ==> #[trigger] spans[k] == PageSpan::spec_new(spans[k].start_page_index, 1)
            && before.is_free(spans[k].start_page_index as int)
    &&& forall|a: int, b: int|
        0 <= a < b < spans.len() ==> (#[trigger] spans[a]).start_page_index != (#[trigger] spans[b]).start_page_index
    &&& forall|i: int| 0 <= i < after.used.len() ==> #[trigger] after.used[i] == (before.used[i] || frame_in(spans, i))
}

/// Freeing `spans` from the last to the first: the state it leaves, and whether
/// every free succeeded (it stops at the first that does not).
pub open spec fn spec_rollback(st: AllocatorState, spans: Seq<PageSpan>) -> (AllocatorState, bool)
    decreases spans.len(),
{
    if spans.len() == 0 {
        (st, true)
    } else {
        let (next, result) = st.free(spans.last());
        if result is Released {
            spec_rollback(next, spans.drop_last())
        } else {
            (next, false)
        }
    }
}

/// Freeing the frames a paging operation allocated, in reverse, succeeds and gives
/// back the page states and free count from before the operation.
pub proof fn lemma_rollback_restores(before: AllocatorState, after: AllocatorState, spans: Seq<PageSpan>)
    requires
        allocated_pages(before, after, spans),
    ensures
        spec_rollback(after, spans).1,
        spec_rollback(after, spans).0.used == before.used,
        spec_rollback(after, spans).0.allocatable == before.allocatable,
        spec_rollback(after, spans).0.free_page_count == before.free_page_count,
        spec_rollback(after, spans).0.metadata_span == before.metadata_span,
    decreases spans.len(),
{
    if spans.len() == 0 {
        assert(after.used =~= before.used) by {
            assert forall|i: int| 0 <= i < after.used.len() implies after.used[i] == before.used[i] by {
                if frame_in(spans, i) {
                    let k = choose|k: int| 0 <= k < spans.len() && #[trigger] spans[k].start_page_index == i;
                }
            }
        }
    } else {
        let last = spans.last();
        let f = last.start_page_index as int;
        let k_last = spans.len() - 1;
        assert(spans[k_last] == last);
        assert(before.is_free(f));
        assert(after.used[f]) by {
            assert(frame_in(spans, f));
        }
        assert(after.can_free(last));
        let (next, result) = after.free(last);
        let rest = spans.drop_last();
        assert forall|i: int| 0 <= i < next.used.len() implies #[trigger] next.used[i] == (before.used[i] || frame_in(rest, i)) by {
            if i == f {
                assert(!before.used[i]);
                if frame_in(rest, i) {
                    let k = choose|k: int| 0 <= k < rest.len() && #[trigger] rest[k].start_page_index == i;
                    assert(spans[k].start_page_index != spans[k_last].start_page_index);
                }
            } else {
                if frame_in(spans, i) {
                    let k = choose|k: int| 0 <= k < spans.len() && #[trigger] spans[k].start_page_index == i;
                    assert(k != k_last);
                    assert(rest[k] == spans[k]);
                }
                if frame_in(rest, i) {
                    let k = choose|k: int| 0 <= k < rest.len() && #[trigger] rest[k].start_page_index == i;
                    assert(spans[k] == rest[k]);
                }
            }
        }
        assert forall|k: int| 0 <= k < rest.len() implies #[trigger] rest[k] == PageSpan::spec_new(rest[k].start_page_index, 1)
            && before.is_free(rest[k].start_page_index as int) by {
            assert(rest[k] == spans[k]);
        }
        assert forall|a: int, b: int| 0 <= a < b < rest.len() implies (#[trigger] rest[a]).start_page_index != (#[trigger] rest[b]).start_page_index by {
            assert(rest[a] == spans[a] && rest[b] == spans[b]);
        }
        lemma_rollback_restores(before, next, rest);
    }
}

/// Pages in all of `spans`.
pub open spec fn total_pages(spans: Seq<PageSpan>) -> int
    decreases spans.len(),
{
    if spans.len() == 0 {
        0
    } else {
        total_pages(spans.drop_last()) + spans.last().page_count
    }
}

/// Page `i` lies in one of `spans`.
pub open spec fn page_in(spans: Seq<PageSpan>, i: int) -> bool {
    exists|k: int| 0 <= k < spans.len() && #[trigger] spans[k].spec_contains_page(i)
}

/// `after` is `before` with each of `spans` (non-empty runs of pages free in
/// `before`, no two sharing a page) taken into use.
pub open spec fn allocated_spans(before: AllocatorState, after: AllocatorState, spans: Seq<PageSpan>) -> bool {
    &&& after.allocatable == before.allocatable
    &&& after.metadata_span == before.metadata_span
    &&& after.used.len() == before.used.len()
    &&& after.free_page_count + total_pages(spans) == before.free_page_count
    &&& forall|k: int| 0 <= k < spans.len() ==> (#[trigger] spans[k]).page_count > 0
    &&& forall|k: int, i: int| 0 <= k < spans.len() && #[trigger] spans[k].spec_contains_page(i) ==> before.is_free(i)
    &&& forall|a: int, b: int, i: int|
        0 <= a < b < spans.len() && #[trigger] spans[a].spec_contains_page(i) ==> !#[trigger] spans[b].spec_contains_page(i)
    &&& forall|i: int| 0 <= i < after.used.len() ==> #[trigger] after.used[i] == (before.used[i] || page_in(spans, i))
}

/// Freeing any runs of pages that were allocated and not freed since, the last
/// first, succeeds, and gives back the page states, and so the free count from
/// before they were taken (the count they were taken from plus their pages).
pub proof fn lemma_rollback_restores_spans(before: AllocatorState, after: AllocatorState, spans: Seq<PageSpan>)
    requires
        allocated_spans(before, after, spans),
    ensures
        spec_rollback(after, spans).1,
        spec_rollback(after, spans).0.used == before.used,
        spec_rollback(after, spans).0.allocatable == before.allocatable,
        spec_rollback(after, spans).0.metadata_span == before.metadata_span,
        spec_rollback(after, spans).0.free_page_count == before.free_page_count,
        spec_rollback(after, spans).0.free_page_count == after.free_page_count + total_pages(spans),
    decreases spans.len(),
{
    if spans.len() == 0 {
        assert(after.used =~= before.used);
    } else {
        let k_last = spans.len() - 1;
        let last = spans.last();
        let rest = spans.drop_last();
        assert(spans[k_last] == last);
        let s = last.start_page_index as int;
        let c = last.page_count as int;
        assert(last.spec_contains_page(s + c - 1));
        assert(before.is_free(s + c - 1));
        assert(after.can_free(last)) by {
            assert forall|i: int| last.start_page_index <= i < last.start_page_index + last.page_count implies #[trigger] after.allocatable[i]
                && after.used[i] by {
                assert(last.spec_contains_page(i));
                assert(before.is_free(i));
                assert(page_in(spans, i));
            }
        }
        let (next, result) = after.free(last);
        assert forall|i: int| 0 <= i < next.used.len() implies #[trigger] next.used[i] == (before.used[i] || page_in(rest, i)) by {
            if last.spec_contains_page(i) {
                assert(before.is_free(i));
                if page_in(rest, i) {
                    let k = choose|k: int| 0 <= k < rest.len() && #[trigger] rest[k].spec_contains_page(i);
                    assert(spans[k] == rest[k]);
                    assert(spans[k].spec_contains_page(i) && spans[k_last].spec_contains_page(i));
                }
            } else {
                if page_in(spans, i) {
                    let k = choose|k: int| 0 <= k < spans.len() && #[trigger] spans[k].spec_contains_page(i);
                    assert(k != k_last);
                    assert(rest[k] == spans[k]);
                }
                if page_in(rest, i) {
                    let k = choose|k: int| 0 <= k < rest.len() && #[trigger] rest[k].spec_contains_page(i);
                    assert(spans[k] == rest[k]);
                }
            }
        }
        assert forall|k: int| 0 <= k < rest.len() implies (#[trigger] rest[k]).page_count > 0 by {
            assert(rest[k] == spans[k]);
        }
        assert forall|k: int, i: int| 0 <= k < rest.len() && #[trigger] rest[k].spec_contains_page(i) implies before.is_free(i) by {
            assert(rest[k] == spans[k]);
        }
        assert forall|a: int, b: int, i: int|
            0 <= a < b < rest.len() && #[trigger] rest[a].spec_contains_page(i) implies !#[trigger] rest[b].spec_contains_page(i) by {
            assert(rest[a] == spans[a] && rest[b] == spans[b]);
        }
        lemma_rollback_restores_spans(before, next, rest);
    }
}

/// A state has taken no frames from itself.
pub proof fn lemma_allocated_nothing(st: AllocatorState)
    ensures
        allocated_pages(st, st, Seq::empty()),
{
}

/// Taking one more free frame into use extends the set of allocated pages.
pub proof fn lemma_allocated_push(before: AllocatorState, mid: AllocatorState, spans: Seq<PageSpan>)
    requires
        allocated_pages(before, mid, spans),
        mid.managed_page_count() <= usize::MAX,
        mid.allocate(1).1 is Allocated,
    ensures
        allocated_pages(before, mid.allocate(1).0, spans.push(mid.allocate(1).1->Allocated_0)),
        mid.is_free((mid.allocate(1).1->Allocated_0).start_page_index as int),
        (mid.allocate(1).1->Allocated_0) == PageSpan::spec_new((mid.allocate(1).1->Allocated_0).start_page_index, 1),
        !mid.allocate(1).0.is_free((mid.allocate(1).1->Allocated_0).start_page_index as int),
        forall|i: int| #[trigger] mid.allocate(1).0.is_free(i) ==> mid.is_free(i),
{
    let found = match mid.first_fit(mid.last_search_page as int, 1) {
        Some(s) => Some(s),
        None => mid.first_fit(0, 1),
    };
    let s = found->0;
    let from = if mid.first_fit(mid.last_search_page as int, 1) is Some { mid.last_search_page as int } else { 0 };
    assert(exists|t: int| mid.is_first_fit(from, 1, t));
    assert(mid.is_first_fit(from, 1, s));
    assert(mid.is_free(s));
    let after = mid.allocate(1).0;
    let span = mid.allocate(1).1->Allocated_0;
    assert((s as usize) as int == s);
    assert(span == PageSpan::spec_new(s as usize, 1));
    let spans2 = spans.push(span);
    assert(!frame_in(spans, s)) by {
        if frame_in(spans, s) {
            let k = choose|k: int| 0 <= k < spans.len() && #[trigger] spans[k].start_page_index == s;
            assert(mid.used[s]);
        }
    }
    assert(before.is_free(s)) by {
        assert(!mid.used[s]);
    }
    assert forall|k: int| 0 <= k < spans2.len() implies #[trigger] spans2[k] == PageSpan::spec_new(spans2[k].start_page_index, 1)
        && before.is_free(spans2[k].start_page_index as int) by {
        if k < spans.len() {
            assert(spans2[k] == spans[k]);
        }
    }
    assert forall|a: int, b: int| 0 <= a < b < spans2.len() implies (#[trigger] spans2[a]).start_page_index != (#[trigger] spans2[b]).start_page_index by {
        if b == spans.len() {
            assert(spans2[a] == spans[a]);
            if spans[a].start_page_index == s {
                assert(frame_in(spans, s));
            }
        } else {
            assert(spans2[a] == spans[a] && spans2[b] == spans[b]);
        }
    }
    assert forall|i: int| 0 <= i < after.used.len() implies #[trigger] after.used[i] == (before.used[i] || frame_in(spans2, i)) by {
        if frame_in(spans, i) {
            let k = choose|k: int| 0 <= k < spans.len() && #[trigger] spans[k].start_page_index == i;
            assert(spans2[k] == spans[k]);
        }
        if frame_in(spans2, i) {
            let k = choose|k: int| 0 <= k < spans2.len() && #[trigger] spans2[k].start_page_index == i;
            if k < spans.len() {
                assert(spans2[k] == spans[k]);
                assert(frame_in(spans, i));
            }
        }
        if i == s {
            assert(spans2[spans.len() as int].start_page_index == s);
        }
    }
}

/// The frames one paging operation took from the allocator, so that a failed
/// operation can give them back.
#[derive(Clone, Debug)]
pub struct PagingAllocationRecord {
    spans: Vec<PageSpan>,
    published: bool,
}

impl PagingAllocationRecord {
    pub closed spec fn spec_spans(&self) -> Seq<PageSpan> {
        self.spans@
    }

    pub closed spec fn spec_published(&self) -> bool {
        self.published
    }

    pub fn new() -> (record: Self)
        ensures
            record.spec_spans() == Seq::<PageSpan>::empty(),
            !record.spec_published(),
    {
        PagingAllocationRecord { spans: Vec::new(), published: false }
    }

    /// Remembers one more span, unless the record is full.
    pub fn push(&mut self, span: PageSpan) -> (result: Result<(), PagingError>)
        ensures
            final(self).spec_published() == old(self).spec_published(),
            old(self).spec_spans().len() >= MAX_OWNED_SPANS ==> result == Err::<(), PagingError>(PagingError::CapacityExceeded)
                && final(self).spec_spans() == old(self).spec_spans(),
            old(self).spec_spans().len() < MAX_OWNED_SPANS ==> result is Ok
                && final(self).spec_spans() == old(self).spec_spans().push(span),
    {
        if self.spans.len() >= MAX_OWNED_SPANS {
            return Err(PagingError::CapacityExceeded);
        }
        self.spans.push(span);
        Ok(())
    }

    /// Marks the operation as complete: its frames are kept.
    pub fn publish(&mut self)
        ensures
            final(self).spec_published(),
            final(self).spec_spans() == old(self).spec_spans(),
    {
        self.published = true;
    }

    /// Gives the recorded frames back to the allocator, the last first, unless the
    /// operation was published.
    pub fn rollback(&mut self, allocator: &mut BitmapAllocator) -> (result: Result<(), PagingError>)
        requires
            old(allocator).wf(),
            forall|k: int| 0 <= k < old(self).spec_spans().len() ==> (#[trigger] old(self).spec_spans()[k]).start_page_index
                + old(self).spec_spans()[k].page_count <= usize::MAX,
        ensures
            final(allocator).wf(),
            final(self).spec_published() == old(self).spec_published(),
            old(self).spec_published() ==> result is Ok && final(allocator)@ == old(allocator)@
                && final(self).spec_spans() == old(self).spec_spans(),
            !old(self).spec_published() ==> {
                let (state, ok) = spec_rollback(old(allocator)@, old(self).spec_spans());
                &&& final(allocator)@ == state
                &&& ok <==> result is Ok
                &&& result is Err ==> result == Err::<(), PagingError>(PagingError::AllocatorStateCorrupted)
                &&& ok ==> final(self).spec_spans().len() == 0
            },
    {
        if self.published {
            return Ok(());
        }
        let ghost all = self.spans@;
        assert(all == old(self).spec_spans());
        while self.spans.len() > 0
            invariant
                allocator.wf(),
                !self.published,
                !old(self).published,
                all == old(self).spec_spans(),
                forall|k: int| 0 <= k < self.spans@.len() ==> (#[trigger] self.spans@[k]).start_page_index
                    + self.spans@[k].page_count <= usize::MAX,
                spec_rollback(old(allocator)@, all) == spec_rollback(allocator@, self.spans@),
            decreases self.spans@.len(),
        {
            let ghost current = self.spans@;
            let ghost before = allocator@;
            let span = match self.spans.pop() {
                Some(span) => span,
                None => {
                    return Ok(());
                },
            };
            assert(span == current.last());
            assert(self.spans@ =~= current.drop_last());
            match allocator.free_pages(span) {
                AllocationResult::Released(_) => {},
                _ => {
                    assert(spec_rollback(before, current) == (allocator@, false));
                    return Err(PagingError::AllocatorStateCorrupted);
                },
            }
        }
        Ok(())
    }

    /// The recorded spans, in the order they were taken.
    pub fn spans(&self) -> (spans: Vec<PageSpan>)
        ensures
            spans@ == self.spec_spans(),
    {
        self.spans.clone()
    }
}

#[derive(Clone, Copy, Debug, PartialEq, Eq, Structural)]
pub struct KernelRegion {
    pub start: u64,
    pub end: u64,
    pub flags: EntryFlags,
}

/// The kernel half of the root table, for building process address spaces.
#[derive(Clone, Debug)]
pub struct KernelMappingTemplate {
    pub root_entries: Vec<(usize, u64)>,
    pub managed_phys_limit: PhysAddr,
    pub transition_alias_start: u64,
    pub transition_alias_page_count: usize,
}

impl KernelMappingTemplate {
    pub fn empty() -> (template: Self)
        ensures
            template.root_entries@ == Seq::<(usize, u64)>::empty(),
            template.managed_phys_limit == 0,
            template.transition_alias_start == 0,
            template.transition_alias_page_count == 0,
    {
        KernelMappingTemplate {
            root_entries: Vec::new(),
            managed_phys_limit: 0,
            transition_alias_start: 0,
            transition_alias_page_count: 0,
        }
    }
}

/// Kernel memory handed out from the kernel allocation window.
#[derive(Clone, Copy, Debug, PartialEq, Eq, Structural)]
pub struct KernelVirtualAllocation {
    pub virt_start_addr: u64,
    pub backing_span: PageSpan,
    pub page_count: usize,
    pub flags: EntryFlags,
}

/// Every entry of a template names a slot of a table.
pub open spec fn entries_fit(entries: Seq<(usize, u64)>) -> bool {
    forall|k: int| 0 <= k < entries.len() ==> (#[trigger] entries[k]).0 < PAGE_TABLE_ENTRIES
}

/// `page` with each of `entries` written into its slot, in order.
pub open spec fn page_with_entries(page: Seq<u64>, entries: Seq<(usize, u64)>) -> Seq<u64>
    decreases entries.len(),
{
    if entries.len() == 0 {
        page
    } else {
        page_with_entries(page, entries.drop_last()).update(entries.last().0 as int, entries.last().1)
    }
}

/// Flags of the direct map: writable, global, not executable.
pub open spec fn direct_map_flags() -> EntryFlags {
    EntryFlags::spec_from_bits(0x8000_0000_0000_0102)
}

/// Flags of the kernel image mappings: writable.
pub open spec fn kernel_image_flags() -> EntryFlags {
    EntryFlags::spec_from_bits(2)
}

/// The direct map of every managed frame.
pub open spec fn direct_map_request(managed: nat) -> MappingRequest {
    kernel_region_request(KERNEL_DIRECT_MAP_BASE, 0, managed as usize, direct_map_flags())
}

/// The kernel image at the base of the higher half.
pub open spec fn kernel_image_request(kernel_phys_start: u64, kernel_page_count: usize) -> MappingRequest {
    kernel_region_request(KERNEL_VIRT_BASE, kernel_phys_start, kernel_page_count, kernel_image_flags())
}

/// The kernel image mapped one-to-one, for the switch to the new tables.
pub open spec fn transition_alias_request(kernel_phys_start: u64, kernel_page_count: usize) -> MappingRequest {
    kernel_region_request(kernel_phys_start, kernel_phys_start, kernel_page_count, kernel_image_flags())
}

/// The three mappings of a kernel template stay within 64-bit addresses.
pub open spec fn template_in_bounds(managed: nat, kernel_phys_start: u64, kernel_page_count: usize) -> bool {
    &&& request_in_bounds(direct_map_request(managed)) && frames_in_bounds(direct_map_request(managed))
    &&& request_in_bounds(kernel_image_request(kernel_phys_start, kernel_page_count)) && frames_in_bounds(
        kernel_image_request(kernel_phys_start, kernel_page_count),
    )
    &&& request_in_bounds(transition_alias_request(kernel_phys_start, kernel_page_count)) && frames_in_bounds(
        transition_alias_request(kernel_phys_start, kernel_page_count),
    )
}

/// The leaf a kernel template's tables hold for `w`: the transition alias's, else the
/// kernel image's, else the direct map's, else none.
pub open spec fn kernel_template_leaf(managed: nat, kernel_phys_start: u64, kernel_page_count: usize, w: u64) -> Option<u64> {
    let alias = fresh_leaf(transition_alias_request(kernel_phys_start, kernel_page_count), kernel_page_count as int, w);
    let image = fresh_leaf(kernel_image_request(kernel_phys_start, kernel_page_count), kernel_page_count as int, w);
    let direct = fresh_leaf(direct_map_request(managed), managed as int, w);
    if alias is Some {
        alias
    } else if image is Some {
        image
    } else {
        direct
    }
}

/// Some page of `request` lies under root slot `slot`.
pub open spec fn request_uses_slot(request: MappingRequest, slot: int) -> bool {
    exists|k: int| 0 <= k < request.page_count && index_at(#[trigger] request_page(request, k), 0) == slot
}

/// No two pages of `request` share a page-table slot.
pub open spec fn pages_distinct(request: MappingRequest) -> bool {
    forall|j: int, k: int|
        0 <= j < k < request.page_count ==> !same_slots(#[trigger] request_page(request, j), #[trigger] request_page(request, k))
}

/// No page of `a` shares a page-table slot with a page of `b`.
pub open spec fn pages_apart(a: MappingRequest, b: MappingRequest) -> bool {
    forall|j: int, k: int|
        0 <= j < a.page_count && 0 <= k < b.page_count ==> !same_slots(#[trigger] request_page(a, j), #[trigger] request_page(b, k))
}

/// How many of the first `n` root slots a kernel template keeps: the kernel-half
/// slots, but for the transition alias's, that a page of its three mappings uses.
pub open spec fn template_slots(managed: nat, kernel_phys_start: u64, kernel_page_count: usize, n: int) -> nat
    decreases n,
{
    if n <= 0 {
        0
    } else {
        let i = n - 1;
        let used = request_uses_slot(direct_map_request(managed), i) || request_uses_slot(
            kernel_image_request(kernel_phys_start, kernel_page_count),
            i,
        ) || request_uses_slot(transition_alias_request(kernel_phys_start, kernel_page_count), i);
        template_slots(managed, kernel_phys_start, kernel_page_count, n - 1) + if used && i != KERNEL_BOOTSTRAP_ALIAS_PML4_INDEX && i
            >= spec_pml4_index(KERNEL_VIRT_BASE) {
            1nat
        } else {
            0nat
        }
    }
}

/// When building a kernel template cannot fail: the allocator has a frame for the
/// root and for every table the three mappings may create, and the kernel space may
/// own them all; the direct map and the kernel image are not empty and the image's
/// frames are page aligned; the transition alias, when it lies in the lower half,
/// stays in the private window; no two pages of the three mappings share a slot; and
/// the kernel half of the root uses no more slots than a template carries.
pub open spec fn template_owed(alloc: AllocatorState, kernel_phys_start: u64, kernel_page_count: usize) -> bool {
    let managed = alloc.managed_page_count();
    let d = direct_map_request(managed);
    let k = kernel_image_request(kernel_phys_start, kernel_page_count);
    let a = transition_alias_request(kernel_phys_start, kernel_page_count);
    let needed = 1 + tables_for_pages(d.start_virt_addr, managed as int) + tables_for_pages(k.start_virt_addr, kernel_page_count as int)
        + tables_for_pages(a.start_virt_addr, kernel_page_count as int);
    &&& phys_fits_state(alloc)
    &&& needed <= alloc.free_page_count
    &&& needed <= MAX_OWNED_SPANS
    &&& managed > 0
    &&& kernel_page_count > 0
    &&& kernel_phys_start % 4096 == 0
    &&& kernel_phys_start < KERNEL_VIRT_BASE ==> kernel_phys_start + kernel_page_count * 4096 <= PROCESS_PRIVATE_LIMIT
    &&& pages_distinct(d) && pages_distinct(k) && pages_distinct(a)
    &&& pages_apart(k, d) && pages_apart(a, d) && pages_apart(a, k)
    &&& template_slots(managed, kernel_phys_start, kernel_page_count, 512) <= MAX_TEMPLATE_ROOT_ENTRIES
}

/// The root entries a template keeps from the first `n` slots of a kernel root
/// table: the non-empty slots of the kernel half, but for the transition alias's
/// slot, in slot order.
pub open spec fn template_entries(page: Seq<u64>, n: int) -> Seq<(usize, u64)>
    decreases n,
{
    if n <= 0 {
        Seq::empty()
    } else {
        let i = n - 1;
        if page[i] != 0 && i != KERNEL_BOOTSTRAP_ALIAS_PML4_INDEX && i >= spec_pml4_index(KERNEL_VIRT_BASE) {
            template_entries(page, n - 1).push((i as usize, page[i]))
        } else {
            template_entries(page, n - 1)
        }
    }
}

proof fn lemma_template_entries_grow(page: Seq<u64>, n: int, m: int)
    requires
        n <= m,
    ensures
        template_entries(page, n).len() <= template_entries(page, m).len(),
    decreases m - n,
{
    if n < m {
        lemma_template_entries_grow(page, n, m - 1);
    }
}

/// A template keeps at most as many root entries as the slots its mappings use.
proof fn lemma_template_entries_bound(page: Seq<u64>, managed: nat, kernel_phys_start: u64, kernel_page_count: usize, n: int)
    requires
        0 <= n <= page.len(),
        forall|i: int|
            0 <= i < n && #[trigger] page[i] != 0 ==> request_uses_slot(direct_map_request(managed), i) || request_uses_slot(
                kernel_image_request(kernel_phys_start, kernel_page_count),
                i,
            ) || request_uses_slot(transition_alias_request(kernel_phys_start, kernel_page_count), i),
    ensures
        template_entries(page, n).len() <= template_slots(managed, kernel_phys_start, kernel_page_count, n),
    decreases n,
{
    if n > 0 {
        lemma_template_entries_bound(page, managed, kernel_phys_start, kernel_page_count, n - 1);
    }
}

/// The request `map_kernel_region` hands to `map_range`.
pub open spec fn kernel_region_request(virt_start: u64, phys_start: PhysAddr, page_count: usize, flags: EntryFlags) -> MappingRequest {
    MappingRequest { start_virt_addr: virt_start, target_phys_start: phys_start, page_count, flags, allow_overwrite: false }
}

/// The kernel window's next free address after a region `[start, end)` was mapped:
/// past the region when the region lies in the window, else unchanged.
pub open spec fn next_alloc_after_region(next: u64, start: u64, end: u64) -> u64 {
    if start >= KERNEL_ALLOC_BASE && end <= KERNEL_ALLOC_LIMIT && end > next {
        end
    } else {
        next
    }
}

/// One address space: its root table and the table frames it owns.
#[derive(Clone, Debug)]
pub struct AddressSpace {
    pub root_table_phys_addr: PhysAddr,
    pub root_table_virt_addr: u64,
    pub kind: AddressSpaceKind,
    pub managed_phys_limit: PhysAddr,
    pub owned_table_pages: Vec<PageSpan>,
    pub private_mapping_floor: u64,
    pub private_mapping_ceiling: u64,
    pub next_kernel_alloc_virt: u64,
    pub kernel_regions: Vec<KernelRegion>,
}

/// What `translate` finds for `v`: the leaf entry's frame plus the offset of `v`,
/// and the leaf's low flag bits and no-execute bit.
pub open spec fn spec_translate(mem: Map<u64, Seq<u64>>, root: u64, v: u64) -> Option<MappedPage> {
    match leaf_entry(mem, root, v) {
        None => None,
        Some(e) => Some(
            MappedPage {
                virt_addr: v,
                phys_addr: ((e & PAGE_TABLE_ADDR_MASK) + (v & 0xfff)) as u64,
                flags: EntryFlags::spec_from_bits(e & 0x8000_0000_0000_0fff),
            },
        ),
    }
}

impl AddressSpace {
    /// The recorded kernel regions as (start, end, flags).
    pub open spec fn spec_kernel_regions(&self) -> Seq<(u64, u64, EntryFlags)> {
        self.kernel_regions@.map_values(|r: KernelRegion| (r.start, r.end, r.flags))
    }

    /// An empty space of the given kind rooted at `root`, owning `root_span`.
    pub open spec fn spec_fresh(root_span: PageSpan, kind: AddressSpaceKind, managed_phys_limit: u64, space: AddressSpace) -> bool {
        &&& space.root_table_phys_addr == root_span.start_phys_addr
        &&& space.root_table_virt_addr == root_span.start_phys_addr
        &&& space.kind == kind
        &&& space.managed_phys_limit == managed_phys_limit
        &&& space.owned_table_pages@ == seq![root_span]
        &&& space.private_mapping_floor == 0
        &&& space.private_mapping_ceiling == PROCESS_PRIVATE_LIMIT
        &&& space.next_kernel_alloc_virt == KERNEL_ALLOC_BASE
        &&& space.kernel_regions@.len() == 0
    }

    pub fn translate(&self, memory: &TableMemory, virt_addr: u64) -> (page: Option<MappedPage>)
        requires
            memory.wf(),
        ensures
            page == spec_translate(memory@, self.root_table_phys_addr, virt_addr),
    {
        let indexes = crate::memory::paging::table::VirtualAddressLayout::indexes(virt_addr);
        let mut table_phys = self.root_table_phys_addr;
        let ghost root = self.root_table_phys_addr;
        let ghost mem = memory@;
        let mut depth: usize = 0;
        proof {
            crate::memory::paging::walk::lemma_index_bounds(virt_addr);
        }
        while depth < 3
            invariant
                memory.wf(),
                mem == memory@,
                root == self.root_table_phys_addr,
                depth <= 3,
                indexes@ == crate::memory::paging::table::spec_indexes(virt_addr),
                crate::memory::paging::walk::table_at(mem, root, virt_addr, depth as nat) == Some(table_phys),
            decreases 3 - depth,
        {
            let index = indexes[depth];
            proof {
                crate::memory::paging::walk::lemma_index_bounds(virt_addr);
                crate::memory::paging::walk::lemma_indexes_at(virt_addr, depth as int);
                assert(index == indexes@[depth as int]);
                assert(index as int == crate::memory::paging::walk::index_at(virt_addr, depth as int));
            }
            let entry = self.read_table_entry(memory, table_phys, index);
            if entry == 0 {
                proof {
                    assert(table_entry(mem, table_phys, crate::memory::paging::walk::index_at(virt_addr, depth as int)) == 0);
                    lemma_walk_stops(mem, root, virt_addr, depth as nat);
                    assert(leaf_entry(mem, root, virt_addr) is None);
                    assert(spec_translate(mem, root, virt_addr) is None);
                }
                return None;
            }
            table_phys = entry & PAGE_TABLE_ADDR_MASK;
            depth = depth + 1;
        }
        let index = indexes[3];
        proof {
            crate::memory::paging::walk::lemma_indexes_at(virt_addr, 3);
            assert(index == indexes@[3]);
            assert(index as int == crate::memory::paging::walk::index_at(virt_addr, 3));
        }
        let entry = self.read_table_entry(memory, table_phys, index);
        if entry == 0 {
            return None;
        }
        let offset = crate::memory::paging::table::VirtualAddressLayout::page_offset(virt_addr);
        assert((entry & 0x000f_ffff_ffff_f000u64) <= 0x000f_ffff_ffff_f000u64) by (bit_vector);
        let flags_bits = entry & 0x8000_0000_0000_0fffu64;
        Some(MappedPage {
            virt_addr,
            phys_addr: (entry & PAGE_TABLE_ADDR_MASK) + offset as u64,
            flags: EntryFlags::from_bits(flags_bits),
        })
    }

    /// Reads entry `index` of the table at `table_phys`.
    pub(crate) fn read_table_entry(&self, memory: &TableMemory, table_phys: PhysAddr, index: usize) -> (entry: u64)
        requires
            memory.wf(),
            index < PAGE_TABLE_ENTRIES,
        ensures
            entry == table_entry(memory@, table_phys, index as int),
    {
        memory.read(table_phys, index)
    }

    /// Writes entry `index` of the table at `table_phys`.
    pub(crate) fn write_table_entry(
        &mut self,
        memory: &mut TableMemory,
        table_phys: PhysAddr,
        index: usize,
        value: u64,
    ) -> (result: Result<(), PagingError>)
        requires
            old(memory).wf(),
        ensures
            final(memory).wf(),
            *final(self) == *old(self),
            index >= PAGE_TABLE_ENTRIES ==> result == Err::<(), PagingError>(PagingError::CapacityExceeded)
                && final(memory)@ == old(memory)@,
            index < PAGE_TABLE_ENTRIES ==> result is Ok && final(memory)@ == old(memory)@.insert(
                table_phys,
                table_page(old(memory)@, table_phys).update(index as int, value),
            ),
    {
        if index >= PAGE_TABLE_ENTRIES {
            return Err(PagingError::CapacityExceeded);
        }
        memory.write(table_phys, index, value);
        Ok(())
    }

    /// Clears entry `index` of the table at `table_phys`.
    pub(crate) fn clear_table_entry(&mut self, memory: &mut TableMemory, table_phys: PhysAddr, index: usize)
        requires
            old(memory).wf(),
        ensures
            final(memory).wf(),
            *final(self) == *old(self),
            index >= PAGE_TABLE_ENTRIES ==> final(memory)@ == old(memory)@,
            index < PAGE_TABLE_ENTRIES ==> final(memory)@ == old(memory)@.insert(
                table_phys,
                table_page(old(memory)@, table_phys).update(index as int, 0),
            ),
    {
        if index < PAGE_TABLE_ENTRIES {
            memory.write(table_phys, index, 0);
        }
    }

    /// Takes one frame for a new table, zeroes it and records it.
    pub(crate) fn allocate_table_page(
        &mut self,
        allocator: &mut BitmapAllocator,
        record: &mut PagingAllocationRecord,
        memory: &mut TableMemory,
    ) -> (result: Result<PhysAddr, PagingError>)
        requires
            old(allocator).wf(),
            old(memory).wf(),
        ensures
            final(allocator).wf(),
            final(memory).wf(),
            *final(self) == *old(self),
            final(record).spec_published() == old(record).spec_published(),
            match old(allocator)@.allocate(1) {
                (state, AllocationResult::Allocated(span)) => {
                    &&& final(allocator)@ == state
                    &&& final(memory)@ == old(memory)@.insert(span.start_phys_addr, zero_page())
                    &&& old(record).spec_spans().len() < MAX_OWNED_SPANS ==> result == Ok::<PhysAddr, PagingError>(span.start_phys_addr)
                        && final(record).spec_spans() == old(record).spec_spans().push(span)
                    &&& old(record).spec_spans().len() >= MAX_OWNED_SPANS ==> result == Err::<PhysAddr, PagingError>(PagingError::CapacityExceeded)
                        && final(record).spec_spans() == old(record).spec_spans()
                },
                _ => {
                    &&& result == Err::<PhysAddr, PagingError>(PagingError::OutOfMemory)
                    &&& final(allocator)@ == old(allocator)@
                    &&& final(memory)@ == old(memory)@
                    &&& final(record).spec_spans() == old(record).spec_spans()
                },
            },
    {
        let span = match allocator.allocate_page() {
            AllocationResult::Allocated(span) => span,
            _ => {
                return Err(PagingError::OutOfMemory);
            },
        };
        zero_page_bytes(memory, span.start_phys_addr);
        match record.push(span) {
            Ok(()) => {},
            Err(e) => {
                return Err(e);
            },
        }
        Ok(span.start_phys_addr)
    }

    /// Adds a span to the table frames this space owns, unless it owns the most it can.
    pub(crate) fn record_owned_span(&mut self, span: PageSpan) -> (result: Result<(), PagingError>)
        ensures
            old(self).owned_table_pages@.len() >= MAX_OWNED_SPANS ==> result == Err::<(), PagingError>(PagingError::CapacityExceeded)
                && *final(self) == *old(self),
            old(self).owned_table_pages@.len() < MAX_OWNED_SPANS ==> result is Ok
                && final(self).owned_table_pages@ == old(self).owned_table_pages@.push(span),
            final(self).root_table_phys_addr == old(self).root_table_phys_addr,
            final(self).root_table_virt_addr == old(self).root_table_virt_addr,
            final(self).kind == old(self).kind,
            final(self).private_mapping_floor == old(self).private_mapping_floor,
            final(self).private_mapping_ceiling == old(self).private_mapping_ceiling,
            final(self).next_kernel_alloc_virt == old(self).next_kernel_alloc_virt,
            final(self).managed_phys_limit == old(self).managed_phys_limit,
            final(self).kernel_regions@ == old(self).kernel_regions@,
    {
        if self.owned_table_pages.len() >= MAX_OWNED_SPANS {
            return Err(PagingError::CapacityExceeded);
        }
        self.owned_table_pages.push(span);
        Ok(())
    }

    pub fn managed_phys_limit(&self) -> (limit: PhysAddr)
        ensures
            limit == self.managed_phys_limit,
    {
        self.managed_phys_limit
    }

    /// A kernel address space with a fresh, empty root table.
    pub fn new_kernel(allocator: &mut BitmapAllocator, memory: &mut TableMemory) -> (result: Result<Self, PagingError>)
        requires
            old(allocator).wf(),
            old(memory).wf(),
        ensures
            final(allocator).wf(),
            final(memory).wf(),
            match old(allocator)@.allocate(1) {
                (state, AllocationResult::Allocated(span)) => {
                    &&& final(allocator)@ == state
                    &&& final(memory)@ == old(memory)@.insert(span.start_phys_addr, zero_page())
                    &&& result matches Ok(space) && Self::spec_fresh(span, AddressSpaceKind::Kernel, 0, space)
                    &&& phys_fits_state(old(allocator)@) ==> {
                        &&& tree_wf(final(memory)@, span.start_phys_addr, final(allocator)@)
                        &&& forall|w: u64| #[trigger] leaf_entry(final(memory)@, span.start_phys_addr, w) is None
                    }
                },
                _ => {
                    &&& result == Err::<AddressSpace, PagingError>(PagingError::OutOfMemory)
                    &&& final(allocator)@ == old(allocator)@
                    &&& final(memory)@ == old(memory)@
                },
            },
    {
        let ghost alloc0 = allocator@;
        let (root_span, mut record) = match allocate_table_span(allocator, memory) {
            Ok(pair) => pair,
            Err(e) => {
                return Err(e);
            },
        };
        let mut space = AddressSpace {
            root_table_phys_addr: root_span.start_phys_addr,
            root_table_virt_addr: root_span.start_phys_addr,
            kind: AddressSpaceKind::Kernel,
            managed_phys_limit: 0,
            owned_table_pages: Vec::new(),
            private_mapping_floor: 0,
            private_mapping_ceiling: PROCESS_PRIVATE_LIMIT,
            next_kernel_alloc_virt: KERNEL_ALLOC_BASE,
            kernel_regions: Vec::new(),
        };
        match space.record_owned_span(root_span) {
            Ok(()) => {},
            Err(e) => {
                return Err(e);
            },
        }
        record.publish();
        proof {
            assert(space.owned_table_pages@ =~= seq![root_span]);
            allocator.lemma_wf_bounds();
            lemma_allocated_nothing(alloc0);
            lemma_allocated_push(alloc0, alloc0, Seq::empty());
            if phys_fits_state(alloc0) {
                lemma_table_link_entry(root_span.start_page_index as int);
                lemma_fresh_root(memory@, root_span.start_phys_addr, allocator@);
            }
        }
        Ok(space)
    }

    /// A kernel address space that maps every managed frame at the direct map, the
    /// kernel image at the base of the higher half and, one-to-one, at its physical
    /// address; and the template of its kernel half for process address spaces. It
    /// succeeds whenever `template_owed` holds.
    #[verifier::loop_isolation(false)]
    pub fn create_kernel_template(
        allocator: &mut BitmapAllocator,
        memory: &mut TableMemory,
        kernel_phys_start: PhysAddr,
        kernel_page_count: usize,
    ) -> (result: Result<(Self, KernelMappingTemplate), PagingError>)
        requires
            old(allocator).wf(),
            old(memory).wf(),
            template_in_bounds(old(allocator)@.managed_page_count(), kernel_phys_start, kernel_page_count),
        ensures
            final(allocator).wf(),
            final(memory).wf(),
            !(old(allocator)@.allocate(1).1 is Allocated) ==> {
                &&& result == Err::<(AddressSpace, KernelMappingTemplate), PagingError>(PagingError::OutOfMemory)
                &&& final(allocator)@ == old(allocator)@
                &&& final(memory)@ == old(memory)@
            },
            kernel_page_count == 0 ==> result is Err,
            kernel_phys_start % 4096 != 0 ==> result is Err,
            kernel_phys_start < KERNEL_VIRT_BASE && kernel_phys_start + kernel_page_count * 4096 > PROCESS_PRIVATE_LIMIT ==> result is Err,
            result matches Ok((kernel, template)) ==> {
                let managed = old(allocator)@.managed_page_count();
                let root_span = old(allocator)@.allocate(1).1->Allocated_0;
                let root = root_span.start_phys_addr;
                let limit = (managed * 4096) as u64;
                let direct_end = (KERNEL_DIRECT_MAP_BASE + managed * 4096) as u64;
                let image_end = (KERNEL_VIRT_BASE + kernel_page_count * 4096) as u64;
                let alias_end = (kernel_phys_start + kernel_page_count * 4096) as u64;
                &&& old(allocator)@.allocate(1).1 is Allocated
                &&& kernel.root_table_phys_addr == root
                &&& kernel.root_table_virt_addr == root
                &&& kernel.kind == AddressSpaceKind::Kernel
                &&& kernel.managed_phys_limit == limit
                &&& kernel.private_mapping_floor == 0
                &&& kernel.private_mapping_ceiling == PROCESS_PRIVATE_LIMIT
                &&& kernel.owned_table_pages@.len() >= 1 && kernel.owned_table_pages@[0] == root_span
                &&& kernel.kernel_regions@ == seq![
                    KernelRegion { start: KERNEL_DIRECT_MAP_BASE, end: direct_end, flags: direct_map_flags() },
                    KernelRegion { start: KERNEL_VIRT_BASE, end: image_end, flags: kernel_image_flags() },
                    KernelRegion { start: kernel_phys_start, end: alias_end, flags: kernel_image_flags() },
                ]
                &&& kernel.next_kernel_alloc_virt == next_alloc_after_region(
                    next_alloc_after_region(
                        next_alloc_after_region(KERNEL_ALLOC_BASE, KERNEL_DIRECT_MAP_BASE, direct_end),
                        KERNEL_VIRT_BASE,
                        image_end,
                    ),
                    kernel_phys_start,
                    alias_end,
                )
                &&& template.root_entries@ == template_entries(table_page(final(memory)@, root), 512)
                &&& template.managed_phys_limit == limit
                &&& template.transition_alias_start == kernel_phys_start
                &&& template.transition_alias_page_count == kernel_page_count
                &&& phys_fits_state(old(allocator)@) ==> {
                    &&& tree_wf(final(memory)@, root, final(allocator)@)
                    &&& forall|w: u64| #[trigger] leaf_entry(final(memory)@, root, w)
                        == kernel_template_leaf(managed, kernel_phys_start, kernel_page_count, w)
                }
            },
            template_owed(old(allocator)@, kernel_phys_start, kernel_page_count) ==> result is Ok,
    {
        let ghost alloc0 = allocator@;
        let ghost managed0 = alloc0.managed_page_count();
        let ghost owed = template_owed(alloc0, kernel_phys_start, kernel_page_count);
        let ghost td = tables_for_pages(KERNEL_DIRECT_MAP_BASE, managed0 as int);
        let ghost tk = tables_for_pages(KERNEL_VIRT_BASE, kernel_page_count as int);
        let ghost ta = tables_for_pages(kernel_phys_start, kernel_page_count as int);
        proof {
            allocator.lemma_wf_bounds();
            crate::memory::paging::walk::lemma_tables_for_pages_nonneg(KERNEL_DIRECT_MAP_BASE, managed0 as int);
            crate::memory::paging::walk::lemma_tables_for_pages_nonneg(KERNEL_VIRT_BASE, kernel_page_count as int);
            crate::memory::paging::walk::lemma_tables_for_pages_nonneg(kernel_phys_start, kernel_page_count as int);
            if owed {
                crate::memory::bitmap::lemma_allocate_one(alloc0);
            }
        }
        let mut kernel = match Self::new_kernel(allocator, memory) {
            Ok(kernel) => kernel,
            Err(e) => {
                assert(!owed);
                return Err(e);
            },
        };
        let ghost root = kernel.root_table_phys_addr;
        let ghost mem1 = memory@;
        let ghost alloc1 = allocator@;
        let managed = allocator.managed_page_count();
        proof {
            allocator.lemma_wf_bounds();
        }
        kernel.managed_phys_limit = (managed * PAGE_SIZE) as u64;
        let ghost k1 = kernel;
        let direct_flags = EntryFlags::writable() | EntryFlags::global() | EntryFlags::no_execute();
        let image_flags = EntryFlags::writable();
        proof {
            assert(direct_flags.spec_bits() == 0x8000_0000_0000_0102) by {
                assert(2u64 | 256u64 | 0x8000_0000_0000_0000u64 == 0x8000_0000_0000_0102u64) by (bit_vector);
            }
            EntryFlags::lemma_from_bits(0x8000_0000_0000_0102);
            EntryFlags::lemma_bits_determine(direct_flags, direct_map_flags());
            EntryFlags::lemma_from_bits(2);
            EntryFlags::lemma_bits_determine(image_flags, kernel_image_flags());
        }
        let ghost dreq = direct_map_request(managed0);
        let ghost kreq = kernel_image_request(kernel_phys_start, kernel_page_count);
        let ghost areq = transition_alias_request(kernel_phys_start, kernel_page_count);
        proof {
            if owed {
                assert(alloc1.free_page_count == alloc0.free_page_count - 1);
                assert(alloc1.managed_page_count() == managed0);
                assert(map_owed(k1, alloc1, mem1, dreq));
            }
        }
        match kernel.map_kernel_region(allocator, memory, KERNEL_DIRECT_MAP_BASE, 0, managed, direct_flags) {
            Ok(()) => {},
            Err(e) => {
                assert(!owed);
                return Err(e);
            },
        }
        let ghost mem2 = memory@;
        let ghost alloc2 = allocator@;
        let ghost k2 = kernel;
        proof {
            if owed {
                assert(range_mapped(k1, k2, alloc1, alloc2, mem1, mem2, dreq, Ok(())));
                let spans2 = k2.owned_table_pages@.subrange(1, k2.owned_table_pages@.len() as int);
                assert(allocated_pages(alloc1, alloc2, spans2));
                assert forall|j: int| 0 <= j < kernel_page_count implies leaf_entry(mem2, root, #[trigger] request_page(kreq, j)) is None by {
                    crate::memory::paging::mapper::lemma_mapped_leaf_untouched(mem1, root, dreq, managed0 as int, request_page(kreq, j));
                    assert(leaf_entry(mem2, root, request_page(kreq, j)) == crate::memory::paging::mapper::mapped_leaf(mem1, root, dreq, managed0 as int, request_page(kreq, j)));
                }
                assert(map_owed(k2, alloc2, mem2, kreq));
            }
        }
        match kernel.map_kernel_region(allocator, memory, KERNEL_VIRT_BASE, kernel_phys_start, kernel_page_count, image_flags) {
            Ok(()) => {},
            Err(e) => {
                assert(!owed);
                return Err(e);
            },
        }
        let ghost mem3 = memory@;
        let ghost alloc3 = allocator@;
        let ghost k3 = kernel;
        proof {
            if owed {
                assert(range_mapped(k2, k3, alloc2, alloc3, mem2, mem3, kreq, Ok(())));
                let spans3 = k3.owned_table_pages@.subrange(k2.owned_table_pages@.len() as int, k3.owned_table_pages@.len() as int);
                assert(allocated_pages(alloc2, alloc3, spans3));
                assert forall|j: int| 0 <= j < kernel_page_count implies leaf_entry(mem3, root, #[trigger] request_page(areq, j)) is None by {
                    let w = request_page(areq, j);
                    crate::memory::paging::mapper::lemma_mapped_leaf_untouched(mem2, root, kreq, kernel_page_count as int, w);
                    crate::memory::paging::mapper::lemma_mapped_leaf_untouched(mem1, root, dreq, managed0 as int, w);
                    assert(leaf_entry(mem3, root, w) == crate::memory::paging::mapper::mapped_leaf(mem2, root, kreq, kernel_page_count as int, w));
                    assert(leaf_entry(mem2, root, w) == crate::memory::paging::mapper::mapped_leaf(mem1, root, dreq, managed0 as int, w));
                }
                assert(map_owed(k3, alloc3, mem3, areq));
            }
        }
        let alias_start = kernel_phys_start;
        match kernel.map_kernel_region(allocator, memory, alias_start, kernel_phys_start, kernel_page_count, image_flags) {
            Ok(()) => {},
            Err(e) => {
                assert(!owed);
                return Err(e);
            },
        }
        proof {
            assert(range_mapped(k1, k2, alloc1, alloc2, mem1, mem2, dreq, Ok(())));
            assert(range_mapped(k2, k3, alloc2, alloc3, mem2, mem3, kreq, Ok(())));
            assert(range_mapped(k3, kernel, alloc3, allocator@, mem3, memory@, areq, Ok(())));
            assert(k2.owned_table_pages@.subrange(0, k1.owned_table_pages@.len() as int)[0] == k2.owned_table_pages@[0]);
            assert(k3.owned_table_pages@.subrange(0, k2.owned_table_pages@.len() as int)[0] == k3.owned_table_pages@[0]);
            assert(kernel.owned_table_pages@.subrange(0, k3.owned_table_pages@.len() as int)[0] == kernel.owned_table_pages@[0]);
            if phys_fits_state(alloc0) {
                assert forall|w: u64| #[trigger] leaf_entry(memory@, root, w)
                    == kernel_template_leaf(managed0, kernel_phys_start, kernel_page_count, w) by {
                    assert(leaf_entry(mem1, root, w) is None);
                    crate::memory::paging::mapper::lemma_mapped_leaf_fresh(mem1, root, dreq, managed0 as int, w);
                    crate::memory::paging::mapper::lemma_mapped_leaf_fresh(mem2, root, kreq, kernel_page_count as int, w);
                    crate::memory::paging::mapper::lemma_mapped_leaf_fresh(mem3, root, areq, kernel_page_count as int, w);
                    assert(leaf_entry(mem2, root, w) == crate::memory::paging::mapper::mapped_leaf(mem1, root, dreq, managed0 as int, w));
                    assert(leaf_entry(mem3, root, w) == crate::memory::paging::mapper::mapped_leaf(mem2, root, kreq, kernel_page_count as int, w));
                    assert(leaf_entry(memory@, root, w) == crate::memory::paging::mapper::mapped_leaf(mem3, root, areq, kernel_page_count as int, w));
                }
            }
        }
        let mut template = KernelMappingTemplate::empty();
        template.managed_phys_limit = kernel.managed_phys_limit;
        let kernel_slot = crate::memory::paging::table::VirtualAddressLayout::pml4_index(KERNEL_VIRT_BASE);
        let ghost page = table_page(memory@, root);
        proof {
            memory.lemma_pages_sized();
            assert(page.len() == 512);
            if owed {
                let final_mem = memory@;
                assert(crate::memory::paging::mapper::root_slots_kept(mem1, mem2, root, dreq, managed0 as int));
                assert(crate::memory::paging::mapper::root_slots_kept(mem2, mem3, root, kreq, kernel_page_count as int));
                assert(crate::memory::paging::mapper::root_slots_kept(mem3, final_mem, root, areq, kernel_page_count as int));
                assert forall|i: int| 0 <= i < 512 && #[trigger] page[i] != 0 implies request_uses_slot(dreq, i) || request_uses_slot(kreq, i)
                    || request_uses_slot(areq, i) by {
                    assert(page[i] == crate::memory::paging::table_memory::table_entry(final_mem, root, i));
                    assert(crate::memory::paging::table_memory::table_entry(mem1, root, i) == 0);
                    if !request_uses_slot(dreq, i) && !request_uses_slot(kreq, i) && !request_uses_slot(areq, i) {
                        assert(forall|k: int| 0 <= k < managed0 ==> i != index_at(#[trigger] request_page(dreq, k), 0));
                        assert(forall|k: int| 0 <= k < kernel_page_count ==> i != index_at(#[trigger] request_page(kreq, k), 0));
                        assert(forall|k: int| 0 <= k < kernel_page_count ==> i != index_at(#[trigger] request_page(areq, k), 0));
                    }
                }
                lemma_template_entries_bound(page, managed0, kernel_phys_start, kernel_page_count, 512);
            }
        }
        let mut entry: usize = 0;
        while entry < PAGE_TABLE_ENTRIES
            invariant
                memory.wf(),
                entry <= PAGE_TABLE_ENTRIES,
                root == kernel.root_table_phys_addr,
                page == table_page(memory@, root),
                kernel_slot == spec_pml4_index(KERNEL_VIRT_BASE),
                template.root_entries@ == template_entries(page, entry as int),
                template.root_entries@.len() <= MAX_TEMPLATE_ROOT_ENTRIES,
                template.managed_phys_limit == kernel.managed_phys_limit,
            decreases PAGE_TABLE_ENTRIES - entry,
        {
            let value = kernel.read_table_entry(memory, kernel.root_table_phys_addr, entry);
            assert(value == page[entry as int]);
            if value != 0 && entry != KERNEL_BOOTSTRAP_ALIAS_PML4_INDEX && entry >= kernel_slot {
                if template.root_entries.len() >= MAX_TEMPLATE_ROOT_ENTRIES {
                    proof {
                        lemma_template_entries_grow(page, entry + 1, 512);
                        assert(template_entries(page, entry + 1).len() == template_entries(page, entry as int).len() + 1);
                    }
                    return Err(PagingError::CapacityExceeded);
                }
                template.root_entries.push((entry, value));
            }
            entry = entry + 1;
        }
        template.transition_alias_start = alias_start;
        template.transition_alias_page_count = kernel_page_count;
        Ok((kernel, template))
    }

    /// A process address space whose root table holds the template's kernel entries
    /// and nothing else.
    pub fn from_kernel_template(
        allocator: &mut BitmapAllocator,
        memory: &mut TableMemory,
        template: &KernelMappingTemplate,
    ) -> (result: Result<Self, PagingError>)
        requires
            old(allocator).wf(),
            old(memory).wf(),
        ensures
            final(allocator).wf(),
            final(memory).wf(),
            match old(allocator)@.allocate(1) {
                (taken, AllocationResult::Allocated(root_span)) => {
                    let root = root_span.start_phys_addr;
                    &&& final(allocator)@ == taken
                    &&& entries_fit(template.root_entries@) ==> {
                        &&& result matches Ok(space) && Self::spec_fresh(
                            root_span,
                            AddressSpaceKind::Process,
                            template.managed_phys_limit,
                            space,
                        )
                        &&& final(memory)@ == old(memory)@.insert(root, page_with_entries(zero_page(), template.root_entries@))
                    }
                    &&& !entries_fit(template.root_entries@) ==> {
                        &&& result == Err::<AddressSpace, PagingError>(PagingError::CapacityExceeded)
                        &&& final(memory)@.remove(root) == old(memory)@.remove(root)
                    }
                },
                _ => {
                    &&& result == Err::<AddressSpace, PagingError>(PagingError::OutOfMemory)
                    &&& final(allocator)@ == old(allocator)@
                    &&& final(memory)@ == old(memory)@
                },
            },
    {
        let (root_span, mut record) = match allocate_table_span(allocator, memory) {
            Ok(pair) => pair,
            Err(e) => {
                return Err(e);
            },
        };
        let root = root_span.start_phys_addr;
        let ghost mem_root = memory@;
        let ghost taken = allocator@;
        let mut space = AddressSpace {
            root_table_phys_addr: root,
            root_table_virt_addr: root,
            kind: AddressSpaceKind::Process,
            managed_phys_limit: template.managed_phys_limit,
            owned_table_pages: Vec::new(),
            private_mapping_floor: 0,
            private_mapping_ceiling: PROCESS_PRIVATE_LIMIT,
            next_kernel_alloc_virt: KERNEL_ALLOC_BASE,
            kernel_regions: Vec::new(),
        };
        match space.record_owned_span(root_span) {
            Ok(()) => {},
            Err(e) => {
                return Err(e);
            },
        }
        assert(space.owned_table_pages@ =~= seq![root_span]);
        let ghost entries = template.root_entries@;
        let mut k: usize = 0;
        while k < template.root_entries.len()
            invariant
                memory.wf(),
                allocator.wf(),
                allocator@ == taken,
                taken == old(allocator)@.allocate(1).0,
                old(allocator)@.allocate(1).1 == AllocationResult::Allocated(root_span),
                root == root_span.start_phys_addr,
                mem_root == old(memory)@.insert(root, zero_page()),
                k <= entries.len(),
                entries == template.root_entries@,
                root == space.root_table_phys_addr,
                Self::spec_fresh(root_span, AddressSpaceKind::Process, template.managed_phys_limit, space),
                entries_fit(entries.take(k as int)),
                memory@ == mem_root.insert(root, page_with_entries(zero_page(), entries.take(k as int))),
            decreases entries.len() - k,
        {
            let (index, value) = template.root_entries[k];
            let ghost before = memory@;
            proof {
                assert(entries.take(k + 1).drop_last() =~= entries.take(k as int));
                assert(entries.take(k + 1).last() == (index, value));
            }
            match space.write_table_entry(memory, root, index, value) {
                Ok(()) => {},
                Err(e) => {
                    proof {
                        assert(!entries_fit(entries)) by {
                            assert(entries[k as int].0 >= PAGE_TABLE_ENTRIES);
                        }
                        assert(memory@.remove(root) =~= old(memory)@.remove(root));
                    }
                    return Err(e);
                },
            }
            proof {
                assert(table_page(before, root) == page_with_entries(zero_page(), entries.take(k as int)));
                assert forall|j: int| 0 <= j < k + 1 implies (#[trigger] entries.take(k + 1)[j]).0 < PAGE_TABLE_ENTRIES by {
                    if j < k {
                        assert(entries.take(k + 1)[j] == entries.take(k as int)[j]);
                    }
                }
            }
            k = k + 1;
        }
        record.publish();
        assert(entries.take(k as int) =~= entries);
        Ok(space)
    }

    /// Maps `page_count` kernel pages from `virt_start` onto frames from `phys_start`
    /// and records the region; a region that lies in the kernel allocation window
    /// moves the window's next free address past it.
    pub fn map_kernel_region(
        &mut self,
        allocator: &mut BitmapAllocator,
        memory: &mut TableMemory,
        virt_start: u64,
        phys_start: PhysAddr,
        page_count: usize,
        flags: EntryFlags,
    ) -> (result: Result<(), PagingError>)
        requires
            old(allocator).wf(),
            old(memory).wf(),
            request_in_bounds(kernel_region_request(virt_start, phys_start, page_count, flags)),
            old(self).kernel_regions@.len() < MAX_KERNEL_REGIONS && spec_validate(
                *old(self),
                kernel_region_request(virt_start, phys_start, page_count, flags),
            ) is Ok ==> frames_in_bounds(kernel_region_request(virt_start, phys_start, page_count, flags)),
        ensures
            final(allocator).wf(),
            final(memory).wf(),
            old(self).kernel_regions@.len() >= MAX_KERNEL_REGIONS ==> {
                &&& result == Err::<(), PagingError>(PagingError::CapacityExceeded)
                &&& *final(self) == *old(self)
                &&& final(allocator)@ == old(allocator)@
                &&& final(memory)@ == old(memory)@
            },
            old(self).kernel_regions@.len() < MAX_KERNEL_REGIONS ==> {
                let request = kernel_region_request(virt_start, phys_start, page_count, flags);
                let end = (virt_start + page_count * 4096) as u64;
                &&& range_mapped(*old(self), *final(self), old(allocator)@, final(allocator)@, old(memory)@, final(memory)@, request, result)
                &&& map_owed(*old(self), old(allocator)@, old(memory)@, request) ==> result is Ok
                &&& result is Err ==> final(self).kernel_regions@ == old(self).kernel_regions@
                    && final(self).next_kernel_alloc_virt == old(self).next_kernel_alloc_virt
                &&& result is Ok ==> final(self).kernel_regions@ == old(self).kernel_regions@.push(
                    KernelRegion { start: virt_start, end, flags },
                ) && final(self).next_kernel_alloc_virt == next_alloc_after_region(old(self).next_kernel_alloc_virt, virt_start, end)
            },
    {
        if self.kernel_regions.len() >= MAX_KERNEL_REGIONS {
            return Err(PagingError::CapacityExceeded);
        }
        let request = MappingRequest {
            start_virt_addr: virt_start,
            target_phys_start: phys_start,
            page_count,
            flags,
            allow_overwrite: false,
        };
        match map_range(self, allocator, memory, request) {
            Ok(()) => {},
            Err(e) => {
                return Err(e);
            },
        }
        let region_end = virt_start + (page_count * PAGE_SIZE) as u64;
        self.kernel_regions.push(KernelRegion { start: virt_start, end: region_end, flags });
        if virt_start >= KERNEL_ALLOC_BASE && region_end <= KERNEL_ALLOC_LIMIT {
            if region_end > self.next_kernel_alloc_virt {
                self.next_kernel_alloc_virt = region_end;
            }
        }
        Ok(())
    }

    /// Takes `page_count` frames and maps them at the kernel window's next free
    /// address. When the window has no room, or mapping fails, the frames go back to
    /// the allocator.
    pub fn allocate_kernel_virtual(
        &mut self,
        allocator: &mut BitmapAllocator,
        memory: &mut TableMemory,
        page_count: usize,
        flags: EntryFlags,
    ) -> (result: Result<KernelVirtualAllocation, PagingError>)
        requires
            old(allocator).wf(),
            old(memory).wf(),
        ensures
            final(allocator).wf(),
            final(memory).wf(),
            match old(allocator)@.allocate(page_count as int) {
                (taken, AllocationResult::Allocated(span)) => {
                    let start = old(self).next_kernel_alloc_virt;
                    let request = MappingRequest {
                        start_virt_addr: start,
                        target_phys_start: span.start_phys_addr,
                        page_count,
                        flags,
                        allow_overwrite: false,
                    };
                    if start + page_count * 4096 > KERNEL_ALLOC_LIMIT {
                        &&& result == Err::<KernelVirtualAllocation, PagingError>(PagingError::AddressOutOfRange)
                        &&& *final(self) == *old(self)
                        &&& final(memory)@ == old(memory)@
                        &&& final(allocator)@ == taken.free(span).0
                    } else {
                        &&& final(self).kernel_regions@ == old(self).kernel_regions@
                        &&& map_owed(*old(self), taken, old(memory)@, request) ==> result is Ok
                        &&& result is Ok ==> {
                            &&& result == Ok::<KernelVirtualAllocation, PagingError>(
                                KernelVirtualAllocation { virt_start_addr: start, backing_span: span, page_count, flags },
                            )
                            &&& final(self).next_kernel_alloc_virt == start + page_count * 4096
                            &&& range_mapped(*old(self), *final(self), taken, final(allocator)@, old(memory)@, final(memory)@, request, Ok(()))
                        }
                        &&& result is Err ==> {
                            &&& final(self).next_kernel_alloc_virt == start
                            &&& exists|mid: AllocatorState, err: PagingError| {
                                &&& #[trigger] range_mapped(*old(self), *final(self), taken, mid, old(memory)@, final(memory)@, request, Err(err))
                                &&& final(allocator)@ == mid.free(span).0
                                &&& result == if mid.free(span).1 is Released {
                                    Err::<KernelVirtualAllocation, PagingError>(err)
                                } else {
                                    Err::<KernelVirtualAllocation, PagingError>(PagingError::AllocatorStateCorrupted)
                                }
                            }
                        }
                    }
                },
                _ => {
                    &&& result == Err::<KernelVirtualAllocation, PagingError>(PagingError::OutOfMemory)
                    &&& *final(self) == *old(self)
                    &&& final(allocator)@ == old(allocator)@
                    &&& final(memory)@ == old(memory)@
                },
            },
            result is Err && result != Err::<KernelVirtualAllocation, PagingError>(PagingError::CapacityExceeded)
                && result != Err::<KernelVirtualAllocation, PagingError>(PagingError::AllocatorStateCorrupted) ==> {
                &&& final(allocator)@.used == old(allocator)@.used
                &&& final(allocator)@.allocatable == old(allocator)@.allocatable
                &&& final(allocator)@.free_page_count == old(allocator)@.free_page_count
                &&& final(allocator)@.metadata_span == old(allocator)@.metadata_span
            },
    {
        let ghost alloc0 = allocator@;
        proof {
            allocator.lemma_wf_bounds();
            crate::memory::bitmap::lemma_allocate_then_free(alloc0, page_count);
        }
        let backing_span = match allocator.allocate_pages(page_count) {
            AllocationResult::Allocated(span) => span,
            _ => {
                return Err(PagingError::OutOfMemory);
            },
        };
        let ghost taken = allocator@;
        let virt_start = self.next_kernel_alloc_virt;
        let size = (page_count * PAGE_SIZE) as u64;
        let fits = match virt_start.checked_add(size) {
            Some(end) => end <= KERNEL_ALLOC_LIMIT,
            None => false,
        };
        if !fits {
            match allocator.free_pages(backing_span) {
                AllocationResult::Released(_) => {},
                _ => {
                    return Err(PagingError::AllocatorStateCorrupted);
                },
            }
            return Err(PagingError::AddressOutOfRange);
        }
        let request = MappingRequest {
            start_virt_addr: virt_start,
            target_phys_start: backing_span.start_phys_addr,
            page_count,
            flags,
            allow_overwrite: false,
        };
        let ghost space0 = *self;
        let ghost mem0 = memory@;
        match map_range(self, allocator, memory, request) {
            Ok(()) => {
                self.next_kernel_alloc_virt = virt_start + size;
                Ok(KernelVirtualAllocation { virt_start_addr: virt_start, backing_span, page_count, flags })
            },
            Err(err) => {
                let ghost mid = allocator@;
                proof {
                    assert(range_mapped(space0, *self, taken, mid, mem0, memory@, request, Err(err)));
                    if err != PagingError::CapacityExceeded {
                        assert(mid.free(backing_span).0.used =~= taken.free(backing_span).0.used);
                    }
                }
                match allocator.free_pages(backing_span) {
                    AllocationResult::Released(_) => Err(err),
                    _ => Err(PagingError::AllocatorStateCorrupted),
                }
            },
        }
    }

    /// Frees every table frame the space owns, the last recorded first; stops with
    /// `AllocatorStateCorrupted` at the first frame the allocator refuses.
    pub fn destroy(&mut self, allocator: &mut BitmapAllocator) -> (result: Result<(), PagingError>)
        requires
            old(allocator).wf(),
            forall|k: int| 0 <= k < old(self).owned_table_pages@.len() ==> (#[trigger] old(self).owned_table_pages@[k]).start_page_index
                + old(self).owned_table_pages@[k].page_count <= usize::MAX,
        ensures
            final(allocator).wf(),
            ({
                let (state, ok) = spec_rollback(old(allocator)@, old(self).owned_table_pages@);
                &&& final(allocator)@ == state
                &&& ok <==> result is Ok
                &&& result is Err ==> result == Err::<(), PagingError>(PagingError::AllocatorStateCorrupted)
                &&& ok ==> final(self).owned_table_pages@.len() == 0
            }),
            final(self).root_table_phys_addr == old(self).root_table_phys_addr,
            final(self).kind == old(self).kind,
            final(self).kernel_regions@ == old(self).kernel_regions@,
    {
        let ghost all = self.owned_table_pages@;
        while self.owned_table_pages.len() > 0
            invariant
                allocator.wf(),
                all == old(self).owned_table_pages@,
                forall|k: int| 0 <= k < self.owned_table_pages@.len() ==> (#[trigger] self.owned_table_pages@[k]).start_page_index
                    + self.owned_table_pages@[k].page_count <= usize::MAX,
                spec_rollback(old(allocator)@, all) == spec_rollback(allocator@, self.owned_table_pages@),
                self.root_table_phys_addr == old(self).root_table_phys_addr,
                self.kind == old(self).kind,
                self.kernel_regions@ == old(self).kernel_regions@,
            decreases self.owned_table_pages@.len(),
        {
            let ghost current = self.owned_table_pages@;
            let ghost before = allocator@;
            let span = match self.owned_table_pages.pop() {
                Some(span) => span,
                None => {
                    return Ok(());
                },
            };
            assert(span == current.last());
            assert(self.owned_table_pages@ =~= current.drop_last());
            match allocator.free_pages(span) {
                AllocationResult::Released(_) => {},
                _ => {
                    assert(spec_rollback(before, current) == (allocator@, false));
                    return Err(PagingError::AllocatorStateCorrupted);
                },
            }
        }
        Ok(())
    }

    /// The recorded kernel regions as (start, end, flags), in the order they were mapped.
    pub fn kernel_regions(&self) -> (regions: Vec<(u64, u64, EntryFlags)>)
        ensures
            regions@ == self.spec_kernel_regions(),
    {
        let mut regions: Vec<(u64, u64, EntryFlags)> = Vec::new();
        let mut k: usize = 0;
        while k < self.kernel_regions.len()
            invariant
                k <= self.kernel_regions@.len(),
                regions@ == self.kernel_regions@.subrange(0, k as int).map_values(|r: KernelRegion| (r.start, r.end, r.flags)),
            decreases self.kernel_regions@.len() - k,
        {
            let region = self.kernel_regions[k];
            regions.push((region.start, region.end, region.flags));
            proof {
                assert(self.kernel_regions@.subrange(0, k + 1) =~= self.kernel_regions@.subrange(0, k as int).push(region));
                assert(regions@ =~= self.kernel_regions@.subrange(0, k + 1).map_values(|r: KernelRegion| (r.start, r.end, r.flags)));
            }
            k = k + 1;
        }
        assert(self.kernel_regions@.subrange(0, k as int) =~= self.kernel_regions@);
        regions
    }
}

/// A freshly zeroed root in a frame in use is a tree that maps nothing.
pub proof fn lemma_fresh_root(mem: Map<u64, Seq<u64>>, root: u64, alloc: AllocatorState)
    requires
        table_page(mem, root) == zero_page(),
        !alloc.is_free(frame_of(root)),
    ensures
        tree_wf(mem, root, alloc),
        forall|w: u64| #[trigger] leaf_entry(mem, root, w) is None,
        forall|w: u64, l: nat| 1 <= l <= 3 ==> #[trigger] table_at(mem, root, w, l) is None,
{
    assert forall|w: u64, l: nat| 1 <= l <= 3 implies #[trigger] table_at(mem, root, w, l) is None by {
        crate::memory::paging::walk::lemma_index_bounds(w);
        let i = crate::memory::paging::walk::index_at(w, 0);
        assert(zero_page()[i] == 0);
        assert(table_entry(mem, root, i) == 0);
        assert(table_at(mem, root, w, 0) == Some(root));
        assert(table_at(mem, root, w, 1) is None);
        if l >= 2 {
            assert(table_at(mem, root, w, 2) is None);
        }
        if l >= 3 {
            assert(table_at(mem, root, w, 3) is None);
        }
    }
    assert forall|w: u64| #[trigger] leaf_entry(mem, root, w) is None by {
        assert(table_at(mem, root, w, 3) is None);
    }
    assert forall|v: u64, l: nat| l <= 3 && #[trigger] table_at(mem, root, v, l) is Some implies !alloc.is_free(
        frame_of(table_at(mem, root, v, l)->0)) by {
        if l >= 1 {
            assert(table_at(mem, root, v, l) is None);
        }
    }
    assert forall|v: u64, w: u64, l: nat, m: nat|
        l <= 3 && m <= 3 && #[trigger] table_at(mem, root, v, l) is Some && table_at(mem, root, v, l)
            == #[trigger] table_at(mem, root, w, m) implies l == m by {
        if l >= 1 {
            assert(table_at(mem, root, v, l) is None);
        }
        if m >= 1 {
            assert(table_at(mem, root, w, m) is None);
        }
    }
    assert forall|v: u64, w: u64, l: nat|
        l <= 3 && #[trigger] table_at(mem, root, v, l) is Some && table_at(mem, root, v, l)
            == #[trigger] table_at(mem, root, w, l) implies crate::memory::paging::walk::same_prefix(v, w, l as int) by {
        if l >= 1 {
            assert(table_at(mem, root, v, l) is None);
        }
    }
}

/// Takes one frame for a root table, zeroes it, and starts a record with it.
fn allocate_table_span(allocator: &mut BitmapAllocator, memory: &mut TableMemory) -> (result: Result<(PageSpan, PagingAllocationRecord), PagingError>)
    requires
        old(allocator).wf(),
        old(memory).wf(),
    ensures
        final(allocator).wf(),
        final(memory).wf(),
        match old(allocator)@.allocate(1) {
            (state, AllocationResult::Allocated(span)) => {
                &&& final(allocator)@ == state
                &&& final(memory)@ == old(memory)@.insert(span.start_phys_addr, zero_page())
                &&& result matches Ok((s, record)) && s == span && record.spec_spans() == seq![span] && !record.spec_published()
            },
            _ => {
                &&& result == Err::<(PageSpan, PagingAllocationRecord), PagingError>(PagingError::OutOfMemory)
                &&& final(allocator)@ == old(allocator)@
                &&& final(memory)@ == old(memory)@
            },
        },
{
    let span = match allocator.allocate_page() {
        AllocationResult::Allocated(span) => span,
        _ => {
            return Err(PagingError::OutOfMemory);
        },
    };
    zero_page_bytes(memory, span.start_phys_addr);
    let mut record = PagingAllocationRecord::new();
    match record.push(span) {
        Ok(()) => {},
        Err(e) => {
            return Err(e);
        },
    }
    assert(record.spec_spans() =~= seq![span]);
    Ok((span, record))
}

/// Fills the table frame at `phys_addr` with zero entries.
fn zero_page_bytes(memory: &mut TableMemory, phys_addr: PhysAddr)
    requires
        old(memory).wf(),
    ensures
        final(memory).wf(),
        final(memory)@ == old(memory)@.insert(phys_addr, zero_page()),
{
    memory.zero(phys_addr);
}

/// A walk that meets an empty entry above the leaves reaches no leaf.
pub proof fn lemma_walk_stops(mem: Map<u64, Seq<u64>>, root: u64, v: u64, depth: nat)
    requires
        depth < 3,
        crate::memory::paging::walk::table_at(mem, root, v, depth) matches Some(t) && table_entry(mem, t, crate::memory::paging::walk::index_at(v, depth as int)) == 0,
    ensures
        leaf_entry(mem, root, v) is None,
    decreases 3 - depth,
{
    assert(crate::memory::paging::walk::table_at(mem, root, v, depth + 1) is None);
    if depth + 1 < 3 {
        assert(crate::memory::paging::walk::table_at(mem, root, v, depth + 2) is None);
    }
    if depth + 2 < 3 {
        assert(crate::memory::paging::walk::table_at(mem, root, v, depth + 3) is None);
    }
}


/// Two root tables whose entries agree in the root slot of `w` reach the same
/// tables below it for `w`, and so the same leaf.
pub proof fn lemma_shared_root_slot(mem: Map<u64, Seq<u64>>, r1: u64, r2: u64, w: u64)
    requires
        table_entry(mem, r1, index_at(w, 0)) == table_entry(mem, r2, index_at(w, 0)),
    ensures
        leaf_entry(mem, r1, w) == leaf_entry(mem, r2, w),
        forall|l: nat| 1 <= l <= 3 ==> #[trigger] table_at(mem, r1, w, l) == table_at(mem, r2, w, l),
{
    assert(table_at(mem, r1, w, 0) == Some(r1));
    assert(table_at(mem, r2, w, 0) == Some(r2));
    assert(table_at(mem, r1, w, 1) == table_at(mem, r2, w, 1));
    assert(table_at(mem, r1, w, 2) == table_at(mem, r2, w, 2));
    assert(table_at(mem, r1, w, 3) == table_at(mem, r2, w, 3));
}

/// The slots a template keeps from a kernel root page.
pub open spec fn template_keeps(page: Seq<u64>, slot: int) -> bool {
    page[slot] != 0 && slot != KERNEL_BOOTSTRAP_ALIAS_PML4_INDEX && slot >= spec_pml4_index(KERNEL_VIRT_BASE)
}

/// A zero page with a template written into it holds the kept slots of the kernel
/// root page and zero elsewhere.
proof fn lemma_template_page(page: Seq<u64>, n: int, slot: int)
    requires
        page.len() == 512,
        0 <= n <= 512,
        0 <= slot < 512,
    ensures
        page_with_entries(zero_page(), template_entries(page, n))[slot]
            == if slot < n && template_keeps(page, slot) { page[slot] } else { 0 },
        page_with_entries(zero_page(), template_entries(page, n)).len() == 512,
    decreases n,
{
    if n > 0 {
        lemma_template_page(page, n - 1, slot);
        let prev = template_entries(page, n - 1);
        if template_keeps(page, n - 1) {
            let entries = prev.push(((n - 1) as usize, page[n - 1]));
            assert(entries.drop_last() =~= prev);
        }
    }
}

/// A process space made from a kernel template shares the kernel space's
/// translations in every slot the template carries, and translates nothing else.
pub proof fn lemma_process_shares_kernel_half(mem: Map<u64, Seq<u64>>, kernel_root: u64, process_root: u64, w: u64)
    requires
        table_page(mem, kernel_root).len() == 512,
        table_page(mem, process_root) == page_with_entries(zero_page(), template_entries(table_page(mem, kernel_root), 512)),
    ensures
        template_keeps(table_page(mem, kernel_root), index_at(w, 0)) ==> spec_translate(mem, process_root, w)
            == spec_translate(mem, kernel_root, w),
        !template_keeps(table_page(mem, kernel_root), index_at(w, 0)) ==> spec_translate(mem, process_root, w) is None,
{
    crate::memory::paging::walk::lemma_index_bounds(w);
    let slot = index_at(w, 0);
    let page = table_page(mem, kernel_root);
    lemma_template_page(page, 512, slot);
    assert(table_entry(mem, process_root, slot) == table_page(mem, process_root)[slot]);
    assert(table_entry(mem, kernel_root, slot) == page[slot]);
    if template_keeps(page, slot) {
        lemma_shared_root_slot(mem, kernel_root, process_root, w);
    } else {
        assert(table_entry(mem, process_root, slot) == 0);
        assert(table_at(mem, process_root, w, 0) == Some(process_root));
        lemma_walk_stops(mem, process_root, w, 0);
    }
}


/// Mapping into one address space leaves alone each translation of another space
/// whose walk meets only frames in use outside the first space's tables.
pub proof fn lemma_map_range_isolated(
    space0: AddressSpace,
    space1: AddressSpace,
    alloc0: AllocatorState,
    alloc1: AllocatorState,
    mem0: Map<u64, Seq<u64>>,
    mem1: Map<u64, Seq<u64>>,
    request: MappingRequest,
    result: Result<(), PagingError>,
    other_root: u64,
    w: u64,
)
    requires
        range_mapped(space0, space1, alloc0, alloc1, mem0, mem1, request, result),
        tree_wf(mem0, space0.root_table_phys_addr, alloc0),
        phys_fits_state(alloc0),
        forall|l: nat|
            l <= 3 && #[trigger] table_at(mem0, other_root, w, l) is Some ==> !alloc0.is_free(frame_of(table_at(mem0, other_root, w, l)->0))
                && !reachable(mem0, space0.root_table_phys_addr, table_at(mem0, other_root, w, l)->0),
    ensures
        spec_translate(mem1, other_root, w) == spec_translate(mem0, other_root, w),
{
    if crate::memory::paging::mapper::spec_validate(space0, request) is Ok {
        lemma_isolated_walk(mem0, mem1, alloc0, space0.root_table_phys_addr, other_root, w);
    }
}


/// Forgets every page table written so far.
pub fn reset_host_shadow_page_tables_for_tests(memory: &mut TableMemory)
    ensures
        final(memory).wf(),
        final(memory)@ == Map::<u64, Seq<u64>>::empty(),
{
    memory.clear();
}


/// After a mapping without overwriting succeeded, each address in the `k`-th page of
/// the request translates to the same offset in the `k`-th frame of the target,
/// with the request's flags and the present bit.
pub proof fn lemma_mapped_page_translates(
    before: Map<u64, Seq<u64>>,
    after: Map<u64, Seq<u64>>,
    alloc: AllocatorState,
    root: u64,
    request: MappingRequest,
    k: int,
    offset: u64,
)
    requires
        crate::memory::paging::mapper::mapped_ok(before, after, alloc, root, request),
        !request.allow_overwrite,
        0 <= k < request.page_count,
        offset < 4096,
        request.start_virt_addr % 4096 == 0,
        request.target_phys_start % 4096 == 0,
        request.start_virt_addr + request.page_count * 4096 <= u64::MAX,
        request.target_phys_start + request.page_count * 4096 <= 0x10_0000_0000_0000,
        request.flags.spec_bits() & PAGE_TABLE_ADDR_MASK == 0,
    ensures
        ({
            let virt = (request.start_virt_addr + k * 4096 + offset) as u64;
            let x = crate::memory::paging::mapper::request_entry(request, k);
            spec_translate(after, root, virt) == Some(
                MappedPage {
                    virt_addr: virt,
                    phys_addr: (request.target_phys_start + k * 4096 + offset) as u64,
                    flags: EntryFlags::spec_from_bits(x & 0x8000_0000_0000_0fff),
                },
            )
        }),
{
    let page = crate::memory::paging::mapper::request_page(request, k);
    let virt = (request.start_virt_addr + k * 4096 + offset) as u64;
    let p = (request.target_phys_start + k * 4096) as u64;
    let f = request.flags.spec_bits();
    assert(page % 4096 == 0) by {
        assert((request.start_virt_addr + k * 4096) % 4096 == 0);
    }
    assert(p % 4096 == 0);
    assert(virt == page + offset);
    assert(crate::memory::paging::walk::same_slots(virt, page)) by (bit_vector)
        requires
            virt == page + offset,
            page % 4096 == 0,
            offset < 4096,
    ;
    crate::memory::paging::walk::lemma_leaf_by_slots(after, root, virt, page);
    crate::memory::paging::mapper::lemma_mapped_leaf_page(before, root, request, request.page_count as int, k);
    assert(leaf_entry(after, root, page) == crate::memory::paging::mapper::mapped_leaf(
        before,
        root,
        request,
        request.page_count as int,
        page,
    ));
    let x = crate::memory::paging::mapper::request_entry(request, k);
    assert(x == (p | f) | 1u64);
    assert(x != 0) by (bit_vector)
        requires
            x == (p | f) | 1u64,
    ;
    assert(x & 0x000f_ffff_ffff_f000u64 == p) by (bit_vector)
        requires
            x == (p | f) | 1u64,
            p % 4096 == 0,
            p < 0x10_0000_0000_0000u64,
            f & 0x000f_ffff_ffff_f000u64 == 0,
    ;
    assert(virt & 0xfffu64 == offset) by (bit_vector)
        requires
            virt == page + offset,
            page % 4096 == 0,
            offset < 4096,
    ;
}

} // verus!
