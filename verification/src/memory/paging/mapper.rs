//! Mapping and unmapping ranges of pages in an address space.

use vstd::prelude::*;

use crate::memory::bitmap::{AllocatorState, BitmapAllocator};
use crate::memory::map::{AllocationResult, PageSpan, PhysAddr, PAGE_SIZE};
use crate::memory::paging::address_space::{
    allocated_pages, lemma_allocated_push, lemma_rollback_restores, spec_rollback, AddressSpace,
    PagingAllocationRecord, MAX_OWNED_SPANS,
};
use crate::memory::paging::table::{
    EntryFlags, MappingRequest, VirtualAddressLayout, KERNEL_VIRT_BASE, PAGE_TABLE_ADDR_MASK,
};
use crate::memory::paging::table_memory::{table_entry, table_page, zero_page, TableMemory};
use crate::memory::paging::walk::{
    frame_of, index_at, leaf_entry, lemma_index_bounds, lemma_indexes_at, lemma_insert_within,
    lemma_link_table, lemma_same_walks_within, lemma_table_link_entry, lemma_tree_alloc_shrinks,
    lemma_within_refl, lemma_within_trans, lemma_write_leaf, lemma_zero_fresh, lemma_next_page_tables, lemma_tables_for_pages_grow, missing_tables, pages_sized, tables_for_pages,
    reach_within, reachable, same_slots, table_at, tables_in_use, tree_shape, tree_wf, writes_within,
};

verus! {

#[derive(Clone, Copy, Debug, PartialEq, Eq, Structural)]
pub enum PagingError {
    AddressOutOfRange,
    AllocatorStateCorrupted,
    CapacityExceeded,
    EmptyRequest,
    MappingConflict,
    OutOfMemory,
    UnalignedAddress,
}

/// Every managed frame has a physical address that a table entry can hold.
pub open spec fn phys_fits(alloc: AllocatorState) -> bool {
    crate::memory::paging::address_space::phys_fits_state(alloc)
}

/// The `k`-th virtual page of a request.
pub open spec fn request_page(request: MappingRequest, k: int) -> u64 {
    (request.start_virt_addr + k * 4096) as u64
}

/// The leaf entry a request writes for its `k`-th page.
pub open spec fn request_entry(request: MappingRequest, k: int) -> u64 {
    ((request.target_phys_start + k * 4096) as u64 | request.flags.spec_bits()) | 1u64
}

/// The leaf for `w` once the first `n` pages of `request` have been mapped over `mem`
/// (a later page of the request wins over an earlier one in the same slot).
pub open spec fn mapped_leaf(mem: Map<u64, Seq<u64>>, root: u64, request: MappingRequest, n: int, w: u64) -> Option<u64>
    decreases n,
{
    if n <= 0 {
        leaf_entry(mem, root, w)
    } else if same_slots(w, request_page(request, n - 1)) {
        Some(request_entry(request, n - 1))
    } else {
        mapped_leaf(mem, root, request, n - 1, w)
    }
}

/// The leaf for `w` that the first `n` pages of `request` alone give (a later page
/// of the request wins over an earlier one in the same slot).
pub open spec fn fresh_leaf(request: MappingRequest, n: int, w: u64) -> Option<u64>
    decreases n,
{
    if n <= 0 {
        None
    } else if same_slots(w, request_page(request, n - 1)) {
        Some(request_entry(request, n - 1))
    } else {
        fresh_leaf(request, n - 1, w)
    }
}

/// Mapping a request over a table tree gives the request's own leaf where it has one
/// and the old leaf elsewhere.
pub proof fn lemma_mapped_leaf_fresh(mem: Map<u64, Seq<u64>>, root: u64, request: MappingRequest, n: int, w: u64)
    ensures
        mapped_leaf(mem, root, request, n, w) == (if fresh_leaf(request, n, w) is Some {
            fresh_leaf(request, n, w)
        } else {
            leaf_entry(mem, root, w)
        }),
    decreases n,
{
    if n > 0 {
        lemma_mapped_leaf_fresh(mem, root, request, n - 1, w);
    }
}

/// What a successful `map_range` leaves behind on a well-formed tree: still a tree
/// of frames in use, with every leaf as the request's pages map it; without
/// overwriting, the request's pages were unmapped before and lie in distinct pages.
pub open spec fn mapped_ok(before: Map<u64, Seq<u64>>, after: Map<u64, Seq<u64>>, alloc: AllocatorState, root: u64, request: MappingRequest) -> bool {
    &&& tree_wf(after, root, alloc)
    &&& leaves_mapped(after, before, root, request, request.page_count as int)
    &&& !request.allow_overwrite ==> forall|k: int|
        0 <= k < request.page_count ==> leaf_entry(before, root, #[trigger] request_page(request, k)) is None
    &&& !request.allow_overwrite ==> forall|j: int, k: int|
        0 <= j < k < request.page_count ==> !same_slots(#[trigger] request_page(request, j), #[trigger] request_page(request, k))
}

/// A leaf no page of the request touches keeps its entry.
pub proof fn lemma_mapped_leaf_untouched(mem: Map<u64, Seq<u64>>, root: u64, request: MappingRequest, n: int, w: u64)
    requires
        forall|k: int| 0 <= k < n ==> !same_slots(w, #[trigger] request_page(request, k)),
    ensures
        mapped_leaf(mem, root, request, n, w) == leaf_entry(mem, root, w),
    decreases n,
{
    if n > 0 {
        lemma_mapped_leaf_untouched(mem, root, request, n - 1, w);
    }
}

/// With the request's pages in distinct pages, page `j` ends up mapped to its frame.
pub proof fn lemma_mapped_leaf_page(mem: Map<u64, Seq<u64>>, root: u64, request: MappingRequest, n: int, j: int)
    requires
        0 <= j < n,
        forall|a: int, b: int| 0 <= a < b < n ==> !same_slots(#[trigger] request_page(request, a), #[trigger] request_page(request, b)),
    ensures
        mapped_leaf(mem, root, request, n, request_page(request, j)) == Some(request_entry(request, j)),
    decreases n,
{
    if n - 1 > j {
        assert(!same_slots(request_page(request, j), request_page(request, n - 1)));
        lemma_mapped_leaf_page(mem, root, request, n - 1, j);
    }
}

/// Every leaf of `mem` is what mapping the first `n` pages of `request` over `before` gives.
pub open spec fn leaves_mapped(mem: Map<u64, Seq<u64>>, before: Map<u64, Seq<u64>>, root: u64, request: MappingRequest, n: int) -> bool {
    forall|w: u64| #[trigger] leaf_entry(mem, root, w) == mapped_leaf(before, root, request, n, w)
}

/// The leaf for `w` once the first `n` pages from `start` have been unmapped.
pub open spec fn unmapped_leaf(mem: Map<u64, Seq<u64>>, root: u64, start: u64, n: int, w: u64) -> Option<u64>
    decreases n,
{
    if n <= 0 {
        leaf_entry(mem, root, w)
    } else if same_slots(w, (start + (n - 1) * 4096) as u64) {
        None
    } else {
        unmapped_leaf(mem, root, start, n - 1, w)
    }
}

/// Unmapping a range leaves no leaf for any address in its pages and keeps the
/// leaf of every address outside them.
pub proof fn lemma_unmapped_range(mem: Map<u64, Seq<u64>>, root: u64, start: u64, n: int, w: u64)
    ensures
        (exists|k: int| 0 <= k < n && #[trigger] same_slots(w, (start + k * 4096) as u64)) ==> unmapped_leaf(mem, root, start, n, w) is None,
        (forall|k: int| 0 <= k < n ==> !#[trigger] same_slots(w, (start + k * 4096) as u64)) ==> unmapped_leaf(mem, root, start, n, w)
            == leaf_entry(mem, root, w),
    decreases n,
{
    if n > 0 {
        lemma_unmapped_range(mem, root, start, n - 1, w);
        if exists|k: int| 0 <= k < n && #[trigger] same_slots(w, (start + k * 4096) as u64) {
            let k = choose|k: int| 0 <= k < n && #[trigger] same_slots(w, (start + k * 4096) as u64);
            if k < n - 1 {
                assert(exists|j: int| 0 <= j < n - 1 && #[trigger] same_slots(w, (start + j * 4096) as u64));
            }
        }
    }
}

/// Which requests are refused before anything is touched: empty ones, unaligned
/// ones, and requests for user addresses outside the space's private window.
pub open spec fn spec_validate(space: AddressSpace, request: MappingRequest) -> Result<(), PagingError> {
    if request.page_count == 0 {
        Err(PagingError::EmptyRequest)
    } else if request.start_virt_addr % 4096 != 0 || request.target_phys_start % 4096 != 0 {
        Err(PagingError::UnalignedAddress)
    } else if request.start_virt_addr >= KERNEL_VIRT_BASE {
        Ok(())
    } else if request.start_virt_addr >= space.private_mapping_floor && request.start_virt_addr
        + request.page_count * 4096 <= space.private_mapping_ceiling {
        Ok(())
    } else {
        Err(PagingError::AddressOutOfRange)
    }
}

/// A non-empty aligned request whose pages end within 64 bits.
pub open spec fn request_in_bounds(request: MappingRequest) -> bool {
    request.page_count > 0 && request.start_virt_addr % 4096 == 0 && request.target_phys_start % 4096 == 0 ==> {
        &&& request.start_virt_addr + request.page_count * 4096 <= u64::MAX
        &&& request.page_count * 4096 <= usize::MAX
    }
}

/// A non-empty aligned request whose frames stay within 64 bits.
pub open spec fn frames_in_bounds(request: MappingRequest) -> bool {
    request.page_count > 0 && request.start_virt_addr % 4096 == 0 && request.target_phys_start % 4096 == 0
        ==> request.target_phys_start + (request.page_count - 1) * 4096 <= u64::MAX
}

fn validate_request(address_space: &AddressSpace, request: MappingRequest) -> (result: Result<(), PagingError>)
    requires
        request_in_bounds(request),
    ensures
        result == spec_validate(*address_space, request),
{
    if request.page_count == 0 {
        return Err(PagingError::EmptyRequest);
    }
    if !VirtualAddressLayout::is_page_aligned(request.start_virt_addr)
        || !VirtualAddressLayout::is_page_aligned(request.target_phys_start) {
        return Err(PagingError::UnalignedAddress);
    }
    let end = request.end_virt_addr_exclusive();
    let allowed = if VirtualAddressLayout::is_kernel_address(request.start_virt_addr) {
        true
    } else {
        request.start_virt_addr >= address_space.private_mapping_floor && end
            <= address_space.private_mapping_ceiling
    };
    if !allowed {
        return Err(PagingError::AddressOutOfRange);
    }
    Ok(())
}

/// Takes a frame for a new table, zeroes it and records it.
fn allocate_table(
    address_space: &mut AddressSpace,
    allocator: &mut BitmapAllocator,
    record: &mut PagingAllocationRecord,
    memory: &mut TableMemory,
) -> (result: Result<PhysAddr, PagingError>)
    requires
        old(allocator).wf(),
        old(memory).wf(),
    ensures
        final(allocator).wf(),
        final(memory).wf(),
        *final(address_space) == *old(address_space),
        final(record).spec_published() == old(record).spec_published(),
        match old(allocator)@.allocate(1) {
            (state, AllocationResult::Allocated(span)) => {
                &&& final(allocator)@ == state
                &&& final(memory)@ == old(memory)@.insert(span.start_phys_addr, zero_page())
                &&& old(record).spec_spans().len() < MAX_OWNED_SPANS ==> result == Ok::<PhysAddr, PagingError>(span.start_phys_addr)
                    && final(record).spec_spans() == old(record).spec_spans().push(span)
                &&& old(record).spec_spans().len() >= MAX_OWNED_SPANS ==> result == Err::<PhysAddr, PagingError>(PagingError::CapacityExceeded)
                    && final(record).spec_spans() == old(record).spec_spans()
            },
            _ => {
                &&& result == Err::<PhysAddr, PagingError>(PagingError::OutOfMemory)
                &&& final(allocator)@ == old(allocator)@
                &&& final(memory)@ == old(memory)@
                &&& final(record).spec_spans() == old(record).spec_spans()
            },
        },
{
    address_space.allocate_table_page(allocator, record, memory)
}

/// With no page of the first `n` mapped over it, a leaf that is empty after them was
/// empty before.
proof fn lemma_mapped_leaf_none(mem: Map<u64, Seq<u64>>, root: u64, request: MappingRequest, n: int, w: u64)
    requires
        mapped_leaf(mem, root, request, n, w) is None,
    ensures
        leaf_entry(mem, root, w) is None,
        forall|k: int| 0 <= k < n ==> !same_slots(w, #[trigger] request_page(request, k)),
    decreases n,
{
    if n > 0 {
        lemma_mapped_leaf_none(mem, root, request, n - 1, w);
    }
}

/// One of `spans` from position `from` on starts at `q`.
pub open spec fn span_start_in(spans: Seq<PageSpan>, from: int, q: u64) -> bool {
    exists|j: int| from <= j < spans.len() && #[trigger] spans[j].start_phys_addr == q
}

/// `taken` are distinct frames that the walk from `root` did not reach in `mem0` and
/// does reach in `mem1`, and they are all the tables it reaches there anew.
pub open spec fn fresh_tables(mem0: Map<u64, Seq<u64>>, mem1: Map<u64, Seq<u64>>, root: u64, taken: Seq<PageSpan>) -> bool {
    &&& forall|q: u64| #[trigger] reachable(mem1, root, q) == (reachable(mem0, root, q) || span_start_in(taken, 0, q))
    &&& forall|k: int| 0 <= k < taken.len() ==> !reachable(mem0, root, #[trigger] taken[k].start_phys_addr)
    &&& forall|a: int, b: int| 0 <= a < b < taken.len() ==> (#[trigger] taken[a]).start_phys_addr != (#[trigger] taken[b]).start_phys_addr
}

/// Frames taken from a state whose tree is well formed were not tables of that tree,
/// and are distinct.
proof fn lemma_taken_not_tables(mem0: Map<u64, Seq<u64>>, root: u64, alloc0: AllocatorState, alloc1: AllocatorState, spans: Seq<PageSpan>)
    requires
        tree_wf(mem0, root, alloc0),
        phys_fits(alloc0),
        allocated_pages(alloc0, alloc1, spans),
    ensures
        forall|k: int| 0 <= k < spans.len() ==> !reachable(mem0, root, #[trigger] spans[k].start_phys_addr),
        forall|a: int, b: int| 0 <= a < b < spans.len() ==> (#[trigger] spans[a]).start_phys_addr != (#[trigger] spans[b]).start_phys_addr,
{
    assert forall|k: int| 0 <= k < spans.len() implies !reachable(mem0, root, #[trigger] spans[k].start_phys_addr) by {
        let st = spans[k].start_page_index as int;
        assert(alloc0.is_free(st));
        assert(spans[k] == PageSpan::spec_new(spans[k].start_page_index, 1));
        lemma_table_link_entry(st);
        if reachable(mem0, root, spans[k].start_phys_addr) {
            let (w, l) = choose|w: u64, l: nat| l <= 3 && #[trigger] table_at(mem0, root, w, l) == Some(spans[k].start_phys_addr);
            assert(!alloc0.is_free(frame_of(spans[k].start_phys_addr)));
        }
    }
    assert forall|a: int, b: int| 0 <= a < b < spans.len() implies (#[trigger] spans[a]).start_phys_addr != (#[trigger] spans[b]).start_phys_addr by {
        assert(spans[a] == PageSpan::spec_new(spans[a].start_page_index, 1));
        assert(spans[b] == PageSpan::spec_new(spans[b].start_page_index, 1));
        let sa = spans[a].start_page_index as int;
        let sb = spans[b].start_page_index as int;
        assert(alloc0.is_free(sa) && alloc0.is_free(sb));
        lemma_table_link_entry(sa);
        lemma_table_link_entry(sb);
        assert(sa != sb);
    }
}

/// Page `k` of `request` is mapped already, or shares its slot with an earlier page.
pub open spec fn page_taken(mem: Map<u64, Seq<u64>>, root: u64, request: MappingRequest, k: int) -> bool {
    ||| leaf_entry(mem, root, request_page(request, k)) is Some
    ||| exists|j: int| 0 <= j < k && same_slots(#[trigger] request_page(request, j), request_page(request, k))
}

/// The root table keeps every entry outside the root slots of the first `n` pages of
/// `request`.
pub open spec fn root_slots_kept(mem0: Map<u64, Seq<u64>>, mem1: Map<u64, Seq<u64>>, root: u64, request: MappingRequest, n: int) -> bool {
    forall|i: int|
        (forall|k: int| 0 <= k < n ==> i != index_at(#[trigger] request_page(request, k), 0)) ==> #[trigger] table_entry(mem1, root, i)
            == table_entry(mem0, root, i)
}

proof fn lemma_root_slots_step(
    mem0: Map<u64, Seq<u64>>,
    mem1: Map<u64, Seq<u64>>,
    mem2: Map<u64, Seq<u64>>,
    root: u64,
    request: MappingRequest,
    n: int,
)
    requires
        0 <= n,
        root_slots_kept(mem0, mem1, root, request, n),
        forall|i: int| i != index_at(request_page(request, n), 0) ==> #[trigger] table_entry(mem2, root, i) == table_entry(mem1, root, i),
    ensures
        root_slots_kept(mem0, mem2, root, request, n + 1),
{
    assert forall|i: int|
        (forall|k: int| 0 <= k < n + 1 ==> i != index_at(#[trigger] request_page(request, k), 0)) implies #[trigger] table_entry(mem2, root, i)
            == table_entry(mem0, root, i) by {
        assert(i != index_at(request_page(request, n), 0));
        assert(forall|k: int| 0 <= k < n ==> i != index_at(#[trigger] request_page(request, k), 0));
    }
}

proof fn lemma_root_slots_grow(mem0: Map<u64, Seq<u64>>, mem1: Map<u64, Seq<u64>>, root: u64, request: MappingRequest, n: int, m: int)
    requires
        n <= m,
        root_slots_kept(mem0, mem1, root, request, n),
    ensures
        root_slots_kept(mem0, mem1, root, request, m),
{
    assert forall|i: int|
        (forall|k: int| 0 <= k < m ==> i != index_at(#[trigger] request_page(request, k), 0)) implies #[trigger] table_entry(mem1, root, i)
            == table_entry(mem0, root, i) by {
        assert(forall|k: int| 0 <= k < n ==> i != index_at(#[trigger] request_page(request, k), 0));
    }
}

/// What one call of `map_range` does, over the address space, the allocator and the
/// table memory before and after it.
///
/// A refused request changes nothing. Otherwise, a call that fails (but for running
/// out of room in its record) gives back every frame it took; a call that succeeds
/// adds the table frames it took to those the space owns. On a well-formed tree it
/// leaves a well-formed tree whose leaves are those of the request laid over the old
/// ones, all of them on success and some first pages of them on failure. On success
/// the frames it adds to those the space owns are exactly the tables the walk
/// reaches afterwards and did not reach before, one frame each; it touches
/// no root entry outside the request's root slots; and it fails only with a
/// conflict on a page already taken, with too few free frames for the tables it may
/// need, or with too little room to record them. It runs out of frames only once
/// every free frame has become a table it newly reaches, and out of room only once
/// the tables it newly reaches fill what the space may own.
pub open spec fn range_mapped(
    space0: AddressSpace,
    space1: AddressSpace,
    alloc0: AllocatorState,
    alloc1: AllocatorState,
    mem0: Map<u64, Seq<u64>>,
    mem1: Map<u64, Seq<u64>>,
    request: MappingRequest,
    result: Result<(), PagingError>,
) -> bool {
    let root = space0.root_table_phys_addr;
    let ok = tree_wf(mem0, root, alloc0) && phys_fits(alloc0);
    let owned = space0.owned_table_pages@;
    let new_owned = space1.owned_table_pages@;
    &&& space1.root_table_phys_addr == space0.root_table_phys_addr
    &&& space1.root_table_virt_addr == space0.root_table_virt_addr
    &&& space1.kind == space0.kind
    &&& space1.managed_phys_limit == space0.managed_phys_limit
    &&& space1.private_mapping_floor == space0.private_mapping_floor
    &&& space1.private_mapping_ceiling == space0.private_mapping_ceiling
    &&& alloc1.managed_page_count() == alloc0.managed_page_count()
    &&& spec_validate(space0, request) is Err ==> {
        &&& result == spec_validate(space0, request)
        &&& alloc1 == alloc0
        &&& mem1 == mem0
        &&& new_owned == owned
    }
    &&& spec_validate(space0, request) is Ok ==> {
        &&& result is Err && result != Err::<(), PagingError>(PagingError::CapacityExceeded) ==> {
            &&& alloc1.used == alloc0.used
            &&& alloc1.allocatable == alloc0.allocatable
            &&& alloc1.free_page_count == alloc0.free_page_count
            &&& alloc1.metadata_span == alloc0.metadata_span
        }
        &&& result is Ok ==> {
            &&& owned.len() <= new_owned.len()
            &&& new_owned.subrange(0, owned.len() as int) == owned
            &&& allocated_pages(alloc0, alloc1, new_owned.subrange(owned.len() as int, new_owned.len() as int))
        }
        &&& result is Ok || result == Err::<(), PagingError>(PagingError::MappingConflict) || result == Err::<(), PagingError>(
            PagingError::OutOfMemory,
        ) || result == Err::<(), PagingError>(PagingError::CapacityExceeded)
        &&& ok && result == Err::<(), PagingError>(PagingError::MappingConflict) ==> !request.allow_overwrite && exists|k: int|
            0 <= k < request.page_count && #[trigger] page_taken(mem0, root, request, k)
        &&& ok && result == Err::<(), PagingError>(PagingError::OutOfMemory) ==> alloc0.free_page_count < tables_for_pages(
            request.start_virt_addr,
            request.page_count as int,
        )
        &&& ok && result == Err::<(), PagingError>(PagingError::CapacityExceeded) ==> owned.len() + tables_for_pages(
            request.start_virt_addr,
            request.page_count as int,
        ) > MAX_OWNED_SPANS
        &&& ok && result == Err::<(), PagingError>(PagingError::OutOfMemory) ==> exists|taken: Seq<PageSpan>|
            #[trigger] fresh_tables(mem0, mem1, root, taken) && taken.len() == alloc0.free_page_count
        &&& ok && result == Err::<(), PagingError>(PagingError::CapacityExceeded) ==> exists|taken: Seq<PageSpan>|
            #[trigger] fresh_tables(mem0, mem1, root, taken) && owned.len() + taken.len() >= MAX_OWNED_SPANS
        &&& ok ==> writes_within(mem0, mem1, alloc0, root)
        &&& ok ==> root_slots_kept(mem0, mem1, root, request, request.page_count as int)
        &&& ok && result is Ok ==> mapped_ok(mem0, mem1, alloc1, root, request)
        &&& ok && result is Ok ==> new_owned.len() <= owned.len() + tables_for_pages(request.start_virt_addr, request.page_count as int)
        &&& ok && result is Ok ==> forall|q: u64| #[trigger] reachable(mem1, root, q) == (reachable(mem0, root, q) || span_start_in(
            new_owned,
            owned.len() as int,
            q,
        ))
        &&& ok && result is Ok ==> forall|k: int|
            owned.len() <= k < new_owned.len() ==> !reachable(mem0, root, #[trigger] new_owned[k].start_phys_addr)
        &&& ok && result is Err ==> exists|n: int|
            0 <= n <= request.page_count && #[trigger] leaves_mapped(mem1, mem0, root, request, n)
    }
}

/// When a mapping cannot fail: the request is accepted, the space's tree is well
/// formed, and the allocator and the space have room for the tables it may create;
/// without overwriting, none of the pages is mapped yet and no two of them share a
/// page table slot (the range does not wrap around the 48-bit address space).
pub open spec fn map_owed(space: AddressSpace, alloc: AllocatorState, mem: Map<u64, Seq<u64>>, request: MappingRequest) -> bool {
    let root = space.root_table_phys_addr;
    let needed = tables_for_pages(request.start_virt_addr, request.page_count as int);
    &&& spec_validate(space, request) is Ok
    &&& tree_wf(mem, root, alloc)
    &&& phys_fits(alloc)
    &&& needed <= alloc.free_page_count
    &&& space.owned_table_pages@.len() + needed <= MAX_OWNED_SPANS
    &&& !request.allow_overwrite ==> forall|k: int|
        0 <= k < request.page_count ==> leaf_entry(mem, root, #[trigger] request_page(request, k)) is None
    &&& !request.allow_overwrite ==> forall|j: int, k: int|
        0 <= j < k < request.page_count ==> !same_slots(#[trigger] request_page(request, j), #[trigger] request_page(request, k))
}

/// Maps `request.page_count` pages from `request.start_virt_addr` onto frames from
/// `request.target_phys_start`, creating tables as needed. A refused request changes
/// nothing; a mapping that fails part way gives every table frame it took back to
/// the allocator; a mapping that succeeds hands those frames to the address space.
/// It succeeds whenever `map_owed` holds.
pub fn map_range(
    address_space: &mut AddressSpace,
    allocator: &mut BitmapAllocator,
    memory: &mut TableMemory,
    request: MappingRequest,
) -> (result: Result<(), PagingError>)
    requires
        old(allocator).wf(),
        old(memory).wf(),
        request_in_bounds(request),
        spec_validate(*old(address_space), request) is Ok ==> frames_in_bounds(request),
    ensures
        final(allocator).wf(),
        final(memory).wf(),
        final(address_space).next_kernel_alloc_virt == old(address_space).next_kernel_alloc_virt,
        final(address_space).kernel_regions@ == old(address_space).kernel_regions@,
        spec_validate(*old(address_space), request) is Err ==> *final(address_space) == *old(address_space),
        range_mapped(
            *old(address_space),
            *final(address_space),
            old(allocator)@,
            final(allocator)@,
            old(memory)@,
            final(memory)@,
            request,
            result,
        ),
        map_owed(*old(address_space), old(allocator)@, old(memory)@, request) ==> result is Ok,
{
    match validate_request(address_space, request) {
        Ok(()) => {},
        Err(e) => {
            return Err(e);
        },
    }
    let ghost root = address_space.root_table_phys_addr;
    let ghost mem0 = memory@;
    let ghost alloc0 = allocator@;
    let ghost space0 = *address_space;
    let ghost ok = tree_wf(memory@, root, allocator@) && phys_fits(allocator@);
    let ghost owed = map_owed(space0, alloc0, mem0, request);
    let mut record = PagingAllocationRecord::new();
    let mut page: usize = 0;
    proof {
        allocator.lemma_wf_bounds();
        assert(allocated_pages(alloc0, allocator@, record.spec_spans())) by {
            assert(allocator@.used =~= alloc0.used);
        }
        lemma_within_refl(mem0, alloc0, root);
    }
    while page < request.page_count
        invariant
            allocator.wf(),
            memory.wf(),
            page <= request.page_count,
            request_in_bounds(request),
            frames_in_bounds(request),
            spec_validate(space0, request) is Ok,
            *address_space == space0,
            space0 == *old(address_space),
            root == space0.root_table_phys_addr,
            mem0 == old(memory)@,
            alloc0 == old(allocator)@,
            !record.spec_published(),
            allocator@.managed_page_count() == alloc0.managed_page_count(),
            alloc0.managed_page_count() * 4096 <= usize::MAX,
            allocated_pages(alloc0, allocator@, record.spec_spans()),
            ok == (tree_wf(mem0, root, alloc0) && phys_fits(alloc0)),
            ok ==> tree_wf(memory@, root, allocator@) && phys_fits(allocator@),
            ok ==> forall|w: u64| #[trigger] leaf_entry(memory@, root, w) == mapped_leaf(mem0, root, request, page as int, w),
            ok ==> writes_within(mem0, memory@, alloc0, root),
            ok ==> reach_within(mem0, memory@, alloc0, root),
            ok && !request.allow_overwrite ==> forall|k: int|
                0 <= k < page ==> leaf_entry(mem0, root, #[trigger] request_page(request, k)) is None,
            ok && !request.allow_overwrite ==> forall|j: int, k: int|
                0 <= j < k < page ==> !same_slots(#[trigger] request_page(request, j), #[trigger] request_page(request, k)),
            ok ==> record.spec_spans().len() <= tables_for_pages(request.start_virt_addr, page as int),
            ok && page > 0 ==> table_at(memory@, root, request_page(request, page - 1), 3) is Some,
            ok ==> root_slots_kept(mem0, memory@, root, request, page as int),
            ok ==> forall|q: u64| #[trigger] reachable(memory@, root, q) == (reachable(mem0, root, q) || span_start_in(record.spec_spans(), 0, q)),
            owed == map_owed(space0, alloc0, mem0, request),
        decreases request.page_count - page,
    {
        let virt_addr = request.start_virt_addr + (page * PAGE_SIZE) as u64;
        let phys_addr = request.target_phys_start + (page * PAGE_SIZE) as u64;
        let ghost mem_before = memory@;
        let ghost alloc_before = allocator@;
        let ghost spans_at_start = record.spec_spans();
        proof {
            assert(virt_addr == request_page(request, page as int));
            if ok && page > 0 {
                lemma_next_page_tables(mem_before, root, request_page(request, page - 1), virt_addr);
            }
            if owed {
                lemma_tables_for_pages_grow(request.start_virt_addr, page + 1, request.page_count as int);
                if !request.allow_overwrite {
                    lemma_mapped_leaf_untouched(mem0, root, request, page as int, virt_addr);
                }
            }
        }
        match map_single_page(
            address_space,
            allocator,
            &mut record,
            memory,
            virt_addr,
            phys_addr,
            request.flags,
            request.allow_overwrite,
            Ghost(alloc0),
        ) {
            Ok(()) => {
                proof {
                    if ok {
                        let sp = record.spec_spans();
                        let spb = spans_at_start;
                        assert forall|q: u64| #[trigger] reachable(memory@, root, q) == (reachable(mem0, root, q) || span_start_in(sp, 0, q)) by {
                            assert(reachable(memory@, root, q) == (reachable(mem_before, root, q) || span_start_in(sp, spb.len() as int, q)));
                            assert(reachable(mem_before, root, q) == (reachable(mem0, root, q) || span_start_in(spb, 0, q)));
                            if span_start_in(spb, 0, q) {
                                let j = choose|j: int| 0 <= j < spb.len() && #[trigger] spb[j].start_phys_addr == q;
                                assert(sp.subrange(0, spb.len() as int)[j] == spb[j]);
                            }
                            if span_start_in(sp, 0, q) {
                                let j = choose|j: int| 0 <= j < sp.len() && #[trigger] sp[j].start_phys_addr == q;
                                if j < spb.len() {
                                    assert(sp.subrange(0, spb.len() as int)[j] == spb[j]);
                                }
                            }
                        }
                        lemma_root_slots_step(mem0, mem_before, memory@, root, request, page as int);
                        lemma_within_trans(mem0, mem_before, memory@, alloc0, root);
                        assert(virt_addr == request_page(request, page as int));
                        assert((phys_addr | request.flags.spec_bits()) | 1u64 == request_entry(request, page as int));
                        assert forall|w: u64| #[trigger] leaf_entry(memory@, root, w) == mapped_leaf(mem0, root, request, page + 1, w) by {
                            assert(leaf_entry(mem_before, root, w) == mapped_leaf(mem0, root, request, page as int, w));
                        }
                        if !request.allow_overwrite {
                            assert(leaf_entry(mem_before, root, virt_addr) is None);
                            assert(mapped_leaf(mem0, root, request, page as int, virt_addr) is None);
                            lemma_mapped_leaf_none(mem0, root, request, page as int, virt_addr);
                            assert forall|k: int| 0 <= k < page + 1 implies leaf_entry(mem0, root, #[trigger] request_page(request, k)) is None by {
                                if k == page {
                                    assert(request_page(request, k) == virt_addr);
                                }
                            }
                            assert forall|j: int, k: int| 0 <= j < k < page + 1 implies !same_slots(#[trigger] request_page(request, j), #[trigger] request_page(request, k)) by {
                                if k == page {
                                    assert(request_page(request, k) == virt_addr);
                                    assert(!same_slots(virt_addr, request_page(request, j)));
                                }
                            }
                        }
                    }
                }
            },
            Err(err) => {
                let ghost alloc_failed = allocator@;
                let ghost spans_failed = record.spec_spans();
                assert(!owed);
                proof {
                    if ok {
                        lemma_tables_for_pages_grow(request.start_virt_addr, page + 1, request.page_count as int);
                        if err == PagingError::MappingConflict {
                            assert(leaf_entry(mem_before, root, virt_addr) == mapped_leaf(mem0, root, request, page as int, virt_addr));
                            if !page_taken(mem0, root, request, page as int) {
                                assert forall|k: int| 0 <= k < page implies !same_slots(virt_addr, #[trigger] request_page(request, k)) by {
                                    if same_slots(virt_addr, request_page(request, k)) {
                                        assert(same_slots(request_page(request, k), request_page(request, page as int)));
                                    }
                                }
                                lemma_mapped_leaf_untouched(mem0, root, request, page as int, virt_addr);
                            }
                        }
                        if err == PagingError::OutOfMemory || err == PagingError::CapacityExceeded {
                            let sp = spans_failed;
                            let spb = spans_at_start;
                            assert forall|q: u64| #[trigger] reachable(memory@, root, q) == (reachable(mem0, root, q) || span_start_in(sp, 0, q)) by {
                                assert(reachable(memory@, root, q) == (reachable(mem_before, root, q) || span_start_in(sp, spb.len() as int, q)));
                                assert(reachable(mem_before, root, q) == (reachable(mem0, root, q) || span_start_in(spb, 0, q)));
                                if span_start_in(spb, 0, q) {
                                    let j = choose|j: int| 0 <= j < spb.len() && #[trigger] spb[j].start_phys_addr == q;
                                    assert(sp.subrange(0, spb.len() as int)[j] == spb[j]);
                                }
                                if span_start_in(sp, 0, q) {
                                    let j = choose|j: int| 0 <= j < sp.len() && #[trigger] sp[j].start_phys_addr == q;
                                    if j < spb.len() {
                                        assert(sp.subrange(0, spb.len() as int)[j] == spb[j]);
                                    }
                                }
                            }
                            if err == PagingError::OutOfMemory {
                                lemma_taken_not_tables(mem0, root, alloc0, alloc_failed, sp);
                                assert(fresh_tables(mem0, memory@, root, sp));
                            } else {
                                let mid = choose|mid: AllocatorState| allocated_pages(alloc0, mid, spans_failed);
                                lemma_taken_not_tables(mem0, root, alloc0, mid, sp);
                                assert(fresh_tables(mem0, memory@, root, sp));
                            }
                        }
                    }
                }
                proof {
                    allocator.lemma_wf_bounds();
                    let st = if err == PagingError::CapacityExceeded {
                        choose|st: AllocatorState| allocated_pages(st, alloc_failed, spans_failed)
                    } else {
                        alloc0
                    };
                    assert(allocated_pages(st, alloc_failed, spans_failed));
                    lemma_rollback_restores(st, alloc_failed, spans_failed);
                    assert forall|k: int| 0 <= k < spans_failed.len() implies (#[trigger] spans_failed[k]).start_page_index
                        + spans_failed[k].page_count <= usize::MAX by {
                        assert(spans_failed[k] == PageSpan::spec_new(spans_failed[k].start_page_index, 1));
                        assert(st.is_free(spans_failed[k].start_page_index as int));
                    }
                    if ok {
                        lemma_root_slots_step(mem0, mem_before, memory@, root, request, page as int);
                        lemma_root_slots_grow(mem0, memory@, root, request, page + 1, request.page_count as int);
                        lemma_within_trans(mem0, mem_before, memory@, alloc0, root);
                        assert forall|w: u64| #[trigger] leaf_entry(memory@, root, w) == mapped_leaf(mem0, root, request, page as int, w) by {
                            assert(leaf_entry(mem_before, root, w) == mapped_leaf(mem0, root, request, page as int, w));
                        }
                        assert(leaves_mapped(memory@, mem0, root, request, page as int));
                    }
                }
                match record.rollback(allocator) {
                    Ok(()) => {},
                    Err(e) => {
                        return Err(e);
                    },
                }
                return Err(err);
            },
        }
        page = page + 1;
    }
    record.publish();
    let spans = record.spans();
    let mut k: usize = 0;
    while k < spans.len()
        invariant
            k <= spans@.len(),
            spans@ == record.spec_spans(),
            address_space.owned_table_pages@ == space0.owned_table_pages@ + spans@.subrange(0, k as int),
            address_space.root_table_phys_addr == space0.root_table_phys_addr,
            address_space.root_table_virt_addr == space0.root_table_virt_addr,
            address_space.kind == space0.kind,
            address_space.managed_phys_limit == space0.managed_phys_limit,
            address_space.private_mapping_floor == space0.private_mapping_floor,
            address_space.private_mapping_ceiling == space0.private_mapping_ceiling,
            address_space.next_kernel_alloc_virt == space0.next_kernel_alloc_virt,
            address_space.kernel_regions@ == space0.kernel_regions@,
            ok ==> forall|w: u64| #[trigger] leaf_entry(memory@, root, w) == mapped_leaf(mem0, root, request, request.page_count as int, w),
            ok ==> writes_within(mem0, memory@, alloc0, root),
            ok ==> root_slots_kept(mem0, memory@, root, request, request.page_count as int),
            allocator.wf(),
            memory.wf(),
            spec_validate(space0, request) is Ok,
            space0 == *old(address_space),
            root == space0.root_table_phys_addr,
            mem0 == old(memory)@,
            alloc0 == old(allocator)@,
            allocator@.managed_page_count() == alloc0.managed_page_count(),
            allocated_pages(alloc0, allocator@, record.spec_spans()),
            ok == (tree_wf(mem0, root, alloc0) && phys_fits(alloc0)),
            ok ==> tree_wf(memory@, root, allocator@) && phys_fits(allocator@),
            ok && !request.allow_overwrite ==> forall|k: int|
                0 <= k < request.page_count ==> leaf_entry(mem0, root, #[trigger] request_page(request, k)) is None,
            ok && !request.allow_overwrite ==> forall|j: int, k: int|
                0 <= j < k < request.page_count ==> !same_slots(#[trigger] request_page(request, j), #[trigger] request_page(request, k)),
            ok ==> spans@.len() <= tables_for_pages(request.start_virt_addr, request.page_count as int),
            ok ==> forall|q: u64| #[trigger] reachable(memory@, root, q) == (reachable(mem0, root, q) || span_start_in(spans@, 0, q)),
            owed == map_owed(space0, alloc0, mem0, request),
        decreases spans@.len() - k,
    {
        match address_space.record_owned_span(spans[k]) {
            Ok(()) => {},
            Err(e) => {
                assert(!owed);
                assert(ok ==> leaves_mapped(memory@, mem0, root, request, request.page_count as int));
                assert(ok ==> space0.owned_table_pages@.len() + tables_for_pages(request.start_virt_addr, request.page_count as int)
                    > MAX_OWNED_SPANS);
                proof {
                    if ok {
                        lemma_taken_not_tables(mem0, root, alloc0, allocator@, spans@);
                        assert(fresh_tables(mem0, memory@, root, spans@));
                    }
                }
                return Err(e);
            },
        }
        proof {
            assert(spans@.subrange(0, k + 1) =~= spans@.subrange(0, k as int).push(spans@[k as int]));
        }
        k = k + 1;
    }
    proof {
        let owned = space0.owned_table_pages@;
        let new_owned = address_space.owned_table_pages@;
        assert(spans@.subrange(0, k as int) =~= spans@);
        assert(new_owned.subrange(0, owned.len() as int) =~= owned);
        assert(new_owned.subrange(owned.len() as int, new_owned.len() as int) =~= spans@);
        if ok {
            assert forall|q: u64| #[trigger] reachable(memory@, root, q) == (reachable(mem0, root, q) || span_start_in(
                new_owned,
                owned.len() as int,
                q,
            )) by {
                if span_start_in(spans@, 0, q) {
                    let j = choose|j: int| 0 <= j < spans@.len() && #[trigger] spans@[j].start_phys_addr == q;
                    assert(new_owned[owned.len() + j] == spans@[j]);
                }
                if span_start_in(new_owned, owned.len() as int, q) {
                    let j = choose|j: int| owned.len() <= j < new_owned.len() && #[trigger] new_owned[j].start_phys_addr == q;
                    assert(spans@[j - owned.len()] == new_owned[j]);
                }
            }
            assert forall|k: int| owned.len() <= k < new_owned.len() implies !reachable(mem0, root, #[trigger] new_owned[k].start_phys_addr) by {
                let j = k - owned.len();
                assert(new_owned[k] == spans@[j]);
                let st = spans@[j].start_page_index as int;
                assert(alloc0.is_free(st));
                assert(spans@[j] == PageSpan::spec_new(spans@[j].start_page_index, 1));
                lemma_table_link_entry(st);
                if reachable(mem0, root, new_owned[k].start_phys_addr) {
                    let (w, l) = choose|w: u64, l: nat| l <= 3 && #[trigger] table_at(mem0, root, w, l) == Some(new_owned[k].start_phys_addr);
                    assert(!alloc0.is_free(frame_of(new_owned[k].start_phys_addr)));
                }
            }
        }
    }
    Ok(())
}

/// Removes the leaf entry for one page, if the walk reaches one.
fn clear_single_page(address_space: &mut AddressSpace, memory: &mut TableMemory, virt_addr: u64) -> (result: Result<(), PagingError>)
    requires
        old(memory).wf(),
    ensures
        final(memory).wf(),
        *final(address_space) == *old(address_space),
        result is Ok,
        ({
            let root = old(address_space).root_table_phys_addr;
            tree_shape(old(memory)@, root) ==> {
                &&& tree_shape(final(memory)@, root)
                &&& forall|w: u64, l: nat| l <= 3 ==> #[trigger] table_at(final(memory)@, root, w, l) == table_at(old(memory)@, root, w, l)
                &&& forall|w: u64| #[trigger] leaf_entry(final(memory)@, root, w) == if same_slots(w, virt_addr) {
                    None
                } else {
                    leaf_entry(old(memory)@, root, w)
                }
            }
        }),
{
    let ghost root = address_space.root_table_phys_addr;
    let ghost mem0 = memory@;
    let indexes = VirtualAddressLayout::indexes(virt_addr);
    let mut table_phys = address_space.root_table_phys_addr;
    let mut depth: usize = 0;
    while depth < 3
        invariant
            memory.wf(),
            memory@ == mem0,
            mem0 == old(memory)@,
            depth <= 3,
            *address_space == *old(address_space),
            root == address_space.root_table_phys_addr,
            indexes@ == crate::memory::paging::table::spec_indexes(virt_addr),
            table_at(memory@, root, virt_addr, depth as nat) == Some(table_phys),
        decreases 3 - depth,
    {
        let index = indexes[depth];
        proof {
            lemma_index_bounds(virt_addr);
            lemma_indexes_at(virt_addr, depth as int);
            assert(index == indexes@[depth as int]);
        }
        let entry = address_space.read_table_entry(memory, table_phys, index);
        if entry == 0 {
            proof {
                crate::memory::paging::address_space::lemma_walk_stops(mem0, root, virt_addr, depth as nat);
                assert forall|w: u64| #[trigger] leaf_entry(mem0, root, w) == if same_slots(w, virt_addr) {
                    None
                } else {
                    leaf_entry(mem0, root, w)
                } by {
                    if same_slots(w, virt_addr) {
                        crate::memory::paging::walk::lemma_leaf_by_slots(mem0, root, w, virt_addr);
                    }
                }
            }
            return Ok(());
        }
        table_phys = entry & PAGE_TABLE_ADDR_MASK;
        depth = depth + 1;
    }
    let leaf_index = indexes[3];
    proof {
        lemma_index_bounds(virt_addr);
        lemma_indexes_at(virt_addr, 3);
        assert(leaf_index == indexes@[3]);
        memory.lemma_pages_sized();
        if tree_shape(mem0, root) {
            lemma_write_leaf(mem0, root, AllocatorState { used: Seq::empty(), allocatable: Seq::empty(), free_page_count: 0, metadata_span: PageSpan::spec_new(0, 0), last_search_page: 0 }, virt_addr, table_phys, 0);
        }
    }
    address_space.clear_table_entry(memory, table_phys, leaf_index);
    Ok(())
}

/// The no-overflow condition of `unmap_range`: every page address of a non-empty
/// aligned range fits in 64 bits.
pub open spec fn unmap_in_bounds(start_virt_addr: u64, page_count: usize) -> bool {
    page_count > 0 && start_virt_addr % 4096 == 0 ==> {
        &&& start_virt_addr + (page_count - 1) * 4096 <= u64::MAX
        &&& (page_count - 1) * 4096 <= usize::MAX
    }
}

/// Unmaps `page_count` pages from `start_virt_addr`. An empty or unaligned request is
/// refused and changes nothing; otherwise every page of the range ends up unmapped
/// and no table or other translation changes.
pub fn unmap_range(address_space: &mut AddressSpace, memory: &mut TableMemory, start_virt_addr: u64, page_count: usize) -> (result: Result<(), PagingError>)
    requires
        old(memory).wf(),
        unmap_in_bounds(start_virt_addr, page_count),
    ensures
        final(memory).wf(),
        *final(address_space) == *old(address_space),
        page_count == 0 ==> result == Err::<(), PagingError>(PagingError::EmptyRequest) && final(memory)@ == old(memory)@,
        page_count != 0 && start_virt_addr % 4096 != 0 ==> result == Err::<(), PagingError>(PagingError::UnalignedAddress)
            && final(memory)@ == old(memory)@,
        page_count != 0 && start_virt_addr % 4096 == 0 ==> {
            let root = old(address_space).root_table_phys_addr;
            &&& result is Ok
            &&& tree_shape(old(memory)@, root) ==> {
                &&& tree_shape(final(memory)@, root)
                &&& forall|w: u64, l: nat| l <= 3 ==> #[trigger] table_at(final(memory)@, root, w, l) == table_at(old(memory)@, root, w, l)
                &&& forall|w: u64| #[trigger] leaf_entry(final(memory)@, root, w) == unmapped_leaf(old(memory)@, root, start_virt_addr, page_count as int, w)
            }
        },
{
    if page_count == 0 {
        return Err(PagingError::EmptyRequest);
    }
    if !VirtualAddressLayout::is_page_aligned(start_virt_addr) {
        return Err(PagingError::UnalignedAddress);
    }
    let ghost root = address_space.root_table_phys_addr;
    let ghost mem0 = memory@;
    let ghost shaped = tree_shape(mem0, root);
    let mut page: usize = 0;
    while page < page_count
        invariant
            memory.wf(),
            page <= page_count,
            unmap_in_bounds(start_virt_addr, page_count),
            page_count > 0,
            start_virt_addr % 4096 == 0,
            *address_space == *old(address_space),
            root == address_space.root_table_phys_addr,
            mem0 == old(memory)@,
            shaped == tree_shape(mem0, root),
            shaped ==> tree_shape(memory@, root),
            shaped ==> forall|w: u64, l: nat| l <= 3 ==> #[trigger] table_at(memory@, root, w, l) == table_at(mem0, root, w, l),
            shaped ==> forall|w: u64| #[trigger] leaf_entry(memory@, root, w) == unmapped_leaf(mem0, root, start_virt_addr, page as int, w),
        decreases page_count - page,
    {
        let virt_addr = start_virt_addr + (page * PAGE_SIZE) as u64;
        let ghost mem_before = memory@;
        match clear_single_page(address_space, memory, virt_addr) {
            Ok(()) => {},
            Err(e) => {
                return Err(e);
            },
        }
        proof {
            if shaped {
                assert(virt_addr == (start_virt_addr + page * 4096) as u64);
                assert forall|w: u64| #[trigger] leaf_entry(memory@, root, w) == unmapped_leaf(mem0, root, start_virt_addr, page + 1, w) by {
                    assert(leaf_entry(mem_before, root, w) == unmapped_leaf(mem0, root, start_virt_addr, page as int, w));
                }
                assert forall|w: u64, l: nat| l <= 3 implies #[trigger] table_at(memory@, root, w, l) == table_at(mem0, root, w, l) by {
                    assert(table_at(mem_before, root, w, l) == table_at(mem0, root, w, l));
                }
            }
        }
        page = page + 1;
    }
    Ok(())
}

/// After taking one more frame into use without recording it, the recorded frames
/// are still the ones taken from some earlier state.
proof fn lemma_allocated_extra(before: AllocatorState, mid: AllocatorState, spans: Seq<PageSpan>)
    requires
        allocated_pages(before, mid, spans),
        mid.managed_page_count() <= usize::MAX,
        mid.allocate(1).1 is Allocated,
    ensures
        exists|st: AllocatorState| allocated_pages(st, mid.allocate(1).0, spans),
{
    lemma_allocated_push(before, mid, spans);
    let span = mid.allocate(1).1->Allocated_0;
    let s = span.start_page_index as int;
    let after = mid.allocate(1).0;
    let st = AllocatorState {
        used: before.used.update(s, true),
        free_page_count: (before.free_page_count - 1) as nat,
        ..before
    };
    assert(before.is_free(s)) by {
        assert(allocated_pages(before, after, spans.push(span)));
        assert(spans.push(span)[spans.len() as int] == span);
    }
    crate::memory::bitmap::lemma_count_bounds(before, before.used.len() as int, s);
    assert forall|k: int| 0 <= k < spans.len() implies #[trigger] spans[k] == PageSpan::spec_new(spans[k].start_page_index, 1)
        && st.is_free(spans[k].start_page_index as int) by {
        assert(spans[k].start_page_index != s) by {
            if spans[k].start_page_index == s {
                assert(crate::memory::paging::address_space::frame_in(spans, s));
                assert(mid.used[s]);
            }
        }
    }
    assert forall|i: int| 0 <= i < after.used.len() implies #[trigger] after.used[i] == (st.used[i] || crate::memory::paging::address_space::frame_in(spans, i)) by {
        assert(after.used[i] == (before.used[i] || crate::memory::paging::address_space::frame_in(spans.push(span), i)));
        if crate::memory::paging::address_space::frame_in(spans.push(span), i) {
            let k = choose|k: int| 0 <= k < spans.push(span).len() && #[trigger] spans.push(span)[k].start_page_index == i;
            if k < spans.len() {
                assert(spans.push(span)[k] == spans[k]);
                assert(crate::memory::paging::address_space::frame_in(spans, i));
            }
        }
        if crate::memory::paging::address_space::frame_in(spans, i) {
            let k = choose|k: int| 0 <= k < spans.len() && #[trigger] spans[k].start_page_index == i;
            assert(spans.push(span)[k] == spans[k]);
        }
    }
    assert(allocated_pages(st, after, spans));
}

/// When mapping one page cannot fail: the tree is well formed, a frame is free and
/// may be recorded for each table the walk has to create, and the page is unmapped
/// or may be overwritten.
pub open spec fn single_page_owed(
    alloc: AllocatorState,
    mem: Map<u64, Seq<u64>>,
    recorded: nat,
    root: u64,
    virt_addr: u64,
    allow_overwrite: bool,
) -> bool {
    &&& tree_wf(mem, root, alloc)
    &&& phys_fits(alloc)
    &&& alloc.free_page_count >= missing_tables(mem, root, virt_addr)
    &&& recorded + missing_tables(mem, root, virt_addr) <= MAX_OWNED_SPANS
    &&& allow_overwrite || leaf_entry(mem, root, virt_addr) is None
}

/// Maps one page: walks down from the root, creating missing tables, and writes
/// the leaf entry unless one is present and overwriting is off.
fn map_single_page(
    address_space: &mut AddressSpace,
    allocator: &mut BitmapAllocator,
    record: &mut PagingAllocationRecord,
    memory: &mut TableMemory,
    virt_addr: u64,
    phys_addr: PhysAddr,
    flags: EntryFlags,
    allow_overwrite: bool,
    Ghost(start): Ghost<AllocatorState>,
) -> (result: Result<(), PagingError>)
    requires
        old(allocator).wf(),
        old(memory).wf(),
        allocated_pages(start, old(allocator)@, old(record).spec_spans()),
    ensures
        final(allocator).wf(),
        final(memory).wf(),
        *final(address_space) == *old(address_space),
        final(record).spec_published() == old(record).spec_published(),
        final(allocator)@.managed_page_count() == old(allocator)@.managed_page_count(),
        result != Err::<(), PagingError>(PagingError::CapacityExceeded) ==> allocated_pages(start, final(allocator)@, final(record).spec_spans()),
        result == Err::<(), PagingError>(PagingError::CapacityExceeded) ==> exists|st: AllocatorState| allocated_pages(st, final(allocator)@, final(record).spec_spans()),
        result == Err::<(), PagingError>(PagingError::CapacityExceeded) ==> exists|mid: AllocatorState| allocated_pages(start, mid, final(record).spec_spans()),
        ({
            let root = old(address_space).root_table_phys_addr;
            let ok = tree_wf(old(memory)@, root, old(allocator)@) && phys_fits(old(allocator)@);
            let x = (phys_addr | flags.spec_bits()) | 1u64;
            &&& ok ==> tree_wf(final(memory)@, root, final(allocator)@)
            &&& ok && result is Ok ==> forall|w: u64| #[trigger] leaf_entry(final(memory)@, root, w) == if same_slots(w, virt_addr) {
                Some(x)
            } else {
                leaf_entry(old(memory)@, root, w)
            }
            &&& ok && result is Err ==> forall|w: u64| #[trigger] leaf_entry(final(memory)@, root, w) == leaf_entry(old(memory)@, root, w)
            &&& ok && result is Ok && !allow_overwrite ==> leaf_entry(old(memory)@, root, virt_addr) is None
            &&& ok ==> writes_within(old(memory)@, final(memory)@, start, root)
            &&& ok ==> reach_within(old(memory)@, final(memory)@, start, root)
            &&& ok ==> final(record).spec_spans().len() <= old(record).spec_spans().len() + missing_tables(old(memory)@, root, virt_addr)
            &&& ok && result is Ok ==> table_at(final(memory)@, root, virt_addr, 3) is Some
            &&& ok && (result is Ok || result == Err::<(), PagingError>(PagingError::OutOfMemory) || result == Err::<(), PagingError>(
                PagingError::CapacityExceeded,
            )) ==> forall|q: u64| #[trigger] reachable(final(memory)@, root, q) == (reachable(old(memory)@, root, q)
                || span_start_in(final(record).spec_spans(), old(record).spec_spans().len() as int, q))
            &&& ok && result == Err::<(), PagingError>(PagingError::OutOfMemory) ==> final(allocator)@.free_page_count == 0
            &&& ok && result == Err::<(), PagingError>(PagingError::CapacityExceeded) ==> final(record).spec_spans().len()
                >= MAX_OWNED_SPANS
            &&& ok ==> forall|i: int| i != index_at(virt_addr, 0) ==> #[trigger] table_entry(final(memory)@, root, i)
                == table_entry(old(memory)@, root, i)
            &&& ok && result == Err::<(), PagingError>(PagingError::MappingConflict) ==> !allow_overwrite && leaf_entry(
                old(memory)@,
                root,
                virt_addr,
            ) is Some
            &&& ok && result == Err::<(), PagingError>(PagingError::OutOfMemory) ==> old(allocator)@.free_page_count < missing_tables(
                old(memory)@,
                root,
                virt_addr,
            )
            &&& ok && result == Err::<(), PagingError>(PagingError::CapacityExceeded) ==> old(record).spec_spans().len() + missing_tables(
                old(memory)@,
                root,
                virt_addr,
            ) > MAX_OWNED_SPANS
        }),
        result is Ok || result == Err::<(), PagingError>(PagingError::MappingConflict) || result == Err::<(), PagingError>(
            PagingError::OutOfMemory,
        ) || result == Err::<(), PagingError>(PagingError::CapacityExceeded),
        final(record).spec_spans().len() <= old(record).spec_spans().len() + 3,
        old(record).spec_spans().len() <= final(record).spec_spans().len(),
        final(record).spec_spans().subrange(0, old(record).spec_spans().len() as int) == old(record).spec_spans(),
        single_page_owed(
            old(allocator)@,
            old(memory)@,
            old(record).spec_spans().len(),
            old(address_space).root_table_phys_addr,
            virt_addr,
            allow_overwrite,
        ) ==> result is Ok,
{
    let ghost root = address_space.root_table_phys_addr;
    let ghost mem0 = memory@;
    let ghost ok = tree_wf(memory@, root, allocator@) && phys_fits(allocator@);
    let ghost owed = single_page_owed(allocator@, mem0, record.spec_spans().len(), root, virt_addr, allow_overwrite);
    let indexes = VirtualAddressLayout::indexes(virt_addr);
    let mut table_phys = address_space.root_table_phys_addr;
    let mut depth: usize = 0;
    proof {
        allocator.lemma_wf_bounds();
        lemma_within_refl(mem0, start, root);
    }
    while depth < 3
        invariant
            allocator.wf(),
            memory.wf(),
            depth <= 3,
            *address_space == *old(address_space),
            root == address_space.root_table_phys_addr,
            mem0 == old(memory)@,
            indexes@ == crate::memory::paging::table::spec_indexes(virt_addr),
            record.spec_published() == old(record).spec_published(),
            allocator@.managed_page_count() == old(allocator)@.managed_page_count(),
            allocated_pages(start, allocator@, record.spec_spans()),
            ok == (tree_wf(mem0, root, old(allocator)@) && phys_fits(old(allocator)@)),
            ok ==> tree_wf(memory@, root, allocator@) && phys_fits(allocator@),
            ok ==> table_at(memory@, root, virt_addr, depth as nat) == Some(table_phys),
            ok ==> forall|w: u64| #[trigger] leaf_entry(memory@, root, w) == leaf_entry(mem0, root, w),
            ok ==> writes_within(mem0, memory@, start, root),
            ok ==> reach_within(mem0, memory@, start, root),
            old(record).spec_spans().len() <= record.spec_spans().len() <= old(record).spec_spans().len() + depth,
            record.spec_spans().subrange(0, old(record).spec_spans().len() as int) == old(record).spec_spans(),
            ok ==> forall|q: u64| #[trigger] reachable(memory@, root, q) == (reachable(mem0, root, q) || span_start_in(
                record.spec_spans(),
                old(record).spec_spans().len() as int,
                q,
            )),
            record.spec_spans().len() == old(record).spec_spans().len() ==> memory@ == mem0,
            ok && record.spec_spans().len() > old(record).spec_spans().len() ==> record.spec_spans().len()
                - old(record).spec_spans().len() + 3 - depth <= missing_tables(mem0, root, virt_addr),
            old(allocator)@.free_page_count + old(record).spec_spans().len() == start.free_page_count,
            ok ==> forall|i: int| i != index_at(virt_addr, 0) ==> #[trigger] table_entry(memory@, root, i) == table_entry(mem0, root, i),
            owed == single_page_owed(old(allocator)@, mem0, old(record).spec_spans().len(), root, virt_addr, allow_overwrite),
        decreases 3 - depth,
    {
        let index = indexes[depth];
        proof {
            lemma_index_bounds(virt_addr);
            lemma_indexes_at(virt_addr, depth as int);
            assert(index == indexes@[depth as int]);
            allocator.lemma_wf_bounds();
            memory.lemma_pages_sized();
        }
        let entry = address_space.read_table_entry(memory, table_phys, index);
        let child = if entry == 0 {
            let ghost mem_before = memory@;
            let ghost alloc_before = allocator@;
            let ghost spans_before = record.spec_spans();
            proof {
                if ok && spans_before.len() == old(record).spec_spans().len() {
                    let lvl = (depth + 1) as nat;
                    assert(table_at(mem0, root, virt_addr, lvl) is None) by {
                        assert(index_at(virt_addr, depth as int) == index as int);
                        assert(table_at(mem0, root, virt_addr, depth as nat) == Some(table_phys));
                        assert((lvl - 1) as nat == depth as nat);
                    }
                    if table_at(mem0, root, virt_addr, 3) is Some {
                        crate::memory::paging::walk::lemma_walk_prefix_closed(mem0, root, virt_addr, lvl, 3);
                    }
                    if table_at(mem0, root, virt_addr, 2) is Some && lvl <= 2 {
                        crate::memory::paging::walk::lemma_walk_prefix_closed(mem0, root, virt_addr, lvl, 2);
                    }
                    assert(table_at(mem0, root, virt_addr, 3) is None);
                    assert(depth <= 1 ==> table_at(mem0, root, virt_addr, 2) is None);
                    assert(depth == 0 ==> table_at(mem0, root, virt_addr, 1) is None);
                    assert(missing_tables(mem0, root, virt_addr) >= 3 - depth);
                }
                assert(ok ==> spans_before.len() - old(record).spec_spans().len() + 3 - depth <= missing_tables(mem0, root, virt_addr));
            }
            let new_phys = match allocate_table(address_space, allocator, record, memory) {
                Ok(p) => p,
                Err(e) => {
                    proof {
                        if owed || (ok && alloc_before.free_page_count > 0) {
                            crate::memory::bitmap::lemma_allocate_one(alloc_before);
                        }
                        if alloc_before.allocate(1).1 is Allocated {
                            lemma_allocated_push(start, alloc_before, spans_before);
                            lemma_allocated_extra(start, alloc_before, spans_before);
                            let span = alloc_before.allocate(1).1->Allocated_0;
                            let s = span.start_page_index as int;
                            if ok {
                                lemma_table_link_entry(s);
                                assert forall|w: u64, l: nat| l <= 3 implies #[trigger] table_at(mem_before, root, w, l) != Some(span.start_phys_addr) by {
                                    if table_at(mem_before, root, w, l) == Some(span.start_phys_addr) {
                                        assert(!alloc_before.is_free(frame_of(span.start_phys_addr)));
                                    }
                                }
                                lemma_zero_fresh(mem_before, root, span.start_phys_addr, allocator@);
                                crate::memory::paging::walk::lemma_zero_reach(mem_before, root, span.start_phys_addr, allocator@);
                                lemma_tree_alloc_shrinks(mem_before, root, alloc_before, allocator@);
                                assert(tree_wf(memory@, root, allocator@));
                                assert(start.is_free(s));
                                lemma_insert_within(mem_before, span.start_phys_addr, zero_page(), start, root);
                                lemma_same_walks_within(mem_before, memory@, start, root);
                                lemma_within_trans(mem0, mem_before, memory@, start, root);
                                assert(forall|w: u64| #[trigger] leaf_entry(memory@, root, w) == leaf_entry(mem0, root, w));
                                assert(table_at(mem_before, root, virt_addr, 0) == Some(root));
                                assert forall|i: int| i != index_at(virt_addr, 0) implies #[trigger] table_entry(memory@, root, i)
                                    == table_entry(mem0, root, i) by {
                                    assert(table_entry(mem_before, root, i) == table_entry(mem0, root, i));
                                }
                            }
                        } else {
                            assert(memory@ == mem_before);
                            assert(allocator@ == alloc_before);
                        }
                        assert(ok ==> tree_wf(memory@, root, allocator@));
                        assert(ok ==> forall|w: u64| #[trigger] leaf_entry(memory@, root, w) == leaf_entry(mem0, root, w));
                    }
                    return Err(e);
                },
            };
            let ghost alloc_mid = allocator@;
            let ghost mem_mid = memory@;
            proof {
                assert(record.spec_spans().len() == spans_before.len() + 1);
                lemma_allocated_push(start, alloc_before, spans_before);
                let span = alloc_before.allocate(1).1->Allocated_0;
                let s = span.start_page_index as int;
                assert(new_phys == span.start_phys_addr);
                if ok {
                    lemma_table_link_entry(s);
                    assert forall|w: u64, l: nat| l <= 3 implies #[trigger] table_at(mem_before, root, w, l) != Some(new_phys) by {
                        if table_at(mem_before, root, w, l) == Some(new_phys) {
                            assert(!alloc_before.is_free(frame_of(new_phys)));
                        }
                    }
                    lemma_zero_fresh(mem_before, root, new_phys, alloc_mid);
                    lemma_tree_alloc_shrinks(mem_before, root, alloc_before, alloc_mid);
                    assert(tree_wf(mem_mid, root, alloc_mid));
                    assert(start.is_free(s));
                    lemma_insert_within(mem_before, new_phys, zero_page(), start, root);
                    lemma_same_walks_within(mem_before, mem_mid, start, root);
                    lemma_within_trans(mem0, mem_before, mem_mid, start, root);
                    assert(table_at(mem_mid, root, virt_addr, depth as nat) == Some(table_phys));
                    assert(table_phys != new_phys);
                    assert(table_entry(mem_mid, table_phys, index as int) == 0);
                    memory.lemma_pages_sized();
                    lemma_link_table(mem_mid, root, alloc_mid, virt_addr, depth as nat, table_phys, new_phys | 3u64, new_phys);
                    assert(table_at(mem_mid, root, virt_addr, depth as nat) == Some(table_phys));
                    lemma_insert_within(mem_mid, table_phys, table_page(mem_mid, table_phys).update(index as int, new_phys | 3u64), start, root);
                    let mem_linked = mem_mid.insert(table_phys, table_page(mem_mid, table_phys).update(index as int, new_phys | 3u64));
                    assert forall|v: u64, l: nat|
                        l <= 3 && #[trigger] table_at(mem_linked, root, v, l) is Some implies start.is_free(frame_of(table_at(mem_linked, root, v, l)->0))
                            || reachable(mem_mid, root, table_at(mem_linked, root, v, l)->0) by {
                        if table_at(mem_linked, root, v, l) == table_at(mem_mid, root, v, l) {
                            assert(table_at(mem_mid, root, v, l) is Some);
                        }
                    }
                    lemma_within_trans(mem0, mem_mid, mem_linked, start, root);
                    crate::memory::paging::walk::lemma_zero_reach(mem_before, root, new_phys, alloc_mid);
                    crate::memory::paging::walk::lemma_link_reach(mem_mid, root, alloc_mid, virt_addr, depth as nat, table_phys, new_phys | 3u64, new_phys);
                    let spans_now = record.spec_spans();
                    let from = old(record).spec_spans().len() as int;
                    assert(spans_now == spans_before.push(span));
                    assert forall|q: u64| #[trigger] reachable(mem_linked, root, q) == (reachable(mem0, root, q) || span_start_in(spans_now, from, q)) by {
                        assert(reachable(mem_before, root, q) == (reachable(mem0, root, q) || span_start_in(spans_before, from, q)));
                        if span_start_in(spans_before, from, q) {
                            let j = choose|j: int| from <= j < spans_before.len() && #[trigger] spans_before[j].start_phys_addr == q;
                            assert(spans_now[j] == spans_before[j]);
                        }
                        if span_start_in(spans_now, from, q) {
                            let j = choose|j: int| from <= j < spans_now.len() && #[trigger] spans_now[j].start_phys_addr == q;
                            if j < spans_before.len() {
                                assert(spans_now[j] == spans_before[j]);
                            }
                        }
                        if q == new_phys {
                            assert(spans_now[spans_before.len() as int].start_phys_addr == q);
                        }
                    }
                    assert(spans_now.subrange(0, from) =~= spans_before.subrange(0, from));
                    assert(table_at(mem_before, root, virt_addr, 0) == Some(root));
                    assert(root != new_phys);
                    assert(depth > 0 ==> table_phys != root) by {
                        assert(table_at(mem_mid, root, virt_addr, 0) == Some(root));
                    }
                    assert forall|i: int| i != index_at(virt_addr, 0) implies #[trigger] table_entry(mem_linked, root, i)
                        == table_entry(mem0, root, i) by {
                        assert(table_entry(mem_before, root, i) == table_entry(mem0, root, i));
                        assert(table_entry(mem_mid, root, i) == table_entry(mem_before, root, i));
                    }
                }
            }
            let link = new_phys | EntryFlags::present().bits() | EntryFlags::writable().bits();
            assert(link == new_phys | 3u64) by (bit_vector)
                requires
                    link == new_phys | 1u64 | 2u64,
            ;
            match address_space.write_table_entry(memory, table_phys, index, link) {
                Ok(()) => {},
                Err(e) => {
                    return Err(e);
                },
            }
            new_phys
        } else {
            entry & PAGE_TABLE_ADDR_MASK
        };
        table_phys = child;
        depth = depth + 1;
    }
    let leaf_index = indexes[3];
    proof {
        lemma_index_bounds(virt_addr);
        lemma_indexes_at(virt_addr, 3);
        assert(leaf_index == indexes@[3]);
        memory.lemma_pages_sized();
    }
    let existing = address_space.read_table_entry(memory, table_phys, leaf_index);
    if existing != 0 && !allow_overwrite {
        proof {
            if owed {
                assert(leaf_entry(memory@, root, virt_addr) == leaf_entry(mem0, root, virt_addr));
                assert(index_at(virt_addr, 3) == leaf_index as int);
            }
        }
        return Err(PagingError::MappingConflict);
    }
    let value = phys_addr | flags.bits() | EntryFlags::present().bits();
    proof {
        if ok {
            let fb = flags.spec_bits();
            assert(value != 0) by (bit_vector)
                requires
                    value == (phys_addr | fb) | 1u64,
            ;
            lemma_write_leaf(memory@, root, allocator@, virt_addr, table_phys, value);
            crate::memory::paging::walk::lemma_same_walks_reach(
                memory@,
                memory@.insert(table_phys, table_page(memory@, table_phys).update(index_at(virt_addr, 3), value)),
                root,
            );
            assert(table_at(memory@, root, virt_addr, 0) == Some(root));
            assert(table_phys != root);
            let mem_leaf = memory@.insert(table_phys, table_page(memory@, table_phys).update(index_at(virt_addr, 3), value));
            assert(table_at(memory@, root, virt_addr, 3) == Some(table_phys));
            lemma_insert_within(memory@, table_phys, table_page(memory@, table_phys).update(index_at(virt_addr, 3), value), start, root);
            lemma_same_walks_within(memory@, mem_leaf, start, root);
            lemma_within_trans(mem0, memory@, mem_leaf, start, root);
        }
    }
    let ghost mem_last = memory@;
    match address_space.write_table_entry(memory, table_phys, leaf_index, value) {
        Ok(()) => {},
        Err(e) => {
            return Err(e);
        },
    }
    proof {
        if ok {
            assert(tree_wf(memory@, root, allocator@));
            assert(forall|w: u64| #[trigger] leaf_entry(memory@, root, w) == if same_slots(w, virt_addr) {
                Some(value)
            } else {
                leaf_entry(mem0, root, w)
            });
            if !allow_overwrite {
                assert(leaf_entry(mem_last, root, virt_addr) is None);
            }
            assert forall|i: int| i != index_at(virt_addr, 0) implies #[trigger] table_entry(memory@, root, i)
                == table_entry(mem0, root, i) by {
                assert(table_entry(mem_last, root, i) == table_entry(mem0, root, i));
            }
        }
    }
    Ok(())
}

} // verus!
