//! A page-frame allocator that keeps two bitmaps over the managed frames: which
//! frames are in use, and which frames the allocator may hand out at all.

use vstd::prelude::*;

use crate::memory::map::{
    spec_div_ceil, AllocationResult, BootMemoryMapSnapshot, MemoryRegion, PageSpan, RegionKind, PAGE_SIZE,
};

verus! {

#[derive(Clone, Copy, Debug, PartialEq, Eq, Structural)]
pub enum InitError {
    EmptyMemoryMap,
    InvalidRegionLayout,
    MetadataPlacementFailed,
    StorageTooSmall,
}

// ---------------------------------------------------------------------------
// Bits in byte strings.

/// Bit `i` of a little-endian bit string stored in `bytes` (false past its end).
pub open spec fn spec_bit(bytes: Seq<u8>, i: int) -> bool {
    0 <= i && i / 8 < bytes.len() && (bytes[i / 8] & (1u8 << ((i % 8) as u8))) != 0
}

proof fn lemma_byte_bits(b: u8, k: u8, j: u8)
    requires
        k < 8,
        j < 8,
    ensures
        ((b | (1u8 << k)) & (1u8 << j) != 0) == (k == j || b & (1u8 << j) != 0),
        ((b & !(1u8 << k)) & (1u8 << j) != 0) == (k != j && b & (1u8 << j) != 0),
        0xffu8 & (1u8 << j) != 0,
        0u8 & (1u8 << j) == 0,
{
    assert(((b | (1u8 << k)) & (1u8 << j) != 0) == (k == j || b & (1u8 << j) != 0)) by (bit_vector)
        requires
            k < 8,
            j < 8,
    ;
    assert(((b & !(1u8 << k)) & (1u8 << j) != 0) == (k != j && b & (1u8 << j) != 0)) by (bit_vector)
        requires
            k < 8,
            j < 8,
    ;
    assert(0xffu8 & (1u8 << j) != 0) by (bit_vector)
        requires
            j < 8,
    ;
    assert(0u8 & (1u8 << j) == 0) by (bit_vector);
}

fn bit_is_set(bytes: &Vec<u8>, bit_index: usize) -> (set: bool)
    ensures
        set == spec_bit(bytes@, bit_index as int),
{
    let byte_index = bit_index / 8;
    let bit_offset = bit_index % 8;
    if byte_index < bytes.len() {
        let mask: u8 = 1u8 << (bit_offset as u8);
        bytes[byte_index] & mask != 0
    } else {
        false
    }
}

fn set_bit(bytes: &mut Vec<u8>, bit_index: usize, value: bool)
    ensures
        final(bytes)@.len() == old(bytes)@.len(),
        forall|j: int|
            #![trigger spec_bit(final(bytes)@, j)]
            spec_bit(final(bytes)@, j) == if j == bit_index && bit_index / 8 < old(bytes)@.len() {
                value
            } else {
                spec_bit(old(bytes)@, j)
            },
{
    let byte_index = bit_index / 8;
    let bit_offset = bit_index % 8;
    let mask: u8 = 1u8 << (bit_offset as u8);
    if byte_index < bytes.len() {
        let byte = bytes[byte_index];
        let new_byte = if value {
            byte | mask
        } else {
            byte & !mask
        };
        bytes.set(byte_index, new_byte);
        proof {
            assert forall|j: int| #![trigger spec_bit(bytes@, j)]
                spec_bit(bytes@, j) == if j == bit_index && bit_index / 8 < old(bytes)@.len() {
                    value
                } else {
                    spec_bit(old(bytes)@, j)
                } by {
                if 0 <= j && j / 8 == byte_index {
                    lemma_byte_bits(byte, bit_offset as u8, (j % 8) as u8);
                }
            }
        }
    }
}

/// Fills `bytes[0..len)` with `value`.
fn fill_bytes(bytes: &mut Vec<u8>, len: usize, value: u8)
    requires
        len <= old(bytes)@.len(),
    ensures
        final(bytes)@.len() == old(bytes)@.len(),
        forall|i: int| 0 <= i < len ==> final(bytes)@[i] == value,
        forall|i: int| len <= i < old(bytes)@.len() ==> final(bytes)@[i] == old(bytes)@[i],
{
    let mut i: usize = 0;
    while i < len
        invariant
            i <= len,
            len <= bytes@.len(),
            bytes@.len() == old(bytes)@.len(),
            forall|k: int| 0 <= k < i ==> bytes@[k] == value,
            forall|k: int| len <= k < old(bytes)@.len() ==> bytes@[k] == old(bytes)@[k],
        decreases len - i,
    {
        bytes.set(i, value);
        i = i + 1;
    }
}

// ---------------------------------------------------------------------------
// The abstract allocator state.

/// What an allocator holds, page by page: whether each managed page is in use and
/// whether it may be handed out at all.
pub struct AllocatorState {
    pub used: Seq<bool>,
    pub allocatable: Seq<bool>,
    pub free_page_count: nat,
    pub metadata_span: PageSpan,
    pub last_search_page: nat,
}

impl AllocatorState {
    pub open spec fn managed_page_count(self) -> nat {
        self.used.len()
    }

    /// A page is free when it is managed, may be handed out and is not in use.
    pub open spec fn is_free(self, i: int) -> bool {
        0 <= i < self.used.len() && self.allocatable[i] && !self.used[i]
    }

    /// Every page of `[start, start + count)` is managed and free.
    pub open spec fn run_free(self, start: int, count: int) -> bool {
        &&& 0 <= start
        &&& start + count <= self.used.len()
        &&& forall|i: int| start <= i < start + count ==> #[trigger] self.is_free(i)
    }

    /// `start` is the lowest page at or above `from` that begins a free run of `count` pages.
    pub open spec fn is_first_fit(self, from: int, count: int, start: int) -> bool {
        &&& from <= start
        &&& self.run_free(start, count)
        &&& forall|t: int| from <= t < start ==> !#[trigger] self.run_free(t, count)
    }

    /// The lowest page at or above `from` that begins a free run of `count` pages, if any.
    pub open spec fn first_fit(self, from: int, count: int) -> Option<int> {
        if exists|s: int| self.is_first_fit(from, count, s) {
            Some(choose|s: int| self.is_first_fit(from, count, s))
        } else {
            None
        }
    }

    /// Number of free pages among the first `n` pages.
    pub open spec fn free_pages_below(self, n: int) -> nat
        decreases n,
    {
        if n <= 0 {
            0
        } else {
            self.free_pages_below(n - 1) + if self.is_free(n - 1) { 1nat } else { 0nat }
        }
    }

    /// The stored free-page count agrees with the page states.
    pub open spec fn counts_agree(self) -> bool {
        &&& self.allocatable.len() == self.used.len()
        &&& self.free_page_count == self.free_pages_below(self.used.len() as int)
    }

    /// The state after marking `[start, start + count)` in use.
    pub open spec fn with_used_range(self, start: int, count: int, value: bool) -> Seq<bool> {
        Seq::new(self.used.len(), |i: int| if start <= i < start + count { value } else { self.used[i] })
    }

    /// What `allocate_pages(count)` does: reject an empty request, give up when fewer
    /// pages are free than asked for, else take the first free run at or above the
    /// last search position, or else the first from page 0.
    pub open spec fn allocate(self, count: int) -> (AllocatorState, AllocationResult) {
        if count == 0 {
            (self, AllocationResult::InvalidRequest)
        } else if count > self.free_page_count {
            (self, AllocationResult::OutOfMemory)
        } else {
            let found = match self.first_fit(self.last_search_page as int, count) {
                Some(s) => Some(s),
                None => self.first_fit(0, count),
            };
            match found {
                Some(s) => (
                    AllocatorState {
                        used: self.with_used_range(s, count, true),
                        free_page_count: (self.free_page_count - count) as nat,
                        last_search_page: (s + count) as nat,
                        ..self
                    },
                    AllocationResult::Allocated(PageSpan::spec_new(s as usize, count as usize)),
                ),
                None => (self, AllocationResult::OutOfMemory),
            }
        }
    }

    /// A span may be freed when it is non-empty, managed, and every page of it may be
    /// handed out and is in use.
    pub open spec fn can_free(self, span: PageSpan) -> bool {
        &&& span.page_count > 0
        &&& span.start_page_index + span.page_count <= self.used.len()
        &&& forall|i: int|
            span.start_page_index <= i < span.start_page_index + span.page_count
                ==> #[trigger] self.allocatable[i] && self.used[i]
    }

    /// What `free_pages(span)` does.
    pub open spec fn free(self, span: PageSpan) -> (AllocatorState, AllocationResult) {
        if self.can_free(span) {
            (
                AllocatorState {
                    used: self.with_used_range(span.start_page_index as int, span.page_count as int, false),
                    free_page_count: (self.free_page_count + span.page_count) as nat,
                    last_search_page: span.start_page_index as nat,
                    ..self
                },
                AllocationResult::Released(span),
            )
        } else {
            (self, AllocationResult::InvalidFree)
        }
    }
}

/// Changing the state of one page changes the free count by what that page's
/// free-ness changed by.
proof fn lemma_count_one_change(a: AllocatorState, b: AllocatorState, k: int, n: int)
    requires
        a.used.len() == b.used.len(),
        0 <= k,
        n <= a.used.len(),
        forall|i: int| 0 <= i < a.used.len() && i != k ==> a.is_free(i) == b.is_free(i),
    ensures
        b.free_pages_below(n) + (if k < n && a.is_free(k) { 1int } else { 0 }) == a.free_pages_below(n)
            + (if k < n && b.is_free(k) { 1int } else { 0 }),
    decreases n,
{
    if n > 0 {
        lemma_count_one_change(a, b, k, n - 1);
    }
}

/// The free count of the first `n` pages is at most `n`, and it counts a free page.
pub proof fn lemma_count_bounds(a: AllocatorState, n: int, k: int)
    requires
        0 <= n <= a.used.len(),
    ensures
        a.free_pages_below(n) <= n,
        0 <= k < n && a.is_free(k) ==> a.free_pages_below(n) >= 1,
        0 <= k < n && !a.is_free(k) ==> a.free_pages_below(n) <= n - 1,
    decreases n,
{
    if n > 0 {
        lemma_count_bounds(a, n - 1, k);
    }
}

/// Two states with the same page states have the same free counts.
proof fn lemma_count_same(a: AllocatorState, b: AllocatorState, n: int)
    requires
        a.used.len() == b.used.len(),
        n <= a.used.len(),
        forall|i: int| 0 <= i < a.used.len() ==> a.is_free(i) == b.is_free(i),
    ensures
        a.free_pages_below(n) == b.free_pages_below(n),
    decreases n,
{
    if n > 0 {
        lemma_count_same(a, b, n - 1);
    }
}

/// A first fit is unique, so `first_fit` names it.
proof fn lemma_first_fit_is(st: AllocatorState, from: int, count: int, s: int)
    requires
        st.is_first_fit(from, count, s),
    ensures
        st.first_fit(from, count) == Some(s),
{
    let c = choose|t: int| st.is_first_fit(from, count, t);
    assert(st.is_first_fit(from, count, c));
    if c < s {
        assert(!st.run_free(c, count));
    } else if s < c {
        assert(!st.run_free(s, count));
    }
}

/// With no free run at or above `from`, there is no first fit.
proof fn lemma_first_fit_none(st: AllocatorState, from: int, count: int)
    requires
        forall|s: int| from <= s ==> !#[trigger] st.run_free(s, count),
    ensures
        st.first_fit(from, count) is None,
{
    if exists|s: int| st.is_first_fit(from, count, s) {
        let c = choose|t: int| st.is_first_fit(from, count, t);
        assert(st.run_free(c, count));
    }
}

/// A free run at or above `from` means there is a first fit at or above `from`.
proof fn lemma_first_fit_some(st: AllocatorState, from: int, count: int, s: int)
    requires
        from <= s,
        st.run_free(s, count),
    ensures
        st.first_fit(from, count) is Some,
    decreases s - from,
{
    if exists|t: int| from <= t < s && #[trigger] st.run_free(t, count) {
        let t = choose|t: int| from <= t < s && #[trigger] st.run_free(t, count);
        lemma_first_fit_some(st, from, count, t);
    } else {
        assert(st.is_first_fit(from, count, s));
    }
}

/// The free pages among the first `n` include those of a free run that starts at `s`.
proof fn lemma_run_counted(st: AllocatorState, s: int, count: int, n: int)
    requires
        st.run_free(s, count),
        s <= n <= st.used.len(),
    ensures
        st.free_pages_below(n) >= (if n < s + count { n } else { s + count }) - s,
    decreases n - s,
{
    if n > s {
        lemma_run_counted(st, s, count, n - 1);
        if n - 1 < s + count {
            assert(st.is_free(n - 1));
        }
    }
}

/// An allocation of `count` pages succeeds whenever some run of `count` pages is free.
pub proof fn lemma_allocate_succeeds(st: AllocatorState, count: int, s: int)
    requires
        st.counts_agree(),
        count > 0,
        st.run_free(s, count),
    ensures
        st.allocate(count).1 is Allocated,
{
    lemma_run_counted(st, s, count, st.used.len() as int);
    lemma_first_fit_some(st, 0, count, s);
}

/// A single page can be allocated whenever the free count is not zero.
pub proof fn lemma_allocate_one(st: AllocatorState)
    requires
        st.counts_agree(),
        st.free_page_count > 0,
    ensures
        st.allocate(1).1 is Allocated,
{
    if forall|i: int| 0 <= i < st.used.len() ==> !st.is_free(i) {
        lemma_count_none_free(st, st.used.len() as int);
    }
    let i = choose|i: int| 0 <= i < st.used.len() && st.is_free(i);
    assert(st.run_free(i, 1));
    lemma_allocate_succeeds(st, 1, i);
}

/// One call on an allocator: `allocate_pages(count)` or `free_pages(span)`.
#[derive(Clone, Copy, Debug)]
pub enum AllocatorCall {
    Allocate(usize),
    Free(PageSpan),
}

/// What one call does to an allocator state, and what it returns.
pub open spec fn apply_call(st: AllocatorState, call: AllocatorCall) -> (AllocatorState, AllocationResult) {
    match call {
        AllocatorCall::Allocate(count) => st.allocate(count as int),
        AllocatorCall::Free(span) => st.free(span),
    }
}

/// The state after `calls`, made in order from `st`.
pub open spec fn apply_calls(st: AllocatorState, calls: Seq<AllocatorCall>) -> AllocatorState
    decreases calls.len(),
{
    if calls.len() == 0 {
        st
    } else {
        apply_call(apply_calls(st, calls.drop_last()), calls.last()).0
    }
}

/// Allocating and freeing never changes which pages are managed, which may be handed
/// out at all, or where the bitmaps live.
pub proof fn lemma_calls_keep_layout(st: AllocatorState, calls: Seq<AllocatorCall>)
    ensures
        apply_calls(st, calls).used.len() == st.used.len(),
        apply_calls(st, calls).allocatable == st.allocatable,
        apply_calls(st, calls).metadata_span == st.metadata_span,
    decreases calls.len(),
{
    if calls.len() > 0 {
        lemma_calls_keep_layout(st, calls.drop_last());
    }
}

/// A span handed out by an allocation is a run of pages that were free just before.
pub proof fn lemma_allocated_run_free(st: AllocatorState, count: usize)
    requires
        st.managed_page_count() <= usize::MAX,
    ensures
        st.allocate(count as int).1 matches AllocationResult::Allocated(span) ==> {
            &&& span == PageSpan::spec_new(span.start_page_index, count)
            &&& forall|i: int| #[trigger] span.spec_contains_page(i) ==> st.is_free(i)
        },
{
    if let AllocationResult::Allocated(span) = st.allocate(count as int).1 {
        let from = if st.first_fit(st.last_search_page as int, count as int) is Some {
            st.last_search_page as int
        } else {
            0
        };
        let s = st.first_fit(from, count as int)->0;
        assert(exists|t: int| st.is_first_fit(from, count as int, t));
        assert(st.is_first_fit(from, count as int, s));
        assert(span == PageSpan::spec_new(s as usize, count));
        assert forall|i: int| #[trigger] span.spec_contains_page(i) implies st.is_free(i) by {
            assert(st.run_free(s, count as int));
        }
    }
}

/// Whatever calls are made, every span an allocation hands out consists of pages
/// that the first state allows to be handed out; so, once the bitmap pages are not
/// allocatable, no allocation ever hands one of them out.
pub proof fn lemma_calls_hand_out_allocatable(st: AllocatorState, calls: Seq<AllocatorCall>, k: int)
    requires
        0 <= k < calls.len(),
        st.managed_page_count() <= usize::MAX,
    ensures
        apply_call(apply_calls(st, calls.take(k)), calls[k]).1 matches AllocationResult::Allocated(span) ==> forall|i: int|
            #[trigger] span.spec_contains_page(i) ==> 0 <= i < st.used.len() && st.allocatable[i],
        apply_call(apply_calls(st, calls.take(k)), calls[k]).1 matches AllocationResult::Allocated(span) ==> ((forall|i: int|
            0 <= i < st.used.len() && #[trigger] st.metadata_span.spec_contains_page(i) ==> !st.allocatable[i]) ==> forall|i: int|
            #[trigger] span.spec_contains_page(i) ==> !st.metadata_span.spec_contains_page(i)),
{
    let before = apply_calls(st, calls.take(k));
    lemma_calls_keep_layout(st, calls.take(k));
    if let AllocatorCall::Allocate(count) = calls[k] {
        lemma_allocated_run_free(before, count);
    }
}

/// A freshly built allocator never lets a bitmap page be handed out.
pub proof fn lemma_from_regions_reserves_metadata(regions: Seq<MemoryRegion>, storage_len: int)
    ensures
        spec_from_regions(regions, storage_len) matches Ok(state) ==> forall|i: int|
            0 <= i < state.used.len() && #[trigger] state.metadata_span.spec_contains_page(i) ==> !state.allocatable[i],
{
}

/// Pages handed out by an allocation were free and are in use afterwards, and
/// freeing the span that was handed out succeeds and gives back the page states and
/// free count from before the allocation.
pub proof fn lemma_allocate_then_free(st: AllocatorState, count: usize)
    requires
        st.counts_agree(),
        st.managed_page_count() <= usize::MAX,
    ensures
        st.allocate(count as int).1 matches AllocationResult::Allocated(span) ==> {
            let after = st.allocate(count as int).0;
            let (restored, freed) = after.free(span);
            &&& span.page_count == count
            &&& span == PageSpan::spec_new(span.start_page_index, count)
            &&& span.start_page_index + count <= st.managed_page_count()
            &&& forall|i: int| #![trigger span.spec_contains_page(i)]
                span.spec_contains_page(i) ==> st.is_free(i) && !after.is_free(i)
            &&& freed == AllocationResult::Released(span)
            &&& restored.used == st.used
            &&& restored.allocatable == st.allocatable
            &&& restored.free_page_count == st.free_page_count
            &&& restored.metadata_span == st.metadata_span
        },
{
    if let AllocationResult::Allocated(span) = st.allocate(count as int).1 {
        let found = match st.first_fit(st.last_search_page as int, count as int) {
            Some(s) => Some(s),
            None => st.first_fit(0, count as int),
        };
        let s = found->0;
        let from = if st.first_fit(st.last_search_page as int, count as int) is Some { st.last_search_page as int } else { 0 };
        assert(exists|t: int| st.is_first_fit(from, count as int, t));
        assert(st.is_first_fit(from, count as int, s));
        let after = st.allocate(count as int).0;
        lemma_count_bounds(st, st.used.len() as int, 0);
        assert(count != 0 && count <= st.free_page_count);
        assert(0 <= s && s + count <= st.used.len());
        assert(st.allocate(count as int).1 == AllocationResult::Allocated(PageSpan::spec_new(s as usize, count as usize)));
        assert((s as usize) as int == s);
        assert((count as usize) as int == count);
        assert(span == PageSpan::spec_new(s as usize, count as usize));
        assert(span.start_page_index == s && span.page_count == count);
        assert forall|i: int| #![trigger span.spec_contains_page(i)]
            span.spec_contains_page(i) implies st.is_free(i) && !after.is_free(i) by {
            assert(st.is_free(i));
        }
        assert(after.can_free(span)) by {
            assert forall|i: int| span.start_page_index <= i < span.start_page_index + span.page_count
                implies #[trigger] after.allocatable[i] && after.used[i] by {
                assert(st.is_free(i));
            }
        }
        let restored = after.free(span).0;
        assert(restored.used =~= st.used) by {
            assert forall|i: int| 0 <= i < st.used.len() implies restored.used[i] == st.used[i] by {
                if s <= i < s + count {
                    assert(st.is_free(i));
                }
            }
        }
    }
}

pub open spec fn spec_bitmap_len(managed_page_count: int) -> int {
    spec_div_ceil(managed_page_count, 8)
}

pub open spec fn spec_required_storage_bytes(managed_page_count: int) -> int {
    spec_bitmap_len(managed_page_count) * 2
}

pub open spec fn spec_metadata_page_count(managed_page_count: int) -> int {
    let pages = spec_div_ceil(spec_required_storage_bytes(managed_page_count), 4096);
    if pages >= 1 { pages } else { 1 }
}

proof fn lemma_div_ceil(value: int, divisor: int)
    requires
        value >= 0,
        divisor > 0,
    ensures
        spec_div_ceil(value, divisor) * divisor >= value,
        spec_div_ceil(value, divisor) >= 0,
        spec_div_ceil(value, divisor) <= value,
{
    vstd::arithmetic::div_mod::lemma_fundamental_div_mod(value, divisor);
    let q = value / divisor;
    let r = value % divisor;
    vstd::arithmetic::div_mod::lemma_div_pos_is_pos(value, divisor);
    assert(q * divisor == divisor * q) by (nonlinear_arith);
    assert((q + 1) * divisor == q * divisor + divisor) by (nonlinear_arith);
    if r != 0 {
        assert(q * divisor + r == value);
        assert(q + 1 <= value) by (nonlinear_arith)
            requires
                q * divisor + r == value,
                divisor >= 1,
                r >= 1,
                q >= 0,
        ;
    } else {
        assert(q <= value) by (nonlinear_arith)
            requires
                q * divisor == value,
                divisor >= 1,
                q >= 0,
        ;
    }
}

/// The allocator: a used bitmap and an allocatable bitmap over the managed frames.
pub struct BitmapAllocator {
    used_bits: Vec<u8>,
    allocatable_bits: Vec<u8>,
    managed_page_count: usize,
    free_page_count: usize,
    metadata_span: PageSpan,
    last_search_page: usize,
}

impl View for BitmapAllocator {
    type V = AllocatorState;

    closed spec fn view(&self) -> AllocatorState {
        AllocatorState {
            used: Seq::new(self.managed_page_count as nat, |i: int| spec_bit(self.used_bits@, i)),
            allocatable: Seq::new(
                self.managed_page_count as nat,
                |i: int| spec_bit(self.allocatable_bits@, i),
            ),
            free_page_count: self.free_page_count as nat,
            metadata_span: self.metadata_span,
            last_search_page: self.last_search_page as nat,
        }
    }
}

impl BitmapAllocator {
    /// The bitmaps cover every managed page, every page frame has a physical
    /// address, and the free count is the number of free pages.
    pub closed spec fn wf(&self) -> bool {
        &&& self.used_bits@.len() == spec_bitmap_len(self.managed_page_count as int)
        &&& self.allocatable_bits@.len() == spec_bitmap_len(self.managed_page_count as int)
        &&& self.managed_page_count * 4096 <= usize::MAX
        &&& self@.counts_agree()
    }

    /// A well-formed allocator's counts agree with its pages, and every managed frame
    /// has a byte address that fits in a `usize`.
    pub proof fn lemma_wf_bounds(&self)
        requires
            self.wf(),
        ensures
            self@.counts_agree(),
            self@.managed_page_count() * 4096 <= usize::MAX,
    {
    }

    proof fn lemma_bitmaps_cover(&self)
        requires
            self.used_bits@.len() == spec_bitmap_len(self.managed_page_count as int),
            self.allocatable_bits@.len() == spec_bitmap_len(self.managed_page_count as int),
        ensures
            self.managed_page_count <= 8 * self.used_bits@.len(),
            self.managed_page_count <= 8 * self.allocatable_bits@.len(),
    {
        lemma_div_ceil(self.managed_page_count as int, 8);
    }

    pub fn required_storage_bytes_for_managed_pages(managed_page_count: usize) -> (bytes: usize)
        ensures
            bytes == spec_required_storage_bytes(managed_page_count as int),
    {
        let bitmap_len = bitmap_len_bytes(managed_page_count);
        bitmap_len * 2
    }

    pub fn metadata_page_count_for_managed_pages(managed_page_count: usize) -> (pages: usize)
        ensures
            pages == spec_metadata_page_count(managed_page_count as int),
    {
        let total = Self::required_storage_bytes_for_managed_pages(managed_page_count);
        let pages = total / PAGE_SIZE + if total % PAGE_SIZE == 0 { 0 } else { 1 };
        if pages >= 1 {
            pages
        } else {
            1
        }
    }

    pub fn free_page_count(&self) -> (count: usize)
        ensures
            count == self@.free_page_count,
    {
        self.free_page_count
    }

    pub fn managed_page_count(&self) -> (count: usize)
        ensures
            count == self@.managed_page_count(),
    {
        self.managed_page_count
    }

    pub fn metadata_span(&self) -> (span: PageSpan)
        ensures
            span == self@.metadata_span,
    {
        self.metadata_span
    }

    pub fn is_page_allocatable(&self, page_index: usize) -> (allocatable: bool)
        ensures
            allocatable == (page_index < self@.managed_page_count()
                && self@.allocatable[page_index as int]),
    {
        page_index < self.managed_page_count && bit_is_set(&self.allocatable_bits, page_index)
    }

    pub fn is_page_free(&self, page_index: usize) -> (free: bool)
        ensures
            free == self@.is_free(page_index as int),
    {
        self.is_page_allocatable(page_index) && !bit_is_set(&self.used_bits, page_index)
    }

    pub fn allocate_page(&mut self) -> (result: AllocationResult)
        requires
            old(self).wf(),
        ensures
            final(self).wf(),
            (final(self)@, result) == old(self)@.allocate(1),
    {
        self.allocate_pages(1)
    }

    pub fn allocate_pages(&mut self, page_count: usize) -> (result: AllocationResult)
        requires
            old(self).wf(),
        ensures
            final(self).wf(),
            (final(self)@, result) == old(self)@.allocate(page_count as int),
    {
        if page_count == 0 {
            return AllocationResult::InvalidRequest;
        }
        if page_count > self.free_page_count {
            return AllocationResult::OutOfMemory;
        }
        let ghost old_state = self@;
        let first = self.find_free_run(page_count);
        let start = match first {
            Some(s) => Some(s),
            None => self.find_free_run_from(0, page_count),
        };
        proof {
            match first {
                Some(s) => lemma_first_fit_is(old_state, old_state.last_search_page as int, page_count as int, s as int),
                None => {
                    lemma_first_fit_none(old_state, old_state.last_search_page as int, page_count as int);
                    match start {
                        Some(s) => lemma_first_fit_is(old_state, 0, page_count as int, s as int),
                        None => lemma_first_fit_none(old_state, 0, page_count as int),
                    }
                },
            }
        }
        let start_page_index = match start {
            Some(s) => s,
            None => {
                return AllocationResult::OutOfMemory;
            },
        };
        proof {
            self.lemma_bitmaps_cover();
        }
        let end = start_page_index + page_count;
        let mut page_index = start_page_index;
        while page_index < end
            invariant
                start_page_index <= page_index <= end,
                end == start_page_index + page_count,
                old_state.run_free(start_page_index as int, page_count as int),
                old_state.counts_agree(),
                self.managed_page_count == old_state.managed_page_count(),
                self.used_bits@.len() == spec_bitmap_len(self.managed_page_count as int),
                self.allocatable_bits@.len() == spec_bitmap_len(self.managed_page_count as int),
                self.managed_page_count * 4096 <= usize::MAX,
                self.managed_page_count <= 8 * self.used_bits@.len(),
                self@.allocatable == old_state.allocatable,
                self@.used == old_state.with_used_range(
                    start_page_index as int,
                    page_index - start_page_index,
                    true,
                ),
                self@.free_pages_below(self.managed_page_count as int) + (page_index
                    - start_page_index) == old_state.free_page_count,
                self.free_page_count == old_state.free_page_count,
                self.metadata_span == old_state.metadata_span,
                self.last_search_page == old_state.last_search_page,
            decreases end - page_index,
        {
            let ghost before = self@;
            assert(old_state.is_free(page_index as int));
            set_bit(&mut self.used_bits, page_index, true);
            proof {
                assert(self@.used =~= before.used.update(page_index as int, true));
                assert(before.is_free(page_index as int));
                lemma_count_one_change(before, self@, page_index as int, self.managed_page_count as int);
                assert(self@.used =~= old_state.with_used_range(
                    start_page_index as int,
                    page_index + 1 - start_page_index,
                    true,
                ));
            }
            page_index = page_index + 1;
        }
        let ghost marked = self@;
        self.free_page_count = self.free_page_count - page_count;
        self.last_search_page = start_page_index + page_count;
        proof {
            lemma_count_same(marked, self@, self.managed_page_count as int);
        }
        match PageSpan::new(start_page_index, page_count) {
            Some(span) => AllocationResult::Allocated(span),
            None => AllocationResult::OutOfMemory,
        }
    }

    pub fn free_pages(&mut self, span: PageSpan) -> (result: AllocationResult)
        requires
            old(self).wf(),
            span.start_page_index + span.page_count <= usize::MAX,
        ensures
            final(self).wf(),
            (final(self)@, result) == old(self)@.free(span),
    {
        if span.page_count == 0 || span.start_page_index + span.page_count > self.managed_page_count {
            return AllocationResult::InvalidFree;
        }
        let ghost old_state = self@;
        let end = span.start_page_index + span.page_count;
        let mut page_index = span.start_page_index;
        while page_index < end
            invariant
                span.start_page_index <= page_index <= end,
                end == span.start_page_index + span.page_count,
                end <= self.managed_page_count,
                self@ == old_state,
                self.wf(),
                forall|i: int|
                    span.start_page_index <= i < page_index ==> #[trigger] old_state.allocatable[i]
                        && old_state.used[i],
            decreases end - page_index,
        {
            assert(self@.allocatable[page_index as int] == spec_bit(self.allocatable_bits@, page_index as int));
            assert(self@.used[page_index as int] == spec_bit(self.used_bits@, page_index as int));
            if !bit_is_set(&self.allocatable_bits, page_index) || !bit_is_set(&self.used_bits, page_index) {
                assert(!(old_state.allocatable[page_index as int] && old_state.used[page_index as int]));
                return AllocationResult::InvalidFree;
            }
            assert(old_state.allocatable[page_index as int] && old_state.used[page_index as int]);
            assert forall|i: int| span.start_page_index <= i < page_index + 1 implies #[trigger] old_state.allocatable[i]
                && old_state.used[i] by {
                if i == page_index as int {
                    assert(old_state.allocatable[page_index as int] && old_state.used[page_index as int]);
                }
            }
            page_index = page_index + 1;
        }
        proof {
            self.lemma_bitmaps_cover();
        }
        page_index = span.start_page_index;
        while page_index < end
            invariant
                span.start_page_index <= page_index <= end,
                end == span.start_page_index + span.page_count,
                end <= self.managed_page_count,
                old_state.can_free(span),
                old_state.counts_agree(),
                self.managed_page_count == old_state.managed_page_count(),
                self.used_bits@.len() == spec_bitmap_len(self.managed_page_count as int),
                self.allocatable_bits@.len() == spec_bitmap_len(self.managed_page_count as int),
                self.managed_page_count * 4096 <= usize::MAX,
                self.managed_page_count <= 8 * self.used_bits@.len(),
                self@.allocatable == old_state.allocatable,
                self@.used == old_state.with_used_range(
                    span.start_page_index as int,
                    page_index - span.start_page_index,
                    false,
                ),
                self@.free_pages_below(self.managed_page_count as int) == old_state.free_page_count
                    + (page_index - span.start_page_index),
                self.free_page_count == old_state.free_page_count,
                self.metadata_span == old_state.metadata_span,
                self.last_search_page == old_state.last_search_page,
            decreases end - page_index,
        {
            let ghost before = self@;
            assert(old_state.allocatable[page_index as int] && old_state.used[page_index as int]);
            assert forall|i: int| span.start_page_index <= i < page_index + 1 implies #[trigger] old_state.allocatable[i]
                && old_state.used[i] by {
                if i == page_index as int {
                    assert(old_state.allocatable[page_index as int] && old_state.used[page_index as int]);
                }
            }
            set_bit(&mut self.used_bits, page_index, false);
            proof {
                assert(self@.used =~= before.used.update(page_index as int, false));
                assert(!before.is_free(page_index as int));
                assert(self@.is_free(page_index as int));
                lemma_count_one_change(before, self@, page_index as int, self.managed_page_count as int);
                assert(self@.used =~= old_state.with_used_range(
                    span.start_page_index as int,
                    page_index + 1 - span.start_page_index,
                    false,
                ));
            }
            page_index = page_index + 1;
        }
        proof {
            lemma_count_bounds(self@, self.managed_page_count as int, 0);
        }
        let ghost marked = self@;
        self.free_page_count = self.free_page_count + span.page_count;
        self.last_search_page = span.start_page_index;
        proof {
            lemma_count_same(marked, self@, self.managed_page_count as int);
        }
        proof {
            assert(self@.used =~= old_state.with_used_range(
                span.start_page_index as int,
                span.page_count as int,
                false,
            ));
        }
        AllocationResult::Released(span)
    }

    /// Building an allocator from a memory map: the managed pages run up to the
    /// highest region end, regions may not overlap, the bitmaps live in the first
    /// usable region large enough, and `storage` must hold both bitmaps. Pages of
    /// usable regions start out free, all others (and the bitmap pages) unavailable.
    pub fn from_regions(regions: &[MemoryRegion], storage: Vec<u8>) -> (result: Result<Self, InitError>)
        requires
            regions_fit(regions@),
        ensures
            match (result, spec_from_regions(regions@, storage@.len() as int)) {
                (Ok(allocator), Ok(state)) => allocator.wf() && allocator@ == state,
                (Err(e), Err(expected)) => e == expected,
                _ => false,
            },
    {
        let managed_page_count = managed_page_count(regions);
        if managed_page_count == 0 {
            return Err(InitError::EmptyMemoryMap);
        }
        proof {
            lemma_regions_end_bounds(regions@);
        }
        match validate_regions(regions) {
            Ok(()) => {},
            Err(e) => {
                return Err(e);
            },
        }
        let metadata_pages = Self::metadata_page_count_for_managed_pages(managed_page_count);
        let metadata_span = match select_metadata_span(regions, metadata_pages) {
            Some(span) => span,
            None => {
                return Err(InitError::MetadataPlacementFailed);
            },
        };
        Self::initialize(regions, storage, managed_page_count, metadata_span)
    }

    /// Building an allocator from the firmware's memory-map snapshot: as
    /// `from_regions`, but the managed pages run up to the highest usable address,
    /// rounded up to a page. The bitmaps live in `storage`, which the caller provides
    /// (in the running kernel, the bytes of the bitmap pages).
    pub fn from_boot_snapshot(snapshot: &BootMemoryMapSnapshot, storage: Vec<u8>) -> (result: Result<Self, InitError>)
        requires
            regions_fit(snapshot.regions@),
            spec_div_ceil((snapshot.highest_usable_address as usize) as int, 4096) * 4096 <= usize::MAX,
        ensures
            match (result, spec_from_snapshot(snapshot.regions@, snapshot.highest_usable_address, storage@.len() as int)) {
                (Ok(allocator), Ok(state)) => allocator.wf() && allocator@ == state,
                (Err(e), Err(expected)) => e == expected,
                _ => false,
            },
    {
        let managed_page_count = snapshot.managed_page_count();
        if managed_page_count == 0 {
            return Err(InitError::EmptyMemoryMap);
        }
        match validate_regions(snapshot.regions) {
            Ok(()) => {},
            Err(e) => {
                return Err(e);
            },
        }
        let metadata_pages = Self::metadata_page_count_for_managed_pages(managed_page_count);
        let metadata_span = match select_metadata_span(snapshot.regions, metadata_pages) {
            Some(span) => span,
            None => {
                return Err(InitError::MetadataPlacementFailed);
            },
        };
        Self::initialize(snapshot.regions, storage, managed_page_count, metadata_span)
    }

    /// Progress of initialisation once the first `k` regions have been applied.
    closed spec fn init_progress(&self, regions: Seq<MemoryRegion>, k: int, span: PageSpan) -> bool {
        &&& self.used_bits@.len() == spec_bitmap_len(self.managed_page_count as int)
        &&& self.allocatable_bits@.len() == spec_bitmap_len(self.managed_page_count as int)
        &&& self.managed_page_count * 4096 <= usize::MAX
        &&& self.metadata_span == span
        &&& (span.start_page_index + span.page_count) * 4096 <= usize::MAX
        &&& self.last_search_page == 0
        &&& forall|i: int|
            0 <= i < self.managed_page_count ==> #[trigger] self@.allocatable[i] == (
            !span.spec_contains_page(i) && exists|j: int|
                0 <= j < k && #[trigger] covers(regions[j], i) && regions[j].kind
                    == RegionKind::Usable)
        &&& forall|i: int| 0 <= i < self.managed_page_count ==> #[trigger] self@.used[i] == !self@.allocatable[i]
        &&& self@.counts_agree()
    }

    fn initialize(
        regions: &[MemoryRegion],
        storage: Vec<u8>,
        managed_page_count: usize,
        metadata_span: PageSpan,
    ) -> (result: Result<Self, InitError>)
        requires
            regions_fit(regions@),
            regions_disjoint(regions@),
            managed_page_count * 4096 <= usize::MAX,
            managed_page_count > 0,
            spec_metadata_span(regions@, spec_metadata_page_count(managed_page_count as int))
                == Some(metadata_span),
        ensures
            storage@.len() < spec_required_storage_bytes(managed_page_count as int) ==> result == Err::<Self, InitError>(
                InitError::StorageTooSmall,
            ),
            storage@.len() >= spec_required_storage_bytes(managed_page_count as int) ==> (result matches Ok(allocator)
                && allocator.wf() && allocator@ == initial_state(regions@, managed_page_count as int, metadata_span)),
    {
        let required_storage_bytes = Self::required_storage_bytes_for_managed_pages(managed_page_count);
        if storage.len() < required_storage_bytes {
            return Err(InitError::StorageTooSmall);
        }
        proof {
            lemma_regions_end_bounds(regions@);
            lemma_metadata_span_in_regions(regions@, spec_metadata_page_count(managed_page_count as int));
            lemma_div_ceil(managed_page_count as int, 8);
        }
        let bitmap_len = bitmap_len_bytes(managed_page_count);
        let mut storage = storage;
        storage.truncate(required_storage_bytes);
        let mut allocatable_bits = storage.split_off(bitmap_len);
        let mut used_bits = storage;
        fill_bytes(&mut used_bits, bitmap_len, 0xff);
        fill_bytes(&mut allocatable_bits, bitmap_len, 0x00);
        let mut allocator = BitmapAllocator {
            used_bits,
            allocatable_bits,
            managed_page_count,
            free_page_count: 0,
            metadata_span,
            last_search_page: 0,
        };
        proof {
            assert forall|i: int| 0 <= i < managed_page_count implies !#[trigger] allocator@.allocatable[i] && allocator@.used[i] by {
                lemma_byte_bits(0, 0, (i % 8) as u8);
            }
            lemma_count_none_free(allocator@, managed_page_count as int);
            let required = spec_metadata_page_count(managed_page_count as int);
            let j = choose|j: int|
                0 <= j < regions@.len() && #[trigger] holds_metadata(regions@[j], required)
                    && metadata_span == PageSpan::spec_new(regions@[j].start_page_index, required as usize);
            assert(allocator.init_progress(regions@, 0, metadata_span));
        }
        let mut k: usize = 0;
        while k < regions.len()
            invariant
                k <= regions@.len(),
                regions_fit(regions@),
                regions_disjoint(regions@),
                allocator.managed_page_count == managed_page_count,
                allocator.init_progress(regions@, k as int, metadata_span),
            decreases regions@.len() - k,
        {
            allocator.apply_region(regions[k], Ghost(regions@), Ghost(k as int));
            k = k + 1;
        }
        let ghost applied = allocator@;
        let span_end = metadata_span.start_page_index + metadata_span.page_count;
        let end = if span_end < managed_page_count { span_end } else { managed_page_count };
        let mut page_index = metadata_span.start_page_index;
        while page_index < end
            invariant
                metadata_span.start_page_index <= page_index,
                page_index <= end || page_index == metadata_span.start_page_index,
                end <= managed_page_count,
                end <= metadata_span.start_page_index + metadata_span.page_count,
                allocator.managed_page_count == managed_page_count,
                allocator.init_progress(regions@, regions@.len() as int, metadata_span),
                allocator@ == applied,
            decreases end - page_index,
        {
            let ghost before = allocator@;
            if allocator.is_page_free(page_index) {
                allocator.free_page_count = allocator.free_page_count - 1;
            }
            set_bit(&mut allocator.allocatable_bits, page_index, false);
            set_bit(&mut allocator.used_bits, page_index, true);
            proof {
                assert(allocator@.allocatable =~= before.allocatable);
                assert(allocator@.used =~= before.used);
            }
            page_index = page_index + 1;
        }
        proof {
            let pages = initial_pages(regions@, managed_page_count as int, metadata_span);
            assert(allocator@.allocatable =~= pages.allocatable);
            assert(allocator@.used =~= pages.used);
            lemma_count_same(allocator@, pages, managed_page_count as int);
        }
        Ok(allocator)
    }

    /// Marks the pages of one region: usable pages outside the bitmap storage become
    /// free, pages of every other kind unavailable.
    fn apply_region(&mut self, region: MemoryRegion, Ghost(regions): Ghost<Seq<MemoryRegion>>, Ghost(k): Ghost<int>)
        requires
            0 <= k < regions.len(),
            regions[k] == region,
            regions_fit(regions),
            regions_disjoint(regions),
            old(self).init_progress(regions, k, old(self).metadata_span),
        ensures
            final(self).init_progress(regions, k + 1, old(self).metadata_span),
            final(self).managed_page_count == old(self).managed_page_count,
    {
        let ghost span = self.metadata_span;
        assert((region.start_page_index + region.page_count) * 4096 <= usize::MAX);
        let region_end = region.end_page_index();
        let end_page_index = if region_end < self.managed_page_count {
            region_end
        } else {
            self.managed_page_count
        };
        proof {
            lemma_div_ceil(self.managed_page_count as int, 8);
        }
        let mut page_index = region.start_page_index;
        while page_index < end_page_index
            invariant
                0 <= k < regions.len(),
                regions[k] == region,
                regions_disjoint(regions),
                region.start_page_index <= page_index,
                page_index <= end_page_index || page_index == region.start_page_index,
                end_page_index == if region.start_page_index + region.page_count < self.managed_page_count {
                    region.start_page_index + region.page_count
                } else {
                    self.managed_page_count as int
                },
                self.managed_page_count == old(self).managed_page_count,
                self.used_bits@.len() == spec_bitmap_len(self.managed_page_count as int),
                self.allocatable_bits@.len() == spec_bitmap_len(self.managed_page_count as int),
                self.managed_page_count <= 8 * self.used_bits@.len(),
                self.managed_page_count <= 8 * self.allocatable_bits@.len(),
                self.managed_page_count * 4096 <= usize::MAX,
                self.metadata_span == span,
                (span.start_page_index + span.page_count) * 4096 <= usize::MAX,
                self.last_search_page == 0,
                forall|i: int|
                    0 <= i < self.managed_page_count ==> #[trigger] self@.allocatable[i] == (
                    !span.spec_contains_page(i) && ((exists|j: int|
                        0 <= j < k && #[trigger] covers(regions[j], i) && regions[j].kind
                            == RegionKind::Usable) || (region.kind == RegionKind::Usable
                        && region.start_page_index <= i < page_index))),
                forall|i: int| 0 <= i < self.managed_page_count ==> #[trigger] self@.used[i] == !self@.allocatable[i],
                self@.counts_agree(),
            decreases end_page_index - page_index,
        {
            let ghost before = self@;
            proof {
                assert forall|j: int| 0 <= j < k implies !#[trigger] covers(regions[j], page_index as int) by {
                    if covers(regions[j], page_index as int) {
                        assert(regions_overlap(regions[j], regions[k]));
                    }
                }
                assert(!before.allocatable[page_index as int]);
            }
            match region.kind {
                RegionKind::Usable => {
                    if !self.metadata_span.contains_page(page_index) {
                        if !bit_is_set(&self.allocatable_bits, page_index) {
                            proof {
                                lemma_count_bounds(before, self.managed_page_count as int, page_index as int);
                            }
                            self.free_page_count = self.free_page_count + 1;
                        }
                        set_bit(&mut self.allocatable_bits, page_index, true);
                        set_bit(&mut self.used_bits, page_index, false);
                        proof {
                            let after = self@;
                            assert(after.allocatable =~= before.allocatable.update(page_index as int, true));
                            assert(after.used =~= before.used.update(page_index as int, false));
                            lemma_count_one_change(before, after, page_index as int, self.managed_page_count as int);
                        }
                    }
                },
                _ => {
                    if self.is_page_free(page_index) {
                        self.free_page_count = self.free_page_count - 1;
                    }
                    set_bit(&mut self.allocatable_bits, page_index, false);
                    set_bit(&mut self.used_bits, page_index, true);
                    proof {
                        assert(self@.allocatable =~= before.allocatable);
                        assert(self@.used =~= before.used);
                    }
                },
            }
            page_index = page_index + 1;
        }
        proof {
            assert forall|i: int| 0 <= i < self.managed_page_count implies #[trigger] self@.allocatable[i] == (
                !span.spec_contains_page(i) && exists|j: int|
                    0 <= j < k + 1 && #[trigger] covers(regions[j], i) && regions[j].kind
                        == RegionKind::Usable) by {
                if covers(regions[k], i) && region.kind == RegionKind::Usable {
                    assert(region.start_page_index <= i < page_index);
                }
                if region.kind == RegionKind::Usable && region.start_page_index <= i < page_index {
                    assert(covers(regions[k], i));
                }
            }
        }
    }

    fn find_free_run(&self, page_count: usize) -> (start: Option<usize>)
        requires
            page_count > 0,
        ensures
            match start {
                Some(s) => self@.is_first_fit(self@.last_search_page as int, page_count as int, s as int),
                None => forall|s: int|
                    self@.last_search_page <= s ==> !#[trigger] self@.run_free(s, page_count as int),
            },
    {
        self.find_free_run_from(self.last_search_page, page_count)
    }

    fn find_free_run_from(&self, start: usize, page_count: usize) -> (found: Option<usize>)
        requires
            page_count > 0,
        ensures
            match found {
                Some(s) => self@.is_first_fit(start as int, page_count as int, s as int),
                None => forall|s: int| start <= s ==> !#[trigger] self@.run_free(s, page_count as int),
            },
    {
        let ghost st = self@;
        let mut run_start: usize = 0;
        let mut run_len: usize = 0;
        let mut page_index = start;
        while page_index < self.managed_page_count
            invariant
                st == self@,
                page_count > 0,
                start <= page_index,
                run_len < page_count,
                run_len <= page_index - start,
                run_len > 0 ==> run_start == page_index - run_len,
                forall|i: int| page_index - run_len <= i < page_index ==> #[trigger] st.is_free(i),
                run_len == page_index - start || !st.is_free(page_index - run_len - 1),
                forall|t: int|
                    start <= t && t + page_count <= page_index ==> !#[trigger] st.run_free(t, page_count as int),
            decreases self.managed_page_count - page_index,
        {
            if self.is_page_free(page_index) {
                if run_len == 0 {
                    run_start = page_index;
                }
                run_len = run_len + 1;
                if run_len == page_count {
                    proof {
                        assert forall|t: int| start <= t < run_start implies !#[trigger] st.run_free(
                            t,
                            page_count as int,
                        ) by {
                            if t + page_count > page_index && st.run_free(t, page_count as int) {
                                assert(st.is_free(run_start - 1));
                            }
                        }
                    }
                    return Some(run_start);
                }
            } else {
                proof {
                    assert forall|t: int|
                        start <= t && t + page_count <= page_index + 1 implies !#[trigger] st.run_free(
                        t,
                        page_count as int,
                    ) by {
                        if t + page_count == page_index + 1 && st.run_free(t, page_count as int) {
                            assert(st.is_free(page_index as int));
                        }
                    }
                }
                run_len = 0;
            }
            proof {
                assert forall|t: int|
                    start <= t && t + page_count <= page_index + 1 implies !#[trigger] st.run_free(
                    t,
                    page_count as int,
                ) by {
                    if t + page_count == page_index + 1 && st.run_free(t, page_count as int) {
                        if run_len > 0 {
                            assert(t < page_index + 1 - run_len);
                            let u = page_index - run_len;
                            if u >= start {
                                assert(st.is_free(u));
                            }
                        }
                    }
                }
            }
            page_index = page_index + 1;
        }
        proof {
            assert forall|s: int| start <= s implies !#[trigger] st.run_free(s, page_count as int) by {
                if st.run_free(s, page_count as int) {
                    assert(s + page_count <= st.used.len());
                }
            }
        }
        None
    }
}

// ---------------------------------------------------------------------------
// Initialisation from a memory map.

/// Every region's page range has byte addresses that fit in a `usize`.
pub open spec fn regions_fit(regions: Seq<MemoryRegion>) -> bool {
    forall|j: int|
        0 <= j < regions.len() ==> (#[trigger] regions[j].start_page_index + regions[j].page_count)
            * 4096 <= usize::MAX
}

/// One past the highest page any region reaches (0 for no regions).
pub open spec fn spec_regions_end(regions: Seq<MemoryRegion>) -> int
    decreases regions.len(),
{
    if regions.len() == 0 {
        0
    } else {
        let rest = spec_regions_end(regions.drop_first());
        let end = regions[0].spec_end_page_index();
        if end >= rest {
            end
        } else {
            rest
        }
    }
}

/// Region `r` covers page `i`.
pub open spec fn covers(r: MemoryRegion, i: int) -> bool {
    r.start_page_index <= i < r.start_page_index + r.page_count
}

/// Two non-empty regions share a page.
pub open spec fn regions_overlap(a: MemoryRegion, b: MemoryRegion) -> bool {
    &&& a.page_count != 0
    &&& b.page_count != 0
    &&& a.start_page_index < b.start_page_index + b.page_count
    &&& b.start_page_index < a.start_page_index + a.page_count
}

/// No two regions of the map share a page.
pub open spec fn regions_disjoint(regions: Seq<MemoryRegion>) -> bool {
    forall|a: int, b: int|
        0 <= a < b < regions.len() ==> !regions_overlap(#[trigger] regions[a], #[trigger] regions[b])
}

/// A usable region large enough to hold the allocator's bitmaps.
pub open spec fn holds_metadata(r: MemoryRegion, required_pages: int) -> bool {
    r.kind == RegionKind::Usable && r.page_count >= required_pages
}

/// The bitmap pages at the start of the first usable region with room for them.
pub open spec fn spec_metadata_span(regions: Seq<MemoryRegion>, required_pages: int) -> Option<PageSpan>
    decreases regions.len(),
{
    if regions.len() == 0 {
        None
    } else if holds_metadata(regions[0], required_pages) {
        Some(PageSpan::spec_new(regions[0].start_page_index, required_pages as usize))
    } else {
        spec_metadata_span(regions.drop_first(), required_pages)
    }
}

/// Page `i` starts out free: some usable region covers it and it does not hold the bitmaps.
pub open spec fn initially_allocatable(regions: Seq<MemoryRegion>, metadata_span: PageSpan, i: int) -> bool {
    &&& !metadata_span.spec_contains_page(i)
    &&& exists|j: int|
        0 <= j < regions.len() && #[trigger] covers(regions[j], i) && regions[j].kind
            == RegionKind::Usable
}

/// The page states of a freshly built allocator, before its free count is filled in.
pub open spec fn initial_pages(regions: Seq<MemoryRegion>, managed: int, metadata_span: PageSpan) -> AllocatorState {
    let allocatable = Seq::new(managed as nat, |i: int| initially_allocatable(regions, metadata_span, i));
    AllocatorState {
        used: Seq::new(managed as nat, |i: int| !initially_allocatable(regions, metadata_span, i)),
        allocatable,
        free_page_count: 0,
        metadata_span,
        last_search_page: 0,
    }
}

/// A freshly built allocator over `managed` pages.
pub open spec fn initial_state(regions: Seq<MemoryRegion>, managed: int, metadata_span: PageSpan) -> AllocatorState {
    let pages = initial_pages(regions, managed, metadata_span);
    AllocatorState { free_page_count: pages.free_pages_below(managed), ..pages }
}

/// What `from_regions` builds from a memory map and `storage_len` bytes of bitmap storage.
pub open spec fn spec_from_regions(regions: Seq<MemoryRegion>, storage_len: int) -> Result<AllocatorState, InitError> {
    let managed = spec_regions_end(regions);
    if managed == 0 {
        Err(InitError::EmptyMemoryMap)
    } else if !regions_disjoint(regions) {
        Err(InitError::InvalidRegionLayout)
    } else {
        match spec_metadata_span(regions, spec_metadata_page_count(managed)) {
            None => Err(InitError::MetadataPlacementFailed),
            Some(span) => if storage_len < spec_required_storage_bytes(managed) {
                Err(InitError::StorageTooSmall)
            } else {
                Ok(initial_state(regions, managed, span))
            },
        }
    }
}

/// What `from_boot_snapshot` builds from the snapshot's regions, its highest usable
/// address and `storage_len` bytes of bitmap storage.
pub open spec fn spec_from_snapshot(regions: Seq<MemoryRegion>, highest_usable_address: u64, storage_len: int) -> Result<
    AllocatorState,
    InitError,
> {
    let managed = spec_div_ceil((highest_usable_address as usize) as int, 4096);
    if managed == 0 {
        Err(InitError::EmptyMemoryMap)
    } else if !regions_disjoint(regions) {
        Err(InitError::InvalidRegionLayout)
    } else {
        match spec_metadata_span(regions, spec_metadata_page_count(managed)) {
            None => Err(InitError::MetadataPlacementFailed),
            Some(span) => if storage_len < spec_required_storage_bytes(managed) {
                Err(InitError::StorageTooSmall)
            } else {
                Ok(initial_state(regions, managed, span))
            },
        }
    }
}

proof fn lemma_count_none_free(a: AllocatorState, n: int)
    requires
        n <= a.used.len(),
        forall|i: int| 0 <= i < a.used.len() ==> !a.is_free(i),
    ensures
        a.free_pages_below(n) == 0,
    decreases n,
{
    if n > 0 {
        lemma_count_none_free(a, n - 1);
    }
}

proof fn lemma_regions_end_nonneg(regions: Seq<MemoryRegion>)
    ensures
        spec_regions_end(regions) >= 0,
    decreases regions.len(),
{
    if regions.len() > 0 {
        lemma_regions_end_nonneg(regions.drop_first());
    }
}

proof fn lemma_regions_end_bounds(regions: Seq<MemoryRegion>)
    requires
        regions_fit(regions),
    ensures
        spec_regions_end(regions) >= 0,
        spec_regions_end(regions) * 4096 <= usize::MAX,
        forall|j: int| 0 <= j < regions.len() ==> #[trigger] regions[j].spec_end_page_index() <= spec_regions_end(regions),
    decreases regions.len(),
{
    if regions.len() > 0 {
        let rest = regions.drop_first();
        assert forall|j: int| 0 <= j < rest.len() implies (#[trigger] rest[j].start_page_index + rest[j].page_count) * 4096 <= usize::MAX by {
            assert(rest[j] == regions[j + 1]);
        }
        lemma_regions_end_bounds(rest);
        assert forall|j: int| 0 <= j < regions.len() implies #[trigger] regions[j].spec_end_page_index() <= spec_regions_end(regions) by {
            if j > 0 {
                assert(regions[j] == rest[j - 1]);
            }
        }
        assert((regions[0].start_page_index + regions[0].page_count) * 4096 <= usize::MAX);
    }
}

/// The highest page any region reaches, or 0 for an empty map.
fn managed_page_count(regions: &[MemoryRegion]) -> (count: usize)
    requires
        regions_fit(regions@),
    ensures
        count == spec_regions_end(regions@),
{
    let mut highest: usize = 0;
    let mut k: usize = 0;
    assert(regions@.subrange(0, regions@.len() as int) =~= regions@);
    proof {
        lemma_regions_end_nonneg(regions@);
    }
    while k < regions.len()
        invariant
            k <= regions@.len(),
            regions_fit(regions@),
            spec_regions_end(regions@) == if highest >= spec_regions_end(regions@.subrange(k as int, regions@.len() as int)) {
                highest as int
            } else {
                spec_regions_end(regions@.subrange(k as int, regions@.len() as int))
            },
        decreases regions@.len() - k,
    {
        let region = regions[k];
        assert((region.start_page_index + region.page_count) * 4096 <= usize::MAX) by {
            assert(regions@[k as int] == region);
        }
        proof {
            lemma_regions_end_nonneg(regions@.subrange(k + 1, regions@.len() as int));
        }
        let end = region.end_page_index();
        assert(regions@.subrange(k as int, regions@.len() as int).drop_first() =~= regions@.subrange(k + 1, regions@.len() as int));
        if end > highest {
            highest = end;
        }
        k = k + 1;
    }
    assert(regions@.subrange(k as int, regions@.len() as int).len() == 0);
    assert(regions@.subrange(0, regions@.len() as int) =~= regions@);
    highest
}

/// Rejects a map in which two non-empty regions share a page.
fn validate_regions(regions: &[MemoryRegion]) -> (result: Result<(), InitError>)
    requires
        regions_fit(regions@),
    ensures
        result is Ok <==> regions_disjoint(regions@),
        result is Err ==> result == Err::<(), InitError>(InitError::InvalidRegionLayout),
{
    let mut index: usize = 0;
    while index < regions.len()
        invariant
            index <= regions@.len(),
            regions_fit(regions@),
            forall|a: int, b: int|
                0 <= a < index && a < b < regions@.len() ==> !regions_overlap(#[trigger] regions@[a], #[trigger] regions@[b]),
        decreases regions@.len() - index,
    {
        let region = regions[index];
        if region.page_count != 0 {
            assert((region.start_page_index + region.page_count) * 4096 <= usize::MAX) by {
                assert(regions@[index as int] == region);
            }
            let mut other_index = index + 1;
            while other_index < regions.len()
                invariant
                    index < other_index <= regions@.len(),
                    region == regions@[index as int],
                    region.page_count != 0,
                    regions_fit(regions@),
                    (region.start_page_index + region.page_count) * 4096 <= usize::MAX,
                    forall|a: int, b: int|
                        0 <= a < index && a < b < regions@.len() ==> !regions_overlap(#[trigger] regions@[a], #[trigger] regions@[b]),
                    forall|b: int| index < b < other_index ==> !regions_overlap(region, #[trigger] regions@[b]),
                decreases regions@.len() - other_index,
            {
                let other = regions[other_index];
                if other.page_count != 0 {
                    assert((other.start_page_index + other.page_count) * 4096 <= usize::MAX) by {
                        assert(regions@[other_index as int] == other);
                    }
                    let overlaps = region.start_page_index < other.end_page_index()
                        && other.start_page_index < region.end_page_index();
                    if overlaps {
                        assert(regions_overlap(regions@[index as int], regions@[other_index as int]));
                        return Err(InitError::InvalidRegionLayout);
                    }
                }
                other_index = other_index + 1;
            }
        }
        index = index + 1;
    }
    Ok(())
}

/// The bitmap storage span: the first `required_pages` pages of the first usable
/// region that has that many.
fn select_metadata_span(regions: &[MemoryRegion], required_pages: usize) -> (span: Option<PageSpan>)
    requires
        regions_fit(regions@),
        required_pages > 0,
    ensures
        span == spec_metadata_span(regions@, required_pages as int),
{
    let mut k: usize = 0;
    assert(regions@.subrange(0, regions@.len() as int) =~= regions@);
    while k < regions.len()
        invariant
            k <= regions@.len(),
            regions_fit(regions@),
            required_pages > 0,
            spec_metadata_span(regions@, required_pages as int) == spec_metadata_span(regions@.subrange(k as int, regions@.len() as int), required_pages as int),
        decreases regions@.len() - k,
    {
        let region = regions[k];
        assert(regions@.subrange(k as int, regions@.len() as int)[0] == region);
        assert(regions@.subrange(k as int, regions@.len() as int).drop_first() =~= regions@.subrange(k + 1, regions@.len() as int));
        if region.kind == RegionKind::Usable && region.page_count >= required_pages {
            assert((region.start_page_index + region.page_count) * 4096 <= usize::MAX) by {
                assert(regions@[k as int] == region);
            }
            return PageSpan::new(region.start_page_index, required_pages);
        }
        k = k + 1;
    }
    None
}

proof fn lemma_metadata_span_in_regions(regions: Seq<MemoryRegion>, required_pages: int)
    requires
        regions_fit(regions),
        required_pages > 0,
    ensures
        spec_metadata_span(regions, required_pages) matches Some(span) ==> exists|j: int|
            0 <= j < regions.len() && #[trigger] holds_metadata(regions[j], required_pages)
                && span == PageSpan::spec_new(regions[j].start_page_index, required_pages as usize),
    decreases regions.len(),
{
    if regions.len() > 0 && !holds_metadata(regions[0], required_pages) {
        let rest = regions.drop_first();
        assert forall|j: int| 0 <= j < rest.len() implies (#[trigger] rest[j].start_page_index + rest[j].page_count) * 4096 <= usize::MAX by {
            assert(rest[j] == regions[j + 1]);
        }
        lemma_metadata_span_in_regions(rest, required_pages);
        if let Some(span) = spec_metadata_span(regions, required_pages) {
            let j = choose|j: int| 0 <= j < rest.len() && #[trigger] holds_metadata(rest[j], required_pages)
                && span == PageSpan::spec_new(rest[j].start_page_index, required_pages as usize);
            assert(rest[j] == regions[j + 1]);
            assert(holds_metadata(regions[j + 1], required_pages));
        }
    } else if regions.len() > 0 {
        assert(holds_metadata(regions[0], required_pages));
    }
}

fn bitmap_len_bytes(managed_page_count: usize) -> (len: usize)
    ensures
        len == spec_bitmap_len(managed_page_count as int),
{
    managed_page_count / 8 + if managed_page_count % 8 == 0 { 0 } else { 1 }
}

} // verus!
