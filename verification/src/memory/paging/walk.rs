//! The hardware page walk over table memory, and the tree shape that keeps
//! changes to one address's mapping from disturbing another.

use vstd::prelude::*;

use crate::memory::bitmap::AllocatorState;
use crate::memory::paging::table::{
    spec_pd_index, spec_pdpt_index, spec_pml4_index, spec_pt_index, PAGE_TABLE_ADDR_MASK,
};
use crate::memory::paging::table_memory::{table_entry, table_page, zero_page};

verus! {

/// The table index `v` selects at `level` (0 is the root).
pub open spec fn index_at(v: u64, level: int) -> int {
    if level == 0 {
        spec_pml4_index(v) as int
    } else if level == 1 {
        spec_pdpt_index(v) as int
    } else if level == 2 {
        spec_pd_index(v) as int
    } else {
        spec_pt_index(v) as int
    }
}

/// `v` and `w` select the same entry at every level, i.e. lie in the same page.
pub open spec fn same_slots(v: u64, w: u64) -> bool {
    &&& spec_pml4_index(v) == spec_pml4_index(w)
    &&& spec_pdpt_index(v) == spec_pdpt_index(w)
    &&& spec_pd_index(v) == spec_pd_index(w)
    &&& spec_pt_index(v) == spec_pt_index(w)
}

/// `v` and `w` select the same entries in the first `levels` levels.
pub open spec fn same_prefix(v: u64, w: u64, levels: int) -> bool {
    &&& levels > 0 ==> spec_pml4_index(v) == spec_pml4_index(w)
    &&& levels > 1 ==> spec_pdpt_index(v) == spec_pdpt_index(w)
    &&& levels > 2 ==> spec_pd_index(v) == spec_pd_index(w)
    &&& levels > 3 ==> spec_pt_index(v) == spec_pt_index(w)
}

/// The table the walk for `v` visits at `level`, if the walk gets that far.
pub open spec fn table_at(mem: Map<u64, Seq<u64>>, root: u64, v: u64, level: nat) -> Option<u64>
    decreases level,
{
    if level == 0 {
        Some(root)
    } else {
        match table_at(mem, root, v, (level - 1) as nat) {
            None => None,
            Some(t) => {
                let e = table_entry(mem, t, index_at(v, level - 1));
                if e == 0 {
                    None
                } else {
                    Some(e & PAGE_TABLE_ADDR_MASK)
                }
            },
        }
    }
}

/// The leaf entry that maps `v`, if any.
pub open spec fn leaf_entry(mem: Map<u64, Seq<u64>>, root: u64, v: u64) -> Option<u64> {
    match table_at(mem, root, v, 3) {
        None => None,
        Some(t) => {
            let e = table_entry(mem, t, index_at(v, 3));
            if e == 0 {
                None
            } else {
                Some(e)
            }
        },
    }
}

/// The walk for `v` reads entry `index` of table `t` at some level.
pub open spec fn walk_reads(mem: Map<u64, Seq<u64>>, root: u64, v: u64, t: u64, index: int) -> bool {
    exists|j: nat| j <= 3 && #[trigger] table_at(mem, root, v, j) == Some(t) && index_at(v, j as int) == index
}

/// The page frame holding physical address `p`.
pub open spec fn frame_of(p: u64) -> int {
    p as int / 4096
}

/// No table frame reachable from `root` is free in `alloc`.
pub open spec fn tables_in_use(mem: Map<u64, Seq<u64>>, root: u64, alloc: AllocatorState) -> bool {
    forall|v: u64, l: nat|
        l <= 3 && #[trigger] table_at(mem, root, v, l) is Some ==> !alloc.is_free(
            frame_of(table_at(mem, root, v, l)->0),
        )
}

/// The tables reachable from `root` form a tree: a table frame serves one level
/// only, and it is reached through one path of indexes only.
pub open spec fn tree_shape(mem: Map<u64, Seq<u64>>, root: u64) -> bool {
    &&& forall|v: u64, w: u64, l: nat, m: nat|
        l <= 3 && m <= 3 && #[trigger] table_at(mem, root, v, l) is Some && table_at(mem, root, v, l)
            == #[trigger] table_at(mem, root, w, m) ==> l == m
    &&& forall|v: u64, w: u64, l: nat|
        l <= 3 && #[trigger] table_at(mem, root, v, l) is Some && table_at(mem, root, v, l)
            == #[trigger] table_at(mem, root, w, l) ==> same_prefix(v, w, l as int)
}

/// The tables reachable from `root` form a tree of frames in use.
pub open spec fn tree_wf(mem: Map<u64, Seq<u64>>, root: u64, alloc: AllocatorState) -> bool {
    &&& tables_in_use(mem, root, alloc)
    &&& tree_shape(mem, root)
}

/// The walk only looks at the indexes of the address.
pub proof fn lemma_walk_by_slots(mem: Map<u64, Seq<u64>>, root: u64, v: u64, w: u64, l: nat)
    requires
        same_slots(v, w),
    ensures
        table_at(mem, root, v, l) == table_at(mem, root, w, l),
    decreases l,
{
    if l > 0 {
        lemma_walk_by_slots(mem, root, v, w, (l - 1) as nat);
    }
}

/// Addresses whose first `l` indexes agree visit the same tables down to level `l`.
pub proof fn lemma_walk_by_prefix(mem: Map<u64, Seq<u64>>, root: u64, v: u64, w: u64, l: nat)
    requires
        l <= 3,
        same_prefix(v, w, l as int),
    ensures
        table_at(mem, root, v, l) == table_at(mem, root, w, l),
    decreases l,
{
    if l > 0 {
        lemma_walk_by_prefix(mem, root, v, w, (l - 1) as nat);
    }
}

/// A walk that reaches level `l` has passed through every level above it.
pub proof fn lemma_walk_prefix_closed(mem: Map<u64, Seq<u64>>, root: u64, v: u64, j: nat, l: nat)
    requires
        j <= l,
        table_at(mem, root, v, l) is Some,
    ensures
        table_at(mem, root, v, j) is Some,
    decreases l,
{
    if j < l {
        lemma_walk_prefix_closed(mem, root, v, j, (l - 1) as nat);
    }
}

/// How many of the tables below the root the walk for `v` does not find.
pub open spec fn missing_tables(mem: Map<u64, Seq<u64>>, root: u64, v: u64) -> nat {
    if table_at(mem, root, v, 3) is Some {
        0
    } else if table_at(mem, root, v, 2) is Some {
        1
    } else if table_at(mem, root, v, 1) is Some {
        2
    } else {
        3
    }
}

/// How many levels below the root the walks for `a` and `b` go through the same tables.
pub open spec fn shared_levels(a: u64, b: u64) -> int {
    if same_prefix(a, b, 3) {
        3
    } else if same_prefix(a, b, 2) {
        2
    } else if same_prefix(a, b, 1) {
        1
    } else {
        0
    }
}

/// At most how many tables mapping `n` pages from `start` creates: three for the
/// first page, and for each later page one for each level below the root where its
/// walk leaves that of the page before it.
pub open spec fn tables_for_pages(start: u64, n: int) -> int
    decreases n,
{
    if n <= 0 {
        0
    } else if n == 1 {
        3
    } else {
        tables_for_pages(start, n - 1) + 3 - shared_levels((start + (n - 2) * 4096) as u64, (start + (n - 1) * 4096) as u64)
    }
}

/// Mapping more pages never needs fewer tables.
pub proof fn lemma_tables_for_pages_grow(start: u64, n: int, m: int)
    requires
        n <= m,
    ensures
        0 <= tables_for_pages(start, n) <= tables_for_pages(start, m),
    decreases m - n,
{
    if n < m {
        lemma_tables_for_pages_grow(start, n, m - 1);
    } else {
        lemma_tables_for_pages_nonneg(start, n);
    }
}

/// No count of tables is negative.
pub proof fn lemma_tables_for_pages_nonneg(start: u64, n: int)
    ensures
        tables_for_pages(start, n) >= 0,
    decreases n,
{
    if n > 1 {
        lemma_tables_for_pages_nonneg(start, n - 1);
    }
}

/// Once the walk for `prev` reaches a leaf table, the walk for `cur` misses only the
/// tables below the levels it shares with `prev`.
pub proof fn lemma_next_page_tables(mem: Map<u64, Seq<u64>>, root: u64, prev: u64, cur: u64)
    requires
        table_at(mem, root, prev, 3) is Some,
    ensures
        missing_tables(mem, root, cur) <= 3 - shared_levels(prev, cur),
{
    let p = shared_levels(prev, cur);
    lemma_walk_by_prefix(mem, root, prev, cur, p as nat);
    lemma_walk_prefix_closed(mem, root, prev, p as nat, 3);
    if p < 3 && table_at(mem, root, cur, 3) is Some {
        lemma_walk_prefix_closed(mem, root, cur, 2, 3);
    }
    if p < 2 && table_at(mem, root, cur, 2) is Some {
        lemma_walk_prefix_closed(mem, root, cur, 1, 2);
    }
}

/// Addresses in the same page have the same leaf entry.
pub proof fn lemma_leaf_by_slots(mem: Map<u64, Seq<u64>>, root: u64, v: u64, w: u64)
    requires
        same_slots(v, w),
    ensures
        leaf_entry(mem, root, v) == leaf_entry(mem, root, w),
{
    lemma_walk_by_slots(mem, root, v, w, 3);
}

/// A walk that never reads entry `index` of `t` below `level` is the same after that
/// entry changes.
pub proof fn lemma_walk_same_upto(
    mem1: Map<u64, Seq<u64>>,
    mem2: Map<u64, Seq<u64>>,
    root: u64,
    v: u64,
    t: u64,
    index: int,
    level: nat,
)
    requires
        forall|p: u64, i: int| !(p == t && i == index) ==> table_entry(mem1, p, i) == table_entry(mem2, p, i),
        forall|j: nat| j < level ==> !(#[trigger] table_at(mem1, root, v, j) == Some(t) && index_at(v, j as int) == index),
    ensures
        table_at(mem2, root, v, level) == table_at(mem1, root, v, level),
    decreases level,
{
    if level > 0 {
        lemma_walk_same_upto(mem1, mem2, root, v, t, index, (level - 1) as nat);
        match table_at(mem1, root, v, (level - 1) as nat) {
            None => {},
            Some(p) => {
                assert(!(p == t && index_at(v, level - 1) == index));
            },
        }
    }
}

/// A walk that never reads entry `index` of `t` has the same tables and leaf after
/// that entry changes.
pub proof fn lemma_walk_unaffected(
    mem1: Map<u64, Seq<u64>>,
    mem2: Map<u64, Seq<u64>>,
    root: u64,
    v: u64,
    t: u64,
    index: int,
)
    requires
        forall|p: u64, i: int| !(p == t && i == index) ==> table_entry(mem1, p, i) == table_entry(mem2, p, i),
        !walk_reads(mem1, root, v, t, index),
    ensures
        forall|l: nat| l <= 3 ==> #[trigger] table_at(mem2, root, v, l) == table_at(mem1, root, v, l),
        leaf_entry(mem2, root, v) == leaf_entry(mem1, root, v),
{
    assert forall|l: nat| l <= 3 implies #[trigger] table_at(mem2, root, v, l) == table_at(mem1, root, v, l) by {
        assert forall|j: nat| j < l implies !(#[trigger] table_at(mem1, root, v, j) == Some(t) && index_at(v, j as int) == index) by {
            if table_at(mem1, root, v, j) == Some(t) && index_at(v, j as int) == index {
                assert(walk_reads(mem1, root, v, t, index));
            }
        }
        lemma_walk_same_upto(mem1, mem2, root, v, t, index, l);
    }
    assert(table_at(mem2, root, v, 3) == table_at(mem1, root, v, 3));
    match table_at(mem1, root, v, 3) {
        None => {},
        Some(p) => {
            if p == t && index_at(v, 3) == index {
                assert(walk_reads(mem1, root, v, t, index));
            }
        },
    }
}

/// Zeroing a frame that is not a table of the tree changes no walk.
pub proof fn lemma_zero_fresh(mem: Map<u64, Seq<u64>>, root: u64, p: u64, alloc: AllocatorState)
    requires
        forall|v: u64, l: nat| l <= 3 ==> #[trigger] table_at(mem, root, v, l) != Some(p),
    ensures
        forall|v: u64, l: nat| l <= 3 ==> #[trigger] table_at(mem.insert(p, zero_page()), root, v, l) == table_at(mem, root, v, l),
        forall|v: u64| #[trigger] leaf_entry(mem.insert(p, zero_page()), root, v) == leaf_entry(mem, root, v),
        tree_wf(mem, root, alloc) ==> tree_wf(mem.insert(p, zero_page()), root, alloc),
{
    let mem2 = mem.insert(p, zero_page());
    assert forall|v: u64, l: nat| l <= 3 implies #[trigger] table_at(mem2, root, v, l) == table_at(mem, root, v, l) by {
        lemma_zero_fresh_level(mem, root, p, v, l);
    }
    assert forall|v: u64| #[trigger] leaf_entry(mem2, root, v) == leaf_entry(mem, root, v) by {
        lemma_zero_fresh_level(mem, root, p, v, 3);
    }
    if tree_wf(mem, root, alloc) {
        assert forall|v: u64, w: u64, l: nat, m: nat|
            l <= 3 && m <= 3 && #[trigger] table_at(mem2, root, v, l) is Some && table_at(mem2, root, v, l)
                == #[trigger] table_at(mem2, root, w, m) implies l == m by {
            assert(table_at(mem, root, v, l) == table_at(mem, root, w, m));
        }
        assert forall|v: u64, w: u64, l: nat|
            l <= 3 && #[trigger] table_at(mem2, root, v, l) is Some && table_at(mem2, root, v, l)
                == #[trigger] table_at(mem2, root, w, l) implies same_prefix(v, w, l as int) by {
            assert(table_at(mem, root, v, l) == table_at(mem, root, w, l));
        }
    }
}

proof fn lemma_zero_fresh_level(mem: Map<u64, Seq<u64>>, root: u64, p: u64, v: u64, l: nat)
    requires
        forall|w: u64, k: nat| k <= 3 ==> #[trigger] table_at(mem, root, w, k) != Some(p),
        l <= 3,
    ensures
        table_at(mem.insert(p, zero_page()), root, v, l) == table_at(mem, root, v, l),
        l == 3 ==> leaf_entry(mem.insert(p, zero_page()), root, v) == leaf_entry(mem, root, v),
    decreases l,
{
    let mem2 = mem.insert(p, zero_page());
    if l > 0 {
        lemma_zero_fresh_level(mem, root, p, v, (l - 1) as nat);
        assert(table_at(mem, root, v, (l - 1) as nat) != Some(p));
    }
    if l == 3 {
        assert(table_at(mem, root, v, 3) != Some(p));
    }
}

/// Making frames unavailable keeps the tree in use.
pub proof fn lemma_tree_alloc_shrinks(mem: Map<u64, Seq<u64>>, root: u64, a1: AllocatorState, a2: AllocatorState)
    requires
        tree_wf(mem, root, a1),
        forall|i: int| #[trigger] a2.is_free(i) ==> a1.is_free(i),
    ensures
        tree_wf(mem, root, a2),
{
}

pub proof fn lemma_indexes_at(v: u64, depth: int)
    requires
        0 <= depth < 4,
    ensures
        crate::memory::paging::table::spec_indexes(v)[depth] as int == index_at(v, depth),
        crate::memory::paging::table::spec_indexes(v).len() == 4,
{
}

/// A frame below 2^52 is its own table address in a table entry with the present
/// and writable bits set.
pub proof fn lemma_table_link_entry(s: int)
    requires
        0 <= s,
        s * 4096 < 0x10_0000_0000_0000,
    ensures
        ((s * 4096) as u64 | 3u64) & PAGE_TABLE_ADDR_MASK == (s * 4096) as u64,
        ((s * 4096) as u64 | 3u64) != 0,
        frame_of((s * 4096) as u64) == s,
        (s * 4096) as u64 % 4096 == 0,
{
    let p = (s * 4096) as u64;
    assert(p == s * 4096);
    assert(p % 4096 == 0 && p < 0x10_0000_0000_0000);
    assert((p | 3u64) & 0x000f_ffff_ffff_f000u64 == p) by (bit_vector)
        requires
            p % 4096 == 0,
            p < 0x10_0000_0000_0000,
    ;
    assert((p | 3u64) != 0) by (bit_vector);
}

/// Every stored table page has 512 entries.
pub open spec fn pages_sized(mem: Map<u64, Seq<u64>>) -> bool {
    forall|p: u64| #[trigger] mem.contains_key(p) ==> mem[p].len() == 512
}

pub proof fn lemma_index_bounds(v: u64)
    ensures
        0 <= index_at(v, 0) < 512,
        0 <= index_at(v, 1) < 512,
        0 <= index_at(v, 2) < 512,
        0 <= index_at(v, 3) < 512,
{
    assert((v >> 39u64) & 0x1ffu64 < 512) by (bit_vector);
    assert((v >> 30u64) & 0x1ffu64 < 512) by (bit_vector);
    assert((v >> 21u64) & 0x1ffu64 < 512) by (bit_vector);
    assert((v >> 12u64) & 0x1ffu64 < 512) by (bit_vector);
}

/// Linking a fresh zeroed table into an empty slot of the tree: no leaf changes,
/// the new table appears just below the slot, and the tree stays a tree.
pub proof fn lemma_link_table(
    mem1: Map<u64, Seq<u64>>,
    root: u64,
    alloc: AllocatorState,
    v0: u64,
    j0: nat,
    t: u64,
    x: u64,
    p: u64,
)
    requires
        tree_wf(mem1, root, alloc),
        pages_sized(mem1),
        j0 < 3,
        table_at(mem1, root, v0, j0) == Some(t),
        table_entry(mem1, t, index_at(v0, j0 as int)) == 0,
        x != 0,
        x & PAGE_TABLE_ADDR_MASK == p,
        forall|w: u64, l: nat| l <= 3 ==> #[trigger] table_at(mem1, root, w, l) != Some(p),
        table_page(mem1, p) == zero_page(),
        !alloc.is_free(frame_of(p)),
    ensures
        ({
            let mem2 = mem1.insert(t, table_page(mem1, t).update(index_at(v0, j0 as int), x));
            &&& forall|w: u64| #[trigger] leaf_entry(mem2, root, w) == leaf_entry(mem1, root, w)
            &&& table_at(mem2, root, v0, j0 + 1) == Some(p)
            &&& forall|w: u64, l: nat|
                l <= 3 && #[trigger] table_at(mem2, root, w, l) is Some ==> table_at(mem2, root, w, l)
                    == table_at(mem1, root, w, l) || (table_at(mem2, root, w, l) == Some(p) && l == j0 + 1
                    && table_at(mem1, root, w, j0) == Some(t) && index_at(w, j0 as int) == index_at(v0, j0 as int))
            &&& tree_wf(mem2, root, alloc)
        }),
{
    let index = index_at(v0, j0 as int);
    let mem2 = mem1.insert(t, table_page(mem1, t).update(index, x));
    lemma_index_bounds(v0);
    assert(p != t);
    assert forall|q: u64, i: int| !(q == t && i == index) implies table_entry(mem1, q, i) == table_entry(mem2, q, i) by {
    }
    assert forall|w: u64|
        (#[trigger] leaf_entry(mem2, root, w) == leaf_entry(mem1, root, w))
        && (forall|l: nat|
            l <= 3 && #[trigger] table_at(mem2, root, w, l) is Some ==> table_at(mem2, root, w, l)
                == table_at(mem1, root, w, l) || (table_at(mem2, root, w, l) == Some(p) && l == j0 + 1
                && table_at(mem1, root, w, j0) == Some(t) && index_at(w, j0 as int) == index)) by {
        lemma_link_one_walk(mem1, mem2, root, alloc, v0, j0, t, x, p, w);
    }
    // the tree shape
    assert forall|v: u64, l: nat| l <= 3 && #[trigger] table_at(mem2, root, v, l) is Some implies !alloc.is_free(
        frame_of(table_at(mem2, root, v, l)->0)) by {
        lemma_link_one_walk(mem1, mem2, root, alloc, v0, j0, t, x, p, v);
    }
    assert forall|v: u64, w: u64, l: nat, m: nat|
        l <= 3 && m <= 3 && #[trigger] table_at(mem2, root, v, l) is Some && table_at(mem2, root, v, l)
            == #[trigger] table_at(mem2, root, w, m) implies l == m by {
        lemma_link_one_walk(mem1, mem2, root, alloc, v0, j0, t, x, p, v);
        lemma_link_one_walk(mem1, mem2, root, alloc, v0, j0, t, x, p, w);
        if table_at(mem2, root, v, l) == table_at(mem1, root, v, l) && table_at(mem2, root, w, m) == Some(p) {
            assert(table_at(mem1, root, v, l) != Some(p));
        }
        if table_at(mem2, root, w, m) == table_at(mem1, root, w, m) && table_at(mem2, root, v, l) == Some(p) {
            assert(table_at(mem1, root, w, m) != Some(p));
        }
    }
    assert forall|v: u64, w: u64, l: nat|
        l <= 3 && #[trigger] table_at(mem2, root, v, l) is Some && table_at(mem2, root, v, l)
            == #[trigger] table_at(mem2, root, w, l) implies same_prefix(v, w, l as int) by {
        lemma_link_one_walk(mem1, mem2, root, alloc, v0, j0, t, x, p, v);
        lemma_link_one_walk(mem1, mem2, root, alloc, v0, j0, t, x, p, w);
        if table_at(mem2, root, v, l) == table_at(mem1, root, v, l) && table_at(mem2, root, w, l) == Some(p) {
            assert(table_at(mem1, root, v, l) != Some(p));
        }
        if table_at(mem2, root, w, l) == table_at(mem1, root, w, l) && table_at(mem2, root, v, l) == Some(p) {
            assert(table_at(mem1, root, w, l) != Some(p));
        }
        if table_at(mem2, root, v, l) == Some(p) && table_at(mem2, root, w, l) == Some(p) {
            assert(table_at(mem1, root, v, j0) == table_at(mem1, root, w, j0));
            assert(same_prefix(v, w, j0 as int));
        }
    }
    lemma_link_one_walk(mem1, mem2, root, alloc, v0, j0, t, x, p, v0);
    assert(table_at(mem2, root, v0, j0 + 1) == Some(p));
    assert forall|w: u64, l: nat|
        l <= 3 && #[trigger] table_at(mem2, root, w, l) is Some implies table_at(mem2, root, w, l)
            == table_at(mem1, root, w, l) || (table_at(mem2, root, w, l) == Some(p) && l == j0 + 1
            && table_at(mem1, root, w, j0) == Some(t) && index_at(w, j0 as int) == index_at(v0, j0 as int)) by {
        lemma_link_one_walk(mem1, mem2, root, alloc, v0, j0, t, x, p, w);
    }
    assert(tree_wf(mem2, root, alloc));
}

/// One walk after linking a fresh table into slot `index_at(v0, j0)` of `t`.
proof fn lemma_link_one_walk(
    mem1: Map<u64, Seq<u64>>,
    mem2: Map<u64, Seq<u64>>,
    root: u64,
    alloc: AllocatorState,
    v0: u64,
    j0: nat,
    t: u64,
    x: u64,
    p: u64,
    w: u64,
)
    requires
        tree_wf(mem1, root, alloc),
        pages_sized(mem1),
        j0 < 3,
        table_at(mem1, root, v0, j0) == Some(t),
        table_entry(mem1, t, index_at(v0, j0 as int)) == 0,
        x != 0,
        x & PAGE_TABLE_ADDR_MASK == p,
        forall|u: u64, l: nat| l <= 3 ==> #[trigger] table_at(mem1, root, u, l) != Some(p),
        table_page(mem1, p) == zero_page(),
        !alloc.is_free(frame_of(p)),
        mem2 == mem1.insert(t, table_page(mem1, t).update(index_at(v0, j0 as int), x)),
    ensures
        leaf_entry(mem2, root, w) == leaf_entry(mem1, root, w),
        w == v0 ==> table_at(mem2, root, w, j0 + 1) == Some(p),
        forall|l: nat|
            l <= 3 && #[trigger] table_at(mem2, root, w, l) is Some ==> table_at(mem2, root, w, l)
                == table_at(mem1, root, w, l) || (table_at(mem2, root, w, l) == Some(p) && l == j0 + 1
                && table_at(mem1, root, w, j0) == Some(t) && index_at(w, j0 as int) == index_at(v0, j0 as int)),
        forall|l: nat| l <= 3 && #[trigger] table_at(mem2, root, w, l) is Some ==> !alloc.is_free(
            frame_of(table_at(mem2, root, w, l)->0)),
{
    let index = index_at(v0, j0 as int);
    lemma_index_bounds(v0);
    lemma_index_bounds(w);
    assert(p != t);
    assert forall|q: u64, i: int| !(q == t && i == index) implies table_entry(mem1, q, i) == table_entry(mem2, q, i) by {
    }
    assert(table_entry(mem2, t, index) == x);
    assert(table_entry(mem2, p, index_at(w, 0)) == 0);
    assert(table_entry(mem2, p, index_at(w, 1)) == 0);
    assert(table_entry(mem2, p, index_at(w, 2)) == 0);
    assert(table_entry(mem2, p, index_at(w, 3)) == 0);
    if !walk_reads(mem1, root, w, t, index) {
        lemma_walk_unaffected(mem1, mem2, root, w, t, index);
        if w == v0 {
            assert(walk_reads(mem1, root, w, t, index)) by {
                assert(table_at(mem1, root, v0, j0) == Some(t));
            }
        }
        assert forall|l: nat| l <= 3 && #[trigger] table_at(mem2, root, w, l) is Some implies !alloc.is_free(
            frame_of(table_at(mem2, root, w, l)->0)) by {
            assert(table_at(mem1, root, w, l) is Some);
        }
    } else {
        let j = choose|j: nat| j <= 3 && #[trigger] table_at(mem1, root, w, j) == Some(t) && index_at(w, j as int) == index;
        assert(j == j0);
        assert forall|k: nat| k < j0 implies !(#[trigger] table_at(mem1, root, w, k) == Some(t) && index_at(w, k as int) == index) by {
            if table_at(mem1, root, w, k) == Some(t) {
                assert(k == j0);
            }
        }
        assert forall|l: nat| l <= j0 implies #[trigger] table_at(mem2, root, w, l) == table_at(mem1, root, w, l) by {
            lemma_walk_same_upto(mem1, mem2, root, w, t, index, l);
        }
        assert(table_at(mem2, root, w, j0) == Some(t));
        assert(table_at(mem2, root, w, j0 + 1) == Some(p));
        assert(table_at(mem1, root, w, j0 + 1) is None);
        if j0 + 2 <= 3 {
            assert(table_at(mem2, root, w, j0 + 2) is None);
            assert(table_at(mem1, root, w, j0 + 2) is None);
        }
        if j0 + 3 <= 3 {
            assert(table_at(mem2, root, w, j0 + 3) is None);
            assert(table_at(mem1, root, w, j0 + 3) is None);
        }
        assert(table_at(mem1, root, w, 3) is None);
        assert(leaf_entry(mem2, root, w) is None);
        assert forall|l: nat| l <= 3 && #[trigger] table_at(mem2, root, w, l) is Some implies !alloc.is_free(
            frame_of(table_at(mem2, root, w, l)->0)) by {
            if l <= j0 {
                assert(table_at(mem1, root, w, l) is Some);
            }
        }
    }
}

/// Writing a leaf entry sets exactly the addresses in the page of `v` (a zero entry
/// unmaps them); no table changes.
pub proof fn lemma_write_leaf(mem1: Map<u64, Seq<u64>>, root: u64, alloc: AllocatorState, v: u64, t: u64, x: u64)
    requires
        tree_shape(mem1, root),
        pages_sized(mem1),
        table_at(mem1, root, v, 3) == Some(t),
    ensures
        ({
            let mem2 = mem1.insert(t, table_page(mem1, t).update(index_at(v, 3), x));
            &&& forall|w: u64, l: nat| l <= 3 ==> #[trigger] table_at(mem2, root, w, l) == table_at(mem1, root, w, l)
            &&& forall|w: u64| #[trigger] leaf_entry(mem2, root, w) == if same_slots(w, v) {
                if x == 0 { None } else { Some(x) }
            } else {
                leaf_entry(mem1, root, w)
            }
            &&& tree_shape(mem2, root)
            &&& tables_in_use(mem1, root, alloc) ==> tables_in_use(mem2, root, alloc)
        }),
{
    let index = index_at(v, 3);
    let mem2 = mem1.insert(t, table_page(mem1, t).update(index, x));
    lemma_index_bounds(v);
    assert forall|q: u64, i: int| !(q == t && i == index) implies table_entry(mem1, q, i) == table_entry(mem2, q, i) by {
    }
    assert(table_entry(mem2, t, index) == x);
    assert forall|w: u64, l: nat| l <= 3 implies #[trigger] table_at(mem2, root, w, l) == table_at(mem1, root, w, l) by {
        assert forall|k: nat| k < l implies !(#[trigger] table_at(mem1, root, w, k) == Some(t) && index_at(w, k as int) == index) by {
            if table_at(mem1, root, w, k) == Some(t) {
                assert(table_at(mem1, root, v, 3) == table_at(mem1, root, w, k));
            }
        }
        lemma_walk_same_upto(mem1, mem2, root, w, t, index, l);
    }
    assert forall|w: u64| #[trigger] leaf_entry(mem2, root, w) == if same_slots(w, v) {
        if x == 0 { None } else { Some(x) }
    } else {
        leaf_entry(mem1, root, w)
    } by {
        assert(table_at(mem2, root, w, 3) == table_at(mem1, root, w, 3));
        if same_slots(w, v) {
            lemma_walk_by_slots(mem1, root, w, v, 3);
        } else if table_at(mem1, root, w, 3) == Some(t) && index_at(w, 3) == index {
            assert(table_at(mem1, root, v, 3) == table_at(mem1, root, w, 3));
            assert(same_prefix(v, w, 3));
        }
    }
    assert forall|v1: u64, w1: u64, l: nat, m: nat|
        l <= 3 && m <= 3 && #[trigger] table_at(mem2, root, v1, l) is Some && table_at(mem2, root, v1, l)
            == #[trigger] table_at(mem2, root, w1, m) implies l == m by {
        assert(table_at(mem1, root, v1, l) == table_at(mem1, root, w1, m));
    }
    assert forall|v1: u64, w1: u64, l: nat|
        l <= 3 && #[trigger] table_at(mem2, root, v1, l) is Some && table_at(mem2, root, v1, l)
            == #[trigger] table_at(mem2, root, w1, l) implies same_prefix(v1, w1, l as int) by {
        assert(table_at(mem1, root, v1, l) == table_at(mem1, root, w1, l));
    }
    if tables_in_use(mem1, root, alloc) {
        assert forall|v1: u64, l: nat| l <= 3 && #[trigger] table_at(mem2, root, v1, l) is Some implies !alloc.is_free(
            frame_of(table_at(mem2, root, v1, l)->0)) by {
            assert(table_at(mem1, root, v1, l) is Some);
        }
    }
}


/// `q` is a table the walk from `root` reaches for some address.
pub open spec fn reachable(mem: Map<u64, Seq<u64>>, root: u64, q: u64) -> bool {
    exists|v: u64, l: nat| l <= 3 && #[trigger] table_at(mem, root, v, l) == Some(q)
}

/// Linking a new table into an empty entry keeps every walk that reached a table, so
/// the tables reached afterwards are those reached before and the new one.
pub proof fn lemma_link_reach(
    mem1: Map<u64, Seq<u64>>,
    root: u64,
    alloc: AllocatorState,
    v0: u64,
    j0: nat,
    t: u64,
    x: u64,
    p: u64,
)
    requires
        tree_wf(mem1, root, alloc),
        pages_sized(mem1),
        j0 < 3,
        table_at(mem1, root, v0, j0) == Some(t),
        table_entry(mem1, t, index_at(v0, j0 as int)) == 0,
        x != 0,
        x & PAGE_TABLE_ADDR_MASK == p,
        forall|w: u64, l: nat| l <= 3 ==> #[trigger] table_at(mem1, root, w, l) != Some(p),
        table_page(mem1, p) == zero_page(),
        !alloc.is_free(frame_of(p)),
    ensures
        ({
            let mem2 = mem1.insert(t, table_page(mem1, t).update(index_at(v0, j0 as int), x));
            &&& forall|w: u64, l: nat| l <= 3 && #[trigger] table_at(mem1, root, w, l) is Some ==> table_at(mem2, root, w, l)
                == table_at(mem1, root, w, l)
            &&& forall|q: u64| #[trigger] reachable(mem2, root, q) == (reachable(mem1, root, q) || q == p)
        }),
{
    let index = index_at(v0, j0 as int);
    let mem2 = mem1.insert(t, table_page(mem1, t).update(index, x));
    lemma_link_table(mem1, root, alloc, v0, j0, t, x, p);
    lemma_index_bounds(v0);
    assert forall|q: u64, i: int| !(q == t && i == index) implies table_entry(mem1, q, i) == table_entry(mem2, q, i) by {}
    assert forall|w: u64, l: nat| l <= 3 && #[trigger] table_at(mem1, root, w, l) is Some implies table_at(mem2, root, w, l)
        == table_at(mem1, root, w, l) by {
        assert forall|j: nat| j < l implies !(#[trigger] table_at(mem1, root, w, j) == Some(t) && index_at(w, j as int) == index) by {
            if table_at(mem1, root, w, j) == Some(t) && index_at(w, j as int) == index {
                assert(table_at(mem1, root, w, j + 1) is None);
                lemma_walk_prefix_closed(mem1, root, w, j + 1, l);
            }
        }
        lemma_walk_same_upto(mem1, mem2, root, w, t, index, l);
    }
    assert forall|q: u64| #[trigger] reachable(mem2, root, q) == (reachable(mem1, root, q) || q == p) by {
        if reachable(mem2, root, q) {
            let (w, l) = choose|w: u64, l: nat| l <= 3 && #[trigger] table_at(mem2, root, w, l) == Some(q);
            if table_at(mem2, root, w, l) == table_at(mem1, root, w, l) {
                assert(reachable(mem1, root, q));
            }
        }
        if reachable(mem1, root, q) {
            let (w, l) = choose|w: u64, l: nat| l <= 3 && #[trigger] table_at(mem1, root, w, l) == Some(q);
            assert(table_at(mem2, root, w, l) == Some(q));
            assert(reachable(mem2, root, q));
        }
        if q == p {
            assert(table_at(mem2, root, v0, j0 + 1) == Some(p));
            assert(reachable(mem2, root, q));
        }
    }
}

/// Writing a fresh zero page keeps every walk, so the same tables are reached.
pub proof fn lemma_zero_reach(mem: Map<u64, Seq<u64>>, root: u64, p: u64, alloc: AllocatorState)
    requires
        forall|v: u64, l: nat| l <= 3 ==> #[trigger] table_at(mem, root, v, l) != Some(p),
    ensures
        forall|q: u64| #[trigger] reachable(mem.insert(p, zero_page()), root, q) == reachable(mem, root, q),
{
    lemma_zero_fresh(mem, root, p, alloc);
    let mem2 = mem.insert(p, zero_page());
    assert forall|q: u64| #[trigger] reachable(mem2, root, q) == reachable(mem, root, q) by {
        if reachable(mem2, root, q) {
            let (w, l) = choose|w: u64, l: nat| l <= 3 && #[trigger] table_at(mem2, root, w, l) == Some(q);
            assert(table_at(mem, root, w, l) == Some(q));
        }
        if reachable(mem, root, q) {
            let (w, l) = choose|w: u64, l: nat| l <= 3 && #[trigger] table_at(mem, root, w, l) == Some(q);
            assert(table_at(mem2, root, w, l) == Some(q));
        }
    }
}

/// Walks that are all the same reach the same tables.
pub proof fn lemma_same_walks_reach(mem1: Map<u64, Seq<u64>>, mem2: Map<u64, Seq<u64>>, root: u64)
    requires
        forall|w: u64, l: nat| l <= 3 ==> #[trigger] table_at(mem2, root, w, l) == table_at(mem1, root, w, l),
    ensures
        forall|q: u64| #[trigger] reachable(mem2, root, q) == reachable(mem1, root, q),
{
    assert forall|q: u64| #[trigger] reachable(mem2, root, q) == reachable(mem1, root, q) by {
        if reachable(mem2, root, q) {
            let (w, l) = choose|w: u64, l: nat| l <= 3 && #[trigger] table_at(mem2, root, w, l) == Some(q);
            assert(table_at(mem1, root, w, l) == Some(q));
        }
        if reachable(mem1, root, q) {
            let (w, l) = choose|w: u64, l: nat| l <= 3 && #[trigger] table_at(mem1, root, w, l) == Some(q);
            assert(table_at(mem2, root, w, l) == Some(q));
        }
    }
}

/// Every table page that differs between `mem0` and `mem1` was free in `alloc` or is
/// a table the walk from `root` reached in `mem0`.
pub open spec fn writes_within(mem0: Map<u64, Seq<u64>>, mem1: Map<u64, Seq<u64>>, alloc: AllocatorState, root: u64) -> bool {
    forall|q: u64| #[trigger] table_page(mem1, q) != table_page(mem0, q) ==> alloc.is_free(frame_of(q)) || reachable(mem0, root, q)
}

/// Every table the walk from `root` reaches in `mem1` was free in `alloc` or was
/// reached in `mem0` already.
pub open spec fn reach_within(mem0: Map<u64, Seq<u64>>, mem1: Map<u64, Seq<u64>>, alloc: AllocatorState, root: u64) -> bool {
    forall|v: u64, l: nat|
        l <= 3 && #[trigger] table_at(mem1, root, v, l) is Some ==> alloc.is_free(frame_of(table_at(mem1, root, v, l)->0))
            || reachable(mem0, root, table_at(mem1, root, v, l)->0)
}

/// Changes that stay within the tree and fresh frames compose.
pub proof fn lemma_within_trans(
    m0: Map<u64, Seq<u64>>,
    m1: Map<u64, Seq<u64>>,
    m2: Map<u64, Seq<u64>>,
    alloc: AllocatorState,
    root: u64,
)
    requires
        writes_within(m0, m1, alloc, root),
        reach_within(m0, m1, alloc, root),
        writes_within(m1, m2, alloc, root),
        reach_within(m1, m2, alloc, root),
    ensures
        writes_within(m0, m2, alloc, root),
        reach_within(m0, m2, alloc, root),
{
    assert forall|q: u64| #[trigger] table_page(m2, q) != table_page(m0, q) implies alloc.is_free(frame_of(q))
        || reachable(m0, root, q) by {
        if table_page(m2, q) != table_page(m1, q) {
            if !alloc.is_free(frame_of(q)) {
                let (v, l) = choose|v: u64, l: nat| l <= 3 && #[trigger] table_at(m1, root, v, l) == Some(q);
                assert(table_at(m1, root, v, l) is Some);
            }
        }
    }
    assert forall|v: u64, l: nat|
        l <= 3 && #[trigger] table_at(m2, root, v, l) is Some implies alloc.is_free(frame_of(table_at(m2, root, v, l)->0))
            || reachable(m0, root, table_at(m2, root, v, l)->0) by {
        let q = table_at(m2, root, v, l)->0;
        if !alloc.is_free(frame_of(q)) {
            let (v1, l1) = choose|v1: u64, l1: nat| l1 <= 3 && #[trigger] table_at(m1, root, v1, l1) == Some(q);
            assert(table_at(m1, root, v1, l1) is Some);
        }
    }
}

/// Nothing changed is within anything.
pub proof fn lemma_within_refl(mem: Map<u64, Seq<u64>>, alloc: AllocatorState, root: u64)
    ensures
        writes_within(mem, mem, alloc, root),
        reach_within(mem, mem, alloc, root),
{
    assert forall|v: u64, l: nat|
        l <= 3 && #[trigger] table_at(mem, root, v, l) is Some implies alloc.is_free(frame_of(table_at(mem, root, v, l)->0))
            || reachable(mem, root, table_at(mem, root, v, l)->0) by {
        assert(table_at(mem, root, v, l) == Some(table_at(mem, root, v, l)->0));
    }
}

/// A table page that is the same in two memories has the same entries in both.
pub proof fn lemma_same_page_same_entries(mem0: Map<u64, Seq<u64>>, mem1: Map<u64, Seq<u64>>, t: u64)
    requires
        table_page(mem0, t) == table_page(mem1, t),
    ensures
        forall|i: int| #[trigger] table_entry(mem0, t, i) == table_entry(mem1, t, i),
{
    assert forall|i: int| #[trigger] table_entry(mem0, t, i) == table_entry(mem1, t, i) by {
        if 0 <= i < table_page(mem0, t).len() {
            assert(table_page(mem0, t)[i] == table_page(mem1, t)[i]);
        }
    }
}

/// A change to the tree of `root_a` that stays within that tree and frames free in
/// `alloc` leaves alone the translation of `w` from any root `root_b` whose walk for
/// `w` meets only frames in use outside the tree of `root_a`.
pub proof fn lemma_isolated_walk(
    mem0: Map<u64, Seq<u64>>,
    mem1: Map<u64, Seq<u64>>,
    alloc: AllocatorState,
    root_a: u64,
    root_b: u64,
    w: u64,
)
    requires
        writes_within(mem0, mem1, alloc, root_a),
        forall|l: nat|
            l <= 3 && #[trigger] table_at(mem0, root_b, w, l) is Some ==> !alloc.is_free(frame_of(table_at(mem0, root_b, w, l)->0))
                && !reachable(mem0, root_a, table_at(mem0, root_b, w, l)->0),
    ensures
        leaf_entry(mem1, root_b, w) == leaf_entry(mem0, root_b, w),
        forall|l: nat| l <= 3 ==> #[trigger] table_at(mem1, root_b, w, l) == table_at(mem0, root_b, w, l),
{
    assert forall|l: nat| l <= 3 implies #[trigger] table_at(mem1, root_b, w, l) == table_at(mem0, root_b, w, l) by {
        lemma_isolated_level(mem0, mem1, alloc, root_a, root_b, w, l);
    }
    if let Some(t) = table_at(mem0, root_b, w, 3) {
        assert(table_page(mem1, t) == table_page(mem0, t));
        lemma_same_page_same_entries(mem0, mem1, t);
    }
}

proof fn lemma_isolated_level(
    mem0: Map<u64, Seq<u64>>,
    mem1: Map<u64, Seq<u64>>,
    alloc: AllocatorState,
    root_a: u64,
    root_b: u64,
    w: u64,
    l: nat,
)
    requires
        writes_within(mem0, mem1, alloc, root_a),
        forall|k: nat|
            k <= 3 && #[trigger] table_at(mem0, root_b, w, k) is Some ==> !alloc.is_free(frame_of(table_at(mem0, root_b, w, k)->0))
                && !reachable(mem0, root_a, table_at(mem0, root_b, w, k)->0),
        l <= 3,
    ensures
        table_at(mem1, root_b, w, l) == table_at(mem0, root_b, w, l),
    decreases l,
{
    if l > 0 {
        lemma_isolated_level(mem0, mem1, alloc, root_a, root_b, w, (l - 1) as nat);
        if let Some(t) = table_at(mem0, root_b, w, (l - 1) as nat) {
            assert(table_page(mem1, t) == table_page(mem0, t));
            lemma_same_page_same_entries(mem0, mem1, t);
        }
    }
}


/// Writing one table page that was free or in the tree stays within the tree.
pub proof fn lemma_insert_within(mem: Map<u64, Seq<u64>>, q: u64, page: Seq<u64>, alloc: AllocatorState, root: u64)
    requires
        alloc.is_free(frame_of(q)) || reachable(mem, root, q),
    ensures
        writes_within(mem, mem.insert(q, page), alloc, root),
{
    assert forall|x: u64| #[trigger] table_page(mem.insert(q, page), x) != table_page(mem, x) implies alloc.is_free(frame_of(x))
        || reachable(mem, root, x) by {
        assert(x == q);
    }
}

/// A change that keeps every walk's tables reaches no new table.
pub proof fn lemma_same_walks_within(mem0: Map<u64, Seq<u64>>, mem1: Map<u64, Seq<u64>>, alloc: AllocatorState, root: u64)
    requires
        forall|v: u64, l: nat| l <= 3 ==> #[trigger] table_at(mem1, root, v, l) == table_at(mem0, root, v, l),
    ensures
        reach_within(mem0, mem1, alloc, root),
{
    assert forall|v: u64, l: nat|
        l <= 3 && #[trigger] table_at(mem1, root, v, l) is Some implies alloc.is_free(frame_of(table_at(mem1, root, v, l)->0))
            || reachable(mem0, root, table_at(mem1, root, v, l)->0) by {
        assert(table_at(mem0, root, v, l) == table_at(mem1, root, v, l));
    }
}

} // verus!
