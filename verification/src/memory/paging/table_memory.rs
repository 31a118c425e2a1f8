//! The physical pages that hold page tables, as the paging code reads and writes
//! them: each stored table page has 512 entries; a page never written reads as zeros.

use vstd::prelude::*;

use crate::memory::map::PhysAddr;

verus! {

/// Entry `index` of the table page at `table` (zero for a page never written).
pub open spec fn table_entry(mem: Map<u64, Seq<u64>>, table: u64, index: int) -> u64 {
    if mem.contains_key(table) && 0 <= index < mem[table].len() {
        mem[table][index]
    } else {
        0
    }
}

/// The entries of the table page at `table`, zeros for a page never written.
pub open spec fn table_page(mem: Map<u64, Seq<u64>>, table: u64) -> Seq<u64> {
    if mem.contains_key(table) {
        mem[table]
    } else {
        Seq::new(512, |i: int| 0u64)
    }
}

/// A page of 512 zero entries.
pub open spec fn zero_page() -> Seq<u64> {
    Seq::new(512, |i: int| 0u64)
}

proof fn lemma_slot_in_bounds(k: int, index: int, len: int)
    requires
        0 <= k < len,
        0 <= index < 512,
    ensures
        0 <= 512 * k + index < 512 * len,
        512 * k + 512 <= 512 * len,
{
    assert(512 * k + 512 <= 512 * len) by (nonlinear_arith)
        requires
            k < len,
    ;
}

/// Page-table memory: the table pages written so far, by physical address.
pub struct TableMemory {
    table_addrs: Vec<u64>,
    entries: Vec<u64>,
    pages: Ghost<Map<u64, Seq<u64>>>,
}

impl View for TableMemory {
    type V = Map<u64, Seq<u64>>;

    closed spec fn view(&self) -> Map<u64, Seq<u64>> {
        self.pages@
    }
}

impl TableMemory {
    /// Each stored page sits at its slot of the entry array, once, with 512 entries.
    pub closed spec fn wf(&self) -> bool {
        &&& self.entries@.len() == 512 * self.table_addrs@.len()
        &&& forall|k: int|
            0 <= k < self.table_addrs@.len() ==> self.pages@.contains_key(#[trigger] self.table_addrs@[k])
                && self.pages@[self.table_addrs@[k]] == self.entries@.subrange(512 * k, 512 * k + 512)
        &&& forall|p: u64| #[trigger] self.pages@.contains_key(p) ==> self.table_addrs@.contains(p)
        &&& forall|a: int, b: int|
            0 <= a < b < self.table_addrs@.len() ==> #[trigger] self.table_addrs@[a] != #[trigger] self.table_addrs@[b]
    }

    /// Every stored page of well-formed table memory has 512 entries.
    pub proof fn lemma_pages_sized(&self)
        requires
            self.wf(),
        ensures
            crate::memory::paging::walk::pages_sized(self@),
    {
        assert forall|p: u64| #[trigger] self@.contains_key(p) implies self@[p].len() == 512 by {
            let k = choose|k: int| 0 <= k < self.table_addrs@.len() && self.table_addrs@[k] == p;
            assert(self.table_addrs@[k] == p);
        }
    }

    /// The addresses of the table pages written so far, each once.
    pub fn table_addresses(&self) -> (addresses: Vec<u64>)
        requires
            self.wf(),
        ensures
            forall|p: u64| self@.contains_key(p) <==> addresses@.contains(p),
            forall|a: int, b: int| 0 <= a < b < addresses@.len() ==> addresses@[a] != addresses@[b],
    {
        proof {
            assert forall|p: u64| self@.contains_key(p) <==> self.table_addrs@.contains(p) by {
                if self.table_addrs@.contains(p) {
                    let k = choose|k: int| 0 <= k < self.table_addrs@.len() && self.table_addrs@[k] == p;
                    assert(self.pages@.contains_key(self.table_addrs@[k]));
                }
            }
        }
        self.table_addrs.clone()
    }

    /// Memory with no table page written.
    pub fn new() -> (mem: Self)
        ensures
            mem.wf(),
            mem@ == Map::<u64, Seq<u64>>::empty(),
    {
        TableMemory { table_addrs: Vec::new(), entries: Vec::new(), pages: Ghost(Map::empty()) }
    }

    /// Forgets every table page.
    pub fn clear(&mut self)
        ensures
            final(self).wf(),
            final(self)@ == Map::<u64, Seq<u64>>::empty(),
    {
        self.table_addrs = Vec::new();
        self.entries = Vec::new();
        self.pages = Ghost(Map::empty());
    }

    fn find(&self, table: u64) -> (slot: Option<usize>)
        requires
            self.wf(),
        ensures
            match slot {
                Some(k) => k < self.table_addrs@.len() && self.table_addrs@[k as int] == table,
                None => !self@.contains_key(table),
            },
    {
        let mut k: usize = 0;
        while k < self.table_addrs.len()
            invariant
                self.wf(),
                k <= self.table_addrs@.len(),
                forall|j: int| 0 <= j < k ==> self.table_addrs@[j] != table,
            decreases self.table_addrs@.len() - k,
        {
            if self.table_addrs[k] == table {
                return Some(k);
            }
            k = k + 1;
        }
        proof {
            if self@.contains_key(table) {
                let j = choose|j: int| 0 <= j < self.table_addrs@.len() && self.table_addrs@[j] == table;
            }
        }
        None
    }

    /// Reads entry `index` of the table page at `table`.
    pub fn read(&self, table: PhysAddr, index: usize) -> (entry: u64)
        requires
            self.wf(),
            index < 512,
        ensures
            entry == table_entry(self@, table, index as int),
    {
        match self.find(table) {
            Some(k) => {
                let total = self.entries.len();
                proof {
                    assert(self.pages@[table] == self.entries@.subrange(512 * k, 512 * k + 512));
                    lemma_slot_in_bounds(k as int, index as int, self.table_addrs@.len() as int);
                }
                self.entries[512 * k + index]
            },
            None => 0,
        }
    }

    /// Appends a zeroed page for `table`, which is not stored yet.
    fn add_zero_page(&mut self, table: u64) -> (slot: usize)
        requires
            old(self).wf(),
            !old(self)@.contains_key(table),
        ensures
            final(self).wf(),
            final(self)@ == old(self)@.insert(table, zero_page()),
            slot < final(self).table_addrs@.len(),
            final(self).table_addrs@[slot as int] == table,
    {
        let ghost old_addrs = self.table_addrs@;
        let ghost old_entries = self.entries@;
        let ghost old_pages = self.pages@;
        let mut i: usize = 0;
        while i < 512
            invariant
                i <= 512,
                self.table_addrs@ == old_addrs,
                self.pages@ == old_pages,
                old_entries.len() == 512 * old_addrs.len(),
                self.entries@.len() == old_entries.len() + i,
                self.entries@.subrange(0, old_entries.len() as int) == old_entries,
                forall|j: int| old_entries.len() <= j < self.entries@.len() ==> self.entries@[j] == 0,
            decreases 512 - i,
        {
            self.entries.push(0);
            proof {
                assert(self.entries@.subrange(0, old_entries.len() as int) =~= old_entries);
            }
            i = i + 1;
        }
        let slot = self.table_addrs.len();
        self.table_addrs.push(table);
        self.pages = Ghost(self.pages@.insert(table, zero_page()));
        proof {
            assert forall|k: int| 0 <= k < self.table_addrs@.len() implies self.pages@.contains_key(#[trigger] self.table_addrs@[k])
                && self.pages@[self.table_addrs@[k]] == self.entries@.subrange(512 * k, 512 * k + 512) by {
                if k < old_addrs.len() {
                    assert(old_addrs[k] != table);
                    assert(self.table_addrs@[k] == old_addrs[k]);
                    lemma_slot_in_bounds(k, 0, old_addrs.len() as int);
                    assert(self.entries@.subrange(512 * k, 512 * k + 512) =~= old_entries.subrange(512 * k, 512 * k + 512)) by {
                        assert forall|j: int| 0 <= j < 512 implies #[trigger] self.entries@.subrange(512 * k, 512 * k + 512)[j] == old_entries.subrange(512 * k, 512 * k + 512)[j] by {
                            assert(self.entries@.subrange(0, old_entries.len() as int)[512 * k + j] == self.entries@[512 * k + j]);
                        }
                    }
                } else {
                    assert(self.entries@.subrange(512 * k, 512 * k + 512) =~= zero_page());
                }
            }
            assert forall|a: int, b: int| 0 <= a < b < self.table_addrs@.len() implies #[trigger] self.table_addrs@[a] != #[trigger] self.table_addrs@[b] by {
                if b == slot {
                    assert(old_pages.contains_key(old_addrs[a]));
                }
            }
            assert forall|p: u64| #[trigger] self.pages@.contains_key(p) implies self.table_addrs@.contains(p) by {
                if p == table {
                    assert(self.table_addrs@[slot as int] == table);
                } else {
                    assert(old_pages.contains_key(p));
                    assert(old_addrs.contains(p));
                    let j = choose|j: int| 0 <= j < old_addrs.len() && old_addrs[j] == p;
                    assert(self.table_addrs@[j] == p);
                }
            }
        }
        slot
    }

    /// Writes `value` into entry `index` of the table page at `table`; a page never
    /// written before starts out as zeros.
    pub fn write(&mut self, table: PhysAddr, index: usize, value: u64)
        requires
            old(self).wf(),
            index < 512,
        ensures
            final(self).wf(),
            final(self)@ == old(self)@.insert(table, table_page(old(self)@, table).update(index as int, value)),
    {
        let slot = match self.find(table) {
            Some(k) => k,
            None => self.add_zero_page(table),
        };
        let ghost before = self.pages@;
        let ghost old_entries = self.entries@;
        let total = self.entries.len();
        proof {
            assert(before[table] == table_page(old(self)@, table));
            lemma_slot_in_bounds(slot as int, index as int, self.table_addrs@.len() as int);
        }
        self.entries.set(512 * slot + index, value);
        self.pages = Ghost(self.pages@.insert(table, before[table].update(index as int, value)));
        proof {
            assert forall|k: int| 0 <= k < self.table_addrs@.len() implies self.pages@.contains_key(#[trigger] self.table_addrs@[k])
                && self.pages@[self.table_addrs@[k]] == self.entries@.subrange(512 * k, 512 * k + 512) by {
                lemma_slot_in_bounds(k, 0, self.table_addrs@.len() as int);
                if k == slot {
                    assert(self.entries@.subrange(512 * k, 512 * k + 512) =~= old_entries.subrange(512 * k, 512 * k + 512).update(index as int, value));
                } else {
                    assert(self.table_addrs@[k] != table);
                    if k < slot {
                        assert(512 * k + 512 <= 512 * slot);
                    } else {
                        assert(512 * slot + 512 <= 512 * k);
                    }
                    assert(self.entries@.subrange(512 * k, 512 * k + 512) =~= old_entries.subrange(512 * k, 512 * k + 512));
                }
            }
        }
    }

    /// Fills the table page at `table` with zero entries.
    pub fn zero(&mut self, table: PhysAddr)
        requires
            old(self).wf(),
        ensures
            final(self).wf(),
            final(self)@ == old(self)@.insert(table, zero_page()),
    {
        match self.find(table) {
            None => {
                self.add_zero_page(table);
            },
            Some(slot) => {
                let ghost start = self@;
                assert(start.contains_key(table));
                assert(Seq::new(512, |i: int| if i < 0 { 0u64 } else { table_page(start, table)[i] }) =~= start[table]);
                assert(start.insert(table, start[table]) =~= start);
                let mut index: usize = 0;
                while index < 512
                    invariant
                        self.wf(),
                        index <= 512,
                        start.contains_key(table),
                        start[table].len() == 512,
                        self@ == start.insert(table, Seq::new(512, |i: int| if i < index { 0u64 } else { start[table][i] })),
                    decreases 512 - index,
                {
                    let ghost before = self@;
                    self.write(table, index, 0);
                    proof {
                        let next = Seq::new(512, |i: int| if i < index + 1 { 0u64 } else { start[table][i] });
                        assert(table_page(before, table).update(index as int, 0) =~= next);
                        assert(self@ =~= start.insert(table, next));
                    }
                    index = index + 1;
                }
                assert(Seq::new(512, |i: int| if i < 512 { 0u64 } else { start[table][i] }) =~= zero_page());
            },
        }
    }
}

} // verus!
