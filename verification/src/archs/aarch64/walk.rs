//! Page table walks.
//!
//! The page tables that a walk reads and hands out entries of are held in a
//! `PageTableMemory`: a run of page-sized frames of virtual memory. A walk refers to
//! a table by its place in that memory and to an entry by an `EntryLocation`.

use super::order::{lemma_postorder_step, lemma_preorder_step};
use super::pager::{entry_count, entry_size, incremented, lemma_entry_sizes};
use super::table::{level_offset, level_offset_of, PageTable, PageTableEntry, TABLE_ENTRIES};
use crate::pager::addr::{intersection_of, Addr, AddrRange, PAGESIZE_BYTES};
use crate::pager::phys_addr::PhysAddr;
use crate::pager::translation::{FixedOffset, Translate};
use crate::pager::virt_addr::{lemma_range_ext, VirtAddr, VirtAddrRange};
use vstd::arithmetic::div_mod::{
    lemma_div_is_ordered, lemma_div_is_ordered_by_denominator, lemma_fundamental_div_mod,
};
use vstd::arithmetic::power2::{lemma2_to64, lemma2_to64_rest, pow2};
use vstd::bits::{
    lemma_usize_low_bits_mask_is_mod, lemma_usize_pow2_no_overflow, lemma_usize_shl_is_mul,
    lemma_usize_shr_is_div, low_bits_mask,
};
use vstd::prelude::*;

verus! {

/// The place of a page table entry: entry `index` of table `table` of a `PageTableMemory`.
#[derive(Copy, Clone, PartialEq, Eq, Debug, Structural)]
pub struct EntryLocation {
    /// The table's place in memory.
    pub table: usize,
    /// The entry's index in the table.
    pub index: usize,
}

/// Page tables in a run of frames of virtual memory: table `i` is at virtual address
/// `base + i * PAGESIZE_BYTES`. The tables from `next_free` upward are free for new
/// page tables.
pub struct PageTableMemory {
    base: usize,
    tables: Vec<PageTable>,
    next_free: usize,
}

/// A table of null entries.
pub open spec fn null_table() -> Seq<PageTableEntry> {
    Seq::new(512, |i: int| PageTableEntry(0))
}

/// The place of the table at a virtual address in `count` tables from `base`, if one
/// is there.
pub open spec fn table_index_at(base: int, count: int, virt_addr: int) -> Option<int> {
    if base <= virt_addr && (virt_addr - base) % 4096 == 0 && (virt_addr - base) / 4096 < count {
        Some((virt_addr - base) / 4096)
    } else {
        None
    }
}

impl PageTableMemory {
    /// Virtual address of the first table.
    pub closed spec fn spec_base(&self) -> usize {
        self.base
    }

    /// The entries of each table.
    pub closed spec fn tables(&self) -> Seq<Seq<PageTableEntry>> {
        Seq::new(self.tables@.len(), |t: int| self.tables@[t]@)
    }

    /// The first table free for new page tables.
    pub closed spec fn next_free(&self) -> nat {
        self.next_free as nat
    }

    /// Number of tables.
    pub open spec fn count(&self) -> nat {
        self.tables().len()
    }

    /// Entry `i` of table `t`.
    pub open spec fn entry_at(&self, t: int, i: int) -> PageTableEntry {
        self.tables()[t][i]
    }

    /// The place of the table at a virtual address, if one is there.
    pub open spec fn table_at(&self, virt_addr: int) -> Option<int> {
        table_index_at(self.spec_base() as int, self.count() as int, virt_addr)
    }

    /// True iff the location is an entry of a table in memory.
    pub open spec fn holds(&self, loc: EntryLocation) -> bool {
        loc.table < self.count() && loc.index < TABLE_ENTRIES
    }

    /// True iff every table has its entries, and the free tables start within memory.
    pub closed spec fn wf(&self) -> bool {
        &&& self.next_free <= self.tables@.len()
        &&& forall|t: int| 0 <= t < self.tables@.len() ==> (#[trigger] self.tables@[t]@).len() == 512
        &&& self.base + self.tables@.len() * 4096 <= usize::MAX
    }

    /// The tables and free tables are well formed.
    pub proof fn lemma_wf(&self)
        requires
            self.wf(),
        ensures
            self.next_free() <= self.count(),
            forall|t: int| 0 <= t < self.count() ==> (#[trigger] self.tables()[t]).len() == 512,
            self.spec_base() + self.count() * 4096 <= usize::MAX,
    {
    }

    /// `count` null tables from virtual address `base` upward, all free.
    pub fn new(base: VirtAddr, count: usize) -> (r: Self)
        requires
            base.value() + count * 4096 <= usize::MAX,
        ensures
            r.wf(),
            r.spec_base() == base.value(),
            r.count() == count,
            r.next_free() == 0,
            r.tables() == Seq::new(count as nat, |t: int| null_table()),
            forall|t: int, i: int|
                0 <= t < count && 0 <= i < 512 ==> #[trigger] r.entry_at(t, i) == PageTableEntry(
                    0,
                ),
    {
        let mut tables: Vec<PageTable> = Vec::new();
        let mut k: usize = 0;
        while k < count
            invariant
                k <= count,
                tables@.len() == k,
                forall|t: int| 0 <= t < k ==> #[trigger] tables@[t]@ == null_table(),
            decreases count - k,
        {
            tables.push(PageTable::new());
            k = k + 1;
        }
        let r = Self { base: base.get(), tables, next_free: 0 };
        assert(r.tables() =~= Seq::new(count as nat, |t: int| null_table()));
        r
    }

    /// Take the next free table for a new page table, filled with null entries; none
    /// where no table is free.
    pub fn alloc_table(&mut self) -> (r: Option<usize>)
        requires
            old(self).wf(),
        ensures
            final(self).wf(),
            final(self).spec_base() == old(self).spec_base(),
            old(self).next_free() < old(self).count() ==> {
                &&& r == Some(old(self).next_free() as usize)
                &&& final(self).next_free() == old(self).next_free() + 1
                &&& final(self).tables() == old(self).tables().update(
                    old(self).next_free() as int,
                    null_table(),
                )
            },
            old(self).next_free() >= old(self).count() ==> r is None && final(self).tables()
                == old(self).tables() && final(self).next_free() == old(self).next_free(),
    {
        if self.next_free < self.tables.len() {
            let t = self.next_free;
            self.tables.set(t, PageTable::new());
            self.next_free = t + 1;
            assert(self.tables() =~= old(self).tables().update(t as int, null_table()));
            Some(t)
        } else {
            None
        }
    }

    /// Number of tables.
    pub fn len(&self) -> (r: usize)
        ensures
            r == self.count(),
    {
        self.tables.len()
    }

    /// Virtual address of table `t`.
    pub fn address_of(&self, t: usize) -> (r: VirtAddr)
        requires
            self.spec_base() + t * 4096 <= usize::MAX,
        ensures
            r.value() == self.spec_base() + t * 4096,
    {
        VirtAddr::at(self.base + t * PAGESIZE_BYTES)
    }

    /// The place of the table at a virtual address, if one is there.
    pub fn table_index(&self, virt_addr: VirtAddr) -> (r: Option<usize>)
        ensures
            r matches Some(t) ==> self.table_at(virt_addr.value() as int) == Some(t as int),
            r is None ==> self.table_at(virt_addr.value() as int) is None,
    {
        let va = virt_addr.get();
        if va < self.base {
            return None;
        }
        let offset = va - self.base;
        if offset % PAGESIZE_BYTES != 0 {
            return None;
        }
        let t = offset / PAGESIZE_BYTES;
        if t < self.tables.len() {
            Some(t)
        } else {
            None
        }
    }

    /// The entry at a location.
    pub fn entry(&self, loc: EntryLocation) -> (r: PageTableEntry)
        requires
            self.holds(loc),
        ensures
            r == self.entry_at(loc.table as int, loc.index as int),
    {
        self.tables[loc.table].index(loc.index)
    }

    /// Replace the entry at a location.
    pub fn set_entry(&mut self, loc: EntryLocation, entry: PageTableEntry)
        requires
            old(self).wf(),
            old(self).holds(loc),
        ensures
            final(self).wf(),
            final(self).spec_base() == old(self).spec_base(),
            final(self).next_free() == old(self).next_free(),
            final(self).tables() == old(self).tables().update(
                loc.table as int,
                old(self).tables()[loc.table as int].update(loc.index as int, entry),
            ),
            final(self).count() == old(self).count(),
            final(self).entry_at(loc.table as int, loc.index as int) == entry,
            forall|t: int, i: int|
                0 <= t < old(self).count() && 0 <= i < TABLE_ENTRIES && (t != loc.table || i
                    != loc.index) ==> #[trigger] final(self).entry_at(t, i) == old(self).entry_at(
                    t,
                    i,
                ),
    {
        let mut table = self.tables[loc.table];
        table.set(loc.index, entry);
        self.tables.set(loc.table, table);
        assert(self.tables() =~= old(self).tables().update(
            loc.table as int,
            old(self).tables()[loc.table as int].update(loc.index as int, entry),
        ));
    }
}

/// The order in which a directory walk hands out a table entry and the entries of the
/// table it refers to.
#[derive(Copy, Clone, PartialEq, Eq, Debug, Structural)]
pub enum TraversalOrder {
    /// The table entry before the entries of its table.
    Preorder,
    /// The entries of the table before the table entry.
    Postorder,
}

/// A walk over a span of the entries of one page table.
#[derive(Copy, Clone, Debug)]
pub struct PageTableWalk {
    /// The table's level.
    pub level: u8,
    /// The table's place in memory.
    pub table: usize,
    /// The next entry.
    pub index: u16,
    /// One past the last entry.
    pub top: u16,
    /// The virtual address range the next entry spans.
    pub next_virt_addr_range: Option<VirtAddrRange>,
}

/// The walk that `PageTableWalk::new` makes for the table at place `table`, at `level`,
/// over the range at `base` of `length` bytes: from the entry the range starts in, each
/// entry the range overlaps.
pub open spec fn walk_spec(level: int, table: int, base: int, length: int) -> PageTableWalk {
    let size = entry_size(level);
    let chunk = base / size;
    let first = chunk % 512;
    PageTableWalk {
        level: level as u8,
        table: table as usize,
        index: first as u16,
        top: (first + entry_count(level, base, length)) as u16,
        next_virt_addr_range: Some(VirtAddrRange::spec_range((chunk * size) as usize, size as usize)),
    }
}

/// The entries that a walk over a range goes through are exactly those the range
/// overlaps: counting entries of `level` from address 0, entry `j` overlaps the range iff
/// it lies from the entry of the range's first byte up to `entry_count` entries on.
pub proof fn lemma_walk_entries_overlap(level: int, base: int, length: int, j: int)
    requires
        0 <= level < 4,
        0 <= base,
        0 < length,
    ensures
        ({
            let size = entry_size(level);
            (j * size < base + length && base < (j + 1) * size) <==> (base / size <= j < base
                / size + entry_count(level, base, length))
        }),
{
    lemma_entry_sizes();
    let size = entry_size(level);
    let last = base + length - 1;
    lemma_fundamental_div_mod(base, size);
    lemma_fundamental_div_mod(last, size);
    let a = base / size;
    let e = last / size;
    assert((j * size < base + length && base < (j + 1) * size) <==> (a <= j <= e))
        by (nonlinear_arith)
        requires
            size > 0,
            base == size * a + base % size,
            0 <= base % size < size,
            last == size * e + last % size,
            0 <= last % size < size,
            last == base + length - 1,
    ;
}

/// The walk moved on by one entry.
pub open spec fn advanced(w: PageTableWalk) -> PageTableWalk {
    let range = w.next_virt_addr_range.unwrap();
    PageTableWalk {
        index: (w.index + 1) as u16,
        next_virt_addr_range: Some(
            VirtAddrRange::spec_range(
                incremented(range.spec_base() as int, range.spec_length() as int) as usize,
                range.spec_length(),
            ),
        ),
        ..w
    }
}

/// The walk moved on by `k` entries.
pub open spec fn advanced_by(w: PageTableWalk, k: nat) -> PageTableWalk
    decreases k,
{
    if k == 0 {
        w
    } else {
        advanced(advanced_by(w, (k - 1) as nat))
    }
}

/// A walk over one table hands out its entries in order, each once: after `k` of its
/// entries, the walk is `k` entries on from where it started, over the range `k` entry
/// spans above the first, and it has an entry left iff it has counted fewer than all.
pub proof fn lemma_walk_in_order(w: PageTableWalk, k: nat)
    requires
        w.index + k <= w.top,
        w.next_virt_addr_range is Some,
        w.next_virt_addr_range.unwrap().spec_base() + k * w.next_virt_addr_range.unwrap().spec_length()
            <= usize::MAX,
    ensures
        ({
            let r = w.next_virt_addr_range.unwrap();
            let v = advanced_by(w, k);
            &&& v.index == w.index + k
            &&& v.level == w.level
            &&& v.table == w.table
            &&& v.top == w.top
            &&& v.next_virt_addr_range is Some
            &&& v.next_virt_addr_range.unwrap().spec_base() == r.spec_base() + k * r.spec_length()
            &&& v.next_virt_addr_range.unwrap().spec_length() == r.spec_length()
            &&& pending(Some(v)) <==> w.index + k < w.top
        }),
    decreases k,
{
    broadcast use crate::pager::virt_addr::lemma_spec_range;

    if k > 0 {
        let r = w.next_virt_addr_range.unwrap();
        assert(r.spec_base() + (k - 1) * r.spec_length() + r.spec_length() == r.spec_base() + k
            * r.spec_length()) by (nonlinear_arith);
        assert(r.spec_base() + (k - 1) * r.spec_length() <= r.spec_base() + k * r.spec_length())
            by (nonlinear_arith);
        lemma_walk_in_order(w, (k - 1) as nat);
        let prev = advanced_by(w, (k - 1) as nat);
        let pr = prev.next_virt_addr_range.unwrap();
        assert(incremented(pr.spec_base() as int, pr.spec_length() as int) == r.spec_base() + k
            * r.spec_length());
        assert(advanced_by(w, k) == advanced(prev));
        let nb = incremented(pr.spec_base() as int, pr.spec_length() as int) as usize;
        assert(nb == r.spec_base() + k * r.spec_length());
        assert(advanced(prev).next_virt_addr_range == Some(
            VirtAddrRange::spec_range(nb, pr.spec_length()),
        ));
        assert(VirtAddrRange::spec_range(nb, pr.spec_length()).spec_base() == nb);
    } else {
        let r = w.next_virt_addr_range.unwrap();
        assert(k * r.spec_length() == 0) by (nonlinear_arith)
            requires
                k == 0,
        ;
    }
}

/// The level, range and location of the entry the walk hands out next.
pub open spec fn item_of(w: PageTableWalk) -> (u8, VirtAddrRange, EntryLocation) {
    (
        w.level,
        w.next_virt_addr_range.unwrap(),
        EntryLocation { table: w.table, index: w.index as usize },
    )
}

/// True iff there is a walk with an entry left.
pub open spec fn pending(w: Option<PageTableWalk>) -> bool {
    w matches Some(x) && x.index < x.top
}

/// True iff a walk at `level` is over a table in memory.
pub open spec fn table_walk_ok(w: PageTableWalk, level: int, memory: &PageTableMemory) -> bool {
    &&& w.level == level
    &&& w.table < memory.count()
    &&& w.next_virt_addr_range is Some
}

/// True iff the entry a walk hands out next, if it has one left, lies within its table:
/// a walk that counts more entries than its table holds runs past the table there.
pub open spec fn next_in_table(w: Option<PageTableWalk>) -> bool {
    w matches Some(x) ==> (x.index < x.top ==> x.index < TABLE_ENTRIES)
}

/// True iff the entry refers to a next-level table from a table at `level`.
pub open spec fn is_table_entry(e: PageTableEntry, level: int) -> bool {
    e.0 & 1 != 0 && level < 3 && e.0 & 2 != 0
}

/// The physical address of the next-level table of an entry.
pub open spec fn next_table_addr(e: PageTableEntry) -> usize {
    (e.0 & 0xffff_ffff_f000u64) as usize
}

/// A walk that stays within a table of memory is one a directory walk can hold.
proof fn lemma_walk_spec_ok(
    level: int,
    table: int,
    base: int,
    length: int,
    memory: &PageTableMemory,
)
    requires
        0 <= level < 4,
        0 <= table < memory.count(),
        length >= 0,
    ensures
        table_walk_ok(walk_spec(level, table, base, length), level, memory),
{
}

/// The place in memory of the table at a physical address, reached through a fixed offset.
pub open spec fn table_through(
    memory: &PageTableMemory,
    mem_access_translation: FixedOffset,
    phys_addr: usize,
) -> Option<int> {
    match mem_access_translation.spec_translate_phys(phys_addr) {
        Some(va) => memory.table_at(va as int),
        None => None,
    }
}

/// One shifted left by the level offset is the entry size, and shifting right by it
/// divides by the entry size.
proof fn lemma_level_size(level: usize)
    requires
        usize::BITS == 64,
        level < 4,
    ensures
        level_offset_of(level as int) < 64,
        1usize << (level_offset_of(level as int) as usize) == entry_size(level as int),
        entry_size(level as int) == pow2(level_offset_of(level as int) as nat),
        0x1000 <= entry_size(level as int) <= 0x80_0000_0000,
{
    let lo = level_offset_of(level as int) as usize;
    lemma_entry_sizes();
    lemma_usize_pow2_no_overflow(lo as nat);
    lemma_usize_shl_is_mul(1, lo);
}

impl PageTableWalk {
    /// A walk of the entries of the table at `level` at a physical address that the
    /// target range overlaps, from the entry it starts in to the entry it ends in.
    pub fn new(
        level: usize,
        phys_addr_table: PhysAddr,
        target_range: VirtAddrRange,
        mem_access_translation: &FixedOffset,
        memory: &PageTableMemory,
    ) -> (r: Self)
        requires
            usize::BITS == 64,
            level < 4,
            target_range.spec_base() + target_range.spec_length() <= usize::MAX + 1,
            table_through(memory, *mem_access_translation, phys_addr_table.value()) is Some,
        ensures
            r == walk_spec(
                level as int,
                table_through(memory, *mem_access_translation, phys_addr_table.value()).unwrap(),
                target_range.spec_base() as int,
                target_range.spec_length() as int,
            ),
    {
        let table_addr = match mem_access_translation.translate_phys(phys_addr_table) {
            Ok(virt_addr) => virt_addr,
            Err(_) => VirtAddr::null(),
        };
        let table = match memory.table_index(table_addr) {
            Some(t) => t,
            None => 0,
        };
        let lo = level_offset(level);
        proof {
            lemma_level_size(level);
        }
        let size: usize = 1usize << lo;
        let target_range_base = target_range.base().get();
        let target_chunk = target_range_base >> lo;
        proof {
            lemma2_to64();
            lemma_usize_pow2_no_overflow(9);
            lemma_usize_shl_is_mul(1, 9);
        }
        let first = target_chunk & ((1usize << 9usize) - 1);
        let length = target_range.length();
        proof {
            lemma_usize_shr_is_div(target_range_base, lo);
        }
        let entries: usize = if length == 0 {
            0
        } else {
            let last = target_range_base + (length - 1);
            let last_chunk = last >> lo;
            proof {
                lemma_usize_shr_is_div(last, lo);
                lemma_div_is_ordered(target_range_base as int, last as int, size as int);
                lemma_div_is_ordered_by_denominator(last as int, 0x1000, size as int);
            }
            last_chunk - target_chunk + 1
        };
        proof {
            lemma2_to64();
            lemma_usize_shr_is_div(target_range_base, lo);
            lemma_usize_pow2_no_overflow(9);
            lemma_usize_shl_is_mul(1, 9);
            lemma_usize_low_bits_mask_is_mod(target_chunk, 9);
            assert(low_bits_mask(9) == 511) by {
                lemma2_to64();
            }
            lemma_fundamental_div_mod(target_range_base as int, size as int);
            assert(target_chunk * size <= target_range_base) by (nonlinear_arith)
                requires
                    target_chunk == target_range_base as int / size as int,
                    size > 0,
            ;
            lemma_usize_shl_is_mul(target_chunk, lo);
        }
        let range = VirtAddrRange::new(VirtAddr::at(target_chunk << lo), size);
        proof {
            broadcast use crate::pager::virt_addr::lemma_spec_range;

            lemma_range_ext(range, VirtAddrRange::spec_range((target_chunk << lo) as usize, size));
        }
        let next_virt_addr_range = Some(range);
        Self {
            level: level as u8,
            table,
            index: first as u16,
            top: #[verifier::truncate] ((first + entries) as u16),
            next_virt_addr_range,
        }
    }

    /// A walk of the entries of the table that a valid table entry at `level` refers
    /// to that span the target range.
    pub fn within(
        level: u8,
        target_range: VirtAddrRange,
        pte: &PageTableEntry,
        mem_access_translation: &FixedOffset,
        memory: &PageTableMemory,
    ) -> (r: Self)
        requires
            usize::BITS == 64,
            pte.0 & 1 != 0,
            level < 3 && pte.0 & 2 != 0,
            target_range.spec_base() + target_range.spec_length() <= usize::MAX + 1,
            table_through(
                memory,
                *mem_access_translation,
                (pte.0 & 0xffff_ffff_f000u64) as usize,
            ) is Some,
        ensures
            r == walk_spec(
                level + 1,
                table_through(
                    memory,
                    *mem_access_translation,
                    (pte.0 & 0xffff_ffff_f000u64) as usize,
                ).unwrap(),
                target_range.spec_base() as int,
                target_range.spec_length() as int,
            ),
    {
        let phys_addr_table = pte.next_level_table_address();
        Self::new(
            level as usize + 1,
            phys_addr_table,
            target_range,
            mem_access_translation,
            memory,
        )
    }

    /// The next entry's level, range and location, without moving on; none past the
    /// last entry.
    pub fn peek(&self) -> (r: Option<(u8, VirtAddrRange, EntryLocation)>)
        requires
            self.index < self.top ==> self.index < TABLE_ENTRIES
                && self.next_virt_addr_range is Some,
        ensures
            pending(Some(*self)) ==> r == Some(item_of(*self)),
            !pending(Some(*self)) ==> r is None,
    {
        if self.index < self.top {
            let next_virt_addr_range = self.next_virt_addr_range.unwrap();
            Some(
                (
                    self.level,
                    next_virt_addr_range,
                    EntryLocation { table: self.table, index: self.index as usize },
                ),
            )
        } else {
            None
        }
    }

    /// The next entry's level, range and location, moving on to the entry after it;
    /// none past the last entry.
    pub fn next(&mut self) -> (r: Option<(u8, VirtAddrRange, EntryLocation)>)
        requires
            old(self).index < old(self).top ==> old(self).index < TABLE_ENTRIES
                && old(self).next_virt_addr_range is Some,
        ensures
            pending(Some(*old(self))) ==> r == Some(item_of(*old(self))) && *final(self)
                == advanced(*old(self)),
            !pending(Some(*old(self))) ==> r is None && *final(self) == *old(self),
    {
        if self.index < self.top {
            let next_virt_addr_range = self.next_virt_addr_range.unwrap();
            let result = Some(
                (
                    self.level,
                    next_virt_addr_range,
                    EntryLocation { table: self.table, index: self.index as usize },
                ),
            );
            let stepped = next_virt_addr_range.step();
            proof {
                broadcast use crate::pager::virt_addr::lemma_spec_range;

                lemma_range_ext(
                    stepped,
                    VirtAddrRange::spec_range(
                        incremented(
                            next_virt_addr_range.spec_base() as int,
                            next_virt_addr_range.spec_length() as int,
                        ) as usize,
                        next_virt_addr_range.spec_length(),
                    ),
                );
            }
            self.index = self.index + 1;
            self.next_virt_addr_range = Some(stepped);
            result
        } else {
            None
        }
    }
}

} // verus!

verus! {

/// The deepest level from `level` down to `first` whose walk has an entry left, or
/// `first - 1` where none has.
pub open spec fn deepest_pending(stack: Seq<Option<PageTableWalk>>, first: int, level: int) -> int
    decreases level - first + 1,
{
    if level < first {
        first - 1
    } else if pending(stack[level]) {
        level
    } else {
        deepest_pending(stack, first, level - 1)
    }
}

/// The stack with the walks above `level`, up to `top`, dropped.
pub open spec fn dropped_above(
    stack: Seq<Option<PageTableWalk>>,
    level: int,
    top: int,
) -> Seq<Option<PageTableWalk>> {
    Seq::new(
        stack.len(),
        |l: int|
            if level < l <= top {
                None
            } else {
                stack[l]
            },
    )
}

/// The entry a walk hands out next.
pub open spec fn next_entry(memory: &PageTableMemory, w: PageTableWalk) -> PageTableEntry {
    memory.entry_at(w.table as int, w.index as int)
}

/// A walk through the page directory, handing out its entries table by table: a walk
/// over one table at each level from the first level to the current one.
#[derive(Copy, Clone, Debug)]
pub struct PageDirectoryWalk {
    /// The virtual address range walked.
    pub virt_addr_range: VirtAddrRange,
    /// Whether a table entry comes before or after the entries of its table.
    pub traversal_order: TraversalOrder,
    /// The level of the root table.
    pub first_level: u8,
    /// The level of the table being walked.
    pub current_level: u8,
    /// The walk over the table at each level.
    pub stack: [Option<PageTableWalk>; 4],
    /// The range of the entry handed out last.
    pub target_range: VirtAddrRange,
    /// The location of the entry handed out last.
    pub pte: Option<EntryLocation>,
    /// How the tables are reached from their physical addresses.
    pub mem_access_translation: FixedOffset,
}

impl PageDirectoryWalk {
    /// True iff the walk is over tables in memory: a walk at each level from the first
    /// to the current one, each within its table.
    pub open spec fn wf(&self, memory: &PageTableMemory) -> bool {
        &&& self.first_level <= self.current_level < 4
        &&& forall|l: int|
            self.first_level <= l <= self.current_level ==> ((#[trigger] self.stack@[l]) matches Some(
                w,
            ) && table_walk_ok(w, l, memory))
        &&& self.pte matches Some(loc) ==> memory.holds(loc)
    }

    /// The part of the walked range within the range of a table entry: the range a walk
    /// over the entry's next-level table covers.
    pub open spec fn descent_target(&self, entry_range: VirtAddrRange) -> Option<(int, int)> {
        intersection_of(
            entry_range.spec_base() as int,
            entry_range.spec_length() as int,
            self.virt_addr_range.spec_base() as int,
            self.virt_addr_range.spec_length() as int,
        )
    }

    /// True iff a walk over the next-level table of a table entry at `level`, spanning
    /// `entry_range`, can be made: the entry's range meets the walked range, and the table
    /// is in memory.
    pub open spec fn can_descend(
        &self,
        e: PageTableEntry,
        entry_range: VirtAddrRange,
        level: int,
        memory: &PageTableMemory,
    ) -> bool {
        &&& self.descent_target(entry_range) matches Some(bl) && bl.0 + bl.1 <= usize::MAX + 1
        &&& table_through(memory, self.mem_access_translation, next_table_addr(e)) is Some
    }

    /// The walk over the next-level table of a table entry at `level` spanning
    /// `entry_range`, within the walked range.
    pub open spec fn descent_walk(
        &self,
        e: PageTableEntry,
        entry_range: VirtAddrRange,
        level: int,
        memory: &PageTableMemory,
    ) -> PageTableWalk {
        let bl = self.descent_target(entry_range).unwrap();
        walk_spec(
            level + 1,
            table_through(memory, self.mem_access_translation, next_table_addr(e)).unwrap(),
            bl.0,
            bl.1,
        )
    }

    /// True iff, in preorder, the entry handed out last is a table entry whose table the
    /// walk goes into next.
    pub open spec fn descends(&self, memory: &PageTableMemory) -> bool {
        &&& self.pte matches Some(loc)
        &&& is_table_entry(
            memory.entry_at(loc.table as int, loc.index as int),
            self.current_level as int,
        )
    }

    /// The entry handed out last.
    pub open spec fn last_entry(&self, memory: &PageTableMemory) -> PageTableEntry {
        memory.entry_at(self.pte.unwrap().table as int, self.pte.unwrap().index as int)
    }

    /// The current level after going into the table of the entry handed out last (preorder).
    pub open spec fn descended_level(&self, memory: &PageTableMemory) -> int {
        if self.descends(memory) {
            self.current_level + 1
        } else {
            self.current_level as int
        }
    }

    /// The stack after going into the table of the entry handed out last (preorder).
    pub open spec fn descended_stack(&self, memory: &PageTableMemory) -> Seq<Option<PageTableWalk>> {
        if self.descends(memory) {
            self.stack@.update(
                self.current_level + 1,
                Some(
                    self.descent_walk(
                        self.last_entry(memory),
                        self.target_range,
                        self.current_level as int,
                        memory,
                    ),
                ),
            )
        } else {
            self.stack@
        }
    }

    /// The level and stack reached in postorder from `level`: while the next entry of the
    /// walk at a level is a table entry, a walk over its table goes on the level above.
    pub open spec fn post_descent(
        &self,
        stack: Seq<Option<PageTableWalk>>,
        level: int,
        memory: &PageTableMemory,
    ) -> (int, Seq<Option<PageTableWalk>>)
        decreases 3 - level,
    {
        if 0 <= level < 3 && pending(stack[level]) && is_table_entry(
            next_entry(memory, stack[level].unwrap()),
            level,
        ) {
            self.post_descent(
                stack.update(
                    level + 1,
                    Some(
                        self.descent_walk(
                            next_entry(memory, stack[level].unwrap()),
                            stack[level].unwrap().next_virt_addr_range.unwrap(),
                            level,
                            memory,
                        ),
                    ),
                ),
                level + 1,
                memory,
            )
        } else {
            (level, stack)
        }
    }

    /// True iff each step of the postorder descent from `level` can be made: the entry
    /// looked at on each level lies within its table, and each table gone into is in
    /// memory.
    pub open spec fn can_post_descend(
        &self,
        stack: Seq<Option<PageTableWalk>>,
        level: int,
        memory: &PageTableMemory,
    ) -> bool
        decreases 3 - level,
    {
        if 0 <= level < 3 && pending(stack[level]) && is_table_entry(
            next_entry(memory, stack[level].unwrap()),
            level,
        ) {
            &&& next_in_table(stack[level])
            &&& self.can_descend(
                next_entry(memory, stack[level].unwrap()),
                stack[level].unwrap().next_virt_addr_range.unwrap(),
                level,
                memory,
            )
            &&& self.can_post_descend(
                stack.update(
                    level + 1,
                    Some(
                        self.descent_walk(
                            next_entry(memory, stack[level].unwrap()),
                            stack[level].unwrap().next_virt_addr_range.unwrap(),
                            level,
                            memory,
                        ),
                    ),
                ),
                level + 1,
                memory,
            )
        } else {
            next_in_table(stack[level])
        }
    }

    /// True iff, in preorder, the entry handed out next lies within its table.
    pub open spec fn preorder_in_table(&self, memory: &PageTableMemory) -> bool {
        let stack = self.descended_stack(memory);
        let l = deepest_pending(stack, self.first_level as int, self.descended_level(memory));
        l >= self.first_level ==> next_in_table(stack[l])
    }

    /// True iff, in postorder, where the walk reached has no entry left, the entry handed
    /// out next from the level below lies within its table.
    pub open spec fn postorder_in_table(&self, memory: &PageTableMemory) -> bool {
        let reached = self.post_descent(self.stack@, self.current_level as int, memory);
        !pending(reached.1[reached.0]) && reached.0 != self.first_level ==> next_in_table(
            reached.1[reached.0 - 1],
        )
    }

    /// A walk of the directory whose root table at `first_level` is at a physical address,
    /// over a virtual address range within that table's span.
    pub fn new(
        traversal_order: TraversalOrder,
        virt_addr_range: VirtAddrRange,
        first_level: u8,
        phys_addr_table: PhysAddr,
        mem_access_translation: &FixedOffset,
        memory: &PageTableMemory,
    ) -> (r: Self)
        requires
            usize::BITS == 64,
            first_level < 4,
            virt_addr_range.spec_base() + virt_addr_range.spec_length() <= usize::MAX + 1,
            table_through(memory, *mem_access_translation, phys_addr_table.value()) is Some,
        ensures
            r.wf(memory),
            r.virt_addr_range == virt_addr_range,
            r.traversal_order == traversal_order,
            r.first_level == first_level,
            r.current_level == first_level,
            r.stack@ == seq![None, None, None, None].update(
                first_level as int,
                Some(
                    walk_spec(
                        first_level as int,
                        table_through(
                            memory,
                            *mem_access_translation,
                            phys_addr_table.value(),
                        ).unwrap(),
                        virt_addr_range.spec_base() as int,
                        virt_addr_range.spec_length() as int,
                    ),
                ),
            ),
            r.target_range.spec_base() == 0,
            r.target_range.spec_length() == 0,
            r.pte is None,
            r.mem_access_translation == *mem_access_translation,
            r.preorder_remaining(memory) == r.preorder_items(
                r.stack@[first_level as int].unwrap(),
                memory,
            ),
            r.levels_below_pending(),
            r.postorder_remaining(memory) == r.postorder_items(
                r.stack@[first_level as int].unwrap(),
                memory,
            ),
    {
        let mut stack: [Option<PageTableWalk>; 4] = [None, None, None, None];
        let walk = PageTableWalk::new(
            first_level as usize,
            phys_addr_table,
            virt_addr_range,
            mem_access_translation,
            memory,
        );
        stack[first_level as usize] = Some(walk);
        proof {
            lemma_walk_spec_ok(
                first_level as int,
                table_through(memory, *mem_access_translation, phys_addr_table.value()).unwrap(),
                virt_addr_range.spec_base() as int,
                virt_addr_range.spec_length() as int,
                memory,
            );
        }
        let r = PageDirectoryWalk {
            virt_addr_range,
            traversal_order,
            first_level,
            current_level: first_level,
            stack,
            target_range: VirtAddrRange::new(VirtAddr::null(), 0),
            pte: None,
            mem_access_translation: *mem_access_translation,
        };
        assert(r.stack@ =~= seq![None, None, None, None].update(first_level as int, Some(walk)));
        proof {
            let f = first_level as int;
            assert(!r.descends(memory));
            assert(r.descended_stack(memory) == r.stack@);
            assert(r.descended_level(memory) == f);
            assert(r.stack_preorder_items(r.stack@, f, f - 1, memory) == Seq::<
                (u8, VirtAddrRange, EntryLocation),
            >::empty());
            assert(r.stack_preorder_items(r.stack@, f, f, memory) == r.preorder_items(walk, memory)
                + r.stack_preorder_items(r.stack@, f, f - 1, memory));
            assert(r.preorder_remaining(memory) =~= r.preorder_items(walk, memory));
            assert(r.stack_postorder_items(r.stack@, f, f - 1, memory) == Seq::<
                (u8, VirtAddrRange, EntryLocation),
            >::empty());
            assert(r.postorder_remaining(memory) =~= r.postorder_items(walk, memory));
        }
        r
    }
}


impl PageDirectoryWalk {
    /// Go into the table of a table entry at the current level spanning `entry_range`,
    /// within the walked range.
    fn descend(&mut self, pte: PageTableEntry, entry_range: VirtAddrRange, memory: &PageTableMemory)
        requires
            usize::BITS == 64,
            old(self).wf(memory),
            is_table_entry(pte, old(self).current_level as int),
            old(self).can_descend(pte, entry_range, old(self).current_level as int, memory),
        ensures
            final(self).wf(memory),
            final(self).current_level == old(self).current_level + 1,
            final(self).stack@ == old(self).stack@.update(
                old(self).current_level + 1,
                Some(old(self).descent_walk(pte, entry_range, old(self).current_level as int, memory)),
            ),
            final(self).virt_addr_range == old(self).virt_addr_range,
            final(self).traversal_order == old(self).traversal_order,
            final(self).first_level == old(self).first_level,
            final(self).target_range == old(self).target_range,
            final(self).pte == old(self).pte,
            final(self).mem_access_translation == old(self).mem_access_translation,
    {
        let target_range = match AddrRange::intersection(&entry_range, &self.virt_addr_range) {
            Some(range) => range,
            None => VirtAddrRange::new(VirtAddr::null(), 0),
        };
        let ptw = PageTableWalk::within(
            self.current_level,
            target_range,
            &pte,
            &self.mem_access_translation,
            memory,
        );
        proof {
            let level = self.current_level + 1;
            let bl = self.descent_target(entry_range).unwrap();
            lemma_walk_spec_ok(
                level,
                table_through(memory, self.mem_access_translation, next_table_addr(pte)).unwrap(),
                bl.0,
                bl.1,
                memory,
            );
        }
        self.current_level = self.current_level + 1;
        self.stack[self.current_level as usize] = Some(ptw);
        assert(self.stack@ =~= old(self).stack@.update(old(self).current_level + 1, Some(ptw)));
    }

    /// The next entry in preorder: a table entry before the entries of its table.
    fn next_preorder(&mut self, memory: &PageTableMemory) -> (r: Option<
        (u8, VirtAddrRange, EntryLocation),
    >)
        requires
            usize::BITS == 64,
            old(self).wf(memory),
            old(self).descends(memory) ==> old(self).can_descend(
                old(self).last_entry(memory),
                old(self).target_range,
                old(self).current_level as int,
                memory,
            ),
            old(self).preorder_in_table(memory),
        ensures
            ({
                let level = old(self).descended_level(memory);
                let stack = old(self).descended_stack(memory);
                let l = deepest_pending(stack, old(self).first_level as int, level);
                &&& l < old(self).first_level ==> {
                    &&& r is None
                    &&& final(self).current_level == old(self).first_level
                    &&& final(self).stack@ == dropped_above(
                        stack,
                        old(self).first_level as int,
                        level,
                    )
                    &&& final(self).pte == old(self).pte
                    &&& final(self).target_range == old(self).target_range
                }
                &&& l >= old(self).first_level ==> {
                    &&& r == Some(item_of(stack[l].unwrap()))
                    &&& final(self).current_level == l
                    &&& final(self).stack@ == dropped_above(stack, l, level).update(
                        l,
                        Some(advanced(stack[l].unwrap())),
                    )
                    &&& final(self).pte == Some(r.unwrap().2)
                    &&& final(self).target_range == r.unwrap().1
                }
            }),
            final(self).wf(memory),
            final(self).virt_addr_range == old(self).virt_addr_range,
            final(self).traversal_order == old(self).traversal_order,
            final(self).first_level == old(self).first_level,
            final(self).mem_access_translation == old(self).mem_access_translation,
    {
        if let Some(loc) = self.pte {
            let pte = memory.entry(loc);
            if pte.is_valid() && pte.is_table(self.current_level) {
                self.descend(pte, self.target_range, memory);
            }
        }
        let ghost level = old(self).descended_level(memory);
        let ghost stack = old(self).descended_stack(memory);
        let ghost first = self.first_level as int;
        assert(self.stack@ =~= dropped_above(stack, self.current_level as int, level));
        let mut walk = self.stack[self.current_level as usize].unwrap();
        let mut next = walk.next();
        self.stack[self.current_level as usize] = Some(walk);
        while next.is_none()
            invariant
                usize::BITS == 64,
                first == self.first_level,
                first == old(self).first_level,
                first <= self.current_level <= level < 4,
                level == old(self).descended_level(memory),
                stack == old(self).descended_stack(memory),
                stack.len() == 4,
                forall|l: int| first <= l <= level ==> ((#[trigger] stack[l]) matches Some(w)
                    && table_walk_ok(w, l, memory)),
                deepest_pending(stack, first, level) >= first ==> next_in_table(
                    stack[deepest_pending(stack, first, level)],
                ),
                self.pte == old(self).pte,
                self.pte matches Some(loc) ==> memory.holds(loc),
                self.target_range == old(self).target_range,
                self.virt_addr_range == old(self).virt_addr_range,
                self.traversal_order == old(self).traversal_order,
                self.mem_access_translation == old(self).mem_access_translation,
                deepest_pending(stack, first, level) == deepest_pending(
                    stack,
                    first,
                    self.current_level as int,
                ),
                next is None ==> !pending(stack[self.current_level as int]) && self.stack@
                    =~= dropped_above(stack, self.current_level as int, level),
                next is Some ==> pending(stack[self.current_level as int]) && next == Some(
                    item_of(stack[self.current_level as int].unwrap()),
                ) && self.stack@ =~= dropped_above(stack, self.current_level as int, level).update(
                    self.current_level as int,
                    Some(advanced(stack[self.current_level as int].unwrap())),
                ),
            decreases self.current_level,
        {
            if self.current_level == self.first_level {
                assert(deepest_pending(stack, first, first - 1) == first - 1);
                return None;
            }
            self.stack[self.current_level as usize] = None;
            self.current_level = self.current_level - 1;
            let mut walk = self.stack[self.current_level as usize].unwrap();
            proof {
                let c = self.current_level as int;
                assert(deepest_pending(stack, first, c + 1) == deepest_pending(stack, first, c));
                assert(walk == stack[c].unwrap());
                if pending(stack[c]) {
                    assert(deepest_pending(stack, first, c) == c);
                }
            }
            next = walk.next();
            self.stack[self.current_level as usize] = Some(walk);
        }
        let (level, target_range, pte) = next.unwrap();
        self.pte = Some(pte);
        self.target_range = target_range;
        Some((level, target_range, pte))
    }
}

impl PageDirectoryWalk {
    /// The next entry in postorder: the entries of a table before the table entry.
    fn next_postorder(&mut self, memory: &PageTableMemory) -> (r: Option<
        (u8, VirtAddrRange, EntryLocation),
    >)
        requires
            usize::BITS == 64,
            old(self).wf(memory),
            old(self).can_post_descend(old(self).stack@, old(self).current_level as int, memory),
            old(self).postorder_in_table(memory),
        ensures
            ({
                let reached = old(self).post_descent(
                    old(self).stack@,
                    old(self).current_level as int,
                    memory,
                );
                let c = reached.0;
                let s = reached.1;
                let first = old(self).first_level as int;
                &&& pending(s[c]) ==> {
                    &&& r == Some(item_of(s[c].unwrap()))
                    &&& final(self).current_level == c
                    &&& final(self).stack@ == s.update(c, Some(advanced(s[c].unwrap())))
                }
                &&& !pending(s[c]) && c == first ==> {
                    &&& r is None
                    &&& final(self).current_level == c
                    &&& final(self).stack@ == s.update(c, None)
                }
                &&& !pending(s[c]) && c != first ==> {
                    &&& final(self).current_level == c - 1
                    &&& pending(s[c - 1]) ==> r == Some(item_of(s[c - 1].unwrap()))
                        && final(self).stack@ == s.update(c, None).update(
                        c - 1,
                        Some(advanced(s[c - 1].unwrap())),
                    )
                    &&& !pending(s[c - 1]) ==> r is None && final(self).stack@ == s.update(
                        c,
                        None,
                    )
                }
            }),
            final(self).stack@[final(self).current_level as int] is Some ==> final(self).wf(memory),
            final(self).virt_addr_range == old(self).virt_addr_range,
            final(self).traversal_order == old(self).traversal_order,
            final(self).first_level == old(self).first_level,
            final(self).target_range == old(self).target_range,
            final(self).pte == old(self).pte,
            final(self).mem_access_translation == old(self).mem_access_translation,
    {
        loop
            invariant
                usize::BITS == 64,
                self.wf(memory),
                old(self).post_descent(self.stack@, self.current_level as int, memory)
                    == old(self).post_descent(
                    old(self).stack@,
                    old(self).current_level as int,
                    memory,
                ),
                old(self).can_post_descend(self.stack@, self.current_level as int, memory),
                self.virt_addr_range == old(self).virt_addr_range,
                self.traversal_order == old(self).traversal_order,
                self.first_level == old(self).first_level,
                self.target_range == old(self).target_range,
                self.pte == old(self).pte,
                self.mem_access_translation == old(self).mem_access_translation,
            ensures
                self.wf(memory),
                old(self).post_descent(old(self).stack@, old(self).current_level as int, memory)
                    == (self.current_level as int, self.stack@),
                old(self).can_post_descend(self.stack@, self.current_level as int, memory),
                self.virt_addr_range == old(self).virt_addr_range,
                self.traversal_order == old(self).traversal_order,
                self.first_level == old(self).first_level,
                self.target_range == old(self).target_range,
                self.pte == old(self).pte,
                self.mem_access_translation == old(self).mem_access_translation,
            decreases 3 - self.current_level,
        {
            let walk = self.stack[self.current_level as usize].unwrap();
            match walk.peek() {
                Some((level, entry_range, loc)) => {
                    let pte = memory.entry(loc);
                    if pte.is_valid() && pte.is_table(level) {
                        self.descend(pte, entry_range, memory);
                    } else {
                        break ;
                    }
                },
                None => {
                    break ;
                },
            }
        }
        let walk = self.stack[self.current_level as usize].unwrap();
        if walk.index >= walk.top {
            self.stack[self.current_level as usize] = None;
            if self.current_level == self.first_level {
                return None;
            }
            self.current_level = self.current_level - 1;
        }
        let mut walk = self.stack[self.current_level as usize].unwrap();
        let r = walk.next();
        self.stack[self.current_level as usize] = Some(walk);
        r
    }

    /// The next entry of the walk, in its traversal order: its level, the virtual
    /// address range it spans, and its location.
    pub fn next(&mut self, memory: &PageTableMemory) -> (r: Option<
        (u8, VirtAddrRange, EntryLocation),
    >)
        requires
            usize::BITS == 64,
            old(self).wf(memory),
            old(self).traversal_order == TraversalOrder::Preorder ==> (old(self).descends(memory)
                ==> old(self).can_descend(
                old(self).last_entry(memory),
                old(self).target_range,
                old(self).current_level as int,
                memory,
            )),
            old(self).traversal_order == TraversalOrder::Preorder ==> old(self).preorder_in_table(
                memory,
            ),
            old(self).traversal_order == TraversalOrder::Postorder ==> old(self).can_post_descend(
                old(self).stack@,
                old(self).current_level as int,
                memory,
            ),
            old(self).traversal_order == TraversalOrder::Postorder ==> old(self).postorder_in_table(
                memory,
            ),
        ensures
            old(self).traversal_order == TraversalOrder::Preorder ==> ({
                let level = old(self).descended_level(memory);
                let stack = old(self).descended_stack(memory);
                let l = deepest_pending(stack, old(self).first_level as int, level);
                &&& l < old(self).first_level ==> {
                    &&& r is None
                    &&& final(self).current_level == old(self).first_level
                    &&& final(self).stack@ == dropped_above(
                        stack,
                        old(self).first_level as int,
                        level,
                    )
                    &&& final(self).pte == old(self).pte
                    &&& final(self).target_range == old(self).target_range
                }
                &&& l >= old(self).first_level ==> {
                    &&& r == Some(item_of(stack[l].unwrap()))
                    &&& final(self).current_level == l
                    &&& final(self).stack@ == dropped_above(stack, l, level).update(
                        l,
                        Some(advanced(stack[l].unwrap())),
                    )
                    &&& final(self).pte == Some(r.unwrap().2)
                    &&& final(self).target_range == r.unwrap().1
                }
                &&& final(self).wf(memory)
            }),
            old(self).traversal_order == TraversalOrder::Postorder ==> ({
                let reached = old(self).post_descent(
                    old(self).stack@,
                    old(self).current_level as int,
                    memory,
                );
                let c = reached.0;
                let s = reached.1;
                let first = old(self).first_level as int;
                &&& pending(s[c]) ==> {
                    &&& r == Some(item_of(s[c].unwrap()))
                    &&& final(self).current_level == c
                    &&& final(self).stack@ == s.update(c, Some(advanced(s[c].unwrap())))
                }
                &&& !pending(s[c]) && c == first ==> {
                    &&& r is None
                    &&& final(self).current_level == c
                    &&& final(self).stack@ == s.update(c, None)
                }
                &&& !pending(s[c]) && c != first ==> {
                    &&& final(self).current_level == c - 1
                    &&& pending(s[c - 1]) ==> r == Some(item_of(s[c - 1].unwrap()))
                        && final(self).stack@ == s.update(c, None).update(
                        c - 1,
                        Some(advanced(s[c - 1].unwrap())),
                    )
                    &&& !pending(s[c - 1]) ==> r is None && final(self).stack@ == s.update(
                        c,
                        None,
                    )
                }
                &&& final(self).stack@[final(self).current_level as int] is Some ==> final(self).wf(memory)
                &&& final(self).target_range == old(self).target_range
                &&& final(self).pte == old(self).pte
            }),
            old(self).traversal_order == TraversalOrder::Preorder ==> {
                &&& r is None <==> old(self).preorder_remaining(memory).len() == 0
                &&& r matches Some(x) ==> x == old(self).preorder_remaining(memory)[0]
                    && final(self).preorder_remaining(memory)
                    == old(self).preorder_remaining(memory).drop_first()
            },
            old(self).traversal_order == TraversalOrder::Postorder
                && old(self).levels_below_pending() ==> {
                &&& r is None <==> old(self).postorder_remaining(memory).len() == 0
                &&& r matches Some(x) ==> x == old(self).postorder_remaining(memory)[0]
                    && final(self).postorder_remaining(memory)
                    == old(self).postorder_remaining(memory).drop_first()
                    && final(self).levels_below_pending()
            },
            final(self).virt_addr_range == old(self).virt_addr_range,
            final(self).traversal_order == old(self).traversal_order,
            final(self).first_level == old(self).first_level,
            final(self).mem_access_translation == old(self).mem_access_translation,
    {
        let ghost before = *self;
        let r = match self.traversal_order {
            TraversalOrder::Preorder => self.next_preorder(memory),
            TraversalOrder::Postorder => self.next_postorder(memory),
        };
        proof {
            if before.traversal_order == TraversalOrder::Preorder {
                lemma_preorder_step(before, *self, r, memory);
            } else if before.levels_below_pending() {
                lemma_postorder_step(before, *self, r, memory);
            }
        }
        r
    }
}

} // verus!
