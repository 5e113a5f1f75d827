//! Mapping a virtual address range into the page tables of a directory.
//!
//! `map_level` goes through the entries of one table that span the range: an entry
//! that a page (or a block, where the attributes ask for blocks) covers becomes a leaf
//! descriptor of the translation of its base; any other entry becomes, or already is,
//! a table entry, and the mapping goes on in its table. The effect is stated as the
//! outcome of going through the entries in order, on the state of page-table memory.

use super::pager::{
    entry_count, entry_size, incremented, kernel_base_value, table_entries, Arch, PageDirectory,
    TTB0_FIRST_LEVEL, TTB1_FIRST_LEVEL,
};
use super::table::{
    access_permissions, page_block_entry_bits, table_entry_bits, PageBlockDescriptor,
    PageTableEntry, TableDescriptor,
};
use super::walk::{next_table_addr, null_table, table_index_at, EntryLocation, PageTableMemory};
use crate::pager::addr::{intersection_of, Addr, AddrRange};
use crate::pager::attributes::{has_field, AttributeField, Attributes};
use crate::pager::phys_addr::PhysAddr;
use crate::pager::translation::{FixedOffset, Translate};
use crate::pager::virt_addr::{VirtAddr, VirtAddrRange};
use crate::{Error, Result};
use vstd::prelude::*;

verus! {

/// The place in `count` tables from `base` of the table at a physical address, reached
/// through a fixed offset.
pub open spec fn phys_table(base: int, count: int, mat: FixedOffset, phys_addr: usize) -> Option<
    int,
> {
    match mat.spec_translate_phys(phys_addr) {
        Some(va) => table_index_at(base, count, va as int),
        None => None,
    }
}

/// True iff the range at `a` of `al` bytes extends to at least the range at `b` of `bl`.
pub open spec fn covers_range(a: int, al: int, b: int, bl: int) -> bool {
    a <= b && b + bl <= a + al
}

/// The tables with entry `i` of table `t` replaced.
pub open spec fn with_entry(
    tables: Seq<Seq<PageTableEntry>>,
    t: int,
    i: int,
    e: PageTableEntry,
) -> Seq<Seq<PageTableEntry>> {
    tables.update(t, tables[t].update(i, e))
}

/// What mapping the part of the range at `target_base` of `target_len` bytes that the
/// table at place `table` (at `level`, whose entry 0 starts at `pt_base`) spans gives,
/// from page-table memory of `count` tables at `base` in state `s` (the entries of each
/// table and the first free table): the result and the state afterwards, or none where
/// the mapping would fail on a precondition (a remap, a table outside memory, an
/// address past the top of memory).
pub open spec fn level_outcome<T: Translate>(
    translation: T,
    attrs: u64,
    mat: FixedOffset,
    base: int,
    s: (Seq<Seq<PageTableEntry>>, nat),
    level: int,
    table: int,
    target_base: int,
    target_len: int,
    pt_base: int,
) -> Option<(Result<()>, (Seq<Seq<PageTableEntry>>, nat))>
    decreases 3 - level, 1int, 0int,
{
    if !(0 <= level < 4) || target_base < 0 || target_len < 0 || target_base + target_len
        > usize::MAX + 1 {
        None
    } else {
        let size = entry_size(level);
        let first = (target_base / size) % 512;
        let top = first + entry_count(level, target_base, target_len);
        entries_outcome(
            translation,
            attrs,
            mat,
            base,
            s,
            level,
            table,
            target_base,
            target_len,
            pt_base,
            first,
            top,
            incremented(pt_base, first * size),
        )
    }
}

/// What mapping entries `i..top` of the table gives, where entry `i` spans the range at
/// `span_base`: as `level_outcome`.
pub open spec fn entries_outcome<T: Translate>(
    translation: T,
    attrs: u64,
    mat: FixedOffset,
    base: int,
    s: (Seq<Seq<PageTableEntry>>, nat),
    level: int,
    table: int,
    target_base: int,
    target_len: int,
    pt_base: int,
    i: int,
    top: int,
    span_base: int,
) -> Option<(Result<()>, (Seq<Seq<PageTableEntry>>, nat))>
    decreases 3 - level, 0int, top - i,
{
    if !(0 <= level < 4) || i >= top {
        Some((Ok(()), s))
    } else if span_base + entry_size(level) > usize::MAX || target_base + target_len > usize::MAX
        || !(0 <= i < 512) || !(0 <= table < s.0.len()) || s.0[table].len() != 512 {
        None
    } else {
        let size = entry_size(level);
        let (eb, el) = match intersection_of(span_base, size, target_base, target_len) {
            Some(bl) => bl,
            None => (0, 0),
        };
        let e = s.0[table][i];
        let block = has_field(attrs, AttributeField::Block);
        let cbase = incremented(pt_base, (i - i % 16) * size);
        let leaf_try = level == 3 || (1 <= level <= 2 && block);
        let next_span = incremented(span_base, size);
        if leaf_try && block && cbase + 16 * size > usize::MAX {
            None
        } else if leaf_try && (level == 3 || covers_range(eb, el, span_base, size)) {
            let contiguous = block && covers_range(target_base, target_len, cbase, 16 * size);
            if e.0 & 1 != 0 || access_permissions(attrs) is None || !translation.translates(
                span_base as usize,
            ) {
                None
            } else {
                let leaf = PageTableEntry(
                    page_block_entry_bits(
                        level as u8,
                        translation.spec_translate_maybe(span_base as usize),
                        attrs,
                        contiguous,
                    ),
                );
                entries_outcome(
                    translation,
                    attrs,
                    mat,
                    base,
                    (with_entry(s.0, table, i, leaf), s.1),
                    level,
                    table,
                    target_base,
                    target_len,
                    pt_base,
                    i + 1,
                    top,
                    next_span,
                )
            }
        } else if level >= 3 {
            None
        } else if e.0 & 1 != 0 {
            match phys_table(base, s.0.len() as int, mat, next_table_addr(e)) {
                None => None,
                Some(child) => match level_outcome(
                    translation,
                    attrs,
                    mat,
                    base,
                    s,
                    level + 1,
                    child,
                    eb,
                    el,
                    span_base,
                ) {
                    None => None,
                    Some((Err(x), s2)) => Some((Err(x), s2)),
                    Some((Ok(_), s2)) => entries_outcome(
                        translation,
                        attrs,
                        mat,
                        base,
                        s2,
                        level,
                        table,
                        target_base,
                        target_len,
                        pt_base,
                        i + 1,
                        top,
                        next_span,
                    ),
                },
            }
        } else if has_field(attrs, AttributeField::OnDemand) && covers_range(
            target_base,
            target_len,
            span_base,
            size,
        ) {
            entries_outcome(
                translation,
                attrs,
                mat,
                base,
                (with_entry(s.0, table, i, PageTableEntry(table_entry_bits(None, attrs))), s.1),
                level,
                table,
                target_base,
                target_len,
                pt_base,
                i + 1,
                top,
                next_span,
            )
        } else if s.1 >= s.0.len() {
            Some((Err(Error::OutOfMemory), s))
        } else {
            let t = s.1 as int;
            let va = base + t * 4096;
            if va < mat@ || va > usize::MAX {
                None
            } else {
                let pa = (va - mat@) as usize;
                let zeroed = s.0.update(t, null_table());
                let s2 = (
                    with_entry(zeroed, table, i, PageTableEntry(table_entry_bits(Some(pa), attrs))),
                    (s.1 + 1) as nat,
                );
                match level_outcome(
                    translation,
                    attrs,
                    mat,
                    base,
                    s2,
                    level + 1,
                    t,
                    eb,
                    el,
                    span_base,
                ) {
                    None => None,
                    Some((Err(x), s3)) => Some((Err(x), s3)),
                    Some((Ok(_), s3)) => entries_outcome(
                        translation,
                        attrs,
                        mat,
                        base,
                        s3,
                        level,
                        table,
                        target_base,
                        target_len,
                        pt_base,
                        i + 1,
                        top,
                        next_span,
                    ),
                }
            }
        }
    }
}

/// The page descriptor a page at `virt_addr` gets by a translation with the attributes.
pub open spec fn page_entry<T: Translate>(translation: T, virt_addr: int, attrs: u64) -> PageTableEntry {
    PageTableEntry(
        page_block_entry_bits(3, translation.spec_translate_maybe(virt_addr as usize), attrs, false),
    )
}

/// A leaf table with entries `i..top` replaced by the descriptors of their pages, the
/// table's entry 0 starting at `pt_base`.
pub open spec fn pages_mapped<T: Translate>(
    entries: Seq<PageTableEntry>,
    translation: T,
    attrs: u64,
    pt_base: int,
    i: int,
    top: int,
) -> Seq<PageTableEntry> {
    Seq::new(
        entries.len(),
        |k: int|
            if i <= k < top {
                page_entry(translation, pt_base + k * 4096, attrs)
            } else {
                entries[k]
            },
    )
}

/// Entries `i..top` of a leaf table, free and with translatable pages, map those pages.
pub(crate) proof fn lemma_leaf_entries_map_pages<T: Translate>(
    translation: T,
    attrs: u64,
    mat: FixedOffset,
    base: int,
    s: (Seq<Seq<PageTableEntry>>, nat),
    table: int,
    target_base: int,
    target_len: int,
    pt_base: int,
    i: int,
    top: int,
)
    requires
        0 <= table < s.0.len(),
        s.0[table].len() == 512,
        0 <= i <= top <= 512,
        0 <= pt_base,
        pt_base + top * 4096 <= usize::MAX,
        target_base + target_len <= usize::MAX,
        !has_field(attrs, AttributeField::Block),
        access_permissions(attrs) is Some,
        forall|k: int|
            i <= k < top ==> #[trigger] s.0[table][k].0 & 1 == 0 && translation.translates(
                (pt_base + k * 4096) as usize,
            ),
    ensures
        entries_outcome(
            translation,
            attrs,
            mat,
            base,
            s,
            3,
            table,
            target_base,
            target_len,
            pt_base,
            i,
            top,
            pt_base + i * 4096,
        ) == Some(
            (
                Ok::<(), Error>(()),
                (s.0.update(table, pages_mapped(s.0[table], translation, attrs, pt_base, i, top)), s.1),
            ),
        ),
    decreases top - i,
{
    super::pager::lemma_entry_sizes();
    let mapped = pages_mapped(s.0[table], translation, attrs, pt_base, i, top);
    if i >= top {
        assert(mapped =~= s.0[table]);
        assert(s.0.update(table, mapped) =~= s.0);
    } else {
        let leaf = page_entry(translation, pt_base + i * 4096, attrs);
        let s1 = (with_entry(s.0, table, i, leaf), s.1);
        assert(incremented(pt_base + i * 4096, 4096) == pt_base + (i + 1) * 4096);
        lemma_leaf_entries_map_pages(
            translation,
            attrs,
            mat,
            base,
            s1,
            table,
            target_base,
            target_len,
            pt_base,
            i + 1,
            top,
        );
        assert(pages_mapped(s1.0[table], translation, attrs, pt_base, i + 1, top) =~= mapped);
        assert(s1.0.update(table, mapped) =~= s.0.update(table, mapped));
    }
}

/// Mapping a range within the span of one leaf table, whose entries over the range are
/// free and whose pages the translation translates, replaces those entries by the
/// descriptors of their pages' translations and leaves every other entry, and the free
/// tables, as they were.
pub proof fn lemma_map_leaf_table<T: Translate>(
    translation: T,
    attrs: u64,
    mat: FixedOffset,
    base: int,
    s: (Seq<Seq<PageTableEntry>>, nat),
    table: int,
    target_base: int,
    target_len: int,
    pt_base: int,
)
    requires
        0 <= table < s.0.len(),
        s.0[table].len() == 512,
        0 <= pt_base,
        pt_base + 512 * 4096 <= usize::MAX,
        0 <= target_base,
        0 <= target_len,
        target_base + target_len + 4095 <= usize::MAX,
        (target_base / 4096) % 512 + entry_count(3, target_base, target_len) <= 512,
        !has_field(attrs, AttributeField::Block),
        access_permissions(attrs) is Some,
        forall|k: int|
            (target_base / 4096) % 512 <= k < (target_base / 4096) % 512 + entry_count(3, target_base, target_len) ==> #[trigger] s.0[table][k].0 & 1 == 0 && translation.translates(
                (pt_base + k * 4096) as usize,
            ),
    ensures
        ({
            let first = (target_base / 4096) % 512;
            let top = first + entry_count(3, target_base, target_len);
            level_outcome(
                translation,
                attrs,
                mat,
                base,
                s,
                3,
                table,
                target_base,
                target_len,
                pt_base,
            ) == Some(
                (
                    Ok::<(), Error>(()),
                    (
                        s.0.update(
                            table,
                            pages_mapped(s.0[table], translation, attrs, pt_base, first, top),
                        ),
                        s.1,
                    ),
                ),
            )
        }),
{
    super::pager::lemma_entry_sizes();
    let first = (target_base / 4096) % 512;
    let top = first + entry_count(3, target_base, target_len);
    assert(first >= 0);
    assert(entry_count(3, target_base, target_len) >= 0) by {
        if target_len > 0 {
            vstd::arithmetic::div_mod::lemma_div_is_ordered(target_base, target_base + target_len - 1, 4096);
        }
    }
    assert(incremented(pt_base, first * 4096) == pt_base + first * 4096);
    lemma_leaf_entries_map_pages(
        translation,
        attrs,
        mat,
        base,
        s,
        table,
        target_base,
        target_len,
        pt_base,
        first,
        top,
    );
}

/// The state of page-table memory: the entries of each table, and the first free table.
pub open spec fn memory_state(memory: &PageTableMemory) -> (Seq<Seq<PageTableEntry>>, nat) {
    (memory.tables(), memory.next_free())
}

impl PageDirectory {
    /// Map the part of the target range that the table at `level` at a physical address
    /// spans (its entry 0 starting at `page_table_virt_addr_range_base`) by the
    /// translation, with the attributes; new tables come from the free tables of memory.
    pub fn map_level<T: Translate>(
        &mut self,
        target_range: VirtAddrRange,
        translation: &T,
        level: u8,
        phys_addr_table: PhysAddr,
        page_table_virt_addr_range_base: VirtAddr,
        attributes: Attributes,
        memory: &mut PageTableMemory,
        mem_access_translation: &FixedOffset,
    ) -> (r: Result<VirtAddrRange>)
        requires
            usize::BITS == 64,
            old(memory).wf(),
            level < 4,
            phys_table(
                old(memory).spec_base() as int,
                old(memory).count() as int,
                *mem_access_translation,
                phys_addr_table.value(),
            ) matches Some(t) && level_outcome(
                *translation,
                attributes@,
                *mem_access_translation,
                old(memory).spec_base() as int,
                memory_state(old(memory)),
                level as int,
                t,
                target_range.spec_base() as int,
                target_range.spec_length() as int,
                page_table_virt_addr_range_base.value() as int,
            ) is Some,
        ensures
            *final(self) == *old(self),
            final(memory).wf(),
            final(memory).spec_base() == old(memory).spec_base(),
            final(memory).count() == old(memory).count(),
            ({
                let t = phys_table(
                    old(memory).spec_base() as int,
                    old(memory).count() as int,
                    *mem_access_translation,
                    phys_addr_table.value(),
                ).unwrap();
                let outcome = level_outcome(
                    *translation,
                    attributes@,
                    *mem_access_translation,
                    old(memory).spec_base() as int,
                    memory_state(old(memory)),
                    level as int,
                    t,
                    target_range.spec_base() as int,
                    target_range.spec_length() as int,
                    page_table_virt_addr_range_base.value() as int,
                ).unwrap();
                &&& memory_state(final(memory)) == outcome.1
                &&& outcome.0 is Ok ==> r == Ok::<VirtAddrRange, Error>(target_range)
                &&& outcome.0 matches Err(e) ==> r == Err::<VirtAddrRange, Error>(e)
            }),
        decreases 3 - level,
    {
        let ghost mat = *mem_access_translation;
        let ghost base = memory.spec_base() as int;
        let ghost count = memory.count() as int;
        let ghost attrs = attributes@;
        let ghost tb = target_range.spec_base() as int;
        let ghost tl = target_range.spec_length() as int;
        let ghost ptb = page_table_virt_addr_range_base.value() as int;
        let ghost lv = level as int;
        let ghost table = phys_table(base, count, mat, phys_addr_table.value()).unwrap();
        let ghost goal = level_outcome(
            *translation,
            attrs,
            mat,
            base,
            memory_state(memory),
            lv,
            table,
            tb,
            tl,
            ptb,
        ).unwrap();
        let t = match mem_access_translation.translate_phys(phys_addr_table) {
            Ok(virt_addr) => match memory.table_index(virt_addr) {
                Some(t) => t,
                None => {
                    return Err(Error::Undefined);
                },
            },
            Err(e) => {
                return Err(e);
            },
        };
        assert(t == table);
        proof {
            super::pager::lemma_entry_sizes();
        }
        let mut entries = table_entries(target_range, level, page_table_virt_addr_range_base);
        loop
            invariant
                usize::BITS == 64,
                level < 4,
                lv == level,
                *self == *old(self),
                base == old(memory).spec_base(),
                count == old(memory).count(),
                table == phys_table(base, count, mat, phys_addr_table.value()).unwrap(),
                goal == level_outcome(
                    *translation,
                    attrs,
                    mat,
                    base,
                    memory_state(old(memory)),
                    lv,
                    table,
                    tb,
                    tl,
                    ptb,
                ).unwrap(),
                memory.wf(),
                memory.spec_base() == base,
                memory.count() == count,
                t == table,
                entries.bounds == target_range,
                entries.entry_span.spec_length() == entry_size(lv),
                attrs == attributes@,
                mat == *mem_access_translation,
                tb == target_range.spec_base(),
                tl == target_range.spec_length(),
                ptb == page_table_virt_addr_range_base.value(),
                entry_size(lv) >= 0x1000,
                entry_size(lv) <= 0x80_0000_0000,
                entries_outcome(
                    *translation,
                    attrs,
                    mat,
                    base,
                    memory_state(memory),
                    lv,
                    table,
                    tb,
                    tl,
                    ptb,
                    entries.index as int,
                    entries.top as int,
                    entries.entry_span.spec_base() as int,
                ) == Some(goal),
            ensures
                *self == *old(self),
                memory.wf(),
                memory.spec_base() == base,
                memory.count() == count,
                goal.0 is Ok && memory_state(memory) == goal.1,
            decreases entries.top - entries.index,
        {
            let ghost before = memory_state(memory);
            let ghost i = entries.index as int;
            let ghost span = entries.entry_span.spec_base() as int;
            let item = entries.next();
            let (index, entry_target_range, entry_range) = match item {
                Some(item) => item,
                None => {
                    break ;
                },
            };
            let loc = EntryLocation { table: t, index };
            proof {
                memory.lemma_wf();
            }
            let pte = memory.entry(loc);
            let ghost size = entry_size(lv);
            let ghost top = entries.top as int;
            let ghost eb = entry_target_range.spec_base() as int;
            let ghost el = entry_target_range.spec_length() as int;
            let ghost next_span = entries.entry_span.spec_base() as int;
            proof {
                assert(index == i);
                assert(entry_range.spec_base() == span);
                assert(entry_range.spec_length() == size);
                assert(next_span == incremented(span, size));
                assert(pte == before.0[table][i]);
                assert(before.0.len() == count);
                assert(match intersection_of(span, size, tb, tl) {
                    Some(bl) => bl == (eb, el),
                    None => eb == 0 && el == 0,
                });
            }
            if level == 3 || (1 <= level && level <= 2 && attributes.is_set(AttributeField::Block)) {
                let contiguous_range = PageDirectory::contiguous_virt_range(
                    level,
                    index,
                    page_table_virt_addr_range_base,
                );
                let contiguous = attributes.is_set(AttributeField::Block) && target_range.covers(
                    &contiguous_range,
                );
                if level == 3 || entry_target_range.covers(&entry_range) {
                    if pte.is_valid() {
                        return Err(Error::Undefined);
                    }
                    let maybe_output_addr = translation.translate_maybe(entry_range.base());
                    let desc = PageBlockDescriptor::new_entry(
                        level,
                        maybe_output_addr,
                        attributes,
                        contiguous,
                    );
                    memory.set_entry(loc, PageTableEntry::from_page_block_descriptor(desc));
                    proof {
                        let leaf = PageTableEntry(
                            page_block_entry_bits(
                                level,
                                translation.spec_translate_maybe(span as usize),
                                attrs,
                                contiguous,
                            ),
                        );
                        assert(memory_state(memory) == (with_entry(before.0, table, i, leaf), before.1));
                    }
                    continue ;
                }
            }
            if pte.is_valid() {
                // the entry already refers to a table: map within it
                let phys_addr_table = pte.next_level_table_address();
                proof {
                    assert(phys_addr_table.value() == next_table_addr(pte));
                }
                match self.map_level(
                    entry_target_range,
                    translation,
                    level + 1,
                    phys_addr_table,
                    entry_range.base(),
                    attributes,
                    memory,
                    mem_access_translation,
                ) {
                    Ok(_) => {},
                    Err(e) => {
                        return Err(e);
                    },
                }
            } else if attributes.is_set(AttributeField::OnDemand) && target_range.covers(
                &entry_range,
            ) {
                // no table is needed until the range is accessed
                let desc = TableDescriptor::new_entry(None, attributes);
                memory.set_entry(loc, PageTableEntry::from_table_descriptor(desc));
            } else {
                let new_table = match memory.alloc_table() {
                    Some(new_table) => new_table,
                    None => {
                        return Err(Error::OutOfMemory);
                    },
                };
                let virt_addr = memory.address_of(new_table);
                proof {
                    crate::pager::translation::lemma_fixed_offset(mat, virt_addr.value(), 0);
                }
                let phys_addr_table = mem_access_translation.translate(virt_addr);
                let desc = TableDescriptor::new_entry(Some(phys_addr_table), attributes);
                memory.set_entry(loc, PageTableEntry::from_table_descriptor(desc));
                proof {
                    crate::pager::translation::lemma_fixed_offset_round_trip(
                        mat,
                        phys_addr_table.value(),
                        virt_addr.value(),
                    );
                    crate::pager::translation::lemma_fixed_offset(
                        mat,
                        virt_addr.value(),
                        phys_addr_table.value(),
                    );
                    assert(phys_table(base, count, mat, phys_addr_table.value()) == Some(
                        new_table as int,
                    ));
                }
                match self.map_level(
                    entry_target_range,
                    translation,
                    level + 1,
                    phys_addr_table,
                    entry_range.base(),
                    attributes,
                    memory,
                    mem_access_translation,
                ) {
                    Ok(_) => {},
                    Err(e) => {
                        return Err(e);
                    },
                }
            }
        }
        Ok(target_range)
    }
}

/// The root table of the half of the address space a range starts in (the user half
/// below the kernel base, from level 0; the kernel half from level 1), the first level,
/// and where the root table's span starts.
pub open spec fn root_of(dir: PageDirectory, target_base: int) -> (Option<PhysAddr>, int, int) {
    if target_base < kernel_base_value() {
        (dir.ttb0, TTB0_FIRST_LEVEL as int, 0)
    } else {
        (dir.ttb1, TTB1_FIRST_LEVEL as int, kernel_base_value())
    }
}

/// What mapping a range by a translation gives in a directory: the root table of the
/// range's half of the address space is taken from the free tables where the directory
/// has none (`OutOfMemory` where none is free), and the mapping goes from it. The
/// result, the state of page-table memory and the directory afterwards, or none as for
/// `level_outcome`.
pub open spec fn translation_outcome<T: Translate>(
    dir: PageDirectory,
    translation: T,
    attrs: u64,
    mat: FixedOffset,
    base: int,
    s: (Seq<Seq<PageTableEntry>>, nat),
    target_base: int,
    target_len: int,
) -> Option<(Result<()>, (Seq<Seq<PageTableEntry>>, nat), PageDirectory)> {
    let (root, first, pt_base) = root_of(dir, target_base);
    match root {
        Some(pa) => match phys_table(base, s.0.len() as int, mat, pa.value()) {
            None => None,
            Some(t) => match level_outcome(
                translation,
                attrs,
                mat,
                base,
                s,
                first,
                t,
                target_base,
                target_len,
                pt_base,
            ) {
                None => None,
                Some((r, s2)) => Some((r, s2, dir)),
            },
        },
        None => if s.1 >= s.0.len() {
            Some((Err(Error::OutOfMemory), s, dir))
        } else {
            let t = s.1 as int;
            let va = base + t * 4096;
            if va < mat@ || va > usize::MAX {
                None
            } else {
                let pa = PhysAddr((va - mat@) as usize);
                let dir2 = if target_base < kernel_base_value() {
                    PageDirectory { ttb0: Some(pa), ..dir }
                } else {
                    PageDirectory { ttb1: Some(pa), ..dir }
                };
                match level_outcome(
                    translation,
                    attrs,
                    mat,
                    base,
                    (s.0.update(t, null_table()), (s.1 + 1) as nat),
                    first,
                    t,
                    target_base,
                    target_len,
                    pt_base,
                ) {
                    None => None,
                    Some((r, s2)) => Some((r, s2, dir2)),
                }
            }
        },
    }
}

impl PageDirectory {
    /// A root table from the free tables of memory, by its physical address; none where
    /// no table is free.
    fn alloc_root(memory: &mut PageTableMemory, mem_access_translation: &FixedOffset) -> (r: Option<
        PhysAddr,
    >)
        requires
            old(memory).wf(),
            old(memory).next_free() < old(memory).count() ==> mem_access_translation@
                <= old(memory).spec_base() + old(memory).next_free() * 4096,
        ensures
            final(memory).wf(),
            final(memory).spec_base() == old(memory).spec_base(),
            old(memory).next_free() < old(memory).count() ==> {
                &&& r == Some(
                    PhysAddr(
                        (old(memory).spec_base() + old(memory).next_free() * 4096
                            - mem_access_translation@) as usize,
                    ),
                )
                &&& memory_state(final(memory)) == (
                    old(memory).tables().update(old(memory).next_free() as int, null_table()),
                    (old(memory).next_free() + 1) as nat,
                )
            },
            old(memory).next_free() >= old(memory).count() ==> r is None && memory_state(
                final(memory),
            ) == memory_state(old(memory)),
    {
        proof {
            old(memory).lemma_wf();
        }
        match memory.alloc_table() {
            Some(t) => {
                let virt_addr = memory.address_of(t);
                proof {
                    crate::pager::translation::lemma_fixed_offset(
                        *mem_access_translation,
                        virt_addr.value(),
                        0,
                    );
                }
                Some(mem_access_translation.translate(virt_addr))
            },
            None => None,
        }
    }

    /// Map a virtual address range by a translation with the attributes, in the user or
    /// kernel half of the address space by where the range starts; the root table of a
    /// half comes from the free tables of memory the first time.
    pub fn map_translation<T: Translate>(
        &mut self,
        target_range: VirtAddrRange,
        translation: T,
        attributes: Attributes,
        memory: &mut PageTableMemory,
        mem_access_translation: &FixedOffset,
    ) -> (r: Result<VirtAddrRange>)
        requires
            usize::BITS == 64,
            old(memory).wf(),
            translation_outcome(
                *old(self),
                translation,
                attributes@,
                *mem_access_translation,
                old(memory).spec_base() as int,
                memory_state(old(memory)),
                target_range.spec_base() as int,
                target_range.spec_length() as int,
            ) is Some,
        ensures
            final(memory).wf(),
            final(memory).spec_base() == old(memory).spec_base(),
            final(memory).count() == old(memory).count(),
            ({
                let outcome = translation_outcome(
                    *old(self),
                    translation,
                    attributes@,
                    *mem_access_translation,
                    old(memory).spec_base() as int,
                    memory_state(old(memory)),
                    target_range.spec_base() as int,
                    target_range.spec_length() as int,
                ).unwrap();
                &&& memory_state(final(memory)) == outcome.1
                &&& *final(self) == outcome.2
                &&& outcome.0 is Ok ==> r == Ok::<VirtAddrRange, Error>(target_range)
                &&& outcome.0 matches Err(e) ==> r == Err::<VirtAddrRange, Error>(e)
            }),
    {
        proof {
            old(memory).lemma_wf();
        }
        let kernel_base = Arch::kernel_base();
        let (phys_addr_table, page_table_virt_addr_range_base, first_level) = if target_range.base().get()
            < kernel_base.get() {
            if self.ttb0.is_none() {
                self.ttb0 = Self::alloc_root(memory, mem_access_translation);
            }
            match self.ttb0 {
                Some(phys_addr) => (phys_addr, VirtAddr::null(), TTB0_FIRST_LEVEL),
                None => {
                    return Err(Error::OutOfMemory);
                },
            }
        } else {
            if self.ttb1.is_none() {
                self.ttb1 = Self::alloc_root(memory, mem_access_translation);
            }
            match self.ttb1 {
                Some(phys_addr) => (phys_addr, kernel_base, TTB1_FIRST_LEVEL),
                None => {
                    return Err(Error::OutOfMemory);
                },
            }
        };
        proof {
            let mat = *mem_access_translation;
            let pa = phys_addr_table.value();
            crate::pager::translation::lemma_fixed_offset(mat, 0, pa);
            let root = root_of(*old(self), target_range.spec_base() as int);
            assert(first_level as int == root.1);
            assert(page_table_virt_addr_range_base.value() as int == root.2);
            if root.0 is None {
                let t = old(memory).next_free() as int;
                let va = old(memory).spec_base() + t * 4096;
                assert(pa == va - mat@);
                assert(phys_table(
                    memory.spec_base() as int,
                    memory.count() as int,
                    mat,
                    pa,
                ) == Some(t));
            } else {
                assert(root.0 == Some(phys_addr_table));
            }
        }
        let ghost state = memory_state(memory);
        let ghost dir = *self;
        let r = self.map_level(
            target_range,
            &translation,
            first_level,
            phys_addr_table,
            page_table_virt_addr_range_base,
            attributes,
            memory,
            mem_access_translation,
        );
        proof {
            let outcome = translation_outcome(
                *old(self),
                translation,
                attributes@,
                *mem_access_translation,
                old(memory).spec_base() as int,
                memory_state(old(memory)),
                target_range.spec_base() as int,
                target_range.spec_length() as int,
            ).unwrap();
            assert(*self == outcome.2);
        }
        r
    }
}

} // verus!
