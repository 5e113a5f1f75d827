//! Resolving a virtual address through the page tables of a directory, and what the
//! walk gives after a range is mapped into a half of a directory that had no tables.

use super::map::{
    entries_outcome, lemma_leaf_entries_map_pages, level_outcome, page_entry, pages_mapped,
    phys_table, root_of, translation_outcome, with_entry,
};
use super::pager::{
    entry_count, entry_size, incremented, kernel_base_value, lemma_entry_sizes, PageDirectory,
};
use super::table::{access_permissions, lemma_table_descriptor_address, table_entry_bits, PageTableEntry};
use super::walk::{next_table_addr, null_table, table_index_at};
use crate::pager::addr::{intersection_of, Addr};
use crate::pager::attributes::{has_field, AttributeField};
use crate::pager::phys_addr::PhysAddr;
use crate::pager::translation::{lemma_fixed_offset, FixedOffset, Translate};
use crate::Error;
use vstd::prelude::*;

verus! {

/// The descriptor that a walk for `virt_addr` from the table at place `t` at `level`
/// ends at, in `tables` at virtual address `base` reached from physical addresses
/// through the fixed offset `mat`: a valid table descriptor above level 3 leads on to
/// the entry for the address in its table; any other descriptor ends the walk. None
/// where a table address leads outside the tables.
pub open spec fn walk_descriptor(
    tables: Seq<Seq<PageTableEntry>>,
    base: int,
    mat: FixedOffset,
    t: int,
    level: int,
    virt_addr: int,
) -> Option<PageTableEntry>
    decreases 3 - level,
{
    if !(0 <= level <= 3) || !(0 <= t < tables.len()) {
        None
    } else {
        let e = tables[t][(virt_addr / entry_size(level)) % 512];
        if level < 3 && e.0 & 3 == 3 {
            match phys_table(base, tables.len() as int, mat, next_table_addr(e)) {
                Some(c) => walk_descriptor(tables, base, mat, c, level + 1, virt_addr),
                None => None,
            }
        } else {
            Some(e)
        }
    }
}

/// The descriptor that a walk of the directory for `virt_addr` ends at: from the root
/// table of the address's half of the address space, none where that half has none.
pub open spec fn directory_descriptor(
    dir: PageDirectory,
    tables: Seq<Seq<PageTableEntry>>,
    base: int,
    mat: FixedOffset,
    virt_addr: int,
) -> Option<PageTableEntry> {
    let (root, first, _) = root_of(dir, virt_addr);
    match root {
        Some(pa) => match phys_table(base, tables.len() as int, mat, pa.value()) {
            Some(t) => walk_descriptor(tables, base, mat, t, first, virt_addr),
            None => None,
        },
        None => None,
    }
}

/// True iff every table that the walk for `virt_addr` visits after the table at place
/// `t` lies at a place in `lo..hi`.
spec fn walk_below(
    tables: Seq<Seq<PageTableEntry>>,
    base: int,
    mat: FixedOffset,
    t: int,
    level: int,
    virt_addr: int,
    lo: int,
    hi: int,
) -> bool
    decreases 3 - level,
{
    if !(0 <= level <= 3) || !(0 <= t < tables.len()) {
        true
    } else {
        let e = tables[t][(virt_addr / entry_size(level)) % 512];
        if level < 3 && e.0 & 3 == 3 {
            match phys_table(base, tables.len() as int, mat, next_table_addr(e)) {
                Some(c) => lo <= c < hi && walk_below(tables, base, mat, c, level + 1, virt_addr, lo, hi),
                None => true,
            }
        } else {
            true
        }
    }
}

/// The entries of size `size` that a non-empty range overlaps reach its end, and the
/// last of them begins before its end: counted from the entry the range starts in.
proof fn lemma_count_reaches(tb: int, tl: int, size: int)
    requires
        0 <= tb,
        0 < tl,
        0 < size,
    ensures
        ({
            let count = (tb + tl - 1) / size - tb / size + 1;
            &&& count >= 1
            &&& tb % size + tl <= count * size
            &&& tb - tb % size + (count - 1) * size < tb + tl
        }),
{
    let last = tb + tl - 1;
    vstd::arithmetic::div_mod::lemma_fundamental_div_mod(tb, size);
    vstd::arithmetic::div_mod::lemma_fundamental_div_mod(last, size);
    vstd::arithmetic::div_mod::lemma_div_is_ordered(tb, last, size);
    let a = tb / size;
    let e = last / size;
    assert(tb % size + tl <= (e - a + 1) * size && tb - tb % size + (e - a) * size < tb + tl)
        by (nonlinear_arith)
        requires
            tb == size * a + tb % size,
            last == size * e + last % size,
            0 <= last % size < size,
            last == tb + tl - 1,
            size > 0,
    ;
}

/// True iff `size` is the size of the entries of one of the levels.
spec fn is_entry_size(size: int) -> bool {
    size == 0x1000 || size == 0x20_0000 || size == 0x4000_0000 || size == 0x80_0000_0000
}

/// In a table of entries of `size` bytes whose entry 0 starts at `pt_base`, aligned to
/// the table's span, an address's entry is its offset from `pt_base` in entries, and
/// that entry starts at the address rounded down to the entry size.
proof fn lemma_entry_of(pt_base: int, size: int, va: int)
    requires
        is_entry_size(size),
        pt_base % (512 * size) == 0,
        0 <= pt_base <= va < pt_base + 512 * size,
    ensures
        (va / size) % 512 == (va - pt_base) / size,
        0 <= (va - pt_base) / size < 512,
        pt_base + ((va - pt_base) / size) * size == va - va % size,
{
    let n = 512 * size;
    let r = va - pt_base;
    let q = r / size;
    let rr = r % size;
    vstd::arithmetic::div_mod::lemma_fundamental_div_mod(pt_base, n);
    let m = pt_base / n;
    vstd::arithmetic::div_mod::lemma_fundamental_div_mod(r, size);
    assert(0 <= q < 512) by (nonlinear_arith)
        requires
            r == size * q + rr,
            0 <= rr < size,
            0 <= r < 512 * size,
    ;
    assert(va == (m * 512 + q) * size + rr) by (nonlinear_arith)
        requires
            va == pt_base + r,
            pt_base == n * m + 0,
            n == 512 * size,
            r == size * q + rr,
    ;
    vstd::arithmetic::div_mod::lemma_fundamental_div_mod_converse_div(va, size, m * 512 + q, rr);
    vstd::arithmetic::div_mod::lemma_fundamental_div_mod_converse_mod(va, size, m * 512 + q, rr);
    vstd::arithmetic::div_mod::lemma_mod_multiples_vanish(m, q, 512);
    vstd::arithmetic::div_mod::lemma_small_mod(q as nat, 512);
    assert(512 * m + q == m * 512 + q);
    assert(q * size == r - rr) by (nonlinear_arith)
        requires
            r == size * q + rr,
    ;
}

/// Addresses from `a` up to less than `size` minus `a`'s offset in its entry lie in the
/// same entry as `a`.
proof fn lemma_same_entry(a: int, b: int, size: int)
    requires
        size > 0,
        0 <= a <= b,
        a % size + (b - a) < size,
    ensures
        b / size == a / size,
        b % size == a % size + (b - a),
{
    vstd::arithmetic::div_mod::lemma_fundamental_div_mod(a, size);
    assert(size * (a / size) == (a / size) * size) by (nonlinear_arith);
    vstd::arithmetic::div_mod::lemma_fundamental_div_mod_converse_div(
        b,
        size,
        a / size,
        a % size + (b - a),
    );
    vstd::arithmetic::div_mod::lemma_fundamental_div_mod_converse_mod(
        b,
        size,
        a / size,
        a % size + (b - a),
    );
}

/// The table descriptor for table `t` of memory at `base`, reached through the fixed
/// offset, leads back to table `t`, where each table's physical address fits the
/// descriptor.
proof fn lemma_descriptor_leads_to(mat: FixedOffset, base: int, count: int, t: int, attrs: u64)
    requires
        0 <= t < count,
        mat@ <= base + t * 4096 <= usize::MAX,
        (base - mat@) % 4096 == 0,
        base + count * 4096 <= mat@ + 0x8000_0000_0000,
    ensures
        ({
            let pa = (base + t * 4096 - mat@) as usize;
            let e = PageTableEntry(table_entry_bits(Some(pa), attrs));
            &&& e.0 & 3 == 3
            &&& phys_table(base, count, mat, next_table_addr(e)) == Some(t)
        }),
{
    let va_t = base + t * 4096;
    let pa = (va_t - mat@) as usize;
    vstd::arithmetic::div_mod::lemma_mod_multiples_vanish(t, base - mat@, 4096);
    assert(pa % 4096 == 0);
    lemma_table_descriptor_address(pa, attrs);
    lemma_fixed_offset(mat, 0, pa);
    vstd::arithmetic::div_mod::lemma_mod_multiples_basic(t, 4096);
    assert(table_index_at(base, count, va_t) == Some(t));
}

/// A walk for an address whose entry in a table above the leaves is a table descriptor
/// leading to table `c` goes on from table `c` at the next level.
proof fn lemma_walk_step(
    tables: Seq<Seq<PageTableEntry>>,
    base: int,
    mat: FixedOffset,
    t: int,
    level: int,
    va: int,
    c: int,
)
    requires
        0 <= level < 3,
        0 <= t < tables.len(),
        tables[t][(va / entry_size(level)) % 512].0 & 3 == 3,
        phys_table(base, tables.len() as int, mat, next_table_addr(tables[t][(va / entry_size(level)) % 512]))
            == Some(c),
    ensures
        walk_descriptor(tables, base, mat, t, level, va) == walk_descriptor(tables, base, mat, c, level + 1, va),
{
}

/// A walk for an address whose entry in a table above the leaves is a table descriptor
/// leading to table `c` visits `c` and then what the walk from `c` visits.
proof fn lemma_walk_below_step(
    tables: Seq<Seq<PageTableEntry>>,
    base: int,
    mat: FixedOffset,
    t: int,
    level: int,
    va: int,
    c: int,
    lo: int,
    hi: int,
)
    requires
        0 <= level < 3,
        0 <= t < tables.len(),
        tables[t][(va / entry_size(level)) % 512].0 & 3 == 3,
        phys_table(base, tables.len() as int, mat, next_table_addr(tables[t][(va / entry_size(level)) % 512]))
            == Some(c),
    ensures
        walk_below(tables, base, mat, t, level, va, lo, hi) == (lo <= c < hi && walk_below(
            tables,
            base,
            mat,
            c,
            level + 1,
            va,
            lo,
            hi,
        )),
{
}

/// A walk that visits, after table `t`, only tables at places in `lo..hi` ends at the
/// same descriptor, and visits the same tables, in tables that agree with the first
/// on table `t` and on those places.
proof fn lemma_walk_frame(
    tables: Seq<Seq<PageTableEntry>>,
    tables2: Seq<Seq<PageTableEntry>>,
    base: int,
    mat: FixedOffset,
    t: int,
    level: int,
    va: int,
    lo: int,
    hi: int,
)
    requires
        tables2.len() == tables.len(),
        0 <= t < tables.len() ==> tables2[t] == tables[t],
        walk_below(tables, base, mat, t, level, va, lo, hi),
        forall|k: int| lo <= k < hi ==> #[trigger] tables2[k] == tables[k],
    ensures
        walk_descriptor(tables2, base, mat, t, level, va) == walk_descriptor(tables, base, mat, t, level, va),
        walk_below(tables2, base, mat, t, level, va, lo, hi),
    decreases 3 - level,
{
    if 0 <= level <= 3 && 0 <= t < tables.len() {
        let e = tables[t][(va / entry_size(level)) % 512];
        if level < 3 && e.0 & 3 == 3 {
            match phys_table(base, tables.len() as int, mat, next_table_addr(e)) {
                Some(c) => {
                    lemma_walk_frame(tables, tables2, base, mat, c, level + 1, va, lo, hi);
                },
                None => {},
            }
        }
    }
}

/// Visiting only tables in `lo..hi` is visiting only tables in any wider range.
proof fn lemma_walk_below_widen(
    tables: Seq<Seq<PageTableEntry>>,
    base: int,
    mat: FixedOffset,
    t: int,
    level: int,
    va: int,
    lo: int,
    hi: int,
    lo2: int,
    hi2: int,
)
    requires
        walk_below(tables, base, mat, t, level, va, lo, hi),
        lo2 <= lo,
        hi <= hi2,
    ensures
        walk_below(tables, base, mat, t, level, va, lo2, hi2),
    decreases 3 - level,
{
    if 0 <= level <= 3 && 0 <= t < tables.len() {
        let e = tables[t][(va / entry_size(level)) % 512];
        if level < 3 && e.0 & 3 == 3 {
            match phys_table(base, tables.len() as int, mat, next_table_addr(e)) {
                Some(c) => {
                    lemma_walk_below_widen(tables, base, mat, c, level + 1, va, lo, hi, lo2, hi2);
                },
                None => {},
            }
        }
    }
}

/// A mapping of a non-empty range that does not fail on a precondition ends below the
/// top of memory.
proof fn lemma_outcome_below_top<T: Translate>(
    translation: T,
    attrs: u64,
    mat: FixedOffset,
    base: int,
    s: (Seq<Seq<PageTableEntry>>, nat),
    level: int,
    table: int,
    tb: int,
    tl: int,
    pt_base: int,
)
    requires
        0 <= level <= 3,
        0 < tl,
        level_outcome(translation, attrs, mat, base, s, level, table, tb, tl, pt_base) is Some,
    ensures
        tb + tl <= usize::MAX,
{
    lemma_entry_sizes();
    let size = entry_size(level);
    if 0 <= tb {
        lemma_count_reaches(tb, tl, size);
    }
}

/// Where going through entries `i..top` of a leaf table, null there, does not fail on a
/// precondition, the table is in memory, the entries' pages lie below the top of
/// memory, the attributes give access permissions and the translation translates each
/// of those pages.
proof fn lemma_leaf_outcome_facts<T: Translate>(
    translation: T,
    attrs: u64,
    mat: FixedOffset,
    base: int,
    s: (Seq<Seq<PageTableEntry>>, nat),
    table: int,
    tb: int,
    tl: int,
    pt_base: int,
    i: int,
    top: int,
)
    requires
        0 <= i < top <= 512,
        0 <= pt_base,
        !has_field(attrs, AttributeField::Block),
        0 <= table < s.0.len() ==> forall|k: int|
            i <= k < top ==> #[trigger] s.0[table][k] == PageTableEntry(0),
        entries_outcome(
            translation,
            attrs,
            mat,
            base,
            s,
            3,
            table,
            tb,
            tl,
            pt_base,
            i,
            top,
            pt_base + i * 4096,
        ) is Some,
    ensures
        0 <= table < s.0.len(),
        s.0[table].len() == 512,
        pt_base + top * 4096 <= usize::MAX,
        tb + tl <= usize::MAX,
        access_permissions(attrs) is Some,
        forall|k: int| i <= k < top ==> #[trigger] translation.translates((pt_base + k * 4096) as usize),
    decreases top - i,
{
    lemma_entry_sizes();
    assert((0u64 & 1u64) == 0u64) by (bit_vector);
    let span = pt_base + i * 4096;
    assert(0 <= table < s.0.len());
    assert(s.0[table].len() == 512);
    assert(span + 4096 <= usize::MAX);
    assert(incremented(span, 4096) == pt_base + (i + 1) * 4096);
    if i + 1 < top {
        let leaf = page_entry(translation, span, attrs);
        let s1 = (with_entry(s.0, table, i, leaf), s.1);
        assert forall|k: int| i + 1 <= k < top implies #[trigger] s1.0[table][k] == PageTableEntry(
            0,
        ) by {
            assert(s.0[table][k] == PageTableEntry(0));
        }
        lemma_leaf_outcome_facts(translation, attrs, mat, base, s1, table, tb, tl, pt_base, i + 1, top);
    }
}

/// Entry `i` of a table above the leaves, null: where going through entries `i..top`
/// succeeds, entry `i` takes the first free table, refers to it by a table descriptor,
/// and the part of the range in its span is mapped from that table at the next level
/// before the entries after it are gone through.
proof fn lemma_upper_step<T: Translate>(
    translation: T,
    attrs: u64,
    mat: FixedOffset,
    base: int,
    s: (Seq<Seq<PageTableEntry>>, nat),
    level: int,
    table: int,
    tb: int,
    tl: int,
    pt_base: int,
    i: int,
    top: int,
    span: int,
)
    requires
        0 <= level < 3,
        0 <= i < top,
        entries_outcome(translation, attrs, mat, base, s, level, table, tb, tl, pt_base, i, top, span)
            is Some,
        entries_outcome(
            translation,
            attrs,
            mat,
            base,
            s,
            level,
            table,
            tb,
            tl,
            pt_base,
            i,
            top,
            span,
        ).unwrap().0 is Ok,
        0 <= table < s.0.len() ==> s.0[table][i] == PageTableEntry(0),
        !has_field(attrs, AttributeField::Block),
        !has_field(attrs, AttributeField::OnDemand),
    ensures
        0 <= table < s.0.len(),
        0 <= i < 512,
        s.0[table].len() == 512,
        span + entry_size(level) <= usize::MAX,
        tb + tl <= usize::MAX,
        s.1 < s.0.len(),
        mat@ <= base + s.1 * 4096 <= usize::MAX,
        ({
            let size = entry_size(level);
            let (eb, el) = match intersection_of(span, size, tb, tl) {
                Some(bl) => bl,
                None => (0, 0),
            };
            let t = s.1 as int;
            let pa = (base + t * 4096 - mat@) as usize;
            let s2 = (
                with_entry(
                    s.0.update(t, null_table()),
                    table,
                    i,
                    PageTableEntry(table_entry_bits(Some(pa), attrs)),
                ),
                (s.1 + 1) as nat,
            );
            let child = level_outcome(translation, attrs, mat, base, s2, level + 1, t, eb, el, span);
            &&& child is Some
            &&& child.unwrap().0 is Ok
            &&& entries_outcome(
                translation,
                attrs,
                mat,
                base,
                s,
                level,
                table,
                tb,
                tl,
                pt_base,
                i,
                top,
                span,
            ) == entries_outcome(
                translation,
                attrs,
                mat,
                base,
                child.unwrap().1,
                level,
                table,
                tb,
                tl,
                pt_base,
                i + 1,
                top,
                span + size,
            )
        }),
{
    assert((0u64 & 1u64) == 0u64) by (bit_vector);
}

/// Where mapping a range within the span of a null leaf table, whose pages the entries
/// it goes through cover, succeeds: the other tables stay as they were, and the walk
/// from the leaf table for each address in the range ends at the descriptor of the
/// address's page.
proof fn lemma_fresh_leaf<T: Translate>(
    translation: T,
    attrs: u64,
    mat: FixedOffset,
    base: int,
    s: (Seq<Seq<PageTableEntry>>, nat),
    table: int,
    tb: int,
    tl: int,
    pt_base: int,
)
    requires
        level_outcome(translation, attrs, mat, base, s, 3, table, tb, tl, pt_base) is Some,
        0 <= table < s.0.len(),
        s.0[table] == null_table(),
        !has_field(attrs, AttributeField::Block),
        0 <= pt_base <= tb,
        pt_base % 0x20_0000 == 0,
        0 < tl,
        tb + tl <= pt_base + 0x20_0000,
    ensures
        ({
            let s2 = level_outcome(translation, attrs, mat, base, s, 3, table, tb, tl, pt_base).unwrap();
            &&& s2.0 is Ok
            &&& s2.1.0.len() == s.0.len()
            &&& s2.1.1 == s.1
            &&& forall|k: int| 0 <= k < s.0.len() && k != table ==> #[trigger] s2.1.0[k] == s.0[k]
            &&& forall|va: int|
                tb <= va < tb + tl ==> #[trigger] walk_descriptor(s2.1.0, base, mat, table, 3, va)
                    == Some(page_entry(translation, va - va % 4096, attrs))
        }),
{
    lemma_entry_sizes();
    let out = level_outcome(translation, attrs, mat, base, s, 3, table, tb, tl, pt_base).unwrap();
    let first = (tb / 4096) % 512;
    let count = entry_count(3, tb, tl);
    let top = first + count;
    lemma_entry_of(pt_base, 4096, tb);
    lemma_count_reaches(tb, tl, 4096);
    assert(0 <= count && first + count <= 512) by (nonlinear_arith)
        requires
            tb - tb % 4096 + (count - 1) * 4096 < tb + tl,
            count >= 1,
            first * 4096 == tb - tb % 4096 - pt_base,
            0 <= tb % 4096,
            0 < tl,
            tb - pt_base + tl <= 0x20_0000,
    ;
    assert(incremented(pt_base, first * 4096) == pt_base + first * 4096);
    assert forall|k: int| first <= k < top implies #[trigger] s.0[table][k] == PageTableEntry(0) by {}
    lemma_leaf_outcome_facts(translation, attrs, mat, base, s, table, tb, tl, pt_base, first, top);
    lemma_leaf_entries_map_pages(translation, attrs, mat, base, s, table, tb, tl, pt_base, first, top);
    let mapped = pages_mapped(s.0[table], translation, attrs, pt_base, first, top);
    assert(out == (Ok::<(), Error>(()), (s.0.update(table, mapped), s.1)));
    assert forall|va: int| tb <= va < tb + tl implies #[trigger] walk_descriptor(
        out.1.0,
        base,
        mat,
        table,
        3,
        va,
    ) == Some(page_entry(translation, va - va % 4096, attrs)) by {
        lemma_entry_of(pt_base, 4096, va);
        let k = (va - pt_base) / 4096;
        assert(first <= k < top) by (nonlinear_arith)
            requires
                k == (va - pt_base) / 4096,
                first * 4096 == tb - tb % 4096 - pt_base,
                0 <= tb % 4096,
                tb % 4096 + tl <= count * 4096,
                top == first + count,
                tb <= va < tb + tl,
        ;
        assert(mapped[k] == page_entry(translation, pt_base + k * 4096, attrs));
    }
}

/// Where going through entries `i..top` of a table above the leaves, null from entry
/// `i` on, succeeds, with every table at a physical
/// address that a table descriptor holds: the other tables in use and the entries before
/// `i` stay as they were, and the walk from the table for each address of the range from
/// the span of entry `i` on ends at the descriptor of the address's page, visiting only
/// tables taken from the free ones.
proof fn lemma_fresh_entries<T: Translate>(
    translation: T,
    attrs: u64,
    mat: FixedOffset,
    base: int,
    s: (Seq<Seq<PageTableEntry>>, nat),
    level: int,
    table: int,
    tb: int,
    tl: int,
    pt_base: int,
    i: int,
    top: int,
)
    requires
        0 <= level < 3,
        (tb / entry_size(level)) % 512 <= i <= top,
        top == (tb / entry_size(level)) % 512 + entry_count(level, tb, tl),
        entries_outcome(
            translation,
            attrs,
            mat,
            base,
            s,
            level,
            table,
            tb,
            tl,
            pt_base,
            i,
            top,
            pt_base + i * entry_size(level),
        ) is Some,
        entries_outcome(
            translation,
            attrs,
            mat,
            base,
            s,
            level,
            table,
            tb,
            tl,
            pt_base,
            i,
            top,
            pt_base + i * entry_size(level),
        ).unwrap().0 is Ok,
        0 <= table < s.1 <= s.0.len(),
        forall|j: int| i <= j < 512 ==> #[trigger] s.0[table][j] == PageTableEntry(0),
        !has_field(attrs, AttributeField::Block),
        !has_field(attrs, AttributeField::OnDemand),
        0 < tl,
        0 <= pt_base <= tb,
        pt_base % (512 * entry_size(level)) == 0,
        tb + tl <= pt_base + 512 * entry_size(level),
        (base - mat@) % 4096 == 0,
        base + s.0.len() * 4096 <= mat@ + 0x8000_0000_0000,
    ensures
        ({
            let s2 = entries_outcome(
                translation,
                attrs,
                mat,
                base,
                s,
                level,
                table,
                tb,
                tl,
                pt_base,
                i,
                top,
                pt_base + i * entry_size(level),
            ).unwrap().1;
            &&& s2.0.len() == s.0.len()
            &&& s.1 <= s2.1 <= s2.0.len()
            &&& forall|k: int| 0 <= k < s.1 && k != table ==> #[trigger] s2.0[k] == s.0[k]
            &&& forall|j: int| 0 <= j < i ==> #[trigger] s2.0[table][j] == s.0[table][j]
            &&& forall|va: int|
                tb <= va < tb + tl && pt_base + i * entry_size(level) <= va ==> {
                    &&& #[trigger] walk_descriptor(s2.0, base, mat, table, level, va) == Some(
                        page_entry(translation, va - va % 4096, attrs),
                    )
                    &&& walk_below(s2.0, base, mat, table, level, va, s.1 as int, s2.1 as int)
                }
        }),
    decreases 3 - level, 0int, top - i,
{
    lemma_entry_sizes();
    let size = entry_size(level);
    assert(is_entry_size(size));
    let first = (tb / size) % 512;
    let count = entry_count(level, tb, tl);
    let span = pt_base + i * size;
    lemma_entry_of(pt_base, size, tb);
    // the entries counted from the first reach the end of the range, and no further
    lemma_count_reaches(tb, tl, size);
    assert(tb + tl <= pt_base + top * size && pt_base + (top - 1) * size < tb + tl) by (nonlinear_arith)
        requires
            pt_base + first * size == tb - tb % size,
            tb % size + tl <= count * size,
            tb - tb % size + (count - 1) * size < tb + tl,
            top == first + count,
            0 <= tb % size,
            0 < tl,
            size > 0,
    ;
    if i < top {
        lemma_upper_step(translation, attrs, mat, base, s, level, table, tb, tl, pt_base, i, top, span);
        let (eb, el) = match intersection_of(span, size, tb, tl) {
            Some(bl) => bl,
            None => (0, 0),
        };
        assert(span <= pt_base + (top - 1) * size) by (nonlinear_arith)
            requires
                span == pt_base + i * size,
                i <= top - 1,
                size > 0,
        ;
        assert(tb < span + size) by (nonlinear_arith)
            requires
                span == pt_base + i * size,
                i >= first,
                pt_base + first * size == tb - tb % size,
                tb % size < size,
                size > 0,
        ;
        assert(intersection_of(span, size, tb, tl) is Some);
        assert(0 < el);
        let t = s.1 as int;
        let pa = (base + t * 4096 - mat@) as usize;
        let entry = PageTableEntry(table_entry_bits(Some(pa), attrs));
        let s2 = (with_entry(s.0.update(t, null_table()), table, i, entry), (s.1 + 1) as nat);
        // the entry's span is aligned to its entries
        assert(span % size == 0 && span % entry_size(level + 1) == 0) by {
            assert(512 * entry_size(level + 1) == size);
            vstd::arithmetic::div_mod::lemma_fundamental_div_mod(pt_base, 512 * size);
            let m = pt_base / (512 * size);
            assert(span == (m * 512 + i) * size) by (nonlinear_arith)
                requires
                    span == pt_base + i * size,
                    pt_base == (512 * size) * m + 0,
            ;
            vstd::arithmetic::div_mod::lemma_mod_multiples_basic(m * 512 + i, size);
            assert(span == ((m * 512 + i) * 512) * entry_size(level + 1)) by (nonlinear_arith)
                requires
                    span == (m * 512 + i) * size,
                    512 * entry_size(level + 1) == size,
            ;
            vstd::arithmetic::div_mod::lemma_mod_multiples_basic(
                (m * 512 + i) * 512,
                entry_size(level + 1),
            );
        }
        lemma_fresh_level(translation, attrs, mat, base, s2, level + 1, t, eb, el, span);
        let s3 = level_outcome(translation, attrs, mat, base, s2, level + 1, t, eb, el, span).unwrap().1;
        assert(span + size == pt_base + (i + 1) * size);
        assert forall|j: int| i + 1 <= j < 512 implies #[trigger] s3.0[table][j] == PageTableEntry(0) by {
            assert(s3.0[table] == s2.0[table]);
        }
        lemma_fresh_entries(translation, attrs, mat, base, s3, level, table, tb, tl, pt_base, i + 1, top);
        let s4 = entries_outcome(
            translation,
            attrs,
            mat,
            base,
            s3,
            level,
            table,
            tb,
            tl,
            pt_base,
            i + 1,
            top,
            pt_base + (i + 1) * size,
        ).unwrap().1;
        lemma_descriptor_leads_to(mat, base, s.0.len() as int, t, attrs);
        assert(s4.0[table][i] == entry) by {
            assert(s4.0[table][i] == s3.0[table][i]);
            assert(s3.0[table] == s2.0[table]);
        }
        assert forall|k: int| 0 <= k < s.1 && k != table implies #[trigger] s4.0[k] == s.0[k] by {
            assert(s4.0[k] == s3.0[k]);
            assert(s3.0[k] == s2.0[k]);
        }
        assert forall|j: int| 0 <= j < i implies #[trigger] s4.0[table][j] == s.0[table][j] by {
            assert(s4.0[table][j] == s3.0[table][j]);
            assert(s3.0[table] == s2.0[table]);
        }
        assert forall|va: int| tb <= va < tb + tl && span <= va implies {
            &&& #[trigger] walk_descriptor(s4.0, base, mat, table, level, va) == Some(
                page_entry(translation, va - va % 4096, attrs),
            )
            &&& walk_below(s4.0, base, mat, table, level, va, s.1 as int, s4.1 as int)
        } by {
            if va < span + size {
                lemma_same_entry(span, va, size);
                lemma_entry_of(pt_base, size, span);
                assert((span - pt_base) / size == i) by {
                    vstd::arithmetic::div_mod::lemma_div_multiples_vanish(i, size);
                    assert(size * i == i * size) by (nonlinear_arith);
                }
                assert((va / size) % 512 == i);
                lemma_walk_step(s4.0, base, mat, table, level, va, t);
                lemma_walk_below_step(s4.0, base, mat, table, level, va, t, s.1 as int, s4.1 as int);
                assert(eb <= va < eb + el);
                assert(walk_descriptor(s3.0, base, mat, t, level + 1, va) == Some(
                    page_entry(translation, va - va % 4096, attrs),
                ));
                assert(walk_below(s3.0, base, mat, t, level + 1, va, t + 1, s3.1 as int));
                assert forall|k: int| t + 1 <= k < s3.1 implies #[trigger] s4.0[k] == s3.0[k] by {}
                lemma_walk_frame(s3.0, s4.0, base, mat, t, level + 1, va, t + 1, s3.1 as int);
                lemma_walk_below_widen(
                    s4.0,
                    base,
                    mat,
                    t,
                    level + 1,
                    va,
                    t + 1,
                    s3.1 as int,
                    s.1 as int,
                    s4.1 as int,
                );
            } else {
                lemma_walk_below_widen(
                    s4.0,
                    base,
                    mat,
                    table,
                    level,
                    va,
                    s3.1 as int,
                    s4.1 as int,
                    s.1 as int,
                    s4.1 as int,
                );
            }
        }
    }
}

/// Where mapping a range from a null table in
/// use at `level`, succeeds, with every table at a physical address that a table
/// descriptor holds: the other tables in use stay as they were, and the walk from that
/// table for each address in the range ends at the descriptor of the address's page,
/// visiting only tables taken from the free ones.
proof fn lemma_fresh_level<T: Translate>(
    translation: T,
    attrs: u64,
    mat: FixedOffset,
    base: int,
    s: (Seq<Seq<PageTableEntry>>, nat),
    level: int,
    table: int,
    tb: int,
    tl: int,
    pt_base: int,
)
    requires
        0 <= level <= 3,
        level_outcome(translation, attrs, mat, base, s, level, table, tb, tl, pt_base) is Some,
        level_outcome(translation, attrs, mat, base, s, level, table, tb, tl, pt_base).unwrap().0 is Ok,
        0 <= table < s.1 <= s.0.len(),
        s.0[table] == null_table(),
        !has_field(attrs, AttributeField::Block),
        !has_field(attrs, AttributeField::OnDemand),
        0 < tl,
        0 <= pt_base <= tb,
        pt_base % (512 * entry_size(level)) == 0,
        tb + tl <= pt_base + 512 * entry_size(level),
        (base - mat@) % 4096 == 0,
        base + s.0.len() * 4096 <= mat@ + 0x8000_0000_0000,
    ensures
        ({
            let s2 = level_outcome(translation, attrs, mat, base, s, level, table, tb, tl, pt_base).unwrap().1;
            &&& s2.0.len() == s.0.len()
            &&& s.1 <= s2.1 <= s2.0.len()
            &&& forall|k: int| 0 <= k < s.1 && k != table ==> #[trigger] s2.0[k] == s.0[k]
            &&& forall|va: int|
                tb <= va < tb + tl ==> {
                    &&& #[trigger] walk_descriptor(s2.0, base, mat, table, level, va) == Some(
                        page_entry(translation, va - va % 4096, attrs),
                    )
                    &&& walk_below(s2.0, base, mat, table, level, va, s.1 as int, s2.1 as int)
                }
        }),
    decreases 3 - level, 1int, 0int,
{
    lemma_entry_sizes();
    lemma_outcome_below_top(translation, attrs, mat, base, s, level, table, tb, tl, pt_base);
    if level == 3 {
        lemma_fresh_leaf(translation, attrs, mat, base, s, table, tb, tl, pt_base);
    } else {
        let size = entry_size(level);
        assert(is_entry_size(size));
        let first = (tb / size) % 512;
        let top = first + entry_count(level, tb, tl);
        lemma_entry_of(pt_base, size, tb);
        assert(incremented(pt_base, first * size) == pt_base + first * size);
        assert forall|j: int| first <= j < 512 implies #[trigger] s.0[table][j] == PageTableEntry(0) by {}
        lemma_fresh_entries(translation, attrs, mat, base, s, level, table, tb, tl, pt_base, first, top);
    }
}

/// Mapping a range into a half of a directory that has no root table yet (the user half
/// below 2^48, or the kernel half), where the mapping succeeds and each table of
/// page-table memory is at a page-aligned physical address below 2^47: afterwards the
/// walk of the directory for every address in the range ends at the page descriptor that the
/// translation gives that address's page.
pub proof fn lemma_map_then_walk<T: Translate>(
    dir: PageDirectory,
    translation: T,
    attrs: u64,
    mat: FixedOffset,
    base: int,
    s: (Seq<Seq<PageTableEntry>>, nat),
    tb: int,
    tl: int,
)
    requires
        root_of(dir, tb).0 is None,
        translation_outcome(dir, translation, attrs, mat, base, s, tb, tl) is Some,
        translation_outcome(dir, translation, attrs, mat, base, s, tb, tl).unwrap().0 is Ok,
        !has_field(attrs, AttributeField::Block),
        !has_field(attrs, AttributeField::OnDemand),
        0 <= tb,
        0 < tl,
        tb < kernel_base_value() ==> tb + tl <= 0x1_0000_0000_0000,
        s.1 <= s.0.len(),
        (base - mat@) % 4096 == 0,
        base + s.0.len() * 4096 <= mat@ + 0x8000_0000_0000,
    ensures
        ({
            let outcome = translation_outcome(dir, translation, attrs, mat, base, s, tb, tl).unwrap();
            forall|va: int|
                tb <= va < tb + tl ==> #[trigger] directory_descriptor(outcome.2, outcome.1.0, base, mat, va)
                    == Some(page_entry(translation, va - va % 4096, attrs))
        }),
{
    lemma_entry_sizes();
    let outcome = translation_outcome(dir, translation, attrs, mat, base, s, tb, tl).unwrap();
    let (_, first, pt_base) = root_of(dir, tb);
    let t = s.1 as int;
    let pa = (base + t * 4096 - mat@) as usize;
    let s1 = (s.0.update(t, null_table()), (s.1 + 1) as nat);
    assert(t < s.0.len());
    lemma_outcome_below_top(translation, attrs, mat, base, s1, first, t, tb, tl, pt_base);
    lemma_fresh_level(translation, attrs, mat, base, s1, first, t, tb, tl, pt_base);
    lemma_fixed_offset(mat, 0, pa);
    vstd::arithmetic::div_mod::lemma_mod_multiples_basic(t, 4096);
    assert(phys_table(base, s.0.len() as int, mat, pa) == Some(t));
    assert forall|va: int| tb <= va < tb + tl implies #[trigger] directory_descriptor(
        outcome.2,
        outcome.1.0,
        base,
        mat,
        va,
    ) == Some(page_entry(translation, va - va % 4096, attrs)) by {
        assert(root_of(outcome.2, va) == (Some(PhysAddr(pa)), first, pt_base));
    }
}

} // verus!
