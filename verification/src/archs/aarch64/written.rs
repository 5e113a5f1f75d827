//! What a mapping writes into page-table memory: each entry it changes becomes a null
//! entry (of a table it takes), a table descriptor, or a page or block descriptor of
//! the translation, all made with the mapping's attributes. From this follow the
//! properties of the descriptors a mapping leaves, stated on their bits.

use super::map::{entries_outcome, level_outcome, translation_outcome, with_entry};
use super::pager::{entry_size, incremented, PageDirectory};
use super::table::{
    access_permissions, device_strongly_ordered, memory_write_through, page_block_attribute_bits,
    page_block_entry_bits, table_attribute_bits, table_entry_bits, PageTableEntry,
};
use super::walk::null_table;
use crate::pager::addr::{intersection_of, Addr};
use crate::pager::attributes::{has_field, AttributeField};
use crate::pager::translation::{FixedOffset, Translate};
use vstd::prelude::*;

verus! {

/// The memory attributes index (AttrIndx) field of a descriptor.
pub open spec fn attr_index(e: PageTableEntry) -> u64 {
    (e.0 >> 2u64) & 7u64
}

/// The access flag (AF) of a descriptor.
pub open spec fn access_flag(e: PageTableEntry) -> bool {
    e.0 & (1u64 << 10u64) != 0
}

/// The data access permissions (AP) field of a page or block descriptor: 0 for
/// privileged read-write, 1 for read-write at every level, 2 for privileged read-only,
/// 3 for read-only at every level.
pub open spec fn access_permission_field(e: PageTableEntry) -> u64 {
    (e.0 >> 6u64) & 3u64
}

/// True iff a page or block descriptor lets privileged code execute from it (its
/// privileged execute-never bit is clear).
pub open spec fn kernel_executable(e: PageTableEntry) -> bool {
    e.0 & (1u64 << 53u64) == 0
}

/// True iff a page or block descriptor lets user code execute from it (its
/// unprivileged execute-never bit is clear).
pub open spec fn user_executable(e: PageTableEntry) -> bool {
    e.0 & (1u64 << 54u64) == 0
}

/// The valid bit of a descriptor.
pub open spec fn is_valid_entry(e: PageTableEntry) -> bool {
    e.0 & 1u64 != 0
}

/// True iff the entry is a table descriptor, as a mapping makes one for some next-level
/// table (or none) and some attributes.
pub open spec fn is_table_descriptor(e: PageTableEntry) -> bool {
    exists|next: Option<usize>, attrs: u64| e.0 == #[trigger] table_entry_bits(next, attrs)
}

/// True iff a mapping by `translation` with attributes `attrs` can write the entry: a
/// null entry, a table descriptor with the attributes, or (where the attributes give
/// access permissions) a page or block descriptor of the translation of some address
/// with the attributes.
pub open spec fn written_entry<T: Translate>(e: PageTableEntry, translation: T, attrs: u64) -> bool {
    ||| e.0 == 0
    ||| exists|next: Option<usize>| e.0 == #[trigger] table_entry_bits(next, attrs)
    ||| access_permissions(attrs) is Some && exists|level: u8, va: usize, c: bool|
        e.0 == #[trigger] page_block_entry_bits(
            level,
            translation.spec_translate_maybe(va),
            attrs,
            c,
        )
}

/// True iff going from page-table state `s` to `s2` keeps the tables and changes only
/// entries into ones a mapping by `translation` with `attrs` writes.
pub open spec fn writes_only<T: Translate>(
    s: (Seq<Seq<PageTableEntry>>, nat),
    s2: (Seq<Seq<PageTableEntry>>, nat),
    translation: T,
    attrs: u64,
) -> bool {
    &&& s2.0.len() == s.0.len()
    &&& forall|t: int, i: int|
        0 <= t < s.0.len() && 0 <= i < 512 && #[trigger] s2.0[t][i] != s.0[t][i]
            ==> written_entry(s2.0[t][i], translation, attrs)
}

proof fn lemma_writes_refl<T: Translate>(s: (Seq<Seq<PageTableEntry>>, nat), translation: T, attrs: u64)
    ensures
        writes_only(s, s, translation, attrs),
{
}

proof fn lemma_writes_trans<T: Translate>(
    s1: (Seq<Seq<PageTableEntry>>, nat),
    s2: (Seq<Seq<PageTableEntry>>, nat),
    s3: (Seq<Seq<PageTableEntry>>, nat),
    translation: T,
    attrs: u64,
)
    requires
        writes_only(s1, s2, translation, attrs),
        writes_only(s2, s3, translation, attrs),
    ensures
        writes_only(s1, s3, translation, attrs),
{
    assert forall|t: int, i: int|
        0 <= t < s1.0.len() && 0 <= i < 512 && #[trigger] s3.0[t][i] != s1.0[t][i] implies written_entry(
        s3.0[t][i],
        translation,
        attrs,
    ) by {
        if s3.0[t][i] == s2.0[t][i] {
            assert(s2.0[t][i] != s1.0[t][i]);
        }
    }
}

/// Writing one entry that a mapping writes.
proof fn lemma_writes_entry<T: Translate>(
    s: (Seq<Seq<PageTableEntry>>, nat),
    n: nat,
    table: int,
    i: int,
    e: PageTableEntry,
    translation: T,
    attrs: u64,
)
    requires
        0 <= table < s.0.len(),
        s.0[table].len() == 512,
        0 <= i < 512,
        written_entry(e, translation, attrs),
    ensures
        writes_only(s, (with_entry(s.0, table, i, e), n), translation, attrs),
{
    let s2 = with_entry(s.0, table, i, e);
    assert forall|t: int, j: int|
        0 <= t < s.0.len() && 0 <= j < 512 && #[trigger] s2[t][j] != s.0[t][j] implies written_entry(
        s2[t][j],
        translation,
        attrs,
    ) by {
        if t != table || j != i {
            assert(s2[t][j] == s.0[t][j]);
        }
    }
}

/// Taking a table, which becomes null.
proof fn lemma_writes_null<T: Translate>(
    s: (Seq<Seq<PageTableEntry>>, nat),
    n: nat,
    table: int,
    translation: T,
    attrs: u64,
)
    requires
        0 <= table < s.0.len(),
    ensures
        writes_only(s, (s.0.update(table, null_table()), n), translation, attrs),
{
    let s2 = s.0.update(table, null_table());
    assert forall|t: int, j: int|
        0 <= t < s.0.len() && 0 <= j < 512 && #[trigger] s2[t][j] != s.0[t][j] implies written_entry(
        s2[t][j],
        translation,
        attrs,
    ) by {
        if t == table {
            assert(s2[t][j] == PageTableEntry(0));
        }
    }
}

/// Mapping the part of a range that a table spans writes only entries a mapping writes.
pub proof fn lemma_level_writes<T: Translate>(
    translation: T,
    attrs: u64,
    mat: FixedOffset,
    base: int,
    s: (Seq<Seq<PageTableEntry>>, nat),
    level: int,
    table: int,
    target_base: int,
    target_len: int,
    pt_base: int,
)
    requires
        level_outcome(
            translation,
            attrs,
            mat,
            base,
            s,
            level,
            table,
            target_base,
            target_len,
            pt_base,
        ) is Some,
    ensures
        writes_only(
            s,
            level_outcome(
                translation,
                attrs,
                mat,
                base,
                s,
                level,
                table,
                target_base,
                target_len,
                pt_base,
            ).unwrap().1,
            translation,
            attrs,
        ),
    decreases 3 - level, 1int, 0int,
{
    let size = entry_size(level);
    let first = (target_base / size) % 512;
    let top = first + super::pager::entry_count(level, target_base, target_len);
    lemma_entries_writes(
        translation,
        attrs,
        mat,
        base,
        s,
        level,
        table,
        target_base,
        target_len,
        pt_base,
        first,
        top,
        incremented(pt_base, first * size),
    );
}

/// Mapping entries `i..top` of a table writes only entries a mapping writes.
pub proof fn lemma_entries_writes<T: Translate>(
    translation: T,
    attrs: u64,
    mat: FixedOffset,
    base: int,
    s: (Seq<Seq<PageTableEntry>>, nat),
    level: int,
    table: int,
    target_base: int,
    target_len: int,
    pt_base: int,
    i: int,
    top: int,
    span_base: int,
)
    requires
        entries_outcome(
            translation,
            attrs,
            mat,
            base,
            s,
            level,
            table,
            target_base,
            target_len,
            pt_base,
            i,
            top,
            span_base,
        ) is Some,
    ensures
        writes_only(
            s,
            entries_outcome(
                translation,
                attrs,
                mat,
                base,
                s,
                level,
                table,
                target_base,
                target_len,
                pt_base,
                i,
                top,
                span_base,
            ).unwrap().1,
            translation,
            attrs,
        ),
    decreases 3 - level, 0int, top - i,
{
    if !(0 <= level < 4) || i >= top {
        lemma_writes_refl(s, translation, attrs);
    } else {
        let size = entry_size(level);
        let (eb, el) = match intersection_of(span_base, size, target_base, target_len) {
            Some(bl) => bl,
            None => (0, 0),
        };
        let e = s.0[table][i];
        let block = has_field(attrs, AttributeField::Block);
        let cbase = incremented(pt_base, (i - i % 16) * size);
        let leaf_try = level == 3 || (1 <= level <= 2 && block);
        let next_span = incremented(span_base, size);
        let out = entries_outcome(
            translation,
            attrs,
            mat,
            base,
            s,
            level,
            table,
            target_base,
            target_len,
            pt_base,
            i,
            top,
            span_base,
        ).unwrap().1;
        if leaf_try && (level == 3 || super::map::covers_range(eb, el, span_base, size)) {
            let contiguous = block && super::map::covers_range(
                target_base,
                target_len,
                cbase,
                16 * size,
            );
            let leaf = PageTableEntry(
                page_block_entry_bits(
                    level as u8,
                    translation.spec_translate_maybe(span_base as usize),
                    attrs,
                    contiguous,
                ),
            );
            let s1 = (with_entry(s.0, table, i, leaf), s.1);
            assert(written_entry(leaf, translation, attrs)) by {
                assert(leaf.0 == page_block_entry_bits(
                    level as u8,
                    translation.spec_translate_maybe(span_base as usize),
                    attrs,
                    contiguous,
                ));
            }
            lemma_writes_entry(s, s.1, table, i, leaf, translation, attrs);
            lemma_entries_writes(
                translation,
                attrs,
                mat,
                base,
                s1,
                level,
                table,
                target_base,
                target_len,
                pt_base,
                i + 1,
                top,
                next_span,
            );
            lemma_writes_trans(s, s1, out, translation, attrs);
        } else if e.0 & 1 != 0 {
            let child = super::map::phys_table(
                base,
                s.0.len() as int,
                mat,
                super::walk::next_table_addr(e),
            ).unwrap();
            lemma_level_writes(
                translation,
                attrs,
                mat,
                base,
                s,
                level + 1,
                child,
                eb,
                el,
                span_base,
            );
            let s2 = level_outcome(
                translation,
                attrs,
                mat,
                base,
                s,
                level + 1,
                child,
                eb,
                el,
                span_base,
            ).unwrap();
            if s2.0 is Ok {
                lemma_entries_writes(
                    translation,
                    attrs,
                    mat,
                    base,
                    s2.1,
                    level,
                    table,
                    target_base,
                    target_len,
                    pt_base,
                    i + 1,
                    top,
                    next_span,
                );
                lemma_writes_trans(s, s2.1, out, translation, attrs);
            }
        } else if has_field(attrs, AttributeField::OnDemand) && super::map::covers_range(
            target_base,
            target_len,
            span_base,
            size,
        ) {
            let entry = PageTableEntry(table_entry_bits(None, attrs));
            let s1 = (with_entry(s.0, table, i, entry), s.1);
            lemma_writes_entry(s, s.1, table, i, entry, translation, attrs);
            lemma_entries_writes(
                translation,
                attrs,
                mat,
                base,
                s1,
                level,
                table,
                target_base,
                target_len,
                pt_base,
                i + 1,
                top,
                next_span,
            );
            lemma_writes_trans(s, s1, out, translation, attrs);
        } else if s.1 >= s.0.len() {
            lemma_writes_refl(s, translation, attrs);
        } else {
            let t = s.1 as int;
            let va = base + t * 4096;
            let pa = (va - mat@) as usize;
            let zeroed = s.0.update(t, null_table());
            let entry = PageTableEntry(table_entry_bits(Some(pa), attrs));
            let s1 = (with_entry(zeroed, table, i, entry), (s.1 + 1) as nat);
            lemma_writes_null(s, s.1, t, translation, attrs);
            assert(zeroed[table].len() == 512);
            lemma_writes_entry((zeroed, s.1), (s.1 + 1) as nat, table, i, entry, translation, attrs);
            lemma_writes_trans(s, (zeroed, s.1), s1, translation, attrs);
            lemma_level_writes(
                translation,
                attrs,
                mat,
                base,
                s1,
                level + 1,
                t,
                eb,
                el,
                span_base,
            );
            let s3 = level_outcome(
                translation,
                attrs,
                mat,
                base,
                s1,
                level + 1,
                t,
                eb,
                el,
                span_base,
            ).unwrap();
            lemma_writes_trans(s, s1, s3.1, translation, attrs);
            if s3.0 is Ok {
                lemma_entries_writes(
                    translation,
                    attrs,
                    mat,
                    base,
                    s3.1,
                    level,
                    table,
                    target_base,
                    target_len,
                    pt_base,
                    i + 1,
                    top,
                    next_span,
                );
                lemma_writes_trans(s, s3.1, out, translation, attrs);
            }
        }
    }
}

/// Mapping a range into a directory writes only entries a mapping writes.
pub proof fn lemma_translation_writes<T: Translate>(
    dir: PageDirectory,
    translation: T,
    attrs: u64,
    mat: FixedOffset,
    base: int,
    s: (Seq<Seq<PageTableEntry>>, nat),
    target_base: int,
    target_len: int,
)
    requires
        translation_outcome(dir, translation, attrs, mat, base, s, target_base, target_len) is Some,
    ensures
        writes_only(
            s,
            translation_outcome(dir, translation, attrs, mat, base, s, target_base, target_len).unwrap().1,
            translation,
            attrs,
        ),
{
    let (root, first, pt_base) = super::map::root_of(dir, target_base);
    match root {
        Some(pa) => {
            let t = super::map::phys_table(base, s.0.len() as int, mat, pa.value()).unwrap();
            lemma_level_writes(
                translation,
                attrs,
                mat,
                base,
                s,
                first,
                t,
                target_base,
                target_len,
                pt_base,
            );
        },
        None => {
            if s.1 >= s.0.len() {
                lemma_writes_refl(s, translation, attrs);
            } else {
                let t = s.1 as int;
                let s1 = (s.0.update(t, null_table()), (s.1 + 1) as nat);
                lemma_writes_null(s, (s.1 + 1) as nat, t, translation, attrs);
                lemma_level_writes(
                    translation,
                    attrs,
                    mat,
                    base,
                    s1,
                    first,
                    t,
                    target_base,
                    target_len,
                    pt_base,
                );
                let s2 = level_outcome(
                    translation,
                    attrs,
                    mat,
                    base,
                    s1,
                    first,
                    t,
                    target_base,
                    target_len,
                    pt_base,
                ).unwrap();
                lemma_writes_trans(s, s1, s2.1, translation, attrs);
            }
        },
    }
}

/// The fields of a page or block descriptor: its memory attributes index is the one
/// chosen, the access flag is set where chosen, and it is invalid without an output
/// address.
proof fn lemma_leaf_bits(ux: u64, kx: u64, af: u64, ap: u64, idx: u64, o: u64, x: u64, c: u64, l: u64)
    by (bit_vector)
    requires
        ux == 0u64 || ux == 1u64 << 54u64,
        kx == 0u64 || kx == 1u64 << 53u64,
        af == 0u64 || af == 1u64 << 10u64,
        idx == 0u64 || idx == 1u64,
        o == 0u64 || o == 1u64 | (x << 12u64),
        x <= 0x7_ffff_ffffu64,
        c == 0u64 || c == 1u64 << 52u64,
        l == 0u64 || l == 2u64,
    ensures
        (((((2u64 << 8u64) | ux | kx | af | (ap << 6u64) | (idx << 2u64)) | o | c | l) >> 2u64)
            & 7u64) == idx,
        af == 1u64 << 10u64 ==> ((((2u64 << 8u64) | ux | kx | af | (ap << 6u64) | (idx << 2u64))
            | o | c | l) & (1u64 << 10u64)) != 0u64,
        o == 0u64 ==> ((((2u64 << 8u64) | ux | kx | af | (ap << 6u64) | (idx << 2u64)) | o | c | l)
            & 1u64) == 0u64,
        ap <= 3u64 ==> (((((2u64 << 8u64) | ux | kx | af | (ap << 6u64) | (idx << 2u64)) | o | c
            | l) >> 6u64) & 3u64) == ap,
        ap <= 3u64 ==> (((((2u64 << 8u64) | ux | kx | af | (ap << 6u64) | (idx << 2u64)) | o | c
            | l) & (1u64 << 53u64)) == 0u64) == (kx == 0u64),
        ap <= 3u64 ==> (((((2u64 << 8u64) | ux | kx | af | (ap << 6u64) | (idx << 2u64)) | o | c
            | l) & (1u64 << 54u64)) == 0u64) == (ux == 0u64),
{
}

/// The memory attributes index field of a table descriptor is 0.
proof fn lemma_table_bits(u: u64, k: u64, o: u64, x: u64)
    by (bit_vector)
    requires
        u == 0u64 || u == 1u64 << 60u64,
        k == 0u64 || k == 1u64 << 59u64,
        o == 0u64 || o == 1u64 | (x << 12u64),
    ensures
        ((((u | k) | o | 2u64) >> 2u64) & 7u64) == 0u64,
{
}

/// A page or block descriptor's fields, from its attributes and output address.
proof fn lemma_page_block_fields(level: u8, out: Option<usize>, attrs: u64, c: bool)
    ensures
        ({
            let e = PageTableEntry(page_block_entry_bits(level, out, attrs, c));
            &&& attr_index(e) == if has_field(attrs, AttributeField::Device) {
                device_strongly_ordered()
            } else {
                memory_write_through()
            }
            &&& (has_field(attrs, AttributeField::Device) || has_field(
                attrs,
                AttributeField::Accessed,
            )) ==> access_flag(e)
            &&& out is None ==> !is_valid_entry(e)
            &&& access_permissions(attrs) matches Some(ap) ==> {
                &&& access_permission_field(e) == ap
                &&& kernel_executable(e) == has_field(attrs, AttributeField::KernelExec)
                &&& user_executable(e) == has_field(attrs, AttributeField::UserExec)
            }
        }),
{
    let device = has_field(attrs, AttributeField::Device);
    let ux: u64 = if has_field(attrs, AttributeField::UserExec) {
        0u64
    } else {
        1u64 << 54u64
    };
    let kx: u64 = if has_field(attrs, AttributeField::KernelExec) {
        0u64
    } else {
        1u64 << 53u64
    };
    let af: u64 = if device || has_field(attrs, AttributeField::Accessed) {
        1u64 << 10u64
    } else {
        0u64
    };
    let ap = access_permissions(attrs).unwrap();
    let idx: u64 = if device {
        device_strongly_ordered()
    } else {
        memory_write_through()
    };
    let x: u64 = match out {
        Some(addr) => ((addr / 4096) as u64) & 0x7_ffff_ffffu64,
        None => 0u64,
    };
    let o: u64 = match out {
        Some(addr) => 1u64 | super::table::address_bits(addr),
        None => 0u64,
    };
    if let Some(addr) = out {
        let y = (addr / 4096) as u64;
        assert(y & 0x7_ffff_ffffu64 <= 0x7_ffff_ffffu64) by (bit_vector);
    }
    let cb: u64 = if c {
        1u64 << 52u64
    } else {
        0u64
    };
    let l: u64 = if level == 3 {
        2u64
    } else {
        0u64
    };
    assert(page_block_attribute_bits(attrs) == (2u64 << 8u64) | ux | kx | af | (ap << 6u64) | (idx
        << 2u64));
    assert(page_block_entry_bits(level, out, attrs, c) == page_block_attribute_bits(attrs) | o | cb
        | l);
    lemma_leaf_bits(ux, kx, af, ap, idx, o, x, cb, l);
    assert((1u64 << 53u64) != 0u64 && (1u64 << 54u64) != 0u64) by (bit_vector);
}

/// A table descriptor's memory attributes index field is 0.
proof fn lemma_table_fields(next: Option<usize>, attrs: u64)
    ensures
        attr_index(PageTableEntry(table_entry_bits(next, attrs))) == device_strongly_ordered(),
{
    let u: u64 = if has_field(attrs, AttributeField::UserExec) {
        0u64
    } else {
        1u64 << 60u64
    };
    let k: u64 = if has_field(attrs, AttributeField::KernelExec) {
        0u64
    } else {
        1u64 << 59u64
    };
    let x: u64 = match next {
        Some(addr) => ((addr / 4096) as u64) & 0x7_ffff_ffffu64,
        None => 0u64,
    };
    let o: u64 = match next {
        Some(addr) => 1u64 | super::table::address_bits(addr),
        None => 0u64,
    };
    assert(table_attribute_bits(attrs) == u | k);
    lemma_table_bits(u, k, o, x);
}

/// An entry a mapping with device attributes writes has the device memory attributes
/// index, and where it is a valid page or block descriptor, the access flag.
pub proof fn lemma_written_device<T: Translate>(e: PageTableEntry, translation: T, attrs: u64)
    requires
        written_entry(e, translation, attrs),
        has_field(attrs, AttributeField::Device),
    ensures
        attr_index(e) == device_strongly_ordered(),
        is_valid_entry(e) ==> is_table_descriptor(e) || access_flag(e),
{
    if e.0 == 0 {
        assert((0u64 >> 2u64) & 7u64 == 0u64) by (bit_vector);
        assert(0u64 & 1u64 == 0u64) by (bit_vector);
    } else if exists|next: Option<usize>| e.0 == #[trigger] table_entry_bits(next, attrs) {
        let next = choose|next: Option<usize>| e.0 == #[trigger] table_entry_bits(next, attrs);
        lemma_table_fields(next, attrs);
        assert(is_table_descriptor(e));
    } else {
        let (level, va, c) = choose|level: u8, va: usize, c: bool|
            e.0 == #[trigger] page_block_entry_bits(
                level,
                translation.spec_translate_maybe(va),
                attrs,
                c,
            );
        lemma_page_block_fields(level, translation.spec_translate_maybe(va), attrs, c);
    }
}

/// True iff the entry is invalid, a table descriptor, or a page or block descriptor fit
/// for the kernel's own memory: with the access flag set, privileged access only, not
/// executable by user code, and not both writable and executable.
pub open spec fn kernel_leaf(e: PageTableEntry) -> bool {
    ||| !is_valid_entry(e)
    ||| is_table_descriptor(e)
    ||| {
        &&& access_flag(e)
        &&& !user_executable(e)
        &&& (access_permission_field(e) == 0 || access_permission_field(e) == 2)
        &&& access_permission_field(e) == 0 ==> !kernel_executable(e)
    }
}

/// True iff mapping with the attributes writes only entries fit for the kernel's own
/// memory: the attributes ask for the access flag (or device memory, which always has
/// it), give user code no access, and do not make memory both writable and executable.
pub open spec fn kernel_leaf_attributes(attrs: u64) -> bool {
    &&& has_field(attrs, AttributeField::Accessed) || has_field(attrs, AttributeField::Device)
    &&& !has_field(attrs, AttributeField::UserRead)
    &&& !has_field(attrs, AttributeField::UserWrite)
    &&& !has_field(attrs, AttributeField::UserExec)
    &&& !(has_field(attrs, AttributeField::KernelWrite) && has_field(
        attrs,
        AttributeField::KernelExec,
    ))
}

/// An entry a mapping writes, with attributes fit for the kernel's own memory or by a
/// translation that gives no address, is fit for the kernel's own memory.
pub proof fn lemma_written_kernel_leaf<T: Translate>(e: PageTableEntry, translation: T, attrs: u64)
    requires
        written_entry(e, translation, attrs),
        kernel_leaf_attributes(attrs) || forall|va: usize|
            #[trigger] translation.spec_translate_maybe(va) is None,
    ensures
        kernel_leaf(e),
{
    if e.0 == 0 {
        assert(0u64 & 1u64 == 0u64) by (bit_vector);
    } else if exists|next: Option<usize>| e.0 == #[trigger] table_entry_bits(next, attrs) {
        let next = choose|next: Option<usize>| e.0 == #[trigger] table_entry_bits(next, attrs);
        assert(is_table_descriptor(e));
    } else {
        let (level, va, c) = choose|level: u8, va: usize, c: bool|
            e.0 == #[trigger] page_block_entry_bits(
                level,
                translation.spec_translate_maybe(va),
                attrs,
                c,
            );
        lemma_page_block_fields(level, translation.spec_translate_maybe(va), attrs, c);
    }
}

/// True iff going from page-table state `s` to `s2` keeps the tables and every entry
/// changed is fit for the kernel's own memory.
pub open spec fn writes_kernel_leaves(
    s: (Seq<Seq<PageTableEntry>>, nat),
    s2: (Seq<Seq<PageTableEntry>>, nat),
) -> bool {
    &&& s2.0.len() == s.0.len()
    &&& forall|t: int, i: int|
        0 <= t < s.0.len() && 0 <= i < 512 && #[trigger] s2.0[t][i] != s.0[t][i] ==> kernel_leaf(
            s2.0[t][i],
        )
}

/// A mapping with attributes fit for the kernel's own memory (or to no address) changes
/// only entries into ones fit for it.
pub proof fn lemma_writes_kernel_leaves<T: Translate>(
    s: (Seq<Seq<PageTableEntry>>, nat),
    s2: (Seq<Seq<PageTableEntry>>, nat),
    translation: T,
    attrs: u64,
)
    requires
        writes_only(s, s2, translation, attrs),
        kernel_leaf_attributes(attrs) || forall|va: usize|
            #[trigger] translation.spec_translate_maybe(va) is None,
    ensures
        writes_kernel_leaves(s, s2),
{
    assert forall|t: int, i: int|
        0 <= t < s.0.len() && 0 <= i < 512 && #[trigger] s2.0[t][i] != s.0[t][i] implies kernel_leaf(
        s2.0[t][i],
    ) by {
        lemma_written_kernel_leaf(s2.0[t][i], translation, attrs);
    }
}

/// Changes that each keep to entries fit for the kernel's own memory, one after the
/// other, keep to them.
pub proof fn lemma_writes_kernel_leaves_trans(
    s1: (Seq<Seq<PageTableEntry>>, nat),
    s2: (Seq<Seq<PageTableEntry>>, nat),
    s3: (Seq<Seq<PageTableEntry>>, nat),
)
    requires
        writes_kernel_leaves(s1, s2),
        writes_kernel_leaves(s2, s3),
    ensures
        writes_kernel_leaves(s1, s3),
{
    assert forall|t: int, i: int|
        0 <= t < s1.0.len() && 0 <= i < 512 && #[trigger] s3.0[t][i] != s1.0[t][i] implies kernel_leaf(
        s3.0[t][i],
    ) by {
        if s3.0[t][i] == s2.0[t][i] {
            assert(s2.0[t][i] != s1.0[t][i]);
        }
    }
}

} // verus!
