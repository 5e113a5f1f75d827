//! Page table data structures of the ARMv8 translation tables.

use crate::pager::addr::{Addr, PAGESIZE_BYTES};
use crate::pager::attributes::{has_field, AttributeField, Attributes};
use crate::pager::phys_addr::PhysAddr;
use crate::util::bitfield::{Bitfield, Field, FieldValue};
use vstd::prelude::*;

verus! {

/// The integer type of a page table entry.
pub type PageTableEntryType = u64;

/// An entry in one of the levels of an ARMv8 page table.
#[derive(Copy, Clone, PartialEq, Eq, Debug, Structural)]
pub struct PageTableEntry(pub PageTableEntryType);

/// Mask of the address of the next-level table in a table entry (bits 12..48).
pub open spec fn table_address_mask() -> u64 {
    0xffff_ffff_f000
}

impl PageTableEntry {
    /// The entry's bits.
    pub fn get(self) -> (r: u64)
        ensures
            r == self.0,
    {
        self.0
    }

    /// Replace the entry's bits.
    pub fn set(&mut self, value: u64)
        ensures
            final(self).0 == value,
    {
        self.0 = value;
    }

    /// True iff the entry is valid.
    pub fn is_valid(self) -> (r: bool)
        ensures
            r == (self.0 & 1 != 0),
    {
        0 != self.0 & 1
    }

    /// True iff the entry has no bits set.
    pub fn is_null(self) -> (r: bool)
        ensures
            r == (self.0 == 0),
    {
        0 == self.0
    }

    /// Physical address of the next-level table.
    pub fn next_level_table_address(self) -> (r: PhysAddr)
        ensures
            r.value() == (self.0 & table_address_mask()) as usize,
    {
        PhysAddr::at((self.0 & 0xffff_ffff_f000) as usize)
    }

    /// True iff the entry refers to a next-level table (only possible above level 3).
    pub fn is_table(self, level: u8) -> (r: bool)
        ensures
            r == (level < 3 && self.0 & 2 != 0),
    {
        level < 3 && self.0 & 0b10 != 0
    }

    /// The entry holding a table descriptor.
    pub fn from_table_descriptor(desc: TableDescriptor) -> (r: Self)
        ensures
            r.0 == desc@,
    {
        Self(desc.get())
    }

    /// The entry holding a page or block descriptor.
    pub fn from_page_block_descriptor(desc: PageBlockDescriptor) -> (r: Self)
        ensures
            r.0 == desc@,
    {
        Self(desc.get())
    }
}

/// Number of entries in a page table.
pub const TABLE_ENTRIES: usize = 512;

/// Width of the table offsets within a virtual address.
pub const LEVEL_WIDTH: usize = 9;

/// Bit position of the table offset of a level within a virtual address.
pub open spec fn level_offset_of(level: int) -> int {
    39 - 9 * level
}

/// Bit position of the table offset of a level within a virtual address.
pub fn level_offset(level: usize) -> (r: usize)
    requires
        level < 4,
    ensures
        r == level_offset_of(level as int),
{
    39 - 9 * level
}

/// A page of page table entries.
#[derive(Copy, Clone)]
pub struct PageTable([PageTableEntry; 512]);

impl View for PageTable {
    /// The entries.
    type V = Seq<PageTableEntry>;

    closed spec fn view(&self) -> Seq<PageTableEntry> {
        self.0@
    }
}

impl PageTable {
    /// A table of null entries.
    pub fn new() -> (r: Self)
        ensures
            r@ == Seq::new(512, |i: int| PageTableEntry(0)),
    {
        let r = Self([PageTableEntry(0); 512]);
        assert(r@ =~= Seq::new(512, |i: int| PageTableEntry(0)));
        r
    }

    /// Entry `index`.
    pub fn index(&self, index: usize) -> (r: PageTableEntry)
        requires
            index < TABLE_ENTRIES,
        ensures
            r == self@[index as int],
            self@.len() == TABLE_ENTRIES,
    {
        self.0[index]
    }

    /// Replace entry `index`.
    pub fn set(&mut self, index: usize, entry: PageTableEntry)
        requires
            index < TABLE_ENTRIES,
        ensures
            old(self)@.len() == TABLE_ENTRIES,
            final(self)@ == old(self)@.update(index as int, entry),
    {
        self.0[index] = entry;
    }
}

/// The page number of an address placed in the address field of a descriptor.
pub open spec fn address_bits(addr: usize) -> u64 {
    (((addr / PAGESIZE_BYTES) as u64) & 0x7_ffff_ffff) << 12u64
}

/// Or-ing with zero, or with itself, leaves a value unchanged.
proof fn lemma_or_identity(x: u64)
    by (bit_vector)
    ensures
        x | 0u64 == x,
        0u64 | x == x,
        x | x == x,
{
}

/// The single-bit and small fields of the descriptors, truncated to their width and shifted.
proof fn lemma_descriptor_field_bits()
    by (bit_vector)
    ensures
        (0u64 & 0u64) << 0u64 == 0u64,
        (1u64 & 1u64) << 0u64 == 1u64,
        (1u64 & 1u64) << 1u64 == 2u64,
        (1u64 & 1u64) << 10u64 == 1u64 << 10u64,
        (1u64 & 1u64) << 52u64 == 1u64 << 52u64,
        (1u64 & 1u64) << 53u64 == 1u64 << 53u64,
        (1u64 & 1u64) << 54u64 == 1u64 << 54u64,
        (1u64 & 1u64) << 59u64 == 1u64 << 59u64,
        (1u64 & 1u64) << 60u64 == 1u64 << 60u64,
        (2u64 & 3u64) << 8u64 == 2u64 << 8u64,
        (0u64 & 7u64) << 2u64 == 0u64 << 2u64,
        (1u64 & 7u64) << 2u64 == 1u64 << 2u64,
{
}

/// A two-bit value fits the access permissions field.
proof fn lemma_two_bit_field(ap: u64)
    by (bit_vector)
    requires
        ap <= 3,
    ensures
        (ap & 3u64) << 6u64 == ap << 6u64,
{
}

/// The address field of a descriptor holds at most 35 bits.
proof fn lemma_address_field_bound(v: u64)
    by (bit_vector)
    ensures
        (v & (0x7_ffff_ffffu64 << 12u64)) >> 12u64 <= 0x7_ffff_ffff,
{
}

/// Regrouping the or of the access-flag terms.
proof fn lemma_regroup_or(s: u64, bu: u64, bk: u64, bd: u64, ba: u64, ap: u64, bi: u64)
    by (bit_vector)
    ensures
        s | bu | bk | bd | ba | ap | bi == s | bu | bk | (bd | ba) | ap | bi,
{
}

/// The execute-never bits of a table descriptor for attributes.
pub open spec fn table_attribute_bits(attrs: u64) -> u64 {
    (if has_field(attrs, AttributeField::UserExec) {
        0u64
    } else {
        1u64 << 60u64
    }) | (if has_field(attrs, AttributeField::KernelExec) {
        0u64
    } else {
        1u64 << 59u64
    })
}

/// The bits of a table descriptor for a next-level table (if any) and attributes.
pub open spec fn table_entry_bits(next: Option<usize>, attrs: u64) -> u64 {
    table_attribute_bits(attrs) | (match next {
        Some(addr) => 1u64 | address_bits(addr),
        None => 0u64,
    }) | 2u64
}

/// A table descriptor: an entry referring to a next-level table.
#[derive(Copy, Clone, PartialEq, Eq, Debug, Structural)]
pub struct TableDescriptor {
    bits: Bitfield,
}

impl View for TableDescriptor {
    /// The descriptor's bits.
    type V = u64;

    closed spec fn view(&self) -> u64 {
        self.bits@
    }
}

impl TableDescriptor {
    /// Non-secure table.
    pub fn ns_table() -> (r: Field)
        ensures
            r == (Field { mask: 1, shift: 63 }),
    {
        Field::new(1, 63)
    }

    /// Access permissions limit for subsequent levels.
    pub fn ap_table() -> (r: Field)
        ensures
            r == (Field { mask: 3, shift: 61 }),
    {
        Field::new(3, 61)
    }

    /// Unprivileged execute-never limit for subsequent levels.
    pub fn uxn_table() -> (r: Field)
        ensures
            r == (Field { mask: 1, shift: 60 }),
    {
        Field::new(1, 60)
    }

    /// Privileged execute-never limit for subsequent levels.
    pub fn pxn_table() -> (r: Field)
        ensures
            r == (Field { mask: 1, shift: 59 }),
    {
        Field::new(1, 59)
    }

    /// Page number of the next-level table.
    pub fn next_level_table_address_field() -> (r: Field)
        ensures
            r == (Field { mask: 0x7_ffff_ffff, shift: 12 }),
    {
        Field::new(0x7_ffff_ffff, 12)
    }

    /// Descriptor type: table (1) or reserved (0).
    pub fn type_field() -> (r: Field)
        ensures
            r == (Field { mask: 1, shift: 1 }),
    {
        Field::new(1, 1)
    }

    /// Valid descriptor.
    pub fn valid() -> (r: Field)
        ensures
            r == (Field { mask: 1, shift: 0 }),
    {
        Field::new(1, 0)
    }

    /// The descriptor with the given bits.
    pub fn new(value: u64) -> (r: Self)
        ensures
            r@ == value,
    {
        Self { bits: Bitfield::new(value) }
    }

    /// The descriptor holding the field values.
    pub fn from_field_value(field: FieldValue) -> (r: Self)
        ensures
            r@ == field.value,
    {
        Self { bits: Bitfield::from_field_value(field) }
    }

    /// The descriptor in a page table entry.
    pub fn from_entry(pte: PageTableEntry) -> (r: Self)
        ensures
            r@ == pte.0,
    {
        Self::new(pte.0)
    }

    /// The descriptor's bits.
    pub fn get(&self) -> (r: u64)
        ensures
            r == self@,
    {
        self.bits.get()
    }

    /// Read a field.
    pub fn read(&self, field: Field) -> (r: u64)
        requires
            field.shift < 64,
        ensures
            r == (self@ & (field.mask << field.shift)) >> field.shift,
    {
        self.bits.read(field)
    }

    /// The execute-never limits of a table descriptor for attributes.
    pub fn mask_from_attributes(attributes: Attributes) -> (r: FieldValue)
        ensures
            r.value == table_attribute_bits(attributes@),
    {
        proof {
            lemma_descriptor_field_bits();
        }
        let mut result = FieldValue::new(0, 0, 0);
        if !attributes.is_set(AttributeField::UserExec) {
            result = result.plus(Self::uxn_table().set());
        }
        let ghost v1 = result.value;
        if !attributes.is_set(AttributeField::KernelExec) {
            result = result.plus(Self::pxn_table().set());
        }
        proof {
            lemma_or_identity(1u64 << 60u64);
            lemma_or_identity(v1);
        }
        result
    }

    /// Create a new table descriptor entry from attributes.
    pub fn new_entry(maybe_phys_addr: Option<PhysAddr>, attributes: Attributes) -> (r: Self)
        ensures
            r@ == table_entry_bits(
                match maybe_phys_addr {
                    Some(p) => Some(p.value()),
                    None => None,
                },
                attributes@,
            ),
    {
        proof {
            lemma_descriptor_field_bits();
        }
        let mut field = Self::mask_from_attributes(attributes);
        let ghost a = field.value;
        match maybe_phys_addr {
            Some(phys_addr) => {
                let page = phys_addr.page() as PageTableEntryType;
                field = field.plus(
                    Self::valid().set().plus(Self::next_level_table_address_field().val(page)),
                );
            },
            None => {
                proof {
                    lemma_or_identity(a);
                }
            },
        }
        field = field.plus(Self::type_field().val(1));
        Self::from_field_value(field)
    }

    /// Extract table address at next level.
    pub fn next_level_table_address(self) -> (r: PhysAddr)
        ensures
            r.value() == ((((self@ & (0x7_ffff_ffffu64 << 12u64)) >> 12u64) * 4096) as u64) as usize,
    {
        let page = self.read(Self::next_level_table_address_field());
        proof {
            lemma_address_field_bound(self@);
        }
        PhysAddr::at((page * PAGESIZE_BYTES as u64) as usize)
    }
}

/// Memory attribute index of device memory in MAIR.
pub open spec fn device_strongly_ordered() -> u64 {
    0
}

/// Memory attribute index of normal memory in MAIR.
pub open spec fn memory_write_through() -> u64 {
    1
}

/// The data access permissions field for attributes, where the combination of read
/// and write permissions is one the descriptor can express.
pub open spec fn access_permissions(attrs: u64) -> Option<u64> {
    let ur = has_field(attrs, AttributeField::UserRead);
    let uw = has_field(attrs, AttributeField::UserWrite);
    let kr = has_field(attrs, AttributeField::KernelRead);
    let kw = has_field(attrs, AttributeField::KernelWrite);
    if ur && uw && kr && kw {
        Some(1)  // ReadWrite
    } else if ur && uw && !kr && !kw {
        Some(1)  // ReadWrite: user read-write is also privileged read-write
    } else if !ur && !uw && kr && kw {
        Some(0)  // PrivOnly
    } else if ur && !uw && kr && !kw {
        Some(3)  // ReadOnly
    } else if !ur && !uw && kr && !kw {
        Some(2)  // PrivReadOnly
    } else if !ur && !uw && !kr && !kw {
        Some(2)  // presumably execute-only: PrivReadOnly
    } else {
        None
    }
}

/// The attribute bits of a page or block descriptor.
pub open spec fn page_block_attribute_bits(attrs: u64) -> u64 {
    let device = has_field(attrs, AttributeField::Device);
    (2u64 << 8u64) | (if has_field(attrs, AttributeField::UserExec) {
        0u64
    } else {
        1u64 << 54u64
    }) | (if has_field(attrs, AttributeField::KernelExec) {
        0u64
    } else {
        1u64 << 53u64
    }) | (if device || has_field(attrs, AttributeField::Accessed) {
        1u64 << 10u64
    } else {
        0u64
    }) | (access_permissions(attrs).unwrap() << 6u64) | ((if device {
        device_strongly_ordered()
    } else {
        memory_write_through()
    }) << 2u64)
}

/// The bits of a page or block descriptor.
pub open spec fn page_block_entry_bits(
    level: u8,
    output: Option<usize>,
    attrs: u64,
    contiguous: bool,
) -> u64 {
    page_block_attribute_bits(attrs) | (match output {
        Some(addr) => 1u64 | address_bits(addr),
        None => 0u64,
    }) | (if contiguous {
        1u64 << 52u64
    } else {
        0u64
    }) | (if level == 3 {
        2u64
    } else {
        0u64
    })
}

/// A page or block descriptor: an entry mapping a page or block of memory.
#[derive(Copy, Clone, PartialEq, Eq, Debug, Structural)]
pub struct PageBlockDescriptor {
    bits: Bitfield,
}

impl View for PageBlockDescriptor {
    /// The descriptor's bits.
    type V = u64;

    closed spec fn view(&self) -> u64 {
        self.bits@
    }
}

impl PageBlockDescriptor {
    /// Bits available for software use.
    pub fn available() -> (r: Field)
        ensures
            r == (Field { mask: 0x1ff, shift: 55 }),
    {
        Field::new(0x1ff, 55)
    }

    /// Unprivileged execute-never.
    pub fn uxn() -> (r: Field)
        ensures
            r == (Field { mask: 1, shift: 54 }),
    {
        Field::new(1, 54)
    }

    /// Privileged execute-never.
    pub fn pxn() -> (r: Field)
        ensures
            r == (Field { mask: 1, shift: 53 }),
    {
        Field::new(1, 53)
    }

    /// One of a contiguous set of entries.
    pub fn contiguous() -> (r: Field)
        ensures
            r == (Field { mask: 1, shift: 52 }),
    {
        Field::new(1, 52)
    }

    /// Dirty.
    pub fn dirty() -> (r: Field)
        ensures
            r == (Field { mask: 1, shift: 51 }),
    {
        Field::new(1, 51)
    }

    /// Page number of the output address.
    pub fn output_address_field() -> (r: Field)
        ensures
            r == (Field { mask: 0x7_ffff_ffff, shift: 12 }),
    {
        Field::new(0x7_ffff_ffff, 12)
    }

    /// Not global: for the current address space only.
    pub fn not_global() -> (r: Field)
        ensures
            r == (Field { mask: 1, shift: 11 }),
    {
        Field::new(1, 11)
    }

    /// Access flag.
    pub fn access_flag() -> (r: Field)
        ensures
            r == (Field { mask: 1, shift: 10 }),
    {
        Field::new(1, 10)
    }

    /// Shareability: non-shareable (0), outer (2), inner (3).
    pub fn shareability() -> (r: Field)
        ensures
            r == (Field { mask: 3, shift: 8 }),
    {
        Field::new(3, 8)
    }

    /// Data access permissions: privileged only (0), read-write (1), privileged
    /// read-only (2), read-only (3).
    pub fn access_permission() -> (r: Field)
        ensures
            r == (Field { mask: 3, shift: 6 }),
    {
        Field::new(3, 6)
    }

    /// Memory attributes index for MAIR_ELx.
    pub fn attr_index() -> (r: Field)
        ensures
            r == (Field { mask: 7, shift: 2 }),
    {
        Field::new(7, 2)
    }

    /// Descriptor type: page (1) or block (0).
    pub fn type_field() -> (r: Field)
        ensures
            r == (Field { mask: 1, shift: 1 }),
    {
        Field::new(1, 1)
    }

    /// Valid descriptor.
    pub fn valid() -> (r: Field)
        ensures
            r == (Field { mask: 1, shift: 0 }),
    {
        Field::new(1, 0)
    }

    /// The descriptor with the given bits.
    pub fn new(value: u64) -> (r: Self)
        ensures
            r@ == value,
    {
        Self { bits: Bitfield::new(value) }
    }

    /// The descriptor holding the field values.
    pub fn from_field_value(field: FieldValue) -> (r: Self)
        ensures
            r@ == field.value,
    {
        Self { bits: Bitfield::from_field_value(field) }
    }

    /// The descriptor in a page table entry.
    pub fn from_entry(pte: PageTableEntry) -> (r: Self)
        ensures
            r@ == pte.0,
    {
        Self::new(pte.0)
    }

    /// The descriptor's bits.
    pub fn get(&self) -> (r: u64)
        ensures
            r == self@,
    {
        self.bits.get()
    }

    /// Read a field.
    pub fn read(&self, field: Field) -> (r: u64)
        requires
            field.shift < 64,
        ensures
            r == (self@ & (field.mask << field.shift)) >> field.shift,
    {
        self.bits.read(field)
    }

    /// Determine if a flag is set.
    pub fn is_set(&self, field: Field) -> (r: bool)
        requires
            field.shift < 64,
        ensures
            r == ((self@ & (field.mask << field.shift)) >> field.shift != 0),
    {
        self.bits.is_set(field)
    }

    /// The attribute fields of a page or block descriptor for attributes whose
    /// combination of read and write permissions the descriptor can express.
    pub fn mask_from_attributes(attributes: Attributes) -> (r: FieldValue)
        requires
            access_permissions(attributes@) is Some,
        ensures
            r.value == page_block_attribute_bits(attributes@),
    {
        proof {
            lemma_descriptor_field_bits();
        }
        let ghost a = attributes@;
        let mut result = Self::shareability().val(2);
        let ghost v0 = result.value;
        if !attributes.is_set(AttributeField::UserExec) {
            result = result.plus(Self::uxn().set());
        }
        let ghost v1 = result.value;
        if !attributes.is_set(AttributeField::KernelExec) {
            result = result.plus(Self::pxn().set());
        }
        let ghost v2 = result.value;
        if attributes.is_set(AttributeField::Device) {
            result = result.plus(Self::access_flag().set());
        }
        let ghost v3 = result.value;
        if attributes.is_set(AttributeField::Accessed) {
            result = result.plus(Self::access_flag().set());
        }
        let ghost v4 = result.value;
        let ur = attributes.is_set(AttributeField::UserRead);
        let uw = attributes.is_set(AttributeField::UserWrite);
        let kr = attributes.is_set(AttributeField::KernelRead);
        let kw = attributes.is_set(AttributeField::KernelWrite);
        let ap: u64 = if ur && uw {
            1  // ReadWrite
        } else if !ur && !uw && kr && kw {
            0  // PrivOnly
        } else if ur && !uw && kr && !kw {
            3  // ReadOnly
        } else {
            2  // PrivReadOnly, also for execute-only
        };
        result = result.plus(Self::access_permission().val(ap));
        let device = attributes.is_set(AttributeField::Device);
        if device {
            result = result.plus(Self::attr_index().val(0));
        } else {
            result = result.plus(Self::attr_index().val(1));
        }
        proof {
            assert(ap == access_permissions(a).unwrap());
            lemma_two_bit_field(ap);
            let bu = if has_field(a, AttributeField::UserExec) {
                0u64
            } else {
                1u64 << 54u64
            };
            let bk = if has_field(a, AttributeField::KernelExec) {
                0u64
            } else {
                1u64 << 53u64
            };
            let bd = if has_field(a, AttributeField::Device) {
                1u64 << 10u64
            } else {
                0u64
            };
            let ba = if has_field(a, AttributeField::Accessed) {
                1u64 << 10u64
            } else {
                0u64
            };
            let bi = if device {
                0u64 << 2u64
            } else {
                1u64 << 2u64
            };
            lemma_or_identity(v0);
            lemma_or_identity(v1);
            lemma_or_identity(v2);
            lemma_or_identity(v3);
            lemma_or_identity(1u64 << 10u64);
            assert(v1 == v0 | bu);
            assert(v2 == v1 | bk);
            assert(v3 == v2 | bd);
            assert(v4 == v3 | ba);
            lemma_regroup_or(2u64 << 8u64, bu, bk, bd, ba, ap << 6u64, bi);
        }
        result
    }

    /// Create a new page block descriptor entry from attributes whose combination of
    /// read and write permissions the descriptor can express.
    pub fn new_entry(
        level: u8,
        maybe_output_addr: Option<PhysAddr>,
        attributes: Attributes,
        contiguous: bool,
    ) -> (r: Self)
        requires
            access_permissions(attributes@) is Some,
        ensures
            r@ == page_block_entry_bits(
                level,
                match maybe_output_addr {
                    Some(p) => Some(p.value()),
                    None => None,
                },
                attributes@,
                contiguous,
            ),
    {
        proof {
            lemma_descriptor_field_bits();
        }
        let mut field = Self::mask_from_attributes(attributes);
        let ghost a = field.value;
        if let Some(output_addr) = maybe_output_addr {
            let page = output_addr.page() as PageTableEntryType;
            field = field.plus(Self::valid().set().plus(Self::output_address_field().val(page)));
        }
        let ghost b = field.value;
        if contiguous {
            field = field.plus(Self::contiguous().set());
        }
        let ghost c = field.value;
        if level == 3 {
            field = field.plus(Self::type_field().val(1));
        }
        proof {
            lemma_or_identity(a);
            lemma_or_identity(b);
            lemma_or_identity(c);
        }
        Self::from_field_value(field)
    }

    /// Extract the output address of the physical page frame.
    pub fn output_address(self) -> (r: PhysAddr)
        ensures
            r.value() == ((((self@ & (0x7_ffff_ffffu64 << 12u64)) >> 12u64) * 4096) as u64) as usize,
    {
        let page = self.read(Self::output_address_field());
        proof {
            lemma_address_field_bound(self@);
        }
        PhysAddr::at((page * PAGESIZE_BYTES as u64) as usize)
    }
}

/// The address field of a table descriptor's bits, the valid bit and the table bit.
proof fn lemma_table_bits(u: bool, k: bool, p: u64)
    by (bit_vector)
    requires
        p <= 0x7_ffff_ffff,
    ensures
        ((((if u {
            0u64
        } else {
            1u64 << 60u64
        }) | (if k {
            0u64
        } else {
            1u64 << 59u64
        })) | (1u64 | ((p & 0x7_ffff_ffffu64) << 12u64)) | 2u64) & (0x7_ffff_ffffu64 << 12u64))
            >> 12u64 == p,
        (((if u {
            0u64
        } else {
            1u64 << 60u64
        }) | (if k {
            0u64
        } else {
            1u64 << 59u64
        })) | (1u64 | ((p & 0x7_ffff_ffffu64) << 12u64)) | 2u64) & 3u64 == 3u64,
        ((((if u {
            0u64
        } else {
            1u64 << 60u64
        }) | (if k {
            0u64
        } else {
            1u64 << 59u64
        })) | (1u64 | ((p & 0x7_ffff_ffffu64) << 12u64)) | 2u64) & 0xffff_ffff_f000u64) == p
            << 12u64,
        p << 12u64 == (p * 4096) as u64,
        (((if u {
            0u64
        } else {
            1u64 << 60u64
        }) | (if k {
            0u64
        } else {
            1u64 << 59u64
        })) | 0u64 | 2u64) & 3u64 == 2u64,
{
}

/// The address field of a page or block descriptor's bits.
proof fn lemma_page_block_bits(
    u: bool,
    k: bool,
    af: bool,
    ap: u64,
    d: bool,
    c: bool,
    t: bool,
    p: u64,
)
    by (bit_vector)
    requires
        ap <= 3,
        p <= 0x7_ffff_ffff,
    ensures
        (((2u64 << 8u64) | (if u {
            0u64
        } else {
            1u64 << 54u64
        }) | (if k {
            0u64
        } else {
            1u64 << 53u64
        }) | (if af {
            1u64 << 10u64
        } else {
            0u64
        }) | (ap << 6u64) | ((if d {
            0u64
        } else {
            1u64
        }) << 2u64) | (1u64 | ((p & 0x7_ffff_ffffu64) << 12u64)) | (if c {
            1u64 << 52u64
        } else {
            0u64
        }) | (if t {
            2u64
        } else {
            0u64
        })) & (0x7_ffff_ffffu64 << 12u64)) >> 12u64 == p,
{
}

/// A table descriptor made for a page-aligned physical address below 2^47 is valid,
/// refers to a table, and gives back that address as its next-level table address; one
/// made without an address is a table descriptor that is not valid.
pub proof fn lemma_table_descriptor_address(pa: usize, attrs: u64)
    requires
        pa % 4096 == 0,
        pa < 0x8000_0000_0000,
    ensures
        ((((table_entry_bits(Some(pa), attrs) & (0x7_ffff_ffffu64 << 12u64)) >> 12u64) * 4096) as u64) as usize == pa,
        table_entry_bits(Some(pa), attrs) & 3 == 3,
        table_entry_bits(None, attrs) & 3 == 2,
        (table_entry_bits(Some(pa), attrs) & 0xffff_ffff_f000u64) as usize == pa,
{
    let p = (pa / 4096) as u64;
    lemma_table_bits(
        has_field(attrs, AttributeField::UserExec),
        has_field(attrs, AttributeField::KernelExec),
        p,
    );
    assert(p * 4096 == pa);
}

/// A page or block descriptor made for a page-aligned physical address below 2^47 gives
/// back that address as its output address.
pub proof fn lemma_page_block_descriptor_address(
    level: u8,
    pa: usize,
    attrs: u64,
    contiguous: bool,
)
    requires
        pa % 4096 == 0,
        pa < 0x8000_0000_0000,
        access_permissions(attrs) is Some,
    ensures
        ((((page_block_entry_bits(level, Some(pa), attrs, contiguous) & (0x7_ffff_ffffu64
            << 12u64)) >> 12u64) * 4096) as u64) as usize == pa,
{
    let p = (pa / 4096) as u64;
    let device = has_field(attrs, AttributeField::Device);
    lemma_page_block_bits(
        has_field(attrs, AttributeField::UserExec),
        has_field(attrs, AttributeField::KernelExec),
        device || has_field(attrs, AttributeField::Accessed),
        access_permissions(attrs).unwrap(),
        device,
        contiguous,
        level == 3,
        p,
    );
    assert(p * 4096 == pa);
}

} // verus!
