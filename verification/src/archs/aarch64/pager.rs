//! Paging on aarch64: the machine's memory map, the span of entries of a page table
//! over a virtual address range, and the descriptors of the boot page tables.

use super::table::{
    access_permissions, level_offset, level_offset_of, page_block_entry_bits, PageBlockDescriptor, LEVEL_WIDTH,
    TABLE_ENTRIES,
};
use super::UPPER_VA_BITS;
use crate::pager::addr::{intersection_of, is_power_of_two, Addr, AddrRange};
use crate::pager::attributes::{with_field, AttributeField, Attributes};
use crate::pager::phys_addr::{PhysAddr, PhysAddrRange};
use crate::pager::translation::FixedOffset;
use crate::pager::virt_addr::{top_of, VirtAddr, VirtAddrRange};
use crate::Result;
use vstd::arithmetic::div_mod::{
    lemma_div_is_ordered, lemma_div_is_ordered_by_denominator, lemma_div_plus_one,
};
use vstd::arithmetic::power2::{lemma2_to64, lemma2_to64_rest, pow2};
use vstd::bits::{lemma_usize_pow2_no_overflow, lemma_usize_shl_is_mul, lemma_usize_shr_is_div};
use vstd::prelude::*;

verus! {

/// The aarch64 machine.
pub struct Arch {}

/// One GiB.
pub const GB: usize = 0x4000_0000;

/// Number of entries in a span of contiguous entries.
pub const CONTIG_SPAN: usize = 16;

/// Starting level of the user (lower) address range.
pub const TTB0_FIRST_LEVEL: u8 = 0;

/// Starting level of the kernel (upper) address range.
pub const TTB1_FIRST_LEVEL: u8 = 1;

/// Descriptor of the level-1 block that maps the first GB of RAM during boot.
pub const BOOT_RAM_DESCRIPTOR: u64 = 0x40000040000605;

/// Descriptor of the level-1 block that maps the debug device during boot.
pub const BOOT_DEVICE_DESCRIPTOR: u64 = 0x60000000000601;

/// Number of bytes that an entry of a table at `level` spans.
pub open spec fn entry_size(level: int) -> int {
    pow2(level_offset_of(level) as nat) as int
}

/// The address `offset` bytes above `addr`, or null where that passes the top of memory.
pub open spec fn incremented(addr: int, offset: int) -> int {
    if addr + offset <= usize::MAX {
        addr + offset
    } else {
        0
    }
}

/// The base virtual address of the kernel address space: all but the low
/// `UPPER_VA_BITS` bits set.
pub open spec fn kernel_base_value() -> int {
    0xffff_ff80_0000_0000
}

/// The entry sizes of the four levels.
pub proof fn lemma_entry_sizes()
    ensures
        entry_size(0) == 0x80_0000_0000,
        entry_size(1) == 0x4000_0000,
        entry_size(2) == 0x20_0000,
        entry_size(3) == 0x1000,
{
    lemma2_to64();
    lemma2_to64_rest();
    assert(level_offset_of(0) == 39);
    assert(level_offset_of(1) == 30);
    assert(level_offset_of(2) == 21);
    assert(level_offset_of(3) == 12);
}

/// Shifting one left by the level offset gives the entry size.
proof fn lemma_level_shift(level: usize)
    requires
        usize::BITS == 64,
        level < 4,
    ensures
        level_offset_of(level as int) < 64,
        1usize << (level_offset_of(level as int) as usize) == entry_size(level as int),
        entry_size(level as int) >= 0x1000,
        entry_size(level as int) <= 0x80_0000_0000,
{
    let lo = level_offset_of(level as int) as usize;
    lemma_entry_sizes();
    lemma_usize_pow2_no_overflow(lo as nat);
    lemma_usize_shl_is_mul(1, lo);
}

impl Arch {
    /// Physical address range of RAM.
    pub fn ram_range() -> (r: Result<PhysAddrRange>)
        ensures
            r matches Ok(range) && range.spec_base() == 0x4000_0000 && range.spec_length()
                == 0x1000_0000,
    {
        Ok(PhysAddrRange::between(PhysAddr::at(0x4000_0000), PhysAddr::at(0x5000_0000)))
    }

    /// Base virtual address of the kernel address space.
    pub fn kernel_base() -> (r: VirtAddr)
        requires
            usize::BITS == 64,
        ensures
            r.value() == kernel_base_value(),
    {
        proof {
            lemma2_to64_rest();
            lemma_usize_pow2_no_overflow(39);
            lemma_usize_shl_is_mul(1, 39);
        }
        let base = !((1usize << UPPER_VA_BITS) - 1);
        proof {
            assert((!(((1usize << 39usize) - 1usize) as usize)) as u64 == 0xffff_ff80_0000_0000u64)
                by (bit_vector)
                requires
                    usize::BITS == 64,
            ;
        }
        VirtAddr::at(base)
    }

    /// The offset of the kernel image in virtual memory at boot.
    pub fn kernel_offset() -> (r: FixedOffset)
        requires
            usize::BITS == 64,
        ensures
            r@ == 0xffff_ff82_0008_0000 - 0x4008_0000,
    {
        FixedOffset::new(PhysAddr::at(0x4008_0000), VirtAddr::at(0xffff_ff82_0008_0000u64 as usize))
    }

    /// Physical address range of the debug UART.
    pub fn debug_uart() -> (r: Result<PhysAddrRange>)
        ensures
            r matches Ok(range) && range.spec_base() == 0x900_0000 && range.spec_length()
                == 0x1000,
    {
        Ok(PhysAddrRange::new(PhysAddr::at(0x900_0000), 0x1000))
    }
}

/// Memory attribute indices programmed into MAIR_EL1.
#[derive(Copy, Clone, PartialEq, Eq, Debug, Structural)]
pub enum MAIR {
    /// Device memory, non-gathering, non-reordering, no early write acknowledgement.
    DeviceStronglyOrdered,
    /// Normal memory, write-through.
    MemoryWriteThrough,
}

impl MAIR {
    /// The attribute of an index; only indices 0 and 1 are programmed.
    pub fn from_u64(i: u64) -> (r: Self)
        requires
            i < 2,
        ensures
            i == 0 ==> r == MAIR::DeviceStronglyOrdered,
            i == 1 ==> r == MAIR::MemoryWriteThrough,
    {
        if i == 0 {
            MAIR::DeviceStronglyOrdered
        } else {
            MAIR::MemoryWriteThrough
        }
    }

    /// The index of the attribute.
    pub fn index(self) -> (r: u64)
        ensures
            r == (match self {
                MAIR::DeviceStronglyOrdered => 0u64,
                MAIR::MemoryWriteThrough => 1u64,
            }),
    {
        match self {
            MAIR::DeviceStronglyOrdered => 0,
            MAIR::MemoryWriteThrough => 1,
        }
    }
}

/// An aarch64 page directory: the root tables of the user and kernel address ranges.
#[derive(Copy, Clone, Debug)]
pub struct PageDirectory {
    /// Physical address of the root table for user space.
    pub ttb0: Option<PhysAddr>,
    /// Physical address of the root table for kernel space.
    pub ttb1: Option<PhysAddr>,
}

impl PageDirectory {
    /// A directory with no tables.
    pub fn new() -> (r: Self)
        ensures
            r.ttb0 is None,
            r.ttb1 is None,
    {
        Self { ttb0: None, ttb1: None }
    }

    /// Physical address of the user address space directory.
    pub fn ttb0(&self) -> (r: Option<PhysAddr>)
        ensures
            r == self.ttb0,
    {
        self.ttb0
    }

    /// Physical address of the kernel address space directory.
    pub fn ttb1(&self) -> (r: Option<PhysAddr>)
        ensures
            r == self.ttb1,
    {
        self.ttb1
    }

    /// The virtual address range of the span of contiguous entries that entry `index` of
    /// a table at `level`, whose entry 0 starts at `page_table_virt_addr_range_base`,
    /// belongs to.
    pub fn contiguous_virt_range(
        level: u8,
        index: usize,
        page_table_virt_addr_range_base: VirtAddr,
    ) -> (r: VirtAddrRange)
        requires
            usize::BITS == 64,
            level < 4,
            index < TABLE_ENTRIES,
        ensures
            r.spec_base() == incremented(
                page_table_virt_addr_range_base.value() as int,
                (index - index % 16) * entry_size(level as int),
            ),
            r.spec_length() == 16 * entry_size(level as int),
    {
        let lo = level_offset(level as usize);
        proof {
            lemma_level_shift(level as usize);
        }
        let entry_size = 1usize << lo;
        let index = index - index % CONTIG_SPAN;
        proof {
            assert(index * entry_size <= 512 * 0x80_0000_0000) by (nonlinear_arith)
                requires
                    index < 512,
                    entry_size <= 0x80_0000_0000,
            ;
        }
        let base = page_table_virt_addr_range_base.increment(index * entry_size);
        let length = CONTIG_SPAN * entry_size;
        VirtAddrRange::new(base, length)
    }
}

/// The span of entries of a page table over a virtual address range: entries
/// `index..top`, the next of which spans `entry_span`.
#[derive(Copy, Clone, Debug)]
pub struct PageTableEntries {
    /// The virtual address range the entries are for.
    pub bounds: VirtAddrRange,
    /// The next entry.
    pub index: usize,
    /// One past the last entry.
    pub top: usize,
    /// The virtual address range the next entry spans.
    pub entry_span: VirtAddrRange,
}

/// The number of entries at `level` that the range at `base` of `length` bytes
/// overlaps: from the entry its first byte lies in to the entry its last byte lies in.
pub open spec fn entry_count(level: int, base: int, length: int) -> int {
    let size = entry_size(level);
    if length <= 0 {
        0
    } else {
        (base + length - 1) / size - base / size + 1
    }
}

/// The entries of the page table at `level`, whose entry 0 starts at `base`, that the
/// virtual address range overlaps: from the entry it starts in to the entry it ends in.
pub fn table_entries(virt_range: VirtAddrRange, level: u8, base: VirtAddr) -> (r: PageTableEntries)
    requires
        usize::BITS == 64,
        level < 4,
        virt_range.spec_base() + virt_range.spec_length() <= usize::MAX + 1,
    ensures
        r.bounds == virt_range,
        r.index == (virt_range.spec_base() as int / entry_size(level as int)) % 512,
        r.top == r.index + entry_count(
            level as int,
            virt_range.spec_base() as int,
            virt_range.spec_length() as int,
        ),
        r.entry_span.spec_base() == incremented(
            base.value() as int,
            r.index * entry_size(level as int),
        ),
        r.entry_span.spec_length() == entry_size(level as int),
{
    let level = level as usize;
    let lo = level_offset(level);
    proof {
        lemma_level_shift(level);
        lemma2_to64();
    }
    let first = virt_range.base().get_page_table_entry(LEVEL_WIDTH, lo);
    let size = 1usize << lo;
    let length = virt_range.length();
    let range_base = virt_range.base().get();
    let base_chunk = range_base >> lo;
    proof {
        lemma_usize_shr_is_div(range_base, lo);
    }
    let entries: usize = if length == 0 {
        0
    } else {
        let last = range_base + (length - 1);
        let last_chunk = last >> lo;
        proof {
            lemma_usize_shr_is_div(last, lo);
            lemma_div_is_ordered(range_base as int, last as int, size as int);
            lemma_div_is_ordered_by_denominator(last as int, 0x1000, size as int);
        }
        last_chunk - base_chunk + 1
    };
    proof {
        assert(first * size <= 512 * 0x80_0000_0000) by (nonlinear_arith)
            requires
                first < 512,
                size <= 0x80_0000_0000,
        ;
        lemma_usize_shl_is_mul(first, lo);
    }
    let span = VirtAddrRange::new(base.increment(first << lo), size);
    PageTableEntries { bounds: virt_range, index: first, top: first + entries, entry_span: span }
}

impl PageTableEntries {
    /// The next entry's index, the part of the bounds it spans and the range it spans;
    /// none past the last entry.
    pub fn next(&mut self) -> (r: Option<(usize, VirtAddrRange, VirtAddrRange)>)
        requires
            old(self).index < old(self).top ==> top_of(old(self).entry_span) <= usize::MAX
                && top_of(old(self).bounds) <= usize::MAX,
        ensures
            old(self).index < old(self).top ==> {
                &&& r matches Some(item)
                &&& item.0 == old(self).index
                &&& match intersection_of(
                    old(self).entry_span.spec_base() as int,
                    old(self).entry_span.spec_length() as int,
                    old(self).bounds.spec_base() as int,
                    old(self).bounds.spec_length() as int,
                ) {
                    Some(bl) => item.1.spec_base() == bl.0 && item.1.spec_length() == bl.1,
                    None => item.1.spec_base() == 0 && item.1.spec_length() == 0,
                }
                &&& item.2 == old(self).entry_span
                &&& final(self).index == old(self).index + 1
                &&& final(self).top == old(self).top
                &&& final(self).bounds == old(self).bounds
                &&& final(self).entry_span.spec_base() == incremented(
                    old(self).entry_span.spec_base() as int,
                    old(self).entry_span.spec_length() as int,
                )
                &&& final(self).entry_span.spec_length() == old(self).entry_span.spec_length()
            },
            old(self).index >= old(self).top ==> r is None && *final(self) == *old(self),
    {
        if self.index < self.top {
            let result = (self.index, self.entry_span.intersection(&self.bounds), self.entry_span);
            self.index = self.index + 1;
            self.entry_span = self.entry_span.step();
            Some(result)
        } else {
            None
        }
    }
}

/// Attributes of the boot mapping of RAM: kernel read, write and execute, as a block,
/// already accessed.
pub open spec fn boot_ram_attributes() -> u64 {
    with_field(
        with_field(
            with_field(
                with_field(with_field(0, AttributeField::KernelRead), AttributeField::KernelWrite),
                AttributeField::KernelExec,
            ),
            AttributeField::Block,
        ),
        AttributeField::Accessed,
    )
}

/// The flag bits of the boot attributes, and the bits of the boot descriptors.
proof fn lemma_boot_descriptor_bits()
    by (bit_vector)
    ensures
        0u64 | (1u64 << 3u64) | (1u64 << 4u64) | (1u64 << 5u64) | (1u64 << 9u64) | (1u64
            << 11u64) == 0xa38u64,
        0xa38u64 & (1u64 << 0u64) == 0,
        0xa38u64 & (1u64 << 1u64) == 0,
        0xa38u64 & (1u64 << 2u64) == 0,
        0xa38u64 & (1u64 << 3u64) != 0,
        0xa38u64 & (1u64 << 4u64) != 0,
        0xa38u64 & (1u64 << 5u64) != 0,
        0xa38u64 & (1u64 << 6u64) == 0,
        0xa38u64 & (1u64 << 11u64) != 0,
        0u64 | (1u64 << 3u64) | (1u64 << 4u64) | (1u64 << 6u64) | (1u64 << 9u64) | (1u64
            << 12u64) == 0x1258u64,
        0x1258u64 & (1u64 << 0u64) == 0,
        0x1258u64 & (1u64 << 1u64) == 0,
        0x1258u64 & (1u64 << 2u64) == 0,
        0x1258u64 & (1u64 << 3u64) != 0,
        0x1258u64 & (1u64 << 4u64) != 0,
        0x1258u64 & (1u64 << 5u64) == 0,
        0x1258u64 & (1u64 << 6u64) != 0,
        0x1258u64 & (1u64 << 11u64) == 0,
        (2u64 << 8u64) | (1u64 << 54u64) | 0u64 | (1u64 << 10u64) | (0u64 << 6u64) | (1u64
            << 2u64) | (1u64 | ((0x40000u64 & 0x7_ffff_ffffu64) << 12u64)) | 0u64 | 0u64
            == 0x40000040000605u64,
        (2u64 << 8u64) | (1u64 << 54u64) | (1u64 << 53u64) | (1u64 << 10u64) | (0u64 << 6u64)
            | (0u64 << 2u64) | (1u64 | ((0u64 & 0x7_ffff_ffffu64) << 12u64)) | 0u64 | 0u64
            == 0x60000000000601u64,
{
}

/// Create a level 1 block descriptor to map the first GB of physical RAM.
pub fn make_boot_ram_descriptor() -> (r: u64)
    ensures
        r == page_block_entry_bits(1, Some(0x4000_0000usize), boot_ram_attributes(), false),
        r == BOOT_RAM_DESCRIPTOR,
{
    let phys_addr = match Arch::ram_range() {
        Ok(range) => range.base(),
        Err(_) => PhysAddr::null(),
    };
    let level: u8 = 1;
    let contiguous = false;
    let attributes = Attributes::kernel_rwx().set(AttributeField::Accessed);
    proof {
        lemma_boot_descriptor_bits();
        assert(boot_ram_attributes() == 0xa38u64);
        assert(access_permissions(boot_ram_attributes()) == Some(0u64));
    }
    PageBlockDescriptor::new_entry(level, Some(phys_addr), attributes, contiguous).get()
}

/// Attributes of the boot mapping of the debug device.
pub open spec fn boot_device_attributes() -> u64 {
    with_field(
        with_field(
            with_field(
                with_field(with_field(0, AttributeField::KernelRead), AttributeField::KernelWrite),
                AttributeField::Device,
            ),
            AttributeField::Block,
        ),
        AttributeField::SuppressMapCount,
    )
}

/// Create a level 1 block descriptor to map the GB that holds the debug device.
pub fn make_boot_device_descriptor() -> (r: u64)
    ensures
        r == page_block_entry_bits(1, Some(0usize), boot_device_attributes(), false),
        r == BOOT_DEVICE_DESCRIPTOR,
{
    let uart = match Arch::debug_uart() {
        Ok(range) => range.base(),
        Err(_) => PhysAddr::null(),
    };
    proof {
        assert(is_power_of_two(GB)) by {
            lemma2_to64();
            assert(GB == pow2(30));
        }
    }
    let phys_addr = uart.align_down(GB);
    let level: u8 = 1;
    let contiguous = false;
    proof {
        lemma_boot_descriptor_bits();
        assert(boot_device_attributes() == 0x1258u64);
        assert(access_permissions(boot_device_attributes()) == Some(0u64));
    }
    PageBlockDescriptor::new_entry(level, Some(phys_addr), Attributes::device(), contiguous).get()
}

} // verus!
