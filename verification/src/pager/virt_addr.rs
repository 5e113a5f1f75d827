//! Type-checked virtual addresses.

use super::addr::{intersection_of, Addr, AddrRange, PAGESIZE_BYTES};
use super::phys_addr::{pages_for, PhysAddr, PhysAddrRange};
use vstd::arithmetic::power2::{lemma_pow2_pos, pow2};
use vstd::bits::{
    lemma_usize_low_bits_mask_is_mod, lemma_usize_pow2_no_overflow, lemma_usize_shl_is_mul,
    lemma_usize_shr_is_div, low_bits_mask,
};
use vstd::prelude::*;

verus! {

/// A local (if kernel range), or a cluster-wide (if low range) virtual address.
#[derive(Copy, Clone, PartialEq, Eq, PartialOrd, Ord, Debug, Structural)]
pub struct VirtAddr(pub usize);

impl Addr for VirtAddr {
    open spec fn value(&self) -> usize {
        self.0
    }

    fn at(addr: usize) -> (r: Self) {
        Self(addr)
    }

    fn get(&self) -> (r: usize) {
        self.0
    }
}

impl VirtAddr {
    /// Construct from the address of a linker symbol.
    pub fn from_linker_symbol(sym: usize) -> (r: Self)
        ensures
            r.value() == sym,
    {
        Self(sym)
    }

    /// Construct bottom of virtual address range.
    pub fn null() -> (r: Self)
        ensures
            r.value() == 0,
    {
        Self(0)
    }

    /// Create a virtual address from a physical address.
    ///
    /// The virtual address can only be dereferenced when identity mapping is in place
    /// before paging is enabled or if physical memory is identity mapped.
    pub fn identity_mapped(phys_addr: PhysAddr) -> (r: Self)
        ensures
            r.value() == phys_addr.value(),
    {
        Self(phys_addr.get())
    }

    /// Extract the page table entry number at a given level offset: the `width`
    /// bits of the address starting at bit `offset`.
    pub fn get_page_table_entry(self, width: usize, offset: usize) -> (r: usize)
        requires
            width < usize::BITS,
            offset < usize::BITS,
        ensures
            r == (self.value() as int / pow2(offset as nat) as int) % (pow2(width as nat) as int),
    {
        proof {
            lemma_usize_shr_is_div(self.0, offset);
            lemma_usize_pow2_no_overflow(width as nat);
            lemma_pow2_pos(width as nat);
            lemma_usize_shl_is_mul(1, width);
            lemma_usize_low_bits_mask_is_mod(self.0 >> offset, width as nat);
        }
        (self.0 >> offset) & ((1usize << width) - 1)
    }
}

/// A virtual address range.
#[derive(Copy, Clone, PartialEq, Eq, Debug, Structural)]
pub struct VirtAddrRange {
    base: VirtAddr,
    length: usize,
}

impl AddrRange<VirtAddr> for VirtAddrRange {
    closed spec fn spec_base(&self) -> usize {
        self.base.0
    }

    closed spec fn spec_length(&self) -> usize {
        self.length
    }

    fn new(base: VirtAddr, length: usize) -> (r: Self) {
        Self { base, length }
    }

    fn base(&self) -> (r: VirtAddr) {
        self.base
    }

    fn length(&self) -> (r: usize) {
        self.length
    }
}

impl VirtAddrRange {
    /// The range at `base` of `length` bytes.
    pub closed spec fn spec_range(base: usize, length: usize) -> VirtAddrRange {
        VirtAddrRange { base: VirtAddr(base), length }
    }
}

/// The range made of a base and length has them.
pub broadcast proof fn lemma_spec_range(base: usize, length: usize)
    ensures
        (#[trigger] VirtAddrRange::spec_range(base, length)).spec_base() == base,
        VirtAddrRange::spec_range(base, length).spec_length() == length,
{
}

/// Ranges with the same base and length are equal.
pub proof fn lemma_range_ext(a: VirtAddrRange, b: VirtAddrRange)
    requires
        a.spec_base() == b.spec_base(),
        a.spec_length() == b.spec_length(),
    ensures
        a == b,
{
}

/// The top of a range as an integer.
pub open spec fn top_of(r: VirtAddrRange) -> int {
    r.spec_base() + r.spec_length()
}

impl VirtAddrRange {
    /// Create a range between the addresses of two linker symbols.
    pub fn from_linker_symbols(sym_base: usize, sym_top: usize) -> (r: Self)
        requires
            sym_base <= sym_top,
        ensures
            r.spec_base() == sym_base,
            r.spec_length() == sym_top - sym_base,
    {
        let base = VirtAddr::from_linker_symbol(sym_base);
        let top = VirtAddr::from_linker_symbol(sym_top);
        Self { base, length: top.0 - base.0 }
    }

    /// Identity mapped from physical address range.
    pub fn identity_mapped(phys_addr_range: PhysAddrRange) -> (r: Self)
        ensures
            r.spec_base() == phys_addr_range.spec_base(),
            r.spec_length() == phys_addr_range.spec_length(),
    {
        Self::new(VirtAddr::identity_mapped(phys_addr_range.base()), phys_addr_range.length())
    }

    /// Length of the range in pages, counting a partial page as a page.
    pub fn length_in_pages(&self) -> (r: usize)
        requires
            self.spec_length() + PAGESIZE_BYTES - 1 <= usize::MAX,
        ensures
            r == pages_for(self.spec_length() as int),
    {
        (self.length + (PAGESIZE_BYTES - 1)) / PAGESIZE_BYTES
    }

    /// The overlap of two ranges, or the empty range at null where they do not meet.
    pub fn intersection(&self, other: &Self) -> (r: VirtAddrRange)
        requires
            top_of(*self) <= usize::MAX,
            top_of(*other) <= usize::MAX,
        ensures
            match intersection_of(
                self.spec_base() as int,
                self.spec_length() as int,
                other.spec_base() as int,
                other.spec_length() as int,
            ) {
                Some(bl) => r.spec_base() == bl.0 && r.spec_length() == bl.1,
                None => r.spec_base() == 0 && r.spec_length() == 0,
            },
    {
        let base = if self.base.0 >= other.base.0 {
            self.base.0
        } else {
            other.base.0
        };
        let low_top = if self.top().0 <= other.top().0 {
            self.top().0
        } else {
            other.top().0
        };
        let top = low_top;
        if base > low_top {
            return VirtAddrRange::new(VirtAddr::null(), 0);
        }
        VirtAddrRange { base: VirtAddr(base), length: (top - base) as usize }
    }

    /// Increment the range by its length (to null base where that passes the top of memory).
    pub fn step(&self) -> (r: Self)
        ensures
            r.spec_base() == (if top_of(*self) <= usize::MAX {
                top_of(*self)
            } else {
                0
            }),
            r.spec_length() == self.spec_length(),
    {
        Self { base: self.base.increment(self.length), length: self.length }
    }

    /// True iff the range extends to at least the base and top of other.
    pub fn covers(&self, other: &Self) -> (r: bool)
        requires
            top_of(*self) <= usize::MAX,
            top_of(*other) <= usize::MAX,
        ensures
            r == (self.spec_base() <= other.spec_base() && top_of(*other) <= top_of(*self)),
    {
        self.base.0 <= other.base.0 && self.top().0 >= other.top().0
    }
}

} // verus!
