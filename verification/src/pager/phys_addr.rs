//! Type-checked physical addresses.

use super::addr::{Addr, AddrRange, PAGESIZE_BYTES};
use super::virt_addr::VirtAddr;
use vstd::prelude::*;

verus! {

/// A local physical address
#[derive(Copy, Clone, PartialEq, Eq, PartialOrd, Ord, Debug, Structural)]
pub struct PhysAddr(pub usize);

impl Addr for PhysAddr {
    open spec fn value(&self) -> usize {
        self.0
    }

    /// At literal address.
    fn at(addr: usize) -> (r: Self) {
        Self(addr)
    }

    /// Get address as an integer.
    fn get(&self) -> (r: usize) {
        self.0
    }
}

impl PhysAddr {
    /// Construct bottom of physical address range.
    pub fn null() -> (r: Self)
        ensures
            r.value() == 0,
    {
        Self(0)
    }

    /// At virtual address, assuming identity mapping.
    pub fn identity_mapped(virt_addr: VirtAddr) -> (r: Self)
        ensures
            r.value() == virt_addr.value(),
    {
        Self(virt_addr.get())
    }

    /// Page number.
    pub fn page(&self) -> (r: usize)
        ensures
            r == self.value() / PAGESIZE_BYTES,
    {
        self.0 / PAGESIZE_BYTES
    }
}

/// A physical address range.
#[derive(Copy, Clone, PartialEq, Eq, Debug, Structural)]
pub struct PhysAddrRange {
    base: PhysAddr,
    length: usize,
}

impl AddrRange<PhysAddr> for PhysAddrRange {
    closed spec fn spec_base(&self) -> usize {
        self.base.0
    }

    closed spec fn spec_length(&self) -> usize {
        self.length
    }

    fn new(base: PhysAddr, length: usize) -> (r: Self) {
        Self { base, length }
    }

    fn base(&self) -> (r: PhysAddr) {
        self.base
    }

    fn length(&self) -> (r: usize) {
        self.length
    }
}

/// Number of whole or partial pages needed to hold a number of bytes.
pub open spec fn pages_for(length: int) -> int {
    (length + PAGESIZE_BYTES - 1) / (PAGESIZE_BYTES as int)
}

impl PhysAddrRange {
    /// Length of the range in pages, counting a partial page as a page.
    pub fn length_in_pages(&self) -> (r: usize)
        requires
            self.spec_length() + PAGESIZE_BYTES - 1 <= usize::MAX,
        ensures
            r == pages_for(self.spec_length() as int),
    {
        (self.length + (PAGESIZE_BYTES - 1)) / PAGESIZE_BYTES
    }

    /// Iterate over range in chunks of bytes.
    pub fn chunks(&self, bytes: usize) -> (r: PhysAddrRangeIterator)
        ensures
            r@ == (self.spec_base(), self.spec_length(), bytes),
    {
        PhysAddrRangeIterator { base: self.base.0, length: self.length, bytes }
    }
}

/// An iterator over byte-sized chunks of a physical address range.
pub struct PhysAddrRangeIterator {
    base: usize,
    length: usize,
    bytes: usize,
}

impl View for PhysAddrRangeIterator {
    /// (next base, remaining length, chunk size)
    type V = (usize, usize, usize);

    closed spec fn view(&self) -> (usize, usize, usize) {
        (self.base, self.length, self.bytes)
    }
}

impl PhysAddrRangeIterator {
    /// The next chunk's base address, or `None` once the range is exhausted.
    pub fn next(&mut self) -> (r: Option<PhysAddr>)
        requires
            old(self)@.1 == 0 || (old(self)@.2 <= old(self)@.1 && old(self)@.0 + old(self)@.2
                <= usize::MAX),
        ensures
            old(self)@.1 == 0 ==> r is None && final(self)@ == old(self)@,
            old(self)@.1 != 0 ==> r == Some(PhysAddr(old(self)@.0)) && final(self)@ == (
                (old(self)@.0 + old(self)@.2) as usize,
                (old(self)@.1 - old(self)@.2) as usize,
                old(self)@.2,
            ),
    {
        if self.length == 0 {
            return None;
        }
        let result = self.base;
        self.base = self.base + self.bytes;
        self.length = self.length - self.bytes;
        Some(PhysAddr(result))
    }
}

} // verus!
