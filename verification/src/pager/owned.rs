//! A handle for owned kernel-mapped pages.

use super::addr::{Addr, AddrRange};
use super::virt_addr::{VirtAddr, VirtAddrRange};
use vstd::prelude::*;

verus! {

/// An owned mapping of a virtual address range.
#[derive(Debug, Clone, Copy, PartialEq, Eq, Structural)]
pub struct OwnedMapping {
    virt_addr_range: VirtAddrRange,
}

impl View for OwnedMapping {
    /// The mapped range.
    type V = VirtAddrRange;

    closed spec fn view(&self) -> VirtAddrRange {
        self.virt_addr_range
    }
}

impl OwnedMapping {
    /// Make a virtual address range owned.
    pub fn new(virt_addr_range: VirtAddrRange) -> (r: Self)
        ensures
            r@ == virt_addr_range,
    {
        Self { virt_addr_range }
    }

    /// Get the base address of the range.
    pub fn base(&self) -> (r: VirtAddr)
        ensures
            r.value() == self@.spec_base(),
    {
        self.virt_addr_range.base()
    }

    /// Get the range.
    pub fn range(&self) -> (r: VirtAddrRange)
        ensures
            r == self@,
    {
        self.virt_addr_range
    }

    /// Get the length of the range, in bytes.
    pub fn length(&self) -> (r: usize)
        ensures
            r == self@.spec_length(),
    {
        self.virt_addr_range.length()
    }
}

} // verus!
