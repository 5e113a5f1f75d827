//! A mock machine, with the memory layout that the unit tests of the paging code use.

use crate::pager::addr::{Addr, AddrRange};
use crate::pager::phys_addr::{PhysAddr, PhysAddrRange};
use crate::pager::translation::FixedOffset;
use crate::pager::virt_addr::VirtAddr;
use crate::Result;
use vstd::prelude::*;

verus! {

/// The mock machine.
pub struct Arch {}

impl Arch {
    /// Physical address range of RAM.
    pub fn ram_range() -> (r: Result<PhysAddrRange>)
        ensures
            r matches Ok(range) && range.spec_base() == 0x4000_0000 && range.spec_length()
                == 0x4000_0000,
    {
        Ok(PhysAddrRange::between(PhysAddr::at(0x4000_0000), PhysAddr::at(0x8000_0000)))
    }

    /// Base virtual address of the kernel address space.
    pub fn kernel_base() -> (r: VirtAddr)
        requires
            usize::BITS == 64,
        ensures
            r.value() == 0x1_0000_0000_0000,
    {
        VirtAddr::at(0x1_0000_0000_0000u64 as usize)
    }

    /// The offset of the kernel image in virtual memory at boot.
    pub fn kernel_offset() -> (r: FixedOffset)
        requires
            usize::BITS == 64,
        ensures
            r@ == 0x1_4000_0000 - 0x4000_0000,
    {
        FixedOffset::new(PhysAddr::at(0x4000_0000), VirtAddr::at(0x1_4000_0000u64 as usize))
    }

    /// Physical address range of the kernel code.
    pub fn text_image() -> (r: PhysAddrRange)
        ensures
            r.spec_base() == 0x4008_0000 && r.spec_length() == 0x1_8000,
    {
        PhysAddrRange::new(PhysAddr::at(0x4008_0000), 0x1_8000)
    }

    /// Physical address range of the kernel read-only data.
    pub fn static_image() -> (r: PhysAddrRange)
        ensures
            r.spec_base() == 0x4009_8000 && r.spec_length() == 0x1000,
    {
        PhysAddrRange::new(PhysAddr::at(0x4009_8000), 0x1000)
    }

    /// Physical address range of the kernel dynamic data.
    pub fn data_image() -> (r: PhysAddrRange)
        ensures
            r.spec_base() == 0x4009_9000 && r.spec_length() == 0x1000,
    {
        PhysAddrRange::new(PhysAddr::at(0x4009_9000), 0x1000)
    }

    /// Initialise virtual memory management: nothing to do on the mock machine.
    pub fn pager_init() -> (r: Result<()>)
        ensures
            r is Ok,
    {
        Ok(())
    }
}

impl super::HandlerTrait for Arch {
    fn handler_init() -> (r: Result<()>)
        ensures
            r is Ok,
    {
        Ok(())
    }
}

} // verus!
