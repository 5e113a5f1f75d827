//! Devices: the memory range of a device-tree `reg` property, and the vocabulary of
//! block devices.

pub mod tree;
pub mod virtio;

use crate::pager::addr::{Addr, AddrRange};
use crate::pager::phys_addr::{PhysAddr, PhysAddrRange};
use crate::{Error, Result};
use vstd::prelude::*;

verus! {

/// The 64-bit value of a pair of 32-bit cells, high cell first.
pub open spec fn cell_pair(hi: u32, lo: u32) -> int {
    hi * 0x1_0000_0000 + lo
}

/// The address range of a `reg` property's cells: a base and a length, each a pair of
/// 32-bit cells, high cell first.
pub fn make_addr_range(cells: &[u32]) -> (r: Result<PhysAddrRange>)
    requires
        usize::BITS == 64,
    ensures
        cells@.len() >= 4 ==> (r matches Ok(range) && range.spec_base() == cell_pair(
            cells@[0],
            cells@[1],
        ) && range.spec_length() == cell_pair(cells@[2], cells@[3])),
        cells@.len() < 4 ==> r == Err::<PhysAddrRange, Error>(Error::DeviceIncompatible),
{
    if cells.len() < 4 {
        return Err(Error::DeviceIncompatible);
    }
    let base = pair_value(cells[0], cells[1]);
    let length = pair_value(cells[2], cells[3]);
    Ok(PhysAddrRange::new(PhysAddr::at(base), length))
}

/// The 64-bit value of a pair of 32-bit cells.
fn pair_value(hi: u32, lo: u32) -> (r: usize)
    requires
        usize::BITS == 64,
    ensures
        r == cell_pair(hi, lo),
{
    let h = hi as usize;
    let l = lo as usize;
    proof {
        assert((h << 32usize) | l == h * 0x1_0000_0000 + l)
            by (bit_vector)
            requires
                usize::BITS == 64,
                h <= 0xffff_ffff,
                l <= 0xffff_ffff,
        ;
    }
    (h << 32usize) | l
}

/// Status of a block device request.
#[derive(Copy, Clone, Debug, PartialEq, Eq, Structural)]
pub enum RequestStatus {
    /// Done (the device reports it as ok).
    Done,
    /// Failed.
    IOErr,
    /// Not supported.
    Unsupp,
    /// Not yet done.
    Init,
}

impl RequestStatus {
    /// The status as the device reports it.
    pub fn code(self) -> (r: u8)
        ensures
            r == match self {
                RequestStatus::Done => 0u8,
                RequestStatus::IOErr => 1,
                RequestStatus::Unsupp => 2,
                RequestStatus::Init => 0xff,
            },
    {
        match self {
            RequestStatus::Done => 0,
            RequestStatus::IOErr => 1,
            RequestStatus::Unsupp => 2,
            RequestStatus::Init => 0xff,
        }
    }
}

/// Identifies a block device request.
#[derive(Copy, Clone, Debug, PartialEq, Eq, PartialOrd, Ord, Structural)]
pub struct RequestId(pub u16);

/// A sector of a block device.
#[derive(Copy, Clone, Debug, PartialEq, Eq, Structural)]
pub struct Sector(pub u64);

/// A block device.
pub trait Block {
    /// The device's name.
    fn name(&self) -> String;

    /// The status of a request.
    fn status(&mut self, id: RequestId) -> Result<u32>;

    /// Read sectors into the pages.
    fn read(&mut self, page_addrs: &[PhysAddr], sector: Sector) -> Result<RequestId>;

    /// Write sectors from the pages.
    fn write(&mut self, page_addrs: &[PhysAddr], sector: Sector) -> Result<RequestId>;

    /// Discard sectors.
    fn discard(&mut self, sector: Sector, pages: usize) -> Result<RequestId>;

    /// Zero sectors.
    fn zero(&mut self, sector: Sector, pages: usize) -> Result<RequestId>;

    /// Flush writes.
    fn flush(&mut self) -> Result<RequestId>;
}

} // verus!
