//! Managing virtual address space, address translation and page allocation.

pub mod addr;

pub use addr::{is_power_of_two, Addr, AddrRange, PAGESIZE_BYTES};
pub mod phys_addr;
pub mod virt_addr;

pub use phys_addr::{PhysAddr, PhysAddrRange, PhysAddrRangeIterator};
pub use virt_addr::{VirtAddr, VirtAddrRange};
pub mod deque;
pub mod translation;

pub use translation::{FixedOffset, Identity, NullTranslation, Translate};
pub mod attributes;

pub use attributes::{AttributeField, Attributes};
pub mod bump;

pub use bump::PageBumpAllocator;
pub mod owned;
pub mod page;
pub mod range_entry;

pub use owned::OwnedMapping;
pub use page::Page;
pub mod frames;

pub use frames::Purpose as FramePurpose;
pub mod frame_table;
pub mod layout;
pub mod paging;
