//! The kernel's paging: mapping the ranges of the kernel layout, and device memory,
//! into the kernel's page directory.

use super::addr::{Addr, AddrRange, PAGESIZE_BYTES};
use super::attributes::{with_field, AttributeField, Attributes};
use super::bump::{bump, PageBumpAllocator};
use super::frames::{zeroed_frame, zeroed_table, FrameTable, Purpose};
use super::layout::{
    kernel_range_of, layout, layout_extent, placeable, LayoutSources, RangeContent, GB, LAYOUT_LEN,
};
use super::owned::OwnedMapping;
use super::phys_addr::{pages_for, PhysAddr, PhysAddrRange};
use super::translation::{FixedOffset, Identity, NullTranslation};
use super::virt_addr::{VirtAddr, VirtAddrRange};
use crate::archs::aarch64::map::{memory_state, translation_outcome};
use crate::archs::aarch64::pager::{incremented, Arch, PageDirectory};
use crate::archs::aarch64::table::{device_strongly_ordered, PageTableEntry};
use crate::archs::aarch64::walk::PageTableMemory;
use crate::archs::aarch64::written::{
    attr_index, kernel_leaf, kernel_leaf_attributes, lemma_translation_writes,
    lemma_writes_kernel_leaves, lemma_writes_kernel_leaves_trans, lemma_written_device,
    lemma_written_kernel_leaf, writes_kernel_leaves,
};
use super::attributes::{
    has_exactly, has_field, lemma_has_exactly_empty, lemma_has_exactly_with, lemma_set_then_is_set,
};
use super::layout::lemma_layout_attributes;
use crate::{Error, Result};
use vstd::prelude::*;

verus! {

/// The kernel's paging state: its page directory, the memory of its page tables, how
/// that memory is reached, and the allocator of the device part of its address space.
pub struct Pager {
    /// The kernel's page directory.
    pub page_directory: PageDirectory,
    /// The page tables.
    pub memory: PageTableMemory,
    /// How page tables are reached from their physical addresses.
    pub mem_access_translation: FixedOffset,
    /// Free virtual address space for devices.
    pub device_mem_allocator: PageBumpAllocator,
}

/// The state of paging: the directory, the allocator of device address space, and the
/// state of page-table memory.
pub open spec fn pager_state(p: &Pager) -> (
    PageDirectory,
    (usize, usize),
    (Seq<Seq<PageTableEntry>>, nat),
) {
    (p.page_directory, p.device_mem_allocator@, memory_state(&p.memory))
}

/// The flag bits of device memory.
pub open spec fn device_bits() -> u64 {
    with_field(
        with_field(
            with_field(
                with_field(with_field(0, AttributeField::KernelRead), AttributeField::KernelWrite),
                AttributeField::Device,
            ),
            AttributeField::Block,
        ),
        AttributeField::SuppressMapCount,
    )
}

/// What mapping the ranges of the layout from range `i` on, placed from `next_base`, and
/// then the debug UART where it is, gives from paging state `st` (page-table memory at
/// `base` reached through `mat`): each range's physical range mapped at its base, with
/// its attributes and accessed; the device range handed to the device allocator; the
/// heap mapped with no physical memory behind it. The result and the state afterwards,
/// or none where a step would fail on a precondition.
pub open spec fn ranges_outcome(
    sources: LayoutSources,
    mat: FixedOffset,
    base: int,
    st: (PageDirectory, (usize, usize), (Seq<Seq<PageTableEntry>>, nat)),
    i: int,
    next_base: int,
) -> Option<(Result<()>, (PageDirectory, (usize, usize), (Seq<Seq<PageTableEntry>>, nat)))>
    decreases LAYOUT_LEN - i,
{
    if i >= LAYOUT_LEN {
        match translation_outcome(
            st.0,
            Identity,
            device_bits(),
            mat,
            base,
            st.2,
            0x900_0000,
            0x1000,
        ) {
            None => None,
            Some((r, s2, d2)) => Some((r, (d2, st.1, s2))),
        }
    } else if next_base < 0 || next_base + GB - 1 > usize::MAX || sources.ram.spec_base()
        > sources.text.spec_base() {
        None
    } else {
        let kr = kernel_range_of(next_base, layout_extent(i, sources));
        let kb = kr.virt_addr_range.spec_base() as int;
        let kl = kr.virt_addr_range.spec_length() as int;
        let mapped = match kr.phys_addr_range {
            None => Some((Ok(()), st.2, st.0)),
            Some(p) => if p.spec_base() > kb {
                None
            } else {
                translation_outcome(
                    st.0,
                    FixedOffset::spec_of((kb - p.spec_base()) as usize),
                    with_field(kr.attributes@, AttributeField::Accessed),
                    mat,
                    base,
                    st.2,
                    kb,
                    p.spec_length() as int,
                )
            },
        };
        match mapped {
            None => None,
            Some((Err(e), s2, d2)) => Some((Err(e), (d2, st.1, s2))),
            Some((Ok(_), s2, d2)) => {
                let next = incremented(kb, kl);
                if kr.content == RangeContent::Device {
                    if kl + PAGESIZE_BYTES > usize::MAX || kb + kl > usize::MAX {
                        None
                    } else {
                        ranges_outcome(
                            sources,
                            mat,
                            base,
                            (d2, (pages_for(kl) as usize, (kb + kl) as usize), s2),
                            i + 1,
                            next,
                        )
                    }
                } else if kr.content == RangeContent::Heap {
                    match translation_outcome(
                        d2,
                        NullTranslation,
                        kr.attributes@,
                        mat,
                        base,
                        s2,
                        kb,
                        kl,
                    ) {
                        None => None,
                        Some((Err(e), s3, d3)) => Some((Err(e), (d3, st.1, s3))),
                        Some((Ok(_), s3, d3)) => ranges_outcome(
                            sources,
                            mat,
                            base,
                            (d3, st.1, s3),
                            i + 1,
                            next,
                        ),
                    }
                } else {
                    ranges_outcome(sources, mat, base, (d2, st.1, s2), i + 1, next)
                }
            },
        }
    }
}

impl Pager {
    /// Paging with an empty directory over page-table memory, reached through a fixed
    /// offset, and no device address space yet.
    pub fn new(memory: PageTableMemory, mem_access_translation: FixedOffset) -> (r: Self)
        ensures
            r.page_directory.ttb0 is None,
            r.page_directory.ttb1 is None,
            r.memory == memory,
            r.mem_access_translation == mem_access_translation,
            r.device_mem_allocator@ == (0usize, 0usize),
    {
        Pager {
            page_directory: PageDirectory::new(),
            memory,
            mem_access_translation,
            device_mem_allocator: PageBumpAllocator::new(),
        }
    }

    /// Map the ranges of the kernel layout over a machine's physical ranges, then the
    /// debug UART where it is.
    pub fn map_ranges(&mut self, sources: LayoutSources) -> (r: Result<()>)
        requires
            usize::BITS == 64,
            old(self).memory.wf(),
            ranges_outcome(
                sources,
                old(self).mem_access_translation,
                old(self).memory.spec_base() as int,
                pager_state(old(self)),
                0,
                sources.kernel_base.value() as int,
            ) is Some,
        ensures
            final(self).memory.wf(),
            final(self).memory.spec_base() == old(self).memory.spec_base(),
            final(self).mem_access_translation == old(self).mem_access_translation,
            ({
                let outcome = ranges_outcome(
                    sources,
                    old(self).mem_access_translation,
                    old(self).memory.spec_base() as int,
                    pager_state(old(self)),
                    0,
                    sources.kernel_base.value() as int,
                ).unwrap();
                &&& r is Ok <==> outcome.0 is Ok
                &&& outcome.0 matches Err(e) ==> r == Err::<(), Error>(e)
                &&& pager_state(final(self)) == outcome.1
            }),
            final(self).memory.count() == old(self).memory.count(),
            forall|t: int, i: int|
                0 <= t < old(self).memory.count() && 0 <= i < 512 
                    && #[trigger] final(self).memory.entry_at(t, i) != old(self).memory.entry_at(t, i)
                    ==> kernel_leaf(final(self).memory.entry_at(t, i)),
    {
        proof {
            lemma_ranges_outcome_writes(
                sources,
                self.mem_access_translation,
                self.memory.spec_base() as int,
                pager_state(self),
                0,
                sources.kernel_base.value() as int,
            );
        }
        self.map_layout_ranges(sources)
    }

    /// Map the ranges of the kernel layout, then the debug UART, as `ranges_outcome` says.
    fn map_layout_ranges(&mut self, sources: LayoutSources) -> (r: Result<()>)
        requires
            usize::BITS == 64,
            old(self).memory.wf(),
            ranges_outcome(
                sources,
                old(self).mem_access_translation,
                old(self).memory.spec_base() as int,
                pager_state(old(self)),
                0,
                sources.kernel_base.value() as int,
            ) is Some,
        ensures
            final(self).memory.wf(),
            final(self).memory.spec_base() == old(self).memory.spec_base(),
            final(self).mem_access_translation == old(self).mem_access_translation,
            ({
                let outcome = ranges_outcome(
                    sources,
                    old(self).mem_access_translation,
                    old(self).memory.spec_base() as int,
                    pager_state(old(self)),
                    0,
                    sources.kernel_base.value() as int,
                ).unwrap();
                &&& r is Ok <==> outcome.0 is Ok
                &&& outcome.0 matches Err(e) ==> r == Err::<(), Error>(e)
                &&& pager_state(final(self)) == outcome.1
            }),
    {
        let ghost mat = self.mem_access_translation;
        let ghost base = self.memory.spec_base() as int;
        let ghost goal = ranges_outcome(
            sources,
            mat,
            base,
            pager_state(self),
            0,
            sources.kernel_base.value() as int,
        ).unwrap();
        let mut iter = match layout(sources) {
            Ok(l) => l.into_iter(),
            Err(e) => {
                return Err(e);
            },
        };
        while iter.i < LAYOUT_LEN
            invariant
                usize::BITS == 64,
                self.memory.wf(),
                self.memory.spec_base() == base,
                self.mem_access_translation == mat,
                mat == old(self).mem_access_translation,
                base == old(self).memory.spec_base(),
                iter.sources == sources,
                iter.i <= LAYOUT_LEN,
                goal == ranges_outcome(
                    sources,
                    old(self).mem_access_translation,
                    old(self).memory.spec_base() as int,
                    pager_state(old(self)),
                    0,
                    sources.kernel_base.value() as int,
                ).unwrap(),
                ranges_outcome(
                    sources,
                    mat,
                    base,
                    pager_state(self),
                    iter.i as int,
                    iter.next_base.value() as int,
                ) == Some(goal),
            ensures
                self.memory.wf(),
                self.memory.spec_base() == base,
                self.mem_access_translation == mat,
                iter.i >= LAYOUT_LEN,
                ranges_outcome(
                    sources,
                    mat,
                    base,
                    pager_state(self),
                    iter.i as int,
                    iter.next_base.value() as int,
                ) == Some(goal),
            decreases LAYOUT_LEN - iter.i,
        {
            let kernel_range = match iter.next() {
                Some(kernel_range) => kernel_range,
                None => {
                    break ;
                },
            };
            if let Some(phys_addr_range) = kernel_range.phys_addr_range {
                let attributes = kernel_range.attributes.set(AttributeField::Accessed);
                let translation = FixedOffset::new(
                    phys_addr_range.base(),
                    kernel_range.virt_addr_range.base(),
                );
                proof {
                    broadcast use crate::pager::translation::lemma_fixed_offset_of;

                    crate::pager::translation::lemma_fixed_offset_ext(
                        translation,
                        FixedOffset::spec_of(translation@),
                    );
                }
                match self.page_directory.map_translation(
                    kernel_range.virt_addr_range.resize(phys_addr_range.length()),
                    translation,
                    attributes,
                    &mut self.memory,
                    &self.mem_access_translation,
                ) {
                    Ok(_) => {},
                    Err(e) => {
                        return Err(e);
                    },
                }
            }
            if kernel_range.content == RangeContent::Device {
                match self.device_mem_allocator.reset(kernel_range.virt_addr_range) {
                    Ok(_) => {},
                    Err(e) => {
                        return Err(e);
                    },
                }
            } else if kernel_range.content == RangeContent::Heap {
                match self.page_directory.map_translation(
                    kernel_range.virt_addr_range,
                    NullTranslation::new(),
                    kernel_range.attributes,
                    &mut self.memory,
                    &self.mem_access_translation,
                ) {
                    Ok(_) => {},
                    Err(e) => {
                        return Err(e);
                    },
                }
            }
        }
        let uart = match Arch::debug_uart() {
            Ok(uart) => uart,
            Err(e) => {
                return Err(e);
            },
        };
        let result = self.page_directory.map_translation(
            VirtAddrRange::identity_mapped(uart),
            Identity::new(),
            Attributes::device(),
            &mut self.memory,
            &self.mem_access_translation,
        );
        match result {
            Ok(_) => Ok(()),
            Err(e) => Err(e),
        }
    }
}

/// What mapping a device's physical range gives from paging state `st`: the range
/// takes as many pages from the top of the device address space as it spans
/// (`OutOfMemory` where fewer are left) and is mapped there as device memory. The result
/// (the base and length of the mapping) and the state afterwards, or none where a step
/// would fail on a precondition.
pub open spec fn device_outcome(
    phys_base: int,
    phys_length: int,
    mat: FixedOffset,
    base: int,
    st: (PageDirectory, (usize, usize), (Seq<Seq<PageTableEntry>>, nat)),
) -> Option<(Result<(int, int)>, (PageDirectory, (usize, usize), (Seq<Seq<PageTableEntry>>, nat)))> {
    if phys_length + PAGESIZE_BYTES > usize::MAX {
        None
    } else {
        let pages = pages_for(phys_length) as usize;
        if pages <= st.1.0 && pages * PAGESIZE_BYTES > st.1.1 {
            None
        } else {
            match bump(st.1, pages) {
                None => Some((Err(Error::OutOfMemory), st)),
                Some((devices, (vb, vl))) => if phys_base > vb {
                    None
                } else {
                    match translation_outcome(
                        st.0,
                        FixedOffset::spec_of((vb - phys_base) as usize),
                        device_bits(),
                        mat,
                        base,
                        st.2,
                        vb,
                        vl,
                    ) {
                        None => None,
                        Some((Err(e), s2, d2)) => Some((Err(e), (d2, devices, s2))),
                        Some((Ok(_), s2, d2)) => Some((Ok((vb, vl)), (d2, devices, s2))),
                    }
                },
            }
        }
    }
}

impl Pager {
    /// Map a memory-mapped device's physical range to the next free pages of the device
    /// part of the kernel address space, as device memory.
    pub fn map_device(&mut self, phys_addr_range: PhysAddrRange) -> (r: Result<OwnedMapping>)
        requires
            usize::BITS == 64,
            old(self).memory.wf(),
            device_outcome(
                phys_addr_range.spec_base() as int,
                phys_addr_range.spec_length() as int,
                old(self).mem_access_translation,
                old(self).memory.spec_base() as int,
                pager_state(old(self)),
            ) is Some,
        ensures
            final(self).memory.wf(),
            final(self).memory.spec_base() == old(self).memory.spec_base(),
            final(self).mem_access_translation == old(self).mem_access_translation,
            ({
                let outcome = device_outcome(
                    phys_addr_range.spec_base() as int,
                    phys_addr_range.spec_length() as int,
                    old(self).mem_access_translation,
                    old(self).memory.spec_base() as int,
                    pager_state(old(self)),
                ).unwrap();
                &&& outcome.0 matches Ok(range) ==> (r matches Ok(m) && m@.spec_base() == range.0
                    && m@.spec_length() == range.1)
                &&& outcome.0 matches Err(e) ==> r == Err::<OwnedMapping, Error>(e)
                &&& pager_state(final(self)) == outcome.1
            }),
            final(self).memory.count() == old(self).memory.count(),
            forall|t: int, i: int|
                0 <= t < old(self).memory.count() && 0 <= i < 512 
                    && #[trigger] final(self).memory.entry_at(t, i) != old(self).memory.entry_at(t, i) ==> {
                    &&& attr_index(final(self).memory.entry_at(t, i)) == device_strongly_ordered()
                    &&& kernel_leaf(final(self).memory.entry_at(t, i))
                },
    {
        proof {
            lemma_device_outcome_writes(
                phys_addr_range.spec_base() as int,
                phys_addr_range.spec_length() as int,
                self.mem_access_translation,
                self.memory.spec_base() as int,
                pager_state(self),
            );
        }
        let virt_addr_range = match self.device_mem_allocator.allocate(
            phys_addr_range.length_in_pages(),
        ) {
            Ok(range) => range,
            Err(e) => {
                return Err(e);
            },
        };
        let translation = FixedOffset::new(phys_addr_range.base(), virt_addr_range.base());
        proof {
            broadcast use crate::pager::translation::lemma_fixed_offset_of;

            crate::pager::translation::lemma_fixed_offset_ext(
                translation,
                FixedOffset::spec_of(translation@),
            );
        }
        match self.page_directory.map_translation(
            virt_addr_range,
            translation,
            Attributes::device(),
            &mut self.memory,
            &self.mem_access_translation,
        ) {
            Ok(range) => Ok(OwnedMapping::new(range)),
            Err(e) => Err(e),
        }
    }
}

/// What mapping `pages` zeroed pages of memory for DMA gives from paging state `st` and
/// frame table `frames`: the pages are taken from the top of the device address space
/// (`OutOfMemory` where fewer are left), a zeroed frame is reserved for DMA (where that
/// fails, its error ends the mapping), and the pages are mapped to the frame as device
/// memory. The result (the base and length of the mapping, and the virtual address of
/// the frame where it still has to be filled with zeros) and the paging state
/// afterwards, or none where a step would fail on a precondition.
pub open spec fn dma_outcome(
    pages: int,
    frames: FrameTable,
    mat: FixedOffset,
    base: int,
    st: (PageDirectory, (usize, usize), (Seq<Seq<PageTableEntry>>, nat)),
) -> Option<
    (
        Result<((int, int), Option<VirtAddr>)>,
        (PageDirectory, (usize, usize), (Seq<Seq<PageTableEntry>>, nat)),
    ),
> {
    if pages <= st.1.0 && pages * PAGESIZE_BYTES > st.1.1 {
        None
    } else {
        match bump(st.1, pages as usize) {
            None => Some((Err(Error::OutOfMemory), st)),
            Some((devices, (vb, vl))) => match zeroed_frame(frames, Purpose::DirectMemoryAccess) {
                Err(e) => Some((Err(e), (st.0, devices, st.2))),
                Ok((pa, zero)) => if pa.value() > vb {
                    None
                } else {
                    match translation_outcome(
                        st.0,
                        FixedOffset::spec_of((vb - pa.value()) as usize),
                        device_bits(),
                        mat,
                        base,
                        st.2,
                        vb,
                        vl,
                    ) {
                        None => None,
                        Some((Err(e), s2, d2)) => Some((Err(e), (d2, devices, s2))),
                        Some((Ok(_), s2, d2)) => Some((Ok(((vb, vl), zero)), (d2, devices, s2))),
                    }
                },
            },
        }
    }
}

impl Pager {
    /// Map zeroed memory for DMA, `contiguous_pages` pages (at most one), to the next free
    /// pages of the device part of the kernel address space, as device memory, with the
    /// frame reserved from the frame table; the mapping comes with the virtual address of
    /// the frame where it still has to be filled with zeros. The frame table changes only
    /// where the pages were taken.
    pub fn map_dma(&mut self, contiguous_pages: u8, frames: &mut FrameTable) -> (r: Result<
        (OwnedMapping, Option<VirtAddr>),
    >)
        requires
            usize::BITS == 64,
            contiguous_pages <= 1,
            old(self).memory.wf(),
            old(frames).wf(),
            dma_outcome(
                contiguous_pages as int,
                *old(frames),
                old(self).mem_access_translation,
                old(self).memory.spec_base() as int,
                pager_state(old(self)),
            ) is Some,
        ensures
            final(self).memory.wf(),
            final(self).memory.spec_base() == old(self).memory.spec_base(),
            final(self).mem_access_translation == old(self).mem_access_translation,
            final(frames).wf(),
            ({
                let outcome = dma_outcome(
                    contiguous_pages as int,
                    *old(frames),
                    old(self).mem_access_translation,
                    old(self).memory.spec_base() as int,
                    pager_state(old(self)),
                ).unwrap();
                &&& outcome.0 matches Ok((range, zero)) ==> (r matches Ok((m, z))
                    && m@.spec_base() == range.0 && m@.spec_length() == range.1 && z == zero)
                &&& outcome.0 matches Err(e) ==> r == Err::<(OwnedMapping, Option<VirtAddr>), Error>(
                    e,
                )
                &&& pager_state(final(self)) == outcome.1
            }),
            bump(old(self).device_mem_allocator@, contiguous_pages as usize) is None ==> *final(frames)
                == *old(frames),
            bump(old(self).device_mem_allocator@, contiguous_pages as usize) is Some ==> zeroed_table(
                *old(frames),
                *final(frames),
                Purpose::DirectMemoryAccess,
            ),
    {
        let virt_addr_range = match self.device_mem_allocator.allocate(contiguous_pages as usize) {
            Ok(range) => range,
            Err(e) => {
                return Err(e);
            },
        };
        let (phys_addr_page, zero_at) = match frames.alloc_zeroed(Purpose::DirectMemoryAccess) {
            Ok(frame) => frame,
            Err(e) => {
                return Err(e);
            },
        };
        let translation = FixedOffset::new(phys_addr_page, virt_addr_range.base());
        proof {
            broadcast use crate::pager::translation::lemma_fixed_offset_of;

            crate::pager::translation::lemma_fixed_offset_ext(
                translation,
                FixedOffset::spec_of(translation@),
            );
        }
        match self.page_directory.map_translation(
            virt_addr_range,
            translation,
            Attributes::device(),
            &mut self.memory,
            &self.mem_access_translation,
        ) {
            Ok(range) => Ok((OwnedMapping::new(range), zero_at)),
            Err(e) => Err(e),
        }
    }
}

/// Device memory attributes: privileged read-write device memory in blocks, not counted
/// as mapped.
proof fn lemma_device_bits_fields()
    ensures
        has_exactly(
            device_bits(),
            set![
                AttributeField::KernelRead,
                AttributeField::KernelWrite,
                AttributeField::Device,
                AttributeField::Block,
                AttributeField::SuppressMapCount,
            ],
        ),
        has_field(device_bits(), AttributeField::Device),
        kernel_leaf_attributes(device_bits()),
{
    let e0 = Set::<AttributeField>::empty();
    lemma_has_exactly_empty();
    let r = with_field(0, AttributeField::KernelRead);
    lemma_has_exactly_with(0, e0, AttributeField::KernelRead);
    let s1 = e0.insert(AttributeField::KernelRead);
    let rw = with_field(r, AttributeField::KernelWrite);
    lemma_has_exactly_with(r, s1, AttributeField::KernelWrite);
    let s2 = s1.insert(AttributeField::KernelWrite);
    let rwd = with_field(rw, AttributeField::Device);
    lemma_has_exactly_with(rw, s2, AttributeField::Device);
    let s3 = s2.insert(AttributeField::Device);
    let rwdb = with_field(rwd, AttributeField::Block);
    lemma_has_exactly_with(rwd, s3, AttributeField::Block);
    let s4 = s3.insert(AttributeField::Block);
    lemma_has_exactly_with(rwdb, s4, AttributeField::SuppressMapCount);
    let s5 = s4.insert(AttributeField::SuppressMapCount);
    assert(s5 =~= set![
        AttributeField::KernelRead,
        AttributeField::KernelWrite,
        AttributeField::Device,
        AttributeField::Block,
        AttributeField::SuppressMapCount,
    ]);
    assert(has_field(device_bits(), AttributeField::Device));
    assert(!has_field(device_bits(), AttributeField::UserRead));
    assert(!has_field(device_bits(), AttributeField::UserWrite));
    assert(!has_field(device_bits(), AttributeField::UserExec));
    assert(!has_field(device_bits(), AttributeField::KernelExec));
}

/// The attributes each range of the layout with physical memory is mapped with (its own
/// attributes, accessed) are fit for the kernel's own memory.
proof fn lemma_range_attributes_kernel(i: int, sources: LayoutSources)
    requires
        0 <= i < LAYOUT_LEN,
    ensures
        kernel_leaf_attributes(
            with_field(layout_extent(i, sources).attributes@, AttributeField::Accessed),
        ),
{
    lemma_layout_attributes(i, sources);
    let a = layout_extent(i, sources).attributes@;
    let b = with_field(a, AttributeField::Accessed);
    lemma_set_then_is_set(a, AttributeField::Accessed, AttributeField::Accessed);
    lemma_set_then_is_set(a, AttributeField::Accessed, AttributeField::UserRead);
    lemma_set_then_is_set(a, AttributeField::Accessed, AttributeField::UserWrite);
    lemma_set_then_is_set(a, AttributeField::Accessed, AttributeField::UserExec);
    lemma_set_then_is_set(a, AttributeField::Accessed, AttributeField::KernelWrite);
    lemma_set_then_is_set(a, AttributeField::Accessed, AttributeField::KernelExec);
    assert(!has_field(a, AttributeField::UserRead));
    assert(!has_field(a, AttributeField::UserWrite));
    assert(!has_field(a, AttributeField::UserExec));
    assert(!(has_field(a, AttributeField::KernelWrite) && has_field(a, AttributeField::KernelExec)));
}

/// Mapping a device writes only device memory descriptors: every entry of page-table
/// memory that mapping a device changes has the device memory attributes index (strongly
/// ordered), and is fit for the kernel's own memory: where it is a valid page or block
/// descriptor, it has the access flag, privileged access only, and is not executable.
pub proof fn lemma_device_outcome_writes(
    phys_base: int,
    phys_length: int,
    mat: FixedOffset,
    base: int,
    st: (PageDirectory, (usize, usize), (Seq<Seq<PageTableEntry>>, nat)),
)
    requires
        device_outcome(phys_base, phys_length, mat, base, st) is Some,
    ensures
        ({
            let s = st.2;
            let s2 = device_outcome(phys_base, phys_length, mat, base, st).unwrap().1.2;
            &&& s2.0.len() == s.0.len()
            &&& forall|t: int, i: int|
                0 <= t < s.0.len() && 0 <= i < 512 && #[trigger] s2.0[t][i] != s.0[t][i] ==> {
                    &&& attr_index(s2.0[t][i]) == device_strongly_ordered()
                    &&& kernel_leaf(s2.0[t][i])
                }
        }),
{
    let pages = pages_for(phys_length) as usize;
    if let Some((devices, (vb, vl))) = bump(st.1, pages) {
        if phys_base <= vb {
            let tr = FixedOffset::spec_of((vb - phys_base) as usize);
            lemma_translation_writes(st.0, tr, device_bits(), mat, base, st.2, vb, vl);
            lemma_device_bits_fields();
            let s2 = translation_outcome(st.0, tr, device_bits(), mat, base, st.2, vb, vl).unwrap().1;
            assert forall|t: int, i: int|
                0 <= t < st.2.0.len() && 0 <= i < 512 && #[trigger] s2.0[t][i] != st.2.0[t][i] implies {
                &&& attr_index(s2.0[t][i]) == device_strongly_ordered()
                &&& kernel_leaf(s2.0[t][i])
            } by {
                lemma_written_device(s2.0[t][i], tr, device_bits());
                lemma_written_kernel_leaf(s2.0[t][i], tr, device_bits());
            }
        }
    }
}

/// Mapping the ranges of the layout from range `i` on, and then the debug UART, leaves
/// every entry of page-table memory that it changes fit for the kernel's own memory:
/// each valid page or block descriptor has the access flag, privileged access only, is
/// not executable by user code, and is not both writable and executable. Each range with
/// physical memory is mapped accessed, the heap to no memory, and the UART as device
/// memory.
pub proof fn lemma_ranges_outcome_writes(
    sources: LayoutSources,
    mat: FixedOffset,
    base: int,
    st: (PageDirectory, (usize, usize), (Seq<Seq<PageTableEntry>>, nat)),
    i: int,
    next_base: int,
)
    requires
        ranges_outcome(sources, mat, base, st, i, next_base) is Some,
    ensures
        writes_kernel_leaves(st.2, ranges_outcome(sources, mat, base, st, i, next_base).unwrap().1.2),
    decreases LAYOUT_LEN - i,
{
    if i >= LAYOUT_LEN {
        lemma_translation_writes(st.0, Identity, device_bits(), mat, base, st.2, 0x900_0000, 0x1000);
        lemma_device_bits_fields();
        let s2 = translation_outcome(
            st.0,
            Identity,
            device_bits(),
            mat,
            base,
            st.2,
            0x900_0000,
            0x1000,
        ).unwrap().1;
        lemma_writes_kernel_leaves(st.2, s2, Identity, device_bits());
    } else {
        let kr = kernel_range_of(next_base, layout_extent(i, sources));
        let kb = kr.virt_addr_range.spec_base() as int;
        let kl = kr.virt_addr_range.spec_length() as int;
        let next = incremented(kb, kl);
        let (s2, d2) = match kr.phys_addr_range {
            None => (st.2, st.0),
            Some(p) => {
                let tr = FixedOffset::spec_of((kb - p.spec_base()) as usize);
                let attrs = with_field(kr.attributes@, AttributeField::Accessed);
                lemma_translation_writes(st.0, tr, attrs, mat, base, st.2, kb, p.spec_length() as int);
                lemma_layout_attributes(i, sources);
                lemma_range_attributes_kernel(i, sources);
                let o = translation_outcome(st.0, tr, attrs, mat, base, st.2, kb, p.spec_length() as int).unwrap();
                lemma_writes_kernel_leaves(st.2, o.1, tr, attrs);
                (o.1, o.2)
            },
        };
        assert(writes_kernel_leaves(st.2, s2));
        let out = ranges_outcome(sources, mat, base, st, i, next_base).unwrap().1.2;
        if out != s2 {
            if kr.content == RangeContent::Device {
                let st2 = (d2, (pages_for(kl) as usize, (kb + kl) as usize), s2);
                lemma_ranges_outcome_writes(sources, mat, base, st2, i + 1, next);
                lemma_writes_kernel_leaves_trans(st.2, s2, out);
            } else if kr.content == RangeContent::Heap {
                lemma_translation_writes(d2, NullTranslation, kr.attributes@, mat, base, s2, kb, kl);
                let o3 = translation_outcome(d2, NullTranslation, kr.attributes@, mat, base, s2, kb, kl).unwrap();
                lemma_writes_kernel_leaves(s2, o3.1, NullTranslation, kr.attributes@);
                lemma_writes_kernel_leaves_trans(st.2, s2, o3.1);
                if o3.0 is Ok {
                    lemma_ranges_outcome_writes(sources, mat, base, (o3.2, st.1, o3.1), i + 1, next);
                    lemma_writes_kernel_leaves_trans(st.2, o3.1, out);
                }
            } else {
                lemma_ranges_outcome_writes(sources, mat, base, (d2, st.1, s2), i + 1, next);
                lemma_writes_kernel_leaves_trans(st.2, s2, out);
            }
        }
    }
}

} // verus!
