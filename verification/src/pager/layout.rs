//! The layout of the kernel's virtual address space: the ranges, from the kernel base
//! upward, that hold RAM, the kernel image, the frame table, devices, page tables and
//! the heap.

use super::addr::{is_power_of_two, lemma_round_down, Addr, AddrRange};
use super::attributes::{
    has_exactly, lemma_attributes_ext, lemma_has_exactly_empty, lemma_has_exactly_with, with_field,
    AttributeField, Attributes,
};
use super::phys_addr::PhysAddrRange;
use super::virt_addr::{lemma_range_ext, VirtAddr, VirtAddrRange};
use crate::Result;
use vstd::arithmetic::div_mod::lemma_fundamental_div_mod;
use vstd::arithmetic::power2::{lemma2_to64, pow2};
use vstd::prelude::*;

verus! {

/// Content within Range.
#[derive(Copy, Clone, PartialEq, Eq, Debug, Structural)]
pub enum RangeContent {
    /// All of RAM.
    RAM,
    /// Kernel code.
    KernelText,
    /// Kernel read-only data.
    KernelStatic,
    /// Kernel dynamic data.
    KernelData,
    /// The frame table.
    FrameTable,
    /// Memory-mapped devices.
    Device,
    /// Leaf page tables.
    L3PageTables,
    /// The kernel heap.
    Heap,
}

/// One GiB.
pub const GB: usize = 0x4000_0000;

/// Number of ranges in the layout.
pub const LAYOUT_LEN: usize = 8;

/// The physical ranges that the layout maps, and where it starts.
#[derive(Copy, Clone, Debug)]
pub struct LayoutSources {
    /// Base virtual address of the kernel address space.
    pub kernel_base: VirtAddr,
    /// Physical range of RAM.
    pub ram: PhysAddrRange,
    /// Physical range of the kernel code.
    pub text: PhysAddrRange,
    /// Physical range of the kernel read-only data.
    pub static_image: PhysAddrRange,
    /// Physical range of the kernel dynamic data.
    pub data: PhysAddrRange,
    /// Physical range of the frame table.
    pub frame_table: PhysAddrRange,
}

/// A range of the layout, before it is placed: its alignment, minimum extent, gap
/// from the aligned address, physical range and attributes.
#[derive(Copy, Clone, Debug)]
pub struct KernelExtent {
    /// What the range holds.
    pub content: RangeContent,
    /// Alignment of the range's base, or 0 for none.
    pub virt_range_align: usize,
    /// Least length of the range.
    pub virt_range_min_extent: usize,
    /// Distance of the range's base above the aligned address.
    pub virt_range_gap: Option<usize>,
    /// The physical range mapped, if any.
    pub phys_addr_range: Option<PhysAddrRange>,
    /// How the range is mapped.
    pub attributes: Attributes,
}

/// Range requiring to be mapped.
#[derive(Copy, Clone, Debug)]
pub struct KernelRange {
    /// What the range holds.
    pub content: RangeContent,
    /// Where the range is in the kernel address space.
    pub virt_addr_range: VirtAddrRange,
    /// The physical range mapped, if any.
    pub phys_addr_range: Option<PhysAddrRange>,
    /// How the range is mapped.
    pub attributes: Attributes,
}

/// The least multiple of `align` at or above `v`.
pub open spec fn round_up(v: int, align: int) -> int {
    ((v + align - 1) / align) * align
}

/// The flag bits of kernel data.
pub open spec fn kernel_data_bits() -> u64 {
    with_field(
        with_field(with_field(0, AttributeField::KernelRead), AttributeField::KernelWrite),
        AttributeField::OnDemand,
    )
}

/// The flag bits of each range of the layout.
pub open spec fn layout_attribute_bits(content: RangeContent) -> u64 {
    match content {
        RangeContent::RAM => with_field(
            with_field(
                with_field(with_field(0, AttributeField::KernelRead), AttributeField::KernelWrite),
                AttributeField::Block,
            ),
            AttributeField::SuppressMapCount,
        ),
        RangeContent::KernelText => with_field(0, AttributeField::KernelExec),
        RangeContent::KernelStatic => with_field(0, AttributeField::KernelRead),
        RangeContent::FrameTable => with_field(kernel_data_bits(), AttributeField::Block),
        RangeContent::Device => with_field(
            with_field(
                with_field(
                    with_field(with_field(0, AttributeField::KernelRead), AttributeField::KernelWrite),
                    AttributeField::Device,
                ),
                AttributeField::Block,
            ),
            AttributeField::SuppressMapCount,
        ),
        _ => kernel_data_bits(),
    }
}

/// What each range of the layout holds, in order.
pub open spec fn layout_content(i: int) -> RangeContent {
    if i == 0 {
        RangeContent::RAM
    } else if i == 1 {
        RangeContent::KernelText
    } else if i == 2 {
        RangeContent::KernelStatic
    } else if i == 3 {
        RangeContent::KernelData
    } else if i == 4 {
        RangeContent::FrameTable
    } else if i == 5 {
        RangeContent::Device
    } else if i == 6 {
        RangeContent::L3PageTables
    } else {
        RangeContent::Heap
    }
}

/// Range `i` of the layout, before it is placed.
pub open spec fn layout_extent(i: int, s: LayoutSources) -> KernelExtent {
    let content = layout_content(i);
    KernelExtent {
        content,
        virt_range_align: if content == RangeContent::KernelStatic || content
            == RangeContent::KernelData {
            0
        } else {
            GB
        },
        virt_range_min_extent: if content == RangeContent::RAM || content
            == RangeContent::L3PageTables || content == RangeContent::Heap {
            (8 * GB) as usize
        } else if content == RangeContent::FrameTable || content == RangeContent::Device {
            GB
        } else {
            0
        },
        virt_range_gap: if content == RangeContent::KernelText {
            Some((s.text.spec_base() - s.ram.spec_base()) as usize)
        } else {
            None
        },
        phys_addr_range: if content == RangeContent::RAM {
            Some(s.ram)
        } else if content == RangeContent::KernelText {
            Some(s.text)
        } else if content == RangeContent::KernelStatic {
            Some(s.static_image)
        } else if content == RangeContent::KernelData {
            Some(s.data)
        } else if content == RangeContent::FrameTable {
            Some(s.frame_table)
        } else {
            None
        },
        attributes: Attributes::spec_from_bits(layout_attribute_bits(content)),
    }
}

/// The range placed at or above `virt_addr`: the base aligned up (where the extent has
/// an alignment) and then moved up by the gap (where it has one; null where that passes
/// the top of memory), as long as the physical range or the minimum extent, whichever
/// is greater.
pub open spec fn kernel_range_of(virt_addr: int, e: KernelExtent) -> KernelRange {
    let aligned = if e.virt_range_align > 0 {
        round_up(virt_addr, e.virt_range_align as int)
    } else {
        virt_addr
    };
    let base = match e.virt_range_gap {
        Some(gap) => if aligned + gap <= usize::MAX {
            aligned + gap
        } else {
            0
        },
        None => aligned,
    };
    let length = match e.phys_addr_range {
        Some(p) => if p.spec_length() >= e.virt_range_min_extent {
            p.spec_length()
        } else {
            e.virt_range_min_extent
        },
        None => e.virt_range_min_extent,
    };
    KernelRange {
        content: e.content,
        virt_addr_range: VirtAddrRange::spec_range(base as usize, length),
        phys_addr_range: e.phys_addr_range,
        attributes: e.attributes,
    }
}

/// True iff a range can be placed at `virt_addr`: aligning up stays within memory.
pub open spec fn placeable(virt_addr: int, e: KernelExtent) -> bool {
    e.virt_range_align > 0 ==> is_power_of_two(e.virt_range_align) && virt_addr
        + e.virt_range_align - 1 <= usize::MAX
}

/// The multiple of `align` that aligning up gives is the least one at or above `v`.
proof fn lemma_round_up(v: int, align: int, r: int)
    requires
        align > 0,
        v >= 0,
        r % align == 0,
        v <= r < v + align,
    ensures
        r == round_up(v, align),
{
    lemma_fundamental_div_mod(r, align);
    let q = r / align;
    assert(r == q * align) by (nonlinear_arith)
        requires
            r == align * (r / align) + r % align,
            r % align == 0,
            q == r / align,
    ;
    assert((v + align - 1) / align == q) by (nonlinear_arith)
        requires
            r == q * align,
            v <= r < v + align,
            align > 0,
    ;
}

/// A range is placed at or above the address it is placed from, where moving it up by
/// its gap stays within memory: the ranges of the layout come in address order.
pub proof fn lemma_range_at_or_above(virt_addr: int, e: KernelExtent)
    requires
        0 <= virt_addr <= usize::MAX,
        placeable(virt_addr, e),
        match e.virt_range_gap {
            Some(gap) => (if e.virt_range_align > 0 {
                round_up(virt_addr, e.virt_range_align as int)
            } else {
                virt_addr
            }) + gap <= usize::MAX,
            None => true,
        },
    ensures
        kernel_range_of(virt_addr, e).virt_addr_range.spec_base() >= virt_addr,
{
    broadcast use crate::pager::virt_addr::lemma_spec_range;

    let a = e.virt_range_align as int;
    if a > 0 {
        lemma_fundamental_div_mod(virt_addr + a - 1, a);
        assert(round_up(virt_addr, a) >= virt_addr) by (nonlinear_arith)
            requires
                a > 0,
                virt_addr + a - 1 == a * ((virt_addr + a - 1) / a) + (virt_addr + a - 1) % a,
                0 <= (virt_addr + a - 1) % a < a,
                round_up(virt_addr, a) == ((virt_addr + a - 1) / a) * a,
        ;
        assert(round_up(virt_addr, a) <= virt_addr + a - 1) by (nonlinear_arith)
            requires
                a > 0,
                virt_addr + a - 1 == a * ((virt_addr + a - 1) / a) + (virt_addr + a - 1) % a,
                0 <= (virt_addr + a - 1) % a < a,
                round_up(virt_addr, a) == ((virt_addr + a - 1) / a) * a,
        ;
    }
}

/// One GiB is a power of two.
pub proof fn lemma_gb_is_power_of_two()
    ensures
        is_power_of_two(GB),
{
    lemma2_to64();
    assert(GB == pow2(30));
}

impl KernelExtent {
    /// Range `i` of the layout, before it is placed.
    pub fn layout(i: usize, sources: &LayoutSources) -> (r: Self)
        requires
            i < LAYOUT_LEN,
            sources.ram.spec_base() <= sources.text.spec_base(),
            usize::BITS == 64,
        ensures
            r == layout_extent(i as int, *sources),
    {
        let r = if i == 0 {
            KernelExtent {
                content: RangeContent::RAM,
                virt_range_align: GB,
                virt_range_min_extent: 8 * GB,
                virt_range_gap: None,
                phys_addr_range: Some(sources.ram),
                attributes: Attributes::ram(),
            }
        } else if i == 1 {
            KernelExtent {
                content: RangeContent::KernelText,
                virt_range_align: GB,
                virt_range_min_extent: 0,
                virt_range_gap: Some(sources.text.base().offset_above(sources.ram.base())),
                phys_addr_range: Some(sources.text),
                attributes: Attributes::kernel_exec(),
            }
        } else if i == 2 {
            KernelExtent {
                content: RangeContent::KernelStatic,
                virt_range_align: 0,
                virt_range_min_extent: 0,
                virt_range_gap: None,
                phys_addr_range: Some(sources.static_image),
                attributes: Attributes::kernel_ro_data(),
            }
        } else if i == 3 {
            KernelExtent {
                content: RangeContent::KernelData,
                virt_range_align: 0,
                virt_range_min_extent: 0,
                virt_range_gap: None,
                phys_addr_range: Some(sources.data),
                attributes: Attributes::kernel_data(),
            }
        } else if i == 4 {
            KernelExtent {
                content: RangeContent::FrameTable,
                virt_range_align: GB,
                virt_range_min_extent: GB,
                virt_range_gap: None,
                phys_addr_range: Some(sources.frame_table),
                attributes: Attributes::kernel_data().set(AttributeField::Block),
            }
        } else if i == 5 {
            KernelExtent {
                content: RangeContent::Device,
                virt_range_align: GB,
                virt_range_min_extent: GB,
                virt_range_gap: None,
                phys_addr_range: None,
                attributes: Attributes::device(),
            }
        } else if i == 6 {
            KernelExtent {
                content: RangeContent::L3PageTables,
                virt_range_align: GB,
                virt_range_min_extent: 8 * GB,
                virt_range_gap: None,
                phys_addr_range: None,
                attributes: Attributes::kernel_data(),
            }
        } else {
            KernelExtent {
                content: RangeContent::Heap,
                virt_range_align: GB,
                virt_range_min_extent: 8 * GB,
                virt_range_gap: None,
                phys_addr_range: None,
                attributes: Attributes::kernel_data(),
            }
        };
        proof {
            broadcast use crate::pager::attributes::lemma_spec_from_bits;

            lemma_attributes_ext(
                r.attributes,
                Attributes::spec_from_bits(layout_attribute_bits(r.content)),
            );
        }
        r
    }
}

impl KernelRange {
    /// The range of an extent placed at or above a virtual address.
    pub fn from(virt_addr: VirtAddr, extent: &KernelExtent) -> (r: Self)
        requires
            placeable(virt_addr.value() as int, *extent),
        ensures
            r == kernel_range_of(virt_addr.value() as int, *extent),
    {
        let base = if extent.virt_range_align > 0 {
            let aligned = virt_addr.align_up(extent.virt_range_align);
            proof {
                lemma_round_up(
                    virt_addr.value() as int,
                    extent.virt_range_align as int,
                    aligned.value() as int,
                );
            }
            aligned
        } else {
            virt_addr
        };
        let base = match extent.virt_range_gap {
            Some(gap) => base.increment(gap),
            None => base,
        };
        let length = if let Some(phys_addr_range) = extent.phys_addr_range {
            if phys_addr_range.length() >= extent.virt_range_min_extent {
                phys_addr_range.length()
            } else {
                extent.virt_range_min_extent
            }
        } else {
            extent.virt_range_min_extent
        };
        let range = VirtAddrRange::new(base, length);
        proof {
            broadcast use crate::pager::virt_addr::lemma_spec_range;

            lemma_range_ext(range, VirtAddrRange::spec_range(base.value(), length));
        }
        Self {
            content: extent.content,
            virt_addr_range: range,
            phys_addr_range: extent.phys_addr_range,
            attributes: extent.attributes,
        }
    }
}

/// Iterable over the memory layout.
#[derive(Copy, Clone, Debug)]
pub struct LayoutIterator {
    /// The next range of the layout.
    pub i: usize,
    /// Where the next range is placed from.
    pub next_base: VirtAddr,
    /// The physical ranges the layout maps.
    pub sources: LayoutSources,
}

/// The layout of the kernel address space.
#[derive(Copy, Clone, Debug)]
pub struct Layout {
    /// The physical ranges the layout maps.
    pub sources: LayoutSources,
}

/// The layout over the physical ranges of a machine.
pub fn layout(sources: LayoutSources) -> (r: Result<Layout>)
    ensures
        r matches Ok(l) && l.sources == sources,
{
    Ok(Layout { sources })
}

impl Layout {
    /// Iterate through the layout, from the kernel base.
    pub fn into_iter(self) -> (r: LayoutIterator)
        ensures
            r == LayoutIterator::start(self.sources),
    {
        LayoutIterator::new(self.sources)
    }
}

impl LayoutIterator {
    /// The iterator at the first range, placed from the kernel base.
    pub open spec fn start(sources: LayoutSources) -> LayoutIterator {
        LayoutIterator { i: 0, next_base: sources.kernel_base, sources }
    }

    /// The iterator at the first range, placed from the kernel base.
    pub fn new(sources: LayoutSources) -> (r: Self)
        ensures
            r == Self::start(sources),
    {
        Self { i: 0, next_base: sources.kernel_base, sources }
    }

    /// The next range of the layout, placed from where the last one ended (from null
    /// where that passes the top of memory); none after the last.
    pub fn next(&mut self) -> (r: Option<KernelRange>)
        requires
            usize::BITS == 64,
            old(self).sources.ram.spec_base() <= old(self).sources.text.spec_base(),
            old(self).i < LAYOUT_LEN ==> old(self).next_base.value() + GB - 1 <= usize::MAX,
        ensures
            old(self).i < LAYOUT_LEN ==> {
                let kr = kernel_range_of(
                    old(self).next_base.value() as int,
                    layout_extent(old(self).i as int, old(self).sources),
                );
                let top = kr.virt_addr_range.spec_base() + kr.virt_addr_range.spec_length();
                &&& r == Some(kr)
                &&& final(self).i == old(self).i + 1
                &&& final(self).next_base.value() == if top <= usize::MAX {
                    top
                } else {
                    0
                }
                &&& final(self).sources == old(self).sources
            },
            old(self).i >= LAYOUT_LEN ==> r is None && *final(self) == *old(self),
    {
        if self.i >= LAYOUT_LEN {
            return None;
        }
        let extent = KernelExtent::layout(self.i, &self.sources);
        proof {
            lemma_gb_is_power_of_two();
        }
        let result = KernelRange::from(self.next_base, &extent);
        self.next_base = result.virt_addr_range.step().base();
        self.i = self.i + 1;
        Some(result)
    }
}

/// Each range of the layout holds what it is for, in order, with the flags it needs:
/// RAM is read-write in blocks and not counted as mapped; the kernel text is executable
/// by the kernel and nothing else; the kernel's static data is read-only; its data, the
/// level-3 page tables and the heap are read-write and mapped on demand; the frame
/// table likewise, in blocks; devices are read-write device memory in blocks and not
/// counted as mapped.
pub proof fn lemma_layout_attributes(i: int, s: LayoutSources)
    requires
        0 <= i < LAYOUT_LEN,
    ensures
        ({
            let e = layout_extent(i, s);
            let a = e.attributes@;
            let data = set![
                AttributeField::KernelRead,
                AttributeField::KernelWrite,
                AttributeField::OnDemand,
            ];
            &&& forall|v: int| #[trigger] kernel_range_of(v, e).attributes == e.attributes
            &&& i == 0 ==> e.content == RangeContent::RAM && has_exactly(
                a,
                set![
                    AttributeField::KernelRead,
                    AttributeField::KernelWrite,
                    AttributeField::Block,
                    AttributeField::SuppressMapCount,
                ],
            )
            &&& i == 1 ==> e.content == RangeContent::KernelText && has_exactly(
                a,
                set![AttributeField::KernelExec],
            )
            &&& i == 2 ==> e.content == RangeContent::KernelStatic && has_exactly(
                a,
                set![AttributeField::KernelRead],
            )
            &&& i == 3 ==> e.content == RangeContent::KernelData && has_exactly(a, data)
            &&& i == 4 ==> e.content == RangeContent::FrameTable && has_exactly(
                a,
                data.insert(AttributeField::Block),
            )
            &&& i == 5 ==> e.content == RangeContent::Device && has_exactly(
                a,
                set![
                    AttributeField::KernelRead,
                    AttributeField::KernelWrite,
                    AttributeField::Device,
                    AttributeField::Block,
                    AttributeField::SuppressMapCount,
                ],
            )
            &&& i == 6 ==> e.content == RangeContent::L3PageTables && has_exactly(a, data)
            &&& i == 7 ==> e.content == RangeContent::Heap && has_exactly(a, data)
        }),
{
    broadcast use crate::pager::attributes::lemma_spec_from_bits;

    let e0 = Set::<AttributeField>::empty();
    lemma_has_exactly_empty();
    let r = with_field(0, AttributeField::KernelRead);
    lemma_has_exactly_with(0, e0, AttributeField::KernelRead);
    let rw = with_field(r, AttributeField::KernelWrite);
    lemma_has_exactly_with(r, e0.insert(AttributeField::KernelRead), AttributeField::KernelWrite);
    let rw_set = e0.insert(AttributeField::KernelRead).insert(AttributeField::KernelWrite);
    let data = with_field(rw, AttributeField::OnDemand);
    lemma_has_exactly_with(rw, rw_set, AttributeField::OnDemand);
    lemma_has_exactly_with(data, rw_set.insert(AttributeField::OnDemand), AttributeField::Block);
    let rwb = with_field(rw, AttributeField::Block);
    lemma_has_exactly_with(rw, rw_set, AttributeField::Block);
    lemma_has_exactly_with(rwb, rw_set.insert(AttributeField::Block), AttributeField::SuppressMapCount);
    let rwd = with_field(rw, AttributeField::Device);
    lemma_has_exactly_with(rw, rw_set, AttributeField::Device);
    let rwdb = with_field(rwd, AttributeField::Block);
    lemma_has_exactly_with(rwd, rw_set.insert(AttributeField::Device), AttributeField::Block);
    lemma_has_exactly_with(
        rwdb,
        rw_set.insert(AttributeField::Device).insert(AttributeField::Block),
        AttributeField::SuppressMapCount,
    );
    lemma_has_exactly_with(0, e0, AttributeField::KernelExec);
    assert(rw_set.insert(AttributeField::OnDemand) =~= set![
        AttributeField::KernelRead,
        AttributeField::KernelWrite,
        AttributeField::OnDemand,
    ]);
    assert(rw_set.insert(AttributeField::Block).insert(AttributeField::SuppressMapCount) =~= set![
        AttributeField::KernelRead,
        AttributeField::KernelWrite,
        AttributeField::Block,
        AttributeField::SuppressMapCount,
    ]);
    assert(rw_set.insert(AttributeField::Device).insert(AttributeField::Block).insert(
        AttributeField::SuppressMapCount,
    ) =~= set![
        AttributeField::KernelRead,
        AttributeField::KernelWrite,
        AttributeField::Device,
        AttributeField::Block,
        AttributeField::SuppressMapCount,
    ]);
    assert(e0.insert(AttributeField::KernelExec) =~= set![AttributeField::KernelExec]);
    assert(e0.insert(AttributeField::KernelRead) =~= set![AttributeField::KernelRead]);
}

} // verus!
