//! The frame table kept as a set of deques: every frame of RAM is on exactly one
//! queue, one queue per use of frames.

use super::addr::{Addr, AddrRange, PAGESIZE_BYTES};
use super::deque::{in_order, move_run, move_segment, Deque};
use super::frames::{frame_addr, Purpose};
use super::phys_addr::{pages_for, PhysAddr, PhysAddrRange};
use crate::{Error, Result};
use vstd::prelude::*;

verus! {

/// The queue a frame is on.
#[derive(Copy, Clone, Debug, PartialEq, Eq, Structural)]
pub enum FrameUse {
    /// Blank read-only page of zeros for all processes to share, ie. bss.
    Zero,
    /// Reservoir of zero pages for when processes write to pages for the first time.
    Zeroed,
    /// Owned by page cleaner while cleaning.
    Zeroing,
    /// Returned after use when no longer needed.
    Free,
    /// Recently-accessed user pages.
    UserWarm,
    /// Less recently-accessed user pages.
    UserCold,
    /// Kernel pages (always resident).
    Kernel,
    /// Special user pages that must not be evicted, ie. shared with device.
    Nailed,
    /// Holds the frame table.
    FrameTable,
    /// The L3 page tables.
    LeafPageTable,
    /// The L0-2 page tables.
    BranchPageTable,
    /// Pool to supply contiguous pages of physical memory.
    DirectMemoryAccess,
}

/// Number of frame queues.
pub const FRAME_USES: u8 = 12;

/// The number of a queue, in declaration order.
pub open spec fn queue_of(u: FrameUse) -> u8 {
    match u {
        FrameUse::Zero => 0,
        FrameUse::Zeroed => 1,
        FrameUse::Zeroing => 2,
        FrameUse::Free => 3,
        FrameUse::UserWarm => 4,
        FrameUse::UserCold => 5,
        FrameUse::Kernel => 6,
        FrameUse::Nailed => 7,
        FrameUse::FrameTable => 8,
        FrameUse::LeafPageTable => 9,
        FrameUse::BranchPageTable => 10,
        FrameUse::DirectMemoryAccess => 11,
    }
}

/// The queue that frames for a purpose go on.
pub open spec fn use_for(purpose: Purpose) -> FrameUse {
    match purpose {
        Purpose::User => FrameUse::UserWarm,
        Purpose::Kernel => FrameUse::Kernel,
        Purpose::LeafPageTable => FrameUse::LeafPageTable,
        Purpose::BranchPageTable => FrameUse::BranchPageTable,
        Purpose::DirectMemoryAccess => FrameUse::DirectMemoryAccess,
    }
}

impl FrameUse {
    /// The queue with the given number.
    pub fn from_u8(i: u8) -> (r: FrameUse)
        requires
            i < FRAME_USES,
        ensures
            queue_of(r) == i,
    {
        match i {
            0 => FrameUse::Zero,
            1 => FrameUse::Zeroed,
            2 => FrameUse::Zeroing,
            3 => FrameUse::Free,
            4 => FrameUse::UserWarm,
            5 => FrameUse::UserCold,
            6 => FrameUse::Kernel,
            7 => FrameUse::Nailed,
            8 => FrameUse::FrameTable,
            9 => FrameUse::LeafPageTable,
            10 => FrameUse::BranchPageTable,
            _ => FrameUse::DirectMemoryAccess,
        }
    }

    /// The number of the queue.
    pub fn into_u8(self) -> (r: u8)
        ensures
            r == queue_of(self),
            r < FRAME_USES,
    {
        match self {
            FrameUse::Zero => 0,
            FrameUse::Zeroed => 1,
            FrameUse::Zeroing => 2,
            FrameUse::Free => 3,
            FrameUse::UserWarm => 4,
            FrameUse::UserCold => 5,
            FrameUse::Kernel => 6,
            FrameUse::Nailed => 7,
            FrameUse::FrameTable => 8,
            FrameUse::LeafPageTable => 9,
            FrameUse::BranchPageTable => 10,
            FrameUse::DirectMemoryAccess => 11,
        }
    }

    /// The queue that frames for a purpose go on.
    pub fn from_purpose(purpose: Purpose) -> (r: FrameUse)
        ensures
            r == use_for(purpose),
    {
        match purpose {
            Purpose::User => FrameUse::UserWarm,
            Purpose::Kernel => FrameUse::Kernel,
            Purpose::LeafPageTable => FrameUse::LeafPageTable,
            Purpose::BranchPageTable => FrameUse::BranchPageTable,
            Purpose::DirectMemoryAccess => FrameUse::DirectMemoryAccess,
        }
    }
}

/// What reserving a frame for overwriting gives from queues `q` of RAM at `base`:
/// the result and the queues afterwards.
pub open spec fn overwrite_outcome(q: Seq<Seq<int>>, base: usize, purpose: Purpose) -> (
    Result<PhysAddr>,
    Seq<Seq<int>>,
) {
    let free = q[queue_of(FrameUse::Free) as int];
    if free.len() == 0 {
        (Err(Error::Unimplemented), q)
    } else {
        (
            Ok(PhysAddr(frame_addr(base, free.last()))),
            move_segment(
                q,
                queue_of(FrameUse::Free) as int,
                free.len() - 1,
                free.len() - 1,
                queue_of(use_for(purpose)) as int,
            ),
        )
    }
}

/// What reserving a zeroed frame gives from queues `q` of RAM at `base`: the result
/// (with whether the frame must be filled with zeros) and the queues afterwards.
pub open spec fn zeroed_outcome(q: Seq<Seq<int>>, base: usize, purpose: Purpose) -> (
    Result<(PhysAddr, bool)>,
    Seq<Seq<int>>,
) {
    let zeroed = q[queue_of(FrameUse::Zeroed) as int];
    if zeroed.len() > 0 {
        (
            Ok((PhysAddr(frame_addr(base, zeroed.last())), false)),
            move_segment(
                q,
                queue_of(FrameUse::Zeroed) as int,
                zeroed.len() - 1,
                zeroed.len() - 1,
                queue_of(use_for(purpose)) as int,
            ),
        )
    } else {
        match overwrite_outcome(q, base, purpose) {
            (Ok(p), after) => (Ok((p, true)), after),
            (Err(e), after) => (Err(e), after),
        }
    }
}

/// Per-frame data kept in the frame table.
#[derive(Debug, Clone, Copy, PartialEq, Eq, Structural)]
pub struct FrameTableEntry {
    /// Where the frame's contents are kept when paged out.
    pub persisted: Option<u64>,
    /// Address of the page block descriptor that maps the frame.
    pub page_block_descriptor: Option<usize>,
}

impl Default for FrameTableEntry {
    fn default() -> (r: Self)
        ensures
            r.persisted is None,
            r.page_block_descriptor is None,
    {
        Self { persisted: None, page_block_descriptor: None }
    }
}

/// The frame table: a queue for each use of frames.
pub struct FrameTableInner {
    table: Deque<FrameTableEntry>,
    user_count: u32,
    user_warm_count: u32,
    ram_range: PhysAddrRange,  // range of ram to be managed
}

impl FrameTableInner {
    /// The frames of each queue, head first.
    pub closed spec fn queues(&self) -> Seq<Seq<int>> {
        self.table@
    }

    /// Number of frames managed.
    pub closed spec fn frames(&self) -> int {
        self.table.capacity()
    }

    /// Number of frames allocated for user processes.
    pub closed spec fn user_count(&self) -> u32 {
        self.user_count
    }

    /// Number of recently-used frames allocated for user processes.
    pub closed spec fn user_warm_count(&self) -> u32 {
        self.user_warm_count
    }

    /// Base address of the RAM managed.
    pub closed spec fn ram_base(&self) -> usize {
        self.ram_range.spec_base()
    }

    /// The queues hold every frame once, one frame per page of the RAM range.
    pub closed spec fn wf(&self) -> bool {
        &&& self.table.wf()
        &&& self.table.queue_count() == FRAME_USES
        &&& self.table.capacity() * PAGESIZE_BYTES <= usize::MAX
    }

    /// A frame table for a RAM range with every frame free, in order.
    pub fn new(ram_range: PhysAddrRange) -> (r: Self)
        requires
            ram_range.spec_length() + PAGESIZE_BYTES <= usize::MAX,
            pages_for(ram_range.spec_length() as int) >= 1,
            pages_for(ram_range.spec_length() as int) + FRAME_USES <= u32::MAX,
        ensures
            r.wf(),
            r.frames() == pages_for(ram_range.spec_length() as int),
            r.ram_base() == ram_range.spec_base(),
            r.user_count() == 0,
            r.user_warm_count() == 0,
            r.queues() == Seq::new(
                FRAME_USES as nat,
                |q: int|
                    if q == queue_of(FrameUse::Free) {
                        Seq::new(pages_for(ram_range.spec_length() as int) as nat, |i: int| i)
                    } else {
                        Seq::<int>::empty()
                    },
            ),
    {
        let len = ram_range.length_in_pages() as u32;
        proof {
            assert(len * PAGESIZE_BYTES <= usize::MAX) by (nonlinear_arith)
                requires
                    len == pages_for(ram_range.spec_length() as int),
                    ram_range.spec_length() + PAGESIZE_BYTES <= usize::MAX,
            ;
        }
        Self {
            table: Deque::<FrameTableEntry>::new(len, FRAME_USES, FrameUse::Free.into_u8()),
            user_count: 0,
            user_warm_count: 0,
            ram_range,
        }
    }

    /// The first frame of a physical address range.
    pub open spec fn first_frame(&self, range: PhysAddrRange) -> int {
        pages_for(range.spec_base() - self.ram_base())
    }

    /// The last frame of a physical address range.
    pub open spec fn last_frame(&self, range: PhysAddrRange) -> int {
        self.first_frame(range) + pages_for(range.spec_length() as int) - 1
    }

    /// Move the frames of a physical address range, which are a run of one queue,
    /// to the head of queue `frame_use`.
    pub fn move_contiguous_range(&mut self, phys_addr_range: PhysAddrRange, frame_use: FrameUse) -> (r: Result<()>)
        requires
            old(self).wf(),
            old(self).ram_base() <= phys_addr_range.spec_base(),
            phys_addr_range.spec_base() - old(self).ram_base() + PAGESIZE_BYTES <= usize::MAX,
            phys_addr_range.spec_length() + PAGESIZE_BYTES <= usize::MAX,
            0 <= old(self).first_frame(phys_addr_range) <= old(self).last_frame(phys_addr_range) < old(self).frames(),
            in_order(
                old(self).queues(),
                old(self).first_frame(phys_addr_range),
                old(self).last_frame(phys_addr_range),
            ),
        ensures
            r == Ok::<(), Error>(()),
            final(self).wf(),
            final(self).frames() == old(self).frames(),
            final(self).ram_base() == old(self).ram_base(),
            final(self).user_count() == old(self).user_count(),
            final(self).user_warm_count() == old(self).user_warm_count(),
            final(self).queues() == move_run(
                old(self).queues(),
                old(self).first_frame(phys_addr_range),
                old(self).last_frame(phys_addr_range),
                queue_of(frame_use) as int,
            ),
    {
        proof {
            self.table.lemma_wf();
        }
        let i = PhysAddrRange::between(self.ram_range.base(), phys_addr_range.base()).length_in_pages() as u32;
        let j = i + phys_addr_range.length_in_pages() as u32 - 1;
        let _ = self.table.remove_seq_to(i, j, frame_use.into_u8());
        Ok(())
    }

    /// The address of frame `i` of RAM.
    pub fn ram_page(&self, i: usize) -> (r: PhysAddr)
        requires
            i * PAGESIZE_BYTES <= usize::MAX,
        ensures
            r.value() == frame_addr(self.ram_base(), i as int),
    {
        self.ram_range.base().increment(i * PAGESIZE_BYTES)
    }

    /// Reserve the frame at the tail of the free queue for a given purpose, which must
    /// be overwritten, or fail with `Unimplemented` (eviction) when none is free.
    pub fn alloc_for_overwrite(&mut self, purpose: Purpose) -> (r: Result<PhysAddr>)
        requires
            old(self).wf(),
            purpose == Purpose::User ==> old(self).user_count() < u32::MAX && old(self).user_warm_count() < u32::MAX,
        ensures
            final(self).wf(),
            final(self).frames() == old(self).frames(),
            final(self).ram_base() == old(self).ram_base(),
            (r, final(self).queues()) == overwrite_outcome(old(self).queues(), old(self).ram_base(), purpose),
            final(self).user_count() == old(self).user_count() + (if purpose == Purpose::User && r is Ok { 1int } else { 0 }),
            final(self).user_warm_count() == old(self).user_warm_count() + (if purpose == Purpose::User && r is Ok { 1int } else { 0 }),
    {
        proof {
            self.table.lemma_wf();
        }
        let to = FrameUse::from_purpose(purpose).into_u8();
        match self.table.drip_to(FrameUse::Free.into_u8(), to) {
            Ok(i) => {
                if purpose == Purpose::User {
                    self.user_count += 1;
                }
                if purpose == Purpose::User {
                    self.user_warm_count += 1;
                }
                proof {
                    let free = old(self).queues()[queue_of(FrameUse::Free) as int];
                    assert(0 <= free.last() < self.frames());
                    super::frames::lemma_frame_offset_fits(i as int, self.frames());
                }
                Ok(self.ram_page(i as usize))
            },
            Err(_) => Err(Error::Unimplemented),
        }
    }

    /// Reserve a frame for a given purpose: the tail of the zeroed queue where it has
    /// one, otherwise a frame as for overwriting, together with whether the caller must
    /// then fill the frame with zeros.
    pub fn alloc_zeroed(&mut self, purpose: Purpose) -> (r: Result<(PhysAddr, bool)>)
        requires
            old(self).wf(),
            purpose == Purpose::User ==> old(self).user_count() < u32::MAX && old(self).user_warm_count() < u32::MAX,
        ensures
            final(self).wf(),
            final(self).frames() == old(self).frames(),
            final(self).ram_base() == old(self).ram_base(),
            final(self).user_count() == old(self).user_count() + (if purpose == Purpose::User && r is Ok { 1int } else { 0 }),
            final(self).user_warm_count() == old(self).user_warm_count() + (if purpose == Purpose::User && r is Ok { 1int } else { 0 }),
            (r, final(self).queues()) == zeroed_outcome(old(self).queues(), old(self).ram_base(), purpose),
    {
        proof {
            self.table.lemma_wf();
        }
        let to = FrameUse::from_purpose(purpose).into_u8();
        match self.table.drip_to(FrameUse::Zeroed.into_u8(), to) {
            Ok(i) => {
                if purpose == Purpose::User {
                    self.user_count += 1;
                    self.user_warm_count += 1;
                }
                proof {
                    let zeroed = old(self).queues()[queue_of(FrameUse::Zeroed) as int];
                    assert(0 <= zeroed.last() < self.frames());
                    super::frames::lemma_frame_offset_fits(i as int, self.frames());
                }
                Ok((self.ram_page(i as usize), false))
            },
            Err(_) => match self.alloc_for_overwrite(purpose) {
                Ok(phys_addr) => Ok((phys_addr, true)),
                Err(e) => Err(e),
            },
        }
    }
}

/// The frame table, once initialised.
pub struct FrameTable(pub Option<FrameTableInner>);

impl FrameTable {
    /// The table is uninitialised, or its queues are well formed.
    pub open spec fn wf(&self) -> bool {
        self.0 matches Some(inner) ==> inner.wf()
    }

    /// Reserve a zeroed frame for a given purpose, as `FrameTableInner::alloc_zeroed`
    /// does, or fail with `UnInitialised` before the table is set up.
    pub fn alloc_zeroed(&mut self, purpose: Purpose) -> (r: Result<(PhysAddr, bool)>)
        requires
            old(self).wf(),
            old(self).0 matches Some(inner) ==> (purpose == Purpose::User ==> inner.user_count() < u32::MAX
                && inner.user_warm_count() < u32::MAX),
        ensures
            final(self).wf(),
            match old(self).0 {
                None => r == Err::<(PhysAddr, bool), Error>(Error::UnInitialised) && final(self).0 is None,
                Some(inner) => match final(self).0 {
                    None => false,
                    Some(after) => {
                        &&& (r, after.queues()) == zeroed_outcome(inner.queues(), inner.ram_base(), purpose)
                        &&& after.frames() == inner.frames()
                        &&& after.ram_base() == inner.ram_base()
                        &&& after.user_count() == inner.user_count() + (if purpose == Purpose::User && r is Ok { 1int } else { 0 })
                        &&& after.user_warm_count() == inner.user_warm_count() + (if purpose == Purpose::User && r is Ok { 1int } else { 0 })
                    },
                },
            },
    {
        match &mut self.0 {
            None => Err(Error::UnInitialised),
            Some(inner) => inner.alloc_zeroed(purpose),
        }
    }

    /// Reserve a frame for overwriting for a given purpose, as
    /// `FrameTableInner::alloc_for_overwrite` does, or fail with `UnInitialised`
    /// before the table is set up.
    pub fn alloc_for_overwrite(&mut self, purpose: Purpose) -> (r: Result<PhysAddr>)
        requires
            old(self).wf(),
            old(self).0 matches Some(inner) ==> (purpose == Purpose::User ==> inner.user_count() < u32::MAX
                && inner.user_warm_count() < u32::MAX),
        ensures
            final(self).wf(),
            match old(self).0 {
                None => r == Err::<PhysAddr, Error>(Error::UnInitialised) && final(self).0 is None,
                Some(inner) => match final(self).0 {
                    None => false,
                    Some(after) => {
                        &&& (r, after.queues()) == overwrite_outcome(inner.queues(), inner.ram_base(), purpose)
                        &&& after.frames() == inner.frames()
                        &&& after.ram_base() == inner.ram_base()
                        &&& after.user_count() == inner.user_count() + (if purpose == Purpose::User && r is Ok { 1int } else { 0 })
                        &&& after.user_warm_count() == inner.user_warm_count() + (if purpose == Purpose::User && r is Ok { 1int } else { 0 })
                    },
                },
            },
    {
        match &mut self.0 {
            None => Err(Error::UnInitialised),
            Some(inner) => inner.alloc_for_overwrite(purpose),
        }
    }
}

/// Number of bytes of storage for the frame table of a RAM range.
pub fn frame_table_bytes(ram_range: PhysAddrRange) -> (r: usize)
    requires
        ram_range.spec_length() + PAGESIZE_BYTES - 1 <= usize::MAX,
        pages_for(ram_range.spec_length() as int) + FRAME_USES <= usize::MAX,
        (pages_for(ram_range.spec_length() as int) + FRAME_USES) * Deque::<FrameTableEntry>::node_bytes() <= usize::MAX,
    ensures
        r == (pages_for(ram_range.spec_length() as int) + FRAME_USES) * Deque::<FrameTableEntry>::node_bytes(),
{
    let entries = ram_range.length_in_pages();
    Deque::<FrameTableEntry>::storage_bytes(entries, FRAME_USES as usize)
}

} // verus!
