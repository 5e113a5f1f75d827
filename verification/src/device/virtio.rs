//! Virtio devices: recognising a device from its registers, negotiating the features
//! of a block device, and the packed ring of descriptors that requests go through.

use super::RequestId;
use crate::pager::addr::{Addr, AddrRange};
use crate::pager::phys_addr::{PhysAddr, PhysAddrRange};
use crate::{Error, Result};
use vstd::prelude::*;

verus! {

/// The value of the magic register of a virtio device ("virt").
pub const MAGIC: u32 = 0x74726976;

/// The device type of a block device.
pub const DEVICE_ID_BLOCK: u32 = 0x02;

/// The device type of an invalid device.
pub const DEVICE_ID_INVALID: u32 = 0x00;

/// What the registers of a virtio node show.
#[derive(Copy, Clone, Debug, PartialEq, Eq, Structural)]
pub enum DeviceKind {
    /// Not a version 2 virtio device.
    Unsupported,
    /// A placeholder without a device.
    Invalid,
    /// A block device.
    Block,
    /// A device of another type.
    Other(u32),
}

/// Recognise a device from its magic, version and device-type registers.
pub fn identify_device(magic: u32, version: u32, device_id: u32) -> (r: DeviceKind)
    ensures
        r == (if magic != MAGIC || version != 2 {
            DeviceKind::Unsupported
        } else if device_id == DEVICE_ID_INVALID {
            DeviceKind::Invalid
        } else if device_id == DEVICE_ID_BLOCK {
            DeviceKind::Block
        } else {
            DeviceKind::Other(device_id)
        }),
{
    if magic != MAGIC || version != 2 {
        DeviceKind::Unsupported
    } else if device_id == DEVICE_ID_INVALID {
        DeviceKind::Invalid
    } else if device_id == DEVICE_ID_BLOCK {
        DeviceKind::Block
    } else {
        DeviceKind::Other(device_id)
    }
}

/// The low word of the features the block driver asks for: the maximum size, segment
/// count, geometry, block size, flush, topology, writeback configuration, discard and
/// write-zeroes features.
pub open spec fn driver_features_lo() -> u32 {
    (1u32 << 1u32) | (1u32 << 2u32) | (1u32 << 4u32) | (1u32 << 6u32) | (1u32 << 9u32) | (1u32
        << 10u32) | (1u32 << 11u32) | (1u32 << 13u32) | (1u32 << 14u32)
}

/// The high word of the features the block driver asks for: version 1 and the packed
/// ring.
pub open spec fn driver_features_hi() -> u32 {
    (1u32 << 0u32) | (1u32 << 2u32)
}

/// The features the block driver asks for, as (high, low) words.
pub fn driver_features() -> (r: (u32, u32))
    ensures
        r == (driver_features_hi(), driver_features_lo()),
{
    let lo: u32 = (1u32 << 1u32) | (1u32 << 2u32) | (1u32 << 4u32) | (1u32 << 6u32) | (1u32
        << 9u32) | (1u32 << 10u32) | (1u32 << 11u32) | (1u32 << 13u32) | (1u32 << 14u32);
    let hi: u32 = (1u32 << 0u32) | (1u32 << 2u32);
    (hi, lo)
}

/// The features both the driver and the device offer, as (high, low) words.
pub fn negotiate_features(device_hi: u32, device_lo: u32) -> (r: (u32, u32))
    ensures
        r == (device_hi & driver_features_hi(), device_lo & driver_features_lo()),
{
    let (driver_hi, driver_lo) = driver_features();
    (device_hi & driver_hi, device_lo & driver_lo)
}

/// The size of a queue: the device's maximum or the ring's length, whichever is less.
pub fn queue_size(maximum_queue_size: u32, ring_len: u32) -> (r: u32)
    ensures
        r == (if maximum_queue_size <= ring_len {
            maximum_queue_size
        } else {
            ring_len
        }),
{
    if maximum_queue_size <= ring_len {
        maximum_queue_size
    } else {
        ring_len
    }
}

/// The interrupt of a virtio node from its three `interrupts` cells.
pub fn make_intr(cells: &[u32]) -> (r: Result<(u32, u32, u32)>)
    requires
        cells@.len() == 3,
    ensures
        r == Ok::<(u32, u32, u32), Error>((cells@[0], cells@[1], cells@[2])),
{
    Ok((cells[0], cells[1], cells[2]))
}

/// Descriptor flag: the request continues in the next descriptor.
pub const NEXT: u16 = 0x1;

/// Descriptor flag: the device writes the buffer.
pub const WRITE: u16 = 0x2;

/// Descriptor flag: the buffer holds a table of descriptors.
pub const INDIRECT: u16 = 0x4;

/// Descriptor flag: available, as the driver's wrap counter.
pub const AVAIL: u16 = 0x80;

/// Descriptor flag: used, as the device's wrap counter.
pub const USED: u16 = 0x8000;

/// A descriptor of the packed ring: a buffer and the request it belongs to.
#[derive(Copy, Clone, Debug, PartialEq, Eq, Structural)]
pub struct Descriptor {
    /// The buffer's physical address.
    pub addr: PhysAddr,
    /// The buffer's length.
    pub len: u32,
    /// The request.
    pub id: RequestId,
    /// The descriptor flags.
    pub flags: u16,
}

/// A descriptor without a buffer.
pub open spec fn empty_descriptor() -> Descriptor {
    Descriptor { addr: PhysAddr(0), len: 0, id: RequestId(0xffff), flags: 0 }
}

impl Default for Descriptor {
    fn default() -> (r: Self)
        ensures
            r == empty_descriptor(),
    {
        Descriptor { addr: PhysAddr::null(), len: 0, id: RequestId(0xffff), flags: 0 }
    }
}

/// True iff the available and used flags of the descriptor flags agree.
pub open spec fn flags_used(flags: u16) -> bool {
    (flags >> 7u16) & 1 == (flags >> 15u16) & 1
}

impl Descriptor {
    /// A descriptor for a buffer, with the length truncated to 32 bits.
    pub fn new(addr_range: PhysAddrRange) -> (r: Self)
        ensures
            r == (Descriptor {
                addr: PhysAddr(addr_range.spec_base()),
                len: addr_range.spec_length() as u32,
                ..empty_descriptor()
            }),
    {
        Descriptor {
            addr: addr_range.base(),
            len: #[verifier::truncate] (addr_range.length() as u32),
            ..Default::default()
        }
    }

    /// True iff the device has used the descriptor: its available and used flags agree.
    pub fn is_used(&self) -> (r: bool)
        ensures
            r == flags_used(self.flags),
    {
        let f = self.flags;
        proof {
            assert((((f >> 7u16) & 1) ^ ((f >> 15u16) & 1) == 0) == ((f >> 7u16) & 1 == (f
                >> 15u16) & 1)) by (bit_vector);
        }
        ((f >> 7u16) & 1) ^ ((f >> 15u16) & 1) == 0
    }
}

/// The flags the driver first writes into descriptor `i` of a request whose first
/// `read_len` buffers the device reads, with the wrap counter at `wrap`: the next flag,
/// the write flag for buffers the device writes, and (except for the first) the
/// available or used flag by the wrap counter.
pub open spec fn request_flags(i: int, read_len: int, wrap: bool) -> u16 {
    (NEXT | (if i >= read_len {
        WRITE
    } else {
        0u16
    })) | (if i == 0 {
        0u16
    } else if wrap {
        AVAIL
    } else {
        USED
    })
}

/// The available index and wrap counter after `k` more descriptors are made available
/// from `avail` in a ring of `len`: the index goes back to 0, and the counter flips, at
/// the end of the ring.
pub open spec fn ring_position(avail: int, wrap: bool, len: int, k: nat) -> (int, bool)
    decreases k,
{
    if k == 0 {
        (avail, wrap)
    } else {
        let before = ring_position(avail, wrap, len, (k - 1) as nat);
        if before.0 + 1 >= len {
            (0, !before.1)
        } else {
            (before.0 + 1, before.1)
        }
    }
}

/// The descriptor ring after the driver writes the descriptors of a request: descriptor
/// `i` of the ring holds buffer `i` of the request.
pub open spec fn written_ring(
    ring: Seq<Descriptor>,
    id: RequestId,
    buffers: Seq<(PhysAddr, u32)>,
    read_len: int,
    avail: int,
    wrap: bool,
) -> Seq<Descriptor> {
    Seq::new(
        ring.len(),
        |i: int|
            if i < buffers.len() {
                Descriptor {
                    addr: buffers[i].0,
                    len: buffers[i].1,
                    id,
                    flags: request_flags(
                        i,
                        read_len,
                        ring_position(avail, wrap, ring.len() as int, i as nat).1,
                    ),
                }
            } else {
                ring[i]
            },
    )
}

/// A descriptor with the flags changed.
pub open spec fn with_flags(d: Descriptor, flags: u16) -> Descriptor {
    Descriptor { flags, ..d }
}

/// A packed virtqueue: a ring of descriptors that the driver makes available and the
/// device marks used.
#[derive(Debug)]
pub struct PackedRing {
    /// The queue's index.
    pub index: u32,
    /// The descriptors.
    pub descriptor_ring: Vec<Descriptor>,
    /// The driver's wrap counter.
    pub wrap_counter: bool,
    /// The next descriptor the driver makes available.
    pub avail_idx: usize,
    /// The next descriptor the device marks used.
    pub used_idx: usize,
}

/// Bytes of a descriptor.
pub const DESCRIPTOR_BYTES: usize = 16;

/// Offset of the descriptor ring in the queue's memory, after the driver and device
/// event suppression structures, aligned to 16 bytes.
pub const DESCRIPTOR_RING_OFFSET: usize = 16;

impl PackedRing {
    /// Number of descriptors that fit in queue memory of `dma_length` bytes.
    pub fn capacity_for(dma_length: usize) -> (r: usize)
        requires
            dma_length >= DESCRIPTOR_RING_OFFSET,
        ensures
            r == (dma_length - DESCRIPTOR_RING_OFFSET) / DESCRIPTOR_BYTES as int,
    {
        (dma_length - DESCRIPTOR_RING_OFFSET) / DESCRIPTOR_BYTES
    }

    /// A queue with empty descriptors over queue memory of `dma_length` bytes, at the
    /// start of the ring with the wrap counter set.
    pub fn new(index: u32, dma_length: usize) -> (r: Self)
        requires
            dma_length >= DESCRIPTOR_RING_OFFSET,
        ensures
            r.index == index,
            r.descriptor_ring@ == Seq::new(
                ((dma_length - DESCRIPTOR_RING_OFFSET) / DESCRIPTOR_BYTES as int) as nat,
                |i: int| empty_descriptor(),
            ),
            r.wrap_counter,
            r.avail_idx == 0,
            r.used_idx == 0,
    {
        let len = Self::capacity_for(dma_length);
        let mut ring: Vec<Descriptor> = Vec::new();
        let mut i: usize = 0;
        while i < len
            invariant
                i <= len,
                ring@ == Seq::new(i as nat, |j: int| empty_descriptor()),
            decreases len - i,
        {
            ring.push(Descriptor::default());
            i = i + 1;
            assert(ring@ =~= Seq::new(i as nat, |j: int| empty_descriptor()));
        }
        PackedRing { index, descriptor_ring: ring, wrap_counter: true, avail_idx: 0, used_idx: 0 }
    }

    /// The queue's index.
    pub fn index(&self) -> (r: u32)
        ensures
            r == self.index,
    {
        self.index
    }

    /// Number of descriptors in the ring.
    pub fn descriptor_ring_len(&self) -> (r: usize)
        ensures
            r == self.descriptor_ring@.len(),
    {
        self.descriptor_ring.len()
    }

    /// Shrink the ring to the queue size the device takes.
    pub fn resize_descriptor_ring(&mut self, queue_size: u32) -> (r: Result<()>)
        requires
            queue_size <= old(self).descriptor_ring@.len(),
        ensures
            r is Ok,
            final(self).descriptor_ring@ == old(self).descriptor_ring@.subrange(
                0,
                queue_size as int,
            ),
            final(self).index == old(self).index,
            final(self).wrap_counter == old(self).wrap_counter,
            final(self).avail_idx == old(self).avail_idx,
            final(self).used_idx == old(self).used_idx,
    {
        self.descriptor_ring.truncate(queue_size as usize);
        Ok(())
    }

    /// The request that a request of `required` descriptors would be, or
    /// `DeviceAtCapacity` where fewer descriptors than that are free.
    pub fn next(&self, required: usize) -> (r: Result<RequestId>)
        ensures
            self.descriptor_ring@.len() - (self.avail_idx - self.used_idx) < required ==> r
                == Err::<RequestId, Error>(Error::DeviceAtCapacity),
            self.descriptor_ring@.len() - (self.avail_idx - self.used_idx) >= required ==> r
                == Ok::<RequestId, Error>(RequestId(self.avail_idx as u16)),
    {
        let len = self.descriptor_ring.len() as u128;
        if len + (self.used_idx as u128) < (required as u128) + (self.avail_idx as u128) {
            return Err(Error::DeviceAtCapacity);
        }
        Ok(RequestId(#[verifier::truncate] (self.avail_idx as u16)))
    }

    /// Make a request of the buffers that the device reads followed by those it writes
    /// available to the device: descriptor `i` of the ring takes buffer `i`, the last
    /// loses its next flag, and the first gets its available or used flag by the wrap
    /// counter at the start, last of all.
    pub fn submit(
        &mut self,
        id: RequestId,
        read_ranges: &Vec<(PhysAddr, u32)>,
        write_ranges: &Vec<(PhysAddr, u32)>,
    ) -> (r: Result<()>)
        requires
            id.0 == old(self).avail_idx,
            old(self).avail_idx < old(self).descriptor_ring@.len(),
            1 <= read_ranges@.len() + write_ranges@.len() <= old(self).descriptor_ring@.len(),
        ensures
            r is Ok,
            ({
                let ring = old(self).descriptor_ring@;
                let buffers = read_ranges@ + write_ranges@;
                let n = buffers.len();
                let written = written_ring(
                    ring,
                    id,
                    buffers,
                    read_ranges@.len() as int,
                    old(self).avail_idx as int,
                    old(self).wrap_counter,
                );
                let last = with_flags(written[n - 1], written[n - 1].flags & !NEXT);
                let cleared = written.update(n - 1, last);
                let first = cleared[id.0 as int];
                let position = ring_position(
                    old(self).avail_idx as int,
                    old(self).wrap_counter,
                    ring.len() as int,
                    n as nat,
                );
                &&& final(self).descriptor_ring@ == cleared.update(
                    id.0 as int,
                    with_flags(
                        first,
                        first.flags | (if old(self).wrap_counter {
                            AVAIL
                        } else {
                            USED
                        }),
                    ),
                )
                &&& final(self).avail_idx == position.0
                &&& final(self).wrap_counter == position.1
            }),
            forall|k: int|
                0 <= k < read_ranges@.len() + write_ranges@.len() ==> {
                    let f = #[trigger] final(self).descriptor_ring@[k].flags;
                    let wrap_at = ring_position(
                        old(self).avail_idx as int,
                        old(self).wrap_counter,
                        old(self).descriptor_ring@.len() as int,
                        k as nat,
                    ).1;
                    &&& (f & WRITE != 0) == (k >= read_ranges@.len())
                    &&& (f & NEXT != 0) == (k < read_ranges@.len() + write_ranges@.len() - 1)
                    &&& (k == old(self).avail_idx) == (k == 0) ==> (f & AVAIL != 0) == wrap_at && (f
                        & USED != 0) == !wrap_at
                },
            final(self).index == old(self).index,
            final(self).used_idx == old(self).used_idx,
    {
        let ghost ring0 = self.descriptor_ring@;
        let ghost avail0 = self.avail_idx as int;
        let ghost wrap0 = self.wrap_counter;
        let ghost buffers = read_ranges@ + write_ranges@;
        let len = self.descriptor_ring.len();
        let read_len = read_ranges.len();
        let n = read_len + write_ranges.len();
        let wrap_at_first = self.wrap_counter;
        let mut i: usize = 0;
        while i < n
            invariant
                len == self.descriptor_ring@.len(),
                len == ring0.len(),
                0 <= avail0 < len,
                read_len == read_ranges@.len(),
                n == buffers.len(),
                n <= len,
                buffers == read_ranges@ + write_ranges@,
                i <= n,
                self.index == old(self).index,
                self.used_idx == old(self).used_idx,
                wrap_at_first == wrap0,
                (self.avail_idx as int, self.wrap_counter) == ring_position(
                    avail0,
                    wrap0,
                    len as int,
                    i as nat,
                ),
                self.avail_idx < len,
                forall|j: int|
                    0 <= j < len ==> #[trigger] self.descriptor_ring@[j] == (if j < i {
                        written_ring(ring0, id, buffers, read_len as int, avail0, wrap0)[j]
                    } else {
                        ring0[j]
                    }),
            decreases n - i,
        {
            let (addr, length) = if i < read_len {
                read_ranges[i]
            } else {
                write_ranges[i - read_len]
            };
            let flags: u16 = (NEXT | (if i >= read_len {
                WRITE
            } else {
                0u16
            })) | (if i == 0 {
                0u16
            } else if self.wrap_counter {
                AVAIL
            } else {
                USED
            });
            let desc = Descriptor { addr, len: length, id, flags };
            self.descriptor_ring.set(i, desc);
            proof {
                assert(buffers[i as int] == (addr, length));
            }
            self.avail_idx = self.avail_idx + 1;
            if self.avail_idx >= len {
                self.avail_idx = 0;
                self.wrap_counter = !self.wrap_counter;
            }
            i = i + 1;
        }
        let last = n - 1;
        let mut desc = self.descriptor_ring[last];
        desc.flags = desc.flags & !NEXT;
        self.descriptor_ring.set(last, desc);
        let first = id.0 as usize;
        let mut desc = self.descriptor_ring[first];
        desc.flags = desc.flags | (if wrap_at_first {
            AVAIL
        } else {
            USED
        });
        self.descriptor_ring.set(first, desc);
        proof {
            let written = written_ring(ring0, id, buffers, read_len as int, avail0, wrap0);
            let cleared = written.update(
                n - 1,
                with_flags(written[n - 1], written[n - 1].flags & !NEXT),
            );
            assert(self.descriptor_ring@ =~= cleared.update(
                id.0 as int,
                with_flags(
                    cleared[id.0 as int],
                    cleared[id.0 as int].flags | (if wrap0 {
                        AVAIL
                    } else {
                        USED
                    }),
                ),
            ));
            assert forall|k: int| 0 <= k < n implies {
                let f = #[trigger] self.descriptor_ring@[k].flags;
                let wrap_at = ring_position(avail0, wrap0, len as int, k as nat).1;
                &&& (f & WRITE != 0) == (k >= read_len)
                &&& (f & NEXT != 0) == (k < n - 1)
                &&& (k == avail0) == (k == 0) ==> (f & AVAIL != 0) == wrap_at && (f & USED != 0)
                    == !wrap_at
            } by {
                let wrap_at = ring_position(avail0, wrap0, len as int, k as nat).1;
                let wr: u16 = if k >= read_len {
                    WRITE
                } else {
                    0u16
                };
                let av: u16 = if k == 0 {
                    0u16
                } else if wrap_at {
                    AVAIL
                } else {
                    USED
                };
                let first_av: u16 = if wrap0 {
                    AVAIL
                } else {
                    USED
                };
                let is_last = k == n - 1;
                let written = written_ring(ring0, id, buffers, read_len as int, avail0, wrap0);
                assert(written[k].flags == (NEXT | wr) | av);
                lemma_flag_bits(wr, av, is_last, first_av, k == avail0);
                if k == 0 {
                    assert(ring_position(avail0, wrap0, len as int, 0) == (avail0, wrap0));
                }
            }
        }
        Ok(())
    }

    /// The next descriptor the device has used: `DeviceIdle` where no request is
    /// outstanding, `WouldBlock` where the device has not used it yet.
    pub fn next_used(&self) -> (r: Result<Descriptor>)
        requires
            self.used_idx < self.descriptor_ring@.len(),
        ensures
            ({
                let d = self.descriptor_ring@[self.used_idx as int];
                if self.used_idx == self.avail_idx {
                    r == Err::<Descriptor, Error>(Error::DeviceIdle)
                } else if flags_used(d.flags) {
                    r == Ok::<Descriptor, Error>(d)
                } else {
                    r == Err::<Descriptor, Error>(Error::WouldBlock)
                }
            }),
    {
        let used_desc = self.descriptor_ring[self.used_idx];
        if self.used_idx == self.avail_idx {
            Err(Error::DeviceIdle)
        } else if used_desc.is_used() {
            Ok(used_desc)
        } else {
            Err(Error::WouldBlock)
        }
    }

    /// Move past `span` used descriptors, back by the ring's length where that passes
    /// its end.
    pub fn consume_used(&mut self, span: usize) -> (r: Result<()>)
        requires
            old(self).used_idx < old(self).descriptor_ring@.len(),
            old(self).used_idx != old(self).avail_idx,
            flags_used(old(self).descriptor_ring@[old(self).used_idx as int].flags),
            old(self).used_idx + span <= usize::MAX,
        ensures
            r is Ok,
            final(self).used_idx == (if old(self).used_idx + span > old(
                self,
            ).descriptor_ring@.len() {
                old(self).used_idx + span - old(self).descriptor_ring@.len()
            } else {
                old(self).used_idx + span
            }),
            final(self).descriptor_ring@ == old(self).descriptor_ring@,
            final(self).index == old(self).index,
            final(self).wrap_counter == old(self).wrap_counter,
            final(self).avail_idx == old(self).avail_idx,
    {
        self.used_idx = self.used_idx + span;
        if self.used_idx > self.descriptor_ring.len() {
            self.used_idx = self.used_idx - self.descriptor_ring.len();
        }
        Ok(())
    }
}

/// Offset of the queue-size register of a virtio device.
pub const QUEUE_NUM: usize = 0x038;

/// Offset of the queue-ready register.
pub const QUEUE_READY: usize = 0x044;

/// Offset of the register of the low word of the descriptor ring's address.
pub const QUEUE_DESC_LOW: usize = 0x080;

/// Offset of the register of the high word of the descriptor ring's address.
pub const QUEUE_DESC_HIGH: usize = 0x084;

/// Offset of the register of the low word of the driver event suppression's address.
pub const QUEUE_DRIVER_LOW: usize = 0x090;

/// Offset of the register of the high word of the driver event suppression's address.
pub const QUEUE_DRIVER_HIGH: usize = 0x094;

/// Offset of the register of the low word of the device event suppression's address.
pub const QUEUE_DEVICE_LOW: usize = 0x0a0;

/// Offset of the register of the high word of the device event suppression's address.
pub const QUEUE_DEVICE_HIGH: usize = 0x0a4;

/// The queue registers of a virtio device with queue 0 selected: what the driver reads
/// of them, and the writes it makes to them, in order.
#[derive(Clone, Debug)]
pub struct VirtIODevice {
    /// The largest size of the queue that the device takes.
    pub queue_num_max: u32,
    /// Non-zero iff the queue is ready.
    pub queue_ready: u32,
    /// The register writes made: each a register's offset and the value written.
    pub writes: Vec<(usize, u32)>,
}

/// The high word of an address.
pub open spec fn high_word(addr: PhysAddr) -> u32 {
    (addr.value() as int / 0x1_0000_0000int) as u32
}

/// The low word of an address.
pub open spec fn low_word(addr: PhysAddr) -> u32 {
    (addr.value() as int % 0x1_0000_0000int) as u32
}

/// The writes of an address's low and high words to two registers.
pub open spec fn address_writes(low: usize, high: usize, addr: PhysAddr) -> Seq<(usize, u32)> {
    seq![(low, low_word(addr)), (high, high_word(addr))]
}

/// What setting up the queue, with the device's largest queue size and ready flag as
/// read, a ring of `len` descriptors, and the addresses of its structures (or the
/// errors met finding them), gives: the result and the register writes in order. A
/// queue already ready, or a device that takes no queue, is refused as incompatible with
/// no writes; otherwise the queue's size is written, then the addresses in turn, the
/// first address not found ending the set-up with its error, and the queue is made
/// ready.
pub open spec fn queue_setup(
    queue_num_max: u32,
    queue_ready: u32,
    len: nat,
    descriptor_ring_addr: Result<PhysAddr>,
    driver_event_suppression_addr: Result<PhysAddr>,
    device_event_suppression_addr: Result<PhysAddr>,
) -> (Result<()>, Seq<(usize, u32)>) {
    if queue_ready != 0 || queue_num_max == 0 {
        (Err(Error::DeviceIncompatible), Seq::empty())
    } else {
        let len32 = len as u32;
        let size = if queue_num_max <= len32 {
            queue_num_max
        } else {
            len32
        };
        let w = seq![(QUEUE_NUM, size)];
        match descriptor_ring_addr {
            Err(e) => (Err(e), w),
            Ok(a) => {
                let w = w + address_writes(QUEUE_DESC_LOW, QUEUE_DESC_HIGH, a);
                match driver_event_suppression_addr {
                    Err(e) => (Err(e), w),
                    Ok(a) => {
                        let w = w + address_writes(QUEUE_DRIVER_LOW, QUEUE_DRIVER_HIGH, a);
                        match device_event_suppression_addr {
                            Err(e) => (Err(e), w),
                            Ok(a) => (
                                Ok(()),
                                w + address_writes(QUEUE_DEVICE_LOW, QUEUE_DEVICE_HIGH, a)
                                    + seq![(QUEUE_READY, 1u32)],
                            ),
                        }
                    },
                }
            },
        }
    }
}

impl VirtIODevice {
    /// Write the low and high words of an address to two registers.
    fn write_address(&mut self, low: usize, high: usize, addr: PhysAddr)
        ensures
            final(self).queue_num_max == old(self).queue_num_max,
            final(self).queue_ready == old(self).queue_ready,
            final(self).writes@ == old(self).writes@ + address_writes(low, high, addr),
    {
        let (hi32, lo32) = addr.hilo();
        self.writes.push((low, lo32));
        self.writes.push((high, hi32));
    }

    /// Set up the queue with the ring, whose descriptor ring and event suppression
    /// structures are at the addresses given (or could not be found): the result and the
    /// register writes are as `queue_setup` says; where the device takes fewer
    /// descriptors than the ring has, the ring first shrinks to that many.
    pub fn add_queue(
        &mut self,
        queue: &mut PackedRing,
        descriptor_ring_addr: Result<PhysAddr>,
        driver_event_suppression_addr: Result<PhysAddr>,
        device_event_suppression_addr: Result<PhysAddr>,
    ) -> (r: Result<()>)
        ensures
            ({
                let setup = queue_setup(
                    old(self).queue_num_max,
                    old(self).queue_ready,
                    old(queue).descriptor_ring@.len(),
                    descriptor_ring_addr,
                    driver_event_suppression_addr,
                    device_event_suppression_addr,
                );
                &&& r == setup.0
                &&& final(self).writes@ == old(self).writes@ + setup.1
            }),
            final(self).queue_num_max == old(self).queue_num_max,
            final(self).queue_ready == old(self).queue_ready,
            final(queue).index == old(queue).index,
            final(queue).wrap_counter == old(queue).wrap_counter,
            final(queue).avail_idx == old(queue).avail_idx,
            final(queue).used_idx == old(queue).used_idx,
            ({
                let len32 = old(queue).descriptor_ring@.len() as u32;
                let shrinks = old(self).queue_ready == 0 && old(self).queue_num_max != 0
                    && old(self).queue_num_max < len32;
                &&& shrinks ==> final(queue).descriptor_ring@ == old(queue).descriptor_ring@.subrange(
                    0,
                    old(self).queue_num_max as int,
                )
                &&& !shrinks ==> final(queue).descriptor_ring@ == old(queue).descriptor_ring@
            }),
    {
        if self.queue_ready != 0 {
            return Err(Error::DeviceIncompatible);
        }
        let maximum_queue_size = self.queue_num_max;
        if maximum_queue_size == 0 {
            return Err(Error::DeviceIncompatible);
        }
        let ring_len = queue.descriptor_ring_len() as u32;
        let size = queue_size(maximum_queue_size, ring_len);
        if size < ring_len {
            match queue.resize_descriptor_ring(size) {
                Ok(_) => {},
                Err(e) => {
                    return Err(e);
                },
            }
        }
        self.writes.push((QUEUE_NUM, size));
        let addr = match descriptor_ring_addr {
            Ok(addr) => addr,
            Err(e) => {
                return Err(e);
            },
        };
        self.write_address(QUEUE_DESC_LOW, QUEUE_DESC_HIGH, addr);
        let addr = match driver_event_suppression_addr {
            Ok(addr) => addr,
            Err(e) => {
                return Err(e);
            },
        };
        self.write_address(QUEUE_DRIVER_LOW, QUEUE_DRIVER_HIGH, addr);
        let addr = match device_event_suppression_addr {
            Ok(addr) => addr,
            Err(e) => {
                return Err(e);
            },
        };
        self.write_address(QUEUE_DEVICE_LOW, QUEUE_DEVICE_HIGH, addr);
        self.writes.push((QUEUE_READY, 1));
        Ok(())
    }
}

/// The flags of a descriptor of a request, as written, then with the next flag cleared
/// where it is the last, then with the first's available or used flag where it is the
/// first (which, as the first, has none of its own): the write, next, available and
/// used flags each as chosen.
proof fn lemma_flag_bits(wr: u16, av: u16, last: bool, first_av: u16, first: bool)
    by (bit_vector)
    requires
        wr == 0u16 || wr == 2u16,
        av == 0u16 || av == 0x80u16 || av == 0x8000u16,
        first_av == 0x80u16 || first_av == 0x8000u16,
    ensures
        ({
            let f0 = (1u16 | wr) | av;
            let f1 = if last {
                f0 & !1u16
            } else {
                f0
            };
            let f = if first {
                f1 | first_av
            } else {
                f1
            };
            &&& (f & 2u16 != 0u16) == (wr == 2u16)
            &&& (f & 1u16 != 0u16) == !last
            &&& !first ==> (f & 0x80u16 != 0u16) == (av == 0x80u16) && (f & 0x8000u16 != 0u16)
                == (av == 0x8000u16)
            &&& first && av == 0u16 ==> (f & 0x80u16 != 0u16) == (first_av == 0x80u16) && (f & 0x8000u16 != 0u16)
                == (first_av == 0x8000u16)
        }),
{
}

/// The descriptors the driver writes for a request follow the packed ring's rules: a
/// descriptor the device writes has the write flag and no other does, each but the last
/// has the next flag, and each but the first (which is made available last) is made
/// available as the wrap counter stands where it goes: the available flag equal to the
/// counter and the used flag its opposite.
pub proof fn lemma_request_descriptors(
    ring: Seq<Descriptor>,
    id: RequestId,
    buffers: Seq<(PhysAddr, u32)>,
    read_len: int,
    avail: int,
    wrap: bool,
    k: int,
)
    requires
        0 <= k < buffers.len() <= ring.len(),
    ensures
        ({
            let f = written_ring(ring, id, buffers, read_len, avail, wrap)[k].flags;
            let wrap_at = ring_position(avail, wrap, ring.len() as int, k as nat).1;
            &&& (f & WRITE != 0) == (k >= read_len)
            &&& (f & NEXT != 0)
            &&& k > 0 ==> (f & AVAIL != 0) == wrap_at && (f & USED != 0) == !wrap_at
            &&& k == 0 ==> (f & AVAIL == 0) && (f & USED == 0)
        }),
{
    let wrap_at = ring_position(avail, wrap, ring.len() as int, k as nat).1;
    let wr: u16 = if k >= read_len {
        WRITE
    } else {
        0u16
    };
    let av: u16 = if k == 0 {
        0u16
    } else if wrap_at {
        AVAIL
    } else {
        USED
    };
    lemma_flag_bits(wr, av, false, AVAIL, false);
}

} // verus!
