use libkernel::device::virtio::{
    driver_features, identify_device, make_intr, negotiate_features, queue_size, Descriptor,
    DeviceKind, PackedRing, VirtIODevice, AVAIL, NEXT, QUEUE_DESC_HIGH, QUEUE_DESC_LOW,
    QUEUE_DEVICE_HIGH, QUEUE_DEVICE_LOW, QUEUE_DRIVER_HIGH, QUEUE_DRIVER_LOW, QUEUE_NUM,
    QUEUE_READY, USED, WRITE,
};
use libkernel::device::RequestId;
use libkernel::pager::{Addr, AddrRange, PhysAddr, PhysAddrRange};
use libkernel::Error;

#[test]
fn devices_are_recognised() {
    assert_eq!(DeviceKind::Block, identify_device(0x74726976, 2, 2));
    assert_eq!(DeviceKind::Invalid, identify_device(0x74726976, 2, 0));
    assert_eq!(DeviceKind::Other(0x10), identify_device(0x74726976, 2, 0x10));
    assert_eq!(DeviceKind::Unsupported, identify_device(0x74726976, 1, 2));
    assert_eq!(DeviceKind::Unsupported, identify_device(0, 2, 2));
}

#[test]
fn features_are_negotiated() {
    assert_eq!((0x5, 0x6e56), driver_features());
    assert_eq!((0x5, 0x6e56), negotiate_features(0xffff_ffff, 0xffff_ffff));
    assert_eq!((0x1, 0x4), negotiate_features(0x1, 0x5));
    assert_eq!(16, queue_size(16, 255));
    assert_eq!(255, queue_size(1024, 255));
    assert_eq!(Ok((0, 7, 4)), make_intr(&[0, 7, 4]));
}

#[test]
fn descriptors() {
    let d = Descriptor::default();
    assert_eq!(PhysAddr::null(), d.addr);
    assert_eq!(RequestId(0xffff), d.id);
    assert!(d.is_used());
    let d = Descriptor::new(PhysAddrRange::new(PhysAddr::at(0x4000_0000), 0x1_0000_0200));
    assert_eq!(0x200, d.len);
    let mut d = d;
    d.flags = AVAIL;
    assert!(!d.is_used());
    d.flags = AVAIL | USED;
    assert!(d.is_used());
}

#[test]
fn request_goes_through_ring() {
    let mut ring = PackedRing::new(0, 4096);
    assert_eq!(255, ring.descriptor_ring_len());
    assert_eq!(0, ring.index());
    let id = ring.next(2).unwrap();
    assert_eq!(RequestId(0), id);
    let read = vec![(PhysAddr::at(0x4000_0000), 512)];
    let write = vec![(PhysAddr::at(0x4000_1000), 1)];
    ring.submit(id, &read, &write).unwrap();
    assert_eq!(2, ring.avail_idx);
    assert!(ring.wrap_counter);
    assert_eq!(NEXT | AVAIL, ring.descriptor_ring[0].flags);
    assert_eq!(WRITE | AVAIL, ring.descriptor_ring[1].flags);
    assert_eq!(512, ring.descriptor_ring[0].len);
    assert_eq!(id, ring.descriptor_ring[1].id);
    assert_eq!(Err(Error::WouldBlock), ring.next_used());
    ring.descriptor_ring[0].flags |= USED;
    let used = ring.next_used().unwrap();
    assert_eq!(PhysAddr::at(0x4000_0000), used.addr);
    ring.consume_used(2).unwrap();
    assert_eq!(Err(Error::DeviceIdle), ring.next_used());
}

#[test]
fn ring_wraps_and_fills() {
    let mut ring = PackedRing::new(1, 16 + 3 * 16);
    assert_eq!(3, ring.descriptor_ring_len());
    assert_eq!(Err(Error::DeviceAtCapacity), ring.next(4));
    let id = ring.next(3).unwrap();
    let read = vec![
        (PhysAddr::at(0x1000), 1),
        (PhysAddr::at(0x2000), 2),
        (PhysAddr::at(0x3000), 3),
    ];
    ring.submit(id, &read, &vec![]).unwrap();
    assert_eq!(0, ring.avail_idx);
    assert!(!ring.wrap_counter);
    assert_eq!(NEXT | AVAIL, ring.descriptor_ring[0].flags);
    assert_eq!(NEXT | AVAIL, ring.descriptor_ring[1].flags);
    assert_eq!(AVAIL, ring.descriptor_ring[2].flags);
    ring.resize_descriptor_ring(2).unwrap();
    assert_eq!(2, ring.descriptor_ring_len());
}

fn queue_registers(queue_num_max: u32, queue_ready: u32) -> VirtIODevice {
    VirtIODevice { queue_num_max, queue_ready, writes: Vec::new() }
}

#[test]
fn adding_a_queue_writes_its_size_addresses_and_ready() {
    let mut queue = PackedRing::new(0, 16 + 16 * 8);
    let mut device = queue_registers(4, 0);
    assert_eq!(
        Ok(()),
        device.add_queue(
            &mut queue,
            Ok(PhysAddr::at(0x1_4000_0010)),
            Ok(PhysAddr::at(0x4000_0000)),
            Ok(PhysAddr::at(0x4000_0008)),
        )
    );
    // the device takes four descriptors of the eight
    assert_eq!(4, queue.descriptor_ring_len());
    assert_eq!(
        vec![
            (QUEUE_NUM, 4),
            (QUEUE_DESC_LOW, 0x4000_0010),
            (QUEUE_DESC_HIGH, 1),
            (QUEUE_DRIVER_LOW, 0x4000_0000),
            (QUEUE_DRIVER_HIGH, 0),
            (QUEUE_DEVICE_LOW, 0x4000_0008),
            (QUEUE_DEVICE_HIGH, 0),
            (QUEUE_READY, 1),
        ],
        device.writes
    );
}

#[test]
fn adding_a_queue_keeps_a_ring_the_device_takes_whole() {
    let mut queue = PackedRing::new(0, 16 + 16 * 8);
    let mut device = queue_registers(1024, 0);
    let addr = Ok(PhysAddr::at(0x4000_0000));
    assert_eq!(Ok(()), device.add_queue(&mut queue, addr, addr, addr));
    assert_eq!(8, queue.descriptor_ring_len());
    assert_eq!((QUEUE_NUM, 8), device.writes[0]);
}

#[test]
fn adding_a_queue_is_refused_by_an_incompatible_device() {
    let addr = Ok(PhysAddr::at(0x4000_0000));
    // the queue is ready already
    let mut queue = PackedRing::new(0, 16 + 16 * 8);
    let mut device = queue_registers(4, 1);
    assert_eq!(Err(Error::DeviceIncompatible), device.add_queue(&mut queue, addr, addr, addr));
    assert!(device.writes.is_empty());
    assert_eq!(8, queue.descriptor_ring_len());
    // the device takes no queue
    let mut device = queue_registers(0, 0);
    assert_eq!(Err(Error::DeviceIncompatible), device.add_queue(&mut queue, addr, addr, addr));
    assert!(device.writes.is_empty());
}

#[test]
fn adding_a_queue_stops_at_an_address_not_found() {
    let mut queue = PackedRing::new(0, 16 + 16 * 8);
    let mut device = queue_registers(8, 0);
    let addr = Ok(PhysAddr::at(0x4000_0000));
    assert_eq!(
        Err(Error::Undefined),
        device.add_queue(&mut queue, addr, Err(Error::Undefined), addr)
    );
    assert_eq!(
        vec![(QUEUE_NUM, 8), (QUEUE_DESC_LOW, 0x4000_0000), (QUEUE_DESC_HIGH, 0)],
        device.writes
    );
}
