use libkernel::device::tree::{device_pages, ram_range_of_dtb, virtio_interrupt, virtio_nodes};
use libkernel::pager::{Addr, AddrRange, PhysAddr, PhysAddrRange};
use libkernel::Error;

/// A flattened device tree under construction: its structure and strings blocks.
struct Tree {
    structure: Vec<u8>,
    strings: Vec<u8>,
}

fn word(bytes: &mut Vec<u8>, w: u32) {
    bytes.extend_from_slice(&w.to_be_bytes());
}

impl Tree {
    fn new() -> Tree {
        Tree { structure: Vec::new(), strings: Vec::new() }
    }

    fn begin(&mut self, name: &str) -> &mut Tree {
        word(&mut self.structure, 1);
        self.structure.extend_from_slice(name.as_bytes());
        self.structure.push(0);
        while self.structure.len() % 4 != 0 {
            self.structure.push(0);
        }
        self
    }

    fn prop(&mut self, name: &str, cells: &[u32]) -> &mut Tree {
        word(&mut self.structure, 3);
        word(&mut self.structure, 4 * cells.len() as u32);
        word(&mut self.structure, self.strings.len() as u32);
        self.strings.extend_from_slice(name.as_bytes());
        self.strings.push(0);
        for cell in cells {
            word(&mut self.structure, *cell);
        }
        self
    }

    fn end(&mut self) -> &mut Tree {
        word(&mut self.structure, 2);
        self
    }

    fn blob(&mut self) -> Vec<u8> {
        word(&mut self.structure, 9);
        let struct_offset = 40 + 16;
        let strings_offset = struct_offset + self.structure.len();
        let total = strings_offset + self.strings.len();
        let mut blob = Vec::with_capacity(total + 64);
        for w in [
            0xd00d_feed,
            total as u32,
            struct_offset as u32,
            strings_offset as u32,
            40,
            17,
            16,
            0,
            self.strings.len() as u32,
            self.structure.len() as u32,
        ] {
            word(&mut blob, w);
        }
        blob.extend_from_slice(&[0u8; 16]);
        blob.extend_from_slice(&self.structure);
        blob.extend_from_slice(&self.strings);
        blob
    }
}

fn machine() -> Vec<u8> {
    Tree::new()
        .begin("")
        .prop("#size-cells", &[2])
        .prop("#address-cells", &[2])
        .begin("memory@40000000")
        .prop("reg", &[0, 0x4000_0000, 0, 0x800_0000])
        .end()
        .begin("virtio_mmio@a000000")
        .prop("interrupts", &[0, 0x10, 1])
        .prop("reg", &[0, 0xa00_0000, 0, 0x200])
        .end()
        .begin("virtio_mmio@a000200")
        .prop("interrupts", &[0, 0x11, 1])
        .prop("reg", &[0, 0xa00_0200, 0, 0x200])
        .end()
        .begin("virtio_mmio@a001000")
        .prop("interrupts", &[0, 0x12])
        .prop("reg", &[0, 0xa00_1000, 0, 0x200])
        .end()
        .end()
        .blob()
}

#[test]
fn ram_range_comes_from_the_memory_node() {
    let blob = machine();
    let ram = ram_range_of_dtb(&blob).unwrap();
    assert_eq!(PhysAddr::at(0x4000_0000), ram.base());
    assert_eq!(0x800_0000, ram.length());
}

#[test]
fn ram_range_needs_four_cells() {
    let blob = Tree::new()
        .begin("")
        .begin("memory@40000000")
        .prop("reg", &[0, 0x4000_0000, 0])
        .end()
        .end()
        .blob();
    assert_eq!(Err(Error::DeviceIncompatible), ram_range_of_dtb(&blob));
    let blob = Tree::new().begin("").end().blob();
    assert_eq!(Err(Error::DeviceIncompatible), ram_range_of_dtb(&blob));
    assert_eq!(Err(Error::DeviceIncompatible), ram_range_of_dtb(&[0u8; 64]));
}

#[test]
fn ram_range_cells_must_fit_their_room() {
    let with_cells = |cells: &[u32]| {
        Tree::new().begin("").begin("memory@40000000").prop("reg", cells).end().end().blob()
    };
    let eight = with_cells(&[0, 0x4000_0000, 0, 0x800_0000, 1, 0, 0, 0x1000]);
    let ram = ram_range_of_dtb(&eight).unwrap();
    assert_eq!(PhysAddr::at(0x4000_0000), ram.base());
    assert_eq!(0x800_0000, ram.length());
    let nine = with_cells(&[0, 0x4000_0000, 0, 0x800_0000, 1, 0, 0, 0x1000, 0]);
    assert_eq!(Err(Error::DeviceIncompatible), ram_range_of_dtb(&nine));
}

#[test]
fn virtio_nodes_give_their_register_ranges_in_order() {
    let blob = machine();
    let ranges = virtio_nodes(&blob).unwrap();
    assert_eq!(
        vec![
            PhysAddrRange::new(PhysAddr::at(0xa00_0000), 0x200),
            PhysAddrRange::new(PhysAddr::at(0xa00_0200), 0x200),
            PhysAddrRange::new(PhysAddr::at(0xa00_1000), 0x200),
        ],
        ranges
    );
    // two devices share a page, which is mapped once
    assert_eq!(
        vec![PhysAddr::at(0xa00_0000), PhysAddr::at(0xa00_1000)],
        device_pages(&ranges)
    );
    assert_eq!(Ok(0x10), virtio_interrupt(&blob, 0));
    assert_eq!(Ok(0x11), virtio_interrupt(&blob, 1));
    // the third node has two cells only
    assert_eq!(Err(Error::DeviceIncompatible), virtio_interrupt(&blob, 2));
    assert_eq!(Err(Error::DeviceIncompatible), virtio_interrupt(&blob, 3));
}

#[test]
fn virtio_nodes_need_two_cells_for_sizes_and_addresses() {
    let blob = Tree::new()
        .begin("")
        .prop("#size-cells", &[1])
        .prop("#address-cells", &[2])
        .end()
        .blob();
    assert_eq!(Err(Error::DeviceIncompatible), virtio_nodes(&blob));
    let blob = Tree::new().begin("").prop("#size-cells", &[2]).end().blob();
    assert_eq!(Err(Error::DeviceIncompatible), virtio_nodes(&blob));
    let blob = Tree::new()
        .begin("")
        .prop("#size-cells", &[2])
        .prop("#address-cells", &[2])
        .end()
        .blob();
    assert_eq!(Ok(Vec::new()), virtio_nodes(&blob));
}
