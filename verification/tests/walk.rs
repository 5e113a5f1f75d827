use libkernel::archs::aarch64::table::{PageBlockDescriptor, PageTableEntry, TableDescriptor};
use libkernel::archs::aarch64::walk::{
    EntryLocation, PageDirectoryWalk, PageTableMemory, PageTableWalk, TraversalOrder,
};
use libkernel::archs::test::Arch;
use libkernel::pager::{
    Addr, AddrRange, Attributes, FixedOffset, PhysAddr, Translate, VirtAddr, VirtAddrRange,
    PAGESIZE_BYTES,
};

const LEVEL_OFFSETS: [usize; 4] = [39, 30, 21, 12];
const LEVEL_WIDTH: usize = 9;
const MEMORY_BASE: usize = 0x10_0000;

fn identity() -> FixedOffset {
    FixedOffset::identity()
}

fn location(table: usize, index: usize) -> EntryLocation {
    EntryLocation { table, index }
}

#[test]
fn test_compile() {
    assert!(true);
}

#[test]
fn test_table_first() {
    let mut memory = PageTableMemory::new(VirtAddr::at(MEMORY_BASE), 1);
    let phys_addr_table = identity().translate(memory.address_of(0));
    memory.set_entry(location(0, 0), PageTableEntry(1));

    let one_page = VirtAddrRange::new(VirtAddr::null(), PAGESIZE_BYTES);

    let mut ptw = PageTableWalk::new(3, phys_addr_table, one_page, &identity(), &memory);

    let mut count = 0;
    while let Some((level, entry_range, pte)) = ptw.next() {
        assert_eq!(1, memory.entry(pte).get());
        assert_eq!(3, level);
        assert_eq!(PAGESIZE_BYTES, entry_range.length());
        assert_eq!(one_page, entry_range);
        assert_eq!(pte, location(0, 0));
        count += 1;
    }
    assert_eq!(1, count);
}

#[test]
fn test_table_last() {
    let mut memory = PageTableMemory::new(VirtAddr::at(MEMORY_BASE), 1);
    let phys_addr_table = identity().translate(memory.address_of(0));
    memory.set_entry(location(0, 511), PageTableEntry(1));

    let one_page = VirtAddrRange::new(VirtAddr::at(511 * PAGESIZE_BYTES), PAGESIZE_BYTES);

    let mut ptw = PageTableWalk::new(3, phys_addr_table, one_page, &identity(), &memory);

    let mut count = 0;
    while let Some((level, entry_range, pte)) = ptw.next() {
        assert_eq!(1, memory.entry(pte).get());
        assert_eq!(3, level);
        assert_eq!(PAGESIZE_BYTES, entry_range.length());
        assert_eq!(one_page, entry_range);
        assert_eq!(pte, location(0, 511));
        count += 1;
    }
    assert_eq!(1, count);
}

#[test]
fn test_table_span() {
    let mut memory = PageTableMemory::new(VirtAddr::at(MEMORY_BASE), 1);
    let phys_addr_table = identity().translate(memory.address_of(0));
    memory.set_entry(location(0, 200), PageTableEntry(1));
    memory.set_entry(location(0, 201), PageTableEntry(1));
    memory.set_entry(location(0, 202), PageTableEntry(1));
    memory.set_entry(location(0, 203), PageTableEntry(1));

    let page_range = VirtAddrRange::new(VirtAddr::at(200 * PAGESIZE_BYTES), 4 * PAGESIZE_BYTES);

    let mut ptw = PageTableWalk::new(3, phys_addr_table, page_range, &identity(), &memory);

    let mut count = 0;
    while let Some((level, entry_range, pte)) = ptw.next() {
        assert_eq!(1, memory.entry(pte).get());
        assert_eq!(3, level);
        assert_eq!(PAGESIZE_BYTES, entry_range.length());
        assert!(page_range.covers(&entry_range));
        count += 1;
    }
    assert_eq!(4, count);
}

#[test]
fn test_table_complete() {
    let mut memory = PageTableMemory::new(VirtAddr::at(MEMORY_BASE), 1);
    let phys_addr_table = identity().translate(memory.address_of(0));
    for i in 0..512 {
        memory.set_entry(location(0, i), PageTableEntry(1));
    }

    let page_range = VirtAddrRange::new(VirtAddr::null(), 512 * PAGESIZE_BYTES);

    let mut ptw = PageTableWalk::new(3, phys_addr_table, page_range, &identity(), &memory);

    let mut count = 0;
    while let Some((level, entry_range, pte)) = ptw.next() {
        assert_eq!(1, memory.entry(pte).get());
        assert_eq!(3, level);
        assert_eq!(PAGESIZE_BYTES, entry_range.length());
        assert!(page_range.covers(&entry_range));
        count += 1;
    }
    assert_eq!(512, count);
}

#[test]
fn test_branch_table_span() {
    let mut memory = PageTableMemory::new(VirtAddr::at(MEMORY_BASE), 1);
    let phys_addr_table = identity().translate(memory.address_of(0));

    for target_level in 0..LEVEL_OFFSETS.len() {
        let level_offset = LEVEL_OFFSETS[target_level];
        let page_range =
            VirtAddrRange::new(VirtAddr::at(0x123456 << level_offset), 4 << level_offset);

        let mut ptw = PageTableWalk::new(target_level, phys_addr_table, page_range, &identity(), &memory);

        let mut count = 0;
        while let Some((level, entry_range, pte)) = ptw.next() {
            let value = memory.entry(pte).get();
            memory.set_entry(pte, PageTableEntry(value + 1));
            assert_eq!(level as usize, target_level);
            assert_eq!(1 << level_offset, entry_range.length());
            assert!(page_range.covers(&entry_range));
            count += 1;
        }
        assert_eq!(4, count);
    }

    for i in 0..512 {
        if i >= 86 && i <= 89 {
            assert_eq!(4, memory.entry(location(0, i)).get());
        } else {
            assert_eq!(0, memory.entry(location(0, i)).get());
        }
    }
}

#[test]
fn test_sub_table_span() {
    let mut memory = PageTableMemory::new(VirtAddr::at(MEMORY_BASE), 1);
    let phys_addr_table = identity().translate(memory.address_of(0));

    let branch_level = 2;
    let level_offset = LEVEL_OFFSETS[branch_level + 1];
    let target_range =
        VirtAddrRange::new(VirtAddr::at(0x123456 << level_offset), 4 * PAGESIZE_BYTES);

    let pte = PageTableEntry::from_table_descriptor(TableDescriptor::new_entry(
        Some(phys_addr_table),
        Attributes::kernel_data(),
    ));
    let mut ptw =
        PageTableWalk::within(branch_level as u8, target_range, &pte, &identity(), &memory);

    let mut count = 0;
    while let Some((level, entry_range, pte)) = ptw.next() {
        let value = memory.entry(pte).get();
        memory.set_entry(pte, PageTableEntry(value + 1));
        assert_eq!(branch_level + 1, level as usize);
        assert_eq!(PAGESIZE_BYTES, entry_range.length());
        assert!(target_range.covers(&entry_range));
        count += 1;
    }
    assert_eq!(4, count);

    for i in 0..512 {
        if i >= 86 && i <= 89 {
            assert_eq!(1, memory.entry(location(0, i)).get());
        } else {
            assert_eq!(0, memory.entry(location(0, i)).get());
        }
    }
}

#[test]
fn test_branch_table_span_kernel() {
    let mut memory = PageTableMemory::new(VirtAddr::at(MEMORY_BASE), 1);
    let phys_addr_table = identity().translate(memory.address_of(0));

    for target_level in 1..LEVEL_OFFSETS.len() {
        let level_offset = LEVEL_OFFSETS[target_level];
        let page_range = VirtAddrRange::new(
            Arch::kernel_base().increment(200 << level_offset),
            4 << level_offset,
        );

        let mut ptw = PageTableWalk::new(target_level, phys_addr_table, page_range, &identity(), &memory);

        let mut count = 0;
        while let Some((level, entry_range, pte)) = ptw.next() {
            let value = memory.entry(pte).get();
            memory.set_entry(pte, PageTableEntry(value + 1));
            assert_eq!(level as usize, target_level);
            assert_eq!(1 << level_offset, entry_range.length());
            assert!(page_range.covers(&entry_range));
            count += 1;
        }
        assert_eq!(4, count);
    }

    for i in 0..512 {
        if i >= 200 && i <= 203 {
            assert_eq!(3, memory.entry(location(0, i)).get());
        } else {
            assert_eq!(0, memory.entry(location(0, i)).get());
        }
    }
}

/// Walk in preorder from the root table at `root`, making each entry above level 3 a
/// table entry for the next free table, and each leaf an invalid page entry.
fn build_down(memory: &mut PageTableMemory, range: VirtAddrRange, first_level: u8, root: usize) {
    let mut allocated = root + 1;
    let root_page_table = identity().translate(memory.address_of(root));
    let mut walk = PageDirectoryWalk::new(
        TraversalOrder::Preorder,
        range,
        first_level,
        root_page_table,
        &identity(),
        memory,
    );
    while let Some((level, _virt_addr_range, pte)) = walk.next(memory) {
        if level < 3 {
            let new_page_table = identity().translate(memory.address_of(allocated));
            allocated += 1;
            let td = TableDescriptor::new_entry(Some(new_page_table), Attributes::user_data());
            memory.set_entry(pte, PageTableEntry::from_table_descriptor(td));
        } else {
            let pbd = PageBlockDescriptor::new_entry(level, None, Attributes::user_rwx(), false);
            memory.set_entry(pte, PageTableEntry::from_page_block_descriptor(pbd));
        }
    }
}

fn check_built(memory: &PageTableMemory, first: usize, index: usize) {
    for i in first..4 {
        let pte = memory.entry(location(i, index));
        if i < 3 {
            assert!(pte.is_valid());
            assert!(pte.is_table(i as u8));
            assert!(pte.next_level_table_address() != PhysAddr::null());
        } else {
            assert!(!pte.is_null());
            assert!(!pte.is_valid());
            assert!(!pte.is_table(i as u8));
        }
    }
}

#[test]
fn test_left() {
    let one_page = VirtAddrRange::new(VirtAddr::null(), PAGESIZE_BYTES);
    let mut memory = PageTableMemory::new(VirtAddr::at(MEMORY_BASE), 4);
    build_down(&mut memory, one_page, 0, 0);
    check_built(&memory, 0, 0);
}

#[test]
fn test_right() {
    let top = 1usize << (LEVEL_OFFSETS[0] + LEVEL_WIDTH);
    let one_page = VirtAddrRange::new(VirtAddr::at(top).decrement(PAGESIZE_BYTES), PAGESIZE_BYTES);
    let mut memory = PageTableMemory::new(VirtAddr::at(MEMORY_BASE), 4);
    build_down(&mut memory, one_page, 0, 0);
    check_built(&memory, 0, 511);
}

#[test]
fn test_right_kernel() {
    let top = 1u128 << 64;
    let one_page = VirtAddrRange::new(
        VirtAddr::at((top - PAGESIZE_BYTES as u128) as usize),
        PAGESIZE_BYTES,
    );
    let mut memory = PageTableMemory::new(VirtAddr::at(MEMORY_BASE), 4);
    build_down(&mut memory, one_page, 1, 1);
    check_built(&memory, 1, 511);
}

#[test]
fn preorder_visits_tables_before_entries() {
    let range = VirtAddrRange::new(VirtAddr::at(0x20_0000 - 2 * PAGESIZE_BYTES), 2 * PAGESIZE_BYTES);
    let mut memory = PageTableMemory::new(VirtAddr::at(MEMORY_BASE), 4);
    build_down(&mut memory, range, 0, 0);
    // Walk the built tree again: the level 0, 1 and 2 entries come before the two
    // level 3 entries of the last table.
    let root = identity().translate(memory.address_of(0));
    let mut walk =
        PageDirectoryWalk::new(TraversalOrder::Preorder, range, 0, root, &identity(), &memory);
    let mut levels = Vec::new();
    while let Some((level, entry_range, pte)) = walk.next(&memory) {
        levels.push(level);
        if level == 3 {
            assert_eq!(3, pte.table);
            assert_eq!(PAGESIZE_BYTES, entry_range.length());
        }
    }
    assert_eq!(levels, vec![0, 1, 2, 3, 3]);
    assert!(memory.entry(location(3, 510)).get() != 0);
    assert!(memory.entry(location(3, 511)).get() != 0);
    assert_eq!(0, memory.entry(location(3, 509)).get());
}

#[test]
fn postorder_hands_out_sub_table_entries_first() {
    let mut memory = PageTableMemory::new(VirtAddr::at(MEMORY_BASE), 2);
    let second = identity().translate(memory.address_of(1));
    let table_entry = PageTableEntry::from_table_descriptor(TableDescriptor::new_entry(
        Some(second),
        Attributes::kernel_data(),
    ));
    memory.set_entry(location(0, 1), table_entry);
    let root = identity().translate(memory.address_of(0));
    let range = VirtAddrRange::new(VirtAddr::null(), 3 * 0x20_0000);
    let mut walk =
        PageDirectoryWalk::new(TraversalOrder::Postorder, range, 2, root, &identity(), &memory);
    let mut visited = Vec::new();
    while let Some((level, _entry_range, pte)) = walk.next(&memory) {
        visited.push((level, pte.table, pte.index));
    }
    // the second level 2 entry's table comes before the entry itself
    let mut expected = vec![(2, 0, 0)];
    for k in 0..512 {
        expected.push((3, 1, k));
    }
    expected.push((2, 0, 1));
    expected.push((2, 0, 2));
    assert_eq!(expected, visited);
}

#[test]
fn preorder_and_postorder_hand_out_the_same_entries() {
    let mut memory = PageTableMemory::new(VirtAddr::at(MEMORY_BASE), 2);
    let second = identity().translate(memory.address_of(1));
    let table_entry = PageTableEntry::from_table_descriptor(TableDescriptor::new_entry(
        Some(second),
        Attributes::kernel_data(),
    ));
    memory.set_entry(location(0, 1), table_entry);
    let root = identity().translate(memory.address_of(0));
    // from the middle of the second level 2 entry to the middle of the third
    let range = VirtAddrRange::new(VirtAddr::at(0x30_0000), 0x20_0000);
    let collect = |order: TraversalOrder| {
        let mut walk = PageDirectoryWalk::new(order, range, 2, root, &identity(), &memory);
        let mut visited = Vec::new();
        while let Some((level, _entry_range, pte)) = walk.next(&memory) {
            visited.push((level, pte.table, pte.index));
        }
        visited
    };
    let pre = collect(TraversalOrder::Preorder);
    let post = collect(TraversalOrder::Postorder);
    // the upper half of the second entry's table, then the third entry
    let mut expected_pre = vec![(2, 0, 1)];
    for k in 256..512 {
        expected_pre.push((3, 1, k));
    }
    expected_pre.push((2, 0, 2));
    assert_eq!(expected_pre, pre);
    let mut expected_post: Vec<(u8, usize, usize)> = (256..512).map(|k| (3, 1, k)).collect();
    expected_post.push((2, 0, 1));
    expected_post.push((2, 0, 2));
    assert_eq!(expected_post, post);
}

#[test]
fn a_walk_hands_out_every_entry_its_range_overlaps() {
    // a page-long range from the middle of entry 0 overlaps entries 0 and 1
    let memory = PageTableMemory::new(VirtAddr::at(MEMORY_BASE), 1);
    let root = identity().translate(memory.address_of(0));
    let range = VirtAddrRange::new(VirtAddr::at(0x800), PAGESIZE_BYTES);
    let mut walk =
        PageDirectoryWalk::new(TraversalOrder::Preorder, range, 3, root, &identity(), &memory);
    let mut visited = Vec::new();
    while let Some((level, entry_range, pte)) = walk.next(&memory) {
        visited.push((level, entry_range.base(), pte.index));
    }
    assert_eq!(
        vec![(3, VirtAddr::at(0), 0), (3, VirtAddr::at(PAGESIZE_BYTES), 1)],
        visited
    );
    let mut walk = PageTableWalk::new(3, root, range, &identity(), &memory);
    assert!(walk.next().is_some());
    assert!(walk.next().is_some());
    assert!(walk.next().is_none());
}

use libkernel::archs::aarch64::pager::{Arch as Aarch64, PageDirectory};

#[test]
fn test_mapping() {
    let mut page_dir = PageDirectory::new();
    assert!(page_dir.ttb0.is_none());
    assert!(page_dir.ttb1.is_none());

    let base = Aarch64::kernel_base();
    let target_range = VirtAddrRange::new(base, 0x1000);
    let translation = FixedOffset::new(PhysAddr::null(), base);
    let attributes = Attributes::device();
    let mut memory = PageTableMemory::new(VirtAddr::at(MEMORY_BASE), 3);
    let mem_access_translation = identity();

    assert!(page_dir
        .map_translation(target_range, translation, attributes, &mut memory, &mem_access_translation)
        .is_ok());
    assert_eq!(page_dir.ttb1, Some(PhysAddr::at(MEMORY_BASE)));
    assert!(page_dir.ttb0.is_none());
    // the root, level 2 and level 3 tables
    let l1 = memory.entry(location(0, 0));
    assert!(l1.is_valid() && l1.is_table(1));
    assert_eq!(PhysAddr::at(MEMORY_BASE + 0x1000), l1.next_level_table_address());
    let l2 = memory.entry(location(1, 0));
    assert!(l2.is_valid() && l2.is_table(2));
    let page = PageBlockDescriptor::from_entry(memory.entry(location(2, 0)));
    assert_eq!(PhysAddr::null(), page.output_address());
    assert_eq!(
        PageBlockDescriptor::new_entry(3, Some(PhysAddr::null()), attributes, false).get(),
        page.get()
    );
}

#[test]
fn test_demand_mapping() {
    let mut page_dir = PageDirectory::new();
    let base = Aarch64::kernel_base();
    let target_range = VirtAddrRange::new(base, 0x10_0000_0000);
    let translation = FixedOffset::new(PhysAddr::null(), base);
    let attributes = Attributes::kernel_data();
    let mut memory = PageTableMemory::new(VirtAddr::at(MEMORY_BASE), 1);
    let mem_access_translation = identity();

    assert!(page_dir
        .map_translation(target_range, translation, attributes, &mut memory, &mem_access_translation)
        .is_ok());
    // 64 level 1 entries wait for their tables until accessed
    for i in 0..64 {
        let entry = memory.entry(location(0, i));
        assert!(!entry.is_valid());
        assert!(entry.is_table(1));
    }
    assert!(memory.entry(location(0, 64)).is_null());
}

#[test]
fn mapping_user_pages_then_walking_finds_them() {
    let mut page_dir = PageDirectory::new();
    let target_range = VirtAddrRange::new(VirtAddr::at(0x4000_0000), 0x2000);
    let translation = FixedOffset::identity();
    let mut memory = PageTableMemory::new(VirtAddr::at(MEMORY_BASE), 4);
    let mem_access_translation = identity();
    assert_eq!(
        Ok(target_range),
        page_dir.map_translation(
            target_range,
            translation,
            Attributes::user_data(),
            &mut memory,
            &mem_access_translation
        )
    );
    assert_eq!(page_dir.ttb0, Some(PhysAddr::at(MEMORY_BASE)));
    let first = PageBlockDescriptor::from_entry(memory.entry(location(3, 0)));
    let second = PageBlockDescriptor::from_entry(memory.entry(location(3, 1)));
    assert_eq!(PhysAddr::at(0x4000_0000), first.output_address());
    assert_eq!(PhysAddr::at(0x4000_1000), second.output_address());
    assert!(memory.entry(location(3, 2)).is_null());

    // a walk over the mapped range hands out the two leaf entries last
    let root = page_dir.ttb0.unwrap();
    let mut walk =
        PageDirectoryWalk::new(TraversalOrder::Preorder, target_range, 0, root, &identity(), &memory);
    let mut leaves = Vec::new();
    while let Some((level, entry_range, pte)) = walk.next(&memory) {
        if level == 3 {
            leaves.push((entry_range.base(), memory.entry(pte)));
        }
    }
    assert_eq!(2, leaves.len());
    assert_eq!(VirtAddr::at(0x4000_1000), leaves[1].0);
    assert_eq!(PhysAddr::at(0x4000_1000), leaves[1].1.next_level_table_address());
}

#[test]
fn mapping_fails_without_free_tables() {
    let mut page_dir = PageDirectory::new();
    let target_range = VirtAddrRange::new(VirtAddr::at(0x4000_0000), 0x1000);
    let mut memory = PageTableMemory::new(VirtAddr::at(MEMORY_BASE), 2);
    let result = page_dir.map_translation(
        target_range,
        FixedOffset::identity(),
        Attributes::user_data(),
        &mut memory,
        &identity(),
    );
    assert_eq!(Err(libkernel::Error::OutOfMemory), result);
    assert!(page_dir.ttb0.is_some());
}

use libkernel::pager::layout::LayoutSources;
use libkernel::pager::paging::Pager;
use libkernel::pager::frames::{FrameTable, FrameTableInner, FrameTableNode};
use libkernel::pager::PhysAddrRange;

fn aarch64_sources() -> LayoutSources {
    LayoutSources {
        kernel_base: Aarch64::kernel_base(),
        ram: Aarch64::ram_range().unwrap(),
        text: PhysAddrRange::new(PhysAddr::at(0x4008_0000), 0x1_8000),
        static_image: PhysAddrRange::new(PhysAddr::at(0x4009_8000), 0x1000),
        data: PhysAddrRange::new(PhysAddr::at(0x4009_9000), 0x1000),
        frame_table: PhysAddrRange::new(PhysAddr::at(0x4010_0000), 0x1000),
    }
}

#[test]
fn kernel_ranges_are_mapped() {
    const GB: usize = 0x4000_0000;
    let memory = PageTableMemory::new(VirtAddr::at(MEMORY_BASE), 16);
    let mut pager = Pager::new(memory, identity());
    assert_eq!(Ok(()), pager.map_ranges(aarch64_sources()));
    let kernel_base = Aarch64::kernel_base();
    assert_eq!(Some(PhysAddr::at(MEMORY_BASE)), pager.page_directory.ttb1);
    assert!(pager.page_directory.ttb0.is_some());

    // RAM is mapped by 2 MB blocks at the kernel base
    let ram_l1 = pager.memory.entry(location(0, 0));
    assert!(ram_l1.is_valid() && ram_l1.is_table(1));
    let block = pager.memory.entry(location(1, 1));
    assert!(block.is_valid() && !block.is_table(2));
    assert_eq!(PhysAddr::at(0x4020_0000), block.next_level_table_address());

    // the heap waits for its tables until accessed
    let heap = pager.memory.entry(location(0, 19));
    assert!(!heap.is_valid() && heap.is_table(1));

    // devices take pages from the top of the device range
    let uart = pager
        .map_device(PhysAddrRange::new(PhysAddr::at(0x900_0000), 0x1000))
        .unwrap();
    assert_eq!(kernel_base.increment(11 * GB - 0x1000), uart.base());
    assert_eq!(0x1000, uart.length());
}

/// The descriptor that a walk from a root table ends at, following table descriptors by
/// their addresses (tables reached through the identity).
fn descriptor_for(memory: &PageTableMemory, root: PhysAddr, first_level: usize, va: usize) -> PageTableEntry {
    let mut table = memory.table_index(VirtAddr::at(root.get())).unwrap();
    let mut level = first_level;
    loop {
        let index = (va >> LEVEL_OFFSETS[level]) & ((1 << LEVEL_WIDTH) - 1);
        let entry = memory.entry(location(table, index));
        if level < 3 && entry.is_valid() && entry.is_table(level as u8) {
            table = memory
                .table_index(VirtAddr::at(entry.next_level_table_address().get()))
                .unwrap();
            level += 1;
        } else {
            return entry;
        }
    }
}

#[test]
fn mapping_across_tables_then_walking_finds_each_page() {
    // from a 1 GiB boundary, 2 MiB and three pages: two leaf tables
    let mut page_dir = PageDirectory::new();
    let start = 0x4000_0000;
    let target_range = VirtAddrRange::new(VirtAddr::at(start), 0x20_3000);
    let attributes = Attributes::user_data();
    let mut memory = PageTableMemory::new(VirtAddr::at(MEMORY_BASE), 5);
    assert_eq!(
        Ok(target_range),
        page_dir.map_translation(
            target_range,
            FixedOffset::identity(),
            attributes,
            &mut memory,
            &identity()
        )
    );
    let root = page_dir.ttb0.unwrap();
    for page in [0, 1, 511, 512, 513, 514] {
        let va = start + page * PAGESIZE_BYTES;
        let entry = descriptor_for(&memory, root, 0, va + 0x123);
        assert_eq!(
            PageBlockDescriptor::new_entry(3, Some(PhysAddr::at(va)), attributes, false).get(),
            entry.get()
        );
    }
    // the page after the range is not mapped
    assert!(descriptor_for(&memory, root, 0, start + 0x20_3000).is_null());
}

#[test]
fn mapping_goes_through_every_entry_the_range_overlaps() {
    // six pages across a 2 MiB boundary overlap two 2 MiB entries, and each is mapped
    let mut page_dir = PageDirectory::new();
    let start = 0x4020_0000 - 0x3000;
    let target_range = VirtAddrRange::new(VirtAddr::at(start), 0x6000);
    let attributes = Attributes::user_data();
    let mut memory = PageTableMemory::new(VirtAddr::at(MEMORY_BASE), 6);
    assert_eq!(
        Ok(target_range),
        page_dir.map_translation(
            target_range,
            FixedOffset::identity(),
            attributes,
            &mut memory,
            &identity()
        )
    );
    let root = page_dir.ttb0.unwrap();
    for page in 0..6 {
        let va = start + page * PAGESIZE_BYTES;
        assert_eq!(
            PageBlockDescriptor::new_entry(3, Some(PhysAddr::at(va)), attributes, false).get(),
            descriptor_for(&memory, root, 0, va).get()
        );
    }
    assert!(descriptor_for(&memory, root, 0, start + 0x6000).is_null());
}

#[test]
fn dma_pages_map_a_zeroed_frame_below_the_devices() {
    const GB: usize = 0x4000_0000;
    let memory = PageTableMemory::new(VirtAddr::at(MEMORY_BASE), 16);
    let mut pager = Pager::new(memory, identity());
    assert_eq!(Ok(()), pager.map_ranges(aarch64_sources()));
    let kernel_base = Aarch64::kernel_base();
    let nodes = vec![FrameTableNode::null(); 2];
    let ram_range = PhysAddrRange::new(PhysAddr::at(0x4000_0000), 2 * 4096);
    let mut frames = FrameTable(Some(FrameTableInner::new(nodes, ram_range, identity())));

    let (dma, zero_at) = pager.map_dma(1, &mut frames).unwrap();
    assert_eq!(kernel_base.increment(11 * GB - 0x1000), dma.base());
    assert_eq!(0x1000, dma.length());
    // the frame came from the free frames, so it is still to be zeroed
    assert_eq!(Some(VirtAddr::at(0x4000_0000)), zero_at);
    let uart = pager
        .map_device(PhysAddrRange::new(PhysAddr::at(0x900_0000), 0x1000))
        .unwrap();
    assert_eq!(kernel_base.increment(11 * GB - 0x2000), uart.base());
}

#[test]
fn dma_pages_need_a_frame() {
    let memory = PageTableMemory::new(VirtAddr::at(MEMORY_BASE), 16);
    let mut pager = Pager::new(memory, identity());
    assert_eq!(Ok(()), pager.map_ranges(aarch64_sources()));
    let mut frames = FrameTable(None);
    assert_eq!(Err(libkernel::Error::UnInitialised), pager.map_dma(1, &mut frames).map(|_| ()));
    // without device address space the pages are refused before any frame is taken
    let memory = PageTableMemory::new(VirtAddr::at(MEMORY_BASE), 16);
    let mut pager = Pager::new(memory, identity());
    assert_eq!(Err(libkernel::Error::OutOfMemory), pager.map_dma(1, &mut frames).map(|_| ()));
}

#[test]
fn a_walk_may_reach_past_its_table() {
    // a range from the last entry of a leaf table over two pages: the walk is made, and
    // its first entry is the table's last
    let memory = PageTableMemory::new(VirtAddr::at(MEMORY_BASE), 1);
    let root = identity().translate(memory.address_of(0));
    let range = VirtAddrRange::new(VirtAddr::at(511 * PAGESIZE_BYTES), 2 * PAGESIZE_BYTES);
    let mut walk =
        PageDirectoryWalk::new(TraversalOrder::Preorder, range, 3, root, &identity(), &memory);
    let (level, entry_range, pte) = walk.next(&memory).unwrap();
    assert_eq!(3, level);
    assert_eq!(VirtAddr::at(511 * PAGESIZE_BYTES), entry_range.base());
    assert_eq!(511, pte.index);
}
