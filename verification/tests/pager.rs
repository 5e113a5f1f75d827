use libkernel::archs::test::Arch;
use libkernel::pager::deque::Deque;
use libkernel::pager::frame_table;
use libkernel::pager::frames::{FrameTable, FrameTableInner, FrameTableNode, FrameUse, Purpose};
use libkernel::pager::layout::{layout, LayoutSources, RangeContent};
use libkernel::pager::range_entry::Range;
use libkernel::pager::{
    Addr, AddrRange, AttributeField, Attributes, FixedOffset, Identity, NullTranslation,
    OwnedMapping, Page, PageBumpAllocator, PhysAddr, PhysAddrRange, Translate, VirtAddr,
    VirtAddrRange,
};

const FREE: u8 = 0;
const KERNEL: u8 = 1;
const USER_HOT: u8 = 2;
const USER_WARM: u8 = 3;
const USER_COLD: u8 = 4;

fn deque() -> Deque<u64> {
    Deque::<u64>::new(10, 5, FREE)
}

#[test]
fn test_alloc() {
    let mut allocator = PageBumpAllocator::new();
    assert!(allocator.allocate(1).is_err());

    let base = VirtAddr::at(0xd000);
    let virt_addr_range = VirtAddrRange::new(base, 0x3000);
    assert!(allocator.reset(virt_addr_range).is_ok());

    assert_eq!(allocator.allocate(1), Ok(VirtAddrRange::new(VirtAddr::at(0xf000), 0x1000)));
    assert_eq!(allocator.allocate(2), Ok(VirtAddrRange::new(VirtAddr::at(0xd000), 0x2000)));
    assert!(allocator.allocate(1).is_err());
}

#[test]
fn allocations_after_reset_stay_in_range_and_stack_down() {
    let mut allocator = PageBumpAllocator::new();
    let range = VirtAddrRange::new(VirtAddr::at(0x10000), 0x4000);
    assert!(allocator.reset(range).is_ok());
    assert_eq!(allocator.allocate(3), Ok(VirtAddrRange::new(VirtAddr::at(0x11000), 0x3000)));
    // asks for more than the one page left: refused, nothing taken
    assert!(allocator.allocate(2).is_err());
    assert_eq!(allocator.allocate(1), Ok(VirtAddrRange::new(VirtAddr::at(0x10000), 0x1000)));
    assert!(allocator.allocate(1).is_err());
    // a reset starts over at the top of the new range
    assert!(allocator.reset(range).is_ok());
    assert_eq!(allocator.allocate(4), Ok(VirtAddrRange::new(VirtAddr::at(0x10000), 0x4000)));
}

#[test]
fn frames_empty() {
    let mut alloc = FrameTable(None);
    assert!(alloc.alloc_zeroed(Purpose::User).is_err());
}

#[test]
fn moving() {
    const FRAME_TABLE_LENGTH: usize = 3;
    let nodes = vec![FrameTableNode::null(); FRAME_TABLE_LENGTH];
    let pages_base = PhysAddr::at(0x4000_0000);
    let mem_translation = FixedOffset::identity();
    let ram_range = PhysAddrRange::new(pages_base, 3 * 4096);

    let mut inner = FrameTableInner::new(nodes, ram_range, mem_translation);

    inner
        .move_free_range(PhysAddrRange::new(pages_base.increment(0x1000), 0x1000), FrameUse::KernelHot)
        .unwrap();
}

#[test]
fn allocating_same() {
    const FRAME_TABLE_LENGTH: usize = 3;
    let nodes = vec![FrameTableNode::null(); FRAME_TABLE_LENGTH];
    let mem_translation = FixedOffset::identity();
    let ram_range = PhysAddrRange::new(PhysAddr::at(0x4000_0000), 3 * 4096);

    let alloc = FrameTableInner::new(nodes, ram_range, mem_translation);
    assert_eq!(alloc.ram_page(2), PhysAddr::at(0x4000_2000));

    let mut alloc: FrameTable = FrameTable(Some(alloc));

    assert!(alloc.alloc_for_overwrite(Purpose::Kernel).is_ok());
    assert!(alloc.alloc_zeroed(Purpose::User).is_ok());
    assert!(alloc.alloc_for_overwrite(Purpose::Kernel).is_ok());
    assert!(alloc.alloc_for_overwrite(Purpose::LeafPageTable).is_err());
    assert!(alloc.alloc_zeroed(Purpose::LeafPageTable).is_err());
}

#[test]
fn frames_allocated_in_order() {
    let nodes = vec![FrameTableNode::null(); 2];
    let ram_range = PhysAddrRange::new(PhysAddr::at(0x4000_0000), 2 * 4096);
    let mut alloc = FrameTable(Some(FrameTableInner::new(nodes, ram_range, FixedOffset::identity())));
    let (first, zero_at) = alloc.alloc_zeroed(Purpose::Kernel).unwrap();
    assert_eq!(first, PhysAddr::at(0x4000_0000));
    assert_eq!(zero_at, Some(VirtAddr::at(0x4000_0000)));
    assert_eq!(alloc.alloc_for_overwrite(Purpose::User), Ok(PhysAddr::at(0x4000_1000)));
    assert!(alloc.alloc_for_overwrite(Purpose::User).is_err());
}

#[test]
fn zeroed_frames_are_never_handed_out_twice() {
    let nodes = vec![FrameTableNode::null(); 4];
    let ram_range = PhysAddrRange::new(PhysAddr::at(0x8000_0000), 4 * 4096);
    let mut alloc = FrameTable(Some(FrameTableInner::new(nodes, ram_range, FixedOffset::identity())));
    let purposes = [Purpose::User, Purpose::Kernel, Purpose::LeafPageTable, Purpose::BranchPageTable];
    let mut seen: Vec<PhysAddr> = Vec::new();
    for purpose in purposes {
        let (frame, _) = alloc.alloc_zeroed(purpose).unwrap();
        assert!(!seen.contains(&frame));
        assert!(ram_range.contains(frame));
        assert_eq!(frame.get() % 4096, 0);
        seen.push(frame);
    }
    assert_eq!(seen.len(), 4);
    assert!(alloc.alloc_zeroed(Purpose::DirectMemoryAccess).is_err());
}

#[test]
fn deque_test_init() {
    let d = deque();
    assert!(d.check_invariant());
    assert!(!d.is_empty(FREE));
    assert!(d.is_empty(KERNEL));
    assert!(d.is_empty(USER_HOT));
    assert!(d.is_empty(USER_WARM));
    assert!(d.is_empty(USER_COLD));
}

#[test]
fn test_remove_seq_to() {
    let mut d = deque();
    d.remove_seq_to(3, 3, KERNEL).unwrap();
    d.remove_seq_to(4, 5, KERNEL).unwrap();
    d.remove_seq_to(7, 9, USER_HOT).unwrap();
    d.remove_seq_to(0, 0, KERNEL).unwrap();
    assert!(d.check_invariant());
}

#[test]
fn test_remove_to() {
    let mut d = deque();
    d.remove_to(3, KERNEL).unwrap();
    d.remove_to(4, USER_HOT).unwrap();
    d.remove_to(6, USER_WARM).unwrap();
    d.remove_to(0, USER_COLD).unwrap();
    d.remove_to(9, KERNEL).unwrap();
    assert!(d.check_invariant());
}

#[test]
fn test_drip_to() {
    let mut d = deque();
    d.remove_seq_to(3, 5, KERNEL).unwrap();
    d.remove_seq_to(0, 1, USER_WARM).unwrap();
    d.remove_seq_to(7, 8, USER_WARM).unwrap();
    d.remove_to(1, USER_HOT).unwrap();
    d.remove_to(7, USER_HOT).unwrap();
    let result = d.clear_to(USER_HOT, USER_WARM).unwrap();
    assert_eq!(result, (7, 1));
    d.drip_to(USER_WARM, USER_COLD).unwrap();
    d.drip_to(USER_WARM, USER_COLD).unwrap();
    d.drip_n_to(USER_COLD, 2, FREE).unwrap();
    assert!(d.is_empty(USER_COLD));
    assert!(d.drip_to(USER_COLD, FREE).is_err());
    assert!(d.check_invariant());
}

#[test]
fn test_clear_to() {
    let mut d = deque();
    d.clear_to(FREE, USER_WARM).unwrap();
    d.drip_to(USER_WARM, USER_HOT).unwrap();
    d.clear_to(USER_HOT, USER_WARM).unwrap();
    assert!(d.clear_to(USER_HOT, USER_WARM).is_err());
    assert!(d.check_invariant());
}

#[test]
fn deque_counts_follow_moves() {
    let mut d = deque();
    assert_eq!(10, d.count(10 + FREE as usize));
    d.remove_seq_to(2, 4, KERNEL).unwrap();
    assert_eq!(3, d.count(10 + KERNEL as usize));
    assert_eq!(7, d.count(10 + FREE as usize));
    assert_eq!(d.seq(KERNEL), (2, 4));
    assert_eq!(d.drip_to(KERNEL, USER_HOT), Ok(4));
    assert_eq!(2, d.count(10 + KERNEL as usize));
    assert_eq!(*d.index(2), 0);
    assert!(d.check_invariant());
}

#[test]
fn mod_empty() {
    let mut alloc = frame_table::FrameTable(None);
    assert!(alloc.alloc_zeroed(Purpose::User).is_err());
}

#[test]
fn frame_table_allocates_by_purpose() {
    let ram_range = PhysAddrRange::new(PhysAddr::at(0x4000_0000), 4 * 4096);
    let mut table = frame_table::FrameTable(Some(frame_table::FrameTableInner::new(ram_range)));
    let (page, needs_zeroing) = table.alloc_zeroed(Purpose::Kernel).unwrap();
    assert_eq!(page, PhysAddr::at(0x4000_3000));
    assert!(needs_zeroing);
    assert_eq!(table.alloc_for_overwrite(Purpose::User), Ok(PhysAddr::at(0x4000_2000)));
    assert!(frame_table::frame_table_bytes(ram_range) > 0);
}

fn test_sources() -> LayoutSources {
    LayoutSources {
        kernel_base: Arch::kernel_base(),
        ram: Arch::ram_range().unwrap(),
        text: Arch::text_image(),
        static_image: Arch::static_image(),
        data: Arch::data_image(),
        frame_table: PhysAddrRange::new(PhysAddr::at(0x4000_0000), 0x1000),
    }
}

#[test]
fn calculate() {
    let mut iter = layout(test_sources()).unwrap().into_iter();
    while let Some(item) = iter.next() {
        println!("{:?}", item);
    }
}

#[test]
fn layout_places_ranges_in_order() {
    const GB: usize = 0x4000_0000;
    let mut iter = layout(test_sources()).unwrap().into_iter();
    let ram = iter.next().unwrap();
    assert_eq!(RangeContent::RAM, ram.content);
    assert_eq!(ram.virt_addr_range, VirtAddrRange::new(VirtAddr::at(0x1_0000_0000_0000), 8 * GB));
    assert_eq!(ram.phys_addr_range, Some(Arch::ram_range().unwrap()));
    assert!(ram.attributes.is_set(AttributeField::Block));
    let text = iter.next().unwrap();
    assert_eq!(RangeContent::KernelText, text.content);
    assert_eq!(
        text.virt_addr_range,
        VirtAddrRange::new(VirtAddr::at(0x1_0000_0000_0000 + 8 * GB + 0x8_0000), 0x1_8000)
    );
    let static_range = iter.next().unwrap();
    assert_eq!(
        static_range.virt_addr_range.base(),
        VirtAddr::at(0x1_0000_0000_0000 + 8 * GB + 0x9_8000)
    );
    let data = iter.next().unwrap();
    assert_eq!(data.virt_addr_range.base(), VirtAddr::at(0x1_0000_0000_0000 + 8 * GB + 0x9_9000));
    let frame_table = iter.next().unwrap();
    assert_eq!(RangeContent::FrameTable, frame_table.content);
    assert_eq!(
        frame_table.virt_addr_range,
        VirtAddrRange::new(VirtAddr::at(0x1_0000_0000_0000 + 9 * GB), GB)
    );
    let device = iter.next().unwrap();
    assert_eq!(RangeContent::Device, device.content);
    assert_eq!(device.phys_addr_range, None);
    assert_eq!(device.virt_addr_range.base(), VirtAddr::at(0x1_0000_0000_0000 + 10 * GB));
    assert_eq!(RangeContent::L3PageTables, iter.next().unwrap().content);
    let heap = iter.next().unwrap();
    assert_eq!(RangeContent::Heap, heap.content);
    assert_eq!(heap.virt_addr_range, VirtAddrRange::new(VirtAddr::at(0x1_0000_0000_0000 + 19 * GB), 8 * GB));
    assert!(iter.next().is_none());
}

#[test]
fn phys_addr() {
    let null = PhysAddr::null();
    assert_eq!(0, null.get());

    let base = PhysAddr(0x345_0000);
    assert_eq!(0x345_0000, base.get());
    assert_eq!(0x1_0000, PhysAddr(0x346_0000).offset_above(base));
}

#[test]
fn phys_addr_range() {
    let base = PhysAddr(0x345_0000);
    let _image_range = PhysAddrRange::new(base, 0x1_0000);
    let top = PhysAddr(0x346_0000);
    let between_range = PhysAddrRange::between(base, top);
    assert_eq!(base, between_range.base());
    assert_eq!(0x1_0000, between_range.length());
}

#[test]
fn alignment() {
    let base = PhysAddr(0x1000_0010);
    assert!(!base.is_aligned(0x100));
    let top = PhysAddr(0x1000_1000);
    assert!(top.is_aligned(0x100));
    let range = PhysAddrRange::between(base, top);
    assert!(!range.is_aligned(0x100));
}

#[test]
fn iterator() {
    let range = PhysAddrRange::between(PhysAddr(0x1000), PhysAddr(0x3000));
    let mut range_iter = range.chunks(0x1000);
    assert_eq!(range_iter.next(), Some(PhysAddr(0x1000)));
    assert_eq!(range_iter.next(), Some(PhysAddr(0x2000)));
    assert!(range_iter.next().is_none());
}

#[test]
fn entry_test_init() {}

#[test]
fn null() {
    let virt_addr = VirtAddr::at(0x4800_0000);
    assert_eq!(PhysAddr::null(), NullTranslation::new().translate(virt_addr));
}

#[test]
fn identity() {
    let virt_addr = VirtAddr::at(0x4800_0000);
    assert_eq!(PhysAddr::identity_mapped(virt_addr), Identity::new().translate(virt_addr));
}

#[test]
fn offset() {
    let phys_addr = PhysAddr::at(0x4800_0000);
    let virt_addr = VirtAddr::at(0x1_4800_0000);
    let fixed = FixedOffset::new(phys_addr, virt_addr);
    assert_eq!(phys_addr, fixed.translate(virt_addr));

    let virt_addr = VirtAddr::at(0x1_5800_0000);
    assert_eq!(PhysAddr::at(0x5800_0000), fixed.translate(virt_addr));
}

#[test]
fn fixed_offset_round_trip() {
    let fixed = FixedOffset::new(PhysAddr::at(0x4000_0000), VirtAddr::at(0x1_4000_0000));
    let virt_addr = fixed.translate_phys(PhysAddr::at(0x4123_4000)).unwrap();
    assert_eq!(VirtAddr::at(0x1_4123_4000), virt_addr);
    assert_eq!(PhysAddr::at(0x4123_4000), fixed.translate(virt_addr));
    assert_eq!(Some(PhysAddr::at(0x4123_4000)), fixed.translate_maybe(virt_addr));
    assert_eq!(Ok(VirtAddr::at(0x4123_4000)), Identity::new().translate_phys(PhysAddr::at(0x4123_4000)));
}

#[test]
fn virt_addr() {
    let null = VirtAddr::null();
    assert_eq!(0, null.get());

    let phys_addr = PhysAddr::at(0x345_0000);
    let virt_id = VirtAddr::identity_mapped(phys_addr);
    let base = VirtAddr(0x345_0000);
    assert_eq!(virt_id, base);
    assert_eq!(0x45, base.get_page_table_entry(8, 16));
    let top = base.increment(0x1_0000);
    assert_eq!(0x1_0000, base.offset_below(top));

    VirtAddr::from_linker_symbol(0x4008_0000);
}

#[test]
fn virt_addr_range() {
    let base = VirtAddr(0x345_0000);
    let range = VirtAddrRange::new(base, 0x1_0000);
    assert_eq!(base, range.base());
    assert_eq!(0x1_0000, range.length());
    assert_eq!(0x10, range.length_in_pages());

    let phys_addr_range = PhysAddrRange::new(PhysAddr::at(0x1000_0000), 0x1000);
    let range = VirtAddrRange::identity_mapped(phys_addr_range);
    assert_eq!(range.base(), VirtAddr::identity_mapped(phys_addr_range.base()));
    assert_eq!(range.length(), phys_addr_range.length());
}

#[test]
fn intersection() {
    let lower = VirtAddrRange::between(VirtAddr(0x345_0000), VirtAddr(0x545_0000));
    let higher = VirtAddrRange::between(VirtAddr(0x445_0000), VirtAddr(0x645_0000));
    let intersection = VirtAddrRange::between(VirtAddr(0x445_0000), VirtAddr(0x545_0000));
    assert_eq!(intersection, lower.intersection(&higher));
    assert_eq!(intersection, higher.intersection(&lower));
    assert_eq!(lower, lower.intersection(&lower));
    let disjoint = VirtAddrRange::between(VirtAddr(0x745_0000), VirtAddr(0x800_0000));
    assert_eq!(0, lower.intersection(&disjoint).length());

    assert!(!lower.covers(&higher));
    assert!(lower.covers(&intersection));
    assert!(higher.covers(&intersection));
}

#[test]
fn trait_intersection_is_none_when_disjoint() {
    let lower = VirtAddrRange::between(VirtAddr(0x345_0000), VirtAddr(0x545_0000));
    let disjoint = VirtAddrRange::between(VirtAddr(0x745_0000), VirtAddr(0x800_0000));
    assert_eq!(None, AddrRange::intersection(&lower, &disjoint));
    let touching = VirtAddrRange::between(VirtAddr(0x545_0000), VirtAddr(0x600_0000));
    assert_eq!(
        Some(VirtAddrRange::new(VirtAddr(0x545_0000), 0)),
        AddrRange::intersection(&lower, &touching)
    );
}

#[test]
fn step() {
    let lower = VirtAddrRange::between(VirtAddr(0x345_0000), VirtAddr(0x545_0000));
    let next = VirtAddrRange::between(VirtAddr(0x545_0000), VirtAddr(0x745_0000));
    assert_eq!(next, lower.step());
}

#[test]
fn step_past_top_wraps_to_null() {
    let last = VirtAddrRange::new(VirtAddr(usize::MAX - 0xfff), 0x1000);
    assert_eq!(VirtAddr::null(), last.step().base());
}

#[test]
fn attributes_flags() {
    let attributes = Attributes::new().set(AttributeField::KernelRead);
    assert!(attributes.is_set(AttributeField::KernelRead));
    assert!(!attributes.is_set(AttributeField::KernelWrite));
    assert!(Attributes::device().is_set(AttributeField::Device));
}

#[test]
fn attributes_or_a_flag_sets_it() {
    let attributes = Attributes::new() | AttributeField::KernelRead | AttributeField::KernelWrite;
    assert_eq!(
        Attributes::new().set(AttributeField::KernelWrite).set(AttributeField::KernelRead),
        attributes
    );
    assert!(!attributes.is_set(AttributeField::Device));
}

#[test]
fn range_entries() {
    let free = Range::all_free();
    assert!(free.available_for(1));
    let null = Range::null();
    assert!(!null.available_for(1));
}

#[test]
fn residuals_tile_a_free_range() {
    let free = Range::all_free();
    // ten pages in front of an allocation of five pages at page 10
    let front = free.residual_front(10, 5).unwrap();
    assert_eq!(front.base_page, 0);
    assert!(front.available_for(9));
    assert!(!front.available_for(10));
    // the back starts after the allocation and runs to the end of the range
    assert_eq!(free.residual_back(10, 5), free.residual_after(15));
    assert_eq!(free.residual_front(0, 5), None);
    // an allocation that reaches the end of the range leaves no back
    assert_eq!(front.residual_back(5, 5), None);
    assert_eq!(front.residual_back(4, 5), front.residual_after(9));
}

#[test]
fn owned_and_pages() {
    let range = VirtAddrRange::new(VirtAddr::at(0x8000), 0x2000);
    let mapping = OwnedMapping::new(range);
    assert_eq!(range, mapping.range());
    assert_eq!(VirtAddr::at(0x8000), mapping.base());
    assert_eq!(0x2000, mapping.length());
    let mut page = Page::new();
    page.slice()[3] = 7;
    assert_eq!(7, page.slice()[3]);
}
