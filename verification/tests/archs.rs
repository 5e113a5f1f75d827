use libkernel::archs::aarch64::pager::{
    make_boot_device_descriptor, make_boot_ram_descriptor, table_entries, Arch, PageDirectory,
    BOOT_DEVICE_DESCRIPTOR, BOOT_RAM_DESCRIPTOR, MAIR,
};
use libkernel::archs::aarch64::table::{
    level_offset, PageBlockDescriptor, PageTable, PageTableEntry, TableDescriptor, TABLE_ENTRIES,
};
use libkernel::archs::aarch64::{LOWER_VA_BITS, UPPER_VA_BITS};
use libkernel::archs::test::Arch as TestArch;
use libkernel::archs::HandlerTrait;
use libkernel::pager::{
    Addr, AddrRange, AttributeField, Attributes, PhysAddr, Translate, VirtAddr, VirtAddrRange,
};

#[test]
fn test_use() {
    assert_eq!(LOWER_VA_BITS, 48)
}

#[test]
fn test_table_entries() {
    let base = VirtAddr::at(0x10000);
    let range = VirtAddrRange::new(base, 0x10000);
    {
        let mut i = table_entries(range, 1, VirtAddr::at(0));
        let (index, virt_range, entry_range) = i.next().unwrap();
        assert_eq!(0, index);
        assert_eq!(range, virt_range);
        assert_eq!(
            VirtAddrRange::between(VirtAddr::at(0x0), VirtAddr::at(0x4000_0000)),
            entry_range
        );
        assert!(i.next().is_none());
    }
    {
        let mut i = table_entries(range, 2, VirtAddr::at(0));
        let (index, virt_range, entry_range) = i.next().unwrap();
        assert_eq!(0, index);
        assert_eq!(range, virt_range);
        assert_eq!(
            VirtAddrRange::between(VirtAddr::at(0x0), VirtAddr::at(0x20_0000)),
            entry_range
        );
        assert!(i.next().is_none());
    }
    {
        let mut i = table_entries(range, 3, VirtAddr::at(0));
        let (index, virt_range, entry_range) = i.next().unwrap();
        let range = VirtAddrRange::between(VirtAddr::at(0x1_0000), VirtAddr::at(0x1_1000));
        assert_eq!(16, index);
        assert_eq!(range, virt_range);
        assert_eq!(range, entry_range);
        let (index, virt_range, entry_range) = i.next().unwrap();
        let range = range.step();
        assert_eq!(17, index);
        assert_eq!(range, virt_range);
        assert_eq!(range, entry_range);
        for _ in 18..32 {
            assert!(i.next().is_some());
        }
        assert!(i.next().is_none());
    }
}

#[test]
fn table_entries_of_kernel_range() {
    let base = Arch::kernel_base();
    assert_eq!(0xffff_ff80_0000_0000, base.get());
    let range = VirtAddrRange::new(base.increment(0x4000_0000), 0x8000_0000);
    let mut i = table_entries(range, 1, base);
    let (index, virt_range, entry_range) = i.next().unwrap();
    assert_eq!(1, index);
    assert_eq!(virt_range, VirtAddrRange::new(base.increment(0x4000_0000), 0x4000_0000));
    assert_eq!(entry_range, virt_range);
    let (index, _, entry_range) = i.next().unwrap();
    assert_eq!(2, index);
    assert_eq!(entry_range.base(), base.increment(0x8000_0000));
    assert!(i.next().is_none());
}

#[test]
fn test_attribute_compatibility() {
    // TODO: test that later allocations which rely on l1 PTE settings
    // are not incompatible.
}

#[test]
fn test_boot_descriptors() {
    assert_eq!(make_boot_ram_descriptor(), BOOT_RAM_DESCRIPTOR);
    assert_eq!(make_boot_device_descriptor(), BOOT_DEVICE_DESCRIPTOR);
}

#[test]
fn test_table_descriptor() {
    let result = TableDescriptor::new(99);
    assert_eq!(99, result.get());
}

#[test]
fn test_table_descriptor_entry() {
    let next_level_table_addr = PhysAddr::at(0x123_0000);
    let attributes = Attributes::device();
    let result = TableDescriptor::new_entry(Some(next_level_table_addr), attributes);
    assert_eq!(0x1800000001230003, result.get());
}

#[test]
fn test_table_descriptor_mask() {
    let field = TableDescriptor::mask_from_attributes(Attributes::device());
    let field = field.plus(TableDescriptor::valid().set());
    let result = TableDescriptor::from_field_value(field);
    assert_eq!(0x1800000000000001, result.get())
}

#[test]
fn test_page_block_descriptor() {
    let result = PageBlockDescriptor::new(99);
    assert_eq!(99, result.get());
}

#[test]
fn test_page_block_descriptor_entry() {
    let level = 3;
    let output_addr = PhysAddr::at(0x123_0000);
    let attributes = Attributes::device();
    let contiguous = true;
    let result = PageBlockDescriptor::new_entry(level, Some(output_addr), attributes, contiguous);
    assert_eq!(0x70000001230603, result.get());
}

#[test]
fn test_page_block_descriptor_mask() {
    let field = PageBlockDescriptor::mask_from_attributes(Attributes::device());
    let field = field.plus(
        PageBlockDescriptor::contiguous()
            .set()
            .plus(PageBlockDescriptor::dirty().set())
            .plus(PageBlockDescriptor::not_global().set())
            .plus(PageBlockDescriptor::valid().set()),
    );
    let result = PageBlockDescriptor::from_field_value(field);
    assert_eq!(0x78000000000e01, result.get())
}

#[test]
fn table_descriptor_without_table_is_invalid() {
    let result = TableDescriptor::new_entry(None, Attributes::kernel_rwx());
    // user execute never, but privileged execute allowed; table type; not valid
    assert_eq!(0x1000000000000002, result.get());
    let pte = PageTableEntry::from_table_descriptor(result);
    assert!(!pte.is_valid());
    assert!(pte.is_table(0));
    assert!(!pte.is_table(3));
}

#[test]
fn table_descriptor_address_round_trip() {
    let desc = TableDescriptor::new_entry(Some(PhysAddr::at(0x4567_8000)), Attributes::user_data());
    assert_eq!(PhysAddr::at(0x4567_8000), desc.next_level_table_address());
    let pte = PageTableEntry::from_table_descriptor(desc);
    assert!(pte.is_valid());
    assert_eq!(PhysAddr::at(0x4567_8000), pte.next_level_table_address());
    assert_eq!(desc.get(), TableDescriptor::from_entry(pte).get());
}

#[test]
fn page_descriptor_address_round_trip() {
    let attributes = Attributes::kernel_data().set(AttributeField::Accessed);
    let desc = PageBlockDescriptor::new_entry(2, Some(PhysAddr::at(0x8020_0000)), attributes, false);
    assert_eq!(PhysAddr::at(0x8020_0000), desc.output_address());
    // block (not page) at level 2, access flag for accessed attributes
    assert_eq!(0x0060_0000_8020_0605, desc.get());
    assert!(desc.is_set(PageBlockDescriptor::access_flag()));
    assert!(!desc.is_set(PageBlockDescriptor::contiguous()));
    assert_eq!(1, desc.read(PageBlockDescriptor::attr_index()));
}

#[test]
fn page_descriptor_access_permissions() {
    let user_rw = PageBlockDescriptor::new_entry(3, None, Attributes::user_rwx(), false);
    assert_eq!(1, user_rw.read(PageBlockDescriptor::access_permission()));
    let kernel_ro = PageBlockDescriptor::new_entry(3, None, Attributes::kernel_ro_data(), false);
    assert_eq!(2, kernel_ro.read(PageBlockDescriptor::access_permission()));
    let kernel_exec = PageBlockDescriptor::new_entry(3, None, Attributes::kernel_exec(), false);
    assert_eq!(2, kernel_exec.read(PageBlockDescriptor::access_permission()));
    let user_ro = PageBlockDescriptor::new_entry(
        3,
        None,
        Attributes::user_ro_data().set(AttributeField::KernelRead),
        false,
    );
    assert_eq!(3, user_ro.read(PageBlockDescriptor::access_permission()));
}

#[test]
fn page_table_entries() {
    let mut table = PageTable::new();
    assert!(table.index(0).is_null());
    table.set(511, PageTableEntry(0x1003));
    assert_eq!(0x1003, table.index(TABLE_ENTRIES - 1).get());
    assert!(table.index(511).is_valid());
    assert!(table.index(511).is_table(2));
    assert_eq!(PhysAddr::at(0x1000), table.index(511).next_level_table_address());
    assert_eq!(39, level_offset(0));
    assert_eq!(12, level_offset(3));
}

#[test]
fn contiguous_ranges() {
    let base = VirtAddr::at(0x4000_0000);
    let range = PageDirectory::contiguous_virt_range(3, 21, base);
    assert_eq!(range, VirtAddrRange::new(VirtAddr::at(0x4001_0000), 0x1_0000));
    let range = PageDirectory::contiguous_virt_range(2, 15, base);
    assert_eq!(range, VirtAddrRange::new(base, 0x200_0000));
}

#[test]
fn machine_layouts() {
    assert_eq!(39, UPPER_VA_BITS);
    let ram = Arch::ram_range().unwrap();
    assert_eq!(PhysAddr::at(0x4000_0000), ram.base());
    assert_eq!(0x1000_0000, ram.length());
    assert_eq!(PhysAddr::at(0x900_0000), Arch::debug_uart().unwrap().base());
    let offset = Arch::kernel_offset();
    assert_eq!(PhysAddr::at(0x4008_0000), offset.translate(VirtAddr::at(0xffff_ff82_0008_0000)));
    assert_eq!(VirtAddr::at(0x1_0000_0000_0000), TestArch::kernel_base());
    assert!(TestArch::handler_init().is_ok());
    assert!(TestArch::pager_init().is_ok());
    let directory = PageDirectory::new();
    assert!(directory.ttb0().is_none() && directory.ttb1().is_none());
    assert_eq!(MAIR::MemoryWriteThrough, MAIR::from_u64(1));
    assert_eq!(0, MAIR::DeviceStronglyOrdered.index());
}
