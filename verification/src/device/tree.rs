//! What the kernel reads from a flattened device tree: the RAM range, and the virtio
//! devices with their register ranges and interrupts.

use super::make_addr_range;
use crate::pager::addr::{Addr, AddrRange, PAGESIZE_BYTES};
use crate::pager::phys_addr::{PhysAddr, PhysAddrRange};
use crate::{Error, Result};
use vstd::prelude::*;

verus! {

/// The 32-bit cells of the first property at `path` in the device tree `blob`, where the
/// blob reads as a device tree, the path leads to a property, and its value is a list of
/// big-endian 32-bit cells.
pub uninterp spec fn property_cells(blob: Seq<u8>, path: Seq<char>) -> Option<Seq<u32>>;

/// The 32-bit cells of the first property `prop` within node `k` (counting from 0) of
/// those at `node_path` in the device tree `blob`, where there is such a node and
/// property and its value is a list of cells.
pub uninterp spec fn node_property_cells(
    blob: Seq<u8>,
    node_path: Seq<char>,
    k: int,
    prop: Seq<char>,
) -> Option<Seq<u32>>;

/// The number of nodes at `node_path` in the device tree `blob`.
pub uninterp spec fn node_count(blob: Seq<u8>, node_path: Seq<char>) -> nat;

/// The cells of the first property at `path`, read with `dtb`: `Reader::read`,
/// `StructItems::path_struct_items`, and `StructItem::value_u32_list` into a buffer as
/// long as the blob. What is claimed: cells that come back are those that
/// `property_cells` names. `None` comes back where any step fails, and also where the
/// blob is not 8-byte aligned in memory, so nothing is said of `None`.
#[verifier::external_body]
fn read_cells(blob: &[u8], path: &str) -> (r: Option<Vec<u32>>)
    ensures
        r matches Some(v) ==> property_cells(blob@, path@) == Some(v@),
{
    let reader = dtb::Reader::read(blob).ok()?;
    let (prop, _) = reader.struct_items().path_struct_items(path).next()?;
    let mut buf = vec![0u8; blob.len()];
    prop.value_u32_list(&mut buf).ok().map(|cells| cells.to_vec())
}

/// The cells of property `prop` in node `k` of those at `node_path`, read with `dtb`:
/// `Reader::read`, `path_struct_items(node_path)` taken to its item `k`, then
/// `path_struct_items(prop)` from that node and `value_u32_list`. What is claimed:
/// cells that come back are those that `node_property_cells` names; nothing is said of
/// `None`, which an unaligned blob also gives.
#[verifier::external_body]
fn read_node_cells(blob: &[u8], node_path: &str, k: usize, prop: &str) -> (r: Option<Vec<u32>>)
    ensures
        r matches Some(v) ==> node_property_cells(blob@, node_path@, k as int, prop@) == Some(
            v@,
        ),
{
    let reader = dtb::Reader::read(blob).ok()?;
    let (_, node) = reader.struct_items().path_struct_items(node_path).nth(k)?;
    let (item, _) = node.path_struct_items(prop).next()?;
    let mut buf = vec![0u8; blob.len()];
    item.value_u32_list(&mut buf).ok().map(|cells| cells.to_vec())
}

/// The number of nodes at `node_path`, counted with `dtb`: `Reader::read` and the count
/// of `path_struct_items(node_path)`. What is claimed: a count that comes back is the
/// one `node_count` names; `None` (the blob did not read, or is not aligned) says
/// nothing.
#[verifier::external_body]
fn count_nodes(blob: &[u8], node_path: &str) -> (r: Option<usize>)
    ensures
        r matches Some(n) ==> node_count(blob@, node_path@) == n,
{
    let reader = dtb::Reader::read(blob).ok()?;
    Some(reader.struct_items().path_struct_items(node_path).count())
}

/// Room kept for the cells of one property: a property with more cells than this is
/// not read.
pub const CELL_ROOM: usize = 8;

/// The range of RAM that the device tree gives in `/memory/reg`: `DeviceIncompatible`
/// where the cells cannot be read, are fewer than four, or are more than `CELL_ROOM`.
pub fn ram_range_of_dtb(blob: &[u8]) -> (r: Result<PhysAddrRange>)
    requires
        usize::BITS == 64,
    ensures
        r matches Ok(range) ==> (property_cells(blob@, "/memory/reg"@) matches Some(c) && 4
            <= c.len() <= CELL_ROOM && range.spec_base() == super::cell_pair(c[0], c[1]) && range.spec_length()
            == super::cell_pair(c[2], c[3])),
        r matches Err(e) ==> e == Error::DeviceIncompatible,
        property_cells(blob@, "/memory/reg"@) matches Some(c) && (c.len() < 4 || c.len()
            > CELL_ROOM) ==> r == Err::<PhysAddrRange, Error>(Error::DeviceIncompatible),
{
    match read_cells(blob, "/memory/reg") {
        Some(cells) => {
            if cells.len() > CELL_ROOM {
                return Err(Error::DeviceIncompatible);
            }
            make_addr_range(cells.as_slice())
        },
        None => Err(Error::DeviceIncompatible),
    }
}

/// True iff the first cell of property `path` of the device tree is 2 (and its cells
/// fit the room kept for them).
pub open spec fn two_cells(blob: Seq<u8>, path: Seq<char>) -> bool {
    property_cells(blob, path) matches Some(c) && 1 <= c.len() <= CELL_ROOM && c[0] == 2
}

/// True iff `range` is the register range of virtio node `k` of the device tree, from
/// the node's `reg` cells.
pub open spec fn reg_range_at(blob: Seq<u8>, k: int, range: PhysAddrRange) -> bool {
    node_property_cells(blob, "/virtio_mmio"@, k, "reg"@) matches Some(c) && 4 <= c.len()
        <= CELL_ROOM && range.spec_base() == super::cell_pair(c[0], c[1]) && range.spec_length()
        == super::cell_pair(c[2], c[3])
}

/// True iff `ranges` are the register ranges of the virtio nodes of the device tree:
/// one for each node, in order.
pub open spec fn virtio_ranges(blob: Seq<u8>, ranges: Seq<PhysAddrRange>) -> bool {
    &&& node_count(blob, "/virtio_mmio"@) == ranges.len()
    &&& forall|k: int| 0 <= k < ranges.len() ==> #[trigger] reg_range_at(blob, k, ranges[k])
}

/// The register ranges of the virtio nodes of the device tree, in order. The tree must
/// use two cells for sizes and for addresses; `DeviceIncompatible` where it does not,
/// or where a node's `reg` cannot be read or has fewer than four cells; and where any of
/// these properties has more cells than `CELL_ROOM`.
pub fn virtio_nodes(blob: &[u8]) -> (r: Result<Vec<PhysAddrRange>>)
    requires
        usize::BITS == 64,
    ensures
        r matches Ok(ranges) ==> two_cells(blob@, "/#size-cells"@) && two_cells(
            blob@,
            "/#address-cells"@,
        ) && virtio_ranges(blob@, ranges@),
        r matches Err(e) ==> e == Error::DeviceIncompatible,
        property_cells(blob@, "/#size-cells"@) matches Some(c) && c.len() >= 1 && c[0] != 2
            ==> r is Err,
        property_cells(blob@, "/#address-cells"@) matches Some(c) && c.len() >= 1 && c[0] != 2
            ==> r is Err,
        property_cells(blob@, "/#size-cells"@) matches Some(c) && c.len() > CELL_ROOM ==> r is Err,
        property_cells(blob@, "/#address-cells"@) matches Some(c) && c.len() > CELL_ROOM ==> r is Err,
{
    match read_cells(blob, "/#size-cells") {
        Some(cells) => {
            if cells.len() < 1 || cells.len() > CELL_ROOM || cells[0] != 2 {
                return Err(Error::DeviceIncompatible);
            }
        },
        None => {
            return Err(Error::DeviceIncompatible);
        },
    }
    match read_cells(blob, "/#address-cells") {
        Some(cells) => {
            if cells.len() < 1 || cells.len() > CELL_ROOM || cells[0] != 2 {
                return Err(Error::DeviceIncompatible);
            }
        },
        None => {
            return Err(Error::DeviceIncompatible);
        },
    }
    let count = match count_nodes(blob, "/virtio_mmio") {
        Some(count) => count,
        None => {
            return Err(Error::DeviceIncompatible);
        },
    };
    let mut ranges: Vec<PhysAddrRange> = Vec::new();
    let mut k: usize = 0;
    while k < count
        invariant
            usize::BITS == 64,
            k <= count,
            two_cells(blob@, "/#size-cells"@),
            two_cells(blob@, "/#address-cells"@),
            node_count(blob@, "/virtio_mmio"@) == count,
            ranges@.len() == k,
            forall|j: int| 0 <= j < k ==> #[trigger] reg_range_at(blob@, j, ranges@[j]),
        decreases count - k,
    {
        let range = match read_node_cells(blob, "/virtio_mmio", k, "reg") {
            Some(cells) => {
                if cells.len() > CELL_ROOM {
                    return Err(Error::DeviceIncompatible);
                }
                match make_addr_range(cells.as_slice()) {
                    Ok(range) => range,
                    Err(e) => {
                        return Err(e);
                    },
                }
            },
            None => {
                return Err(Error::DeviceIncompatible);
            },
        };
        let ghost before = ranges@;
        ranges.push(range);
        proof {
            assert forall|j: int| 0 <= j < k + 1 implies #[trigger] reg_range_at(
                blob@,
                j,
                ranges@[j],
            ) by {
                if j < k {
                    assert(reg_range_at(blob@, j, before[j]));
                }
            }
        }
        k = k + 1;
    }
    Ok(ranges)
}

/// The page that a register range starts in.
pub open spec fn page_of(range: PhysAddrRange) -> int {
    range.spec_base() as int - (range.spec_base() % PAGESIZE_BYTES) as int
}

/// The pages that the ranges start in, each once, in the order of their first range.
pub open spec fn distinct_pages(ranges: Seq<PhysAddrRange>) -> Seq<int>
    decreases ranges.len(),
{
    if ranges.len() == 0 {
        Seq::empty()
    } else {
        let pages = distinct_pages(ranges.drop_last());
        let page = page_of(ranges.last());
        if pages.contains(page) {
            pages
        } else {
            pages.push(page)
        }
    }
}

/// The pages to map for devices with the register ranges: the page each range starts
/// in, each page once, in the order of its first range.
pub fn device_pages(ranges: &Vec<PhysAddrRange>) -> (r: Vec<PhysAddr>)
    ensures
        r@.len() == distinct_pages(ranges@).len(),
        forall|i: int| 0 <= i < r@.len() ==> #[trigger] r@[i].value() == distinct_pages(ranges@)[i],
{
    let mut pages: Vec<PhysAddr> = Vec::new();
    let mut k: usize = 0;
    while k < ranges.len()
        invariant
            k <= ranges@.len(),
            pages@.len() == distinct_pages(ranges@.subrange(0, k as int)).len(),
            forall|i: int|
                0 <= i < pages@.len() ==> #[trigger] pages@[i].value() == distinct_pages(
                    ranges@.subrange(0, k as int),
                )[i],
        decreases ranges@.len() - k,
    {
        let ghost before = distinct_pages(ranges@.subrange(0, k as int));
        let page = ranges[k].base().page_base();
        let mut seen = false;
        let mut i: usize = 0;
        while i < pages.len()
            invariant
                i <= pages@.len(),
                pages@.len() == before.len(),
                forall|j: int| 0 <= j < pages@.len() ==> #[trigger] pages@[j].value() == before[j],
                seen <==> exists|j: int| 0 <= j < i && before[j] == page.value(),
            decreases pages@.len() - i,
        {
            if pages[i].get() == page.get() {
                seen = true;
            }
            i = i + 1;
        }
        proof {
            let next = ranges@.subrange(0, k + 1);
            assert(next.drop_last() =~= ranges@.subrange(0, k as int));
            assert(next.last() == ranges@[k as int]);
            if seen {
                let j = choose|j: int| 0 <= j < i && before[j] == page.value();
                assert(before.contains(page.value() as int));
            } else {
                assert(!before.contains(page.value() as int));
            }
        }
        if !seen {
            pages.push(page);
        }
        k = k + 1;
    }
    proof {
        assert(ranges@.subrange(0, ranges@.len() as int) =~= ranges@);
    }
    pages
}

/// The interrupt of virtio node `k` of the device tree: the middle one of its three
/// `interrupts` cells; `DeviceIncompatible` where the cells cannot be read or are not
/// three.
pub fn virtio_interrupt(blob: &[u8], k: usize) -> (r: Result<u32>)
    ensures
        r matches Ok(i) ==> (node_property_cells(blob@, "/virtio_mmio"@, k as int, "interrupts"@)
            matches Some(c) && c.len() == 3 && i == c[1]),
        r matches Err(e) ==> e == Error::DeviceIncompatible,
        node_property_cells(blob@, "/virtio_mmio"@, k as int, "interrupts"@) matches Some(c)
            && c.len() != 3 ==> r is Err,
{
    match read_node_cells(blob, "/virtio_mmio", k, "interrupts") {
        Some(cells) => {
            if cells.len() != 3 {
                return Err(Error::DeviceIncompatible);
            }
            match super::virtio::make_intr(cells.as_slice()) {
                Ok((_, interrupt, _)) => Ok(interrupt),
                Err(e) => Err(e),
            }
        },
        None => Err(Error::DeviceIncompatible),
    }
}

} // verus!
