//! Manages virtual address range assignments.
//!
//! Allows a process to receive a block of address ranges which has not previously been requested,
//! and define some access characteristics.

use vstd::prelude::*;

verus! {

/// A single allocated or free address range.
#[derive(Debug, Clone, Copy, PartialEq, Eq, Structural)]
pub struct Range {
    /// First page of the range.
    pub base_page: u32,
    n_pages: i32,  // negative if allocated
}

/// Number of bytes of a range entry.
pub const RANGE_SIZE: usize = 8;

impl View for Range {
    /// (base page, number of pages: negative when allocated)
    type V = (u32, i32);

    closed spec fn view(&self) -> (u32, i32) {
        (self.base_page, self.n_pages)
    }
}

impl Range {
    /// A null range as placeholder for testing
    pub fn null() -> (r: Range)
        ensures
            r@ == (0u32, 0i32),
    {
        Range { base_page: 0, n_pages: 0 }
    }

    /// An available range covering entire address space
    pub fn all_free() -> (r: Range)
        ensures
            r@ == (0u32, (u32::MAX / 4096) as i32),
    {
        Range { base_page: 0, n_pages: (u32::MAX / 4096) as i32 }
    }

    /// Not allocated and is larger than specified number of pages
    pub fn available_for(&self, n_pages: u8) -> (r: bool)
        ensures
            r == (self@.1 > n_pages),
    {
        self.n_pages > n_pages as i32
    }

    /// Not allocated and completely overlays the specified page range
    pub fn available_over(&self, page: u32, n_pages: u8) -> (r: bool)
        requires
            self@.1 > 0 && self@.0 <= page ==> self@.0 + self@.1 <= u32::MAX && page + n_pages
                <= u32::MAX,
        ensures
            r == (self@.1 > 0 && self@.0 <= page && self@.0 + self@.1 >= page + n_pages),
    {
        self.n_pages > 0 && self.base_page <= page && (self.base_page + self.n_pages as u32) >= (
        page + n_pages as u32)
    }

    /// Return a new free range less n_pages from the beginning
    pub fn residual_after(&self, n_pages: u8) -> (r: Option<Range>)
        requires
            self@.1 - n_pages > 0 ==> self@.0 + n_pages <= u32::MAX,
            self@.1 - n_pages >= i32::MIN,
        ensures
            self@.1 - n_pages > 0 ==> (r matches Some(x) && x@ == (
                (self@.0 + n_pages) as u32,
                (self@.1 - n_pages) as i32,
            )),
            self@.1 - n_pages <= 0 ==> r is None,
    {
        let back = self.n_pages - n_pages as i32;
        if back > 0 {
            Some(Range { base_page: self.base_page + n_pages as u32, n_pages: back })
        } else {
            None
        }
    }

    /// Return a new free range for the part of the free area before the specified range
    pub fn residual_front(&self, page: u32, _n_pages: u8) -> (r: Option<Range>)
        ensures
            match residual_front_of(self@, page) {
                Some(v) => r matches Some(x) && x@ == v,
                None => r is None,
            },
    {
        if page > self.base_page {
            Some(Range { base_page: self.base_page, n_pages: (page - self.base_page) as i32 })
        } else {
            None
        }
    }

    /// Return a new free range for the part of the free area after the specified range
    pub fn residual_back(&self, page: u32, n_pages: u8) -> (r: Option<Range>)
        requires
            page >= self@.0,
            page - self@.0 <= i32::MAX,
            self@.1 - n_pages - (page - self@.0) >= i32::MIN,
            self@.1 - n_pages - (page - self@.0) > 0 ==> page + n_pages <= u32::MAX,
        ensures
            match residual_back_of(self@, page, n_pages) {
                Some(v) => r matches Some(x) && x@ == v,
                None => r is None,
            },
    {
        let back = self.n_pages - (n_pages as i32) - ((page - self.base_page) as i32);
        if back > 0 {
            Some(Range { base_page: page + n_pages as u32, n_pages: back })
        } else {
            None
        }
    }

    /// Update to be allocated with new length
    pub fn allocate(&mut self, n_pages: u8)
        ensures
            final(self)@ == (old(self)@.0, (-(n_pages as int)) as i32),
    {
        self.n_pages = -(n_pages as i32);
    }

    /// Update to be allocated with new length and page
    pub fn allocate_fixed(&mut self, page: u32, n_pages: u8)
        ensures
            final(self)@ == (page, (-(n_pages as int)) as i32),
    {
        self.allocate(n_pages);
        self.base_page = page;
    }
}

/// The free part of range `range` (its view) before page `page`: from the range's base
/// up to `page`, where `page` is above the base.
pub open spec fn residual_front_of(range: (u32, i32), page: u32) -> Option<(u32, i32)> {
    if page > range.0 {
        Some((range.0, (page - range.0) as i32))
    } else {
        None
    }
}

/// The free part of range `range` (its view) after `n_pages` pages from page `page`:
/// from the end of those pages up to the range's end, where that is longer than 0.
pub open spec fn residual_back_of(range: (u32, i32), page: u32, n_pages: u8) -> Option<(u32, i32)> {
    let back = range.1 - n_pages - (page - range.0);
    if back > 0 {
        Some(((page + n_pages) as u32, back as i32))
    } else {
        None
    }
}

/// The free part in front of an allocation within a free range, the allocation and the
/// free part behind it tile the range. For a free range over which `n_pages` pages from
/// `page` are available (as `available_over` checks), what `residual_front` and
/// `residual_back` give add up with the allocation to the range's pages: the front runs
/// from the range's base up to `page`; the back is absent exactly where the allocation
/// reaches the end of the range, and otherwise runs from the end of the allocation to
/// the end of the range; each part given is longer than 0.
pub proof fn lemma_residuals_tile(r: Range, page: u32, n_pages: u8)
    requires
        r@.1 > 0,
        r@.0 <= page,
        page + n_pages <= r@.0 + r@.1,
        r@.0 + r@.1 <= u32::MAX,
    ensures
        ({
            let front = residual_front_of(r@, page);
            let back = residual_back_of(r@, page, n_pages);
            &&& (match front {
                Some(x) => x.1 as int,
                None => 0,
            }) + n_pages + (match back {
                Some(x) => x.1 as int,
                None => 0,
            }) == r@.1
            &&& front matches Some(x) ==> x.0 == r@.0 && x.0 + x.1 == page && x.1 > 0
            &&& back is None <==> page + n_pages == r@.0 + r@.1
            &&& back matches Some(x) ==> x.0 == page + n_pages && x.0 + x.1 == r@.0 + r@.1
                && x.1 > 0
        }),
{
}

} // verus!
