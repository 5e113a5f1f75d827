//! Types for managing pages.

use vstd::prelude::*;

verus! {

/// A 4k page of words.
#[derive(Copy, Clone)]
pub struct Page([u64; 512]);

impl View for Page {
    /// The words of the page.
    type V = Seq<u64>;

    closed spec fn view(&self) -> Seq<u64> {
        self.0@
    }
}

impl Page {
    /// Any empty page.
    pub fn new() -> (r: Self)
        ensures
            r@ == Seq::new(512, |i: int| 0u64),
    {
        let r = Self([0u64; 512]);
        assert(r@ =~= Seq::new(512, |i: int| 0u64));
        r
    }

    /// The words of the page.
    pub fn slice(&mut self) -> (r: &mut [u64])
        ensures
            r@ == old(self)@,
            final(self)@ == final(r)@,
    {
        &mut self.0
    }
}

} // verus!
