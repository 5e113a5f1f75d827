//! Allocate pages within a range, without dealloc.
//!
//! Suited for device MMIO range.

use super::addr::{Addr, AddrRange, PAGESIZE_BYTES};
use super::phys_addr::pages_for;
use super::virt_addr::{VirtAddr, VirtAddrRange};
use crate::{Error, Result};
use vstd::prelude::*;

verus! {

/// An allocator of pages within a single range.
///
/// Pops the pages off the top of a stack until the limit is reached.
#[derive(Debug)]
pub struct PageBumpAllocator {
    limit: usize,
    top: VirtAddr,
}

impl View for PageBumpAllocator {
    /// (pages left, top address)
    type V = (usize, usize);

    closed spec fn view(&self) -> (usize, usize) {
        (self.limit, self.top.0)
    }
}

/// One allocation of `pages` pages from state `(limit, top)`: the new state and
/// the allocated (base, length), or `None` when fewer pages are left.
pub open spec fn bump(state: (usize, usize), pages: usize) -> Option<((usize, usize), (int, int))> {
    if pages > state.0 {
        None
    } else {
        let length = pages * PAGESIZE_BYTES;
        Some(
            (
                ((state.0 - pages) as usize, (state.1 - length) as usize),
                (state.1 - length, length as int),
            ),
        )
    }
}

impl PageBumpAllocator {
    /// Empty allocator.
    pub fn new() -> (r: Self)
        ensures
            r@ == (0usize, 0usize),
    {
        Self { limit: 0, top: VirtAddr::null() }
    }

    /// Add range to allocator.
    pub fn reset(&mut self, range: VirtAddrRange) -> (r: Result<()>)
        requires
            range.spec_length() + PAGESIZE_BYTES - 1 <= usize::MAX,
            range.spec_base() + range.spec_length() <= usize::MAX,
        ensures
            r == Ok::<(), Error>(()),
            final(self)@ == (
                pages_for(range.spec_length() as int) as usize,
                (range.spec_base() + range.spec_length()) as usize,
            ),
    {
        self.limit = range.length_in_pages();
        self.top = range.top();
        Ok(())
    }

    /// Allocate a number of pages from the top of the pool range.
    pub fn allocate(&mut self, pages: usize) -> (r: Result<VirtAddrRange>)
        requires
            pages > old(self)@.0 || pages * PAGESIZE_BYTES <= old(self)@.1,
        ensures
            match bump(old(self)@, pages) {
                None => r == Err::<VirtAddrRange, Error>(Error::OutOfMemory) && final(self)@ == old(
                    self,
                )@,
                Some((state, range)) => {
                    &&& final(self)@ == state
                    &&& r matches Ok(v) && v.spec_base() == range.0 && v.spec_length() == range.1
                },
            },
    {
        if pages > self.limit {
            Err(Error::OutOfMemory)
        } else {
            let length = pages * PAGESIZE_BYTES;
            self.limit -= pages;
            self.top = self.top.decrement(length);
            Ok(VirtAddrRange::new(self.top, length))
        }
    }
}

/// Two successive allocations give adjacent ranges, the second directly below the
/// first, so they never overlap.
pub proof fn lemma_bump_adjacent(state: (usize, usize), a: usize, b: usize)
    requires
        bump(state, a) is Some,
        bump(bump(state, a).unwrap().0, b) is Some,
        a * PAGESIZE_BYTES <= state.1,
        b * PAGESIZE_BYTES <= bump(state, a).unwrap().0.1,
    ensures
        ({
            let r1 = bump(state, a).unwrap().1;
            let r2 = bump(bump(state, a).unwrap().0, b).unwrap().1;
            r2.0 + r2.1 == r1.0
        }),
{
}

/// What a run of allocations of `pages[0]`, `pages[1]`, ... pages gives from state
/// `state`: the state afterwards, and each allocation's (base, length), or none where
/// fewer pages were left.
pub open spec fn bump_run(state: (usize, usize), pages: Seq<usize>) -> (
    (usize, usize),
    Seq<Option<(int, int)>>,
)
    decreases pages.len(),
{
    if pages.len() == 0 {
        (state, Seq::empty())
    } else {
        let (next, first) = match bump(state, pages[0]) {
            None => (state, None),
            Some((s, range)) => (s, Some(range)),
        };
        let (end, rest) = bump_run(next, pages.drop_first());
        (end, seq![first] + rest)
    }
}

/// The bytes handed out by the allocations of a run that succeeded.
pub open spec fn bytes_granted(results: Seq<Option<(int, int)>>) -> int
    decreases results.len(),
{
    if results.len() == 0 {
        0
    } else {
        (match results[0] {
            Some(r) => r.1,
            None => 0,
        }) + bytes_granted(results.drop_first())
    }
}

/// Over any run of allocations from a state whose pages left lie below its top (as a
/// reset leaves it for a page-aligned range), each allocation fails exactly when it
/// asks for more than is left after the ones before it; each that succeeds is as long
/// as the pages asked for, ends where the one before it began (at the top for the
/// first), and lies within the pages that were left; and each lies wholly below every
/// one before it: no two overlap.
pub proof fn lemma_bump_run(state: (usize, usize), pages: Seq<usize>)
    requires
        state.0 * PAGESIZE_BYTES <= state.1,
    ensures
        ({
            let results = bump_run(state, pages).1;
            &&& results.len() == pages.len()
            &&& forall|i: int|
                0 <= i < results.len() ==> {
                    let t = bytes_granted(#[trigger] results.take(i));
                    &&& (results[i] is None <==> pages[i] * PAGESIZE_BYTES > state.0
                        * PAGESIZE_BYTES - t)
                    &&& (results[i] matches Some(r) ==> r.0 + r.1 == state.1 - t)
                }
            &&& forall|i: int|
                0 <= i < results.len() ==> (#[trigger] results[i] matches Some(r) ==> r.1
                    == pages[i] * PAGESIZE_BYTES && state.1 - state.0 * PAGESIZE_BYTES <= r.0
                    && r.0 + r.1 <= state.1)
            &&& forall|i: int, j: int|
                0 <= i < j < results.len() ==> (#[trigger] results[i] matches Some(ri) ==> (
                #[trigger] results[j] matches Some(rj) ==> rj.0 + rj.1 <= ri.0))
        }),
    decreases pages.len(),
{
    if pages.len() > 0 {
        let (next, first) = match bump(state, pages[0]) {
            None => (state, None),
            Some((s, range)) => (s, Some(range)),
        };
        if first is Some {
            assert(next.0 * PAGESIZE_BYTES <= next.1) by (nonlinear_arith)
                requires
                    next.0 == state.0 - pages[0],
                    next.1 == state.1 - pages[0] * PAGESIZE_BYTES,
                    pages[0] <= state.0,
                    state.0 * PAGESIZE_BYTES <= state.1,
            ;
            assert(state.1 - state.0 * PAGESIZE_BYTES == next.1 - next.0 * PAGESIZE_BYTES) by (nonlinear_arith)
                requires
                    next.0 == state.0 - pages[0],
                    next.1 == state.1 - pages[0] * PAGESIZE_BYTES,
            ;
        }
        lemma_bump_run(next, pages.drop_first());
        let results = bump_run(state, pages).1;
        let rest = bump_run(next, pages.drop_first()).1;
        assert(results == seq![first] + rest);
        assert forall|i: int| 0 < i < results.len() implies results[i] == rest[i - 1]
            && pages[i] == pages.drop_first()[i - 1] by {}
        assert forall|i: int| 0 <= i < results.len() implies {
            let t = bytes_granted(#[trigger] results.take(i));
            &&& (results[i] is None <==> pages[i] * PAGESIZE_BYTES > state.0 * PAGESIZE_BYTES
                - t)
            &&& (results[i] matches Some(r) ==> r.0 + r.1 == state.1 - t)
        } by {
            if i > 0 {
                assert(results.take(i).drop_first() =~= rest.take(i - 1));
                assert(results.take(i)[0] == first);
            } else {
                assert(results.take(0) =~= Seq::<Option<(int, int)>>::empty());
            }
        }
    }
}

/// After `reset` with a page-aligned range of `length` bytes at `base`, a run of
/// allocations of `pages[0]`, `pages[1]`, ... pages goes as follows: an allocation
/// fails exactly when it asks for more pages than the range holds less those taken
/// since the reset; one that succeeds is `pages[i]` pages long, ends where the one
/// before it began (at the range's top for the first), and lies within the range; and
/// no two allocations overlap.
pub proof fn lemma_reset_then_allocate(base: usize, length: usize, pages: Seq<usize>)
    requires
        length % PAGESIZE_BYTES == 0,
        base + length <= usize::MAX,
    ensures
        ({
            let state = (pages_for(length as int) as usize, (base + length) as usize);
            let results = bump_run(state, pages).1;
            &&& results.len() == pages.len()
            &&& forall|i: int|
                0 <= i < results.len() ==> {
                    let t = bytes_granted(#[trigger] results.take(i));
                    &&& (results[i] is None <==> pages[i] * PAGESIZE_BYTES > length - t)
                    &&& (results[i] matches Some(r) ==> {
                        &&& r.1 == pages[i] * PAGESIZE_BYTES
                        &&& r.0 + r.1 == base + length - t
                        &&& base <= r.0
                    })
                }
            &&& forall|i: int, j: int|
                0 <= i < j < results.len() ==> (#[trigger] results[i] matches Some(ri) ==> (
                #[trigger] results[j] matches Some(rj) ==> rj.0 + rj.1 <= ri.0))
        }),
{
    let state = (pages_for(length as int) as usize, (base + length) as usize);
    assert(pages_for(length as int) * PAGESIZE_BYTES == length) by {
        vstd::arithmetic::div_mod::lemma_fundamental_div_mod(length as int, PAGESIZE_BYTES as int);
    }
    lemma_bump_run(state, pages);
}

} // verus!
