//! Physical page frames: each frame is on one of a set of threaded lists,
//! held in a table of links with one node per frame.

use super::addr::{Addr, AddrRange, PAGESIZE_BYTES};
use super::phys_addr::{pages_for, PhysAddr, PhysAddrRange};
use super::translation::{FixedOffset, Translate};
use super::virt_addr::VirtAddr;
use crate::{Error, Result};
use vstd::prelude::*;
use vstd::seq_lib::seq_to_set_is_finite;
use vstd::set::axiom_set_insert_len;
use vstd::set_lib::{lemma_int_range, lemma_len_subset, set_int_range};

verus! {

/// The use for an allocated page.
///
/// Determines the list the page is on, and enables scanning tasks, for example page table
/// Access Flag reset.
#[derive(Copy, Clone, Debug, PartialEq, Eq, Structural)]
pub enum Purpose {
    /// Page is for a user process.
    User,
    /// Page is for kernel code or data.
    Kernel,
    /// Page is for a leaf page table (which should be access scanned).
    LeafPageTable,
    /// Page is for a branch page table.
    BranchPageTable,
    /// Page is for DMA (and should be nailed)..
    DirectMemoryAccess,
}

/// Link value of a node with no neighbour on that side.
pub const CLEAR: u32 = 0xffff_ffff;

/// The links of one frame in its list.
#[derive(Copy, Clone, Debug, PartialEq, Eq, Structural)]
pub struct FrameTableNode {
    _prev: u32,
    _next: u32,
}

impl View for FrameTableNode {
    /// (previous, next) link values.
    type V = (u32, u32);

    closed spec fn view(&self) -> (u32, u32) {
        (self._prev, self._next)
    }
}

impl FrameTableNode {
    /// A node linked to frame 0 both ways.
    pub fn null() -> (r: Self)
        ensures
            r@ == (0u32, 0u32),
    {
        Self { _prev: 0, _next: 0 }
    }

    /// A node with no neighbours.
    pub fn cleared() -> (r: Self)
        ensures
            r@ == (CLEAR, CLEAR),
    {
        Self { _prev: CLEAR, _next: CLEAR }
    }

    /// Previous frame.
    pub fn prev(&self) -> (r: usize)
        ensures
            r == self@.0,
    {
        self._prev as usize
    }

    /// Set the previous frame.
    pub fn set_prev(&mut self, prev: usize)
        ensures
            final(self)@ == (prev as u32, old(self)@.1),
    {
        self._prev = prev as u32;
    }

    /// Set no previous frame.
    pub fn clear_prev(&mut self)
        ensures
            final(self)@ == (CLEAR, old(self)@.1),
    {
        self._prev = CLEAR;
    }

    /// Next frame.
    pub fn next(&self) -> (r: usize)
        ensures
            r == self@.1,
    {
        self._next as usize
    }

    /// Set the next frame.
    pub fn set_next(&mut self, next: usize)
        ensures
            final(self)@ == (old(self)@.0, next as u32),
    {
        self._next = next as u32;
    }

    /// Set no next frame.
    pub fn clear_next(&mut self)
        ensures
            final(self)@ == (old(self)@.0, CLEAR),
    {
        self._next = CLEAR;
    }

    /// True iff the link value is the no-neighbour value.
    pub fn is_clear(entry: usize) -> (r: bool)
        ensures
            r == (entry as u32 == CLEAR),
    {
        CLEAR == entry as u32
    }
}

/// The frames of list `l` are linked through table `t` in order, with no
/// neighbour before the first nor after the last.
pub open spec fn links(t: Seq<(u32, u32)>, l: Seq<int>) -> bool {
    &&& forall|k: int| 0 <= k < l.len() ==> 0 <= #[trigger] l[k] < t.len()
    &&& forall|k1: int, k2: int|
        0 <= k1 < l.len() && 0 <= k2 < l.len() && #[trigger] l[k1] == #[trigger] l[k2] ==> k1 == k2
    &&& forall|k: int|
        0 <= k < l.len() ==> #[trigger] t[l[k]].0 == (if k == 0 {
            CLEAR as int
        } else {
            l[k - 1]
        })
    &&& forall|k: int|
        0 <= k < l.len() ==> #[trigger] t[l[k]].1 == (if k == l.len() - 1 {
            CLEAR as int
        } else {
            l[k + 1]
        })
}

/// Links of a list only depend on the table nodes of its frames.
pub proof fn lemma_links_frame(t1: Seq<(u32, u32)>, t2: Seq<(u32, u32)>, l: Seq<int>)
    requires
        links(t1, l),
        t1.len() == t2.len(),
        forall|k: int| 0 <= k < l.len() ==> t2[#[trigger] l[k]] == t1[l[k]],
    ensures
        links(t2, l),
{
    assert forall|k: int| 0 <= k < l.len() implies #[trigger] t2[l[k]].0 == (if k == 0 {
        CLEAR as int
    } else {
        l[k - 1]
    }) by {
        assert(t2[l[k]] == t1[l[k]]);
    }
    assert forall|k: int| 0 <= k < l.len() implies #[trigger] t2[l[k]].1 == (if k == l.len()
        - 1 {
        CLEAR as int
    } else {
        l[k + 1]
    }) by {
        assert(t2[l[k]] == t1[l[k]]);
    }
}

/// A list of distinct frames below `n` that lacks some frame below `n` is shorter than `n`.
pub proof fn lemma_distinct_bounded(l: Seq<int>, n: int, e: int)
    requires
        forall|k: int| 0 <= k < l.len() ==> 0 <= #[trigger] l[k] < n,
        forall|k1: int, k2: int|
            0 <= k1 < l.len() && 0 <= k2 < l.len() && #[trigger] l[k1] == #[trigger] l[k2] ==> k1 == k2,
        0 <= e < n,
        !l.contains(e),
    ensures
        l.len() < n,
{
    assert(l.no_duplicates());
    l.unique_seq_to_set();
    seq_to_set_is_finite(l);
    lemma_int_range(0, n);
    let s = l.to_set().insert(e);
    axiom_set_insert_len(l.to_set(), e);
    assert(s.subset_of(set_int_range(0, n)));
    lemma_len_subset(s, set_int_range(0, n));
}

/// Threaded double-ended queue of frames, O(1) for all operations, including detach.
pub struct FrameDeque {
    head: Option<usize>,
    tail: Option<usize>,
    count: usize,
    items: Ghost<Seq<int>>,
}

impl View for FrameDeque {
    /// The frames from head to tail.
    type V = Seq<int>;

    closed spec fn view(&self) -> Seq<int> {
        self.items@
    }
}

/// The link values of each node of a table.
pub open spec fn link_view(table: Seq<FrameTableNode>) -> Seq<(u32, u32)> {
    table.map_values(|n: FrameTableNode| n@)
}

impl FrameDeque {
    /// An empty deque.
    pub fn new() -> (r: Self)
        ensures
            r@ == Seq::<int>::empty(),
            r.is_empty_deque(),
    {
        Self { head: None, tail: None, count: 0, items: Ghost(Seq::empty()) }
    }

    /// The deque holds no frame.
    pub closed spec fn is_empty_deque(&self) -> bool {
        &&& self.items@.len() == 0
        &&& self.count == 0
        &&& self.head is None
        &&& self.tail is None
    }

    /// An empty deque is well formed with any table that fits the links.
    pub proof fn lemma_empty_wf(&self, table: Seq<FrameTableNode>)
        requires
            self.is_empty_deque(),
            table.len() < CLEAR,
        ensures
            self.wf(table),
    {
    }

    /// The deque's list is linked through the table, and its ends and count match it.
    pub closed spec fn wf(&self, table: Seq<FrameTableNode>) -> bool {
        &&& table.len() < CLEAR
        &&& links(link_view(table), self.items@)
        &&& self.count == self.items@.len()
        &&& self.head == (if self.items@.len() == 0 {
            None
        } else {
            Some(self.items@[0] as usize)
        })
        &&& self.tail == (if self.items@.len() == 0 {
            None
        } else {
            Some(self.items@.last() as usize)
        })
    }

    /// Number of frames on the deque.
    pub fn count(&self) -> (r: usize)
        requires
            exists|t: Seq<FrameTableNode>| self.wf(t),
        ensures
            r == self@.len(),
    {
        self.count
    }

    /// Put every frame of the table on this deque, in index order.
    pub fn reset(&mut self, table: &mut Vec<FrameTableNode>) -> (r: Result<()>)
        requires
            1 <= old(table).len() < CLEAR,
        ensures
            r == Ok::<(), Error>(()),
            final(table).len() == old(table).len(),
            final(self)@ == Seq::new(old(table).len() as nat, |i: int| i),
            final(self).wf(final(table)@),
    {
        let last = table.len() - 1;
        let len = table.len();
        let mut i: usize = 0;
        while i < len
            invariant
                len == table.len(),
                last == len - 1,
                len < CLEAR,
                i <= len,
                forall|k: int| 0 <= k < i ==> #[trigger] table@[k]@ == (
                    if k == 0 {
                        CLEAR
                    } else {
                        (k - 1) as u32
                    },
                    if k == last {
                        CLEAR
                    } else {
                        (k + 1) as u32
                    },
                ),
            decreases len - i,
        {
            if i == 0 {
                table[i].clear_prev();
            } else {
                table[i].set_prev(i - 1);
            }
            if i == last {
                table[i].clear_next();
            } else {
                table[i].set_next(i + 1);
            }
            i += 1;
        }
        self.head = Some(0);
        self.tail = Some(last);
        self.count = table.len();
        let ghost l = Seq::new(len as nat, |k: int| k);
        self.items = Ghost(l);
        proof {
            let t = link_view(table@);
            assert forall|k: int| 0 <= k < l.len() implies #[trigger] t[l[k]].0 == (if k == 0 {
                CLEAR as int
            } else {
                l[k - 1]
            }) by {
                assert(table@[k]@ == t[k]);
            }
            assert forall|k: int| 0 <= k < l.len() implies #[trigger] t[l[k]].1 == (if k == l.len()
                - 1 {
                CLEAR as int
            } else {
                l[k + 1]
            }) by {
                assert(table@[k]@ == t[k]);
            }
        }
        Ok(())
    }

    /// Push a frame with no neighbours, and on no list, onto the head of the deque.
    pub fn push(&mut self, i: usize, table: &mut Vec<FrameTableNode>) -> (r: Result<()>)
        requires
            old(self).wf(old(table)@),
            i < old(table).len(),
            old(table)@[i as int]@ == (CLEAR, CLEAR),
            !old(self)@.contains(i as int),
        ensures
            r == Ok::<(), Error>(()),
            final(self)@ == seq![i as int] + old(self)@,
            final(self).wf(final(table)@),
            final(table).len() == old(table).len(),
            forall|x: int|
                0 <= x < old(table).len() && x != i && (old(self)@.len() == 0 || x != old(self)@[0]) ==> #[trigger] final(table)@[x] == old(table)@[x],
    {
        let ghost l = self.items@;
        let ghost t0 = table@;
        match self.head {
            None => {
                self.tail = Some(i);
            },
            Some(next) => {
                table[i].set_next(next);
                table[next].set_prev(i);
            },
        }
        self.head = Some(i);
        proof {
            lemma_distinct_bounded(l, t0.len() as int, i as int);
        }
        self.count += 1;
        let ghost l2 = seq![i as int] + l;
        self.items = Ghost(l2);
        proof {
            let t = link_view(table@);
            let tv0 = link_view(t0);
            assert(forall|k: int| 0 <= k < l.len() ==> tv0[#[trigger] l[k]].0 == (if k == 0 {
                CLEAR as int
            } else {
                l[k - 1]
            }));
            assert forall|k: int| 0 <= k < l2.len() implies 0 <= #[trigger] l2[k] < t.len() by {
                if k > 0 {
                    assert(l2[k] == l[k - 1]);
                }
            }
            assert forall|k1: int, k2: int|
                0 <= k1 < l2.len() && 0 <= k2 < l2.len() && #[trigger] l2[k1] == #[trigger] l2[k2] implies k1
                == k2 by {
                if k1 > 0 && k2 > 0 {
                    assert(l[k1 - 1] == l[k2 - 1]);
                } else if k1 > 0 {
                    assert(l.contains(l[k1 - 1]));
                } else if k2 > 0 {
                    assert(l.contains(l[k2 - 1]));
                }
            }
            assert forall|k: int| 0 <= k < l2.len() implies #[trigger] t[l2[k]].0 == (if k == 0 {
                CLEAR as int
            } else {
                l2[k - 1]
            }) by {
                if k > 0 {
                    assert(l2[k] == l[k - 1]);
                    assert(tv0[l[k - 1]].0 == (if k - 1 == 0 {
                        CLEAR as int
                    } else {
                        l[k - 2]
                    }));
                    if k - 1 > 0 {
                        assert(l[k - 1] != l[0]);
                    }
                    assert(l.contains(l[k - 1]));
                }
            }
            assert forall|k: int| 0 <= k < l2.len() implies #[trigger] t[l2[k]].1 == (if k
                == l2.len() - 1 {
                CLEAR as int
            } else {
                l2[k + 1]
            }) by {
                if k > 0 {
                    assert(l2[k] == l[k - 1]);
                    assert(tv0[l[k - 1]].1 == (if k - 1 == l.len() - 1 {
                        CLEAR as int
                    } else {
                        l[k]
                    }));
                    assert(l.contains(l[k - 1]));
                }
            }
        }
        Ok(())
    }

    /// Pop the frame at the head of the deque, leaving it with no neighbours, or
    /// fail with `OutOfPages` when the deque is empty.
    pub fn pop(&mut self, table: &mut Vec<FrameTableNode>) -> (r: Result<usize>)
        requires
            old(self).wf(old(table)@),
        ensures
            final(self).wf(final(table)@),
            final(table).len() == old(table).len(),
            old(self)@.len() == 0 ==> r == Err::<usize, Error>(Error::OutOfPages) && final(self)@
                == old(self)@ && final(table)@ == old(table)@,
            old(self)@.len() > 0 ==> r == Ok::<usize, Error>(old(self)@[0] as usize) && final(self)@ == old(self)@.drop_first() && final(table)@[old(self)@[0]]@ == (CLEAR, CLEAR),
            forall|x: int|
                0 <= x < old(table).len() && (old(self)@.len() == 0 || x != old(self)@[0]) && (old(self)@.len() < 2 || x != old(self)@[1]) ==> #[trigger] final(table)@[x] == old(table)@[x],
    {
        let ghost l = self.items@;
        let ghost t0 = table@;
        let result = match self.head {
            Some(h) => h,
            None => {
                return Err(Error::OutOfPages);
            },
        };
        proof {
            assert(link_view(t0)[l[0]].0 == CLEAR as int);
        }
        if self.count == 1 {
            self.head = None;
            self.tail = None;
        } else {
            proof {
                assert(link_view(t0)[l[0]].1 == l[1]);
            }
            let next = table[result].next();
            table[next].clear_prev();
            self.head = Some(next);
            table[result].clear_next();
        }
        self.count -= 1;
        let ghost l2 = l.drop_first();
        self.items = Ghost(l2);
        proof {
            let t = link_view(table@);
            let tv0 = link_view(t0);
            assert forall|k: int| 0 <= k < l2.len() implies #[trigger] t[l2[k]].0 == (if k == 0 {
                CLEAR as int
            } else {
                l2[k - 1]
            }) by {
                assert(l2[k] == l[k + 1]);
                assert(tv0[l[k + 1]].0 == l[k]);
                assert(l[k + 1] != l[0]);
            }
            assert forall|k: int| 0 <= k < l2.len() implies #[trigger] t[l2[k]].1 == (if k
                == l2.len() - 1 {
                CLEAR as int
            } else {
                l2[k + 1]
            }) by {
                assert(l2[k] == l[k + 1]);
                assert(tv0[l[k + 1]].1 == (if k + 1 == l.len() - 1 {
                    CLEAR as int
                } else {
                    l[k + 2]
                }));
                assert(l[k + 1] != l[0]);
                if k > 0 {
                    assert(l[k + 1] != l[1]);
                }
            }
            assert forall|k1: int, k2: int|
                0 <= k1 < l2.len() && 0 <= k2 < l2.len() && #[trigger] l2[k1] == #[trigger] l2[k2] implies k1
                == k2 by {
                assert(l[k1 + 1] == l[k2 + 1]);
            }
            if l.len() == 1 {
                assert(tv0[l[0]].1 == CLEAR as int);
            }
        }
        Ok(result)
    }
}


/// Two lists of distinct frames below `n` with no frame in common hold at most `n`
/// frames together.
pub proof fn lemma_disjoint_bounded(l1: Seq<int>, l2: Seq<int>, n: int)
    requires
        forall|k: int| 0 <= k < l1.len() ==> 0 <= #[trigger] l1[k] < n,
        forall|k: int| 0 <= k < l2.len() ==> 0 <= #[trigger] l2[k] < n,
        l1.no_duplicates(),
        l2.no_duplicates(),
        forall|k1: int, k2: int| 0 <= k1 < l1.len() && 0 <= k2 < l2.len() ==> l1[k1] != l2[k2],
        n >= 0,
    ensures
        l1.len() + l2.len() <= n,
{
    l1.unique_seq_to_set();
    l2.unique_seq_to_set();
    seq_to_set_is_finite(l1);
    seq_to_set_is_finite(l2);
    lemma_int_range(0, n);
    let s1 = l1.to_set();
    let s2 = l2.to_set();
    assert(s1.disjoint(s2));
    vstd::set_lib::lemma_set_disjoint_lens(s1, s2);
    assert((s1 + s2).subset_of(set_int_range(0, n)));
    lemma_len_subset(s1 + s2, set_int_range(0, n));
}

impl FrameDeque {
    /// Detach the run of `count` consecutively numbered frames from `i` out of the
    /// middle of another list `src` (where it starts at position `a`, and is neither
    /// first nor last), and append it at the tail of this deque.
    #[verifier::spinoff_prover]
    pub fn move_range(
        &mut self,
        i: usize,
        count: usize,
        table: &mut Vec<FrameTableNode>,
        Ghost(src): Ghost<Seq<int>>,
        Ghost(a): Ghost<int>,
    ) -> (r: Result<()>)
        requires
            old(self).wf(old(table)@),
            links(link_view(old(table)@), src),
            count >= 1,
            1 <= a,
            a + count < src.len(),
            forall|k: int| 0 <= k < count ==> #[trigger] src[a + k] == i + k,
            forall|k1: int, k2: int|
                0 <= k1 < src.len() && 0 <= k2 < old(self)@.len() ==> src[k1] != old(self)@[k2],
        ensures
            r == Ok::<(), Error>(()),
            final(self)@ == old(self)@ + src.subrange(a, a + count),
            final(self).wf(final(table)@),
            links(
                link_view(final(table)@),
                src.subrange(0, a) + src.subrange(a + count, src.len() as int),
            ),
            final(table).len() == old(table).len(),
            forall|x: int|
                0 <= x < old(table).len() && x != src[a - 1] && x != src[a + count] && x != i && x
                    != i + count - 1 && (old(self)@.len() == 0 || x != old(self)@.last())
                    ==> #[trigger] final(table)@[x] == old(table)@[x],
    {
        let ghost l = self.items@;
        let ghost t0 = link_view(table@);
        proof {
            assert(src[a + 0] == i);
            assert(src[a + (count - 1)] == i + count - 1);
            assert forall|k1: int, k2: int|
                0 <= k1 < src.len() && 0 <= k2 < l.len() implies src[k1] != l[k2] by {
                assert(src[k1] != old(self)@[k2]);
            }
            assert(src.no_duplicates());
            assert(l.no_duplicates());
            assert(t0[src[a]].0 == src[a - 1]);
            assert(t0[src[a + count - 1]].1 == src[a + count]);
            lemma_disjoint_bounded(src, l, t0.len() as int);
        }
        if FrameTableNode::is_clear(table[i].prev()) {
            // A run at the head of another list cannot be detached.
            return Err(Error::Unimplemented);
        }
        let prev = table[i].prev();
        let tail = i + count - 1;
        let next = table[tail].next();
        table[prev].set_next(next);
        table[next].set_prev(prev);
        table[tail].clear_next();
        match self.tail {
            None => {
                table[i].clear_prev();
                self.head = Some(i);
            },
            Some(t) => {
                table[t].set_next(i);
                table[i].set_prev(t);
            },
        }
        self.tail = Some(tail);
        self.count += count;
        let ghost seg = src.subrange(a, a + count);
        let ghost l2 = l + seg;
        let ghost s2 = src.subrange(0, a) + src.subrange(a + count, src.len() as int);
        self.items = Ghost(l2);
        proof {
            let t = link_view(table@);
            let n = l.len() as int;
            let d = count as int;
            assert(forall|k: int| 0 <= k < d ==> #[trigger] seg[k] == src[a + k]);
            assert forall|k: int| 0 <= k < l2.len() implies 0 <= #[trigger] l2[k] < t.len() by {
                if k >= n {
                    assert(l2[k] == src[a + k - n]);
                }
            }
            assert forall|k1: int, k2: int|
                0 <= k1 < l2.len() && 0 <= k2 < l2.len() && #[trigger] l2[k1] == #[trigger] l2[k2] implies k1
                == k2 by {
                if k1 >= n && k2 >= n {
                    assert(src[a + k1 - n] == src[a + k2 - n]);
                } else if k1 >= n {
                    assert(src[a + k1 - n] != l[k2]);
                } else if k2 >= n {
                    assert(src[a + k2 - n] != l[k1]);
                }
            }
            assert forall|k: int| 0 <= k < l2.len() implies #[trigger] t[l2[k]].0 == (if k == 0 {
                CLEAR as int
            } else {
                l2[k - 1]
            }) by {
                if k < n {
                    assert(t0[l[k]].0 == (if k == 0 {
                        CLEAR as int
                    } else {
                        l[k - 1]
                    }));
                    assert(l[k] != src[a - 1] && l[k] != src[a + d] && l[k] != src[a]);
                    assert(l[k] != src[a + d - 1]);
                } else if k > n {
                    let m = k - n;
                    assert(l2[k] == src[a + m]);
                    assert(t0[src[a + m]].0 == src[a + m - 1]);
                    assert(src[a + m] != src[a - 1]);
                    assert(src[a + m] != src[a + d]);
                    assert(src[a + m] != src[a]);
                    if n > 0 {
                        assert(src[a + m] != l[n - 1]);
                    }
                }
            }
            assert forall|k: int| 0 <= k < l2.len() implies #[trigger] t[l2[k]].1 == (if k
                == l2.len() - 1 {
                CLEAR as int
            } else {
                l2[k + 1]
            }) by {
                if k < n - 1 {
                    assert(t0[l[k]].1 == l[k + 1]);
                    assert(l[k] != src[a - 1] && l[k] != src[a + d] && l[k] != src[a]);
                    assert(l[k] != src[a + d - 1]);
                    assert(l[k] != l[n - 1]);
                } else if k >= n {
                    let m = k - n;
                    assert(l2[k] == src[a + m]);
                    if m < d - 1 {
                        assert(t0[src[a + m]].1 == src[a + m + 1]);
                        assert(src[a + m] != src[a - 1]);
                        assert(src[a + m] != src[a + d]);
                        assert(src[a + m] != src[a + d - 1]);
                        if n > 0 {
                            assert(src[a + m] != l[n - 1]);
                        }
                    }
                }
            }
            let e = src.len() - d;
            assert forall|k: int| 0 <= k < s2.len() implies #[trigger] s2[k] == (if k < a {
                src[k]
            } else {
                src[k + d]
            }) by {}
            assert forall|k: int| 0 <= k < s2.len() implies 0 <= #[trigger] s2[k] < t.len() by {
                if k >= a {
                    assert(s2[k] == src[k + d]);
                }
            }
            assert forall|k1: int, k2: int|
                0 <= k1 < s2.len() && 0 <= k2 < s2.len() && #[trigger] s2[k1] == #[trigger] s2[k2] implies k1
                == k2 by {
                let o1 = if k1 < a {
                    k1
                } else {
                    k1 + d
                };
                let o2 = if k2 < a {
                    k2
                } else {
                    k2 + d
                };
                assert(src[o1] == src[o2]);
            }
            assert forall|k: int| 0 <= k < s2.len() implies #[trigger] t[s2[k]].0 == (if k == 0 {
                CLEAR as int
            } else {
                s2[k - 1]
            }) by {
                let o = if k < a {
                    k
                } else {
                    k + d
                };
                assert(s2[k] == src[o]);
                assert(t0[src[o]].0 == (if o == 0 {
                    CLEAR as int
                } else {
                    src[o - 1]
                }));
                if o != a + d {
                    assert(src[o] != src[a + d]);
                }
                assert(src[o] != src[a]);
                assert(src[o] != src[a + d - 1]);
                if n > 0 {
                    assert(src[o] != l[n - 1]);
                }
                if k > 0 && k - 1 < a {
                    assert(s2[k - 1] == src[k - 1]);
                }
            }
            assert forall|k: int| 0 <= k < s2.len() implies #[trigger] t[s2[k]].1 == (if k
                == s2.len() - 1 {
                CLEAR as int
            } else {
                s2[k + 1]
            }) by {
                let o = if k < a {
                    k
                } else {
                    k + d
                };
                assert(s2[k] == src[o]);
                assert(t0[src[o]].1 == (if o == src.len() - 1 {
                    CLEAR as int
                } else {
                    src[o + 1]
                }));
                if o != a - 1 {
                    assert(src[o] != src[a - 1]);
                }
                assert(src[o] != src[a + d - 1]);
                assert(src[o] != src[a]);
                if n > 0 {
                    assert(src[o] != l[n - 1]);
                }
            }
            assert forall|x: int|
                0 <= x < t0.len() && x != src[a - 1] && x != src[a + count] && x != i && x != i
                    + count - 1 && (l.len() == 0 || x != l.last()) implies #[trigger] table@[x]
                == old(table)@[x] by {}
        }
        Ok(())
    }
}

/// The list a frame is on.
#[derive(Copy, Clone, Debug, PartialEq, Eq, Structural)]
pub enum FrameUse {
    /// Zeroed and free.
    Zeroed,
    /// Owned by the page cleaner while cleaning.
    Zeroing,
    /// Returned after use when no longer needed.
    Free,
    /// Recently-accessed user pages.
    UserHot,
    /// Less recently-accessed user pages.
    UserWarm,
    /// Least recently-accessed user pages.
    UserCold,
    /// Recently-accessed kernel pages.
    KernelHot,
    /// Less recently-accessed kernel pages.
    KernelWarm,
    /// Least recently-accessed kernel pages.
    KernelCold,
    /// Pages that must not be evicted.
    Nailed,
    /// Holds the frame table.
    FrameTable,
    /// The leaf page tables.
    LeafPageTable,
    /// The branch page tables.
    BranchPageTable,
    /// Contiguous pages of physical memory for devices.
    DirectMemoryAccess,
}

/// Number of frame lists.
pub const FRAME_USES: usize = 14;

/// The position of a frame list in declaration order.
pub open spec fn use_index(u: FrameUse) -> int {
    match u {
        FrameUse::Zeroed => 0,
        FrameUse::Zeroing => 1,
        FrameUse::Free => 2,
        FrameUse::UserHot => 3,
        FrameUse::UserWarm => 4,
        FrameUse::UserCold => 5,
        FrameUse::KernelHot => 6,
        FrameUse::KernelWarm => 7,
        FrameUse::KernelCold => 8,
        FrameUse::Nailed => 9,
        FrameUse::FrameTable => 10,
        FrameUse::LeafPageTable => 11,
        FrameUse::BranchPageTable => 12,
        FrameUse::DirectMemoryAccess => 13,
    }
}

/// The list that frames for a purpose go on.
pub open spec fn use_for(purpose: Purpose) -> FrameUse {
    match purpose {
        Purpose::User => FrameUse::UserHot,
        Purpose::Kernel => FrameUse::KernelHot,
        Purpose::LeafPageTable => FrameUse::LeafPageTable,
        Purpose::BranchPageTable => FrameUse::BranchPageTable,
        Purpose::DirectMemoryAccess => FrameUse::DirectMemoryAccess,
    }
}

impl FrameUse {
    /// The position of the list in declaration order.
    pub fn index(self) -> (r: usize)
        ensures
            r == use_index(self),
            r < FRAME_USES,
    {
        match self {
            FrameUse::Zeroed => 0,
            FrameUse::Zeroing => 1,
            FrameUse::Free => 2,
            FrameUse::UserHot => 3,
            FrameUse::UserWarm => 4,
            FrameUse::UserCold => 5,
            FrameUse::KernelHot => 6,
            FrameUse::KernelWarm => 7,
            FrameUse::KernelCold => 8,
            FrameUse::Nailed => 9,
            FrameUse::FrameTable => 10,
            FrameUse::LeafPageTable => 11,
            FrameUse::BranchPageTable => 12,
            FrameUse::DirectMemoryAccess => 13,
        }
    }

    /// The list that frames for a purpose go on.
    pub fn from_purpose(purpose: Purpose) -> (r: FrameUse)
        ensures
            r == use_for(purpose),
    {
        match purpose {
            Purpose::User => FrameUse::UserHot,
            Purpose::Kernel => FrameUse::KernelHot,
            Purpose::LeafPageTable => FrameUse::LeafPageTable,
            Purpose::BranchPageTable => FrameUse::BranchPageTable,
            Purpose::DirectMemoryAccess => FrameUse::DirectMemoryAccess,
        }
    }
}

/// The lists after the frame at the head of list `from` moves to the head of list `to`.
pub open spec fn take_first(lists: Seq<Seq<int>>, from: int, to: int) -> Seq<Seq<int>> {
    let l1 = lists.update(from, lists[from].drop_first());
    l1.update(to, seq![lists[from][0]] + l1[to])
}

/// The address of frame `i` of RAM from `base`, or null where that is beyond the top
/// of memory.
pub open spec fn frame_addr(base: usize, i: int) -> usize {
    if base + i * PAGESIZE_BYTES <= usize::MAX {
        (base + i * PAGESIZE_BYTES) as usize
    } else {
        0
    }
}

/// The frame table: a list for each use, threaded through a table of frames.
pub struct FrameTableInner {
    frame_lists: Vec<FrameDeque>,
    table: Vec<FrameTableNode>,
    ram_range: PhysAddrRange,  // range of ram to be managed.
    mem_translation: FixedOffset,  // translation to enable physical pages to be accessed for zero-ing.
}

impl FrameTableInner {
    /// The frames of each list, head first.
    pub closed spec fn lists(&self) -> Seq<Seq<int>> {
        self.frame_lists@.map_values(|d: FrameDeque| d@)
    }

    /// The (previous, next) links of each frame.
    pub closed spec fn link_table(&self) -> Seq<(u32, u32)> {
        link_view(self.table@)
    }

    /// Number of frames in the table.
    pub closed spec fn frames(&self) -> int {
        self.table.len() as int
    }

    /// Base address of the RAM managed.
    pub closed spec fn ram_base(&self) -> usize {
        self.ram_range.spec_base()
    }

    /// The translation through which frames are accessed.
    pub closed spec fn translation(&self) -> FixedOffset {
        self.mem_translation
    }

    /// Every list is linked through the table, and no frame is on two lists.
    pub closed spec fn wf(&self) -> bool {
        &&& self.frame_lists.len() == FRAME_USES
        &&& forall|u: int| 0 <= u < FRAME_USES ==> #[trigger] self.frame_lists@[u].wf(self.table@)
        &&& forall|u1: int, u2: int, k1: int, k2: int|
            0 <= u1 < FRAME_USES && 0 <= u2 < FRAME_USES && u1 != u2 && 0 <= k1
                < self.lists()[u1].len() && 0 <= k2 < self.lists()[u2].len()
                ==> #[trigger] self.lists()[u1][k1] != #[trigger] self.lists()[u2][k2]
        &&& self.table.len() * PAGESIZE_BYTES <= usize::MAX
    }

    /// A frame table with every frame of `table` free, in index order.
    pub fn new(table: Vec<FrameTableNode>, ram_range: PhysAddrRange, mem_translation: FixedOffset) -> (r: Self)
        requires
            1 <= table.len() < CLEAR,
            table.len() * PAGESIZE_BYTES <= usize::MAX,
        ensures
            r.wf(),
            r.frames() == table.len(),
            r.ram_base() == ram_range.spec_base(),
            r.translation() == mem_translation,
            r.lists() == Seq::new(
                FRAME_USES as nat,
                |u: int|
                    if u == use_index(FrameUse::Free) {
                        Seq::new(table.len() as nat, |i: int| i)
                    } else {
                        Seq::<int>::empty()
                    },
            ),
    {
        let mut table = table;
        let mut frame_lists: Vec<FrameDeque> = Vec::new();
        let mut u: usize = 0;
        while u < FRAME_USES
            invariant
                u <= FRAME_USES,
                frame_lists.len() == u,
                forall|v: int| 0 <= v < u ==> #[trigger] frame_lists@[v].is_empty_deque(),
                table.len() < CLEAR,
            decreases FRAME_USES - u,
        {
            let d = FrameDeque::new();
            frame_lists.push(d);
            u += 1;
        }
        let free = FrameUse::Free.index();
        let ghost t0 = table@;
        proof {
            frame_lists@[free as int].lemma_empty_wf(table@);
        }
        let _ = frame_lists[free].reset(&mut table);
        let r = Self { frame_lists, table, ram_range, mem_translation };
        proof {
            assert forall|v: int| 0 <= v < FRAME_USES implies #[trigger] r.frame_lists@[v].wf(
                r.table@,
            ) by {
                if v != free {
                    r.frame_lists@[v].lemma_empty_wf(r.table@);
                }
            }
            let expected = Seq::new(
                FRAME_USES as nat,
                |u: int|
                    if u == use_index(FrameUse::Free) {
                        Seq::new(r.table.len() as nat, |i: int| i)
                    } else {
                        Seq::<int>::empty()
                    },
            );
            assert forall|v: int| 0 <= v < FRAME_USES implies #[trigger] r.lists()[v] =~= expected[v] by {
                assert(r.lists()[v] == r.frame_lists@[v]@);
                if v != free {
                    assert(r.frame_lists@[v].is_empty_deque());
                    assert(r.frame_lists@[v]@.len() == 0);
                }
            }
            assert(r.lists() =~= Seq::new(
                FRAME_USES as nat,
                |u: int|
                    if u == use_index(FrameUse::Free) {
                        Seq::new(r.table.len() as nat, |i: int| i)
                    } else {
                        Seq::<int>::empty()
                    },
            ));
        }
        r
    }

    /// The address of frame `i` of RAM.
    pub fn ram_page(&self, i: usize) -> (r: PhysAddr)
        requires
            i * PAGESIZE_BYTES <= usize::MAX,
        ensures
            r.value() == frame_addr(self.ram_base(), i as int),
    {
        self.ram_range.base().increment(i * PAGESIZE_BYTES)
    }

    /// Pop the frame at the head of list `frame_use`, or fail with `OutOfPages` when
    /// the list is empty.
    pub fn pop(&mut self, frame_use: FrameUse) -> (r: Result<usize>)
        requires
            old(self).wf(),
        ensures
            final(self).wf(),
            final(self).frames() == old(self).frames(),
            final(self).ram_base() == old(self).ram_base(),
            final(self).translation() == old(self).translation(),
            ({
                let l = old(self).lists()[use_index(frame_use)];
                if l.len() == 0 {
                    r == Err::<usize, Error>(Error::OutOfPages) && final(self).lists() == old(self).lists()
                } else {
                    &&& r == Ok::<usize, Error>(l[0] as usize)
                    &&& 0 <= l[0] < old(self).frames()
                    &&& final(self).lists() == old(self).lists().update(
                        use_index(frame_use),
                        l.drop_first(),
                    )
                    &&& final(self).link_table()[l[0]] == (CLEAR, CLEAR)
                }
            }),
    {
        let u = frame_use.index();
        let ghost lists = self.lists();
        let ghost t0 = self.table@;
        proof {
            assert(self.frame_lists@[u as int].wf(t0));
        }
        let r = self.frame_lists[u].pop(&mut self.table);
        proof {
            let l = lists[u as int];
            assert forall|v: int| 0 <= v < FRAME_USES implies #[trigger] self.frame_lists@[v].wf(
                self.table@,
            ) by {
                if v != u {
                    let lv = lists[v];
                    assert(old(self).frame_lists@[v].wf(t0));
                    assert forall|k: int| 0 <= k < lv.len() implies link_view(self.table@)[#[trigger] lv[k]] == link_view(t0)[lv[k]] by {
                        if l.len() > 0 {
                            assert(lists[v][k] != lists[u as int][0]);
                        }
                        if l.len() > 1 {
                            assert(lists[v][k] != lists[u as int][1]);
                        }
                    }
                    lemma_links_frame(link_view(t0), link_view(self.table@), lv);
                    assert(self.frame_lists@[v] == old(self).frame_lists@[v]);
                }
            }
            if l.len() > 0 {
                assert(self.lists() =~= lists.update(u as int, l.drop_first()));
            } else {
                assert(self.lists() =~= lists);
            }
            assert forall|u1: int, u2: int, k1: int, k2: int|
                0 <= u1 < FRAME_USES && 0 <= u2 < FRAME_USES && u1 != u2 && 0 <= k1
                    < self.lists()[u1].len() && 0 <= k2 < self.lists()[u2].len() implies #[trigger] self.lists()[u1][k1]
                != #[trigger] self.lists()[u2][k2] by {
                let o1 = if u1 == u && l.len() > 0 {
                    k1 + 1
                } else {
                    k1
                };
                let o2 = if u2 == u && l.len() > 0 {
                    k2 + 1
                } else {
                    k2
                };
                assert(self.lists()[u1][k1] == lists[u1][o1]);
                assert(self.lists()[u2][k2] == lists[u2][o2]);
            }
        }
        r
    }

    /// Push frame `i`, which is on no list and has no neighbours, onto the head of
    /// list `frame_use`.
    pub fn push(&mut self, i: usize, frame_use: FrameUse) -> (r: Result<()>)
        requires
            old(self).wf(),
            i < old(self).frames(),
            old(self).link_table()[i as int] == (CLEAR, CLEAR),
            forall|u: int, k: int|
                0 <= u < FRAME_USES && 0 <= k < old(self).lists()[u].len() ==> #[trigger] old(self).lists()[u][k] != i,
        ensures
            r == Ok::<(), Error>(()),
            final(self).wf(),
            final(self).frames() == old(self).frames(),
            final(self).ram_base() == old(self).ram_base(),
            final(self).translation() == old(self).translation(),
            final(self).lists() == old(self).lists().update(
                use_index(frame_use),
                seq![i as int] + old(self).lists()[use_index(frame_use)],
            ),
    {
        let u = frame_use.index();
        let ghost lists = self.lists();
        let ghost t0 = self.table@;
        proof {
            assert(self.frame_lists@[u as int].wf(t0));
            assert forall|k: int| 0 <= k < lists[u as int].len() implies lists[u as int][k] != i by {
                assert(lists[u as int][k] != i);
            }
            assert(lists[u as int] == self.frame_lists@[u as int]@);
            assert(!self.frame_lists@[u as int]@.contains(i as int));
        }
        let r = self.frame_lists[u].push(i, &mut self.table);
        proof {
            let l = lists[u as int];
            assert forall|v: int| 0 <= v < FRAME_USES implies #[trigger] self.frame_lists@[v].wf(
                self.table@,
            ) by {
                if v != u {
                    let lv = lists[v];
                    assert(old(self).frame_lists@[v].wf(t0));
                    assert forall|k: int| 0 <= k < lv.len() implies link_view(self.table@)[#[trigger] lv[k]] == link_view(t0)[lv[k]] by {
                        assert(lists[v][k] != i);
                        if l.len() > 0 {
                            assert(lists[v][k] != lists[u as int][0]);
                        }
                    }
                    lemma_links_frame(link_view(t0), link_view(self.table@), lv);
                    assert(self.frame_lists@[v] == old(self).frame_lists@[v]);
                }
            }
            assert(self.lists() =~= lists.update(u as int, seq![i as int] + l));
            assert forall|u1: int, u2: int, k1: int, k2: int|
                0 <= u1 < FRAME_USES && 0 <= u2 < FRAME_USES && u1 != u2 && 0 <= k1
                    < self.lists()[u1].len() && 0 <= k2 < self.lists()[u2].len() implies #[trigger] self.lists()[u1][k1]
                != #[trigger] self.lists()[u2][k2] by {
                if u1 == u && k1 == 0 {
                    assert(lists[u2][k2] != i);
                } else if u2 == u && k2 == 0 {
                    assert(lists[u1][k1] != i);
                } else {
                    let o1 = if u1 == u {
                        k1 - 1
                    } else {
                        k1
                    };
                    let o2 = if u2 == u {
                        k2 - 1
                    } else {
                        k2
                    };
                    assert(self.lists()[u1][k1] == lists[u1][o1]);
                    assert(self.lists()[u2][k2] == lists[u2][o2]);
                }
            }
        }
        r
    }
}


/// A frame below a table's length has its address within a `usize`.
pub proof fn lemma_frame_offset_fits(i: int, n: int)
    requires
        0 <= i < n,
        n * PAGESIZE_BYTES <= usize::MAX,
    ensures
        i * PAGESIZE_BYTES <= usize::MAX,
{
    assert(i * PAGESIZE_BYTES <= n * PAGESIZE_BYTES) by (nonlinear_arith)
        requires
            0 <= i < n,
    ;
}

/// List `l` holds the consecutively numbered frames `first..first + count` from
/// position `a`, with at least one frame before them and one after.
pub open spec fn run_at(l: Seq<int>, a: int, count: int, first: int) -> bool {
    &&& 1 <= a
    &&& a + count < l.len()
    &&& forall|k: int| 0 <= k < count ==> #[trigger] l[a + k] == first + k
}

/// The lists after the run of frames at positions `a..a + count` of the free list
/// moves to the tail of list `u`.
pub open spec fn move_free(lists: Seq<Seq<int>>, a: int, count: int, u: int) -> Seq<Seq<int>> {
    let free = lists[use_index(FrameUse::Free)];
    let l1 = lists.update(
        use_index(FrameUse::Free),
        free.subrange(0, a) + free.subrange(a + count, free.len() as int),
    );
    l1.update(u, l1[u] + free.subrange(a, a + count))
}

impl FrameTableInner {
    /// The first frame of `range` as counted from the base of RAM.
    pub open spec fn first_frame(&self, range: PhysAddrRange) -> int {
        (range.spec_base() - self.ram_base()) / (PAGESIZE_BYTES as int)
    }

    /// Move the frames of a physical address range, which are consecutive in the
    /// middle of the free list, to the tail of list `frame_use`.
    #[verifier::spinoff_prover]
    pub fn move_free_range(&mut self, phys_addr_range: PhysAddrRange, frame_use: FrameUse) -> (r:
        Result<()>)
        requires
            old(self).wf(),
            frame_use != FrameUse::Free,
            phys_addr_range.spec_length() + PAGESIZE_BYTES <= usize::MAX,
            old(self).ram_base() <= phys_addr_range.spec_base(),
            pages_for(phys_addr_range.spec_length() as int) >= 1,
            exists|a: int|
                #[trigger] run_at(
                    old(self).lists()[use_index(FrameUse::Free)],
                    a,
                    pages_for(phys_addr_range.spec_length() as int),
                    old(self).first_frame(phys_addr_range),
                ),
        ensures
            r == Ok::<(), Error>(()),
            final(self).wf(),
            final(self).frames() == old(self).frames(),
            final(self).ram_base() == old(self).ram_base(),
            final(self).translation() == old(self).translation(),
            exists|a: int|
                #[trigger] run_at(
                    old(self).lists()[use_index(FrameUse::Free)],
                    a,
                    pages_for(phys_addr_range.spec_length() as int),
                    old(self).first_frame(phys_addr_range),
                ) && final(self).lists() == move_free(
                    old(self).lists(),
                    a,
                    pages_for(phys_addr_range.spec_length() as int),
                    use_index(frame_use),
                ),
    {
        let count = phys_addr_range.length_in_pages();
        let phys_addr = phys_addr_range.base();
        let i = phys_addr.offset_above(self.ram_range.base()) / PAGESIZE_BYTES;
        let free = FrameUse::Free.index();
        let u = frame_use.index();
        let ghost lists = self.lists();
        let ghost src = lists[free as int];
        let ghost t0 = self.table@;
        let ghost a = choose|a: int| #[trigger] run_at(src, a, count as int, i as int);
        proof {
            assert(lists[free as int] == self.frame_lists@[free as int]@);
            assert(lists[u as int] == self.frame_lists@[u as int]@);
            assert(self.frame_lists@[free as int].wf(t0));
            assert(self.frame_lists@[u as int].wf(t0));
            assert forall|k1: int, k2: int|
                0 <= k1 < src.len() && 0 <= k2 < self.frame_lists@[u as int]@.len() implies src[k1]
                != self.frame_lists@[u as int]@[k2] by {
                assert(lists[free as int][k1] != lists[u as int][k2]);
            }
        }
        let c = self.frame_lists[free].count;
        self.frame_lists[free].count = c - count;
        let r = self.frame_lists[u].move_range(i, count, &mut self.table, Ghost(src), Ghost(a));
        let ghost s2 = src.subrange(0, a) + src.subrange(a + count, src.len() as int);
        self.frame_lists[free].items = Ghost(s2);
        proof {
            let seg = src.subrange(a, a + count as int);
            let lu = lists[u as int];
            let d = count as int;
            assert(s2[0] == src[0]);
            assert(s2.last() == src.last());
            assert(self.frame_lists@[free as int].wf(self.table@));
            assert forall|v: int| 0 <= v < FRAME_USES implies #[trigger] self.frame_lists@[v].wf(
                self.table@,
            ) by {
                if v != u && v != free {
                    let lv = lists[v];
                    assert(old(self).frame_lists@[v].wf(t0));
                    assert forall|k: int| 0 <= k < lv.len() implies link_view(self.table@)[#[trigger] lv[k]]
                        == link_view(t0)[lv[k]] by {
                        assert(lists[v][k] != lists[free as int][a - 1]);
                        assert(lists[v][k] != lists[free as int][a + d]);
                        assert(src[a + 0] == i);
                        assert(src[a + (d - 1)] == i + d - 1);
                        assert(lists[v][k] != lists[free as int][a]);
                        assert(lists[v][k] != lists[free as int][a + d - 1]);
                        if lu.len() > 0 {
                            assert(lists[v][k] != lists[u as int][lu.len() - 1]);
                        }
                    }
                    lemma_links_frame(link_view(t0), link_view(self.table@), lv);
                    assert(self.frame_lists@[v] == old(self).frame_lists@[v]);
                }
            }
            let target = move_free(lists, a, d, u as int);
            assert(self.lists() =~= target);
            assert forall|u1: int, u2: int, k1: int, k2: int|
                0 <= u1 < FRAME_USES && 0 <= u2 < FRAME_USES && u1 != u2 && 0 <= k1
                    < self.lists()[u1].len() && 0 <= k2 < self.lists()[u2].len() implies #[trigger] self.lists()[u1][k1]
                != #[trigger] self.lists()[u2][k2] by {
                let (w1, o1) = if u1 == free {
                    (free as int, if k1 < a {
                        k1
                    } else {
                        k1 + d
                    })
                } else if u1 == u && k1 >= lu.len() {
                    (free as int, a + k1 - lu.len())
                } else {
                    (u1, k1)
                };
                let (w2, o2) = if u2 == free {
                    (free as int, if k2 < a {
                        k2
                    } else {
                        k2 + d
                    })
                } else if u2 == u && k2 >= lu.len() {
                    (free as int, a + k2 - lu.len())
                } else {
                    (u2, k2)
                };
                assert(self.lists()[u1][k1] == lists[w1][o1]);
                assert(self.lists()[u2][k2] == lists[w2][o2]);
                if w1 == w2 {
                    assert(o1 != o2);
                    assert(old(self).frame_lists@[w1].wf(t0));
                    assert(lists[w1] == old(self).frame_lists@[w1]@);
                }
            }
            assert(src[a + 0] == i);
            assert(run_at(lists[use_index(FrameUse::Free)], a, d, i as int));
        }
        r
    }
}

/// What reserving a zeroed frame for a purpose gives from a frame table: `UnInitialised`
/// before it is initialised; the first zeroed frame where there is one; otherwise the
/// first free frame, with the virtual address of the frame to fill with zeros;
/// otherwise `OutOfPages`.
pub open spec fn zeroed_frame(table: FrameTable, purpose: Purpose) -> Result<(PhysAddr, Option<VirtAddr>)> {
    match table.0 {
        None => Err(Error::UnInitialised),
        Some(inner) => {
            let lists = inner.lists();
            let z = use_index(FrameUse::Zeroed);
            let f = use_index(FrameUse::Free);
            if lists[z].len() > 0 {
                Ok((PhysAddr(frame_addr(inner.ram_base(), lists[z][0])), None))
            } else if lists[f].len() > 0 {
                let pa = frame_addr(inner.ram_base(), lists[f][0]);
                Ok((PhysAddr(pa), Some(VirtAddr(inner.translation().spec_translate_phys(pa).unwrap()))))
            } else {
                Err(Error::OutOfPages)
            }
        },
    }
}

/// The lists of frames after reserving a zeroed frame for a purpose: the frame taken
/// moves from the front of its list to the list of the purpose's use.
pub open spec fn zeroed_lists(lists: Seq<Seq<int>>, purpose: Purpose) -> Seq<Seq<int>> {
    let z = use_index(FrameUse::Zeroed);
    let f = use_index(FrameUse::Free);
    let to = use_index(use_for(purpose));
    if lists[z].len() > 0 {
        take_first(lists, z, to)
    } else if lists[f].len() > 0 {
        take_first(lists, f, to)
    } else {
        lists
    }
}

/// True iff reserving a zeroed frame for a purpose takes frame table `before` to
/// `after`: an uninitialised table stays so; otherwise only the lists change, as
/// `zeroed_lists` says.
pub open spec fn zeroed_table(before: FrameTable, after: FrameTable, purpose: Purpose) -> bool {
    match before.0 {
        None => after.0 is None,
        Some(inner) => match after.0 {
            None => false,
            Some(a) => {
                &&& a.frames() == inner.frames()
                &&& a.ram_base() == inner.ram_base()
                &&& a.translation() == inner.translation()
                &&& a.lists() == zeroed_lists(inner.lists(), purpose)
            },
        },
    }
}

/// The frame table, once initialised.
pub struct FrameTable(pub Option<FrameTableInner>);

impl FrameTable {
    /// The table is uninitialised, or its lists are well formed.
    pub open spec fn wf(&self) -> bool {
        self.0 matches Some(inner) ==> inner.wf()
    }

    /// Reserve a frame for a given purpose: a zeroed frame where one is left,
    /// otherwise a free frame, together with the virtual address of the frame that the
    /// caller must then fill with zeros; as `zeroed_frame` says.
    pub fn alloc_zeroed(&mut self, purpose: Purpose) -> (r: Result<(PhysAddr, Option<VirtAddr>)>)
        requires
            old(self).wf(),
        ensures
            final(self).wf(),
            r == zeroed_frame(*old(self), purpose),
            zeroed_table(*old(self), *final(self), purpose),
    {
        match &mut self.0 {
            None => Err(Error::UnInitialised),
            Some(inner) => {
                let ghost lists = inner.lists();
                proof {
                    inner.lemma_wf_lists();
                }
                let mut zero_required = false;
                let i = match inner.pop(FrameUse::Zeroed) {
                    Ok(i) => i,
                    Err(e) => {
                        if e == Error::OutOfPages {
                            zero_required = true;
                            match inner.pop(FrameUse::Free) {
                                Ok(i) => i,
                                Err(e) => {
                                    return Err(e);
                                },
                            }
                        } else {
                            return Err(e);
                        }
                    },
                };
                let ghost from = if zero_required {
                    use_index(FrameUse::Free)
                } else {
                    use_index(FrameUse::Zeroed)
                };
                proof {
                    assert(lists[from][0] == i);
                    lemma_frame_offset_fits(i as int, inner.frames());
                    inner.lemma_popped_on_no_list(lists, from);
                }
                let phys_addr = inner.ram_page(i);
                proof {
                    super::translation::lemma_fixed_offset(
                        inner.translation(),
                        0,
                        phys_addr.value(),
                    );
                }
                let zero_at = if zero_required {
                    match inner.mem_translation.translate_phys(phys_addr) {
                        Ok(v) => Some(v),
                        Err(e) => {
                            return Err(e);
                        },
                    }
                } else {
                    None
                };
                let _ = inner.push(i, FrameUse::from_purpose(purpose));
                proof {
                    let to = use_index(use_for(purpose));
                    assert(inner.lists() =~= take_first(lists, from, to));
                }
                Ok((phys_addr, zero_at))
            },
        }
    }

    /// Reserve a free frame for a given purpose, which must be overwritten, or fail
    /// with `OutOfMemory` when none is left.
    pub fn alloc_for_overwrite(&mut self, purpose: Purpose) -> (r: Result<PhysAddr>)
        requires
            old(self).wf(),
        ensures
            final(self).wf(),
            match old(self).0 {
                None => r == Err::<PhysAddr, Error>(Error::UnInitialised) && final(self).0 is None,
                Some(inner) => match final(self).0 {
                    None => false,
                    Some(after) => {
                        let lists = inner.lists();
                        let f = use_index(FrameUse::Free);
                        let to = use_index(use_for(purpose));
                        &&& after.frames() == inner.frames()
                        &&& after.ram_base() == inner.ram_base()
                        &&& after.translation() == inner.translation()
                        &&& if lists[f].len() > 0 {
                            &&& r == Ok::<PhysAddr, Error>(
                                PhysAddr(frame_addr(inner.ram_base(), lists[f][0])),
                            )
                            &&& after.lists() == take_first(lists, f, to)
                        } else {
                            &&& r == Err::<PhysAddr, Error>(Error::OutOfMemory)
                            &&& after.lists() == lists
                        }
                    },
                },
            },
    {
        match &mut self.0 {
            None => Err(Error::UnInitialised),
            Some(inner) => {
                let ghost lists = inner.lists();
                proof {
                    inner.lemma_wf_lists();
                }
                let i = match inner.pop(FrameUse::Free) {
                    Ok(i) => i,
                    Err(_) => {
                        return Err(Error::OutOfMemory);
                    },
                };
                let ghost from = use_index(FrameUse::Free);
                proof {
                    assert(lists[from][0] == i);
                    lemma_frame_offset_fits(i as int, inner.frames());
                    inner.lemma_popped_on_no_list(lists, from);
                }
                let _ = inner.push(i, FrameUse::from_purpose(purpose));
                proof {
                    let to = use_index(use_for(purpose));
                    assert(inner.lists() =~= take_first(lists, from, to));
                }
                let phys_addr = inner.ram_page(i);
                Ok(phys_addr)
            },
        }
    }
}

impl FrameTableInner {
    /// No frame is on a list twice, nor on two lists.
    pub proof fn lemma_wf_lists(&self)
        requires
            self.wf(),
        ensures
            self.lists().len() == FRAME_USES,
            forall|u: int, k1: int, k2: int|
                0 <= u < FRAME_USES && 0 <= k1 < self.lists()[u].len() && 0 <= k2
                    < self.lists()[u].len() && #[trigger] self.lists()[u][k1]
                    == #[trigger] self.lists()[u][k2] ==> k1 == k2,
            forall|u1: int, u2: int, k1: int, k2: int|
                0 <= u1 < FRAME_USES && 0 <= u2 < FRAME_USES && u1 != u2 && 0 <= k1
                    < self.lists()[u1].len() && 0 <= k2 < self.lists()[u2].len()
                    ==> #[trigger] self.lists()[u1][k1] != #[trigger] self.lists()[u2][k2],
    {
        assert forall|u: int, k1: int, k2: int|
            0 <= u < FRAME_USES && 0 <= k1 < self.lists()[u].len() && 0 <= k2
                < self.lists()[u].len() && #[trigger] self.lists()[u][k1]
                == #[trigger] self.lists()[u][k2] implies k1 == k2 by {
            assert(self.frame_lists@[u].wf(self.table@));
            assert(self.lists()[u] == self.frame_lists@[u]@);
        }
    }

    /// A frame popped from the head of a list is on no list afterwards.
    pub proof fn lemma_popped_on_no_list(&self, before: Seq<Seq<int>>, from: int)
        requires
            self.wf(),
            0 <= from < FRAME_USES,
            before.len() == FRAME_USES,
            before[from].len() > 0,
            self.lists() == before.update(from, before[from].drop_first()),
            forall|k1: int, k2: int|
                0 <= k1 < before[from].len() && 0 <= k2 < before[from].len() && #[trigger] before[from][k1]
                    == #[trigger] before[from][k2] ==> k1 == k2,
            forall|u: int, k: int|
                0 <= u < FRAME_USES && u != from && 0 <= k < before[u].len() ==> #[trigger] before[u][k]
                    != before[from][0],
        ensures
            forall|u: int, k: int|
                0 <= u < FRAME_USES && 0 <= k < self.lists()[u].len() ==> #[trigger] self.lists()[u][k]
                    != before[from][0],
    {
        assert forall|u: int, k: int|
            0 <= u < FRAME_USES && 0 <= k < self.lists()[u].len() implies #[trigger] self.lists()[u][k]
            != before[from][0] by {
            if u == from {
                assert(self.lists()[u][k] == before[from][k + 1]);
            } else {
                assert(self.lists()[u][k] == before[u][k]);
            }
        }
    }
}
/// No frame is handed out twice: after a zeroed frame is reserved from a frame table,
/// reserving a zeroed frame again (for any purpose) gives another frame, where RAM lies
/// below the top of memory.
pub proof fn lemma_zeroed_frames_differ(t0: FrameTable, t1: FrameTable, p0: Purpose, p1: Purpose)
    requires
        t0.wf(),
        t1.wf(),
        zeroed_table(t0, t1, p0),
        zeroed_frame(t0, p0) is Ok,
        zeroed_frame(t1, p1) is Ok,
        t0.0 matches Some(inner) ==> inner.ram_base() + inner.frames() * PAGESIZE_BYTES
            <= usize::MAX,
    ensures
        zeroed_frame(t0, p0).unwrap().0 != zeroed_frame(t1, p1).unwrap().0,
{
    let inner = t0.0.unwrap();
    let after = t1.0.unwrap();
    inner.lemma_wf_lists();
    after.lemma_wf_lists();
    let lists = inner.lists();
    let z = use_index(FrameUse::Zeroed);
    let f = use_index(FrameUse::Free);
    let to = use_index(use_for(p0));
    let from = if lists[z].len() > 0 {
        z
    } else {
        f
    };
    let x = lists[from][0];
    let later = after.lists();
    assert(later == take_first(lists, from, to));
    assert(later[to][0] == x);
    let from2 = if later[z].len() > 0 {
        z
    } else {
        f
    };
    let y = later[from2][0];
    assert(y != x);
    assert(0 <= x < inner.frames()) by {
        assert(inner.frame_lists@[from].wf(inner.table@));
        assert(lists[from] == inner.frame_lists@[from]@);
    }
    assert(0 <= y < after.frames()) by {
        assert(after.frame_lists@[from2].wf(after.table@));
        assert(later[from2] == after.frame_lists@[from2]@);
    }
    assert(x * PAGESIZE_BYTES < inner.frames() * PAGESIZE_BYTES) by (nonlinear_arith)
        requires
            0 <= x < inner.frames(),
    ;
    assert(y * PAGESIZE_BYTES < inner.frames() * PAGESIZE_BYTES) by (nonlinear_arith)
        requires
            0 <= y < inner.frames(),
    ;
    assert(x * PAGESIZE_BYTES != y * PAGESIZE_BYTES) by (nonlinear_arith)
        requires
            x != y,
    ;
}


/// The frame that reserving a zeroed frame takes from lists: the head of the zeroed
/// list where it has one, else the head of the free list, else none.
pub open spec fn zeroed_pick(lists: Seq<Seq<int>>) -> Option<int> {
    let z = use_index(FrameUse::Zeroed);
    let f = use_index(FrameUse::Free);
    if lists[z].len() > 0 {
        Some(lists[z][0])
    } else if lists[f].len() > 0 {
        Some(lists[f][0])
    } else {
        None
    }
}

/// The frames that a run of reservations of zeroed frames, for `purposes[0]`,
/// `purposes[1]`, ... in turn, takes from lists: none where nothing was left.
pub open spec fn zeroed_run(lists: Seq<Seq<int>>, purposes: Seq<Purpose>) -> Seq<Option<int>>
    decreases purposes.len(),
{
    if purposes.len() == 0 {
        Seq::empty()
    } else {
        seq![zeroed_pick(lists)] + zeroed_run(zeroed_lists(lists, purposes[0]), purposes.drop_first())
    }
}

/// Lists of frames below `n` with no frame twice on a list nor on two lists.
pub open spec fn lists_disjoint(lists: Seq<Seq<int>>, n: int) -> bool {
    &&& lists.len() == FRAME_USES
    &&& forall|u: int, k: int|
        0 <= u < FRAME_USES && 0 <= k < lists[u].len() ==> 0 <= #[trigger] lists[u][k] < n
    &&& forall|u: int, k1: int, k2: int|
        0 <= u < FRAME_USES && 0 <= k1 < lists[u].len() && 0 <= k2 < lists[u].len()
            && #[trigger] lists[u][k1] == #[trigger] lists[u][k2] ==> k1 == k2
    &&& forall|u1: int, u2: int, k1: int, k2: int|
        0 <= u1 < FRAME_USES && 0 <= u2 < FRAME_USES && u1 != u2 && 0 <= k1 < lists[u1].len()
            && 0 <= k2 < lists[u2].len() ==> #[trigger] lists[u1][k1] != #[trigger] lists[u2][k2]
}

/// Moving the head of one list to the head of another keeps lists disjoint.
proof fn lemma_take_first_disjoint(lists: Seq<Seq<int>>, n: int, from: int, to: int)
    requires
        lists_disjoint(lists, n),
        0 <= from < FRAME_USES,
        0 <= to < FRAME_USES,
        from != to,
        lists[from].len() > 0,
    ensures
        lists_disjoint(take_first(lists, from, to), n),
        take_first(lists, from, to)[from] == lists[from].drop_first(),
        forall|u: int| 0 <= u < FRAME_USES && u != from && u != to ==> #[trigger] take_first(lists, from, to)[u] == lists[u],
{
    let l = take_first(lists, from, to);
    let x = lists[from][0];
    assert forall|u: int, k: int| 0 <= u < FRAME_USES && 0 <= k < l[u].len() implies
        (u == from ==> #[trigger] l[u][k] == lists[from][k + 1])
        && (u == to ==> (k == 0 ==> l[u][k] == x) && (k > 0 ==> l[u][k] == lists[to][k - 1]))
        && (u != from && u != to ==> l[u][k] == lists[u][k]) by {}
    assert forall|u: int, k1: int, k2: int|
        0 <= u < FRAME_USES && 0 <= k1 < l[u].len() && 0 <= k2 < l[u].len()
            && #[trigger] l[u][k1] == #[trigger] l[u][k2] implies k1 == k2 by {
        if u == from {
            assert(lists[from][k1 + 1] == lists[from][k2 + 1]);
        } else if u == to {
            if k1 > 0 && k2 > 0 {
                assert(lists[to][k1 - 1] == lists[to][k2 - 1]);
            } else if k1 > 0 {
                assert(lists[to][k1 - 1] != lists[from][0]);
            } else if k2 > 0 {
                assert(lists[to][k2 - 1] != lists[from][0]);
            }
        }
    }
    assert forall|u1: int, u2: int, k1: int, k2: int|
        0 <= u1 < FRAME_USES && 0 <= u2 < FRAME_USES && u1 != u2 && 0 <= k1 < l[u1].len()
            && 0 <= k2 < l[u2].len() implies #[trigger] l[u1][k1] != #[trigger] l[u2][k2] by {
        let a = if u1 == from {
            (from, k1 + 1)
        } else if u1 == to {
            if k1 == 0 { (from, 0) } else { (to, k1 - 1) }
        } else {
            (u1, k1)
        };
        let b = if u2 == from {
            (from, k2 + 1)
        } else if u2 == to {
            if k2 == 0 { (from, 0) } else { (to, k2 - 1) }
        } else {
            (u2, k2)
        };
        assert(l[u1][k1] == lists[a.0][a.1]);
        assert(l[u2][k2] == lists[b.0][b.1]);
        if a.0 == b.0 {
            assert(a.1 != b.1);
        }
    }
    assert forall|u: int, k: int| 0 <= u < FRAME_USES && 0 <= k < l[u].len() implies 0 <= #[trigger] l[u][k] < n by {
        if u == from {
            assert(l[u][k] == lists[from][k + 1]);
        } else if u == to {
            if k == 0 {
                assert(l[u][k] == lists[from][0]);
            } else {
                assert(l[u][k] == lists[to][k - 1]);
            }
        } else {
            assert(l[u][k] == lists[u][k]);
        }
    }
}

/// What a run of reservations of zeroed frames takes from disjoint lists: each frame
/// taken was on the zeroed or the free list, no frame is taken twice, and a
/// reservation gets no frame exactly when the zeroed and free frames are all taken.
proof fn lemma_zeroed_run(lists: Seq<Seq<int>>, n: int, purposes: Seq<Purpose>)
    requires
        lists_disjoint(lists, n),
    ensures
        ({
            let picks = zeroed_run(lists, purposes);
            let zeroed = lists[use_index(FrameUse::Zeroed)];
            let free = lists[use_index(FrameUse::Free)];
            &&& picks.len() == purposes.len()
            &&& forall|i: int|
                0 <= i < picks.len() ==> (#[trigger] picks[i] matches Some(x) ==> 0 <= x < n && (
                zeroed.contains(x) || free.contains(x)))
            &&& forall|i: int|
                0 <= i < picks.len() ==> (#[trigger] picks[i] is None <==> i >= zeroed.len()
                    + free.len())
            &&& forall|i: int, j: int|
                0 <= i < j < picks.len() ==> (#[trigger] picks[i] matches Some(x) ==> (
                #[trigger] picks[j] matches Some(y) ==> x != y))
        }),
    decreases purposes.len(),
{
    if purposes.len() > 0 {
        let z = use_index(FrameUse::Zeroed);
        let f = use_index(FrameUse::Free);
        let to = use_index(use_for(purposes[0]));
        let next = zeroed_lists(lists, purposes[0]);
        let first = zeroed_pick(lists);
        let picks = zeroed_run(lists, purposes);
        let rest = zeroed_run(next, purposes.drop_first());
        if lists[z].len() > 0 || lists[f].len() > 0 {
            let from = if lists[z].len() > 0 {
                z
            } else {
                f
            };
            lemma_take_first_disjoint(lists, n, from, to);
        }
        lemma_zeroed_run(next, n, purposes.drop_first());
        assert(picks == seq![first] + rest);
        let x = lists[if lists[z].len() > 0 {
            z
        } else {
            f
        }][0];
        // every frame still on the zeroed or free list was on one before, and is not
        // the one taken first
        assert forall|y: int|
            next[z].contains(y) || next[f].contains(y) implies (lists[z].contains(y)
            || lists[f].contains(y)) && (first matches Some(x0) ==> y != x0) by {
            if next[z].contains(y) {
                let k = choose|k: int| 0 <= k < next[z].len() && next[z][k] == y;
                if lists[z].len() > 0 {
                    assert(lists[z][k + 1] == y);
                    assert(lists[z][0] != lists[z][k + 1]);
                } else {
                    assert(lists[z][k] == y);
                }
            } else {
                let k = choose|k: int| 0 <= k < next[f].len() && next[f][k] == y;
                if lists[z].len() > 0 {
                    assert(lists[f][k] == y);
                    assert(lists[f][k] != lists[z][0]);
                } else {
                    assert(lists[f][k + 1] == y);
                    assert(lists[f][0] != lists[f][k + 1]);
                }
            }
        }
        assert forall|i: int| 0 < i < picks.len() implies #[trigger] picks[i] == rest[i - 1] by {}
        assert(first matches Some(x0) ==> (lists[z].contains(x0) || lists[f].contains(x0)) && 0
            <= x0 < n) by {
            if lists[z].len() > 0 {
                assert(lists[z][0] == lists[z][0]);
            } else if lists[f].len() > 0 {
                assert(lists[f][0] == lists[f][0]);
            }
        }
    }
}

/// No frame is handed out twice: over any run of reservations of zeroed frames from a
/// frame table, for `purposes[0]`, `purposes[1]`, ... in turn, each frame handed out
/// is a page of the RAM managed that was zeroed or free, no two are the same, and a
/// reservation fails exactly when every zeroed and free frame has been handed out
/// (where RAM lies below the top of memory).
pub proof fn lemma_zeroed_frames_never_repeat(t: FrameTable, purposes: Seq<Purpose>)
    requires
        t.wf(),
        t.0 matches Some(inner) ==> inner.ram_base() + inner.frames() * PAGESIZE_BYTES
            <= usize::MAX,
    ensures
        t.0 matches Some(inner) ==> {
            let lists = inner.lists();
            let picks = zeroed_run(lists, purposes);
            let zeroed = lists[use_index(FrameUse::Zeroed)];
            let free = lists[use_index(FrameUse::Free)];
            let base = inner.ram_base();
            &&& forall|p: Purpose|
                #![trigger zeroed_frame(t, p)]
                match zeroed_pick(lists) {
                    Some(x) => zeroed_frame(t, p) matches Ok(v) && v.0 == PhysAddr(
                        frame_addr(base, x),
                    ),
                    None => zeroed_frame(t, p) == Err::<(PhysAddr, Option<VirtAddr>), Error>(
                        Error::OutOfPages,
                    ),
                }
            &&& picks.len() == purposes.len()
            &&& forall|i: int|
                0 <= i < picks.len() ==> (#[trigger] picks[i] matches Some(x) ==> {
                    &&& zeroed.contains(x) || free.contains(x)
                    &&& base <= frame_addr(base, x) < base + inner.frames() * PAGESIZE_BYTES
                    &&& (frame_addr(base, x) - base) % (PAGESIZE_BYTES as int) == 0
                })
            &&& forall|i: int|
                0 <= i < picks.len() ==> (#[trigger] picks[i] is None <==> i >= zeroed.len()
                    + free.len())
            &&& forall|i: int, j: int|
                0 <= i < j < picks.len() ==> (#[trigger] picks[i] matches Some(x) ==> (
                #[trigger] picks[j] matches Some(y) ==> frame_addr(base, x) != frame_addr(
                    base,
                    y,
                )))
        },
{
    if let Some(inner) = t.0 {
        let lists = inner.lists();
        let n = inner.frames();
        let base = inner.ram_base();
        inner.lemma_wf_lists();
        assert forall|u: int, k: int|
            0 <= u < FRAME_USES && 0 <= k < lists[u].len() implies 0 <= #[trigger] lists[u][k]
            < n by {
            assert(inner.frame_lists@[u].wf(inner.table@));
            assert(lists[u] == inner.frame_lists@[u]@);
        }
        lemma_zeroed_run(lists, n, purposes);
        let picks = zeroed_run(lists, purposes);
        assert forall|x: int| 0 <= x < n implies base <= #[trigger] frame_addr(base, x) < base + n
            * PAGESIZE_BYTES && (frame_addr(base, x) - base) % (PAGESIZE_BYTES as int) == 0 by {
            assert(x * PAGESIZE_BYTES < n * PAGESIZE_BYTES) by (nonlinear_arith)
                requires
                    0 <= x < n,
            ;
            assert((x * PAGESIZE_BYTES) % (PAGESIZE_BYTES as int) == 0) by (nonlinear_arith);
        }
        assert forall|i: int, j: int|
            0 <= i < j < picks.len() && #[trigger] picks[i] is Some && #[trigger] picks[j]
                is Some implies frame_addr(base, picks[i].unwrap()) != frame_addr(
            base,
            picks[j].unwrap(),
        ) by {
            let x = picks[i].unwrap();
            let y = picks[j].unwrap();
            assert(frame_addr(base, x) == base + x * PAGESIZE_BYTES);
            assert(frame_addr(base, y) == base + y * PAGESIZE_BYTES);
            assert(x * PAGESIZE_BYTES != y * PAGESIZE_BYTES) by (nonlinear_arith)
                requires
                    x != y,
            ;
        }
    }
}

} // verus!
