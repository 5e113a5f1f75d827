//! A table of nodes which are all in one of a set of deques.
//!
//! Provides O(1) for operations including:
//! - remove an item at an arbitrary index and push it onto a specific
//!   deque.
//! - remove an arbitrary sublist between two indices and push it onto
//!   a specific deque.
//! - pop an item from the back of one deque and push it to the top
//!   of another deque.
//! - move the entire sublist from one deque to the top of another.
//!
//! This doesn't have O(1) deque length because removals
//! can happen without knowing which deque the item is on.
//!
//! Removing m items from the tail of a deque is O(m) because the list
//! has to be traversed.
//!
//! The earliest entries in the table hold data, while additional nodes
//! at the back of the table are headers for each list. The prev and
//! next table indices in each node form circular queues.
//!
//! The model of a deque is a sequence of queues, each the sequence of entry
//! indices from its head to its tail.

use crate::{Error, Result};
use vstd::prelude::*;

#[allow(unused_imports)]
use vstd::layout::size_of;

verus! {

// ---------------------------------------------------------------------------
// Model of the linked structure.
// ---------------------------------------------------------------------------
/// The table index of position `k` of queue `q`, where position -1 and the
/// position after the tail are the queue's header node at `cap + q`.
pub open spec fn node_of(lists: Seq<Seq<int>>, cap: int, q: int, k: int) -> int {
    if 0 <= k < lists[q].len() {
        lists[q][k]
    } else {
        cap + q
    }
}

/// Every node's `next` link is the following node of its circular queue.
pub open spec fn next_links(nexts: Seq<int>, lists: Seq<Seq<int>>, cap: int) -> bool {
    forall|q: int, k: int|
        #![trigger nexts[node_of(lists, cap, q, k)]]
        0 <= q < lists.len() && -1 <= k < lists[q].len() ==> nexts[node_of(lists, cap, q, k)]
            == node_of(lists, cap, q, k + 1)
}

/// Every node's `prev` link is the preceding node of its circular queue.
pub open spec fn prev_links(prevs: Seq<int>, lists: Seq<Seq<int>>, cap: int) -> bool {
    forall|q: int, k: int|
        #![trigger prevs[node_of(lists, cap, q, k)]]
        0 <= q < lists.len() && 0 <= k <= lists[q].len() ==> prevs[node_of(lists, cap, q, k)]
            == node_of(lists, cap, q, k - 1)
}

/// Every queued item is an entry index below `cap`.
pub open spec fn entries_in(lists: Seq<Seq<int>>, cap: int) -> bool {
    forall|q: int, k: int|
        0 <= q < lists.len() && 0 <= k < lists[q].len() ==> 0 <= #[trigger] lists[q][k] < cap
}

/// No entry is queued twice, in one queue or in two.
pub open spec fn distinct(lists: Seq<Seq<int>>) -> bool {
    forall|q1: int, k1: int, q2: int, k2: int|
        0 <= q1 < lists.len() && 0 <= k1 < lists[q1].len() && 0 <= q2 < lists.len() && 0 <= k2
            < lists[q2].len() && #[trigger] lists[q1][k1] == #[trigger] lists[q2][k2] ==> q1 == q2
            && k1 == k2
}

/// The total number of queued entries.
pub open spec fn total(lists: Seq<Seq<int>>) -> int
    decreases lists.len(),
{
    if lists.len() == 0 {
        0
    } else {
        total(lists.drop_last()) + lists.last().len()
    }
}

/// Queue `p` with positions `a..=b` removed.
pub open spec fn without_segment(s: Seq<int>, a: int, b: int) -> Seq<int> {
    s.subrange(0, a) + s.subrange(b + 1, s.len() as int)
}

/// The queues after the segment at positions `a..=b` of queue `p` is moved to
/// the head of queue `q`.
pub open spec fn move_segment(lists: Seq<Seq<int>>, p: int, a: int, b: int, q: int) -> Seq<
    Seq<int>,
> {
    let seg = lists[p].subrange(a, b + 1);
    let l1 = lists.update(p, without_segment(lists[p], a, b));
    l1.update(q, seg + l1[q])
}

/// Entry `i` is in some queue at or before entry `j` of the same queue.
pub open spec fn in_order(lists: Seq<Seq<int>>, i: int, j: int) -> bool {
    exists|p: int, a: int, b: int|
        0 <= p < lists.len() && 0 <= a <= b < lists[p].len() && #[trigger] lists[p][a] == i
            && #[trigger] lists[p][b] == j
}

/// The queue and position of a queued entry.
pub open spec fn position_of(lists: Seq<Seq<int>>, e: int) -> (int, int) {
    choose|pk: (int, int)|
        0 <= pk.0 < lists.len() && 0 <= pk.1 < lists[pk.0].len() && #[trigger] lists[pk.0][pk.1]
            == e
}

/// The result of moving the run of entries from `i` to `j` to the head of queue `q`.
pub open spec fn move_run(lists: Seq<Seq<int>>, i: int, j: int, q: int) -> Seq<Seq<int>> {
    let (p, a) = position_of(lists, i);
    let b = position_of(lists, j).1;
    move_segment(lists, p, a, b, q)
}

// ---------------------------------------------------------------------------
// Lemmas on the model.
// ---------------------------------------------------------------------------
/// Replacing one queue changes the total by the difference in lengths.
pub proof fn lemma_total_update(lists: Seq<Seq<int>>, i: int, x: Seq<int>)
    requires
        0 <= i < lists.len(),
    ensures
        total(lists.update(i, x)) == total(lists) - lists[i].len() + x.len(),
    decreases lists.len(),
{
    let u = lists.update(i, x);
    if i == lists.len() - 1 {
        assert(u.drop_last() =~= lists.drop_last());
    } else {
        assert(u.drop_last() =~= lists.drop_last().update(i, x));
        lemma_total_update(lists.drop_last(), i, x);
    }
}

/// Queues that are all empty but one hold that one's length in total.
pub proof fn lemma_total_single(lists: Seq<Seq<int>>, q: int)
    requires
        0 <= q < lists.len(),
        forall|p: int| 0 <= p < lists.len() && p != q ==> #[trigger] lists[p].len() == 0,
    ensures
        total(lists) == lists[q].len(),
    decreases lists.len(),
{
    if lists.len() - 1 == q {
        lemma_total_zero(lists.drop_last());
    } else {
        lemma_total_single(lists.drop_last(), q);
    }
}

/// Empty queues hold nothing in total.
pub proof fn lemma_total_zero(lists: Seq<Seq<int>>)
    requires
        forall|p: int| 0 <= p < lists.len() ==> #[trigger] lists[p].len() == 0,
    ensures
        total(lists) == 0,
    decreases lists.len(),
{
    if lists.len() > 0 {
        lemma_total_zero(lists.drop_last());
    }
}

/// The position of a queued entry is where it is queued.
pub proof fn lemma_position_of(lists: Seq<Seq<int>>, p: int, a: int)
    requires
        distinct(lists),
        0 <= p < lists.len(),
        0 <= a < lists[p].len(),
    ensures
        position_of(lists, lists[p][a]) == (p, a),
{
    let e = lists[p][a];
    let pk = (p, a);
    assert(0 <= pk.0 < lists.len() && 0 <= pk.1 < lists[pk.0].len() && lists[pk.0][pk.1] == e);
    let c = position_of(lists, e);
    assert(lists[c.0][c.1] == lists[p][a]);
}

/// Unlinking the run at positions `a..=b` of queue `p` leaves well-linked queues
/// without it, and the run still linked within itself.
pub proof fn lemma_detach(
    nexts: Seq<int>,
    prevs: Seq<int>,
    lists: Seq<Seq<int>>,
    cap: int,
    p: int,
    a: int,
    b: int,
)
    requires
        next_links(nexts, lists, cap),
        prev_links(prevs, lists, cap),
        entries_in(lists, cap),
        distinct(lists),
        cap >= 0,
        nexts.len() == cap + lists.len(),
        prevs.len() == cap + lists.len(),
        0 <= p < lists.len(),
        0 <= a <= b < lists[p].len(),
    ensures
        ({
            let pi = node_of(lists, cap, p, a - 1);
            let nj = node_of(lists, cap, p, b + 1);
            let l1 = lists.update(p, without_segment(lists[p], a, b));
            let n2 = nexts.update(pi, nj);
            let p2 = prevs.update(nj, pi);
            &&& next_links(n2, l1, cap)
            &&& prev_links(p2, l1, cap)
            &&& entries_in(l1, cap)
            &&& distinct(l1)
            &&& forall|k: int| a <= k < b ==> n2[lists[p][k]] == lists[p][k + 1]
            &&& forall|k: int| a < k <= b ==> p2[lists[p][k]] == lists[p][k - 1]
            &&& forall|q: int, k: int, m: int|
                0 <= q < l1.len() && 0 <= k < l1[q].len() && a <= m <= b ==> #[trigger] l1[q][k]
                    != #[trigger] lists[p][m]
        }),
{
    let pi = node_of(lists, cap, p, a - 1);
    let nj = node_of(lists, cap, p, b + 1);
    let s = lists[p];
    let w = without_segment(s, a, b);
    let l1 = lists.update(p, w);
    let n2 = nexts.update(pi, nj);
    let p2 = prevs.update(nj, pi);
    let d = b - a + 1;
    assert(0 <= pi < nexts.len());
    assert(0 <= nj < nexts.len());
    assert(w.len() == s.len() - d);
    assert forall|k: int| 0 <= k < w.len() implies #[trigger] w[k] == (if k < a {
        s[k]
    } else {
        s[k + d]
    }) by {}
    // Position of each node of the shortened queue in the queue before.
    assert forall|k: int| -1 <= k <= w.len() implies #[trigger] node_of(l1, cap, p, k) == (if k
        < a {
        node_of(lists, cap, p, k)
    } else {
        node_of(lists, cap, p, k + d)
    }) by {}
    assert forall|q: int, k: int|
        0 <= q < l1.len() && -1 <= k < l1[q].len() implies #[trigger] n2[node_of(l1, cap, q, k)]
        == node_of(l1, cap, q, k + 1) by {
        if q != p {
            assert(node_of(l1, cap, q, k) == node_of(lists, cap, q, k));
            assert(node_of(l1, cap, q, k + 1) == node_of(lists, cap, q, k + 1));
            let x = node_of(lists, cap, q, k);
            assert(nexts[x] == node_of(lists, cap, q, k + 1));
            if k >= 0 && a - 1 >= 0 {
                assert(lists[q][k] != lists[p][a - 1]);
            }
        } else if k < a - 1 {
            let x = node_of(lists, cap, p, k);
            assert(nexts[x] == node_of(lists, cap, p, k + 1));
            if k >= 0 {
                assert(lists[p][k] != lists[p][a - 1]);
            }
        } else if k == a - 1 {
        } else {
            let x = node_of(lists, cap, p, k + d);
            assert(nexts[x] == node_of(lists, cap, p, k + d + 1));
            if a - 1 >= 0 {
                assert(lists[p][k + d] != lists[p][a - 1]);
            }
        }
    }
    assert forall|q: int, k: int|
        0 <= q < l1.len() && 0 <= k <= l1[q].len() implies #[trigger] p2[node_of(l1, cap, q, k)]
        == node_of(l1, cap, q, k - 1) by {
        if q != p {
            assert(node_of(l1, cap, q, k) == node_of(lists, cap, q, k));
            assert(node_of(l1, cap, q, k - 1) == node_of(lists, cap, q, k - 1));
            let x = node_of(lists, cap, q, k);
            assert(prevs[x] == node_of(lists, cap, q, k - 1));
            if k < lists[q].len() && b + 1 < s.len() {
                assert(lists[q][k] != lists[p][b + 1]);
            }
        } else if k < a {
            let x = node_of(lists, cap, p, k);
            assert(prevs[x] == node_of(lists, cap, p, k - 1));
            if b + 1 < s.len() {
                assert(lists[p][k] != lists[p][b + 1]);
            }
        } else if k == a {
        } else {
            let x = node_of(lists, cap, p, k + d);
            assert(prevs[x] == node_of(lists, cap, p, k + d - 1));
            if k + d < s.len() && b + 1 < s.len() {
                assert(lists[p][k + d] != lists[p][b + 1]);
            }
        }
    }
    assert forall|k: int| a <= k < b implies n2[lists[p][k]] == lists[p][k + 1] by {
        assert(nexts[node_of(lists, cap, p, k)] == node_of(lists, cap, p, k + 1));
        if a - 1 >= 0 {
            assert(lists[p][k] != lists[p][a - 1]);
        }
    }
    assert forall|k: int| a < k <= b implies p2[lists[p][k]] == lists[p][k - 1] by {
        assert(prevs[node_of(lists, cap, p, k)] == node_of(lists, cap, p, k - 1));
        if b + 1 < s.len() {
            assert(lists[p][k] != lists[p][b + 1]);
        }
    }
    assert forall|q: int, k: int|
        0 <= q < l1.len() && 0 <= k < l1[q].len() implies 0 <= #[trigger] l1[q][k] < cap by {
        if q == p {
            if k < a {
                assert(lists[p][k] == l1[p][k]);
            } else {
                assert(lists[p][k + d] == l1[p][k]);
            }
        }
    }
    assert forall|q1: int, k1: int, q2: int, k2: int|
        0 <= q1 < l1.len() && 0 <= k1 < l1[q1].len() && 0 <= q2 < l1.len() && 0 <= k2
            < l1[q2].len() && #[trigger] l1[q1][k1] == #[trigger] l1[q2][k2] implies q1 == q2 && k1
        == k2 by {
        let o1 = if q1 == p && k1 >= a {
            k1 + d
        } else {
            k1
        };
        let o2 = if q2 == p && k2 >= a {
            k2 + d
        } else {
            k2
        };
        assert(l1[q1][k1] == lists[q1][o1]);
        assert(l1[q2][k2] == lists[q2][o2]);
    }
    assert forall|q: int, k: int, m: int|
        0 <= q < l1.len() && 0 <= k < l1[q].len() && a <= m <= b implies #[trigger] l1[q][k]
        != #[trigger] lists[p][m] by {
        let o = if q == p && k >= a {
            k + d
        } else {
            k
        };
        assert(l1[q][k] == lists[q][o]);
    }
}

/// Linking a detached run of entries at the head of queue `q` leaves well-linked
/// queues with the run in front of that queue.
pub proof fn lemma_push(
    nexts: Seq<int>,
    prevs: Seq<int>,
    l1: Seq<Seq<int>>,
    cap: int,
    seg: Seq<int>,
    q: int,
)
    requires
        next_links(nexts, l1, cap),
        prev_links(prevs, l1, cap),
        entries_in(l1, cap),
        distinct(l1),
        cap >= 0,
        nexts.len() == cap + l1.len(),
        prevs.len() == cap + l1.len(),
        0 <= q < l1.len(),
        seg.len() >= 1,
        forall|k: int| 0 <= k < seg.len() ==> 0 <= #[trigger] seg[k] < cap,
        forall|k1: int, k2: int|
            0 <= k1 < seg.len() && 0 <= k2 < seg.len() && #[trigger] seg[k1] == #[trigger] seg[k2]
                ==> k1 == k2,
        forall|p: int, k: int, m: int|
            0 <= p < l1.len() && 0 <= k < l1[p].len() && 0 <= m < seg.len() ==> #[trigger] l1[p][k]
                != #[trigger] seg[m],
        forall|k: int| 0 <= k < seg.len() - 1 ==> nexts[#[trigger] seg[k]] == seg[k + 1],
        forall|k: int| 0 < k < seg.len() ==> prevs[#[trigger] seg[k]] == seg[k - 1],
    ensures
        ({
            let h = cap + q;
            let old_head = node_of(l1, cap, q, 0);
            let n3 = nexts.update(h, seg[0]).update(seg.last(), old_head);
            let p3 = prevs.update(seg[0], h).update(old_head, seg.last());
            let l2 = l1.update(q, seg + l1[q]);
            &&& next_links(n3, l2, cap)
            &&& prev_links(p3, l2, cap)
            &&& entries_in(l2, cap)
            &&& distinct(l2)
        }),
{
    let h = cap + q;
    let old_head = node_of(l1, cap, q, 0);
    let n3 = nexts.update(h, seg[0]).update(seg.last(), old_head);
    let p3 = prevs.update(seg[0], h).update(old_head, seg.last());
    let t = seg + l1[q];
    let l2 = l1.update(q, t);
    let d = seg.len() as int;
    assert forall|k: int| -1 <= k <= t.len() implies #[trigger] node_of(l2, cap, q, k) == (if k
        < 0 {
        h
    } else if k < d {
        seg[k]
    } else {
        node_of(l1, cap, q, k - d)
    }) by {}
    assert forall|r: int, k: int|
        0 <= r < l2.len() && -1 <= k < l2[r].len() implies #[trigger] n3[node_of(l2, cap, r, k)]
        == node_of(l2, cap, r, k + 1) by {
        if r != q {
            assert(node_of(l2, cap, r, k) == node_of(l1, cap, r, k));
            assert(node_of(l2, cap, r, k + 1) == node_of(l1, cap, r, k + 1));
            assert(nexts[node_of(l1, cap, r, k)] == node_of(l1, cap, r, k + 1));
            if k >= 0 {
                assert(l1[r][k] != seg[d - 1]);
            }
        } else if k == -1 {
        } else if k < d - 1 {
            assert(seg[k] != seg[d - 1]);
        } else if k == d - 1 {
        } else {
            assert(nexts[node_of(l1, cap, q, k - d)] == node_of(l1, cap, q, k - d + 1));
            assert(l1[q][k - d] != seg[d - 1]);
        }
    }
    assert forall|r: int, k: int|
        0 <= r < l2.len() && 0 <= k <= l2[r].len() implies #[trigger] p3[node_of(l2, cap, r, k)]
        == node_of(l2, cap, r, k - 1) by {
        if r != q {
            assert(node_of(l2, cap, r, k) == node_of(l1, cap, r, k));
            assert(node_of(l2, cap, r, k - 1) == node_of(l1, cap, r, k - 1));
            assert(prevs[node_of(l1, cap, r, k)] == node_of(l1, cap, r, k - 1));
            if k < l1[r].len() {
                assert(l1[r][k] != seg[0]);
            }
            if k < l1[r].len() && l1[q].len() > 0 {
                assert(l1[r][k] != l1[q][0]);
            }
        } else if k == 0 {
        } else if k < d {
            assert(seg[k] != seg[0]);
            if l1[q].len() > 0 {
                assert(l1[q][0] != seg[k]);
            }
        } else if k == d {
        } else {
            assert(prevs[node_of(l1, cap, q, k - d)] == node_of(l1, cap, q, k - d - 1));
            if k - d < l1[q].len() {
                assert(l1[q][k - d] != seg[0]);
                assert(l1[q][k - d] != l1[q][0]);
            }
        }
    }
    assert forall|r: int, k: int|
        0 <= r < l2.len() && 0 <= k < l2[r].len() implies 0 <= #[trigger] l2[r][k] < cap by {
        if r == q && k >= d {
            assert(l2[q][k] == l1[q][k - d]);
        }
    }
    assert forall|q1: int, k1: int, q2: int, k2: int|
        0 <= q1 < l2.len() && 0 <= k1 < l2[q1].len() && 0 <= q2 < l2.len() && 0 <= k2
            < l2[q2].len() && #[trigger] l2[q1][k1] == #[trigger] l2[q2][k2] implies q1 == q2 && k1
        == k2 by {
        if q1 == q && k1 < d {
            if q2 == q && k2 < d {
                assert(seg[k1] == seg[k2]);
            } else if q2 == q {
                assert(l2[q2][k2] == l1[q][k2 - d]);
            } else {
                assert(l2[q2][k2] == l1[q2][k2]);
            }
        } else if q2 == q && k2 < d {
            if q1 == q {
                assert(l2[q1][k1] == l1[q][k1 - d]);
            } else {
                assert(l2[q1][k1] == l1[q1][k1]);
            }
        } else {
            let o1 = if q1 == q {
                k1 - d
            } else {
                k1
            };
            let o2 = if q2 == q {
                k2 - d
            } else {
                k2
            };
            assert(l2[q1][k1] == l1[q1][o1]);
            assert(l2[q2][k2] == l1[q2][o2]);
        }
    }
}


/// The total of the first `k` queues is at most the total of all of them, and
/// adding the next queue adds its length.
pub proof fn lemma_total_prefix(lists: Seq<Seq<int>>, k: int)
    requires
        0 <= k < lists.len(),
    ensures
        total(lists.subrange(0, k + 1)) == total(lists.subrange(0, k)) + lists[k].len(),
        total(lists.subrange(0, k + 1)) <= total(lists),
    decreases lists.len(),
{
    assert(lists.subrange(0, k + 1).drop_last() =~= lists.subrange(0, k));
    if k + 1 < lists.len() {
        lemma_total_prefix(lists.drop_last(), k);
        assert(lists.drop_last().subrange(0, k + 1) =~= lists.subrange(0, k + 1));
    } else {
        assert(lists.subrange(0, k + 1) =~= lists);
    }
}

// ---------------------------------------------------------------------------
// The deque table.
// ---------------------------------------------------------------------------
struct DequeNode<N> {
    prev: u32,
    next: u32,
    node: N,
}

impl<N: Default> DequeNode<N> {
    fn init_queue_empty(i: u32) -> (r: Self)
        ensures
            r.prev == i,
            r.next == i,
            call_ensures(N::default, (), r.node),
    {
        Self { prev: i, next: i, node: N::default() }
    }

    fn init_entry(i: u32) -> (r: Self)
        requires
            i < u32::MAX,
        ensures
            r.prev == (if i == 0 {
                u32::MAX as int
            } else {
                i - 1
            }),
            r.next == i + 1,
            call_ensures(N::default, (), r.node),
    {
        Self { prev: i.wrapping_sub(1), next: i + 1, node: N::default() }
    }
}

impl<N> DequeNode<N> {
    fn set_queue_empty(&mut self, q: u32)
        ensures
            final(self).prev == q,
            final(self).next == q,
            final(self).node == old(self).node,
    {
        self.prev = q;
        self.next = q;
    }

    fn set_queue_seq(&mut self, i: u32, j: u32)
        ensures
            final(self).prev == j,
            final(self).next == i,
            final(self).node == old(self).node,
    {
        self.prev = j;
        self.next = i;
    }
}

/// A table of `capacity` entries each on one of `queues` circular queues.
pub struct Deque<N> {
    table: Vec<DequeNode<N>>,
    queues: usize,
    lists: Ghost<Seq<Seq<int>>>,
}

impl<N> View for Deque<N> {
    /// The queues, each from head to tail.
    type V = Seq<Seq<int>>;

    closed spec fn view(&self) -> Seq<Seq<int>> {
        self.lists@
    }
}

impl<N> Deque<N> {
    /// Number of entries in the table.
    pub closed spec fn capacity(&self) -> int {
        self.table.len() - self.queues
    }

    /// Number of queues.
    pub closed spec fn queue_count(&self) -> int {
        self.queues as int
    }

    /// The payload of each entry.
    pub closed spec fn entries(&self) -> Seq<N> {
        self.table@.map_values(|n: DequeNode<N>| n.node)
    }

    /// Number of bytes of table storage for each entry or queue.
    pub closed spec fn node_bytes() -> nat {
        size_of::<DequeNode<N>>()
    }

    closed spec fn nexts(&self) -> Seq<int> {
        self.table@.map_values(|n: DequeNode<N>| n.next as int)
    }

    closed spec fn prevs(&self) -> Seq<int> {
        self.table@.map_values(|n: DequeNode<N>| n.prev as int)
    }

    /// The links of the table form the queues, each entry is on exactly one queue.
    pub closed spec fn wf(&self) -> bool {
        &&& self.queues >= 1
        &&& self.table.len() >= self.queues
        &&& self.table.len() <= u32::MAX
        &&& self.lists@.len() == self.queues
        &&& entries_in(self.lists@, self.capacity())
        &&& distinct(self.lists@)
        &&& next_links(self.nexts(), self.lists@, self.capacity())
        &&& prev_links(self.prevs(), self.lists@, self.capacity())
        &&& total(self.lists@) == self.capacity()
    }

    /// The well-formed deque knows its shape.
    pub proof fn lemma_wf(&self)
        requires
            self.wf(),
        ensures
            self@.len() == self.queue_count(),
            self.queue_count() >= 1,
            self.capacity() >= 0,
            self.capacity() + self.queue_count() <= u32::MAX,
            total(self@) == self.capacity(),
            distinct(self@),
            entries_in(self@, self.capacity()),
    {
    }

    /// Number of bytes of storage for a table of the given number of entries and queues.
    pub fn storage_bytes(entries: usize, queues: usize) -> (r: usize)
        requires
            entries + queues <= usize::MAX,
            (entries + queues) * Self::node_bytes() <= usize::MAX,
        ensures
            r == (entries + queues) * Self::node_bytes(),
    {
        (entries + queues) * core::mem::size_of::<DequeNode<N>>()
    }

    /// Table index of the header of queue `q`.
    fn queue_entry(&self, q: u8) -> (r: usize)
        requires
            self.wf(),
            q < self.queue_count(),
        ensures
            r == self.capacity() + q,
    {
        let len = self.table.len();
        len - (self.queues - q as usize)
    }

    /// Number of entries in the table.
    fn top(&self) -> (r: usize)
        requires
            self.wf(),
        ensures
            r == self.capacity(),
    {
        self.table.len() - self.queues
    }

    /// Table index of the tail of queue `q` (its header when empty).
    fn tail(&self, q: u8) -> (r: usize)
        requires
            self.wf(),
            q < self.queue_count(),
        ensures
            r == node_of(self@, self.capacity(), q as int, self@[q as int].len() - 1),
    {
        let q = self.queue_entry(q);
        proof {
            let qq = q - self.capacity();
            assert(self.prevs()[node_of(self@, self.capacity(), qq, self@[qq].len() as int)]
                == node_of(self@, self.capacity(), qq, self@[qq].len() - 1));
        }
        self.table[q].prev as usize
    }

    /// Head and tail of queue `q` (its header for both when empty).
    pub fn seq(&self, q: u8) -> (r: (usize, usize))
        requires
            self.wf(),
            q < self.queue_count(),
        ensures
            r.0 == node_of(self@, self.capacity(), q as int, 0),
            r.1 == node_of(self@, self.capacity(), q as int, self@[q as int].len() - 1),
    {
        let h = self.queue_entry(q);
        proof {
            let qq = q as int;
            assert(self.nexts()[node_of(self@, self.capacity(), qq, -1)] == node_of(
                self@,
                self.capacity(),
                qq,
                0,
            ));
            assert(self.prevs()[node_of(self@, self.capacity(), qq, self@[qq].len() as int)]
                == node_of(self@, self.capacity(), qq, self@[qq].len() - 1));
        }
        (self.table[h].next as usize, self.table[h].prev as usize)
    }

    /// True iff the head and tail of queue `q` coincide: the queue holds at most one entry.
    pub fn is_empty(&self, q: u8) -> (r: bool)
        requires
            self.wf(),
            q < self.queue_count(),
        ensures
            r == (self@[q as int].len() <= 1),
    {
        let (head, tail) = self.seq(q);
        proof {
            let l = self@[q as int];
            if l.len() >= 2 {
                assert(l[0] != l[l.len() - 1]);
            }
        }
        head == tail
    }

    /// Payload of entry `index`.
    pub fn index(&self, index: u32) -> (r: &N)
        requires
            self.wf(),
            index < self.capacity(),
        ensures
            *r == self.entries()[index as int],
    {
        &self.table[index as usize].node
    }
}

impl<N: Default> Deque<N> {
    /// A table of `capacity` entries, all on queue `init_q` in index order, with
    /// `queues` queues in all.
    pub fn new(capacity: u32, queues: u8, init_q: u8) -> (r: Self)
        requires
            capacity >= 1,
            init_q < queues,
            capacity + queues <= u32::MAX,
        ensures
            r.wf(),
            r.capacity() == capacity,
            r.queue_count() == queues,
            r@ == Seq::new(
                queues as nat,
                |q: int|
                    if q == init_q {
                        Seq::new(capacity as nat, |i: int| i)
                    } else {
                        Seq::<int>::empty()
                    },
            ),
            forall|k: int|
                0 <= k < r.entries().len() ==> call_ensures(N::default, (), #[trigger] r.entries()[k]),
    {
        let cap = capacity as usize;
        let len = cap + queues as usize;
        let mut table: Vec<DequeNode<N>> = Vec::new();
        let mut i: usize = 0;
        while i < cap
            invariant
                i <= cap,
                cap == capacity,
                len == cap + queues,
                len <= u32::MAX,
                table.len() == i,
                forall|k: int| 0 <= k < i ==> #[trigger] table@[k].next == k + 1,
                forall|k: int| 0 < k < i ==> #[trigger] table@[k].prev == k - 1,
                forall|k: int| 0 <= k < i ==> call_ensures(N::default, (), #[trigger] table@[k].node),
            decreases cap - i,
        {
            table.push(DequeNode::<N>::init_entry(i as u32));
            i += 1;
        }
        while i < len
            invariant
                cap <= i <= len,
                cap == capacity,
                len == cap + queues,
                len <= u32::MAX,
                table.len() == i,
                forall|k: int| 0 <= k < cap ==> #[trigger] table@[k].next == k + 1,
                forall|k: int| 0 < k < cap ==> #[trigger] table@[k].prev == k - 1,
                forall|k: int| cap <= k < i ==> #[trigger] table@[k].next == k,
                forall|k: int| cap <= k < i ==> #[trigger] table@[k].prev == k,
                forall|k: int| 0 <= k < i ==> call_ensures(N::default, (), #[trigger] table@[k].node),
            decreases len - i,
        {
            table.push(DequeNode::<N>::init_queue_empty(i as u32));
            i += 1;
        }
        let q: u32 = capacity + init_q as u32;
        table[q as usize].set_queue_seq(0, capacity - 1);
        table[0].prev = q;
        table[cap - 1].next = q;
        let ghost lists = Seq::new(
            queues as nat,
            |qq: int|
                if qq == init_q {
                    Seq::new(capacity as nat, |i: int| i)
                } else {
                    Seq::<int>::empty()
                },
        );
        let r = Self { table, queues: queues as usize, lists: Ghost(lists) };
        proof {
            let c = cap as int;
            assert forall|qq: int, k: int|
                0 <= qq < lists.len() && -1 <= k < lists[qq].len() implies #[trigger] r.nexts()[node_of(
                lists,
                c,
                qq,
                k,
            )] == node_of(lists, c, qq, k + 1) by {
                if qq == init_q {
                    if k == -1 {
                        assert(node_of(lists, c, qq, k) == q);
                    } else if k < c - 1 {
                        assert(node_of(lists, c, qq, k) == k);
                    } else {
                        assert(node_of(lists, c, qq, k) == c - 1);
                    }
                } else {
                    assert(node_of(lists, c, qq, k) == c + qq);
                }
            }
            assert forall|qq: int, k: int|
                0 <= qq < lists.len() && 0 <= k <= lists[qq].len() implies #[trigger] r.prevs()[node_of(
                lists,
                c,
                qq,
                k,
            )] == node_of(lists, c, qq, k - 1) by {
                if qq == init_q {
                    if k == c {
                        assert(node_of(lists, c, qq, k) == q);
                    } else if k > 0 {
                        assert(node_of(lists, c, qq, k) == k);
                    } else {
                        assert(node_of(lists, c, qq, k) == 0);
                    }
                } else {
                    assert(node_of(lists, c, qq, k) == c + qq);
                }
            }
            assert forall|q1: int, k1: int, q2: int, k2: int|
                0 <= q1 < lists.len() && 0 <= k1 < lists[q1].len() && 0 <= q2 < lists.len() && 0
                    <= k2 < lists[q2].len() && #[trigger] lists[q1][k1] == #[trigger] lists[q2][k2] implies q1
                == q2 && k1 == k2 by {}
            lemma_total_single(lists, init_q as int);
            assert forall|k: int| 0 <= k < r.entries().len() implies call_ensures(
                N::default,
                (),
                #[trigger] r.entries()[k],
            ) by {
                assert(r.entries()[k] == r.table@[k].node);
            }
        }
        r
    }
}

impl<N> Deque<N> {
    /// Unlink the run of entries from `i` to `j` from its queue.
    fn detach_seq(&mut self, i: usize, j: usize)
        requires
            i < old(self).capacity(),
            j < old(self).capacity(),
            old(self).table.len() <= u32::MAX,
            old(self).table@[i as int].prev < old(self).table.len(),
            old(self).table@[j as int].next < old(self).table.len(),
        ensures
            ({
                let pi = old(self).table@[i as int].prev as int;
                let nj = old(self).table@[j as int].next as int;
                &&& final(self).nexts() == old(self).nexts().update(pi, nj)
                &&& final(self).prevs() == old(self).prevs().update(nj, pi)
            }),
            final(self).entries() == old(self).entries(),
            final(self).queues == old(self).queues,
            final(self).lists == old(self).lists,
            final(self).table.len() == old(self).table.len(),
    {
        let prev = self.table[i].prev;
        let next = self.table[j].next;
        self.table[prev as usize].next = next;
        self.table[next as usize].prev = prev;
        proof {
            assert(self.nexts() =~= old(self).nexts().update(prev as int, next as int));
            assert(self.prevs() =~= old(self).prevs().update(next as int, prev as int));
            assert(self.entries() =~= old(self).entries());
        }
    }

    /// Link the detached run of entries from `i` to `j` at the head of the queue
    /// whose header is at `q`.
    fn push_seq(&mut self, i: usize, j: usize, q: usize)
        requires
            i < old(self).capacity(),
            j < old(self).capacity(),
            old(self).capacity() <= q < old(self).table.len(),
            old(self).table.len() <= u32::MAX,
            old(self).table@[q as int].next < old(self).table.len(),
        ensures
            ({
                let old_head = old(self).table@[q as int].next as int;
                &&& final(self).nexts() == old(self).nexts().update(q as int, i as int).update(
                    j as int,
                    old_head,
                )
                &&& final(self).prevs() == old(self).prevs().update(i as int, q as int).update(
                    old_head,
                    j as int,
                )
            }),
            final(self).entries() == old(self).entries(),
            final(self).queues == old(self).queues,
            final(self).lists == old(self).lists,
            final(self).table.len() == old(self).table.len(),
    {
        let old_head = self.table[q].next as usize;
        self.table[q].next = i as u32;
        self.table[i].prev = q as u32;
        self.table[old_head].prev = j as u32;
        self.table[j].next = old_head as u32;
        proof {
            assert(self.nexts() =~= old(self).nexts().update(q as int, i as int).update(
                j as int,
                old_head as int,
            ));
            assert(self.prevs() =~= old(self).prevs().update(i as int, q as int).update(
                old_head as int,
                j as int,
            ));
            assert(self.entries() =~= old(self).entries());
        }
    }

    /// Move the run of entries at positions `a..=b` of queue `p` to the head of
    /// queue `q`.
    fn move_segment(
        &mut self,
        i: usize,
        j: usize,
        Ghost(p): Ghost<int>,
        Ghost(a): Ghost<int>,
        Ghost(b): Ghost<int>,
        q: u8,
    )
        requires
            old(self).wf(),
            0 <= p < old(self)@.len(),
            0 <= a <= b < old(self)@[p].len(),
            i == old(self)@[p][a],
            j == old(self)@[p][b],
            q < old(self).queue_count(),
        ensures
            final(self).wf(),
            final(self)@ == move_segment(old(self)@, p, a, b, q as int),
            final(self).capacity() == old(self).capacity(),
            final(self).queue_count() == old(self).queue_count(),
            final(self).entries() == old(self).entries(),
    {
        let ghost lists = self.lists@;
        let ghost cap = self.capacity();
        let ghost n0 = self.nexts();
        let ghost p0 = self.prevs();
        let hq = self.queue_entry(q);
        proof {
            assert(p0[node_of(lists, cap, p, a)] == node_of(lists, cap, p, a - 1));
            assert(n0[node_of(lists, cap, p, b)] == node_of(lists, cap, p, b + 1));
            lemma_detach(n0, p0, lists, cap, p, a, b);
        }
        self.detach_seq(i, j);
        let ghost w = without_segment(lists[p], a, b);
        let ghost l1 = lists.update(p, w);
        proof {
            assert(self.nexts()[node_of(l1, cap, q as int, -1)] == node_of(l1, cap, q as int, 0));
            let seg = lists[p].subrange(a, b + 1);
            assert forall|k1: int, k2: int|
                0 <= k1 < seg.len() && 0 <= k2 < seg.len() && #[trigger] seg[k1] == #[trigger] seg[k2] implies k1
                == k2 by {
                assert(lists[p][a + k1] == lists[p][a + k2]);
            }
            assert forall|pp: int, k: int, m: int|
                0 <= pp < l1.len() && 0 <= k < l1[pp].len() && 0 <= m < seg.len() implies #[trigger] l1[pp][k]
                != #[trigger] seg[m] by {
                assert(seg[m] == lists[p][a + m]);
            }
            assert forall|k: int| 0 <= k < seg.len() - 1 implies self.nexts()[#[trigger] seg[k]]
                == seg[k + 1] by {
                assert(seg[k] == lists[p][a + k]);
            }
            assert forall|k: int| 0 < k < seg.len() implies self.prevs()[#[trigger] seg[k]]
                == seg[k - 1] by {
                assert(seg[k] == lists[p][a + k]);
            }
            assert forall|k: int| 0 <= k < seg.len() implies 0 <= #[trigger] seg[k] < cap by {
                assert(seg[k] == lists[p][a + k]);
            }
            lemma_push(self.nexts(), self.prevs(), l1, cap, seg, q as int);
            lemma_total_update(lists, p, w);
            lemma_total_update(l1, q as int, seg + l1[q as int]);
        }
        self.push_seq(i, j, hq);
        proof {
            self.lists@ = move_segment(lists, p, a, b, q as int);
        }
    }
}


impl<N> Deque<N> {
    /// The run of entries `i..=j` of one queue, found by its ends.
    proof fn lemma_in_order(&self, i: int, j: int) -> (pab: (int, int, int))
        requires
            self.wf(),
            in_order(self@, i, j),
        ensures
            0 <= pab.0 < self@.len(),
            0 <= pab.1 <= pab.2 < self@[pab.0].len(),
            self@[pab.0][pab.1] == i,
            self@[pab.0][pab.2] == j,
            position_of(self@, i) == (pab.0, pab.1),
            position_of(self@, j) == (pab.0, pab.2),
            move_run(self@, i, j, 0) == move_segment(self@, pab.0, pab.1, pab.2, 0),
    {
        let (p, a, b) = choose|p: int, a: int, b: int|
            0 <= p < self@.len() && 0 <= a <= b < self@[p].len() && #[trigger] self@[p][a] == i
                && #[trigger] self@[p][b] == j;
        lemma_position_of(self@, p, a);
        lemma_position_of(self@, p, b);
        (p, a, b)
    }

    /// Move the run of entries from `i` to `j` (on one queue, `i` no later than `j`)
    /// to the head of queue `q`.
    pub fn remove_seq_to(&mut self, i: u32, j: u32, q: u8) -> (r: Result<(u32, u32)>)
        requires
            old(self).wf(),
            in_order(old(self)@, i as int, j as int),
            q < old(self).queue_count(),
        ensures
            r == Ok::<(u32, u32), Error>((i, j)),
            final(self).wf(),
            final(self)@ == move_run(old(self)@, i as int, j as int, q as int),
            final(self).capacity() == old(self).capacity(),
            final(self).queue_count() == old(self).queue_count(),
            final(self).entries() == old(self).entries(),
    {
        let ghost pab = self.lemma_in_order(i as int, j as int);
        self.move_segment(i as usize, j as usize, Ghost(pab.0), Ghost(pab.1), Ghost(pab.2), q);
        Ok((i, j))
    }

    /// Move entry `i` to the head of queue `q`.
    pub fn remove_to(&mut self, i: u32, q: u8) -> (r: Result<u32>)
        requires
            old(self).wf(),
            exists|p: int, a: int|
                0 <= p < old(self)@.len() && 0 <= a < old(self)@[p].len() && #[trigger] old(
                    self,
                )@[p][a] == i,
            q < old(self).queue_count(),
        ensures
            r == Ok::<u32, Error>(i),
            final(self).wf(),
            final(self)@ == move_run(old(self)@, i as int, i as int, q as int),
            final(self).capacity() == old(self).capacity(),
            final(self).queue_count() == old(self).queue_count(),
            final(self).entries() == old(self).entries(),
    {
        proof {
            let (p, a) = choose|p: int, a: int|
                0 <= p < old(self)@.len() && 0 <= a < old(self)@[p].len() && #[trigger] old(
                    self,
                )@[p][a] == i;
            assert(self@[p][a] == i as int);
        }
        match self.remove_seq_to(i, i, q) {
            Ok((i, _)) => Ok(i),
            Err(e) => Err(e),
        }
    }

    /// Move the `n` entries at the tail of queue `q_from` to the head of queue
    /// `q_to`, or fail with `OutOfPages` (changing nothing) if it holds fewer.
    pub fn drip_n_to(&mut self, q_from: u8, n: u32, q_to: u8) -> (r: Result<(u32, u32)>)
        requires
            old(self).wf(),
            q_from < old(self).queue_count(),
            q_to < old(self).queue_count(),
            n >= 1,
        ensures
            final(self).wf(),
            final(self).capacity() == old(self).capacity(),
            final(self).queue_count() == old(self).queue_count(),
            final(self).entries() == old(self).entries(),
            ({
                let l = old(self)@[q_from as int];
                if n > l.len() {
                    &&& r == Err::<(u32, u32), Error>(Error::OutOfPages)
                    &&& final(self)@ == old(self)@
                } else {
                    &&& r == Ok::<(u32, u32), Error>(
                        (l[l.len() - n] as u32, l[l.len() - 1] as u32),
                    )
                    &&& final(self)@ == move_segment(
                        old(self)@,
                        q_from as int,
                        l.len() - n,
                        l.len() - 1,
                        q_to as int,
                    )
                }
            }),
    {
        let ghost lists = self@;
        let ghost cap = self.capacity();
        let ghost qf = q_from as int;
        let ghost len = lists[qf].len() as int;
        let j = self.tail(q_from) as u32;
        let h = self.queue_entry(q_from);
        let mut i = j as usize;
        let mut m = n;
        let ghost mut t: int = 0;
        loop
            invariant
                *self == *old(self),
                self.wf(),
                self@ == lists,
                cap == self.capacity(),
                len == self@[qf].len(),
                qf == q_from,
                0 <= qf < self.queue_count(),
                h == cap + qf,
                j == node_of(lists, cap, qf, len - 1),
                0 <= t <= len,
                m >= 1,
                m == n - t,
                i == node_of(lists, cap, qf, len - 1 - t),
            ensures
                *self == *old(self),
                self.wf(),
                self@ == lists,
                0 <= t < len,
                m == 1,
                m == n - t,
                i == lists[qf][len - 1 - t],
            decreases m,
        {
            if i == h {
                proof {
                    if len - 1 - t >= 0 {
                        assert(lists[qf][len - 1 - t] < cap);
                    }
                    assert(t == len);
                    assert(n > len);
                }
                return Err(Error::OutOfPages);
            }
            if m == 1 {
                proof {
                    assert(len - 1 - t >= 0);
                }
                break ;
            }
            proof {
                assert(self.prevs()[node_of(lists, cap, qf, len - 1 - t)] == node_of(
                    lists,
                    cap,
                    qf,
                    len - 1 - t - 1,
                ));
            }
            i = self.table[i].prev as usize;
            m -= 1;
            proof {
                t = t + 1;
            }
        }
        proof {
            assert(len - 1 - t >= 0);
            assert(lists[qf][len - n] == i);
            assert(lists[qf][len - 1] == j);
            lemma_position_of(lists, qf, len - n);
            lemma_position_of(lists, qf, len - 1);
        }
        self.move_segment(i, j as usize, Ghost(qf), Ghost(len - n), Ghost(len - 1), q_to);
        Ok((i as u32, j))
    }

    /// Move the entry at the tail of queue `q_from` to the head of queue `q_to`,
    /// or fail with `OutOfPages` (changing nothing) if it is empty.
    pub fn drip_to(&mut self, q_from: u8, q_to: u8) -> (r: Result<u32>)
        requires
            old(self).wf(),
            q_from < old(self).queue_count(),
            q_to < old(self).queue_count(),
        ensures
            final(self).wf(),
            final(self).capacity() == old(self).capacity(),
            final(self).queue_count() == old(self).queue_count(),
            final(self).entries() == old(self).entries(),
            ({
                let l = old(self)@[q_from as int];
                if l.len() == 0 {
                    &&& r == Err::<u32, Error>(Error::OutOfPages)
                    &&& final(self)@ == old(self)@
                } else {
                    &&& r == Ok::<u32, Error>(l[l.len() - 1] as u32)
                    &&& final(self)@ == move_segment(
                        old(self)@,
                        q_from as int,
                        l.len() - 1,
                        l.len() - 1,
                        q_to as int,
                    )
                }
            }),
    {
        match self.drip_n_to(q_from, 1, q_to) {
            Ok((i, _)) => Ok(i),
            Err(e) => Err(e),
        }
    }

    /// Move all of queue `q_from` to the head of queue `q_to`, or fail with
    /// `Success` (changing nothing) if it is empty.
    pub fn clear_to(&mut self, q_from: u8, q_to: u8) -> (r: Result<(u32, u32)>)
        requires
            old(self).wf(),
            q_from < old(self).queue_count(),
            q_to < old(self).queue_count(),
        ensures
            final(self).wf(),
            final(self).capacity() == old(self).capacity(),
            final(self).queue_count() == old(self).queue_count(),
            final(self).entries() == old(self).entries(),
            ({
                let l = old(self)@[q_from as int];
                if l.len() == 0 {
                    &&& r == Err::<(u32, u32), Error>(Error::Success)
                    &&& final(self)@ == old(self)@
                } else {
                    &&& r == Ok::<(u32, u32), Error>((l[0] as u32, l[l.len() - 1] as u32))
                    &&& final(self)@ == move_segment(
                        old(self)@,
                        q_from as int,
                        0,
                        l.len() - 1,
                        q_to as int,
                    )
                }
            }),
    {
        let ghost lists = self@;
        let ghost cap = self.capacity();
        let ghost n0 = self.nexts();
        let ghost p0 = self.prevs();
        let ghost qf = q_from as int;
        let ghost len = lists[qf].len() as int;
        let (i, j) = self.seq(q_from);
        let hf = self.queue_entry(q_from);
        let hq = self.queue_entry(q_to);
        if i == hf {
            proof {
                if len > 0 {
                    assert(lists[qf][0] < cap);
                }
            }
            return Err(Error::Success);
        }
        proof {
            assert(len > 0);
            assert(lists[qf][0] < cap);
            assert(lists[qf][len - 1] < cap);
            assert(n0[node_of(lists, cap, qf, -1)] == node_of(lists, cap, qf, 0));
            assert(p0[node_of(lists, cap, qf, len)] == node_of(lists, cap, qf, len - 1));
            lemma_detach(n0, p0, lists, cap, qf, 0, len - 1);
        }
        self.table[hf].set_queue_empty(hf as u32);
        let ghost w = without_segment(lists[qf], 0, len - 1);
        let ghost l1 = lists.update(qf, w);
        let ghost q = q_to as int;
        proof {
            assert(self.nexts() =~= n0.update(hf as int, hf as int));
            assert(self.prevs() =~= p0.update(hf as int, hf as int));
            assert(self.entries() =~= old(self).entries());
            assert(self.nexts()[node_of(l1, cap, q, -1)] == node_of(l1, cap, q, 0));
            let seg = lists[qf].subrange(0, len);
            assert forall|k1: int, k2: int|
                0 <= k1 < seg.len() && 0 <= k2 < seg.len() && #[trigger] seg[k1] == #[trigger] seg[k2] implies k1
                == k2 by {
                assert(lists[qf][k1] == lists[qf][k2]);
            }
            assert forall|pp: int, k: int, m: int|
                0 <= pp < l1.len() && 0 <= k < l1[pp].len() && 0 <= m < seg.len() implies #[trigger] l1[pp][k]
                != #[trigger] seg[m] by {
                assert(seg[m] == lists[qf][m]);
            }
            assert forall|k: int| 0 <= k < seg.len() - 1 implies self.nexts()[#[trigger] seg[k]]
                == seg[k + 1] by {
                assert(seg[k] == lists[qf][k]);
            }
            assert forall|k: int| 0 < k < seg.len() implies self.prevs()[#[trigger] seg[k]]
                == seg[k - 1] by {
                assert(seg[k] == lists[qf][k]);
            }
            assert forall|k: int| 0 <= k < seg.len() implies 0 <= #[trigger] seg[k] < cap by {
                assert(seg[k] == lists[qf][k]);
            }
            lemma_push(self.nexts(), self.prevs(), l1, cap, seg, q);
            lemma_total_update(lists, qf, w);
            lemma_total_update(l1, q, seg + l1[q]);
        }
        self.push_seq(i, j, hq);
        proof {
            self.lists@ = move_segment(lists, qf, 0, len - 1, q);
        }
        Ok((i as u32, j as u32))
    }

    /// Number of entries on the queue whose header is at table index `q`.
    pub fn count(&self, q: usize) -> (r: u32)
        requires
            self.wf(),
            self.capacity() <= q < self.capacity() + self.queue_count(),
        ensures
            r == self@[q - self.capacity()].len(),
    {
        let ghost lists = self@;
        let ghost cap = self.capacity();
        let ghost qq = q - cap;
        let ghost len = lists[qq].len() as int;
        proof {
            assert(self.nexts()[node_of(lists, cap, qq, -1)] == node_of(lists, cap, qq, 0));
            assert(total(lists) == cap);
            self.lemma_queue_len(qq);
        }
        let mut i = self.table[q].next as usize;
        let mut result = 0u32;
        while i != q
            invariant
                self.wf(),
                self@ == lists,
                cap == self.capacity(),
                0 <= qq < lists.len(),
                q == cap + qq,
                len == lists[qq].len(),
                len <= cap,
                0 <= result <= len,
                i == node_of(lists, cap, qq, result as int),
            decreases len - result,
        {
            proof {
                if result as int == len {
                    assert(i == q);
                }
                assert(self.nexts()[node_of(lists, cap, qq, result as int)] == node_of(
                    lists,
                    cap,
                    qq,
                    result + 1,
                ));
            }
            result += 1;
            i = self.table[i].next as usize;
        }
        proof {
            if (result as int) < len {
                assert(lists[qq][result as int] < cap);
            }
        }
        result
    }

    /// A queue holds no more entries than the table.
    proof fn lemma_queue_len(&self, q: int)
        requires
            self.wf(),
            0 <= q < self@.len(),
        ensures
            self@[q].len() <= self.capacity(),
    {
        lemma_total_prefix(self@, q);
        if q > 0 {
            lemma_total_prefix(self@, q - 1);
            lemma_total_nonneg(self@.subrange(0, q));
        } else {
            assert(self@.subrange(0, 0).len() == 0);
        }
    }

    /// True iff the queues together hold every entry of the table (which the
    /// well-formed table always does).
    pub fn check_invariant(&self) -> (r: bool)
        requires
            self.wf(),
        ensures
            r,
    {
        let ghost lists = self@;
        let top = self.top();
        let mut total_count: u32 = 0;
        let mut q = top;
        let end = top + self.queues;
        while q < end
            invariant
                self.wf(),
                self@ == lists,
                top == self.capacity(),
                end == top + self.queue_count(),
                top <= q <= end,
                total_count == total(lists.subrange(0, q - top)),
            decreases end - q,
        {
            let count = self.count(q);
            proof {
                lemma_total_prefix(lists, q - top);
            }
            total_count += count;
            q += 1;
        }
        proof {
            assert(lists.subrange(0, end - top) =~= lists);
        }
        total_count == top as u32
    }
}

/// Totals are never negative.
pub proof fn lemma_total_nonneg(lists: Seq<Seq<int>>)
    ensures
        total(lists) >= 0,
    decreases lists.len(),
{
    if lists.len() > 0 {
        lemma_total_nonneg(lists.drop_last());
    }
}

} // verus!
