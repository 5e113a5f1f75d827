//! The order in which a directory walk hands out the entries of a page directory.
//!
//! A walk over one table stands for all the entries it still has to hand out: each of
//! its entries and, for a table entry, the entries of the table it refers to, within the
//! walked range. A directory walk stands for those of the walks on its stack; each call
//! of `PageDirectoryWalk::next` hands out the first of them and leaves the rest.

use super::walk::{
    advanced, deepest_pending, dropped_above, is_table_entry, item_of, next_entry, pending,
    table_walk_ok, EntryLocation, PageDirectoryWalk, PageTableMemory, PageTableWalk,
};
use crate::pager::virt_addr::VirtAddrRange;
use vstd::prelude::*;
use vstd::seq_lib::lemma_multiset_commutative;

verus! {

/// An entry as a walk hands it out: its level, the range it spans, and its location.
pub type WalkItem = (u8, VirtAddrRange, EntryLocation);

impl PageDirectoryWalk {
    /// The entries that walk `w` over one table hands out from where it stands, in
    /// preorder: each entry, and after a table entry the entries of its table within
    /// the walked range.
    pub open spec fn preorder_items(&self, w: PageTableWalk, memory: &PageTableMemory) -> Seq<
        WalkItem,
    >
        decreases 4 - w.level, w.top - w.index,
    {
        if w.level > 3 || w.index >= w.top {
            Seq::empty()
        } else {
            let e = next_entry(memory, w);
            let sub = if is_table_entry(e, w.level as int) {
                self.preorder_items(
                    self.descent_walk(e, w.next_virt_addr_range.unwrap(), w.level as int, memory),
                    memory,
                )
            } else {
                Seq::empty()
            };
            seq![item_of(w)] + sub + self.preorder_items(advanced(w), memory)
        }
    }

    /// The entries that the walks of `stack` from `level` down to `first` hand out in
    /// preorder, the deepest first.
    pub open spec fn stack_preorder_items(
        &self,
        stack: Seq<Option<PageTableWalk>>,
        first: int,
        level: int,
        memory: &PageTableMemory,
    ) -> Seq<WalkItem>
        decreases level - first + 1,
    {
        if level < first {
            Seq::empty()
        } else {
            (match stack[level] {
                Some(w) => self.preorder_items(w, memory),
                None => Seq::empty(),
            }) + self.stack_preorder_items(stack, first, level - 1, memory)
        }
    }

    /// The entries a preorder walk has still to hand out: those of the table of the
    /// entry handed out last, where it is a table entry, then those of the walks on the
    /// stack.
    pub open spec fn preorder_remaining(&self, memory: &PageTableMemory) -> Seq<WalkItem> {
        self.stack_preorder_items(
            self.descended_stack(memory),
            self.first_level as int,
            self.descended_level(memory),
            memory,
        )
    }
}

/// Walks that are not pending hand out nothing.
proof fn lemma_preorder_items_done(d: PageDirectoryWalk, w: PageTableWalk, memory: &PageTableMemory)
    requires
        !pending(Some(w)),
    ensures
        d.preorder_items(w, memory) == Seq::<WalkItem>::empty(),
{
}

/// The walks above the deepest pending one hand out nothing.
proof fn lemma_stack_preorder_deepest(
    d: PageDirectoryWalk,
    stack: Seq<Option<PageTableWalk>>,
    first: int,
    level: int,
    memory: &PageTableMemory,
)
    requires
        0 <= first,
        level < stack.len(),
    ensures
        d.stack_preorder_items(stack, first, level, memory) == d.stack_preorder_items(
            stack,
            first,
            deepest_pending(stack, first, level),
            memory,
        ),
    decreases level - first + 1,
{
    if level >= first && !pending(stack[level]) {
        lemma_stack_preorder_deepest(d, stack, first, level - 1, memory);
        if let Some(w) = stack[level] {
            lemma_preorder_items_done(d, w, memory);
        }
        assert(d.stack_preorder_items(stack, first, level, memory) =~= d.stack_preorder_items(
            stack,
            first,
            level - 1,
            memory,
        ));
    }
}

/// Stacks that agree from `first` to `level` hand out the same entries there.
proof fn lemma_stack_preorder_agree(
    d: PageDirectoryWalk,
    s1: Seq<Option<PageTableWalk>>,
    s2: Seq<Option<PageTableWalk>>,
    first: int,
    level: int,
    memory: &PageTableMemory,
)
    requires
        forall|l: int| first <= l <= level ==> s1[l] == s2[l],
    ensures
        d.stack_preorder_items(s1, first, level, memory) == d.stack_preorder_items(
            s2,
            first,
            level,
            memory,
        ),
    decreases level - first + 1,
{
    if level >= first {
        lemma_stack_preorder_agree(d, s1, s2, first, level - 1, memory);
    }
}

/// Two directory walks over the same range through the same translation stand for the
/// same entries of a walk over a table.
proof fn lemma_preorder_items_same(
    d0: PageDirectoryWalk,
    d1: PageDirectoryWalk,
    w: PageTableWalk,
    memory: &PageTableMemory,
)
    requires
        d0.virt_addr_range == d1.virt_addr_range,
        d0.mem_access_translation == d1.mem_access_translation,
    ensures
        d0.preorder_items(w, memory) == d1.preorder_items(w, memory),
    decreases 4 - w.level, w.top - w.index,
{
    if !(w.level > 3 || w.index >= w.top) {
        let e = next_entry(memory, w);
        if is_table_entry(e, w.level as int) {
            let r = w.next_virt_addr_range.unwrap();
            assert(d0.descent_walk(e, r, w.level as int, memory) == d1.descent_walk(
                e,
                r,
                w.level as int,
                memory,
            ));
            lemma_preorder_items_same(d0, d1, d0.descent_walk(e, r, w.level as int, memory), memory);
        }
        lemma_preorder_items_same(d0, d1, advanced(w), memory);
    }
}

/// Two directory walks over the same range through the same translation stand for the
/// same entries of a stack of walks.
proof fn lemma_stack_preorder_same(
    d0: PageDirectoryWalk,
    d1: PageDirectoryWalk,
    stack: Seq<Option<PageTableWalk>>,
    first: int,
    level: int,
    memory: &PageTableMemory,
)
    requires
        d0.virt_addr_range == d1.virt_addr_range,
        d0.mem_access_translation == d1.mem_access_translation,
    ensures
        d0.stack_preorder_items(stack, first, level, memory) == d1.stack_preorder_items(
            stack,
            first,
            level,
            memory,
        ),
    decreases level - first + 1,
{
    if level >= first {
        if let Some(w) = stack[level] {
            lemma_preorder_items_same(d0, d1, w, memory);
        }
        lemma_stack_preorder_same(d0, d1, stack, first, level - 1, memory);
    }
}

/// One preorder step, as `next` makes it, hands out the first of the entries the walk
/// has still to hand out, and leaves the rest; it hands out none exactly when none are
/// left.
pub proof fn lemma_preorder_step(
    d0: PageDirectoryWalk,
    d1: PageDirectoryWalk,
    r: Option<WalkItem>,
    memory: &PageTableMemory,
)
    requires
        d0.wf(memory),
        d1.virt_addr_range == d0.virt_addr_range,
        d1.first_level == d0.first_level,
        d1.mem_access_translation == d0.mem_access_translation,
        ({
            let level = d0.descended_level(memory);
            let stack = d0.descended_stack(memory);
            let l = deepest_pending(stack, d0.first_level as int, level);
            &&& l < d0.first_level ==> r is None
            &&& l >= d0.first_level ==> {
                &&& r == Some(item_of(stack[l].unwrap()))
                &&& d1.current_level == l
                &&& d1.stack@ == dropped_above(stack, l, level).update(
                    l,
                    Some(advanced(stack[l].unwrap())),
                )
                &&& d1.pte == Some(r.unwrap().2)
                &&& d1.target_range == r.unwrap().1
            }
        }),
    ensures
        r is None <==> d0.preorder_remaining(memory).len() == 0,
        r matches Some(x) ==> d0.preorder_remaining(memory)[0] == x && d1.preorder_remaining(
            memory,
        ) == d0.preorder_remaining(memory).drop_first(),
{
    let first = d0.first_level as int;
    let level = d0.descended_level(memory);
    let stack = d0.descended_stack(memory);
    let l = deepest_pending(stack, first, level);
    assert(stack.len() == 4);
    assert(level < 4) by {
        if d0.descends(memory) {
            assert(d0.current_level < 3);
        }
    }
    lemma_stack_preorder_deepest(d0, stack, first, level, memory);
    lemma_deepest_pending_bounds(stack, first, level);
    if l < first {
        assert(d0.preorder_remaining(memory) =~= Seq::<WalkItem>::empty());
    } else {
        let w = stack[l].unwrap();
        assert(w.level == l) by {
            if l <= d0.current_level {
                assert(table_walk_ok(d0.stack@[l].unwrap(), l, memory));
            }
        }
        let e = next_entry(memory, w);
        let sub = if is_table_entry(e, l) {
            d0.preorder_items(d0.descent_walk(e, w.next_virt_addr_range.unwrap(), l, memory), memory)
        } else {
            Seq::empty()
        };
        let rest = d0.stack_preorder_items(stack, first, l - 1, memory);
        assert(d0.preorder_remaining(memory) =~= seq![item_of(w)] + sub + d0.preorder_items(
            advanced(w),
            memory,
        ) + rest);
        // after the step
        lemma_preorder_after(d0, d1, stack, first, l, level, memory);
        lemma_stack_preorder_same(d0, d1, stack, first, l - 1, memory);
        lemma_preorder_items_same(d0, d1, advanced(w), memory);
        if is_table_entry(e, l) {
            lemma_preorder_items_same(
                d0,
                d1,
                d0.descent_walk(e, w.next_virt_addr_range.unwrap(), l, memory),
                memory,
            );
        }
        assert(d1.preorder_remaining(memory) =~= d0.preorder_remaining(memory).drop_first());
    }
}

/// What a directory walk stands for after a preorder step that handed out the next
/// entry of the walk at level `l`: the entries of its table, where it is a table entry,
/// then those of the rest of that walk, then those of the walks below.
#[verifier::spinoff_prover]
proof fn lemma_preorder_after(
    d0: PageDirectoryWalk,
    d1: PageDirectoryWalk,
    stack: Seq<Option<PageTableWalk>>,
    first: int,
    l: int,
    level: int,
    memory: &PageTableMemory,
)
    requires
        0 <= first <= l <= level < 4,
        stack.len() == 4,
        pending(stack[l]),
        stack[l].unwrap().level == l,
        d1.first_level == first,
        d1.virt_addr_range == d0.virt_addr_range,
        d1.mem_access_translation == d0.mem_access_translation,
        d1.current_level == l,
        d1.stack@ == dropped_above(stack, l, level).update(l, Some(advanced(stack[l].unwrap()))),
        d1.pte == Some(item_of(stack[l].unwrap()).2),
        d1.target_range == item_of(stack[l].unwrap()).1,
    ensures
        ({
            let w = stack[l].unwrap();
            let e = next_entry(memory, w);
            let sub = if is_table_entry(e, l) {
                d1.preorder_items(d1.descent_walk(e, w.next_virt_addr_range.unwrap(), l, memory), memory)
            } else {
                Seq::empty()
            };
            d1.preorder_remaining(memory) == sub + d1.preorder_items(advanced(w), memory)
                + d1.stack_preorder_items(stack, first, l - 1, memory)
        }),
{
    let w = stack[l].unwrap();
    let e = next_entry(memory, w);
    assert(d1.last_entry(memory) == e);
    assert(d1.descends(memory) == is_table_entry(e, l));
    let ds = d1.descended_stack(memory);
    let dl = d1.descended_level(memory);
    lemma_stack_preorder_agree(d1, ds, stack, first, l - 1, memory);
    assert(ds[l] == Some(advanced(w)));
    assert(d1.stack_preorder_items(ds, first, l, memory) == d1.preorder_items(advanced(w), memory)
        + d1.stack_preorder_items(ds, first, l - 1, memory));
    if is_table_entry(e, l) {
        let dw = d1.descent_walk(e, w.next_virt_addr_range.unwrap(), l, memory);
        assert(dl == l + 1);
        assert(ds[l + 1] == Some(dw));
        assert(d1.stack_preorder_items(ds, first, l + 1, memory) == d1.preorder_items(dw, memory)
            + d1.stack_preorder_items(ds, first, l, memory));
        assert(d1.preorder_remaining(memory) =~= d1.preorder_items(dw, memory) + d1.preorder_items(
            advanced(w),
            memory,
        ) + d1.stack_preorder_items(stack, first, l - 1, memory));
    } else {
        assert(dl == l);
        assert(d1.preorder_remaining(memory) =~= d1.preorder_items(advanced(w), memory)
            + d1.stack_preorder_items(stack, first, l - 1, memory));
    }
}

/// The deepest pending level lies from `first - 1` up to `level`, and where it is at
/// least `first` its walk is pending.
proof fn lemma_deepest_pending_bounds(stack: Seq<Option<PageTableWalk>>, first: int, level: int)
    requires
        level >= first - 1,
    ensures
        first - 1 <= deepest_pending(stack, first, level) <= level,
        deepest_pending(stack, first, level) >= first ==> pending(
            stack[deepest_pending(stack, first, level)],
        ),
    decreases level - first + 1,
{
    if level >= first && !pending(stack[level]) {
        lemma_deepest_pending_bounds(stack, first, level - 1);
    }
}

impl PageDirectoryWalk {
    /// The entries that walk `w` over one table hands out from where it stands, in
    /// postorder: before a table entry, the entries of its table within the walked
    /// range.
    pub open spec fn postorder_items(&self, w: PageTableWalk, memory: &PageTableMemory) -> Seq<
        WalkItem,
    >
        decreases 4 - w.level, w.top - w.index,
    {
        if w.level > 3 || w.index >= w.top {
            Seq::empty()
        } else {
            let e = next_entry(memory, w);
            let sub = if is_table_entry(e, w.level as int) {
                self.postorder_items(
                    self.descent_walk(e, w.next_virt_addr_range.unwrap(), w.level as int, memory),
                    memory,
                )
            } else {
                Seq::empty()
            };
            sub + seq![item_of(w)] + self.postorder_items(advanced(w), memory)
        }
    }

    /// The entries that the walks of `stack` from `level` down to `first` hand out in
    /// postorder, where each of them is over the table of a table entry whose own
    /// table is being walked above it: that entry, then the rest of the walk.
    pub open spec fn stack_postorder_items(
        &self,
        stack: Seq<Option<PageTableWalk>>,
        first: int,
        level: int,
        memory: &PageTableMemory,
    ) -> Seq<WalkItem>
        decreases level - first + 1,
    {
        if level < first {
            Seq::empty()
        } else {
            (if pending(stack[level]) {
                seq![item_of(stack[level].unwrap())] + self.postorder_items(
                    advanced(stack[level].unwrap()),
                    memory,
                )
            } else {
                Seq::empty()
            }) + self.stack_postorder_items(stack, first, level - 1, memory)
        }
    }

    /// The entries a postorder walk with `stack` at `level` has still to hand out: those
    /// of the walk at `level`, then, level by level below it, the table entry being
    /// walked into and the rest of its walk.
    pub open spec fn postorder_remaining_at(
        &self,
        stack: Seq<Option<PageTableWalk>>,
        level: int,
        memory: &PageTableMemory,
    ) -> Seq<WalkItem> {
        (match stack[level] {
            Some(w) => self.postorder_items(w, memory),
            None => Seq::empty(),
        }) + self.stack_postorder_items(stack, self.first_level as int, level - 1, memory)
    }

    /// The entries a postorder walk has still to hand out.
    pub open spec fn postorder_remaining(&self, memory: &PageTableMemory) -> Seq<WalkItem> {
        self.postorder_remaining_at(self.stack@, self.current_level as int, memory)
    }

    /// True iff each walk below the current level has an entry left: the table entry
    /// whose table is being walked above it.
    pub open spec fn levels_below_pending(&self) -> bool {
        forall|l: int|
            self.first_level <= l < self.current_level ==> pending(#[trigger] self.stack@[l])
    }
}

/// Two directory walks over the same range through the same translation stand for the
/// same postorder entries of a walk over a table.
proof fn lemma_postorder_items_same(
    d0: PageDirectoryWalk,
    d1: PageDirectoryWalk,
    w: PageTableWalk,
    memory: &PageTableMemory,
)
    requires
        d0.virt_addr_range == d1.virt_addr_range,
        d0.mem_access_translation == d1.mem_access_translation,
    ensures
        d0.postorder_items(w, memory) == d1.postorder_items(w, memory),
    decreases 4 - w.level, w.top - w.index,
{
    if !(w.level > 3 || w.index >= w.top) {
        let e = next_entry(memory, w);
        if is_table_entry(e, w.level as int) {
            let r = w.next_virt_addr_range.unwrap();
            assert(d0.descent_walk(e, r, w.level as int, memory) == d1.descent_walk(
                e,
                r,
                w.level as int,
                memory,
            ));
            lemma_postorder_items_same(d0, d1, d0.descent_walk(e, r, w.level as int, memory), memory);
        }
        lemma_postorder_items_same(d0, d1, advanced(w), memory);
    }
}

/// Stacks that agree from `first` to `level`, under directory walks over the same range
/// through the same translation, stand for the same postorder entries there.
proof fn lemma_stack_postorder_agree(
    d0: PageDirectoryWalk,
    d1: PageDirectoryWalk,
    s1: Seq<Option<PageTableWalk>>,
    s2: Seq<Option<PageTableWalk>>,
    first: int,
    level: int,
    memory: &PageTableMemory,
)
    requires
        d0.virt_addr_range == d1.virt_addr_range,
        d0.mem_access_translation == d1.mem_access_translation,
        forall|l: int| first <= l <= level ==> s1[l] == s2[l],
    ensures
        d0.stack_postorder_items(s1, first, level, memory) == d1.stack_postorder_items(
            s2,
            first,
            level,
            memory,
        ),
    decreases level - first + 1,
{
    if level >= first {
        if pending(s1[level]) {
            lemma_postorder_items_same(d0, d1, advanced(s1[level].unwrap()), memory);
        }
        lemma_stack_postorder_agree(d0, d1, s1, s2, first, level - 1, memory);
    }
}

/// The postorder descent from `level` keeps what the walk stands for: it reaches a
/// level whose walk, where it has an entry left, hands out an entry that is no table
/// entry, with each walk below it pending.
proof fn lemma_post_descent(
    d: PageDirectoryWalk,
    stack: Seq<Option<PageTableWalk>>,
    level: int,
    memory: &PageTableMemory,
)
    requires
        0 <= d.first_level <= level < 4,
        stack.len() == 4,
        stack[level] is Some,
        stack[level].unwrap().level == level,
        forall|l: int| d.first_level <= l < level ==> pending(#[trigger] stack[l]),
    ensures
        ({
            let (c, s) = d.post_descent(stack, level, memory);
            &&& level <= c < 4
            &&& s.len() == 4
            &&& s[c] is Some
            &&& s[c].unwrap().level == c
            &&& forall|l: int| d.first_level <= l < c ==> pending(#[trigger] s[l])
            &&& pending(s[c]) ==> !is_table_entry(next_entry(memory, s[c].unwrap()), c)
            &&& d.postorder_remaining_at(s, c, memory) == d.postorder_remaining_at(
                stack,
                level,
                memory,
            )
        }),
    decreases 3 - level,
{
    let first = d.first_level as int;
    let w = stack[level].unwrap();
    if 0 <= level < 3 && pending(stack[level]) && is_table_entry(next_entry(memory, w), level) {
        let e = next_entry(memory, w);
        let dw = d.descent_walk(e, w.next_virt_addr_range.unwrap(), level, memory);
        let s2 = stack.update(level + 1, Some(dw));
        assert(dw.level == level + 1);
        lemma_stack_postorder_agree(d, d, s2, stack, first, level - 1, memory);
        assert(d.stack_postorder_items(s2, first, level, memory) == (seq![item_of(w)]
            + d.postorder_items(advanced(w), memory)) + d.stack_postorder_items(
            s2,
            first,
            level - 1,
            memory,
        ));
        assert(d.postorder_items(w, memory) == d.postorder_items(dw, memory) + seq![item_of(w)]
            + d.postorder_items(advanced(w), memory));
        assert(d.postorder_remaining_at(s2, level + 1, memory) =~= d.postorder_remaining_at(
            stack,
            level,
            memory,
        ));
        lemma_post_descent(d, s2, level + 1, memory);
    }
}

/// One postorder step, as `next` makes it, hands out the first of the entries the walk
/// has still to hand out, and leaves the rest; it hands out none exactly when none are
/// left. Each walk below the current level stays pending.
pub proof fn lemma_postorder_step(
    d0: PageDirectoryWalk,
    d1: PageDirectoryWalk,
    r: Option<WalkItem>,
    memory: &PageTableMemory,
)
    requires
        d0.wf(memory),
        d0.levels_below_pending(),
        d1.virt_addr_range == d0.virt_addr_range,
        d1.first_level == d0.first_level,
        d1.mem_access_translation == d0.mem_access_translation,
        ({
            let reached = d0.post_descent(d0.stack@, d0.current_level as int, memory);
            let c = reached.0;
            let s = reached.1;
            let first = d0.first_level as int;
            &&& pending(s[c]) ==> {
                &&& r == Some(item_of(s[c].unwrap()))
                &&& d1.current_level == c
                &&& d1.stack@ == s.update(c, Some(advanced(s[c].unwrap())))
            }
            &&& !pending(s[c]) && c == first ==> r is None
            &&& !pending(s[c]) && c != first ==> {
                &&& d1.current_level == c - 1
                &&& pending(s[c - 1]) ==> r == Some(item_of(s[c - 1].unwrap()))
                    && d1.stack@ == s.update(c, None).update(
                    c - 1,
                    Some(advanced(s[c - 1].unwrap())),
                )
                &&& !pending(s[c - 1]) ==> r is None
            }
        }),
    ensures
        r is None <==> d0.postorder_remaining(memory).len() == 0,
        r matches Some(x) ==> {
            &&& d0.postorder_remaining(memory)[0] == x
            &&& d1.postorder_remaining(memory) == d0.postorder_remaining(memory).drop_first()
            &&& d1.levels_below_pending()
        },
{
    let first = d0.first_level as int;
    let cur = d0.current_level as int;
    assert(table_walk_ok(d0.stack@[cur].unwrap(), cur, memory));
    lemma_post_descent(d0, d0.stack@, cur, memory);
    let reached = d0.post_descent(d0.stack@, cur, memory);
    let c = reached.0;
    let s = reached.1;
    assert(d0.postorder_remaining(memory) == d0.postorder_remaining_at(s, c, memory));
    if pending(s[c]) {
        let w = s[c].unwrap();
        assert(d0.postorder_items(w, memory) == seq![item_of(w)] + d0.postorder_items(
            advanced(w),
            memory,
        ));
        lemma_postorder_items_same(d0, d1, advanced(w), memory);
        lemma_stack_postorder_agree(d0, d1, s, d1.stack@, first, c - 1, memory);
        assert(d1.postorder_remaining(memory) =~= d0.postorder_remaining(memory).drop_first());
    } else {
        assert(d0.postorder_items(s[c].unwrap(), memory) == Seq::<WalkItem>::empty());
        if c == first {
            assert(d0.postorder_remaining(memory) =~= Seq::<WalkItem>::empty());
        } else {
            assert(pending(s[c - 1]));
            let w = s[c - 1].unwrap();
            assert(d0.stack_postorder_items(s, first, c - 1, memory) == (seq![item_of(w)]
                + d0.postorder_items(advanced(w), memory)) + d0.stack_postorder_items(
                s,
                first,
                c - 2,
                memory,
            ));
            lemma_postorder_items_same(d0, d1, advanced(w), memory);
            lemma_stack_postorder_agree(d0, d1, s, d1.stack@, first, c - 2, memory);
            assert(d1.stack@[c - 1] == Some(advanced(w)));
            assert(d1.postorder_remaining(memory) =~= d0.postorder_remaining(memory).drop_first());
        }
    }
}

/// A preorder and a postorder walk hand out the same entries, each as often: they
/// differ only in whether a table entry comes before or after the entries of its table.
pub proof fn lemma_orders_hand_out_same_entries(
    d: PageDirectoryWalk,
    w: PageTableWalk,
    memory: &PageTableMemory,
)
    ensures
        d.preorder_items(w, memory).to_multiset() =~= d.postorder_items(w, memory).to_multiset(),
    decreases 4 - w.level, w.top - w.index,
{
    if !(w.level > 3 || w.index >= w.top) {
        let e = next_entry(memory, w);
        let item = seq![item_of(w)];
        let (sub_pre, sub_post) = if is_table_entry(e, w.level as int) {
            let dw = d.descent_walk(e, w.next_virt_addr_range.unwrap(), w.level as int, memory);
            lemma_orders_hand_out_same_entries(d, dw, memory);
            (d.preorder_items(dw, memory), d.postorder_items(dw, memory))
        } else {
            (Seq::empty(), Seq::empty())
        };
        let rest_pre = d.preorder_items(advanced(w), memory);
        let rest_post = d.postorder_items(advanced(w), memory);
        lemma_orders_hand_out_same_entries(d, advanced(w), memory);
        lemma_multiset_commutative(item, sub_pre);
        lemma_multiset_commutative(item + sub_pre, rest_pre);
        lemma_multiset_commutative(sub_post, item);
        lemma_multiset_commutative(sub_post + item, rest_post);
        assert(d.preorder_items(w, memory) == item + sub_pre + rest_pre);
        assert(d.postorder_items(w, memory) == sub_post + item + rest_post);
    }
}

} // verus!
