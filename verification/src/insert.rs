//! Putting items in: replacing an equivalent item or inserting a further one,
//! splitting the nodes that are full on the way.
use vstd::prelude::*;
use crate::budget::{drew_at_most, NodeAllocator};
use crate::hint::{
    deeper_spec, hint_record, lemma_routed_none, lemma_routed_over, lemma_routed_step, routed,
    HINT_LEVELS,
};
use crate::join::{
    before, behind, lemma_behind_step, lemma_join_pair, lemma_join_pair_split,
    lemma_join_pair_update, lemma_join_part, lemma_join_split,
};
use crate::node::{lemma_join_bounded, Node};
use crate::order::{decides, equiv, lemma_order, lt, total_preorder, Sign};
use crate::search::deeper;
use crate::sorted::{
    all_below, first_at_least, found, inserted, lemma_absent_at, lemma_at, lemma_bounds_empty,
    lemma_descend, lemma_hit, lemma_pivot_range, lemma_present_at, lemma_rank, lemma_rank_part,
    lemma_sorted_around, lemma_sorted_prefix, lemma_update_sorted, sorted,
};

verus! {

/// How an attempt to put an item into a subtree ended.
pub enum PutOutcome<T> {
    /// An equivalent item was there; the item took its place and the old
    /// one is handed back.
    Replaced(T),
    /// No equivalent item was there; the item was inserted.
    Inserted,
    /// No equivalent item was there, and the node at the top of the subtree
    /// has no room: it has to be split before the item, handed back, can go
    /// in. The contents of the subtree are as before.
    Full(T),
    /// A node had to be split and the allocator refused. The item is handed
    /// back and the contents of the subtree are as before.
    NoMemory(T),
}

/// How an attempt to put an item behind the largest item of a subtree ended.
pub enum AppendOutcome<T> {
    /// The item sorts after every item of the subtree and stands behind them
    /// now.
    Appended,
    /// The item does not sort after the largest item, or the subtree is
    /// empty: the item is handed back and has to find its place by a search.
    Misfit(T),
    /// The item sorts after every item, and the node at the top of the
    /// subtree has no room: it has to be split before the item, handed back,
    /// can go in.
    Full(T),
    /// A node had to be split and the allocator refused. The item is handed
    /// back and the contents of the subtree are as before.
    NoMemory(T),
}

/// What the outcome of putting `item` into a subtree says of the items that
/// the subtree stood for before and stands for after.
pub open spec fn put_ended<T>(
    le: spec_fn(T, T) -> bool,
    before: Seq<T>,
    after: Seq<T>,
    item: T,
    r: PutOutcome<T>,
) -> bool {
    match r {
        PutOutcome::Replaced(prev) => found(le, before, item) == Some(prev) && after == inserted(
            le,
            before,
            item,
        ),
        PutOutcome::Inserted => found(le, before, item) is None && after == inserted(
            le,
            before,
            item,
        ),
        PutOutcome::Full(it) => it == item && found(le, before, item) is None && after == before,
        PutOutcome::NoMemory(it) => it == item && found(le, before, item) is None && after
            == before,
    }
}

/// What the outcome of putting an item into a subtree says of the nodes
/// that the allocator had before and has after: at most `most` were drawn,
/// none where a full node stood in the way, and none is left where the
/// allocator refused.
pub open spec fn put_drew<T>(
    r: PutOutcome<T>,
    before: Option<nat>,
    after: Option<nat>,
    most: nat,
) -> bool {
    &&& drew_at_most(before, after, most)
    &&& r is Full ==> after == before
    &&& r is NoMemory ==> after == Some(0nat)
}

/// The node `whole` was split around its middle item `m` into the nodes
/// `left` and `right`.
pub(crate) open spec fn halved<T>(
    whole: Node<T>,
    left: Node<T>,
    m: T,
    right: Node<T>,
    cap: nat,
) -> bool {
    let mid = (cap / 2) as int;
    &&& whole.items@.len() == cap
    &&& left.items@ == whole.items@.take(mid)
    &&& m == whole.items@[mid]
    &&& right.items@ == whole.items@.skip(mid + 1)
    &&& if whole.children@.len() == 0 {
        left.children@.len() == 0 && right.children@.len() == 0
    } else {
        left.children@ == whole.children@.take(mid + 1) && right.children@
            == whole.children@.skip(mid + 1)
    }
}

/// What putting an item left of the nodes that the allocator had, where the
/// item needed `n` of them: without a limit there is none afterwards; with
/// fewer than `n` nodes the allocator refused and has none left; else just
/// the `n` nodes are gone.
pub open spec fn put_drew_exactly<T>(
    r: PutOutcome<T>,
    before: Option<nat>,
    after: Option<nat>,
    n: nat,
) -> bool {
    match before {
        None => after is None && !(r is NoMemory),
        Some(k) => if k < n {
            r is NoMemory && after == Some(0nat)
        } else {
            !(r is NoMemory) && after == Some((k - n) as nat)
        },
    }
}

/// What putting an item behind the largest left of the nodes that the
/// allocator had, where the item needed `n` of them.
pub open spec fn append_drew_exactly<T>(
    r: AppendOutcome<T>,
    before: Option<nat>,
    after: Option<nat>,
    n: nat,
) -> bool {
    match before {
        None => after is None && !(r is NoMemory),
        Some(k) => if k < n {
            r is NoMemory && after == Some(0nat)
        } else {
            !(r is NoMemory) && after == Some((k - n) as nat)
        },
    }
}

/// `s` has items, and `x` sorts after the last of them.
pub open spec fn fits_behind<T>(le: spec_fn(T, T) -> bool, s: Seq<T>, x: T) -> bool {
    s.len() > 0 && lt(le, s[s.len() - 1], x)
}

/// What the outcome of putting `item` behind the largest item of a subtree
/// says of the items that the subtree stood for before and stands for after.
pub open spec fn append_ended<T>(
    le: spec_fn(T, T) -> bool,
    before: Seq<T>,
    after: Seq<T>,
    item: T,
    r: AppendOutcome<T>,
) -> bool {
    match r {
        AppendOutcome::Appended => fits_behind(le, before, item) && after == before.push(item),
        AppendOutcome::Misfit(it) => it == item && !fits_behind(le, before, item) && after
            == before,
        AppendOutcome::Full(it) => it == item && fits_behind(le, before, item) && after == before,
        AppendOutcome::NoMemory(it) => it == item && fits_behind(le, before, item) && after
            == before,
    }
}

/// What the outcome of putting an item behind the largest says of the nodes
/// that the allocator had before and has after.
pub open spec fn append_drew<T>(
    r: AppendOutcome<T>,
    before: Option<nat>,
    after: Option<nat>,
    most: nat,
) -> bool {
    &&& drew_at_most(before, after, most)
    &&& r is Full || r is Misfit ==> after == before
    &&& r is NoMemory ==> after == Some(0nat)
}

impl<T> Node<T> {
    /// `item` is not in this subtree, and every node on its route is full:
    /// there is no room for it unless the node at the top is split.
    pub(crate) open spec fn blocked(
        self,
        le: spec_fn(T, T) -> bool,
        item: T,
        h: nat,
        cap: nat,
    ) -> bool
        decreases h,
    {
        let i = first_at_least(le, self.items@, item);
        &&& found(le, self.items@, item) is None
        &&& self.items@.len() == cap
        &&& h > 0 ==> 0 <= i < self.children@.len() && self.children@[i].blocked(
            le,
            item,
            (h - 1) as nat,
            cap,
        )
    }

    /// The nodes that putting `item` into this subtree takes, where the node
    /// at the top need not be split: one for each of the full nodes at the
    /// lower end of the route of the item, and none where an item equivalent
    /// to it is there.
    pub(crate) open spec fn needs(self, le: spec_fn(T, T) -> bool, item: T, h: nat, cap: nat) -> nat
        decreases h,
    {
        let i = first_at_least(le, self.items@, item);
        if h == 0 || found(le, self.items@, item) is Some || !(0 <= i < self.children@.len()) {
            0
        } else if self.children@[i].blocked(le, item, (h - 1) as nat, cap) {
            h
        } else {
            self.children@[i].needs(le, item, (h - 1) as nat, cap)
        }
    }

    /// Putting an item into a subtree takes at most as many nodes as the
    /// subtree is high.
    pub(crate) proof fn lemma_needs_bound(
        self,
        le: spec_fn(T, T) -> bool,
        item: T,
        h: nat,
        cap: nat,
    )
        ensures
            self.needs(le, item, h, cap) <= h,
        decreases h,
    {
        let i = first_at_least(le, self.items@, item);
        if h > 0 && 0 <= i < self.children@.len() {
            self.children@[i].lemma_needs_bound(le, item, (h - 1) as nat, cap);
        }
    }

    /// Putting an item into a subtree that holds an equivalent item takes no
    /// node.
    pub(crate) proof fn lemma_found_needs(
        self,
        le: spec_fn(T, T) -> bool,
        item: T,
        h: nat,
        cap: nat,
        lo: nat,
    )
        requires
            total_preorder(le),
            self.shape(h, cap, lo),
            sorted(le, self@),
            found(le, self@, item) is Some,
        ensures
            !self.blocked(le, item, h, cap),
            self.needs(le, item, h, cap) == 0,
        decreases h,
    {
        self.lemma_view();
        self.lemma_items_sorted(le, h, cap, lo);
        let items = self.items@;
        let (a, b) = lemma_pivot_range(le, items, item);
        if a < items.len() {
            lemma_order(le, item, items[a], item);
        }
        lemma_rank(le, items, item, a);
        if h > 0 && found(le, items, item) is None {
            let parts = self.parts();
            lemma_join_part(parts, items, a, parts[a]);
            lemma_descend(le, before(parts, items, a), parts[a], behind(parts, items, a), item);
            self.children@[a].lemma_found_needs(le, item, (h - 1) as nat, cap, cap / 2);
        }
    }

    /// A root that was put above the halves of a blocked root is not blocked,
    /// and putting the item into it takes as many nodes as the halves are
    /// high.
    pub(crate) proof fn lemma_grown_needs(
        self,
        whole: Node<T>,
        le: spec_fn(T, T) -> bool,
        item: T,
        h: nat,
        cap: nat,
    )
        requires
            total_preorder(le),
            cap >= 3,
            whole.shape(h, cap, cap),
            sorted(le, whole.items@),
            whole.blocked(le, item, h, cap),
            self.items@.len() == 1,
            self.children@.len() == 2,
            halved(whole, self.children@[0], self.items@[0], self.children@[1], cap),
        ensures
            !self.blocked(le, item, h + 1, cap),
            self.needs(le, item, h + 1, cap) == h,
    {
        let m = self.items@[0];
        Self::lemma_half_needs(whole, self.children@[0], m, self.children@[1], le, item, h, cap);
        lemma_order(le, item, m, item);
        lemma_bounds_empty(le, Seq::<T>::empty(), m);
        lemma_sorted_around(le, Seq::<T>::empty(), m, Seq::<T>::empty());
        assert(Seq::<T>::empty() + seq![m] + Seq::<T>::empty() =~= self.items@);
        let k: int = if lt(le, item, m) {
            0
        } else {
            1
        };
        lemma_rank(le, self.items@, item, k);
    }

    /// The route of an item that sorts after every item of a subtree leads
    /// along the right edge: all items of the top node sort before it.
    pub(crate) proof fn lemma_fits_rank(
        self,
        le: spec_fn(T, T) -> bool,
        item: T,
        h: nat,
        cap: nat,
        lo: nat,
    )
        requires
            total_preorder(le),
            cap >= 2,
            self.shape(h, cap, lo),
            sorted(le, self@),
            fits_behind(le, self@, item),
        ensures
            all_below(le, self.items@, item),
            first_at_least(le, self.items@, item) == self.items@.len(),
            found(le, self.items@, item) is None,
            h > 0 ==> fits_behind(le, self.children@[self.items@.len() as int]@, item),
    {
        let s = self@;
        let n = self.items@.len() as int;
        self.lemma_view();
        self.lemma_items_sorted(le, h, cap, lo);
        lemma_sorted_prefix(le, s, s.len() as int, item);
        assert(s.take(s.len() as int) =~= s);
        if h > 0 {
            let parts = self.parts();
            lemma_join_bounded(le, parts, self.items@, item);
            lemma_join_part(parts, self.items@, n, parts[n]);
            lemma_behind_step(parts, self.items@, n);
            self.children@[n].lemma_len((h - 1) as nat, cap, cap / 2);
            let a = before(parts, self.items@, n);
            assert((a + parts[n] + Seq::<T>::empty()).last() == parts[n].last());
        }
        if n > 0 {
            lemma_at(le, self.items@, item, n - 1, n - 1);
        }
        lemma_rank(le, self.items@, item, n);
    }

    /// The half of a split node that an item goes to is not full, and
    /// putting the item into it takes as many nodes as the half is high,
    /// where the node was blocked for the item before it was split.
    pub(crate) proof fn lemma_half_needs(
        whole: Node<T>,
        left: Node<T>,
        m: T,
        right: Node<T>,
        le: spec_fn(T, T) -> bool,
        item: T,
        h: nat,
        cap: nat,
    )
        requires
            total_preorder(le),
            cap >= 3,
            whole.shape(h, cap, cap),
            sorted(le, whole.items@),
            whole.blocked(le, item, h, cap),
            halved(whole, left, m, right, cap),
        ensures
            !equiv(le, m, item),
            lt(le, item, m) ==> !left.blocked(le, item, h, cap) && left.needs(le, item, h, cap)
                == h,
            lt(le, m, item) ==> !right.blocked(le, item, h, cap) && right.needs(le, item, h, cap)
                == h,
    {
        let mid = (cap / 2) as int;
        let xs = whole.items@;
        let i = first_at_least(le, xs, item);
        lemma_rank_part(le, xs, item, 0, mid);
        lemma_rank_part(le, xs, item, mid + 1, xs.len() as int);
        assert(xs.take(mid) =~= xs.subrange(0, mid));
        assert(xs.skip(mid + 1) =~= xs.subrange(mid + 1, xs.len() as int));
        let (a, b) = lemma_pivot_range(le, xs, item);
        if a < xs.len() {
            lemma_order(le, item, xs[a], item);
        }
        lemma_rank(le, xs, item, a);
        lemma_order(le, item, m, item);
        if mid < a {
            lemma_at(le, xs.take(a), item, mid, mid);
        } else if mid >= b {
            lemma_at(le, xs.skip(b), item, mid - b, mid - b);
        }
    }

    /// Splits a full node in two: this node keeps the lower half, the middle
    /// item and a fresh node with the upper half are returned.
    pub(crate) fn split(&mut self, Ghost(h): Ghost<nat>, Ghost(cap): Ghost<nat>) -> (r: (
        T,
        Node<T>,
    ))
        requires
            old(self).shape(h, cap, cap),
            cap >= 3,
            cap % 2 == 1,
        ensures
            old(self)@ == final(self)@ + seq![r.0] + r.1@,
            final(self).shape(h, cap, cap / 2),
            r.1.shape(h, cap, cap / 2),
            final(self).items@.len() == cap / 2,
            r.1.items@.len() == cap / 2,
            halved(*old(self), *final(self), r.0, r.1, cap),
    {
        let mid = self.items.len() / 2;
        let right_items = self.items.split_off(mid + 1);
        let m = self.items.remove(mid);
        let mut right = Node::vacant();
        right.items = right_items;
        if self.children.len() > 0 {
            right.children = self.children.split_off(mid + 1);
        }
        proof {
            let xs = old(self).items@;
            old(self).lemma_view();
            self.lemma_view();
            right.lemma_view();
            assert(self.items@ =~= xs.take(mid as int));
            assert(right.items@ =~= xs.skip(mid + 1));
            if h == 0 {
                assert(xs =~= xs.take(mid as int) + seq![xs[mid as int]] + xs.skip(mid + 1));
            } else {
                let ps = old(self).parts();
                lemma_join_split(ps, xs, mid as int);
                assert(self.parts() =~= ps.take(mid + 1));
                assert(right.parts() =~= ps.skip(mid + 1));
                assert(self.children@ =~= old(self).children@.take(mid + 1));
                assert(right.children@ =~= old(self).children@.skip(mid + 1));
            }
        }
        (m, right)
    }

    /// Puts `item` into the subtree of child `j`, where it belongs.
    pub(crate) fn put_below<C: Fn(&T, &T) -> Sign>(
        &mut self,
        j: usize,
        item: T,
        c: &C,
        Ghost(le): Ghost<spec_fn(T, T) -> bool>,
        Ghost(h): Ghost<nat>,
        cap: usize,
        Ghost(lo): Ghost<nat>,
        allocator: &mut NodeAllocator,
        hint: &mut u64,
        depth: usize,
    ) -> (r: PutOutcome<T>)
        requires
            decides(*c, le),
            total_preorder(le),
            h > 0,
            old(self).shape(h, cap as nat, lo),
            sorted(le, old(self)@),
            3 <= cap < usize::MAX,
            cap % 2 == 1,
            j <= old(self).items@.len(),
            j > 0 ==> lt(le, old(self).items@[j - 1], item),
            j < old(self).items@.len() ==> lt(le, item, old(self).items@[j as int]),
            depth <= HINT_LEVELS,
        ensures
            final(self).shape(h, cap as nat, lo),
            final(self).items@ == old(self).items@,
            routed(
                *old(hint),
                *final(hint),
                deeper_spec(depth),
                final(self).children@[j as int].route(le, item, (h - 1) as nat),
            ),
            !(r is Replaced) ==> final(self).children@[j as int].route(
                le,
                item,
                (h - 1) as nat,
            ).len() == h,
            put_ended(le, old(self)@, final(self)@, item, r),
            r is Full ==> old(self).children@[j as int].items@.len() == cap,
            r is Full ==> final(self).children@[j as int].items@.len() == cap,
            put_drew(r, old(allocator).remaining(), final(allocator).remaining(), (h - 1) as nat),
            r is Full <==> old(self).children@[j as int].blocked(
                le,
                item,
                (h - 1) as nat,
                cap as nat,
            ),
            r is Full ==> final(self).children@[j as int].blocked(
                le,
                item,
                (h - 1) as nat,
                cap as nat,
            ),
            !(r is Full) ==> put_drew_exactly(
                r,
                old(allocator).remaining(),
                final(allocator).remaining(),
                old(self).children@[j as int].needs(le, item, (h - 1) as nat, cap as nat),
            ),
        decreases h, 0nat,
    {
        let ghost x = item;
        let ghost parts = self.parts();
        let ghost items = self.items@;
        let ghost cv = self.children@[j as int]@;
        proof {
            self.lemma_view();
            lemma_join_part(parts, items, j as int, cv);
            lemma_descend(
                le,
                before(parts, items, j as int),
                cv,
                behind(parts, items, j as int),
                x,
            );
        }
        let r = self.children[j].put(
            item,
            c,
            Ghost(le),
            Ghost((h - 1) as nat),
            cap,
            Ghost(cap as nat / 2),
            allocator,
            hint,
            deeper(depth),
        );
        proof {
            let nv = self.children@[j as int]@;
            assert(self.parts() =~= parts.update(j as int, nv));
            self.lemma_view();
            lemma_join_part(parts, items, j as int, nv);
        }
        r
    }

    /// Puts `item` in the place of item `i`, which is equivalent to it, and
    /// hands back the item that was there.
    pub(crate) fn replace_item(
        &mut self,
        i: usize,
        item: T,
        Ghost(le): Ghost<spec_fn(T, T) -> bool>,
        Ghost(h): Ghost<nat>,
        Ghost(cap): Ghost<nat>,
        Ghost(lo): Ghost<nat>,
    ) -> (prev: T)
        requires
            total_preorder(le),
            old(self).shape(h, cap, lo),
            sorted(le, old(self)@),
            i < old(self).items@.len(),
            equiv(le, old(self).items@[i as int], item),
        ensures
            final(self).shape(h, cap, lo),
            final(self).items@ == old(self).items@.update(i as int, item),
            final(self).children == old(self).children,
            final(self)@ == inserted(le, old(self)@, item),
            found(le, old(self)@, item) == Some(prev),
            prev == old(self).items@[i as int],
            first_at_least(le, final(self).items@, item) == i,
            found(le, final(self).items@, item) is Some,
    {
        let ghost parts = self.parts();
        let ghost items = self.items@;
        let mut it = item;
        core::mem::swap(&mut self.items[i], &mut it);
        proof {
            old(self).lemma_view();
            self.lemma_view();
            old(self).lemma_items_sorted(le, h, cap, lo);
            lemma_present_at(le, items, item, i as int);
            lemma_order(le, item, item, item);
            if i > 0 {
                lemma_at(le, items, item, i - 1, i as int);
                lemma_order(le, items[i - 1], items[i as int], item);
            }
            lemma_rank(le, items.update(i as int, item), item, i as int);
            if h == 0 {
            } else {
                lemma_join_pair(parts, items, i as int);
                lemma_join_pair_update(parts, items, i as int, parts[i as int], item, parts[i + 1]);
                assert(parts.update(i as int, parts[i as int]).update(i + 1, parts[i + 1])
                    =~= parts);
                let a = before(parts, items, i as int) + parts[i as int];
                let b = parts[i + 1] + behind(parts, items, i + 1);
                assert(a + seq![items[i as int]] + b =~= before(parts, items, i as int) + (
                parts[i as int] + seq![items[i as int]] + parts[i + 1]) + behind(
                    parts,
                    items,
                    i + 1,
                ));
                assert(a + seq![item] + b =~= before(parts, items, i as int) + (parts[i as int]
                    + seq![item] + parts[i + 1]) + behind(parts, items, i + 1));
                lemma_hit(le, a, items[i as int], b, item);
            }
        }
        it
    }

    /// Splits the full child `i` and takes up the item that comes out of it,
    /// with the fresh node as child `i + 1`.
    pub(crate) fn split_child(
        &mut self,
        i: usize,
        Ghost(h): Ghost<nat>,
        Ghost(cap): Ghost<nat>,
        Ghost(lo): Ghost<nat>,
    )
        requires
            h > 0,
            cap >= 3,
            cap % 2 == 1,
            old(self).shape(h, cap, lo),
            old(self).items@.len() < cap,
            i <= old(self).items@.len(),
            old(self).children@[i as int].items@.len() == cap,
        ensures
            final(self).shape(h, cap, lo),
            final(self)@ == old(self)@,
            final(self).items@ == old(self).items@.insert(i as int, final(self).items@[i as int]),
            final(self).children@.len() == old(self).children@.len() + 1,
            final(self).children@[i as int].items@.len() == cap / 2,
            final(self).children@[i + 1].items@.len() == cap / 2,
            old(self).children@[i as int]@ == final(self).children@[i as int]@ + seq![
                final(self).items@[i as int],
            ] + final(self).children@[i + 1]@,
            halved(
                old(self).children@[i as int],
                final(self).children@[i as int],
                final(self).items@[i as int],
                final(self).children@[i + 1],
                cap,
            ),
    {
        let ghost parts = self.parts();
        let ghost items = self.items@;
        let ghost cv = self.children@[i as int]@;
        proof {
            self.lemma_view();
            self.children@[i as int].lemma_shape_lo((h - 1) as nat, cap, cap / 2, cap);
        }
        let (m, right) = self.children[i].split(Ghost((h - 1) as nat), Ghost(cap));
        let ghost lv = self.children@[i as int]@;
        assert(i < self.children.len());
        self.items.insert(i, m);
        self.children.insert(i + 1, right);
        proof {
            lemma_join_part(parts, items, i as int, cv);
            lemma_join_pair_split(parts, items, i as int, lv, m, right@);
            assert(self.parts() =~= parts.update(i as int, lv).insert(i + 1, right@));
            self.lemma_view();
        }
    }

    /// Puts `item`, which this leaf does not hold, at position `i`, where
    /// it belongs, unless the leaf is full.
    pub(crate) fn put_leaf(
        &mut self,
        i: usize,
        item: T,
        Ghost(le): Ghost<spec_fn(T, T) -> bool>,
        cap: usize,
        Ghost(lo): Ghost<nat>,
    ) -> (r: PutOutcome<T>)
        requires
            total_preorder(le),
            old(self).shape(0, cap as nat, lo),
            sorted(le, old(self)@),
            i <= old(self).items@.len(),
            i > 0 ==> lt(le, old(self).items@[i - 1], item),
            i < old(self).items@.len() ==> lt(le, item, old(self).items@[i as int]),
        ensures
            final(self).shape(0, cap as nat, lo),
            found(le, old(self)@, item) is None,
            first_at_least(le, final(self).items@, item) == i,
            put_ended(le, old(self)@, final(self)@, item, r),
            r is Full ==> old(self).items@.len() == cap && final(self).items@.len() == cap,
            r is Full ==> final(self).items@ == old(self).items@,
            r is Inserted || r is Full,
            r is Full <==> old(self).items@.len() == cap,
    {
        proof {
            self.lemma_view();
            lemma_absent_at(le, self.items@, item, i as int);
            lemma_order(le, item, item, item);
            if i < self.items@.len() {
                lemma_order(le, item, self.items@[i as int], item);
            }
            lemma_rank(le, self.items@, item, i as int);
        }
        if self.items.len() >= cap {
            return PutOutcome::Full(item);
        }
        self.items.insert(i, item);
        proof {
            self.lemma_view();
            lemma_rank(le, self.items@, item, i as int);
        }
        PutOutcome::Inserted
    }

    /// Makes room below for `item`, which belongs under the full child `i`:
    /// splits that child, unless this node is full too or the allocator
    /// refuses, and puts the item into the half where it belongs.
    pub(crate) fn put_split<C: Fn(&T, &T) -> Sign>(
        &mut self,
        i: usize,
        item: T,
        c: &C,
        Ghost(le): Ghost<spec_fn(T, T) -> bool>,
        Ghost(h): Ghost<nat>,
        cap: usize,
        Ghost(lo): Ghost<nat>,
        allocator: &mut NodeAllocator,
        hint: &mut u64,
        depth: usize,
    ) -> (r: PutOutcome<T>)
        requires
            decides(*c, le),
            total_preorder(le),
            h > 0,
            old(self).shape(h, cap as nat, lo),
            sorted(le, old(self)@),
            3 <= cap < usize::MAX,
            cap % 2 == 1,
            i <= old(self).items@.len(),
            i > 0 ==> lt(le, old(self).items@[i - 1], item),
            i < old(self).items@.len() ==> lt(le, item, old(self).items@[i as int]),
            old(self).children@[i as int].items@.len() == cap,
            old(self).children@[i as int].blocked(le, item, (h - 1) as nat, cap as nat),
            found(le, old(self)@, item) is None,
            depth <= HINT_LEVELS,
        ensures
            r is Full <==> old(self).items@.len() == cap,
            r is Full ==> *final(self) == *old(self),
            !(r is Full) ==> put_drew_exactly(
                r,
                old(allocator).remaining(),
                final(allocator).remaining(),
                h,
            ),
            (*final(hint) == *old(hint) && *final(self) == *old(self)) || (routed(
                *old(hint),
                *final(hint),
                depth,
                final(self).route(le, item, h),
            ) && final(self).route(le, item, h).len() == h + 1),
            final(self).shape(h, cap as nat, lo),
            put_ended(le, old(self)@, final(self)@, item, r),
            r is Full ==> old(self).items@.len() == cap && final(self).items@.len() == cap,
            put_drew(r, old(allocator).remaining(), final(allocator).remaining(), h),
        decreases h, 1nat,
    {
        if self.items.len() >= cap {
            return PutOutcome::Full(item);
        }
        if !allocator.grant() {
            return PutOutcome::NoMemory(item);
        }
        let ghost parts = self.parts();
        let ghost items = self.items@;
        let ghost cv = self.children@[i as int]@;
        proof {
            self.lemma_view();
            lemma_join_part(parts, items, i as int, cv);
            lemma_descend(
                le,
                before(parts, items, i as int),
                cv,
                behind(parts, items, i as int),
                item,
            );
        }
        let ghost whole = self.children@[i as int];
        proof {
            whole.lemma_shape_lo((h - 1) as nat, cap as nat, cap as nat / 2, cap as nat);
            whole.lemma_items_sorted(le, (h - 1) as nat, cap as nat, cap as nat);
        }
        self.split_child(i, Ghost(h), Ghost(cap as nat), Ghost(lo));
        let side = c(&item, &self.items[i]);
        proof {
            let m = self.items@[i as int];
            if equiv(le, m, item) {
                lemma_hit(le, self.children@[i as int]@, m, self.children@[i + 1]@, item);
            }
            lemma_order(le, item, m, item);
            Self::lemma_half_needs(
                whole,
                self.children@[i as int],
                m,
                self.children@[i + 1],
                le,
                item,
                (h - 1) as nat,
                cap as nat,
            );
        }
        let j = match side {
            Sign::Below => i,
            _ => i + 1,
        };
        hint_record(hint, depth, j);
        let ghost mid = *hint;
        proof {
            self.lemma_items_sorted(le, h, cap as nat, lo);
            lemma_order(le, item, self.items@[i as int], item);
            if j < self.items@.len() {
                lemma_order(le, item, self.items@[j as int], item);
            }
            lemma_rank(le, self.items@, item, j as int);
        }
        let r = self.put_below(
            j,
            item,
            c,
            Ghost(le),
            Ghost(h),
            cap,
            Ghost(lo),
            allocator,
            hint,
            depth,
        );
        proof {
            lemma_routed_step(
                *old(hint),
                mid,
                *hint,
                depth,
                j as nat,
                self.children@[j as int].route(le, item, (h - 1) as nat),
            );
        }
        r
    }

    /// Puts `item` into this subtree: in place of the item equivalent to it,
    /// or as a further item where no node on the way is full. A full child is
    /// split, if this node has room for the item that comes up, and the item
    /// then goes into the half where it belongs.
    pub(crate) fn put<C: Fn(&T, &T) -> Sign>(
        &mut self,
        item: T,
        c: &C,
        Ghost(le): Ghost<spec_fn(T, T) -> bool>,
        Ghost(h): Ghost<nat>,
        cap: usize,
        Ghost(lo): Ghost<nat>,
        allocator: &mut NodeAllocator,
        hint: &mut u64,
        depth: usize,
    ) -> (r: PutOutcome<T>)
        requires
            decides(*c, le),
            total_preorder(le),
            old(self).shape(h, cap as nat, lo),
            sorted(le, old(self)@),
            3 <= cap < usize::MAX,
            cap % 2 == 1,
            depth <= HINT_LEVELS,
        ensures
            final(self).shape(h, cap as nat, lo),
            routed(*old(hint), *final(hint), depth, final(self).route(le, item, h)),
            !(r is Replaced) ==> final(self).route(le, item, h).len() == h + 1,
            r is Full <==> old(self).blocked(le, item, h, cap as nat),
            r is Full ==> final(self).blocked(le, item, h, cap as nat),
            !(r is Full) ==> put_drew_exactly(
                r,
                old(allocator).remaining(),
                final(allocator).remaining(),
                old(self).needs(le, item, h, cap as nat),
            ),
            put_ended(le, old(self)@, final(self)@, item, r),
            r is Full ==> old(self).items@.len() == cap && final(self).items@.len() == cap,
            put_drew(r, old(allocator).remaining(), final(allocator).remaining(), h),
        decreases h, 2nat,
    {
        proof {
            self.lemma_items_sorted(le, h, cap as nat, lo);
        }
        let (hit, i) = self.search(&item, c, Ghost(le), hint, depth);
        let ghost mid = *hint;
        proof {
            lemma_routed_none(mid, deeper_spec(depth));
            lemma_routed_step(*old(hint), mid, mid, depth, i as nat, Seq::empty());
            assert(seq![i as nat] + Seq::empty() =~= seq![i as nat]);
        }
        if hit {
            let prev = self.replace_item(
                i,
                item,
                Ghost(le),
                Ghost(h),
                Ghost(cap as nat),
                Ghost(lo),
            );
            assert(self.route(le, item, h) == seq![i as nat]);
            PutOutcome::Replaced(prev)
        } else if self.children.len() == 0 {
            let r = self.put_leaf(i, item, Ghost(le), cap, Ghost(lo));
            assert(self.route(le, item, h) == seq![i as nat]);
            r
        } else {
            let r = self.put_below(
                i,
                item,
                c,
                Ghost(le),
                Ghost(h),
                cap,
                Ghost(lo),
                allocator,
                hint,
                depth,
            );
            let ghost then = *hint;
            let ghost was = *self;
            let ghost first = self.route(le, item, h);
            proof {
                lemma_routed_step(
                    *old(hint),
                    mid,
                    then,
                    depth,
                    i as nat,
                    self.children@[i as int].route(le, item, (h - 1) as nat),
                );
                self.lemma_route_len(le, item, h);
                assert(first == seq![i as nat] + self.children@[i as int].route(
                    le,
                    item,
                    (h - 1) as nat,
                ));
            }
            match r {
                PutOutcome::Full(item) => {
                    let r = self.put_split(
                        i,
                        item,
                        c,
                        Ghost(le),
                        Ghost(h),
                        cap,
                        Ghost(lo),
                        allocator,
                        hint,
                        depth,
                    );
                    proof {
                        if !(*hint == then && *self == was) {
                            lemma_routed_over(
                                *old(hint),
                                then,
                                *hint,
                                depth,
                                first,
                                self.route(le, item, h),
                            );
                        }
                    }
                    r
                },
                other => other,
            }
        }
    }

    /// Puts `item` behind the largest item of the subtree of the last child.
    pub(crate) fn append_below<C: Fn(&T, &T) -> Sign>(
        &mut self,
        item: T,
        c: &C,
        Ghost(le): Ghost<spec_fn(T, T) -> bool>,
        Ghost(h): Ghost<nat>,
        cap: usize,
        Ghost(lo): Ghost<nat>,
        allocator: &mut NodeAllocator,
    ) -> (r: AppendOutcome<T>)
        requires
            decides(*c, le),
            total_preorder(le),
            h > 0,
            old(self).shape(h, cap as nat, lo),
            sorted(le, old(self)@),
            3 <= cap < usize::MAX,
            cap % 2 == 1,
        ensures
            final(self).shape(h, cap as nat, lo),
            final(self).items@ == old(self).items@,
            r is Full ==> fits_behind(le, old(self)@, item),
            fits_behind(le, old(self)@, item) ==> (r is Full <==> old(self).children@[old(self)
                .items@.len() as int].blocked(le, item, (h - 1) as nat, cap as nat)),
            r is Full ==> final(self).children@[old(self).items@.len() as int].blocked(
                le,
                item,
                (h - 1) as nat,
                cap as nat,
            ),
            r is Misfit ==> final(self).blocked(le, item, h, cap as nat) == old(self).blocked(
                le,
                item,
                h,
                cap as nat,
            ) && final(self).needs(le, item, h, cap as nat) == old(self).needs(
                le,
                item,
                h,
                cap as nat,
            ),
            r is Appended || r is NoMemory ==> append_drew_exactly(
                r,
                old(allocator).remaining(),
                final(allocator).remaining(),
                old(self).children@[old(self).items@.len() as int].needs(
                    le,
                    item,
                    (h - 1) as nat,
                    cap as nat,
                ),
            ),
            append_ended(le, old(self)@, final(self)@, item, r),
            r is Full ==> old(self).children@[old(self).items@.len() as int].items@.len() == cap
                && final(self).children@[old(self).items@.len() as int].items@.len() == cap,
            append_drew(
                r,
                old(allocator).remaining(),
                final(allocator).remaining(),
                (h - 1) as nat,
            ),
        decreases h, 0nat,
    {
        let n = self.items.len();
        let ghost parts = self.parts();
        let ghost items = self.items@;
        let ghost cv = self.children@[n as int]@;
        proof {
            self.lemma_view();
            self.children@[n as int].lemma_len((h - 1) as nat, cap as nat, cap as nat / 2);
            self.lemma_part_sorted(le, h, cap as nat, lo, n as int);
            if fits_behind(le, self@, item) {
                self.lemma_fits_rank(le, item, h, cap as nat, lo);
            }
        }
        let r = self.children[n].append(
            item,
            c,
            Ghost(le),
            Ghost((h - 1) as nat),
            cap,
            Ghost(cap as nat / 2),
            allocator,
        );
        proof {
            let nv = self.children@[n as int]@;
            assert(self.parts() =~= parts.update(n as int, nv));
            self.lemma_view();
            lemma_join_part(parts, items, n as int, cv);
            lemma_join_part(parts, items, n as int, nv);
            lemma_behind_step(parts, items, n as int);
            let a = before(parts, items, n as int);
            let e = Seq::<T>::empty();
            assert((a + cv + e).last() == cv.last());
            assert(a + cv.push(item) + e =~= (a + cv + e).push(item));
        }
        r
    }

    /// Makes room on the right edge for `item`, which sorts after every item:
    /// splits the full last child, unless this node is full too or the
    /// allocator refuses, and puts the item behind the upper half.
    pub(crate) fn append_split<C: Fn(&T, &T) -> Sign>(
        &mut self,
        item: T,
        c: &C,
        Ghost(le): Ghost<spec_fn(T, T) -> bool>,
        Ghost(h): Ghost<nat>,
        cap: usize,
        Ghost(lo): Ghost<nat>,
        allocator: &mut NodeAllocator,
    ) -> (r: AppendOutcome<T>)
        requires
            decides(*c, le),
            total_preorder(le),
            h > 0,
            old(self).shape(h, cap as nat, lo),
            3 <= cap < usize::MAX,
            cap % 2 == 1,
            sorted(le, old(self)@),
            old(self).children@[old(self).items@.len() as int].items@.len() == cap,
            old(self).children@[old(self).items@.len() as int].blocked(
                le,
                item,
                (h - 1) as nat,
                cap as nat,
            ),
            fits_behind(le, old(self)@, item),
        ensures
            final(self).shape(h, cap as nat, lo),
            r is Full <==> old(self).items@.len() == cap,
            r is Full ==> *final(self) == *old(self),
            !(r is Full) ==> append_drew_exactly(
                r,
                old(allocator).remaining(),
                final(allocator).remaining(),
                h,
            ),
            append_ended(le, old(self)@, final(self)@, item, r),
            r is Full ==> old(self).items@.len() == cap && final(self).items@.len() == cap,
            !(r is Misfit),
            append_drew(r, old(allocator).remaining(), final(allocator).remaining(), h),
        decreases h, 1nat,
    {
        let n = self.items.len();
        if n >= cap {
            return AppendOutcome::Full(item);
        }
        if !allocator.grant() {
            return AppendOutcome::NoMemory(item);
        }
        let ghost whole = self.children@[n as int];
        proof {
            self.lemma_fits_rank(le, item, h, cap as nat, lo);
            self.lemma_part_sorted(le, h, cap as nat, lo, n as int);
            whole.lemma_shape_lo((h - 1) as nat, cap as nat, cap as nat / 2, cap as nat);
            whole.lemma_fits_rank(le, item, (h - 1) as nat, cap as nat, cap as nat);
            whole.lemma_items_sorted(le, (h - 1) as nat, cap as nat, cap as nat);
            lemma_at(le, whole.items@, item, cap as int / 2, cap as int / 2);
        }
        self.split_child(n, Ghost(h), Ghost(cap as nat), Ghost(lo));
        proof {
            Self::lemma_half_needs(
                whole,
                self.children@[n as int],
                self.items@[n as int],
                self.children@[n + 1],
                le,
                item,
                (h - 1) as nat,
                cap as nat,
            );
        }
        self.append_below(item, c, Ghost(le), Ghost(h), cap, Ghost(lo), allocator)
    }

    /// Puts `item` behind the largest item of this subtree, if it sorts
    /// after that item, without searching: the way leads along the right edge,
    /// and a full node on it is split as in `put`. Hands the item back if it
    /// does not sort after the largest item, or if there is no item at all.
    pub(crate) fn append<C: Fn(&T, &T) -> Sign>(
        &mut self,
        item: T,
        c: &C,
        Ghost(le): Ghost<spec_fn(T, T) -> bool>,
        Ghost(h): Ghost<nat>,
        cap: usize,
        Ghost(lo): Ghost<nat>,
        allocator: &mut NodeAllocator,
    ) -> (r: AppendOutcome<T>)
        requires
            decides(*c, le),
            total_preorder(le),
            old(self).shape(h, cap as nat, lo),
            sorted(le, old(self)@),
            3 <= cap < usize::MAX,
            cap % 2 == 1,
        ensures
            final(self).shape(h, cap as nat, lo),
            r is Full <==> fits_behind(le, old(self)@, item) && old(self).blocked(
                le,
                item,
                h,
                cap as nat,
            ),
            r is Full ==> final(self).blocked(le, item, h, cap as nat),
            r is Misfit ==> final(self).blocked(le, item, h, cap as nat) == old(self).blocked(
                le,
                item,
                h,
                cap as nat,
            ) && final(self).needs(le, item, h, cap as nat) == old(self).needs(
                le,
                item,
                h,
                cap as nat,
            ),
            r is Appended || r is NoMemory ==> append_drew_exactly(
                r,
                old(allocator).remaining(),
                final(allocator).remaining(),
                old(self).needs(le, item, h, cap as nat),
            ),
            append_ended(le, old(self)@, final(self)@, item, r),
            r is Full ==> old(self).items@.len() == cap && final(self).items@.len() == cap,
            append_drew(r, old(allocator).remaining(), final(allocator).remaining(), h),
        decreases h, 2nat,
    {
        let n = self.items.len();
        proof {
            self.lemma_view();
            if fits_behind(le, self@, item) {
                self.lemma_fits_rank(le, item, h, cap as nat, lo);
            }
        }
        if self.children.len() == 0 {
            if n == 0 {
                return AppendOutcome::Misfit(item);
            }
            proof {
                lemma_order(le, item, self.items@[n - 1], item);
            }
            match c(&item, &self.items[n - 1]) {
                Sign::Above => {
                    if n >= cap {
                        return AppendOutcome::Full(item);
                    }
                    self.items.push(item);
                    proof {
                        self.lemma_view();
                    }
                    AppendOutcome::Appended
                },
                _ => AppendOutcome::Misfit(item),
            }
        } else {
            let r = self.append_below(item, c, Ghost(le), Ghost(h), cap, Ghost(lo), allocator);
            match r {
                AppendOutcome::Full(item) => self.append_split(
                    item,
                    c,
                    Ghost(le),
                    Ghost(h),
                    cap,
                    Ghost(lo),
                    allocator,
                ),
                other => other,
            }
        }
    }
}

} // verus!
