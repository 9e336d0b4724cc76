//! Nodes of the tree: their layout, the sequence of items a subtree stands
//! for, and the shape that keeps the tree balanced.
use vstd::prelude::*;
use crate::join::{before, behind, join, lemma_join_len, lemma_join_part};
use crate::order::total_preorder;
use crate::sorted::{
    all_below, first_at_least, found, lemma_bounds_concat, lemma_bounds_empty, lemma_sorted_around,
    lemma_sorted_halves, sorted,
};

verus! {

/// One node: up to `max_items` items in ascending order and, unless it is a
/// leaf, one child more than it has items.
pub struct Node<T> {
    pub(crate) items: Vec<T>,
    pub(crate) children: Vec<Node<T>>,
}

impl<T> Node<T> {
    /// The items of the subtree in ascending order.
    pub closed spec fn view(self) -> Seq<T>
        decreases self,
    {
        if self.children@.len() == 0 {
            self.items@
        } else {
            Self::flat(self.children@, self.items@, self.items@.len())
        }
    }

    /// The first `k` items of a node interleaved with its first `k + 1` subtrees.
    pub closed spec fn flat(cs: Seq<Node<T>>, xs: Seq<T>, k: nat) -> Seq<T>
        decreases cs, k,
    {
        if k >= cs.len() || k > xs.len() {
            Seq::empty()
        } else if k == 0 {
            cs[0].view()
        } else {
            Self::flat(cs, xs, (k - 1) as nat) + seq![xs[k - 1]] + cs[k as int].view()
        }
    }

    /// What each of the nodes `cs` stands for.
    pub(crate) open spec fn views(cs: Seq<Node<T>>) -> Seq<Seq<T>> {
        Seq::new(cs.len(), |i: int| cs[i].view())
    }

    /// What each child stands for.
    pub(crate) open spec fn parts(self) -> Seq<Seq<T>> {
        Self::views(self.children@)
    }

    /// A leaf without items.
    pub(crate) fn vacant() -> (node: Self)
        ensures
            node.items@.len() == 0,
            node.children@.len() == 0,
    {
        Node { items: Vec::new(), children: Vec::new() }
    }

    /// The subtree has height `h`; this node holds between `lo` and `cap`
    /// items and every node below it between `cap / 2` and `cap`.
    pub(crate) open spec fn shape(self, h: nat, cap: nat, lo: nat) -> bool
        decreases h,
    {
        &&& lo <= self.items@.len() <= cap
        &&& if h == 0 {
            self.children@.len() == 0
        } else {
            &&& self.children@.len() == self.items@.len() + 1
            &&& forall|i: int|
                0 <= i < self.children@.len() ==> (#[trigger] self.children@[i]).shape(
                    (h - 1) as nat,
                    cap,
                    cap / 2,
                )
        }
    }

    proof fn lemma_flat(cs: Seq<Node<T>>, xs: Seq<T>, k: nat)
        requires
            k < cs.len(),
            k <= xs.len(),
        ensures
            Self::flat(cs, xs, k) == join(
                Self::views(cs).take(k + 1 as int),
                xs.take(k as int),
            ),
        decreases k,
    {
        let p = Self::views(cs);
        if k > 0 {
            Self::lemma_flat(cs, xs, (k - 1) as nat);
            assert(p.take(k + 1 as int).drop_last() =~= p.take(k as int));
            assert(xs.take(k as int).drop_last() =~= xs.take(k - 1));
        }
    }

    /// As `shape` for an inner node, but of the children `a` and `b` no
    /// least number of items is asked.
    pub(crate) open spec fn shape_except(self, h: nat, cap: nat, lo: nat, a: int, b: int) -> bool {
        &&& h > 0
        &&& lo <= self.items@.len() <= cap
        &&& self.children@.len() == self.items@.len() + 1
        &&& forall|i: int|
            0 <= i < self.children@.len() ==> (#[trigger] self.children@[i]).shape(
                (h - 1) as nat,
                cap,
                if i == a || i == b {
                    0
                } else {
                    cap / 2
                },
            )
    }

    /// A subtree of height `h` holds at least `h` items more than its top
    /// node must hold.
    pub(crate) proof fn lemma_len(self, h: nat, cap: nat, lo: nat)
        requires
            self.shape(h, cap, lo),
            cap >= 2,
        ensures
            self@.len() >= lo + h,
        decreases h,
    {
        self.lemma_view();
        if h > 0 {
            let k = self.items@.len() as int;
            self.children@[k].lemma_len((h - 1) as nat, cap, cap / 2);
            lemma_join_len(self.parts(), self.items@, k);
        }
    }

    /// What a child of a sorted inner node stands for is sorted.
    pub(crate) proof fn lemma_part_sorted(
        self,
        le: spec_fn(T, T) -> bool,
        h: nat,
        cap: nat,
        lo: nat,
        i: int,
    )
        requires
            h > 0,
            self.shape(h, cap, lo),
            sorted(le, self@),
            0 <= i <= self.items@.len(),
        ensures
            sorted(le, self.children@[i]@),
    {
        self.lemma_view();
        let parts = self.parts();
        let items = self.items@;
        lemma_join_part(parts, items, i, parts[i]);
        lemma_sorted_halves(le, before(parts, items, i) + parts[i], behind(parts, items, i));
        lemma_sorted_halves(le, before(parts, items, i), parts[i]);
    }

    /// The positions that a search for `key` takes in the nodes from this
    /// one downward: in each node the number of items that sort before the
    /// key. The search ends in the node that holds an item equivalent to the
    /// key, or else in a leaf.
    pub(crate) open spec fn route(self, le: spec_fn(T, T) -> bool, key: T, h: nat) -> Seq<nat>
        decreases h,
    {
        let i = first_at_least(le, self.items@, key);
        if h == 0 || found(le, self.items@, key) is Some || !(0 <= i < self.children@.len()) {
            seq![i as nat]
        } else {
            seq![i as nat] + self.children@[i].route(le, key, (h - 1) as nat)
        }
    }

    /// A route has at most one position for each level of the subtree.
    pub(crate) proof fn lemma_route_len(self, le: spec_fn(T, T) -> bool, key: T, h: nat)
        ensures
            1 <= self.route(le, key, h).len() <= h + 1,
        decreases h,
    {
        let i = first_at_least(le, self.items@, key);
        if !(h == 0 || found(le, self.items@, key) is Some || !(0 <= i < self.children@.len())) {
            self.children@[i].lemma_route_len(le, key, (h - 1) as nat);
        }
    }

    /// The items of a sorted node are sorted.
    pub(crate) proof fn lemma_items_sorted(
        self,
        le: spec_fn(T, T) -> bool,
        h: nat,
        cap: nat,
        lo: nat,
    )
        requires
            total_preorder(le),
            self.shape(h, cap, lo),
            sorted(le, self@),
        ensures
            sorted(le, self.items@),
    {
        self.lemma_view();
        if h > 0 {
            lemma_join_sorted(le, self.parts(), self.items@);
        }
    }

    /// A shape holds with any lower bound that the number of items meets.
    pub(crate) proof fn lemma_shape_lo(self, h: nat, cap: nat, lo: nat, lo2: nat)
        requires
            self.shape(h, cap, lo),
            lo2 <= self.items@.len(),
        ensures
            self.shape(h, cap, lo2),
    {
    }

    /// A node's view in terms of its items and its children's views.
    pub(crate) proof fn lemma_view(self)
        ensures
            self.children@.len() == 0 ==> self@ == self.items@,
            self.children@.len() == self.items@.len() + 1 ==> self@ == join(
                self.parts(),
                self.items@,
            ),
    {
        if self.children@.len() == self.items@.len() + 1 {
            Self::lemma_flat(self.children@, self.items@, self.items@.len());
            assert(self.parts().take(self.items@.len() + 1 as int) =~= self.parts());
            assert(self.items@.take(self.items@.len() as int) =~= self.items@);
        }
    }
}

/// A bound on what a node stands for bounds the items of the node.
pub proof fn lemma_join_bounded<T>(
    le: spec_fn(T, T) -> bool,
    parts: Seq<Seq<T>>,
    items: Seq<T>,
    y: T,
)
    requires
        parts.len() == items.len() + 1,
        all_below(le, join(parts, items), y),
    ensures
        all_below(le, items, y),
    decreases items.len(),
{
    if items.len() == 0 {
        lemma_bounds_empty(le, items, y);
    } else {
        let rest = join(parts.drop_last(), items.drop_last());
        let m = seq![items.last()];
        lemma_bounds_concat(le, rest + m, parts.last(), y);
        lemma_bounds_concat(le, rest, m, y);
        lemma_join_bounded(le, parts.drop_last(), items.drop_last(), y);
        lemma_bounds_concat(le, items.drop_last(), m, y);
        assert(items.drop_last() + m =~= items);
    }
}

/// The items of a node that stands for a sorted sequence are sorted.
pub proof fn lemma_join_sorted<T>(le: spec_fn(T, T) -> bool, parts: Seq<Seq<T>>, items: Seq<T>)
    requires
        total_preorder(le),
        parts.len() == items.len() + 1,
        sorted(le, join(parts, items)),
    ensures
        sorted(le, items),
    decreases items.len(),
{
    if items.len() == 0 {
        lemma_bounds_empty(le, items, arbitrary());
    } else {
        let rest = join(parts.drop_last(), items.drop_last());
        let m = seq![items.last()];
        let e = Seq::<T>::empty();
        lemma_sorted_halves(le, rest + m, parts.last());
        lemma_sorted_halves(le, rest, m);
        assert(m[0] == items.last());
        lemma_join_sorted(le, parts.drop_last(), items.drop_last());
        lemma_join_bounded(le, parts.drop_last(), items.drop_last(), items.last());
        lemma_bounds_empty(le, e, items.last());
        lemma_sorted_around(le, items.drop_last(), items.last(), e);
        assert(items.drop_last() + m + e =~= items);
    }
}

} // verus!
