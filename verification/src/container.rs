//! The container: a tree together with the comparator that orders it.
use vstd::prelude::*;
use std::cmp::Ordering;
use crate::action::{acted_downward, acted_upward, acts_on_all, Action};
use crate::budget::{after_grant, drew_at_most, gave_back, less_nodes, usize_to_nat, NodeAllocator};
use crate::compare::{compare_by, follows, lemma_order_of, order_of, sign_of, valid_comparator};
use crate::hint::routed;
use crate::order::{lt, total_preorder, Sign};
use crate::seek::item_of;
use crate::sorted::{
    all_but_first, all_but_last, ascending, descending, found, head, inserted, removed, sorted,
    tail,
};
use crate::take::Target;
use crate::tree::{btree, capacity_for};
use crate::walk::{visits_all, walked};

verus! {

/// An ordered container of items of type `T`, kept in a B-tree and ordered
/// by the comparison function `F`. Two items that compare equal count as the
/// same key: the container holds at most one of them.
#[verifier::reject_recursive_types(T)]
pub struct BTreeC<T, F> {
    btree: btree<T>,
    compare_fn: Box<F>,
    order: Ghost<spec_fn(T, T) -> bool>,
}

impl<T, F> BTreeC<T, F> {
    /// The items in ascending order.
    pub closed spec fn view(&self) -> Seq<T> {
        self.btree@
    }

    /// The order of the items: a total preorder that the comparator follows.
    pub closed spec fn preorder(&self) -> spec_fn(T, T) -> bool {
        self.order@
    }

    /// The comparator follows the order, which is a total preorder, and the
    /// tree is balanced, at least half full in every node but the root, and
    /// strictly sorted in that order.
    pub closed spec fn wf(&self) -> bool where F: Fn(&T, &T) -> Ordering {
        &&& total_preorder(self.order@)
        &&& follows(*self.compare_fn, self.order@)
        &&& self.btree.sound(self.order@)
    }

    /// Whether an allocation has failed.
    pub closed spec fn spec_oom(&self) -> bool {
        self.btree.spec_oom()
    }

    /// The number of edges from the root to a leaf.
    pub closed spec fn spec_height(&self) -> nat {
        self.btree.spec_height()
    }

    /// The most items that a node holds.
    pub closed spec fn spec_max_items(&self) -> nat {
        self.btree.spec_max_items()
    }

    /// The nodes that the allocator may still hand out; `None` when there is
    /// no limit.
    pub closed spec fn spare_nodes(&self) -> Option<nat> {
        self.btree.spare_nodes()
    }

    /// The positions that a search for `key` takes in the nodes from the
    /// root downward: in each node the number of its items that sort before
    /// the key. The search ends in the node that holds an item equivalent to
    /// the key, or else in a leaf.
    pub closed spec fn route(&self, key: T) -> Seq<nat> {
        self.btree.route(self.order@, key)
    }

    /// The route that a walk leaves in a hint: that of its pivot, if it has
    /// one.
    pub open spec fn pivot_route(&self, pivot: Option<T>) -> Seq<nat> {
        match pivot {
            Some(p) => self.route(p),
            None => Seq::empty(),
        }
    }

    /// A route has one position for each level that the search went through.
    pub proof fn lemma_route(&self, key: T)
        ensures
            1 <= self.route(key).len() <= self.spec_height() + 1,
    {
        self.btree.lemma_route(self.order@, key);
    }

    /// The allocator can hand out `k` more nodes.
    pub open spec fn can_allocate(&self, k: nat) -> bool {
        match self.spare_nodes() {
            Some(n) => n >= k,
            None => true,
        }
    }

    /// The nodes that putting `item` into the container takes: one for
    /// each of the full nodes at the lower end of the route of the item, which
    /// have to be split, and one more for a further root if the root is among
    /// them; none where an item equivalent to `item` is there.
    pub closed spec fn nodes_needed(&self, item: T) -> nat {
        self.btree.nodes_needed(self.order@, item)
    }

    /// Putting an item in takes at most two nodes more than the tree is high,
    /// and none where an equivalent item is there.
    pub proof fn lemma_nodes_needed(&self, item: T) where F: Fn(&T, &T) -> Ordering
        requires
            self.wf(),
        ensures
            self.nodes_needed(item) <= self.spec_height() + 2,
            found(self.preorder(), self@, item) is Some ==> self.nodes_needed(item) == 0,
    {
        self.btree.lemma_needed(self.order@, item);
    }

    /// What holds of a container before and after an item was put into it:
    /// the order and the node capacity stay. A container that was out of
    /// memory stays so; another one runs out of memory exactly if the
    /// allocator has not the nodes that the item needs. A container that is
    /// out of memory afterwards holds what it held and handed nothing back,
    /// and an allocator that refused is down to less than the two nodes that
    /// a tree needs to grow. Else the item is in, in the place of the
    /// equivalent item that was handed back, or as a further item, and the
    /// allocator has just the needed nodes less. The tree is one higher
    /// afterwards exactly if all nodes on the route of the item were full
    /// and the allocator had the two nodes for the root and its neighbour.
    pub open spec fn was_set(before: Self, after: Self, item: T, r: Option<T>) -> bool {
        &&& after.preorder() == before.preorder()
        &&& after.spec_max_items() == before.spec_max_items()
        &&& before.spec_oom() ==> after.spec_oom()
        &&& !before.spec_oom() ==> (after.spec_oom() <==> !before.can_allocate(
            before.nodes_needed(item),
        ))
        &&& after.spec_oom() ==> r is None && after@ == before@
        &&& !after.spec_oom() ==> r == found(before.preorder(), before@, item) && after@
            == inserted(before.preorder(), before@, item)
        &&& !after.spec_oom() ==> after.spare_nodes() == less_nodes(
            before.spare_nodes(),
            before.nodes_needed(item),
        )
        &&& !before.spec_oom() && after.spec_oom() ==> after.spare_nodes() == Some(0nat)
            || after.spare_nodes() == Some(1nat)
        &&& drew_at_most(before.spare_nodes(), after.spare_nodes(), before.spec_height() + 3)
        &&& after.spec_height() == before.spec_height() || after.spec_height()
            == before.spec_height() + 1
        &&& after.spec_height() == before.spec_height() + 1 <==> !before.spec_oom()
            && before.nodes_needed(item) == before.spec_height() + 2 && before.can_allocate(2)
    }

    /// What holds of a container before and after an item was to be taken
    /// out of it, whichever item: the order and the node capacity stay, and
    /// so does the state of memory. A container that is out of memory holds
    /// what it held and handed nothing back. No node was drawn, and the
    /// height fell by one or not at all, and not where nothing was handed
    /// back.
    pub open spec fn was_taken(before: Self, after: Self, r: Option<T>) -> bool {
        &&& after.preorder() == before.preorder()
        &&& after.spec_max_items() == before.spec_max_items()
        &&& after.spec_oom() == before.spec_oom()
        &&& before.spec_oom() ==> r is None && after@ == before@
        &&& gave_back(before.spare_nodes(), after.spare_nodes())
        &&& after.spec_height() == before.spec_height() || after.spec_height() + 1
            == before.spec_height()
        &&& r is None ==> after.spec_height() == before.spec_height()
    }

    /// A hint changes nothing but the cost: where an item is put into the
    /// same container once with a hint, whatever it holds, and once without,
    /// the same item is handed back, the same items are held afterwards, and
    /// the container is out of memory in both cases or in none.
    pub proof fn lemma_hint_changes_nothing(
        before: Self,
        item: T,
        with_hint: Self,
        r_with_hint: Option<T>,
        without: Self,
        r_without: Option<T>,
    )
        requires
            Self::was_set(before, with_hint, item, r_with_hint),
            Self::was_set(before, without, item, r_without),
        ensures
            r_with_hint == r_without,
            with_hint@ == without@,
            with_hint.spec_oom() == without.spec_oom(),
    {
    }

    /// What well-formedness says of the model: the order is a total
    /// preorder, the items are strictly sorted by it, and an empty container
    /// has height zero.
    pub proof fn lemma_wf(&self) where F: Fn(&T, &T) -> Ordering
        requires
            self.wf(),
        ensures
            total_preorder(self.preorder()),
            sorted(self.preorder(), self@),
            self@.len() <= u64::MAX,
            self.spec_height() <= self@.len(),
            self.spec_max_items() >= 3,
    {
        self.btree.lemma_sound(self.order@);
    }

    /// An empty container ordered by `compare_fn`, with nodes of the default
    /// capacity and an allocator without limit.
    pub fn new(compare_fn: Box<F>) -> (t: Self) where F: Fn(&T, &T) -> Ordering
        requires
            valid_comparator(*compare_fn),
        ensures
            t.wf(),
            t@ == Seq::<T>::empty(),
            t.preorder() == order_of(*compare_fn),
            !t.spec_oom(),
            t.spec_height() == 0,
            t.spec_max_items() == capacity_for(0),
            t.spare_nodes() is None,
    {
        Self::with_allocator(0, NodeAllocator::unlimited(), compare_fn)
    }

    /// An empty container ordered by `compare_fn` whose nodes hold up to
    /// `capacity_for(max_items)` items and come from `allocator`. The root is
    /// asked of the allocator at once; if it refuses, the container is out of
    /// memory from the start.
    pub fn with_allocator(max_items: usize, allocator: NodeAllocator, compare_fn: Box<F>) -> (t:
        Self) where F: Fn(&T, &T) -> Ordering
        requires
            valid_comparator(*compare_fn),
        ensures
            t.wf(),
            t@ == Seq::<T>::empty(),
            t.preorder() == order_of(*compare_fn),
            t.spec_oom() == (allocator.remaining() == Some(0nat)),
            t.spec_height() == 0,
            t.spec_max_items() == capacity_for(max_items),
            t.spare_nodes() == after_grant(allocator.remaining()),
    {
        proof {
            lemma_order_of(*compare_fn);
        }
        Self::with_order(max_items, allocator, compare_fn, Ghost(order_of(*compare_fn)))
    }

    /// As `with_allocator`, for a caller who knows the order by which
    /// `compare_fn` compares: the container is then ordered by `le` itself.
    pub fn with_order(
        max_items: usize,
        allocator: NodeAllocator,
        compare_fn: Box<F>,
        Ghost(le): Ghost<spec_fn(T, T) -> bool>,
    ) -> (t: Self) where F: Fn(&T, &T) -> Ordering
        requires
            total_preorder(le),
            follows(*compare_fn, le),
        ensures
            t.wf(),
            t@ == Seq::<T>::empty(),
            t.preorder() == le,
            t.spec_oom() == (allocator.remaining() == Some(0nat)),
            t.spec_height() == 0,
            t.spec_max_items() == capacity_for(max_items),
            t.spare_nodes() == after_grant(allocator.remaining()),
    {
        BTreeC { btree: btree::empty(max_items, allocator), compare_fn, order: Ghost(le) }
    }

    /// Whether `a` sorts strictly before `b`.
    pub fn less(&self, a: &T, b: &T) -> (r: bool) where F: Fn(&T, &T) -> Ordering
        requires
            self.wf(),
        ensures
            r == lt(self.preorder(), *a, *b),
    {
        match compare_by(&*self.compare_fn, a, b) {
            Sign::Below => true,
            _ => false,
        }
    }

    /// Whether an allocation has failed. From then on the container refuses
    /// every change.
    pub fn oom(&self) -> (r: bool)
        ensures
            r == self.spec_oom(),
    {
        self.btree.oom()
    }

    /// The number of edges from the root to a leaf: zero for an empty tree
    /// and for a single leaf.
    pub fn height(&self) -> (r: u64)
        ensures
            r == self.spec_height(),
    {
        self.btree.height()
    }

    /// The most items that a node holds.
    pub fn max_items(&self) -> (r: usize)
        ensures
            r == self.spec_max_items(),
    {
        self.btree.max_items()
    }

    /// The nodes that the allocator may still hand out; `None` when there is
    /// no limit.
    pub fn nodes_left(&self) -> (r: Option<usize>)
        ensures
            match r {
                Some(k) => self.spare_nodes() == Some(usize_to_nat(k)),
                None => self.spare_nodes() is None,
            },
    {
        self.btree.nodes_left()
    }

    /// The number of items.
    pub fn count(&self) -> (r: u64) where F: Fn(&T, &T) -> Ordering
        requires
            self.wf(),
        ensures
            r == self@.len(),
    {
        proof {
            self.btree.lemma_sound(self.order@);
        }
        self.btree.len()
    }

    /// Puts `item` into the container. If an item equivalent to it is there,
    /// `item` takes its place and the old item is handed back; if not,
    /// `item` is inserted. A container that is out of memory, or runs out of
    /// it on the way, stays as it is and hands back nothing.
    pub fn set(&mut self, item: T) -> (r: Option<T>) where F: Fn(&T, &T) -> Ordering
        requires
            old(self).wf(),
            old(self)@.len() < u64::MAX || found(old(self).preorder(), old(self)@, item) is Some,
        ensures
            final(self).wf(),
            Self::was_set(*old(self), *final(self), item, r),
    {
        let mut hint: u64 = 0;
        self.set_hint(item, &mut hint)
    }

    /// As `set`, with a hint: the search starts from the positions that the
    /// hint holds, and leaves in it the route to the item in the tree as it
    /// is after the call. The hint changes what the search costs, never what
    /// it finds.
    pub fn set_hint(&mut self, item: T, hint: &mut u64) -> (r: Option<T>) where
        F: Fn(&T, &T) -> Ordering,

        requires
            old(self).wf(),
            old(self)@.len() < u64::MAX || found(old(self).preorder(), old(self)@, item) is Some,
        ensures
            final(self).wf(),
            Self::was_set(*old(self), *final(self), item, r),
            routed(
                *old(hint),
                *final(hint),
                0,
                if old(self).spec_oom() {
                    Seq::<nat>::empty()
                } else {
                    final(self).route(item)
                },
            ),
    {
        let f = &self.compare_fn;
        let c = |a: &T, b: &T| -> (r: Sign)
            ensures
                exists|o: Ordering| f.ensures((a, b), o) && r == sign_of(o),
            { compare_by(&**f, a, b) };
        self.btree.put(item, &c, Ghost(self.order@), hint)
    }

    /// The item equivalent to `key`, if the container holds one.
    pub fn get(&self, key: T) -> (r: Option<&T>) where F: Fn(&T, &T) -> Ordering
        requires
            self.wf(),
        ensures
            item_of(r) == found(self.preorder(), self@, key),
    {
        let mut hint: u64 = 0;
        self.get_hint(key, &mut hint)
    }

    /// As `get`, with a hint, which is left with the route of the search.
    pub fn get_hint(&self, key: T, hint: &mut u64) -> (r: Option<&T>) where
        F: Fn(&T, &T) -> Ordering,

        requires
            self.wf(),
        ensures
            item_of(r) == found(self.preorder(), self@, key),
            routed(*old(hint), *final(hint), 0, self.route(key)),
    {
        let f = &self.compare_fn;
        let c = |a: &T, b: &T| -> (r: Sign)
            ensures
                exists|o: Ordering| f.ensures((a, b), o) && r == sign_of(o),
            { compare_by(&**f, a, b) };
        self.btree.find(&key, &c, Ghost(self.order@), hint)
    }

    /// Takes the item equivalent to `key` out of the container and hands it
    /// back, if there is one. A container that is out of memory stays as it
    /// is and hands back nothing.
    pub fn delete(&mut self, key: T) -> (r: Option<T>) where F: Fn(&T, &T) -> Ordering
        requires
            old(self).wf(),
        ensures
            final(self).wf(),
            Self::was_taken(*old(self), *final(self), r),
            !old(self).spec_oom() ==> r == found(old(self).preorder(), old(self)@, key)
                && final(self)@ == removed(old(self).preorder(), old(self)@, key),
    {
        let mut hint: u64 = 0;
        self.delete_hint(key, &mut hint)
    }

    /// As `delete`, with a hint, which is left with the route to the key in
    /// the tree as it was before the call.
    pub fn delete_hint(&mut self, key: T, hint: &mut u64) -> (r: Option<T>) where
        F: Fn(&T, &T) -> Ordering,

        requires
            old(self).wf(),
        ensures
            final(self).wf(),
            Self::was_taken(*old(self), *final(self), r),
            !old(self).spec_oom() ==> r == found(old(self).preorder(), old(self)@, key)
                && final(self)@ == removed(old(self).preorder(), old(self)@, key),
            routed(
                *old(hint),
                *final(hint),
                0,
                if old(self).spec_oom() {
                    Seq::<nat>::empty()
                } else {
                    old(self).route(key)
                },
            ),
    {
        proof {
            self.btree.lemma_route(self.order@, key);
        }
        let f = &self.compare_fn;
        let c = |a: &T, b: &T| -> (r: Sign)
            ensures
                exists|o: Ordering| f.ensures((a, b), o) && r == sign_of(o),
            { compare_by(&**f, a, b) };
        self.btree.take(Target::Key(&key), &c, Ghost(self.order@), hint)
    }

    /// Takes the smallest item out of the container and hands it back.
    pub fn pop_min(&mut self) -> (r: Option<T>) where F: Fn(&T, &T) -> Ordering
        requires
            old(self).wf(),
        ensures
            final(self).wf(),
            Self::was_taken(*old(self), *final(self), r),
            !old(self).spec_oom() ==> r == head(old(self)@),
            !old(self).spec_oom() ==> final(self)@ == all_but_first(old(self)@),
    {
        let mut hint: u64 = 0;
        let f = &self.compare_fn;
        let c = |a: &T, b: &T| -> (r: Sign)
            ensures
                exists|o: Ordering| f.ensures((a, b), o) && r == sign_of(o),
            { compare_by(&**f, a, b) };
        self.btree.take(Target::First, &c, Ghost(self.order@), &mut hint)
    }

    /// Takes the largest item out of the container and hands it back.
    pub fn pop_max(&mut self) -> (r: Option<T>) where F: Fn(&T, &T) -> Ordering
        requires
            old(self).wf(),
        ensures
            final(self).wf(),
            Self::was_taken(*old(self), *final(self), r),
            !old(self).spec_oom() ==> r == tail(old(self)@),
            !old(self).spec_oom() ==> final(self)@ == all_but_last(old(self)@),
    {
        let mut hint: u64 = 0;
        let f = &self.compare_fn;
        let c = |a: &T, b: &T| -> (r: Sign)
            ensures
                exists|o: Ordering| f.ensures((a, b), o) && r == sign_of(o),
            { compare_by(&**f, a, b) };
        self.btree.take(Target::Last, &c, Ghost(self.order@), &mut hint)
    }

    /// The smallest item.
    pub fn min(&self) -> (r: Option<&T>) where F: Fn(&T, &T) -> Ordering
        requires
            self.wf(),
        ensures
            item_of(r) == head(self@),
    {
        self.btree.smallest(Ghost(self.order@))
    }

    /// The largest item.
    pub fn max(&self) -> (r: Option<&T>) where F: Fn(&T, &T) -> Ordering
        requires
            self.wf(),
        ensures
            item_of(r) == tail(self@),
    {
        self.btree.largest(Ghost(self.order@))
    }

    /// Puts `item` into the container as `set` does. Where `item` sorts after
    /// every item and the last leaf has room, it goes there after a single
    /// comparison: this is the fast way to fill a container with items that
    /// arrive in ascending order.
    pub fn load(&mut self, item: T) -> (r: Option<T>) where F: Fn(&T, &T) -> Ordering
        requires
            old(self).wf(),
            old(self)@.len() < u64::MAX || found(old(self).preorder(), old(self)@, item) is Some,
        ensures
            final(self).wf(),
            Self::was_set(*old(self), *final(self), item, r),
    {
        let mut hint: u64 = 0;
        let f = &self.compare_fn;
        let c = |a: &T, b: &T| -> (r: Sign)
            ensures
                exists|o: Ordering| f.ensures((a, b), o) && r == sign_of(o),
            { compare_by(&**f, a, b) };
        self.btree.append(item, &c, Ghost(self.order@), &mut hint)
    }

    /// Hands the items to `iter_fn` in ascending order, from the first that
    /// does not sort before the pivot, or from the smallest where there is
    /// no pivot, until `iter_fn` answers `false`. Says whether the walk came
    /// to its end.
    pub fn ascend<I: FnMut(&T) -> bool>(&self, maybe_pivot: Option<T>, iter_fn: I) -> (done:
        bool) where F: Fn(&T, &T) -> Ordering
        requires
            self.wf(),
            visits_all(iter_fn),
        ensures
            walked(iter_fn, ascending(self.preorder(), self@, maybe_pivot), done),
    {
        let mut hint: u64 = 0;
        self.ascend_hint(maybe_pivot, iter_fn, &mut hint)
    }

    /// As `ascend`, with a hint for the search of the pivot, which is left
    /// with the route of that search.
    pub fn ascend_hint<I: FnMut(&T) -> bool>(
        &self,
        maybe_pivot: Option<T>,
        iter_fn: I,
        hint: &mut u64,
    ) -> (done: bool) where F: Fn(&T, &T) -> Ordering
        requires
            self.wf(),
            visits_all(iter_fn),
        ensures
            walked(iter_fn, ascending(self.preorder(), self@, maybe_pivot), done),
            routed(*old(hint), *final(hint), 0, self.pivot_route(maybe_pivot)),
    {
        let ghost start = maybe_pivot;
        proof {
            match start {
                Some(p) => {
                    self.btree.lemma_route(self.order@, p);
                },
                None => {
                    self.btree.lemma_route(self.order@, arbitrary());
                },
            }
        }
        let f = &self.compare_fn;
        let c = |a: &T, b: &T| -> (r: Sign)
            ensures
                exists|o: Ordering| f.ensures((a, b), o) && r == sign_of(o),
            { compare_by(&**f, a, b) };
        let mut visitor = iter_fn;
        match &maybe_pivot {
            Some(p) => self.btree.walk_up(Some(p), &c, Ghost(self.order@), &mut visitor, hint),
            None => self.btree.walk_up(None, &c, Ghost(self.order@), &mut visitor, hint),
        }
    }

    /// Hands the items to `iter_fn` in descending order, from the last that
    /// does not sort after the pivot, or from the largest where there is no
    /// pivot, until `iter_fn` answers `false`. Says whether the walk came to
    /// its end.
    pub fn descend<I: FnMut(&T) -> bool>(&self, maybe_pivot: Option<T>, iter_fn: I) -> (done:
        bool) where F: Fn(&T, &T) -> Ordering
        requires
            self.wf(),
            visits_all(iter_fn),
        ensures
            walked(iter_fn, descending(self.preorder(), self@, maybe_pivot), done),
    {
        let mut hint: u64 = 0;
        self.descend_hint(maybe_pivot, iter_fn, &mut hint)
    }

    /// As `descend`, with a hint for the search of the pivot, which is left
    /// with the route of that search.
    pub fn descend_hint<I: FnMut(&T) -> bool>(
        &self,
        maybe_pivot: Option<T>,
        iter_fn: I,
        hint: &mut u64,
    ) -> (done: bool) where F: Fn(&T, &T) -> Ordering
        requires
            self.wf(),
            visits_all(iter_fn),
        ensures
            walked(iter_fn, descending(self.preorder(), self@, maybe_pivot), done),
            routed(*old(hint), *final(hint), 0, self.pivot_route(maybe_pivot)),
    {
        let ghost start = maybe_pivot;
        proof {
            match start {
                Some(p) => {
                    self.btree.lemma_route(self.order@, p);
                },
                None => {
                    self.btree.lemma_route(self.order@, arbitrary());
                },
            }
        }
        let f = &self.compare_fn;
        let c = |a: &T, b: &T| -> (r: Sign)
            ensures
                exists|o: Ordering| f.ensures((a, b), o) && r == sign_of(o),
            { compare_by(&**f, a, b) };
        let mut visitor = iter_fn;
        match &maybe_pivot {
            Some(p) => self.btree.walk_down(Some(p), &c, Ghost(self.order@), &mut visitor, hint),
            None => self.btree.walk_down(None, &c, Ghost(self.order@), &mut visitor, hint),
        }
    }

    /// Hands the items to `iter_fn` in ascending order, from
    /// the first that does not sort before the pivot, or from the smallest
    /// where there is no pivot, and does to each item what `iter_fn` answers:
    /// leaves it, takes it out, or puts an equivalent item in its place. The
    /// walk ends when `iter_fn` answers `Stop`. No item is handed over twice
    /// and none is left out. A container that is out of memory is left alone
    /// and `iter_fn` is not called.
    pub fn action_ascend<A: FnMut(&T) -> Action<T>>(
        &mut self,
        maybe_pivot: Option<T>,
        iter_fn: A,
    ) where
        T: Copy,
        F: Fn(&T, &T) -> Ordering,

        requires
            old(self).wf(),
            acts_on_all(iter_fn),
        ensures
            final(self).wf(),
            final(self).preorder() == old(self).preorder(),
            final(self).spec_max_items() == old(self).spec_max_items(),
            final(self).spec_oom() == old(self).spec_oom(),
            old(self).spec_oom() ==> final(self)@ == old(self)@,
            !old(self).spec_oom() ==> acted_upward(
                iter_fn,
                old(self).preorder(),
                old(self)@,
                maybe_pivot,
                final(self)@,
            ),
    {
        let mut hint: u64 = 0;
        self.action_ascend_hint(maybe_pivot, iter_fn, &mut hint)
    }

    /// As `action_ascend`, with a hint for the searches that the walk makes:
    /// one for the pivot, and one after each item to find the next.
    pub fn action_ascend_hint<A: FnMut(&T) -> Action<T>>(
        &mut self,
        maybe_pivot: Option<T>,
        iter_fn: A,
        hint: &mut u64,
    ) where T: Copy, F: Fn(&T, &T) -> Ordering
        requires
            old(self).wf(),
            acts_on_all(iter_fn),
        ensures
            final(self).wf(),
            final(self).preorder() == old(self).preorder(),
            final(self).spec_max_items() == old(self).spec_max_items(),
            final(self).spec_oom() == old(self).spec_oom(),
            old(self).spec_oom() ==> final(self)@ == old(self)@,
            !old(self).spec_oom() ==> acted_upward(
                iter_fn,
                old(self).preorder(),
                old(self)@,
                maybe_pivot,
                final(self)@,
            ),
    {
        if self.btree.oom() {
            return ;
        }
        let f = &self.compare_fn;
        let c = |a: &T, b: &T| -> (r: Sign)
            ensures
                exists|o: Ordering| f.ensures((a, b), o) && r == sign_of(o),
            { compare_by(&**f, a, b) };
        let mut visitor = iter_fn;
        match &maybe_pivot {
            Some(p) => self.btree.act_up(Some(p), &c, Ghost(self.order@), &mut visitor, hint),
            None => self.btree.act_up(None, &c, Ghost(self.order@), &mut visitor, hint),
        }
    }

    /// Hands the items to `iter_fn` in descending order, from
    /// the last that does not sort after the pivot, or from the largest
    /// where there is no pivot, and does to each item what `iter_fn` answers:
    /// leaves it, takes it out, or puts an equivalent item in its place. The
    /// walk ends when `iter_fn` answers `Stop`. No item is handed over twice
    /// and none is left out. A container that is out of memory is left alone
    /// and `iter_fn` is not called.
    pub fn action_descend<A: FnMut(&T) -> Action<T>>(
        &mut self,
        maybe_pivot: Option<T>,
        iter_fn: A,
    ) where
        T: Copy,
        F: Fn(&T, &T) -> Ordering,

        requires
            old(self).wf(),
            acts_on_all(iter_fn),
        ensures
            final(self).wf(),
            final(self).preorder() == old(self).preorder(),
            final(self).spec_max_items() == old(self).spec_max_items(),
            final(self).spec_oom() == old(self).spec_oom(),
            old(self).spec_oom() ==> final(self)@ == old(self)@,
            !old(self).spec_oom() ==> acted_downward(
                iter_fn,
                old(self).preorder(),
                old(self)@,
                maybe_pivot,
                final(self)@,
            ),
    {
        let mut hint: u64 = 0;
        self.action_descend_hint(maybe_pivot, iter_fn, &mut hint)
    }

    /// As `action_descend`, with a hint for the searches that the walk makes:
    /// one for the pivot, and one after each item to find the next.
    pub fn action_descend_hint<A: FnMut(&T) -> Action<T>>(
        &mut self,
        maybe_pivot: Option<T>,
        iter_fn: A,
        hint: &mut u64,
    ) where T: Copy, F: Fn(&T, &T) -> Ordering
        requires
            old(self).wf(),
            acts_on_all(iter_fn),
        ensures
            final(self).wf(),
            final(self).preorder() == old(self).preorder(),
            final(self).spec_max_items() == old(self).spec_max_items(),
            final(self).spec_oom() == old(self).spec_oom(),
            old(self).spec_oom() ==> final(self)@ == old(self)@,
            !old(self).spec_oom() ==> acted_downward(
                iter_fn,
                old(self).preorder(),
                old(self)@,
                maybe_pivot,
                final(self)@,
            ),
    {
        if self.btree.oom() {
            return ;
        }
        let f = &self.compare_fn;
        let c = |a: &T, b: &T| -> (r: Sign)
            ensures
                exists|o: Ordering| f.ensures((a, b), o) && r == sign_of(o),
            { compare_by(&**f, a, b) };
        let mut visitor = iter_fn;
        match &maybe_pivot {
            Some(p) => self.btree.act_down(Some(p), &c, Ghost(self.order@), &mut visitor, hint),
            None => self.btree.act_down(None, &c, Ghost(self.order@), &mut visitor, hint),
        }
    }
}

} // verus!
