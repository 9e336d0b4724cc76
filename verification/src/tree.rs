//! The tree itself: the root node with the number of items, the height, the
//! node capacity and the allocator, and the operations on the whole.
use vstd::prelude::*;
use crate::budget::{after_grant, drew_at_most, gave_back, less_nodes, NodeAllocator};
use crate::hint::{lemma_routed_none, lemma_routed_over, routed};
use crate::insert::{fits_behind, halved, AppendOutcome, PutOutcome};
use crate::join::lemma_join_small;
use crate::node::Node;
use crate::order::{decides, total_preorder, Sign};
use crate::seek::{above, below, item_of};
use crate::sorted::{
    ascending, descending, found, head, inserted, lemma_absent_at, lemma_bounds_empty,
    lemma_sorted_halves, lemma_update_sorted, sorted, tail,
};
use crate::take::{picked, without, Target};
use crate::walk::{pivot_of, visits_all, walked};

verus! {

/// The node capacity that is used where none is asked for.
pub const DEFAULT_MAX_ITEMS: usize = 255;

/// The smallest node capacity: a node must be able to split in two halves
/// around a middle item.
pub const MIN_MAX_ITEMS: usize = 3;

/// The largest node capacity.
pub const MAX_MAX_ITEMS: usize = 4095;

/// The node capacity that a request for `max_items` items per node leads to:
/// the default for zero, otherwise the request brought into the range of
/// capacities and made odd.
pub open spec fn capacity_for(max_items: usize) -> usize {
    if max_items == 0 {
        DEFAULT_MAX_ITEMS
    } else if max_items < MIN_MAX_ITEMS {
        MIN_MAX_ITEMS
    } else if max_items > MAX_MAX_ITEMS {
        MAX_MAX_ITEMS
    } else if max_items % 2 == 0 {
        (max_items - 1) as usize
    } else {
        max_items
    }
}

/// A B-tree of items of type `T`. It owns its nodes; which order the items
/// are in is for the caller of each operation to say.
#[allow(non_camel_case_types)]
pub struct btree<T> {
    pub(crate) root: Node<T>,
    pub(crate) len: u64,
    pub(crate) height: u64,
    pub(crate) max_items: usize,
    pub(crate) oom: bool,
    pub(crate) allocator: NodeAllocator,
}

impl<T> btree<T> {
    /// The items of the tree in ascending order.
    pub closed spec fn view(&self) -> Seq<T> {
        self.root@
    }

    /// The number of items that the tree counts.
    pub closed spec fn spec_len(&self) -> nat {
        self.len as nat
    }

    /// The number of edges from the root to a leaf.
    pub closed spec fn spec_height(&self) -> nat {
        self.height as nat
    }

    /// Whether an allocation has failed.
    pub closed spec fn spec_oom(&self) -> bool {
        self.oom
    }

    /// The most items that a node holds.
    pub closed spec fn spec_max_items(&self) -> nat {
        self.max_items as nat
    }

    /// The nodes that the allocator may still hand out; `None` when there is
    /// no limit.
    pub closed spec fn spare_nodes(&self) -> Option<nat> {
        self.allocator.remaining()
    }

    /// The allocator can hand out `k` more nodes.
    pub open spec fn can_allocate(&self, k: nat) -> bool {
        match self.spare_nodes() {
            Some(n) => n >= k,
            None => true,
        }
    }

    /// The positions that a search for `key` takes in the nodes from the
    /// root downward: in each node the number of its items that sort before
    /// the key. The search ends in the node that holds an item equivalent to
    /// the key, or else in a leaf.
    pub closed spec fn route(&self, le: spec_fn(T, T) -> bool, key: T) -> Seq<nat> {
        self.root.route(le, key, self.height as nat)
    }

    /// The route of the search that a deletion makes: that of the key, or
    /// none where the first or the last item is to go.
    pub closed spec fn target_route(
        &self,
        le: spec_fn(T, T) -> bool,
        target: Target<'_, T>,
    ) -> Seq<nat> {
        self.root.target_route(le, target, self.height as nat)
    }

    /// The route of the search for the pivot of a walk, if it has one.
    pub closed spec fn pivot_route(&self, le: spec_fn(T, T) -> bool, pivot: Option<T>) -> Seq<nat> {
        self.root.pivot_route(le, pivot, self.height as nat)
    }

    /// A route has one position for each level that the search went through.
    pub proof fn lemma_route(&self, le: spec_fn(T, T) -> bool, key: T)
        ensures
            1 <= self.route(le, key).len() <= self.spec_height() + 1,
            self.target_route(le, Target::Key(&key)) == self.route(le, key),
            self.target_route(le, Target::First) == Seq::<nat>::empty(),
            self.target_route(le, Target::Last) == Seq::<nat>::empty(),
            self.pivot_route(le, Some(key)) == self.route(le, key),
            self.pivot_route(le, None) == Seq::<nat>::empty(),
    {
        self.root.lemma_route_len(le, key, self.height as nat);
    }

    /// The nodes that putting `item` into the tree takes: one for each of
    /// the full nodes at the lower end of the route of the item, and one more
    /// if the root is among them; none where an item equivalent to it is
    /// there.
    pub closed spec fn nodes_needed(&self, le: spec_fn(T, T) -> bool, item: T) -> nat {
        if self.root.blocked(le, item, self.height as nat, self.max_items as nat) {
            (self.height + 2) as nat
        } else {
            self.root.needs(le, item, self.height as nat, self.max_items as nat)
        }
    }

    /// Putting an item in takes at most two nodes more than the tree is high,
    /// and none where an equivalent item is there.
    pub proof fn lemma_needed(&self, le: spec_fn(T, T) -> bool, item: T)
        requires
            self.sound(le),
        ensures
            self.nodes_needed(le, item) <= self.spec_height() + 2,
            found(le, self@, item) is Some ==> self.nodes_needed(le, item) == 0,
    {
        self.root.lemma_needs_bound(le, item, self.height as nat, self.max_items as nat);
        if found(le, self@, item) is Some {
            self.root.lemma_found_needs(
                le,
                item,
                self.height as nat,
                self.max_items as nat,
                self.root_lo(),
            );
        }
    }

    /// Putting `item` into the tree `t` makes it one higher: the tree has
    /// memory, all nodes on the route of the item are full, and the allocator
    /// has the two nodes for a further root and its second child.
    pub open spec fn grows(t: Self, le: spec_fn(T, T) -> bool, item: T) -> bool {
        &&& !t.spec_oom()
        &&& t.nodes_needed(le, item) == t.spec_height() + 2
        &&& t.can_allocate(2)
    }

    /// The least number of items that the root must hold.
    pub(crate) open spec fn root_lo(&self) -> nat {
        if self.height > 0 {
            1
        } else {
            0
        }
    }

    /// The tree is balanced, every node but the root is at least half full,
    /// the items are in the strict order of `le`, and their number is right.
    pub closed spec fn sound(&self, le: spec_fn(T, T) -> bool) -> bool {
        &&& total_preorder(le)
        &&& MIN_MAX_ITEMS <= self.max_items <= MAX_MAX_ITEMS
        &&& self.max_items % 2 == 1
        &&& self.root.shape(self.height as nat, self.max_items as nat, self.root_lo())
        &&& sorted(le, self.root@)
        &&& self.len == self.root@.len()
    }

    /// What well-formedness says of the model: the items are sorted, the
    /// stored number is their number, and the height stays below it.
    pub proof fn lemma_sound(&self, le: spec_fn(T, T) -> bool)
        requires
            self.sound(le),
        ensures
            total_preorder(le),
            sorted(le, self@),
            self.spec_len() == self@.len(),
            self@.len() <= u64::MAX,
            self.spec_height() <= self@.len(),
            self@.len() == 0 ==> self.spec_height() == 0,
            self.spec_max_items() >= 3,
    {
        self.root.lemma_len(self.height as nat, self.max_items as nat, self.root_lo());
    }

    /// An empty tree whose nodes hold up to `capacity_for(max_items)` items
    /// and come from `allocator`. The root is asked of the allocator at once.
    pub fn empty(max_items: usize, allocator: NodeAllocator) -> (t: Self)
        ensures
            t@ == Seq::<T>::empty(),
            t.spec_height() == 0,
            t.spec_len() == 0,
            t.spec_max_items() == capacity_for(max_items),
            t.spec_oom() == (allocator.remaining() == Some(0nat)),
            t.spare_nodes() == after_grant(allocator.remaining()),
            forall|le: spec_fn(T, T) -> bool| total_preorder(le) ==> #[trigger] t.sound(le),
    {
        let capacity = if max_items == 0 {
            DEFAULT_MAX_ITEMS
        } else if max_items < MIN_MAX_ITEMS {
            MIN_MAX_ITEMS
        } else if max_items > MAX_MAX_ITEMS {
            MAX_MAX_ITEMS
        } else if max_items % 2 == 0 {
            max_items - 1
        } else {
            max_items
        };
        let mut allocator = allocator;
        let granted = allocator.grant();
        let root = Node::vacant();
        let t = btree { root, len: 0, height: 0, max_items: capacity, oom: !granted, allocator };
        proof {
            t.root.lemma_view();
            assert forall|le: spec_fn(T, T) -> bool| total_preorder(le) implies #[trigger] t.sound(
                le,
            ) by {
                lemma_bounds_empty(le, t.root@, arbitrary());
            }
        }
        t
    }

    /// The number of items.
    pub fn len(&self) -> (n: u64)
        ensures
            n == self.spec_len(),
    {
        self.len
    }

    /// The number of edges from the root to a leaf.
    pub fn height(&self) -> (h: u64)
        ensures
            h == self.spec_height(),
    {
        self.height
    }

    /// Whether an allocation has failed.
    pub fn oom(&self) -> (b: bool)
        ensures
            b == self.spec_oom(),
    {
        self.oom
    }

    /// The nodes that the allocator may still hand out; `None` when there is
    /// no limit.
    pub fn nodes_left(&self) -> (n: Option<usize>)
        ensures
            match n {
                Some(k) => self.spare_nodes() == Some(k as nat),
                None => self.spare_nodes() is None,
            },
    {
        self.allocator.available()
    }

    /// The most items that a node holds.
    pub fn max_items(&self) -> (n: usize)
        ensures
            n == self.spec_max_items(),
    {
        self.max_items
    }
}

impl<T> btree<T> {
    /// Puts a fresh root above the full root, which is split in two; the two
    /// nodes that this takes have been granted.
    pub(crate) fn grow_root(&mut self, Ghost(le): Ghost<spec_fn(T, T) -> bool>)
        requires
            old(self).sound(le),
            old(self).root.items@.len() == old(self).max_items,
            old(self)@.len() < u64::MAX,
        ensures
            final(self).sound(le),
            final(self)@ == old(self)@,
            final(self).height == old(self).height + 1,
            final(self).root.items@.len() == 1,
            final(self).root.children@.len() == 2,
            halved(
                old(self).root,
                final(self).root.children@[0],
                final(self).root.items@[0],
                final(self).root.children@[1],
                old(self).max_items as nat,
            ),
            final(self).max_items == old(self).max_items,
            final(self).oom == old(self).oom,
            final(self).len == old(self).len,
            final(self).allocator == old(self).allocator,
    {
        proof {
            self.lemma_sound(le);
            self.root.lemma_shape_lo(
                self.height as nat,
                self.max_items as nat,
                self.root_lo(),
                self.max_items as nat,
            );
        }
        let (m, right) = self.root.split(Ghost(self.height as nat), Ghost(self.max_items as nat));
        let mut left = Node::vacant();
        core::mem::swap(&mut self.root, &mut left);
        proof {
            lemma_join_small(left@, m, right@);
        }
        self.root.items.push(m);
        self.root.children.push(left);
        self.root.children.push(right);
        self.height = self.height + 1;
        proof {
            self.root.lemma_view();
            assert(self.root.parts() =~= seq![left@, right@]);
            assert(self.root.items@ =~= seq![m]);
        }
    }

    /// Lets a child take the place of a root that has no item left.
    pub(crate) fn shrink_root(&mut self, Ghost(le): Ghost<spec_fn(T, T) -> bool>)
        requires
            old(self).height > 0,
            old(self).root.shape(old(self).height as nat, old(self).max_items as nat, 0),
            old(self).max_items >= 3,
        ensures
            final(self).root@ == old(self).root@,
            final(self).root.shape(
                final(self).height as nat,
                final(self).max_items as nat,
                final(self).root_lo(),
            ),
            final(self).max_items == old(self).max_items,
            final(self).oom == old(self).oom,
            final(self).len == old(self).len,
            final(self).height == old(self).height || final(self).height + 1 == old(self).height,
            gave_back(old(self).allocator.remaining(), final(self).allocator.remaining()),
    {
        if self.root.items.len() == 0 {
            proof {
                self.root.lemma_view();
                lemma_join_small(
                    self.root.children@[0]@,
                    arbitrary(),
                    self.root.children@[0]@,
                );
                assert(self.root.parts() =~= seq![self.root.children@[0]@]);
                self.root.children@[0].lemma_shape_lo(
                    (self.height - 1) as nat,
                    self.max_items as nat,
                    self.max_items as nat / 2,
                    if self.height > 1 {
                        1
                    } else {
                        0
                    },
                );
            }
            let child = self.root.children.pop();
            match child {
                Some(node) => {
                    self.root = node;
                    self.height = self.height - 1;
                    self.allocator.free();
                },
                None => {},
            }
        } else {
            proof {
                self.root.lemma_shape_lo(self.height as nat, self.max_items as nat, 0, 1);
            }
        }
    }

    /// Puts `item` into the tree, in place of the item equivalent to it if
    /// there is one, and hands that item back.
    pub(crate) fn put<C: Fn(&T, &T) -> Sign>(
        &mut self,
        item: T,
        c: &C,
        Ghost(le): Ghost<spec_fn(T, T) -> bool>,
        hint: &mut u64,
    ) -> (r: Option<T>)
        requires
            old(self).sound(le),
            decides(*c, le),
            old(self)@.len() < u64::MAX || found(le, old(self)@, item) is Some,
        ensures
            final(self).sound(le),
            final(self).spec_max_items() == old(self).spec_max_items(),
            old(self).spec_oom() ==> final(self).spec_oom(),
            final(self).spec_oom() ==> r is None && final(self)@ == old(self)@,
            !final(self).spec_oom() ==> r == found(le, old(self)@, item) && final(self)@
                == inserted(le, old(self)@, item),
            !old(self).spec_oom() && (old(self).can_allocate(old(self).spec_height() + 4) || found(
                le,
                old(self)@,
                item,
            ) is Some) ==> !final(self).spec_oom(),
            drew_at_most(
                old(self).spare_nodes(),
                final(self).spare_nodes(),
                old(self).spec_height() + 3,
            ),
            final(self).spec_height() == old(self).spec_height() || final(self).spec_height()
                == old(self).spec_height() + 1,
            !old(self).spec_oom() && final(self).spec_oom() ==> final(self).spare_nodes() == Some(
                0nat,
            ) || final(self).spare_nodes() == Some(1nat),
            !old(self).spec_oom() ==> (final(self).spec_oom() <==> !old(self).can_allocate(
                old(self).nodes_needed(le, item),
            )),
            !final(self).spec_oom() ==> final(self).spare_nodes() == less_nodes(
                old(self).spare_nodes(),
                old(self).nodes_needed(le, item),
            ),
            final(self).spec_height() == old(self).spec_height() + 1 <==> Self::grows(
                *old(self),
                le,
                item,
            ),
            routed(
                *old(hint),
                *final(hint),
                0,
                if old(self).spec_oom() {
                    Seq::<nat>::empty()
                } else {
                    final(self).route(le, item)
                },
            ),
    {
        proof {
            lemma_routed_none(*hint, 0);
        }
        if self.oom {
            return None;
        }
        proof {
            self.lemma_sound(le);
            lemma_update_sorted(le, self@, item);
            self.root.lemma_needs_bound(le, item, self.height as nat, self.max_items as nat);
        }
        let cap = self.max_items;
        let r = self.root.put(
            item,
            c,
            Ghost(le),
            Ghost(self.height as nat),
            cap,
            Ghost(self.root_lo()),
            &mut self.allocator,
            hint,
            0,
        );
        match r {
            PutOutcome::Replaced(prev) => Some(prev),
            PutOutcome::Inserted => {
                self.len = self.len + 1;
                None
            },
            PutOutcome::NoMemory(_) => {
                self.oom = true;
                None
            },
            PutOutcome::Full(item) => {
                let ghost then = *hint;
                let ghost first = self.route(le, item);
                if !self.allocator.grant() {
                    self.oom = true;
                    return None;
                }
                if !self.allocator.grant() {
                    self.allocator.free();
                    self.oom = true;
                    return None;
                }
                let ghost whole = self.root;
                proof {
                    whole.lemma_items_sorted(
                        le,
                        self.height as nat,
                        cap as nat,
                        self.root_lo(),
                    );
                    whole.lemma_shape_lo(
                        self.height as nat,
                        cap as nat,
                        self.root_lo(),
                        cap as nat,
                    );
                }
                self.grow_root(Ghost(le));
                proof {
                    self.root.lemma_grown_needs(
                        whole,
                        le,
                        item,
                        (self.height - 1) as nat,
                        cap as nat,
                    );
                }
                let r2 = self.root.put(
                    item,
                    c,
                    Ghost(le),
                    Ghost(self.height as nat),
                    cap,
                    Ghost(self.root_lo()),
                    &mut self.allocator,
                    hint,
                    0,
                );
                proof {
                    lemma_routed_over(
                        *old(hint),
                        then,
                        *hint,
                        0,
                        first,
                        self.route(le, item),
                    );
                }
                match r2 {
                    PutOutcome::Inserted => {
                        self.len = self.len + 1;
                        None
                    },
                    PutOutcome::Replaced(prev) => Some(prev),
                    _ => {
                        self.oom = true;
                        None
                    },
                }
            },
        }
    }

    /// The item equivalent to `key`, if the tree holds one.
    pub(crate) fn find<'a, C: Fn(&T, &T) -> Sign>(
        &'a self,
        key: &T,
        c: &C,
        Ghost(le): Ghost<spec_fn(T, T) -> bool>,
        hint: &mut u64,
    ) -> (r: Option<&'a T>)
        requires
            self.sound(le),
            decides(*c, le),
        ensures
            item_of(r) == found(le, self@, *key),
            routed(*old(hint), *final(hint), 0, self.route(le, *key)),
    {
        let r = self.root.find(
            key,
            c,
            Ghost(le),
            Ghost(self.height as nat),
            Ghost(self.max_items as nat),
            Ghost(self.root_lo()),
            hint,
            0,
        );
        r
    }

    /// Takes the item that the target names out of the tree and hands it
    /// back.
    pub(crate) fn take<C: Fn(&T, &T) -> Sign>(
        &mut self,
        target: Target<'_, T>,
        c: &C,
        Ghost(le): Ghost<spec_fn(T, T) -> bool>,
        hint: &mut u64,
    ) -> (r: Option<T>)
        requires
            old(self).sound(le),
            decides(*c, le),
        ensures
            final(self).sound(le),
            final(self).spec_max_items() == old(self).spec_max_items(),
            final(self).spec_oom() == old(self).spec_oom(),
            old(self).spec_oom() ==> r is None && final(self)@ == old(self)@,
            !old(self).spec_oom() ==> r == picked(le, old(self)@, target) && final(self)@
                == without(le, old(self)@, target),
            gave_back(old(self).spare_nodes(), final(self).spare_nodes()),
            final(self).spec_height() == old(self).spec_height() || final(self).spec_height() + 1
                == old(self).spec_height(),
            r is None ==> final(self).spec_height() == old(self).spec_height(),
            routed(
                *old(hint),
                *final(hint),
                0,
                if old(self).spec_oom() {
                    Seq::<nat>::empty()
                } else {
                    old(self).target_route(le, target)
                },
            ),
    {
        proof {
            lemma_routed_none(*hint, 0);
        }
        if self.oom {
            return None;
        }
        let ghost s = self@;
        proof {
            self.lemma_sound(le);
            match target {
                Target::Key(k) => {
                    lemma_update_sorted(le, s, *k);
                },
                Target::First => {
                    if s.len() > 0 {
                        assert(s.take(1) + s.skip(1) =~= s);
                        lemma_sorted_halves(le, s.take(1), s.skip(1));
                    }
                },
                Target::Last => {
                    if s.len() > 0 {
                        assert(s.drop_last() + seq![s.last()] =~= s);
                        lemma_sorted_halves(le, s.drop_last(), seq![s.last()]);
                    }
                },
            }
        }
        let cap = self.max_items;
        let r = self.root.take(
            target,
            c,
            Ghost(le),
            Ghost(self.height as nat),
            cap,
            Ghost(self.root_lo()),
            &mut self.allocator,
            hint,
            0,
        );
        if r.is_some() {
            self.len = self.len - 1;
            if self.height > 0 {
                self.shrink_root(Ghost(le));
            }
        }
        r
    }

    /// The smallest item.
    pub(crate) fn smallest(&self, Ghost(le): Ghost<spec_fn(T, T) -> bool>) -> (r: Option<&T>)
        requires
            self.sound(le),
        ensures
            item_of(r) == head(self@),
    {
        self.root.first(
            Ghost(self.height as nat),
            Ghost(self.max_items as nat),
            Ghost(self.root_lo()),
        )
    }

    /// The largest item.
    pub(crate) fn largest(&self, Ghost(le): Ghost<spec_fn(T, T) -> bool>) -> (r: Option<&T>)
        requires
            self.sound(le),
        ensures
            item_of(r) == tail(self@),
    {
        self.root.last(
            Ghost(self.height as nat),
            Ghost(self.max_items as nat),
            Ghost(self.root_lo()),
        )
    }

    /// Puts `item` into the tree as `put` does, but tries first to put it
    /// behind the largest item: where the items arrive in ascending order that
    /// takes one comparison and no search, also where nodes on the right edge
    /// have to be split.
    pub(crate) fn append<C: Fn(&T, &T) -> Sign>(
        &mut self,
        item: T,
        c: &C,
        Ghost(le): Ghost<spec_fn(T, T) -> bool>,
        hint: &mut u64,
    ) -> (r: Option<T>)
        requires
            old(self).sound(le),
            decides(*c, le),
            old(self)@.len() < u64::MAX || found(le, old(self)@, item) is Some,
        ensures
            final(self).sound(le),
            final(self).spec_max_items() == old(self).spec_max_items(),
            old(self).spec_oom() ==> final(self).spec_oom(),
            final(self).spec_oom() ==> r is None && final(self)@ == old(self)@,
            !final(self).spec_oom() ==> r == found(le, old(self)@, item) && final(self)@
                == inserted(le, old(self)@, item),
            !old(self).spec_oom() && (old(self).can_allocate(old(self).spec_height() + 4) || found(
                le,
                old(self)@,
                item,
            ) is Some) ==> !final(self).spec_oom(),
            drew_at_most(
                old(self).spare_nodes(),
                final(self).spare_nodes(),
                old(self).spec_height() + 3,
            ),
            final(self).spec_height() == old(self).spec_height() || final(self).spec_height()
                == old(self).spec_height() + 1,
            !old(self).spec_oom() && final(self).spec_oom() ==> final(self).spare_nodes() == Some(
                0nat,
            ) || final(self).spare_nodes() == Some(1nat),
            !old(self).spec_oom() ==> (final(self).spec_oom() <==> !old(self).can_allocate(
                old(self).nodes_needed(le, item),
            )),
            !final(self).spec_oom() ==> final(self).spare_nodes() == less_nodes(
                old(self).spare_nodes(),
                old(self).nodes_needed(le, item),
            ),
            final(self).spec_height() == old(self).spec_height() + 1 <==> Self::grows(
                *old(self),
                le,
                item,
            ),
    {
        if self.oom {
            return None;
        }
        let ghost s = self@;
        proof {
            self.lemma_sound(le);
            if fits_behind(le, s, item) {
                lemma_absent_at(le, s, item, s.len() as int);
                assert(s.insert(s.len() as int, item) =~= s.push(item));
            }
            self.root.lemma_needs_bound(le, item, self.height as nat, self.max_items as nat);
        }
        let cap = self.max_items;
        let r = self.root.append(
            item,
            c,
            Ghost(le),
            Ghost(self.height as nat),
            cap,
            Ghost(self.root_lo()),
            &mut self.allocator,
        );
        match r {
            AppendOutcome::Appended => {
                self.len = self.len + 1;
                None
            },
            AppendOutcome::Misfit(item) => self.put(item, c, Ghost(le), hint),
            AppendOutcome::NoMemory(_) => {
                self.oom = true;
                None
            },
            AppendOutcome::Full(item) => {
                if !self.allocator.grant() {
                    self.oom = true;
                    return None;
                }
                if !self.allocator.grant() {
                    self.allocator.free();
                    self.oom = true;
                    return None;
                }
                let ghost whole = self.root;
                proof {
                    whole.lemma_items_sorted(
                        le,
                        self.height as nat,
                        cap as nat,
                        self.root_lo(),
                    );
                    whole.lemma_shape_lo(
                        self.height as nat,
                        cap as nat,
                        self.root_lo(),
                        cap as nat,
                    );
                }
                self.grow_root(Ghost(le));
                proof {
                    self.root.lemma_grown_needs(
                        whole,
                        le,
                        item,
                        (self.height - 1) as nat,
                        cap as nat,
                    );
                }
                let r2 = self.root.append(
                    item,
                    c,
                    Ghost(le),
                    Ghost(self.height as nat),
                    cap,
                    Ghost(self.root_lo()),
                    &mut self.allocator,
                );
                match r2 {
                    AppendOutcome::Appended => {
                        self.len = self.len + 1;
                        None
                    },
                    _ => {
                        self.oom = true;
                        None
                    },
                }
            },
        }
    }

    /// Hands the items to the visitor in ascending order, from the first
    /// that does not sort before the pivot or from the smallest, until the
    /// visitor answers `false`. Says whether the walk came to its end.
    pub(crate) fn walk_up<C: Fn(&T, &T) -> Sign, V: FnMut(&T) -> bool>(
        &self,
        pivot: Option<&T>,
        c: &C,
        Ghost(le): Ghost<spec_fn(T, T) -> bool>,
        visitor: &mut V,
        hint: &mut u64,
    ) -> (done: bool)
        requires
            self.sound(le),
            decides(*c, le),
            visits_all(*old(visitor)),
        ensures
            *final(visitor) == *old(visitor),
            walked(*old(visitor), ascending(le, self@, pivot_of(pivot)), done),
            routed(*old(hint), *final(hint), 0, self.pivot_route(le, pivot_of(pivot))),
    {
        self.root.walk_up(
            pivot,
            c,
            Ghost(le),
            Ghost(self.height as nat),
            Ghost(self.max_items as nat),
            Ghost(self.root_lo()),
            visitor,
            hint,
            0,
        )
    }

    /// Hands the items to the visitor in descending order, from the last
    /// that does not sort after the pivot or from the largest, until the
    /// visitor answers `false`. Says whether the walk came to its end.
    pub(crate) fn walk_down<C: Fn(&T, &T) -> Sign, V: FnMut(&T) -> bool>(
        &self,
        pivot: Option<&T>,
        c: &C,
        Ghost(le): Ghost<spec_fn(T, T) -> bool>,
        visitor: &mut V,
        hint: &mut u64,
    ) -> (done: bool)
        requires
            self.sound(le),
            decides(*c, le),
            visits_all(*old(visitor)),
        ensures
            *final(visitor) == *old(visitor),
            walked(*old(visitor), descending(le, self@, pivot_of(pivot)), done),
            routed(*old(hint), *final(hint), 0, self.pivot_route(le, pivot_of(pivot))),
    {
        self.root.walk_down(
            pivot,
            c,
            Ghost(le),
            Ghost(self.height as nat),
            Ghost(self.max_items as nat),
            Ghost(self.root_lo()),
            visitor,
            hint,
            0,
        )
    }

    /// The smallest item from the pivot upward.
    pub(crate) fn seek_up<'a, C: Fn(&T, &T) -> Sign>(
        &'a self,
        pivot: &T,
        inclusive: bool,
        c: &C,
        Ghost(le): Ghost<spec_fn(T, T) -> bool>,
        hint: &mut u64,
    ) -> (r: Option<&'a T>)
        requires
            self.sound(le),
            decides(*c, le),
        ensures
            item_of(r) == head(above(le, self@, *pivot, inclusive)),
    {
        self.root.seek_up(
            pivot,
            inclusive,
            c,
            Ghost(le),
            Ghost(self.height as nat),
            Ghost(self.max_items as nat),
            Ghost(self.root_lo()),
            hint,
            0,
        )
    }

    /// The largest item from the pivot downward.
    pub(crate) fn seek_down<'a, C: Fn(&T, &T) -> Sign>(
        &'a self,
        pivot: &T,
        inclusive: bool,
        c: &C,
        Ghost(le): Ghost<spec_fn(T, T) -> bool>,
        hint: &mut u64,
    ) -> (r: Option<&'a T>)
        requires
            self.sound(le),
            decides(*c, le),
        ensures
            item_of(r) == tail(below(le, self@, *pivot, inclusive)),
    {
        self.root.seek_down(
            pivot,
            inclusive,
            c,
            Ghost(le),
            Ghost(self.height as nat),
            Ghost(self.max_items as nat),
            Ghost(self.root_lo()),
            hint,
            0,
        )
    }
}

} // verus!
