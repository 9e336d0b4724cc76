//! Taking items out: deletion by key or at either end, and the rotations and
//! merges that keep every node at least half full.
use vstd::prelude::*;
use crate::budget::{gave_back, NodeAllocator};
use crate::join::{
    lemma_join_concat, lemma_join_grow, lemma_join_pair, lemma_join_pair_merge,
    lemma_join_pair_update,
};
use crate::node::Node;

verus! {

/// One less than `n`, but not less than zero.
pub open spec fn less_one(n: nat) -> nat {
    if n > 0 {
        (n - 1) as nat
    } else {
        0
    }
}

/// What a child stands for, if there is one.
pub open spec fn view_of<T>(child: Option<Node<T>>) -> Seq<T> {
    match child {
        Some(c) => c@,
        None => Seq::empty(),
    }
}

impl<T> Node<T> {
    /// Takes the last item off this node, with the subtree behind it.
    pub(crate) fn take_back(&mut self, Ghost(h): Ghost<nat>, Ghost(cap): Ghost<nat>) -> (r: (
        T,
        Option<Node<T>>,
    ))
        requires
            old(self).shape(h, cap, 1),
        ensures
            old(self)@ == final(self)@ + seq![r.0] + view_of(r.1),
            final(self).shape(h, cap, 0),
            final(self).items@.len() == old(self).items@.len() - 1,
            h == 0 <==> r.1 is None,
            r.1 matches Some(c) ==> c.shape((h - 1) as nat, cap, cap / 2),
    {
        let n = self.items.len();
        let item = self.items.remove(n - 1);
        let child = self.children.pop();
        proof {
            old(self).lemma_view();
            self.lemma_view();
            if h == 0 {
                assert(old(self).items@ =~= self.items@ + seq![item] + Seq::<T>::empty());
            } else {
                assert(self.parts() =~= old(self).parts().drop_last());
                assert(self.items@ =~= old(self).items@.drop_last());
            }
        }
        (item, child)
    }

    /// Takes the first item off this node, with the subtree before it.
    pub(crate) fn take_front(&mut self, Ghost(h): Ghost<nat>, Ghost(cap): Ghost<nat>) -> (r: (
        T,
        Option<Node<T>>,
    ))
        requires
            old(self).shape(h, cap, 1),
        ensures
            old(self)@ == view_of(r.1) + seq![r.0] + final(self)@,
            final(self).shape(h, cap, 0),
            final(self).items@.len() == old(self).items@.len() - 1,
            h == 0 <==> r.1 is None,
            r.1 matches Some(c) ==> c.shape((h - 1) as nat, cap, cap / 2),
    {
        let item = self.items.remove(0);
        let child = if self.children.len() > 0 {
            Some(self.children.remove(0))
        } else {
            None
        };
        proof {
            old(self).lemma_view();
            self.lemma_view();
            if h == 0 {
                assert(old(self).items@ =~= Seq::<T>::empty() + seq![item] + self.items@);
            } else {
                lemma_join_grow(self.parts(), self.items@, item, view_of(child));
                assert(seq![view_of(child)] + self.parts() =~= old(self).parts());
                assert(seq![item] + self.items@ =~= old(self).items@);
            }
        }
        (item, child)
    }

    /// Puts an item behind the last one, with a subtree behind it.
    pub(crate) fn put_back(
        &mut self,
        item: T,
        child: Option<Node<T>>,
        Ghost(h): Ghost<nat>,
        Ghost(cap): Ghost<nat>,
    )
        requires
            old(self).shape(h, cap, 0),
            old(self).items@.len() < cap,
            h == 0 <==> child is None,
            child matches Some(c) ==> c.shape((h - 1) as nat, cap, cap / 2),
        ensures
            final(self)@ == old(self)@ + seq![item] + view_of(child),
            final(self).shape(h, cap, 0),
            final(self).items@.len() == old(self).items@.len() + 1,
    {
        self.items.push(item);
        match child {
            Some(c) => {
                self.children.push(c);
            },
            None => {},
        }
        proof {
            old(self).lemma_view();
            self.lemma_view();
            if h == 0 {
                assert(self.items@ =~= old(self).items@ + seq![item] + Seq::<T>::empty());
            } else {
                lemma_join_grow(old(self).parts(), old(self).items@, item, view_of(child));
                assert(self.parts() =~= old(self).parts().push(view_of(child)));
            }
        }
    }

    /// Puts an item before the first one, with a subtree before it.
    pub(crate) fn put_front(
        &mut self,
        item: T,
        child: Option<Node<T>>,
        Ghost(h): Ghost<nat>,
        Ghost(cap): Ghost<nat>,
    )
        requires
            old(self).shape(h, cap, 0),
            old(self).items@.len() < cap,
            h == 0 <==> child is None,
            child matches Some(c) ==> c.shape((h - 1) as nat, cap, cap / 2),
        ensures
            final(self)@ == view_of(child) + seq![item] + old(self)@,
            final(self).shape(h, cap, 0),
            final(self).items@.len() == old(self).items@.len() + 1,
    {
        self.items.insert(0, item);
        match child {
            Some(c) => {
                self.children.insert(0, c);
            },
            None => {},
        }
        proof {
            old(self).lemma_view();
            self.lemma_view();
            if h == 0 {
                assert(self.items@ =~= Seq::<T>::empty() + seq![item] + old(self).items@);
            } else {
                lemma_join_grow(old(self).parts(), old(self).items@, item, view_of(child));
                assert(self.parts() =~= seq![view_of(child)] + old(self).parts());
                assert(self.items@ =~= seq![item] + old(self).items@);
            }
        }
    }

    /// Takes up an item and, behind it, all that another node of the same
    /// height holds.
    pub(crate) fn take_up(
        &mut self,
        item: T,
        other: Node<T>,
        Ghost(h): Ghost<nat>,
        Ghost(cap): Ghost<nat>,
    )
        requires
            old(self).shape(h, cap, 0),
            other.shape(h, cap, 0),
            old(self).items@.len() + 1 + other.items@.len() <= cap,
        ensures
            final(self)@ == old(self)@ + seq![item] + other@,
            final(self).shape(h, cap, 0),
            final(self).items@.len() == old(self).items@.len() + 1 + other.items@.len(),
    {
        let Node { items: mut other_items, children: mut other_children } = other;
        self.items.push(item);
        self.items.append(&mut other_items);
        self.children.append(&mut other_children);
        proof {
            old(self).lemma_view();
            self.lemma_view();
            other.lemma_view();
            assert(self.items@ =~= old(self).items@ + seq![item] + other.items@);
            if h > 0 {
                lemma_join_concat(
                    old(self).parts(),
                    old(self).items@,
                    item,
                    other.parts(),
                    other.items@,
                );
                assert(self.parts() =~= old(self).parts() + other.parts());
            }
        }
    }

    /// Moves the last item of child `i - 1` up into the place of the item
    /// between the two children, and that item down to the front of child `i`.
    pub(crate) fn rotate_right(
        &mut self,
        i: usize,
        Ghost(h): Ghost<nat>,
        Ghost(cap): Ghost<nat>,
        Ghost(lo): Ghost<nat>,
    )
        requires
            old(self).shape_except(h, cap, lo, i - 1, i as int),
            1 <= i <= old(self).items@.len(),
            old(self).children@[i - 1].items@.len() >= 1,
            old(self).children@[i as int].items@.len() < cap,
        ensures
            final(self)@ == old(self)@,
            final(self).shape_except(h, cap, lo, i - 1, i as int),
            final(self).items@.len() == old(self).items@.len(),
            final(self).children@[i - 1].items@.len() + 1 == old(self).children@[i
                - 1].items@.len(),
            final(self).children@[i as int].items@.len() == 1 + old(self).children@[i
                as int].items@.len(),
    {
        let ghost parts = self.parts();
        let ghost items = self.items@;
        proof {
            self.lemma_view();
            self.children@[i - 1].lemma_shape_lo((h - 1) as nat, cap, 0, 1);
        }
        let (moved, sub) = self.children[i - 1].take_back(Ghost((h - 1) as nat), Ghost(cap));
        let mut up = moved;
        core::mem::swap(&mut self.items[i - 1], &mut up);
        let ghost lv = self.children@[i - 1]@;
        self.children[i].put_front(up, sub, Ghost((h - 1) as nat), Ghost(cap));
        proof {
            let cv = self.children@[i as int]@;
            lemma_join_pair(parts, items, i - 1);
            lemma_join_pair_update(parts, items, i - 1, lv, moved, cv);
            assert(self.parts() =~= parts.update(i - 1, lv).update(i as int, cv));
            assert(lv + seq![moved] + cv =~= parts[i - 1] + seq![items[i - 1]] + parts[i as int]);
            self.lemma_view();
        }
    }

    /// Moves the first item of child `i + 1` up into the place of the item
    /// between the two children, and that item down to the back of child `i`.
    pub(crate) fn rotate_left(
        &mut self,
        i: usize,
        Ghost(h): Ghost<nat>,
        Ghost(cap): Ghost<nat>,
        Ghost(lo): Ghost<nat>,
    )
        requires
            old(self).shape_except(h, cap, lo, i as int, i + 1),
            i < old(self).items@.len(),
            old(self).children@[i + 1].items@.len() >= 1,
            old(self).children@[i as int].items@.len() < cap,
        ensures
            final(self)@ == old(self)@,
            final(self).shape_except(h, cap, lo, i as int, i + 1),
            final(self).items@.len() == old(self).items@.len(),
            final(self).children@[i + 1].items@.len() + 1 == old(self).children@[i
                + 1].items@.len(),
            final(self).children@[i as int].items@.len() == 1 + old(self).children@[i
                as int].items@.len(),
    {
        let ghost parts = self.parts();
        let ghost items = self.items@;
        proof {
            self.lemma_view();
            self.children@[i + 1].lemma_shape_lo((h - 1) as nat, cap, 0, 1);
        }
        assert(i + 1 < self.children.len());
        let (moved, sub) = self.children[i + 1].take_front(Ghost((h - 1) as nat), Ghost(cap));
        let mut up = moved;
        core::mem::swap(&mut self.items[i], &mut up);
        let ghost rv = self.children@[i + 1]@;
        self.children[i].put_back(up, sub, Ghost((h - 1) as nat), Ghost(cap));
        proof {
            let cv = self.children@[i as int]@;
            lemma_join_pair(parts, items, i as int);
            lemma_join_pair_update(parts, items, i as int, cv, moved, rv);
            assert(self.parts() =~= parts.update(i as int, cv).update(i + 1, rv));
            assert(cv + seq![moved] + rv =~= parts[i as int] + seq![items[i as int]] + parts[i
                + 1]);
            self.lemma_view();
        }
    }

    /// Makes one node of the children `k` and `k + 1` and the item between
    /// them, and gives the node that falls away back to the allocator.
    pub(crate) fn merge(
        &mut self,
        k: usize,
        Ghost(h): Ghost<nat>,
        Ghost(cap): Ghost<nat>,
        Ghost(lo): Ghost<nat>,
        allocator: &mut NodeAllocator,
    )
        requires
            old(self).shape_except(h, cap, lo, k as int, k + 1),
            k < old(self).items@.len(),
            old(self).children@[k as int].items@.len() + 1 + old(self).children@[k
                + 1].items@.len() <= cap,
        ensures
            final(self)@ == old(self)@,
            final(self).shape_except(h, cap, less_one(lo), k as int, k as int),
            final(self).items@.len() == old(self).items@.len() - 1,
            final(self).children@[k as int].items@.len() == 1 + old(self).children@[k
                as int].items@.len() + old(self).children@[k + 1].items@.len(),
            gave_back(old(allocator).remaining(), final(allocator).remaining()),
    {
        let ghost parts = self.parts();
        let ghost items = self.items@;
        proof {
            self.lemma_view();
        }
        assert(k + 1 < self.children.len());
        let right = self.children.remove(k + 1);
        let sep = self.items.remove(k);
        self.children[k].take_up(sep, right, Ghost((h - 1) as nat), Ghost(cap));
        allocator.free();
        proof {
            let mv = self.children@[k as int]@;
            lemma_join_pair(parts, items, k as int);
            lemma_join_pair_merge(parts, items, k as int, mv);
            assert(self.parts() =~= parts.update(k as int, mv).remove(k + 1));
            self.lemma_view();
        }
    }

    /// Brings child `i`, which may hold one item less than a node must,
    /// back to at least half full: by an item from a neighbour that can spare
    /// one, or else by merging it with a neighbour.
    pub(crate) fn rebalance(
        &mut self,
        i: usize,
        Ghost(h): Ghost<nat>,
        cap: usize,
        Ghost(lo): Ghost<nat>,
        allocator: &mut NodeAllocator,
    )
        requires
            old(self).shape_except(h, cap as nat, lo, i as int, i as int),
            cap >= 3,
            cap % 2 == 1,
            i <= old(self).items@.len(),
            old(self).items@.len() >= 1,
            old(self).children@[i as int].items@.len() + 1 >= cap / 2,
        ensures
            final(self)@ == old(self)@,
            final(self).shape(h, cap as nat, less_one(lo)),
            final(self).items@.len() >= old(self).items@.len() - 1,
            old(self).children@[i as int].items@.len() >= cap / 2 ==> final(self).items@.len()
                == old(self).items@.len(),
            gave_back(old(allocator).remaining(), final(allocator).remaining()),
    {
        let smallest = cap / 2;
        let n = self.items.len();
        let ghost m = cap as nat;
        let ghost hh = (h - 1) as nat;
        if self.children[i].items.len() >= smallest {
            proof {
                self.children@[i as int].lemma_shape_lo(hh, m, 0, m / 2);
            }
        } else if i > 0 && self.children[i - 1].items.len() > smallest {
            proof {
                self.children@[i - 1].lemma_shape_lo(hh, m, m / 2, 0);
            }
            self.rotate_right(i, Ghost(h), Ghost(m), Ghost(lo));
            proof {
                self.children@[i - 1].lemma_shape_lo(hh, m, 0, m / 2);
                self.children@[i as int].lemma_shape_lo(hh, m, 0, m / 2);
            }
        } else if i < n && self.children[i + 1].items.len() > smallest {
            proof {
                self.children@[i + 1].lemma_shape_lo(hh, m, m / 2, 0);
            }
            self.rotate_left(i, Ghost(h), Ghost(m), Ghost(lo));
            proof {
                self.children@[i + 1].lemma_shape_lo(hh, m, 0, m / 2);
                self.children@[i as int].lemma_shape_lo(hh, m, 0, m / 2);
            }
        } else if i > 0 {
            proof {
                self.children@[i - 1].lemma_shape_lo(hh, m, m / 2, 0);
            }
            self.merge(i - 1, Ghost(h), Ghost(m), Ghost(lo), allocator);
            proof {
                self.children@[i - 1].lemma_shape_lo(hh, m, 0, m / 2);
            }
        } else {
            proof {
                self.children@[i + 1].lemma_shape_lo(hh, m, m / 2, 0);
            }
            self.merge(i, Ghost(h), Ghost(m), Ghost(lo), allocator);
            proof {
                self.children@[i as int].lemma_shape_lo(hh, m, 0, m / 2);
            }
        }
    }
}

} // verus!
