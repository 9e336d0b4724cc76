//! Deletion from a subtree: by key, or of the first or the last item.
use vstd::prelude::*;
use crate::budget::{gave_back, NodeAllocator};
use crate::hint::{
    deeper_spec, lemma_routed_empty, lemma_routed_none, lemma_routed_step, routed, HINT_LEVELS,
};
use crate::join::{before, behind, lemma_join_pair, lemma_join_pair_update, lemma_join_part};
use crate::node::Node;
use crate::order::{decides, equiv, lt, total_preorder, Sign};
use crate::remove::less_one;
use crate::search::deeper;
use crate::sorted::{
    all_but_first, all_but_last, first_at_least, found, head, lemma_absent_at, lemma_descend,
    lemma_hit, lemma_present_at, lemma_sorted_halves, removed, sorted, tail,
};

verus! {

/// Which item a deletion is after.
pub enum Target<'a, T> {
    /// The item equivalent to this key.
    Key(&'a T),
    /// The smallest item.
    First,
    /// The largest item.
    Last,
}

/// The item of `s` that the target names, if there is one.
pub open spec fn picked<T>(
    le: spec_fn(T, T) -> bool,
    s: Seq<T>,
    target: Target<'_,
    T>,
) -> Option<T> {
    match target {
        Target::Key(k) => found(le, s, *k),
        Target::First => head(s),
        Target::Last => tail(s),
    }
}

/// `s` without the item that the target names.
pub open spec fn without<T>(le: spec_fn(T, T) -> bool, s: Seq<T>, target: Target<'_, T>) -> Seq<T> {
    match target {
        Target::Key(k) => removed(le, s, *k),
        Target::First => all_but_first(s),
        Target::Last => all_but_last(s),
    }
}

/// Position `i` among `items` is where the target leads.
pub open spec fn leads_to<T>(
    le: spec_fn(T, T) -> bool,
    items: Seq<T>,
    target: Target<'_, T>,
    i: int,
) -> bool {
    &&& 0 <= i <= items.len()
    &&& match target {
        Target::Key(k) => (i > 0 ==> lt(le, items[i - 1], *k)) && (i < items.len() ==> lt(
            le,
            *k,
            items[i],
        )),
        Target::First => i == 0,
        Target::Last => i == items.len(),
    }
}

impl<T> Node<T> {
    /// The route of the search that the target calls for: that of its key,
    /// or none where the target is the first or the last item.
    pub(crate) open spec fn target_route(
        self,
        le: spec_fn(T, T) -> bool,
        target: Target<'_, T>,
        h: nat,
    ) -> Seq<nat> {
        match target {
            Target::Key(k) => self.route(le, *k, h),
            _ => Seq::empty(),
        }
    }

    /// Takes item `i` out of this leaf.
    pub(crate) fn take_leaf(
        &mut self,
        i: usize,
        Ghost(target): Ghost<Target<'_, T>>,
        Ghost(le): Ghost<spec_fn(T, T) -> bool>,
        Ghost(cap): Ghost<nat>,
        Ghost(lo): Ghost<nat>,
    ) -> (r: T)
        requires
            total_preorder(le),
            old(self).shape(0, cap, lo),
            sorted(le, old(self)@),
            i < old(self).items@.len(),
            match target {
                Target::Key(k) => equiv(le, old(self).items@[i as int], *k),
                Target::First => i == 0,
                Target::Last => i == old(self).items@.len() - 1,
            },
        ensures
            Some(r) == picked(le, old(self)@, target),
            final(self)@ == without(le, old(self)@, target),
            final(self).shape(0, cap, less_one(lo)),
    {
        let ghost items = self.items@;
        let x = self.items.remove(i);
        proof {
            old(self).lemma_view();
            self.lemma_view();
            match target {
                Target::Key(k) => {
                    lemma_present_at(le, items, *k, i as int);
                },
                Target::First => {
                    assert(items.remove(0) =~= items.skip(1));
                },
                Target::Last => {
                    assert(items.remove(i as int) =~= items.drop_last());
                },
            }
        }
        x
    }

    /// Deletes what the target names from the subtree of child `i`, to which
    /// the target leads, and brings that child back to half full.
    pub(crate) fn take_below<C: Fn(&T, &T) -> Sign>(
        &mut self,
        i: usize,
        target: Target<'_, T>,
        c: &C,
        Ghost(le): Ghost<spec_fn(T, T) -> bool>,
        Ghost(h): Ghost<nat>,
        cap: usize,
        Ghost(lo): Ghost<nat>,
        allocator: &mut NodeAllocator,
        hint: &mut u64,
        depth: usize,
    ) -> (r: Option<T>)
        requires
            decides(*c, le),
            total_preorder(le),
            h > 0,
            lo >= 1,
            old(self).shape(h, cap as nat, lo),
            sorted(le, old(self)@),
            cap >= 3,
            cap % 2 == 1,
            leads_to(le, old(self).items@, target, i as int),
            depth <= HINT_LEVELS,
        ensures
            routed(
                *old(hint),
                *final(hint),
                deeper_spec(depth),
                old(self).children@[i as int].target_route(le, target, (h - 1) as nat),
            ),
            r == picked(le, old(self)@, target),
            final(self)@ == without(le, old(self)@, target),
            final(self).shape(
                h,
                cap as nat,
                if r is Some {
                    less_one(lo)
                } else {
                    lo
                },
            ),
            gave_back(old(allocator).remaining(), final(allocator).remaining()),
        decreases h, 0nat,
    {
        let ghost parts = self.parts();
        let ghost items = self.items@;
        let ghost cv = self.children@[i as int]@;
        let ghost a = before(parts, items, i as int);
        let ghost b = behind(parts, items, i as int);
        proof {
            self.lemma_view();
            lemma_join_part(parts, items, i as int, cv);
            self.children@[i as int].lemma_len((h - 1) as nat, cap as nat, cap as nat / 2);
            match target {
                Target::Key(k) => {
                    lemma_descend(le, a, cv, b, *k);
                },
                Target::First => {
                    lemma_sorted_halves(le, a + cv, b);
                    lemma_sorted_halves(le, a, cv);
                    assert((a + cv + b).skip(1) =~= a + cv.skip(1) + b);
                },
                Target::Last => {
                    lemma_sorted_halves(le, a + cv, b);
                    lemma_sorted_halves(le, a, cv);
                    assert((a + cv + b).drop_last() =~= a + cv.drop_last() + b);
                },
            }
        }
        let r = self.children[i].take(
            target,
            c,
            Ghost(le),
            Ghost((h - 1) as nat),
            cap,
            Ghost(cap as nat / 2),
            allocator,
            hint,
            deeper(depth),
        );
        proof {
            let nv = self.children@[i as int]@;
            assert(self.parts() =~= parts.update(i as int, nv));
            self.lemma_view();
            lemma_join_part(parts, items, i as int, nv);
            self.children@[i as int].lemma_shape_lo(
                (h - 1) as nat,
                cap as nat,
                if r is Some {
                    less_one(cap as nat / 2)
                } else {
                    cap as nat / 2
                },
                0,
            );
        }
        if r.is_some() {
            self.rebalance(i, Ghost(h), cap, Ghost(lo), allocator);
        } else {
            proof {
                self.children@[i as int].lemma_shape_lo(
                    (h - 1) as nat,
                    cap as nat,
                    0,
                    cap as nat / 2,
                );
            }
        }
        r
    }

    /// Takes item `i` out of this inner node: the largest item of the subtree
    /// before it moves into its place.
    pub(crate) fn take_item<C: Fn(&T, &T) -> Sign>(
        &mut self,
        i: usize,
        Ghost(key): Ghost<T>,
        c: &C,
        Ghost(le): Ghost<spec_fn(T, T) -> bool>,
        Ghost(h): Ghost<nat>,
        cap: usize,
        Ghost(lo): Ghost<nat>,
        allocator: &mut NodeAllocator,
        hint: &mut u64,
        depth: usize,
    ) -> (r: Option<T>)
        requires
            decides(*c, le),
            total_preorder(le),
            h > 0,
            lo >= 1,
            old(self).shape(h, cap as nat, lo),
            sorted(le, old(self)@),
            cap >= 3,
            cap % 2 == 1,
            i < old(self).items@.len(),
            equiv(le, old(self).items@[i as int], key),
            depth <= HINT_LEVELS,
        ensures
            routed(*old(hint), *final(hint), deeper_spec(depth), Seq::<nat>::empty()),
            r is Some,
            r == found(le, old(self)@, key),
            final(self)@ == removed(le, old(self)@, key),
            final(self).shape(h, cap as nat, less_one(lo)),
            gave_back(old(allocator).remaining(), final(allocator).remaining()),
        decreases h, 0nat,
    {
        let ghost parts = self.parts();
        let ghost items = self.items@;
        let ghost cv = self.children@[i as int]@;
        let ghost a = before(parts, items, i as int);
        let ghost b = parts[i + 1] + behind(parts, items, i + 1);
        proof {
            self.lemma_view();
            lemma_join_pair(parts, items, i as int);
            assert(a + cv + seq![items[i as int]] + b =~= a + (cv + seq![items[i as int]] + parts[i
                + 1]) + behind(parts, items, i + 1));
            lemma_hit(le, a + cv, items[i as int], b, key);
            lemma_sorted_halves(le, a, cv);
            self.children@[i as int].lemma_len((h - 1) as nat, cap as nat, cap as nat / 2);
        }
        let last = self.children[i].take(
            Target::Last,
            c,
            Ghost(le),
            Ghost((h - 1) as nat),
            cap,
            Ghost(cap as nat / 2),
            allocator,
            hint,
            deeper(depth),
        );
        match last {
            Some(p) => {
                let mut out = p;
                core::mem::swap(&mut self.items[i], &mut out);
                proof {
                    let nv = self.children@[i as int]@;
                    assert(self.parts() =~= parts.update(i as int, nv));
                    assert(parts.update(i as int, nv).update(i + 1, parts[i + 1]) =~= parts.update(
                        i as int,
                        nv,
                    ));
                    self.lemma_view();
                    lemma_join_pair_update(parts, items, i as int, nv, p, parts[i + 1]);
                    assert(a + (nv + seq![p] + parts[i + 1]) + behind(parts, items, i + 1) =~= a
                        + cv + b);
                    self.children@[i as int].lemma_shape_lo(
                        (h - 1) as nat,
                        cap as nat,
                        less_one(cap as nat / 2),
                        0,
                    );
                }
                self.rebalance(i, Ghost(h), cap, Ghost(lo), allocator);
                Some(out)
            },
            None => None,
        }
    }

    /// Deletes what the target names from this subtree and hands it back.
    /// The top node may be left with one item less than it must hold.
    pub(crate) fn take<C: Fn(&T, &T) -> Sign>(
        &mut self,
        target: Target<'_, T>,
        c: &C,
        Ghost(le): Ghost<spec_fn(T, T) -> bool>,
        Ghost(h): Ghost<nat>,
        cap: usize,
        Ghost(lo): Ghost<nat>,
        allocator: &mut NodeAllocator,
        hint: &mut u64,
        depth: usize,
    ) -> (r: Option<T>)
        requires
            decides(*c, le),
            total_preorder(le),
            old(self).shape(h, cap as nat, lo),
            h > 0 ==> lo >= 1,
            sorted(le, old(self)@),
            cap >= 3,
            cap % 2 == 1,
            depth <= HINT_LEVELS,
        ensures
            routed(*old(hint), *final(hint), depth, old(self).target_route(le, target, h)),
            r == picked(le, old(self)@, target),
            final(self)@ == without(le, old(self)@, target),
            final(self).shape(
                h,
                cap as nat,
                if r is Some {
                    less_one(lo)
                } else {
                    lo
                },
            ),
            gave_back(old(allocator).remaining(), final(allocator).remaining()),
        decreases h, 1nat,
    {
        let n = self.items.len();
        let leaf = self.children.len() == 0;
        let ghost aim = target;
        proof {
            self.lemma_items_sorted(le, h, cap as nat, lo);
        }
        let ghost route_below = if leaf || h == 0 {
            Seq::<nat>::empty()
        } else {
            match target {
                Target::Key(k) => {
                    let i = first_at_least(le, self.items@, *k);
                    if found(le, self.items@, *k) is Some {
                        Seq::<nat>::empty()
                    } else {
                        self.children@[i].route(le, *k, (h - 1) as nat)
                    }
                },
                _ => Seq::<nat>::empty(),
            }
        };
        let (hit, i) = match target {
            Target::Key(k) => self.search(k, c, Ghost(le), hint, depth),
            Target::First => (leaf && n > 0, 0),
            Target::Last => if leaf {
                if n > 0 {
                    (true, n - 1)
                } else {
                    (false, 0)
                }
            } else {
                (false, n)
            },
        };
        let ghost mid = *hint;
        proof {
            lemma_routed_none(mid, deeper_spec(depth));
            match target {
                Target::Key(k) => {
                    lemma_routed_step(*old(hint), mid, mid, depth, i as nat, Seq::empty());
                    assert(seq![i as nat] + Seq::empty() =~= seq![i as nat]);
                },
                _ => {
                    lemma_routed_none(mid, depth);
                },
            }
        }
        if leaf {
            if hit {
                Some(self.take_leaf(i, Ghost(target), Ghost(le), Ghost(cap as nat), Ghost(lo)))
            } else {
                proof {
                    self.lemma_view();
                    match target {
                        Target::Key(k) => {
                            lemma_absent_at(le, self.items@, *k, i as int);
                        },
                        _ => {},
                    }
                }
                None
            }
        } else if hit {
            let ghost key = match target {
                Target::Key(k) => *k,
                _ => arbitrary(),
            };
            let r = self.take_item(
                i,
                Ghost(key),
                c,
                Ghost(le),
                Ghost(h),
                cap,
                Ghost(lo),
                allocator,
                hint,
                depth,
            );
            proof {
                lemma_routed_step(*old(hint), mid, *hint, depth, i as nat, Seq::empty());
                assert(seq![i as nat] + Seq::empty() =~= seq![i as nat]);
            }
            r
        } else {
            let r = self.take_below(
                i,
                target,
                c,
                Ghost(le),
                Ghost(h),
                cap,
                Ghost(lo),
                allocator,
                hint,
                depth,
            );
            proof {
                match aim {
                    Target::Key(k) => {
                        lemma_routed_step(*old(hint), mid, *hint, depth, i as nat, route_below);
                    },
                    _ => {
                        lemma_routed_empty(mid, *hint, deeper_spec(depth), depth);
                    },
                }
            }
            r
        }
    }
}

} // verus!
