//! Looking things up: the position of a key in one node, and the item
//! equivalent to a key in a subtree.
use vstd::prelude::*;
use crate::hint::{
    clipped, deeper_spec, hint_guess, hint_guess_spec, hint_record, lemma_routed_none,
    lemma_routed_step, routed, HINT_LEVELS,
};
use crate::join::{before, behind, lemma_join_pair, lemma_join_part};
use crate::node::Node;
use crate::order::{decides, equiv, lemma_order, lt, total_preorder, Sign};
use crate::sorted::{
    first_at_least, found, lemma_absent_at, lemma_at, lemma_descend, lemma_hit, lemma_present_at,
    lemma_rank, sorted,
};

verus! {

/// The depth below `depth`.
pub(crate) fn deeper(depth: usize) -> (d: usize)
    ensures
        d == deeper_spec(depth),
        d <= HINT_LEVELS || d == depth,
{
    if depth < HINT_LEVELS {
        depth + 1
    } else {
        depth
    }
}

impl<T> Node<T> {
    /// Finds the place of `key` among the items of this node by bisection,
    /// narrowed first by the hint's guess for this depth. Returns whether an
    /// item equivalent to `key` is there and its position, or else the
    /// position where `key` belongs. Records the position in the hint, in the
    /// byte of this depth.
    pub(crate) fn search<C: Fn(&T, &T) -> Sign>(
        &self,
        key: &T,
        c: &C,
        Ghost(le): Ghost<spec_fn(T, T) -> bool>,
        hint: &mut u64,
        depth: usize,
    ) -> (r: (bool, usize))
        requires
            decides(*c, le),
            total_preorder(le),
            sorted(le, self.items@),
        ensures
            r.1 <= self.items@.len(),
            r.1 == first_at_least(le, self.items@, *key),
            r.0 <==> found(le, self.items@, *key) is Some,
            r.0 ==> r.1 < self.items@.len() && equiv(le, self.items@[r.1 as int], *key),
            !r.0 && r.1 > 0 ==> lt(le, self.items@[r.1 - 1], *key),
            !r.0 && r.1 < self.items@.len() ==> lt(le, *key, self.items@[r.1 as int]),
            depth < HINT_LEVELS ==> hint_guess_spec(*final(hint), depth) == clipped(r.1 as nat),
            forall|d: usize|
                d != depth ==> #[trigger] hint_guess_spec(*final(hint), d) == hint_guess_spec(
                    *old(hint),
                    d,
                ),
    {
        let n = self.items.len();
        let mut lo: usize = 0;
        let mut hi: usize = n;
        let guess = hint_guess(*hint, depth);
        if guess > 0 && n > 0 {
            let g = if guess > n - 1 { n - 1 } else { guess };
            match c(key, &self.items[g]) {
                Sign::Same => {
                    proof {
                        if g > 0 {
                            lemma_at(le, self.items@, *key, g - 1, g as int);
                            lemma_order(le, self.items@[g - 1], self.items@[g as int], *key);
                        }
                        lemma_rank(le, self.items@, *key, g as int);
                    }
                    hint_record(hint, depth, g);
                    return (true, g);
                },
                Sign::Above => {
                    lo = g + 1;
                },
                Sign::Below => {
                    hi = g;
                },
            }
        }
        while lo < hi
            invariant
                decides(*c, le),
                total_preorder(le),
                sorted(le, self.items@),
                *hint == *old(hint),
                n == self.items@.len(),
                lo <= hi <= n,
                lo > 0 ==> lt(le, self.items@[lo - 1], *key),
                hi < n ==> lt(le, *key, self.items@[hi as int]),
            decreases hi - lo,
        {
            let mid = lo + (hi - lo) / 2;
            match c(key, &self.items[mid]) {
                Sign::Same => {
                    proof {
                        if mid > 0 {
                            lemma_at(le, self.items@, *key, mid - 1, mid as int);
                            lemma_order(le, self.items@[mid - 1], self.items@[mid as int], *key);
                        }
                        lemma_rank(le, self.items@, *key, mid as int);
                    }
                    hint_record(hint, depth, mid);
                    return (true, mid);
                },
                Sign::Above => {
                    lo = mid + 1;
                },
                Sign::Below => {
                    hi = mid;
                },
            }
        }
        proof {
            if lo < n {
                lemma_order(le, *key, self.items@[lo as int], *key);
            }
            lemma_rank(le, self.items@, *key, lo as int);
        }
        hint_record(hint, depth, lo);
        (false, lo)
    }

    /// The item of this subtree equivalent to `key`, if there is one. The
    /// hint is left with the route of the search.
    pub(crate) fn find<'a, C: Fn(&T, &T) -> Sign>(
        &'a self,
        key: &T,
        c: &C,
        Ghost(le): Ghost<spec_fn(T, T) -> bool>,
        Ghost(h): Ghost<nat>,
        Ghost(cap): Ghost<nat>,
        Ghost(lo): Ghost<nat>,
        hint: &mut u64,
        depth: usize,
    ) -> (r: Option<&'a T>)
        requires
            decides(*c, le),
            total_preorder(le),
            self.shape(h, cap, lo),
            sorted(le, self@),
            depth <= HINT_LEVELS,
        ensures
            match r {
                Some(x) => found(le, self@, *key) == Some(*x),
                None => found(le, self@, *key) is None,
            },
            routed(*old(hint), *final(hint), depth, self.route(le, *key, h)),
        decreases h,
    {
        proof {
            self.lemma_items_sorted(le, h, cap, lo);
        }
        let (hit, i) = self.search(key, c, Ghost(le), hint, depth);
        let ghost mid = *hint;
        proof {
            self.lemma_view();
            lemma_routed_none(mid, deeper_spec(depth));
            lemma_routed_step(*old(hint), mid, mid, depth, i as nat, Seq::empty());
            assert(seq![i as nat] + Seq::empty() =~= seq![i as nat]);
            if h == 0 {
                if hit {
                    lemma_present_at(le, self.items@, *key, i as int);
                } else {
                    lemma_absent_at(le, self.items@, *key, i as int);
                }
            } else {
                let parts = self.parts();
                let items = self.items@;
                if hit {
                    lemma_join_pair(parts, items, i as int);
                    let a = before(parts, items, i as int) + parts[i as int];
                    let b = parts[i + 1] + behind(parts, items, i + 1);
                    assert(a + seq![items[i as int]] + b =~= before(parts, items, i as int) + (
                    parts[i as int] + seq![items[i as int]] + parts[i + 1]) + behind(
                        parts,
                        items,
                        i + 1,
                    ));
                    lemma_hit(le, a, items[i as int], b, *key);
                } else {
                    lemma_join_part(parts, items, i as int, parts[i as int]);
                    lemma_descend(
                        le,
                        before(parts, items, i as int),
                        parts[i as int],
                        behind(parts, items, i as int),
                        *key,
                    );
                }
            }
        }
        if hit {
            Some(&self.items[i])
        } else if self.children.len() == 0 {
            None
        } else {
            let r = self.children[i].find(
                key,
                c,
                Ghost(le),
                Ghost((h - 1) as nat),
                Ghost(cap),
                Ghost(cap / 2),
                hint,
                deeper(depth),
            );
            proof {
                lemma_routed_step(
                    *old(hint),
                    mid,
                    *hint,
                    depth,
                    i as nat,
                    self.children@[i as int].route(le, *key, (h - 1) as nat),
                );
            }
            r
        }
    }
}

} // verus!
