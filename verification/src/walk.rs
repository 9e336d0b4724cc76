//! Walking over the items of a subtree in order, up or down, handing each
//! item to a visitor until it asks to stop.
use vstd::prelude::*;
use crate::hint::{
    deeper_spec, lemma_routed_empty, lemma_routed_kept, lemma_routed_none, lemma_routed_over,
    lemma_routed_step, routed, HINT_LEVELS,
};
use crate::join::{
    before, behind, lemma_before_step, lemma_behind_step, lemma_join_pair, lemma_join_part,
    lemma_reverse_concat,
};
use crate::node::Node;
use crate::order::{decides, total_preorder, Sign};
use crate::search::deeper;
use crate::sorted::{
    ascending, at_most, descending, lemma_absent_at, lemma_descend, lemma_hit, lemma_present_at,
    sorted,
};

verus! {

/// The pivot that a walk starts from, if it has one.
pub open spec fn pivot_of<T>(pivot: Option<&T>) -> Option<T> {
    match pivot {
        Some(p) => Some(*p),
        None => None,
    }
}

/// The visitor may be called on every item.
pub open spec fn visits_all<T, V: FnMut(&T) -> bool>(visitor: V) -> bool {
    forall|x: T| #[trigger] visitor.requires((&x,))
}

/// The visitor was handed items of `s` from the first on, in order: it
/// answered "go on" to each of the first `k`, and either `done` holds and these were all, or
/// it answered "stop" to item `k`.
pub open spec fn walked_to<T, V: FnMut(&T) -> bool>(
    visitor: V,
    s: Seq<T>,
    k: int,
    done: bool,
) -> bool {
    &&& 0 <= k <= s.len()
    &&& forall|j: int| 0 <= j < k ==> visitor.ensures((&#[trigger] s[j],), true)
    &&& if done {
        k == s.len()
    } else {
        k < s.len() && visitor.ensures((&s[k],), false)
    }
}

/// The visitor was handed the items of `s` in order until it asked to stop
/// or, where `done` holds, to the last.
#[verifier::opaque]
pub open spec fn walked<T, V: FnMut(&T) -> bool>(visitor: V, s: Seq<T>, done: bool) -> bool {
    exists|k: int| walked_to(visitor, s, k, done)
}

/// Nothing to walk over.
pub proof fn lemma_walked_none<T, V: FnMut(&T) -> bool>(visitor: V)
    ensures
        walked(visitor, Seq::<T>::empty(), true),
{
    reveal(walked);
    assert(walked_to(visitor, Seq::<T>::empty(), 0, true));
}

/// One more item after a walk that went through.
pub proof fn lemma_walked_one<T, V: FnMut(&T) -> bool>(
    visitor: V,
    d: Seq<T>,
    x: T,
    go: bool,
    rest: Seq<T>,
)
    requires
        walked(visitor, d, true),
        visitor.ensures((&x,), go),
    ensures
        go ==> walked(visitor, d.push(x), true),
        !go ==> walked(visitor, d.push(x) + rest, false),
{
    reveal(walked);
    let k = choose|k: int| walked_to(visitor, d, k, true);
    if go {
        assert(walked_to(visitor, d.push(x), k + 1, true));
    } else {
        assert(walked_to(visitor, d.push(x) + rest, k, false));
    }
}

/// A walk after a walk that went through.
pub proof fn lemma_walked_more<T, V: FnMut(&T) -> bool>(
    visitor: V,
    d: Seq<T>,
    e: Seq<T>,
    done: bool,
    rest: Seq<T>,
)
    requires
        walked(visitor, d, true),
        walked(visitor, e, done),
    ensures
        done ==> walked(visitor, d + e, true),
        !done ==> walked(visitor, d + e + rest, false),
{
    reveal(walked);
    let k = choose|k: int| walked_to(visitor, d, k, true);
    let m = choose|m: int| walked_to(visitor, e, m, done);
    if done {
        let s = d + e;
        assert forall|j: int| 0 <= j < k + m implies visitor.ensures((&#[trigger] s[j],), true) by {
            if j < k {
                assert(s[j] == d[j]);
            } else {
                assert(s[j] == e[j - k]);
            }
        }
        assert(walked_to(visitor, s, k + m, true));
    } else {
        let s = d + e + rest;
        assert forall|j: int| 0 <= j < k + m implies visitor.ensures((&#[trigger] s[j],), true) by {
            if j < k {
                assert(s[j] == d[j]);
            } else {
                assert(s[j] == e[j - k]);
            }
        }
        assert(s[k + m] == e[m]);
        assert(walked_to(visitor, s, k + m, false));
    }
}

impl<T> Node<T> {
    /// The route of the search for the pivot of a walk, if it has one.
    pub(crate) open spec fn pivot_route(
        self,
        le: spec_fn(T, T) -> bool,
        pivot: Option<T>,
        h: nat,
    ) -> Seq<nat> {
        match pivot {
            Some(p) => self.route(le, p, h),
            None => Seq::empty(),
        }
    }

    /// Hands the items of this node from position `from` on to the visitor,
    /// in ascending order.
    pub(crate) fn walk_up_leaf<V: FnMut(&T) -> bool>(
        &self,
        from: usize,
        visitor: &mut V,
    ) -> (done: bool)
        requires
            from <= self.items@.len(),
            visits_all(*old(visitor)),
        ensures
            *final(visitor) == *old(visitor),
            walked(*old(visitor), self.items@.skip(from as int), done),
    {
        let n = self.items.len();
        let mut k = from;
        let ghost s = self.items@.skip(from as int);
        proof {
            lemma_walked_none::<T, V>(*visitor);
            assert(s.take(0) =~= Seq::<T>::empty());
        }
        while k < n
            invariant
                from <= k <= n,
                n == self.items@.len(),
                s == self.items@.skip(from as int),
                *visitor == *old(visitor),
                visits_all(*visitor),
                walked(*visitor, s.take(k - from), true),
            decreases n - k,
        {
            let go = visitor(&self.items[k]);
            proof {
                lemma_walked_one(
                    *visitor,
                    s.take(k - from),
                    self.items@[k as int],
                    go,
                    s.skip(k - from + 1),
                );
                assert(s.take(k - from).push(self.items@[k as int]) =~= s.take(k - from + 1));
                assert(s.take(k - from + 1) + s.skip(k - from + 1) =~= s);
            }
            if !go {
                return false;
            }
            k += 1;
        }
        proof {
            assert(s.take(n - from) =~= s);
        }
        true
    }

    /// Hands the items of this node below position `upto` to the visitor, in
    /// descending order.
    pub(crate) fn walk_down_leaf<V: FnMut(&T) -> bool>(
        &self,
        upto: usize,
        visitor: &mut V,
    ) -> (done: bool)
        requires
            upto <= self.items@.len(),
            visits_all(*old(visitor)),
        ensures
            *final(visitor) == *old(visitor),
            walked(*old(visitor), self.items@.take(upto as int).reverse(), done),
    {
        let mut k = upto;
        let ghost s = self.items@.take(upto as int).reverse();
        proof {
            lemma_walked_none::<T, V>(*visitor);
            assert(s.take(0) =~= Seq::<T>::empty());
        }
        while k > 0
            invariant
                k <= upto <= self.items@.len(),
                s == self.items@.take(upto as int).reverse(),
                *visitor == *old(visitor),
                visits_all(*visitor),
                walked(*visitor, s.take(upto - k), true),
            decreases k,
        {
            let go = visitor(&self.items[k - 1]);
            proof {
                lemma_walked_one(
                    *visitor,
                    s.take(upto - k),
                    self.items@[k - 1],
                    go,
                    s.skip(upto - k + 1),
                );
                assert(s.take(upto - k).push(self.items@[k - 1]) =~= s.take(upto - k + 1));
                assert(s.take(upto - k + 1) + s.skip(upto - k + 1) =~= s);
            }
            if !go {
                return false;
            }
            k -= 1;
        }
        proof {
            assert(s.take(upto as int) =~= s);
        }
        true
    }

    /// Walks upward over what stands behind child `from`: item `from`, child
    /// `from + 1`, and so on to the last child.
    pub(crate) fn walk_up_rest<C: Fn(&T, &T) -> Sign, V: FnMut(&T) -> bool>(
        &self,
        from: usize,
        c: &C,
        Ghost(le): Ghost<spec_fn(T, T) -> bool>,
        Ghost(h): Ghost<nat>,
        Ghost(cap): Ghost<nat>,
        Ghost(lo): Ghost<nat>,
        visitor: &mut V,
        hint: &mut u64,
        depth: usize,
    ) -> (done: bool)
        requires
            decides(*c, le),
            total_preorder(le),
            h > 0,
            self.shape(h, cap, lo),
            sorted(le, self@),
            from <= self.items@.len(),
            visits_all(*old(visitor)),
            depth <= HINT_LEVELS,
        ensures
            *final(visitor) == *old(visitor),
            walked(*old(visitor), behind(self.parts(), self.items@, from as int), done),
            routed(*old(hint), *final(hint), deeper_spec(depth), Seq::<nat>::empty()),
        decreases h, 0nat,
    {
        let n = self.items.len();
        let mut k = from;
        let ghost parts = self.parts();
        let ghost items = self.items@;
        let ghost s = behind(parts, items, from as int);
        let ghost mut d = Seq::<T>::empty();
        proof {
            lemma_walked_none::<T, V>(*visitor);
            assert(d + s =~= s);
            lemma_routed_none(*hint, deeper_spec(depth));
        }
        while k < n
            invariant
                depth <= HINT_LEVELS,
                routed(*old(hint), *hint, deeper_spec(depth), Seq::<nat>::empty()),
                decides(*c, le),
                total_preorder(le),
                h > 0,
                self.shape(h, cap, lo),
                sorted(le, self@),
                from <= k <= n,
                n == self.items@.len(),
                parts == self.parts(),
                items == self.items@,
                s == behind(parts, items, from as int),
                *visitor == *old(visitor),
                visits_all(*visitor),
                walked(*visitor, d, true),
                d + behind(parts, items, k as int) == s,
            decreases n - k,
        {
            let ghost pv = parts[k + 1];
            let ghost rest = behind(parts, items, k + 1);
            let go = visitor(&self.items[k]);
            proof {
                lemma_behind_step(parts, items, k as int);
                lemma_walked_one(*visitor, d, items[k as int], go, pv + rest);
                assert(d.push(items[k as int]) + (pv + rest) =~= d + (seq![items[k as int]] + pv
                    + rest));
            }
            if !go {
                return false;
            }
            proof {
                self.lemma_part_sorted(le, h, cap, lo, k + 1);
            }
            let ghost was = *hint;
            let below = self.children[k + 1].walk_up(
                None,
                c,
                Ghost(le),
                Ghost((h - 1) as nat),
                Ghost(cap),
                Ghost(cap / 2),
                visitor,
                hint,
                deeper(depth),
            );
            proof {
                lemma_routed_over(
                    *old(hint),
                    was,
                    *hint,
                    deeper_spec(depth),
                    Seq::<nat>::empty(),
                    Seq::<nat>::empty(),
                );
                lemma_walked_more(*visitor, d.push(items[k as int]), pv, below, rest);
                assert(d.push(items[k as int]) + pv + rest =~= d + (seq![items[k as int]] + pv
                    + rest));
                d = d.push(items[k as int]) + pv;
            }
            if !below {
                return false;
            }
            k += 1;
        }
        proof {
            lemma_behind_step(parts, items, n as int);
            assert(d + Seq::<T>::empty() =~= d);
        }
        true
    }

    /// Walks upward over the items of this subtree, from the first that does
    /// not sort before the pivot, or from the first of all.
    pub(crate) fn walk_up<C: Fn(&T, &T) -> Sign, V: FnMut(&T) -> bool>(
        &self,
        pivot: Option<&T>,
        c: &C,
        Ghost(le): Ghost<spec_fn(T, T) -> bool>,
        Ghost(h): Ghost<nat>,
        Ghost(cap): Ghost<nat>,
        Ghost(lo): Ghost<nat>,
        visitor: &mut V,
        hint: &mut u64,
        depth: usize,
    ) -> (done: bool)
        requires
            decides(*c, le),
            total_preorder(le),
            self.shape(h, cap, lo),
            sorted(le, self@),
            visits_all(*old(visitor)),
            depth <= HINT_LEVELS,
        ensures
            *final(visitor) == *old(visitor),
            walked(*old(visitor), ascending(le, self@, pivot_of(pivot)), done),
            routed(*old(hint), *final(hint), depth, self.pivot_route(le, pivot_of(pivot), h)),
        decreases h, 1nat,
    {
        proof {
            self.lemma_items_sorted(le, h, cap, lo);
        }
        let (hit, i) = match pivot {
            Some(p) => self.search(p, c, Ghost(le), hint, depth),
            None => (false, 0),
        };
        let ghost parts = self.parts();
        let ghost items = self.items@;
        let ghost mid = *hint;
        let ghost below = if pivot is Some && !hit && self.children@.len() > 0 {
            self.children@[i as int].route(le, *pivot.unwrap(), (h - 1) as nat)
        } else {
            Seq::<nat>::empty()
        };
        proof {
            self.lemma_view();
            lemma_routed_none(mid, deeper_spec(depth));
            lemma_routed_none(mid, depth);
            if pivot is Some {
                lemma_routed_step(*old(hint), mid, mid, depth, i as nat, Seq::empty());
                assert(seq![i as nat] + Seq::empty() =~= seq![i as nat]);
            }
        }
        if self.children.len() == 0 {
            proof {
                match pivot {
                    Some(p) => {
                        if hit {
                            lemma_present_at(le, items, *p, i as int);
                        } else {
                            lemma_absent_at(le, items, *p, i as int);
                        }
                    },
                    None => {
                        assert(items.skip(0) =~= items);
                    },
                }
            }
            self.walk_up_leaf(i, visitor)
        } else if hit {
            proof {
                let p = pivot.unwrap();
                lemma_join_pair(parts, items, i as int);
                lemma_behind_step(parts, items, i as int);
                let a = before(parts, items, i as int) + parts[i as int];
                let b = parts[i + 1] + behind(parts, items, i + 1);
                assert(a + seq![items[i as int]] + b =~= before(parts, items, i as int) + (
                parts[i as int] + seq![items[i as int]] + parts[i + 1]) + behind(
                    parts,
                    items,
                    i + 1,
                ));
                lemma_hit(le, a, items[i as int], b, *p);
                assert(seq![items[i as int]] + b =~= seq![items[i as int]] + parts[i + 1] + behind(
                    parts,
                    items,
                    i + 1,
                ));
            }
            let done = self.walk_up_rest(
                i,
                c,
                Ghost(le),
                Ghost(h),
                Ghost(cap),
                Ghost(lo),
                visitor,
                hint,
                depth,
            );
            proof {
                lemma_routed_step(*old(hint), mid, *hint, depth, i as nat, Seq::empty());
            }
            done
        } else {
            let ghost cv = parts[i as int];
            let ghost rest = behind(parts, items, i as int);
            proof {
                lemma_join_part(parts, items, i as int, cv);
                lemma_before_step(parts, items, 0);
                self.lemma_part_sorted(le, h, cap, lo, i as int);
                match pivot {
                    Some(p) => {
                        lemma_descend(le, before(parts, items, i as int), cv, rest, *p);
                    },
                    None => {
                        assert(Seq::<T>::empty() + cv + rest =~= cv + rest);
                    },
                }
                lemma_walked_none::<T, V>(*visitor);
            }
            let first = self.children[i].walk_up(
                pivot,
                c,
                Ghost(le),
                Ghost((h - 1) as nat),
                Ghost(cap),
                Ghost(cap / 2),
                visitor,
                hint,
                deeper(depth),
            );
            let ghost sc = ascending(le, cv, pivot_of(pivot));
            let ghost then = *hint;
            proof {
                lemma_walked_more(*visitor, Seq::<T>::empty(), sc, first, rest);
                assert(Seq::<T>::empty() + sc =~= sc);
                if pivot is Some {
                    lemma_routed_step(*old(hint), mid, then, depth, i as nat, below);
                } else {
                    lemma_routed_empty(mid, then, deeper_spec(depth), depth);
                }
            }
            if !first {
                return false;
            }
            let done = self.walk_up_rest(
                i,
                c,
                Ghost(le),
                Ghost(h),
                Ghost(cap),
                Ghost(lo),
                visitor,
                hint,
                depth,
            );
            proof {
                lemma_walked_more(*visitor, sc, rest, done, Seq::<T>::empty());
                assert(sc + rest + Seq::<T>::empty() =~= sc + rest);
                lemma_routed_empty(then, *hint, deeper_spec(depth), depth);
                lemma_routed_kept(
                    *old(hint),
                    then,
                    *hint,
                    depth,
                    self.pivot_route(le, pivot_of(pivot), h),
                );
            }
            done
        }
    }

    /// Walks downward over what stands before child `upto`: item `upto - 1`,
    /// child `upto - 1`, and so on to the first child.
    pub(crate) fn walk_down_rest<C: Fn(&T, &T) -> Sign, V: FnMut(&T) -> bool>(
        &self,
        upto: usize,
        c: &C,
        Ghost(le): Ghost<spec_fn(T, T) -> bool>,
        Ghost(h): Ghost<nat>,
        Ghost(cap): Ghost<nat>,
        Ghost(lo): Ghost<nat>,
        visitor: &mut V,
        hint: &mut u64,
        depth: usize,
    ) -> (done: bool)
        requires
            decides(*c, le),
            total_preorder(le),
            h > 0,
            self.shape(h, cap, lo),
            sorted(le, self@),
            upto <= self.items@.len(),
            visits_all(*old(visitor)),
            depth <= HINT_LEVELS,
        ensures
            *final(visitor) == *old(visitor),
            walked(*old(visitor), before(self.parts(), self.items@, upto as int).reverse(), done),
            routed(*old(hint), *final(hint), deeper_spec(depth), Seq::<nat>::empty()),
        decreases h, 0nat,
    {
        let mut k = upto;
        let ghost parts = self.parts();
        let ghost items = self.items@;
        let ghost s = before(parts, items, upto as int).reverse();
        let ghost mut d = Seq::<T>::empty();
        proof {
            lemma_walked_none::<T, V>(*visitor);
            assert(d + s =~= s);
            lemma_routed_none(*hint, deeper_spec(depth));
        }
        while k > 0
            invariant
                depth <= HINT_LEVELS,
                routed(*old(hint), *hint, deeper_spec(depth), Seq::<nat>::empty()),
                decides(*c, le),
                total_preorder(le),
                h > 0,
                self.shape(h, cap, lo),
                sorted(le, self@),
                k <= upto <= self.items@.len(),
                parts == self.parts(),
                items == self.items@,
                s == before(parts, items, upto as int).reverse(),
                *visitor == *old(visitor),
                visits_all(*visitor),
                walked(*visitor, d, true),
                d + before(parts, items, k as int).reverse() == s,
            decreases k,
        {
            let ghost x = items[k - 1];
            let ghost pv = parts[k - 1].reverse();
            let ghost rest = before(parts, items, k - 1).reverse();
            let go = visitor(&self.items[k - 1]);
            proof {
                lemma_before_step(parts, items, k as int);
                lemma_reverse_concat(before(parts, items, k - 1) + parts[k - 1], seq![x]);
                lemma_reverse_concat(before(parts, items, k - 1), parts[k - 1]);
                assert(seq![x].reverse() =~= seq![x]);
                lemma_walked_one(*visitor, d, x, go, pv + rest);
                assert(d.push(x) + (pv + rest) =~= d + (seq![x] + (pv + rest)));
            }
            if !go {
                return false;
            }
            proof {
                self.lemma_part_sorted(le, h, cap, lo, k - 1);
            }
            let ghost was = *hint;
            let below = self.children[k - 1].walk_down(
                None,
                c,
                Ghost(le),
                Ghost((h - 1) as nat),
                Ghost(cap),
                Ghost(cap / 2),
                visitor,
                hint,
                deeper(depth),
            );
            proof {
                lemma_routed_over(
                    *old(hint),
                    was,
                    *hint,
                    deeper_spec(depth),
                    Seq::<nat>::empty(),
                    Seq::<nat>::empty(),
                );
                lemma_walked_more(*visitor, d.push(x), pv, below, rest);
                assert(d.push(x) + pv + rest =~= d + (seq![x] + (pv + rest)));
                d = d.push(x) + pv;
            }
            if !below {
                return false;
            }
            k -= 1;
        }
        proof {
            lemma_before_step(parts, items, 0);
            assert(Seq::<T>::empty().reverse() =~= Seq::<T>::empty());
            assert(d + Seq::<T>::empty() =~= d);
        }
        true
    }

    /// Walks downward over the items of this subtree, from the last that does
    /// not sort after the pivot, or from the last of all.
    pub(crate) fn walk_down<C: Fn(&T, &T) -> Sign, V: FnMut(&T) -> bool>(
        &self,
        pivot: Option<&T>,
        c: &C,
        Ghost(le): Ghost<spec_fn(T, T) -> bool>,
        Ghost(h): Ghost<nat>,
        Ghost(cap): Ghost<nat>,
        Ghost(lo): Ghost<nat>,
        visitor: &mut V,
        hint: &mut u64,
        depth: usize,
    ) -> (done: bool)
        requires
            decides(*c, le),
            total_preorder(le),
            self.shape(h, cap, lo),
            sorted(le, self@),
            visits_all(*old(visitor)),
            depth <= HINT_LEVELS,
        ensures
            *final(visitor) == *old(visitor),
            walked(*old(visitor), descending(le, self@, pivot_of(pivot)), done),
            routed(*old(hint), *final(hint), depth, self.pivot_route(le, pivot_of(pivot), h)),
        decreases h, 1nat,
    {
        let n = self.items.len();
        proof {
            self.lemma_items_sorted(le, h, cap, lo);
        }
        let (hit, i) = match pivot {
            Some(p) => self.search(p, c, Ghost(le), hint, depth),
            None => (false, n),
        };
        let ghost parts = self.parts();
        let ghost items = self.items@;
        let ghost mid = *hint;
        let ghost below = if pivot is Some && !hit && self.children@.len() > 0 {
            self.children@[i as int].route(le, *pivot.unwrap(), (h - 1) as nat)
        } else {
            Seq::<nat>::empty()
        };
        proof {
            self.lemma_view();
            lemma_routed_none(mid, deeper_spec(depth));
            lemma_routed_none(mid, depth);
            if pivot is Some {
                lemma_routed_step(*old(hint), mid, mid, depth, i as nat, Seq::empty());
                assert(seq![i as nat] + Seq::empty() =~= seq![i as nat]);
            }
        }
        if self.children.len() == 0 {
            proof {
                match pivot {
                    Some(p) => {
                        if hit {
                            lemma_present_at(le, items, *p, i as int);
                        } else {
                            lemma_absent_at(le, items, *p, i as int);
                        }
                    },
                    None => {
                        assert(items.take(n as int) =~= items);
                    },
                }
            }
            let upto = if hit { i + 1 } else { i };
            self.walk_down_leaf(upto, visitor)
        } else if hit {
            proof {
                let p = pivot.unwrap();
                lemma_join_pair(parts, items, i as int);
                lemma_before_step(parts, items, i + 1);
                let a = before(parts, items, i as int) + parts[i as int];
                let b = parts[i + 1] + behind(parts, items, i + 1);
                assert(a + seq![items[i as int]] + b =~= before(parts, items, i as int) + (
                parts[i as int] + seq![items[i as int]] + parts[i + 1]) + behind(
                    parts,
                    items,
                    i + 1,
                ));
                lemma_hit(le, a, items[i as int], b, *p);
            }
            let done = self.walk_down_rest(
                i + 1,
                c,
                Ghost(le),
                Ghost(h),
                Ghost(cap),
                Ghost(lo),
                visitor,
                hint,
                depth,
            );
            proof {
                lemma_routed_step(*old(hint), mid, *hint, depth, i as nat, Seq::empty());
            }
            done
        } else {
            let ghost cv = parts[i as int];
            let ghost rest = before(parts, items, i as int).reverse();
            let ghost sc = descending(le, cv, pivot_of(pivot));
            proof {
                lemma_join_part(parts, items, i as int, cv);
                lemma_behind_step(parts, items, n as int);
                self.lemma_part_sorted(le, h, cap, lo, i as int);
                match pivot {
                    Some(p) => {
                        lemma_descend(
                            le,
                            before(parts, items, i as int),
                            cv,
                            behind(parts, items, i as int),
                            *p,
                        );
                        lemma_reverse_concat(
                            before(parts, items, i as int),
                            at_most(le, cv, *p),
                        );
                    },
                    None => {
                        assert(before(parts, items, i as int) + cv + Seq::<T>::empty() =~= before(
                            parts,
                            items,
                            i as int,
                        ) + cv);
                        lemma_reverse_concat(before(parts, items, i as int), cv);
                    },
                }
                lemma_walked_none::<T, V>(*visitor);
            }
            let first = self.children[i].walk_down(
                pivot,
                c,
                Ghost(le),
                Ghost((h - 1) as nat),
                Ghost(cap),
                Ghost(cap / 2),
                visitor,
                hint,
                deeper(depth),
            );
            let ghost then = *hint;
            proof {
                lemma_walked_more(*visitor, Seq::<T>::empty(), sc, first, rest);
                assert(Seq::<T>::empty() + sc =~= sc);
                if pivot is Some {
                    lemma_routed_step(*old(hint), mid, then, depth, i as nat, below);
                } else {
                    lemma_routed_empty(mid, then, deeper_spec(depth), depth);
                }
            }
            if !first {
                return false;
            }
            let done = self.walk_down_rest(
                i,
                c,
                Ghost(le),
                Ghost(h),
                Ghost(cap),
                Ghost(lo),
                visitor,
                hint,
                depth,
            );
            proof {
                lemma_walked_more(*visitor, sc, rest, done, Seq::<T>::empty());
                assert(sc + rest + Seq::<T>::empty() =~= sc + rest);
                lemma_routed_empty(then, *hint, deeper_spec(depth), depth);
                lemma_routed_kept(
                    *old(hint),
                    then,
                    *hint,
                    depth,
                    self.pivot_route(le, pivot_of(pivot), h),
                );
            }
            done
        }
    }
}

} // verus!
