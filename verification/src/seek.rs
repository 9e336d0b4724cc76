//! Finding single items by position: the first and the last item of a
//! subtree, and the nearest item on either side of a pivot.
use vstd::prelude::*;
use crate::hint::HINT_LEVELS;
use crate::join::{
    before, behind, lemma_before_step, lemma_behind_step, lemma_join_pair, lemma_join_part,
};
use crate::node::Node;
use crate::order::{decides, total_preorder, Sign};
use crate::search::deeper;
use crate::sorted::{
    at_least, at_most, head, lemma_absent_at, lemma_descend, lemma_hit, lemma_present_at, lower,
    sorted, tail, upper,
};

verus! {

/// The items of `s` from the pivot upward: those that do not sort before it,
/// or only those that sort after it.
pub open spec fn above<T>(
    le: spec_fn(T, T) -> bool,
    s: Seq<T>,
    pivot: T,
    inclusive: bool,
) -> Seq<T> {
    if inclusive {
        at_least(le, s, pivot)
    } else {
        upper(le, s, pivot)
    }
}

/// The items of `s` from the pivot downward: those that do not sort after
/// it, or only those that sort before it.
pub open spec fn below<T>(
    le: spec_fn(T, T) -> bool,
    s: Seq<T>,
    pivot: T,
    inclusive: bool,
) -> Seq<T> {
    if inclusive {
        at_most(le, s, pivot)
    } else {
        lower(le, s, pivot)
    }
}

/// What a reference to an item, if there is one, refers to.
pub open spec fn item_of<T>(r: Option<&T>) -> Option<T> {
    match r {
        Some(x) => Some(*x),
        None => None,
    }
}

impl<T> Node<T> {
    /// The smallest item of this subtree.
    pub(crate) fn first(
        &self,
        Ghost(h): Ghost<nat>,
        Ghost(cap): Ghost<nat>,
        Ghost(lo): Ghost<nat>,
    ) -> (r: Option<&T>)
        requires
            self.shape(h, cap, lo),
            cap >= 2,
        ensures
            item_of(r) == head(self@),
        decreases h,
    {
        proof {
            self.lemma_view();
            if h > 0 {
                let parts = self.parts();
                let items = self.items@;
                lemma_join_part(parts, items, 0, parts[0]);
                lemma_before_step(parts, items, 0);
                self.children@[0].lemma_len((h - 1) as nat, cap, cap / 2);
            }
        }
        if self.children.len() == 0 {
            if self.items.len() > 0 {
                Some(&self.items[0])
            } else {
                None
            }
        } else {
            self.children[0].first(Ghost((h - 1) as nat), Ghost(cap), Ghost(cap / 2))
        }
    }

    /// The largest item of this subtree.
    pub(crate) fn last(
        &self,
        Ghost(h): Ghost<nat>,
        Ghost(cap): Ghost<nat>,
        Ghost(lo): Ghost<nat>,
    ) -> (r: Option<&T>)
        requires
            self.shape(h, cap, lo),
            cap >= 2,
        ensures
            item_of(r) == tail(self@),
        decreases h,
    {
        let n = self.items.len();
        proof {
            self.lemma_view();
            if h > 0 {
                let parts = self.parts();
                let items = self.items@;
                lemma_join_part(parts, items, n as int, parts[n as int]);
                lemma_behind_step(parts, items, n as int);
                self.children@[n as int].lemma_len((h - 1) as nat, cap, cap / 2);
            }
        }
        if self.children.len() == 0 {
            if n > 0 {
                Some(&self.items[n - 1])
            } else {
                None
            }
        } else {
            self.children[n].last(Ghost((h - 1) as nat), Ghost(cap), Ghost(cap / 2))
        }
    }

    /// The smallest item that does not sort before the pivot or, where
    /// `inclusive` is false, the smallest that sorts after it.
    pub(crate) fn seek_up<'a, C: Fn(&T, &T) -> Sign>(
        &'a self,
        pivot: &T,
        inclusive: bool,
        c: &C,
        Ghost(le): Ghost<spec_fn(T, T) -> bool>,
        Ghost(h): Ghost<nat>,
        Ghost(cap): Ghost<nat>,
        Ghost(lo): Ghost<nat>,
        hint: &mut u64,
        depth: usize,
    ) -> (r: Option<&'a T>)
        requires
            decides(*c, le),
            total_preorder(le),
            self.shape(h, cap, lo),
            sorted(le, self@),
            cap >= 2,
            depth <= HINT_LEVELS,
        ensures
            item_of(r) == head(above(le, self@, *pivot, inclusive)),
        decreases h,
    {
        let n = self.items.len();
        proof {
            self.lemma_items_sorted(le, h, cap, lo);
        }
        let (hit, i) = self.search(pivot, c, Ghost(le), hint, depth);
        let ghost parts = self.parts();
        let ghost items = self.items@;
        proof {
            self.lemma_view();
        }
        if self.children.len() == 0 {
            proof {
                if hit {
                    lemma_present_at(le, items, *pivot, i as int);
                } else {
                    lemma_absent_at(le, items, *pivot, i as int);
                }
            }
            let k = if hit && !inclusive { i + 1 } else { i };
            if k < n {
                Some(&self.items[k])
            } else {
                None
            }
        } else if hit {
            proof {
                lemma_join_pair(parts, items, i as int);
                let a = before(parts, items, i as int) + parts[i as int];
                let b = parts[i + 1] + behind(parts, items, i + 1);
                assert(a + seq![items[i as int]] + b =~= before(parts, items, i as int) + (
                parts[i as int] + seq![items[i as int]] + parts[i + 1]) + behind(
                    parts,
                    items,
                    i + 1,
                ));
                lemma_hit(le, a, items[i as int], b, *pivot);
                self.children@[i + 1].lemma_len((h - 1) as nat, cap, cap / 2);
            }
            if inclusive {
                Some(&self.items[i])
            } else {
                self.children[i + 1].first(Ghost((h - 1) as nat), Ghost(cap), Ghost(cap / 2))
            }
        } else {
            proof {
                lemma_join_part(parts, items, i as int, parts[i as int]);
                lemma_descend(
                    le,
                    before(parts, items, i as int),
                    parts[i as int],
                    behind(parts, items, i as int),
                    *pivot,
                );
                lemma_behind_step(parts, items, i as int);
            }
            let r = self.children[i].seek_up(
                pivot,
                inclusive,
                c,
                Ghost(le),
                Ghost((h - 1) as nat),
                Ghost(cap),
                Ghost(cap / 2),
                hint,
                deeper(depth),
            );
            if r.is_some() {
                r
            } else if i < n {
                Some(&self.items[i])
            } else {
                None
            }
        }
    }

    /// The largest item that does not sort after the pivot or, where
    /// `inclusive` is false, the largest that sorts before it.
    pub(crate) fn seek_down<'a, C: Fn(&T, &T) -> Sign>(
        &'a self,
        pivot: &T,
        inclusive: bool,
        c: &C,
        Ghost(le): Ghost<spec_fn(T, T) -> bool>,
        Ghost(h): Ghost<nat>,
        Ghost(cap): Ghost<nat>,
        Ghost(lo): Ghost<nat>,
        hint: &mut u64,
        depth: usize,
    ) -> (r: Option<&'a T>)
        requires
            decides(*c, le),
            total_preorder(le),
            self.shape(h, cap, lo),
            sorted(le, self@),
            cap >= 2,
            depth <= HINT_LEVELS,
        ensures
            item_of(r) == tail(below(le, self@, *pivot, inclusive)),
        decreases h,
    {
        proof {
            self.lemma_items_sorted(le, h, cap, lo);
        }
        let (hit, i) = self.search(pivot, c, Ghost(le), hint, depth);
        assert(i <= self.items.len());
        let ghost parts = self.parts();
        let ghost items = self.items@;
        proof {
            self.lemma_view();
        }
        if self.children.len() == 0 {
            proof {
                if hit {
                    lemma_present_at(le, items, *pivot, i as int);
                } else {
                    lemma_absent_at(le, items, *pivot, i as int);
                }
            }
            let k = if hit && inclusive { i + 1 } else { i };
            if k > 0 {
                Some(&self.items[k - 1])
            } else {
                None
            }
        } else if hit {
            proof {
                lemma_join_pair(parts, items, i as int);
                let a = before(parts, items, i as int) + parts[i as int];
                let b = parts[i + 1] + behind(parts, items, i + 1);
                assert(a + seq![items[i as int]] + b =~= before(parts, items, i as int) + (
                parts[i as int] + seq![items[i as int]] + parts[i + 1]) + behind(
                    parts,
                    items,
                    i + 1,
                ));
                lemma_hit(le, a, items[i as int], b, *pivot);
                self.children@[i as int].lemma_len((h - 1) as nat, cap, cap / 2);
            }
            if inclusive {
                Some(&self.items[i])
            } else {
                self.children[i].last(Ghost((h - 1) as nat), Ghost(cap), Ghost(cap / 2))
            }
        } else {
            proof {
                lemma_join_part(parts, items, i as int, parts[i as int]);
                lemma_descend(
                    le,
                    before(parts, items, i as int),
                    parts[i as int],
                    behind(parts, items, i as int),
                    *pivot,
                );
                lemma_before_step(parts, items, i as int);
            }
            let r = self.children[i].seek_down(
                pivot,
                inclusive,
                c,
                Ghost(le),
                Ghost((h - 1) as nat),
                Ghost(cap),
                Ghost(cap / 2),
                hint,
                deeper(depth),
            );
            if r.is_some() {
                r
            } else if i > 0 {
                Some(&self.items[i - 1])
            } else {
                None
            }
        }
    }
}

} // verus!
