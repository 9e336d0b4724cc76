//! Laws of the container, stated over its model: what holds of lookups after
//! changes, of the two directions of a walk, and of emptying a container from
//! either end.
use vstd::prelude::*;
use crate::order::{equiv, lemma_order, lt, total_preorder};
use crate::sorted::{
    all_but_first, all_but_last, ascending, descending, found, head, inserted, lemma_at,
    lemma_bound_shift, lemma_bounds_empty, lemma_descend, lemma_frame, lemma_hit, lemma_pivot_range,
    lemma_small, lemma_sorted_halves, lemma_update_sorted, removed, sorted, tail,
};

verus! {

/// What a container holds after the items `xs` were put into an empty one, in
/// their order in `xs`.
pub open spec fn filled<T>(le: spec_fn(T, T) -> bool, xs: Seq<T>) -> Seq<T>
    decreases xs.len(),
{
    if xs.len() == 0 {
        Seq::empty()
    } else {
        inserted(le, filled(le, xs.drop_last()), xs.last())
    }
}

/// The last item of `xs` that is equivalent to `k`, if there is one.
pub open spec fn latest<T>(le: spec_fn(T, T) -> bool, xs: Seq<T>, k: T) -> Option<T>
    decreases xs.len(),
{
    if xs.len() == 0 {
        None
    } else if equiv(le, xs.last(), k) {
        Some(xs.last())
    } else {
        latest(le, xs.drop_last(), k)
    }
}

/// The number of keys in `xs`, where equivalent items count as one key.
pub open spec fn distinct<T>(le: spec_fn(T, T) -> bool, xs: Seq<T>) -> nat
    decreases xs.len(),
{
    if xs.len() == 0 {
        0
    } else {
        distinct(le, xs.drop_last()) + if latest(le, xs.drop_last(), xs.last()) is None {
            1nat
        } else {
            0nat
        }
    }
}

/// What taking the first item, again and again, brings out of `s`.
pub open spec fn drained_front<T>(s: Seq<T>) -> Seq<T>
    decreases s.len(),
{
    if s.len() == 0 {
        Seq::empty()
    } else {
        seq![head(s).unwrap()] + drained_front(all_but_first(s))
    }
}

/// What taking the last item, again and again, brings out of `s`.
pub open spec fn drained_back<T>(s: Seq<T>) -> Seq<T>
    decreases s.len(),
{
    if s.len() == 0 {
        Seq::empty()
    } else {
        seq![tail(s).unwrap()] + drained_back(all_but_last(s))
    }
}

/// After `x` was put in, a lookup of a key equivalent to `x` finds `x`, and a
/// lookup of any other key finds what it found before.
pub proof fn lemma_get_after_set<T>(le: spec_fn(T, T) -> bool, s: Seq<T>, x: T, k: T)
    requires
        total_preorder(le),
        sorted(le, s),
    ensures
        found(le, inserted(le, s, x), k) == if equiv(le, x, k) {
            Some(x)
        } else {
            found(le, s, k)
        },
{
    let (i, j) = lemma_pivot_range(le, s, x);
    let e = Seq::<T>::empty();
    let l = s.take(i);
    let u = s.skip(j);
    let t = inserted(le, s, x);
    lemma_update_sorted(le, s, x);
    lemma_order(le, x, k, x);
    if equiv(le, x, k) {
        lemma_hit(le, l, x, u, k);
    } else if lt(le, k, x) {
        let b = seq![x] + u;
        assert(e + l + b =~= t);
        assert(b[0] == x);
        lemma_descend(le, e, l, b, k);
        let c = s.skip(i);
        assert(e + l + c =~= s);
        if c.len() > 0 {
            assert(c[0] == s[i]);
            lemma_order(le, k, x, s[i]);
        }
        lemma_descend(le, e, l, c, k);
    } else {
        let a = l + seq![x];
        assert(a + u + e =~= t);
        assert(a[a.len() - 1] == x);
        lemma_descend(le, a, u, e, k);
        let c = s.take(j);
        assert(c + u + e =~= s);
        if c.len() > 0 {
            assert(c[c.len() - 1] == s[j - 1]);
            lemma_order(le, s[j - 1], x, k);
        }
        lemma_descend(le, c, u, e, k);
    }
}

/// After the item equivalent to `x` was taken out, a lookup of a key
/// equivalent to `x` finds nothing, and a lookup of any other key finds what
/// it found before.
pub proof fn lemma_get_after_delete<T>(le: spec_fn(T, T) -> bool, s: Seq<T>, x: T, k: T)
    requires
        total_preorder(le),
        sorted(le, s),
    ensures
        found(le, removed(le, s, x), k) == if equiv(le, x, k) {
            None
        } else {
            found(le, s, k)
        },
{
    let (i, j) = lemma_pivot_range(le, s, x);
    let e = Seq::<T>::empty();
    let l = s.take(i);
    let u = s.skip(j);
    let t = removed(le, s, x);
    lemma_update_sorted(le, s, x);
    lemma_order(le, x, k, x);
    if equiv(le, x, k) {
        lemma_bound_shift(le, l, x, k);
        lemma_bound_shift(le, u, x, k);
        lemma_frame(le, l, e, u, k);
        lemma_small(le, x, k);
        assert(l + e + u =~= t);
    } else if lt(le, k, x) {
        assert(e + l + u =~= t);
        if u.len() > 0 {
            assert(u[0] == s[j]);
            lemma_order(le, k, x, s[j]);
        }
        lemma_descend(le, e, l, u, k);
        let c = s.skip(i);
        assert(e + l + c =~= s);
        if c.len() > 0 {
            assert(c[0] == s[i]);
            lemma_order(le, k, x, s[i]);
        }
        lemma_descend(le, e, l, c, k);
    } else {
        assert(l + u + e =~= t);
        if l.len() > 0 {
            assert(l[l.len() - 1] == s[i - 1]);
            lemma_order(le, s[i - 1], x, k);
        }
        lemma_descend(le, l, u, e, k);
        let c = s.take(j);
        assert(c + u + e =~= s);
        if c.len() > 0 {
            assert(c[c.len() - 1] == s[j - 1]);
            lemma_order(le, s[j - 1], x, k);
        }
        lemma_descend(le, c, u, e, k);
    }
}

/// Putting an item in adds one to the number of items exactly when no
/// equivalent item was there; taking one out subtracts one exactly when it
/// was there. Either way the items stay sorted.
pub proof fn lemma_count_after_change<T>(le: spec_fn(T, T) -> bool, s: Seq<T>, x: T)
    requires
        total_preorder(le),
        sorted(le, s),
    ensures
        sorted(le, inserted(le, s, x)),
        sorted(le, removed(le, s, x)),
        inserted(le, s, x).len() == s.len() + if found(le, s, x) is None { 1int } else { 0int },
        removed(le, s, x).len() == s.len() - if found(le, s, x) is Some { 1int } else { 0int },
{
    lemma_update_sorted(le, s, x);
}

/// After any sequence of items was put into an empty container, the number
/// of items is the number of distinct keys among them, and a lookup finds the
/// item that was put in last for its key.
pub proof fn lemma_sets<T>(le: spec_fn(T, T) -> bool, xs: Seq<T>, k: T)
    requires
        total_preorder(le),
    ensures
        sorted(le, filled(le, xs)),
        filled(le, xs).len() == distinct(le, xs),
        found(le, filled(le, xs), k) == latest(le, xs, k),
    decreases xs.len(),
{
    if xs.len() == 0 {
        lemma_bounds_empty(le, filled(le, xs), k);
        lemma_small(le, k, k);
    } else {
        let ys = xs.drop_last();
        let x = xs.last();
        lemma_sets(le, ys, k);
        lemma_sets(le, ys, x);
        lemma_update_sorted(le, filled(le, ys), x);
        lemma_get_after_set(le, filled(le, ys), x, k);
    }
}

/// Without a pivot, the descending walk meets what the ascending walk meets,
/// in the opposite order.
pub proof fn lemma_descend_reverses_ascend<T>(le: spec_fn(T, T) -> bool, s: Seq<T>)
    ensures
        descending(le, s, None) == ascending(le, s, None).reverse(),
        descending(le, s, None).reverse() == ascending(le, s, None),
{
    assert(s.reverse().reverse() =~= s);
}

/// With a pivot, the ascending walk meets a suffix of what it meets without
/// one: exactly the items that do not sort before the pivot, in sorted order.
pub proof fn lemma_ascend_from_pivot<T>(le: spec_fn(T, T) -> bool, s: Seq<T>, p: T) -> (k: int)
    requires
        total_preorder(le),
        sorted(le, s),
    ensures
        0 <= k <= s.len(),
        ascending(le, s, Some(p)) == ascending(le, s, None).skip(k),
        sorted(le, ascending(le, s, Some(p))),
        forall|i: int| 0 <= i < k ==> lt(le, #[trigger] s[i], p),
        forall|i: int| k <= i < s.len() ==> le(p, #[trigger] s[i]),
{
    let (i, j) = lemma_pivot_range(le, s, p);
    assert(s.take(i) + s.skip(i) =~= s);
    lemma_sorted_halves(le, s.take(i), s.skip(i));
    assert forall|n: int| 0 <= n < i implies lt(le, #[trigger] s[n], p) by {
        lemma_at(le, s.take(i), p, n, n);
    }
    assert forall|n: int| i <= n < s.len() implies le(p, #[trigger] s[n]) by {
        if n >= j {
            lemma_at(le, s.skip(j), p, n - j, n - j);
            lemma_order(le, p, s[n], p);
        }
    }
    i
}

/// With a pivot, the descending walk meets a suffix of what it meets without
/// one: exactly the items that do not sort after the pivot, largest first.
pub proof fn lemma_descend_from_pivot<T>(le: spec_fn(T, T) -> bool, s: Seq<T>, p: T) -> (k: int)
    requires
        total_preorder(le),
        sorted(le, s),
    ensures
        0 <= k <= s.len(),
        descending(le, s, Some(p)) == descending(le, s, None).skip(s.len() - k),
        descending(le, s, Some(p)) == s.take(k).reverse(),
        sorted(le, s.take(k)),
        forall|i: int| 0 <= i < k ==> le(#[trigger] s[i], p),
        forall|i: int| k <= i < s.len() ==> lt(le, p, #[trigger] s[i]),
{
    let (i, j) = lemma_pivot_range(le, s, p);
    assert(s.take(j) + s.skip(j) =~= s);
    lemma_sorted_halves(le, s.take(j), s.skip(j));
    assert(s.take(j).reverse() =~= s.reverse().skip(s.len() - j));
    assert forall|n: int| j <= n < s.len() implies lt(le, p, #[trigger] s[n]) by {
        lemma_at(le, s.skip(j), p, n - j, n - j);
    }
    assert forall|n: int| 0 <= n < j implies le(#[trigger] s[n], p) by {
        if n < i {
            lemma_at(le, s.take(i), p, n, n);
            lemma_order(le, s[n], p, p);
        }
    }
    j
}

/// Taking the smallest item until none is left brings the items out in
/// ascending order; taking the largest, in descending order.
pub proof fn lemma_pops_drain<T>(s: Seq<T>)
    ensures
        drained_front(s) == s,
        drained_back(s) == s.reverse(),
    decreases s.len(),
{
    if s.len() > 0 {
        lemma_pops_drain(all_but_first(s));
        lemma_pops_drain(all_but_last(s));
        assert(seq![s[0]] + s.skip(1) =~= s);
        assert(seq![s.last()] + s.drop_last().reverse() =~= s.reverse());
    } else {
        assert(s.reverse() =~= s);
    }
}

} // verus!
