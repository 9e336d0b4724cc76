//! Strictly sorted sequences: the mathematical model of a tree's contents, and
//! what insertion, removal, lookup and ranged traversal mean on that model.
use vstd::prelude::*;
use crate::order::{equiv, lemma_order, lt, total_preorder};

verus! {

/// Every item sorts strictly before every later item.
#[verifier::opaque]
pub open spec fn sorted<T>(le: spec_fn(T, T) -> bool, s: Seq<T>) -> bool {
    forall|i: int, j: int| 0 <= i < j < s.len() ==> lt(le, #[trigger] s[i], #[trigger] s[j])
}

/// Every item of `s` sorts strictly before `x`.
#[verifier::opaque]
pub open spec fn all_below<T>(le: spec_fn(T, T) -> bool, s: Seq<T>, x: T) -> bool {
    forall|i: int| 0 <= i < s.len() ==> lt(le, #[trigger] s[i], x)
}

/// Every item of `s` sorts strictly after `x`.
#[verifier::opaque]
pub open spec fn all_above<T>(le: spec_fn(T, T) -> bool, s: Seq<T>, x: T) -> bool {
    forall|i: int| 0 <= i < s.len() ==> lt(le, x, #[trigger] s[i])
}

/// How many items of `s` sort strictly before `x`.
pub open spec fn count_below<T>(le: spec_fn(T, T) -> bool, s: Seq<T>, x: T) -> nat
    decreases s.len(),
{
    if s.len() == 0 {
        0
    } else {
        count_below(le, s.drop_last(), x) + if lt(le, s.last(), x) { 1nat } else { 0nat }
    }
}

/// How many items of `s` sort strictly after `x`.
pub open spec fn count_above<T>(le: spec_fn(T, T) -> bool, s: Seq<T>, x: T) -> nat
    decreases s.len(),
{
    if s.len() == 0 {
        0
    } else {
        count_above(le, s.drop_last(), x) + if lt(le, x, s.last()) { 1nat } else { 0nat }
    }
}

/// The position in a sorted `s` of the first item that does not sort before `x`.
pub open spec fn first_at_least<T>(le: spec_fn(T, T) -> bool, s: Seq<T>, x: T) -> int {
    count_below(le, s, x) as int
}

/// The position in a sorted `s` just past the last item that does not sort
/// after `x`.
pub open spec fn end_at_most<T>(le: spec_fn(T, T) -> bool, s: Seq<T>, x: T) -> int {
    s.len() - count_above(le, s, x)
}

/// The items of a sorted `s` that sort strictly before `x`.
pub open spec fn lower<T>(le: spec_fn(T, T) -> bool, s: Seq<T>, x: T) -> Seq<T> {
    s.take(first_at_least(le, s, x))
}

/// The items of a sorted `s` that sort strictly after `x`.
pub open spec fn upper<T>(le: spec_fn(T, T) -> bool, s: Seq<T>, x: T) -> Seq<T> {
    s.skip(end_at_most(le, s, x))
}

/// The items of a sorted `s` equivalent to `x`: at most one.
pub open spec fn alike<T>(le: spec_fn(T, T) -> bool, s: Seq<T>, x: T) -> Seq<T> {
    s.subrange(first_at_least(le, s, x), end_at_most(le, s, x))
}

/// The items of a sorted `s` that do not sort before `x`.
pub open spec fn at_least<T>(le: spec_fn(T, T) -> bool, s: Seq<T>, x: T) -> Seq<T> {
    s.skip(first_at_least(le, s, x))
}

/// The items of a sorted `s` that do not sort after `x`.
pub open spec fn at_most<T>(le: spec_fn(T, T) -> bool, s: Seq<T>, x: T) -> Seq<T> {
    s.take(end_at_most(le, s, x))
}

/// `s` after `x` is put in: whatever was equivalent to `x` is gone and `x`
/// stands between the items below it and the items above it.
pub open spec fn inserted<T>(le: spec_fn(T, T) -> bool, s: Seq<T>, x: T) -> Seq<T> {
    lower(le, s, x) + seq![x] + upper(le, s, x)
}

/// `s` without the item equivalent to `x`.
pub open spec fn removed<T>(le: spec_fn(T, T) -> bool, s: Seq<T>, x: T) -> Seq<T> {
    lower(le, s, x) + upper(le, s, x)
}

/// The item of `s` equivalent to `x`, if there is one.
pub open spec fn found<T>(le: spec_fn(T, T) -> bool, s: Seq<T>, x: T) -> Option<T> {
    if alike(le, s, x).len() > 0 {
        Some(alike(le, s, x)[0])
    } else {
        None
    }
}

/// The first item of `s`, if there is one.
pub open spec fn head<T>(s: Seq<T>) -> Option<T> {
    if s.len() > 0 {
        Some(s[0])
    } else {
        None
    }
}

/// The last item of `s`, if there is one.
pub open spec fn tail<T>(s: Seq<T>) -> Option<T> {
    if s.len() > 0 {
        Some(s[s.len() - 1])
    } else {
        None
    }
}

/// `s` without its first item.
pub open spec fn all_but_first<T>(s: Seq<T>) -> Seq<T> {
    if s.len() > 0 {
        s.skip(1)
    } else {
        s
    }
}

/// `s` without its last item.
pub open spec fn all_but_last<T>(s: Seq<T>) -> Seq<T> {
    if s.len() > 0 {
        s.drop_last()
    } else {
        s
    }
}

/// What an ascending walk meets: all of `s`, or with a pivot the items that do
/// not sort before it, smallest first.
pub open spec fn ascending<T>(le: spec_fn(T, T) -> bool, s: Seq<T>, pivot: Option<T>) -> Seq<T> {
    match pivot {
        Some(p) => at_least(le, s, p),
        None => s,
    }
}

/// What a descending walk meets: all of `s`, or with a pivot the items that do
/// not sort after it, largest first.
pub open spec fn descending<T>(le: spec_fn(T, T) -> bool, s: Seq<T>, pivot: Option<T>) -> Seq<T> {
    match pivot {
        Some(p) => at_most(le, s, p).reverse(),
        None => s.reverse(),
    }
}

/// The two bounds hold of a sequence without items.
pub proof fn lemma_bounds_empty<T>(le: spec_fn(T, T) -> bool, s: Seq<T>, x: T)
    requires
        s.len() == 0,
    ensures
        all_below(le, s, x),
        all_above(le, s, x),
        sorted(le, s),
{
    reveal(all_below);
    reveal(all_above);
    reveal(sorted);
}

/// What the bounds and sortedness say of given positions.
pub proof fn lemma_at<T>(le: spec_fn(T, T) -> bool, s: Seq<T>, x: T, i: int, j: int)
    requires
        0 <= i < s.len(),
    ensures
        all_below(le, s, x) ==> lt(le, s[i], x),
        all_above(le, s, x) ==> lt(le, x, s[i]),
        sorted(le, s) && i < j < s.len() ==> lt(le, s[i], s[j]),
{
    reveal(all_below);
    reveal(all_above);
    reveal(sorted);
}

/// A bound that holds of `x` holds of everything on the far side of `x`.
pub proof fn lemma_bound_shift<T>(le: spec_fn(T, T) -> bool, s: Seq<T>, x: T, y: T)
    requires
        total_preorder(le),
    ensures
        all_below(le, s, x) && le(x, y) ==> all_below(le, s, y),
        all_above(le, s, x) && le(y, x) ==> all_above(le, s, y),
{
    reveal(all_below);
    reveal(all_above);
    if all_below(le, s, x) && le(x, y) {
        assert forall|i: int| 0 <= i < s.len() implies lt(le, #[trigger] s[i], y) by {
            lemma_order(le, s[i], x, y);
        }
    }
    if all_above(le, s, x) && le(y, x) {
        assert forall|i: int| 0 <= i < s.len() implies lt(le, y, #[trigger] s[i]) by {
            lemma_order(le, y, x, s[i]);
        }
    }
}

/// In a sorted sequence, what sorts before `x` at position `k - 1` makes the
/// first `k` items sort before `x`.
pub proof fn lemma_sorted_prefix<T>(le: spec_fn(T, T) -> bool, s: Seq<T>, k: int, x: T)
    requires
        total_preorder(le),
        sorted(le, s),
        0 <= k <= s.len(),
        k > 0 ==> lt(le, s[k - 1], x),
    ensures
        all_below(le, s.take(k), x),
{
    reveal(all_below);
    reveal(sorted);
    let t = s.take(k);
    assert forall|i: int| 0 <= i < t.len() implies lt(le, #[trigger] t[i], x) by {
        assert(t[i] == s[i]);
        if i < k - 1 {
            assert(lt(le, s[i], s[k - 1]));
            lemma_order(le, s[i], s[k - 1], x);
        }
    }
}

/// In a sorted sequence, what sorts after `x` at position `k` makes the items
/// from `k` on sort after `x`.
pub proof fn lemma_sorted_suffix<T>(le: spec_fn(T, T) -> bool, s: Seq<T>, k: int, x: T)
    requires
        total_preorder(le),
        sorted(le, s),
        0 <= k <= s.len(),
        k < s.len() ==> lt(le, x, s[k]),
    ensures
        all_above(le, s.skip(k), x),
{
    reveal(all_above);
    reveal(sorted);
    let t = s.skip(k);
    assert forall|i: int| 0 <= i < t.len() implies lt(le, x, #[trigger] t[i]) by {
        assert(t[i] == s[k + i]);
        if i > 0 {
            assert(lt(le, s[k], s[k + i]));
            lemma_order(le, x, s[k], s[k + i]);
        }
    }
}

/// The two halves of a sorted sequence are sorted, and each is bounded by the
/// item of the other that is next to it.
pub proof fn lemma_sorted_halves<T>(le: spec_fn(T, T) -> bool, a: Seq<T>, b: Seq<T>)
    requires
        sorted(le, a + b),
    ensures
        sorted(le, a),
        sorted(le, b),
        b.len() > 0 ==> all_below(le, a, b[0]),
        a.len() > 0 ==> all_above(le, b, a[a.len() - 1]),
{
    reveal(all_below);
    reveal(all_above);
    reveal(sorted);
    let s = a + b;
    assert forall|i: int, j: int| 0 <= i < j < a.len() implies lt(
        le,
        #[trigger] a[i],
        #[trigger] a[j],
    ) by {
        assert(s[i] == a[i] && s[j] == a[j]);
    }
    assert forall|i: int, j: int| 0 <= i < j < b.len() implies lt(
        le,
        #[trigger] b[i],
        #[trigger] b[j],
    ) by {
        assert(s[a.len() + i] == b[i] && s[a.len() + j] == b[j]);
    }
    if b.len() > 0 {
        assert forall|i: int| 0 <= i < a.len() implies lt(le, #[trigger] a[i], b[0]) by {
            assert(s[i] == a[i] && s[a.len() as int] == b[0]);
        }
    }
    if a.len() > 0 {
        assert forall|i: int| 0 <= i < b.len() implies lt(le, a[a.len() - 1], #[trigger] b[i]) by {
            assert(s[a.len() - 1] == a[a.len() - 1] && s[a.len() + i] == b[i]);
        }
    }
}

/// Two sorted sequences with an item between them that bounds both make one
/// sorted sequence.
pub proof fn lemma_sorted_around<T>(le: spec_fn(T, T) -> bool, a: Seq<T>, m: T, b: Seq<T>)
    requires
        total_preorder(le),
        sorted(le, a),
        sorted(le, b),
        all_below(le, a, m),
        all_above(le, b, m),
    ensures
        sorted(le, a + seq![m] + b),
        sorted(le, a + b),
{
    reveal(all_below);
    reveal(all_above);
    reveal(sorted);
    let s = a + seq![m] + b;
    let n = a.len() as int;
    assert forall|i: int, j: int| 0 <= i < j < s.len() implies lt(
        le,
        #[trigger] s[i],
        #[trigger] s[j],
    ) by {
        if j < n {
            assert(s[i] == a[i] && s[j] == a[j]);
        } else if j == n {
            assert(s[i] == a[i] && s[j] == m);
        } else if i < n {
            assert(s[i] == a[i] && s[j] == b[j - n - 1]);
            lemma_order(le, a[i], m, b[j - n - 1]);
        } else if i == n {
            assert(s[i] == m && s[j] == b[j - n - 1]);
        } else {
            assert(s[i] == b[i - n - 1] && s[j] == b[j - n - 1]);
        }
    }
    let u = a + b;
    assert forall|i: int, j: int| 0 <= i < j < u.len() implies lt(
        le,
        #[trigger] u[i],
        #[trigger] u[j],
    ) by {
        if j < n {
            assert(u[i] == a[i] && u[j] == a[j]);
        } else if i < n {
            assert(u[i] == a[i] && u[j] == b[j - n]);
            lemma_order(le, a[i], m, b[j - n]);
        } else {
            assert(u[i] == b[i - n] && u[j] == b[j - n]);
        }
    }
}

/// Counting over a concatenation adds up.
proof fn lemma_count_concat<T>(le: spec_fn(T, T) -> bool, a: Seq<T>, b: Seq<T>, x: T)
    ensures
        count_below(le, a + b, x) == count_below(le, a, x) + count_below(le, b, x),
        count_above(le, a + b, x) == count_above(le, a, x) + count_above(le, b, x),
    decreases b.len(),
{
    if b.len() == 0 {
        assert(a + b =~= a);
    } else {
        assert((a + b).drop_last() =~= a + b.drop_last());
        assert((a + b).last() == b.last());
        lemma_count_concat(le, a, b.drop_last(), x);
    }
}

/// The two numbers together are at most the length.
proof fn lemma_count_bounds<T>(le: spec_fn(T, T) -> bool, s: Seq<T>, x: T)
    requires
        total_preorder(le),
    ensures
        count_below(le, s, x) + count_above(le, s, x) <= s.len(),
    decreases s.len(),
{
    if s.len() > 0 {
        lemma_count_bounds(le, s.drop_last(), x);
        lemma_order(le, s.last(), x, x);
    }
}

/// The counts of a sequence that lies wholly on one side of `x`.
proof fn lemma_count_uniform<T>(le: spec_fn(T, T) -> bool, s: Seq<T>, x: T)
    requires
        total_preorder(le),
    ensures
        all_below(le, s, x) ==> count_below(le, s, x) == s.len() && count_above(le, s, x) == 0,
        all_above(le, s, x) ==> count_below(le, s, x) == 0 && count_above(le, s, x) == s.len(),
    decreases s.len(),
{
    reveal(all_below);
    reveal(all_above);
    if s.len() > 0 {
        let t = s.drop_last();
        assert(forall|i: int| 0 <= i < t.len() ==> t[i] == s[i]);
        lemma_count_uniform(le, t, x);
        lemma_order(le, s.last(), x, x);
        lemma_count_bounds(le, s, x);
    }
}

/// The counts of `a + c + b` when `a` lies below `x` and `b` above it.
proof fn lemma_count_frame<T>(le: spec_fn(T, T) -> bool, a: Seq<T>, c: Seq<T>, b: Seq<T>, x: T)
    requires
        total_preorder(le),
        all_below(le, a, x),
        all_above(le, b, x),
    ensures
        first_at_least(le, a + c + b, x) == a.len() + first_at_least(le, c, x),
        end_at_most(le, a + c + b, x) == a.len() + end_at_most(le, c, x),
        0 <= first_at_least(le, c, x) <= end_at_most(le, c, x) <= c.len(),
{
    lemma_count_uniform(le, a, x);
    lemma_count_uniform(le, b, x);
    lemma_count_concat(le, a, c, x);
    lemma_count_concat(le, a + c, b, x);
    lemma_count_bounds(le, c, x);
}

/// All items of `a` sort before `x` and all items of `b` after it: then
/// every question about `x` in `a + c + b` is a question about `x` in `c`.
pub proof fn lemma_frame<T>(le: spec_fn(T, T) -> bool, a: Seq<T>, c: Seq<T>, b: Seq<T>, x: T)
    requires
        total_preorder(le),
        all_below(le, a, x),
        all_above(le, b, x),
    ensures
        lower(le, a + c + b, x) == a + lower(le, c, x),
        upper(le, a + c + b, x) == upper(le, c, x) + b,
        alike(le, a + c + b, x) == alike(le, c, x),
        at_least(le, a + c + b, x) == at_least(le, c, x) + b,
        at_most(le, a + c + b, x) == a + at_most(le, c, x),
        inserted(le, a + c + b, x) == a + inserted(le, c, x) + b,
        removed(le, a + c + b, x) == a + removed(le, c, x) + b,
        found(le, a + c + b, x) == found(le, c, x),
{
    lemma_count_frame(le, a, c, b, x);
    let s = a + c + b;
    let i = first_at_least(le, c, x);
    let j = end_at_most(le, c, x);
    let n = a.len() as int;
    assert(s.take(n + i) =~= a + c.take(i));
    assert(s.skip(n + j) =~= c.skip(j) + b);
    assert(s.subrange(n + i, n + j) =~= c.subrange(i, j));
    assert(s.skip(n + i) =~= c.skip(i) + b);
    assert(s.take(n + j) =~= a + c.take(j));
    assert(a + c.take(i) + seq![x] + (c.skip(j) + b) =~= a + (c.take(i) + seq![x] + c.skip(j)) + b);
    assert(a + c.take(i) + (c.skip(j) + b) =~= a + (c.take(i) + c.skip(j)) + b);
}

/// The ranges of a sequence of one item and of the empty sequence.
pub proof fn lemma_small<T>(le: spec_fn(T, T) -> bool, m: T, x: T)
    requires
        total_preorder(le),
    ensures
        lower(le, seq![m], x) == if lt(le, m, x) { seq![m] } else { Seq::<T>::empty() },
        upper(le, seq![m], x) == if lt(le, x, m) { seq![m] } else { Seq::<T>::empty() },
        alike(le, seq![m], x) == if equiv(le, m, x) { seq![m] } else { Seq::<T>::empty() },
        at_least(le, seq![m], x) == if le(x, m) { seq![m] } else { Seq::<T>::empty() },
        at_most(le, seq![m], x) == if le(m, x) { seq![m] } else { Seq::<T>::empty() },
        lower(le, Seq::<T>::empty(), x) == Seq::<T>::empty(),
        upper(le, Seq::<T>::empty(), x) == Seq::<T>::empty(),
        alike(le, Seq::<T>::empty(), x) == Seq::<T>::empty(),
        at_least(le, Seq::<T>::empty(), x) == Seq::<T>::empty(),
        at_most(le, Seq::<T>::empty(), x) == Seq::<T>::empty(),
{
    let s = seq![m];
    let e = Seq::<T>::empty();
    lemma_order(le, m, x, m);
    assert(s.drop_last() =~= e);
    assert(count_below(le, e, x) == 0 && count_above(le, e, x) == 0);
    assert(count_below(le, s, x) == if lt(le, m, x) { 1nat } else { 0nat });
    assert(count_above(le, s, x) == if lt(le, x, m) { 1nat } else { 0nat });
    assert(s.take(1) =~= s && s.skip(0) =~= s && s.subrange(0, 1) =~= s);
    assert(s.take(0) =~= e && s.skip(1) =~= e && s.subrange(0, 0) =~= e && s.subrange(1, 1) =~= e);
    assert(e.take(0) =~= e && e.skip(0) =~= e && e.subrange(0, 0) =~= e);
}

/// In a sorted sequence, a position `k` whose left neighbour sorts before `x`
/// and whose item sorts after `x` says that `x` is absent and belongs there.
pub proof fn lemma_absent_at<T>(le: spec_fn(T, T) -> bool, s: Seq<T>, x: T, k: int)
    requires
        total_preorder(le),
        sorted(le, s),
        0 <= k <= s.len(),
        k > 0 ==> lt(le, s[k - 1], x),
        k < s.len() ==> lt(le, x, s[k]),
    ensures
        lower(le, s, x) == s.take(k),
        upper(le, s, x) == s.skip(k),
        alike(le, s, x) == Seq::<T>::empty(),
        at_least(le, s, x) == s.skip(k),
        at_most(le, s, x) == s.take(k),
        inserted(le, s, x) == s.insert(k, x),
        removed(le, s, x) == s,
        found(le, s, x) == None::<T>,
        sorted(le, s.insert(k, x)),
{
    let e = Seq::<T>::empty();
    let a = s.take(k);
    let b = s.skip(k);
    lemma_sorted_prefix(le, s, k, x);
    lemma_sorted_suffix(le, s, k, x);
    lemma_frame(le, a, e, b, x);
    lemma_small(le, x, x);
    assert(a + e + b == s) by {
        assert(a + e + b =~= s);
    }
    assert(a + e == a && e + b == b && a + b == s) by {
        assert(a + e =~= a);
        assert(e + b =~= b);
        assert(a + b =~= s);
    }
    assert(a + (e + seq![x] + e) + b == s.insert(k, x) && a + (e + e) + b == s && a + seq![x] + b
        == s.insert(k, x)) by {
        assert(a + (e + seq![x] + e) + b =~= s.insert(k, x));
        assert(a + (e + e) + b =~= s);
        assert(a + seq![x] + b =~= s.insert(k, x));
    }
    lemma_sorted_halves(le, a, b);
    lemma_sorted_around(le, a, x, b);
}

/// In a sorted sequence, a position `k` that holds an item equivalent to `x`
/// is where `x` is found; everything before it is below `x`, everything after
/// it above.
pub proof fn lemma_present_at<T>(le: spec_fn(T, T) -> bool, s: Seq<T>, x: T, k: int)
    requires
        total_preorder(le),
        sorted(le, s),
        0 <= k < s.len(),
        equiv(le, s[k], x),
    ensures
        lower(le, s, x) == s.take(k),
        upper(le, s, x) == s.skip(k + 1),
        alike(le, s, x) == seq![s[k]],
        at_least(le, s, x) == s.skip(k),
        at_most(le, s, x) == s.take(k + 1),
        inserted(le, s, x) == s.update(k, x),
        removed(le, s, x) == s.remove(k),
        found(le, s, x) == Some(s[k]),
        sorted(le, s.update(k, x)),
        sorted(le, s.remove(k)),
{
    let e = Seq::<T>::empty();
    let a = s.take(k);
    let m = seq![s[k]];
    let b = s.skip(k + 1);
    assert(a + s.skip(k) == s && s.take(k + 1) + b == s && a + m + b == s && a + m == s.take(k + 1)
        && m + b == s.skip(k)) by {
        assert(a + s.skip(k) =~= s);
        assert(s.take(k + 1) + b =~= s);
        assert(a + m + b =~= s);
        assert(a + m =~= s.take(k + 1));
        assert(m + b =~= s.skip(k));
    }
    lemma_sorted_halves(le, a, s.skip(k));
    lemma_sorted_halves(le, s.take(k + 1), b);
    lemma_bound_shift(le, a, s[k], x);
    lemma_bound_shift(le, b, s[k], x);
    lemma_frame(le, a, m, b, x);
    lemma_small(le, s[k], x);
    assert(a + (e + seq![x] + e) + b == s.update(k, x) && a + (e + e) + b == s.remove(k) && a + e
        == a && e + b == b && a + seq![x] + b == s.update(k, x) && a + b == s.remove(k)) by {
        assert(a + (e + seq![x] + e) + b =~= s.update(k, x));
        assert(a + (e + e) + b =~= s.remove(k));
        assert(a + e =~= a);
        assert(e + b =~= b);
        assert(a + seq![x] + b =~= s.update(k, x));
        assert(a + b =~= s.remove(k));
    }
    lemma_sorted_around(le, a, x, b);
}

/// The place of `x` in a sorted sequence: the number of items that sort
/// before it.
pub proof fn lemma_locate<T>(le: spec_fn(T, T) -> bool, s: Seq<T>, x: T) -> (k: int)
    requires
        total_preorder(le),
        sorted(le, s),
    ensures
        0 <= k <= s.len(),
        k > 0 ==> lt(le, s[k - 1], x),
        k < s.len() ==> le(x, s[k]),
    decreases s.len(),
{
    if s.len() == 0 {
        0
    } else {
        let t = s.drop_last();
        if lt(le, s.last(), x) {
            s.len() as int
        } else {
            assert(t + seq![s.last()] =~= s);
            lemma_sorted_halves(le, t, seq![s.last()]);
            let k = lemma_locate(le, t, x);
            lemma_order(le, x, s.last(), x);
            k
        }
    }
}

/// Putting an item into a sorted sequence, or taking one out, leaves it
/// sorted, and changes its length by what was found.
pub proof fn lemma_update_sorted<T>(le: spec_fn(T, T) -> bool, s: Seq<T>, x: T)
    requires
        total_preorder(le),
        sorted(le, s),
    ensures
        sorted(le, inserted(le, s, x)),
        sorted(le, removed(le, s, x)),
        found(le, s, x) is Some ==> equiv(le, found(le, s, x).unwrap(), x),
        inserted(le, s, x).len() == s.len() + (if found(le, s, x) is Some { 0int } else { 1int }),
        removed(le, s, x).len() == s.len() - (if found(le, s, x) is Some { 1int } else { 0int }),
        found(le, inserted(le, s, x), x) == Some(x),
        found(le, removed(le, s, x), x) == None::<T>,
        found(le, s, x) is None ==> removed(le, s, x) == s,
{
    let k = lemma_locate(le, s, x);
    lemma_order(le, x, x, x);
    if k < s.len() && le(s[k], x) {
        lemma_present_at(le, s, x, k);
        lemma_present_at(le, s.update(k, x), x, k);
        let r = s.remove(k);
        if k > 0 {
            assert(r[k - 1] == s[k - 1]);
        }
        if k < r.len() {
            assert(r[k] == s[k + 1]);
            lemma_at(le, s, x, k, k + 1);
            lemma_order(le, x, s[k], s[k + 1]);
        }
        lemma_absent_at(le, r, x, k);
    } else {
        lemma_absent_at(le, s, x, k);
        let t = s.insert(k, x);
        assert(t[k] == x);
        lemma_present_at(le, t, x, k);
    }
}

/// Where a sorted sequence parts around a pivot: the items before position
/// `k.0` sort before the pivot, those from position `k.1` on sort after it,
/// and between the two stands at most the one item equivalent to the pivot.
pub proof fn lemma_pivot_range<T>(le: spec_fn(T, T) -> bool, s: Seq<T>, p: T) -> (k: (int, int))
    requires
        total_preorder(le),
        sorted(le, s),
    ensures
        0 <= k.0 <= k.1 <= s.len(),
        k.1 <= k.0 + 1,
        at_least(le, s, p) == s.skip(k.0),
        at_most(le, s, p) == s.take(k.1),
        lower(le, s, p) == s.take(k.0),
        upper(le, s, p) == s.skip(k.1),
        alike(le, s, p) == s.subrange(k.0, k.1),
        found(le, s, p) == if k.0 < k.1 { Some(s[k.0]) } else { None::<T> },
        k.0 < k.1 ==> equiv(le, s[k.0], p),
        k.0 > 0 ==> lt(le, s[k.0 - 1], p),
        k.1 < s.len() ==> lt(le, p, s[k.1]),
        all_below(le, s.take(k.0), p),
        all_above(le, s.skip(k.1), p),
{
    let k = lemma_locate(le, s, p);
    if k < s.len() && le(s[k], p) {
        lemma_present_at(le, s, p, k);
        assert(s.subrange(k, k + 1) =~= seq![s[k]]);
        if k + 1 < s.len() {
            lemma_at(le, s, p, k, k + 1);
            lemma_order(le, p, s[k], s[k + 1]);
        }
        lemma_sorted_prefix(le, s, k, p);
        lemma_sorted_suffix(le, s, k + 1, p);
        (k, k + 1)
    } else {
        lemma_absent_at(le, s, p, k);
        assert(s.subrange(k, k) =~= Seq::<T>::empty());
        if k < s.len() {
            lemma_order(le, p, s[k], p);
        }
        lemma_sorted_prefix(le, s, k, p);
        lemma_sorted_suffix(le, s, k, p);
        (k, k)
    }
}

/// Going down into the part `c` of a sorted `a + c + b`: the last item of `a`
/// sorts before `x` and the first item of `b` after it, so `x` is to be looked
/// for in `c` alone.
pub proof fn lemma_descend<T>(le: spec_fn(T, T) -> bool, a: Seq<T>, c: Seq<T>, b: Seq<T>, x: T)
    requires
        total_preorder(le),
        sorted(le, a + c + b),
        a.len() > 0 ==> lt(le, a[a.len() - 1], x),
        b.len() > 0 ==> lt(le, x, b[0]),
    ensures
        sorted(le, c),
        all_below(le, a, x),
        all_above(le, b, x),
        lower(le, a + c + b, x) == a + lower(le, c, x),
        upper(le, a + c + b, x) == upper(le, c, x) + b,
        at_least(le, a + c + b, x) == at_least(le, c, x) + b,
        at_most(le, a + c + b, x) == a + at_most(le, c, x),
        inserted(le, a + c + b, x) == a + inserted(le, c, x) + b,
        removed(le, a + c + b, x) == a + removed(le, c, x) + b,
        found(le, a + c + b, x) == found(le, c, x),
{
    lemma_sorted_halves(le, a + c, b);
    lemma_sorted_halves(le, a, c);
    lemma_sorted_prefix(le, a, a.len() as int, x);
    lemma_sorted_suffix(le, b, 0, x);
    assert(a.take(a.len() as int) =~= a);
    assert(b.skip(0) =~= b);
    lemma_frame(le, a, c, b, x);
}

/// A sorted `a + [m] + b` whose `m` is equivalent to `x`.
pub proof fn lemma_hit<T>(le: spec_fn(T, T) -> bool, a: Seq<T>, m: T, b: Seq<T>, x: T)
    requires
        total_preorder(le),
        sorted(le, a + seq![m] + b),
        equiv(le, m, x),
    ensures
        sorted(le, a),
        sorted(le, b),
        all_below(le, a, x),
        all_above(le, b, x),
        lower(le, a + seq![m] + b, x) == a,
        upper(le, a + seq![m] + b, x) == b,
        at_least(le, a + seq![m] + b, x) == seq![m] + b,
        at_most(le, a + seq![m] + b, x) == a + seq![m],
        inserted(le, a + seq![m] + b, x) == a + seq![x] + b,
        removed(le, a + seq![m] + b, x) == a + b,
        found(le, a + seq![m] + b, x) == Some(m),
{
    let s = a + seq![m] + b;
    let k = a.len() as int;
    assert(s[k] == m);
    lemma_present_at(le, s, x, k);
    assert(s.take(k) =~= a);
    assert(s.skip(k + 1) =~= b);
    assert(s.skip(k) =~= seq![m] + b);
    assert(s.take(k + 1) =~= a + seq![m]);
    assert(s.update(k, x) =~= a + seq![x] + b);
    assert(s.remove(k) =~= a + b);
    lemma_sorted_halves(le, a + seq![m], b);
    lemma_sorted_halves(le, a, seq![m]);
    assert(seq![m][0] == m);
    lemma_bound_shift(le, a, m, x);
    lemma_bound_shift(le, b, m, x);
}

/// A bound holds of a concatenation exactly when it holds of both parts.
pub proof fn lemma_bounds_concat<T>(le: spec_fn(T, T) -> bool, a: Seq<T>, b: Seq<T>, x: T)
    ensures
        all_below(le, a + b, x) == (all_below(le, a, x) && all_below(le, b, x)),
        all_above(le, a + b, x) == (all_above(le, a, x) && all_above(le, b, x)),
{
    reveal(all_below);
    reveal(all_above);
    let s = a + b;
    if all_below(le, s, x) {
        assert forall|i: int| 0 <= i < a.len() implies lt(le, #[trigger] a[i], x) by {
            assert(s[i] == a[i]);
        }
        assert forall|i: int| 0 <= i < b.len() implies lt(le, #[trigger] b[i], x) by {
            assert(s[a.len() + i] == b[i]);
        }
    }
    if all_above(le, s, x) {
        assert forall|i: int| 0 <= i < a.len() implies lt(le, x, #[trigger] a[i]) by {
            assert(s[i] == a[i]);
        }
        assert forall|i: int| 0 <= i < b.len() implies lt(le, x, #[trigger] b[i]) by {
            assert(s[a.len() + i] == b[i]);
        }
    }
}

/// In a sorted sequence, the position whose left neighbour sorts before `x`
/// and whose item does not is the number of items that sort before `x`, and
/// `x` is found exactly if the item there does not sort after it.
pub proof fn lemma_rank<T>(le: spec_fn(T, T) -> bool, s: Seq<T>, x: T, k: int)
    requires
        total_preorder(le),
        sorted(le, s),
        0 <= k <= s.len(),
        k > 0 ==> lt(le, s[k - 1], x),
        k < s.len() ==> le(x, s[k]),
    ensures
        first_at_least(le, s, x) == k,
        found(le, s, x) is Some <==> k < s.len() && le(s[k], x),
{
    lemma_count_bounds(le, s, x);
    if k < s.len() && le(s[k], x) {
        lemma_present_at(le, s, x, k);
    } else {
        lemma_absent_at(le, s, x, k);
    }
    assert(s.take(first_at_least(le, s, x)).len() == s.take(k).len());
}

/// A part of a sorted sequence is sorted.
pub proof fn lemma_sorted_part<T>(le: spec_fn(T, T) -> bool, s: Seq<T>, a: int, b: int)
    requires
        sorted(le, s),
        0 <= a <= b <= s.len(),
    ensures
        sorted(le, s.subrange(a, b)),
{
    assert(s.take(b) + s.skip(b) =~= s);
    lemma_sorted_halves(le, s.take(b), s.skip(b));
    assert(s.take(b).take(a) + s.subrange(a, b) =~= s.take(b));
    lemma_sorted_halves(le, s.take(b).take(a), s.subrange(a, b));
}

/// The place of `x` in a part of a sorted sequence is its place in the whole,
/// counted from where the part starts and kept within the part; and `x` is
/// found in the part exactly if it is found in the whole at a position of
/// the part.
pub proof fn lemma_rank_part<T>(le: spec_fn(T, T) -> bool, s: Seq<T>, x: T, a: int, b: int)
    requires
        total_preorder(le),
        sorted(le, s),
        0 <= a <= b <= s.len(),
    ensures
        0 <= first_at_least(le, s, x) <= s.len(),
        first_at_least(le, s.subrange(a, b), x) == if first_at_least(le, s, x) < a {
            0
        } else if first_at_least(le, s, x) > b {
            b - a
        } else {
            first_at_least(le, s, x) - a
        },
        found(le, s.subrange(a, b), x) is Some <==> found(le, s, x) is Some && a
            <= first_at_least(le, s, x) < b,
{
    let (i, j) = lemma_pivot_range(le, s, x);
    let part = s.subrange(a, b);
    lemma_sorted_part(le, s, a, b);
    let k = if i < a {
        0
    } else if i > b {
        b - a
    } else {
        i - a
    };
    if i < s.len() {
        lemma_order(le, x, s[i], x);
    }
    lemma_rank(le, s, x, i);
    if k > 0 {
        assert(part[k - 1] == s[a + k - 1]);
        lemma_at(le, s.take(i), x, a + k - 1, a + k - 1);
    }
    if k < part.len() {
        assert(part[k] == s[a + k]);
        if a + k >= j {
            lemma_at(le, s.skip(j), x, a + k - j, a + k - j);
        }
        lemma_order(le, x, s[a + k], x);
    }
    lemma_rank(le, part, x, k);
}

} // verus!
