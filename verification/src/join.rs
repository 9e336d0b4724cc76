//! How the items of a node and the contents of its children make one
//! sequence, and how that sequence reacts to the edits a B-tree performs.
use vstd::prelude::*;

verus! {

/// The items of a node interleaved with what its children stand for:
/// `parts[0]`, `items[0]`, `parts[1]`, ..., `items[n - 1]`, `parts[n]`.
pub open spec fn join<T>(parts: Seq<Seq<T>>, items: Seq<T>) -> Seq<T>
    decreases items.len(),
{
    if items.len() == 0 || parts.len() == 0 {
        if parts.len() == 0 {
            Seq::empty()
        } else {
            parts[0]
        }
    } else {
        join(parts.drop_last(), items.drop_last()) + seq![items.last()] + parts.last()
    }
}

/// As many parts as items, each part followed by its item:
/// `parts[0]`, `items[0]`, ..., `parts[n - 1]`, `items[n - 1]`.
pub open spec fn lead<T>(parts: Seq<Seq<T>>, items: Seq<T>) -> Seq<T> {
    if items.len() == 0 {
        Seq::empty()
    } else {
        join(parts, items.drop_last()) + seq![items.last()]
    }
}

/// As many parts as items, each item followed by its part:
/// `items[0]`, `parts[0]`, ..., `items[n - 1]`, `parts[n - 1]`.
pub open spec fn trail<T>(parts: Seq<Seq<T>>, items: Seq<T>) -> Seq<T> {
    if items.len() == 0 {
        Seq::empty()
    } else {
        seq![items[0]] + join(parts, items.skip(1))
    }
}

/// What stands before part `i` of a node.
pub open spec fn before<T>(parts: Seq<Seq<T>>, items: Seq<T>, i: int) -> Seq<T> {
    lead(parts.take(i), items.take(i))
}

/// What stands behind part `i` of a node.
pub open spec fn behind<T>(parts: Seq<Seq<T>>, items: Seq<T>, i: int) -> Seq<T> {
    trail(parts.skip(i + 1), items.skip(i))
}

/// Joining two runs with an item between them.
pub proof fn lemma_join_concat<T>(
    pa: Seq<Seq<T>>,
    xa: Seq<T>,
    m: T,
    pb: Seq<Seq<T>>,
    xb: Seq<T>,
)
    requires
        pa.len() == xa.len() + 1,
        pb.len() == xb.len() + 1,
    ensures
        join(pa + pb, xa + seq![m] + xb) == join(pa, xa) + seq![m] + join(pb, xb),
    decreases xb.len(),
{
    let p = pa + pb;
    let x = xa + seq![m] + xb;
    if xb.len() == 0 {
        assert(p.drop_last() =~= pa);
        assert(x.drop_last() =~= xa);
        assert(p.last() == pb[0]);
        assert(x.last() == m);
    } else {
        lemma_join_concat(pa, xa, m, pb.drop_last(), xb.drop_last());
        assert(p.drop_last() =~= pa + pb.drop_last());
        assert(x.drop_last() =~= xa + seq![m] + xb.drop_last());
        assert(p.last() == pb.last());
        assert(x.last() == xb.last());
        let a = join(pa, xa);
        let b = join(pb.drop_last(), xb.drop_last());
        assert(a + seq![m] + b + seq![xb.last()] + pb.last() =~= a + seq![m] + (b + seq![xb.last()]
            + pb.last()));
    }
}

/// A run between a lead and a trail.
pub proof fn lemma_join_middle<T>(
    pl: Seq<Seq<T>>,
    xl: Seq<T>,
    q: Seq<Seq<T>>,
    y: Seq<T>,
    pr: Seq<Seq<T>>,
    xr: Seq<T>,
)
    requires
        pl.len() == xl.len(),
        q.len() == y.len() + 1,
        pr.len() == xr.len(),
    ensures
        join(pl + q + pr, xl + y + xr) == lead(pl, xl) + join(q, y) + trail(pr, xr),
{
    let e = Seq::<T>::empty();
    assert(join(q + pr, y + xr) == join(q, y) + trail(pr, xr)) by {
        if xr.len() == 0 {
            assert(q + pr =~= q);
            assert(y + xr =~= y);
            assert(join(q, y) + e =~= join(q, y));
        } else {
            lemma_join_concat(q, y, xr[0], pr, xr.skip(1));
            assert(y + seq![xr[0]] + xr.skip(1) =~= y + xr);
            assert(join(q, y) + seq![xr[0]] + join(pr, xr.skip(1)) =~= join(q, y) + (seq![xr[0]]
                + join(pr, xr.skip(1))));
        }
    }
    if xl.len() == 0 {
        assert(pl + q + pr =~= q + pr);
        assert(xl + y + xr =~= y + xr);
        assert(e + join(q, y) + trail(pr, xr) =~= join(q, y) + trail(pr, xr));
    } else {
        lemma_join_concat(pl, xl.drop_last(), xl.last(), q + pr, y + xr);
        assert(pl + (q + pr) =~= pl + q + pr);
        assert(xl.drop_last() + seq![xl.last()] + (y + xr) =~= xl + y + xr);
        assert(join(pl, xl.drop_last()) + seq![xl.last()] + (join(q, y) + trail(pr, xr)) =~= join(
            pl,
            xl.drop_last(),
        ) + seq![xl.last()] + join(q, y) + trail(pr, xr));
    }
}

/// A node seen from its part `i`: what stands before it, the part, what
/// stands behind it. The same holds with another sequence in place of the part.
pub proof fn lemma_join_part<T>(parts: Seq<Seq<T>>, items: Seq<T>, i: int, p: Seq<T>)
    requires
        parts.len() == items.len() + 1,
        0 <= i <= items.len(),
    ensures
        join(parts, items) == before(parts, items, i) + parts[i] + behind(parts, items, i),
        join(parts.update(i, p), items) == before(parts, items, i) + p + behind(parts, items, i),
        i > 0 ==> before(parts, items, i).len() > 0,
        i > 0 ==> before(parts, items, i).last() == items[i - 1],
        i < items.len() ==> behind(parts, items, i).len() > 0 && behind(parts, items, i)[0]
            == items[i],
{
    let e = Seq::<T>::empty();
    let pl = parts.take(i);
    let xl = items.take(i);
    let pr = parts.skip(i + 1);
    let xr = items.skip(i);
    lemma_join_middle(pl, xl, seq![parts[i]], e, pr, xr);
    lemma_join_middle(pl, xl, seq![p], e, pr, xr);
    assert(pl + seq![parts[i]] + pr =~= parts);
    assert(pl + seq![p] + pr =~= parts.update(i, p));
    assert(xl + e + xr =~= items);
}

/// `join` of a single part is the part, and of two parts around one item
/// their concatenation.
pub proof fn lemma_join_small<T>(l: Seq<T>, m: T, r: Seq<T>)
    ensures
        join(seq![l], Seq::<T>::empty()) == l,
        join(seq![l, r], seq![m]) == l + seq![m] + r,
{
    assert(join(seq![l], Seq::<T>::empty()) == l);
    assert(seq![l, r].drop_last() =~= seq![l]);
    assert(seq![m].drop_last() =~= Seq::<T>::empty());
}

/// A node seen from its item `i`: the item stands between the parts `i`
/// and `i + 1`.
pub proof fn lemma_join_pair<T>(parts: Seq<Seq<T>>, items: Seq<T>, i: int)
    requires
        parts.len() == items.len() + 1,
        0 <= i < items.len(),
    ensures
        join(parts, items) == before(parts, items, i) + (parts[i] + seq![items[i]] + parts[i + 1])
            + behind(parts, items, i + 1),
{
    let pl = parts.take(i);
    let xl = items.take(i);
    let pr = parts.skip(i + 2);
    let xr = items.skip(i + 1);
    let q = seq![parts[i], parts[i + 1]];
    let y = seq![items[i]];
    lemma_join_middle(pl, xl, q, y, pr, xr);
    lemma_join_small(parts[i], items[i], parts[i + 1]);
    assert(pl + q + pr =~= parts);
    assert(xl + y + xr =~= items);
}

/// A node whose parts `i` and `i + 1` and the item between them are replaced.
pub proof fn lemma_join_pair_update<T>(
    parts: Seq<Seq<T>>,
    items: Seq<T>,
    i: int,
    l: Seq<T>,
    m: T,
    r: Seq<T>,
)
    requires
        parts.len() == items.len() + 1,
        0 <= i < items.len(),
    ensures
        join(parts.update(i, l).update(i + 1, r), items.update(i, m)) == before(parts, items, i) + (
        l + seq![m] + r) + behind(parts, items, i + 1),
{
    let pl = parts.take(i);
    let xl = items.take(i);
    let pr = parts.skip(i + 2);
    let xr = items.skip(i + 1);
    let q = seq![l, r];
    let y = seq![m];
    lemma_join_middle(pl, xl, q, y, pr, xr);
    lemma_join_small(l, m, r);
    assert(pl + q + pr =~= parts.update(i, l).update(i + 1, r));
    assert(xl + y + xr =~= items.update(i, m));
}

/// A node whose parts `i` and `i + 1` and the item between them give way to
/// one part.
pub proof fn lemma_join_pair_merge<T>(parts: Seq<Seq<T>>, items: Seq<T>, i: int, l: Seq<T>)
    requires
        parts.len() == items.len() + 1,
        0 <= i < items.len(),
    ensures
        join(parts.update(i, l).remove(i + 1), items.remove(i)) == before(parts, items, i) + l
            + behind(parts, items, i + 1),
{
    let e = Seq::<T>::empty();
    let pl = parts.take(i);
    let xl = items.take(i);
    let pr = parts.skip(i + 2);
    let xr = items.skip(i + 1);
    lemma_join_middle(pl, xl, seq![l], e, pr, xr);
    lemma_join_small(l, items[i], l);
    assert(pl + seq![l] + pr =~= parts.update(i, l).remove(i + 1));
    assert(xl + e + xr =~= items.remove(i));
}

/// A node whose part `i` gives way to two parts around a further item.
pub proof fn lemma_join_pair_split<T>(
    parts: Seq<Seq<T>>,
    items: Seq<T>,
    i: int,
    l: Seq<T>,
    m: T,
    r: Seq<T>,
)
    requires
        parts.len() == items.len() + 1,
        0 <= i <= items.len(),
    ensures
        join(parts.update(i, l).insert(i + 1, r), items.insert(i, m)) == before(parts, items, i) + (
        l + seq![m] + r) + behind(parts, items, i),
{
    let pl = parts.take(i);
    let xl = items.take(i);
    let pr = parts.skip(i + 1);
    let xr = items.skip(i);
    let q = seq![l, r];
    let y = seq![m];
    lemma_join_middle(pl, xl, q, y, pr, xr);
    lemma_join_small(l, m, r);
    assert(pl + q + pr =~= parts.update(i, l).insert(i + 1, r));
    assert(xl + y + xr =~= items.insert(i, m));
}

/// A node split at item `mid`: the two halves around the item.
pub proof fn lemma_join_split<T>(parts: Seq<Seq<T>>, items: Seq<T>, mid: int)
    requires
        parts.len() == items.len() + 1,
        0 <= mid < items.len(),
    ensures
        join(parts, items) == join(parts.take(mid + 1), items.take(mid)) + seq![items[mid]] + join(
            parts.skip(mid + 1),
            items.skip(mid + 1),
        ),
{
    lemma_join_concat(
        parts.take(mid + 1),
        items.take(mid),
        items[mid],
        parts.skip(mid + 1),
        items.skip(mid + 1),
    );
    assert(parts.take(mid + 1) + parts.skip(mid + 1) =~= parts);
    assert(items.take(mid) + seq![items[mid]] + items.skip(mid + 1) =~= items);
}

/// A node that gains a part and an item at its end, or at its start.
pub proof fn lemma_join_grow<T>(parts: Seq<Seq<T>>, items: Seq<T>, m: T, p: Seq<T>)
    requires
        parts.len() == items.len() + 1,
    ensures
        join(parts.push(p), items.push(m)) == join(parts, items) + seq![m] + p,
        join(seq![p] + parts, seq![m] + items) == p + seq![m] + join(parts, items),
{
    let e = Seq::<T>::empty();
    assert(parts.push(p).drop_last() =~= parts);
    assert(items.push(m).drop_last() =~= items);
    lemma_join_concat(seq![p], e, m, parts, items);
    assert(e + seq![m] + items =~= seq![m] + items);
}

/// The joined sequence holds every item and all of every part.
pub proof fn lemma_join_len<T>(parts: Seq<Seq<T>>, items: Seq<T>, i: int)
    requires
        parts.len() == items.len() + 1,
        0 <= i <= items.len(),
    ensures
        join(parts, items).len() >= items.len() + parts[i].len(),
    decreases items.len(),
{
    if items.len() > 0 {
        if i < items.len() {
            lemma_join_len(parts.drop_last(), items.drop_last(), i);
        } else {
            lemma_join_len(parts.drop_last(), items.drop_last(), 0);
        }
    }
}

/// What stands behind part `k`: item `k`, part `k + 1`, and what stands
/// behind that part.
pub proof fn lemma_behind_step<T>(parts: Seq<Seq<T>>, items: Seq<T>, k: int)
    requires
        parts.len() == items.len() + 1,
        0 <= k <= items.len(),
    ensures
        k < items.len() ==> behind(parts, items, k) == seq![items[k]] + parts[k + 1] + behind(
            parts,
            items,
            k + 1,
        ),
        k == items.len() ==> behind(parts, items, k) == Seq::<T>::empty(),
{
    if k < items.len() {
        let p = parts.skip(k + 1);
        let x = items.skip(k + 1);
        lemma_join_part(p, x, 0, p[0]);
        assert(p.skip(1) =~= parts.skip(k + 2));
        assert(x.skip(0) =~= x);
        assert(items.skip(k).skip(1) =~= x);
        assert(p.take(0) =~= Seq::<Seq<T>>::empty());
        assert(x.take(0) =~= Seq::<T>::empty());
        let e = Seq::<T>::empty();
        assert(seq![items[k]] + (e + p[0] + behind(p, x, 0)) =~= seq![items[k]] + parts[k + 1]
            + behind(parts, items, k + 1));
    }
}

/// What stands before part `k`: what stands before part `k - 1`, that part,
/// and item `k - 1`.
pub proof fn lemma_before_step<T>(parts: Seq<Seq<T>>, items: Seq<T>, k: int)
    requires
        parts.len() == items.len() + 1,
        0 <= k <= items.len(),
    ensures
        k > 0 ==> before(parts, items, k) == before(parts, items, k - 1) + parts[k - 1] + seq![
            items[k - 1],
        ],
        k == 0 ==> before(parts, items, k) == Seq::<T>::empty(),
{
    if k > 0 {
        let p = parts.take(k);
        let x = items.take(k - 1);
        lemma_join_part(p, x, k - 1, p[k - 1]);
        assert(p.take(k - 1) =~= parts.take(k - 1));
        assert(x.take(k - 1) =~= items.take(k - 1));
        assert(items.take(k).drop_last() =~= x);
        assert(p.skip(k) =~= Seq::<Seq<T>>::empty());
        assert(x.skip(k - 1) =~= Seq::<T>::empty());
        let e = Seq::<T>::empty();
        assert(before(parts, items, k - 1) + parts[k - 1] + e =~= before(parts, items, k - 1)
            + parts[k - 1]);
    }
}

/// Reversal turns a concatenation around.
pub proof fn lemma_reverse_concat<T>(a: Seq<T>, b: Seq<T>)
    ensures
        (a + b).reverse() == b.reverse() + a.reverse(),
        a.reverse().reverse() == a,
        a.reverse().len() == a.len(),
{
    assert((a + b).reverse() =~= b.reverse() + a.reverse());
    assert(a.reverse().reverse() =~= a);
}

} // verus!
