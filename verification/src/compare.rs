//! Comparators: what a caller's comparison function has to be for a tree to
//! be ordered by it, and the order that it stands for.
use vstd::prelude::*;
use std::cmp::Ordering;
use crate::order::{three_way, total_preorder, Sign};

verus! {

/// The sign that stands for an outcome of a comparison.
pub open spec fn sign_of(o: Ordering) -> Sign {
    match o {
        Ordering::Less => Sign::Below,
        Ordering::Equal => Sign::Same,
        Ordering::Greater => Sign::Above,
    }
}

/// `f` may be called on every pair of items, and whatever it returns is what
/// `le` prescribes for the pair.
pub open spec fn follows<T, F: Fn(&T, &T) -> Ordering>(f: F, le: spec_fn(T, T) -> bool) -> bool {
    &&& forall|a: T, b: T| #[trigger] f.requires((&a, &b))
    &&& forall|a: T, b: T, o: Ordering| #[trigger]
        f.ensures((&a, &b), o) ==> sign_of(o) == three_way(le, a, b)
}

/// `f` compares by some total preorder: it is total, transitive and answers
/// the same for the same pair.
pub open spec fn valid_comparator<T, F: Fn(&T, &T) -> Ordering>(f: F) -> bool {
    exists|le: spec_fn(T, T) -> bool| #[trigger] total_preorder(le) && follows(f, le)
}

/// The order by which `f` compares: a total preorder that `f` follows.
pub open spec fn order_of<T, F: Fn(&T, &T) -> Ordering>(f: F) -> spec_fn(T, T) -> bool {
    choose|le: spec_fn(T, T) -> bool| #[trigger] total_preorder(le) && follows(f, le)
}

/// The order of a valid comparator is a total preorder that it follows.
pub proof fn lemma_order_of<T, F: Fn(&T, &T) -> Ordering>(f: F)
    requires
        valid_comparator(f),
    ensures
        total_preorder(order_of(f)),
        follows(f, order_of(f)),
{
}

/// Calls the comparator on `a` and `b` and hands on its answer as a sign.
pub fn compare_by<T, F: Fn(&T, &T) -> Ordering>(f: &F, a: &T, b: &T) -> (r: Sign)
    requires
        f.requires((a, b)),
    ensures
        exists|o: Ordering| f.ensures((a, b), o) && r == sign_of(o),
{
    let o = f(a, b);
    let r = match o {
        Ordering::Less => Sign::Below,
        Ordering::Equal => Sign::Same,
        Ordering::Greater => Sign::Above,
    };
    assert(f.ensures((a, b), o) && r == sign_of(o));
    r
}

} // verus!
