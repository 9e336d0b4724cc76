//! Orderings over items: what it means for a relation to order the items of a
//! tree, and how an executable three-way comparison is tied to such a relation.
use vstd::prelude::*;

verus! {

/// Where a probe stands relative to an item of the tree.
#[derive(Clone, Copy, PartialEq, Eq, Debug, Structural)]
pub enum Sign {
    /// The probe sorts strictly before the item.
    Below,
    /// The probe and the item are equivalent under the ordering.
    Same,
    /// The probe sorts strictly after the item.
    Above,
}

/// `le` is total and transitive. Two items may be equivalent (each `le` the
/// other) without being equal, so a relation that looks only at a key field
/// qualifies.
#[verifier::opaque]
pub open spec fn total_preorder<T>(le: spec_fn(T, T) -> bool) -> bool {
    &&& forall|a: T, b: T| #[trigger] le(a, b) || le(b, a)
    &&& forall|a: T, b: T, c: T| #[trigger] le(a, b) && #[trigger] le(b, c) ==> le(a, c)
}

/// `a` sorts strictly before `b`.
pub open spec fn lt<T>(le: spec_fn(T, T) -> bool, a: T, b: T) -> bool {
    !le(b, a)
}

/// `a` and `b` are equivalent: neither sorts before the other.
pub open spec fn equiv<T>(le: spec_fn(T, T) -> bool, a: T, b: T) -> bool {
    le(a, b) && le(b, a)
}

/// The three-way outcome that `le` assigns to the pair `(a, b)`.
pub open spec fn three_way<T>(le: spec_fn(T, T) -> bool, a: T, b: T) -> Sign {
    if !le(b, a) {
        Sign::Below
    } else if !le(a, b) {
        Sign::Above
    } else {
        Sign::Same
    }
}

/// The executable comparison `c` may be called on every pair of items and
/// answers as `le` prescribes.
pub open spec fn decides<T, C: Fn(&T, &T) -> Sign>(c: C, le: spec_fn(T, T) -> bool) -> bool {
    &&& forall|a: T, b: T| #[trigger] c.requires((&a, &b))
    &&& forall|a: T, b: T, r: Sign| #[trigger]
        c.ensures((&a, &b), r) ==> r == three_way(le, a, b)
}

/// Totality, reflexivity and every transitivity pattern over `le` and its
/// strict part, for three given items.
pub proof fn lemma_order<T>(le: spec_fn(T, T) -> bool, a: T, b: T, c: T)
    requires
        total_preorder(le),
    ensures
        le(a, b) || le(b, a),
        le(a, a),
        le(a, b) && le(b, c) ==> le(a, c),
        lt(le, a, b) && lt(le, b, c) ==> lt(le, a, c),
        le(a, b) && lt(le, b, c) ==> lt(le, a, c),
        lt(le, a, b) && le(b, c) ==> lt(le, a, c),
        lt(le, a, b) ==> le(a, b),
{
    reveal(total_preorder);
    assert(le(a, b) || le(b, a));
    assert(le(a, a) || le(a, a));
    assert(le(b, c) || le(c, b));
    assert(le(a, c) || le(c, a));
    if le(a, b) && le(b, c) {
        assert(le(a, c));
    }
    if le(c, a) && le(a, b) {
        assert(le(c, b));
    }
    if le(b, c) && le(c, a) {
        assert(le(b, a));
    }
}

} // verus!
