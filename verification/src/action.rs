//! Walks that change the container on the way: the visitor answers each item
//! with what is to become of it.
use vstd::prelude::*;
use crate::order::{decides, equiv, lemma_order, Sign};
use crate::seek::item_of;
use crate::sorted::{
    ascending, descending, head, lemma_frame, lemma_hit, lemma_pivot_range, lemma_small, lower,
    tail, upper,
};
use crate::take::Target;
use crate::tree::btree;
use crate::walk::pivot_of;

verus! {

/// What a visitor wants done with the item that it was handed.
pub enum Action<T> {
    /// End the walk; the item stays.
    Stop,
    /// Leave the item and go on.
    Keep,
    /// Take the item out of the container and go on.
    Delete,
    /// Put this item in the place of the one handed over, and go on. It has
    /// to be equivalent to that one; if it is not, the item stays as it is.
    Update(T),
}

/// The visitor may be called on every item.
pub open spec fn acts_on_all<T, A: FnMut(&T) -> Action<T>>(visitor: A) -> bool {
    forall|x: T| #[trigger] visitor.requires((&x,))
}

/// What is left in the place of `x` after the action on it.
pub open spec fn outcome<T>(le: spec_fn(T, T) -> bool, x: T, action: Action<T>) -> Seq<T> {
    match action {
        Action::Delete => Seq::empty(),
        Action::Update(v) => if equiv(le, v, x) {
            seq![v]
        } else {
            seq![x]
        },
        _ => seq![x],
    }
}

/// What is left of the first items of `s` after the actions on them, one
/// action for each, in the order of `s`.
pub open spec fn outcomes<T>(
    le: spec_fn(T, T) -> bool,
    s: Seq<T>,
    actions: Seq<Action<T>>,
) -> Seq<T>
    decreases actions.len(),
{
    if actions.len() == 0 {
        Seq::empty()
    } else {
        outcomes(le, s, actions.drop_last()) + outcome(le, s[actions.len() - 1], actions.last())
    }
}

/// What is left of `s` after the actions on its first items: their outcomes,
/// and behind them the items that the walk did not reach.
pub open spec fn applied<T>(
    le: spec_fn(T, T) -> bool,
    s: Seq<T>,
    actions: Seq<Action<T>>,
) -> Seq<T> {
    outcomes(le, s, actions) + s.skip(actions.len() as int)
}

/// The visitor gave these answers to the first items of `s`, in order, and
/// none but the last of them is `Stop`.
#[verifier::opaque]
pub open spec fn answered<T, A: FnMut(&T) -> Action<T>>(
    visitor: A,
    s: Seq<T>,
    actions: Seq<Action<T>>,
) -> bool {
    &&& actions.len() <= s.len()
    &&& forall|j: int|
        0 <= j < actions.len() ==> visitor.ensures((&#[trigger] s[j],), actions[j])
    &&& forall|j: int| 0 <= j < actions.len() - 1 ==> !(#[trigger] actions[j] is Stop)
}

/// The visitor was handed the items of `s` in order and gave these answers,
/// until it answered `Stop` or the items came to an end.
pub open spec fn acted<T, A: FnMut(&T) -> Action<T>>(
    visitor: A,
    s: Seq<T>,
    actions: Seq<Action<T>>,
) -> bool {
    &&& answered(visitor, s, actions)
    &&& actions.len() < s.len() ==> actions.len() > 0 && actions.last() is Stop
}

/// No answers yet.
pub proof fn lemma_answered_none<T, A: FnMut(&T) -> Action<T>>(visitor: A, s: Seq<T>)
    ensures
        answered(visitor, s, Seq::<Action<T>>::empty()),
{
    reveal(answered);
}

/// One more answer.
pub proof fn lemma_answered_push<T, A: FnMut(&T) -> Action<T>>(
    visitor: A,
    le: spec_fn(T, T) -> bool,
    s: Seq<T>,
    actions: Seq<Action<T>>,
    action: Action<T>,
)
    requires
        answered(visitor, s, actions),
        actions.len() < s.len(),
        actions.len() > 0 ==> !(actions.last() is Stop),
        visitor.ensures((&s[actions.len() as int],), action),
    ensures
        answered(visitor, s, actions.push(action)),
        outcomes(le, s, actions.push(action)) == outcomes(le, s, actions) + outcome(
            le,
            s[actions.len() as int],
            action,
        ),
{
    reveal(answered);
    let next = actions.push(action);
    assert(next.drop_last() =~= actions);
    assert forall|j: int| 0 <= j < next.len() - 1 implies !(#[trigger] next[j] is Stop) by {
        if j < actions.len() - 1 {
            assert(next[j] == actions[j]);
        } else {
            assert(next[j] == actions.last());
        }
    }
}

/// The items that an ascending walk from the pivot does not reach: those
/// that sort before the pivot.
pub open spec fn out_of_reach_below<T>(
    le: spec_fn(T, T) -> bool,
    s: Seq<T>,
    pivot: Option<T>,
) -> Seq<T> {
    match pivot {
        Some(p) => lower(le, s, p),
        None => Seq::empty(),
    }
}

/// The items that a descending walk from the pivot does not reach: those
/// that sort after the pivot.
pub open spec fn out_of_reach_above<T>(
    le: spec_fn(T, T) -> bool,
    s: Seq<T>,
    pivot: Option<T>,
) -> Seq<T> {
    match pivot {
        Some(p) => upper(le, s, p),
        None => Seq::empty(),
    }
}

/// A copy of the item, if there is one.
pub(crate) fn copied<T: Copy>(r: Option<&T>) -> (c: Option<T>)
    ensures
        c == item_of(r),
{
    match r {
        Some(x) => Some(*x),
        None => None,
    }
}

/// An ascending walk with actions, from the pivot or from the smallest item,
/// turned a container with the items `before` into one with the items `after`.
pub open spec fn acted_upward<T, A: FnMut(&T) -> Action<T>>(
    visitor: A,
    le: spec_fn(T, T) -> bool,
    before: Seq<T>,
    pivot: Option<T>,
    after: Seq<T>,
) -> bool {
    exists|actions: Seq<Action<T>>| #[trigger]
        acted(visitor, ascending(le, before, pivot), actions) && after == out_of_reach_below(
            le,
            before,
            pivot,
        ) + applied(le, ascending(le, before, pivot), actions)
}

/// A descending walk with actions, from the pivot or from the largest item,
/// turned a container with the items `before` into one with the items `after`.
pub open spec fn acted_downward<T, A: FnMut(&T) -> Action<T>>(
    visitor: A,
    le: spec_fn(T, T) -> bool,
    before: Seq<T>,
    pivot: Option<T>,
    after: Seq<T>,
) -> bool {
    exists|actions: Seq<Action<T>>| #[trigger]
        acted(visitor, descending(le, before, pivot), actions) && after == applied(
            le,
            descending(le, before, pivot),
            actions,
        ).reverse() + out_of_reach_above(le, before, pivot)
}

impl<T: Copy> btree<T> {
    /// Does to the item `x` what the action says, and finds the item that
    /// follows it in ascending order.
    pub(crate) fn act_going_up<C: Fn(&T, &T) -> Sign>(
        &mut self,
        x: T,
        action: Action<T>,
        c: &C,
        Ghost(le): Ghost<spec_fn(T, T) -> bool>,
        hint: &mut u64,
        Ghost(a): Ghost<Seq<T>>,
        Ghost(r): Ghost<Seq<T>>,
    ) -> (next: Option<T>)
        requires
            old(self).sound(le),
            !old(self).spec_oom(),
            decides(*c, le),
            old(self)@ == a + seq![x] + r,
        ensures
            final(self).sound(le),
            !final(self).spec_oom(),
            final(self).spec_max_items() == old(self).spec_max_items(),
            final(self)@ == a + outcome(le, x, action) + r,
            next == head(r),
    {
        let ghost e = Seq::<T>::empty();
        proof {
            self.lemma_sound(le);
            lemma_order(le, x, x, x);
            lemma_hit(le, a, x, r, x);
            lemma_frame(le, a, e, r, x);
            lemma_small(le, x, x);
            assert(a + e + r =~= a + r);
            assert(e + r =~= r);
        }
        match action {
            Action::Delete => {
                let _ = self.take(Target::Key(&x), c, Ghost(le), hint);
            },
            Action::Update(v) => {
                match c(&v, &x) {
                    Sign::Same => {
                        proof {
                            lemma_hit(le, a, x, r, v);
                        }
                        let _ = self.put(v, c, Ghost(le), hint);
                        proof {
                            self.lemma_sound(le);
                            lemma_hit(le, a, v, r, x);
                        }
                    },
                    _ => {},
                }
            },
            _ => {},
        }
        copied(self.seek_up(&x, false, c, Ghost(le), hint))
    }

    /// Hands the items to the visitor in ascending order, from the first
    /// that does not sort before the pivot or from the smallest, and does to
    /// each what the visitor answers, until it answers `Stop`.
    pub(crate) fn act_up<C: Fn(&T, &T) -> Sign, A: FnMut(&T) -> Action<T>>(
        &mut self,
        pivot: Option<&T>,
        c: &C,
        Ghost(le): Ghost<spec_fn(T, T) -> bool>,
        visitor: &mut A,
        hint: &mut u64,
    )
        requires
            old(self).sound(le),
            !old(self).spec_oom(),
            decides(*c, le),
            acts_on_all(*old(visitor)),
        ensures
            final(self).sound(le),
            !final(self).spec_oom(),
            final(self).spec_max_items() == old(self).spec_max_items(),
            *final(visitor) == *old(visitor),
            acted_upward(*old(visitor), le, old(self)@, pivot_of(pivot), final(self)@),
    {
        let ghost s = ascending(le, self@, pivot_of(pivot));
        let ghost low = out_of_reach_below(le, self@, pivot_of(pivot));
        let ghost mut actions = Seq::<Action<T>>::empty();
        let mut cur = match pivot {
            Some(p) => copied(self.seek_up(p, true, c, Ghost(le), hint)),
            None => copied(self.smallest(Ghost(le))),
        };
        proof {
            self.lemma_sound(le);
            match pivot {
                Some(p) => {
                    let k = lemma_pivot_range(le, self@, *p);
                    assert(self@.take(k.0) + self@.skip(k.0) =~= self@);
                },
                None => {
                    assert(low + s =~= s);
                },
            }
            lemma_answered_none(*visitor, s);
            assert(s.skip(0) =~= s);
            assert(low + Seq::<T>::empty() + s =~= low + s);
        }
        while cur.is_some()
            invariant
                self.sound(le),
                !self.spec_oom(),
                self.spec_max_items() == old(self).spec_max_items(),
                decides(*c, le),
                *visitor == *old(visitor),
                acts_on_all(*visitor),
                s == ascending(le, old(self)@, pivot_of(pivot)),
                low == out_of_reach_below(le, old(self)@, pivot_of(pivot)),
                answered(*visitor, s, actions),
                actions.len() > 0 ==> !(actions.last() is Stop),
                self@ == low + outcomes(le, s, actions) + s.skip(actions.len() as int),
                cur == head(s.skip(actions.len() as int)),
            decreases s.len() - actions.len(),
        {
            let x = cur.unwrap();
            let ghost k = actions.len() as int;
            let ghost a = low + outcomes(le, s, actions);
            let ghost r = s.skip(k + 1);
            let action = visitor(&x);
            proof {
                reveal(answered);
                lemma_answered_push(*visitor, le, s, actions, action);
                actions = actions.push(action);
                assert(seq![x] + r =~= s.skip(k));
                assert(a + seq![x] + r =~= a + s.skip(k));
                assert(a + outcome(le, x, action) + r =~= low + outcomes(le, s, actions) + r);
            }
            match action {
                Action::Stop => {
                    proof {
                        assert(acted(*visitor, s, actions));
                        assert(low + outcomes(le, s, actions) + r =~= low + applied(
                            le,
                            s,
                            actions,
                        ));
                    }
                    return ;
                },
                other => {
                    cur = self.act_going_up(x, other, c, Ghost(le), hint, Ghost(a), Ghost(r));
                },
            }
        }
        proof {
            reveal(answered);
            assert(acted(*visitor, s, actions));
            assert(low + outcomes(le, s, actions) + s.skip(actions.len() as int) =~= low + applied(
                le,
                s,
                actions,
            ));
        }
    }

    /// Does to the item `x` what the action says, and finds the item that
    /// follows it in descending order.
    pub(crate) fn act_going_down<C: Fn(&T, &T) -> Sign>(
        &mut self,
        x: T,
        action: Action<T>,
        c: &C,
        Ghost(le): Ghost<spec_fn(T, T) -> bool>,
        hint: &mut u64,
        Ghost(a): Ghost<Seq<T>>,
        Ghost(r): Ghost<Seq<T>>,
    ) -> (next: Option<T>)
        requires
            old(self).sound(le),
            !old(self).spec_oom(),
            decides(*c, le),
            old(self)@ == a + seq![x] + r,
        ensures
            final(self).sound(le),
            !final(self).spec_oom(),
            final(self).spec_max_items() == old(self).spec_max_items(),
            final(self)@ == a + outcome(le, x, action) + r,
            next == tail(a),
    {
        let ghost e = Seq::<T>::empty();
        proof {
            self.lemma_sound(le);
            lemma_order(le, x, x, x);
            lemma_hit(le, a, x, r, x);
            lemma_frame(le, a, e, r, x);
            lemma_small(le, x, x);
            assert(a + e + r =~= a + r);
            assert(a + e =~= a);
        }
        match action {
            Action::Delete => {
                let _ = self.take(Target::Key(&x), c, Ghost(le), hint);
            },
            Action::Update(v) => {
                match c(&v, &x) {
                    Sign::Same => {
                        proof {
                            lemma_hit(le, a, x, r, v);
                        }
                        let _ = self.put(v, c, Ghost(le), hint);
                        proof {
                            self.lemma_sound(le);
                            lemma_hit(le, a, v, r, x);
                        }
                    },
                    _ => {},
                }
            },
            _ => {},
        }
        copied(self.seek_down(&x, false, c, Ghost(le), hint))
    }

    /// Hands the items to the visitor in descending order, from the last
    /// that does not sort after the pivot or from the largest, and does to
    /// each what the visitor answers, until it answers `Stop`.
    pub(crate) fn act_down<C: Fn(&T, &T) -> Sign, A: FnMut(&T) -> Action<T>>(
        &mut self,
        pivot: Option<&T>,
        c: &C,
        Ghost(le): Ghost<spec_fn(T, T) -> bool>,
        visitor: &mut A,
        hint: &mut u64,
    )
        requires
            old(self).sound(le),
            !old(self).spec_oom(),
            decides(*c, le),
            acts_on_all(*old(visitor)),
        ensures
            final(self).sound(le),
            !final(self).spec_oom(),
            final(self).spec_max_items() == old(self).spec_max_items(),
            *final(visitor) == *old(visitor),
            acted_downward(*old(visitor), le, old(self)@, pivot_of(pivot), final(self)@),
    {
        let ghost s = descending(le, self@, pivot_of(pivot));
        let ghost high = out_of_reach_above(le, self@, pivot_of(pivot));
        let ghost mut actions = Seq::<Action<T>>::empty();
        let mut cur = match pivot {
            Some(p) => copied(self.seek_down(p, true, c, Ghost(le), hint)),
            None => copied(self.largest(Ghost(le))),
        };
        proof {
            self.lemma_sound(le);
            match pivot {
                Some(p) => {
                    let k = lemma_pivot_range(le, self@, *p);
                    assert(self@.take(k.1) + self@.skip(k.1) =~= self@);
                    assert(self@.take(k.1).reverse().reverse() =~= self@.take(k.1));
                },
                None => {
                    assert(self@.reverse().reverse() =~= self@);
                    assert(self@ + high =~= self@);
                },
            }
            lemma_answered_none(*visitor, s);
            assert(s.skip(0) =~= s);
            let e = Seq::<T>::empty();
            assert(e.reverse() =~= e);
            assert(s.reverse() + e + high =~= s.reverse() + high);
        }
        while cur.is_some()
            invariant
                self.sound(le),
                !self.spec_oom(),
                self.spec_max_items() == old(self).spec_max_items(),
                decides(*c, le),
                *visitor == *old(visitor),
                acts_on_all(*visitor),
                s == descending(le, old(self)@, pivot_of(pivot)),
                high == out_of_reach_above(le, old(self)@, pivot_of(pivot)),
                answered(*visitor, s, actions),
                actions.len() > 0 ==> !(actions.last() is Stop),
                self@ == s.skip(actions.len() as int).reverse() + outcomes(le, s, actions).reverse()
                    + high,
                cur == head(s.skip(actions.len() as int)),
            decreases s.len() - actions.len(),
        {
            let x = cur.unwrap();
            let ghost k = actions.len() as int;
            let ghost a = s.skip(k + 1).reverse();
            let ghost done = outcomes(le, s, actions);
            let ghost r = done.reverse() + high;
            let action = visitor(&x);
            proof {
                reveal(answered);
                lemma_answered_push(*visitor, le, s, actions, action);
                actions = actions.push(action);
                let o = outcome(le, x, action);
                assert(a + seq![x] =~= s.skip(k).reverse());
                assert(a + seq![x] + r =~= s.skip(k).reverse() + done.reverse() + high);
                assert((done + o).reverse() =~= o + done.reverse());
                assert(a + o + r =~= a + (done + o).reverse() + high);
                assert(tail(a) == head(s.skip(k + 1)));
            }
            match action {
                Action::Stop => {
                    proof {
                        assert(acted(*visitor, s, actions));
                        assert((outcomes(le, s, actions) + s.skip(k + 1)).reverse() =~= a
                            + outcomes(le, s, actions).reverse());
                    }
                    return ;
                },
                other => {
                    cur = self.act_going_down(x, other, c, Ghost(le), hint, Ghost(a), Ghost(r));
                },
            }
        }
        proof {
            reveal(answered);
            assert(acted(*visitor, s, actions));
            let k = actions.len() as int;
            assert((outcomes(le, s, actions) + s.skip(k)).reverse() =~= s.skip(k).reverse()
                + outcomes(le, s, actions).reverse());
        }
    }
}

} // verus!
