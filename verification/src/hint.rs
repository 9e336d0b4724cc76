//! Search hints: one byte per level of the tree, each a guess at the position
//! that the previous search took in the node of that level.
use vstd::prelude::*;

verus! {

/// How many levels a hint has room for.
pub const HINT_LEVELS: usize = 8;

/// The guess that `hint` holds for the node at `depth`; zero stands for "no
/// guess", as does any depth the hint has no room for.
pub fn hint_guess(hint: u64, depth: usize) -> (g: usize)
    ensures
        g == hint_guess_spec(hint, depth),
        g <= 255,
{
    if depth < HINT_LEVELS {
        let shift: u64 = (8 * depth) as u64;
        let byte: u64 = (hint >> shift) & 0xff;
        assert(byte <= 255) by (bit_vector)
            requires
                byte == (hint >> shift) & 0xff,
        ;
        byte as usize
    } else {
        0
    }
}

/// Writes the position `index` into the byte of `hint` that belongs to
/// `depth`, cut down to what a byte can hold; the other bytes stay.
pub fn hint_record(hint: &mut u64, depth: usize, index: usize)
    ensures
        depth >= HINT_LEVELS ==> *final(hint) == *old(hint),
        depth < HINT_LEVELS ==> hint_guess_spec(*final(hint), depth) == clipped(index as nat),
        forall|d: usize|
            d != depth ==> #[trigger] hint_guess_spec(*final(hint), d) == hint_guess_spec(
                *old(hint),
                d,
            ),
{
    if depth < HINT_LEVELS {
        let shift: u64 = (8 * depth) as u64;
        let byte: u64 = if index > 255 { 255 } else { index as u64 };
        let old_hint: u64 = *hint;
        let new_hint: u64 = (old_hint & !(0xffu64 << shift)) | (byte << shift);
        assert(((new_hint >> shift) & 0xff) == byte) by (bit_vector)
            requires
                new_hint == (old_hint & !(0xffu64 << shift)) | (byte << shift),
                byte <= 255,
                shift <= 56,
        ;
        assert forall|d: usize| d != depth implies #[trigger] hint_guess_spec(new_hint, d)
            == hint_guess_spec(old_hint, d) by {
            if d < HINT_LEVELS {
                let other: u64 = (8 * d) as u64;
                assert(((new_hint >> other) & 0xff) == ((old_hint >> other) & 0xff))
                    by (bit_vector)
                    requires
                        new_hint == (old_hint & !(0xffu64 << shift)) | (byte << shift),
                        byte <= 255,
                        shift <= 56,
                        other <= 56,
                        shift % 8 == 0,
                        other % 8 == 0,
                        shift != other,
                ;
            }
        }
        *hint = new_hint;
    }
}

/// The byte of `hint` that belongs to `depth`.
pub open spec fn hint_guess_spec(hint: u64, depth: usize) -> int {
    if depth < HINT_LEVELS {
        ((hint >> ((8 * depth) as u64)) & 0xff) as int
    } else {
        0
    }
}

/// A position as a byte of a hint holds it.
pub open spec fn clipped(position: nat) -> int {
    if position <= 255 {
        position as int
    } else {
        255
    }
}

/// The depth below `depth`, as far as a hint has levels.
pub open spec fn deeper_spec(depth: usize) -> usize {
    if depth < HINT_LEVELS {
        (depth + 1) as usize
    } else {
        depth
    }
}

/// The hint `after` is the hint `before` with the positions of `route`
/// written into the bytes of the levels from `depth` on, as far as the hint
/// has levels; the other bytes are those of `before`.
#[verifier::opaque]
pub open spec fn routed(before: u64, after: u64, depth: usize, route: Seq<nat>) -> bool {
    forall|d: usize| #[trigger]
        hint_guess_spec(after, d) == if depth <= d < depth + route.len() && d < HINT_LEVELS {
            clipped(route[d - depth])
        } else {
            hint_guess_spec(before, d)
        }
}

/// A hint that was not touched holds the empty route.
pub proof fn lemma_routed_none(hint: u64, depth: usize)
    ensures
        routed(hint, hint, depth, Seq::<nat>::empty()),
{
    reveal(routed);
}

/// The empty route says the same at every depth: the bytes are as before.
pub proof fn lemma_routed_empty(before: u64, after: u64, depth: usize, other: usize)
    requires
        routed(before, after, depth, Seq::<nat>::empty()),
    ensures
        routed(before, after, other, Seq::<nat>::empty()),
{
    reveal(routed);
}

/// A hint that holds a route and is then left as it is holds the route.
pub proof fn lemma_routed_kept(before: u64, mid: u64, after: u64, depth: usize, route: Seq<nat>)
    requires
        routed(before, mid, depth, route),
        routed(mid, after, depth, Seq::<nat>::empty()),
    ensures
        routed(before, after, depth, route),
{
    reveal(routed);
}

/// A position recorded at `depth`, and below it a route from the next depth
/// on, make a route from `depth` on.
pub proof fn lemma_routed_step(
    before: u64,
    mid: u64,
    after: u64,
    depth: usize,
    position: nat,
    rest: Seq<nat>,
)
    requires
        depth <= HINT_LEVELS,
        depth < HINT_LEVELS ==> hint_guess_spec(mid, depth) == clipped(position),
        forall|d: usize|
            d != depth ==> #[trigger] hint_guess_spec(mid, d) == hint_guess_spec(before, d),
        routed(mid, after, deeper_spec(depth), rest),
    ensures
        routed(before, after, depth, seq![position] + rest),
{
    reveal(routed);
    let route = seq![position] + rest;
    assert forall|d: usize| #[trigger]
        hint_guess_spec(after, d) == if depth <= d < depth + route.len() && d < HINT_LEVELS {
            clipped(route[d - depth])
        } else {
            hint_guess_spec(before, d)
        } by {
        if depth <= d < depth + route.len() && d < HINT_LEVELS {
            if d > depth {
                assert(route[d - depth] == rest[d - depth - 1]);
            }
        }
    }
}

/// A route written over a route that is not longer leaves the later route.
pub proof fn lemma_routed_over(
    before: u64,
    mid: u64,
    after: u64,
    depth: usize,
    first: Seq<nat>,
    second: Seq<nat>,
)
    requires
        routed(before, mid, depth, first),
        routed(mid, after, depth, second),
        first.len() <= second.len(),
    ensures
        routed(before, after, depth, second),
{
    reveal(routed);
}

} // verus!
