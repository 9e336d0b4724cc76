//! Where nodes come from: an allocator with a budget of nodes that a tree may draw on.
use vstd::prelude::*;

verus! {

/// Hands out the nodes of a tree. It is either unlimited or holds a number of
/// nodes that it may still hand out; a node given back can be handed out again.
pub struct NodeAllocator {
    left: Option<usize>,
}

impl NodeAllocator {
    /// The nodes that may still be handed out; `None` when there is no limit.
    pub closed spec fn remaining(&self) -> Option<nat> {
        match self.left {
            Some(n) => Some(n as nat),
            None => None,
        }
    }

    /// An allocator that never refuses.
    pub fn unlimited() -> (a: Self)
        ensures
            a.remaining() is None,
    {
        NodeAllocator { left: None }
    }

    /// An allocator that hands out `nodes` nodes and then refuses.
    pub fn limited(nodes: usize) -> (a: Self)
        ensures
            a.remaining() == Some(nodes as nat),
    {
        NodeAllocator { left: Some(nodes) }
    }

    /// The nodes that may still be handed out; `None` when there is no limit.
    pub fn available(&self) -> (n: Option<usize>)
        ensures
            match n {
                Some(k) => self.remaining() == Some(k as nat),
                None => self.remaining() is None,
            },
    {
        self.left
    }

    /// Asks for one node. Says whether it was granted.
    pub fn grant(&mut self) -> (granted: bool)
        ensures
            granted == (old(self).remaining() != Some(0nat)),
            final(self).remaining() == after_grant(old(self).remaining()),
    {
        match self.left {
            None => true,
            Some(n) => {
                if n > 0 {
                    self.left = Some(n - 1);
                    true
                } else {
                    false
                }
            },
        }
    }

    /// Gives one node back.
    pub fn free(&mut self)
        ensures
            final(self).remaining() == match old(self).remaining() {
                Some(n) => Some(if n < usize::MAX { n + 1 } else { n }),
                None => None,
            },
    {
        match self.left {
            None => {},
            Some(n) => {
                if n < usize::MAX {
                    self.left = Some(n + 1);
                }
            },
        }
    }
}

/// A machine number as a natural number.
pub open spec fn usize_to_nat(n: usize) -> nat {
    n as nat
}

/// What is left of `before` once one more node has been asked for.
pub open spec fn after_grant(before: Option<nat>) -> Option<nat> {
    match before {
        Some(n) => Some(if n > 0 { (n - 1) as nat } else { 0nat }),
        None => None,
    }
}

/// What is left of `before` once `n` nodes were drawn.
pub open spec fn less_nodes(before: Option<nat>, n: nat) -> Option<nat> {
    match before {
        Some(k) => Some(if k >= n { (k - n) as nat } else { 0nat }),
        None => None,
    }
}

/// Drawing on `before` left `after`, and took at most `most` nodes.
pub open spec fn drew_at_most(before: Option<nat>, after: Option<nat>, most: nat) -> bool {
    match before {
        Some(n) => after matches Some(m) && m <= n && n - m <= most,
        None => after is None,
    }
}

/// Giving nodes back to an allocator that had `before` left `after`.
pub open spec fn gave_back(before: Option<nat>, after: Option<nat>) -> bool {
    match before {
        Some(n) => after matches Some(m) && m >= n,
        None => after is None,
    }
}

} // verus!
