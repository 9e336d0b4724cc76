//! An in-memory B-tree whose items are ordered by a comparison function of
//! the caller's.
//!
//! [`BTreeC`] is the container. It keeps items of one type in the order of a
//! comparator; two items that compare equal count as the same key, so the
//! comparator may look at a part of the item only. Items can be put in, looked
//! up, taken out by key or at either end, loaded in bulk, and walked over
//! upward or downward from any pivot; a walk may also change or remove each
//! item that it meets. Searches take hints that make a search near the
//! previous one cheaper.
//!
//! The model of a container is the sequence of its items in ascending order.
//! Every operation says in its contract what it does to that sequence, in
//! terms of the functions of [`sorted`]; [`laws`] holds what follows from
//! these contracts for sequences of operations.
//!
//! The modules, from the ground up:
//!
//! - [`order`]: total preorders, and comparisons that decide them;
//! - [`sorted`]: strictly sorted sequences and the changes to them;
//! - [`join`]: how a node's items and its children's contents make one
//!   sequence;
//! - [`hint`]: search hints;
//! - [`budget`]: the allocator that nodes are drawn from;
//! - [`compare`]: comparators that return `std::cmp::Ordering`;
//! - [`node`], [`search`], [`seek`], [`insert`], [`remove`], [`take`],
//!   [`walk`]: the nodes and the algorithms on subtrees;
//! - [`tree`], [`action`]: the tree as a whole;
//! - [`container`]: the container, which is the tree with its comparator;
//! - [`laws`]: laws of the container.
pub mod order;
pub mod sorted;
pub mod join;
pub mod hint;
pub mod budget;
pub mod compare;
pub mod node;
pub mod search;
pub mod seek;
pub mod insert;
pub mod remove;
pub mod take;
pub mod walk;
pub mod tree;
pub mod action;
pub mod container;
pub mod laws;

pub use crate::action::Action;
pub use crate::budget::NodeAllocator;
pub use crate::container::BTreeC;
pub use crate::tree::btree;
