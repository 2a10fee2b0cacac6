//! A trie over sequences of byte ranges, whose sibling transitions are kept
//! sorted and pairwise disjoint.

pub mod range;
pub mod trie;

pub use range::{covers, intersect, overlap, Overlap};
pub use trie::{RangeTrie, State, Transition, ROOT};
