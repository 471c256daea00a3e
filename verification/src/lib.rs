//! An unbalanced binary search tree over `u64` elements, with membership
//! search, insertion, minimum/maximum retrieval, and an in-order iterator.
//!
//! Duplicate elements are retained: an element equal to a node's element is
//! placed in the right subtree, so the tree behaves like a sorted multiset.
//! The abstract view of a tree is the sequence of its elements in symmetric
//! (in-order) traversal order, which well-formedness keeps sorted.

pub mod binary_search_tree;

pub use binary_search_tree::BinarySearchTree;
pub use binary_search_tree::BinarySearchTreeIterator;
