//! Verified data structures: an ordered binary search tree with parent
//! back-links and randomized two-child deletion, together with a set of
//! independent list and disjoint-set-union exercises.

pub mod bst;
pub mod dsu;
pub mod doublylinkedlist;
pub mod linkedlist;
pub mod persistentlist;
pub mod unsafelinkedlist;

pub use bst::Direction;
pub use bst::flip_direction;
