//! Verified ordered collections.
//!
//! The centrepiece is a self-balancing (AVL) binary search tree over any
//! copyable, totally ordered key type, with insertion, deletion, membership
//! and order-statistics queries, and in-order iteration. Every public
//! operation carries a contract over the tree's abstract key set, and the
//! structural invariants (ordering, height balance, cached heights, size)
//! are proved to hold after every mutation.
//!
//! Around it stand independent peer utilities with contracts of their own:
//! singly and doubly ended lists viewed as sequences, an array-backed binary
//! heap viewed as a multiset, and `Stack` / `Queue` traits that the lists
//! implement.

pub mod adt;
pub mod avl;
pub mod doubly;
pub mod heap;
pub mod order;
pub mod singly;
