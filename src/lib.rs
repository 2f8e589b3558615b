//! Two small containers: a persistent, structurally shared singly linked list
//! and an unbalanced binary search tree.
pub mod bst;
pub mod list;
