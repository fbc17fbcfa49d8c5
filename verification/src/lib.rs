//! Linked containers kept in an index-addressed arena: a singly linked list
//! and a doubly linked list, each with a sequence of values as its model.

pub mod structure;
