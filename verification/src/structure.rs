//! The two list types and what they share.

pub mod error;
pub mod model;
pub mod render;
pub mod linklist;
pub mod doublelinklist;
