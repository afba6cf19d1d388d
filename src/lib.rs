//! Singly-linked sequential containers with owned nodes.

pub mod laws;
pub mod linked_list;
