//! Singly linked lists that grow at the head.
//!
//! `persistent` holds a reference-counted list whose nodes are never changed
//! once built, so that any number of lists can share one tail; `scoped` holds
//! a list whose cells borrow the cell that follows them.
pub mod persistent;
pub mod scoped;
