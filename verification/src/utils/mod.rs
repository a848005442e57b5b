//! Small helpers for working with parse trees.

pub mod pest;
