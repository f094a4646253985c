//! Data structures.

pub mod heap;
