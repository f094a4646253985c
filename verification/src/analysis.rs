//! The benchmarks of the heaps: which there are, under which command each
//! runs, and what each is fed.

pub mod commands;
pub mod heaps;
pub mod utils;
