//! Priority queues with verified contracts: a binary heap over a vector, a
//! binomial heap and a leftist heap, together with the small registry of
//! benchmark commands that drives them.

pub mod analysis;
pub mod ds;
pub mod order;
