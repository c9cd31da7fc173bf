//! Queue-based recursion: the bookkeeping of a scheduler that runs function
//! calls from a call queue (first-in first-out, or ordered by priority) and
//! passes exceptions between them.
pub mod heap;
pub mod priority;
pub mod priority_order;
pub mod queue;
pub mod scheduler;
pub mod tree;
pub mod graph;
pub mod laws;
pub mod rounds;
