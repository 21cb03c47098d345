//! Optimal decision trees for a Wordle-style guessing game over a fixed
//! vocabulary of five-character words.
//!
//! The crate computes, for an answer set A and a guess set G with A ⊆ G, a
//! strategy that minimises the total number of guesses needed to identify
//! every answer, and emits it as a per-answer guess sequence and as a
//! decision tree.
//!
//! The search itself is sequential and proven to return exactly the optimal
//! score, so the result cannot depend on thread counts or evaluation order;
//! callers that want parallelism run the solver inside a thread pool of
//! their own.

pub mod judge;
pub mod opt;
pub mod partition;
pub mod solver;
pub mod tree;
pub mod vocab;
