//! A small finite-state-automaton library: it enumerates the words an
//! automaton accepts up to a caller-supplied bound, checks whether one word
//! is accepted (returning the traversed state path), and combines the word
//! sets of two automata (union, intersection).
//!
//! Two independent guards keep every traversal of a possibly cyclic graph
//! finite. Per-edge capacities, carried by the transitions, govern the
//! acceptance semantics: a traversal may use an edge only as often as its
//! capacity allows, and each branch of the search owns its own remaining
//! counts. The global word-length bound, passed to each enumeration call,
//! additionally cuts the search off; a word longer than the bound is never
//! produced, however many capacities remain.

pub mod generator;
pub mod lang;
pub mod laws;
pub mod model;
pub mod ops;
