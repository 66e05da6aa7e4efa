//! A first-order Markov chain over arbitrary items.
//!
//! A [`Chain`] records which item follows which in the sequences it is fed,
//! as a directed graph whose edge weights count the observed transitions, and
//! draws new sequences from it by a weighted random walk from a start marker
//! to an end marker.

pub mod chain;
pub mod generate;
pub mod graph;
pub mod index;
pub mod ingest;
pub mod item;
pub mod laws;
pub mod model;
pub mod pair;
pub mod sums;
pub mod walk;

pub use chain::Chain;
pub use item::Item;
pub use walk::RandomWalk;
