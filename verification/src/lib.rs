//! Chains of owned values that are reached only through their two end handles.
//!
//! Two chains are spliced into one, and a chain is closed into a loop and
//! drained, in constant time. Every node keeps a single link word: an end node
//! the address of its only neighbour, an interior node the exclusive-or of the
//! addresses of its two neighbours. Nodes live in a [`NodeStore`], and their
//! addresses are slot numbers of that store.
//!
//! ```text
//! let mut store = NodeStore::new();
//! let (a, b) = ChainEnd::new(&mut store, vec![0, 1, 2]);   // a - 0 - 1 - 2 - b
//! let (c, d) = ChainEnd::new(&mut store, vec![3, 4, 5]);   // c - 3 - 4 - 5 - d
//! assert!(b.connect(d, &mut store).is_none());             // a - 0 - 1 - 2 - 5 - 4 - 3 - c
//! let contents = c.connect(a, &mut store).unwrap();        // read from a
//! assert_eq!(contents.collect(&mut store), vec![0, 1, 2, 5, 4, 3]);
//! ```
//!
//! [`model`] says what a store means, as a set of chains and loops, and what
//! creating, connecting and draining do to it; the contracts of [`ChainEnd`]
//! and [`ChainIterator`] are stated over it. An end handle and an iterator
//! belong to the store that made them, and every call names that store.

mod arena;
pub mod chain;
pub mod drain;
pub mod model;
mod shape;
pub mod store;
mod xor;

pub use chain::ChainEnd;
pub use drain::ChainIterator;
pub use store::NodeStore;
