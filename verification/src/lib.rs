//! Reliable broadcast: one node of a network proposes a value, and the good nodes agree on it.
//!
//! * [`broadcast`] holds the algorithm that a node runs, and [`messaging`] the interface through
//!   which it is driven.
//! * [`shards`] cuts a value into leaves and puts it together again, with the erasure code of
//!   [`coding`] and the Merkle trees of [`tree`].
//! * [`protocol`] says what a node knows and what each call makes of it. The contracts of
//!   [`broadcast`] speak of that.
//! * [`node`] and [`network`] say what holds of a node after any calls, and of a network of nodes
//!   some of which are faulty.
//! * [`meaning`] says what the terms that the contracts speak of mean, and [`operations`] what the
//!   operations do, in numbers, bytes, hashes and messages.
pub mod broadcast;
pub mod coding;
pub mod ids;
pub mod meaning;
pub mod messaging;
pub mod network;
pub mod node;
pub mod operations;
pub mod protocol;
pub mod shards;
mod tally;
pub mod tree;
