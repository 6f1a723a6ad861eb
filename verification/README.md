# hbbft

Reliable broadcast among nodes of which less than a third may be faulty, written in Rust and
verified with Verus.

A node is an instance of `broadcast::Broadcast`. It is driven through the trait
`messaging::DistAlgorithm`: it takes an input (`input`, at the proposer) and messages from other
nodes (`handle_message`), and yields messages to be sent (`next_message`) and at most one value
(`next_output`). Signing and sending messages is left to the user.

* `src/broadcast.rs` is the algorithm; `src/tally.rs` and `src/ids.rs` count and order what it
  keeps.
* `src/shards.rs`, `src/coding.rs` and `src/tree.rs` turn a value into leaves with proofs and back.
  The Reed-Solomon code and the Merkle trees come from the crates `reed-solomon-erasure` and
  `merkle`, and SHA-256 from `ring`. What is taken on trust of these crates is said at the functions
  that call them.
* `src/protocol.rs` defines what every call makes of what a node knows.
* `src/node.rs` proves what holds of a node whatever calls are made to it: among other things, that
  it multicasts each kind of message once, and when it terminates.
* `src/network.rs` proves what holds of a network in which less than a third of the nodes are
  faulty. Good nodes that output a value output the same one. When all messages between good nodes
  have been received, all good nodes have terminated if one of them has, all have output a value if
  one of them has, and all have output what a good proposer has proposed. Where such a law rests on
  hashes, it says which two inputs would have to have the same hash for it to fail. That all good
  nodes output a value rests on the contracts of `input` and `handle_message`, which promise that
  enough leaves bring a value back.
* `app/` adapts the library to traits of the standard library.

Some values are not handled: if faulty nodes make up a value that is shorter than it says itself,
`handle_message` must not be called with the message that completes it. `try_handle_message` tests
for that. With a good proposer it does not come to that.
