//! What a single node does with its calls.

use merkle::MerkleTree;
use reed_solomon_erasure as rse;
use ring::digest;
use std::collections::BTreeSet;

use hbbft::broadcast::{Broadcast, BroadcastMessage, Error};
use hbbft::coding::Coding;
use hbbft::ids::list_ids;
use hbbft::messaging::{DistAlgorithm, Target, TargetedMessage};
use hbbft::shards::{cut_value, number_shards};
use hbbft::tree::InclusionProof;

type Message = TargetedMessage<BroadcastMessage, usize>;

fn all_ids(count: usize) -> BTreeSet<usize> {
    (0..count).collect()
}

/// The instance of node `id` among `count`, with node 0 as the proposer.
fn instance(id: usize, count: usize) -> Broadcast<usize> {
    Broadcast::new(id, 0, all_ids(count)).expect("instance")
}

/// The outgoing messages.
fn outgoing(node: &mut Broadcast<usize>) -> Vec<Message> {
    let mut messages = Vec::new();
    while let Some(m) = node.next_message() {
        messages.push(m);
    }
    messages
}

/// The proof of one leaf of a tree.
fn proof_for(leaves: &Vec<Vec<u8>>, i: usize) -> InclusionProof {
    let tree = MerkleTree::from_vec(&digest::SHA256, leaves.clone());
    InclusionProof { inner: tree.gen_proof(leaves[i].clone()).expect("proof") }
}

/// The leaves of a value among `count` nodes.
fn leaves(value: &[u8], count: usize) -> Vec<Vec<u8>> {
    let data = (count - 1) / 3 + 1;
    let mut shards = cut_value(value.to_vec(), data, count - data);
    Coding::new(data, count - data).expect("codec").encode(&mut shards).expect("encode");
    number_shards(shards)
}

/// The root hash of a tree.
fn root(leaves: &Vec<Vec<u8>>) -> Vec<u8> {
    MerkleTree::from_vec(&digest::SHA256, leaves.clone()).root_hash().clone()
}

fn is_ready_for(m: &Message, hash: &Vec<u8>) -> bool {
    *m == Target::All.message(BroadcastMessage::Ready(hash.clone()))
}

#[test]
fn a_proposer_sends_each_node_its_leaf() {
    let mut node = instance(0, 4);
    node.input(b"Foo".to_vec()).expect("propose");
    let leaves = leaves(b"Foo", 4);
    assert_eq!(leaves[0], vec![0, 3, b'F']);
    assert_eq!(leaves[1], vec![1, b'o', b'o']);
    let expected: Vec<Message> = vec![
        Target::Node(1).message(BroadcastMessage::Value(proof_for(&leaves, 1))),
        Target::Node(2).message(BroadcastMessage::Value(proof_for(&leaves, 2))),
        Target::Node(3).message(BroadcastMessage::Value(proof_for(&leaves, 3))),
        Target::All.message(BroadcastMessage::Echo(proof_for(&leaves, 0))),
    ];
    assert_eq!(outgoing(&mut node), expected);
    assert!(!node.terminated());
    assert!(node.next_output().is_none());
    assert_eq!(*node.our_id(), 0);
}

#[test]
fn ids_are_taken_in_order() {
    let ids: BTreeSet<usize> = vec![30, 10, 20, 40].into_iter().collect();
    assert_eq!(list_ids(&ids), vec![&10, &20, &30, &40]);
    let mut node = Broadcast::new(20, 20, ids).expect("instance");
    node.input(b"Foo".to_vec()).expect("propose");
    let leaves = leaves(b"Foo", 4);
    let expected: Vec<Message> = vec![
        Target::Node(10).message(BroadcastMessage::Value(proof_for(&leaves, 0))),
        Target::Node(30).message(BroadcastMessage::Value(proof_for(&leaves, 2))),
        Target::Node(40).message(BroadcastMessage::Value(proof_for(&leaves, 3))),
        Target::All.message(BroadcastMessage::Echo(proof_for(&leaves, 1))),
    ];
    assert_eq!(outgoing(&mut node), expected);
}

#[test]
fn a_single_node_outputs_at_once() {
    let mut node = instance(0, 1);
    node.input(b"Foo".to_vec()).expect("propose");
    let leaves = leaves(b"Foo", 1);
    assert_eq!(
        outgoing(&mut node),
        vec![
            Target::All.message(BroadcastMessage::Ready(root(&leaves))),
            Target::All.message(BroadcastMessage::Echo(proof_for(&leaves, 0))),
        ]
    );
    assert!(node.terminated());
    assert_eq!(node.next_output(), Some(b"Foo".to_vec()));
    assert!(node.next_output().is_none());
}

#[test]
fn a_long_value_comes_back_whole() {
    for len in vec![255, 256, 257, 300, 511, 512, 70000] {
        let mut node = instance(0, 1);
        let value: Vec<u8> = (0..len).map(|i| (i % 251) as u8).collect();
        node.input(value.clone()).expect("propose");
        assert_eq!(node.next_output(), Some(value));
    }
    let mut node = instance(0, 1);
    assert!(node.input(vec![7; 256]).is_ok());
    assert_eq!(node.next_output(), Some(vec![7; 256]));
}

#[test]
fn one_more_than_the_faulty_nodes_can_be_hold_the_value() {
    // Of eight nodes two can be faulty, so three shards hold the length and eight bytes.
    let mut node = instance(0, 8);
    node.input(b"Fooobarr".to_vec()).expect("propose");
    match node.next_message().expect("message").message {
        BroadcastMessage::Value(p) => assert_eq!(p.inner.value, b"\x01oob".to_vec()),
        other => panic!("{:?}", other),
    }
}

#[test]
fn an_empty_value_can_be_proposed() {
    let mut node = instance(0, 1);
    node.input(vec![]).expect("propose");
    assert_eq!(node.next_output(), Some(vec![]));
}

#[test]
fn only_the_proposer_can_propose() {
    let mut node = instance(1, 4);
    assert!(matches!(
        node.input(b"Foo".to_vec()),
        Err(Error::InstanceCannotPropose)
    ));
    assert!(node.next_message().is_none());
}

#[test]
fn a_proposer_needs_a_place_among_the_nodes() {
    let mut node = Broadcast::new(9, 9, all_ids(4)).expect("instance");
    assert!(matches!(
        node.input(b"Foo".to_vec()),
        Err(Error::ProofConstructionFailed)
    ));
    assert_eq!(outgoing(&mut node).len(), 4);
}

#[test]
fn messages_from_strangers_are_refused() {
    let mut node = instance(1, 4);
    assert!(matches!(
        node.handle_message(&4, BroadcastMessage::Ready(vec![1])),
        Err(Error::UnknownSender)
    ));
    assert!(node.next_message().is_none());
}

#[test]
fn no_more_than_256_nodes_fit() {
    assert!(Broadcast::new(0, 0, all_ids(256)).is_ok());
    assert!(matches!(
        Broadcast::new(0, 0, all_ids(257)),
        Err(Error::ReedSolomon(rse::Error::TooManyShards))
    ));
}

#[test]
fn the_first_value_is_echoed() {
    let first = leaves(b"Foo", 4);
    let second = leaves(b"Bar", 4);
    let mut node = instance(2, 4);
    node.handle_message(&0, BroadcastMessage::Value(proof_for(&first, 2))).expect("value");
    assert_eq!(
        outgoing(&mut node),
        vec![Target::All.message(BroadcastMessage::Echo(proof_for(&first, 2)))]
    );
    node.handle_message(&0, BroadcastMessage::Value(proof_for(&second, 2))).expect("value");
    node.handle_message(&0, BroadcastMessage::Value(proof_for(&first, 2))).expect("value");
    assert!(node.next_message().is_none());
}

#[test]
fn a_value_from_another_node_is_ignored() {
    let leaves = leaves(b"Foo", 4);
    let mut node = instance(2, 4);
    node.handle_message(&1, BroadcastMessage::Value(proof_for(&leaves, 2))).expect("value");
    assert!(node.next_message().is_none());
    node.handle_message(&0, BroadcastMessage::Value(proof_for(&leaves, 2))).expect("value");
    assert_eq!(outgoing(&mut node).len(), 1);
}

#[test]
fn a_value_for_another_place_is_ignored() {
    let leaves = leaves(b"Foo", 4);
    let mut node = instance(2, 4);
    node.handle_message(&0, BroadcastMessage::Value(proof_for(&leaves, 1))).expect("value");
    assert!(node.next_message().is_none());
    // The first byte gives the right place, but the branch leads elsewhere.
    let mut swapped = leaves.clone();
    swapped.swap(1, 2);
    node.handle_message(&0, BroadcastMessage::Value(proof_for(&swapped, 1))).expect("value");
    assert!(node.next_message().is_none());
    node.handle_message(&0, BroadcastMessage::Value(proof_for(&leaves, 2))).expect("value");
    assert_eq!(outgoing(&mut node).len(), 1);
}

#[test]
fn an_invalid_proof_is_ignored() {
    let leaves = leaves(b"Foo", 4);
    let mut node = instance(2, 4);
    let mut forged = proof_for(&leaves, 2);
    forged.inner.root_hash = vec![0; 32];
    node.handle_message(&0, BroadcastMessage::Value(forged)).expect("value");
    assert!(node.next_message().is_none());
}

#[test]
fn places_are_checked() {
    let node = Broadcast::new(20, 20, vec![10, 20, 30].into_iter().collect()).expect("instance");
    assert!(node.is_in_place(&vec![1, 5], 1, &20));
    assert!(!node.is_in_place(&vec![1, 5], 2, &20));
    assert!(!node.is_in_place(&vec![2, 5], 1, &20));
    assert!(!node.is_in_place(&vec![1, 5], 1, &30));
    assert!(!node.is_in_place(&vec![3, 5], 3, &40));
}

#[test]
fn enough_echos_make_a_node_ready() {
    let leaves = leaves(b"Foo", 4);
    let hash = root(&leaves);
    let mut node = instance(3, 4);
    for id in 0..2 {
        // The second `Echo` of each node does not count.
        for _ in 0..2 {
            node.handle_message(&id, BroadcastMessage::Echo(proof_for(&leaves, id))).expect("echo");
        }
        assert!(node.next_message().is_none());
    }
    node.handle_message(&2, BroadcastMessage::Echo(proof_for(&leaves, 2))).expect("echo");
    let messages = outgoing(&mut node);
    assert_eq!(messages.len(), 1);
    assert!(is_ready_for(&messages[0], &hash));
}

#[test]
fn enough_readys_make_a_node_ready_once() {
    let mut node = instance(3, 4);
    let hash = vec![7; 32];
    // Two `Ready`s of one node count once, and different root hashes count apart.
    node.handle_message(&0, BroadcastMessage::Ready(hash.clone())).expect("ready");
    node.handle_message(&0, BroadcastMessage::Ready(hash.clone())).expect("ready");
    node.handle_message(&1, BroadcastMessage::Ready(vec![8; 32])).expect("ready");
    assert!(node.next_message().is_none());
    node.handle_message(&2, BroadcastMessage::Ready(hash.clone())).expect("ready");
    let messages = outgoing(&mut node);
    assert_eq!(messages.len(), 1);
    assert!(is_ready_for(&messages[0], &hash));
    node.handle_message(&3, BroadcastMessage::Ready(hash.clone())).expect("ready");
    assert!(node.next_message().is_none());
    assert!(!node.terminated());
}

#[test]
fn readys_and_echos_bring_the_value_back() {
    let leaves = leaves(b"Foobar", 7);
    let hash = root(&leaves);
    let mut node = instance(1, 7);
    // Any three of the seven leaves are enough.
    for id in 4..7 {
        node.handle_message(&id, BroadcastMessage::Echo(proof_for(&leaves, id))).expect("echo");
    }
    for id in 2..5 {
        node.handle_message(&id, BroadcastMessage::Ready(hash.clone())).expect("ready");
        assert!(!node.terminated());
    }
    // The node has become ready itself, and has five `Ready`s with the next one.
    node.handle_message(&5, BroadcastMessage::Ready(hash.clone())).expect("ready");
    assert!(node.terminated());
    assert_eq!(node.next_output(), Some(b"Foobar".to_vec()));
    // Nothing more is output after that.
    for id in 0..4 {
        node.handle_message(&id, BroadcastMessage::Echo(proof_for(&leaves, id))).expect("echo");
    }
    assert!(node.next_output().is_none());
}

#[test]
fn echos_after_the_readys_bring_the_value_back() {
    let leaves = leaves(b"Foobar", 4);
    let hash = root(&leaves);
    let mut node = instance(1, 4);
    for id in vec![0, 2, 3] {
        node.handle_message(&id, BroadcastMessage::Ready(hash.clone())).expect("ready");
    }
    node.handle_message(&2, BroadcastMessage::Echo(proof_for(&leaves, 2))).expect("echo");
    assert!(!node.terminated());
    node.handle_message(&3, BroadcastMessage::Echo(proof_for(&leaves, 3))).expect("echo");
    assert!(node.terminated());
    assert_eq!(node.next_output(), Some(b"Foobar".to_vec()));
}

#[test]
fn a_node_counts_the_ready_that_it_sends() {
    let leaves = leaves(b"Foo", 4);
    let hash = root(&leaves);
    let mut node = instance(2, 4);
    node.handle_message(&0, BroadcastMessage::Value(proof_for(&leaves, 2))).expect("value");
    node.handle_message(&0, BroadcastMessage::Ready(hash.clone())).expect("ready");
    node.handle_message(&1, BroadcastMessage::Ready(hash.clone())).expect("ready");
    assert!(node.next_output().is_none());
    node.handle_message(&0, BroadcastMessage::Echo(proof_for(&leaves, 0))).expect("echo");
    node.handle_message(&1, BroadcastMessage::Echo(proof_for(&leaves, 1))).expect("echo");
    assert_eq!(node.next_output(), Some(b"Foo".to_vec()));
    let messages = outgoing(&mut node);
    assert_eq!(messages.iter().filter(|m| is_ready_for(m, &hash)).count(), 1);
}

#[test]
fn one_of_two_leaves_brings_the_value_back() {
    let leaves = leaves(b"Foo", 2);
    assert_eq!(leaves, vec![b"\x00\x03Foo".to_vec(), b"\x01\x03Foo".to_vec()]);
    let mut node = instance(1, 2);
    node.handle_message(&0, BroadcastMessage::Value(proof_for(&leaves, 1))).expect("value");
    assert!(!node.terminated());
    node.handle_message(&0, BroadcastMessage::Ready(root(&leaves))).expect("ready");
    assert_eq!(node.next_output(), Some(b"Foo".to_vec()));
}

#[test]
fn three_of_eight_leaves_bring_the_value_back() {
    let leaves = leaves(b"Foobar", 8);
    let hash = root(&leaves);
    let mut node = instance(1, 8);
    for id in 3..8 {
        node.handle_message(&id, BroadcastMessage::Ready(hash.clone())).expect("ready");
    }
    for id in 5..7 {
        node.handle_message(&id, BroadcastMessage::Echo(proof_for(&leaves, id))).expect("echo");
        assert!(!node.terminated());
    }
    node.handle_message(&7, BroadcastMessage::Echo(proof_for(&leaves, 7))).expect("echo");
    assert!(node.terminated());
    assert_eq!(node.next_output(), Some(b"Foobar".to_vec()));
}

#[test]
fn a_made_up_leaf_is_ignored() {
    let leaves = leaves(b"Foobar", 4);
    let hash = root(&leaves);
    let mut node = instance(1, 4);
    for id in vec![0, 2, 3] {
        node.handle_message(&id, BroadcastMessage::Ready(hash.clone())).expect("ready");
    }
    node.handle_message(&2, BroadcastMessage::Echo(proof_for(&leaves, 2))).expect("echo");
    let mut wrong = proof_for(&leaves, 3);
    assert!(wrong.is_proven());
    wrong.inner.value[1] ^= 1;
    assert!(!wrong.is_proven());
    node.handle_message(&3, BroadcastMessage::Echo(wrong)).expect("echo");
    assert!(!node.terminated());
    node.handle_message(&3, BroadcastMessage::Echo(proof_for(&leaves, 3))).expect("echo");
    assert_eq!(node.next_output(), Some(b"Foobar".to_vec()));
}

#[test]
fn a_proof_of_another_hash_function_is_ignored() {
    let leaves = leaves(b"Foo", 4);
    let tree = MerkleTree::from_vec(&digest::SHA512, leaves.clone());
    let p = InclusionProof { inner: tree.gen_proof(leaves[2].clone()).expect("proof") };
    assert!(!p.is_proven());
    let mut node = instance(2, 4);
    node.handle_message(&0, BroadcastMessage::Value(p)).expect("value");
    assert!(node.next_message().is_none());
}

#[test]
fn leaves_that_do_not_belong_together_are_found_out() {
    // The proposer has put a wrong parity shard into the tree.
    let mut leaves = leaves(b"Foobar", 4);
    leaves[3][1] ^= 1;
    let hash = root(&leaves);
    let orders = vec![vec![0, 1], vec![0, 3], vec![2, 3], vec![1, 2]];
    for order in orders {
        let mut node = instance(1, 4);
        for id in vec![0, 2, 3] {
            node.handle_message(&id, BroadcastMessage::Ready(hash.clone())).expect("ready");
        }
        let first = BroadcastMessage::Echo(proof_for(&leaves, order[0]));
        node.handle_message(&order[0], first).expect("echo");
        let second = BroadcastMessage::Echo(proof_for(&leaves, order[1]));
        assert!(matches!(
            node.handle_message(&order[1], second),
            Err(Error::RootHashMismatch)
        ));
        assert!(node.terminated());
        assert!(node.next_output().is_none());
    }
    // A node that has all the leaves finds it out, too.
    let mut node = instance(1, 4);
    for id in 0..4 {
        node.handle_message(&id, BroadcastMessage::Echo(proof_for(&leaves, id))).expect("echo");
    }
    node.handle_message(&0, BroadcastMessage::Ready(hash.clone())).expect("ready");
    assert!(!node.terminated());
    assert!(matches!(
        node.handle_message(&2, BroadcastMessage::Ready(hash.clone())),
        Err(Error::RootHashMismatch)
    ));
    assert!(node.next_output().is_none());
}

#[test]
fn leaves_of_different_lengths_are_found_out() {
    let mut leaves = leaves(b"Foobar", 4);
    leaves[3].push(0);
    let hash = root(&leaves);
    let mut node = instance(1, 4);
    for id in vec![0, 2, 3] {
        node.handle_message(&id, BroadcastMessage::Ready(hash.clone())).expect("ready");
    }
    node.handle_message(&2, BroadcastMessage::Echo(proof_for(&leaves, 2))).expect("echo");
    assert!(matches!(
        node.handle_message(&3, BroadcastMessage::Echo(proof_for(&leaves, 3))),
        Err(Error::ReedSolomon(rse::Error::IncorrectShardSize))
    ));
    assert!(node.terminated());
}

#[test]
fn leaves_of_one_byte_are_restored() {
    // Whichever of the short leaves come, the others are taken to be short, too.
    let leaves = vec![vec![0], vec![1], vec![2], vec![3, 9]];
    let hash = root(&leaves);
    for order in vec![vec![0, 1], vec![0, 2], vec![2, 1]] {
        let mut node = instance(1, 4);
        for id in vec![0, 2, 3] {
            node.handle_message(&id, BroadcastMessage::Ready(hash.clone())).expect("ready");
        }
        let first = BroadcastMessage::Echo(proof_for(&leaves, order[0]));
        node.handle_message(&order[0], first).expect("echo");
        let second = BroadcastMessage::Echo(proof_for(&leaves, order[1]));
        assert!(matches!(
            node.handle_message(&order[1], second),
            Err(Error::RootHashMismatch)
        ));
    }
    let mut node = instance(1, 4);
    for id in vec![0, 2, 3] {
        node.handle_message(&id, BroadcastMessage::Ready(hash.clone())).expect("ready");
    }
    node.handle_message(&0, BroadcastMessage::Echo(proof_for(&leaves, 0))).expect("echo");
    assert!(matches!(
        node.handle_message(&3, BroadcastMessage::Echo(proof_for(&leaves, 3))),
        Err(Error::ReedSolomon(rse::Error::IncorrectShardSize))
    ));
}

#[test]
fn leaves_of_one_byte_hold_no_value() {
    let leaves = vec![vec![0], vec![1], vec![2], vec![3]];
    let hash = root(&leaves);
    let mut node = instance(1, 4);
    for id in vec![0, 2, 3] {
        node.handle_message(&id, BroadcastMessage::Ready(hash.clone())).expect("ready");
    }
    node.handle_message(&0, BroadcastMessage::Echo(proof_for(&leaves, 0))).expect("echo");
    let message = BroadcastMessage::Echo(proof_for(&leaves, 2));
    assert!(!node.can_handle_message(&2, &message));
    assert!(node.try_handle_message(&2, message).is_none());
    assert!(!node.terminated());
}

#[test]
fn messages_go_to_whom_they_are_meant_for() {
    for count in 1..8 {
        let leaves = leaves(b"Foo", count);
        let mut node = instance(0, count);
        node.input(b"Foo".to_vec()).expect("propose");
        for id in 1..count {
            node.handle_message(&id, BroadcastMessage::Echo(proof_for(&leaves, id))).expect("echo");
            node.handle_message(&id, BroadcastMessage::Ready(root(&leaves))).expect("ready");
        }
        assert!(node.terminated());
        let messages = outgoing(&mut node);
        assert_eq!(messages.len(), count + 1);
        for m in messages {
            match m.message {
                BroadcastMessage::Value(_) => match m.target {
                    Target::Node(id) => assert_ne!(id, 0),
                    Target::All => panic!("value to all"),
                },
                _ => assert_eq!(m.target, Target::All),
            }
        }
    }
}

#[test]
fn a_value_is_echoed_even_if_it_cannot_be_decoded() {
    let mut leaves = leaves(b"Foobar", 4);
    leaves[2][1] ^= 1;
    let hash = root(&leaves);
    let mut node = instance(1, 4);
    for id in vec![0, 2, 3] {
        node.handle_message(&id, BroadcastMessage::Ready(hash.clone())).expect("ready");
    }
    node.handle_message(&3, BroadcastMessage::Echo(proof_for(&leaves, 3))).expect("echo");
    outgoing(&mut node);
    assert!(matches!(
        node.handle_message(&0, BroadcastMessage::Value(proof_for(&leaves, 1))),
        Err(Error::RootHashMismatch)
    ));
    assert_eq!(
        outgoing(&mut node),
        vec![Target::All.message(BroadcastMessage::Echo(proof_for(&leaves, 1)))]
    );
}

#[test]
fn replayed_messages_have_no_effect() {
    let leaves = leaves(b"Foo", 4);
    let mut once = instance(3, 4);
    let mut twice = instance(3, 4);
    let mut messages: Vec<(usize, BroadcastMessage)> = Vec::new();
    for id in 0..3 {
        messages.push((id, BroadcastMessage::Echo(proof_for(&leaves, id))));
        messages.push((id, BroadcastMessage::Ready(root(&leaves))));
    }
    messages.push((0, BroadcastMessage::Value(proof_for(&leaves, 3))));
    for (id, message) in messages {
        once.handle_message(&id, message.clone()).expect("message");
        twice.handle_message(&id, message.clone()).expect("message");
        twice.handle_message(&id, message).expect("message");
    }
    assert_eq!(outgoing(&mut once), outgoing(&mut twice));
    assert_eq!(once.next_output(), Some(b"Foo".to_vec()));
    assert_eq!(twice.next_output(), Some(b"Foo".to_vec()));
}

#[test]
fn a_proof_of_an_empty_leaf_is_ignored() {
    let empty = vec![vec![], vec![1]];
    let mut node = Broadcast::new(1, 0, all_ids(2)).expect("instance");
    let message = BroadcastMessage::Value(proof_for(&empty, 0));
    assert!(proof_for(&empty, 0).is_proven());
    assert!(node.can_handle_message(&0, &message));
    node.handle_message(&0, message).expect("value");
    node.handle_message(&0, BroadcastMessage::Echo(proof_for(&empty, 0))).expect("echo");
    assert!(node.next_message().is_none());
    assert!(!node.is_in_place(&vec![], 0, &0));
}

#[test]
fn a_value_shorter_than_it_says_is_not_handled() {
    let short = vec![vec![0, 9, 1]];
    let mut node = instance(0, 1);
    let message = BroadcastMessage::Value(proof_for(&short, 0));
    assert!(!node.can_handle_message(&0, &message));
    assert!(node.try_handle_message(&0, message).is_none());
    assert!(node.next_message().is_none());
    assert!(!node.terminated());
    let exact = vec![vec![0, 1, 1]];
    let message = BroadcastMessage::Value(proof_for(&exact, 0));
    assert!(node.can_handle_message(&0, &message));
    assert!(matches!(node.try_handle_message(&0, message), Some(Ok(()))));
    assert_eq!(node.next_output(), Some(vec![1]));
}

#[test]
fn tried_messages_are_handled_as_others() {
    let leaves = leaves(b"Foo", 4);
    let mut tried = instance(3, 4);
    let mut plain = instance(3, 4);
    let mut messages: Vec<(usize, BroadcastMessage)> = Vec::new();
    for id in 0..3 {
        messages.push((id, BroadcastMessage::Echo(proof_for(&leaves, id))));
    }
    messages.push((0, BroadcastMessage::Value(proof_for(&leaves, 3))));
    for id in 0..3 {
        messages.push((id, BroadcastMessage::Ready(root(&leaves))));
    }
    for (id, message) in messages {
        assert!(tried.can_handle_message(&id, &message));
        assert!(matches!(tried.try_handle_message(&id, message.clone()), Some(Ok(()))));
        assert!(plain.handle_message(&id, message).is_ok());
    }
    assert_eq!(outgoing(&mut tried), outgoing(&mut plain));
    assert_eq!(plain.next_output(), Some(b"Foo".to_vec()));
    assert_eq!(tried.next_output(), Some(b"Foo".to_vec()));
    assert!(matches!(
        tried.try_handle_message(&9, BroadcastMessage::Ready(vec![])),
        Some(Err(Error::UnknownSender))
    ));
}

#[test]
fn tried_inputs_are_handled_as_others() {
    let mut node = instance(0, 4);
    assert!(node.can_input(&b"Foo".to_vec()));
    assert!(matches!(node.try_input(b"Foo".to_vec()), Some(Ok(()))));
    assert_eq!(outgoing(&mut node).len(), 4);
    let mut other = instance(1, 4);
    assert!(other.can_input(&b"Foo".to_vec()));
    assert!(matches!(
        other.try_input(b"Foo".to_vec()),
        Some(Err(Error::InstanceCannotPropose))
    ));
}

#[test]
fn a_decision_sets_the_output() {
    let mut node = instance(0, 4);
    assert!(node.decide(Ok(vec![1, 2])).is_ok());
    assert!(node.terminated());
    assert_eq!(node.next_output(), Some(vec![1, 2]));
    let mut failed = instance(0, 4);
    assert!(matches!(
        failed.decide(Err(Error::RootHashMismatch)),
        Err(Error::RootHashMismatch)
    ));
    assert!(failed.terminated());
    assert!(failed.next_output().is_none());
}

#[test]
fn proofs_are_distributed_in_order() {
    let leaves = leaves(b"Foo", 4);
    let proofs: Vec<InclusionProof> = (0..4).map(|i| proof_for(&leaves, i)).collect();
    let mut node = instance(2, 4);
    assert_eq!(node.distribute(proofs).expect("distribute"), proof_for(&leaves, 2));
    let expected: Vec<Message> = vec![0, 1, 3]
        .into_iter()
        .map(|i| Target::Node(i).message(BroadcastMessage::Value(proof_for(&leaves, i))))
        .collect();
    assert_eq!(outgoing(&mut node), expected);
}

#[test]
fn clones_are_equal() {
    let leaves = leaves(b"Foo", 4);
    let message = BroadcastMessage::Value(proof_for(&leaves, 1));
    assert_eq!(message.clone(), message);
    assert_ne!(message, BroadcastMessage::Value(proof_for(&leaves, 2)));
    let ready = BroadcastMessage::Ready(vec![1, 2]);
    assert_eq!(ready.clone(), ready);
}
