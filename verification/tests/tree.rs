//! The hashes of leaves and trees.

use ring::digest;
use std::collections::BTreeSet;

use hbbft::broadcast::{Broadcast, BroadcastMessage};
use hbbft::messaging::DistAlgorithm;
use hbbft::tree::hash_leaf;

/// The root hash of the tree with these leaves.
fn root_hash(leaves: &[Vec<u8>]) -> Vec<u8> {
    if leaves.len() == 1 {
        return hash_leaf(&leaves[0]);
    }
    let left = leaves.len().next_power_of_two() / 2;
    let mut bytes = vec![1];
    bytes.extend(root_hash(&leaves[..left]));
    bytes.extend(root_hash(&leaves[left..]));
    digest::digest(&digest::SHA256, &bytes).as_ref().to_vec()
}

#[test]
fn an_empty_leaf_has_the_hash_of_a_zero_byte() {
    let hex: String = hash_leaf(&vec![]).iter().map(|b| format!("{:02x}", b)).collect();
    assert_eq!(
        hex,
        "6e340b9cffb37a989ca544e6bb780a2c78901d3fb33738768511a30617afa01d"
    );
}

#[test]
fn a_leaf_is_hashed_behind_a_zero_byte() {
    let expected = digest::digest(&digest::SHA256, &[0, 5, 6, 7]);
    assert_eq!(hash_leaf(&vec![5, 6, 7]), expected.as_ref().to_vec());
}

#[test]
fn roots_are_made_of_the_hashes_of_both_sides() {
    for count in 1..34 {
        let ids: BTreeSet<usize> = (0..count).collect();
        let mut node = Broadcast::new(0, 0, ids).expect("instance");
        node.input(b"some value".to_vec()).expect("propose");
        let mut proofs = Vec::new();
        while let Some(m) = node.next_message() {
            match m.message {
                BroadcastMessage::Value(p) | BroadcastMessage::Echo(p) => proofs.push(p),
                BroadcastMessage::Ready(_) => {}
            }
        }
        proofs.sort_by_key(|p| p.inner.value[0]);
        let leaves: Vec<Vec<u8>> = proofs.iter().map(|p| p.inner.value.clone()).collect();
        assert_eq!(leaves.len(), count);
        for (i, p) in proofs.iter().enumerate() {
            assert!(p.is_proven());
            assert_eq!(p.inner.index(count), i);
            assert_eq!(p.inner.root_hash, root_hash(&leaves));
        }
    }
}

#[test]
fn a_proof_of_another_value_is_not_proven() {
    let ids: BTreeSet<usize> = (0..5).collect();
    let mut node = Broadcast::new(0, 0, ids).expect("instance");
    node.input(b"some value".to_vec()).expect("propose");
    match node.next_message().expect("message").message {
        BroadcastMessage::Value(mut p) => {
            assert!(p.is_proven());
            p.inner.value.push(0);
            assert!(!p.is_proven());
        }
        other => panic!("{:?}", other),
    }
}
