//! What the good nodes of a network can rely on.

use std::collections::{BTreeMap, BTreeSet};

use hbbft::broadcast::{Broadcast, BroadcastMessage};
use hbbft::messaging::{DistAlgorithm, Target, TargetedMessage};

/// Good nodes, the messages on their way to them, and what they have output and multicast.
struct Net {
    nodes: BTreeMap<usize, Broadcast<usize>>,
    flying: Vec<(usize, usize, BroadcastMessage)>,
    outputs: BTreeMap<usize, Vec<Vec<u8>>>,
    readys: Vec<(usize, Vec<u8>)>,
    echos: Vec<usize>,
    seed: usize,
}

impl Net {
    /// A network of `count` nodes, the first `good` of which are good.
    fn new(count: usize, good: usize, proposer: usize, seed: usize) -> Net {
        let ids: BTreeSet<usize> = (0..count).collect();
        Net {
            nodes: (0..good)
                .map(|id| (id, Broadcast::new(id, proposer, ids.clone()).expect("instance")))
                .collect(),
            flying: Vec::new(),
            outputs: (0..good).map(|id| (id, Vec::new())).collect(),
            readys: Vec::new(),
            echos: Vec::new(),
            seed,
        }
    }

    /// Puts a message on its way to all recipients but the sender.
    fn send(&mut self, from: usize, m: TargetedMessage<BroadcastMessage, usize>) {
        let recipients: Vec<usize> = match m.target {
            Target::All => self.nodes.keys().cloned().collect(),
            Target::Node(id) => vec![id],
        };
        for id in recipients {
            if id != from && self.nodes.contains_key(&id) {
                self.flying.push((from, id, m.message.clone()));
            }
        }
    }

    /// Takes the messages and the output of a good node.
    fn collect(&mut self, id: usize) {
        let mut messages = Vec::new();
        {
            let node = self.nodes.get_mut(&id).unwrap();
            while let Some(m) = node.next_message() {
                messages.push(m);
            }
            self.outputs.get_mut(&id).unwrap().extend(node.next_output());
        }
        for m in messages {
            match m.message {
                BroadcastMessage::Ready(ref hash) => self.readys.push((id, hash.clone())),
                BroadcastMessage::Echo(_) => self.echos.push(id),
                BroadcastMessage::Value(_) => {}
            }
            self.send(id, m);
        }
    }

    fn input(&mut self, id: usize, value: &[u8]) {
        self.nodes.get_mut(&id).unwrap().input(value.to_vec()).expect("propose");
        self.collect(id);
    }

    /// Delivers messages in a scrambled order until none is left.
    fn run(&mut self) {
        while !self.flying.is_empty() {
            self.seed = (self.seed * 1103515245 + 12345) % 2147483648;
            let pick = (self.seed / 65536) % self.flying.len();
            let (from, to, message) = self.flying.swap_remove(pick);
            self.nodes
                .get_mut(&to)
                .unwrap()
                .handle_message(&from, message)
                .expect("handle message");
            self.collect(to);
        }
    }

    /// Checks that no good node has multicast anything twice, and that all `Ready`s are for one
    /// root hash.
    fn check_messages(&self) {
        let senders: BTreeSet<usize> = self.echos.iter().cloned().collect();
        assert_eq!(senders.len(), self.echos.len());
        let senders: BTreeSet<usize> = self.readys.iter().map(|r| r.0).collect();
        assert_eq!(senders.len(), self.readys.len());
        let hashes: BTreeSet<Vec<u8>> = self.readys.iter().map(|r| r.1.clone()).collect();
        assert!(hashes.len() <= 1);
    }
}

/// The messages with which a faulty proposer spreads a value.
fn proposal(
    id: usize,
    count: usize,
    value: &[u8],
) -> Vec<TargetedMessage<BroadcastMessage, usize>> {
    let ids: BTreeSet<usize> = (0..count).collect();
    let mut node = Broadcast::new(id, id, ids).expect("instance");
    node.input(value.to_vec()).expect("propose");
    let mut messages = Vec::new();
    while let Some(m) = node.next_message() {
        messages.push(m);
    }
    messages
}

#[test]
fn all_good_nodes_output_what_a_good_proposer_proposes() {
    for count in 1..15 {
        let faulty = (count - 1) / 3;
        for seed in 0..10 {
            let mut net = Net::new(count, count - faulty, 0, seed);
            let value = vec![b'x'; 40 * count];
            net.input(0, &value);
            net.run();
            net.check_messages();
            for outputs in net.outputs.values() {
                assert_eq!(*outputs, vec![value.clone()]);
            }
            for node in net.nodes.values() {
                assert!(node.terminated());
            }
        }
    }
}

#[test]
fn a_proposer_with_two_values_does_not_split_the_good_nodes() {
    for seed in 0..40 {
        let mut net = Net::new(4, 3, 3, seed);
        let first = proposal(3, 4, b"first");
        let second = proposal(3, 4, b"second");
        // Two of the good nodes get a share of the first value, and one of the second.
        for m in first {
            match m.target {
                Target::Node(2) => {}
                _ => net.send(3, m),
            }
        }
        for m in second {
            match m.target {
                Target::Node(2) => net.send(3, m),
                _ => {}
            }
        }
        net.run();
        net.check_messages();
        let values: BTreeSet<Vec<u8>> = net.outputs.values().flat_map(|o| o.clone()).collect();
        assert!(values.len() <= 1);
        // All or none of them output.
        let done = net.outputs.values().filter(|o| o.len() == 1).count();
        assert!(done == 0 || done == 3);
    }
}

#[test]
fn good_nodes_finish_what_one_of_them_has_finished() {
    // The proposer is faulty and falls silent once it has sent the shares and its own `Echo`.
    for seed in 0..40 {
        let mut net = Net::new(4, 3, 3, seed);
        for m in proposal(3, 4, b"value") {
            net.send(3, m);
        }
        net.run();
        net.check_messages();
        for outputs in net.outputs.values() {
            assert_eq!(*outputs, vec![b"value".to_vec()]);
        }
    }
}

#[test]
fn readys_of_faulty_nodes_alone_move_nobody() {
    let mut net = Net::new(7, 5, 0, 1);
    for from in 5..7 {
        net.send(from, Target::All.message(BroadcastMessage::Ready(vec![1; 32])));
    }
    net.run();
    net.check_messages();
    assert!(net.readys.is_empty());
    assert!(net.nodes.values().all(|node| !node.terminated()));
}

#[test]
fn made_up_leaves_of_faulty_nodes_do_no_harm() {
    for seed in 0..20 {
        // Two of seven nodes echo their shares with other contents, and send `Ready`s for them.
        let mut net = Net::new(7, 5, 0, seed);
        net.nodes.get_mut(&0).unwrap().input(b"value".to_vec()).expect("propose");
        let messages = net.nodes.get_mut(&0).unwrap().message_iter().collect();
        for m in messages {
            if let (Target::Node(to), BroadcastMessage::Value(p)) = (&m.target, &m.message) {
                if *to >= 5 {
                    let mut wrong = p.clone();
                    wrong.inner.value[1] ^= 1;
                    let echo = BroadcastMessage::Echo(wrong);
                    net.send(*to, Target::All.message(echo));
                    let ready = BroadcastMessage::Ready(p.inner.root_hash.clone());
                    net.send(*to, Target::All.message(ready));
                }
            }
            net.send(0, m);
        }
        net.run();
        net.check_messages();
        for outputs in net.outputs.values() {
            assert_eq!(*outputs, vec![b"value".to_vec()]);
        }
    }
}
