//! The reliable broadcast protocol, as a node sees it: what a node knows, and what it does when it
//! gets an input or a message.
use vstd::prelude::*;

use crate::broadcast::Error;
use crate::messaging::{Target, TargetedMessage};
use crate::shards::{
    decodable, decoded_whole, holds_payload, joined, leaves_of, lemma_leaves, payload, recoverable,
};
use crate::tree::{
    branch_to, first_place, has_twins, leaf_hash, lemma_branch, lemma_first_place, root_of,
    HashAlgorithm, ProofContents,
};

verus! {

/// What a message says.
pub enum Content {
    Value(ProofContents),
    Echo(ProofContents),
    Ready(Seq<u8>),
}

impl Content {
    /// The root hash that the message is about.
    pub open spec fn root_hash(self) -> Seq<u8> {
        match self {
            Content::Value(p) => p.root_hash,
            Content::Echo(p) => p.root_hash,
            Content::Ready(hash) => hash,
        }
    }
}

/// What a node knows.
#[verifier::reject_recursive_types(N)]
pub struct State<N> {
    /// The node's own ID.
    pub our_id: N,
    /// The ID of the node that proposes the value.
    pub proposer_id: N,
    /// The IDs of all nodes, in ascending order.
    pub nodes: Seq<N>,
    /// Whether the node has multicast `Echo`.
    pub echo_sent: bool,
    /// Whether the node has multicast `Ready`.
    pub ready_sent: bool,
    /// Whether the node has tried to decode the value.
    pub decided: bool,
    /// The proofs that came with `Echo` messages, by sender.
    pub echos: Map<N, ProofContents>,
    /// The root hashes that came with `Ready` messages, by sender.
    pub readys: Map<N, Seq<u8>>,
    /// The messages that the node has to send.
    pub messages: Seq<TargetedMessage<Content, N>>,
    /// The value that the node has to output, if any.
    pub output: Option<Seq<u8>>,
}

/// What a node knows after a step, and what the step returned.
#[verifier::reject_recursive_types(N)]
pub struct Step<N> {
    pub state: State<N>,
    pub result: Result<(), Error>,
}

/// The greatest number of faulty nodes that `total` nodes can tolerate: less than a third.
pub open spec fn max_faulty(total: nat) -> nat {
    ((total - 1) / 3) as nat
}

/// The number of shards that hold data, out of `total`: one more than there can be faulty nodes, so
/// that as many leaves suffice to restore the others.
pub open spec fn data_shard_count(total: nat) -> nat {
    max_faulty(total) + 1
}

/// The number of parity shards, out of `total`.
pub open spec fn parity_shard_count(total: nat) -> nat {
    (total - data_shard_count(total)) as nat
}

/// The proof that the tree with these leaves yields for one of them.
pub open spec fn proof_of(leaves: Seq<Seq<u8>>, leaf: Seq<u8>) -> ProofContents {
    ProofContents {
        algorithm: HashAlgorithm::Sha256,
        root_hash: root_of(leaves),
        lemma: branch_to(leaves, first_place(leaves, leaf_hash(leaf))),
        value: leaf,
    }
}

/// The proofs for all the leaves, in order.
pub open spec fn proofs_of(leaves: Seq<Seq<u8>>) -> Seq<ProofContents> {
    leaves.map_values(|leaf: Seq<u8>| proof_of(leaves, leaf))
}

/// One `Value` message for each node but `our_id`, with the proof in the node's place.
pub open spec fn value_messages<N>(
    nodes: Seq<N>,
    our_id: N,
    proofs: Seq<ProofContents>,
) -> Seq<TargetedMessage<Content, N>> {
    nodes.map(
        |i: int, id: N|
            TargetedMessage { target: Target::Node(id), message: Content::Value(proofs[i]) },
    ).filter(|m: TargetedMessage<Content, N>| m.target != Target::Node(our_id))
}

/// The nodes that sent an `Echo` with this root hash.
pub open spec fn echoers_among<N>(echos: Map<N, ProofContents>, hash: Seq<u8>) -> Set<N> {
    echos.dom().filter(|id: N| echos[id].root_hash == hash)
}

/// The nodes that sent a `Ready` with this root hash.
pub open spec fn ready_among<N>(readys: Map<N, Seq<u8>>, hash: Seq<u8>) -> Set<N> {
    readys.dom().filter(|id: N| readys[id] == hash)
}

/// The leaves that the nodes have echoed for this root hash, each in the place of its node.
pub open spec fn leaves_among<N>(
    nodes: Seq<N>,
    echos: Map<N, ProofContents>,
    hash: Seq<u8>,
) -> Seq<Option<Seq<u8>>> {
    nodes.map_values(
        |id: N|
            if echoers_among(echos, hash).contains(id) {
                Some(echos[id].value)
            } else {
                None
            },
    )
}

impl<N> State<N> {
    /// What a node knows before anything has happened.
    pub open spec fn initial(our_id: N, proposer_id: N, nodes: Seq<N>) -> State<N> {
        State {
            our_id,
            proposer_id,
            nodes,
            echo_sent: false,
            ready_sent: false,
            decided: false,
            echos: Map::empty(),
            readys: Map::empty(),
            messages: Seq::empty(),
            output: None,
        }
    }

    /// The number of nodes.
    pub open spec fn total(self) -> nat {
        self.nodes.len()
    }

    /// The number of faulty nodes that the protocol tolerates.
    pub open spec fn faulty(self) -> nat {
        max_faulty(self.total())
    }

    /// The number of shards that hold data.
    pub open spec fn data(self) -> nat {
        data_shard_count(self.total())
    }

    /// The number of parity shards.
    pub open spec fn parity(self) -> nat {
        parity_shard_count(self.total())
    }

    /// The nodes that sent an `Echo` with this root hash.
    pub open spec fn echoers(self, hash: Seq<u8>) -> Set<N> {
        echoers_among(self.echos, hash)
    }

    /// The nodes that sent a `Ready` with this root hash.
    pub open spec fn ready_senders(self, hash: Seq<u8>) -> Set<N> {
        ready_among(self.readys, hash)
    }

    /// The leaves that the nodes have echoed for this root hash, each in the place of its node.
    pub open spec fn leaf_values(self, hash: Seq<u8>) -> Seq<Option<Seq<u8>>> {
        leaves_among(self.nodes, self.echos, hash)
    }

    /// The proof is valid for its value, the value starts with the place of `id` among the nodes,
    /// and the branch leads to that place.
    pub open spec fn accepts(self, p: ProofContents, id: N) -> bool {
        &&& p.is_proven()
        &&& p.value.len() > 0
        &&& (p.value[0] as int) < self.total()
        &&& self.nodes[p.value[0] as int] == id
        &&& p.lemma.index(self.total()) == p.value[0]
    }

    /// The node has this message to send, after all the others.
    pub open spec fn enqueue(self, target: Target<N>, content: Content) -> State<N> {
        State {
            messages: self.messages.push(TargetedMessage { target, message: content }),
            ..self
        }
    }

    /// The node has everything it takes to decode the value with this root hash, and has not tried
    /// yet.
    pub open spec fn output_due(self, hash: Seq<u8>) -> bool {
        &&& !self.decided
        &&& self.ready_senders(hash).len() > 2 * self.faulty()
        &&& self.echoers(hash).len() > self.faulty()
    }

    /// What decoding the value with this root hash yields.
    pub open spec fn decoded_value(self, hash: Seq<u8>) -> Result<Seq<u8>, Error> {
        decoded_whole(self.leaf_values(hash), self.data(), self.parity(), hash)
    }

    /// The node decodes the value with this root hash, if that is due.
    pub open spec fn conclude(self, hash: Seq<u8>) -> Step<N> {
        if !self.output_due(hash) {
            Step { state: self, result: Ok(()) }
        } else {
            self.decide(self.decoded_value(hash))
        }
    }

    /// The node has tried to decode the value, with this result.
    pub open spec fn decide(self, value: Result<Seq<u8>, Error>) -> Step<N> {
        match value {
            Ok(value) => Step {
                state: State { decided: true, output: Some(value), ..self },
                result: Ok(()),
            },
            Err(e) => Step { state: State { decided: true, ..self }, result: Err(e) },
        }
    }

    /// If the node decides on its way to `after`, on the root hash of coherent leaves, and as many
    /// of these have been echoed as there are data shards, and no others, then the node outputs the
    /// value that they hold.
    pub open spec fn brings_back(self, after: State<N>, hash: Seq<u8>) -> bool {
        forall|whole: Seq<Seq<u8>>|
            !self.decided && after.decided && hash == root_of(whole) && #[trigger] recoverable(
                after.leaf_values(hash),
                self.data(),
                self.parity(),
                whole,
            ) ==> after.output == Some(payload(joined(whole, self.data()), self.data()))
    }

    /// As many leaves have been echoed for this root hash as there are data shards, all of them
    /// from one coherent whole, which holds a value.
    pub open spec fn holds_value(self, hash: Seq<u8>) -> bool {
        exists|whole: Seq<Seq<u8>>| #[trigger]
            recoverable(self.leaf_values(hash), self.data(), self.parity(), whole)
                && holds_payload(joined(whole, self.data()))
    }

    /// The node multicasts `Ready`.
    pub open spec fn send_ready(self, hash: Seq<u8>) -> State<N> {
        State { ready_sent: true, ..self }.enqueue(Target::All, Content::Ready(hash))
    }

    /// The node has received this `Ready`.
    pub open spec fn record_ready(self, sender: N, hash: Seq<u8>) -> State<N> {
        State { readys: self.readys.insert(sender, hash), ..self }
    }

    /// The node has received this `Echo`.
    pub open spec fn record_echo(self, sender: N, p: ProofContents) -> State<N> {
        State { echos: self.echos.insert(sender, p), ..self }
    }

    /// The node multicasts `Ready`, counts it as one that it has received, and decodes the value if
    /// that is due.
    pub open spec fn become_ready(self, hash: Seq<u8>) -> Step<N> {
        let sent = self.send_ready(hash);
        if self.readys.contains_key(self.our_id) {
            sent.conclude(hash)
        } else {
            sent.record_ready(self.our_id, hash).conclude(hash)
        }
    }

    /// The node handles a `Ready` message. It ignores all but the first from each sender. The one
    /// that makes the senders with this root hash one more than the faulty nodes can be makes the
    /// node multicast `Ready`, and count its own, if it has not done so.
    pub open spec fn on_ready(self, sender: N, hash: Seq<u8>) -> Step<N> {
        if self.readys.contains_key(sender) {
            Step { state: self, result: Ok(()) }
        } else {
            let recorded = self.record_ready(sender, hash);
            if recorded.ready_senders(hash).len() == self.faulty() + 1 && !self.ready_sent {
                recorded.become_ready(hash)
            } else {
                recorded.conclude(hash)
            }
        }
    }

    /// The node handles an `Echo` message. It ignores all but the first that it can accept from
    /// each sender. As many with one root hash as there are nodes that cannot be faulty make the
    /// node multicast `Ready`, and count its own, if it has not done so.
    pub open spec fn on_echo(self, sender: N, p: ProofContents) -> Step<N> {
        if self.echos.contains_key(sender) || !self.accepts(p, sender) {
            Step { state: self, result: Ok(()) }
        } else {
            let recorded = self.record_echo(sender, p);
            if self.ready_sent || recorded.echoers(p.root_hash).len() < self.total()
                - self.faulty() {
                recorded.conclude(p.root_hash)
            } else {
                recorded.become_ready(p.root_hash)
            }
        }
    }

    /// The node handles a `Value` message. It ignores all but the first from the proposer that it
    /// can accept, and multicasts that one as `Echo`.
    pub open spec fn on_value(self, sender: N, p: ProofContents) -> Step<N> {
        if sender != self.proposer_id || self.echo_sent || !self.accepts(p, self.our_id) {
            Step { state: self, result: Ok(()) }
        } else {
            let step = State { echo_sent: true, ..self }.on_echo(self.our_id, p);
            Step {
                state: step.state.enqueue(Target::All, Content::Echo(p)),
                result: step.result,
            }
        }
    }

    /// The node handles a message.
    pub open spec fn on_message(self, sender: N, content: Content) -> Step<N> {
        if !self.nodes.contains(sender) {
            Step { state: self, result: Err(Error::UnknownSender) }
        } else {
            match content {
                Content::Value(p) => self.on_value(sender, p),
                Content::Echo(p) => self.on_echo(sender, p),
                Content::Ready(hash) => self.on_ready(sender, hash),
            }
        }
    }

    /// The node sends the proofs to the nodes in their places, except for its own.
    pub open spec fn distribute(self, proofs: Seq<ProofContents>) -> State<N> {
        State {
            messages: self.messages + value_messages(self.nodes, self.our_id, proofs),
            ..self
        }
    }

    /// The node proposes a value: it sends each node its leaf, and takes its own as if it had come
    /// in a `Value` message. Only the proposer can do that, and only if it is one of the nodes.
    pub open spec fn on_input(self, value: Seq<u8>) -> Step<N> {
        let proofs = proofs_of(leaves_of(value, self.data(), self.parity()));
        if self.our_id != self.proposer_id {
            Step { state: self, result: Err(Error::InstanceCannotPropose) }
        } else if !self.nodes.contains(self.our_id) {
            Step {
                state: self.distribute(proofs),
                result: Err(Error::ProofConstructionFailed),
            }
        } else {
            self.distribute(proofs).on_value(
                self.our_id,
                proofs[self.nodes.index_of(self.our_id)],
            )
        }
    }

    /// The proofs of the value's leaves have one root hash, and each node accepts the one in its
    /// place, unless two of the leaves have the same hash.
    pub open spec fn shares_sound(self, value: Seq<u8>) -> bool {
        let leaves = leaves_of(value, self.data(), self.parity());
        forall|i: int|
            0 <= i < self.total() ==> {
                &&& (#[trigger] proofs_of(leaves)[i]).is_proven()
                &&& proofs_of(leaves)[i].root_hash == root_of(leaves)
                &&& proofs_of(leaves)[i].value == leaves[i]
                &&& proofs_of(leaves)[i].value.len() > 0
                &&& proofs_of(leaves)[i].value[0] == i
                &&& !has_twins(leaves) ==> self.accepts(proofs_of(leaves)[i], self.nodes[i])
            }
    }

    /// Decoding the value with this root hash, if it is due, finds a payload if it gets so far as
    /// to look for one.
    pub open spec fn admits_conclusion(self, hash: Seq<u8>) -> bool {
        self.output_due(hash) ==> decodable(
            self.leaf_values(hash),
            self.data(),
            self.parity(),
            hash,
        )
    }

    /// Becoming ready meets no value that lacks a payload.
    pub open spec fn admits_becoming_ready(self, hash: Seq<u8>) -> bool {
        if self.readys.contains_key(self.our_id) {
            self.admits_conclusion(hash)
        } else {
            self.record_ready(self.our_id, hash).admits_conclusion(hash)
        }
    }

    /// Handling this `Ready` meets no value that lacks a payload.
    pub open spec fn admits_ready(self, sender: N, hash: Seq<u8>) -> bool {
        let recorded = self.record_ready(sender, hash);
        !self.readys.contains_key(sender) ==> if recorded.ready_senders(hash).len()
            == self.faulty() + 1 && !self.ready_sent {
            recorded.admits_becoming_ready(hash)
        } else {
            recorded.admits_conclusion(hash)
        }
    }

    /// Handling this `Echo` meets no value that lacks a payload.
    pub open spec fn admits_echo(self, sender: N, p: ProofContents) -> bool {
        let recorded = self.record_echo(sender, p);
        !self.echos.contains_key(sender) && self.accepts(p, sender) ==> if self.ready_sent
            || recorded.echoers(p.root_hash).len() < self.total() - self.faulty() {
            recorded.admits_conclusion(p.root_hash)
        } else {
            recorded.admits_becoming_ready(p.root_hash)
        }
    }

    /// Handling this `Value` meets no value that lacks a payload.
    pub open spec fn admits_value(self, sender: N, p: ProofContents) -> bool {
        sender == self.proposer_id && !self.echo_sent && self.accepts(p, self.our_id)
            ==> self.admits_echo(self.our_id, p)
    }

    /// Handling this message meets no value that lacks a payload.
    pub open spec fn admits_message(self, sender: N, content: Content) -> bool {
        self.nodes.contains(sender) ==> match content {
            Content::Value(p) => self.admits_value(sender, p),
            Content::Echo(p) => self.admits_echo(sender, p),
            Content::Ready(hash) => self.admits_ready(sender, hash),
        }
    }

    /// Proposing this value meets no value that lacks a payload.
    pub open spec fn admits_input(self, value: Seq<u8>) -> bool {
        let proofs = proofs_of(leaves_of(value, self.data(), self.parity()));
        self.our_id == self.proposer_id && self.nodes.contains(self.our_id) ==> self.distribute(
            proofs,
        ).admits_value(self.our_id, proofs[self.nodes.index_of(self.our_id)])
    }
}

/// A value is brought back by a longer way too, if what comes before and after the step leaves
/// alone what the promise speaks of.
pub(crate) proof fn lemma_brings_back<N>(
    before: State<N>,
    start: State<N>,
    end: State<N>,
    after: State<N>,
    hash: Seq<u8>,
)
    requires
        start.brings_back(end, hash),
        before.nodes == start.nodes,
        before.decided == start.decided,
        after.nodes == end.nodes,
        after.echos == end.echos,
        after.decided == end.decided,
        after.output == end.output,
    ensures
        before.brings_back(after, hash),
{
    assert forall|whole: Seq<Seq<u8>>|
        !before.decided && after.decided && hash == root_of(whole) && #[trigger] recoverable(
            after.leaf_values(hash),
            before.data(),
            before.parity(),
            whole,
        ) implies after.output == Some(payload(joined(whole, before.data()), before.data())) by {
        assert(recoverable(end.leaf_values(hash), start.data(), start.parity(), whole));
    }
}

/// The proofs that a value is proposed with are sound.
pub proof fn law_shares_sound<N>(s: State<N>, value: Seq<u8>)
    requires
        0 < s.total() <= 256,
    ensures
        s.shares_sound(value),
{
    let leaves = leaves_of(value, s.data(), s.parity());
    lemma_leaves(value, s.data(), s.parity());
    assert forall|i: int| 0 <= i < s.total() implies {
        &&& (#[trigger] proofs_of(leaves)[i]).is_proven()
        &&& proofs_of(leaves)[i].root_hash == root_of(leaves)
        &&& proofs_of(leaves)[i].value == leaves[i]
        &&& proofs_of(leaves)[i].value.len() > 0
        &&& proofs_of(leaves)[i].value[0] == i
        &&& !has_twins(leaves) ==> s.accepts(proofs_of(leaves)[i], s.nodes[i])
    } by {
        let first = first_place(leaves, leaf_hash(leaves[i]));
        lemma_first_place(leaves, i);
        lemma_branch(leaves, first);
    }
}

/// The `Echo`s that have been received decide whether a value is held.
pub(crate) proof fn lemma_same_value<N>(a: State<N>, b: State<N>, hash: Seq<u8>)
    requires
        a.nodes == b.nodes,
        a.echos == b.echos,
    ensures
        a.holds_value(hash) == b.holds_value(hash),
{
    if a.holds_value(hash) {
        let whole = choose|whole: Seq<Seq<u8>>| #[trigger]
            recoverable(a.leaf_values(hash), a.data(), a.parity(), whole) && holds_payload(
                joined(whole, a.data()),
            );
        assert(recoverable(b.leaf_values(hash), b.data(), b.parity(), whole));
    }
    if b.holds_value(hash) {
        let whole = choose|whole: Seq<Seq<u8>>| #[trigger]
            recoverable(b.leaf_values(hash), b.data(), b.parity(), whole) && holds_payload(
                joined(whole, b.data()),
            );
        assert(recoverable(a.leaf_values(hash), a.data(), a.parity(), whole));
    }
}

/// What handling a `Value` leaves echoed, and who the nodes are, depends on neither the messages to
/// be sent nor on whether `Echo` has been sent.
pub(crate) proof fn lemma_value_echoed<N>(a: State<N>, b: State<N>, sender: N, p: ProofContents)
    requires
        a == (State { messages: a.messages, ..b }),
        sender == a.proposer_id,
        !a.echo_sent,
        a.accepts(p, a.our_id),
    ensures
        a.on_value(sender, p).state.echos == b.on_echo(b.our_id, p).state.echos,
        a.on_value(sender, p).state.nodes == b.nodes,
        b.on_echo(b.our_id, p).state.nodes == b.nodes,
{
}

/// The messages to be sent do not matter for what can be handled.
pub(crate) proof fn lemma_admits_value<N>(a: State<N>, b: State<N>, sender: N, p: ProofContents)
    requires
        a == (State { messages: a.messages, ..b }),
    ensures
        a.admits_value(sender, p) == b.admits_value(sender, p),
{
}

} // verus!
