//! A network of nodes, some of them faulty: what the good nodes can rely on.
//!
//! Every node runs the protocol, except for the faulty ones, which do what they like. Messages may
//! be delayed, reordered, lost and repeated, but a message that claims to come from a good node has
//! been sent by it.
use vstd::prelude::*;
use vstd::seq_lib::seq_to_set_is_finite;
use vstd::set_lib::{lemma_len_subset, lemma_set_disjoint_lens, lemma_set_intersect_union_lens};

use crate::coding::pieces_of;
use crate::meaning::{hashes_clash, law_roots_clash, law_twins_clash, lemma_betrayal};
use crate::messaging::{Target, TargetedMessage};
use crate::node::{
    fresh, is_echo, is_ready, law_nothing_taken_back, lemma_distribute_valid, lemma_echoers_grow,
    lemma_fresh, lemma_initial_valid, lemma_kept_after, lemma_not_admitted, lemma_recorded,
    lemma_value_messages, Call, Node,
};
use crate::protocol::{
    data_shard_count, law_shares_sound, max_faulty, parity_shard_count, proofs_of, value_messages,
    Content, State,
};
use crate::shards::{
    coherent, completed, holds_payload, joined, law_round_trip, leaves_of, lemma_leaves,
    lemma_leaves_coherent, payload, recoverable,
};
use crate::tree::{has_twins, law_bound, root_of, ProofContents};

verus! {

/// Two sets of nodes that are too large to fit in the network side by side have a node in common.
pub proof fn law_overlap<N>(nodes: Seq<N>, a: Set<N>, b: Set<N>) -> (common: N)
    requires
        a.subset_of(nodes.to_set()),
        b.subset_of(nodes.to_set()),
        a.len() + b.len() > nodes.len(),
    ensures
        a.contains(common),
        b.contains(common),
{
    let all = nodes.to_set();
    nodes.lemma_cardinality_of_set();
    seq_to_set_is_finite(nodes);
    lemma_len_subset(a, all);
    lemma_len_subset(b, all);
    if a.disjoint(b) {
        lemma_set_disjoint_lens(a, b);
        lemma_len_subset(a + b, all);
    }
    choose|id: N| a.contains(id) && b.contains(id)
}

/// Two sets of as many nodes as cannot be faulty have a good node in common.
pub proof fn law_quorums_overlap<N>(nodes: Seq<N>, good: Set<N>, a: Set<N>, b: Set<N>) -> (common:
    N)
    requires
        nodes.len() > 0,
        good.subset_of(nodes.to_set()),
        a.subset_of(nodes.to_set()),
        b.subset_of(nodes.to_set()),
        good.len() >= nodes.len() - max_faulty(nodes.len()),
        a.len() >= nodes.len() - max_faulty(nodes.len()),
        b.len() >= nodes.len() - max_faulty(nodes.len()),
    ensures
        good.contains(common),
        a.contains(common),
        b.contains(common),
{
    let all = nodes.to_set();
    nodes.lemma_cardinality_of_set();
    seq_to_set_is_finite(nodes);
    lemma_len_subset(a, all);
    lemma_len_subset(b, all);
    lemma_set_intersect_union_lens(a, b);
    lemma_len_subset(a + b, all);
    law_overlap(nodes, a.intersect(b), good)
}

/// A call that is made to one of the good nodes.
pub struct Event<N> {
    pub node: N,
    pub call: Call<N>,
}

/// A network, as far as its good nodes are concerned.
#[verifier::reject_recursive_types(N)]
pub struct Network<N> {
    /// The IDs of all nodes, good and faulty.
    pub nodes: Seq<N>,
    /// The ID of the node that proposes the value.
    pub proposer_id: N,
    /// The good nodes.
    pub good: Map<N, Node<N>>,
    /// Who has received what from whom: a good node, the sender, and the message.
    pub received: Set<(N, N, Content)>,
}

/// The message reaches this node.
pub open spec fn reaches<N>(target: Target<N>, id: N) -> bool {
    match target {
        Target::All => true,
        Target::Node(node) => node == id,
    }
}

/// There are nodes, no more than a byte can tell apart and no two with the same ID, and less than a
/// third of them are faulty.
pub open spec fn tolerable<N>(nodes: Seq<N>, good: Set<N>) -> bool {
    &&& 0 < nodes.len() <= 256
    &&& nodes.no_duplicates()
    &&& good.subset_of(nodes.to_set())
    &&& 3 * (nodes.len() - good.len()) < nodes.len()
}

impl<N> Network<N> {
    /// The network before anything has happened.
    pub open spec fn start(nodes: Seq<N>, proposer_id: N, good: Set<N>) -> Network<N> {
        Network {
            nodes,
            proposer_id,
            good: Map::new(
                |id: N| good.contains(id),
                |id: N| Node::initial(id, proposer_id, nodes),
            ),
            received: Set::empty(),
        }
    }

    /// The event can happen: it is a call to a good node, and if that receives a message from
    /// another good node, then the other one has sent it there.
    pub open spec fn allows(self, event: Event<N>) -> bool {
        &&& self.good.contains_key(event.node)
        &&& event.call matches Call::Message(sender, content) ==> {
            &&& self.nodes.contains(sender)
            &&& self.good.contains_key(sender) ==> exists|i: int|
                0 <= i < self.good[sender].sent.len() && reaches(
                    (#[trigger] self.good[sender].sent[i]).target,
                    event.node,
                ) && self.good[sender].sent[i].message == content
        }
    }

    /// The node can handle the call.
    pub open spec fn admits(self, event: Event<N>) -> bool {
        let state = self.good[event.node].state;
        match event.call {
            Call::Input(value) => state.admits_input(value),
            Call::Message(sender, content) => state.admits_message(sender, content),
            Call::NextMessage => true,
            Call::NextOutput => true,
        }
    }

    /// The leaves that the node can rebuild after the event from those echoed for this root hash.
    pub open spec fn rebuilt_after(self, event: Event<N>, hash: Seq<u8>) -> Seq<Seq<u8>> {
        let state = self.good[event.node].after(event.call).state;
        completed(state.leaf_values(hash), state.data(), state.parity())
    }

    /// The network after the event.
    pub open spec fn after(self, event: Event<N>) -> Network<N> {
        Network {
            good: self.good.insert(event.node, self.good[event.node].after(event.call)),
            received: match event.call {
                Call::Message(sender, content) => self.received.insert(
                    (event.node, sender, content),
                ),
                _ => self.received,
            },
            ..self
        }
    }

    /// The network after all these events.
    pub open spec fn after_all(self, events: Seq<Event<N>>) -> Network<N>
        decreases events.len(),
    {
        if events.len() == 0 {
            self
        } else {
            self.after_all(events.drop_last()).after(events.last())
        }
    }

    /// All these events can happen, one after the other.
    pub open spec fn allows_all(self, events: Seq<Event<N>>) -> bool
        decreases events.len(),
    {
        events.len() > 0 ==> self.allows_all(events.drop_last()) && self.after_all(
            events.drop_last(),
        ).allows(events.last())
    }

    /// All these events, one after the other, are faithful calls.
    pub open spec fn is_faithful_all(self, events: Seq<Event<N>>) -> bool
        decreases events.len(),
    {
        events.len() > 0 ==> self.is_faithful_all(events.drop_last()) && self.after_all(
            events.drop_last(),
        ).good[events.last().node].is_faithful(events.last().call)
    }

    /// Every message of a good node to another good node has been sent and received.
    pub open spec fn is_quiet(self) -> bool {
        &&& forall|id: N| #[trigger]
            self.good.contains_key(id) ==> self.good[id].state.messages.len() == 0
        &&& forall|id: N, sender: N, i: int|
            id != sender && self.good.contains_key(id) && self.good.contains_key(sender) && 0 <= i
                < self.good[sender].sent.len() && #[trigger] reaches(
                (#[trigger] self.good[sender].sent[i]).target,
                id,
            ) ==> self.received.contains((id, sender, self.good[sender].sent[i].message))
    }

    /// The number of faulty nodes that the network tolerates.
    pub open spec fn faulty(self) -> nat {
        max_faulty(self.nodes.len())
    }

    /// The leaves of a value in this network.
    pub open spec fn leaves_of(self, value: Seq<u8>) -> Seq<Seq<u8>> {
        leaves_of(value, data_shard_count(self.nodes.len()), parity_shard_count(self.nodes.len()))
    }

    /// The good nodes are valid, and know who they are and who the others are.
    pub open spec fn members_valid(self) -> bool {
        forall|id: N| #[trigger]
            self.good.contains_key(id) ==> {
                let node = self.good[id];
                &&& node.is_valid()
                &&& node.state.our_id == id
                &&& node.state.proposer_id == self.proposer_id
                &&& node.state.nodes == self.nodes
                &&& node.state.readys.dom().subset_of(self.nodes.to_set())
            }
    }

    /// An `Echo` that a good node counts for a good node is the one that that node counts for
    /// itself.
    pub open spec fn echos_true(self) -> bool {
        forall|id: N, other: N|
            self.good.contains_key(id) && #[trigger] self.good.contains_key(other) && (
            #[trigger] self.good[id]).state.echos.contains_key(other) ==> {
                let node = self.good[other];
                &&& node.state.echo_sent
                &&& node.state.echos.contains_key(other)
                &&& node.state.echos[other] == self.good[id].state.echos[other]
            }
    }

    /// A `Ready` that a good node counts for a good node has been issued by that node.
    pub open spec fn readys_true(self) -> bool {
        forall|id: N, other: N|
            self.good.contains_key(id) && #[trigger] self.good.contains_key(other) && (
            #[trigger] self.good[id]).state.readys.contains_key(other)
                ==> self.good[other].issued().contains(
                ready(self.good[id].state.readys[other]),
            )
    }

    /// Some good node has seen as many `Echo`s with this root hash as there are nodes that cannot
    /// be faulty.
    pub open spec fn is_backed(self, hash: Seq<u8>) -> bool {
        exists|id: N| #[trigger]
            self.good.contains_key(id) && self.good[id].state.echoers(hash).len()
                >= self.nodes.len() - self.faulty()
    }

    /// The proof is that of a leaf of a value that the proposer was given to propose.
    pub open spec fn is_share(self, p: ProofContents) -> bool {
        exists|value: Seq<u8>, i: int|
            {
                &&& #[trigger] self.good[self.proposer_id].inputs.contains(value)
                &&& 0 <= i < self.nodes.len()
                &&& p == #[trigger] proofs_of(self.leaves_of(value))[i]
            }
    }

    /// What the good nodes have issued: `Echo`s of what they have taken down for themselves,
    /// `Ready`s for root hashes that enough `Echo`s stand behind, and `Value`s of what was
    /// proposed.
    pub open spec fn issued_true(self) -> bool {
        forall|id: N, i: int|
            self.good.contains_key(id) && 0 <= i < self.good[id].issued().len() ==> {
                let m = #[trigger] self.good[id].issued()[i];
                match m.message {
                    Content::Echo(p) => m.target == Target::<N>::All && p
                        == self.good[id].state.echos[id],
                    Content::Ready(hash) => m.target == Target::<N>::All && self.is_backed(hash),
                    Content::Value(p) => m.target is Node && id == self.proposer_id
                        && self.is_share(p),
                }
            }
    }

    /// If the proposer is good, the good nodes have taken down for themselves what was proposed.
    pub open spec fn shares_true(self) -> bool {
        self.good.contains_key(self.proposer_id) ==> forall|id: N| #[trigger]
            self.good.contains_key(id) && self.good[id].state.echos.contains_key(id)
                ==> self.is_share(self.good[id].state.echos[id])
    }

    /// What good nodes have received has been taken down, if it was acceptable.
    pub open spec fn received_taken(self) -> bool {
        forall|id: N, sender: N, content: Content| #[trigger]
            self.received.contains((id, sender, content)) ==> self.takes(id, sender, content)
    }

    /// The node has taken down the message, if it was acceptable.
    pub open spec fn takes(self, id: N, sender: N, content: Content) -> bool {
        let state = self.good[id].state;
        &&& self.good.contains_key(id)
        &&& match content {
            Content::Echo(p) => state.accepts(p, sender) ==> state.echos.contains_key(sender),
            Content::Ready(_) => state.readys.contains_key(sender),
            Content::Value(p) => sender == self.proposer_id && state.accepts(p, id)
                ==> state.echo_sent,
        }
    }

    /// What was proposed has been issued to the other nodes.
    pub open spec fn proposals_issued(self) -> bool {
        self.good.contains_key(self.proposer_id) ==> forall|value: Seq<u8>, i: int|
            #[trigger] self.good[self.proposer_id].inputs.contains(value) && 0 <= i
                < self.nodes.len() && self.nodes[i] != self.proposer_id
                ==> self.good[self.proposer_id].issued().contains(
                TargetedMessage {
                    target: Target::Node(#[trigger] self.nodes[i]),
                    message: Content::Value(proofs_of(self.leaves_of(value))[i]),
                },
            )
    }

    /// The proposer has taken down its own share of what was proposed, if it was acceptable.
    pub open spec fn own_shares_taken(self) -> bool {
        let proposer = self.good[self.proposer_id];
        self.good.contains_key(self.proposer_id) ==> forall|value: Seq<u8>|
            self.good[self.proposer_id].inputs.contains(value) && proposer.state.accepts(
                #[trigger] proofs_of(self.leaves_of(value))[self.nodes.index_of(self.proposer_id)],
                self.proposer_id,
            ) ==> proposer.state.echo_sent
    }

    /// What holds of a network at all times, but for what a proposer does with its own share.
    pub open spec fn is_consistent(self) -> bool {
        &&& tolerable(self.nodes, self.good.dom())
        &&& self.members_valid()
        &&& self.echos_true()
        &&& self.readys_true()
        &&& self.issued_true()
        &&& self.shares_true()
        &&& self.received_taken()
        &&& self.proposals_issued()
    }

    /// The good nodes have kept their promises.
    pub open spec fn has_kept(self) -> bool {
        forall|id: N| #[trigger] self.good.contains_key(id) ==> self.good[id].has_kept()
    }

    /// A proof that the node has taken down shows two different inputs that have the same hash: it
    /// is about the tree with these leaves, and has another leaf in its place.
    pub open spec fn is_betrayed(self, id: N, leaves: Seq<Seq<u8>>) -> bool {
        exists|other: N|
            {
                let p = self.good[id].state.echos[other];
                &&& #[trigger] self.good[id].state.echos.contains_key(other)
                &&& p.root_hash == root_of(leaves)
                &&& p.lemma.betrays(leaves, p.value)
            }
    }

    /// The network with another state of affairs at one good node.
    pub open spec fn with(self, id: N, node: Node<N>) -> Network<N> {
        Network { good: self.good.insert(id, node), ..self }
    }

    /// A message that comes from a good node says what that node knows.
    pub open spec fn is_authentic(self, sender: N, content: Content) -> bool {
        &&& self.nodes.contains(sender)
        &&& self.good.contains_key(sender) ==> match content {
            Content::Echo(p) => {
                &&& self.good[sender].state.echo_sent
                &&& self.good[sender].state.echos.contains_key(sender)
                &&& p == self.good[sender].state.echos[sender]
            },
            Content::Ready(hash) => self.good[sender].issued().contains(
                TargetedMessage { target: Target::All, message: Content::Ready(hash) },
            ),
            Content::Value(p) => sender == self.proposer_id ==> self.is_share(p),
        }
    }
}

/// What was backed or proposed stays so, as long as nothing is taken back.
proof fn lemma_backed_grows<N>(net: Network<N>, id: N, node: Node<N>)
    requires
        net.good.contains_key(id),
        net.members_valid(),
        node.is_valid(),
        net.good[id].state.echos.submap_of(node.state.echos),
        net.good[id].inputs.subset_of(node.inputs),
    ensures
        forall|hash: Seq<u8>| net.is_backed(hash) ==> #[trigger] net.with(id, node).is_backed(hash),
        forall|p: ProofContents| net.is_share(p) ==> #[trigger] net.with(id, node).is_share(p),
{
    let after = net.with(id, node);
    assert forall|hash: Seq<u8>| net.is_backed(hash) implies #[trigger] after.is_backed(hash) by {
        let k = choose|k: N| #[trigger]
            net.good.contains_key(k) && net.good[k].state.echoers(hash).len() >= net.nodes.len()
                - net.faulty();
        assert(after.good.contains_key(k));
        if k == id {
            let s = net.good[id].state;
            let t = node.state;
            lemma_echoers_grow(s.echos, t.echos, hash);
        }
    }
    assert forall|p: ProofContents| net.is_share(p) implies #[trigger] after.is_share(p) by {
        let (value, i) = choose|value: Seq<u8>, i: int|
            {
                &&& #[trigger] net.good[net.proposer_id].inputs.contains(value)
                &&& 0 <= i < net.nodes.len()
                &&& p == #[trigger] proofs_of(net.leaves_of(value))[i]
            };
        assert(after.good[after.proposer_id].inputs.contains(value));
        assert(proofs_of(after.leaves_of(value))[i] == p);
    }
}

/// A message that has been issued is still there among more messages.
proof fn lemma_prefix_contains<N>(
    some: Seq<TargetedMessage<Content, N>>,
    more: Seq<TargetedMessage<Content, N>>,
    m: TargetedMessage<Content, N>,
)
    requires
        some.is_prefix_of(more),
        some.contains(m),
    ensures
        more.contains(m),
{
    let i = choose|i: int| 0 <= i < some.len() && some[i] == m;
    assert(more[i] == m);
}

/// A message that is delivered to a good node leaves the good nodes valid.
proof fn lemma_deliver_members_valid<N>(net: Network<N>, id: N, sender: N, content: Content)
    requires
        net.is_consistent(),
        net.good.contains_key(id),
        net.is_authentic(sender, content),
    ensures
        net.with(id, net.good[id].after(Call::Message(sender, content))).members_valid(),
{
    let call = Call::Message(sender, content);
    let node = net.good[id];
    let end = node.after(call);
    let after = net.with(id, end);
    let s = node.state;
    let t = end.state;
    law_nothing_taken_back(node, call);
    lemma_recorded(s, sender, content);
    lemma_fresh(s, sender, content);
    assert(net.nodes.to_set().contains(id));
    assert forall|other: N| t.readys.dom().contains(other) implies net.nodes.to_set().contains(
        other,
    ) by {
        if s.readys.dom().contains(other) {
        } else {
            assert(t.readys.contains_key(other));
        }
    }
}

/// A message that is delivered to a good node leaves the `Echo`s true.
proof fn lemma_deliver_echos_true<N>(net: Network<N>, id: N, sender: N, content: Content)
    requires
        net.is_consistent(),
        net.good.contains_key(id),
        net.is_authentic(sender, content),
    ensures
        net.with(id, net.good[id].after(Call::Message(sender, content))).echos_true(),
{
    let call = Call::Message(sender, content);
    let node = net.good[id];
    let end = node.after(call);
    let after = net.with(id, end);
    let s = node.state;
    let t = end.state;
    law_nothing_taken_back(node, call);
    lemma_recorded(s, sender, content);
    lemma_fresh(s, sender, content);
    assert forall|m: N, other: N|
        after.good.contains_key(m) && #[trigger] after.good.contains_key(other) && (
        #[trigger] after.good[m]).state.echos.contains_key(other) implies {
        let o = after.good[other];
        &&& o.state.echo_sent
        &&& o.state.echos.contains_key(other)
        &&& o.state.echos[other] == after.good[m].state.echos[other]
    } by {
        assert(net.good.contains_key(m) && net.good.contains_key(other));
        let had = net.good[m].state.echos.contains_key(other);
        if net.good[other].state.echos.contains_key(other) {
            assert(after.good[other].state.echos.dom().contains(other));
        }
        if m == id && !had {
            assert(t.echos.contains_key(other));
            assert(s.echos.contains_key(other) == had);
        } else {
            assert(net.good[m].state.echos.dom().contains(other));
            assert(after.good[m].state.echos.dom().contains(other));
        }
    }
}

/// A message that is delivered to a good node leaves the `Ready`s true.
proof fn lemma_deliver_readys_true<N>(net: Network<N>, id: N, sender: N, content: Content)
    requires
        net.is_consistent(),
        net.good.contains_key(id),
        net.is_authentic(sender, content),
    ensures
        net.with(id, net.good[id].after(Call::Message(sender, content))).readys_true(),
{
    let call = Call::Message(sender, content);
    let node = net.good[id];
    let end = node.after(call);
    let after = net.with(id, end);
    let s = node.state;
    let t = end.state;
    law_nothing_taken_back(node, call);
    lemma_recorded(s, sender, content);
    lemma_fresh(s, sender, content);
    assert forall|m: N, other: N|
        after.good.contains_key(m) && #[trigger] after.good.contains_key(other) && (
        #[trigger] after.good[m]).state.readys.contains_key(
            other,
        ) implies after.good[other].issued().contains(
        ready(after.good[m].state.readys[other]),
    ) by {
        assert(net.good.contains_key(m) && net.good.contains_key(other));
        let r = TargetedMessage {
            target: Target::<N>::All,
            message: Content::Ready(after.good[m].state.readys[other]),
        };
        let had = net.good[m].state.readys.contains_key(other);
        if m == id && !had {
            assert(t.readys.contains_key(other));
            if other == id && fresh(s, t).contains(r) {
                let i = choose|i: int| 0 <= i < fresh(s, t).len() && fresh(s, t)[i] == r;
                assert(end.issued()[node.issued().len() + i] == r);
            } else {
                lemma_prefix_contains(net.good[other].issued(), after.good[other].issued(), r);
            }
        } else {
            assert(after.good[m].state.readys.dom().contains(other));
            lemma_prefix_contains(net.good[other].issued(), after.good[other].issued(), r);
        }
    }
}

/// The good nodes are finitely many.
proof fn lemma_finite<N>(nodes: Seq<N>, good: Set<N>)
    requires
        good.subset_of(nodes.to_set()),
    ensures
        good.finite(),
{
    seq_to_set_is_finite(nodes);
    lemma_len_subset(good, nodes.to_set());
}

/// The nodes that a good node counts as senders of this root hash are nodes of the network.
proof fn lemma_senders_are_nodes<N>(net: Network<N>, id: N, hash: Seq<u8>)
    requires
        net.members_valid(),
        net.good.contains_key(id),
    ensures
        net.good[id].state.echoers(hash).subset_of(net.nodes.to_set()),
        net.good[id].state.ready_senders(hash).subset_of(net.nodes.to_set()),
{
    let s = net.good[id].state;
    assert forall|other: N| s.echoers(hash).contains(other) implies net.nodes.to_set().contains(
        other,
    ) by {
        assert(s.echos.contains_key(other));
        assert(s.accepts(s.echos[other], other));
    }
    assert forall|other: N| s.ready_senders(hash).contains(
        other,
    ) implies net.nodes.to_set().contains(other) by {
        assert(s.readys.dom().contains(other));
    }
}

/// The `Ready` message with this root hash.
pub open spec fn ready<N>(hash: Seq<u8>) -> TargetedMessage<Content, N> {
    TargetedMessage { target: Target::All, message: Content::Ready(hash) }
}

/// No two root hashes are backed.
proof fn lemma_backed_once<N>(net: Network<N>, a: Seq<u8>, b: Seq<u8>)
    requires
        tolerable(net.nodes, net.good.dom()),
        net.members_valid(),
        net.echos_true(),
        net.is_backed(a),
        net.is_backed(b),
    ensures
        a == b,
{
    let j = choose|j: N| #[trigger]
        net.good.contains_key(j) && net.good[j].state.echoers(a).len() >= net.nodes.len()
            - net.faulty();
    let k = choose|k: N| #[trigger]
        net.good.contains_key(k) && net.good[k].state.echoers(b).len() >= net.nodes.len()
            - net.faulty();
    lemma_senders_are_nodes(net, j, a);
    lemma_senders_are_nodes(net, k, b);
    let common = law_quorums_overlap(
        net.nodes,
        net.good.dom(),
        net.good[j].state.echoers(a),
        net.good[k].state.echoers(b),
    );
    assert(net.good.contains_key(common));
    assert(net.good[j].state.echos.contains_key(common));
    assert(net.good[k].state.echos.contains_key(common));
}

/// At most as many nodes of a set are not good as can be faulty.
proof fn lemma_good_among<N>(nodes: Seq<N>, good: Set<N>, some: Set<N>)
    requires
        tolerable(nodes, good),
        some.subset_of(nodes.to_set()),
    ensures
        some.intersect(good).finite(),
        some.intersect(good).len() + max_faulty(nodes.len()) >= some.len(),
{
    let all = nodes.to_set();
    nodes.lemma_cardinality_of_set();
    seq_to_set_is_finite(nodes);
    lemma_len_subset(some, all);
    lemma_len_subset(good, all);
    lemma_set_intersect_union_lens(some, good);
    lemma_len_subset(some + good, all);
}

/// What a good node has issued in a `Ready` is backed.
proof fn lemma_issued_backed<N>(net: Network<N>, id: N, hash: Seq<u8>)
    requires
        net.is_consistent(),
        net.good.contains_key(id),
        net.good[id].issued().contains(ready(hash)),
    ensures
        net.is_backed(hash),
{
    let issued = net.good[id].issued();
    let i = choose|i: int| 0 <= i < issued.len() && issued[i] == ready::<N>(hash);
    assert(net.good[id].issued()[i].message == Content::Ready(hash));
}

/// What a good node finds in the `Ready`s of more nodes than can be faulty is backed.
proof fn lemma_convinced_backed<N>(net: Network<N>, id: N, hash: Seq<u8>)
    requires
        net.is_consistent(),
        net.good.contains_key(id),
        net.good[id].state.ready_senders(hash).len() > net.faulty(),
    ensures
        net.is_backed(hash),
{
    let s = net.good[id].state;
    lemma_senders_are_nodes(net, id, hash);
    let other = law_overlap(net.nodes, net.good.dom(), s.ready_senders(hash));
    assert(net.good.contains_key(other));
    assert(s.readys.contains_key(other));
    lemma_issued_backed(net, other, hash);
}

/// A root hash is backed by the `Echo`s of enough nodes if a good node finds it in the `Ready`s of
/// more nodes than can be faulty.
proof fn lemma_ready_backed<N>(net: Network<N>, id: N, sender: N, hash: Seq<u8>)
    requires
        net.is_consistent(),
        net.good.contains_key(id),
        net.is_authentic(sender, Content::Ready(hash)),
        net.good[id].state.record_ready(sender, hash).ready_senders(hash).len() > net.faulty(),
    ensures
        net.is_backed(hash),
{
    let s = net.good[id].state;
    let senders = s.record_ready(sender, hash).ready_senders(hash);
    assert forall|other: N| senders.contains(other) implies net.nodes.to_set().contains(other) by {
        if other != sender {
            assert(s.readys.dom().contains(other));
        }
    }
    let other = law_overlap(net.nodes, net.good.dom(), senders);
    assert(net.good.contains_key(other));
    assert(net.good[other].issued().contains(ready(hash))) by {
        if other != sender {
            assert(s.readys.contains_key(other));
        }
    }
    lemma_issued_backed(net, other, hash);
}

/// A message that is delivered to a good node leaves what is issued true.
proof fn lemma_deliver_issued_true<N>(net: Network<N>, id: N, sender: N, content: Content)
    requires
        net.is_consistent(),
        net.good.contains_key(id),
        net.is_authentic(sender, content),
    ensures
        net.with(id, net.good[id].after(Call::Message(sender, content))).issued_true(),
{
    let call = Call::Message(sender, content);
    let node = net.good[id];
    let end = node.after(call);
    let after = net.with(id, end);
    let s = node.state;
    let t = end.state;
    law_nothing_taken_back(node, call);
    lemma_recorded(s, sender, content);
    lemma_fresh(s, sender, content);
    lemma_deliver_members_valid(net, id, sender, content);
    assert(after.good.contains_key(id));
    lemma_backed_grows(net, id, end);
    let base = node.issued().len() as int;
    assert(end.issued() =~= node.issued() + fresh(s, t));
    assert forall|k: N, i: int|
        after.good.contains_key(k) && 0 <= i < after.good[k].issued().len() implies {
        let m = #[trigger] after.good[k].issued()[i];
        match m.message {
            Content::Echo(p) => m.target == Target::<N>::All && p == after.good[k].state.echos[k],
            Content::Ready(hash) => m.target == Target::<N>::All && after.is_backed(hash),
            Content::Value(p) => m.target is Node && k == after.proposer_id && after.is_share(p),
        }
    } by {
        assert(net.good.contains_key(k));
        let m = after.good[k].issued()[i];
        if k == id && i >= base {
            assert(fresh(s, t)[i - base] == m);
            match m.message {
                Content::Echo(p) => {
                    if s.echos.contains_key(id) {
                        assert(s.echo_sent);
                    }
                },
                Content::Ready(hash) => {
                    if t.echoers(hash).len() < s.total() - s.faulty() {
                        lemma_ready_backed(net, id, sender, hash);
                    }
                    assert(after.is_backed(hash));
                },
                Content::Value(_) => {},
            }
        } else {
            assert(net.good[k].issued()[i] == m);
            match m.message {
                Content::Echo(p) => {
                    assert(is_echo(net.good[k].issued()[i]));
                    assert(net.good[k].state.echos.contains_key(k));
                    assert(after.good[k].state.echos.dom().contains(k));
                },
                Content::Ready(hash) => {
                    assert(after.is_backed(hash));
                },
                Content::Value(p) => {
                    assert(after.is_share(p));
                },
            }
        }
    }
}

/// A message that is delivered to a good node leaves the shares true.
proof fn lemma_deliver_shares_true<N>(net: Network<N>, id: N, sender: N, content: Content)
    requires
        net.is_consistent(),
        net.good.contains_key(id),
        net.is_authentic(sender, content),
    ensures
        net.with(id, net.good[id].after(Call::Message(sender, content))).shares_true(),
{
    let call = Call::Message(sender, content);
    let node = net.good[id];
    let end = node.after(call);
    let after = net.with(id, end);
    let s = node.state;
    let t = end.state;
    law_nothing_taken_back(node, call);
    lemma_recorded(s, sender, content);
    lemma_fresh(s, sender, content);
    lemma_deliver_members_valid(net, id, sender, content);
    assert(after.good.contains_key(id));
    lemma_backed_grows(net, id, end);
    if net.good.contains_key(net.proposer_id) {
        assert forall|k: N| #[trigger]
            after.good.contains_key(k) && after.good[k].state.echos.contains_key(
                k,
            ) implies after.is_share(after.good[k].state.echos[k]) by {
            assert(net.good.contains_key(k));
            let p = after.good[k].state.echos[k];
            if net.good[k].state.echos.contains_key(k) {
                assert(after.good[k].state.echos.dom().contains(k));
                assert(net.is_share(p));
            } else {
                assert(t.echos.contains_key(k));
                assert(net.is_share(p));
            }
            assert(after.is_share(p));
        }
    }
}

/// A message that is delivered to a good node leaves what was received taken.
proof fn lemma_deliver_received_taken<N>(net: Network<N>, id: N, sender: N, content: Content)
    requires
        net.is_consistent(),
        net.good.contains_key(id),
        net.is_authentic(sender, content),
    ensures
        net.with(id, net.good[id].after(Call::Message(sender, content))).received_taken(),
{
    let call = Call::Message(sender, content);
    let node = net.good[id];
    let end = node.after(call);
    let after = net.with(id, end);
    let s = node.state;
    let t = end.state;
    law_nothing_taken_back(node, call);
    lemma_recorded(s, sender, content);
    lemma_fresh(s, sender, content);
    assert forall|k: N, from: N, c: Content| #[trigger]
        after.received.contains((k, from, c)) implies after.takes(k, from, c) by {
        assert(net.received.contains((k, from, c)));
        assert(net.takes(k, from, c));
        if net.good[k].state.echos.contains_key(from) {
            assert(after.good[k].state.echos.dom().contains(from));
        }
        if net.good[k].state.readys.contains_key(from) {
            assert(after.good[k].state.readys.dom().contains(from));
        }
    }
}

/// A message that is delivered to a good node leaves the proposals issued.
proof fn lemma_deliver_proposals_issued<N>(net: Network<N>, id: N, sender: N, content: Content)
    requires
        net.is_consistent(),
        net.good.contains_key(id),
        net.is_authentic(sender, content),
    ensures
        net.with(id, net.good[id].after(Call::Message(sender, content))).proposals_issued(),
{
    let call = Call::Message(sender, content);
    let node = net.good[id];
    let end = node.after(call);
    let after = net.with(id, end);
    let s = node.state;
    let t = end.state;
    law_nothing_taken_back(node, call);
    lemma_recorded(s, sender, content);
    lemma_fresh(s, sender, content);
    let p = net.proposer_id;
    if net.good.contains_key(p) {
        assert forall|value: Seq<u8>, i: int|
            #[trigger] after.good[p].inputs.contains(value) && 0 <= i < net.nodes.len()
                && net.nodes[i] != p implies after.good[p].issued().contains(
            TargetedMessage {
                target: Target::Node(#[trigger] net.nodes[i]),
                message: Content::Value(proofs_of(after.leaves_of(value))[i]),
            },
        ) by {
            assert(net.good[p].inputs.contains(value));
            assert(after.leaves_of(value) == net.leaves_of(value));
            let m = TargetedMessage {
                target: Target::Node(net.nodes[i]),
                message: Content::Value(proofs_of(net.leaves_of(value))[i]),
            };
            lemma_prefix_contains(net.good[p].issued(), after.good[p].issued(), m);
        }
    }
}

/// A message that is delivered to a good node leaves the network consistent.
proof fn lemma_deliver<N>(net: Network<N>, id: N, sender: N, content: Content)
    requires
        net.is_consistent(),
        net.good.contains_key(id),
        net.is_authentic(sender, content),
    ensures
        net.with(id, net.good[id].after(Call::Message(sender, content))).is_consistent(),
{
    lemma_deliver_members_valid(net, id, sender, content);
    lemma_deliver_echos_true(net, id, sender, content);
    lemma_deliver_readys_true(net, id, sender, content);
    lemma_deliver_issued_true(net, id, sender, content);
    lemma_deliver_shares_true(net, id, sender, content);
    lemma_deliver_received_taken(net, id, sender, content);
    lemma_deliver_proposals_issued(net, id, sender, content);
    let after = net.with(id, net.good[id].after(Call::Message(sender, content)));
    assert(after.good.dom() =~= net.good.dom());
}

/// A change at a good node that leaves alone what it has received and sends at most more `Value`s
/// leaves the network consistent.
proof fn lemma_aside<N>(net: Network<N>, id: N, end: Node<N>)
    requires
        net.is_consistent(),
        net.good.contains_key(id),
        end.is_valid(),
        end.state == (State {
            messages: end.state.messages,
            output: end.state.output,
            ..net.good[id].state
        }),
        net.good[id].inputs.subset_of(end.inputs),
        net.good[id].issued().is_prefix_of(end.issued()),
        forall|i: int|
            net.good[id].issued().len() <= i < end.issued().len() ==> {
                let m = #[trigger] end.issued()[i];
                &&& m.message is Value
                &&& m.target is Node
                &&& id == net.proposer_id
                &&& net.with(id, end).is_share(m.message->Value_0)
            },
        net.with(id, end).proposals_issued(),
    ensures
        net.with(id, end).is_consistent(),
{
    let node = net.good[id];
    let after = net.with(id, end);
    let s = node.state;
    let t = end.state;
    lemma_backed_grows(net, id, end);
    assert(after.good.dom() =~= net.good.dom());
    assert(after.members_valid()) by {
        assert(after.good[id].state.nodes == s.nodes);
    }
    assert(after.echos_true()) by {
        assert forall|m: N, other: N|
            after.good.contains_key(m) && #[trigger] after.good.contains_key(other) && (
            #[trigger] after.good[m]).state.echos.contains_key(other) implies {
            let o = after.good[other];
            &&& o.state.echo_sent
            &&& o.state.echos.contains_key(other)
            &&& o.state.echos[other] == after.good[m].state.echos[other]
            } by {
            assert(net.good.contains_key(m) && net.good.contains_key(other));
            assert(net.good[m].state.echos.contains_key(other));
        }
    }
    assert(after.readys_true()) by {
        assert forall|m: N, other: N|
            after.good.contains_key(m) && #[trigger] after.good.contains_key(other) && (
            #[trigger] after.good[m]).state.readys.contains_key(
                other,
            ) implies after.good[other].issued().contains(
            TargetedMessage {
                target: Target::All,
                message: Content::Ready(after.good[m].state.readys[other]),
            },
        ) by {
            assert(net.good.contains_key(m) && net.good.contains_key(other));
            assert(net.good[m].state.readys.contains_key(other));
            let r = TargetedMessage {
                target: Target::<N>::All,
                message: Content::Ready(after.good[m].state.readys[other]),
            };
            lemma_prefix_contains(net.good[other].issued(), after.good[other].issued(), r);
        }
    }
    assert(after.issued_true()) by {
        assert forall|k: N, i: int|
            after.good.contains_key(k) && 0 <= i < after.good[k].issued().len() implies {
            let m = #[trigger] after.good[k].issued()[i];
            match m.message {
                Content::Echo(p) => m.target == Target::<N>::All && p
                    == after.good[k].state.echos[k],
                Content::Ready(hash) => m.target == Target::<N>::All && after.is_backed(hash),
                Content::Value(p) => m.target is Node && k == after.proposer_id
                    && after.is_share(p),
            }
        } by {
            assert(net.good.contains_key(k));
            let m = after.good[k].issued()[i];
            if k == id && i >= node.issued().len() {
                assert(end.issued()[i] == m);
            } else {
                assert(net.good[k].issued()[i] == m);
                let hash = m.message.root_hash();
                assert(net.is_backed(hash) ==> after.is_backed(hash));
                if let Content::Value(p) = m.message {
                    assert(after.is_share(p));
                }
            }
        }
    }
    assert(after.shares_true()) by {
        if net.good.contains_key(net.proposer_id) {
            assert forall|k: N| #[trigger]
                after.good.contains_key(k) && after.good[k].state.echos.contains_key(
                    k,
                ) implies after.is_share(after.good[k].state.echos[k]) by {
                assert(net.good.contains_key(k));
                assert(net.is_share(net.good[k].state.echos[k]));
            }
        }
    }
    assert(after.received_taken()) by {
        assert forall|k: N, from: N, c: Content| #[trigger]
            after.received.contains((k, from, c)) implies after.takes(k, from, c) by {
            assert(net.received.contains((k, from, c)));
            assert(net.takes(k, from, c));
        }
    }
}

/// A value that is proposed is sent to the nodes, and that leaves the network consistent.
proof fn lemma_propose<N>(net: Network<N>, value: Seq<u8>)
    requires
        net.is_consistent(),
        net.good.contains_key(net.proposer_id),
    ensures
        ({
            let node = net.good[net.proposer_id];
            let proofs = proofs_of(net.leaves_of(value));
            let end = Node {
                state: node.state.distribute(proofs),
                inputs: node.inputs.insert(value),
                ..node
            };
            &&& net.with(net.proposer_id, end).is_consistent()
            &&& forall|i: int|
                0 <= i < net.nodes.len() ==> net.with(net.proposer_id, end).is_share(
                    #[trigger] proofs[i],
                )
        }),
{
    let id = net.proposer_id;
    let node = net.good[id];
    let s = node.state;
    let leaves = net.leaves_of(value);
    let proofs = proofs_of(leaves);
    let bare = Node { state: s.distribute(proofs), ..node };
    let end = Node { inputs: node.inputs.insert(value), ..bare };
    let after = net.with(id, end);
    let values = value_messages(s.nodes, s.our_id, proofs);
    let base = node.issued().len() as int;
    lemma_distribute_valid(node, proofs);
    assert(bare.issued() == end.issued());
    assert(end.issued() =~= node.issued() + values);
    lemma_value_messages(s.nodes, s.our_id, proofs);
    lemma_leaves(value, data_shard_count(net.nodes.len()), parity_shard_count(net.nodes.len()));
    assert(after.leaves_of(value) == leaves);
    assert forall|i: int| 0 <= i < net.nodes.len() implies after.is_share(#[trigger] proofs[i]) by {
        assert(after.good[id].inputs.contains(value));
        assert(proofs_of(after.leaves_of(value))[i] == proofs[i]);
    }
    assert forall|i: int| base <= i < end.issued().len() implies {
        let m = #[trigger] end.issued()[i];
        &&& m.message is Value
        &&& m.target is Node
        &&& after.is_share(m.message->Value_0)
    } by {
        assert(end.issued()[i] == values[i - base]);
        assert(values[i - base].target is Node);
        let k = choose|k: int|
            {
                &&& 0 <= k < s.nodes.len()
                &&& s.nodes[k] != s.our_id
                &&& #[trigger] values[i - base].target == Target::Node(s.nodes[k])
                &&& values[i - base].message == Content::Value(#[trigger] proofs[k])
            };
        assert(after.is_share(proofs[k]));
    }
    assert forall|v: Seq<u8>, i: int|
        #[trigger] end.inputs.contains(v) && 0 <= i < net.nodes.len() && net.nodes[i]
            != id implies end.issued().contains(
        TargetedMessage {
            target: Target::Node(#[trigger] net.nodes[i]),
            message: Content::Value(proofs_of(after.leaves_of(v))[i]),
        },
    ) by {
        let m = TargetedMessage {
            target: Target::Node(net.nodes[i]),
            message: Content::Value(proofs_of(net.leaves_of(v))[i]),
        };
        if v == value {
            assert(values.contains(m));
            let k = choose|k: int| 0 <= k < values.len() && values[k] == m;
            assert(end.issued()[base + k] == m);
        } else {
            assert(node.inputs.contains(v));
            lemma_prefix_contains(node.issued(), end.issued(), m);
        }
    }
    lemma_aside(net, id, end);
}

/// To have received more leaves the network consistent, if it has been taken down.
proof fn lemma_more_received<N>(net: Network<N>, after: Network<N>)
    requires
        net.is_consistent(),
        after == (Network { received: after.received, ..net }),
        after.received_taken(),
    ensures
        after.is_consistent(),
{
    assert(forall|hash: Seq<u8>| net.is_backed(hash) == #[trigger] after.is_backed(hash));
    assert forall|p: ProofContents| net.is_share(p) implies #[trigger] after.is_share(p) by {
        let (value, i) = choose|value: Seq<u8>, i: int|
            {
                &&& #[trigger] net.good[net.proposer_id].inputs.contains(value)
                &&& 0 <= i < net.nodes.len()
                &&& p == #[trigger] proofs_of(net.leaves_of(value))[i]
            };
        assert(after.good[after.proposer_id].inputs.contains(value));
        assert(proofs_of(after.leaves_of(value))[i] == p);
    }
    assert(after.issued_true()) by {
        assert forall|k: N, i: int|
            after.good.contains_key(k) && 0 <= i < after.good[k].issued().len() implies {
            let m = #[trigger] after.good[k].issued()[i];
            match m.message {
                Content::Echo(p) => m.target == Target::<N>::All && p
                    == after.good[k].state.echos[k],
                Content::Ready(hash) => m.target == Target::<N>::All && after.is_backed(hash),
                Content::Value(p) => m.target is Node && k == after.proposer_id
                    && after.is_share(p),
            }
        } by {
            let m = net.good[k].issued()[i];
            let hash = m.message.root_hash();
            assert(net.is_backed(hash) == after.is_backed(hash));
        }
    }
}

/// The proposer has its own share as before, if nothing more was proposed.
proof fn lemma_same_shares<N>(net: Network<N>, after: Network<N>)
    requires
        net.own_shares_taken(),
        after.nodes == net.nodes,
        after.proposer_id == net.proposer_id,
        after.good.contains_key(net.proposer_id) ==> {
            let old_proposer = net.good[net.proposer_id];
            let new_proposer = after.good[net.proposer_id];
            &&& net.good.contains_key(net.proposer_id)
            &&& new_proposer.inputs == old_proposer.inputs
            &&& new_proposer.state.nodes == old_proposer.state.nodes
            &&& old_proposer.state.echo_sent ==> new_proposer.state.echo_sent
        },
    ensures
        after.own_shares_taken(),
{
    let id = net.proposer_id;
    let place = net.nodes.index_of(id);
    assert forall|value: Seq<u8>|
        after.good.contains_key(id) && after.good[id].inputs.contains(value)
            && after.good[id].state.accepts(
            #[trigger] proofs_of(after.leaves_of(value))[place],
            id,
        ) implies after.good[id].state.echo_sent by {
        assert(after.leaves_of(value) == net.leaves_of(value));
        let _ = proofs_of(net.leaves_of(value))[place];
    }
}

/// A change at a good node that leaves alone what it has received and issued leaves the network
/// consistent.
proof fn lemma_idle<N>(net: Network<N>, id: N, end: Node<N>)
    requires
        net.is_consistent(),
        net.good.contains_key(id),
        end.is_valid(),
        end.state == (State {
            messages: end.state.messages,
            output: end.state.output,
            ..net.good[id].state
        }),
        end.inputs == net.good[id].inputs || id != net.proposer_id,
        net.good[id].inputs.subset_of(end.inputs),
        end.issued() == net.good[id].issued(),
    ensures
        net.with(id, end).is_consistent(),
{
    let after = net.with(id, end);
    let p = net.proposer_id;
    if after.good.contains_key(p) {
        assert forall|value: Seq<u8>, i: int|
            #[trigger] after.good[p].inputs.contains(value) && 0 <= i < net.nodes.len()
                && net.nodes[i] != p implies after.good[p].issued().contains(
            TargetedMessage {
                target: Target::Node(#[trigger] net.nodes[i]),
                message: Content::Value(proofs_of(after.leaves_of(value))[i]),
            },
        ) by {
            assert(net.good[p].inputs.contains(value));
            assert(after.leaves_of(value) == net.leaves_of(value));
        }
    }
    lemma_aside(net, id, end);
}

/// A message that can be received is authentic.
proof fn lemma_authentic<N>(net: Network<N>, id: N, sender: N, content: Content)
    requires
        net.is_consistent(),
        net.allows(Event { node: id, call: Call::Message(sender, content) }),
    ensures
        net.is_authentic(sender, content),
{
    if net.good.contains_key(sender) {
        let node = net.good[sender];
        let i = choose|i: int|
            0 <= i < node.sent.len() && reaches((#[trigger] node.sent[i]).target, id)
                && node.sent[i].message == content;
        let m = node.issued()[i];
        assert(m == node.sent[i]);
        match content {
            Content::Echo(_) => {
                assert(is_echo(m));
            },
            Content::Ready(_) => {},
            Content::Value(_) => {},
        }
    }
}

/// A message that is received leaves the network consistent, and the proposer with its own share.
proof fn lemma_received<N>(net: Network<N>, id: N, sender: N, content: Content)
    requires
        net.is_consistent(),
        net.own_shares_taken(),
        net.allows(Event { node: id, call: Call::Message(sender, content) }),
    ensures
        net.after(Event { node: id, call: Call::Message(sender, content) }).is_consistent(),
        net.after(Event { node: id, call: Call::Message(sender, content) }).own_shares_taken(),
{
    let call = Call::Message(sender, content);
    let node = net.good[id];
    let end = node.after(call);
    let next = net.with(id, end);
    let after = net.after(Event { node: id, call });
    lemma_authentic(net, id, sender, content);
    lemma_deliver(net, id, sender, content);
    assert(after.received_taken()) by {
        lemma_recorded(node.state, sender, content);
        assert forall|k: N, from: N, c: Content| #[trigger]
            after.received.contains((k, from, c)) implies after.takes(k, from, c) by {
            if !net.received.contains((k, from, c)) {
                assert(k == id && from == sender && c == content);
            } else {
                assert(next.received.contains((k, from, c)));
                assert(next.takes(k, from, c));
            }
        }
    }
    lemma_more_received(next, after);
    law_nothing_taken_back(node, call);
    lemma_same_shares(net, after);
}

/// A value that is given to the proposer leaves the network consistent, and the proposer with its
/// own share.
proof fn lemma_proposed<N>(net: Network<N>, value: Seq<u8>)
    requires
        net.is_consistent(),
        net.own_shares_taken(),
        net.good.contains_key(net.proposer_id),
    ensures
        net.after(Event { node: net.proposer_id, call: Call::Input(value) }).is_consistent(),
        net.after(Event { node: net.proposer_id, call: Call::Input(value) }).own_shares_taken(),
{
    let id = net.proposer_id;
    let node = net.good[id];
    let s = node.state;
    let end = node.after(Call::Input(value));
    let after = net.after(Event { node: id, call: Call::Input(value) });
    let place = net.nodes.index_of(id);
    let proofs = proofs_of(net.leaves_of(value));
    let p = proofs[place];
    let share = Call::Message(id, Content::Value(p));
    let mid_node = Node {
        state: s.distribute(proofs),
        inputs: node.inputs.insert(value),
        ..node
    };
    let mid = net.with(id, mid_node);
    lemma_propose(net, value);
    lemma_leaves(value, data_shard_count(net.nodes.len()), parity_shard_count(net.nodes.len()));
    assert(net.nodes.to_set().contains(id));
    assert(net.nodes.contains(id));
    assert(mid.is_share(p));
    assert(mid.is_authentic(id, Content::Value(p)));
    lemma_deliver(mid, id, id, Content::Value(p));
    assert(end == mid_node.after(share));
    assert(after.good =~= mid.with(id, mid_node.after(share)).good);
    assert(after == mid.with(id, mid_node.after(share)));
    law_nothing_taken_back(node, Call::Input(value));
    lemma_recorded(mid_node.state, id, Content::Value(p));
    assert forall|v: Seq<u8>|
        end.inputs.contains(v) && end.state.accepts(
            #[trigger] proofs_of(after.leaves_of(v))[place],
            id,
        ) implies end.state.echo_sent by {
        assert(after.leaves_of(v) == net.leaves_of(v));
        if v != value {
            assert(node.inputs.contains(v));
            assert(s.accepts(proofs_of(net.leaves_of(v))[place], id));
        }
    }
}

/// An event leaves the network consistent, and the proposer with its own share.
proof fn lemma_event<N>(net: Network<N>, event: Event<N>)
    requires
        net.is_consistent(),
        net.own_shares_taken(),
        net.allows(event),
    ensures
        net.after(event).is_consistent(),
        net.after(event).own_shares_taken(),
{
    let id = event.node;
    let node = net.good[id];
    let end = node.after(event.call);
    match event.call {
        Call::Message(sender, content) => {
            lemma_received(net, id, sender, content);
        },
        Call::Input(value) if id == net.proposer_id => {
            lemma_proposed(net, value);
        },
        _ => {
            let after = net.after(event);
            law_nothing_taken_back(node, event.call);
            assert(end.issued() =~= node.issued());
            lemma_idle(net, id, end);
            assert(after == net.with(id, end));
            lemma_same_shares(net, after);
        },
    }
}

/// A network in which nothing has happened is consistent.
proof fn lemma_start<N>(nodes: Seq<N>, proposer_id: N, good: Set<N>)
    requires
        tolerable(nodes, good),
    ensures
        Network::start(nodes, proposer_id, good).is_consistent(),
        Network::start(nodes, proposer_id, good).own_shares_taken(),
{
    let net = Network::start(nodes, proposer_id, good);
    assert(net.good.dom() =~= good);
    assert forall|id: N| #[trigger] net.good.contains_key(id) implies {
        let node = net.good[id];
        &&& node.is_valid()
        &&& node.state.our_id == id
        &&& node.state.proposer_id == proposer_id
        &&& node.state.nodes == nodes
        &&& node.state.readys.dom().subset_of(nodes.to_set())
    } by {
        lemma_initial_valid(id, proposer_id, nodes);
    }
}

/// A network is consistent whatever has happened.
proof fn lemma_run<N>(nodes: Seq<N>, proposer_id: N, good: Set<N>, events: Seq<Event<N>>)
    requires
        tolerable(nodes, good),
        Network::start(nodes, proposer_id, good).allows_all(events),
    ensures
        ({
            let net = Network::start(nodes, proposer_id, good).after_all(events);
            &&& net.is_consistent()
            &&& net.own_shares_taken()
            &&& net.nodes == nodes
            &&& net.proposer_id == proposer_id
            &&& net.good.dom() == good
        }),
    decreases events.len(),
{
    let start = Network::start(nodes, proposer_id, good);
    if events.len() == 0 {
        lemma_start(nodes, proposer_id, good);
        assert(start.good.dom() =~= good);
    } else {
        lemma_run(nodes, proposer_id, good, events.drop_last());
        let before = start.after_all(events.drop_last());
        lemma_event(before, events.last());
        assert(before.after(events.last()).good.dom() =~= good);
    }
}

/// The promises are kept after faithful calls.
proof fn lemma_run_kept<N>(nodes: Seq<N>, proposer_id: N, good: Set<N>, events: Seq<Event<N>>)
    requires
        tolerable(nodes, good),
        Network::start(nodes, proposer_id, good).allows_all(events),
        Network::start(nodes, proposer_id, good).is_faithful_all(events),
    ensures
        Network::start(nodes, proposer_id, good).after_all(events).has_kept(),
    decreases events.len(),
{
    let start = Network::start(nodes, proposer_id, good);
    if events.len() > 0 {
        let before = start.after_all(events.drop_last());
        lemma_run_kept(nodes, proposer_id, good, events.drop_last());
        lemma_run(nodes, proposer_id, good, events.drop_last());
        lemma_event_kept(before, events.last());
    }
}

/// The promises are kept after one more faithful call.
proof fn lemma_event_kept<N>(net: Network<N>, event: Event<N>)
    requires
        net.is_consistent(),
        net.has_kept(),
        net.allows(event),
        net.good[event.node].is_faithful(event.call),
    ensures
        net.after(event).has_kept(),
{
    let after = net.after(event);
    lemma_kept_after(net.good[event.node], event.call);
    assert forall|id: N| #[trigger]
        after.good.contains_key(id) implies after.good[id].has_kept() by {
        assert(net.good.contains_key(id));
    }
}

/// Two different sequences of leaves with the same root hash.
pub open spec fn collide(a: Seq<Seq<u8>>, b: Seq<Seq<u8>>) -> bool {
    a != b && root_of(a) == root_of(b)
}

/// No two good nodes ever multicast `Ready` for different root hashes, and no good node does so for
/// two.
pub proof fn law_ready_agreement<N>(
    nodes: Seq<N>,
    proposer_id: N,
    good: Set<N>,
    events: Seq<Event<N>>,
    a: N,
    b: N,
    hash_a: Seq<u8>,
    hash_b: Seq<u8>,
)
    requires
        tolerable(nodes, good),
        Network::start(nodes, proposer_id, good).allows_all(events),
        good.contains(a),
        good.contains(b),
        Network::start(nodes, proposer_id, good).after_all(events).good[a].issued().contains(
            ready(hash_a),
        ),
        Network::start(nodes, proposer_id, good).after_all(events).good[b].issued().contains(
            ready(hash_b),
        ),
    ensures
        hash_a == hash_b,
{
    let net = Network::start(nodes, proposer_id, good).after_all(events);
    lemma_run(nodes, proposer_id, good, events);
    assert(net.good.contains_key(a) && net.good.contains_key(b));
    lemma_issued_backed(net, a, hash_a);
    lemma_issued_backed(net, b, hash_b);
    lemma_backed_once(net, hash_a, hash_b);
}

/// Enough `Echo`s come from good nodes of a consistent network.
proof fn lemma_echo_quorum<N>(net: Network<N>, id: N, hash: Seq<u8>)
    requires
        net.is_consistent(),
        net.good.contains_key(id),
        net.good[id].state.echoers(hash).len() >= net.nodes.len() - net.faulty(),
    ensures
        ({
            let echoers = net.good[id].state.echoers(hash).intersect(net.good.dom());
            &&& echoers.len() > net.faulty()
            &&& forall|other: N| #[trigger]
                echoers.contains(other) ==> {
                    let state = net.good[other].state;
                    &&& state.echo_sent
                    &&& state.echos.contains_key(other)
                    &&& state.echos[other].root_hash == hash
                }
        }),
{
    let good = net.good.dom();
    let s = net.good[id].state;
    lemma_senders_are_nodes(net, id, hash);
    lemma_good_among(net.nodes, good, s.echoers(hash));
    assert forall|other: N| #[trigger] s.echoers(hash).intersect(good).contains(other) implies {
        let state = net.good[other].state;
        &&& state.echo_sent
        &&& state.echos.contains_key(other)
        &&& state.echos[other].root_hash == hash
    } by {
        assert(net.good.contains_key(other));
        assert(s.echos.contains_key(other));
    }
}

/// A good node that has found one root hash in the `Echo`s of as many nodes as cannot be faulty has
/// it from more good nodes than there can be faulty ones, and each of these has taken its share
/// with that root hash from the proposer.
pub proof fn law_echo_quorum<N>(
    nodes: Seq<N>,
    proposer_id: N,
    good: Set<N>,
    events: Seq<Event<N>>,
    id: N,
    hash: Seq<u8>,
)
    requires
        tolerable(nodes, good),
        Network::start(nodes, proposer_id, good).allows_all(events),
        good.contains(id),
        Network::start(nodes, proposer_id, good).after_all(events).good[id].state.echoers(
            hash,
        ).len() >= nodes.len() - max_faulty(nodes.len()),
    ensures
        ({
            let net = Network::start(nodes, proposer_id, good).after_all(events);
            let echoers = net.good[id].state.echoers(hash).intersect(good);
            &&& echoers.len() > max_faulty(nodes.len())
            &&& forall|other: N| #[trigger]
                echoers.contains(other) ==> {
                    let state = net.good[other].state;
                    &&& state.echo_sent
                    &&& state.echos.contains_key(other)
                    &&& state.echos[other].root_hash == hash
                }
        }),
{
    let net = Network::start(nodes, proposer_id, good).after_all(events);
    lemma_run(nodes, proposer_id, good, events);
    assert(net.good.contains_key(id));
    lemma_echo_quorum(net, id, hash);
}

/// Two good nodes of a consistent network agree.
proof fn lemma_agreement<N>(net: Network<N>, a: N, b: N)
    requires
        net.is_consistent(),
        net.good.contains_key(a),
        net.good.contains_key(b),
        net.good[a].produced().len() > 0,
        net.good[b].produced().len() > 0,
    ensures
        net.good[a].produced() == net.good[b].produced() || collide(
            net.good[a].rebuilt(),
            net.good[b].rebuilt(),
        ),
{
    lemma_same_hash(net, a, b);
    lemma_held(net.good[a]);
    lemma_held(net.good[b]);
}

/// A node that has output a value has output what the leaves that it has rebuilt hold.
proof fn lemma_held<N>(node: Node<N>)
    requires
        node.is_valid(),
        node.produced().len() > 0,
    ensures
        root_of(node.rebuilt()) == node.basis->0.hash,
        node.produced() == seq![
            payload(joined(node.rebuilt(), node.state.data()), node.state.data()),
        ],
{
    assert(node.produced() =~= seq![
        payload(joined(node.rebuilt(), node.state.data()), node.state.data()),
    ]);
}

/// Two good nodes of a consistent network decide on the same root hash.
proof fn lemma_same_hash<N>(net: Network<N>, a: N, b: N)
    requires
        net.is_consistent(),
        net.good.contains_key(a),
        net.good.contains_key(b),
        net.good[a].state.decided,
        net.good[b].state.decided,
    ensures
        net.good[a].basis->0.hash == net.good[b].basis->0.hash,
{
    lemma_convinced_backed(net, a, net.good[a].basis->0.hash);
    lemma_convinced_backed(net, b, net.good[b].basis->0.hash);
    lemma_backed_once(net, net.good[a].basis->0.hash, net.good[b].basis->0.hash);
}

/// Two good nodes that output a value output the same, unless the leaves that they have rebuilt are
/// different and have the same root hash.
pub proof fn law_agreement<N>(
    nodes: Seq<N>,
    proposer_id: N,
    good: Set<N>,
    events: Seq<Event<N>>,
    a: N,
    b: N,
)
    requires
        tolerable(nodes, good),
        Network::start(nodes, proposer_id, good).allows_all(events),
        good.contains(a),
        good.contains(b),
        Network::start(nodes, proposer_id, good).after_all(events).good[a].produced().len() > 0,
        Network::start(nodes, proposer_id, good).after_all(events).good[b].produced().len() > 0,
    ensures
        ({
            let net = Network::start(nodes, proposer_id, good).after_all(events);
            ||| net.good[a].produced() == net.good[b].produced()
            ||| collide(net.good[a].rebuilt(), net.good[b].rebuilt())
        }),
{
    let net = Network::start(nodes, proposer_id, good).after_all(events);
    lemma_run(nodes, proposer_id, good, events);
    assert(net.good.contains_key(a) && net.good.contains_key(b));
    lemma_agreement(net, a, b);
}

/// A good node of a consistent network outputs what a good proposer has proposed.
proof fn lemma_validity<N>(net: Network<N>, value: Seq<u8>, id: N)
    requires
        net.is_consistent(),
        net.good.contains_key(net.proposer_id),
        net.good.contains_key(id),
        net.good[net.proposer_id].inputs == set![value],
        net.good[id].produced().len() > 0,
    ensures
        net.good[id].produced() == seq![value] || collide(
            net.good[id].rebuilt(),
            net.leaves_of(value),
        ),
{
    let node = net.good[id];
    let hash = node.basis->0.hash;
    lemma_convinced_backed(net, id, hash);
    lemma_backed_proposed(net, hash);
    let proposed = choose|v: Seq<u8>| #[trigger]
        net.good[net.proposer_id].inputs.contains(v) && hash == root_of(net.leaves_of(v));
    assert(proposed == value);
    if node.rebuilt() == net.leaves_of(value) {
        law_round_trip(
            value,
            data_shard_count(net.nodes.len()),
            parity_shard_count(net.nodes.len()),
        );
        assert(node.produced() =~= seq![value]);
    }
}

/// If the proposer is good and proposes one value, any good node that outputs a value outputs that
/// one, unless the leaves that it has rebuilt are not those of the value and have the same root
/// hash.
pub proof fn law_validity<N>(
    nodes: Seq<N>,
    proposer_id: N,
    good: Set<N>,
    events: Seq<Event<N>>,
    value: Seq<u8>,
    id: N,
)
    requires
        tolerable(nodes, good),
        Network::start(nodes, proposer_id, good).allows_all(events),
        good.contains(proposer_id),
        good.contains(id),
        Network::start(nodes, proposer_id, good).after_all(events).good[proposer_id].inputs
            == set![value],
        Network::start(nodes, proposer_id, good).after_all(events).good[id].produced().len() > 0,
    ensures
        ({
            let net = Network::start(nodes, proposer_id, good).after_all(events);
            ||| net.good[id].produced() == seq![value]
            ||| collide(net.good[id].rebuilt(), net.leaves_of(value))
        }),
{
    let net = Network::start(nodes, proposer_id, good).after_all(events);
    lemma_run(nodes, proposer_id, good, events);
    assert(net.good.contains_key(id) && net.good.contains_key(proposer_id));
    lemma_validity(net, value, id);
}

/// If the proposer is good, only what was proposed is backed.
proof fn lemma_backed_proposed<N>(net: Network<N>, hash: Seq<u8>)
    requires
        net.is_consistent(),
        net.good.contains_key(net.proposer_id),
        net.is_backed(hash),
    ensures
        exists|value: Seq<u8>| #[trigger]
            net.good[net.proposer_id].inputs.contains(value) && hash == root_of(
                net.leaves_of(value),
            ),
{
    let k = choose|k: N| #[trigger]
        net.good.contains_key(k) && net.good[k].state.echoers(hash).len() >= net.nodes.len()
            - net.faulty();
    lemma_senders_are_nodes(net, k, hash);
    let other = law_overlap(net.nodes, net.good.dom(), net.good[k].state.echoers(hash));
    assert(net.good.contains_key(other));
    assert(net.good[k].state.echos.contains_key(other));
    lemma_own_share(net, other);
}

/// If the proposer is good, what a good node has taken down for itself is the proof of its own leaf
/// of a value that was proposed.
proof fn lemma_own_share<N>(net: Network<N>, id: N)
    requires
        net.is_consistent(),
        net.good.contains_key(net.proposer_id),
        net.good.contains_key(id),
        net.good[id].state.echos.contains_key(id),
    ensures
        exists|value: Seq<u8>, i: int|
            {
                &&& #[trigger] net.good[net.proposer_id].inputs.contains(value)
                &&& 0 <= i < net.nodes.len()
                &&& net.nodes[i] == id
                &&& net.good[id].state.echos[id] == #[trigger] proofs_of(net.leaves_of(value))[i]
                &&& net.good[id].state.echos[id].root_hash == root_of(net.leaves_of(value))
                &&& net.good[id].state.echos[id].value == net.leaves_of(value)[i]
            },
{
    let p = net.good[id].state.echos[id];
    assert(net.is_share(p));
    let (value, i) = choose|value: Seq<u8>, i: int|
        {
            &&& #[trigger] net.good[net.proposer_id].inputs.contains(value)
            &&& 0 <= i < net.nodes.len()
            &&& p == #[trigger] proofs_of(net.leaves_of(value))[i]
        };
    lemma_share(value, data_shard_count(net.nodes.len()), parity_shard_count(net.nodes.len()), i);
    assert(net.good[id].state.accepts(p, id));
    assert(net.nodes[i] == id);
}

/// The proof of a leaf holds the leaf, which starts with its place, and the root hash.
proof fn lemma_share(value: Seq<u8>, data: nat, parity: nat, i: int)
    requires
        data > 0,
        data + parity <= 256,
        0 <= i < data + parity,
    ensures
        ({
            let leaves = leaves_of(value, data, parity);
            let p = proofs_of(leaves)[i];
            &&& p.root_hash == root_of(leaves)
            &&& p.value == leaves[i]
            &&& p.value[0] == i
        }),
{
    lemma_leaves(value, data, parity);
}

/// If the proposer is good and proposes one value, the good nodes can handle whatever happens in
/// the network, unless the leaves that the node at hand would rebuild are not those of the value
/// and have the same root hash.
pub proof fn law_good_run_admitted<N>(
    nodes: Seq<N>,
    proposer_id: N,
    good: Set<N>,
    events: Seq<Event<N>>,
    event: Event<N>,
    value: Seq<u8>,
)
    requires
        tolerable(nodes, good),
        Network::start(nodes, proposer_id, good).allows_all(events),
        Network::start(nodes, proposer_id, good).after_all(events).allows(event),
        good.contains(proposer_id),
        Network::start(nodes, proposer_id, good).after_all(events).after(
            event,
        ).good[proposer_id].inputs.subset_of(set![value]),
    ensures
        ({
            let net = Network::start(nodes, proposer_id, good).after_all(events);
            let leaves = net.leaves_of(value);
            ||| net.admits(event)
            ||| collide(net.rebuilt_after(event, root_of(leaves)), leaves)
        }),
{
    let net = Network::start(nodes, proposer_id, good).after_all(events);
    lemma_run(nodes, proposer_id, good, events);
    assert(net.good.contains_key(proposer_id));
    lemma_event(net, event);
    lemma_admitted(net, event, value);
}

/// A good node of a consistent network can handle what happens if the proposer is good.
proof fn lemma_admitted<N>(net: Network<N>, event: Event<N>, value: Seq<u8>)
    requires
        net.is_consistent(),
        net.allows(event),
        net.after(event).is_consistent(),
        net.good.contains_key(net.proposer_id),
        net.after(event).good[net.proposer_id].inputs.subset_of(set![value]),
    ensures
        net.admits(event) || collide(
            net.rebuilt_after(event, root_of(net.leaves_of(value))),
            net.leaves_of(value),
        ),
{
    let id = event.node;
    let node = net.good[id];
    let s = node.state;
    match event.call {
        Call::Message(sender, content) => {
            if !net.admits(event) {
                lemma_not_admitted(s, sender, content);
                lemma_hollow(net, event, value, content.root_hash());
            }
        },
        Call::Input(v) => {
            if !net.admits(event) {
                let proofs = proofs_of(leaves_of(v, s.data(), s.parity()));
                let p = proofs[s.nodes.index_of(id)];
                let mid = s.distribute(proofs);
                assert(id == net.proposer_id);
                assert(s.nodes.contains(id));
                lemma_not_admitted(mid, id, Content::Value(p));
                lemma_leaves(v, s.data(), s.parity());
                lemma_hollow(net, event, value, p.root_hash);
            }
        },
        Call::NextMessage => {},
        Call::NextOutput => {},
    }
}

/// Leaves with the root hash of what a good proposer has proposed that hold no value are not those
/// of the value, and so they collide with them.
proof fn lemma_hollow<N>(net: Network<N>, event: Event<N>, value: Seq<u8>, hash: Seq<u8>)
    requires
        net.is_consistent(),
        net.allows(event),
        net.after(event).is_consistent(),
        net.good.contains_key(net.proposer_id),
        net.after(event).good[net.proposer_id].inputs.subset_of(set![value]),
        net.after(event).good[event.node].state.is_convinced(hash),
        root_of(net.rebuilt_after(event, hash)) == hash,
        !holds_payload(
            joined(net.rebuilt_after(event, hash), data_shard_count(net.nodes.len())),
        ),
    ensures
        collide(
            net.rebuilt_after(event, root_of(net.leaves_of(value))),
            net.leaves_of(value),
        ),
{
    let after = net.after(event);
    assert(after.good.contains_key(event.node));
    assert(after.good.contains_key(after.proposer_id));
    lemma_convinced_backed(after, event.node, hash);
    lemma_backed_proposed(after, hash);
    let proposed = choose|v: Seq<u8>| #[trigger]
        after.good[after.proposer_id].inputs.contains(v) && hash == root_of(after.leaves_of(v));
    assert(set![value].contains(proposed));
    assert(after.leaves_of(value) == net.leaves_of(value));
    law_round_trip(
        value,
        data_shard_count(net.nodes.len()),
        parity_shard_count(net.nodes.len()),
    );
}

/// When all messages have been received, every good node counts the `Ready` of every good node that
/// has issued one.
proof fn lemma_ready_received<N>(net: Network<N>, id: N, sender: N, hash: Seq<u8>)
    requires
        net.is_consistent(),
        net.is_quiet(),
        net.good.contains_key(id),
        net.good.contains_key(sender),
        net.good[sender].issued().contains(ready(hash)),
    ensures
        net.good[id].state.ready_senders(hash).contains(sender),
{
    let node = net.good[sender];
    let state = net.good[id].state;
    let i = choose|i: int| 0 <= i < node.issued().len() && node.issued()[i] == ready::<N>(hash);
    assert(node.sent[i] == ready::<N>(hash));
    if id == sender {
        assert(is_ready(node.issued()[i]));
    } else {
        assert(reaches(node.sent[i].target, id));
        assert(net.received.contains((id, sender, Content::Ready(hash))));
        assert(net.takes(id, sender, Content::Ready(hash)));
    }
    let counted = state.readys[sender];
    assert(node.issued().contains(ready(counted)));
    lemma_issued_backed(net, sender, hash);
    lemma_issued_backed(net, sender, counted);
    lemma_backed_once(net, hash, counted);
}

/// When all messages have been received, every good node counts the `Echo` of every good node that
/// has multicast one.
proof fn lemma_echo_received<N>(net: Network<N>, id: N, sender: N)
    requires
        net.is_consistent(),
        net.is_quiet(),
        net.good.contains_key(id),
        net.good.contains_key(sender),
        net.good[sender].state.echo_sent,
    ensures
        net.good[id].state.echos.contains_key(sender),
        net.good[id].state.echos[sender] == net.good[sender].state.echos[sender],
{
    let node = net.good[sender];
    let issued = node.issued();
    let p = node.state.echos[sender];
    let i = choose|i: int| 0 <= i < issued.len() && is_echo(#[trigger] issued[i]);
    assert(net.good[sender].issued()[i].message == Content::Echo(p));
    assert(node.sent[i] == issued[i]);
    assert(node.state.echos.contains_key(sender));
    assert(node.state.accepts(p, sender));
    assert(net.good[id].state.accepts(p, sender));
    if id != sender {
        assert(reaches(node.sent[i].target, id));
        assert(net.received.contains((id, sender, Content::Echo(p))));
        assert(net.takes(id, sender, Content::Echo(p)));
    }
}

/// When all messages have been received, a root hash is backed, and each good node has multicast
/// `Ready`, then each of them has decided.
proof fn lemma_all_decide<N>(net: Network<N>, hash: Seq<u8>, id: N)
    requires
        net.is_consistent(),
        net.is_quiet(),
        net.is_backed(hash),
        forall|k: N| #[trigger] net.good.contains_key(k) ==> net.good[k].state.ready_sent,
        net.good.contains_key(id),
    ensures
        net.good[id].state.decided,
{
    let state = net.good[id].state;
    let nodes = net.nodes;
    let good = net.good.dom();
    lemma_senders_are_nodes(net, id, hash);
    lemma_finite(nodes, nodes.to_set());
    assert forall|k: N| good.contains(k) implies state.ready_senders(hash).contains(k) by {
        assert(net.good.contains_key(k));
        let issued = net.good[k].issued();
        let i = choose|i: int| 0 <= i < issued.len() && is_ready(#[trigger] issued[i]);
        let h = issued[i].message->Ready_0;
        assert(net.good[k].issued()[i] == ready::<N>(h));
        lemma_issued_backed(net, k, h);
        lemma_backed_once(net, h, hash);
        lemma_ready_received(net, id, k, hash);
    }
    lemma_len_subset(state.ready_senders(hash), nodes.to_set());
    lemma_len_subset(good, state.ready_senders(hash));
    let origin = choose|k: N| #[trigger]
        net.good.contains_key(k) && net.good[k].state.echoers(hash).len() >= nodes.len()
            - net.faulty();
    let echoers = net.good[origin].state.echoers(hash);
    lemma_senders_are_nodes(net, origin, hash);
    lemma_good_among(nodes, good, echoers);
    assert forall|k: N| echoers.intersect(good).contains(k) implies state.echoers(hash).contains(
        k,
    ) by {
        assert(net.good.contains_key(k));
        assert(net.good[origin].state.echos.contains_key(k));
        lemma_echo_received(net, id, k);
    }
    lemma_len_subset(state.echoers(hash), nodes.to_set());
    lemma_len_subset(echoers.intersect(good), state.echoers(hash));
    assert(state.is_convinced(hash));
}

/// When all messages have been received and one good node has decided, then all good nodes have, on
/// the same root hash.
proof fn lemma_totality<N>(net: Network<N>, first: N, id: N)
    requires
        net.is_consistent(),
        net.is_quiet(),
        net.good.contains_key(first),
        net.good.contains_key(id),
        net.good[first].state.decided,
    ensures
        net.good[id].state.decided,
        net.good[id].basis->0.hash == net.good[first].basis->0.hash,
{
    let nodes = net.nodes;
    let good = net.good.dom();
    let source = net.good[first].state;
    let hash = net.good[first].basis->0.hash;
    let senders = source.ready_senders(hash);
    lemma_convinced_backed(net, first, hash);
    lemma_senders_are_nodes(net, first, hash);
    lemma_good_among(nodes, good, senders);
    lemma_finite(nodes, nodes.to_set());
    assert forall|k: N| #[trigger] net.good.contains_key(k) implies net.good[k].state.ready_sent by {
        let state = net.good[k].state;
        lemma_senders_are_nodes(net, k, hash);
        assert forall|r: N| senders.intersect(good).contains(r) implies state.ready_senders(
            hash,
        ).contains(r) by {
            assert(net.good.contains_key(r));
            assert(source.readys.contains_key(r));
            lemma_ready_received(net, k, r, hash);
        }
        lemma_len_subset(state.ready_senders(hash), nodes.to_set());
        lemma_len_subset(senders.intersect(good), state.ready_senders(hash));
    }
    lemma_all_decide(net, hash, id);
    lemma_convinced_backed(net, id, net.good[id].basis->0.hash);
    lemma_backed_once(net, hash, net.good[id].basis->0.hash);
}

/// Either all or none of the good nodes terminate: when all messages have been received and one
/// good node has terminated, then all good nodes have, on the same root hash.
pub proof fn law_totality<N>(
    nodes: Seq<N>,
    proposer_id: N,
    good: Set<N>,
    events: Seq<Event<N>>,
    first: N,
    id: N,
)
    requires
        tolerable(nodes, good),
        Network::start(nodes, proposer_id, good).allows_all(events),
        Network::start(nodes, proposer_id, good).after_all(events).is_quiet(),
        good.contains(first),
        good.contains(id),
        Network::start(nodes, proposer_id, good).after_all(events).good[first].state.decided,
    ensures
        ({
            let net = Network::start(nodes, proposer_id, good).after_all(events);
            &&& net.good[id].state.decided
            &&& net.good[id].basis->0.hash == net.good[first].basis->0.hash
        }),
{
    let net = Network::start(nodes, proposer_id, good).after_all(events);
    lemma_run(nodes, proposer_id, good, events);
    assert(net.good.contains_key(first) && net.good.contains_key(id));
    lemma_totality(net, first, id);
}

/// Either all or none of the good nodes output a value, whoever the proposer is: when all messages
/// have been received and one good node has output a value, then each good node has output the same
/// value, unless a proof that it has taken down shows two different inputs that have the same hash.
pub proof fn law_all_or_none<N>(
    nodes: Seq<N>,
    proposer_id: N,
    good: Set<N>,
    events: Seq<Event<N>>,
    first: N,
    id: N,
)
    requires
        tolerable(nodes, good),
        Network::start(nodes, proposer_id, good).allows_all(events),
        Network::start(nodes, proposer_id, good).is_faithful_all(events),
        Network::start(nodes, proposer_id, good).after_all(events).is_quiet(),
        good.contains(first),
        good.contains(id),
        Network::start(nodes, proposer_id, good).after_all(events).good[first].produced().len() > 0,
    ensures
        ({
            let net = Network::start(nodes, proposer_id, good).after_all(events);
            ||| net.good[id].produced() == net.good[first].produced()
            ||| net.is_betrayed(id, net.good[first].rebuilt())
        }),
{
    let net = Network::start(nodes, proposer_id, good).after_all(events);
    lemma_run(nodes, proposer_id, good, events);
    lemma_run_kept(nodes, proposer_id, good, events);
    assert(net.good.contains_key(first) && net.good.contains_key(id));
    lemma_totality(net, first, id);
    let whole = net.good[first].rebuilt();
    if !net.is_betrayed(id, whole) {
        lemma_enough(net, whole, id);
        assert(net.good[first].produced() =~= seq![
            payload(
                joined(whole, data_shard_count(nodes.len())),
                data_shard_count(nodes.len()),
            ),
        ]);
    }
}

/// All good nodes output a value that was made into leaves as a good proposer does it, whoever the
/// proposer is, once one of them has terminated with its root hash: when all messages have been
/// received, each good node has output the value, unless a proof that it has taken down shows two
/// different inputs that have the same hash.
pub proof fn law_total_output<N>(
    nodes: Seq<N>,
    proposer_id: N,
    good: Set<N>,
    events: Seq<Event<N>>,
    value: Seq<u8>,
    first: N,
    id: N,
)
    requires
        tolerable(nodes, good),
        Network::start(nodes, proposer_id, good).allows_all(events),
        Network::start(nodes, proposer_id, good).is_faithful_all(events),
        Network::start(nodes, proposer_id, good).after_all(events).is_quiet(),
        good.contains(first),
        good.contains(id),
        ({
            let net = Network::start(nodes, proposer_id, good).after_all(events);
            &&& net.good[first].state.decided
            &&& net.good[first].basis->0.hash == root_of(net.leaves_of(value))
        }),
    ensures
        ({
            let net = Network::start(nodes, proposer_id, good).after_all(events);
            ||| net.good[id].produced() == seq![value]
            ||| net.is_betrayed(id, net.leaves_of(value))
        }),
{
    let net = Network::start(nodes, proposer_id, good).after_all(events);
    lemma_run(nodes, proposer_id, good, events);
    lemma_run_kept(nodes, proposer_id, good, events);
    assert(net.good.contains_key(first) && net.good.contains_key(id));
    lemma_totality(net, first, id);
    if !net.is_betrayed(id, net.leaves_of(value)) {
        lemma_value_output(net, value, id);
    }
}

/// A good node that has decided on the root hash of a value has output it, unless it is betrayed.
proof fn lemma_value_output<N>(net: Network<N>, value: Seq<u8>, id: N)
    requires
        net.is_consistent(),
        net.has_kept(),
        net.good.contains_key(id),
        net.good[id].state.decided,
        net.good[id].basis->0.hash == root_of(net.leaves_of(value)),
        !net.is_betrayed(id, net.leaves_of(value)),
    ensures
        net.good[id].produced() == seq![value],
{
    let data = data_shard_count(net.nodes.len());
    let parity = parity_shard_count(net.nodes.len());
    lemma_leaves(value, data, parity);
    lemma_leaves_coherent(value, data, parity);
    law_round_trip(value, data, parity);
    lemma_enough(net, net.leaves_of(value), id);
}

/// A good node that has decided on the root hash of coherent leaves has output the value that they
/// hold, unless it is betrayed.
proof fn lemma_enough<N>(net: Network<N>, whole: Seq<Seq<u8>>, id: N)
    requires
        net.is_consistent(),
        net.has_kept(),
        net.good.contains_key(id),
        net.good[id].state.decided,
        net.good[id].basis->0.hash == root_of(whole),
        whole.len() == net.nodes.len(),
        coherent(whole, data_shard_count(net.nodes.len()), parity_shard_count(net.nodes.len())),
        !net.is_betrayed(id, whole),
    ensures
        net.good[id].produced() == seq![
            payload(
                joined(whole, data_shard_count(net.nodes.len())),
                data_shard_count(net.nodes.len()),
            ),
        ],
{
    let node = net.good[id];
    let (data, parity) = (node.state.data(), node.state.parity());
    let leaves = node.basis->0.leaves;
    assert forall|i: int|
        0 <= i < leaves.len() && (#[trigger] leaves[i]) is Some implies leaves[i]->0
        == whole[i] by {
        lemma_leaf_bound(net, whole, id, i);
    }
    assert(pieces_of(leaves, whole));
    assert(recoverable(leaves, data, parity, whole));
}

/// A leaf that a good node has decided on is the one in its place in the tree, unless the node is
/// betrayed.
proof fn lemma_leaf_bound<N>(net: Network<N>, whole: Seq<Seq<u8>>, id: N, i: int)
    requires
        net.is_consistent(),
        net.good.contains_key(id),
        net.good[id].state.decided,
        net.good[id].basis->0.hash == root_of(whole),
        whole.len() == net.nodes.len(),
        !net.is_betrayed(id, whole),
        0 <= i < net.nodes.len(),
        net.good[id].basis->0.leaves[i] is Some,
    ensures
        net.good[id].basis->0.leaves[i] == Some(whole[i]),
{
    let basis = net.good[id].basis->0;
    let state = net.good[id].state;
    let other = net.nodes[i];
    assert(state.leaf_values(basis.hash)[i] == basis.leaves[i]);
    assert(state.echoers(basis.hash).contains(other));
    assert(state.echos.contains_key(other));
    let p = state.echos[other];
    assert(state.accepts(p, other));
    law_bound(p, whole);
    assert(net.nodes[p.value[0] as int] == net.nodes[i]);
}

/// When all messages have been received, and all good nodes have taken a share with this root hash,
/// they have decided.
proof fn lemma_shares_suffice<N>(net: Network<N>, hash: Seq<u8>, id: N)
    requires
        net.is_consistent(),
        net.is_quiet(),
        forall|k: N| #[trigger]
            net.good.contains_key(k) ==> net.good[k].state.echo_sent
                && net.good[k].state.echos[k].root_hash == hash,
        net.good.contains_key(id),
    ensures
        net.good[id].state.decided,
{
    let nodes = net.nodes;
    let good = net.good.dom();
    lemma_finite(nodes, nodes.to_set());
    lemma_finite(nodes, good);
    assert forall|k: N| #[trigger] net.good.contains_key(k) implies net.good[k].state.ready_sent
        && net.good[k].state.echoers(hash).len() >= nodes.len() - net.faulty() by {
        let state = net.good[k].state;
        lemma_senders_are_nodes(net, k, hash);
        lemma_len_subset(state.echoers(hash), nodes.to_set());
        assert forall|other: N| good.contains(other) implies state.echoers(hash).contains(
            other,
        ) by {
            assert(net.good.contains_key(other));
            lemma_echo_received(net, k, other);
        }
        lemma_len_subset(good, state.echoers(hash));
    }
    assert(net.is_backed(hash));
    lemma_all_decide(net, hash, id);
}

/// If the proposer is good, all good nodes output the proposed value: when it has proposed one
/// value, no two of whose leaves have the same hash, and all messages have been received, then each
/// good node has terminated, and has output that value, unless a proof that it has taken down shows
/// two different inputs that have the same hash.
pub proof fn law_good_proposer<N>(
    nodes: Seq<N>,
    proposer_id: N,
    good: Set<N>,
    events: Seq<Event<N>>,
    value: Seq<u8>,
    id: N,
)
    requires
        tolerable(nodes, good),
        Network::start(nodes, proposer_id, good).allows_all(events),
        Network::start(nodes, proposer_id, good).is_faithful_all(events),
        Network::start(nodes, proposer_id, good).after_all(events).is_quiet(),
        good.contains(proposer_id),
        good.contains(id),
        Network::start(nodes, proposer_id, good).after_all(events).good[proposer_id].inputs
            == set![value],
        !has_twins(Network::start(nodes, proposer_id, good).leaves_of(value)),
    ensures
        ({
            let net = Network::start(nodes, proposer_id, good).after_all(events);
            &&& net.good[id].state.decided
            &&& net.good[id].produced() == seq![value] || net.is_betrayed(
                id,
                net.leaves_of(value),
            )
        }),
{
    let net = Network::start(nodes, proposer_id, good).after_all(events);
    lemma_run(nodes, proposer_id, good, events);
    lemma_run_kept(nodes, proposer_id, good, events);
    assert(net.good.contains_key(id) && net.good.contains_key(proposer_id));
    assert(net.leaves_of(value) == Network::start(nodes, proposer_id, good).leaves_of(value));
    lemma_good_proposer(net, value, id);
}

/// A good node of a quiet network outputs what a good proposer has proposed.
proof fn lemma_good_proposer<N>(net: Network<N>, value: Seq<u8>, id: N)
    requires
        net.is_consistent(),
        net.own_shares_taken(),
        net.has_kept(),
        net.is_quiet(),
        net.good.contains_key(net.proposer_id),
        net.good.contains_key(id),
        net.good[net.proposer_id].inputs == set![value],
        !has_twins(net.leaves_of(value)),
    ensures
        net.good[id].state.decided,
        net.good[id].produced() == seq![value] || net.is_betrayed(id, net.leaves_of(value)),
{
    let hash = root_of(net.leaves_of(value));
    assert(net.good[net.proposer_id].inputs.contains(value));
    assert forall|k: N| #[trigger] net.good.contains_key(k) implies net.good[k].state.echo_sent
        && net.good[k].state.echos[k].root_hash == hash by {
        lemma_share_received(net, value, k);
        lemma_own_share(net, k);
    }
    lemma_shares_suffice(net, hash, id);
    let basis = net.good[id].basis->0;
    lemma_convinced_backed(net, id, basis.hash);
    lemma_backed_proposed(net, basis.hash);
    if !net.is_betrayed(id, net.leaves_of(value)) {
        lemma_value_output(net, value, id);
    }
}

/// When all messages have been received, every good node has taken its share of what was proposed,
/// if it was acceptable.
proof fn lemma_share_received<N>(net: Network<N>, value: Seq<u8>, id: N)
    requires
        net.is_consistent(),
        net.own_shares_taken(),
        net.is_quiet(),
        net.good.contains_key(net.proposer_id),
        net.good[net.proposer_id].inputs.contains(value),
        !has_twins(net.leaves_of(value)),
        net.good.contains_key(id),
    ensures
        net.good[id].state.echo_sent,
{
    let proofs = proofs_of(net.leaves_of(value));
    let proposer = net.good[net.proposer_id];
    assert(net.nodes.to_set().contains(id));
    assert(net.nodes.contains(id));
    let i = net.nodes.index_of(id);
    assert(net.nodes[i] == id);
    let state = proposer.state;
    assert(net.leaves_of(value) == leaves_of(value, state.data(), state.parity()));
    law_shares_sound(state, value);
    assert(net.good[id].state.accepts(proofs[i], id));
    if id != net.proposer_id {
        let m = TargetedMessage {
            target: Target::Node(net.nodes[i]),
            message: Content::Value(proofs[i]),
        };
        assert(proposer.issued().contains(m));
        let k = choose|k: int| 0 <= k < proposer.issued().len() && proposer.issued()[k] == m;
        assert(proposer.sent[k] == m);
        assert(reaches(proposer.sent[k].target, id));
        assert(net.received.contains((id, net.proposer_id, Content::Value(proofs[i]))));
        assert(net.takes(id, net.proposer_id, Content::Value(proofs[i])));
    }
}

/// A proof that a good node has taken down betrays nothing if hashes do not clash.
proof fn lemma_not_betrayed<N>(net: Network<N>, id: N, leaves: Seq<Seq<u8>>)
    requires
        net.is_consistent(),
        net.good.contains_key(id),
        leaves.len() > 0,
        !hashes_clash(),
    ensures
        !net.is_betrayed(id, leaves),
{
    if net.is_betrayed(id, leaves) {
        let state = net.good[id].state;
        let other = choose|other: N|
            {
                let p = state.echos[other];
                &&& #[trigger] state.echos.contains_key(other)
                &&& p.root_hash == root_of(leaves)
                &&& p.lemma.betrays(leaves, p.value)
            };
        let p = state.echos[other];
        assert(state.accepts(p, other));
        lemma_betrayal(p.lemma, leaves, p.value);
    }
}

/// If less than a third of the nodes are faulty, the proposer is good and hashes do not clash, then
/// all good nodes have terminated and output exactly the proposed value when all messages between
/// them have been received.
pub proof fn law_value_reaches_all<N>(
    nodes: Seq<N>,
    proposer_id: N,
    good: Set<N>,
    events: Seq<Event<N>>,
    value: Seq<u8>,
    id: N,
)
    requires
        0 < nodes.len() <= 256,
        nodes.no_duplicates(),
        good.subset_of(nodes.to_set()),
        3 * (nodes.len() - good.len()) < nodes.len(),
        Network::start(nodes, proposer_id, good).allows_all(events),
        Network::start(nodes, proposer_id, good).is_faithful_all(events),
        Network::start(nodes, proposer_id, good).after_all(events).is_quiet(),
        good.contains(proposer_id),
        good.contains(id),
        Network::start(nodes, proposer_id, good).after_all(events).good[proposer_id].inputs
            == set![value],
        !hashes_clash(),
    ensures
        ({
            let node = Network::start(nodes, proposer_id, good).after_all(events).good[id];
            node.state.decided && node.produced() == seq![value]
        }),
{
    let net = Network::start(nodes, proposer_id, good).after_all(events);
    let data = data_shard_count(nodes.len());
    let parity = parity_shard_count(nodes.len());
    lemma_run(nodes, proposer_id, good, events);
    assert(net.good.contains_key(id));
    lemma_leaves(value, data, parity);
    let leaves = Network::start(nodes, proposer_id, good).leaves_of(value);
    assert(leaves == leaves_of(value, data, parity));
    assert(net.leaves_of(value) == leaves);
    if has_twins(leaves) {
        law_twins_clash(value, data, parity);
    }
    law_good_proposer(nodes, proposer_id, good, events, value, id);
    lemma_not_betrayed(net, id, leaves);
}

/// If less than a third of the nodes are faulty and hashes do not clash, then all good nodes have
/// output the same value when all messages between them have been received, or none has output any,
/// whoever the proposer is.
pub proof fn law_value_reaches_all_or_none<N>(
    nodes: Seq<N>,
    proposer_id: N,
    good: Set<N>,
    events: Seq<Event<N>>,
    a: N,
    b: N,
)
    requires
        0 < nodes.len() <= 256,
        nodes.no_duplicates(),
        good.subset_of(nodes.to_set()),
        3 * (nodes.len() - good.len()) < nodes.len(),
        Network::start(nodes, proposer_id, good).allows_all(events),
        Network::start(nodes, proposer_id, good).is_faithful_all(events),
        Network::start(nodes, proposer_id, good).after_all(events).is_quiet(),
        good.contains(a),
        good.contains(b),
        !hashes_clash(),
    ensures
        ({
            let net = Network::start(nodes, proposer_id, good).after_all(events);
            &&& net.good[a].produced() == net.good[b].produced()
            &&& net.good[a].state.decided == net.good[b].state.decided
        }),
{
    let net = Network::start(nodes, proposer_id, good).after_all(events);
    lemma_run(nodes, proposer_id, good, events);
    assert(net.good.contains_key(a) && net.good.contains_key(b));
    if net.good[a].state.decided {
        law_totality(nodes, proposer_id, good, events, a, b);
    }
    if net.good[b].state.decided {
        law_totality(nodes, proposer_id, good, events, b, a);
    }
    if net.good[a].produced().len() > 0 {
        law_all_or_none(nodes, proposer_id, good, events, a, b);
        lemma_not_betrayed(net, b, net.good[a].rebuilt());
    } else if net.good[b].produced().len() > 0 {
        law_all_or_none(nodes, proposer_id, good, events, b, a);
        lemma_not_betrayed(net, a, net.good[b].rebuilt());
    } else {
        assert(net.good[a].produced() =~= net.good[b].produced());
    }
}

/// If less than a third of the nodes are faulty and hashes do not clash, then good nodes never
/// output different values, whatever has been received.
pub proof fn law_outputs_agree<N>(
    nodes: Seq<N>,
    proposer_id: N,
    good: Set<N>,
    events: Seq<Event<N>>,
    a: N,
    b: N,
)
    requires
        0 < nodes.len() <= 256,
        nodes.no_duplicates(),
        good.subset_of(nodes.to_set()),
        3 * (nodes.len() - good.len()) < nodes.len(),
        Network::start(nodes, proposer_id, good).allows_all(events),
        good.contains(a),
        good.contains(b),
        Network::start(nodes, proposer_id, good).after_all(events).good[a].produced().len() > 0,
        Network::start(nodes, proposer_id, good).after_all(events).good[b].produced().len() > 0,
        !hashes_clash(),
    ensures
        ({
            let net = Network::start(nodes, proposer_id, good).after_all(events);
            net.good[a].produced() == net.good[b].produced()
        }),
{
    let net = Network::start(nodes, proposer_id, good).after_all(events);
    lemma_run(nodes, proposer_id, good, events);
    assert(net.good.contains_key(a) && net.good.contains_key(b));
    law_agreement(nodes, proposer_id, good, events, a, b);
    if collide(net.good[a].rebuilt(), net.good[b].rebuilt()) {
        law_roots_clash(net.good[a].rebuilt(), net.good[b].rebuilt());
    }
}

/// If less than a third of the nodes are faulty, the proposer is good and hashes do not clash, then
/// no good node ever outputs anything but the proposed value, and every good node can handle
/// whatever happens.
pub proof fn law_good_run<N>(
    nodes: Seq<N>,
    proposer_id: N,
    good: Set<N>,
    events: Seq<Event<N>>,
    event: Event<N>,
    value: Seq<u8>,
    id: N,
)
    requires
        0 < nodes.len() <= 256,
        nodes.no_duplicates(),
        good.subset_of(nodes.to_set()),
        3 * (nodes.len() - good.len()) < nodes.len(),
        Network::start(nodes, proposer_id, good).allows_all(events),
        Network::start(nodes, proposer_id, good).after_all(events).allows(event),
        good.contains(proposer_id),
        good.contains(id),
        Network::start(nodes, proposer_id, good).after_all(events).good[proposer_id].inputs
            == set![value],
        event.call matches Call::Input(v) ==> v == value,
        !hashes_clash(),
    ensures
        ({
            let net = Network::start(nodes, proposer_id, good).after_all(events);
            &&& net.good[id].produced().len() > 0 ==> net.good[id].produced() == seq![value]
            &&& net.admits(event)
        }),
{
    let net = Network::start(nodes, proposer_id, good).after_all(events);
    let leaves = net.leaves_of(value);
    lemma_run(nodes, proposer_id, good, events);
    lemma_leaves(value, data_shard_count(nodes.len()), parity_shard_count(nodes.len()));
    assert(net.good.contains_key(id) && net.good.contains_key(proposer_id));
    if net.good[id].produced().len() > 0 {
        law_validity(nodes, proposer_id, good, events, value, id);
        if collide(net.good[id].rebuilt(), leaves) {
            law_roots_clash(net.good[id].rebuilt(), leaves);
        }
    }
    assert(net.after(event).good[proposer_id].inputs.subset_of(set![value]));
    law_good_run_admitted(nodes, proposer_id, good, events, event, value);
    let rebuilt = net.rebuilt_after(event, root_of(leaves));
    if collide(rebuilt, leaves) {
        law_nothing_taken_back(net.good[event.node], event.call);
        law_roots_clash(rebuilt, leaves);
    }
}

/// Faulty nodes may send anything to anyone, what a good node has sent may come to everyone it is
/// meant for at any time and more than once, and a good node may be called at any time.
pub proof fn law_anything_can_happen<N>(
    net: Network<N>,
    id: N,
    sender: N,
    content: Content,
    value: Seq<u8>,
    i: int,
)
    requires
        net.good.contains_key(id),
        net.nodes.contains(sender),
    ensures
        net.allows(Event { node: id, call: Call::Input(value) }),
        net.allows(Event { node: id, call: Call::NextMessage }),
        net.allows(Event { node: id, call: Call::NextOutput }),
        !net.good.contains_key(sender) ==> net.allows(
            Event { node: id, call: Call::Message(sender, content) },
        ),
        ({
            let sent = net.good[sender].sent;
            0 <= i < sent.len() && (sent[i].target == Target::<N>::All || sent[i].target
                == Target::Node(id)) && sent[i].message == content ==> net.allows(
                Event { node: id, call: Call::Message(sender, content) },
            )
        }),
{
    let sent = net.good[sender].sent;
    if 0 <= i < sent.len() && (sent[i].target == Target::<N>::All || sent[i].target
        == Target::Node(id)) {
        assert(reaches(sent[i].target, id));
    }
}

/// A network is quiet if the good nodes have nothing more to send, and each of them has received
/// what the other good nodes have sent to it or to all.
pub proof fn law_quiet<N>(net: Network<N>)
    requires
        forall|id: N| #[trigger]
            net.good.contains_key(id) ==> net.good[id].state.messages.len() == 0,
        forall|id: N, sender: N, i: int|
            #![trigger net.good.contains_key(id), net.good[sender].sent[i]]
            id != sender && net.good.contains_key(id) && net.good.contains_key(sender) && 0 <= i
                < net.good[sender].sent.len() && (net.good[sender].sent[i].target
                == Target::<N>::All || net.good[sender].sent[i].target == Target::Node(id))
                ==> net.received.contains((id, sender, net.good[sender].sent[i].message)),
    ensures
        net.is_quiet(),
{
    assert forall|id: N, sender: N, i: int|
        id != sender && net.good.contains_key(id) && net.good.contains_key(sender) && 0 <= i
            < net.good[sender].sent.len() && #[trigger] reaches(
            (#[trigger] net.good[sender].sent[i]).target,
            id,
        ) implies net.received.contains((id, sender, net.good[sender].sent[i].message)) by {
        assert(net.good.contains_key(id));
    }
}

} // verus!
