//! The reliable broadcast algorithm, as one node runs it.
use reed_solomon_erasure as rse;
use std::collections::{BTreeMap, BTreeSet, VecDeque};
use std::fmt::Debug;
use vstd::prelude::*;
use vstd::slice::slice_to_vec;

use crate::coding::{optional_views, Coding};
use crate::ids::{ascending, copy_id, in_order, lawful_id, list_ids, same_id};
use crate::meaning::{law_first_input_admitted, law_fits, law_input_admitted};
use crate::messaging::{DistAlgorithm, Target, TargetedMessage};
use crate::node::law_replay_ignored;
use crate::protocol::{
    law_shares_sound, lemma_admits_value, lemma_brings_back, lemma_same_value, lemma_value_echoed,
    proofs_of, Content, State,
};
use crate::shards::{
    cut_value, decode_whole, is_decodable, leaves_of, lemma_leaves, lemma_shard_len, number_shards,
    shard_len,
};
use crate::tally::{count_echos_in, count_readys_in, leaf_values_in};
use crate::tree::{
    leaf_hash, root_of, tree_algorithm, tree_from_vec, tree_gen_proof, tree_leaves, tree_values,
    views, InclusionProof, ProofContents,
};

verus! {

/// Errors returned by the broadcast instance.
#[derive(Debug)]
pub enum Error {
    RootHashMismatch,
    Threading,
    ProofConstructionFailed,
    ReedSolomon(rse::Error),
    InstanceCannotPropose,
    NotImplemented,
    UnknownSender,
}

impl Clone for Error {
    fn clone(&self) -> (r: Error)
        ensures
            r == *self,
    {
        match self {
            Error::RootHashMismatch => Error::RootHashMismatch,
            Error::Threading => Error::Threading,
            Error::ProofConstructionFailed => Error::ProofConstructionFailed,
            Error::ReedSolomon(err) => Error::ReedSolomon(*err),
            Error::InstanceCannotPropose => Error::InstanceCannotPropose,
            Error::NotImplemented => Error::NotImplemented,
            Error::UnknownSender => Error::UnknownSender,
        }
    }
}

impl From<rse::Error> for Error {
    fn from(err: rse::Error) -> (r: Error) {
        Error::ReedSolomon(err)
    }
}

impl vstd::std_specs::convert::FromSpecImpl<rse::Error> for Error {
    open spec fn obeys_from_spec() -> bool {
        true
    }

    open spec fn from_spec(err: rse::Error) -> Error {
        Error::ReedSolomon(err)
    }
}

/// The three kinds of message sent during the reliable broadcast stage of the consensus algorithm.
#[derive(Debug, PartialEq)]
pub enum BroadcastMessage {
    Value(InclusionProof),
    Echo(InclusionProof),
    Ready(Vec<u8>),
}

impl View for BroadcastMessage {
    type V = Content;

    open spec fn view(&self) -> Content {
        match self {
            BroadcastMessage::Value(p) => Content::Value(p@),
            BroadcastMessage::Echo(p) => Content::Echo(p@),
            BroadcastMessage::Ready(hash) => Content::Ready(hash@),
        }
    }
}

impl Clone for BroadcastMessage {
    fn clone(&self) -> (r: BroadcastMessage)
        ensures
            r@ == self@,
    {
        match self {
            BroadcastMessage::Value(p) => BroadcastMessage::Value(p.clone()),
            BroadcastMessage::Echo(p) => BroadcastMessage::Echo(p.clone()),
            BroadcastMessage::Ready(hash) => BroadcastMessage::Ready(hash.clone()),
        }
    }
}

/// Reliable Broadcast algorithm instance.
///
/// The Reliable Broadcast Protocol assumes a network of `N` nodes that send signed messages to each
/// other, with at most `f` of them malicious, where `3 * f < N`. Handling the networking and
/// signing is the responsibility of this crate's user: only when a message has been verified to be
/// "from node i", it can be handed to the `Broadcast` instance. One of the nodes is the "proposer"
/// who sends a value. Under the above conditions, the protocol guarantees that either all or none
/// of the good nodes output a value, and that if the proposer is good, all good nodes output the
/// proposed value.
///
/// The algorithm works as follows:
///
/// * The proposer uses a Reed-Solomon code to split the value into `N` chunks, `f + 1` of which
/// suffice to reconstruct the value. These chunks are put into a Merkle tree, so that with the
/// tree's root hash `h`, branch `bi` and chunk `si`, the `i`-th chunk `si` can be verified by
/// anyone to belong to the Merkle tree with root hash `h`. These values are "proof" number `i`:
/// `pi`.
/// * The proposer sends `Value(pi)` to node `i`. It means: "I am the proposer, and `pi` contains the
/// `i`-th share of my value."
/// * Every (good) node that receives `Value(pi)` from the proposer sends it on to everyone else as
/// `Echo(pi)`. An `Echo` means: "I have received `pi` directly from the proposer." If the proposer
/// sends another `Value` message, that is ignored.
/// * So every node that has received at least `f + 1` `Echo` messages with the same root hash will
/// be able to decode a value.
/// * Every node that has received `N - f` `Echo`s with the same root hash from different nodes knows
/// that at least `f + 1` _good_ nodes have sent an `Echo` with that hash to everyone, and therefore
/// everyone will eventually receive at least `f + 1` of them. So upon receiving `N - f` `Echo`s,
/// they send a `Ready(h)` to everyone to indicate that. `Ready` means: "I know that everyone will
/// eventually be able to decode the value." Moreover, since every good node only ever sends one
/// kind of `Echo` message, this cannot happen for two different root hashes.
/// * Even without enough `Echo` messages, if a node receives `f + 1` `Ready` messages, it knows that
/// at least one _good_ node has sent `Ready`. It therefore also knows that everyone will be able to
/// decode eventually, and multicasts `Ready` itself.
/// * If a node has received `2 * f + 1` `Ready`s (with matching root hash) from different nodes, its
/// own among them, it knows that at least `f + 1` _good_ nodes have sent it. Therefore, every good
/// node will eventually receive `f + 1`, and multicast it itself. Therefore, every good node will
/// eventually receive `2 * f + 1` `Ready`s, too. _And_ we know at this point that every good node
/// will eventually be able to decode (i.e. receive at least `f + 1` `Echo` messages).
/// * So a node with `2 * f + 1` `Ready`s and `f + 1` `Echo`s will decode and _output_ the value,
/// knowing that every other good node will eventually do the same. If the proposer has put chunks
/// into the tree that do not belong together, it finds that out, and so does every other good node.
pub struct Broadcast<N> {
    /// The UID of this node.
    our_id: N,
    /// The UID of the sending node.
    proposer_id: N,
    /// UIDs of all nodes for iteration purposes.
    all_uids: BTreeSet<N>,
    num_nodes: usize,
    num_faulty_nodes: usize,
    data_shard_num: usize,
    coding: Coding,
    /// Whether we have already multicast `Echo`.
    echo_sent: bool,
    /// Whether we have already multicast `Ready`.
    ready_sent: bool,
    /// Whether we have already output a value.
    decided: bool,
    /// The proofs we have received via `Echo` messages, by sender ID.
    echos: BTreeMap<N, InclusionProof>,
    /// The root hashes we received via `Ready` messages, by sender ID.
    readys: BTreeMap<N, Vec<u8>>,
    /// The outgoing message queue.
    messages: VecDeque<TargetedMessage<BroadcastMessage, N>>,
    /// The output, if any.
    output: Option<Vec<u8>>,
}

/// What the queued messages say.
pub open spec fn contents_of<N>(
    messages: Seq<TargetedMessage<BroadcastMessage, N>>,
) -> Seq<TargetedMessage<Content, N>> {
    messages.map_values(
        |m: TargetedMessage<BroadcastMessage, N>|
            TargetedMessage { target: m.target, message: m.message@ },
    )
}

/// The bytes of the output, if there is any.
pub open spec fn output_held(output: Option<Vec<u8>>) -> Option<Seq<u8>> {
    match output {
        Some(value) => Some(value@),
        None => None,
    }
}

/// What the proofs hold.
spec fn proofs_held<N>(echos: Map<N, InclusionProof>) -> Map<N, ProofContents> {
    echos.map_values(|p: InclusionProof| p@)
}

/// The bytes of the hashes.
spec fn hashes_held<N>(readys: Map<N, Vec<u8>>) -> Map<N, Seq<u8>> {
    readys.map_values(|h: Vec<u8>| h@)
}

/// What the proofs hold, one after the other.
pub open spec fn held(proofs: Seq<InclusionProof>) -> Seq<ProofContents> {
    proofs.map_values(|p: InclusionProof| p@)
}

impl<N: Eq + Debug + Clone + Ord> Broadcast<N> {
    /// What this node knows.
    pub closed spec fn view(&self) -> State<N> {
        State {
            our_id: self.our_id,
            proposer_id: self.proposer_id,
            nodes: in_order(self.all_uids@),
            echo_sent: self.echo_sent,
            ready_sent: self.ready_sent,
            decided: self.decided,
            echos: proofs_held(self.echos@),
            readys: hashes_held(self.readys@),
            messages: contents_of(self.messages@),
            output: output_held(self.output),
        }
    }

    /// What this node knows is what the messages and the output that it has pending say, and what
    /// it is without the messages.
    pub proof fn law_pending(&self)
        ensures
            contents_of(self.pending()) == self@.messages,
            output_held(self.pending_output()) == self@.output,
            self.without_messages()@ == (State {
                messages: self.without_messages()@.messages,
                ..self@
            }),
    {
    }

    /// The numbers of nodes and shards agree with the set of IDs, and the IDs behave.
    pub closed spec fn consistent(&self) -> bool {
        &&& lawful_id::<N>()
        &&& self@.nodes.to_set() == self.all_uids@
        &&& self@.nodes.no_duplicates()
        &&& 0 < self@.total() <= 256
        &&& self.num_nodes == self@.total()
        &&& self.num_faulty_nodes == self@.faulty()
        &&& self.data_shard_num == self@.data()
        &&& self.coding.wf()
        &&& self.coding.data_shards() == self@.data()
        &&& self.coding.parity_shards() == self@.parity()
    }

    /// Creates a new broadcast instance to be used by node `our_id` which expects a value proposal
    /// from node `proposer_id`.
    pub fn new(our_id: N, proposer_id: N, all_uids: BTreeSet<N>) -> (r: Result<Broadcast<N>, Error>)
        requires
            lawful_id::<N>(),
            all_uids@.len() > 0,
        ensures
            match r {
                Ok(broadcast) => {
                    &&& all_uids@.len() <= 256
                    &&& broadcast.wf()
                    &&& broadcast@ == State::initial(our_id, proposer_id, in_order(all_uids@))
                    &&& ascending(broadcast@.nodes)
                    &&& broadcast@.nodes.no_duplicates()
                    &&& broadcast@.nodes.to_set() == all_uids@
                    &&& broadcast@.total() == all_uids@.len()
                },
                Err(e) => all_uids@.len() > 256 && e == Error::ReedSolomon(
                    rse::Error::TooManyShards,
                ),
            },
    {
        let ids = list_ids(&all_uids);
        let num_nodes: usize = ids.len();
        let num_faulty_nodes: usize = (num_nodes - 1) / 3;
        let data_shard_num: usize = num_faulty_nodes + 1;
        let parity_shard_num: usize = num_nodes - data_shard_num;
        let coding = match Coding::new(data_shard_num, parity_shard_num) {
            Ok(coding) => coding,
            Err(e) => return Err(e),
        };
        let broadcast = Broadcast {
            our_id,
            proposer_id,
            all_uids,
            num_nodes,
            num_faulty_nodes,
            data_shard_num,
            coding,
            echo_sent: false,
            ready_sent: false,
            decided: false,
            echos: BTreeMap::new(),
            readys: BTreeMap::new(),
            messages: VecDeque::new(),
            output: None,
        };
        proof {
            let initial = State::initial(our_id, proposer_id, in_order(all_uids@));
            assert(broadcast@.echos =~= initial.echos);
            assert(broadcast@.readys =~= initial.readys);
            assert(broadcast@.messages =~= initial.messages);
        }
        Ok(broadcast)
    }

    /// Returns `i` if `node_id` is the `i`-th ID among all participating nodes.
    fn index_of_node(&self, node_id: &N) -> (r: Option<usize>)
        requires
            self.consistent(),
        ensures
            match r {
                Some(i) => i < self@.total() && self@.nodes[i as int] == *node_id,
                None => !self@.nodes.contains(*node_id),
            },
    {
        let ids = list_ids(&self.all_uids);
        let mut i: usize = 0;
        while i < ids.len()
            invariant
                self.consistent(),
                i <= ids.len(),
                ids@.unref() == self@.nodes,
                forall|j: int| 0 <= j < i ==> self@.nodes[j] != *node_id,
            decreases ids.len() - i,
        {
            assert(ids@.unref()[i as int] == *ids@[i as int]);
            if same_id(ids[i], node_id) {
                return Some(i);
            }
            i += 1;
        }
        None
    }

    /// Returns `true` if a valid proof of `value`, whose branch leads to the place `index`, is one
    /// that the node `id` can have sent: both have to give the node's own place.
    pub fn is_in_place(&self, value: &Vec<u8>, index: usize, id: &N) -> (r: bool)
        requires
            self.consistent(),
        ensures
            r == (value.len() > 0 && value@[0] < self@.total() && self@.nodes[value@[0] as int]
                == *id && index == value@[0]),
    {
        if value.len() == 0 {
            return false;
        }
        let place: usize = value[0] as usize;
        match self.index_of_node(id) {
            Some(i) => {
                assert(self@.nodes.no_duplicates());
                i == place && index == place
            },
            None => {
                assert(self@.nodes.no_duplicates());
                false
            },
        }
    }

    /// Returns `true` if the proof is valid and has the same index as the node ID.
    fn validate_proof(&self, p: &InclusionProof, id: &N) -> (r: bool)
        requires
            self.consistent(),
        ensures
            r == self@.accepts(p@, *id),
    {
        if !p.is_proven() {
            false
        } else {
            self.is_in_place(p.value(), p.index(self.num_nodes), id)
        }
    }

    /// Returns the number of nodes that have sent us an `Echo` message with this hash.
    fn count_echos(&self, hash: &[u8]) -> (r: usize)
        requires
            self.consistent(),
        ensures
            r == self@.echoers(hash@).len(),
    {
        let count: usize = count_echos_in(&self.echos, hash);
        assert(self@.echoers(hash@) =~= self.echos@.dom().filter(
            |id: N| self.echos@[id]@.root_hash == hash@,
        ));
        count
    }

    /// Returns the number of nodes that have sent us a `Ready` message with this hash.
    fn count_readys(&self, hash: &[u8]) -> (r: usize)
        requires
            self.consistent(),
        ensures
            r == self@.ready_senders(hash@).len(),
    {
        let count: usize = count_readys_in(&self.readys, hash);
        assert(self@.ready_senders(hash@) =~= self.readys@.dom().filter(
            |id: N| self.readys@[id]@ == hash@,
        ));
        count
    }

    /// Checks whether the condition for output are met for this hash, and if so, sets the output
    /// value.
    fn compute_output(&mut self, hash: &[u8]) -> (r: Result<(), Error>)
        requires
            old(self).consistent(),
            old(self)@.admits_conclusion(hash@),
        ensures
            final(self).consistent(),
            final(self)@ == old(self)@.conclude(hash@).state,
            r == old(self)@.conclude(hash@).result,
            old(self)@.brings_back(final(self)@, hash@),
    {
        if self.decided || self.count_readys(hash) <= 2 * self.num_faulty_nodes
            || self.count_echos(hash) <= self.num_faulty_nodes {
            return Ok(());
        }
        // There are 2f + 1 matching Ready(h) messages, and f + 1 Echo messages.
        let leaf_values = leaf_values_in(&self.all_uids, &self.echos, hash);
        assert(optional_views(leaf_values@) =~= old(self)@.leaf_values(hash@));
        let decoded = decode_whole(leaf_values, &self.coding, self.data_shard_num, hash);
        self.decide(decoded)
    }

    /// Notes that the value has been decoded, or could not be, and sets it as the output.
    pub fn decide(&mut self, decoded: Result<Vec<u8>, Error>) -> (r: Result<(), Error>)
        requires
            old(self).consistent(),
        ensures
            final(self).consistent(),
            match decoded {
                Ok(value) => r == Ok::<(), Error>(()) && final(self)@ == (State {
                    decided: true,
                    output: Some(value@),
                    ..old(self)@
                }),
                Err(e) => r == Err::<(), Error>(e) && final(self)@ == (State {
                    decided: true,
                    ..old(self)@
                }),
            },
    {
        self.decided = true;
        match decoded {
            Ok(value) => {
                self.output = Some(value);
                Ok(())
            },
            Err(e) => Err(e),
        }
    }

    /// Handles a received `Ready` message.
    fn handle_ready(&mut self, sender_id: &N, hash: &[u8]) -> (r: Result<(), Error>)
        requires
            old(self).consistent(),
            old(self)@.admits_ready(*sender_id, hash@),
        ensures
            final(self).consistent(),
            final(self)@ == old(self)@.on_ready(*sender_id, hash@).state,
            r == old(self)@.on_ready(*sender_id, hash@).result,
            old(self)@.brings_back(final(self)@, hash@),
    {
        // If the sender has already sent a `Ready` before, ignore.
        if self.readys.contains_key(sender_id) {
            return Ok(());
        }
        let ghost before = self@;
        self.readys.insert(copy_id(sender_id), slice_to_vec(hash));
        let ghost recorded = before.record_ready(*sender_id, hash@);
        assert(self@.readys =~= recorded.readys);
        assert(self@ == recorded);
        // Upon receiving f + 1 matching Ready(h) messages, if Ready
        // has not yet been sent, multicast Ready(h).
        if self.count_readys(hash) == self.num_faulty_nodes + 1 && !self.ready_sent {
            let r = self.become_ready(hash);
            proof {
                lemma_brings_back(before, recorded, self@, self@, hash@);
            }
            return r;
        }
        self.compute_output(hash)
    }

    /// Multicasts a `Ready` message, and counts it as received.
    fn become_ready(&mut self, hash: &[u8]) -> (r: Result<(), Error>)
        requires
            old(self).consistent(),
            old(self)@.admits_becoming_ready(hash@),
        ensures
            final(self).consistent(),
            final(self)@ == old(self)@.become_ready(hash@).state,
            r == old(self)@.become_ready(hash@).result,
            old(self)@.brings_back(final(self)@, hash@),
    {
        let ghost before = self@;
        self.ready_sent = true;
        let ready_msg = Target::All.message(BroadcastMessage::Ready(slice_to_vec(hash)));
        self.messages.push_back(ready_msg);
        assert(self@.messages =~= before.send_ready(hash@).messages);
        assert(self@ == before.send_ready(hash@));
        if !self.readys.contains_key(&self.our_id) {
            self.readys.insert(copy_id(&self.our_id), slice_to_vec(hash));
            assert(self@.readys =~= before.readys.insert(before.our_id, hash@));
        }
        let ghost sent = self@;
        let r = self.compute_output(hash);
        proof {
            lemma_brings_back(before, sent, self@, self@, hash@);
        }
        r
    }

    /// Handles a received `Echo` message.
    fn handle_echo(&mut self, sender_id: &N, p: InclusionProof) -> (r: Result<(), Error>)
        requires
            old(self).consistent(),
            old(self)@.admits_echo(*sender_id, p@),
        ensures
            final(self).consistent(),
            final(self)@ == old(self)@.on_echo(*sender_id, p@).state,
            r == old(self)@.on_echo(*sender_id, p@).result,
            old(self)@.brings_back(final(self)@, p@.root_hash),
    {
        // If the proof is invalid or the sender has already sent `Echo`, ignore.
        if self.echos.contains_key(sender_id) {
            return Ok(());
        }
        if !self.validate_proof(&p, sender_id) {
            return Ok(());
        }
        let ghost before = self@;
        let ghost recorded = before.record_echo(*sender_id, p@);
        let hash = slice_to_vec(p.root_hash().as_slice());
        // Save the proof for reconstructing the tree later.
        self.echos.insert(copy_id(sender_id), p);
        assert(self@.echos =~= recorded.echos);
        assert(self@ == recorded);
        if self.ready_sent || self.count_echos(hash.as_slice()) < self.num_nodes
            - self.num_faulty_nodes {
            return self.compute_output(hash.as_slice());
        }
        // Upon receiving `N - f` `Echo`s with this root hash, multicast `Ready`.
        let r = self.become_ready(hash.as_slice());
        proof {
            lemma_brings_back(before, recorded, self@, self@, hash@);
        }
        r
    }

    /// Handles a received value and verifies the proof it contains.
    fn handle_value(&mut self, sender_id: &N, p: InclusionProof) -> (r: Result<(), Error>)
        requires
            old(self).consistent(),
            old(self)@.admits_value(*sender_id, p@),
        ensures
            final(self).consistent(),
            final(self)@ == old(self)@.on_value(*sender_id, p@).state,
            r == old(self)@.on_value(*sender_id, p@).result,
            old(self)@.brings_back(final(self)@, p@.root_hash),
    {
        // If the sender is not the proposer, this is not the first `Value` or the proof is invalid,
        // ignore.
        if !same_id(sender_id, &self.proposer_id) {
            return Ok(());
        }
        if self.echo_sent {
            return Ok(());
        }
        if !self.validate_proof(&p, &self.our_id) {
            return Ok(());
        }
        // Otherwise multicast the proof in an `Echo` message, and handle it ourselves.
        self.echo_sent = true;
        let our_id = copy_id(&self.our_id);
        let ghost noted = self@;
        let r = self.handle_echo(&our_id, p.clone());
        let ghost echoed = self@;
        let echo_msg = Target::All.message(BroadcastMessage::Echo(p));
        self.messages.push_back(echo_msg);
        assert(self@.messages =~= echoed.enqueue(Target::All, Content::Echo(p@)).messages);
        proof {
            lemma_brings_back(old(self)@, noted, echoed, self@, p@.root_hash);
        }
        r
    }

    /// The value, with the length in front and padded to fill its shards, is not too long to be
    /// held in memory.
    pub open spec fn fits(&self, value: Seq<u8>) -> bool {
        shard_len(value.len() + 1, self@.data()) * self@.total() <= usize::MAX
    }

    /// Breaks the value into shards of equal length and encodes them -- and some extra parity
    /// shards -- with a Reed-Solomon erasure coding scheme. Returns the proofs for the leaves of
    /// the Merkle tree that the shards make up.
    fn prove_shards(&self, value: Vec<u8>) -> (r: Result<Vec<InclusionProof>, Error>)
        requires
            self.consistent(),
            self.fits(value@),
        ensures
            r matches Ok(proofs) && held(proofs@) == proofs_of(
                leaves_of(value@, self@.data(), self@.parity()),
            ),
            self@.shares_sound(value@),
    {
        let ghost given = value@;
        let data_shard_num: usize = self.coding.data_shard_count();
        let parity_shard_num: usize = self.coding.parity_shard_count();
        // Divide the vector into chunks/shards.
        let mut shards = cut_value(value, data_shard_num, parity_shard_num);
        proof {
            lemma_leaves(given, self@.data(), self@.parity());
        }
        // Construct the parity chunks/shards
        if let Err(e) = self.coding.encode(&mut shards) {
            return Err(e);
        }
        // The tree proves the wrong leaf if one occurs more than once, so we prepend an "index
        // byte" to each shard.
        let leaves = number_shards(shards);
        let ghost all = leaves_of(given, self@.data(), self@.parity());
        assert(views(leaves@) == all);
        let mtree = tree_from_vec(leaves);
        let values = tree_values(&mtree);
        let mut proofs: Vec<InclusionProof> = Vec::new();
        let mut i: usize = 0;
        while i < values.len()
            invariant
                i <= values.len(),
                views(values@) == all,
                tree_leaves(mtree) == all,
                tree_algorithm(mtree) is Sha256,
                held(proofs@) == proofs_of(all).take(i as int),
            decreases values.len() - i,
        {
            assert(all[i as int] == values@[i as int]@);
            let leaf = slice_to_vec(values[i].as_slice());
            match tree_gen_proof(&mtree, leaf) {
                Some(proof) => {
                    let ghost entry = proof@;
                    assert(entry == proofs_of(all)[i as int]);
                    let ghost before = held(proofs@);
                    proofs.push(proof);
                    assert(held(proofs@) =~= before.push(entry));
                    assert(proofs_of(all).take(i + 1) =~= proofs_of(all).take(i as int).push(entry));
                },
                None => {
                    assert(leaf_hash(tree_leaves(mtree)[i as int]) == leaf_hash(all[i as int]));
                    return Err(Error::ProofConstructionFailed);
                },
            }
            i += 1;
        }
        assert(proofs_of(all).take(values.len() as int) =~= proofs_of(all));
        proof {
            law_shares_sound(self@, given);
        }
        Ok(proofs)
    }

    /// Sends each proof to the node in its place. The returned value is the proof assigned to this
    /// node. That proof doesn't need to be sent anywhere.
    pub fn distribute(&mut self, proofs: Vec<InclusionProof>) -> (r: Result<InclusionProof, Error>)
        requires
            old(self).consistent(),
            proofs.len() == old(self)@.total(),
        ensures
            final(self).consistent(),
            final(self)@ == old(self)@.distribute(held(proofs@)),
            match r {
                Ok(p) => exists|i: int|
                    #![trigger proofs@[i]]
                    0 <= i < old(self)@.total() && old(self)@.nodes[i] == old(self)@.our_id && p@
                        == proofs@[i]@,
                Err(e) => !old(self)@.nodes.contains(old(self)@.our_id) && e
                    == Error::ProofConstructionFailed,
            },
    {
        let mut result: Result<InclusionProof, Error> = Err(Error::ProofConstructionFailed);
        let ghost before = self@;
        let ghost all = before.nodes.map(
            |i: int, id: N|
                TargetedMessage {
                    target: Target::Node(id),
                    message: Content::Value(held(proofs@)[i]),
                },
        );
        let ghost elsewhere = |m: TargetedMessage<Content, N>| m.target != Target::Node(
            before.our_id,
        );
        let ids = list_ids(&self.all_uids);
        let mut i: usize = 0;
        assert(all.take(0).filter(elsewhere) =~= Seq::empty()) by {
            reveal(Seq::filter);
        }
        while i < proofs.len()
            invariant
                self.consistent(),
                before == old(self)@,
                proofs.len() == before.total(),
                ids@.unref() == before.nodes,
                i <= proofs.len(),
                all == before.nodes.map(
                    |i: int, id: N|
                        TargetedMessage {
                            target: Target::Node(id),
                            message: Content::Value(held(proofs@)[i]),
                        },
                ),
                elsewhere == |m: TargetedMessage<Content, N>| m.target != Target::Node(
                    before.our_id,
                ),
                self@ == (State {
                    messages: before.messages + all.take(i as int).filter(elsewhere),
                    ..before
                }),
                match result {
                    Ok(p) => exists|j: int|
                        #![trigger proofs@[j]]
                        0 <= j < i && before.nodes[j] == before.our_id && p@ == proofs@[j]@,
                    Err(e) => e == Error::ProofConstructionFailed && forall|j: int|
                        0 <= j < i ==> before.nodes[j] != before.our_id,
                },
            decreases proofs.len() - i,
        {
            assert(ids@.unref()[i as int] == *ids@[i as int]);
            let uid = copy_id(ids[i]);
            assert(all.take(i + 1).drop_last() =~= all.take(i as int));
            assert(all.take(i + 1).last() == all[i as int]);
            let ghost sent = self@.messages;
            if same_id(&uid, &self.our_id) {
                // The proof is addressed to this node.
                result = Ok(proofs[i].clone());
                assert(all.take(i + 1).filter(elsewhere) == all.take(i as int).filter(elsewhere))
                    by {
                    reveal(Seq::filter);
                }
            } else {
                // Rest of the proofs are sent to remote nodes.
                let msg = Target::Node(uid).message(BroadcastMessage::Value(proofs[i].clone()));
                self.messages.push_back(msg);
                assert(self@.messages =~= sent.push(all[i as int]));
                assert(all.take(i + 1).filter(elsewhere) == all.take(i as int).filter(
                    elsewhere,
                ).push(all[i as int])) by {
                    reveal(Seq::filter);
                }
                assert(self@.messages =~= before.messages + all.take(i + 1).filter(elsewhere));
            }
            i += 1;
        }
        assert(all.take(proofs.len() as int) =~= all);
        assert(before.distribute(held(proofs@)).messages == self@.messages);
        result
    }

    /// Breaks the input value into shards of equal length and encodes them -- and some extra parity
    /// shards -- with a Reed-Solomon erasure coding scheme. The returned value contains the shard
    /// assigned to this node. That shard doesn't need to be sent anywhere. It gets recorded in the
    /// broadcast instance.
    fn send_shards(&mut self, value: Vec<u8>) -> (r: Result<InclusionProof, Error>)
        requires
            old(self).consistent(),
            old(self).fits(value@),
        ensures
            final(self).consistent(),
            ({
                let proofs = proofs_of(leaves_of(value@, old(self)@.data(), old(self)@.parity()));
                &&& final(self)@ == old(self)@.distribute(proofs)
                &&& match r {
                    Ok(p) => old(self)@.nodes.contains(old(self)@.our_id) && p@
                        == proofs[old(self)@.nodes.index_of(old(self)@.our_id)],
                    Err(e) => !old(self)@.nodes.contains(old(self)@.our_id) && e
                        == Error::ProofConstructionFailed,
                }
            }),
            old(self)@.shares_sound(value@),
    {
        proof {
            lemma_leaves(value@, self@.data(), self@.parity());
        }
        match self.prove_shards(value) {
            Ok(proofs) => {
                assert(held(proofs@).len() == self@.total());
                self.distribute(proofs)
            },
            Err(e) => Err(e),
        }
    }
}

impl<N: Eq + Debug + Clone + Ord> DistAlgorithm for Broadcast<N> {
    type NodeUid = N;

    type Input = Vec<u8>;

    type Output = Vec<u8>;

    type Message = BroadcastMessage;

    type Error = Error;

    open spec fn wf(&self) -> bool {
        &&& self.consistent()
        &&& contents_of(self.pending()) == self@.messages
        &&& output_held(self.pending_output()) == self@.output
    }

    open spec fn admits_input(&self, input: Vec<u8>) -> bool {
        self@.our_id == self@.proposer_id ==> self.fits(input@) && self@.admits_input(input@)
    }

    open spec fn admits_message(&self, sender_id: N, message: BroadcastMessage) -> bool {
        self@.admits_message(sender_id, message@)
    }

    closed spec fn pending(&self) -> Seq<TargetedMessage<BroadcastMessage, N>> {
        self.messages@
    }

    closed spec fn pending_output(&self) -> Option<Vec<u8>> {
        self.output
    }

    closed spec fn without_messages(&self) -> Broadcast<N> {
        Broadcast { messages: arbitrary(), ..*self }
    }

    open spec fn id(&self) -> N {
        self@.our_id
    }

    open spec fn is_terminated(&self) -> bool {
        self@.decided
    }

    fn input(&mut self, input: Vec<u8>) -> (r: Result<(), Error>)
        ensures
            final(self)@ == old(self)@.on_input(input@).state,
            r == old(self)@.on_input(input@).result,
            old(self)@.brings_back(
                final(self)@,
                root_of(leaves_of(input@, old(self)@.data(), old(self)@.parity())),
            ),
            old(self)@.our_id == old(self)@.proposer_id ==> old(self)@.shares_sound(input@),
    {
        if !same_id(&self.our_id, &self.proposer_id) {
            return Err(Error::InstanceCannotPropose);
        }
        // Split the value into chunks/shards, encode them with erasure codes.
        // Assemble a Merkle tree from data and parity shards. Take all proofs
        // from this tree and send them, each to its own node.
        let proof = match self.send_shards(input) {
            Ok(proof) => proof,
            Err(e) => return Err(e),
        };
        let our_id = copy_id(&self.our_id);
        let ghost sent = self@;
        let r = self.handle_value(&our_id, proof);
        proof {
            lemma_brings_back(old(self)@, sent, self@, self@, proof@.root_hash);
        }
        r
    }

    fn handle_message(&mut self, sender_id: &N, message: BroadcastMessage) -> (r: Result<(), Error>)
        ensures
            final(self)@ == old(self)@.on_message(*sender_id, message@).state,
            r == old(self)@.on_message(*sender_id, message@).result,
            old(self)@.brings_back(final(self)@, message@.root_hash()),
            final(self)@.on_message(*sender_id, message@).state == final(self)@,
            final(self)@.on_message(*sender_id, message@).result == if old(self)@.nodes.contains(
                *sender_id,
            ) {
                Ok::<(), Error>(())
            } else {
                Err(Error::UnknownSender)
            },
    {
        proof {
            law_replay_ignored(self@, *sender_id, message@);
        }
        if !self.all_uids.contains(sender_id) {
            return Err(Error::UnknownSender);
        }
        match message {
            BroadcastMessage::Value(p) => self.handle_value(sender_id, p),
            BroadcastMessage::Echo(p) => self.handle_echo(sender_id, p),
            BroadcastMessage::Ready(hash) => self.handle_ready(sender_id, hash.as_slice()),
        }
    }

    fn next_message(&mut self) -> (r: Option<TargetedMessage<BroadcastMessage, N>>)
        ensures
            match r {
                Some(m) => old(self)@.messages.len() > 0 && m.target == old(self)@.messages[0].target
                    && m.message@ == old(self)@.messages[0].message && final(self)@ == (State {
                    messages: old(self)@.messages.skip(1),
                    ..old(self)@
                }),
                None => old(self)@.messages.len() == 0 && final(self)@ == old(self)@,
            },
    {
        let r = self.messages.pop_front();
        proof {
            if r is Some {
                assert(self.messages@ =~= old(self).messages@.skip(1));
                assert(self@.messages =~= old(self)@.messages.skip(1));
            }
        }
        r
    }

    fn next_output(&mut self) -> (r: Option<Vec<u8>>)
        ensures
            match r {
                Some(value) => old(self)@.output == Some(value@),
                None => old(self)@.output is None,
            },
            final(self)@ == (State { output: None, ..old(self)@ }),
    {
        self.output.take()
    }

    fn terminated(&self) -> (r: bool)
        ensures
            r == self@.decided,
    {
        self.decided
    }

    fn our_id(&self) -> (r: &N)
        ensures
            *r == self@.our_id,
    {
        &self.our_id
    }
}

impl<N: Eq + Debug + Clone + Ord> Broadcast<N> {
    /// What this node would know if it had received these messages.
    spec fn supposing(&self, echos: Map<N, InclusionProof>, readys: Map<N, Vec<u8>>) -> State<N> {
        State { echos: proofs_held(echos), readys: hashes_held(readys), ..self@ }
    }

    /// Tells whether the output could be computed if these messages had been received.
    fn can_conclude(
        &self,
        echos: &BTreeMap<N, InclusionProof>,
        readys: &BTreeMap<N, Vec<u8>>,
        hash: &[u8],
    ) -> (r: bool)
        requires
            self.consistent(),
        ensures
            r == self.supposing(echos@, readys@).admits_conclusion(hash@),
            self.supposing(echos@, readys@).holds_value(hash@) ==> r,
    {
        let ghost state = self.supposing(echos@, readys@);
        let ready_count: usize = count_readys_in(readys, hash);
        let echo_count: usize = count_echos_in(echos, hash);
        proof {
            assert(state.ready_senders(hash@) =~= readys@.dom().filter(
                |id: N| readys@[id]@ == hash@,
            ));
            assert(state.echoers(hash@) =~= echos@.dom().filter(
                |id: N| echos@[id]@.root_hash == hash@,
            ));
        }
        if self.decided || ready_count <= 2 * self.num_faulty_nodes || echo_count
            <= self.num_faulty_nodes {
            return true;
        }
        let leaf_values = leaf_values_in(&self.all_uids, echos, hash);
        assert(optional_views(leaf_values@) =~= state.leaf_values(hash@));
        is_decodable(leaf_values, &self.coding, self.data_shard_num, hash)
    }

    /// Tells whether the node could become ready if these messages had been received.
    fn can_become_ready(
        &self,
        echos: &BTreeMap<N, InclusionProof>,
        readys: BTreeMap<N, Vec<u8>>,
        hash: &[u8],
    ) -> (r: bool)
        requires
            self.consistent(),
        ensures
            r == self.supposing(echos@, readys@).admits_becoming_ready(hash@),
            self.supposing(echos@, readys@).holds_value(hash@) ==> r,
    {
        let ghost state = self.supposing(echos@, readys@);
        let mut readys = readys;
        if !readys.contains_key(&self.our_id) {
            readys.insert(copy_id(&self.our_id), slice_to_vec(hash));
            assert(self.supposing(echos@, readys@).readys =~= state.record_ready(
                self@.our_id,
                hash@,
            ).readys);
        }
        self.can_conclude(echos, &readys, hash)
    }

    /// Tells whether a `Ready` message can be handled.
    fn can_handle_ready(&self, sender_id: &N, hash: &[u8]) -> (r: bool)
        requires
            self.consistent(),
        ensures
            r == self@.admits_ready(*sender_id, hash@),
            self@.on_ready(*sender_id, hash@).state.holds_value(hash@) ==> r,
    {
        if self.readys.contains_key(sender_id) {
            return true;
        }
        let mut readys = self.readys.clone();
        readys.insert(copy_id(sender_id), slice_to_vec(hash));
        let ghost recorded = self@.record_ready(*sender_id, hash@);
        assert(hashes_held(readys@) =~= recorded.readys);
        assert(self.supposing(self.echos@, readys@) == recorded);
        let ready_count: usize = count_readys_in(&readys, hash);
        assert(recorded.ready_senders(hash@) =~= readys@.dom().filter(
            |id: N| readys@[id]@ == hash@,
        ));
        if ready_count == self.num_faulty_nodes + 1 && !self.ready_sent {
            self.can_become_ready(&self.echos, readys, hash)
        } else {
            self.can_conclude(&self.echos, &readys, hash)
        }
    }

    /// Tells whether an `Echo` message can be handled.
    fn can_handle_echo(&self, sender_id: &N, p: &InclusionProof) -> (r: bool)
        requires
            self.consistent(),
        ensures
            r == self@.admits_echo(*sender_id, p@),
            self@.on_echo(*sender_id, p@).state.holds_value(p@.root_hash) ==> r,
    {
        if self.echos.contains_key(sender_id) || !self.validate_proof(p, sender_id) {
            return true;
        }
        let hash = p.root_hash().as_slice();
        let mut echos = self.echos.clone();
        echos.insert(copy_id(sender_id), p.clone());
        let ghost recorded = self@.record_echo(*sender_id, p@);
        assert(proofs_held(echos@) =~= recorded.echos);
        assert(self.supposing(echos@, self.readys@) == recorded);
        let echo_count: usize = count_echos_in(&echos, hash);
        assert(recorded.echoers(hash@) =~= echos@.dom().filter(
            |id: N| echos@[id]@.root_hash == hash@,
        ));
        if self.ready_sent || echo_count < self.num_nodes - self.num_faulty_nodes {
            self.can_conclude(&echos, &self.readys, hash)
        } else {
            self.can_become_ready(&echos, self.readys.clone(), hash)
        }
    }

    /// Tells whether a `Value` message can be handled.
    fn can_handle_value(&self, sender_id: &N, p: &InclusionProof) -> (r: bool)
        requires
            self.consistent(),
        ensures
            r == self@.admits_value(*sender_id, p@),
            self@.on_value(*sender_id, p@).state.holds_value(p@.root_hash) ==> r,
    {
        if !same_id(sender_id, &self.proposer_id) || self.echo_sent || !self.validate_proof(
            p,
            &self.our_id,
        ) {
            return true;
        }
        proof {
            lemma_value_echoed(self@, self@, *sender_id, p@);
            lemma_same_value(
                self@.on_value(*sender_id, p@).state,
                self@.on_echo(self@.our_id, p@).state,
                p@.root_hash,
            );
        }
        self.can_handle_echo(&self.our_id, p)
    }

    /// Tells whether a message can be handled: it must not complete a value that is shorter than it
    /// says itself.
    pub fn can_handle_message(&self, sender_id: &N, message: &BroadcastMessage) -> (r: bool)
        requires
            self.wf(),
        ensures
            r == self@.admits_message(*sender_id, message@),
            self@.on_message(*sender_id, message@).state.holds_value(message@.root_hash()) ==> r,
    {
        if !self.all_uids.contains(sender_id) {
            return true;
        }
        match message {
            BroadcastMessage::Value(p) => self.can_handle_value(sender_id, p),
            BroadcastMessage::Echo(p) => self.can_handle_echo(sender_id, p),
            BroadcastMessage::Ready(hash) => self.can_handle_ready(sender_id, hash.as_slice()),
        }
    }

    /// Handles a message received from node `sender_id`, unless it cannot be handled: then nothing
    /// happens, and there is no result.
    pub fn try_handle_message(&mut self, sender_id: &N, message: BroadcastMessage) -> (r: Option<
        Result<(), Error>,
    >)
        requires
            old(self).wf(),
        ensures
            final(self).wf(),
            match r {
                Some(result) => {
                    &&& old(self)@.admits_message(*sender_id, message@)
                    &&& final(self)@ == old(self)@.on_message(*sender_id, message@).state
                    &&& result == old(self)@.on_message(*sender_id, message@).result
                    &&& old(self)@.brings_back(final(self)@, message@.root_hash())
                },
                None => !old(self)@.admits_message(*sender_id, message@) && *final(self) == *old(
                    self,
                ),
            },
            old(self)@.on_message(*sender_id, message@).state.holds_value(message@.root_hash())
                ==> r is Some,
    {
        if self.can_handle_message(sender_id, &message) {
            Some(self.handle_message(sender_id, message))
        } else {
            None
        }
    }

    /// Tells whether a value fits into memory when it is cut into shards.
    fn can_fit(&self, len: usize) -> (r: bool)
        requires
            self.consistent(),
        ensures
            r == (shard_len(len as nat + 1, self@.data()) * self@.total() <= usize::MAX),
    {
        let ghost need = shard_len(len as nat + 1, self@.data());
        proof {
            lemma_shard_len(len as nat + 1, self@.data());
            vstd::arithmetic::div_mod::lemma_div_is_ordered_by_denominator(
                len as int + 1,
                1,
                self@.data() as int,
            );
        }
        if len == usize::MAX {
            proof {
                assert(need * self@.total() >= need * self@.data()) by (nonlinear_arith)
                    requires
                        self@.total() >= self@.data(),
                        need >= 0,
                ;
            }
            return false;
        }
        let bytes: usize = len + 1;
        let whole: usize = bytes / self.data_shard_num;
        let rest: usize = bytes % self.data_shard_num;
        let most: usize = usize::MAX / self.num_nodes;
        proof {
            vstd::arithmetic::div_mod::lemma_fundamental_div_mod(
                usize::MAX as int,
                self.num_nodes as int,
            );
            let n = self.num_nodes as int;
            let m = most as int;
            assert(need <= m ==> need * n <= usize::MAX) by (nonlinear_arith)
                requires
                    usize::MAX == n * m + usize::MAX as int % n,
                    usize::MAX as int % n >= 0,
                    need >= 0,
                    n > 0,
            ;
            assert(need > m ==> need * n > usize::MAX) by (nonlinear_arith)
                requires
                    usize::MAX == n * m + usize::MAX as int % n,
                    usize::MAX as int % n < n,
                    n > 0,
            ;
        }
        if rest > 0 {
            whole < most
        } else {
            whole <= most
        }
    }

    /// Tells whether a value can be proposed: it must fit into memory when it is cut into shards,
    /// and must not complete a value that is shorter than it says itself.
    pub fn can_input(&self, input: &Vec<u8>) -> (r: bool)
        requires
            self.wf(),
        ensures
            r == (self@.our_id == self@.proposer_id ==> self.fits(input@) && self@.admits_input(
                input@,
            )),
            self.fits(input@) && self@.on_input(input@).state.holds_value(
                root_of(leaves_of(input@, self@.data(), self@.parity())),
            ) ==> r,
            ({
                let total = self@.nodes.len() as int;
                let data = (total - 1) / 3 + 1;
                let fresh = self@ == State::initial(
                    self@.our_id,
                    self@.proposer_id,
                    self@.nodes,
                );
                (input@.len() + data) / data * total <= usize::MAX && (fresh || self@.on_input(
                    input@,
                ).state.decided == self@.decided) ==> r
            }),
    {
        if !same_id(&self.our_id, &self.proposer_id) {
            return true;
        }
        proof {
            law_fits(*self, input@);
            if !self@.admits_input(input@) {
                law_input_admitted(self@, input@);
                if self@ == State::initial(self@.our_id, self@.our_id, self@.nodes) {
                    law_first_input_admitted(self@.our_id, self@.nodes, input@);
                }
            }
        }
        if !self.can_fit(input.len()) {
            return false;
        }
        match self.index_of_node(&self.our_id) {
            Some(i) => {
                proof {
                    lemma_leaves(input@, self@.data(), self@.parity());
                    assert(self@.nodes.no_duplicates());
                    assert(self@.nodes.contains(self@.our_id));
                    assert(self@.nodes.index_of(self@.our_id) == i);
                }
                match self.prove_shards(slice_to_vec(input.as_slice())) {
                    Ok(proofs) => {
                        proof {
                            let all = proofs_of(
                                leaves_of(input@, self@.data(), self@.parity()),
                            );
                            assert(held(proofs@).len() == self@.total());
                            assert(held(proofs@)[i as int] == proofs@[i as int]@);
                            let p = all[i as int];
                            let sent = self@.distribute(all);
                            lemma_admits_value(sent, self@, self@.our_id, p);
                            if !self@.echo_sent && self@.accepts(p, self@.our_id) {
                                lemma_value_echoed(sent, self@, self@.our_id, p);
                                lemma_value_echoed(self@, self@, self@.our_id, p);
                                lemma_same_value(
                                    sent.on_value(self@.our_id, p).state,
                                    self@.on_value(self@.our_id, p).state,
                                    p.root_hash,
                                );
                            }
                        }
                        self.can_handle_value(&self.our_id, &proofs[i])
                    },
                    Err(_) => false,
                }
            },
            None => true,
        }
    }

    /// Handles an input provided by the user, unless it cannot be proposed: then nothing happens,
    /// and there is no result.
    pub fn try_input(&mut self, input: Vec<u8>) -> (r: Option<Result<(), Error>>)
        requires
            old(self).wf(),
        ensures
            final(self).wf(),
            match r {
                Some(result) => {
                    &&& old(self).admits_input(input)
                    &&& final(self)@ == old(self)@.on_input(input@).state
                    &&& result == old(self)@.on_input(input@).result
                    &&& old(self)@.brings_back(
                        final(self)@,
                        root_of(leaves_of(input@, old(self)@.data(), old(self)@.parity())),
                    )
                    &&& old(self)@.our_id == old(self)@.proposer_id ==> old(
                        self,
                    )@.shares_sound(input@)
                },
                None => !old(self).admits_input(input) && *final(self) == *old(self),
            },
            old(self).fits(input@) && old(self)@.on_input(input@).state.holds_value(
                root_of(leaves_of(input@, old(self)@.data(), old(self)@.parity())),
            ) ==> r is Some,
            ({
                let total = old(self)@.nodes.len() as int;
                let data = (total - 1) / 3 + 1;
                let fresh = old(self)@ == State::initial(
                    old(self)@.our_id,
                    old(self)@.proposer_id,
                    old(self)@.nodes,
                );
                (input@.len() + data) / data * total <= usize::MAX && (fresh || old(
                    self,
                )@.on_input(input@).state.decided == old(self)@.decided) ==> r is Some
            }),
    {
        if self.can_input(&input) {
            Some(self.input(input))
        } else {
            None
        }
    }
}

} // verus!
