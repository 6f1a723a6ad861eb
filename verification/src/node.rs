//! The life of a node: the calls that are made to it, in any order, and what holds after all of
//! them, whatever the messages say.
use vstd::prelude::*;
use vstd::relations::injective_on;
use vstd::seq_lib::seq_to_set_is_finite;
use vstd::set_lib::{lemma_len_subset, lemma_map_size, lemma_set_disjoint_lens};

use crate::broadcast::Error;
use crate::coding::{pieces_of, places, present};
use crate::messaging::{Target, TargetedMessage};
use crate::protocol::{
    echoers_among, law_shares_sound, max_faulty, proofs_of, ready_among, value_messages, Content,
    State, Step,
};
use crate::shards::{
    coherent, completed, holds_payload, joined, law_round_trip, leaves_of, lemma_leaves,
    lemma_leaves_coherent, payload, recoverable,
};
use crate::tree::{root_of, ProofContents};

verus! {

/// One more `Echo`, from a node that had sent none, counts for its root hash and no other.
pub(crate) proof fn lemma_one_more_echo<N>(
    echos: Map<N, ProofContents>,
    id: N,
    p: ProofContents,
    hash: Seq<u8>,
)
    requires
        echos.dom().finite(),
        !echos.contains_key(id),
    ensures
        echoers_among(echos.insert(id, p), hash) == if p.root_hash == hash {
            echoers_among(echos, hash).insert(id)
        } else {
            echoers_among(echos, hash)
        },
        echoers_among(echos.insert(id, p), hash).len() == echoers_among(echos, hash).len()
            + if p.root_hash == hash {
            1nat
        } else {
            0nat
        },
{
    let before = echoers_among(echos, hash);
    let after = echoers_among(echos.insert(id, p), hash);
    echos.dom().lemma_len_filter(|id: N| echos[id].root_hash == hash);
    if p.root_hash == hash {
        assert(after =~= before.insert(id));
    } else {
        assert(after =~= before);
    }
}

/// One more `Ready`, from a node that had sent none, counts for its root hash and no other.
pub(crate) proof fn lemma_one_more_ready<N>(
    readys: Map<N, Seq<u8>>,
    id: N,
    h: Seq<u8>,
    hash: Seq<u8>,
)
    requires
        readys.dom().finite(),
        !readys.contains_key(id),
    ensures
        ready_among(readys.insert(id, h), hash) == if h == hash {
            ready_among(readys, hash).insert(id)
        } else {
            ready_among(readys, hash)
        },
        ready_among(readys.insert(id, h), hash).len() == ready_among(readys, hash).len()
            + if h == hash {
            1nat
        } else {
            0nat
        },
{
    let before = ready_among(readys, hash);
    let after = ready_among(readys.insert(id, h), hash);
    readys.dom().lemma_len_filter(|id: N| readys[id] == hash);
    if h == hash {
        assert(after =~= before.insert(id));
    } else {
        assert(after =~= before);
    }
}


/// With more `Echo`s there are no fewer nodes that sent this root hash.
pub(crate) proof fn lemma_echoers_grow<N>(
    some: Map<N, ProofContents>,
    more: Map<N, ProofContents>,
    hash: Seq<u8>,
)
    requires
        some.submap_of(more),
        more.dom().finite(),
    ensures
        echoers_among(some, hash).subset_of(echoers_among(more, hash)),
        echoers_among(some, hash).len() <= echoers_among(more, hash).len(),
{
    assert forall|id: N| echoers_among(some, hash).contains(id) implies echoers_among(
        more,
        hash,
    ).contains(id) by {
        assert(more.dom().contains(id));
    }
    more.dom().lemma_len_filter(|id: N| more[id].root_hash == hash);
    lemma_len_subset(echoers_among(some, hash), echoers_among(more, hash));
}

/// With more `Ready`s there are no fewer nodes that sent this root hash.
pub(crate) proof fn lemma_ready_grow<N>(
    some: Map<N, Seq<u8>>,
    more: Map<N, Seq<u8>>,
    hash: Seq<u8>,
)
    requires
        some.submap_of(more),
        more.dom().finite(),
    ensures
        ready_among(some, hash).subset_of(ready_among(more, hash)),
        ready_among(some, hash).len() <= ready_among(more, hash).len(),
{
    assert forall|id: N| ready_among(some, hash).contains(id) implies ready_among(
        more,
        hash,
    ).contains(id) by {
        assert(more.dom().contains(id));
    }
    more.dom().lemma_len_filter(|id: N| more[id] == hash);
    lemma_len_subset(ready_among(some, hash), ready_among(more, hash));
}

/// The messages that the node has to send in `after` and had not in `before`.
pub open spec fn fresh<N>(before: State<N>, after: State<N>) -> Seq<TargetedMessage<Content, N>> {
    after.messages.skip(before.messages.len() as int)
}

/// The message is an `Echo` to all nodes.
pub open spec fn is_echo<N>(m: TargetedMessage<Content, N>) -> bool {
    m.target == Target::<N>::All && m.message is Echo
}

/// The message is a `Ready` to all nodes.
pub open spec fn is_ready<N>(m: TargetedMessage<Content, N>) -> bool {
    m.target == Target::<N>::All && m.message is Ready
}

impl<N> State<N> {
    /// Only finitely many messages have been received, and the proofs among them were acceptable.
    pub open spec fn is_sound(self) -> bool {
        &&& self.echos.dom().finite()
        &&& self.readys.dom().finite()
        &&& forall|id: N| #[trigger]
            self.echos.contains_key(id) ==> self.accepts(self.echos[id], id)
    }

    /// The node has multicast `Ready` if it has seen enough `Echo`s or enough `Ready`s for that.
    pub open spec fn is_prompt(self) -> bool {
        forall|hash: Seq<u8>|
            #![trigger self.echoers(hash)]
            #![trigger self.ready_senders(hash)]
            self.echoers(hash).len() >= self.total() - self.faulty() || self.ready_senders(
                hash,
            ).len() > self.faulty() ==> self.ready_sent
    }

    /// The node has seen enough `Ready`s and `Echo`s with this root hash to decode the value.
    pub open spec fn is_convinced(self, hash: Seq<u8>) -> bool {
        &&& self.ready_senders(hash).len() > 2 * self.faulty()
        &&& self.echoers(hash).len() > self.faulty()
    }

    /// The node has decided if it has seen enough for that.
    pub open spec fn is_decisive(self) -> bool {
        forall|hash: Seq<u8>| #[trigger] self.is_convinced(hash) ==> self.decided
    }
}

/// A node takes down the first `Echo` and the first `Ready` of each node, for good: those that come
/// in, and its own.
#[verifier::rlimit(50)]
pub(crate) proof fn lemma_recorded<N>(s: State<N>, sender: N, content: Content)
    requires
        s.is_sound(),
        s.nodes.contains(sender),
    ensures
        ({
            let t = s.on_message(sender, content).state;
            &&& t.is_sound()
            &&& t.our_id == s.our_id
            &&& t.proposer_id == s.proposer_id
            &&& t.nodes == s.nodes
            &&& s.echos.submap_of(t.echos)
            &&& s.readys.submap_of(t.readys)
            &&& forall|id: N| #[trigger]
                t.echos.contains_key(id) && !s.echos.contains_key(id) ==> {
                    ||| id == sender && content == Content::Echo(t.echos[id])
                    ||| id == s.our_id && sender == s.proposer_id && content == Content::Value(
                        t.echos[id],
                    ) && !s.echo_sent
                }
            &&& forall|id: N| #[trigger]
                t.readys.contains_key(id) && !s.readys.contains_key(id) ==> {
                    ||| id == sender && content == Content::Ready(t.readys[id])
                    ||| id == s.our_id && fresh(s, t).contains(
                        TargetedMessage {
                            target: Target::All,
                            message: Content::Ready(t.readys[id]),
                        },
                    )
                }
            &&& content matches Content::Echo(p) ==> s.accepts(p, sender) ==> t.echos.contains_key(
                sender,
            )
            &&& content matches Content::Ready(_) ==> t.readys.contains_key(sender)
            &&& content matches Content::Value(p) ==> sender == s.proposer_id && s.accepts(
                p,
                s.our_id,
            ) ==> t.echo_sent
            &&& t.echo_sent && !s.echo_sent ==> t.echos.contains_key(s.our_id)
            &&& t.ready_sent && !s.ready_sent ==> t.readys.contains_key(s.our_id)
        }),
{
    let t = s.on_message(sender, content).state;
    assert forall|id: N| #[trigger]
        t.readys.contains_key(id) && !s.readys.contains_key(id) && id != sender implies id
        == s.our_id && fresh(s, t).contains(
        TargetedMessage { target: Target::All, message: Content::Ready(t.readys[id]) },
    ) by {
        let m = TargetedMessage {
            target: Target::<N>::All,
            message: Content::Ready(t.readys[id]),
        };
        assert(fresh(s, t)[0] == m);
    }
}

/// What a node has to send after a message: at most a `Ready` and an `Echo`, each only if it had
/// sent none before.
#[verifier::rlimit(50)]
pub(crate) proof fn lemma_fresh<N>(s: State<N>, sender: N, content: Content)
    requires
        s.nodes.contains(sender),
    ensures
        ({
            let step = s.on_message(sender, content);
            let t = step.state;
            let news = fresh(s, t);
            &&& t.messages == s.messages + news
            &&& forall|i: int|
                0 <= i < news.len() ==> is_echo(#[trigger] news[i]) || is_ready(news[i])
            &&& forall|i: int|
                0 <= i < news.len() && is_echo(#[trigger] news[i]) ==> {
                    &&& !s.echo_sent && t.echo_sent
                    &&& t.echos.contains_key(s.our_id)
                    &&& !s.echos.contains_key(s.our_id) ==> news[i].message == Content::Echo(
                        t.echos[s.our_id],
                    )
                }
            &&& forall|i: int|
                0 <= i < news.len() && is_ready(#[trigger] news[i]) ==> {
                    let hash = news[i].message->Ready_0;
                    &&& !s.ready_sent && t.ready_sent
                    &&& t.echoers(hash).len() >= s.total() - s.faulty() || content == Content::Ready(
                        hash,
                    ) && s.record_ready(sender, hash).ready_senders(hash).len() > s.faulty()
                }
            &&& forall|i: int, j: int|
                0 <= i < news.len() && 0 <= j < news.len() && is_echo(#[trigger] news[i])
                    && is_echo(#[trigger] news[j]) ==> i == j
            &&& forall|i: int, j: int|
                0 <= i < news.len() && 0 <= j < news.len() && is_ready(#[trigger] news[i])
                    && is_ready(#[trigger] news[j]) ==> i == j
            &&& s.echo_sent ==> t.echo_sent
            &&& s.ready_sent ==> t.ready_sent
            &&& t.echo_sent && !s.echo_sent ==> exists|i: int|
                0 <= i < news.len() && is_echo(#[trigger] news[i])
            &&& t.ready_sent && !s.ready_sent ==> exists|i: int|
                0 <= i < news.len() && is_ready(#[trigger] news[i])
        }),
{
    let step = s.on_message(sender, content);
    let t = step.state;
    let news = fresh(s, t);
    assert(t.messages =~= s.messages + news);
    if t.ready_sent && !s.ready_sent {
        assert(is_ready(news[0]));
    }
    if t.echo_sent && !s.echo_sent {
        assert(is_echo(news[news.len() - 1]));
    }
}

/// A node that has sent `Ready` whenever it had seen enough for that has done so after one more
/// message too.
pub(crate) proof fn lemma_prompt<N>(s: State<N>, sender: N, content: Content)
    requires
        s.is_sound(),
        s.is_prompt(),
        s.nodes.contains(sender),
    ensures
        s.on_message(sender, content).state.is_prompt(),
{
    let t = s.on_message(sender, content).state;
    assert forall|hash: Seq<u8>|
        t.echoers(hash).len() >= t.total() - t.faulty() || t.ready_senders(hash).len()
            > t.faulty() implies t.ready_sent by {
        let _ = s.echoers(hash);
        match content {
            Content::Value(p) => {
                if !s.echos.contains_key(s.our_id) {
                    lemma_one_more_echo(s.echos, s.our_id, p, hash);
                }
            },
            Content::Echo(p) => {
                if !s.echos.contains_key(sender) {
                    lemma_one_more_echo(s.echos, sender, p, hash);
                }
            },
            Content::Ready(h) => {
                if !s.readys.contains_key(sender) {
                    lemma_one_more_ready(s.readys, sender, h, hash);
                }
            },
        }
    }
}

/// A node that has decided whenever it had seen enough for that has done so after one more message
/// too.
pub(crate) proof fn lemma_decisive<N>(s: State<N>, sender: N, content: Content)
    requires
        s.is_sound(),
        s.is_decisive(),
        s.nodes.contains(sender),
    ensures
        s.on_message(sender, content).state.is_decisive(),
{
    let t = s.on_message(sender, content).state;
    assert forall|hash: Seq<u8>| #[trigger] t.is_convinced(hash) implies t.decided by {
        assert(s.is_convinced(hash) ==> s.decided);
        if !s.readys.contains_key(s.our_id) {
            match content {
                Content::Value(p) => {
                    lemma_one_more_ready(s.readys, s.our_id, p.root_hash, hash);
                },
                Content::Echo(p) => {
                    lemma_one_more_ready(s.readys, s.our_id, p.root_hash, hash);
                },
                Content::Ready(_) => {},
            }
        }
        match content {
            Content::Value(p) => {
                if !s.echos.contains_key(s.our_id) {
                    lemma_one_more_echo(s.echos, s.our_id, p, hash);
                }
            },
            Content::Echo(p) => {
                if !s.echos.contains_key(sender) {
                    lemma_one_more_echo(s.echos, sender, p, hash);
                }
            },
            Content::Ready(h) => {
                if !s.readys.contains_key(sender) {
                    let recorded = s.readys.insert(sender, h);
                    lemma_one_more_ready(s.readys, sender, h, hash);
                    if !recorded.contains_key(s.our_id) {
                        lemma_one_more_ready(recorded, s.our_id, h, hash);
                    }
                }
            },
        }
    }
}

/// The value is what these leaves hold, and they are coherent and have this root hash.
pub open spec fn is_value_of(
    value: Seq<u8>,
    hash: Seq<u8>,
    leaves: Seq<Seq<u8>>,
    data: nat,
    parity: nat,
) -> bool {
    &&& coherent(leaves, data, parity)
    &&& root_of(leaves) == hash
    &&& value == payload(joined(leaves, data), data)
}

/// A node decides at most once, when it is convinced, and what it outputs then is held by leaves
/// with the root hash that it is convinced of.
#[verifier::rlimit(50)]
pub(crate) proof fn lemma_outcome<N>(s: State<N>, sender: N, content: Content)
    requires
        s.nodes.contains(sender),
    ensures
        ({
            let step = s.on_message(sender, content);
            let t = step.state;
            &&& s.decided ==> t.decided && t.output == s.output
            &&& !t.decided ==> t.output == s.output
            &&& t.decided && !s.decided ==> {
                &&& t.is_convinced(content.root_hash())
                &&& step.result is Ok ==> t.output is Some
                &&& step.result is Err ==> t.output == s.output
                &&& step.result is Ok ==> is_value_of(
                    t.output->0,
                    content.root_hash(),
                    completed(t.leaf_values(content.root_hash()), s.data(), s.parity()),
                    s.data(),
                    s.parity(),
                )
            }
        }),
{
}

/// A message that a node cannot handle convinces it of a root hash, for which it rebuilds leaves
/// that hold no value.
#[verifier::rlimit(50)]
pub(crate) proof fn lemma_not_admitted<N>(s: State<N>, sender: N, content: Content)
    requires
        !s.admits_message(sender, content),
    ensures
        ({
            let t = s.on_message(sender, content).state;
            let hash = content.root_hash();
            let rebuilt = completed(t.leaf_values(hash), s.data(), s.parity());
            &&& s.nodes.contains(sender)
            &&& t.nodes == s.nodes
            &&& !s.decided && t.decided
            &&& t.is_convinced(hash)
            &&& root_of(rebuilt) == hash
            &&& !holds_payload(joined(rebuilt, s.data()))
        }),
{
}

/// A call of `DistAlgorithm` that is made to a node.
pub enum Call<N> {
    /// The node is given a value to propose.
    Input(Seq<u8>),
    /// The node handles a message from this sender.
    Message(N, Content),
    /// The next message that the node has to send is taken from it, and sent.
    NextMessage,
    /// The value that the node outputs is taken from it.
    NextOutput,
}

/// What a node has decided on: a root hash, and the leaves that had been echoed for it.
pub struct Basis {
    pub hash: Seq<u8>,
    pub leaves: Seq<Option<Seq<u8>>>,
}

/// A node together with what has become of the calls that were made to it.
#[verifier::reject_recursive_types(N)]
pub struct Node<N> {
    /// What the node knows.
    pub state: State<N>,
    /// The values that the node was given to propose.
    pub inputs: Set<Seq<u8>>,
    /// The messages that have been taken from the node and sent.
    pub sent: Seq<TargetedMessage<Content, N>>,
    /// The values that have been taken from the node as its output.
    pub outputs: Seq<Seq<u8>>,
    /// What the node has decided on, if it has decided.
    pub basis: Option<Basis>,
    /// Why the node could not decode the value when it decided, if so.
    pub failure: Option<Error>,
}

impl<N> Node<N> {
    /// The node before any call is made.
    pub open spec fn initial(our_id: N, proposer_id: N, nodes: Seq<N>) -> Node<N> {
        Node {
            state: State::initial(our_id, proposer_id, nodes),
            inputs: Set::empty(),
            sent: Seq::empty(),
            outputs: Seq::empty(),
            basis: None,
            failure: None,
        }
    }

    /// The messages that the node has multicast or sent to single nodes: those that have been sent,
    /// and then those that wait to be.
    pub open spec fn issued(self) -> Seq<TargetedMessage<Content, N>> {
        self.sent + self.state.messages
    }

    /// The values that the node has output: those that have been taken, and then the one that waits
    /// to be.
    pub open spec fn produced(self) -> Seq<Seq<u8>> {
        match self.state.output {
            Some(value) => self.outputs.push(value),
            None => self.outputs,
        }
    }

    /// The leaves that the node has rebuilt when it decided.
    pub open spec fn rebuilt(self) -> Seq<Seq<u8>> {
        completed(self.basis->0.leaves, self.state.data(), self.state.parity())
    }

    /// What the node has decided on, if it has decided, after a step that was about this root hash.
    pub open spec fn basis_after(self, state: State<N>, hash: Seq<u8>) -> Option<Basis> {
        if state.decided && !self.state.decided {
            Some(Basis { hash, leaves: state.leaf_values(hash) })
        } else {
            self.basis
        }
    }

    /// Why the node could not decode the value when it decided, if so, after a step.
    pub open spec fn failure_after(self, step: Step<N>) -> Option<Error> {
        if step.state.decided && !self.state.decided {
            step.result.err()
        } else {
            self.failure
        }
    }

    /// The node after the call.
    pub open spec fn after(self, call: Call<N>) -> Node<N> {
        match call {
            Call::Input(value) => {
                let step = self.state.on_input(value);
                let leaves = leaves_of(value, self.state.data(), self.state.parity());
                Node {
                    state: step.state,
                    inputs: self.inputs.insert(value),
                    basis: self.basis_after(step.state, root_of(leaves)),
                    failure: self.failure_after(step),
                    ..self
                }
            },
            Call::Message(sender, content) => {
                let step = self.state.on_message(sender, content);
                Node {
                    state: step.state,
                    basis: self.basis_after(step.state, content.root_hash()),
                    failure: self.failure_after(step),
                    ..self
                }
            },
            Call::NextMessage => if self.state.messages.len() > 0 {
                Node {
                    state: State { messages: self.state.messages.skip(1), ..self.state },
                    sent: self.sent.push(self.state.messages[0]),
                    ..self
                }
            } else {
                self
            },
            Call::NextOutput => match self.state.output {
                Some(value) => Node {
                    state: State { output: None, ..self.state },
                    outputs: self.outputs.push(value),
                    ..self
                },
                None => self,
            },
        }
    }

    /// The node after all these calls.
    pub open spec fn after_all(self, calls: Seq<Call<N>>) -> Node<N>
        decreases calls.len(),
    {
        if calls.len() == 0 {
            self
        } else {
            self.after_all(calls.drop_last()).after(calls.last())
        }
    }

    /// What holds of a node at all times.
    pub open spec fn is_valid(self) -> bool {
        &&& self.state.is_sound()
        &&& self.state.is_prompt()
        &&& self.state.is_decisive()
        &&& self.state.echo_sent ==> self.state.echos.contains_key(self.state.our_id)
        &&& self.state.ready_sent ==> self.state.readys.contains_key(self.state.our_id)
        &&& issued_once(self.issued(), self.state.echo_sent, self.state.ready_sent)
        &&& self.state.decided <==> self.basis is Some
        &&& self.state.decided ==> self.is_based_on(self.basis->0)
        &&& self.produced().len() <= 1
        &&& self.produced().len() == 1 ==> self.state.decided
        &&& self.failure is Some ==> self.state.decided && self.produced().len() == 0
        &&& self.state.decided && self.failure is None ==> self.produced().len() == 1
    }

    /// What it has decided on has convinced the node, the leaves are still there among those echoed
    /// for the root hash, and what was output is the value that they hold.
    pub open spec fn is_based_on(self, basis: Basis) -> bool {
        &&& self.state.is_convinced(basis.hash)
        &&& basis.leaves.len() == self.state.total()
        &&& forall|i: int|
            0 <= i < basis.leaves.len() && (#[trigger] basis.leaves[i]) is Some
                ==> self.state.leaf_values(basis.hash)[i] == basis.leaves[i]
        &&& self.state.nodes.no_duplicates() ==> present(basis.leaves) >= self.state.data()
        &&& self.produced().len() == 1 ==> is_value_of(
            self.produced()[0],
            basis.hash,
            self.rebuilt(),
            self.state.data(),
            self.state.parity(),
        )
    }

    /// If the node has decided on the root hash of coherent leaves, and on as many of these as
    /// there are data shards, and no others, then it has output the value that they hold.
    pub open spec fn has_kept(self) -> bool {
        forall|whole: Seq<Seq<u8>>|
            self.basis is Some && self.basis->0.hash == root_of(whole) && #[trigger] recoverable(
                self.basis->0.leaves,
                self.state.data(),
                self.state.parity(),
                whole,
            ) ==> self.produced() == seq![
                payload(joined(whole, self.state.data()), self.state.data()),
            ]
    }

    /// The call has kept what `input` and `handle_message` promise of the code: that enough leaves
    /// bring a value back.
    pub open spec fn is_faithful(self, call: Call<N>) -> bool {
        let state = self.state;
        let end = self.after(call).state;
        match call {
            Call::Input(value) => {
                let leaves = leaves_of(value, state.data(), state.parity());
                state.brings_back(end, root_of(leaves))
            },
            Call::Message(_, content) => state.brings_back(end, content.root_hash()),
            Call::NextMessage => true,
            Call::NextOutput => true,
        }
    }

    /// All these calls, one after the other, are faithful.
    pub open spec fn is_faithful_all(self, calls: Seq<Call<N>>) -> bool
        decreases calls.len(),
    {
        calls.len() > 0 ==> self.is_faithful_all(calls.drop_last()) && self.after_all(
            calls.drop_last(),
        ).is_faithful(calls.last())
    }
}

/// What a node has issued holds one `Echo` to all nodes if it has sent one, and none otherwise, and
/// likewise for `Ready`.
pub open spec fn issued_once<N>(
    issued: Seq<TargetedMessage<Content, N>>,
    echo_sent: bool,
    ready_sent: bool,
) -> bool {
    &&& echo_sent ==> exists|i: int| 0 <= i < issued.len() && is_echo(#[trigger] issued[i])
    &&& ready_sent ==> exists|i: int| 0 <= i < issued.len() && is_ready(#[trigger] issued[i])
    &&& forall|i: int| 0 <= i < issued.len() && is_echo(#[trigger] issued[i]) ==> echo_sent
    &&& forall|i: int| 0 <= i < issued.len() && is_ready(#[trigger] issued[i]) ==> ready_sent
    &&& forall|i: int, j: int|
        0 <= i < issued.len() && 0 <= j < issued.len() && is_echo(#[trigger] issued[i]) && is_echo(
            #[trigger] issued[j],
        ) ==> i == j
    &&& forall|i: int, j: int|
        0 <= i < issued.len() && 0 <= j < issued.len() && is_ready(#[trigger] issued[i])
            && is_ready(#[trigger] issued[j]) ==> i == j
}

/// More messages keep it that each kind is issued once, if they hold only what was not yet sent.
proof fn lemma_issued<N>(
    old_issued: Seq<TargetedMessage<Content, N>>,
    old_echo_sent: bool,
    old_ready_sent: bool,
    news: Seq<TargetedMessage<Content, N>>,
    echo_sent: bool,
    ready_sent: bool,
)
    requires
        issued_once(old_issued, old_echo_sent, old_ready_sent),
        old_echo_sent ==> echo_sent,
        old_ready_sent ==> ready_sent,
        echo_sent && !old_echo_sent ==> exists|i: int|
            0 <= i < news.len() && is_echo(#[trigger] news[i]),
        ready_sent && !old_ready_sent ==> exists|i: int|
            0 <= i < news.len() && is_ready(#[trigger] news[i]),
        forall|i: int|
            0 <= i < news.len() && is_echo(#[trigger] news[i]) ==> !old_echo_sent && echo_sent,
        forall|i: int|
            0 <= i < news.len() && is_ready(#[trigger] news[i]) ==> !old_ready_sent && ready_sent,
        forall|i: int, j: int|
            0 <= i < news.len() && 0 <= j < news.len() && is_echo(#[trigger] news[i]) && is_echo(
                #[trigger] news[j],
            ) ==> i == j,
        forall|i: int, j: int|
            0 <= i < news.len() && 0 <= j < news.len() && is_ready(#[trigger] news[i]) && is_ready(
                #[trigger] news[j],
            ) ==> i == j,
    ensures
        issued_once(old_issued + news, echo_sent, ready_sent),
{
    let issued = old_issued + news;
    let base = old_issued.len() as int;
    assert forall|i: int| base <= i < issued.len() implies issued[i] == #[trigger] news[i
        - base] by {}
    assert forall|i: int| 0 <= i < base implies issued[i] == #[trigger] old_issued[i] by {}
    assert forall|i: int|
        0 <= i < issued.len() && is_echo(#[trigger] issued[i]) implies echo_sent by {
        assert(i >= base ==> is_echo(news[i - base]));
        assert(i < base ==> is_echo(old_issued[i]));
    }
    assert forall|i: int|
        0 <= i < issued.len() && is_ready(#[trigger] issued[i]) implies ready_sent by {
        assert(i >= base ==> is_ready(news[i - base]));
        assert(i < base ==> is_ready(old_issued[i]));
    }
    assert forall|i: int, j: int|
        0 <= i < issued.len() && 0 <= j < issued.len() && is_echo(#[trigger] issued[i]) && is_echo(
            #[trigger] issued[j],
        ) implies i == j by {
        assert(i >= base ==> is_echo(news[i - base]));
        assert(i < base ==> is_echo(old_issued[i]));
        assert(j >= base ==> is_echo(news[j - base]));
        assert(j < base ==> is_echo(old_issued[j]));
    }
    assert forall|i: int, j: int|
        0 <= i < issued.len() && 0 <= j < issued.len() && is_ready(#[trigger] issued[i])
            && is_ready(#[trigger] issued[j]) implies i == j by {
        assert(i >= base ==> is_ready(news[i - base]));
        assert(i < base ==> is_ready(old_issued[i]));
        assert(j >= base ==> is_ready(news[j - base]));
        assert(j < base ==> is_ready(old_issued[j]));
    }
    if old_echo_sent {
        let i = choose|i: int| 0 <= i < old_issued.len() && is_echo(#[trigger] old_issued[i]);
        assert(is_echo(issued[i]));
    } else if echo_sent {
        let i = choose|i: int| 0 <= i < news.len() && is_echo(#[trigger] news[i]);
        assert(is_echo(issued[base + i]));
    }
    if old_ready_sent {
        let i = choose|i: int| 0 <= i < old_issued.len() && is_ready(#[trigger] old_issued[i]);
        assert(is_ready(issued[i]));
    } else if ready_sent {
        let i = choose|i: int| 0 <= i < news.len() && is_ready(#[trigger] news[i]);
        assert(is_ready(issued[base + i]));
    }
}

/// Handling a message keeps the node valid.
proof fn lemma_message_valid<N>(node: Node<N>, sender: N, content: Content)
    requires
        node.is_valid(),
        node.state.nodes.contains(sender),
    ensures
        node.after(Call::Message(sender, content)).is_valid(),
{
    let s = node.state;
    let step = s.on_message(sender, content);
    let t = step.state;
    let after = node.after(Call::Message(sender, content));
    lemma_recorded(s, sender, content);
    lemma_fresh(s, sender, content);
    lemma_prompt(s, sender, content);
    lemma_decisive(s, sender, content);
    lemma_outcome(s, sender, content);
    lemma_convinced_grows(s, sender, content);
    lemma_issued(
        node.issued(),
        s.echo_sent,
        s.ready_sent,
        fresh(s, t),
        t.echo_sent,
        t.ready_sent,
    );
    assert(after.issued() =~= node.issued() + fresh(s, t));
    if s.decided {
        let basis = node.basis->0;
        assert(after.produced() == node.produced());
        assert(t.is_convinced(basis.hash));
        assert forall|i: int| 0 <= i < basis.leaves.len() && (
        #[trigger] basis.leaves[i]) is Some implies t.leaf_values(basis.hash)[i]
            == basis.leaves[i] by {
            assert(s.leaf_values(basis.hash)[i] is Some);
            assert(s.echos.dom().contains(s.nodes[i]));
            assert(t.echos.dom().contains(s.nodes[i]));
        }
    } else {
        assert(node.produced().len() == 0);
        assert(s.output is None);
        if t.decided {
            lemma_present(t, content.root_hash());
            if step.result is Ok {
                assert(after.produced()[0] == t.output->0);
            }
        }
    }
}

/// As many leaves have been echoed for a root hash as there are nodes that have sent it.
pub(crate) proof fn lemma_present<N>(s: State<N>, hash: Seq<u8>)
    requires
        s.is_sound(),
    ensures
        s.nodes.no_duplicates() ==> present(s.leaf_values(hash)) == s.echoers(hash).len(),
{
    if s.nodes.no_duplicates() {
        let leaves = s.leaf_values(hash);
        let echoers = s.echoers(hash);
        let place = |id: N| s.nodes.index_of(id);
        s.echos.dom().lemma_len_filter(|id: N| s.echos[id].root_hash == hash);
        assert forall|id: N| echoers.contains(id) implies s.nodes.contains(id) by {
            assert(s.accepts(s.echos[id], id));
        }
        assert(injective_on(place, echoers)) by {
            assert forall|a: N, b: N|
                echoers.contains(a) && echoers.contains(b) && #[trigger] place(a)
                    == #[trigger] place(b) implies a == b by {
                assert(s.nodes[place(a)] == a && s.nodes[place(b)] == b);
            }
        }
        assert forall|i: int| echoers.map(place).contains(i) == places(leaves).contains(i) by {
            if places(leaves).contains(i) {
                assert(echoers.contains(s.nodes[i]));
                assert(place(s.nodes[i]) == i);
            }
            if echoers.map(place).contains(i) {
                let id = choose|id: N| echoers.contains(id) && place(id) == i;
                assert(s.nodes[i] == id);
            }
        }
        assert(echoers.map(place) =~= places(leaves));
        lemma_map_size(echoers, places(leaves), place);
    }
}

/// A node that is convinced stays so.
proof fn lemma_convinced_grows<N>(s: State<N>, sender: N, content: Content)
    requires
        s.is_sound(),
        s.nodes.contains(sender),
    ensures
        forall|hash: Seq<u8>|
            s.is_convinced(hash) ==> #[trigger] s.on_message(sender, content).state.is_convinced(
                hash,
            ),
{
    let t = s.on_message(sender, content).state;
    lemma_recorded(s, sender, content);
    assert forall|hash: Seq<u8>| s.is_convinced(hash) implies #[trigger] t.is_convinced(hash) by {
        lemma_echoers_grow(s.echos, t.echos, hash);
        lemma_ready_grow(s.readys, t.readys, hash);
    }
}

/// The `Value` messages of a proposer: one for each other node, with the proof in its place.
pub(crate) proof fn lemma_value_messages<N>(nodes: Seq<N>, our_id: N, proofs: Seq<ProofContents>)
    ensures
        ({
            let messages = value_messages(nodes, our_id, proofs);
            &&& forall|k: int|
                0 <= k < messages.len() ==> exists|i: int|
                    {
                        &&& 0 <= i < nodes.len()
                        &&& nodes[i] != our_id
                        &&& #[trigger] messages[k].target == Target::Node(nodes[i])
                        &&& messages[k].message == Content::Value(#[trigger] proofs[i])
                    }
            &&& forall|i: int|
                0 <= i < nodes.len() && nodes[i] != our_id ==> messages.contains(
                    TargetedMessage {
                        target: Target::Node(#[trigger] nodes[i]),
                        message: Content::Value(proofs[i]),
                    },
                )
        }),
{
    let all = nodes.map(
        |i: int, id: N|
            TargetedMessage { target: Target::Node(id), message: Content::Value(proofs[i]) },
    );
    let test = |m: TargetedMessage<Content, N>| m.target != Target::Node(our_id);
    let messages = value_messages(nodes, our_id, proofs);
    assert(messages == all.filter(test));
    assert forall|k: int| 0 <= k < messages.len() implies exists|i: int|
        {
            &&& 0 <= i < nodes.len()
            &&& nodes[i] != our_id
            &&& #[trigger] messages[k].target == Target::Node(nodes[i])
            &&& messages[k].message == Content::Value(#[trigger] proofs[i])
        } by {
        all.lemma_filter_pred(test, k);
        all.lemma_filter_contains_rev(test, messages[k]);
        let i = choose|i: int| 0 <= i < all.len() && all[i] == messages[k];
        assert(messages[k].message == Content::Value(proofs[i]));
    }
    assert forall|i: int| 0 <= i < nodes.len() && nodes[i] != our_id implies messages.contains(
        TargetedMessage {
            target: Target::Node(#[trigger] nodes[i]),
            message: Content::Value(proofs[i]),
        },
    ) by {
        all.lemma_filter_contains(test, i);
    }
}

/// To have more messages for single nodes to send keeps a node valid.
pub(crate) proof fn lemma_distribute_valid<N>(node: Node<N>, proofs: Seq<ProofContents>)
    requires
        node.is_valid(),
    ensures
        (Node { state: node.state.distribute(proofs), ..node }).is_valid(),
{
    let s = node.state;
    let t = s.distribute(proofs);
    let after = Node { state: t, ..node };
    let values = value_messages(s.nodes, s.our_id, proofs);
    lemma_value_messages(s.nodes, s.our_id, proofs);
    assert forall|i: int| 0 <= i < values.len() implies !is_echo(#[trigger] values[i]) && !is_ready(
        values[i],
    ) by {
        assert(values[i].target is Node);
    }
    lemma_issued(
        node.issued(),
        s.echo_sent,
        s.ready_sent,
        values,
        t.echo_sent,
        t.ready_sent,
    );
    assert(after.issued() =~= node.issued() + values);
    assert(forall|hash: Seq<u8>| s.is_convinced(hash) == #[trigger] t.is_convinced(hash));
    assert(t.is_decisive());
    assert(t.is_prompt()) by {
        assert forall|hash: Seq<u8>|
            t.echoers(hash).len() >= t.total() - t.faulty() || t.ready_senders(hash).len()
                > t.faulty() implies t.ready_sent by {
            let _ = s.echoers(hash);
        }
    }
}

/// A call keeps the node valid.
#[verifier::rlimit(50)]
pub(crate) proof fn lemma_valid_after<N>(node: Node<N>, call: Call<N>)
    requires
        node.is_valid(),
    ensures
        node.after(call).is_valid(),
{
    let s = node.state;
    let after = node.after(call);
    match call {
        Call::Message(sender, content) => {
            if s.nodes.contains(sender) {
                lemma_message_valid(node, sender, content);
            } else {
                assert(after.issued() == node.issued());
            }
        },
        Call::Input(value) => {
            let proofs = proofs_of(leaves_of(value, s.data(), s.parity()));
            let mid = Node { state: s.distribute(proofs), ..node };
            lemma_distribute_valid(node, proofs);
            if s.our_id != s.proposer_id {
                assert(after.issued() == node.issued());
            } else if !s.nodes.contains(s.our_id) {
                assert(after.issued() == mid.issued());
            } else {
                let p = proofs[s.nodes.index_of(s.our_id)];
                lemma_message_valid(mid, s.our_id, Content::Value(p));
                let end = mid.after(Call::Message(s.our_id, Content::Value(p)));
                assert(after.issued() == end.issued());
            }
        },
        Call::NextMessage => {
            assert(after.issued() =~= node.issued());
            assert(after.state == (State { messages: after.state.messages, ..s }));
            lemma_same_received(node, after);
        },
        Call::NextOutput => {
            assert(after.issued() =~= node.issued());
            assert(after.produced() =~= node.produced());
            lemma_same_received(node, after);
        },
    }
}

/// A node that has received, sent and output the same as another one is as valid.
proof fn lemma_same_received<N>(node: Node<N>, other: Node<N>)
    requires
        node.is_valid(),
        other.issued() == node.issued(),
        other.produced() == node.produced(),
        other.basis == node.basis,
        other.failure == node.failure,
        other.state == (State {
            messages: other.state.messages,
            output: other.state.output,
            ..node.state
        }),
    ensures
        other.is_valid(),
{
    let s = node.state;
    let t = other.state;
    assert(forall|hash: Seq<u8>| s.is_convinced(hash) == #[trigger] t.is_convinced(hash));
    assert(t.is_decisive());
    assert(t.is_prompt()) by {
        assert forall|hash: Seq<u8>|
            t.echoers(hash).len() >= t.total() - t.faulty() || t.ready_senders(hash).len()
                > t.faulty() implies t.ready_sent by {
            let _ = s.echoers(hash);
        }
    }
}

/// A node is valid after any calls.
proof fn lemma_valid_after_all<N>(our_id: N, proposer_id: N, nodes: Seq<N>, calls: Seq<Call<N>>)
    requires
        nodes.len() > 0,
    ensures
        Node::initial(our_id, proposer_id, nodes).after_all(calls).is_valid(),
    decreases calls.len(),
{
    let start = Node::initial(our_id, proposer_id, nodes);
    if calls.len() == 0 {
        lemma_initial_valid(our_id, proposer_id, nodes);
    } else {
        lemma_valid_after_all(our_id, proposer_id, nodes, calls.drop_last());
        lemma_valid_after(start.after_all(calls.drop_last()), calls.last());
    }
}

/// A node to which no call has been made is valid.
pub(crate) proof fn lemma_initial_valid<N>(our_id: N, proposer_id: N, nodes: Seq<N>)
    requires
        nodes.len() > 0,
    ensures
        Node::initial(our_id, proposer_id, nodes).is_valid(),
{
    let s = State::initial(our_id, proposer_id, nodes);
    assert forall|hash: Seq<u8>| s.echoers(hash).len() == 0 && s.ready_senders(hash).len() == 0 by {
        assert(s.echoers(hash) =~= Set::empty());
        assert(s.ready_senders(hash) =~= Set::empty());
    }
    assert forall|hash: Seq<u8>| !#[trigger] s.is_convinced(hash) by {
        assert(s.ready_senders(hash).len() == 0);
    }
}

/// The message goes to whom it is meant for: a `Value` from the proposer to a single other node,
/// and an `Echo` or `Ready` to all nodes.
pub open spec fn is_addressed<N>(
    m: TargetedMessage<Content, N>,
    our_id: N,
    proposer_id: N,
) -> bool {
    match m.message {
        Content::Value(_) => our_id == proposer_id && m.target is Node && m.target != Target::Node(
            our_id,
        ),
        _ => m.target == Target::<N>::All,
    }
}

/// Whatever calls of `DistAlgorithm` are made to a node, it sends `Echo`s and `Ready`s to all nodes
/// and never to a single one, and `Value`s only if it is the proposer, and then never to all nodes
/// or to itself.
pub proof fn law_addressed<N>(our_id: N, proposer_id: N, nodes: Seq<N>, calls: Seq<Call<N>>)
    requires
        nodes.len() > 0,
    ensures
        ({
            let issued = Node::initial(our_id, proposer_id, nodes).after_all(calls).issued();
            forall|i: int|
                0 <= i < issued.len() ==> is_addressed(#[trigger] issued[i], our_id, proposer_id)
        }),
    decreases calls.len(),
{
    let start = Node::initial(our_id, proposer_id, nodes);
    if calls.len() > 0 {
        let before = start.after_all(calls.drop_last());
        law_addressed(our_id, proposer_id, nodes, calls.drop_last());
        lemma_same_nodes(our_id, proposer_id, nodes, calls.drop_last());
        lemma_addressed_after(before, calls.last());
    }
}

/// A call keeps it that messages go to whom they are meant for.
proof fn lemma_addressed_after<N>(node: Node<N>, call: Call<N>)
    requires
        forall|i: int|
            0 <= i < node.issued().len() ==> is_addressed(
                #[trigger] node.issued()[i],
                node.state.our_id,
                node.state.proposer_id,
            ),
    ensures
        forall|i: int|
            0 <= i < node.after(call).issued().len() ==> is_addressed(
                #[trigger] node.after(call).issued()[i],
                node.state.our_id,
                node.state.proposer_id,
            ),
{
    let s = node.state;
    let after = node.after(call);
    let news = fresh(s, after.state);
    match call {
        Call::Message(sender, content) => {
            law_no_values_on_message(s, sender, content);
        },
        Call::Input(value) => {
            law_values_to_others(s, value);
        },
        Call::NextMessage => {
            assert(after.issued() =~= node.issued());
        },
        Call::NextOutput => {
            assert(after.issued() =~= node.issued());
        },
    }
    if call is Message || call is Input {
        assert(after.issued() =~= node.issued() + news);
        assert forall|i: int| 0 <= i < after.issued().len() implies is_addressed(
            #[trigger] after.issued()[i],
            s.our_id,
            s.proposer_id,
        ) by {
            if i < node.issued().len() {
                assert(after.issued()[i] == node.issued()[i]);
            } else {
                assert(after.issued()[i] == news[i - node.issued().len()]);
            }
        }
    }
}

/// Whatever calls of `DistAlgorithm` are made to a node, it sends at most one `Echo`.
pub proof fn law_one_echo<N>(our_id: N, proposer_id: N, nodes: Seq<N>, calls: Seq<Call<N>>)
    requires
        nodes.len() > 0,
    ensures
        ({
            let issued = Node::initial(our_id, proposer_id, nodes).after_all(calls).issued();
            forall|i: int, j: int|
                0 <= i < issued.len() && 0 <= j < issued.len() && (
                #[trigger] issued[i]).message is Echo && (#[trigger] issued[j]).message is Echo
                    ==> i == j
        }),
{
    let issued = Node::initial(our_id, proposer_id, nodes).after_all(calls).issued();
    lemma_valid_after_all(our_id, proposer_id, nodes, calls);
    law_addressed(our_id, proposer_id, nodes, calls);
    assert(forall|i: int|
        0 <= i < issued.len() && (#[trigger] issued[i]).message is Echo ==> is_echo(issued[i]));
}

/// Whatever calls of `DistAlgorithm` are made to a node, it sends at most one `Ready`.
pub proof fn law_one_ready<N>(our_id: N, proposer_id: N, nodes: Seq<N>, calls: Seq<Call<N>>)
    requires
        nodes.len() > 0,
    ensures
        ({
            let issued = Node::initial(our_id, proposer_id, nodes).after_all(calls).issued();
            forall|i: int, j: int|
                0 <= i < issued.len() && 0 <= j < issued.len() && (
                #[trigger] issued[i]).message is Ready && (#[trigger] issued[j]).message is Ready
                    ==> i == j
        }),
{
    let issued = Node::initial(our_id, proposer_id, nodes).after_all(calls).issued();
    lemma_valid_after_all(our_id, proposer_id, nodes, calls);
    law_addressed(our_id, proposer_id, nodes, calls);
    assert(forall|i: int|
        0 <= i < issued.len() && (#[trigger] issued[i]).message is Ready ==> is_ready(issued[i]));
}

/// Whatever calls of `DistAlgorithm` are made to a node, it has sent `Ready` if it has terminated:
/// no node decides without having told the others.
pub proof fn law_ready_if_terminated<N>(
    our_id: N,
    proposer_id: N,
    nodes: Seq<N>,
    calls: Seq<Call<N>>,
)
    requires
        nodes.len() > 0,
    ensures
        ({
            let node = Node::initial(our_id, proposer_id, nodes).after_all(calls);
            node.state.decided ==> {
                &&& node.state.ready_sent
                &&& exists|i: int|
                    0 <= i < node.issued().len() && is_ready(#[trigger] node.issued()[i])
            }
        }),
{
    let node = Node::initial(our_id, proposer_id, nodes).after_all(calls);
    lemma_valid_after_all(our_id, proposer_id, nodes, calls);
    if node.state.decided {
        assert(node.state.ready_senders(node.basis->0.hash).len() > node.state.faulty());
    }
}

/// Whatever calls of `DistAlgorithm` are made to a node, it outputs at most one value, and only if
/// it has terminated. If it has terminated, it has output one unless it could not decode the value.
pub proof fn law_one_output<N>(our_id: N, proposer_id: N, nodes: Seq<N>, calls: Seq<Call<N>>)
    requires
        nodes.len() > 0,
    ensures
        ({
            let node = Node::initial(our_id, proposer_id, nodes).after_all(calls);
            &&& node.produced().len() <= 1
            &&& node.produced().len() == 1 ==> node.state.decided
            &&& node.state.decided ==> (node.produced().len() == 1 <==> node.failure is None)
        }),
{
    lemma_valid_after_all(our_id, proposer_id, nodes, calls);
}

/// Whatever calls of `DistAlgorithm` are made to a node, what it outputs is held by the leaves that
/// it has rebuilt, and their root hash has come in the `Ready`s of more than two times as many
/// nodes as can be faulty, and in the `Echo`s of more nodes than can be faulty.
pub proof fn law_output_is_backed<N>(
    our_id: N,
    proposer_id: N,
    nodes: Seq<N>,
    calls: Seq<Call<N>>,
)
    requires
        nodes.len() > 0,
    ensures
        ({
            let node = Node::initial(our_id, proposer_id, nodes).after_all(calls);
            node.produced().len() > 0 ==> {
                let basis = node.basis->0;
                &&& node.state.is_convinced(basis.hash)
                &&& is_value_of(
                    node.produced()[0],
                    basis.hash,
                    node.rebuilt(),
                    node.state.data(),
                    node.state.parity(),
                )
            }
        }),
{
    lemma_valid_after_all(our_id, proposer_id, nodes, calls);
}

/// Whatever calls of `DistAlgorithm` are made to a node, if it has decided on the root hash of
/// coherent leaves, and on none but these, then it has output the value that they hold: the `Echo`s
/// that make a node decide are enough to decode it.
pub proof fn law_echos_suffice<N>(
    our_id: N,
    proposer_id: N,
    nodes: Seq<N>,
    calls: Seq<Call<N>>,
    whole: Seq<Seq<u8>>,
)
    requires
        nodes.len() > 0,
        nodes.no_duplicates(),
        Node::initial(our_id, proposer_id, nodes).is_faithful_all(calls),
        ({
            let node = Node::initial(our_id, proposer_id, nodes).after_all(calls);
            &&& node.state.decided
            &&& node.basis->0.hash == root_of(whole)
            &&& pieces_of(node.basis->0.leaves, whole)
            &&& coherent(whole, node.state.data(), node.state.parity())
        }),
    ensures
        ({
            let node = Node::initial(our_id, proposer_id, nodes).after_all(calls);
            node.produced() == seq![payload(joined(whole, node.state.data()), node.state.data())]
        }),
{
    let node = Node::initial(our_id, proposer_id, nodes).after_all(calls);
    lemma_valid_after_all(our_id, proposer_id, nodes, calls);
    lemma_same_nodes(our_id, proposer_id, nodes, calls);
    lemma_kept_after_all(our_id, proposer_id, nodes, calls);
    assert(recoverable(node.basis->0.leaves, node.state.data(), node.state.parity(), whole));
}

/// Whatever calls of `DistAlgorithm` are made to a node, if it has decided on the root hash of a
/// value, and on none but leaves of that value, then it has output that value.
pub proof fn law_value_comes_back<N>(
    our_id: N,
    proposer_id: N,
    nodes: Seq<N>,
    calls: Seq<Call<N>>,
    value: Seq<u8>,
)
    requires
        0 < nodes.len() <= 256,
        nodes.no_duplicates(),
        Node::initial(our_id, proposer_id, nodes).is_faithful_all(calls),
        ({
            let node = Node::initial(our_id, proposer_id, nodes).after_all(calls);
            let leaves = leaves_of(value, node.state.data(), node.state.parity());
            &&& node.state.decided
            &&& node.basis->0.hash == root_of(leaves)
            &&& pieces_of(node.basis->0.leaves, leaves)
        }),
    ensures
        Node::initial(our_id, proposer_id, nodes).after_all(calls).produced() == seq![value],
{
    let node = Node::initial(our_id, proposer_id, nodes).after_all(calls);
    let (data, parity) = (node.state.data(), node.state.parity());
    lemma_same_nodes(our_id, proposer_id, nodes, calls);
    lemma_leaves_coherent(value, data, parity);
    law_echos_suffice(our_id, proposer_id, nodes, calls, leaves_of(value, data, parity));
    law_round_trip(value, data, parity);
}

/// Whatever faithful calls are made to a node, it has kept its promise.
proof fn lemma_kept_after_all<N>(our_id: N, proposer_id: N, nodes: Seq<N>, calls: Seq<Call<N>>)
    requires
        nodes.len() > 0,
        Node::initial(our_id, proposer_id, nodes).is_faithful_all(calls),
    ensures
        Node::initial(our_id, proposer_id, nodes).after_all(calls).has_kept(),
    decreases calls.len(),
{
    let start = Node::initial(our_id, proposer_id, nodes);
    if calls.len() > 0 {
        let before = start.after_all(calls.drop_last());
        lemma_kept_after_all(our_id, proposer_id, nodes, calls.drop_last());
        lemma_valid_after_all(our_id, proposer_id, nodes, calls.drop_last());
        lemma_kept_after(before, calls.last());
    }
}

/// Who the nodes are never changes.
proof fn lemma_same_nodes<N>(our_id: N, proposer_id: N, nodes: Seq<N>, calls: Seq<Call<N>>)
    requires
        nodes.len() > 0,
    ensures
        ({
            let state = Node::initial(our_id, proposer_id, nodes).after_all(calls).state;
            &&& state.nodes == nodes
            &&& state.our_id == our_id
            &&& state.proposer_id == proposer_id
        }),
    decreases calls.len(),
{
    if calls.len() > 0 {
        let start = Node::initial(our_id, proposer_id, nodes);
        lemma_same_nodes(our_id, proposer_id, nodes, calls.drop_last());
        lemma_valid_after_all(our_id, proposer_id, nodes, calls.drop_last());
        law_nothing_taken_back(start.after_all(calls.drop_last()), calls.last());
    }
}

/// A faithful call to a node that has kept its promise lets it keep it.
pub(crate) proof fn lemma_kept_after<N>(node: Node<N>, call: Call<N>)
    requires
        node.is_valid(),
        node.has_kept(),
        node.is_faithful(call),
    ensures
        node.after(call).has_kept(),
{
    let after = node.after(call);
    let s = node.state;
    let t = after.state;
    law_nothing_taken_back(node, call);
    assert forall|whole: Seq<Seq<u8>>|
        after.basis is Some && after.basis->0.hash == root_of(whole) && #[trigger] recoverable(
            after.basis->0.leaves,
            t.data(),
            t.parity(),
            whole,
        ) implies after.produced() == seq![payload(joined(whole, t.data()), t.data())] by {
        if s.decided {
            assert(recoverable(node.basis->0.leaves, s.data(), s.parity(), whole));
            assert(after.produced() =~= node.produced());
        } else {
            assert(recoverable(after.basis->0.leaves, s.data(), s.parity(), whole));
            assert(t.output == Some(payload(joined(whole, s.data()), s.data())));
            assert(node.produced().len() == 0);
            assert(after.produced() =~= seq![payload(joined(whole, t.data()), t.data())]);
        }
    }
}

/// Whatever calls of `DistAlgorithm` are made to a node, it has terminated if and only if it has
/// seen one root hash in the `Ready`s of more than two times as many nodes as can be faulty, its
/// own among them if it has sent one, and in the `Echo`s of more nodes than can be faulty.
pub proof fn law_terminated_iff_convinced<N>(
    our_id: N,
    proposer_id: N,
    nodes: Seq<N>,
    calls: Seq<Call<N>>,
)
    requires
        nodes.len() > 0,
    ensures
        ({
            let state = Node::initial(our_id, proposer_id, nodes).after_all(calls).state;
            &&& state.decided <==> exists|hash: Seq<u8>| #[trigger] state.is_convinced(hash)
            &&& state.ready_sent ==> state.readys.contains_key(state.our_id)
        }),
{
    let node = Node::initial(our_id, proposer_id, nodes).after_all(calls);
    lemma_valid_after_all(our_id, proposer_id, nodes, calls);
    if node.state.decided {
        assert(node.state.is_convinced(node.basis->0.hash));
    }
}

/// Whatever calls of `DistAlgorithm` are made to a node, once it has seen `Echo`s with one root
/// hash from as many nodes as cannot be faulty, or `Ready`s with one root hash from more nodes than
/// can be faulty, it has multicast `Ready`.
pub proof fn law_ready_in_time<N>(
    our_id: N,
    proposer_id: N,
    nodes: Seq<N>,
    calls: Seq<Call<N>>,
    hash: Seq<u8>,
)
    requires
        nodes.len() > 0,
    ensures
        ({
            let node = Node::initial(our_id, proposer_id, nodes).after_all(calls);
            node.state.echoers(hash).len() >= node.state.total() - node.state.faulty()
                || node.state.ready_senders(hash).len() > node.state.faulty() ==> {
                &&& node.state.ready_sent
                &&& exists|i: int|
                    0 <= i < node.issued().len() && is_ready(#[trigger] node.issued()[i])
            }
        }),
{
    lemma_valid_after_all(our_id, proposer_id, nodes, calls);
}

/// A message takes nothing back.
proof fn lemma_message_grows<N>(s: State<N>, sender: N, content: Content)
    requires
        s.is_sound(),
        s.nodes.contains(sender),
    ensures
        ({
            let t = s.on_message(sender, content).state;
            &&& t.our_id == s.our_id
            &&& t.proposer_id == s.proposer_id
            &&& t.nodes == s.nodes
            &&& s.echos.submap_of(t.echos)
            &&& s.readys.submap_of(t.readys)
            &&& t.messages == s.messages + fresh(s, t)
            &&& s.echo_sent ==> t.echo_sent
            &&& s.ready_sent ==> t.ready_sent
            &&& s.decided ==> t.decided && t.output == s.output
            &&& !t.decided ==> t.output == s.output
        }),
{
    lemma_recorded(s, sender, content);
    lemma_fresh(s, sender, content);
    lemma_outcome(s, sender, content);
}

/// A call takes nothing back: not who the nodes are, nor what has been received, issued or output,
/// nor that the node has terminated.
#[verifier::rlimit(50)]
pub proof fn law_nothing_taken_back<N>(node: Node<N>, call: Call<N>)
    requires
        node.is_valid(),
    ensures
        ({
            let after = node.after(call);
            &&& after.is_valid()
            &&& after.state.our_id == node.state.our_id
            &&& after.state.proposer_id == node.state.proposer_id
            &&& after.state.nodes == node.state.nodes
            &&& node.state.echos.submap_of(after.state.echos)
            &&& node.state.readys.submap_of(after.state.readys)
            &&& forall|hash: Seq<u8>|
                node.state.echoers(hash).len() <= (#[trigger] after.state.echoers(hash)).len()
            &&& forall|hash: Seq<u8>|
                node.state.ready_senders(hash).len() <= (#[trigger] after.state.ready_senders(
                    hash,
                )).len()
            &&& node.issued().is_prefix_of(after.issued())
            &&& node.produced().is_prefix_of(after.produced())
            &&& node.state.echo_sent ==> after.state.echo_sent
            &&& node.state.ready_sent ==> after.state.ready_sent
            &&& node.state.decided ==> after.state.decided
        }),
{
    let s = node.state;
    let after = node.after(call);
    lemma_valid_after(node, call);
    match call {
        Call::Message(sender, content) => {
            if s.nodes.contains(sender) {
                lemma_message_grows(s, sender, content);
                assert(after.issued() =~= node.issued() + fresh(s, after.state));
            }
        },
        Call::Input(value) => {
            let proofs = proofs_of(leaves_of(value, s.data(), s.parity()));
            let mid = s.distribute(proofs);
            if s.our_id == s.proposer_id && s.nodes.contains(s.our_id) {
                let p = proofs[s.nodes.index_of(s.our_id)];
                let values = value_messages(s.nodes, s.our_id, proofs);
                assert(mid.is_sound());
                lemma_message_grows(mid, s.our_id, Content::Value(p));
                assert(after.issued() =~= node.issued() + values + fresh(mid, after.state));
            }
        },
        Call::NextMessage => {
            assert(after.issued() =~= node.issued());
        },
        Call::NextOutput => {
            assert(after.issued() =~= node.issued());
            assert(after.produced() =~= node.produced());
        },
    }
    assert forall|hash: Seq<u8>|
        node.state.echoers(hash).len() <= (#[trigger] after.state.echoers(hash)).len() by {
        lemma_echoers_grow(s.echos, after.state.echos, hash);
    }
    assert forall|hash: Seq<u8>|
        node.state.ready_senders(hash).len() <= (#[trigger] after.state.ready_senders(
            hash,
        )).len() by {
        lemma_ready_grow(s.readys, after.state.readys, hash);
    }
}

/// A second `Value` from the proposer, a second `Echo` or a second `Ready` from a node changes
/// nothing, and nor does a `Value` from another node than the proposer.
pub proof fn law_repetition_ignored<N>(s: State<N>, sender: N, content: Content)
    requires
        s.nodes.contains(sender),
        match content {
            Content::Value(_) => s.echo_sent || sender != s.proposer_id,
            Content::Echo(_) => s.echos.contains_key(sender),
            Content::Ready(_) => s.readys.contains_key(sender),
        },
    ensures
        s.on_message(sender, content).state == s,
        s.on_message(sender, content).result is Ok,
{
}

/// A message from outside the network is refused, and changes nothing.
pub proof fn law_stranger_refused<N>(s: State<N>, sender: N, content: Content)
    requires
        !s.nodes.contains(sender),
    ensures
        s.on_message(sender, content).state == s,
        s.on_message(sender, content).result == Err::<(), Error>(Error::UnknownSender),
{
}

/// Only the proposer can propose: an input to another node is refused, and changes nothing.
pub proof fn law_only_proposer_proposes<N>(s: State<N>, value: Seq<u8>)
    requires
        s.our_id != s.proposer_id,
    ensures
        s.on_input(value).state == s,
        s.on_input(value).result == Err::<(), Error>(Error::InstanceCannotPropose),
{
}

/// What a message leaves behind makes the node ignore it when it comes again.
proof fn lemma_taken<N>(s: State<N>, sender: N, content: Content)
    requires
        s.nodes.contains(sender),
    ensures
        ({
            let t = s.on_message(sender, content).state;
            &&& t.our_id == s.our_id
            &&& t.proposer_id == s.proposer_id
            &&& t.nodes == s.nodes
            &&& match content {
                Content::Value(p) => sender == s.proposer_id && s.accepts(p, s.our_id)
                    ==> t.echo_sent,
                Content::Echo(p) => s.accepts(p, sender) ==> t.echos.contains_key(sender),
                Content::Ready(_) => t.readys.contains_key(sender),
            }
        }),
{
}

/// A message that comes again from the same sender has no effect, whatever came of it the first
/// time.
pub proof fn law_replay_ignored<N>(s: State<N>, sender: N, content: Content)
    ensures
        ({
            let t = s.on_message(sender, content).state;
            &&& t.on_message(sender, content).state == t
            &&& t.on_message(sender, content).result == if s.nodes.contains(sender) {
                Ok::<(), Error>(())
            } else {
                Err(Error::UnknownSender)
            }
        }),
{
    let t = s.on_message(sender, content).state;
    if s.nodes.contains(sender) {
        lemma_taken(s, sender, content);
        match content {
            Content::Value(p) => {
                assert(t.accepts(p, t.our_id) == s.accepts(p, s.our_id));
                assert(t.on_value(sender, p).state == t);
            },
            Content::Echo(p) => {
                assert(t.accepts(p, sender) == s.accepts(p, sender));
                assert(t.on_echo(sender, p).state == t);
            },
            Content::Ready(hash) => {
                assert(t.on_ready(sender, hash).state == t);
            },
        }
    }
}

/// A node that is alone in the network outputs at once what it proposes.
pub proof fn law_alone<N>(id: N, value: Seq<u8>)
    ensures
        ({
            let step = State::initial(id, id, seq![id]).on_input(value);
            &&& step.result is Ok
            &&& step.state.decided
            &&& step.state.output == Some(value)
        }),
{
    let s = State::initial(id, id, seq![id]);
    let leaves = leaves_of(value, 1, 0);
    let p = proofs_of(leaves)[0];
    let d = s.distribute(proofs_of(leaves));
    let e = State { echo_sent: true, ..d }.record_echo(id, p);
    let t = s.on_input(value).state;
    law_shares_sound(s, value);
    lemma_leaves(value, 1, 0);
    lemma_leaves_coherent(value, 1, 0);
    law_round_trip(value, 1, 0);
    assert(s.nodes[0] == id);
    assert(s.nodes.index_of(id) == 0);
    assert(d.accepts(p, id));
    lemma_one_more_echo(d.echos, id, p, p.root_hash);
    lemma_one_more_ready(d.readys, id, p.root_hash, p.root_hash);
    assert(d.echoers(p.root_hash) =~= Set::empty());
    assert(d.ready_senders(p.root_hash) =~= Set::empty());
    assert(e.leaf_values(p.root_hash) =~= seq![Some(leaves[0])]);
    assert(completed(seq![Some(leaves[0])], 1, 0) =~= leaves);
}

/// It does not matter in which order two `Ready`s with one root hash come from two senders.
#[verifier::rlimit(50)]
pub proof fn law_readys_commute<N>(s: State<N>, a: N, b: N, hash: Seq<u8>)
    requires
        s.is_sound(),
    ensures
        s.on_ready(a, hash).state.on_ready(b, hash).state == s.on_ready(b, hash).state.on_ready(
            a,
            hash,
        ).state,
{
    let ab = s.on_ready(a, hash).state.on_ready(b, hash).state;
    let ba = s.on_ready(b, hash).state.on_ready(a, hash).state;
    if a != b && !s.readys.contains_key(a) && !s.readys.contains_key(b) {
        let with_a = s.readys.insert(a, hash);
        let with_b = s.readys.insert(b, hash);
        lemma_one_more_ready(s.readys, a, hash, hash);
        lemma_one_more_ready(s.readys, b, hash, hash);
        lemma_one_more_ready(with_a, b, hash, hash);
        lemma_one_more_ready(with_b, a, hash, hash);
        if !with_a.contains_key(s.our_id) {
            lemma_one_more_ready(with_a, s.our_id, hash, hash);
            if b != s.our_id {
                lemma_one_more_ready(with_a.insert(s.our_id, hash), b, hash, hash);
            }
        }
        if !with_b.contains_key(s.our_id) {
            lemma_one_more_ready(with_b, s.our_id, hash, hash);
            if a != s.our_id {
                lemma_one_more_ready(with_b.insert(s.our_id, hash), a, hash, hash);
            }
        }
        assert(with_a.insert(b, hash) =~= with_b.insert(a, hash));
        assert(with_a.insert(s.our_id, hash).insert(b, hash) =~= with_b.insert(
            s.our_id,
            hash,
        ).insert(a, hash));
        assert(with_a.insert(b, hash).insert(s.our_id, hash) =~= with_b.insert(a, hash).insert(
            s.our_id,
            hash,
        ));
        assert(ab.readys =~= ba.readys);
    }
}

/// The nodes that have sent `Echo`s with either of two different root hashes are no more than there
/// are, so there are never enough of both to make a node ready.
pub proof fn law_echo_counts_bounded<N>(
    our_id: N,
    proposer_id: N,
    nodes: Seq<N>,
    calls: Seq<Call<N>>,
    a: Seq<u8>,
    b: Seq<u8>,
)
    requires
        nodes.len() > 0,
        a != b,
    ensures
        ({
            let state = Node::initial(our_id, proposer_id, nodes).after_all(calls).state;
            &&& state.echoers(a).len() + state.echoers(b).len() <= nodes.len()
            &&& state.echoers(a).len() < nodes.len() - max_faulty(nodes.len())
                || state.echoers(b).len() < nodes.len() - max_faulty(nodes.len())
        }),
{
    let s = Node::initial(our_id, proposer_id, nodes).after_all(calls).state;
    lemma_valid_after_all(our_id, proposer_id, nodes, calls);
    lemma_same_nodes(our_id, proposer_id, nodes, calls);
    let all = nodes.to_set();
    seq_to_set_is_finite(nodes);
    nodes.lemma_cardinality_of_set();
    assert forall|id: N| s.echoers(a).contains(id) || s.echoers(b).contains(id) implies all.contains(
        id,
    ) by {
        assert(s.echos.contains_key(id));
        assert(s.accepts(s.echos[id], id));
    }
    s.echos.dom().lemma_len_filter(|id: N| s.echos[id].root_hash == a);
    s.echos.dom().lemma_len_filter(|id: N| s.echos[id].root_hash == b);
    lemma_set_disjoint_lens(s.echoers(a), s.echoers(b));
    lemma_len_subset(s.echoers(a) + s.echoers(b), all);
}

/// Handling a message makes a node send no `Value`s, and nothing to a single node.
pub proof fn law_no_values_on_message<N>(s: State<N>, sender: N, content: Content)
    ensures
        ({
            let t = s.on_message(sender, content).state;
            &&& t.messages == s.messages + fresh(s, t)
            &&& forall|i: int|
                0 <= i < fresh(s, t).len() ==> {
                    &&& !((#[trigger] fresh(s, t)[i]).message is Value)
                    &&& fresh(s, t)[i].target == Target::<N>::All
                }
        }),
{
    let t = s.on_message(sender, content).state;
    if s.nodes.contains(sender) {
        lemma_fresh(s, sender, content);
        assert forall|i: int| 0 <= i < fresh(s, t).len() implies {
            &&& !((#[trigger] fresh(s, t)[i]).message is Value)
            &&& fresh(s, t)[i].target == Target::<N>::All
        } by {
            assert(is_echo(fresh(s, t)[i]) || is_ready(fresh(s, t)[i]));
        }
    } else {
        assert(t.messages =~= s.messages + fresh(s, t));
    }
}

/// An input makes only the proposer send `Value`s, each to a single other node, and nothing else to
/// a single node.
pub proof fn law_values_to_others<N>(s: State<N>, value: Seq<u8>)
    ensures
        ({
            let t = s.on_input(value).state;
            &&& t.messages == s.messages + fresh(s, t)
            &&& forall|i: int|
                0 <= i < fresh(s, t).len() ==> is_addressed(
                    #[trigger] fresh(s, t)[i],
                    s.our_id,
                    s.proposer_id,
                )
        }),
{
    let t = s.on_input(value).state;
    let proofs = proofs_of(leaves_of(value, s.data(), s.parity()));
    let values = value_messages(s.nodes, s.our_id, proofs);
    let mid = s.distribute(proofs);
    lemma_value_messages(s.nodes, s.our_id, proofs);
    if s.our_id == s.proposer_id {
        assert forall|i: int| 0 <= i < values.len() implies is_addressed(
            #[trigger] values[i],
            s.our_id,
            s.proposer_id,
        ) by {
            assert(values[i].target is Node);
        }
        if s.nodes.contains(s.our_id) {
            let p = proofs[s.nodes.index_of(s.our_id)];
            let end = mid.on_message(s.our_id, Content::Value(p)).state;
            lemma_no_more_values(mid, s.our_id, Content::Value(p), values, fresh(mid, end));
            assert(t == end);
            assert(fresh(s, t) =~= values + fresh(mid, t));
        } else {
            assert(fresh(s, t) =~= values);
        }
    }
    assert(t.messages =~= s.messages + fresh(s, t));
}

/// What a message makes a node send goes to whom it is meant for, as what it sends already does.
proof fn lemma_no_more_values<N>(
    s: State<N>,
    sender: N,
    content: Content,
    values: Seq<TargetedMessage<Content, N>>,
    news: Seq<TargetedMessage<Content, N>>,
)
    requires
        news == fresh(s, s.on_message(sender, content).state),
        forall|i: int|
            0 <= i < values.len() ==> is_addressed(#[trigger] values[i], s.our_id, s.proposer_id),
    ensures
        s.on_message(sender, content).state.messages == s.messages + news,
        forall|i: int|
            0 <= i < (values + news).len() ==> is_addressed(
                #[trigger] (values + news)[i],
                s.our_id,
                s.proposer_id,
            ),
{
    law_no_values_on_message(s, sender, content);
    assert forall|i: int| 0 <= i < (values + news).len() implies is_addressed(
        #[trigger] (values + news)[i],
        s.our_id,
        s.proposer_id,
    ) by {
        if i >= values.len() {
            assert((values + news)[i] == news[i - values.len()]);
        } else {
            assert((values + news)[i] == values[i]);
        }
    }
}

} // verus!
