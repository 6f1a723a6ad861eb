//! What the operations do, in terms of what goes in and what comes out.
use reed_solomon_erasure::Error as CodecError;
use std::collections::BTreeSet;
use std::fmt::Debug;
use vstd::prelude::*;

use crate::broadcast::{Broadcast, BroadcastMessage, Error};
use crate::coding::Coding;
use crate::ids::{ascending, lawful_id, list_ids};
use crate::meaning::{
    hashes_clash, law_cut, law_fits, law_message_admitted, law_numbered, law_payload,
    law_proof_binds,
};
use crate::messaging::DistAlgorithm;
use crate::protocol::State;
use crate::shards::{
    completed, cut, cut_value, glue_shards, joined, law_round_trip, leaves_of, lemma_cut,
    lemma_leaves, number_shards, numbered, open_leaves, shard_len, unnumbered,
};
use crate::tree::{
    branch_to, digest_of, hash_leaf, lemma_branch, root_of, views, HashAlgorithm, InclusionProof,
    ProofContents,
};

verus! {

/// An instance can be made for every set of IDs but an empty one. For up to 256 nodes that
/// succeeds, and the instance knows who it is, who the others are, in order, and that less than a
/// third of them can be faulty. It has sent and received nothing.
pub proof fn law_new<N: Eq + Debug + Clone + Ord>(
    our_id: N,
    proposer_id: N,
    all_uids: BTreeSet<N>,
    r: Result<Broadcast<N>, Error>,
)
    requires
        lawful_id::<N>(),
        all_uids@.len() > 0,
        call_ensures(Broadcast::<N>::new, (our_id, proposer_id, all_uids), r),
    ensures
        call_requires(Broadcast::<N>::new, (our_id, proposer_id, all_uids)),
        all_uids@.len() > 256 ==> r == Err::<Broadcast<N>, Error>(
            Error::ReedSolomon(CodecError::TooManyShards),
        ),
        all_uids@.len() <= 256 ==> r is Ok,
        r matches Ok(b) ==> {
            &&& b@.our_id == our_id
            &&& b@.proposer_id == proposer_id
            &&& b@.nodes.to_set() == all_uids@
            &&& b@.nodes.len() == all_uids@.len()
            &&& 3 * b@.faulty() < all_uids@.len() <= 3 * b@.faulty() + 3
            &&& b@.data() == b@.faulty() + 1
            &&& b@.data() + b@.parity() == all_uids@.len()
            &&& !b@.echo_sent && !b@.ready_sent && !b@.decided
            &&& b@.messages.len() == 0
            &&& b@.output is None
        },
{
}

/// An instance says that it has terminated if it has decided, and only then.
pub proof fn law_terminated<N: Eq + Debug + Clone + Ord>(b: &Broadcast<N>, r: bool)
    requires
        call_ensures(<Broadcast<N> as DistAlgorithm>::terminated, (b,), r),
    ensures
        r == b@.decided,
{
}

/// An instance gives the ID that it was made with.
pub proof fn law_our_id<N: Eq + Debug + Clone + Ord>(b: &Broadcast<N>, r: &N)
    requires
        call_ensures(<Broadcast<N> as DistAlgorithm>::our_id, (b,), r),
    ensures
        *r == b@.our_id,
{
}

/// A value can be given to every instance that is not the proposer, and to the proposer if the
/// padded shards fit into memory, unless that makes it decide. To a proposer to which nothing has
/// happened it can always be given if they fit.
pub proof fn law_can_input<N: Eq + Debug + Clone + Ord>(
    b: &Broadcast<N>,
    input: &Vec<u8>,
    r: bool,
)
    requires
        b.wf(),
        b@.nodes.len() > 0,
        call_ensures(Broadcast::<N>::can_input, (b, input), r),
    ensures
        call_requires(Broadcast::<N>::can_input, (b, input)),
        ({
            let total = b@.nodes.len() as int;
            let data = (total - 1) / 3 + 1;
            let room = (input@.len() + data) / data * total <= usize::MAX;
            let fresh = b@ == State::initial(b@.our_id, b@.proposer_id, b@.nodes);
            let decides = b@.on_input(input@).state.decided != b@.decided;
            &&& b@.our_id != b@.proposer_id ==> r
            &&& b@.our_id == b@.proposer_id && !room ==> !r
            &&& room && (fresh || !decides) ==> r
        }),
{
    law_fits(*b, input@);
}

/// Every message can be handled but one from a node that makes the instance decide on leaves, with
/// the right root hash, that hold less than their first byte says.
pub proof fn law_can_handle_message<N: Eq + Debug + Clone + Ord>(
    b: &Broadcast<N>,
    sender_id: &N,
    message: &BroadcastMessage,
    r: bool,
)
    requires
        b.wf(),
        b@.nodes.len() > 0,
        call_ensures(Broadcast::<N>::can_handle_message, (b, sender_id, message), r),
    ensures
        call_requires(Broadcast::<N>::can_handle_message, (b, sender_id, message)),
        ({
            let t = b@.on_message(*sender_id, message@).state;
            let hash = message@.root_hash();
            let data = ((b@.nodes.len() - 1) / 3 + 1) as nat;
            let parity = (b@.nodes.len() - data) as nat;
            let leaves = completed(t.leaf_values(hash), data, parity);
            let bytes = joined(leaves, data);
            !r ==> {
                &&& b@.nodes.contains(*sender_id)
                &&& !b@.decided && t.decided
                &&& root_of(leaves) == hash
                &&& bytes.len() == 0 || bytes[0] >= bytes.len()
            }
        }),
{
    if !r {
        law_message_admitted(b@, *sender_id, message@);
    }
}

/// A value and an index are in place for a node if both give the node's place, and never otherwise.
pub proof fn law_is_in_place<N: Eq + Debug + Clone + Ord>(
    b: &Broadcast<N>,
    value: &Vec<u8>,
    index: usize,
    id: &N,
    r: bool,
)
    requires
        b.wf(),
        call_ensures(Broadcast::<N>::is_in_place, (b, value, index, id), r),
    ensures
        call_requires(Broadcast::<N>::is_in_place, (b, value, index, id)),
        r <==> {
            &&& value@.len() > 0
            &&& index == value@[0]
            &&& index < b@.nodes.len()
            &&& b@.nodes[index as int] == *id
        },
{
}

/// Cutting a value gives shards of one length, the rounded quotient, which hold the last byte of
/// the length of the value, the value and zeros, one after the other. The shards must fit into
/// memory.
pub proof fn law_cut_value(
    value: Vec<u8>,
    data: usize,
    parity: usize,
    r: Vec<Vec<u8>>,
    i: int,
    j: int,
)
    requires
        data > 0,
        (value@.len() + data) / data as int * (data + parity) <= usize::MAX,
        call_ensures(cut_value, (value, data, parity), r),
    ensures
        call_requires(cut_value, (value, data, parity)),
        ({
            let len = (value@.len() + data) / data as int;
            let k = i * len + j;
            &&& r@.len() == data + parity
            &&& 0 <= i < r@.len() ==> r@[i]@.len() == len
            &&& 0 <= i < r@.len() && 0 <= j < len ==> r@[i]@[j] == if k == 0 {
                (value@.len() % 256) as u8
            } else if k <= value@.len() {
                value@[k - 1]
            } else {
                0
            }
        }),
{
    let total = (data + parity) as nat;
    law_cut(value@, data as nat, total);
    assert(shard_len(value@.len() + 1, data as nat) == (value@.len() + data) / data as int);
    assert(views(r@).len() == r@.len());
    if 0 <= i < r@.len() {
        assert(views(r@)[i] == r@[i]@);
        assert(cut(value@, data as nat, total)[i] == r@[i]@);
    }
}

/// Numbering shards puts in front of each the byte that tells its place.
pub proof fn law_number_shards(shards: Vec<Vec<u8>>, r: Vec<Vec<u8>>, i: int)
    requires
        call_ensures(number_shards, (shards,), r),
        0 <= i < shards@.len(),
    ensures
        call_requires(number_shards, (shards,)),
        r@.len() == shards@.len(),
        r@[i]@ == seq![(i % 256) as u8] + shards@[i]@,
{
    law_numbered(views(shards@), i);
    assert(views(r@)[i] == r@[i]@);
    assert(views(r@).len() == r@.len());
    assert(r@[i]@ =~= seq![r@[i]@[0]] + r@[i]@.skip(1));
}

/// Gluing leaves gives the payload of what they hold, and needs no more than that they hold more
/// bytes than the first of them says.
pub proof fn law_glue_shards(leaves: &Vec<Vec<u8>>, n: usize, r: Vec<u8>, l: int)
    requires
        joined(views(leaves@), n as nat).len() > 0,
        joined(views(leaves@), n as nat)[0] < joined(views(leaves@), n as nat).len(),
        call_ensures(glue_shards, (leaves, n), r),
    ensures
        call_requires(glue_shards, (leaves, n)),
        ({
            let bytes = joined(views(leaves@), n as nat);
            let most = bytes.len() - 1;
            &&& r@ == bytes.subrange(1, 1 + r@.len() as int)
            &&& r@.len() <= most
            &&& r@.len() % 256 == bytes[0]
            &&& most - r@.len() >= n ==> r@.len() == bytes[0]
            &&& 0 <= l <= most && l % 256 == bytes[0] && most - l < n ==> l <= r@.len()
        }),
{
    law_payload(joined(views(leaves@), n as nat), n as nat, l);
}

/// A value that is cut into shards and numbered comes back when the leaves are glued.
pub proof fn law_cut_and_glued(
    value: Vec<u8>,
    data: usize,
    parity: usize,
    shards: Vec<Vec<u8>>,
    leaves: Vec<Vec<u8>>,
    r: Vec<u8>,
)
    requires
        0 < data <= 256,
        call_ensures(cut_value, (value, data, parity), shards),
        call_ensures(number_shards, (shards,), leaves),
        call_ensures(glue_shards, (&leaves, data), r),
    ensures
        call_requires(glue_shards, (&leaves, data)),
        r@ == value@,
{
    let (d, p) = (data as nat, parity as nat);
    let given = views(leaves@);
    let made = leaves_of(value@, d, p);
    law_round_trip(value@, d, p);
    lemma_leaves(value@, d, p);
    lemma_cut(value@, d, d + p);
    let f = |leaf: Seq<u8>| unnumbered(leaf);
    assert(given == numbered(cut(value@, d, d + p)));
    assert forall|i: int| 0 <= i < d implies unnumbered(#[trigger] given[i]) == unnumbered(
        made[i],
    ) by {
        law_numbered(cut(value@, d, d + p), i);
    }
    assert(given.take(d as int).map_values(f) =~= made.take(d as int).map_values(f));
    assert(joined(given, d) == joined(made, d));
}

/// Leaves are opened if their tree has the root hash that it should have, and otherwise refused.
pub proof fn law_open_leaves(
    leaves: &Vec<Vec<u8>>,
    tree_root: &[u8],
    root_hash: &[u8],
    n: usize,
    r: Result<Vec<u8>, Error>,
    glued: Vec<u8>,
)
    requires
        tree_root@ == root_hash@ ==> call_requires(glue_shards, (leaves, n)),
        call_ensures(glue_shards, (leaves, n), glued),
        call_ensures(open_leaves, (leaves, tree_root, root_hash, n), r),
    ensures
        tree_root@ == root_hash@ ==> (r matches Ok(value) && value@ == glued@),
        tree_root@ != root_hash@ ==> r == Err::<Vec<u8>, Error>(Error::RootHashMismatch),
{
}

/// A code is made for every number of data and parity shards, if there are both and no more than
/// 256 of them together, or no parity shards at all.
pub proof fn law_coding_new(data: usize, parity: usize, r: Result<Coding, Error>)
    requires
        data + parity <= usize::MAX,
        call_ensures(Coding::new, (data, parity), r),
    ensures
        call_requires(Coding::new, (data, parity)),
        parity == 0 ==> r == Ok::<Coding, Error>(Coding::Trivial(data)),
        parity > 0 && data == 0 ==> r == Err::<Coding, Error>(
            Error::ReedSolomon(CodecError::TooFewDataShards),
        ),
        parity > 0 && data > 0 && data + parity > 256 ==> r == Err::<Coding, Error>(
            Error::ReedSolomon(CodecError::TooManyShards),
        ),
        parity > 0 && data > 0 && data + parity <= 256 ==> r is Ok,
        r matches Ok(coding) ==> coding.data_shards() == data && coding.parity_shards() == parity,
{
}

/// A leaf is hashed with SHA-256, behind a zero byte.
pub proof fn law_hash_leaf(value: &Vec<u8>, r: Vec<u8>)
    requires
        call_ensures(hash_leaf, (value,), r),
    ensures
        call_requires(hash_leaf, (value,)),
        r@ == digest_of(HashAlgorithm::Sha256, seq![0u8] + value@),
{
}

/// Two proofs about one tree that are proven and lead to one place have the same value, unless
/// hashes clash.
pub proof fn law_is_proven(
    a: &InclusionProof,
    b: &InclusionProof,
    leaves: Seq<Seq<u8>>,
)
    requires
        call_ensures(InclusionProof::is_proven, (a,), true),
        call_ensures(InclusionProof::is_proven, (b,), true),
        leaves.len() > 0,
        a@.root_hash == root_of(leaves),
        b@.root_hash == root_of(leaves),
        a@.lemma.index(leaves.len()) == b@.lemma.index(leaves.len()),
        !hashes_clash(),
    ensures
        a@.value == b@.value,
        a@.value == leaves[a@.lemma.index(leaves.len()) as int],
{
    law_proof_binds(a@, leaves);
    law_proof_binds(b@, leaves);
}

/// A proof that is about a leaf of a SHA-256 tree, and holds the branch to it, is proven.
pub proof fn law_is_proven_of_leaf(p: &InclusionProof, leaves: Seq<Seq<u8>>, i: int, r: bool)
    requires
        0 <= i < leaves.len(),
        p@ == (ProofContents {
            algorithm: HashAlgorithm::Sha256,
            root_hash: root_of(leaves),
            lemma: branch_to(leaves, i),
            value: leaves[i],
        }),
        call_ensures(InclusionProof::is_proven, (p,), r),
    ensures
        r,
        p@.lemma.index(leaves.len()) == i,
{
    lemma_branch(leaves, i);
}

/// The IDs of a set are listed once each, in ascending order.
pub proof fn law_list_ids<N: Clone + Ord>(ids: &BTreeSet<N>, r: Vec<&N>)
    requires
        lawful_id::<N>(),
        call_ensures(list_ids::<N>, (ids,), r),
    ensures
        r@.len() == ids@.len(),
        r@.unref().to_set() == ids@,
        ascending(r@.unref()),
{
}

} // verus!
