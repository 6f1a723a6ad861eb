//! What the terms that the contracts speak of mean, said in numbers, bytes, hashes and messages.
use reed_solomon_erasure::Error as CodecError;
use std::fmt::Debug;
use vstd::arithmetic::power2::{lemma_pow2_unfold, pow2};
use vstd::prelude::*;
use vstd::set_lib::set_int_range;

use crate::broadcast::{contents_of, held, Broadcast, BroadcastMessage, Error};
use crate::coding::{
    codec_data_shards, codec_parity_shards, encode_failure, encoded, first_size, parity_bytes,
    restore_failure, restored_shards, Coding,
};
use crate::messaging::{DistAlgorithm, Target, TargetedMessage};
use crate::node::{fresh, lemma_not_admitted, lemma_one_more_echo};
use crate::protocol::{max_faulty, proofs_of, value_messages, Content, State};
use crate::shards::{
    coherent, completed, cut, decoded, framed, holds_payload, joined, law_round_trip, leaves_of,
    lemma_cut, lemma_leaves, numbered, padded, payload, recoverable, shard_len, some_unnumbered,
    unnumbered,
};
use crate::tree::{
    branch_to, digest_of, first_place, leaf_hash, left_leaves, lemma_first_place,
    lemma_left_leaves, node_hash, root_of, HashAlgorithm, InclusionProof, Lemma, ProofContents,
    Sibling,
};

verus! {

/// The nodes tolerate as many faulty ones as are less than a third of them, and no fewer.
pub proof fn law_tolerance(total: nat)
    requires
        total > 0,
    ensures
        3 * max_faulty(total) < total,
        total <= 3 * max_faulty(total) + 3,
{
}

/// Of as many shards as there are nodes, one more than there can be faulty nodes hold data: as many
/// suffice, and fewer do not.
pub proof fn law_shard_counts<N>(s: State<N>)
    requires
        s.nodes.len() > 0,
    ensures
        s.total() == s.nodes.len(),
        3 * s.faulty() < s.nodes.len(),
        s.nodes.len() <= 3 * s.faulty() + 3,
        s.data() == (s.nodes.len() - 1) / 3 + 1,
        s.data() + s.parity() == s.nodes.len(),
{
}

/// A value is cut into shards that are as short as they can be if `data` of them are to hold it and
/// a byte more.
pub proof fn law_shard_len(len: nat, data: nat)
    requires
        len > 0,
        data > 0,
    ensures
        shard_len(len, data) * data >= len,
        (shard_len(len, data) - 1) * data < len,
{
    crate::shards::lemma_shard_len(len, data);
    let q = shard_len(len, data) as int;
    assert((q - 1) * data == q * data - data) by (nonlinear_arith);
}

/// Cutting a value gives shards of one length, the rounded quotient, that hold the last byte of the
/// length of the value, the value and zeros, one after the other.
pub proof fn law_cut(value: Seq<u8>, data: nat, total: nat)
    requires
        data > 0,
    ensures
        ({
            let shards = cut(value, data, total);
            let len = (value.len() + data) as int / data as int;
            &&& shards.len() == total
            &&& forall|i: int| 0 <= i < total ==> (#[trigger] shards[i]).len() == len
            &&& forall|i: int, j: int|
                0 <= i < total && 0 <= j < len ==> #[trigger] shards[i][j] == if i * len + j == 0 {
                    (value.len() % 256) as u8
                } else if i * len + j <= value.len() {
                    value[i * len + j - 1]
                } else {
                    0
                }
        }),
{
    let shards = cut(value, data, total);
    let len = shard_len(framed(value).len(), data) as int;
    lemma_cut(value, data, total);
    assert(len == (value.len() + data) as int / data as int);
    assert forall|i: int, j: int| 0 <= i < total && 0 <= j < len implies #[trigger] shards[i][j]
        == if i * len + j == 0 {
                    (value.len() % 256) as u8
                } else if i * len + j <= value.len() {
                    value[i * len + j - 1]
                } else {
                    0
                } by {
        let k = i * len + j;
        assert(0 <= i * len && i * len + len <= len * total) by (nonlinear_arith)
            requires
                0 <= i,
                i + 1 <= total,
                len >= 0,
        ;
        assert(shards[i][j] == padded(value, data, total)[k]);
        if k > 0 && k <= value.len() {
            assert(framed(value)[k] == value[k - 1]);
        }
    }
}

/// A numbered shard is the shard behind a byte that tells its place.
pub proof fn law_numbered(shards: Seq<Seq<u8>>, i: int)
    requires
        0 <= i < shards.len(),
    ensures
        numbered(shards).len() == shards.len(),
        numbered(shards)[i].len() == shards[i].len() + 1,
        numbered(shards)[i][0] == (i % 256) as u8,
        numbered(shards)[i].skip(1) == shards[i],
{
    assert(numbered(shards)[i].skip(1) =~= shards[i]);
}

/// Encoding keeps the data shards, and makes the others of the bytes that the code adds to the
/// bytes in the same places of these.
pub proof fn law_encoded(shards: Seq<Seq<u8>>, data: nat, parity: nat, i: int, j: int)
    requires
        0 < data,
        shards.len() == data + parity,
        forall|k: int| 0 <= k < shards.len() ==> (#[trigger] shards[k]).len() == shards[0].len(),
        0 <= i < shards.len(),
        0 <= j < shards[0].len(),
    ensures
        encoded(shards, data, parity).len() == shards.len(),
        encoded(shards, data, parity)[i].len() == shards[0].len(),
        i < data ==> encoded(shards, data, parity)[i][j] == shards[i][j],
        i >= data ==> encoded(shards, data, parity)[i][j] == parity_bytes(
            Seq::new(data, |k: int| shards[k][j]),
            parity,
        )[i - data],
{
    let column = crate::coding::column(shards.take(data as int), j);
    assert(column =~= Seq::new(data, |k: int| shards[k][j]));
    if i < data {
        assert(column[i] == shards[i][j]);
    }
}

/// In a network of `N` nodes a value has `N` leaves. Each starts with its place, and behind that
/// has as many bytes as it takes for one more shard than there can be faulty nodes to hold the
/// value and a byte of its length: these shards hold them, and the others what the code adds.
pub proof fn law_leaves<N>(s: State<N>, value: Seq<u8>, i: int)
    requires
        0 <= i < s.nodes.len(),
    ensures
        ({
            let leaves = leaves_of(value, s.data(), s.parity());
            let data = (s.nodes.len() - 1) / 3 + 1;
            let len = (value.len() + data) / data;
            &&& leaves.len() == s.nodes.len()
            &&& leaves[i].len() == 1 + len
            &&& leaves[i][0] == (i % 256) as u8
            &&& i < data ==> forall|j: int|
                0 <= j < len ==> #[trigger] leaves[i][j + 1] == if i * len + j == 0 {
                    (value.len() % 256) as u8
                } else if i * len + j <= value.len() {
                    value[i * len + j - 1]
                } else {
                    0
                }
            &&& i >= data ==> forall|j: int|
                0 <= j < len ==> #[trigger] leaves[i][j + 1] == parity_bytes(
                    Seq::new(data as nat, |k: int| leaves[k][j + 1]),
                    (s.nodes.len() - data) as nat,
                )[i - data]
        }),
{
    let data = s.data();
    let parity = s.parity();
    let leaves = leaves_of(value, data, parity);
    let shards = cut(value, data, data + parity);
    let len = (value.len() + data) as int / data as int;
    law_cut(value, data, data + parity);
    lemma_leaves(value, data, parity);
    let coded = encoded(shards, data, parity);
    assert forall|k: int, j: int|
        0 <= k < leaves.len() && 0 <= j < len implies #[trigger] leaves[k][j + 1]
        == coded[k][j] by {
        law_numbered(coded, k);
        assert(leaves[k].skip(1)[j] == leaves[k][j + 1]);
    }
    law_numbered(coded, i);
    assert forall|j: int| 0 <= j < len && i < data implies #[trigger] leaves[i][j + 1]
        == shards[i][j] by {
        law_encoded(shards, data, parity, i, j);
    }
    assert forall|j: int| 0 <= j < len && i >= data implies #[trigger] leaves[i][j + 1]
        == parity_bytes(Seq::new(data, |k: int| leaves[k][j + 1]), parity)[i - data] by {
        law_encoded(shards, data, parity, i, j);
        assert forall|k: int| 0 <= k < data implies shards[k][j] == leaves[k][j + 1] by {
            law_encoded(shards, data, parity, k, j);
        }
        assert(Seq::new(data, |k: int| shards[k][j]) =~= Seq::new(
            data,
            |k: int| leaves[k][j + 1],
        ));
    }
}

/// Joining leaves puts one behind the other what follows their first bytes, and leaves out the
/// leaves from the `n`-th on.
pub proof fn law_joined(leaves: Seq<Seq<u8>>, n: nat)
    ensures
        n == 0 ==> joined(leaves, n) == Seq::<u8>::empty(),
        n < leaves.len() ==> joined(leaves, n + 1) == joined(leaves, n) + (
        if leaves[n as int].len() > 0 {
            leaves[n as int].skip(1)
        } else {
            Seq::<u8>::empty()
        }),
        n >= leaves.len() ==> joined(leaves, n) == joined(leaves, leaves.len()),
{
    let parts = |k: int| leaves.take(k).map_values(|leaf: Seq<u8>| unnumbered(leaf));
    if n == 0 {
        assert(parts(0) =~= Seq::<Seq<u8>>::empty());
    }
    if n < leaves.len() {
        let last = unnumbered(leaves[n as int]);
        assert(parts(n as int + 1) =~= parts(n as int).push(last));
        parts(n as int).lemma_flatten_push(last);
        if leaves[n as int].len() == 0 {
            assert(last =~= Seq::<u8>::empty());
        }
    }
}

/// The bytes hold a payload if they are more than the first of them says.
pub proof fn law_holds_payload(bytes: Seq<u8>)
    ensures
        holds_payload(bytes) <==> bytes.len() > 0 && bytes[0] < bytes.len(),
{
}

/// The payload follows the first byte, which is the last byte of its length. It is as long as it
/// can be, if that leaves less padding than there are data shards, and otherwise as long as that
/// byte says: no length `l` that agrees with it and leaves so little padding is greater.
#[verifier::spinoff_prover]
#[verifier::rlimit(50)]
pub proof fn law_payload(bytes: Seq<u8>, data: nat, l: int)
    requires
        bytes.len() > 0,
        bytes[0] < bytes.len(),
    ensures
        ({
            let p = payload(bytes, data);
            let most = bytes.len() - 1;
            &&& p == bytes.subrange(1, 1 + p.len() as int)
            &&& p.len() <= most
            &&& p.len() % 256 == bytes[0]
            &&& most - p.len() >= data ==> p.len() == bytes[0]
            &&& 0 <= l <= most && l % 256 == bytes[0] && most - l < data ==> l <= p.len()
        }),
{
    let most = bytes.len() - 1;
    let first = bytes[0] as int;
    let p = payload(bytes, data);
    let padding = (most - first) % 256;
    lemma_remainder(most - first);
    assert(p =~= bytes.subrange(1, 1 + p.len() as int));
    assert((most - padding) % 256 == first) by {
        lemma_same_remainder(most - padding, first, (most - first) / 256);
    }
    if 0 <= l <= most && l % 256 == bytes[0] && most - l < data {
        lemma_remainder(l);
        lemma_same_remainder(most - l, padding, (most - first) / 256 - l / 256);
    }
}

/// A number is made of its quotient and its remainder.
proof fn lemma_remainder(n: int)
    ensures
        n == 256 * (n / 256) + n % 256,
        0 <= n % 256 < 256,
{
}

/// Numbers that differ by a multiple have the same remainder.
proof fn lemma_same_remainder(a: int, b: int, k: int)
    requires
        a == b + 256 * k,
        0 <= b < 256,
    ensures
        a % 256 == b,
        a >= 0 ==> a >= b,
{
}

/// Restoring leaves keeps those that are there, and gives each of the others the byte that tells
/// its place.
pub proof fn law_completed(leaves: Seq<Option<Seq<u8>>>, data: nat, parity: nat, i: int)
    requires
        0 <= i < leaves.len(),
    ensures
        completed(leaves, data, parity).len() == leaves.len(),
        leaves[i] is Some ==> completed(leaves, data, parity)[i] == leaves[i]->0,
        leaves[i] is None ==> completed(leaves, data, parity)[i].len() > 0,
        leaves[i] is None ==> completed(leaves, data, parity)[i][0] == (i % 256) as u8,
{
}

/// Decoding leaves fails as restoring them does, or because the restored leaves have another root
/// hash, and otherwise gives what they hold.
pub proof fn law_decoded(
    leaves: Seq<Option<Seq<u8>>>,
    data: nat,
    parity: nat,
    root_hash: Seq<u8>,
)
    ensures
        ({
            let all = completed(leaves, data, parity);
            match decoded(leaves, data, parity, root_hash) {
                Ok(value) => restore_failure(leaves, data, parity) is None && root_of(all)
                    == root_hash && value == payload(joined(all, data), data),
                Err(Error::RootHashMismatch) => restore_failure(leaves, data, parity) is None
                    && root_of(all) != root_hash,
                Err(Error::ReedSolomon(e)) => restore_failure(leaves, data, parity) == Some(e),
                Err(_) => false,
            }
        }),
{
}

/// Without parity shards, nothing may be missing, and nothing else can go wrong.
pub proof fn law_trivial_restore(leaves: Seq<Option<Seq<u8>>>, data: nat)
    ensures
        (forall|i: int| 0 <= i < leaves.len() ==> (#[trigger] leaves[i]) is Some)
            ==> restore_failure(leaves, data, 0) is None && completed(leaves, data, 0)
            == leaves.map_values(|leaf: Option<Seq<u8>>| leaf->0),
        !(forall|i: int| 0 <= i < leaves.len() ==> (#[trigger] leaves[i]) is Some)
            ==> restore_failure(leaves, data, 0) == Some(CodecError::TooFewShardsPresent),
{
    if forall|i: int| 0 <= i < leaves.len() ==> (#[trigger] leaves[i]) is Some {
        assert(completed(leaves, data, 0) =~= leaves.map_values(
            |leaf: Option<Seq<u8>>| leaf->0,
        ));
    }
}

/// With parity shards, leaves are refused if there are too few or too many places or leaves, or if
/// they are empty or of different lengths, and only then.
pub proof fn law_restore(leaves: Seq<Option<Seq<u8>>>, data: nat, parity: nat)
    requires
        parity > 0,
    ensures
        ({
            let here = set_int_range(0, leaves.len() as int).filter(|i: int| leaves[i] is Some);
            let failure = restore_failure(leaves, data, parity);
            &&& failure == Some(CodecError::TooFewShards) <==> leaves.len() < data + parity
            &&& failure == Some(CodecError::TooManyShards) <==> leaves.len() > data + parity
            &&& failure is None ==> {
                &&& leaves.len() == data + parity
                &&& here.len() >= data
                &&& forall|i: int|
                    0 <= i < leaves.len() && (#[trigger] leaves[i]) is Some ==> leaves[i]->0.len()
                        > 0
                &&& forall|i: int, j: int|
                    0 <= i < leaves.len() && 0 <= j < leaves.len() && (
                    #[trigger] leaves[i]) is Some && (#[trigger] leaves[j]) is Some
                        ==> leaves[i]->0.len() == leaves[j]->0.len()
            }
            &&& leaves.len() == data + parity && here.len() >= data && here.len() > 0 && (forall|
                i: int,
                j: int,
            |
                0 <= i < leaves.len() && 0 <= j < leaves.len() && (#[trigger] leaves[i]) is Some && (
                #[trigger] leaves[j]) is Some ==> leaves[i]->0.len() == leaves[j]->0.len()
                    && leaves[i]->0.len() > 0) ==> failure is None
        }),
{
    crate::coding::lemma_some_place(leaves);
    crate::coding::lemma_first_size(leaves);
}

/// The first leaf that is there decides the size.
proof fn lemma_first(leaves: Seq<Option<Seq<u8>>>, first: int)
    requires
        0 <= first < leaves.len(),
        leaves[first] is Some,
        forall|k: int| 0 <= k < first ==> (#[trigger] leaves[k]) is None,
    ensures
        first_size(leaves) == Some(leaves[first]->0.len()),
    decreases leaves.len(),
{
    if first > 0 {
        let rest = leaves.drop_first();
        assert(leaves[0] is None);
        assert forall|k: int| 0 <= k < first - 1 implies (#[trigger] rest[k]) is None by {
            assert(rest[k] == leaves[k + 1]);
        }
        lemma_first(rest, first - 1);
    }
}

/// Where there are as many places as shards and the first leaf that is there is in place `first`,
/// what is wrong is found in this order: that it is empty, that another one has another length, and
/// that there are fewer than data shards.
pub proof fn law_restore_errors(
    leaves: Seq<Option<Seq<u8>>>,
    data: nat,
    parity: nat,
    first: int,
)
    requires
        parity > 0,
        leaves.len() == data + parity,
        0 <= first < leaves.len(),
        leaves[first] is Some,
        forall|k: int| 0 <= k < first ==> (#[trigger] leaves[k]) is None,
    ensures
        ({
            let here = set_int_range(0, leaves.len() as int).filter(|i: int| leaves[i] is Some);
            restore_failure(leaves, data, parity) == if leaves[first]->0.len() == 0 {
                Some(CodecError::EmptyShard)
            } else if exists|i: int|
                0 <= i < leaves.len() && (#[trigger] leaves[i]) is Some && leaves[i]->0.len()
                    != leaves[first]->0.len() {
                Some(CodecError::IncorrectShardSize)
            } else if here.len() < data {
                Some(CodecError::TooFewShardsPresent)
            } else {
                None
            }
        }),
{
    lemma_first(leaves, first);
    crate::coding::lemma_some_place(leaves);
}

/// Where no leaf is there, too few are.
pub proof fn law_restore_nothing(leaves: Seq<Option<Seq<u8>>>, data: nat, parity: nat)
    requires
        parity > 0,
        leaves.len() == data + parity,
        forall|i: int| 0 <= i < leaves.len() ==> (#[trigger] leaves[i]) is None,
    ensures
        restore_failure(leaves, data, parity) == Some(CodecError::TooFewShardsPresent),
{
    crate::coding::lemma_some_place(leaves);
}

/// Without parity shards everything can be encoded, and nothing changes. With them, shards are
/// refused if they are too few or too many, if the first is empty, or if they have different
/// lengths, in this order.
pub proof fn law_encode_errors(shards: Seq<Seq<u8>>, data: nat, parity: nat)
    ensures
        parity == 0 ==> encode_failure(shards, data, parity) is None && encoded(
            shards,
            data,
            parity,
        ) == shards,
        parity > 0 ==> encode_failure(shards, data, parity) == if shards.len() < data + parity {
            Some(CodecError::TooFewShards)
        } else if shards.len() > data + parity {
            Some(CodecError::TooManyShards)
        } else if shards[0].len() == 0 {
            Some(CodecError::EmptyShard)
        } else if exists|i: int|
            0 <= i < shards.len() && #[trigger] shards[i].len() != shards[0].len() {
            Some(CodecError::IncorrectShardSize)
        } else {
            None
        },
{
}

/// Coherent leaves start with their places, and if there are parity shards, there are as many
/// leaves as shards, all as long as the first, and the others hold what the code adds to those with
/// data.
pub proof fn law_coherent(leaves: Seq<Seq<u8>>, data: nat, parity: nat)
    requires
        data > 0,
        coherent(leaves, data, parity),
    ensures
        forall|i: int|
            0 <= i < leaves.len() ==> (#[trigger] leaves[i]).len() > 0 && leaves[i][0] == (i
                % 256) as u8,
        parity > 0 ==> leaves.len() == data + parity && leaves[0].len() > 1,
        parity > 0 ==> forall|i: int|
            0 <= i < leaves.len() ==> (#[trigger] leaves[i]).len() == leaves[0].len(),
        parity > 0 ==> forall|i: int, j: int|
            data <= i < leaves.len() && 0 < j < leaves[0].len() ==> #[trigger] leaves[i][j]
                == parity_bytes(Seq::new(data, |k: int| leaves[k][j]), parity)[i - data],
{
    let shards = crate::shards::all_unnumbered(leaves);
    let coded = encoded(shards, data, parity);
    assert forall|i: int| 0 <= i < leaves.len() implies (#[trigger] leaves[i]).len() > 0
        && leaves[i][0] == (i % 256) as u8 && leaves[i].skip(1) == coded[i] && shards[i]
        == coded[i] by {
        law_numbered(coded, i);
        assert(leaves[i] == numbered(coded)[i]);
    }
    if parity > 0 {
        assert forall|i: int| 0 <= i < leaves.len() implies (#[trigger] leaves[i]).len()
            == leaves[0].len() by {
            assert(shards[i].len() == shards[0].len());
            assert(leaves[i].skip(1) == shards[i] && leaves[0].skip(1) == shards[0]);
        }
        assert forall|i: int, j: int|
            data <= i < leaves.len() && 0 < j < leaves[0].len() implies #[trigger] leaves[i][j]
            == parity_bytes(Seq::new(data, |k: int| leaves[k][j]), parity)[i - data] by {
            law_encoded(shards, data, parity, i, j - 1);
            assert(leaves[i].skip(1)[j - 1] == leaves[i][j]);
            assert forall|k: int| 0 <= k < data implies shards[k][j - 1] == leaves[k][j] by {
                assert(leaves[k].skip(1)[j - 1] == leaves[k][j]);
                assert(leaves[k].len() == leaves[0].len());
            }
            assert(Seq::new(data, |k: int| shards[k][j - 1]) =~= Seq::new(
                data,
                |k: int| leaves[k][j],
            ));
        }
    }
}

/// A leaf is hashed behind a zero byte, and two hashes behind a one byte.
pub proof fn law_hashed(value: Seq<u8>, left: Seq<u8>, right: Seq<u8>)
    ensures
        leaf_hash(value) == digest_of(HashAlgorithm::Sha256, seq![0u8] + value),
        node_hash(HashAlgorithm::Sha256, left, right) == digest_of(
            HashAlgorithm::Sha256,
            seq![1u8] + left + right,
        ),
{
}

/// To the left of the root of a tree stand as many leaves as the greatest power of two that leaves
/// some to its right.
pub proof fn law_left_leaves(count: nat)
    requires
        count >= 2,
    ensures
        left_leaves(count) < count,
        count <= 2 * left_leaves(count),
        exists|k: nat| left_leaves(count) == #[trigger] pow2(k),
    decreases count,
{
    if count == 2 {
        vstd::arithmetic::power2::lemma2_to64();
        assert(pow2(0) == 1);
    } else {
        law_left_leaves((count + 1) / 2);
        let k = choose|k: nat| left_leaves((count + 1) / 2) == #[trigger] pow2(k);
        lemma_pow2_unfold(k + 1);
        assert(left_leaves(count) == pow2(k + 1));
    }
}

/// The root hash of a leaf is its own hash, and that of more leaves is made of the root hashes of
/// the leaves on both sides.
pub proof fn law_root(leaves: Seq<Seq<u8>>)
    requires
        leaves.len() > 0,
    ensures
        leaves.len() == 1 ==> root_of(leaves) == digest_of(
            HashAlgorithm::Sha256,
            seq![0u8] + leaves[0],
        ),
        leaves.len() > 1 ==> root_of(leaves) == digest_of(
            HashAlgorithm::Sha256,
            seq![1u8] + root_of(leaves.take(left_leaves(leaves.len()) as int)) + root_of(
                leaves.skip(left_leaves(leaves.len()) as int),
            ),
        ),
{
}

/// Two inputs of SHA-256 have the same digest, or digests of different lengths.
pub open spec fn hashes_clash() -> bool {
    exists|x: Seq<u8>, y: Seq<u8>|
        {
            let a = #[trigger] digest_of(HashAlgorithm::Sha256, x);
            let b = #[trigger] digest_of(HashAlgorithm::Sha256, y);
            x != y && a == b || a.len() != b.len()
        }
}

/// The bytes are a digest.
spec fn is_digest(hash: Seq<u8>) -> bool {
    exists|x: Seq<u8>| hash == #[trigger] digest_of(HashAlgorithm::Sha256, x)
}

/// A root hash is a digest.
proof fn lemma_root_digest(leaves: Seq<Seq<u8>>)
    ensures
        is_digest(root_of(leaves)),
{
    if leaves.len() > 0 {
        law_root(leaves);
    }
}

/// Two different pairs of digests that are hashed to the same are a clash.
proof fn lemma_pair_clash(a: Seq<u8>, b: Seq<u8>, c: Seq<u8>, d: Seq<u8>)
    requires
        node_hash(HashAlgorithm::Sha256, a, b) == node_hash(HashAlgorithm::Sha256, c, d),
        a != c || b != d,
        is_digest(a) && is_digest(c) || is_digest(b) && is_digest(d),
    ensures
        hashes_clash(),
{
    let x = seq![1u8] + a + b;
    let y = seq![1u8] + c + d;
    if x == y {
        assert(x.len() == y.len());
        if a.len() == c.len() {
            assert forall|i: int| 0 <= i < a.len() implies a[i] == c[i] by {
                assert(x[i + 1] == y[i + 1]);
            }
            assert forall|i: int| 0 <= i < b.len() implies b[i] == d[i] by {
                assert(x[i + 1 + a.len()] == y[i + 1 + a.len()]);
            }
            assert(a =~= c);
            assert(b =~= d);
        } else if is_digest(a) && is_digest(c) {
            let p = choose|p: Seq<u8>| a == #[trigger] digest_of(HashAlgorithm::Sha256, p);
            let q = choose|q: Seq<u8>| c == #[trigger] digest_of(HashAlgorithm::Sha256, q);
            assert(digest_of(HashAlgorithm::Sha256, p).len() != digest_of(
                HashAlgorithm::Sha256,
                q,
            ).len());
        } else {
            let p = choose|p: Seq<u8>| b == #[trigger] digest_of(HashAlgorithm::Sha256, p);
            let q = choose|q: Seq<u8>| d == #[trigger] digest_of(HashAlgorithm::Sha256, q);
            assert(digest_of(HashAlgorithm::Sha256, p).len() != digest_of(
                HashAlgorithm::Sha256,
                q,
            ).len());
        }
    } else {
        assert(digest_of(HashAlgorithm::Sha256, x) == digest_of(HashAlgorithm::Sha256, y));
    }
}

/// A leaf and a node that are hashed to the same are a clash.
proof fn lemma_kind_clash(value: Seq<u8>, a: Seq<u8>, b: Seq<u8>)
    requires
        leaf_hash(value) == node_hash(HashAlgorithm::Sha256, a, b),
    ensures
        hashes_clash(),
{
    let x = seq![0u8] + value;
    let y = seq![1u8] + a + b;
    assert(x[0] != y[0]);
    assert(digest_of(HashAlgorithm::Sha256, x) == digest_of(HashAlgorithm::Sha256, y));
}

/// Two different leaves that are hashed to the same are a clash.
proof fn lemma_leaf_clash(a: Seq<u8>, b: Seq<u8>)
    requires
        leaf_hash(a) == leaf_hash(b),
        a != b,
    ensures
        hashes_clash(),
{
    let x = seq![0u8] + a;
    let y = seq![0u8] + b;
    assert(x.skip(1) =~= a);
    assert(y.skip(1) =~= b);
    assert(digest_of(HashAlgorithm::Sha256, x) == digest_of(HashAlgorithm::Sha256, y));
}

/// Two different sequences of as many leaves that have the same root hash show that hashes clash.
pub proof fn law_roots_clash(a: Seq<Seq<u8>>, b: Seq<Seq<u8>>)
    requires
        a.len() == b.len(),
        a.len() > 0,
        a != b,
        root_of(a) == root_of(b),
    ensures
        hashes_clash(),
    decreases a.len(),
{
    law_root(a);
    law_root(b);
    if a.len() == 1 {
        if a[0] == b[0] {
            assert(a =~= b);
        }
        lemma_leaf_clash(a[0], b[0]);
    } else {
        let left = left_leaves(a.len()) as int;
        lemma_left_leaves(a.len());
        lemma_root_digest(a.take(left));
        lemma_root_digest(b.take(left));
        let same_left = root_of(a.take(left)) == root_of(b.take(left));
        let same_right = root_of(a.skip(left)) == root_of(b.skip(left));
        if !same_left || !same_right {
            lemma_pair_clash(
                root_of(a.take(left)),
                root_of(a.skip(left)),
                root_of(b.take(left)),
                root_of(b.skip(left)),
            );
        } else if a.take(left) != b.take(left) {
            law_roots_clash(a.take(left), b.take(left));
        } else if a.skip(left) != b.skip(left) {
            law_roots_clash(a.skip(left), b.skip(left));
        } else {
            assert(a =~= a.take(left) + a.skip(left));
            assert(b =~= b.take(left) + b.skip(left));
        }
    }
}

/// A branch that is sound and ends with the hash of a leaf starts with a digest.
proof fn lemma_branch_digest(lemma: Lemma, value: Seq<u8>)
    requires
        lemma.is_sound(HashAlgorithm::Sha256),
        lemma.hashes().last() == leaf_hash(value),
    ensures
        is_digest(lemma.node_hash),
{
    if lemma.sub_lemma is None {
        assert(lemma.hashes() =~= seq![lemma.node_hash]);
    }
}

/// A proof that is proven for another value than the one in its place in the tree shows that hashes
/// clash.
pub proof fn law_proof_binds(p: ProofContents, leaves: Seq<Seq<u8>>)
    requires
        p.is_proven(),
        p.root_hash == root_of(leaves),
        leaves.len() > 0,
        !hashes_clash(),
    ensures
        p.lemma.index(leaves.len()) < leaves.len(),
        p.value == leaves[p.lemma.index(leaves.len()) as int],
{
    if p.lemma.betrays(leaves, p.value) {
        lemma_betrayal(p.lemma, leaves, p.value);
    }
    crate::tree::law_bound(p, leaves);
}

/// A branch that betrays two inputs with one hash shows that hashes clash.
pub(crate) proof fn lemma_betrayal(lemma: Lemma, leaves: Seq<Seq<u8>>, value: Seq<u8>)
    requires
        lemma.is_sound(HashAlgorithm::Sha256),
        lemma.node_hash == root_of(leaves),
        lemma.hashes().last() == leaf_hash(value),
        leaves.len() > 0,
        lemma.betrays(leaves, value),
    ensures
        hashes_clash(),
    decreases lemma,
{
    let left = left_leaves(leaves.len()) as int;
    law_root(leaves);
    if leaves.len() >= 2 {
        lemma_left_leaves(leaves.len());
        lemma_root_digest(leaves.take(left));
        lemma_root_digest(leaves.skip(left));
    }
    match (lemma.sub_lemma, lemma.sibling_hash) {
        (Some(sub), Some(Sibling::Left(hash))) => {
            crate::tree::lemma_hashes(*sub);
            assert(lemma.hashes().last() == sub.hashes().last());
            lemma_branch_digest(*sub, value);
            if leaves.len() == 1 {
                lemma_kind_clash(leaves[0], hash, sub.node_hash);
            } else if hash != root_of(leaves.take(left)) || sub.node_hash != root_of(
                leaves.skip(left),
            ) {
                lemma_pair_clash(
                    hash,
                    sub.node_hash,
                    root_of(leaves.take(left)),
                    root_of(leaves.skip(left)),
                );
            } else {
                lemma_betrayal(*sub, leaves.skip(left), value);
            }
        },
        (Some(sub), Some(Sibling::Right(hash))) => {
            crate::tree::lemma_hashes(*sub);
            assert(lemma.hashes().last() == sub.hashes().last());
            lemma_branch_digest(*sub, value);
            if leaves.len() == 1 {
                lemma_kind_clash(leaves[0], sub.node_hash, hash);
            } else if sub.node_hash != root_of(leaves.take(left)) || hash != root_of(
                leaves.skip(left),
            ) {
                lemma_pair_clash(
                    sub.node_hash,
                    hash,
                    root_of(leaves.take(left)),
                    root_of(leaves.skip(left)),
                );
            } else {
                lemma_betrayal(*sub, leaves.take(left), value);
            }
        },
        _ => {
            assert(lemma.hashes() =~= seq![lemma.node_hash]);
            if leaves.len() == 1 {
                lemma_leaf_clash(value, leaves[0]);
            } else {
                lemma_kind_clash(
                    value,
                    root_of(leaves.take(left)),
                    root_of(leaves.skip(left)),
                );
            }
        },
    }
}

/// The leaves of a value start with different bytes, so two of them with the same hash show that
/// hashes clash.
pub proof fn law_twins_clash(value: Seq<u8>, data: nat, parity: nat)
    requires
        data > 0,
        data + parity <= 256,
        crate::tree::has_twins(leaves_of(value, data, parity)),
    ensures
        hashes_clash(),
{
    let leaves = leaves_of(value, data, parity);
    lemma_leaves(value, data, parity);
    let (i, j) = choose|i: int, j: int|
        0 <= i < j < leaves.len() && leaf_hash(#[trigger] leaves[i]) == leaf_hash(
            #[trigger] leaves[j],
        );
    assert(leaves[i][0] != leaves[j][0]);
    lemma_leaf_clash(leaves[i], leaves[j]);
}

/// Nothing is left out of a sequence if everything in it passes.
proof fn lemma_filter_all<A>(all: Seq<A>, test: spec_fn(A) -> bool)
    requires
        forall|i: int| 0 <= i < all.len() ==> test(#[trigger] all[i]),
    ensures
        all.filter(test) == all,
    decreases all.len(),
{
    reveal(Seq::filter);
    if all.len() > 0 {
        let head = all.drop_last();
        assert forall|i: int| 0 <= i < head.len() implies test(#[trigger] head[i]) by {
            assert(head[i] == all[i]);
        }
        lemma_filter_all(head, test);
        assert(test(all[all.len() - 1]));
        assert(head.push(all.last()) =~= all);
    } else {
        assert(all.filter(test) =~= all);
    }
}

/// A proposer sends one `Value` to each other node, in the order of the nodes, with the proof in
/// that node's place.
pub proof fn law_value_messages<N>(
    nodes: Seq<N>,
    our_id: N,
    proofs: Seq<ProofContents>,
    place: int,
)
    requires
        nodes.no_duplicates(),
        0 <= place < nodes.len(),
        nodes[place] == our_id,
    ensures
        ({
            let messages = value_messages(nodes, our_id, proofs);
            &&& messages.len() == nodes.len() - 1
            &&& forall|i: int|
                0 <= i < place ==> #[trigger] messages[i] == (TargetedMessage {
                    target: Target::Node(nodes[i]),
                    message: Content::Value(proofs[i]),
                })
            &&& forall|i: int|
                place <= i < nodes.len() - 1 ==> #[trigger] messages[i] == (TargetedMessage {
                    target: Target::Node(nodes[i + 1]),
                    message: Content::Value(proofs[i + 1]),
                })
        }),
{
    let all = nodes.map(
        |i: int, id: N|
            TargetedMessage { target: Target::Node(id), message: Content::Value(proofs[i]) },
    );
    let test = |m: TargetedMessage<Content, N>| m.target != Target::Node(our_id);
    let before = all.take(place);
    let own = seq![all[place]];
    let after = all.skip(place + 1);
    assert(all =~= before + own + after);
    Seq::filter_distributes_over_add(before + own, after, test);
    Seq::filter_distributes_over_add(before, own, test);
    assert forall|i: int| 0 <= i < before.len() implies test(#[trigger] before[i]) by {
        assert(nodes[i] != nodes[place]);
    }
    assert forall|i: int| 0 <= i < after.len() implies test(#[trigger] after[i]) by {
        assert(nodes[i + place + 1] != nodes[place]);
    }
    lemma_filter_all(before, test);
    lemma_filter_all(after, test);
    own.lemma_all_neg_filter_empty(test);
    let messages = value_messages(nodes, our_id, proofs);
    assert(messages =~= before + after);
    assert forall|i: int| 0 <= i < place implies #[trigger] messages[i] == (TargetedMessage {
        target: Target::Node(nodes[i]),
        message: Content::Value(proofs[i]),
    }) by {
        assert(before[i] == all[i]);
    }
    assert forall|i: int| place <= i < nodes.len() - 1 implies #[trigger] messages[i] == (
    TargetedMessage {
        target: Target::Node(nodes[i + 1]),
        message: Content::Value(proofs[i + 1]),
    }) by {
        assert(after[i - place] == all[i + 1]);
    }
}

/// A proposer that is none of the nodes sends one `Value` to each node, in their order.
pub proof fn law_value_messages_of_stranger<N>(
    nodes: Seq<N>,
    our_id: N,
    proofs: Seq<ProofContents>,
)
    requires
        !nodes.contains(our_id),
    ensures
        ({
            let messages = value_messages(nodes, our_id, proofs);
            &&& messages.len() == nodes.len()
            &&& forall|i: int|
                0 <= i < nodes.len() ==> #[trigger] messages[i] == (TargetedMessage {
                    target: Target::Node(nodes[i]),
                    message: Content::Value(proofs[i]),
                })
        }),
{
    let all = nodes.map(
        |i: int, id: N|
            TargetedMessage { target: Target::Node(id), message: Content::Value(proofs[i]) },
    );
    let test = |m: TargetedMessage<Content, N>| m.target != Target::Node(our_id);
    assert forall|i: int| 0 <= i < all.len() implies test(#[trigger] all[i]) by {
        assert(nodes.contains(nodes[i]));
    }
    lemma_filter_all(all, test);
}

/// Before anything has happened, a node has sent, received and output nothing.
pub proof fn law_initial<N>(our_id: N, proposer_id: N, nodes: Seq<N>)
    ensures
        ({
            let s = State::initial(our_id, proposer_id, nodes);
            &&& s.our_id == our_id && s.proposer_id == proposer_id && s.nodes == nodes
            &&& !s.echo_sent && !s.ready_sent && !s.decided
            &&& forall|id: N| !#[trigger] s.echos.contains_key(id)
            &&& forall|id: N| !#[trigger] s.readys.contains_key(id)
            &&& s.messages.len() == 0
            &&& s.output is None
        }),
{
}

/// The nodes that count for a root hash are those whose `Echo` or `Ready` with it was taken down,
/// and the leaves that count are the values of these `Echo`s, in the places of the nodes.
pub proof fn law_counted<N>(s: State<N>, hash: Seq<u8>, id: N, i: int)
    requires
        0 <= i < s.nodes.len(),
    ensures
        s.echoers(hash).contains(id) <==> s.echos.contains_key(id) && s.echos[id].root_hash
            == hash,
        s.ready_senders(hash).contains(id) <==> s.readys.contains_key(id) && s.readys[id] == hash,
        s.leaf_values(hash).len() == s.nodes.len(),
        s.leaf_values(hash)[i] == if s.echos.contains_key(s.nodes[i])
            && s.echos[s.nodes[i]].root_hash == hash {
            Some(s.echos[s.nodes[i]].value)
        } else {
            None
        },
{
}

/// A proof is accepted from a node if it is a valid SHA-256 proof of its value, and both the value
/// and the branch give that node's place.
pub proof fn law_accepts<N>(s: State<N>, p: ProofContents, id: N)
    ensures
        s.accepts(p, id) <==> {
            &&& p.algorithm is Sha256
            &&& p.lemma.node_hash == p.root_hash
            &&& p.lemma.is_sound(HashAlgorithm::Sha256)
            &&& p.lemma.hashes().last() == digest_of(
                HashAlgorithm::Sha256,
                seq![0u8] + p.value,
            )
            &&& p.value.len() > 0
            &&& p.value[0] < s.nodes.len()
            &&& s.nodes[p.value[0] as int] == id
            &&& p.lemma.index(s.nodes.len()) == p.value[0]
        },
{
}

/// Handling a message from one of the nodes succeeds unless it makes the node decide and decoding
/// fails. Then the output stays as it was, and the error is that of decoding.
#[verifier::rlimit(50)]
pub proof fn law_message_result<N>(s: State<N>, sender: N, content: Content)
    ensures
        ({
            let step = s.on_message(sender, content);
            let newly = step.state.decided && !s.decided;
            &&& !s.nodes.contains(sender) ==> step.result == Err::<(), Error>(
                Error::UnknownSender,
            ) && step.state == s
            &&& s.decided ==> step.state.decided
            &&& s.nodes.contains(sender) && !newly ==> step.result == Ok::<(), Error>(())
                && step.state.output == s.output
            &&& s.nodes.contains(sender) && newly ==> match step.result {
                Ok(_) => step.state.output is Some,
                Err(Error::RootHashMismatch) => step.state.output == s.output,
                Err(Error::ReedSolomon(_)) => step.state.output == s.output,
                Err(_) => false,
            }
        }),
{
}

/// Proposing a value succeeds at a proposer that is one of the nodes, unless that makes it decide
/// and decoding fails. At another node it fails without effect, and at a proposer that is none of
/// the nodes it fails when the `Value`s have been queued.
#[verifier::rlimit(50)]
pub proof fn law_input_result<N>(s: State<N>, value: Seq<u8>)
    ensures
        ({
            let step = s.on_input(value);
            let newly = step.state.decided && !s.decided;
            let member = s.nodes.contains(s.our_id);
            &&& s.our_id != s.proposer_id ==> step.result == Err::<(), Error>(
                Error::InstanceCannotPropose,
            ) && step.state == s
            &&& s.our_id == s.proposer_id && !member ==> step.result == Err::<(), Error>(
                Error::ProofConstructionFailed,
            )
            &&& s.our_id == s.proposer_id && member && !newly ==> step.result == Ok::<(), Error>(
                (),
            )
            &&& s.our_id == s.proposer_id && member && newly ==> match step.result {
                Ok(_) => step.state.output is Some,
                Err(Error::RootHashMismatch) => step.state.output == s.output,
                Err(Error::ReedSolomon(_)) => step.state.output == s.output,
                Err(_) => false,
            }
        }),
{
}

/// What a message makes a node send: a `Ready` with the root hash of the message, if the node
/// becomes ready, and then an `Echo` of the proof in the message, if it is the first `Value` that
/// it accepts.
#[verifier::rlimit(50)]
pub proof fn law_sent<N>(s: State<N>, sender: N, content: Content)
    ensures
        ({
            let t = s.on_message(sender, content).state;
            let ready = if t.ready_sent && !s.ready_sent {
                seq![
                    TargetedMessage {
                        target: Target::<N>::All,
                        message: Content::Ready(content.root_hash()),
                    },
                ]
            } else {
                Seq::empty()
            };
            let echo = if t.echo_sent && !s.echo_sent {
                seq![
                    TargetedMessage {
                        target: Target::<N>::All,
                        message: Content::Echo(content->Value_0),
                    },
                ]
            } else {
                Seq::empty()
            };
            t.messages == s.messages + ready + echo
        }),
{
    let t = s.on_message(sender, content).state;
    if t.ready_sent && !s.ready_sent || t.echo_sent && !s.echo_sent {
        assert(s.nodes.contains(sender));
    }
    assert(t.messages =~= s.messages + fresh(s, t)) by {
        if s.nodes.contains(sender) {
            crate::node::lemma_fresh(s, sender, content);
        }
    }
    let ready = if t.ready_sent && !s.ready_sent {
        seq![
            TargetedMessage {
                target: Target::<N>::All,
                message: Content::Ready(content.root_hash()),
            },
        ]
    } else {
        Seq::empty()
    };
    let echo = if t.echo_sent && !s.echo_sent {
        seq![
            TargetedMessage {
                target: Target::<N>::All,
                message: Content::Echo(content->Value_0),
            },
        ]
    } else {
        Seq::empty()
    };
    assert(t.messages =~= s.messages + ready + echo);
}

/// What a message makes a node take down. A `Ready` is taken down if it is the sender's first, an
/// `Echo` if it is the sender's first that can be accepted, and a `Value` as the node's own `Echo`
/// if it is the first from the proposer that can be accepted. Nothing else is, but for the node's
/// own `Ready` when it becomes ready.
#[verifier::rlimit(50)]
pub proof fn law_taken_down<N>(s: State<N>, sender: N, content: Content)
    requires
        s.nodes.contains(sender),
    ensures
        ({
            let t = s.on_message(sender, content).state;
            let own = t.ready_sent && !s.ready_sent && !s.readys.contains_key(s.our_id);
            let hash = content.root_hash();
            &&& t.our_id == s.our_id && t.proposer_id == s.proposer_id && t.nodes == s.nodes
            &&& match content {
                Content::Ready(_) => {
                    &&& t.echos == s.echos && t.echo_sent == s.echo_sent
                    &&& forall|id: N| #[trigger]
                        t.readys.contains_key(id) <==> s.readys.contains_key(id) || id == sender
                            || own && id == s.our_id
                    &&& forall|id: N| #[trigger]
                        t.readys.contains_key(id) ==> t.readys[id] == if s.readys.contains_key(id) {
                            s.readys[id]
                        } else {
                            hash
                        }
                },
                Content::Echo(p) => {
                    &&& t.echo_sent == s.echo_sent
                    &&& t.echos == if s.accepts(p, sender) && !s.echos.contains_key(sender) {
                        s.echos.insert(sender, p)
                    } else {
                        s.echos
                    }
                    &&& t.readys == if own {
                        s.readys.insert(s.our_id, hash)
                    } else {
                        s.readys
                    }
                },
                Content::Value(p) => {
                    let taken = sender == s.proposer_id && !s.echo_sent && s.accepts(p, s.our_id);
                    &&& t.echo_sent == (s.echo_sent || taken)
                    &&& t.echos == if taken && !s.echos.contains_key(s.our_id) {
                        s.echos.insert(s.our_id, p)
                    } else {
                        s.echos
                    }
                    &&& t.readys == if own {
                        s.readys.insert(s.our_id, hash)
                    } else {
                        s.readys
                    }
                },
            }
        }),
{
}

/// When a node becomes ready: with the `Echo` that makes the nodes behind a root hash as many as
/// all but the faulty ones, if less than a third are faulty, or with the `Ready` that makes them
/// one more than the faulty ones can be.
#[verifier::rlimit(50)]
pub proof fn law_becomes_ready<N>(s: State<N>, sender: N, content: Content)
    requires
        s.nodes.contains(sender),
    ensures
        ({
            let t = s.on_message(sender, content).state;
            let hash = content.root_hash();
            let f = (s.nodes.len() - 1) / 3;
            &&& s.ready_sent ==> t.ready_sent
            &&& !s.ready_sent ==> (t.ready_sent <==> match content {
                Content::Ready(_) => !s.readys.contains_key(sender) && s.record_ready(
                    sender,
                    hash,
                ).ready_senders(hash).len() == f + 1,
                _ => t.echos != s.echos && t.echoers(hash).len() >= s.nodes.len() - f,
            })
        }),
{
    let t = s.on_message(sender, content).state;
    law_taken_down(s, sender, content);
    match content {
        Content::Ready(_) => {},
        Content::Echo(p) => {
            if s.accepts(p, sender) && !s.echos.contains_key(sender) {
                assert(t.echos.contains_key(sender));
            }
        },
        Content::Value(p) => {
            if !s.echos.contains_key(s.our_id) && s.accepts(p, s.our_id) && !s.echo_sent && sender
                == s.proposer_id {
                assert(t.echos.contains_key(s.our_id));
            }
        },
    }
}

/// When a node decides: with the message that lets it have a root hash in the `Ready`s of more than
/// two times as many nodes as can be faulty, and in the `Echo`s of more than can be faulty.
#[verifier::rlimit(50)]
pub proof fn law_decides<N>(s: State<N>, sender: N, content: Content)
    requires
        s.nodes.contains(sender),
        !s.decided,
    ensures
        ({
            let t = s.on_message(sender, content).state;
            let hash = content.root_hash();
            let f = (s.nodes.len() - 1) / 3;
            let enough = t.ready_senders(hash).len() > 2 * f && t.echoers(hash).len() > f;
            &&& t.decided ==> enough
            &&& enough && (t.echos != s.echos || t.readys != s.readys) ==> t.decided
        }),
{
}

/// What a node outputs when it decides: what the leaves hold that are restored from those echoed
/// for the root hash, which are coherent and have that root hash.
#[verifier::rlimit(50)]
pub proof fn law_outputs<N>(s: State<N>, sender: N, content: Content)
    requires
        s.nodes.contains(sender),
    ensures
        ({
            let step = s.on_message(sender, content);
            let t = step.state;
            let hash = content.root_hash();
            let data = (s.nodes.len() - 1) / 3 + 1;
            let parity = s.nodes.len() - data;
            let leaves = completed(t.leaf_values(hash), data as nat, parity as nat);
            t.decided && !s.decided ==> {
                &&& step.result is Ok <==> restore_failure(
                    t.leaf_values(hash),
                    data as nat,
                    parity as nat,
                ) is None && root_of(leaves) == hash && coherent(leaves, data as nat, parity as nat)
                &&& step.result is Ok ==> t.output == Some(
                    payload(joined(leaves, data as nat), data as nat),
                )
            }
        }),
{
}

/// A node can handle every message but one that makes it decide on leaves, with the right root
/// hash, that hold less than their first byte says.
pub proof fn law_message_admitted<N>(s: State<N>, sender: N, content: Content)
    requires
        !s.admits_message(sender, content),
    ensures
        ({
            let t = s.on_message(sender, content).state;
            let hash = content.root_hash();
            let bytes = joined(completed(t.leaf_values(hash), s.data(), s.parity()), s.data());
            &&& s.nodes.contains(sender)
            &&& !s.decided && t.decided
            &&& root_of(completed(t.leaf_values(hash), s.data(), s.parity())) == hash
            &&& bytes.len() == 0 || bytes[0] >= bytes.len()
        }),
{
    let t = s.on_message(sender, content).state;
    lemma_not_admitted(s, sender, content);
}

/// Proposing a value is queueing a `Value` with each other node's proof, and then handling the
/// proposer's own proof as a `Value` that comes from itself.
pub proof fn law_input<N>(s: State<N>, value: Seq<u8>, place: int)
    requires
        s.our_id == s.proposer_id,
        s.nodes.no_duplicates(),
        0 <= place < s.nodes.len(),
        s.nodes[place] == s.our_id,
    ensures
        ({
            let data = (s.nodes.len() - 1) / 3 + 1;
            let leaves = leaves_of(value, data as nat, (s.nodes.len() - data) as nat);
            let proofs = proofs_of(leaves);
            let queued = State {
                messages: s.messages + value_messages(s.nodes, s.our_id, proofs),
                ..s
            };
            &&& proofs.len() == s.nodes.len()
            &&& s.on_input(value) == queued.on_message(s.our_id, Content::Value(proofs[place]))
        }),
{
    let leaves = leaves_of(value, s.data(), s.parity());
    lemma_leaves(value, s.data(), s.parity());
    assert(s.nodes.contains(s.our_id));
    assert(s.nodes.index_of(s.our_id) == place);
}

/// A node can be given every value but one that makes it decide on leaves that hold less than their
/// first byte says.
pub proof fn law_input_admitted<N>(s: State<N>, value: Seq<u8>)
    requires
        !s.admits_input(value),
    ensures
        s.our_id == s.proposer_id,
        s.nodes.contains(s.our_id),
        !s.decided,
        s.on_input(value).state.decided,
{
    let proofs = proofs_of(leaves_of(value, s.data(), s.parity()));
    let p = proofs[s.nodes.index_of(s.our_id)];
    lemma_not_admitted(s.distribute(proofs), s.our_id, Content::Value(p));
}

/// A proposer to which nothing has happened can be given every value.
pub proof fn law_first_input_admitted<N>(id: N, nodes: Seq<N>, value: Seq<u8>)
    requires
        0 < nodes.len() <= 256,
        nodes.contains(id),
    ensures
        State::initial(id, id, nodes).admits_input(value),
{
    let s = State::initial(id, id, nodes);
    let leaves = leaves_of(value, s.data(), s.parity());
    let proofs = proofs_of(leaves);
    let p = proofs[nodes.index_of(id)];
    let d = s.distribute(proofs);
    let e = d.record_echo(id, p);
    let hash = p.root_hash;
    if !s.admits_input(value) {
        law_input_admitted(s, value);
        lemma_not_admitted(d, id, Content::Value(p));
        let t = d.on_message(id, Content::Value(p)).state;
        lemma_leaves(value, s.data(), s.parity());
        lemma_one_more_echo(d.echos, id, p, hash);
        assert(d.echoers(hash) =~= Set::empty());
        assert(d.ready_senders(hash) =~= Set::empty());
        assert(t.ready_sent);
        assert(nodes.len() == 1);
        assert(nodes[0] == id);
        assert(t.leaf_values(hash) =~= seq![Some(leaves[0])]);
        assert(completed(seq![Some(leaves[0])], 1, 0) =~= leaves);
        law_round_trip(value, 1, 0);
    }
}

/// A value fits into memory if the shards do that as many bytes as it has and one more are cut
/// into, one for each node, where one more than a third of the nodes but one hold them.
pub proof fn law_fits<N: Eq + Debug + Clone + Ord>(broadcast: Broadcast<N>, value: Seq<u8>)
    requires
        broadcast@.nodes.len() > 0,
    ensures
        ({
            let total = broadcast@.nodes.len() as int;
            let data = (total - 1) / 3 + 1;
            broadcast.fits(value) <==> (value.len() + data) / data * total <= usize::MAX
        }),
{
    let d = broadcast@.data();
    assert((value.len() + 1 + d - 1) as nat / d == (value.len() + d) as int / d as int);
}

/// What an instance says through the interface of distributed algorithms is what it knows.
pub proof fn law_interface<N: Eq + Debug + Clone + Ord>(
    broadcast: Broadcast<N>,
    input: Vec<u8>,
    sender_id: N,
    message: BroadcastMessage,
)
    requires
        broadcast.wf(),
    ensures
        broadcast.is_terminated() == broadcast@.decided,
        broadcast.id() == broadcast@.our_id,
        broadcast.pending().len() == broadcast@.messages.len(),
        forall|i: int|
            0 <= i < broadcast.pending().len() ==> {
                &&& (#[trigger] broadcast.pending()[i]).target == broadcast@.messages[i].target
                &&& broadcast.pending()[i].message@ == broadcast@.messages[i].message
            },
        broadcast.pending_output() is Some <==> broadcast@.output is Some,
        broadcast.pending_output() matches Some(value) ==> broadcast@.output == Some(value@),
        broadcast.admits_message(sender_id, message) == broadcast@.admits_message(
            sender_id,
            message@,
        ),
        broadcast.admits_input(input) == (broadcast@.our_id != broadcast@.proposer_id
            || broadcast.fits(input@) && broadcast@.admits_input(input@)),
        match message {
            BroadcastMessage::Value(p) => message@ == Content::Value(p@),
            BroadcastMessage::Echo(p) => message@ == Content::Echo(p@),
            BroadcastMessage::Ready(hash) => message@ == Content::Ready(hash@),
        },
        message@.root_hash() == match message@ {
            Content::Value(p) => p.root_hash,
            Content::Echo(p) => p.root_hash,
            Content::Ready(hash) => hash,
        },
{
    assert(contents_of(broadcast.pending()).len() == broadcast.pending().len());
    assert forall|i: int| 0 <= i < broadcast.pending().len() implies {
        &&& (#[trigger] broadcast.pending()[i]).target == broadcast@.messages[i].target
        &&& broadcast.pending()[i].message@ == broadcast@.messages[i].message
    } by {
        assert(contents_of(broadcast.pending())[i] == broadcast@.messages[i]);
    }
}

/// A leaf that is restored is the byte that tells its place and what the code gives for the bytes
/// behind the first ones, unless there are none behind the first that is there.
pub proof fn law_restored_leaf(
    leaves: Seq<Option<Seq<u8>>>,
    data: nat,
    parity: nat,
    first: int,
    i: int,
)
    requires
        parity > 0,
        0 <= first < leaves.len(),
        leaves[first] is Some,
        forall|k: int| 0 <= k < first ==> (#[trigger] leaves[k]) is None,
        0 <= i < leaves.len(),
        leaves[i] is None,
    ensures
        ({
            let shards = Seq::new(
                leaves.len(),
                |k: int|
                    match leaves[k] {
                        Some(leaf) => Some(
                            if leaf.len() > 0 {
                                leaf.skip(1)
                            } else {
                                leaf
                            },
                        ),
                        None => None,
                    },
            );
            completed(leaves, data, parity)[i] == seq![(i % 256) as u8] + (
            if leaves[first]->0.len() == 1 {
                Seq::<u8>::empty()
            } else {
                restored_shards(shards, data, parity)[i]
            })
        }),
{
    lemma_first(leaves, first);
    let shards = Seq::new(
        leaves.len(),
        |k: int|
            match leaves[k] {
                Some(leaf) => Some(
                    if leaf.len() > 0 {
                        leaf.skip(1)
                    } else {
                        leaf
                    },
                ),
                None => None,
            },
    );
    assert(some_unnumbered(leaves) =~= shards);
    assert(seq![(i % 256) as u8] + Seq::<u8>::empty() =~= seq![(i % 256) as u8]);
}

/// Leaves are recoverable if they are as many as the data shards, or more, and all in their places
/// in one coherent whole.
pub proof fn law_recoverable(
    leaves: Seq<Option<Seq<u8>>>,
    data: nat,
    parity: nat,
    whole: Seq<Seq<u8>>,
)
    ensures
        recoverable(leaves, data, parity, whole) <==> {
            &&& data > 0
            &&& coherent(whole, data, parity)
            &&& whole.len() == data + parity
            &&& leaves.len() == whole.len()
            &&& forall|i: int|
                0 <= i < leaves.len() && (#[trigger] leaves[i]) is Some ==> leaves[i]->0 == whole[i]
            &&& set_int_range(0, leaves.len() as int).filter(|i: int| leaves[i] is Some).len()
                >= data
        },
{
}

/// Leaves are coherent if they start with their places, are all as long, with more than a byte
/// each, and those without data hold what the code adds to the others.
pub proof fn law_coherent_if(leaves: Seq<Seq<u8>>, data: nat, parity: nat)
    requires
        data > 0,
        parity > 0,
        leaves.len() == data + parity,
        forall|i: int|
            0 <= i < leaves.len() ==> (#[trigger] leaves[i]).len() == leaves[0].len()
                && leaves[i].len() > 1 && leaves[i][0] == (i % 256) as u8,
        forall|i: int, j: int|
            data <= i < leaves.len() && 0 < j < leaves[0].len() ==> #[trigger] leaves[i][j]
                == parity_bytes(Seq::new(data, |k: int| leaves[k][j]), parity)[i - data],
    ensures
        coherent(leaves, data, parity),
{
    let shards = crate::shards::all_unnumbered(leaves);
    let coded = encoded(shards, data, parity);
    assert forall|i: int| 0 <= i < leaves.len() implies shards[i] == leaves[i].skip(1)
        && #[trigger] shards[i].len() == leaves[0].len() - 1 by {
        assert(leaves[i].len() == leaves[0].len());
    }
    assert forall|i: int| 0 <= i < leaves.len() implies #[trigger] leaves[i] == numbered(
        coded,
    )[i] by {
        assert(shards[0].len() > 0) by {
            assert(leaves[0].len() > 1);
        }
        law_encoded(shards, data, parity, i, 0);
        assert(leaves[i].len() == leaves[0].len());
        law_numbered(coded, i);
        assert forall|j: int| 0 <= j < leaves[i].len() implies leaves[i][j] == numbered(
            coded,
        )[i][j] by {
            if j > 0 {
                law_encoded(shards, data, parity, i, j - 1);
                assert(numbered(coded)[i].skip(1)[j - 1] == numbered(coded)[i][j]);
                assert forall|k: int| 0 <= k < data implies shards[k][j - 1] == leaves[k][j] by {
                    assert(leaves[k].len() == leaves[0].len());
                }
                assert(Seq::new(data, |k: int| shards[k][j - 1]) =~= Seq::new(
                    data,
                    |k: int| leaves[k][j],
                ));
                assert(shards[i][j - 1] == leaves[i][j]);
            }
        }
        assert(leaves[i] =~= numbered(coded)[i]);
    }
    assert(leaves =~= numbered(coded));
}

/// What bringing a value back promises: a node that decides on the root hash of a coherent whole,
/// when enough leaves of it and no others have been echoed, outputs what it holds.
pub proof fn law_brings_back<N>(s: State<N>, t: State<N>, hash: Seq<u8>, whole: Seq<Seq<u8>>)
    requires
        s.nodes.len() > 0,
        s.brings_back(t, hash),
        !s.decided,
        t.decided,
        hash == root_of(whole),
        ({
            let data = ((s.nodes.len() - 1) / 3 + 1) as nat;
            recoverable(t.leaf_values(hash), data, (s.nodes.len() - data) as nat, whole)
        }),
    ensures
        ({
            let data = ((s.nodes.len() - 1) / 3 + 1) as nat;
            t.output == Some(payload(joined(whole, data), data))
        }),
{
    assert(recoverable(t.leaf_values(hash), s.data(), s.parity(), whole));
}

/// A value is held where enough leaves of a coherent whole, and no others, have been echoed, and
/// the whole holds more bytes than the first of them says.
pub proof fn law_holds_value<N>(s: State<N>, hash: Seq<u8>, whole: Seq<Seq<u8>>)
    requires
        s.nodes.len() > 0,
        ({
            let data = ((s.nodes.len() - 1) / 3 + 1) as nat;
            let bytes = joined(whole, data);
            &&& recoverable(s.leaf_values(hash), data, (s.nodes.len() - data) as nat, whole)
            &&& bytes.len() > 0
            &&& bytes[0] < bytes.len()
        }),
    ensures
        s.holds_value(hash),
{
    assert(recoverable(s.leaf_values(hash), s.data(), s.parity(), whole));
}

/// The proof for a leaf holds the leaf, the root hash, and the branch to the first leaf that has
/// the same hash.
pub proof fn law_proofs(leaves: Seq<Seq<u8>>, i: int)
    requires
        0 <= i < leaves.len(),
    ensures
        proofs_of(leaves).len() == leaves.len(),
        exists|k: int|
            {
                &&& 0 <= k <= i
                &&& leaf_hash(leaves[k]) == leaf_hash(leaves[i])
                &&& forall|j: int| 0 <= j < k ==> leaf_hash(#[trigger] leaves[j]) != leaf_hash(
                    leaves[i],
                )
                &&& proofs_of(leaves)[i] == (ProofContents {
                    algorithm: HashAlgorithm::Sha256,
                    root_hash: root_of(leaves),
                    lemma: #[trigger] branch_to(leaves, k),
                    value: leaves[i],
                })
            },
{
    lemma_first_place(leaves, i);
    let k = first_place(leaves, leaf_hash(leaves[i]));
    assert(proofs_of(leaves)[i].lemma == branch_to(leaves, k));
}

/// The proof that a proposer sends to a node is one that all nodes accept from that node, unless
/// hashes clash.
pub proof fn law_share_accepted<N>(s: State<N>, value: Seq<u8>, i: int)
    requires
        0 <= i < s.nodes.len() <= 256,
        !hashes_clash(),
    ensures
        ({
            let data = ((s.nodes.len() - 1) / 3 + 1) as nat;
            let leaves = leaves_of(value, data, (s.nodes.len() - data) as nat);
            let p = proofs_of(leaves)[i];
            &&& p.root_hash == root_of(leaves)
            &&& p.value == leaves[i]
            &&& s.accepts(p, s.nodes[i])
        }),
{
    let leaves = leaves_of(value, s.data(), s.parity());
    if crate::tree::has_twins(leaves) {
        law_twins_clash(value, s.data(), s.parity());
    }
    crate::protocol::law_shares_sound(s, value);
    lemma_leaves(value, s.data(), s.parity());
    assert(proofs_of(leaves)[i].is_proven());
    lemma_first_place(leaves, i);
    crate::tree::lemma_branch(leaves, i);
}

/// Distributing proofs queues a `Value` with each of them, and changes nothing else.
pub proof fn law_distribute<N>(s: State<N>, proofs: Seq<InclusionProof>, i: int)
    requires
        0 <= i < proofs.len(),
    ensures
        s.distribute(held(proofs)) == (State {
            messages: s.messages + value_messages(s.nodes, s.our_id, held(proofs)),
            ..s
        }),
        held(proofs).len() == proofs.len(),
        held(proofs)[i] == proofs[i]@,
{
}

/// The numbers of shards are those that a code was made with.
pub proof fn law_coding(coding: Coding)
    ensures
        match coding {
            Coding::Trivial(count) => {
                &&& coding.data_shards() == count
                &&& coding.parity_shards() == 0
                &&& coding.wf()
            },
            Coding::ReedSolomon(codec) => {
                &&& coding.data_shards() == codec_data_shards(*codec)
                &&& coding.parity_shards() == codec_parity_shards(*codec)
                &&& coding.data_shards() > 0 && coding.parity_shards() > 0
                    && coding.data_shards() + coding.parity_shards() <= 256 ==> coding.wf()
            },
        },
{
}

} // verus!
