//! How a value is cut into the leaves of a Merkle tree, and put together again.
//!
//! A value is preceded by the last byte of its length, padded with zeros and cut into shards of
//! equal length. Parity shards are added, and each shard is preceded by its place.
use reed_solomon_erasure::Error as CodecError;
use vstd::prelude::*;
use vstd::set_lib::{lemma_int_range, lemma_len_subset, set_int_range};
use vstd::slice::{slice_subrange, slice_to_vec};

use crate::broadcast::Error;
use crate::coding::{
    coded_column, column, encode_failure, encoded, first_size, is_whole, lemma_first_size,
    lemma_some_place, optional_views, pieces_of, places, present, restore_failure, restored, Coding,
};
use crate::tree::{root_of, same_bytes, tree_from_vec, tree_root_hash, tree_values, views};

verus! {

/// The value, preceded by the last byte of its length.
pub open spec fn framed(value: Seq<u8>) -> Seq<u8> {
    seq![(value.len() % 256) as u8] + value
}

/// The least length that lets `data` shards hold `len` bytes.
pub open spec fn shard_len(len: nat, data: nat) -> nat {
    (len + data - 1) as nat / data
}

/// The framed value, padded with zeros to fill `total` shards of which `data` hold it.
pub open spec fn padded(value: Seq<u8>, data: nat, total: nat) -> Seq<u8> {
    let bytes = framed(value);
    Seq::new(
        shard_len(bytes.len(), data) * total,
        |j: int|
            if j < bytes.len() {
                bytes[j]
            } else {
                0
            },
    )
}

/// The padded value, cut into shards.
pub open spec fn cut(value: Seq<u8>, data: nat, total: nat) -> Seq<Seq<u8>> {
    let len = shard_len(framed(value).len(), data);
    Seq::new(
        total,
        |i: int| padded(value, data, total).subrange(i * len, i * len + len),
    )
}

/// The shards, each preceded by its place.
pub open spec fn numbered(shards: Seq<Seq<u8>>) -> Seq<Seq<u8>> {
    shards.map(|i: int, s: Seq<u8>| seq![(i % 256) as u8] + s)
}

/// The leaves that a value is turned into.
pub open spec fn leaves_of(value: Seq<u8>, data: nat, parity: nat) -> Seq<Seq<u8>> {
    numbered(encoded(cut(value, data, data + parity), data, parity))
}

/// A leaf without the byte that tells its place.
pub open spec fn unnumbered(leaf: Seq<u8>) -> Seq<u8> {
    if leaf.len() == 0 {
        leaf
    } else {
        leaf.skip(1)
    }
}

/// The leaves without the bytes that tell their places.
pub open spec fn all_unnumbered(leaves: Seq<Seq<u8>>) -> Seq<Seq<u8>> {
    leaves.map_values(|leaf: Seq<u8>| unnumbered(leaf))
}

/// The leaves that are there, without the bytes that tell their places.
pub open spec fn some_unnumbered(leaves: Seq<Option<Seq<u8>>>) -> Seq<Option<Seq<u8>>> {
    leaves.map_values(
        |leaf: Option<Seq<u8>>|
            match leaf {
                Some(leaf) => Some(unnumbered(leaf)),
                None => None,
            },
    )
}

/// The leaves are those that one gets when one encodes and numbers the shards in them.
pub open spec fn coherent(leaves: Seq<Seq<u8>>, data: nat, parity: nat) -> bool {
    &&& encode_failure(all_unnumbered(leaves), data, parity) is None
    &&& leaves == numbered(encoded(all_unnumbered(leaves), data, parity))
}

/// Why missing leaves cannot be restored; `None` where they can.
pub open spec fn leaf_failure(
    leaves: Seq<Option<Seq<u8>>>,
    data: nat,
    parity: nat,
) -> Option<CodecError> {
    restore_failure(leaves, data, parity)
}

/// The leaves, with the missing ones restored: what follows the byte that tells their place is that
/// of the code, unless the leaves that are there hold nothing but that byte.
pub open spec fn completed(
    leaves: Seq<Option<Seq<u8>>>,
    data: nat,
    parity: nat,
) -> Seq<Seq<u8>> {
    Seq::new(
        leaves.len(),
        |i: int|
            match leaves[i] {
                Some(leaf) => leaf,
                None => if first_size(leaves) == Some(1nat) {
                    seq![(i % 256) as u8]
                } else {
                    seq![(i % 256) as u8] + restored(some_unnumbered(leaves), data, parity)[i]
                },
            },
    )
}

/// The first `n` leaves in one piece, without the bytes that tell their places.
pub open spec fn joined(leaves: Seq<Seq<u8>>, n: nat) -> Seq<u8> {
    let count = if n < leaves.len() {
        n as int
    } else {
        leaves.len() as int
    };
    leaves.take(count).map_values(|leaf: Seq<u8>| unnumbered(leaf)).flatten()
}

/// The length of the payload behind the first byte, which is the last byte of the length, if less
/// padding than there are data shards may follow it. Where no such length agrees with that byte, it
/// is the length itself.
pub open spec fn payload_len(bytes: Seq<u8>, data: nat) -> int {
    let most = bytes.len() - 1;
    let padding = (most - bytes[0]) % 256;
    if padding < data {
        most - padding
    } else {
        bytes[0] as int
    }
}

/// The bytes start with a length, or the last byte of one, and are long enough for it.
pub open spec fn holds_payload(bytes: Seq<u8>) -> bool {
    bytes.len() > 0 && bytes[0] < bytes.len()
}

/// As many bytes as the first one says, from the second on, of what `data` shards hold.
pub open spec fn payload(bytes: Seq<u8>, data: nat) -> Seq<u8> {
    bytes.subrange(1, 1 + payload_len(bytes, data))
}

/// What is known about a shard length: it suffices, and no more than one shard is wasted.
pub proof fn lemma_shard_len(len: nat, data: nat)
    requires
        len > 0,
        data > 0,
    ensures
        shard_len(len, data) > 0,
        shard_len(len, data) * data >= len,
        shard_len(len, data) * data < len + data,
        shard_len(len, data) == if len % data > 0 {
            len / data + 1
        } else {
            len / data
        },
{
    let q = (len + data - 1) as nat / data;
    vstd::arithmetic::div_mod::lemma_fundamental_div_mod(len as int, data as int);
    vstd::arithmetic::div_mod::lemma_fundamental_div_mod((len + data - 1) as int, data as int);
    let a = len / data;
    let r = len % data;
    assert(len == data * a + r);
    if r > 0 {
        assert((len + data - 1) as int == (a + 1) * data + (r - 1)) by (nonlinear_arith)
            requires
                len == data * a + r,
        ;
        vstd::arithmetic::div_mod::lemma_fundamental_div_mod_converse(
            (len + data - 1) as int,
            data as int,
            (a + 1) as int,
            (r - 1) as int,
        );
    } else {
        assert((len + data - 1) as int == a * data + (data - 1)) by (nonlinear_arith)
            requires
                len == data * a + r,
                r == 0,
        ;
        vstd::arithmetic::div_mod::lemma_fundamental_div_mod_converse(
            (len + data - 1) as int,
            data as int,
            a as int,
            (data - 1) as int,
        );
    }
    assert(q * data >= len) by (nonlinear_arith)
        requires
            len == data * a + r,
            r < data,
            q == if r > 0 {
                a + 1
            } else {
                a
            },
    ;
    assert(q * data < len + data) by (nonlinear_arith)
        requires
            len == data * a + r,
            data > 0,
            q == if r > 0 {
                a + 1
            } else {
                a
            },
    ;
    assert(q > 0) by (nonlinear_arith)
        requires
            q * data >= len,
            len > 0,
    ;
}

/// Cuts a value into `data` shards, with the length in front and zeros at the end, and adds
/// `parity` shards of zeros.
pub fn cut_value(value: Vec<u8>, data: usize, parity: usize) -> (r: Vec<Vec<u8>>)
    requires
        data > 0,
        shard_len(value.len() as nat + 1, data as nat) * (data + parity) <= usize::MAX,
    ensures
        views(r@) == cut(value@, data as nat, (data + parity) as nat),
{
    let ghost given = value@;
    let ghost total = (data + parity) as nat;
    proof {
        lemma_shard_len(value.len() as nat + 1, data as nat);
        let len = shard_len(value.len() as nat + 1, data as nat);
        assert(len * data <= len * (data + parity)) by (nonlinear_arith)
            requires
                parity >= 0,
                len >= 0,
        ;
        assert(data + parity <= len * (data + parity)) by (nonlinear_arith)
            requires
                len > 0,
                data + parity >= 0,
        ;
        assert(len <= len * (data + parity)) by (nonlinear_arith)
            requires
                len > 0,
                data + parity >= 1,
        ;
    }
    let mut value = value;
    let full: usize = value.len();
    let payload_len: u8 = full as u8;
    assert(full as u8 == full % 256) by (bit_vector);
    value.insert(0, payload_len);
    assert(value@ =~= framed(given));
    let value_len: usize = value.len();
    let len: usize = if value_len % data > 0 {
        value_len / data + 1
    } else {
        value_len / data
    };
    value.resize(len * (data + parity), 0);
    assert(value@ =~= padded(given, data as nat, total)) by {
        let before = framed(given);
        assert(value@.subrange(0, before.len() as int) == before);
        assert forall|j: int| 0 <= j < value@.len() implies value@[j] == padded(
            given,
            data as nat,
            total,
        )[j] by {
            if j < before.len() {
                assert(value@[j] == value@.subrange(0, before.len() as int)[j]);
            }
        }
    }
    let mut shards: Vec<Vec<u8>> = Vec::new();
    let mut i: usize = 0;
    while i < data + parity
        invariant
            i <= data + parity,
            total == data + parity,
            total <= usize::MAX,
            len * total <= usize::MAX,
            value@ == padded(given, data as nat, total),
            value@.len() == len * total,
            len == shard_len(framed(given).len(), data as nat),
            views(shards@) == cut(given, data as nat, total).take(i as int),
        decreases data + parity - i,
    {
        assert(i * len + len <= len * total) by (nonlinear_arith)
            requires
                i + 1 <= total,
        ;
        assert(0 <= i * len <= usize::MAX) by (nonlinear_arith)
            requires
                i * len + len <= usize::MAX,
        ;
        let shard = slice_to_vec(slice_subrange(value.as_slice(), i * len, i * len + len));
        let ghost before = views(shards@);
        shards.push(shard);
        assert(views(shards@) =~= before.push(shard@));
        assert(views(shards@) =~= cut(given, data as nat, total).take(i + 1));
        i += 1;
    }
    assert(cut(given, data as nat, total).take(total as int) =~= cut(
        given,
        data as nat,
        total,
    ));
    shards
}

/// Puts in front of each shard the byte that tells its place.
pub fn number_shards(shards: Vec<Vec<u8>>) -> (r: Vec<Vec<u8>>)
    ensures
        views(r@) == numbered(views(shards@)),
{
    let mut leaves: Vec<Vec<u8>> = Vec::new();
    let mut i: usize = 0;
    while i < shards.len()
        invariant
            i <= shards.len(),
            views(leaves@) == numbered(views(shards@)).take(i as int),
        decreases shards.len() - i,
    {
        let mut leaf = slice_to_vec(shards[i].as_slice());
        assert(i as u8 == i % 256) by (bit_vector);
        leaf.insert(0, i as u8);
        assert(leaf@ =~= numbered(views(shards@))[i as int]);
        let ghost before = views(leaves@);
        leaves.push(leaf);
        assert(views(leaves@) =~= before.push(leaf@));
        assert(views(leaves@) =~= numbered(views(shards@)).take(i + 1));
        i += 1;
    }
    assert(numbered(views(shards@)).take(shards.len() as int) =~= numbered(views(shards@)));
    leaves
}

/// Concatenates the first `n` leaf values of a Merkle tree in one value, and takes out the payload.
/// This is useful for reconstructing the data value held in the tree and forgetting the leaves that
/// contain parity information.
pub fn glue_shards(leaves: &Vec<Vec<u8>>, n: usize) -> (r: Vec<u8>)
    requires
        holds_payload(joined(views(leaves@), n as nat)),
    ensures
        r@ == payload(joined(views(leaves@), n as nat), n as nat),
{
    let bytes = join_leaves(leaves, n);
    let most: usize = bytes.len() - 1;
    let padding: usize = (most - bytes[0] as usize) % 256;
    let payload_len: usize = if padding < n {
        most - padding
    } else {
        bytes[0] as usize
    };
    slice_to_vec(slice_subrange(bytes.as_slice(), 1, payload_len + 1))
}

/// Concatenates the first `n` leaves, without the bytes that tell their places.
pub fn join_leaves(leaves: &Vec<Vec<u8>>, n: usize) -> (r: Vec<u8>)
    ensures
        r@ == joined(views(leaves@), n as nat),
{
    let count: usize = if n < leaves.len() {
        n
    } else {
        leaves.len()
    };
    let mut bytes: Vec<u8> = Vec::new();
    let mut i: usize = 0;
    let ghost parts = views(leaves@).take(count as int).map_values(
        |leaf: Seq<u8>| unnumbered(leaf),
    );
    while i < count
        invariant
            i <= count <= leaves.len(),
            parts == views(leaves@).take(count as int).map_values(
                |leaf: Seq<u8>| unnumbered(leaf),
            ),
            bytes@ == parts.take(i as int).flatten(),
        decreases count - i,
    {
        let leaf = &leaves[i];
        assert(parts[i as int] == unnumbered(leaf@));
        assert(parts.take(i + 1) =~= parts.take(i as int).push(parts[i as int]));
        proof {
            parts.take(i as int).lemma_flatten_push(parts[i as int]);
        }
        let mut rest = unnumber(leaf);
        bytes.append(&mut rest);
        i += 1;
    }
    assert(parts.take(count as int) =~= parts);
    bytes
}

/// The shards of a value have the length that `shard_len` gives.
pub proof fn lemma_cut(value: Seq<u8>, data: nat, total: nat)
    requires
        data > 0,
    ensures
        cut(value, data, total).len() == total,
        shard_len(framed(value).len(), data) > 0,
        shard_len(framed(value).len(), data) * data >= framed(value).len(),
        shard_len(framed(value).len(), data) * data < framed(value).len() + data,
        forall|i: int|
            0 <= i < total ==> #[trigger] cut(value, data, total)[i].len() == shard_len(
                framed(value).len(),
                data,
            ),
{
    let len = shard_len(framed(value).len(), data);
    lemma_shard_len(framed(value).len(), data);
    assert forall|i: int| 0 <= i < total implies #[trigger] cut(value, data, total)[i].len()
        == len by {
        assert(0 <= i * len && i * len + len <= len * total) by (nonlinear_arith)
            requires
                0 <= i,
                i + 1 <= total,
                len >= 0,
        ;
    }
}

/// Pieces of one length, cut one after the other from a sequence, make up its beginning.
proof fn lemma_flatten_cut(bytes: Seq<u8>, len: nat, n: nat)
    requires
        n * len <= bytes.len(),
    ensures
        Seq::new(n, |i: int| bytes.subrange(i * len, i * len + len)).flatten() == bytes.take(
            (n * len) as int,
        ),
    decreases n,
{
    let pieces = Seq::new(n, |i: int| bytes.subrange(i * len, i * len + len));
    if n == 0 {
        assert(0 * len == 0);
        assert(bytes.take(0) =~= Seq::<u8>::empty());
    } else {
        let before = Seq::new((n - 1) as nat, |i: int| bytes.subrange(i * len, i * len + len));
        assert((n - 1) * len + len == n * len) by (nonlinear_arith);
        assert(0 <= (n - 1) * len) by (nonlinear_arith)
            requires
                n >= 1,
                len >= 0,
        ;
        lemma_flatten_cut(bytes, len, (n - 1) as nat);
        assert(pieces =~= before.push(pieces[n - 1]));
        before.lemma_flatten_push(pieces[n - 1]);
        assert(bytes.take(((n - 1) * len) as int) + pieces[n - 1] =~= bytes.take((n * len) as int));
    }
}

/// The leaves of a value: there is one for each shard, all have one length, and the data shards
/// are among them as they were cut.
pub proof fn lemma_leaves(value: Seq<u8>, data: nat, parity: nat)
    requires
        data > 0,
    ensures
        encode_failure(cut(value, data, data + parity), data, parity) is None,
        leaves_of(value, data, parity).len() == data + parity,
        forall|i: int|
            0 <= i < leaves_of(value, data, parity).len() ==> #[trigger] leaves_of(
                value,
                data,
                parity,
            )[i].len() == shard_len(framed(value).len(), data) + 1,
        forall|i: int|
            0 <= i < leaves_of(value, data, parity).len() ==> #[trigger] leaves_of(
                value,
                data,
                parity,
            )[i][0] == (i % 256) as u8,
        forall|i: int|
            0 <= i < data ==> unnumbered(#[trigger] leaves_of(value, data, parity)[i])
                == cut(
                value,
                data,
                data + parity,
            )[i],
{
    let total = data + parity;
    let shards = cut(value, data, total);
    let leaves = leaves_of(value, data, parity);
    let coded_shards = encoded(shards, data, parity);
    lemma_cut(value, data, total);
    assert(shards[0].len() > 0);
    assert forall|i: int| 0 <= i < data implies unnumbered(#[trigger] leaves[i]) == shards[i] by {
        assert(leaves[i] == seq![(i % 256) as u8] + coded_shards[i]);
        assert(leaves[i].skip(1) =~= coded_shards[i]);
        if parity > 0 {
            assert forall|j: int| 0 <= j < shards[0].len() implies coded_shards[i][j]
                == shards[i][j] by {
                assert(column(shards.take(data as int), j)[i] == shards.take(data as int)[i][j]);
            }
            assert(coded_shards[i] =~= shards[i]);
        }
    }
}

/// Leaves that are numbered lose nothing but the numbers when these are taken off.
proof fn lemma_unnumbered(shards: Seq<Seq<u8>>)
    ensures
        all_unnumbered(numbered(shards)) == shards,
{
    assert forall|i: int| 0 <= i < shards.len() implies all_unnumbered(numbered(shards))[i]
        == shards[i] by {
        assert(numbered(shards)[i].skip(1) =~= shards[i]);
    }
    assert(all_unnumbered(numbered(shards)) =~= shards);
}

/// To encode shards again changes nothing.
proof fn lemma_encoded_twice(shards: Seq<Seq<u8>>, data: nat, parity: nat)
    requires
        data > 0,
        encode_failure(shards, data, parity) is None,
    ensures
        encode_failure(encoded(shards, data, parity), data, parity) is None,
        encoded(encoded(shards, data, parity), data, parity) == encoded(shards, data, parity),
{
    if parity > 0 {
        let once = encoded(shards, data, parity);
        let twice = encoded(once, data, parity);
        assert forall|i: int, j: int|
            0 <= i < data + parity && 0 <= j < shards[0].len() implies twice[i][j]
            == once[i][j] by {
            let before = column(shards.take(data as int), j);
            let after = column(once.take(data as int), j);
            assert forall|k: int| 0 <= k < data implies before[k] == after[k] by {
                assert(once.take(data as int)[k] == once[k]);
                assert(once[k][j] == coded_column(before, parity)[k]);
            }
            assert(before =~= after);
        }
        assert forall|i: int| 0 <= i < data + parity implies twice[i] == once[i] by {
            assert(twice[i] =~= once[i]);
        }
        assert(twice =~= once);
    }
}

/// The leaves of a value are coherent.
pub proof fn lemma_leaves_coherent(value: Seq<u8>, data: nat, parity: nat)
    requires
        data > 0,
    ensures
        coherent(leaves_of(value, data, parity), data, parity),
{
    let shards = cut(value, data, data + parity);
    lemma_leaves(value, data, parity);
    lemma_unnumbered(encoded(shards, data, parity));
    lemma_encoded_twice(shards, data, parity);
}

/// The shards in coherent leaves form one coded whole.
proof fn lemma_coherent_whole(leaves: Seq<Seq<u8>>, data: nat, parity: nat)
    requires
        data > 0,
        coherent(leaves, data, parity),
    ensures
        is_whole(all_unnumbered(leaves), data, parity),
{
    let shards = all_unnumbered(leaves);
    lemma_unnumbered(encoded(shards, data, parity));
    assert(shards == encoded(shards, data, parity));
    if parity > 0 {
        assert forall|j: int| 0 <= j < shards[0].len() implies #[trigger] column(shards, j)
            == coded_column(column(shards, j).take(data as int), parity) by {
            let head = column(shards.take(data as int), j);
            assert(column(shards, j).take(data as int) =~= head);
            assert forall|i: int| 0 <= i < shards.len() implies column(shards, j)[i]
                == coded_column(head, parity)[i] by {
                assert(shards[i] == encoded(shards, data, parity)[i]);
            }
            assert(column(shards, j) =~= coded_column(head, parity));
        }
    }
}

/// A value comes back when the leaves that it was cut into are glued together again.
pub proof fn law_round_trip(value: Seq<u8>, data: nat, parity: nat)
    requires
        0 < data <= 256,
    ensures
        holds_payload(joined(leaves_of(value, data, parity), data)),
        payload(joined(leaves_of(value, data, parity), data), data) == value,
{
    let total = data + parity;
    let leaves = leaves_of(value, data, parity);
    let bytes = padded(value, data, total);
    let len = shard_len(framed(value).len(), data);
    lemma_leaves(value, data, parity);
    lemma_cut(value, data, total);
    let parts = leaves.take(data as int).map_values(|leaf: Seq<u8>| unnumbered(leaf));
    let pieces = Seq::new(data, |i: int| bytes.subrange(i * len, i * len + len));
    assert forall|i: int| 0 <= i < data implies parts[i] == pieces[i] by {
        assert(leaves.take(data as int)[i] == leaves[i]);
    }
    assert(parts =~= pieces);
    assert(data * len <= len * total) by (nonlinear_arith)
        requires
            data <= total,
            len >= 0,
    ;
    lemma_flatten_cut(bytes, len, data);
    assert(data * len == len * data) by (nonlinear_arith);
    let whole = joined(leaves, data);
    assert(whole == bytes.take((data * len) as int));
    assert(whole[0] == framed(value)[0]);
    assert(payload_len(whole, data) == value.len()) by {
        let rest = whole.len() - framed(value).len();
        assert(0 <= rest < data);
        assert((rest + value.len() - value.len() % 256) % 256 == rest);
    }
    assert(payload(whole, data) =~= value) by {
        assert forall|j: int| 0 <= j < value.len() implies payload(whole, data)[j]
            == value[j] by {
            assert(whole[j + 1] == framed(value)[j + 1]);
        }
    }
}

/// Takes the payload out of the leaves of a tree, given the root hash that the tree has and the one
/// that it should have.
pub fn open_leaves(
    leaves: &Vec<Vec<u8>>,
    tree_root: &[u8],
    root_hash: &[u8],
    data_shard_num: usize,
) -> (r: Result<Vec<u8>, Error>)
    requires
        tree_root@ == root_hash@ ==> holds_payload(joined(views(leaves@), data_shard_num as nat)),
    ensures
        match r {
            Ok(value) => tree_root@ == root_hash@ && value@ == payload(
                joined(views(leaves@), data_shard_num as nat),
                data_shard_num as nat,
            ),
            Err(e) => tree_root@ != root_hash@ && e == Error::RootHashMismatch,
        },
{
    if !same_bytes(tree_root, root_hash) {
        // This instance must have received incorrect shards, so there is no use in trying to
        // reconstruct the tree any further.
        Err(Error::RootHashMismatch)
    } else {
        Ok(glue_shards(leaves, data_shard_num))
    }
}

/// What decoding these leaves yields, of which `data` hold the value, for the tree with the given
/// root hash.
pub open spec fn decoded(
    leaves: Seq<Option<Seq<u8>>>,
    data: nat,
    parity: nat,
    root_hash: Seq<u8>,
) -> Result<Seq<u8>, Error> {
    match leaf_failure(leaves, data, parity) {
        Some(e) => Err(Error::ReedSolomon(e)),
        None => if root_of(completed(leaves, data, parity)) != root_hash {
            Err(Error::RootHashMismatch)
        } else {
            Ok(payload(joined(completed(leaves, data, parity), data), data))
        },
    }
}

/// What decoding these leaves yields, where leaves that are not coherent do not pass for those of
/// the tree.
pub open spec fn decoded_whole(
    leaves: Seq<Option<Seq<u8>>>,
    data: nat,
    parity: nat,
    root_hash: Seq<u8>,
) -> Result<Seq<u8>, Error> {
    match decoded(leaves, data, parity, root_hash) {
        Ok(value) => if coherent(completed(leaves, data, parity), data, parity) {
            Ok(value)
        } else {
            Err(Error::RootHashMismatch)
        },
        Err(e) => Err(e),
    }
}

/// Decoding these leaves finds a payload, if it gets so far as to look for one.
pub open spec fn decodable(
    leaves: Seq<Option<Seq<u8>>>,
    data: nat,
    parity: nat,
    root_hash: Seq<u8>,
) -> bool {
    leaf_failure(leaves, data, parity) is None && root_of(completed(leaves, data, parity))
        == root_hash ==> holds_payload(joined(completed(leaves, data, parity), data))
}

/// The leaves are some of those in `whole`, which are coherent, and no fewer than there are data
/// shards.
pub open spec fn recoverable(
    leaves: Seq<Option<Seq<u8>>>,
    data: nat,
    parity: nat,
    whole: Seq<Seq<u8>>,
) -> bool {
    &&& data > 0
    &&& coherent(whole, data, parity)
    &&& whole.len() == data + parity
    &&& pieces_of(leaves, whole)
    &&& present(leaves) >= data
}

/// The first leaf that is there loses one byte with its number.
proof fn lemma_first_unnumbered(leaves: Seq<Option<Seq<u8>>>)
    ensures
        first_size(some_unnumbered(leaves)) == match first_size(leaves) {
            Some(size) => Some(
                if size > 0 {
                    (size - 1) as nat
                } else {
                    0
                },
            ),
            None => None,
        },
    decreases leaves.len(),
{
    if leaves.len() > 0 {
        lemma_first_unnumbered(leaves.drop_first());
        assert(some_unnumbered(leaves).drop_first() =~= some_unnumbered(leaves.drop_first()));
    }
}

/// Leaves are there in the same places with and without their numbers.
proof fn lemma_same_places(leaves: Seq<Option<Seq<u8>>>)
    ensures
        present(some_unnumbered(leaves)) == present(leaves),
{
    let shards = some_unnumbered(leaves);
    assert(places(shards) =~= places(leaves)) by {
        assert(forall|i: int|
            0 <= i < leaves.len() ==> (#[trigger] shards[i] is Some <==> leaves[i] is Some));
    }
}

/// Where leaves can be restored, the shards in them can, unless the leaves hold nothing but their
/// numbers.
proof fn lemma_unnumbered_failure(leaves: Seq<Option<Seq<u8>>>, data: nat, parity: nat)
    requires
        leaf_failure(leaves, data, parity) is None,
    ensures
        restore_failure(some_unnumbered(leaves), data, parity) is Some <==> parity > 0
            && first_size(leaves) == Some(1nat),
{
    let shards = some_unnumbered(leaves);
    lemma_first_unnumbered(leaves);
    lemma_same_places(leaves);
    lemma_some_place(leaves);
    lemma_first_size(leaves);
    assert forall|i: int| 0 <= i < leaves.len() implies (#[trigger] shards[i] is Some
        <==> leaves[i] is Some) && (leaves[i] is Some ==> shards[i]->0 == unnumbered(
        leaves[i]->0,
    )) by {}
    if parity > 0 {
        assert forall|i: int| 0 <= i < shards.len() && (#[trigger] shards[i]) is Some implies Some(
            shards[i]->0.len(),
        ) == first_size(shards) by {
            assert(leaves[i] is Some);
        }
    } else {
        assert forall|i: int| 0 <= i < shards.len() implies (#[trigger] shards[i]) is Some by {
            assert(leaves[i] is Some);
        }
    }
}

/// As many coherent leaves as there are data shards are enough to restore the others.
proof fn lemma_recoverable(
    leaves: Seq<Option<Seq<u8>>>,
    data: nat,
    parity: nat,
    whole: Seq<Seq<u8>>,
)
    requires
        recoverable(leaves, data, parity, whole),
    ensures
        leaf_failure(leaves, data, parity) is None,
        parity > 0 ==> first_size(leaves) != Some(1nat),
        is_whole(all_unnumbered(whole), data, parity),
        pieces_of(some_unnumbered(leaves), all_unnumbered(whole)),
{
    lemma_coherent_whole(whole, data, parity);
    lemma_some_place(leaves);
    if parity > 0 {
        let shards = all_unnumbered(whole);
        lemma_first_size(leaves);
        assert forall|i: int| 0 <= i < leaves.len() && (#[trigger] leaves[i]) is Some implies
            leaves[i]->0.len() == shards[0].len() + 1 by {
            assert(leaves[i]->0 == whole[i]);
            assert(whole[i] == numbered(encoded(shards, data, parity))[i]);
            assert(shards[i] == unnumbered(whole[i]));
            assert(shards[i].len() == shards[0].len());
        }
    } else {
        if exists|i: int| 0 <= i < leaves.len() && (#[trigger] leaves[i]) is None {
            let i = choose|i: int| 0 <= i < leaves.len() && (#[trigger] leaves[i]) is None;
            lemma_int_range(0, leaves.len() as int);
            assert(places(leaves).subset_of(set_int_range(0, leaves.len() as int)));
            assert(!places(leaves).contains(i));
            assert(set_int_range(0, leaves.len() as int).contains(i));
            lemma_len_subset(places(leaves).insert(i), set_int_range(0, leaves.len() as int));
        }
    }
}

/// Missing leaves are restored to those of a coherent whole, if the shards in them are.
proof fn lemma_completed(
    leaves: Seq<Option<Seq<u8>>>,
    data: nat,
    parity: nat,
    whole: Seq<Seq<u8>>,
)
    requires
        recoverable(leaves, data, parity, whole),
        restored(some_unnumbered(leaves), data, parity) == all_unnumbered(whole),
    ensures
        completed(leaves, data, parity) == whole,
{
    let all = completed(leaves, data, parity);
    let shards = all_unnumbered(whole);
    lemma_recoverable(leaves, data, parity, whole);
    lemma_unnumbered(encoded(shards, data, parity));
    assert forall|i: int| 0 <= i < whole.len() implies all[i] == whole[i] by {
        assert(whole[i] == numbered(encoded(shards, data, parity))[i]);
        assert(shards[i] == encoded(shards, data, parity)[i]);
    }
    assert(all =~= whole);
}

/// A leaf without the byte that tells its place.
fn unnumber(leaf: &Vec<u8>) -> (r: Vec<u8>)
    ensures
        r@ == unnumbered(leaf@),
{
    if leaf.len() > 0 {
        slice_to_vec(slice_subrange(leaf.as_slice(), 1, leaf.len()))
    } else {
        Vec::new()
    }
}

/// The leaves that are there, without the bytes that tell their places.
fn unnumber_some(leaves: &Vec<Option<Vec<u8>>>) -> (r: Vec<Option<Vec<u8>>>)
    ensures
        optional_views(r@) == some_unnumbered(optional_views(leaves@)),
{
    let ghost goal = some_unnumbered(optional_views(leaves@));
    let mut shards: Vec<Option<Vec<u8>>> = Vec::new();
    let mut i: usize = 0;
    while i < leaves.len()
        invariant
            i <= leaves.len(),
            goal == some_unnumbered(optional_views(leaves@)),
            optional_views(shards@) == goal.take(i as int),
        decreases leaves.len() - i,
    {
        let shard = match &leaves[i] {
            Some(leaf) => Some(unnumber(leaf)),
            None => None,
        };
        let ghost before = optional_views(shards@);
        assert(goal[i as int] == optional_views(seq![shard])[0]);
        shards.push(shard);
        assert(optional_views(shards@) =~= before.push(goal[i as int]));
        assert(optional_views(shards@) =~= goal.take(i + 1));
        i += 1;
    }
    assert(goal.take(leaves.len() as int) =~= goal);
    shards
}

/// Another copy of the leaves.
fn copy_leaves(leaves: &Vec<Option<Vec<u8>>>) -> (r: Vec<Option<Vec<u8>>>)
    ensures
        optional_views(r@) == optional_views(leaves@),
{
    let ghost goal = optional_views(leaves@);
    let mut copies: Vec<Option<Vec<u8>>> = Vec::new();
    let mut i: usize = 0;
    while i < leaves.len()
        invariant
            i <= leaves.len(),
            goal == optional_views(leaves@),
            optional_views(copies@) == goal.take(i as int),
        decreases leaves.len() - i,
    {
        let copy = match &leaves[i] {
            Some(leaf) => Some(slice_to_vec(leaf.as_slice())),
            None => None,
        };
        let ghost before = optional_views(copies@);
        assert(goal[i as int] == optional_views(seq![copy])[0]);
        copies.push(copy);
        assert(optional_views(copies@) =~= before.push(goal[i as int]));
        assert(optional_views(copies@) =~= goal.take(i + 1));
        i += 1;
    }
    assert(goal.take(leaves.len() as int) =~= goal);
    copies
}

/// Restores the missing leaves, and returns all of them.
fn complete_leaves(leaf_values: &mut Vec<Option<Vec<u8>>>, coding: &Coding) -> (r: Result<
    Vec<Vec<u8>>,
    Error,
>)
    requires
        coding.wf(),
    ensures
        ({
            let (data, parity) = (coding.data_shards(), coding.parity_shards());
            let before = optional_views(old(leaf_values)@);
            let after = optional_views(final(leaf_values)@);
            match r {
                Ok(leaves) => {
                    &&& leaf_failure(before, data, parity) is None
                    &&& views(leaves@) == completed(before, data, parity)
                    &&& after == completed(before, data, parity).map_values(|s: Seq<u8>| Some(s))
                    &&& forall|whole: Seq<Seq<u8>>| #[trigger]
                        recoverable(before, coding.data_shards(), coding.parity_shards(), whole)
                            ==> completed(before, data, parity) == whole
                },
                Err(e) => {
                    &&& leaf_failure(before, data, parity) is Some
                    &&& e == Error::ReedSolomon(leaf_failure(before, data, parity)->0)
                    &&& after == before
                },
            }
        }),
{
    let ghost (data, parity) = (coding.data_shards(), coding.parity_shards());
    let ghost before = optional_views(leaf_values@);
    let ghost goal = completed(before, data, parity);
    // See whether the leaves fit together, and are enough.
    let mut copies = copy_leaves(leaf_values);
    if let Err(e) = coding.reconstruct_shards(&mut copies) {
        return Err(e);
    }
    // The bytes that tell the places are no part of the code. Where there is nothing but them, there
    // is nothing to restore.
    let mut shards = unnumber_some(leaf_values);
    let whole = coding.reconstruct_shards(&mut shards);
    let ghost full = restored(some_unnumbered(before), data, parity);
    proof {
        lemma_unnumbered_failure(before, data, parity);
        if whole is Ok {
            assert forall|whole: Seq<Seq<u8>>| #[trigger]
                recoverable(before, data, parity, whole) implies goal == whole by {
                lemma_recoverable(before, data, parity, whole);
                assert(is_whole(all_unnumbered(whole), data, parity));
                lemma_completed(before, data, parity, whole);
            }
            assert(optional_views(shards@) == full.map_values(|s: Seq<u8>| Some(s)));
            assert(optional_views(shards@).len() == full.len());
        } else {
            assert forall|whole: Seq<Seq<u8>>| #[trigger]
                recoverable(before, data, parity, whole) implies goal == whole by {
                lemma_recoverable(before, data, parity, whole);
            }
            assert(optional_views(shards@) == some_unnumbered(before));
        }
        assert(optional_views(shards@).len() == before.len());
        assert forall|j: int| 0 <= j < before.len() && before[j] is None implies goal[j] == seq![
            (j % 256) as u8,
        ] + (match #[trigger] optional_views(shards@)[j] {
            Some(shard) => shard,
            None => Seq::empty(),
        }) by {
            if whole is Ok {
                assert(optional_views(shards@)[j] == Some(full[j]));
                if parity == 0 {
                    assert(before[j] is Some);
                }
            } else {
                assert(seq![(j % 256) as u8] + Seq::<u8>::empty() =~= seq![(j % 256) as u8]);
            }
        }
    }
    let mut leaves: Vec<Vec<u8>> = Vec::new();
    let mut i: usize = 0;
    while i < leaf_values.len()
        invariant
            i <= leaf_values.len(),
            leaf_values.len() == shards.len() == before.len(),
            goal == completed(before, data, parity),
            forall|j: int|
                0 <= j < before.len() && before[j] is None ==> goal[j] == seq![(j % 256) as u8] + (
                match #[trigger] optional_views(shards@)[j] {
                    Some(shard) => shard,
                    None => Seq::empty(),
                }),
            views(leaves@) == goal.take(i as int),
            forall|j: int|
                0 <= j < i ==> #[trigger] optional_views(leaf_values@)[j] == Some(goal[j]),
            forall|j: int|
                i <= j < before.len() ==> #[trigger] optional_views(leaf_values@)[j] == before[j],
        decreases leaf_values.len() - i,
    {
        assert(shards@[i as int] is Some <==> optional_views(shards@)[i as int] is Some);
        assert(optional_views(leaf_values@)[i as int] == before[i as int]);
        let leaf = match &leaf_values[i] {
            Some(leaf) => slice_to_vec(leaf.as_slice()),
            None => {
                let mut leaf: Vec<u8> = Vec::new();
                assert(i as u8 == i % 256) by (bit_vector);
                leaf.push(i as u8);
                if let Some(shard) = &shards[i] {
                    let mut rest = slice_to_vec(shard.as_slice());
                    leaf.append(&mut rest);
                }
                assert(leaf@ =~= goal[i as int]);
                leaf
            },
        };
        assert(leaf@ == goal[i as int]);
        let ghost listed = views(leaves@);
        let ghost slots = optional_views(leaf_values@);
        leaves.push(slice_to_vec(leaf.as_slice()));
        leaf_values.set(i, Some(leaf));
        assert(views(leaves@) =~= listed.push(goal[i as int]));
        assert(views(leaves@) =~= goal.take(i + 1));
        assert(optional_views(leaf_values@) =~= slots.update(i as int, Some(goal[i as int])));
        i += 1;
    }
    assert(goal.take(leaf_values.len() as int) =~= goal);
    assert(optional_views(leaf_values@) =~= goal.map_values(|s: Seq<u8>| Some(s)));
    Ok(leaves)
}

/// Tells whether leaves are those that one gets when one encodes and numbers the shards in them.
pub(crate) fn is_coherent(leaves: &Vec<Vec<u8>>, coding: &Coding) -> (r: bool)
    requires
        coding.wf(),
    ensures
        r == coherent(views(leaves@), coding.data_shards(), coding.parity_shards()),
{
    let ghost given = views(leaves@);
    let mut shards: Vec<Vec<u8>> = Vec::new();
    let mut i: usize = 0;
    while i < leaves.len()
        invariant
            i <= leaves.len(),
            given == views(leaves@),
            views(shards@) == all_unnumbered(given).take(i as int),
        decreases leaves.len() - i,
    {
        let shard = unnumber(&leaves[i]);
        let ghost before = views(shards@);
        shards.push(shard);
        assert(views(shards@) =~= before.push(shard@));
        assert(views(shards@) =~= all_unnumbered(given).take(i + 1));
        i += 1;
    }
    assert(all_unnumbered(given).take(leaves.len() as int) =~= all_unnumbered(given));
    if coding.encode(&mut shards).is_err() {
        return false;
    }
    let again = number_shards(shards);
    if again.len() != leaves.len() {
        return false;
    }
    let mut i: usize = 0;
    while i < leaves.len()
        invariant
            i <= leaves.len(),
            again.len() == leaves.len(),
            given == views(leaves@),
            given.len() == leaves.len(),
            views(again@) == numbered(
                encoded(all_unnumbered(given), coding.data_shards(), coding.parity_shards()),
            ),
            forall|j: int| 0 <= j < i ==> #[trigger] given[j] == views(again@)[j],
        decreases leaves.len() - i,
    {
        if !same_bytes(leaves[i].as_slice(), again[i].as_slice()) {
            assert(given[i as int] != views(again@)[i as int]);
            return false;
        }
        i += 1;
    }
    assert(given =~= views(again@));
    true
}

/// Reconstructs the leaves of the tree with the given root hash, and decodes the value that they
/// hold. The leaves that were missing are put in their places.
///
/// Any `data_shard_num` leaves of a value bring back the value.
pub(crate) fn decode_from_shards(
    leaf_values: &mut Vec<Option<Vec<u8>>>,
    coding: &Coding,
    data_shard_num: usize,
    root_hash: &[u8],
) -> (r: Result<Vec<u8>, Error>)
    requires
        coding.wf(),
        data_shard_num == coding.data_shards(),
        decodable(
            optional_views(old(leaf_values)@),
            coding.data_shards(),
            coding.parity_shards(),
            root_hash@,
        ),
    ensures
        ({
            let (data, parity) = (coding.data_shards(), coding.parity_shards());
            let before = optional_views(old(leaf_values)@);
            let after = optional_views(final(leaf_values)@);
            &&& match r {
                Ok(value) => decoded(before, data, parity, root_hash@) == Ok::<Seq<u8>, Error>(
                    value@,
                ),
                Err(e) => decoded(before, data, parity, root_hash@) == Err::<Seq<u8>, Error>(e),
            }
            &&& after == if leaf_failure(before, data, parity) is None {
                completed(before, data, parity).map_values(|s: Seq<u8>| Some(s))
            } else {
                before
            }
            &&& forall|whole: Seq<Seq<u8>>|
                root_hash@ == root_of(whole) && #[trigger] recoverable(
                    before,
                    coding.data_shards(),
                    coding.parity_shards(),
                    whole,
                ) ==> r is Ok && completed(before, data, parity) == whole
        }),
{
    let ghost (data, parity) = (coding.data_shards(), coding.parity_shards());
    let ghost before = optional_views(leaf_values@);
    // Try to interpolate the Merkle tree using the Reed-Solomon erasure coding scheme.
    let leaves = match complete_leaves(leaf_values, coding) {
        Ok(leaves) => leaves,
        Err(e) => {
            proof {
                assert forall|whole: Seq<Seq<u8>>| #[trigger]
                    recoverable(before, data, parity, whole) implies false by {
                    lemma_recoverable(before, data, parity, whole);
                }
            }
            return Err(e);
        },
    };
    // Construct the Merkle tree.
    let mtree = tree_from_vec(leaves);
    open_leaves(
        &tree_values(&mtree),
        tree_root_hash(&mtree).as_slice(),
        root_hash,
        data_shard_num,
    )
}

/// Decodes the value that the leaves of the tree with the given root hash hold, if they are
/// coherent.
pub(crate) fn decode_whole(
    leaf_values: Vec<Option<Vec<u8>>>,
    coding: &Coding,
    data_shard_num: usize,
    root_hash: &[u8],
) -> (r: Result<Vec<u8>, Error>)
    requires
        coding.wf(),
        data_shard_num == coding.data_shards(),
        decodable(
            optional_views(leaf_values@),
            coding.data_shards(),
            coding.parity_shards(),
            root_hash@,
        ),
    ensures
        ({
            let (data, parity) = (coding.data_shards(), coding.parity_shards());
            let before = optional_views(leaf_values@);
            &&& match r {
                Ok(value) => decoded_whole(before, data, parity, root_hash@) == Ok::<
                    Seq<u8>,
                    Error,
                >(value@),
                Err(e) => decoded_whole(before, data, parity, root_hash@) == Err::<Seq<u8>, Error>(
                    e,
                ),
            }
            &&& forall|whole: Seq<Seq<u8>>|
                root_hash@ == root_of(whole) && #[trigger] recoverable(
                    before,
                    coding.data_shards(),
                    coding.parity_shards(),
                    whole,
                ) ==> (r matches Ok(value) && value@ == payload(joined(whole, data), data))
        }),
{
    let ghost before = optional_views(leaf_values@);
    let mut leaf_values = leaf_values;
    match decode_from_shards(&mut leaf_values, coding, data_shard_num, root_hash) {
        Ok(value) => {
            let ghost all = completed(before, coding.data_shards(), coding.parity_shards());
            assert(optional_views(leaf_values@) == all.map_values(|s: Seq<u8>| Some(s)));
            assert forall|i: int| 0 <= i < leaf_values.len() implies (
            #[trigger] leaf_values@[i]) is Some && leaf_values@[i]->0@ == all[i] by {
                assert(optional_views(leaf_values@).len() == all.len());
                assert(optional_views(leaf_values@)[i] == Some(all[i]));
            }
            let leaves = take_shards(&leaf_values);
            assert(views(leaves@) =~= all);
            if is_coherent(&leaves, coding) {
                Ok(value)
            } else {
                // The proposer has made up shards that do not belong together.
                Err(Error::RootHashMismatch)
            }
        },
        Err(e) => Err(e),
    }
}

/// The shards in the slots, none of which is empty.
fn take_shards(leaf_values: &Vec<Option<Vec<u8>>>) -> (r: Vec<Vec<u8>>)
    requires
        forall|i: int| 0 <= i < leaf_values.len() ==> (#[trigger] leaf_values@[i]) is Some,
    ensures
        r.len() == leaf_values.len(),
        forall|i: int| 0 <= i < r.len() ==> (#[trigger] r@[i])@ == leaf_values@[i]->0@,
{
    let mut shards: Vec<Vec<u8>> = Vec::new();
    let mut i: usize = 0;
    while i < leaf_values.len()
        invariant
            i <= leaf_values.len(),
            forall|i: int| 0 <= i < leaf_values.len() ==> (#[trigger] leaf_values@[i]) is Some,
            shards.len() == i,
            forall|j: int| 0 <= j < i ==> (#[trigger] shards@[j])@ == leaf_values@[j]->0@,
        decreases leaf_values.len() - i,
    {
        if let Some(shard) = &leaf_values[i] {
            shards.push(slice_to_vec(shard.as_slice()));
        }
        i += 1;
    }
    shards
}

/// Tells whether decoding these leaves finds a payload, if it gets so far as to look for one.
pub(crate) fn is_decodable(
    leaf_values: Vec<Option<Vec<u8>>>,
    coding: &Coding,
    data_shard_num: usize,
    root_hash: &[u8],
) -> (r: bool)
    requires
        coding.wf(),
        data_shard_num == coding.data_shards(),
    ensures
        r == decodable(
            optional_views(leaf_values@),
            coding.data_shards(),
            coding.parity_shards(),
            root_hash@,
        ),
        forall|whole: Seq<Seq<u8>>| #[trigger]
            recoverable(
                optional_views(leaf_values@),
                coding.data_shards(),
                coding.parity_shards(),
                whole,
            ) && holds_payload(joined(whole, coding.data_shards())) ==> r,
{
    let mut leaf_values = leaf_values;
    let leaves = match complete_leaves(&mut leaf_values, coding) {
        Ok(leaves) => leaves,
        Err(_) => return true,
    };
    let mtree = tree_from_vec(leaves);
    if !same_bytes(tree_root_hash(&mtree).as_slice(), root_hash) {
        return true;
    }
    let bytes = join_leaves(&tree_values(&mtree), data_shard_num);
    bytes.len() > 0 && (bytes[0] as usize) < bytes.len()
}

} // verus!
