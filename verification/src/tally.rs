//! Counting and collecting what the nodes have sent.
use std::collections::{BTreeMap, BTreeSet};
use vstd::prelude::*;
use vstd::seq_lib::seq_to_set_is_finite;
use vstd::slice::slice_to_vec;
use vstd::std_specs::iter::IteratorSpec;

use crate::coding::optional_views;
use crate::ids::{in_order, lawful_id, list_ids};

use crate::tree::{same_bytes, InclusionProof};

verus! {

/// One more key, that was not there before, is counted if it passes the test.
proof fn lemma_count_step<N>(keys: Seq<N>, test: spec_fn(N) -> bool, i: int)
    requires
        keys.no_duplicates(),
        0 <= i < keys.len(),
    ensures
        keys.take(i).to_set().filter(test).finite(),
        keys.take(i + 1).to_set().filter(test).len() == keys.take(i).to_set().filter(test).len()
            + if test(keys[i]) {
            1nat
        } else {
            0nat
        },
{
    let head = keys.take(i);
    let more = keys.take(i + 1);
    let before = head.to_set();
    let after = more.to_set();
    head.unique_seq_to_set();
    seq_to_set_is_finite(head);
    before.lemma_len_filter(test);
    assert(after =~= before.insert(keys[i])) by {
        assert(more =~= head.push(keys[i]));
        assert forall|x: N| after.contains(x) <==> before.insert(keys[i]).contains(x) by {
            if after.contains(x) {
                let k = choose|k: int| 0 <= k < more.len() && more[k] == x;
                if k < i {
                    assert(head[k] == x);
                }
            }
            if before.contains(x) {
                let k = choose|k: int| 0 <= k < head.len() && head[k] == x;
                assert(more[k] == x);
            }
            assert(more[i] == keys[i]);
        }
    }
    assert(!before.contains(keys[i])) by {
        if before.contains(keys[i]) {
            let k = choose|k: int| 0 <= k < head.len() && head[k] == keys[i];
            assert(keys[k] == keys[i]);
        }
    }
    if test(keys[i]) {
        assert(after.filter(test) =~= before.filter(test).insert(keys[i]));
    } else {
        assert(after.filter(test) =~= before.filter(test));
    }
}

/// Returns the number of nodes that have sent an `Echo` message with this hash.
pub(crate) fn count_echos_in<N: Clone + Ord>(
    echos: &BTreeMap<N, InclusionProof>,
    hash: &[u8],
) -> (r: usize)
    requires
        lawful_id::<N>(),
    ensures
        r == echos@.dom().filter(|id: N| echos@[id]@.root_hash == hash@).len(),
{
    let ghost test = |id: N| echos@[id]@.root_hash == hash@;
    let values = echos.values();
    let ghost keys = choose|keys: Seq<N>|
        {
            &&& keys.to_set() == echos@.dom()
            &&& keys.no_duplicates()
            &&& values.remaining() == keys.map(|i: int, k: N| &echos@[k])
        };
    let size: usize = echos.len();
    let mut count: usize = 0;
    proof {
        keys.unique_seq_to_set();
        assert(keys.len() == size);
        assert(keys.take(0).to_set().filter(test) =~= Set::empty());
    }
    for p in it: values
        invariant
            it.seq() == keys.map(|i: int, k: N| &echos@[k]),
            keys.no_duplicates(),
            test == |id: N| echos@[id]@.root_hash == hash@,
            count == keys.take(it.index()).to_set().filter(test).len(),
            count <= it.index(),
            keys.len() <= usize::MAX,
    {
        proof {
            lemma_count_step(keys, test, it.index());
        }
        if same_bytes(p.root_hash().as_slice(), hash) {
            count += 1;
        }
    }
    assert(keys.take(keys.len() as int) =~= keys);
    count
}

/// Returns the number of nodes that have sent a `Ready` message with this hash.
pub(crate) fn count_readys_in<N: Clone + Ord>(
    readys: &BTreeMap<N, Vec<u8>>,
    hash: &[u8],
) -> (r: usize)
    requires
        lawful_id::<N>(),
    ensures
        r == readys@.dom().filter(|id: N| readys@[id]@ == hash@).len(),
{
    let ghost test = |id: N| readys@[id]@ == hash@;
    let values = readys.values();
    let ghost keys = choose|keys: Seq<N>|
        {
            &&& keys.to_set() == readys@.dom()
            &&& keys.no_duplicates()
            &&& values.remaining() == keys.map(|i: int, k: N| &readys@[k])
        };
    let size: usize = readys.len();
    let mut count: usize = 0;
    proof {
        keys.unique_seq_to_set();
        assert(keys.len() == size);
        assert(keys.take(0).to_set().filter(test) =~= Set::empty());
    }
    for h in it: values
        invariant
            it.seq() == keys.map(|i: int, k: N| &readys@[k]),
            keys.no_duplicates(),
            test == |id: N| readys@[id]@ == hash@,
            count == keys.take(it.index()).to_set().filter(test).len(),
            count <= it.index(),
            keys.len() <= usize::MAX,
    {
        proof {
            lemma_count_step(keys, test, it.index());
        }
        if same_bytes(h.as_slice(), hash) {
            count += 1;
        }
    }
    assert(keys.take(keys.len() as int) =~= keys);
    count
}

/// Lists, for each node, the leaf that it has echoed for this hash.
pub(crate) fn leaf_values_in<N: Clone + Ord>(
    ids: &BTreeSet<N>,
    echos: &BTreeMap<N, InclusionProof>,
    hash: &[u8],
) -> (r: Vec<Option<Vec<u8>>>)
    requires
        lawful_id::<N>(),
    ensures
        optional_views(r@) == in_order(ids@).map_values(
            |id: N|
                if echos@.contains_key(id) && echos@[id]@.root_hash == hash@ {
                    Some(echos@[id]@.value)
                } else {
                    None
                },
        ),
{
    let list = list_ids(ids);
    let ghost leaf = |id: N|
        if echos@.contains_key(id) && echos@[id]@.root_hash == hash@ {
            Some(echos@[id]@.value)
        } else {
            None::<Seq<u8>>
        };
    let ghost all = in_order(ids@).map_values(leaf);
    let mut values: Vec<Option<Vec<u8>>> = Vec::new();
    let mut i: usize = 0;
    while i < list.len()
        invariant
            lawful_id::<N>(),
            i <= list.len(),
            list@.unref() == in_order(ids@),
            all == in_order(ids@).map_values(leaf),
            leaf == |id: N|
                if echos@.contains_key(id) && echos@[id]@.root_hash == hash@ {
                    Some(echos@[id]@.value)
                } else {
                    None::<Seq<u8>>
                },
            optional_views(values@) == all.take(i as int),
        decreases list.len() - i,
    {
        let id = list[i];
        assert(list@.unref()[i as int] == *id);
        let mut value: Option<Vec<u8>> = None;
        if let Some(p) = echos.get(id) {
            if same_bytes(p.root_hash().as_slice(), hash) {
                value = Some(slice_to_vec(p.value().as_slice()));
            }
        }
        let ghost before = optional_views(values@);
        let ghost entry = all[i as int];
        values.push(value);
        assert(optional_views(values@) =~= before.push(entry));
        assert(all.take(i + 1) =~= all.take(i as int).push(entry));
        i += 1;
    }
    assert(all.take(list.len() as int) =~= all);
    values
}

} // verus!
