//! What the library asks of a node identifier.
use std::collections::BTreeSet;
use vstd::laws_cmp::{
    lemma_ref_obeys_cmp_spec, obeys_cmp, obeys_cmp_ord, obeys_partial_cmp_spec_properties,
};
use vstd::laws_eq::obeys_concrete_eq;
use vstd::pervasive::strictly_cloned;
use vstd::prelude::*;
use vstd::std_specs::btree::increasing_seq;
use vstd::std_specs::cmp::{OrdSpec, PartialOrdSpec};
use vstd::std_specs::iter::IteratorSpec;

verus! {

/// The identifier type keeps the promises of `Eq`, `Ord` and `Clone`: equality and order are those
/// of the values, and a clone is the value itself.
pub open spec fn lawful_id<N: Clone + Ord>() -> bool {
    &&& obeys_cmp::<N>()
    &&& obeys_concrete_eq::<N>()
    &&& forall|a: N, b: N| #[trigger] strictly_cloned(a, b) ==> a == b
}

/// `a` comes before `b` in the order of the identifier type.
pub open spec fn before<N: Ord>(a: N, b: N) -> bool {
    a.cmp_spec(&b) is Less
}

/// `ids` runs upwards, in the order of the identifier type.
pub open spec fn ascending<N: Ord>(ids: Seq<N>) -> bool {
    forall|i: int, j: int| 0 <= i < j < ids.len() ==> before(#[trigger] ids[i], #[trigger] ids[j])
}

/// The identifiers of a set, in ascending order.
pub open spec fn in_order<N: Ord>(ids: Set<N>) -> Seq<N> {
    choose|q: Seq<N>| ascending(q) && #[trigger] q.to_set() == ids
}

/// An identifier type is lawful if its order and equality are those of its values and a clone is
/// the value itself, and the standard integers are such types.
pub proof fn law_lawful_id<N: Clone + Ord>()
    ensures
        obeys_cmp::<N>() && obeys_concrete_eq::<N>() && (forall|a: N, b: N| #[trigger]
            strictly_cloned(a, b) ==> a == b) ==> lawful_id::<N>(),
        lawful_id::<u8>(),
        lawful_id::<u16>(),
        lawful_id::<u32>(),
        lawful_id::<u64>(),
        lawful_id::<usize>(),
{
}

/// Identifiers run upwards if each is less than all that follow it.
pub proof fn law_ascending<N: Ord>(ids: Seq<N>)
    ensures
        ascending(ids) <==> forall|i: int, j: int|
            0 <= i < j < ids.len() ==> OrdSpec::cmp_spec(
                #[trigger] &ids[i],
                #[trigger] &ids[j],
            ) is Less,
{
    if ascending(ids) {
        assert forall|i: int, j: int| 0 <= i < j < ids.len() implies OrdSpec::cmp_spec(
            #[trigger] &ids[i],
            #[trigger] &ids[j],
        ) is Less by {
            assert(before(ids[i], ids[j]));
        }
    }
}

/// The order is strict, and it is transitive.
proof fn lemma_before<N: Clone + Ord>(a: N, b: N, c: N)
    requires
        lawful_id::<N>(),
    ensures
        !before(a, a),
        before(a, b) && before(b, c) ==> before(a, c),
{
    reveal(obeys_cmp_ord);
    reveal(obeys_partial_cmp_spec_properties);
    assert(a.partial_cmp_spec(&a) == Some(a.cmp_spec(&a)));
    assert(a.partial_cmp_spec(&b) == Some(a.cmp_spec(&b)));
    assert(b.partial_cmp_spec(&c) == Some(b.cmp_spec(&c)));
    assert(a.partial_cmp_spec(&c) == Some(a.cmp_spec(&c)));
}

/// Only one ascending sequence has the identifiers of a set, and it has each of them once.
pub proof fn lemma_in_order<N: Clone + Ord>(q: Seq<N>, ids: Set<N>)
    requires
        lawful_id::<N>(),
        ascending(q),
        q.to_set() == ids,
    ensures
        q == in_order(ids),
        q.no_duplicates(),
        q.len() == ids.len(),
{
    assert forall|i: int, j: int| 0 <= i < q.len() && 0 <= j < q.len() && i != j implies q[i]
        != q[j] by {
        lemma_before(q[i], q[j], q[i]);
        if i < j {
            assert(before(q[i], q[j]));
        } else {
            assert(before(q[j], q[i]));
        }
    }
    q.unique_seq_to_set();
    lemma_ascending_unique(q, in_order(ids));
}

/// Two ascending sequences with the same elements are equal.
proof fn lemma_ascending_unique<N: Clone + Ord>(p: Seq<N>, q: Seq<N>)
    requires
        lawful_id::<N>(),
        ascending(p),
        ascending(q),
        p.to_set() == q.to_set(),
    ensures
        p == q,
    decreases p.len(),
{
    if p.len() == 0 {
        if q.len() > 0 {
            assert(q.to_set().contains(q[0]));
        }
        assert(p =~= q);
    } else {
        assert(p.to_set().contains(p[0]));
        let j = choose|j: int| 0 <= j < q.len() && q[j] == p[0];
        assert(q.to_set().contains(q[0]));
        let i = choose|i: int| 0 <= i < p.len() && p[i] == q[0];
        lemma_before(p[0], q[0], p[0]);
        if j > 0 {
            assert(before(q[0], q[j]));
            if i > 0 {
                assert(before(p[0], p[i]));
            }
        }
        assert(p[0] == q[0]);
        let p1 = p.drop_first();
        let q1 = q.drop_first();
        assert forall|x: N| p1.to_set().contains(x) <==> q1.to_set().contains(x) by {
            if p1.to_set().contains(x) {
                let k = choose|k: int| 0 <= k < p1.len() && p1[k] == x;
                assert(before(p[0], p[k + 1]));
                lemma_before(p[0], x, x);
                assert(p.to_set().contains(p[k + 1]));
                let l = choose|l: int| 0 <= l < q.len() && q[l] == x;
                assert(l > 0);
                assert(q1[l - 1] == x);
            }
            if q1.to_set().contains(x) {
                let k = choose|k: int| 0 <= k < q1.len() && q1[k] == x;
                assert(before(q[0], q[k + 1]));
                lemma_before(q[0], x, x);
                assert(q.to_set().contains(q[k + 1]));
                let l = choose|l: int| 0 <= l < p.len() && p[l] == x;
                assert(l > 0);
                assert(p1[l - 1] == x);
            }
        }
        assert(p1.to_set() =~= q1.to_set());
        assert forall|i: int, j: int| 0 <= i < j < p1.len() implies before(
            #[trigger] p1[i],
            #[trigger] p1[j],
        ) by {
            assert(before(p[i + 1], p[j + 1]));
        }
        assert forall|i: int, j: int| 0 <= i < j < q1.len() implies before(
            #[trigger] q1[i],
            #[trigger] q1[j],
        ) by {
            assert(before(q[i + 1], q[j + 1]));
        }
        lemma_ascending_unique(p1, q1);
        assert(p =~= seq![p[0]] + p1);
        assert(q =~= seq![q[0]] + q1);
    }
}

/// References in increasing order refer to identifiers in ascending order.
proof fn lemma_increasing<N: Clone + Ord>(q: Seq<&N>)
    requires
        lawful_id::<N>(),
        increasing_seq(q),
    ensures
        ascending(q.unref()),
{
    broadcast use lemma_ref_obeys_cmp_spec;

    assert(obeys_cmp::<&N>());
    assert forall|i: int, j: int| 0 <= i < j < q.unref().len() implies before(
        #[trigger] q.unref()[i],
        #[trigger] q.unref()[j],
    ) by {
        assert(OrdSpec::cmp_spec(&q[i], &q[j]) is Less);
    }
}

/// Lists the identifiers of a set in ascending order.
pub fn list_ids<N: Clone + Ord>(ids: &BTreeSet<N>) -> (r: Vec<&N>)
    requires
        lawful_id::<N>(),
    ensures
        r@.unref() == in_order(ids@),
        ascending(r@.unref()),
        r@.unref().to_set() == ids@,
        r@.unref().no_duplicates(),
        r.len() == ids@.len(),
{
    let mut list: Vec<&N> = Vec::new();
    let iter = ids.iter();
    let ghost q = iter.remaining();
    proof {
        lemma_increasing(q);
        lemma_in_order(q.unref(), ids@);
    }
    for id in it: iter
        invariant
            it.seq() == q,
            list@ == q.take(it.index()),
    {
        assert(q.take(it.index() + 1) =~= q.take(it.index()).push(id));
        list.push(id);
    }
    assert(q.take(q.len() as int) =~= q);
    list
}

/// Tells whether two identifiers are the same.
pub fn same_id<N: Clone + Ord>(a: &N, b: &N) -> (r: bool)
    requires
        lawful_id::<N>(),
    ensures
        r == (*a == *b),
{
    reveal(obeys_concrete_eq);
    *a == *b
}

/// Copies an identifier.
pub fn copy_id<N: Clone + Ord>(id: &N) -> (r: N)
    requires
        lawful_id::<N>(),
    ensures
        r == *id,
{
    let copy = id.clone();
    assert(strictly_cloned(*id, copy));
    copy
}

} // verus!
