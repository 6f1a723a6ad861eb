//! Merkle trees over byte strings and the inclusion proofs they yield.
//!
//! The trees and proofs are those of the `merkle` crate, hashed with SHA-256. The functions that
//! reach into the crate carry contracts that are not proved here; everything they are trusted for
//! is said in their comments.
use ring::digest;
use vstd::prelude::*;
use vstd::slice::slice_to_vec;

verus! {

/// A proof that a byte string is a leaf of a Merkle tree.
#[verifier::external_type_specification]
#[verifier::external_body]
#[verifier::reject_recursive_types(T)]
pub struct ExProof<T>(merkle::Proof<T>);

/// A Merkle tree.
#[verifier::external_type_specification]
#[verifier::external_body]
#[verifier::reject_recursive_types(T)]
pub struct ExMerkleTree<T>(merkle::MerkleTree<T>);

/// The hash functions that a proof can name.
pub enum HashAlgorithm {
    Sha1,
    Sha256,
    Sha384,
    Sha512,
    Sha512Trunc256,
}

/// The hash of a sibling node, and the side of the branch that it stands on.
pub enum Sibling {
    Left(Seq<u8>),
    Right(Seq<u8>),
}

/// One node on the way from the root of a tree down to a leaf.
pub struct Lemma {
    pub node_hash: Seq<u8>,
    pub sibling_hash: Option<Sibling>,
    pub sub_lemma: Option<Box<Lemma>>,
}

/// What a proof holds.
pub struct ProofContents {
    pub algorithm: HashAlgorithm,
    pub root_hash: Seq<u8>,
    pub lemma: Lemma,
    pub value: Seq<u8>,
}

/// The number of leaves to the left of the root in a tree of `count` leaves: the largest power of
/// two below `count`.
pub open spec fn left_leaves(count: nat) -> nat
    decreases count,
{
    if count <= 1 {
        0
    } else if count == 2 {
        1
    } else {
        2 * left_leaves((count + 1) / 2)
    }
}

/// Both sides of the root have leaves, if there are two at all.
pub proof fn lemma_left_leaves(count: nat)
    requires
        count >= 2,
    ensures
        0 < left_leaves(count) < count,
    decreases count,
{
    if count > 2 {
        lemma_left_leaves((count + 1) / 2);
    }
}

/// What the hash function makes of these bytes. The trees and proofs of the `merkle` crate are
/// hashed with it, too.
pub uninterp spec fn digest_of(algorithm: HashAlgorithm, bytes: Seq<u8>) -> Seq<u8>;

/// The SHA-256 hash of a leaf.
pub open spec fn leaf_hash(value: Seq<u8>) -> Seq<u8> {
    digest_of(HashAlgorithm::Sha256, seq![0u8] + value)
}

/// The hash of a node whose children have these hashes.
pub open spec fn node_hash(algorithm: HashAlgorithm, left: Seq<u8>, right: Seq<u8>) -> Seq<u8> {
    digest_of(algorithm, seq![1u8] + left + right)
}

/// The SHA-256 root hash of the tree with these leaves.
pub open spec fn root_of(leaves: Seq<Seq<u8>>) -> Seq<u8>
    decreases leaves.len(),
    via root_of_decreases
{
    if leaves.len() == 0 {
        digest_of(HashAlgorithm::Sha256, Seq::empty())
    } else if leaves.len() == 1 {
        leaf_hash(leaves[0])
    } else {
        let left = left_leaves(leaves.len()) as int;
        node_hash(HashAlgorithm::Sha256, root_of(leaves.take(left)), root_of(leaves.skip(left)))
    }
}

#[via_fn]
proof fn root_of_decreases(leaves: Seq<Seq<u8>>) {
    if leaves.len() >= 2 {
        lemma_left_leaves(leaves.len());
    }
}

/// The branch to the leaf in place `i`, in the tree with these leaves.
pub open spec fn branch_to(leaves: Seq<Seq<u8>>, i: int) -> Lemma
    decreases leaves.len(),
    via branch_to_decreases
{
    let left = left_leaves(leaves.len()) as int;
    if leaves.len() <= 1 {
        Lemma { node_hash: root_of(leaves), sibling_hash: None, sub_lemma: None }
    } else if i < left {
        Lemma {
            node_hash: root_of(leaves),
            sibling_hash: Some(Sibling::Right(root_of(leaves.skip(left)))),
            sub_lemma: Some(Box::new(branch_to(leaves.take(left), i))),
        }
    } else {
        Lemma {
            node_hash: root_of(leaves),
            sibling_hash: Some(Sibling::Left(root_of(leaves.take(left)))),
            sub_lemma: Some(Box::new(branch_to(leaves.skip(left), i - left))),
        }
    }
}

#[via_fn]
proof fn branch_to_decreases(leaves: Seq<Seq<u8>>, i: int) {
    if leaves.len() >= 2 {
        lemma_left_leaves(leaves.len());
    }
}

/// The first place of a leaf with this hash.
pub open spec fn is_first(leaves: Seq<Seq<u8>>, hash: Seq<u8>, i: int) -> bool {
    &&& 0 <= i < leaves.len()
    &&& leaf_hash(leaves[i]) == hash
    &&& forall|j: int| 0 <= j < i ==> leaf_hash(#[trigger] leaves[j]) != hash
}

/// The first place of a leaf with this hash.
pub open spec fn first_place(leaves: Seq<Seq<u8>>, hash: Seq<u8>) -> int {
    choose|i: int| is_first(leaves, hash, i)
}

/// Two of the leaves have the same hash.
pub open spec fn has_twins(leaves: Seq<Seq<u8>>) -> bool {
    exists|i: int, j: int|
        0 <= i < j < leaves.len() && leaf_hash(#[trigger] leaves[i]) == leaf_hash(
            #[trigger] leaves[j],
        )
}

impl Lemma {
    /// Every node of the branch has the hash of its two children, down to a node without any.
    pub open spec fn is_sound(self, algorithm: HashAlgorithm) -> bool
        decreases self,
    {
        match (self.sub_lemma, self.sibling_hash) {
            (None, None) => true,
            (Some(sub), Some(Sibling::Left(hash))) => self.node_hash == node_hash(
                algorithm,
                hash,
                sub.node_hash,
            ) && sub.is_sound(algorithm),
            (Some(sub), Some(Sibling::Right(hash))) => self.node_hash == node_hash(
                algorithm,
                sub.node_hash,
                hash,
            ) && sub.is_sound(algorithm),
            _ => false,
        }
    }

    /// The hashes of the nodes of the branch, from the root down.
    pub open spec fn hashes(self) -> Seq<Seq<u8>>
        decreases self,
    {
        match self.sub_lemma {
            Some(sub) => seq![self.node_hash] + sub.hashes(),
            None => seq![self.node_hash],
        }
    }

    /// The position, in a tree of `count` leaves, of the leaf that the branch leads to.
    pub open spec fn index(self, count: nat) -> nat
        decreases self,
    {
        match (self.sub_lemma, self.sibling_hash) {
            (Some(sub), Some(Sibling::Left(_))) => left_leaves(count) + sub.index(
                (count - left_leaves(count)) as nat,
            ),
            (Some(sub), Some(Sibling::Right(_))) => sub.index(left_leaves(count)),
            _ => 0,
        }
    }

    /// The branch, which starts at the root of the tree with these leaves and ends with the hash of
    /// `value`, shows two different inputs that have the same hash: at some node the branch and the
    /// tree have different children, or one of them has a leaf and the other one has none, or they
    /// have different leaves.
    pub open spec fn betrays(self, leaves: Seq<Seq<u8>>, value: Seq<u8>) -> bool
        decreases self,
    {
        let left = left_leaves(leaves.len()) as int;
        match (self.sub_lemma, self.sibling_hash) {
            (Some(sub), Some(Sibling::Left(hash))) => {
                ||| leaves.len() <= 1
                ||| hash != root_of(leaves.take(left))
                ||| sub.node_hash != root_of(leaves.skip(left))
                ||| sub.betrays(leaves.skip(left), value)
            },
            (Some(sub), Some(Sibling::Right(hash))) => {
                ||| leaves.len() <= 1
                ||| sub.node_hash != root_of(leaves.take(left))
                ||| hash != root_of(leaves.skip(left))
                ||| sub.betrays(leaves.take(left), value)
            },
            _ => leaves.len() != 1 || leaves[0] != value,
        }
    }
}

impl ProofContents {
    /// The branch is sound and starts at `root_hash`, which is also the proof's own root hash.
    pub open spec fn valid(self, root_hash: Seq<u8>) -> bool {
        &&& self.root_hash == root_hash
        &&& self.lemma.node_hash == root_hash
        &&& self.lemma.is_sound(self.algorithm)
    }

    /// The proof is valid for its own root hash, it is about SHA-256 trees, and the branch ends
    /// with the hash of the value.
    pub open spec fn is_proven(self) -> bool {
        &&& self.valid(self.root_hash)
        &&& self.algorithm is Sha256
        &&& self.lemma.hashes().last() == leaf_hash(self.value)
    }
}

/// A proven value is the leaf of the tree in the place that the branch leads to, unless the branch
/// shows two different inputs that have the same hash.
pub proof fn law_bound(p: ProofContents, leaves: Seq<Seq<u8>>)
    requires
        p.is_proven(),
        p.root_hash == root_of(leaves),
        leaves.len() > 0,
        !p.lemma.betrays(leaves, p.value),
    ensures
        p.lemma.index(leaves.len()) < leaves.len(),
        p.value == leaves[p.lemma.index(leaves.len()) as int],
{
    lemma_bound(p.lemma, leaves, p.value);
}

/// A branch that does not betray two inputs with one hash ends at the leaf that it leads to.
proof fn lemma_bound(lemma: Lemma, leaves: Seq<Seq<u8>>, value: Seq<u8>)
    requires
        leaves.len() > 0,
        lemma.is_sound(HashAlgorithm::Sha256),
        !lemma.betrays(leaves, value),
    ensures
        lemma.index(leaves.len()) < leaves.len(),
        value == leaves[lemma.index(leaves.len()) as int],
    decreases lemma,
{
    let left = left_leaves(leaves.len()) as int;
    match (lemma.sub_lemma, lemma.sibling_hash) {
        (Some(sub), Some(Sibling::Left(_))) => {
            lemma_left_leaves(leaves.len());
            lemma_bound(*sub, leaves.skip(left), value);
        },
        (Some(sub), Some(Sibling::Right(_))) => {
            lemma_left_leaves(leaves.len());
            lemma_bound(*sub, leaves.take(left), value);
        },
        _ => {},
    }
}

/// The branch to a leaf is sound, starts at the root, leads to the leaf's place and ends with its
/// hash.
pub proof fn lemma_branch(leaves: Seq<Seq<u8>>, i: int)
    requires
        0 <= i < leaves.len(),
    ensures
        branch_to(leaves, i).is_sound(HashAlgorithm::Sha256),
        branch_to(leaves, i).node_hash == root_of(leaves),
        branch_to(leaves, i).index(leaves.len()) == i,
        branch_to(leaves, i).hashes().len() > 0,
        branch_to(leaves, i).hashes().last() == leaf_hash(leaves[i]),
    decreases leaves.len(),
{
    let left = left_leaves(leaves.len()) as int;
    if leaves.len() >= 2 {
        lemma_left_leaves(leaves.len());
        if i < left {
            lemma_branch(leaves.take(left), i);
        } else {
            lemma_branch(leaves.skip(left), i - left);
        }
    }
}

/// A leaf has a first place with its hash, which is its own unless two leaves have the same hash.
pub proof fn lemma_first_place(leaves: Seq<Seq<u8>>, i: int)
    requires
        0 <= i < leaves.len(),
    ensures
        is_first(leaves, leaf_hash(leaves[i]), first_place(leaves, leaf_hash(leaves[i]))),
        first_place(leaves, leaf_hash(leaves[i])) <= i,
        !has_twins(leaves) ==> first_place(leaves, leaf_hash(leaves[i])) == i,
{
    let hash = leaf_hash(leaves[i]);
    lemma_some_first(leaves, hash, i);
    let first = first_place(leaves, hash);
    if first < i {
        assert(leaf_hash(leaves[first]) == leaf_hash(leaves[i]));
    }
}

/// Where some leaf has a hash, one is the first that has it.
proof fn lemma_some_first(leaves: Seq<Seq<u8>>, hash: Seq<u8>, i: int)
    requires
        0 <= i < leaves.len(),
        leaf_hash(leaves[i]) == hash,
    ensures
        exists|j: int| is_first(leaves, hash, j),
    decreases i,
{
    if exists|j: int| 0 <= j < i && leaf_hash(#[trigger] leaves[j]) == hash {
        let j = choose|j: int| 0 <= j < i && leaf_hash(#[trigger] leaves[j]) == hash;
        lemma_some_first(leaves, hash, j);
    } else {
        assert(is_first(leaves, hash, i));
    }
}

/// What the proof `p` holds: its hash function, root hash, branch and value.
pub uninterp spec fn proof_contents(p: merkle::Proof<Vec<u8>>) -> ProofContents;

/// The leaves of the tree `t`, from left to right.
pub uninterp spec fn tree_leaves(t: merkle::MerkleTree<Vec<u8>>) -> Seq<Seq<u8>>;

/// The hash function of the tree `t`.
pub uninterp spec fn tree_algorithm(t: merkle::MerkleTree<Vec<u8>>) -> HashAlgorithm;

/// The byte strings held by a sequence of vectors.
pub open spec fn views(vectors: Seq<Vec<u8>>) -> Seq<Seq<u8>> {
    vectors.map_values(|v: Vec<u8>| v@)
}

/// Calls `ring::digest::digest` with SHA-256. Trusted: the digest depends on the bytes alone.
#[verifier::external_body]
fn sha256(bytes: &[u8]) -> (r: Vec<u8>)
    ensures
        r@ == digest_of(HashAlgorithm::Sha256, bytes@),
{
    digest::digest(&digest::SHA256, bytes).as_ref().to_vec()
}

/// Returns the hash that the value has as a leaf.
pub fn hash_leaf(value: &Vec<u8>) -> (r: Vec<u8>)
    ensures
        r@ == leaf_hash(value@),
{
    let mut bytes: Vec<u8> = Vec::new();
    bytes.push(0);
    let mut rest = slice_to_vec(value.as_slice());
    bytes.append(&mut rest);
    assert(bytes@ =~= seq![0u8] + value@);
    sha256(bytes.as_slice())
}

/// A proof that a byte string is a leaf of a Merkle tree.
#[derive(Debug, PartialEq)]
pub struct InclusionProof {
    pub inner: merkle::Proof<Vec<u8>>,
}

impl View for InclusionProof {
    type V = ProofContents;

    open spec fn view(&self) -> ProofContents {
        proof_contents(self.inner)
    }
}

impl Clone for InclusionProof {
    /// Calls `merkle::Proof::clone`. Trusted: the copy holds the same as `self`.
    #[verifier::external_body]
    fn clone(&self) -> (r: InclusionProof)
        ensures
            proof_contents(r.inner) == proof_contents(self.inner),
    {
        InclusionProof { inner: self.inner.clone() }
    }
}

impl InclusionProof {
    /// Reads the field `root_hash` of `merkle::Proof`. Trusted: it is the root hash that the proof
    /// holds.
    #[verifier::external_body]
    pub(crate) fn root_hash(&self) -> (r: &Vec<u8>)
        ensures
            r@ == self@.root_hash,
    {
        &self.inner.root_hash
    }

    /// Reads the field `value` of `merkle::Proof`. Trusted: it is the value that the proof holds.
    #[verifier::external_body]
    pub(crate) fn value(&self) -> (r: &Vec<u8>)
        ensures
            r@ == self@.value,
    {
        &self.inner.value
    }

    /// Compares the field `algorithm` of `merkle::Proof` with SHA-256, by `ring`'s equality of hash
    /// functions. Trusted: they are equal if the proof holds SHA-256, and only then.
    #[verifier::external_body]
    pub(crate) fn is_sha256(&self) -> (r: bool)
        ensures
            r == (self@.algorithm is Sha256),
    {
        *self.inner.algorithm == digest::SHA256
    }

    /// Reads the fields `node_hash` along the branch of `merkle::Proof`. Trusted: they are the
    /// hashes of the branch that the proof holds, from the root down.
    #[verifier::external_body]
    pub(crate) fn branch_hashes(&self) -> (r: Vec<Vec<u8>>)
        ensures
            views(r@) == self@.lemma.hashes(),
    {
        let nodes = std::iter::successors(Some(&self.inner.lemma), |l| l.sub_lemma.as_deref());
        nodes.map(|l| l.node_hash.clone()).collect()
    }

    /// Calls `merkle::Proof::validate`. Trusted: it tells whether the root hashes agree and every
    /// node of the branch has the hash of its children. It does not look at the value.
    #[verifier::external_body]
    pub(crate) fn validate(&self, root_hash: &[u8]) -> (r: bool)
        ensures
            r == (self@.root_hash == root_hash@ && self@.lemma.node_hash == root_hash@
                && self@.lemma.is_sound(self@.algorithm)),
    {
        self.inner.validate(root_hash)
    }

    /// Calls `merkle::Proof::index`. Trusted: on a sound branch it returns the position that the
    /// sides of the siblings spell out, which is below `count`.
    #[verifier::external_body]
    pub(crate) fn index(&self, count: usize) -> (r: usize)
        requires
            self@.lemma.is_sound(self@.algorithm),
            0 < count <= usize::MAX / 2,
        ensures
            r == self@.lemma.index(count as nat),
            r < count,
    {
        self.inner.index(count)
    }

    /// Tells whether the proof is valid, and its value is what the branch ends with.
    pub fn is_proven(&self) -> (r: bool)
        ensures
            r == self@.is_proven(),
    {
        if !self.validate(self.root_hash().as_slice()) || !self.is_sha256() {
            return false;
        }
        let hashes = self.branch_hashes();
        proof {
            lemma_hashes(self@.lemma);
            assert(views(hashes@).last() == hashes@[hashes.len() - 1]@);
        }
        same_bytes(hashes[hashes.len() - 1].as_slice(), hash_leaf(self.value()).as_slice())
    }
}

/// A branch has at least one node.
pub(crate) proof fn lemma_hashes(lemma: Lemma)
    ensures
        lemma.hashes().len() > 0,
{
}

/// Tells whether two byte strings are the same.
pub fn same_bytes(a: &[u8], b: &[u8]) -> (r: bool)
    ensures
        r == (a@ == b@),
{
    if a.len() != b.len() {
        return false;
    }
    let mut i: usize = 0;
    while i < a.len()
        invariant
            i <= a.len(),
            a.len() == b.len(),
            forall|j: int| 0 <= j < i ==> a@[j] == b@[j],
        decreases a.len() - i,
    {
        if a[i] != b[i] {
            return false;
        }
        i += 1;
    }
    assert(a@ =~= b@);
    true
}

/// Calls `merkle::MerkleTree::from_vec` with SHA-256. Trusted: the leaves of the tree are the given
/// values, in their order, and its hash function is SHA-256.
#[verifier::external_body]
pub(crate) fn tree_from_vec(values: Vec<Vec<u8>>) -> (t: merkle::MerkleTree<Vec<u8>>)
    ensures
        tree_leaves(t) == views(values@),
        tree_algorithm(t) == HashAlgorithm::Sha256,
{
    merkle::MerkleTree::from_vec(&digest::SHA256, values)
}

/// Calls `merkle::MerkleTree::root_hash`. Trusted: the hash of a leaf is that of a zero byte and
/// the leaf, the hash of a node is that of a one byte and the hashes of its children, and the root
/// has the largest power of two of leaves to its left that leaves some to its right.
#[verifier::external_body]
pub(crate) fn tree_root_hash(t: &merkle::MerkleTree<Vec<u8>>) -> (r: &Vec<u8>)
    requires
        tree_algorithm(*t) is Sha256,
    ensures
        r@ == root_of(tree_leaves(*t)),
{
    t.root_hash()
}

/// Calls `merkle::MerkleTree::iter`. Trusted: the iterator yields the leaves from left to right.
#[verifier::external_body]
pub(crate) fn tree_values(t: &merkle::MerkleTree<Vec<u8>>) -> (r: Vec<Vec<u8>>)
    ensures
        views(r@) == tree_leaves(*t),
{
    t.iter().cloned().collect()
}

/// Calls `merkle::MerkleTree::gen_proof`. Trusted: a value that has the hash of a leaf gets a
/// proof, and no other. The proof holds the value, the root hash of the tree and the branch to the
/// first leaf with that hash.
#[verifier::external_body]
pub(crate) fn tree_gen_proof(t: &merkle::MerkleTree<Vec<u8>>, value: Vec<u8>) -> (r: Option<
    InclusionProof,
>)
    requires
        tree_algorithm(*t) is Sha256,
    ensures
        r is Some == (exists|i: int|
            0 <= i < tree_leaves(*t).len() && leaf_hash(#[trigger] tree_leaves(*t)[i])
                == leaf_hash(value@)),
        r matches Some(p) ==> p@ == (ProofContents {
            algorithm: HashAlgorithm::Sha256,
            root_hash: root_of(tree_leaves(*t)),
            lemma: branch_to(
                tree_leaves(*t),
                first_place(tree_leaves(*t), leaf_hash(value@)),
            ),
            value: value@,
        }),
{
    t.gen_proof(value).map(|inner| InclusionProof { inner })
}

} // verus!
