//! Erasure coding of equally long shards.
//!
//! The code itself is that of the `reed_solomon_erasure` crate. The functions that reach into the
//! crate carry contracts that are not proved here; everything they are trusted for is said in their
//! comments.
use reed_solomon_erasure as rse;
use reed_solomon_erasure::Error as CodecError;
use reed_solomon_erasure::ReedSolomon;
use vstd::prelude::*;
use vstd::set_lib::{lemma_int_range, set_int_range};

use crate::broadcast::Error;
use crate::tree::views;

verus! {

/// A Reed-Solomon encoder and decoder.
#[verifier::external_type_specification]
#[verifier::external_body]
pub struct ExReedSolomon(reed_solomon_erasure::ReedSolomon);

/// The errors of a Reed-Solomon encoder and decoder.
#[verifier::external_type_specification]
pub struct ExCodecError(CodecError);

/// The number of data shards that the codec was made for.
pub uninterp spec fn codec_data_shards(codec: ReedSolomon) -> nat;

/// The number of parity shards that the codec was made for.
pub uninterp spec fn codec_parity_shards(codec: ReedSolomon) -> nat;

/// The `parity` bytes that the code adds to one byte of each data shard.
pub uninterp spec fn parity_bytes(data: Seq<u8>, parity: nat) -> Seq<u8>;

/// The shards that a codec for `data` and `parity` shards puts in place of `shards`, which lack
/// some.
pub uninterp spec fn restored_shards(
    shards: Seq<Option<Seq<u8>>>,
    data: nat,
    parity: nat,
) -> Seq<Seq<u8>>;

/// The bytes at position `j` of every shard.
pub open spec fn column(shards: Seq<Seq<u8>>, j: int) -> Seq<u8> {
    shards.map_values(|s: Seq<u8>| s[j])
}

/// One byte of every data shard, followed by the bytes that the code adds to them.
pub open spec fn coded_column(data: Seq<u8>, parity: nat) -> Seq<u8> {
    Seq::new(
        data.len() + parity,
        |i: int|
            if i < data.len() {
                data[i]
            } else {
                parity_bytes(data, parity)[i - data.len()]
            },
    )
}

/// The shards with everything from the `data`-th on replaced by `parity` parity shards.
pub open spec fn coded(shards: Seq<Seq<u8>>, data: nat, parity: nat) -> Seq<Seq<u8>> {
    Seq::new(
        data + parity,
        |i: int|
            Seq::new(
                shards[0].len(),
                |j: int| coded_column(column(shards.take(data as int), j), parity)[i],
            ),
    )
}

/// The byte strings held by a sequence of vectors, some of which are missing.
pub open spec fn optional_views(vectors: Seq<Option<Vec<u8>>>) -> Seq<Option<Seq<u8>>> {
    vectors.map_values(
        |v: Option<Vec<u8>>|
            match v {
                Some(v) => Some(v@),
                None => None,
            },
    )
}

/// The places of the shards that are there.
pub open spec fn places(shards: Seq<Option<Seq<u8>>>) -> Set<int> {
    set_int_range(0, shards.len() as int).filter(|i: int| shards[i] is Some)
}

/// The number of shards that are there.
pub open spec fn present(shards: Seq<Option<Seq<u8>>>) -> nat {
    places(shards).len()
}

/// The length of the first shard that is there.
pub open spec fn first_size(shards: Seq<Option<Seq<u8>>>) -> Option<nat>
    decreases shards.len(),
{
    if shards.len() == 0 {
        None
    } else {
        match shards[0] {
            Some(s) => Some(s.len()),
            None => first_size(shards.drop_first()),
        }
    }
}

/// Why a codec for `total` shards does not encode these; `None` where it does.
pub open spec fn encode_error(shards: Seq<Seq<u8>>, total: nat) -> Option<CodecError> {
    if shards.len() < total {
        Some(CodecError::TooFewShards)
    } else if shards.len() > total {
        Some(CodecError::TooManyShards)
    } else if shards[0].len() == 0 {
        Some(CodecError::EmptyShard)
    } else if exists|i: int| 0 <= i < shards.len() && #[trigger] shards[i].len() != shards[0].len() {
        Some(CodecError::IncorrectShardSize)
    } else {
        None
    }
}

/// Why a codec for `data` and `parity` shards does not restore these; `None` where it does.
pub open spec fn restore_error(
    shards: Seq<Option<Seq<u8>>>,
    data: nat,
    parity: nat,
) -> Option<CodecError> {
    if shards.len() < data + parity {
        Some(CodecError::TooFewShards)
    } else if shards.len() > data + parity {
        Some(CodecError::TooManyShards)
    } else if present(shards) == 0 {
        Some(CodecError::TooFewShardsPresent)
    } else if first_size(shards) == Some(0nat) {
        Some(CodecError::EmptyShard)
    } else if exists|i: int|
        0 <= i < shards.len() && (#[trigger] shards[i]) is Some && Some(shards[i]->0.len())
            != first_size(shards) {
        Some(CodecError::IncorrectShardSize)
    } else if present(shards) < data {
        Some(CodecError::TooFewShardsPresent)
    } else {
        None
    }
}

/// Every shard that is there has the byte `bytes[i]` at position `j`, where `i` is its place.
pub open spec fn agrees(shards: Seq<Option<Seq<u8>>>, j: int, bytes: Seq<u8>) -> bool {
    forall|i: int|
        0 <= i < shards.len() && (#[trigger] shards[i]) is Some ==> shards[i]->0[j] == bytes[i]
}

/// Why shards cannot be encoded; `None` where they can. Without parity shards there is nothing to
/// do.
pub open spec fn encode_failure(shards: Seq<Seq<u8>>, data: nat, parity: nat) -> Option<CodecError> {
    if parity > 0 {
        encode_error(shards, data + parity)
    } else {
        None
    }
}

/// The shards as encoding leaves them where it succeeds.
pub open spec fn encoded(shards: Seq<Seq<u8>>, data: nat, parity: nat) -> Seq<Seq<u8>> {
    if parity > 0 {
        coded(shards, data, parity)
    } else {
        shards
    }
}

/// Why missing shards cannot be restored; `None` where they can. Without parity shards, none may be
/// missing.
pub open spec fn restore_failure(
    shards: Seq<Option<Seq<u8>>>,
    data: nat,
    parity: nat,
) -> Option<CodecError> {
    if parity > 0 {
        restore_error(shards, data, parity)
    } else if exists|i: int| 0 <= i < shards.len() && (#[trigger] shards[i]) is None {
        Some(CodecError::TooFewShardsPresent)
    } else {
        None
    }
}

/// The shards as restoring leaves them where it succeeds.
pub open spec fn restored(shards: Seq<Option<Seq<u8>>>, data: nat, parity: nat) -> Seq<Seq<u8>> {
    if parity > 0 {
        restored_shards(shards, data, parity)
    } else {
        shards.map_values(|s: Option<Seq<u8>>| s->0)
    }
}

/// The shards form one coded whole: they have one length, and at each position their bytes are a
/// coded column.
pub open spec fn is_whole(shards: Seq<Seq<u8>>, data: nat, parity: nat) -> bool {
    parity > 0 ==> {
        &&& shards.len() == data + parity
        &&& forall|i: int| 0 <= i < shards.len() ==> #[trigger] shards[i].len() == shards[0].len()
        &&& forall|j: int|
            0 <= j < shards[0].len() ==> #[trigger] column(shards, j) == coded_column(
                column(shards, j).take(data as int),
                parity,
            )
    }
}

/// The shards that are there are those of `whole`, each in its place.
pub open spec fn pieces_of(shards: Seq<Option<Seq<u8>>>, whole: Seq<Seq<u8>>) -> bool {
    &&& shards.len() == whole.len()
    &&& forall|i: int|
        0 <= i < shards.len() && (#[trigger] shards[i]) is Some ==> shards[i]->0 == whole[i]
}

/// Calls `ReedSolomon::new`. Trusted: it makes a codec for the given numbers of shards, unless one
/// of them is zero or they exceed 256 together.
#[verifier::external_body]
fn new_codec(data: usize, parity: usize) -> (r: Result<ReedSolomon, CodecError>)
    requires
        data + parity <= usize::MAX,
    ensures
        r matches Ok(codec) ==> codec_data_shards(codec) == data && codec_parity_shards(codec)
            == parity,
        match r {
            Ok(_) => data > 0 && parity > 0 && data + parity <= 256,
            Err(CodecError::TooFewDataShards) => data == 0,
            Err(CodecError::TooFewParityShards) => data > 0 && parity == 0,
            Err(CodecError::TooManyShards) => data > 0 && parity > 0 && data + parity > 256,
            Err(_) => false,
        },
{
    ReedSolomon::new(data, parity)
}

/// Calls `ReedSolomon::data_shard_count`. Trusted: it returns the number that the codec was made
/// with.
#[verifier::external_body]
fn codec_data_shard_count(codec: &ReedSolomon) -> (r: usize)
    ensures
        r == codec_data_shards(*codec),
{
    codec.data_shard_count()
}

/// Calls `ReedSolomon::parity_shard_count`. Trusted: it returns the number that the codec was made
/// with.
#[verifier::external_body]
fn codec_parity_shard_count(codec: &ReedSolomon) -> (r: usize)
    ensures
        r == codec_parity_shards(*codec),
{
    codec.parity_shard_count()
}

/// Calls `ReedSolomon::encode`. Trusted: it rejects a wrong number of shards, an empty first shard
/// and shards of unequal lengths, and then touches nothing. Otherwise it leaves the data shards
/// alone and overwrites each parity shard, byte by byte, with bytes that depend on the numbers of
/// shards and on the bytes at the same place of the data shards alone.
#[verifier::external_body]
fn codec_encode(codec: &ReedSolomon, shards: &mut Vec<Vec<u8>>) -> (r: Result<(), CodecError>)
    ensures
        r == match encode_error(
            views(old(shards)@),
            codec_data_shards(*codec) + codec_parity_shards(*codec),
        ) {
            Some(e) => Err::<(), CodecError>(e),
            None => Ok(()),
        },
        r is Err ==> views(final(shards)@) == views(old(shards)@),
        r is Ok ==> final(shards).len() == old(shards).len(),
        r is Ok ==> forall|i: int|
            #![trigger final(shards)@[i]]
            0 <= i < final(shards).len() ==> final(shards)@[i].len() == old(shards)@[0].len(),
        r is Ok ==> forall|i: int, j: int|
            #![trigger final(shards)@[i]@[j]]
            0 <= i < final(shards).len() && 0 <= j < old(shards)@[0].len() ==> final(shards)@[i]@[j]
                == if i < codec_data_shards(*codec) {
                old(shards)@[i]@[j]
            } else {
                parity_bytes(
                    column(views(old(shards)@).take(codec_data_shards(*codec) as int), j),
                    codec_parity_shards(*codec),
                )[i - codec_data_shards(*codec)]
            },
{
    let mut slices: Vec<&mut [u8]> = shards.iter_mut().map(|s| s.as_mut_slice()).collect();
    codec.encode(&mut slices)
}

/// Calls `ReedSolomon::reconstruct_shards`. Trusted: it rejects a wrong number of shards, an empty
/// first shard, shards of unequal lengths and fewer shards than there are data shards, and then
/// touches nothing. Otherwise it keeps the shards that are there and fills in the others with
/// shards of the same length, as a function of the shards and their numbers. At any position where
/// all the shards that are there agree with one coded column, the filled-in shards do so too.
#[verifier::external_body]
fn codec_reconstruct_shards(codec: &ReedSolomon, shards: &mut Vec<Option<Vec<u8>>>) -> (r: Result<
    (),
    CodecError,
>)
    ensures
        r == match restore_error(
            optional_views(old(shards)@),
            codec_data_shards(*codec),
            codec_parity_shards(*codec),
        ) {
            Some(e) => Err::<(), CodecError>(e),
            None => Ok(()),
        },
        r is Err ==> optional_views(final(shards)@) == optional_views(old(shards)@),
        r is Ok ==> optional_views(final(shards)@) == restored_shards(
            optional_views(old(shards)@),
            codec_data_shards(*codec),
            codec_parity_shards(*codec),
        ).map_values(|s: Seq<u8>| Some(s)),
        r is Ok ==> final(shards).len() == old(shards).len(),
        r is Ok ==> forall|i: int|
            #![trigger final(shards)@[i]]
            0 <= i < final(shards).len() && old(shards)@[i] is Some ==> final(shards)@[i]->0@
                == old(shards)@[i]->0@,
        r is Ok ==> forall|i: int|
            #![trigger final(shards)@[i]]
            0 <= i < final(shards).len() ==> Some(final(shards)@[i]->0@.len()) == first_size(
                optional_views(old(shards)@),
            ),
        r is Ok ==> forall|j: int, data: Seq<u8>|
            0 <= j < first_size(optional_views(old(shards)@))->0 && data.len()
                == codec_data_shards(*codec) && #[trigger] agrees(
                optional_views(old(shards)@),
                j,
                coded_column(data, codec_parity_shards(*codec)),
            ) ==> agrees(
                optional_views(final(shards)@),
                j,
                coded_column(data, codec_parity_shards(*codec)),
            ),
{
    let mut boxed: Vec<Option<rse::Shard>> =
        shards.drain(..).map(|s| s.map(Vec::into_boxed_slice)).collect();
    let result = codec.reconstruct_shards(&mut boxed);
    shards.extend(boxed.into_iter().map(|s| s.map(|b| b.into_vec())));
    result
}

/// A wrapper for `ReedSolomon` that doesn't panic if there are no parity shards.
pub enum Coding {
    /// A `ReedSolomon` instance with at least one parity shard.
    ReedSolomon(Box<ReedSolomon>),
    /// A no-op replacement that doesn't encode or decode anything.
    Trivial(usize),
}

impl Coding {
    /// The number of data shards.
    pub open spec fn data_shards(self) -> nat {
        match self {
            Coding::ReedSolomon(codec) => codec_data_shards(*codec),
            Coding::Trivial(count) => count as nat,
        }
    }

    /// The number of parity shards.
    pub open spec fn parity_shards(self) -> nat {
        match self {
            Coding::ReedSolomon(codec) => codec_parity_shards(*codec),
            Coding::Trivial(_) => 0,
        }
    }

    /// A real code has data shards and parity shards, no more than a byte can tell apart.
    pub open spec fn wf(self) -> bool {
        &&& self is ReedSolomon <==> self.parity_shards() > 0
        &&& self is ReedSolomon ==> {
            &&& self.data_shards() > 0
            &&& self.data_shards() + self.parity_shards() <= 256
        }
    }

    /// Creates a new `Coding` instance with the given number of shards.
    pub fn new(data_shard_num: usize, parity_shard_num: usize) -> (r: Result<Coding, Error>)
        requires
            data_shard_num + parity_shard_num <= usize::MAX,
        ensures
            match r {
                Ok(coding) => {
                    &&& parity_shard_num > 0 ==> data_shard_num > 0 && data_shard_num
                        + parity_shard_num <= 256
                    &&& coding is ReedSolomon <==> parity_shard_num > 0
                    &&& coding.data_shards() == data_shard_num
                    &&& coding.parity_shards() == parity_shard_num
                    &&& coding.wf()
                },
                Err(e) => parity_shard_num > 0 && if data_shard_num == 0 {
                    e == Error::ReedSolomon(CodecError::TooFewDataShards)
                } else {
                    data_shard_num + parity_shard_num > 256 && e == Error::ReedSolomon(
                        CodecError::TooManyShards,
                    )
                },
            },
    {
        if parity_shard_num > 0 {
            match new_codec(data_shard_num, parity_shard_num) {
                Ok(codec) => Ok(Coding::ReedSolomon(Box::new(codec))),
                Err(e) => Err(Error::from(e)),
            }
        } else {
            Ok(Coding::Trivial(data_shard_num))
        }
    }

    /// Returns the number of data shards.
    pub fn data_shard_count(&self) -> (r: usize)
        ensures
            r == self.data_shards(),
    {
        match self {
            Coding::ReedSolomon(codec) => codec_data_shard_count(codec),
            Coding::Trivial(count) => *count,
        }
    }

    /// Returns the number of parity shards.
    pub fn parity_shard_count(&self) -> (r: usize)
        ensures
            r == self.parity_shards(),
    {
        match self {
            Coding::ReedSolomon(codec) => codec_parity_shard_count(codec),
            Coding::Trivial(_) => 0,
        }
    }

    /// Constructs (and overwrites) the parity shards.
    pub fn encode(&self, shards: &mut Vec<Vec<u8>>) -> (r: Result<(), Error>)
        requires
            self.wf(),
        ensures
            ({
                let (data, parity) = (self.data_shards(), self.parity_shards());
                let before = views(old(shards)@);
                let after = views(final(shards)@);
                match r {
                    Ok(_) => {
                        &&& encode_failure(before, data, parity) is None
                        &&& after == encoded(before, data, parity)
                    },
                    Err(e) => {
                        &&& encode_failure(before, data, parity) is Some
                        &&& e == Error::ReedSolomon(encode_failure(before, data, parity)->0)
                        &&& after == before
                    },
                }
            }),
    {
        match self {
            Coding::ReedSolomon(codec) => {
                let r = codec_encode(codec, shards);
                match r {
                    Ok(_) => {
                        proof {
                            let (data, parity) = (self.data_shards(), self.parity_shards());
                            let before = views(old(shards)@);
                            let after = views(shards@);
                            let goal = encoded(before, data, parity);
                            assert(after.len() == before.len());
                            assert forall|i: int| 0 <= i < after.len() implies after[i]
                                =~= goal[i] by {
                                assert(after[i] == shards@[i]@);
                                assert(before[0] == old(shards)@[0]@);
                                assert forall|j: int| 0 <= j < after[i].len() implies after[i][j]
                                    == goal[i][j] by {
                                    if i < data {
                                        assert(column(before.take(data as int), j)[i] == old(
                                            shards,
                                        )@[i]@[j]);
                                    }
                                }
                            }
                            assert(after =~= goal);
                        }
                        Ok(())
                    },
                    Err(e) => Err(Error::from(e)),
                }
            },
            Coding::Trivial(_) => Ok(()),
        }
    }

    /// If enough shards are present, reconstructs the missing ones.
    pub fn reconstruct_shards(&self, shards: &mut Vec<Option<Vec<u8>>>) -> (r: Result<(), Error>)
        requires
            self.wf(),
        ensures
            ({
                let (data, parity) = (self.data_shards(), self.parity_shards());
                let before = optional_views(old(shards)@);
                let after = optional_views(final(shards)@);
                match r {
                    Ok(_) => {
                        &&& restore_failure(before, data, parity) is None
                        &&& after.len() == before.len()
                        &&& after == restored(before, data, parity).map_values(
                            |s: Seq<u8>| Some(s),
                        )
                        &&& forall|whole: Seq<Seq<u8>>| #[trigger]
                            is_whole(whole, self.data_shards(), self.parity_shards())
                                && pieces_of(before, whole) ==> restored(before, data, parity)
                                == whole
                    },
                    Err(e) => {
                        &&& restore_failure(before, data, parity) is Some
                        &&& e == Error::ReedSolomon(restore_failure(before, data, parity)->0)
                        &&& after == before
                    },
                }
            }),
    {
        let ghost before = optional_views(shards@);
        match self {
            Coding::ReedSolomon(codec) => {
                let r = codec_reconstruct_shards(codec, shards);
                match r {
                    Ok(_) => {
                        proof {
                            let (data, parity) = (self.data_shards(), self.parity_shards());
                            let after = optional_views(shards@);
                            let restored = restored(before, data, parity);
                            lemma_some_place(before);
                            assert(after == restored.map_values(|s: Seq<u8>| Some(s)));
                            assert forall|i: int| 0 <= i < restored.len() implies
                                #[trigger] restored[i].len() == first_size(before)->0 by {
                                assert(after[i] == Some(restored[i]));
                                assert(after[i] == Some(shards@[i]->0@));
                            }
                            assert forall|whole: Seq<Seq<u8>>| #[trigger]
                                is_whole(whole, data, parity) && pieces_of(
                                    before,
                                    whole,
                                ) implies restored == whole by {
                                self.lemma_restored_whole(
                                    before,
                                    restored,
                                    first_size(before)->0,
                                    whole,
                                );
                            }
                        }
                        Ok(())
                    },
                    Err(e) => Err(Error::from(e)),
                }
            },
            Coding::Trivial(_) => {
                let mut i: usize = 0;
                while i < shards.len()
                    invariant
                        self is Trivial,
                        before == optional_views(old(shards)@),
                        optional_views(shards@) == before,
                        forall|n: int| 0 <= n < i ==> (#[trigger] before[n]) is Some,
                    decreases shards.len() - i,
                {
                    assert(before[i as int] is Some <==> shards@[i as int] is Some);
                    if shards[i].is_none() {
                        return Err(Error::from(CodecError::TooFewShardsPresent));
                    }
                    i += 1;
                }
                proof {
                    let (data, parity) = (self.data_shards(), self.parity_shards());
                    let restored = restored(before, data, parity);
                    assert(before =~= restored.map_values(|s: Seq<u8>| Some(s)));
                    assert forall|whole: Seq<Seq<u8>>| #[trigger]
                        is_whole(whole, data, parity) && pieces_of(before, whole) implies restored
                        == whole by {
                        assert(restored =~= whole);
                    }
                }
                Ok(())
            },
        }
    }

    /// Shards that agree with a coded whole at each position, as far as coded columns are
    /// completed, are that whole.
    proof fn lemma_restored_whole(
        self,
        before: Seq<Option<Seq<u8>>>,
        restored: Seq<Seq<u8>>,
        size: nat,
        whole: Seq<Seq<u8>>,
    )
        requires
            self is ReedSolomon,
            self.wf(),
            restored.len() == before.len(),
            before.len() == self.data_shards() + self.parity_shards(),
            forall|i: int| 0 <= i < restored.len() ==> #[trigger] restored[i].len() == size,
            exists|i: int| 0 <= i < before.len() && (#[trigger] before[i]) is Some,
            forall|i: int|
                0 <= i < before.len() && (#[trigger] before[i]) is Some ==> before[i]->0.len()
                    == size,
            forall|j: int, data: Seq<u8>|
                0 <= j < size && data.len() == self.data_shards() && #[trigger] agrees(
                    before,
                    j,
                    coded_column(data, self.parity_shards()),
                ) ==> agrees(
                    restored.map_values(|s: Seq<u8>| Some(s)),
                    j,
                    coded_column(data, self.parity_shards()),
                ),
            is_whole(whole, self.data_shards(), self.parity_shards()),
            pieces_of(before, whole),
        ensures
            restored == whole,
    {
        let after = restored.map_values(|s: Seq<u8>| Some(s));
        let n = choose|i: int| 0 <= i < before.len() && (#[trigger] before[i]) is Some;
        assert(whole[n].len() == size);
        assert(whole[0].len() == size);
        assert forall|i: int| 0 <= i < whole.len() implies restored[i] == whole[i] by {
            assert forall|j: int| 0 <= j < size implies restored[i][j] == whole[i][j] by {
                let bytes = column(whole, j);
                let data = bytes.take(self.data_shards() as int);
                assert forall|p: int| 0 <= p < before.len() && (#[trigger] before[p]) is Some implies
                    before[p]->0[j] == bytes[p] by {
                    assert(before[p]->0 == whole[p]);
                }
                assert(agrees(before, j, bytes));
                assert(agrees(before, j, coded_column(data, self.parity_shards())));
                assert(agrees(after, j, bytes));
                assert(after[i] is Some);
                assert(after[i]->0[j] == bytes[i]);
            }
            assert(restored[i] =~= whole[i]);
        }
        assert(restored =~= whole);
    }
}

/// Where any shards are there, one of them is in some place.
pub proof fn lemma_some_place(shards: Seq<Option<Seq<u8>>>)
    ensures
        places(shards).finite(),
        present(shards) <= shards.len(),
        present(shards) > 0 <==> exists|i: int|
            0 <= i < shards.len() && (#[trigger] shards[i]) is Some,
{
    lemma_int_range(0, shards.len() as int);
    set_int_range(0, shards.len() as int).lemma_len_filter(|i: int| shards[i] is Some);
    if present(shards) > 0 {
        let i = places(shards).choose();
        assert(places(shards).contains(i));
        assert(shards[i] is Some);
    }
    if exists|i: int| 0 <= i < shards.len() && (#[trigger] shards[i]) is Some {
        let i = choose|i: int| 0 <= i < shards.len() && (#[trigger] shards[i]) is Some;
        assert(places(shards).contains(i));
    }
}

/// Where any shards are there, the first of them has a size.
pub proof fn lemma_first_size(shards: Seq<Option<Seq<u8>>>)
    ensures
        match first_size(shards) {
            Some(size) => exists|i: int|
                0 <= i < shards.len() && (#[trigger] shards[i]) is Some && shards[i]->0.len()
                    == size,
            None => forall|i: int| 0 <= i < shards.len() ==> (#[trigger] shards[i]) is None,
        },
    decreases shards.len(),
{
    if shards.len() > 0 {
        lemma_first_size(shards.drop_first());
        match first_size(shards) {
            Some(size) => {
                if shards[0] is None {
                    let i = choose|i: int|
                        0 <= i < shards.drop_first().len() && (
                        #[trigger] shards.drop_first()[i]) is Some
                            && shards.drop_first()[i]->0.len() == size;
                    assert(shards[i + 1] is Some);
                }
            },
            None => {
                assert forall|i: int| 0 <= i < shards.len() implies (#[trigger] shards[i]) is None by {
                    if i > 0 {
                        assert(shards.drop_first()[i - 1] is None);
                    }
                }
            },
        }
    }
}

} // verus!
