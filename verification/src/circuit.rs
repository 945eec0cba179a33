//! Public inputs of the trust proof and their fixed-width byte layout:
//! participants, scores, domain and opinion hash, each a 32-byte scalar,
//! concatenated in that order.

use vstd::prelude::*;

use crate::scalar::{fr_modulus, le_bytes_value, Scalar};
use crate::EigenError;

verus! {

/// Scalar length in bytes.
pub const SCALAR_LEN: usize = 32;

/// Score struct.
pub struct Score {
    /// Participant address.
    pub address: [u8; 20],
    /// Scalar score.
    pub score_fr: [u8; 32],
    /// Rational score (numerator, denominator).
    pub score_rat: ([u8; 32], [u8; 32]),
    /// Hexadecimal score.
    pub score_hex: [u8; 32],
}

/// Trust circuit public input parameters.
pub struct ETPublicInputs {
    /// Participants' set.
    pub participants: Vec<Scalar>,
    /// Participants' scores.
    pub scores: Vec<Scalar>,
    /// Domain.
    pub domain: Scalar,
    /// Opinions' hash.
    pub opinion_hash: Scalar,
}

/// Scores report struct.
pub struct ScoresReport {
    /// Participants' scores.
    pub scores: Vec<Score>,
    /// Verifier public inputs.
    pub pub_inputs: ETPublicInputs,
    /// Proof.
    pub proof: Vec<u8>,
}

/// The concatenation of a sequence of byte strings.
pub open spec fn concat_bytes(s: Seq<Seq<u8>>) -> Seq<u8>
    decreases s.len(),
{
    if s.len() == 0 {
        Seq::<u8>::empty()
    } else {
        s[0] + concat_bytes(s.skip(1))
    }
}

pub proof fn lemma_concat_bytes_push(s: Seq<Seq<u8>>, x: Seq<u8>)
    ensures
        concat_bytes(s.push(x)) == concat_bytes(s) + x,
    decreases s.len(),
{
    if s.len() == 0 {
        assert(s.push(x).skip(1) =~= Seq::<Seq<u8>>::empty());
        assert(s.push(x)[0] == x);
        assert(concat_bytes(Seq::<Seq<u8>>::empty()) =~= Seq::<u8>::empty());
        assert(concat_bytes(s.push(x)) =~= x + Seq::<u8>::empty());
        assert(x + Seq::<u8>::empty() =~= x);
        assert(concat_bytes(s) + x =~= x);
    } else {
        lemma_concat_bytes_push(s.skip(1), x);
        assert(s.push(x).skip(1) =~= s.skip(1).push(x));
        assert(s.push(x)[0] == s[0]);
        assert(s[0] + (concat_bytes(s.skip(1)) + x) =~= (s[0] + concat_bytes(s.skip(1))) + x);
    }
}

/// The concatenation of byte strings of 32 bytes each is 32 bytes per string.
pub proof fn lemma_concat_bytes_len(s: Seq<Seq<u8>>)
    requires
        forall|i: int| 0 <= i < s.len() ==> s[i].len() == 32,
    ensures
        concat_bytes(s).len() == 32 * s.len(),
    decreases s.len(),
{
    if s.len() > 0 {
        lemma_concat_bytes_len(s.skip(1));
    }
}

/// The 32-byte chunk at a given chunk index of a byte string.
pub open spec fn chunk_at(b: Seq<u8>, i: int) -> Seq<u8> {
    b.subrange(32 * i, 32 * i + 32)
}

/// Chunks of a concatenation of 32-byte strings are the strings themselves.
pub proof fn lemma_concat_bytes_chunk(s: Seq<Seq<u8>>, i: int)
    requires
        forall|j: int| 0 <= j < s.len() ==> s[j].len() == 32,
        0 <= i < s.len(),
    ensures
        chunk_at(concat_bytes(s), i) == s[i],
    decreases i,
{
    lemma_concat_bytes_len(s);
    if i == 0 {
        lemma_concat_bytes_len(s.skip(1));
        assert(chunk_at(concat_bytes(s), 0) =~= s[0]);
    } else {
        lemma_concat_bytes_chunk(s.skip(1), i - 1);
        lemma_concat_bytes_len(s.skip(1));
        assert(chunk_at(concat_bytes(s), i) =~= chunk_at(concat_bytes(s.skip(1)), i - 1));
    }
}

impl ETPublicInputs {
    /// The views of a sequence of scalars: their byte encodings.
    pub open spec fn views_of(s: Seq<Scalar>) -> Seq<Seq<u8>> {
        s.map_values(|x: Scalar| x@)
    }

    /// The byte layout: participants, then scores, then domain, then the
    /// opinion hash, each as its 32-byte little-endian encoding.
    pub open spec fn serialized(&self) -> Seq<u8> {
        concat_bytes(Self::views_of(self.participants@)) + concat_bytes(
            Self::views_of(self.scores@),
        ) + self.domain@ + self.opinion_hash@
    }

    /// Every scalar is canonical and scores pair up with participants.
    pub open spec fn wf(&self) -> bool {
        &&& forall|i: int| 0 <= i < self.participants@.len() ==> self.participants@[i].wf()
        &&& forall|i: int| 0 <= i < self.scores@.len() ==> self.scores@[i].wf()
        &&& self.scores@.len() == self.participants@.len()
        &&& self.domain.wf()
        &&& self.opinion_hash.wf()
    }

    /// Creates a new ETPublicInputs instance.
    pub fn new(participants: Vec<Scalar>, scores: Vec<Scalar>, domain: Scalar, opinion_hash: Scalar)
        -> (r: Self)
        ensures
            r.participants == participants,
            r.scores == scores,
            r.domain == domain,
            r.opinion_hash == opinion_hash,
    {
        Self { participants, scores, domain, opinion_hash }
    }

    /// Returns the struct as a concatenated Vec<Scalar>.
    pub fn to_vec(&self) -> (r: Vec<Scalar>)
        ensures
            r@ == self.participants@ + self.scores@ + seq![self.domain] + seq![self.opinion_hash],
    {
        let mut result: Vec<Scalar> = Vec::new();
        let mut i: usize = 0;
        while i < self.participants.len()
            invariant
                i <= self.participants@.len(),
                result@ == self.participants@.take(i as int),
            decreases self.participants@.len() - i,
        {
            result.push(self.participants[i]);
            proof {
                assert(self.participants@.take(i + 1) =~= self.participants@.take(i as int).push(
                    self.participants@[i as int],
                ));
            }
            i = i + 1;
        }
        proof {
            assert(self.participants@.take(self.participants@.len() as int)
                =~= self.participants@);
        }
        let mut j: usize = 0;
        while j < self.scores.len()
            invariant
                j <= self.scores@.len(),
                result@ == self.participants@ + self.scores@.take(j as int),
            decreases self.scores@.len() - j,
        {
            result.push(self.scores[j]);
            proof {
                assert(self.scores@.take(j + 1) =~= self.scores@.take(j as int).push(
                    self.scores@[j as int],
                ));
                assert(self.participants@ + self.scores@.take(j + 1) =~= (self.participants@
                    + self.scores@.take(j as int)).push(self.scores@[j as int]));
            }
            j = j + 1;
        }
        proof {
            assert(self.scores@.take(self.scores@.len() as int) =~= self.scores@);
        }
        result.push(self.domain);
        result.push(self.opinion_hash);
        proof {
            assert(result@ =~= self.participants@ + self.scores@ + seq![self.domain] + seq![
                self.opinion_hash,
            ]);
        }
        result
    }

    /// Returns the struct as a concatenated Vec<u8>.
    pub fn to_bytes(&self) -> (r: Vec<u8>)
        ensures
            r@ == self.serialized(),
    {
        let ghost pviews = Self::views_of(self.participants@);
        let ghost sviews = Self::views_of(self.scores@);
        let mut result: Vec<u8> = Vec::new();
        let mut i: usize = 0;
        proof {
            assert(pviews.take(0) =~= Seq::<Seq<u8>>::empty());
            assert(result@ =~= concat_bytes(pviews.take(0)));
        }
        while i < self.participants.len()
            invariant
                i <= self.participants@.len(),
                pviews == Self::views_of(self.participants@),
                result@ == concat_bytes(pviews.take(i as int)),
            decreases self.participants@.len() - i,
        {
            let bytes = self.participants[i].to_bytes();
            result.extend_from_slice(&bytes);
            proof {
                assert(pviews.take(i + 1) =~= pviews.take(i as int).push(pviews[i as int]));
                lemma_concat_bytes_push(pviews.take(i as int), pviews[i as int]);
                assert(result@ =~= concat_bytes(pviews.take(i as int)) + pviews[i as int]);
            }
            i = i + 1;
        }
        proof {
            assert(pviews.take(pviews.len() as int) =~= pviews);
        }
        let mut j: usize = 0;
        proof {
            assert(sviews.take(0) =~= Seq::<Seq<u8>>::empty());
            assert(result@ =~= concat_bytes(pviews) + concat_bytes(sviews.take(0)));
        }
        while j < self.scores.len()
            invariant
                j <= self.scores@.len(),
                pviews == Self::views_of(self.participants@),
                sviews == Self::views_of(self.scores@),
                result@ == concat_bytes(pviews) + concat_bytes(sviews.take(j as int)),
            decreases self.scores@.len() - j,
        {
            let bytes = self.scores[j].to_bytes();
            result.extend_from_slice(&bytes);
            proof {
                assert(sviews.take(j + 1) =~= sviews.take(j as int).push(sviews[j as int]));
                lemma_concat_bytes_push(sviews.take(j as int), sviews[j as int]);
                assert(result@ =~= concat_bytes(pviews) + (concat_bytes(sviews.take(j as int))
                    + sviews[j as int]));
                assert(concat_bytes(pviews) + (concat_bytes(sviews.take(j as int)) + sviews[j
                    as int]) =~= concat_bytes(pviews) + concat_bytes(sviews.take(j as int))
                    + sviews[j as int]);
            }
            j = j + 1;
        }
        proof {
            assert(sviews.take(sviews.len() as int) =~= sviews);
        }
        let domain_bytes = self.domain.to_bytes();
        result.extend_from_slice(&domain_bytes);
        let hash_bytes = self.opinion_hash.to_bytes();
        result.extend_from_slice(&hash_bytes);
        proof {
            assert(result@ =~= self.serialized());
        }
        result
    }

    /// All 32-byte chunks of a buffer holding this many participants are
    /// canonical field encodings.
    pub open spec fn chunks_canonical(b: Seq<u8>, participants: int) -> bool {
        forall|i: int|
            0 <= i < 2 * participants + 2 ==> le_bytes_value(#[trigger] chunk_at(b, i))
                < fr_modulus()
    }

    /// Creates a new ETPublicInputs instance from a Vec<u8>.
    ///
    /// The buffer must hold exactly `(2 * participants + 2) * 32` bytes —
    /// participants, scores, domain and opinion hash in that order — and
    /// every 32-byte chunk must be a canonical field encoding; any other
    /// buffer is rejected with a parsing error.
    pub fn from_bytes(bytes: Vec<u8>, participants: usize) -> (r: Result<Self, EigenError>)
        ensures
            r is Ok <==> bytes@.len() == (2 * participants + 2) * 32 && Self::chunks_canonical(
                bytes@,
                participants as int,
            ),
            r matches Ok(x) ==> {
                &&& x.wf()
                &&& x.participants@.len() == participants
                &&& x.scores@.len() == participants
                &&& forall|i: int|
                    0 <= i < participants ==> x.participants@[i]@ == chunk_at(bytes@, i)
                &&& forall|i: int|
                    0 <= i < participants ==> x.scores@[i]@ == chunk_at(bytes@, participants + i)
                &&& x.domain@ == chunk_at(bytes@, 2 * participants)
                &&& x.opinion_hash@ == chunk_at(bytes@, 2 * participants + 1)
            },
            r matches Err(e) ==> e is ParsingError,
    {
        let blen: usize = bytes.len();
        let len128: u128 = blen as u128;
        let expected: u128 = (2 * (participants as u128) + 2) * 32;
        if len128 != expected {
            return Err(EigenError::ParsingError("Invalid bytes length.".to_owned()));
        }
        proof {
            assert(bytes@.len() == (2 * participants + 2) * 32);
            assert(2 * (participants as int) + 2 <= usize::MAX);
        }
        let mut participants_vec: Vec<Scalar> = Vec::new();
        let mut i: usize = 0;
        while i < participants
            invariant
                i <= participants,
                bytes@.len() == (2 * participants + 2) * 32,
                participants_vec@.len() == i,
                forall|k: int|
                    0 <= k < i ==> (#[trigger] participants_vec@[k])@ == chunk_at(bytes@, k)
                        && participants_vec@[k].wf(),
            decreases participants - i,
        {
            let s = match Self::get_scalar_at(&bytes, i) {
                Ok(s) => s,
                Err(e) => {
                    proof {
                        assert(!(le_bytes_value(chunk_at(bytes@, i as int)) < fr_modulus()));
                    }
                    return Err(e);
                },
            };
            participants_vec.push(s);
            i = i + 1;
        }
        let mut scores_vec: Vec<Scalar> = Vec::new();
        let mut j: usize = 0;
        while j < participants
            invariant
                j <= participants,
                bytes@.len() == (2 * participants + 2) * 32,
                2 * (participants as int) + 2 <= usize::MAX,
                scores_vec@.len() == j,
                forall|k: int|
                    0 <= k < j ==> (#[trigger] scores_vec@[k])@ == chunk_at(
                        bytes@,
                        participants + k,
                    ) && scores_vec@[k].wf(),
                participants_vec@.len() == participants,
                forall|k: int|
                    0 <= k < participants ==> (#[trigger] participants_vec@[k])@ == chunk_at(
                        bytes@,
                        k,
                    ) && participants_vec@[k].wf(),
            decreases participants - j,
        {
            let s = match Self::get_scalar_at(&bytes, participants + j) {
                Ok(s) => s,
                Err(e) => {
                    proof {
                        assert(!(le_bytes_value(chunk_at(bytes@, participants + j)) < fr_modulus()));
                    }
                    return Err(e);
                },
            };
            scores_vec.push(s);
            j = j + 1;
        }
        let domain = match Self::get_scalar_at(&bytes, 2 * participants) {
            Ok(s) => s,
            Err(e) => {
                proof {
                    assert(!(le_bytes_value(chunk_at(bytes@, 2 * participants)) < fr_modulus()));
                }
                return Err(e);
            },
        };
        let opinion_hash = match Self::get_scalar_at(&bytes, 2 * participants + 1) {
            Ok(s) => s,
            Err(e) => {
                proof {
                    assert(!(le_bytes_value(chunk_at(bytes@, 2 * participants + 1))
                        < fr_modulus()));
                }
                return Err(e);
            },
        };
        proof {
            assert forall|k: int|
                0 <= k < 2 * participants + 2 implies le_bytes_value(
                #[trigger] chunk_at(bytes@, k),
            ) < fr_modulus() by {
                if k < participants as int {
                    assert(participants_vec@[k]@ == chunk_at(bytes@, k)
                        && participants_vec@[k].wf());
                } else if k < 2 * participants {
                    assert(scores_vec@[k - participants]@ == chunk_at(bytes@, k)
                        && scores_vec@[k - participants].wf());
                }
            }
        }
        Ok(Self::new(participants_vec, scores_vec, domain, opinion_hash))
    }

    /// Gets a Scalar from the byte buffer at a given chunk index.
    fn get_scalar_at(bytes: &Vec<u8>, index: usize) -> (r: Result<Scalar, EigenError>)
        requires
            32 * (index as int) + 32 <= bytes@.len(),
        ensures
            r is Ok <==> le_bytes_value(chunk_at(bytes@, index as int)) < fr_modulus(),
            r matches Ok(s) ==> s@ == chunk_at(bytes@, index as int) && s.wf(),
            r matches Err(e) ==> e is ParsingError,
    {
        let n = bytes.len();
        let start = 32 * index;
        let mut arr = [0u8; 32];
        let mut j: usize = 0;
        while j < 32
            invariant
                j <= 32,
                32 * (index as int) + 32 <= bytes@.len(),
                start == 32 * index,
                forall|k: int| 0 <= k < j ==> arr@[k] == bytes@[32 * (index as int) + k],
            decreases 32 - j,
        {
            arr[j] = bytes[start + j];
            j = j + 1;
        }
        proof {
            assert(arr@ =~= chunk_at(bytes@, index as int));
        }
        match Scalar::from_bytes(&arr) {
            Some(s) => Ok(s),
            None => Err(
                EigenError::ParsingError("Failed to construct scalar from bytes".to_owned()),
            ),
        }
    }
}

/// The serialized form of well-formed public inputs parses back to the same
/// field values: its length is exactly `(2 * P + 2) * 32`, every chunk is
/// canonical, and the chunks are the given scalars' encodings in order.
pub proof fn lemma_roundtrip(x: ETPublicInputs)
    requires
        x.wf(),
    ensures
        x.serialized().len() == (2 * x.participants@.len() + 2) * 32,
        ETPublicInputs::chunks_canonical(x.serialized(), x.participants@.len() as int),
        forall|i: int|
            0 <= i < x.participants@.len() ==> chunk_at(x.serialized(), i)
                == x.participants@[i]@,
        forall|i: int|
            0 <= i < x.participants@.len() ==> chunk_at(
                x.serialized(),
                x.participants@.len() + i,
            ) == x.scores@[i]@,
        chunk_at(x.serialized(), 2 * x.participants@.len() as int) == x.domain@,
        chunk_at(x.serialized(), 2 * x.participants@.len() as int + 1) == x.opinion_hash@,
{
    let p = x.participants@.len() as int;
    let all = ETPublicInputs::views_of(x.participants@) + ETPublicInputs::views_of(x.scores@)
        + seq![x.domain@] + seq![x.opinion_hash@];
    lemma_concat_of_views(x, all);
    lemma_concat_bytes_len(all);
    assert forall|i: int| 0 <= i < 2 * p + 2 implies le_bytes_value(
        #[trigger] chunk_at(x.serialized(), i),
    ) < fr_modulus() by {
        lemma_concat_bytes_chunk(all, i);
    }
    assert forall|i: int| 0 <= i < p implies chunk_at(x.serialized(), i)
        == x.participants@[i]@ by {
        lemma_concat_bytes_chunk(all, i);
    }
    assert forall|i: int| 0 <= i < p implies chunk_at(x.serialized(), p + i) == x.scores@[i]@ by {
        lemma_concat_bytes_chunk(all, p + i);
    }
    lemma_concat_bytes_chunk(all, 2 * p);
    lemma_concat_bytes_chunk(all, 2 * p + 1);
}

/// The serialized byte string is the concatenation of all the scalar
/// encodings taken as one sequence.
proof fn lemma_concat_of_views(x: ETPublicInputs, all: Seq<Seq<u8>>)
    requires
        all == ETPublicInputs::views_of(x.participants@) + ETPublicInputs::views_of(x.scores@)
            + seq![x.domain@] + seq![x.opinion_hash@],
    ensures
        x.serialized() == concat_bytes(all),
{
    let pv = ETPublicInputs::views_of(x.participants@);
    let sv = ETPublicInputs::views_of(x.scores@);
    lemma_concat_bytes_app(pv, sv + seq![x.domain@] + seq![x.opinion_hash@]);
    lemma_concat_bytes_app(sv, seq![x.domain@] + seq![x.opinion_hash@]);
    lemma_concat_bytes_app(seq![x.domain@], seq![x.opinion_hash@]);
    assert(pv + (sv + seq![x.domain@] + seq![x.opinion_hash@]) =~= all);
    assert(sv + (seq![x.domain@] + seq![x.opinion_hash@]) =~= sv + seq![x.domain@] + seq![
        x.opinion_hash@,
    ]);
    lemma_concat_bytes_single(x.domain@);
    lemma_concat_bytes_single(x.opinion_hash@);
    assert(x.serialized() =~= concat_bytes(all));
}

/// A single byte string concatenates to itself.
proof fn lemma_concat_bytes_single(x: Seq<u8>)
    ensures
        concat_bytes(seq![x]) == x,
{
    assert(seq![x].skip(1) =~= Seq::<Seq<u8>>::empty());
    assert(concat_bytes(Seq::<Seq<u8>>::empty()) =~= Seq::<u8>::empty());
    assert(seq![x][0] == x);
    assert(concat_bytes(seq![x]) =~= x + Seq::<u8>::empty());
    assert(x + Seq::<u8>::empty() =~= x);
}

/// Concatenation distributes over appending sequence parts.
proof fn lemma_concat_bytes_app(a: Seq<Seq<u8>>, b: Seq<Seq<u8>>)
    ensures
        concat_bytes(a + b) == concat_bytes(a) + concat_bytes(b),
    decreases a.len(),
{
    if a.len() == 0 {
        assert(a + b =~= b);
        assert(concat_bytes(a) + concat_bytes(b) =~= concat_bytes(b));
    } else {
        lemma_concat_bytes_app(a.skip(1), b);
        assert((a + b).skip(1) =~= a.skip(1) + b);
        assert((a + b)[0] == a[0]);
        assert(a[0] + (concat_bytes(a.skip(1)) + concat_bytes(b)) =~= (a[0] + concat_bytes(
            a.skip(1),
        )) + concat_bytes(b));
    }
}

} // verus!
