//! The Iterative Verifiable Proof message and the verified decisions of
//! its protocol: fixed-point scaling of opinions, the bootstrap override
//! for the first iteration, and the preimages of the commitment hash that
//! binds an opinion to both identities and the epoch. The hash permutation
//! and the proving backend are outside collaborators: callers hand their
//! results back in.

use vstd::prelude::*;

use crate::epoch::Epoch;
use crate::peer::{MAX_NEIGHBOURS, SCALE, TRUST_CAP};
use crate::scalar::Scalar;
use crate::EigenError;

verus! {

/// A proof-accompanied opinion message. The opinion value is a fixed-point
/// integer scaled by `SCALE * SCALE`.
pub struct IVP {
    pub epoch: Epoch,
    pub iter: u32,
    pub op: u128,
    pub proof_bytes: Vec<u8>,
    pub m_hash: [u8; 32],
}

/// The sum of a sequence of scaled opinion values.
pub open spec fn sum_scaled(s: Seq<u64>) -> int
    decreases s.len(),
{
    if s.len() == 0 {
        0
    } else {
        s[0] + sum_scaled(s.skip(1))
    }
}

proof fn lemma_sum_scaled_push(s: Seq<u64>, x: u64)
    ensures
        sum_scaled(s.push(x)) == sum_scaled(s) + x,
    decreases s.len(),
{
    if s.len() == 0 {
        assert(s.push(x).skip(1) =~= Seq::<u64>::empty());
        assert(s.push(x)[0] == x);
        assert(sum_scaled(Seq::<u64>::empty()) == 0);
        assert(sum_scaled(s) == 0);
    } else {
        lemma_sum_scaled_push(s.skip(1), x);
        assert(s.push(x).skip(1) =~= s.skip(1).push(x));
        assert(s.push(x)[0] == s[0]);
    }
}

/// The trust seed an issuer propagates: the sum of the incoming scaled
/// opinions, or the fixed bootstrap score when a bootstrap peer starts its
/// first iteration.
pub open spec fn trust_seed(op_ji: Seq<u64>, k: u32, is_bootstrap: bool, bootstrap_score: u64)
    -> int {
    if is_bootstrap && k == 0 {
        bootstrap_score as int
    } else {
        sum_scaled(op_ji)
    }
}

impl IVP {
    /// Creates a new IVP with an all-zero commitment hash.
    pub fn new(epoch: Epoch, iter: u32, op: u128, proof_bytes: Vec<u8>) -> (r: Self)
        ensures
            r.epoch == epoch,
            r.iter == iter,
            r.op == op,
            r.proof_bytes == proof_bytes,
            forall|i: int| 0 <= i < 32 ==> r.m_hash@[i] == 0u8,
    {
        Self { epoch, iter, op, proof_bytes, m_hash: [0; 32] }
    }

    /// The outgoing scaled opinion: the trust seed weighted by the local
    /// trust toward the target. Incoming opinions and the bootstrap score
    /// are trust values and stay at or below `TRUST_CAP`, as the opinion
    /// cache asks of what it holds; the local weight is a fraction of one.
    #[verifier::loop_isolation(false)]
    pub fn compute_opinion(
        op_ji: &[u64; MAX_NEIGHBOURS],
        c_v: u64,
        k: u32,
        is_bootstrap: bool,
        bootstrap_score: u64,
    ) -> (r: u128)
        requires
            forall|i: int| 0 <= i < MAX_NEIGHBOURS ==> op_ji@[i] <= TRUST_CAP,
            c_v <= SCALE,
            bootstrap_score <= TRUST_CAP,
        ensures
            r == trust_seed(op_ji@, k, is_bootstrap, bootstrap_score) * c_v,
    {
        let mut t_i: u64 = 0;
        let mut i: usize = 0;
        proof {
            assert(op_ji@.take(0) =~= Seq::<u64>::empty());
        }
        while i < MAX_NEIGHBOURS
            invariant
                i <= MAX_NEIGHBOURS,
                t_i == sum_scaled(op_ji@.take(i as int)),
                t_i <= i * (TRUST_CAP as int),
            decreases MAX_NEIGHBOURS - i,
        {
            proof {
                assert(op_ji@.take(i + 1) =~= op_ji@.take(i as int).push(op_ji@[i as int]));
                lemma_sum_scaled_push(op_ji@.take(i as int), op_ji@[i as int]);
            }
            t_i = t_i + op_ji[i];
            i = i + 1;
        }
        proof {
            assert(op_ji@.take(MAX_NEIGHBOURS as int) =~= op_ji@);
        }
        let t_i_final: u64 = if is_bootstrap && k == 0 {
            bootstrap_score
        } else {
            t_i
        };
        proof {
            assert(t_i_final as int <= 256 * (TRUST_CAP as int));
            assert((t_i_final as int) * (c_v as int) <= 2_560_000_000_000_000_000
                * 100_000_000) by (nonlinear_arith)
                requires
                    0 <= t_i_final as int <= 2_560_000_000_000_000_000,
                    0 <= c_v as int <= 100_000_000,
            ;
        }
        (t_i_final as u128) * (c_v as u128)
    }

    /// The five-element preimage of the commitment hash: the epoch, the
    /// iteration, the scaled opinion, and both public identity
    /// commitments. Its permutation binds the opinion to this exact
    /// context.
    pub fn opinion_hash_input(epoch: Epoch, k: u32, op_v: u128, pk_v: &Scalar, pk_p: &Scalar)
        -> (r: [Scalar; 5])
        ensures
            r@.len() == 5,
            r@[0].value() == epoch.0 && r@[0].wf(),
            r@[1].value() == k && r@[1].wf(),
            r@[2].value() == op_v && r@[2].wf(),
            r@[3] == *pk_v,
            r@[4] == *pk_p,
    {
        [
            Scalar::from_u64(epoch.0),
            Scalar::from_u64(k as u64),
            Scalar::from_u128(op_v),
            *pk_v,
            *pk_p,
        ]
    }

    /// The five-element preimage of an identity commitment: four zeros and
    /// the secret key. Its permutation is the public key.
    pub fn identity_hash_input(sk: &Scalar) -> (r: [Scalar; 5])
        ensures
            r@.len() == 5,
            forall|i: int| 0 <= i < 4 ==> (#[trigger] r@[i]).value() == 0 && r@[i].wf(),
            r@[4] == *sk,
    {
        [Scalar::zero(), Scalar::zero(), Scalar::zero(), Scalar::zero(), *sk]
    }

    /// Whether a public commitment belongs to one of the configured
    /// bootstrap peers.
    #[verifier::loop_isolation(false)]
    pub fn is_bootstrap_peer(pk_p: &Scalar, bootstrap_pubkeys: &Vec<Scalar>) -> (r: bool)
        ensures
            r == exists|i: int|
                0 <= i < bootstrap_pubkeys@.len() && (#[trigger] bootstrap_pubkeys@[i])@ == pk_p@,
    {
        let n = bootstrap_pubkeys.len();
        let mut i: usize = 0;
        while i < n
            invariant
                i <= n,
                forall|j: int| 0 <= j < i ==> (#[trigger] bootstrap_pubkeys@[j])@ != pk_p@,
            decreases n - i,
        {
            if bootstrap_pubkeys[i].eq_bytes(pk_p) {
                return true;
            }
            i = i + 1;
        }
        false
    }

    /// The commitment-hash preimage a verifier rebuilds from a received
    /// message: the message's epoch, iteration and scaled opinion, the
    /// verifier's own recomputed commitment and the claimed issuer
    /// commitment.
    pub fn verification_hash_input(&self, pk_v: &Scalar, pubkey_p: &Scalar) -> (r: [Scalar; 5])
        ensures
            r@.len() == 5,
            r@[0].value() == self.epoch.0 && r@[0].wf(),
            r@[1].value() == self.iter && r@[1].wf(),
            r@[2].value() == self.op && r@[2].wf(),
            r@[3] == *pk_v,
            r@[4] == *pubkey_p,
    {
        Self::opinion_hash_input(self.epoch, self.iter, self.op, pk_v, pubkey_p)
    }

    /// The public input the verifier hands to the proving backend: the
    /// recomputed commitment hash, except for a zero opinion, whose
    /// commitment is not re-derivable and is taken from the message
    /// verbatim; a zero-opinion message whose carried hash is not a
    /// canonical field encoding is rejected.
    pub fn select_public_input(&self, recomputed: Scalar) -> (r: Result<Scalar, EigenError>)
        ensures
            self.op != 0 ==> r == Ok::<Scalar, EigenError>(recomputed),
            self.op == 0 ==> {
                &&& r is Ok <==> crate::scalar::le_bytes_value(self.m_hash@)
                    < crate::scalar::fr_modulus()
                &&& (r matches Ok(s) ==> s@ == self.m_hash@)
                &&& (r matches Err(e) ==> e is VerificationError)
            },
    {
        if self.op == 0 {
            match Scalar::from_bytes(&self.m_hash) {
                Some(s) => Ok(s),
                None => Err(EigenError::VerificationError),
            }
        } else {
            Ok(recomputed)
        }
    }
}

} // verus!
