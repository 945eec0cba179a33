//! The peer trust model: a bounded neighbour table with integer ratings,
//! two opinion caches keyed by counterparty and epoch, and the one-step
//! trust propagation that turns neighbour opinions into the next epoch's
//! local opinions.
//!
//! Trust values are fixed-point integers scaled by [`SCALE`]: the value 1
//! is stored as `SCALE`. Divisions round to the nearest integer, halves
//! away from zero.

use std::collections::HashMap;

use vstd::prelude::*;

use crate::epoch::Epoch;
use crate::EigenError;

verus! {

broadcast use vstd::std_specs::hash::group_hash_axioms;

/// A peer on the network, named by an opaque 64-bit identifier.
pub type PeerId = u64;

/// The capacity of every peer's neighbour table.
pub const MAX_NEIGHBOURS: usize = 256;

/// The fixed-point scale: the trust value 1 is stored as `SCALE`.
pub const SCALE: u64 = 100_000_000;

/// The largest trust value a cached neighbour opinion may carry; it keeps
/// every sum over the table inside 64 bits.
pub const TRUST_CAP: u64 = SCALE * SCALE;

/// A vote on a neighbour: one step up or one step down.
pub enum Rating {
    Positive,
    Negative,
}

/// Division rounded to the nearest integer, halves away from zero; zero
/// when the divisor is zero.
pub open spec fn div_round(a: int, b: int) -> int {
    if b <= 0 {
        0
    } else {
        (a + b / 2) / b
    }
}

/// The product of two fixed-point values, rescaled.
pub open spec fn mul_scaled(a: int, b: int) -> int {
    div_round(a * b, SCALE as int)
}

/// A rating normalized against the sum of all ratings; zero when the sum
/// is zero.
pub open spec fn normalized_spec(score: int, sum: int) -> int {
    div_round(score * SCALE, sum)
}

/// The opinion one peer holds of another at a given epoch: the normalized
/// local trust, the issuer's global trust, and their product.
#[derive(Clone, Copy, Debug, PartialEq, Eq, Structural)]
pub struct Opinion {
    pub k: Epoch,
    pub local_trust_score: u64,
    pub global_trust_score: u64,
    pub product: u64,
}

impl Opinion {
    /// Creates a new opinion.
    pub fn new(k: Epoch, local_trust_score: u64, global_trust_score: u64, product: u64) -> (r:
        Self)
        ensures
            r == (Opinion { k, local_trust_score, global_trust_score, product }),
    {
        Self { k, local_trust_score, global_trust_score, product }
    }

    /// The empty opinion: what a peer holds of an unknown counterparty.
    pub open spec fn empty_spec(k: Epoch) -> Opinion {
        Opinion { k, local_trust_score: 0, global_trust_score: 0, product: 0 }
    }

    /// Creates an empty opinion, for when we hold no opinion of a peer, or
    /// a neighbour holds none of us.
    pub fn empty(k: Epoch) -> (r: Self)
        ensures
            r == Self::empty_spec(k),
    {
        Self::new(k, 0, 0, 0)
    }

    /// An opinion small enough to take part in the global-score sum: all
    /// fields within the fixed-point range that 64-bit sums accommodate.
    pub open spec fn bounded(&self) -> bool {
        &&& self.local_trust_score <= SCALE
        &&& self.global_trust_score <= TRUST_CAP
        &&& self.product <= TRUST_CAP
    }

    /// Returns the epoch of the opinion.
    pub fn get_epoch(&self) -> (r: Epoch)
        ensures
            r == self.k,
    {
        self.k
    }

    /// Returns the local trust score of the opinion.
    pub fn get_local_trust_score(&self) -> (r: u64)
        ensures
            r == self.local_trust_score,
    {
        self.local_trust_score
    }

    /// Returns the global trust score of the opinion.
    pub fn get_global_trust_score(&self) -> (r: u64)
        ensures
            r == self.global_trust_score,
    {
        self.global_trust_score
    }

    /// Returns the product of global and local trust score of the opinion.
    pub fn get_product(&self) -> (r: u64)
        ensures
            r == self.product,
    {
        self.product
    }
}

/// The key of an opinion cache entry: a peer and an epoch, packed.
pub open spec fn opinion_key(peer: PeerId, epoch: u64) -> u128 {
    ((peer as int) * 0x1_0000_0000_0000_0000 + (epoch as int)) as u128
}

/// Packed cache keys collide only when both the peer and the epoch agree.
pub proof fn lemma_opinion_key_injective(p1: PeerId, e1: u64, p2: PeerId, e2: u64)
    ensures
        opinion_key(p1, e1) == opinion_key(p2, e2) ==> p1 == p2 && e1 == e2,
{
    assert((p1 as u128) * 0x1_0000_0000_0000_0000 + (e1 as u128) == (p2 as u128)
        * 0x1_0000_0000_0000_0000 + (e2 as u128) ==> p1 == p2 && e1 == e2) by (nonlinear_arith)
        requires
            p1 <= u64::MAX,
            p2 <= u64::MAX,
            e1 <= u64::MAX,
            e2 <= u64::MAX,
    ;
}

fn pack_opinion_key(peer: PeerId, epoch: u64) -> (r: u128)
    ensures
        r == opinion_key(peer, epoch),
{
    let r = ((peer as u128) << 64) | (epoch as u128);
    proof {
        let p = peer as u128;
        let e = epoch as u128;
        assert((p << 64) | e == p * 0x1_0000_0000_0000_0000 + e) by (bit_vector)
            requires
                p <= 0xffff_ffff_ffff_ffff,
                e <= 0xffff_ffff_ffff_ffff,
        ;
    }
    r
}

/// The score a rating map holds for a peer; zero when it holds none.
pub open spec fn score_in(m: Map<PeerId, u32>, id: PeerId) -> int {
    if m.contains_key(id) {
        m[id] as int
    } else {
        0
    }
}

/// The score behind a neighbour slot; zero for an empty slot.
pub open spec fn slot_score(slot: Option<PeerId>, m: Map<PeerId, u32>) -> int {
    match slot {
        Some(id) => score_in(m, id),
        None => 0,
    }
}

/// The sum of the ratings of all neighbours in the table.
pub open spec fn sum_scores_at(s: Seq<Option<PeerId>>, m: Map<PeerId, u32>) -> int
    decreases s.len(),
{
    if s.len() == 0 {
        0
    } else {
        slot_score(s[0], m) + sum_scores_at(s.skip(1), m)
    }
}

/// The opinion a cache holds of a peer at an epoch; the empty opinion when
/// it holds none.
pub open spec fn cached_opinion(ops: Map<u128, Opinion>, id: PeerId, epoch: u64) -> Opinion {
    if ops.contains_key(opinion_key(id, epoch)) {
        ops[opinion_key(id, epoch)]
    } else {
        Opinion::empty_spec(Epoch(epoch))
    }
}

/// The product behind a neighbour slot's cached opinion at an epoch; zero
/// for an empty slot or a missing opinion.
pub open spec fn slot_product(slot: Option<PeerId>, ops: Map<u128, Opinion>, epoch: u64) -> int {
    match slot {
        Some(id) => cached_opinion(ops, id, epoch).product as int,
        None => 0,
    }
}

/// The sum of the cached opinion products over the neighbour table.
pub open spec fn sum_products_at(s: Seq<Option<PeerId>>, ops: Map<u128, Opinion>, epoch: u64)
    -> int
    decreases s.len(),
{
    if s.len() == 0 {
        0
    } else {
        slot_product(s[0], ops, epoch) + sum_products_at(s.skip(1), ops, epoch)
    }
}

/// The peer ids of the occupied slots, in table order.
pub open spec fn members_of(s: Seq<Option<PeerId>>) -> Seq<PeerId>
    decreases s.len(),
{
    if s.len() == 0 {
        Seq::<PeerId>::empty()
    } else {
        match s[0] {
            Some(id) => seq![id] + members_of(s.skip(1)),
            None => members_of(s.skip(1)),
        }
    }
}

/// No peer id occupies two slots of a table.
pub open spec fn slots_unique(s: Seq<Option<PeerId>>) -> bool {
    forall|i: int, j: int|
        #![trigger s[i], s[j]]
        0 <= i < j < s.len() && s[i] is Some ==> s[i] != s[j]
}

/// Every opinion in a cache is bounded.
pub open spec fn ops_bounded(m: Map<u128, Opinion>) -> bool {
    forall|key: u128| m.contains_key(key) ==> (#[trigger] m[key]).bounded()
}

/// The peer struct.
pub struct Peer {
    neighbours: Vec<Option<PeerId>>,
    neighbour_scores: HashMap<PeerId, u32>,
    cached_neighbour_opinion: HashMap<u128, Opinion>,
    cached_local_opinion: HashMap<u128, Opinion>,
    pre_trust_score: u64,
    pre_trust_weight: u64,
}

impl Peer {
    /// The neighbour table, slot by slot.
    pub closed spec fn slots(&self) -> Seq<Option<PeerId>> {
        self.neighbours@
    }

    /// The rating map.
    pub closed spec fn scores(&self) -> Map<PeerId, u32> {
        self.neighbour_scores@
    }

    /// The cache of opinions received from neighbours, by packed key.
    pub closed spec fn neighbour_ops(&self) -> Map<u128, Opinion> {
        self.cached_neighbour_opinion@
    }

    /// The cache of opinions this peer issued, by packed key.
    pub closed spec fn local_ops(&self) -> Map<u128, Opinion> {
        self.cached_local_opinion@
    }

    /// The fixed pre-trust score of this identity, scaled.
    pub closed spec fn pre_trust_score_spec(&self) -> u64 {
        self.pre_trust_score
    }

    /// The fixed pre-trust weight, scaled.
    pub closed spec fn pre_trust_weight_spec(&self) -> u64 {
        self.pre_trust_weight
    }

    /// Whether a peer id occupies some slot of the table.
    pub open spec fn is_neighbour(&self, id: PeerId) -> bool {
        exists|i: int| 0 <= i < self.slots().len() && self.slots()[i] == Some(id)
    }

    /// The score this peer holds for an id.
    pub open spec fn score_of(&self, id: PeerId) -> int {
        score_in(self.scores(), id)
    }

    /// The sum of all neighbours' scores.
    pub open spec fn sum_of_scores_spec(&self) -> int {
        sum_scores_at(self.slots(), self.scores())
    }

    /// The global trust score at an epoch: the sum of the neighbours'
    /// cached opinion products, blended with the pre-trust score by the
    /// pre-trust weight.
    pub open spec fn global_score_spec(&self, epoch: u64) -> int {
        div_round(
            (SCALE - self.pre_trust_weight_spec()) * sum_products_at(
                self.slots(),
                self.neighbour_ops(),
                epoch,
            ) + self.pre_trust_weight_spec() * self.pre_trust_score_spec(),
            SCALE as int,
        )
    }

    /// The table never exceeds its capacity, holds no id twice, the
    /// pre-trust parameters are fixed-point fractions, and every cached
    /// neighbour opinion is bounded.
    pub open spec fn wf(&self) -> bool {
        &&& self.slots().len() <= MAX_NEIGHBOURS
        &&& slots_unique(self.slots())
        &&& self.pre_trust_score_spec() <= SCALE
        &&& self.pre_trust_weight_spec() <= SCALE
        &&& ops_bounded(self.neighbour_ops())
    }

    /// Creates a new peer with an empty table of the given capacity.
    #[verifier::loop_isolation(false)]
    pub fn new(num_neighbours: usize, pre_trust_score: u64, pre_trust_weight: u64) -> (r: Self)
        requires
            num_neighbours <= MAX_NEIGHBOURS,
            pre_trust_score <= SCALE,
            pre_trust_weight <= SCALE,
        ensures
            r.wf(),
            r.slots().len() == num_neighbours,
            forall|i: int| 0 <= i < num_neighbours ==> r.slots()[i] is None,
            r.scores() == Map::<PeerId, u32>::empty(),
            r.neighbour_ops() == Map::<u128, Opinion>::empty(),
            r.local_ops() == Map::<u128, Opinion>::empty(),
            r.pre_trust_score_spec() == pre_trust_score,
            r.pre_trust_weight_spec() == pre_trust_weight,
    {
        let mut neighbours: Vec<Option<PeerId>> = Vec::with_capacity(num_neighbours);
        let mut i: usize = 0;
        while i < num_neighbours
            invariant
                i <= num_neighbours,
                neighbours@.len() == i,
                forall|j: int| 0 <= j < i ==> neighbours@[j] is None,
            decreases num_neighbours - i,
        {
            neighbours.push(None);
            i = i + 1;
        }
        Peer {
            neighbours,
            neighbour_scores: HashMap::new(),
            cached_neighbour_opinion: HashMap::new(),
            cached_local_opinion: HashMap::new(),
            pre_trust_score,
            pre_trust_weight,
        }
    }

    /// Adds a neighbour in the first free slot. Success without change
    /// when the id is already present; `MaxNeighboursReached` when the
    /// table is full and the id is new.
    #[verifier::loop_isolation(false)]
    pub fn add_neighbor(&mut self, peer_id: PeerId) -> (r: Result<(), EigenError>)
        requires
            old(self).wf(),
        ensures
            final(self).wf(),
            r is Ok <==> old(self).is_neighbour(peer_id) || exists|i: int|
                0 <= i < old(self).slots().len() && old(self).slots()[i] is None,
            old(self).is_neighbour(peer_id) ==> r is Ok && final(self).slots() == old(
                self,
            ).slots(),
            r is Ok && !old(self).is_neighbour(peer_id) ==> exists|i: int|
                {
                    &&& 0 <= i < old(self).slots().len()
                    &&& old(self).slots()[i] is None
                    &&& forall|j: int| 0 <= j < i ==> old(self).slots()[j] is Some
                    &&& final(self).slots() == old(self).slots().update(i, Some(peer_id))
                },
            r is Err ==> (r matches Err(EigenError::MaxNeighboursReached)) && final(self).slots()
                == old(self).slots(),
            final(self).is_neighbour(peer_id) <==> r is Ok,
            final(self).scores() == old(self).scores(),
            final(self).neighbour_ops() == old(self).neighbour_ops(),
            final(self).local_ops() == old(self).local_ops(),
            final(self).pre_trust_score_spec() == old(self).pre_trust_score_spec(),
            final(self).pre_trust_weight_spec() == old(self).pre_trust_weight_spec(),
    {
        let n = self.neighbours.len();
        let mut i: usize = 0;
        let mut first_free: usize = n;
        while i < n
            invariant
                *self == *old(self),
                i <= n,
                n == self.slots().len(),
                first_free <= n,
                forall|j: int| 0 <= j < i ==> self.slots()[j] != Some(peer_id),
                first_free < n ==> self.slots()[first_free as int] is None,
                first_free < n ==> forall|j: int| 0 <= j < first_free ==> self.slots()[j] is Some,
                first_free == n ==> forall|j: int| 0 <= j < i ==> self.slots()[j] is Some,
            decreases n - i,
        {
            match self.neighbours[i] {
                Some(id) => {
                    if id == peer_id {
                        return Ok(());
                    }
                },
                None => {
                    if first_free == n {
                        first_free = i;
                    }
                },
            }
            i = i + 1;
        }
        if first_free < n {
            self.neighbours[first_free] = Some(peer_id);
            proof {
                assert(self.slots() == old(self).slots().update(first_free as int, Some(peer_id)));
                assert(self.slots()[first_free as int] == Some(peer_id));
            }
            Ok(())
        } else {
            proof {
                assert(forall|j: int| 0 <= j < n ==> self.slots()[j] is Some);
            }
            Err(EigenError::MaxNeighboursReached)
        }
    }

    /// Removes a neighbour; `NeighbourNotFound` when the id occupies no
    /// slot. The rating map and both caches keep their entries.
    #[verifier::loop_isolation(false)]
    pub fn remove_neighbor(&mut self, peer_id: PeerId) -> (r: Result<(), EigenError>)
        requires
            old(self).wf(),
        ensures
            final(self).wf(),
            r is Ok <==> old(self).is_neighbour(peer_id),
            r is Ok ==> exists|i: int|
                {
                    &&& 0 <= i < old(self).slots().len()
                    &&& old(self).slots()[i] == Some(peer_id)
                    &&& final(self).slots() == old(self).slots().update(i, None)
                },
            r is Err ==> (r matches Err(EigenError::NeighbourNotFound)) && final(self).slots()
                == old(self).slots(),
            !final(self).is_neighbour(peer_id),
            final(self).scores() == old(self).scores(),
            final(self).neighbour_ops() == old(self).neighbour_ops(),
            final(self).local_ops() == old(self).local_ops(),
            final(self).pre_trust_score_spec() == old(self).pre_trust_score_spec(),
            final(self).pre_trust_weight_spec() == old(self).pre_trust_weight_spec(),
    {
        let n = self.neighbours.len();
        let mut i: usize = 0;
        while i < n
            invariant
                *self == *old(self),
                i <= n,
                n == self.slots().len(),
                forall|j: int| 0 <= j < i ==> self.slots()[j] != Some(peer_id),
            decreases n - i,
        {
            match self.neighbours[i] {
                Some(id) => {
                    if id == peer_id {
                        self.neighbours[i] = None;
                        proof {
                            assert(self.slots() == old(self).slots().update(i as int, None));
                            assert forall|j: int|
                                0 <= j < self.slots().len() implies self.slots()[j] != Some(
                                peer_id,
                            ) by {
                                if j != i {
                                    assert(old(self).slots()[j] == self.slots()[j]);
                                }
                            }
                        }
                        return Ok(());
                    }
                },
                None => {},
            }
            i = i + 1;
        }
        Err(EigenError::NeighbourNotFound)
    }

    /// Steps a neighbour's rating up, or down with a floor at zero;
    /// `NeighbourNotFound` when the id occupies no slot. A rating at the
    /// top of the 32-bit range stays there.
    #[verifier::loop_isolation(false)]
    pub fn rate_neighbour(&mut self, peer_id: PeerId, rating: Rating) -> (r: Result<
        (),
        EigenError,
    >)
        requires
            old(self).wf(),
        ensures
            final(self).wf(),
            r is Ok <==> old(self).is_neighbour(peer_id),
            r is Ok ==> final(self).scores() == old(self).scores().insert(
                peer_id,
                match rating {
                    Rating::Positive => if old(self).score_of(peer_id) < u32::MAX {
                        (old(self).score_of(peer_id) + 1) as u32
                    } else {
                        u32::MAX
                    },
                    Rating::Negative => if old(self).score_of(peer_id) > 0 {
                        (old(self).score_of(peer_id) - 1) as u32
                    } else {
                        0u32
                    },
                },
            ),
            r is Err ==> (r matches Err(EigenError::NeighbourNotFound)) && final(self).scores()
                == old(self).scores(),
            final(self).slots() == old(self).slots(),
            final(self).neighbour_ops() == old(self).neighbour_ops(),
            final(self).local_ops() == old(self).local_ops(),
            final(self).pre_trust_score_spec() == old(self).pre_trust_score_spec(),
            final(self).pre_trust_weight_spec() == old(self).pre_trust_weight_spec(),
    {
        let n = self.neighbours.len();
        let mut i: usize = 0;
        while i < n
            invariant
                *self == *old(self),
                i <= n,
                n == self.slots().len(),
                forall|j: int| 0 <= j < i ==> self.slots()[j] != Some(peer_id),
            decreases n - i,
        {
            match self.neighbours[i] {
                Some(id) => {
                    if id == peer_id {
                        let current: u32 = match self.neighbour_scores.get(&peer_id) {
                            Some(s) => *s,
                            None => 0,
                        };
                        let updated: u32 = match rating {
                            Rating::Positive => {
                                if current < u32::MAX {
                                    current + 1
                                } else {
                                    u32::MAX
                                }
                            },
                            Rating::Negative => {
                                if current > 0 {
                                    current - 1
                                } else {
                                    0
                                }
                            },
                        };
                        self.neighbour_scores.insert(peer_id, updated);
                        return Ok(());
                    }
                },
                None => {},
            }
            i = i + 1;
        }
        Err(EigenError::NeighbourNotFound)
    }

    /// Sets the rating for a peer outright, member of the table or not.
    pub fn set_score(&mut self, peer_id: PeerId, score: u32)
        requires
            old(self).wf(),
        ensures
            final(self).wf(),
            final(self).scores() == old(self).scores().insert(peer_id, score),
            final(self).slots() == old(self).slots(),
            final(self).neighbour_ops() == old(self).neighbour_ops(),
            final(self).local_ops() == old(self).local_ops(),
            final(self).pre_trust_score_spec() == old(self).pre_trust_score_spec(),
            final(self).pre_trust_weight_spec() == old(self).pre_trust_weight_spec(),
    {
        self.neighbour_scores.insert(peer_id, score);
    }

    /// Returns the neighbours of the peer, in table order.
    #[verifier::loop_isolation(false)]
    pub fn neighbors(&self) -> (r: Vec<PeerId>)
        ensures
            r@ == members_of(self.slots()),
    {
        let mut result: Vec<PeerId> = Vec::new();
        let n = self.neighbours.len();
        let mut i: usize = 0;
        proof {
            assert(self.slots().take(0) =~= Seq::<Option<PeerId>>::empty());
        }
        while i < n
            invariant
                i <= n,
                n == self.slots().len(),
                result@ == members_of(self.slots().take(i as int)),
            decreases n - i,
        {
            proof {
                assert(self.slots().take(i + 1) =~= self.slots().take(i as int).push(
                    self.slots()[i as int],
                ));
                lemma_members_of_push(self.slots().take(i as int), self.slots()[i as int]);
            }
            match self.neighbours[i] {
                Some(id) => {
                    result.push(id);
                    proof {
                        assert(result@ =~= members_of(self.slots().take(i as int)) + seq![
                            self.slots()[i as int]->0,
                        ]);
                    }
                },
                None => {},
            }
            i = i + 1;
        }
        proof {
            assert(self.slots().take(n as int) =~= self.slots());
        }
        result
    }
}

/// Extending the table by one slot extends its member list by that slot's
/// occupant, if any.
pub proof fn lemma_members_of_push(s: Seq<Option<PeerId>>, x: Option<PeerId>)
    ensures
        members_of(s.push(x)) == members_of(s) + (match x {
            Some(id) => seq![id],
            None => Seq::<PeerId>::empty(),
        }),
    decreases s.len(),
{
    let tail: Seq<PeerId> = match x {
        Some(id) => seq![id],
        None => Seq::<PeerId>::empty(),
    };
    if s.len() == 0 {
        assert(s.push(x).skip(1) =~= Seq::<Option<PeerId>>::empty());
        assert(s.push(x)[0] == x);
        assert(members_of(Seq::<Option<PeerId>>::empty()) =~= Seq::<PeerId>::empty());
        match x {
            Some(id) => {
                assert(members_of(s.push(x)) =~= seq![id] + Seq::<PeerId>::empty());
                assert(seq![id] + Seq::<PeerId>::empty() =~= seq![id]);
                assert(members_of(s) + tail =~= seq![id]);
            },
            None => {
                assert(members_of(s.push(x)) =~= Seq::<PeerId>::empty());
                assert(members_of(s) + tail =~= Seq::<PeerId>::empty());
            },
        }
    } else {
        lemma_members_of_push(s.skip(1), x);
        assert(s.push(x).skip(1) =~= s.skip(1).push(x));
        assert(s.push(x)[0] == s[0]);
        match s[0] {
            Some(id) => {
                assert(members_of(s.push(x)) =~= seq![id] + (members_of(s.skip(1)) + tail));
                assert(seq![id] + (members_of(s.skip(1)) + tail) =~= (seq![id] + members_of(
                    s.skip(1),
                )) + tail);
            },
            None => {},
        }
    }
}


/// Extending the table by one slot adds that slot's score to the sum.
pub proof fn lemma_sum_scores_push(s: Seq<Option<PeerId>>, x: Option<PeerId>, m: Map<PeerId, u32>)
    ensures
        sum_scores_at(s.push(x), m) == sum_scores_at(s, m) + slot_score(x, m),
    decreases s.len(),
{
    if s.len() == 0 {
        assert(s.push(x).skip(1) =~= Seq::<Option<PeerId>>::empty());
        assert(s.push(x)[0] == x);
        assert(sum_scores_at(Seq::<Option<PeerId>>::empty(), m) == 0);
    } else {
        lemma_sum_scores_push(s.skip(1), x, m);
        assert(s.push(x).skip(1) =~= s.skip(1).push(x));
        assert(s.push(x)[0] == s[0]);
    }
}

/// Extending the table by one slot adds that slot's opinion product to the
/// sum.
pub proof fn lemma_sum_products_push(
    s: Seq<Option<PeerId>>,
    x: Option<PeerId>,
    ops: Map<u128, Opinion>,
    epoch: u64,
)
    ensures
        sum_products_at(s.push(x), ops, epoch) == sum_products_at(s, ops, epoch) + slot_product(
            x,
            ops,
            epoch,
        ),
    decreases s.len(),
{
    if s.len() == 0 {
        assert(s.push(x).skip(1) =~= Seq::<Option<PeerId>>::empty());
        assert(s.push(x)[0] == x);
        assert(sum_products_at(Seq::<Option<PeerId>>::empty(), ops, epoch) == 0);
    } else {
        lemma_sum_products_push(s.skip(1), x, ops, epoch);
        assert(s.push(x).skip(1) =~= s.skip(1).push(x));
        assert(s.push(x)[0] == s[0]);
    }
}

impl Peer {
    /// Returns the local score towards a neighbour in a specified epoch;
    /// the empty opinion when none is cached.
    pub fn get_local_opinion(&self, key: &(PeerId, Epoch)) -> (r: Opinion)
        ensures
            r == cached_opinion(self.local_ops(), key.0, key.1.0),
    {
        let k = pack_opinion_key(key.0, key.1.0);
        match self.cached_local_opinion.get(&k) {
            Some(op) => *op,
            None => Opinion::empty(key.1),
        }
    }

    /// Whether this peer has issued an opinion of a counterparty at an
    /// epoch.
    pub fn has_local_opinion(&self, key: &(PeerId, Epoch)) -> (r: bool)
        ensures
            r == self.local_ops().contains_key(opinion_key(key.0, key.1.0)),
    {
        let k = pack_opinion_key(key.0, key.1.0);
        self.cached_local_opinion.contains_key(&k)
    }

    /// Caches the local opinion towards a peer in a specified epoch.
    pub fn cache_local_opinion(&mut self, key: (PeerId, Epoch), opinion: Opinion)
        requires
            old(self).wf(),
        ensures
            final(self).wf(),
            final(self).local_ops() == old(self).local_ops().insert(
                opinion_key(key.0, key.1.0),
                opinion,
            ),
            final(self).slots() == old(self).slots(),
            final(self).scores() == old(self).scores(),
            final(self).neighbour_ops() == old(self).neighbour_ops(),
            final(self).pre_trust_score_spec() == old(self).pre_trust_score_spec(),
            final(self).pre_trust_weight_spec() == old(self).pre_trust_weight_spec(),
    {
        let k = pack_opinion_key(key.0, key.1.0);
        self.cached_local_opinion.insert(k, opinion);
    }

    /// Returns the neighbour's opinion towards us in a specified epoch;
    /// the empty opinion when none is cached.
    pub fn get_neighbor_opinion(&self, key: &(PeerId, Epoch)) -> (r: Opinion)
        ensures
            r == cached_opinion(self.neighbour_ops(), key.0, key.1.0),
    {
        let k = pack_opinion_key(key.0, key.1.0);
        match self.cached_neighbour_opinion.get(&k) {
            Some(op) => *op,
            None => Opinion::empty(key.1),
        }
    }

    /// Whether a neighbour's opinion of us at an epoch is cached.
    pub fn has_neighbour_opinion(&self, key: &(PeerId, Epoch)) -> (r: bool)
        ensures
            r == self.neighbour_ops().contains_key(opinion_key(key.0, key.1.0)),
    {
        let k = pack_opinion_key(key.0, key.1.0);
        self.cached_neighbour_opinion.contains_key(&k)
    }

    /// Caches the neighbour opinion towards us in a specified epoch. The
    /// opinion must be bounded, so that global-score sums stay in range.
    pub fn cache_neighbor_opinion(&mut self, key: (PeerId, Epoch), opinion: Opinion)
        requires
            old(self).wf(),
            opinion.bounded(),
        ensures
            final(self).wf(),
            final(self).neighbour_ops() == old(self).neighbour_ops().insert(
                opinion_key(key.0, key.1.0),
                opinion,
            ),
            final(self).slots() == old(self).slots(),
            final(self).scores() == old(self).scores(),
            final(self).local_ops() == old(self).local_ops(),
            final(self).pre_trust_score_spec() == old(self).pre_trust_score_spec(),
            final(self).pre_trust_weight_spec() == old(self).pre_trust_weight_spec(),
    {
        let k = pack_opinion_key(key.0, key.1.0);
        self.cached_neighbour_opinion.insert(k, opinion);
        proof {
            let m = old(self).neighbour_ops();
            let m2 = self.neighbour_ops();
            assert forall|key2: u128| m2.contains_key(key2) implies (#[trigger] m2[key2]).bounded()
            by {
                if key2 != k {
                    assert(m.contains_key(key2) && m[key2].bounded());
                }
            }
        }
    }

    /// The fixed pre-trust score this peer was created with, scaled.
    pub fn get_pre_trust_score(&self) -> (r: u64)
        ensures
            r == self.pre_trust_score_spec(),
    {
        self.pre_trust_score
    }

    /// The fixed pre-trust weight this peer was created with, scaled.
    pub fn get_pre_trust_weight(&self) -> (r: u64)
        ensures
            r == self.pre_trust_weight_spec(),
    {
        self.pre_trust_weight
    }

    /// Returns the sum of the neighbours' scores.
    #[verifier::loop_isolation(false)]
    pub fn get_sum_of_scores(&self) -> (r: u64)
        requires
            self.wf(),
        ensures
            r == self.sum_of_scores_spec(),
            r <= MAX_NEIGHBOURS * (u32::MAX as int),
    {
        let n = self.neighbours.len();
        let mut sum: u64 = 0;
        let mut i: usize = 0;
        proof {
            assert(self.slots().take(0) =~= Seq::<Option<PeerId>>::empty());
        }
        while i < n
            invariant
                i <= n,
                sum == sum_scores_at(self.slots().take(i as int), self.scores()),
                sum <= i * (u32::MAX as int),
            decreases n - i,
        {
            proof {
                assert(self.slots().take(i + 1) =~= self.slots().take(i as int).push(
                    self.slots()[i as int],
                ));
                lemma_sum_scores_push(
                    self.slots().take(i as int),
                    self.slots()[i as int],
                    self.scores(),
                );
            }
            match self.neighbours[i] {
                Some(id) => {
                    let sc: u32 = match self.neighbour_scores.get(&id) {
                        Some(s) => *s,
                        None => 0,
                    };
                    proof {
                        assert(sc as int == score_in(self.scores(), id));
                    }
                    sum = sum + (sc as u64);
                },
                None => {},
            }
            i = i + 1;
        }
        proof {
            assert(self.slots().take(n as int) =~= self.slots());
        }
        sum
    }

    /// Returns a score normalized against the sum of all neighbours'
    /// scores; zero when that sum is zero.
    pub fn get_normalized_score(&self, score: u32) -> (r: u64)
        requires
            self.wf(),
        ensures
            r == normalized_spec(score as int, self.sum_of_scores_spec()),
    {
        let sum = self.get_sum_of_scores();
        if sum == 0 {
            return 0;
        }
        proof {
            assert((score as int) * (SCALE as int) <= 4_294_967_295 * 100_000_000)
                by (nonlinear_arith)
                requires
                    score as int <= 4_294_967_295,
            ;
        }
        let num: u128 = (score as u128) * (SCALE as u128) + (sum as u128) / 2;
        let r128: u128 = num / (sum as u128);
        proof {
            assert(r128 <= num) by (nonlinear_arith)
                requires
                    r128 == num / (sum as u128),
                    sum >= 1,
            ;
        }
        r128 as u64
    }

    /// Calculates the global trust score at an epoch: the neighbours'
    /// cached opinion products summed, blended with the pre-trust score.
    #[verifier::loop_isolation(false)]
    pub fn calculate_global_trust_score(&self, epoch: Epoch) -> (r: u64)
        requires
            self.wf(),
        ensures
            r == self.global_score_spec(epoch.0),
    {
        let n = self.neighbours.len();
        let mut acc: u64 = 0;
        let mut i: usize = 0;
        proof {
            assert(self.slots().take(0) =~= Seq::<Option<PeerId>>::empty());
        }
        while i < n
            invariant
                i <= n,
                acc == sum_products_at(self.slots().take(i as int), self.neighbour_ops(), epoch.0),
                acc <= i * (TRUST_CAP as int),
            decreases n - i,
        {
            proof {
                assert(self.slots().take(i + 1) =~= self.slots().take(i as int).push(
                    self.slots()[i as int],
                ));
                lemma_sum_products_push(
                    self.slots().take(i as int),
                    self.slots()[i as int],
                    self.neighbour_ops(),
                    epoch.0,
                );
            }
            match self.neighbours[i] {
                Some(id) => {
                    let op = self.get_neighbor_opinion(&(id, epoch));
                    proof {
                        assert(op.product <= TRUST_CAP);
                    }
                    acc = acc + op.product;
                },
                None => {},
            }
            i = i + 1;
        }
        proof {
            assert(self.slots().take(n as int) =~= self.slots());
        }
        let w = self.pre_trust_weight;
        let pre = self.pre_trust_score;
        proof {
            assert(acc as int <= 2_560_000_000_000_000_000);
            assert(((SCALE - w) as int) * (acc as int) <= 100_000_000
                * 2_560_000_000_000_000_000) by (nonlinear_arith)
                requires
                    (SCALE - w) as int <= 100_000_000,
                    0 <= acc as int <= 2_560_000_000_000_000_000,
            ;
            assert((w as int) * (pre as int) <= 100_000_000 * 100_000_000) by (nonlinear_arith)
                requires
                    0 <= w as int <= 100_000_000,
                    0 <= pre as int <= 100_000_000,
            ;
        }
        let num: u128 = ((SCALE - w) as u128) * (acc as u128) + (w as u128) * (pre as u128);
        let r128: u128 = (num + (SCALE / 2) as u128) / (SCALE as u128);
        proof {
            assert((num + 50_000_000) / 100_000_000 <= u64::MAX) by (nonlinear_arith)
                requires
                    0 <= num as int <= 256_000_010_000_000_000_000_000_000,
            ;
        }
        r128 as u64
    }
}


/// Scores and their sums are never negative.
pub proof fn lemma_sum_scores_nonneg(s: Seq<Option<PeerId>>, m: Map<PeerId, u32>)
    ensures
        sum_scores_at(s, m) >= 0,
    decreases s.len(),
{
    if s.len() > 0 {
        lemma_sum_scores_nonneg(s.skip(1), m);
    }
}

/// A table member's score never exceeds the sum of all scores.
pub proof fn lemma_member_score_le_sum(s: Seq<Option<PeerId>>, m: Map<PeerId, u32>, i: int)
    requires
        0 <= i < s.len(),
        s[i] is Some,
    ensures
        score_in(m, s[i]->0) <= sum_scores_at(s, m),
    decreases i,
{
    lemma_sum_scores_nonneg(s.skip(1), m);
    if i == 0 {
    } else {
        lemma_member_score_le_sum(s.skip(1), m, i - 1);
        assert(s.skip(1)[i - 1] == s[i]);
    }
}

/// A score normalized against a sum at least as large stays at or below
/// the fixed-point one.
pub proof fn lemma_normalized_le_scale(score: int, sum: int)
    requires
        0 <= score <= sum,
    ensures
        0 <= normalized_spec(score, sum) <= SCALE,
{
    if sum > 0 {
        assert(0 <= (score * (SCALE as int) + sum / 2) / sum <= SCALE) by (nonlinear_arith)
            requires
                0 <= score <= sum,
                sum > 0,
        ;
    }
}

/// Rescaling a product by a fixed-point fraction never exceeds the other
/// factor.
pub proof fn lemma_mul_scaled_le(a: int, b: int)
    requires
        0 <= a,
        0 <= b <= SCALE,
    ensures
        0 <= mul_scaled(a, b) <= a,
{
    assert(0 <= (a * b + 50_000_000) / 100_000_000 <= a) by (nonlinear_arith)
        requires
            0 <= a,
            0 <= b <= 100_000_000,
    ;
}

/// The opinions of one propagation pass laid over an existing cache, in
/// order.
pub open spec fn opinions_inserted(
    m: Map<u128, Opinion>,
    ops: Seq<(PeerId, Opinion)>,
    epoch: u64,
) -> Map<u128, Opinion>
    decreases ops.len(),
{
    if ops.len() == 0 {
        m
    } else {
        opinions_inserted(m, ops.drop_last(), epoch).insert(
            opinion_key(ops.last().0, epoch),
            ops.last().1,
        )
    }
}

/// Looking up an inserted opinion finds it, as long as no later entry
/// shares its peer id.
proof fn lemma_opinions_inserted_hit(
    m: Map<u128, Opinion>,
    ops: Seq<(PeerId, Opinion)>,
    epoch: u64,
    j: int,
)
    requires
        0 <= j < ops.len(),
        forall|j1: int, j2: int|
            #![trigger ops[j1], ops[j2]]
            0 <= j1 < j2 < ops.len() ==> ops[j1].0 != ops[j2].0,
    ensures
        opinions_inserted(m, ops, epoch).contains_key(opinion_key(ops[j].0, epoch)),
        opinions_inserted(m, ops, epoch)[opinion_key(ops[j].0, epoch)] == ops[j].1,
    decreases ops.len(),
{
    let last = ops.len() - 1;
    if j == last {
    } else {
        lemma_opinions_inserted_hit(m, ops.drop_last(), epoch, j);
        assert(ops.drop_last()[j] == ops[j]);
        assert(ops[j].0 != ops[last].0);
        lemma_opinion_key_injective(ops[j].0, epoch, ops[last].0, epoch);
    }
}

/// Looking up any other key sees the cache as it was.
proof fn lemma_opinions_inserted_miss(
    m: Map<u128, Opinion>,
    ops: Seq<(PeerId, Opinion)>,
    epoch: u64,
    key: u128,
)
    requires
        forall|j: int| 0 <= j < ops.len() ==> key != opinion_key((#[trigger] ops[j]).0, epoch),
    ensures
        opinions_inserted(m, ops, epoch).contains_key(key) == m.contains_key(key),
        m.contains_key(key) ==> opinions_inserted(m, ops, epoch)[key] == m[key],
    decreases ops.len(),
{
    if ops.len() > 0 {
        assert(ops.drop_last().len() == ops.len() - 1);
        assert(forall|j: int|
            0 <= j < ops.drop_last().len() ==> #[trigger] ops.drop_last()[j] == ops[j]);
        lemma_opinions_inserted_miss(m, ops.drop_last(), epoch, key);
        assert(key != opinion_key(ops[ops.len() - 1].0, epoch));
    }
}

impl Peer {
    /// The opinion this peer issues about a neighbour when it propagates
    /// trust at an epoch: the neighbour's normalized score, the global
    /// score, and their product, stamped with the next epoch.
    pub open spec fn issued_opinion(&self, epoch: u64, id: PeerId) -> Opinion {
        Opinion {
            k: Epoch((epoch + 1) as u64),
            local_trust_score: normalized_spec(self.score_of(id), self.sum_of_scores_spec())
                as u64,
            global_trust_score: self.global_score_spec(epoch) as u64,
            product: mul_scaled(
                self.global_score_spec(epoch),
                normalized_spec(self.score_of(id), self.sum_of_scores_spec()),
            ) as u64,
        }
    }

    /// What one propagation pass at epoch `k0` does to the local-opinion
    /// cache: every neighbour's entry under the next epoch becomes the
    /// issued opinion, and every other entry stays as it was.
    pub open spec fn propagation_shape(pre: Peer, post: Peer, k0: u64) -> bool {
        &&& forall|id: PeerId|
            pre.is_neighbour(id) ==> (#[trigger] cached_opinion(
                post.local_ops(),
                id,
                (k0 + 1) as u64,
            )) == pre.issued_opinion(k0, id) && post.local_ops().contains_key(
                opinion_key(id, (k0 + 1) as u64),
            )
        &&& forall|id: PeerId, e: u64|
            !(pre.is_neighbour(id) && e == k0 + 1) ==> (#[trigger] cached_opinion(
                post.local_ops(),
                id,
                e,
            )) == cached_opinion(pre.local_ops(), id, e) && post.local_ops().contains_key(
                opinion_key(id, e),
            ) == pre.local_ops().contains_key(opinion_key(id, e))
    }

    /// Calculates the local opinion toward every neighbour at an epoch and
    /// caches each under the next epoch: the one-step trust propagation.
    /// Opinions of counterparties outside the table, and at other epochs,
    /// stay as they were.
    #[verifier::loop_isolation(false)]
    #[verifier::rlimit(100)]
    #[verifier::spinoff_prover]
    pub fn calculate_local_opinions(&mut self, k: Epoch)
        requires
            old(self).wf(),
            k.0 < u64::MAX,
        ensures
            final(self).wf(),
            final(self).slots() == old(self).slots(),
            final(self).scores() == old(self).scores(),
            final(self).neighbour_ops() == old(self).neighbour_ops(),
            final(self).pre_trust_score_spec() == old(self).pre_trust_score_spec(),
            final(self).pre_trust_weight_spec() == old(self).pre_trust_weight_spec(),
            Peer::propagation_shape(*old(self), *final(self), k.0),
    {
        let ghost old_self = *old(self);
        let global = self.calculate_global_trust_score(k);
        let next_epoch = k.next();
        let n = self.neighbours.len();
        let mut opinions: Vec<(PeerId, Opinion)> = Vec::new();
        let mut i: usize = 0;
        while i < n
            invariant
                i <= n,
                forall|j1: int, j2: int|
                    #![trigger opinions@[j1], opinions@[j2]]
                    0 <= j1 < j2 < opinions@.len() ==> opinions@[j1].0 != opinions@[j2].0,
                forall|j: int|
                    0 <= j < opinions@.len() ==> exists|si: int|
                        0 <= si < i && self.slots()[si] == Some((#[trigger] opinions@[j]).0),
                forall|si: int|
                    0 <= si < i && (#[trigger] self.slots()[si]) is Some ==> exists|j: int|
                        0 <= j < opinions@.len() && opinions@[j].0 == self.slots()[si]->0,
                forall|j: int|
                    0 <= j < opinions@.len() ==> (#[trigger] opinions@[j]).1
                        == old_self.issued_opinion(k.0, opinions@[j].0),
            decreases n - i,
        {
            match self.neighbours[i] {
                Some(id) => {
                    let score: u32 = match self.neighbour_scores.get(&id) {
                        Some(s) => *s,
                        None => 0,
                    };
                    let normalized = self.get_normalized_score(score);
                    proof {
                        assert(score as int == self.score_of(id));
                        lemma_member_score_le_sum(self.slots(), self.scores(), i as int);
                        lemma_sum_scores_nonneg(self.slots(), self.scores());
                        lemma_normalized_le_scale(score as int, self.sum_of_scores_spec());
                        assert(normalized <= SCALE);
                        assert((global as int) * (normalized as int) <= (u64::MAX as int)
                            * 100_000_000) by (nonlinear_arith)
                            requires
                                0 <= global as int <= u64::MAX as int,
                                0 <= normalized as int <= 100_000_000,
                        ;
                        lemma_mul_scaled_le(global as int, normalized as int);
                    }
                    let prod128: u128 = ((global as u128) * (normalized as u128) + ((SCALE / 2)
                        as u128)) / (SCALE as u128);
                    proof {
                        assert(prod128 == mul_scaled(global as int, normalized as int));
                        assert(prod128 <= global);
                    }
                    let opinion = Opinion::new(next_epoch, normalized, global, prod128 as u64);
                    let ghost prev = opinions@;
                    opinions.push((id, opinion));
                    proof {
                        assert(opinions@ == prev.push((id, opinion)));
                        assert(forall|j: int|
                            0 <= j < prev.len() ==> #[trigger] opinions@[j] == prev[j]);
                        assert(opinions@[opinions@.len() - 1] == (id, opinion));
                        assert(opinion == old_self.issued_opinion(k.0, id));
                        assert forall|si: int|
                            0 <= si < i + 1 && (#[trigger] self.slots()[si]) is Some implies exists|j: int|
                            0 <= j < opinions@.len() && opinions@[j].0 == self.slots()[si]->0 by {
                            if si == i as int {
                                assert(opinions@[opinions@.len() - 1].0 == id);
                            } else {
                                let j = choose|j: int|
                                    0 <= j < prev.len() && prev[j].0 == self.slots()[si]->0;
                                assert(opinions@[j].0 == self.slots()[si]->0);
                            }
                        }
                        assert forall|j1: int, j2: int|
                            #![trigger opinions@[j1], opinions@[j2]]
                            0 <= j1 < j2 < opinions@.len() implies opinions@[j1].0
                            != opinions@[j2].0 by {
                            if j2 == opinions@.len() - 1 {
                                let si = choose|si: int|
                                    0 <= si < i && self.slots()[si] == Some(prev[j1].0);
                                assert(self.slots()[si] != self.slots()[i as int]);
                            }
                        }
                    }
                },
                None => {},
            }
            i = i + 1;
        }
        let m = opinions.len();
        let mut t: usize = 0;
        proof {
            assert(opinions@.take(0) =~= Seq::<(PeerId, Opinion)>::empty());
        }
        while t < m
            invariant
                t <= m,
                m == opinions@.len(),
                self.local_ops() == opinions_inserted(
                    old_self.local_ops(),
                    opinions@.take(t as int),
                    (k.0 + 1) as u64,
                ),
                self.slots() == old_self.slots(),
                self.scores() == old_self.scores(),
                self.neighbour_ops() == old_self.neighbour_ops(),
                self.pre_trust_score_spec() == old_self.pre_trust_score_spec(),
                self.pre_trust_weight_spec() == old_self.pre_trust_weight_spec(),
            decreases m - t,
        {
            let id = opinions[t].0;
            let op = opinions[t].1;
            let key = pack_opinion_key(id, k.0 + 1);
            self.cached_local_opinion.insert(key, op);
            proof {
                assert(opinions@.take(t + 1).drop_last() =~= opinions@.take(t as int));
                assert(opinions@.take(t + 1).last() == opinions@[t as int]);
            }
            t = t + 1;
        }
        proof {
            assert(opinions@.take(m as int) =~= opinions@);
            let ops = opinions@;
            assert forall|id: PeerId| old_self.is_neighbour(id) implies exists|j: int|
                0 <= j < ops.len() && (#[trigger] ops[j]).0 == id by {
                let si = choose|si: int|
                    0 <= si < old_self.slots().len() && old_self.slots()[si] == Some(id);
                assert(self.slots()[si] == Some(id));
                let j = choose|j: int|
                    0 <= j < ops.len() && ops[j].0 == self.slots()[si]->0;
                assert(ops[j].0 == id);
            }
            assert forall|j: int|
                0 <= j < ops.len() implies old_self.is_neighbour((#[trigger] ops[j]).0)
                && ops[j].1 == old_self.issued_opinion(k.0, ops[j].0) by {
                let si = choose|si: int| 0 <= si < i && self.slots()[si] == Some(ops[j].0);
                assert(old_self.slots()[si] == Some(ops[j].0));
            }
            lemma_propagation_cache_shape(old_self, *self, ops, k.0);
        }
    }
}


/// After one propagation pass, the local-opinion cache holds exactly the
/// issued opinions under the next epoch, and everything else as it was.
proof fn lemma_propagation_cache_shape(
    old_p: Peer,
    post: Peer,
    ops: Seq<(PeerId, Opinion)>,
    k0: u64,
)
    requires
        k0 < u64::MAX,
        post.local_ops() == opinions_inserted(old_p.local_ops(), ops, (k0 + 1) as u64),
        forall|j1: int, j2: int|
            #![trigger ops[j1], ops[j2]]
            0 <= j1 < j2 < ops.len() ==> ops[j1].0 != ops[j2].0,
        forall|j: int|
            0 <= j < ops.len() ==> old_p.is_neighbour((#[trigger] ops[j]).0) && ops[j].1
                == old_p.issued_opinion(k0, ops[j].0),
        forall|id: PeerId|
            #![trigger old_p.is_neighbour(id)]
            old_p.is_neighbour(id) ==> exists|j: int| 0 <= j < ops.len() && (#[trigger] ops[j]).0
                == id,
    ensures
        Peer::propagation_shape(old_p, post, k0),
{
    let e1 = (k0 + 1) as u64;
    let new_local = post.local_ops();
    assert forall|id: PeerId| old_p.is_neighbour(id) implies (#[trigger] cached_opinion(
        new_local,
        id,
        e1,
    )) == old_p.issued_opinion(k0, id) && new_local.contains_key(opinion_key(id, e1)) by {
        let j = choose|j: int| 0 <= j < ops.len() && (#[trigger] ops[j]).0 == id;
        lemma_opinions_inserted_hit(old_p.local_ops(), ops, e1, j);
    }
    assert forall|id: PeerId, e: u64|
        !(old_p.is_neighbour(id) && e == k0 + 1) implies (#[trigger] cached_opinion(
        new_local,
        id,
        e,
    )) == cached_opinion(old_p.local_ops(), id, e) && new_local.contains_key(opinion_key(id, e))
        == old_p.local_ops().contains_key(opinion_key(id, e)) by {
        assert forall|j: int|
            0 <= j < ops.len() implies opinion_key(id, e) != opinion_key(
            (#[trigger] ops[j]).0,
            e1,
        ) by {
            assert(old_p.is_neighbour(ops[j].0));
            lemma_opinion_key_injective(id, e, ops[j].0, e1);
        }
        lemma_opinions_inserted_miss(old_p.local_ops(), ops, e1, opinion_key(id, e));
    }
}


/// A table whose occupied slots all score zero products sums to zero.
proof fn lemma_sum_products_zero(s: Seq<Option<PeerId>>, ops: Map<u128, Opinion>, epoch: u64)
    requires
        forall|i: int| 0 <= i < s.len() ==> slot_product(#[trigger] s[i], ops, epoch) == 0,
    ensures
        sum_products_at(s, ops, epoch) == 0,
    decreases s.len(),
{
    if s.len() > 0 {
        assert(forall|i: int|
            0 <= i < s.skip(1).len() ==> #[trigger] s.skip(1)[i] == s[i + 1]);
        lemma_sum_products_zero(s.skip(1), ops, epoch);
    }
}

/// Opinion-product sums over a bounded cache stay within one cap per slot.
pub proof fn lemma_sum_products_bounds(s: Seq<Option<PeerId>>, ops: Map<u128, Opinion>, epoch: u64)
    requires
        ops_bounded(ops),
    ensures
        0 <= sum_products_at(s, ops, epoch) <= s.len() * (TRUST_CAP as int),
    decreases s.len(),
{
    if s.len() > 0 {
        lemma_sum_products_bounds(s.skip(1), ops, epoch);
    }
}

/// The global score of a well-formed peer fits comfortably in 64 bits.
pub proof fn lemma_global_score_bounds(p: Peer, epoch: u64)
    requires
        p.wf(),
    ensures
        0 <= p.global_score_spec(epoch) <= 2_560_001_000_000_000_000,
{
    lemma_sum_products_bounds(p.slots(), p.neighbour_ops(), epoch);
    let sp = sum_products_at(p.slots(), p.neighbour_ops(), epoch);
    let w = p.pre_trust_weight_spec() as int;
    let pre = p.pre_trust_score_spec() as int;
    assert(sp <= 256 * (TRUST_CAP as int));
    assert((100_000_000 - w) * sp <= 100_000_000 * (256 * 10_000_000_000_000_000))
        by (nonlinear_arith)
        requires
            0 <= w <= 100_000_000,
            0 <= sp <= 256 * 10_000_000_000_000_000,
    ;
    assert(0 <= (100_000_000 - w) * sp) by (nonlinear_arith)
        requires
            0 <= w <= 100_000_000,
            0 <= sp,
    ;
    assert(0 <= w * pre <= 100_000_000 * 100_000_000) by (nonlinear_arith)
        requires
            0 <= w <= 100_000_000,
            0 <= pre <= 100_000_000,
    ;
    let num = (100_000_000 - w) * sp + w * pre;
    assert(0 <= (num + 50_000_000) / 100_000_000 <= 2_560_001_000_000_000_000)
        by (nonlinear_arith)
        requires
            0 <= num <= 256_000_010_000_000_000_000_000_000,
    ;
}

/// Rounded division is unchanged by scaling both operands.
pub proof fn lemma_div_round_scale(a: int, b: int, r: int)
    requires
        a >= 0,
        b > 0,
        r > 0,
    ensures
        div_round(r * a, r * b) == div_round(a, b),
{
    let q = (a + b / 2) / b;
    assert(r * b > 0) by (nonlinear_arith)
        requires
            r > 0,
            b > 0,
    ;
    assert(q * b <= a + b / 2 && a + b / 2 < (q + 1) * b && q >= 0) by (nonlinear_arith)
        requires
            b > 0,
            a >= 0,
            q == (a + b / 2) / b,
    ;
    assert(r * (b / 2) <= (r * b) / 2 && (r * b) / 2 <= r * (b / 2) + r - 1) by (nonlinear_arith)
        requires
            b > 0,
            r > 0,
    ;
    assert(q * (r * b) <= r * a + (r * b) / 2) by (nonlinear_arith)
        requires
            q * b <= a + b / 2,
            r > 0,
            r * (b / 2) <= (r * b) / 2,
    ;
    assert(r * a + (r * b) / 2 < (q + 1) * (r * b)) by (nonlinear_arith)
        requires
            a + b / 2 + 1 <= (q + 1) * b,
            r > 0,
            (r * b) / 2 <= r * (b / 2) + r - 1,
    ;
    assert((r * a + (r * b) / 2) / (r * b) == q) by (nonlinear_arith)
        requires
            r * b > 0,
            q >= 0,
            q * (r * b) <= r * a + (r * b) / 2,
            r * a + (r * b) / 2 < (q + 1) * (r * b),
    ;
}

/// A table whose members all score `r` sums to one `r` per member.
proof fn lemma_sum_scores_all_equal(s: Seq<Option<PeerId>>, m: Map<PeerId, u32>, r: u32)
    requires
        forall|i: int|
            0 <= i < s.len() && (#[trigger] s[i]) is Some ==> score_in(m, s[i]->0) == r,
    ensures
        sum_scores_at(s, m) == members_of(s).len() * r,
    decreases s.len(),
{
    if s.len() > 0 {
        assert(forall|i: int|
            0 <= i < s.skip(1).len() ==> #[trigger] s.skip(1)[i] == s[i + 1]);
        lemma_sum_scores_all_equal(s.skip(1), m, r);
        match s[0] {
            Some(id) => {
                assert(members_of(s).len() == 1 + members_of(s.skip(1)).len());
                assert((1 + members_of(s.skip(1)).len()) * r == r + members_of(s.skip(1)).len()
                    * r) by (nonlinear_arith);
            },
            None => {},
        }
    }
}

/// With every neighbour rated the same positive score, the sum of scores is
/// one score per neighbour, and each normalized score is the fixed-point
/// one divided, with rounding, by the number of neighbours.
pub proof fn lemma_equal_ratings(p: Peer, r: u32)
    requires
        p.wf(),
        r > 0,
        forall|id: PeerId| p.is_neighbour(id) ==> p.score_of(id) == r,
    ensures
        p.sum_of_scores_spec() == members_of(p.slots()).len() * r,
        members_of(p.slots()).len() > 0 ==> normalized_spec(r as int, p.sum_of_scores_spec())
            == div_round(SCALE as int, members_of(p.slots()).len() as int),
{
    assert forall|i: int|
        0 <= i < p.slots().len() && (#[trigger] p.slots()[i]) is Some implies score_in(
        p.scores(),
        p.slots()[i]->0,
    ) == r by {
        assert(p.is_neighbour(p.slots()[i]->0));
    }
    lemma_sum_scores_all_equal(p.slots(), p.scores(), r);
    let n = members_of(p.slots()).len() as int;
    if n > 0 {
        assert(normalized_spec(r as int, n * r) == div_round((r as int) * (SCALE as int), (r
            as int) * n)) by {
            assert((r as int) * (SCALE as int) == (r as int) * (SCALE as int));
            assert(n * r == (r as int) * n) by (nonlinear_arith);
        }
        lemma_div_round_scale(SCALE as int, n, r as int);
    }
}

/// With no neighbour opinions cached for an epoch, the global trust score
/// is exactly the pre-trust score weighted by the pre-trust weight.
pub proof fn lemma_global_score_pre_trust_only(p: Peer, epoch: u64)
    requires
        p.wf(),
        forall|id: PeerId|
            p.is_neighbour(id) ==> (#[trigger] cached_opinion(
                p.neighbour_ops(),
                id,
                epoch,
            )).product == 0,
    ensures
        p.global_score_spec(epoch) == div_round(
            (p.pre_trust_weight_spec() as int) * (p.pre_trust_score_spec() as int),
            SCALE as int,
        ),
{
    assert forall|i: int|
        0 <= i < p.slots().len() implies slot_product(
        #[trigger] p.slots()[i],
        p.neighbour_ops(),
        epoch,
    ) == 0 by {
        match p.slots()[i] {
            Some(id) => {
                assert(p.is_neighbour(id));
                assert(cached_opinion(p.neighbour_ops(), id, epoch).product == 0);
            },
            None => {},
        }
    }
    lemma_sum_products_zero(p.slots(), p.neighbour_ops(), epoch);
}

/// After a propagation pass, the cached local opinion of every neighbour
/// for the next epoch carries the product of the global trust score at the
/// propagated epoch with that neighbour's normalized score.
pub proof fn lemma_local_opinion_product(pre: Peer, post: Peer, k0: u64, id: PeerId)
    requires
        pre.wf(),
        k0 < u64::MAX,
        Peer::propagation_shape(pre, post, k0),
        pre.is_neighbour(id),
    ensures
        cached_opinion(post.local_ops(), id, (k0 + 1) as u64).product == mul_scaled(
            pre.global_score_spec(k0),
            normalized_spec(pre.score_of(id), pre.sum_of_scores_spec()),
        ),
        cached_opinion(post.local_ops(), id, (k0 + 1) as u64).global_trust_score
            == pre.global_score_spec(k0),
        cached_opinion(post.local_ops(), id, (k0 + 1) as u64).local_trust_score
            == normalized_spec(pre.score_of(id), pre.sum_of_scores_spec()),
        cached_opinion(post.local_ops(), id, (k0 + 1) as u64).k == Epoch((k0 + 1) as u64),
{
    assert(cached_opinion(post.local_ops(), id, (k0 + 1) as u64) == pre.issued_opinion(k0, id));
    let g = pre.global_score_spec(k0);
    let sum = pre.sum_of_scores_spec();
    let sc = pre.score_of(id);
    lemma_global_score_bounds(pre, k0);
    let i = choose|i: int| 0 <= i < pre.slots().len() && pre.slots()[i] == Some(id);
    lemma_member_score_le_sum(pre.slots(), pre.scores(), i);
    lemma_sum_scores_nonneg(pre.slots(), pre.scores());
    lemma_normalized_le_scale(sc, sum);
    lemma_mul_scaled_le(g, normalized_spec(sc, sum));
}

} // verus!
