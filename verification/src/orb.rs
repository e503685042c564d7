//! The entity that everything in the system is made of.

use vstd::prelude::*;

use crate::belief;
use crate::belief::ProbabilityField;
use crate::clock::HlcTimestamp;
use crate::doubles;
use crate::encoding;
use crate::encoding::{
    append_edges, append_id, append_ids, append_numbers, append_u32, append_u64, same_digest,
    sort_by_edge,
};
use crate::error::PiriaError;
use crate::float::{Single, SINGLE_ONE};
use crate::fpu;
use crate::fpu::{Arithmetic, Flop, Fpu};
use crate::numeric;
use crate::numeric::{differences_of, l2_norm};
use crate::outside;
use crate::outside::{fresh_id, hex_encode, now_ms, sha256_digest};
use crate::permissions::Permissions;
use crate::relation::RelationRef;
use crate::rounding;
use crate::trust;
use crate::trust::TrustRecord;
use crate::vector;
use crate::vector::SemanticVector;

verus! {

/// The largest number of outgoing relations of an entity, unless another
/// number is set.
pub const DEFAULT_DEGREE_BUDGET: usize = 512;

/// How far (`0.15`) an embedding may move before its entity counts as drifted.
pub const DRIFT_THRESHOLD: u32 = 0x3E19_999A;

// ---------------------------------------------------------------------------
// Life cycle
// ---------------------------------------------------------------------------

/// Where an entity stands in its life cycle.
#[derive(Debug, Clone, Copy, PartialEq, Eq, Structural)]
pub enum SemanticState {
    Active,
    Dormant,
    Compressed,
    Archived,
}

/// Whether the life cycle leads from one state directly to another.
pub open spec fn leads_to(from: SemanticState, to: SemanticState) -> bool {
    match from {
        SemanticState::Active => to != SemanticState::Active,
        SemanticState::Dormant => to != SemanticState::Dormant,
        SemanticState::Compressed => to == SemanticState::Archived,
        SemanticState::Archived => false,
    }
}

/// The number of a state.
pub open spec fn state_code(state: SemanticState) -> u8 {
    match state {
        SemanticState::Active => 0,
        SemanticState::Dormant => 1,
        SemanticState::Compressed => 2,
        SemanticState::Archived => 3,
    }
}

/// The name of a state.
pub open spec fn state_label(state: SemanticState) -> Seq<char> {
    match state {
        SemanticState::Active => "Active"@,
        SemanticState::Dormant => "Dormant"@,
        SemanticState::Compressed => "Compressed"@,
        SemanticState::Archived => "Archived"@,
    }
}

impl SemanticState {
    /// Whether no state follows.
    pub fn is_terminal(&self) -> (result: bool)
        ensures
            result == (*self == SemanticState::Archived),
    {
        matches!(self, SemanticState::Archived)
    }

    /// Whether the life cycle leads from this state directly to `next`.
    pub fn can_transition_to(&self, next: &SemanticState) -> (result: bool)
        ensures
            result == leads_to(*self, *next),
    {
        match self {
            SemanticState::Active => !matches!(next, SemanticState::Active),
            SemanticState::Dormant => !matches!(next, SemanticState::Dormant),
            SemanticState::Compressed => matches!(next, SemanticState::Archived),
            SemanticState::Archived => false,
        }
    }

    /// The number of the state.
    pub fn code(&self) -> (result: u8)
        ensures
            result == state_code(*self),
    {
        match self {
            SemanticState::Active => 0,
            SemanticState::Dormant => 1,
            SemanticState::Compressed => 2,
            SemanticState::Archived => 3,
        }
    }

    /// The name of the state.
    pub fn name(&self) -> (result: String)
        ensures
            result@ == state_label(*self),
    {
        let text = match self {
            SemanticState::Active => "Active",
            SemanticState::Dormant => "Dormant",
            SemanticState::Compressed => "Compressed",
            SemanticState::Archived => "Archived",
        };
        text.to_owned()
    }
}

/// Exactly the archived state has no successor, no state is its own successor,
/// and a compressed entity never becomes active or dormant again.
pub proof fn life_cycle_ends_in_the_archive(from: SemanticState, to: SemanticState)
    ensures
        (from == SemanticState::Archived) <==> (forall|next: SemanticState| !leads_to(from, next)),
        !leads_to(from, from),
        from == SemanticState::Compressed && leads_to(from, to) ==> to == SemanticState::Archived,
{
    if from != SemanticState::Archived {
        assert(leads_to(from, SemanticState::Archived));
    }
}

// ---------------------------------------------------------------------------
// The entity
// ---------------------------------------------------------------------------

/// An entity.
#[derive(Debug)]
pub struct Orb {
    pub identity: u128,
    pub semantic_state: SemanticState,
    /// The embedding.
    pub semantic_vector: SemanticVector,
    /// The embedding at the time of creation.
    pub origin_vector: SemanticVector,
    /// Outgoing relations.
    pub relations: Vec<RelationRef>,
    /// The largest number of outgoing relations.
    pub degree_budget: usize,
    /// The events that made the entity what it is.
    pub event_refs: Vec<u128>,
    pub probability_field: ProbabilityField,
    /// Weighted degree centrality, as of its last computation.
    pub semantic_mass: Single,
    /// Whether the mass has to be computed again.
    pub semantic_mass_dirty: bool,
    /// Entropy of the probability field in bits, as of its last computation.
    pub entropy: Single,
    /// Whether the entropy has to be computed again.
    pub entropy_dirty: bool,
    pub trust: TrustRecord,
    pub permissions: Permissions,
    /// SHA-256 digest of the entity.
    pub integrity_hash: [u8; 32],
    pub created_at: HlcTimestamp,
    pub updated_at: HlcTimestamp,
}

/// What an entity holds.
#[verifier::ext_equal]
pub struct OrbView {
    pub identity: u128,
    pub semantic_state: SemanticState,
    pub semantic_vector: Seq<Single>,
    pub origin_vector: Seq<Single>,
    pub relations: Seq<RelationRef>,
    pub degree_budget: usize,
    pub event_refs: Seq<u128>,
    pub probability_field: Seq<Single>,
    pub semantic_mass: Single,
    pub semantic_mass_dirty: bool,
    pub entropy: Single,
    pub entropy_dirty: bool,
    pub trust: TrustRecord,
    pub permissions: Permissions,
    pub integrity_hash: Seq<u8>,
    pub created_at: HlcTimestamp,
    pub updated_at: HlcTimestamp,
}

impl View for Orb {
    type V = OrbView;

    open spec fn view(&self) -> OrbView {
        OrbView {
            identity: self.identity,
            semantic_state: self.semantic_state,
            semantic_vector: self.semantic_vector@,
            origin_vector: self.origin_vector@,
            relations: self.relations@,
            degree_budget: self.degree_budget,
            event_refs: self.event_refs@,
            probability_field: self.probability_field@,
            semantic_mass: self.semantic_mass,
            semantic_mass_dirty: self.semantic_mass_dirty,
            entropy: self.entropy,
            entropy_dirty: self.entropy_dirty,
            trust: self.trust,
            permissions: self.permissions,
            integrity_hash: self.integrity_hash@,
            created_at: self.created_at,
            updated_at: self.updated_at,
        }
    }
}

/// What comes behind the probability field in the digest.
pub open spec fn tail_bytes(orb: OrbView) -> Seq<u8> {
    vstd::bytes::spec_u32_to_le_bytes(orb.trust.score.bits) + vstd::bytes::spec_u32_to_le_bytes(
        orb.trust.evidence_count,
    ) + vstd::bytes::spec_u64_to_le_bytes(orb.trust.last_updated_ms)
        + vstd::bytes::spec_u64_to_le_bytes(orb.permissions.bits)
        + vstd::bytes::spec_u64_to_le_bytes(orb.degree_budget as u64)
        + vstd::bytes::spec_u64_to_le_bytes(
        orb.created_at.physical_ms,
    ) + vstd::bytes::spec_u32_to_le_bytes(orb.created_at.logical)
        + vstd::bytes::spec_u64_to_le_bytes(orb.updated_at.physical_ms)
        + vstd::bytes::spec_u32_to_le_bytes(orb.updated_at.logical)
}

/// The bytes that the integrity hash is taken of: all but the embedding at
/// creation, and mass and entropy, which are derived from the rest.
pub open spec fn preimage(orb: OrbView) -> Seq<u8> {
    outside::id_bytes(orb.identity) + seq![state_code(orb.semantic_state)]
        + encoding::numbers_bytes(orb.semantic_vector) + encoding::edges_bytes(
        encoding::by_edge(orb.relations),
    ) + encoding::numbers_bytes(orb.probability_field) + encoding::ids_bytes(orb.event_refs)
        + tail_bytes(orb)
}

/// The entity with its integrity hash brought up to date.
pub open spec fn sealed(orb: OrbView) -> OrbView {
    OrbView { integrity_hash: outside::sha256(preimage(orb)), ..orb }
}

/// The integrity hash fits the entity.
pub open spec fn intact(orb: OrbView) -> bool {
    orb.integrity_hash == outside::sha256(preimage(orb))
}

/// An entity as it is created.
pub open spec fn newborn(
    m: Arithmetic,
    identity: u128,
    semantic_vector: Seq<Single>,
    probability_field: Seq<Single>,
    permissions: Permissions,
    created_at: HlcTimestamp,
    now: u64,
) -> OrbView {
    sealed(
        OrbView {
            identity,
            semantic_state: SemanticState::Active,
            semantic_vector,
            origin_vector: semantic_vector,
            relations: Seq::empty(),
            degree_budget: DEFAULT_DEGREE_BUDGET,
            event_refs: Seq::empty(),
            probability_field,
            semantic_mass: Single { bits: 0 },
            semantic_mass_dirty: false,
            entropy: belief::shannon(m, probability_field),
            entropy_dirty: false,
            trust: trust::initial_trust(now),
            permissions,
            integrity_hash: Seq::empty(),
            created_at,
            updated_at: created_at,
        },
    )
}

/// Whether `b` is to be pruned rather than `a`: it weighs less or, where
/// neither weighs less, it was used less recently.
pub open spec fn weaker(a: RelationRef, b: RelationRef) -> bool {
    b.weight.below(a.weight) || (!a.weight.below(b.weight) && b.last_used_ms < a.last_used_ms)
}

/// The position of the relation that is pruned first.
pub open spec fn weakest(relations: Seq<RelationRef>) -> int
    decreases relations.len(),
{
    if relations.len() <= 1 {
        0
    } else {
        let best = weakest(relations.drop_last());
        if weaker(relations[best], relations.last()) {
            relations.len() - 1
        } else {
            best
        }
    }
}

/// The relations without the one that is pruned first; the last one takes its
/// place.
pub open spec fn pruned(relations: Seq<RelationRef>) -> Seq<RelationRef> {
    if relations.len() == 0 {
        relations
    } else {
        relations.update(weakest(relations), relations.last()).drop_last()
    }
}

/// The relations that stay when one more is about to come.
pub open spec fn room_made(relations: Seq<RelationRef>, budget: usize) -> Seq<RelationRef> {
    if relations.len() >= budget {
        pruned(relations)
    } else {
        relations
    }
}

/// An entity that has no room for one more relation: it has lost the weakest one, if
/// it had any.
pub open spec fn crowded(orb: OrbView) -> OrbView {
    if orb.relations.len() == 0 {
        orb
    } else {
        sealed(
            OrbView {
                relations: room_made(orb.relations, orb.degree_budget),
                semantic_mass_dirty: true,
                ..orb
            },
        )
    }
}

/// An entity after observations that were refused: those in front of the refused
/// one have been added, if there are any.
pub open spec fn half_observed(m: Arithmetic, orb: OrbView, observations: Seq<Single>) -> OrbView {
    if observations.len() != orb.probability_field.len() || belief::refusal(observations) == 0 {
        orb
    } else {
        sealed(
            OrbView {
                probability_field: belief::observed(m, orb.probability_field, observations),
                entropy_dirty: true,
                ..orb
            },
        )
    }
}

/// The relations without those of an edge identifier.
pub open spec fn without_edge(relations: Seq<RelationRef>, edge_id: u128) -> Seq<RelationRef> {
    relations.filter(|r: RelationRef| r.edge_id != edge_id)
}

/// Trust times weight, for each relation.
pub open spec fn pulls(m: Arithmetic, relations: Seq<RelationRef>) -> Seq<Single> {
    Seq::new(
        relations.len(),
        |i: int| fpu::product(m, relations[i].trust_at_creation, relations[i].weight),
    )
}

/// The mass of an entity: its relations' trust and weight, as a share of its
/// degree budget, at most one and never negative.
pub open spec fn mass_of(m: Arithmetic, relations: Seq<RelationRef>, budget: usize) -> Single {
    if budget == 0 {
        Single { bits: 0 }
    } else {
        fpu::quotient(m, numeric::total(m, pulls(m, relations)), fpu::single_of(m, budget as u64)).smaller(
            Single { bits: SINGLE_ONE },
        ).larger(Single { bits: 0 })
    }
}

/// The distance of an entity from where it was created: the length of the
/// difference.
pub open spec fn drift_of(m: Arithmetic, orb: OrbView) -> Single {
    numeric::length(m, numeric::differences(m, orb.semantic_vector, orb.origin_vector))
}

/// Whether a mass is that of an entity with these relations: nothing without a budget, and
/// else in arithmetic that rounds the exact sum of trust times weight over all relations,
/// divided by the budget and forced between zero and one, but for rounding.
pub open spec fn weighs(
    m: Arithmetic,
    relations: Seq<RelationRef>,
    budget: usize,
    mass: Single,
) -> bool {
    let trusts = relations.map_values(|r: RelationRef| r.trust_at_creation);
    let weights = relations.map_values(|r: RelationRef| r.weight);
    let pull = rounding::dot(trusts, weights);
    &&& budget == 0 ==> mass == (Single { bits: 0 })
    &&& budget > 0 && rounding::rounds(m) && doubles::rounds_wide(m) && vector::measurable(
        trusts,
        weights,
    ) ==> {
        &&& mass.finite()
        &&& rounding::size(
            rounding::value(mass) - rounding::between(
                pull / (budget as real),
                0 as real,
                1 as real,
            ),
        ) <= (2 as real * rounding::dot_error(
            relations.len(),
            rounding::dot_size(trusts, weights),
        ) + 4 as real * rounding::slip() * rounding::size(pull)) / (budget as real)
            + rounding::speck()
    }
}

/// The mass of an entity is its relations' pull as a share of its budget.
pub proof fn mass_is_the_pull_of_relations(
    m: Arithmetic,
    relations: Seq<RelationRef>,
    budget: usize,
)
    ensures
        weighs(m, relations, budget, mass_of(m, relations, budget)),
{
    let trusts = relations.map_values(|r: RelationRef| r.trust_at_creation);
    let weights = relations.map_values(|r: RelationRef| r.weight);
    if budget > 0 && rounding::rounds(m) && doubles::rounds_wide(m) && vector::measurable(
        trusts,
        weights,
    ) {
        rounding::lemma_constants();
        rounding::lemma_extremes();
        assert(pulls(m, relations) =~= numeric::products(m, trusts, weights));
        rounding::lemma_inner(m, trusts, weights);
        rounding::lemma_dot_size(trusts, weights);
        let n = relations.len() as real;
        let heap = rounding::dot_size(trusts, weights);
        let error = rounding::dot_error(relations.len(), heap);
        let t = rounding::speck();
        let u = rounding::slip();
        assert(0 as real <= error <= heap / 2 as real + heap / 1000 as real + 1 as real) by (
            nonlinear_arith)
            requires
                error == (2 as real * n + 2 as real) * u * heap + 2 as real * n * t,
                u == 1 as real / 16777216 as real,
                0 as real <= n <= 4000000 as real,
                heap >= 0 as real,
                0 as real <= t,
                t * 10000000000000000000000000000000000000000 as real <= 1 as real,
        ;
        let sum = numeric::inner(m, trusts, weights);
        doubles::lemma_shared_out(
            m,
            sum,
            rounding::dot(trusts, weights),
            error,
            budget as u64,
        );
        let quotient = fpu::quotient(m, sum, fpu::single_of(m, budget as u64));
        let (zero, one) = (Single { bits: 0 }, Single { bits: SINGLE_ONE });
        rounding::lemma_clamped(quotient, zero, one);
        rounding::lemma_clamped(quotient.smaller(one), zero, one);
    }
}

/// Whether a drift is that of an entity: the distance of its embedding from where it was
/// at creation, but for rounding.
pub open spec fn strays(m: Arithmetic, orb: OrbView, drift: Single) -> bool {
    let (a, b) = (orb.semantic_vector, orb.origin_vector);
    let square = rounding::value(drift) * rounding::value(drift);
    rounding::rounds(m) && a.len() == b.len() <= 1536 && rounding::all_finite(a)
        && rounding::all_finite(b) && 1 as real / 1000000000000000 as real <= vector::apart(a, b)
        <= 100000 as real ==> {
        &&& drift.finite()
        &&& rounding::value(drift) >= 0 as real
        &&& vector::apart(a, b) * 999 as real / 1000 as real <= square
        &&& square <= vector::apart(a, b) * 1001 as real / 1000 as real
    }
}

/// Drift is the distance from where an entity was created.
pub proof fn drift_is_the_distance_from_the_origin(m: Arithmetic, orb: OrbView)
    ensures
        strays(m, orb, drift_of(m, orb)),
{
    let (a, b) = (orb.semantic_vector, orb.origin_vector);
    if rounding::rounds(m) && a.len() == b.len() <= 1536 && rounding::all_finite(a)
        && rounding::all_finite(b) && 1 as real / 1000000000000000 as real <= vector::apart(a, b)
        <= 100000 as real {
        vector::differences_have_the_distance(m, a, b);
    }
}

/// Whether what an entity remembers of its mass and its entropy is not stale: unless they
/// are to be computed again, they are those of its relations and its probability field.
pub open spec fn up_to_date(m: Arithmetic, orb: OrbView) -> bool {
    &&& !orb.semantic_mass_dirty ==> weighs(
        m,
        orb.relations,
        orb.degree_budget,
        orb.semantic_mass,
    )
    &&& !orb.entropy_dirty ==> orb.entropy == belief::shannon(m, orb.probability_field)
}

/// Whether an entity is still the same one: what it is, where it began, and who may do what
/// has not changed.
pub open spec fn same_entity(before: OrbView, after: OrbView) -> bool {
    &&& after.identity == before.identity
    &&& after.origin_vector == before.origin_vector
    &&& after.degree_budget == before.degree_budget
    &&& after.permissions == before.permissions
    &&& after.created_at == before.created_at
}

/// Whether an entity is only beginning: it is active, lies where it was made, has neither
/// relations nor events, and was last changed when it was created.
pub open spec fn begins(
    orb: OrbView,
    semantic_vector: Seq<Single>,
    probability_field: Seq<Single>,
    permissions: Permissions,
    created_at: HlcTimestamp,
) -> bool {
    &&& orb.semantic_state == SemanticState::Active
    &&& orb.semantic_vector == semantic_vector && orb.origin_vector == semantic_vector
    &&& orb.relations.len() == 0 && orb.event_refs.len() == 0
    &&& orb.degree_budget == 512
    &&& orb.probability_field == probability_field
    &&& orb.permissions == permissions
    &&& orb.created_at == created_at && orb.updated_at == created_at
    &&& orb.trust.evidence_count == 1
}

/// An entity without relations weighs nothing.
proof fn lemma_weightless(m: Arithmetic, budget: usize)
    ensures
        weighs(m, Seq::empty(), budget, Single { bits: 0 }),
{
    rounding::lemma_constants();
    rounding::lemma_extremes();
    let relations = Seq::<RelationRef>::empty();
    let trusts = relations.map_values(|r: RelationRef| r.trust_at_creation);
    let weights = relations.map_values(|r: RelationRef| r.weight);
    assert(rounding::dot(trusts, weights) == 0 as real);
    assert(rounding::dot_size(trusts, weights) == 0 as real);
    let u = rounding::slip();
    let t = rounding::speck();
    assert(rounding::dot_error(0, 0 as real) == 0 as real) by (nonlinear_arith)
        requires
            rounding::dot_error(0, 0 as real) == (2 as real * (0 as real) + 2 as real) * u * 0 as real
                + 2 as real * (0 as real) * t,
    ;
    if budget > 0 {
        let n = budget as real;
        assert(0 as real / n == 0 as real) by (nonlinear_arith)
            requires
                n > 0 as real,
        ;
        assert((2 as real * 0 as real + 4 as real * u * 0 as real) / n == 0 as real) by (
            nonlinear_arith)
            requires
                n > 0 as real,
        ;
    }
}

/// What is remembered of a new entity is not stale.
pub proof fn newborns_are_up_to_date(
    m: Arithmetic,
    identity: u128,
    semantic_vector: Seq<Single>,
    probability_field: Seq<Single>,
    permissions: Permissions,
    created_at: HlcTimestamp,
    now: u64,
)
    ensures
        up_to_date(
            m,
            newborn(
                m,
                identity,
                semantic_vector,
                probability_field,
                permissions,
                created_at,
                now,
            ),
        ),
{
    lemma_weightless(m, DEFAULT_DEGREE_BUDGET);
}

/// Removing an edge takes away its relations and no other one.
pub proof fn removal_takes_the_edge_alone(
    relations: Seq<RelationRef>,
    edge_id: u128,
    relation: RelationRef,
)
    ensures
        without_edge(relations, edge_id).contains(relation) <==> relations.contains(relation)
            && relation.edge_id != edge_id,
        without_edge(relations, edge_id).len() <= relations.len(),
{
    let keep = |r: RelationRef| r.edge_id != edge_id;
    let kept = relations.filter(keep);
    relations.lemma_filter_len(keep);
    if kept.contains(relation) {
        let k = choose|k: int| 0 <= k < kept.len() && kept[k] == relation;
        relations.lemma_filter_pred(keep, k);
        relations.lemma_filter_contains_rev(keep, relation);
        assert(keep(kept[k]));
    }
    if relations.contains(relation) && relation.edge_id != edge_id {
        let k = choose|k: int| 0 <= k < relations.len() && relations[k] == relation;
        assert(keep(relations[k]));
        relations.lemma_filter_contains(keep, k);
    }
}

proof fn lemma_weakest_in_range(relations: Seq<RelationRef>)
    requires
        relations.len() > 0,
    ensures
        0 <= weakest(relations) < relations.len(),
    decreases relations.len(),
{
    if relations.len() > 1 {
        lemma_weakest_in_range(relations.drop_last());
    }
}

/// The relation that is pruned weighs no more than any other and, among those
/// of the same weight, is the one that was used least recently.
pub proof fn pruning_takes_the_weakest(relations: Seq<RelationRef>, i: int)
    requires
        0 <= i < relations.len(),
        forall|j: int| 0 <= j < relations.len() ==> !(#[trigger] relations[j]).weight.nan(),
    ensures
        0 <= weakest(relations) < relations.len(),
        relations[weakest(relations)].weight.at_most(relations[i].weight),
        relations[weakest(relations)].weight.equals(relations[i].weight)
            ==> relations[weakest(relations)].last_used_ms <= relations[i].last_used_ms,
    decreases relations.len(),
{
    lemma_weakest_in_range(relations);
    if relations.len() > 1 {
        let shorter = relations.drop_last();
        lemma_weakest_in_range(shorter);
        assert(forall|j: int| 0 <= j < shorter.len() ==> shorter[j] == relations[j]);
        assert(!relations[weakest(shorter)].weight.nan());
        assert(!relations.last().weight.nan());
        if i < shorter.len() {
            pruning_takes_the_weakest(shorter, i);
        }
    }
}

/// Pruning takes exactly one relation away.
pub proof fn pruning_keeps_the_others(relations: Seq<RelationRef>)
    requires
        relations.len() > 0,
    ensures
        pruned(relations).to_multiset() == relations.to_multiset().remove(
            relations[weakest(relations)],
        ),
        pruned(relations).len() == relations.len() - 1,
{
    broadcast use vstd::seq_lib::group_to_multiset_ensures;

    lemma_weakest_in_range(relations);
    let w = weakest(relations);
    let last = relations.last();
    let body = relations.drop_last();
    assert(relations =~= body.push(last));
    if w == relations.len() - 1 {
        assert(pruned(relations) =~= body);
        assert(body.to_multiset() =~= relations.to_multiset().remove(last));
    } else {
        assert(pruned(relations) =~= body.update(w, last));
        assert(body.update(w, last).to_multiset() =~= body.to_multiset().insert(last).remove(
            body[w],
        ));
        assert(body.contains(body[w]));
        assert(relations.to_multiset() =~= body.to_multiset().insert(last));
    }
}

proof fn lemma_filter_step(relations: Seq<RelationRef>, edge_id: u128, i: int)
    requires
        0 <= i < relations.len(),
    ensures
        without_edge(relations.take(i + 1), edge_id) == (if relations[i].edge_id != edge_id {
            without_edge(relations.take(i), edge_id).push(relations[i])
        } else {
            without_edge(relations.take(i), edge_id)
        }),
{
    reveal(Seq::filter);
    assert(relations.take(i + 1).drop_last() =~= relations.take(i));
}

impl Orb {
    /// A new entity with the given identifier, trusted from `now` on.
    pub fn with_identity<F: Fn(Flop) -> u64>(
        fpu: &Fpu<F>,
        identity: u128,
        semantic_vector: SemanticVector,
        probability_field: ProbabilityField,
        permissions: Permissions,
        created_at: HlcTimestamp,
        now: u64,
    ) -> (orb: Orb)
        ensures
            orb@ == newborn(
                fpu@,
                identity,
                semantic_vector@,
                probability_field@,
                permissions,
                created_at,
                now,
            ),
            up_to_date(fpu@, orb@),
            begins(
                orb@,
                semantic_vector@,
                probability_field@,
                permissions,
                created_at,
            ),
    {
        proof {
            lemma_weightless(fpu@, DEFAULT_DEGREE_BUDGET);
        }
        let entropy = probability_field.entropy_bits(fpu);
        let origin_vector = semantic_vector.clone();
        let mut orb = Orb {
            identity,
            semantic_state: SemanticState::Active,
            semantic_vector,
            origin_vector,
            relations: Vec::new(),
            degree_budget: DEFAULT_DEGREE_BUDGET,
            event_refs: Vec::new(),
            probability_field,
            semantic_mass: Single::zero(),
            semantic_mass_dirty: false,
            entropy,
            entropy_dirty: false,
            trust: TrustRecord::initial_at(now),
            permissions,
            integrity_hash: [0u8;32],
            created_at,
            updated_at: created_at,
        };
        orb.integrity_hash = orb.compute_integrity_hash();
        orb
    }

    /// A new entity with an identifier of its own.
    pub fn new<F: Fn(Flop) -> u64>(
        fpu: &Fpu<F>,
        semantic_vector: SemanticVector,
        probability_field: ProbabilityField,
        permissions: Permissions,
        created_at: HlcTimestamp,
    ) -> (orb: Orb)
        ensures
            orb@ == newborn(
                fpu@,
                orb.identity,
                semantic_vector@,
                probability_field@,
                permissions,
                created_at,
                orb.trust.last_updated_ms,
            ),
            intact(orb@),
            up_to_date(fpu@, orb@),
            begins(
                orb@,
                semantic_vector@,
                probability_field@,
                permissions,
                created_at,
            ),
            outside::time_ordered(orb.identity),
    {
        let identity: u128 = fresh_id();
        let now: u64 = now_ms();
        Orb::with_identity(
            fpu,
            identity,
            semantic_vector,
            probability_field,
            permissions,
            created_at,
            now,
        )
    }

    /// Moves on in the life cycle, where it leads there.
    pub fn transition_to(&mut self, next: SemanticState, updated_at: HlcTimestamp) -> (result:
        Result<(), PiriaError>)
        ensures
            result is Ok <==> leads_to(old(self).semantic_state, next),
            result is Ok ==> final(self)@ == sealed(
                OrbView { semantic_state: next, updated_at, ..old(self)@ },
            ),
            result matches Err(error) ==> final(self)@ == old(self)@ && error == (
            PiriaError::InvalidStateTransition { from: old(self).semantic_state, to: next }),
            intact(old(self)@) ==> intact(final(self)@),
            forall|m: Arithmetic| #[trigger]
                up_to_date(m, old(self)@) ==> up_to_date(m, final(self)@),
            same_entity(old(self)@, final(self)@),
    {
        if !self.semantic_state.can_transition_to(&next) {
            return Err(
                PiriaError::InvalidStateTransition { from: self.semantic_state, to: next },
            );
        }
        self.semantic_state = next;
        self.updated_at = updated_at;
        self.integrity_hash = self.compute_integrity_hash();
        Ok(())
    }

    /// Replaces the embedding.
    pub fn update_vector(&mut self, new_vector: SemanticVector, updated_at: HlcTimestamp)
        ensures
            final(self)@ == sealed(
                OrbView {
                    semantic_vector: new_vector@,
                    updated_at,
                    semantic_mass_dirty: true,
                    ..old(self)@
                },
            ),
            intact(final(self)@),
            forall|m: Arithmetic| #[trigger]
                up_to_date(m, old(self)@) ==> up_to_date(m, final(self)@),
            same_entity(old(self)@, final(self)@),
    {
        self.semantic_vector = new_vector;
        self.updated_at = updated_at;
        self.semantic_mass_dirty = true;
        self.integrity_hash = self.compute_integrity_hash();
    }

    /// The distance of the embedding from where it was at creation.
    pub fn drift<F: Fn(Flop) -> u64>(&self, fpu: &Fpu<F>) -> (result: Single)
        ensures
            result == drift_of(fpu@, self@),
            strays(fpu@, self@, result),
    {
        proof {
            drift_is_the_distance_from_the_origin(fpu@, self@);
        }
        let difference = differences_of(
            fpu,
            self.semantic_vector.0.as_slice(),
            self.origin_vector.0.as_slice(),
        );
        l2_norm(fpu, difference.as_slice())
    }

    /// Whether the embedding moved beyond the threshold.
    pub fn has_drifted<F: Fn(Flop) -> u64>(&self, fpu: &Fpu<F>) -> (result: bool)
        ensures
            result == (Single { bits: DRIFT_THRESHOLD }).below(drift_of(fpu@, self@)),
    {
        Single::from_bits(DRIFT_THRESHOLD).lt(&self.drift(fpu))
    }

    /// Adds a relation. Where the budget is used up, the weakest one goes first;
    /// where that is not enough, the new one is refused, and the weakest one is gone
    /// all the same.
    pub fn add_relation(&mut self, relation: RelationRef, updated_at: HlcTimestamp) -> (result:
        Result<(), PiriaError>)
        ensures
            ({
                let kept = room_made(old(self)@.relations, old(self).degree_budget);
                &&& result is Ok <==> kept.len() < old(self).degree_budget
                &&& result is Ok ==> final(self)@ == sealed(
                    OrbView {
                        relations: kept.push(relation),
                        updated_at,
                        semantic_mass_dirty: true,
                        ..old(self)@
                    },
                )
                &&& result matches Err(error) ==> final(self)@ == crowded(old(self)@) && error == (
                PiriaError::DegreeBudgetExceeded {
                    orb_id: old(self).identity,
                    budget: old(self).degree_budget,
                })
            }),
            intact(old(self)@) ==> intact(final(self)@),
            forall|m: Arithmetic| #[trigger]
                up_to_date(m, old(self)@) ==> up_to_date(m, final(self)@),
            same_entity(old(self)@, final(self)@),
    {
        let any = self.relations.len() > 0;
        if self.relations.len() >= self.degree_budget {
            self.prune_lowest_weight_relation();
        }
        if self.relations.len() >= self.degree_budget {
            if any {
                self.semantic_mass_dirty = true;
                self.integrity_hash = self.compute_integrity_hash();
            }
            return Err(
                PiriaError::DegreeBudgetExceeded {
                    orb_id: self.identity,
                    budget: self.degree_budget,
                },
            );
        }
        self.relations.push(relation);
        self.updated_at = updated_at;
        self.semantic_mass_dirty = true;
        self.integrity_hash = self.compute_integrity_hash();
        Ok(())
    }

    /// Removes the relations with an edge identifier, and says whether there
    /// were any.
    pub fn remove_relation(&mut self, edge_id: u128, updated_at: HlcTimestamp) -> (removed: bool)
        ensures
            removed == (exists|i: int|
                0 <= i < old(self)@.relations.len() && (
                #[trigger] old(self)@.relations[i]).edge_id == edge_id),
            removed ==> final(self)@ == sealed(
                OrbView {
                    relations: without_edge(old(self)@.relations, edge_id),
                    updated_at,
                    semantic_mass_dirty: true,
                    ..old(self)@
                },
            ),
            !removed ==> final(self)@ == old(self)@,
            intact(old(self)@) ==> intact(final(self)@),
            forall|m: Arithmetic| #[trigger]
                up_to_date(m, old(self)@) ==> up_to_date(m, final(self)@),
            same_entity(old(self)@, final(self)@),
    {
        let mut kept: Vec<RelationRef> = Vec::new();
        let mut removed = false;
        let mut i: usize = 0;
        assert(without_edge(self@.relations.take(0), edge_id) =~= Seq::<RelationRef>::empty()) by {
            reveal(Seq::filter);
        }
        while i < self.relations.len()
            invariant
                i <= self.relations@.len(),
                *self == *old(self),
                kept@ == without_edge(self@.relations.take(i as int), edge_id),
                removed == (exists|j: int|
                    0 <= j < i && (#[trigger] old(self)@.relations[j]).edge_id == edge_id),
                !removed ==> kept@ == self@.relations.take(i as int),
            decreases self.relations@.len() - i,
        {
            proof {
                lemma_filter_step(self@.relations, edge_id, i as int);
            }
            let relation = self.relations[i];
            if relation.edge_id != edge_id {
                kept.push(relation);
            } else {
                removed = true;
                assert(old(self)@.relations[i as int].edge_id == edge_id);
            }
            assert(!removed ==> kept@ =~= self@.relations.take(i + 1));
            i += 1;
        }
        assert(self@.relations.take(i as int) =~= self@.relations);
        if removed {
            self.relations = kept;
            self.updated_at = updated_at;
            self.semantic_mass_dirty = true;
            self.integrity_hash = self.compute_integrity_hash();
        }
        removed
    }

    /// Removes the weakest relation, if there is one.
    fn prune_lowest_weight_relation(&mut self)
        ensures
            final(self)@ == (OrbView { relations: pruned(old(self)@.relations), ..old(self)@ }),
    {
        if self.relations.is_empty() {
            return ;
        }
        let mut best: usize = 0;
        let mut i: usize = 1;
        while i < self.relations.len()
            invariant
                1 <= i <= self.relations@.len(),
                best < i,
                best == weakest(self.relations@.take(i as int)),
                *self == *old(self),
            decreases self.relations@.len() - i,
        {
            assert(self.relations@.take(i + 1).drop_last() =~= self.relations@.take(i as int));
            assert(self.relations@.take(i + 1)[best as int] == self.relations@[best as int]);
            let a = self.relations[best];
            let b = self.relations[i];
            if b.weight.lt(&a.weight) || (!a.weight.lt(&b.weight) && b.last_used_ms
                < a.last_used_ms) {
                best = i;
            }
            i += 1;
        }
        assert(self.relations@.take(i as int) =~= self.relations@);
        self.relations.swap_remove(best);
    }

    /// The entropy of the probability field, in bits.
    pub fn entropy<F: Fn(Flop) -> u64>(&mut self, fpu: &Fpu<F>) -> (result: Single)
        ensures
            result == (if old(self).entropy_dirty {
                belief::shannon(fpu@, old(self)@.probability_field)
            } else {
                old(self).entropy
            }),
            final(self)@ == (OrbView { entropy: result, entropy_dirty: false, ..old(self)@ }),
            intact(old(self)@) ==> intact(final(self)@),
            up_to_date(fpu@, old(self)@) ==> up_to_date(fpu@, final(self)@),
            same_entity(old(self)@, final(self)@),
            up_to_date(fpu@, old(self)@) ==> result == belief::shannon(
                fpu@,
                old(self)@.probability_field,
            ),
    {
        if self.entropy_dirty {
            self.entropy = self.probability_field.entropy_bits(fpu);
            self.entropy_dirty = false;
        }
        self.entropy
    }

    /// Adds observations to the probability field. Where one of them is negative,
    /// the update is refused, but those in front of it have been added.
    pub fn update_probability_field<F: Fn(Flop) -> u64>(
        &mut self,
        fpu: &Fpu<F>,
        observations: &[Single],
        updated_at: HlcTimestamp,
    ) -> (result: Result<(), PiriaError>)
        ensures
            ({
                let before = old(self)@.probability_field;
                &&& result is Ok <==> observations@.len() == before.len() && belief::refusal(
                    observations@,
                ) == observations@.len()
                &&& result is Ok ==> final(self)@ == sealed(
                    OrbView {
                        probability_field: belief::observed(fpu@, before, observations@),
                        entropy_dirty: true,
                        updated_at,
                        ..old(self)@
                    },
                )
                &&& result matches Err(error) ==> final(self)@ == half_observed(
                    fpu@,
                    old(self)@,
                    observations@,
                ) && error == (PiriaError::InvalidProbabilityField {
                    categories: observations@.len() as usize,
                })
            }),
            intact(old(self)@) ==> intact(final(self)@),
            up_to_date(fpu@, old(self)@) ==> up_to_date(fpu@, final(self)@),
            same_entity(old(self)@, final(self)@),
    {
        proof {
            belief::lemma_refusal(observations@);
        }
        let fits = observations.len() == self.probability_field.categories();
        match self.probability_field.observe(fpu, observations) {
            Err(error) => {
                if fits && Single::zero().le(&observations[0]) {
                    self.entropy_dirty = true;
                    self.integrity_hash = self.compute_integrity_hash();
                } else {
                    assert(fits ==> belief::observed(
                        fpu@,
                        old(self)@.probability_field,
                        observations@,
                    ) =~= old(self)@.probability_field);
                }
                Err(error)
            },
            Ok(()) => {
                self.entropy_dirty = true;
                self.updated_at = updated_at;
                self.integrity_hash = self.compute_integrity_hash();
                Ok(())
            },
        }
    }

    /// Computes the mass.
    pub fn recompute_semantic_mass<F: Fn(Flop) -> u64>(&mut self, fpu: &Fpu<F>)
        ensures
            final(self)@ == (OrbView {
                semantic_mass: mass_of(fpu@, old(self)@.relations, old(self).degree_budget),
                semantic_mass_dirty: false,
                ..old(self)@
            }),
            final(self)@.semantic_mass.in_unit(),
            weighs(
                fpu@,
                old(self)@.relations,
                old(self).degree_budget,
                final(self)@.semantic_mass,
            ),
            intact(old(self)@) ==> intact(final(self)@),
            up_to_date(fpu@, old(self)@) ==> up_to_date(fpu@, final(self)@),
            same_entity(old(self)@, final(self)@),
    {
        proof {
            mass_is_the_pull_of_relations(fpu@, self@.relations, self.degree_budget);
        }
        if self.degree_budget == 0 {
            self.semantic_mass = Single::zero();
        } else {
            let ghost terms = pulls(fpu@, self@.relations);
            let mut sum = Single::zero();
            let mut i: usize = 0;
            while i < self.relations.len()
                invariant
                    i <= self.relations@.len(),
                    *self == *old(self),
                    terms == pulls(fpu@, self@.relations),
                    sum == numeric::total(fpu@, terms.take(i as int)),
                decreases self.relations@.len() - i,
            {
                proof {
                    numeric::lemma_total_step(fpu@, terms, i as int);
                }
                let relation = self.relations[i];
                sum = fpu.add(sum, fpu.mul(relation.trust_at_creation, relation.weight));
                i += 1;
            }
            assert(terms.take(i as int) =~= terms);
            self.semantic_mass = fpu.div(sum, fpu.from_int(self.degree_budget as u64)).min(
                &Single::one(),
            ).max(&Single::zero());
        }
        self.semantic_mass_dirty = false;
    }

    /// The mass, computed again where something that it depends on may have
    /// changed.
    pub fn semantic_mass<F: Fn(Flop) -> u64>(&mut self, fpu: &Fpu<F>) -> (result: Single)
        ensures
            result == (if old(self).semantic_mass_dirty {
                mass_of(fpu@, old(self)@.relations, old(self).degree_budget)
            } else {
                old(self).semantic_mass
            }),
            final(self)@ == (OrbView {
                semantic_mass: result,
                semantic_mass_dirty: false,
                ..old(self)@
            }),
            intact(old(self)@) ==> intact(final(self)@),
            up_to_date(fpu@, old(self)@) ==> up_to_date(fpu@, final(self)@),
            same_entity(old(self)@, final(self)@),
            up_to_date(fpu@, old(self)@) ==> weighs(
                fpu@,
                old(self)@.relations,
                old(self).degree_budget,
                result,
            ),
    {
        if self.semantic_mass_dirty {
            self.recompute_semantic_mass(fpu);
        }
        self.semantic_mass
    }

    /// Revises the trust as it stands at `now`, and marks it as changed at
    /// `done`. Where the revised score is refused, only the evidence counts.
    pub fn update_trust_at<F: Fn(Flop) -> u64>(
        &mut self,
        fpu: &Fpu<F>,
        observation_weight: Single,
        outcome: Single,
        learning_rate: Single,
        updated_at: HlcTimestamp,
        now: u64,
        done: u64,
    ) -> (result: Result<(), PiriaError>)
        ensures
            ({
                let before = old(self).trust;
                let candidate = trust::revised(
                    fpu@,
                    trust::effective(fpu@, before, now),
                    observation_weight,
                    outcome,
                    learning_rate,
                );
                let evidence = trust::more_evidence(before.evidence_count);
                let ceiling = trust::ceiling_of(fpu@, evidence);
                &&& result is Err <==> trust::above_ceiling(fpu@, candidate, ceiling)
                &&& result is Ok ==> final(self)@ == sealed(
                    OrbView {
                        trust: TrustRecord {
                            score: candidate.smaller(ceiling),
                            evidence_count: evidence,
                            last_updated_ms: done,
                        },
                        updated_at,
                        ..old(self)@
                    },
                )
                &&& result matches Err(error) ==> final(self)@ == sealed(
                    OrbView {
                        trust: TrustRecord { evidence_count: evidence, ..before },
                        ..old(self)@
                    },
                ) && error == (PiriaError::TrustCeilingViolated {
                    orb_id: old(self).identity,
                    trust: candidate,
                    ceiling,
                })
            }),
            trust::reconsidered(
                fpu@,
                old(self).trust,
                observation_weight,
                outcome,
                learning_rate,
                now,
                final(self).trust,
                result is Ok,
            ),
            intact(final(self)@),
            forall|m: Arithmetic| #[trigger]
                up_to_date(m, old(self)@) ==> up_to_date(m, final(self)@),
            same_entity(old(self)@, final(self)@),
    {
        let identity: u128 = self.identity;
        match self.trust.update_at(
            fpu,
            observation_weight,
            outcome,
            learning_rate,
            identity,
            now,
            done,
        ) {
            Err(error) => {
                self.integrity_hash = self.compute_integrity_hash();
                Err(error)
            },
            Ok(()) => {
                self.updated_at = updated_at;
                self.integrity_hash = self.compute_integrity_hash();
                Ok(())
            },
        }
    }

    /// Revises the trust now.
    pub fn update_trust<F: Fn(Flop) -> u64>(
        &mut self,
        fpu: &Fpu<F>,
        observation_weight: Single,
        outcome: Single,
        learning_rate: Single,
        updated_at: HlcTimestamp,
    ) -> (result: Result<(), PiriaError>)
        ensures
            exists|now: u64|
                {
                    let before = old(self).trust;
                    let candidate = trust::revised(
                        fpu@,
                        #[trigger] trust::effective(fpu@, old(self).trust, now),
                        observation_weight,
                        outcome,
                        learning_rate,
                    );
                    let evidence = trust::more_evidence(before.evidence_count);
                    let ceiling = trust::ceiling_of(fpu@, evidence);
                    &&& result is Err <==> trust::above_ceiling(fpu@, candidate, ceiling)
                    &&& result is Ok ==> final(self)@ == sealed(
                        OrbView {
                            trust: TrustRecord {
                                score: candidate.smaller(ceiling),
                                evidence_count: evidence,
                                last_updated_ms: final(self).trust.last_updated_ms,
                            },
                            updated_at,
                            ..old(self)@
                        },
                    )
                    &&& result matches Err(error) ==> final(self)@ == sealed(
                        OrbView {
                            trust: TrustRecord { evidence_count: evidence, ..before },
                            ..old(self)@
                        },
                    ) && error == (PiriaError::TrustCeilingViolated {
                        orb_id: old(self).identity,
                        trust: candidate,
                        ceiling,
                    })
                },
            exists|now: u64| #[trigger]
                trust::reconsidered(
                    fpu@,
                    old(self).trust,
                    observation_weight,
                    outcome,
                    learning_rate,
                    now,
                    final(self).trust,
                    result is Ok,
                ),
            intact(final(self)@),
            forall|m: Arithmetic| #[trigger]
                up_to_date(m, old(self)@) ==> up_to_date(m, final(self)@),
            same_entity(old(self)@, final(self)@),
    {
        let now: u64 = now_ms();
        let done: u64 = now_ms();
        let ghost witness = trust::effective(fpu@, self.trust, now);
        self.update_trust_at(
            fpu,
            observation_weight,
            outcome,
            learning_rate,
            updated_at,
            now,
            done,
        )
    }

    /// The digest of the entity.
    fn compute_integrity_hash(&self) -> (digest: [u8; 32])
        ensures
            digest@ == outside::sha256(preimage(self@)),
    {
        let mut bytes: Vec<u8> = Vec::new();
        append_id(&mut bytes, self.identity);
        bytes.push(self.semantic_state.code());
        append_numbers(&mut bytes, &self.semantic_vector.0);
        let sorted = sort_by_edge(&self.relations);
        append_edges(&mut bytes, &sorted);
        append_numbers(&mut bytes, &self.probability_field.alpha);
        append_ids(&mut bytes, &self.event_refs);
        let ghost head = bytes@;
        append_u32(&mut bytes, self.trust.score.bits);
        append_u32(&mut bytes, self.trust.evidence_count);
        append_u64(&mut bytes, self.trust.last_updated_ms);
        append_u64(&mut bytes, self.permissions.bits);
        append_u64(&mut bytes, self.degree_budget as u64);
        append_u64(&mut bytes, self.created_at.physical_ms);
        append_u32(&mut bytes, self.created_at.logical);
        append_u64(&mut bytes, self.updated_at.physical_ms);
        append_u32(&mut bytes, self.updated_at.logical);
        assert(bytes@ =~= head + tail_bytes(self@));
        assert(bytes@ =~= preimage(self@));
        sha256_digest(&bytes)
    }

    /// Checks the integrity hash.
    pub fn verify_integrity(&self) -> (result: Result<(), PiriaError>)
        ensures
            result is Ok <==> intact(self@),
            result matches Err(error) ==> (error matches PiriaError::IntegrityHashMismatch {
                orb_id,
                stored,
                computed,
            } && orb_id == self.identity && stored@ == outside::hex_text(self.integrity_hash@)
                && computed@ == outside::hex_text(outside::sha256(preimage(self@)))),
    {
        let computed = self.compute_integrity_hash();
        if !same_digest(&computed, &self.integrity_hash) {
            return Err(
                PiriaError::IntegrityHashMismatch {
                    orb_id: self.identity,
                    stored: hex_encode(&self.integrity_hash),
                    computed: hex_encode(&computed),
                },
            );
        }
        Ok(())
    }

    /// Notes an event that the entity took part in.
    pub fn record_event(&mut self, event_id: u128)
        ensures
            final(self)@ == sealed(
                OrbView { event_refs: old(self)@.event_refs.push(event_id), ..old(self)@ },
            ),
            intact(final(self)@),
            forall|m: Arithmetic| #[trigger]
                up_to_date(m, old(self)@) ==> up_to_date(m, final(self)@),
            same_entity(old(self)@, final(self)@),
    {
        self.event_refs.push(event_id);
        self.integrity_hash = self.compute_integrity_hash();
    }
}

impl Clone for Orb {
    fn clone(&self) -> (copy: Self)
        ensures
            copy@ == self@,
    {
        let relations = self.relations.clone();
        let event_refs = self.event_refs.clone();
        assert(relations@ =~= self.relations@);
        assert(event_refs@ =~= self.event_refs@);
        Orb {
            identity: self.identity,
            semantic_state: self.semantic_state,
            semantic_vector: self.semantic_vector.clone(),
            origin_vector: self.origin_vector.clone(),
            relations,
            degree_budget: self.degree_budget,
            event_refs,
            probability_field: self.probability_field.clone(),
            semantic_mass: self.semantic_mass,
            semantic_mass_dirty: self.semantic_mass_dirty,
            entropy: self.entropy,
            entropy_dirty: self.entropy_dirty,
            trust: self.trust,
            permissions: self.permissions,
            integrity_hash: self.integrity_hash,
            created_at: self.created_at,
            updated_at: self.updated_at,
        }
    }
}

// ---------------------------------------------------------------------------
// Laws
// ---------------------------------------------------------------------------

/// Bringing the hash up to date makes an entity intact, whatever happened to it
/// before, and changes nothing but the hash.
pub proof fn sealing_makes_intact(orb: OrbView)
    ensures
        intact(sealed(orb)),
        sealed(orb) == (OrbView { integrity_hash: sealed(orb).integrity_hash, ..orb }),
{
}

/// The hash of an entity does not depend on the order of its relations, where
/// no edge identifier occurs twice.
pub proof fn hash_ignores_the_order_of_relations(orb: OrbView, relations: Seq<RelationRef>)
    requires
        encoding::distinct_edges(orb.relations),
        orb.relations.to_multiset() == relations.to_multiset(),
    ensures
        preimage(orb) == preimage(OrbView { relations, ..orb }),
{
    encoding::sorting_forgets_the_order(orb.relations, relations);
}

proof fn lemma_tail_covers(a: OrbView, b: OrbView)
    ensures
        tail_bytes(a).len() == 56,
        tail_bytes(a) == tail_bytes(b) ==> {
            &&& a.trust == b.trust
            &&& a.permissions == b.permissions
            &&& a.degree_budget == b.degree_budget
            &&& a.created_at == b.created_at
            &&& a.updated_at == b.updated_at
        },
{
    vstd::bytes::lemma_auto_spec_u32_to_from_le_bytes();
    vstd::bytes::lemma_auto_spec_u64_to_from_le_bytes();
    let a1 = vstd::bytes::spec_u32_to_le_bytes(a.trust.score.bits);
    let a2 = vstd::bytes::spec_u32_to_le_bytes(a.trust.evidence_count);
    let a3 = vstd::bytes::spec_u64_to_le_bytes(a.trust.last_updated_ms);
    let a4 = vstd::bytes::spec_u64_to_le_bytes(a.permissions.bits);
    let a5 = vstd::bytes::spec_u64_to_le_bytes(a.degree_budget as u64);
    let a6 = vstd::bytes::spec_u64_to_le_bytes(a.created_at.physical_ms);
    let a7 = vstd::bytes::spec_u32_to_le_bytes(a.created_at.logical);
    let a8 = vstd::bytes::spec_u64_to_le_bytes(a.updated_at.physical_ms);
    let a9 = vstd::bytes::spec_u32_to_le_bytes(a.updated_at.logical);
    let b1 = vstd::bytes::spec_u32_to_le_bytes(b.trust.score.bits);
    let b2 = vstd::bytes::spec_u32_to_le_bytes(b.trust.evidence_count);
    let b3 = vstd::bytes::spec_u64_to_le_bytes(b.trust.last_updated_ms);
    let b4 = vstd::bytes::spec_u64_to_le_bytes(b.permissions.bits);
    let b5 = vstd::bytes::spec_u64_to_le_bytes(b.degree_budget as u64);
    let b6 = vstd::bytes::spec_u64_to_le_bytes(b.created_at.physical_ms);
    let b7 = vstd::bytes::spec_u32_to_le_bytes(b.created_at.logical);
    let b8 = vstd::bytes::spec_u64_to_le_bytes(b.updated_at.physical_ms);
    let b9 = vstd::bytes::spec_u32_to_le_bytes(b.updated_at.logical);
    if tail_bytes(a) == tail_bytes(b) {
        encoding::lemma_split(
            a1 + a2 + a3 + a4 + a5 + a6 + a7 + a8,
            a9,
            b1 + b2 + b3 + b4 + b5 + b6 + b7 + b8,
            b9,
        );
        encoding::lemma_split(a1 + a2 + a3 + a4 + a5 + a6 + a7, a8, b1 + b2 + b3 + b4 + b5 + b6 + b7, b8);
        encoding::lemma_split(a1 + a2 + a3 + a4 + a5 + a6, a7, b1 + b2 + b3 + b4 + b5 + b6, b7);
        encoding::lemma_split(a1 + a2 + a3 + a4 + a5, a6, b1 + b2 + b3 + b4 + b5, b6);
        encoding::lemma_split(a1 + a2 + a3 + a4, a5, b1 + b2 + b3 + b4, b5);
        encoding::lemma_split(a1 + a2 + a3, a4, b1 + b2 + b3, b4);
        encoding::lemma_split(a1 + a2, a3, b1 + b2, b3);
        encoding::lemma_split(a1, a2, b1, b2);
        encoding::lemma_u32_bytes(a.trust.score.bits, b.trust.score.bits);
        encoding::lemma_u32_bytes(a.trust.evidence_count, b.trust.evidence_count);
        encoding::lemma_u64_bytes(a.trust.last_updated_ms, b.trust.last_updated_ms);
        encoding::lemma_u64_bytes(a.permissions.bits, b.permissions.bits);
        encoding::lemma_u64_bytes(a.degree_budget as u64, b.degree_budget as u64);
        encoding::lemma_u64_bytes(a.created_at.physical_ms, b.created_at.physical_ms);
        encoding::lemma_u32_bytes(a.created_at.logical, b.created_at.logical);
        encoding::lemma_u64_bytes(a.updated_at.physical_ms, b.updated_at.physical_ms);
        encoding::lemma_u32_bytes(a.updated_at.logical, b.updated_at.logical);
    }
}

/// The bytes that the hash is taken of cover everything that can change and is not
/// derived: the identity, the state, the embedding, the relations with all their
/// parts, the probability field, the events, the trust, the permissions, the
/// degree budget and both timestamps. Where the lists have the same lengths, no
/// two entities that differ in one of these give the same bytes; of the relations
/// only the order does not count.
pub proof fn hash_covers_the_entity(a: OrbView, b: OrbView)
    requires
        a.semantic_vector.len() == b.semantic_vector.len(),
        a.relations.len() == b.relations.len(),
        a.probability_field.len() == b.probability_field.len(),
        a.event_refs.len() == b.event_refs.len(),
        preimage(a) == preimage(b),
    ensures
        a.identity == b.identity,
        a.semantic_state == b.semantic_state,
        a.semantic_vector == b.semantic_vector,
        a.relations.to_multiset() == b.relations.to_multiset(),
        a.probability_field == b.probability_field,
        a.event_refs == b.event_refs,
        a.trust == b.trust,
        a.permissions == b.permissions,
        a.degree_budget == b.degree_budget,
        a.created_at == b.created_at,
        a.updated_at == b.updated_at,
{
    let ra = encoding::by_edge(a.relations);
    let rb = encoding::by_edge(b.relations);
    encoding::sorting_orders_the_edges(a.relations);
    encoding::sorting_orders_the_edges(b.relations);
    let a1 = outside::id_bytes(a.identity);
    let a2 = seq![state_code(a.semantic_state)];
    let a3 = encoding::numbers_bytes(a.semantic_vector);
    let a4 = encoding::edges_bytes(ra);
    let a5 = encoding::numbers_bytes(a.probability_field);
    let a6 = encoding::ids_bytes(a.event_refs);
    let b1 = outside::id_bytes(b.identity);
    let b2 = seq![state_code(b.semantic_state)];
    let b3 = encoding::numbers_bytes(b.semantic_vector);
    let b4 = encoding::edges_bytes(rb);
    let b5 = encoding::numbers_bytes(b.probability_field);
    let b6 = encoding::ids_bytes(b.event_refs);
    encoding::lemma_id_bytes(a.identity, b.identity);
    encoding::lemma_id_bytes(b.identity, a.identity);
    encoding::lemma_numbers_length(a.semantic_vector);
    encoding::lemma_numbers_length(b.semantic_vector);
    encoding::lemma_edges_length(ra);
    encoding::lemma_edges_length(rb);
    encoding::lemma_numbers_length(a.probability_field);
    encoding::lemma_numbers_length(b.probability_field);
    encoding::lemma_ids_length(a.event_refs);
    encoding::lemma_ids_length(b.event_refs);
    lemma_tail_covers(a, b);
    encoding::lemma_split(
        a1 + a2 + a3 + a4 + a5 + a6,
        tail_bytes(a),
        b1 + b2 + b3 + b4 + b5 + b6,
        tail_bytes(b),
    );
    encoding::lemma_split(a1 + a2 + a3 + a4 + a5, a6, b1 + b2 + b3 + b4 + b5, b6);
    encoding::lemma_split(a1 + a2 + a3 + a4, a5, b1 + b2 + b3 + b4, b5);
    encoding::lemma_split(a1 + a2 + a3, a4, b1 + b2 + b3, b4);
    encoding::lemma_split(a1 + a2, a3, b1 + b2, b3);
    encoding::lemma_split(a1, a2, b1, b2);
    assert(a2[0] == b2[0]);
    encoding::lemma_numbers_injective(a.semantic_vector, b.semantic_vector);
    encoding::lemma_edges_injective(ra, rb);
    encoding::lemma_numbers_injective(a.probability_field, b.probability_field);
    encoding::lemma_ids_injective(a.event_refs, b.event_refs);
}

/// Adding a relation or noting an event changes the bytes that the hash is
/// taken of: there are more of them.
pub proof fn growing_changes_the_preimage(
    orb: OrbView,
    relation: RelationRef,
    event_id: u128,
    updated_at: HlcTimestamp,
)
    ensures
        preimage(OrbView { relations: orb.relations.push(relation), updated_at, ..orb })
            != preimage(orb),
        preimage(OrbView { event_refs: orb.event_refs.push(event_id), ..orb }) != preimage(orb),
{
    let wider = OrbView { relations: orb.relations.push(relation), updated_at, ..orb };
    let longer = OrbView { event_refs: orb.event_refs.push(event_id), ..orb };
    encoding::sorting_orders_the_edges(orb.relations);
    encoding::sorting_orders_the_edges(wider.relations);
    encoding::lemma_edges_length(encoding::by_edge(orb.relations));
    encoding::lemma_edges_length(encoding::by_edge(wider.relations));
    encoding::lemma_ids_length(orb.event_refs);
    encoding::lemma_ids_length(longer.event_refs);
    lemma_tail_covers(orb, wider);
    lemma_tail_covers(wider, orb);
    assert(preimage(wider).len() == preimage(orb).len() + 61);
    assert(preimage(longer).len() == preimage(orb).len() + 16);
}

/// The mass lies between zero and one.
pub proof fn mass_is_a_share(m: Arithmetic, relations: Seq<RelationRef>, budget: usize)
    ensures
        mass_of(m, relations, budget).in_unit(),
{
}

/// An entity has not drifted when it is created, in any arithmetic in which a
/// number less itself is zero, and sums, products and roots of zeros are zero.
pub proof fn nothing_drifts_at_creation(
    m: Arithmetic,
    identity: u128,
    semantic_vector: Seq<Single>,
    probability_field: Seq<Single>,
    permissions: Permissions,
    created_at: HlcTimestamp,
    now: u64,
)
    requires
        forall|i: int|
            0 <= i < semantic_vector.len() ==> fpu::difference(
                m,
                #[trigger] semantic_vector[i],
                semantic_vector[i],
            ) == (Single { bits: 0 }),
        fpu::product(m, Single { bits: 0 }, Single { bits: 0 }) == (Single { bits: 0 }),
        fpu::sum(m, Single { bits: 0 }, Single { bits: 0 }) == (Single { bits: 0 }),
        fpu::root(m, Single { bits: 0 }) == (Single { bits: 0 }),
    ensures
        drift_of(
            m,
            newborn(
                m,
                identity,
                semantic_vector,
                probability_field,
                permissions,
                created_at,
                now,
            ),
        ) == (Single { bits: 0 }),
{
    let difference = numeric::differences(m, semantic_vector, semantic_vector);
    let squares = numeric::products(m, difference, difference);
    assert forall|i: int| 0 <= i < squares.len() implies #[trigger] squares[i] == (Single {
        bits: 0,
    }) by {
        assert(difference[i] == fpu::difference(m, semantic_vector[i], semantic_vector[i]));
    }
    numeric::lemma_total_of_zeros(m, squares);
}

/// Room is made for exactly one relation where the budget was used up, and an
/// entity that kept to its budget keeps to it when a relation is added.
pub proof fn adding_keeps_to_the_budget(relations: Seq<RelationRef>, budget: usize)
    requires
        relations.len() <= budget,
        budget > 0,
    ensures
        room_made(relations, budget).len() + 1 <= budget,
{
    if relations.len() > 0 {
        lemma_weakest_in_range(relations);
    }
}

} // verus!
