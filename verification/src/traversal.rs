//! Walks through the graph that follow attention.

use std::collections::HashMap;

use vstd::prelude::*;

use crate::doubles;
use crate::float::{Double, Single, SINGLE_ONE};
use crate::fpu;
use crate::fpu::{Arithmetic, Flop, Fpu};
use crate::numeric;
use crate::numeric::{copy_numbers, inner_of};
use crate::orb;
use crate::orb::{Orb, OrbView};
use crate::outside::now_ms;
use crate::relation;
use crate::relation::{clamp_unit, RelationRef, RelationType};
use crate::rounding;
use crate::trust;

verus! {

broadcast use vstd::std_specs::hash::group_hash_axioms;

/// The attention of a traversal, unless another amount is set.
pub const DEFAULT_BUDGET: u64 = 10_000;

/// The largest distance from the start, unless another one is set.
pub const DEFAULT_MAX_DEPTH: usize = 8;

/// The share of the budget (`0.20`) that a single entity can get.
pub const SINGULARITY_CAP: u32 = 0x3E4C_CCCD;

/// The least attention of an entity.
pub const ATTENTION_FLOOR: u64 = 1;

/// The least score of a hit (`0.1`), unless another one is set.
pub const DEFAULT_SCORE_THRESHOLD: u32 = 0x3DCC_CCCD;

/// What similarity counts in a score (`0.40`).
pub const LAMBDA_SIMILARITY: u32 = 0x3ECC_CCCD;

/// What trust counts in a score (`0.30`).
pub const LAMBDA_TRUST: u32 = 0x3E99_999A;

/// What recency counts in a score (`0.15`).
pub const LAMBDA_RECENCY: u32 = 0x3E19_999A;

/// What mass counts in a score (`0.15`).
pub const LAMBDA_SEMANTIC_MASS: u32 = 0x3E19_999A;

/// The time constant of recency in milliseconds (`604800000.0`, seven days).
pub const RECENCY_HALF_LIFE_MS: u64 = 0x41C2_0642_0000_0000;

/// How far (`1e-3`) the sum of weights may be off one.
pub const WEIGHT_TOLERANCE: u32 = 0x3A83_126F;

// ---------------------------------------------------------------------------
// Configuration
// ---------------------------------------------------------------------------

/// How much each part of a score counts.
#[derive(Debug, Clone, Copy, PartialEq, Eq, Structural)]
pub struct ScoringWeights {
    pub similarity: Single,
    pub trust: Single,
    pub recency: Single,
    pub semantic_mass: Single,
}

/// The weights that are used where none are set.
pub open spec fn default_weights() -> ScoringWeights {
    ScoringWeights {
        similarity: Single { bits: LAMBDA_SIMILARITY },
        trust: Single { bits: LAMBDA_TRUST },
        recency: Single { bits: LAMBDA_RECENCY },
        semantic_mass: Single { bits: LAMBDA_SEMANTIC_MASS },
    }
}

impl Default for ScoringWeights {
    fn default() -> (weights: Self)
        ensures
            weights == default_weights(),
    {
        ScoringWeights {
            similarity: Single::from_bits(LAMBDA_SIMILARITY),
            trust: Single::from_bits(LAMBDA_TRUST),
            recency: Single::from_bits(LAMBDA_RECENCY),
            semantic_mass: Single::from_bits(LAMBDA_SEMANTIC_MASS),
        }
    }
}

impl ScoringWeights {
    /// Whether the weights add up to one, but for the tolerance.
    pub fn validate<F: Fn(Flop) -> u64>(&self, fpu: &Fpu<F>) -> (result: bool)
        ensures
            result == fpu::difference(
                fpu@,
                fpu::sum(
                    fpu@,
                    fpu::sum(fpu@, fpu::sum(fpu@, self.similarity, self.trust), self.recency),
                    self.semantic_mass,
                ),
                Single { bits: SINGLE_ONE },
            ).absolute().below(Single { bits: WEIGHT_TOLERANCE }),
    {
        let sum = fpu.add(
            fpu.add(fpu.add(self.similarity, self.trust), self.recency),
            self.semantic_mass,
        );
        fpu.sub(sum, Single::one()).abs().lt(&Single::from_bits(WEIGHT_TOLERANCE))
    }
}

/// How a traversal is to be made.
#[derive(Debug)]
pub struct TraversalConfig {
    /// The attention of the traversal.
    pub budget: u64,
    /// The largest distance from the start.
    pub max_depth: usize,
    /// The least score of a hit.
    pub score_threshold: Single,
    /// The least trust of an entity that is looked at.
    pub min_trust: Single,
    /// The types of relations that are followed, all where none are set.
    pub allowed_relation_types: Option<Vec<RelationType>>,
    /// The weights of the score, the usual ones where none are set.
    pub scoring_weights: Option<ScoringWeights>,
}

impl Default for TraversalConfig {
    fn default() -> (config: Self)
        ensures
            config.budget == DEFAULT_BUDGET,
            config.max_depth == DEFAULT_MAX_DEPTH,
            config.score_threshold == (Single { bits: DEFAULT_SCORE_THRESHOLD }),
            config.min_trust == (Single { bits: 0 }),
            config.allowed_relation_types is None,
            config.scoring_weights is None,
    {
        TraversalConfig {
            budget: DEFAULT_BUDGET,
            max_depth: DEFAULT_MAX_DEPTH,
            score_threshold: Single::from_bits(DEFAULT_SCORE_THRESHOLD),
            min_trust: Single::zero(),
            allowed_relation_types: None,
            scoring_weights: None,
        }
    }
}

/// The types of relations that are followed, if any are set.
pub open spec fn optional_types(types: Option<Vec<RelationType>>) -> Option<Seq<RelationType>> {
    match types {
        Some(listed) => Some(listed@),
        None => None,
    }
}

impl Clone for TraversalConfig {
    fn clone(&self) -> (copy: Self)
        ensures
            copy.budget == self.budget,
            copy.max_depth == self.max_depth,
            copy.score_threshold == self.score_threshold,
            copy.min_trust == self.min_trust,
            optional_types(copy.allowed_relation_types) == optional_types(
                self.allowed_relation_types,
            ),
            copy.scoring_weights == self.scoring_weights,
    {
        let allowed_relation_types = match &self.allowed_relation_types {
            Some(types) => {
                let copy = types.clone();
                assert(copy@ =~= types@);
                Some(copy)
            },
            None => None,
        };
        TraversalConfig {
            budget: self.budget,
            max_depth: self.max_depth,
            score_threshold: self.score_threshold,
            min_trust: self.min_trust,
            allowed_relation_types,
            scoring_weights: self.scoring_weights,
        }
    }
}

/// What a traversal is looking for.
#[derive(Debug)]
pub struct SemanticQuery {
    /// The embedding to compare with; without one nothing is similar.
    pub query_vector: Option<Vec<Single>>,
    /// What is looked for, in words.
    pub description: String,
}

impl SemanticQuery {
    pub fn new(query_vector: Vec<Single>, description: &str) -> (query: Self)
        ensures
            query.query_vector == Some(query_vector),
            query.description@ == description@,
    {
        SemanticQuery { query_vector: Some(query_vector), description: description.to_owned() }
    }

    pub fn empty(description: &str) -> (query: Self)
        ensures
            query.query_vector is None,
            query.description@ == description@,
    {
        SemanticQuery { query_vector: None, description: description.to_owned() }
    }
}

impl Clone for SemanticQuery {
    fn clone(&self) -> (copy: Self)
        ensures
            optional_vector(copy.query_vector) == optional_vector(self.query_vector),
            copy.description@ == self.description@,
    {
        let query_vector = match &self.query_vector {
            Some(components) => Some(copy_numbers(components)),
            None => None,
        };
        SemanticQuery { query_vector, description: self.description.clone() }
    }
}

/// The parts of a score.
#[derive(Debug, Clone, Copy, PartialEq, Eq, Structural)]
pub struct ScoreBreakdown {
    pub similarity: Single,
    pub trust: Single,
    pub recency: Single,
    pub semantic_mass: Single,
}

/// An entity that a traversal found.
#[derive(Debug, Clone, Copy, PartialEq, Eq, Structural)]
pub struct TraversalHit {
    pub orb_id: u128,
    pub score: Single,
    /// Relations between the start and the entity, on the way that was taken.
    pub depth: usize,
    pub score_breakdown: ScoreBreakdown,
    /// The attention that the entity got.
    pub attention_allocated: u64,
}

/// What came of a traversal.
#[derive(Debug)]
pub struct TraversalResult {
    /// Hits, the highest score first.
    pub hits: Vec<TraversalHit>,
    pub budget_consumed: u64,
    /// Entities that were visited, also those that are no hits.
    pub nodes_visited: usize,
    pub edges_traversed: usize,
    /// Whether entities were left when the budget was used up.
    pub budget_exhausted: bool,
}

impl Clone for TraversalResult {
    fn clone(&self) -> (copy: Self)
        ensures
            copy.hits@ == self.hits@,
            copy.budget_consumed == self.budget_consumed,
            copy.nodes_visited == self.nodes_visited,
            copy.edges_traversed == self.edges_traversed,
            copy.budget_exhausted == self.budget_exhausted,
    {
        let hits = self.hits.clone();
        assert(hits@ =~= self.hits@);
        TraversalResult {
            hits,
            budget_consumed: self.budget_consumed,
            nodes_visited: self.nodes_visited,
            edges_traversed: self.edges_traversed,
            budget_exhausted: self.budget_exhausted,
        }
    }
}

// ---------------------------------------------------------------------------
// Graph
// ---------------------------------------------------------------------------

/// A relation as a traversal sees it.
#[derive(Debug, Clone, Copy, PartialEq, Eq, Structural)]
pub struct EdgeView {
    pub edge_id: u128,
    pub target_orb_id: u128,
    pub relation_type: RelationType,
    pub weight: Single,
    pub trust_at_creation: Single,
}

/// An entity as a traversal sees it.
#[derive(Debug)]
pub struct NodeView {
    pub orb_id: u128,
    pub semantic_vector: Vec<Single>,
    /// Trust after its decay.
    pub trust: Single,
    pub semantic_mass: Single,
    /// Unix milliseconds of the last change.
    pub updated_at_ms: u64,
    pub edges: Vec<EdgeView>,
}

/// What a [`NodeView`] holds.
#[verifier::ext_equal]
pub struct NodeData {
    pub orb_id: u128,
    pub semantic_vector: Seq<Single>,
    pub trust: Single,
    pub semantic_mass: Single,
    pub updated_at_ms: u64,
    pub edges: Seq<EdgeView>,
}

impl View for NodeView {
    type V = NodeData;

    open spec fn view(&self) -> NodeData {
        NodeData {
            orb_id: self.orb_id,
            semantic_vector: self.semantic_vector@,
            trust: self.trust,
            semantic_mass: self.semantic_mass,
            updated_at_ms: self.updated_at_ms,
            edges: self.edges@,
        }
    }
}

impl Clone for NodeView {
    fn clone(&self) -> (copy: Self)
        ensures
            copy@ == self@,
    {
        let edges = self.edges.clone();
        assert(edges@ =~= self.edges@);
        NodeView {
            orb_id: self.orb_id,
            semantic_vector: copy_numbers(&self.semantic_vector),
            trust: self.trust,
            semantic_mass: self.semantic_mass,
            updated_at_ms: self.updated_at_ms,
            edges,
        }
    }
}

/// A graph that can be traversed.
pub trait GraphView {
    /// The entities of the graph.
    spec fn nodes(&self) -> Map<u128, NodeData>;

    /// The entity with an identifier, if there is one.
    fn get_node(&self, orb_id: u128) -> (node: Option<NodeView>)
        ensures
            node is Some <==> self.nodes().contains_key(orb_id),
            node matches Some(found) ==> found@ == self.nodes()[orb_id],
    ;
}

/// A graph that is held in memory.
pub struct InMemoryGraphView {
    nodes: HashMap<u128, NodeView>,
}

impl View for InMemoryGraphView {
    type V = Map<u128, NodeData>;

    closed spec fn view(&self) -> Map<u128, NodeData> {
        self.nodes@.map_values(|node: NodeView| node@)
    }
}

/// A relation as a traversal sees it.
pub open spec fn edge_of(relation: RelationRef) -> EdgeView {
    EdgeView {
        edge_id: relation.edge_id,
        target_orb_id: relation.target_orb_id,
        relation_type: relation.relation_type,
        weight: relation.weight,
        trust_at_creation: relation.trust_at_creation,
    }
}

/// The mass of an entity, computed again where that is due.
pub open spec fn current_mass(m: Arithmetic, orb: OrbView) -> Single {
    if orb.semantic_mass_dirty {
        orb::mass_of(m, orb.relations, orb.degree_budget)
    } else {
        orb.semantic_mass
    }
}

/// An entity as a traversal sees it at a time.
pub open spec fn node_of(m: Arithmetic, orb: OrbView, now: u64) -> NodeData {
    NodeData {
        orb_id: orb.identity,
        semantic_vector: orb.semantic_vector,
        trust: trust::effective(m, orb.trust, now),
        semantic_mass: current_mass(m, orb),
        updated_at_ms: orb.updated_at.physical_ms,
        edges: orb.relations.map_values(|r: RelationRef| edge_of(r)),
    }
}

/// Whether a node shows an entity as it stands at a time: its embedding, what its trust
/// is worth by then, when it was last changed, and its relations in their order.
pub open spec fn shows(m: Arithmetic, orb: OrbView, now: u64, node: NodeData) -> bool {
    &&& node.orb_id == orb.identity
    &&& node.semantic_vector == orb.semantic_vector
    &&& trust::worth(m, orb.trust, now, node.trust)
    &&& !orb.semantic_mass_dirty ==> node.semantic_mass == orb.semantic_mass
    &&& node.updated_at_ms == orb.updated_at.physical_ms
    &&& node.edges.len() == orb.relations.len()
    &&& forall|i: int|
        0 <= i < node.edges.len() ==> {
            let edge = #[trigger] node.edges[i];
            let relation = orb.relations[i];
            &&& edge.edge_id == relation.edge_id
            &&& edge.target_orb_id == relation.target_orb_id
            &&& edge.relation_type == relation.relation_type
            &&& edge.weight == relation.weight
            &&& edge.trust_at_creation == relation.trust_at_creation
        }
}

/// A node shows its entity.
pub proof fn nodes_show_entities(m: Arithmetic, orb: OrbView, now: u64)
    ensures
        shows(m, orb, now, node_of(m, orb, now)),
{
    trust::trust_fades(m, orb.trust, now);
}

impl InMemoryGraphView {
    pub fn new() -> (graph: Self)
        ensures
            graph@ == Map::<u128, NodeData>::empty(),
    {
        let graph = InMemoryGraphView { nodes: HashMap::new() };
        assert(graph@ =~= Map::<u128, NodeData>::empty());
        graph
    }

    /// Puts an entity in; one with the same identifier is replaced.
    pub fn insert(&mut self, node: NodeView)
        ensures
            final(self)@ == old(self)@.insert(node.orb_id, node@),
    {
        let orb_id: u128 = node.orb_id;
        self.nodes.insert(orb_id, node);
        assert(self@ =~= old(self)@.insert(orb_id, node@));
    }

    /// Puts an entity in as it stands at `now`; its mass is brought up to date.
    pub fn insert_orb_at<F: Fn(Flop) -> u64>(&mut self, fpu: &Fpu<F>, orb: &mut Orb, now: u64)
        ensures
            final(self)@ == old(self)@.insert(old(orb).identity, node_of(fpu@, old(orb)@, now)),
            shows(fpu@, old(orb)@, now, final(self)@[old(orb).identity]),
            final(orb)@ == (OrbView {
                semantic_mass: current_mass(fpu@, old(orb)@),
                semantic_mass_dirty: false,
                ..old(orb)@
            }),
    {
        let mut edges: Vec<EdgeView> = Vec::new();
        let mut i: usize = 0;
        let ghost want = orb@.relations.map_values(|r: RelationRef| edge_of(r));
        while i < orb.relations.len()
            invariant
                i <= orb.relations@.len(),
                *orb == *old(orb),
                want == orb@.relations.map_values(|r: RelationRef| edge_of(r)),
                edges@ == want.take(i as int),
            decreases orb.relations@.len() - i,
        {
            let relation = orb.relations[i];
            edges.push(
                EdgeView {
                    edge_id: relation.edge_id,
                    target_orb_id: relation.target_orb_id,
                    relation_type: relation.relation_type,
                    weight: relation.weight,
                    trust_at_creation: relation.trust_at_creation,
                },
            );
            assert(edges@ =~= want.take(i + 1));
            i += 1;
        }
        assert(want.take(i as int) =~= want);
        proof {
            nodes_show_entities(fpu@, orb@, now);
        }
        let trust = orb.trust.effective_score_at(fpu, now);
        let semantic_mass = orb.semantic_mass(fpu);
        self.insert(
            NodeView {
                orb_id: orb.identity,
                semantic_vector: copy_numbers(&orb.semantic_vector.0),
                trust,
                semantic_mass,
                updated_at_ms: orb.updated_at.physical_ms,
                edges,
            },
        );
    }

    /// Puts an entity in as it stands now; its mass is brought up to date.
    pub fn insert_orb<F: Fn(Flop) -> u64>(&mut self, fpu: &Fpu<F>, orb: &mut Orb)
        ensures
            exists|now: u64|
                final(self)@ == old(self)@.insert(
                    old(orb).identity,
                    #[trigger] node_of(fpu@, old(orb)@, now),
                ),
            final(orb)@ == (OrbView {
                semantic_mass: current_mass(fpu@, old(orb)@),
                semantic_mass_dirty: false,
                ..old(orb)@
            }),
    {
        let now: u64 = now_ms();
        let ghost witness = node_of(fpu@, orb@, now);
        self.insert_orb_at(fpu, orb, now);
    }
}

impl Default for InMemoryGraphView {
    fn default() -> (graph: Self)
        ensures
            graph@ == Map::<u128, NodeData>::empty(),
    {
        InMemoryGraphView::new()
    }
}

impl GraphView for InMemoryGraphView {
    open spec fn nodes(&self) -> Map<u128, NodeData> {
        self@
    }

    fn get_node(&self, orb_id: u128) -> (node: Option<NodeView>) {
        match self.nodes.get(&orb_id) {
            Some(node) => Some(node.clone()),
            None => None,
        }
    }
}

// ---------------------------------------------------------------------------
// Scores
// ---------------------------------------------------------------------------

/// What there is to score with: weights, an embedding and a time.
pub(crate) struct Scorer<'a> {
    pub(crate) weights: ScoringWeights,
    pub(crate) query_vector: &'a Option<Vec<Single>>,
    pub(crate) now_ms: u64,
}

/// An embedding that may be missing.
pub open spec fn optional_vector(vector: Option<Vec<Single>>) -> Option<Seq<Single>> {
    match vector {
        Some(components) => Some(components@),
        None => None,
    }
}

/// How similar an entity is to what is looked for: the inner product, forced
/// between zero and one. Without an embedding of the same dimension to compare
/// with, nothing is similar.
pub open spec fn similarity_of(
    m: Arithmetic,
    query: Option<Seq<Single>>,
    vector: Seq<Single>,
) -> Single {
    match query {
        Some(components) if components.len() == vector.len() => relation::unit_clamped(
            numeric::inner(m, components, vector),
        ),
        _ => Single { bits: 0 },
    }
}

/// How recent a change is: `exp(-(age / time constant))`.
pub open spec fn recency_of(m: Arithmetic, now: u64, updated_at_ms: u64) -> Single {
    fpu::narrowed(
        m,
        fpu::wide_exponential(
            m,
            fpu::wide_quotient(
                m,
                fpu::double_of(m, trust::elapsed(now, updated_at_ms)),
                Double { bits: RECENCY_HALF_LIFE_MS },
            ).negated(),
        ),
    )
}

/// The parts of the score of an entity.
pub open spec fn breakdown_of(
    m: Arithmetic,
    query: Option<Seq<Single>>,
    now: u64,
    node: NodeData,
) -> ScoreBreakdown {
    ScoreBreakdown {
        similarity: similarity_of(m, query, node.semantic_vector),
        trust: relation::unit_clamped(node.trust),
        recency: recency_of(m, now, node.updated_at_ms),
        semantic_mass: relation::unit_clamped(node.semantic_mass),
    }
}

/// The score that the parts add up to, forced between zero and one.
pub open spec fn score_of(m: Arithmetic, weights: ScoringWeights, parts: ScoreBreakdown) -> Single {
    relation::unit_clamped(
        fpu::sum(
            m,
            fpu::sum(
                m,
                fpu::sum(
                    m,
                    fpu::product(m, weights.similarity, parts.similarity),
                    fpu::product(m, weights.trust, parts.trust),
                ),
                fpu::product(m, weights.recency, parts.recency),
            ),
            fpu::product(m, weights.semantic_mass, parts.semantic_mass),
        ),
    )
}

/// Whether a similarity is that of an entity to what is looked for. Without an embedding
/// of the same dimension there is none. In arithmetic that rounds it is the exact inner
/// product of the two embeddings, forced between zero and one, but for rounding. Where no
/// component of one meets one of the other it is zero.
pub open spec fn alike(
    m: Arithmetic,
    query: Option<Seq<Single>>,
    vector: Seq<Single>,
    similarity: Single,
) -> bool {
    match query {
        Some(components) if components.len() == vector.len() => {
            &&& rounding::rounds(m) && rounding::countable(vector.len()) && rounding::all_finite(
                components,
            ) && rounding::all_finite(vector) && rounding::dot_size(components, vector)
                <= 100000000000000000000000000000 as real ==> {
                &&& similarity.finite()
                &&& rounding::size(
                    rounding::value(similarity) - rounding::between(
                        rounding::dot(components, vector),
                        0 as real,
                        1 as real,
                    ),
                ) <= rounding::dot_error(vector.len(), rounding::dot_size(components, vector))
            }
            &&& fpu::sum(m, Single { bits: 0 }, Single { bits: 0 }) == (Single { bits: 0 }) && (
            forall|i: int|
                0 <= i < vector.len() ==> fpu::product(
                    m,
                    #[trigger] components[i],
                    vector[i],
                ) == (Single { bits: 0 })) ==> similarity == (Single { bits: 0 })
        },
        _ => similarity == (Single { bits: 0 }),
    }
}

/// Similarity compares an entity with what is looked for.
pub proof fn similarity_compares_embeddings(
    m: Arithmetic,
    query: Option<Seq<Single>>,
    vector: Seq<Single>,
)
    ensures
        alike(m, query, vector, similarity_of(m, query, vector)),
{
    if let Some(components) = query {
        if components.len() == vector.len() {
            if rounding::rounds(m) && rounding::countable(vector.len()) && rounding::all_finite(
                components,
            ) && rounding::all_finite(vector) && rounding::dot_size(components, vector)
                <= 100000000000000000000000000000 as real {
                rounding::lemma_constants();
                rounding::lemma_inner(m, components, vector);
                rounding::lemma_clamped(
                    numeric::inner(m, components, vector),
                    Single { bits: 0 },
                    Single { bits: SINGLE_ONE },
                );
            }
            if fpu::sum(m, Single { bits: 0 }, Single { bits: 0 }) == (Single { bits: 0 }) && (
            forall|i: int|
                0 <= i < vector.len() ==> fpu::product(
                    m,
                    #[trigger] components[i],
                    vector[i],
                ) == (Single { bits: 0 })) {
                let terms = numeric::products(m, components, vector);
                assert forall|i: int| 0 <= i < terms.len() implies #[trigger] terms[i] == (Single {
                    bits: 0,
                }) by {
                    assert(components[i] == components[i]);
                }
                numeric::lemma_total_of_zeros(m, terms);
            }
        }
    }
}

/// Whether a recency is that of a change at a time: it falls with the age by a factor of
/// `e` in seven days.
pub open spec fn fades(m: Arithmetic, now: u64, updated_at_ms: u64, recency: Single) -> bool {
    forall|e: spec_fn(real) -> real|
        rounding::rounds(m) && doubles::rounds_wide(m) && #[trigger] doubles::exponentiates(m, e)
            ==> {
            let age: int = if now >= updated_at_ms {
                now - updated_at_ms
            } else {
                0
            };
            &&& recency.finite()
            &&& rounding::size(
                rounding::value(recency) - e(-(age as real / 604800000 as real)),
            ) <= 1 as real / 20000 as real
        }
}

proof fn lemma_recency(m: Arithmetic, e: spec_fn(real) -> real, now: u64, updated_at_ms: u64)
    requires
        rounding::rounds(m),
        doubles::rounds_wide(m),
        doubles::exponentiates(m, e),
    ensures
        recency_of(m, now, updated_at_ms).finite(),
        rounding::size(
            rounding::value(recency_of(m, now, updated_at_ms)) - e(
                -(trust::elapsed(now, updated_at_ms) as real / 604800000 as real),
            ),
        ) <= 1 as real / 20000 as real,
{
    doubles::lemma_wide_constants();
    rounding::lemma_extremes();
    let age = trust::elapsed(now, updated_at_ms);
    let span = Double { bits: RECENCY_HALF_LIFE_MS };
    doubles::lemma_time_ratio(m, age, span);
    let ratio = fpu::wide_quotient(m, fpu::double_of(m, age), span);
    doubles::lemma_negated(ratio);
    let exact = -(age as real / 604800000 as real);
    let a = ratio.negated();
    assert(age as real / 604800000 as real <= 31000000000 as real);
    doubles::lemma_decay(m, e, a, exact);
    let wide = fpu::wide_exponential(m, a);
    let v = doubles::wide_value(wide);
    let result = fpu::narrowed(m, wide);
    assert(rounding::rounded(result, v, rounding::speck()));
    let u = rounding::slip();
    assert(u * v == v / 16777216 as real) by (nonlinear_arith)
        requires
            u == 1 as real / 16777216 as real,
    ;
    assert(e(exact) * (3 as real / 100000 as real) <= 3 as real / 100000 as real) by (
        nonlinear_arith)
        requires
            0 as real <= e(exact) <= 1 as real,
    ;
}

/// Recency falls with the age of a change.
pub proof fn recency_falls_with_age(m: Arithmetic, now: u64, updated_at_ms: u64)
    ensures
        fades(m, now, updated_at_ms, recency_of(m, now, updated_at_ms)),
{
    assert forall|e: spec_fn(real) -> real|
        rounding::rounds(m) && doubles::rounds_wide(m) && #[trigger] doubles::exponentiates(m, e)
        implies ({
        let age: int = if now >= updated_at_ms {
            now - updated_at_ms
        } else {
            0
        };
        let recency = recency_of(m, now, updated_at_ms);
        &&& recency.finite()
        &&& rounding::size(rounding::value(recency) - e(-(age as real / 604800000 as real)))
            <= 1 as real / 20000 as real
    }) by {
        lemma_recency(m, e, now, updated_at_ms);
    }
}

/// A finite number that is not too large to count.
pub open spec fn tame(x: Single) -> bool {
    x.finite() && rounding::size(rounding::value(x)) <= 1000 as real
}

/// The exact sum of all parts, each as often as it counts.
pub open spec fn balance(weights: ScoringWeights, parts: ScoreBreakdown) -> real {
    rounding::value(weights.similarity) * rounding::value(parts.similarity) + rounding::value(
        weights.trust,
    ) * rounding::value(parts.trust) + rounding::value(weights.recency) * rounding::value(
        parts.recency,
    ) + rounding::value(weights.semantic_mass) * rounding::value(parts.semantic_mass)
}

/// The exact sum of the sizes of all parts, each as often as it counts.
pub open spec fn balance_size(weights: ScoringWeights, parts: ScoreBreakdown) -> real {
    rounding::size(rounding::value(weights.similarity) * rounding::value(parts.similarity))
        + rounding::size(rounding::value(weights.trust) * rounding::value(parts.trust))
        + rounding::size(rounding::value(weights.recency) * rounding::value(parts.recency))
        + rounding::size(
        rounding::value(weights.semantic_mass) * rounding::value(parts.semantic_mass),
    )
}

/// Whether a score is what its parts add up to: in arithmetic that rounds it is the exact
/// sum, forced between zero and one, but for rounding.
pub open spec fn adds_up(
    m: Arithmetic,
    weights: ScoringWeights,
    parts: ScoreBreakdown,
    score: Single,
) -> bool {
    rounding::rounds(m) && tame(weights.similarity) && tame(weights.trust) && tame(weights.recency)
        && tame(weights.semantic_mass) && tame(parts.similarity) && tame(parts.trust) && tame(
        parts.recency,
    ) && tame(parts.semantic_mass) ==> {
        &&& score.finite()
        &&& rounding::size(
            rounding::value(score) - rounding::between(
                balance(weights, parts),
                0 as real,
                1 as real,
            ),
        ) <= (balance_size(weights, parts) + 1 as real) / 1000000 as real
    }
}

proof fn lemma_term(m: Arithmetic, weight: Single, part: Single)
    requires
        rounding::rounds(m),
        tame(weight),
        tame(part),
    ensures
        ({
            let exact = rounding::value(weight) * rounding::value(part);
            let term = fpu::product(m, weight, part);
            &&& term.finite()
            &&& rounding::size(exact) <= 1000000 as real
            &&& rounding::size(rounding::value(term) - exact) <= rounding::size(exact)
                / 16777216 as real + 1 as real / 1000000000000 as real
        }),
{
    rounding::lemma_extremes();
    let exact = rounding::value(weight) * rounding::value(part);
    let (x, y) = (rounding::value(weight), rounding::value(part));
    assert(-(1000000 as real) <= x * y <= 1000000 as real) by (nonlinear_arith)
        requires
            -(1000 as real) <= x <= 1000 as real,
            -(1000 as real) <= y <= 1000 as real,
    ;
    let term = fpu::product(m, weight, part);
    assert(rounding::rounded(term, exact, rounding::speck()));
    let u = rounding::slip();
    let a = rounding::size(exact);
    assert(u * a == a / 16777216 as real) by (nonlinear_arith)
        requires
            u == 1 as real / 16777216 as real,
    ;
}

proof fn lemma_tame_sum(m: Arithmetic, a: Single, b: Single)
    requires
        rounding::rounds(m),
        a.finite() && b.finite(),
        rounding::size(rounding::value(a)) <= 10000000 as real,
        rounding::size(rounding::value(b)) <= 10000000 as real,
    ensures
        fpu::sum(m, a, b).finite(),
        rounding::size(
            rounding::value(fpu::sum(m, a, b)) - (rounding::value(a) + rounding::value(b)),
        ) <= (rounding::size(rounding::value(a)) + rounding::size(rounding::value(b)))
            / 16777216 as real,
{
    rounding::lemma_extremes();
    let exact = rounding::value(a) + rounding::value(b);
    assert(rounding::rounded(fpu::sum(m, a, b), exact, 0 as real));
    let u = rounding::slip();
    let y = rounding::size(exact);
    assert(u * y == y / 16777216 as real) by (nonlinear_arith)
        requires
            u == 1 as real / 16777216 as real,
    ;
}

/// How far a running sum is off after one more term.
spec fn carried(off: real, heap: real, x: real) -> real {
    off + (heap + off + 3 as real * x) / 16777216 as real + 2 as real / 1000000000000 as real
}

/// One more term of a running sum, which is off by no more than `off`.
proof fn lemma_carried(
    m: Arithmetic,
    sum: Single,
    exact: real,
    heap: real,
    off: real,
    w: Single,
    p: Single,
)
    requires
        rounding::rounds(m),
        tame(w),
        tame(p),
        sum.finite(),
        rounding::size(exact) <= heap <= 3000000 as real,
        rounding::size(rounding::value(sum) - exact) <= off <= 1000 as real,
    ensures
        ({
            let x = rounding::value(w) * rounding::value(p);
            let next = fpu::sum(m, sum, fpu::product(m, w, p));
            &&& next.finite()
            &&& rounding::size(x) <= 1000000 as real
            &&& rounding::size(exact + x) <= heap + rounding::size(x)
            &&& rounding::size(rounding::value(next) - (exact + x)) <= carried(
                off,
                heap,
                rounding::size(x),
            )
        }),
{
    lemma_term(m, w, p);
    let term = fpu::product(m, w, p);
    lemma_tame_sum(m, sum, term);
}

/// How far four terms can carry a sum off.
proof fn lemma_four(a: real, b: real, c: real, d: real)
    requires
        0 as real <= a <= 1000000 as real,
        0 as real <= b <= 1000000 as real,
        0 as real <= c <= 1000000 as real,
        0 as real <= d <= 1000000 as real,
    ensures
        ({
            let e = a / 16777216 as real + 1 as real / 1000000000000 as real;
            let f = carried(e, a, b);
            let g = carried(f, a + b, c);
            &&& 0 as real <= e <= 1000 as real
            &&& 0 as real <= f <= 1000 as real
            &&& 0 as real <= g <= 1000 as real
            &&& carried(g, a + b + c, d) <= (a + b + c + d + 1 as real) / 1000000 as real
        }),
{
}

/// A score is what its parts add up to.
pub proof fn scores_add_up(m: Arithmetic, weights: ScoringWeights, parts: ScoreBreakdown)
    ensures
        adds_up(m, weights, parts, score_of(m, weights, parts)),
{
    if rounding::rounds(m) && tame(weights.similarity) && tame(weights.trust) && tame(
        weights.recency,
    ) && tame(weights.semantic_mass) && tame(parts.similarity) && tame(parts.trust) && tame(
        parts.recency,
    ) && tame(parts.semantic_mass) {
        let x = rounding::value(weights.similarity) * rounding::value(parts.similarity);
        let y = rounding::value(weights.trust) * rounding::value(parts.trust);
        let z = rounding::value(weights.recency) * rounding::value(parts.recency);
        let v = rounding::value(weights.semantic_mass) * rounding::value(parts.semantic_mass);
        let (a, b, c, d) = (
            rounding::size(x),
            rounding::size(y),
            rounding::size(z),
            rounding::size(v),
        );
        lemma_term(m, weights.similarity, parts.similarity);
        lemma_term(m, weights.trust, parts.trust);
        lemma_term(m, weights.recency, parts.recency);
        lemma_term(m, weights.semantic_mass, parts.semantic_mass);
        lemma_four(a, b, c, d);
        let first = fpu::product(m, weights.similarity, parts.similarity);
        let e = a / 16777216 as real + 1 as real / 1000000000000 as real;
        lemma_carried(m, first, x, a, e, weights.trust, parts.trust);
        let second = fpu::sum(m, first, fpu::product(m, weights.trust, parts.trust));
        let f = carried(e, a, b);
        lemma_carried(m, second, x + y, a + b, f, weights.recency, parts.recency);
        let third = fpu::sum(m, second, fpu::product(m, weights.recency, parts.recency));
        let g = carried(f, a + b, c);
        lemma_carried(
            m,
            third,
            x + y + z,
            a + b + c,
            g,
            weights.semantic_mass,
            parts.semantic_mass,
        );
        let sum = fpu::sum(
            m,
            third,
            fpu::product(m, weights.semantic_mass, parts.semantic_mass),
        );
        lemma_forced(sum, x + y + z + v, (a + b + c + d + 1 as real) / 1000000 as real);
    }
}

/// What is forced between zero and one is off by no more than before.
proof fn lemma_forced(sum: Single, exact: real, off: real)
    requires
        sum.finite(),
        rounding::size(rounding::value(sum) - exact) <= off,
    ensures
        relation::unit_clamped(sum).finite(),
        rounding::size(
            rounding::value(relation::unit_clamped(sum)) - rounding::between(
                exact,
                0 as real,
                1 as real,
            ),
        ) <= off,
{
    rounding::lemma_constants();
    rounding::lemma_clamped(sum, Single { bits: 0 }, Single { bits: SINGLE_ONE });
}

/// Whether a score and its parts are those of an entity: each part is what it measures,
/// and the score is what they add up to.
pub open spec fn rates(
    m: Arithmetic,
    weights: ScoringWeights,
    query: Option<Seq<Single>>,
    now: u64,
    node: NodeData,
    parts: ScoreBreakdown,
    score: Single,
) -> bool {
    &&& alike(m, query, node.semantic_vector, parts.similarity)
    &&& node.trust.finite() ==> rounding::value(parts.trust) == rounding::between(
        rounding::value(node.trust),
        0 as real,
        1 as real,
    )
    &&& fades(m, now, node.updated_at_ms, parts.recency)
    &&& node.semantic_mass.finite() ==> rounding::value(parts.semantic_mass) == rounding::between(
        rounding::value(node.semantic_mass),
        0 as real,
        1 as real,
    )
    &&& adds_up(m, weights, parts, score)
}

/// The score of an entity measures its similarity, trust, recency and mass.
pub proof fn scores_measure_entities(
    m: Arithmetic,
    weights: ScoringWeights,
    query: Option<Seq<Single>>,
    now: u64,
    node: NodeData,
)
    ensures
        rates(
            m,
            weights,
            query,
            now,
            node,
            breakdown_of(m, query, now, node),
            score_of(m, weights, breakdown_of(m, query, now, node)),
        ),
{
    rounding::lemma_constants();
    similarity_compares_embeddings(m, query, node.semantic_vector);
    recency_falls_with_age(m, now, node.updated_at_ms);
    scores_add_up(m, weights, breakdown_of(m, query, now, node));
    if node.trust.finite() {
        rounding::lemma_clamped(node.trust, Single { bits: 0 }, Single { bits: SINGLE_ONE });
    }
    if node.semantic_mass.finite() {
        rounding::lemma_clamped(
            node.semantic_mass,
            Single { bits: 0 },
            Single { bits: SINGLE_ONE },
        );
    }
}

impl<'a> Scorer<'a> {
    pub(crate) fn score<F: Fn(Flop) -> u64>(&self, fpu: &Fpu<F>, node: &NodeView) -> (result: (
        Single,
        ScoreBreakdown,
    ))
        ensures
            result.1 == breakdown_of(
                fpu@,
                optional_vector(*self.query_vector),
                self.now_ms,
                node@,
            ),
            result.0 == score_of(fpu@, self.weights, result.1),
            rates(
                fpu@,
                self.weights,
                optional_vector(*self.query_vector),
                self.now_ms,
                node@,
                result.1,
                result.0,
            ),
    {
        proof {
            scores_measure_entities(
                fpu@,
                self.weights,
                optional_vector(*self.query_vector),
                self.now_ms,
                node@,
            );
        }
        let similarity = self.cosine_similarity(fpu, node);
        let trust = clamp_unit(node.trust);
        let recency = self.recency_weight(fpu, node.updated_at_ms);
        let semantic_mass = clamp_unit(node.semantic_mass);
        let sum = fpu.add(
            fpu.add(
                fpu.add(
                    fpu.mul(self.weights.similarity, similarity),
                    fpu.mul(self.weights.trust, trust),
                ),
                fpu.mul(self.weights.recency, recency),
            ),
            fpu.mul(self.weights.semantic_mass, semantic_mass),
        );
        (clamp_unit(sum), ScoreBreakdown { similarity, trust, recency, semantic_mass })
    }

    fn cosine_similarity<F: Fn(Flop) -> u64>(&self, fpu: &Fpu<F>, node: &NodeView) -> (result:
        Single)
        ensures
            result == similarity_of(
                fpu@,
                optional_vector(*self.query_vector),
                node.semantic_vector@,
            ),
            alike(
                fpu@,
                optional_vector(*self.query_vector),
                node.semantic_vector@,
                result,
            ),
    {
        proof {
            similarity_compares_embeddings(
                fpu@,
                optional_vector(*self.query_vector),
                node.semantic_vector@,
            );
        }
        match self.query_vector {
            Some(query) => {
                if query.len() != node.semantic_vector.len() {
                    Single::zero()
                } else {
                    clamp_unit(inner_of(fpu, query.as_slice(), node.semantic_vector.as_slice()))
                }
            },
            None => Single::zero(),
        }
    }

    fn recency_weight<F: Fn(Flop) -> u64>(&self, fpu: &Fpu<F>, updated_at_ms: u64) -> (result:
        Single)
        ensures
            result == recency_of(fpu@, self.now_ms, updated_at_ms),
            fades(fpu@, self.now_ms, updated_at_ms, result),
    {
        proof {
            recency_falls_with_age(fpu@, self.now_ms, updated_at_ms);
        }
        let age: u64 = if self.now_ms >= updated_at_ms {
            self.now_ms - updated_at_ms
        } else {
            0
        };
        let ratio = fpu.wide_div(fpu.wide_from_int(age), Double { bits: RECENCY_HALF_LIFE_MS });
        fpu.narrow(fpu.wide_exp(ratio.neg()))
    }
}

/// A score lies between zero and one, unless the parts add up to no number.
pub proof fn scores_lie_in_the_unit_interval(
    m: Arithmetic,
    weights: ScoringWeights,
    parts: ScoreBreakdown,
)
    ensures
        score_of(m, weights, parts).nan() || ((Single { bits: 0 }).at_most(
            score_of(m, weights, parts),
        ) && score_of(m, weights, parts).at_most(Single { bits: SINGLE_ONE })),
{
}

} // verus!
