//! The walk itself: which entity comes next, and what a visit changes.

use std::collections::{HashMap, HashSet};

use vstd::prelude::*;

use crate::doubles;
use crate::error::PiriaError;
use crate::float::Single;
use crate::fpu;
use crate::fpu::{Arithmetic, Flop, Fpu};
use crate::frontier;
use crate::frontier::{empty_queue, pop, push, push_increase};
use crate::outside::now_ms;
use crate::relation::RelationType;
use crate::rounding;
use crate::traversal;
use crate::traversal::{
    EdgeView, GraphView, NodeData, Scorer, ScoringWeights, SemanticQuery,
    TraversalConfig, TraversalHit, TraversalResult, ATTENTION_FLOOR, SINGULARITY_CAP,
};

verus! {

broadcast use vstd::std_specs::hash::group_hash_axioms;

/// Everything that decides how a walk goes.
#[verifier::ext_equal]
pub struct Plan {
    pub m: Arithmetic,
    pub nodes: Map<u128, NodeData>,
    pub query: Option<Seq<Single>>,
    pub weights: ScoringWeights,
    pub now: u64,
    pub budget: u64,
    pub max_depth: usize,
    pub score_threshold: Single,
    pub min_trust: Single,
    pub allowed: Option<Seq<RelationType>>,
}

/// Where a walk stands.
#[verifier::ext_equal]
pub struct Walk {
    /// Entities to visit, with their distance from the start, and how urgent
    /// each one is.
    pub queue: Map<(u128, usize), (i64, u128)>,
    pub visited: Set<u128>,
    /// The attention of each entity.
    pub attention: Map<u128, u64>,
    pub hits: Seq<TraversalHit>,
    /// What is left of the budget.
    pub budget: u64,
    /// The number of relations that were looked at.
    pub edges: nat,
}

/// The plan that a graph, a query, a configuration and a time make up.
pub open spec fn plan_of(
    m: Arithmetic,
    nodes: Map<u128, NodeData>,
    query: SemanticQuery,
    config: TraversalConfig,
    now: u64,
) -> Plan {
    Plan {
        m,
        nodes,
        query: traversal::optional_vector(query.query_vector),
        weights: match config.scoring_weights {
            Some(weights) => weights,
            None => traversal::default_weights(),
        },
        now,
        budget: config.budget,
        max_depth: config.max_depth,
        score_threshold: config.score_threshold,
        min_trust: config.min_trust,
        allowed: match config.allowed_relation_types {
            Some(types) => Some(types@),
            None => None,
        },
    }
}

/// The larger of two amounts.
pub open spec fn at_least(amount: u64, least: u64) -> u64 {
    if amount >= least {
        amount
    } else {
        least
    }
}

/// The smaller of two amounts.
pub open spec fn at_most(amount: u64, most: u64) -> u64 {
    if amount <= most {
        amount
    } else {
        most
    }
}

/// One less, as far as there is something.
pub open spec fn less_one(amount: u64) -> u64 {
    if amount > 0 {
        (amount - 1) as u64
    } else {
        0
    }
}

/// The most attention that a single entity can get.
pub open spec fn cap_of(m: Arithmetic, budget: u64) -> u64 {
    fpu::integer_of(m, fpu::product(m, fpu::single_of(m, budget), Single { bits: SINGULARITY_CAP }))
}

/// The most attention that a relation can hand on: the cap, but never less than
/// the floor, which everybody in reach gets.
pub open spec fn ceiling_of(m: Arithmetic, budget: u64) -> u64 {
    at_least(cap_of(m, budget), ATTENTION_FLOOR)
}

/// How urgent an entity with so much attention is.
pub open spec fn urgency(attention: u64, id: u128) -> (i64, u128) {
    (attention as i64, id)
}

/// A walk before its first step.
pub open spec fn departure(p: Plan, start: u128) -> Walk {
    let attention = at_most(p.budget, cap_of(p.m, p.budget));
    Walk {
        queue: Map::empty().insert((start, 0usize), urgency(attention, start)),
        visited: Set::empty(),
        attention: Map::empty().insert(start, at_least(attention, ATTENTION_FLOOR)),
        hits: Seq::empty(),
        budget: p.budget,
        edges: 0,
    }
}

/// The attention of an entity, none where it has not got any.
pub open spec fn attention_of(w: Walk, id: u128) -> u64 {
    if w.attention.contains_key(id) {
        w.attention[id]
    } else {
        0
    }
}

/// Whether relations of a type are followed.
pub open spec fn followed(p: Plan, relation_type: RelationType) -> bool {
    match p.allowed {
        Some(types) => types.contains(relation_type),
        None => true,
    }
}

/// The attention that a relation hands on: that of its source times its weight
/// and its trust, at least the floor and at most the ceiling.
pub open spec fn handed_on(p: Plan, attention: u64, edge: EdgeView) -> u64 {
    at_most(
        at_least(
            fpu::integer_of(
                p.m,
                fpu::product(
                    p.m,
                    fpu::product(p.m, fpu::single_of(p.m, attention), edge.weight),
                    edge.trust_at_creation,
                ),
            ),
            ATTENTION_FLOOR,
        ),
        ceiling_of(p.m, p.budget),
    )
}

/// A walk after one relation of an entity at `depth` with so much attention was
/// looked at.
pub open spec fn along(p: Plan, w: Walk, attention: u64, depth: usize, edge: EdgeView) -> Walk {
    let target = edge.target_orb_id;
    if !followed(p, edge.relation_type) || w.visited.contains(target) {
        Walk { budget: less_one(w.budget), edges: w.edges + 1, ..w }
    } else {
        let share = handed_on(p, attention, edge);
        let known = attention_of(w, target);
        Walk {
            queue: if share > known {
                frontier::raised(w.queue, (target, (depth + 1) as usize), urgency(share, target))
            } else {
                w.queue
            },
            attention: w.attention.insert(target, at_least(share, known)),
            edges: w.edges + 1,
            ..w
        }
    }
}

/// A walk after all of these relations were looked at.
pub open spec fn along_all(
    p: Plan,
    w: Walk,
    attention: u64,
    depth: usize,
    edges: Seq<EdgeView>,
) -> Walk
    decreases edges.len(),
{
    if edges.len() == 0 {
        w
    } else {
        along(p, along_all(p, w, attention, depth, edges.drop_last()), attention, depth, edges.last())
    }
}

/// The hit that an entity is, if its score is high enough.
pub open spec fn hit_of(p: Plan, w: Walk, id: u128, depth: usize) -> TraversalHit {
    let parts = traversal::breakdown_of(p.m, p.query, p.now, p.nodes[id]);
    TraversalHit {
        orb_id: id,
        score: traversal::score_of(p.m, p.weights, parts),
        depth,
        score_breakdown: parts,
        attention_allocated: if w.attention.contains_key(id) {
            w.attention[id]
        } else {
            ATTENTION_FLOOR
        },
    }
}

/// A walk after an entity was looked at, before its relations are.
pub open spec fn looked_at(p: Plan, w: Walk, id: u128, depth: usize) -> Walk {
    let hit = hit_of(p, w, id, depth);
    Walk {
        hits: if p.score_threshold.at_most(hit.score) {
            w.hits.push(hit)
        } else {
            w.hits
        },
        ..w
    }
}

/// A walk after its next entity left the queue and was visited. An entity is
/// visited once and within the largest distance; one that is not in the graph or
/// not trusted enough leads nowhere.
pub open spec fn visit(p: Plan, w: Walk, item: (u128, usize)) -> Walk {
    let (id, depth) = item;
    let popped = Walk { queue: w.queue.remove(item), ..w };
    let entered = Walk { visited: w.visited.insert(id), ..popped };
    let charged = Walk { budget: less_one(w.budget), ..entered };
    if w.visited.contains(id) || depth > p.max_depth {
        popped
    } else if !p.nodes.contains_key(id) {
        entered
    } else if p.nodes[id].trust.below(p.min_trust) {
        charged
    } else {
        let seen = looked_at(p, charged, id, depth);
        if depth < p.max_depth {
            along_all(
                p,
                seen,
                hit_of(p, charged, id, depth).attention_allocated,
                depth,
                p.nodes[id].edges,
            )
        } else {
            seen
        }
    }
}

/// The item that leaves a queue next.
pub open spec fn next_item(queue: Map<(u128, usize), (i64, u128)>) -> (u128, usize) {
    choose|item: (u128, usize)| frontier::on_top(queue, item)
}

/// Where a walk ends: the walk, and whether it ended because the budget was used
/// up while entities were left.
pub open spec fn arrival(p: Plan, w: Walk) -> (Walk, bool)
    decreases w.budget, w.queue.dom().len(),
    when w.queue.dom().finite()
    via arrival_comes
{
    let item = next_item(w.queue);
    if !frontier::on_top(w.queue, item) {
        (w, false)
    } else if w.budget == 0 {
        (w, true)
    } else {
        arrival(p, visit(p, w, item))
    }
}

#[via_fn]
proof fn arrival_comes(p: Plan, w: Walk) {
    let item = next_item(w.queue);
    if frontier::on_top(w.queue, item) && w.budget != 0 {
        lemma_visit_progress(p, w, item);
    }
}

proof fn lemma_along_all_progress(
    p: Plan,
    w: Walk,
    attention: u64,
    depth: usize,
    edges: Seq<EdgeView>,
)
    requires
        w.queue.dom().finite(),
    ensures
        along_all(p, w, attention, depth, edges).queue.dom().finite(),
        along_all(p, w, attention, depth, edges).budget <= w.budget,
    decreases edges.len(),
{
    if edges.len() > 0 {
        lemma_along_all_progress(p, w, attention, depth, edges.drop_last());
    }
}

/// A visit costs something or makes the queue shorter.
proof fn lemma_visit_progress(p: Plan, w: Walk, item: (u128, usize))
    requires
        w.queue.dom().finite(),
        w.queue.contains_key(item),
        w.budget > 0,
    ensures
        visit(p, w, item).queue.dom().finite(),
        visit(p, w, item).budget < w.budget || (visit(p, w, item).budget == w.budget && visit(
            p,
            w,
            item,
        ).queue.dom().len() < w.queue.dom().len()),
{
    let (id, depth) = item;
    let popped = Walk { queue: w.queue.remove(item), ..w };
    let entered = Walk { visited: w.visited.insert(id), ..popped };
    let charged = Walk { budget: less_one(w.budget), ..entered };
    assert(popped.queue.dom() =~= w.queue.dom().remove(item));
    if p.nodes.contains_key(id) {
        let seen = looked_at(p, charged, id, depth);
        lemma_along_all_progress(
            p,
            seen,
            hit_of(p, charged, id, depth).attention_allocated,
            depth,
            p.nodes[id].edges,
        );
    }
}

// ---------------------------------------------------------------------------
// Ties
// ---------------------------------------------------------------------------

proof fn lemma_urgency_injective(a: u64)
    ensures
        (a as i64) as u64 == a,
{
    assert((a as i64) as u64 == a) by (bit_vector);
}

/// No two items of the queue are equally urgent: items of one entity differ in
/// the attention that they were queued with, none of which exceeds what the
/// entity has got since.
pub open spec fn tie_free(w: Walk) -> bool {
    &&& forall|item: (u128, usize)| #[trigger]
        w.queue.contains_key(item) ==> w.queue[item].1 == item.0 && w.attention.contains_key(item.0)
            && (w.queue[item].0 as u64) <= w.attention[item.0]
    &&& forall|a: (u128, usize), b: (u128, usize)|
        #![trigger w.queue.contains_key(a), w.queue.contains_key(b)]
        w.queue.contains_key(a) && w.queue.contains_key(b) && a != b ==> w.queue[a] != w.queue[b]
}

proof fn lemma_along_tie_free(p: Plan, w: Walk, attention: u64, depth: usize, edge: EdgeView)
    requires
        tie_free(w),
    ensures
        tie_free(along(p, w, attention, depth, edge)),
{
    let target = edge.target_orb_id;
    if followed(p, edge.relation_type) && !w.visited.contains(target) {
        let share = handed_on(p, attention, edge);
        let next = along(p, w, attention, depth, edge);
        let item = (target, (depth + 1) as usize);
        lemma_urgency_injective(share);
        assert forall|a: (u128, usize), b: (u128, usize)|
            #![trigger next.queue.contains_key(a), next.queue.contains_key(b)]
            next.queue.contains_key(a) && next.queue.contains_key(b) && a
                != b implies next.queue[a] != next.queue[b] by {
            if a != item {
                assert(w.queue.contains_key(a));
            }
            if b != item {
                assert(w.queue.contains_key(b));
            }
        }
        assert forall|a: (u128, usize)| #[trigger]
            next.queue.contains_key(a) implies next.queue[a].1 == a.0
            && next.attention.contains_key(a.0) && (next.queue[a].0 as u64)
            <= next.attention[a.0] by {
            if a != item {
                assert(w.queue.contains_key(a));
            } else if w.queue.contains_key(item) {
                assert((w.queue[item].0 as u64) <= w.attention[item.0]);
            }
        }
    }
}

proof fn lemma_along_all_tie_free(
    p: Plan,
    w: Walk,
    attention: u64,
    depth: usize,
    edges: Seq<EdgeView>,
)
    requires
        tie_free(w),
    ensures
        tie_free(along_all(p, w, attention, depth, edges)),
    decreases edges.len(),
{
    if edges.len() > 0 {
        lemma_along_all_tie_free(p, w, attention, depth, edges.drop_last());
        lemma_along_tie_free(
            p,
            along_all(p, w, attention, depth, edges.drop_last()),
            attention,
            depth,
            edges.last(),
        );
    }
}

proof fn lemma_visit_tie_free(p: Plan, w: Walk, item: (u128, usize))
    requires
        tie_free(w),
    ensures
        tie_free(visit(p, w, item)),
{
    let (id, depth) = item;
    let popped = Walk { queue: w.queue.remove(item), ..w };
    let entered = Walk { visited: w.visited.insert(id), ..popped };
    let charged = Walk { budget: less_one(w.budget), ..entered };
    assert forall|a: (u128, usize), b: (u128, usize)|
        #![trigger popped.queue.contains_key(a), popped.queue.contains_key(b)]
        popped.queue.contains_key(a) && popped.queue.contains_key(b) && a
            != b implies popped.queue[a] != popped.queue[b] by {
        assert(w.queue.contains_key(a) && w.queue.contains_key(b));
    }
    assert forall|a: (u128, usize)| #[trigger]
        popped.queue.contains_key(a) implies popped.queue[a].1 == a.0
        && popped.attention.contains_key(a.0) && (popped.queue[a].0 as u64)
        <= popped.attention[a.0] by {
        assert(w.queue.contains_key(a));
    }
    assert(tie_free(popped));
    assert(tie_free(charged));
    let seen = looked_at(p, charged, id, depth);
    assert(tie_free(seen));
    lemma_along_all_tie_free(
        p,
        seen,
        hit_of(p, charged, id, depth).attention_allocated,
        depth,
        p.nodes[id].edges,
    );
}

proof fn lemma_departure_tie_free(p: Plan, start: u128)
    ensures
        tie_free(departure(p, start)),
        departure(p, start).queue.dom().finite(),
{
    lemma_urgency_injective(at_most(p.budget, cap_of(p.m, p.budget)));
}

/// Where there are no ties, whatever is on top of the queue comes next.
proof fn lemma_next_is_unique(w: Walk, item: (u128, usize))
    requires
        tie_free(w),
        frontier::on_top(w.queue, item),
    ensures
        next_item(w.queue) == item,
{
    let other = next_item(w.queue);
    assert(frontier::on_top(w.queue, other));
    assert(w.queue.contains_key(item) && w.queue.contains_key(other));
    if other != item {
        assert(w.queue[item] != w.queue[other]);
        assert(!frontier::lower(w.queue[item], w.queue[other]));
        assert(!frontier::lower(w.queue[other], w.queue[item]));
    }
}

// ---------------------------------------------------------------------------
// Results
// ---------------------------------------------------------------------------

/// A list of hits, the highest score first, with one more put behind those whose
/// score is not lower.
pub open spec fn ranked_in(ranked: Seq<TraversalHit>, hit: TraversalHit) -> Seq<TraversalHit>
    decreases ranked.len(),
{
    if ranked.len() == 0 || !ranked.last().score.below(hit.score) {
        ranked.push(hit)
    } else {
        ranked_in(ranked.drop_last(), hit).push(ranked.last())
    }
}

/// Hits with the highest score first; those of the same score in the order in
/// which they were found.
pub open spec fn ranking(hits: Seq<TraversalHit>) -> Seq<TraversalHit>
    decreases hits.len(),
{
    if hits.len() == 0 {
        hits
    } else {
        ranked_in(ranking(hits.drop_last()), hits.last())
    }
}

/// Whether a result is what a walk comes to.
pub open spec fn reports(p: Plan, start: u128, result: TraversalResult) -> bool {
    let (w, exhausted) = arrival(p, departure(p, start));
    &&& result.hits@ == ranking(w.hits)
    &&& result.budget_consumed == p.budget - w.budget
    &&& result.nodes_visited == w.visited.len()
    &&& result.edges_traversed == (if w.edges <= usize::MAX {
        w.edges
    } else {
        usize::MAX as nat
    })
    &&& result.budget_exhausted == exhausted
}

proof fn lemma_ranked_in(ranked: Seq<TraversalHit>, hit: TraversalHit, pos: int)
    requires
        0 <= pos <= ranked.len(),
        pos > 0 ==> !ranked[pos - 1].score.below(hit.score),
        forall|j: int| pos <= j < ranked.len() ==> (#[trigger] ranked[j]).score.below(hit.score),
    ensures
        ranked_in(ranked, hit) == ranked.insert(pos, hit),
    decreases ranked.len(),
{
    if pos == ranked.len() {
        assert(ranked.insert(pos, hit) =~= ranked.push(hit));
    } else {
        lemma_ranked_in(ranked.drop_last(), hit, pos);
        assert(ranked.insert(pos, hit) =~= ranked.drop_last().insert(pos, hit).push(ranked.last()));
    }
}

/// Walks through graphs.
pub struct TraversalEngine;

fn allows(allowed: &Option<Vec<RelationType>>, relation_type: RelationType) -> (result: bool)
    ensures
        result == (allowed matches Some(types) ==> types@.contains(relation_type)),
{
    match allowed {
        None => true,
        Some(types) => {
            let mut i: usize = 0;
            while i < types.len()
                invariant
                    i <= types@.len(),
                    *allowed matches Some(list) && list@ == types@,
                    forall|j: int| 0 <= j < i ==> types@[j] != relation_type,
                decreases types@.len() - i,
            {
                if types[i] == relation_type {
                    assert(types@[i as int] == relation_type);
                    return true;
                }
                i += 1;
            }
            false
        },
    }
}

fn cap_units<F: Fn(Flop) -> u64>(fpu: &Fpu<F>, budget: u64) -> (cap: u64)
    ensures
        cap == cap_of(fpu@, budget),
{
    fpu.to_int(fpu.mul(fpu.from_int(budget), Single::from_bits(SINGULARITY_CAP)))
}

impl TraversalEngine {
    /// Walks through a graph from an entity, as of `now`.
    pub fn traverse_at<F: Fn(Flop) -> u64, G: GraphView>(
        fpu: &Fpu<F>,
        graph: &G,
        start_orb_id: u128,
        query: &SemanticQuery,
        config: &TraversalConfig,
        now: u64,
    ) -> (result: Result<TraversalResult, PiriaError>)
        ensures
            result matches Ok(report) && reports(
                plan_of(fpu@, graph.nodes(), *query, *config, now),
                start_orb_id,
                report,
            ) && answers(fpu@, graph.nodes(), *query, *config, now, start_orb_id, report),
    {
        let ghost p = plan_of(fpu@, graph.nodes(), *query, *config, now);
        let weights = match config.scoring_weights {
            Some(weights) => weights,
            None => ScoringWeights::default(),
        };
        let scorer = Scorer { weights, query_vector: &query.query_vector, now_ms: now };
        let mut queue = empty_queue();
        let mut visited: HashSet<u128> = HashSet::new();
        let mut attention: HashMap<u128, u64> = HashMap::new();
        let mut hits: Vec<TraversalHit> = Vec::new();
        let mut budget_remaining: u64 = config.budget;
        let mut edges_traversed: usize = 0;
        let cap: u64 = cap_units(fpu, config.budget);
        let start_alloc: u64 = if config.budget <= cap {
            config.budget
        } else {
            cap
        };
        push(&mut queue, (start_orb_id, 0usize), (start_alloc as i64, start_orb_id));
        attention.insert(
            start_orb_id,
            if start_alloc >= ATTENTION_FLOOR {
                start_alloc
            } else {
                ATTENTION_FLOOR
            },
        );
        let ceiling: u64 = if cap >= ATTENTION_FLOOR {
            cap
        } else {
            ATTENTION_FLOOR
        };
        let ghost mut w = departure(p, start_orb_id);
        proof {
            lemma_departure_tie_free(p, start_orb_id);
            assert(frontier::queued(queue) =~= w.queue);
        }
        loop
            invariant
                p == plan_of(fpu@, graph.nodes(), *query, *config, now),
                scorer.weights == p.weights,
                *scorer.query_vector == query.query_vector,
                scorer.now_ms == now,
                ceiling == ceiling_of(fpu@, config.budget),
                arrival(p, w) == arrival(p, departure(p, start_orb_id)),
                tie_free(w),
                w.queue.dom().finite(),
                w.budget <= p.budget,
                w.queue == frontier::queued(queue),
                w.visited == visited@,
                w.attention == attention@,
                w.hits == hits@,
                w.budget == budget_remaining,
                edges_traversed == (if w.edges <= usize::MAX {
                    w.edges
                } else {
                    usize::MAX as nat
                }),
            decreases w.budget, w.queue.dom().len(),
        {
            let item = match pop(&mut queue) {
                None => {
                    assert(!frontier::on_top(w.queue, next_item(w.queue)));
                    let report = TraversalResult {
                        hits: TraversalEngine::sorted_hits(hits),
                        budget_consumed: config.budget - budget_remaining,
                        nodes_visited: visited.len(),
                        edges_traversed,
                        budget_exhausted: false,
                    };
                    proof {
                        walks_answer_queries(
                            fpu@,
                            graph.nodes(),
                            *query,
                            *config,
                            now,
                            start_orb_id,
                            report,
                        );
                    }
                    return Ok(report);
                },
                Some(entry) => entry.0,
            };
            proof {
                lemma_next_is_unique(w, item);
            }
            if budget_remaining == 0 {
                let report = TraversalResult {
                    hits: TraversalEngine::sorted_hits(hits),
                    budget_consumed: config.budget,
                    nodes_visited: visited.len(),
                    edges_traversed,
                    budget_exhausted: true,
                };
                proof {
                    walks_answer_queries(
                        fpu@,
                        graph.nodes(),
                        *query,
                        *config,
                        now,
                        start_orb_id,
                        report,
                    );
                }
                return Ok(report);
            }
            let ghost before = w;
            proof {
                lemma_visit_progress(p, before, item);
                lemma_visit_tie_free(p, before, item);
                w = visit(p, before, item);
                assert(arrival(p, before) == arrival(p, w));
            }
            let (id, depth) = item;
            if visited.contains(&id) || depth > config.max_depth {
                continue ;
            }
            visited.insert(id);
            let node = match graph.get_node(id) {
                None => {
                    continue ;
                },
                Some(node) => node,
            };
            budget_remaining = budget_remaining - 1;
            if node.trust.lt(&config.min_trust) {
                continue ;
            }
            let alloc: u64 = match attention.get(&id) {
                Some(units) => *units,
                None => ATTENTION_FLOOR,
            };
            let (score, score_breakdown) = scorer.score(fpu, &node);
            let hit = TraversalHit {
                orb_id: id,
                score,
                depth,
                score_breakdown,
                attention_allocated: alloc,
            };
            if config.score_threshold.le(&score) {
                hits.push(hit);
            }
            let ghost seen = looked_at(
                p,
                Walk {
                    queue: before.queue.remove(item),
                    visited: before.visited.insert(id),
                    budget: less_one(before.budget),
                    ..before
                },
                id,
                depth,
            );
            if depth < config.max_depth {
                let mut i: usize = 0;
                let ghost mut v = seen;
                assert(node.edges@.take(0) =~= Seq::empty());
                while i < node.edges.len()
                    invariant
                        i <= node.edges@.len(),
                        p == plan_of(fpu@, graph.nodes(), *query, *config, now),
                        depth < config.max_depth,
                        ceiling == ceiling_of(fpu@, config.budget),
                        v == along_all(p, seen, alloc, depth, node.edges@.take(i as int)),
                        v.queue == frontier::queued(queue),
                        v.visited == visited@,
                        v.attention == attention@,
                        v.hits == hits@,
                        v.budget == budget_remaining,
                        edges_traversed == (if v.edges <= usize::MAX {
                            v.edges
                        } else {
                            usize::MAX as nat
                        }),
                    decreases node.edges@.len() - i,
                {
                    let edge = node.edges[i];
                    let ghost u = v;
                    proof {
                        assert(node.edges@.take(i + 1).drop_last() =~= node.edges@.take(i as int));
                        v = along(p, u, alloc, depth, edge);
                    }
                    i += 1;
                    edges_traversed = edges_traversed.saturating_add(1);
                    if !allows(&config.allowed_relation_types, edge.relation_type)
                        || visited.contains(&edge.target_orb_id) {
                        budget_remaining = budget_remaining.saturating_sub(1);
                        continue ;
                    }
                    let share: u64 = fpu.to_int(
                        fpu.mul(
                            fpu.mul(fpu.from_int(alloc), edge.weight),
                            edge.trust_at_creation,
                        ),
                    );
                    let share: u64 = if share >= ATTENTION_FLOOR {
                        share
                    } else {
                        ATTENTION_FLOOR
                    };
                    let share: u64 = if share <= ceiling {
                        share
                    } else {
                        ceiling
                    };
                    let known: u64 = match attention.get(&edge.target_orb_id) {
                        Some(units) => *units,
                        None => 0,
                    };
                    if share > known {
                        attention.insert(edge.target_orb_id, share);
                        push_increase(
                            &mut queue,
                            (edge.target_orb_id, depth + 1),
                            (share as i64, edge.target_orb_id),
                        );
                    } else {
                        attention.insert(edge.target_orb_id, known);
                    }
                    assert(v.attention =~= attention@);
                }
                assert(node.edges@.take(i as int) =~= node.edges@);
            }
        }
    }

    /// Walks through a graph from an entity.
    pub fn traverse<F: Fn(Flop) -> u64, G: GraphView>(
        fpu: &Fpu<F>,
        graph: &G,
        start_orb_id: u128,
        query: &SemanticQuery,
        config: &TraversalConfig,
    ) -> (result: Result<TraversalResult, PiriaError>)
        ensures
            result matches Ok(report) && exists|now: u64|
                reports(
                    #[trigger] plan_of(fpu@, graph.nodes(), *query, *config, now),
                    start_orb_id,
                    report,
                ) && answers(fpu@, graph.nodes(), *query, *config, now, start_orb_id, report),
    {
        let now: u64 = now_ms();
        TraversalEngine::traverse_at(fpu, graph, start_orb_id, query, config, now)
    }

    fn sorted_hits(hits: Vec<TraversalHit>) -> (ranked: Vec<TraversalHit>)
        ensures
            ranked@ == ranking(hits@),
    {
        let mut ranked: Vec<TraversalHit> = Vec::new();
        let mut i: usize = 0;
        while i < hits.len()
            invariant
                i <= hits@.len(),
                ranked@ == ranking(hits@.take(i as int)),
            decreases hits@.len() - i,
        {
            let hit = hits[i];
            let mut pos: usize = ranked.len();
            while pos > 0 && ranked[pos - 1].score.lt(&hit.score)
                invariant
                    pos <= ranked@.len(),
                    forall|j: int|
                        pos <= j < ranked@.len() ==> (#[trigger] ranked@[j]).score.below(
                            hit.score,
                        ),
                decreases pos,
            {
                pos -= 1;
            }
            proof {
                lemma_ranked_in(ranked@, hit, pos as int);
                assert(hits@.take(i + 1).drop_last() =~= hits@.take(i as int));
            }
            ranked.insert(pos, hit);
            i += 1;
        }
        assert(hits@.take(i as int) =~= hits@);
        ranked
    }
}

// ---------------------------------------------------------------------------
// Laws
// ---------------------------------------------------------------------------

/// Whether an entity is in the graph and trusted enough, so that its relations
/// lead on.
pub open spec fn leads_on(p: Plan, id: u128) -> bool {
    p.nodes.contains_key(id) && !p.nodes[id].trust.below(p.min_trust)
}

/// Whether a relation leads from one entity to another: the first one leads on,
/// and relations of that type are followed.
pub open spec fn has_edge(p: Plan, via: u128, i: int, id: u128) -> bool {
    leads_on(p, via) && 0 <= i < p.nodes[via].edges.len() && followed(
        p,
        p.nodes[via].edges[i].relation_type,
    ) && p.nodes[via].edges[i].target_orb_id == id
}

/// Whether there is a way of so many relations from one entity to another, each
/// one followed from an entity that leads on.
pub open spec fn leads(p: Plan, start: u128, id: u128, steps: nat) -> bool
    decreases steps,
{
    if steps == 0 {
        id == start
    } else {
        exists|via: u128, i: int| #[trigger]
            has_edge(p, via, i, id) && leads(p, start, via, (steps - 1) as nat)
    }
}

/// Whether there is a way at all.
pub open spec fn reachable(p: Plan, start: u128, id: u128) -> bool {
    exists|steps: nat| #[trigger] leads(p, start, id, steps)
}

/// Whether there is a way within the largest distance.
pub open spec fn within_reach(p: Plan, start: u128, id: u128) -> bool {
    exists|steps: nat| steps <= p.max_depth && #[trigger] leads(p, start, id, steps)
}

/// Whether the largest distance cuts no way short: it is no less than the number
/// of entities in the graph.
pub open spec fn roomy(p: Plan) -> bool {
    p.nodes.dom().finite() && p.nodes.dom().len() <= p.max_depth
}

/// The entities of the graph that were visited.
pub open spec fn known_visited(p: Plan, w: Walk) -> Set<u128> {
    w.visited.intersect(p.nodes.dom())
}

/// What holds of every hit of a walk: it is the hit of an entity of the graph
/// that is trusted enough, its score reaches the threshold, it lies within the
/// largest distance at the end of a way of that length, and its attention is at
/// least the floor and at most the ceiling.
pub open spec fn proper_hit(p: Plan, start: u128, hit: TraversalHit) -> bool {
    &&& leads_on(p, hit.orb_id)
    &&& p.score_threshold.at_most(hit.score)
    &&& hit.score_breakdown == traversal::breakdown_of(
        p.m,
        p.query,
        p.now,
        p.nodes[hit.orb_id],
    )
    &&& hit.score == traversal::score_of(p.m, p.weights, hit.score_breakdown)
    &&& hit.depth <= p.max_depth
    &&& leads(p, start, hit.orb_id, hit.depth as nat)
    &&& ATTENTION_FLOOR <= hit.attention_allocated <= ceiling_of(p.m, p.budget)
}

/// What holds at every point of a walk.
pub open spec fn sound(p: Plan, start: u128, w: Walk) -> bool {
    &&& w.budget <= p.budget
    &&& w.hits.len() <= p.budget - w.budget
    &&& forall|i: int|
        0 <= i < w.hits.len() ==> proper_hit(p, start, #[trigger] w.hits[i]) && w.visited.contains(
            w.hits[i].orb_id,
        )
    &&& forall|i: int, j: int|
        0 <= i < j < w.hits.len() ==> (#[trigger] w.hits[i]).orb_id != (
        #[trigger] w.hits[j]).orb_id
    &&& forall|item: (u128, usize)| #[trigger]
        w.queue.contains_key(item) ==> leads(p, start, item.0, item.1 as nat)
            && w.attention.contains_key(item.0) && w.attention[item.0] >= ATTENTION_FLOOR
    &&& forall|id: u128| #[trigger]
        w.attention.contains_key(id) ==> w.attention[id] <= ceiling_of(p.m, p.budget)
    &&& w.visited.finite()
    &&& w.hits.len() <= w.visited.len()
    &&& forall|id: u128| #[trigger] w.visited.contains(id) ==> within_reach(p, start, id)
    &&& forall|item: (u128, usize)| #[trigger]
        w.queue.contains_key(item) ==> item.1 <= known_visited(p, w).len()
}

proof fn lemma_along_sound(
    p: Plan,
    start: u128,
    w: Walk,
    attention: u64,
    depth: usize,
    id: u128,
    i: int,
)
    requires
        sound(p, start, w),
        depth < p.max_depth,
        leads_on(p, id),
        0 <= i < p.nodes[id].edges.len(),
        leads(p, start, id, depth as nat),
        depth < known_visited(p, w).len(),
    ensures
        sound(p, start, along(p, w, attention, depth, p.nodes[id].edges[i])),
        along(p, w, attention, depth, p.nodes[id].edges[i]).visited == w.visited,
{
    let edge = p.nodes[id].edges[i];
    let target = edge.target_orb_id;
    let next = along(p, w, attention, depth, edge);
    if followed(p, edge.relation_type) {
        assert(has_edge(p, id, i, target));
        assert(leads(p, start, target, (depth + 1) as nat));
    }
    assert(known_visited(p, next) == known_visited(p, w));
    assert forall|item: (u128, usize)| #[trigger] next.queue.contains_key(item) implies leads(
        p,
        start,
        item.0,
        item.1 as nat,
    ) && next.attention.contains_key(item.0) && next.attention[item.0] >= ATTENTION_FLOOR
        && item.1 <= known_visited(p, next).len() by {
        if w.queue.contains_key(item) {
        } else {
            assert(item == (target, (depth + 1) as usize));
        }
    }
}

proof fn lemma_along_all_sound(
    p: Plan,
    start: u128,
    w: Walk,
    attention: u64,
    depth: usize,
    id: u128,
    n: int,
)
    requires
        sound(p, start, w),
        depth < p.max_depth,
        leads_on(p, id),
        0 <= n <= p.nodes[id].edges.len(),
        leads(p, start, id, depth as nat),
        depth < known_visited(p, w).len(),
    ensures
        sound(p, start, along_all(p, w, attention, depth, p.nodes[id].edges.take(n))),
        along_all(p, w, attention, depth, p.nodes[id].edges.take(n)).visited == w.visited,
    decreases n,
{
    if n > 0 {
        lemma_along_all_sound(p, start, w, attention, depth, id, n - 1);
        let edges = p.nodes[id].edges;
        assert(edges.take(n).drop_last() =~= edges.take(n - 1));
        assert(edges.take(n).last() == edges[n - 1]);
        lemma_along_sound(
            p,
            start,
            along_all(p, w, attention, depth, edges.take(n - 1)),
            attention,
            depth,
            id,
            n - 1,
        );
    }
}

/// Entities of the graph leave the queue at a distance of fewer steps than there
/// are entities.
proof fn lemma_visit_counts(p: Plan, start: u128, w: Walk, item: (u128, usize))
    requires
        sound(p, start, w),
        w.queue.contains_key(item),
        !w.visited.contains(item.0),
    ensures
        ({
            let entered = Walk {
                queue: w.queue.remove(item),
                visited: w.visited.insert(item.0),
                ..w
            };
            &&& known_visited(p, w).len() <= known_visited(p, entered).len()
            &&& p.nodes.contains_key(item.0) ==> item.1 < known_visited(p, entered).len()
            &&& p.nodes.contains_key(item.0) && p.nodes.dom().finite() ==> item.1
                < p.nodes.dom().len()
        }),
{
    let entered = Walk { queue: w.queue.remove(item), visited: w.visited.insert(item.0), ..w };
    if p.nodes.contains_key(item.0) {
        assert(known_visited(p, entered) =~= known_visited(p, w).insert(item.0));
        if p.nodes.dom().finite() {
            vstd::set_lib::lemma_len_subset(known_visited(p, entered), p.nodes.dom());
        }
    } else {
        assert(known_visited(p, entered) =~= known_visited(p, w));
    }
}

proof fn lemma_visit_sound(p: Plan, start: u128, w: Walk, item: (u128, usize))
    requires
        sound(p, start, w),
        w.queue.contains_key(item),
        w.budget > 0,
    ensures
        sound(p, start, visit(p, w, item)),
{
    let (id, depth) = item;
    let popped = Walk { queue: w.queue.remove(item), ..w };
    let entered = Walk { visited: w.visited.insert(id), ..popped };
    let charged = Walk { budget: less_one(w.budget), ..entered };
    assert(known_visited(p, popped) == known_visited(p, w));
    assert forall|other: (u128, usize)| #[trigger] popped.queue.contains_key(other) implies leads(
        p,
        start,
        other.0,
        other.1 as nat,
    ) && popped.attention.contains_key(other.0) && popped.attention[other.0] >= ATTENTION_FLOOR
        && other.1 <= known_visited(p, popped).len() by {
        assert(w.queue.contains_key(other));
    }
    assert(sound(p, start, popped));
    if !w.visited.contains(id) && depth <= p.max_depth {
        lemma_visit_counts(p, start, w, item);
        assert(leads(p, start, id, depth as nat));
        assert forall|other: u128| #[trigger] entered.visited.contains(other) implies within_reach(
            p,
            start,
            other,
        ) by {
            if other != id {
                assert(w.visited.contains(other));
            }
        }
        assert forall|other: (u128, usize)| #[trigger]
            entered.queue.contains_key(other) implies other.1 <= known_visited(p, entered).len() by {
            assert(popped.queue.contains_key(other));
        }
        assert(sound(p, start, entered));
        assert(known_visited(p, charged) == known_visited(p, entered));
        assert(sound(p, start, charged));
        if leads_on(p, id) {
            let seen = looked_at(p, charged, id, depth);
            let hit = hit_of(p, charged, id, depth);
            assert(w.attention.contains_key(id));
            assert(known_visited(p, seen) == known_visited(p, entered));
            if p.score_threshold.at_most(hit.score) {
                assert(proper_hit(p, start, hit));
                assert forall|i: int, j: int| 0 <= i < j < seen.hits.len() implies (
                #[trigger] seen.hits[i]).orb_id != (#[trigger] seen.hits[j]).orb_id by {
                    assert(w.visited.contains(w.hits[i].orb_id));
                }
            }
            assert(sound(p, start, seen));
            if depth < p.max_depth {
                let edges = p.nodes[id].edges;
                lemma_along_all_sound(
                    p,
                    start,
                    seen,
                    hit.attention_allocated,
                    depth,
                    id,
                    edges.len() as int,
                );
                assert(edges.take(edges.len() as int) =~= edges);
            }
        }
    }
}

proof fn lemma_arrival_sound(p: Plan, start: u128, w: Walk)
    requires
        sound(p, start, w),
        w.queue.dom().finite(),
    ensures
        sound(p, start, arrival(p, w).0),
        arrival(p, w).1 ==> arrival(p, w).0.budget == 0,
        !arrival(p, w).1 ==> !frontier::on_top(
            arrival(p, w).0.queue,
            next_item(arrival(p, w).0.queue),
        ),
    decreases w.budget, w.queue.dom().len(),
{
    let item = next_item(w.queue);
    if frontier::on_top(w.queue, item) && w.budget != 0 {
        lemma_visit_progress(p, w, item);
        lemma_visit_sound(p, start, w, item);
        lemma_arrival_sound(p, start, visit(p, w, item));
    }
}

/// Hits stand in the order of their scores.
pub open spec fn in_order(hits: Seq<TraversalHit>) -> bool {
    forall|i: int, j: int|
        0 <= i < j < hits.len() ==> !(#[trigger] hits[i]).score.below((#[trigger] hits[j]).score)
}

proof fn lemma_ranked_in_order(ranked: Seq<TraversalHit>, hit: TraversalHit)
    requires
        in_order(ranked),
        !hit.score.nan(),
        forall|i: int| 0 <= i < ranked.len() ==> !(#[trigger] ranked[i]).score.nan(),
    ensures
        in_order(ranked_in(ranked, hit)),
        ranked_in(ranked, hit).to_multiset() == ranked.to_multiset().insert(hit),
        ranked_in(ranked, hit).len() == ranked.len() + 1,
        forall|k: int|
            0 <= k < ranked_in(ranked, hit).len() ==> !(#[trigger] ranked_in(
                ranked,
                hit,
            )[k]).score.nan() && (!ranked_in(ranked, hit)[k].score.below(hit.score) || (ranked.len()
                > 0 && !ranked_in(ranked, hit)[k].score.below(ranked.last().score))),
    decreases ranked.len(),
{
    broadcast use vstd::seq_lib::group_to_multiset_ensures;

    if ranked.len() == 0 || !ranked.last().score.below(hit.score) {
        assert forall|i: int| 0 <= i < ranked.len() implies !(#[trigger] ranked[i]).score.below(
            hit.score,
        ) by {
            if i < ranked.len() - 1 {
                assert(!ranked[i].score.below(ranked[ranked.len() - 1].score));
            }
        }
    } else {
        let shorter = ranked.drop_last();
        assert forall|i: int| 0 <= i < shorter.len() implies !(
        #[trigger] shorter[i]).score.nan() by {
            assert(!ranked[i].score.nan());
        }
        lemma_ranked_in_order(shorter, hit);
        let inner = ranked_in(shorter, hit);
        let outer = ranked_in(ranked, hit);
        assert(outer == inner.push(ranked.last()));
        assert(ranked =~= shorter.push(ranked.last()));
        assert(outer.to_multiset() =~= ranked.to_multiset().insert(hit));
        assert(!ranked[ranked.len() - 1].score.nan());
        assert(shorter.len() > 0 ==> !shorter.last().score.below(ranked.last().score)) by {
            if shorter.len() > 0 {
                assert(!ranked[shorter.len() - 1].score.below(ranked[ranked.len() - 1].score));
                assert(!ranked[shorter.len() - 1].score.nan());
            }
        }
        assert forall|k: int| 0 <= k < inner.len() implies !(#[trigger] inner[k]).score.below(
            ranked.last().score,
        ) by {
            assert(!inner[k].score.nan());
            if shorter.len() > 0 {
                assert(!shorter[shorter.len() - 1].score.nan());
            }
        }
        assert forall|i: int, j: int| 0 <= i < j < outer.len() implies !(
        #[trigger] outer[i]).score.below((#[trigger] outer[j]).score) by {
            if j < inner.len() {
                assert(!inner[i].score.below(inner[j].score));
            } else {
                assert(!inner[i].score.below(ranked.last().score));
            }
        }
        assert forall|k: int| 0 <= k < outer.len() implies !(#[trigger] outer[k]).score.nan() && (
        !outer[k].score.below(hit.score) || !outer[k].score.below(ranked.last().score)) by {
            if k < inner.len() {
                assert(!inner[k].score.nan());
            }
        }
    }
}

proof fn lemma_ranking(hits: Seq<TraversalHit>)
    requires
        forall|i: int| 0 <= i < hits.len() ==> !(#[trigger] hits[i]).score.nan(),
    ensures
        in_order(ranking(hits)),
        ranking(hits).to_multiset() == hits.to_multiset(),
        ranking(hits).len() == hits.len(),
        forall|i: int| 0 <= i < ranking(hits).len() ==> !(#[trigger] ranking(hits)[i]).score.nan(),
    decreases hits.len(),
{
    broadcast use vstd::seq_lib::group_to_multiset_ensures;

    if hits.len() > 0 {
        let shorter = hits.drop_last();
        assert forall|i: int| 0 <= i < shorter.len() implies !(
        #[trigger] shorter[i]).score.nan() by {
            assert(!hits[i].score.nan());
        }
        lemma_ranking(shorter);
        assert(!hits[hits.len() - 1].score.nan());
        lemma_ranked_in_order(ranking(shorter), hits.last());
        assert(hits =~= shorter.push(hits.last()));
    }
}

/// No entity is hit twice.
pub open spec fn hit_once(hits: Seq<TraversalHit>) -> bool {
    forall|i: int, j: int|
        0 <= i < j < hits.len() ==> (#[trigger] hits[i]).orb_id != (#[trigger] hits[j]).orb_id
}

proof fn lemma_hit_once(a: Seq<TraversalHit>, b: Seq<TraversalHit>)
    requires
        hit_once(a),
        a.to_multiset() == b.to_multiset(),
    ensures
        hit_once(b),
{
    broadcast use vstd::seq_lib::group_to_multiset_ensures;

    assert forall|i: int, j: int| 0 <= i < j < b.len() implies (#[trigger] b[i]).orb_id != (
    #[trigger] b[j]).orb_id by {
        if b[i].orb_id == b[j].orb_id {
            assert(b.contains(b[i]) && b.contains(b[j]));
            assert(a.to_multiset().count(b[i]) > 0);
            assert(a.to_multiset().count(b[j]) > 0);
            assert(a.contains(b[i]) && a.contains(b[j]));
            let k = choose|k: int| 0 <= k < a.len() && a[k] == b[i];
            let l = choose|l: int| 0 <= l < a.len() && a[l] == b[j];
            if k < l {
                assert(a[k].orb_id != a[l].orb_id);
            }
            if l < k {
                assert(a[l].orb_id != a[k].orb_id);
            }
            assert(b[i] == b[j]);
            let shorter = b.remove(j);
            assert(shorter.to_multiset() =~= b.to_multiset().remove(b[j]));
            assert(shorter[i] == b[i]);
            assert(shorter.contains(b[i]));
            assert(shorter.to_multiset().count(b[i]) > 0);
            assert(a.to_multiset().count(a[k]) >= 2);
            let rest = a.remove(k);
            assert(rest.to_multiset() =~= a.to_multiset().remove(a[k]));
            assert(rest.to_multiset().count(a[k]) > 0);
            assert(rest.contains(a[k]));
            let n = choose|n: int| 0 <= n < rest.len() && rest[n] == a[k];
            if n < k {
                assert(a[n].orb_id != a[k].orb_id);
            } else {
                assert(a[k].orb_id != a[n + 1].orb_id);
            }
        }
    }
}

/// A walk keeps to its bounds. It consumes no more than its budget, and at least
/// one unit for each hit; where it says that the budget was used up, it was. There
/// are no more hits than entities visited. Every hit is a proper one: within the
/// largest distance, at the end of a way of that length from the start, over
/// relations that are followed from entities that are trusted enough, itself trusted
/// enough, with a score that reaches the threshold, and with an attention between the
/// floor and the ceiling. No entity is hit twice, and the hits stand in the order of
/// their scores.
pub proof fn walks_keep_to_their_bounds(p: Plan, start: u128, report: TraversalResult)
    requires
        reports(p, start, report),
    ensures
        report.budget_consumed <= p.budget,
        report.hits@.len() <= report.budget_consumed,
        report.hits@.len() <= report.nodes_visited,
        report.budget_exhausted ==> report.budget_consumed == p.budget,
        forall|i: int|
            0 <= i < report.hits@.len() ==> proper_hit(p, start, #[trigger] report.hits@[i]),
        hit_once(report.hits@),
        in_order(report.hits@),
{
    broadcast use vstd::seq_lib::group_to_multiset_ensures;

    let first = departure(p, start);
    lemma_departure_tie_free(p, start);
    lemma_departure_sound(p, start);
    lemma_arrival_sound(p, start, first);
    let w = arrival(p, first).0;
    lemma_ranking(w.hits);
    lemma_hit_once(w.hits, ranking(w.hits));
    assert forall|i: int| 0 <= i < report.hits@.len() implies proper_hit(
        p,
        start,
        #[trigger] report.hits@[i],
    ) by {
        let hit = report.hits@[i];
        assert(report.hits@.contains(hit));
        assert(report.hits@.to_multiset().count(hit) > 0);
        assert(w.hits.contains(hit));
        let k = choose|k: int| 0 <= k < w.hits.len() && w.hits[k] == hit;
        assert(proper_hit(p, start, w.hits[k]));
    }
}

/// Whether an entity is queued within the largest distance.
pub open spec fn waiting(p: Plan, w: Walk, id: u128) -> bool {
    exists|depth: usize| depth <= p.max_depth && #[trigger] w.queue.contains_key((id, depth))
}

/// Whether an entity was visited or has got some attention.
pub open spec fn noticed(w: Walk, id: u128) -> bool {
    w.visited.contains(id) || attention_of(w, id) >= ATTENTION_FLOOR
}

/// Nobody who has got attention is forgotten, and an entity that was visited and
/// leads on hands attention to all that its relations lead to. The only ones
/// excepted are those at the largest distance, where that cuts ways short.
pub open spec fn covered(p: Plan, start: u128, w: Walk) -> bool {
    &&& forall|id: u128| #[trigger]
        noticed(w, id) ==> w.visited.contains(id) || waiting(p, w, id)
    &&& forall|via: u128, k: int, id: u128|
        w.visited.contains(via) && #[trigger] has_edge(p, via, k, id) ==> noticed(w, id) || (
        !roomy(p) && leads(p, start, via, p.max_depth as nat))
}

proof fn lemma_along_all_covers(
    p: Plan,
    w: Walk,
    attention: u64,
    depth: usize,
    edges: Seq<EdgeView>,
)
    requires
        depth < p.max_depth,
        forall|id: u128| #[trigger] noticed(w, id) ==> w.visited.contains(id) || waiting(p, w, id),
    ensures
        ({
            let next = along_all(p, w, attention, depth, edges);
            &&& next.visited == w.visited
            &&& next.hits == w.hits
            &&& forall|id: u128| #[trigger]
                noticed(next, id) ==> next.visited.contains(id) || waiting(p, next, id)
            &&& forall|id: u128| noticed(w, id) ==> #[trigger] noticed(next, id)
            &&& forall|k: int|
                0 <= k < edges.len() && followed(p, edges[k].relation_type) ==> noticed(
                    next,
                    (#[trigger] edges[k]).target_orb_id,
                )
        }),
    decreases edges.len(),
{
    if edges.len() > 0 {
        lemma_along_all_covers(p, w, attention, depth, edges.drop_last());
        let u = along_all(p, w, attention, depth, edges.drop_last());
        let edge = edges.last();
        let next = along(p, u, attention, depth, edge);
        let target = edge.target_orb_id;
        assert forall|id: u128| noticed(u, id) implies #[trigger] noticed(next, id) by {}
        assert forall|id: u128| #[trigger] noticed(next, id) implies next.visited.contains(id)
            || waiting(p, next, id) by {
            if id == target && followed(p, edge.relation_type) && !u.visited.contains(target)
                && handed_on(p, attention, edge) > attention_of(u, target) {
                assert(next.queue.contains_key((id, (depth + 1) as usize)));
            } else {
                assert(noticed(u, id));
                if !u.visited.contains(id) {
                    let d = choose|d: usize|
                        d <= p.max_depth && #[trigger] u.queue.contains_key((id, d));
                    assert(next.queue.contains_key((id, d)));
                }
            }
        }
        assert forall|k: int|
            0 <= k < edges.len() && followed(p, edges[k].relation_type) implies noticed(
            next,
            (#[trigger] edges[k]).target_orb_id,
        ) by {
            if k < edges.len() - 1 {
                assert(edges.drop_last()[k] == edges[k]);
                assert(noticed(u, edges[k].target_orb_id));
            }
        }
    }
}

proof fn lemma_visit_covers(p: Plan, start: u128, w: Walk, item: (u128, usize))
    requires
        covered(p, start, w),
        sound(p, start, w),
        w.queue.contains_key(item),
    ensures
        covered(p, start, visit(p, w, item)),
{
    let (id, depth) = item;
    let popped = Walk { queue: w.queue.remove(item), ..w };
    let entered = Walk { visited: w.visited.insert(id), ..popped };
    let charged = Walk { budget: less_one(w.budget), ..entered };
    let next = visit(p, w, item);
    lemma_visit_keeps_notice(p, w, item);
    let fresh = !w.visited.contains(id) && depth <= p.max_depth;
    let expanded = fresh && leads_on(p, id);
    let base = if !fresh {
        popped
    } else if !p.nodes.contains_key(id) {
        entered
    } else if !leads_on(p, id) {
        charged
    } else {
        looked_at(p, charged, id, depth)
    };
    assert forall|other: u128| #[trigger] noticed(base, other) implies base.visited.contains(other)
        || waiting(p, base, other) by {
        if !base.visited.contains(other) {
            assert(noticed(w, other));
            let d = choose|d: usize| d <= p.max_depth && #[trigger] w.queue.contains_key((other, d));
            assert((other, d) != item);
            assert(base.queue.contains_key((other, d)));
        }
    }
    if expanded {
        lemma_visit_counts(p, start, w, item);
        if depth < p.max_depth {
            lemma_along_all_covers(
                p,
                base,
                hit_of(p, charged, id, depth).attention_allocated,
                depth,
                p.nodes[id].edges,
            );
        }
    }
    assert forall|via: u128, k: int, target: u128|
        next.visited.contains(via) && #[trigger] has_edge(p, via, k, target) implies noticed(
        next,
        target,
    ) || (!roomy(p) && leads(p, start, via, p.max_depth as nat)) by {
        if w.visited.contains(via) {
            assert(noticed(w, target) || (!roomy(p) && leads(p, start, via, p.max_depth as nat)));
        } else {
            assert(via == id);
            assert(leads(p, start, id, depth as nat));
            if depth < p.max_depth {
                assert(noticed(next, p.nodes[id].edges[k].target_orb_id));
            }
        }
    }
}

proof fn lemma_arrival_covers(p: Plan, start: u128, w: Walk)
    requires
        covered(p, start, w),
        sound(p, start, w),
        w.queue.dom().finite(),
    ensures
        covered(p, start, arrival(p, w).0),
        arrival(p, w).0.queue.dom().finite(),
        forall|id: u128| noticed(w, id) ==> #[trigger] noticed(arrival(p, w).0, id),
    decreases w.budget, w.queue.dom().len(),
{
    let item = next_item(w.queue);
    if frontier::on_top(w.queue, item) && w.budget != 0 {
        lemma_visit_progress(p, w, item);
        lemma_visit_covers(p, start, w, item);
        lemma_visit_sound(p, start, w, item);
        lemma_visit_keeps_notice(p, w, item);
        let next = visit(p, w, item);
        lemma_arrival_covers(p, start, next);
        assert forall|id: u128| noticed(w, id) implies #[trigger] noticed(
            arrival(p, w).0,
            id,
        ) by {
            assert(noticed(next, id));
            assert(noticed(arrival(p, next).0, id));
        }
    }
}

proof fn lemma_along_all_keeps_notice(
    p: Plan,
    w: Walk,
    attention: u64,
    depth: usize,
    edges: Seq<EdgeView>,
)
    ensures
        forall|id: u128|
            noticed(w, id) ==> #[trigger] noticed(along_all(p, w, attention, depth, edges), id),
    decreases edges.len(),
{
    if edges.len() > 0 {
        lemma_along_all_keeps_notice(p, w, attention, depth, edges.drop_last());
        let u = along_all(p, w, attention, depth, edges.drop_last());
        assert(forall|id: u128|
            noticed(u, id) ==> #[trigger] noticed(
                along(p, u, attention, depth, edges.last()),
                id,
            ));
    }
}

proof fn lemma_visit_keeps_notice(p: Plan, w: Walk, item: (u128, usize))
    ensures
        forall|id: u128| noticed(w, id) ==> #[trigger] noticed(visit(p, w, item), id),
{
    let (id, depth) = item;
    let popped = Walk { queue: w.queue.remove(item), ..w };
    let entered = Walk { visited: w.visited.insert(id), ..popped };
    let charged = Walk { budget: less_one(w.budget), ..entered };
    let seen = looked_at(p, charged, id, depth);
    assert(forall|other: u128| noticed(w, other) ==> #[trigger] noticed(popped, other));
    assert(forall|other: u128| noticed(w, other) ==> #[trigger] noticed(entered, other));
    assert(forall|other: u128| noticed(w, other) ==> #[trigger] noticed(charged, other));
    assert(forall|other: u128| noticed(w, other) ==> #[trigger] noticed(seen, other));
    lemma_along_all_keeps_notice(
        p,
        seen,
        hit_of(p, charged, id, depth).attention_allocated,
        depth,
        p.nodes[id].edges,
    );
}

/// A queue that is not empty has something on top.
proof fn lemma_something_is_on_top(queue: Map<(u128, usize), (i64, u128)>)
    requires
        queue.dom().finite(),
        !queue.dom().is_empty(),
    ensures
        exists|item: (u128, usize)| frontier::on_top(queue, item),
    decreases queue.dom().len(),
{
    let item = queue.dom().choose();
    assert(queue.contains_key(item));
    let rest = queue.remove(item);
    assert(rest.dom() =~= queue.dom().remove(item));
    if rest.dom().is_empty() {
        assert forall|other: (u128, usize)| #[trigger]
            queue.contains_key(other) implies !frontier::lower(queue[item], queue[other]) by {
            if other != item {
                assert(rest.dom().contains(other));
            }
        }
        assert(frontier::on_top(queue, item));
    } else {
        lemma_something_is_on_top(rest);
        let best = choose|best: (u128, usize)| frontier::on_top(rest, best);
        let winner = if frontier::lower(queue[best], queue[item]) {
            item
        } else {
            best
        };
        assert forall|other: (u128, usize)| #[trigger]
            queue.contains_key(other) implies !frontier::lower(queue[winner], queue[other]) by {
            if other != item {
                assert(rest.contains_key(other));
            }
        }
        assert(frontier::on_top(queue, winner));
    }
}

/// A walk visits only what is within reach: at the end of a way of at most the
/// largest distance, over relations that are followed from entities that are
/// trusted enough.
pub proof fn walks_stay_within_reach(p: Plan, start: u128, id: u128)
    ensures
        arrival(p, departure(p, start)).0.visited.contains(id) ==> within_reach(p, start, id),
{
    let first = departure(p, start);
    lemma_departure_tie_free(p, start);
    lemma_departure_sound(p, start);
    lemma_arrival_sound(p, start, first);
}

proof fn lemma_departure_sound(p: Plan, start: u128)
    ensures
        sound(p, start, departure(p, start)),
{
    let first = departure(p, start);
    assert forall|item: (u128, usize)| #[trigger] first.queue.contains_key(item) implies item.1
        <= known_visited(p, first).len() by {
        assert(item == (start, 0usize));
    }
}

/// A walk that ends before its budget is used up leaves nobody out: the start
/// was visited, and so was everybody to whom a relation leads from an entity that
/// was visited. The only entities whose relations may not have been followed lie
/// at the end of a way of the largest distance.
pub proof fn walks_leave_nobody_out(p: Plan, start: u128, via: u128, k: int, id: u128)
    requires
        !arrival(p, departure(p, start)).1,
    ensures
        ({
            let w = arrival(p, departure(p, start)).0;
            &&& w.visited.contains(start)
            &&& w.visited.contains(via) && has_edge(p, via, k, id) ==> w.visited.contains(id) || (
            !roomy(p) && leads(p, start, via, p.max_depth as nat))
        }),
{
    let first = departure(p, start);
    lemma_departure_tie_free(p, start);
    lemma_departure_sound(p, start);
    assert forall|id: u128| #[trigger] noticed(first, id) implies first.visited.contains(id)
        || waiting(p, first, id) by {
        assert(id == start);
        assert(first.queue.contains_key((start, 0usize)));
    }
    assert(covered(p, start, first));
    lemma_arrival_sound(p, start, first);
    lemma_arrival_covers(p, start, first);
    let w = arrival(p, first).0;
    if !w.queue.dom().is_empty() {
        lemma_something_is_on_top(w.queue);
        assert(frontier::on_top(w.queue, next_item(w.queue)));
    }
    assert(forall|item: (u128, usize)| !w.queue.contains_key(item)) by {
        assert forall|item: (u128, usize)| !w.queue.contains_key(item) by {
            assert(!w.queue.dom().contains(item));
        }
    }
    assert(noticed(first, start));
    assert(noticed(w, start));
    if w.visited.contains(via) && has_edge(p, via, k, id) {
        assert(noticed(w, id) || (!roomy(p) && leads(p, start, via, p.max_depth as nat)));
    }
}

proof fn lemma_ways_were_walked(p: Plan, start: u128, id: u128, steps: nat)
    requires
        !arrival(p, departure(p, start)).1,
        roomy(p),
        leads(p, start, id, steps),
    ensures
        arrival(p, departure(p, start)).0.visited.contains(id),
    decreases steps,
{
    if steps == 0 {
        walks_leave_nobody_out(p, start, start, 0, start);
    } else {
        let (via, k) = choose|via: u128, k: int| #[trigger]
            has_edge(p, via, k, id) && leads(p, start, via, (steps - 1) as nat);
        lemma_ways_were_walked(p, start, via, (steps - 1) as nat);
        walks_leave_nobody_out(p, start, via, k, id);
    }
}

/// A walk that ends before its budget is used up, and whose largest distance cuts
/// no way short, visits exactly what can be reached, and counts it.
pub proof fn walks_visit_what_can_be_reached(p: Plan, start: u128, report: TraversalResult)
    requires
        reports(p, start, report),
        !report.budget_exhausted,
        roomy(p),
    ensures
        arrival(p, departure(p, start)).0.visited == Set::new(|id: u128| reachable(p, start, id)),
        report.nodes_visited == Set::new(|id: u128| reachable(p, start, id)).len(),
{
    let visited = arrival(p, departure(p, start)).0.visited;
    let all = Set::new(|id: u128| reachable(p, start, id));
    assert forall|id: u128| visited.contains(id) == all.contains(id) by {
        walks_stay_within_reach(p, start, id);
        if reachable(p, start, id) {
            let steps = choose|steps: nat| #[trigger] leads(p, start, id, steps);
            lemma_ways_were_walked(p, start, id, steps);
        }
    }
    assert(visited =~= all);
}

/// Whether an entity is what is looked for: it is in the graph and trusted enough, and
/// its score reaches the threshold.
pub open spec fn sought(p: Plan, id: u128) -> bool {
    leads_on(p, id) && p.score_threshold.at_most(
        traversal::score_of(
            p.m,
            p.weights,
            traversal::breakdown_of(p.m, p.query, p.now, p.nodes[id]),
        ),
    )
}

/// Whether an entity is among hits.
pub open spec fn is_hit(hits: Seq<TraversalHit>, id: u128) -> bool {
    exists|i: int| 0 <= i < hits.len() && (#[trigger] hits[i]).orb_id == id
}

/// Every visited entity that is sought is among the hits.
spec fn told(p: Plan, w: Walk) -> bool {
    forall|id: u128| #[trigger] w.visited.contains(id) && sought(p, id) ==> is_hit(w.hits, id)
}

proof fn lemma_along_all_tells_the_same(
    p: Plan,
    w: Walk,
    attention: u64,
    depth: usize,
    edges: Seq<EdgeView>,
)
    ensures
        along_all(p, w, attention, depth, edges).visited == w.visited,
        along_all(p, w, attention, depth, edges).hits == w.hits,
    decreases edges.len(),
{
    if edges.len() > 0 {
        lemma_along_all_tells_the_same(p, w, attention, depth, edges.drop_last());
    }
}

proof fn lemma_visit_tells(p: Plan, w: Walk, item: (u128, usize))
    requires
        told(p, w),
    ensures
        told(p, visit(p, w, item)),
{
    let (id, depth) = item;
    let popped = Walk { queue: w.queue.remove(item), ..w };
    let entered = Walk { visited: w.visited.insert(id), ..popped };
    let charged = Walk { budget: less_one(w.budget), ..entered };
    let seen = looked_at(p, charged, id, depth);
    let next = visit(p, w, item);
    lemma_along_all_tells_the_same(
        p,
        seen,
        hit_of(p, charged, id, depth).attention_allocated,
        depth,
        p.nodes[id].edges,
    );
    assert forall|other: u128| #[trigger]
        next.visited.contains(other) && sought(p, other) implies is_hit(next.hits, other) by {
        if w.visited.contains(other) {
            assert(is_hit(w.hits, other));
            let i = choose|i: int| 0 <= i < w.hits.len() && (#[trigger] w.hits[i]).orb_id == other;
            assert(next.hits[i].orb_id == other);
        } else {
            assert(next.hits[w.hits.len() as int].orb_id == other);
        }
    }
}

proof fn lemma_arrival_tells(p: Plan, w: Walk)
    requires
        told(p, w),
        w.queue.dom().finite(),
    ensures
        told(p, arrival(p, w).0),
    decreases w.budget, w.queue.dom().len(),
{
    let item = next_item(w.queue);
    if frontier::on_top(w.queue, item) && w.budget != 0 {
        lemma_visit_progress(p, w, item);
        lemma_visit_tells(p, w, item);
        lemma_arrival_tells(p, visit(p, w, item));
    }
}

/// A walk tells everything that it found: an entity is among the hits exactly if it
/// was visited, is trusted enough, and has a score that reaches the threshold.
pub proof fn walks_tell_what_they_found(p: Plan, start: u128, report: TraversalResult, id: u128)
    requires
        reports(p, start, report),
    ensures
        is_hit(report.hits@, id) <==> arrival(p, departure(p, start)).0.visited.contains(id)
            && sought(p, id),
{
    broadcast use vstd::seq_lib::group_to_multiset_ensures;

    let first = departure(p, start);
    lemma_departure_tie_free(p, start);
    lemma_departure_sound(p, start);
    lemma_arrival_sound(p, start, first);
    lemma_arrival_tells(p, first);
    let w = arrival(p, first).0;
    lemma_ranking(w.hits);
    if is_hit(report.hits@, id) {
        let i = choose|i: int|
            0 <= i < report.hits@.len() && (#[trigger] report.hits@[i]).orb_id == id;
        let hit = report.hits@[i];
        assert(report.hits@.to_multiset().count(hit) > 0);
        assert(w.hits.contains(hit));
        let k = choose|k: int| 0 <= k < w.hits.len() && w.hits[k] == hit;
        assert(proper_hit(p, start, w.hits[k]));
    }
    if w.visited.contains(id) && sought(p, id) {
        let k = choose|k: int| 0 <= k < w.hits.len() && (#[trigger] w.hits[k]).orb_id == id;
        let hit = w.hits[k];
        assert(w.hits.to_multiset().count(hit) > 0);
        assert(report.hits@.contains(hit));
        let i = choose|i: int| 0 <= i < report.hits@.len() && report.hits@[i] == hit;
        assert(report.hits@[i].orb_id == id);
    }
}

// ---------------------------------------------------------------------------
// What a configuration asks for
// ---------------------------------------------------------------------------

/// Whether a relation of a type leads from one entity of a graph to another one.
pub open spec fn joins(
    nodes: Map<u128, NodeData>,
    allowed: Option<Vec<RelationType>>,
    from: u128,
    to: u128,
) -> bool {
    nodes.contains_key(from) && exists|i: int|
        0 <= i < nodes[from].edges.len() && (#[trigger] nodes[from].edges[i]).target_orb_id == to
            && (allowed matches Some(types) ==> types@.contains(
            nodes[from].edges[i].relation_type,
        ))
}

/// Whether entities follow one another on a way through a graph, over relations of the
/// types that are allowed.
pub open spec fn route(
    nodes: Map<u128, NodeData>,
    allowed: Option<Vec<RelationType>>,
    stops: Seq<u128>,
) -> bool {
    forall|k: int|
        0 < k < stops.len() ==> joins(nodes, allowed, stops[k - 1], #[trigger] stops[k])
}

/// Whether these weights are the ones that a configuration sets, or else the usual ones:
/// `0.4`, `0.3`, `0.15` and `0.15`.
pub open spec fn weights_for(config: TraversalConfig, weights: ScoringWeights) -> bool {
    match config.scoring_weights {
        Some(chosen) => weights == chosen,
        None => {
            &&& weights.similarity.bits == 0x3ECC_CCCD
            &&& weights.trust.bits == 0x3E99_999A
            &&& weights.recency.bits == 0x3E19_999A
            &&& weights.semantic_mass.bits == 0x3E19_999A
        },
    }
}

/// Whether a hit is one that a query and a configuration ask for.
pub open spec fn asked_for(
    m: Arithmetic,
    nodes: Map<u128, NodeData>,
    query: SemanticQuery,
    config: TraversalConfig,
    now: u64,
    start: u128,
    hit: TraversalHit,
) -> bool {
    let node = nodes[hit.orb_id];
    &&& nodes.contains_key(hit.orb_id)
    &&& exists|weights: ScoringWeights|
        weights_for(config, weights) && #[trigger] traversal::rates(
            m,
            weights,
            traversal::optional_vector(query.query_vector),
            now,
            node,
            hit.score_breakdown,
            hit.score,
        )
    &&& config.score_threshold.at_most(hit.score)
    &&& !node.trust.below(config.min_trust)
    &&& hit.depth <= config.max_depth
    &&& exists|stops: Seq<u128>|
        stops.len() == hit.depth + 1 && stops[0] == start && stops.last() == hit.orb_id
            && #[trigger] route(nodes, config.allowed_relation_types, stops)
    &&& hit.attention_allocated >= 1
    &&& rounding::rounds(m) && doubles::rounds_wide(m) ==> hit.attention_allocated as real
        <= rounding::most(
        1 as real,
        config.budget as real * (1 as real + 1 as real / 1000000 as real) / 5 as real,
    )
}

/// Whether a report is one that a query and a configuration ask for: every hit is, the
/// best one first and none twice, and no more than the budget is spent.
pub open spec fn answers(
    m: Arithmetic,
    nodes: Map<u128, NodeData>,
    query: SemanticQuery,
    config: TraversalConfig,
    now: u64,
    start: u128,
    report: TraversalResult,
) -> bool {
    &&& forall|i: int|
        0 <= i < report.hits@.len() ==> asked_for(
            m,
            nodes,
            query,
            config,
            now,
            start,
            #[trigger] report.hits@[i],
        )
    &&& in_order(report.hits@)
    &&& hit_once(report.hits@)
    &&& report.hits@.len() <= report.budget_consumed <= config.budget
}

proof fn lemma_route(
    p: Plan,
    allowed: Option<Vec<RelationType>>,
    start: u128,
    id: u128,
    steps: nat,
) -> (stops: Seq<u128>)
    requires
        leads(p, start, id, steps),
        p.allowed == (match allowed {
            Some(types) => Some(types@),
            None => None,
        }),
    ensures
        stops.len() == steps + 1,
        stops[0] == start,
        stops.last() == id,
        route(p.nodes, allowed, stops),
    decreases steps,
{
    if steps == 0 {
        seq![start]
    } else {
        let (via, i) = choose|via: u128, i: int| #[trigger]
            has_edge(p, via, i, id) && leads(p, start, via, (steps - 1) as nat);
        let shorter = lemma_route(p, allowed, start, via, (steps - 1) as nat);
        let stops = shorter.push(id);
        assert(p.nodes[via].edges[i].target_orb_id == id);
        assert(joins(p.nodes, allowed, via, id));
        assert forall|k: int| 0 < k < stops.len() implies joins(
            p.nodes,
            allowed,
            stops[k - 1],
            #[trigger] stops[k],
        ) by {
            if k < shorter.len() {
                assert(stops[k] == shorter[k] && stops[k - 1] == shorter[k - 1]);
            } else {
                assert(stops[k - 1] == via);
            }
        }
        stops
    }
}

proof fn lemma_ceiling(m: Arithmetic, budget: u64)
    requires
        rounding::rounds(m),
        doubles::rounds_wide(m),
    ensures
        ceiling_of(m, budget) as real <= rounding::most(
            1 as real,
            budget as real * (1 as real + 1 as real / 1000000 as real) / 5 as real,
        ),
{
    rounding::lemma_single_share();
    rounding::lemma_extremes();
    let n = budget as real;
    let u = rounding::slip();
    let number = fpu::single_of(m, budget);
    assert(rounding::rounded(number, n, 0 as real));
    assert(u * n == n / 16777216 as real) by (nonlinear_arith)
        requires
            u == 1 as real / 16777216 as real,
    ;
    let x = rounding::value(number);
    let share = Single { bits: SINGULARITY_CAP };
    let c = rounding::value(share);
    assert(c == 13421773 as real / 67108864 as real);
    let exact = x * c;
    assert(exact == x * 13421773 as real / 67108864 as real) by (nonlinear_arith)
        requires
            exact == x * c,
            c == 13421773 as real / 67108864 as real,
    ;
    let product = fpu::product(m, number, share);
    assert(rounding::rounded(product, exact, rounding::speck()));
    assert(u * exact == exact / 16777216 as real) by (nonlinear_arith)
        requires
            u == 1 as real / 16777216 as real,
    ;
    let y = rounding::value(product);
    let bound = n * (1 as real + 1 as real / 1000000 as real) / 5 as real;
    assert(bound == n * 1000001 as real / 5000000 as real) by (nonlinear_arith)
        requires
            bound == n * (1 as real + 1 as real / 1000000 as real) / 5 as real,
    ;
    if budget >= 1 {
        assert(y <= bound);
    }
    assert(doubles::cut_down(fpu::integer_of(m, product), y));
}

/// Walks answer what a query and a configuration ask for.
pub proof fn walks_answer_queries(
    m: Arithmetic,
    nodes: Map<u128, NodeData>,
    query: SemanticQuery,
    config: TraversalConfig,
    now: u64,
    start: u128,
    report: TraversalResult,
)
    requires
        reports(plan_of(m, nodes, query, config, now), start, report),
    ensures
        answers(m, nodes, query, config, now, start, report),
{
    let p = plan_of(m, nodes, query, config, now);
    walks_keep_to_their_bounds(p, start, report);
    assert forall|i: int| 0 <= i < report.hits@.len() implies asked_for(
        m,
        nodes,
        query,
        config,
        now,
        start,
        #[trigger] report.hits@[i],
    ) by {
        let hit = report.hits@[i];
        let node = nodes[hit.orb_id];
        assert(proper_hit(p, start, hit));
        traversal::scores_measure_entities(m, p.weights, p.query, now, node);
        assert(weights_for(config, p.weights));
        let stops = lemma_route(
            p,
            config.allowed_relation_types,
            start,
            hit.orb_id,
            hit.depth as nat,
        );
        assert(route(nodes, config.allowed_relation_types, stops));
        if rounding::rounds(m) && doubles::rounds_wide(m) {
            lemma_ceiling(m, config.budget);
        }
    }
}

/// A relation hands on the attention of its source times its weight and its trust, in whole
/// units and but for rounding: at least one, and never more than the ceiling.
pub proof fn attention_is_handed_on(p: Plan, attention: u64, edge: EdgeView)
    requires
        rounding::rounds(p.m),
        doubles::rounds_wide(p.m),
        edge.weight.in_unit(),
        edge.trust_at_creation.in_unit(),
    ensures
        ({
            let amount = handed_on(p, attention, edge) as real;
            let exact = attention as real * rounding::value(edge.weight) * rounding::value(
                edge.trust_at_creation,
            );
            let ceiling = ceiling_of(p.m, p.budget) as real;
            &&& 1 as real <= amount <= ceiling
            &&& amount <= rounding::most(1 as real, exact * 1000001 as real / 1000000 as real + 1 as real
                / 1000000 as real)
            &&& amount >= rounding::least(ceiling, exact * 999999 as real / 1000000 as real - 1 as real
                - 1 as real / 1000000 as real)
        }),
{
    let m = p.m;
    rounding::lemma_constants();
    rounding::lemma_extremes();
    let one = Single { bits: 0x3F80_0000 };
    rounding::lemma_values_are_ordered(Single { bits: 0 }, edge.weight);
    rounding::lemma_values_are_ordered(edge.weight, one);
    rounding::lemma_values_are_ordered(Single { bits: 0 }, edge.trust_at_creation);
    rounding::lemma_values_are_ordered(edge.trust_at_creation, one);
    let (w, t) = (rounding::value(edge.weight), rounding::value(edge.trust_at_creation));
    let n = attention as real;
    let number = fpu::single_of(m, attention);
    assert(rounding::rounded(number, n, 0 as real));
    let x = rounding::value(number);
    let k = rounding::speck();
    lemma_relative(x, n);
    let nw = n * w;
    let xw = x * w;
    assert(0 as real <= nw <= n && nw * 9999999 as real / 10000000 as real <= xw && xw <= nw
        * 10000001 as real / 10000000 as real) by (nonlinear_arith)
        requires
            nw == n * w,
            xw == x * w,
            0 as real <= w <= 1 as real,
            n * 9999999 as real / 10000000 as real <= x <= n * 10000001 as real / 10000000 as real,
            n >= 0 as real,
    ;
    let first = fpu::product(m, number, edge.weight);
    assert(rounding::rounded(first, xw, k));
    let y = rounding::value(first);
    lemma_relative_product(y, xw);
    let nwt = nw * t;
    let yt = y * t;
    assert(n * w * t == nwt);
    assert(0 as real <= nwt <= n && 0 as real <= yt && nwt * 9999997 as real / 10000000 as real - 1 as real
        / 10000000 as real <= yt && yt <= nwt * 10000003 as real / 10000000 as real + 1 as real
        / 10000000 as real) by (nonlinear_arith)
        requires
            nwt == nw * t,
            yt == y * t,
            0 as real <= t <= 1 as real,
            nw * 9999997 as real / 10000000 as real - 1 as real / 10000000 as real <= y <= nw
                * 10000003 as real / 10000000 as real + 1 as real / 10000000 as real,
            0 as real <= nw <= n,
            0 as real <= y,
    ;
    let second = fpu::product(m, first, edge.trust_at_creation);
    assert(rounding::rounded(second, yt, k));
    let z = rounding::value(second);
    lemma_relative_product(z, yt);
    assert(doubles::cut_down(fpu::integer_of(m, second), z));
}

/// A number with a relative error.
proof fn lemma_relative(x: real, n: real)
    requires
        n >= 0 as real,
        rounding::size(x - n) <= rounding::slip() * rounding::size(n),
    ensures
        n * 9999999 as real / 10000000 as real <= x <= n * 10000001 as real / 10000000 as real,
{
    let u = rounding::slip();
    assert(u * n == n / 16777216 as real) by (nonlinear_arith)
        requires
            u == 1 as real / 16777216 as real,
    ;
}

/// A product with a relative error and one close to zero.
proof fn lemma_relative_product(y: real, x: real)
    requires
        x >= 0 as real,
        rounding::size(y - x) <= rounding::slip() * rounding::size(x) + rounding::speck(),
    ensures
        x * 9999999 as real / 10000000 as real - 1 as real / 100000000 as real <= y,
        y <= x * 10000001 as real / 10000000 as real + 1 as real / 100000000 as real,
{
    rounding::lemma_extremes();
    let u = rounding::slip();
    let s = rounding::size(x);
    assert(u * s == s / 16777216 as real) by (nonlinear_arith)
        requires
            u == 1 as real / 16777216 as real,
    ;
}

// ---------------------------------------------------------------------------
// Where attention comes from
// ---------------------------------------------------------------------------

/// Whether the attention of an entity comes from somewhere: it is what the start gets of the
/// budget, or what a relation handed on from an entity that was visited.
pub open spec fn sourced(p: Plan, start: u128, w: Walk, id: u128) -> bool {
    ||| id == start && w.attention[id] == at_least(
        at_most(p.budget, cap_of(p.m, p.budget)),
        ATTENTION_FLOOR,
    )
    ||| exists|via: u128, i: int| #[trigger]
        has_edge(p, via, i, id) && w.visited.contains(via) && w.attention.contains_key(via)
            && w.attention[id] == handed_on(p, w.attention[via], p.nodes[via].edges[i])
}

/// What holds at every point of a walk: all attention comes from somewhere, who waits has
/// some, and a hit has what its entity has.
spec fn all_sourced(p: Plan, start: u128, w: Walk) -> bool {
    &&& forall|id: u128| #[trigger] w.attention.contains_key(id) ==> sourced(p, start, w, id)
    &&& forall|item: (u128, usize)| #[trigger]
        w.queue.contains_key(item) ==> w.attention.contains_key(item.0)
    &&& forall|k: int|
        0 <= k < w.hits.len() ==> w.visited.contains((#[trigger] w.hits[k]).orb_id)
            && w.attention.contains_key(w.hits[k].orb_id) && w.hits[k].attention_allocated
            == w.attention[w.hits[k].orb_id]
}

proof fn lemma_along_sourced(p: Plan, start: u128, w: Walk, depth: usize, via: u128, i: int)
    requires
        all_sourced(p, start, w),
        leads_on(p, via),
        0 <= i < p.nodes[via].edges.len(),
        w.visited.contains(via),
        w.attention.contains_key(via),
    ensures
        all_sourced(p, start, along(p, w, w.attention[via], depth, p.nodes[via].edges[i])),
        along(p, w, w.attention[via], depth, p.nodes[via].edges[i]).visited == w.visited,
        along(p, w, w.attention[via], depth, p.nodes[via].edges[i]).attention.contains_key(via),
        along(p, w, w.attention[via], depth, p.nodes[via].edges[i]).attention[via]
            == w.attention[via],
{
    let edge = p.nodes[via].edges[i];
    let target = edge.target_orb_id;
    let attention = w.attention[via];
    let after = along(p, w, attention, depth, edge);
    if followed(p, edge.relation_type) && !w.visited.contains(target) {
        let share = handed_on(p, attention, edge);
        let known = attention_of(w, target);
        assert(has_edge(p, via, i, target));
        assert forall|id: u128| #[trigger] after.attention.contains_key(id) implies sourced(
            p,
            start,
            after,
            id,
        ) by {
            if id == target && share >= known {
                assert(after.attention[id] == handed_on(p, after.attention[via], edge));
            } else {
                assert(w.attention.contains_key(id));
                assert(sourced(p, start, w, id));
                assert(after.attention[id] == w.attention[id]);
                if !(id == start && w.attention[id] == at_least(
                    at_most(p.budget, cap_of(p.m, p.budget)),
                    ATTENTION_FLOOR,
                )) {
                    let (from, k) = choose|from: u128, k: int| #[trigger]
                        has_edge(p, from, k, id) && w.visited.contains(from)
                            && w.attention.contains_key(from) && w.attention[id] == handed_on(
                            p,
                            w.attention[from],
                            p.nodes[from].edges[k],
                        );
                    assert(from != target);
                    assert(has_edge(p, from, k, id) && after.visited.contains(from)
                        && after.attention[from] == w.attention[from]);
                }
            }
        }
        assert forall|item: (u128, usize)| #[trigger] after.queue.contains_key(item) implies
            after.attention.contains_key(item.0) by {
            if item != (target, (depth + 1) as usize) {
                assert(w.queue.contains_key(item));
            }
        }
    } else {
        assert forall|id: u128| #[trigger] after.attention.contains_key(id) implies sourced(
            p,
            start,
            after,
            id,
        ) by {
            assert(sourced(p, start, w, id));
        }
    }
}

proof fn lemma_along_all_sourced(p: Plan, start: u128, w: Walk, depth: usize, via: u128, n: int)
    requires
        all_sourced(p, start, w),
        leads_on(p, via),
        0 <= n <= p.nodes[via].edges.len(),
        w.visited.contains(via),
        w.attention.contains_key(via),
    ensures
        ({
            let after = along_all(p, w, w.attention[via], depth, p.nodes[via].edges.take(n));
            &&& all_sourced(p, start, after)
            &&& after.visited == w.visited
            &&& after.attention.contains_key(via)
            &&& after.attention[via] == w.attention[via]
        }),
    decreases n,
{
    if n > 0 {
        lemma_along_all_sourced(p, start, w, depth, via, n - 1);
        let edges = p.nodes[via].edges;
        assert(edges.take(n).drop_last() =~= edges.take(n - 1));
        assert(edges.take(n).last() == edges[n - 1]);
        lemma_along_sourced(
            p,
            start,
            along_all(p, w, w.attention[via], depth, edges.take(n - 1)),
            depth,
            via,
            n - 1,
        );
    }
}

proof fn lemma_visit_sourced(p: Plan, start: u128, w: Walk, item: (u128, usize))
    requires
        all_sourced(p, start, w),
        w.queue.contains_key(item),
    ensures
        all_sourced(p, start, visit(p, w, item)),
{
    let (id, depth) = item;
    let popped = Walk { queue: w.queue.remove(item), ..w };
    let entered = Walk { visited: w.visited.insert(id), ..popped };
    let charged = Walk { budget: less_one(w.budget), ..entered };
    assert(w.attention.contains_key(id));
    assert forall|other: (u128, usize)| #[trigger] popped.queue.contains_key(other) implies
        popped.attention.contains_key(other.0) by {
        assert(w.queue.contains_key(other));
    }
    assert forall|other: u128| #[trigger] popped.attention.contains_key(other) implies sourced(
        p,
        start,
        popped,
        other,
    ) && sourced(p, start, entered, other) && sourced(p, start, charged, other) by {
        assert(sourced(p, start, w, other));
        if !(other == start && w.attention[other] == at_least(
            at_most(p.budget, cap_of(p.m, p.budget)),
            ATTENTION_FLOOR,
        )) {
            let (from, k) = choose|from: u128, k: int| #[trigger]
                has_edge(p, from, k, other) && w.visited.contains(from)
                    && w.attention.contains_key(from) && w.attention[other] == handed_on(
                    p,
                    w.attention[from],
                    p.nodes[from].edges[k],
                );
            assert(has_edge(p, from, k, other) && entered.visited.contains(from));
        }
    }
    assert(all_sourced(p, start, popped));
    assert(all_sourced(p, start, entered));
    assert(all_sourced(p, start, charged));
    if !w.visited.contains(id) && depth <= p.max_depth && leads_on(p, id) {
        let seen = looked_at(p, charged, id, depth);
        assert forall|other: u128| #[trigger] seen.attention.contains_key(other) implies sourced(
            p,
            start,
            seen,
            other,
        ) by {
            assert(sourced(p, start, charged, other));
        }
        assert(all_sourced(p, start, seen));
        if depth < p.max_depth {
            let edges = p.nodes[id].edges;
            lemma_along_all_sourced(p, start, seen, depth, id, edges.len() as int);
            assert(edges.take(edges.len() as int) =~= edges);
        }
    }
}

proof fn lemma_arrival_sourced(p: Plan, start: u128, w: Walk)
    requires
        all_sourced(p, start, w),
        w.queue.dom().finite(),
    ensures
        all_sourced(p, start, arrival(p, w).0),
    decreases w.budget, w.queue.dom().len(),
{
    let item = next_item(w.queue);
    if frontier::on_top(w.queue, item) && w.budget != 0 {
        lemma_visit_progress(p, w, item);
        lemma_visit_sourced(p, start, w, item);
        lemma_arrival_sourced(p, start, visit(p, w, item));
    }
}

/// The attention that a hit reports is that of its entity, and it comes from somewhere: the
/// start has its part of the budget, and every other entity what a relation handed on to it
/// from an entity that was visited.
pub proof fn attention_comes_from_relations(
    p: Plan,
    start: u128,
    report: TraversalResult,
    k: int,
)
    requires
        reports(p, start, report),
        0 <= k < report.hits@.len(),
    ensures
        ({
            let w = arrival(p, departure(p, start)).0;
            let hit = report.hits@[k];
            &&& w.attention.contains_key(hit.orb_id)
            &&& hit.attention_allocated == w.attention[hit.orb_id]
            &&& sourced(p, start, w, hit.orb_id)
        }),
{
    broadcast use vstd::seq_lib::group_to_multiset_ensures;

    let first = departure(p, start);
    lemma_departure_tie_free(p, start);
    lemma_departure_sound(p, start);
    lemma_arrival_sound(p, start, first);
    assert forall|item: (u128, usize)| #[trigger] first.queue.contains_key(item) implies
        first.attention.contains_key(item.0) by {
        assert(item == (start, 0usize));
    }
    assert(all_sourced(p, start, first));
    lemma_arrival_sourced(p, start, first);
    let w = arrival(p, first).0;
    lemma_ranking(w.hits);
    let hit = report.hits@[k];
    assert(report.hits@.contains(hit));
    assert(report.hits@.to_multiset().count(hit) > 0);
    assert(w.hits.contains(hit));
    let j = choose|j: int| 0 <= j < w.hits.len() && w.hits[j] == hit;
    assert(w.hits[j].attention_allocated == w.attention[w.hits[j].orb_id]);
}

/// The entity that a walk visits next is one of those that wait, and nobody who waits is more
/// urgent.
pub proof fn the_most_urgent_comes_next(w: Walk, item: (u128, usize))
    requires
        frontier::on_top(w.queue, next_item(w.queue)),
        w.queue.contains_key(item),
    ensures
        w.queue.contains_key(next_item(w.queue)),
        w.queue[item].0 <= w.queue[next_item(w.queue)].0,
{
}

/// A relation that is followed makes its target wait with the attention that it hands on,
/// unless the target has been visited or has as much already.
pub proof fn relations_make_their_targets_wait(
    p: Plan,
    w: Walk,
    attention: u64,
    depth: usize,
    edge: EdgeView,
)
    requires
        depth < usize::MAX,
    ensures
        ({
            let after = along(p, w, attention, depth, edge);
            let target = edge.target_orb_id;
            let share = handed_on(p, attention, edge);
            let waits = (target, (depth + 1) as usize);
            let allowed = p.allowed matches Some(types) ==> types.contains(edge.relation_type);
            &&& !allowed || w.visited.contains(target) ==> after.queue == w.queue
                && after.attention == w.attention
            &&& allowed && !w.visited.contains(target) ==> {
                &&& after.attention.contains_key(target)
                &&& after.attention[target] >= share
                &&& w.attention.contains_key(target) ==> after.attention[target]
                    >= w.attention[target]
                &&& share > attention_of(w, target) ==> after.queue.contains_key(waits)
                    && !frontier::lower(after.queue[waits], urgency(share, target))
            }
            &&& after.hits == w.hits && after.visited == w.visited
            &&& after.edges == w.edges + 1
            &&& allowed && !w.visited.contains(target) ==> after.budget == w.budget
            &&& (!allowed || w.visited.contains(target)) && w.budget > 0 ==> after.budget
                == w.budget - 1
        }),
{
}

proof fn lemma_along_all_costs(p: Plan, w: Walk, attention: u64, depth: usize, edges: Seq<EdgeView>)
    ensures
        ({
            let after = along_all(p, w, attention, depth, edges);
            &&& after.budget <= w.budget <= after.budget + edges.len()
            &&& after.edges == w.edges + edges.len()
            &&& after.hits == w.hits && after.visited == w.visited
        }),
    decreases edges.len(),
{
    if edges.len() > 0 {
        lemma_along_all_costs(p, w, attention, depth, edges.drop_last());
    }
}

/// A visit to an entity of the graph costs one unit and at most one more for each of its
/// relations. Visiting again, too far away, or somebody who is not in the graph costs
/// nothing. Nobody who is not trusted enough is hit or leads on, and from the largest
/// distance no relation is looked at.
pub proof fn visits_cost_attention(p: Plan, w: Walk, item: (u128, usize))
    requires
        w.budget > 0,
        w.queue.contains_key(item),
    ensures
        ({
            let after = visit(p, w, item);
            let (id, depth) = item;
            let fresh = !w.visited.contains(id) && depth <= p.max_depth;
            &&& !fresh ==> after.budget == w.budget && after.hits == w.hits && after.visited
                == w.visited && after.edges == w.edges
            &&& fresh ==> after.visited == w.visited.insert(id)
            &&& fresh && !p.nodes.contains_key(id) ==> after.budget == w.budget && after.hits
                == w.hits && after.edges == w.edges
            &&& fresh && p.nodes.contains_key(id) && p.nodes[id].trust.below(p.min_trust)
                ==> after.budget == w.budget - 1 && after.hits == w.hits && after.edges == w.edges
            &&& fresh && p.nodes.contains_key(id) && !p.nodes[id].trust.below(p.min_trust) ==> {
                let looked = if depth < p.max_depth {
                    p.nodes[id].edges.len()
                } else {
                    0
                };
                &&& after.edges == w.edges + looked
                &&& after.budget <= w.budget - 1 <= after.budget + looked
                &&& after.hits.len() <= w.hits.len() + 1
            }
        }),
{
    let (id, depth) = item;
    if !w.visited.contains(id) && depth < p.max_depth && leads_on(p, id) {
        let popped = Walk { queue: w.queue.remove(item), ..w };
        let entered = Walk { visited: w.visited.insert(id), ..popped };
        let charged = Walk { budget: less_one(w.budget), ..entered };
        lemma_along_all_costs(
            p,
            looked_at(p, charged, id, depth),
            hit_of(p, charged, id, depth).attention_allocated,
            depth,
            p.nodes[id].edges,
        );
    }
}

} // verus!
