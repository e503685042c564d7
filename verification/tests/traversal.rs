use piria::attention::AttentionAllocator;
use piria::belief::ProbabilityField;
use piria::clock::HlcTimestamp;
use piria::engine::TraversalEngine;
use piria::float::Single;
use piria::fpu::{Flop, Fpu};
use piria::orb::Orb;
use piria::outside::now_ms;
use piria::permissions::Permissions;
use piria::relation::{RelationRef, RelationType};
use piria::traversal::{
    EdgeView, GraphView, InMemoryGraphView, NodeView, ScoringWeights, SemanticQuery,
    TraversalConfig, SINGULARITY_CAP,
};
use piria::vector::{SemanticVector, VECTOR_DIM};
use uuid::Uuid;

fn single(x: f32) -> Single {
    Single::from_bits(x.to_bits())
}

fn value(s: Single) -> f32 {
    f32::from_bits(s.bits)
}

fn quiet(x: f32) -> u64 {
    let x = if x.is_nan() { f32::NAN } else { x };
    x.to_bits() as u64
}

fn wide_quiet(x: f64) -> u64 {
    let x = if x.is_nan() { f64::NAN } else { x };
    x.to_bits()
}

fn evaluate(op: Flop) -> u64 {
    let s = f32::from_bits;
    let d = f64::from_bits;
    match op {
        Flop::Add(a, b) => quiet(s(a) + s(b)),
        Flop::Sub(a, b) => quiet(s(a) - s(b)),
        Flop::Mul(a, b) => quiet(s(a) * s(b)),
        Flop::Div(a, b) => quiet(s(a) / s(b)),
        Flop::Sqrt(a) => quiet(s(a).sqrt()),
        Flop::Log2(a) => quiet(s(a).log2()),
        Flop::FromInt(n) => quiet(n as f32),
        Flop::ToInt(a) => s(a) as u64,
        Flop::WideAdd(a, b) => wide_quiet(d(a) + d(b)),
        Flop::WideSub(a, b) => wide_quiet(d(a) - d(b)),
        Flop::WideMul(a, b) => wide_quiet(d(a) * d(b)),
        Flop::WideDiv(a, b) => wide_quiet(d(a) / d(b)),
        Flop::WideExp(a) => wide_quiet(d(a).exp()),
        Flop::WideFloor(a) => wide_quiet(d(a).floor()),
        Flop::WideFromInt(n) => wide_quiet(n as f64),
        Flop::WideToInt(a) => d(a) as u64,
        Flop::Widen(a) => wide_quiet(s(a) as f64),
        Flop::Narrow(a) => quiet(d(a) as f32),
    }
}

fn native() -> Fpu<fn(Flop) -> u64> {
    Fpu::new(evaluate as fn(Flop) -> u64)
}

fn fresh() -> u128 {
    Uuid::now_v7().as_u128()
}

fn flat() -> Vec<Single> {
    vec![single(1.0 / (VECTOR_DIM as f32).sqrt()); VECTOR_DIM]
}

fn edge(target_orb_id: u128, relation_type: RelationType, weight: f32, trust: f32) -> EdgeView {
    EdgeView {
        edge_id: fresh(),
        target_orb_id,
        relation_type,
        weight: single(weight),
        trust_at_creation: single(trust),
    }
}

fn node(orb_id: u128, trust: f32, semantic_mass: f32, edges: Vec<EdgeView>) -> NodeView {
    NodeView {
        orb_id,
        semantic_vector: flat(),
        trust: single(trust),
        semantic_mass: single(semantic_mass),
        updated_at_ms: now_ms(),
        edges,
    }
}

fn make_node(orb_id: u128, trust: f32, semantic_mass: f32) -> NodeView {
    node(orb_id, trust, semantic_mass, vec![])
}

fn make_graph_chain(n: usize) -> (InMemoryGraphView, Vec<u128>) {
    let mut graph = InMemoryGraphView::new();
    let ids: Vec<u128> = (0..n).map(|_| fresh()).collect();

    for (i, &id) in ids.iter().enumerate() {
        let edges = if i + 1 < n {
            vec![edge(ids[i + 1], RelationType::References, 0.9, 0.8)]
        } else {
            vec![]
        };
        graph.insert(node(id, 0.7, 0.3, edges));
    }
    (graph, ids)
}

#[test]
fn traversal_finds_connected_nodes() {
    let (graph, ids) = make_graph_chain(5);
    let query = SemanticQuery::empty("test");
    let config = TraversalConfig { score_threshold: single(0.0), ..Default::default() };
    let result = TraversalEngine::traverse(&native(), &graph, ids[0], &query, &config).unwrap();
    assert_eq!(result.nodes_visited, 5);
    assert!(!result.budget_exhausted);
}

#[test]
fn traversal_respects_max_depth() {
    let (graph, ids) = make_graph_chain(10);
    let query = SemanticQuery::empty("test");
    let config =
        TraversalConfig { max_depth: 3, score_threshold: single(0.0), ..Default::default() };
    let result = TraversalEngine::traverse(&native(), &graph, ids[0], &query, &config).unwrap();
    assert!(result.nodes_visited <= 4);
    assert_eq!(result.nodes_visited, 4);
    assert!(result.hits.iter().all(|hit| hit.depth <= 3));
}

#[test]
fn traversal_never_exceeds_budget() {
    let (graph, ids) = make_graph_chain(100);
    let query = SemanticQuery::empty("test");
    let config =
        TraversalConfig { budget: 20, score_threshold: single(0.0), ..Default::default() };
    let result = TraversalEngine::traverse(&native(), &graph, ids[0], &query, &config).unwrap();
    assert!(result.budget_consumed <= 20);
}

#[test]
fn traversal_respects_relation_type_filter() {
    let mut graph = InMemoryGraphView::new();
    let a = fresh();
    let b = fresh();
    let c = fresh();

    graph.insert(node(
        a,
        0.8,
        0.5,
        vec![
            edge(b, RelationType::References, 0.9, 0.8),
            edge(c, RelationType::Causes, 0.9, 0.8),
        ],
    ));
    graph.insert(node(b, 0.7, 0.3, vec![]));
    graph.insert(node(c, 0.7, 0.3, vec![]));

    let query = SemanticQuery::empty("test");
    let config = TraversalConfig {
        allowed_relation_types: Some(vec![RelationType::Causes]),
        score_threshold: single(0.0),
        ..Default::default()
    };
    let result = TraversalEngine::traverse(&native(), &graph, a, &query, &config).unwrap();
    assert_eq!(result.nodes_visited, 2);
    let visited_ids: Vec<u128> = result.hits.iter().map(|h| h.orb_id).collect();
    assert!(visited_ids.contains(&a));
    assert!(visited_ids.contains(&c));
    assert!(!visited_ids.contains(&b));
}

#[test]
fn traversal_no_cycles() {
    let mut graph = InMemoryGraphView::new();
    let a = fresh();
    let b = fresh();

    graph.insert(node(a, 0.8, 0.5, vec![edge(b, RelationType::References, 1.0, 1.0)]));
    graph.insert(node(b, 0.8, 0.5, vec![edge(a, RelationType::References, 1.0, 1.0)]));

    let query = SemanticQuery::empty("cycle test");
    let config = TraversalConfig { score_threshold: single(0.0), ..Default::default() };
    let result = TraversalEngine::traverse(&native(), &graph, a, &query, &config).unwrap();
    assert_eq!(result.nodes_visited, 2);
}

#[test]
fn attention_allocator_conserves_budget() {
    let now = now_ms();
    let nodes: Vec<NodeView> = (0..5)
        .map(|_| {
            let mut n = make_node(fresh(), 0.5, 0.3);
            n.updated_at_ms = now;
            n
        })
        .collect();
    let budget = 10_000u64;
    let allocs = AttentionAllocator::allocate(&native(), &nodes, budget, now);
    let total: u64 = allocs.values().sum();
    assert_eq!(total, budget);
}

#[test]
fn attention_allocator_enforces_cap() {
    let now = now_ms();
    let mut nodes: Vec<NodeView> = (0..5)
        .map(|_| {
            let mut n = make_node(fresh(), 0.001, 0.001);
            n.updated_at_ms = now;
            n
        })
        .collect();
    nodes[0].trust = single(1.0);
    nodes[0].semantic_mass = single(1.0);

    let budget = 10_000u64;
    let cap = (budget as f32 * f32::from_bits(SINGULARITY_CAP)) as u64;
    let allocs = AttentionAllocator::allocate(&native(), &nodes, budget, now);

    for (_, &alloc) in &allocs {
        assert!(alloc <= cap, "allocation {alloc} exceeds cap {cap}");
    }
}

#[test]
fn attention_goes_by_priority_under_the_cap() {
    let now = now_ms();
    let mut nodes: Vec<NodeView> = (1..=20).map(|id| make_node(id, 0.1, 0.1)).collect();
    for n in nodes.iter_mut() {
        n.updated_at_ms = now;
    }
    nodes[3].trust = single(1.0);
    nodes[3].semantic_mass = single(1.0);
    let allocs = AttentionAllocator::allocate(&native(), &nodes, 1_000, now);
    assert_eq!(allocs.len(), 20);
    let total: u64 = allocs.values().sum();
    assert_eq!(total, 1_000);
    let top = allocs[&4];
    assert!(allocs.iter().all(|(id, &amount)| *id == 4 || amount < top));
    assert!(top <= 200);
}

#[test]
fn attention_for_few_or_none() {
    let fpu = native();
    let now = now_ms();
    assert!(AttentionAllocator::allocate(&fpu, &[], 100, now).is_empty());
    let nodes = vec![make_node(1, 0.5, 0.5), make_node(2, 0.5, 0.5), make_node(3, 0.5, 0.5)];
    let none = AttentionAllocator::allocate(&fpu, &nodes, 0, now);
    assert!(none.values().all(|&amount| amount == 0));
    let scarce = AttentionAllocator::allocate(&fpu, &nodes, 2, now);
    let total: u64 = scarce.values().sum();
    assert_eq!(total, 2);
    let fair = AttentionAllocator::allocate(&fpu, &nodes, 9, now);
    let total: u64 = fair.values().sum();
    assert_eq!(total, 9);
}

#[test]
fn walk_passes_over_unknown_entities() {
    let (graph, _) = make_graph_chain(2);
    let query = SemanticQuery::empty("test");
    let config = TraversalConfig::default();
    let report = TraversalEngine::traverse(&native(), &graph, 5, &query, &config).unwrap();
    assert!(report.hits.is_empty());
    assert_eq!(report.nodes_visited, 1);
    assert_eq!(report.budget_consumed, 0);
    assert!(!report.budget_exhausted);
}

#[test]
fn weights_should_add_up_to_one() {
    let fpu = native();
    let half = ScoringWeights {
        similarity: single(0.5),
        trust: single(0.5),
        recency: single(0.5),
        semantic_mass: single(0.5),
    };
    assert!(!half.validate(&fpu));
    assert!(ScoringWeights::default().validate(&fpu));
    let trust_only = ScoringWeights {
        similarity: single(0.0),
        trust: single(1.0),
        recency: single(0.0),
        semantic_mass: single(0.0),
    };
    assert!(trust_only.validate(&fpu));
    let (graph, ids) = make_graph_chain(2);
    let query = SemanticQuery::empty("test");
    let config = TraversalConfig { scoring_weights: Some(trust_only), ..Default::default() };
    let report = TraversalEngine::traverse(&fpu, &graph, ids[0], &query, &config).unwrap();
    assert!(report.hits.iter().all(|hit| hit.score == single(0.7)));
}

#[test]
fn walk_stops_where_the_budget_ends() {
    let mut graph = InMemoryGraphView::new();
    let edges = (2..=40).map(|id| edge(id, RelationType::Causes, 0.9, 0.9)).collect();
    graph.insert(node(1, 0.9, 0.1, edges));
    for id in 2..=40u128 {
        graph.insert(node(id, 0.5, 0.2, vec![]));
    }
    let query = SemanticQuery::empty("scarce");
    let config =
        TraversalConfig { budget: 10, score_threshold: single(0.0), ..Default::default() };
    let report = TraversalEngine::traverse(&native(), &graph, 1, &query, &config).unwrap();
    assert!(report.budget_exhausted);
    assert_eq!(report.budget_consumed, 10);
    assert_eq!(report.nodes_visited, 10);
    assert_eq!(report.hits[0].orb_id, 1);
    assert_eq!(report.hits[0].attention_allocated, 2);
}

#[test]
fn walk_scores_as_the_weights_say() {
    let mut graph = InMemoryGraphView::new();
    let mut n = make_node(7, 0.5, 0.25);
    n.updated_at_ms = 1_000;
    graph.insert(n);
    let query = SemanticQuery::new(flat(), "same direction");
    let config = TraversalConfig { score_threshold: single(0.0), ..Default::default() };
    let fpu = native();
    let report = TraversalEngine::traverse_at(&fpu, &graph, 7, &query, &config, 1_000).unwrap();
    let hit = &report.hits[0];
    assert!((value(hit.score_breakdown.similarity) - 1.0).abs() < 1e-4);
    assert_eq!(value(hit.score_breakdown.trust), 0.5);
    assert_eq!(value(hit.score_breakdown.recency), 1.0);
    assert_eq!(value(hit.score_breakdown.semantic_mass), 0.25);
    let expected = 0.4 + 0.3 * 0.5 + 0.15 + 0.15 * 0.25;
    assert!((value(hit.score) - expected).abs() < 1e-4);
    assert_eq!(hit.depth, 0);
    assert_eq!(report.edges_traversed, 0);
    let later = 1_000 + 7 * 24 * 3_600_000;
    let report = TraversalEngine::traverse_at(&fpu, &graph, 7, &query, &config, later).unwrap();
    let recency = value(report.hits[0].score_breakdown.recency);
    assert!(recency > 0.0 && recency < 1.0);
    let strict = TraversalConfig { score_threshold: single(0.99), ..Default::default() };
    let report = TraversalEngine::traverse_at(&fpu, &graph, 7, &query, &strict, 1_000).unwrap();
    assert!(report.hits.is_empty());
    assert_eq!(report.nodes_visited, 1);
}

#[test]
fn walk_puts_the_best_hits_first() {
    let mut graph = InMemoryGraphView::new();
    let edges = (2..=6).map(|id| edge(id, RelationType::Causes, 0.9, 0.9)).collect();
    graph.insert(node(1, 0.1, 0.1, edges));
    for id in 2..=6u128 {
        graph.insert(node(id, 0.1 * id as f32, 0.2, vec![]));
    }
    let query = SemanticQuery::empty("ranking");
    let config = TraversalConfig { score_threshold: single(0.0), ..Default::default() };
    let report = TraversalEngine::traverse(&native(), &graph, 1, &query, &config).unwrap();
    let order: Vec<u128> = report.hits.iter().map(|hit| hit.orb_id).collect();
    assert_eq!(order, vec![6, 5, 4, 3, 2, 1]);
    assert_eq!(report.edges_traversed, 5);
}

#[test]
fn walk_skips_distrusted_entities() {
    let mut graph = InMemoryGraphView::new();
    let edges =
        vec![edge(2, RelationType::Causes, 0.9, 0.9), edge(3, RelationType::Causes, 0.9, 0.9)];
    graph.insert(node(1, 0.9, 0.1, edges));
    graph.insert(node(2, 0.1, 0.1, vec![]));
    graph.insert(node(3, 0.9, 0.1, vec![]));
    let query = SemanticQuery::empty("trusted only");
    let config = TraversalConfig {
        score_threshold: single(0.0),
        min_trust: single(0.5),
        ..Default::default()
    };
    let report = TraversalEngine::traverse(&native(), &graph, 1, &query, &config).unwrap();
    let ids: Vec<u128> = report.hits.iter().map(|hit| hit.orb_id).collect();
    assert!(ids.contains(&1) && ids.contains(&3) && !ids.contains(&2));
}

#[test]
fn graph_takes_entities_over() {
    let fpu = native();
    let ts = HlcTimestamp::new(5_000, 0);
    let mut orb = Orb::with_identity(
        &fpu,
        11,
        SemanticVector::new(&fpu, vec![single(1.0); VECTOR_DIM]).unwrap(),
        ProbabilityField::uniform(4).unwrap(),
        Permissions::default_writer(),
        ts,
        6_000,
    );
    let rel = RelationRef::with_id(5, 6, RelationType::Causes, single(0.5), single(0.25), ts, 0);
    orb.add_relation(rel, ts).unwrap();
    let mut graph = InMemoryGraphView::new();
    graph.insert_orb_at(&fpu, &mut orb, 7_000);
    let found = graph.get_node(11).unwrap();
    assert_eq!(found.orb_id, 11);
    assert_eq!(found.updated_at_ms, 5_000);
    assert_eq!(found.edges.len(), 1);
    assert_eq!(found.edges[0].target_orb_id, 6);
    assert_eq!(found.edges[0].weight, single(0.5));
    assert_eq!(found.edges[0].trust_at_creation, single(0.25));
    assert_eq!(found.semantic_vector, orb.semantic_vector.0);
    assert!(graph.get_node(12).is_none());
}

#[test]
fn small_budgets_reach_the_next_entity() {
    let mut graph = InMemoryGraphView::new();
    graph.insert(node(1, 0.8, 0.5, vec![edge(2, RelationType::References, 1.0, 1.0)]));
    graph.insert(node(2, 0.8, 0.5, vec![]));
    let query = SemanticQuery::empty("next");
    for budget in [2u64, 3, 4, 5] {
        let config = TraversalConfig { budget, score_threshold: single(0.0), ..Default::default() };
        let result = TraversalEngine::traverse(&native(), &graph, 1, &query, &config).unwrap();
        assert_eq!(result.nodes_visited, 2);
        assert!(result.hits.len() <= result.nodes_visited);
        let hit = result.hits.iter().find(|hit| hit.orb_id == 2).unwrap();
        assert!(hit.attention_allocated >= 1);
        assert!(result.budget_consumed <= budget);
    }
}

#[test]
fn walk_visits_what_can_be_reached() {
    let mut graph = InMemoryGraphView::new();
    let follow = |target: u128| edge(target, RelationType::References, 1.0, 1.0);
    graph.insert(node(1, 0.9, 0.5, vec![follow(2), follow(3)]));
    graph.insert(node(2, 0.9, 0.5, vec![follow(1), follow(4)]));
    graph.insert(node(3, 0.0, 0.5, vec![follow(5)]));
    graph.insert(node(4, 0.9, 0.5, vec![]));
    graph.insert(node(5, 0.9, 0.5, vec![]));
    graph.insert(node(6, 0.9, 0.5, vec![follow(1)]));
    let query = SemanticQuery::empty("all");
    let config = TraversalConfig {
        score_threshold: single(0.0),
        min_trust: single(0.5),
        ..Default::default()
    };
    let result = TraversalEngine::traverse(&native(), &graph, 1, &query, &config).unwrap();
    assert!(!result.budget_exhausted);
    let mut hits: Vec<u128> = result.hits.iter().map(|hit| hit.orb_id).collect();
    hits.sort();
    assert_eq!(hits, vec![1, 2, 4]);
}

#[test]
fn attention_never_favours_the_lower_priority() {
    let now = now_ms();
    let mut nodes: Vec<NodeView> = Vec::new();
    for (orb_id, trust) in [(9u128, 0.8f32), (3, 0.4), (7, 0.2), (1, 0.1), (5, 0.05)] {
        let mut entity = make_node(orb_id, trust, 0.5);
        entity.updated_at_ms = now;
        nodes.push(entity);
    }
    for budget in [5u64, 6, 7, 8, 11, 23, 100, 101, 9_999] {
        let amounts = AttentionAllocator::allocate(&native(), &nodes, budget, now);
        for pair in nodes.windows(2) {
            assert!(amounts[&pair[0].orb_id] >= amounts[&pair[1].orb_id]);
        }
    }
}

#[test]
fn requests_and_reports_can_be_copied() {
    let config = TraversalConfig { budget: 77, ..Default::default() };
    assert_eq!(config.clone().budget, 77);
    let query = SemanticQuery::new(flat(), "copy");
    let copy = query.clone();
    assert_eq!(copy.description, "copy");
    assert_eq!(copy.query_vector, query.query_vector);
    let (graph, ids) = make_graph_chain(2);
    let report = TraversalEngine::traverse(&native(), &graph, ids[0], &copy, &config).unwrap();
    assert_eq!(report.clone().nodes_visited, report.nodes_visited);
}

#[test]
fn attention_is_conserved_for_large_budgets() {
    let now = now_ms();
    let mut nodes: Vec<NodeView> = Vec::new();
    for orb_id in 1..=10u128 {
        let mut entity = make_node(orb_id, 1.0, 1.0);
        entity.updated_at_ms = now;
        nodes.push(entity);
    }
    for budget in [1u64 << 60, (1 << 60) + 7, 1 << 53, 12_345_678_901_234_567] {
        let amounts = AttentionAllocator::allocate(&native(), &nodes, budget, now);
        assert_eq!(amounts.values().sum::<u64>(), budget);
        assert!(amounts.values().all(|amount| *amount >= 1));
    }
}

#[test]
fn walk_tells_all_that_it_found() {
    let mut graph = InMemoryGraphView::new();
    let follow = |target: u128| edge(target, RelationType::References, 1.0, 1.0);
    graph.insert(node(1, 0.9, 0.9, vec![follow(2), follow(3), follow(4)]));
    graph.insert(node(2, 0.9, 0.9, vec![]));
    graph.insert(node(3, 0.1, 0.0, vec![]));
    graph.insert(node(4, 0.9, 0.9, vec![]));
    let query = SemanticQuery::empty("all");
    let config = TraversalConfig { score_threshold: single(0.4), ..Default::default() };
    let result = TraversalEngine::traverse(&native(), &graph, 1, &query, &config).unwrap();
    assert_eq!(result.nodes_visited, 4);
    let mut hits: Vec<u128> = result.hits.iter().map(|hit| hit.orb_id).collect();
    hits.sort();
    assert_eq!(hits, vec![1, 2, 4]);
}
