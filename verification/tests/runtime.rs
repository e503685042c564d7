use piria::belief::ProbabilityField;
use piria::error::PiriaError;
use piria::float::Single;
use piria::fpu::{Flop, Fpu};
use piria::orb::SemanticState;
use piria::payload::{Codec, Event, EventPayload};
use piria::permissions::Permissions;
use piria::relation::RelationType;
use piria::runtime::{Host, Moment, PiriaRuntime};
use piria::storage::{Disk, GraphSnapshot, JsonGraphStore};
use piria::traversal::{GraphView, SemanticQuery, TraversalConfig};
use piria::vector::{SemanticVector, VECTOR_DIM};
use std::cell::RefCell;

type Compute = fn(Flop) -> u64;
type Write = fn(&EventPayload) -> Result<Vec<u8>, String>;
type Read = fn(&str) -> Result<Event, String>;
type Journal = fn(&JsonGraphStore, &Event) -> Result<(), PiriaError>;
type Save = fn(&JsonGraphStore, &GraphSnapshot) -> Result<(), PiriaError>;

fn single(x: f32) -> Single {
    Single::from_bits(x.to_bits())
}

fn value(s: Single) -> f32 {
    f32::from_bits(s.bits)
}

fn quiet(x: f32) -> u64 {
    let x = if x.is_nan() { f32::NAN } else { x };
    x.to_bits() as u64
}

fn wide_quiet(x: f64) -> u64 {
    let x = if x.is_nan() { f64::NAN } else { x };
    x.to_bits()
}

fn evaluate(op: Flop) -> u64 {
    let s = f32::from_bits;
    let d = f64::from_bits;
    match op {
        Flop::Add(a, b) => quiet(s(a) + s(b)),
        Flop::Sub(a, b) => quiet(s(a) - s(b)),
        Flop::Mul(a, b) => quiet(s(a) * s(b)),
        Flop::Div(a, b) => quiet(s(a) / s(b)),
        Flop::Sqrt(a) => quiet(s(a).sqrt()),
        Flop::Log2(a) => quiet(s(a).log2()),
        Flop::FromInt(n) => quiet(n as f32),
        Flop::ToInt(a) => s(a) as u64,
        Flop::WideAdd(a, b) => wide_quiet(d(a) + d(b)),
        Flop::WideSub(a, b) => wide_quiet(d(a) - d(b)),
        Flop::WideMul(a, b) => wide_quiet(d(a) * d(b)),
        Flop::WideDiv(a, b) => wide_quiet(d(a) / d(b)),
        Flop::WideExp(a) => wide_quiet(d(a).exp()),
        Flop::WideFloor(a) => wide_quiet(d(a).floor()),
        Flop::WideFromInt(n) => wide_quiet(n as f64),
        Flop::WideToInt(a) => d(a) as u64,
        Flop::Widen(a) => wide_quiet(s(a) as f64),
        Flop::Narrow(a) => quiet(d(a) as f32),
    }
}

fn native() -> Fpu<fn(Flop) -> u64> {
    Fpu::new(evaluate as fn(Flop) -> u64)
}

fn write_payload(payload: &EventPayload) -> Result<Vec<u8>, String> {
    Ok(format!("{:?}", payload).into_bytes())
}

fn no_events(_line: &str) -> Result<Event, String> {
    Err("no events".to_string())
}

fn keep_event(_store: &JsonGraphStore, _event: &Event) -> Result<(), PiriaError> {
    Ok(())
}

fn keep_snapshot(_store: &JsonGraphStore, _snapshot: &GraphSnapshot) -> Result<(), PiriaError> {
    Ok(())
}

fn host() -> Host<Compute, Write, Read, Journal, Save> {
    Host {
        fpu: native(),
        codec: Codec::new(write_payload as Write, no_events as Read),
        disk: Disk::new(keep_event as Journal, keep_snapshot as Save),
    }
}

fn vector() -> SemanticVector {
    SemanticVector::new(&native(), vec![single(1.0); VECTOR_DIM]).unwrap()
}

fn moment(ms: u64, new_id: u128, event_id: u128) -> Moment {
    Moment {
        wall_ms: ms,
        new_id,
        trust_ms: ms,
        used_ms: ms,
        event_id,
        event_ms: ms,
        sampled_ms: ms,
        saved_ms: ms,
    }
}

fn create(runtime: &mut PiriaRuntime, id: u128) {
    let made = runtime
        .create_orb_with(
            &host(),
            moment(1_000, id, 100 * id),
            vector(),
            ProbabilityField::uniform(4).unwrap(),
            Permissions::default_writer(),
        )
        .unwrap();
    assert_eq!(made, id);
}

#[test]
fn runtime_creates_orb_and_event() {
    let mut runtime = PiriaRuntime::new("node-test");
    assert!(runtime.has_capacity());
    let orb_id = runtime
        .create_orb(
            &host(),
            vector(),
            ProbabilityField::uniform(4).unwrap(),
            Permissions::default_writer(),
        )
        .unwrap();

    assert!(runtime.get_orb(orb_id).is_some());
    assert_eq!(runtime.event_count(), 1);
}

#[test]
fn runtime_traverses_relation() {
    let host = host();
    let mut runtime = PiriaRuntime::new("node-test");
    let a = runtime
        .create_orb(
            &host,
            vector(),
            ProbabilityField::uniform(4).unwrap(),
            Permissions::default_writer(),
        )
        .unwrap();
    let b = runtime
        .create_orb(
            &host,
            vector(),
            ProbabilityField::uniform(4).unwrap(),
            Permissions::default_writer(),
        )
        .unwrap();
    runtime.add_relation(&host, a, b, RelationType::References, single(0.9)).unwrap();

    let result = runtime
        .traverse(
            &host.fpu,
            a,
            &SemanticQuery::empty("runtime traversal"),
            &TraversalConfig { score_threshold: single(0.0), ..Default::default() },
        )
        .unwrap();

    assert_eq!(result.nodes_visited, 2);
}

#[test]
fn changes_are_logged() {
    let host = host();
    let mut runtime = PiriaRuntime::new("node-test");
    create(&mut runtime, 1);
    create(&mut runtime, 2);
    let edge = runtime
        .add_relation_with(
            &host,
            moment(2_000, 50, 51),
            1,
            2,
            RelationType::Causes,
            single(3.0),
        )
        .unwrap();
    assert_eq!(edge, 50);
    runtime.transition_orb_with(&host, moment(3_000, 0, 52), 1, SemanticState::Dormant).unwrap();
    runtime
        .update_probability_field_with(&host, moment(4_000, 0, 53), 1, &[single(1.0); 4])
        .unwrap();
    assert_eq!(runtime.event_count(), 5);
    assert_eq!(runtime.orb_count(), 2);
    assert_eq!(runtime.node_id(), "node-test");
    let mut ids = runtime.orb_ids();
    ids.sort();
    assert_eq!(ids, vec![1, 2]);
    let log = runtime.event_log(1).unwrap();
    log.verify_chain(&host.codec).unwrap();
    let logged: Vec<u128> = log.iter().iter().map(|e| e.event_id).collect();
    assert_eq!(logged, vec![100, 51, 52, 53]);
    assert!(matches!(
        log.iter()[1].payload,
        EventPayload::RelationAdded { target_orb_id: 2, weight, edge_id: 50, .. }
            if weight == single(1.0)
    ));
    if let EventPayload::RelationAdded { relation_type, .. } = &log.iter()[1].payload {
        assert_eq!(relation_type, "Causes");
    }
    assert!(matches!(
        log.iter()[2].payload,
        EventPayload::OrbStateChanged {
            from_state: SemanticState::Active,
            to_state: SemanticState::Dormant,
        }
    ));
    let counts: Vec<u64> =
        log.iter().iter().map(|e| e.vector_clock.counter("node-test")).collect();
    assert_eq!(counts, vec![1, 3, 4, 5]);
    let orb = runtime.get_orb(1).unwrap();
    assert_eq!(orb.event_refs, vec![100, 51, 52, 53]);
    assert_eq!(orb.probability_field.alpha, vec![single(2.0); 4]);
    orb.verify_integrity().unwrap();
}

#[test]
fn unknown_entities_are_refused() {
    let host = host();
    let mut runtime = PiriaRuntime::new("node-test");
    create(&mut runtime, 1);
    let result = runtime.add_relation(&host, 9, 1, RelationType::Causes, single(0.5));
    assert!(matches!(result, Err(PiriaError::OrbNotFound(9))));
    let result = runtime.add_relation(&host, 1, 8, RelationType::Causes, single(0.5));
    assert!(matches!(result, Err(PiriaError::OrbNotFound(8))));
    let result = runtime.transition_orb(&host, 7, SemanticState::Dormant);
    assert!(matches!(result, Err(PiriaError::OrbNotFound(7))));
    let result = runtime.update_probability_field(&host, 6, &[single(1.0); 4]);
    assert!(matches!(result, Err(PiriaError::OrbNotFound(6))));
    assert!(runtime.get_orb(6).is_none());
    assert!(runtime.get_orb_mut(6).is_none());
    assert!(runtime.event_log(6).is_none());
    assert_eq!(runtime.event_count(), 1);
}

#[test]
fn refused_changes_leave_no_event() {
    let host = host();
    let mut runtime = PiriaRuntime::new("node-test");
    create(&mut runtime, 1);
    let result = runtime.transition_orb(&host, 1, SemanticState::Active);
    assert!(matches!(result, Err(PiriaError::InvalidStateTransition { .. })));
    let result = runtime.update_probability_field(&host, 1, &[single(1.0); 3]);
    assert!(matches!(result, Err(PiriaError::InvalidProbabilityField { categories: 3 })));
    assert_eq!(runtime.event_count(), 1);
}

#[test]
fn entities_can_be_changed_in_place() {
    let mut runtime = PiriaRuntime::new("node-test");
    create(&mut runtime, 1);
    runtime.get_orb_mut(1).unwrap().trust.score = single(0.5);
    assert_eq!(runtime.get_orb(1).unwrap().trust.score, single(0.5));
}

#[test]
fn entropy_is_watched() {
    let fpu = native();
    let mut runtime = PiriaRuntime::new("node-test");
    let empty = runtime.entropy_snapshot(&fpu);
    assert_eq!(empty.active_orb_count, 0);
    assert_eq!(empty.mean_normalized_entropy, single(0.0));
    create(&mut runtime, 1);
    create(&mut runtime, 2);
    runtime.transition_orb(&host(), 2, SemanticState::Dormant).unwrap();
    let order = runtime.orb_ids();
    let sample = runtime.entropy_snapshot_in(&fpu, &order, 77);
    assert_eq!(sample.active_orb_count, 1);
    assert_eq!(sample.sampled_at_ms, 77);
    assert!((value(sample.mean_normalized_entropy) - 1.0).abs() < 1e-5);
    let alerts = runtime.observe_entropy_at(&fpu, 1_000);
    assert_eq!(alerts.len(), 1);
    assert!(!runtime.observe_entropy(&fpu).is_empty());
}

#[test]
fn graph_shows_the_entities() {
    let fpu = native();
    let mut runtime = PiriaRuntime::new("node-test");
    create(&mut runtime, 1);
    create(&mut runtime, 2);
    runtime
        .add_relation_with(
            &host(),
            moment(2_000, 50, 51),
            1,
            2,
            RelationType::Causes,
            single(0.5),
        )
        .unwrap();
    let graph = runtime.graph_view(&fpu);
    assert_eq!(graph.get_node(1).unwrap().edges[0].target_orb_id, 2);
    assert!(graph.get_node(2).unwrap().edges.is_empty());
    assert!(graph.get_node(3).is_none());
    let order = runtime.orb_ids();
    let seen = runtime.graph_view_in(&fpu, &order, 9_000).get_node(1).unwrap();
    assert_eq!(seen.updated_at_ms, 2_000);
    assert_eq!(seen.edges[0].edge_id, 50);
}

#[test]
fn node_survives_a_restart() {
    let journal: RefCell<Vec<Event>> = RefCell::new(Vec::new());
    let shelf: RefCell<Option<GraphSnapshot>> = RefCell::new(None);
    let host = Host {
        fpu: native(),
        codec: Codec::new(write_payload as Write, |line: &str| {
            Ok(journal.borrow()[line.parse::<usize>().unwrap()].clone())
        }),
        disk: Disk::new(
            |_store: &JsonGraphStore, event: &Event| {
                journal.borrow_mut().push(event.clone());
                Ok(())
            },
            |_store: &JsonGraphStore, snapshot: &GraphSnapshot| {
                *shelf.borrow_mut() = Some(snapshot.clone());
                Ok(())
            },
        ),
    };
    let store = || JsonGraphStore::at("data");
    let mut runtime =
        PiriaRuntime::open_persistent(&host.codec, "node-test", store(), None, Ok(vec![]))
            .unwrap();
    let field = || ProbabilityField::uniform(4).unwrap();
    let a =
        runtime.create_orb(&host, vector(), field(), Permissions::default_writer()).unwrap();
    let b =
        runtime.create_orb(&host, vector(), field(), Permissions::default_writer()).unwrap();
    runtime.add_relation(&host, a, b, RelationType::Causes, single(0.5)).unwrap();
    runtime.transition_orb(&host, b, SemanticState::Dormant).unwrap();
    runtime.persist_snapshot(&host).unwrap();

    let lines = (0..journal.borrow().len()).map(|i| Ok(format!("{}", i))).collect();
    let snapshot = shelf.borrow().clone();
    let again =
        PiriaRuntime::open_persistent(&host.codec, "node-test", store(), snapshot, Ok(lines))
            .unwrap();
    assert_eq!(again.orb_count(), 2);
    assert_eq!(again.event_count(), 4);
    assert_eq!(again.get_orb(a).unwrap().relations.len(), 1);
    assert_eq!(again.get_orb(b).unwrap().semantic_state, SemanticState::Dormant);
    again.event_log(a).unwrap().verify_chain(&host.codec).unwrap();

    let mut spoiled = shelf.borrow().clone().unwrap();
    spoiled.orbs[0].permissions = Permissions::operator();
    let result = PiriaRuntime::open_persistent(
        &host.codec,
        "node-test",
        store(),
        Some(spoiled),
        Ok(vec![]),
    );
    assert!(matches!(result, Err(PiriaError::IntegrityHashMismatch { .. })));
    let result = PiriaRuntime::open_persistent(
        &host.codec,
        "node-test",
        store(),
        None,
        Err("no journal".to_string()),
    );
    assert!(matches!(result, Err(PiriaError::Internal(text)) if text == "no journal"));
}

#[test]
fn disk_faults_come_through() {
    let full: Journal = |_store, _event| Err(PiriaError::Internal("disk full".to_string()));
    let torn: Save = |_store, _snapshot| Err(PiriaError::Internal("torn".to_string()));
    let host = Host {
        fpu: native(),
        codec: Codec::new(write_payload as Write, no_events as Read),
        disk: Disk::new(full, keep_snapshot as Save),
    };
    let open = |codec: &Codec<Write, Read>| {
        let store = JsonGraphStore::at("data");
        PiriaRuntime::open_persistent(codec, "node-test", store, None, Ok(vec![])).unwrap()
    };
    let field = || ProbabilityField::uniform(4).unwrap();
    let mut runtime = open(&host.codec);
    let result = runtime.create_orb(&host, vector(), field(), Permissions::default_writer());
    assert!(matches!(result, Err(PiriaError::Internal(text)) if text == "disk full"));
    assert_eq!(runtime.orb_count(), 0);
    assert_eq!(runtime.event_count(), 1);

    let host = Host {
        fpu: native(),
        codec: Codec::new(write_payload as Write, no_events as Read),
        disk: Disk::new(keep_event as Journal, torn),
    };
    let mut runtime = open(&host.codec);
    let result = runtime.create_orb(&host, vector(), field(), Permissions::default_writer());
    assert!(matches!(result, Err(PiriaError::Internal(text)) if text == "torn"));
    assert_eq!(runtime.orb_count(), 1);
    let result = runtime.persist_snapshot_at(&host, 5);
    assert!(matches!(result, Err(PiriaError::Internal(_))));
    assert!(PiriaRuntime::new("m").persist_snapshot(&host).is_ok());
}

#[test]
fn moments_follow_the_clock() {
    let now = Moment::now();
    assert!(now.wall_ms > 1_600_000_000_000);
    assert!(now.saved_ms >= now.wall_ms);
    assert_ne!(now.new_id, now.event_id);
    assert_eq!((now.new_id >> 76) & 0xf, 7);
}

#[test]
fn logs_stay_in_causal_order() {
    let host = host();
    let mut runtime = PiriaRuntime::new("node-test");
    create(&mut runtime, 1);
    create(&mut runtime, 2);
    for step in 0..5 {
        let early = moment(500, 60 + step, 70 + step);
        runtime
            .add_relation_with(&host, early, 1, 2, RelationType::Causes, single(0.5))
            .unwrap();
    }
    let log = runtime.event_log(1).unwrap().iter();
    assert_eq!(log.len(), 6);
    for pair in log.windows(2) {
        assert!(pair[0].timestamp_logical.is_before(&pair[1].timestamp_logical));
    }
}

#[test]
fn history_is_kept_through_refusals() {
    let host = host();
    let mut runtime = PiriaRuntime::new("node-test");
    create(&mut runtime, 1);
    create(&mut runtime, 2);
    let before: Vec<u128> =
        runtime.event_log(1).unwrap().iter().iter().map(|e| e.event_id).collect();
    runtime.transition_orb(&host, 1, SemanticState::Active).unwrap_err();
    runtime.update_probability_field(&host, 1, &[single(-1.0); 4]).unwrap_err();
    let orb = runtime.get_orb_mut(1).unwrap();
    orb.degree_budget = 0;
    orb.record_event(99);
    let result = runtime.add_relation(&host, 1, 2, RelationType::Causes, single(0.5));
    assert!(matches!(result, Err(PiriaError::DegreeBudgetExceeded { orb_id: 1, budget: 0 })));
    let after: Vec<u128> =
        runtime.event_log(1).unwrap().iter().iter().map(|e| e.event_id).collect();
    assert_eq!(before, after);
    runtime.get_orb(1).unwrap().verify_integrity().unwrap();
    runtime.transition_orb(&host, 1, SemanticState::Archived).unwrap();
    let result = runtime.transition_orb(&host, 1, SemanticState::Active);
    assert!(matches!(result, Err(PiriaError::InvalidStateTransition { .. })));
    assert_eq!(runtime.orb_count(), 2);
}

#[test]
fn refused_changes_keep_a_node_in_order() {
    let host = host();
    let mut runtime = PiriaRuntime::new("node-test");
    create(&mut runtime, 1);
    create(&mut runtime, 2);
    runtime.add_relation(&host, 1, 2, RelationType::Causes, single(0.5)).unwrap();
    runtime.add_relation(&host, 1, 2, RelationType::Supports, single(0.4)).unwrap();
    let mixed = [single(1.0), single(-1.0), single(0.0), single(0.0)];
    runtime.update_probability_field(&host, 1, &mixed).unwrap_err();
    runtime.get_orb(1).unwrap().verify_integrity().unwrap();
    let orb = runtime.get_orb_mut(1).unwrap();
    orb.degree_budget = 1;
    orb.record_event(99);
    let result = runtime.add_relation(&host, 1, 2, RelationType::Causes, single(0.5));
    assert!(matches!(result, Err(PiriaError::DegreeBudgetExceeded { orb_id: 1, budget: 1 })));
    runtime.get_orb(1).unwrap().verify_integrity().unwrap();
    assert_eq!(runtime.get_orb(1).unwrap().relations.len(), 1);
}
