use piria::belief::ProbabilityField;
use piria::clock::{HlcTimestamp, VectorClock};
use piria::crdt::{
    merge_semantic_states, merge_semantic_vectors, EventRefGSet, OrbCrdtState,
    PartitionMergeCoordinator, TrustLwwRegister,
};
use piria::error::PiriaError;
use piria::float::Single;
use piria::fpu::{Flop, Fpu};
use piria::numeric::l2_norm;
use piria::orb::{Orb, SemanticState};
use piria::orset::RelationOrSet;
use piria::permissions::Permissions;
use piria::relation::{RelationRef, RelationType};
use piria::trust::{TrustRecord, TRUST_FLOOR};
use piria::vector::{SemanticVector, VECTOR_DIM};
use rand::Rng;
use uuid::Uuid;

fn single(x: f32) -> Single {
    Single::from_bits(x.to_bits())
}

fn value(s: Single) -> f32 {
    f32::from_bits(s.bits)
}

fn quiet(x: f32) -> u64 {
    let x = if x.is_nan() { f32::NAN } else { x };
    x.to_bits() as u64
}

fn wide_quiet(x: f64) -> u64 {
    let x = if x.is_nan() { f64::NAN } else { x };
    x.to_bits()
}

fn evaluate(op: Flop) -> u64 {
    let s = f32::from_bits;
    let d = f64::from_bits;
    match op {
        Flop::Add(a, b) => quiet(s(a) + s(b)),
        Flop::Sub(a, b) => quiet(s(a) - s(b)),
        Flop::Mul(a, b) => quiet(s(a) * s(b)),
        Flop::Div(a, b) => quiet(s(a) / s(b)),
        Flop::Sqrt(a) => quiet(s(a).sqrt()),
        Flop::Log2(a) => quiet(s(a).log2()),
        Flop::FromInt(n) => quiet(n as f32),
        Flop::ToInt(a) => s(a) as u64,
        Flop::WideAdd(a, b) => wide_quiet(d(a) + d(b)),
        Flop::WideSub(a, b) => wide_quiet(d(a) - d(b)),
        Flop::WideMul(a, b) => wide_quiet(d(a) * d(b)),
        Flop::WideDiv(a, b) => wide_quiet(d(a) / d(b)),
        Flop::WideExp(a) => wide_quiet(d(a).exp()),
        Flop::WideFloor(a) => wide_quiet(d(a).floor()),
        Flop::WideFromInt(n) => wide_quiet(n as f64),
        Flop::WideToInt(a) => d(a) as u64,
        Flop::Widen(a) => wide_quiet(s(a) as f64),
        Flop::Narrow(a) => quiet(d(a) as f32),
    }
}

fn native() -> Fpu<fn(Flop) -> u64> {
    Fpu::new(evaluate as fn(Flop) -> u64)
}

fn fresh() -> u128 {
    Uuid::now_v7().as_u128()
}

fn make_test_orb() -> Orb {
    let ts = HlcTimestamp::new(1_000_000, 0);
    let mut rng = rand::thread_rng();
    let raw: Vec<Single> = (0..VECTOR_DIM).map(|_| single(rng.gen::<f32>() - 0.5)).collect();
    Orb::new(
        &native(),
        SemanticVector::new(&native(), raw).unwrap(),
        ProbabilityField::uniform(4).unwrap(),
        Permissions::default_writer(),
        ts,
    )
}

fn make_crdt(orb: &Orb, hlc: HlcTimestamp) -> OrbCrdtState {
    OrbCrdtState::from_orb(orb, hlc, VectorClock::new())
}

#[test]
fn or_set_add_and_remove() {
    let mut set = RelationOrSet::new();
    let ts1 = HlcTimestamp::new(1_000, 0);
    let ts2 = HlcTimestamp::new(2_000, 0);

    let rel = RelationRef::new(fresh(), RelationType::Supports, single(0.8), single(0.5), ts1);
    let eid = rel.edge_id;

    set.add(rel, ts1);
    assert_eq!(set.len(), 1);

    set.remove(eid, ts2);
    assert_eq!(set.len(), 0);
}

#[test]
fn or_set_merge_commutativity() {
    let ts = HlcTimestamp::new(1_000, 0);
    let mut a = RelationOrSet::new();
    let mut b = RelationOrSet::new();

    let rel_a = RelationRef::new(fresh(), RelationType::Causes, single(0.6), single(0.5), ts);
    let rel_b = RelationRef::new(fresh(), RelationType::Supports, single(0.7), single(0.5), ts);

    a.add(rel_a, ts);
    b.add(rel_b, ts);

    let ab = a.merge(&b);
    let ba = b.merge(&a);

    assert_eq!(ab.len(), ba.len());
    assert_eq!(ab.len(), 2);
    assert_eq!(ab.live, ba.live);
}

#[test]
fn or_set_merge_idempotent() {
    let ts = HlcTimestamp::new(1_000, 0);
    let mut a = RelationOrSet::new();
    let rel = RelationRef::new(fresh(), RelationType::References, single(0.5), single(0.5), ts);
    a.add(rel, ts);

    let aa = a.merge(&a);
    assert_eq!(aa.len(), 1);
    assert_eq!(aa.live, a.live);
}

#[test]
fn or_set_newer_add_replaces_payload() {
    let ts1 = HlcTimestamp::new(1_000, 0);
    let ts2 = HlcTimestamp::new(2_000, 0);
    let mut set = RelationOrSet::new();

    let mut old_rel =
        RelationRef::new(fresh(), RelationType::References, single(0.2), single(0.5), ts1);
    let mut new_rel = old_rel.clone();
    new_rel.weight = single(0.9);
    new_rel.relation_type = RelationType::Supports;
    old_rel.weight = single(0.2);

    set.add(old_rel, ts1);
    set.add(new_rel, ts2);

    let relation = set.relations()[0];
    assert_eq!(&relation.relation_type, &RelationType::Supports);
    assert!((value(relation.weight) - 0.9).abs() < 1e-5);
}

#[test]
fn or_set_merge_newer_add_replaces_payload() {
    let ts1 = HlcTimestamp::new(1_000, 0);
    let ts2 = HlcTimestamp::new(2_000, 0);
    let mut a = RelationOrSet::new();
    let mut b = RelationOrSet::new();

    let old_rel =
        RelationRef::new(fresh(), RelationType::References, single(0.2), single(0.5), ts1);
    let mut new_rel = old_rel.clone();
    new_rel.weight = single(0.9);
    new_rel.relation_type = RelationType::Supports;

    a.add(old_rel, ts1);
    b.add(new_rel, ts2);

    let merged = a.merge(&b);
    let relation = merged.relations()[0];
    assert_eq!(&relation.relation_type, &RelationType::Supports);
    assert!((value(relation.weight) - 0.9).abs() < 1e-5);
}

#[test]
fn or_set_concurrent_add_remove_remove_wins_if_later() {
    let ts_add = HlcTimestamp::new(1_000, 0);
    let ts_remove = HlcTimestamp::new(2_000, 0);

    let mut a = RelationOrSet::new();
    let mut b = RelationOrSet::new();

    let rel = RelationRef::new(fresh(), RelationType::References, single(0.5), single(0.5), ts_add);
    let eid = rel.edge_id;

    a.add(rel.clone(), ts_add);
    b.add(rel, ts_add);
    b.remove(eid, ts_remove);

    let merged = a.merge(&b);
    assert_eq!(merged.len(), 0);
}

#[test]
fn or_set_late_add_survives_and_early_one_does_not() {
    let at = |ms: u64| HlcTimestamp::new(ms, 0);
    let rel = RelationRef::with_id(5, 6, RelationType::Causes, single(0.5), single(0.5), at(1), 0);
    let mut set = RelationOrSet::new();
    set.remove(5, at(10));
    set.add(rel, at(10));
    assert!(set.is_empty());
    set.add(rel, at(11));
    assert_eq!(set.len(), 1);
    set.remove(5, at(10));
    assert_eq!(set.len(), 1);
    set.remove(5, at(11));
    assert!(set.is_empty());
    assert_eq!(set.tombstones.get(&5), Some(&at(11)));
    set.remove(5, at(3));
    assert_eq!(set.tombstones.get(&5), Some(&at(11)));
}

#[test]
fn or_set_merge_is_associative() {
    let at = |ms: u64| HlcTimestamp::new(ms, 0);
    let rel = |edge: u128, weight: f32| {
        RelationRef::with_id(edge, 6, RelationType::Causes, single(weight), single(0.5), at(1), 0)
    };
    let mut a = RelationOrSet::new();
    a.add(rel(1, 0.1), at(5));
    a.add(rel(2, 0.2), at(5));
    let mut b = RelationOrSet::new();
    b.add(rel(1, 0.3), at(6));
    b.remove(2, at(7));
    let mut c = RelationOrSet::new();
    c.add(rel(2, 0.4), at(8));
    c.remove(1, at(6));
    let left = a.merge(&b).merge(&c);
    let right = a.merge(&b.merge(&c));
    assert_eq!(left.live, right.live);
    assert_eq!(left.tombstones, right.tombstones);
    assert_eq!(left.len(), 1);
    assert_eq!(left.live.get(&2), Some(&(rel(2, 0.4), at(8))));
}

#[test]
fn trust_lww_higher_hlc_wins() {
    let ts1 = HlcTimestamp::new(1_000, 0);
    let ts2 = HlcTimestamp::new(2_000, 0);

    let mut r1 = TrustRecord::initial();
    r1.score = single(0.3);
    let mut r2 = TrustRecord::initial();
    r2.score = single(0.7);

    let reg1 = TrustLwwRegister::new(r1, ts1);
    let reg2 = TrustLwwRegister::new(r2, ts2);

    let merged = reg1.merge(&reg2);
    assert!((value(merged.record.score) - 0.7).abs() < 1e-5);
    assert_eq!(reg2.merge(&reg1), merged);
}

#[test]
fn trust_lww_floor_applied() {
    let ts = HlcTimestamp::new(1_000, 0);
    let mut r = TrustRecord::initial();
    r.score = single(0.0);
    let reg = TrustLwwRegister::new(r.clone(), ts);
    let merged = reg.merge(&TrustLwwRegister::new(r, ts));
    assert!(value(merged.record.score) >= f32::from_bits(TRUST_FLOOR));
}

#[test]
fn gset_merge_is_union() {
    let mut a = EventRefGSet::new();
    let mut b = EventRefGSet::new();
    let id1 = fresh();
    let id2 = fresh();
    let id3 = fresh();

    a.add(id1);
    a.add(id2);
    b.add(id2);
    b.add(id3);

    let merged = a.merge(&b);
    assert_eq!(merged.refs.len(), 3);
    assert!(merged.refs.contains(&id1));
    assert!(merged.refs.contains(&id2));
    assert!(merged.refs.contains(&id3));
    assert_eq!(b.merge(&a).refs, merged.refs);
}

#[test]
fn semantic_vector_merge_survives_opposing_vectors() {
    let mut va = vec![single(0.0); VECTOR_DIM];
    va[0] = single(1.0);
    let mut vb = vec![single(0.0); VECTOR_DIM];
    vb[0] = single(-1.0);

    let merged = merge_semantic_vectors(&native(), &va, single(1.0), &vb, single(1.0)).unwrap();
    let reverse = merge_semantic_vectors(&native(), &vb, single(1.0), &va, single(1.0)).unwrap();
    let norm = value(l2_norm(&native(), &merged.0));

    assert!(norm.is_finite());
    assert!((norm - 1.0).abs() < 1e-4);
    assert_eq!(merged.0, reverse.0);
    assert_eq!(value(merged.0[0]), 1.0);
}

#[test]
fn semantic_vector_merge_sanitizes_invalid_trust() {
    let mut va = vec![single(0.0); VECTOR_DIM];
    va[0] = single(1.0);
    let mut vb = vec![single(0.0); VECTOR_DIM];
    vb[1] = single(1.0);

    let merged =
        merge_semantic_vectors(&native(), &va, single(f32::NAN), &vb, single(1.0)).unwrap();

    assert!(value(merged.0[1]) > 0.99);
}

#[test]
fn semantic_vector_merge_errors() {
    let good = vec![single(1.0); VECTOR_DIM];
    let short = vec![single(1.0); 2];
    let one = single(1.0);
    let result = merge_semantic_vectors(&native(), &short, one, &good, one);
    assert!(matches!(result, Err(PiriaError::VectorDimensionMismatch { got: 2, .. })));
    let result = merge_semantic_vectors(&native(), &good, one, &short, one);
    assert!(matches!(result, Err(PiriaError::VectorDimensionMismatch { got: 2, .. })));
    let wild = vec![single(f32::INFINITY); VECTOR_DIM];
    let result = merge_semantic_vectors(&native(), &wild, one, &good, one);
    assert!(matches!(result, Err(PiriaError::VectorNotNormalized { norm }) if norm.is_nan()));
    let result = merge_semantic_vectors(&native(), &good, single(0.0), &good, single(0.0)).unwrap();
    assert!((value(l2_norm(&native(), &result.0)) - 1.0).abs() < 1e-4);
}

#[test]
fn semantic_vector_merge_weighs_by_trust() {
    let mut va = vec![single(0.0); VECTOR_DIM];
    va[0] = single(1.0);
    let mut vb = vec![single(0.0); VECTOR_DIM];
    vb[1] = single(1.0);
    let merged = merge_semantic_vectors(&native(), &va, single(3.0), &vb, single(4.0)).unwrap();
    assert_eq!(value(merged.0[0]), 0.6);
    assert_eq!(value(merged.0[1]), 0.8);
}

#[test]
fn state_merge_archived_always_wins() {
    assert_eq!(
        merge_semantic_states(SemanticState::Active, SemanticState::Archived),
        SemanticState::Archived
    );
    assert_eq!(
        merge_semantic_states(SemanticState::Archived, SemanticState::Dormant),
        SemanticState::Archived
    );
}

#[test]
fn state_merge_commutativity() {
    let states = [
        SemanticState::Active,
        SemanticState::Dormant,
        SemanticState::Compressed,
        SemanticState::Archived,
    ];
    for &a in &states {
        for &b in &states {
            assert_eq!(merge_semantic_states(a, b), merge_semantic_states(b, a));
        }
    }
}

#[test]
fn orb_crdt_merge_commutativity() {
    let orb = make_test_orb();
    let ts = HlcTimestamp::new(1_000_000, 0);
    let a = make_crdt(&orb, ts);
    let b = make_crdt(&orb, HlcTimestamp::new(1_001_000, 0));

    let ab = a.merge(&native(), &b).unwrap();
    let ba = b.merge(&native(), &a).unwrap();

    assert_eq!(ab.orb_id, ba.orb_id);
    assert_eq!(ab.semantic_state, ba.semantic_state);
}

#[test]
fn orb_crdt_merge_different_ids_rejected() {
    let orb_a = make_test_orb();
    let orb_b = make_test_orb();
    let ts = HlcTimestamp::new(1_000_000, 0);
    let a = make_crdt(&orb_a, ts);
    let b = make_crdt(&orb_b, ts);

    let result = a.merge(&native(), &b);
    assert!(matches!(result, Err(PiriaError::CrdtMergeConflict { .. })));
    if let Err(PiriaError::CrdtMergeConflict { orb_id, reason }) = result {
        assert_eq!(orb_id, orb_a.identity);
        let expected = format!(
            "Cannot merge CRDT states for different ORBs: {} vs {}",
            Uuid::from_u128(orb_a.identity),
            Uuid::from_u128(orb_b.identity)
        );
        assert_eq!(reason, expected);
    }
}

#[test]
fn orb_crdt_merge_field_by_field() {
    let fpu = native();
    let early = HlcTimestamp::new(1_000_000, 0);
    let late = HlcTimestamp::new(2_000_000, 0);
    let mut orb = make_test_orb();
    let rel = RelationRef::with_id(5, 6, RelationType::Causes, single(0.5), single(0.5), early, 0);
    orb.add_relation(rel, early).unwrap();
    orb.record_event(71);
    orb.permissions = Permissions::default_reader();
    let mut clock = VectorClock::new();
    clock.tick("a");
    let a = OrbCrdtState::from_orb(&orb, early, clock);
    orb.transition_to(SemanticState::Dormant, late).unwrap();
    orb.record_event(72);
    orb.permissions = Permissions::operator();
    orb.trust.score = single(0.5);
    let mut clock = VectorClock::new();
    clock.tick("b");
    clock.tick("b");
    let b = OrbCrdtState::from_orb(&orb, late, clock);
    for (x, y) in [(&a, &b), (&b, &a)] {
        let merged = x.merge_at(&fpu, y, 5_000_000, 5_000_000).unwrap();
        assert_eq!(merged.semantic_state, SemanticState::Dormant);
        assert_eq!(merged.permissions, Permissions::default_reader());
        assert_eq!(merged.created_at, early);
        assert_eq!(merged.updated_at, late);
        assert_eq!(merged.trust.record.score, single(0.5));
        assert_eq!(merged.event_refs.refs.len(), 2);
        assert_eq!(merged.relations.len(), 1);
        assert_eq!(merged.vector_clock.counter("a"), 1);
        assert_eq!(merged.vector_clock.counter("b"), 2);
        assert_eq!(merged.probability_field.alpha, vec![single(2.0); 4]);
    }
    let mut c = b.clone();
    c.probability_field = ProbabilityField::uniform(3).unwrap();
    let result = a.merge(&fpu, &c);
    assert!(matches!(result, Err(PiriaError::InvalidProbabilityField { categories: 3 })));
    c.semantic_vector.pop();
    let result = a.merge(&fpu, &c);
    assert!(matches!(result, Err(PiriaError::VectorDimensionMismatch { .. })));
}

#[test]
fn partition_heal_merges_all_orbs() {
    let orb1 = make_test_orb();
    let orb2 = make_test_orb();
    let ts = HlcTimestamp::new(1_000_000, 0);

    let partition_a = vec![make_crdt(&orb1, ts)];
    let partition_b = vec![make_crdt(&orb2, ts)];

    let result = PartitionMergeCoordinator::reconcile(&native(), &partition_a, &partition_b);
    assert!(result.is_clean());
    assert_eq!(result.merged.len(), 2);
}

#[test]
fn partition_heal_same_orb_both_sides() {
    let orb = make_test_orb();
    let ts_a = HlcTimestamp::new(1_000_000, 0);
    let ts_b = HlcTimestamp::new(1_500_000, 0);

    let partition_a = vec![make_crdt(&orb, ts_a)];
    let partition_b = vec![make_crdt(&orb, ts_b)];

    let result = PartitionMergeCoordinator::reconcile(&native(), &partition_a, &partition_b);
    assert!(result.is_clean());
    assert_eq!(result.merged.len(), 1);
}

#[test]
fn partition_heal_reports_conflicts() {
    let ts = HlcTimestamp::new(1_000_000, 0);
    let orb = make_test_orb();
    let other = make_test_orb();
    let a = make_crdt(&orb, ts);
    let mut b = make_crdt(&orb, ts);
    b.probability_field = ProbabilityField::uniform(2).unwrap();
    let only = make_crdt(&other, ts);
    let result = PartitionMergeCoordinator::reconcile(&native(), &[a.clone(), only], &[b]);
    assert!(!result.is_clean());
    assert_eq!(result.conflict_count(), 1);
    assert_eq!(result.conflicts[0].0, orb.identity);
    assert!(matches!(
        result.conflicts[0].1,
        PiriaError::InvalidProbabilityField { categories: 2 }
    ));
    assert_eq!(
        result.conflicts[0].1.message(&[]),
        "Probability field invalid: categories=2, constraint violation"
    );
    assert_eq!(result.merged.len(), 1);
    assert_eq!(result.merged[0].orb_id, other.identity);
    let mut newer = a.clone();
    newer.semantic_state = SemanticState::Dormant;
    let result = PartitionMergeCoordinator::reconcile(&native(), &[a, newer], &[]);
    assert_eq!(result.merged.len(), 1);
    assert_eq!(result.merged[0].semantic_state, SemanticState::Dormant);
}

#[test]
fn defaults_are_empty() {
    assert!(RelationOrSet::default().is_empty());
    assert!(RelationOrSet::default().tombstones.is_empty());
    assert!(EventRefGSet::default().refs.is_empty());
}

#[test]
fn removal_settles_a_conflict() {
    let at = |ms: u64| HlcTimestamp::new(ms, 0);
    let rel = |weight: f32| {
        RelationRef::with_id(1, 6, RelationType::Causes, single(weight), single(0.5), at(1), 0)
    };
    let mut a = RelationOrSet::new();
    a.add(rel(0.1), at(5));
    let mut b = RelationOrSet::new();
    b.add(rel(0.9), at(5));
    let mut c = RelationOrSet::new();
    c.remove(1, at(5));
    let ab = a.merge(&c).merge(&b);
    let ba = b.merge(&a.merge(&c));
    assert_eq!(ab.live, ba.live);
    assert!(ab.is_empty());
}

#[test]
fn concurrent_writes_are_settled_by_a_fixed_order() {
    let ts = HlcTimestamp::new(5, 0);
    let rel = |kind: RelationType, weight: f32, used: u64| {
        RelationRef::with_id(1, 6, kind, single(weight), single(0.5), ts, used)
    };
    let writes = [
        rel(RelationType::Causes, 0.1, 0),
        rel(RelationType::Causes, 0.9, 0),
        rel(RelationType::Supports, 0.1, 0),
        rel(RelationType::Causes, 0.1, 4),
    ];
    for x in writes {
        for y in writes {
            let mut a = RelationOrSet::new();
            a.add(x, ts);
            let mut b = RelationOrSet::new();
            b.add(y, ts);
            let ab = a.merge(&b);
            let ba = b.merge(&a);
            assert_eq!(ab.live, ba.live);
            assert_eq!(ab.len(), 1);
            for z in writes {
                let mut c = RelationOrSet::new();
                c.add(z, ts);
                assert_eq!(ab.merge(&c).live, a.merge(&b.merge(&c)).live);
            }
        }
    }
}

#[test]
fn concurrent_trust_is_settled_by_a_fixed_order() {
    let ts = HlcTimestamp::new(5, 0);
    let register = |score: f32, count: u32, ms: u64| {
        let mut record = TrustRecord::initial_at(ms);
        record.score = single(score);
        record.evidence_count = count;
        TrustLwwRegister::new(record, ts)
    };
    let all = [
        register(0.2, 1, 10),
        register(0.7, 1, 10),
        register(0.2, 2, 10),
        register(0.2, 1, 11),
        register(0.001, 1, 10),
    ];
    for a in &all {
        for b in &all {
            assert_eq!(a.merge(b), b.merge(a));
            for c in &all {
                assert_eq!(a.merge(b).merge(c), a.merge(&b.merge(c)));
            }
        }
    }
}

#[test]
fn replicas_with_concurrent_writes_converge() {
    let ts = HlcTimestamp::new(1_000_000, 0);
    let orb = make_test_orb();
    let mut a = make_crdt(&orb, ts);
    let mut b = make_crdt(&orb, ts);
    a.trust.record.score = single(0.3);
    b.trust.record.score = single(0.6);
    let rel = |weight: f32| {
        RelationRef::with_id(1, 6, RelationType::Causes, single(weight), single(0.5), ts, 0)
    };
    a.relations.add(rel(0.2), ts);
    b.relations.add(rel(0.8), ts);
    let ab = a.merge(&native(), &b).unwrap();
    let ba = b.merge(&native(), &a).unwrap();
    assert_eq!(ab.trust, ba.trust);
    assert_eq!(ab.relations.live, ba.relations.live);
}

#[test]
fn replica_merged_with_itself_stays() {
    let ts = HlcTimestamp::new(1_000_000, 0);
    let a = make_crdt(&make_test_orb(), ts);
    let merged = a.merge(&native(), &a).unwrap();
    assert_eq!(merged.orb_id, a.orb_id);
    assert_eq!(merged.relations.live, a.relations.live);
    assert_eq!(merged.trust, a.trust);
    for (x, y) in merged.semantic_vector.iter().zip(a.semantic_vector.iter()) {
        assert!((value(*x) - value(*y)).abs() < 1e-4);
    }
    let doubled: Vec<f32> = merged.probability_field.alpha.iter().map(|x| value(*x)).collect();
    assert_eq!(doubled, vec![2.0; 4]);
}

fn length(vector: &[Single]) -> f32 {
    value(l2_norm(&native(), vector))
}

fn apart(a: &[Single], b: &[Single]) -> f32 {
    a.iter().zip(b).map(|(x, y)| (value(*x) - value(*y)).abs()).fold(0.0, f32::max)
}

#[test]
fn unit_vectors_merge_to_unit_vectors() {
    let fpu = native();
    let a = make_test_orb().semantic_vector;
    let b = make_test_orb().semantic_vector;
    let minus: Vec<Single> = a.0.iter().map(|x| single(-value(*x))).collect();
    let trusts = [0.0f32, 1.0e-3, 0.5, 1.0, -4.0, f32::NAN, f32::INFINITY, f32::NEG_INFINITY];
    for ta in trusts {
        for tb in trusts {
            for other in [&b.0, &minus, &a.0] {
                let ab = merge_semantic_vectors(&fpu, &a.0, single(ta), other, single(tb)).unwrap();
                let ba = merge_semantic_vectors(&fpu, other, single(tb), &a.0, single(ta)).unwrap();
                assert_eq!(ab.0, ba.0);
                assert_eq!(ab.0.len(), VECTOR_DIM);
                assert!((length(&ab.0) - 1.0).abs() < 1.0e-4);
            }
        }
    }
}

#[test]
fn the_trusted_vector_stays() {
    let fpu = native();
    let a = make_test_orb().semantic_vector;
    let b = make_test_orb().semantic_vector;
    for trust in [1.0e-3f32, 0.1, 0.7035, 1.0] {
        for none in [0.0f32, -0.0, -1.0, f32::NAN, f32::INFINITY] {
            let merged =
                merge_semantic_vectors(&fpu, &a.0, single(none), &b.0, single(trust)).unwrap();
            assert!(apart(&merged.0, &b.0) < 1.0e-4);
            let merged =
                merge_semantic_vectors(&fpu, &b.0, single(trust), &a.0, single(none)).unwrap();
            assert!(apart(&merged.0, &b.0) < 1.0e-4);
        }
    }
}

#[test]
fn lengths_close_to_one_may_move_a_little_more() {
    let fpu = native();
    let mut raw = vec![single(1.891e-4); VECTOR_DIM];
    raw[0] = single(1.000_099_9);
    let long = SemanticVector::from_normalized(&fpu, raw).unwrap();
    let other = make_test_orb().semantic_vector;
    let moved = |trust: f32| {
        let none = single(0.0);
        let merged =
            merge_semantic_vectors(&fpu, &long.0, single(trust), &other.0, none).unwrap();
        apart(&merged.0, &long.0)
    };
    for trust in [0.001f32, 0.2, 0.5, 0.703_5, 0.995, 1.0] {
        assert!(moved(trust) <= 2.0e-4);
    }
    assert!(moved(0.995) > 1.0e-4);
}
