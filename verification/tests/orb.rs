use piria::belief::{ProbabilityField, MAX_PROBABILITY_CATEGORIES};
use piria::clock::HlcTimestamp;
use piria::error::PiriaError;
use piria::float::Single;
use piria::fpu::{Flop, Fpu};
use piria::numeric::l2_norm;
use piria::orb::{Orb, SemanticState, DRIFT_THRESHOLD};
use piria::permissions::{Permissions, READ_ORB, WRITE_ORB};
use piria::relation::{RelationRef, RelationType};
use piria::trust::{TrustRecord, INITIAL_TRUST, TRUST_FLOOR};
use piria::vector::{SemanticVector, VECTOR_DIM};
use rand::Rng;
use sha2::{Digest, Sha256};
use uuid::Uuid;

fn single(x: f32) -> Single {
    Single::from_bits(x.to_bits())
}

fn value(s: Single) -> f32 {
    f32::from_bits(s.bits)
}

fn quiet(x: f32) -> u64 {
    let x = if x.is_nan() { f32::NAN } else { x };
    x.to_bits() as u64
}

fn wide_quiet(x: f64) -> u64 {
    let x = if x.is_nan() { f64::NAN } else { x };
    x.to_bits()
}

fn evaluate(op: Flop) -> u64 {
    let s = f32::from_bits;
    let d = f64::from_bits;
    match op {
        Flop::Add(a, b) => quiet(s(a) + s(b)),
        Flop::Sub(a, b) => quiet(s(a) - s(b)),
        Flop::Mul(a, b) => quiet(s(a) * s(b)),
        Flop::Div(a, b) => quiet(s(a) / s(b)),
        Flop::Sqrt(a) => quiet(s(a).sqrt()),
        Flop::Log2(a) => quiet(s(a).log2()),
        Flop::FromInt(n) => quiet(n as f32),
        Flop::ToInt(a) => s(a) as u64,
        Flop::WideAdd(a, b) => wide_quiet(d(a) + d(b)),
        Flop::WideSub(a, b) => wide_quiet(d(a) - d(b)),
        Flop::WideMul(a, b) => wide_quiet(d(a) * d(b)),
        Flop::WideDiv(a, b) => wide_quiet(d(a) / d(b)),
        Flop::WideExp(a) => wide_quiet(d(a).exp()),
        Flop::WideFloor(a) => wide_quiet(d(a).floor()),
        Flop::WideFromInt(n) => wide_quiet(n as f64),
        Flop::WideToInt(a) => d(a) as u64,
        Flop::Widen(a) => wide_quiet(s(a) as f64),
        Flop::Narrow(a) => quiet(d(a) as f32),
    }
}

fn native() -> Fpu<fn(Flop) -> u64> {
    Fpu::new(evaluate as fn(Flop) -> u64)
}

fn random_vector() -> SemanticVector {
    let mut rng = rand::thread_rng();
    let raw: Vec<Single> = (0..VECTOR_DIM).map(|_| single(rng.gen::<f32>() - 0.5)).collect();
    SemanticVector::new(&native(), raw).unwrap()
}

fn make_orb() -> Orb {
    let ts = HlcTimestamp::new(1_000_000, 0);
    Orb::new(
        &native(),
        random_vector(),
        ProbabilityField::uniform(4).unwrap(),
        Permissions::default_writer(),
        ts,
    )
}

fn fresh() -> u128 {
    Uuid::now_v7().as_u128()
}

#[test]
fn orb_creation_has_valid_hash() {
    let orb = make_orb();
    orb.verify_integrity().unwrap();
}

#[test]
fn state_transition_valid() {
    let mut orb = make_orb();
    let ts = HlcTimestamp::new(2_000_000, 0);
    orb.transition_to(SemanticState::Dormant, ts).unwrap();
    assert_eq!(orb.semantic_state, SemanticState::Dormant);
    orb.verify_integrity().unwrap();
}

#[test]
fn state_transition_invalid_rejected() {
    let mut orb = make_orb();
    let ts = HlcTimestamp::new(2_000_000, 0);
    orb.transition_to(SemanticState::Compressed, ts).unwrap();
    let result = orb.transition_to(SemanticState::Active, ts);
    assert!(matches!(result, Err(PiriaError::InvalidStateTransition { .. })));
}

#[test]
fn degree_budget_enforced_via_pruning() {
    let mut orb = make_orb();
    orb.degree_budget = 3;
    let ts = HlcTimestamp::new(1_000_000, 0);
    for i in 0..4u32 {
        let rel = RelationRef::new(
            fresh(),
            RelationType::References,
            single((i as f32 + 1.0) / 4.0),
            single(0.5),
            ts,
        );
        orb.add_relation(rel, ts).unwrap();
    }
    assert_eq!(orb.relations.len(), 3);
    let min_weight = orb.relations.iter().map(|r| value(r.weight)).fold(f32::MAX, f32::min);
    assert!(min_weight > 0.25 + 1e-5);
}

#[test]
fn integrity_hash_covers_relations() {
    let mut orb = make_orb();
    let ts = HlcTimestamp::new(1_000_000, 0);
    let hash_before = orb.integrity_hash;
    let rel = RelationRef::new(fresh(), RelationType::Supports, single(0.7), single(0.5), ts);
    orb.add_relation(rel, ts).unwrap();
    assert_ne!(orb.integrity_hash, hash_before, "hash must change on relation add");
    orb.verify_integrity().unwrap();
}

#[test]
fn integrity_hash_covers_probability_field() {
    let mut orb = make_orb();
    let ts = HlcTimestamp::new(2_000_000, 0);
    let hash_before = orb.integrity_hash;
    let observations = [single(1.0), single(0.0), single(0.0), single(0.0)];
    orb.update_probability_field(&native(), &observations, ts).unwrap();
    assert_ne!(orb.integrity_hash, hash_before, "hash must change on belief update");
    orb.verify_integrity().unwrap();
}

#[test]
fn probability_field_entropy_uniform() {
    let pf = ProbabilityField::uniform(4).unwrap();
    let h = value(pf.entropy_bits(&native()));
    assert!((h - 2.0).abs() < 1e-4, "Expected H≈2.0, got {h}");
    assert!((value(pf.normalized_entropy(&native())) - 1.0).abs() < 1e-4);
}

#[test]
fn trust_ceiling_never_exceeded() {
    let mut rec = TrustRecord::initial();
    let dummy_id = fresh();
    for _ in 0..100 {
        let _ = rec.update(&native(), single(1.0), single(1.0), single(0.9), dummy_id);
    }
    assert!(value(rec.score) <= value(rec.ceiling(&native())) + 1e-5);
}

#[test]
fn trust_floor_enforced() {
    let rec = TrustRecord::initial();
    assert!(value(rec.effective_score(&native())) >= f32::from_bits(TRUST_FLOOR));
}

#[test]
fn vector_normalization_enforced() {
    let raw = vec![single(3.0f32); VECTOR_DIM];
    let v = SemanticVector::new(&native(), raw).unwrap();
    let norm = value(l2_norm(&native(), &v.0));
    assert!((norm - 1.0).abs() < 1e-5);
}

#[test]
fn semantic_mass_bounded() {
    let mut orb = make_orb();
    let ts = HlcTimestamp::new(1_000_000, 0);
    for _ in 0..10 {
        let rel = RelationRef::new(fresh(), RelationType::Supports, single(1.0), single(1.0), ts);
        let _ = orb.add_relation(rel, ts);
    }
    let mass = value(orb.semantic_mass(&native()));
    assert!(mass >= 0.0 && mass <= 1.0, "mass={mass}");
}

#[test]
fn drift_zero_at_creation() {
    let orb = make_orb();
    assert!(value(orb.drift(&native())) < 1e-5);
}

#[test]
fn probability_field_merge_sums_alphas() {
    let pf1 = ProbabilityField::new(vec![single(1.0), single(2.0)]).unwrap();
    let pf2 = ProbabilityField::new(vec![single(3.0), single(4.0)]).unwrap();
    let merged = pf1.merge(&native(), &pf2).unwrap();
    assert!((value(merged.alpha[0]) - 4.0).abs() < 1e-5);
    assert!((value(merged.alpha[1]) - 6.0).abs() < 1e-5);
}

#[test]
fn life_cycle_table() {
    let (active, dormant) = (SemanticState::Active, SemanticState::Dormant);
    let (compressed, archived) = (SemanticState::Compressed, SemanticState::Archived);
    let states = [active, dormant, compressed, archived];
    let allowed = [
        (active, dormant),
        (active, compressed),
        (active, archived),
        (dormant, active),
        (dormant, compressed),
        (dormant, archived),
        (compressed, archived),
    ];
    for a in states {
        for b in states {
            assert_eq!(a.can_transition_to(&b), allowed.contains(&(a, b)));
        }
        assert_eq!(a.is_terminal(), a == archived);
    }
    assert_eq!(compressed.name(), "Compressed");
    assert_eq!(archived.code(), 3);
}

#[test]
fn integrity_hash_is_the_digest_of_the_fields() {
    let mut orb = make_orb();
    let ts = HlcTimestamp::new(5, 6);
    let early = RelationRef::with_id(9, 11, RelationType::Causes, single(0.5), single(0.25), ts, 1);
    let late = RelationRef::with_id(3, 12, RelationType::DerivedFrom, single(0.75), single(2.0), ts, 2);
    orb.add_relation(early, ts).unwrap();
    orb.add_relation(late, ts).unwrap();
    orb.record_event(0xABCD);
    let mut hasher = Sha256::new();
    hasher.update(Uuid::from_u128(orb.identity).as_bytes());
    hasher.update([0u8]);
    for f in &orb.semantic_vector.0 {
        hasher.update(value(*f).to_le_bytes());
    }
    let edges = [(3u128, 12u128, 6u8, 0.75f32, 1.0f32, 2u64), (9, 11, 0, 0.5, 0.25, 1)];
    for (edge, target, code, weight, trust, used) in edges {
        hasher.update(Uuid::from_u128(edge).as_bytes());
        hasher.update(Uuid::from_u128(target).as_bytes());
        hasher.update([code]);
        hasher.update(weight.to_le_bytes());
        hasher.update(trust.to_le_bytes());
        hasher.update(5u64.to_le_bytes());
        hasher.update(6u32.to_le_bytes());
        hasher.update(used.to_le_bytes());
    }
    for _ in 0..4 {
        hasher.update(1.0f32.to_le_bytes());
    }
    hasher.update(Uuid::from_u128(0xABCD).as_bytes());
    hasher.update(0.095f32.to_le_bytes());
    hasher.update(1u32.to_le_bytes());
    hasher.update(orb.trust.last_updated_ms.to_le_bytes());
    hasher.update(0x137u64.to_le_bytes());
    hasher.update((orb.degree_budget as u64).to_le_bytes());
    hasher.update(1_000_000u64.to_le_bytes());
    hasher.update(0u32.to_le_bytes());
    hasher.update(5u64.to_le_bytes());
    hasher.update(6u32.to_le_bytes());
    let expected: [u8; 32] = hasher.finalize().into();
    assert_eq!(orb.integrity_hash, expected);
}

#[test]
fn integrity_hash_ignores_the_order_of_relations() {
    let ts = HlcTimestamp::new(5, 6);
    let mut orb = make_orb();
    for edge in [4u128, 2, 8] {
        let rel = RelationRef::with_id(edge, 1, RelationType::Causes, single(0.5), single(0.5), ts, 0);
        orb.add_relation(rel, ts).unwrap();
    }
    orb.relations.reverse();
    orb.verify_integrity().unwrap();
    orb.relations.swap(0, 1);
    orb.verify_integrity().unwrap();
}

#[test]
fn tampering_with_an_entity_shows() {
    let mut orb = make_orb();
    let stored = orb.integrity_hash;
    orb.trust.score = single(0.5);
    match orb.verify_integrity() {
        Err(PiriaError::IntegrityHashMismatch { orb_id, stored: text, computed }) => {
            assert_eq!(orb_id, orb.identity);
            assert_eq!(text, hex::encode(stored));
            assert_ne!(computed, text);
            assert_eq!(computed.len(), 64);
        }
        other => panic!("unexpected {other:?}"),
    }
}

#[test]
fn pruning_breaks_ties_by_last_use() {
    let ts = HlcTimestamp::new(1, 0);
    let mut orb = make_orb();
    orb.degree_budget = 3;
    for (edge, used) in [(1u128, 30u64), (2, 10), (3, 20)] {
        let rel =
            RelationRef::with_id(edge, 9, RelationType::Causes, single(0.5), single(0.5), ts, used);
        orb.add_relation(rel, ts).unwrap();
    }
    let rel = RelationRef::with_id(4, 9, RelationType::Causes, single(0.1), single(0.5), ts, 40);
    orb.add_relation(rel, ts).unwrap();
    let edges: Vec<u128> = orb.relations.iter().map(|r| r.edge_id).collect();
    assert_eq!(edges, vec![1, 3, 4]);
}

#[test]
fn relation_refused_without_any_budget() {
    let ts = HlcTimestamp::new(1, 0);
    let mut orb = make_orb();
    orb.degree_budget = 0;
    let rel = RelationRef::with_id(4, 9, RelationType::Causes, single(0.1), single(0.5), ts, 40);
    let result = orb.add_relation(rel, ts);
    assert!(
        matches!(result, Err(PiriaError::DegreeBudgetExceeded { orb_id, budget: 0 }) if orb_id == orb.identity)
    );
    assert_eq!(value(orb.semantic_mass(&native())), 0.0);
}

#[test]
fn removing_a_relation() {
    let ts = HlcTimestamp::new(1, 0);
    let later = HlcTimestamp::new(9, 0);
    let mut orb = make_orb();
    for edge in [1u128, 2] {
        let rel = RelationRef::with_id(edge, 9, RelationType::Causes, single(0.5), single(0.5), ts, 0);
        orb.add_relation(rel, ts).unwrap();
    }
    assert!(!orb.remove_relation(7, later));
    assert_eq!(orb.updated_at, ts);
    assert!(orb.remove_relation(1, later));
    assert_eq!(orb.updated_at, later);
    assert_eq!(orb.relations.len(), 1);
    assert_eq!(orb.relations[0].edge_id, 2);
    orb.verify_integrity().unwrap();
}

#[test]
fn relation_weights_are_clamped() {
    let ts = HlcTimestamp::new(1, 0);
    let rel = RelationRef::with_id(4, 9, RelationType::Causes, single(1.5), single(-0.5), ts, 40);
    assert_eq!(value(rel.weight), 1.0);
    assert_eq!(value(rel.trust_at_creation), 0.0);
    assert!(RelationType::SimilarTo.is_symmetric());
    assert!(RelationType::Contradicts.is_symmetric());
    assert!(!RelationType::Causes.is_symmetric());
    assert_eq!(RelationType::TrustDelegatedTo.name(), "TrustDelegatedTo");
}

#[test]
fn fresh_identifiers_are_time_ordered() {
    let ts = HlcTimestamp::new(1, 0);
    let a = RelationRef::new(1, RelationType::Causes, single(0.5), single(0.5), ts);
    let mut b = RelationRef::new(1, RelationType::Causes, single(0.5), single(0.5), ts);
    assert_ne!(a.edge_id, b.edge_id);
    assert_eq!(Uuid::from_u128(a.edge_id).get_version_num(), 7);
    b.last_used_ms = 0;
    b.touch();
    assert!(b.last_used_ms >= a.last_used_ms);
    let before = b;
    b.touch_at(77);
    assert_eq!(b, RelationRef { last_used_ms: 77, ..before });
}

#[test]
fn refused_observations_stop_halfway() {
    let created = HlcTimestamp::new(1_000_000, 0);
    let ts = HlcTimestamp::new(2_000_000, 0);
    let mut orb = make_orb();
    orb.entropy(&native());
    let result = orb.update_probability_field(
        &native(),
        &[single(1.0), single(-1.0), single(0.0), single(0.0)],
        ts,
    );
    assert!(matches!(result, Err(PiriaError::InvalidProbabilityField { categories: 4 })));
    let alpha: Vec<f32> = orb.probability_field.alpha.iter().map(|a| value(*a)).collect();
    assert_eq!(alpha, vec![2.0, 1.0, 1.0, 1.0]);
    assert_eq!(orb.updated_at, created);
    assert!(orb.entropy_dirty);
    orb.verify_integrity().unwrap();
    let hash = orb.integrity_hash;
    let result = orb.update_probability_field(&native(), &[single(1.0)], ts);
    assert!(matches!(result, Err(PiriaError::InvalidProbabilityField { categories: 1 })));
    let result = orb.update_probability_field(&native(), &[single(-1.0); 4], ts);
    assert!(matches!(result, Err(PiriaError::InvalidProbabilityField { categories: 4 })));
    assert_eq!(orb.integrity_hash, hash);
    orb.verify_integrity().unwrap();
}

#[test]
fn refused_relations_keep_integrity() {
    let ts = HlcTimestamp::new(3, 0);
    let mut orb = make_orb();
    for (edge, weight) in [(1u128, 0.3f32), (2, 0.1), (3, 0.2)] {
        let rel =
            RelationRef::with_id(edge, 9, RelationType::Causes, single(weight), single(0.5), ts, 0);
        orb.add_relation(rel, ts).unwrap();
    }
    orb.degree_budget = 1;
    orb.record_event(8);
    orb.semantic_mass(&native());
    let later = HlcTimestamp::new(4, 0);
    let rel = RelationRef::with_id(4, 9, RelationType::Causes, single(0.9), single(0.5), later, 0);
    let result = orb.add_relation(rel, later);
    assert!(matches!(result, Err(PiriaError::DegreeBudgetExceeded { budget: 1, .. })));
    let edges: Vec<u128> = orb.relations.iter().map(|r| r.edge_id).collect();
    assert_eq!(edges, vec![1, 3]);
    assert_eq!(orb.updated_at, ts);
    assert!(orb.semantic_mass_dirty);
    orb.verify_integrity().unwrap();
}

#[test]
fn refused_trust_keeps_integrity() {
    let created = HlcTimestamp::new(1_000_000, 0);
    let mut orb = make_orb();
    let before = orb.trust.clone();
    let result =
        orb.update_trust(&native(), single(1.0), single(1.0), single(1.0), HlcTimestamp::new(9, 9));
    assert!(matches!(result, Err(PiriaError::TrustCeilingViolated { .. })));
    assert_eq!(orb.trust.evidence_count, 2);
    assert_eq!(orb.trust.score, before.score);
    assert_eq!(orb.updated_at, created);
    orb.verify_integrity().unwrap();
}

#[test]
fn every_part_that_can_change_is_hashed() {
    let ts = HlcTimestamp::new(3, 0);
    let shows = |change: fn(&mut Orb)| {
        let mut orb = make_orb();
        let rel = RelationRef::with_id(1, 9, RelationType::Supports, single(0.5), single(0.5), ts, 7);
        orb.add_relation(rel, ts).unwrap();
        orb.verify_integrity().unwrap();
        change(&mut orb);
        orb.verify_integrity().is_err()
    };
    assert!(shows(|orb| orb.relations[0].relation_type = RelationType::Contradicts));
    assert!(shows(|orb| orb.relations[0].created_at = HlcTimestamp::new(3, 1)));
    assert!(shows(|orb| orb.relations[0].created_at = HlcTimestamp::new(4, 0)));
    assert!(shows(|orb| orb.relations[0].last_used_ms = 8));
    assert!(shows(|orb| orb.relations[0].weight = single(0.25)));
    assert!(shows(|orb| orb.relations[0].trust_at_creation = single(0.25)));
    assert!(shows(|orb| orb.relations[0].target_orb_id = 10));
    assert!(shows(|orb| orb.trust.last_updated_ms += 1));
    assert!(shows(|orb| orb.trust.evidence_count += 1));
    assert!(shows(|orb| orb.degree_budget += 1));
    assert!(shows(|orb| orb.permissions = Permissions::operator()));
    assert!(shows(|orb| orb.updated_at = HlcTimestamp::new(3, 1)));
    assert!(!shows(|orb| orb.semantic_mass_dirty = !orb.semantic_mass_dirty));
}

#[test]
fn vectors_without_a_length_are_refused() {
    let fpu = native();
    for odd in [f32::NAN, f32::INFINITY, f32::MAX] {
        let mut raw = vec![single(0.5); VECTOR_DIM];
        raw[3] = single(odd);
        let scaled = SemanticVector::new(&fpu, raw.clone());
        assert!(matches!(scaled, Err(PiriaError::VectorNotNormalized { norm }) if !value(norm).is_finite()));
        let taken = SemanticVector::from_normalized(&fpu, raw);
        assert!(matches!(taken, Err(PiriaError::VectorNotNormalized { norm }) if !value(norm).is_finite()));
    }
    let length = value(l2_norm(&fpu, &random_vector().0));
    assert!((length - 1.0).abs() < 1e-5);
}

#[test]
fn entities_get_time_ordered_identifiers() {
    let a = make_orb();
    let b = make_orb();
    assert_ne!(a.identity, b.identity);
    assert_eq!(Uuid::from_u128(a.identity).get_version_num(), 7);
}

#[test]
fn entropy_is_computed_when_due() {
    let ts = HlcTimestamp::new(2, 0);
    let mut orb = make_orb();
    assert_eq!(value(orb.entropy(&native())), 2.0);
    let observations = [single(1.0), single(1.0), single(0.0), single(0.0)];
    orb.update_probability_field(&native(), &observations, ts).unwrap();
    assert_eq!(value(orb.entropy), 2.0);
    let h = value(orb.entropy(&native()));
    let expected: f32 = -(2.0 * (1.0f32 / 3.0) * (1.0f32 / 3.0).log2()
        + 2.0 * (1.0f32 / 6.0) * (1.0f32 / 6.0).log2());
    assert!((h - expected).abs() < 1e-6);
    assert!(!orb.entropy_dirty);
}

#[test]
fn improper_fields_are_refused() {
    let refused = |alpha: Vec<f32>| {
        let count = alpha.len();
        let result = ProbabilityField::new(alpha.into_iter().map(single).collect());
        matches!(result, Err(PiriaError::InvalidProbabilityField { categories }) if categories == count)
    };
    assert!(refused(vec![]));
    assert!(refused(vec![1.0, 0.0]));
    assert!(refused(vec![1.0, -1.0]));
    assert!(refused(vec![f32::NAN]));
    assert!(refused(vec![f32::INFINITY]));
    assert!(refused(vec![1.0; MAX_PROBABILITY_CATEGORIES + 1]));
    assert!(!refused(vec![1.0; MAX_PROBABILITY_CATEGORIES]));
    assert!(ProbabilityField::uniform(0).is_err());
    assert!(ProbabilityField::uniform(65).is_err());
    let a = ProbabilityField::uniform(2).unwrap();
    let b = ProbabilityField::uniform(3).unwrap();
    let result = a.merge(&native(), &b);
    assert!(matches!(result, Err(PiriaError::InvalidProbabilityField { categories: 3 })));
    let huge = ProbabilityField::new(vec![single(f32::MAX)]).unwrap();
    assert!(huge.merge(&native(), &huge).is_err());
}

#[test]
fn entropy_of_one_category_is_nothing() {
    let field = ProbabilityField::uniform(1).unwrap();
    assert_eq!(value(field.max_entropy_bits(&native())), 0.0);
    assert_eq!(value(field.normalized_entropy(&native())), 0.0);
    assert_eq!(field.categories(), 1);
    let probs = ProbabilityField::new(vec![single(1.0), single(3.0)]).unwrap().mean_probs(&native());
    assert_eq!(probs, vec![single(0.25), single(0.75)]);
}

#[test]
fn trust_decays_to_the_floor() {
    let fpu = native();
    let day = 86_400_000u64;
    let record = TrustRecord::initial_at(1_000);
    assert_eq!(record.score.bits, INITIAL_TRUST);
    assert_eq!(value(record.effective_score_at(&fpu, 1_000)), 0.095);
    assert_eq!(value(record.effective_score_at(&fpu, 0)), 0.095);
    let later = value(record.effective_score_at(&fpu, 1_000 + 100 * day));
    assert_eq!(later, (0.095f32 as f64 * (-0.001f64 * 100.0).exp()) as f32);
    assert_eq!(value(record.effective_score_at(&fpu, 1_000 + 100_000 * day)), 0.01);
    assert_eq!(value(record.ceiling(&fpu)), (1.0 - (-0.1f64).exp()) as f32);
}

#[test]
fn trust_update_formula() {
    let fpu = native();
    let mut record = TrustRecord::initial_at(1_000);
    record.evidence_count = 50;
    record.update_at(&fpu, single(1.0), single(0.5), single(0.5), 7, 1_000, 1_005).unwrap();
    assert_eq!(value(record.score), 0.095 + 0.5 * (1.0 * 0.5 - 0.095f32));
    assert_eq!(record.evidence_count, 51);
    assert_eq!(record.last_updated_ms, 1_005);
    let mut eager = TrustRecord::initial_at(1_000);
    let result = eager.update_at(&fpu, single(1.0), single(1.0), single(0.9), 7, 1_000, 1_001);
    assert!(matches!(result, Err(PiriaError::TrustCeilingViolated { orb_id: 7, .. })));
    assert_eq!(eager.evidence_count, 2);
    assert_eq!(eager.last_updated_ms, 1_000);
    assert_eq!(value(eager.score), 0.095);
}

#[test]
fn orb_trust_update() {
    let fpu = native();
    let ts = HlcTimestamp::new(77, 0);
    let mut orb = make_orb();
    orb.trust.evidence_count = 50;
    let now = orb.trust.last_updated_ms;
    orb.update_trust_at(&fpu, single(1.0), single(0.5), single(0.5), ts, now, now + 1).unwrap();
    assert_eq!(value(orb.trust.score), 0.095 + 0.5 * (1.0 * 0.5 - 0.095f32));
    assert_eq!(orb.updated_at, ts);
    orb.verify_integrity().unwrap();
    orb.trust.evidence_count = 1;
    let result = orb.update_trust(&fpu, single(1.0), single(1.0), single(1.0), ts);
    assert!(matches!(result, Err(PiriaError::TrustCeilingViolated { .. })));
}

#[test]
fn mass_formula() {
    let ts = HlcTimestamp::new(1, 0);
    let mut orb = make_orb();
    orb.degree_budget = 4;
    for (weight, trust) in [(0.5f32, 0.5f32), (1.0, 0.25)] {
        let rel = RelationRef::new(fresh(), RelationType::Causes, single(weight), single(trust), ts);
        orb.add_relation(rel, ts).unwrap();
    }
    assert_eq!(value(orb.semantic_mass), 0.0);
    assert_eq!(value(orb.semantic_mass(&native())), 0.125);
    orb.degree_budget = 1;
    orb.relations[0].weight = single(8.0);
    orb.recompute_semantic_mass(&native());
    assert_eq!(value(orb.semantic_mass), 1.0);
}

#[test]
fn vectors_of_the_wrong_shape_are_refused() {
    let fpu = native();
    let short = SemanticVector::new(&fpu, vec![single(1.0); 3]);
    assert!(matches!(
        short,
        Err(PiriaError::VectorDimensionMismatch { expected: VECTOR_DIM, got: 3 })
    ));
    let zero = SemanticVector::new(&fpu, vec![single(0.0); VECTOR_DIM]);
    assert!(matches!(zero, Err(PiriaError::VectorNotNormalized { norm }) if value(norm) == 0.0));
    let long = SemanticVector::from_normalized(&fpu, vec![single(1.0); VECTOR_DIM]);
    assert!(matches!(long, Err(PiriaError::VectorNotNormalized { .. })));
    let few = SemanticVector::from_normalized(&fpu, vec![]);
    assert!(matches!(few, Err(PiriaError::VectorDimensionMismatch { got: 0, .. })));
    let mut unit = vec![single(0.0); VECTOR_DIM];
    unit[5] = single(1.0);
    assert!(SemanticVector::from_normalized(&fpu, unit).is_ok());
}

#[test]
fn distances_between_unit_vectors() {
    let fpu = native();
    let axis = |i: usize| {
        let mut raw = vec![single(0.0); VECTOR_DIM];
        raw[i] = single(2.0);
        SemanticVector::new(&fpu, raw).unwrap()
    };
    assert_eq!(value(axis(0).cosine_similarity(&fpu, &axis(0))), 1.0);
    assert_eq!(value(axis(0).cosine_similarity(&fpu, &axis(1))), 0.0);
    assert_eq!(value(axis(0).l2_distance(&fpu, &axis(1))), 2.0f32.sqrt());
    let mut orb = make_orb();
    orb.semantic_vector = axis(0);
    orb.origin_vector = axis(0);
    assert!(!orb.has_drifted(&fpu));
    orb.update_vector(axis(1), HlcTimestamp::new(3, 0));
    assert!(orb.has_drifted(&fpu));
    assert_eq!(f32::from_bits(DRIFT_THRESHOLD), 0.15);
    orb.verify_integrity().unwrap();
}

#[test]
fn roles_and_their_rights() {
    assert_eq!(Permissions::default_reader().bits(), 0x111);
    assert_eq!(Permissions::default_writer().bits(), 0x137);
    assert_eq!(Permissions::system().bits(), 0x13F);
    assert_eq!(Permissions::operator().bits(), 0x1FF);
    let write = Permissions { bits: READ_ORB | WRITE_ORB };
    assert!(Permissions::default_writer().contains(&write));
    assert!(!Permissions::default_reader().contains(&write));
    let both = Permissions::default_reader().intersection(&write);
    assert_eq!(both.bits(), READ_ORB);
}

#[test]
fn relations_have_a_strength() {
    let ts = HlcTimestamp::new(1, 0);
    let odd = RelationRef::with_id(
        4,
        9,
        RelationType::Causes,
        single(f32::NAN),
        single(f32::NAN),
        ts,
        40,
    );
    assert_eq!(value(odd.weight), 0.0);
    assert_eq!(value(odd.trust_at_creation), 0.0);
    let strong = RelationRef::new(9, RelationType::Causes, single(f32::INFINITY), single(0.3), ts);
    assert_eq!(value(strong.weight), 1.0);
    assert_eq!(value(strong.trust_at_creation), 0.3);
    let weak = RelationRef::new(9, RelationType::Causes, single(-7.0), single(0.3), ts);
    assert_eq!(value(weak.weight), 0.0);
}

#[test]
fn observations_that_are_no_numbers_are_refused() {
    let mut field = ProbabilityField::uniform(3).unwrap();
    let result =
        field.observe(&native(), &[single(2.0), single(f32::NAN), single(1.0)]);
    assert!(matches!(result, Err(PiriaError::InvalidProbabilityField { categories: 3 })));
    let alpha: Vec<f32> = field.alpha.iter().map(|a| value(*a)).collect();
    assert_eq!(alpha, vec![3.0, 1.0, 1.0]);
    field.observe(&native(), &[single(0.0), single(-0.0), single(0.5)]).unwrap();
    let alpha: Vec<f32> = field.alpha.iter().map(|a| value(*a)).collect();
    assert_eq!(alpha, vec![3.0, 1.0, 1.5]);
    let mut orb = make_orb();
    let nan = [single(f32::NAN); 4];
    assert!(orb.update_probability_field(&native(), &nan, HlcTimestamp::new(2, 0)).is_err());
    orb.verify_integrity().unwrap();
}

#[test]
fn cosines_stay_in_range() {
    let fpu = native();
    let axis = |length: f32| {
        let mut raw = vec![single(0.0); VECTOR_DIM];
        raw[0] = single(length);
        SemanticVector::from_normalized(&fpu, raw).unwrap()
    };
    let long = axis(1.00005);
    assert_eq!(value(long.cosine_similarity(&fpu, &long)), 1.0);
    assert_eq!(value(long.cosine_similarity(&fpu, &axis(-1.00005))), -1.0);
    assert_eq!(value(long.l2_distance(&fpu, &long)), 0.0);
    assert_eq!(value(long.l2_distance(&fpu, &axis(-1.00005))), 2.0);
    let short = axis(0.99995);
    assert_eq!(value(short.cosine_similarity(&fpu, &short)), 0.99995f32 * 0.99995f32);
    let broken = SemanticVector(vec![single(f32::NAN); VECTOR_DIM]);
    assert_eq!(value(broken.cosine_similarity(&fpu, &long)), 0.0);
}

#[test]
fn normalized_entropy_is_a_share() {
    let fpu = native();
    for n in 1..=64 {
        let h = value(ProbabilityField::uniform(n).unwrap().normalized_entropy(&fpu));
        assert!((0.0..=1.0).contains(&h));
        if n > 1 {
            assert!(h > 0.9999);
        }
    }
    let sure = ProbabilityField::new(vec![single(f32::MAX), single(1.0e-30)]).unwrap();
    assert_eq!(value(sure.normalized_entropy(&fpu)), 0.0);
}

#[test]
fn mass_is_a_share_of_the_budget() {
    let ts = HlcTimestamp::new(1, 0);
    let mut orb = make_orb();
    let rel = RelationRef::with_id(1, 9, RelationType::Causes, single(0.5), single(0.5), ts, 0);
    orb.add_relation(rel, ts).unwrap();
    orb.relations[0].weight = single(-3.0);
    orb.recompute_semantic_mass(&native());
    assert_eq!(value(orb.semantic_mass), 0.0);
}
