use piria::error::PiriaError;
use piria::float::Single;
use piria::orb::SemanticState;
use piria::text::{decimal_text, is_blank, join_path};
use uuid::Uuid;

#[test]
fn numbers_are_written_in_decimal() {
    for n in [0, 7, 10, 99, 100, 12_345, u64::MAX] {
        assert_eq!(decimal_text(n), format!("{}", n));
    }
}

#[test]
fn blank_lines_hold_white_space_only() {
    for text in ["", " ", "\t\r\n", "\u{a0}\u{2003}\u{3000}", "\u{85}\u{1680}", "\u{2028}"] {
        assert!(text.trim().is_empty());
        assert!(is_blank(text));
    }
    for text in ["x", "  x  ", "\u{200b}", "\u{feff}", "0"] {
        assert!(!text.trim().is_empty());
        assert!(!is_blank(text));
    }
}

#[test]
fn paths_are_joined_once() {
    assert_eq!(join_path("a", "b"), "a/b");
    assert_eq!(join_path("a/", "b"), "a/b");
    assert_eq!(join_path("", "b"), "b");
    assert_eq!(join_path("/", "b"), "/b");
}

#[test]
fn white_space_is_what_unicode_calls_so() {
    for code in 0..=0x10FFFFu32 {
        if let Some(c) = char::from_u32(code) {
            assert_eq!(is_blank(&c.to_string()), c.is_whitespace(), "{code:x}");
        }
    }
}

fn single(number: f32) -> Single {
    Single { bits: number.to_bits() }
}

fn told(error: PiriaError) -> String {
    let numbers: Vec<String> = error
        .numbers()
        .iter()
        .map(|(number, decimals)| format!("{:.*}", *decimals, f32::from_bits(number.bits)))
        .collect();
    error.message(&numbers)
}

#[test]
fn errors_are_told_in_words() {
    let seven = Uuid::from_u128(7);
    let eight = Uuid::from_u128(8);
    assert_eq!(told(PiriaError::OrbNotFound(7)), format!("ORB not found: {seven}"));
    assert_eq!(told(PiriaError::OrbAlreadyExists(7)), format!("ORB already exists: {seven}"));
    let error = PiriaError::InvalidStateTransition {
        from: SemanticState::Archived,
        to: SemanticState::Active,
    };
    assert_eq!(told(error), "Invalid ORB state transition: Archived → Active");
    assert_eq!(
        told(PiriaError::DegreeBudgetExceeded { orb_id: 7, budget: 128 }),
        format!("ORB degree budget exceeded: orb={seven}, budget=128")
    );
    assert_eq!(
        told(PiriaError::VectorDimensionMismatch { expected: 1536, got: 3 }),
        "Semantic vector has wrong dimension: expected 1536, got 3"
    );
    let error = PiriaError::HashChainBroken {
        event_id: 7,
        expected: "00ff".to_string(),
        actual: "ab".to_string(),
    };
    assert_eq!(
        told(error),
        format!("Event hash chain broken at event {seven}: expected 00ff, got ab")
    );
    assert_eq!(
        told(PiriaError::SignatureInvalid(7)),
        format!("Event signature verification failed for event {seven}")
    );
    assert_eq!(
        told(PiriaError::CausalOrderingViolation { cause: 7, effect: 8 }),
        format!("Causal ordering violation: {seven} must precede {eight}")
    );
    assert_eq!(
        told(PiriaError::ClockSkewExceeded { max_ms: 5_000, skew_ms: u64::MAX }),
        "HLC clock skew exceeded maximum (5000ms): skew=18446744073709551615ms"
    );
    assert_eq!(
        told(PiriaError::InvariantSignatureInvalid { key: "k".to_string() }),
        "Invariant registry signature invalid for key=k"
    );
    let error = PiriaError::InvariantViolation {
        invariant_id: "I-1".to_string(),
        message: "broken".to_string(),
    };
    assert_eq!(told(error), "Invariant violation: I-1 — broken");
    assert_eq!(
        told(PiriaError::InvariantRegistryReadOnly),
        "Attempted write to read-only invariant registry"
    );
    assert_eq!(
        told(PiriaError::InvalidProbabilityField { categories: 4 }),
        "Probability field invalid: categories=4, constraint violation"
    );
    assert_eq!(
        told(PiriaError::AttentionBudgetExhausted),
        "Attention budget exhausted during traversal"
    );
    assert_eq!(
        told(PiriaError::TraversalDepthLimitReached { max: 6 }),
        "Traversal depth limit reached: max=6"
    );
    let error = PiriaError::IntegrityHashMismatch {
        orb_id: 7,
        stored: "aa".to_string(),
        computed: "bb".to_string(),
    };
    assert_eq!(
        told(error),
        format!("Integrity hash mismatch for orb {seven}: stored=aa, computed=bb")
    );
    assert_eq!(
        told(PiriaError::CrdtMergeConflict { orb_id: 7, reason: "why".to_string() }),
        format!("CRDT merge conflict on orb {seven}: why")
    );
    assert_eq!(
        told(PiriaError::PartitionMergeIncompatible { reason: "why".to_string() }),
        "Partition state incompatible for merge: why"
    );
    assert_eq!(told(PiriaError::Serialization("x".to_string())), "Serialization error: x");
    assert_eq!(told(PiriaError::CborSerialization("x".to_string())), "CBOR serialization error: x");
    assert_eq!(told(PiriaError::Internal("x".to_string())), "Internal error: x");
}

#[test]
fn errors_show_their_numbers() {
    let seven = Uuid::from_u128(7);
    assert_eq!(
        told(PiriaError::VectorNotNormalized { norm: single(0.5) }),
        "Semantic vector is not L2-normalized (norm=0.5000)"
    );
    assert_eq!(
        told(PiriaError::TrustCeilingViolated {
            orb_id: 7,
            trust: single(0.25),
            ceiling: single(0.125),
        }),
        format!("Trust ceiling violated: trust=0.2500 > ceiling=0.1250 for orb={seven}")
    );
    assert_eq!(
        told(PiriaError::TrustConcentrationCapExceeded { orb_id: 7, share: single(12.5) }),
        format!("Trust concentration cap exceeded: orb={seven} holds 12.50% of total trust")
    );
    assert_eq!(
        told(PiriaError::EntropySpike { value: single(0.75), threshold: single(0.5) }),
        "Entropy spike detected: field_entropy=0.7500 > threshold=0.5000"
    );
    assert!(PiriaError::OrbNotFound(7).numbers().is_empty());
    let bare = PiriaError::VectorNotNormalized { norm: single(0.5) }.message(&[]);
    assert_eq!(bare, "Semantic vector is not L2-normalized (norm=)");
}
