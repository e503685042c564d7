//! What can go wrong, for every module of the library.

use vstd::prelude::*;
use vstd::string::StringExecFns;

use crate::float::Single;
use crate::orb;
use crate::orb::SemanticState;
use crate::outside;
use crate::outside::id_to_text;
use crate::text;
use crate::text::decimal_text;

verus! {

#[allow(inconsistent_fields)]
#[derive(Debug)]
pub enum PiriaError {
    /// There is no entity with this identifier.
    OrbNotFound(u128),
    /// There already is an entity with this identifier.
    OrbAlreadyExists(u128),
    /// The life cycle does not lead from one state to the other.
    InvalidStateTransition { from: SemanticState, to: SemanticState },
    /// No further outgoing relation fits the budget.
    DegreeBudgetExceeded { orb_id: u128, budget: usize },
    /// An embedding has the wrong number of components.
    VectorDimensionMismatch { expected: usize, got: usize },
    /// An embedding has no usable length.
    VectorNotNormalized { norm: Single },
    /// A link of a hash chain does not fit.
    HashChainBroken { event_id: u128, expected: String, actual: String },
    /// An event is not signed, or its signature is not accepted.
    SignatureInvalid(u128),
    /// An effect comes before its cause.
    CausalOrderingViolation { cause: u128, effect: u128 },
    /// A remote clock runs too far ahead.
    ClockSkewExceeded { max_ms: u64, skew_ms: u64 },
    /// A trust score above what the evidence supports.
    TrustCeilingViolated { orb_id: u128, trust: Single, ceiling: Single },
    /// Too much of all trust lies with one entity.
    TrustConcentrationCapExceeded { orb_id: u128, share: Single },
    /// An entry of the invariant registry is not properly signed.
    InvariantSignatureInvalid { key: String },
    /// An invariant does not hold.
    InvariantViolation { invariant_id: String, message: String },
    /// The invariant registry cannot be written.
    InvariantRegistryReadOnly,
    /// The entropy of the field is above its threshold.
    EntropySpike { value: Single, threshold: Single },
    /// A probability field breaks its constraints.
    InvalidProbabilityField { categories: usize },
    /// A traversal ran out of attention.
    AttentionBudgetExhausted,
    /// A traversal reached its depth limit.
    TraversalDepthLimitReached { max: usize },
    /// An entity does not match its integrity hash.
    IntegrityHashMismatch { orb_id: u128, stored: String, computed: String },
    /// Two replica states cannot be merged.
    CrdtMergeConflict { orb_id: u128, reason: String },
    /// Two partitions cannot be merged.
    PartitionMergeIncompatible { reason: String },
    /// A value could not be encoded or decoded.
    Serialization(String),
    /// A value could not be encoded in the binary form.
    CborSerialization(String),
    /// Anything else.
    Internal(String),
}

/// What an error says.
#[allow(inconsistent_fields)]
#[verifier::ext_equal]
pub enum ErrorView {
    OrbNotFound(u128),
    OrbAlreadyExists(u128),
    InvalidStateTransition { from: SemanticState, to: SemanticState },
    DegreeBudgetExceeded { orb_id: u128, budget: usize },
    VectorDimensionMismatch { expected: usize, got: usize },
    VectorNotNormalized { norm: Single },
    HashChainBroken { event_id: u128, expected: Seq<char>, actual: Seq<char> },
    SignatureInvalid(u128),
    CausalOrderingViolation { cause: u128, effect: u128 },
    ClockSkewExceeded { max_ms: u64, skew_ms: u64 },
    TrustCeilingViolated { orb_id: u128, trust: Single, ceiling: Single },
    TrustConcentrationCapExceeded { orb_id: u128, share: Single },
    InvariantSignatureInvalid { key: Seq<char> },
    InvariantViolation { invariant_id: Seq<char>, message: Seq<char> },
    InvariantRegistryReadOnly,
    EntropySpike { value: Single, threshold: Single },
    InvalidProbabilityField { categories: usize },
    AttentionBudgetExhausted,
    TraversalDepthLimitReached { max: usize },
    IntegrityHashMismatch { orb_id: u128, stored: Seq<char>, computed: Seq<char> },
    CrdtMergeConflict { orb_id: u128, reason: Seq<char> },
    PartitionMergeIncompatible { reason: Seq<char> },
    Serialization(Seq<char>),
    CborSerialization(Seq<char>),
    Internal(Seq<char>),
}

impl View for PiriaError {
    type V = ErrorView;

    open spec fn view(&self) -> ErrorView {
        match *self {
            PiriaError::OrbNotFound(value) => ErrorView::OrbNotFound(value),
            PiriaError::OrbAlreadyExists(value) => ErrorView::OrbAlreadyExists(value),
            PiriaError::InvalidStateTransition { from, to } => ErrorView::InvalidStateTransition { from, to },
            PiriaError::DegreeBudgetExceeded { orb_id, budget } => ErrorView::DegreeBudgetExceeded { orb_id, budget },
            PiriaError::VectorDimensionMismatch { expected, got } => ErrorView::VectorDimensionMismatch { expected, got },
            PiriaError::VectorNotNormalized { norm } => ErrorView::VectorNotNormalized { norm },
            PiriaError::HashChainBroken { event_id, expected, actual } => ErrorView::HashChainBroken { event_id, expected: expected@, actual: actual@ },
            PiriaError::SignatureInvalid(value) => ErrorView::SignatureInvalid(value),
            PiriaError::CausalOrderingViolation { cause, effect } => ErrorView::CausalOrderingViolation { cause, effect },
            PiriaError::ClockSkewExceeded { max_ms, skew_ms } => ErrorView::ClockSkewExceeded { max_ms, skew_ms },
            PiriaError::TrustCeilingViolated { orb_id, trust, ceiling } => ErrorView::TrustCeilingViolated { orb_id, trust, ceiling },
            PiriaError::TrustConcentrationCapExceeded { orb_id, share } => ErrorView::TrustConcentrationCapExceeded { orb_id, share },
            PiriaError::InvariantSignatureInvalid { key } => ErrorView::InvariantSignatureInvalid { key: key@ },
            PiriaError::InvariantViolation { invariant_id, message } => ErrorView::InvariantViolation { invariant_id: invariant_id@, message: message@ },
            PiriaError::InvariantRegistryReadOnly => ErrorView::InvariantRegistryReadOnly,
            PiriaError::EntropySpike { value, threshold } => ErrorView::EntropySpike { value, threshold },
            PiriaError::InvalidProbabilityField { categories } => ErrorView::InvalidProbabilityField { categories },
            PiriaError::AttentionBudgetExhausted => ErrorView::AttentionBudgetExhausted,
            PiriaError::TraversalDepthLimitReached { max } => ErrorView::TraversalDepthLimitReached { max },
            PiriaError::IntegrityHashMismatch { orb_id, stored, computed } => ErrorView::IntegrityHashMismatch { orb_id, stored: stored@, computed: computed@ },
            PiriaError::CrdtMergeConflict { orb_id, reason } => ErrorView::CrdtMergeConflict { orb_id, reason: reason@ },
            PiriaError::PartitionMergeIncompatible { reason } => ErrorView::PartitionMergeIncompatible { reason: reason@ },
            PiriaError::Serialization(value) => ErrorView::Serialization(value@),
            PiriaError::CborSerialization(value) => ErrorView::CborSerialization(value@),
            PiriaError::Internal(value) => ErrorView::Internal(value@),
        }
    }
}

/// The numbers that stand in the message of an error, each with the number of its
/// decimals.
pub open spec fn numbers_of(error: ErrorView) -> Seq<(Single, usize)> {
    match error {
        ErrorView::VectorNotNormalized { norm } => seq![(norm, 4)],
        ErrorView::TrustCeilingViolated { trust, ceiling, .. } => seq![(trust, 4), (ceiling, 4)],
        ErrorView::TrustConcentrationCapExceeded { share, .. } => seq![(share, 2)],
        ErrorView::EntropySpike { value, threshold } => seq![(value, 4), (threshold, 4)],
        _ => Seq::empty(),
    }
}

/// The text of a number, nothing where there is none.
pub open spec fn number_text(numbers: Seq<String>, i: int) -> Seq<char> {
    if i < numbers.len() {
        numbers[i]@
    } else {
        Seq::empty()
    }
}

/// An error in words, with the texts of its numbers.
pub open spec fn message_of(error: ErrorView, numbers: Seq<String>) -> Seq<char> {
    match error {
        ErrorView::OrbNotFound(id) => {
            "ORB not found: "@ + outside::id_text(id)
        },
        ErrorView::OrbAlreadyExists(id) => {
            "ORB already exists: "@ + outside::id_text(id)
        },
        ErrorView::InvalidStateTransition { from, to } => {
            "Invalid ORB state transition: "@ + orb::state_label(from) + " → "@ + orb::state_label(to)
        },
        ErrorView::DegreeBudgetExceeded { orb_id, budget } => {
            "ORB degree budget exceeded: orb="@ + outside::id_text(orb_id) + ", budget="@ + text::decimal(budget as nat)
        },
        ErrorView::VectorDimensionMismatch { expected, got } => {
            "Semantic vector has wrong dimension: expected "@ + text::decimal(expected as nat) + ", got "@ + text::decimal(got as nat)
        },
        ErrorView::VectorNotNormalized { .. } => {
            "Semantic vector is not L2-normalized (norm="@ + number_text(numbers, 0) + ")"@
        },
        ErrorView::HashChainBroken { event_id, expected, actual } => {
            "Event hash chain broken at event "@ + outside::id_text(event_id) + ": expected "@ + expected + ", got "@ + actual
        },
        ErrorView::SignatureInvalid(id) => {
            "Event signature verification failed for event "@ + outside::id_text(id)
        },
        ErrorView::CausalOrderingViolation { cause, effect } => {
            "Causal ordering violation: "@ + outside::id_text(cause) + " must precede "@ + outside::id_text(effect)
        },
        ErrorView::ClockSkewExceeded { max_ms, skew_ms } => {
            "HLC clock skew exceeded maximum ("@ + text::decimal(max_ms as nat) + "ms): skew="@ + text::decimal(skew_ms as nat) + "ms"@
        },
        ErrorView::TrustCeilingViolated { orb_id, .. } => {
            "Trust ceiling violated: trust="@ + number_text(numbers, 0) + " > ceiling="@ + number_text(numbers, 1) + " for orb="@ + outside::id_text(orb_id)
        },
        ErrorView::TrustConcentrationCapExceeded { orb_id, .. } => {
            "Trust concentration cap exceeded: orb="@ + outside::id_text(orb_id) + " holds "@ + number_text(numbers, 0) + "% of total trust"@
        },
        ErrorView::InvariantSignatureInvalid { key } => {
            "Invariant registry signature invalid for key="@ + key
        },
        ErrorView::InvariantViolation { invariant_id, message } => {
            "Invariant violation: "@ + invariant_id + " — "@ + message
        },
        ErrorView::InvariantRegistryReadOnly => {
            "Attempted write to read-only invariant registry"@
        },
        ErrorView::EntropySpike { .. } => {
            "Entropy spike detected: field_entropy="@ + number_text(numbers, 0) + " > threshold="@ + number_text(numbers, 1)
        },
        ErrorView::InvalidProbabilityField { categories } => {
            "Probability field invalid: categories="@ + text::decimal(categories as nat) + ", constraint violation"@
        },
        ErrorView::AttentionBudgetExhausted => {
            "Attention budget exhausted during traversal"@
        },
        ErrorView::TraversalDepthLimitReached { max } => {
            "Traversal depth limit reached: max="@ + text::decimal(max as nat)
        },
        ErrorView::IntegrityHashMismatch { orb_id, stored, computed } => {
            "Integrity hash mismatch for orb "@ + outside::id_text(orb_id) + ": stored="@ + stored + ", computed="@ + computed
        },
        ErrorView::CrdtMergeConflict { orb_id, reason } => {
            "CRDT merge conflict on orb "@ + outside::id_text(orb_id) + ": "@ + reason
        },
        ErrorView::PartitionMergeIncompatible { reason } => {
            "Partition state incompatible for merge: "@ + reason
        },
        ErrorView::Serialization(reason) => {
            "Serialization error: "@ + reason
        },
        ErrorView::CborSerialization(reason) => {
            "CBOR serialization error: "@ + reason
        },
        ErrorView::Internal(reason) => {
            "Internal error: "@ + reason
        },
    }
}

fn number_at(numbers: &[String], i: usize) -> (text: &str)
    ensures
        text@ == number_text(numbers@, i as int),
{
    if i < numbers.len() {
        numbers[i].as_str()
    } else {
        proof {
            reveal_strlit("");
        }
        let nothing = "";
        assert(nothing@ =~= Seq::empty());
        nothing
    }
}

impl PiriaError {
    /// The numbers that stand in the message, each with the number of its decimals.
    pub fn numbers(&self) -> (result: Vec<(Single, usize)>)
        ensures
            result@ == numbers_of(self@),
    {
        let mut result: Vec<(Single, usize)> = Vec::new();
        match self {
            PiriaError::VectorNotNormalized { norm } => {
                result.push((*norm, 4));
            },
            PiriaError::TrustCeilingViolated { trust, ceiling, .. } => {
                result.push((*trust, 4));
                result.push((*ceiling, 4));
            },
            PiriaError::TrustConcentrationCapExceeded { share, .. } => {
                result.push((*share, 2));
            },
            PiriaError::EntropySpike { value, threshold } => {
                result.push((*value, 4));
                result.push((*threshold, 4));
            },
            _ => {},
        }
        assert(result@ =~= numbers_of(self@));
        result
    }

    /// The error in words. The texts of its numbers, which [`PiriaError::numbers`]
    /// lists, are handed in; most errors have none.
    pub fn message(&self, numbers: &[String]) -> (text: String)
        ensures
            text@ == message_of(self@, numbers@),
    {
        match self {
            PiriaError::OrbNotFound(id) => {
                let mut text = "ORB not found: ".to_owned();
                let part = id_to_text(*id);
                text.append(part.as_str());
                text
            },
            PiriaError::OrbAlreadyExists(id) => {
                let mut text = "ORB already exists: ".to_owned();
                let part = id_to_text(*id);
                text.append(part.as_str());
                text
            },
            PiriaError::InvalidStateTransition { from, to } => {
                let mut text = "Invalid ORB state transition: ".to_owned();
                let part = from.name();
                text.append(part.as_str());
                text.append(" → ");
                let part = to.name();
                text.append(part.as_str());
                text
            },
            PiriaError::DegreeBudgetExceeded { orb_id, budget } => {
                let mut text = "ORB degree budget exceeded: orb=".to_owned();
                let part = id_to_text(*orb_id);
                text.append(part.as_str());
                text.append(", budget=");
                let part = decimal_text(*budget as u64);
                text.append(part.as_str());
                text
            },
            PiriaError::VectorDimensionMismatch { expected, got } => {
                let mut text = "Semantic vector has wrong dimension: expected ".to_owned();
                let part = decimal_text(*expected as u64);
                text.append(part.as_str());
                text.append(", got ");
                let part = decimal_text(*got as u64);
                text.append(part.as_str());
                text
            },
            PiriaError::VectorNotNormalized { .. } => {
                let mut text = "Semantic vector is not L2-normalized (norm=".to_owned();
                text.append(number_at(numbers, 0));
                text.append(")");
                text
            },
            PiriaError::HashChainBroken { event_id, expected, actual } => {
                let mut text = "Event hash chain broken at event ".to_owned();
                let part = id_to_text(*event_id);
                text.append(part.as_str());
                text.append(": expected ");
                text.append(expected.as_str());
                text.append(", got ");
                text.append(actual.as_str());
                text
            },
            PiriaError::SignatureInvalid(id) => {
                let mut text = "Event signature verification failed for event ".to_owned();
                let part = id_to_text(*id);
                text.append(part.as_str());
                text
            },
            PiriaError::CausalOrderingViolation { cause, effect } => {
                let mut text = "Causal ordering violation: ".to_owned();
                let part = id_to_text(*cause);
                text.append(part.as_str());
                text.append(" must precede ");
                let part = id_to_text(*effect);
                text.append(part.as_str());
                text
            },
            PiriaError::ClockSkewExceeded { max_ms, skew_ms } => {
                let mut text = "HLC clock skew exceeded maximum (".to_owned();
                let part = decimal_text(*max_ms as u64);
                text.append(part.as_str());
                text.append("ms): skew=");
                let part = decimal_text(*skew_ms as u64);
                text.append(part.as_str());
                text.append("ms");
                text
            },
            PiriaError::TrustCeilingViolated { orb_id, .. } => {
                let mut text = "Trust ceiling violated: trust=".to_owned();
                text.append(number_at(numbers, 0));
                text.append(" > ceiling=");
                text.append(number_at(numbers, 1));
                text.append(" for orb=");
                let part = id_to_text(*orb_id);
                text.append(part.as_str());
                text
            },
            PiriaError::TrustConcentrationCapExceeded { orb_id, .. } => {
                let mut text = "Trust concentration cap exceeded: orb=".to_owned();
                let part = id_to_text(*orb_id);
                text.append(part.as_str());
                text.append(" holds ");
                text.append(number_at(numbers, 0));
                text.append("% of total trust");
                text
            },
            PiriaError::InvariantSignatureInvalid { key } => {
                let mut text = "Invariant registry signature invalid for key=".to_owned();
                text.append(key.as_str());
                text
            },
            PiriaError::InvariantViolation { invariant_id, message } => {
                let mut text = "Invariant violation: ".to_owned();
                text.append(invariant_id.as_str());
                text.append(" — ");
                text.append(message.as_str());
                text
            },
            PiriaError::InvariantRegistryReadOnly => "Attempted write to read-only invariant registry".to_owned(),
            PiriaError::EntropySpike { .. } => {
                let mut text = "Entropy spike detected: field_entropy=".to_owned();
                text.append(number_at(numbers, 0));
                text.append(" > threshold=");
                text.append(number_at(numbers, 1));
                text
            },
            PiriaError::InvalidProbabilityField { categories } => {
                let mut text = "Probability field invalid: categories=".to_owned();
                let part = decimal_text(*categories as u64);
                text.append(part.as_str());
                text.append(", constraint violation");
                text
            },
            PiriaError::AttentionBudgetExhausted => "Attention budget exhausted during traversal".to_owned(),
            PiriaError::TraversalDepthLimitReached { max } => {
                let mut text = "Traversal depth limit reached: max=".to_owned();
                let part = decimal_text(*max as u64);
                text.append(part.as_str());
                text
            },
            PiriaError::IntegrityHashMismatch { orb_id, stored, computed } => {
                let mut text = "Integrity hash mismatch for orb ".to_owned();
                let part = id_to_text(*orb_id);
                text.append(part.as_str());
                text.append(": stored=");
                text.append(stored.as_str());
                text.append(", computed=");
                text.append(computed.as_str());
                text
            },
            PiriaError::CrdtMergeConflict { orb_id, reason } => {
                let mut text = "CRDT merge conflict on orb ".to_owned();
                let part = id_to_text(*orb_id);
                text.append(part.as_str());
                text.append(": ");
                text.append(reason.as_str());
                text
            },
            PiriaError::PartitionMergeIncompatible { reason } => {
                let mut text = "Partition state incompatible for merge: ".to_owned();
                text.append(reason.as_str());
                text
            },
            PiriaError::Serialization(reason) => {
                let mut text = "Serialization error: ".to_owned();
                text.append(reason.as_str());
                text
            },
            PiriaError::CborSerialization(reason) => {
                let mut text = "CBOR serialization error: ".to_owned();
                text.append(reason.as_str());
                text
            },
            PiriaError::Internal(reason) => {
                let mut text = "Internal error: ".to_owned();
                text.append(reason.as_str());
                text
            },
        }
    }
}

/// Whether something went well, or failed as expected.
pub open spec fn goes<T>(result: Result<T, PiriaError>, fault: Option<ErrorView>) -> bool {
    match fault {
        None => result is Ok,
        Some(reason) => result matches Err(error) && error@ == reason,
    }
}

} // verus!
