//! What can happen to entities, and how that is written down.

use vstd::prelude::*;

use crate::clock::{HlcTimestamp, VectorClock};
use crate::float::Single;
use crate::numeric::copy_numbers;
use crate::orb::SemanticState;

verus! {

/// How bad it is that an invariant does not hold.
#[derive(Debug, Clone, Copy, PartialEq, Eq, Structural)]
pub enum ViolationSeverity {
    Warning,
    Error,
    Critical,
}

/// How two entities become one.
#[derive(Debug, Clone, Copy, PartialEq, Eq, Structural)]
pub enum MergeStrategy {
    /// The one with more trust stays.
    TrustWeighted,
    /// The one that changed last stays.
    LastWriteWins,
    /// Both contribute.
    Blend,
}

/// Who did it: an entity, or the system.
#[derive(Debug, Clone, Copy, PartialEq, Eq, Structural)]
pub enum ActorId {
    Orb(u128),
    System,
}

/// What happened.
#[allow(inconsistent_fields)]
#[derive(Debug)]
pub enum EventPayload {
    /// A new entity.
    OrbCreated {
        initial_trust: Single,
        permissions_bits: u64,
        probability_categories: usize,
    },
    /// A step in the life cycle.
    OrbStateChanged {
        from_state: SemanticState,
        to_state: SemanticState,
    },
    /// Another embedding, by its digest.
    VectorUpdated {
        new_vector_hash: [u8; 32],
        drift_distance: Single,
    },
    /// A new relation.
    RelationAdded {
        target_orb_id: u128,
        relation_type: String,
        weight: Single,
        edge_id: u128,
    },
    /// A relation that is gone.
    RelationRemoved {
        edge_id: u128,
        target_orb_id: u128,
    },
    /// Another trust score.
    TrustUpdated {
        previous_score: Single,
        new_score: Single,
        evidence_type: String,
        observation_weight: Single,
        outcome: Single,
    },
    /// Input from outside, by its digest.
    ObservationRecorded {
        source_id: u128,
        content_hash: [u8; 32],
        observation_type: String,
        observation_quality: Single,
    },
    /// Another probability field.
    BeliefRevised {
        new_alpha: Vec<Single>,
        previous_entropy: Single,
        new_entropy: Single,
    },
    /// An invariant that does not hold.
    ConstraintViolated {
        invariant_id: String,
        severity: ViolationSeverity,
        context: String,
    },
    /// Two entities became one.
    OrbMerged {
        source_orb_id: u128,
        merge_strategy: MergeStrategy,
    },
    /// One entity became two.
    OrbSplit {
        child_orb_ids: [u128; 2],
        split_strategy: String,
    },
    /// A history was replaced by a checkpoint.
    OrbCompressed {
        compression_policy: String,
        checkpoint_hash: [u8; 32],
        events_compressed: u32,
    },
    /// An entity moved to the archive.
    OrbArchived {
        archive_key: String,
    },
    /// The network fell apart.
    PartitionDetected {
        node_id: String,
        vector_clock_snapshot: VectorClock,
    },
    /// The network came together again.
    PartitionHealed {
        partition_event_id: u128,
        merge_summary: String,
        conflicting_orbs: Vec<u128>,
    },
    /// The entropy of the field is high.
    EntropySpike {
        field_entropy: Single,
        threshold: Single,
        active_orb_count: u64,
    },
}

/// What a payload holds.
#[allow(inconsistent_fields)]
#[verifier::ext_equal]
pub enum PayloadView {
    OrbCreated {
        initial_trust: Single,
        permissions_bits: u64,
        probability_categories: usize,
    },
    OrbStateChanged {
        from_state: SemanticState,
        to_state: SemanticState,
    },
    VectorUpdated {
        new_vector_hash: Seq<u8>,
        drift_distance: Single,
    },
    RelationAdded {
        target_orb_id: u128,
        relation_type: Seq<char>,
        weight: Single,
        edge_id: u128,
    },
    RelationRemoved {
        edge_id: u128,
        target_orb_id: u128,
    },
    TrustUpdated {
        previous_score: Single,
        new_score: Single,
        evidence_type: Seq<char>,
        observation_weight: Single,
        outcome: Single,
    },
    ObservationRecorded {
        source_id: u128,
        content_hash: Seq<u8>,
        observation_type: Seq<char>,
        observation_quality: Single,
    },
    BeliefRevised {
        new_alpha: Seq<Single>,
        previous_entropy: Single,
        new_entropy: Single,
    },
    ConstraintViolated {
        invariant_id: Seq<char>,
        severity: ViolationSeverity,
        context: Seq<char>,
    },
    OrbMerged {
        source_orb_id: u128,
        merge_strategy: MergeStrategy,
    },
    OrbSplit {
        child_orb_ids: Seq<u128>,
        split_strategy: Seq<char>,
    },
    OrbCompressed {
        compression_policy: Seq<char>,
        checkpoint_hash: Seq<u8>,
        events_compressed: u32,
    },
    OrbArchived {
        archive_key: Seq<char>,
    },
    PartitionDetected {
        node_id: Seq<char>,
        vector_clock_snapshot: Map<Seq<char>, u64>,
    },
    PartitionHealed {
        partition_event_id: u128,
        merge_summary: Seq<char>,
        conflicting_orbs: Seq<u128>,
    },
    EntropySpike {
        field_entropy: Single,
        threshold: Single,
        active_orb_count: u64,
    },
}

impl View for EventPayload {
    type V = PayloadView;

    open spec fn view(&self) -> PayloadView {
        match *self {
            EventPayload::OrbCreated { initial_trust, permissions_bits, probability_categories } => PayloadView::OrbCreated {
                initial_trust,
                permissions_bits,
                probability_categories,
            },
            EventPayload::OrbStateChanged { from_state, to_state } => PayloadView::OrbStateChanged {
                from_state,
                to_state,
            },
            EventPayload::VectorUpdated { new_vector_hash, drift_distance } => PayloadView::VectorUpdated {
                new_vector_hash: new_vector_hash@,
                drift_distance,
            },
            EventPayload::RelationAdded { target_orb_id, relation_type, weight, edge_id } => PayloadView::RelationAdded {
                target_orb_id,
                relation_type: relation_type@,
                weight,
                edge_id,
            },
            EventPayload::RelationRemoved { edge_id, target_orb_id } => PayloadView::RelationRemoved {
                edge_id,
                target_orb_id,
            },
            EventPayload::TrustUpdated { previous_score, new_score, evidence_type, observation_weight, outcome } => PayloadView::TrustUpdated {
                previous_score,
                new_score,
                evidence_type: evidence_type@,
                observation_weight,
                outcome,
            },
            EventPayload::ObservationRecorded { source_id, content_hash, observation_type, observation_quality } => PayloadView::ObservationRecorded {
                source_id,
                content_hash: content_hash@,
                observation_type: observation_type@,
                observation_quality,
            },
            EventPayload::BeliefRevised { new_alpha, previous_entropy, new_entropy } => PayloadView::BeliefRevised {
                new_alpha: new_alpha@,
                previous_entropy,
                new_entropy,
            },
            EventPayload::ConstraintViolated { invariant_id, severity, context } => PayloadView::ConstraintViolated {
                invariant_id: invariant_id@,
                severity,
                context: context@,
            },
            EventPayload::OrbMerged { source_orb_id, merge_strategy } => PayloadView::OrbMerged {
                source_orb_id,
                merge_strategy,
            },
            EventPayload::OrbSplit { child_orb_ids, split_strategy } => PayloadView::OrbSplit {
                child_orb_ids: child_orb_ids@,
                split_strategy: split_strategy@,
            },
            EventPayload::OrbCompressed { compression_policy, checkpoint_hash, events_compressed } => PayloadView::OrbCompressed {
                compression_policy: compression_policy@,
                checkpoint_hash: checkpoint_hash@,
                events_compressed,
            },
            EventPayload::OrbArchived { archive_key } => PayloadView::OrbArchived {
                archive_key: archive_key@,
            },
            EventPayload::PartitionDetected { node_id, vector_clock_snapshot } => PayloadView::PartitionDetected {
                node_id: node_id@,
                vector_clock_snapshot: vector_clock_snapshot@,
            },
            EventPayload::PartitionHealed { partition_event_id, merge_summary, conflicting_orbs } => PayloadView::PartitionHealed {
                partition_event_id,
                merge_summary: merge_summary@,
                conflicting_orbs: conflicting_orbs@,
            },
            EventPayload::EntropySpike { field_entropy, threshold, active_orb_count } => PayloadView::EntropySpike {
                field_entropy,
                threshold,
                active_orb_count,
            },
        }
    }
}

fn copy_ids(ids: &Vec<u128>) -> (copy: Vec<u128>)
    ensures
        copy@ == ids@,
{
    let copy = ids.clone();
    assert(copy@ =~= ids@);
    copy
}

impl Clone for EventPayload {
    fn clone(&self) -> (copy: Self)
        ensures
            copy@ == self@,
    {
        match self {
            EventPayload::OrbCreated { initial_trust, permissions_bits, probability_categories } => EventPayload::OrbCreated {
                initial_trust: *initial_trust,
                permissions_bits: *permissions_bits,
                probability_categories: *probability_categories,
            },
            EventPayload::OrbStateChanged { from_state, to_state } => EventPayload::OrbStateChanged {
                from_state: *from_state,
                to_state: *to_state,
            },
            EventPayload::VectorUpdated { new_vector_hash, drift_distance } => EventPayload::VectorUpdated {
                new_vector_hash: *new_vector_hash,
                drift_distance: *drift_distance,
            },
            EventPayload::RelationAdded { target_orb_id, relation_type, weight, edge_id } => EventPayload::RelationAdded {
                target_orb_id: *target_orb_id,
                relation_type: relation_type.clone(),
                weight: *weight,
                edge_id: *edge_id,
            },
            EventPayload::RelationRemoved { edge_id, target_orb_id } => EventPayload::RelationRemoved {
                edge_id: *edge_id,
                target_orb_id: *target_orb_id,
            },
            EventPayload::TrustUpdated { previous_score, new_score, evidence_type, observation_weight, outcome } => EventPayload::TrustUpdated {
                previous_score: *previous_score,
                new_score: *new_score,
                evidence_type: evidence_type.clone(),
                observation_weight: *observation_weight,
                outcome: *outcome,
            },
            EventPayload::ObservationRecorded { source_id, content_hash, observation_type, observation_quality } => EventPayload::ObservationRecorded {
                source_id: *source_id,
                content_hash: *content_hash,
                observation_type: observation_type.clone(),
                observation_quality: *observation_quality,
            },
            EventPayload::BeliefRevised { new_alpha, previous_entropy, new_entropy } => EventPayload::BeliefRevised {
                new_alpha: copy_numbers(new_alpha),
                previous_entropy: *previous_entropy,
                new_entropy: *new_entropy,
            },
            EventPayload::ConstraintViolated { invariant_id, severity, context } => EventPayload::ConstraintViolated {
                invariant_id: invariant_id.clone(),
                severity: *severity,
                context: context.clone(),
            },
            EventPayload::OrbMerged { source_orb_id, merge_strategy } => EventPayload::OrbMerged {
                source_orb_id: *source_orb_id,
                merge_strategy: *merge_strategy,
            },
            EventPayload::OrbSplit { child_orb_ids, split_strategy } => EventPayload::OrbSplit {
                child_orb_ids: *child_orb_ids,
                split_strategy: split_strategy.clone(),
            },
            EventPayload::OrbCompressed { compression_policy, checkpoint_hash, events_compressed } => EventPayload::OrbCompressed {
                compression_policy: compression_policy.clone(),
                checkpoint_hash: *checkpoint_hash,
                events_compressed: *events_compressed,
            },
            EventPayload::OrbArchived { archive_key } => EventPayload::OrbArchived {
                archive_key: archive_key.clone(),
            },
            EventPayload::PartitionDetected { node_id, vector_clock_snapshot } => EventPayload::PartitionDetected {
                node_id: node_id.clone(),
                vector_clock_snapshot: vector_clock_snapshot.clone(),
            },
            EventPayload::PartitionHealed { partition_event_id, merge_summary, conflicting_orbs } => EventPayload::PartitionHealed {
                partition_event_id: *partition_event_id,
                merge_summary: merge_summary.clone(),
                conflicting_orbs: copy_ids(conflicting_orbs),
            },
            EventPayload::EntropySpike { field_entropy, threshold, active_orb_count } => EventPayload::EntropySpike {
                field_entropy: *field_entropy,
                threshold: *threshold,
                active_orb_count: *active_orb_count,
            },
        }
    }
}

/// An event of the log of an entity.
#[derive(Debug)]
pub struct Event {
    pub event_id: u128,
    /// The entity that it happened to.
    pub orb_id: u128,
    pub actor_id: ActorId,
    /// Unix milliseconds at the node that it came from.
    pub timestamp_physical: u64,
    pub timestamp_logical: HlcTimestamp,
    pub vector_clock: VectorClock,
    pub payload: EventPayload,
    /// The hash of the event before it, zeros for the first one.
    pub prev_event_hash: [u8; 32],
    /// The digest of the identifier, the payload and the previous hash.
    pub event_hash: [u8; 32],
    /// A signature of the hash.
    pub signature: Option<Vec<u8>>,
}

/// What an event holds.
#[verifier::ext_equal]
pub struct EventView {
    pub event_id: u128,
    pub orb_id: u128,
    pub actor_id: ActorId,
    pub timestamp_physical: u64,
    pub timestamp_logical: HlcTimestamp,
    pub vector_clock: Map<Seq<char>, u64>,
    pub payload: PayloadView,
    pub prev_event_hash: Seq<u8>,
    pub event_hash: Seq<u8>,
    pub signature: Option<Seq<u8>>,
}

/// A byte string that may be missing.
pub open spec fn optional_bytes(bytes: Option<Vec<u8>>) -> Option<Seq<u8>> {
    match bytes {
        Some(list) => Some(list@),
        None => None,
    }
}

impl View for Event {
    type V = EventView;

    open spec fn view(&self) -> EventView {
        EventView {
            event_id: self.event_id,
            orb_id: self.orb_id,
            actor_id: self.actor_id,
            timestamp_physical: self.timestamp_physical,
            timestamp_logical: self.timestamp_logical,
            vector_clock: self.vector_clock@,
            payload: self.payload@,
            prev_event_hash: self.prev_event_hash@,
            event_hash: self.event_hash@,
            signature: optional_bytes(self.signature),
        }
    }
}

impl Clone for Event {
    fn clone(&self) -> (copy: Self)
        ensures
            copy@ == self@,
    {
        let signature = match &self.signature {
            Some(bytes) => {
                let copied = bytes.clone();
                assert(copied@ =~= bytes@);
                Some(copied)
            },
            None => None,
        };
        Event {
            event_id: self.event_id,
            orb_id: self.orb_id,
            actor_id: self.actor_id,
            timestamp_physical: self.timestamp_physical,
            timestamp_logical: self.timestamp_logical,
            vector_clock: self.vector_clock.clone(),
            payload: self.payload.clone(),
            prev_event_hash: self.prev_event_hash,
            event_hash: self.event_hash,
            signature,
        }
    }
}

// ---------------------------------------------------------------------------
// Encoding
// ---------------------------------------------------------------------------

/// How payloads are written and lines are read. Either may fail, with a reason.
#[verifier::ext_equal]
pub struct CodecView {
    pub encode: spec_fn(PayloadView) -> Result<Seq<u8>, Seq<char>>,
    pub decode: spec_fn(Seq<char>) -> Result<EventView, Seq<char>>,
}

/// What came of writing.
pub open spec fn encoded(result: Result<Vec<u8>, String>) -> Result<Seq<u8>, Seq<char>> {
    match result {
        Ok(bytes) => Ok(bytes@),
        Err(reason) => Err(reason@),
    }
}

/// What came of reading.
pub open spec fn decoded(result: Result<Event, String>) -> Result<EventView, Seq<char>> {
    match result {
        Ok(event) => Ok(event@),
        Err(reason) => Err(reason@),
    }
}

/// A pair of total functions: one that writes payloads as bytes, and one that
/// reads events from text. What they give depends on what they are given alone.
pub struct Codec<
    E: Fn(&EventPayload) -> Result<Vec<u8>, String>,
    D: Fn(&str) -> Result<Event, String>,
> {
    encode: E,
    decode: D,
}

impl<
    E: Fn(&EventPayload) -> Result<Vec<u8>, String>,
    D: Fn(&str) -> Result<Event, String>,
> View for Codec<E, D> {
    type V = CodecView;

    closed spec fn view(&self) -> CodecView {
        CodecView {
            encode: |payload: PayloadView|
                choose|answer: Result<Seq<u8>, Seq<char>>| encodes(self.encode, payload, answer),
            decode: |text: Seq<char>|
                choose|answer: Result<EventView, Seq<char>>| decodes(self.decode, text, answer),
        }
    }
}

/// Whether a function can write a payload so.
pub open spec fn encodes<E: Fn(&EventPayload) -> Result<Vec<u8>, String>>(
    encode: E,
    payload: PayloadView,
    answer: Result<Seq<u8>, Seq<char>>,
) -> bool {
    exists|value: EventPayload, result: Result<Vec<u8>, String>| #[trigger]
        call_ensures(encode, (&value,), result) && value@ == payload && encoded(result) == answer
}

/// Whether a function can read a text so.
pub open spec fn decodes<D: Fn(&str) -> Result<Event, String>>(
    decode: D,
    text: Seq<char>,
    answer: Result<EventView, Seq<char>>,
) -> bool {
    exists|line: &str, result: Result<Event, String>| #[trigger]
        call_ensures(decode, (line,), result) && line@ == text && decoded(result) == answer
}

impl<
    E: Fn(&EventPayload) -> Result<Vec<u8>, String>,
    D: Fn(&str) -> Result<Event, String>,
> Codec<E, D> {
    #[verifier::type_invariant]
    closed spec fn total_functions(self) -> bool {
        &&& forall|payload: &EventPayload| #[trigger] call_requires(self.encode, (payload,))
        &&& forall|payload: PayloadView, a, b| #[trigger]
            encodes(self.encode, payload, a) && #[trigger] encodes(self.encode, payload, b) ==> a
                == b
        &&& forall|line: &str| #[trigger] call_requires(self.decode, (line,))
        &&& forall|text: Seq<char>, a, b| #[trigger]
            decodes(self.decode, text, a) && #[trigger] decodes(self.decode, text, b) ==> a == b
    }

    /// A codec of two functions, which must take everything and give equal
    /// answers to equal questions.
    pub fn new(encode: E, decode: D) -> (codec: Self)
        requires
            forall|payload: &EventPayload| #[trigger] call_requires(encode, (payload,)),
            forall|payload: PayloadView, a, b| #[trigger]
                encodes(encode, payload, a) && #[trigger] encodes(encode, payload, b) ==> a == b,
            forall|line: &str| #[trigger] call_requires(decode, (line,)),
            forall|text: Seq<char>, a, b| #[trigger]
                decodes(decode, text, a) && #[trigger] decodes(decode, text, b) ==> a == b,
        ensures
            forall|payload: PayloadView, a| #[trigger]
                encodes(encode, payload, a) ==> (codec@.encode)(payload) == a,
            forall|text: Seq<char>, a| #[trigger]
                decodes(decode, text, a) ==> (codec@.decode)(text) == a,
    {
        Codec { encode, decode }
    }

    /// Writes a payload as bytes.
    pub fn write(&self, payload: &EventPayload) -> (result: Result<Vec<u8>, String>)
        ensures
            encoded(result) == (self@.encode)(payload@),
    {
        proof {
            use_type_invariant(self);
        }
        let result = (self.encode)(payload);
        assert(encodes(self.encode, payload@, encoded(result)));
        result
    }

    /// Reads an event from a line of text.
    pub fn read(&self, line: &str) -> (result: Result<Event, String>)
        ensures
            decoded(result) == (self@.decode)(line@),
    {
        proof {
            use_type_invariant(self);
        }
        let result = (self.decode)(line);
        assert(decodes(self.decode, line@, decoded(result)));
        result
    }
}

} // verus!
