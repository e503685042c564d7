//! A runtime core for a relational knowledge graph: entities with verified
//! life cycles, hash-chained event logs, mergeable replica state, attention
//! bounded traversal and entropy monitoring.

pub mod attention;
pub mod belief;
pub mod clock;
pub mod clusters;
pub mod crdt;
pub mod doubles;
pub mod encoding;
pub mod engine;
pub mod entropy;
pub mod error;
pub mod event;
pub mod float;
pub mod fpu;
pub mod frontier;
pub mod maps;
pub mod numeric;
pub mod orb;
pub mod orset;
pub mod outside;
pub mod payload;
pub mod permissions;
pub mod relation;
pub mod rounding;
pub mod runtime;
pub mod storage;
pub mod text;
pub mod traversal;
pub mod trust;
pub mod vector;

pub use crate::attention::AttentionAllocator;
pub use crate::belief::{ProbabilityField, MAX_PROBABILITY_CATEGORIES};
pub use crate::clock::{HlcClock, HlcTimestamp, VectorClock};
pub use crate::crdt::{
    merge_semantic_states, merge_semantic_vectors, EventRefGSet, OrbCrdtState,
    PartitionHealResult, PartitionMergeCoordinator, TrustLwwRegister,
};
pub use crate::engine::TraversalEngine;
pub use crate::entropy::{
    AlertSeverity, EntropyAlert, EntropyAlertKind, EntropyMonitor, FieldEntropySnapshot,
    OrbEntropySample,
};
pub use crate::error::PiriaError;
pub use crate::event::{EventBuilder, OrbEventLog};
pub use crate::float::{Double, Single};
pub use crate::fpu::{Flop, Fpu};
pub use crate::numeric::l2_norm;
pub use crate::orb::{Orb, SemanticState, DEFAULT_DEGREE_BUDGET, DRIFT_THRESHOLD};
pub use crate::orset::RelationOrSet;
pub use crate::outside::now_ms;
pub use crate::payload::{
    ActorId, Codec, Event, EventPayload, MergeStrategy, ViolationSeverity,
};
pub use crate::permissions::Permissions;
pub use crate::relation::{RelationRef, RelationType};
pub use crate::runtime::{Host, Moment, PiriaRuntime};
pub use crate::storage::{Disk, GraphSnapshot, JsonGraphStore};
pub use crate::traversal::{
    EdgeView, GraphView, InMemoryGraphView, NodeView, ScoreBreakdown, ScoringWeights,
    SemanticQuery, TraversalConfig, TraversalHit, TraversalResult,
};
pub use crate::trust::{TrustRecord, TRUST_CONCENTRATION_CAP, TRUST_FLOOR};
pub use crate::vector::{SemanticVector, VECTOR_DIM};
