//! Typed relations between entities.

use vstd::prelude::*;

use crate::clock::HlcTimestamp;
use crate::float::{Single, SINGLE_ONE};
use crate::outside;
use crate::outside::{fresh_id, now_ms};

verus! {

/// What a relation says of its two ends.
#[derive(Debug, Clone, Copy, PartialEq, Eq, Hash, Structural)]
pub enum RelationType {
    Causes,
    Supports,
    Contradicts,
    Contains,
    References,
    SimilarTo,
    DerivedFrom,
    TemporalPrecedes,
    TrustDelegatedTo,
    AttentionFlowsTo,
}

/// The name of a relation type.
pub open spec fn label(relation_type: RelationType) -> Seq<char> {
    match relation_type {
        RelationType::Causes => "Causes"@,
        RelationType::Supports => "Supports"@,
        RelationType::Contradicts => "Contradicts"@,
        RelationType::Contains => "Contains"@,
        RelationType::References => "References"@,
        RelationType::SimilarTo => "SimilarTo"@,
        RelationType::DerivedFrom => "DerivedFrom"@,
        RelationType::TemporalPrecedes => "TemporalPrecedes"@,
        RelationType::TrustDelegatedTo => "TrustDelegatedTo"@,
        RelationType::AttentionFlowsTo => "AttentionFlowsTo"@,
    }
}

/// The number of a relation type.
pub open spec fn type_code(relation_type: RelationType) -> u8 {
    match relation_type {
        RelationType::Causes => 0,
        RelationType::Supports => 1,
        RelationType::Contradicts => 2,
        RelationType::Contains => 3,
        RelationType::References => 4,
        RelationType::SimilarTo => 5,
        RelationType::DerivedFrom => 6,
        RelationType::TemporalPrecedes => 7,
        RelationType::TrustDelegatedTo => 8,
        RelationType::AttentionFlowsTo => 9,
    }
}

impl RelationType {
    /// The number of the relation type.
    pub fn code(&self) -> (result: u8)
        ensures
            result == type_code(*self),
    {
        match self {
            RelationType::Causes => 0,
            RelationType::Supports => 1,
            RelationType::Contradicts => 2,
            RelationType::Contains => 3,
            RelationType::References => 4,
            RelationType::SimilarTo => 5,
            RelationType::DerivedFrom => 6,
            RelationType::TemporalPrecedes => 7,
            RelationType::TrustDelegatedTo => 8,
            RelationType::AttentionFlowsTo => 9,
        }
    }

    /// Whether the relation holds in both directions when it holds in one.
    pub fn is_symmetric(&self) -> (result: bool)
        ensures
            result == (*self == RelationType::Contradicts || *self == RelationType::SimilarTo),
    {
        matches!(self, RelationType::Contradicts | RelationType::SimilarTo)
    }

    /// The name of the relation type.
    pub fn name(&self) -> (result: String)
        ensures
            result@ == label(*self),
    {
        let text = match self {
            RelationType::Causes => "Causes",
            RelationType::Supports => "Supports",
            RelationType::Contradicts => "Contradicts",
            RelationType::Contains => "Contains",
            RelationType::References => "References",
            RelationType::SimilarTo => "SimilarTo",
            RelationType::DerivedFrom => "DerivedFrom",
            RelationType::TemporalPrecedes => "TemporalPrecedes",
            RelationType::TrustDelegatedTo => "TrustDelegatedTo",
            RelationType::AttentionFlowsTo => "AttentionFlowsTo",
        };
        text.to_owned()
    }
}

/// An outgoing relation of an entity.
#[derive(Debug, Clone, Copy, PartialEq, Eq, Structural)]
pub struct RelationRef {
    pub edge_id: u128,
    pub target_orb_id: u128,
    pub relation_type: RelationType,
    /// Strength, between zero and one.
    pub weight: Single,
    /// The trust of the source when the relation was made.
    pub trust_at_creation: Single,
    pub created_at: HlcTimestamp,
    /// Unix milliseconds of the last use.
    pub last_used_ms: u64,
}

/// The order of relations that settles which of two stays where nothing else
/// does: by use, time, strength, trust, type and identifiers, one after the other.
pub open spec fn outranked(a: RelationRef, b: RelationRef) -> bool {
    if a.last_used_ms != b.last_used_ms {
        a.last_used_ms < b.last_used_ms
    } else if a.created_at != b.created_at {
        a.created_at.before(b.created_at)
    } else if a.weight != b.weight {
        a.weight.bits < b.weight.bits
    } else if a.trust_at_creation != b.trust_at_creation {
        a.trust_at_creation.bits < b.trust_at_creation.bits
    } else if a.relation_type != b.relation_type {
        type_code(a.relation_type) < type_code(b.relation_type)
    } else if a.target_orb_id != b.target_orb_id {
        a.target_orb_id < b.target_orb_id
    } else {
        a.edge_id < b.edge_id
    }
}

/// The order of relations places any two different ones, and has no circles.
pub proof fn relations_are_ordered(a: RelationRef, b: RelationRef, c: RelationRef)
    ensures
        a == b || outranked(a, b) || outranked(b, a),
        !(outranked(a, b) && outranked(b, a)),
        outranked(a, b) && outranked(b, c) ==> outranked(a, c),
{
}

/// A number forced between zero and one; what is not a number stays as it is.
pub open spec fn unit_clamped(value: Single) -> Single {
    value.clamped(Single { bits: 0 }, Single { bits: SINGLE_ONE })
}

/// The relation that is made from these parts. Its strength and its trust are forced
/// between zero and one; what is not a number counts as none.
pub open spec fn relation_of(
    edge_id: u128,
    target_orb_id: u128,
    relation_type: RelationType,
    weight: Single,
    trust_at_creation: Single,
    created_at: HlcTimestamp,
    now: u64,
) -> RelationRef {
    RelationRef {
        edge_id,
        target_orb_id,
        relation_type,
        weight: weight.unit(),
        trust_at_creation: trust_at_creation.unit(),
        created_at,
        last_used_ms: now,
    }
}

/// A number forced between zero and one; what is not a number stays as it is.
pub fn clamp_unit(value: Single) -> (result: Single)
    ensures
        result == unit_clamped(value),
{
    value.clamp(&Single::zero(), &Single::one())
}

impl RelationRef {
    /// A relation with the given identifier, made at `now`.
    pub fn with_id(
        edge_id: u128,
        target_orb_id: u128,
        relation_type: RelationType,
        weight: Single,
        trust_at_creation: Single,
        created_at: HlcTimestamp,
        now: u64,
    ) -> (relation: RelationRef)
        ensures
            relation == relation_of(
                edge_id,
                target_orb_id,
                relation_type,
                weight,
                trust_at_creation,
                created_at,
                now,
            ),
            relation.weight.in_unit(),
            relation.trust_at_creation.in_unit(),
    {
        RelationRef {
            edge_id,
            target_orb_id,
            relation_type,
            weight: weight.to_unit(),
            trust_at_creation: trust_at_creation.to_unit(),
            created_at,
            last_used_ms: now,
        }
    }

    /// A new relation with an identifier of its own.
    pub fn new(
        target_orb_id: u128,
        relation_type: RelationType,
        weight: Single,
        trust_at_creation: Single,
        created_at: HlcTimestamp,
    ) -> (relation: RelationRef)
        ensures
            relation == relation_of(
                relation.edge_id,
                target_orb_id,
                relation_type,
                weight,
                trust_at_creation,
                created_at,
                relation.last_used_ms,
            ),
            outside::time_ordered(relation.edge_id),
            relation.weight.in_unit(),
            relation.trust_at_creation.in_unit(),
    {
        RelationRef::with_id(
            fresh_id(),
            target_orb_id,
            relation_type,
            weight,
            trust_at_creation,
            created_at,
            now_ms(),
        )
    }

    /// Whether `other` stays rather than this relation where nothing else settles it.
    pub fn is_outranked_by(&self, other: &RelationRef) -> (result: bool)
        ensures
            result == outranked(*self, *other),
    {
        if self.last_used_ms != other.last_used_ms {
            self.last_used_ms < other.last_used_ms
        } else if self.created_at != other.created_at {
            self.created_at.is_before(&other.created_at)
        } else if self.weight != other.weight {
            self.weight.bits < other.weight.bits
        } else if self.trust_at_creation != other.trust_at_creation {
            self.trust_at_creation.bits < other.trust_at_creation.bits
        } else if self.relation_type != other.relation_type {
            self.relation_type.code() < other.relation_type.code()
        } else if self.target_orb_id != other.target_orb_id {
            self.target_orb_id < other.target_orb_id
        } else {
            self.edge_id < other.edge_id
        }
    }

    /// Marks the relation as used at `now`.
    pub fn touch_at(&mut self, now: u64)
        ensures
            *final(self) == (RelationRef { last_used_ms: now, ..*old(self) }),
    {
        self.last_used_ms = now;
    }

    /// Marks the relation as used just now, at the time that the system clock says.
    /// Nothing else about it changes.
    pub fn touch(&mut self)
        ensures
            *final(self) == (RelationRef {
                last_used_ms: final(self).last_used_ms,
                ..*old(self)
            }),
    {
        self.touch_at(now_ms());
    }
}

} // verus!
