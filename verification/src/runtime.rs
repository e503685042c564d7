//! A node: its entities, their logs, and what it does with them.

use std::collections::hash_map::Entry;
use std::collections::HashMap;

use vstd::prelude::*;

use crate::belief;
use crate::belief::ProbabilityField;
use crate::clock;
use crate::clock::{HlcClock, HlcTimestamp, VectorClock};
use crate::doubles;
use crate::engine;
use crate::engine::TraversalEngine;
use crate::entropy;
use crate::entropy::{
    EntropyAlert, EntropyMonitor, FieldEntropySnapshot, MonitorView, OrbEntropySample,
};
use crate::error::{ErrorView, PiriaError};
use crate::event;
use crate::event::{BuilderView, EventBuilder, LogView, OrbEventLog};
use crate::float::Single;
use crate::fpu;
use crate::fpu::{Arithmetic, Flop, Fpu};
use crate::maps;
use crate::maps::keys_of;
use crate::numeric;
use crate::orb;
use crate::orb::{Orb, OrbView, SemanticState};
use crate::outside;
use crate::outside::{fresh_id, now_ms};
use crate::payload::{ActorId, Codec, CodecView, Event, EventPayload, EventView, PayloadView};
use crate::permissions::Permissions;
use crate::relation;
use crate::relation::{RelationRef, RelationType};
use crate::rounding;
use crate::storage;
use crate::storage::{Disk, DiskView, GraphSnapshot, JsonGraphStore, SnapshotView, StoreView};
use crate::traversal;
use crate::traversal::{
    InMemoryGraphView, NodeData, SemanticQuery, TraversalConfig, TraversalResult,
};
use crate::trust;
use crate::vector::SemanticVector;

verus! {

broadcast use vstd::std_specs::hash::group_hash_axioms;

// ---------------------------------------------------------------------------
// Surroundings
// ---------------------------------------------------------------------------

/// What a node needs from its surroundings: arithmetic, a codec and a disk.
pub struct Host<
    F: Fn(Flop) -> u64,
    E: Fn(&EventPayload) -> Result<Vec<u8>, String>,
    D: Fn(&str) -> Result<Event, String>,
    J: Fn(&JsonGraphStore, &Event) -> Result<(), PiriaError>,
    S: Fn(&JsonGraphStore, &GraphSnapshot) -> Result<(), PiriaError>,
> {
    pub fpu: Fpu<F>,
    pub codec: Codec<E, D>,
    pub disk: Disk<J, S>,
}

/// What surroundings are like.
#[verifier::ext_equal]
pub struct HostView {
    pub m: Arithmetic,
    pub codec: CodecView,
    pub disk: DiskView,
}

impl<
    F: Fn(Flop) -> u64,
    E: Fn(&EventPayload) -> Result<Vec<u8>, String>,
    D: Fn(&str) -> Result<Event, String>,
    J: Fn(&JsonGraphStore, &Event) -> Result<(), PiriaError>,
    S: Fn(&JsonGraphStore, &GraphSnapshot) -> Result<(), PiriaError>,
> View for Host<F, E, D, J, S> {
    type V = HostView;

    open spec fn view(&self) -> HostView {
        HostView { m: self.fpu@, codec: self.codec@, disk: self.disk@ }
    }
}

/// What an operation takes from chance and from the clock on the wall. Times are
/// in Unix milliseconds.
#[derive(Debug, Clone, Copy)]
pub struct Moment {
    /// The time that the clock of the node advances to.
    pub wall_ms: u64,
    /// The identifier of a new entity or relation.
    pub new_id: u128,
    /// The time at which trust counts.
    pub trust_ms: u64,
    /// The time at which a relation was used first.
    pub used_ms: u64,
    /// The identifier of the event.
    pub event_id: u128,
    /// The time of the event.
    pub event_ms: u64,
    /// The time of an entropy sample.
    pub sampled_ms: u64,
    /// The time of a snapshot on disk.
    pub saved_ms: u64,
}

/// Whether both identifiers of a moment have the form of time-ordered ones.
pub open spec fn freshly_named(moment: Moment) -> bool {
    outside::time_ordered(moment.new_id) && outside::time_ordered(moment.event_id)
}

impl Moment {
    /// This moment. What time it is, the clock decides; both identifiers have the
    /// form of time-ordered ones.
    pub fn now() -> (moment: Self)
        ensures
            freshly_named(moment),
    {
        Moment {
            wall_ms: now_ms(),
            new_id: fresh_id(),
            trust_ms: now_ms(),
            used_ms: now_ms(),
            event_id: fresh_id(),
            event_ms: now_ms(),
            sampled_ms: now_ms(),
            saved_ms: now_ms(),
        }
    }
}

// ---------------------------------------------------------------------------
// State
// ---------------------------------------------------------------------------

/// A node.
pub struct PiriaRuntime {
    node_id: String,
    clock: HlcClock,
    vector_clock: VectorClock,
    event_builder: EventBuilder,
    orbs: HashMap<u128, Orb>,
    event_logs: HashMap<u128, OrbEventLog>,
    entropy_monitor: EntropyMonitor,
    store: Option<JsonGraphStore>,
}

/// What a node holds.
#[verifier::ext_equal]
pub struct RuntimeView {
    pub node_id: Seq<char>,
    pub clock: HlcTimestamp,
    pub vector_clock: Map<Seq<char>, u64>,
    pub builder: BuilderView,
    pub orbs: Map<u128, OrbView>,
    pub logs: Map<u128, LogView>,
    pub monitor: MonitorView,
    pub store: Option<StoreView>,
}

/// What entities hold.
pub open spec fn orb_map(orbs: Map<u128, Orb>) -> Map<u128, OrbView> {
    orbs.map_values(|orb: Orb| orb@)
}

/// A store that may be missing.
pub open spec fn optional_store(store: Option<JsonGraphStore>) -> Option<StoreView> {
    match store {
        Some(place) => Some(place@),
        None => None,
    }
}

impl View for PiriaRuntime {
    type V = RuntimeView;

    closed spec fn view(&self) -> RuntimeView {
        RuntimeView {
            node_id: self.node_id@,
            clock: self.clock@,
            vector_clock: self.vector_clock@,
            builder: self.event_builder@,
            orbs: orb_map(self.orbs@),
            logs: storage::log_views(self.event_logs@),
            monitor: self.entropy_monitor@,
            store: optional_store(self.store),
        }
    }
}

/// A node that nothing has happened to.
pub open spec fn fresh_node(node_id: Seq<char>) -> RuntimeView {
    RuntimeView {
        node_id,
        clock: HlcTimestamp { physical_ms: 0, logical: 0 },
        vector_clock: Map::empty(),
        builder: BuilderView { signing_key: None, node_id },
        orbs: Map::empty(),
        logs: Map::empty(),
        monitor: entropy::fresh_monitor(),
        store: None,
    }
}

/// Whether the node can count one more event.
pub open spec fn can_count(s: RuntimeView) -> bool {
    clock::count(s.vector_clock, s.builder.node_id) < u64::MAX
}

/// The entities of a snapshot by their identifiers, the last one where one
/// occurs twice; or what is wrong with the first that is not intact.
pub open spec fn admitted(orbs: Seq<OrbView>) -> Result<Map<u128, OrbView>, ErrorView>
    decreases orbs.len(),
{
    if orbs.len() == 0 {
        Ok(Map::empty())
    } else {
        match admitted(orbs.drop_last()) {
            Err(fault) => Err(fault),
            Ok(map) => {
                let orb = orbs.last();
                if orb::intact(orb) {
                    Ok(map.insert(orb.identity, orb))
                } else {
                    Err(
                        ErrorView::IntegrityHashMismatch {
                            orb_id: orb.identity,
                            stored: outside::hex_text(orb.integrity_hash),
                            computed: outside::hex_text(outside::sha256(orb::preimage(orb))),
                        },
                    )
                }
            },
        }
    }
}

/// The node that a snapshot and a journal make up, or what is wrong with them.
pub open spec fn reopened(
    c: CodecView,
    node_id: Seq<char>,
    store: StoreView,
    snapshot: Option<SnapshotView>,
    wal: Result<Seq<Result<Seq<char>, Seq<char>>>, Seq<char>>,
) -> Result<RuntimeView, ErrorView> {
    let orbs = match snapshot {
        Some(all) => admitted(all.orbs),
        None => Ok(Map::empty()),
    };
    match orbs {
        Err(fault) => Err(fault),
        Ok(map) => match storage::restored(c, wal) {
            Err(fault) => Err(fault),
            Ok(logs) => Ok(
                RuntimeView { orbs: map, logs, store: Some(store), ..fresh_node(node_id) },
            ),
        },
    }
}

// ---------------------------------------------------------------------------
// Events
// ---------------------------------------------------------------------------

/// The node after its clock advanced.
pub open spec fn advanced(s: RuntimeView, moment: Moment) -> RuntimeView {
    RuntimeView { clock: clock::ticked(s.clock, moment.wall_ms), ..s }
}

/// The event that comes next in the log of an entity, or why there is none.
pub open spec fn next_event(
    h: HostView,
    s: RuntimeView,
    moment: Moment,
    orb_id: u128,
    payload: PayloadView,
) -> Result<EventView, ErrorView> {
    event::built(
        h.codec,
        s.builder,
        moment.event_id,
        moment.event_ms,
        orb_id,
        ActorId::System,
        payload,
        s.clock,
        s.vector_clock,
        event::head(storage::log_of(s.logs, orb_id).events),
    )
}

/// The node with an event in the log of its entity.
pub open spec fn with_event(s: RuntimeView, e: EventView) -> RuntimeView {
    let log = storage::log_of(s.logs, e.orb_id);
    RuntimeView {
        logs: s.logs.insert(e.orb_id, LogView { events: log.events.push(e), ..log }),
        ..s
    }
}

/// Whether appending an event leads from one state to another, with or without a
/// fault: the hash is checked, then the event is taken into the log of its
/// entity, then it is written to the journal, if there is one, and only when all
/// that went well does the vector clock follow.
pub open spec fn appends(
    h: HostView,
    s: RuntimeView,
    e: EventView,
    after: RuntimeView,
    fault: Option<ErrorView>,
) -> bool {
    let log = storage::log_of(s.logs, e.orb_id);
    let logged = with_event(s, e);
    let counted = RuntimeView { vector_clock: e.vector_clock, ..logged };
    match event::hash_fault(h.codec, e) {
        Some(reason) => after == s && fault == Some(reason),
        None => match event::append_fault(h.codec, log, e) {
            Some(reason) => after == (RuntimeView { logs: s.logs.insert(e.orb_id, log), ..s })
                && fault == Some(reason),
            None => match s.store {
                None => after == counted && fault is None,
                Some(store) => (h.disk.journal)(store, e, fault) && after == (if fault is None {
                    counted
                } else {
                    logged
                }),
            },
        },
    }
}

/// The entity with an event noted.
pub open spec fn noted(orb: OrbView, event_id: u128) -> OrbView {
    orb::sealed(OrbView { event_refs: orb.event_refs.push(event_id), ..orb })
}

/// Whether writing down what happened to an entity leads from one state to
/// another: the event is made, appended and, if that went well, noted in the
/// entity.
pub open spec fn records(
    h: HostView,
    moment: Moment,
    s: RuntimeView,
    orb_id: u128,
    payload: PayloadView,
    after: RuntimeView,
    fault: Option<ErrorView>,
) -> bool {
    match next_event(h, s, moment, orb_id, payload) {
        Err(reason) => after == s && fault == Some(reason),
        Ok(e) => {
            &&& appends(h, s, e, RuntimeView { orbs: s.orbs, ..after }, fault)
            &&& after.orbs == (if fault is None {
                s.orbs.insert(orb_id, noted(s.orbs[orb_id], e.event_id))
            } else {
                s.orbs
            })
        },
    }
}

/// All entities, in an order of their identifiers.
pub open spec fn in_order(orbs: Map<u128, OrbView>, order: Seq<u128>) -> Seq<OrbView> {
    Seq::new(order.len(), |i: int| orbs[order[i]])
}

/// Whether writing a snapshot may end so. It holds every entity once; without a
/// store nothing is written.
pub open spec fn persists(
    h: HostView,
    s: RuntimeView,
    saved_ms: u64,
    fault: Option<ErrorView>,
) -> bool {
    match s.store {
        None => fault is None,
        Some(store) => exists|order: Seq<u128>| #[trigger]
            maps::lists(order, s.orbs.dom()) && (h.disk.save)(
                store,
                SnapshotView { saved_at_ms: saved_ms, orbs: in_order(s.orbs, order) },
                fault,
            ),
    }
}

/// Whether an operation may end so, once its event was written down with or
/// without a fault: a snapshot is written if there was none.
pub open spec fn concludes(
    h: HostView,
    s: RuntimeView,
    saved_ms: u64,
    recorded: Option<ErrorView>,
    fault: Option<ErrorView>,
) -> bool {
    match recorded {
        Some(reason) => fault == Some(reason),
        None => persists(h, s, saved_ms, fault),
    }
}

// ---------------------------------------------------------------------------
// Operations
// ---------------------------------------------------------------------------

/// What went wrong, if anything.
pub open spec fn fault_in<T>(result: Result<T, PiriaError>) -> Option<ErrorView> {
    match result {
        Ok(_) => None,
        Err(error) => Some(error@),
    }
}

/// Whether creating an entity leads from one state to another, with or without a
/// fault.
pub open spec fn creates(
    h: HostView,
    moment: Moment,
    s: RuntimeView,
    semantic_vector: Seq<Single>,
    probability_field: Seq<Single>,
    permissions: Permissions,
    after: RuntimeView,
    fault: Option<ErrorView>,
) -> bool {
    let now = advanced(s, moment);
    let id = moment.new_id;
    let orb = orb::newborn(
        h.m,
        id,
        semantic_vector,
        probability_field,
        permissions,
        now.clock,
        moment.trust_ms,
    );
    let payload = PayloadView::OrbCreated {
        initial_trust: orb.trust.score,
        permissions_bits: permissions.bits,
        probability_categories: probability_field.len() as usize,
    };
    match next_event(h, now, moment, id, payload) {
        Err(reason) => after == now && fault == Some(reason),
        Ok(e) => exists|recorded: Option<ErrorView>| #[trigger]
            appends(h, now, e, RuntimeView { orbs: now.orbs, ..after }, recorded) && after.orbs
                == (if recorded is None {
                now.orbs.insert(id, noted(orb, e.event_id))
            } else {
                now.orbs
            }) && concludes(h, after, moment.saved_ms, recorded, fault),
    }
}

/// The relation that an entity gets to another.
pub open spec fn new_relation(
    m: Arithmetic,
    moment: Moment,
    source: OrbView,
    target_orb_id: u128,
    relation_type: RelationType,
    weight: Single,
    timestamp: HlcTimestamp,
) -> RelationRef {
    relation::relation_of(
        moment.new_id,
        target_orb_id,
        relation_type,
        weight,
        trust::effective(m, source.trust, moment.trust_ms),
        timestamp,
        moment.used_ms,
    )
}

/// Whether adding a relation leads from one state to another, with or without a
/// fault. Both entities have to be there, and there has to be room.
pub open spec fn relates(
    h: HostView,
    moment: Moment,
    s: RuntimeView,
    source_orb_id: u128,
    target_orb_id: u128,
    relation_type: RelationType,
    weight: Single,
    after: RuntimeView,
    fault: Option<ErrorView>,
) -> bool {
    let now = advanced(s, moment);
    let source = now.orbs[source_orb_id];
    let kept = orb::room_made(source.relations, source.degree_budget);
    let related = orb::sealed(
        OrbView {
            relations: kept.push(
                new_relation(
                    h.m,
                    moment,
                    source,
                    target_orb_id,
                    relation_type,
                    weight,
                    now.clock,
                ),
            ),
            updated_at: now.clock,
            semantic_mass_dirty: true,
            ..source
        },
    );
    let changed = RuntimeView { orbs: now.orbs.insert(source_orb_id, related), ..now };
    let payload = PayloadView::RelationAdded {
        target_orb_id,
        relation_type: relation::label(relation_type),
        weight: weight.unit(),
        edge_id: moment.new_id,
    };
    if !now.orbs.contains_key(source_orb_id) {
        after == now && fault == Some(ErrorView::OrbNotFound(source_orb_id))
    } else if !now.orbs.contains_key(target_orb_id) {
        after == now && fault == Some(ErrorView::OrbNotFound(target_orb_id))
    } else if kept.len() >= source.degree_budget {
        after == (RuntimeView {
            orbs: now.orbs.insert(source_orb_id, orb::crowded(source)),
            ..now
        }) && fault == Some(
            ErrorView::DegreeBudgetExceeded {
                orb_id: source.identity,
                budget: source.degree_budget,
            },
        )
    } else {
        exists|recorded: Option<ErrorView>| #[trigger]
            records(h, moment, changed, source_orb_id, payload, after, recorded) && concludes(
                h,
                after,
                moment.saved_ms,
                recorded,
                fault,
            )
    }
}

/// The entropy of an entity, computed again where that is due.
pub open spec fn current_entropy(m: Arithmetic, orb: OrbView) -> Single {
    if orb.entropy_dirty {
        belief::shannon(m, orb.probability_field)
    } else {
        orb.entropy
    }
}

/// An entity with its entropy brought up to date.
pub open spec fn weighed(m: Arithmetic, orb: OrbView) -> OrbView {
    OrbView { entropy: current_entropy(m, orb), entropy_dirty: false, ..orb }
}

/// Whether observations are accepted: one number for each category, none of them
/// negative.
pub open spec fn acceptable(field: Seq<Single>, observations: Seq<Single>) -> bool {
    observations.len() == field.len() && belief::refusal(observations) == observations.len()
}

/// Whether revising a belief leads from one state to another, with or without a
/// fault, and with these alerts. The entropy of all entities is sampled after
/// the event was written down and before the snapshot is.
pub open spec fn revises(
    h: HostView,
    moment: Moment,
    s: RuntimeView,
    orb_id: u128,
    observations: Seq<Single>,
    after: RuntimeView,
    alerts: Seq<EntropyAlert>,
    fault: Option<ErrorView>,
) -> bool {
    let now = advanced(s, moment);
    let orb = weighed(h.m, now.orbs[orb_id]);
    let field = belief::observed(h.m, orb.probability_field, observations);
    let revised = weighed(
        h.m,
        orb::sealed(
            OrbView {
                probability_field: field,
                entropy_dirty: true,
                updated_at: now.clock,
                ..orb
            },
        ),
    );
    let changed = RuntimeView { orbs: now.orbs.insert(orb_id, revised), ..now };
    let payload = PayloadView::BeliefRevised {
        new_alpha: field,
        previous_entropy: orb.entropy,
        new_entropy: revised.entropy,
    };
    if !now.orbs.contains_key(orb_id) {
        after == now && fault == Some(ErrorView::OrbNotFound(orb_id))
    } else if !acceptable(orb.probability_field, observations) {
        after == (RuntimeView {
            orbs: now.orbs.insert(orb_id, orb::half_observed(h.m, orb, observations)),
            ..now
        }) && fault == Some(
            ErrorView::InvalidProbabilityField { categories: observations.len() as usize },
        )
    } else {
        exists|recorded: Option<ErrorView>, middle: RuntimeView| #[trigger]
            records(h, moment, changed, orb_id, payload, middle, recorded) && (match recorded {
                Some(reason) => after == middle && fault == Some(reason),
                None => observes(h.m, moment.sampled_ms, middle, after, alerts) && persists(
                    h,
                    after,
                    moment.saved_ms,
                    fault,
                ),
            })
    }
}

/// Whether a step in the life cycle leads from one state to another, with or
/// without a fault.
pub open spec fn transits(
    h: HostView,
    moment: Moment,
    s: RuntimeView,
    orb_id: u128,
    next: SemanticState,
    after: RuntimeView,
    fault: Option<ErrorView>,
) -> bool {
    let now = advanced(s, moment);
    let orb = now.orbs[orb_id];
    let moved = orb::sealed(
        OrbView { semantic_state: next, updated_at: now.clock, ..orb },
    );
    let changed = RuntimeView { orbs: now.orbs.insert(orb_id, moved), ..now };
    let payload = PayloadView::OrbStateChanged { from_state: orb.semantic_state, to_state: next };
    if !now.orbs.contains_key(orb_id) {
        after == now && fault == Some(ErrorView::OrbNotFound(orb_id))
    } else if !orb::leads_to(orb.semantic_state, next) {
        after == now && fault == Some(
            ErrorView::InvalidStateTransition { from: orb.semantic_state, to: next },
        )
    } else {
        exists|recorded: Option<ErrorView>| #[trigger]
            records(h, moment, changed, orb_id, payload, after, recorded) && concludes(
                h,
                after,
                moment.saved_ms,
                recorded,
                fault,
            )
    }
}

// ---------------------------------------------------------------------------
// Entropy
// ---------------------------------------------------------------------------

/// The share of the largest entropy that an entity has.
pub open spec fn entropy_share(m: Arithmetic, orb: OrbView) -> Single {
    entropy::share_of(
        m,
        OrbEntropySample {
            orb_id: orb.identity,
            entropy_bits: current_entropy(m, orb),
            max_entropy_bits: belief::largest_entropy(m, orb.probability_field.len()),
            sampled_at_ms: 0,
        },
    )
}

/// The shares of the active ones among these entities.
pub open spec fn active_shares(m: Arithmetic, orbs: Seq<OrbView>) -> Seq<Single>
    decreases orbs.len(),
{
    if orbs.len() == 0 {
        Seq::empty()
    } else if orbs.last().semantic_state == SemanticState::Active {
        active_shares(m, orbs.drop_last()).push(entropy_share(m, orbs.last()))
    } else {
        active_shares(m, orbs.drop_last())
    }
}

/// The mean share of the active entities, zero where there are none.
pub open spec fn field_sample(m: Arithmetic, orbs: Seq<OrbView>, now: u64) -> FieldEntropySnapshot {
    let shares = active_shares(m, orbs);
    FieldEntropySnapshot {
        mean_normalized_entropy: if shares.len() == 0 {
            Single { bits: 0 }
        } else {
            fpu::quotient(
                m,
                numeric::total(m, shares),
                fpu::single_of(m, shares.len() as u64),
            )
        },
        active_orb_count: shares.len() as u64,
        sampled_at_ms: now,
    }
}

/// The active ones among these entities.
pub open spec fn actives(orbs: Seq<OrbView>) -> Seq<OrbView> {
    orbs.filter(|orb: OrbView| orb.semantic_state == SemanticState::Active)
}

/// Whether a sample is that of the active ones among these entities: it counts them, and
/// in arithmetic that rounds its mean is the exact sum of their shares, divided by their
/// number, but for rounding; it is zero where there are none.
pub open spec fn averages(m: Arithmetic, orbs: Seq<OrbView>, sample: FieldEntropySnapshot) -> bool {
    let live = actives(orbs);
    let shares = live.map_values(|orb: OrbView| entropy_share(m, orb));
    let mean = sample.mean_normalized_entropy;
    &&& live.len() <= u64::MAX ==> sample.active_orb_count == live.len()
    &&& live.len() == 0 ==> mean == (Single { bits: 0 })
    &&& rounding::rounds(m) && doubles::rounds_wide(m) && rounding::countable(live.len())
        && live.len() > 0 ==> {
        &&& mean.finite()
        &&& rounding::size(
            rounding::value(mean) * (live.len() as real) - rounding::plus(shares),
        ) <= doubles::mean_error(live.len()) * (live.len() as real)
    }
}

/// Whether a monitor has taken in a sample of the active ones among all entities, made at a
/// time.
pub open spec fn samples(m: Arithmetic, now: u64, s: RuntimeView, after: RuntimeView) -> bool {
    exists|order: Seq<u128>, sample: FieldEntropySnapshot|
        maps::lists(order, s.orbs.dom()) && #[trigger] averages(
            m,
            in_order(s.orbs, order),
            sample,
        ) && sample.sampled_at_ms == now && after.monitor == entropy::ingested(
            m,
            s.monitor,
            sample,
        )
}

proof fn lemma_active_shares(m: Arithmetic, orbs: Seq<OrbView>)
    ensures
        active_shares(m, orbs) == actives(orbs).map_values(|orb: OrbView| entropy_share(m, orb)),
    decreases orbs.len(),
{
    reveal(Seq::filter);
    let f = |orb: OrbView| entropy_share(m, orb);
    if orbs.len() > 0 {
        lemma_active_shares(m, orbs.drop_last());
        let live = actives(orbs.drop_last());
        assert(live.push(orbs.last()).map_values(f) =~= live.map_values(f).push(f(orbs.last())));
    } else {
        assert(actives(orbs).map_values(f) =~= Seq::<Single>::empty());
    }
    assert(active_shares(m, orbs) =~= actives(orbs).map_values(f));
}

proof fn lemma_averages(m: Arithmetic, orbs: Seq<OrbView>, now: u64)
    ensures
        averages(m, orbs, field_sample(m, orbs, now)),
{
    lemma_active_shares(m, orbs);
    let live = actives(orbs);
    let shares = live.map_values(|orb: OrbView| entropy_share(m, orb));
    let n = live.len() as real;
    if rounding::rounds(m) && doubles::rounds_wide(m) && rounding::countable(live.len())
        && live.len() > 0 {
        assert forall|i: int| 0 <= i < shares.len() implies (#[trigger] shares[i]).finite()
            && 0 as real <= rounding::value(shares[i]) <= 1 as real by {
            lemma_share_value(m, live[i]);
        }
        doubles::lemma_mean(m, shares);
        let v = rounding::value(field_sample(m, orbs, now).mean_normalized_entropy);
        let x = rounding::plus(shares);
        let e = doubles::mean_error(live.len());
        assert(-(e * n) <= v * n - x <= e * n) by (nonlinear_arith)
            requires
                -e <= v - x / n <= e,
                n >= 1 as real,
        ;
    }
}

proof fn lemma_share_value(m: Arithmetic, orb: OrbView)
    ensures
        entropy_share(m, orb).finite(),
        0 as real <= rounding::value(entropy_share(m, orb)) <= 1 as real,
{
    rounding::lemma_constants();
    rounding::lemma_in_unit(
        fpu::quotient(
            m,
            current_entropy(m, orb),
            belief::largest_entropy(m, orb.probability_field.len()),
        ),
    );
}

/// The mean entropy of a field lies between the smallest and the largest share of its
/// active entities, but for rounding, so it is no larger than one.
pub proof fn means_lie_among_shares(
    m: Arithmetic,
    orbs: Seq<OrbView>,
    sample: FieldEntropySnapshot,
    low: real,
    high: real,
)
    requires
        averages(m, orbs, sample),
        rounding::rounds(m),
        doubles::rounds_wide(m),
        rounding::countable(orbs.len()),
        exists|i: int|
            0 <= i < orbs.len() && (#[trigger] orbs[i]).semantic_state == SemanticState::Active,
        forall|i: int|
            0 <= i < orbs.len() && (#[trigger] orbs[i]).semantic_state == SemanticState::Active
                ==> low <= rounding::value(entropy_share(m, orbs[i])) <= high,
    ensures
        sample.active_orb_count >= 1,
        low - doubles::mean_error(orbs.len()) <= rounding::value(sample.mean_normalized_entropy),
        rounding::value(sample.mean_normalized_entropy) <= high + doubles::mean_error(orbs.len()),
        rounding::value(sample.mean_normalized_entropy) <= 1 as real + doubles::mean_error(
            orbs.len(),
        ),
{
    let live = actives(orbs);
    let keep = |orb: OrbView| orb.semantic_state == SemanticState::Active;
    let shares = live.map_values(|orb: OrbView| entropy_share(m, orb));
    orbs.lemma_filter_len(keep);
    let w = choose|i: int|
        0 <= i < orbs.len() && (#[trigger] orbs[i]).semantic_state == SemanticState::Active;
    assert(keep(orbs[w]));
    orbs.lemma_filter_contains(keep, w);
    assert(live.contains(orbs[w]));
    assert(live.len() > 0);
    assert forall|i: int| 0 <= i < shares.len() implies low <= rounding::value(#[trigger] shares[i])
        <= high && rounding::value(shares[i]) <= 1 as real by {
        orbs.lemma_filter_pred(keep, i);
        assert(keep(live[i]));
        assert(live.contains(live[i]));
        orbs.lemma_filter_contains_rev(keep, live[i]);
        lemma_share_value(m, live[i]);
    }
    rounding::lemma_plus_between(shares, low, high);
    assert forall|i: int| 0 <= i < shares.len() implies 0 as real <= rounding::value(
        #[trigger] shares[i],
    ) <= 1 as real by {
        lemma_share_value(m, live[i]);
    }
    rounding::lemma_plus_between(shares, 0 as real, 1 as real);
    let n = live.len() as real;
    let v = rounding::value(sample.mean_normalized_entropy);
    let x = rounding::plus(shares);
    let e = doubles::mean_error(live.len());
    assert(low - e <= v && v <= high + e && v <= 1 as real + e) by (nonlinear_arith)
        requires
            -(e * n) <= v * n - x <= e * n,
            low * n <= x <= high * n,
            x <= n,
            n >= 1 as real,
    ;
}

/// Entities with the entropy of the active ones brought up to date.
pub open spec fn all_weighed(m: Arithmetic, orbs: Map<u128, OrbView>) -> Map<u128, OrbView> {
    orbs.map_values(
        |orb: OrbView|
            if orb.semantic_state == SemanticState::Active {
                weighed(m, orb)
            } else {
                orb
            },
    )
}

/// Whether watching the entropy leads from one state to another, with these
/// alerts. The entities are taken in some order.
pub open spec fn observes(
    m: Arithmetic,
    now: u64,
    s: RuntimeView,
    after: RuntimeView,
    alerts: Seq<EntropyAlert>,
) -> bool {
    exists|order: Seq<u128>| #[trigger]
        maps::lists(order, s.orbs.dom()) && ({
            let sample = field_sample(m, in_order(s.orbs, order), now);
            &&& after == (RuntimeView {
                orbs: all_weighed(m, s.orbs),
                monitor: entropy::ingested(m, s.monitor, sample),
                ..s
            })
            &&& alerts == entropy::alerts_of(
                m,
                s.monitor,
                entropy::sane_share(sample.mean_normalized_entropy),
                now,
            )
        })
}

/// The graph that entities make up at a time.
pub open spec fn graph_of(m: Arithmetic, orbs: Seq<OrbView>, now: u64) -> Map<u128, NodeData>
    decreases orbs.len(),
{
    if orbs.len() == 0 {
        Map::empty()
    } else {
        graph_of(m, orbs.drop_last(), now).insert(
            orbs.last().identity,
            traversal::node_of(m, orbs.last(), now),
        )
    }
}

/// The number of events in these logs.
pub open spec fn events_in(logs: Map<u128, LogView>, order: Seq<u128>) -> nat
    decreases order.len(),
{
    if order.len() == 0 {
        0
    } else {
        events_in(logs, order.drop_last()) + logs[order.last()].events.len()
    }
}

// ---------------------------------------------------------------------------
// The node
// ---------------------------------------------------------------------------

proof fn lemma_admitted_sticks(orbs: Seq<OrbView>, i: int)
    requires
        0 <= i <= orbs.len(),
    ensures
        admitted(orbs.take(i)) is Err ==> admitted(orbs) == admitted(orbs.take(i)),
    decreases orbs.len() - i,
{
    if i == orbs.len() {
        assert(orbs.take(i) =~= orbs);
    } else {
        lemma_admitted_sticks(orbs, i + 1);
        assert(orbs.take(i + 1).drop_last() =~= orbs.take(i));
    }
}


impl PiriaRuntime {
    pub fn new(node_id: &str) -> (runtime: Self)
        ensures
            runtime@ == fresh_node(node_id@),
    {
        let runtime = PiriaRuntime {
            node_id: node_id.to_owned(),
            clock: HlcClock::new(),
            vector_clock: VectorClock::new(),
            event_builder: EventBuilder::new(node_id),
            orbs: HashMap::new(),
            event_logs: HashMap::new(),
            entropy_monitor: EntropyMonitor::new(),
            store: None,
        };
        assert(runtime@.orbs =~= Map::empty());
        assert(runtime@.logs =~= Map::empty());
        runtime
    }

    /// The node that a snapshot, if there is one, and a journal make up.
    pub fn open_persistent<
        E: Fn(&EventPayload) -> Result<Vec<u8>, String>,
        D: Fn(&str) -> Result<Event, String>,
    >(
        codec: &Codec<E, D>,
        node_id: &str,
        store: JsonGraphStore,
        snapshot: Option<GraphSnapshot>,
        wal: Result<Vec<Result<String, String>>, String>,
    ) -> (result: Result<PiriaRuntime, PiriaError>)
        ensures
            match (
                result,
                reopened(
                    codec@,
                    node_id@,
                    store@,
                    match snapshot {
                        Some(all) => Some(all@),
                        None => None,
                    },
                    storage::wal_view(wal),
                ),
            ) {
                (Ok(runtime), Ok(view)) => runtime@ == view,
                (Err(error), Err(fault)) => error@ == fault,
                _ => false,
            },
    {
        let mut runtime = PiriaRuntime::new(node_id);
        if let Some(all) = snapshot {
            let ghost views = storage::orb_views(all.orbs@);
            let ghost empty = runtime@;
            let mut i: usize = 0;
            assert(views.take(0) =~= Seq::empty());
            while i < all.orbs.len()
                invariant
                    i <= all.orbs@.len(),
                    views == storage::orb_views(all.orbs@),
                    snapshot matches Some(whole) && whole@.orbs == views,
                    empty == fresh_node(node_id@),
                    runtime@ == (RuntimeView { orbs: runtime@.orbs, ..empty }),
                    admitted(views.take(i as int)) == Ok::<Map<u128, OrbView>, ErrorView>(
                        runtime@.orbs,
                    ),
                decreases all.orbs@.len() - i,
            {
                proof {
                    assert(views.take(i + 1).drop_last() =~= views.take(i as int));
                    assert(views.take(i + 1).last() == views[i as int]);
                    lemma_admitted_sticks(views, i + 1);
                }
                let orb = all.orbs[i].clone();
                match orb.verify_integrity() {
                    Err(error) => {
                        return Err(error);
                    },
                    Ok(()) => {},
                }
                let ghost before = runtime@.orbs;
                let identity: u128 = orb.identity;
                runtime.orbs.insert(identity, orb);
                assert(runtime@.orbs =~= before.insert(identity, orb@));
                i += 1;
            }
            assert(views.take(i as int) =~= views);
        }
        match JsonGraphStore::load_event_logs(codec, wal) {
            Err(error) => {
                return Err(error);
            },
            Ok(logs) => {
                runtime.event_logs = logs;
            },
        }
        runtime.store = Some(store);
        Ok(runtime)
    }

    /// The name of the node.
    pub fn node_id(&self) -> (name: &str)
        ensures
            name@ == self@.node_id,
    {
        self.node_id.as_str()
    }

    /// The number of entities.
    pub fn orb_count(&self) -> (result: usize)
        ensures
            result == self@.orbs.len(),
    {
        assert(self@.orbs.dom() =~= self.orbs@.dom());
        self.orbs.len()
    }

    /// The identifiers of all entities, in no particular order.
    pub fn orb_ids(&self) -> (ids: Vec<u128>)
        ensures
            maps::lists(ids@, self@.orbs.dom()),
    {
        assert(self@.orbs.dom() =~= self.orbs@.dom());
        keys_of(&self.orbs)
    }

    /// The number of events in all logs, as far as a machine integer holds it.
    pub fn event_count(&self) -> (result: usize)
        ensures
            exists|order: Seq<u128>| #[trigger]
                maps::lists(order, self@.logs.dom()) && result == (if events_in(self@.logs, order)
                    <= usize::MAX {
                    events_in(self@.logs, order)
                } else {
                    usize::MAX as nat
                }),
    {
        let order = keys_of(&self.event_logs);
        assert(self@.logs.dom() =~= self.event_logs@.dom());
        let ghost logs = self@.logs;
        let mut count: usize = 0;
        let mut i: usize = 0;
        while i < order.len()
            invariant
                i <= order@.len(),
                logs == self@.logs,
                maps::lists(order@, self.event_logs@.dom()),
                count == (if events_in(logs, order@.take(i as int)) <= usize::MAX {
                    events_in(logs, order@.take(i as int))
                } else {
                    usize::MAX as nat
                }),
            decreases order@.len() - i,
        {
            proof {
                maps::lemma_take_grows(order@, i as int);
                assert(order@.take(i + 1).drop_last() =~= order@.take(i as int));
                assert(self.event_logs@.contains_key(order@[i as int]));
            }
            if let Some(log) = self.event_logs.get(&order[i]) {
                count = count.saturating_add(log.len());
            }
            i += 1;
        }
        assert(order@.take(i as int) =~= order@);
        assert(maps::lists(order@, self@.logs.dom()));
        count
    }

    /// The entity with an identifier, if there is one.
    pub fn get_orb(&self, orb_id: u128) -> (found: Option<&Orb>)
        ensures
            found is Some <==> self@.orbs.contains_key(orb_id),
            found matches Some(orb) ==> orb@ == self@.orbs[orb_id],
    {
        self.orbs.get(&orb_id)
    }

    /// The entity with an identifier, if there is one, to be changed.
    pub fn get_orb_mut(&mut self, orb_id: u128) -> (found: Option<&mut Orb>)
        ensures
            match found {
                Some(orb) => old(self)@.orbs.contains_key(orb_id) && orb@ == old(
                    self,
                )@.orbs[orb_id] && final(self)@ == (RuntimeView {
                    orbs: old(self)@.orbs.insert(orb_id, final(orb)@),
                    ..old(self)@
                }),
                None => !old(self)@.orbs.contains_key(orb_id) && final(self)@ == old(self)@,
            },
    {
        match self.orbs.entry(orb_id) {
            Entry::Occupied(entry) => Some(entry.into_mut()),
            Entry::Vacant(_) => None,
        }
    }

    /// The log of an entity, if there is one.
    pub fn event_log(&self, orb_id: u128) -> (found: Option<&OrbEventLog>)
        ensures
            found is Some <==> self@.logs.contains_key(orb_id),
            found matches Some(log) ==> log@ == self@.logs[orb_id],
    {
        self.event_logs.get(&orb_id)
    }

    /// Whether the node can count one more event.
    pub fn has_capacity(&self) -> (result: bool)
        ensures
            result == can_count(self@),
    {
        self.vector_clock.counter(self.event_builder.node()) < u64::MAX
    }

    fn build_event<
        F: Fn(Flop) -> u64,
        E: Fn(&EventPayload) -> Result<Vec<u8>, String>,
        D: Fn(&str) -> Result<Event, String>,
        J: Fn(&JsonGraphStore, &Event) -> Result<(), PiriaError>,
        S: Fn(&JsonGraphStore, &GraphSnapshot) -> Result<(), PiriaError>,
    >(
        &self,
        host: &Host<F, E, D, J, S>,
        moment: Moment,
        orb_id: u128,
        payload: EventPayload,
        timestamp: HlcTimestamp,
    ) -> (result: Result<Event, PiriaError>)
        requires
            can_count(self@),
            timestamp == self@.clock,
        ensures
            event::event_is(result, next_event(host@, self@, moment, orb_id, payload@)),
    {
        let prev = match self.event_logs.get(&orb_id) {
            Some(log) => log.head_hash(),
            None => OrbEventLog::new(orb_id).head_hash(),
        };
        self.event_builder.build_with(
            &host.codec,
            moment.event_id,
            moment.event_ms,
            orb_id,
            ActorId::System,
            payload,
            timestamp,
            self.vector_clock.clone(),
            prev,
        )
    }

    fn append_event<
        F: Fn(Flop) -> u64,
        E: Fn(&EventPayload) -> Result<Vec<u8>, String>,
        D: Fn(&str) -> Result<Event, String>,
        J: Fn(&JsonGraphStore, &Event) -> Result<(), PiriaError>,
        S: Fn(&JsonGraphStore, &GraphSnapshot) -> Result<(), PiriaError>,
    >(&mut self, host: &Host<F, E, D, J, S>, event: Event) -> (result: Result<
        (),
        PiriaError,
    >)
        ensures
            appends(host@, old(self)@, event@, final(self)@, storage::fault_of(result)),
    {
        match event.verify_hash(&host.codec) {
            Err(error) => {
                return Err(error);
            },
            Ok(()) => {},
        }
        let ghost before = self@;
        let orb_id: u128 = event.orb_id;
        let mut log = match self.event_logs.remove(&orb_id) {
            Some(log) => log,
            None => OrbEventLog::new(orb_id),
        };
        assert(log@ == storage::log_of(before.logs, orb_id));
        let appended = log.append(&host.codec, event.clone());
        self.event_logs.insert(orb_id, log);
        assert(self@.logs =~= before.logs.insert(orb_id, log@));
        match appended {
            Err(error) => {
                return Err(error);
            },
            Ok(()) => {},
        }
        if let Some(store) = &self.store {
            match store.append_event(&host.codec, &host.disk, &event) {
                Err(error) => {
                    return Err(error);
                },
                Ok(()) => {},
            }
        }
        self.vector_clock = event.vector_clock;
        Ok(())
    }

    fn record<
        F: Fn(Flop) -> u64,
        E: Fn(&EventPayload) -> Result<Vec<u8>, String>,
        D: Fn(&str) -> Result<Event, String>,
        J: Fn(&JsonGraphStore, &Event) -> Result<(), PiriaError>,
        S: Fn(&JsonGraphStore, &GraphSnapshot) -> Result<(), PiriaError>,
    >(
        &mut self,
        host: &Host<F, E, D, J, S>,
        moment: Moment,
        orb_id: u128,
        payload: EventPayload,
        timestamp: HlcTimestamp,
    ) -> (result: Result<(), PiriaError>)
        requires
            can_count(old(self)@),
            timestamp == old(self)@.clock,
            old(self)@.orbs.contains_key(orb_id),
        ensures
            records(
                host@,
                moment,
                old(self)@,
                orb_id,
                payload@,
                final(self)@,
                storage::fault_of(result),
            ),
    {
        let event = match self.build_event(host, moment, orb_id, payload, timestamp) {
            Err(error) => {
                return Err(error);
            },
            Ok(event) => event,
        };
        self.append_event_and_record(host, orb_id, event)
    }

    fn append_event_and_record<
        F: Fn(Flop) -> u64,
        E: Fn(&EventPayload) -> Result<Vec<u8>, String>,
        D: Fn(&str) -> Result<Event, String>,
        J: Fn(&JsonGraphStore, &Event) -> Result<(), PiriaError>,
        S: Fn(&JsonGraphStore, &GraphSnapshot) -> Result<(), PiriaError>,
    >(
        &mut self,
        host: &Host<F, E, D, J, S>,
        orb_id: u128,
        event: Event,
    ) -> (result: Result<(), PiriaError>)
        requires
            old(self)@.orbs.contains_key(orb_id),
        ensures
            appends(
                host@,
                old(self)@,
                event@,
                RuntimeView { orbs: old(self)@.orbs, ..final(self)@ },
                storage::fault_of(result),
            ),
            final(self)@.orbs == (if result is Ok {
                old(self)@.orbs.insert(orb_id, noted(old(self)@.orbs[orb_id], event.event_id))
            } else {
                old(self)@.orbs
            }),
    {
        let event_id: u128 = event.event_id;
        match self.append_event(host, event) {
            Err(error) => {
                return Err(error);
            },
            Ok(()) => {},
        }
        let ghost middle = self@;
        assert(self.orbs@.contains_key(orb_id));
        if let Some(mut orb) = self.orbs.remove(&orb_id) {
            orb.record_event(event_id);
            self.orbs.insert(orb_id, orb);
            assert(self@.orbs =~= middle.orbs.insert(
                orb_id,
                noted(middle.orbs[orb_id], event_id),
            ));
        }
        assert(RuntimeView { orbs: middle.orbs, ..self@ } =~= middle);
        Ok(())
    }

    fn all_orbs(&self) -> (result: (Vec<Orb>, Ghost<Seq<u128>>))
        ensures
            maps::lists(result.1@, self@.orbs.dom()),
            storage::orb_views(result.0@) == in_order(self@.orbs, result.1@),
    {
        let order = keys_of(&self.orbs);
        assert(self@.orbs.dom() =~= self.orbs@.dom());
        let mut all: Vec<Orb> = Vec::new();
        let mut i: usize = 0;
        while i < order.len()
            invariant
                i <= order@.len(),
                maps::lists(order@, self.orbs@.dom()),
                all@.len() == i,
                forall|j: int| 0 <= j < i ==> (#[trigger] all@[j])@ == self@.orbs[order@[j]],
            decreases order@.len() - i,
        {
            proof {
                maps::lemma_take_grows(order@, i as int);
                assert(self.orbs@.contains_key(order@[i as int]));
            }
            if let Some(orb) = self.orbs.get(&order[i]) {
                let copy = orb.clone();
                all.push(copy);
            }
            i += 1;
        }
        assert(storage::orb_views(all@) =~= in_order(self@.orbs, order@));
        (all, Ghost(order@))
    }

    /// Writes a snapshot as of `saved_ms`, where there is a store.
    pub fn persist_snapshot_at<
        F: Fn(Flop) -> u64,
        E: Fn(&EventPayload) -> Result<Vec<u8>, String>,
        D: Fn(&str) -> Result<Event, String>,
        J: Fn(&JsonGraphStore, &Event) -> Result<(), PiriaError>,
        S: Fn(&JsonGraphStore, &GraphSnapshot) -> Result<(), PiriaError>,
    >(&self, host: &Host<F, E, D, J, S>, saved_ms: u64) -> (result:
        Result<(), PiriaError>)
        ensures
            persists(host@, self@, saved_ms, storage::fault_of(result)),
    {
        match &self.store {
            None => Ok(()),
            Some(store) => {
                let (all, order) = self.all_orbs();
                let result = store.save_snapshot_at(&host.disk, all, saved_ms);
                assert(maps::lists(order@, self@.orbs.dom()));
                result
            },
        }
    }

    /// Writes a snapshot, where there is a store.
    pub fn persist_snapshot<
        F: Fn(Flop) -> u64,
        E: Fn(&EventPayload) -> Result<Vec<u8>, String>,
        D: Fn(&str) -> Result<Event, String>,
        J: Fn(&JsonGraphStore, &Event) -> Result<(), PiriaError>,
        S: Fn(&JsonGraphStore, &GraphSnapshot) -> Result<(), PiriaError>,
    >(&self, host: &Host<F, E, D, J, S>) -> (result: Result<(), PiriaError>)
        ensures
            exists|saved_ms: u64| #[trigger]
                persists(host@, self@, saved_ms, storage::fault_of(result)),
    {
        self.persist_snapshot_at(host, now_ms())
    }

    /// Creates an entity.
    pub fn create_orb_with<
        F: Fn(Flop) -> u64,
        E: Fn(&EventPayload) -> Result<Vec<u8>, String>,
        D: Fn(&str) -> Result<Event, String>,
        J: Fn(&JsonGraphStore, &Event) -> Result<(), PiriaError>,
        S: Fn(&JsonGraphStore, &GraphSnapshot) -> Result<(), PiriaError>,
    >(
        &mut self,
        host: &Host<F, E, D, J, S>,
        moment: Moment,
        semantic_vector: SemanticVector,
        probability_field: ProbabilityField,
        permissions: Permissions,
    ) -> (result: Result<u128, PiriaError>)
        requires
            can_count(old(self)@),
        ensures
            creates(
                host@,
                moment,
                old(self)@,
                semantic_vector@,
                probability_field@,
                permissions,
                final(self)@,
                fault_in(result),
            ),
            result matches Ok(id) ==> id == moment.new_id,
    {
        let timestamp = self.clock.now_at(moment.wall_ms);
        let ghost now = self@;
        assert(now =~= advanced(old(self)@, moment));
        let mut orb = Orb::with_identity(
            &host.fpu,
            moment.new_id,
            semantic_vector,
            probability_field,
            permissions,
            timestamp,
            moment.trust_ms,
        );
        let orb_id: u128 = orb.identity;
        let payload = EventPayload::OrbCreated {
            initial_trust: orb.trust.score,
            permissions_bits: orb.permissions.bits,
            probability_categories: orb.probability_field.categories(),
        };
        let event = match self.build_event(host, moment, orb_id, payload, timestamp) {
            Err(error) => {
                return Err(error);
            },
            Ok(event) => event,
        };
        let event_id: u128 = event.event_id;
        let ghost e = event@;
        let appended = self.append_event(host, event);
        let ghost middle = self@;
        let ghost recorded = storage::fault_of(appended);
        assert(appends(host@, now, e, middle, recorded));
        assert(middle =~= (RuntimeView { orbs: now.orbs, ..middle }));
        match appended {
            Err(error) => {
                assert(concludes(host@, self@, moment.saved_ms, recorded, Some(error@)));
                return Err(error);
            },
            Ok(()) => {},
        }
        orb.record_event(event_id);
        let ghost born = orb@;
        self.orbs.insert(orb_id, orb);
        assert(self@.orbs =~= now.orbs.insert(orb_id, born));
        assert(RuntimeView { orbs: now.orbs, ..self@ } =~= middle);
        match self.persist_snapshot_at(host, moment.saved_ms) {
            Err(error) => Err(error),
            Ok(()) => Ok(orb_id),
        }
    }

    /// Creates an entity.
    pub fn create_orb<
        F: Fn(Flop) -> u64,
        E: Fn(&EventPayload) -> Result<Vec<u8>, String>,
        D: Fn(&str) -> Result<Event, String>,
        J: Fn(&JsonGraphStore, &Event) -> Result<(), PiriaError>,
        S: Fn(&JsonGraphStore, &GraphSnapshot) -> Result<(), PiriaError>,
    >(
        &mut self,
        host: &Host<F, E, D, J, S>,
        semantic_vector: SemanticVector,
        probability_field: ProbabilityField,
        permissions: Permissions,
    ) -> (result: Result<u128, PiriaError>)
        requires
            can_count(old(self)@),
        ensures
            exists|moment: Moment| #[trigger]
                creates(
                    host@,
                    moment,
                    old(self)@,
                    semantic_vector@,
                    probability_field@,
                    permissions,
                    final(self)@,
                    fault_in(result),
                ) && freshly_named(moment) && (result matches Ok(id) ==> id == moment.new_id),
            result matches Ok(id) ==> outside::time_ordered(id),
    {
        let moment = Moment::now();
        self.create_orb_with(host, moment, semantic_vector, probability_field, permissions)
    }

    /// Adds a relation between two entities.
    pub fn add_relation_with<
        F: Fn(Flop) -> u64,
        E: Fn(&EventPayload) -> Result<Vec<u8>, String>,
        D: Fn(&str) -> Result<Event, String>,
        J: Fn(&JsonGraphStore, &Event) -> Result<(), PiriaError>,
        S: Fn(&JsonGraphStore, &GraphSnapshot) -> Result<(), PiriaError>,
    >(
        &mut self,
        host: &Host<F, E, D, J, S>,
        moment: Moment,
        source_orb_id: u128,
        target_orb_id: u128,
        relation_type: RelationType,
        weight: Single,
    ) -> (result: Result<u128, PiriaError>)
        requires
            can_count(old(self)@),
        ensures
            relates(
                host@,
                moment,
                old(self)@,
                source_orb_id,
                target_orb_id,
                relation_type,
                weight,
                final(self)@,
                fault_in(result),
            ),
            result matches Ok(id) ==> id == moment.new_id,
    {
        let timestamp = self.clock.now_at(moment.wall_ms);
        let ghost now = self@;
        assert(now =~= advanced(old(self)@, moment));
        let trust_at_creation = match self.orbs.get(&source_orb_id) {
            Some(source) => source.trust.effective_score_at(&host.fpu, moment.trust_ms),
            None => {
                return Err(PiriaError::OrbNotFound(source_orb_id));
            },
        };
        if !self.orbs.contains_key(&target_orb_id) {
            return Err(PiriaError::OrbNotFound(target_orb_id));
        }
        let relation = RelationRef::with_id(
            moment.new_id,
            target_orb_id,
            relation_type,
            weight,
            trust_at_creation,
            timestamp,
            moment.used_ms,
        );
        let edge_id: u128 = relation.edge_id;
        match self.orbs.remove(&source_orb_id) {
            None => {
                return Err(PiriaError::OrbNotFound(source_orb_id));
            },
            Some(mut source) => {
                let added = source.add_relation(relation, timestamp);
                self.orbs.insert(source_orb_id, source);
                assert(self@.orbs =~= now.orbs.insert(source_orb_id, source@));
                match added {
                    Err(error) => {
                        return Err(error);
                    },
                    Ok(()) => {},
                }
            },
        }
        let payload = EventPayload::RelationAdded {
            target_orb_id,
            relation_type: relation_type.name(),
            weight: weight.to_unit(),
            edge_id,
        };
        let ghost changed = self@;
        let recorded = self.record(host, moment, source_orb_id, payload, timestamp);
        let ghost fault = storage::fault_of(recorded);
        assert(records(host@, moment, changed, source_orb_id, payload@, self@, fault));
        match recorded {
            Err(error) => {
                return Err(error);
            },
            Ok(()) => {},
        }
        match self.persist_snapshot_at(host, moment.saved_ms) {
            Err(error) => Err(error),
            Ok(()) => Ok(edge_id),
        }
    }

    /// Adds a relation between two entities.
    pub fn add_relation<
        F: Fn(Flop) -> u64,
        E: Fn(&EventPayload) -> Result<Vec<u8>, String>,
        D: Fn(&str) -> Result<Event, String>,
        J: Fn(&JsonGraphStore, &Event) -> Result<(), PiriaError>,
        S: Fn(&JsonGraphStore, &GraphSnapshot) -> Result<(), PiriaError>,
    >(
        &mut self,
        host: &Host<F, E, D, J, S>,
        source_orb_id: u128,
        target_orb_id: u128,
        relation_type: RelationType,
        weight: Single,
    ) -> (result: Result<u128, PiriaError>)
        requires
            can_count(old(self)@),
        ensures
            exists|moment: Moment| #[trigger]
                relates(
                    host@,
                    moment,
                    old(self)@,
                    source_orb_id,
                    target_orb_id,
                    relation_type,
                    weight,
                    final(self)@,
                    fault_in(result),
                ) && freshly_named(moment) && (result matches Ok(id) ==> id == moment.new_id),
            result matches Ok(id) ==> outside::time_ordered(id),
    {
        let moment = Moment::now();
        self.add_relation_with(host, moment, source_orb_id, target_orb_id, relation_type, weight)
    }

    /// Revises the belief of an entity.
    pub fn update_probability_field_with<
        F: Fn(Flop) -> u64,
        E: Fn(&EventPayload) -> Result<Vec<u8>, String>,
        D: Fn(&str) -> Result<Event, String>,
        J: Fn(&JsonGraphStore, &Event) -> Result<(), PiriaError>,
        S: Fn(&JsonGraphStore, &GraphSnapshot) -> Result<(), PiriaError>,
    >(
        &mut self,
        host: &Host<F, E, D, J, S>,
        moment: Moment,
        orb_id: u128,
        observations: &[Single],
    ) -> (result: Result<Vec<EntropyAlert>, PiriaError>)
        requires
            can_count(old(self)@),
        ensures
            result matches Ok(alerts) ==> revises(
                host@,
                moment,
                old(self)@,
                orb_id,
                observations@,
                final(self)@,
                alerts@,
                None,
            ),
            result matches Err(error) ==> exists|alerts: Seq<EntropyAlert>| #[trigger]
                revises(
                    host@,
                    moment,
                    old(self)@,
                    orb_id,
                    observations@,
                    final(self)@,
                    alerts,
                    Some(error@),
                ),
    {
        let timestamp = self.clock.now_at(moment.wall_ms);
        let ghost now = self@;
        let ghost none = Seq::<EntropyAlert>::empty();
        assert(now =~= advanced(old(self)@, moment));
        let mut orb = match self.orbs.remove(&orb_id) {
            Some(orb) => orb,
            None => {
                assert(self@.orbs =~= now.orbs);
                assert(self@ =~= now);
                let error = PiriaError::OrbNotFound(orb_id);
                assert(revises(
                    host@,
                    moment,
                    old(self)@,
                    orb_id,
                    observations@,
                    self@,
                    none,
                    Some(error@),
                ));
                return Err(error);
            },
        };
        let previous_entropy = orb.entropy(&host.fpu);
        assert(orb@ =~= weighed(host@.m, now.orbs[orb_id]));
        match orb.update_probability_field(&host.fpu, observations, timestamp) {
            Err(error) => {
                self.orbs.insert(orb_id, orb);
                assert(self@.orbs =~= now.orbs.insert(orb_id, orb@));
                assert(revises(
                    host@,
                    moment,
                    old(self)@,
                    orb_id,
                    observations@,
                    self@,
                    none,
                    Some(error@),
                ));
                return Err(error);
            },
            Ok(()) => {},
        }
        let new_entropy = orb.entropy(&host.fpu);
        let new_alpha = numeric::copy_numbers(&orb.probability_field.alpha);
        self.orbs.insert(orb_id, orb);
        assert(self@.orbs =~= now.orbs.insert(orb_id, orb@));
        let payload = EventPayload::BeliefRevised { new_alpha, previous_entropy, new_entropy };
        let ghost changed = self@;
        let recorded = self.record(host, moment, orb_id, payload, timestamp);
        let ghost fault = storage::fault_of(recorded);
        let ghost middle = self@;
        assert(records(host@, moment, changed, orb_id, payload@, middle, fault));
        match recorded {
            Err(error) => {
                assert(revises(
                    host@,
                    moment,
                    old(self)@,
                    orb_id,
                    observations@,
                    self@,
                    none,
                    Some(error@),
                ));
                return Err(error);
            },
            Ok(()) => {},
        }
        let alerts = self.observe_entropy_at(&host.fpu, moment.sampled_ms);
        match self.persist_snapshot_at(host, moment.saved_ms) {
            Err(error) => {
                assert(revises(
                    host@,
                    moment,
                    old(self)@,
                    orb_id,
                    observations@,
                    self@,
                    alerts@,
                    Some(error@),
                ));
                Err(error)
            },
            Ok(()) => Ok(alerts),
        }
    }

    /// Revises the belief of an entity.
    pub fn update_probability_field<
        F: Fn(Flop) -> u64,
        E: Fn(&EventPayload) -> Result<Vec<u8>, String>,
        D: Fn(&str) -> Result<Event, String>,
        J: Fn(&JsonGraphStore, &Event) -> Result<(), PiriaError>,
        S: Fn(&JsonGraphStore, &GraphSnapshot) -> Result<(), PiriaError>,
    >(
        &mut self,
        host: &Host<F, E, D, J, S>,
        orb_id: u128,
        observations: &[Single],
    ) -> (result: Result<Vec<EntropyAlert>, PiriaError>)
        requires
            can_count(old(self)@),
        ensures
            result matches Ok(alerts) ==> exists|moment: Moment| #[trigger]
                revises(
                    host@,
                    moment,
                    old(self)@,
                    orb_id,
                    observations@,
                    final(self)@,
                    alerts@,
                    None,
                ) && freshly_named(moment),
            result matches Err(error) ==> exists|moment: Moment, alerts: Seq<EntropyAlert>|
                #[trigger]
                revises(
                    host@,
                    moment,
                    old(self)@,
                    orb_id,
                    observations@,
                    final(self)@,
                    alerts,
                    Some(error@),
                ) && freshly_named(moment),
    {
        let moment = Moment::now();
        self.update_probability_field_with(host, moment, orb_id, observations)
    }

    /// Moves an entity on in its life cycle.
    pub fn transition_orb_with<
        F: Fn(Flop) -> u64,
        E: Fn(&EventPayload) -> Result<Vec<u8>, String>,
        D: Fn(&str) -> Result<Event, String>,
        J: Fn(&JsonGraphStore, &Event) -> Result<(), PiriaError>,
        S: Fn(&JsonGraphStore, &GraphSnapshot) -> Result<(), PiriaError>,
    >(
        &mut self,
        host: &Host<F, E, D, J, S>,
        moment: Moment,
        orb_id: u128,
        next: SemanticState,
    ) -> (result: Result<(), PiriaError>)
        requires
            can_count(old(self)@),
        ensures
            transits(
                host@,
                moment,
                old(self)@,
                orb_id,
                next,
                final(self)@,
                storage::fault_of(result),
            ),
    {
        let timestamp = self.clock.now_at(moment.wall_ms);
        let ghost now = self@;
        assert(now =~= advanced(old(self)@, moment));
        let mut orb = match self.orbs.remove(&orb_id) {
            Some(orb) => orb,
            None => {
                assert(self@.orbs =~= now.orbs);
                assert(self@ =~= now);
                return Err(PiriaError::OrbNotFound(orb_id));
            },
        };
        let from_state = orb.semantic_state;
        let moved = orb.transition_to(next, timestamp);
        self.orbs.insert(orb_id, orb);
        assert(self@.orbs =~= now.orbs.insert(orb_id, orb@));
        match moved {
            Err(error) => {
                assert(self@.orbs =~= now.orbs);
                assert(self@ =~= now);
                return Err(error);
            },
            Ok(()) => {},
        }
        let payload = EventPayload::OrbStateChanged { from_state, to_state: next };
        let ghost changed = self@;
        let recorded = self.record(host, moment, orb_id, payload, timestamp);
        let ghost fault = storage::fault_of(recorded);
        assert(records(host@, moment, changed, orb_id, payload@, self@, fault));
        match recorded {
            Err(error) => {
                return Err(error);
            },
            Ok(()) => {},
        }
        self.persist_snapshot_at(host, moment.saved_ms)
    }

    /// Moves an entity on in its life cycle.
    pub fn transition_orb<
        F: Fn(Flop) -> u64,
        E: Fn(&EventPayload) -> Result<Vec<u8>, String>,
        D: Fn(&str) -> Result<Event, String>,
        J: Fn(&JsonGraphStore, &Event) -> Result<(), PiriaError>,
        S: Fn(&JsonGraphStore, &GraphSnapshot) -> Result<(), PiriaError>,
    >(
        &mut self,
        host: &Host<F, E, D, J, S>,
        orb_id: u128,
        next: SemanticState,
    ) -> (result: Result<(), PiriaError>)
        requires
            can_count(old(self)@),
        ensures
            exists|moment: Moment| #[trigger]
                transits(
                    host@,
                    moment,
                    old(self)@,
                    orb_id,
                    next,
                    final(self)@,
                    storage::fault_of(result),
                ) && freshly_named(moment),
    {
        let moment = Moment::now();
        self.transition_orb_with(host, moment, orb_id, next)
    }

    /// The graph of all entities, taken in an order, at a time.
    pub fn graph_view_in<F: Fn(Flop) -> u64>(&self, fpu: &Fpu<F>, order: &Vec<u128>, now: u64) -> (
    graph: InMemoryGraphView)
        requires
            maps::lists(order@, self@.orbs.dom()),
        ensures
            graph@ == graph_of(fpu@, in_order(self@.orbs, order@), now),
    {
        let mut graph = InMemoryGraphView::new();
        let ghost all = in_order(self@.orbs, order@);
        let mut i: usize = 0;
        assert(all.take(0) =~= Seq::empty());
        while i < order.len()
            invariant
                i <= order@.len(),
                maps::lists(order@, self@.orbs.dom()),
                all == in_order(self@.orbs, order@),
                graph@ == graph_of(fpu@, all.take(i as int), now),
            decreases order@.len() - i,
        {
            proof {
                maps::lemma_take_grows(order@, i as int);
                assert(self@.orbs.contains_key(order@[i as int]));
                assert(all.take(i + 1).drop_last() =~= all.take(i as int));
            }
            if let Some(orb) = self.orbs.get(&order[i]) {
                let mut copy = orb.clone();
                graph.insert_orb_at(fpu, &mut copy, now);
            }
            i += 1;
        }
        assert(all.take(i as int) =~= all);
        graph
    }

    /// The graph of all entities.
    pub fn graph_view<F: Fn(Flop) -> u64>(&self, fpu: &Fpu<F>) -> (graph: InMemoryGraphView)
        ensures
            exists|order: Seq<u128>, now: u64|
                #![trigger graph_of(fpu@, in_order(self@.orbs, order), now)]
                maps::lists(order, self@.orbs.dom()) && graph@ == graph_of(
                    fpu@,
                    in_order(self@.orbs, order),
                    now,
                ),
    {
        let order = self.orb_ids();
        let now: u64 = now_ms();
        self.graph_view_in(fpu, &order, now)
    }

    /// Walks through the graph of all entities.
    pub fn traverse<F: Fn(Flop) -> u64>(
        &self,
        fpu: &Fpu<F>,
        start_orb_id: u128,
        query: &SemanticQuery,
        config: &TraversalConfig,
    ) -> (result: Result<TraversalResult, PiriaError>)
        ensures
            result matches Ok(report) && exists|order: Seq<u128>, seen: u64, now: u64|
                #![trigger engine::plan_of(
                    fpu@,
                    graph_of(fpu@, in_order(self@.orbs, order), seen),
                    *query,
                    *config,
                    now,
                )]
                maps::lists(order, self@.orbs.dom()) && engine::reports(
                    engine::plan_of(
                        fpu@,
                        graph_of(fpu@, in_order(self@.orbs, order), seen),
                        *query,
                        *config,
                        now,
                    ),
                    start_orb_id,
                    report,
                ) && engine::answers(
                    fpu@,
                    graph_of(fpu@, in_order(self@.orbs, order), seen),
                    *query,
                    *config,
                    now,
                    start_orb_id,
                    report,
                ),
    {
        let graph = self.graph_view(fpu);
        TraversalEngine::traverse(fpu, &graph, start_orb_id, query, config)
    }

    /// The mean entropy of all active entities, taken in an order, at a time. The
    /// entropy of the active ones is brought up to date.
    pub fn entropy_snapshot_in<F: Fn(Flop) -> u64>(
        &mut self,
        fpu: &Fpu<F>,
        order: &Vec<u128>,
        now: u64,
    ) -> (sample: FieldEntropySnapshot)
        requires
            maps::lists(order@, old(self)@.orbs.dom()),
        ensures
            sample == field_sample(fpu@, in_order(old(self)@.orbs, order@), now),
            averages(fpu@, in_order(old(self)@.orbs, order@), sample),
            final(self)@ == (RuntimeView {
                orbs: all_weighed(fpu@, old(self)@.orbs),
                ..old(self)@
            }),
    {
        let ghost s = self@;
        let ghost all = in_order(s.orbs, order@);
        let ghost goal = all_weighed(fpu@, s.orbs);
        let mut sum = Single::zero();
        let mut count: u64 = 0;
        let mut i: usize = 0;
        assert(all.take(0) =~= Seq::empty());
        while i < order.len()
            invariant
                i <= order@.len(),
                s == old(self)@,
                maps::lists(order@, s.orbs.dom()),
                all == in_order(s.orbs, order@),
                goal == all_weighed(fpu@, s.orbs),
                self@ == (RuntimeView { orbs: self@.orbs, ..s }),
                self@.orbs.dom() == s.orbs.dom(),
                forall|id: u128| #[trigger]
                    s.orbs.contains_key(id) ==> self@.orbs[id] == (if order@.take(
                        i as int,
                    ).contains(id) {
                        goal[id]
                    } else {
                        s.orbs[id]
                    }),
                sum == numeric::total(fpu@, active_shares(fpu@, all.take(i as int))),
                count == active_shares(fpu@, all.take(i as int)).len(),
                count <= i,
            decreases order@.len() - i,
        {
            let id: u128 = order[i];
            proof {
                maps::lemma_take_grows(order@, i as int);
                assert(s.orbs.contains_key(id));
                assert(self@.orbs.contains_key(id));
                assert(all.take(i + 1).drop_last() =~= all.take(i as int));
                assert(all.take(i + 1).last() == s.orbs[id]);
            }
            let ghost before = self@.orbs;
            if let Some(mut orb) = self.orbs.remove(&id) {
                assert(orb@ == s.orbs[id]);
                if orb.semantic_state == SemanticState::Active {
                    let entropy_bits = orb.entropy(fpu);
                    let max_entropy_bits = orb.probability_field.max_entropy_bits(fpu);
                    let share = (OrbEntropySample {
                        orb_id: orb.identity,
                        entropy_bits,
                        max_entropy_bits,
                        sampled_at_ms: now,
                    }).normalized(fpu);
                    assert(share == entropy_share(fpu@, s.orbs[id]));
                    proof {
                        let shares = active_shares(fpu@, all.take(i as int));
                        assert(shares.push(share).drop_last() =~= shares);
                    }
                    sum = fpu.add(sum, share);
                    count = count + 1;
                }
                self.orbs.insert(id, orb);
                assert(self@.orbs =~= before.insert(id, orb@));
                assert(orb@ =~= goal[id]);
            }
            i += 1;
        }
        proof {
            maps::lemma_taken_all(order@);
            assert(all.take(i as int) =~= all);
            assert forall|id: u128| #[trigger] s.orbs.contains_key(id) implies self@.orbs[id]
                == goal[id] by {
                assert(order@.to_set().contains(id));
                assert(order@.take(order@.len() as int).contains(id));
            }
            assert(self@.orbs =~= goal);
            lemma_averages(fpu@, all, now);
        }
        let mean = if count == 0 {
            Single::zero()
        } else {
            fpu.div(sum, fpu.from_int(count))
        };
        FieldEntropySnapshot::new(mean, count, now)
    }

    /// The mean entropy of all active entities. The entropy of the active ones is
    /// brought up to date.
    pub fn entropy_snapshot<F: Fn(Flop) -> u64>(&mut self, fpu: &Fpu<F>) -> (sample:
        FieldEntropySnapshot)
        ensures
            exists|order: Seq<u128>| #[trigger]
                maps::lists(order, old(self)@.orbs.dom()) && sample == field_sample(
                    fpu@,
                    in_order(old(self)@.orbs, order),
                    sample.sampled_at_ms,
                ) && averages(fpu@, in_order(old(self)@.orbs, order), sample),
            final(self)@ == (RuntimeView {
                orbs: all_weighed(fpu@, old(self)@.orbs),
                ..old(self)@
            }),
    {
        let order = self.orb_ids();
        let now: u64 = now_ms();
        self.entropy_snapshot_in(fpu, &order, now)
    }

    /// Watches the mean entropy as of `now`, and says what is alarming.
    pub fn observe_entropy_at<F: Fn(Flop) -> u64>(&mut self, fpu: &Fpu<F>, now: u64) -> (alerts:
        Vec<EntropyAlert>)
        ensures
            observes(fpu@, now, old(self)@, final(self)@, alerts@),
            samples(fpu@, now, old(self)@, final(self)@),
    {
        let order = self.orb_ids();
        let ghost s = self@;
        let sample = self.entropy_snapshot_in(fpu, &order, now);
        assert(averages(fpu@, in_order(s.orbs, order@), sample));
        let alerts = self.entropy_monitor.ingest_snapshot(fpu, sample);
        assert(maps::lists(order@, s.orbs.dom()));
        alerts
    }

    /// Watches the mean entropy, and says what is alarming.
    pub fn observe_entropy<F: Fn(Flop) -> u64>(&mut self, fpu: &Fpu<F>) -> (alerts: Vec<
        EntropyAlert,
    >)
        ensures
            exists|now: u64| #[trigger]
                observes(fpu@, now, old(self)@, final(self)@, alerts@) && samples(
                    fpu@,
                    now,
                    old(self)@,
                    final(self)@,
                ),
    {
        let now: u64 = now_ms();
        self.observe_entropy_at(fpu, now)
    }
}

// ---------------------------------------------------------------------------
// Laws
// ---------------------------------------------------------------------------

/// Every entity is filed under its identifier and intact, and so is every log.
pub open spec fn orderly(c: CodecView, s: RuntimeView) -> bool {
    &&& forall|id: u128| #[trigger]
        s.orbs.contains_key(id) ==> s.orbs[id].identity == id && orb::intact(s.orbs[id])
    &&& storage::sound_logs(c, s.logs)
}

proof fn lemma_appends_orderly(
    h: HostView,
    s: RuntimeView,
    e: EventView,
    after: RuntimeView,
    fault: Option<ErrorView>,
)
    requires
        orderly(h.codec, s),
        appends(h, s, e, after, fault),
    ensures
        orderly(h.codec, after),
        after.orbs == s.orbs,
{
    let log = storage::log_of(s.logs, e.orb_id);
    assert(log.orb_id == e.orb_id && event::chain_fault(h.codec, log.events) is None) by {
        if s.logs.contains_key(e.orb_id) {
        } else {
            assert(log.events =~= Seq::empty());
        }
    }
    if event::append_fault(h.codec, log, e) is None {
        event::logs_stay_chained(h.codec, log, e);
    }
}

proof fn lemma_records_orderly(
    h: HostView,
    moment: Moment,
    s: RuntimeView,
    orb_id: u128,
    payload: PayloadView,
    after: RuntimeView,
    fault: Option<ErrorView>,
)
    requires
        orderly(h.codec, s),
        s.orbs.contains_key(orb_id),
        records(h, moment, s, orb_id, payload, after, fault),
    ensures
        orderly(h.codec, after),
{
    if let Ok(e) = next_event(h, s, moment, orb_id, payload) {
        lemma_appends_orderly(h, s, e, RuntimeView { orbs: s.orbs, ..after }, fault);
        orb::sealing_makes_intact(
            OrbView {
                event_refs: s.orbs[orb_id].event_refs.push(e.event_id),
                ..s.orbs[orb_id]
            },
        );
    }
}

proof fn lemma_weighing_keeps_intact(m: Arithmetic, orb: OrbView)
    requires
        orb::intact(orb),
    ensures
        orb::intact(weighed(m, orb)),
        weighed(m, orb).identity == orb.identity,
{
    assert(orb::preimage(weighed(m, orb)) == orb::preimage(orb));
}

/// A new node is in order, and so is one that was opened from disk, whatever was
/// found there.
pub proof fn nodes_start_in_order(
    c: CodecView,
    node_id: Seq<char>,
    store: StoreView,
    snapshot: Option<SnapshotView>,
    wal: Result<Seq<Result<Seq<char>, Seq<char>>>, Seq<char>>,
)
    ensures
        orderly(c, fresh_node(node_id)),
        reopened(c, node_id, store, snapshot, wal) matches Ok(s) ==> orderly(c, s),
{
    if let Some(all) = snapshot {
        lemma_admitted_intact(all.orbs);
    }
    if let Ok(lines) = wal {
        if let Ok(events) = storage::read_all(c, lines) {
            storage::restored_logs_are_sound(c, events);
        }
    }
}

proof fn lemma_admitted_intact(orbs: Seq<OrbView>)
    ensures
        admitted(orbs) matches Ok(map) ==> forall|id: u128| #[trigger]
            map.contains_key(id) ==> map[id].identity == id && orb::intact(map[id]),
    decreases orbs.len(),
{
    if orbs.len() > 0 {
        lemma_admitted_intact(orbs.drop_last());
    }
}

/// Creating an entity keeps a node in order, whether it succeeds or not.
pub proof fn creating_keeps_order(
    h: HostView,
    moment: Moment,
    s: RuntimeView,
    semantic_vector: Seq<Single>,
    probability_field: Seq<Single>,
    permissions: Permissions,
    after: RuntimeView,
    fault: Option<ErrorView>,
)
    requires
        orderly(h.codec, s),
        creates(
            h,
            moment,
            s,
            semantic_vector,
            probability_field,
            permissions,
            after,
            fault,
        ),
    ensures
        orderly(h.codec, after),
{
    let now = advanced(s, moment);
    let orb = orb::newborn(
        h.m,
        moment.new_id,
        semantic_vector,
        probability_field,
        permissions,
        now.clock,
        moment.trust_ms,
    );
    let payload = PayloadView::OrbCreated {
        initial_trust: orb.trust.score,
        permissions_bits: permissions.bits,
        probability_categories: probability_field.len() as usize,
    };
    assert(orderly(h.codec, now));
    if let Ok(e) = next_event(h, now, moment, moment.new_id, payload) {
        let recorded = choose|recorded: Option<ErrorView>| #[trigger]
            appends(h, now, e, RuntimeView { orbs: now.orbs, ..after }, recorded) && after.orbs
                == (if recorded is None {
                now.orbs.insert(moment.new_id, noted(orb, e.event_id))
            } else {
                now.orbs
            }) && concludes(h, after, moment.saved_ms, recorded, fault);
        lemma_appends_orderly(h, now, e, RuntimeView { orbs: now.orbs, ..after }, recorded);
        orb::sealing_makes_intact(
            OrbView { event_refs: orb.event_refs.push(e.event_id), ..orb },
        );
    }
}

/// Adding a relation keeps a node in order, also where it is refused.
pub proof fn relating_keeps_order(
    h: HostView,
    moment: Moment,
    s: RuntimeView,
    source_orb_id: u128,
    target_orb_id: u128,
    relation_type: RelationType,
    weight: Single,
    after: RuntimeView,
    fault: Option<ErrorView>,
)
    requires
        orderly(h.codec, s),
        relates(
            h,
            moment,
            s,
            source_orb_id,
            target_orb_id,
            relation_type,
            weight,
            after,
            fault,
        ),
    ensures
        orderly(h.codec, after),
{
    let now = advanced(s, moment);
    assert(orderly(h.codec, now));
    let source = now.orbs[source_orb_id];
    let kept = orb::room_made(source.relations, source.degree_budget);
    if now.orbs.contains_key(source_orb_id) && now.orbs.contains_key(target_orb_id) && kept.len()
        >= source.degree_budget {
        orb::sealing_makes_intact(
            OrbView { relations: kept, semantic_mass_dirty: true, ..source },
        );
    } else if now.orbs.contains_key(source_orb_id) && now.orbs.contains_key(target_orb_id) {
        let unsealed = OrbView {
            relations: kept.push(
                new_relation(
                    h.m,
                    moment,
                    source,
                    target_orb_id,
                    relation_type,
                    weight,
                    now.clock,
                ),
            ),
            updated_at: now.clock,
            semantic_mass_dirty: true,
            ..source
        };
        orb::sealing_makes_intact(unsealed);
        let changed = RuntimeView {
            orbs: now.orbs.insert(source_orb_id, orb::sealed(unsealed)),
            ..now
        };
        let payload = PayloadView::RelationAdded {
            target_orb_id,
            relation_type: relation::label(relation_type),
            weight: weight.unit(),
            edge_id: moment.new_id,
        };
        assert(orderly(h.codec, changed));
        let recorded = choose|recorded: Option<ErrorView>| #[trigger]
            records(h, moment, changed, source_orb_id, payload, after, recorded) && concludes(
                h,
                after,
                moment.saved_ms,
                recorded,
                fault,
            );
        lemma_records_orderly(h, moment, changed, source_orb_id, payload, after, recorded);
    }
}

/// A step in the life cycle keeps a node in order, whether it succeeds or not.
pub proof fn transiting_keeps_order(
    h: HostView,
    moment: Moment,
    s: RuntimeView,
    orb_id: u128,
    next: SemanticState,
    after: RuntimeView,
    fault: Option<ErrorView>,
)
    requires
        orderly(h.codec, s),
        transits(h, moment, s, orb_id, next, after, fault),
    ensures
        orderly(h.codec, after),
{
    let now = advanced(s, moment);
    assert(orderly(h.codec, now));
    let orb = now.orbs[orb_id];
    if now.orbs.contains_key(orb_id) && orb::leads_to(orb.semantic_state, next) {
        let unsealed = OrbView { semantic_state: next, updated_at: now.clock, ..orb };
        orb::sealing_makes_intact(unsealed);
        let changed = RuntimeView {
            orbs: now.orbs.insert(orb_id, orb::sealed(unsealed)),
            ..now
        };
        let payload = PayloadView::OrbStateChanged {
            from_state: orb.semantic_state,
            to_state: next,
        };
        assert(orderly(h.codec, changed));
        let recorded = choose|recorded: Option<ErrorView>| #[trigger]
            records(h, moment, changed, orb_id, payload, after, recorded) && concludes(
                h,
                after,
                moment.saved_ms,
                recorded,
                fault,
            );
        lemma_records_orderly(h, moment, changed, orb_id, payload, after, recorded);
    }
}

/// Watching the entropy keeps a node in order.
pub proof fn observing_keeps_order(
    c: CodecView,
    m: Arithmetic,
    now: u64,
    s: RuntimeView,
    after: RuntimeView,
    alerts: Seq<EntropyAlert>,
)
    requires
        orderly(c, s),
        observes(m, now, s, after, alerts),
    ensures
        orderly(c, after),
{
    assert forall|id: u128| #[trigger] after.orbs.contains_key(id) implies after.orbs[id].identity
        == id && orb::intact(after.orbs[id]) by {
        assert(s.orbs.contains_key(id));
        lemma_weighing_keeps_intact(m, s.orbs[id]);
    }
}

/// Revising a belief keeps a node in order, also where an observation is refused.
pub proof fn revising_keeps_order(
    h: HostView,
    moment: Moment,
    s: RuntimeView,
    orb_id: u128,
    observations: Seq<Single>,
    after: RuntimeView,
    alerts: Seq<EntropyAlert>,
    fault: Option<ErrorView>,
)
    requires
        orderly(h.codec, s),
        revises(h, moment, s, orb_id, observations, after, alerts, fault),
    ensures
        orderly(h.codec, after),
{
    let now = advanced(s, moment);
    assert(orderly(h.codec, now));
    if now.orbs.contains_key(orb_id) {
        let orb = weighed(h.m, now.orbs[orb_id]);
        let field = belief::observed(h.m, orb.probability_field, observations);
        if acceptable(orb.probability_field, observations) {
            let unsealed = OrbView {
                probability_field: field,
                entropy_dirty: true,
                updated_at: now.clock,
                ..orb
            };
            orb::sealing_makes_intact(unsealed);
            lemma_weighing_keeps_intact(h.m, orb::sealed(unsealed));
            let revised = weighed(h.m, orb::sealed(unsealed));
            let changed = RuntimeView { orbs: now.orbs.insert(orb_id, revised), ..now };
            let payload = PayloadView::BeliefRevised {
                new_alpha: field,
                previous_entropy: orb.entropy,
                new_entropy: revised.entropy,
            };
            assert(orderly(h.codec, changed));
            let (recorded, middle) = choose|recorded: Option<ErrorView>, middle: RuntimeView|
                #[trigger]
                records(h, moment, changed, orb_id, payload, middle, recorded) && (match recorded {
                    Some(reason) => after == middle && fault == Some(reason),
                    None => observes(h.m, moment.sampled_ms, middle, after, alerts) && persists(
                        h,
                        after,
                        moment.saved_ms,
                        fault,
                    ),
                });
            lemma_records_orderly(h, moment, changed, orb_id, payload, middle, recorded);
            if recorded is None {
                observing_keeps_order(
                    h.codec,
                    h.m,
                    moment.sampled_ms,
                    middle,
                    after,
                    alerts,
                );
            }
        } else {
            lemma_weighing_keeps_intact(h.m, now.orbs[orb_id]);
            orb::sealing_makes_intact(
                OrbView { probability_field: field, entropy_dirty: true, ..orb },
            );
        }
    }
}

/// Every change is written down: where an event was made for an entity of a node
/// in order, it fits the log. It is the newest event of that log then, the
/// entity notes it last, no other log and no other entity changes, and the node
/// has counted one event more; all this unless writing to the journal failed.
pub proof fn changes_are_written_down(
    h: HostView,
    moment: Moment,
    s: RuntimeView,
    orb_id: u128,
    payload: PayloadView,
    after: RuntimeView,
    fault: Option<ErrorView>,
)
    requires
        orderly(h.codec, s),
        s.orbs.contains_key(orb_id),
        records(h, moment, s, orb_id, payload, after, fault),
        next_event(h, s, moment, orb_id, payload) is Ok,
    ensures
        ({
            let e = next_event(h, s, moment, orb_id, payload)->Ok_0;
            let log = storage::log_of(s.logs, orb_id);
            &&& after.logs == s.logs.insert(
                orb_id,
                LogView { orb_id, events: log.events.push(e) },
            )
            &&& s.store is None ==> fault is None
            &&& fault is None ==> after.orbs == s.orbs.insert(orb_id, after.orbs[orb_id])
                && after.orbs[orb_id].event_refs == s.orbs[orb_id].event_refs.push(e.event_id)
                && after.vector_clock == clock::advanced(s.vector_clock, s.builder.node_id)
            &&& fault is Some ==> after.orbs == s.orbs && after.vector_clock == s.vector_clock
        }),
{
    let e = next_event(h, s, moment, orb_id, payload)->Ok_0;
    let log = storage::log_of(s.logs, orb_id);
    assert(log.orb_id == orb_id);
    event::built_events_fit(
        h.codec,
        s.builder,
        log,
        moment.event_id,
        moment.event_ms,
        ActorId::System,
        payload,
        s.clock,
        s.vector_clock,
    );
    assert(event::hash_fault(h.codec, e) is None);
    assert(after.orbs[orb_id] == after.orbs[orb_id]);
    if fault is None {
        assert(after.orbs =~= s.orbs.insert(orb_id, after.orbs[orb_id]));
    }
}

/// The journal mirrors the logs: where it made up the logs before an event was
/// appended without a fault, it makes up the logs after it with one more line
/// that reads back as that event.
pub proof fn journals_mirror_the_logs(
    h: HostView,
    s: RuntimeView,
    e: EventView,
    after: RuntimeView,
    lines: Seq<Result<Seq<char>, Seq<char>>>,
    content: Seq<char>,
)
    requires
        storage::restored(h.codec, Ok(lines)) == Ok::<Map<u128, LogView>, ErrorView>(s.logs),
        appends(h, s, e, after, None),
        !crate::text::blank(content),
        (h.codec.decode)(content) == Ok::<EventView, Seq<char>>(e),
    ensures
        storage::restored(h.codec, Ok(lines.push(Ok(content)))) == Ok::<
            Map<u128, LogView>,
            ErrorView,
        >(after.logs),
{
    storage::written_events_are_restored(h.codec, lines, content, e);
}

/// A snapshot restores the entities: what was written of a node in order gives
/// back exactly its entities when it is opened.
pub proof fn snapshots_restore_the_entities(
    c: CodecView,
    s: RuntimeView,
    order: Seq<u128>,
)
    requires
        orderly(c, s),
        maps::lists(order, s.orbs.dom()),
    ensures
        admitted(in_order(s.orbs, order)) == Ok::<Map<u128, OrbView>, ErrorView>(s.orbs),
{
    lemma_admitted_prefix(c, s, order, order.len() as int);
    let all = in_order(s.orbs, order);
    assert(all.take(order.len() as int) =~= all);
    maps::lemma_taken_all(order);
    let map = admitted(all)->Ok_0;
    assert forall|id: u128| map.contains_key(id) == s.orbs.contains_key(id) by {
        assert(order.to_set().contains(id) <==> s.orbs.contains_key(id));
        assert(order.take(order.len() as int).contains(id) <==> order.to_set().contains(id));
    }
    assert(map =~= s.orbs);
}

proof fn lemma_admitted_prefix(c: CodecView, s: RuntimeView, order: Seq<u128>, n: int)
    requires
        orderly(c, s),
        maps::lists(order, s.orbs.dom()),
        0 <= n <= order.len(),
    ensures
        admitted(in_order(s.orbs, order).take(n)) matches Ok(map) && (forall|id: u128| #[trigger]
            map.contains_key(id) <==> order.take(n).contains(id)) && (forall|id: u128| #[trigger]
            map.contains_key(id) ==> map[id] == s.orbs[id]),
    decreases n,
{
    let all = in_order(s.orbs, order);
    if n > 0 {
        lemma_admitted_prefix(c, s, order, n - 1);
        maps::lemma_take_grows(order, n - 1);
        assert(all.take(n).drop_last() =~= all.take(n - 1));
        let id = order[n - 1];
        assert(s.orbs.contains_key(id));
        assert(all.take(n).last() == s.orbs[id]);
        let before = admitted(all.take(n - 1))->Ok_0;
        let map = admitted(all.take(n))->Ok_0;
        assert(map == before.insert(id, s.orbs[id]));
        assert forall|other: u128| #[trigger] map.contains_key(other) <==> order.take(n).contains(
            other,
        ) by {
            assert(before.contains_key(other) <==> order.take(n - 1).contains(other));
            assert(order.take(n - 1 + 1).contains(other) <==> order.take(n - 1).contains(other)
                || other == id);
        }
    } else {
        assert(all.take(0) =~= Seq::empty());
    }
}

/// The graph that a node in order makes up holds exactly its entities, whatever
/// order they are taken in.
pub proof fn graphs_hold_the_entities(
    c: CodecView,
    m: Arithmetic,
    s: RuntimeView,
    order: Seq<u128>,
    now: u64,
)
    requires
        orderly(c, s),
        maps::lists(order, s.orbs.dom()),
    ensures
        graph_of(m, in_order(s.orbs, order), now) == s.orbs.map_values(
            |orb: OrbView| traversal::node_of(m, orb, now),
        ),
{
    lemma_graph_prefix(c, m, s, order, now, order.len() as int);
    let all = in_order(s.orbs, order);
    assert(all.take(order.len() as int) =~= all);
    maps::lemma_taken_all(order);
    let graph = graph_of(m, all, now);
    let goal = s.orbs.map_values(|orb: OrbView| traversal::node_of(m, orb, now));
    assert forall|id: u128| graph.contains_key(id) == goal.contains_key(id) by {
        assert(order.to_set().contains(id) <==> s.orbs.contains_key(id));
        assert(order.take(order.len() as int).contains(id) <==> order.to_set().contains(id));
    }
    assert(graph =~= goal);
}

proof fn lemma_graph_prefix(
    c: CodecView,
    m: Arithmetic,
    s: RuntimeView,
    order: Seq<u128>,
    now: u64,
    n: int,
)
    requires
        orderly(c, s),
        maps::lists(order, s.orbs.dom()),
        0 <= n <= order.len(),
    ensures
        ({
            let graph = graph_of(m, in_order(s.orbs, order).take(n), now);
            &&& forall|id: u128| #[trigger] graph.contains_key(id) <==> order.take(n).contains(id)
            &&& forall|id: u128| #[trigger]
                graph.contains_key(id) ==> graph[id] == traversal::node_of(m, s.orbs[id], now)
        }),
    decreases n,
{
    let all = in_order(s.orbs, order);
    if n > 0 {
        lemma_graph_prefix(c, m, s, order, now, n - 1);
        maps::lemma_take_grows(order, n - 1);
        assert(all.take(n).drop_last() =~= all.take(n - 1));
        let id = order[n - 1];
        assert(s.orbs.contains_key(id));
        assert(all.take(n).last() == s.orbs[id]);
        let before = graph_of(m, all.take(n - 1), now);
        let graph = graph_of(m, all.take(n), now);
        assert(graph == before.insert(id, traversal::node_of(m, s.orbs[id], now)));
        assert forall|other: u128| #[trigger] graph.contains_key(other) <==> order.take(n).contains(
            other,
        ) by {
            assert(before.contains_key(other) <==> order.take(n - 1).contains(other));
            assert(order.take(n - 1 + 1).contains(other) <==> order.take(n - 1).contains(other)
                || other == id);
        }
    } else {
        assert(all.take(0) =~= Seq::empty());
    }
}

/// An archived entity stays as it is: no step in the life cycle is made, and
/// nothing but the clock of the node moves.
pub proof fn archived_entities_stay(
    h: HostView,
    moment: Moment,
    s: RuntimeView,
    orb_id: u128,
    next: SemanticState,
    after: RuntimeView,
    fault: Option<ErrorView>,
)
    requires
        s.orbs.contains_key(orb_id),
        s.orbs[orb_id].semantic_state == SemanticState::Archived,
        transits(h, moment, s, orb_id, next, after, fault),
    ensures
        after == advanced(s, moment),
        fault == Some(
            ErrorView::InvalidStateTransition { from: SemanticState::Archived, to: next },
        ),
{
}

/// Every log is in the order of its timestamps, and no event is later than the
/// clock of the node.
pub open spec fn causal(s: RuntimeView) -> bool {
    &&& forall|id: u128, i: int|
        #![trigger s.logs[id].events[i]]
        s.logs.contains_key(id) && 0 <= i < s.logs[id].events.len() ==> !s.clock.before(
            s.logs[id].events[i].timestamp_logical,
        )
    &&& forall|id: u128, i: int, j: int|
        #![trigger s.logs[id].events[i], s.logs[id].events[j]]
        s.logs.contains_key(id) && 0 <= i < j < s.logs[id].events.len()
            ==> s.logs[id].events[i].timestamp_logical.before(
            s.logs[id].events[j].timestamp_logical,
        )
}

/// Whether the clock of a node moves at a moment. It stands still only where
/// time does and its counter is at its end.
pub open spec fn clock_moves(s: RuntimeView, moment: Moment) -> bool {
    s.clock.physical_ms < moment.wall_ms || s.clock.logical < u32::MAX
}

proof fn lemma_appends_causal(
    h: HostView,
    moment: Moment,
    s: RuntimeView,
    changed: RuntimeView,
    e: EventView,
    after: RuntimeView,
    fault: Option<ErrorView>,
)
    requires
        causal(s),
        clock_moves(s, moment),
        changed.logs == s.logs,
        changed.clock == advanced(s, moment).clock,
        e.timestamp_logical == changed.clock,
        appends(h, changed, e, after, fault),
    ensures
        causal(after),
{
    clock::ticking_moves_forward(s.clock, moment.wall_ms);
    let log = storage::log_of(s.logs, e.orb_id);
    assert forall|id: u128, i: int|
        #![trigger after.logs[id].events[i]]
        after.logs.contains_key(id) && 0 <= i
            < after.logs[id].events.len() implies !after.clock.before(
        after.logs[id].events[i].timestamp_logical,
    ) by {
        if s.logs.contains_key(id) && i < s.logs[id].events.len() {
            assert(after.logs[id].events[i] == s.logs[id].events[i]);
        }
    }
    assert forall|id: u128, i: int, j: int|
        #![trigger after.logs[id].events[i], after.logs[id].events[j]]
        after.logs.contains_key(id) && 0 <= i < j
            < after.logs[id].events.len() implies after.logs[id].events[i].timestamp_logical.before(
        after.logs[id].events[j].timestamp_logical,
    ) by {
        assert(s.logs.contains_key(id));
        assert(after.logs[id].events[i] == s.logs[id].events[i]);
        if j < s.logs[id].events.len() {
            assert(after.logs[id].events[j] == s.logs[id].events[j]);
        }
    }
}

/// A new node has nothing out of order.
pub proof fn nodes_start_causal(node_id: Seq<char>)
    ensures
        causal(fresh_node(node_id)),
{
}

/// Creating an entity keeps every log in the order of its timestamps.
pub proof fn creating_keeps_causality(
    h: HostView,
    moment: Moment,
    s: RuntimeView,
    semantic_vector: Seq<Single>,
    probability_field: Seq<Single>,
    permissions: Permissions,
    after: RuntimeView,
    fault: Option<ErrorView>,
)
    requires
        causal(s),
        clock_moves(s, moment),
        creates(
            h,
            moment,
            s,
            semantic_vector,
            probability_field,
            permissions,
            after,
            fault,
        ),
    ensures
        causal(after),
{
    clock::ticking_moves_forward(s.clock, moment.wall_ms);
    let now = advanced(s, moment);
    let orb = orb::newborn(
        h.m,
        moment.new_id,
        semantic_vector,
        probability_field,
        permissions,
        now.clock,
        moment.trust_ms,
    );
    let payload = PayloadView::OrbCreated {
        initial_trust: orb.trust.score,
        permissions_bits: permissions.bits,
        probability_categories: probability_field.len() as usize,
    };
    if let Ok(e) = next_event(h, now, moment, moment.new_id, payload) {
        let recorded = choose|recorded: Option<ErrorView>| #[trigger]
            appends(h, now, e, RuntimeView { orbs: now.orbs, ..after }, recorded);
        let middle = RuntimeView { orbs: now.orbs, ..after };
        lemma_appends_causal(h, moment, s, now, e, middle, recorded);
        lemma_same_logs_are_causal(middle, after);
    } else {
        lemma_clock_keeps_causality(s, now);
    }
}

proof fn lemma_same_logs_are_causal(s: RuntimeView, after: RuntimeView)
    requires
        causal(s),
        s.clock == after.clock,
        after.logs == s.logs,
    ensures
        causal(after),
{
}

proof fn lemma_clock_keeps_causality(s: RuntimeView, after: RuntimeView)
    requires
        causal(s),
        s.clock.before(after.clock),
        after.logs == s.logs,
    ensures
        causal(after),
{
}

proof fn lemma_records_causal(
    h: HostView,
    moment: Moment,
    s: RuntimeView,
    changed: RuntimeView,
    orb_id: u128,
    payload: PayloadView,
    after: RuntimeView,
    fault: Option<ErrorView>,
)
    requires
        causal(s),
        clock_moves(s, moment),
        changed.logs == s.logs,
        changed.clock == advanced(s, moment).clock,
        records(h, moment, changed, orb_id, payload, after, fault),
    ensures
        causal(after),
{
    clock::ticking_moves_forward(s.clock, moment.wall_ms);
    if let Ok(e) = next_event(h, changed, moment, orb_id, payload) {
        lemma_appends_causal(
            h,
            moment,
            s,
            changed,
            e,
            RuntimeView { orbs: changed.orbs, ..after },
            fault,
        );
    } else {
        lemma_clock_keeps_causality(s, after);
    }
}

/// Adding a relation keeps every log in the order of its timestamps.
pub proof fn relating_keeps_causality(
    h: HostView,
    moment: Moment,
    s: RuntimeView,
    source_orb_id: u128,
    target_orb_id: u128,
    relation_type: RelationType,
    weight: Single,
    after: RuntimeView,
    fault: Option<ErrorView>,
)
    requires
        causal(s),
        clock_moves(s, moment),
        relates(
            h,
            moment,
            s,
            source_orb_id,
            target_orb_id,
            relation_type,
            weight,
            after,
            fault,
        ),
    ensures
        causal(after),
{
    clock::ticking_moves_forward(s.clock, moment.wall_ms);
    let now = advanced(s, moment);
    let source = now.orbs[source_orb_id];
    let kept = orb::room_made(source.relations, source.degree_budget);
    if now.orbs.contains_key(source_orb_id) && now.orbs.contains_key(target_orb_id) && kept.len()
        < source.degree_budget {
        let related = orb::sealed(
            OrbView {
                relations: kept.push(
                    new_relation(
                        h.m,
                        moment,
                        source,
                        target_orb_id,
                        relation_type,
                        weight,
                        now.clock,
                    ),
                ),
                updated_at: now.clock,
                semantic_mass_dirty: true,
                ..source
            },
        );
        let changed = RuntimeView { orbs: now.orbs.insert(source_orb_id, related), ..now };
        let payload = PayloadView::RelationAdded {
            target_orb_id,
            relation_type: relation::label(relation_type),
            weight: weight.unit(),
            edge_id: moment.new_id,
        };
        let recorded = choose|recorded: Option<ErrorView>| #[trigger]
            records(h, moment, changed, source_orb_id, payload, after, recorded);
        lemma_records_causal(h, moment, s, changed, source_orb_id, payload, after, recorded);
    } else {
        lemma_clock_keeps_causality(s, after);
    }
}

/// A step in the life cycle keeps every log in the order of its timestamps.
pub proof fn transiting_keeps_causality(
    h: HostView,
    moment: Moment,
    s: RuntimeView,
    orb_id: u128,
    next: SemanticState,
    after: RuntimeView,
    fault: Option<ErrorView>,
)
    requires
        causal(s),
        clock_moves(s, moment),
        transits(h, moment, s, orb_id, next, after, fault),
    ensures
        causal(after),
{
    clock::ticking_moves_forward(s.clock, moment.wall_ms);
    let now = advanced(s, moment);
    let orb = now.orbs[orb_id];
    if now.orbs.contains_key(orb_id) && orb::leads_to(orb.semantic_state, next) {
        let moved = orb::sealed(
            OrbView { semantic_state: next, updated_at: now.clock, ..orb },
        );
        let changed = RuntimeView { orbs: now.orbs.insert(orb_id, moved), ..now };
        let payload = PayloadView::OrbStateChanged {
            from_state: orb.semantic_state,
            to_state: next,
        };
        let recorded = choose|recorded: Option<ErrorView>| #[trigger]
            records(h, moment, changed, orb_id, payload, after, recorded);
        lemma_records_causal(h, moment, s, changed, orb_id, payload, after, recorded);
    } else {
        lemma_clock_keeps_causality(s, after);
    }
}

/// Revising a belief keeps every log in the order of its timestamps.
pub proof fn revising_keeps_causality(
    h: HostView,
    moment: Moment,
    s: RuntimeView,
    orb_id: u128,
    observations: Seq<Single>,
    after: RuntimeView,
    alerts: Seq<EntropyAlert>,
    fault: Option<ErrorView>,
)
    requires
        causal(s),
        clock_moves(s, moment),
        revises(h, moment, s, orb_id, observations, after, alerts, fault),
    ensures
        causal(after),
{
    clock::ticking_moves_forward(s.clock, moment.wall_ms);
    let now = advanced(s, moment);
    let orb = weighed(h.m, now.orbs[orb_id]);
    let field = belief::observed(h.m, orb.probability_field, observations);
    if now.orbs.contains_key(orb_id) && acceptable(orb.probability_field, observations) {
        let revised = weighed(
            h.m,
            orb::sealed(
                OrbView {
                    probability_field: field,
                    entropy_dirty: true,
                    updated_at: now.clock,
                    ..orb
                },
            ),
        );
        let changed = RuntimeView { orbs: now.orbs.insert(orb_id, revised), ..now };
        let payload = PayloadView::BeliefRevised {
            new_alpha: field,
            previous_entropy: orb.entropy,
            new_entropy: revised.entropy,
        };
        let (recorded, middle) = choose|recorded: Option<ErrorView>, middle: RuntimeView|
            #[trigger]
            records(h, moment, changed, orb_id, payload, middle, recorded) && (match recorded {
                Some(reason) => after == middle && fault == Some(reason),
                None => observes(h.m, moment.sampled_ms, middle, after, alerts) && persists(
                    h,
                    after,
                    moment.saved_ms,
                    fault,
                ),
            });
        lemma_records_causal(h, moment, s, changed, orb_id, payload, middle, recorded);
        assert(after.logs == middle.logs && after.clock == middle.clock);
    } else {
        lemma_clock_keeps_causality(s, after);
    }
}

/// Whether an operation of a node leads from one state to another, with or
/// without a fault.
pub open spec fn operates(h: HostView, moment: Moment, s: RuntimeView, after: RuntimeView) -> bool {
    ||| exists|vector: Seq<Single>, field: Seq<Single>, rights: Permissions, fault: Option<ErrorView>|
        #[trigger]
        creates(h, moment, s, vector, field, rights, after, fault)
    ||| exists|
        source: u128,
        target: u128,
        kind: RelationType,
        weight: Single,
        fault: Option<ErrorView>,
    | #[trigger]
        relates(h, moment, s, source, target, kind, weight, after, fault)
    ||| exists|orb_id: u128, next: SemanticState, fault: Option<ErrorView>| #[trigger]
        transits(h, moment, s, orb_id, next, after, fault)
    ||| exists|
        orb_id: u128,
        observations: Seq<Single>,
        alerts: Seq<EntropyAlert>,
        fault: Option<ErrorView>,
    | #[trigger]
        revises(h, moment, s, orb_id, observations, after, alerts, fault)
    ||| exists|alerts: Seq<EntropyAlert>| #[trigger]
        observes(h.m, moment.sampled_ms, s, after, alerts)
}

/// Whether every entity and every event of one state is there in another, each
/// log at most longer than it was.
pub open spec fn continues(s: RuntimeView, after: RuntimeView) -> bool {
    &&& forall|id: u128| #[trigger] s.orbs.contains_key(id) ==> after.orbs.contains_key(id)
    &&& forall|id: u128| #[trigger]
        s.logs.contains_key(id) ==> after.logs.contains_key(id) && s.logs[id].events.is_prefix_of(
            after.logs[id].events,
        )
}

/// What continues what continues a state continues it.
proof fn lemma_continues_on(a: RuntimeView, b: RuntimeView, c: RuntimeView)
    requires
        continues(a, b),
        continues(b, c),
    ensures
        continues(a, c),
{
    assert forall|id: u128| #[trigger] a.orbs.contains_key(id) implies c.orbs.contains_key(id) by {
        assert(b.orbs.contains_key(id));
    }
    assert forall|id: u128| #[trigger] a.logs.contains_key(id) implies c.logs.contains_key(id)
        && a.logs[id].events.is_prefix_of(c.logs[id].events) by {
        assert(b.logs.contains_key(id));
        assert(c.logs.contains_key(id));
    }
}

/// Where the logs stay, history does.
proof fn lemma_same_logs_continue(s: RuntimeView, after: RuntimeView)
    requires
        after.logs == s.logs,
        forall|id: u128| #[trigger] s.orbs.contains_key(id) ==> after.orbs.contains_key(id),
    ensures
        continues(s, after),
{
    assert forall|id: u128| #[trigger] s.logs.contains_key(id) implies after.logs.contains_key(id)
        && s.logs[id].events.is_prefix_of(after.logs[id].events) by {
        assert(s.logs[id].events =~= after.logs[id].events);
    }
}

/// An event that is appended comes behind the others.
proof fn lemma_appending_continues(
    h: HostView,
    s: RuntimeView,
    e: EventView,
    after: RuntimeView,
    fault: Option<ErrorView>,
)
    requires
        appends(h, s, e, after, fault),
    ensures
        continues(s, after),
{
    let log = storage::log_of(s.logs, e.orb_id);
    assert forall|id: u128| #[trigger] s.logs.contains_key(id) implies after.logs.contains_key(id)
        && s.logs[id].events.is_prefix_of(after.logs[id].events) by {
        if id == e.orb_id {
            assert(log == s.logs[id]);
            assert(log.events.is_prefix_of(log.events.push(e)));
            assert(log.events.is_prefix_of(log.events));
        } else {
            assert(after.logs[id] == s.logs[id]);
            assert(s.logs[id].events.is_prefix_of(s.logs[id].events));
        }
    }
}

/// What is recorded of an entity comes behind what was.
proof fn lemma_recording_continues(
    h: HostView,
    moment: Moment,
    s: RuntimeView,
    orb_id: u128,
    payload: PayloadView,
    after: RuntimeView,
    fault: Option<ErrorView>,
)
    requires
        records(h, moment, s, orb_id, payload, after, fault),
    ensures
        continues(s, after),
{
    match next_event(h, s, moment, orb_id, payload) {
        Err(_) => {
            lemma_same_logs_continue(s, after);
        },
        Ok(e) => {
            let middle = RuntimeView { orbs: s.orbs, ..after };
            lemma_appending_continues(h, s, e, middle, fault);
            lemma_same_logs_continue(middle, after);
            lemma_continues_on(s, middle, after);
        },
    }
}

/// An operation that changes an entity and records it takes nothing away.
proof fn lemma_change_continues(
    h: HostView,
    moment: Moment,
    s: RuntimeView,
    changed: RuntimeView,
    orb_id: u128,
    payload: PayloadView,
    after: RuntimeView,
    fault: Option<ErrorView>,
)
    requires
        changed.logs == s.logs,
        forall|id: u128| #[trigger] s.orbs.contains_key(id) ==> changed.orbs.contains_key(id),
        records(h, moment, changed, orb_id, payload, after, fault),
    ensures
        continues(s, after),
{
    lemma_same_logs_continue(s, changed);
    lemma_recording_continues(h, moment, changed, orb_id, payload, after, fault);
    lemma_continues_on(s, changed, after);
}

proof fn lemma_creating_continues(
    h: HostView,
    moment: Moment,
    s: RuntimeView,
    vector: Seq<Single>,
    field: Seq<Single>,
    rights: Permissions,
    after: RuntimeView,
    fault: Option<ErrorView>,
)
    requires
        creates(h, moment, s, vector, field, rights, after, fault),
    ensures
        continues(s, after),
{
    let now = advanced(s, moment);
    let orb = orb::newborn(
        h.m,
        moment.new_id,
        vector,
        field,
        rights,
        now.clock,
        moment.trust_ms,
    );
    let payload = PayloadView::OrbCreated {
        initial_trust: orb.trust.score,
        permissions_bits: rights.bits,
        probability_categories: field.len() as usize,
    };
    match next_event(h, now, moment, moment.new_id, payload) {
        Err(_) => {
            lemma_same_logs_continue(s, after);
        },
        Ok(e) => {
            let middle = RuntimeView { orbs: now.orbs, ..after };
            let recorded = choose|recorded: Option<ErrorView>| #[trigger]
                appends(h, now, e, middle, recorded) && after.orbs == (if recorded is None {
                    now.orbs.insert(moment.new_id, noted(orb, e.event_id))
                } else {
                    now.orbs
                }) && concludes(h, after, moment.saved_ms, recorded, fault);
            lemma_same_logs_continue(s, now);
            lemma_appending_continues(h, now, e, middle, recorded);
            lemma_same_logs_continue(middle, after);
            lemma_continues_on(now, middle, after);
            lemma_continues_on(s, now, after);
        },
    }
}

proof fn lemma_relating_continues(
    h: HostView,
    moment: Moment,
    s: RuntimeView,
    source_orb_id: u128,
    target_orb_id: u128,
    relation_type: RelationType,
    weight: Single,
    after: RuntimeView,
    fault: Option<ErrorView>,
)
    requires
        relates(
            h,
            moment,
            s,
            source_orb_id,
            target_orb_id,
            relation_type,
            weight,
            after,
            fault,
        ),
    ensures
        continues(s, after),
{
    if after.logs == s.logs {
        lemma_same_logs_continue(s, after);
    } else {
        let (changed, payload, recorded) = choose|
            changed: RuntimeView,
            payload: PayloadView,
            recorded: Option<ErrorView>,
        |
            changed.logs == s.logs && (forall|id: u128| #[trigger]
                s.orbs.contains_key(id) ==> changed.orbs.contains_key(id)) && #[trigger] records(
                h,
                moment,
                changed,
                source_orb_id,
                payload,
                after,
                recorded,
            );
        lemma_change_continues(h, moment, s, changed, source_orb_id, payload, after, recorded);
    }
}

proof fn lemma_transiting_continues(
    h: HostView,
    moment: Moment,
    s: RuntimeView,
    orb_id: u128,
    next: SemanticState,
    after: RuntimeView,
    fault: Option<ErrorView>,
)
    requires
        transits(h, moment, s, orb_id, next, after, fault),
    ensures
        continues(s, after),
{
    if after.logs == s.logs {
        lemma_same_logs_continue(s, after);
    } else {
        let (changed, payload, recorded) = choose|
            changed: RuntimeView,
            payload: PayloadView,
            recorded: Option<ErrorView>,
        |
            changed.logs == s.logs && (forall|id: u128| #[trigger]
                s.orbs.contains_key(id) ==> changed.orbs.contains_key(id)) && #[trigger] records(
                h,
                moment,
                changed,
                orb_id,
                payload,
                after,
                recorded,
            );
        lemma_change_continues(h, moment, s, changed, orb_id, payload, after, recorded);
    }
}

proof fn lemma_observing_continues(
    m: Arithmetic,
    now: u64,
    s: RuntimeView,
    after: RuntimeView,
    alerts: Seq<EntropyAlert>,
)
    requires
        observes(m, now, s, after, alerts),
    ensures
        continues(s, after),
{
    lemma_same_logs_continue(s, after);
}

proof fn lemma_revising_continues(
    h: HostView,
    moment: Moment,
    s: RuntimeView,
    orb_id: u128,
    observations: Seq<Single>,
    after: RuntimeView,
    alerts: Seq<EntropyAlert>,
    fault: Option<ErrorView>,
)
    requires
        revises(h, moment, s, orb_id, observations, after, alerts, fault),
    ensures
        continues(s, after),
{
    let now = advanced(s, moment);
    let orb = weighed(h.m, now.orbs[orb_id]);
    let field = belief::observed(h.m, orb.probability_field, observations);
    if now.orbs.contains_key(orb_id) && acceptable(orb.probability_field, observations) {
        let revised = weighed(
            h.m,
            orb::sealed(
                OrbView {
                    probability_field: field,
                    entropy_dirty: true,
                    updated_at: now.clock,
                    ..orb
                },
            ),
        );
        let changed = RuntimeView { orbs: now.orbs.insert(orb_id, revised), ..now };
        let payload = PayloadView::BeliefRevised {
            new_alpha: field,
            previous_entropy: orb.entropy,
            new_entropy: revised.entropy,
        };
        let (recorded, middle) = choose|recorded: Option<ErrorView>, middle: RuntimeView|
            #[trigger]
            records(h, moment, changed, orb_id, payload, middle, recorded) && (match recorded {
                Some(reason) => after == middle && fault == Some(reason),
                None => observes(h.m, moment.sampled_ms, middle, after, alerts) && persists(
                    h,
                    after,
                    moment.saved_ms,
                    fault,
                ),
            });
        lemma_change_continues(h, moment, s, changed, orb_id, payload, middle, recorded);
        if recorded is None {
            lemma_observing_continues(h.m, moment.sampled_ms, middle, after, alerts);
            lemma_continues_on(s, middle, after);
        }
    } else {
        lemma_same_logs_continue(s, after);
    }
}

/// No operation takes an entity away or rewrites history: what happened stays
/// written down, and new events come behind it.
pub proof fn nothing_is_forgotten(h: HostView, moment: Moment, s: RuntimeView, after: RuntimeView)
    requires
        operates(h, moment, s, after),
    ensures
        continues(s, after),
{
    if exists|vector: Seq<Single>, field: Seq<Single>, rights: Permissions, fault: Option<ErrorView>|
        #[trigger]
        creates(h, moment, s, vector, field, rights, after, fault) {
        let (vector, field, rights, fault) = choose|
            vector: Seq<Single>,
            field: Seq<Single>,
            rights: Permissions,
            fault: Option<ErrorView>,
        | #[trigger]
            creates(h, moment, s, vector, field, rights, after, fault);
        lemma_creating_continues(h, moment, s, vector, field, rights, after, fault);
    } else if exists|
        source: u128,
        target: u128,
        kind: RelationType,
        weight: Single,
        fault: Option<ErrorView>,
    | #[trigger]
        relates(h, moment, s, source, target, kind, weight, after, fault) {
        let (source, target, kind, weight, fault) = choose|
            source: u128,
            target: u128,
            kind: RelationType,
            weight: Single,
            fault: Option<ErrorView>,
        | #[trigger]
            relates(h, moment, s, source, target, kind, weight, after, fault);
        lemma_relating_continues(h, moment, s, source, target, kind, weight, after, fault);
    } else if exists|orb_id: u128, next: SemanticState, fault: Option<ErrorView>| #[trigger]
        transits(h, moment, s, orb_id, next, after, fault) {
        let (orb_id, next, fault) = choose|
            orb_id: u128,
            next: SemanticState,
            fault: Option<ErrorView>,
        | #[trigger]
            transits(h, moment, s, orb_id, next, after, fault);
        lemma_transiting_continues(h, moment, s, orb_id, next, after, fault);
    } else if exists|
        orb_id: u128,
        observations: Seq<Single>,
        alerts: Seq<EntropyAlert>,
        fault: Option<ErrorView>,
    | #[trigger]
        revises(h, moment, s, orb_id, observations, after, alerts, fault) {
        let (orb_id, observations, alerts, fault) = choose|
            orb_id: u128,
            observations: Seq<Single>,
            alerts: Seq<EntropyAlert>,
            fault: Option<ErrorView>,
        | #[trigger]
            revises(h, moment, s, orb_id, observations, after, alerts, fault);
        lemma_revising_continues(h, moment, s, orb_id, observations, after, alerts, fault);
    } else {
        let alerts = choose|alerts: Seq<EntropyAlert>| #[trigger]
            observes(h.m, moment.sampled_ms, s, after, alerts);
        lemma_observing_continues(h.m, moment.sampled_ms, s, after, alerts);
    }
}

/// Every operation keeps a node in order, whether it succeeds or not.
pub proof fn every_operation_keeps_order(
    h: HostView,
    moment: Moment,
    s: RuntimeView,
    after: RuntimeView,
)
    requires
        orderly(h.codec, s),
        operates(h, moment, s, after),
    ensures
        orderly(h.codec, after),
{
    if exists|vector: Seq<Single>, field: Seq<Single>, rights: Permissions, fault: Option<ErrorView>|
        #[trigger]
        creates(h, moment, s, vector, field, rights, after, fault) {
        let (vector, field, rights, fault) = choose|
            vector: Seq<Single>,
            field: Seq<Single>,
            rights: Permissions,
            fault: Option<ErrorView>,
        | #[trigger]
            creates(h, moment, s, vector, field, rights, after, fault);
        creating_keeps_order(h, moment, s, vector, field, rights, after, fault);
    } else if exists|
        source: u128,
        target: u128,
        kind: RelationType,
        weight: Single,
        fault: Option<ErrorView>,
    | #[trigger]
        relates(h, moment, s, source, target, kind, weight, after, fault) {
        let (source, target, kind, weight, fault) = choose|
            source: u128,
            target: u128,
            kind: RelationType,
            weight: Single,
            fault: Option<ErrorView>,
        | #[trigger]
            relates(h, moment, s, source, target, kind, weight, after, fault);
        relating_keeps_order(h, moment, s, source, target, kind, weight, after, fault);
    } else if exists|orb_id: u128, next: SemanticState, fault: Option<ErrorView>| #[trigger]
        transits(h, moment, s, orb_id, next, after, fault) {
        let (orb_id, next, fault) = choose|
            orb_id: u128,
            next: SemanticState,
            fault: Option<ErrorView>,
        | #[trigger]
            transits(h, moment, s, orb_id, next, after, fault);
        transiting_keeps_order(h, moment, s, orb_id, next, after, fault);
    } else if exists|
        orb_id: u128,
        observations: Seq<Single>,
        alerts: Seq<EntropyAlert>,
        fault: Option<ErrorView>,
    | #[trigger]
        revises(h, moment, s, orb_id, observations, after, alerts, fault) {
        let (orb_id, observations, alerts, fault) = choose|
            orb_id: u128,
            observations: Seq<Single>,
            alerts: Seq<EntropyAlert>,
            fault: Option<ErrorView>,
        | #[trigger]
            revises(h, moment, s, orb_id, observations, after, alerts, fault);
        revising_keeps_order(h, moment, s, orb_id, observations, after, alerts, fault);
    } else {
        let alerts = choose|alerts: Seq<EntropyAlert>| #[trigger]
            observes(h.m, moment.sampled_ms, s, after, alerts);
        observing_keeps_order(h.codec, h.m, moment.sampled_ms, s, after, alerts);
    }
}

// ---------------------------------------------------------------------------
// What an operation brings about
// ---------------------------------------------------------------------------

/// Whether nothing but one entity and its log has changed.
pub open spec fn changes_only(s: RuntimeView, after: RuntimeView, orb_id: u128) -> bool {
    &&& forall|id: u128|
        id != orb_id ==> (#[trigger] after.orbs.contains_key(id) <==> s.orbs.contains_key(id)) && (
        s.orbs.contains_key(id) ==> after.orbs[id] == s.orbs[id])
    &&& forall|id: u128|
        id != orb_id ==> (#[trigger] after.logs.contains_key(id) <==> s.logs.contains_key(id)) && (
        s.logs.contains_key(id) ==> after.logs[id] == s.logs[id])
}

/// Whether the newest event of an entity says this, was made at the node's time, and is the
/// last one that the entity notes.
pub open spec fn tells(after: RuntimeView, orb_id: u128, payload: PayloadView) -> bool {
    let events = after.logs[orb_id].events;
    &&& after.orbs.contains_key(orb_id) && after.logs.contains_key(orb_id)
    &&& events.len() > 0
    &&& events.last().payload == payload
    &&& events.last().orb_id == orb_id
    &&& events.last().timestamp_logical == after.clock
    &&& after.orbs[orb_id].event_refs.len() > 0
    &&& after.orbs[orb_id].event_refs.last() == events.last().event_id
}

proof fn lemma_recorded(
    h: HostView,
    moment: Moment,
    s: RuntimeView,
    orb_id: u128,
    payload: PayloadView,
    after: RuntimeView,
)
    requires
        records(h, moment, s, orb_id, payload, after, None),
        s.orbs.contains_key(orb_id),
    ensures
        tells(after, orb_id, payload),
        changes_only(s, after, orb_id),
        after.orbs.dom() == s.orbs.dom(),
        after.clock == s.clock,
        after.orbs[orb_id] == noted(s.orbs[orb_id], after.logs[orb_id].events.last().event_id),
{
    let e = next_event(h, s, moment, orb_id, payload)->Ok_0;
    assert(after.logs[orb_id].events.last() == e);
    assert(after.orbs.dom() =~= s.orbs.dom());
}

/// An entity that is created begins where it is put, with the rights and the belief that it
/// is given, and its first event tells of them. Nothing else changes.
pub proof fn creation_brings_an_entity(
    h: HostView,
    moment: Moment,
    s: RuntimeView,
    semantic_vector: Seq<Single>,
    probability_field: Seq<Single>,
    permissions: Permissions,
    after: RuntimeView,
)
    requires
        creates(
            h,
            moment,
            s,
            semantic_vector,
            probability_field,
            permissions,
            after,
            None,
        ),
    ensures
        ({
            let id = moment.new_id;
            let orb = after.orbs[id];
            &&& after.orbs.contains_key(id)
            &&& orb.identity == id
            &&& orb::begins(
                OrbView { event_refs: Seq::empty(), ..orb },
                semantic_vector,
                probability_field,
                permissions,
                after.clock,
            )
            &&& orb::up_to_date(h.m, orb)
            &&& orb.trust.last_updated_ms == moment.trust_ms
            &&& orb.event_refs.len() == 1
            &&& s.clock.before(after.clock) || s.clock.logical == u32::MAX
            &&& tells(
                after,
                id,
                PayloadView::OrbCreated {
                    initial_trust: orb.trust.score,
                    permissions_bits: permissions.bits,
                    probability_categories: probability_field.len() as usize,
                },
            )
            &&& changes_only(s, after, id)
        }),
{
    let now = advanced(s, moment);
    let id = moment.new_id;
    let orb = orb::newborn(
        h.m,
        id,
        semantic_vector,
        probability_field,
        permissions,
        now.clock,
        moment.trust_ms,
    );
    orb::newborns_are_up_to_date(
        h.m,
        id,
        semantic_vector,
        probability_field,
        permissions,
        now.clock,
        moment.trust_ms,
    );
    let payload = PayloadView::OrbCreated {
        initial_trust: orb.trust.score,
        permissions_bits: permissions.bits,
        probability_categories: probability_field.len() as usize,
    };
    let e = next_event(h, now, moment, id, payload)->Ok_0;
    assert(after.logs[id].events.last() == e);
    if s.clock.logical < u32::MAX {
        clock::ticking_moves_forward(s.clock, moment.wall_ms);
    }
    assert(after.orbs[id].event_refs.last() == e.event_id);
}

/// A relation that is added goes from one entity to the other. It has the type that is asked
/// for and the weight, forced between zero and one, and carries what the trust of its source
/// is worth by then. An event tells of it. No other entity changes, and the source loses a
/// relation only where its budget is used up.
pub proof fn relating_brings_a_relation(
    h: HostView,
    moment: Moment,
    s: RuntimeView,
    source_orb_id: u128,
    target_orb_id: u128,
    relation_type: RelationType,
    weight: Single,
    after: RuntimeView,
)
    requires
        relates(
            h,
            moment,
            s,
            source_orb_id,
            target_orb_id,
            relation_type,
            weight,
            after,
            None,
        ),
    ensures
        ({
            let before = s.orbs[source_orb_id];
            let orb = after.orbs[source_orb_id];
            let relation = orb.relations.last();
            &&& s.orbs.contains_key(source_orb_id) && s.orbs.contains_key(target_orb_id)
            &&& orb.relations.len() > 0
            &&& relation.target_orb_id == target_orb_id
            &&& relation.relation_type == relation_type
            &&& relation.edge_id == moment.new_id
            &&& relation.created_at == after.clock
            &&& weight.finite() ==> rounding::value(relation.weight) == rounding::between(
                rounding::value(weight),
                0 as real,
                1 as real,
            )
            &&& exists|score: Single| #[trigger]
                trust::worth(h.m, before.trust, moment.trust_ms, score)
                    && relation.trust_at_creation == score.unit()
            &&& orb.relations.len() <= orb.degree_budget
            &&& before.relations.len() < before.degree_budget ==> orb.relations
                == before.relations.push(relation)
            &&& orb::same_entity(before, orb)
            &&& orb.updated_at == after.clock
            &&& orb::up_to_date(h.m, before) ==> orb::up_to_date(h.m, orb)
            &&& tells(
                after,
                source_orb_id,
                PayloadView::RelationAdded {
                    target_orb_id,
                    relation_type: relation::label(relation_type),
                    weight: relation.weight,
                    edge_id: relation.edge_id,
                },
            )
            &&& changes_only(s, after, source_orb_id)
        }),
{
    let now = advanced(s, moment);
    let source = now.orbs[source_orb_id];
    let kept = orb::room_made(source.relations, source.degree_budget);
    let relation = new_relation(
        h.m,
        moment,
        source,
        target_orb_id,
        relation_type,
        weight,
        now.clock,
    );
    let related = orb::sealed(
        OrbView {
            relations: kept.push(relation),
            updated_at: now.clock,
            semantic_mass_dirty: true,
            ..source
        },
    );
    let changed = RuntimeView { orbs: now.orbs.insert(source_orb_id, related), ..now };
    let payload = PayloadView::RelationAdded {
        target_orb_id,
        relation_type: relation::label(relation_type),
        weight: weight.unit(),
        edge_id: moment.new_id,
    };
    assert(records(h, moment, changed, source_orb_id, payload, after, None));
    lemma_recorded(h, moment, changed, source_orb_id, payload, after);
    assert(after.orbs[source_orb_id].relations == kept.push(relation));
    let score = trust::effective(h.m, source.trust, moment.trust_ms);
    trust::trust_fades(h.m, source.trust, moment.trust_ms);
    assert(trust::worth(h.m, source.trust, moment.trust_ms, score));
    if weight.finite() {
        rounding::lemma_unit(weight);
    }
}

/// A step in the life cycle brings an entity where it is asked to, if the life cycle leads
/// there, and an event tells from where. Nothing else changes.
pub proof fn transition_brings_a_state(
    h: HostView,
    moment: Moment,
    s: RuntimeView,
    orb_id: u128,
    next: SemanticState,
    after: RuntimeView,
)
    requires
        transits(h, moment, s, orb_id, next, after, None),
    ensures
        ({
            let before = s.orbs[orb_id];
            let orb = after.orbs[orb_id];
            &&& s.orbs.contains_key(orb_id)
            &&& before.semantic_state != next && before.semantic_state != SemanticState::Archived
            &&& orb.semantic_state == next
            &&& orb.updated_at == after.clock
            &&& orb::same_entity(before, orb)
            &&& orb.relations == before.relations && orb.probability_field
                == before.probability_field && orb.trust == before.trust && orb.semantic_vector
                == before.semantic_vector
            &&& orb::up_to_date(h.m, before) ==> orb::up_to_date(h.m, orb)
            &&& tells(
                after,
                orb_id,
                PayloadView::OrbStateChanged {
                    from_state: before.semantic_state,
                    to_state: orb.semantic_state,
                },
            )
            &&& changes_only(s, after, orb_id)
        }),
{
    let now = advanced(s, moment);
    let orb = now.orbs[orb_id];
    let moved = orb::sealed(OrbView { semantic_state: next, updated_at: now.clock, ..orb });
    let changed = RuntimeView { orbs: now.orbs.insert(orb_id, moved), ..now };
    let payload = PayloadView::OrbStateChanged { from_state: orb.semantic_state, to_state: next };
    assert(records(h, moment, changed, orb_id, payload, after, None));
    lemma_recorded(h, moment, changed, orb_id, payload, after);
}

/// Revising a belief adds the observations to it, category by category and but for rounding,
/// and an event tells of the new concentrations and of the entropy before and after. Of the
/// other entities nothing changes but what they remember of their entropy.
pub proof fn revision_brings_a_belief(
    h: HostView,
    moment: Moment,
    s: RuntimeView,
    orb_id: u128,
    observations: Seq<Single>,
    after: RuntimeView,
    alerts: Seq<EntropyAlert>,
)
    requires
        revises(h, moment, s, orb_id, observations, after, alerts, None),
        orb::up_to_date(h.m, s.orbs[orb_id]),
    ensures
        ({
            let before = s.orbs[orb_id];
            let orb = after.orbs[orb_id];
            let field = orb.probability_field;
            &&& s.orbs.contains_key(orb_id) && after.orbs.dom() == s.orbs.dom()
            &&& field.len() == before.probability_field.len() && field.len() == observations.len()
            &&& rounding::rounds(h.m) ==> forall|i: int|
                0 <= i < field.len() && before.probability_field[i].finite()
                    && observations[i].finite() && (#[trigger] field[i]).finite() ==> {
                    let exact = rounding::value(before.probability_field[i]) + rounding::value(
                        observations[i],
                    );
                    rounding::size(rounding::value(field[i]) - exact) <= rounding::slip()
                        * rounding::size(exact)
                }
            &&& orb.updated_at == after.clock
            &&& orb::same_entity(before, orb)
            &&& orb::up_to_date(h.m, orb)
            &&& tells(
                after,
                orb_id,
                PayloadView::BeliefRevised {
                    new_alpha: field,
                    previous_entropy: belief::shannon(h.m, before.probability_field),
                    new_entropy: belief::shannon(h.m, field),
                },
            )
            &&& forall|id: u128|
                id != orb_id && #[trigger] s.orbs.contains_key(id) ==> after.orbs[id] == (OrbView {
                    entropy: after.orbs[id].entropy,
                    entropy_dirty: after.orbs[id].entropy_dirty,
                    ..s.orbs[id]
                })
        }),
{
    let now = advanced(s, moment);
    let orb = weighed(h.m, now.orbs[orb_id]);
    let field = belief::observed(h.m, orb.probability_field, observations);
    let revised = weighed(
        h.m,
        orb::sealed(
            OrbView {
                probability_field: field,
                entropy_dirty: true,
                updated_at: now.clock,
                ..orb
            },
        ),
    );
    let changed = RuntimeView { orbs: now.orbs.insert(orb_id, revised), ..now };
    let payload = PayloadView::BeliefRevised {
        new_alpha: field,
        previous_entropy: orb.entropy,
        new_entropy: revised.entropy,
    };
    let (recorded, middle) = choose|recorded: Option<ErrorView>, middle: RuntimeView| #[trigger]
        records(h, moment, changed, orb_id, payload, middle, recorded) && (match recorded {
            Some(reason) => after == middle && None::<ErrorView> == Some(reason),
            None => observes(h.m, moment.sampled_ms, middle, after, alerts) && persists(
                h,
                after,
                moment.saved_ms,
                None,
            ),
        });
    assert(recorded is None);
    lemma_recorded(h, moment, changed, orb_id, payload, middle);
    assert(changed.orbs.dom() =~= s.orbs.dom());
    assert(after.orbs.dom() =~= middle.orbs.dom());
    belief::lemma_refusal(observations);
    assert(middle.orbs[orb_id].probability_field == field);
    assert forall|id: u128| id != orb_id && #[trigger] s.orbs.contains_key(id) implies after.orbs[id]
        == (OrbView {
        entropy: after.orbs[id].entropy,
        entropy_dirty: after.orbs[id].entropy_dirty,
        ..s.orbs[id]
    }) by {
        assert(middle.orbs.contains_key(id));
        assert(changed.orbs.contains_key(id));
        assert(middle.orbs[id] == s.orbs[id]);
    }
    assert(middle.orbs.contains_key(orb_id));
}

} // verus!
