//! Events, and the logs that chain them.

use vstd::prelude::*;
use vstd::string::StringExecFns;

use crate::clock;
use crate::clock::{HlcTimestamp, VectorClock};
use crate::encoding;
use crate::encoding::{append_bytes, append_id, same_digest};
use crate::error;
use crate::error::{ErrorView, PiriaError};
use crate::outside;
use crate::outside::{
    ed25519_public, ed25519_sign, ed25519_verify, fresh_id, hex_encode, id_to_text, now_ms,
    sha256_digest,
};
use crate::payload::{ActorId, Codec, CodecView, Event, EventPayload, EventView, PayloadView};

verus! {

// ---------------------------------------------------------------------------
// Hashes
// ---------------------------------------------------------------------------

/// The bytes that the hash of an event is taken of.
pub open spec fn preimage(event_id: u128, payload_bytes: Seq<u8>, prev: Seq<u8>) -> Seq<u8> {
    outside::id_bytes(event_id) + payload_bytes + prev
}

/// The hash of an event, or the reason why its payload cannot be written.
pub open spec fn digest_of(
    c: CodecView,
    event_id: u128,
    payload: PayloadView,
    prev: Seq<u8>,
) -> Result<Seq<u8>, Seq<char>> {
    match (c.encode)(payload) {
        Ok(bytes) => Ok(outside::sha256(preimage(event_id, bytes, prev))),
        Err(reason) => Err(reason),
    }
}

/// What is wrong with the hash of an event, if anything.
pub open spec fn hash_fault(c: CodecView, event: EventView) -> Option<ErrorView> {
    match digest_of(c, event.event_id, event.payload, event.prev_event_hash) {
        Err(reason) => Some(ErrorView::Serialization(reason)),
        Ok(digest) => if digest == event.event_hash {
            None
        } else {
            Some(
                ErrorView::HashChainBroken {
                    event_id: event.event_id,
                    expected: outside::hex_text(event.event_hash),
                    actual: outside::hex_text(digest),
                },
            )
        },
    }
}

/// Whether an event carries a signature of its hash that a public key accepts.
pub open spec fn signed_by(event: EventView, public: Seq<u8>) -> bool {
    event.signature matches Some(signature) && signature.len() == 64 && outside::ed25519_accepts(
        public,
        event.event_hash,
        signature,
    )
}

/// The public key that belongs to a secret key.
pub fn verifying_key(secret: &[u8; 32]) -> (public: [u8; 32])
    ensures
        public@ == outside::ed25519_public_key(secret@),
{
    ed25519_public(secret)
}

impl Event {
    /// The hash of an event with this identifier and payload behind an event
    /// with the previous hash.
    pub fn compute_hash<
        E: Fn(&EventPayload) -> Result<Vec<u8>, String>,
        D: Fn(&str) -> Result<Event, String>,
    >(
        codec: &Codec<E, D>,
        event_id: u128,
        payload: &EventPayload,
        prev_event_hash: &[u8; 32],
    ) -> (result: Result<[u8; 32], PiriaError>)
        ensures
            match digest_of(codec@, event_id, payload@, prev_event_hash@) {
                Ok(digest) => result matches Ok(hash) && hash@ == digest,
                Err(reason) => result matches Err(PiriaError::Serialization(text)) && text@
                    == reason,
            },
    {
        let payload_bytes = match codec.write(payload) {
            Ok(bytes) => bytes,
            Err(reason) => {
                return Err(PiriaError::Serialization(reason));
            },
        };
        let mut bytes: Vec<u8> = Vec::new();
        append_id(&mut bytes, event_id);
        append_bytes(&mut bytes, payload_bytes.as_slice());
        append_bytes(&mut bytes, prev_event_hash.as_slice());
        assert(bytes@ =~= preimage(event_id, payload_bytes@, prev_event_hash@));
        Ok(sha256_digest(&bytes))
    }

    /// Signs the hash.
    pub fn sign(&mut self, key: &[u8; 32])
        ensures
            final(self)@ == (EventView {
                signature: Some(outside::ed25519_signature(key@, old(self)@.event_hash)),
                ..old(self)@
            }),
            signed_by(final(self)@, outside::ed25519_public_key(key@)),
    {
        self.signature = Some(ed25519_sign(key, &self.event_hash));
    }

    /// Checks the signature.
    pub fn verify_signature(&self, key: &[u8; 32]) -> (result: Result<(), PiriaError>)
        ensures
            result is Ok <==> signed_by(self@, key@),
            result matches Err(error) ==> error == PiriaError::SignatureInvalid(self.event_id),
    {
        match &self.signature {
            None => Err(PiriaError::SignatureInvalid(self.event_id)),
            Some(signature) => {
                if signature.len() == 64 && ed25519_verify(key, &self.event_hash, signature) {
                    Ok(())
                } else {
                    Err(PiriaError::SignatureInvalid(self.event_id))
                }
            },
        }
    }

    /// Checks the hash.
    pub fn verify_hash<
        E: Fn(&EventPayload) -> Result<Vec<u8>, String>,
        D: Fn(&str) -> Result<Event, String>,
    >(&self, codec: &Codec<E, D>) -> (result: Result<(), PiriaError>)
        ensures
            error::goes(result, hash_fault(codec@, self@)),
    {
        let computed = match Event::compute_hash(
            codec,
            self.event_id,
            &self.payload,
            &self.prev_event_hash,
        ) {
            Ok(hash) => hash,
            Err(error) => {
                return Err(error);
            },
        };
        if !same_digest(&computed, &self.event_hash) {
            return Err(
                PiriaError::HashChainBroken {
                    event_id: self.event_id,
                    expected: hex_encode(&self.event_hash),
                    actual: hex_encode(&computed),
                },
            );
        }
        Ok(())
    }
}

// ---------------------------------------------------------------------------
// Making events
// ---------------------------------------------------------------------------

/// Makes the events of a node, and signs them where it has a key.
pub struct EventBuilder {
    signing_key: Option<[u8; 32]>,
    node_id: String,
}

/// What a builder holds.
#[verifier::ext_equal]
pub struct BuilderView {
    pub signing_key: Option<Seq<u8>>,
    pub node_id: Seq<char>,
}

impl View for EventBuilder {
    type V = BuilderView;

    closed spec fn view(&self) -> BuilderView {
        BuilderView {
            signing_key: match self.signing_key {
                Some(key) => Some(key@),
                None => None,
            },
            node_id: self.node_id@,
        }
    }
}

/// The event that a builder makes, or the reason why its payload cannot be
/// written.
pub open spec fn built(
    c: CodecView,
    builder: BuilderView,
    event_id: u128,
    now: u64,
    orb_id: u128,
    actor_id: ActorId,
    payload: PayloadView,
    timestamp_logical: HlcTimestamp,
    vector_clock: Map<Seq<char>, u64>,
    prev: Seq<u8>,
) -> Result<EventView, ErrorView> {
    match digest_of(c, event_id, payload, prev) {
        Err(reason) => Err(ErrorView::Serialization(reason)),
        Ok(digest) => Ok(
            EventView {
                event_id,
                orb_id,
                actor_id,
                timestamp_physical: now,
                timestamp_logical,
                vector_clock: clock::advanced(vector_clock, builder.node_id),
                payload,
                prev_event_hash: prev,
                event_hash: digest,
                signature: match builder.signing_key {
                    Some(key) => Some(outside::ed25519_signature(key, digest)),
                    None => None,
                },
            },
        ),
    }
}

/// Whether an event, or the lack of one, is as expected.
pub open spec fn event_is(
    result: Result<Event, PiriaError>,
    expected: Result<EventView, ErrorView>,
) -> bool {
    match (result, expected) {
        (Ok(event), Ok(view)) => event@ == view,
        (Err(error), Err(reason)) => error@ == reason,
        _ => false,
    }
}

impl EventBuilder {
    pub fn new(node_id: &str) -> (builder: Self)
        ensures
            builder@ == (BuilderView { signing_key: None, node_id: node_id@ }),
    {
        EventBuilder { signing_key: None, node_id: node_id.to_owned() }
    }

    /// The node that the events come from.
    pub fn node(&self) -> (name: &str)
        ensures
            name@ == self@.node_id,
    {
        self.node_id.as_str()
    }

    /// Signs all events from now on.
    pub fn with_signing_key(self, key: [u8; 32]) -> (builder: Self)
        ensures
            builder@ == (BuilderView { signing_key: Some(key@), ..self@ }),
    {
        EventBuilder { signing_key: Some(key), node_id: self.node_id }
    }

    /// Makes an event with the given identifier at the given time.
    pub fn build_with<
        E: Fn(&EventPayload) -> Result<Vec<u8>, String>,
        D: Fn(&str) -> Result<Event, String>,
    >(
        &self,
        codec: &Codec<E, D>,
        event_id: u128,
        now: u64,
        orb_id: u128,
        actor_id: ActorId,
        payload: EventPayload,
        timestamp_logical: HlcTimestamp,
        vector_clock: VectorClock,
        prev_event_hash: [u8; 32],
    ) -> (result: Result<Event, PiriaError>)
        requires
            clock::count(vector_clock@, self@.node_id) < u64::MAX,
        ensures
            event_is(
                result,
                built(
                    codec@,
                    self@,
                    event_id,
                    now,
                    orb_id,
                    actor_id,
                    payload@,
                    timestamp_logical,
                    vector_clock@,
                    prev_event_hash@,
                ),
            ),
            self@.signing_key matches Some(key) ==> (result matches Ok(event) ==> signed_by(
                event@,
                outside::ed25519_public_key(key),
            )),
    {
        let mut vector_clock = vector_clock;
        vector_clock.tick(self.node_id.as_str());
        let event_hash = match Event::compute_hash(codec, event_id, &payload, &prev_event_hash) {
            Ok(hash) => hash,
            Err(error) => {
                return Err(error);
            },
        };
        let mut event = Event {
            event_id,
            orb_id,
            actor_id,
            timestamp_physical: now,
            timestamp_logical,
            vector_clock,
            payload,
            prev_event_hash,
            event_hash,
            signature: None,
        };
        if let Some(key) = &self.signing_key {
            event.sign(key);
        }
        Ok(event)
    }

    /// Makes an event with an identifier of its own.
    pub fn build<
        E: Fn(&EventPayload) -> Result<Vec<u8>, String>,
        D: Fn(&str) -> Result<Event, String>,
    >(
        &self,
        codec: &Codec<E, D>,
        orb_id: u128,
        actor_id: ActorId,
        payload: EventPayload,
        timestamp_logical: HlcTimestamp,
        vector_clock: VectorClock,
        prev_event_hash: [u8; 32],
    ) -> (result: Result<Event, PiriaError>)
        requires
            clock::count(vector_clock@, self@.node_id) < u64::MAX,
        ensures
            exists|event_id: u128, now: u64|
                outside::time_ordered(event_id) && event_is(
                    result,
                    #[trigger] built(
                        codec@,
                        self@,
                        event_id,
                        now,
                        orb_id,
                        actor_id,
                        payload@,
                        timestamp_logical,
                        vector_clock@,
                        prev_event_hash@,
                    ),
                ),
            self@.signing_key matches Some(key) ==> (result matches Ok(event) ==> signed_by(
                event@,
                outside::ed25519_public_key(key),
            )),
    {
        let event_id: u128 = fresh_id();
        let now: u64 = now_ms();
        self.build_with(
            codec,
            event_id,
            now,
            orb_id,
            actor_id,
            payload,
            timestamp_logical,
            vector_clock,
            prev_event_hash,
        )
    }
}

// ---------------------------------------------------------------------------
// Logs
// ---------------------------------------------------------------------------

/// Events in the order in which they happened.
#[derive(Debug)]
pub struct EventChain {
    events: Vec<Event>,
}

impl View for EventChain {
    type V = Seq<Event>;

    closed spec fn view(&self) -> Seq<Event> {
        self.events@
    }
}

/// The events of one entity, each of which names the hash of the one before it.
#[derive(Debug)]
pub struct OrbEventLog {
    pub orb_id: u128,
    pub chain: EventChain,
}

/// What a log holds.
#[verifier::ext_equal]
pub struct LogView {
    pub orb_id: u128,
    pub events: Seq<EventView>,
}

/// What events hold.
pub open spec fn views_of(events: Seq<Event>) -> Seq<EventView> {
    Seq::new(events.len(), |i: int| events[i]@)
}

impl View for OrbEventLog {
    type V = LogView;

    open spec fn view(&self) -> LogView {
        LogView { orb_id: self.orb_id, events: views_of(self.chain@) }
    }
}

/// The hash that the first event names.
pub open spec fn genesis() -> Seq<u8> {
    Seq::new(32, |i: int| 0u8)
}

/// The hash that the next event has to name.
pub open spec fn head(events: Seq<EventView>) -> Seq<u8> {
    if events.len() == 0 {
        genesis()
    } else {
        events.last().event_hash
    }
}

/// Why an event of another entity is refused.
pub open spec fn stranger_text(event_orb: u128, log_orb: u128) -> Seq<char> {
    "Event targets orb "@ + outside::id_text(event_orb) + " but log is for orb "@
        + outside::id_text(log_orb)
}

/// What is wrong with an event behind others, if anything: its link to the one
/// before it, or its hash.
pub open spec fn link_fault(c: CodecView, events: Seq<EventView>, event: EventView) -> Option<
    ErrorView,
> {
    if event.prev_event_hash != head(events) {
        Some(
            ErrorView::HashChainBroken {
                event_id: event.event_id,
                expected: outside::hex_text(head(events)),
                actual: outside::hex_text(event.prev_event_hash),
            },
        )
    } else {
        hash_fault(c, event)
    }
}

/// Why an event is not taken into a log, if it is not.
pub open spec fn append_fault(c: CodecView, log: LogView, event: EventView) -> Option<ErrorView> {
    if event.orb_id != log.orb_id {
        Some(ErrorView::Internal(stranger_text(event.orb_id, log.orb_id)))
    } else {
        link_fault(c, log.events, event)
    }
}

/// The first thing that is wrong with a chain of events, if anything.
pub open spec fn chain_fault(c: CodecView, events: Seq<EventView>) -> Option<ErrorView>
    decreases events.len(),
{
    if events.len() == 0 {
        None
    } else {
        match chain_fault(c, events.drop_last()) {
            Some(fault) => Some(fault),
            None => link_fault(c, events.drop_last(), events.last()),
        }
    }
}

/// The first event without a proper signature, if there is one.
pub open spec fn signature_fault(events: Seq<EventView>, public: Seq<u8>) -> Option<ErrorView>
    decreases events.len(),
{
    if events.len() == 0 {
        None
    } else {
        match signature_fault(events.drop_last(), public) {
            Some(fault) => Some(fault),
            None => if signed_by(events.last(), public) {
                None
            } else {
                Some(ErrorView::SignatureInvalid(events.last().event_id))
            },
        }
    }
}

/// How many events lead to one: those up to the first with that identifier, or
/// all where there is none.
pub open spec fn way_to(events: Seq<EventView>, target: u128) -> nat
    decreases events.len(),
{
    if events.len() == 0 {
        0
    } else {
        let before = way_to(events.drop_last(), target);
        if before < events.len() - 1 || (before > 0 && events[before - 1].event_id == target) {
            before
        } else {
            events.len()
        }
    }
}

proof fn lemma_fault_sticks(c: CodecView, events: Seq<EventView>, i: int, public: Seq<u8>)
    requires
        0 <= i <= events.len(),
    ensures
        chain_fault(c, events.take(i)) is Some ==> chain_fault(c, events) == chain_fault(
            c,
            events.take(i),
        ),
        signature_fault(events.take(i), public) is Some ==> signature_fault(events, public)
            == signature_fault(events.take(i), public),
    decreases events.len() - i,
{
    if i == events.len() {
        assert(events.take(i) =~= events);
    } else {
        lemma_fault_sticks(c, events, i + 1, public);
        assert(events.take(i + 1).drop_last() =~= events.take(i));
    }
}

proof fn lemma_way_ends(events: Seq<EventView>, i: int, target: u128)
    requires
        0 <= i < events.len(),
        events[i].event_id == target,
        forall|j: int| 0 <= j < i ==> (#[trigger] events[j]).event_id != target,
    ensures
        way_to(events, target) == i + 1,
    decreases events.len(),
{
    if i == events.len() - 1 {
        lemma_way_open(events.drop_last(), target);
    } else {
        let shorter = events.drop_last();
        assert(forall|j: int| 0 <= j < shorter.len() ==> shorter[j] == events[j]);
        lemma_way_ends(shorter, i, target);
    }
}

proof fn lemma_way_open(events: Seq<EventView>, target: u128)
    requires
        forall|j: int| 0 <= j < events.len() ==> (#[trigger] events[j]).event_id != target,
    ensures
        way_to(events, target) == events.len(),
    decreases events.len(),
{
    if events.len() > 0 {
        let shorter = events.drop_last();
        assert forall|j: int| 0 <= j < shorter.len() implies (
        #[trigger] shorter[j]).event_id != target by {
            assert(events[j].event_id != target);
        }
        lemma_way_open(shorter, target);
        if shorter.len() > 0 {
            assert(events[shorter.len() - 1].event_id != target);
        }
    }
}

/// Zeros.
fn genesis_hash() -> (hash: [u8; 32])
    ensures
        hash@ == genesis(),
{
    let hash = [0u8;32];
    assert(hash@ =~= genesis());
    hash
}

impl OrbEventLog {
    /// The events themselves.
    pub open spec fn entries(&self) -> Seq<Event> {
        self.chain@
    }

    pub fn new(orb_id: u128) -> (log: Self)
        ensures
            log@ == (LogView { orb_id, events: Seq::empty() }),
    {
        let log = OrbEventLog { orb_id, chain: EventChain { events: Vec::new() } };
        assert(log@.events =~= Seq::empty());
        log
    }

    /// The hash of the newest event, zeros for an empty log.
    pub fn head_hash(&self) -> (hash: [u8; 32])
        ensures
            hash@ == head(self@.events),
    {
        if self.chain.events.len() == 0 {
            genesis_hash()
        } else {
            self.chain.events[self.chain.events.len() - 1].event_hash
        }
    }

    /// Takes an event in, where it belongs to the entity, names the newest hash
    /// and has the right hash itself.
    pub fn append<
        E: Fn(&EventPayload) -> Result<Vec<u8>, String>,
        D: Fn(&str) -> Result<Event, String>,
    >(&mut self, codec: &Codec<E, D>, event: Event) -> (result: Result<(), PiriaError>)
        ensures
            error::goes(result, append_fault(codec@, old(self)@, event@)),
            result is Ok ==> final(self)@ == (LogView {
                events: old(self)@.events.push(event@),
                ..old(self)@
            }) && final(self).entries() == old(self).entries().push(event),
            result is Err ==> *final(self) == *old(self),
    {
        if event.orb_id != self.orb_id {
            let mut text = "Event targets orb ".to_owned();
            let own = id_to_text(event.orb_id);
            let their = id_to_text(self.orb_id);
            text.append(own.as_str());
            text.append(" but log is for orb ");
            text.append(their.as_str());
            return Err(PiriaError::Internal(text));
        }
        let expected = self.head_hash();
        if !same_digest(&event.prev_event_hash, &expected) {
            return Err(
                PiriaError::HashChainBroken {
                    event_id: event.event_id,
                    expected: hex_encode(&expected),
                    actual: hex_encode(&event.prev_event_hash),
                },
            );
        }
        match event.verify_hash(codec) {
            Err(error) => Err(error),
            Ok(()) => {
                self.chain.events.push(event);
                assert(self@.events =~= old(self)@.events.push(event@));
                Ok(())
            },
        }
    }

    /// Checks the whole chain.
    pub fn verify_chain<
        E: Fn(&EventPayload) -> Result<Vec<u8>, String>,
        D: Fn(&str) -> Result<Event, String>,
    >(&self, codec: &Codec<E, D>) -> (result: Result<(), PiriaError>)
        ensures
            error::goes(result, chain_fault(codec@, self@.events)),
    {
        let ghost events = self@.events;
        let mut expected = genesis_hash();
        let mut i: usize = 0;
        while i < self.chain.events.len()
            invariant
                i <= self.chain.events@.len(),
                events == self@.events,
                expected@ == head(events.take(i as int)),
                chain_fault(codec@, events.take(i as int)) is None,
            decreases self.chain.events@.len() - i,
        {
            let event = &self.chain.events[i];
            proof {
                assert(events.take(i + 1).drop_last() =~= events.take(i as int));
                assert(events.take(i + 1).last() == event@);
                lemma_fault_sticks(codec@, events, i + 1, Seq::empty());
            }
            if !same_digest(&event.prev_event_hash, &expected) {
                return Err(
                    PiriaError::HashChainBroken {
                        event_id: event.event_id,
                        expected: hex_encode(&expected),
                        actual: hex_encode(&event.prev_event_hash),
                    },
                );
            }
            match event.verify_hash(codec) {
                Err(error) => {
                    return Err(error);
                },
                Ok(()) => {},
            }
            expected = event.event_hash;
            i += 1;
        }
        assert(events.take(i as int) =~= events);
        Ok(())
    }

    /// Checks the signatures of all events.
    pub fn verify_signatures(&self, key: &[u8; 32]) -> (result: Result<(), PiriaError>)
        ensures
            error::goes(result, signature_fault(self@.events, key@)),
    {
        let ghost events = self@.events;
        let mut i: usize = 0;
        while i < self.chain.events.len()
            invariant
                i <= self.chain.events@.len(),
                events == self@.events,
                signature_fault(events.take(i as int), key@) is None,
            decreases self.chain.events@.len() - i,
        {
            let event = &self.chain.events[i];
            proof {
                assert(events.take(i + 1).drop_last() =~= events.take(i as int));
                assert(events.take(i + 1).last() == event@);
                lemma_fault_sticks(
                    CodecView { encode: |p: PayloadView| Ok(Seq::empty()), decode: |t: Seq<char>| Err(t) },
                    events,
                    i + 1,
                    key@,
                );
            }
            match event.verify_signature(key) {
                Err(error) => {
                    return Err(error);
                },
                Ok(()) => {},
            }
            i += 1;
        }
        assert(events.take(i as int) =~= events);
        Ok(())
    }

    /// The number of events.
    pub fn len(&self) -> (result: usize)
        ensures
            result == self@.events.len(),
    {
        self.chain.events.len()
    }

    pub fn is_empty(&self) -> (result: bool)
        ensures
            result == (self@.events.len() == 0),
    {
        self.chain.events.is_empty()
    }

    /// The events, the oldest first.
    pub fn iter(&self) -> (events: &[Event])
        ensures
            events@ == self.entries(),
            views_of(events@) == self@.events,
    {
        self.chain.events.as_slice()
    }

    /// The events after a time, the oldest first.
    pub fn events_since(&self, since: HlcTimestamp) -> (events: Vec<&Event>)
        ensures
            Seq::new(events@.len(), |i: int| *events@[i]) == self.entries().filter(
                |e: Event| since.before(e.timestamp_logical),
            ),
    {
        let ghost later = |e: Event| since.before(e.timestamp_logical);
        let mut events: Vec<&Event> = Vec::new();
        let mut i: usize = 0;
        assert(Seq::new(events@.len(), |i: int| *events@[i]) =~= self.entries().take(0).filter(
            later,
        )) by {
            reveal(Seq::filter);
        }
        while i < self.chain.events.len()
            invariant
                i <= self.chain.events@.len(),
                later == (|e: Event| since.before(e.timestamp_logical)),
                Seq::new(events@.len(), |i: int| *events@[i]) == self.chain.events@.take(
                    i as int,
                ).filter(later),
            decreases self.chain.events@.len() - i,
        {
            proof {
                reveal(Seq::filter);
                assert(self.chain.events@.take(i + 1).drop_last() =~= self.chain.events@.take(i as int));
            }
            let ghost before = events@;
            let event = &self.chain.events[i];
            if since.is_before(&event.timestamp_logical) {
                events.push(event);
                assert(Seq::new(events@.len(), |i: int| *events@[i]) =~= Seq::new(
                    before.len(),
                    |i: int| *before[i],
                ).push(*event));
            }
            i += 1;
        }
        assert(self.chain.events@.take(i as int) =~= self.chain.events@);
        events
    }

    /// The events that lead to one, the oldest first and that one last. Where no
    /// event has the identifier, these are all.
    pub fn causal_chain_to(&self, target_event_id: u128) -> (chain: Vec<&Event>)
        ensures
            Seq::new(chain@.len(), |i: int| *chain@[i]) == self.entries().take(
                way_to(self@.events, target_event_id) as int,
            ),
    {
        let ghost events = self@.events;
        let mut chain: Vec<&Event> = Vec::new();
        let mut i: usize = 0;
        while i < self.chain.events.len()
            invariant
                i <= self.chain.events@.len(),
                events == self@.events,
                chain@.len() == i,
                forall|j: int| 0 <= j < i ==> *(#[trigger] chain@[j]) == self.chain.events@[j],
                forall|j: int| 0 <= j < i ==> (#[trigger] events[j]).event_id != target_event_id,
            decreases self.chain.events@.len() - i,
        {
            let event = &self.chain.events[i];
            chain.push(event);
            if event.event_id == target_event_id {
                proof {
                    lemma_way_ends(events, i as int, target_event_id);
                    assert(Seq::new(chain@.len(), |i: int| *chain@[i]) =~= self.entries().take(
                        i + 1,
                    ));
                }
                return chain;
            }
            i += 1;
        }
        proof {
            lemma_way_open(events, target_event_id);
            assert(Seq::new(chain@.len(), |i: int| *chain@[i]) =~= self.entries().take(i as int));
        }
        chain
    }

    /// The newest event whose payload fits, if there is one.
    pub fn latest_of_type<P: Fn(&EventPayload) -> bool>(&self, predicate: P) -> (found: Option<
        &Event,
    >)
        requires
            forall|payload: &EventPayload| #[trigger] call_requires(predicate, (payload,)),
        ensures
            match found {
                Some(event) => exists|i: int|
                    0 <= i < self.entries().len() && *event == #[trigger] self.entries()[i]
                        && call_ensures(predicate, (&self.entries()[i].payload,), true) && (forall|
                        j: int,
                    |
                        i < j < self.entries().len() ==> call_ensures(
                            predicate,
                            (&(#[trigger] self.entries()[j]).payload,),
                            false,
                        )),
                None => forall|j: int|
                    0 <= j < self.entries().len() ==> call_ensures(
                        predicate,
                        (&(#[trigger] self.entries()[j]).payload,),
                        false,
                    ),
            },
    {
        let mut i: usize = self.chain.events.len();
        while i > 0
            invariant
                i <= self.chain.events@.len(),
                forall|payload: &EventPayload| #[trigger] call_requires(predicate, (payload,)),
                forall|j: int|
                    i <= j < self.chain.events@.len() ==> call_ensures(
                        predicate,
                        (&(#[trigger] self.chain.events@[j]).payload,),
                        false,
                    ),
            decreases i,
        {
            i -= 1;
            let event = &self.chain.events[i];
            if predicate(&event.payload) {
                assert(*event == self.entries()[i as int]);
                return Some(event);
            }
        }
        None
    }
}

impl Clone for OrbEventLog {
    fn clone(&self) -> (copy: Self)
        ensures
            copy@ == self@,
    {
        let mut events: Vec<Event> = Vec::new();
        let mut i: usize = 0;
        while i < self.chain.events.len()
            invariant
                i <= self.chain.events@.len(),
                events@.len() == i,
                forall|j: int| 0 <= j < i ==> (#[trigger] events@[j])@ == self.chain.events@[j]@,
            decreases self.chain.events@.len() - i,
        {
            let event = self.chain.events[i].clone();
            events.push(event);
            i += 1;
        }
        assert(views_of(events@) =~= views_of(self.chain.events@));
        OrbEventLog { orb_id: self.orb_id, chain: EventChain { events } }
    }
}

// ---------------------------------------------------------------------------
// Laws
// ---------------------------------------------------------------------------

/// A log that started empty and only took events in is always sound: a chain
/// without fault stays so when an event is taken in.
pub proof fn logs_stay_chained(c: CodecView, log: LogView, event: EventView)
    requires
        chain_fault(c, log.events) is None,
        append_fault(c, log, event) is None,
    ensures
        chain_fault(c, Seq::empty()) is None,
        chain_fault(c, log.events.push(event)) is None,
{
    assert(log.events.push(event).drop_last() =~= log.events);
}

/// An event that a builder makes behind the newest event of a log is taken into
/// that log.
pub proof fn built_events_fit(
    c: CodecView,
    builder: BuilderView,
    log: LogView,
    event_id: u128,
    now: u64,
    actor_id: ActorId,
    payload: PayloadView,
    timestamp_logical: HlcTimestamp,
    vector_clock: Map<Seq<char>, u64>,
)
    ensures
        built(
            c,
            builder,
            event_id,
            now,
            log.orb_id,
            actor_id,
            payload,
            timestamp_logical,
            vector_clock,
            head(log.events),
        ) matches Ok(event) ==> append_fault(c, log, event) is None,
{
}

/// The bytes that the hash is taken of tell the identifier, the payload and the
/// previous hash apart.
pub proof fn hash_covers_the_event(
    a_id: u128,
    a_bytes: Seq<u8>,
    a_prev: Seq<u8>,
    b_id: u128,
    b_bytes: Seq<u8>,
    b_prev: Seq<u8>,
)
    requires
        a_prev.len() == b_prev.len(),
        preimage(a_id, a_bytes, a_prev) == preimage(b_id, b_bytes, b_prev),
    ensures
        a_id == b_id,
        a_bytes == b_bytes,
        a_prev == b_prev,
{
    encoding::lemma_id_bytes(a_id, b_id);
    encoding::lemma_id_bytes(b_id, a_id);
    assert(preimage(a_id, a_bytes, a_prev).len() == 16 + a_bytes.len() + a_prev.len());
    assert(preimage(b_id, b_bytes, b_prev).len() == 16 + b_bytes.len() + b_prev.len());
    encoding::lemma_split(
        outside::id_bytes(a_id) + a_bytes,
        a_prev,
        outside::id_bytes(b_id) + b_bytes,
        b_prev,
    );
    encoding::lemma_split(outside::id_bytes(a_id), a_bytes, outside::id_bytes(b_id), b_bytes);
}

/// The bytes that the hash of an event is taken of, where its payload can be
/// written.
pub open spec fn event_preimage(c: CodecView, event: EventView) -> Seq<u8> {
    preimage(event.event_id, (c.encode)(event.payload)->Ok_0, event.prev_event_hash)
}

/// Two different byte strings with the same digest, among those that the events
/// at a position are hashed of.
pub open spec fn collides(c: CodecView, a: Seq<EventView>, b: Seq<EventView>, i: int) -> bool {
    event_preimage(c, a[i]) != event_preimage(c, b[i]) && outside::sha256(event_preimage(c, a[i]))
        == outside::sha256(event_preimage(c, b[i]))
}

/// Two events agree in what the hash covers.
pub open spec fn same_record(c: CodecView, a: EventView, b: EventView) -> bool {
    a.event_id == b.event_id && (c.encode)(a.payload) == (c.encode)(b.payload)
        && a.prev_event_hash == b.prev_event_hash && a.event_hash == b.event_hash
}

proof fn lemma_sound_link(c: CodecView, events: Seq<EventView>, i: int)
    requires
        chain_fault(c, events) is None,
        0 <= i < events.len(),
    ensures
        hash_fault(c, events[i]) is None,
        events[i].prev_event_hash == head(events.take(i)),
{
    lemma_fault_sticks(c, events, i + 1, Seq::empty());
    assert(events.take(i + 1).drop_last() =~= events.take(i));
    assert(events.take(i + 1).last() == events[i]);
}

/// Tampering shows: two logs of the same length without fault that end in the
/// same hash agree in every event, as far as the hash covers it, unless two
/// different byte strings with the same digest have been found.
pub proof fn tampering_needs_a_collision(c: CodecView, a: Seq<EventView>, b: Seq<EventView>, n: nat)
    requires
        chain_fault(c, a) is None,
        chain_fault(c, b) is None,
        n <= a.len(),
        n <= b.len(),
        n > 0 ==> a[n - 1].event_hash == b[n - 1].event_hash,
        forall|i: int|
            0 <= i < n ==> (#[trigger] a[i]).prev_event_hash.len() == 32
                && b[i].prev_event_hash.len() == 32,
    ensures
        (forall|i: int| 0 <= i < n ==> same_record(c, #[trigger] a[i], b[i])) || (exists|i: int|
            0 <= i < n && #[trigger] collides(c, a, b, i)),
    decreases n,
{
    if n > 0 {
        let k = n - 1;
        lemma_sound_link(c, a, k);
        lemma_sound_link(c, b, k);
        assert(a[k].prev_event_hash.len() == 32);
        if event_preimage(c, a[k]) != event_preimage(c, b[k]) {
            assert(collides(c, a, b, k));
        } else {
            hash_covers_the_event(
                a[k].event_id,
                (c.encode)(a[k].payload)->Ok_0,
                a[k].prev_event_hash,
                b[k].event_id,
                (c.encode)(b[k].payload)->Ok_0,
                b[k].prev_event_hash,
            );
            if k > 0 {
                assert(a.take(k).last() == a[k - 1]);
                assert(b.take(k).last() == b[k - 1]);
            }
            tampering_needs_a_collision(c, a, b, k as nat);
        }
    }
}

/// The events that lead to one end with it, where it is there.
pub proof fn ways_end_at_their_target(events: Seq<EventView>, target: u128, i: int)
    requires
        0 <= i < events.len(),
        events[i].event_id == target,
    ensures
        0 < way_to(events, target) <= i + 1,
        events[way_to(events, target) - 1].event_id == target,
    decreases i,
{
    if exists|j: int| 0 <= j < i && (#[trigger] events[j]).event_id == target {
        let j = choose|j: int| 0 <= j < i && (#[trigger] events[j]).event_id == target;
        ways_end_at_their_target(events, target, j);
    } else {
        lemma_way_ends(events, i, target);
    }
}

} // verus!
