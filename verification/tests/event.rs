use ed25519_dalek::{Signer, SigningKey};
use piria::clock::{HlcTimestamp, VectorClock};
use piria::error::PiriaError;
use piria::event::{verifying_key, EventBuilder, OrbEventLog};
use piria::float::Single;
use piria::payload::{ActorId, Codec, Event, EventPayload};
use rand::rngs::OsRng;
use sha2::{Digest, Sha256};
use uuid::Uuid;

type Write = fn(&EventPayload) -> Result<Vec<u8>, String>;
type Read = fn(&str) -> Result<Event, String>;

fn write_payload(payload: &EventPayload) -> Result<Vec<u8>, String> {
    Ok(format!("{:?}", payload).into_bytes())
}

fn read_nothing(_line: &str) -> Result<Event, String> {
    Err("nothing to read".to_string())
}

fn codec() -> Codec<Write, Read> {
    Codec::new(write_payload as Write, read_nothing as Read)
}

fn fresh() -> u128 {
    Uuid::now_v7().as_u128()
}

fn make_signing_key() -> [u8; 32] {
    SigningKey::generate(&mut OsRng).to_bytes()
}

fn make_builder(key: [u8; 32]) -> EventBuilder {
    EventBuilder::new("node-test").with_signing_key(key)
}

fn make_event(builder: &EventBuilder, orb_id: u128, prev_hash: [u8; 32]) -> Event {
    builder
        .build(
            &codec(),
            orb_id,
            ActorId::System,
            EventPayload::OrbCreated {
                initial_trust: Single::from_bits(0.095f32.to_bits()),
                permissions_bits: 0x037,
                probability_categories: 4,
            },
            HlcTimestamp::now(),
            VectorClock::new(),
            prev_hash,
        )
        .unwrap()
}

#[test]
fn event_hash_correct() {
    let key = make_signing_key();
    let builder = make_builder(key);
    let orb_id = fresh();
    let event = make_event(&builder, orb_id, [0u8; 32]);
    event.verify_hash(&codec()).unwrap();
}

#[test]
fn event_signature_valid() {
    let key = make_signing_key();
    let vk = verifying_key(&key);
    let builder = make_builder(key);
    let orb_id = fresh();
    let event = make_event(&builder, orb_id, [0u8; 32]);
    event.verify_signature(&vk).unwrap();
}

#[test]
fn hash_chain_append_and_verify() {
    let key = make_signing_key();
    let builder = make_builder(key);
    let orb_id = fresh();
    let mut log = OrbEventLog::new(orb_id);

    let e1 = make_event(&builder, orb_id, [0u8; 32]);
    let e2 = make_event(&builder, orb_id, e1.event_hash);
    let e3 = make_event(&builder, orb_id, e2.event_hash);

    log.append(&codec(), e1).unwrap();
    log.append(&codec(), e2).unwrap();
    log.append(&codec(), e3).unwrap();

    log.verify_chain(&codec()).unwrap();
    assert_eq!(log.len(), 3);
}

#[test]
fn hash_chain_rejects_broken_link() {
    let key = make_signing_key();
    let builder = make_builder(key);
    let orb_id = fresh();
    let mut log = OrbEventLog::new(orb_id);

    let e1 = make_event(&builder, orb_id, [0u8; 32]);
    let e2 = make_event(&builder, orb_id, [0xFFu8; 32]);

    log.append(&codec(), e1).unwrap();
    let result = log.append(&codec(), e2);
    assert!(matches!(result, Err(PiriaError::HashChainBroken { .. })));
    assert_eq!(log.len(), 1);
}

#[test]
fn tampered_event_detected() {
    let key = make_signing_key();
    let builder = make_builder(key);
    let orb_id = fresh();
    let mut event = make_event(&builder, orb_id, [0u8; 32]);

    event.payload = EventPayload::OrbArchived { archive_key: "tampered".into() };

    assert!(event.verify_hash(&codec()).is_err());
}

#[test]
fn all_signatures_verified_on_chain() {
    let key = make_signing_key();
    let vk = verifying_key(&key);
    let builder = make_builder(key);
    let orb_id = fresh();
    let mut log = OrbEventLog::new(orb_id);

    let e1 = make_event(&builder, orb_id, [0u8; 32]);
    let e2 = make_event(&builder, orb_id, e1.event_hash);
    log.append(&codec(), e1).unwrap();
    log.append(&codec(), e2).unwrap();

    log.verify_signatures(&vk).unwrap();
}

#[test]
fn hash_is_the_digest_of_id_payload_and_link() {
    let payload = EventPayload::OrbArchived { archive_key: "k".into() };
    let id: u128 = 0x0123_4567_89ab_cdef_0123_4567_89ab_cdef;
    let mut hasher = Sha256::new();
    hasher.update(Uuid::from_u128(id).as_bytes());
    hasher.update(format!("{:?}", payload).as_bytes());
    hasher.update([7u8; 32]);
    let expected: [u8; 32] = hasher.finalize().into();
    let hash = Event::compute_hash(&codec(), id, &payload, &[7u8; 32]).unwrap();
    assert_eq!(hash, expected);
}

#[test]
fn signature_is_over_the_hash() {
    let key = SigningKey::from_bytes(&[9u8; 32]);
    assert_eq!(verifying_key(&[9u8; 32]), key.verifying_key().to_bytes());
    let event = make_event(&make_builder([9u8; 32]), 1, [0u8; 32]);
    let expected = key.sign(&event.event_hash).to_bytes().to_vec();
    assert_eq!(event.signature, Some(expected));
}

#[test]
fn wrong_signatures_are_refused() {
    let key = make_signing_key();
    let other = verifying_key(&make_signing_key());
    let mut event = make_event(&make_builder(key), 1, [0u8; 32]);
    let id = event.event_id;
    let refused = |r: Result<(), PiriaError>| {
        matches!(r, Err(PiriaError::SignatureInvalid(x)) if x == id)
    };
    assert!(refused(event.verify_signature(&other)));
    event.signature = Some(vec![1, 2, 3]);
    assert!(refused(event.verify_signature(&verifying_key(&key))));
    event.signature = None;
    assert!(refused(event.verify_signature(&verifying_key(&key))));
    event.sign(&key);
    event.verify_signature(&verifying_key(&key)).unwrap();
    event.event_hash = [3u8; 32];
    assert!(refused(event.verify_signature(&verifying_key(&key))));
}

#[test]
fn unsigned_chain_fails_verification() {
    let builder = EventBuilder::new("node-test");
    assert_eq!(builder.node(), "node-test");
    let event = make_event(&builder, 1, [0u8; 32]);
    assert_eq!(event.signature, None);
    let id = event.event_id;
    let mut log = OrbEventLog::new(1);
    log.append(&codec(), event).unwrap();
    let result = log.verify_signatures(&verifying_key(&[1u8; 32]));
    assert!(matches!(result, Err(PiriaError::SignatureInvalid(x)) if x == id));
}

#[test]
fn broken_hashes_are_told_in_hex() {
    let mut event = make_event(&EventBuilder::new("n"), 1, [0u8; 32]);
    let right = event.event_hash;
    event.event_hash = [0xAB; 32];
    let result = event.verify_hash(&codec());
    assert!(matches!(result, Err(PiriaError::HashChainBroken { .. })));
    if let Err(PiriaError::HashChainBroken { event_id, expected, actual }) = result {
        assert_eq!(event_id, event.event_id);
        let texts = [hex::encode([0xABu8; 32]), hex::encode(right)];
        assert!(texts.contains(&expected) && texts.contains(&actual) && expected != actual);
    }
    let mut log = OrbEventLog::new(1);
    assert!(log.append(&codec(), event).is_err());
    assert!(log.is_empty());
    assert_eq!(log.head_hash(), [0u8; 32]);
}

#[test]
fn encoding_faults_come_through() {
    let fails: Write = |_payload| Err("no encoding".to_string());
    let broken = Codec::new(fails, read_nothing as Read);
    let payload = EventPayload::OrbArchived { archive_key: "k".into() };
    let result = Event::compute_hash(&broken, 1, &payload, &[0u8; 32]);
    assert!(matches!(result, Err(PiriaError::Serialization(text)) if text == "no encoding"));
}

#[test]
fn log_questions() {
    let builder = EventBuilder::new("n");
    let mut log = OrbEventLog::new(1);
    let mut ids = Vec::new();
    for step in 0..4u64 {
        let payload = if step % 2 == 0 {
            EventPayload::OrbArchived { archive_key: "k".into() }
        } else {
            EventPayload::RelationRemoved { edge_id: step as u128, target_orb_id: 2 }
        };
        let event = builder
            .build(
                &codec(),
                1,
                ActorId::Orb(7),
                payload,
                HlcTimestamp::new(100 * step, 0),
                VectorClock::new(),
                log.head_hash(),
            )
            .unwrap();
        ids.push(event.event_id);
        log.append(&codec(), event).unwrap();
    }
    let since: Vec<u128> =
        log.events_since(HlcTimestamp::new(200, 0)).iter().map(|e| e.event_id).collect();
    assert_eq!(since, ids[3..].to_vec());
    let chain: Vec<u128> = log.causal_chain_to(ids[1]).iter().map(|e| e.event_id).collect();
    assert_eq!(chain, ids[..2].to_vec());
    assert_eq!(log.causal_chain_to(5).len(), 4);
    let latest = log
        .latest_of_type(|p| matches!(p, EventPayload::OrbArchived { .. }))
        .map(|e| e.event_id);
    assert_eq!(latest, Some(ids[2]));
    let none = log.latest_of_type(|p| matches!(p, EventPayload::OrbMerged { .. }));
    assert!(none.is_none());
    assert_eq!(log.iter().len(), 4);
    assert_eq!(log.head_hash(), log.iter()[3].event_hash);
    for window in log.iter().windows(2) {
        assert_eq!(window[1].prev_event_hash, window[0].event_hash);
    }
}

#[test]
fn log_takes_events_of_its_entity_only() {
    let event = make_event(&EventBuilder::new("n"), 2, [0u8; 32]);
    let mut log = OrbEventLog::new(1);
    let expected = format!(
        "Event targets orb {} but log is for orb {}",
        Uuid::from_u128(2),
        Uuid::from_u128(1)
    );
    let result = log.append(&codec(), event);
    assert!(matches!(result, Err(PiriaError::Internal(text)) if text == expected));
}

#[test]
fn builder_counts_its_events() {
    let builder = EventBuilder::new("n");
    let mut clock = VectorClock::new();
    clock.tick("m");
    let event = builder
        .build_with(
            &codec(),
            77,
            1_234,
            5,
            ActorId::System,
            EventPayload::OrbArchived { archive_key: "k".into() },
            HlcTimestamp::new(9, 1),
            clock,
            [0u8; 32],
        )
        .unwrap();
    assert_eq!(event.event_id, 77);
    assert_eq!(event.timestamp_physical, 1_234);
    assert_eq!(event.orb_id, 5);
    assert_eq!(event.timestamp_logical, HlcTimestamp::new(9, 1));
    assert_eq!(event.vector_clock.counter("n"), 1);
    assert_eq!(event.vector_clock.counter("m"), 1);
}

#[test]
fn events_get_time_ordered_identifiers() {
    let builder = make_builder(make_signing_key());
    let event = make_event(&builder, fresh(), [0u8; 32]);
    assert_eq!(Uuid::from_u128(event.event_id).get_version_num(), 7);
    let log = OrbEventLog::new(42);
    assert_eq!(log.orb_id, 42);
}
