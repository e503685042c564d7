use piria::clock::{HlcTimestamp, VectorClock};
use piria::error::PiriaError;
use piria::event::EventBuilder;
use piria::payload::{ActorId, Codec, Event, EventPayload};
use piria::storage::{Disk, GraphSnapshot, JsonGraphStore};
use std::cell::RefCell;

type Write = fn(&EventPayload) -> Result<Vec<u8>, String>;
type Read = fn(&str) -> Result<Event, String>;

fn write_payload(payload: &EventPayload) -> Result<Vec<u8>, String> {
    Ok(format!("{:?}", payload).into_bytes())
}

fn chain(orb_id: u128, n: usize) -> Vec<Event> {
    let codec = Codec::new(write_payload as Write, no_events as Read);
    let builder = EventBuilder::new("n");
    let mut events: Vec<Event> = Vec::new();
    for i in 0..n {
        let prev = events.last().map(|e| e.event_hash).unwrap_or([0u8; 32]);
        let event = builder
            .build_with(
                &codec,
                1_000 * orb_id + i as u128,
                0,
                orb_id,
                ActorId::System,
                EventPayload::RelationRemoved { edge_id: i as u128, target_orb_id: 9 },
                HlcTimestamp::new(i as u64, 0),
                VectorClock::new(),
                prev,
            )
            .unwrap();
        events.push(event);
    }
    events
}

fn no_events(_line: &str) -> Result<Event, String> {
    Err("no events".to_string())
}

fn lines(texts: &[&str]) -> Vec<Result<String, String>> {
    texts.iter().map(|text| Ok(text.to_string())).collect()
}

#[test]
fn store_knows_its_files() {
    let store = JsonGraphStore::at("data");
    assert_eq!(store.root(), "data");
    assert_eq!(store.snapshot_path(), "data/graph_snapshot.json");
    assert_eq!(store.wal_path(), "data/events.jsonl");
    let store = JsonGraphStore::at("data/");
    assert_eq!(store.wal_path(), "data/events.jsonl");
    let store = JsonGraphStore::at("");
    assert_eq!(store.wal_path(), "events.jsonl");
}

#[test]
fn journal_is_read_line_by_line() {
    let events = chain(1, 3);
    let read = |line: &str| match line.trim().parse::<usize>() {
        Ok(i) if i < events.len() => Ok(events[i].clone()),
        _ => Err("unknown".to_string()),
    };
    let codec = Codec::new(write_payload as Write, read);
    let all = lines(&["0", "", "  \t", "1", "\u{a0}", "2"]);
    let found = JsonGraphStore::read_events(&codec, all).unwrap();
    let ids: Vec<u128> = found.iter().map(|e| e.event_id).collect();
    assert_eq!(ids, vec![1_000, 1_001, 1_002]);
    let result = JsonGraphStore::read_events(&codec, lines(&["0", "", "x", "1"]));
    assert!(matches!(
        result,
        Err(PiriaError::Internal(text)) if text == "WAL decode error at line 3: unknown"
    ));
    let mut all = lines(&["0"]);
    all.push(Err("disk is gone".to_string()));
    let result = JsonGraphStore::read_events(&codec, all);
    assert!(matches!(result, Err(PiriaError::Internal(text)) if text == "disk is gone"));
}

#[test]
fn journal_with_wrong_hash_is_refused() {
    let mut events = chain(1, 2);
    events[1].event_hash = [1u8; 32];
    let read = |line: &str| Ok(events[line.parse::<usize>().unwrap()].clone());
    let codec = Codec::new(write_payload as Write, read);
    let result = JsonGraphStore::read_events(&codec, lines(&["0", "1"]));
    assert!(matches!(result, Err(PiriaError::HashChainBroken { event_id: 1_001, .. })));
}

#[test]
fn journal_is_grouped_by_entity() {
    let mut events = chain(1, 2);
    events.extend(chain(2, 1));
    let read = |line: &str| Ok(events[line.parse::<usize>().unwrap()].clone());
    let codec = Codec::new(write_payload as Write, read);
    let logs = JsonGraphStore::load_event_logs(&codec, Ok(lines(&["0", "2", "1"]))).unwrap();
    assert_eq!(logs.len(), 2);
    assert_eq!(logs[&1].len(), 2);
    assert_eq!(logs[&2].len(), 1);
    logs[&1].verify_chain(&codec).unwrap();
    assert_eq!(logs[&1].head_hash(), events[1].event_hash);
    let swapped = JsonGraphStore::load_event_logs(&codec, Ok(lines(&["1", "0"])));
    assert!(matches!(swapped, Err(PiriaError::HashChainBroken { event_id: 1_001, .. })));
    let missing = JsonGraphStore::load_event_logs(&codec, Err("no file".to_string()));
    assert!(matches!(missing, Err(PiriaError::Internal(text)) if text == "no file"));
}

#[test]
fn journal_takes_intact_events_only() {
    let journal: RefCell<Vec<u128>> = RefCell::new(Vec::new());
    let codec = Codec::new(write_payload as Write, no_events as Read);
    let disk = Disk::new(
        |store: &JsonGraphStore, event: &Event| {
            if store.root() == "full" {
                return Err(PiriaError::Internal("disk full".to_string()));
            }
            journal.borrow_mut().push(event.event_id);
            Ok(())
        },
        |_store: &JsonGraphStore, _snapshot: &GraphSnapshot| Ok(()),
    );
    let mut events = chain(1, 2);
    let store = JsonGraphStore::at("data");
    store.append_event(&codec, &disk, &events[0]).unwrap();
    events[1].event_hash = [1u8; 32];
    assert!(store.append_event(&codec, &disk, &events[1]).is_err());
    assert_eq!(*journal.borrow(), vec![1_000]);
    let result = JsonGraphStore::at("full").append_event(&codec, &disk, &events[0]);
    assert!(matches!(result, Err(PiriaError::Internal(text)) if text == "disk full"));
}

#[test]
fn written_journal_is_restored() {
    let journal: RefCell<Vec<Event>> = RefCell::new(Vec::new());
    let codec = Codec::new(write_payload as Write, |line: &str| {
        Ok(journal.borrow()[line.parse::<usize>().unwrap()].clone())
    });
    let disk = Disk::new(
        |_store: &JsonGraphStore, event: &Event| {
            journal.borrow_mut().push(event.clone());
            Ok(())
        },
        |_store: &JsonGraphStore, _snapshot: &GraphSnapshot| Ok(()),
    );
    let store = JsonGraphStore::at("data");
    for event in chain(5, 3) {
        store.append_event(&codec, &disk, &event).unwrap();
    }
    let found = JsonGraphStore::load_event_logs(&codec, Ok(lines(&["0", "1", "2"]))).unwrap();
    let ids: Vec<u128> = found[&5].iter().iter().map(|e| e.event_id).collect();
    assert_eq!(ids, vec![5_000, 5_001, 5_002]);
}

#[test]
fn snapshot_carries_its_time() {
    let saved: RefCell<Vec<u64>> = RefCell::new(Vec::new());
    let disk = Disk::new(
        |_store: &JsonGraphStore, _event: &Event| Ok(()),
        |_store: &JsonGraphStore, snapshot: &GraphSnapshot| {
            saved.borrow_mut().push(snapshot.saved_at_ms);
            Ok(())
        },
    );
    let store = JsonGraphStore::at("data");
    store.save_snapshot_at(&disk, vec![], 42).unwrap();
    store.save_snapshot(&disk, vec![]).unwrap();
    assert_eq!(saved.borrow()[0], 42);
    assert!(saved.borrow()[1] > 1_600_000_000_000);
}
