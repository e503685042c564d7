//! What is kept on disk, and what is made of it.
//!
//! Entities are kept in a snapshot, events in a journal that only grows, one
//! event to a line. Reading and writing files is left to the caller.

use std::collections::HashMap;

use vstd::prelude::*;
use vstd::string::StringExecFns;

use crate::error;
use crate::error::{ErrorView, PiriaError};
use crate::event;
use crate::event::{LogView, OrbEventLog};
use crate::maps;
use crate::maps::keys_of;
use crate::orb::{Orb, OrbView};
use crate::outside::now_ms;
use crate::payload::{Codec, CodecView, Event, EventPayload, EventView};
use crate::text;
use crate::text::{decimal_text, is_blank, join_path};

verus! {

broadcast use vstd::std_specs::hash::group_hash_axioms;

// ---------------------------------------------------------------------------
// Places
// ---------------------------------------------------------------------------

/// Where the snapshot and the journal are kept.
#[derive(Debug)]
pub struct JsonGraphStore {
    root: String,
    snapshot_path: String,
    wal_path: String,
}

/// What a store holds.
#[verifier::ext_equal]
pub struct StoreView {
    pub root: Seq<char>,
    pub snapshot_path: Seq<char>,
    pub wal_path: Seq<char>,
}

impl View for JsonGraphStore {
    type V = StoreView;

    closed spec fn view(&self) -> StoreView {
        StoreView {
            root: self.root@,
            snapshot_path: self.snapshot_path@,
            wal_path: self.wal_path@,
        }
    }
}

/// All entities at a time.
#[derive(Debug)]
pub struct GraphSnapshot {
    /// Unix milliseconds.
    pub saved_at_ms: u64,
    pub orbs: Vec<Orb>,
}

/// What a snapshot holds.
#[verifier::ext_equal]
pub struct SnapshotView {
    pub saved_at_ms: u64,
    pub orbs: Seq<OrbView>,
}

/// What entities hold.
pub open spec fn orb_views(orbs: Seq<Orb>) -> Seq<OrbView> {
    Seq::new(orbs.len(), |i: int| orbs[i]@)
}

impl View for GraphSnapshot {
    type V = SnapshotView;

    open spec fn view(&self) -> SnapshotView {
        SnapshotView { saved_at_ms: self.saved_at_ms, orbs: orb_views(self.orbs@) }
    }
}

/// Copies of entities.
pub fn copy_orbs(orbs: &Vec<Orb>) -> (copies: Vec<Orb>)
    ensures
        orb_views(copies@) == orb_views(orbs@),
{
    let mut copies: Vec<Orb> = Vec::new();
    let mut i: usize = 0;
    while i < orbs.len()
        invariant
            i <= orbs@.len(),
            copies@.len() == i,
            forall|j: int| 0 <= j < i ==> (#[trigger] copies@[j])@ == orbs@[j]@,
        decreases orbs@.len() - i,
    {
        let copy = orbs[i].clone();
        copies.push(copy);
        i += 1;
    }
    assert(orb_views(copies@) =~= orb_views(orbs@));
    copies
}

impl Clone for GraphSnapshot {
    fn clone(&self) -> (copy: Self)
        ensures
            copy@ == self@,
    {
        GraphSnapshot { saved_at_ms: self.saved_at_ms, orbs: copy_orbs(&self.orbs) }
    }
}

/// The store in a directory.
pub open spec fn store_at(root: Seq<char>) -> StoreView {
    StoreView {
        root,
        snapshot_path: text::joined(root, "graph_snapshot.json"@),
        wal_path: text::joined(root, "events.jsonl"@),
    }
}

// ---------------------------------------------------------------------------
// Disk
// ---------------------------------------------------------------------------

/// Which replies a disk may give, where no fault means that all went well.
#[verifier::ext_equal]
pub struct DiskView {
    pub journal: spec_fn(StoreView, EventView, Option<ErrorView>) -> bool,
    pub save: spec_fn(StoreView, SnapshotView, Option<ErrorView>) -> bool,
}

/// What went wrong, if anything.
pub open spec fn fault_of(result: Result<(), PiriaError>) -> Option<ErrorView> {
    match result {
        Ok(()) => None,
        Err(error) => Some(error@),
    }
}

/// Whether a function may reply so to an event that is to be written.
pub open spec fn journals<J: Fn(&JsonGraphStore, &Event) -> Result<(), PiriaError>>(
    journal: J,
    store: StoreView,
    event: EventView,
    reply: Option<ErrorView>,
) -> bool {
    exists|place: &JsonGraphStore, entry: &Event, result: Result<(), PiriaError>| #[trigger]
        call_ensures(journal, (place, entry), result) && place@ == store && entry@ == event
            && fault_of(result) == reply
}

/// Whether a function may reply so to a snapshot that is to be written.
pub open spec fn saves<S: Fn(&JsonGraphStore, &GraphSnapshot) -> Result<(), PiriaError>>(
    save: S,
    store: StoreView,
    snapshot: SnapshotView,
    reply: Option<ErrorView>,
) -> bool {
    exists|place: &JsonGraphStore, all: &GraphSnapshot, result: Result<(), PiriaError>| #[trigger]
        call_ensures(save, (place, all), result) && place@ == store && all@ == snapshot && fault_of(
            result,
        ) == reply
}

/// A pair of functions that write: an event at the end of the journal, and a
/// snapshot in place of the one before it. Either may fail.
pub struct Disk<
    J: Fn(&JsonGraphStore, &Event) -> Result<(), PiriaError>,
    S: Fn(&JsonGraphStore, &GraphSnapshot) -> Result<(), PiriaError>,
> {
    journal: J,
    save: S,
}

impl<
    J: Fn(&JsonGraphStore, &Event) -> Result<(), PiriaError>,
    S: Fn(&JsonGraphStore, &GraphSnapshot) -> Result<(), PiriaError>,
> View for Disk<J, S> {
    type V = DiskView;

    closed spec fn view(&self) -> DiskView {
        DiskView {
            journal: |store: StoreView, event: EventView, reply: Option<ErrorView>|
                journals(self.journal, store, event, reply),
            save: |store: StoreView, snapshot: SnapshotView, reply: Option<ErrorView>|
                saves(self.save, store, snapshot, reply),
        }
    }
}

impl<
    J: Fn(&JsonGraphStore, &Event) -> Result<(), PiriaError>,
    S: Fn(&JsonGraphStore, &GraphSnapshot) -> Result<(), PiriaError>,
> Disk<J, S> {
    #[verifier::type_invariant]
    closed spec fn always_replies(self) -> bool {
        &&& forall|store: &JsonGraphStore, event: &Event| #[trigger]
            call_requires(self.journal, (store, event))
        &&& forall|store: &JsonGraphStore, snapshot: &GraphSnapshot| #[trigger]
            call_requires(self.save, (store, snapshot))
    }

    /// A disk of two functions, which must take everything.
    pub fn new(journal: J, save: S) -> (disk: Self)
        requires
            forall|store: &JsonGraphStore, event: &Event| #[trigger]
                call_requires(journal, (store, event)),
            forall|store: &JsonGraphStore, snapshot: &GraphSnapshot| #[trigger]
                call_requires(save, (store, snapshot)),
        ensures
            forall|store: StoreView, event: EventView, reply: Option<ErrorView>| #[trigger]
                (disk@.journal)(store, event, reply) == journals(journal, store, event, reply),
            forall|store: StoreView, snapshot: SnapshotView, reply: Option<ErrorView>| #[trigger]
                (disk@.save)(store, snapshot, reply) == saves(save, store, snapshot, reply),
    {
        Disk { journal, save }
    }

    fn write_event(&self, store: &JsonGraphStore, event: &Event) -> (result: Result<
        (),
        PiriaError,
    >)
        ensures
            (self@.journal)(store@, event@, fault_of(result)),
    {
        proof {
            use_type_invariant(self);
        }
        let result = (self.journal)(store, event);
        assert(journals(self.journal, store@, event@, fault_of(result)));
        result
    }

    fn write_snapshot(&self, store: &JsonGraphStore, snapshot: &GraphSnapshot) -> (result: Result<
        (),
        PiriaError,
    >)
        ensures
            (self@.save)(store@, snapshot@, fault_of(result)),
    {
        proof {
            use_type_invariant(self);
        }
        let result = (self.save)(store, snapshot);
        assert(saves(self.save, store@, snapshot@, fault_of(result)));
        result
    }
}

// ---------------------------------------------------------------------------
// Journal
// ---------------------------------------------------------------------------

/// What a line of the journal came as: its text, or why it could not be read.
pub open spec fn line_view(line: Result<String, String>) -> Result<Seq<char>, Seq<char>> {
    match line {
        Ok(content) => Ok(content@),
        Err(reason) => Err(reason@),
    }
}

/// What lines came as.
pub open spec fn line_views(lines: Seq<Result<String, String>>) -> Seq<
    Result<Seq<char>, Seq<char>>,
> {
    Seq::new(lines.len(), |i: int| line_view(lines[i]))
}

/// Why the line with a number is no event.
pub open spec fn decode_text(number: nat, reason: Seq<char>) -> Seq<char> {
    "WAL decode error at line "@ + text::decimal(number) + ": "@ + reason
}

/// The events of a journal, or the first thing that is wrong with it: a line
/// that cannot be read, one that is no event, or an event with a wrong hash.
/// Blank lines are passed over.
pub open spec fn read_all(c: CodecView, lines: Seq<Result<Seq<char>, Seq<char>>>) -> Result<
    Seq<EventView>,
    ErrorView,
>
    decreases lines.len(),
{
    if lines.len() == 0 {
        Ok(Seq::empty())
    } else {
        match read_all(c, lines.drop_last()) {
            Err(fault) => Err(fault),
            Ok(events) => match lines.last() {
                Err(reason) => Err(ErrorView::Internal(reason)),
                Ok(content) => if text::blank(content) {
                    Ok(events)
                } else {
                    match (c.decode)(content) {
                        Err(reason) => Err(
                            ErrorView::Internal(decode_text(lines.len(), reason)),
                        ),
                        Ok(event) => match event::hash_fault(c, event) {
                            Some(fault) => Err(fault),
                            None => Ok(events.push(event)),
                        },
                    }
                },
            },
        }
    }
}

/// The log of an entity, an empty one where there is none.
pub open spec fn log_of(logs: Map<u128, LogView>, orb_id: u128) -> LogView {
    if logs.contains_key(orb_id) {
        logs[orb_id]
    } else {
        LogView { orb_id, events: Seq::empty() }
    }
}

/// The logs that events make up, or the first reason why one does not fit.
pub open spec fn grouped(c: CodecView, events: Seq<EventView>) -> Result<
    Map<u128, LogView>,
    ErrorView,
>
    decreases events.len(),
{
    if events.len() == 0 {
        Ok(Map::empty())
    } else {
        match grouped(c, events.drop_last()) {
            Err(fault) => Err(fault),
            Ok(logs) => {
                let event = events.last();
                let log = log_of(logs, event.orb_id);
                match event::append_fault(c, log, event) {
                    Some(fault) => Err(fault),
                    None => Ok(
                        logs.insert(
                            event.orb_id,
                            LogView { events: log.events.push(event), ..log },
                        ),
                    ),
                }
            },
        }
    }
}

/// The logs that a journal makes up, or what is wrong with it. A journal that
/// could not be opened comes with the reason.
pub open spec fn restored(
    c: CodecView,
    wal: Result<Seq<Result<Seq<char>, Seq<char>>>, Seq<char>>,
) -> Result<Map<u128, LogView>, ErrorView> {
    match wal {
        Err(reason) => Err(ErrorView::Internal(reason)),
        Ok(lines) => match read_all(c, lines) {
            Err(fault) => Err(fault),
            Ok(events) => grouped(c, events),
        },
    }
}

/// What a journal came as.
pub open spec fn wal_view(wal: Result<Vec<Result<String, String>>, String>) -> Result<
    Seq<Result<Seq<char>, Seq<char>>>,
    Seq<char>,
> {
    match wal {
        Ok(lines) => Ok(line_views(lines@)),
        Err(reason) => Err(reason@),
    }
}

/// What logs hold.
pub open spec fn log_views(logs: Map<u128, OrbEventLog>) -> Map<u128, LogView> {
    logs.map_values(|log: OrbEventLog| log@)
}

/// Every log belongs to the entity that it is filed under, and its chain is
/// sound.
pub open spec fn sound_logs(c: CodecView, logs: Map<u128, LogView>) -> bool {
    forall|id: u128| #[trigger]
        logs.contains_key(id) ==> logs[id].orb_id == id && event::chain_fault(c, logs[id].events) is None
}

proof fn lemma_read_sticks(c: CodecView, lines: Seq<Result<Seq<char>, Seq<char>>>, i: int)
    requires
        0 <= i <= lines.len(),
    ensures
        read_all(c, lines.take(i)) is Err ==> read_all(c, lines) == read_all(c, lines.take(i)),
    decreases lines.len() - i,
{
    if i == lines.len() {
        assert(lines.take(i) =~= lines);
    } else {
        lemma_read_sticks(c, lines, i + 1);
        assert(lines.take(i + 1).drop_last() =~= lines.take(i));
    }
}

proof fn lemma_group_sticks(c: CodecView, events: Seq<EventView>, i: int)
    requires
        0 <= i <= events.len(),
    ensures
        grouped(c, events.take(i)) is Err ==> grouped(c, events) == grouped(c, events.take(i)),
    decreases events.len() - i,
{
    if i == events.len() {
        assert(events.take(i) =~= events);
    } else {
        lemma_group_sticks(c, events, i + 1);
        assert(events.take(i + 1).drop_last() =~= events.take(i));
    }
}

/// The logs that a journal makes up are sound.
pub proof fn restored_logs_are_sound(c: CodecView, events: Seq<EventView>)
    ensures
        grouped(c, events) matches Ok(logs) ==> sound_logs(c, logs),
    decreases events.len(),
{
    if events.len() > 0 {
        restored_logs_are_sound(c, events.drop_last());
        if let Ok(logs) = grouped(c, events.drop_last()) {
            let event = events.last();
            let log = log_of(logs, event.orb_id);
            if event::append_fault(c, log, event) is None {
                event::logs_stay_chained(c, log, event);
            }
        }
    }
}

/// Nothing is lost in a journal: an event that was taken into its log and then
/// written at the end of a sound journal, so that it reads back as it was, is in
/// that log when the journal is read.
pub proof fn written_events_are_restored(
    c: CodecView,
    lines: Seq<Result<Seq<char>, Seq<char>>>,
    content: Seq<char>,
    event: EventView,
)
    requires
        read_all(c, lines) is Ok,
        grouped(c, read_all(c, lines)->Ok_0) is Ok,
        !text::blank(content),
        (c.decode)(content) == Ok::<EventView, Seq<char>>(event),
        event::append_fault(
            c,
            log_of(grouped(c, read_all(c, lines)->Ok_0)->Ok_0, event.orb_id),
            event,
        ) is None,
    ensures
        ({
            let before = grouped(c, read_all(c, lines)->Ok_0)->Ok_0;
            let log = log_of(before, event.orb_id);
            restored(c, Ok(lines.push(Ok(content)))) == Ok::<Map<u128, LogView>, ErrorView>(
                before.insert(
                    event.orb_id,
                    LogView { events: log.events.push(event), ..log },
                ),
            )
        }),
{
    let more = lines.push(Ok(content));
    assert(more.drop_last() =~= lines);
    let events = read_all(c, lines)->Ok_0;
    assert(event::hash_fault(c, event) is None);
    assert(read_all(c, more) == Ok::<Seq<EventView>, ErrorView>(events.push(event)));
    assert(events.push(event).drop_last() =~= events);
}

impl Clone for JsonGraphStore {
    fn clone(&self) -> (copy: Self)
        ensures
            copy@ == self@,
    {
        JsonGraphStore {
            root: self.root.clone(),
            snapshot_path: self.snapshot_path.clone(),
            wal_path: self.wal_path.clone(),
        }
    }
}

impl JsonGraphStore {
    /// The store in a directory.
    pub fn at(root: &str) -> (store: Self)
        ensures
            store@ == store_at(root@),
    {
        JsonGraphStore {
            root: root.to_owned(),
            snapshot_path: join_path(root, "graph_snapshot.json"),
            wal_path: join_path(root, "events.jsonl"),
        }
    }

    /// The directory.
    pub fn root(&self) -> (path: &str)
        ensures
            path@ == self@.root,
    {
        self.root.as_str()
    }

    /// The file of the snapshot.
    pub fn snapshot_path(&self) -> (path: &str)
        ensures
            path@ == self@.snapshot_path,
    {
        self.snapshot_path.as_str()
    }

    /// The file of the journal.
    pub fn wal_path(&self) -> (path: &str)
        ensures
            path@ == self@.wal_path,
    {
        self.wal_path.as_str()
    }

    /// Writes a snapshot as of `now`.
    pub fn save_snapshot_at<
        J: Fn(&JsonGraphStore, &Event) -> Result<(), PiriaError>,
        S: Fn(&JsonGraphStore, &GraphSnapshot) -> Result<(), PiriaError>,
    >(&self, disk: &Disk<J, S>, orbs: Vec<Orb>, now: u64) -> (result: Result<(), PiriaError>)
        ensures
            (disk@.save)(
                self@,
                SnapshotView { saved_at_ms: now, orbs: orb_views(orbs@) },
                fault_of(result),
            ),
    {
        let snapshot = GraphSnapshot { saved_at_ms: now, orbs };
        disk.write_snapshot(self, &snapshot)
    }

    /// Writes a snapshot.
    pub fn save_snapshot<
        J: Fn(&JsonGraphStore, &Event) -> Result<(), PiriaError>,
        S: Fn(&JsonGraphStore, &GraphSnapshot) -> Result<(), PiriaError>,
    >(&self, disk: &Disk<J, S>, orbs: Vec<Orb>) -> (result: Result<(), PiriaError>)
        ensures
            exists|now: u64|
                #![trigger (disk@.save)(
                    self@,
                    SnapshotView { saved_at_ms: now, orbs: orb_views(orbs@) },
                    fault_of(result),
                )]
                (disk@.save)(
                    self@,
                    SnapshotView { saved_at_ms: now, orbs: orb_views(orbs@) },
                    fault_of(result),
                ),
    {
        self.save_snapshot_at(disk, orbs, now_ms())
    }

    /// Writes an event at the end of the journal, where its hash is right.
    pub fn append_event<
        E: Fn(&EventPayload) -> Result<Vec<u8>, String>,
        D: Fn(&str) -> Result<Event, String>,
        J: Fn(&JsonGraphStore, &Event) -> Result<(), PiriaError>,
        S: Fn(&JsonGraphStore, &GraphSnapshot) -> Result<(), PiriaError>,
    >(&self, codec: &Codec<E, D>, disk: &Disk<J, S>, event: &Event) -> (result: Result<
        (),
        PiriaError,
    >)
        ensures
            match event::hash_fault(codec@, event@) {
                Some(fault) => fault_of(result) == Some(fault),
                None => (disk@.journal)(self@, event@, fault_of(result)),
            },
    {
        match event.verify_hash(codec) {
            Err(error) => Err(error),
            Ok(()) => disk.write_event(self, event),
        }
    }

    /// The events of a journal, from its lines.
    pub fn read_events<
        E: Fn(&EventPayload) -> Result<Vec<u8>, String>,
        D: Fn(&str) -> Result<Event, String>,
    >(codec: &Codec<E, D>, lines: Vec<Result<String, String>>) -> (result: Result<
        Vec<Event>,
        PiriaError,
    >)
        ensures
            match (result, read_all(codec@, line_views(lines@))) {
                (Ok(events), Ok(views)) => event::views_of(events@) == views,
                (Err(error), Err(fault)) => error@ == fault,
                _ => false,
            },
    {
        let ghost all = line_views(lines@);
        let mut events: Vec<Event> = Vec::new();
        let mut i: usize = 0;
        assert(event::views_of(events@) =~= Seq::empty());
        while i < lines.len()
            invariant
                i <= lines@.len(),
                all == line_views(lines@),
                read_all(codec@, all.take(i as int)) == Ok::<Seq<EventView>, ErrorView>(
                    event::views_of(events@),
                ),
            decreases lines@.len() - i,
        {
            proof {
                assert(all.take(i + 1).drop_last() =~= all.take(i as int));
                assert(all.take(i + 1).last() == all[i as int]);
                lemma_read_sticks(codec@, all, i + 1);
            }
            let number: usize = i + 1;
            match &lines[i] {
                Err(reason) => {
                    return Err(PiriaError::Internal(reason.clone()));
                },
                Ok(content) => {
                    if !is_blank(content.as_str()) {
                        match codec.read(content.as_str()) {
                            Err(reason) => {
                                let mut message = "WAL decode error at line ".to_owned();
                                let digits = decimal_text(number as u64);
                                message.append(digits.as_str());
                                message.append(": ");
                                message.append(reason.as_str());
                                return Err(PiriaError::Internal(message));
                            },
                            Ok(event) => {
                                match event.verify_hash(codec) {
                                    Err(error) => {
                                        return Err(error);
                                    },
                                    Ok(()) => {},
                                }
                                let ghost before = events@;
                                events.push(event);
                                assert(event::views_of(events@) =~= event::views_of(before).push(
                                    event@,
                                ));
                            },
                        }
                    }
                },
            }
            i += 1;
        }
        assert(all.take(i as int) =~= all);
        Ok(events)
    }

    /// The logs that a journal makes up.
    pub fn load_event_logs<
        E: Fn(&EventPayload) -> Result<Vec<u8>, String>,
        D: Fn(&str) -> Result<Event, String>,
    >(codec: &Codec<E, D>, wal: Result<Vec<Result<String, String>>, String>) -> (result: Result<
        HashMap<u128, OrbEventLog>,
        PiriaError,
    >)
        ensures
            match (result, restored(codec@, wal_view(wal))) {
                (Ok(logs), Ok(views)) => log_views(logs@) == views,
                (Err(error), Err(fault)) => error@ == fault,
                _ => false,
            },
    {
        let lines = match wal {
            Err(reason) => {
                return Err(PiriaError::Internal(reason));
            },
            Ok(lines) => lines,
        };
        let events = match JsonGraphStore::read_events(codec, lines) {
            Err(error) => {
                return Err(error);
            },
            Ok(events) => events,
        };
        let ghost all = event::views_of(events@);
        let mut logs: HashMap<u128, OrbEventLog> = HashMap::new();
        let mut i: usize = 0;
        assert(log_views(logs@) =~= Map::empty());
        assert(all.take(0) =~= Seq::empty());
        while i < events.len()
            invariant
                i <= events@.len(),
                all == event::views_of(events@),
                restored(codec@, wal_view(wal)) == grouped(codec@, all),
                grouped(codec@, all.take(i as int)) == Ok::<Map<u128, LogView>, ErrorView>(
                    log_views(logs@),
                ),
            decreases events@.len() - i,
        {
            let event = events[i].clone();
            proof {
                assert(all.take(i + 1).drop_last() =~= all.take(i as int));
                assert(all.take(i + 1).last() == event@);
                lemma_group_sticks(codec@, all, i + 1);
            }
            let ghost before = log_views(logs@);
            let orb_id: u128 = event.orb_id;
            let ghost view = event@;
            let mut log = match logs.remove(&orb_id) {
                Some(log) => log,
                None => OrbEventLog::new(orb_id),
            };
            assert(log@ == log_of(before, orb_id));
            match log.append(codec, event) {
                Err(error) => {
                    return Err(error);
                },
                Ok(()) => {},
            }
            logs.insert(orb_id, log);
            assert(log_views(logs@) =~= before.insert(orb_id, log@));
            i += 1;
        }
        assert(all.take(i as int) =~= all);
        proof {
            restored_logs_are_sound(codec@, all);
        }
        let keys = keys_of(&logs);
        let mut k: usize = 0;
        while k < keys.len()
            invariant
                k <= keys@.len(),
                maps::lists(keys@, logs@.dom()),
                sound_logs(codec@, log_views(logs@)),
            decreases keys@.len() - k,
        {
            if let Some(log) = logs.get(&keys[k]) {
                assert(log_views(logs@).contains_key(keys@[k as int]));
                match log.verify_chain(codec) {
                    Err(error) => {
                        assert(false);
                        return Err(error);
                    },
                    Ok(()) => {},
                }
            }
            k += 1;
        }
        Ok(logs)
    }
}

} // verus!
