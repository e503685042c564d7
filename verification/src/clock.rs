//! Hybrid logical clocks and vector clocks.

use vstd::prelude::*;

use crate::error::PiriaError;
use crate::outside::wall_clock_ms;

verus! {

/// How far a remote clock may run ahead of the local wall clock.
pub const MAX_CLOCK_SKEW_MS: u64 = 500;

/// A hybrid logical timestamp: wall-clock milliseconds, and a counter that
/// orders what happens within the same millisecond.
#[derive(Debug, Clone, Copy, PartialEq, Eq, PartialOrd, Ord, Structural)]
pub struct HlcTimestamp {
    pub physical_ms: u64,
    pub logical: u32,
}

impl HlcTimestamp {
    /// Timestamps are ordered by time first and by counter second.
    pub open spec fn before(self, other: HlcTimestamp) -> bool {
        self.physical_ms < other.physical_ms || (self.physical_ms == other.physical_ms
            && self.logical < other.logical)
    }

    /// The later one of two timestamps.
    pub open spec fn later(self, other: HlcTimestamp) -> HlcTimestamp {
        if self.before(other) {
            other
        } else {
            self
        }
    }

    /// The earlier one of two timestamps.
    pub open spec fn earlier(self, other: HlcTimestamp) -> HlcTimestamp {
        if other.before(self) {
            other
        } else {
            self
        }
    }

    pub fn new(physical_ms: u64, logical: u32) -> (result: Self)
        ensures
            result == (HlcTimestamp { physical_ms, logical }),
    {
        HlcTimestamp { physical_ms, logical }
    }

    pub fn zero() -> (result: Self)
        ensures
            result == (HlcTimestamp { physical_ms: 0, logical: 0 }),
    {
        HlcTimestamp { physical_ms: 0, logical: 0 }
    }

    /// The wall clock's time, with the counter at zero.
    pub fn now() -> (result: Self)
        ensures
            result.logical == 0,
    {
        HlcTimestamp { physical_ms: wall_clock_ms(), logical: 0 }
    }

    pub fn is_before(&self, other: &HlcTimestamp) -> (result: bool)
        ensures
            result == self.before(*other),
    {
        self.physical_ms < other.physical_ms || (self.physical_ms == other.physical_ms
            && self.logical < other.logical)
    }

    pub fn latest(&self, other: &HlcTimestamp) -> (result: HlcTimestamp)
        ensures
            result == self.later(*other),
    {
        if self.is_before(other) {
            *other
        } else {
            *self
        }
    }

    pub fn earliest(&self, other: &HlcTimestamp) -> (result: HlcTimestamp)
        ensures
            result == self.earlier(*other),
    {
        if other.is_before(self) {
            *other
        } else {
            *self
        }
    }
}

/// A counter one further, or where it is if it cannot go further.
pub open spec fn bumped(counter: u32) -> u32 {
    if counter < u32::MAX {
        (counter + 1) as u32
    } else {
        u32::MAX
    }
}

/// The timestamp of a local event, from the last timestamp and the wall clock.
pub open spec fn ticked(last: HlcTimestamp, wall: u64) -> HlcTimestamp {
    if wall > last.physical_ms {
        HlcTimestamp { physical_ms: wall, logical: 0 }
    } else {
        HlcTimestamp { physical_ms: last.physical_ms, logical: bumped(last.logical) }
    }
}

/// Whether a remote timestamp lies too far ahead of the wall clock.
pub open spec fn skewed(remote: HlcTimestamp, wall: u64) -> bool {
    remote.physical_ms > wall + MAX_CLOCK_SKEW_MS
}

/// The timestamp of the receipt of a remote event.
pub open spec fn received(last: HlcTimestamp, remote: HlcTimestamp, wall: u64) -> HlcTimestamp {
    let local = if last.physical_ms > wall {
        last.physical_ms
    } else {
        wall
    };
    if local > remote.physical_ms {
        HlcTimestamp { physical_ms: local, logical: bumped(last.logical) }
    } else if remote.physical_ms > local {
        HlcTimestamp { physical_ms: remote.physical_ms, logical: bumped(remote.logical) }
    } else {
        HlcTimestamp {
            physical_ms: local,
            logical: bumped(
                if last.logical > remote.logical {
                    last.logical
                } else {
                    remote.logical
                },
            ),
        }
    }
}

/// A hybrid logical clock.
pub struct HlcClock {
    state: HlcTimestamp,
}

impl View for HlcClock {
    type V = HlcTimestamp;

    /// The last timestamp that the clock gave.
    closed spec fn view(&self) -> HlcTimestamp {
        self.state
    }
}

impl HlcClock {
    pub fn new() -> (clock: Self)
        ensures
            clock@ == (HlcTimestamp { physical_ms: 0, logical: 0 }),
    {
        HlcClock { state: HlcTimestamp::zero() }
    }

    /// The timestamp of a local event at the given wall-clock time.
    pub fn now_at(&mut self, wall: u64) -> (next: HlcTimestamp)
        ensures
            next == ticked(old(self)@, wall),
            final(self)@ == next,
    {
        let next = if wall > self.state.physical_ms {
            HlcTimestamp::new(wall, 0)
        } else {
            HlcTimestamp::new(self.state.physical_ms, self.state.logical.saturating_add(1))
        };
        self.state = next;
        next
    }

    /// The timestamp of a local event.
    pub fn now(&mut self) -> (result: Result<HlcTimestamp, PiriaError>)
        ensures
            result is Ok,
            exists|wall: u64| #[trigger] ticked(old(self)@, wall) == result->Ok_0,
            final(self)@ == result->Ok_0,
    {
        let wall = wall_clock_ms();
        Ok(self.now_at(wall))
    }

    /// The timestamp of the receipt of a remote event at the given wall-clock
    /// time. What lies too far ahead is refused, and leaves the clock as it is.
    pub fn receive_at(&mut self, remote: &HlcTimestamp, wall: u64) -> (result: Result<
        HlcTimestamp,
        PiriaError,
    >)
        ensures
            result is Err <==> skewed(*remote, wall),
            result matches Ok(next) ==> next == received(old(self)@, *remote, wall) && final(self)@
                == next,
            result matches Err(error) ==> error is Internal && error->Internal_0@
                == "Clock skew exceeded"@ && final(self)@ == old(self)@,
    {
        if remote.physical_ms > wall && remote.physical_ms - wall > MAX_CLOCK_SKEW_MS {
            return Err(PiriaError::Internal("Clock skew exceeded".to_owned()));
        }
        let local: u64 = if self.state.physical_ms > wall {
            self.state.physical_ms
        } else {
            wall
        };
        let next = if local > remote.physical_ms {
            HlcTimestamp::new(local, self.state.logical.saturating_add(1))
        } else if remote.physical_ms > local {
            HlcTimestamp::new(remote.physical_ms, remote.logical.saturating_add(1))
        } else {
            let logical: u32 = if self.state.logical > remote.logical {
                self.state.logical
            } else {
                remote.logical
            };
            HlcTimestamp::new(local, logical.saturating_add(1))
        };
        self.state = next;
        Ok(next)
    }

    /// The timestamp of the receipt of a remote event. What lies too far ahead
    /// of the wall clock is refused, and leaves the clock as it is.
    pub fn receive(&mut self, remote: &HlcTimestamp) -> (result: Result<HlcTimestamp, PiriaError>)
        ensures
            exists|wall: u64|
                (result is Err <==> #[trigger] skewed(*remote, wall)) && (result matches Ok(next)
                    ==> next == received(old(self)@, *remote, wall)),
            result matches Ok(next) ==> final(self)@ == next,
            result matches Err(error) ==> error is Internal && error->Internal_0@
                == "Clock skew exceeded"@ && final(self)@ == old(self)@,
    {
        let wall = wall_clock_ms();
        let result = self.receive_at(remote, wall);
        assert(result is Err <==> skewed(*remote, wall));
        result
    }
}

/// A local event gets a timestamp after every earlier one, unless time stands
/// still and the counter is at its end.
pub proof fn ticking_moves_forward(last: HlcTimestamp, wall: u64)
    requires
        last.physical_ms < wall || last.logical < u32::MAX,
    ensures
        last.before(ticked(last, wall)),
        ticked(last, wall).physical_ms >= wall,
{
}

/// The clock never runs backwards, even where the counter is at its end.
pub proof fn ticking_never_moves_back(last: HlcTimestamp, wall: u64)
    ensures
        !ticked(last, wall).before(last),
{
}

/// The receipt of an event comes after the event itself and after everything
/// that the receiver did before, unless it falls into the same millisecond and
/// the counter there is at its end.
pub proof fn receipt_follows_both_sides(last: HlcTimestamp, remote: HlcTimestamp, wall: u64)
    ensures
        last.physical_ms < received(last, remote, wall).physical_ms || last.logical < u32::MAX
            ==> last.before(received(last, remote, wall)),
        remote.physical_ms < received(last, remote, wall).physical_ms || remote.logical < u32::MAX
            ==> remote.before(received(last, remote, wall)),
{
}

/// An accepted receipt never puts the clock further ahead of the wall clock
/// than the allowed skew, unless the clock was ahead already.
pub proof fn receipt_bounds_the_skew(last: HlcTimestamp, remote: HlcTimestamp, wall: u64)
    requires
        !skewed(remote, wall),
        last.physical_ms <= wall + MAX_CLOCK_SKEW_MS,
    ensures
        received(last, remote, wall).physical_ms <= wall + MAX_CLOCK_SKEW_MS,
{
}

// ---------------------------------------------------------------------------
// Vector clocks
// ---------------------------------------------------------------------------

/// The position of a node in a list of counters.
pub open spec fn holds_node(entries: Seq<(String, u64)>, node: Seq<char>) -> bool {
    exists|i: int| 0 <= i < entries.len() && (#[trigger] entries[i]).0@ == node
}

pub open spec fn no_node_twice(entries: Seq<(String, u64)>) -> bool {
    forall|i: int, j: int|
        0 <= i < j < entries.len() ==> (#[trigger] entries[i]).0@ != (#[trigger] entries[j]).0@
}

/// The counters of a list, by node.
pub open spec fn counters(entries: Seq<(String, u64)>) -> Map<Seq<char>, u64> {
    Map::new(
        |node: Seq<char>| holds_node(entries, node),
        |node: Seq<char>|
            entries[choose|i: int|
                0 <= i < entries.len() && (#[trigger] entries[i]).0@ == node].1,
    )
}

/// The counters of a list in which a node may occur twice: the last one counts.
pub open spec fn tallied(list: Seq<(String, u64)>) -> Map<Seq<char>, u64>
    decreases list.len(),
{
    if list.len() == 0 {
        Map::empty()
    } else {
        tallied(list.drop_last()).insert(list.last().0@, list.last().1)
    }
}

/// One counter for each node that took part.
#[derive(Debug)]
pub struct VectorClock {
    entries: Vec<(String, u64)>,
}

impl View for VectorClock {
    type V = Map<Seq<char>, u64>;

    closed spec fn view(&self) -> Map<Seq<char>, u64> {
        counters(self.entries@)
    }
}

/// The counter of a node; zero for a node that never took part.
pub open spec fn count(clock: Map<Seq<char>, u64>, node: Seq<char>) -> u64 {
    if clock.contains_key(node) {
        clock[node]
    } else {
        0
    }
}

/// A clock after an event at a node.
pub open spec fn advanced(clock: Map<Seq<char>, u64>, node: Seq<char>) -> Map<Seq<char>, u64> {
    clock.insert(node, (count(clock, node) + 1) as u64)
}

/// The larger counter of two clocks, node by node.
pub open spec fn joined(a: Map<Seq<char>, u64>, b: Map<Seq<char>, u64>) -> Map<Seq<char>, u64> {
    Map::new(
        |node: Seq<char>| a.contains_key(node) || b.contains_key(node),
        |node: Seq<char>|
            if count(a, node) >= count(b, node) {
                count(a, node)
            } else {
                count(b, node)
            },
    )
}

proof fn lemma_counter_at(entries: Seq<(String, u64)>, i: int)
    requires
        no_node_twice(entries),
        0 <= i < entries.len(),
    ensures
        counters(entries).contains_key(entries[i].0@),
        counters(entries)[entries[i].0@] == entries[i].1,
{
    let node = entries[i].0@;
    let j = choose|j: int| 0 <= j < entries.len() && (#[trigger] entries[j]).0@ == node;
    assert(entries[i].0@ == node);
    if i < j {
        assert(entries[i].0@ != entries[j].0@);
    } else if j < i {
        assert(entries[j].0@ != entries[i].0@);
    }
}

/// Puts `value` down for `node`, in place of what was there before.
fn put(entries: &mut Vec<(String, u64)>, node: &str, value: u64)
    requires
        no_node_twice(old(entries)@),
    ensures
        no_node_twice(final(entries)@),
        counters(final(entries)@) == counters(old(entries)@).insert(node@, value),
{
    let ghost before = entries@;
    let mut i: usize = 0;
    while i < entries.len()
        invariant
            entries@ == before,
            before == old(entries)@,
            no_node_twice(before),
            i <= entries@.len(),
            forall|j: int| 0 <= j < i ==> (#[trigger] before[j]).0@ != node@,
        decreases entries@.len() - i,
    {
        if str_same(entries[i].0.as_str(), node) {
            let name = entries[i].0.clone();
            entries[i] = (name, value);
            proof {
                let after = entries@;
                assert(after == before.update(i as int, (name, value)));
                assert forall|a: int, b: int| 0 <= a < b < after.len() implies (
                #[trigger] after[a]).0@ != (#[trigger] after[b]).0@ by {
                    assert(after[a].0@ == before[a].0@);
                    assert(after[b].0@ == before[b].0@);
                }
                let want = counters(before).insert(node@, value);
                assert forall|k: Seq<char>| counters(after).contains_key(k)
                    == want.contains_key(k) by {
                    if holds_node(before, k) {
                        let j = choose|j: int|
                            0 <= j < before.len() && (#[trigger] before[j]).0@ == k;
                        assert(after[j].0@ == k);
                    }
                    if holds_node(after, k) {
                        let j = choose|j: int| 0 <= j < after.len() && (#[trigger] after[j]).0@ == k;
                        assert(before[j].0@ == k);
                    }
                    assert(after[i as int].0@ == node@);
                }
                assert forall|k: Seq<char>| counters(after).contains_key(k) implies counters(
                    after,
                )[k] == want[k] by {
                    let j = choose|j: int| 0 <= j < after.len() && (#[trigger] after[j]).0@ == k;
                    lemma_counter_at(after, j);
                    lemma_counter_at(before, j);
                    assert(after[i as int].0@ == node@);
                    if k == node@ {
                        lemma_counter_at(after, i as int);
                    }
                }
                assert(counters(after) =~= want);
            }
            return ;
        }
        i += 1;
    }
    entries.push((node.to_owned(), value));
    proof {
        let after = entries@;
        let n = before.len() as int;
        let want = counters(before).insert(node@, value);
        assert(forall|j: int| 0 <= j < n ==> after[j] == before[j]);
        assert(after[n].0@ == node@);
        assert forall|k: Seq<char>| counters(after).contains_key(k) == want.contains_key(k) by {
            if holds_node(before, k) {
                let j = choose|j: int| 0 <= j < before.len() && (#[trigger] before[j]).0@ == k;
                assert(after[j].0@ == k);
            }
            if holds_node(after, k) && k != node@ {
                let j = choose|j: int| 0 <= j < after.len() && (#[trigger] after[j]).0@ == k;
                assert(before[j].0@ == k);
            }
        }
        assert forall|k: Seq<char>| counters(after).contains_key(k) implies counters(after)[k]
            == want[k] by {
            let j = choose|j: int| 0 <= j < after.len() && (#[trigger] after[j]).0@ == k;
            lemma_counter_at(after, j);
            if j < n {
                lemma_counter_at(before, j);
            }
        }
        assert(counters(after) =~= want);
    }
}

/// Whether two texts are the same.
fn str_same(a: &str, b: &str) -> (result: bool)
    ensures
        result == (a@ == b@),
{
    a.to_owned() == b.to_owned()
}

impl VectorClock {
    #[verifier::type_invariant]
    closed spec fn each_node_once(self) -> bool {
        no_node_twice(self.entries@)
    }

    pub fn new() -> (clock: Self)
        ensures
            clock@ == Map::<Seq<char>, u64>::empty(),
    {
        let clock = VectorClock { entries: Vec::new() };
        assert(counters(clock.entries@) =~= Map::<Seq<char>, u64>::empty());
        clock
    }

    /// The clock with the given counters; of several for one node, the last.
    pub fn from_entries(list: &Vec<(String, u64)>) -> (clock: Self)
        ensures
            clock@ == tallied(list@),
    {
        let mut entries: Vec<(String, u64)> = Vec::new();
        let mut i: usize = 0;
        assert(counters(entries@) =~= tallied(list@.take(0)));
        while i < list.len()
            invariant
                i <= list@.len(),
                no_node_twice(entries@),
                counters(entries@) == tallied(list@.take(i as int)),
            decreases list@.len() - i,
        {
            put(&mut entries, list[i].0.as_str(), list[i].1);
            assert(list@.take(i + 1).drop_last() =~= list@.take(i as int));
            i += 1;
        }
        assert(list@.take(i as int) =~= list@);
        VectorClock { entries }
    }

    /// The counters, each node once.
    pub fn entries(&self) -> (list: &Vec<(String, u64)>)
        ensures
            no_node_twice(list@),
            counters(list@) == self@,
    {
        proof {
            use_type_invariant(self);
        }
        &self.entries
    }

    /// The counter of a node; zero for a node that never took part.
    pub fn counter(&self, node_id: &str) -> (result: u64)
        ensures
            result == count(self@, node_id@),
    {
        lookup(self.entries(), node_id)
    }

    /// Counts an event at `node_id`.
    pub fn tick(&mut self, node_id: &str)
        requires
            count(old(self)@, node_id@) < u64::MAX,
        ensures
            final(self)@ == advanced(old(self)@, node_id@),
    {
        let value: u64 = self.counter(node_id) + 1;
        let mut entries: Vec<(String, u64)> = copy_entries(self.entries());
        put(&mut entries, node_id, value);
        self.entries = entries;
    }

    /// The larger counter of both clocks, node by node.
    pub fn merged_with(&self, other: &VectorClock) -> (merged: VectorClock)
        ensures
            merged@ == joined(self@, other@),
    {
        proof {
            use_type_invariant(self);
            use_type_invariant(other);
        }
        let mut entries: Vec<(String, u64)> = copy_entries(&self.entries);
        let ghost mine = counters(self.entries@);
        let ghost theirs = other.entries@;
        let mut i: usize = 0;
        assert(counters(theirs.take(0)) =~= Map::<Seq<char>, u64>::empty());
        assert(counters(entries@) =~= joined(mine, counters(theirs.take(0))));
        while i < other.entries.len()
            invariant
                i <= other.entries@.len(),
                theirs == other.entries@,
                no_node_twice(theirs),
                no_node_twice(entries@),
                counters(entries@) == joined(mine, counters(theirs.take(i as int))),
            decreases other.entries@.len() - i,
        {
            let node = other.entries[i].0.as_str();
            let value: u64 = other.entries[i].1;
            let current: u64 = lookup(&entries, node);
            proof {
                lemma_counters_push(theirs, i as int);
                let part = counters(theirs.take(i as int));
                assert(!part.contains_key(node@)) by {
                    if part.contains_key(node@) {
                        let j = choose|j: int|
                            0 <= j < theirs.take(i as int).len() && (#[trigger] theirs.take(
                                i as int,
                            )[j]).0@ == node@;
                        assert(theirs[j].0@ == theirs[i as int].0@);
                    }
                }
                assert(joined(mine, part.insert(node@, value)) =~= joined(mine, part).insert(
                    node@,
                    if current >= value {
                        current
                    } else {
                        value
                    },
                ));
            }
            put(
                &mut entries,
                node,
                if current >= value {
                    current
                } else {
                    value
                },
            );
            i += 1;
        }
        assert(theirs.take(i as int) =~= theirs);
        VectorClock { entries }
    }
}

impl Default for VectorClock {
    fn default() -> (clock: Self)
        ensures
            clock@ == Map::<Seq<char>, u64>::empty(),
    {
        VectorClock::new()
    }
}

impl Clone for VectorClock {
    fn clone(&self) -> (copy: Self)
        ensures
            copy@ == self@,
    {
        let entries = copy_entries(self.entries());
        VectorClock { entries }
    }
}

proof fn lemma_counters_push(list: Seq<(String, u64)>, i: int)
    requires
        no_node_twice(list),
        0 <= i < list.len(),
    ensures
        counters(list.take(i + 1)) == counters(list.take(i)).insert(list[i].0@, list[i].1),
{
    let before = list.take(i);
    let after = list.take(i + 1);
    let want = counters(before).insert(list[i].0@, list[i].1);
    assert(no_node_twice(before));
    assert(no_node_twice(after));
    assert(after[i] == list[i]);
    assert forall|k: Seq<char>| counters(after).contains_key(k) == want.contains_key(k) by {
        if holds_node(before, k) {
            let j = choose|j: int| 0 <= j < before.len() && (#[trigger] before[j]).0@ == k;
            assert(after[j].0@ == k);
        }
        if holds_node(after, k) && k != list[i].0@ {
            let j = choose|j: int| 0 <= j < after.len() && (#[trigger] after[j]).0@ == k;
            assert(before[j].0@ == k);
        }
        assert(after[i].0@ == list[i].0@);
    }
    assert forall|k: Seq<char>| counters(after).contains_key(k) implies counters(after)[k]
        == want[k] by {
        let j = choose|j: int| 0 <= j < after.len() && (#[trigger] after[j]).0@ == k;
        lemma_counter_at(after, j);
        if j < i {
            lemma_counter_at(before, j);
            assert(list[j].0@ != list[i].0@);
        }
    }
    assert(counters(after) =~= want);
}

fn copy_entries(list: &Vec<(String, u64)>) -> (copy: Vec<(String, u64)>)
    requires
        no_node_twice(list@),
    ensures
        no_node_twice(copy@),
        counters(copy@) == counters(list@),
{
    let mut copy: Vec<(String, u64)> = Vec::new();
    let mut i: usize = 0;
    while i < list.len()
        invariant
            i <= list@.len(),
            copy@.len() == i,
            forall|j: int| 0 <= j < i ==> copy@[j] == list@[j],
        decreases list@.len() - i,
    {
        copy.push((list[i].0.clone(), list[i].1));
        i += 1;
    }
    assert(copy@ =~= list@);
    copy
}

fn lookup(entries: &Vec<(String, u64)>, node: &str) -> (result: u64)
    requires
        no_node_twice(entries@),
    ensures
        result == count(counters(entries@), node@),
{
    let mut i: usize = 0;
    while i < entries.len()
        invariant
            i <= entries@.len(),
            no_node_twice(entries@),
            forall|j: int| 0 <= j < i ==> (#[trigger] entries@[j]).0@ != node@,
        decreases entries@.len() - i,
    {
        if str_same(entries[i].0.as_str(), node) {
            proof {
                lemma_counter_at(entries@, i as int);
            }
            return entries[i].1;
        }
        i += 1;
    }
    0
}

/// Merging vector clocks does not depend on the order of the two.
pub proof fn clock_merge_commutes(a: Map<Seq<char>, u64>, b: Map<Seq<char>, u64>)
    ensures
        joined(a, b) == joined(b, a),
{
    assert(joined(a, b) =~= joined(b, a));
}

/// Merging vector clocks does not depend on how they are grouped.
pub proof fn clock_merge_associates(
    a: Map<Seq<char>, u64>,
    b: Map<Seq<char>, u64>,
    c: Map<Seq<char>, u64>,
)
    ensures
        joined(joined(a, b), c) == joined(a, joined(b, c)),
{
    assert(joined(joined(a, b), c) =~= joined(a, joined(b, c)));
}

/// Merging a vector clock with itself changes nothing.
pub proof fn clock_merge_is_idempotent(a: Map<Seq<char>, u64>)
    ensures
        joined(a, a) == a,
{
    assert(joined(a, a) =~= a);
}

/// A merged clock knows of everything that either clock knew of.
pub proof fn clock_merge_dominates(
    a: Map<Seq<char>, u64>,
    b: Map<Seq<char>, u64>,
    node: Seq<char>,
)
    ensures
        count(joined(a, b), node) >= count(a, node),
        count(joined(a, b), node) >= count(b, node),
{
}

} // verus!
