//! Observed-remove sets of relations.

use std::collections::HashMap;

use vstd::prelude::*;

use crate::clock::HlcTimestamp;
use crate::maps;
use crate::maps::keys_of;
use crate::relation;
use crate::relation::RelationRef;

verus! {

broadcast use vstd::std_specs::hash::group_hash_axioms;

/// A set of relations that replicas change on their own and merge later. The
/// last write to an edge identifier wins, by its timestamp; a removal wins over
/// an addition at the same time, and of two additions at the same time the one
/// that comes later in the order of relations.
#[derive(Debug)]
pub struct RelationOrSet {
    /// For each edge identifier in the set, its relation and when it was written.
    pub live: HashMap<u128, (RelationRef, HlcTimestamp)>,
    /// For each edge identifier that was removed, when that was last.
    pub tombstones: HashMap<u128, HlcTimestamp>,
}

/// What a set of relations holds.
#[verifier::ext_equal]
pub struct OrSetView {
    pub live: Map<u128, (RelationRef, HlcTimestamp)>,
    pub tombstones: Map<u128, HlcTimestamp>,
}

impl View for RelationOrSet {
    type V = OrSetView;

    open spec fn view(&self) -> OrSetView {
        OrSetView { live: self.live@, tombstones: self.tombstones@ }
    }
}

/// Whether a write is buried: the edge was removed then or later.
pub open spec fn buried(
    tombstones: Map<u128, HlcTimestamp>,
    edge_id: u128,
    hlc: HlcTimestamp,
) -> bool {
    tombstones.contains_key(edge_id) && !tombstones[edge_id].before(hlc)
}

/// No relation in the set is buried.
pub open spec fn consistent(set: OrSetView) -> bool {
    forall|k: u128| #[trigger]
        set.live.contains_key(k) ==> !buried(set.tombstones, k, set.live[k].1)
}

/// The empty set.
pub open spec fn empty_set() -> OrSetView {
    OrSetView { live: Map::empty(), tombstones: Map::empty() }
}

/// A set after a relation was written to it.
pub open spec fn with_relation(
    set: OrSetView,
    relation: RelationRef,
    hlc: HlcTimestamp,
) -> OrSetView {
    let k = relation.edge_id;
    if buried(set.tombstones, k, hlc) || (set.live.contains_key(k) && !set.live[k].1.before(hlc)) {
        set
    } else {
        OrSetView { live: set.live.insert(k, (relation, hlc)), ..set }
    }
}

/// A set after relations were written to it, all at the same time.
pub open spec fn with_relations(relations: Seq<RelationRef>, hlc: HlcTimestamp) -> OrSetView
    decreases relations.len(),
{
    if relations.len() == 0 {
        empty_set()
    } else {
        with_relation(with_relations(relations.drop_last(), hlc), relations.last(), hlc)
    }
}

/// Tombstones after one more removal.
pub open spec fn with_tombstone(
    tombstones: Map<u128, HlcTimestamp>,
    edge_id: u128,
    hlc: HlcTimestamp,
) -> Map<u128, HlcTimestamp> {
    tombstones.insert(
        edge_id,
        if tombstones.contains_key(edge_id) {
            tombstones[edge_id].later(hlc)
        } else {
            hlc
        },
    )
}

/// A set after an edge was removed from it, unless it was written later.
pub open spec fn without_relation(set: OrSetView, edge_id: u128, hlc: HlcTimestamp) -> OrSetView {
    if set.live.contains_key(edge_id) && hlc.before(set.live[edge_id].1) {
        set
    } else {
        OrSetView {
            live: set.live.remove(edge_id),
            tombstones: with_tombstone(set.tombstones, edge_id, hlc),
        }
    }
}

/// The removals of two sets; the later one of each edge.
pub open spec fn all_tombstones(
    a: Map<u128, HlcTimestamp>,
    b: Map<u128, HlcTimestamp>,
) -> Map<u128, HlcTimestamp> {
    Map::new(
        |k: u128| a.contains_key(k) || b.contains_key(k),
        |k: u128|
            if !a.contains_key(k) {
                b[k]
            } else if !b.contains_key(k) {
                a[k]
            } else {
                a[k].later(b[k])
            },
    )
}

/// Whether an edge is in a set and not buried.
pub open spec fn survives(
    live: Map<u128, (RelationRef, HlcTimestamp)>,
    tombstones: Map<u128, HlcTimestamp>,
    k: u128,
) -> bool {
    live.contains_key(k) && !buried(tombstones, k, live[k].1)
}

/// Whether one write gives way to another: it was earlier or, at the same time,
/// its relation comes before the other in the order of relations.
pub open spec fn gives_way(a: (RelationRef, HlcTimestamp), b: (RelationRef, HlcTimestamp)) -> bool {
    a.1.before(b.1) || (a.1 == b.1 && relation::outranked(a.0, b.0))
}

/// The relations of two sets that are not buried; of two writes to an edge the one
/// that does not give way.
pub open spec fn all_live(
    a: Map<u128, (RelationRef, HlcTimestamp)>,
    b: Map<u128, (RelationRef, HlcTimestamp)>,
    tombstones: Map<u128, HlcTimestamp>,
) -> Map<u128, (RelationRef, HlcTimestamp)> {
    Map::new(
        |k: u128| survives(a, tombstones, k) || survives(b, tombstones, k),
        |k: u128|
            if !survives(a, tombstones, k) {
                b[k]
            } else if !survives(b, tombstones, k) {
                a[k]
            } else if gives_way(a[k], b[k]) {
                b[k]
            } else {
                a[k]
            },
    )
}

/// What two sets become together.
pub open spec fn union(a: OrSetView, b: OrSetView) -> OrSetView {
    let tombstones = all_tombstones(a.tombstones, b.tombstones);
    OrSetView { live: all_live(a.live, b.live, tombstones), tombstones }
}

impl RelationOrSet {
    pub fn new() -> (set: Self)
        ensures
            set@ == empty_set(),
    {
        RelationOrSet { live: HashMap::new(), tombstones: HashMap::new() }
    }

    fn is_buried(&self, edge_id: u128, hlc: HlcTimestamp) -> (result: bool)
        ensures
            result == buried(self.tombstones@, edge_id, hlc),
    {
        match self.tombstones.get(&edge_id) {
            Some(removed) => !removed.is_before(&hlc),
            None => false,
        }
    }

    /// Writes a relation.
    pub fn add(&mut self, relation: RelationRef, hlc: HlcTimestamp)
        ensures
            final(self)@ == with_relation(old(self)@, relation, hlc),
    {
        let edge_id: u128 = relation.edge_id;
        if self.is_buried(edge_id, hlc) {
            return ;
        }
        let newer = match self.live.get(&edge_id) {
            Some(existing) => existing.1.is_before(&hlc),
            None => true,
        };
        if newer {
            self.live.insert(edge_id, (relation, hlc));
        }
    }

    /// Removes an edge, unless it was written later.
    pub fn remove(&mut self, edge_id: u128, hlc: HlcTimestamp)
        ensures
            final(self)@ == without_relation(old(self)@, edge_id, hlc),
    {
        let later_write = match self.live.get(&edge_id) {
            Some(existing) => hlc.is_before(&existing.1),
            None => false,
        };
        if !later_write {
            self.live.remove(&edge_id);
            bury(&mut self.tombstones, edge_id, hlc);
        }
    }

    /// What two sets become together.
    pub fn merge(&self, other: &RelationOrSet) -> (merged: RelationOrSet)
        ensures
            merged@ == union(self@, other@),
    {
        let mut tombstones: HashMap<u128, HlcTimestamp> = HashMap::new();
        let own_removed = keys_of(&self.tombstones);
        let mut i: usize = 0;
        while i < own_removed.len()
            invariant
                i <= own_removed@.len(),
                maps::lists(own_removed@, self.tombstones@.dom()),
                forall|k: u128| #[trigger]
                    tombstones@.contains_key(k) <==> own_removed@.take(i as int).contains(k),
                forall|k: u128| #[trigger]
                    tombstones@.contains_key(k) ==> self.tombstones@.contains_key(k)
                        && tombstones@[k] == self.tombstones@[k],
            decreases own_removed@.len() - i,
        {
            let k: u128 = own_removed[i];
            proof {
                maps::lemma_take_grows(own_removed@, i as int);
                assert(own_removed@.to_set().contains(k));
            }
            if let Some(hlc) = self.tombstones.get(&k) {
                tombstones.insert(k, *hlc);
            }
            i += 1;
        }
        proof {
            maps::lemma_taken_all(own_removed@);
            assert(forall|k: u128|
                self.tombstones@.contains_key(k) <==> own_removed@.to_set().contains(k));
            assert(tombstones@ =~= self.tombstones@);
        }
        let their_removed = keys_of(&other.tombstones);
        let mut i: usize = 0;
        let ghost want = all_tombstones(self.tombstones@, other.tombstones@);
        while i < their_removed.len()
            invariant
                i <= their_removed@.len(),
                maps::lists(their_removed@, other.tombstones@.dom()),
                want == all_tombstones(self.tombstones@, other.tombstones@),
                forall|k: u128| #[trigger]
                    tombstones@.contains_key(k) <==> self.tombstones@.contains_key(k)
                        || their_removed@.take(i as int).contains(k),
                forall|k: u128| #[trigger]
                    tombstones@.contains_key(k) ==> tombstones@[k] == (
                    if their_removed@.take(i as int).contains(k) {
                        want[k]
                    } else {
                        self.tombstones@[k]
                    }),
            decreases their_removed@.len() - i,
        {
            let k: u128 = their_removed[i];
            proof {
                maps::lemma_take_grows(their_removed@, i as int);
                assert(their_removed@.to_set().contains(k));
            }
            if let Some(hlc) = other.tombstones.get(&k) {
                bury(&mut tombstones, k, *hlc);
            }
            i += 1;
        }
        proof {
            maps::lemma_taken_all(their_removed@);
            assert(forall|k: u128|
                other.tombstones@.contains_key(k) <==> their_removed@.to_set().contains(k));
            assert(tombstones@ =~= want);
        }
        let mut result = RelationOrSet { live: HashMap::new(), tombstones };
        let own_live = keys_of(&self.live);
        let mut i: usize = 0;
        while i < own_live.len()
            invariant
                i <= own_live@.len(),
                maps::lists(own_live@, self.live@.dom()),
                result.tombstones@ == want,
                forall|k: u128| #[trigger]
                    result.live@.contains_key(k) <==> own_live@.take(i as int).contains(k)
                        && survives(self.live@, want, k),
                forall|k: u128| #[trigger]
                    result.live@.contains_key(k) ==> result.live@[k] == self.live@[k],
            decreases own_live@.len() - i,
        {
            let k: u128 = own_live[i];
            proof {
                maps::lemma_take_grows(own_live@, i as int);
                assert(own_live@.to_set().contains(k));
            }
            if let Some(entry) = self.live.get(&k) {
                if !result.is_buried(k, entry.1) {
                    result.live.insert(k, *entry);
                }
            }
            i += 1;
        }
        proof {
            maps::lemma_taken_all(own_live@);
            assert(forall|k: u128| self.live@.contains_key(k) <==> own_live@.to_set().contains(k));
        }
        let their_live = keys_of(&other.live);
        let mut i: usize = 0;
        let ghost goal = all_live(self.live@, other.live@, want);
        while i < their_live.len()
            invariant
                i <= their_live@.len(),
                maps::lists(their_live@, other.live@.dom()),
                result.tombstones@ == want,
                goal == all_live(self.live@, other.live@, want),
                forall|k: u128| #[trigger]
                    result.live@.contains_key(k) <==> survives(self.live@, want, k) || (
                    their_live@.take(i as int).contains(k) && survives(other.live@, want, k)),
                forall|k: u128| #[trigger]
                    result.live@.contains_key(k) ==> result.live@[k] == (if their_live@.take(
                        i as int,
                    ).contains(k) {
                        goal[k]
                    } else {
                        self.live@[k]
                    }),
            decreases their_live@.len() - i,
        {
            let k: u128 = their_live[i];
            proof {
                maps::lemma_take_grows(their_live@, i as int);
                assert(their_live@.to_set().contains(k));
            }
            if let Some(entry) = other.live.get(&k) {
                if !result.is_buried(k, entry.1) {
                    let newer = match result.live.get(&k) {
                        Some(existing) => existing.1.is_before(&entry.1) || (existing.1 == entry.1
                            && existing.0.is_outranked_by(&entry.0)),
                        None => true,
                    };
                    if newer {
                        result.live.insert(k, *entry);
                    }
                }
            }
            i += 1;
        }
        proof {
            maps::lemma_taken_all(their_live@);
            assert(forall|k: u128|
                other.live@.contains_key(k) <==> their_live@.to_set().contains(k));
            assert(result.live@ =~= goal);
        }
        result
    }

    /// The relations in the set, in no particular order.
    pub fn relations(&self) -> (relations: Vec<&RelationRef>)
        ensures
            exists|order: Seq<u128>| #[trigger]
                maps::lists(order, self@.live.dom()) && relations@.len() == order.len() && (forall|
                    i: int,
                |
                    0 <= i < order.len() ==> *(#[trigger] relations@[i])
                        == self@.live[order[i]].0),
    {
        let keys = keys_of(&self.live);
        let mut relations: Vec<&RelationRef> = Vec::new();
        let mut i: usize = 0;
        while i < keys.len()
            invariant
                i <= keys@.len(),
                maps::lists(keys@, self.live@.dom()),
                relations@.len() == i,
                forall|j: int|
                    0 <= j < i ==> *(#[trigger] relations@[j]) == self.live@[keys@[j]].0,
            decreases keys@.len() - i,
        {
            let k: u128 = keys[i];
            assert(keys@.to_set().contains(k));
            if let Some(entry) = self.live.get(&k) {
                relations.push(&entry.0);
            }
            i += 1;
        }
        assert(maps::lists(keys@, self@.live.dom()));
        relations
    }

    /// The number of relations in the set.
    pub fn len(&self) -> (result: usize)
        ensures
            result == self@.live.len(),
    {
        self.live.len()
    }

    pub fn is_empty(&self) -> (result: bool)
        ensures
            result == self@.live.is_empty(),
    {
        self.live.is_empty()
    }
}

impl Default for RelationOrSet {
    fn default() -> (set: Self)
        ensures
            set@ == empty_set(),
    {
        RelationOrSet::new()
    }
}

impl Clone for RelationOrSet {
    fn clone(&self) -> (copy: Self)
        ensures
            copy@ == self@,
    {
        RelationOrSet { live: self.live.clone(), tombstones: self.tombstones.clone() }
    }
}

/// Notes a removal; the later one of each edge stays.
fn bury(tombstones: &mut HashMap<u128, HlcTimestamp>, edge_id: u128, hlc: HlcTimestamp)
    ensures
        final(tombstones)@ == with_tombstone(old(tombstones)@, edge_id, hlc),
{
    let removed = match tombstones.get(&edge_id) {
        Some(existing) => existing.latest(&hlc),
        None => hlc,
    };
    tombstones.insert(edge_id, removed);
}

// ---------------------------------------------------------------------------
// Laws
// ---------------------------------------------------------------------------

/// Writing, removing and merging keep buried relations out of the set.
pub proof fn sets_stay_consistent(
    a: OrSetView,
    b: OrSetView,
    relation: RelationRef,
    edge_id: u128,
    hlc: HlcTimestamp,
)
    requires
        consistent(a),
    ensures
        consistent(empty_set()),
        consistent(with_relation(a, relation, hlc)),
        consistent(without_relation(a, edge_id, hlc)),
        consistent(union(a, b)),
{
    assert forall|k: u128| #[trigger] union(a, b).live.contains_key(k) implies !buried(
        union(a, b).tombstones,
        k,
        union(a, b).live[k].1,
    ) by {}
}

/// A set that relations were written to, and nothing else, is consistent.
pub proof fn written_sets_are_consistent(relations: Seq<RelationRef>, hlc: HlcTimestamp)
    ensures
        consistent(with_relations(relations, hlc)),
    decreases relations.len(),
{
    if relations.len() > 0 {
        written_sets_are_consistent(relations.drop_last(), hlc);
    }
}

/// Writes are ordered: of two different ones exactly one gives way, and giving
/// way has no circles.
proof fn lemma_writes_are_ordered(
    a: (RelationRef, HlcTimestamp),
    b: (RelationRef, HlcTimestamp),
    c: (RelationRef, HlcTimestamp),
)
    ensures
        a == b || gives_way(a, b) || gives_way(b, a),
        !(gives_way(a, b) && gives_way(b, a)),
        gives_way(a, b) && gives_way(b, c) ==> gives_way(a, c),
{
    relation::relations_are_ordered(a.0, b.0, c.0);
}

/// Merging does not depend on the order of the sets.
pub proof fn set_merge_commutes(a: OrSetView, b: OrSetView)
    ensures
        union(a, b) == union(b, a),
{
    assert(union(a, b).tombstones =~= union(b, a).tombstones);
    assert forall|k: u128| #[trigger] union(a, b).live.contains_key(k) implies union(a, b).live[k]
        == union(b, a).live[k] by {
        lemma_writes_are_ordered(a.live[k], b.live[k], a.live[k]);
    }
    assert(union(a, b).live =~= union(b, a).live);
}

/// Merging does not depend on the grouping of the sets.
pub proof fn set_merge_associates(a: OrSetView, b: OrSetView, c: OrSetView)
    ensures
        union(union(a, b), c) == union(a, union(b, c)),
{
    let left = union(union(a, b), c);
    let right = union(a, union(b, c));
    assert(left.tombstones =~= right.tombstones);
    assert forall|k: u128| #[trigger] left.live.contains_key(k) implies left.live[k]
        == right.live[k] by {
        let x = a.live[k];
        let y = b.live[k];
        let z = c.live[k];
        lemma_writes_are_ordered(x, y, z);
        lemma_writes_are_ordered(x, z, y);
        lemma_writes_are_ordered(y, x, z);
        lemma_writes_are_ordered(y, z, x);
        lemma_writes_are_ordered(z, x, y);
        lemma_writes_are_ordered(z, y, x);
    }
    assert(left.live =~= right.live);
}

/// Merging a set with itself changes nothing.
pub proof fn set_merge_is_idempotent(a: OrSetView)
    requires
        consistent(a),
    ensures
        union(a, a) == a,
{
    assert(union(a, a).tombstones =~= a.tombstones);
    assert(union(a, a).live =~= a.live);
}

/// A removal at least as late as every write takes the edge away on every
/// replica that merges it, and it stays away until a later write.
pub proof fn removal_wins(a: OrSetView, b: OrSetView, edge_id: u128, hlc: HlcTimestamp)
    requires
        a.live.contains_key(edge_id) ==> !hlc.before(a.live[edge_id].1),
        b.live.contains_key(edge_id) ==> !hlc.before(b.live[edge_id].1),
    ensures
        !union(a, without_relation(b, edge_id, hlc)).live.contains_key(edge_id),
        !union(without_relation(b, edge_id, hlc), a).live.contains_key(edge_id),
{
}

/// A write that is later than everything else about its edge is there after it,
/// and after every merge with an older state.
pub proof fn later_write_wins(a: OrSetView, b: OrSetView, relation: RelationRef, hlc: HlcTimestamp)
    requires
        a.live.contains_key(relation.edge_id) ==> a.live[relation.edge_id].1.before(hlc),
        a.tombstones.contains_key(relation.edge_id) ==> a.tombstones[relation.edge_id].before(hlc),
        b.live.contains_key(relation.edge_id) ==> b.live[relation.edge_id].1.before(hlc),
        b.tombstones.contains_key(relation.edge_id) ==> b.tombstones[relation.edge_id].before(hlc),
    ensures
        with_relation(a, relation, hlc).live[relation.edge_id] == (relation, hlc),
        union(with_relation(a, relation, hlc), b).live.contains_key(relation.edge_id),
        union(with_relation(a, relation, hlc), b).live[relation.edge_id] == (relation, hlc),
        union(b, with_relation(a, relation, hlc)).live.contains_key(relation.edge_id),
        union(b, with_relation(a, relation, hlc)).live[relation.edge_id] == (relation, hlc),
{
}

/// Merging makes nothing up and loses nothing: what is in the merged set was written in one
/// of the two, and no removal in either is as late; and of what was written in either, it
/// has every edge that neither of them removed then or later, as it was written last.
pub proof fn merging_is_faithful(a: OrSetView, b: OrSetView, k: u128)
    ensures
        union(a, b).live.contains_key(k) ==> {
            let entry = union(a, b).live[k];
            &&& (a.live.contains_key(k) && entry == a.live[k]) || (b.live.contains_key(k) && entry
                == b.live[k])
            &&& a.tombstones.contains_key(k) ==> a.tombstones[k].before(entry.1)
            &&& b.tombstones.contains_key(k) ==> b.tombstones[k].before(entry.1)
        },
        a.live.contains_key(k) && (a.tombstones.contains_key(k) ==> a.tombstones[k].before(
            a.live[k].1,
        )) && (b.tombstones.contains_key(k) ==> b.tombstones[k].before(a.live[k].1)) ==> union(
            a,
            b,
        ).live.contains_key(k) && !union(a, b).live[k].1.before(a.live[k].1),
        b.live.contains_key(k) && (a.tombstones.contains_key(k) ==> a.tombstones[k].before(
            b.live[k].1,
        )) && (b.tombstones.contains_key(k) ==> b.tombstones[k].before(b.live[k].1)) ==> union(
            a,
            b,
        ).live.contains_key(k) && !union(a, b).live[k].1.before(b.live[k].1),
        union(a, b).tombstones.contains_key(k) <==> a.tombstones.contains_key(k)
            || b.tombstones.contains_key(k),
        union(a, b).tombstones.contains_key(k) ==> {
            let grave = union(a, b).tombstones[k];
            &&& (a.tombstones.contains_key(k) && grave == a.tombstones[k]) || (
            b.tombstones.contains_key(k) && grave == b.tombstones[k])
            &&& a.tombstones.contains_key(k) ==> !grave.before(a.tombstones[k])
            &&& b.tombstones.contains_key(k) ==> !grave.before(b.tombstones[k])
        },
{
}

/// Writing to a set, or removing from it, touches no other edge.
pub proof fn other_edges_stay(
    set: OrSetView,
    relation: RelationRef,
    edge_id: u128,
    hlc: HlcTimestamp,
    k: u128,
)
    ensures
        k != relation.edge_id ==> {
            let after = with_relation(set, relation, hlc);
            &&& after.live.contains_key(k) == set.live.contains_key(k)
            &&& after.live.contains_key(k) ==> after.live[k] == set.live[k]
        },
        with_relation(set, relation, hlc).tombstones == set.tombstones,
        k != edge_id ==> {
            let after = without_relation(set, edge_id, hlc);
            &&& after.live.contains_key(k) == set.live.contains_key(k)
            &&& after.live.contains_key(k) ==> after.live[k] == set.live[k]
            &&& after.tombstones.contains_key(k) == set.tombstones.contains_key(k)
            &&& after.tombstones.contains_key(k) ==> after.tombstones[k] == set.tombstones[k]
        },
{
}

/// Whether a relation is the first one with its edge.
pub open spec fn first_with_edge(relations: Seq<RelationRef>, i: int) -> bool {
    &&& 0 <= i < relations.len()
    &&& forall|j: int| 0 <= j < i ==> (#[trigger] relations[j]).edge_id != relations[i].edge_id
}

/// Whether a relation has this edge.
pub open spec fn some_has_edge(relations: Seq<RelationRef>, k: u128) -> bool {
    exists|i: int| 0 <= i < relations.len() && (#[trigger] relations[i]).edge_id == k
}

/// Whether a set holds just these relations, each under its edge and as written at a time;
/// of several with the same edge the first. Nothing was removed.
pub open spec fn holds_just(
    set: OrSetView,
    relations: Seq<RelationRef>,
    hlc: HlcTimestamp,
) -> bool {
    &&& set.tombstones == Map::<u128, HlcTimestamp>::empty()
    &&& forall|i: int| #[trigger]
        first_with_edge(relations, i) ==> set.live.contains_key(relations[i].edge_id)
            && set.live[relations[i].edge_id] == (relations[i], hlc)
    &&& forall|k: u128| #[trigger] set.live.contains_key(k) ==> some_has_edge(relations, k)
}

proof fn lemma_written_times(relations: Seq<RelationRef>, hlc: HlcTimestamp, k: u128)
    ensures
        with_relations(relations, hlc).live.contains_key(k) ==> with_relations(
            relations,
            hlc,
        ).live[k].1 == hlc && some_has_edge(relations, k),
        with_relations(relations, hlc).tombstones == Map::<u128, HlcTimestamp>::empty(),
    decreases relations.len(),
{
    if relations.len() > 0 {
        let shorter = relations.drop_last();
        lemma_written_times(shorter, hlc, k);
        if with_relations(shorter, hlc).live.contains_key(k) {
            let i = choose|i: int| 0 <= i < shorter.len() && (#[trigger] shorter[i]).edge_id == k;
            assert(relations[i].edge_id == k);
        } else if relations.last().edge_id == k {
            assert(relations[relations.len() - 1].edge_id == k);
        }
    }
}

proof fn lemma_written_first(relations: Seq<RelationRef>, hlc: HlcTimestamp, i: int)
    requires
        first_with_edge(relations, i),
    ensures
        with_relations(relations, hlc).live.contains_key(relations[i].edge_id),
        with_relations(relations, hlc).live[relations[i].edge_id] == (relations[i], hlc),
    decreases relations.len(),
{
    let shorter = relations.drop_last();
    let k = relations[i].edge_id;
    lemma_written_times(shorter, hlc, k);
    lemma_written_times(shorter, hlc, relations.last().edge_id);
    if i < shorter.len() {
        assert(first_with_edge(shorter, i)) by {
            assert forall|j: int| 0 <= j < i implies (#[trigger] shorter[j]).edge_id
                != shorter[i].edge_id by {
                assert(shorter[j] == relations[j]);
            }
        }
        lemma_written_first(shorter, hlc, i);
    } else if some_has_edge(shorter, k) {
        let j = choose|j: int| 0 <= j < shorter.len() && (#[trigger] shorter[j]).edge_id == k;
        assert(relations[j].edge_id == relations[i].edge_id);
    }
}

/// Relations that are written at the same time are all there, and nothing else is.
pub proof fn written_relations_are_there(relations: Seq<RelationRef>, hlc: HlcTimestamp)
    ensures
        holds_just(with_relations(relations, hlc), relations, hlc),
{
    let set = with_relations(relations, hlc);
    lemma_written_times(relations, hlc, 0);
    assert forall|i: int| #[trigger] first_with_edge(relations, i) implies set.live.contains_key(
        relations[i].edge_id,
    ) && set.live[relations[i].edge_id] == (relations[i], hlc) by {
        lemma_written_first(relations, hlc, i);
    }
    assert forall|k: u128| #[trigger] set.live.contains_key(k) implies some_has_edge(
        relations,
        k,
    ) by {
        lemma_written_times(relations, hlc, k);
    }
}

} // verus!
