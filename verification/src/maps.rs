//! Lists of what hash maps and hash sets hold.

use std::collections::{HashMap, HashSet};

use vstd::prelude::*;

verus! {

broadcast use vstd::std_specs::hash::group_hash_axioms;

/// A list names each element of a set exactly once.
pub open spec fn lists(list: Seq<u128>, set: Set<u128>) -> bool {
    &&& list.no_duplicates()
    &&& list.to_set() == set
}

proof fn lemma_listed(order: Seq<&u128>, set: Set<u128>)
    requires
        order.no_duplicates(),
        order.unref().to_set() == set,
    ensures
        lists(order.unref(), set),
{
    assert forall|i: int, j: int| 0 <= i < order.len() && 0 <= j < order.len() && i != j implies order.unref()[i]
        != order.unref()[j] by {
        assert(order[i] != order[j]);
    }
}

/// A prefix that grows by one element contains that element and what it
/// contained before.
pub proof fn lemma_take_grows(list: Seq<u128>, i: int)
    requires
        0 <= i < list.len(),
        list.no_duplicates(),
    ensures
        forall|k: u128| #[trigger]
            list.take(i + 1).contains(k) <==> list.take(i).contains(k) || k == list[i],
        !list.take(i).contains(list[i]),
        list.to_set().contains(list[i]),
{
    let shorter = list.take(i);
    let longer = list.take(i + 1);
    assert(longer =~= shorter.push(list[i]));
    assert forall|k: u128| #[trigger] longer.contains(k) <==> shorter.contains(k) || k
        == list[i] by {
        if longer.contains(k) {
            let j = choose|j: int| 0 <= j < longer.len() && longer[j] == k;
            if j < i {
                assert(shorter[j] == k);
            }
        }
        if shorter.contains(k) {
            let j = choose|j: int| 0 <= j < shorter.len() && shorter[j] == k;
            assert(longer[j] == k);
        }
        assert(longer[i] == list[i]);
    }
    if shorter.contains(list[i]) {
        let j = choose|j: int| 0 <= j < shorter.len() && shorter[j] == list[i];
        assert(list[j] == list[i]);
    }
    assert(list.contains(list[i]));
}

/// The longest prefix of a list contains what the list names.
pub proof fn lemma_taken_all(list: Seq<u128>)
    ensures
        forall|k: u128| #[trigger]
            list.take(list.len() as int).contains(k) <==> list.to_set().contains(k),
{
    assert(list.take(list.len() as int) =~= list);
}

/// The keys of a map, each once, in no particular order.
pub fn keys_of<V>(map: &HashMap<u128, V>) -> (keys: Vec<u128>)
    ensures
        lists(keys@, map@.dom()),
{
    let mut keys: Vec<u128> = Vec::new();
    let ghost order = vstd::std_specs::iter::IteratorSpec::remaining(
        &vstd::std_specs::hash::spec_keys_iter(map),
    );
    for key in it: map.keys()
        invariant
            it.seq() == order,
            keys@ == it.seq().unref().take(it.index() as int),
    {
        keys.push(*key);
        assert(keys@ =~= it.seq().unref().take(it.index() + 1));
    }
    proof {
        lemma_listed(order, map@.dom());
        assert(order.unref().take(order.len() as int) =~= order.unref());
    }
    keys
}

/// The elements of a set, each once, in no particular order.
pub fn items_of(set: &HashSet<u128>) -> (items: Vec<u128>)
    ensures
        lists(items@, set@),
{
    let mut items: Vec<u128> = Vec::new();
    let ghost order = vstd::std_specs::iter::IteratorSpec::remaining(
        &vstd::std_specs::hash::spec_hash_keys_iter(set),
    );
    for item in it: set.iter()
        invariant
            it.seq() == order,
            items@ == it.seq().unref().take(it.index() as int),
    {
        items.push(*item);
        assert(items@ =~= it.seq().unref().take(it.index() + 1));
    }
    proof {
        lemma_listed(order, set@);
        assert(order.unref().take(order.len() as int) =~= order.unref());
    }
    items
}

} // verus!
