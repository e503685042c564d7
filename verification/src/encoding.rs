//! Byte strings that digests are taken of.

use vstd::bytes::{u32_to_le_bytes, u64_to_le_bytes};
use vstd::prelude::*;

use crate::float::Single;
use crate::outside;
use crate::outside::id_to_bytes;
use crate::relation;
use crate::relation::RelationRef;

verus! {

/// The bytes of a list of numbers, each with its lowest byte first.
pub open spec fn numbers_bytes(values: Seq<Single>) -> Seq<u8>
    decreases values.len(),
{
    if values.len() == 0 {
        Seq::empty()
    } else {
        numbers_bytes(values.drop_last()) + vstd::bytes::spec_u32_to_le_bytes(values.last().bits)
    }
}

/// The bytes of a list of identifiers.
pub open spec fn ids_bytes(ids: Seq<u128>) -> Seq<u8>
    decreases ids.len(),
{
    if ids.len() == 0 {
        Seq::empty()
    } else {
        ids_bytes(ids.drop_last()) + outside::id_bytes(ids.last())
    }
}

/// The bytes of one relation: both identifiers, its type, its weight, its trust and
/// its times.
pub open spec fn edge_bytes(relation: RelationRef) -> Seq<u8> {
    outside::id_bytes(relation.edge_id) + outside::id_bytes(relation.target_orb_id) + seq![
        relation::type_code(relation.relation_type),
    ] + vstd::bytes::spec_u32_to_le_bytes(relation.weight.bits)
        + vstd::bytes::spec_u32_to_le_bytes(relation.trust_at_creation.bits)
        + vstd::bytes::spec_u64_to_le_bytes(relation.created_at.physical_ms)
        + vstd::bytes::spec_u32_to_le_bytes(relation.created_at.logical)
        + vstd::bytes::spec_u64_to_le_bytes(relation.last_used_ms)
}

/// The bytes of a list of relations.
pub open spec fn edges_bytes(relations: Seq<RelationRef>) -> Seq<u8>
    decreases relations.len(),
{
    if relations.len() == 0 {
        Seq::empty()
    } else {
        edges_bytes(relations.drop_last()) + edge_bytes(relations.last())
    }
}

/// A sorted list of relations with one more put behind those whose edge
/// identifier is not larger.
pub open spec fn placed(sorted: Seq<RelationRef>, relation: RelationRef) -> Seq<RelationRef>
    decreases sorted.len(),
{
    if sorted.len() == 0 || sorted.last().edge_id <= relation.edge_id {
        sorted.push(relation)
    } else {
        placed(sorted.drop_last(), relation).push(sorted.last())
    }
}

/// Relations in the order of their edge identifiers; equal ones keep the order
/// in which they stood.
pub open spec fn by_edge(relations: Seq<RelationRef>) -> Seq<RelationRef>
    decreases relations.len(),
{
    if relations.len() == 0 {
        relations
    } else {
        placed(by_edge(relations.drop_last()), relations.last())
    }
}

/// No edge identifier comes before a smaller one.
pub open spec fn edge_sorted(relations: Seq<RelationRef>) -> bool {
    forall|i: int, j: int|
        0 <= i < j < relations.len() ==> (#[trigger] relations[i]).edge_id <= (
        #[trigger] relations[j]).edge_id
}

/// No edge identifier occurs twice.
pub open spec fn distinct_edges(relations: Seq<RelationRef>) -> bool {
    forall|i: int, j: int|
        0 <= i < j < relations.len() ==> (#[trigger] relations[i]).edge_id != (
        #[trigger] relations[j]).edge_id
}

proof fn lemma_placed(sorted: Seq<RelationRef>, relation: RelationRef, pos: int)
    requires
        0 <= pos <= sorted.len(),
        pos > 0 ==> sorted[pos - 1].edge_id <= relation.edge_id,
        forall|j: int| pos <= j < sorted.len() ==> (#[trigger] sorted[j]).edge_id > relation.edge_id,
    ensures
        placed(sorted, relation) == sorted.insert(pos, relation),
    decreases sorted.len(),
{
    if pos == sorted.len() {
        assert(sorted.insert(pos, relation) =~= sorted.push(relation));
    } else {
        lemma_placed(sorted.drop_last(), relation, pos);
        assert(sorted.insert(pos, relation) =~= sorted.drop_last().insert(pos, relation).push(
            sorted.last(),
        ));
    }
}

proof fn lemma_placed_sorted(sorted: Seq<RelationRef>, relation: RelationRef)
    requires
        edge_sorted(sorted),
    ensures
        edge_sorted(placed(sorted, relation)),
        placed(sorted, relation).to_multiset() == sorted.to_multiset().insert(relation),
        placed(sorted, relation).len() == sorted.len() + 1,
        forall|k: int|
            0 <= k < placed(sorted, relation).len() ==> (#[trigger] placed(
                sorted,
                relation,
            )[k]).edge_id <= relation.edge_id || (sorted.len() > 0 && placed(
                sorted,
                relation,
            )[k].edge_id <= sorted.last().edge_id),
    decreases sorted.len(),
{
    broadcast use vstd::seq_lib::group_to_multiset_ensures;

    if sorted.len() == 0 || sorted.last().edge_id <= relation.edge_id {
        assert(forall|i: int| 0 <= i < sorted.len() ==> (#[trigger] sorted[i]).edge_id <= sorted[
        sorted.len() - 1].edge_id);
    } else {
        let shorter = sorted.drop_last();
        lemma_placed_sorted(shorter, relation);
        let inner = placed(shorter, relation);
        assert(sorted =~= shorter.push(sorted.last()));
        assert(placed(sorted, relation).to_multiset() == inner.to_multiset().insert(sorted.last()));
        assert(sorted.to_multiset() == shorter.to_multiset().insert(sorted.last()));
        assert(placed(sorted, relation).to_multiset() =~= sorted.to_multiset().insert(relation));
        assert(shorter.len() > 0 ==> shorter.last().edge_id <= sorted.last().edge_id) by {
            if shorter.len() > 0 {
                assert(sorted[shorter.len() - 1].edge_id <= sorted[sorted.len() - 1].edge_id);
            }
        }
        assert forall|i: int, j: int|
            0 <= i < j < placed(sorted, relation).len() implies (#[trigger] placed(
            sorted,
            relation,
        )[i]).edge_id <= (#[trigger] placed(sorted, relation)[j]).edge_id by {
            if j < inner.len() {
                assert(inner[i].edge_id <= inner[j].edge_id);
            } else {
                assert(inner[i].edge_id <= sorted.last().edge_id);
            }
        }
    }
}

/// Sorting by edge identifier gives the same relations, in order.
pub proof fn sorting_orders_the_edges(relations: Seq<RelationRef>)
    ensures
        edge_sorted(by_edge(relations)),
        by_edge(relations).to_multiset() == relations.to_multiset(),
        by_edge(relations).len() == relations.len(),
    decreases relations.len(),
{
    broadcast use vstd::seq_lib::group_to_multiset_ensures;

    if relations.len() > 0 {
        sorting_orders_the_edges(relations.drop_last());
        lemma_placed_sorted(by_edge(relations.drop_last()), relations.last());
        assert(relations =~= relations.drop_last().push(relations.last()));
    }
}

/// Two sorted lists of the same relations are the same list where no edge
/// identifier occurs twice.
proof fn lemma_sorted_unique(a: Seq<RelationRef>, b: Seq<RelationRef>)
    requires
        edge_sorted(a),
        edge_sorted(b),
        a.to_multiset() == b.to_multiset(),
        distinct_edges(a),
    ensures
        a == b,
    decreases a.len(),
{
    broadcast use vstd::seq_lib::group_to_multiset_ensures;

    assert(a.len() == a.to_multiset().len());
    assert(b.len() == b.to_multiset().len());
    if a.len() > 0 {
        let x = a.last();
        let y = b.last();
        assert(a.contains(x));
        assert(a.to_multiset().count(x) > 0);
        assert(b.to_multiset().count(x) > 0);
        assert(b.contains(x));
        let i = choose|i: int| 0 <= i < b.len() && b[i] == x;
        assert(b[i].edge_id <= y.edge_id) by {
            if i < b.len() - 1 {
                assert(b[i].edge_id <= b[b.len() - 1].edge_id);
            }
        }
        assert(b.contains(y));
        assert(b.to_multiset().count(y) > 0);
        assert(a.to_multiset().count(y) > 0);
        assert(a.contains(y));
        let j = choose|j: int| 0 <= j < a.len() && a[j] == y;
        if j < a.len() - 1 {
            assert(a[j].edge_id != a[a.len() - 1].edge_id);
            assert(a[j].edge_id <= a[a.len() - 1].edge_id);
        }
        assert(x == y);
        assert(a =~= a.drop_last().push(x));
        assert(b =~= b.drop_last().push(x));
        assert(a.to_multiset() == a.drop_last().to_multiset().insert(x));
        assert(b.to_multiset() == b.drop_last().to_multiset().insert(x));
        assert(a.to_multiset().remove(x) =~= a.drop_last().to_multiset());
        assert(b.to_multiset().remove(x) =~= b.drop_last().to_multiset());
        assert(edge_sorted(a.drop_last()));
        assert(edge_sorted(b.drop_last()));
        assert(distinct_edges(a.drop_last()));
        lemma_sorted_unique(a.drop_last(), b.drop_last());
    } else {
        assert(a =~= b);
    }
}

proof fn lemma_distinct_by_multiset(a: Seq<RelationRef>, b: Seq<RelationRef>)
    requires
        distinct_edges(a),
        a.to_multiset() == b.to_multiset(),
        edge_sorted(b),
    ensures
        distinct_edges(b),
{
    broadcast use vstd::seq_lib::group_to_multiset_ensures;

    assert forall|i: int, j: int| 0 <= i < j < b.len() implies (#[trigger] b[i]).edge_id != (
    #[trigger] b[j]).edge_id by {
        if b[i].edge_id == b[j].edge_id {
            assert(b.contains(b[i]) && b.contains(b[j]));
            assert(b.to_multiset().count(b[i]) > 0);
            assert(b.to_multiset().count(b[j]) > 0);
            assert(a.contains(b[i]) && a.contains(b[j]));
            let p = choose|p: int| 0 <= p < a.len() && a[p] == b[i];
            let q = choose|q: int| 0 <= q < a.len() && a[q] == b[j];
            if p != q {
                if p < q {
                    assert(a[p].edge_id != a[q].edge_id);
                } else {
                    assert(a[q].edge_id != a[p].edge_id);
                }
            }
            assert(b[i] == b[j]);
            let shorter = b.remove(j);
            assert(b.to_multiset() =~= shorter.to_multiset().insert(b[j])) by {
                assert(shorter.to_multiset() =~= b.to_multiset().remove(b[j]));
            }
            assert(shorter[i] == b[i]);
            assert(shorter.contains(b[i]));
            assert(shorter.to_multiset().count(b[i]) > 0);
            assert(a.to_multiset().count(a[p]) >= 2);
            let rest = a.remove(p);
            assert(rest.to_multiset() =~= a.to_multiset().remove(a[p]));
            assert(rest.to_multiset().count(a[p]) > 0);
            assert(rest.contains(a[p]));
            let k = choose|k: int| 0 <= k < rest.len() && rest[k] == a[p];
            if k < p {
                assert(a[k].edge_id != a[p].edge_id);
            } else {
                assert(a[p].edge_id != a[k + 1].edge_id);
            }
        }
    }
}

/// The sorted relations do not depend on the order in which they stood, where
/// no edge identifier occurs twice.
pub proof fn sorting_forgets_the_order(a: Seq<RelationRef>, b: Seq<RelationRef>)
    requires
        distinct_edges(a),
        a.to_multiset() == b.to_multiset(),
    ensures
        by_edge(a) == by_edge(b),
{
    sorting_orders_the_edges(a);
    sorting_orders_the_edges(b);
    lemma_distinct_by_multiset(a, by_edge(a));
    lemma_sorted_unique(by_edge(a), by_edge(b));
}

/// The parts of two concatenations agree where the first parts have the same
/// length.
pub proof fn lemma_split(a: Seq<u8>, b: Seq<u8>, c: Seq<u8>, d: Seq<u8>)
    requires
        a + b == c + d,
        a.len() == c.len(),
    ensures
        a == c,
        b == d,
{
    assert(a =~= (a + b).take(a.len() as int));
    assert(c =~= (c + d).take(c.len() as int));
    assert(b =~= (a + b).skip(a.len() as int));
    assert(d =~= (c + d).skip(c.len() as int));
}

/// Identifiers have sixteen bytes, which tell them apart.
pub proof fn lemma_id_bytes(a: u128, b: u128)
    ensures
        outside::id_bytes(a).len() == 16,
        outside::id_bytes(a) == outside::id_bytes(b) ==> a == b,
{
    vstd::bytes::lemma_auto_spec_u128_to_from_le_bytes();
    let x = vstd::bytes::spec_u128_to_le_bytes(a);
    let y = vstd::bytes::spec_u128_to_le_bytes(b);
    assert(x.reverse().reverse() =~= x);
    assert(y.reverse().reverse() =~= y);
}

/// Numbers of 32 bits have four bytes, which tell them apart.
pub proof fn lemma_u32_bytes(a: u32, b: u32)
    ensures
        vstd::bytes::spec_u32_to_le_bytes(a).len() == 4,
        vstd::bytes::spec_u32_to_le_bytes(a) == vstd::bytes::spec_u32_to_le_bytes(b) ==> a == b,
{
    vstd::bytes::lemma_auto_spec_u32_to_from_le_bytes();
    assert(vstd::bytes::spec_u32_to_le_bytes(a).len() == 4);
    assert(vstd::bytes::spec_u32_to_le_bytes(b).len() == 4);
}

/// Numbers of 64 bits have eight bytes, which tell them apart.
pub proof fn lemma_u64_bytes(a: u64, b: u64)
    ensures
        vstd::bytes::spec_u64_to_le_bytes(a).len() == 8,
        vstd::bytes::spec_u64_to_le_bytes(a) == vstd::bytes::spec_u64_to_le_bytes(b) ==> a == b,
{
    vstd::bytes::lemma_auto_spec_u64_to_from_le_bytes();
    assert(vstd::bytes::spec_u64_to_le_bytes(a).len() == 8);
    assert(vstd::bytes::spec_u64_to_le_bytes(b).len() == 8);
}

pub proof fn lemma_numbers_length(values: Seq<Single>)
    ensures
        numbers_bytes(values).len() == 4 * values.len(),
    decreases values.len(),
{
    if values.len() > 0 {
        lemma_numbers_length(values.drop_last());
        lemma_u32_bytes(values.last().bits, 0);
    }
}

pub proof fn lemma_ids_length(ids: Seq<u128>)
    ensures
        ids_bytes(ids).len() == 16 * ids.len(),
    decreases ids.len(),
{
    if ids.len() > 0 {
        lemma_ids_length(ids.drop_last());
        lemma_id_bytes(ids.last(), 0);
    }
}

proof fn lemma_edge_length(relation: RelationRef)
    ensures
        edge_bytes(relation).len() == 61,
{
    lemma_id_bytes(relation.edge_id, 0);
    lemma_id_bytes(relation.target_orb_id, 0);
    lemma_u32_bytes(relation.weight.bits, 0);
    lemma_u32_bytes(relation.trust_at_creation.bits, 0);
    lemma_u64_bytes(relation.created_at.physical_ms, 0);
    lemma_u32_bytes(relation.created_at.logical, 0);
    lemma_u64_bytes(relation.last_used_ms, 0);
}

pub proof fn lemma_edges_length(relations: Seq<RelationRef>)
    ensures
        edges_bytes(relations).len() == 61 * relations.len(),
    decreases relations.len(),
{
    if relations.len() > 0 {
        lemma_edges_length(relations.drop_last());
        lemma_edge_length(relations.last());
    }
}

/// The bytes of a list of numbers tell it apart from others of its length.
pub proof fn lemma_numbers_injective(a: Seq<Single>, b: Seq<Single>)
    requires
        a.len() == b.len(),
        numbers_bytes(a) == numbers_bytes(b),
    ensures
        a == b,
    decreases a.len(),
{
    if a.len() > 0 {
        lemma_numbers_length(a.drop_last());
        lemma_numbers_length(b.drop_last());
        lemma_split(
            numbers_bytes(a.drop_last()),
            vstd::bytes::spec_u32_to_le_bytes(a.last().bits),
            numbers_bytes(b.drop_last()),
            vstd::bytes::spec_u32_to_le_bytes(b.last().bits),
        );
        lemma_numbers_injective(a.drop_last(), b.drop_last());
        lemma_u32_bytes(a.last().bits, b.last().bits);
        assert(a =~= a.drop_last().push(a.last()));
        assert(b =~= b.drop_last().push(b.last()));
    } else {
        assert(a =~= b);
    }
}

/// The bytes of a list of identifiers tell it apart from others of its length.
pub proof fn lemma_ids_injective(a: Seq<u128>, b: Seq<u128>)
    requires
        a.len() == b.len(),
        ids_bytes(a) == ids_bytes(b),
    ensures
        a == b,
    decreases a.len(),
{
    if a.len() > 0 {
        lemma_ids_length(a.drop_last());
        lemma_ids_length(b.drop_last());
        lemma_split(
            ids_bytes(a.drop_last()),
            outside::id_bytes(a.last()),
            ids_bytes(b.drop_last()),
            outside::id_bytes(b.last()),
        );
        lemma_ids_injective(a.drop_last(), b.drop_last());
        lemma_id_bytes(a.last(), b.last());
        assert(a =~= a.drop_last().push(a.last()));
        assert(b =~= b.drop_last().push(b.last()));
    } else {
        assert(a =~= b);
    }
}

/// The bytes of a relation tell it apart from every other.
proof fn lemma_edge_injective(a: RelationRef, b: RelationRef)
    requires
        edge_bytes(a) == edge_bytes(b),
    ensures
        a == b,
{
    lemma_id_bytes(a.edge_id, b.edge_id);
    lemma_id_bytes(b.edge_id, a.edge_id);
    lemma_id_bytes(a.target_orb_id, b.target_orb_id);
    lemma_id_bytes(b.target_orb_id, a.target_orb_id);
    lemma_u32_bytes(a.weight.bits, b.weight.bits);
    lemma_u32_bytes(b.weight.bits, a.weight.bits);
    lemma_u32_bytes(a.trust_at_creation.bits, b.trust_at_creation.bits);
    lemma_u32_bytes(b.trust_at_creation.bits, a.trust_at_creation.bits);
    lemma_u64_bytes(a.created_at.physical_ms, b.created_at.physical_ms);
    lemma_u64_bytes(b.created_at.physical_ms, a.created_at.physical_ms);
    lemma_u32_bytes(a.created_at.logical, b.created_at.logical);
    lemma_u32_bytes(b.created_at.logical, a.created_at.logical);
    lemma_u64_bytes(a.last_used_ms, b.last_used_ms);
    lemma_u64_bytes(b.last_used_ms, a.last_used_ms);
    let a1 = outside::id_bytes(a.edge_id);
    let a2 = outside::id_bytes(a.target_orb_id);
    let a3 = seq![relation::type_code(a.relation_type)];
    let a4 = vstd::bytes::spec_u32_to_le_bytes(a.weight.bits);
    let a5 = vstd::bytes::spec_u32_to_le_bytes(a.trust_at_creation.bits);
    let a6 = vstd::bytes::spec_u64_to_le_bytes(a.created_at.physical_ms);
    let a7 = vstd::bytes::spec_u32_to_le_bytes(a.created_at.logical);
    let a8 = vstd::bytes::spec_u64_to_le_bytes(a.last_used_ms);
    let b1 = outside::id_bytes(b.edge_id);
    let b2 = outside::id_bytes(b.target_orb_id);
    let b3 = seq![relation::type_code(b.relation_type)];
    let b4 = vstd::bytes::spec_u32_to_le_bytes(b.weight.bits);
    let b5 = vstd::bytes::spec_u32_to_le_bytes(b.trust_at_creation.bits);
    let b6 = vstd::bytes::spec_u64_to_le_bytes(b.created_at.physical_ms);
    let b7 = vstd::bytes::spec_u32_to_le_bytes(b.created_at.logical);
    let b8 = vstd::bytes::spec_u64_to_le_bytes(b.last_used_ms);
    lemma_split(
        a1 + a2 + a3 + a4 + a5 + a6 + a7,
        a8,
        b1 + b2 + b3 + b4 + b5 + b6 + b7,
        b8,
    );
    lemma_split(a1 + a2 + a3 + a4 + a5 + a6, a7, b1 + b2 + b3 + b4 + b5 + b6, b7);
    lemma_split(a1 + a2 + a3 + a4 + a5, a6, b1 + b2 + b3 + b4 + b5, b6);
    lemma_split(a1 + a2 + a3 + a4, a5, b1 + b2 + b3 + b4, b5);
    lemma_split(a1 + a2 + a3, a4, b1 + b2 + b3, b4);
    lemma_split(a1 + a2, a3, b1 + b2, b3);
    lemma_split(a1, a2, b1, b2);
    assert(a3[0] == b3[0]);
}

/// The bytes of a list of relations tell it apart from others of its length.
pub proof fn lemma_edges_injective(a: Seq<RelationRef>, b: Seq<RelationRef>)
    requires
        a.len() == b.len(),
        edges_bytes(a) == edges_bytes(b),
    ensures
        a == b,
    decreases a.len(),
{
    if a.len() > 0 {
        lemma_edges_length(a.drop_last());
        lemma_edges_length(b.drop_last());
        lemma_split(
            edges_bytes(a.drop_last()),
            edge_bytes(a.last()),
            edges_bytes(b.drop_last()),
            edge_bytes(b.last()),
        );
        lemma_edges_injective(a.drop_last(), b.drop_last());
        lemma_edge_injective(a.last(), b.last());
        assert(a =~= a.drop_last().push(a.last()));
        assert(b =~= b.drop_last().push(b.last()));
    } else {
        assert(a =~= b);
    }
}

/// Puts bytes behind others.
pub fn append_bytes(target: &mut Vec<u8>, bytes: &[u8])
    ensures
        final(target)@ == old(target)@ + bytes@,
{
    let ghost before = target@;
    let mut i: usize = 0;
    while i < bytes.len()
        invariant
            i <= bytes@.len(),
            target@ == before + bytes@.take(i as int),
        decreases bytes@.len() - i,
    {
        target.push(bytes[i]);
        assert(target@ =~= before + bytes@.take(i + 1));
        i += 1;
    }
    assert(bytes@.take(i as int) =~= bytes@);
}

/// Whether two digests are the same.
pub fn same_digest(a: &[u8; 32], b: &[u8; 32]) -> (result: bool)
    ensures
        result == (a@ == b@),
{
    let mut i: usize = 0;
    while i < 32
        invariant
            i <= 32,
            a@.len() == 32,
            b@.len() == 32,
            forall|j: int| 0 <= j < i ==> a@[j] == b@[j],
        decreases 32 - i,
    {
        if a[i] != b[i] {
            return false;
        }
        i += 1;
    }
    assert(a@ =~= b@);
    true
}

/// Appends the bytes of a number.
pub fn append_u32(target: &mut Vec<u8>, value: u32)
    ensures
        final(target)@ == old(target)@ + vstd::bytes::spec_u32_to_le_bytes(value),
{
    let bytes = u32_to_le_bytes(value);
    append_bytes(target, bytes.as_slice());
}

/// Appends the bytes of a number.
pub fn append_u64(target: &mut Vec<u8>, value: u64)
    ensures
        final(target)@ == old(target)@ + vstd::bytes::spec_u64_to_le_bytes(value),
{
    let bytes = u64_to_le_bytes(value);
    append_bytes(target, bytes.as_slice());
}

/// Appends the bytes of an identifier.
pub fn append_id(target: &mut Vec<u8>, id: u128)
    ensures
        final(target)@ == old(target)@ + outside::id_bytes(id),
{
    let bytes = id_to_bytes(id);
    append_bytes(target, bytes.as_slice());
}

/// Appends the bytes of a list of numbers.
pub fn append_numbers(target: &mut Vec<u8>, values: &Vec<Single>)
    ensures
        final(target)@ == old(target)@ + numbers_bytes(values@),
{
    let ghost before = target@;
    let mut i: usize = 0;
    assert(target@ =~= before + numbers_bytes(values@.take(0)));
    while i < values.len()
        invariant
            i <= values@.len(),
            target@ == before + numbers_bytes(values@.take(i as int)),
        decreases values@.len() - i,
    {
        append_u32(target, values[i].bits);
        assert(values@.take(i + 1).drop_last() =~= values@.take(i as int));
        assert(target@ =~= before + numbers_bytes(values@.take(i + 1)));
        i += 1;
    }
    assert(values@.take(i as int) =~= values@);
}

/// Appends the bytes of a list of identifiers.
pub fn append_ids(target: &mut Vec<u8>, ids: &Vec<u128>)
    ensures
        final(target)@ == old(target)@ + ids_bytes(ids@),
{
    let ghost before = target@;
    let mut i: usize = 0;
    assert(target@ =~= before + ids_bytes(ids@.take(0)));
    while i < ids.len()
        invariant
            i <= ids@.len(),
            target@ == before + ids_bytes(ids@.take(i as int)),
        decreases ids@.len() - i,
    {
        append_id(target, ids[i]);
        assert(ids@.take(i + 1).drop_last() =~= ids@.take(i as int));
        assert(target@ =~= before + ids_bytes(ids@.take(i + 1)));
        i += 1;
    }
    assert(ids@.take(i as int) =~= ids@);
}

/// Appends the bytes of a list of relations.
pub fn append_edges(target: &mut Vec<u8>, relations: &Vec<RelationRef>)
    ensures
        final(target)@ == old(target)@ + edges_bytes(relations@),
{
    let ghost before = target@;
    let mut i: usize = 0;
    assert(target@ =~= before + edges_bytes(relations@.take(0)));
    while i < relations.len()
        invariant
            i <= relations@.len(),
            target@ == before + edges_bytes(relations@.take(i as int)),
        decreases relations@.len() - i,
    {
        let relation = relations[i];
        append_id(target, relation.edge_id);
        append_id(target, relation.target_orb_id);
        target.push(relation.relation_type.code());
        append_u32(target, relation.weight.bits);
        append_u32(target, relation.trust_at_creation.bits);
        append_u64(target, relation.created_at.physical_ms);
        append_u32(target, relation.created_at.logical);
        append_u64(target, relation.last_used_ms);
        assert(relations@.take(i + 1).drop_last() =~= relations@.take(i as int));
        assert(target@ =~= before + edges_bytes(relations@.take(i + 1)));
        i += 1;
    }
    assert(relations@.take(i as int) =~= relations@);
}

/// The relations in the order of their edge identifiers.
pub fn sort_by_edge(relations: &Vec<RelationRef>) -> (sorted: Vec<RelationRef>)
    ensures
        sorted@ == by_edge(relations@),
{
    let mut sorted: Vec<RelationRef> = Vec::new();
    let mut i: usize = 0;
    while i < relations.len()
        invariant
            i <= relations@.len(),
            sorted@ == by_edge(relations@.take(i as int)),
        decreases relations@.len() - i,
    {
        let relation = relations[i];
        let mut pos: usize = sorted.len();
        while pos > 0 && sorted[pos - 1].edge_id > relation.edge_id
            invariant
                pos <= sorted@.len(),
                forall|j: int|
                    pos <= j < sorted@.len() ==> (#[trigger] sorted@[j]).edge_id
                        > relation.edge_id,
            decreases pos,
        {
            pos -= 1;
        }
        proof {
            lemma_placed(sorted@, relation, pos as int);
            assert(relations@.take(i + 1).drop_last() =~= relations@.take(i as int));
        }
        sorted.insert(pos, relation);
        i += 1;
    }
    assert(relations@.take(i as int) =~= relations@);
    sorted
}

} // verus!
