//! Merging of replicas that changed on their own.

use std::collections::{HashMap, HashSet};

use vstd::prelude::*;
use vstd::string::StringExecFns;

use crate::belief;
use crate::belief::ProbabilityField;
use crate::clock;
use crate::clock::{HlcTimestamp, VectorClock};
use crate::doubles;
use crate::error::PiriaError;
use crate::float::{Single, SINGLE_ONE};
use crate::fpu;
use crate::fpu::{Arithmetic, Flop, Fpu};
use crate::maps;
use crate::maps::{items_of, keys_of};
use crate::numeric;
use crate::numeric::{copy_numbers, l2_norm};
use crate::orb;
use crate::orb::{Orb, OrbView, SemanticState};
use crate::orset;
use crate::orset::{OrSetView, RelationOrSet};
use crate::outside;
use crate::outside::{id_to_text, now_ms};
use crate::permissions::Permissions;
use crate::rounding;
use crate::trust;
use crate::trust::{TrustRecord, TRUST_FLOOR};
use crate::vector;
use crate::vector::{SemanticVector, SMALLEST_NORM, VECTOR_DIM};

verus! {

broadcast use vstd::std_specs::hash::group_hash_axioms;

// ---------------------------------------------------------------------------
// Trust
// ---------------------------------------------------------------------------

/// A trust record of which the last write wins.
#[derive(Debug, Clone, Copy, PartialEq, Eq, Structural)]
pub struct TrustLwwRegister {
    pub record: TrustRecord,
    /// When the record was written.
    pub last_write_hlc: HlcTimestamp,
}

/// A register with its score raised to the floor.
pub open spec fn floored(register: TrustLwwRegister) -> TrustLwwRegister {
    TrustLwwRegister {
        record: TrustRecord {
            score: register.record.score.larger(Single { bits: TRUST_FLOOR }),
            ..register.record
        },
        ..register
    }
}

/// Whether one register gives way to another: it was written earlier or, at the
/// same time, its record comes before the other in the order of records.
pub open spec fn gives_way(a: TrustLwwRegister, b: TrustLwwRegister) -> bool {
    a.last_write_hlc.before(b.last_write_hlc) || (a.last_write_hlc == b.last_write_hlc
        && trust::outranked(a.record, b.record))
}

/// The register that was written later, with its score raised to the floor; of two
/// that were written at the same time the one that does not give way.
pub open spec fn last_written(a: TrustLwwRegister, b: TrustLwwRegister) -> TrustLwwRegister {
    if gives_way(floored(a), floored(b)) {
        floored(b)
    } else {
        floored(a)
    }
}

impl TrustLwwRegister {
    pub fn new(record: TrustRecord, hlc: HlcTimestamp) -> (register: Self)
        ensures
            register == (TrustLwwRegister { record, last_write_hlc: hlc }),
    {
        TrustLwwRegister { record, last_write_hlc: hlc }
    }

    /// The register that was written later, with its score raised to the floor.
    pub fn merge(&self, other: &TrustLwwRegister) -> (merged: TrustLwwRegister)
        ensures
            merged == last_written(*self, *other),
    {
        let mine = self.raised();
        let theirs = other.raised();
        if mine.last_write_hlc.is_before(&theirs.last_write_hlc) || (mine.last_write_hlc
            == theirs.last_write_hlc && mine.record.is_outranked_by(&theirs.record)) {
            theirs
        } else {
            mine
        }
    }

    /// The register with its score raised to the floor.
    fn raised(&self) -> (register: TrustLwwRegister)
        ensures
            register == floored(*self),
    {
        TrustLwwRegister {
            record: TrustRecord {
                score: self.record.score.max(&Single::from_bits(TRUST_FLOOR)),
                evidence_count: self.record.evidence_count,
                last_updated_ms: self.record.last_updated_ms,
            },
            last_write_hlc: self.last_write_hlc,
        }
    }
}

/// After a merge the score is at the floor or above.
pub proof fn merged_trust_keeps_the_floor(a: TrustLwwRegister, b: TrustLwwRegister)
    ensures
        (Single { bits: TRUST_FLOOR }).at_most(last_written(a, b).record.score),
{
}

/// A merge keeps the later timestamp, and the record of the register that was
/// written later, but for a score that is raised to the floor.
pub proof fn later_trust_wins(a: TrustLwwRegister, b: TrustLwwRegister)
    ensures
        last_written(a, b).last_write_hlc == a.last_write_hlc.later(b.last_write_hlc),
        a.last_write_hlc.before(b.last_write_hlc) ==> last_written(a, b) == floored(b),
        b.last_write_hlc.before(a.last_write_hlc) ==> last_written(a, b) == floored(a),
{
}

/// Merging does not depend on the order of the registers.
pub proof fn trust_merge_commutes(a: TrustLwwRegister, b: TrustLwwRegister)
    ensures
        last_written(a, b) == last_written(b, a),
{
    trust::records_are_ordered(floored(a).record, floored(b).record, floored(a).record);
}

/// Merging does not depend on the grouping of the registers.
pub proof fn trust_merge_associates(
    a: TrustLwwRegister,
    b: TrustLwwRegister,
    c: TrustLwwRegister,
)
    ensures
        last_written(last_written(a, b), c) == last_written(a, last_written(b, c)),
{
    let x = floored(a);
    let y = floored(b);
    let z = floored(c);
    assert(floored(x) == x && floored(y) == y && floored(z) == z);
    trust::records_are_ordered(x.record, y.record, z.record);
    trust::records_are_ordered(y.record, x.record, z.record);
    trust::records_are_ordered(x.record, z.record, y.record);
    trust::records_are_ordered(z.record, y.record, x.record);
    trust::records_are_ordered(z.record, x.record, y.record);
    trust::records_are_ordered(y.record, z.record, x.record);
}

/// Merging a register with itself changes nothing but to raise its score to the
/// floor.
pub proof fn trust_merge_is_idempotent(a: TrustLwwRegister)
    ensures
        last_written(a, a) == floored(a),
        (Single { bits: TRUST_FLOOR }).at_most(a.record.score) ==> last_written(a, a) == a,
{
}

// ---------------------------------------------------------------------------
// Events
// ---------------------------------------------------------------------------

/// A set of event identifiers that only grows.
#[derive(Debug)]
pub struct EventRefGSet {
    pub refs: HashSet<u128>,
}

impl View for EventRefGSet {
    type V = Set<u128>;

    open spec fn view(&self) -> Set<u128> {
        self.refs@
    }
}

impl EventRefGSet {
    pub fn new() -> (set: Self)
        ensures
            set@ == Set::<u128>::empty(),
    {
        EventRefGSet { refs: HashSet::new() }
    }

    pub fn add(&mut self, event_id: u128)
        ensures
            final(self)@ == old(self)@.insert(event_id),
    {
        self.refs.insert(event_id);
    }

    /// Adds everything that another set holds.
    fn add_all(&mut self, other: &EventRefGSet)
        ensures
            final(self)@ == old(self)@.union(other@),
    {
        let items = items_of(&other.refs);
        let ghost before = self@;
        let mut i: usize = 0;
        while i < items.len()
            invariant
                i <= items@.len(),
                maps::lists(items@, other@),
                forall|k: u128| #[trigger]
                    self@.contains(k) <==> before.contains(k) || items@.take(i as int).contains(k),
            decreases items@.len() - i,
        {
            proof {
                maps::lemma_take_grows(items@, i as int);
            }
            self.add(items[i]);
            i += 1;
        }
        proof {
            maps::lemma_taken_all(items@);
            assert(self@ =~= before.union(other@));
        }
    }

    /// What either set holds.
    pub fn merge(&self, other: &EventRefGSet) -> (merged: EventRefGSet)
        ensures
            merged@ == self@.union(other@),
    {
        let mut merged = EventRefGSet::new();
        merged.add_all(self);
        merged.add_all(other);
        assert(merged@ =~= self@.union(other@));
        merged
    }
}

impl Default for EventRefGSet {
    fn default() -> (set: Self)
        ensures
            set@ == Set::<u128>::empty(),
    {
        EventRefGSet::new()
    }
}

impl Clone for EventRefGSet {
    fn clone(&self) -> (copy: Self)
        ensures
            copy@ == self@,
    {
        let mut copy = EventRefGSet::new();
        copy.add_all(self);
        assert(copy@ =~= self@);
        copy
    }
}

/// Merging does not depend on the order or the grouping of the sets, merging a
/// set with itself changes nothing, and nothing is lost.
pub proof fn event_merge_is_a_join(a: Set<u128>, b: Set<u128>, c: Set<u128>)
    ensures
        a.union(b) == b.union(a),
        a.union(b).union(c) == a.union(b.union(c)),
        a.union(a) == a,
        a.subset_of(a.union(b)),
{
    assert(a.union(b) =~= b.union(a));
    assert(a.union(b).union(c) =~= a.union(b.union(c)));
    assert(a.union(a) =~= a);
}

// ---------------------------------------------------------------------------
// Embeddings
// ---------------------------------------------------------------------------

/// The bit pattern of the norm that is reported where there is none.
pub const NO_NORM: u32 = 0x7FC0_0000;

/// A trust score that can serve as a weight: nothing negative, nothing infinite.
pub open spec fn sane_trust(score: Single) -> Single {
    if score.finite() {
        score.larger(Single { bits: 0 })
    } else {
        Single { bits: 0 }
    }
}

/// The sum of two vectors, each times its weight.
pub open spec fn weighted_sum(
    m: Arithmetic,
    va: Seq<Single>,
    weight_a: Single,
    vb: Seq<Single>,
    weight_b: Single,
) -> Seq<Single> {
    Seq::new(
        VECTOR_DIM as nat,
        |i: int|
            fpu::sum(m, fpu::product(m, weight_a, va[i]), fpu::product(m, weight_b, vb[i])),
    )
}

/// Whether all components are finite.
pub open spec fn all_finite(values: Seq<Single>) -> bool {
    forall|i: int| 0 <= i < values.len() ==> (#[trigger] values[i]).finite()
}

/// Whether one vector comes after another in the order that looks at the first
/// component in which they differ.
pub open spec fn comes_after(candidate: Seq<Single>, current: Seq<Single>) -> bool {
    exists|i: int|
        0 <= i < candidate.len() && i < current.len() && (#[trigger] candidate[i]).total_rank()
            > current[i].total_rank() && candidate.take(i) == current.take(i)
}

/// What two embeddings of the right dimension become before they are scaled.
pub open spec fn blended(
    m: Arithmetic,
    va: Seq<Single>,
    trust_a: Single,
    vb: Seq<Single>,
    trust_b: Single,
) -> Seq<Single> {
    let weight_a = sane_trust(trust_a);
    let weight_b = sane_trust(trust_b);
    let raw = weighted_sum(m, va, weight_a, vb, weight_b);
    if !vector::vanishing(numeric::length(m, raw)) {
        raw
    } else if weight_a.below(weight_b) || (weight_b.equals(weight_a) && comes_after(vb, va)) {
        vb
    } else {
        va
    }
}

/// What two embeddings become together: their sum weighted by trust and scaled
/// to unit length. Where they cancel each other, the one with more trust stays,
/// or the one that comes later in the order where the trust is equal.
pub open spec fn blend(
    m: Arithmetic,
    va: Seq<Single>,
    trust_a: Single,
    vb: Seq<Single>,
    trust_b: Single,
) -> Result<Seq<Single>, PiriaError> {
    let weight_a = sane_trust(trust_a);
    let weight_b = sane_trust(trust_b);
    let raw = weighted_sum(m, va, weight_a, vb, weight_b);
    if va.len() != VECTOR_DIM {
        Err(PiriaError::VectorDimensionMismatch { expected: VECTOR_DIM, got: va.len() as usize })
    } else if vb.len() != VECTOR_DIM {
        Err(PiriaError::VectorDimensionMismatch { expected: VECTOR_DIM, got: vb.len() as usize })
    } else if !all_finite(raw) {
        Err(PiriaError::VectorNotNormalized { norm: Single { bits: NO_NORM } })
    } else {
        vector::embedding(m, blended(m, va, trust_a, vb, trust_b))
    }
}

fn sanitize_merge_trust(trust: Single) -> (result: Single)
    ensures
        result == sane_trust(trust),
{
    if trust.is_finite() {
        trust.max(&Single::zero())
    } else {
        Single::zero()
    }
}

/// Different bit patterns have different places in the order of all of them.
proof fn lemma_total_rank_injective(a: Single, b: Single)
    ensures
        a.total_rank() == b.total_rank() ==> a == b,
{
}

fn vector_tie_breaks_after(candidate: &[Single], current: &[Single]) -> (result: bool)
    ensures
        result == comes_after(candidate@, current@),
{
    let mut i: usize = 0;
    while i < candidate.len() && i < current.len()
        invariant
            i <= candidate@.len(),
            i <= current@.len(),
            candidate@.take(i as int) == current@.take(i as int),
        decreases candidate@.len() - i,
    {
        if candidate[i].after(&current[i]) {
            assert(comes_after(candidate@, current@));
            return true;
        }
        proof {
            lemma_total_rank_injective(candidate@[i as int], current@[i as int]);
        }
        if current[i].after(&candidate[i]) {
            assert forall|j: int|
                0 <= j < candidate@.len() && j < current@.len() && (
                #[trigger] candidate@[j]).total_rank()
                    > current@[j].total_rank() implies candidate@.take(j) != current@.take(
                j,
            ) by {
                if j < i {
                    assert(candidate@.take(i as int)[j] == current@.take(i as int)[j]);
                } else if j > i {
                    assert(candidate@.take(j)[i as int] != current@.take(j)[i as int]);
                }
            }
            return false;
        }
        assert(candidate@.take(i + 1) =~= candidate@.take(i as int).push(candidate@[i as int]));
        assert(current@.take(i + 1) =~= current@.take(i as int).push(current@[i as int]));
        i += 1;
    }
    assert forall|j: int|
        0 <= j < candidate@.len() && j < current@.len() && (#[trigger] candidate@[j]).total_rank()
            > current@[j].total_rank() implies false by {
        assert(candidate@.take(i as int)[j] == current@.take(i as int)[j]);
    }
    false
}

fn copy_slice(values: &[Single]) -> (copy: Vec<Single>)
    ensures
        copy@ == values@,
{
    let mut copy: Vec<Single> = Vec::new();
    let mut i: usize = 0;
    while i < values.len()
        invariant
            i <= values@.len(),
            copy@ == values@.take(i as int),
        decreases values@.len() - i,
    {
        copy.push(values[i]);
        assert(copy@ =~= values@.take(i + 1));
        i += 1;
    }
    assert(values@.take(i as int) =~= values@);
    copy
}

/// What two embeddings become together.
pub fn merge_semantic_vectors<F: Fn(Flop) -> u64>(
    fpu: &Fpu<F>,
    va: &[Single],
    trust_a: Single,
    vb: &[Single],
    trust_b: Single,
) -> (result: Result<SemanticVector, PiriaError>)
    ensures
        vector::embeds(result, blend(fpu@, va@, trust_a, vb@, trust_b)),
{
    if va.len() != VECTOR_DIM || vb.len() != VECTOR_DIM {
        let got: usize = if va.len() != VECTOR_DIM {
            va.len()
        } else {
            vb.len()
        };
        return Err(PiriaError::VectorDimensionMismatch { expected: VECTOR_DIM, got });
    }
    let weight_a = sanitize_merge_trust(trust_a);
    let weight_b = sanitize_merge_trust(trust_b);
    let ghost want = weighted_sum(fpu@, va@, weight_a, vb@, weight_b);
    let mut raw: Vec<Single> = Vec::new();
    let mut finite = true;
    let mut i: usize = 0;
    while i < VECTOR_DIM
        invariant
            i <= VECTOR_DIM,
            va@.len() == VECTOR_DIM,
            vb@.len() == VECTOR_DIM,
            want == weighted_sum(fpu@, va@, weight_a, vb@, weight_b),
            raw@ == want.take(i as int),
            finite == all_finite(raw@),
        decreases VECTOR_DIM - i,
    {
        let component = fpu.add(fpu.mul(weight_a, va[i]), fpu.mul(weight_b, vb[i]));
        let ghost before = raw@;
        raw.push(component);
        if !component.is_finite() {
            finite = false;
            assert(!raw@[i as int].finite());
        }
        assert(all_finite(raw@) == (all_finite(before) && component.finite())) by {
            assert(raw@[i as int] == component);
            assert(forall|j: int| 0 <= j < i ==> before[j] == #[trigger] raw@[j]);
            if all_finite(raw@) {
                assert forall|j: int| 0 <= j < before.len() implies (
                #[trigger] before[j]).finite() by {
                    assert(raw@[j].finite());
                }
            }
        }
        assert(raw@ =~= want.take(i + 1));
        i += 1;
    }
    assert(want.take(i as int) =~= want);
    if !finite {
        return Err(PiriaError::VectorNotNormalized { norm: Single::from_bits(NO_NORM) });
    }
    if l2_norm(fpu, raw.as_slice()).lt(&Single::from_bits(SMALLEST_NORM)) {
        return if weight_a.lt(&weight_b) || (weight_b.same_number(&weight_a)
            && vector_tie_breaks_after(vb, va)) {
            SemanticVector::new(fpu, copy_slice(vb))
        } else {
            SemanticVector::new(fpu, copy_slice(va))
        };
    }
    SemanticVector::new(fpu, raw)
}

proof fn lemma_order_is_total(a: Seq<Single>, b: Seq<Single>, n: int)
    requires
        a.len() == b.len(),
        0 <= n <= a.len(),
    ensures
        comes_after(a, b) || comes_after(b, a) || a.take(n) == b.take(n),
    decreases n,
{
    if n == 0 {
        assert(a.take(0) =~= b.take(0));
    } else {
        lemma_order_is_total(a, b, n - 1);
        if a.take(n - 1) == b.take(n - 1) {
            lemma_total_rank_injective(a[n - 1], b[n - 1]);
            if a[n - 1] == b[n - 1] {
                assert(a.take(n) =~= a.take(n - 1).push(a[n - 1]));
                assert(b.take(n) =~= b.take(n - 1).push(b[n - 1]));
            } else if a[n - 1].total_rank() > b[n - 1].total_rank() {
                assert(comes_after(a, b));
            } else {
                assert(comes_after(b, a));
            }
        }
    }
}

proof fn lemma_order_is_antisymmetric(a: Seq<Single>, b: Seq<Single>)
    requires
        comes_after(a, b),
    ensures
        !comes_after(b, a),
{
    let i = choose|i: int|
        0 <= i < a.len() && i < b.len() && (#[trigger] a[i]).total_rank() > b[i].total_rank()
            && a.take(i) == b.take(i);
    assert forall|j: int|
        0 <= j < b.len() && j < a.len() && (#[trigger] b[j]).total_rank()
            > a[j].total_rank() implies b.take(j) != a.take(j) by {
        if j < i {
            assert(a.take(i)[j] == b.take(i)[j]);
        } else if j > i {
            assert(a.take(j)[i] != b.take(j)[i]);
        }
    }
}

/// Merging does not depend on the order of two embeddings, also where they cancel
/// each other, if addition does not depend on the order. Only where neither has
/// the right dimension and they have different ones, the two orders are refused
/// for different reasons.
pub proof fn vector_merge_commutes(
    m: Arithmetic,
    va: Seq<Single>,
    trust_a: Single,
    vb: Seq<Single>,
    trust_b: Single,
)
    requires
        va.len() == VECTOR_DIM || vb.len() == VECTOR_DIM || va.len() == vb.len(),
        forall|x: Single, y: Single| fpu::sum(m, x, y) == fpu::sum(m, y, x),
    ensures
        blend(m, va, trust_a, vb, trust_b) == blend(m, vb, trust_b, va, trust_a),
{
    if va.len() == VECTOR_DIM && vb.len() == VECTOR_DIM {
        let weight_a = sane_trust(trust_a);
        let weight_b = sane_trust(trust_b);
        assert(weighted_sum(m, va, weight_a, vb, weight_b) =~= weighted_sum(
            m,
            vb,
            weight_b,
            va,
            weight_a,
        ));
        lemma_order_is_total(va, vb, va.len() as int);
        assert(va.take(va.len() as int) =~= va);
        assert(vb.take(vb.len() as int) =~= vb);
        if comes_after(va, vb) {
            lemma_order_is_antisymmetric(va, vb);
        }
    }
}

/// Merging embeddings succeeds exactly where both have the right dimension, their
/// weighted sum is finite, and what they become can be scaled. It has unit length
/// then, in any arithmetic that scales to it.
pub proof fn vector_merge_succeeds(
    m: Arithmetic,
    va: Seq<Single>,
    trust_a: Single,
    vb: Seq<Single>,
    trust_b: Single,
)
    ensures
        blend(m, va, trust_a, vb, trust_b) is Ok <==> va.len() == VECTOR_DIM && vb.len()
            == VECTOR_DIM && all_finite(
            weighted_sum(m, va, sane_trust(trust_a), vb, sane_trust(trust_b)),
        ) && !vector::degenerate(
            numeric::length(m, blended(m, va, trust_a, vb, trust_b)),
        ),
        blend(m, va, trust_a, vb, trust_b) matches Ok(unit) ==> unit.len() == VECTOR_DIM && (
        vector::scales_to_one(m) ==> !vector::off_unit(m, numeric::length(m, unit))),
{
    vector::embeddings_have_unit_length(m, blended(m, va, trust_a, vb, trust_b));
}

/// Trust that is negative or no finite number counts as none.
pub proof fn insane_trust_does_not_count(
    m: Arithmetic,
    va: Seq<Single>,
    trust_a: Single,
    vb: Seq<Single>,
    trust_b: Single,
)
    requires
        !trust_a.finite() || trust_a.below(Single { bits: 0 }),
    ensures
        blend(m, va, trust_a, vb, trust_b) == blend(m, va, Single { bits: 0 }, vb, trust_b),
        blend(m, vb, trust_b, va, trust_a) == blend(m, vb, trust_b, va, Single { bits: 0 }),
{
}

/// Whether a trust score is worth at most one as a weight.
pub open spec fn at_most_one(trust: Single) -> bool {
    sane_trust(trust).at_most(Single { bits: SINGLE_ONE })
}

proof fn lemma_weight(trust: Single)
    requires
        at_most_one(trust),
    ensures
        sane_trust(trust).finite(),
        0 as real <= rounding::value(sane_trust(trust)) <= 1 as real,
{
    let weight = sane_trust(trust);
    rounding::lemma_constants();
    rounding::lemma_values_are_ordered(Single { bits: 0 }, weight);
    rounding::lemma_values_are_ordered(weight, Single { bits: SINGLE_ONE });
}

/// The weighted sum of two vectors of unit length is finite and not large.
proof fn lemma_weighted_sum(
    m: Arithmetic,
    va: Seq<Single>,
    trust_a: Single,
    vb: Seq<Single>,
    trust_b: Single,
)
    requires
        rounding::rounds(m),
        rounding::nearly_unit(va, 3 as real / 10000 as real),
        rounding::nearly_unit(vb, 3 as real / 10000 as real),
        at_most_one(trust_a),
        at_most_one(trust_b),
    ensures
        ({
            let raw = weighted_sum(m, va, sane_trust(trust_a), vb, sane_trust(trust_b));
            &&& all_finite(raw)
            &&& rounding::squares(raw) <= 1000000 as real
        }),
{
    let (weight_a, weight_b) = (sane_trust(trust_a), sane_trust(trust_b));
    let raw = weighted_sum(m, va, weight_a, vb, weight_b);
    lemma_weight(trust_a);
    lemma_weight(trust_b);
    rounding::lemma_unit_components(va, 3 as real / 10000 as real);
    rounding::lemma_unit_components(vb, 3 as real / 10000 as real);
    assert forall|i: int| 0 <= i < raw.len() implies (#[trigger] raw[i]).finite()
        && rounding::size(rounding::value(raw[i])) <= 7 as real by {
        assert(va[i].finite() && vb[i].finite());
        assert(rounding::size(rounding::value(va[i])) <= 3 as real);
        assert(rounding::size(rounding::value(vb[i])) <= 3 as real);
        rounding::lemma_light(rounding::value(weight_a), rounding::value(va[i]), 3 as real);
        rounding::lemma_light(rounding::value(weight_b), rounding::value(vb[i]), 3 as real);
        rounding::lemma_weighted_component(m, weight_a, va[i], weight_b, vb[i]);
    }
    rounding::lemma_bounded_squares(raw, 7 as real);
    assert(raw.len() as real == 1536 as real);
    assert((7 as real) * (7 as real) == 49 as real);
}

/// In any arithmetic that rounds, embeddings of unit length merge, whatever trust they
/// are given, as long as it is worth at most one: to an embedding whose length is one
/// but for less than `1e-4`, and to the same one in either order.
pub proof fn unit_vectors_merge(
    m: Arithmetic,
    va: Seq<Single>,
    trust_a: Single,
    vb: Seq<Single>,
    trust_b: Single,
)
    requires
        rounding::rounds(m),
        va.len() == VECTOR_DIM && !vector::off_unit(m, numeric::length(m, va)),
        vb.len() == VECTOR_DIM && !vector::off_unit(m, numeric::length(m, vb)),
        at_most_one(trust_a),
        at_most_one(trust_b),
    ensures
        blend(m, va, trust_a, vb, trust_b) matches Ok(unit) && unit.len() == VECTOR_DIM
            && rounding::unit_length(m, unit),
        blend(m, va, trust_a, vb, trust_b) == blend(m, vb, trust_b, va, trust_a),
{
    rounding::lemma_taken_for_unit(m, va);
    rounding::lemma_taken_for_unit(m, vb);
    lemma_weighted_sum(m, va, trust_a, vb, trust_b);
    let raw = weighted_sum(m, va, sane_trust(trust_a), vb, sane_trust(trust_b));
    rounding::lemma_finite_length(m, raw);
    rounding::embeddings_are_well_scaled(m, blended(m, va, trust_a, vb, trust_b));
    vector_merge_commutes(m, va, trust_a, vb, trust_b);
}

/// How far an embedding may move that is scaled anew: `1e-4` where it was scaled before,
/// and `2e-4` where it was only taken for one of unit length.
pub open spec fn play(unit: Seq<Single>) -> real {
    if rounding::well_scaled(unit) {
        1 as real / 10000 as real
    } else {
        2 as real / 10000 as real
    }
}

/// What is weighted by one number and scaled again comes back.
proof fn lemma_stays(m: Arithmetic, raw: Seq<Single>, unit: Seq<Single>, w: real)
    requires
        rounding::rounds(m),
        unit.len() == VECTOR_DIM && !vector::off_unit(m, numeric::length(m, unit)),
        rounding::weighted(raw, unit, w),
        99 as real / 100000 as real <= w <= 201 as real / 100 as real,
    ensures
        !vector::degenerate(numeric::length(m, raw)),
        rounding::close(
            vector::scaled_down(m, raw, numeric::length(m, raw)),
            unit,
            play(unit),
        ),
{
    if rounding::well_scaled(unit) {
        rounding::lemma_comes_back(m, raw, unit, w, rounding::margin());
    } else {
        rounding::lemma_taken_for_unit(m, unit);
        rounding::lemma_comes_back(m, raw, unit, w, 3 as real / 10000 as real);
    }
}

/// In any arithmetic that rounds, the embedding that alone is trusted stays, but for
/// `1e-4` in each component where it was scaled before: its trust is worth at least
/// `1e-3` and at most one, and that of the other one is negative, zero, or no finite
/// number. It does not matter which comes first.
pub proof fn the_trusted_vector_stays_close(
    m: Arithmetic,
    va: Seq<Single>,
    trust_a: Single,
    vb: Seq<Single>,
    trust_b: Single,
)
    requires
        rounding::rounds(m),
        va.len() == VECTOR_DIM && !vector::off_unit(m, numeric::length(m, va)),
        vb.len() == VECTOR_DIM && !vector::off_unit(m, numeric::length(m, vb)),
        !trust_a.finite() || trust_a.at_most(Single { bits: 0 }),
        trust_b.finite() && 1 as real / 1000 as real <= rounding::value(trust_b) <= 1 as real,
    ensures
        blend(m, va, trust_a, vb, trust_b) matches Ok(unit) && rounding::close(unit, vb, play(vb)),
        blend(m, vb, trust_b, va, trust_a) == blend(m, va, trust_a, vb, trust_b),
{
    rounding::lemma_constants();
    let zero = Single { bits: 0 };
    let one = Single { bits: SINGLE_ONE };
    rounding::lemma_values_are_ordered(zero, trust_b);
    rounding::lemma_values_are_ordered(trust_b, one);
    let (weight_a, weight_b) = (sane_trust(trust_a), sane_trust(trust_b));
    assert(weight_b == trust_b);
    assert(rounding::value(weight_a) == 0 as real) by {
        rounding::lemma_values_are_ordered(weight_a, zero);
        rounding::lemma_values_are_ordered(zero, weight_a);
    }
    assert(at_most_one(trust_a) && at_most_one(trust_b));
    unit_vectors_merge(m, va, trust_a, vb, trust_b);
    rounding::lemma_taken_for_unit(m, va);
    rounding::lemma_taken_for_unit(m, vb);
    rounding::lemma_unit_components(va, 3 as real / 10000 as real);
    rounding::lemma_unit_components(vb, 3 as real / 10000 as real);
    let raw = weighted_sum(m, va, weight_a, vb, weight_b);
    let w = rounding::value(weight_b);
    assert(rounding::weighted(raw, vb, w)) by {
        assert forall|i: int| 0 <= i < raw.len() implies (#[trigger] raw[i]).finite()
            && rounding::size(rounding::value(raw[i]) - w * rounding::value(vb[i])) <= 3 as real
            * rounding::slip() * rounding::size(w * rounding::value(vb[i])) + 4 as real
            * rounding::speck() by {
            assert(va[i].finite() && vb[i].finite());
            assert(rounding::size(rounding::value(va[i])) <= 3 as real);
            assert(rounding::size(rounding::value(vb[i])) <= 3 as real);
            rounding::lemma_light(rounding::value(weight_a), rounding::value(va[i]), 3 as real);
            rounding::lemma_light(w, rounding::value(vb[i]), 3 as real);
            let x = rounding::value(va[i]);
            let nothing = rounding::value(weight_a) * x;
            assert(nothing == 0 as real) by (nonlinear_arith)
                requires
                    nothing == rounding::value(weight_a) * x,
                    rounding::value(weight_a) == 0 as real,
            ;
            rounding::lemma_weighted_component(m, weight_a, va[i], weight_b, vb[i]);
        }
    }
    lemma_stays(m, raw, vb, w);
}

/// Whether an embedding, made longer, is the sum of two others, each times its own weight,
/// but for so much in each component.
pub open spec fn spans(
    va: Seq<Single>,
    weight_a: real,
    vb: Seq<Single>,
    weight_b: real,
    unit: Seq<Single>,
    norm: real,
    within: real,
) -> bool {
    &&& norm > 0 as real
    &&& unit.len() == va.len() && unit.len() == vb.len()
    &&& forall|i: int|
        0 <= i < unit.len() ==> rounding::size(
            rounding::value(#[trigger] unit[i]) * norm - (weight_a * rounding::value(va[i])
                + weight_b * rounding::value(vb[i])),
        ) <= within
}

/// Whether two embeddings do not cancel each other when each counts by its weight: the sum
/// has a component of at least this size.
pub open spec fn adds_to_something(
    va: Seq<Single>,
    weight_a: real,
    vb: Seq<Single>,
    weight_b: real,
    least: real,
) -> bool {
    exists|i: int|
        0 <= i < va.len() && 0 <= i < vb.len() && rounding::size(
            weight_a * rounding::value(#[trigger] va[i]) + weight_b * rounding::value(vb[i]),
        ) >= least
}

/// Whether an embedding is what two others become together, each counting by its own
/// weight: it points where their weighted sum does, or where they cancel each other it
/// is the one that counts no less.
pub open spec fn mixes(
    va: Seq<Single>,
    weight_a: real,
    vb: Seq<Single>,
    weight_b: real,
    unit: Seq<Single>,
    within: real,
    least: real,
) -> bool {
    &&& adds_to_something(va, weight_a, vb, weight_b, least) ==> exists|norm: real| #[trigger]
        spans(va, weight_a, vb, weight_b, unit, norm, within)
    &&& {
        ||| exists|norm: real| #[trigger]
            spans(va, weight_a, vb, weight_b, unit, norm, within)
        ||| weight_a <= weight_b + within && rounding::close(unit, vb, play(vb))
        ||| weight_b <= weight_a + within && rounding::close(unit, va, play(va))
    }
}

/// One component of a weighted sum.
proof fn lemma_mixed_component(
    m: Arithmetic,
    weight_a: Single,
    xa: Single,
    weight_b: Single,
    xb: Single,
)
    requires
        rounding::rounds(m),
        weight_a.finite() && xa.finite() && weight_b.finite() && xb.finite(),
        0 as real <= rounding::value(weight_a) <= 3 as real / 2 as real,
        0 as real <= rounding::value(weight_b) <= 3 as real / 2 as real,
        rounding::size(rounding::value(xa)) <= 10002 as real / 10000 as real,
        rounding::size(rounding::value(xb)) <= 10002 as real / 10000 as real,
    ensures
        ({
            let a = rounding::value(weight_a) * rounding::value(xa);
            let b = rounding::value(weight_b) * rounding::value(xb);
            let s = fpu::sum(m, fpu::product(m, weight_a, xa), fpu::product(m, weight_b, xb));
            &&& s.finite()
            &&& rounding::size(rounding::value(s) - (a + b)) <= 6 as real / 10000000 as real
            &&& rounding::size(rounding::value(s)) <= 7 as real
            &&& rounding::slip() * rounding::size(rounding::value(s)) <= 2 as real
                / 10000000 as real
        }),
{
    rounding::lemma_extremes();
    let (w, x) = (rounding::value(weight_a), rounding::value(xa));
    let (y, z) = (rounding::value(weight_b), rounding::value(xb));
    assert(-(151 as real / 100 as real) <= w * x <= 151 as real / 100 as real) by (nonlinear_arith)
        requires
            0 as real <= w <= 3 as real / 2 as real,
            -(10002 as real / 10000 as real) <= x <= 10002 as real / 10000 as real,
    ;
    assert(-(151 as real / 100 as real) <= y * z <= 151 as real / 100 as real) by (nonlinear_arith)
        requires
            0 as real <= y <= 3 as real / 2 as real,
            -(10002 as real / 10000 as real) <= z <= 10002 as real / 10000 as real,
    ;
    rounding::lemma_weighted_component(m, weight_a, xa, weight_b, xb);
    let u = rounding::slip();
    let c = rounding::size(w * x) + rounding::size(y * z);
    assert(3 as real * u * c <= 55 as real / 100000000 as real) by (nonlinear_arith)
        requires
            u == 1 as real / 16777216 as real,
            0 as real <= c <= 302 as real / 100 as real,
    ;
    let s = fpu::sum(m, fpu::product(m, weight_a, xa), fpu::product(m, weight_b, xb));
    let v = rounding::size(rounding::value(s));
    assert(v <= 303 as real / 100 as real);
    assert(u * v <= 2 as real / 10000000 as real) by (nonlinear_arith)
        requires
            u == 1 as real / 16777216 as real,
            0 as real <= v <= 303 as real / 100 as real,
    ;
}

/// Each embedding counts by its own trust when two are merged, in any arithmetic that
/// rounds: the merged one points where the sum of both does, each times its trust, but for
/// `1e-6` in each component. Where they cancel each other, the one with more trust stays.
pub proof fn embeddings_mix_by_trust(
    m: Arithmetic,
    va: Seq<Single>,
    trust_a: Single,
    vb: Seq<Single>,
    trust_b: Single,
)
    requires
        rounding::rounds(m),
        va.len() == VECTOR_DIM && !vector::off_unit(m, numeric::length(m, va)),
        vb.len() == VECTOR_DIM && !vector::off_unit(m, numeric::length(m, vb)),
        trust_a.finite() && 0 as real <= rounding::value(trust_a) <= 3 as real / 2 as real,
        trust_b.finite() && 0 as real <= rounding::value(trust_b) <= 3 as real / 2 as real,
    ensures
        blend(m, va, trust_a, vb, trust_b) matches Ok(unit) && mixes(
            va,
            rounding::value(trust_a),
            vb,
            rounding::value(trust_b),
            unit,
            1 as real / 1000000 as real,
            1 as real / 100000 as real,
        ),
{
    rounding::lemma_constants();
    rounding::lemma_extremes();
    let (weight_a, weight_b) = (sane_trust(trust_a), sane_trust(trust_b));
    let zero = Single { bits: 0 };
    rounding::lemma_values_are_ordered(trust_a, zero);
    rounding::lemma_values_are_ordered(trust_b, zero);
    rounding::lemma_values_are_ordered(weight_a, weight_b);
    rounding::lemma_values_are_ordered(weight_b, weight_a);
    let (ta, tb) = (rounding::value(trust_a), rounding::value(trust_b));
    assert(rounding::value(weight_a) == ta && rounding::value(weight_b) == tb);
    assert(weight_a.finite() && weight_b.finite());
    rounding::lemma_taken_for_unit(m, va);
    rounding::lemma_taken_for_unit(m, vb);
    rounding::lemma_unit_components(va, 3 as real / 10000 as real);
    rounding::lemma_unit_components(vb, 3 as real / 10000 as real);
    let raw = weighted_sum(m, va, weight_a, vb, weight_b);
    assert forall|i: int| 0 <= i < raw.len() implies (#[trigger] raw[i]).finite()
        && rounding::size(rounding::value(raw[i])) <= 7 as real && rounding::size(
        rounding::value(raw[i]) - (ta * rounding::value(va[i]) + tb * rounding::value(vb[i])),
    ) <= 6 as real / 10000000 as real && rounding::slip() * rounding::size(rounding::value(raw[i]))
        <= 2 as real / 10000000 as real by {
        assert(va[i].finite() && vb[i].finite());
        assert(rounding::size(rounding::value(va[i])) <= 10002 as real / 10000 as real);
        assert(rounding::size(rounding::value(vb[i])) <= 10002 as real / 10000 as real);
        lemma_mixed_component(m, weight_a, va[i], weight_b, vb[i]);
    }
    assert(all_finite(raw));
    rounding::lemma_bounded_squares(raw, 7 as real);
    assert(raw.len() as real == 1536 as real);
    assert((7 as real) * (7 as real) == 49 as real);
    rounding::lemma_finite_length(m, raw);
    let within = 1 as real / 1000000 as real;
    if adds_to_something(va, ta, vb, tb, 1 as real / 100000 as real) {
        let k = choose|i: int|
            0 <= i < va.len() && 0 <= i < vb.len() && rounding::size(
                ta * rounding::value(#[trigger] va[i]) + tb * rounding::value(vb[i]),
            ) >= 1 as real / 100000 as real;
        assert(raw[k].finite());
        rounding::lemma_can_be_scaled(m, raw, k);
    }
    if !vector::vanishing(numeric::length(m, raw)) {
        rounding::lemma_stretched(m, raw);
        let unit = vector::scaled_down(m, raw, numeric::length(m, raw));
        let norm = rounding::value(numeric::length(m, raw));
        assert forall|i: int| 0 <= i < unit.len() implies rounding::size(
            rounding::value(#[trigger] unit[i]) * norm - (ta * rounding::value(va[i]) + tb
                * rounding::value(vb[i])),
        ) <= within by {
            assert(raw[i].finite());
        }
        assert(spans(va, ta, vb, tb, unit, norm, within));
    } else {
        lemma_kept(m, va);
        lemma_kept(m, vb);
    }
}

/// An embedding that is scaled again stays.
proof fn lemma_kept(m: Arithmetic, unit: Seq<Single>)
    requires
        rounding::rounds(m),
        unit.len() == VECTOR_DIM && !vector::off_unit(m, numeric::length(m, unit)),
    ensures
        vector::embedding(m, unit) matches Ok(kept) && rounding::close(kept, unit, play(unit)),
{
    rounding::lemma_extremes();
    rounding::lemma_taken_for_unit(m, unit);
    assert(rounding::weighted(unit, unit, 1 as real)) by {
        assert forall|i: int| 0 <= i < unit.len() implies (#[trigger] unit[i]).finite()
            && rounding::size(rounding::value(unit[i]) - 1 as real * rounding::value(unit[i]))
            <= 3 as real * rounding::slip() * rounding::size(1 as real * rounding::value(unit[i]))
            + 4 as real * rounding::speck() by {
            let v = rounding::value(unit[i]);
            assert(1 as real * v == v) by (nonlinear_arith);
            let c = rounding::size(v);
            assert(3 as real * rounding::slip() * c >= 0 as real) by (nonlinear_arith)
                requires
                    rounding::slip() == 1 as real / 16777216 as real,
                    c >= 0 as real,
            ;
        }
    }
    lemma_stays(m, unit, unit, 1 as real);
}

/// Of two embeddings that share nothing, the one that counts more shows more in what they
/// become together.
pub proof fn the_weightier_embedding_shows_more(
    va: Seq<Single>,
    weight_a: real,
    vb: Seq<Single>,
    weight_b: real,
    unit: Seq<Single>,
    within: real,
    least: real,
    i: int,
    j: int,
)
    requires
        adds_to_something(va, weight_a, vb, weight_b, least),
        mixes(va, weight_a, vb, weight_b, unit, within, least),
        0 <= i < unit.len(),
        0 <= j < unit.len(),
        rounding::value(va[i]) == rounding::value(vb[j]),
        rounding::value(va[j]) == 0 as real,
        rounding::value(vb[i]) == 0 as real,
        (weight_a - weight_b) * rounding::value(va[i]) > 2 as real * within,
    ensures
        rounding::value(unit[i]) > rounding::value(unit[j]),
{
    let norm = choose|norm: real| #[trigger]
        spans(va, weight_a, vb, weight_b, unit, norm, within);
    let x = rounding::value(va[i]);
    let (p, q) = (rounding::value(unit[i]), rounding::value(unit[j]));
    let (a, b) = (weight_a * x + weight_b * rounding::value(vb[i]), weight_a * rounding::value(va[j])
        + weight_b * rounding::value(vb[j]));
    assert(rounding::size(p * norm - a) <= within && rounding::size(q * norm - b) <= within);
    assert(p > q) by (nonlinear_arith)
        requires
            norm > 0 as real,
            p * norm >= a - within,
            q * norm <= b + within,
            a == weight_a * x + weight_b * 0 as real,
            b == weight_a * 0 as real + weight_b * x,
            (weight_a - weight_b) * x > 2 as real * within,
    ;
}

// ---------------------------------------------------------------------------
// Life cycle
// ---------------------------------------------------------------------------

/// The state that is further along in the life cycle.
pub open spec fn furthest(a: SemanticState, b: SemanticState) -> SemanticState {
    if orb::state_code(a) >= orb::state_code(b) {
        a
    } else {
        b
    }
}

/// The state that is further along in the life cycle.
pub fn merge_semantic_states(a: SemanticState, b: SemanticState) -> (result: SemanticState)
    ensures
        result == furthest(a, b),
{
    if a.code() >= b.code() {
        a
    } else {
        b
    }
}

/// Merging does not depend on the order or the grouping of the states, merging
/// a state with itself changes nothing, and an archived entity stays archived.
pub proof fn state_merge_is_a_join(a: SemanticState, b: SemanticState, c: SemanticState)
    ensures
        furthest(a, b) == furthest(b, a),
        furthest(furthest(a, b), c) == furthest(a, furthest(b, c)),
        furthest(a, a) == a,
        furthest(a, SemanticState::Archived) == SemanticState::Archived,
{
}

// ---------------------------------------------------------------------------
// Entities
// ---------------------------------------------------------------------------

/// The replicated state of an entity.
#[derive(Debug)]
pub struct OrbCrdtState {
    pub orb_id: u128,
    pub semantic_state: SemanticState,
    pub semantic_vector: Vec<Single>,
    pub relations: RelationOrSet,
    pub probability_field: ProbabilityField,
    pub trust: TrustLwwRegister,
    pub event_refs: EventRefGSet,
    pub permissions: Permissions,
    pub created_at: HlcTimestamp,
    pub updated_at: HlcTimestamp,
    /// The vector clock at the last local change.
    pub vector_clock: VectorClock,
}

/// What the replicated state of an entity holds.
#[verifier::ext_equal]
pub struct CrdtView {
    pub orb_id: u128,
    pub semantic_state: SemanticState,
    pub semantic_vector: Seq<Single>,
    pub relations: OrSetView,
    pub probability_field: Seq<Single>,
    pub trust: TrustLwwRegister,
    pub event_refs: Set<u128>,
    pub permissions: Permissions,
    pub created_at: HlcTimestamp,
    pub updated_at: HlcTimestamp,
    pub vector_clock: Map<Seq<char>, u64>,
}

impl View for OrbCrdtState {
    type V = CrdtView;

    open spec fn view(&self) -> CrdtView {
        CrdtView {
            orb_id: self.orb_id,
            semantic_state: self.semantic_state,
            semantic_vector: self.semantic_vector@,
            relations: self.relations@,
            probability_field: self.probability_field@,
            trust: self.trust,
            event_refs: self.event_refs@,
            permissions: self.permissions,
            created_at: self.created_at,
            updated_at: self.updated_at,
            vector_clock: self.vector_clock@,
        }
    }
}

/// The replicated state that an entity gives rise to.
pub open spec fn replica_of(
    orb: OrbView,
    hlc: HlcTimestamp,
    vector_clock: Map<Seq<char>, u64>,
) -> CrdtView {
    CrdtView {
        orb_id: orb.identity,
        semantic_state: orb.semantic_state,
        semantic_vector: orb.semantic_vector,
        relations: orset::with_relations(orb.relations, orb.updated_at),
        probability_field: orb.probability_field,
        trust: TrustLwwRegister { record: orb.trust, last_write_hlc: hlc },
        event_refs: orb.event_refs.to_set(),
        permissions: orb.permissions,
        created_at: orb.created_at,
        updated_at: orb.updated_at,
        vector_clock,
    }
}

/// Whether a replica stands for an entity: it has its state, its embedding, its belief, its
/// rights and its times, the relations written when it was last changed, the events that it
/// notes, and its trust as written at a time.
pub open spec fn stands_for(
    orb: OrbView,
    hlc: HlcTimestamp,
    vector_clock: Map<Seq<char>, u64>,
    replica: CrdtView,
) -> bool {
    &&& replica.orb_id == orb.identity
    &&& replica.semantic_state == orb.semantic_state
    &&& replica.semantic_vector == orb.semantic_vector
    &&& replica.probability_field == orb.probability_field
    &&& replica.permissions == orb.permissions
    &&& replica.created_at == orb.created_at
    &&& replica.updated_at == orb.updated_at
    &&& replica.trust.record == orb.trust
    &&& replica.trust.last_write_hlc == hlc
    &&& replica.vector_clock == vector_clock
    &&& forall|id: u128| #[trigger]
        replica.event_refs.contains(id) <==> orb.event_refs.contains(id)
    &&& orset::holds_just(replica.relations, orb.relations, orb.updated_at)
}

/// A replica stands for its entity.
pub proof fn replicas_stand_for_entities(
    orb: OrbView,
    hlc: HlcTimestamp,
    vector_clock: Map<Seq<char>, u64>,
)
    ensures
        stands_for(orb, hlc, vector_clock, replica_of(orb, hlc, vector_clock)),
{
    orset::written_relations_are_there(orb.relations, orb.updated_at);
}

/// What two replicas of an entity become together, once their embeddings have
/// been merged.
pub open spec fn combined(m: Arithmetic, a: CrdtView, b: CrdtView, unit: Seq<Single>) -> CrdtView {
    CrdtView {
        orb_id: a.orb_id,
        semantic_state: furthest(a.semantic_state, b.semantic_state),
        semantic_vector: unit,
        relations: orset::union(a.relations, b.relations),
        probability_field: belief::pooled(m, a.probability_field, b.probability_field),
        trust: last_written(a.trust, b.trust),
        event_refs: a.event_refs.union(b.event_refs),
        permissions: a.permissions.shared(b.permissions),
        created_at: a.created_at.earlier(b.created_at),
        updated_at: a.updated_at.later(b.updated_at),
        vector_clock: clock::joined(a.vector_clock, b.vector_clock),
    }
}

/// The merged embedding of two replicas, weighted by what their trust is worth
/// at the given times.
pub open spec fn merged_vector(
    m: Arithmetic,
    a: CrdtView,
    b: CrdtView,
    now_a: u64,
    now_b: u64,
) -> Result<Seq<Single>, PiriaError> {
    blend(
        m,
        a.semantic_vector,
        trust::effective(m, a.trust.record, now_a),
        b.semantic_vector,
        trust::effective(m, b.trust.record, now_b),
    )
}

/// Whether the probability fields of two replicas can be pooled.
pub open spec fn fields_fit(m: Arithmetic, a: CrdtView, b: CrdtView) -> bool {
    a.probability_field.len() == b.probability_field.len() && belief::proper_field(
        belief::pooled(m, a.probability_field, b.probability_field),
    )
}

/// Why replicas of different entities are not merged.
pub open spec fn mismatch_text(a: u128, b: u128) -> Seq<char> {
    "Cannot merge CRDT states for different ORBs: "@ + outside::id_text(a) + " vs "@
        + outside::id_text(b)
}

/// Whether a merge of two replicas, at the given times, comes out as `result`.
pub open spec fn merges_to(
    m: Arithmetic,
    a: CrdtView,
    b: CrdtView,
    now_a: u64,
    now_b: u64,
    result: Result<OrbCrdtState, PiriaError>,
) -> bool {
    if a.orb_id != b.orb_id {
        result matches Err(PiriaError::CrdtMergeConflict { orb_id, reason }) && orb_id == a.orb_id
            && reason@ == mismatch_text(a.orb_id, b.orb_id)
    } else {
        match merged_vector(m, a, b, now_a, now_b) {
            Err(reason) => result matches Err(error) && error == reason,
            Ok(unit) => if fields_fit(m, a, b) {
                result matches Ok(state) && state@ == combined(m, a, b, unit)
            } else {
                result matches Err(error) && error == (PiriaError::InvalidProbabilityField {
                    categories: b.probability_field.len() as usize,
                })
            },
        }
    }
}

impl OrbCrdtState {
    /// The replicated state of an entity.
    pub fn from_orb(orb: &Orb, hlc: HlcTimestamp, vector_clock: VectorClock) -> (state: Self)
        ensures
            state@ == replica_of(orb@, hlc, vector_clock@),
            stands_for(orb@, hlc, vector_clock@, state@),
    {
        let mut relations = RelationOrSet::new();
        let mut i: usize = 0;
        assert(orb@.relations.take(0) =~= Seq::empty());
        while i < orb.relations.len()
            invariant
                i <= orb.relations@.len(),
                relations@ == orset::with_relations(orb@.relations.take(i as int), orb.updated_at),
            decreases orb.relations@.len() - i,
        {
            assert(orb@.relations.take(i + 1).drop_last() =~= orb@.relations.take(i as int));
            relations.add(orb.relations[i], orb.updated_at);
            i += 1;
        }
        assert(orb@.relations.take(i as int) =~= orb@.relations);
        let mut event_refs = EventRefGSet::new();
        let mut i: usize = 0;
        while i < orb.event_refs.len()
            invariant
                i <= orb.event_refs@.len(),
                forall|k: u128| #[trigger]
                    event_refs@.contains(k) <==> exists|j: int|
                        0 <= j < i && orb.event_refs@[j] == k,
            decreases orb.event_refs@.len() - i,
        {
            let ghost before = event_refs@;
            event_refs.add(orb.event_refs[i]);
            assert forall|k: u128| #[trigger] event_refs@.contains(k) <==> exists|j: int|
                0 <= j < i + 1 && orb.event_refs@[j] == k by {
                if before.contains(k) {
                    let j = choose|j: int| 0 <= j < i && orb.event_refs@[j] == k;
                    assert(orb.event_refs@[j] == k);
                }
                if k == orb.event_refs@[i as int] {
                    assert(orb.event_refs@[i as int] == k);
                }
            }
            i += 1;
        }
        assert(event_refs@ =~= orb@.event_refs.to_set());
        proof {
            replicas_stand_for_entities(orb@, hlc, vector_clock@);
        }
        OrbCrdtState {
            orb_id: orb.identity,
            semantic_state: orb.semantic_state,
            semantic_vector: copy_numbers(&orb.semantic_vector.0),
            relations,
            probability_field: orb.probability_field.clone(),
            trust: TrustLwwRegister::new(orb.trust, hlc),
            event_refs,
            permissions: orb.permissions,
            created_at: orb.created_at,
            updated_at: orb.updated_at,
            vector_clock,
        }
    }

    /// Merges two replicas of the same entity. The trust of each counts as it
    /// stands at the given time.
    pub fn merge_at<F: Fn(Flop) -> u64>(
        &self,
        fpu: &Fpu<F>,
        other: &OrbCrdtState,
        now_self: u64,
        now_other: u64,
    ) -> (result: Result<OrbCrdtState, PiriaError>)
        ensures
            merges_to(fpu@, self@, other@, now_self, now_other, result),
            result matches Ok(state) ==> mixes_replicas(
                fpu@,
                self@,
                other@,
                now_self,
                now_other,
                state@,
            ) && joins_replicas(fpu@, self@, other@, state@),
    {
        if self.orb_id != other.orb_id {
            let mut reason = "Cannot merge CRDT states for different ORBs: ".to_owned();
            let own = id_to_text(self.orb_id);
            let their = id_to_text(other.orb_id);
            reason.append(own.as_str());
            reason.append(" vs ");
            reason.append(their.as_str());
            return Err(PiriaError::CrdtMergeConflict { orb_id: self.orb_id, reason });
        }
        let semantic_state = merge_semantic_states(self.semantic_state, other.semantic_state);
        let trust_a = self.trust.record.effective_score_at(fpu, now_self);
        let trust_b = other.trust.record.effective_score_at(fpu, now_other);
        let unit = match merge_semantic_vectors(
            fpu,
            self.semantic_vector.as_slice(),
            trust_a,
            other.semantic_vector.as_slice(),
            trust_b,
        ) {
            Ok(unit) => unit,
            Err(error) => {
                return Err(error);
            },
        };
        let relations = self.relations.merge(&other.relations);
        let probability_field = match self.probability_field.merge(fpu, &other.probability_field) {
            Ok(field) => field,
            Err(error) => {
                return Err(error);
            },
        };
        let state = OrbCrdtState {
            orb_id: self.orb_id,
            semantic_state,
            semantic_vector: unit.0,
            relations,
            probability_field,
            trust: self.trust.merge(&other.trust),
            event_refs: self.event_refs.merge(&other.event_refs),
            permissions: self.permissions.intersection(&other.permissions),
            created_at: self.created_at.earliest(&other.created_at),
            updated_at: self.updated_at.latest(&other.updated_at),
            vector_clock: self.vector_clock.merged_with(&other.vector_clock),
        };
        assert(state@ =~= combined(fpu@, self@, other@, unit@));
        proof {
            replicas_mix_by_their_own_trust(fpu@, self@, other@, now_self, now_other, state);
            merged_replicas_are_joined(fpu@, self@, other@, now_self, now_other, state);
        }
        Ok(state)
    }

    /// Merges two replicas of the same entity now.
    pub fn merge<F: Fn(Flop) -> u64>(&self, fpu: &Fpu<F>, other: &OrbCrdtState) -> (result: Result<
        OrbCrdtState,
        PiriaError,
    >)
        ensures
            exists|now_self: u64, now_other: u64| #[trigger]
                merges_to(fpu@, self@, other@, now_self, now_other, result) && (result matches Ok(
                    state,
                ) ==> mixes_replicas(fpu@, self@, other@, now_self, now_other, state@)
                    && joins_replicas(fpu@, self@, other@, state@)),
    {
        let now_self: u64 = now_ms();
        let now_other: u64 = now_ms();
        self.merge_at(fpu, other, now_self, now_other)
    }
}

impl Clone for OrbCrdtState {
    fn clone(&self) -> (copy: Self)
        ensures
            copy@ == self@,
    {
        OrbCrdtState {
            orb_id: self.orb_id,
            semantic_state: self.semantic_state,
            semantic_vector: copy_numbers(&self.semantic_vector),
            relations: self.relations.clone(),
            probability_field: self.probability_field.clone(),
            trust: self.trust,
            event_refs: self.event_refs.clone(),
            permissions: self.permissions,
            created_at: self.created_at,
            updated_at: self.updated_at,
            vector_clock: self.vector_clock.clone(),
        }
    }
}

/// Merging does not depend on the order of two replicas, where addition does not
/// depend on it: either both orders are refused, or both give the same state.
pub proof fn replica_merge_commutes(
    m: Arithmetic,
    a: CrdtView,
    b: CrdtView,
    now_a: u64,
    now_b: u64,
    left: Result<OrbCrdtState, PiriaError>,
    right: Result<OrbCrdtState, PiriaError>,
)
    requires
        forall|x: Single, y: Single| fpu::sum(m, x, y) == fpu::sum(m, y, x),
        merges_to(m, a, b, now_a, now_b, left),
        merges_to(m, b, a, now_b, now_a, right),
    ensures
        left is Ok <==> right is Ok,
        left is Ok ==> left->Ok_0@ == right->Ok_0@,
{
    if a.orb_id == b.orb_id && a.semantic_vector.len() == VECTOR_DIM && b.semantic_vector.len()
        == VECTOR_DIM {
        vector_merge_commutes(
            m,
            a.semantic_vector,
            trust::effective(m, a.trust.record, now_a),
            b.semantic_vector,
            trust::effective(m, b.trust.record, now_b),
        );
        if a.probability_field.len() == b.probability_field.len() {
            belief::pooling_commutes(m, a.probability_field, b.probability_field);
        }
        orset::set_merge_commutes(a.relations, b.relations);
        trust_merge_commutes(a.trust, b.trust);
        crate::permissions::sharing_rights(a.permissions, b.permissions, a.permissions);
        clock::clock_merge_commutes(a.vector_clock, b.vector_clock);
        assert(a.event_refs.union(b.event_refs) =~= b.event_refs.union(a.event_refs));
    }
}

/// What a record of trust is worth at a time: it fades by a thousandth of itself a day, and
/// not below a hundredth.
pub open spec fn faded(e: spec_fn(real) -> real, record: TrustRecord, now: u64) -> real {
    let ms: int = if now >= record.last_updated_ms {
        now - record.last_updated_ms
    } else {
        0
    };
    rounding::most(
        rounding::value(record.score) * e(-(ms as real / 86400000 as real) / 1000 as real),
        1 as real / 100 as real,
    )
}

/// Whether a merged replica has the embedding of two others, each counting by what its own
/// trust is worth at its own time, but for rounding.
pub open spec fn mixes_replicas(
    m: Arithmetic,
    a: CrdtView,
    b: CrdtView,
    now_a: u64,
    now_b: u64,
    merged: CrdtView,
) -> bool {
    forall|e: spec_fn(real) -> real|
        rounding::rounds(m) && doubles::rounds_wide(m) && #[trigger] doubles::exponentiates(m, e)
            && a.semantic_vector.len() == VECTOR_DIM && !vector::off_unit(
            m,
            numeric::length(m, a.semantic_vector),
        ) && b.semantic_vector.len() == VECTOR_DIM && !vector::off_unit(
            m,
            numeric::length(m, b.semantic_vector),
        ) && a.trust.record.score.in_unit() && b.trust.record.score.in_unit() ==> mixes(
            a.semantic_vector,
            faded(e, a.trust.record, now_a),
            b.semantic_vector,
            faded(e, b.trust.record, now_b),
            merged.semantic_vector,
            2 as real / 10000 as real,
            1 as real / 1000 as real,
        )
}

/// A weight that is off by a little moves a sum by a little.
proof fn lemma_nudged(x: real, y: real, w: real, v: real, s: real, t: real)
    requires
        rounding::size(x) <= 10002 as real / 10000 as real,
        rounding::size(y) <= 10002 as real / 10000 as real,
        rounding::size(w - v) <= 6 as real / 100000 as real,
        rounding::size(s - t) <= 6 as real / 100000 as real,
    ensures
        rounding::size((w * x + s * y) - (v * x + t * y)) <= 13 as real / 100000 as real,
{
    let (d, e) = (w - v, s - t);
    assert(w * x - v * x == d * x && s * y - t * y == e * y) by (nonlinear_arith)
        requires
            d == w - v,
            e == s - t,
    ;
    assert(-(65 as real / 1000000 as real) <= d * x <= 65 as real / 1000000 as real) by (
        nonlinear_arith)
        requires
            -(6 as real / 100000 as real) <= d <= 6 as real / 100000 as real,
            -(10002 as real / 10000 as real) <= x <= 10002 as real / 10000 as real,
    ;
    assert(-(65 as real / 1000000 as real) <= e * y <= 65 as real / 1000000 as real) by (
        nonlinear_arith)
        requires
            -(6 as real / 100000 as real) <= e <= 6 as real / 100000 as real,
            -(10002 as real / 10000 as real) <= y <= 10002 as real / 10000 as real,
    ;
}

/// What mixes by weights that are off by a little mixes by the right ones too, but for a
/// little more.
proof fn lemma_mixes_nearly(
    va: Seq<Single>,
    w: real,
    v: real,
    vb: Seq<Single>,
    s: real,
    t: real,
    unit: Seq<Single>,
)
    requires
        va.len() == unit.len() && vb.len() == unit.len(),
        forall|i: int|
            0 <= i < va.len() ==> rounding::size(rounding::value(#[trigger] va[i])) <= 10002 as real
                / 10000 as real,
        forall|i: int|
            0 <= i < vb.len() ==> rounding::size(rounding::value(#[trigger] vb[i])) <= 10002 as real
                / 10000 as real,
        rounding::size(w - v) <= 6 as real / 100000 as real,
        rounding::size(s - t) <= 6 as real / 100000 as real,
        mixes(va, w, vb, s, unit, 1 as real / 1000000 as real, 1 as real / 100000 as real),
    ensures
        mixes(va, v, vb, t, unit, 2 as real / 10000 as real, 1 as real / 1000 as real),
{
    let near = 1 as real / 1000000 as real;
    let far = 2 as real / 10000 as real;
    if adds_to_something(va, v, vb, t, 1 as real / 1000 as real) {
        let k = choose|i: int|
            0 <= i < va.len() && 0 <= i < vb.len() && rounding::size(
                v * rounding::value(#[trigger] va[i]) + t * rounding::value(vb[i]),
            ) >= 1 as real / 1000 as real;
        assert(rounding::size(rounding::value(va[k])) <= 10002 as real / 10000 as real);
        assert(rounding::size(rounding::value(vb[k])) <= 10002 as real / 10000 as real);
        lemma_nudged(rounding::value(va[k]), rounding::value(vb[k]), w, v, s, t);
        assert(adds_to_something(va, w, vb, s, 1 as real / 100000 as real));
    }
    if exists|norm: real| #[trigger] spans(va, w, vb, s, unit, norm, near) {
        let norm = choose|norm: real| #[trigger] spans(va, w, vb, s, unit, norm, near);
        assert forall|i: int| 0 <= i < unit.len() implies rounding::size(
            rounding::value(#[trigger] unit[i]) * norm - (v * rounding::value(va[i]) + t
                * rounding::value(vb[i])),
        ) <= far by {
            assert(rounding::size(rounding::value(va[i])) <= 10002 as real / 10000 as real);
            assert(rounding::size(rounding::value(vb[i])) <= 10002 as real / 10000 as real);
            lemma_nudged(rounding::value(va[i]), rounding::value(vb[i]), w, v, s, t);
        }
        assert(spans(va, v, vb, t, unit, norm, far));
    }
}

/// Each replica brings its embedding into a merge by what its own trust is worth.
pub proof fn replicas_mix_by_their_own_trust(
    m: Arithmetic,
    a: CrdtView,
    b: CrdtView,
    now_a: u64,
    now_b: u64,
    state: OrbCrdtState,
)
    requires
        merges_to(m, a, b, now_a, now_b, Ok(state)),
    ensures
        mixes_replicas(m, a, b, now_a, now_b, state@),
{
    let (va, vb) = (a.semantic_vector, b.semantic_vector);
    assert forall|e: spec_fn(real) -> real|
        rounding::rounds(m) && doubles::rounds_wide(m) && #[trigger] doubles::exponentiates(m, e)
            && va.len() == VECTOR_DIM && !vector::off_unit(m, numeric::length(m, va)) && vb.len()
            == VECTOR_DIM && !vector::off_unit(m, numeric::length(m, vb))
            && a.trust.record.score.in_unit() && b.trust.record.score.in_unit() implies mixes(
        va,
        faded(e, a.trust.record, now_a),
        vb,
        faded(e, b.trust.record, now_b),
        state@.semantic_vector,
        2 as real / 10000 as real,
        1 as real / 1000 as real,
    ) by {
        let (ra, rb) = (a.trust.record, b.trust.record);
        let ta = trust::effective(m, ra, now_a);
        let tb = trust::effective(m, rb, now_b);
        lemma_faded(m, e, ra, now_a);
        lemma_faded(m, e, rb, now_b);
        embeddings_mix_by_trust(m, va, ta, vb, tb);
        rounding::lemma_taken_for_unit(m, va);
        rounding::lemma_taken_for_unit(m, vb);
        rounding::lemma_unit_components(va, 3 as real / 10000 as real);
        rounding::lemma_unit_components(vb, 3 as real / 10000 as real);
        let (w, s) = (rounding::value(ta), rounding::value(tb));
        let (v, t) = (faded(e, ra, now_a), faded(e, rb, now_b));
        let unit = state@.semantic_vector;
        lemma_mixes_nearly(va, w, v, vb, s, t, unit);
    }
}

/// What a record is worth lies close to what it fades to.
proof fn lemma_faded(m: Arithmetic, e: spec_fn(real) -> real, record: TrustRecord, now: u64)
    requires
        rounding::rounds(m),
        doubles::rounds_wide(m),
        doubles::exponentiates(m, e),
        record.score.in_unit(),
    ensures
        trust::effective(m, record, now).finite(),
        rounding::size(rounding::value(trust::effective(m, record, now)) - faded(e, record, now))
            <= 6 as real / 100000 as real,
        0 as real <= rounding::value(trust::effective(m, record, now)) <= 3 as real / 2 as real,
        0 as real <= faded(e, record, now) <= 1 as real,
{
    rounding::lemma_constants();
    rounding::lemma_values_are_ordered(Single { bits: 0 }, record.score);
    rounding::lemma_values_are_ordered(record.score, Single { bits: SINGLE_ONE });
    trust::trust_fades(m, record, now);
    assert(trust::worth(m, record, now, trust::effective(m, record, now)));
    let ms: int = if now >= record.last_updated_ms {
        now - record.last_updated_ms
    } else {
        0
    };
    let z = -(ms as real / 86400000 as real) / 1000 as real;
    assert(ms as real >= 0 as real);
    assert(z <= 0 as real);
    assert(e(z) <= e(0 as real));
    let (x, y) = (rounding::value(record.score), e(z));
    assert(0 as real <= x * y <= 1 as real) by (nonlinear_arith)
        requires
            0 as real <= x <= 1 as real,
            0 as real <= y <= 1 as real,
    ;
}

/// How far a state is along the life cycle.
pub open spec fn stage(state: SemanticState) -> int {
    match state {
        SemanticState::Active => 0,
        SemanticState::Dormant => 1,
        SemanticState::Compressed => 2,
        SemanticState::Archived => 3,
    }
}

/// Whether one time comes no later than another: an earlier millisecond, or the same one
/// and no higher count.
pub open spec fn no_later(a: HlcTimestamp, b: HlcTimestamp) -> bool {
    a.physical_ms < b.physical_ms || (a.physical_ms == b.physical_ms && a.logical <= b.logical)
}

/// Whether a replica is what two others become together in all but the embedding. It was
/// created when the older one was, changed when the one changed last was, and is as far
/// along as the one that is further. It has the rights that both have, the events that
/// either has, the higher counter of every node, and the trust that was written last. Its
/// concentrations are the sums of theirs but for rounding.
pub open spec fn joins_replicas(m: Arithmetic, a: CrdtView, b: CrdtView, merged: CrdtView) -> bool {
    &&& merged.orb_id == a.orb_id && merged.orb_id == b.orb_id
    &&& merged.created_at == a.created_at || merged.created_at == b.created_at
    &&& no_later(merged.created_at, a.created_at) && no_later(merged.created_at, b.created_at)
    &&& merged.updated_at == a.updated_at || merged.updated_at == b.updated_at
    &&& no_later(a.updated_at, merged.updated_at) && no_later(b.updated_at, merged.updated_at)
    &&& merged.semantic_state == a.semantic_state || merged.semantic_state == b.semantic_state
    &&& stage(a.semantic_state) <= stage(merged.semantic_state)
    &&& stage(b.semantic_state) <= stage(merged.semantic_state)
    &&& merged.permissions.bits == a.permissions.bits & b.permissions.bits
    &&& forall|id: u128| #[trigger]
        merged.event_refs.contains(id) <==> a.event_refs.contains(id) || b.event_refs.contains(id)
    &&& forall|node: Seq<char>|
        #![trigger merged.vector_clock.contains_key(node)]
        (merged.vector_clock.contains_key(node) <==> a.vector_clock.contains_key(node)
            || b.vector_clock.contains_key(node)) && (a.vector_clock.contains_key(node)
            ==> a.vector_clock[node] <= merged.vector_clock[node]) && (
        b.vector_clock.contains_key(node) ==> b.vector_clock[node] <= merged.vector_clock[node])
            && (merged.vector_clock.contains_key(node) ==> (a.vector_clock.contains_key(node)
            && merged.vector_clock[node] == a.vector_clock[node]) || (
        b.vector_clock.contains_key(node) && merged.vector_clock[node] == b.vector_clock[node]))
    &&& no_later(a.trust.last_write_hlc, merged.trust.last_write_hlc) && no_later(
        b.trust.last_write_hlc,
        merged.trust.last_write_hlc,
    )
    &&& comes_from(merged.trust, a.trust) || comes_from(merged.trust, b.trust)
    &&& merged.probability_field.len() == a.probability_field.len()
        && merged.probability_field.len() == b.probability_field.len()
    &&& rounding::rounds(m) ==> forall|i: int|
        0 <= i < merged.probability_field.len() && a.probability_field[i].finite()
            && b.probability_field[i].finite() && (#[trigger] merged.probability_field[i]).finite()
            ==> {
            let exact = rounding::value(a.probability_field[i]) + rounding::value(
                b.probability_field[i],
            );
            rounding::size(rounding::value(merged.probability_field[i]) - exact)
                <= rounding::slip() * rounding::size(exact)
        }
}

/// Whether a register is another one, with its score raised to the floor where it was
/// below.
pub open spec fn comes_from(merged: TrustLwwRegister, source: TrustLwwRegister) -> bool {
    &&& merged.last_write_hlc == source.last_write_hlc
    &&& merged.record == (TrustRecord { score: merged.record.score, ..source.record })
    &&& (Single { bits: TRUST_FLOOR }).at_most(source.record.score) ==> merged.record.score
        == source.record.score
    &&& source.record.score.below(Single { bits: TRUST_FLOOR }) ==> merged.record.score == (Single {
        bits: TRUST_FLOOR,
    })
}

/// Replicas are joined field by field.
pub proof fn merged_replicas_are_joined(
    m: Arithmetic,
    a: CrdtView,
    b: CrdtView,
    now_a: u64,
    now_b: u64,
    state: OrbCrdtState,
)
    requires
        merges_to(m, a, b, now_a, now_b, Ok(state)),
    ensures
        joins_replicas(m, a, b, state@),
{
}

/// Merging three replicas does not depend on the grouping in anything but the
/// embedding and the probability field, which rounding can make differ.
pub proof fn replica_merge_associates(
    m: Arithmetic,
    a: CrdtView,
    b: CrdtView,
    c: CrdtView,
    ab: Seq<Single>,
    bc: Seq<Single>,
    unit: Seq<Single>,
)
    ensures
        ({
            let left = combined(m, combined(m, a, b, ab), c, unit);
            let right = combined(m, a, combined(m, b, c, bc), unit);
            left == (CrdtView { probability_field: left.probability_field, ..right })
        }),
{
    state_merge_is_a_join(a.semantic_state, b.semantic_state, c.semantic_state);
    orset::set_merge_associates(a.relations, b.relations, c.relations);
    trust_merge_associates(a.trust, b.trust, c.trust);
    event_merge_is_a_join(a.event_refs, b.event_refs, c.event_refs);
    crate::permissions::sharing_rights(a.permissions, b.permissions, c.permissions);
    clock::clock_merge_associates(a.vector_clock, b.vector_clock, c.vector_clock);
}

/// A replica that was made of an entity, or by merging one, holds no relation that
/// was removed.
pub proof fn replicas_are_consistent(
    m: Arithmetic,
    orb: OrbView,
    hlc: HlcTimestamp,
    vector_clock: Map<Seq<char>, u64>,
    a: CrdtView,
    b: CrdtView,
    unit: Seq<Single>,
)
    requires
        orset::consistent(a.relations),
    ensures
        orset::consistent(replica_of(orb, hlc, vector_clock).relations),
        orset::consistent(combined(m, a, b, unit).relations),
{
    orset::written_sets_are_consistent(orb.relations, orb.updated_at);
    assert forall|k: u128| #[trigger]
        orset::union(a.relations, b.relations).live.contains_key(k) implies !orset::buried(
        orset::union(a.relations, b.relations).tombstones,
        k,
        orset::union(a.relations, b.relations).live[k].1,
    ) by {}
}

/// Merging a replica with itself succeeds exactly where its embedding has the
/// right dimension, stays finite when it is added to itself, and can be scaled,
/// and where its probability field stays proper when its evidence counts twice.
/// Nothing changes then but the embedding, which is scaled anew, the probability
/// field, and a trust score below the floor.
pub proof fn replica_merge_with_itself(
    m: Arithmetic,
    a: CrdtView,
    now_a: u64,
    now_b: u64,
    result: Result<OrbCrdtState, PiriaError>,
)
    requires
        orset::consistent(a.relations),
        merges_to(m, a, a, now_a, now_b, result),
    ensures
        ({
            let trust_a = trust::effective(m, a.trust.record, now_a);
            let trust_b = trust::effective(m, a.trust.record, now_b);
            let v = a.semantic_vector;
            &&& result is Ok <==> v.len() == VECTOR_DIM && all_finite(
                weighted_sum(m, v, sane_trust(trust_a), v, sane_trust(trust_b)),
            ) && !vector::degenerate(numeric::length(m, blended(m, v, trust_a, v, trust_b)))
                && fields_fit(m, a, a)
            &&& result matches Ok(state) ==> {
                &&& state@ == (CrdtView {
                    semantic_vector: state@.semantic_vector,
                    probability_field: belief::pooled(
                        m,
                        a.probability_field,
                        a.probability_field,
                    ),
                    trust: floored(a.trust),
                    ..a
                })
                &&& vector::scales_to_one(m) ==> !vector::off_unit(
                    m,
                    numeric::length(m, state@.semantic_vector),
                )
                &&& state@.semantic_vector == vector::scaled_down(
                    m,
                    blended(m, v, trust_a, v, trust_b),
                    numeric::length(m, blended(m, v, trust_a, v, trust_b)),
                )
            }
        }),
{
    let trust_a = trust::effective(m, a.trust.record, now_a);
    let trust_b = trust::effective(m, a.trust.record, now_b);
    vector_merge_succeeds(m, a.semantic_vector, trust_a, a.semantic_vector, trust_b);
    orset::set_merge_is_idempotent(a.relations);
    event_merge_is_a_join(a.event_refs, a.event_refs, a.event_refs);
    crate::permissions::sharing_rights(a.permissions, a.permissions, a.permissions);
    clock::clock_merge_is_idempotent(a.vector_clock);
}

/// In any arithmetic that rounds, merging a replica with itself succeeds and changes
/// nothing, but for the embedding, which stays within `1e-4` in each component where it
/// was scaled before, and the concentrations, which are doubled, but for one rounding.
/// What is needed is that its embedding has unit length, that its trust is not below the
/// floor and worth at most one, and that its concentrations can be doubled.
pub proof fn replica_merged_with_itself_stays_close(
    m: Arithmetic,
    a: CrdtView,
    now_a: u64,
    now_b: u64,
    result: Result<OrbCrdtState, PiriaError>,
)
    requires
        rounding::rounds(m),
        orset::consistent(a.relations),
        merges_to(m, a, a, now_a, now_b, result),
        a.semantic_vector.len() == VECTOR_DIM && !vector::off_unit(
            m,
            numeric::length(m, a.semantic_vector),
        ),
        (Single { bits: TRUST_FLOOR }).at_most(a.trust.record.score),
        trust::effective(m, a.trust.record, now_a).at_most(Single { bits: SINGLE_ONE }),
        trust::effective(m, a.trust.record, now_b).at_most(Single { bits: SINGLE_ONE }),
        belief::proper_field(a.probability_field),
        forall|i: int|
            0 <= i < a.probability_field.len() ==> 2 as real * rounding::value(
                #[trigger] a.probability_field[i],
            ) < rounding::brim(),
    ensures
        result matches Ok(state) && state@ == (CrdtView {
            semantic_vector: state@.semantic_vector,
            probability_field: state@.probability_field,
            ..a
        }) && rounding::close(
            state@.semantic_vector,
            a.semantic_vector,
            play(a.semantic_vector),
        ) && state@.probability_field.len() == a.probability_field.len() && (forall|i: int|
            0 <= i < a.probability_field.len() ==> rounding::rounded(
                #[trigger] state@.probability_field[i],
                2 as real * rounding::value(a.probability_field[i]),
                0 as real,
            )),
{
    let trust_a = trust::effective(m, a.trust.record, now_a);
    let trust_b = trust::effective(m, a.trust.record, now_b);
    let v = a.semantic_vector;
    let floor = Single { bits: TRUST_FLOOR };
    let one = Single { bits: SINGLE_ONE };
    rounding::lemma_constants();
    rounding::lemma_values_are_ordered(floor, trust_a);
    rounding::lemma_values_are_ordered(floor, trust_b);
    rounding::lemma_values_are_ordered(trust_a, one);
    rounding::lemma_values_are_ordered(trust_b, one);
    let (weight_a, weight_b) = (sane_trust(trust_a), sane_trust(trust_b));
    assert(weight_a == trust_a && weight_b == trust_b);
    let (wa, wb) = (rounding::value(weight_a), rounding::value(weight_b));
    let w = wa + wb;
    rounding::lemma_taken_for_unit(m, v);
    rounding::lemma_unit_components(v, 3 as real / 10000 as real);
    let raw = weighted_sum(m, v, weight_a, v, weight_b);
    assert(rounding::weighted(raw, v, w)) by {
        assert forall|i: int| 0 <= i < raw.len() implies (#[trigger] raw[i]).finite()
            && rounding::size(rounding::value(raw[i]) - w * rounding::value(v[i])) <= 3 as real
            * rounding::slip() * rounding::size(w * rounding::value(v[i])) + 4 as real
            * rounding::speck() by {
            assert(v[i].finite());
            let x = rounding::value(v[i]);
            assert(rounding::size(x) <= 3 as real);
            rounding::lemma_light(wa, x, 3 as real);
            rounding::lemma_light(wb, x, 3 as real);
            rounding::lemma_weighted_component(m, weight_a, v[i], weight_b, v[i]);
            assert(w * x == wa * x + wb * x) by (nonlinear_arith)
                requires
                    w == wa + wb,
            ;
            assert(x >= 0 as real ==> wa * x >= 0 as real && wb * x >= 0 as real) by (
                nonlinear_arith)
                requires
                    wa >= 0 as real,
                    wb >= 0 as real,
            ;
            assert(x <= 0 as real ==> wa * x <= 0 as real && wb * x <= 0 as real) by (
                nonlinear_arith)
                requires
                    wa >= 0 as real,
                    wb >= 0 as real,
            ;
            assert(rounding::size(w * x) == rounding::size(wa * x) + rounding::size(wb * x));
        }
    }
    lemma_stays(m, raw, v, w);
    let pooled = belief::pooled(m, a.probability_field, a.probability_field);
    assert forall|i: int| 0 <= i < pooled.len() implies belief::concentration(#[trigger] pooled[i])
        && rounding::rounded(
        pooled[i],
        2 as real * rounding::value(a.probability_field[i]),
        0 as real,
    ) by {
        let alpha = a.probability_field[i];
        assert(belief::concentration(alpha));
        let zero = Single { bits: 0 };
        rounding::lemma_values_are_ordered(zero, alpha);
        let x = rounding::value(alpha);
        assert(2 as real * x < rounding::brim());
        assert(x + x == 2 as real * x);
        assert(rounding::slip() * (2 as real * x) <= x) by (nonlinear_arith)
            requires
                rounding::slip() == 1 as real / 16777216 as real,
                x > 0 as real,
        ;
        rounding::lemma_values_are_ordered(zero, pooled[i]);
    }
    assert(belief::proper_field(pooled));
    replica_merge_with_itself(m, a, now_a, now_b, result);
    assert(floored(a.trust) == a.trust);
}

// ---------------------------------------------------------------------------
// Partitions
// ---------------------------------------------------------------------------

/// Brings two partitions back together.
pub struct PartitionMergeCoordinator;

/// What came of bringing two partitions together.
pub struct PartitionHealResult {
    /// The states that both sides agree on now.
    pub merged: Vec<OrbCrdtState>,
    /// The entities that could not be merged, and why.
    pub conflicts: Vec<(u128, PiriaError)>,
}

/// The position of the last state of an entity in a partition, or none.
pub open spec fn newest(partition: Seq<OrbCrdtState>, id: u128) -> Option<int>
    decreases partition.len(),
{
    if partition.len() == 0 {
        None
    } else if partition.last().orb_id == id {
        Some(partition.len() - 1)
    } else {
        newest(partition.drop_last(), id)
    }
}

/// Whether a state is what its entity has to become: the merged one where both
/// partitions hold the entity, otherwise the one that there is.
pub open spec fn settled(
    m: Arithmetic,
    a: Seq<OrbCrdtState>,
    b: Seq<OrbCrdtState>,
    state: OrbCrdtState,
) -> bool {
    match (newest(a, state.orb_id), newest(b, state.orb_id)) {
        (Some(i), Some(j)) => exists|now_a: u64, now_b: u64| #[trigger]
            merges_to(m, a[i]@, b[j]@, now_a, now_b, Ok(state)),
        (Some(i), None) => state@ == a[i]@,
        (None, Some(j)) => state@ == b[j]@,
        (None, None) => false,
    }
}

/// Whether an entity is in both partitions and its merge fails in the way that
/// was noted.
pub open spec fn disputed(
    m: Arithmetic,
    a: Seq<OrbCrdtState>,
    b: Seq<OrbCrdtState>,
    conflict: (u128, PiriaError),
) -> bool {
    match (newest(a, conflict.0), newest(b, conflict.0)) {
        (Some(i), Some(j)) => exists|now_a: u64, now_b: u64| #[trigger]
            merges_to(m, a[i]@, b[j]@, now_a, now_b, Err(conflict.1)),
        _ => false,
    }
}

/// The entities of merged states.
pub open spec fn merged_ids(merged: Seq<OrbCrdtState>) -> Seq<u128> {
    Seq::new(merged.len(), |i: int| merged[i].orb_id)
}

/// The entities of conflicts.
pub open spec fn conflict_ids(conflicts: Seq<(u128, PiriaError)>) -> Seq<u128> {
    Seq::new(conflicts.len(), |i: int| conflicts[i].0)
}

/// Every entity of either partition is accounted for exactly once, as merged or
/// as a conflict, and rightly so. Those of the first partition come first.
pub open spec fn healed(
    m: Arithmetic,
    a: Seq<OrbCrdtState>,
    b: Seq<OrbCrdtState>,
    merged: Seq<OrbCrdtState>,
    conflicts: Seq<(u128, PiriaError)>,
) -> bool {
    &&& forall|i: int| 0 <= i < merged.len() ==> settled(m, a, b, #[trigger] merged[i])
    &&& forall|i: int| 0 <= i < conflicts.len() ==> disputed(m, a, b, #[trigger] conflicts[i])
    &&& merged_ids(merged).no_duplicates()
    &&& conflict_ids(conflicts).no_duplicates()
    &&& forall|id: u128|
        !(#[trigger] merged_ids(merged).contains(id) && conflict_ids(conflicts).contains(id))
    &&& forall|id: u128| #![trigger merged_ids(merged).contains(id)]
        newest(a, id) is Some || newest(b, id) is Some <==> merged_ids(merged).contains(id)
            || conflict_ids(conflicts).contains(id)
    &&& forall|i: int, j: int|
        0 <= i < j < merged.len() && newest(a, (#[trigger] merged[j]).orb_id) is Some ==> newest(
            a,
            (#[trigger] merged[i]).orb_id,
        ) is Some
}

proof fn lemma_newest(partition: Seq<OrbCrdtState>, id: u128)
    ensures
        newest(partition, id) matches Some(i) ==> 0 <= i < partition.len() && partition[i].orb_id
            == id,
    decreases partition.len(),
{
    if partition.len() > 0 && partition.last().orb_id != id {
        lemma_newest(partition.drop_last(), id);
    }
}

/// Where the last state of each entity stands in a partition.
fn index_partition(partition: &[OrbCrdtState]) -> (index: HashMap<u128, usize>)
    ensures
        forall|id: u128| #[trigger]
            index@.contains_key(id) <==> newest(partition@, id) is Some,
        forall|id: u128| #[trigger]
            index@.contains_key(id) ==> newest(partition@, id) == Some(index@[id] as int),
{
    let mut index: HashMap<u128, usize> = HashMap::new();
    let mut i: usize = 0;
    while i < partition.len()
        invariant
            i <= partition@.len(),
            forall|id: u128| #[trigger]
                index@.contains_key(id) <==> newest(partition@.take(i as int), id) is Some,
            forall|id: u128| #[trigger]
                index@.contains_key(id) ==> newest(partition@.take(i as int), id) == Some(
                    index@[id] as int,
                ),
        decreases partition@.len() - i,
    {
        assert(partition@.take(i + 1).drop_last() =~= partition@.take(i as int));
        index.insert(partition[i].orb_id, i);
        i += 1;
    }
    assert(partition@.take(i as int) =~= partition@);
    index
}

proof fn lemma_ids_grow(ids: Seq<u128>, id: u128)
    requires
        ids.no_duplicates(),
        !ids.contains(id),
    ensures
        ids.push(id).no_duplicates(),
        forall|k: u128| #[trigger] ids.push(id).contains(k) <==> ids.contains(k) || k == id,
{
    let longer = ids.push(id);
    assert forall|k: u128| #[trigger] longer.contains(k) <==> ids.contains(k) || k == id by {
        if longer.contains(k) {
            let j = choose|j: int| 0 <= j < longer.len() && longer[j] == k;
            if j < ids.len() {
                assert(ids[j] == k);
            }
        }
        if ids.contains(k) {
            let j = choose|j: int| 0 <= j < ids.len() && ids[j] == k;
            assert(longer[j] == k);
        }
        assert(longer[ids.len() as int] == id);
    }
}

impl PartitionMergeCoordinator {
    /// Brings two partitions together.
    pub fn reconcile<F: Fn(Flop) -> u64>(
        fpu: &Fpu<F>,
        partition_a: &[OrbCrdtState],
        partition_b: &[OrbCrdtState],
    ) -> (result: PartitionHealResult)
        ensures
            healed(fpu@, partition_a@, partition_b@, result.merged@, result.conflicts@),
    {
        let a_map = index_partition(partition_a);
        let b_map = index_partition(partition_b);
        let ghost a = partition_a@;
        let ghost b = partition_b@;
        let mut merged: Vec<OrbCrdtState> = Vec::new();
        let mut conflicts: Vec<(u128, PiriaError)> = Vec::new();
        let a_keys = keys_of(&a_map);
        let mut i: usize = 0;
        while i < a_keys.len()
            invariant
                i <= a_keys@.len(),
                a == partition_a@,
                b == partition_b@,
                maps::lists(a_keys@, a_map@.dom()),
                forall|id: u128| #[trigger]
                    a_map@.contains_key(id) <==> newest(a, id) is Some,
                forall|id: u128| #[trigger]
                    a_map@.contains_key(id) ==> newest(a, id) == Some(a_map@[id] as int),
                forall|id: u128| #[trigger]
                    b_map@.contains_key(id) <==> newest(b, id) is Some,
                forall|id: u128| #[trigger]
                    b_map@.contains_key(id) ==> newest(b, id) == Some(b_map@[id] as int),
                forall|k: int|
                    0 <= k < merged@.len() ==> settled(fpu@, a, b, #[trigger] merged@[k]),
                forall|k: int|
                    0 <= k < conflicts@.len() ==> disputed(fpu@, a, b, #[trigger] conflicts@[k]),
                merged_ids(merged@).no_duplicates(),
                conflict_ids(conflicts@).no_duplicates(),
                forall|id: u128| #[trigger]
                    merged_ids(merged@).contains(id) ==> a_keys@.take(i as int).contains(id),
                forall|id: u128| #[trigger]
                    conflict_ids(conflicts@).contains(id) ==> a_keys@.take(i as int).contains(id),
                forall|id: u128| #[trigger]
                    a_keys@.take(i as int).contains(id) ==> merged_ids(merged@).contains(id)
                        || conflict_ids(conflicts@).contains(id),
                forall|id: u128|
                    !(#[trigger] merged_ids(merged@).contains(id) && conflict_ids(
                        conflicts@,
                    ).contains(id)),
                forall|k: int|
                    0 <= k < merged@.len() ==> newest(a, (#[trigger] merged@[k]).orb_id) is Some,
            decreases a_keys@.len() - i,
        {
            let id: u128 = a_keys[i];
            proof {
                maps::lemma_take_grows(a_keys@, i as int);
                assert(a_map@.contains_key(id));
                lemma_newest(a, id);
                lemma_newest(b, id);
            }
            let ghost merged_before = merged@;
            let ghost conflicts_before = conflicts@;
            if let Some(at) = a_map.get(&id) {
                let a_state = &partition_a[*at];
                match b_map.get(&id) {
                    Some(bt) => {
                        let b_state = &partition_b[*bt];
                        let outcome = a_state.merge(fpu, b_state);
                        let ghost (now_a, now_b) = choose|now_a: u64, now_b: u64| #[trigger]
                            merges_to(fpu@, a_state@, b_state@, now_a, now_b, outcome);
                        let ghost kept = outcome;
                        match outcome {
                            Ok(state) => {
                                assert(state.orb_id == id);
                                merged.push(state);
                                proof {
                                    assert(merged_ids(merged@) =~= merged_ids(merged_before).push(
                                        id,
                                    ));
                                    lemma_ids_grow(merged_ids(merged_before), id);
                                }
                            },
                            Err(error) => {
                                let ghost conflict = (id, error);
                                conflicts.push((id, error));
                                proof {
                                    assert(kept == Err::<OrbCrdtState, PiriaError>(conflict.1));
                                    assert(merges_to(
                                        fpu@,
                                        a_state@,
                                        b_state@,
                                        now_a,
                                        now_b,
                                        Err(conflict.1),
                                    ));
                                    assert(disputed(fpu@, a, b, conflict));
                                    assert(conflict_ids(conflicts@) =~= conflict_ids(
                                        conflicts_before,
                                    ).push(id));
                                    lemma_ids_grow(conflict_ids(conflicts_before), id);
                                }
                            },
                        }
                    },
                    None => {
                        let state = a_state.clone();
                        assert(state@.orb_id == id);
                        merged.push(state);
                        proof {
                            assert(merged_ids(merged@) =~= merged_ids(merged_before).push(id));
                            lemma_ids_grow(merged_ids(merged_before), id);
                        }
                    },
                }
            }
            i += 1;
        }
        proof {
            maps::lemma_taken_all(a_keys@);
            assert forall|id: u128| #[trigger] a_map@.contains_key(id) implies merged_ids(
                merged@,
            ).contains(id) || conflict_ids(conflicts@).contains(id) by {
                assert(a_keys@.to_set().contains(id));
                assert(a_keys@.take(a_keys@.len() as int).contains(id));
            }
        }
        let b_keys = keys_of(&b_map);
        let mut i: usize = 0;
        while i < b_keys.len()
            invariant
                i <= b_keys@.len(),
                a == partition_a@,
                b == partition_b@,
                maps::lists(b_keys@, b_map@.dom()),
                forall|id: u128| #[trigger]
                    a_map@.contains_key(id) <==> newest(a, id) is Some,
                forall|id: u128| #[trigger]
                    b_map@.contains_key(id) <==> newest(b, id) is Some,
                forall|id: u128| #[trigger]
                    b_map@.contains_key(id) ==> newest(b, id) == Some(b_map@[id] as int),
                forall|k: int|
                    0 <= k < merged@.len() ==> settled(fpu@, a, b, #[trigger] merged@[k]),
                forall|k: int|
                    0 <= k < conflicts@.len() ==> disputed(fpu@, a, b, #[trigger] conflicts@[k]),
                merged_ids(merged@).no_duplicates(),
                conflict_ids(conflicts@).no_duplicates(),
                forall|id: u128| #[trigger]
                    merged_ids(merged@).contains(id) ==> a_map@.contains_key(id)
                        || b_keys@.take(i as int).contains(id),
                forall|id: u128| #[trigger]
                    conflict_ids(conflicts@).contains(id) ==> a_map@.contains_key(id),
                forall|id: u128| #[trigger]
                    a_map@.contains_key(id) ==> merged_ids(merged@).contains(id) || conflict_ids(
                        conflicts@,
                    ).contains(id),
                forall|id: u128| #[trigger]
                    b_keys@.take(i as int).contains(id) ==> a_map@.contains_key(id) || merged_ids(
                        merged@,
                    ).contains(id),
                forall|id: u128|
                    !(#[trigger] merged_ids(merged@).contains(id) && conflict_ids(
                        conflicts@,
                    ).contains(id)),
                forall|k: int, l: int|
                    0 <= k < l < merged@.len() && newest(a, (#[trigger] merged@[l]).orb_id) is Some
                        ==> newest(a, (#[trigger] merged@[k]).orb_id) is Some,
            decreases b_keys@.len() - i,
        {
            let id: u128 = b_keys[i];
            proof {
                maps::lemma_take_grows(b_keys@, i as int);
                assert(b_map@.contains_key(id));
                lemma_newest(b, id);
            }
            let ghost merged_before = merged@;
            if !a_map.contains_key(&id) {
                if let Some(bt) = b_map.get(&id) {
                    let state = partition_b[*bt].clone();
                    assert(state@.orb_id == id);
                    assert(newest(a, id) is None);
                    merged.push(state);
                    proof {
                        assert(merged_ids(merged@) =~= merged_ids(merged_before).push(id));
                        lemma_ids_grow(merged_ids(merged_before), id);
                    }
                }
            }
            i += 1;
        }
        proof {
            maps::lemma_taken_all(b_keys@);
            assert(forall|id: u128| b_map@.contains_key(id) <==> b_keys@.to_set().contains(id));
            assert forall|id: u128| #![trigger merged_ids(merged@).contains(id)]
                newest(a, id) is Some || newest(b, id) is Some <==> merged_ids(merged@).contains(id)
                || conflict_ids(conflicts@).contains(id) by {
                assert(a_map@.contains_key(id) <==> newest(a, id) is Some);
                assert(b_map@.contains_key(id) <==> newest(b, id) is Some);
                assert(b_keys@.take(b_keys@.len() as int).contains(id) <==> b_map@.contains_key(
                    id,
                ));
            }
        }
        PartitionHealResult { merged, conflicts }
    }
}

impl PartitionHealResult {
    /// Whether everything could be merged.
    pub fn is_clean(&self) -> (result: bool)
        ensures
            result == (self.conflicts@.len() == 0),
    {
        self.conflicts.is_empty()
    }

    /// The number of entities that could not be merged.
    pub fn conflict_count(&self) -> (result: usize)
        ensures
            result == self.conflicts@.len(),
    {
        self.conflicts.len()
    }
}

/// Of several states of an entity in a partition, the last one counts.
pub proof fn the_last_state_counts(partition: Seq<OrbCrdtState>, id: u128, i: int)
    requires
        0 <= i < partition.len(),
        partition[i].orb_id == id,
        forall|j: int| i < j < partition.len() ==> (#[trigger] partition[j]).orb_id != id,
    ensures
        newest(partition, id) == Some(i),
    decreases partition.len(),
{
    if i < partition.len() - 1 {
        assert(partition[partition.len() - 1].orb_id != id);
        let shorter = partition.drop_last();
        assert forall|j: int| i < j < shorter.len() implies (#[trigger] shorter[j]).orb_id
            != id by {
            assert(shorter[j] == partition[j]);
        }
        the_last_state_counts(shorter, id, i);
    }
}

proof fn lemma_absent(partition: Seq<OrbCrdtState>, id: u128)
    requires
        forall|j: int| 0 <= j < partition.len() ==> (#[trigger] partition[j]).orb_id != id,
    ensures
        newest(partition, id) is None,
    decreases partition.len(),
{
    if partition.len() > 0 {
        assert(partition[partition.len() - 1].orb_id != id);
        let shorter = partition.drop_last();
        assert forall|j: int| 0 <= j < shorter.len() implies (#[trigger] shorter[j]).orb_id
            != id by {
            assert(shorter[j] == partition[j]);
        }
        lemma_absent(shorter, id);
    }
}

/// Whether a state is the last one of its entity in a partition.
pub open spec fn is_last(partition: Seq<OrbCrdtState>, i: int, id: u128) -> bool {
    &&& 0 <= i < partition.len()
    &&& partition[i].orb_id == id
    &&& forall|j: int| i < j < partition.len() ==> (#[trigger] partition[j]).orb_id != id
}

/// Reconciling accounts for every entity. One that only one partition holds comes out as it
/// was there last. One that both hold comes out as what its last states become together, or
/// as a conflict.
pub proof fn reconciling_accounts_for_everybody(
    m: Arithmetic,
    a: Seq<OrbCrdtState>,
    b: Seq<OrbCrdtState>,
    merged: Seq<OrbCrdtState>,
    conflicts: Seq<(u128, PiriaError)>,
    id: u128,
    i: int,
    j: int,
)
    requires
        healed(m, a, b, merged, conflicts),
    ensures
        is_last(a, i, id) && (forall|k: int|
            0 <= k < b.len() ==> (#[trigger] b[k]).orb_id != id) ==> exists|k: int|
            0 <= k < merged.len() && (#[trigger] merged[k])@ == a[i]@,
        is_last(b, j, id) && (forall|k: int|
            0 <= k < a.len() ==> (#[trigger] a[k]).orb_id != id) ==> exists|k: int|
            0 <= k < merged.len() && (#[trigger] merged[k])@ == b[j]@,
        is_last(a, i, id) && is_last(b, j, id) ==> (exists|k: int|
            0 <= k < merged.len() && (#[trigger] merged[k]).orb_id == id && joins_replicas(
                m,
                a[i]@,
                b[j]@,
                merged[k]@,
            )) || (exists|k: int| 0 <= k < conflicts.len() && (#[trigger] conflicts[k]).0 == id),
{
    let absent_a = forall|k: int| 0 <= k < a.len() ==> (#[trigger] a[k]).orb_id != id;
    let absent_b = forall|k: int| 0 <= k < b.len() ==> (#[trigger] b[k]).orb_id != id;
    if absent_a {
        lemma_absent(a, id);
    }
    if absent_b {
        lemma_absent(b, id);
    }
    if is_last(a, i, id) {
        the_last_state_counts(a, id, i);
    }
    if is_last(b, j, id) {
        the_last_state_counts(b, id, j);
    }
    if is_last(a, i, id) || is_last(b, j, id) {
        let ids = merged_ids(merged);
        let disputes = conflict_ids(conflicts);
        assert(ids.contains(id) || disputes.contains(id));
        if ids.contains(id) {
            let k = choose|k: int| 0 <= k < ids.len() && ids[k] == id;
            assert(merged[k].orb_id == id);
            assert(settled(m, a, b, merged[k]));
            if is_last(a, i, id) && is_last(b, j, id) {
                let (now_a, now_b) = choose|now_a: u64, now_b: u64| #[trigger]
                    merges_to(m, a[i]@, b[j]@, now_a, now_b, Ok(merged[k]));
                merged_replicas_are_joined(m, a[i]@, b[j]@, now_a, now_b, merged[k]);
            }
        } else {
            let k = choose|k: int| 0 <= k < disputes.len() && disputes[k] == id;
            assert(conflicts[k].0 == id);
            assert(disputed(m, a, b, conflicts[k]));
        }
    }
}

} // verus!
