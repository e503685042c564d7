//! Sharing out attention among entities.

use std::collections::HashMap;

use vstd::prelude::*;

use crate::doubles;
use crate::float::{Double, Single};
use crate::fpu;
use crate::fpu::{Arithmetic, Flop, Fpu};
use crate::rounding;
use crate::traversal::{
    NodeData, NodeView, ATTENTION_FLOOR, RECENCY_HALF_LIFE_MS, SINGULARITY_CAP,
};
use crate::trust;
use crate::trust::DOUBLE_ONE;

verus! {

broadcast use vstd::std_specs::hash::group_hash_axioms;

/// A sum of priorities below this one (`1e-10`) tells the entities not apart.
pub const NEGLIGIBLE_PRIORITY: u64 = 0x3DDB_7CDF_D9D7_BDBB;

// ---------------------------------------------------------------------------
// Shares
// ---------------------------------------------------------------------------

/// What nodes hold.
pub open spec fn data_of(nodes: Seq<NodeView>) -> Seq<NodeData> {
    Seq::new(nodes.len(), |i: int| nodes[i]@)
}

/// The priority of an entity: trust times mass times recency, and nothing where
/// that is no positive finite number.
pub open spec fn priority_of(m: Arithmetic, node: NodeData, now: u64) -> Double {
    let recency = fpu::wide_exponential(
        m,
        fpu::wide_quotient(
            m,
            fpu::double_of(m, trust::elapsed(now, node.updated_at_ms)).negated(),
            Double { bits: RECENCY_HALF_LIFE_MS },
        ),
    );
    let priority = fpu::wide_product(
        m,
        fpu::wide_product(m, fpu::widened(m, node.trust), fpu::widened(m, node.semantic_mass)),
        recency,
    );
    if priority.finite() && (Double { bits: 0 }).below(priority) {
        priority
    } else {
        Double { bits: 0 }
    }
}

/// The priorities of entities.
pub open spec fn priorities_of(m: Arithmetic, nodes: Seq<NodeData>, now: u64) -> Seq<Double> {
    Seq::new(nodes.len(), |i: int| priority_of(m, nodes[i], now))
}

/// The running sum of a list, from the left, starting at zero.
pub open spec fn wide_total(m: Arithmetic, values: Seq<Double>) -> Double
    decreases values.len(),
{
    if values.len() == 0 {
        Double { bits: 0 }
    } else {
        fpu::wide_sum(m, wide_total(m, values.drop_last()), values.last())
    }
}

/// The share of each entity: its priority as a part of all priorities, or the
/// same for all where the priorities tell them not apart.
pub open spec fn shares_of(m: Arithmetic, nodes: Seq<NodeData>, now: u64) -> Seq<Double> {
    let priorities = priorities_of(m, nodes, now);
    let total = wide_total(m, priorities);
    Seq::new(
        nodes.len(),
        |i: int|
            if total.below(Double { bits: NEGLIGIBLE_PRIORITY }) {
                fpu::wide_quotient(
                    m,
                    Double { bits: DOUBLE_ONE },
                    fpu::double_of(m, nodes.len() as u64),
                )
            } else {
                fpu::wide_quotient(m, priorities[i], total)
            },
    )
}

/// The most that one of so many entities can get: its part of the budget by the
/// cap on singularities, but never less than what it takes to hand out all, nor
/// than the floor.
pub open spec fn ceiling_of(m: Arithmetic, budget: u64, count: nat) -> u64 {
    let base = fpu::wide_integer_of(
        m,
        fpu::wide_product(
            m,
            fpu::double_of(m, budget),
            fpu::widened(m, Single { bits: SINGULARITY_CAP }),
        ),
    );
    let even = ((budget + count - 1) / count as int) as u64;
    let larger = if base >= even {
        base
    } else {
        even
    };
    if larger >= ATTENTION_FLOOR {
        larger
    } else {
        ATTENTION_FLOOR
    }
}

/// What a share of the rest would be, if attention could be divided.
pub open spec fn ideal_of(m: Arithmetic, rest: u64, share: Double) -> Double {
    fpu::wide_product(m, fpu::double_of(m, rest), share)
}

/// The sum of a list of amounts.
pub open spec fn sum_of(amounts: Seq<u64>) -> nat
    decreases amounts.len(),
{
    if amounts.len() == 0 {
        0
    } else {
        sum_of(amounts.drop_last()) + amounts.last() as nat
    }
}

/// What a share of the rest gives beyond the floor, in whole units below the
/// ceiling.
pub open spec fn extra_of(m: Arithmetic, rest: u64, share: Double, ceiling: u64) -> u64 {
    let whole = fpu::wide_integer_of(m, fpu::wide_floor(m, ideal_of(m, rest, share)));
    if whole <= ceiling - ATTENTION_FLOOR {
        whole
    } else {
        (ceiling - ATTENTION_FLOOR) as u64
    }
}

/// The extras of all shares, one after the other. Nobody gets more than those in
/// front left over.
pub open spec fn extras_of(
    m: Arithmetic,
    rest: u64,
    shares: Seq<Double>,
    ceiling: u64,
) -> Seq<u64>
    decreases shares.len(),
{
    if shares.len() == 0 {
        Seq::empty()
    } else {
        let earlier = extras_of(m, rest, shares.drop_last(), ceiling);
        let extra = extra_of(m, rest, shares.last(), ceiling);
        earlier.push(
            if extra <= rest - sum_of(earlier) {
                extra
            } else {
                (rest - sum_of(earlier)) as u64
            },
        )
    }
}

/// How far all extras fall short.
pub open spec fn shortfalls_of(
    m: Arithmetic,
    rest: u64,
    shares: Seq<Double>,
    ceiling: u64,
) -> Seq<Double> {
    Seq::new(
        shares.len(),
        |i: int|
            fpu::wide_difference(
                m,
                ideal_of(m, rest, shares[i]),
                fpu::double_of(m, extras_of(m, rest, shares, ceiling)[i]),
            ),
    )
}

// ---------------------------------------------------------------------------
// Who comes first
// ---------------------------------------------------------------------------

/// Whether `x` comes before `y`: it falls shorter or, where neither does, its
/// identifier is the smaller one.
pub open spec fn outranks(
    shortfalls: Seq<Double>,
    nodes: Seq<NodeData>,
    x: usize,
    y: usize,
) -> bool {
    shortfalls[y as int].below(shortfalls[x as int]) || (!shortfalls[x as int].below(
        shortfalls[y as int],
    ) && nodes[x as int].orb_id < nodes[y as int].orb_id)
}

/// An order with one more position put behind those that it does not outrank.
pub open spec fn queued_in(
    shortfalls: Seq<Double>,
    nodes: Seq<NodeData>,
    order: Seq<usize>,
    x: usize,
) -> Seq<usize>
    decreases order.len(),
{
    if order.len() == 0 || !outranks(shortfalls, nodes, x, order.last()) {
        order.push(x)
    } else {
        queued_in(shortfalls, nodes, order.drop_last(), x).push(order.last())
    }
}

/// The first `count` positions in the order in which they get what is left.
pub open spec fn order_of(shortfalls: Seq<Double>, nodes: Seq<NodeData>, count: nat) -> Seq<usize>
    decreases count,
{
    if count == 0 {
        Seq::empty()
    } else {
        queued_in(
            shortfalls,
            nodes,
            order_of(shortfalls, nodes, (count - 1) as nat),
            (count - 1) as usize,
        )
    }
}

// ---------------------------------------------------------------------------
// What is left
// ---------------------------------------------------------------------------

/// One round, from a place in the order on: everybody below the ceiling gets one
/// unit, as long as there are any. What everybody has then, and what is left.
pub open spec fn round(
    amounts: Seq<u64>,
    order: Seq<usize>,
    ceiling: u64,
    left: u64,
    place: nat,
) -> (Seq<u64>, u64)
    decreases order.len() - place,
{
    if place >= order.len() || left == 0 {
        (amounts, left)
    } else {
        let x = order[place as int] as int;
        if amounts[x] < ceiling {
            round(
                amounts.update(x, (amounts[x] + 1) as u64),
                order,
                ceiling,
                (left - 1) as u64,
                place + 1,
            )
        } else {
            round(amounts, order, ceiling, left, place + 1)
        }
    }
}

/// Rounds until nothing is left or nobody takes any more.
pub open spec fn rounds(amounts: Seq<u64>, order: Seq<usize>, ceiling: u64, left: u64) -> Seq<u64>
    decreases left,
{
    let (after, rest) = round(amounts, order, ceiling, left, 0);
    if rest == 0 || rest >= left {
        after
    } else {
        rounds(after, order, ceiling, rest)
    }
}

/// What everybody gets. Where there is not enough for all, the first ones get
/// one unit each. Otherwise everybody gets the floor and a whole share of the
/// rest, and what is left goes to those who fell shortest.
pub open spec fn amounts_of(
    m: Arithmetic,
    nodes: Seq<NodeData>,
    budget: u64,
    now: u64,
) -> Seq<u64> {
    let count = nodes.len();
    if budget <= count {
        Seq::new(
            count,
            |i: int|
                if i < budget {
                    1u64
                } else {
                    0u64
                },
        )
    } else {
        let ceiling = ceiling_of(m, budget, count);
        let rest = (budget - count) as u64;
        let shares = shares_of(m, nodes, now);
        let extras = extras_of(m, rest, shares, ceiling);
        let left = (rest - sum_of(extras)) as u64;
        rounds(
            Seq::new(count, |i: int| (ATTENTION_FLOOR + extras[i]) as u64),
            order_of(shortfalls_of(m, rest, shares, ceiling), nodes, count),
            ceiling,
            left,
        )
    }
}

/// The amount of each identifier; the last one where an identifier occurs twice.
pub open spec fn by_id(nodes: Seq<NodeData>, amounts: Seq<u64>) -> Map<u128, u64>
    decreases nodes.len(),
{
    if nodes.len() == 0 {
        Map::empty()
    } else {
        by_id(nodes.drop_last(), amounts.drop_last()).insert(nodes.last().orb_id, amounts.last())
    }
}

/// The attention of each entity.
pub open spec fn allocation(m: Arithmetic, nodes: Seq<NodeData>, budget: u64, now: u64) -> Map<
    u128,
    u64,
> {
    if budget == 0 {
        Map::empty()
    } else {
        by_id(nodes, amounts_of(m, nodes, budget, now))
    }
}

// ---------------------------------------------------------------------------
// Computation
// ---------------------------------------------------------------------------

proof fn lemma_queued_in(
    shortfalls: Seq<Double>,
    nodes: Seq<NodeData>,
    order: Seq<usize>,
    x: usize,
    place: int,
)
    requires
        0 <= place <= order.len(),
        place > 0 ==> !outranks(shortfalls, nodes, x, order[place - 1]),
        forall|j: int|
            place <= j < order.len() ==> outranks(shortfalls, nodes, x, #[trigger] order[j]),
    ensures
        queued_in(shortfalls, nodes, order, x) == order.insert(place, x),
    decreases order.len(),
{
    if place == order.len() {
        assert(order.insert(place, x) =~= order.push(x));
    } else {
        lemma_queued_in(shortfalls, nodes, order.drop_last(), x, place);
        assert(order.insert(place, x) =~= order.drop_last().insert(place, x).push(order.last()));
    }
}

proof fn lemma_sum_step(amounts: Seq<u64>, i: int)
    requires
        0 <= i < amounts.len(),
    ensures
        sum_of(amounts.take(i + 1)) == sum_of(amounts.take(i)) + amounts[i],
{
    assert(amounts.take(i + 1).drop_last() =~= amounts.take(i));
    assert(amounts.take(i + 1).last() == amounts[i]);
}

/// The extras never come to more than the rest, and none is above its share or the
/// ceiling.
proof fn lemma_extras(m: Arithmetic, rest: u64, shares: Seq<Double>, ceiling: u64)
    requires
        ceiling >= ATTENTION_FLOOR,
    ensures
        extras_of(m, rest, shares, ceiling).len() == shares.len(),
        sum_of(extras_of(m, rest, shares, ceiling)) <= rest,
        forall|i: int|
            0 <= i < shares.len() ==> #[trigger] extras_of(m, rest, shares, ceiling)[i]
                <= extra_of(m, rest, shares[i], ceiling) <= ceiling - ATTENTION_FLOOR,
    decreases shares.len(),
{
    if shares.len() > 0 {
        let earlier = extras_of(m, rest, shares.drop_last(), ceiling);
        let extras = extras_of(m, rest, shares, ceiling);
        lemma_extras(m, rest, shares.drop_last(), ceiling);
        assert(extras.drop_last() =~= earlier);
        assert forall|i: int| 0 <= i < shares.len() implies #[trigger] extras[i] <= extra_of(
            m,
            rest,
            shares[i],
            ceiling,
        ) <= ceiling - ATTENTION_FLOOR by {
            if i < earlier.len() {
                assert(extras[i] == earlier[i]);
                assert(shares.drop_last()[i] == shares[i]);
            }
        }
    }
}

/// The extras of the first shares do not depend on those behind them.
proof fn lemma_extras_prefix(m: Arithmetic, rest: u64, shares: Seq<Double>, ceiling: u64, n: int)
    requires
        ceiling >= ATTENTION_FLOOR,
        0 <= n <= shares.len(),
    ensures
        extras_of(m, rest, shares.take(n), ceiling) == extras_of(m, rest, shares, ceiling).take(n),
    decreases shares.len(),
{
    lemma_extras(m, rest, shares, ceiling);
    let extras = extras_of(m, rest, shares, ceiling);
    if n == shares.len() {
        assert(shares.take(n) =~= shares);
        assert(extras.take(n) =~= extras);
    } else {
        let earlier = extras_of(m, rest, shares.drop_last(), ceiling);
        lemma_extras(m, rest, shares.drop_last(), ceiling);
        lemma_extras_prefix(m, rest, shares.drop_last(), ceiling, n);
        assert(shares.drop_last().take(n) =~= shares.take(n));
        assert(earlier.take(n) =~= extras.take(n));
    }
}

/// Whether a priority is that of an entity at a time: in arithmetic that rounds it is
/// trust times mass times what recency is left, which falls with the age by a factor of
/// `e` in seven days, but for rounding, and never negative.
pub open spec fn presses(m: Arithmetic, node: NodeData, now: u64, priority: Double) -> bool {
    forall|e: spec_fn(real) -> real|
        rounding::rounds(m) && doubles::rounds_wide(m) && #[trigger] doubles::exponentiates(m, e)
            && node.trust.finite() && rounding::size(rounding::value(node.trust)) <= 1000 as real
            && node.semantic_mass.finite() && rounding::size(rounding::value(node.semantic_mass))
            <= 1000 as real ==> {
            let age: int = if now >= node.updated_at_ms {
                now - node.updated_at_ms
            } else {
                0
            };
            let heft = rounding::value(node.trust) * rounding::value(node.semantic_mass);
            &&& priority.finite()
            &&& rounding::size(
                doubles::wide_value(priority) - rounding::most(
                    heft * e(-(age as real / 604800000 as real)),
                    0 as real,
                ),
            ) <= rounding::size(heft) / 20000 as real + 1 as real
                / 1000000000000000000000000000000 as real
        }
}

proof fn lemma_presses(m: Arithmetic, e: spec_fn(real) -> real, node: NodeData, now: u64)
    requires
        rounding::rounds(m),
        doubles::rounds_wide(m),
        doubles::exponentiates(m, e),
        node.trust.finite(),
        rounding::size(rounding::value(node.trust)) <= 1000 as real,
        node.semantic_mass.finite(),
        rounding::size(rounding::value(node.semantic_mass)) <= 1000 as real,
    ensures
        ({
            let age = trust::elapsed(now, node.updated_at_ms);
            let heft = rounding::value(node.trust) * rounding::value(node.semantic_mass);
            let priority = priority_of(m, node, now);
            &&& priority.finite()
            &&& rounding::size(
                doubles::wide_value(priority) - rounding::most(
                    heft * e(-(age as real / 604800000 as real)),
                    0 as real,
                ),
            ) <= rounding::size(heft) / 20000 as real + 1 as real
                / 1000000000000000000000000000000 as real
        }),
{
    doubles::lemma_wide_constants();
    let age = trust::elapsed(now, node.updated_at_ms);
    let span = Double { bits: RECENCY_HALF_LIFE_MS };
    doubles::lemma_time_ratio(m, age, span);
    let a = fpu::wide_quotient(m, fpu::double_of(m, age).negated(), span);
    let exact = -(age as real / 604800000 as real);
    assert(age as real / 604800000 as real <= 31000000000 as real);
    doubles::lemma_decay(m, e, a, exact);
    let left = fpu::wide_exponential(m, a);
    let (x, y) = (rounding::value(node.trust), rounding::value(node.semantic_mass));
    let heft = x * y;
    let h = rounding::size(heft);
    assert(0 as real <= h <= 1000000 as real) by (nonlinear_arith)
        requires
            -(1000 as real) <= x <= 1000 as real,
            -(1000 as real) <= y <= 1000 as real,
            h == x * y || h == -(x * y),
            h >= 0 as real,
    ;
    let wide = fpu::wide_product(m, fpu::widened(m, node.trust), fpu::widened(m, node.semantic_mass));
    assert(doubles::wide_rounded(wide, heft));
    let w = doubles::wide_slip();
    let t = doubles::wide_speck();
    assert(w * h <= h / 1000000000 as real) by (nonlinear_arith)
        requires
            w == 1 as real / 9007199254740992 as real,
            h >= 0 as real,
    ;
    let hv = doubles::wide_value(wide);
    let lv = doubles::wide_value(left);
    let l = e(exact);
    let ea = h / 1000000000 as real + t;
    let eb = 4 as real / 100000 as real;
    assert(l * (3 as real / 100000 as real) <= 3 as real / 100000 as real) by (nonlinear_arith)
        requires
            0 as real <= l <= 1 as real,
    ;
    doubles::lemma_product_error(hv, heft, ea, lv, l, eb);
    let bound = h * eb + l * ea + ea * eb;
    assert(bound <= h * 41 as real / 1000000 as real + 2 as real * t) by (nonlinear_arith)
        requires
            bound == h * eb + l * ea + ea * eb,
            ea == h / 1000000000 as real + t,
            eb == 4 as real / 100000 as real,
            0 as real <= l <= 1 as real,
            h >= 0 as real,
            t >= 0 as real,
    ;
    let z = hv * lv;
    assert(-h <= heft * l <= h) by (nonlinear_arith)
        requires
            0 as real <= l <= 1 as real,
            h == heft || h == -heft,
            h >= 0 as real,
    ;
    let priority = fpu::wide_product(m, wide, left);
    assert(rounding::size(z) < doubles::wide_brim());
    assert(doubles::wide_rounded(priority, z));
    let sz = rounding::size(z);
    assert(w * sz <= sz / 1000000000 as real) by (nonlinear_arith)
        requires
            w == 1 as real / 9007199254740992 as real,
            sz >= 0 as real,
    ;
    doubles::lemma_wide_values_are_ordered(Double { bits: 0 }, priority);
}

/// The priority of an entity grows with its trust and its mass, and falls with its age.
pub proof fn priorities_measure_entities(m: Arithmetic, node: NodeData, now: u64)
    ensures
        presses(m, node, now, priority_of(m, node, now)),
{
    assert forall|e: spec_fn(real) -> real|
        rounding::rounds(m) && doubles::rounds_wide(m) && #[trigger] doubles::exponentiates(m, e)
            && node.trust.finite() && rounding::size(rounding::value(node.trust)) <= 1000 as real
            && node.semantic_mass.finite() && rounding::size(rounding::value(node.semantic_mass))
            <= 1000 as real implies ({
        let age: int = if now >= node.updated_at_ms {
            now - node.updated_at_ms
        } else {
            0
        };
        let heft = rounding::value(node.trust) * rounding::value(node.semantic_mass);
        let priority = priority_of(m, node, now);
        &&& priority.finite()
        &&& rounding::size(
            doubles::wide_value(priority) - rounding::most(
                heft * e(-(age as real / 604800000 as real)),
                0 as real,
            ),
        ) <= rounding::size(heft) / 20000 as real + 1 as real
            / 1000000000000000000000000000000 as real
    }) by {
        lemma_presses(m, e, node, now);
    }
}

fn priority<F: Fn(Flop) -> u64>(fpu: &Fpu<F>, node: &NodeView, now: u64) -> (result: Double)
    ensures
        result == priority_of(fpu@, node@, now),
        presses(fpu@, node@, now, result),
{
    proof {
        priorities_measure_entities(fpu@, node@, now);
    }
    let age: u64 = if now >= node.updated_at_ms {
        now - node.updated_at_ms
    } else {
        0
    };
    let recency = fpu.wide_exp(
        fpu.wide_div(fpu.wide_from_int(age).neg(), Double { bits: RECENCY_HALF_LIFE_MS }),
    );
    let product = fpu.wide_mul(
        fpu.wide_mul(fpu.widen(node.trust), fpu.widen(node.semantic_mass)),
        recency,
    );
    if product.is_finite() && (Double { bits: 0 }).lt(&product) {
        product
    } else {
        Double { bits: 0 }
    }
}

fn shares<F: Fn(Flop) -> u64>(fpu: &Fpu<F>, nodes: &[NodeView], now: u64) -> (result: Vec<Double>)
    ensures
        result@ == shares_of(fpu@, data_of(nodes@), now),
{
    let ghost data = data_of(nodes@);
    let ghost want = priorities_of(fpu@, data, now);
    let mut priorities: Vec<Double> = Vec::new();
    let mut total = Double { bits: 0 };
    let mut i: usize = 0;
    while i < nodes.len()
        invariant
            i <= nodes@.len(),
            data == data_of(nodes@),
            want == priorities_of(fpu@, data, now),
            priorities@ == want.take(i as int),
            total == wide_total(fpu@, priorities@),
        decreases nodes@.len() - i,
    {
        let p = priority(fpu, &nodes[i], now);
        total = fpu.wide_add(total, p);
        let ghost before = priorities@;
        priorities.push(p);
        assert(priorities@.drop_last() =~= before);
        assert(priorities@ =~= want.take(i + 1));
        i += 1;
    }
    assert(want.take(i as int) =~= want);
    let even = total.lt(&Double { bits: NEGLIGIBLE_PRIORITY });
    let ghost goal = shares_of(fpu@, data, now);
    let mut result: Vec<Double> = Vec::new();
    let mut i: usize = 0;
    while i < nodes.len()
        invariant
            i <= nodes@.len(),
            data == data_of(nodes@),
            priorities@ == priorities_of(fpu@, data, now),
            total == wide_total(fpu@, priorities@),
            even == total.below(Double { bits: NEGLIGIBLE_PRIORITY }),
            goal == shares_of(fpu@, data, now),
            result@ == goal.take(i as int),
        decreases nodes@.len() - i,
    {
        let share = if even {
            fpu.wide_div(Double { bits: DOUBLE_ONE }, fpu.wide_from_int(nodes.len() as u64))
        } else {
            fpu.wide_div(priorities[i], total)
        };
        result.push(share);
        assert(result@ =~= goal.take(i + 1));
        i += 1;
    }
    assert(goal.take(i as int) =~= goal);
    result
}

/// Positions in the order in which they get what is left.
fn queue_up(shortfalls: &Vec<Double>, nodes: &[NodeView]) -> (order: Vec<usize>)
    requires
        shortfalls@.len() == nodes@.len(),
    ensures
        order@ == order_of(shortfalls@, data_of(nodes@), nodes@.len()),
{
    let ghost data = data_of(nodes@);
    let mut order: Vec<usize> = Vec::new();
    let mut i: usize = 0;
    while i < nodes.len()
        invariant
            i <= nodes@.len(),
            shortfalls@.len() == nodes@.len(),
            data == data_of(nodes@),
            order@ == order_of(shortfalls@, data, i as nat),
            forall|j: int| 0 <= j < order@.len() ==> #[trigger] order@[j] < i,
        decreases nodes@.len() - i,
    {
        let mut place: usize = order.len();
        while place > 0 && (shortfalls[order[place - 1]].lt(&shortfalls[i]) || (!shortfalls[i].lt(
            &shortfalls[order[place - 1]],
        ) && nodes[i].orb_id < nodes[order[place - 1]].orb_id))
            invariant
                place <= order@.len(),
                i < nodes@.len(),
                shortfalls@.len() == nodes@.len(),
                data == data_of(nodes@),
                forall|j: int| 0 <= j < order@.len() ==> #[trigger] order@[j] < i,
                forall|j: int|
                    place <= j < order@.len() ==> outranks(
                        shortfalls@,
                        data,
                        i,
                        #[trigger] order@[j],
                    ),
            decreases place,
        {
            place -= 1;
        }
        proof {
            lemma_queued_in(shortfalls@, data, order@, i, place as int);
        }
        order.insert(place, i);
        i += 1;
    }
    order
}

/// Hands out what is left.
fn hand_out(start: Vec<u64>, order: &Vec<usize>, ceiling: u64, surplus: u64) -> (result: Vec<u64>)
    requires
        forall|j: int| 0 <= j < order@.len() ==> #[trigger] order@[j] < start@.len(),
    ensures
        result@ == rounds(start@, order@, ceiling, surplus),
        result@.len() == start@.len(),
{
    let mut amounts = start;
    let mut left: u64 = surplus;
    loop
        invariant
            forall|j: int| 0 <= j < order@.len() ==> #[trigger] order@[j] < amounts@.len(),
            amounts@.len() == start@.len(),
            rounds(amounts@, order@, ceiling, left) == rounds(start@, order@, ceiling, surplus),
        decreases left,
    {
        let ghost before = amounts@;
        let at_start: u64 = left;
        let mut place: usize = 0;
        while place < order.len() && left > 0
            invariant
                place <= order@.len(),
                left <= at_start,
                forall|j: int| 0 <= j < order@.len() ==> #[trigger] order@[j] < amounts@.len(),
                amounts@.len() == before.len(),
                round(amounts@, order@, ceiling, left, place as nat) == round(
                    before,
                    order@,
                    ceiling,
                    at_start,
                    0,
                ),
            decreases order@.len() - place,
        {
            let x: usize = order[place];
            let has: u64 = amounts[x];
            if has < ceiling {
                amounts[x] = has + 1;
                left = left - 1;
            }
            place += 1;
        }
        if left == 0 || left >= at_start {
            return amounts;
        }
    }
}

/// Shares out attention among entities.
pub struct AttentionAllocator;

impl AttentionAllocator {
    /// The attention of each entity.
    pub fn allocate<F: Fn(Flop) -> u64>(
        fpu: &Fpu<F>,
        nodes: &[NodeView],
        budget: u64,
        now_ms: u64,
    ) -> (result: HashMap<u128, u64>)
        requires
            nodes@.len() > 0 ==> budget + nodes@.len() - 1 <= u64::MAX,
        ensures
            result@ == allocation(fpu@, data_of(nodes@), budget, now_ms),
    {
        if nodes.len() == 0 || budget == 0 {
            let nothing: HashMap<u128, u64> = HashMap::new();
            assert(nothing@ =~= allocation(fpu@, data_of(nodes@), budget, now_ms));
            return nothing;
        }
        AttentionAllocator::allocate_conserved(fpu, nodes, budget, now_ms)
    }

    fn allocate_conserved<F: Fn(Flop) -> u64>(
        fpu: &Fpu<F>,
        nodes: &[NodeView],
        budget: u64,
        now_ms: u64,
    ) -> (result: HashMap<u128, u64>)
        requires
            nodes@.len() > 0,
            budget + nodes@.len() - 1 <= u64::MAX,
        ensures
            result@ == by_id(
                data_of(nodes@),
                amounts_of(fpu@, data_of(nodes@), budget, now_ms),
            ),
    {
        let ghost data = data_of(nodes@);
        let ghost goal = amounts_of(fpu@, data, budget, now_ms);
        let count: u64 = nodes.len() as u64;
        if budget <= count {
            let mut amounts: Vec<u64> = Vec::new();
            let mut i: usize = 0;
            while i < nodes.len()
                invariant
                    i <= nodes@.len(),
                    count == nodes@.len(),
                    budget <= count,
                    data == data_of(nodes@),
                    goal == amounts_of(fpu@, data, budget, now_ms),
                    amounts@ == goal.take(i as int),
                decreases nodes@.len() - i,
            {
                amounts.push(
                    if (i as u64) < budget {
                        1
                    } else {
                        0
                    },
                );
                assert(amounts@ =~= goal.take(i + 1));
                i += 1;
            }
            assert(goal.take(i as int) =~= goal);
            return AttentionAllocator::assign(nodes, amounts);
        }
        let base: u64 = fpu.wide_to_int(
            fpu.wide_mul(fpu.wide_from_int(budget), fpu.widen(Single::from_bits(SINGULARITY_CAP))),
        );
        let even: u64 = (budget + (count - 1)) / count;
        let larger: u64 = if base >= even {
            base
        } else {
            even
        };
        let cap: u64 = if larger >= ATTENTION_FLOOR {
            larger
        } else {
            ATTENTION_FLOOR
        };
        let rest: u64 = budget - count;
        let weights = shares(fpu, nodes, now_ms);
        let ghost extras = extras_of(fpu@, rest, weights@, cap);
        let ghost gaps = shortfalls_of(fpu@, rest, weights@, cap);
        let ghost floors = Seq::new(data.len(), |i: int| (ATTENTION_FLOOR + extras[i]) as u64);
        let mut amounts: Vec<u64> = Vec::new();
        let mut shortfalls: Vec<Double> = Vec::new();
        let mut assigned: u64 = 0;
        let mut i: usize = 0;
        while i < nodes.len()
            invariant
                i <= nodes@.len(),
                weights@.len() == nodes@.len(),
                data == data_of(nodes@),
                cap >= ATTENTION_FLOOR,
                extras == extras_of(fpu@, rest, weights@, cap),
                gaps == shortfalls_of(fpu@, rest, weights@, cap),
                floors == Seq::new(data.len(), |i: int| (ATTENTION_FLOOR + extras[i]) as u64),
                amounts@ == floors.take(i as int),
                shortfalls@ == gaps.take(i as int),
                assigned == sum_of(extras.take(i as int)),
                assigned <= rest,
            decreases nodes@.len() - i,
        {
            let ideal = fpu.wide_mul(fpu.wide_from_int(rest), weights[i]);
            let whole: u64 = fpu.wide_to_int(fpu.wide_floored(ideal));
            let allowed: u64 = if whole <= cap - ATTENTION_FLOOR {
                whole
            } else {
                cap - ATTENTION_FLOOR
            };
            let extra: u64 = if allowed <= rest - assigned {
                allowed
            } else {
                rest - assigned
            };
            proof {
                lemma_extras(fpu@, rest, weights@, cap);
                lemma_sum_step(extras, i as int);
                lemma_extras_prefix(fpu@, rest, weights@, cap, i as int);
                lemma_extras_prefix(fpu@, rest, weights@, cap, i + 1);
                assert(weights@.take(i + 1).drop_last() =~= weights@.take(i as int));
                assert(extras.take(i + 1)[i as int] == extras[i as int]);
                assert(extras[i as int] == extra);
            }
            amounts.push(ATTENTION_FLOOR + extra);
            assigned = assigned + extra;
            shortfalls.push(fpu.wide_sub(ideal, fpu.wide_from_int(extra)));
            assert(amounts@ =~= floors.take(i + 1));
            assert(shortfalls@ =~= gaps.take(i + 1));
            i += 1;
        }
        proof {
            lemma_extras(fpu@, rest, weights@, cap);
        }
        assert(extras.take(i as int) =~= extras);
        assert(floors.take(i as int) =~= floors);
        assert(gaps.take(i as int) =~= gaps);
        let left: u64 = rest - assigned;
        let order = queue_up(&shortfalls, nodes);
        proof {
            lemma_order_names_all(gaps, data, data.len());
        }
        let amounts = hand_out(amounts, &order, cap, left);
        AttentionAllocator::assign(nodes, amounts)
    }

    fn assign(nodes: &[NodeView], amounts: Vec<u64>) -> (result: HashMap<u128, u64>)
        requires
            nodes@.len() == amounts@.len(),
        ensures
            result@ == by_id(data_of(nodes@), amounts@),
    {
        let ghost data = data_of(nodes@);
        let mut result: HashMap<u128, u64> = HashMap::new();
        let mut i: usize = 0;
        while i < nodes.len()
            invariant
                i <= nodes@.len(),
                nodes@.len() == amounts@.len(),
                data == data_of(nodes@),
                result@ == by_id(data.take(i as int), amounts@.take(i as int)),
            decreases nodes@.len() - i,
        {
            assert(data.take(i + 1).drop_last() =~= data.take(i as int));
            assert(amounts@.take(i + 1).drop_last() =~= amounts@.take(i as int));
            result.insert(nodes[i].orb_id, amounts[i]);
            i += 1;
        }
        assert(data.take(i as int) =~= data);
        assert(amounts@.take(i as int) =~= amounts@);
        result
    }
}

// ---------------------------------------------------------------------------
// Laws
// ---------------------------------------------------------------------------

proof fn lemma_queued_in_names(
    shortfalls: Seq<Double>,
    nodes: Seq<NodeData>,
    order: Seq<usize>,
    x: usize,
)
    ensures
        queued_in(shortfalls, nodes, order, x).len() == order.len() + 1,
        forall|y: usize| #[trigger]
            queued_in(shortfalls, nodes, order, x).contains(y) <==> order.contains(y) || y == x,
    decreases order.len(),
{
    let longer = queued_in(shortfalls, nodes, order, x);
    if order.len() == 0 || !outranks(shortfalls, nodes, x, order.last()) {
        lemma_push_names(order, x);
    } else {
        lemma_queued_in_names(shortfalls, nodes, order.drop_last(), x);
        lemma_push_names(queued_in(shortfalls, nodes, order.drop_last(), x), order.last());
        lemma_push_names(order.drop_last(), order.last());
        assert(order =~= order.drop_last().push(order.last()));
    }
}

proof fn lemma_push_names(list: Seq<usize>, x: usize)
    ensures
        forall|y: usize| #[trigger] list.push(x).contains(y) <==> list.contains(y) || y == x,
{
    let longer = list.push(x);
    assert forall|y: usize| #[trigger] longer.contains(y) <==> list.contains(y) || y == x by {
        if longer.contains(y) {
            let j = choose|j: int| 0 <= j < longer.len() && longer[j] == y;
            if j < list.len() {
                assert(list[j] == y);
            }
        }
        if list.contains(y) {
            let j = choose|j: int| 0 <= j < list.len() && list[j] == y;
            assert(longer[j] == y);
        }
        assert(longer[list.len() as int] == x);
    }
}

/// The order names every position.
proof fn lemma_order_names_all(shortfalls: Seq<Double>, nodes: Seq<NodeData>, count: nat)
    requires
        count <= usize::MAX,
    ensures
        order_of(shortfalls, nodes, count).len() == count,
        forall|y: usize| #[trigger]
            order_of(shortfalls, nodes, count).contains(y) <==> y < count,
        forall|j: int|
            0 <= j < order_of(shortfalls, nodes, count).len() ==> #[trigger] order_of(
                shortfalls,
                nodes,
                count,
            )[j] < count,
    decreases count,
{
    if count > 0 {
        lemma_order_names_all(shortfalls, nodes, (count - 1) as nat);
        lemma_queued_in_names(
            shortfalls,
            nodes,
            order_of(shortfalls, nodes, (count - 1) as nat),
            (count - 1) as usize,
        );
    }
    let order = order_of(shortfalls, nodes, count);
    assert forall|j: int| 0 <= j < order.len() implies #[trigger] order[j] < count by {
        assert(order.contains(order[j]));
    }
}

proof fn lemma_sum_update(amounts: Seq<u64>, x: int, amount: u64)
    requires
        0 <= x < amounts.len(),
    ensures
        sum_of(amounts.update(x, amount)) == sum_of(amounts) - amounts[x] + amount,
    decreases amounts.len(),
{
    let changed = amounts.update(x, amount);
    if x == amounts.len() - 1 {
        assert(changed.drop_last() =~= amounts.drop_last());
    } else {
        assert(changed.drop_last() =~= amounts.drop_last().update(x, amount));
        lemma_sum_update(amounts.drop_last(), x, amount);
    }
}

/// Every amount lies between the bounds.
pub open spec fn within(amounts: Seq<u64>, floor: u64, ceiling: u64) -> bool {
    forall|i: int| 0 <= i < amounts.len() ==> floor <= #[trigger] amounts[i] <= ceiling
}

proof fn lemma_round(
    amounts: Seq<u64>,
    order: Seq<usize>,
    ceiling: u64,
    left: u64,
    place: nat,
    floor: u64,
)
    requires
        place <= order.len(),
        forall|j: int| 0 <= j < order.len() ==> #[trigger] order[j] < amounts.len(),
        within(amounts, floor, ceiling),
    ensures
        ({
            let (after, rest) = round(amounts, order, ceiling, left, place);
            &&& after.len() == amounts.len()
            &&& rest <= left
            &&& sum_of(after) + rest == sum_of(amounts) + left
            &&& within(after, floor, ceiling)
            &&& rest == left ==> after == amounts && (left == 0 || forall|j: int|
                place <= j < order.len() ==> amounts[#[trigger] order[j] as int] >= ceiling)
        }),
    decreases order.len() - place,
{
    if place < order.len() && left != 0 {
        let x = order[place as int] as int;
        if amounts[x] < ceiling {
            let next = amounts.update(x, (amounts[x] + 1) as u64);
            lemma_sum_update(amounts, x, (amounts[x] + 1) as u64);
            lemma_round(next, order, ceiling, (left - 1) as u64, place + 1, floor);
        } else {
            lemma_round(amounts, order, ceiling, left, place + 1, floor);
        }
    }
}

proof fn lemma_sum_of_full(amounts: Seq<u64>, ceiling: u64)
    requires
        forall|i: int| 0 <= i < amounts.len() ==> #[trigger] amounts[i] >= ceiling,
    ensures
        sum_of(amounts) >= amounts.len() * ceiling,
    decreases amounts.len(),
{
    if amounts.len() > 0 {
        let shorter = amounts.drop_last();
        assert forall|i: int| 0 <= i < shorter.len() implies #[trigger] shorter[i] >= ceiling by {
            assert(amounts[i] >= ceiling);
        }
        lemma_sum_of_full(shorter, ceiling);
        assert(amounts[amounts.len() - 1] >= ceiling);
        assert(amounts.len() * ceiling == shorter.len() * ceiling + ceiling) by (nonlinear_arith)
            requires
                amounts.len() == shorter.len() + 1,
        ;
    }
}

proof fn lemma_rounds(
    amounts: Seq<u64>,
    order: Seq<usize>,
    ceiling: u64,
    left: u64,
    floor: u64,
)
    requires
        forall|j: int| 0 <= j < order.len() ==> #[trigger] order[j] < amounts.len(),
        forall|i: usize| i < amounts.len() ==> #[trigger] order.contains(i),
        amounts.len() <= usize::MAX,
        within(amounts, floor, ceiling),
        sum_of(amounts) + left <= amounts.len() * ceiling,
    ensures
        rounds(amounts, order, ceiling, left).len() == amounts.len(),
        within(rounds(amounts, order, ceiling, left), floor, ceiling),
        sum_of(rounds(amounts, order, ceiling, left)) == sum_of(amounts) + left,
    decreases left,
{
    lemma_round(amounts, order, ceiling, left, 0, floor);
    let (after, rest) = round(amounts, order, ceiling, left, 0);
    if rest == 0 {
    } else if rest >= left {
        assert forall|i: int| 0 <= i < amounts.len() implies #[trigger] amounts[i] >= ceiling by {
            assert(order.contains(i as usize));
            let j = choose|j: int| 0 <= j < order.len() && order[j] == i as usize;
            assert(amounts[order[j] as int] >= ceiling);
        }
        lemma_sum_of_full(amounts, ceiling);
    } else {
        lemma_rounds(after, order, ceiling, rest, floor);
    }
}

proof fn lemma_sum_of_floors(extras: Seq<u64>, count: nat)
    requires
        count <= extras.len(),
        forall|i: int| 0 <= i < extras.len() ==> #[trigger] extras[i] < u64::MAX,
    ensures
        sum_of(Seq::new(count, |i: int| (ATTENTION_FLOOR + extras[i]) as u64)) == sum_of(
            extras.take(count as int),
        ) + count,
    decreases count,
{
    let floors = Seq::new(count, |i: int| (ATTENTION_FLOOR + extras[i]) as u64);
    if count > 0 {
        let fewer = Seq::new(
            (count - 1) as nat,
            |i: int| (ATTENTION_FLOOR + extras[i]) as u64,
        );
        assert(floors.drop_last() =~= fewer);
        lemma_sum_of_floors(extras, (count - 1) as nat);
        lemma_sum_step(extras, count - 1);
    }
}

proof fn lemma_sum_of_units(count: nat, budget: u64)
    ensures
        sum_of(
            Seq::new(
                count,
                |i: int|
                    if i < budget {
                        1u64
                    } else {
                        0u64
                    },
            ),
        ) == (if count <= budget {
            count
        } else {
            budget as nat
        }),
    decreases count,
{
    let units = Seq::new(
        count,
        |i: int|
            if i < budget {
                1u64
            } else {
                0u64
            },
    );
    if count > 0 {
        let fewer = Seq::new(
            (count - 1) as nat,
            |i: int|
                if i < budget {
                    1u64
                } else {
                    0u64
                },
        );
        assert(units.drop_last() =~= fewer);
        lemma_sum_of_units((count - 1) as nat, budget);
    }
}

proof fn lemma_ceiling_suffices(m: Arithmetic, budget: u64, count: nat)
    requires
        0 < count,
        budget + count - 1 <= u64::MAX,
    ensures
        count * ceiling_of(m, budget, count) >= budget,
        ceiling_of(m, budget, count) >= ATTENTION_FLOOR,
{
    let top = (budget + count - 1) as int;
    let q = top / count as int;
    vstd::arithmetic::div_mod::lemma_fundamental_div_mod(top, count as int);
    vstd::arithmetic::div_mod::lemma_mod_bound(top, count as int);
    assert(count * q >= budget);
    assert(0 <= q <= top) by (nonlinear_arith)
        requires
            q == top / count as int,
            count > 0,
            top >= 0,
    ;
    let c = ceiling_of(m, budget, count) as int;
    assert(c >= q);
    assert(count * c >= count * q) by (nonlinear_arith)
        requires
            c >= q,
            count > 0,
    ;
}

/// Attention is conserved: what the entities get adds up to the budget, nobody
/// gets more than the ceiling, and everybody gets the floor where there is
/// enough for all. This holds whatever the arithmetic makes of the shares.
pub proof fn attention_is_conserved(m: Arithmetic, nodes: Seq<NodeData>, budget: u64, now: u64)
    requires
        0 < nodes.len() <= usize::MAX,
        budget + nodes.len() - 1 <= u64::MAX,
    ensures
        amounts_of(m, nodes, budget, now).len() == nodes.len(),
        sum_of(amounts_of(m, nodes, budget, now)) == budget,
        within(amounts_of(m, nodes, budget, now), 0, ceiling_of(m, budget, nodes.len())),
        budget >= nodes.len() ==> within(
            amounts_of(m, nodes, budget, now),
            ATTENTION_FLOOR,
            ceiling_of(m, budget, nodes.len()),
        ),
{
    let count = nodes.len();
    let ceiling = ceiling_of(m, budget, count);
    lemma_ceiling_suffices(m, budget, count);
    if budget <= count {
        lemma_sum_of_units(count, budget);
    } else {
        let rest = (budget - count) as u64;
        let shares = shares_of(m, nodes, now);
        let extras = extras_of(m, rest, shares, ceiling);
        let gaps = shortfalls_of(m, rest, shares, ceiling);
        let floors = Seq::new(count, |i: int| (ATTENTION_FLOOR + extras[i]) as u64);
        let left = (rest - sum_of(extras)) as u64;
        lemma_extras(m, rest, shares, ceiling);
        lemma_order_names_all(gaps, nodes, count);
        lemma_sum_of_floors(extras, count);
        assert(extras.take(count as int) =~= extras);
        assert(within(floors, ATTENTION_FLOOR, ceiling));
        lemma_rounds(floors, order_of(gaps, nodes, count), ceiling, left, ATTENTION_FLOOR);
    }
}

/// Nobody stands behind one that they outrank, and nobody stands twice.
spec fn ranked(shortfalls: Seq<Double>, nodes: Seq<NodeData>, order: Seq<usize>) -> bool {
    &&& order.no_duplicates()
    &&& forall|i: int, j: int|
        0 <= i < j < order.len() ==> !outranks(
            shortfalls,
            nodes,
            #[trigger] order[j],
            #[trigger] order[i],
        )
}

proof fn lemma_queued_in_ranked(
    shortfalls: Seq<Double>,
    nodes: Seq<NodeData>,
    order: Seq<usize>,
    x: usize,
)
    requires
        ranked(shortfalls, nodes, order),
        !order.contains(x),
        x < shortfalls.len(),
        forall|i: int| 0 <= i < shortfalls.len() ==> !(#[trigger] shortfalls[i]).nan(),
        forall|j: int| 0 <= j < order.len() ==> #[trigger] order[j] < shortfalls.len(),
    ensures
        ranked(shortfalls, nodes, queued_in(shortfalls, nodes, order, x)),
    decreases order.len(),
{
    let longer = queued_in(shortfalls, nodes, order, x);
    if order.len() == 0 || !outranks(shortfalls, nodes, x, order.last()) {
        assert forall|i: int, j: int| 0 <= i < j < longer.len() implies !outranks(
            shortfalls,
            nodes,
            #[trigger] longer[j],
            #[trigger] longer[i],
        ) by {
            if j == order.len() && i < order.len() - 1 {
                assert(!outranks(shortfalls, nodes, order[order.len() - 1], order[i]));
                assert(!shortfalls[order[i] as int].nan());
                assert(!shortfalls[order[order.len() - 1] as int].nan());
                assert(!shortfalls[x as int].nan());
            } else if j < order.len() {
                assert(!outranks(shortfalls, nodes, order[j], order[i]));
            }
        }
    } else {
        let shorter = order.drop_last();
        let front = queued_in(shortfalls, nodes, shorter, x);
        assert forall|i: int, j: int| 0 <= i < j < shorter.len() implies !outranks(
            shortfalls,
            nodes,
            #[trigger] shorter[j],
            #[trigger] shorter[i],
        ) by {
            assert(!outranks(shortfalls, nodes, order[j], order[i]));
        }
        assert(!shorter.contains(x)) by {
            if shorter.contains(x) {
                let k = choose|k: int| 0 <= k < shorter.len() && shorter[k] == x;
                assert(order[k] == x);
            }
        }
        assert forall|j: int| 0 <= j < shorter.len() implies #[trigger] shorter[j]
            < shortfalls.len() by {
            assert(order[j] < shortfalls.len());
        }
        lemma_queued_in_ranked(shortfalls, nodes, shorter, x);
        lemma_queued_in_names(shortfalls, nodes, shorter, x);
        let last = order[order.len() - 1];
        assert forall|i: int| 0 <= i < front.len() implies #[trigger] front[i] != last
            && !outranks(shortfalls, nodes, last, front[i]) by {
            assert(front.contains(front[i]));
            if front[i] == x {
                assert(order.contains(last));
                assert(!shortfalls[last as int].nan());
                assert(!shortfalls[x as int].nan());
            } else {
                let k = choose|k: int| 0 <= k < shorter.len() && shorter[k] == front[i];
                assert(order[k] == front[i]);
                assert(!outranks(shortfalls, nodes, order[order.len() - 1], order[k]));
            }
        }
        assert forall|i: int, j: int| 0 <= i < j < longer.len() implies !outranks(
            shortfalls,
            nodes,
            #[trigger] longer[j],
            #[trigger] longer[i],
        ) by {
            assert(longer[i] == front[i]);
            if j < front.len() {
                assert(!outranks(shortfalls, nodes, front[j], front[i]));
            }
        }
    }
}

proof fn lemma_order_ranked(shortfalls: Seq<Double>, nodes: Seq<NodeData>, count: nat)
    requires
        count <= usize::MAX,
        count <= shortfalls.len(),
        forall|i: int| 0 <= i < shortfalls.len() ==> !(#[trigger] shortfalls[i]).nan(),
    ensures
        ranked(shortfalls, nodes, order_of(shortfalls, nodes, count)),
    decreases count,
{
    if count > 0 {
        lemma_order_ranked(shortfalls, nodes, (count - 1) as nat);
        lemma_order_names_all(shortfalls, nodes, (count - 1) as nat);
        lemma_queued_in_ranked(
            shortfalls,
            nodes,
            order_of(shortfalls, nodes, (count - 1) as nat),
            (count - 1) as usize,
        );
    }
}

/// What holds in a round of two positions of which the first has at least as much
/// as the second, before a place of the order gets its turn: the first has more,
/// or all that it can have, unless its next turn comes before that of the second.
spec fn keeps_ahead(
    amounts: Seq<u64>,
    ceiling: u64,
    x: int,
    y: int,
    turn_x: int,
    turn_y: int,
    place: int,
) -> bool {
    &&& amounts[y] <= amounts[x]
    &&& if turn_x < turn_y {
        turn_x < place <= turn_y ==> amounts[y] < amounts[x] || amounts[x] >= ceiling
    } else {
        !(turn_y < place <= turn_x) ==> amounts[y] < amounts[x] || amounts[x] >= ceiling
    }
}

proof fn lemma_round_keeps_ahead(
    amounts: Seq<u64>,
    order: Seq<usize>,
    ceiling: u64,
    left: u64,
    place: nat,
    turn_x: int,
    turn_y: int,
)
    requires
        place <= order.len(),
        order.no_duplicates(),
        forall|j: int| 0 <= j < order.len() ==> #[trigger] order[j] < amounts.len(),
        within(amounts, 0, ceiling),
        0 <= turn_x < order.len(),
        0 <= turn_y < order.len(),
        turn_x != turn_y,
        keeps_ahead(
            amounts,
            ceiling,
            order[turn_x] as int,
            order[turn_y] as int,
            turn_x,
            turn_y,
            place as int,
        ),
    ensures
        ({
            let (after, rest) = round(amounts, order, ceiling, left, place);
            &&& after.len() == amounts.len()
            &&& within(after, 0, ceiling)
            &&& after[order[turn_y] as int] <= after[order[turn_x] as int]
            &&& rest > 0 ==> keeps_ahead(
                after,
                ceiling,
                order[turn_x] as int,
                order[turn_y] as int,
                turn_x,
                turn_y,
                0,
            )
        }),
    decreases order.len() - place,
{
    if place < order.len() && left != 0 {
        let z = order[place as int] as int;
        assert(place != turn_x ==> z != order[turn_x] as int);
        assert(place != turn_y ==> z != order[turn_y] as int);
        assert(order[turn_x] < amounts.len() && order[turn_y] < amounts.len());
        assert(amounts[order[turn_x] as int] <= ceiling && amounts[order[turn_y] as int] <= ceiling);
        if amounts[z] < ceiling {
            let next = amounts.update(z, (amounts[z] + 1) as u64);
            lemma_round_keeps_ahead(
                next,
                order,
                ceiling,
                (left - 1) as u64,
                place + 1,
                turn_x,
                turn_y,
            );
        } else {
            lemma_round_keeps_ahead(amounts, order, ceiling, left, place + 1, turn_x, turn_y);
        }
    }
}

proof fn lemma_rounds_keep_ahead(
    amounts: Seq<u64>,
    order: Seq<usize>,
    ceiling: u64,
    left: u64,
    turn_x: int,
    turn_y: int,
)
    requires
        order.no_duplicates(),
        forall|j: int| 0 <= j < order.len() ==> #[trigger] order[j] < amounts.len(),
        within(amounts, 0, ceiling),
        0 <= turn_x < order.len(),
        0 <= turn_y < order.len(),
        turn_x != turn_y,
        keeps_ahead(
            amounts,
            ceiling,
            order[turn_x] as int,
            order[turn_y] as int,
            turn_x,
            turn_y,
            0,
        ),
    ensures
        rounds(amounts, order, ceiling, left)[order[turn_y] as int] <= rounds(
            amounts,
            order,
            ceiling,
            left,
        )[order[turn_x] as int],
    decreases left,
{
    lemma_round_keeps_ahead(amounts, order, ceiling, left, 0, turn_x, turn_y);
    let (after, rest) = round(amounts, order, ceiling, left, 0);
    if rest != 0 && rest < left {
        lemma_rounds_keep_ahead(after, order, ceiling, rest, turn_x, turn_y);
    }
}

/// Whether the arithmetic keeps the order of two numbers when they are cut down to
/// whole ones: the larger one has no fewer whole units, and where it has as many,
/// more is left of it.
pub open spec fn keeps_order(m: Arithmetic) -> bool {
    forall|a: Double, b: Double| #[trigger]
        a.below(b) ==> {
            let whole_a = fpu::wide_integer_of(m, fpu::wide_floor(m, a));
            let whole_b = fpu::wide_integer_of(m, fpu::wide_floor(m, b));
            &&& whole_a <= whole_b
            &&& whole_a == whole_b < u64::MAX ==> fpu::wide_difference(
                m,
                a,
                fpu::double_of(m, whole_a),
            ).below(fpu::wide_difference(m, b, fpu::double_of(m, whole_b)))
        }
}

/// Attention follows priority: where there is enough for all, nobody whose part of
/// the rest is smaller gets more than somebody whose part is larger. The parts are
/// what the priorities come to; a priority twice as high gives a larger part, unless
/// both parts are too small to be told apart. What is needed is that rounding did
/// not make the whole parts come to more than there is: the last ones get less then.
pub proof fn attention_follows_priority(
    m: Arithmetic,
    nodes: Seq<NodeData>,
    budget: u64,
    now: u64,
    x: int,
    y: int,
)
    requires
        keeps_order(m),
        nodes.len() <= usize::MAX,
        nodes.len() <= budget,
        0 <= x < nodes.len(),
        0 <= y < nodes.len(),
        ({
            let rest = (budget - nodes.len()) as u64;
            let shares = shares_of(m, nodes, now);
            let ceiling = ceiling_of(m, budget, nodes.len());
            &&& ideal_of(m, rest, shares[y]).below(ideal_of(m, rest, shares[x]))
            &&& forall|i: int|
                0 <= i < nodes.len() ==> #[trigger] extras_of(m, rest, shares, ceiling)[i]
                    == extra_of(m, rest, shares[i], ceiling)
            &&& forall|i: int|
                0 <= i < nodes.len() ==> !(#[trigger] shortfalls_of(m, rest, shares, ceiling)[i]).nan()
        }),
    ensures
        amounts_of(m, nodes, budget, now)[y] <= amounts_of(m, nodes, budget, now)[x],
{
    let count = nodes.len();
    let ceiling = ceiling_of(m, budget, count);
    let rest = (budget - count) as u64;
    let shares = shares_of(m, nodes, now);
    let extras = extras_of(m, rest, shares, ceiling);
    let gaps = shortfalls_of(m, rest, shares, ceiling);
    let floors = Seq::new(count, |i: int| (ATTENTION_FLOOR + extras[i]) as u64);
    let order = order_of(gaps, nodes, count);
    if budget > count {
        lemma_extras(m, rest, shares, ceiling);
        assert(extras[x] == extra_of(m, rest, shares[x], ceiling));
        assert(extras[y] == extra_of(m, rest, shares[y], ceiling));
        lemma_order_ranked(gaps, nodes, count);
        lemma_order_names_all(gaps, nodes, count);
        assert(order.contains(x as usize) && order.contains(y as usize));
        let turn_x = choose|j: int| 0 <= j < order.len() && order[j] == x as usize;
        let turn_y = choose|j: int| 0 <= j < order.len() && order[j] == y as usize;
        assert(within(floors, 0, ceiling));
        assert(x != y);
        assert(extras[y] <= extras[x]);
        if extras[y] == extras[x] && floors[x] < ceiling {
            assert(gaps[y].below(gaps[x]));
            assert(outranks(gaps, nodes, x as usize, y as usize));
            assert(turn_x < turn_y) by {
                if turn_y < turn_x {
                    assert(!outranks(gaps, nodes, order[turn_x], order[turn_y]));
                }
            }
        }
        let left = (rest - sum_of(extras)) as u64;
        lemma_rounds_keep_ahead(floors, order, ceiling, left, turn_x, turn_y);
    }
}

/// Whether a number is no larger than another one, both being numbers.
pub open spec fn no_more(a: Double, b: Double) -> bool {
    !a.nan() && !b.nan() && a.rank() <= b.rank()
}

/// Whether an arithmetic in double precision is monotone: what is no larger stays so when
/// it becomes a number, turns into an exponential, or is finite and multiplied or divided by
/// the same finite number that is not negative.
pub open spec fn monotone(m: Arithmetic) -> bool {
    &&& forall|a: u64, b: u64|
        a <= b ==> no_more(#[trigger] fpu::double_of(m, a), #[trigger] fpu::double_of(m, b))
    &&& forall|a: Double, b: Double|
        no_more(a, b) ==> no_more(
            #[trigger] fpu::wide_exponential(m, a),
            #[trigger] fpu::wide_exponential(m, b),
        )
    &&& forall|a: Double, b: Double, c: Double|
        no_more(a, b) && a.finite() && b.finite() && c.finite() && (Double { bits: 0 }).below(c)
            ==> no_more(
            #[trigger] fpu::wide_quotient(m, a, c),
            #[trigger] fpu::wide_quotient(m, b, c),
        )
    &&& forall|a: Double, b: Double, c: Double|
        no_more(a, b) && a.finite() && b.finite() && c.finite() && no_more(Double { bits: 0 }, c)
            ==> no_more(
            #[trigger] fpu::wide_product(m, c, a),
            #[trigger] fpu::wide_product(m, c, b),
        )
}

/// Priority does not grow with age: of two entities with the same trust and mass, the one
/// that was changed later has a priority at least as high.
pub proof fn priority_falls_with_age(
    m: Arithmetic,
    e: spec_fn(real) -> real,
    newer: NodeData,
    older: NodeData,
    now: u64,
)
    requires
        monotone(m),
        rounding::rounds(m),
        doubles::rounds_wide(m),
        doubles::exponentiates(m, e),
        newer.trust == older.trust,
        newer.semantic_mass == older.semantic_mass,
        newer.trust.in_unit(),
        newer.semantic_mass.in_unit(),
        older.updated_at_ms <= newer.updated_at_ms,
    ensures
        no_more(priority_of(m, older, now), priority_of(m, newer, now)),
        doubles::wide_value(priority_of(m, older, now)) <= doubles::wide_value(
            priority_of(m, newer, now),
        ),
{
    let zero = Double { bits: 0 };
    doubles::lemma_wide_constants();
    rounding::lemma_constants();
    let (a, b) = (
        fpu::double_of(m, trust::elapsed(now, older.updated_at_ms)),
        fpu::double_of(m, trust::elapsed(now, newer.updated_at_ms)),
    );
    assert(no_more(b, a));
    assert(no_more(a.negated(), b.negated()));
    assert(doubles::wide_rounded(a, trust::elapsed(now, older.updated_at_ms) as real));
    assert(doubles::wide_rounded(b, trust::elapsed(now, newer.updated_at_ms) as real));
    doubles::lemma_negated(a);
    doubles::lemma_negated(b);
    let span = Double { bits: RECENCY_HALF_LIFE_MS };
    doubles::lemma_wide_values_are_ordered(zero, span);
    assert(zero.below(span));
    let (p, q) = (
        fpu::wide_quotient(m, a.negated(), span),
        fpu::wide_quotient(m, b.negated(), span),
    );
    assert(no_more(p, q));
    let (r, s) = (fpu::wide_exponential(m, p), fpu::wide_exponential(m, q));
    assert(no_more(r, s));
    let heft = fpu::wide_product(
        m,
        fpu::widened(m, newer.trust),
        fpu::widened(m, newer.semantic_mass),
    );
    rounding::lemma_in_unit(newer.trust);
    rounding::lemma_in_unit(newer.semantic_mass);
    assert(newer.trust.finite() && newer.semantic_mass.finite());
    rounding::lemma_values_are_ordered(Single { bits: 0 }, newer.trust);
    rounding::lemma_values_are_ordered(newer.trust, Single { bits: 0x3F80_0000 });
    rounding::lemma_values_are_ordered(Single { bits: 0 }, newer.semantic_mass);
    rounding::lemma_values_are_ordered(newer.semantic_mass, Single { bits: 0x3F80_0000 });
    let (x, y) = (rounding::value(newer.trust), rounding::value(newer.semantic_mass));
    assert(0 as real <= x * y <= 1 as real) by (nonlinear_arith)
        requires
            0 as real <= x <= 1 as real,
            0 as real <= y <= 1 as real,
    ;
    assert(doubles::wide_rounded(heft, x * y));
    doubles::lemma_wide_values_are_ordered(zero, heft);
    assert(no_more(zero, heft));
    lemma_settled(m, e, newer, now);
    lemma_settled(m, e, older, now);
    let (low, high) = (fpu::wide_product(m, heft, r), fpu::wide_product(m, heft, s));
    assert(no_more(low, high));
    doubles::lemma_wide_values_are_ordered(priority_of(m, older, now), priority_of(m, newer, now));
}

/// The product of trust, mass and recency is finite where trust and mass are.
proof fn lemma_settled(m: Arithmetic, e: spec_fn(real) -> real, node: NodeData, now: u64)
    requires
        rounding::rounds(m),
        doubles::rounds_wide(m),
        doubles::exponentiates(m, e),
        node.trust.finite(),
        0 as real <= rounding::value(node.trust) <= 1 as real,
        node.semantic_mass.finite(),
        0 as real <= rounding::value(node.semantic_mass) <= 1 as real,
    ensures
        ({
            let recency = fpu::wide_exponential(
                m,
                fpu::wide_quotient(
                    m,
                    fpu::double_of(m, trust::elapsed(now, node.updated_at_ms)).negated(),
                    Double { bits: RECENCY_HALF_LIFE_MS },
                ),
            );
            let heft = fpu::wide_product(
                m,
                fpu::widened(m, node.trust),
                fpu::widened(m, node.semantic_mass),
            );
            &&& heft.finite() && recency.finite()
            &&& fpu::wide_product(m, heft, recency).finite()
        }),
{
    doubles::lemma_wide_constants();
    let age = trust::elapsed(now, node.updated_at_ms);
    let span = Double { bits: RECENCY_HALF_LIFE_MS };
    doubles::lemma_time_ratio(m, age, span);
    let a = fpu::wide_quotient(m, fpu::double_of(m, age).negated(), span);
    assert(age as real / 604800000 as real <= 31000000000 as real);
    doubles::lemma_decay(m, e, a, -(age as real / 604800000 as real));
    let (x, y) = (rounding::value(node.trust), rounding::value(node.semantic_mass));
    assert(0 as real <= x * y <= 1 as real) by (nonlinear_arith)
        requires
            0 as real <= x <= 1 as real,
            0 as real <= y <= 1 as real,
    ;
    let heft = fpu::wide_product(
        m,
        fpu::widened(m, node.trust),
        fpu::widened(m, node.semantic_mass),
    );
    assert(doubles::wide_rounded(heft, x * y));
    let recency = fpu::wide_exponential(m, a);
    let (h, r) = (doubles::wide_value(heft), doubles::wide_value(recency));
    let w = doubles::wide_slip();
    assert(w * (x * y) <= 1 as real) by (nonlinear_arith)
        requires
            w == 1 as real / 9007199254740992 as real,
            0 as real <= x * y <= 1 as real,
    ;
    assert(0 as real <= h * r <= 10 as real) by (nonlinear_arith)
        requires
            0 as real <= h <= 3 as real,
            0 as real <= r <= 2 as real,
    ;
    assert(doubles::wide_rounded(fpu::wide_product(m, heft, recency), h * r));
}

/// What holds in a round of two positions of which the first has at least as much as the
/// second when the round begins, before a place of the order gets its turn.
spec fn keeps_level(
    amounts: Seq<u64>,
    ceiling: u64,
    x: int,
    y: int,
    turn_x: int,
    turn_y: int,
    place: int,
) -> bool {
    if turn_x < turn_y && turn_x < place <= turn_y {
        amounts[y] < amounts[x] || amounts[x] >= ceiling
    } else if turn_y < turn_x && turn_y < place <= turn_x {
        amounts[y] <= amounts[x] + 1
    } else {
        amounts[y] <= amounts[x]
    }
}

proof fn lemma_round_keeps_level(
    amounts: Seq<u64>,
    order: Seq<usize>,
    ceiling: u64,
    left: u64,
    place: nat,
    turn_x: int,
    turn_y: int,
)
    requires
        place <= order.len(),
        order.no_duplicates(),
        forall|j: int| 0 <= j < order.len() ==> #[trigger] order[j] < amounts.len(),
        within(amounts, 0, ceiling),
        0 <= turn_x < order.len(),
        0 <= turn_y < order.len(),
        turn_x != turn_y,
        keeps_level(
            amounts,
            ceiling,
            order[turn_x] as int,
            order[turn_y] as int,
            turn_x,
            turn_y,
            place as int,
        ),
    ensures
        ({
            let (after, rest) = round(amounts, order, ceiling, left, place);
            &&& after.len() == amounts.len()
            &&& within(after, 0, ceiling)
            &&& after[order[turn_y] as int] <= after[order[turn_x] as int] + 1
            &&& rest > 0 ==> after[order[turn_y] as int] <= after[order[turn_x] as int]
        }),
    decreases order.len() - place,
{
    assert(order[turn_x] < amounts.len() && order[turn_y] < amounts.len());
    assert(amounts[order[turn_x] as int] <= ceiling && amounts[order[turn_y] as int] <= ceiling);
    if place < order.len() && left != 0 {
        let z = order[place as int] as int;
        assert(place != turn_x ==> z != order[turn_x] as int);
        assert(place != turn_y ==> z != order[turn_y] as int);
        if amounts[z] < ceiling {
            let next = amounts.update(z, (amounts[z] + 1) as u64);
            lemma_round_keeps_level(
                next,
                order,
                ceiling,
                (left - 1) as u64,
                place + 1,
                turn_x,
                turn_y,
            );
        } else {
            lemma_round_keeps_level(amounts, order, ceiling, left, place + 1, turn_x, turn_y);
        }
    }
}

proof fn lemma_rounds_keep_level(
    amounts: Seq<u64>,
    order: Seq<usize>,
    ceiling: u64,
    left: u64,
    turn_x: int,
    turn_y: int,
)
    requires
        order.no_duplicates(),
        forall|j: int| 0 <= j < order.len() ==> #[trigger] order[j] < amounts.len(),
        within(amounts, 0, ceiling),
        0 <= turn_x < order.len(),
        0 <= turn_y < order.len(),
        turn_x != turn_y,
        amounts[order[turn_y] as int] <= amounts[order[turn_x] as int],
    ensures
        rounds(amounts, order, ceiling, left)[order[turn_y] as int] <= rounds(
            amounts,
            order,
            ceiling,
            left,
        )[order[turn_x] as int] + 1,
    decreases left,
{
    lemma_round_keeps_level(amounts, order, ceiling, left, 0, turn_x, turn_y);
    let (after, rest) = round(amounts, order, ceiling, left, 0);
    if rest != 0 && rest < left {
        lemma_rounds_keep_level(after, order, ceiling, rest, turn_x, turn_y);
    }
}

/// Attention does not grow with age: where there is enough for all, an entity gets at least
/// as much attention as one with the same trust and mass that was changed earlier, but for
/// the one unit by which those whose parts are the same may differ.
pub proof fn attention_falls_with_age(
    m: Arithmetic,
    e: spec_fn(real) -> real,
    nodes: Seq<NodeData>,
    budget: u64,
    now: u64,
    x: int,
    y: int,
)
    requires
        monotone(m),
        rounding::rounds(m),
        doubles::rounds_wide(m),
        doubles::exponentiates(m, e),
        nodes.len() <= usize::MAX,
        nodes.len() <= budget,
        0 <= x < nodes.len(),
        0 <= y < nodes.len(),
        x != y,
        nodes[x].trust == nodes[y].trust,
        nodes[x].semantic_mass == nodes[y].semantic_mass,
        nodes[x].trust.in_unit(),
        nodes[x].semantic_mass.in_unit(),
        nodes[y].updated_at_ms <= nodes[x].updated_at_ms,
        ({
            let rest = (budget - nodes.len()) as u64;
            let shares = shares_of(m, nodes, now);
            let ceiling = ceiling_of(m, budget, nodes.len());
            &&& wide_total(m, priorities_of(m, nodes, now)).finite()
            &&& shares[x].finite() && shares[y].finite()
            &&& ideal_of(m, rest, shares[x]).finite() && ideal_of(m, rest, shares[y]).finite()
            &&& forall|i: int|
                0 <= i < nodes.len() ==> #[trigger] extras_of(m, rest, shares, ceiling)[i]
                    == extra_of(m, rest, shares[i], ceiling)
            &&& forall|i: int|
                0 <= i < nodes.len() ==> !(#[trigger] shortfalls_of(m, rest, shares, ceiling)[i]).nan()
        }),
    ensures
        amounts_of(m, nodes, budget, now)[y] <= amounts_of(m, nodes, budget, now)[x] + 1,
        ideal_of(m, (budget - nodes.len()) as u64, shares_of(m, nodes, now)[y]).rank() <= ideal_of(
            m,
            (budget - nodes.len()) as u64,
            shares_of(m, nodes, now)[x],
        ).rank(),
{
    let count = nodes.len();
    let ceiling = ceiling_of(m, budget, count);
    let rest = (budget - count) as u64;
    let shares = shares_of(m, nodes, now);
    let extras = extras_of(m, rest, shares, ceiling);
    let gaps = shortfalls_of(m, rest, shares, ceiling);
    let floors = Seq::new(count, |i: int| (ATTENTION_FLOOR + extras[i]) as u64);
    let order = order_of(gaps, nodes, count);
    let total = wide_total(m, priorities_of(m, nodes, now));
    let zero = Double { bits: 0 };
    priority_falls_with_age(m, e, nodes[x], nodes[y], now);
    if !total.below(Double { bits: NEGLIGIBLE_PRIORITY }) {
        assert(zero.below(total));
        assert(no_more(shares[y], shares[x]));
    }
    doubles::lemma_wide_constants();
    let r = fpu::double_of(m, rest);
    assert(doubles::wide_rounded(r, rest as real));
    doubles::lemma_wide_values_are_ordered(zero, r);
    assert(no_more(zero, r));
    let (a, b) = (ideal_of(m, rest, shares[y]), ideal_of(m, rest, shares[x]));
    assert(a.rank() <= b.rank());
    doubles::lemma_wide_values_are_ordered(a, b);
    if budget > count {
        lemma_extras(m, rest, shares, ceiling);
        assert(extras[x] == extra_of(m, rest, shares[x], ceiling));
        assert(extras[y] == extra_of(m, rest, shares[y], ceiling));
        assert(doubles::cut_down(
            fpu::wide_integer_of(m, fpu::wide_floor(m, a)),
            doubles::wide_value(a),
        ));
        assert(doubles::cut_down(
            fpu::wide_integer_of(m, fpu::wide_floor(m, b)),
            doubles::wide_value(b),
        ));
        assert(extras[y] <= extras[x]);
        lemma_order_ranked(gaps, nodes, count);
        lemma_order_names_all(gaps, nodes, count);
        assert(order.contains(x as usize) && order.contains(y as usize));
        let turn_x = choose|j: int| 0 <= j < order.len() && order[j] == x as usize;
        let turn_y = choose|j: int| 0 <= j < order.len() && order[j] == y as usize;
        assert(within(floors, 0, ceiling));
        let left = (rest - sum_of(extras)) as u64;
        lemma_rounds_keep_level(floors, order, ceiling, left, turn_x, turn_y);
    }
}

/// Where no identifier occurs twice, the allocation gives each entity its
/// amount, and nobody else any.
pub proof fn allocation_names_each_entity(nodes: Seq<NodeData>, amounts: Seq<u64>)
    requires
        nodes.len() == amounts.len(),
        forall|i: int, j: int|
            0 <= i < j < nodes.len() ==> (#[trigger] nodes[i]).orb_id != (
            #[trigger] nodes[j]).orb_id,
    ensures
        forall|i: int|
            0 <= i < nodes.len() ==> by_id(nodes, amounts).contains_key(
                (#[trigger] nodes[i]).orb_id,
            ) && by_id(nodes, amounts)[nodes[i].orb_id] == amounts[i],
        forall|id: u128| #[trigger]
            by_id(nodes, amounts).contains_key(id) ==> exists|i: int|
                0 <= i < nodes.len() && (#[trigger] nodes[i]).orb_id == id,
    decreases nodes.len(),
{
    if nodes.len() > 0 {
        let fewer = nodes.drop_last();
        assert forall|i: int, j: int| 0 <= i < j < fewer.len() implies (
        #[trigger] fewer[i]).orb_id != (#[trigger] fewer[j]).orb_id by {
            assert(nodes[i].orb_id != nodes[j].orb_id);
        }
        allocation_names_each_entity(fewer, amounts.drop_last());
        let last = nodes.len() - 1;
        assert forall|i: int| 0 <= i < nodes.len() implies by_id(nodes, amounts).contains_key(
            (#[trigger] nodes[i]).orb_id,
        ) && by_id(nodes, amounts)[nodes[i].orb_id] == amounts[i] by {
            if i < last {
                assert(fewer[i] == nodes[i]);
                assert(nodes[i].orb_id != nodes[last].orb_id);
            }
        }
        assert forall|id: u128| #[trigger] by_id(nodes, amounts).contains_key(id) implies exists|
            i: int,
        |
            0 <= i < nodes.len() && (#[trigger] nodes[i]).orb_id == id by {
            if id == nodes[last].orb_id {
            } else {
                assert(by_id(fewer, amounts.drop_last()).contains_key(id));
                let i = choose|i: int| 0 <= i < fewer.len() && (#[trigger] fewer[i]).orb_id == id;
                assert(nodes[i].orb_id == id);
            }
        }
    }
}

/// The exact sum of a list.
pub open spec fn wide_plus(values: Seq<Double>) -> real
    decreases values.len(),
{
    if values.len() == 0 {
        0 as real
    } else {
        wide_plus(values.drop_last()) + doubles::wide_value(values.last())
    }
}

/// How far a sum of so many numbers can be off.
spec fn wide_error(n: real, exact: real) -> real {
    n * (exact / 4000000000000000 as real + 2 as real * doubles::wide_speck())
}

proof fn lemma_wide_step(total: real, exact: real, x: real, next: real, n: real)
    requires
        0 as real <= n <= 4000000 as real,
        exact >= 0 as real,
        x >= 0 as real,
        exact + x <= 10000000000000000000000000000000000 as real,
        rounding::size(total - exact) <= wide_error(n, exact),
        rounding::size(next - (total + x)) <= doubles::wide_slip() * rounding::size(total + x)
            + doubles::wide_speck(),
    ensures
        rounding::size(next - (exact + x)) <= wide_error(n + 1 as real, exact + x),
{
    let w = doubles::wide_slip();
    let t = doubles::wide_speck();
    let p = exact + x;
    let e = wide_error(n, exact);
    let f = wide_error(n, p);
    assert(e <= f) by (nonlinear_arith)
        requires
            e == n * (exact / 4000000000000000 as real + 2 as real * t),
            f == n * (p / 4000000000000000 as real + 2 as real * t),
            n >= 0 as real,
            exact <= p,
    ;
    assert(0 as real <= f <= p / 1000000000 as real + 8000000 as real * t) by (nonlinear_arith)
        requires
            f == n * (p / 4000000000000000 as real + 2 as real * t),
            0 as real <= n <= 4000000 as real,
            p >= 0 as real,
            t >= 0 as real,
    ;
    let y = rounding::size(total + x);
    assert(w * y == y / 9007199254740992 as real) by (nonlinear_arith)
        requires
            w == 1 as real / 9007199254740992 as real,
    ;
    let g = wide_error(n + 1 as real, p);
    assert(g == f + p / 4000000000000000 as real + 2 as real * t) by (nonlinear_arith)
        requires
            g == (n + 1 as real) * (p / 4000000000000000 as real + 2 as real * t),
            f == n * (p / 4000000000000000 as real + 2 as real * t),
    ;
}

proof fn lemma_wide_total(m: Arithmetic, values: Seq<Double>)
    requires
        doubles::rounds_wide(m),
        rounding::countable(values.len()),
        forall|i: int|
            0 <= i < values.len() ==> (#[trigger] values[i]).finite() && doubles::wide_value(
                values[i],
            ) >= 0 as real,
        wide_plus(values) <= 10000000000000000000000000000000000 as real,
    ensures
        wide_total(m, values).finite(),
        wide_plus(values) >= 0 as real,
        rounding::size(doubles::wide_value(wide_total(m, values)) - wide_plus(values)) <= wide_error(
            values.len() as real,
            wide_plus(values),
        ),
    decreases values.len(),
{
    doubles::lemma_wide_constants();
    if values.len() == 0 {
        let t = doubles::wide_speck();
        assert(wide_error(0 as real, 0 as real) == 0 as real) by (nonlinear_arith)
            requires
                wide_error(0 as real, 0 as real) == 0 as real * (0 as real / 4000000000000000 as real
                    + 2 as real * t),
        ;
    } else {
        let shorter = values.drop_last();
        assert forall|i: int| 0 <= i < shorter.len() implies (#[trigger] shorter[i]).finite()
            && doubles::wide_value(shorter[i]) >= 0 as real by {
            assert(shorter[i] == values[i]);
        }
        let last = values[values.len() - 1];
        assert(last.finite() && doubles::wide_value(last) >= 0 as real);
        lemma_wide_total(m, shorter);
        let exact = wide_plus(shorter);
        let x = doubles::wide_value(last);
        let before = wide_total(m, shorter);
        let total = doubles::wide_value(before);
        let n = shorter.len() as real;
        let e = wide_error(n, exact);
        let t = doubles::wide_speck();
        assert(e <= exact / 1000000000 as real + 8000000 as real * t) by (nonlinear_arith)
            requires
                e == n * (exact / 4000000000000000 as real + 2 as real * t),
                0 as real <= n <= 4000000 as real,
                exact >= 0 as real,
                t >= 0 as real,
        ;
        let next = fpu::wide_sum(m, before, last);
        assert(doubles::wide_rounded(next, total + x));
        lemma_wide_step(total, exact, x, doubles::wide_value(next), n);
        assert(values.len() as real == n + 1 as real);
    }
}

/// A quotient of two numbers, of which the lower one is close to an exact one.
proof fn lemma_part_of_total(a: real, total: real, exact: real, q: real)
    requires
        0 as real <= a <= exact,
        2 as real / 10000000000 as real <= exact,
        rounding::size(total - exact) <= exact / 100000000 as real,
        rounding::size(q - a / total) <= doubles::wide_slip() * rounding::size(a / total)
            + doubles::wide_speck(),
    ensures
        rounding::size(q * exact - a) <= a / 1000000 as real + exact
            / 1000000000000000000000000000000 as real,
{
    let w = doubles::wide_slip();
    let t = doubles::wide_speck();
    let r = a / total;
    assert(r * total == a && r >= 0 as real) by (nonlinear_arith)
        requires
            r == a / total,
            total > 0 as real,
            a >= 0 as real,
    ;
    let rx = r * exact;
    let d = exact - total;
    assert(rx == a + r * d && rx >= 0 as real) by (nonlinear_arith)
        requires
            rx == r * exact,
            r * total == a,
            d == exact - total,
            r >= 0 as real,
            exact > 0 as real,
    ;
    assert(-(rx / 100000000 as real) <= r * d <= rx / 100000000 as real) by (nonlinear_arith)
        requires
            rx == r * exact,
            -(exact / 100000000 as real) <= d <= exact / 100000000 as real,
            r >= 0 as real,
    ;
    let z = q - r;
    assert(w * r == r / 9007199254740992 as real) by (nonlinear_arith)
        requires
            w == 1 as real / 9007199254740992 as real,
    ;
    let b = r / 9007199254740992 as real + t;
    assert(-(b * exact) <= z * exact <= b * exact) by (nonlinear_arith)
        requires
            -b <= z <= b,
            exact > 0 as real,
    ;
    assert(q * exact == rx + z * exact) by (nonlinear_arith)
        requires
            z == q - r,
            rx == r * exact,
    ;
    assert(b * exact == rx / 9007199254740992 as real + t * exact) by (nonlinear_arith)
        requires
            b == r / 9007199254740992 as real + t,
            rx == r * exact,
    ;
    assert(t * exact <= exact / 10000000000000000000000000000000000000000 as real) by (
        nonlinear_arith)
        requires
            t == 1 as real / 10000000000000000000000000000000000000000 as real,
            exact > 0 as real,
    ;
}

/// A share is what a priority makes up of all priorities: times their exact sum it gives the
/// priority back, but for rounding. Where the priorities come to next to nothing, all shares
/// are the same.
pub proof fn shares_follow_priorities(m: Arithmetic, nodes: Seq<NodeData>, now: u64, i: int)
    requires
        doubles::rounds_wide(m),
        rounding::countable(nodes.len()),
        nodes.len() <= usize::MAX,
        0 <= i < nodes.len(),
        wide_plus(priorities_of(m, nodes, now)) <= 10000000000000000000000000000000000 as real,
    ensures
        ({
            let all = wide_plus(priorities_of(m, nodes, now));
            let own = doubles::wide_value(priority_of(m, nodes[i], now));
            let share = shares_of(m, nodes, now)[i];
            &&& all >= 2 as real / 10000000000 as real ==> share.finite() && rounding::size(
                doubles::wide_value(share) * all - own,
            ) <= own / 1000000 as real + all / 1000000000000000000000000000000 as real
            &&& all <= 5 as real / 100000000000 as real ==> forall|j: int|
                0 <= j < nodes.len() ==> #[trigger] shares_of(m, nodes, now)[j] == share
        }),
{
    doubles::lemma_wide_constants();
    let priorities = priorities_of(m, nodes, now);
    let zero = Double { bits: 0 };
    assert forall|k: int| 0 <= k < priorities.len() implies (#[trigger] priorities[k]).finite()
        && doubles::wide_value(priorities[k]) >= 0 as real by {
        doubles::lemma_wide_values_are_ordered(zero, priorities[k]);
    }
    lemma_wide_total(m, priorities);
    let total = wide_total(m, priorities);
    let exact = wide_plus(priorities);
    let n = nodes.len() as real;
    let e = wide_error(n, exact);
    let t = doubles::wide_speck();
    assert(e <= exact / 1000000000 as real + 8000000 as real * t) by (nonlinear_arith)
        requires
            e == n * (exact / 4000000000000000 as real + 2 as real * t),
            0 as real <= n <= 4000000 as real,
            exact >= 0 as real,
            t >= 0 as real,
    ;
    let least = Double { bits: NEGLIGIBLE_PRIORITY };
    doubles::lemma_wide_values_are_ordered(total, least);
    let own = doubles::wide_value(priorities[i]);
    if exact >= 2 as real / 10000000000 as real {
        lemma_one_of_all(priorities, i);
        let tv = doubles::wide_value(total);
        assert(!total.below(least));
        let r = own / tv;
        assert(0 as real <= r <= 2 as real) by (nonlinear_arith)
            requires
                r == own / tv,
                0 as real <= own <= exact,
                tv >= exact / 2 as real,
                exact > 0 as real,
        ;
        let share = shares_of(m, nodes, now)[i];
        assert(share == fpu::wide_quotient(m, priorities[i], total));
        assert(doubles::wide_rounded(share, r));
        lemma_part_of_total(own, tv, exact, doubles::wide_value(share));
    }
    if exact <= 5 as real / 100000000000 as real {
        assert(total.below(least));
    }
}

proof fn lemma_one_of_all(values: Seq<Double>, i: int)
    requires
        0 <= i < values.len(),
        forall|k: int|
            0 <= k < values.len() ==> doubles::wide_value(#[trigger] values[k]) >= 0 as real,
    ensures
        doubles::wide_value(values[i]) <= wide_plus(values),
        wide_plus(values) >= 0 as real,
    decreases values.len(),
{
    let shorter = values.drop_last();
    assert(doubles::wide_value(values[values.len() - 1]) >= 0 as real);
    if shorter.len() > 0 {
        assert forall|k: int| 0 <= k < shorter.len() implies doubles::wide_value(
            #[trigger] shorter[k],
        ) >= 0 as real by {
            assert(shorter[k] == values[k]);
        }
        if i < shorter.len() {
            lemma_one_of_all(shorter, i);
            assert(shorter[i] == values[i]);
        } else {
            lemma_one_of_all(shorter, 0);
        }
    } else {
        assert(wide_plus(shorter) == 0 as real);
    }
}

/// Nobody gets much more than a fifth of the budget, unless it takes more to hand out all of
/// it or there is less than the least amount.
pub proof fn ceilings_keep_singularities_away(m: Arithmetic, budget: u64, count: nat)
    requires
        rounding::rounds(m),
        doubles::rounds_wide(m),
        count > 0,
        budget + count - 1 <= u64::MAX,
    ensures
        ({
            let ceiling = ceiling_of(m, budget, count) as real;
            let fifth = budget as real / 5 as real;
            let even = ((budget + count - 1) / count as int) as real;
            &&& ceiling >= 1 as real && ceiling >= even && ceiling >= fifth * 999999 as real
                / 1000000 as real - 1 as real - 1 as real / 1000000 as real
            &&& ceiling <= 1 as real || ceiling <= even || ceiling <= fifth * 1000001 as real
                / 1000000 as real + 1 as real / 1000000 as real
        }),
{
    rounding::lemma_single_share();
    let share = Single { bits: SINGULARITY_CAP };
    let w = doubles::wide_slip();
    let t = doubles::wide_speck();
    let n = budget as real;
    let number = fpu::double_of(m, budget);
    assert(doubles::wide_rounded(number, n));
    assert(w * n == n / 9007199254740992 as real) by (nonlinear_arith)
        requires
            w == 1 as real / 9007199254740992 as real,
    ;
    let x = doubles::wide_value(number);
    let c = doubles::wide_value(fpu::widened(m, share));
    assert(share.finite());
    assert(c == 13421773 as real / 67108864 as real);
    let exact = x * c;
    assert(exact == x * 13421773 as real / 67108864 as real) by (nonlinear_arith)
        requires
            exact == x * c,
            c == 13421773 as real / 67108864 as real,
    ;
    let product = fpu::wide_product(m, number, fpu::widened(m, share));
    assert(doubles::wide_rounded(product, exact));
    assert(w * exact == exact / 9007199254740992 as real) by (nonlinear_arith)
        requires
            w == 1 as real / 9007199254740992 as real,
    ;
    let y = doubles::wide_value(product);
    assert(doubles::cut_down(fpu::wide_integer_of(m, product), y));
    let even = (budget + count - 1) / count as int;
    assert(0 <= even <= budget + count - 1) by (nonlinear_arith)
        requires
            even == (budget + count - 1) / count as int,
            count > 0,
            budget >= 0,
    ;
}

proof fn lemma_round_only_adds(
    amounts: Seq<u64>,
    order: Seq<usize>,
    ceiling: u64,
    left: u64,
    place: nat,
    x: int,
)
    requires
        place <= order.len(),
        forall|j: int| 0 <= j < order.len() ==> #[trigger] order[j] < amounts.len(),
        0 <= x < amounts.len(),
    ensures
        round(amounts, order, ceiling, left, place).0.len() == amounts.len(),
        round(amounts, order, ceiling, left, place).0[x] >= amounts[x],
    decreases order.len() - place,
{
    if place < order.len() && left != 0 {
        let z = order[place as int] as int;
        if amounts[z] < ceiling {
            lemma_round_only_adds(
                amounts.update(z, (amounts[z] + 1) as u64),
                order,
                ceiling,
                (left - 1) as u64,
                place + 1,
                x,
            );
        } else {
            lemma_round_only_adds(amounts, order, ceiling, left, place + 1, x);
        }
    }
}

proof fn lemma_rounds_only_add(
    amounts: Seq<u64>,
    order: Seq<usize>,
    ceiling: u64,
    left: u64,
    x: int,
)
    requires
        forall|j: int| 0 <= j < order.len() ==> #[trigger] order[j] < amounts.len(),
        0 <= x < amounts.len(),
    ensures
        rounds(amounts, order, ceiling, left)[x] >= amounts[x],
    decreases left,
{
    lemma_round_only_adds(amounts, order, ceiling, left, 0, x);
    let (after, rest) = round(amounts, order, ceiling, left, 0);
    if rest != 0 && rest < left {
        lemma_rounds_only_add(after, order, ceiling, rest, x);
    }
}

/// Everybody gets at least its share of what is left once all have the least amount, but for
/// rounding and as far as the ceiling lets it. What is needed is that rounding did not make
/// the whole parts come to more than there is: the last ones get less then.
pub proof fn attention_honours_shares(
    m: Arithmetic,
    nodes: Seq<NodeData>,
    budget: u64,
    now: u64,
    i: int,
)
    requires
        doubles::rounds_wide(m),
        nodes.len() <= usize::MAX,
        nodes.len() < budget,
        budget + nodes.len() - 1 <= u64::MAX,
        0 <= i < nodes.len(),
        ({
            let rest = (budget - nodes.len()) as u64;
            let shares = shares_of(m, nodes, now);
            let ceiling = ceiling_of(m, budget, nodes.len());
            &&& shares[i].finite() && 0 as real <= doubles::wide_value(shares[i]) <= 2 as real
            &&& extras_of(m, rest, shares, ceiling)[i] == extra_of(m, rest, shares[i], ceiling)
        }),
    ensures
        ({
            let part = (budget - nodes.len()) as real * doubles::wide_value(
                shares_of(m, nodes, now)[i],
            );
            amounts_of(m, nodes, budget, now)[i] as real >= rounding::least(
                ceiling_of(m, budget, nodes.len()) as real,
                part * 999999 as real / 1000000 as real - 1 as real / 1000000 as real,
            )
        }),
{
    let count = nodes.len();
    let ceiling = ceiling_of(m, budget, count);
    let rest = (budget - count) as u64;
    let shares = shares_of(m, nodes, now);
    let extras = extras_of(m, rest, shares, ceiling);
    let gaps = shortfalls_of(m, rest, shares, ceiling);
    let floors = Seq::new(count, |k: int| (ATTENTION_FLOOR + extras[k]) as u64);
    let order = order_of(gaps, nodes, count);
    lemma_extras(m, rest, shares, ceiling);
    lemma_order_names_all(gaps, nodes, count);
    lemma_ceiling_suffices(m, budget, count);
    let left = (rest - sum_of(extras)) as u64;
    assert forall|j: int| 0 <= j < order.len() implies #[trigger] order[j] < floors.len() by {
        assert(order.contains(order[j]));
    }
    lemma_rounds_only_add(floors, order, ceiling, left, i);
    let w = doubles::wide_slip();
    let n = rest as real;
    let number = fpu::double_of(m, rest);
    assert(doubles::wide_rounded(number, n));
    assert(w * n == n / 9007199254740992 as real) by (nonlinear_arith)
        requires
            w == 1 as real / 9007199254740992 as real,
    ;
    let x = doubles::wide_value(number);
    let v = doubles::wide_value(shares[i]);
    let exact = x * v;
    let part = n * v;
    assert(part * 9999999 as real / 10000000 as real - 1 as real / 10000000 as real <= exact && 0 as real
        <= exact <= 100000000000000000000 as real) by (nonlinear_arith)
        requires
            exact == x * v,
            part == n * v,
            0 as real <= v <= 2 as real,
            n * 9999999 as real / 10000000 as real - 1 as real / 100000000 as real <= x,
            0 as real <= x <= 20000000000000000000 as real,
            n >= 0 as real,
    ;
    let ideal = ideal_of(m, rest, shares[i]);
    assert(doubles::wide_rounded(ideal, exact));
    assert(w * exact == exact / 9007199254740992 as real) by (nonlinear_arith)
        requires
            w == 1 as real / 9007199254740992 as real,
    ;
    let y = doubles::wide_value(ideal);
    let whole = fpu::wide_integer_of(m, fpu::wide_floor(m, ideal));
    assert(doubles::cut_down(whole, y));
    assert(extras[i] <= ceiling - ATTENTION_FLOOR);
    assert(floors[i] == 1 + extras[i]);
    assert(y >= part * 999999 as real / 1000000 as real - 1 as real / 1000000 as real);
}

} // verus!
