//! Sums over lists of numbers, in the order in which they stand.

use vstd::prelude::*;

use crate::float::Single;
use crate::fpu;
use crate::fpu::{Arithmetic, Flop, Fpu};

verus! {

/// The running sum of a list, from the left, starting at zero.
pub open spec fn total(m: Arithmetic, values: Seq<Single>) -> Single
    decreases values.len(),
{
    if values.len() == 0 {
        Single { bits: 0 }
    } else {
        fpu::sum(m, total(m, values.drop_last()), values.last())
    }
}

/// The products of two lists, component by component, as far as both reach.
pub open spec fn products(m: Arithmetic, a: Seq<Single>, b: Seq<Single>) -> Seq<Single> {
    Seq::new(
        if a.len() <= b.len() {
            a.len()
        } else {
            b.len()
        },
        |i: int| fpu::product(m, a[i], b[i]),
    )
}

/// The inner product of two lists.
pub open spec fn inner(m: Arithmetic, a: Seq<Single>, b: Seq<Single>) -> Single {
    total(m, products(m, a, b))
}

/// The Euclidean length of a list.
pub open spec fn length(m: Arithmetic, values: Seq<Single>) -> Single {
    fpu::root(m, inner(m, values, values))
}

/// The differences of two lists, component by component, as far as both reach.
pub open spec fn differences(m: Arithmetic, a: Seq<Single>, b: Seq<Single>) -> Seq<Single> {
    Seq::new(
        if a.len() <= b.len() {
            a.len()
        } else {
            b.len()
        },
        |i: int| fpu::difference(m, a[i], b[i]),
    )
}

/// A sum grows by one term at a time.
pub proof fn lemma_total_step(m: Arithmetic, values: Seq<Single>, i: int)
    requires
        0 <= i < values.len(),
    ensures
        total(m, values.take(i + 1)) == fpu::sum(m, total(m, values.take(i)), values[i]),
{
    assert(values.take(i + 1).drop_last() =~= values.take(i));
    assert(values.take(i + 1).last() == values[i]);
}

/// The sum of a list.
pub fn sum_of<F: Fn(Flop) -> u64>(fpu: &Fpu<F>, values: &[Single]) -> (result: Single)
    ensures
        result == total(fpu@, values@),
{
    let mut acc = Single::zero();
    let mut i: usize = 0;
    while i < values.len()
        invariant
            i <= values@.len(),
            acc == total(fpu@, values@.take(i as int)),
        decreases values@.len() - i,
    {
        proof {
            lemma_total_step(fpu@, values@, i as int);
        }
        acc = fpu.add(acc, values[i]);
        i += 1;
    }
    assert(values@.take(i as int) =~= values@);
    acc
}

/// The inner product of two lists.
pub fn inner_of<F: Fn(Flop) -> u64>(fpu: &Fpu<F>, a: &[Single], b: &[Single]) -> (result: Single)
    ensures
        result == inner(fpu@, a@, b@),
{
    let ghost terms = products(fpu@, a@, b@);
    let mut acc = Single::zero();
    let mut i: usize = 0;
    while i < a.len() && i < b.len()
        invariant
            i <= a@.len(),
            i <= b@.len(),
            terms == products(fpu@, a@, b@),
            acc == total(fpu@, terms.take(i as int)),
        decreases a@.len() - i,
    {
        proof {
            lemma_total_step(fpu@, terms, i as int);
        }
        acc = fpu.add(acc, fpu.mul(a[i], b[i]));
        i += 1;
    }
    assert(terms.take(i as int) =~= terms);
    acc
}

/// The Euclidean length of a list.
pub fn l2_norm<F: Fn(Flop) -> u64>(fpu: &Fpu<F>, v: &[Single]) -> (result: Single)
    ensures
        result == length(fpu@, v@),
{
    fpu.sqrt(inner_of(fpu, v, v))
}

/// The differences of two lists, component by component, as far as both reach.
pub fn differences_of<F: Fn(Flop) -> u64>(fpu: &Fpu<F>, a: &[Single], b: &[Single]) -> (result: Vec<
    Single,
>)
    ensures
        result@ == differences(fpu@, a@, b@),
{
    let ghost want = differences(fpu@, a@, b@);
    let mut result: Vec<Single> = Vec::new();
    let mut i: usize = 0;
    while i < a.len() && i < b.len()
        invariant
            i <= a@.len(),
            i <= b@.len(),
            want == differences(fpu@, a@, b@),
            result@ == want.take(i as int),
        decreases a@.len() - i,
    {
        result.push(fpu.sub(a[i], b[i]));
        assert(result@ =~= want.take(i + 1));
        i += 1;
    }
    assert(want.take(i as int) =~= want);
    result
}

/// A sum of zeros is zero, where zero and zero make zero.
pub proof fn lemma_total_of_zeros(m: Arithmetic, values: Seq<Single>)
    requires
        forall|i: int| 0 <= i < values.len() ==> #[trigger] values[i] == (Single { bits: 0 }),
        fpu::sum(m, Single { bits: 0 }, Single { bits: 0 }) == (Single { bits: 0 }),
    ensures
        total(m, values) == (Single { bits: 0 }),
    decreases values.len(),
{
    if values.len() > 0 {
        assert forall|i: int| 0 <= i < values.drop_last().len() implies #[trigger] values.drop_last()[i]
            == (Single { bits: 0 }) by {
            assert(values[i] == (Single { bits: 0 }));
        }
        lemma_total_of_zeros(m, values.drop_last());
        assert(values[values.len() - 1] == (Single { bits: 0 }));
    }
}

/// A copy of a list of numbers.
pub fn copy_numbers(values: &Vec<Single>) -> (copy: Vec<Single>)
    ensures
        copy@ == values@,
{
    let mut copy: Vec<Single> = Vec::new();
    let mut i: usize = 0;
    while i < values.len()
        invariant
            i <= values@.len(),
            copy@ == values@.take(i as int),
        decreases values@.len() - i,
    {
        copy.push(values[i]);
        assert(copy@ =~= values@.take(i + 1));
        i += 1;
    }
    assert(values@.take(i as int) =~= values@);
    copy
}

} // verus!
