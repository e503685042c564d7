//! Beliefs as Dirichlet-distributed probability fields.

use vstd::prelude::*;

use crate::doubles;
use crate::error::PiriaError;
use crate::float::{Single, SINGLE_ONE};
use crate::fpu;
use crate::fpu::{Arithmetic, Flop, Fpu};
use crate::numeric;
use crate::numeric::sum_of;
use crate::rounding;

verus! {

/// The largest number of categories of a field.
pub const MAX_PROBABILITY_CATEGORIES: usize = 64;

/// A probability up to this one (`1e-10`) adds nothing to the entropy.
pub const NEGLIGIBLE_PROBABILITY: u32 = 0x2EDB_E6FF;

/// An entropy below this one (`1e-8`) is too small to divide by.
pub const NEGLIGIBLE_ENTROPY: u32 = 0x322B_CC77;

/// A probability field, held by the concentration of each category.
#[derive(Debug)]
pub struct ProbabilityField {
    /// Concentrations; each is positive and finite.
    pub alpha: Vec<Single>,
}

impl View for ProbabilityField {
    type V = Seq<Single>;

    open spec fn view(&self) -> Seq<Single> {
        self.alpha@
    }
}

/// A concentration is a positive and finite number.
pub open spec fn concentration(a: Single) -> bool {
    a.finite() && (Single { bits: 0 }).below(a)
}

/// A field has between one and [`MAX_PROBABILITY_CATEGORIES`] categories, and
/// proper concentrations.
pub open spec fn proper_field(alpha: Seq<Single>) -> bool {
    &&& 0 < alpha.len() <= MAX_PROBABILITY_CATEGORIES
    &&& forall|i: int| 0 <= i < alpha.len() ==> concentration(#[trigger] alpha[i])
}

/// Equal concentrations of one.
pub open spec fn uniform_field(n: nat) -> Seq<Single> {
    Seq::new(n, |i: int| Single { bits: SINGLE_ONE })
}

/// The mean probabilities: each concentration's share of their sum.
pub open spec fn means(m: Arithmetic, alpha: Seq<Single>) -> Seq<Single> {
    Seq::new(alpha.len(), |i: int| fpu::quotient(m, alpha[i], numeric::total(m, alpha)))
}

/// What one probability adds to the sum of `p * log2(p)`.
pub open spec fn information(m: Arithmetic, acc: Single, p: Single) -> Single {
    if (Single { bits: NEGLIGIBLE_PROBABILITY }).below(p) {
        fpu::sum(m, acc, fpu::product(m, p, fpu::logarithm(m, p)))
    } else {
        acc
    }
}

/// The sum of `p * log2(p)` over the probabilities that are not negligible.
pub open spec fn information_total(m: Arithmetic, probs: Seq<Single>) -> Single
    decreases probs.len(),
{
    if probs.len() == 0 {
        Single { bits: 0 }
    } else {
        information(m, information_total(m, probs.drop_last()), probs.last())
    }
}

/// Shannon entropy of the mean probabilities, in bits.
pub open spec fn shannon(m: Arithmetic, alpha: Seq<Single>) -> Single {
    information_total(m, means(m, alpha)).negated()
}

/// The entropy of the uniform distribution over as many categories, in bits.
pub open spec fn largest_entropy(m: Arithmetic, categories: nat) -> Single {
    fpu::logarithm(m, fpu::single_of(m, categories as u64))
}

/// Entropy as a share of the largest one, forced between zero and one; zero where
/// there is nothing to share.
pub open spec fn relative_entropy(m: Arithmetic, alpha: Seq<Single>) -> Single {
    let largest = largest_entropy(m, alpha.len());
    if largest.below(Single { bits: NEGLIGIBLE_ENTROPY }) {
        Single { bits: 0 }
    } else {
        fpu::quotient(m, shannon(m, alpha), largest).unit()
    }
}

/// Whether an observation is refused: it is negative, or no number.
pub open spec fn unusable(observation: Single) -> bool {
    !(Single { bits: 0 }).at_most(observation)
}

/// The position of the first observation that is refused, or the number of them
/// where none is.
pub open spec fn refusal(observations: Seq<Single>) -> nat
    decreases observations.len(),
{
    if observations.len() == 0 {
        0
    } else {
        let earlier = refusal(observations.drop_last());
        if earlier < observations.len() - 1 || unusable(observations.last()) {
            earlier
        } else {
            observations.len()
        }
    }
}

/// Concentrations after the observations in front of the first refused one were
/// added.
pub open spec fn observed(
    m: Arithmetic,
    alpha: Seq<Single>,
    observations: Seq<Single>,
) -> Seq<Single> {
    Seq::new(
        alpha.len(),
        |i: int|
            if i < refusal(observations) {
                fpu::sum(m, alpha[i], observations[i])
            } else {
                alpha[i]
            },
    )
}

/// The sums of two fields' concentrations, category by category.
pub open spec fn pooled(m: Arithmetic, a: Seq<Single>, b: Seq<Single>) -> Seq<Single> {
    Seq::new(a.len(), |i: int| fpu::sum(m, a[i], b[i]))
}

proof fn lemma_information_step(m: Arithmetic, probs: Seq<Single>, i: int)
    requires
        0 <= i < probs.len(),
    ensures
        information_total(m, probs.take(i + 1)) == information(
            m,
            information_total(m, probs.take(i)),
            probs[i],
        ),
{
    assert(probs.take(i + 1).drop_last() =~= probs.take(i));
    assert(probs.take(i + 1).last() == probs[i]);
}

/// Nothing in front of the refusal is unusable, and the refused one is.
pub proof fn lemma_refusal(observations: Seq<Single>)
    ensures
        refusal(observations) <= observations.len(),
        forall|i: int|
            0 <= i < refusal(observations) ==> !unusable(#[trigger] observations[i]),
        refusal(observations) < observations.len() ==> unusable(
            observations[refusal(observations) as int],
        ),
    decreases observations.len(),
{
    if observations.len() > 0 {
        let shorter = observations.drop_last();
        lemma_refusal(shorter);
        assert forall|i: int| 0 <= i < refusal(observations) implies !unusable(
            #[trigger] observations[i],
        ) by {
            if i < shorter.len() {
                assert(shorter[i] == observations[i]);
            }
        }
    }
}

impl ProbabilityField {
    /// A field with the given concentrations.
    pub fn new(alpha: Vec<Single>) -> (result: Result<ProbabilityField, PiriaError>)
        ensures
            result is Ok <==> proper_field(alpha@),
            result matches Ok(field) ==> field@ == alpha@,
            result matches Err(error) ==> error == (PiriaError::InvalidProbabilityField {
                categories: alpha@.len() as usize,
            }),
    {
        if alpha.len() == 0 || alpha.len() > MAX_PROBABILITY_CATEGORIES {
            return Err(PiriaError::InvalidProbabilityField { categories: alpha.len() });
        }
        let mut i: usize = 0;
        while i < alpha.len()
            invariant
                i <= alpha@.len(),
                forall|j: int| 0 <= j < i ==> concentration(#[trigger] alpha@[j]),
            decreases alpha@.len() - i,
        {
            if !alpha[i].is_finite() || !Single::zero().lt(&alpha[i]) {
                assert(!concentration(alpha@[i as int]));
                return Err(PiriaError::InvalidProbabilityField { categories: alpha.len() });
            }
            i += 1;
        }
        Ok(ProbabilityField { alpha })
    }

    /// The field that favours none of `n` categories.
    pub fn uniform(n: usize) -> (result: Result<ProbabilityField, PiriaError>)
        ensures
            result is Ok <==> 0 < n <= MAX_PROBABILITY_CATEGORIES,
            result matches Ok(field) ==> field@ == uniform_field(n as nat),
            result matches Err(error) ==> error == (PiriaError::InvalidProbabilityField {
                categories: n,
            }),
    {
        if n == 0 || n > MAX_PROBABILITY_CATEGORIES {
            return Err(PiriaError::InvalidProbabilityField { categories: n });
        }
        let mut alpha: Vec<Single> = Vec::new();
        let mut i: usize = 0;
        while i < n
            invariant
                i <= n,
                alpha@ == uniform_field(i as nat),
            decreases n - i,
        {
            alpha.push(Single::one());
            assert(alpha@ =~= uniform_field((i + 1) as nat));
            i += 1;
        }
        Ok(ProbabilityField { alpha })
    }

    /// Each concentration's share of their sum.
    pub fn mean_probs<F: Fn(Flop) -> u64>(&self, fpu: &Fpu<F>) -> (probs: Vec<Single>)
        ensures
            probs@ == means(fpu@, self@),
    {
        let sum = sum_of(fpu, self.alpha.as_slice());
        let mut probs: Vec<Single> = Vec::new();
        let mut i: usize = 0;
        let ghost want = means(fpu@, self@);
        while i < self.alpha.len()
            invariant
                i <= self@.len(),
                sum == numeric::total(fpu@, self@),
                want == means(fpu@, self@),
                probs@ == want.take(i as int),
            decreases self@.len() - i,
        {
            probs.push(fpu.div(self.alpha[i], sum));
            assert(probs@ =~= want.take(i + 1));
            i += 1;
        }
        assert(want.take(i as int) =~= want);
        probs
    }

    /// Shannon entropy of the mean probabilities, in bits.
    pub fn entropy_bits<F: Fn(Flop) -> u64>(&self, fpu: &Fpu<F>) -> (result: Single)
        ensures
            result == shannon(fpu@, self@),
    {
        let probs = self.mean_probs(fpu);
        let threshold = Single::from_bits(NEGLIGIBLE_PROBABILITY);
        let mut acc = Single::zero();
        let mut i: usize = 0;
        while i < probs.len()
            invariant
                i <= probs@.len(),
                threshold == (Single { bits: NEGLIGIBLE_PROBABILITY }),
                acc == information_total(fpu@, probs@.take(i as int)),
            decreases probs@.len() - i,
        {
            proof {
                lemma_information_step(fpu@, probs@, i as int);
            }
            let p = probs[i];
            if threshold.lt(&p) {
                acc = fpu.add(acc, fpu.mul(p, fpu.log2(p)));
            }
            i += 1;
        }
        assert(probs@.take(i as int) =~= probs@);
        acc.neg()
    }

    /// The entropy of the uniform distribution over as many categories.
    pub fn max_entropy_bits<F: Fn(Flop) -> u64>(&self, fpu: &Fpu<F>) -> (result: Single)
        ensures
            result == largest_entropy(fpu@, self@.len()),
    {
        fpu.log2(fpu.from_int(self.alpha.len() as u64))
    }

    /// Entropy as a share of the largest one.
    pub fn normalized_entropy<F: Fn(Flop) -> u64>(&self, fpu: &Fpu<F>) -> (result: Single)
        ensures
            result == relative_entropy(fpu@, self@),
            result.in_unit(),
    {
        let max = self.max_entropy_bits(fpu);
        if max.lt(&Single::from_bits(NEGLIGIBLE_ENTROPY)) {
            return Single::zero();
        }
        fpu.div(self.entropy_bits(fpu), max).to_unit()
    }

    /// The number of categories.
    pub fn categories(&self) -> (result: usize)
        ensures
            result == self@.len(),
    {
        self.alpha.len()
    }

    /// Adds the number of observations in each category. What is negative or no
    /// number ends the update; what stands in front of it has been added by then.
    pub fn observe<F: Fn(Flop) -> u64>(&mut self, fpu: &Fpu<F>, observations: &[Single]) -> (result:
        Result<(), PiriaError>)
        ensures
            result is Ok <==> observations@.len() == old(self)@.len() && refusal(observations@)
                == observations@.len(),
            observations@.len() == old(self)@.len() ==> final(self)@ == observed(
                fpu@,
                old(self)@,
                observations@,
            ),
            observations@.len() != old(self)@.len() ==> final(self)@ == old(self)@,
            result matches Err(error) ==> error == (PiriaError::InvalidProbabilityField {
                categories: observations@.len() as usize,
            }),
    {
        if observations.len() != self.alpha.len() {
            return Err(PiriaError::InvalidProbabilityField { categories: observations.len() });
        }
        let ghost before = self@;
        let ghost want = observed(fpu@, before, observations@);
        proof {
            lemma_refusal(observations@);
        }
        let mut i: usize = 0;
        while i < observations.len()
            invariant
                i <= observations@.len(),
                observations@.len() == before.len(),
                self@.len() == before.len(),
                i <= refusal(observations@),
                refusal(observations@) <= observations@.len(),
                refusal(observations@) < observations@.len() ==> unusable(
                    observations@[refusal(observations@) as int],
                ),
                forall|j: int|
                    0 <= j < refusal(observations@) ==> !unusable(#[trigger] observations@[j]),
                want == observed(fpu@, before, observations@),
                forall|j: int| 0 <= j < i ==> self@[j] == want[j],
                forall|j: int| i <= j < before.len() ==> self@[j] == before[j],
                before == old(self)@,
            decreases observations@.len() - i,
        {
            if !Single::zero().le(&observations[i]) {
                assert(i == refusal(observations@));
                assert(self@ =~= want);
                return Err(PiriaError::InvalidProbabilityField { categories: self.alpha.len() });
            }
            let grown = fpu.add(self.alpha[i], observations[i]);
            self.alpha[i] = grown;
            i += 1;
        }
        assert(self@ =~= want);
        Ok(())
    }

    /// Pools two fields by adding their concentrations.
    pub fn merge<F: Fn(Flop) -> u64>(&self, fpu: &Fpu<F>, other: &ProbabilityField) -> (result:
        Result<ProbabilityField, PiriaError>)
        ensures
            result is Ok <==> self@.len() == other@.len() && proper_field(
                pooled(fpu@, self@, other@),
            ),
            result matches Ok(field) ==> field@ == pooled(fpu@, self@, other@),
            result matches Err(error) ==> error == (PiriaError::InvalidProbabilityField {
                categories: other@.len() as usize,
            }),
    {
        if self.alpha.len() != other.alpha.len() {
            return Err(PiriaError::InvalidProbabilityField { categories: other.alpha.len() });
        }
        let mut merged: Vec<Single> = Vec::new();
        let mut i: usize = 0;
        let ghost want = pooled(fpu@, self@, other@);
        while i < self.alpha.len()
            invariant
                i <= self@.len(),
                self@.len() == other@.len(),
                want == pooled(fpu@, self@, other@),
                merged@ == want.take(i as int),
            decreases self@.len() - i,
        {
            merged.push(fpu.add(self.alpha[i], other.alpha[i]));
            assert(merged@ =~= want.take(i + 1));
            i += 1;
        }
        assert(want.take(i as int) =~= want);
        ProbabilityField::new(merged)
    }
}

impl Clone for ProbabilityField {
    fn clone(&self) -> (copy: Self)
        ensures
            copy@ == self@,
    {
        ProbabilityField { alpha: numeric::copy_numbers(&self.alpha) }
    }
}

/// The uniform field is a proper one.
pub proof fn uniform_field_is_proper(n: nat)
    requires
        0 < n <= MAX_PROBABILITY_CATEGORIES,
    ensures
        proper_field(uniform_field(n)),
{
}

/// Whether an arithmetic makes no sum of a positive number and a nonnegative one
/// anything but positive.
pub open spec fn grows(m: Arithmetic) -> bool {
    forall|a: Single, b: Single|
        (Single { bits: 0 }).below(a) && (Single { bits: 0 }).at_most(b) ==> (Single {
            bits: 0,
        }).below(#[trigger] fpu::sum(m, a, b))
}

/// Concentrations stay positive, whatever is observed and also where an observation
/// is refused, in any arithmetic in which sums grow.
pub proof fn concentrations_stay_positive(
    m: Arithmetic,
    alpha: Seq<Single>,
    observations: Seq<Single>,
)
    requires
        grows(m),
        observations.len() == alpha.len(),
        forall|i: int| 0 <= i < alpha.len() ==> (Single { bits: 0 }).below(#[trigger] alpha[i]),
    ensures
        forall|i: int|
            0 <= i < alpha.len() ==> (Single { bits: 0 }).below(
                #[trigger] observed(m, alpha, observations)[i],
            ),
{
    lemma_refusal(observations);
    let after = observed(m, alpha, observations);
    assert forall|i: int| 0 <= i < alpha.len() implies (Single { bits: 0 }).below(
        #[trigger] after[i],
    ) by {
        assert((Single { bits: 0 }).below(alpha[i]));
        if i < refusal(observations) {
            assert(!unusable(observations[i]));
            assert(after[i] == fpu::sum(m, alpha[i], observations[i]));
        }
    }
}

/// Pooling does not depend on the order of the fields, where addition does not.
pub proof fn pooling_commutes(m: Arithmetic, a: Seq<Single>, b: Seq<Single>)
    requires
        a.len() == b.len(),
        forall|x: Single, y: Single| fpu::sum(m, x, y) == fpu::sum(m, y, x),
    ensures
        pooled(m, a, b) == pooled(m, b, a),
{
    assert(pooled(m, a, b) =~= pooled(m, b, a));
}

/// Whether concentrations can be told apart from one another: they are proper, and their sum
/// is not too large.
pub open spec fn measured(alpha: Seq<Single>) -> bool {
    proper_field(alpha) && rounding::plus(alpha) <= 100000000000000000000 as real
}

/// How far a probability may be off, relative to itself.
pub open spec fn share_error(n: nat) -> real {
    (6 as real * (n as real) + 6 as real) / 16777216 as real
}

proof fn lemma_share_of_sum(a: real, total: real, exact: real, n: real, q: real, t: real)
    requires
        0 as real <= a <= exact,
        exact > 0 as real,
        1 as real <= n <= 100000 as real,
        rounding::size(total - exact) <= 2 as real * rounding::slip() * n * exact,
        total > 0 as real,
        rounding::size(q - a / total) <= rounding::slip() * (a / total) + t,
        t >= 0 as real,
    ensures
        rounding::size(q * exact - a) <= a * ((6 as real * n + 6 as real) / 16777216 as real)
            + t * exact,
{
    let u = rounding::slip();
    let w = 2 as real * u * n;
    let r = a / total;
    assert(r * total == a) by (nonlinear_arith)
        requires
            r == a / total,
            total > 0 as real,
    ;
    assert(0 as real <= w <= 1 as real / 80 as real) by (nonlinear_arith)
        requires
            w == 2 as real * u * n,
            u == 1 as real / 16777216 as real,
            1 as real <= n <= 100000 as real,
    ;
    let we = w * exact;
    assert(2 as real * u * n * exact == we) by (nonlinear_arith)
        requires
            w == 2 as real * u * n,
            we == w * exact,
    ;
    assert(we <= exact / 80 as real) by (nonlinear_arith)
        requires
            we == w * exact,
            0 as real <= w <= 1 as real / 80 as real,
            exact > 0 as real,
    ;
    assert(r >= 0 as real) by (nonlinear_arith)
        requires
            r * total == a,
            a >= 0 as real,
            total > 0 as real,
    ;
    let rx = r * exact;
    let d = exact - total;
    assert(rx >= 0 as real) by (nonlinear_arith)
        requires
            rx == r * exact,
            r >= 0 as real,
            exact > 0 as real,
    ;
    assert(rx == a + r * d) by (nonlinear_arith)
        requires
            rx == r * exact,
            r * total == a,
            d == exact - total,
    ;
    let x = w * rx;
    assert(-x <= r * d <= x) by (nonlinear_arith)
        requires
            x == w * rx,
            rx == r * exact,
            we == w * exact,
            -we <= d <= we,
            r >= 0 as real,
    ;
    assert(rx <= a * 81 as real / 79 as real) by (nonlinear_arith)
        requires
            rx <= a + x,
            x == w * rx,
            0 as real <= w <= 1 as real / 80 as real,
            rx >= 0 as real,
            a >= 0 as real,
    ;
    assert(x <= w * (a * 81 as real / 79 as real)) by (nonlinear_arith)
        requires
            x == w * rx,
            rx <= a * 81 as real / 79 as real,
            w >= 0 as real,
    ;
    let z = q - r;
    let b = u * r + t;
    assert(-(b * exact) <= z * exact <= b * exact) by (nonlinear_arith)
        requires
            -b <= z <= b,
            exact > 0 as real,
    ;
    assert(q * exact == rx + z * exact) by (nonlinear_arith)
        requires
            z == q - r,
            rx == r * exact,
    ;
    assert(b * exact == u * rx + t * exact) by (nonlinear_arith)
        requires
            b == u * r + t,
            rx == r * exact,
    ;
    assert(u * rx <= u * (a * 81 as real / 79 as real)) by (nonlinear_arith)
        requires
            rx <= a * 81 as real / 79 as real,
            u == 1 as real / 16777216 as real,
    ;
    assert(w * (a * 81 as real / 79 as real) + u * (a * 81 as real / 79 as real) <= a * ((6 as real * n
        + 6 as real) / 16777216 as real)) by (nonlinear_arith)
        requires
            w == 2 as real * u * n,
            u == 1 as real / 16777216 as real,
            a >= 0 as real,
            n >= 1 as real,
    ;
}

/// A probability is a concentration's share of the sum of all: times the exact sum it gives
/// the concentration back, but for rounding.
pub proof fn probabilities_are_shares(m: Arithmetic, alpha: Seq<Single>, i: int)
    requires
        rounding::rounds(m),
        measured(alpha),
        0 <= i < alpha.len(),
    ensures
        means(m, alpha)[i].finite(),
        rounding::value(means(m, alpha)[i]) >= 0 as real,
        rounding::size(
            rounding::value(means(m, alpha)[i]) * rounding::plus(alpha) - rounding::value(alpha[i]),
        ) <= rounding::value(alpha[i]) * share_error(alpha.len()) + rounding::speck()
            * rounding::plus(alpha),
{
    rounding::lemma_constants();
    rounding::lemma_extremes();
    let zero = Single { bits: 0 };
    assert forall|k: int| 0 <= k < alpha.len() implies rounding::value(#[trigger] alpha[k])
        > 0 as real by {
        assert(concentration(alpha[k]));
        rounding::lemma_values_are_ordered(zero, alpha[k]);
    }
    assert forall|k: int| 0 <= k < alpha.len() implies (#[trigger] alpha[k]).finite() by {
        assert(concentration(alpha[k]));
    }
    rounding::lemma_bulk(alpha);
    assert(rounding::bulk(alpha) == rounding::plus(alpha));
    rounding::lemma_total(m, alpha);
    lemma_part(alpha, i);
    let exact = rounding::plus(alpha);
    let total = rounding::value(numeric::total(m, alpha));
    let n = alpha.len() as real;
    let u = rounding::slip();
    let a = rounding::value(alpha[i]);
    let error = 2 as real * u * n * exact;
    assert(0 as real <= error <= exact / 80 as real) by (nonlinear_arith)
        requires
            error == 2 as real * u * n * exact,
            u == 1 as real / 16777216 as real,
            1 as real <= n <= 100000 as real,
            exact > 0 as real,
    ;
    assert(total > 0 as real);
    let r = a / total;
    assert(0 as real <= r <= 2 as real) by (nonlinear_arith)
        requires
            r == a / total,
            0 as real <= a <= exact,
            total >= exact - exact / 80 as real,
            exact > 0 as real,
    ;
    let q = fpu::quotient(m, alpha[i], numeric::total(m, alpha));
    assert(rounding::rounded(q, r, rounding::speck()));
    lemma_share_of_sum(a, total, exact, n, rounding::value(q), rounding::speck());
}

proof fn lemma_part(alpha: Seq<Single>, i: int)
    requires
        0 <= i < alpha.len(),
        forall|k: int| 0 <= k < alpha.len() ==> rounding::value(#[trigger] alpha[k]) > 0 as real,
    ensures
        rounding::value(alpha[i]) <= rounding::plus(alpha),
        rounding::plus(alpha) > 0 as real,
    decreases alpha.len(),
{
    let shorter = alpha.drop_last();
    assert(rounding::value(alpha[alpha.len() - 1]) > 0 as real);
    if shorter.len() > 0 {
        assert forall|k: int| 0 <= k < shorter.len() implies rounding::value(#[trigger] shorter[k])
            > 0 as real by {
            assert(shorter[k] == alpha[k]);
        }
        if i < shorter.len() {
            lemma_part(shorter, i);
            assert(shorter[i] == alpha[i]);
        } else {
            lemma_part(shorter, 0);
        }
    } else {
        assert(rounding::plus(shorter) == 0 as real);
    }
}

/// Observing adds to each concentration what was observed in its category, but for one
/// rounding; from the first observation on that is refused, nothing is added.
pub proof fn observations_are_added(
    m: Arithmetic,
    alpha: Seq<Single>,
    observations: Seq<Single>,
    i: int,
)
    requires
        rounding::rounds(m),
        observations.len() == alpha.len(),
        0 <= i < alpha.len(),
    ensures
        (exists|k: int| 0 <= k <= i && unusable(#[trigger] observations[k])) ==> observed(
            m,
            alpha,
            observations,
        )[i] == alpha[i],
        (forall|k: int| 0 <= k <= i ==> !unusable(#[trigger] observations[k])) && alpha[i].finite()
            && observations[i].finite() && observed(m, alpha, observations)[i].finite() ==> {
            let exact = rounding::value(alpha[i]) + rounding::value(observations[i]);
            rounding::size(rounding::value(observed(m, alpha, observations)[i]) - exact)
                <= rounding::slip() * rounding::size(exact)
        },
{
    lemma_refusal(observations);
    if exists|k: int| 0 <= k <= i && unusable(#[trigger] observations[k]) {
        let k = choose|k: int| 0 <= k <= i && unusable(#[trigger] observations[k]);
        assert(refusal(observations) <= k);
    }
    if (forall|k: int| 0 <= k <= i ==> !unusable(#[trigger] observations[k])) {
        assert(refusal(observations) > i);
    }
}

/// Pooled concentrations are the sums of both, category by category, but for one rounding.
pub proof fn pooling_adds(m: Arithmetic, a: Seq<Single>, b: Seq<Single>, i: int)
    requires
        rounding::rounds(m),
        a.len() == b.len(),
        0 <= i < a.len(),
        a[i].finite() && b[i].finite(),
        pooled(m, a, b)[i].finite(),
    ensures
        ({
            let exact = rounding::value(a[i]) + rounding::value(b[i]);
            rounding::size(rounding::value(pooled(m, a, b)[i]) - exact) <= rounding::slip()
                * rounding::size(exact)
        }),
{
}

/// Entropy relative to the largest one is their quotient, forced between zero and one, but
/// for rounding.
pub proof fn relative_entropy_is_a_quotient(m: Arithmetic, alpha: Seq<Single>)
    requires
        rounding::rounds(m),
        shannon(m, alpha).finite(),
        rounding::size(rounding::value(shannon(m, alpha))) <= 1000000 as real,
        largest_entropy(m, alpha.len()).finite(),
        rounding::value(largest_entropy(m, alpha.len())) >= 1 as real / 1000 as real,
    ensures
        ({
            let exact = rounding::value(shannon(m, alpha)) / rounding::value(
                largest_entropy(m, alpha.len()),
            );
            &&& relative_entropy(m, alpha).finite()
            &&& rounding::size(
                rounding::value(relative_entropy(m, alpha)) - rounding::between(
                    exact,
                    0 as real,
                    1 as real,
                ),
            ) <= rounding::slip() * rounding::size(exact) + rounding::speck()
        }),
{
    rounding::lemma_constants();
    rounding::lemma_extremes();
    let (e, most) = (
        rounding::value(shannon(m, alpha)),
        rounding::value(largest_entropy(m, alpha.len())),
    );
    let floor = Single { bits: NEGLIGIBLE_ENTROPY };
    rounding::lemma_values_are_ordered(largest_entropy(m, alpha.len()), floor);
    let q = e / most;
    assert(-(1000000000 as real) <= q <= 1000000000 as real) by (nonlinear_arith)
        requires
            q == e / most,
            -(1000000 as real) <= e <= 1000000 as real,
            most >= 1 as real / 1000 as real,
    ;
    let quotient = fpu::quotient(m, shannon(m, alpha), largest_entropy(m, alpha.len()));
    assert(rounding::rounded(quotient, q, rounding::speck()));
    rounding::lemma_unit(quotient);
}

/// What a probability adds to the exact sum of `p * log2(p)`; nothing where it is at most
/// `1e-10`.
pub open spec fn surprise(l: spec_fn(real) -> real, p: Single) -> real {
    if rounding::value(p) > rounding::value(Single { bits: 0x2EDB_E6FF }) {
        rounding::value(p) * l(rounding::value(p))
    } else {
        0 as real
    }
}

/// The exact sum of `p * log2(p)`.
pub open spec fn surprises(l: spec_fn(real) -> real, probs: Seq<Single>) -> real
    decreases probs.len(),
{
    if probs.len() == 0 {
        0 as real
    } else {
        surprises(l, probs.drop_last()) + surprise(l, probs.last())
    }
}

/// The exact sum of the sizes of `p * log2(p)`.
pub open spec fn surprises_size(l: spec_fn(real) -> real, probs: Seq<Single>) -> real
    decreases probs.len(),
{
    if probs.len() == 0 {
        0 as real
    } else {
        surprises_size(l, probs.drop_last()) + rounding::size(surprise(l, probs.last()))
    }
}

/// How far a sum of so many terms can be off.
spec fn surprise_error(n: real, heap: real) -> real {
    heap / 800000 as real + n * (heap / 8000000 as real + 2 as real * rounding::speck())
}

proof fn lemma_surprise(m: Arithmetic, l: spec_fn(real) -> real, p: Single)
    requires
        rounding::rounds(m),
        doubles::takes_logarithms(m, l),
        p.finite(),
        rounding::value(p) > 0 as real,
        rounding::size(rounding::value(p) * l(rounding::value(p))) <= 1000000000 as real,
    ensures
        ({
            let exact = rounding::value(p) * l(rounding::value(p));
            let term = fpu::product(m, p, fpu::logarithm(m, p));
            &&& term.finite()
            &&& rounding::size(rounding::value(term) - exact) <= rounding::size(exact)
                / 800000 as real + rounding::speck()
        }),
{
    rounding::lemma_extremes();
    let v = rounding::value(p);
    let k = l(v);
    let exact = v * k;
    let q = rounding::size(exact);
    let log = fpu::logarithm(m, p);
    let x = rounding::value(log);
    let d = x - k;
    let b = rounding::size(k) / 1000000 as real;
    assert(-b <= d <= b);
    assert(q == v * rounding::size(k)) by (nonlinear_arith)
        requires
            q == (if exact < 0 as real {
                -exact
            } else {
                exact
            }),
            exact == v * k,
            v > 0 as real,
            rounding::size(k) == (if k < 0 as real {
                -k
            } else {
                k
            }),
    ;
    assert(v * x == exact + v * d) by (nonlinear_arith)
        requires
            d == x - k,
            exact == v * k,
    ;
    assert(-(q / 1000000 as real) <= v * d <= q / 1000000 as real) by (nonlinear_arith)
        requires
            -b <= d <= b,
            b == rounding::size(k) / 1000000 as real,
            v > 0 as real,
            q == v * rounding::size(k),
    ;
    let term = fpu::product(m, p, log);
    assert(rounding::rounded(term, v * x, rounding::speck()));
    let u = rounding::slip();
    let y = rounding::size(v * x);
    assert(u * y == y / 16777216 as real) by (nonlinear_arith)
        requires
            u == 1 as real / 16777216 as real,
    ;
}

proof fn lemma_surprise_step(
    total: real,
    exact: real,
    heap: real,
    n: real,
    x: real,
    v: real,
    next: real,
)
    requires
        0 as real <= n <= 64 as real,
        heap >= 0 as real,
        rounding::size(exact) <= heap,
        rounding::size(total - exact) <= surprise_error(n, heap),
        rounding::size(v - x) <= rounding::size(x) / 800000 as real + rounding::speck(),
        rounding::size(next - (total + v)) <= rounding::slip() * rounding::size(total + v),
    ensures
        rounding::size(next - (exact + x)) <= surprise_error(
            n + 1 as real,
            heap + rounding::size(x),
        ),
{
    rounding::lemma_extremes();
    let u = rounding::slip();
    let t = rounding::speck();
    let q = rounding::size(x);
    let all = heap + q;
    let e = surprise_error(n, heap);
    let tail = n * (heap / 8000000 as real + 2 as real * t);
    let longer = n * (all / 8000000 as real + 2 as real * t);
    assert(tail <= longer <= all / 100000 as real + 128 as real * t) by (nonlinear_arith)
        requires
            tail == n * (heap / 8000000 as real + 2 as real * t),
            longer == n * (all / 8000000 as real + 2 as real * t),
            0 as real <= n <= 64 as real,
            0 as real <= heap <= all,
            t >= 0 as real,
    ;
    let y = rounding::size(total + v);
    assert(u * y == y / 16777216 as real) by (nonlinear_arith)
        requires
            u == 1 as real / 16777216 as real,
    ;
    let f = surprise_error(n + 1 as real, all);
    assert(f == all / 800000 as real + longer + all / 8000000 as real + 2 as real * t) by (
        nonlinear_arith)
        requires
            f == all / 800000 as real + (n + 1 as real) * (all / 8000000 as real + 2 as real * t),
            longer == n * (all / 8000000 as real + 2 as real * t),
    ;
    assert(rounding::size(total) <= heap + e);
    assert(rounding::size(v) <= q + q / 800000 as real + t);
    assert(y <= all + all / 50000 as real + 130 as real * t);
    assert(rounding::size(next - (exact + x)) <= e + q / 800000 as real + t + y / 16777216 as real);
}

proof fn lemma_information(m: Arithmetic, l: spec_fn(real) -> real, probs: Seq<Single>)
    requires
        rounding::rounds(m),
        doubles::takes_logarithms(m, l),
        probs.len() <= 64,
        forall|i: int|
            0 <= i < probs.len() ==> (#[trigger] probs[i]).finite() && rounding::value(probs[i])
                >= 0 as real,
        surprises_size(l, probs) <= 1000000000 as real,
    ensures
        information_total(m, probs).finite(),
        surprises_size(l, probs) >= 0 as real,
        rounding::size(surprises(l, probs)) <= surprises_size(l, probs),
        rounding::size(rounding::value(information_total(m, probs)) - surprises(l, probs))
            <= surprise_error(probs.len() as real, surprises_size(l, probs)),
    decreases probs.len(),
{
    rounding::lemma_constants();
    rounding::lemma_extremes();
    let t = rounding::speck();
    if probs.len() == 0 {
        assert(surprise_error(0 as real, 0 as real) == 0 as real) by (nonlinear_arith)
            requires
                surprise_error(0 as real, 0 as real) == 0 as real / 800000 as real + 0 as real * (
                0 as real / 8000000 as real + 2 as real * t),
        ;
    } else {
        let shorter = probs.drop_last();
        assert forall|i: int| 0 <= i < shorter.len() implies (#[trigger] shorter[i]).finite()
            && rounding::value(shorter[i]) >= 0 as real by {
            assert(shorter[i] == probs[i]);
        }
        let p = probs[probs.len() - 1];
        assert(p.finite() && rounding::value(p) >= 0 as real);
        lemma_information(m, l, shorter);
        let before = information_total(m, shorter);
        let (total, exact, heap) = (
            rounding::value(before),
            surprises(l, shorter),
            surprises_size(l, shorter),
        );
        let n = shorter.len() as real;
        let x = surprise(l, p);
        let least = Single { bits: NEGLIGIBLE_PROBABILITY };
        rounding::lemma_values_are_ordered(least, p);
        rounding::lemma_values_are_ordered(Single { bits: 0 }, least);
        assert(probs.len() as real == n + 1 as real);
        let e = surprise_error(n, heap);
        let tail = n * (heap / 8000000 as real + 2 as real * t);
        assert(0 as real <= tail <= heap / 100000 as real + 128 as real * t) by (nonlinear_arith)
            requires
                tail == n * (heap / 8000000 as real + 2 as real * t),
                0 as real <= n <= 64 as real,
                heap >= 0 as real,
                t >= 0 as real,
        ;
        if least.below(p) {
            lemma_surprise(m, l, p);
            let term = fpu::product(m, p, fpu::logarithm(m, p));
            let v = rounding::value(term);
            let next = fpu::sum(m, before, term);
            assert(rounding::rounded(next, total + v, 0 as real));
            lemma_surprise_step(total, exact, heap, n, x, v, rounding::value(next));
        } else {
            let f = surprise_error(n + 1 as real, heap);
            assert(e <= f) by (nonlinear_arith)
                requires
                    e == heap / 800000 as real + n * (heap / 8000000 as real + 2 as real * t),
                    f == heap / 800000 as real + (n + 1 as real) * (heap / 8000000 as real + 2 as real
                        * t),
                    heap >= 0 as real,
                    t >= 0 as real,
            ;
        }
    }
}

/// Entropy is the exact sum of `-p * log2(p)` over the mean probabilities, but for rounding.
pub proof fn entropy_is_expected_surprise(
    m: Arithmetic,
    l: spec_fn(real) -> real, alpha: Seq<Single>,
)
    requires
        rounding::rounds(m),
        doubles::takes_logarithms(m, l),
        measured(alpha),
        surprises_size(l, means(m, alpha)) <= 1000000000 as real,
    ensures
        shannon(m, alpha).finite(),
        rounding::size(rounding::value(shannon(m, alpha)) + surprises(l, means(m, alpha)))
            <= surprises_size(l, means(m, alpha)) / 50000 as real + 1 as real
            / 1000000000000 as real,
{
    rounding::lemma_extremes();
    let probs = means(m, alpha);
    assert forall|i: int| 0 <= i < probs.len() implies (#[trigger] probs[i]).finite()
        && rounding::value(probs[i]) >= 0 as real by {
        probabilities_are_shares(m, alpha, i);
    }
    lemma_information(m, l, probs);
    let total = information_total(m, probs);
    assert(total.negated().magnitude() == total.magnitude());
    assert(rounding::value(total.negated()) == -rounding::value(total));
    let n = probs.len() as real;
    let heap = surprises_size(l, probs);
    let t = rounding::speck();
    let tail = n * (heap / 8000000 as real + 2 as real * t);
    assert(0 as real <= tail <= heap / 100000 as real + 128 as real * t) by (nonlinear_arith)
        requires
            tail == n * (heap / 8000000 as real + 2 as real * t),
            0 as real <= n <= 64 as real,
            heap >= 0 as real,
            t >= 0 as real,
    ;
}

/// The largest entropy is the logarithm of the number of categories, to base two and but for
/// rounding.
pub proof fn the_largest_entropy_is_a_logarithm(
    m: Arithmetic,
    l: spec_fn(real) -> real,
    categories: nat,
)
    requires
        doubles::rounds_wide(m),
        doubles::takes_logarithms(m, l),
        0 < categories <= 64,
    ensures
        ({
            let count = rounding::value(fpu::single_of(m, categories as u64));
            let largest = largest_entropy(m, categories);
            &&& rounding::size(count - categories as real) <= rounding::slip() * (
            categories as real)
            &&& largest.finite()
            &&& rounding::size(rounding::value(largest) - l(count)) <= rounding::size(l(count))
                / 1000000 as real
        }),
{
    rounding::lemma_extremes();
    let n = categories as real;
    let count = fpu::single_of(m, categories as u64);
    assert(rounding::rounded(count, n, 0 as real));
    let u = rounding::slip();
    assert(u * n <= n / 2 as real) by (nonlinear_arith)
        requires
            u == 1 as real / 16777216 as real,
            n > 0 as real,
    ;
}

} // verus!
