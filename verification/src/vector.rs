//! Semantic embeddings of unit length.

use vstd::prelude::*;

use crate::error::PiriaError;
use crate::float::{Single, SINGLE_ONE};
use crate::fpu;
use crate::fpu::{Arithmetic, Flop, Fpu};
use crate::numeric;
use crate::numeric::{inner_of, l2_norm};
use crate::rounding;

verus! {

/// The number of components of an embedding.
pub const VECTOR_DIM: usize = 1536;

/// A length below this one (`1e-8`) is too small to be scaled to one.
pub const SMALLEST_NORM: u32 = 0x322B_CC77;

/// How far (`1e-4`) the length of a ready-made unit vector may be off.
pub const NORM_TOLERANCE: u32 = 0x38D1_B717;

/// `2.0`.
pub const TWO: u32 = 0x4000_0000;

/// `-1.0`.
pub const MINUS_ONE: u32 = 0xBF80_0000;

/// An embedding; its constructors give it [`VECTOR_DIM`] components and unit
/// length.
#[derive(Debug)]
pub struct SemanticVector(pub Vec<Single>);

impl View for SemanticVector {
    type V = Seq<Single>;

    open spec fn view(&self) -> Seq<Single> {
        self.0@
    }
}

/// Every component divided by the same number.
pub open spec fn scaled_down(m: Arithmetic, raw: Seq<Single>, norm: Single) -> Seq<Single> {
    Seq::new(raw.len(), |i: int| fpu::quotient(m, raw[i], norm))
}

/// Whether a length is too small to be scaled to one.
pub open spec fn vanishing(norm: Single) -> bool {
    norm.below(Single { bits: SMALLEST_NORM })
}

/// Whether a length cannot be scaled to one: it is no finite number, or too small.
pub open spec fn degenerate(norm: Single) -> bool {
    !norm.finite() || vanishing(norm)
}

/// Whether a length differs from one by more than the tolerance, or is no number.
pub open spec fn off_unit(m: Arithmetic, norm: Single) -> bool {
    !fpu::difference(m, norm, Single { bits: SINGLE_ONE }).absolute().at_most(
        Single { bits: NORM_TOLERANCE },
    )
}

/// What becomes of raw components: an embedding of unit length, or the reason why
/// there is none.
pub open spec fn embedding(m: Arithmetic, raw: Seq<Single>) -> Result<Seq<Single>, PiriaError> {
    let norm = numeric::length(m, raw);
    if raw.len() != VECTOR_DIM {
        Err(PiriaError::VectorDimensionMismatch { expected: VECTOR_DIM, got: raw.len() as usize })
    } else if degenerate(norm) {
        Err(PiriaError::VectorNotNormalized { norm })
    } else {
        Ok(scaled_down(m, raw, norm))
    }
}

/// Whether an embedding, or the lack of one, is as expected.
pub open spec fn embeds(
    result: Result<SemanticVector, PiriaError>,
    expected: Result<Seq<Single>, PiriaError>,
) -> bool {
    match (result, expected) {
        (Ok(unit), Ok(components)) => unit@ == components,
        (Err(error), Err(reason)) => error == reason,
        _ => false,
    }
}

/// The inner product of two unit vectors, forced between minus one and one.
pub open spec fn bounded_inner(m: Arithmetic, a: Seq<Single>, b: Seq<Single>) -> Single {
    numeric::inner(m, a, b).clamped(Single { bits: MINUS_ONE }, Single { bits: SINGLE_ONE })
}

/// The cosine of the angle between two unit vectors; zero where their inner product
/// is no number.
pub open spec fn cosine(m: Arithmetic, a: Seq<Single>, b: Seq<Single>) -> Single {
    if numeric::inner(m, a, b).nan() {
        Single { bits: 0 }
    } else {
        bounded_inner(m, a, b)
    }
}

/// The distance between two unit vectors, from their inner product.
pub open spec fn distance(m: Arithmetic, a: Seq<Single>, b: Seq<Single>) -> Single {
    let two = Single { bits: TWO };
    fpu::root(
        m,
        fpu::difference(m, two, fpu::product(m, two, bounded_inner(m, a, b))).larger(
            Single { bits: 0 },
        ),
    )
}

impl SemanticVector {
    /// An embedding from raw components, scaled to unit length.
    pub fn new<F: Fn(Flop) -> u64>(fpu: &Fpu<F>, raw: Vec<Single>) -> (result: Result<
        SemanticVector,
        PiriaError,
    >)
        ensures
            embeds(result, embedding(fpu@, raw@)),
    {
        if raw.len() != VECTOR_DIM {
            return Err(
                PiriaError::VectorDimensionMismatch { expected: VECTOR_DIM, got: raw.len() },
            );
        }
        let norm = l2_norm(fpu, raw.as_slice());
        if !norm.is_finite() || norm.lt(&Single::from_bits(SMALLEST_NORM)) {
            return Err(PiriaError::VectorNotNormalized { norm });
        }
        let mut unit: Vec<Single> = Vec::new();
        let mut i: usize = 0;
        let ghost want = scaled_down(fpu@, raw@, norm);
        while i < raw.len()
            invariant
                i <= raw@.len(),
                want == scaled_down(fpu@, raw@, norm),
                unit@ == want.take(i as int),
            decreases raw@.len() - i,
        {
            unit.push(fpu.div(raw[i], norm));
            assert(unit@ =~= want.take(i + 1));
            i += 1;
        }
        assert(want.take(i as int) =~= want);
        Ok(SemanticVector(unit))
    }

    /// An embedding from components that have unit length already.
    pub fn from_normalized<F: Fn(Flop) -> u64>(fpu: &Fpu<F>, v: Vec<Single>) -> (result: Result<
        SemanticVector,
        PiriaError,
    >)
        ensures
            result is Ok <==> v@.len() == VECTOR_DIM && !off_unit(
                fpu@,
                numeric::length(fpu@, v@),
            ),
            result matches Ok(unit) ==> unit@ == v@,
            result matches Err(error) ==> error == (if v@.len() != VECTOR_DIM {
                PiriaError::VectorDimensionMismatch {
                    expected: VECTOR_DIM,
                    got: v@.len() as usize,
                }
            } else {
                PiriaError::VectorNotNormalized { norm: numeric::length(fpu@, v@) }
            }),
    {
        if v.len() != VECTOR_DIM {
            return Err(PiriaError::VectorDimensionMismatch { expected: VECTOR_DIM, got: v.len() });
        }
        let norm = l2_norm(fpu, v.as_slice());
        let gap = fpu.sub(norm, Single::one()).abs();
        if !gap.le(&Single::from_bits(NORM_TOLERANCE)) {
            return Err(PiriaError::VectorNotNormalized { norm });
        }
        Ok(SemanticVector(v))
    }

    /// The cosine of the angle between two unit vectors.
    pub fn cosine_similarity<F: Fn(Flop) -> u64>(
        &self,
        fpu: &Fpu<F>,
        other: &SemanticVector,
    ) -> (result: Single)
        ensures
            result == cosine(fpu@, self@, other@),
            (Single { bits: MINUS_ONE }).at_most(result),
            result.at_most(Single { bits: SINGLE_ONE }),
    {
        let inner = self.bounded_product(fpu, other);
        if inner.is_nan() {
            Single::zero()
        } else {
            inner
        }
    }

    fn bounded_product<F: Fn(Flop) -> u64>(
        &self,
        fpu: &Fpu<F>,
        other: &SemanticVector,
    ) -> (result: Single)
        ensures
            result == bounded_inner(fpu@, self@, other@),
    {
        inner_of(fpu, self.0.as_slice(), other.0.as_slice()).clamp(
            &Single::from_bits(MINUS_ONE),
            &Single::one(),
        )
    }

    /// The distance between two unit vectors.
    pub fn l2_distance<F: Fn(Flop) -> u64>(
        &self,
        fpu: &Fpu<F>,
        other: &SemanticVector,
    ) -> (result: Single)
        ensures
            result == distance(fpu@, self@, other@),
    {
        let two = Single::from_bits(TWO);
        let inner = self.bounded_product(fpu, other);
        fpu.sqrt(fpu.sub(two, fpu.mul(two, inner)).max(&Single::zero()))
    }
}

impl Clone for SemanticVector {
    fn clone(&self) -> (copy: Self)
        ensures
            copy@ == self@,
    {
        SemanticVector(numeric::copy_numbers(&self.0))
    }
}

/// An embedding that is made from raw components has the required number of
/// them.
pub proof fn embeddings_have_the_dimension(m: Arithmetic, raw: Seq<Single>)
    ensures
        embedding(m, raw) matches Ok(components) ==> components.len() == VECTOR_DIM,
{
}

/// Whether an arithmetic scales to unit length: whatever has a length that can be
/// scaled has unit length afterwards, but for the tolerance.
pub open spec fn scales_to_one(m: Arithmetic) -> bool {
    forall|raw: Seq<Single>|
        raw.len() == VECTOR_DIM && !degenerate(numeric::length(m, raw)) ==> !off_unit(
            m,
            numeric::length(m, #[trigger] scaled_down(m, raw, numeric::length(m, raw))),
        )
}

/// An embedding that is made from raw components has unit length, in any
/// arithmetic that scales to it. Nothing whose length is no finite number
/// becomes an embedding.
pub proof fn embeddings_have_unit_length(m: Arithmetic, raw: Seq<Single>)
    ensures
        embedding(m, raw) is Ok ==> numeric::length(m, raw).finite(),
        scales_to_one(m) ==> (embedding(m, raw) matches Ok(unit) ==> !off_unit(
            m,
            numeric::length(m, unit),
        )),
{
}

// ---------------------------------------------------------------------------
// What is measured
// ---------------------------------------------------------------------------

/// Whether the inner product of two lists can be told: both are finite and as long as each
/// other, and it is not too large.
pub open spec fn measurable(a: Seq<Single>, b: Seq<Single>) -> bool {
    &&& a.len() == b.len()
    &&& rounding::countable(a.len())
    &&& rounding::all_finite(a)
    &&& rounding::all_finite(b)
    &&& rounding::dot_size(a, b) <= 100000000000000000000000000000 as real
}

/// The cosine of the angle between two embeddings is their exact inner product, forced
/// between minus one and one, but for rounding.
pub proof fn cosines_are_inner_products(m: Arithmetic, a: Seq<Single>, b: Seq<Single>)
    requires
        rounding::rounds(m),
        measurable(a, b),
    ensures
        cosine(m, a, b).finite(),
        bounded_inner(m, a, b) == cosine(m, a, b),
        rounding::size(
            rounding::value(cosine(m, a, b)) - rounding::between(
                rounding::dot(a, b),
                -(1 as real),
                1 as real,
            ),
        ) <= rounding::dot_error(a.len(), rounding::dot_size(a, b)),
{
    rounding::lemma_constants();
    rounding::lemma_two();
    rounding::lemma_inner(m, a, b);
    rounding::lemma_clamped(
        numeric::inner(m, a, b),
        Single { bits: MINUS_ONE },
        Single { bits: SINGLE_ONE },
    );
}

/// The square of the distance between two embeddings is twice what their inner product
/// lacks of one, but for rounding.
pub proof fn distances_come_from_inner_products(m: Arithmetic, a: Seq<Single>, b: Seq<Single>)
    requires
        rounding::rounds(m),
        measurable(a, b),
    ensures
        ({
            let d = distance(m, a, b);
            let c = rounding::between(rounding::dot(a, b), -(1 as real), 1 as real);
            &&& d.finite()
            &&& rounding::value(d) >= 0 as real
            &&& rounding::size(
                rounding::value(d) * rounding::value(d) - (2 as real - 2 as real * c),
            ) <= 2 as real * rounding::dot_error(a.len(), rounding::dot_size(a, b)) + 1 as real
                / 100000 as real
        }),
{
    rounding::lemma_constants();
    rounding::lemma_extremes();
    rounding::lemma_two();
    cosines_are_inner_products(m, a, b);
    rounding::lemma_inner(m, a, b);
    rounding::lemma_clamped(
        numeric::inner(m, a, b),
        Single { bits: MINUS_ONE },
        Single { bits: SINGLE_ONE },
    );
    let u = rounding::slip();
    let t = rounding::speck();
    let two = Single { bits: TWO };
    let inner = bounded_inner(m, a, b);
    let i = rounding::value(inner);
    assert(-(1 as real) <= i <= 1 as real);
    let p = fpu::product(m, two, inner);
    assert(rounding::rounded(p, 2 as real * i, t));
    let sp = rounding::size(2 as real * i);
    assert(u * sp <= 2 as real / 10000000 as real) by (nonlinear_arith)
        requires
            u == 1 as real / 16777216 as real,
            0 as real <= sp <= 2 as real,
    ;
    let pv = rounding::value(p);
    let x = fpu::difference(m, two, p);
    assert(rounding::rounded(x, 2 as real - pv, 0 as real));
    let sx = rounding::size(2 as real - pv);
    assert(u * sx <= 3 as real / 10000000 as real) by (nonlinear_arith)
        requires
            u == 1 as real / 16777216 as real,
            0 as real <= sx <= 5 as real,
    ;
    let zero = Single { bits: 0 };
    rounding::lemma_clamped(x, zero, two);
    let y = x.larger(zero);
    let yv = rounding::value(y);
    assert(0 as real <= yv <= 5 as real);
    let d = fpu::root(m, y);
    assert(rounding::root_rounded(d, yv));
    let q = rounding::value(d) * rounding::value(d);
    assert(rounding::size(q - yv) <= 1 as real / 1000000 as real) by (nonlinear_arith)
        requires
            (1 as real - u) * (1 as real - u) * yv <= q,
            q <= (1 as real + u) * (1 as real + u) * yv,
            u == 1 as real / 16777216 as real,
            0 as real <= yv <= 5 as real,
            rounding::size(q - yv) == q - yv || rounding::size(q - yv) == yv - q,
    ;
}

/// The exact square of the distance between two lists.
pub open spec fn apart(a: Seq<Single>, b: Seq<Single>) -> real
    decreases a.len(),
{
    if a.len() == 0 || a.len() != b.len() {
        0 as real
    } else {
        apart(a.drop_last(), b.drop_last()) + (rounding::value(a.last()) - rounding::value(b.last()))
            * (rounding::value(a.last()) - rounding::value(b.last()))
    }
}

proof fn lemma_difference(m: Arithmetic, a: Single, b: Single)
    requires
        rounding::rounds(m),
        a.finite() && b.finite(),
        rounding::size(rounding::value(a) - rounding::value(b)) <= 1000 as real,
    ensures
        ({
            let d = fpu::difference(m, a, b);
            let x = rounding::value(a) - rounding::value(b);
            &&& d.finite()
            &&& (1 as real - 3 as real * rounding::slip()) * (x * x) <= rounding::value(d)
                * rounding::value(d)
            &&& rounding::value(d) * rounding::value(d) <= (1 as real + 3 as real
                * rounding::slip()) * (x * x)
        }),
{
    rounding::lemma_extremes();
    let d = fpu::difference(m, a, b);
    let x = rounding::value(a) - rounding::value(b);
    assert(rounding::rounded(d, x, 0 as real));
    let u = rounding::slip();
    let v = rounding::value(d);
    let s = rounding::size(x);
    let k = v - x;
    assert(-(u * s) <= k <= u * s);
    assert(k * k <= u * u * (s * s)) by (nonlinear_arith)
        requires
            -(u * s) <= k <= u * s,
    ;
    assert(s * s == x * x) by (nonlinear_arith)
        requires
            s == x || s == -x,
    ;
    assert(-(u * (s * s)) <= k * x <= u * (s * s)) by (nonlinear_arith)
        requires
            -(u * s) <= k <= u * s,
            s == x || s == -x,
            s >= 0 as real,
    ;
    assert(v * v == x * x + 2 as real * (k * x) + k * k) by (nonlinear_arith)
        requires
            k == v - x,
    ;
    let q = x * x;
    assert(k * k >= 0 as real && q >= 0 as real) by (nonlinear_arith)
        requires
            q == x * x,
    ;
    assert(u * u * q <= u * q) by (nonlinear_arith)
        requires
            u == 1 as real / 16777216 as real,
            q >= 0 as real,
    ;
    assert((1 as real - 3 as real * u) * q == q - 3 as real * (u * q) && (1 as real + 3 as real * u)
        * q == q + 3 as real * (u * q)) by (nonlinear_arith);
    assert(u * q >= 0 as real) by (nonlinear_arith)
        requires
            u == 1 as real / 16777216 as real,
            q >= 0 as real,
    ;
}

proof fn lemma_apart(m: Arithmetic, a: Seq<Single>, b: Seq<Single>)
    requires
        rounding::rounds(m),
        a.len() == b.len(),
        rounding::all_finite(a),
        rounding::all_finite(b),
        apart(a, b) <= 100000 as real,
    ensures
        ({
            let gaps = numeric::differences(m, a, b);
            &&& rounding::all_finite(gaps)
            &&& apart(a, b) >= 0 as real
            &&& (1 as real - 3 as real * rounding::slip()) * apart(a, b) <= rounding::squares(gaps)
            &&& rounding::squares(gaps) <= (1 as real + 3 as real * rounding::slip()) * apart(a, b)
        }),
    decreases a.len(),
{
    let gaps = numeric::differences(m, a, b);
    let u = rounding::slip();
    if a.len() == 0 {
        assert((1 as real - 3 as real * u) * 0 as real == 0 as real && (1 as real + 3 as real * u)
            * 0 as real == 0 as real) by (nonlinear_arith);
    } else {
        let (c, d) = (a.drop_last(), b.drop_last());
        let x = rounding::value(a.last()) - rounding::value(b.last());
        assert(x * x >= 0 as real) by (nonlinear_arith);
        assert forall|i: int| 0 <= i < c.len() implies (#[trigger] c[i]).finite() by {
            assert(a[i].finite());
        }
        assert forall|i: int| 0 <= i < d.len() implies (#[trigger] d[i]).finite() by {
            assert(b[i].finite());
        }
        lemma_apart_grows(c, d);
        lemma_apart(m, c, d);
        let fewer = numeric::differences(m, c, d);
        assert(gaps.drop_last() =~= fewer);
        assert(-(1000 as real) <= x <= 1000 as real) by (nonlinear_arith)
            requires
                x * x <= 100000 as real,
        ;
        assert(a[a.len() - 1].finite() && b[b.len() - 1].finite());
        lemma_difference(m, a.last(), b.last());
        let q = x * x;
        let e = apart(c, d);
        assert((1 as real - 3 as real * u) * (e + q) == (1 as real - 3 as real * u) * e + (1 as real
            - 3 as real * u) * q) by (nonlinear_arith);
        assert((1 as real + 3 as real * u) * (e + q) == (1 as real + 3 as real * u) * e + (1 as real
            + 3 as real * u) * q) by (nonlinear_arith);
        assert forall|i: int| 0 <= i < gaps.len() implies (#[trigger] gaps[i]).finite() by {
            if i < fewer.len() {
                assert(fewer[i].finite() && fewer[i] == gaps[i]);
            }
        }
    }
}

proof fn lemma_apart_grows(a: Seq<Single>, b: Seq<Single>)
    ensures
        apart(a, b) >= 0 as real,
    decreases a.len(),
{
    if a.len() > 0 && a.len() == b.len() {
        lemma_apart_grows(a.drop_last(), b.drop_last());
        let x = rounding::value(a.last()) - rounding::value(b.last());
        assert(x * x >= 0 as real) by (nonlinear_arith);
    }
}

/// The length of the difference of two embeddings is their exact distance, but for a
/// thousandth of its square.
pub proof fn differences_have_the_distance(m: Arithmetic, a: Seq<Single>, b: Seq<Single>)
    requires
        rounding::rounds(m),
        a.len() == b.len() <= 1536,
        rounding::all_finite(a),
        rounding::all_finite(b),
        1 as real / 1000000000000000 as real <= apart(a, b) <= 100000 as real,
    ensures
        ({
            let d = numeric::length(m, numeric::differences(m, a, b));
            let square = rounding::value(d) * rounding::value(d);
            &&& d.finite()
            &&& rounding::value(d) >= 0 as real
            &&& apart(a, b) * 999 as real / 1000 as real <= square <= apart(a, b) * 1001 as real
                / 1000 as real
        }),
{
    lemma_apart(m, a, b);
    let gaps = numeric::differences(m, a, b);
    let e = apart(a, b);
    let u = rounding::slip();
    let s = rounding::squares(gaps);
    assert(e * 9999 as real / 10000 as real <= s <= e * 10001 as real / 10000 as real) by (
        nonlinear_arith)
        requires
            (1 as real - 3 as real * u) * e <= s,
            s <= (1 as real + 3 as real * u) * e,
            u == 1 as real / 16777216 as real,
            e >= 0 as real,
    ;
    rounding::lemma_length(m, gaps);
    let v = rounding::value(numeric::length(m, gaps));
    let square = v * v;
    let d = rounding::leeway();
    assert(e * 999 as real / 1000 as real <= square <= e * 1001 as real / 1000 as real) by (
        nonlinear_arith)
        requires
            (1 as real - d) * s <= square,
            square <= (1 as real + d) * s,
            d == 918 as real / 10000000 as real,
            e * 9999 as real / 10000 as real <= s <= e * 10001 as real / 10000 as real,
            e >= 0 as real,
    ;
}

} // verus!
