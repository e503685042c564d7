//! What rounding may do to embeddings.
//!
//! The laws here hold in every arithmetic whose operations in single precision give
//! the exact result but for a bounded error.

use vstd::prelude::*;

use crate::float::{Single, SINGLE_ONE, SINGLE_SIGN};
use crate::fpu;
use crate::fpu::Arithmetic;
use crate::numeric;
use crate::vector;
use crate::vector::VECTOR_DIM;

verus! {

// ---------------------------------------------------------------------------
// Values
// ---------------------------------------------------------------------------

/// A magnitude in units of the smallest positive number, which is `2^-149`.
pub open spec fn units(magnitude: int) -> int {
    let exponent = magnitude / 0x80_0000;
    let fraction = magnitude % 0x80_0000;
    if exponent <= 0 {
        fraction
    } else {
        (0x80_0000 + fraction) * vstd::arithmetic::power2::pow2((exponent - 1) as nat)
    }
}

/// The value of a finite number.
pub open spec fn value(number: Single) -> real {
    let size = units(number.magnitude()) as real / vstd::arithmetic::power2::pow2(149) as real;
    if number.bits >= SINGLE_SIGN {
        -size
    } else {
        size
    }
}

/// The size of a value.
pub open spec fn size(x: real) -> real {
    if x < 0 as real {
        -x
    } else {
        x
    }
}

/// The larger a magnitude, the more units.
proof fn lemma_units_grow(a: int, b: int)
    requires
        0 <= a < b,
    ensures
        0 <= units(a) < units(b),
{
    let ea = a / 0x80_0000;
    let eb = b / 0x80_0000;
    let fa = a % 0x80_0000;
    let fb = b % 0x80_0000;
    assert(ea <= eb);
    if ea > 0 {
        vstd::arithmetic::power2::lemma_pow2_pos((ea - 1) as nat);
    }
    if eb > 0 {
        vstd::arithmetic::power2::lemma_pow2_pos((eb - 1) as nat);
    }
    if ea == eb {
        assert(fa < fb);
        if ea > 0 {
            let p = vstd::arithmetic::power2::pow2((ea - 1) as nat) as int;
            assert((0x80_0000 + fa) * p < (0x80_0000 + fb) * p) by (nonlinear_arith)
                requires
                    fa < fb,
                    p > 0,
            ;
            assert(0 <= (0x80_0000 + fa) * p) by (nonlinear_arith)
                requires
                    fa >= 0,
                    p > 0,
            ;
        }
    } else if ea == 0 {
        let q = vstd::arithmetic::power2::pow2((eb - 1) as nat) as int;
        assert((0x80_0000 + fb) * q >= 0x80_0000 + fb) by (nonlinear_arith)
            requires
                q >= 1,
                fb >= 0,
        ;
    } else {
        let p = vstd::arithmetic::power2::pow2((ea - 1) as nat) as int;
        let q = vstd::arithmetic::power2::pow2((eb - 1) as nat) as int;
        assert(q >= 2 * p) by {
            vstd::arithmetic::power2::lemma_pow2_unfold(ea as nat);
            if ea < eb - 1 {
                vstd::arithmetic::power2::lemma_pow2_strictly_increases(
                    ea as nat,
                    (eb - 1) as nat,
                );
            }
        }
        assert((0x80_0000 + fa) * p < (0x80_0000 + fb) * q) by (nonlinear_arith)
            requires
                0 <= fa < 0x80_0000,
                fb >= 0,
                p > 0,
                q >= 2 * p,
        ;
        assert(0 <= (0x80_0000 + fa) * p) by (nonlinear_arith)
            requires
                fa >= 0,
                p > 0,
        ;
    }
}

/// Values are ordered as the numbers are.
pub proof fn lemma_values_are_ordered(a: Single, b: Single)
    ensures
        value(a) <= value(b) <==> a.rank() <= b.rank(),
        value(a) < value(b) <==> a.rank() < b.rank(),
{
    vstd::arithmetic::power2::lemma_pow2_pos(149);
    let d = vstd::arithmetic::power2::pow2(149) as real;
    let ua = units(a.magnitude());
    let ub = units(b.magnitude());
    if a.magnitude() < b.magnitude() {
        lemma_units_grow(a.magnitude(), b.magnitude());
    } else if b.magnitude() < a.magnitude() {
        lemma_units_grow(b.magnitude(), a.magnitude());
    }
    if a.magnitude() > 0 {
        lemma_units_grow(0, a.magnitude());
    }
    if b.magnitude() > 0 {
        lemma_units_grow(0, b.magnitude());
    }
    assert(units(0) == 0);
    lemma_quotients_are_ordered(ua as real, ub as real, d);
    lemma_quotients_are_ordered(ua as real, 0 as real, d);
    lemma_quotients_are_ordered(ub as real, 0 as real, d);
    assert(0 as real / d == 0 as real) by (nonlinear_arith)
        requires
            d > 0 as real,
    ;
}

pub proof fn lemma_quotients_are_ordered(a: real, b: real, d: real)
    requires
        d > 0 as real,
    ensures
        a / d <= b / d <==> a <= b,
        a / d < b / d <==> a < b,
{
    assert((a / d) * d == a && (b / d) * d == b) by (nonlinear_arith)
        requires
            d > 0 as real,
    ;
    let x = a / d;
    let y = b / d;
    assert(x <= y <==> x * d <= y * d) by (nonlinear_arith)
        requires
            d > 0 as real,
    ;
}

/// The value of a number whose units are known.
proof fn lemma_value(number: Single, digits: int, shift: nat)
    requires
        number.bits < SINGLE_SIGN,
        shift <= 149,
        units(number.magnitude()) == digits * vstd::arithmetic::power2::pow2(shift),
    ensures
        value(number) == digits as real / vstd::arithmetic::power2::pow2((149 - shift) as nat) as real,
{
    vstd::arithmetic::power2::lemma_pow2_adds(shift, (149 - shift) as nat);
    vstd::arithmetic::power2::lemma_pow2_pos(shift);
    vstd::arithmetic::power2::lemma_pow2_pos((149 - shift) as nat);
    let p = vstd::arithmetic::power2::pow2(shift) as int;
    let q = vstd::arithmetic::power2::pow2((149 - shift) as nat) as int;
    assert((p * q) as real == (p as real) * (q as real)) by (nonlinear_arith);
    assert((digits * p) as real == (digits as real) * (p as real)) by (nonlinear_arith);
    let (x, y, z) = (digits as real, p as real, q as real);
    assert((x * y) / (y * z) == x / z) by (nonlinear_arith)
        requires
            y > 0 as real,
            z > 0 as real,
    ;
}

/// Zero, one, the bounds on lengths, and the floor of trust.
pub proof fn lemma_constants()
    ensures
        value(Single { bits: 0 }) == 0 as real,
        value(Single { bits: 0x3F80_0000 }) == 1 as real,
        value(Single { bits: 0x38D1_B717 }) == 13743895 as real / 137438953472 as real,
        value(Single { bits: 0x322B_CC77 }) == 11258999 as real / 1125899906842624 as real,
        value(Single { bits: 0x3C23_D70A }) == 10737418 as real / 1073741824 as real,
{
    vstd::arithmetic::power2::lemma2_to64();
    vstd::arithmetic::power2::lemma2_to64_rest();
    vstd::arithmetic::power2::lemma_pow2_pos(149);
    assert(units(0) == 0);
    lemma_quotients_are_ordered(0 as real, 0 as real, vstd::arithmetic::power2::pow2(149) as real);
    let d = vstd::arithmetic::power2::pow2(149) as real;
    assert(0 as real / d == 0 as real) by (nonlinear_arith)
        requires
            d > 0 as real,
    ;
    lemma_value(Single { bits: 0x3F80_0000 }, 0x80_0000, 126);
    assert(0x80_0000 as real / 8388608 as real == 1 as real);
    lemma_value(Single { bits: 0x38D1_B717 }, 13743895, 112);
    lemma_value(Single { bits: 0x322B_CC77 }, 11258999, 99);
    lemma_value(Single { bits: 0x3C23_D70A }, 10737418, 119);
}

// ---------------------------------------------------------------------------
// Rounding
// ---------------------------------------------------------------------------

/// The largest relative error of an operation, `2^-24`.
pub open spec fn slip() -> real {
    1 as real / 16777216 as real
}

/// The largest error of an operation close to zero, `2^-150`.
pub open spec fn speck() -> real {
    1 as real / vstd::arithmetic::power2::pow2(150) as real
}

/// A bound below which nothing overflows, `2^127`.
pub open spec fn brim() -> real {
    vstd::arithmetic::power2::pow2(127) as real
}

/// Whether a result is the exact one, rounded: it is finite unless the exact one is
/// too large and, where it is finite, its error is bounded and its sign is right.
pub open spec fn rounded(result: Single, exact: real, close_to_zero: real) -> bool {
    &&& size(exact) < brim() ==> result.finite()
    &&& result.finite() ==> {
        &&& size(value(result) - exact) <= slip() * size(exact) + close_to_zero
        &&& exact >= 0 as real ==> value(result) >= 0 as real
        &&& exact <= 0 as real ==> value(result) <= 0 as real
    }
}

/// Whether an arithmetic rounds: its results in single precision are the exact ones
/// but for a bounded error, sums do not depend on the order, and what is not finite
/// does not become so again.
pub open spec fn rounds(m: Arithmetic) -> bool {
    &&& forall|a: Single, b: Single| #[trigger] fpu::sum(m, a, b) == fpu::sum(m, b, a)
    &&& forall|a: Single, b: Single| #[trigger]
        fpu::sum(m, a, b).finite() ==> a.finite() && b.finite()
    &&& forall|a: Single, b: Single|
        a.finite() && b.finite() ==> rounded(
            #[trigger] fpu::sum(m, a, b),
            value(a) + value(b),
            0 as real,
        )
    &&& forall|a: Single, b: Single| #[trigger]
        fpu::difference(m, a, b).finite() ==> a.finite() && b.finite()
    &&& forall|a: Single, b: Single|
        a.finite() && b.finite() ==> rounded(
            #[trigger] fpu::difference(m, a, b),
            value(a) - value(b),
            0 as real,
        )
    &&& forall|a: Single, b: Single| #[trigger]
        fpu::product(m, a, b).finite() ==> a.finite() && b.finite()
    &&& forall|a: Single, b: Single|
        a.finite() && b.finite() ==> rounded(
            #[trigger] fpu::product(m, a, b),
            value(a) * value(b),
            speck(),
        )
    &&& forall|a: Single, b: Single|
        a.finite() && b.finite() && value(b) != 0 as real ==> rounded(
            #[trigger] fpu::quotient(m, a, b),
            value(a) / value(b),
            speck(),
        )
    &&& forall|a: Single| #[trigger]
        fpu::root(m, a).finite() ==> a.finite() && value(a) >= 0 as real
    &&& forall|a: Single|
        a.finite() && value(a) >= 0 as real ==> root_rounded(#[trigger] fpu::root(m, a), value(a))
}

/// Whether a result is the square root of a value, rounded.
pub open spec fn root_rounded(result: Single, square: real) -> bool {
    &&& result.finite()
    &&& value(result) >= 0 as real
    &&& (1 as real - slip()) * (1 as real - slip()) * square <= value(result) * value(result)
    &&& value(result) * value(result) <= (1 as real + slip()) * (1 as real + slip()) * square
}

/// How small the errors close to zero are, and how far off overflow is.
pub proof fn lemma_extremes()
    ensures
        (0 as real) < speck(),
        speck() * 10000000000000000000000000000000000000000 as real <= 1 as real,
        speck() <= 1 as real / 10000000000000000000000000000000000000000 as real,
        brim() >= 100000000000000000000000000000000000000 as real,
{
    vstd::arithmetic::power2::lemma2_to64();
    vstd::arithmetic::power2::lemma2_to64_rest();
    vstd::arithmetic::power2::lemma_pow2_adds(63, 64);
    vstd::arithmetic::power2::lemma_pow2_adds(64, 64);
    vstd::arithmetic::power2::lemma_pow2_adds(128, 22);
    assert(vstd::arithmetic::power2::pow2(127) == 0x8000_0000_0000_0000 * 0x1_0000_0000_0000_0000);
    assert(vstd::arithmetic::power2::pow2(128) == 0x1_0000_0000_0000_0000
        * 0x1_0000_0000_0000_0000);
    assert(vstd::arithmetic::power2::pow2(150) == 0x1_0000_0000_0000_0000 * 0x1_0000_0000_0000_0000
        * 0x40_0000);
    let d = vstd::arithmetic::power2::pow2(150) as real;
    assert(d >= 10000000000000000000000000000000000000000 as real);
    assert(1 as real / d > 0 as real && (1 as real / d)
        * 10000000000000000000000000000000000000000 as real <= 1 as real) by (nonlinear_arith)
        requires
            d >= 10000000000000000000000000000000000000000 as real,
    ;
}

// ---------------------------------------------------------------------------
// Lengths
// ---------------------------------------------------------------------------

/// The exact sum of the squares of all components.
pub open spec fn squares(values: Seq<Single>) -> real
    decreases values.len(),
{
    if values.len() == 0 {
        0 as real
    } else {
        squares(values.drop_last()) + value(values.last()) * value(values.last())
    }
}

proof fn lemma_square(x: real)
    ensures
        x * x >= 0 as real,
        size(x) * size(x) == x * x,
{
    assert(x * x >= 0 as real) by (nonlinear_arith);
    assert((-x) * (-x) == x * x) by (nonlinear_arith);
}

pub proof fn lemma_squares(values: Seq<Single>)
    ensures
        squares(values) >= 0 as real,
        forall|i: int|
            0 <= i < values.len() ==> value(#[trigger] values[i]) * value(values[i]) <= squares(
                values,
            ),
    decreases values.len(),
{
    if values.len() > 0 {
        let shorter = values.drop_last();
        lemma_squares(shorter);
        lemma_square(value(values.last()));
        assert forall|i: int| 0 <= i < values.len() implies value(#[trigger] values[i]) * value(
            values[i],
        ) <= squares(values) by {
            if i < shorter.len() {
                assert(shorter[i] == values[i]);
            }
        }
    }
}

/// A bit more than the largest relative error of an operation.
pub open spec fn drift() -> real {
    slip() * (8193 as real / 8192 as real)
}

/// The error of a running sum grows by one operation at a time.
proof fn lemma_running_error(
    total: real,
    exact: real,
    x: real,
    p: real,
    next: real,
    n: real,
    t: real,
)
    requires
        exact >= 0 as real,
        x >= 0 as real,
        0 as real <= n <= 1536 as real,
        t >= 0 as real,
        size(total - exact) <= (n + 1 as real) * drift() * exact + 2 as real * n * t,
        size(p - x) <= slip() * x + t,
        size(next - (total + p)) <= slip() * size(total + p),
    ensures
        size(next - (exact + x)) <= (n + 2 as real) * drift() * (exact + x) + 2 as real * (n
            + 1 as real) * t,
{
    let u = slip();
    let g = (n + 1 as real) * drift();
    let s = exact + x;
    let w = drift();
    assert(w == 8193 as real / 137438953472 as real);
    assert(w <= g <= 1537 as real * w) by (nonlinear_arith)
        requires
            g == (n + 1 as real) * w,
            0 as real <= n <= 1536 as real,
            w > 0 as real,
    ;
    assert(u * (1 as real + g) <= w) by (nonlinear_arith)
        requires
            g <= 1537 as real * w,
            w == 8193 as real / 137438953472 as real,
            u == 1 as real / 16777216 as real,
    ;
    let e = 2 as real * n * t;
    let d = g * s + e + t;
    assert(g * exact + u * x <= g * s) by (nonlinear_arith)
        requires
            u <= g,
            x >= 0 as real,
            s == exact + x,
    ;
    assert(size(total + p - s) <= d);
    assert(size(total + p) <= s + d);
    assert(u * size(total + p) <= u * (s + d)) by (nonlinear_arith)
        requires
            size(total + p) <= s + d,
            u > 0 as real,
    ;
    assert(size(next - s) <= d + u * (s + d));
    let h = (n + 2 as real) * drift();
    assert(h == g + drift()) by (nonlinear_arith)
        requires
            h == (n + 2 as real) * drift(),
            g == (n + 1 as real) * drift(),
    ;
    assert(g * s + u * s + u * (g * s) <= h * s) by (nonlinear_arith)
        requires
            u * (1 as real + g) <= h - g,
            s >= 0 as real,
    ;
    assert(u * (s + d) == u * s + u * (g * s) + u * (e + t)) by (nonlinear_arith)
        requires
            d == g * s + e + t,
    ;
    assert(u * (e + t) <= t) by (nonlinear_arith)
        requires
            e == 2 as real * n * t,
            0 as real <= n <= 1536 as real,
            t >= 0 as real,
            (0 as real) < u,
            u * 4000 as real <= 1 as real,
    ;
    assert(2 as real * (n + 1 as real) * t == e + 2 as real * t) by (nonlinear_arith)
        requires
            e == 2 as real * n * t,
    ;
}

/// A sum of squares is the exact one but for a bounded error, and so finite unless it
/// is very large.
proof fn lemma_sum_of_squares(m: Arithmetic, values: Seq<Single>)
    requires
        rounds(m),
        values.len() <= 1536,
        numeric::inner(m, values, values).finite() || (squares(values) <= 1000000 as real
            && forall|i: int| 0 <= i < values.len() ==> (#[trigger] values[i]).finite()),
    ensures
        numeric::inner(m, values, values).finite(),
        value(numeric::inner(m, values, values)) >= 0 as real,
        forall|i: int| 0 <= i < values.len() ==> (#[trigger] values[i]).finite(),
        size(value(numeric::inner(m, values, values)) - squares(values)) <= (values.len() as real
            + 1 as real) * drift() * squares(values) + 2 as real * (values.len() as real) * speck(),
    decreases values.len(),
{
    lemma_constants();
    lemma_extremes();
    let terms = numeric::products(m, values, values);
    let all = numeric::inner(m, values, values);
    if values.len() == 0 {
        assert(all == (Single { bits: 0 }));
        assert((values.len() as real + 1 as real) * drift() * squares(values) == 0 as real) by (
            nonlinear_arith)
            requires
                squares(values) == 0 as real,
        ;
        assert(2 as real * (values.len() as real) * speck() == 0 as real) by (nonlinear_arith)
            requires
                values.len() == 0,
        ;
    } else {
        let shorter = values.drop_last();
        let last = values.last();
        let x = value(last);
        let fewer = numeric::products(m, shorter, shorter);
        assert(terms.drop_last() =~= fewer);
        let before = numeric::inner(m, shorter, shorter);
        let term = fpu::product(m, last, last);
        assert(all == fpu::sum(m, before, term));
        lemma_squares(shorter);
        lemma_square(x);
        let n = shorter.len() as real;
        if !all.finite() {
            assert forall|i: int| 0 <= i < shorter.len() implies (
            #[trigger] shorter[i]).finite() by {
                assert(values[i].finite());
            }
            assert(values[values.len() - 1].finite());
        }
        lemma_sum_of_squares(m, shorter);
        assert(last.finite());
        assert(rounded(term, x * x, speck()));
        assert(size(x * x) == x * x);
        if !all.finite() {
            assert(x * x <= 1000000 as real);
            assert(term.finite());
            assert((n + 1 as real) * drift() * squares(shorter) <= 1000000 as real) by (
                nonlinear_arith)
                requires
                    0 as real <= squares(shorter) <= 1000000 as real,
                    0 as real <= n <= 1536 as real,
                    (0 as real) < drift(),
                    drift() * 2000 as real <= 1 as real,
            ;
            assert(2 as real * n * speck() <= 1 as real) by (nonlinear_arith)
                requires
                    0 as real <= n <= 1536 as real,
                    (0 as real) < speck(),
                    speck() * 4000 as real <= 1 as real,
            ;
            assert(size(value(before) + value(term)) < brim());
        }
        assert(rounded(all, value(before) + value(term), 0 as real));
        assert(all.finite());
        lemma_running_error(
            value(before),
            squares(shorter),
            x * x,
            value(term),
            value(all),
            n,
            speck(),
        );
        assert(n + 1 as real == values.len() as real);
        assert forall|i: int| 0 <= i < values.len() implies (#[trigger] values[i]).finite() by {
            if i < shorter.len() {
                assert(shorter[i].finite());
            }
        }
    }
}

/// How far the square of a length can be off, relative to the exact one: `9.18e-5`.
pub open spec fn leeway() -> real {
    918 as real / 10000000 as real
}

/// A sum of squares that is not very small has a small relative error.
proof fn lemma_relative_error(total: real, exact: real, n: real, t: real)
    requires
        exact >= 9 as real / 100000000000000000 as real || total >= 98 as real
            / 1000000000000000000 as real,
        exact >= 0 as real,
        0 as real <= n <= 1536 as real,
        0 as real <= t <= 1 as real / 10000000000000000000000000000000000000000 as real,
        size(total - exact) <= (n + 1 as real) * drift() * exact + 2 as real * n * t,
    ensures
        exact >= 9 as real / 100000000000000000 as real,
        size(total - exact) <= (9163 as real / 100000000 as real) * exact,
{
    let w = drift();
    assert(w == 8193 as real / 137438953472 as real);
    assert((n + 1 as real) * w * exact <= 1537 as real * w * exact) by (nonlinear_arith)
        requires
            0 as real <= n <= 1536 as real,
            w > 0 as real,
            exact >= 0 as real,
    ;
    assert(1537 as real * w * exact <= (91624 as real / 1000000000 as real) * exact) by (
        nonlinear_arith)
        requires
            w == 8193 as real / 137438953472 as real,
            exact >= 0 as real,
    ;
    assert(2 as real * n * t <= 3072 as real * t) by (nonlinear_arith)
        requires
            0 as real <= n <= 1536 as real,
            t >= 0 as real,
    ;
}

/// A length has the exact one's square but for a bounded error.
pub proof fn lemma_length(m: Arithmetic, values: Seq<Single>)
    requires
        rounds(m),
        values.len() <= 1536,
        numeric::inner(m, values, values).finite() || (squares(values) <= 1000000 as real
            && forall|i: int| 0 <= i < values.len() ==> (#[trigger] values[i]).finite()),
        squares(values) >= 9 as real / 100000000000000000 as real,
    ensures
        numeric::length(m, values).finite(),
        value(numeric::length(m, values)) >= 0 as real,
        (1 as real - leeway()) * squares(values) <= value(numeric::length(m, values)) * value(
            numeric::length(m, values),
        ) <= (1 as real + leeway()) * squares(values),
{
    lemma_extremes();
    lemma_sum_of_squares(m, values);
    let total = value(numeric::inner(m, values, values));
    let exact = squares(values);
    lemma_relative_error(total, exact, values.len() as real, speck());
    let norm = numeric::length(m, values);
    assert(total >= 0 as real);
    assert(root_rounded(norm, total));
    let square = value(norm) * value(norm);
    lemma_root_error(square, total, exact);
}

proof fn lemma_root_error(square: real, total: real, exact: real)
    requires
        exact >= 0 as real,
        size(total - exact) <= (9163 as real / 100000000 as real) * exact,
        (1 as real - slip()) * (1 as real - slip()) * total <= square,
        square <= (1 as real + slip()) * (1 as real + slip()) * total,
    ensures
        (1 as real - leeway()) * exact <= square <= (1 as real + leeway()) * exact,
{
    let u = slip();
    let lo = (1 as real - u) * (1 as real - u);
    let hi = (1 as real + u) * (1 as real + u);
    assert(lo >= 99999988 as real / 100000000 as real && hi <= 100000012 as real / 100000000 as real)
        by (nonlinear_arith)
        requires
            u == 1 as real / 16777216 as real,
            lo == (1 as real - u) * (1 as real - u),
            hi == (1 as real + u) * (1 as real + u),
    ;
    let d = leeway();
    assert((1 as real - d) * exact == (9999082 as real / 10000000 as real) * exact && (1 as real
        + d) * exact == (10000918 as real / 10000000 as real) * exact) by (nonlinear_arith)
        requires
            d == 918 as real / 10000000 as real,
    ;
    assert(total >= 0 as real);
    assert(lo * total >= (99999988 as real / 100000000 as real) * total) by (nonlinear_arith)
        requires
            lo >= 99999988 as real / 100000000 as real,
            total >= 0 as real,
    ;
    assert(hi * total <= (100000012 as real / 100000000 as real) * total) by (nonlinear_arith)
        requires
            hi <= 100000012 as real / 100000000 as real,
            total >= 0 as real,
    ;
}

/// A length that is not very small has components that are not.
proof fn lemma_length_tells(m: Arithmetic, values: Seq<Single>)
    requires
        rounds(m),
        values.len() <= 1536,
        numeric::length(m, values).finite(),
        value(numeric::length(m, values)) >= 99 as real / 10000000000 as real,
    ensures
        numeric::inner(m, values, values).finite(),
        squares(values) >= 9 as real / 100000000000000000 as real,
{
    lemma_extremes();
    let inner = numeric::inner(m, values, values);
    let norm = numeric::length(m, values);
    assert(norm == fpu::root(m, inner));
    lemma_sum_of_squares(m, values);
    lemma_squares(values);
    assert(root_rounded(norm, value(inner)));
    let x = value(norm);
    let total = value(inner);
    let u = slip();
    let hi = (1 as real + u) * (1 as real + u);
    assert(x * x >= (99 as real / 10000000000 as real) * (99 as real / 10000000000 as real)) by (
        nonlinear_arith)
        requires
            x >= 99 as real / 10000000000 as real,
    ;
    assert(hi <= 100000012 as real / 100000000 as real) by (nonlinear_arith)
        requires
            u == 1 as real / 16777216 as real,
            hi == (1 as real + u) * (1 as real + u),
    ;
    assert(hi * total <= (100000012 as real / 100000000 as real) * total) by (nonlinear_arith)
        requires
            hi <= 100000012 as real / 100000000 as real,
            total >= 0 as real,
    ;
    lemma_relative_error(total, squares(values), values.len() as real, speck());
}

// ---------------------------------------------------------------------------
// Scaling
// ---------------------------------------------------------------------------

/// The square of a number with a small error has a small error.
proof fn lemma_square_error(y: real, a: real, u: real, t: real)
    requires
        (0 as real) < u <= 1 as real / 1000 as real,
        0 as real <= t,
        t <= u / 100 as real,
        size(y - a) <= u * size(a) + t,
    ensures
        size(y * y - a * a) <= 4 as real * u * (a * a) + t,
{
    let z = y - a;
    let c = size(a);
    lemma_square(a);
    assert(c >= 0 as real && c * c == a * a);
    assert(y * y - a * a == 2 as real * (a * z) + z * z) by (nonlinear_arith)
        requires
            z == y - a,
    ;
    assert(size(a * z) <= c * (u * c + t)) by {
        let b = u * c + t;
        assert(-b <= z <= b);
        assert(a * z <= c * b && -(c * b) <= a * z) by (nonlinear_arith)
            requires
                -b <= z <= b,
                c == a || c == -a,
                c >= 0 as real,
        ;
    }
    let b = u * c + t;
    assert(z * z <= b * b) by (nonlinear_arith)
        requires
            -b <= z <= b,
    ;
    assert(z * z >= 0 as real) by (nonlinear_arith);
    assert(2 as real * (c * b) + b * b <= 4 as real * u * (c * c) + t) by (nonlinear_arith)
        requires
            b == u * c + t,
            c >= 0 as real,
            (0 as real) < u <= 1 as real / 1000 as real,
            0 as real <= t,
            t <= u / 100 as real,
    ;
}

/// Scaling divides the squares of all components by that of the length, but for a
/// bounded error.
proof fn lemma_scaling(m: Arithmetic, raw: Seq<Single>, norm: Single)
    requires
        rounds(m),
        norm.finite(),
        value(norm) > 0 as real,
        forall|i: int|
            0 <= i < raw.len() ==> (#[trigger] raw[i]).finite() && size(value(raw[i]) / value(norm))
                <= 2 as real,
    ensures
        ({
            let unit = vector::scaled_down(m, raw, norm);
            let shrunk = squares(raw) * (1 as real / (value(norm) * value(norm)));
            &&& forall|i: int|
                0 <= i < raw.len() ==> (#[trigger] unit[i]).finite() && size(
                    value(unit[i]) - value(raw[i]) / value(norm),
                ) <= slip() * size(value(raw[i]) / value(norm)) + speck()
            &&& size(squares(unit) - shrunk) <= 4 as real * slip() * shrunk + (raw.len() as real)
                * speck()
        }),
    decreases raw.len(),
{
    lemma_extremes();
    let unit = vector::scaled_down(m, raw, norm);
    let x = value(norm);
    let q = 1 as real / (x * x);
    if raw.len() == 0 {
        assert(squares(raw) * q == 0 as real) by (nonlinear_arith)
            requires
                squares(raw) == 0 as real,
        ;
        assert((raw.len() as real) * speck() == 0 as real) by (nonlinear_arith)
            requires
                raw.len() == 0,
        ;
    } else {
        let shorter = raw.drop_last();
        let fewer = vector::scaled_down(m, shorter, norm);
        assert(unit.drop_last() =~= fewer);
        assert forall|i: int| 0 <= i < shorter.len() implies (#[trigger] shorter[i]).finite()
            && size(value(shorter[i]) / value(norm)) <= 2 as real by {
            assert(raw[i].finite());
        }
        lemma_scaling(m, shorter, norm);
        let last = raw.last();
        let r = value(last);
        assert(raw[raw.len() - 1].finite());
        let a = r / x;
        let quotient = fpu::quotient(m, last, norm);
        assert(rounded(quotient, a, speck()));
        let y = value(quotient);
        lemma_square_error(y, a, slip(), speck());
        assert(unit.last() == quotient);
        assert(a * a == r * r * q) by (nonlinear_arith)
            requires
                a == r / x,
                q == 1 as real / (x * x),
                x > 0 as real,
        ;
        let before = squares(shorter);
        assert(squares(raw) * q == before * q + r * r * q) by (nonlinear_arith)
            requires
                squares(raw) == before + r * r,
        ;
        let u = slip();
        assert(4 as real * u * (before * q + a * a) == 4 as real * u * (before * q) + 4 as real * u
            * (a * a)) by (nonlinear_arith);
        let n = shorter.len() as real;
        assert(raw.len() as real == n + 1 as real);
        assert((n + 1 as real) * speck() == n * speck() + speck()) by (nonlinear_arith);
        assert forall|i: int| 0 <= i < raw.len() implies (#[trigger] unit[i]).finite() && size(
            value(unit[i]) - value(raw[i]) / value(norm),
        ) <= slip() * size(value(raw[i]) / value(norm)) + speck() by {
            if i < shorter.len() {
                assert(fewer[i].finite());
                assert(fewer[i] == unit[i]);
                assert(shorter[i] == raw[i]);
            }
        }
    }
}

/// How far the exact square of the length of an embedding can be off one: `9.21e-5`.
pub open spec fn margin() -> real {
    921 as real / 10000000 as real
}

/// Whether the exact square of the length of a vector is this close to one, with finite
/// components and the dimension of an embedding.
pub open spec fn nearly_unit(unit: Seq<Single>, off: real) -> bool {
    &&& unit.len() == VECTOR_DIM
    &&& forall|i: int| 0 <= i < unit.len() ==> (#[trigger] unit[i]).finite()
    &&& size(squares(unit) - 1 as real) <= off
}

/// Whether a vector has the exact length one but for what rounding does to it.
pub open spec fn well_scaled(unit: Seq<Single>) -> bool {
    nearly_unit(unit, margin())
}

/// No component of a vector is longer than the vector.
proof fn lemma_components(raw: Seq<Single>, norm: Single, square: real)
    requires
        value(norm) > 0 as real,
        squares(raw) <= square,
        square <= 2 as real * (value(norm) * value(norm)),
    ensures
        forall|i: int|
            0 <= i < raw.len() ==> size(value(#[trigger] raw[i]) / value(norm)) <= 2 as real,
{
    lemma_squares(raw);
    let x = value(norm);
    assert forall|i: int| 0 <= i < raw.len() implies size(value(#[trigger] raw[i]) / x)
        <= 2 as real by {
        let r = value(raw[i]);
        assert(r * r <= squares(raw));
        assert(-(2 as real) <= r / x <= 2 as real) by (nonlinear_arith)
            requires
                r * r <= 2 as real * (x * x),
                x > 0 as real,
        ;
    }
}

/// What can be scaled becomes well scaled, and its length is one but for the tolerance.
proof fn lemma_scaled(m: Arithmetic, raw: Seq<Single>)
    requires
        rounds(m),
        raw.len() == VECTOR_DIM,
        !vector::degenerate(numeric::length(m, raw)),
    ensures
        well_scaled(vector::scaled_down(m, raw, numeric::length(m, raw))),
{
    lemma_constants();
    lemma_extremes();
    let norm = numeric::length(m, raw);
    let smallest = Single { bits: vector::SMALLEST_NORM };
    assert(!norm.nan() && !smallest.nan());
    lemma_values_are_ordered(norm, smallest);
    assert(value(norm) >= 99 as real / 10000000000 as real);
    lemma_length_tells(m, raw);
    lemma_length(m, raw);
    lemma_sum_of_squares(m, raw);
    lemma_squares(raw);
    let x = value(norm);
    let e = squares(raw);
    let d = leeway();
    let q = 1 as real / (x * x);
    assert(e <= 2 as real * (x * x)) by (nonlinear_arith)
        requires
            (1 as real - d) * e <= x * x,
            d == 918 as real / 10000000 as real,
            e >= 0 as real,
    ;
    lemma_components(raw, norm, e);
    lemma_scaling(m, raw, norm);
    let share = e * q;
    lemma_share(e, x, share);
    let unit = vector::scaled_down(m, raw, norm);
    assert(1536 as real * speck() <= 1 as real / 100000000000 as real);
    assert(unit.len() == VECTOR_DIM);
    assert(raw.len() as real == 1536 as real);
    assert(4 as real * slip() * share <= 25 as real / 100000000 as real) by (nonlinear_arith)
        requires
            slip() == 1 as real / 16777216 as real,
            share <= 100009181 as real / 100000000 as real,
            share >= 0 as real,
    ;
}

/// The exact square of a length, as a share of what was computed.
proof fn lemma_share(e: real, x: real, share: real)
    requires
        x > 0 as real,
        share == e * (1 as real / (x * x)),
        (1 as real - leeway()) * e <= x * x <= (1 as real + leeway()) * e,
    ensures
        9999082 as real / 10000000 as real <= share <= 100009181 as real / 100000000 as real,
{
    let d = leeway();
    let s = x * x;
    assert(s > 0 as real) by (nonlinear_arith)
        requires
            s == x * x,
            x > 0 as real,
    ;
    assert(share * s == e) by (nonlinear_arith)
        requires
            share == e * (1 as real / s),
            s > 0 as real,
    ;
    assert((1 as real - d) * share <= 1 as real) by (nonlinear_arith)
        requires
            (1 as real - d) * e <= s,
            share * s == e,
            s > 0 as real,
    ;
    assert((1 as real + d) * share >= 1 as real) by (nonlinear_arith)
        requires
            (1 as real + d) * e >= s,
            share * s == e,
            s > 0 as real,
    ;
    assert(share <= 100009181 as real / 100000000 as real && share >= 9999082 as real
        / 10000000 as real) by (nonlinear_arith)
        requires
            (1 as real - d) * share <= 1 as real,
            (1 as real + d) * share >= 1 as real,
            d == 918 as real / 10000000 as real,
    ;
}

/// Whether the length of a vector, as it is computed, is one but for less than `1e-4`.
pub open spec fn unit_length(m: Arithmetic, unit: Seq<Single>) -> bool {
    numeric::length(m, unit).finite() && size(value(numeric::length(m, unit)) - 1 as real) < 1 as real
        / 10000 as real
}

/// A well scaled vector has length one but for the tolerance.
pub proof fn lemma_unit_length(m: Arithmetic, unit: Seq<Single>)
    requires
        rounds(m),
        well_scaled(unit),
    ensures
        !vector::off_unit(m, numeric::length(m, unit)),
        unit_length(m, unit),
{
    lemma_constants();
    lemma_extremes();
    lemma_length(m, unit);
    let norm = numeric::length(m, unit);
    let x = value(norm);
    let e = squares(unit);
    let d = leeway();
    assert(-(93 as real / 1000000 as real) <= x - 1 as real <= 93 as real / 1000000 as real) by (
        nonlinear_arith)
        requires
            (1 as real - d) * e <= x * x <= (1 as real + d) * e,
            d == 918 as real / 10000000 as real,
            9999079 as real / 10000000 as real <= e <= 10000921 as real / 10000000 as real,
            x >= 0 as real,
    ;
    let one = Single { bits: SINGLE_ONE };
    let gap = fpu::difference(m, norm, one);
    assert(rounded(gap, x - 1 as real, 0 as real));
    assert(gap.finite());
    assert(slip() * size(x - 1 as real) <= 1 as real / 10000000 as real) by (nonlinear_arith)
        requires
            slip() == 1 as real / 16777216 as real,
            0 as real <= size(x - 1 as real) <= 1 as real,
    ;
    assert(size(value(gap)) <= 94 as real / 1000000 as real);
    let tolerance = Single { bits: vector::NORM_TOLERANCE };
    let gap_size = gap.absolute();
    assert(value(gap_size) == size(value(gap))) by {
        lemma_values_are_ordered(gap_size, Single { bits: 0 });
        assert(gap_size.magnitude() == gap.magnitude());
    }
    lemma_values_are_ordered(gap_size, tolerance);
}

/// An arithmetic that rounds scales to unit length.
pub proof fn rounding_scales_to_one(m: Arithmetic)
    requires
        rounds(m),
    ensures
        vector::scales_to_one(m),
{
    assert forall|raw: Seq<Single>|
        raw.len() == VECTOR_DIM && !vector::degenerate(
            numeric::length(m, raw),
        ) implies !vector::off_unit(
        m,
        numeric::length(m, #[trigger] vector::scaled_down(m, raw, numeric::length(m, raw))),
    ) by {
        lemma_scaled(m, raw);
        lemma_unit_length(m, vector::scaled_down(m, raw, numeric::length(m, raw)));
    }
}

/// An embedding that was made from raw components is well scaled, and its length is
/// one but for less than `1e-4`, in any arithmetic that rounds.
pub proof fn embeddings_are_well_scaled(m: Arithmetic, raw: Seq<Single>)
    requires
        rounds(m),
    ensures
        vector::embedding(m, raw) matches Ok(unit) ==> well_scaled(unit) && unit_length(m, unit)
            && !vector::off_unit(m, numeric::length(m, unit)),
{
    if vector::embedding(m, raw) is Ok {
        lemma_scaled(m, raw);
        lemma_unit_length(m, vector::scaled_down(m, raw, numeric::length(m, raw)));
    }
}

// ---------------------------------------------------------------------------
// Closeness
// ---------------------------------------------------------------------------

/// What is taken for a unit vector is one, but for `3e-4` in the square of its length.
pub proof fn lemma_taken_for_unit(m: Arithmetic, unit: Seq<Single>)
    requires
        rounds(m),
        unit.len() == VECTOR_DIM,
        !vector::off_unit(m, numeric::length(m, unit)),
    ensures
        nearly_unit(unit, 3 as real / 10000 as real),
        !vector::degenerate(numeric::length(m, unit)),
{
    lemma_constants();
    lemma_extremes();
    let norm = numeric::length(m, unit);
    let x = value(norm);
    let one = Single { bits: SINGLE_ONE };
    let gap = fpu::difference(m, norm, one);
    let tolerance = Single { bits: vector::NORM_TOLERANCE };
    let gap_size = gap.absolute();
    assert(gap_size.magnitude() == gap.magnitude());
    assert(gap.finite());
    assert(norm.finite());
    assert(rounded(gap, x - 1 as real, 0 as real));
    lemma_values_are_ordered(gap_size, tolerance);
    assert(value(gap_size) == size(value(gap))) by {
        lemma_values_are_ordered(gap_size, Single { bits: 0 });
    }
    let a = size(x - 1 as real);
    assert(slip() * a <= a / 1000000 as real) by (nonlinear_arith)
        requires
            slip() == 1 as real / 16777216 as real,
            a >= 0 as real,
    ;
    assert(a <= 10001 as real / 100000000 as real);
    lemma_length_tells(m, unit);
    lemma_length(m, unit);
    lemma_sum_of_squares(m, unit);
    let e = squares(unit);
    let d = leeway();
    assert(9998 as real / 10000 as real <= x <= 10002 as real / 10000 as real);
    assert(9997999 as real / 10000000 as real <= x * x <= 10002001 as real / 10000000 as real) by (
        nonlinear_arith)
        requires
            99989999 as real / 100000000 as real <= x <= 100010001 as real / 100000000 as real,
    ;
    assert(9997 as real / 10000 as real <= e <= 10003 as real / 10000 as real) by (nonlinear_arith)
        requires
            (1 as real - d) * e <= x * x <= (1 as real + d) * e,
            d == 918 as real / 10000000 as real,
            9997999 as real / 10000000 as real <= x * x <= 10002001 as real / 10000000 as real,
    ;
    let smallest = Single { bits: vector::SMALLEST_NORM };
    lemma_values_are_ordered(norm, smallest);
}

/// Whether one vector is another times a weight, but for a few roundings.
pub open spec fn weighted(raw: Seq<Single>, unit: Seq<Single>, w: real) -> bool {
    &&& raw.len() == unit.len()
    &&& forall|i: int|
        0 <= i < raw.len() ==> (#[trigger] raw[i]).finite() && size(
            value(raw[i]) - w * value(unit[i]),
        ) <= 3 as real * slip() * size(w * value(unit[i])) + 4 as real * speck()
}

proof fn lemma_weighted_squares(raw: Seq<Single>, unit: Seq<Single>, w: real)
    requires
        weighted(raw, unit, w),
    ensures
        size(squares(raw) - w * w * squares(unit)) <= 12 as real * slip() * (w * w * squares(unit))
            + (raw.len() as real) * (4 as real * speck()),
    decreases raw.len(),
{
    lemma_extremes();
    let n = raw.len() as real;
    if raw.len() == 0 {
        assert(w * w * squares(unit) == 0 as real) by (nonlinear_arith)
            requires
                squares(unit) == 0 as real,
        ;
        assert(n * (4 as real * speck()) == 0 as real) by (nonlinear_arith)
            requires
                n == 0 as real,
        ;
    } else {
        let (r, v) = (raw.drop_last(), unit.drop_last());
        assert forall|i: int| 0 <= i < r.len() implies (#[trigger] r[i]).finite() && size(
            value(r[i]) - w * value(v[i]),
        ) <= 3 as real * slip() * size(w * value(v[i])) + 4 as real * speck() by {
            assert(raw[i].finite());
            assert(r[i] == raw[i] && v[i] == unit[i]);
        }
        lemma_weighted_squares(r, v, w);
        let y = value(raw.last());
        let x = value(unit.last());
        let a = w * x;
        assert(raw[raw.len() - 1].finite());
        assert(raw[raw.len() - 1] == raw.last() && unit[raw.len() - 1] == unit.last());
        lemma_square_error(y, a, 3 as real * slip(), 4 as real * speck());
        let before = w * w * squares(v);
        assert(w * w * squares(unit) == before + a * a) by (nonlinear_arith)
            requires
                squares(unit) == squares(v) + x * x,
                a == w * x,
                before == w * w * squares(v),
        ;
        let u = slip();
        assert(12 as real * u * (before + a * a) == 12 as real * u * before + 4 as real * (3 as real
            * u) * (a * a)) by (nonlinear_arith);
        let k = r.len() as real;
        assert(n == k + 1 as real);
        assert(n * (4 as real * speck()) == k * (4 as real * speck()) + 4 as real * speck()) by (
            nonlinear_arith)
            requires
                n == k + 1 as real,
        ;
    }
}

/// A component that was weighted and scaled is close to what it was.
proof fn lemma_component_stays(
    y: real,
    r: real,
    v: real,
    w: real,
    x: real,
    delta: real,
    t: real,
)
    requires
        w > 0 as real,
        x >= 9 as real / 10000 as real,
        (0 as real) < delta <= 2 as real / 10000 as real,
        (1 as real - delta) * w <= x <= (1 as real + delta) * w,
        size(v) <= 10002 as real / 10000 as real,
        0 as real <= t <= 1 as real / 10000000000000000000000000000000000000000 as real,
        size(r - w * v) <= 3 as real * slip() * size(w * v) + 4 as real * t,
        size(y - r / x) <= slip() * size(r / x) + t,
    ensures
        size(y - v) <= delta * (10005 as real / 10000 as real) + 5 as real / 10000000 as real,
{
    let u = slip();
    assert(u == 1 as real / 16777216 as real);
    let b = (w * v) / x;
    let c = size(b);
    let g = r / x;
    assert(b * x == w * v && g * x == r) by (nonlinear_arith)
        requires
            b == (w * v) / x,
            g == r / x,
            x > 0 as real,
    ;
    assert(size(w * v) == c * x) by {
        assert(b >= 0 as real ==> b * x >= 0 as real) by (nonlinear_arith)
            requires
                x > 0 as real,
        ;
        assert(b < 0 as real ==> b * x < 0 as real) by (nonlinear_arith)
            requires
                x > 0 as real,
        ;
        assert((-b) * x == -(b * x)) by (nonlinear_arith);
    }
    assert(c <= 10005 as real / 10000 as real) by {
        assert(size(w * v) <= w * (10002 as real / 10000 as real)) by (nonlinear_arith)
            requires
                size(v) <= 10002 as real / 10000 as real,
                w > 0 as real,
        ;
        assert(c <= 10005 as real / 10000 as real) by (nonlinear_arith)
            requires
                c * x <= w * (10002 as real / 10000 as real),
                (1 as real - delta) * w <= x,
                (0 as real) < delta <= 2 as real / 10000 as real,
                w > 0 as real,
                c >= 0 as real,
        ;
    }
    // From the rounded component to the exact one.
    let s = 4 as real * t * 2000 as real;
    assert(size(g - b) <= 3 as real * u * c + s) by {
        let k = 3 as real * u * c;
        assert(g * x - b * x == (g - b) * x) by (nonlinear_arith);
        assert(3 as real * u * (c * x) == k * x) by (nonlinear_arith)
            requires
                k == 3 as real * u * c,
        ;
        assert(4 as real * t <= s * x) by (nonlinear_arith)
            requires
                s == 4 as real * t * 2000 as real,
                x >= 9 as real / 10000 as real,
                t >= 0 as real,
        ;
        let z = g - b;
        assert(-((k + s) * x) <= z * x <= (k + s) * x) by (nonlinear_arith)
            requires
                size(z * x) <= k * x + 4 as real * t,
                4 as real * t <= s * x,
        ;
        assert(-(k + s) <= z <= k + s) by (nonlinear_arith)
            requires
                -((k + s) * x) <= z * x <= (k + s) * x,
                x > 0 as real,
        ;
    }
    assert(3 as real * u * c <= 2 as real / 10000000 as real) by (nonlinear_arith)
        requires
            u == 1 as real / 16777216 as real,
            0 as real <= c <= 10005 as real / 10000 as real,
    ;
    assert(size(g) <= 2 as real);
    assert(u * size(g) <= 12 as real / 100000000 as real) by (nonlinear_arith)
        requires
            u == 1 as real / 16777216 as real,
            0 as real <= size(g) <= 2 as real,
    ;
    assert(size(y - b) <= 4 as real / 10000000 as real);
    // From there to what it was.
    assert(size(b - v) <= delta * c) by {
        let z = b - v;
        assert(z * w == b * (w - x)) by (nonlinear_arith)
            requires
                b * x == w * v,
                z == b - v,
        ;
        let h = w - x;
        assert(-(delta * w) <= h <= delta * w) by (nonlinear_arith)
            requires
                (1 as real - delta) * w <= x <= (1 as real + delta) * w,
                h == w - x,
        ;
        assert(-(c * (delta * w)) <= b * h <= c * (delta * w)) by (nonlinear_arith)
            requires
                -(delta * w) <= h <= delta * w,
                c == b || c == -b,
                c >= 0 as real,
        ;
        assert(-(delta * c) <= z <= delta * c) by (nonlinear_arith)
            requires
                -(c * (delta * w)) <= z * w <= c * (delta * w),
                w > 0 as real,
        ;
    }
    assert(delta * c <= delta * (10005 as real / 10000 as real)) by (nonlinear_arith)
        requires
            c <= 10005 as real / 10000 as real,
            delta > 0 as real,
    ;
}

/// The bounds on the length of a weighted vector.
proof fn lemma_weighted_length(e: real, er: real, x: real, w: real, off: real, delta: real, t: real)
    requires
        99 as real / 100000 as real <= w <= 201 as real / 100 as real,
        x >= 0 as real,
        size(e - 1 as real) <= off,
        0 as real <= t <= 1 as real / 10000000000000000000000000000000000000000 as real,
        size(er - w * w * e) <= 12 as real * slip() * (w * w * e) + 1536 as real * (4 as real * t),
        (1 as real - leeway()) * er <= x * x <= (1 as real + leeway()) * er,
        (off == margin() && delta == 924 as real / 10000000 as real) || (off == 3 as real
            / 10000 as real && delta == 197 as real / 1000000 as real),
    ensures
        (1 as real - delta) * w <= x <= (1 as real + delta) * w,
{
    let u = slip();
    let d = leeway();
    assert(u == 1 as real / 16777216 as real && d == 918 as real / 10000000 as real);
    let s = w * w;
    assert(s >= 9 as real / 10000000 as real) by (nonlinear_arith)
        requires
            s == w * w,
            w >= 99 as real / 100000 as real,
    ;
    let k = s * e;
    assert(er <= k + 12 as real * u * k + 1536 as real * (4 as real * t) && er >= k - 12 as real * u
        * k - 1536 as real * (4 as real * t));
    // A share of the exact square.
    let f = 8 as real / 10000000 as real;
    assert(1536 as real * (4 as real * t) <= s / 1000000000000000 as real);
    assert(k >= s / 2 as real && k >= 0 as real) by (nonlinear_arith)
        requires
            k == s * e,
            e >= 9 as real / 10 as real,
            s > 0 as real,
    ;
    assert(12 as real * u * k <= (72 as real / 100000000 as real) * k) by (nonlinear_arith)
        requires
            u == 1 as real / 16777216 as real,
            k >= 0 as real,
    ;
    assert((1 as real - f) * k <= er <= (1 as real + f) * k) by (nonlinear_arith)
        requires
            f == 8 as real / 10000000 as real,
            k >= s / 2 as real,
            er <= k + (72 as real / 100000000 as real) * k + s / 1000000000000000 as real,
            er >= k - (72 as real / 100000000 as real) * k - s / 1000000000000000 as real,
            s > 0 as real,
    ;
    assert(s * (1 as real - off) <= k <= s * (1 as real + off)) by (nonlinear_arith)
        requires
            k == s * e,
            1 as real - off <= e <= 1 as real + off,
            s > 0 as real,
    ;
    let lo = (1 as real - d) * (1 as real - f) * (1 as real - off);
    let hi = (1 as real + d) * (1 as real + f) * (1 as real + off);
    assert(x * x <= hi * s) by (nonlinear_arith)
        requires
            x * x <= (1 as real + d) * er,
            er <= (1 as real + f) * k,
            k <= s * (1 as real + off),
            hi == (1 as real + d) * (1 as real + f) * (1 as real + off),
            d > 0 as real,
            f > 0 as real,
    ;
    assert(lo * s <= x * x) by (nonlinear_arith)
        requires
            (1 as real - d) * er <= x * x,
            (1 as real - f) * k <= er,
            s * (1 as real - off) <= k,
            lo == (1 as real - d) * (1 as real - f) * (1 as real - off),
            d < 1 as real,
            f < 1 as real,
    ;
    assert(hi <= (1 as real + delta) * (1 as real + delta)) by (nonlinear_arith)
        requires
            hi == (1 as real + d) * (1 as real + f) * (1 as real + off),
            d == 918 as real / 10000000 as real,
            f == 8 as real / 10000000 as real,
            (off == 921 as real / 10000000 as real && delta == 924 as real / 10000000 as real) || (
            off == 3 as real / 10000 as real && delta == 197 as real / 1000000 as real),
    ;
    assert(lo >= (1 as real - delta) * (1 as real - delta)) by (nonlinear_arith)
        requires
            lo == (1 as real - d) * (1 as real - f) * (1 as real - off),
            d == 918 as real / 10000000 as real,
            f == 8 as real / 10000000 as real,
            (off == 921 as real / 10000000 as real && delta == 924 as real / 10000000 as real) || (
            off == 3 as real / 10000 as real && delta == 197 as real / 1000000 as real),
    ;
    let (a, b) = ((1 as real - delta) * w, (1 as real + delta) * w);
    assert(x * x <= b * b) by (nonlinear_arith)
        requires
            x * x <= hi * s,
            hi <= (1 as real + delta) * (1 as real + delta),
            s == w * w,
            s > 0 as real,
            b == (1 as real + delta) * w,
    ;
    assert(a * a <= x * x) by (nonlinear_arith)
        requires
            lo * s <= x * x,
            lo >= (1 as real - delta) * (1 as real - delta),
            s == w * w,
            s > 0 as real,
            a == (1 as real - delta) * w,
    ;
    assert(a >= 0 as real && b >= 0 as real) by (nonlinear_arith)
        requires
            a == (1 as real - delta) * w,
            b == (1 as real + delta) * w,
            w > 0 as real,
            (0 as real) < delta,
            delta < 1 as real,
    ;
    assert(x <= b) by (nonlinear_arith)
        requires
            x * x <= b * b,
            b >= 0 as real,
            x >= 0 as real,
    ;
    assert(a <= x) by (nonlinear_arith)
        requires
            a * a <= x * x,
            a >= 0 as real,
            x >= 0 as real,
    ;
}

/// Whether two vectors agree in every component but for so much.
pub open spec fn close(a: Seq<Single>, b: Seq<Single>, within: real) -> bool {
    &&& a.len() == b.len()
    &&& forall|i: int|
        0 <= i < a.len() ==> (#[trigger] a[i]).finite() && size(value(a[i]) - value(b[i])) <= within
}

/// A unit vector that was weighted and is scaled again can be scaled, and comes back.
pub proof fn lemma_comes_back(
    m: Arithmetic,
    raw: Seq<Single>,
    unit: Seq<Single>,
    w: real,
    off: real,
)
    requires
        rounds(m),
        weighted(raw, unit, w),
        99 as real / 100000 as real <= w <= 201 as real / 100 as real,
        off == margin() || off == 3 as real / 10000 as real,
        nearly_unit(unit, off),
    ensures
        !vector::degenerate(numeric::length(m, raw)),
        close(
            vector::scaled_down(m, raw, numeric::length(m, raw)),
            unit,
            if off == margin() {
                1 as real / 10000 as real
            } else {
                2 as real / 10000 as real
            },
        ),
{
    lemma_constants();
    lemma_extremes();
    lemma_weighted_squares(raw, unit, w);
    lemma_squares(unit);
    let e = squares(unit);
    let er = squares(raw);
    let t = speck();
    let delta = if off == margin() {
        924 as real / 10000000 as real
    } else {
        197 as real / 1000000 as real
    };
    let k = w * w * e;
    assert(9 as real / 10000000 as real <= k <= 5 as real) by (nonlinear_arith)
        requires
            k == w * w * e,
            99 as real / 100000 as real <= w <= 201 as real / 100 as real,
            9996 as real / 10000 as real <= e <= 10004 as real / 10000 as real,
    ;
    assert(12 as real * slip() * k <= k / 1000 as real) by (nonlinear_arith)
        requires
            slip() == 1 as real / 16777216 as real,
            k >= 0 as real,
    ;
    assert(raw.len() as real == 1536 as real);
    assert(8 as real / 10000000 as real <= er <= 6 as real);
    lemma_length(m, raw);
    let norm = numeric::length(m, raw);
    let x = value(norm);
    lemma_weighted_length(e, er, x, w, off, delta, t);
    assert(x >= 9 as real / 10000 as real) by (nonlinear_arith)
        requires
            (1 as real - delta) * w <= x,
            w >= 99 as real / 100000 as real,
            delta <= 2 as real / 10000 as real,
    ;
    let smallest = Single { bits: vector::SMALLEST_NORM };
    lemma_values_are_ordered(norm, smallest);
    let d = leeway();
    assert(er <= 2 as real * (x * x)) by (nonlinear_arith)
        requires
            (1 as real - d) * er <= x * x,
            d == 918 as real / 10000000 as real,
            er >= 0 as real,
    ;
    lemma_components(raw, norm, er);
    lemma_scaling(m, raw, norm);
    let scaled = vector::scaled_down(m, raw, norm);
    let within = if off == margin() {
        1 as real / 10000 as real
    } else {
        2 as real / 10000 as real
    };
    assert forall|i: int| 0 <= i < scaled.len() implies (#[trigger] scaled[i]).finite() && size(
        value(scaled[i]) - value(unit[i]),
    ) <= within by {
        let v = value(unit[i]);
        assert(raw[i].finite());
        assert(v * v <= e);
        assert(-(10002 as real / 10000 as real) <= v <= 10002 as real / 10000 as real) by (
            nonlinear_arith)
            requires
                v * v <= 10003 as real / 10000 as real,
        ;
        lemma_component_stays(value(scaled[i]), value(raw[i]), v, w, x, delta, t);
    }
}

/// The sum of two weighted components, but for three roundings.
pub proof fn lemma_weighted_component(
    m: Arithmetic,
    weight_a: Single,
    xa: Single,
    weight_b: Single,
    xb: Single,
)
    requires
        rounds(m),
        weight_a.finite() && xa.finite() && weight_b.finite() && xb.finite(),
        size(value(weight_a) * value(xa)) <= 3 as real,
        size(value(weight_b) * value(xb)) <= 3 as real,
    ensures
        ({
            let a = value(weight_a) * value(xa);
            let b = value(weight_b) * value(xb);
            let s = fpu::sum(m, fpu::product(m, weight_a, xa), fpu::product(m, weight_b, xb));
            &&& s.finite()
            &&& size(value(s) - (a + b)) <= 3 as real * slip() * (size(a) + size(b)) + 4 as real
                * speck()
            &&& size(value(s)) <= 7 as real
        }),
{
    lemma_extremes();
    let a = value(weight_a) * value(xa);
    let b = value(weight_b) * value(xb);
    let pa = fpu::product(m, weight_a, xa);
    let pb = fpu::product(m, weight_b, xb);
    let u = slip();
    let t = speck();
    assert(rounded(pa, a, t) && rounded(pb, b, t));
    let c = size(a) + size(b);
    assert(u * size(a) + u * size(b) == u * c) by (nonlinear_arith)
        requires
            c == size(a) + size(b),
    ;
    assert(u * c <= c / 1000000 as real) by (nonlinear_arith)
        requires
            u == 1 as real / 16777216 as real,
            c >= 0 as real,
    ;
    assert(size(a) <= 3 as real && size(b) <= 3 as real);
    assert(u * size(a) <= u * c && u * size(b) <= u * c) by (nonlinear_arith)
        requires
            u > 0 as real,
            c == size(a) + size(b),
            size(a) >= 0 as real,
            size(b) >= 0 as real,
    ;
    let exact = value(pa) + value(pb);
    let s = fpu::sum(m, pa, pb);
    assert(size(exact) <= c + u * c + 2 as real * t);
    assert(rounded(s, exact, 0 as real));
    assert(u * size(exact) <= u * (c + c / 1000000 as real + 2 as real * t)) by (nonlinear_arith)
        requires
            u > 0 as real,
            size(exact) <= c + c / 1000000 as real + 2 as real * t,
    ;
    assert(u * (c + c / 1000000 as real + 2 as real * t) <= 2 as real * (u * c) + t) by (
        nonlinear_arith)
        requires
            u == 1 as real / 16777216 as real,
            c >= 0 as real,
            t >= 0 as real,
    ;
    assert(3 as real * u * c == u * c + 2 as real * (u * c)) by (nonlinear_arith);
}

/// No component of a vector that is nearly of unit length is larger than `1.0002`.
pub proof fn lemma_unit_components(unit: Seq<Single>, off: real)
    requires
        nearly_unit(unit, off),
        off <= 3 as real / 10000 as real,
    ensures
        forall|i: int|
            0 <= i < unit.len() ==> size(value(#[trigger] unit[i])) <= 10002 as real / 10000 as real,
{
    lemma_squares(unit);
    assert forall|i: int| 0 <= i < unit.len() implies size(value(#[trigger] unit[i])) <= 10002 as real
        / 10000 as real by {
        let v = value(unit[i]);
        assert(v * v <= squares(unit));
        assert(-(10002 as real / 10000 as real) <= v <= 10002 as real / 10000 as real) by (
            nonlinear_arith)
            requires
                v * v <= 10003 as real / 10000 as real,
        ;
    }
}

/// A weight of at most one makes nothing larger.
pub proof fn lemma_light(w: real, x: real, most: real)
    requires
        0 as real <= w <= 1 as real,
        size(x) <= most,
    ensures
        size(w * x) <= most,
        size(w * x) == w * size(x),
{
    assert(-most <= w * x <= most) by (nonlinear_arith)
        requires
            0 as real <= w <= 1 as real,
            -most <= x <= most,
    ;
    assert(x >= 0 as real ==> w * x >= 0 as real) by (nonlinear_arith)
        requires
            w >= 0 as real,
    ;
    assert(x <= 0 as real ==> w * x <= 0 as real) by (nonlinear_arith)
        requires
            w >= 0 as real,
    ;
    assert(w * (-x) == -(w * x)) by (nonlinear_arith);
}

/// Components of bounded size have squares of a bounded sum.
pub proof fn lemma_bounded_squares(values: Seq<Single>, most: real)
    requires
        forall|i: int| 0 <= i < values.len() ==> size(value(#[trigger] values[i])) <= most,
    ensures
        squares(values) <= (values.len() as real) * (most * most),
    decreases values.len(),
{
    if values.len() > 0 {
        let shorter = values.drop_last();
        assert forall|i: int| 0 <= i < shorter.len() implies size(value(#[trigger] shorter[i]))
            <= most by {
            assert(shorter[i] == values[i]);
        }
        lemma_bounded_squares(shorter, most);
        let x = value(values.last());
        assert(values[values.len() - 1] == values.last());
        assert(x * x <= most * most) by (nonlinear_arith)
            requires
                -most <= x <= most,
        ;
        let n = shorter.len() as real;
        let s = most * most;
        assert(values.len() as real == n + 1 as real);
        assert((n + 1 as real) * s == n * s + s) by (nonlinear_arith);
    } else {
        let s = most * most;
        let n = values.len() as real;
        assert(n * s == 0 as real) by (nonlinear_arith)
            requires
                n == 0 as real,
        ;
    }
}

/// A vector of finite components that are not large has a finite length.
pub proof fn lemma_finite_length(m: Arithmetic, values: Seq<Single>)
    requires
        rounds(m),
        values.len() <= 1536,
        squares(values) <= 1000000 as real,
        forall|i: int| 0 <= i < values.len() ==> (#[trigger] values[i]).finite(),
    ensures
        numeric::length(m, values).finite(),
{
    lemma_sum_of_squares(m, values);
    assert(root_rounded(numeric::length(m, values), value(numeric::inner(m, values, values))));
}

// ---------------------------------------------------------------------------
// Sums
// ---------------------------------------------------------------------------

/// The exact sum of a list.
pub open spec fn plus(values: Seq<Single>) -> real
    decreases values.len(),
{
    if values.len() == 0 {
        0 as real
    } else {
        plus(values.drop_last()) + value(values.last())
    }
}

/// The exact sum of the sizes of a list.
pub open spec fn bulk(values: Seq<Single>) -> real
    decreases values.len(),
{
    if values.len() == 0 {
        0 as real
    } else {
        bulk(values.drop_last()) + size(value(values.last()))
    }
}

/// The exact inner product of two lists, as far as both reach.
pub open spec fn dot(a: Seq<Single>, b: Seq<Single>) -> real
    decreases a.len(),
{
    if a.len() == 0 || b.len() != a.len() {
        0 as real
    } else {
        dot(a.drop_last(), b.drop_last()) + value(a.last()) * value(b.last())
    }
}

/// The exact sum of the sizes of all products of two lists.
pub open spec fn dot_size(a: Seq<Single>, b: Seq<Single>) -> real
    decreases a.len(),
{
    if a.len() == 0 || b.len() != a.len() {
        0 as real
    } else {
        dot_size(a.drop_last(), b.drop_last()) + size(value(a.last()) * value(b.last()))
    }
}

/// Whether all numbers of a list are finite.
pub open spec fn all_finite(values: Seq<Single>) -> bool {
    forall|i: int| 0 <= i < values.len() ==> (#[trigger] values[i]).finite()
}

/// The longest list that the laws on sums speak of.
pub open spec fn countable(n: nat) -> bool {
    n <= 4000000
}

pub proof fn lemma_bulk(values: Seq<Single>)
    ensures
        bulk(values) >= 0 as real,
        size(plus(values)) <= bulk(values),
        (forall|i: int| 0 <= i < values.len() ==> value(#[trigger] values[i]) >= 0 as real) ==> plus(
            values,
        ) == bulk(values),
    decreases values.len(),
{
    if values.len() > 0 {
        let shorter = values.drop_last();
        lemma_bulk(shorter);
        if forall|i: int| 0 <= i < values.len() ==> value(#[trigger] values[i]) >= 0 as real {
            assert forall|i: int| 0 <= i < shorter.len() implies value(#[trigger] shorter[i])
                >= 0 as real by {
                assert(shorter[i] == values[i]);
            }
            assert(value(values[values.len() - 1]) >= 0 as real);
        }
    }
}

proof fn lemma_sum_step(total: real, exact: real, heap: real, x: real, next: real, n: real)
    requires
        0 as real <= n <= 4000000 as real,
        size(exact) <= heap,
        size(total - exact) <= 2 as real * slip() * n * heap,
        size(next - (total + x)) <= slip() * size(total + x),
    ensures
        size(next - (exact + x)) <= 2 as real * slip() * (n + 1 as real) * (heap + size(x)),
{
    let u = slip();
    assert(u == 1 as real / 16777216 as real);
    let e = 2 as real * u * n * heap;
    assert(e <= heap) by (nonlinear_arith)
        requires
            e == 2 as real * u * n * heap,
            u == 1 as real / 16777216 as real,
            0 as real <= n <= 4000000 as real,
            heap >= 0 as real,
    ;
    let h = heap + size(x);
    assert(size(total + x) <= 2 as real * h);
    assert(u * size(total + x) <= u * (2 as real * h)) by (nonlinear_arith)
        requires
            size(total + x) <= 2 as real * h,
            u > 0 as real,
    ;
    let y = size(x);
    assert(2 as real * u * (n + 1 as real) * h >= e + u * (2 as real * h)) by (nonlinear_arith)
        requires
            e == 2 as real * u * n * heap,
            h == heap + y,
            y >= 0 as real,
            n >= 0 as real,
            u > 0 as real,
    ;
}

/// A running sum is the exact one but for a bounded error.
pub proof fn lemma_total(m: Arithmetic, values: Seq<Single>)
    requires
        rounds(m),
        countable(values.len()),
        all_finite(values),
        bulk(values) <= 1000000000000000000000000000000 as real,
    ensures
        numeric::total(m, values).finite(),
        size(value(numeric::total(m, values)) - plus(values)) <= 2 as real * slip() * (
        values.len() as real) * bulk(values),
        (forall|i: int| 0 <= i < values.len() ==> value(#[trigger] values[i]) >= 0 as real)
            ==> value(numeric::total(m, values)) >= 0 as real,
    decreases values.len(),
{
    lemma_constants();
    lemma_extremes();
    lemma_bulk(values);
    if values.len() == 0 {
        assert(2 as real * slip() * (values.len() as real) * bulk(values) == 0 as real) by (
            nonlinear_arith)
            requires
                bulk(values) == 0 as real,
        ;
    } else {
        let shorter = values.drop_last();
        let x = values.last();
        let n = shorter.len() as real;
        assert forall|i: int| 0 <= i < shorter.len() implies (#[trigger] shorter[i]).finite() by {
            assert(values[i].finite());
        }
        assert(values[values.len() - 1].finite());
        lemma_bulk(shorter);
        lemma_total(m, shorter);
        let before = numeric::total(m, shorter);
        let after = numeric::total(m, values);
        assert(after == fpu::sum(m, before, x));
        let e = 2 as real * slip() * n * bulk(shorter);
        assert(e <= bulk(shorter)) by (nonlinear_arith)
            requires
                e == 2 as real * slip() * n * bulk(shorter),
                slip() == 1 as real / 16777216 as real,
                0 as real <= n <= 4000000 as real,
                bulk(shorter) >= 0 as real,
        ;
        assert(rounded(after, value(before) + value(x), 0 as real));
        lemma_sum_step(
            value(before),
            plus(shorter),
            bulk(shorter),
            value(x),
            value(after),
            n,
        );
        assert(n + 1 as real == values.len() as real);
        if forall|i: int| 0 <= i < values.len() ==> value(#[trigger] values[i]) >= 0 as real {
            assert forall|i: int| 0 <= i < shorter.len() implies value(#[trigger] shorter[i])
                >= 0 as real by {
                assert(shorter[i] == values[i]);
            }
            assert(value(values[values.len() - 1]) >= 0 as real);
        }
    }
}

proof fn lemma_products(m: Arithmetic, a: Seq<Single>, b: Seq<Single>)
    requires
        rounds(m),
        a.len() == b.len(),
        all_finite(a),
        all_finite(b),
        dot_size(a, b) <= 100000000000000000000000000000 as real,
    ensures
        ({
            let terms = numeric::products(m, a, b);
            let n = a.len() as real;
            &&& dot_size(a, b) >= 0 as real
            &&& size(dot(a, b)) <= dot_size(a, b)
            &&& all_finite(terms)
            &&& size(plus(terms) - dot(a, b)) <= slip() * dot_size(a, b) + n * speck()
            &&& bulk(terms) <= dot_size(a, b) + slip() * dot_size(a, b) + n * speck()
        }),
    decreases a.len(),
{
    lemma_extremes();
    let terms = numeric::products(m, a, b);
    let n = a.len() as real;
    if a.len() == 0 {
        assert(n * speck() == 0 as real) by (nonlinear_arith)
            requires
                n == 0 as real,
        ;
    } else {
        let (x, y) = (a.drop_last(), b.drop_last());
        assert(terms.drop_last() =~= numeric::products(m, x, y));
        assert forall|i: int| 0 <= i < x.len() implies (#[trigger] x[i]).finite() by {
            assert(a[i].finite());
        }
        assert forall|i: int| 0 <= i < y.len() implies (#[trigger] y[i]).finite() by {
            assert(b[i].finite());
        }
        lemma_dot_size(x, y);
        lemma_products(m, x, y);
        assert(a[a.len() - 1].finite() && b[b.len() - 1].finite());
        let p = value(a.last()) * value(b.last());
        let term = fpu::product(m, a.last(), b.last());
        assert(rounded(term, p, speck()));
        assert(terms.last() == term);
        let before = dot_size(x, y);
        let u = slip();
        assert(u * (before + size(p)) == u * before + u * size(p)) by (nonlinear_arith);
        let k = x.len() as real;
        assert(n * speck() == k * speck() + speck()) by (nonlinear_arith)
            requires
                n == k + 1 as real,
        ;
        assert forall|i: int| 0 <= i < terms.len() implies (#[trigger] terms[i]).finite() by {
            if i < x.len() {
                assert(numeric::products(m, x, y)[i].finite());
            }
        }
    }
}

pub proof fn lemma_dot_size(a: Seq<Single>, b: Seq<Single>)
    ensures
        dot_size(a, b) >= 0 as real,
        size(dot(a, b)) <= dot_size(a, b),
    decreases a.len(),
{
    if a.len() > 0 && a.len() == b.len() {
        lemma_dot_size(a.drop_last(), b.drop_last());
    }
}

/// How far an inner product of so many components can be off, relative to the sizes of
/// the products.
pub open spec fn dot_error(n: nat, heap: real) -> real {
    (2 as real * (n as real) + 2 as real) * slip() * heap + 2 as real * (n as real) * speck()
}

/// An inner product is the exact one but for a bounded error.
pub proof fn lemma_inner(m: Arithmetic, a: Seq<Single>, b: Seq<Single>)
    requires
        rounds(m),
        a.len() == b.len(),
        countable(a.len()),
        all_finite(a),
        all_finite(b),
        dot_size(a, b) <= 100000000000000000000000000000 as real,
    ensures
        numeric::inner(m, a, b).finite(),
        size(value(numeric::inner(m, a, b)) - dot(a, b)) <= dot_error(a.len(), dot_size(a, b)),
{
    lemma_extremes();
    let terms = numeric::products(m, a, b);
    lemma_products(m, a, b);
    let n = a.len() as real;
    let d = dot_size(a, b);
    let u = slip();
    let t = speck();
    assert(u == 1 as real / 16777216 as real);
    assert(n * t <= 1 as real) by (nonlinear_arith)
        requires
            0 as real <= n <= 4000000 as real,
            0 as real <= t,
            t * 10000000000 as real <= 1 as real,
    ;
    assert(u * d <= d) by (nonlinear_arith)
        requires
            u == 1 as real / 16777216 as real,
            d >= 0 as real,
    ;
    lemma_total(m, terms);
    let e = 2 as real * u * n * bulk(terms);
    assert(e <= 2 as real * n * u * d + u * d + n * t) by (nonlinear_arith)
        requires
            e == 2 as real * u * n * bulk(terms),
            bulk(terms) <= d + u * d + n * t,
            u == 1 as real / 16777216 as real,
            0 as real <= n <= 4000000 as real,
            d >= 0 as real,
            t >= 0 as real,
    ;
    assert(dot_error(a.len(), d) == 2 as real * n * u * d + 2 as real * (u * d) + 2 as real * n * t)
        by (nonlinear_arith)
        requires
            dot_error(a.len(), d) == (2 as real * n + 2 as real) * u * d + 2 as real * n * t,
    ;
    assert(2 as real * n * t == n * t + n * t) by (nonlinear_arith);
}

// ---------------------------------------------------------------------------
// Bounds
// ---------------------------------------------------------------------------

/// A value forced between two others.
pub open spec fn between(x: real, low: real, high: real) -> real {
    if x < low {
        low
    } else if x > high {
        high
    } else {
        x
    }
}

/// The larger of two values.
pub open spec fn most(x: real, y: real) -> real {
    if x < y {
        y
    } else {
        x
    }
}

/// The smaller of two values.
pub open spec fn least(x: real, y: real) -> real {
    if y < x {
        y
    } else {
        x
    }
}

/// What is forced between two numbers is so by its value.
pub proof fn lemma_clamped(x: Single, low: Single, high: Single)
    requires
        x.finite() && low.finite() && high.finite(),
        value(low) <= value(high),
    ensures
        x.clamped(low, high).finite(),
        value(x.clamped(low, high)) == between(value(x), value(low), value(high)),
        value(x.larger(low)) == most(value(x), value(low)),
        value(x.smaller(high)) == least(value(x), value(high)),
        x.larger(low).finite() && x.smaller(high).finite(),
{
    lemma_values_are_ordered(x, low);
    lemma_values_are_ordered(low, x);
    lemma_values_are_ordered(x, high);
    lemma_values_are_ordered(high, x);
}

/// A number forced between zero and one has a value that is.
pub proof fn lemma_unit(x: Single)
    requires
        x.finite(),
    ensures
        x.unit().finite(),
        value(x.unit()) == between(value(x), 0 as real, 1 as real),
        x.unit() == x.clamped(Single { bits: 0 }, Single { bits: SINGLE_ONE }),
{
    lemma_constants();
    lemma_clamped(x, Single { bits: 0 }, Single { bits: SINGLE_ONE });
}

/// The value of the share of a budget that a single entity can get.
pub proof fn lemma_single_share()
    ensures
        value(Single { bits: 0x3E4C_CCCD }) == 13421773 as real / 67108864 as real,
{
    vstd::arithmetic::power2::lemma2_to64();
    vstd::arithmetic::power2::lemma2_to64_rest();
    lemma_value(Single { bits: 0x3E4C_CCCD }, 13421773, 123);
}

/// The value of the tolerance of ceilings.
pub proof fn lemma_ceiling_tolerance()
    ensures
        value(Single { bits: 0x3727_C5AC }) == 10995116 as real / 1099511627776 as real,
{
    vstd::arithmetic::power2::lemma2_to64();
    vstd::arithmetic::power2::lemma2_to64_rest();
    lemma_value(Single { bits: 0x3727_C5AC }, 10995116, 109);
}

/// What is forced between zero and one has a value that is.
pub proof fn lemma_in_unit(x: Single)
    ensures
        x.unit().finite(),
        0 as real <= value(x.unit()) <= 1 as real,
{
    lemma_constants();
    let zero = Single { bits: 0 };
    let one = Single { bits: SINGLE_ONE };
    if !x.nan() && !x.below(zero) && !one.below(x) {
        assert(x.finite());
        lemma_values_are_ordered(x, zero);
        lemma_values_are_ordered(one, x);
    }
}

/// A sum lies between as many times the smallest and the largest of its parts.
pub proof fn lemma_plus_between(values: Seq<Single>, low: real, high: real)
    requires
        forall|i: int| 0 <= i < values.len() ==> low <= value(#[trigger] values[i]) <= high,
    ensures
        low * (values.len() as real) <= plus(values) <= high * (values.len() as real),
    decreases values.len(),
{
    if values.len() > 0 {
        let shorter = values.drop_last();
        assert forall|i: int| 0 <= i < shorter.len() implies low <= value(#[trigger] shorter[i])
            <= high by {
            assert(shorter[i] == values[i]);
        }
        lemma_plus_between(shorter, low, high);
        assert(low <= value(values[values.len() - 1]) <= high);
        let n = shorter.len() as real;
        assert(values.len() as real == n + 1 as real);
        assert(low * (n + 1 as real) == low * n + low && high * (n + 1 as real) == high * n + high)
            by (nonlinear_arith);
    } else {
        assert(low * 0 as real == 0 as real && high * 0 as real == 0 as real) by (nonlinear_arith);
    }
}

/// What was scaled comes back when it is stretched to its length again.
pub proof fn lemma_stretched(m: Arithmetic, raw: Seq<Single>)
    requires
        rounds(m),
        raw.len() == VECTOR_DIM,
        squares(raw) <= 1000000 as real,
        !vector::degenerate(numeric::length(m, raw)),
    ensures
        ({
            let norm = value(numeric::length(m, raw));
            let unit = vector::scaled_down(m, raw, numeric::length(m, raw));
            &&& (0 as real) < norm <= 2000 as real
            &&& forall|i: int|
                0 <= i < raw.len() ==> (#[trigger] unit[i]).finite() && size(
                    value(unit[i]) * norm - value(raw[i]),
                ) <= slip() * size(value(raw[i])) + 1 as real / 1000000000000 as real
        }),
{
    lemma_constants();
    lemma_extremes();
    let norm = numeric::length(m, raw);
    let smallest = Single { bits: vector::SMALLEST_NORM };
    assert(!norm.nan() && !smallest.nan());
    lemma_values_are_ordered(norm, smallest);
    assert(value(norm) >= 99 as real / 10000000000 as real);
    lemma_length_tells(m, raw);
    lemma_length(m, raw);
    lemma_sum_of_squares(m, raw);
    lemma_squares(raw);
    let x = value(norm);
    let e = squares(raw);
    let d = leeway();
    assert(e <= 2 as real * (x * x)) by (nonlinear_arith)
        requires
            (1 as real - d) * e <= x * x,
            d == 918 as real / 10000000 as real,
            e >= 0 as real,
    ;
    assert(x <= 2000 as real) by (nonlinear_arith)
        requires
            x * x <= (1 as real + d) * e,
            d == 918 as real / 10000000 as real,
            0 as real <= e <= 1000000 as real,
            x >= 0 as real,
    ;
    lemma_components(raw, norm, e);
    lemma_scaling(m, raw, norm);
    let unit = vector::scaled_down(m, raw, norm);
    assert forall|i: int| 0 <= i < raw.len() implies (#[trigger] unit[i]).finite() && size(
        value(unit[i]) * x - value(raw[i]),
    ) <= slip() * size(value(raw[i])) + 1 as real / 1000000000000 as real by {
        lemma_stretched_component(value(unit[i]), value(raw[i]), x);
    }
}

proof fn lemma_stretched_component(v: real, r: real, x: real)
    requires
        (0 as real) < x <= 2000 as real,
        size(v - r / x) <= slip() * size(r / x) + speck(),
    ensures
        size(v * x - r) <= slip() * size(r) + 1 as real / 1000000000000 as real,
{
    lemma_extremes();
    let u = slip();
    let t = speck();
    let q = r / x;
    assert(q * x == r) by (nonlinear_arith)
        requires
            q == r / x,
            x > 0 as real,
    ;
    let k = size(q);
    assert(k * x == size(r)) by (nonlinear_arith)
        requires
            q * x == r,
            x > 0 as real,
            k == (if q < 0 as real {
                -q
            } else {
                q
            }),
            size(r) == (if r < 0 as real {
                -r
            } else {
                r
            }),
    ;
    let b = u * k + t;
    let z = v - q;
    assert(-(b * x) <= z * x <= b * x) by (nonlinear_arith)
        requires
            -b <= z <= b,
            x > 0 as real,
    ;
    assert(z * x == v * x - r) by (nonlinear_arith)
        requires
            z == v - q,
            q * x == r,
    ;
    assert(b * x == u * (k * x) + t * x) by (nonlinear_arith)
        requires
            b == u * k + t,
    ;
    assert(t * x <= 1 as real / 1000000000000 as real) by (nonlinear_arith)
        requires
            0 as real <= t,
            t * 10000000000000000000000000000000000000000 as real <= 1 as real,
            0 as real <= x <= 2000 as real,
    ;
}

/// A list with a component that is not very small can be scaled.
pub proof fn lemma_can_be_scaled(m: Arithmetic, raw: Seq<Single>, k: int)
    requires
        rounds(m),
        raw.len() == VECTOR_DIM,
        all_finite(raw),
        squares(raw) <= 1000000 as real,
        0 <= k < raw.len(),
        size(value(raw[k])) >= 1 as real / 1000000 as real,
    ensures
        !vector::degenerate(numeric::length(m, raw)),
{
    lemma_constants();
    lemma_squares(raw);
    let r = value(raw[k]);
    assert(r * r >= 1 as real / 1000000000000 as real) by (nonlinear_arith)
        requires
            r >= 1 as real / 1000000 as real || r <= -(1 as real / 1000000 as real),
    ;
    lemma_length(m, raw);
    let norm = numeric::length(m, raw);
    let x = value(norm);
    let e = squares(raw);
    let d = leeway();
    assert(x >= 1 as real / 10000000 as real) by (nonlinear_arith)
        requires
            (1 as real - d) * e <= x * x,
            d == 918 as real / 10000000 as real,
            e >= 1 as real / 1000000000000 as real,
            x >= 0 as real,
    ;
    lemma_values_are_ordered(norm, Single { bits: vector::SMALLEST_NORM });
}

/// Two and minus one.
pub proof fn lemma_two()
    ensures
        value(Single { bits: 0x4000_0000 }) == 2 as real,
        value(Single { bits: 0xBF80_0000 }) == -(1 as real),
{
    vstd::arithmetic::power2::lemma2_to64();
    lemma_constants();
    lemma_value(Single { bits: 0x4000_0000 }, 0x80_0000, 127);
    assert(0x80_0000 as real / 4194304 as real == 2 as real);
    assert((Single { bits: 0xBF80_0000 }).magnitude() == (Single { bits: 0x3F80_0000 }).magnitude());
}

/// A thousand.
pub proof fn lemma_thousand()
    ensures
        value(Single { bits: 0x447A_0000 }) == 1000 as real,
{
    vstd::arithmetic::power2::lemma2_to64();
    lemma_value(Single { bits: 0x447A_0000 }, 16384000, 135);
    assert(16384000 as real / 16384 as real == 1000 as real);
}

} // verus!
