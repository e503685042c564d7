//! What rounding may do in double precision, and what conversions, exponentials and
//! logarithms are close to.

use vstd::prelude::*;

use crate::float::{Double, Single, DOUBLE_SIGN};
use crate::fpu;
use crate::fpu::Arithmetic;
use crate::numeric;
use crate::rounding;

verus! {

// ---------------------------------------------------------------------------
// Values
// ---------------------------------------------------------------------------

/// A magnitude in units of the smallest positive number, which is `2^-1074`.
pub open spec fn wide_units(magnitude: int) -> int {
    let exponent = magnitude / 0x10_0000_0000_0000;
    let fraction = magnitude % 0x10_0000_0000_0000;
    if exponent <= 0 {
        fraction
    } else {
        (0x10_0000_0000_0000 + fraction) * vstd::arithmetic::power2::pow2((exponent - 1) as nat)
    }
}

/// The value of a finite number.
pub open spec fn wide_value(number: Double) -> real {
    let size = wide_units(number.magnitude()) as real / vstd::arithmetic::power2::pow2(
        1074,
    ) as real;
    if number.bits >= DOUBLE_SIGN {
        -size
    } else {
        size
    }
}

proof fn lemma_wide_units_grow(a: int, b: int)
    requires
        0 <= a < b,
    ensures
        0 <= wide_units(a) < wide_units(b),
{
    let ea = a / 0x10_0000_0000_0000;
    let eb = b / 0x10_0000_0000_0000;
    let fa = a % 0x10_0000_0000_0000;
    let fb = b % 0x10_0000_0000_0000;
    assert(ea <= eb);
    if ea > 0 {
        vstd::arithmetic::power2::lemma_pow2_pos((ea - 1) as nat);
    }
    if eb > 0 {
        vstd::arithmetic::power2::lemma_pow2_pos((eb - 1) as nat);
    }
    if ea == eb {
        assert(fa < fb);
        if ea > 0 {
            let p = vstd::arithmetic::power2::pow2((ea - 1) as nat) as int;
            assert((0x10_0000_0000_0000 + fa) * p < (0x10_0000_0000_0000 + fb) * p) by (
                nonlinear_arith)
                requires
                    fa < fb,
                    p > 0,
            ;
            assert(0 <= (0x10_0000_0000_0000 + fa) * p) by (nonlinear_arith)
                requires
                    fa >= 0,
                    p > 0,
            ;
        }
    } else if ea == 0 {
        let q = vstd::arithmetic::power2::pow2((eb - 1) as nat) as int;
        assert((0x10_0000_0000_0000 + fb) * q >= 0x10_0000_0000_0000 + fb) by (nonlinear_arith)
            requires
                q >= 1,
                fb >= 0,
        ;
    } else {
        let p = vstd::arithmetic::power2::pow2((ea - 1) as nat) as int;
        let q = vstd::arithmetic::power2::pow2((eb - 1) as nat) as int;
        assert(q >= 2 * p) by {
            vstd::arithmetic::power2::lemma_pow2_unfold(ea as nat);
            if ea < eb - 1 {
                vstd::arithmetic::power2::lemma_pow2_strictly_increases(
                    ea as nat,
                    (eb - 1) as nat,
                );
            }
        }
        assert((0x10_0000_0000_0000 + fa) * p < (0x10_0000_0000_0000 + fb) * q) by (nonlinear_arith)
            requires
                0 <= fa < 0x10_0000_0000_0000,
                fb >= 0,
                p > 0,
                q >= 2 * p,
        ;
        assert(0 <= (0x10_0000_0000_0000 + fa) * p) by (nonlinear_arith)
            requires
                fa >= 0,
                p > 0,
        ;
    }
}

/// Values are ordered as the numbers are.
pub proof fn lemma_wide_values_are_ordered(a: Double, b: Double)
    ensures
        wide_value(a) <= wide_value(b) <==> a.rank() <= b.rank(),
        wide_value(a) < wide_value(b) <==> a.rank() < b.rank(),
{
    vstd::arithmetic::power2::lemma_pow2_pos(1074);
    let d = vstd::arithmetic::power2::pow2(1074) as real;
    let ua = wide_units(a.magnitude());
    let ub = wide_units(b.magnitude());
    if a.magnitude() < b.magnitude() {
        lemma_wide_units_grow(a.magnitude(), b.magnitude());
    } else if b.magnitude() < a.magnitude() {
        lemma_wide_units_grow(b.magnitude(), a.magnitude());
    }
    if a.magnitude() > 0 {
        lemma_wide_units_grow(0, a.magnitude());
    }
    if b.magnitude() > 0 {
        lemma_wide_units_grow(0, b.magnitude());
    }
    assert(wide_units(0) == 0);
    rounding::lemma_quotients_are_ordered(ua as real, ub as real, d);
    rounding::lemma_quotients_are_ordered(ua as real, 0 as real, d);
    rounding::lemma_quotients_are_ordered(ub as real, 0 as real, d);
    assert(0 as real / d == 0 as real) by (nonlinear_arith)
        requires
            d > 0 as real,
    ;
}

/// A number with its sign turned has the opposite value.
pub proof fn lemma_negated(a: Double)
    ensures
        wide_value(a.negated()) == -wide_value(a),
        a.finite() ==> a.negated().finite(),
{
    if a.bits >= DOUBLE_SIGN {
        assert(a.negated().magnitude() == a.magnitude());
    } else {
        assert(a.negated().magnitude() == a.magnitude());
    }
}

proof fn lemma_wide_value(number: Double, digits: int, shift: nat)
    requires
        number.bits < DOUBLE_SIGN,
        shift <= 1074,
        wide_units(number.magnitude()) == digits * vstd::arithmetic::power2::pow2(shift),
    ensures
        wide_value(number) == digits as real / vstd::arithmetic::power2::pow2(
            (1074 - shift) as nat,
        ) as real,
{
    vstd::arithmetic::power2::lemma_pow2_adds(shift, (1074 - shift) as nat);
    vstd::arithmetic::power2::lemma_pow2_pos(shift);
    vstd::arithmetic::power2::lemma_pow2_pos((1074 - shift) as nat);
    let p = vstd::arithmetic::power2::pow2(shift) as int;
    let q = vstd::arithmetic::power2::pow2((1074 - shift) as nat) as int;
    assert((p * q) as real == (p as real) * (q as real)) by (nonlinear_arith);
    assert((digits * p) as real == (digits as real) * (p as real)) by (nonlinear_arith);
    let (x, y, z) = (digits as real, p as real, q as real);
    assert((x * y) / (y * z) == x / z) by (nonlinear_arith)
        requires
            y > 0 as real,
            z > 0 as real,
    ;
}

/// Zero, one, a day and a week in milliseconds, a thousandth, and a tenth.
pub proof fn lemma_wide_constants()
    ensures
        wide_value(Double { bits: 0 }) == 0 as real,
        wide_value(Double { bits: 0x3FF0_0000_0000_0000 }) == 1 as real,
        wide_value(Double { bits: 0x4194_9970_0000_0000 }) == 86400000 as real,
        wide_value(Double { bits: 0x41C2_0642_0000_0000 }) == 604800000 as real,
        wide_value(Double { bits: 0x3F50_624D_D2F1_A9FC }) == 4611686018427388 as real
            / 4611686018427387904 as real,
        wide_value(Double { bits: 0x3FB9_9999_9999_999A }) == 7205759403792794 as real
            / 72057594037927936 as real,
        wide_value(Double { bits: 0x3DDB_7CDF_D9D7_BDBB }) == 7737125245533627 as real
            / 77371252455336267181195264 as real,
{
    vstd::arithmetic::power2::lemma2_to64();
    vstd::arithmetic::power2::lemma2_to64_rest();
    vstd::arithmetic::power2::lemma_pow2_adds(64, 22);
    vstd::arithmetic::power2::lemma_pow2_pos(1074);
    assert(wide_units(0) == 0);
    let d = vstd::arithmetic::power2::pow2(1074) as real;
    assert(0 as real / d == 0 as real) by (nonlinear_arith)
        requires
            d > 0 as real,
    ;
    lemma_wide_value(Double { bits: 0x3FF0_0000_0000_0000 }, 0x10_0000_0000_0000, 1022);
    lemma_wide_value(Double { bits: 0x4194_9970_0000_0000 }, 0x14_9970_0000_0000, 1048);
    lemma_wide_value(Double { bits: 0x41C2_0642_0000_0000 }, 0x12_0642_0000_0000, 1051);
    lemma_wide_value(Double { bits: 0x3F50_624D_D2F1_A9FC }, 0x10_624D_D2F1_A9FC, 1012);
    lemma_wide_value(Double { bits: 0x3FB9_9999_9999_999A }, 0x19_9999_9999_999A, 1018);
    lemma_wide_value(Double { bits: 0x3DDB_7CDF_D9D7_BDBB }, 0x1B_7CDF_D9D7_BDBB, 988);
    assert(0x10_0000_0000_0000 as real / 4503599627370496 as real == 1 as real);
    assert(0x14_9970_0000_0000 as real / 67108864 as real == 86400000 as real);
    assert(0x12_0642_0000_0000 as real / 8388608 as real == 604800000 as real);
}

// ---------------------------------------------------------------------------
// Rounding
// ---------------------------------------------------------------------------

/// The largest relative error of an operation in double precision, `2^-53`.
pub open spec fn wide_slip() -> real {
    1 as real / 9007199254740992 as real
}

/// More than the largest error of an operation close to zero, `1e-40`.
pub open spec fn wide_speck() -> real {
    1 as real / 10000000000000000000000000000000000000000 as real
}

/// A bound below which nothing overflows, `1e38`.
pub open spec fn wide_brim() -> real {
    100000000000000000000000000000000000000 as real
}

/// Whether a result is the exact one, rounded.
pub open spec fn wide_rounded(result: Double, exact: real) -> bool {
    rounding::size(exact) < wide_brim() ==> {
        &&& result.finite()
        &&& rounding::size(wide_value(result) - exact) <= wide_slip() * rounding::size(exact)
            + wide_speck()
        &&& exact >= 0 as real ==> wide_value(result) >= 0 as real
        &&& exact <= 0 as real ==> wide_value(result) <= 0 as real
    }
}

/// Whether an arithmetic rounds in double precision too, and converts: its results are
/// the exact ones but for a bounded error, and numbers cut to integers lose no whole unit.
pub open spec fn rounds_wide(m: Arithmetic) -> bool {
    &&& forall|a: Double, b: Double|
        a.finite() && b.finite() ==> wide_rounded(
            #[trigger] fpu::wide_sum(m, a, b),
            wide_value(a) + wide_value(b),
        )
    &&& forall|a: Double, b: Double|
        a.finite() && b.finite() ==> wide_rounded(
            #[trigger] fpu::wide_difference(m, a, b),
            wide_value(a) - wide_value(b),
        )
    &&& forall|a: Double, b: Double|
        a.finite() && b.finite() ==> wide_rounded(
            #[trigger] fpu::wide_product(m, a, b),
            wide_value(a) * wide_value(b),
        )
    &&& forall|a: Double, b: Double|
        a.finite() && b.finite() && wide_value(b) != 0 as real ==> wide_rounded(
            #[trigger] fpu::wide_quotient(m, a, b),
            wide_value(a) / wide_value(b),
        )
    &&& forall|n: u64| wide_rounded(#[trigger] fpu::double_of(m, n), n as real)
    &&& forall|n: u64|
        rounding::rounded(#[trigger] fpu::single_of(m, n), n as real, 0 as real)
    &&& forall|a: Single|
        a.finite() ==> (#[trigger] fpu::widened(m, a)).finite() && wide_value(fpu::widened(m, a))
            == rounding::value(a)
    &&& forall|a: Double|
        a.finite() ==> rounding::rounded(
            #[trigger] fpu::narrowed(m, a),
            wide_value(a),
            rounding::speck(),
        )
    &&& forall|a: Single|
        a.finite() ==> cut_down(#[trigger] fpu::integer_of(m, a), rounding::value(a))
    &&& forall|a: Double|
        a.finite() ==> cut_down(
            fpu::wide_integer_of(m, #[trigger] fpu::wide_floor(m, a)),
            wide_value(a),
        )
    &&& forall|a: Double|
        a.finite() ==> cut_down(#[trigger] fpu::wide_integer_of(m, a), wide_value(a))
}

/// Whether an integer is a value cut down to a whole one, as far as a machine integer
/// reaches.
pub open spec fn cut_down(n: u64, x: real) -> bool {
    &&& x < 0 as real ==> n == 0
    &&& 0 as real <= x < 18446744073709551616 as real ==> n as real <= x < n as real + 1 as real
    &&& x >= 18446744073709551616 as real ==> n == u64::MAX
}

/// Whether a function over the reals is the natural exponential.
pub open spec fn is_exponential(e: spec_fn(real) -> real) -> bool {
    &&& e(0 as real) == 1 as real
    &&& 2718 as real / 1000 as real <= e(1 as real) <= 2719 as real / 1000 as real
    &&& forall|x: real, y: real| #[trigger] e(x + y) == e(x) * e(y)
    &&& forall|x: real, y: real| x <= y ==> #[trigger] e(x) <= #[trigger] e(y)
    &&& forall|x: real| #[trigger] e(x) > 0 as real
}

/// Whether the exponentials of an arithmetic are close to the natural ones, where they
/// are at most one.
pub open spec fn exponentiates(m: Arithmetic, e: spec_fn(real) -> real) -> bool {
    &&& is_exponential(e)
    &&& forall|a: Double|
        a.finite() && wide_value(a) <= 0 as real ==> {
            let result = #[trigger] fpu::wide_exponential(m, a);
            &&& result.finite()
            &&& wide_value(result) >= 0 as real
            &&& rounding::size(wide_value(result) - e(wide_value(a))) <= e(wide_value(a))
                / 1000000000000 as real + wide_speck()
        }
}

/// Whether a function over the reals is the logarithm to base two.
pub open spec fn is_logarithm(l: spec_fn(real) -> real) -> bool {
    &&& l(1 as real) == 0 as real
    &&& l(2 as real) == 1 as real
    &&& forall|x: real, y: real|
        x > 0 as real && y > 0 as real ==> #[trigger] l(x * y) == l(x) + l(y)
    &&& forall|x: real, y: real|
        (0 as real) < x && x <= y ==> #[trigger] l(x) <= #[trigger] l(y)
}

/// Whether the logarithms of an arithmetic are close to those to base two.
pub open spec fn takes_logarithms(m: Arithmetic, l: spec_fn(real) -> real) -> bool {
    &&& is_logarithm(l)
    &&& forall|a: Single|
        a.finite() && rounding::value(a) > 0 as real ==> {
            let result = #[trigger] fpu::logarithm(m, a);
            &&& result.finite()
            &&& rounding::size(rounding::value(result) - l(rounding::value(a))) <= rounding::size(
                l(rounding::value(a)),
            ) / 1000000 as real
        }
}

// ---------------------------------------------------------------------------
// Errors
// ---------------------------------------------------------------------------

/// The product of two numbers with errors has an error.
pub proof fn lemma_product_error(va: real, a: real, ea: real, vb: real, b: real, eb: real)
    requires
        rounding::size(va - a) <= ea,
        rounding::size(vb - b) <= eb,
    ensures
        rounding::size(va * vb - a * b) <= rounding::size(a) * eb + rounding::size(b) * ea + ea * eb,
{
    let (x, y) = (va - a, vb - b);
    let (p, q) = (rounding::size(a), rounding::size(b));
    assert(va * vb - a * b == a * y + b * x + x * y) by (nonlinear_arith)
        requires
            x == va - a,
            y == vb - b,
    ;
    assert(-(p * eb) <= a * y <= p * eb) by (nonlinear_arith)
        requires
            -eb <= y <= eb,
            p == a || p == -a,
            p >= 0 as real,
    ;
    assert(-(q * ea) <= b * x <= q * ea) by (nonlinear_arith)
        requires
            -ea <= x <= ea,
            q == b || q == -b,
            q >= 0 as real,
    ;
    assert(-(ea * eb) <= x * y <= ea * eb) by (nonlinear_arith)
        requires
            -ea <= x <= ea,
            -eb <= y <= eb,
    ;
}

/// Powers of an exponential grow at least linearly.
proof fn lemma_growth(e: spec_fn(real) -> real, h: real, k: nat)
    requires
        is_exponential(e),
        h >= 0 as real,
    ensures
        e((k as real) * h) >= 1 as real + (k as real) * (e(h) - 1 as real),
    decreases k,
{
    let y = e(h) - 1 as real;
    assert(e(0 as real) <= e(h));
    if k == 0 {
        assert((k as real) * h == 0 as real) by (nonlinear_arith)
            requires
                k == 0,
        ;
        assert((k as real) * y == 0 as real) by (nonlinear_arith)
            requires
                k == 0,
        ;
    } else {
        let j = (k - 1) as nat;
        lemma_growth(e, h, j);
        let a = (j as real) * h;
        assert((k as real) * h == a + h) by (nonlinear_arith)
            requires
                a == (j as real) * h,
                k as real == j as real + 1 as real,
        ;
        assert(e(a + h) == e(a) * e(h));
        let n = j as real;
        let b = e(a);
        assert(b * (1 as real + y) >= 1 as real + (n + 1 as real) * y) by (nonlinear_arith)
            requires
                b >= 1 as real + n * y,
                y >= 0 as real,
                n >= 0 as real,
        ;
    }
}

/// Exponentials of close numbers are close.
pub proof fn lemma_exponentials_are_close(e: spec_fn(real) -> real, x: real, y: real)
    requires
        is_exponential(e),
        rounding::size(x - y) <= 1 as real / 100000 as real,
    ensures
        rounding::size(e(x) - e(y)) <= e(y) * (2 as real / 100000 as real),
{
    let h = 1 as real / 100000 as real;
    lemma_growth(e, h, 100000);
    assert((100000nat as real) * h == 1 as real);
    let g = e(h);
    assert(g <= 1 as real + 172 as real / 10000000 as real);
    let k = e(-h);
    assert(g * k == 1 as real) by {
        assert(e(h + (-h)) == e(h) * e(-h));
        assert(h + (-h) == 0 as real);
    }
    assert(k >= 1 as real - 2 as real / 100000 as real) by (nonlinear_arith)
        requires
            g * k == 1 as real,
            g <= 1 as real + 172 as real / 10000000 as real,
            g > 0 as real,
            k > 0 as real,
    ;
    let d = x - y;
    assert(e(-h) <= e(d) <= e(h));
    assert(e(y + d) == e(y) * e(d));
    assert(y + d == x);
    let (a, b) = (e(y), e(d));
    assert(-(a * (2 as real / 100000 as real)) <= a * b - a <= a * (2 as real / 100000 as real)) by (
        nonlinear_arith)
        requires
            a > 0 as real,
            1 as real - 2 as real / 100000 as real <= b <= 1 as real + 2 as real / 100000 as real,
    ;
}

/// An exponential of a number that is close to an exact one.
pub proof fn lemma_decay(m: Arithmetic, e: spec_fn(real) -> real, a: Double, exact: real)
    requires
        exponentiates(m, e),
        a.finite(),
        wide_value(a) <= 0 as real,
        exact <= 0 as real,
        rounding::size(wide_value(a) - exact) <= 1 as real / 100000 as real,
    ensures
        fpu::wide_exponential(m, a).finite(),
        wide_value(fpu::wide_exponential(m, a)) >= 0 as real,
        (0 as real) < e(exact) <= 1 as real,
        rounding::size(wide_value(fpu::wide_exponential(m, a)) - e(exact)) <= e(exact) * (3 as real
            / 100000 as real) + 2 as real * wide_speck(),
        wide_value(fpu::wide_exponential(m, a)) <= 2 as real,
{
    lemma_exponentials_are_close(e, wide_value(a), exact);
    let x = e(wide_value(a));
    let y = e(exact);
    assert(e(exact) <= e(0 as real));
    assert(e(wide_value(a)) <= e(0 as real));
    let v = wide_value(fpu::wide_exponential(m, a));
    assert(rounding::size(v - x) <= x / 1000000000000 as real + wide_speck());
    assert(x <= y * (100002 as real / 100000 as real));
}

/// A time in milliseconds over another one.
pub proof fn lemma_time_ratio(m: Arithmetic, ms: u64, span: Double)
    requires
        rounds_wide(m),
        span.finite(),
        86400000 as real <= wide_value(span) <= 1000000000 as real,
    ensures
        ({
            let ratio = fpu::wide_quotient(m, fpu::double_of(m, ms), span);
            let exact = ms as real / wide_value(span);
            &&& ratio.finite()
            &&& 0 as real <= exact <= 300000000000 as real
            &&& 0 as real <= wide_value(ratio)
            &&& rounding::size(wide_value(ratio) - exact) <= exact / 4000000000000000 as real
                + 3 as real * wide_speck()
            &&& fpu::wide_quotient(m, fpu::double_of(m, ms).negated(), span).finite()
            &&& wide_value(fpu::wide_quotient(m, fpu::double_of(m, ms).negated(), span))
                <= 0 as real
            &&& rounding::size(
                wide_value(fpu::wide_quotient(m, fpu::double_of(m, ms).negated(), span)) + exact,
            ) <= exact / 4000000000000000 as real + 3 as real * wide_speck()
        }),
{
    let d = wide_value(span);
    let n = ms as real;
    let c = fpu::double_of(m, ms);
    assert(wide_rounded(c, n));
    let x = wide_value(c);
    assert(rounding::size(x - n) <= wide_slip() * n + wide_speck());
    let q = x / d;
    let exact = n / d;
    assert(q * d == x && exact * d == n) by (nonlinear_arith)
        requires
            q == x / d,
            exact == n / d,
            d > 0 as real,
    ;
    assert(0 as real <= exact <= 300000000000 as real && q >= 0 as real) by (nonlinear_arith)
        requires
            exact * d == n,
            q * d == x,
            x >= 0 as real,
            0 as real <= n <= 18446744073709551615 as real,
            d >= 86400000 as real,
    ;
    assert(rounding::size(q - exact) <= wide_slip() * exact + wide_speck()) by {
        let z = q - exact;
        let b = wide_slip() * exact + wide_speck();
        assert(z * d == x - n) by (nonlinear_arith)
            requires
                q * d == x,
                exact * d == n,
                z == q - exact,
        ;
        assert(b * d >= wide_slip() * n + wide_speck()) by (nonlinear_arith)
            requires
                b == wide_slip() * exact + wide_speck(),
                exact * d == n,
                d >= 1 as real,
                wide_speck() > 0 as real,
        ;
        assert(-b <= z <= b) by (nonlinear_arith)
            requires
                -(b * d) <= z * d <= b * d,
                d > 0 as real,
        ;
    }
    let ratio = fpu::wide_quotient(m, c, span);
    assert(rounding::size(q) < wide_brim());
    assert(wide_rounded(ratio, q));
    lemma_negated(c);
    assert((-x) / d == -q) by (nonlinear_arith)
        requires
            q == x / d,
            d > 0 as real,
    ;
    assert(wide_rounded(fpu::wide_quotient(m, c.negated(), span), -q));
    assert(wide_slip() * exact == exact / 9007199254740992 as real && wide_slip() * q == q
        / 9007199254740992 as real) by (nonlinear_arith)
        requires
            wide_slip() == 1 as real / 9007199254740992 as real,
    ;
}

/// A number close to an exact one, shared out among so many.
pub proof fn lemma_shared_out(m: Arithmetic, sum: Single, exact: real, error: real, count: u64)
    requires
        rounding::rounds(m),
        rounds_wide(m),
        sum.finite(),
        count >= 1,
        rounding::size(rounding::value(sum) - exact) <= error,
        rounding::size(exact) + error <= 1000000000000000000000000000000 as real,
    ensures
        fpu::quotient(m, sum, fpu::single_of(m, count)).finite(),
        rounding::size(
            rounding::value(fpu::quotient(m, sum, fpu::single_of(m, count))) - exact / (
            count as real),
        ) <= (2 as real * error + 4 as real * rounding::slip() * rounding::size(exact)) / (
        count as real) + rounding::speck(),
        exact >= 0 as real && rounding::value(sum) >= 0 as real ==> rounding::value(
            fpu::quotient(m, sum, fpu::single_of(m, count)),
        ) >= 0 as real,
{
    rounding::lemma_extremes();
    let n = count as real;
    let whole = fpu::single_of(m, count);
    assert(rounding::rounded(whole, n, 0 as real));
    let c = rounding::value(whole);
    let x = rounding::value(sum);
    let u = rounding::slip();
    assert(rounding::size(n) < rounding::brim());
    assert(u * n <= n / 16777216 as real) by (nonlinear_arith)
        requires
            u == 1 as real / 16777216 as real,
    ;
    assert(c >= n - n / 16777216 as real && c <= n + n / 16777216 as real);
    let a = x / c;
    let b = exact / n;
    let k = rounding::size(x);
    assert(a * c == x && b * n == exact) by (nonlinear_arith)
        requires
            a == x / c,
            b == exact / n,
            c > 0 as real,
            n > 0 as real,
    ;
    let z = rounding::size(a);
    assert(z * c == k) by {
        assert(a >= 0 as real ==> a * c >= 0 as real) by (nonlinear_arith)
            requires
                c > 0 as real,
        ;
        assert(a <= 0 as real ==> a * c <= 0 as real) by (nonlinear_arith)
            requires
                c > 0 as real,
        ;
        assert((-a) * c == -(a * c)) by (nonlinear_arith);
    }
    assert(z <= k * 2 as real) by (nonlinear_arith)
        requires
            z * c == k,
            c >= 1 as real / 2 as real,
            z >= 0 as real,
    ;
    let result = fpu::quotient(m, sum, whole);
    assert(rounding::rounded(result, a, rounding::speck()));
    assert(z < rounding::brim());
    let v = rounding::value(result);
    // In parts of the count.
    let d = a - b;
    assert(d * n == x - exact + a * (n - c)) by (nonlinear_arith)
        requires
            a * c == x,
            b * n == exact,
            d == a - b,
    ;
    let h = n - c;
    assert(-(z * (n / 16777216 as real)) <= a * h <= z * (n / 16777216 as real)) by (nonlinear_arith)
        requires
            -(n / 16777216 as real) <= h <= n / 16777216 as real,
            z == a || z == -a,
            z >= 0 as real,
    ;
    assert(z * n <= k + k / 10000000 as real) by (nonlinear_arith)
        requires
            z * c == k,
            c >= n - n / 16777216 as real,
            z >= 0 as real,
            n > 0 as real,
    ;
    let f = z * n;
    assert(z * (n / 16777216 as real) == f / 16777216 as real) by (nonlinear_arith)
        requires
            f == z * n,
    ;
    let y = rounding::size(exact);
    assert(k <= y + error);
    let top = 2 as real * error + 4 as real * u * y;
    let part = top / n;
    assert(part * n == top) by (nonlinear_arith)
        requires
            part == top / n,
            n > 0 as real,
    ;
    assert(u * z * n == f / 16777216 as real) by (nonlinear_arith)
        requires
            u == 1 as real / 16777216 as real,
            f == z * n,
    ;
    assert(4 as real * u * y == y / 4194304 as real) by (nonlinear_arith)
        requires
            u == 1 as real / 16777216 as real,
    ;
    let g = u * z;
    assert(g * n == f / 16777216 as real);
    assert(-(part * n) <= d * n - g * n && d * n + g * n <= part * n);
    assert(-part <= d - g && d + g <= part) by (nonlinear_arith)
        requires
            -(part * n) <= d * n - g * n,
            d * n + g * n <= part * n,
            n > 0 as real,
    ;
    if exact >= 0 as real && x >= 0 as real {
        assert(a >= 0 as real) by (nonlinear_arith)
            requires
                a * c == x,
                x >= 0 as real,
                c > 0 as real,
        ;
    }
}

/// How far the mean of so many shares may be off.
pub open spec fn mean_error(n: nat) -> real {
    (4 as real * (n as real) + 5 as real) / 16777216 as real
}

/// The mean of numbers between zero and one is the exact one but for a bounded error.
pub proof fn lemma_mean(m: Arithmetic, shares: Seq<Single>)
    requires
        rounding::rounds(m),
        rounds_wide(m),
        0 < shares.len(),
        rounding::countable(shares.len()),
        forall|i: int|
            0 <= i < shares.len() ==> (#[trigger] shares[i]).finite() && 0 as real
                <= rounding::value(shares[i]) <= 1 as real,
    ensures
        ({
            let mean = fpu::quotient(
                m,
                numeric::total(m, shares),
                fpu::single_of(m, shares.len() as u64),
            );
            &&& mean.finite()
            &&& rounding::value(mean) >= 0 as real
            &&& rounding::size(
                rounding::value(mean) - rounding::plus(shares) / (shares.len() as real),
            ) <= mean_error(shares.len())
        }),
{
    rounding::lemma_extremes();
    let n = shares.len() as real;
    let u = rounding::slip();
    assert forall|i: int| 0 <= i < shares.len() implies 0 as real <= rounding::value(
        #[trigger] shares[i],
    ) <= 1 as real by {}
    rounding::lemma_plus_between(shares, 0 as real, 1 as real);
    let exact = rounding::plus(shares);
    assert(0 as real <= exact <= n);
    rounding::lemma_bulk(shares);
    assert(rounding::bulk(shares) == exact);
    rounding::lemma_total(m, shares);
    let error = 2 as real * u * n * exact;
    assert(0 as real <= error <= 2000000000000 as real) by (nonlinear_arith)
        requires
            error == 2 as real * u * n * exact,
            u == 1 as real / 16777216 as real,
            0 as real <= exact <= n,
            n <= 4000000 as real,
    ;
    lemma_shared_out(m, numeric::total(m, shares), exact, error, shares.len() as u64);
    let t = rounding::speck();
    let bound = (2 as real * error + 4 as real * u * exact) / n;
    assert(bound <= (4 as real * n + 4 as real) * u) by (nonlinear_arith)
        requires
            bound == (2 as real * error + 4 as real * u * exact) / n,
            error == 2 as real * u * n * exact,
            u == 1 as real / 16777216 as real,
            0 as real <= exact <= n,
            n >= 1 as real,
    ;
    assert((4 as real * n + 4 as real) * u + u == mean_error(shares.len())) by (nonlinear_arith)
        requires
            u == 1 as real / 16777216 as real,
            mean_error(shares.len()) == (4 as real * n + 5 as real) / 16777216 as real,
    ;
}

} // verus!
