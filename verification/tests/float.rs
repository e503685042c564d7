use piria::float::{Double, Single};
use piria::fpu::{Flop, Fpu};

fn single(x: f32) -> Single {
    Single::from_bits(x.to_bits())
}

fn value(s: Single) -> f32 {
    f32::from_bits(s.bits)
}

fn quiet(x: f32) -> u64 {
    let x = if x.is_nan() { f32::NAN } else { x };
    x.to_bits() as u64
}

fn wide_quiet(x: f64) -> u64 {
    let x = if x.is_nan() { f64::NAN } else { x };
    x.to_bits()
}

fn evaluate(op: Flop) -> u64 {
    let s = f32::from_bits;
    let d = f64::from_bits;
    match op {
        Flop::Add(a, b) => quiet(s(a) + s(b)),
        Flop::Sub(a, b) => quiet(s(a) - s(b)),
        Flop::Mul(a, b) => quiet(s(a) * s(b)),
        Flop::Div(a, b) => quiet(s(a) / s(b)),
        Flop::Sqrt(a) => quiet(s(a).sqrt()),
        Flop::Log2(a) => quiet(s(a).log2()),
        Flop::FromInt(n) => quiet(n as f32),
        Flop::ToInt(a) => s(a) as u64,
        Flop::WideAdd(a, b) => wide_quiet(d(a) + d(b)),
        Flop::WideSub(a, b) => wide_quiet(d(a) - d(b)),
        Flop::WideMul(a, b) => wide_quiet(d(a) * d(b)),
        Flop::WideDiv(a, b) => wide_quiet(d(a) / d(b)),
        Flop::WideExp(a) => wide_quiet(d(a).exp()),
        Flop::WideFloor(a) => wide_quiet(d(a).floor()),
        Flop::WideFromInt(n) => wide_quiet(n as f64),
        Flop::WideToInt(a) => d(a) as u64,
        Flop::Widen(a) => wide_quiet(s(a) as f64),
        Flop::Narrow(a) => quiet(d(a) as f32),
    }
}

fn native() -> Fpu<fn(Flop) -> u64> {
    Fpu::new(evaluate as fn(Flop) -> u64)
}

fn samples() -> Vec<f32> {
    vec![
        0.0,
        -0.0,
        1.0,
        -1.0,
        0.5,
        1e-40,
        -1e-40,
        3.0e38,
        f32::MAX,
        f32::MIN,
        f32::INFINITY,
        f32::NEG_INFINITY,
        f32::NAN,
        -f32::NAN,
    ]
}

#[test]
fn comparisons_agree_with_the_machine() {
    for &a in &samples() {
        for &b in &samples() {
            let (x, y) = (single(a), single(b));
            assert_eq!(x.lt(&y), a < b);
            assert_eq!(x.le(&y), a <= b);
            assert_eq!(x.same_number(&y), a == b);
            assert_eq!(x.after(&y), a.total_cmp(&b).is_gt());
            if !a.is_nan() || !b.is_nan() {
                assert_eq!(value(x.max(&y)), a.max(b));
                assert_eq!(value(x.min(&y)), a.min(b));
            }
        }
        assert_eq!(single(a).is_nan(), a.is_nan());
        assert_eq!(single(a).is_finite(), a.is_finite());
        assert_eq!(single(a).neg().bits, (-a).to_bits());
        assert_eq!(single(a).abs().bits, a.abs().to_bits());
        let clamped = value(single(a).clamp(&Single::zero(), &Single::one()));
        if a.is_nan() {
            assert!(clamped.is_nan());
        } else {
            assert_eq!(clamped, a.clamp(0.0, 1.0));
        }
    }
}

#[test]
fn double_comparisons_agree_with_the_machine() {
    let samples =
        [0.0f64, -0.0, 1.0, -1.0, 1e-310, f64::MAX, f64::INFINITY, f64::NEG_INFINITY, f64::NAN];
    for &a in &samples {
        for &b in &samples {
            assert_eq!(Double { bits: a.to_bits() }.lt(&Double { bits: b.to_bits() }), a < b);
        }
        let x = Double { bits: a.to_bits() };
        assert_eq!(x.is_nan(), a.is_nan());
        assert_eq!(x.is_finite(), a.is_finite());
        assert_eq!(x.neg().bits, (-a).to_bits());
    }
}

#[test]
fn arithmetic_goes_through_the_unit() {
    let fpu = native();
    assert_eq!(value(fpu.add(single(1.5), single(2.0))), 3.5);
    assert_eq!(value(fpu.sub(single(1.5), single(2.0))), -0.5);
    assert_eq!(value(fpu.mul(single(1.5), single(2.0))), 3.0);
    assert_eq!(value(fpu.div(single(1.0), single(3.0))), 1.0 / 3.0);
    assert_eq!(value(fpu.sqrt(single(2.0))), 2.0f32.sqrt());
    assert_eq!(value(fpu.log2(single(8.0))), 3.0);
    assert_eq!(value(fpu.from_int(16_777_217)), 16_777_216.0);
    assert_eq!(fpu.to_int(single(2.9)), 2);
    assert_eq!(fpu.to_int(single(-1.0)), 0);
    let wide = |x: f64| Double { bits: x.to_bits() };
    assert_eq!(fpu.wide_add(wide(1.5), wide(2.0)), wide(3.5));
    assert_eq!(fpu.wide_sub(wide(1.5), wide(2.0)), wide(-0.5));
    assert_eq!(fpu.wide_mul(wide(1.5), wide(2.0)), wide(3.0));
    assert_eq!(fpu.wide_div(wide(1.0), wide(3.0)), wide(1.0 / 3.0));
    assert_eq!(fpu.wide_exp(wide(1.0)), wide(1.0f64.exp()));
    assert_eq!(fpu.wide_floored(wide(-1.5)), wide(-2.0));
    assert_eq!(fpu.wide_from_int(7), wide(7.0));
    assert_eq!(fpu.wide_to_int(wide(7.9)), 7);
    assert_eq!(fpu.widen(single(0.1)), wide(0.1f32 as f64));
    assert_eq!(fpu.narrow(wide(0.1)), single(0.1));
}

#[test]
fn machine_arithmetic_rounds() {
    let fpu = native();
    let slip = 2.0f64.powi(-24) * (1.0 + 1.0e-6);
    let speck = 2.0f64.powi(-150) * (1.0 + 1.0e-6);
    let brim = 2.0f64.powi(127);
    let check = |result: f32, exact: f64, close_to_zero: f64| {
        assert!(result.is_finite() || exact.abs() >= brim);
        if result.is_finite() {
            assert!((result as f64 - exact).abs() <= slip * exact.abs() + close_to_zero);
            assert!(exact < 0.0 || result >= 0.0);
            assert!(exact > 0.0 || result <= 0.0);
        }
    };
    let mut state = 88_172_645_463_325_252u64;
    let mut numbers = samples();
    for _ in 0..300 {
        state ^= state << 13;
        state ^= state >> 7;
        state ^= state << 17;
        numbers.push(f32::from_bits(state as u32));
    }
    for &a in &numbers {
        for &b in &numbers {
            let (x, y) = (a as f64, b as f64);
            let (sa, sb) = (single(a), single(b));
            let both = a.is_finite() && b.is_finite();
            let sum = value(fpu.add(sa, sb));
            assert_eq!(fpu.add(sa, sb), fpu.add(sb, sa));
            let difference = value(fpu.sub(sa, sb));
            let product = value(fpu.mul(sa, sb));
            if both {
                check(sum, x + y, 0.0);
                check(difference, x - y, 0.0);
                check(product, x * y, speck);
                if b != 0.0 {
                    check(value(fpu.div(sa, sb)), x / y, speck);
                }
            } else {
                assert!(!sum.is_finite() && !difference.is_finite() && !product.is_finite());
            }
        }
        let root = value(fpu.sqrt(single(a)));
        assert_eq!(root.is_finite(), a.is_finite() && a >= 0.0);
        if root.is_finite() {
            let exact = (a as f64).sqrt();
            assert!(root >= 0.0);
            assert!((root as f64 - exact).abs() <= slip * exact);
        }
    }
}
