//! The floating-point unit: arithmetic on bit patterns, supplied by the
//! application.

use vstd::prelude::*;

use crate::float::{Double, Single};

verus! {

/// One operation of floating-point arithmetic, on bit patterns.
///
/// A result in single precision is the low half of the 64-bit answer.
#[derive(Debug, Clone, Copy, PartialEq, Eq)]
pub enum Flop {
    /// Single precision: `a + b`.
    Add(u32, u32),
    /// Single precision: `a - b`.
    Sub(u32, u32),
    /// Single precision: `a * b`.
    Mul(u32, u32),
    /// Single precision: `a / b`.
    Div(u32, u32),
    /// Single precision: square root.
    Sqrt(u32),
    /// Single precision: logarithm to base two.
    Log2(u32),
    /// The nearest single-precision number to an integer.
    FromInt(u64),
    /// A single-precision number, cut to an integer; out of range saturates.
    ToInt(u32),
    /// Double precision: `a + b`.
    WideAdd(u64, u64),
    /// Double precision: `a - b`.
    WideSub(u64, u64),
    /// Double precision: `a * b`.
    WideMul(u64, u64),
    /// Double precision: `a / b`.
    WideDiv(u64, u64),
    /// Double precision: natural exponential.
    WideExp(u64),
    /// Double precision: the largest integral number not above.
    WideFloor(u64),
    /// The nearest double-precision number to an integer.
    WideFromInt(u64),
    /// A double-precision number, cut to an integer; out of range saturates.
    WideToInt(u64),
    /// A single-precision number in double precision.
    Widen(u32),
    /// The nearest single-precision number to a double-precision one.
    Narrow(u64),
}

/// What a floating-point unit answers to each operation.
pub type Arithmetic = spec_fn(Flop) -> u64;

pub open spec fn sum(m: Arithmetic, a: Single, b: Single) -> Single {
    Single { bits: m(Flop::Add(a.bits, b.bits)) as u32 }
}

pub open spec fn difference(m: Arithmetic, a: Single, b: Single) -> Single {
    Single { bits: m(Flop::Sub(a.bits, b.bits)) as u32 }
}

pub open spec fn product(m: Arithmetic, a: Single, b: Single) -> Single {
    Single { bits: m(Flop::Mul(a.bits, b.bits)) as u32 }
}

pub open spec fn quotient(m: Arithmetic, a: Single, b: Single) -> Single {
    Single { bits: m(Flop::Div(a.bits, b.bits)) as u32 }
}

pub open spec fn root(m: Arithmetic, a: Single) -> Single {
    Single { bits: m(Flop::Sqrt(a.bits)) as u32 }
}

pub open spec fn logarithm(m: Arithmetic, a: Single) -> Single {
    Single { bits: m(Flop::Log2(a.bits)) as u32 }
}

pub open spec fn single_of(m: Arithmetic, n: u64) -> Single {
    Single { bits: m(Flop::FromInt(n)) as u32 }
}

pub open spec fn integer_of(m: Arithmetic, a: Single) -> u64 {
    m(Flop::ToInt(a.bits))
}

pub open spec fn wide_sum(m: Arithmetic, a: Double, b: Double) -> Double {
    Double { bits: m(Flop::WideAdd(a.bits, b.bits)) }
}

pub open spec fn wide_difference(m: Arithmetic, a: Double, b: Double) -> Double {
    Double { bits: m(Flop::WideSub(a.bits, b.bits)) }
}

pub open spec fn wide_product(m: Arithmetic, a: Double, b: Double) -> Double {
    Double { bits: m(Flop::WideMul(a.bits, b.bits)) }
}

pub open spec fn wide_quotient(m: Arithmetic, a: Double, b: Double) -> Double {
    Double { bits: m(Flop::WideDiv(a.bits, b.bits)) }
}

pub open spec fn wide_exponential(m: Arithmetic, a: Double) -> Double {
    Double { bits: m(Flop::WideExp(a.bits)) }
}

pub open spec fn wide_floor(m: Arithmetic, a: Double) -> Double {
    Double { bits: m(Flop::WideFloor(a.bits)) }
}

pub open spec fn double_of(m: Arithmetic, n: u64) -> Double {
    Double { bits: m(Flop::WideFromInt(n)) }
}

pub open spec fn wide_integer_of(m: Arithmetic, a: Double) -> u64 {
    m(Flop::WideToInt(a.bits))
}

pub open spec fn widened(m: Arithmetic, a: Single) -> Double {
    Double { bits: m(Flop::Widen(a.bits)) }
}

pub open spec fn narrowed(m: Arithmetic, a: Double) -> Single {
    Single { bits: m(Flop::Narrow(a.bits)) as u32 }
}

/// A floating-point unit: a total function from operations to answers.
pub struct Fpu<F: Fn(Flop) -> u64> {
    eval: F,
}

impl<F: Fn(Flop) -> u64> View for Fpu<F> {
    type V = Arithmetic;

    closed spec fn view(&self) -> Arithmetic {
        |op: Flop| choose|answer: u64| call_ensures(self.eval, (op,), answer)
    }
}

impl<F: Fn(Flop) -> u64> Fpu<F> {
    #[verifier::type_invariant]
    closed spec fn total_function(self) -> bool {
        &&& forall|op: Flop| #[trigger] call_requires(self.eval, (op,))
        &&& forall|op: Flop, a: u64, b: u64| #[trigger]
            call_ensures(self.eval, (op,), a) && #[trigger] call_ensures(self.eval, (op,), b) ==> a
                == b
    }

    /// A unit that answers with `eval`, which must take every operation and
    /// give equal answers to equal operations.
    pub fn new(eval: F) -> (unit: Fpu<F>)
        requires
            forall|op: Flop| #[trigger] call_requires(eval, (op,)),
            forall|op: Flop, a: u64, b: u64| #[trigger]
                call_ensures(eval, (op,), a) && #[trigger] call_ensures(eval, (op,), b) ==> a == b,
        ensures
            forall|op: Flop, a: u64| #[trigger] call_ensures(eval, (op,), a) ==> unit@(op) == a,
    {
        Fpu { eval }
    }

    fn run(&self, op: Flop) -> (answer: u64)
        ensures
            answer == self@(op),
    {
        proof {
            use_type_invariant(self);
        }
        (self.eval)(op)
    }

    pub fn add(&self, a: Single, b: Single) -> (r: Single)
        ensures
            r == sum(self@, a, b),
    {
        Single { bits: self.run(Flop::Add(a.bits, b.bits)) as u32 }
    }

    pub fn sub(&self, a: Single, b: Single) -> (r: Single)
        ensures
            r == difference(self@, a, b),
    {
        Single { bits: self.run(Flop::Sub(a.bits, b.bits)) as u32 }
    }

    pub fn mul(&self, a: Single, b: Single) -> (r: Single)
        ensures
            r == product(self@, a, b),
    {
        Single { bits: self.run(Flop::Mul(a.bits, b.bits)) as u32 }
    }

    pub fn div(&self, a: Single, b: Single) -> (r: Single)
        ensures
            r == quotient(self@, a, b),
    {
        Single { bits: self.run(Flop::Div(a.bits, b.bits)) as u32 }
    }

    pub fn sqrt(&self, a: Single) -> (r: Single)
        ensures
            r == root(self@, a),
    {
        Single { bits: self.run(Flop::Sqrt(a.bits)) as u32 }
    }

    pub fn log2(&self, a: Single) -> (r: Single)
        ensures
            r == logarithm(self@, a),
    {
        Single { bits: self.run(Flop::Log2(a.bits)) as u32 }
    }

    pub fn from_int(&self, n: u64) -> (r: Single)
        ensures
            r == single_of(self@, n),
    {
        Single { bits: self.run(Flop::FromInt(n)) as u32 }
    }

    pub fn to_int(&self, a: Single) -> (r: u64)
        ensures
            r == integer_of(self@, a),
    {
        self.run(Flop::ToInt(a.bits))
    }

    pub fn wide_add(&self, a: Double, b: Double) -> (r: Double)
        ensures
            r == wide_sum(self@, a, b),
    {
        Double { bits: self.run(Flop::WideAdd(a.bits, b.bits)) }
    }

    pub fn wide_sub(&self, a: Double, b: Double) -> (r: Double)
        ensures
            r == wide_difference(self@, a, b),
    {
        Double { bits: self.run(Flop::WideSub(a.bits, b.bits)) }
    }

    pub fn wide_mul(&self, a: Double, b: Double) -> (r: Double)
        ensures
            r == wide_product(self@, a, b),
    {
        Double { bits: self.run(Flop::WideMul(a.bits, b.bits)) }
    }

    pub fn wide_div(&self, a: Double, b: Double) -> (r: Double)
        ensures
            r == wide_quotient(self@, a, b),
    {
        Double { bits: self.run(Flop::WideDiv(a.bits, b.bits)) }
    }

    pub fn wide_exp(&self, a: Double) -> (r: Double)
        ensures
            r == wide_exponential(self@, a),
    {
        Double { bits: self.run(Flop::WideExp(a.bits)) }
    }

    pub fn wide_floored(&self, a: Double) -> (r: Double)
        ensures
            r == wide_floor(self@, a),
    {
        Double { bits: self.run(Flop::WideFloor(a.bits)) }
    }

    pub fn wide_from_int(&self, n: u64) -> (r: Double)
        ensures
            r == double_of(self@, n),
    {
        Double { bits: self.run(Flop::WideFromInt(n)) }
    }

    pub fn wide_to_int(&self, a: Double) -> (r: u64)
        ensures
            r == wide_integer_of(self@, a),
    {
        self.run(Flop::WideToInt(a.bits))
    }

    pub fn widen(&self, a: Single) -> (r: Double)
        ensures
            r == widened(self@, a),
    {
        Double { bits: self.run(Flop::Widen(a.bits)) }
    }

    pub fn narrow(&self, a: Double) -> (r: Single)
        ensures
            r == narrowed(self@, a),
    {
        Single { bits: self.run(Flop::Narrow(a.bits)) as u32 }
    }
}

} // verus!
