use vstd::prelude::*;
use crate::gate::Angle;

verus! {

/// The floating-point operations the compiler performs on angles.
/// Each takes its operands as IEEE-754 binary64 bit patterns; unary operations ignore
/// the second operand, and `FromInt` reads the first operand as an `i64`.
#[derive(Clone, Copy, Debug, PartialEq, Eq, Structural)]
pub enum FloatOp {
    Add,
    Sub,
    Mul,
    Div,
    Pow,
    Sin,
    Cos,
    Tan,
    Exp,
    Ln,
    Sqrt,
    FromInt,
}

/// An implementation of the floating-point operations can be called on any operands,
/// and gives one result for one set of operands.
pub open spec fn arith_ok<A: Fn(FloatOp, Angle, Angle) -> Angle>(arith: A) -> bool {
    &&& forall|op: FloatOp, a: Angle, b: Angle| #[trigger] arith.requires((op, a, b))
    &&& forall|op: FloatOp, a: Angle, b: Angle, r1: Angle, r2: Angle|
        #[trigger] arith.ensures((op, a, b), r1) && #[trigger] arith.ensures((op, a, b), r2) ==> r1 == r2
}

/// The result of `op` on `a` and `b` under the implementation `arith`.
pub open spec fn float_op<A: Fn(FloatOp, Angle, Angle) -> Angle>(arith: A, op: FloatOp, a: Angle, b: Angle) -> Angle {
    choose|r: Angle| arith.ensures((op, a, b), r)
}

/// Applies `op` to `a` and `b`.
pub fn apply<A: Fn(FloatOp, Angle, Angle) -> Angle>(arith: &A, op: FloatOp, a: Angle, b: Angle) -> (r: Angle)
    requires
        arith_ok(*arith),
    ensures
        r == float_op(*arith, op, a, b),
{
    let r = arith(op, a, b);
    proof {
        let c = choose|c: Angle| arith.ensures((op, a, b), c);
        assert(arith.ensures((op, a, b), c));
    }
    r
}

/// The sign bit of a binary64 number.
pub const SIGN_BIT: u64 = 0x8000_0000_0000_0000u64;

/// The binary64 number 1e-10, the tolerance under which an angle counts as zero.
pub const TOLERANCE: u64 = 0x3ddb_7cdf_d9d7_bdbbu64;

/// The binary64 positive infinity; magnitudes above it are NaNs.
pub const INFINITY: u64 = 0x7ff0_0000_0000_0000u64;

/// The binary64 number nearest to pi.
pub const PI: u64 = 0x4009_21fb_5444_2d18u64;

/// The binary64 number nearest to pi / 2.
pub const FRAC_PI_2: u64 = 0x3ff9_21fb_5444_2d18u64;

/// The binary64 number nearest to pi / 4.
pub const FRAC_PI_4: u64 = 0x3fe9_21fb_5444_2d18u64;

/// The binary64 number 0.
pub const ZERO: u64 = 0u64;

/// The bit pattern of |a|: `a` with its sign bit cleared.
pub open spec fn magnitude(a: Angle) -> u64 {
    a & !SIGN_BIT
}

/// |a| < 1e-10. Non-negative binary64 numbers are ordered as their bit patterns, and
/// every NaN has a magnitude above infinity, so a NaN never counts.
pub open spec fn spec_negligible(a: Angle) -> bool {
    magnitude(a) < TOLERANCE
}

/// |a| > 1e-10; false for a NaN.
pub open spec fn spec_significant(a: Angle) -> bool {
    TOLERANCE < magnitude(a) && magnitude(a) <= INFINITY
}

/// -a: `a` with its sign bit flipped.
pub open spec fn spec_neg(a: Angle) -> Angle {
    a ^ SIGN_BIT
}

/// Whether |a| < 1e-10.
pub fn is_negligible(a: Angle) -> (b: bool)
    ensures
        b == spec_negligible(a),
{
    (a & !SIGN_BIT) < TOLERANCE
}

/// Whether |a| > 1e-10.
pub fn is_significant(a: Angle) -> (b: bool)
    ensures
        b == spec_significant(a),
{
    let m = a & !SIGN_BIT;
    TOLERANCE < m && m <= INFINITY
}

/// The negation of `a`.
pub fn neg(a: Angle) -> (r: Angle)
    ensures
        r == spec_neg(a),
{
    a ^ SIGN_BIT
}

/// The sum of two angles (under `arith`) is below the tolerance.
pub open spec fn spec_cancel<A: Fn(FloatOp, Angle, Angle) -> Angle>(arith: A, a: Angle, b: Angle) -> bool {
    spec_negligible(float_op(arith, FloatOp::Add, a, b))
}

/// Whether |a + b| < 1e-10.
pub fn angles_cancel<A: Fn(FloatOp, Angle, Angle) -> Angle>(arith: &A, a: Angle, b: Angle) -> (r: bool)
    requires
        arith_ok(*arith),
    ensures
        r == spec_cancel(*arith, a, b),
{
    let s = apply(arith, FloatOp::Add, a, b);
    is_negligible(s)
}

} // verus!
