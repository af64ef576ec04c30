//! Numbers of the language are IEEE-754 binary64 values, held here as their
//! bit patterns. Sign, zero, NaN, equality and ordering are decided on the
//! bits; the four arithmetic operations are supplied by the caller.
use vstd::prelude::*;

verus! {

pub const SIGN_BIT: u64 = 0x8000_0000_0000_0000;

pub const MAGNITUDE_MASK: u64 = 0x7fff_ffff_ffff_ffff;

pub const EXPONENT_MASK: u64 = 0x7ff0_0000_0000_0000;

pub const FRACTION_MASK: u64 = 0x000f_ffff_ffff_ffff;

/// An arithmetic operation on two numbers.
#[derive(Clone, Copy, Debug, PartialEq, Eq, Structural)]
pub enum ArithOp {
    Add,
    Sub,
    Mul,
    Div,
}

pub open spec fn spec_is_nan(a: u64) -> bool {
    a & EXPONENT_MASK == EXPONENT_MASK && a & FRACTION_MASK != 0
}

pub open spec fn spec_is_zero(a: u64) -> bool {
    a & MAGNITUDE_MASK == 0
}

/// IEEE-754 equality: NaN equals nothing, and the two zeros are equal.
pub open spec fn spec_num_eq(a: u64, b: u64) -> bool {
    !spec_is_nan(a) && !spec_is_nan(b) && (a == b || (spec_is_zero(a) && spec_is_zero(b)))
}

/// A key whose unsigned order is the numeric order of non-NaN values
/// (with -0 placed just below +0).
pub open spec fn order_key(a: u64) -> u64 {
    if a & SIGN_BIT != 0 {
        !a
    } else {
        a | SIGN_BIT
    }
}

/// IEEE-754 `<`: false whenever a NaN is involved; the two zeros are equal.
pub open spec fn spec_num_lt(a: u64, b: u64) -> bool {
    !spec_is_nan(a) && !spec_is_nan(b) && !(spec_is_zero(a) && spec_is_zero(b)) && order_key(a)
        < order_key(b)
}

/// IEEE-754 `<=`.
pub open spec fn spec_num_le(a: u64, b: u64) -> bool {
    spec_num_lt(a, b) || spec_num_eq(a, b)
}

pub open spec fn spec_negate(a: u64) -> u64 {
    a ^ SIGN_BIT
}

pub fn is_nan(a: u64) -> (r: bool)
    ensures
        r == spec_is_nan(a),
{
    a & EXPONENT_MASK == EXPONENT_MASK && a & FRACTION_MASK != 0
}

pub fn is_zero(a: u64) -> (r: bool)
    ensures
        r == spec_is_zero(a),
{
    a & MAGNITUDE_MASK == 0
}

pub fn num_eq(a: u64, b: u64) -> (r: bool)
    ensures
        r == spec_num_eq(a, b),
{
    !is_nan(a) && !is_nan(b) && (a == b || (is_zero(a) && is_zero(b)))
}

fn key(a: u64) -> (r: u64)
    ensures
        r == order_key(a),
{
    if a & SIGN_BIT != 0 {
        !a
    } else {
        a | SIGN_BIT
    }
}

pub fn num_lt(a: u64, b: u64) -> (r: bool)
    ensures
        r == spec_num_lt(a, b),
{
    !is_nan(a) && !is_nan(b) && !(is_zero(a) && is_zero(b)) && key(a) < key(b)
}

pub fn num_le(a: u64, b: u64) -> (r: bool)
    ensures
        r == spec_num_le(a, b),
{
    num_lt(a, b) || num_eq(a, b)
}

/// Negation flips the sign bit, as IEEE-754 negation does.
pub fn negate(a: u64) -> (r: u64)
    ensures
        r == spec_negate(a),
{
    a ^ SIGN_BIT
}

} // verus!

verus! {

/// `arith` computes what `num` says, on every call it can make.
pub open spec fn arith_agrees<F: Fn(ArithOp, u64, u64) -> u64>(
    arith: F,
    num: spec_fn(ArithOp, u64, u64) -> u64,
) -> bool {
    forall|op: ArithOp, a: u64, b: u64, r: u64| #[trigger]
        arith.ensures((op, a, b), r) ==> r == num(op, a, b)
}

/// `arith` may be called on any operation and operands.
pub open spec fn arith_total<F: Fn(ArithOp, u64, u64) -> u64>(arith: F) -> bool {
    forall|op: ArithOp, a: u64, b: u64| #[trigger] arith.requires((op, a, b))
}

/// `show` renders each number as `sh` says.
pub open spec fn show_agrees<S: Fn(u64) -> String>(show: S, sh: spec_fn(u64) -> Seq<char>) -> bool {
    forall|n: u64, r: String| #[trigger] show.ensures((n,), r) ==> r@ == sh(n)
}

} // verus!
