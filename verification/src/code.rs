//! The bytecode representation: runtime values, compile-time constants,
//! opcodes, and the integer arithmetic the virtual machine performs itself.

use vstd::prelude::*;

verus! {

/// The sign bit of an IEEE 754 binary64 bit pattern; flipping it negates the
/// encoded number, whatever that number is.
pub const DOUBLE_SIGN_BIT: u64 = 0x8000_0000_0000_0000;

/// A runtime value on the operand stack. A `Double` carries the raw bit
/// pattern of an IEEE 754 binary64 number; the arithmetic on such bits is
/// performed by the driver that runs the virtual machine (see `vm::Outcome`).
#[derive(Clone, Copy, Debug, PartialEq, Eq, Structural)]
pub enum Value {
    Int(i64),
    Double(u64),
}

/// A decimal literal `ipart.fpart` with `flen` fractional digits, so that
/// leading zeros of the fraction are preserved (`1.05` is `{1, 5, 2}`).
#[derive(Clone, Copy, Debug, PartialEq, Eq, Structural)]
pub struct DecLit {
    pub ipart: u64,
    pub fpart: u64,
    pub flen: u32,
}

/// A constant embedded in the instruction sequence: either an integer, ready
/// to push, or a decimal literal whose double value the driver supplies.
#[derive(Clone, Copy, Debug, PartialEq, Eq, Structural)]
pub enum Lit {
    Int(i64),
    Dec(DecLit),
}

/// A single bytecode operation.
#[derive(Clone, Copy, Debug, PartialEq, Eq, Structural)]
pub enum OpCode {
    Constant(Lit),
    Negate,
    Add,
    Sub,
    Mul,
    Div,
    Return,
}

/// An instruction: an opcode tagged with the source line it came from.
#[derive(Clone, Copy, Debug, PartialEq, Eq, Structural)]
pub struct Code {
    pub code: OpCode,
    pub line: usize,
}

/// A binary arithmetic operator, as handed to the driver when an operand is
/// a double.
#[derive(Clone, Copy, Debug, PartialEq, Eq, Structural)]
pub enum BinOp {
    Add,
    Sub,
    Mul,
    Div,
}

/// Integer negation with wrapping on the one overflowing case.
pub open spec fn spec_neg_int(n: i64) -> i64 {
    vstd::wrapping::i64_specs::wrapping_sub(0, n)
}

pub open spec fn abs_int(x: int) -> int {
    if x < 0 {
        -x
    } else {
        x
    }
}

/// Integer division truncating toward zero.
pub open spec fn div_trunc(x: int, d: int) -> int
    recommends
        d != 0,
{
    if (x < 0) == (d < 0) {
        abs_int(x) / abs_int(d)
    } else {
        -(abs_int(x) / abs_int(d))
    }
}

/// The `Div` result on two integer operands: truncating division, wrapping
/// on the one overflowing case (`i64::MIN / -1`).
pub open spec fn spec_div_int(a: i64, b: i64) -> i64
    recommends
        b != 0,
{
    if a == i64::MIN && b == -1 {
        i64::MIN
    } else {
        div_trunc(a as int, b as int) as i64
    }
}

/// What a binary operator yields on two integer operands: wrapping
/// arithmetic, and truncating division.
pub open spec fn spec_int_op(op: BinOp, a: i64, b: i64) -> i64
    recommends
        op is Div ==> b != 0,
{
    match op {
        BinOp::Add => vstd::wrapping::i64_specs::wrapping_add(a, b),
        BinOp::Sub => vstd::wrapping::i64_specs::wrapping_sub(a, b),
        BinOp::Mul => vstd::wrapping::i64_specs::wrapping_mul(a, b),
        BinOp::Div => spec_div_int(a, b),
    }
}

/// Negation of a runtime value; it preserves the variant.
pub open spec fn spec_negate(v: Value) -> Value {
    match v {
        Value::Int(n) => Value::Int(spec_neg_int(n)),
        Value::Double(bits) => Value::Double(bits ^ DOUBLE_SIGN_BIT),
    }
}

impl Value {
    /// Negation preserves the variant: an integer negates (wrapping on
    /// `i64::MIN`), a double has its IEEE 754 sign bit flipped.
    pub fn negate(&self) -> (r: Value)
        ensures
            r == spec_negate(*self),
    {
        match *self {
            Value::Int(n) => {
                if n == i64::MIN {
                    Value::Int(i64::MIN)
                } else {
                    Value::Int(-n)
                }
            },
            Value::Double(bits) => Value::Double(bits ^ DOUBLE_SIGN_BIT),
        }
    }
}

/// The magnitude of a quotient is bounded by the magnitude of the dividend,
/// and strictly smaller once the divisor's magnitude is at least two.
proof fn lemma_quotient_bounds(p: int, q: int)
    requires
        p >= 0,
        q >= 1,
    ensures
        0 <= p / q <= p,
        q >= 2 && p <= 0x8000_0000_0000_0000 ==> p / q < 0x8000_0000_0000_0000,
{
    assert(0 <= p / q <= p) by (nonlinear_arith)
        requires
            p >= 0,
            q >= 1,
    ;
    if q >= 2 && p <= 0x8000_0000_0000_0000 {
        assert(p / q < 0x8000_0000_0000_0000) by (nonlinear_arith)
            requires
                p >= 0,
                q >= 2,
                p <= 0x8000_0000_0000_0000,
        ;
    }
}

/// Truncating division with the wrapping case, executable form.
pub fn div_int(a: i64, b: i64) -> (r: i64)
    requires
        b != 0,
    ensures
        r == spec_div_int(a, b),
{
    let r = match a.checked_div(b) {
        Some(q) => q,
        None => i64::MIN,
    };
    proof {
        let x = a as int;
        let d = b as int;
        let p = abs_int(x);
        let q = abs_int(d);
        lemma_quotient_bounds(p, q);
        if x == 0 {
            assert(p / q == 0);
        } else if x < 0 && d < 0 {
            assert(x * -1 == p && d * -1 == q);
            assert(div_trunc(x, d) == (x * -1) / (d * -1));
        } else if x < 0 && d > 0 {
            assert(x * -1 == p && d == q);
            assert(div_trunc(x, d) == ((x * -1) / d) * -1);
        } else if x > 0 && d < 0 {
            assert(x == p && d * -1 == q);
            assert(div_trunc(x, d) == (x / (d * -1)) * -1);
        }
    }
    r
}

/// Apply a binary operator to two integer operands.
pub fn int_op(op: BinOp, a: i64, b: i64) -> (r: i64)
    requires
        op is Div ==> b != 0,
    ensures
        r == spec_int_op(op, a, b),
{
    match op {
        BinOp::Add => a.wrapping_add(b),
        BinOp::Sub => a.wrapping_sub(b),
        BinOp::Mul => a.wrapping_mul(b),
        BinOp::Div => div_int(a, b),
    }
}

} // verus!
