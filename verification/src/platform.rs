//! The integer core of the `bin` module: bitwise operations on safe integers.
//!
//! A number takes part in a bitwise operation when it is a safe integer, one
//! whose magnitude is at most 2^53 - 1, so that it has an exact value both as a
//! float and as an `i64`; the result must be a safe integer too.
use vstd::prelude::*;

verus! {

/// The largest safe integer, 2^53 - 1.
pub const SAFE_INT_MAX: i64 = 9007199254740991;

/// Whether `n` is a safe integer.
pub open spec fn is_safe_int(n: int) -> bool {
    -SAFE_INT_MAX <= n <= SAFE_INT_MAX
}

/// The operations of the `bin` module.
#[derive(Debug, Clone, Copy, PartialEq, Eq, Structural)]
pub enum BitOp {
    And,
    Or,
    Xor,
    Not,
    ShiftL,
    ShiftR,
}

/// Whether the operation shifts its first operand by its second.
pub open spec fn is_shift(op: BitOp) -> bool {
    op is ShiftL || op is ShiftR
}

/// The `i64` result of an operation; `Not` ignores its second operand, and a
/// shift takes its second operand as the shift amount.
pub open spec fn bit_op_value(op: BitOp, a: i64, b: i64) -> i64 {
    match op {
        BitOp::And => a & b,
        BitOp::Or => a | b,
        BitOp::Xor => a ^ b,
        BitOp::Not => !a,
        BitOp::ShiftL => a << b,
        BitOp::ShiftR => a >> b,
    }
}

/// Whether `n` is a safe integer.
pub fn safe_int(n: i64) -> (r: bool)
    ensures
        r == is_safe_int(n as int),
{
    -SAFE_INT_MAX <= n && n <= SAFE_INT_MAX
}

/// Applies `op` to `a` and `b`: the result when it is a safe integer, else the
/// result as an error.
pub fn apply_bit_op(op: BitOp, a: i64, b: i64) -> (r: Result<i64, i64>)
    requires
        is_shift(op) ==> 0 <= b < 64,
    ensures
        r == (if is_safe_int(bit_op_value(op, a, b) as int) {
            Ok::<i64, i64>(bit_op_value(op, a, b))
        } else {
            Err::<i64, i64>(bit_op_value(op, a, b))
        }),
{
    let v: i64 = match op {
        BitOp::And => a & b,
        BitOp::Or => a | b,
        BitOp::Xor => a ^ b,
        BitOp::Not => !a,
        BitOp::ShiftL => a << b,
        BitOp::ShiftR => a >> b,
    };
    if safe_int(v) {
        Ok(v)
    } else {
        Err(v)
    }
}

/// `bin.or` of two safe integers is always a safe integer.
pub proof fn law_or_stays_safe(a: i64, b: i64)
    requires
        is_safe_int(a as int),
        is_safe_int(b as int),
    ensures
        is_safe_int(bit_op_value(BitOp::Or, a, b) as int),
{
    assert(-9007199254740991i64 <= a <= 9007199254740991i64 && -9007199254740991i64 <= b
        <= 9007199254740991i64 ==> -9007199254740991i64 <= (a | b) <= 9007199254740991i64)
        by (bit_vector);
}

/// `bin.not` undoes itself: applied twice to a safe integer it gives it back
/// when both steps succeed.
pub proof fn law_not_twice(a: i64)
    ensures
        bit_op_value(BitOp::Not, bit_op_value(BitOp::Not, a, 0), 0) == a,
{
    assert(!(!a) == a) by (bit_vector);
}

/// The extension that brings the `bin` module of bitwise operations.
pub struct PlatformExtension;

impl PlatformExtension {
    /// The extension's name.
    pub fn name(&self) -> (r: &'static str)
        ensures
            r@ == "PlatformExtension"@,
    {
        "PlatformExtension"
    }
}

/// The extension that brings the host modules: `host`, `os`, `fs` and `proc`.
pub struct SysExtension;

impl SysExtension {
    /// The extension's name.
    pub fn name(&self) -> (r: &'static str)
        ensures
            r@ == "SysExtension"@,
    {
        "SysExtension"
    }
}

} // verus!
