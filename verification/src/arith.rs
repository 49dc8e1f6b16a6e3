use vstd::prelude::*;

use crate::error::{Error, Result};

verus! {

/// Division rounding toward zero (Rust's `/` on integers).
pub open spec fn trunc_div(l: int, r: int) -> int {
    let q = (if l < 0 {
        -l
    } else {
        l
    }) / (if r < 0 {
        -r
    } else {
        r
    });
    if (l < 0) != (r < 0) {
        -q
    } else {
        q
    }
}

/// Remainder of the division rounding toward zero (Rust's `%`): the sign of `l`.
pub open spec fn trunc_rem(l: int, r: int) -> int {
    let m = (if l < 0 {
        -l
    } else {
        l
    }) % (if r < 0 {
        -r
    } else {
        r
    });
    if l < 0 {
        -m
    } else {
        m
    }
}

/// LavaX integer division: an error for a zero divisor, and `i32::MIN / -1`
/// wraps to `i32::MIN`.
pub open spec fn spec_checked_div(lhs: i32, rhs: i32, pc: usize) -> core::result::Result<i32, Error> {
    if rhs == 0 {
        Err(Error::DivisionByZero { pc })
    } else if lhs == i32::MIN && rhs == -1 {
        Ok(i32::MIN)
    } else {
        Ok(trunc_div(lhs as int, rhs as int) as i32)
    }
}

/// LavaX integer remainder: an error for a zero divisor, and `i32::MIN % -1` is 0.
pub open spec fn spec_checked_rem(lhs: i32, rhs: i32, pc: usize) -> core::result::Result<i32, Error> {
    if rhs == 0 {
        Err(Error::DivisionByZero { pc })
    } else if lhs == i32::MIN && rhs == -1 {
        Ok(0)
    } else {
        Ok(trunc_rem(lhs as int, rhs as int) as i32)
    }
}

fn magnitude(v: i32) -> (m: u64)
    ensures
        m == (if v < 0 {
            -v
        } else {
            v as int
        }),
{
    if v < 0 {
        (-(v as i64)) as u64
    } else {
        v as u64
    }
}

fn div_toward_zero(l: i32, r: i32) -> (q: i32)
    requires
        r != 0,
        !(l == i32::MIN && r == -1),
    ensures
        q == trunc_div(l as int, r as int),
{
    let al = magnitude(l);
    let ar = magnitude(r);
    let q = al / ar;
    assert(q <= al) by (nonlinear_arith)
        requires
            ar >= 1,
            q == al / ar,
    ;
    if (l < 0) != (r < 0) {
        (-(q as i64)) as i32
    } else {
        assert(q < 0x8000_0000) by (nonlinear_arith)
            requires
                ar >= 1,
                q == al / ar,
                al <= 0x8000_0000,
                al == 0x8000_0000 ==> ar >= 2,
        ;
        q as i32
    }
}

fn rem_toward_zero(l: i32, r: i32) -> (m: i32)
    requires
        r != 0,
    ensures
        m == trunc_rem(l as int, r as int),
{
    let al = magnitude(l);
    let ar = magnitude(r);
    let m = al % ar;
    assert(m < ar) by (nonlinear_arith)
        requires
            ar >= 1,
            m == al % ar,
    ;
    if l < 0 {
        (-(m as i64)) as i32
    } else {
        m as i32
    }
}

/// Integer division of the LavaX VM.
pub fn checked_div(lhs: i32, rhs: i32, pc: usize) -> (r: Result<i32>)
    ensures
        r == spec_checked_div(lhs, rhs, pc),
{
    if rhs == 0 {
        Err(Error::DivisionByZero { pc })
    } else if lhs == i32::MIN && rhs == -1 {
        Ok(i32::MIN)
    } else {
        Ok(div_toward_zero(lhs, rhs))
    }
}

/// Integer remainder of the LavaX VM.
pub fn checked_rem(lhs: i32, rhs: i32, pc: usize) -> (r: Result<i32>)
    ensures
        r == spec_checked_rem(lhs, rhs, pc),
{
    if rhs == 0 {
        Err(Error::DivisionByZero { pc })
    } else if lhs == i32::MIN && rhs == -1 {
        Ok(0)
    } else {
        Ok(rem_toward_zero(lhs, rhs))
    }
}

/// LavaX booleans: -1 for true, 0 for false.
pub open spec fn spec_bool(b: bool) -> i32 {
    if b {
        -1i32
    } else {
        0i32
    }
}

/// A LavaX boolean.
pub fn bool_value(value: bool) -> (v: i32)
    ensures
        v == spec_bool(value),
{
    if value {
        -1
    } else {
        0
    }
}

/// Wrapping 32-bit unsigned addition.
pub open spec fn wadd_u32(a: u32, b: u32) -> u32 {
    vstd::wrapping::u32_specs::wrapping_add(a, b)
}

/// Wrapping 32-bit signed addition.
pub open spec fn wadd_i32(a: i32, b: i32) -> i32 {
    vstd::wrapping::i32_specs::wrapping_add(a, b)
}

/// Wrapping 32-bit signed subtraction.
pub open spec fn wsub_i32(a: i32, b: i32) -> i32 {
    vstd::wrapping::i32_specs::wrapping_sub(a, b)
}

/// Wrapping 32-bit signed multiplication.
pub open spec fn wmul_i32(a: i32, b: i32) -> i32 {
    vstd::wrapping::i32_specs::wrapping_mul(a, b)
}

/// Wrapping 32-bit signed left shift (shift taken modulo 32).
pub open spec fn wshl_i32(a: i32, s: u32) -> i32 {
    vstd::wrapping::i32_specs::wrapping_shl(a, s)
}

/// Wrapping 32-bit unsigned right shift (shift taken modulo 32).
pub open spec fn wshr_u32(a: u32, s: u32) -> u32 {
    vstd::wrapping::u32_specs::wrapping_shr(a, s)
}

/// Wrapping 64-bit unsigned addition.
pub open spec fn wadd_u64(a: u64, b: u64) -> u64 {
    vstd::wrapping::u64_specs::wrapping_add(a, b)
}

} // verus!
