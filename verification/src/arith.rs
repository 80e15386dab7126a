//! The 64-bit arithmetic shared by the machine and the expression language.
//!
//! Every operation is total: sums, differences and products wrap, division and
//! remainder by zero yield zero, and an address is reduced into range.

use vstd::prelude::*;

verus! {

/// The 64-bit integer that `x` wraps around to: the one congruent to `x` modulo
/// 2 to the power 64.
pub open spec fn wrap(x: int) -> i64 {
    let m = x % 0x1_0000_0000_0000_0000;
    if m > i64::MAX {
        (m - 0x1_0000_0000_0000_0000) as i64
    } else {
        m as i64
    }
}

/// The absolute value.
pub open spec fn magnitude(x: int) -> int {
    if x < 0 {
        -x
    } else {
        x
    }
}

/// The quotient of `a` by `b` rounded toward zero, 0 when `b` is 0. The one
/// quotient too large for 64 bits wraps around.
pub open spec fn quotient(a: i64, b: i64) -> i64 {
    if b == 0 {
        0
    } else {
        let q = magnitude(a as int) / magnitude(b as int);
        wrap(if (a < 0) == (b < 0) {
            q
        } else {
            -q
        })
    }
}

/// The remainder of the division rounded toward zero, which has the sign of
/// `a`; 0 when `b` is 0.
pub open spec fn remainder(a: i64, b: i64) -> i64 {
    if b == 0 {
        0
    } else {
        let r = magnitude(a as int) % magnitude(b as int);
        (if a < 0 {
            -r
        } else {
            r
        }) as i64
    }
}

/// 1 for true, 0 for false.
pub open spec fn truth(b: bool) -> i64 {
    if b {
        1
    } else {
        0
    }
}

/// The cell that `addr` names in a memory of `len` cells: the Euclidean
/// remainder, so negative addresses count back from the end.
pub open spec fn cell(addr: i64, len: nat) -> nat {
    if len == 0 {
        0
    } else {
        (addr as int % len as int) as nat
    }
}

/// The value at index `i`, 0 when out of range.
pub open spec fn value_at(values: Seq<i64>, i: nat) -> i64 {
    if i < values.len() {
        values[i as int]
    } else {
        0
    }
}

/// Wrapping sum.
pub fn sum(a: i64, b: i64) -> (r: i64)
    ensures
        r == wrap(a + b),
{
    a.wrapping_add(b)
}

/// Wrapping difference.
pub fn difference(a: i64, b: i64) -> (r: i64)
    ensures
        r == wrap(a - b),
{
    a.wrapping_sub(b)
}

/// Wrapping product.
pub fn product(a: i64, b: i64) -> (r: i64)
    ensures
        r == wrap(a * b),
{
    a.wrapping_mul(b)
}

/// Wrapping negation.
pub fn negation(a: i64) -> (r: i64)
    ensures
        r == wrap(-a),
{
    0i64.wrapping_sub(a)
}

/// Division rounded toward zero, 0 for a zero divisor.
pub fn divide(a: i64, b: i64) -> (r: i64)
    ensures
        r == quotient(a, b),
{
    if b == 0 {
        return 0;
    }
    proof {
        lemma_quotient_bounds(a as int, b as int);
    }
    match a.checked_div(b) {
        Some(q) => q,
        None => {
            i64::MIN
        },
    }
}

/// Remainder with the sign of the dividend, 0 for a zero divisor.
pub fn modulo(a: i64, b: i64) -> (r: i64)
    ensures
        r == remainder(a, b),
{
    if b == 0 {
        return 0;
    }
    proof {
        lemma_quotient_bounds(a as int, b as int);
    }
    match a.checked_rem(b) {
        Some(r) => r,
        None => 0,
    }
}

/// The quotient and the remainder of the magnitudes stay within the dividend's
/// magnitude.
proof fn lemma_quotient_bounds(a: int, b: int)
    requires
        b != 0,
    ensures
        0 <= magnitude(a) / magnitude(b) <= magnitude(a),
        0 <= magnitude(a) % magnitude(b) < magnitude(b),
        magnitude(a) % magnitude(b) <= magnitude(a),
        a != 0 && magnitude(b) > 1 ==> magnitude(a) / magnitude(b) < magnitude(a),
        magnitude(b) == 1 ==> magnitude(a) / magnitude(b) == magnitude(a),
        magnitude(b) == 1 ==> magnitude(a) % magnitude(b) == 0,
{
    let x = magnitude(a);
    let y = magnitude(b);
    vstd::arithmetic::div_mod::lemma_div_is_ordered_by_denominator(x, 1, y);
    vstd::arithmetic::div_mod::lemma_mod_decreases(x as nat, y as nat);
    if a != 0 && y > 1 {
        vstd::arithmetic::div_mod::lemma_div_decreases(x, y);
    }
}

/// Reduce an address into range.
pub fn cell_index(addr: i64, len: usize) -> (r: usize)
    ensures
        r == cell(addr, len as nat),
        len > 0 ==> r < len,
{
    if len == 0 {
        return 0;
    }
    if addr >= 0 {
        (addr as u64 % len as u64) as usize
    } else {
        let k: u64 = (-(addr + 1)) as u64;
        let m: u64 = k % len as u64;
        proof {
            let n = len as int;
            vstd::arithmetic::div_mod::lemma_fundamental_div_mod(k as int, n);
            let q = k as int / n;
            assert(n * (-(q + 1)) == -(n * q) - n) by (nonlinear_arith);
            assert((-(q + 1)) * n == n * (-(q + 1))) by (nonlinear_arith);
            vstd::arithmetic::div_mod::lemma_fundamental_div_mod_converse(
                addr as int,
                n,
                -(q + 1),
                n - 1 - m,
            );
        }
        len - 1 - m as usize
    }
}

/// The value at index `i`, 0 when out of range.
pub fn read(values: &[i64], i: usize) -> (r: i64)
    ensures
        r == value_at(values@, i as nat),
{
    if i < values.len() {
        values[i]
    } else {
        0
    }
}

/// 1 for true, 0 for false.
pub fn truth_value(b: bool) -> (r: i64)
    ensures
        r == truth(b),
{
    if b {
        1
    } else {
        0
    }
}

} // verus!
