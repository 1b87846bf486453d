//! Exact comparisons in Z[√2]: the sign of a + b·√2 for integers a, b.
use vstd::prelude::*;

use crate::amplitude::two_pow;

verus! {

/// a + b·√2 < 0. Where a and b differ in sign, the sign follows from
/// comparing a² with 2·b², as √2 is irrational.
pub open spec fn surd_negative(a: int, b: int) -> bool {
    if a <= 0 && b <= 0 {
        a < 0 || b < 0
    } else if a >= 0 && b >= 0 {
        false
    } else if a < 0 {
        a * a > 2 * (b * b)
    } else {
        2 * (b * b) > a * a
    }
}

pub open spec fn wide_value(w: (u128, u128)) -> int {
    w.0 * 0x1_0000_0000_0000_0000_0000_0000_0000_0000 + w.1
}

/// The full product x · y as (high, low) halves of 128 bits each.
fn mul_wide(x: u128, y: u128) -> (r: (u128, u128))
    requires
        x < 0x8000_0000_0000_0000_0000_0000_0000_0000,
        y < 0x8000_0000_0000_0000_0000_0000_0000_0000,
    ensures
        wide_value(r) == x * y,
{
    let base: u128 = 0x1_0000_0000_0000_0000;
    let x0 = x % base;
    let x1 = x / base;
    let y0 = y % base;
    let y1 = y / base;
    proof {
        assert(x0 < base && x1 < 0x8000_0000_0000_0000 && x == x1 * base + x0) by (nonlinear_arith)
            requires
                x0 == x % base,
                x1 == x / base,
                base == 0x1_0000_0000_0000_0000,
                x < 0x8000_0000_0000_0000_0000_0000_0000_0000,
        ;
        assert(y0 < base && y1 < 0x8000_0000_0000_0000 && y == y1 * base + y0) by (nonlinear_arith)
            requires
                y0 == y % base,
                y1 == y / base,
                base == 0x1_0000_0000_0000_0000,
                y < 0x8000_0000_0000_0000_0000_0000_0000_0000,
        ;
        assert(x0 * y0 < base * base && x0 * y1 < base * 0x8000_0000_0000_0000 && x1 * y0 < base
            * 0x8000_0000_0000_0000 && x1 * y1 < 0x8000_0000_0000_0000 * 0x8000_0000_0000_0000)
            by (nonlinear_arith)
            requires
                x0 < base,
                y0 < base,
                x1 < 0x8000_0000_0000_0000,
                y1 < 0x8000_0000_0000_0000,
        ;
    }
    let p00 = x0 * y0;
    let p01 = x0 * y1;
    let p10 = x1 * y0;
    let p11 = x1 * y1;
    let mid = p01 + p10;
    let t = p00 / base + mid % base;
    let lo = (t % base) * base + p00 % base;
    let hi = p11 + mid / base + t / base;
    proof {
        assert(wide_value((hi, lo)) == x * y) by (nonlinear_arith)
            requires
                base == 0x1_0000_0000_0000_0000,
                x == x1 * base + x0,
                y == y1 * base + y0,
                p00 == x0 * y0,
                p01 == x0 * y1,
                p10 == x1 * y0,
                p11 == x1 * y1,
                mid == p01 + p10,
                p00 == (p00 / base) * base + p00 % base,
                mid == (mid / base) * base + mid % base,
                t == p00 / base + mid % base,
                t == (t / base) * base + t % base,
                lo == (t % base) * base + p00 % base,
                hi == p11 + mid / base + t / base,
        ;
    }
    (hi, lo)
}

/// Whether one wide value is below another.
fn wide_less(a: (u128, u128), b: (u128, u128)) -> (r: bool)
    ensures
        r == (wide_value(a) < wide_value(b)),
{
    proof {
        let (a1, a0) = a;
        let (b1, b0) = b;
        assert((wide_value(a) < wide_value(b)) == (a1 < b1 || (a1 == b1 && a0 < b0))) by (nonlinear_arith)
            requires
                wide_value(a) == a1 * 0x1_0000_0000_0000_0000_0000_0000_0000_0000 + a0,
                wide_value(b) == b1 * 0x1_0000_0000_0000_0000_0000_0000_0000_0000 + b0,
                0 <= a0 < 0x1_0000_0000_0000_0000_0000_0000_0000_0000,
                0 <= b0 < 0x1_0000_0000_0000_0000_0000_0000_0000_0000,
                a1 >= 0,
                b1 >= 0,
        ;
    }
    a.0 < b.0 || (a.0 == b.0 && a.1 < b.1)
}

/// Whether a + b·√2 < 0.
pub fn is_surd_negative(a: i128, b: i128) -> (r: bool)
    requires
        -0x4000_0000_0000_0000_0000_0000_0000_0000 < a < 0x4000_0000_0000_0000_0000_0000_0000_0000,
        -0x4000_0000_0000_0000_0000_0000_0000_0000 < b < 0x4000_0000_0000_0000_0000_0000_0000_0000,
    ensures
        r == surd_negative(a as int, b as int),
{
    if a <= 0 && b <= 0 {
        a < 0 || b < 0
    } else if a >= 0 && b >= 0 {
        false
    } else {
        let ua: u128 = if a < 0 { (-a) as u128 } else { a as u128 };
        let ub: u128 = if b < 0 { (-b) as u128 } else { b as u128 };
        let sq_a = mul_wide(ua, ua);
        let sq_b2 = mul_wide(ub, 2 * ub);
        proof {
            let ai = a as int;
            let bi = b as int;
            assert(ua * ua == ai * ai && ub * (2 * ub) == 2 * (bi * bi)) by (nonlinear_arith)
                requires
                    ua == if ai < 0 { -ai } else { ai },
                    ub == if bi < 0 { -bi } else { bi },
            ;
        }
        if a < 0 {
            wide_less(sq_b2, sq_a)
        } else {
            wide_less(sq_a, sq_b2)
        }
    }
}

/// 2^k for k ≤ 124.
pub fn pow2(k: u32) -> (r: i128)
    requires
        k <= 124,
    ensures
        r == two_pow(k as nat),
        1 <= r <= 0x1000_0000_0000_0000_0000_0000_0000_0000,
{
    let mut r: i128 = 1;
    let mut i: u32 = 0;
    proof {
        reveal_with_fuel(two_pow, 1);
    }
    while i < k
        invariant
            i <= k <= 124,
            r == two_pow(i as nat),
        decreases k - i,
    {
        proof {
            reveal_with_fuel(two_pow, 2);
            crate::conservation::lemma_two_pow_124((i + 1) as nat);
        }
        r = r * 2;
        i = i + 1;
    }
    proof {
        crate::conservation::lemma_two_pow_124(k as nat);
        crate::amplitude::lemma_two_pow_pos(k as nat);
    }
    r
}

} // verus!
