//! The Euclidean and extended Euclidean algorithms.

use vstd::prelude::*;
use vstd::math::abs;
use vstd::arithmetic::div_mod::{lemma_fundamental_div_mod, lemma_mod_bound};

verus! {

/// The greatest common divisor of two non-negative integers, by
/// Euclid's recurrence; `gcd_int(a, 0) == a`.
pub open spec fn gcd_int(a: int, b: int) -> int
    recommends
        a >= 0,
        b >= 0,
    decreases b when b >= 0
{
    if b <= 0 {
        a
    } else {
        gcd_int(b, a % b)
    }
}

/// Calculates the greatest common divisor of the magnitudes of `a`
/// and `b`.
///
/// Time complexity: O(log(min(a, b))).
pub fn gcd(a: i32, b: i32) -> (r: i32)
    requires
        gcd_int(abs(a as int) as int, abs(b as int) as int) <= i32::MAX as int,
    ensures
        r as int == gcd_int(abs(a as int) as int, abs(b as int) as int),
        r >= 0,
{
    let mut x: u64 = if a >= 0 {
        a as u64
    } else {
        (-(a as i64)) as u64
    };
    let mut y: u64 = if b >= 0 {
        b as u64
    } else {
        (-(b as i64)) as u64
    };
    while y != 0
        invariant
            gcd_int(x as int, y as int) == gcd_int(abs(a as int) as int, abs(b as int) as int),
        decreases y,
    {
        let t = x % y;
        x = y;
        y = t;
    }
    x as i32
}

/// Calculates the result of the extended Euclidean algorithm.
///
/// Returns `(d, x, y)` with `a*x + b*y == d` and `d` the greatest
/// common divisor of the magnitudes of `a` and `b`.
pub fn gcd_extended(a: i32, b: i32) -> (r: (i32, i32, i32))
    requires
        a != i32::MIN,
        b != i32::MIN,
    ensures
        r.0 as int == gcd_int(abs(a as int) as int, abs(b as int) as int),
        a as int * r.1 as int + b as int * r.2 as int == r.0 as int,
        r.0 >= 0,
{
    let ua: i64 = if a >= 0 {
        a as i64
    } else {
        -(a as i64)
    };
    let ub: i64 = if b >= 0 {
        b as i64
    } else {
        -(b as i64)
    };
    let ghost bx: int = if ub as int > 0 {
        ub as int
    } else {
        1
    };
    let ghost by: int = if ua as int > 0 {
        ua as int
    } else {
        1
    };
    let mut d: i64 = ua;
    let mut d2: i64 = ub;
    let mut x: i64 = 1;
    let mut x2: i64 = 0;
    let mut y: i64 = 0;
    let mut y2: i64 = 1;
    while d2 != 0
        invariant
            0 <= ua <= 0x7fff_ffff,
            0 <= ub <= 0x7fff_ffff,
            bx == (if ub as int > 0 { ub as int } else { 1 }),
            by == (if ua as int > 0 { ua as int } else { 1 }),
            0 <= d <= 0x7fff_ffff,
            0 <= d2 <= 0x7fff_ffff,
            ub == 0 ==> d2 == 0,
            ua * x + ub * y == d,
            ua * x2 + ub * y2 == d2,
            x * x2 <= 0,
            y * y2 <= 0,
            abs(x as int) * d2 + abs(x2 as int) * d == ub,
            abs(y as int) * d2 + abs(y2 as int) * d == ua,
            abs(x as int) <= bx,
            abs(x2 as int) <= bx,
            abs(y as int) <= by,
            abs(y2 as int) <= by,
            gcd_int(d as int, d2 as int) == gcd_int(ua as int, ub as int),
        decreases d2,
    {
        let q: i64 = ((d as u64) / (d2 as u64)) as i64;
        let rem: i64 = ((d as u64) % (d2 as u64)) as i64;
        proof {
            lemma_fundamental_div_mod(d as int, d2 as int);
            lemma_mod_bound(d as int, d2 as int);
            assert(q >= 0);
            assert(q * d2 <= d && q * d2 >= 0) by (nonlinear_arith)
                requires
                    d == d2 * q + rem,
                    0 <= rem < d2,
                    q >= 0,
                    d2 >= 1,
            ;
            assert(q <= d) by (nonlinear_arith)
                requires
                    q * d2 <= d,
                    q >= 0,
                    d2 >= 1,
            ;
            // The products stay far inside the i64 range.
            assert(-0x4000_0000_0000_0000 <= q * x2 <= 0x4000_0000_0000_0000) by (nonlinear_arith)
                requires
                    0 <= q <= 0x7fff_ffff,
                    -0x7fff_ffff <= x2 <= 0x7fff_ffff,
            ;
            assert(-0x4000_0000_0000_0000 <= q * y2 <= 0x4000_0000_0000_0000) by (nonlinear_arith)
                requires
                    0 <= q <= 0x7fff_ffff,
                    -0x7fff_ffff <= y2 <= 0x7fff_ffff,
            ;
            assert(abs(x as int) <= 0x7fff_ffff && abs(x2 as int) <= 0x7fff_ffff && abs(
                y as int,
            ) <= 0x7fff_ffff && abs(y2 as int) <= 0x7fff_ffff);
        }
        let nx: i64 = x - q * x2;
        let ny: i64 = y - q * y2;
        proof {
            // Bezout forms are preserved.
            assert(ua * nx + ub * ny == d - q * d2) by (nonlinear_arith)
                requires
                    nx == x - q * x2,
                    ny == y - q * y2,
                    ua * x + ub * y == d,
                    ua * x2 + ub * y2 == d2,
            ;
            // The new coefficient's magnitude adds up exactly.
            assert(abs(nx as int) == abs(x as int) + q * abs(x2 as int) && nx * x2 <= 0)
                by (nonlinear_arith)
                requires
                    nx == x - q * x2,
                    x * x2 <= 0,
                    q >= 0,
            ;
            assert(abs(ny as int) == abs(y as int) + q * abs(y2 as int) && ny * y2 <= 0)
                by (nonlinear_arith)
                requires
                    ny == y - q * y2,
                    y * y2 <= 0,
                    q >= 0,
            ;
            // The weighted magnitude identity is preserved.
            assert(abs(x2 as int) * rem + abs(nx as int) * d2 == ub) by (nonlinear_arith)
                requires
                    abs(x as int) * d2 + abs(x2 as int) * d == ub,
                    abs(nx as int) == abs(x as int) + q * abs(x2 as int),
                    rem == d - q * d2,
            ;
            assert(abs(y2 as int) * rem + abs(ny as int) * d2 == ua) by (nonlinear_arith)
                requires
                    abs(y as int) * d2 + abs(y2 as int) * d == ua,
                    abs(ny as int) == abs(y as int) + q * abs(y2 as int),
                    rem == d - q * d2,
            ;
            // And it bounds the new coefficients.
            assert(abs(nx as int) <= ub) by (nonlinear_arith)
                requires
                    abs(x2 as int) * rem + abs(nx as int) * d2 == ub,
                    rem >= 0,
                    abs(x2 as int) >= 0,
                    d2 >= 1,
            ;
            assert(abs(ny as int) <= ua) by (nonlinear_arith)
                requires
                    abs(y2 as int) * rem + abs(ny as int) * d2 == ua,
                    rem >= 0,
                    abs(y2 as int) >= 0,
                    d2 >= 1,
            ;
            assert(gcd_int(d2 as int, rem as int) == gcd_int(d as int, d2 as int));
        }
        d = d2;
        d2 = rem;
        x = x2;
        x2 = nx;
        y = y2;
        y2 = ny;
    }
    proof {
        assert(gcd_int(d as int, 0) == d as int);
        assert(abs(a as int) == ua && abs(b as int) == ub);
    }
    let xr: i64 = if a < 0 {
        -x
    } else {
        x
    };
    let yr: i64 = if b < 0 {
        -y
    } else {
        y
    };
    proof {
        assert(a as int * xr as int == ua * x && b as int * yr as int == ub * y)
            by (nonlinear_arith)
            requires
                xr as int == (if a < 0 { -(x as int) } else { x as int }),
                yr as int == (if b < 0 { -(y as int) } else { y as int }),
                ua as int == (if a < 0 { -(a as int) } else { a as int }),
                ub as int == (if b < 0 { -(b as int) } else { b as int }),
        ;
    }
    (d as i32, xr as i32, yr as i32)
}

} // verus!
