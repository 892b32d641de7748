//! Integer helpers the rasterizer's arithmetic rests on: an integer square
//! root, floor division and wrapping for fixed-point values, and the bounds
//! of the `x * t / d` scaling pattern that alpha blending and coverage
//! computations use throughout.

use vstd::prelude::*;

verus! {

use vstd::arithmetic::div_mod::{
    lemma_div_is_ordered,
    lemma_div_multiples_vanish,
    lemma_div_of0,
    lemma_div_nonincreasing,
    lemma_div_pos_is_pos,
    lemma_fundamental_div_mod,
    lemma_fundamental_div_mod_converse,
};
use vstd::arithmetic::mul::{lemma_mul_inequality, lemma_mul_nonnegative};

/// Scaling a non-negative value by `t/d` with `t <= d` keeps it between
/// zero and the value itself.
pub proof fn lemma_scale_le(x: int, t: int, d: int)
    requires
        0 <= x,
        0 <= t <= d,
        0 < d,
    ensures
        0 <= x * t / d <= x,
{
    lemma_mul_nonnegative(x, t);
    lemma_div_pos_is_pos(x * t, d);
    lemma_mul_inequality(t, d, x);
    assert(t * x == x * t) by (nonlinear_arith);
    assert(d * x == x * d) by (nonlinear_arith);
    lemma_div_is_ordered(x * t, x * d, d);
    lemma_div_multiples_vanish(x, d);
}

/// Scaling by `255/255` is the identity.
pub proof fn lemma_scale_full(x: int)
    ensures
        x * 255 / 255 == x,
{
    lemma_div_multiples_vanish(x, 255);
    assert(255 * x == x * 255) by (nonlinear_arith);
}

/// Bounds of a product of bounded non-negative factors.
pub proof fn lemma_mul_le(a: int, b: int, c: int, d: int)
    requires
        0 <= a <= c,
        0 <= b <= d,
    ensures
        0 <= a * b <= c * d,
{
    assert(0 <= a * b <= c * d) by (nonlinear_arith)
        requires
            0 <= a <= c,
            0 <= b <= d;
}

/// The floor of `n`'s square root: the largest `r` with `r * r <= n`.
pub open spec fn sqrt_i(n: int) -> int
    decreases n,
{
    if n < 1 {
        0
    } else {
        let s = sqrt_i(n - 1);
        if (s + 1) * (s + 1) <= n {
            s + 1
        } else {
            s
        }
    }
}

/// `sqrt_i` is characterized by `r * r <= n < (r + 1) * (r + 1)`.
pub proof fn lemma_sqrt_i(n: int)
    requires
        0 <= n,
    ensures
        sqrt_i(n) * sqrt_i(n) <= n,
        n < (sqrt_i(n) + 1) * (sqrt_i(n) + 1),
        0 <= sqrt_i(n),
    decreases n,
{
    if n >= 1 {
        lemma_sqrt_i(n - 1);
        let s = sqrt_i(n - 1);
        assert(s * s <= s * s + 2 * s + 1) by (nonlinear_arith)
            requires 0 <= s;
        assert((s + 1) * (s + 1) == s * s + 2 * s + 1) by (nonlinear_arith);
        assert((s + 2) * (s + 2) > (s + 1) * (s + 1)) by (nonlinear_arith)
            requires 0 <= s;
    }
}

/// Any `r` in the characteristic range is `sqrt_i(n)`.
pub proof fn lemma_sqrt_i_unique(n: int, r: int)
    requires
        0 <= n,
        0 <= r,
        r * r <= n,
        n < (r + 1) * (r + 1),
    ensures
        r == sqrt_i(n),
{
    lemma_sqrt_i(n);
    let s = sqrt_i(n);
    if r < s {
        assert((r + 1) * (r + 1) <= s * s) by (nonlinear_arith)
            requires 0 <= r, r < s;
    }
    if s < r {
        assert((s + 1) * (s + 1) <= r * r) by (nonlinear_arith)
            requires 0 <= s, s < r;
    }
}

/// Integer square root, rounded down.
pub fn isqrt(n: u32) -> (r: u32)
    requires
        n <= 0x7fff_ffff,
    ensures
        r == sqrt_i(n as int),
{
    let mut r: u32 = 0;
    while r + 1 <= n / (r + 1)
        invariant
            n <= 0x7fff_ffff,
            r as int * r as int <= n as int,
            r <= n,
        decreases n - r,
    {
        proof {
            let b = r as int + 1;
            let q = n as int / b;
            lemma_fundamental_div_mod(n as int, b);
            assert(b * b <= b * q) by (nonlinear_arith)
                requires
                    0 < b <= q;
            assert(n as int % b >= 0);
            assert(q <= b * q) by (nonlinear_arith)
                requires
                    1 <= b,
                    0 <= q;
        }
        r = r + 1;
    }
    proof {
        let b = r as int + 1;
        let q = n as int / b;
        lemma_fundamental_div_mod(n as int, b);
        assert(n as int % b < b);
        assert(b * q + b <= b * b) by (nonlinear_arith)
            requires
                0 < b,
                q < b;
        lemma_sqrt_i_unique(n as int, r as int);
    }
    r
}

/// Floor division of a possibly negative value by a positive divisor;
/// agrees with the mathematical `/` on `int`.
pub fn div_floor(v: i64, d: i64) -> (r: i64)
    requires
        1 <= d,
        -0x2000_0000_0000_0000 <= v <= 0x2000_0000_0000_0000,
        d <= 0x2000_0000_0000_0000,
    ensures
        r == v as int / d as int,
        0 <= v ==> 0 <= r <= v,
        v <= 0 ==> v <= r <= 0,
{
    if v >= 0 {
        proof {
            lemma_div_pos_is_pos(v as int, d as int);
            lemma_div_nonincreasing(v as int, d as int);
        }
        v / d
    } else {
        let q = (-v) / d;
        let rem = (-v) % d;
        proof {
            lemma_fundamental_div_mod(-v as int, d as int);
            lemma_div_pos_is_pos(-v as int, d as int);
            lemma_div_nonincreasing(-v as int, d as int);
            assert(q as int <= d as int * q as int) by (nonlinear_arith)
                requires
                    0 <= q,
                    1 <= d;
            if rem == 0 {
                assert(v as int == (-q as int) * d as int + 0) by (nonlinear_arith)
                    requires
                        -v as int == d as int * q as int,
                ;
                lemma_fundamental_div_mod_converse(v as int, d as int, -q as int, 0);
            } else {
                assert(v as int == ((-q - 1) as int) * d as int + (d - rem)) by (nonlinear_arith)
                    requires
                        -v as int == d as int * q as int + rem as int;
                lemma_fundamental_div_mod_converse(
                    v as int,
                    d as int,
                    (-q - 1) as int,
                    (d - rem) as int,
                );
            }
        }
        if rem == 0 {
            -q
        } else {
            -q - 1
        }
    }
}

/// One full turn in the fixed-point angle unit the arc and pie
/// rasterizers use: `65536` steps to the circle.
pub const ANGLE_TAU: u32 = 65536;

/// Half a turn.
pub const ANGLE_PI: u32 = 32768;

/// A quarter turn.
pub const ANGLE_PI_2: u32 = 16384;

/// The fixed-point octant arctangent as a function: the exact value
/// [`iatan2_oct`] computes, in `1/65536`-turn units.
pub open spec fn atan2_oct(y: int, x: int) -> int {
    let z = y * 32768 / x;
    let corr = 2847 * z * (32768 - z) / 0x4000_0000;
    let th0 = z / 4 + corr;
    let th1 = if th0 > 8192 {
        8192
    } else {
        th0
    };
    let th2 = if th1 >= 8192 && y < x {
        8191
    } else {
        th1
    };
    if th2 == 0 && y >= 1 {
        1
    } else {
        th2
    }
}

/// The octant arctangent stays within an eighth of a turn, vanishes only
/// on the axis, and reaches the eighth exactly on the diagonal.
pub proof fn lemma_atan2_oct_range(y: int, x: int)
    requires
        0 <= y <= x,
        1 <= x <= 32768,
    ensures
        0 <= atan2_oct(y, x) <= 8192,
        y == 0 ==> atan2_oct(y, x) == 0,
        1 <= y ==> 1 <= atan2_oct(y, x),
        y == x ==> atan2_oct(y, x) == 8192,
        y < x ==> atan2_oct(y, x) <= 8191,
{
    let z = y * 32768 / x;
    lemma_scale_le(32768, y, x);
    assert(y * 32768 == 32768 * y);
    let corr = 2847 * z * (32768 - z) / 0x4000_0000;
    assert(0 <= 2847 * z * (32768 - z)) by (nonlinear_arith)
        requires
            0 <= z <= 32768;
    lemma_div_pos_is_pos(2847 * z * (32768 - z), 0x4000_0000);
    lemma_div_pos_is_pos(z, 4);
    if y == 0 {
        assert(z == 0) by {
            assert(y * 32768 == 0);
            assert(0int / x == 0) by {
                lemma_div_of0(x);
            }
        }
        assert(2847 * 0 * (32768 - 0) == 0) by (nonlinear_arith);
        assert(corr == 0) by {
            lemma_div_of0(0x4000_0000);
        }
        assert(0int / 4 == 0) by {
            lemma_div_of0(4);
        }
    }
    if 1 <= y {
        assert(x * 1 <= y * 32768) by (nonlinear_arith)
            requires
                1 <= y,
                x <= 32768;
        lemma_div_is_ordered(x, y * 32768, x);
        lemma_div_multiples_vanish(1, x);
        assert(x * 1 == x) by (nonlinear_arith);
        assert(1 <= z);
    }
    if y == x {
        lemma_div_multiples_vanish(32768, x);
        assert(x * 32768 == 32768 * x) by (nonlinear_arith);
        assert(z == 32768);
        assert(2847 * 32768 * (32768 - 32768) == 0) by (nonlinear_arith);
        assert(corr == 0) by {
            lemma_div_of0(0x4000_0000);
        }
        assert(32768int / 4 == 8192);
    }
}

/// The arctangent over the whole first quadrant: a quarter turn on the
/// positive y axis, mirrored octants elsewhere.
pub open spec fn atan2_quad(y: int, x: int) -> int {
    if y == 0 {
        0
    } else if x == 0 {
        16384
    } else if y <= x {
        atan2_oct(y, x)
    } else {
        16384 - atan2_oct(x, y)
    }
}

/// The quadrant arctangent stays within a quarter turn and vanishes only
/// on the positive x axis.
pub proof fn lemma_atan2_quad_range(y: int, x: int)
    requires
        0 <= y <= 16384,
        0 <= x <= 16384,
    ensures
        0 <= atan2_quad(y, x) <= 16384,
        y == 0 ==> atan2_quad(y, x) == 0,
        1 <= y ==> 1 <= atan2_quad(y, x),
{
    if y == 0 {
    } else if x == 0 {
    } else if y <= x {
        lemma_atan2_oct_range(y, x);
    } else {
        lemma_atan2_oct_range(x, y);
    }
}

/// The angle of the ray through `(x, y)` within the first octant
/// (`0 <= y <= x`), measured counterclockwise from the positive x axis in
/// `1/65536`-turn units: `0` on the axis, `8192` (an eighth of a turn) on
/// the diagonal, and at least `1` as soon as `y` is positive. A
/// polynomial approximation of the arctangent, monotone enough for pixel
/// gating.
pub fn iatan2_oct(y: u32, x: u32) -> (r: u32)
    requires
        y <= x,
        1 <= x <= 32768,
    ensures
        r == atan2_oct(y as int, x as int),
        r <= 8192,
        y == 0 ==> r == 0,
        1 <= y ==> 1 <= r,
        y == x ==> r == 8192,
        y < x ==> r <= 8191,
{
    let z: u64 = y as u64 * 32768 / x as u64;
    proof {
        lemma_scale_le(32768, y as int, x as int);
        assert(y as int * 32768 == 32768 * y as int);
        if y == x {
            lemma_div_multiples_vanish(32768, x as int);
            assert((x as int * 32768) == (32768 * x as int)) by (nonlinear_arith);
        }
        if 1 <= y {
            assert(x as int * 1 <= y as int * 32768) by (nonlinear_arith)
                requires
                    1 <= y,
                    x as int <= 32768;
            lemma_div_is_ordered(x as int, y as int * 32768, x as int);
            lemma_div_multiples_vanish(1, x as int);
        }
    }
    proof {
        assert(2847 * z as int * (32768 - z as int) <= 2847 * 32768 * 32768 && 0 <= 2847
            * z as int * (32768 - z as int)) by (nonlinear_arith)
            requires
                0 <= z as int <= 32768;
    }
    let corr: u64 = 2847 * z * (32768 - z) / 0x4000_0000;
    let mut th: u64 = z / 4 + corr;
    if th > 8192 {
        th = 8192;
    }
    if th >= 8192 && y < x {
        th = 8191;
    }
    if th == 0 && y >= 1 {
        th = 1;
    }
    proof {
        if y == x {
            assert(z == 32768);
            assert(2847 * z as int * (32768 - z as int) == 0) by (nonlinear_arith)
                requires
                    z == 32768;
        }
    }
    th as u32
}

/// Euclidean remainder of a possibly negative value, for a positive
/// divisor; agrees with the mathematical `%` on `int`.
pub fn rem_euclid_i64(v: i64, d: i64) -> (r: i64)
    requires
        1 <= d,
        -0x2000_0000_0000_0000 <= v <= 0x2000_0000_0000_0000,
        d <= 0x2000_0000_0000_0000,
    ensures
        r == v as int % d as int,
        0 <= r < d,
    {
    if v >= 0 {
        v % d
    } else {
        let rem = (-v) % d;
        let q = (-v) / d;
        proof {
            lemma_fundamental_div_mod(-v as int, d as int);
            if rem == 0 {
                assert(v as int == (-q as int) * d as int + 0) by (nonlinear_arith)
                    requires
                        -v as int == d as int * q as int,
                ;
                lemma_fundamental_div_mod_converse(v as int, d as int, -q as int, 0);
            } else {
                assert(v as int == ((-q - 1) as int) * d as int + (d - rem)) by (nonlinear_arith)
                    requires
                        -v as int == d as int * q as int + rem as int;
                lemma_fundamental_div_mod_converse(
                    v as int,
                    d as int,
                    (-q - 1) as int,
                    (d - rem) as int,
                );
            }
        }
        if rem == 0 {
            0
        } else {
            d - rem
        }
    }
}

} // verus!
