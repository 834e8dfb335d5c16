//! The fixed-point number model every coordinate in this crate lives in.
//!
//! A plane-space scalar is stored as an `i64` counting 1/`SCALE`-ths of a
//! unit, so `SCALE` itself stands for 1.0.  Products of two such scalars
//! are taken in `i128` and divided back down by `SCALE`; all division is
//! the machine's own, truncated toward zero, and `div_trunc` is its exact
//! mathematical model.

use vstd::prelude::*;

verus! {

use vstd::arithmetic::div_mod::lemma_fundamental_div_mod;
use vstd::arithmetic::div_mod::lemma_div_multiples_vanish;
use vstd::arithmetic::div_mod::lemma_div_pos_is_pos;
use vstd::arithmetic::div_mod::lemma_mod_bound;

/// One plane-space unit: every coordinate, zoom extent, bailout threshold
/// and progress value is an integer count of 1/`SCALE`-ths.
pub const SCALE: i64 = 0x1_0000_0000;

/// Magnitude bound on the fixed-point scalars fed into the coordinate
/// mapping; keeps every product of two scalars, and sums of three such
/// products, inside `i128`.
pub const COORD_BOUND: i64 = 0x100_0000_0000_0000;

pub open spec fn abs_int(a: int) -> int {
    if a >= 0 {
        a
    } else {
        -a
    }
}

/// Division truncated toward zero: the value of `/` on the machine's
/// signed integers.
pub open spec fn div_trunc(a: int, b: int) -> int {
    if (a >= 0) == (b >= 0) {
        abs_int(a) / abs_int(b)
    } else {
        -(abs_int(a) / abs_int(b))
    }
}

/// `a / b` on `i128` for a positive divisor, pinned to its mathematical
/// model.
pub fn div_i128(a: i128, b: i128) -> (r: i128)
    requires
        b > 0,
    ensures
        r == div_trunc(a as int, b as int),
{
    a / b
}

/// For a positive divisor the truncated quotient `q` leaves a remainder
/// of magnitude under `d`, on the side of zero: `q*d` never overshoots `a`.
pub proof fn lemma_div_trunc_fundamental(a: int, d: int)
    requires
        d > 0,
    ensures
        a >= 0 ==> div_trunc(a, d) * d <= a < div_trunc(a, d) * d + d,
        a < 0 ==> div_trunc(a, d) * d - d < a <= div_trunc(a, d) * d,
        abs_int(div_trunc(a, d) * d) <= abs_int(a),
{
    if a >= 0 {
        let q = a / d;
        assert(div_trunc(a, d) == q);
        lemma_fundamental_div_mod(a, d);
        lemma_mod_bound(a, d);
        assert(a == d * q + a % d);
        assert(d * q == q * d) by (nonlinear_arith);
        lemma_div_pos_is_pos(a, d);
        assert(q * d >= 0) by (nonlinear_arith)
            requires
                q >= 0,
                d > 0,
        ;
    } else {
        let q = (-a) / d;
        assert(div_trunc(a, d) == -q);
        lemma_fundamental_div_mod(-a, d);
        lemma_mod_bound(-a, d);
        assert(-a == d * q + (-a) % d);
        assert((-q) * d == -(d * q)) by (nonlinear_arith);
        lemma_div_pos_is_pos(-a, d);
        assert(q * d >= 0) by (nonlinear_arith)
            requires
                q >= 0,
                d > 0,
        ;
    }
}

/// Dividing an exact multiple recovers the factor.
pub proof fn lemma_div_trunc_multiple(k: int, b: int)
    requires
        b != 0,
    ensures
        div_trunc(k * b, b) == k,
{
    let a = k * b;
    if b > 0 {
        if k >= 0 {
            assert(a >= 0) by (nonlinear_arith)
                requires
                    a == k * b,
                    k >= 0,
                    b > 0,
            ;
            assert(div_trunc(a, b) == a / b);
            lemma_div_multiples_vanish(k, b);
            assert(b * k == a) by (nonlinear_arith)
                requires
                    a == k * b,
            ;
        } else {
            assert(a < 0) by (nonlinear_arith)
                requires
                    a == k * b,
                    k < 0,
                    b > 0,
            ;
            assert(div_trunc(a, b) == -((-a) / b));
            lemma_div_multiples_vanish(-k, b);
            assert(b * (-k) == -a) by (nonlinear_arith)
                requires
                    a == k * b,
            ;
        }
    } else {
        if k >= 0 {
            assert(a <= 0) by (nonlinear_arith)
                requires
                    a == k * b,
                    k >= 0,
                    b < 0,
            ;
            if a == 0 {
                assert(k == 0) by (nonlinear_arith)
                    requires
                        a == k * b,
                        b != 0,
                        a == 0,
                ;
                assert(div_trunc(a, b) == -(0int / abs_int(b)));
                lemma_div_pos_is_pos(0, -b);
                assert(0int / (-b) == 0) by {
                    lemma_div_multiples_vanish(0, -b);
                    assert((-b) * 0 == 0) by (nonlinear_arith);
                }
            } else {
                assert(div_trunc(a, b) == (-a) / (-b));
                lemma_div_multiples_vanish(k, -b);
                assert((-b) * k == -a) by (nonlinear_arith)
                    requires
                        a == k * b,
                ;
            }
        } else {
            assert(a > 0) by (nonlinear_arith)
                requires
                    a == k * b,
                    k < 0,
                    b < 0,
            ;
            assert(div_trunc(a, b) == -(a / (-b)));
            lemma_div_multiples_vanish(-k, -b);
            assert((-b) * (-k) == a) by (nonlinear_arith)
                requires
                    a == k * b,
            ;
        }
    }
}

/// The floor of the square root of a non-negative value.
pub open spec fn sqrt_floor(x: int) -> int {
    choose|r: int| r >= 0 && #[trigger] (r * r) <= x && x < (r + 1) * (r + 1)
}

/// The floor of the cube root of a non-negative value.
pub open spec fn cbrt_floor(x: int) -> int {
    choose|r: int| r >= 0 && #[trigger] (r * r * r) <= x && x < (r + 1) * (r + 1) * (r + 1)
}

/// A witness pins `sqrt_floor` down.
pub proof fn lemma_sqrt_floor_of(x: int, r: int)
    requires
        r >= 0,
        r * r <= x,
        x < (r + 1) * (r + 1),
    ensures
        sqrt_floor(x) == r,
{
    assert(r >= 0 && r * r <= x && x < (r + 1) * (r + 1));
    let w = sqrt_floor(x);
    assert(w >= 0 && w * w <= x && x < (w + 1) * (w + 1));
    assert(w == r) by (nonlinear_arith)
        requires
            r >= 0 && r * r <= x && x < (r + 1) * (r + 1),
            w >= 0 && w * w <= x && x < (w + 1) * (w + 1),
    ;
}

/// A witness pins `cbrt_floor` down.
pub proof fn lemma_cbrt_floor_of(x: int, r: int)
    requires
        r >= 0,
        r * r * r <= x,
        x < (r + 1) * (r + 1) * (r + 1),
    ensures
        cbrt_floor(x) == r,
{
    assert(r >= 0 && r * r * r <= x && x < (r + 1) * (r + 1) * (r + 1));
    let w = cbrt_floor(x);
    assert(w >= 0 && w * w * w <= x && x < (w + 1) * (w + 1) * (w + 1));
    assert(w == r) by (nonlinear_arith)
        requires
            r >= 0 && r * r * r <= x && x < (r + 1) * (r + 1) * (r + 1),
            w >= 0 && w * w * w <= x && x < (w + 1) * (w + 1) * (w + 1),
    ;
}

/// The integer square root, by bisection.
pub fn isqrt(x: i128) -> (r: i64)
    requires
        0 <= x < 0x1_0000_0000_0000_0000_0000_0000,
    ensures
        0 <= r,
        r as int == sqrt_floor(x as int),
        (r as int) * (r as int) <= x,
        x < (r as int + 1) * (r as int + 1),
{
    let mut lo: i128 = 0;
    let mut hi: i128 = 0x1_0000_0000_0000;
    proof {
        assert(0x1_0000_0000_0000i128 * 0x1_0000_0000_0000i128
            == 0x1_0000_0000_0000_0000_0000_0000) by (nonlinear_arith);
    }
    while lo + 1 < hi
        invariant
            0 <= lo < hi <= 0x1_0000_0000_0000,
            lo * lo <= x,
            x < hi * hi,
        decreases hi - lo,
    {
        let mid = lo + (hi - lo) / 2;
        proof {
            assert(lo < mid < hi);
            assert(mid * mid <= 0x1_0000_0000_0000_0000_0000_0000) by (nonlinear_arith)
                requires
                    0 <= mid <= 0x1_0000_0000_0000,
            ;
        }
        if mid * mid <= x {
            lo = mid;
        } else {
            hi = mid;
        }
    }
    proof {
        assert((lo as int + 1) * (lo as int + 1) == (lo + 1) as int * (lo + 1) as int);
        lemma_sqrt_floor_of(x as int, lo as int);
    }
    lo as i64
}

/// The integer cube root, by bisection.
pub fn icbrt(x: i128) -> (r: i64)
    requires
        0 <= x <= 0x1_0000_0000_0000_0000_0000_0000,
    ensures
        0 <= r,
        r as int == cbrt_floor(x as int),
        (r as int) * (r as int) * (r as int) <= x,
        x < (r as int + 1) * (r as int + 1) * (r as int + 1),
{
    let mut lo: i128 = 0;
    let mut hi: i128 = 0x2_0000_0000;
    proof {
        assert(0x2_0000_0000i128 * 0x2_0000_0000i128 * 0x2_0000_0000i128
            == 0x8_0000_0000_0000_0000_0000_0000) by (nonlinear_arith);
    }
    while lo + 1 < hi
        invariant
            0 <= lo < hi <= 0x2_0000_0000,
            lo * lo * lo <= x,
            x < hi * hi * hi,
        decreases hi - lo,
    {
        let mid = lo + (hi - lo) / 2;
        proof {
            assert(lo < mid < hi);
            assert(0 <= mid * mid <= 0x4_0000_0000_0000_0000) by (nonlinear_arith)
                requires
                    0 <= mid <= 0x2_0000_0000,
            ;
            assert(0 <= mid * mid * mid <= 0x8_0000_0000_0000_0000_0000_0000)
                by (nonlinear_arith)
                requires
                    0 <= mid <= 0x2_0000_0000,
            ;
        }
        if mid * mid * mid <= x {
            lo = mid;
        } else {
            hi = mid;
        }
    }
    proof {
        lemma_cbrt_floor_of(x as int, lo as int);
    }
    lo as i64
}

/// `t^e` in fixed point, truncating after each factor.
pub open spec fn pow_fixed(t: int, e: nat) -> int
    decreases e,
{
    if e == 0 {
        SCALE as int
    } else {
        div_trunc(t * pow_fixed(t, (e - 1) as nat), SCALE as int)
    }
}

/// `pow_fixed` keeps values of `[0, SCALE]` inside `[0, SCALE]`.
pub proof fn lemma_pow_fixed_range(t: int, e: nat)
    requires
        0 <= t <= SCALE,
    ensures
        0 <= pow_fixed(t, e) <= SCALE,
    decreases e,
{
    if e > 0 {
        lemma_pow_fixed_range(t, (e - 1) as nat);
        let p = pow_fixed(t, (e - 1) as nat);
        assert(0 * (SCALE as int) <= t * p <= SCALE as int * (SCALE as int)) by (nonlinear_arith)
            requires
                0 <= t <= SCALE as int,
                0 <= p <= SCALE as int,
        ;
        lemma_div_trunc_bounds(t * p, SCALE as int, 0, SCALE as int);
    }
}

/// Executable `t^e` in fixed point.
pub fn pow_fixed_exec(t: i64, e: u32) -> (r: i64)
    requires
        0 <= t <= SCALE,
    ensures
        r == pow_fixed(t as int, e as nat),
        0 <= r <= SCALE,
{
    let mut acc: i64 = SCALE;
    let mut i: u32 = 0;
    while i < e
        invariant
            0 <= t <= SCALE,
            i <= e,
            acc == pow_fixed(t as int, i as nat),
            0 <= acc <= SCALE,
        decreases e - i,
    {
        proof {
            assert(0 * (SCALE as int) <= (t as int) * (acc as int) <= SCALE as int * (
            SCALE as int)) by (nonlinear_arith)
                requires
                    0 <= t as int <= SCALE as int,
                    0 <= acc as int <= SCALE as int,
            ;
            lemma_div_trunc_bounds((t as int) * (acc as int), SCALE as int, 0, SCALE as int);
        }
        acc = div_i128((t as i128) * (acc as i128), SCALE as i128) as i64;
        i = i + 1;
    }
    proof {
        lemma_pow_fixed_range(t as int, e as nat);
    }
    acc
}

/// Halves `y` until it is below 2^32, counting the halvings.
pub open spec fn log2_norm_down(y: int, k: int) -> (int, int)
    decreases y,
{
    if y >= 0x1_0000_0000 {
        log2_norm_down(y / 2, k + 1)
    } else {
        (y, k)
    }
}

/// Extracts `i` fractional bits of the base-2 logarithm of a mantissa in
/// `[2^31, 2^32)` by repeated squaring.
pub open spec fn log2_frac_steps(y: int, i: nat, f: int) -> int
    decreases i,
{
    if i == 0 {
        f
    } else {
        let y2 = (y * y) / 0x8000_0000;
        if y2 >= 0x1_0000_0000 {
            log2_frac_steps(y2 / 2, (i - 1) as nat, 2 * f + 1)
        } else {
            log2_frac_steps(y2, (i - 1) as nat, 2 * f)
        }
    }
}

/// The fixed-point base-2 logarithm of a positive integer, with 16
/// fractional bits of precision: pre-scale small inputs by 2^31, halve
/// down to a 32-bit mantissa, then square out the fraction.
pub open spec fn log2_fixed_spec(x: int) -> int {
    let y0 = if x >= 0x1_0000_0000 {
        x
    } else {
        x * 0x8000_0000
    };
    let k0: int = if x >= 0x1_0000_0000 {
        0
    } else {
        -31
    };
    let nk = log2_norm_down(y0, k0);
    (nk.1 * 0x1_0000 + log2_frac_steps(nk.0, 16, 0)) * 0x1_0000
}

/// Executable fixed-point base-2 logarithm, pinned to its model.
pub fn log2_fixed(x: i128) -> (r: i64)
    requires
        1 <= x < 0x8000_0000_0000_0000_0000_0000_0000_0000,
    ensures
        r == log2_fixed_spec(x as int),
        -0x20_0000_0000 <= r <= 0x80_0000_0000,
{
    let ghost x0 = x as int;
    let mut y: i128 = if x >= 0x1_0000_0000 {
        x
    } else {
        x * 0x8000_0000
    };
    let mut k: i64 = if x >= 0x1_0000_0000 {
        0
    } else {
        -31
    };
    let ghost y0 = y as int;
    let ghost k0 = k as int;
    let ghost mut j: nat = 0;
    proof {
        vstd::arithmetic::power2::lemma2_to64();
        assert(0x8000_0000 <= y0) by (nonlinear_arith)
            requires
                1 <= x0,
                y0 == if x0 >= 0x1_0000_0000 {
                    x0
                } else {
                    x0 * 0x8000_0000
                },
        ;
        assert(y0 < 0x8000_0000_0000_0000_0000_0000_0000_0000) by (nonlinear_arith)
            requires
                x0 < 0x8000_0000_0000_0000_0000_0000_0000_0000,
                y0 == if x0 >= 0x1_0000_0000 {
                    x0
                } else {
                    x0 * 0x8000_0000
                },
        ;
        assert(vstd::arithmetic::power2::pow2(0) * y0 <= y0);
    }
    while y >= 0x1_0000_0000
        invariant
            0x8000_0000 <= y,
            y <= y0 < 0x8000_0000_0000_0000_0000_0000_0000_0000,
            k == k0 + j,
            -31 <= k0 <= 0,
            vstd::arithmetic::power2::pow2(j) * y <= y0,
            j <= 97,
            log2_norm_down(y as int, k as int) == log2_norm_down(y0, k0),
        decreases y,
    {
        proof {
            vstd::arithmetic::power2::lemma2_to64();
            let p = vstd::arithmetic::power2::pow2(j);
            vstd::arithmetic::power2::lemma_pow2_pos(j);
            // with y still at 2^32 or more the halving count stays under 96
            assert(p * 0x1_0000_0000 <= p * y) by (nonlinear_arith)
                requires
                    p >= 1,
                    y as int >= 0x1_0000_0000,
            ;
            if j >= 96 {
                vstd::arithmetic::power2::lemma2_to64();
                vstd::arithmetic::power2::lemma_pow2_adds(64, 32);
                vstd::arithmetic::power2::lemma_pow2_adds(96, 32);
                if j > 96 {
                    vstd::arithmetic::power2::lemma_pow2_strictly_increases(96, j);
                }
                assert(p * 0x1_0000_0000 >= vstd::arithmetic::power2::pow2(96) * 0x1_0000_0000)
                    by (nonlinear_arith)
                    requires
                        p >= vstd::arithmetic::power2::pow2(96),
                ;
                assert(false);
            }
            vstd::arithmetic::power2::lemma_pow2_adds(j, 1);
            assert(vstd::arithmetic::power2::pow2(j + 1) * (y as int / 2) <= p * y)
                by (nonlinear_arith)
                requires
                    vstd::arithmetic::power2::pow2(j + 1) == p * 2,
                    p >= 1,
                    y as int >= 0,
                    2 * (y as int / 2) <= y as int,
        ;
            lemma_fundamental_div_mod(y as int, 2);
            lemma_mod_bound(y as int, 2);
            assert(y as int / 2 >= 0x8000_0000) by (nonlinear_arith)
                requires
                    y as int >= 0x1_0000_0000,
                    y as int == 2 * (y as int / 2) + y as int % 2,
                    0 <= y as int % 2 < 2,
            ;
        }
        y = y / 2;
        k = k + 1;
        proof {
            j = j + 1;
        }
    }
    let mut m: i64 = y as i64;
    let mut f: i64 = 0;
    let mut i: u32 = 0;
    proof {
        vstd::arithmetic::power2::lemma2_to64();
    }
    while i < 16
        invariant
            0x8000_0000 <= m < 0x1_0000_0000,
            i <= 16,
            0 <= f,
            f < vstd::arithmetic::power2::pow2(i as nat),
            vstd::arithmetic::power2::pow2(16) == 0x1_0000,
            log2_frac_steps(m as int, (16 - i) as nat, f as int) == log2_frac_steps(
                log2_norm_down(y0, k0).0,
                16,
                0,
            ),
        decreases 16 - i,
    {
        proof {
            assert(0x4000_0000_0000_0000 <= (m as int) * (m as int) && (m as int) * (m as int)
                <= 0xFFFF_FFFF_8000_0000) by (nonlinear_arith)
                requires
                    0x8000_0000 <= (m as int) && (m as int) < 0x1_0000_0000,
            ;
            assert(0x8000_0000int * 0x8000_0000 == 0x4000_0000_0000_0000) by (nonlinear_arith);
            assert(0x1_FFFF_FFFFint * 0x8000_0000 == 0xFFFF_FFFF_8000_0000) by (nonlinear_arith);
            lemma_div_trunc_bounds(
                (m as int) * (m as int),
                0x8000_0000,
                0x8000_0000,
                0x1_FFFF_FFFF,
            );
            assert(div_trunc((m as int) * (m as int), 0x8000_0000) == (m as int) * (m as int)
                / 0x8000_0000);
            vstd::arithmetic::power2::lemma_pow2_adds(i as nat, 1);
            vstd::arithmetic::power2::lemma2_to64();
            vstd::arithmetic::power2::lemma_pow2_strictly_increases(i as nat, 16);
            assert(f < 0x1_0000);
            if i + 1 < 16 {
                vstd::arithmetic::power2::lemma_pow2_strictly_increases((i + 1) as nat, 16);
            }
        }
        let y2: i128 = ((m as i128) * (m as i128)) / 0x8000_0000;
        if y2 >= 0x1_0000_0000 {
            proof {
                lemma_fundamental_div_mod(y2 as int, 2);
                lemma_mod_bound(y2 as int, 2);
            }
            m = (y2 / 2) as i64;
            f = 2 * f + 1;
        } else {
            m = y2 as i64;
            f = 2 * f;
        }
        i = i + 1;
    }
    proof {
        assert(f < 0x1_0000);
        assert(-31 <= k <= 97);
    }
    (k * 0x1_0000 + f) * 0x1_0000
}

/// For a positive divisor, a quotient bracketed between two exact
/// multiples stays bracketed after division.
pub proof fn lemma_div_trunc_bounds(a: int, d: int, lo: int, hi: int)
    requires
        d > 0,
        lo * d <= a <= hi * d,
    ensures
        lo <= div_trunc(a, d) <= hi,
{
    lemma_div_trunc_fundamental(a, d);
    let q = div_trunc(a, d);
    if a >= 0 {
        // q*d <= a <= hi*d  and  a < q*d + d  with  lo*d <= a
        assert(q <= hi) by (nonlinear_arith)
            requires
                d > 0,
                q * d <= a,
                a <= hi * d,
        ;
        assert(lo <= q) by (nonlinear_arith)
            requires
                d > 0,
                lo * d <= a,
                a < q * d + d,
        ;
    } else {
        assert(q <= hi) by (nonlinear_arith)
            requires
                d > 0,
                q * d - d < a,
                a <= hi * d,
        ;
        assert(lo <= q) by (nonlinear_arith)
            requires
                d > 0,
                lo * d <= a,
                a <= q * d,
        ;
    }
}

} // verus!
