//! Fixed-point arithmetic over integers.
//!
//! A fractional quantity `x` is represented by the integer `x * FIXED_ONE`,
//! rounded down. Unsigned quantities (priorities, exponents, sampling
//! weights) live in `u64`; signed quantities (rewards, value estimates)
//! live in `i64` with saturation at the type bounds.

use vstd::prelude::*;

verus! {

/// Number of fixed-point units in one whole.
pub const FIXED_ONE: u64 = 65536;

/// Product of two fixed-point fractions, rounded down.
pub open spec fn fmul_spec(a: u64, b: u64) -> u64 {
    (((a as int) * (b as int)) / 65536) as u64
}

/// Multiplies two fixed-point values that both lie in `[0, 1]`.
pub fn fmul(a: u64, b: u64) -> (r: u64)
    requires
        a <= FIXED_ONE,
        b <= FIXED_ONE,
    ensures
        r == fmul_spec(a, b),
        r <= FIXED_ONE,
        a == FIXED_ONE && b == FIXED_ONE ==> r == FIXED_ONE,
        r <= a,
{
    proof {
        lemma_fmul_bounds(a, b);
    }
    (a * b) / FIXED_ONE
}

/// The product of two fractions in `[0, 1]` stays in `[0, 1]` and below
/// either factor.
pub proof fn lemma_fmul_bounds(a: u64, b: u64)
    requires
        a <= FIXED_ONE,
        b <= FIXED_ONE,
    ensures
        (a as int) * (b as int) <= 65536 * 65536,
        fmul_spec(a, b) <= FIXED_ONE,
        fmul_spec(a, b) <= a,
        a == FIXED_ONE && b == FIXED_ONE ==> fmul_spec(a, b) == FIXED_ONE,
{
    assert((a as int) * (b as int) <= 65536 * 65536) by (nonlinear_arith)
        requires
            a <= 65536,
            b <= 65536,
    ;
    assert((a as int) * (b as int) <= (a as int) * 65536) by (nonlinear_arith)
        requires
            b <= 65536,
            0 <= a,
    ;
    assert(((a as int) * 65536) / 65536 == a as int);
}

/// The nonnegative integer square root, defined by counting up.
pub open spec fn isqrt_spec(n: nat) -> nat
    decreases n,
{
    if n == 0 {
        0
    } else {
        let r = isqrt_spec((n - 1) as nat);
        if (r + 1) * (r + 1) <= n {
            r + 1
        } else {
            r
        }
    }
}

/// `isqrt_spec(n)` is the unique `r` with `r * r <= n < (r + 1) * (r + 1)`.
pub proof fn lemma_isqrt_spec_bounds(n: nat)
    ensures
        (isqrt_spec(n) as int) * (isqrt_spec(n) as int) <= n as int,
        (n as int) < ((isqrt_spec(n) as int) + 1) * ((isqrt_spec(n) as int) + 1),
    decreases n,
{
    if n > 0 {
        lemma_isqrt_spec_bounds((n - 1) as nat);
        let r: int = isqrt_spec((n - 1) as nat) as int;
        assert(r * r <= n - 1);
        assert(n - 1 < (r + 1) * (r + 1));
        if (r + 1) * (r + 1) <= n {
            assert(isqrt_spec(n) as int == r + 1);
            assert(n < (r + 2) * (r + 2)) by (nonlinear_arith)
                requires
                    (n as int) - 1 < (r + 1) * (r + 1),
                    0 <= r,
            ;
            assert(((isqrt_spec(n) as int) + 1) * ((isqrt_spec(n) as int) + 1) == (r + 2) * (r
                + 2));
        } else {
            assert(isqrt_spec(n) as int == r);
        }
    } else {
        assert(n == 0);
        assert(isqrt_spec(n) == 0);
    }
}

/// Any `r` within the square-root bounds for `n` is `isqrt_spec(n)`.
pub proof fn lemma_isqrt_unique(n: nat, r: int)
    requires
        0 <= r,
        r * r <= n as int,
        (n as int) < (r + 1) * (r + 1),
    ensures
        r == isqrt_spec(n) as int,
{
    lemma_isqrt_spec_bounds(n);
    let s: int = isqrt_spec(n) as int;
    if r < s {
        assert((r + 1) * (r + 1) <= s * s) by (nonlinear_arith)
            requires
                0 <= r,
                r + 1 <= s,
        ;
    }
    if s < r {
        assert((s + 1) * (s + 1) <= r * r) by (nonlinear_arith)
            requires
                0 <= s,
                s + 1 <= r,
        ;
    }
}

/// Integer square root by binary search.
pub fn isqrt(v: u64) -> (r: u64)
    ensures
        r == isqrt_spec(v as nat),
        (r as int) * (r as int) <= v as int,
        (v as int) < ((r as int) + 1) * ((r as int) + 1),
{
    let mut lo: u64 = 0;
    let mut hi: u64 = 0x1_0000_0000;
    proof {
        assert((hi as int) * (hi as int) > v as int) by (nonlinear_arith)
            requires
                hi == 0x1_0000_0000,
                v <= u64::MAX,
        ;
    }
    while lo + 1 < hi
        invariant
            lo < hi,
            hi <= 0x1_0000_0000,
            (lo as int) * (lo as int) <= v as int,
            (v as int) < (hi as int) * (hi as int),
        decreases hi - lo,
    {
        let mid: u64 = lo + (hi - lo) / 2;
        proof {
            assert((mid as int) * (mid as int) <= 0x1_0000_0000 * 0x1_0000_0000) by (nonlinear_arith)
                requires
                    mid <= 0x1_0000_0000,
                    0 <= mid,
            ;
        }
        if (mid as u128) * (mid as u128) <= v as u128 {
            lo = mid;
        } else {
            hi = mid;
        }
    }
    proof {
        lemma_isqrt_unique(v as nat, lo as int);
    }
    lo
}

/// Square root of a fixed-point fraction in `[0, 1]`.
pub open spec fn fsqrt_spec(x: u64) -> u64 {
    isqrt_spec((x * 65536) as nat) as u64
}

/// Bounds of the fixed-point square root on `[0, 1]`: the result stays in
/// `[0, 1]`, is exact at the endpoints, and never maps a positive value
/// to zero.
pub proof fn lemma_fsqrt_bounds(x: u64)
    requires
        x <= FIXED_ONE,
    ensures
        fsqrt_spec(x) <= FIXED_ONE,
        x == FIXED_ONE ==> fsqrt_spec(x) == FIXED_ONE,
        x >= 1 ==> fsqrt_spec(x) >= 1,
{
    lemma_isqrt_spec_bounds((x * 65536) as nat);
    let s = isqrt_spec((x * 65536) as nat);
    if s > 65536 {
        assert(65537 * 65537 <= s * s) by (nonlinear_arith)
            requires
                65537 <= s,
        ;
    }
    if x == FIXED_ONE {
        lemma_isqrt_unique((x * 65536) as nat, 65536);
    }
    if x >= 1 && s == 0 {
        assert(x * 65536 >= 65536) by (nonlinear_arith)
            requires
                x >= 1,
        ;
        assert((x * 65536) as nat == x * 65536);
        assert((s as int + 1) * (s as int + 1) == 1) by (nonlinear_arith)
            requires
                s as int == 0,
        ;
        assert(false);
    }
}

/// Square root of a fixed-point value in `[0, 1]`.
pub fn fsqrt(x: u64) -> (r: u64)
    requires
        x <= FIXED_ONE,
    ensures
        r == fsqrt_spec(x),
        r <= FIXED_ONE,
        x == FIXED_ONE ==> r == FIXED_ONE,
        x >= 1 ==> r >= 1,
{
    proof {
        lemma_fsqrt_bounds(x);
    }
    isqrt(x * FIXED_ONE)
}

/// One step of the square-and-multiply evaluation of a fractional power:
/// with `k` bits of the exponent left to process, repeatedly take the
/// square root of `cur` and fold it into `acc` where the exponent bit
/// is set.
pub open spec fn fpow_loop_spec(acc: u64, cur: u64, exp: u64, k: nat) -> u64
    decreases k,
{
    if k == 0 {
        acc
    } else {
        let c = fsqrt_spec(cur);
        let a2 = if (exp >> ((k - 1) as u64)) & 1 == 1 {
            fmul_spec(acc, c)
        } else {
            acc
        };
        fpow_loop_spec(a2, c, exp, (k - 1) as nat)
    }
}

/// `base` raised to the fixed-point exponent `exp / FIXED_ONE`, for
/// `base` and `exp` both in `[0, 1]`.
pub open spec fn fpow_spec(base: u64, exp: u64) -> u64 {
    let acc0 = if (exp >> 16u64) & 1 == 1 {
        base
    } else {
        FIXED_ONE
    };
    fpow_loop_spec(acc0, base, exp, 16)
}

/// The power loop keeps `[0, 1]` values in `[0, 1]`, fixes `1` as `1`,
/// and with a zero exponent returns `acc` unchanged.
pub proof fn lemma_fpow_loop_bounds(acc: u64, cur: u64, exp: u64, k: nat)
    requires
        acc <= FIXED_ONE,
        cur <= FIXED_ONE,
    ensures
        fpow_loop_spec(acc, cur, exp, k) <= FIXED_ONE,
        acc == FIXED_ONE && cur == FIXED_ONE ==> fpow_loop_spec(acc, cur, exp, k) == FIXED_ONE,
        exp == 0 ==> fpow_loop_spec(acc, cur, exp, k) == acc,
    decreases k,
{
    if k > 0 {
        let c = fsqrt_spec(cur);
        lemma_fsqrt_bounds(cur);
        let a2 = if (exp >> ((k - 1) as u64)) & 1 == 1 {
            fmul_spec(acc, c)
        } else {
            acc
        };
        lemma_fmul_bounds(acc, c);
        if exp == 0 {
            let sh: u64 = (k - 1) as u64;
            assert((exp >> sh) & 1 == 0u64) by (bit_vector)
                requires
                    exp == 0u64,
            ;
        }
        lemma_fpow_loop_bounds(a2, c, exp, (k - 1) as nat);
    }
}

/// Endpoint facts about the fixed-point power: any power of one is one,
/// the zeroth power is one, and the result stays in `[0, 1]`.
pub proof fn lemma_fpow_bounds(base: u64, exp: u64)
    requires
        base <= FIXED_ONE,
    ensures
        fpow_spec(base, exp) <= FIXED_ONE,
        base == FIXED_ONE ==> fpow_spec(base, exp) == FIXED_ONE,
        exp == 0 ==> fpow_spec(base, exp) == FIXED_ONE,
{
    let acc0 = if (exp >> 16u64) & 1 == 1 {
        base
    } else {
        FIXED_ONE
    };
    if exp == 0 {
        assert((exp >> 16u64) & 1 == 0) by (bit_vector)
            requires
                exp == 0u64,
        ;
    }
    lemma_fpow_loop_bounds(acc0, base, exp, 16);
}

/// Raises a fixed-point value in `[0, 1]` to a fixed-point exponent in
/// `[0, 1]`, by square-and-multiply over the 17 exponent bits.
pub fn fpow(base: u64, exp: u64) -> (r: u64)
    requires
        base <= FIXED_ONE,
        exp <= FIXED_ONE,
    ensures
        r == fpow_spec(base, exp),
        r <= FIXED_ONE,
        base == FIXED_ONE ==> r == FIXED_ONE,
        exp == 0 ==> r == FIXED_ONE,
{
    let mut acc: u64 = if (exp >> 16u64) & 1 == 1 {
        base
    } else {
        FIXED_ONE
    };
    let mut cur: u64 = base;
    let mut k: u64 = 16;
    while k > 0
        invariant
            k <= 16,
            acc <= FIXED_ONE,
            cur <= FIXED_ONE,
            fpow_loop_spec(acc, cur, exp, k as nat) == fpow_spec(base, exp),
        decreases k,
    {
        let c = fsqrt(cur);
        if (exp >> (k - 1)) & 1 == 1 {
            acc = fmul(acc, c);
        }
        cur = c;
        k = k - 1;
    }
    proof {
        lemma_fpow_bounds(base, exp);
    }
    acc
}

/// Clamp an arbitrary-precision integer into the `i64` range.
pub open spec fn clamp_i64_spec(x: int) -> i64 {
    if x > i64::MAX {
        i64::MAX
    } else if x < i64::MIN {
        i64::MIN
    } else {
        x as i64
    }
}

/// Sum of two signed fixed-point values, saturating at the `i64` bounds.
pub fn sat_add_i64(a: i64, b: i64) -> (r: i64)
    ensures
        r == clamp_i64_spec(a + b),
{
    let s: i128 = a as i128 + b as i128;
    if s > i64::MAX as i128 {
        i64::MAX
    } else if s < i64::MIN as i128 {
        i64::MIN
    } else {
        s as i64
    }
}

/// Difference of two signed fixed-point values, saturating at the `i64`
/// bounds.
pub fn sat_sub_i64(a: i64, b: i64) -> (r: i64)
    ensures
        r == clamp_i64_spec(a - b),
{
    let s: i128 = a as i128 - b as i128;
    if s > i64::MAX as i128 {
        i64::MAX
    } else if s < i64::MIN as i128 {
        i64::MIN
    } else {
        s as i64
    }
}

/// Magnitude of a signed value as `u64`.
pub open spec fn abs_i64_spec(a: i64) -> u64 {
    if a < 0 {
        (-(a as int)) as u64
    } else {
        a as u64
    }
}

/// Magnitude of a signed value.
pub fn abs_i64(a: i64) -> (r: u64)
    ensures
        r == abs_i64_spec(a),
{
    if a < 0 {
        (-(a as i128)) as u64
    } else {
        a as u64
    }
}

/// Product of a signed value with an unsigned fixed-point fraction in
/// `[0, 1]`, rounded toward zero and saturating at the `i64` bounds.
pub open spec fn smul_frac_spec(q: i64, f: u64) -> i64 {
    let mag = (abs_i64_spec(q) * f) / 65536;
    if q < 0 {
        clamp_i64_spec(-(mag as int))
    } else {
        clamp_i64_spec(mag as int)
    }
}

/// Multiplies a signed fixed-point value by an unsigned fraction in
/// `[0, 1]`.
pub fn smul_frac(q: i64, f: u64) -> (r: i64)
    requires
        f <= FIXED_ONE,
    ensures
        r == smul_frac_spec(q, f),
{
    let mag_in: u64 = abs_i64(q);
    proof {
        assert(mag_in as int * f as int <= mag_in as int * 65536) by (nonlinear_arith)
            requires
                f <= 65536,
                0 <= mag_in as int,
        ;
        assert(mag_in as int * 65536 / 65536 == mag_in as int);
        assert(mag_in as int * f as int / 65536 <= mag_in as int * 65536 / 65536) by {
            vstd::arithmetic::div_mod::lemma_div_is_ordered(
                mag_in as int * f as int,
                mag_in as int * 65536,
                65536,
            );
        }
    }
    let wide: u128 = (mag_in as u128 * f as u128) / 65536;
    let mag: u64 = wide as u64;
    if q < 0 {
        if mag > i64::MAX as u64 + 1 {
            proof {
                assert(false) by {
                    assert(mag_in <= i64::MAX as u64 + 1);
                    assert(mag as int <= mag_in as int);
                }
            }
            i64::MIN
        } else if mag == i64::MAX as u64 + 1 {
            i64::MIN
        } else {
            -(mag as i64)
        }
    } else {
        if mag > i64::MAX as u64 {
            proof {
                assert(false) by {
                    assert(mag_in <= i64::MAX as u64);
                    assert(mag as int <= mag_in as int);
                }
            }
            i64::MAX
        } else {
            mag as i64
        }
    }
}

} // verus!
