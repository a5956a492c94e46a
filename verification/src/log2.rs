//! Fixed-point base-2 logarithm, in millibits (thousandths of a bit).
//!
//! The statistics over path-coverage distributions need `log2` of integer
//! counts.  The value is represented as an integer number of millibits:
//! the integer part exactly, and the fractional part by the classical
//! digit-by-digit method — repeatedly squaring the mantissa in fixed
//! point and reading off one binary digit per round.

use vstd::prelude::*;

verus! {

use vstd::arithmetic::power2::*;
use vstd::arithmetic::div_mod::*;
use vstd::arithmetic::mul::*;

/// Integer part of the base-2 logarithm of `x`.
pub open spec fn floor_log2(x: int) -> int
    recommends
        x >= 1,
    decreases x,
{
    if x < 2 {
        0
    } else {
        1 + floor_log2(x / 2)
    }
}

/// `floor_log2` brackets its argument between two powers of two.
pub proof fn lemma_floor_log2_bounds(x: int)
    requires
        x >= 1,
    ensures
        floor_log2(x) >= 0,
        pow2(floor_log2(x) as nat) <= x < pow2((floor_log2(x) + 1) as nat),
    decreases x,
{
    lemma2_to64();
    if x < 2 {
        assert(pow2(0) == 1 && pow2(1) == 2);
    } else {
        lemma_floor_log2_bounds(x / 2);
        let j = floor_log2(x / 2);
        lemma_pow2_unfold((j + 1) as nat);
        lemma_pow2_unfold((j + 2) as nat);
        lemma_fundamental_div_mod(x, 2);
    }
}

/// `floor_log2` is monotone.
pub proof fn lemma_floor_log2_mono(x: int, y: int)
    requires
        1 <= x <= y,
    ensures
        floor_log2(x) <= floor_log2(y),
    decreases x,
{
    if x >= 2 {
        lemma_div_is_ordered(x, y, 2);
        lemma_floor_log2_mono(x / 2, y / 2);
    } else {
        lemma_floor_log2_bounds(y);
    }
}

/// Multiplying by a power of two adds its exponent to `floor_log2`.
pub proof fn lemma_floor_log2_mul_pow2(x: int, m: nat)
    requires
        x >= 1,
    ensures
        floor_log2(x * pow2(m)) == m + floor_log2(x),
    decreases m,
{
    if m == 0 {
        assert(pow2(0) == 1) by {
            lemma2_to64();
        }
    } else {
        lemma_floor_log2_mul_pow2(x, (m - 1) as nat);
        lemma_pow2_unfold(m);
        lemma_pow2_pos((m - 1) as nat);
        let y = x * pow2((m - 1) as nat) as int;
        assert(y >= 1) by {
            lemma_mul_increases(x, pow2((m - 1) as nat) as int);
        }
        assert(x * pow2(m) == 2 * y) by {
            assert(x * (2 * pow2((m - 1) as nat)) == 2 * (x * pow2((m - 1) as nat)))
                by (nonlinear_arith);
        }
        assert((2 * y) / 2 == y) by {
            lemma_div_multiples_vanish(y, 2);
        }
        assert(floor_log2(2 * y) == 1 + floor_log2(y));
    }
}

/// The mantissa of `x`: `x` scaled to the half-open range
/// `[pow2(32), pow2(33))` by a power of two, rounded down to 32
/// fractional bits.
pub open spec fn mantissa(x: int) -> int {
    (x * pow2(32) as int) / pow2(floor_log2(x) as nat) as int
}

/// The mantissa indeed falls in its fixed-point range.
pub proof fn lemma_mantissa_range(x: int)
    requires
        x >= 1,
    ensures
        pow2(32) <= mantissa(x) < pow2(33),
{
    lemma_floor_log2_bounds(x);
    let j = floor_log2(x) as nat;
    lemma_pow2_pos(j);
    lemma_pow2_pos(32);
    lemma_pow2_adds(j, 32);
    lemma_pow2_adds(j, 33);
    assert(pow2(j) * pow2(32) <= x * pow2(32)) by {
        lemma_mul_inequality(pow2(j) as int, x, pow2(32) as int);
    }
    assert((pow2(j) * pow2(32)) / pow2(j) == pow2(32)) by {
        lemma_mul_is_commutative(pow2(j) as int, pow2(32) as int);
        lemma_div_by_multiple(pow2(32) as int, pow2(j) as int);
    }
    assert(mantissa(x) >= pow2(32)) by {
        lemma_div_is_ordered(pow2(j) * pow2(32) as int, x * pow2(32), pow2(j) as int);
    }
    assert(x * pow2(32) < pow2((j + 1) as nat) * pow2(32)) by {
        lemma_pow2_pos((j + 1) as nat);
        lemma_mul_strict_inequality(x, pow2((j + 1) as nat) as int, pow2(32) as int);
    }
    assert(pow2((j + 1) as nat) * pow2(32) == pow2(j) * pow2(33)) by {
        lemma_pow2_adds((j + 1) as nat, 32);
    }
    assert(mantissa(x) < pow2(33)) by {
        lemma_multiply_divide_lt(x * pow2(32), pow2(j) as int, pow2(33) as int);
    }
}

/// The mantissa ignores powers of two: scaling the argument leaves it
/// unchanged.
pub proof fn lemma_mantissa_mul_pow2(x: int, m: nat)
    requires
        x >= 1,
    ensures
        mantissa(x * pow2(m)) == mantissa(x),
{
    lemma_floor_log2_mul_pow2(x, m);
    lemma_floor_log2_bounds(x);
    let j = floor_log2(x) as nat;
    lemma_pow2_pos(j);
    lemma_pow2_pos(m);
    lemma_pow2_pos(32);
    let a = x * pow2(32);
    assert(a >= 0) by {
        lemma_mul_nonnegative(x, pow2(32) as int);
    }
    assert((x * pow2(m)) * pow2(32) == (a * pow2(m))) by {
        assert((x * pow2(m)) * pow2(32) == (x * pow2(32)) * pow2(m)) by (nonlinear_arith);
    }
    assert(pow2(m + j) == pow2(m) * pow2(j)) by {
        lemma_pow2_adds(m, j);
    }
    assert((a * pow2(m) as int) / (pow2(m) * pow2(j)) as int == ((a * pow2(m) as int) / pow2(m) as int) / pow2(j) as int) by {
        lemma_mul_nonnegative(a, pow2(m) as int);
        lemma_div_denominator(a * pow2(m) as int, pow2(m) as int, pow2(j) as int);
    }
    assert((a * pow2(m) as int) / pow2(m) as int == a) by {
        lemma_div_by_multiple(a, pow2(m) as int);
    }
}

/// One fixed-point squaring round on a mantissa.
pub open spec fn frac_sq(t: int) -> int {
    (t * t) / pow2(32) as int
}

/// The binary digit produced by one round.
pub open spec fn frac_bit(t: int) -> int {
    if frac_sq(t) >= pow2(33) {
        1
    } else {
        0
    }
}

/// The mantissa carried into the next round.
pub open spec fn frac_next(t: int) -> int {
    if frac_sq(t) >= pow2(33) {
        frac_sq(t) / 2
    } else {
        frac_sq(t)
    }
}

/// The fractional part of `log2(t / pow2(32))` to `n` binary digits,
/// most significant digit first.
pub open spec fn frac_acc(t: int, n: nat) -> int
    decreases n,
{
    if n == 0 {
        0
    } else {
        frac_bit(t) * pow2((n - 1) as nat) + frac_acc(frac_next(t), (n - 1) as nat)
    }
}

/// A mantissa in range stays in range across a round.
pub proof fn lemma_frac_next_range(t: int)
    requires
        pow2(32) <= t < pow2(33),
    ensures
        pow2(32) <= frac_next(t) < pow2(33),
        frac_sq(t) < pow2(34),
{
    lemma_pow2_pos(32);
    lemma_pow2_adds(32, 32);
    lemma_pow2_adds(33, 33);
    lemma_pow2_adds(32, 34);
    lemma_pow2_adds(32, 1);
    lemma_pow2_adds(33, 1);
    let a = pow2(32) as int;
    let b = pow2(33) as int;
    assert(t * t >= a * a && t * t < b * b) by (nonlinear_arith)
        requires
            0 < a <= t < b,
    ;
    assert((a * a) / a == a) by {
        lemma_div_by_multiple(a, a);
    }
    assert(frac_sq(t) >= a) by {
        lemma_div_is_ordered(a * a, t * t, a);
    }
    assert(b * b == a * pow2(34)) by {
        lemma2_to64();
        lemma2_to64_rest();
    }
    assert(frac_sq(t) < pow2(34)) by {
        lemma_mul_nonnegative(t, t);
        lemma_multiply_divide_lt(t * t, a, pow2(34) as int);
    }
    if frac_sq(t) >= b {
        assert(b == 2 * a && pow2(34) == 2 * b) by {
            lemma2_to64();
            lemma2_to64_rest();
        }
        assert((2 * a) / 2 == a) by {
            lemma_div_multiples_vanish(a, 2);
        }
        assert(frac_next(t) >= a) by {
            lemma_div_is_ordered(2 * a, frac_sq(t), 2);
        }
        assert(frac_next(t) < b) by {
            lemma_multiply_divide_lt(frac_sq(t), 2, b);
        }
    }
}

/// The accumulated digits stay within `n` bits.
pub proof fn lemma_frac_acc_bound(t: int, n: nat)
    ensures
        0 <= frac_acc(t, n) < pow2(n),
    decreases n,
{
    lemma_pow2_pos(n);
    if n > 0 {
        lemma_frac_acc_bound(frac_next(t), (n - 1) as nat);
        lemma_pow2_unfold(n);
        lemma_pow2_pos((n - 1) as nat);
    }
}

/// The accumulated digits are monotone in the mantissa.
pub proof fn lemma_frac_acc_mono(t1: int, t2: int, n: nat)
    requires
        0 <= t1 <= t2,
    ensures
        frac_acc(t1, n) <= frac_acc(t2, n),
    decreases n,
{
    if n > 0 {
        lemma_pow2_pos(32);
        lemma_pow2_pos((n - 1) as nat);
        assert(t1 * t1 <= t2 * t2) by (nonlinear_arith)
            requires
                0 <= t1 <= t2,
        ;
        assert(frac_sq(t1) <= frac_sq(t2)) by {
            lemma_div_is_ordered(t1 * t1, t2 * t2, pow2(32) as int);
        }
        assert(frac_sq(t1) >= 0) by {
            lemma_mul_nonnegative(t1, t1);
            lemma_div_pos_is_pos(t1 * t1, pow2(32) as int);
        }
        if frac_bit(t1) == frac_bit(t2) {
            if frac_bit(t1) == 1 {
                lemma_div_is_ordered(frac_sq(t1), frac_sq(t2), 2);
                lemma_div_pos_is_pos(frac_sq(t1), 2);
                lemma_frac_acc_mono(frac_next(t1), frac_next(t2), (n - 1) as nat);
            } else {
                lemma_frac_acc_mono(frac_next(t1), frac_next(t2), (n - 1) as nat);
            }
        } else {
            // the digits can only differ as zero against one
            assert(frac_bit(t1) == 0 && frac_bit(t2) == 1);
            lemma_frac_acc_bound(frac_next(t1), (n - 1) as nat);
            lemma_frac_acc_bound(frac_next(t2), (n - 1) as nat);
        }
    }
}

/// An exact power of two has a zero fractional part.
pub proof fn lemma_frac_acc_exact_pow2(n: nat)
    ensures
        frac_acc(pow2(32) as int, n) == 0,
    decreases n,
{
    if n > 0 {
        lemma_pow2_pos(32);
        lemma_pow2_adds(32, 32);
        let a = pow2(32) as int;
        assert((a * a) / a == a) by {
            lemma_div_by_multiple(a, a);
        }
        assert(frac_sq(a) == a);
        assert(a < pow2(33)) by {
            lemma_pow2_strictly_increases(32, 33);
        }
        lemma_frac_acc_exact_pow2((n - 1) as nat);
    }
}

/// Base-2 logarithm of `x` in millibits: the integer part exactly, and
/// sixteen binary digits of the fraction rounded down to millibits.
pub open spec fn log2_millis_spec(x: int) -> int {
    1000 * floor_log2(x) + (1000 * frac_acc(mantissa(x), 16)) / pow2(16) as int
}

/// The fractional contribution never reaches a whole bit.
pub proof fn lemma_frac_millis_bound(t: int)
    ensures
        0 <= (1000 * frac_acc(t, 16)) / pow2(16) as int <= 999,
{
    lemma_frac_acc_bound(t, 16);
    lemma_pow2_pos(16);
    lemma2_to64();
    assert(pow2(16) == 65536);
    let f = frac_acc(t, 16);
    assert(1000 * f >= 0);
    lemma_div_pos_is_pos(1000 * f, 65536);
    assert(1000 * f < 65536 * 1000) by (nonlinear_arith)
        requires
            0 <= f < 65536,
    ;
    lemma_multiply_divide_lt(1000 * f, 65536, 1000);
}

/// `log2` in millibits is non-negative.
pub proof fn lemma_log2_millis_nonneg(x: int)
    requires
        x >= 1,
    ensures
        log2_millis_spec(x) >= 0,
{
    lemma_floor_log2_bounds(x);
    lemma_frac_millis_bound(mantissa(x));
}

/// `log2` in millibits is monotone.
pub proof fn lemma_log2_millis_mono(x: int, y: int)
    requires
        1 <= x <= y,
    ensures
        log2_millis_spec(x) <= log2_millis_spec(y),
{
    lemma_floor_log2_mono(x, y);
    lemma_floor_log2_bounds(x);
    lemma_floor_log2_bounds(y);
    if floor_log2(x) == floor_log2(y) {
        let j = floor_log2(x) as nat;
        lemma_pow2_pos(j);
        lemma_pow2_pos(32);
        assert(x * pow2(32) <= y * pow2(32)) by {
            lemma_mul_inequality(x, y, pow2(32) as int);
        }
        assert(mantissa(x) <= mantissa(y)) by {
            lemma_div_is_ordered(x * pow2(32), y * pow2(32), pow2(j) as int);
        }
        assert(mantissa(x) >= 0) by {
            lemma_mantissa_range(x);
        }
        lemma_frac_acc_mono(mantissa(x), mantissa(y), 16);
        lemma_pow2_pos(16);
        assert((1000 * frac_acc(mantissa(x), 16)) / pow2(16) as int <= (1000 * frac_acc(
            mantissa(y),
            16,
        )) / pow2(16) as int) by {
            lemma_div_is_ordered(
                1000 * frac_acc(mantissa(x), 16),
                1000 * frac_acc(mantissa(y), 16),
                pow2(16) as int,
            );
            lemma_frac_acc_bound(mantissa(x), 16);
        }
    } else {
        lemma_frac_millis_bound(mantissa(x));
        lemma_frac_millis_bound(mantissa(y));
    }
}

/// Multiplying the argument by `pow2(m)` adds exactly `1000 * m`
/// millibits.
pub proof fn lemma_log2_millis_mul_pow2(x: int, m: nat)
    requires
        x >= 1,
    ensures
        log2_millis_spec(x * pow2(m)) == 1000 * m + log2_millis_spec(x),
{
    lemma_floor_log2_mul_pow2(x, m);
    lemma_mantissa_mul_pow2(x, m);
}

/// `log2(1)` is zero.
pub proof fn lemma_log2_millis_one()
    ensures
        log2_millis_spec(1) == 0,
{
    lemma2_to64();
    assert(floor_log2(1) == 0);
    assert(pow2(0) == 1);
    assert(mantissa(1) == pow2(32) as int) by {
        lemma_pow2_pos(32);
        assert((1 * pow2(32)) == pow2(32) as int);
        lemma_div_basics_2(pow2(32) as int);
    }
    lemma_frac_acc_exact_pow2(16);
}

/// `log2(pow2(m))` is exactly `1000 * m` millibits.
pub proof fn lemma_log2_millis_pow2(m: nat)
    ensures
        log2_millis_spec(pow2(m) as int) == 1000 * m,
{
    lemma_log2_millis_mul_pow2(1, m);
    lemma_log2_millis_one();
    assert(1 * pow2(m) == pow2(m) as int);
}

/// Over 128-bit arguments the millibit logarithm stays below 128000.
pub proof fn lemma_log2_millis_u128_bound(x: int)
    requires
        1 <= x <= u128::MAX,
    ensures
        0 <= log2_millis_spec(x) <= 127999,
{
    lemma_floor_log2_u128(x);
    lemma_frac_millis_bound(mantissa(x));
}

/// A 128-bit argument keeps `floor_log2` below 128.
pub proof fn lemma_floor_log2_u128(x: int)
    requires
        1 <= x <= u128::MAX,
    ensures
        0 <= floor_log2(x) <= 127,
{
    lemma_floor_log2_bounds(x);
    if floor_log2(x) >= 128 {
        if floor_log2(x) > 128 {
            lemma_pow2_strictly_increases(128, floor_log2(x) as nat);
        }
        lemma_pow2_adds(64, 64);
        lemma2_to64();
        assert(pow2(128) == 0x10000000000000000 * 0x10000000000000000);
        assert(false);
    }
}

/// For a high argument the mantissa is a right shift of it.
proof fn lemma_mantissa_high(x: int, j: int)
    requires
        x >= 1,
        j == floor_log2(x),
        j >= 32,
    ensures
        x / pow2((j - 32) as nat) as int == mantissa(x),
{
    lemma_pow2_pos(32);
    lemma_pow2_pos((j - 32) as nat);
    lemma_pow2_adds(32, (j - 32) as nat);
    lemma_mul_nonnegative(x, pow2(32) as int);
    lemma_div_denominator(x * pow2(32) as int, pow2(32) as int, pow2((j - 32) as nat) as int);
    lemma_div_by_multiple(x, pow2(32) as int);
}

/// For a low argument the mantissa is a left shift of it.
proof fn lemma_mantissa_low(x: int, j: int)
    requires
        x >= 1,
        j == floor_log2(x),
        0 <= j < 32,
    ensures
        x * pow2((32 - j) as nat) as int == mantissa(x),
{
    lemma_pow2_pos(j as nat);
    lemma_pow2_pos((32 - j) as nat);
    lemma_pow2_adds((32 - j) as nat, j as nat);
    let a = x * pow2((32 - j) as nat) as int;
    assert(a * pow2(j as nat) as int == x * pow2(32) as int) by {
        assert((x * pow2((32 - j) as nat) as int) * pow2(j as nat) as int == x * (pow2(
            (32 - j) as nat,
        ) as int * pow2(j as nat) as int)) by (nonlinear_arith);
    }
    assert(a >= 0) by {
        lemma_mul_nonnegative(x, pow2((32 - j) as nat) as int);
    }
    lemma_div_by_multiple(a, pow2(j as nat) as int);
}

/// `pow2(e)` as a machine integer.
fn pow2_u128(e: u32) -> (r: u128)
    requires
        e <= 127,
    ensures
        r as int == pow2(e as nat),
{
    let mut r: u128 = 1;
    let mut i: u32 = 0;
    proof {
        lemma2_to64();
    }
    while i < e
        invariant
            i <= e <= 127,
            r as int == pow2(i as nat),
        decreases e - i,
    {
        proof {
            lemma_pow2_unfold((i + 1) as nat);
            if i + 1 < 128 {
                lemma_pow2_strictly_increases((i + 1) as nat, 128);
            }
            lemma_pow2_adds(64, 64);
            lemma2_to64();
            assert(pow2(128) == 0x10000000000000000 * 0x10000000000000000);
        }
        r = r * 2;
        i = i + 1;
    }
    r
}

/// Base-2 logarithm of `x` in millibits, computed exactly as
/// [`log2_millis_spec`] describes: sixteen fractional binary digits read
/// off by fixed-point squaring, then scaled to millibits.
pub fn log2_millis(x: u128) -> (r: u64)
    requires
        x >= 1,
    ensures
        r as int == log2_millis_spec(x as int),
{
    proof {
        lemma_floor_log2_u128(x as int);
    }
    let mut j: u32 = 0;
    let mut y: u128 = x;
    while y >= 2
        invariant
            1 <= y,
            floor_log2(x as int) == j + floor_log2(y as int),
            floor_log2(x as int) <= 127,
            j <= 127,
        decreases y,
    {
        proof {
            lemma_floor_log2_bounds(y as int);
            lemma_floor_log2_bounds((y as int) / 2);
        }
        y = y / 2;
        j = j + 1;
    }
    proof {
        assert(floor_log2(y as int) == 0);
        assert(j == floor_log2(x as int));
        lemma_mantissa_range(x as int);
    }
    let m: u128 = if j >= 32 {
        let p = pow2_u128(j - 32);
        proof {
            lemma_pow2_pos((j - 32) as nat);
            lemma_mantissa_high(x as int, j as int);
        }
        x / p
    } else {
        let p = pow2_u128(32 - j);
        proof {
            lemma_pow2_pos((32 - j) as nat);
            lemma_mantissa_low(x as int, j as int);
            lemma_mantissa_range(x as int);
            lemma2_to64();
            lemma2_to64_rest();
        }
        x * p
    };
    assert(m as int == mantissa(x as int));
    let mut t: u128 = m;
    let mut acc: u64 = 0;
    let mut i: u32 = 0;
    proof {
        lemma2_to64();
        lemma_mantissa_range(x as int);
        assert(acc as int * pow2(16) as int + frac_acc(t as int, 16) == frac_acc(
            m as int,
            16,
        ));
    }
    while i < 16
        invariant
            i <= 16,
            pow2(32) <= (t as int) && (t as int) < pow2(33),
            0 <= (acc as int) && (acc as int) < pow2(i as nat),
            (acc as int) * (pow2((16 - i) as nat) as int) + frac_acc(t as int, (16 - i) as nat)
                == frac_acc(m as int, 16),
        decreases 16 - i,
    {
        let ghost t0 = t as int;
        proof {
            lemma_frac_next_range(t0);
            lemma2_to64();
            lemma2_to64_rest();
            assert(t0 * t0 < pow2(33) as int * pow2(33) as int) by (nonlinear_arith)
                requires
                    0 <= t0 < pow2(33) as int,
            ;
            lemma_pow2_adds(33, 33);
            lemma_pow2_adds(64, 2);
            assert(pow2(66) == 0x10000000000000000 * 4);
        }
        let sq = t * t;
        let sqs = sq / 0x1_0000_0000u128;
        proof {
            assert(sqs as int == frac_sq(t0));
            assert(pow2(33) == 0x2_0000_0000);
        }
        let b: u64;
        if sqs >= 0x2_0000_0000u128 {
            t = sqs / 2;
            b = 1;
        } else {
            t = sqs;
            b = 0;
        }
        proof {
            assert(t as int == frac_next(t0));
            assert(b as int == frac_bit(t0));
            lemma_pow2_unfold((16 - i) as nat);
            lemma_pow2_pos((15 - i) as nat);
            lemma_pow2_unfold((i + 1) as nat);
            if i < 15 {
                lemma_pow2_strictly_increases((i + 1) as nat, 16);
            }
            assert(pow2(16) == 65536);
            let p = pow2((15 - i) as nat) as int;
            assert((2 * acc as int + b as int) * p == acc as int * (2 * p) + b as int * p)
                by (nonlinear_arith);
            assert(frac_acc(t0, (16 - i) as nat) == frac_bit(t0) * p + frac_acc(
                frac_next(t0),
                (15 - i) as nat,
            ));
        }
        acc = acc * 2 + b;
        i = i + 1;
    }
    proof {
        assert(pow2(0) == 1 && pow2(16) == 65536) by {
            lemma2_to64();
        }
        assert(i == 16);
        assert((acc as int) * (pow2((16 - i) as nat) as int) + frac_acc(
            t as int,
            (16 - i) as nat,
        ) == frac_acc(m as int, 16));
        assert(frac_acc(t as int, 0) == 0);
        assert((acc as int) * 1 == acc as int);
        assert(acc as int == frac_acc(m as int, 16));
        assert(acc as int == frac_acc(mantissa(x as int), 16));
        lemma_frac_acc_bound(mantissa(x as int), 16);
        lemma_frac_millis_bound(mantissa(x as int));
    }
    (j as u64) * 1000 + (acc * 1000) / 65536
}

} // verus!
