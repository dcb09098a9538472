//! Fixed-point arithmetic: a real number `v` is held as the integer
//! `v * ONE`, with `ONE = 2^16`.
use vstd::prelude::*;

verus! {

/// Fixed-point 1.0.
pub const ONE: i64 = 65536;

/// Bound on the squares that `isqrt` takes.
pub const SQRT_MAX: u64 = 0x4000_0000_0000_0000;

/// `r` is the square root of `n` rounded down.
pub open spec fn is_isqrt(n: int, r: int) -> bool {
    0 <= r && r * r <= n && n < (r + 1) * (r + 1)
}

/// Square root rounded down, by bisection.
pub fn isqrt(n: u64) -> (r: u64)
    requires
        n <= SQRT_MAX,
    ensures
        is_isqrt(n as int, r as int),
        r <= 0x8000_0000,
{
    let mut lo: u64 = 0;
    let mut hi: u64 = 0x8000_0001;
    assert(n < (hi as int) * (hi as int)) by (nonlinear_arith)
        requires n <= SQRT_MAX, hi == 0x8000_0001;
    while hi - lo > 1
        invariant
            lo < hi <= 0x8000_0001,
            lo * lo <= n,
            n < hi * hi,
        decreases hi - lo,
    {
        let mid: u64 = lo + (hi - lo) / 2;
        assert(mid * mid <= 0x8000_0001 * 0x8000_0001) by (nonlinear_arith)
            requires mid <= 0x8000_0001;
        if mid * mid <= n {
            lo = mid;
        } else {
            hi = mid;
        }
    }
    assert(hi == lo + 1);
    lo
}

/// Division rounded toward zero, for a positive divisor.
pub open spec fn tdiv(a: int, b: int) -> int {
    if a >= 0 {
        a / b
    } else {
        -((-a) / b)
    }
}

pub proof fn lemma_tdiv_bound(a: int, b: int, m: int)
    requires
        b > 0,
        m >= 0,
        -m * b <= a <= m * b,
    ensures
        -m <= tdiv(a, b) <= m,
        -a <= a ==> 0 <= tdiv(a, b),
        a <= 0 ==> tdiv(a, b) <= 0,
{
    if a >= 0 {
        assert(a / b <= m) by (nonlinear_arith)
            requires 0 <= a <= m * b, b > 0;
        assert(a / b >= 0) by (nonlinear_arith)
            requires 0 <= a, b > 0;
    } else {
        assert(-a <= m * b) by (nonlinear_arith)
            requires -m * b <= a;
        assert((-a) / b <= m) by (nonlinear_arith)
            requires 0 <= -a <= m * b, b > 0;
        assert((-a) / b >= 0) by (nonlinear_arith)
            requires 0 <= -a, b > 0;
    }
}

/// Division of a 64-bit value rounded toward zero.
pub fn div_i64(a: i64, b: i64) -> (r: i64)
    requires
        b > 0,
        a > i64::MIN,
    ensures
        r == tdiv(a as int, b as int),
{
    if a >= 0 {
        a / b
    } else {
        -((-a) / b)
    }
}

/// Division of a 128-bit value rounded toward zero.
pub fn div_i128(a: i128, b: i128) -> (r: i128)
    requires
        b > 0,
        a > i128::MIN,
    ensures
        r == tdiv(a as int, b as int),
{
    if a >= 0 {
        a / b
    } else {
        -((-a) / b)
    }
}

/// Clamp to the closed interval `[lo, hi]`.
pub open spec fn clamp_spec(x: int, lo: int, hi: int) -> int {
    if x < lo {
        lo
    } else if x > hi {
        hi
    } else {
        x
    }
}

pub fn clamp_i64(x: i64, lo: i64, hi: i64) -> (r: i64)
    requires
        lo <= hi,
    ensures
        r == clamp_spec(x as int, lo as int, hi as int),
        lo <= r <= hi,
{
    if x < lo {
        lo
    } else if x > hi {
        hi
    } else {
        x
    }
}

/// Where the activation saturates: fixed-point 3.0.
pub const TANH_KNEE: i64 = 196608;

/// The activation: the rational approximation `t (27 + t^2) / (27 + 9 t^2)`
/// of `tanh t` for `|t| <= 3`, and `sign(t)` beyond. It is odd, monotone,
/// continuous, and equals 1.0 exactly at 3.0.
pub open spec fn tanh_fx_spec(x: int) -> int {
    let c = clamp_spec(x, -TANH_KNEE, TANH_KNEE as int);
    let k = 27 * ONE * ONE;
    tdiv(c * (k + c * c), k + 9 * c * c)
}

proof fn lemma_tanh_bound(c: int)
    requires
        0 <= c <= TANH_KNEE,
    ensures
        c * (27 * ONE * ONE + c * c) <= ONE * (27 * ONE * ONE + 9 * c * c),
{
    let d = TANH_KNEE - c;
    assert(d * d * d >= 0) by (nonlinear_arith)
        requires d >= 0;
    assert(ONE * (27 * ONE * ONE + 9 * c * c) - c * (27 * ONE * ONE + c * c) == d * d * d)
        by (nonlinear_arith)
        requires d == TANH_KNEE - c, TANH_KNEE == 3 * ONE;
}

/// The activation stays in `[-ONE, ONE]`.
pub proof fn lemma_tanh_fx_range(x: int)
    ensures
        -ONE <= tanh_fx_spec(x) <= ONE,
{
    let c = clamp_spec(x, -TANH_KNEE, TANH_KNEE as int);
    let k = 27 * ONE * ONE;
    let a = if c >= 0 { c } else { -c };
    lemma_tanh_bound(a);
    assert(a * a == c * c) by (nonlinear_arith)
        requires a == c || a == -c;
    assert(c * c >= 0) by (nonlinear_arith);
    let num = c * (k + c * c);
    let den = k + 9 * c * c;
    assert(9 * a * a == 9 * c * c) by (nonlinear_arith)
        requires a * a == c * c;
    assert(-ONE * den <= num <= ONE * den) by (nonlinear_arith)
        requires
            a == c || a == -c, a >= 0,
            a * (k + c * c) <= ONE * (k + 9 * c * c),
            num == c * (k + c * c), den == k + 9 * c * c, k + c * c >= 0;
    assert(den > 0) by (nonlinear_arith)
        requires den == k + 9 * c * c, k > 0;
    lemma_tdiv_bound(num, den, ONE as int);
}

/// The activation on fixed point; the result lies in `[-ONE, ONE]`.
pub fn tanh_fx(x: i64) -> (r: i64)
    ensures
        r == tanh_fx_spec(x as int),
        -ONE <= r <= ONE,
{
    let c = clamp_i64(x, -TANH_KNEE, TANH_KNEE);
    let k: i64 = 27 * ONE * ONE;
    assert(c * c <= TANH_KNEE * TANH_KNEE) by (nonlinear_arith)
        requires -TANH_KNEE <= c <= TANH_KNEE;
    assert(0 <= c * c) by (nonlinear_arith);
    let sq = c * c;
    let den = k + 9 * sq;
    assert(c * (k + sq) <= TANH_KNEE * (k + TANH_KNEE * TANH_KNEE)) by (nonlinear_arith)
        requires -TANH_KNEE <= c <= TANH_KNEE, 0 <= sq <= TANH_KNEE * TANH_KNEE, k > 0;
    assert(c * (k + sq) >= -TANH_KNEE * (k + TANH_KNEE * TANH_KNEE)) by (nonlinear_arith)
        requires -TANH_KNEE <= c <= TANH_KNEE, 0 <= sq <= TANH_KNEE * TANH_KNEE, k > 0;
    let num = c * (k + sq);
    proof {
        let a = if c >= 0 { c as int } else { -c };
        lemma_tanh_bound(a);
        assert(a * a == sq) by (nonlinear_arith)
            requires a == c || a == -c, sq == c * c;
        assert(k == 27 * ONE * ONE);
        assert(9 * a * a == 9 * sq) by (nonlinear_arith)
            requires a * a == sq;
        assert(a * (k + sq) <= ONE * (k + 9 * sq));
        assert(-ONE * den <= num <= ONE * den) by (nonlinear_arith)
            requires
                a == c || a == -c, a >= 0,
                a * (k + sq) <= ONE * (k + 9 * sq),
                num == c * (k + sq), den == k + 9 * sq, k + sq >= 0;
        lemma_tdiv_bound(num as int, den as int, ONE as int);
        assert(9 * sq == 9 * c * c) by (nonlinear_arith)
            requires sq == c * c;
    }
    div_i64(num, den)
}

} // verus!

verus! {

/// Scale of the wide intermediate values used by `chance_of_rate`: 2^32.
pub const WIDE: u128 = 0x1_0000_0000;

/// Halvings of the exponent before the series is taken.
pub const EXP_HALVINGS: u32 = 10;

/// Exponents at or beyond fixed-point 16.0 give probability 1.
pub const EXP_CUTOFF: i64 = 1048576;

/// Series `1 - y + y^2/2 - y^3/6` for `exp(-y)` at `WIDE` scale.
pub open spec fn exp_series(y: int) -> int {
    WIDE - y + (y * y) / (2 * WIDE) - (y * y * y) / (6 * WIDE * WIDE)
}

/// `e` squared `n` times at `WIDE` scale.
pub open spec fn square_iter(e: int, n: nat) -> int
    decreases n,
{
    if n == 0 {
        e
    } else {
        let p = square_iter(e, (n - 1) as nat);
        (p * p) / WIDE as int
    }
}

/// `exp(-x)` at `WIDE` scale for fixed-point `0 <= x < 16`: the series at
/// `x / 2^10`, squared ten times.
pub open spec fn exp_neg_wide(x: int) -> int {
    square_iter(exp_series(x * 64), EXP_HALVINGS as nat)
}

/// The probability `1 - exp(-x)` of at least one event of a process of
/// total rate `x`, in fixed point.
pub open spec fn chance_of_rate_spec(x: int) -> int {
    if x >= EXP_CUTOFF {
        ONE as int
    } else {
        ONE - exp_neg_wide(x) / 65536
    }
}

proof fn lemma_square_iter_range(e: int, n: nat)
    requires
        0 <= e <= WIDE,
    ensures
        0 <= square_iter(e, n) <= WIDE,
        e == WIDE ==> square_iter(e, n) == WIDE,
    decreases n,
{
    if n > 0 {
        lemma_square_iter_range(e, (n - 1) as nat);
        let p = square_iter(e, (n - 1) as nat);
        assert(0 <= (p * p) / WIDE as int <= WIDE) by (nonlinear_arith)
            requires 0 <= p <= WIDE;
        if e == WIDE {
            assert((WIDE * WIDE) / WIDE as int == WIDE) by (nonlinear_arith);
        }
    }
}

/// Turn a rate and a time step (both fixed point, `rate * dt` the expected
/// number of events) into the probability of at least one event,
/// `1 - exp(-rate * dt)`, in fixed point.
pub fn chance_of_rate(rate: i64, dt: i64) -> (r: i64)
    requires
        0 <= rate <= 0x1000_0000,
        0 <= dt <= 4 * ONE,
    ensures
        r == chance_of_rate_spec(rate * dt / ONE as int),
        0 <= r <= ONE,
        rate == 0 || dt == 0 ==> r == 0,
{
    assert(0 <= rate * dt <= 0x1000_0000 * 4 * ONE) by (nonlinear_arith)
        requires 0 <= rate <= 0x1000_0000, 0 <= dt <= 4 * ONE;
    let x = rate * dt / ONE;
    if x >= EXP_CUTOFF {
        return ONE;
    }
    let y: u128 = (x as u128) * 64;
    assert(y * y <= 0x400_0000 * 0x400_0000) by (nonlinear_arith)
        requires y <= 0x400_0000;
    assert(y * y * y <= 0x400_0000 * 0x400_0000 * 0x400_0000) by (nonlinear_arith)
        requires y <= 0x400_0000;
    assert((y * y) / (2 * WIDE) <= y) by (nonlinear_arith)
        requires y <= 0x400_0000;
    let mut e: u128 = WIDE - y + (y * y) / (2 * WIDE) - (y * y * y) / (6 * WIDE * WIDE);
    assert((y * y * y) / (6 * WIDE * WIDE) <= (y * y) / (2 * WIDE)) by (nonlinear_arith)
        requires y <= 0x400_0000;
    assert(e == exp_series(x * 64));
    let ghost e0 = e as int;
    let mut i: u32 = 0;
    while i < EXP_HALVINGS
        invariant
            i <= EXP_HALVINGS,
            0 <= e0 <= WIDE,
            e == square_iter(e0, i as nat),
        decreases EXP_HALVINGS - i,
    {
        proof { lemma_square_iter_range(e0, i as nat); }
        assert(e * e <= WIDE * WIDE) by (nonlinear_arith)
            requires e <= WIDE;
        e = e * e / WIDE;
        i = i + 1;
    }
    proof {
        lemma_square_iter_range(e0, EXP_HALVINGS as nat);
        if x == 0 {
            assert(e0 == WIDE);
        }
    }
    ONE - (e / 65536) as i64
}

} // verus!

verus! {

/// A full turn, 2*pi, at `WIDE` scale.
pub const TWO_PI_WIDE: u128 = 26986075409;

/// `ln 2` at `WIDE` scale.
pub const LN2_WIDE: u128 = 2977044472;

/// Taylor series of `cos th` to the eighth power, at `WIDE` scale, for
/// `0 <= th <= pi/2` given at `WIDE` scale.
pub open spec fn cos_series(th: int) -> int {
    let t2 = th * th / WIDE as int;
    let t4 = t2 * t2 / WIDE as int;
    let t6 = t4 * t2 / WIDE as int;
    let t8 = t6 * t2 / WIDE as int;
    WIDE - t2 / 2 + t4 / 24 - t6 / 720 + t8 / 40320
}

/// `cos` of the angle `u` of a turn, for `0 <= u <= ONE/4`, at `WIDE` scale.
pub open spec fn cos_quarter(u: int) -> int {
    cos_series(u * TWO_PI_WIDE / ONE as int)
}

/// `cos(2 pi t)` in fixed point for `t` a fraction of a turn in `[0, 1]`:
/// folded onto the first quarter turn by symmetry, then the series,
/// clamped to `[-1, 1]`.
pub open spec fn cos_turns_spec(t: int) -> int {
    let h = if t <= ONE / 2 { t } else { ONE - t };
    let c = if h <= ONE / 4 { cos_quarter(h) } else { -cos_quarter(ONE / 2 - h) };
    clamp_spec(tdiv(c, 65536), -ONE, ONE as int)
}

fn cos_quarter_exec(u: i64) -> (r: i128)
    requires
        0 <= u <= ONE / 4,
    ensures
        r == cos_quarter(u as int),
        -4 * WIDE <= r <= 4 * WIDE,
{
    let th: i128 = (u as i128) * (TWO_PI_WIDE as i128) / (ONE as i128);
    assert(0 <= th <= 7000000000) by (nonlinear_arith)
        requires th == u * TWO_PI_WIDE / ONE as int, 0 <= u <= ONE / 4;
    let w = WIDE as i128;
    assert(0 <= th * th / (w as int) <= 12000000000) by (nonlinear_arith)
        requires 0 <= th <= 7000000000, w == WIDE;
    let t2 = th * th / w;
    assert(0 <= t2 * t2 / (w as int) <= 34000000000) by (nonlinear_arith)
        requires 0 <= t2 <= 12000000000, w == WIDE;
    let t4 = t2 * t2 / w;
    assert(0 <= t4 * t2 / (w as int) <= 96000000000) by (nonlinear_arith)
        requires 0 <= t4 <= 34000000000, 0 <= t2 <= 12000000000, w == WIDE;
    let t6 = t4 * t2 / w;
    assert(0 <= t6 * t2 / (w as int) <= 270000000000) by (nonlinear_arith)
        requires 0 <= t6 <= 96000000000, 0 <= t2 <= 12000000000, w == WIDE;
    let t8 = t6 * t2 / w;
    w - t2 / 2 + t4 / 24 - t6 / 720 + t8 / 40320
}

/// `cos(2 pi t)` for `t` a fraction of a turn, in fixed point.
pub fn cos_turns(t: i64) -> (r: i64)
    requires
        0 <= t <= ONE,
    ensures
        r == cos_turns_spec(t as int),
        -ONE <= r <= ONE,
{
    let h = if t <= ONE / 2 { t } else { ONE - t };
    let c = if h <= ONE / 4 { cos_quarter_exec(h) } else { -cos_quarter_exec(ONE / 2 - h) };
    let q = div_i128(c, 65536);
    proof { lemma_tdiv_bound(c as int, 65536, 4 * 65536 as int); }
    clamp_i64(q as i64, -ONE, ONE)
}

/// `sin(2 pi t)` for `t` a fraction of a turn, in fixed point: the cosine a
/// quarter turn earlier.
pub open spec fn sin_turns_spec(t: int) -> int {
    if t >= ONE / 4 { cos_turns_spec(t - ONE / 4) } else { cos_turns_spec(t + ONE * 3 / 4) }
}

pub fn sin_turns(t: i64) -> (r: i64)
    requires
        0 <= t <= ONE,
    ensures
        r == sin_turns_spec(t as int),
        -ONE <= r <= ONE,
{
    if t >= ONE / 4 { cos_turns(t - ONE / 4) } else { cos_turns(t + ONE * 3 / 4) }
}

/// Series `2 (z + z^3/3 + z^5/5 + z^7/7)` for `atanh`, at `WIDE` scale, for
/// `0 <= z <= 1/3` at `WIDE` scale.
pub open spec fn atanh2_series(z: int) -> int {
    let z2 = z * z / WIDE as int;
    let z3 = z2 * z / WIDE as int;
    let z5 = z3 * z2 / WIDE as int;
    let z7 = z5 * z2 / WIDE as int;
    2 * (z + z3 / 3 + z5 / 5 + z7 / 7)
}

/// The number of doublings that bring `u` (with `1 <= u <= ONE`) into
/// `[ONE/2, ONE]`.
pub open spec fn doublings(u: int) -> nat
    decreases ONE - u,
{
    if u <= 0 || u * 2 > ONE {
        0
    } else {
        1 + doublings(u * 2)
    }
}

/// `u` doubled `k` times.
pub open spec fn doubled(u: int, k: nat) -> int
    decreases k,
{
    if k == 0 {
        u
    } else {
        2 * doubled(u, (k - 1) as nat)
    }
}

/// `-ln(u)` in fixed point for `u` in `(0, 1]` in fixed point: with
/// `u = m / 2^k`, `m` in `[1/2, 1]`, it is `k ln 2 - ln m`, and
/// `-ln m = 2 atanh((1 - m) / (1 + m))`.
pub open spec fn neg_ln_spec(u: int) -> int {
    let k = doublings(u);
    let m = doubled(u, k);
    let z = (ONE - m) * WIDE as int / (ONE + m);
    (k * LN2_WIDE + atanh2_series(z)) / 65536
}

/// `-ln(u)` for `u` in `(0, 1]`, in fixed point.
pub fn neg_ln(u: i64) -> (r: i64)
    requires
        1 <= u <= ONE,
    ensures
        r == neg_ln_spec(u as int),
        0 <= r <= 14 * ONE,
{
    let mut m: i64 = u;
    let mut k: u32 = 0;
    while m * 2 <= ONE
        invariant
            1 <= m <= ONE,
            k <= 16,
            k >= 1 ==> pow2_at_least(k) == 2 * pow2_at_least((k - 1) as u32),
            m == doubled(u as int, k as nat),
            doublings(u as int) == k + doublings(m as int),
            m >= pow2_at_least(k),
        decreases ONE - m,
    {
        m = m * 2;
        proof {
            lemma_pow2_at_least_step((k + 1) as u32);
            if k + 1 >= 17 {
                assert(false);
            }
        }
        k = k + 1;
    }
    assert(doublings(m as int) == 0);
    let w = WIDE as i128;
    let a = (ONE - m) as i128;
    let z = a * w / ((ONE + m) as i128);
    assert(0 <= z <= (w as int) / 3) by (nonlinear_arith)
        requires z == a * w / ((ONE + m) as int), a == ONE - m, ONE <= 2 * m, m <= ONE, w == WIDE;
    assert(0 <= z * z / (w as int) <= (w as int)) by (nonlinear_arith)
        requires 0 <= z <= (w as int) / 3, w == WIDE;
    let z2 = z * z / w;
    assert(0 <= z2 * z / (w as int) <= (w as int)) by (nonlinear_arith)
        requires 0 <= z2 <= (w as int), 0 <= z <= (w as int) / 3, w == WIDE;
    let z3 = z2 * z / w;
    assert(0 <= z3 * z2 / (w as int) <= (w as int)) by (nonlinear_arith)
        requires 0 <= z2 <= (w as int), 0 <= z3 <= (w as int), w == WIDE;
    let z5 = z3 * z2 / w;
    assert(0 <= z5 * z2 / (w as int) <= (w as int)) by (nonlinear_arith)
        requires 0 <= z2 <= (w as int), 0 <= z5 <= (w as int), w == WIDE;
    let z7 = z5 * z2 / w;
    let s = 2 * (z + z3 / 3 + z5 / 5 + z7 / 7);
    let total = (k as i128) * (LN2_WIDE as i128) + s;
    assert(0 <= total <= 16 * LN2_WIDE + 2 * ((w as int) / 3 + (w as int) / 3 + (w as int) / 5 + (w as int) / 7));
    (total / 65536) as i64
}

/// `2^k` for `k <= 16`, as a lower bound on a doubled value.
pub open spec fn pow2_at_least(k: u32) -> int
    decreases k,
{
    if k == 0 {
        1
    } else {
        2 * pow2_at_least((k - 1) as u32)
    }
}

proof fn lemma_pow2_at_least_step(k: u32)
    requires
        1 <= k,
    ensures
        pow2_at_least(k) == 2 * pow2_at_least((k - 1) as u32),
        k >= 17 ==> pow2_at_least(k) > ONE,
    decreases k,
{
    if k > 17 {
        lemma_pow2_at_least_step((k - 1) as u32);
        lemma_pow2_positive((k - 1) as u32);
    } else if k == 17 {
        reveal_with_fuel(pow2_at_least, 18);
    }
}

proof fn lemma_pow2_positive(k: u32)
    ensures
        pow2_at_least(k) >= 1,
    decreases k,
{
    if k > 0 {
        lemma_pow2_positive((k - 1) as u32);
    }
}

} // verus!

verus! {

/// A component of a vector is at most the rounded-down length of the vector.
pub proof fn lemma_component_within_length(a: int, b: int, r: int)
    requires
        is_isqrt(a * a + b * b, r),
    ensures
        -r <= a <= r,
        -r <= b <= r,
{
    assert(b * b >= 0) by (nonlinear_arith);
    assert(a * a >= 0) by (nonlinear_arith);
    if a > r {
        assert(a * a >= (r + 1) * (r + 1)) by (nonlinear_arith)
            requires a >= r + 1, r >= 0;
    }
    if a < -r {
        assert(a * a >= (r + 1) * (r + 1)) by (nonlinear_arith)
            requires -a >= r + 1, r >= 0;
    }
    if b > r {
        assert(b * b >= (r + 1) * (r + 1)) by (nonlinear_arith)
            requires b >= r + 1, r >= 0;
    }
    if b < -r {
        assert(b * b >= (r + 1) * (r + 1)) by (nonlinear_arith)
            requires -b >= r + 1, r >= 0;
    }
}

/// `a * m / len` rounded toward zero, for `|a| <= len`: at most `m` in
/// magnitude.
pub fn scale_ratio(a: i64, m: i64, len: i64) -> (r: i64)
    requires
        0 < len,
        -len <= a <= len,
        0 <= m <= 0x8000_0000,
        len <= 0x8000_0000,
    ensures
        r == tdiv(a * m, len as int),
        -m <= r <= m,
{
    assert(-m * len <= a * m <= m * len) by (nonlinear_arith)
        requires -len <= a <= len, 0 <= m;
    assert(-0x8000_0000 * 0x8000_0000 <= a * m <= 0x8000_0000 * 0x8000_0000) by (nonlinear_arith)
        requires -len <= a <= len, 0 <= m <= 0x8000_0000, len <= 0x8000_0000;
    proof { lemma_tdiv_bound(a * m, len as int, m as int); }
    div_i64(a * m, len)
}

} // verus!

verus! {

/// Bound on a vector component for `length` and `limit`.
pub const VEC_LIMIT: i64 = 0x4000_0000;

/// A 2-D vector in fixed point (`ONE` is 1.0).
#[derive(Clone, Copy, Debug, PartialEq, Eq, Structural, Default)]
pub struct Vec2f {
    pub x: i64,
    pub y: i64,
}

impl Vec2f {
    pub fn new(x: i64, y: i64) -> (r: Vec2f)
        ensures
            r.x == x,
            r.y == y,
    {
        Vec2f { x, y }
    }

    /// Component-wise sum.
    pub fn add(self, other: Vec2f) -> (r: Vec2f)
        requires
            i64::MIN <= self.x + other.x <= i64::MAX,
            i64::MIN <= self.y + other.y <= i64::MAX,
        ensures
            r.x == self.x + other.x,
            r.y == self.y + other.y,
    {
        Vec2f { x: self.x + other.x, y: self.y + other.y }
    }

    /// Component-wise difference.
    pub fn sub(self, other: Vec2f) -> (r: Vec2f)
        requires
            i64::MIN <= self.x - other.x <= i64::MAX,
            i64::MIN <= self.y - other.y <= i64::MAX,
        ensures
            r.x == self.x - other.x,
            r.y == self.y - other.y,
    {
        Vec2f { x: self.x - other.x, y: self.y - other.y }
    }

    /// Scaled by the fixed-point factor `s`, rounded toward zero.
    pub fn mul(self, s: i64) -> (r: Vec2f)
        requires
            -VEC_LIMIT <= self.x <= VEC_LIMIT,
            -VEC_LIMIT <= self.y <= VEC_LIMIT,
            -VEC_LIMIT <= s <= VEC_LIMIT,
        ensures
            r.x == tdiv(self.x * s, ONE as int),
            r.y == tdiv(self.y * s, ONE as int),
    {
        assert(-VEC_LIMIT * VEC_LIMIT <= self.x * s <= VEC_LIMIT * VEC_LIMIT) by (nonlinear_arith)
            requires -VEC_LIMIT <= self.x <= VEC_LIMIT, -VEC_LIMIT <= s <= VEC_LIMIT;
        assert(-VEC_LIMIT * VEC_LIMIT <= self.y * s <= VEC_LIMIT * VEC_LIMIT) by (nonlinear_arith)
            requires -VEC_LIMIT <= self.y <= VEC_LIMIT, -VEC_LIMIT <= s <= VEC_LIMIT;
        Vec2f { x: div_i64(self.x * s, ONE), y: div_i64(self.y * s, ONE) }
    }

    /// Divided by the positive fixed-point divisor `s`, rounded toward zero.
    pub fn div(self, s: i64) -> (r: Vec2f)
        requires
            -VEC_LIMIT <= self.x <= VEC_LIMIT,
            -VEC_LIMIT <= self.y <= VEC_LIMIT,
            0 < s,
        ensures
            r.x == tdiv(self.x * ONE, s as int),
            r.y == tdiv(self.y * ONE, s as int),
    {
        Vec2f { x: div_i64(self.x * ONE, s), y: div_i64(self.y * ONE, s) }
    }

    /// Euclidean length, rounded down.
    pub fn length(self) -> (r: i64)
        requires
            -VEC_LIMIT <= self.x <= VEC_LIMIT,
            -VEC_LIMIT <= self.y <= VEC_LIMIT,
        ensures
            is_isqrt(self.x * self.x + self.y * self.y, r as int),
            0 <= r <= 2 * VEC_LIMIT,
            -r <= self.x <= r,
            -r <= self.y <= r,
    {
        assert(0 <= self.x * self.x <= VEC_LIMIT * VEC_LIMIT) by (nonlinear_arith)
            requires -VEC_LIMIT <= self.x <= VEC_LIMIT;
        assert(0 <= self.y * self.y <= VEC_LIMIT * VEC_LIMIT) by (nonlinear_arith)
            requires -VEC_LIMIT <= self.y <= VEC_LIMIT;
        let r = isqrt((self.x * self.x + self.y * self.y) as u64);
        proof { lemma_component_within_length(self.x as int, self.y as int, r as int); }
        assert(r <= 2 * VEC_LIMIT) by (nonlinear_arith)
            requires is_isqrt(self.x * self.x + self.y * self.y, r as int),
                self.x * self.x <= VEC_LIMIT * VEC_LIMIT, self.y * self.y <= VEC_LIMIT * VEC_LIMIT;
        r as i64
    }

    /// The vector scaled down to length `max` when it is longer; each
    /// component then lies within `max`.
    pub fn limit(self, max: i64) -> (r: Vec2f)
        requires
            -VEC_LIMIT <= self.x <= VEC_LIMIT,
            -VEC_LIMIT <= self.y <= VEC_LIMIT,
            0 <= max <= VEC_LIMIT,
        ensures
            -max <= r.x <= max,
            -max <= r.y <= max,
            r == limit_spec(self, max as int),
    {
        let len = self.length();
        proof { lemma_isqrt_is_spec(self.x * self.x + self.y * self.y, len as int); }
        if len > max {
            Vec2f { x: scale_ratio(self.x, max, len), y: scale_ratio(self.y, max, len) }
        } else {
            self
        }
    }
}

/// `v` scaled down to length `max` when its rounded-down length exceeds
/// it: each component times `max` over that length, rounded toward zero.
pub open spec fn limit_spec(v: Vec2f, max: int) -> Vec2f {
    let len = isqrt_spec(v.x * v.x + v.y * v.y);
    if len > max {
        Vec2f { x: tdiv(v.x * max, len) as i64, y: tdiv(v.y * max, len) as i64 }
    } else {
        v
    }
}

/// The rounded-down square root is unique.
pub proof fn lemma_isqrt_unique(n: int, r: int)
    requires
        is_isqrt(n, r),
    ensures
        forall|s: int| #[trigger] is_isqrt(n, s) ==> s == r,
{
    assert forall|s: int| #[trigger] is_isqrt(n, s) implies s == r by {
        if s < r {
            assert((s + 1) * (s + 1) <= r * r) by (nonlinear_arith)
                requires 0 <= s < r;
        }
        if s > r {
            assert((r + 1) * (r + 1) <= s * s) by (nonlinear_arith)
                requires 0 <= r < s;
        }
    }
}

} // verus!

verus! {

/// The square root of `n` rounded down.
pub open spec fn isqrt_spec(n: int) -> int {
    choose|r: int| is_isqrt(n, r)
}

/// What `isqrt` returns is `isqrt_spec`.
pub proof fn lemma_isqrt_is_spec(n: int, r: int)
    requires
        is_isqrt(n, r),
    ensures
        isqrt_spec(n) == r,
{
    lemma_isqrt_unique(n, r);
}

} // verus!
