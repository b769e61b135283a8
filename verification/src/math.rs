//! Q16.16 fixed-point math primitives for in-kernel inference.
//!
//! All operations use Q16.16 fixed-point arithmetic on `i32`, widened to
//! `i64` for intermediate products. No floating point is involved.
//! Right shifts of signed values are arithmetic, i.e. floor division by a
//! power of two; the contracts state them as such.

use vstd::prelude::*;

verus! {

/// 1.0 in Q16.16.
pub const Q16_ONE: i32 = 65536;

/// 2π in Q16.16.
pub const TWO_PI_Q16: i64 = 411775;

/// π/2 in Q16.16: the phase shift from sine to cosine.
pub const HALF_PI_Q16: i32 = 102944;

/// exp(-k) in Q16.16 for k = 0..16.
pub const EXP_TABLE: [i32; 17] = [
    65536, 24109, 8869, 3263, 1200, 442, 162, 60, 22, 8, 3, 1, 0, 0, 0, 0, 0,
];

/// sin(2π·k/256) in Q16.16 for k = 0..255.
pub const SIN_TABLE: [i32; 256] = [
        0,  1608,  3216,  4821,  6424,  8022,  9616, 11204, 12785, 14359,
    15924, 17479, 19024, 20557, 22078, 23586, 25080, 26558, 28020, 29466,
    30893, 32303, 33692, 35062, 36410, 37736, 39040, 40320, 41576, 42806,
    44011, 45190, 46341, 47464, 48559, 49624, 50660, 51665, 52639, 53581,
    54491, 55368, 56212, 57022, 57798, 58538, 59244, 59914, 60547, 61145,
    61705, 62228, 62714, 63162, 63572, 63944, 64277, 64571, 64827, 65043,
    65220, 65358, 65457, 65516, 65536, 65516, 65457, 65358, 65220, 65043,
    64827, 64571, 64277, 63944, 63572, 63162, 62714, 62228, 61705, 61145,
    60547, 59914, 59244, 58538, 57798, 57022, 56212, 55368, 54491, 53581,
    52639, 51665, 50660, 49624, 48559, 47464, 46341, 45190, 44011, 42806,
    41576, 40320, 39040, 37736, 36410, 35062, 33692, 32303, 30893, 29466,
    28020, 26558, 25080, 23586, 22078, 20557, 19024, 17479, 15924, 14359,
    12785, 11204,  9616,  8022,  6424,  4821,  3216,  1608,     0, -1608,
    -3216, -4821, -6424, -8022, -9616,-11204,-12785,-14359,-15924,-17479,
   -19024,-20557,-22078,-23586,-25080,-26558,-28020,-29466,-30893,-32303,
   -33692,-35062,-36410,-37736,-39040,-40320,-41576,-42806,-44011,-45190,
   -46341,-47464,-48559,-49624,-50660,-51665,-52639,-53581,-54491,-55368,
   -56212,-57022,-57798,-58538,-59244,-59914,-60547,-61145,-61705,-62228,
   -62714,-63162,-63572,-63944,-64277,-64571,-64827,-65043,-65220,-65358,
   -65457,-65516,-65536,-65516,-65457,-65358,-65220,-65043,-64827,-64571,
   -64277,-63944,-63572,-63162,-62714,-62228,-61705,-61145,-60547,-59914,
   -59244,-58538,-57798,-57022,-56212,-55368,-54491,-53581,-52639,-51665,
   -50660,-49624,-48559,-47464,-46341,-45190,-44011,-42806,-41576,-40320,
   -39040,-37736,-36410,-35062,-33692,-32303,-30893,-29466,-28020,-26558,
   -25080,-23586,-22078,-20557,-19024,-17479,-15924,-14359,-12785,-11204,
    -9616, -8022, -6424, -4821, -3216, -1608,
];

/// RoPE frequencies for head_dim=64, theta=10000.
pub const ROPE_FREQS_64: [i32; 32] = [
    65536, 49145, 36854, 27636, 20724, 15541, 11654,  8739,
     6554,  4915,  3685,  2764,  2072,  1554,  1165,   874,
      655,   491,   369,   276,   207,   155,   117,    87,
       66,    49,    37,    28,    21,    16,    12,     9,
];

/// Rust's integer division of `a` by a positive `b`: the quotient rounded toward zero.
pub open spec fn div_trunc(a: int, b: int) -> int {
    if a >= 0 { a / b } else { -((-a) / b) }
}

/// Rust's `%` of `a` by a positive `b`: the remainder carries the sign of `a`.
pub open spec fn rem_trunc(a: int, b: int) -> int {
    a - b * div_trunc(a, b)
}

/// An `i64` right shift by 16 is floor division by 2^16.
pub(crate) proof fn lemma_shr16_i64(v: i64)
    ensures
        (v >> 16u64) as int == (v as int) / 65536,
{
    let s = v >> 16u64;
    assert(s * 65536 <= v && v < s * 65536 + 65536) by (bit_vector)
        requires s == v >> 16u64;
}

/// An `i32` right shift by 16 is floor division by 2^16.
proof fn lemma_shr16_i32(v: i32)
    ensures
        (v >> 16i32) as int == (v as int) / 65536,
{
    let s = v >> 16i32;
    assert(s * 65536 <= v && v < s * 65536 + 65536) by (bit_vector)
        requires s == v >> 16i32;
}

/// The integer square root of `n`: the `r` with `r * r <= n < (r + 1) * (r + 1)`.
pub open spec fn is_isqrt(n: nat, r: nat) -> bool {
    r * r <= n < (r + 1) * (r + 1)
}

/// The integer square root, by counting up from 0.
pub open spec fn isqrt_spec(n: nat) -> nat
    decreases n,
{
    if n == 0 {
        0
    } else {
        let r = isqrt_spec((n - 1) as nat);
        if (r + 1) * (r + 1) <= n {
            r + 1
        } else {
            r
        }
    }
}

/// `isqrt_spec` is the integer square root.
pub proof fn lemma_isqrt_spec(n: nat)
    ensures
        is_isqrt(n, isqrt_spec(n)),
    decreases n,
{
    if n > 0 {
        lemma_isqrt_spec((n - 1) as nat);
        let r = isqrt_spec((n - 1) as nat);
        assert(r * r <= n - 1 && (r + 1) * (r + 1) > n - 1);
        if (r + 1) * (r + 1) <= n {
            assert((r + 2) * (r + 2) > n) by (nonlinear_arith)
                requires (r + 1) * (r + 1) <= n, (r + 1) * (r + 1) > n - 1;
            assert(isqrt_spec(n) == r + 1);
        } else {
            assert(isqrt_spec(n) == r);
        }
    } else {
        assert(isqrt_spec(0) == 0);
        assert(is_isqrt(0, 0)) by (nonlinear_arith);
    }
}

/// There is only one integer square root.
pub proof fn lemma_isqrt_unique(n: nat, a: nat, b: nat)
    requires
        is_isqrt(n, a),
        is_isqrt(n, b),
    ensures
        a == b,
{
    if a < b {
        assert((a + 1) * (a + 1) <= b * b) by (nonlinear_arith)
            requires a + 1 <= b;
    } else if b < a {
        assert((b + 1) * (b + 1) <= a * a) by (nonlinear_arith)
            requires b + 1 <= a;
    }
}

proof fn lemma_newton_step_lower(n: nat, x: nat, r: nat)
    requires
        x >= 1,
        r * r <= n,
    ensures
        (x + n / x) / 2 >= r,
{
    let q = n / x;
    assert(n < (q + 1) * x) by (nonlinear_arith)
        requires x >= 1, q == n / x;
    if x + q < 2 * r {
        assert((2 * r - x) * x <= r * r) by (nonlinear_arith);
        assert(q + 1 <= 2 * r - x);
        assert((q + 1) * x <= (2 * r - x) * x) by (nonlinear_arith)
            requires q + 1 <= 2 * r - x, x >= 1;
        assert(false);
    }
}

proof fn lemma_newton_step_decreases(n: nat, x: nat)
    requires
        x >= 1,
        x * x > n,
    ensures
        (x + n / x) / 2 < x,
{
    let q = n / x;
    assert(q * x <= n) by (nonlinear_arith)
        requires x >= 1, q == n / x;
    if q >= x {
        assert(q * x >= x * x) by (nonlinear_arith)
            requires q >= x;
    }
}

proof fn lemma_newton_fixed(n: nat, x: nat)
    requires
        x >= 1,
        x * x <= n,
    ensures
        (x + n / x) / 2 >= x,
{
    let q = n / x;
    assert(q >= x) by (nonlinear_arith)
        requires x >= 1, x * x <= n, q == n / x;
}

proof fn lemma_newton_step_above(n: nat, x: nat)
    requires
        x >= 1,
    ensures
        ((x + n / x) / 2 + 1) * ((x + n / x) / 2 + 1) > n,
{
    let y = (x + n / x) / 2;
    if (y + 1) * (y + 1) <= n {
        lemma_newton_step_lower(n, x, y + 1);
    }
}

proof fn lemma_quotient_small(n: nat, x: nat)
    requires
        x >= 1,
        (x + 1) * (x + 1) > n,
    ensures
        n / x <= x + 2,
{
    let q = n / x;
    assert(q * x <= n) by (nonlinear_arith)
        requires x >= 1, q == n / x;
    if q > x + 2 {
        assert(q * x >= (x + 3) * x) by (nonlinear_arith)
            requires q >= x + 3, x >= 1;
        assert((x + 3) * x >= (x + 1) * (x + 1)) by (nonlinear_arith)
            requires x >= 1;
    }
}

/// Integer square root via Newton's method.
pub fn isqrt_u64(n: u64) -> (r: u64)
    ensures
        is_isqrt(n as nat, r as nat),
        r == isqrt_spec(n as nat),
{
    let r = isqrt_newton(n);
    proof {
        lemma_isqrt_spec(n as nat);
        lemma_isqrt_unique(n as nat, r as nat, isqrt_spec(n as nat));
    }
    r
}

fn isqrt_newton(n: u64) -> (r: u64)
    ensures
        is_isqrt(n as nat, r as nat),
{
    if n < 2 {
        assert(is_isqrt(n as nat, n as nat)) by (nonlinear_arith)
            requires n < 2;
        return n;
    }
    let bits: u32 = 64 - n.leading_zeros();
    proof {
        vstd::std_specs::bits::axiom_u64_leading_zeros(n);
    }
    let b: u64 = bits as u64;
    let k: u64 = (b + 1) / 2;
    let mut x: u64 = 1u64 << k;
    assert(n >> b == 0u64 || b == 64);
    assert(k >= 1 && k <= 32 && k + k >= b);
    assert(x >= 1 && x <= 0x1_0000_0000u64 && (n >> k) < x) by (bit_vector)
        requires
            x == 1u64 << k,
            1u64 <= k <= 32u64,
            k + k >= b,
            1u64 <= b <= 64u64,
            (n >> b == 0u64 || b == 64u64),
    ;
    assert(x * x > n) by (bit_vector)
        requires
            x == 1u64 << k,
            1u64 <= k <= 32u64,
            k + k >= b,
            1u64 <= b <= 64u64,
            (n >> b == 0u64 || b == 64u64),
    ;
    assert((x + 1) * (x + 1) > n) by (nonlinear_arith)
        requires x * x > n;
    loop
        invariant
            1 <= x <= 0x1_0000_0000,
            n >= 2,
            (x + 1) * (x + 1) > n,
        decreases x,
    {
        proof {
            lemma_quotient_small(n as nat, x as nat);
        }
        let y = (x + n / x) / 2;
        proof {
            lemma_newton_step_above(n as nat, x as nat);
            if x * x > n {
                lemma_newton_step_decreases(n as nat, x as nat);
            } else {
                lemma_newton_fixed(n as nat, x as nat);
            }
        }
        if y >= x {
            return x;
        }
        assert(y >= 1) by (nonlinear_arith)
            requires
                (y + 1) * (y + 1) > n,
                n >= 2,
        ;
        x = y;
    }
}

/// The value `exp_q16_neg` computes for a Q16.16 argument `x`: 1.0 for `x >= 0`;
/// otherwise the table value exp(floor(x)) times a cubic Taylor polynomial of
/// exp on the fractional part, and 0 once floor(x) reaches -17.
pub open spec fn exp_q16_neg_spec(x: int) -> int {
    if x >= 0 {
        65536
    } else {
        let x_int = x / 65536;
        let idx = -x_int;
        if idx >= 17 {
            0
        } else {
            let f = x - x_int * 65536;
            let f2 = f * f / 65536;
            let f3 = f2 * f / 65536;
            let frac = 65536 + f + f2 / 2 + f3 / 6;
            EXP_TABLE@[idx] * frac / 65536
        }
    }
}

proof fn lemma_exp_table_bounds(i: int)
    requires
        1 <= i < 17,
    ensures
        0 <= EXP_TABLE@[i] <= 24109,
{
}

/// Exponential function for non-positive arguments in Q16.16.
pub fn exp_q16_neg(x: i32) -> (r: i32)
    ensures
        r == exp_q16_neg_spec(x as int),
        0 <= r <= 65536,
{
    if x >= 0 {
        return Q16_ONE;
    }
    let x_int = x >> 16i32;
    proof {
        lemma_shr16_i32(x);
    }
    let idx = (-(x_int as i64)) as usize;
    if idx >= 17 {
        return 0;
    }
    proof {
        lemma_exp_table_bounds(idx as int);
    }
    let exp_int = EXP_TABLE[idx] as i64;
    let f: i64 = x as i64 - (x_int as i64) * 65536;
    assert(0 <= f < 65536);
    assert(f * f <= 65535 * 65535) by (nonlinear_arith)
        requires 0 <= f < 65536;
    let f2 = (f * f) / 65536;
    assert(0 <= f2 < 65536);
    assert(f2 * f <= 65535 * 65535) by (nonlinear_arith)
        requires 0 <= f < 65536, 0 <= f2 < 65536;
    let f3 = (f2 * f) / 65536;
    let exp_frac = 65536 + f + f2 / 2 + f3 / 6;
    assert(0 <= exp_frac <= 174760);
    assert(exp_int * exp_frac <= 24109 * 174760) by (nonlinear_arith)
        requires 0 <= exp_int <= 24109, 0 <= exp_frac <= 174760;
    assert(exp_int * exp_frac >= 0) by (nonlinear_arith)
        requires 0 <= exp_int, 0 <= exp_frac;
    let r = (exp_int * exp_frac) / 65536;
    r as i32
}

/// The value `sigmoid_q16` computes: 1/(1+exp(-x)) in Q16.16, evaluated with
/// `exp_q16_neg` on the non-positive one of `x` and `-x`.
pub open spec fn sigmoid_q16_spec(x: int) -> int {
    if x >= 0 {
        (65536int * 65536) / (65536 + exp_q16_neg_spec(-x))
    } else {
        let e = exp_q16_neg_spec(x);
        (e * 65536) / (65536 + e)
    }
}

/// Sigmoid in Q16.16: σ(x) = 1/(1+exp(-x)).
pub fn sigmoid_q16(x: i32) -> (r: i32)
    ensures
        r == sigmoid_q16_spec(x as int),
        0 <= r <= 65536,
{
    if x >= 0 {
        let e = exp_q16_neg(-x) as i64;
        let num: i64 = 65536 * 65536;
        let d: i64 = 65536 + e;
        assert(num / d <= 65536) by (nonlinear_arith)
            requires num == 65536 * 65536, d >= 65536;
        (num / d) as i32
    } else {
        let e = exp_q16_neg(x) as i64;
        let num: i64 = e * 65536;
        let d: i64 = 65536 + e;
        assert(0 <= num / d <= 65536) by (nonlinear_arith)
            requires num == e * 65536, d == 65536 + e, 0 <= e <= 65536;
        (num / d) as i32
    }
}

/// The value `silu_q16` computes: x·σ(x) in Q16.16, rounded toward negative infinity.
pub open spec fn silu_q16_spec(x: int) -> int {
    (x * sigmoid_q16_spec(x)) / 65536
}

/// SiLU (Swish) activation in Q16.16.
pub fn silu_q16(x: i32) -> (r: i32)
    ensures
        r == silu_q16_spec(x as int),
{
    let sig = sigmoid_q16(x) as i64;
    let xs: i64 = x as i64;
    assert(-0x8000_0000 * 65536 <= xs * sig <= 0x7fff_ffff * 65536) by (nonlinear_arith)
        requires -0x8000_0000 <= xs <= 0x7fff_ffff, 0 <= sig <= 65536;
    let p = xs * sig;
    let q = p >> 16u64;
    proof {
        lemma_shr16_i64(p);
        if xs >= 0 {
            assert(0 <= p <= xs * 65536) by (nonlinear_arith)
                requires xs >= 0, 0 <= sig <= 65536, p == xs * sig;
        } else {
            assert(xs * 65536 <= p <= 0) by (nonlinear_arith)
                requires xs < 0, 0 <= sig <= 65536, p == xs * sig;
        }
    }
    q as i32
}

/// The value `sin_q16` computes for a Q16.16 angle: the angle is reduced
/// into [0, 2π), located between two of the 256 table samples, and the two
/// samples are interpolated linearly (the correction rounded toward zero).
pub open spec fn sin_q16_spec(angle: int) -> int {
    let a = angle % 411775;
    let idx = a * 256 / 411775;
    let frac = a * 256 - idx * 411775;
    let s0 = SIN_TABLE@[idx % 256] as int;
    let s1 = SIN_TABLE@[(idx + 1) % 256] as int;
    s0 + div_trunc((s1 - s0) * frac, 411775)
}

proof fn lemma_sin_table_bounds(i: int)
    requires
        0 <= i < 256,
    ensures
        -65536 <= SIN_TABLE@[i] <= 65536,
{
}

proof fn lemma_interp_between(s0: int, s1: int, frac: int, d: int)
    requires
        d > 0,
        0 <= frac < d,
    ensures
        s0 <= s1 ==> s0 <= s0 + div_trunc((s1 - s0) * frac, d) <= s1,
        s1 <= s0 ==> s1 <= s0 + div_trunc((s1 - s0) * frac, d) <= s0,
{
    if s0 <= s1 {
        assert(0 <= (s1 - s0) * frac <= (s1 - s0) * d) by (nonlinear_arith)
            requires s0 <= s1, 0 <= frac < d;
        assert(((s1 - s0) * frac) / d <= s1 - s0) by (nonlinear_arith)
            requires 0 <= (s1 - s0) * frac <= (s1 - s0) * d, d > 0;
        assert(((s1 - s0) * frac) / d >= 0) by (nonlinear_arith)
            requires 0 <= (s1 - s0) * frac, d > 0;
    } else {
        assert(0 <= (s0 - s1) * frac <= (s0 - s1) * d) by (nonlinear_arith)
            requires s1 < s0, 0 <= frac < d;
        assert(-((s1 - s0) * frac) == (s0 - s1) * frac) by (nonlinear_arith);
        assert(((s0 - s1) * frac) / d <= s0 - s1) by (nonlinear_arith)
            requires 0 <= (s0 - s1) * frac <= (s0 - s1) * d, d > 0;
        assert(((s0 - s1) * frac) / d >= 0) by (nonlinear_arith)
            requires 0 <= (s0 - s1) * frac, d > 0;
    }
}

/// Sine lookup with linear interpolation.
pub fn sin_q16(angle_q16: i32) -> (r: i32)
    ensures
        r == sin_q16_spec(angle_q16 as int),
        -65536 <= r <= 65536,
{
    let two_pi = TWO_PI_Q16;
    let mut a = angle_q16 as i64 % two_pi;
    if a < 0 {
        a += two_pi;
    }
    assert(a == (angle_q16 as int) % 411775);
    assert(0 <= a < two_pi);
    let idx_fixed = (a * 256) / two_pi;
    assert(0 <= idx_fixed < 256);
    let idx = idx_fixed as usize;
    let frac = a * 256 - idx_fixed * two_pi;
    assert(0 <= frac < two_pi);
    proof {
        lemma_sin_table_bounds((idx % 256) as int);
        lemma_sin_table_bounds(((idx + 1) % 256) as int);
    }
    let s0 = SIN_TABLE[idx % 256] as i64;
    let s1 = SIN_TABLE[(idx + 1) % 256] as i64;
    let diff = s1 - s0;
    assert(-131072 * 411775 <= diff * frac <= 131072 * 411775) by (nonlinear_arith)
        requires -131072 <= diff <= 131072, 0 <= frac < 411775;
    let interp = s0 + (diff * frac) / two_pi;
    proof {
        lemma_interp_between(s0 as int, s1 as int, frac as int, 411775);
    }
    interp as i32
}

/// The sine of the rotary embedding, `sin_q16`, repeats every 2π (411775
/// in Q16.16), stays within [-1.0, 1.0], is 0 at 0 and 1.0 at π/2.
pub proof fn lemma_sin_q16_shape(a: int)
    ensures
        sin_q16_spec(a + 411775) == sin_q16_spec(a),
        -65536 <= sin_q16_spec(a) <= 65536,
        sin_q16_spec(0) == 0,
        sin_q16_spec(102944) == 65536,
{
    let r = a % 411775;
    vstd::arithmetic::div_mod::lemma_fundamental_div_mod_converse(a + 411775, 411775, a / 411775 + 1, r);
    let idx = r * 256 / 411775;
    assert(0 <= r * 256 < 411775 * 256) by (nonlinear_arith)
        requires 0 <= r < 411775;
    vstd::arithmetic::div_mod::lemma_div_is_ordered(0, r * 256, 411775);
    vstd::arithmetic::div_mod::lemma_div_is_ordered(r * 256, 411775 * 256 - 1, 411775);
    vstd::arithmetic::div_mod::lemma_fundamental_div_mod_converse(411775int * 256 - 1, 411775, 255, 411774);
    let frac = r * 256 - idx * 411775;
    vstd::arithmetic::div_mod::lemma_fundamental_div_mod(r * 256, 411775);
    lemma_sin_table_bounds(idx % 256);
    lemma_sin_table_bounds((idx + 1) % 256);
    lemma_interp_between(SIN_TABLE@[idx % 256] as int, SIN_TABLE@[(idx + 1) % 256] as int, frac, 411775);
    vstd::arithmetic::div_mod::lemma_fundamental_div_mod_converse(0int, 411775, 0, 0);
    vstd::arithmetic::div_mod::lemma_fundamental_div_mod_converse(102944int, 411775, 0, 102944);
    vstd::arithmetic::div_mod::lemma_fundamental_div_mod_converse(102944int * 256, 411775, 64, 64);
    assert(SIN_TABLE@[64] == 65536);
    assert(SIN_TABLE@[65] == 65516);
    assert(div_trunc((65516 - 65536) * 64, 411775) == 0);
}

/// The value `cos_q16` computes: the sine of the angle advanced by π/2, the
/// addition wrapping around the `i32` range.
pub open spec fn cos_q16_spec(angle: i32) -> int {
    sin_q16_spec(angle.wrapping_add(HALF_PI_Q16) as int)
}

/// Cosine via sin(angle + π/2).
pub fn cos_q16(angle_q16: i32) -> (r: i32)
    ensures
        r == cos_q16_spec(angle_q16),
        -65536 <= r <= 65536,
{
    sin_q16(angle_q16.wrapping_add(HALF_PI_Q16))
}

/// The `i64` range, inside which Rust's `i64` arithmetic does not overflow.
pub open spec fn in_i64(v: int) -> bool {
    i64::MIN <= v <= i64::MAX
}

/// A byte read as a two's-complement `i8`.
pub open spec fn i8_value(b: u8) -> int {
    if b < 128 { b as int } else { b as int - 256 }
}

/// The four bytes at `off`, read as a little-endian unsigned integer.
pub open spec fn le_u32_value(b: Seq<u8>, off: int) -> int {
    b[off] as int + 256 * (b[off + 1] as int) + 65536 * (b[off + 2] as int) + 16777216 * (
    b[off + 3] as int)
}

/// The four bytes at `off`, read as a little-endian two's-complement `i32`.
pub open spec fn le_i32_value(b: Seq<u8>, off: int) -> int {
    let u = le_u32_value(b, off);
    if u < 0x8000_0000 { u } else { u - 0x1_0000_0000 }
}

/// Reads the little-endian `i32` stored at `off`.
pub fn read_le_i32(bytes: &[u8], off: usize) -> (v: i32)
    requires
        off + 4 <= bytes@.len(),
    ensures
        v == le_i32_value(bytes@, off as int),
{
    let u: u32 = bytes[off] as u32 + (bytes[off + 1] as u32) * 256 + (bytes[off + 2] as u32)
        * 65536 + (bytes[off + 3] as u32) * 16777216;
    if u < 0x8000_0000 {
        u as i32
    } else {
        (u as i64 - 0x1_0000_0000) as i32
    }
}

/// The partial dot product of `n` INT8 weights starting at `wbase` with the
/// activations starting at `xbase`.
pub open spec fn group_dot(w: Seq<u8>, x: Seq<i32>, wbase: int, xbase: int, n: nat) -> int
    decreases n,
{
    if n == 0 {
        0
    } else {
        group_dot(w, x, wbase, xbase, (n - 1) as nat) + i8_value(w[wbase + n - 1]) * x[xbase + n
            - 1] as int
    }
}

/// Group `g` of row `r` of an INT8 matrix with `cols` columns and quantization
/// groups of `gs` columns: its dot product with the activations, before scaling.
pub open spec fn q8_group_dot(w: Seq<u8>, x: Seq<i32>, r: int, g: int, cols: int, gs: int) -> int {
    group_dot(w, x, r * cols + g * gs, g * gs, gs as nat)
}

/// The Q16.16 scale of group `g` of row `r`, with `ng` groups per row.
pub open spec fn q8_scale(scales: Seq<u8>, r: int, g: int, ng: int) -> int {
    le_i32_value(scales, r * ng * 4 + g * 4)
}

/// Group `g`'s contribution to row `r`: its dot product times its scale,
/// shifted down by 16 bits (floor division).
pub open spec fn q8_group_term(
    w: Seq<u8>,
    scales: Seq<u8>,
    x: Seq<i32>,
    r: int,
    g: int,
    cols: int,
    gs: int,
) -> int {
    q8_group_dot(w, x, r, g, cols, gs) * q8_scale(scales, r, g, cols / gs) / 65536
}

/// The accumulated contributions of the first `g` groups of row `r`.
pub open spec fn q8_row_sum(
    w: Seq<u8>,
    scales: Seq<u8>,
    x: Seq<i32>,
    r: int,
    cols: int,
    gs: int,
    g: nat,
) -> int
    decreases g,
{
    if g == 0 {
        0
    } else {
        q8_row_sum(w, scales, x, r, cols, gs, (g - 1) as nat) + q8_group_term(
            w,
            scales,
            x,
            r,
            g - 1,
            cols,
            gs,
        )
    }
}

/// Every running sum that the group `g` of row `r` forms stays in the `i64` range.
pub open spec fn q8_group_fits(
    w: Seq<u8>,
    scales: Seq<u8>,
    x: Seq<i32>,
    r: int,
    g: int,
    cols: int,
    gs: int,
) -> bool {
    &&& forall|j: nat| j <= gs ==> in_i64(#[trigger] group_dot(w, x, r * cols + g * gs, g * gs, j))
    &&& in_i64(q8_group_dot(w, x, r, g, cols, gs) * q8_scale(scales, r, g, cols / gs))
}

/// Every running sum that `matmul_q8` forms stays in the `i64` range: the
/// inputs on which its `i64` arithmetic does not overflow.
pub open spec fn matmul_q8_fits(
    w: Seq<u8>,
    scales: Seq<u8>,
    x: Seq<i32>,
    rows: int,
    cols: int,
    gs: int,
) -> bool {
    &&& forall|r: int, g: int|
        0 <= r < rows && 0 <= g < cols / gs ==> #[trigger] q8_group_fits(w, scales, x, r, g, cols, gs)
    &&& forall|r: int, g: nat|
        0 <= r < rows && g <= cols / gs ==> in_i64(#[trigger] q8_row_sum(w, scales, x, r, cols, gs, g))
}

/// The shapes `matmul_q8` needs: every weight, scale, activation and output
/// it touches exists, and its index arithmetic fits in `usize`.
pub open spec fn matmul_q8_shapes(
    out_len: int,
    input_len: int,
    w_len: int,
    scales_len: int,
    rows: int,
    cols: int,
    gs: int,
) -> bool {
    &&& gs > 0
    &&& rows <= out_len
    &&& rows > 0 ==> (rows - 1) * cols <= usize::MAX
    &&& rows > 0 ==> cols / gs * gs <= input_len
    &&& rows > 0 && cols / gs > 0 ==> (rows - 1) * cols + cols / gs * gs <= w_len
    &&& rows * (cols / gs) * 4 <= scales_len
}

proof fn lemma_group_index(r: int, rows: int, cols: int, g: int, ng: int, gs: int, j: int)
    requires
        0 <= r < rows,
        0 <= g < ng,
        0 <= j < gs,
        cols >= 0,
    ensures
        r * cols <= (rows - 1) * cols,
        g * gs + j < ng * gs,
        0 <= g * gs,
        0 <= r * cols,
{
    assert(r * cols <= (rows - 1) * cols) by (nonlinear_arith)
        requires 0 <= r <= rows - 1, cols >= 0;
    assert(g * gs + j < (g + 1) * gs) by (nonlinear_arith)
        requires j < gs;
    assert((g + 1) * gs <= ng * gs) by (nonlinear_arith)
        requires g + 1 <= ng, gs > 0;
    assert(0 <= g * gs) by (nonlinear_arith)
        requires 0 <= g, gs > 0;
    assert(0 <= r * cols) by (nonlinear_arith)
        requires 0 <= r, cols >= 0;
}

proof fn lemma_scale_index(r: int, rows: int, g: int, ng: int)
    requires
        0 <= r < rows,
        0 <= g < ng,
    ensures
        0 <= r * ng * 4 + g * 4,
        r * ng * 4 + g * 4 + 4 <= rows * ng * 4,
{
    assert(r * ng * 4 + g * 4 + 4 <= (r + 1) * ng * 4) by (nonlinear_arith)
        requires g < ng;
    assert((r + 1) * ng * 4 <= rows * ng * 4) by (nonlinear_arith)
        requires r + 1 <= rows, ng >= 0;
    assert(0 <= r * ng * 4) by (nonlinear_arith)
        requires r >= 0, ng >= 0;
}

/// Matrix-vector multiply with INT8 quantized weights: `out[r]` becomes the
/// sum over groups of (INT8 dot product × Q16.16 scale) >> 16, truncated to `i32`.
pub fn matmul_q8(
    out: &mut [i32],
    input: &[i32],
    w_data: &[u8],
    w_scales: &[u8],
    rows: usize,
    cols: usize,
    gs: usize,
)
    requires
        matmul_q8_shapes(
            old(out)@.len() as int,
            input@.len() as int,
            w_data@.len() as int,
            w_scales@.len() as int,
            rows as int,
            cols as int,
            gs as int,
        ),
        matmul_q8_fits(w_data@, w_scales@, input@, rows as int, cols as int, gs as int),
    ensures
        final(out)@.len() == old(out)@.len(),
        forall|r: int|
            0 <= r < rows ==> final(out)@[r] == (q8_row_sum(
                w_data@,
                w_scales@,
                input@,
                r,
                cols as int,
                gs as int,
                (cols / gs) as nat,
            ) as i32),
        forall|r: int| rows <= r < old(out)@.len() ==> final(out)@[r] == old(out)@[r],
{
    let n_groups = cols / gs;
    assert(n_groups * gs <= cols) by (nonlinear_arith)
        requires n_groups == cols / gs, gs > 0;
    let w_len = w_data.len();
    let scales_len = w_scales.len();
    for r in 0..rows
        invariant
            w_len == w_data@.len(),
            scales_len == w_scales@.len(),
            n_groups == cols / gs,
            n_groups * gs <= cols,
            out@.len() == old(out)@.len(),
            matmul_q8_shapes(
                old(out)@.len() as int,
                input@.len() as int,
                w_data@.len() as int,
                w_scales@.len() as int,
                rows as int,
                cols as int,
                gs as int,
            ),
            matmul_q8_fits(w_data@, w_scales@, input@, rows as int, cols as int, gs as int),
            forall|rr: int|
                0 <= rr < r ==> out@[rr] == (q8_row_sum(
                    w_data@,
                    w_scales@,
                    input@,
                    rr,
                    cols as int,
                    gs as int,
                    n_groups as nat,
                ) as i32),
            forall|rr: int| r <= rr < old(out)@.len() ==> out@[rr] == old(out)@[rr],
    {
        let mut row_acc: i64 = 0;
        assert(r * cols <= (rows - 1) * cols) by (nonlinear_arith)
            requires 0 <= r < rows, cols >= 0;
        let row_base = r * cols;
        proof {
            lemma_scale_index(r as int, rows as int, 0, n_groups as int + 1);
            assert(r * n_groups * 4 <= rows * n_groups * 4) by (nonlinear_arith)
                requires r < rows, n_groups >= 0;
        }
        let scale_row_base = r * n_groups * 4;
        for g in 0..n_groups
            invariant
                w_len == w_data@.len(),
                scales_len == w_scales@.len(),
                n_groups == cols / gs,
                n_groups * gs <= cols,
                0 <= r < rows,
                row_base == r * cols,
                scale_row_base == r * n_groups * 4,
                matmul_q8_shapes(
                    old(out)@.len() as int,
                    input@.len() as int,
                    w_data@.len() as int,
                    w_scales@.len() as int,
                    rows as int,
                    cols as int,
                    gs as int,
                ),
                matmul_q8_fits(w_data@, w_scales@, input@, rows as int, cols as int, gs as int),
                row_acc == q8_row_sum(
                    w_data@,
                    w_scales@,
                    input@,
                    r as int,
                    cols as int,
                    gs as int,
                    g as nat,
                ),
        {
            proof {
                lemma_scale_index(r as int, rows as int, g as int, n_groups as int);
                lemma_group_index(r as int, rows as int, cols as int, g as int, n_groups as int, gs as int, 0);
                assert(q8_group_fits(w_data@, w_scales@, input@, r as int, g as int, cols as int, gs as int));
            }
            let sb = scale_row_base + g * 4;
            let scale = read_le_i32(w_scales, sb) as i64;
            let data_base = row_base + g * gs;
            let x_base = g * gs;
            let mut group_acc: i64 = 0;
            for j in 0..gs
                invariant
                    w_len == w_data@.len(),
                    n_groups == cols / gs,
                    n_groups * gs <= cols,
                    0 <= r < rows,
                    0 <= g < n_groups,
                    row_base == r * cols,
                    data_base == r * cols + g * gs,
                    x_base == g * gs,
                    matmul_q8_shapes(
                        old(out)@.len() as int,
                        input@.len() as int,
                        w_data@.len() as int,
                        w_scales@.len() as int,
                        rows as int,
                        cols as int,
                        gs as int,
                    ),
                    q8_group_fits(w_data@, w_scales@, input@, r as int, g as int, cols as int, gs as int),
                    group_acc == group_dot(w_data@, input@, data_base as int, x_base as int, j as nat),
            {
                proof {
                    lemma_group_index(r as int, rows as int, cols as int, g as int, n_groups as int, gs as int, j as int);
                    assert(in_i64(group_dot(w_data@, input@, data_base as int, x_base as int, (j + 1) as nat)));
                }
                let b = w_data[data_base + j];
                let w: i64 = if b < 128 { b as i64 } else { b as i64 - 256 };
                let x = input[x_base + j] as i64;
                assert(-128 * 0x8000_0000 <= w * x <= 128 * 0x8000_0000) by (nonlinear_arith)
                    requires -128 <= w <= 127, -0x8000_0000 <= x <= 0x7fff_ffff;
                group_acc += w * x;
            }
            let p = group_acc * scale;
            proof {
                lemma_shr16_i64(p);
                assert(in_i64(q8_row_sum(w_data@, w_scales@, input@, r as int, cols as int, gs as int, (g + 1) as nat)));
            }
            row_acc += p >> 16u64;
        }
        out[r] = row_acc as i32;
    }
}

/// The sum of the squares of the first `n` values.
pub open spec fn sum_squares(x: Seq<i32>, n: nat) -> int
    decreases n,
{
    if n == 0 {
        0
    } else {
        sum_squares(x, (n - 1) as nat) + x[n - 1] as int * x[n - 1] as int
    }
}

/// The reciprocal root-mean-square factor that `rmsnorm_q16` applies, in Q16.16:
/// 2^32 / isqrt(mean of squares + ε), with ε = 42950 (1e-5 in Q32.32).
pub open spec fn rmsnorm_rsqrt(x: Seq<i32>, dim: nat) -> int {
    0x1_0000_0000int / isqrt_spec((sum_squares(x, dim) / (dim as int) + 42950) as nat) as int
}

/// The normalized value of `x` before the weight is applied: x·rsqrt >> 16.
pub open spec fn rmsnorm_x_norm(x: int, rsqrt: int) -> int {
    x * rsqrt / 65536
}

/// The inputs on which `rmsnorm_q16` does not overflow: the sum of squares
/// and the mean plus ε fit in `u64`, and each weighted product fits in `i64`.
pub open spec fn rmsnorm_fits(x: Seq<i32>, weight: Seq<u8>, dim: nat) -> bool {
    &&& sum_squares(x, dim) <= u64::MAX
    &&& sum_squares(x, dim) / (dim as int) + 42950 <= u64::MAX
    &&& forall|i: int|
        0 <= i < dim ==> in_i64(
            #[trigger] rmsnorm_x_norm(x[i] as int, rmsnorm_rsqrt(x, dim)) * le_i32_value(weight, i * 4),
        )
}

proof fn lemma_sum_squares_mono(x: Seq<i32>, a: nat, b: nat)
    requires
        a <= b <= x.len(),
    ensures
        0 <= sum_squares(x, a) <= sum_squares(x, b),
    decreases b,
{
    if a < b {
        lemma_sum_squares_mono(x, a, (b - 1) as nat);
        assert(x[b - 1] as int * x[b - 1] as int >= 0) by (nonlinear_arith);
    } else if b > 0 {
        lemma_sum_squares_mono(x, 0, (b - 1) as nat);
        assert(x[b - 1] as int * x[b - 1] as int >= 0) by (nonlinear_arith);
    }
}

proof fn lemma_div_bound(n: int, d: int, lo: int)
    requires
        n >= 0,
        d >= lo > 0,
    ensures
        0 <= n / d <= n / lo,
{
    assert(0 <= n / d) by (nonlinear_arith)
        requires n >= 0, d > 0;
    assert((n / d) * d <= n) by (nonlinear_arith)
        requires n >= 0, d > 0;
    assert((n / d) * lo <= (n / d) * d) by (nonlinear_arith)
        requires n / d >= 0, d >= lo;
    assert(n / d <= n / lo) by (nonlinear_arith)
        requires (n / d) * lo <= n, lo > 0, n / d >= 0;
}

/// RMS normalization in Q16.16 fixed-point: `out[i]` becomes
/// ((x[i]·rsqrt >> 16)·weight[i]) >> 16, weights read as little-endian `i32`s.
pub fn rmsnorm_q16(out: &mut [i32], input: &[i32], weight: &[u8], dim: usize)
    requires
        dim > 0,
        dim <= old(out)@.len(),
        dim <= input@.len(),
        dim * 4 <= weight@.len(),
        rmsnorm_fits(input@, weight@, dim as nat),
    ensures
        final(out)@.len() == old(out)@.len(),
        forall|i: int|
            0 <= i < dim ==> final(out)@[i] == (rmsnorm_x_norm(
                input@[i] as int,
                rmsnorm_rsqrt(input@, dim as nat),
            ) * le_i32_value(weight@, i * 4) / 65536) as i32,
        forall|i: int| dim <= i < old(out)@.len() ==> final(out)@[i] == old(out)@[i],
{
    let mut ss: u64 = 0;
    for i in 0..dim
        invariant
            dim <= input@.len(),
            rmsnorm_fits(input@, weight@, dim as nat),
            ss == sum_squares(input@, i as nat),
    {
        proof {
            lemma_sum_squares_mono(input@, (i + 1) as nat, dim as nat);
        }
        let xi = input[i] as i64;
        assert(0 <= xi * xi <= 0x4000_0000_0000_0000) by (nonlinear_arith)
            requires -0x8000_0000 <= xi <= 0x7fff_ffff;
        ss += (xi * xi) as u64;
    }
    let mean_sq = ss / dim as u64;
    let mean_sq_eps = mean_sq + 42950;
    let rms_q16 = isqrt_u64(mean_sq_eps);
    if rms_q16 == 0 {
        assert(false) by (nonlinear_arith)
            requires
                rms_q16 == 0,
                mean_sq_eps >= 42950,
                (rms_q16 + 1) * (rms_q16 + 1) > mean_sq_eps,
        ;
        for i in 0..dim
            invariant
                dim <= out@.len(),
        {
            out[i] = 0;
        }
        return;
    }
    let rsqrt_u = 0x1_0000_0000u64 / rms_q16;
    assert(rsqrt_u <= 0x1_0000_0000);
    let rsqrt_q16 = rsqrt_u as i64;
    assert(rsqrt_q16 == rmsnorm_rsqrt(input@, dim as nat));
    assert(rms_q16 >= 207) by (nonlinear_arith)
        requires
            mean_sq_eps >= 42950,
            (rms_q16 + 1) * (rms_q16 + 1) > mean_sq_eps,
    ;
    proof {
        lemma_div_bound(0x1_0000_0000, rms_q16 as int, 207);
        assert(0x1_0000_0000int / 207 == 20748634) by (nonlinear_arith);
    }
    assert(0 <= rsqrt_q16 <= 20748634);
    let weight_len = weight.len();
    for i in 0..dim
        invariant
            weight_len == weight@.len(),
            dim <= out@.len(),
            dim <= input@.len(),
            dim * 4 <= weight@.len(),
            out@.len() == old(out)@.len(),
            0 <= rsqrt_q16 <= 20748634,
            rsqrt_q16 == rmsnorm_rsqrt(input@, dim as nat),
            rmsnorm_fits(input@, weight@, dim as nat),
            forall|j: int|
                0 <= j < i ==> out@[j] == (rmsnorm_x_norm(
                    input@[j] as int,
                    rmsnorm_rsqrt(input@, dim as nat),
                ) * le_i32_value(weight@, j * 4) / 65536) as i32,
            forall|j: int| dim <= j < old(out)@.len() ==> out@[j] == old(out)@[j],
    {
        let wb = i * 4;
        let w = read_le_i32(weight, wb) as i64;
        let x = input[i] as i64;
        assert(-0x8000_0000 * 20748634 <= x * rsqrt_q16 <= 0x7fff_ffff * 20748634) by (nonlinear_arith)
            requires -0x8000_0000 <= x <= 0x7fff_ffff, 0 <= rsqrt_q16 <= 20748634;
        let xr = x * rsqrt_q16;
        proof {
            lemma_shr16_i64(xr);
        }
        let x_norm = xr >> 16u64;
        assert(in_i64(rmsnorm_x_norm(input@[i as int] as int, rmsnorm_rsqrt(input@, dim as nat))
            * le_i32_value(weight@, i * 4)));
        let p = x_norm * w;
        proof {
            lemma_shr16_i64(p);
        }
        out[i] = (p >> 16u64) as i32;
    }
}

/// The largest of the first `n` values (`n >= 1`).
pub open spec fn seq_max(x: Seq<i32>, n: nat) -> int
    decreases n,
{
    if n <= 1 {
        x[0] as int
    } else {
        let m = seq_max(x, (n - 1) as nat);
        if x[n - 1] > m {
            x[n - 1] as int
        } else {
            m
        }
    }
}

/// The sum of exp(x[i] - m) over the first `n` values, as `exp_q16_neg` computes it.
pub open spec fn exp_sum(x: Seq<i32>, m: int, n: nat) -> int
    decreases n,
{
    if n == 0 {
        0
    } else {
        exp_sum(x, m, (n - 1) as nat) + exp_q16_neg_spec(x[n - 1] - m)
    }
}

/// The sum of the first `n` values.
pub open spec fn seq_sum(x: Seq<i32>, n: nat) -> int
    decreases n,
{
    if n == 0 {
        0
    } else {
        seq_sum(x, (n - 1) as nat) + x[n - 1] as int
    }
}

/// The inputs on which `softmax_q16` does not overflow: every difference to
/// the maximum fits in `i32`, and the sum of the exponentials fits in `i64`.
pub open spec fn softmax_fits(x: Seq<i32>, len: nat) -> bool {
    &&& forall|i: int| 0 <= i < len ==> x[i] - seq_max(x, len) >= i32::MIN
    &&& exp_sum(x, seq_max(x, len), len) <= i64::MAX
}

proof fn lemma_seq_max(x: Seq<i32>, n: nat)
    requires
        1 <= n <= x.len(),
    ensures
        forall|i: int| 0 <= i < n ==> x[i] <= seq_max(x, n),
        exists|i: int| 0 <= i < n && x[i] == seq_max(x, n),
    decreases n,
{
    if n > 1 {
        lemma_seq_max(x, (n - 1) as nat);
        let i = choose|i: int| 0 <= i < n - 1 && x[i] == seq_max(x, (n - 1) as nat);
        if x[n - 1] > seq_max(x, (n - 1) as nat) {
            assert(x[n - 1] == seq_max(x, n));
        } else {
            assert(x[i] == seq_max(x, n));
        }
    } else {
        assert(x[0] == seq_max(x, n));
    }
}

proof fn lemma_exp_sum_mono(x: Seq<i32>, m: int, a: nat, b: nat)
    requires
        a <= b,
    ensures
        0 <= exp_sum(x, m, a) <= exp_sum(x, m, b),
    decreases b,
{
    if a < b {
        lemma_exp_sum_mono(x, m, a, (b - 1) as nat);
        lemma_exp_nonneg(x[b - 1] - m);
    } else if b > 0 {
        lemma_exp_sum_mono(x, m, 0, (b - 1) as nat);
        lemma_exp_nonneg(x[b - 1] - m);
    }
}

proof fn lemma_exp_nonneg(v: int)
    ensures
        0 <= exp_q16_neg_spec(v) <= 65536,
{
    if v < 0 {
        let x_int = v / 65536;
        if -x_int < 17 {
            lemma_exp_table_bounds(-x_int);
            let f = v - x_int * 65536;
            assert(0 <= f < 65536);
            assert(f * f <= 65535 * 65535) by (nonlinear_arith)
                requires 0 <= f < 65536;
            let f2 = f * f / 65536;
            assert(f2 * f <= 65535 * 65535) by (nonlinear_arith)
                requires 0 <= f < 65536, 0 <= f2 < 65536;
            let f3 = f2 * f / 65536;
            let frac = 65536 + f + f2 / 2 + f3 / 6;
            assert(0 <= EXP_TABLE@[-x_int] * frac <= 24109 * 174760) by (nonlinear_arith)
                requires 0 <= EXP_TABLE@[-x_int] <= 24109, 0 <= frac <= 174760;
        }
    }
}

/// The cubic polynomial `exp_q16_neg` takes on a fractional part `f`.
spec fn exp_frac(f: int) -> int {
    let f2 = f * f / 65536;
    let f3 = f2 * f / 65536;
    65536 + f + f2 / 2 + f3 / 6
}

proof fn lemma_exp_frac_mono(f: int, g: int)
    requires
        0 <= f <= g < 65536,
    ensures
        65536 <= exp_frac(f) <= exp_frac(g) <= 174760,
{
    assert(f * f <= g * g) by (nonlinear_arith)
        requires 0 <= f <= g;
    assert(g * g <= 65535 * 65535) by (nonlinear_arith)
        requires 0 <= g < 65536;
    assert(0 <= f * f) by (nonlinear_arith);
    vstd::arithmetic::div_mod::lemma_div_is_ordered(f * f, g * g, 65536);
    vstd::arithmetic::div_mod::lemma_div_is_ordered(g * g, 65535int * 65535, 65536);
    vstd::arithmetic::div_mod::lemma_div_is_ordered(0, f * f, 65536);
    let f2 = f * f / 65536;
    let g2 = g * g / 65536;
    vstd::arithmetic::div_mod::lemma_fundamental_div_mod_converse(65535int * 65535, 65536, 65534, 1);
    assert(g2 <= 65534);
    assert(0 <= f2 * f <= g2 * g) by (nonlinear_arith)
        requires 0 <= f <= g, 0 <= f2 <= g2;
    assert(g2 * g <= 65534 * 65535) by (nonlinear_arith)
        requires 0 <= g < 65536, 0 <= g2 <= 65534;
    vstd::arithmetic::div_mod::lemma_div_is_ordered(f2 * f, g2 * g, 65536);
    vstd::arithmetic::div_mod::lemma_div_is_ordered(g2 * g, 65534int * 65535, 65536);
    vstd::arithmetic::div_mod::lemma_div_is_ordered(0, f2 * f, 65536);
    let f3 = f2 * f / 65536;
    let g3 = g2 * g / 65536;
    vstd::arithmetic::div_mod::lemma_fundamental_div_mod_converse(65534int * 65535, 65536, 65533, 2);
    assert(g3 <= 65533);
    vstd::arithmetic::div_mod::lemma_div_is_ordered(f2, g2, 2);
    vstd::arithmetic::div_mod::lemma_div_is_ordered(f3, g3, 6);
    vstd::arithmetic::div_mod::lemma_div_is_ordered(g2, 65534, 2);
    vstd::arithmetic::div_mod::lemma_div_is_ordered(g3, 65533, 6);
}

/// Where `exp_q16_neg` lies on the unit interval that holds a negative `x`
/// (before it reaches zero): between the table value at the interval's
/// integer part and that value times the polynomial's largest value.
proof fn lemma_exp_interval(x: int)
    requires
        x < 0,
        -(x / 65536) < 17,
    ensures
        1 <= -(x / 65536),
        EXP_TABLE@[-(x / 65536)] <= exp_q16_neg_spec(x) <= EXP_TABLE@[-(x / 65536)] * 174760 / 65536,
{
    let i = -(x / 65536);
    lemma_exp_table_bounds(i);
    let f = x - (x / 65536) * 65536;
    lemma_exp_frac_mono(f, f);
    assert(exp_q16_neg_spec(x) == EXP_TABLE@[i] * exp_frac(f) / 65536);
    assert(EXP_TABLE@[i] * 65536 <= EXP_TABLE@[i] * exp_frac(f) <= EXP_TABLE@[i] * 174760) by (nonlinear_arith)
        requires 0 <= EXP_TABLE@[i], 65536 <= exp_frac(f) <= 174760;
    vstd::arithmetic::div_mod::lemma_div_is_ordered(EXP_TABLE@[i] * 65536, EXP_TABLE@[i] * exp_frac(f), 65536);
    vstd::arithmetic::div_mod::lemma_div_is_ordered(EXP_TABLE@[i] * exp_frac(f), EXP_TABLE@[i] * 174760, 65536);
    assert(EXP_TABLE@[i] * 65536 / 65536 == EXP_TABLE@[i]) by (nonlinear_arith);
}

/// The exponential of the attention and activation code, `exp_q16_neg`,
/// stays within [0, 1.0], is 1.0 for every non-negative argument and 0
/// below -16.0, and never decreases as its argument grows.
pub proof fn lemma_exp_q16_neg_shape(x: int, y: int)
    ensures
        0 <= exp_q16_neg_spec(x) <= 65536,
        x >= 0 ==> exp_q16_neg_spec(x) == 65536,
        x < -16 * 65536 ==> exp_q16_neg_spec(x) == 0,
        x <= y ==> exp_q16_neg_spec(x) <= exp_q16_neg_spec(y),
{
    lemma_exp_nonneg(x);
    lemma_exp_nonneg(y);
    if x <= y && x < 0 && y < 0 {
        let ix = -(x / 65536);
        let iy = -(y / 65536);
        vstd::arithmetic::div_mod::lemma_div_is_ordered(x, y, 65536);
        if ix < 17 {
            lemma_exp_interval(x);
            lemma_exp_interval(y);
            if ix == iy {
                let fx = x - (x / 65536) * 65536;
                let fy = y - (y / 65536) * 65536;
                lemma_exp_frac_mono(fx, fy);
                lemma_exp_table_bounds(ix);
                assert(EXP_TABLE@[ix] * exp_frac(fx) <= EXP_TABLE@[ix] * exp_frac(fy)) by (nonlinear_arith)
                    requires 0 <= EXP_TABLE@[ix], exp_frac(fx) <= exp_frac(fy);
                vstd::arithmetic::div_mod::lemma_div_is_ordered(
                    EXP_TABLE@[ix] * exp_frac(fx),
                    EXP_TABLE@[ix] * exp_frac(fy),
                    65536,
                );
            } else {
                lemma_exp_table_steps(ix, iy);
            }
        }
    }
    if x < -16 * 65536 {
        vstd::arithmetic::div_mod::lemma_div_is_ordered(x, -16 * 65536 - 1, 65536);
    }
}

/// Past one unit interval the exponential is below the table value of the
/// next integer up, and the table decreases.
proof fn lemma_exp_table_steps(i: int, j: int)
    requires
        1 <= j < i < 17,
    ensures
        EXP_TABLE@[i] * 174760 / 65536 <= EXP_TABLE@[j],
{
    assert(EXP_TABLE@[1] * 174760 / 65536 <= EXP_TABLE@[0]);
    assert(EXP_TABLE@[2] * 174760 / 65536 <= EXP_TABLE@[1]);
    assert(EXP_TABLE@[3] * 174760 / 65536 <= EXP_TABLE@[2]);
    assert(EXP_TABLE@[4] * 174760 / 65536 <= EXP_TABLE@[3]);
    assert(EXP_TABLE@[5] * 174760 / 65536 <= EXP_TABLE@[4]);
    assert(EXP_TABLE@[6] * 174760 / 65536 <= EXP_TABLE@[5]);
    assert(EXP_TABLE@[7] * 174760 / 65536 <= EXP_TABLE@[6]);
    assert(EXP_TABLE@[8] * 174760 / 65536 <= EXP_TABLE@[7]);
    assert(EXP_TABLE@[9] * 174760 / 65536 <= EXP_TABLE@[8]);
    assert(EXP_TABLE@[10] * 174760 / 65536 <= EXP_TABLE@[9]);
    assert(EXP_TABLE@[11] * 174760 / 65536 <= EXP_TABLE@[10]);
    assert(EXP_TABLE@[12] * 174760 / 65536 <= EXP_TABLE@[11]);
    assert(EXP_TABLE@[13] * 174760 / 65536 <= EXP_TABLE@[12]);
    assert(EXP_TABLE@[14] * 174760 / 65536 <= EXP_TABLE@[13]);
    assert(EXP_TABLE@[15] * 174760 / 65536 <= EXP_TABLE@[14]);
    assert(EXP_TABLE@[16] * 174760 / 65536 <= EXP_TABLE@[15]);
}

proof fn lemma_exp_sum_with(x: Seq<i32>, m: int, n: nat, k: int)
    requires
        0 <= k < n,
        x[k] == m,
    ensures
        exp_sum(x, m, n) >= 65536,
    decreases n,
{
    if k < n - 1 {
        lemma_exp_sum_with(x, m, (n - 1) as nat, k);
        lemma_exp_nonneg(x[n - 1] - m);
    } else {
        lemma_exp_sum_mono(x, m, 0, (n - 1) as nat);
    }
}

/// The normalized exponentials `softmax_q16` writes: exp(x[i] - max)·2^16 / sum, rounded down.
pub open spec fn softmax_value(x: Seq<i32>, len: nat, i: int) -> int {
    exp_q16_neg_spec(x[i] - seq_max(x, len)) * 65536 / exp_sum(x, seq_max(x, len), len)
}

/// The sum of the first `n` normalized exponentials.
pub open spec fn softmax_partial_sum(x: Seq<i32>, len: nat, n: nat) -> int
    decreases n,
{
    if n == 0 {
        0
    } else {
        softmax_partial_sum(x, len, (n - 1) as nat) + softmax_value(x, len, n - 1)
    }
}

proof fn lemma_softmax_partial_sum(x: Seq<i32>, len: nat, n: nat)
    requires
        n <= len,
        exp_sum(x, seq_max(x, len), len) > 0,
    ensures
        softmax_partial_sum(x, len, n) * exp_sum(x, seq_max(x, len), len) <= exp_sum(
            x,
            seq_max(x, len),
            n,
        ) * 65536,
        softmax_partial_sum(x, len, n) >= 0,
    decreases n,
{
    if n > 0 {
        lemma_softmax_partial_sum(x, len, (n - 1) as nat);
        let s = exp_sum(x, seq_max(x, len), len);
        let e = exp_q16_neg_spec(x[n - 1] - seq_max(x, len));
        lemma_exp_nonneg(x[n - 1] - seq_max(x, len));
        let q = e * 65536 / s;
        assert(q * s <= e * 65536 && q >= 0) by (nonlinear_arith)
            requires q == e * 65536 / s, s > 0, e >= 0;
        let p = softmax_partial_sum(x, len, (n - 1) as nat);
        assert((p + q) * s == p * s + q * s) by (nonlinear_arith);
        assert(exp_sum(x, seq_max(x, len), n) * 65536 == exp_sum(x, seq_max(x, len), (n - 1) as nat)
            * 65536 + e * 65536);
    }
}

/// Softmax in Q16.16, operating in-place on the first `len` values.
///
/// The outputs are non-negative and sum to at most 1.0 (65536).
pub fn softmax_q16(x: &mut [i32], len: usize)
    requires
        len <= old(x)@.len(),
        len >= 2 ==> softmax_fits(old(x)@, len as nat),
    ensures
        final(x)@.len() == old(x)@.len(),
        len == 1 ==> final(x)@[0] == 65536,
        len >= 2 ==> forall|i: int|
            0 <= i < len ==> final(x)@[i] == softmax_value(old(x)@, len as nat, i),
        len >= 2 ==> seq_sum(final(x)@, len as nat) <= 65536,
        forall|i: int| 0 <= i < len ==> 0 <= #[trigger] final(x)@[i] <= 65536,
        forall|i: int, j: int|
            0 <= i < len && 0 <= j < len && old(x)@[i] <= old(x)@[j] ==> #[trigger] final(x)@[i] <= #[trigger] final(x)@[j],
        forall|i: int| len <= i < old(x)@.len() ==> final(x)@[i] == old(x)@[i],
{
    if len == 0 {
        return;
    }
    if len == 1 {
        x[0] = Q16_ONE;
        return;
    }
    let ghost x0 = x@;
    let mut max_val = x[0];
    for i in 1..len
        invariant
            len <= x@.len(),
            x@ == x0,
            max_val == seq_max(x0, i as nat),
    {
        if x[i] > max_val {
            max_val = x[i];
        }
    }
    proof {
        lemma_seq_max(x0, len as nat);
    }
    let mut sum: i64 = 0;
    for i in 0..len
        invariant
            2 <= len <= x@.len(),
            x@.len() == x0.len(),
            max_val == seq_max(x0, len as nat),
            forall|j: int| 0 <= j < len ==> x0[j] <= max_val,
            softmax_fits(x0, len as nat),
            sum == exp_sum(x0, max_val as int, i as nat),
            forall|j: int| 0 <= j < i ==> x@[j] == exp_q16_neg_spec(x0[j] - max_val),
            forall|j: int| i <= j < x@.len() ==> x@[j] == x0[j],
    {
        proof {
            lemma_exp_sum_mono(x0, max_val as int, (i + 1) as nat, len as nat);
        }
        let e = exp_q16_neg(x[i] - max_val);
        x[i] = e;
        sum += e as i64;
    }
    proof {
        let k = choose|k: int| 0 <= k < len && x0[k] == seq_max(x0, len as nat);
        lemma_exp_sum_with(x0, max_val as int, len as nat, k);
    }
    if sum == 0 {
        x[0] = Q16_ONE;
        return;
    }
    for i in 0..len
        invariant
            2 <= len <= x@.len(),
            x@.len() == x0.len(),
            max_val == seq_max(x0, len as nat),
            sum == exp_sum(x0, max_val as int, len as nat),
            sum >= 65536,
            forall|j: int| 0 <= j < i ==> x@[j] == softmax_value(x0, len as nat, j),
            forall|j: int| 0 <= j < i ==> x@[j] >= 0,
            forall|j: int| i <= j < len ==> x@[j] == exp_q16_neg_spec(x0[j] - max_val),
            forall|j: int| len <= j < x@.len() ==> x@[j] == x0[j],
    {
        proof {
            lemma_exp_nonneg(x0[i as int] - max_val);
        }
        let e = x[i] as i64;
        let num: i64 = e * 65536;
        assert(0 <= num / sum <= 65536) by (nonlinear_arith)
            requires 0 <= e <= 65536, num == e * 65536, sum >= 65536;
        x[i] = (num / sum) as i32;
    }
    proof {
        lemma_softmax_partial_sum(x0, len as nat, len as nat);
        assert(softmax_partial_sum(x0, len as nat, len as nat) <= 65536) by (nonlinear_arith)
            requires
                softmax_partial_sum(x0, len as nat, len as nat) * sum <= sum * 65536,
                sum > 0,
        ;
        lemma_seq_sum_softmax(x@, x0, len as nat, len as nat);
        lemma_softmax_shape(x0, len as nat);
        assert forall|i: int| 0 <= i < len implies 0 <= #[trigger] x@[i] <= 65536 by {
            assert(x@[i] == softmax_value(x0, len as nat, i));
        }
        assert forall|i: int, j: int|
            0 <= i < len && 0 <= j < len && x0[i] <= x0[j] implies #[trigger] x@[i] <= #[trigger] x@[j] by {
            assert(x@[i] == softmax_value(x0, len as nat, i));
            assert(x@[j] == softmax_value(x0, len as nat, j));
        }
    }
}

proof fn lemma_exp_in_sum(x: Seq<i32>, m: int, n: nat, k: int)
    requires
        0 <= k < n,
    ensures
        exp_q16_neg_spec(x[k] - m) <= exp_sum(x, m, n),
    decreases n,
{
    if k < n - 1 {
        lemma_exp_in_sum(x, m, (n - 1) as nat, k);
        lemma_exp_nonneg(x[n - 1] - m);
    } else {
        lemma_exp_sum_mono(x, m, 0, (n - 1) as nat);
    }
}

/// Each softmax output lies in [0, 1.0], and a larger input never gets a
/// smaller output.
proof fn lemma_softmax_shape(x: Seq<i32>, len: nat)
    requires
        2 <= len <= x.len(),
    ensures
        forall|i: int| 0 <= i < len ==> 0 <= #[trigger] softmax_value(x, len, i) <= 65536,
        forall|i: int, j: int|
            0 <= i < len && 0 <= j < len && x[i] <= x[j] ==> #[trigger] softmax_value(x, len, i)
                <= #[trigger] softmax_value(x, len, j),
{
    let m = seq_max(x, len);
    lemma_seq_max(x, len);
    let k = choose|k: int| 0 <= k < len && x[k] == seq_max(x, len);
    lemma_exp_sum_with(x, m, len, k);
    let s = exp_sum(x, m, len);
    assert forall|i: int| 0 <= i < len implies 0 <= #[trigger] softmax_value(x, len, i) <= 65536 by {
        let e = exp_q16_neg_spec(x[i] - m);
        lemma_exp_nonneg(x[i] - m);
        lemma_exp_in_sum(x, m, len, i);
        assert(0 <= e * 65536 / s <= 65536) by (nonlinear_arith)
            requires 0 <= e <= s, s >= 65536;
    }
    assert forall|i: int, j: int|
        0 <= i < len && 0 <= j < len && x[i] <= x[j] implies #[trigger] softmax_value(x, len, i)
            <= #[trigger] softmax_value(x, len, j) by {
        lemma_exp_q16_neg_shape(x[i] - m, x[j] - m);
        let ei = exp_q16_neg_spec(x[i] - m);
        let ej = exp_q16_neg_spec(x[j] - m);
        assert(ei * 65536 <= ej * 65536) by (nonlinear_arith)
            requires ei <= ej;
        vstd::arithmetic::div_mod::lemma_div_is_ordered(ei * 65536, ej * 65536, s);
    }
}

proof fn lemma_seq_sum_softmax(y: Seq<i32>, x0: Seq<i32>, len: nat, n: nat)
    requires
        n <= len <= y.len(),
        forall|j: int| 0 <= j < len ==> y[j] == softmax_value(x0, len, j),
    ensures
        seq_sum(y, n) == softmax_partial_sum(x0, len, n),
    decreases n,
{
    if n > 0 {
        lemma_seq_sum_softmax(y, x0, len, (n - 1) as nat);
    }
}

/// The RoPE frequency of pair `i`: the table value, 0 past the table.
pub open spec fn rope_freq(i: int) -> int {
    if i < 32 { ROPE_FREQS_64@[i] as int } else { 0 }
}

/// The rotation angle of pair `i` at position `pos`, reduced (as Rust's `%`
/// does) modulo 2π.
pub open spec fn rope_theta(pos: usize, i: int) -> i32 {
    rem_trunc((pos as i64) * rope_freq(i), TWO_PI_Q16 as int) as i32
}

/// The first element of pair `i` after rotation: (v0·cos − v1·sin) >> 16.
#[verifier::opaque]
pub open spec fn rope_first(v0: int, v1: int, pos: usize, i: int) -> i32 {
    ((v0 * cos_q16_spec(rope_theta(pos, i)) - v1 * sin_q16_spec(rope_theta(pos, i) as int)) / 65536) as i32
}

/// The second element of pair `i` after rotation: (v0·sin + v1·cos) >> 16.
#[verifier::opaque]
pub open spec fn rope_second(v0: int, v1: int, pos: usize, i: int) -> i32 {
    ((v0 * sin_q16_spec(rope_theta(pos, i) as int) + v1 * cos_q16_spec(rope_theta(pos, i))) / 65536) as i32
}

/// Pair `i` of `new` is pair `i` of `old` rotated for position `pos`.
pub open spec fn rope_pair_rotated(new: Seq<i32>, old: Seq<i32>, pos: usize, i: int) -> bool {
    &&& new[2 * i] == rope_first(old[2 * i] as int, old[2 * i + 1] as int, pos, i)
    &&& new[2 * i + 1] == rope_second(old[2 * i] as int, old[2 * i + 1] as int, pos, i)
}

/// The positions on which `rope_apply_q16` does not overflow: each angle
/// product `pos · freq` fits in `i64`.
pub open spec fn rope_fits(pos: usize, n_pairs: int) -> bool {
    forall|i: int| 0 <= i < n_pairs ==> in_i64(#[trigger] ((pos as i64) * rope_freq(i)))
}

/// Rotates one pair for position `pos` and pair index `i`.
fn rope_rotate_pair(v0: i32, v1: i32, pos: usize, i: usize) -> (r: (i32, i32))
    requires
    in_i64((pos as i64) * rope_freq(i as int)),
    ensures
    r.0 == rope_first(v0 as int, v1 as int, pos, i as int),
    r.1 == rope_second(v0 as int, v1 as int, pos, i as int),
{
    let freq: i64 = if i < 32 {
        ROPE_FREQS_64[i] as i64
    } else {
        0i64
    };
    let theta_q16 = ((pos as i64 * freq) % TWO_PI_Q16) as i32;
    let cos_val = cos_q16(theta_q16) as i64;
    let sin_val = sin_q16(theta_q16) as i64;
    let v0 = v0 as i64;
    let v1 = v1 as i64;
    assert(-0x8000_0000 * 65536 <= v0 * cos_val <= 0x8000_0000 * 65536) by (nonlinear_arith)
        requires -0x8000_0000 <= v0 <= 0x7fff_ffff, -65536 <= cos_val <= 65536;
    assert(-0x8000_0000 * 65536 <= v1 * sin_val <= 0x8000_0000 * 65536) by (nonlinear_arith)
        requires -0x8000_0000 <= v1 <= 0x7fff_ffff, -65536 <= sin_val <= 65536;
    assert(-0x8000_0000 * 65536 <= v0 * sin_val <= 0x8000_0000 * 65536) by (nonlinear_arith)
        requires -0x8000_0000 <= v0 <= 0x7fff_ffff, -65536 <= sin_val <= 65536;
    assert(-0x8000_0000 * 65536 <= v1 * cos_val <= 0x8000_0000 * 65536) by (nonlinear_arith)
        requires -0x8000_0000 <= v1 <= 0x7fff_ffff, -65536 <= cos_val <= 65536;
    let a = v0 * cos_val - v1 * sin_val;
    let b = v0 * sin_val + v1 * cos_val;
    proof {
        lemma_shr16_i64(a);
        lemma_shr16_i64(b);
        reveal(rope_first);
        reveal(rope_second);
    }
    ((a >> 16u64) as i32, (b >> 16u64) as i32)
}

/// Apply RoPE to a single attention head vector: each pair
/// (v[2i], v[2i+1]) is rotated by the angle pos·freq(i).
pub fn rope_apply_q16(vec: &mut [i32], pos: usize, head_dim: usize)
    requires
        head_dim / 2 * 2 <= old(vec)@.len(),
        rope_fits(pos, (head_dim / 2) as int),
    ensures
        final(vec)@.len() == old(vec)@.len(),
        forall|i: int|
            0 <= i < head_dim / 2 ==> #[trigger] rope_pair_rotated(final(vec)@, old(vec)@, pos, i),
        forall|j: int| head_dim / 2 * 2 <= j < old(vec)@.len() ==> final(vec)@[j] == old(vec)@[j],
{
    let n_pairs = head_dim / 2;
    let ghost v0s = vec@;
    for i in 0..n_pairs
        invariant
            n_pairs == head_dim / 2,
            n_pairs * 2 <= v0s.len(),
            vec@.len() == v0s.len(),
            rope_fits(pos, n_pairs as int),
            forall|k: int| 0 <= k < i ==> #[trigger] rope_pair_rotated(vec@, v0s, pos, k),
            forall|j: int| 2 * i <= j < vec@.len() ==> vec@[j] == v0s[j],
    {
        assert(in_i64((pos as i64) * rope_freq(i as int)));
        let (a, b) = rope_rotate_pair(vec[2 * i], vec[2 * i + 1], pos, i);
        let ghost before = vec@;
        vec[2 * i] = a;
        vec[2 * i + 1] = b;
        assert forall|k: int| 0 <= k < i + 1 implies #[trigger] rope_pair_rotated(vec@, v0s, pos, k) by {
            if k < i {
                assert(rope_pair_rotated(before, v0s, pos, k));
                assert(vec@[2 * k] == before[2 * k]);
                assert(vec@[2 * k + 1] == before[2 * k + 1]);
            }
        }
    }
}

/// Element-wise multiply in Q16.16: `out[i]` becomes (a[i]·b[i]) >> 16, truncated to `i32`.
pub fn elementwise_mul_q16(out: &mut [i32], a: &[i32], b: &[i32], len: usize)
    requires
        len <= old(out)@.len(),
        len <= a@.len(),
        len <= b@.len(),
    ensures
        final(out)@.len() == old(out)@.len(),
        forall|i: int|
            0 <= i < len ==> final(out)@[i] == ((a@[i] as int * b@[i] as int) / 65536) as i32,
        forall|i: int| len <= i < old(out)@.len() ==> final(out)@[i] == old(out)@[i],
{
    for i in 0..len
        invariant
            len <= out@.len(),
            len <= a@.len(),
            len <= b@.len(),
            out@.len() == old(out)@.len(),
            forall|j: int|
                0 <= j < i ==> out@[j] == ((a@[j] as int * b@[j] as int) / 65536) as i32,
            forall|j: int| i <= j < old(out)@.len() ==> out@[j] == old(out)@[j],
    {
        let p = mul_i32_wide(a[i], b[i]);
        proof {
            lemma_shr16_i64(p);
        }
        out[i] = (p >> 16u64) as i32;
    }
}

/// The exact product of two `i32`s, which always fits in `i64`.
fn mul_i32_wide(a: i32, b: i32) -> (p: i64)
    ensures
        p == a as int * b as int,
{
    let x = a as i64;
    let y = b as i64;
    assert(-0x4000_0000_0000_0000 <= x * y <= 0x4000_0000_0000_0000) by (nonlinear_arith)
        requires -0x8000_0000 <= x <= 0x7fff_ffff, -0x8000_0000 <= y <= 0x7fff_ffff;
    x * y
}

/// Vector addition with wrap-around on `i32` overflow.
pub fn vec_add_q16(out: &mut [i32], a: &[i32], b: &[i32], len: usize)
    requires
        len <= old(out)@.len(),
        len <= a@.len(),
        len <= b@.len(),
    ensures
        final(out)@.len() == old(out)@.len(),
        forall|i: int| 0 <= i < len ==> final(out)@[i] == a@[i].wrapping_add(b@[i]),
        forall|i: int| len <= i < old(out)@.len() ==> final(out)@[i] == old(out)@[i],
{
    for i in 0..len
        invariant
            len <= out@.len(),
            len <= a@.len(),
            len <= b@.len(),
            out@.len() == old(out)@.len(),
            forall|j: int| 0 <= j < i ==> out@[j] == a@[j].wrapping_add(b@[j]),
            forall|j: int| i <= j < old(out)@.len() ==> out@[j] == old(out)@[j],
    {
        out[i] = a[i].wrapping_add(b[i]);
    }
}

/// Apply SiLU activation in-place to the first `len` values.
pub fn silu_vec_q16(vec: &mut [i32], len: usize)
    requires
        len <= old(vec)@.len(),
    ensures
        final(vec)@.len() == old(vec)@.len(),
        forall|i: int| 0 <= i < len ==> final(vec)@[i] == silu_q16_spec(old(vec)@[i] as int),
        forall|i: int| len <= i < old(vec)@.len() ==> final(vec)@[i] == old(vec)@[i],
{
    for i in 0..len
        invariant
            len <= vec@.len(),
            vec@.len() == old(vec)@.len(),
            forall|j: int| 0 <= j < i ==> vec@[j] == silu_q16_spec(old(vec)@[j] as int),
            forall|j: int| i <= j < old(vec)@.len() ==> vec@[j] == old(vec)@[j],
    {
        vec[i] = silu_q16(vec[i]);
    }
}

/// In-place element-wise multiply in Q16.16: `a[i]` becomes (a[i]·b[i]) >> 16.
pub fn elementwise_mul_inplace_q16(a: &mut [i32], b: &[i32], len: usize)
    requires
        len <= old(a)@.len(),
        len <= b@.len(),
    ensures
        final(a)@.len() == old(a)@.len(),
        forall|i: int|
            0 <= i < len ==> final(a)@[i] == ((old(a)@[i] as int * b@[i] as int) / 65536) as i32,
        forall|i: int| len <= i < old(a)@.len() ==> final(a)@[i] == old(a)@[i],
{
    for i in 0..len
        invariant
            len <= a@.len(),
            len <= b@.len(),
            a@.len() == old(a)@.len(),
            forall|j: int|
                0 <= j < i ==> a@[j] == ((old(a)@[j] as int * b@[j] as int) / 65536) as i32,
            forall|j: int| i <= j < old(a)@.len() ==> a@[j] == old(a)@[j],
    {
        let p = mul_i32_wide(a[i], b[i]);
        proof {
            lemma_shr16_i64(p);
        }
        a[i] = (p >> 16u64) as i32;
    }
}

/// Find the index of the maximum value among the first `len` (argmax);
/// ties go to the earliest index, and 0 is returned when `len` is 0.
pub fn argmax_q16(data: &[i32], len: usize) -> (best: usize)
    requires
        len <= 1 || len <= data@.len(),
    ensures
        len == 0 ==> best == 0,
        len >= 1 ==> best < len,
        len >= 2 ==> forall|j: int| 0 <= j < len ==> data@[j] <= data@[best as int],
        len >= 2 ==> forall|j: int| 0 <= j < best ==> data@[j] < data@[best as int],
        len == 1 ==> best == 0,
{
    let mut best: usize = 0;
    if len < 2 {
        return 0;
    }
    for i in 1..len
        invariant
            2 <= len <= data@.len(),
            best < i,
            forall|j: int| 0 <= j < i ==> data@[j] <= data@[best as int],
            forall|j: int| 0 <= j < best ==> data@[j] < data@[best as int],
    {
        if data[i] > data[best] {
            best = i;
        }
    }
    best
}

} // verus!
