//! IEEE-754 numbers held as bit patterns.
//!
//! The engine's decisions never need hardware floating point: a number is its
//! bit pattern, and the operations here are integer arithmetic on it. The
//! value of a finite number is an exact integer multiple of the format's
//! smallest step (2^-149 for [`F32`], 2^-1074 for [`F64`]), so contracts can
//! speak of exact sums and products and of their nearest representable
//! neighbour.
use vstd::arithmetic::div_mod::*;
use vstd::arithmetic::mul::*;
use vstd::arithmetic::power2::*;
use vstd::bits::*;
use vstd::prelude::*;

verus! {

// --- mathematics of rounding -------------------------------------------------

/// The magnitude of a sign-free bit pattern with `w` fraction bits, counted in
/// steps of the format's smallest positive number.
pub open spec fn magnitude(b: nat, w: nat) -> nat {
    let e = b / pow2(w);
    let f = b % pow2(w);
    if e == 0 {
        f
    } else {
        (f + pow2(w)) * pow2((e - 1) as nat)
    }
}

/// The multiple of `u` nearest to `x`, counted in units of `u`; ties go to the
/// even multiple.
pub open spec fn round_even(x: nat, u: nat) -> nat {
    let q = x / u;
    let r = x % u;
    if 2 * r > u || (2 * r == u && q % 2 == 1) {
        q + 1
    } else {
        q
    }
}

/// Around `num / den`, numbers with `p` significant bits are spaced `2^t`
/// apart; none are spaced closer than 1.
pub open spec fn is_spacing(num: nat, den: nat, p: nat, t: nat) -> bool {
    &&& num < den * pow2(t + p)
    &&& t == 0 || num >= den * pow2((t + p - 1) as nat)
}

/// The exponent of that spacing.
pub open spec fn spacing(num: nat, den: nat, p: nat) -> nat {
    choose|t: nat| is_spacing(num, den, p, t)
}

/// The bit pattern, for `w` fraction bits, of the number nearest to
/// `num / den` (both counted in the format's smallest steps), ties to even.
/// Past the largest finite number it is infinity, the pattern `top * 2^w`.
pub open spec fn nearest_bits(num: nat, den: nat, w: nat, top: nat) -> nat {
    let t = spacing(num, den, w + 1);
    let b = t * pow2(w) + round_even(num, den * pow2(t));
    if b < top * pow2(w) {
        b
    } else {
        top * pow2(w)
    }
}

proof fn lemma_spacing_unique(num: nat, den: nat, p: nat, t: nat)
    requires
        p > 0,
        is_spacing(num, den, p, t),
    ensures
        spacing(num, den, p) == t,
{
    let s = spacing(num, den, p);
    assert(is_spacing(num, den, p, s));
    if s < t {
        lemma_pow2_le(s + p, (t + p - 1) as nat);
        lemma_mul_inequality(pow2(s + p) as int, pow2((t + p - 1) as nat) as int, den as int);
        lemma_mul_is_commutative(den as int, pow2(s + p) as int);
        lemma_mul_is_commutative(den as int, pow2((t + p - 1) as nat) as int);
    } else if t < s {
        lemma_pow2_le(t + p, (s + p - 1) as nat);
        lemma_mul_inequality(pow2(t + p) as int, pow2((s + p - 1) as nat) as int, den as int);
        lemma_mul_is_commutative(den as int, pow2(t + p) as int);
        lemma_mul_is_commutative(den as int, pow2((s + p - 1) as nat) as int);
    }
}

proof fn lemma_pow2_le(a: nat, b: nat)
    requires
        a <= b,
    ensures
        pow2(a) <= pow2(b),
{
    if a < b {
        lemma_pow2_strictly_increases(a, b);
    }
}

/// Larger bit patterns stand for larger magnitudes.
pub proof fn magnitude_is_increasing(a: nat, b: nat, w: nat)
    requires
        a < b,
    ensures
        magnitude(a, w) < magnitude(b, w),
{
    lemma_pow2_pos(w);
    let p = pow2(w);
    let (ea, eb) = (a / p, b / p);
    let (fa, fb) = (a % p, b % p);
    lemma_fundamental_div_mod(a as int, p as int);
    lemma_fundamental_div_mod(b as int, p as int);
    lemma_div_is_ordered(a as int, b as int, p as int);
    if ea == eb {
        if ea > 0 {
            lemma_pow2_pos((ea - 1) as nat);
            lemma_mul_strict_inequality((fa + p) as int, (fb + p) as int, pow2((ea - 1) as nat) as int);
        }
    } else {
        lemma_pow2_pos((eb - 1) as nat);
        lemma_mul_inequality(p as int, (fb + p) as int, pow2((eb - 1) as nat) as int);
        if ea == 0 {
            lemma_mul_inequality(1, pow2((eb - 1) as nat) as int, p as int);
            lemma_mul_is_commutative(p as int, pow2((eb - 1) as nat) as int);
        } else {
            lemma_pow2_pos((ea - 1) as nat);
            lemma_mul_strict_inequality((fa + p) as int, (2 * p) as int, pow2((ea - 1) as nat) as int);
            lemma_pow2_unfold(ea);
            assert((2 * p) * pow2((ea - 1) as nat) == p * pow2(ea)) by (nonlinear_arith)
                requires
                    pow2(ea) == 2 * pow2((ea - 1) as nat),
            ;
            lemma_pow2_le(ea, (eb - 1) as nat);
            lemma_mul_inequality(pow2(ea) as int, pow2((eb - 1) as nat) as int, p as int);
            lemma_mul_is_commutative(p as int, pow2(ea) as int);
            lemma_mul_is_commutative(p as int, pow2((eb - 1) as nat) as int);
        }
    }
}

/// The pattern `k * 2^w + q` stands for `q * 2^k` steps.
proof fn lemma_encode(q: nat, k: nat, w: nat)
    requires
        q <= 2 * pow2(w),
        q >= pow2(w) || k == 0,
    ensures
        magnitude(k * pow2(w) + q, w) == q * pow2(k),
{
    let p = pow2(w);
    lemma_pow2_pos(w);
    lemma_pow2_unfold(k + 1);
    assert(pow2(0) == 1) by {
        lemma2_to64();
    }
    let b = k * p + q;
    if q < p {
        assert(b == q);
        lemma_small_mod(q, p);
        lemma_basic_div(q as int, p as int);
        assert(q * 1 == q);
    } else if q < 2 * p {
        let f = (q - p) as nat;
        assert(b == (k + 1) * p + f) by (nonlinear_arith)
            requires
                b == k * p + q,
                f == q - p,
        ;
        lemma_mul_is_commutative((k + 1) as int, p as int);
        lemma_fundamental_div_mod_converse(b as int, p as int, (k + 1) as int, f as int);
    } else {
        assert(b == (k + 2) * p) by (nonlinear_arith)
            requires
                b == k * p + q,
                q == 2 * p,
        ;
        lemma_mul_is_commutative((k + 2) as int, p as int);
        lemma_fundamental_div_mod_converse(b as int, p as int, (k + 2) as int, 0);
        assert((0 + p) * pow2(k + 1) == q * pow2(k)) by (nonlinear_arith)
            requires
                pow2(k + 1) == 2 * pow2(k),
                q == 2 * p,
        ;
    }
}

/// Rounding does not change under a common factor.
proof fn lemma_round_scale(x: nat, u: nat, c: nat)
    requires
        u > 0,
        c > 0,
    ensures
        round_even(x * c, u * c) == round_even(x, u),
{
    let q = x / u;
    let r = x % u;
    lemma_fundamental_div_mod(x as int, u as int);
    assert(u * c > 0) by (nonlinear_arith)
        requires
            u > 0,
            c > 0,
    ;
    assert(x * c == (u * c) * q + r * c) by (nonlinear_arith)
        requires
            x == u * q + r,
    ;
    assert(0 <= r * c < u * c) by (nonlinear_arith)
        requires
            0 <= r < u,
            c > 0,
    ;
    lemma_fundamental_div_mod_converse((x * c) as int, (u * c) as int, q as int, (r * c) as int);
    assert(2 * r > u <==> 2 * (r * c) > u * c) by (nonlinear_arith)
        requires
            c > 0,
    ;
    assert(2 * r == u <==> 2 * (r * c) == u * c) by (nonlinear_arith)
        requires
            c > 0,
    ;
}

/// A multiple of the unit rounds to itself.
proof fn lemma_round_exact(q: nat, u: nat)
    requires
        u > 0,
    ensures
        round_even(q * u, u) == q,
{
    lemma_mul_is_commutative(q as int, u as int);
    lemma_fundamental_div_mod_converse((q * u) as int, u as int, q as int, 0);
}

// --- integer helpers -----------------------------------------------------------

proof fn lemma_one_shl(n: u128)
    requires
        n < 128,
    ensures
        (1u128 << n) == pow2(n as nat),
    decreases n,
{
    lemma2_to64();
    if n == 0 {
        assert((1u128 << 0u128) == 1u128) by (bit_vector);
    } else {
        let m: u128 = (n - 1) as u128;
        assert((1u128 << n) == 2 * (1u128 << m)) by (bit_vector)
            requires
                0 < n < 128,
                m == n - 1,
        ;
        lemma_one_shl(m);
        lemma_pow2_unfold(n as nat);
    }
}

/// 2^n.
fn exp2(n: u32) -> (r: u128)
    requires
        n < 128,
    ensures
        r == pow2(n as nat),
{
    proof {
        lemma_one_shl(n as u128);
    }
    1u128 << (n as u128)
}

/// Number of significant bits of `x`.
fn bit_len(x: u128) -> (p: u32)
    ensures
        p <= 128,
        x < pow2(p as nat),
        x > 0 ==> p > 0 && x >= pow2((p - 1) as nat),
        x == 0 ==> p == 0,
{
    let mut y: u128 = x;
    let mut p: u32 = 0;
    proof {
        lemma2_to64();
    }
    while y >= 0x1_0000
        invariant
            p <= 112,
            p % 16 == 0,
            y >= 0x1_0000 ==> p <= 96,
            y > 0 || x == 0,
            x >= y * pow2(p as nat),
            x < (y + 1) * pow2(p as nat),
            x == 0 ==> p == 0,
        decreases y,
    {
        proof {
            let pp = pow2(p as nat);
            let h = y / 0x1_0000;
            lemma_pow2_pos(p as nat);
            lemma_pow2_adds(p as nat, 16);
            lemma2_to64();
            assert(y * pp >= h * (pp * 0x1_0000)) by (nonlinear_arith)
                requires
                    y >= 0x1_0000 * h,
                    pp > 0,
            ;
            assert((y + 1) * pp <= (h + 1) * (pp * 0x1_0000)) by (nonlinear_arith)
                requires
                    y + 1 <= 0x1_0000 * (h + 1),
                    pp > 0,
            ;
            assert(x >= y) by (nonlinear_arith)
                requires
                    x >= y * pp,
                    pp >= 1,
            ;
            if h >= 0x1_0000 && p == 96 {
                lemma_pow2_adds(96, 16);
                lemma_pow2_adds(56, 56);
                lemma2_to64_rest();
                assert(h * pow2(112) >= 0x1_0000 * pow2(112)) by (nonlinear_arith)
                    requires
                        h >= 0x1_0000,
                        pow2(112) > 0,
                ;
            }
        }
        y = y / 0x1_0000;
        p = p + 16;
    }
    while y > 0
        invariant
            p <= 128,
            x >= y * pow2(p as nat),
            x < (y + 1) * pow2(p as nat),
            y == 0 && x > 0 ==> p > 0 && x >= pow2((p - 1) as nat),
            x == 0 ==> p == 0,
        decreases y,
    {
        proof {
            lemma_pow2_unfold((p + 1) as nat);
            lemma_pow2_pos(p as nat);
            let pp = pow2(p as nat);
            assert(x >= pp) by (nonlinear_arith)
                requires
                    x >= y * pp,
                    y > 0,
                    pp > 0,
            ;
            if p == 128 {
                assert(pow2(128) == pow2(64) * pow2(64)) by {
                    lemma_pow2_adds(64, 64);
                }
                lemma2_to64();
                assert(pow2(64) == 0x1_0000_0000_0000_0000);
                assert(pow2(128) == 0x1_0000_0000_0000_0000 * 0x1_0000_0000_0000_0000);
            }
            let h = y / 2;
            assert(y * pp >= h * (2 * pp)) by (nonlinear_arith)
                requires
                    y >= 2 * h,
                    pp > 0,
            ;
            assert((y + 1) * pp <= (h + 1) * (2 * pp)) by (nonlinear_arith)
                requires
                    y + 1 <= 2 * (h + 1),
                    pp > 0,
            ;
        }
        y = y / 2;
        p = p + 1;
    }
    proof {
        assert(x < 1 * pow2(p as nat));
    }
    p
}

/// `x / 2^s`, nearest, ties to even.
fn round_shift(x: u128, s: u32) -> (q: u128)
    requires
        x < pow2(120),
    ensures
        q == round_even(x as nat, pow2(s as nat)),
        q <= x || q <= 1,
{
    if s > 121 {
        proof {
            lemma_pow2_strictly_increases(121, s as nat);
            lemma_pow2_unfold(121);
            lemma_small_mod(x as nat, pow2(s as nat));
            lemma_basic_div(x as int, pow2(s as nat) as int);
        }
        return 0;
    }
    let u = exp2(s);
    proof {
        lemma_pow2_pos(s as nat);
        lemma_pow2_le(s as nat, 121);
        assert(pow2(121) == pow2(60) * pow2(61)) by {
            lemma_pow2_adds(60, 61);
        }
        lemma2_to64_rest();
        lemma_pow2_unfold(121);
        assert(pow2(121) < 0x0200_0000_0000_0000_0000_0000_0000_0001);
    }
    proof {
        lemma_u128_shr_is_div(x, s as u128);
        lemma_fundamental_div_mod(x as int, u as int);
        lemma_mul_is_commutative(u as int, x as int / u as int);
    }
    let q: u128 = x >> (s as u128);
    let r: u128 = x - q * u;
    proof {
        lemma_div_nonincreasing(x as int, u as int);
        lemma_mod_division_less_than_divisor(x as int, u as int);
        if q == x && x > 0 {
            lemma_fundamental_div_mod(x as int, u as int);
            assert(r == 0) by (nonlinear_arith)
                requires
                    x == u * q + r,
                    q == x,
                    u >= 1,
                    x > 0,
                    r >= 0,
            ;
        }
    }
    if 2 * r > u || (2 * r == u && q % 2 == 1) {
        q + 1
    } else {
        q
    }
}

/// The rounded significand fits `w + 1` bits, and fills them above the
/// smallest spacing.
proof fn lemma_significand_range(num: nat, den: nat, w: nat, t: nat)
    requires
        den > 0,
        is_spacing(num, den, w + 1, t),
    ensures
        round_even(num, den * pow2(t)) <= 2 * pow2(w),
        t > 0 ==> round_even(num, den * pow2(t)) >= pow2(w),
{
    let u = den * pow2(t);
    lemma_pow2_pos(t);
    assert(u > 0) by (nonlinear_arith)
        requires
            u == den * pow2(t),
            den > 0,
            pow2(t) > 0,
    ;
    lemma_fundamental_div_mod(num as int, u as int);
    lemma_pow2_adds(t, w + 1);
    lemma_pow2_unfold(w + 1);
    lemma_mul_is_associative(den as int, pow2(t) as int, pow2(w + 1) as int);
    assert(num / u < pow2(w + 1)) by (nonlinear_arith)
        requires
            num == u * (num / u) + num % u,
            num % u >= 0,
            num < u * pow2(w + 1),
            u > 0,
    ;
    if t > 0 {
        lemma_pow2_adds(t, w);
        lemma_mul_is_associative(den as int, pow2(t) as int, pow2(w) as int);
        assert(t + w == (t + (w + 1) - 1) as nat);
        assert(num / u >= pow2(w)) by (nonlinear_arith)
            requires
                num == u * (num / u) + num % u,
                num % u < u,
                num >= u * pow2(w),
                u > 0,
        ;
    }
}

/// `nearest_bits` stands for the multiple of the local spacing nearest to
/// `num / den`, wherever that is below infinity.
pub proof fn nearest_bits_is_nearest(num: nat, den: nat, w: nat, top: nat, t: nat)
    requires
        den > 0,
        is_spacing(num, den, w + 1, t),
    ensures
        ({
            let m = round_even(num, den * pow2(t)) * pow2(t);
            let inf = top * pow2(w);
            let r = nearest_bits(num, den, w, top);
            &&& r <= inf
            &&& r < inf <==> m < magnitude(inf, w)
            &&& r < inf ==> magnitude(r, w) == m
        }),
{
    lemma_spacing_unique(num, den, w + 1, t);
    lemma_significand_range(num, den, w, t);
    let q = round_even(num, den * pow2(t));
    let b = t * pow2(w) + q;
    let inf = top * pow2(w);
    lemma_encode(q, t, w);
    if b < inf {
        magnitude_is_increasing(b, inf, w);
    } else if inf < b {
        magnitude_is_increasing(inf, b, w);
    }
}

/// The bit pattern nearest to `m * 2^e` steps of `2^base`, for a format with
/// `w` fraction bits and all-ones exponent `top`.
fn pack(m: u128, e: u32, w: u32, base: u32, top: u64) -> (r: u64)
    requires
        m < pow2(120),
        e <= 4100,
        base <= 4100,
        0 < w <= 52,
        top <= 2047,
    ensures
        r == nearest_bits(m as nat * pow2(e as nat), pow2(base as nat), w as nat, top as nat),
{
    let ghost x: nat = m as nat * pow2(e as nat);
    let ghost den: nat = pow2(base as nat);
    let ghost pr: nat = (w + 1) as nat;
    let p = bit_len(m);
    // exponent of the spacing, counted from the scale of m * 2^e
    let s: u32 = if m > 0 && e + p > base + w + 1 {
        e + p - w - 1
    } else {
        base
    };
    let t: u32 = s - base;
    proof {
        lemma_pow2_pos(e as nat);
        lemma_pow2_pos(base as nat);
        lemma_pow2_pos(t as nat + pr);
        lemma_pow2_adds(base as nat, t as nat + pr);
        if m > 0 {
            lemma_pow2_adds(p as nat, e as nat);
            lemma_mul_strict_inequality(m as int, pow2(p as nat) as int, pow2(e as nat) as int);
            lemma_pow2_le((p + e) as nat, s as nat + pr);
        } else {
            assert(x == 0) by (nonlinear_arith)
                requires
                    x == m as nat * pow2(e as nat),
                    m == 0,
            ;
            lemma_pow2_pos(s as nat + pr);
        }
        assert(base as nat + (t as nat + pr) == s as nat + pr);
        if t > 0 {
            lemma_pow2_adds((p - 1) as nat, e as nat);
            lemma_mul_inequality(pow2((p - 1) as nat) as int, m as int, pow2(e as nat) as int);
            lemma_pow2_adds(base as nat, (t + pr - 1) as nat);
            assert((p - 1) as nat + e as nat == base as nat + (t + pr - 1) as nat);
        }
        assert(is_spacing(x, den, pr, t as nat));
        lemma_spacing_unique(x, den, pr, t as nat);
        lemma_significand_range(x, den, w as nat, t as nat);
        lemma_pow2_adds(base as nat, t as nat);
        lemma_pow2_pos(s as nat);
    }
    let q: u128 = if s >= e {
        let q = round_shift(m, s - e);
        proof {
            lemma_pow2_adds((s - e) as nat, e as nat);
            lemma_pow2_pos((s - e) as nat);
            lemma_round_scale(m as nat, pow2((s - e) as nat), pow2(e as nat));
        }
        q
    } else if m == 0 {
        proof {
            lemma_round_exact(0, pow2(s as nat));
            assert(0 * pow2(s as nat) == 0) by (nonlinear_arith);
        }
        0
    } else {
        proof {
            // the significand has room for e - s more bits
            lemma_pow2_adds(p as nat, (e - s) as nat);
            lemma_pow2_pos((e - s) as nat);
            lemma_mul_strict_inequality(m as int, pow2(p as nat) as int, pow2((e - s) as nat) as int);
            lemma_pow2_le((p + e - s) as nat, pr);
            lemma_pow2_le(pr, 53);
            lemma2_to64_rest();
        }
        let f = exp2(e - s);
        proof {
            lemma_pow2_adds((e - s) as nat, s as nat);
            lemma_mul_is_associative(m as int, f as int, pow2(s as nat) as int);
            lemma_round_exact((m * f) as nat, pow2(s as nat));
        }
        m * f
    };
    let one = exp2(w);
    proof {
        let pw = pow2(w as nat);
        lemma_pow2_le(w as nat, 52);
        lemma2_to64_rest();
        assert(t * pw <= 5000 * pw) by (nonlinear_arith)
            requires
                t <= 5000,
        ;
        assert(top * pw <= 2047 * pw) by (nonlinear_arith)
            requires
                top <= 2047,
        ;
    }
    let bits: u128 = (t as u128) * one + q;
    let inf: u128 = (top as u128) * one;
    if bits < inf {
        bits as u64
    } else {
        inf as u64
    }
}

// --- bit patterns with a sign --------------------------------------------------

/// Weight of the sign bit.
pub open spec fn sign_bit(w: nat, top: nat) -> nat {
    (top + 1) * pow2(w)
}

pub open spec fn is_negative(b: nat, w: nat, top: nat) -> bool {
    b >= sign_bit(w, top)
}

/// The pattern without its sign.
pub open spec fn unsigned(b: nat, w: nat, top: nat) -> nat {
    if is_negative(b, w, top) {
        (b - sign_bit(w, top)) as nat
    } else {
        b
    }
}

pub open spec fn with_sign(neg: bool, b: nat, w: nat, top: nat) -> nat {
    if neg {
        b + sign_bit(w, top)
    } else {
        b
    }
}

pub open spec fn is_infinity(b: nat, w: nat, top: nat) -> bool {
    unsigned(b, w, top) == top * pow2(w)
}

pub open spec fn is_not_a_number(b: nat, w: nat, top: nat) -> bool {
    unsigned(b, w, top) > top * pow2(w)
}

/// The quiet not-a-number pattern that operations produce.
pub open spec fn not_a_number(w: nat, top: nat) -> nat {
    top * pow2(w) + pow2((w - 1) as nat)
}

/// Value in smallest steps; infinities lie beyond every finite value.
pub open spec fn value(b: nat, w: nat, top: nat) -> int {
    let m = magnitude(unsigned(b, w, top), w) as int;
    if is_negative(b, w, top) {
        -m
    } else {
        m
    }
}

/// A bit pattern of the format.
pub open spec fn is_pattern(b: nat, w: nat, top: nat) -> bool {
    b < 2 * sign_bit(w, top)
}

/// Sum, correctly rounded.
pub open spec fn sum_bits(a: nat, b: nat, w: nat, top: nat) -> nat {
    if is_not_a_number(a, w, top) || is_not_a_number(b, w, top) {
        not_a_number(w, top)
    } else if is_infinity(a, w, top) {
        if is_infinity(b, w, top) && is_negative(a, w, top) != is_negative(b, w, top) {
            not_a_number(w, top)
        } else {
            a
        }
    } else if is_infinity(b, w, top) {
        b
    } else {
        let s = value(a, w, top) + value(b, w, top);
        if s == 0 {
            with_sign(is_negative(a, w, top) && is_negative(b, w, top), 0, w, top)
        } else if s > 0 {
            nearest_bits(s as nat, 1, w, top)
        } else {
            with_sign(true, nearest_bits((-s) as nat, 1, w, top), w, top)
        }
    }
}

/// Product, correctly rounded; the smallest step is `2^-unit`.
pub open spec fn product_bits(a: nat, b: nat, w: nat, top: nat, unit: nat) -> nat {
    let neg = is_negative(a, w, top) != is_negative(b, w, top);
    let (ma, mb) = (magnitude(unsigned(a, w, top), w), magnitude(unsigned(b, w, top), w));
    if is_not_a_number(a, w, top) || is_not_a_number(b, w, top) {
        not_a_number(w, top)
    } else if is_infinity(a, w, top) || is_infinity(b, w, top) {
        if ma == 0 || mb == 0 {
            not_a_number(w, top)
        } else {
            with_sign(neg, top * pow2(w), w, top)
        }
    } else {
        with_sign(neg, nearest_bits(ma * mb, pow2(unit), w, top), w, top)
    }
}

/// Quotient, correctly rounded; the smallest step is `2^-unit`.
pub open spec fn quotient_bits(a: nat, b: nat, w: nat, top: nat, unit: nat) -> nat {
    let neg = is_negative(a, w, top) != is_negative(b, w, top);
    let (ma, mb) = (magnitude(unsigned(a, w, top), w), magnitude(unsigned(b, w, top), w));
    if is_not_a_number(a, w, top) || is_not_a_number(b, w, top) {
        not_a_number(w, top)
    } else if is_infinity(a, w, top) {
        if is_infinity(b, w, top) {
            not_a_number(w, top)
        } else {
            with_sign(neg, top * pow2(w), w, top)
        }
    } else if is_infinity(b, w, top) {
        with_sign(neg, 0, w, top)
    } else if mb == 0 {
        if ma == 0 {
            not_a_number(w, top)
        } else {
            with_sign(neg, top * pow2(w), w, top)
        }
    } else {
        with_sign(neg, nearest_bits(ma * pow2(unit), mb, w, top), w, top)
    }
}

/// `a < b`; false where either is not a number.
pub open spec fn less_bits(a: nat, b: nat, w: nat, top: nat) -> bool {
    &&& !is_not_a_number(a, w, top)
    &&& !is_not_a_number(b, w, top)
    &&& value(a, w, top) < value(b, w, top)
}

/// `a == b`; false where either is not a number, true of the two zeros.
pub open spec fn equal_bits(a: nat, b: nat, w: nat, top: nat) -> bool {
    &&& !is_not_a_number(a, w, top)
    &&& !is_not_a_number(b, w, top)
    &&& value(a, w, top) == value(b, w, top)
}

/// The two supported formats: single and double precision.
pub open spec fn is_format(w: nat, top: nat) -> bool {
    (w == 23 && top == 255) || (w == 52 && top == 2047)
}

/// Infinity's pattern.
fn infinity_pattern(w: u32, top: u64) -> (r: u64)
    requires
        is_format(w as nat, top as nat),
    ensures
        r == top * pow2(w as nat),
        r + pow2(w as nat) == sign_bit(w as nat, top as nat),
        sign_bit(w as nat, top as nat) <= 0x8000_0000_0000_0000,
        w == 23 ==> sign_bit(w as nat, top as nat) == 0x8000_0000,
        w == 52 ==> sign_bit(w as nat, top as nat) == 0x8000_0000_0000_0000,
        pow2(w as nat) <= 0x10_0000_0000_0000,
        pow2(w as nat) >= 0x80_0000,
{
    let one = exp2(w);
    proof {
        lemma2_to64_rest();
        lemma2_to64();
        let (t, p) = (top as int, pow2(w as nat) as int);
        assert((t + 1) * p == t * p + p) by (nonlinear_arith);
        assert(t * p == 2047 * p || t * p == 255 * p);
    }
    top * (one as u64)
}

/// Splits a pattern into its sign and the rest.
fn split(b: u64, w: u32, top: u64) -> (r: (bool, u64))
    requires
        is_format(w as nat, top as nat),
        is_pattern(b as nat, w as nat, top as nat),
    ensures
        r.0 == is_negative(b as nat, w as nat, top as nat),
        r.1 == unsigned(b as nat, w as nat, top as nat),
        r.1 < sign_bit(w as nat, top as nat),
{
    let inf = infinity_pattern(w, top);
    let one = exp2(w) as u64;
    let s: u64 = inf + one;
    if b >= s {
        (true, b - s)
    } else {
        (false, b)
    }
}

/// Puts a sign on a pattern.
fn join(neg: bool, b: u64, w: u32, top: u64) -> (r: u64)
    requires
        is_format(w as nat, top as nat),
        b < sign_bit(w as nat, top as nat),
    ensures
        r == with_sign(neg, b as nat, w as nat, top as nat),
        is_pattern(r as nat, w as nat, top as nat),
{
    let inf = infinity_pattern(w, top);
    let one = exp2(w) as u64;
    if neg {
        b + (inf + one)
    } else {
        b
    }
}

/// Significand and exponent of a pattern without sign.
fn decode(b: u64, w: u32) -> (r: (u64, u32))
    requires
        w == 23 || w == 52,
        b < 0x8000_0000_0000_0000,
        w == 23 ==> b < 0x8000_0000,
    ensures
        magnitude(b as nat, w as nat) == r.0 as nat * pow2(r.1 as nat),
        r.0 < 2 * pow2(w as nat),
        r.1 > 0 ==> r.0 >= pow2(w as nat),
        b == r.1 * pow2(w as nat) + r.0,
        r.1 <= 2046,
{
    let one = exp2(w) as u64;
    proof {
        lemma2_to64();
        lemma2_to64_rest();
        lemma_fundamental_div_mod(b as int, one as int);
        assert(pow2(0) == 1);
    }
    let e: u64 = b / one;
    let f: u64 = b % one;
    proof {
        assert(e < 2048) by (nonlinear_arith)
            requires
                b == one * e + f,
                f >= 0,
                (one == 0x80_0000 && b < 0x8000_0000) || (one == 0x10_0000_0000_0000 && b
                    < 0x8000_0000_0000_0000),
        ;
    }
    if e == 0 {
        proof {
            assert(f * 1 == f);
            assert(0 * pow2(w as nat) == 0) by (nonlinear_arith);
        }
        (f, 0)
    } else {
        proof {
            assert((e - 1) * one + (f + one) == one * e + f) by (nonlinear_arith);
        }
        (f + one, (e - 1) as u32)
    }
}

/// An operand more than `w + 2` binades below the other does not move the
/// rounded sum.
proof fn lemma_far_operand(m: nat, e: nat, d: nat, plus: bool, w: nat, top: nat)
    requires
        w > 0,
        e >= 2,
        pow2(w) <= m < 2 * pow2(w),
        d < pow2((e - 2) as nat),
        e * pow2(w) + m < top * pow2(w),
    ensures
        m * pow2(e) >= d,
        plus ==> nearest_bits(m * pow2(e) + d, 1, w, top) == e * pow2(w) + m,
        !plus ==> nearest_bits((m * pow2(e) - d) as nat, 1, w, top) == e * pow2(w) + m,
{
    let u = pow2(e);
    let h = pow2((e - 1) as nat);
    lemma_pow2_unfold(e);
    lemma_pow2_unfold((e - 1) as nat);
    lemma_pow2_pos((e - 2) as nat);
    lemma_pow2_pos(w);
    lemma_pow2_unfold(w + 1);
    lemma_pow2_adds(e, w + 1);
    lemma_pow2_adds(e, w);
    lemma_mul_is_commutative(m as int, u as int);
    assert(m * u >= u) by (nonlinear_arith)
        requires
            m >= 1,
            u > 0,
    ;
    assert((m + 1) * u <= u * (2 * pow2(w))) by (nonlinear_arith)
        requires
            m + 1 <= 2 * pow2(w),
            u > 0,
    ;
    assert((m + 1) * u == m * u + u) by (nonlinear_arith);
    assert(u * pow2(w) <= m * u) by (nonlinear_arith)
        requires
            m >= pow2(w),
            u > 0,
    ;
    assert(1 * pow2(e + (w + 1)) == pow2(e + (w + 1)));
    assert((e + (w + 1) - 1) as nat == e + w);
    if plus {
        let x = m * u + d;
        assert(is_spacing(x, 1, w + 1, e));
        lemma_spacing_unique(x, 1, w + 1, e);
        lemma_fundamental_div_mod_converse(x as int, u as int, m as int, d as int);
        assert(1 * u == u);
    } else if d == 0 {
        let x = m * u;
        assert(is_spacing(x, 1, w + 1, e));
        lemma_spacing_unique(x, 1, w + 1, e);
        lemma_round_exact(m, u);
        assert(1 * u == u);
    } else {
        let x = (m * u - d) as nat;
        if m > pow2(w) {
            assert((pow2(w) + 1) * u <= m * u) by (nonlinear_arith)
                requires
                    m >= pow2(w) + 1,
                    u > 0,
            ;
            assert((pow2(w) + 1) * u == u * pow2(w) + u) by (nonlinear_arith);
            assert(is_spacing(x, 1, w + 1, e));
            lemma_spacing_unique(x, 1, w + 1, e);
            assert(x == u * (m - 1) + (u - d)) by (nonlinear_arith)
                requires
                    x == m * u - d,
            ;
            lemma_fundamental_div_mod_converse(x as int, u as int, m - 1, u - d);
            assert(1 * u == u);
        } else {
            // just below a power of two the spacing halves
            let t = (e - 1) as nat;
            lemma_pow2_adds(t, w + 1);
            lemma_pow2_adds(t, w);
            assert(t + (w + 1) == e + w);
            assert((t + (w + 1) - 1) as nat == t + w);
            assert(x < 1 * pow2(t + (w + 1)));
            lemma_pow2_unfold(e + w);
            assert((e + w - 1) as nat == t + w);
            assert(h <= pow2(t + w)) by {
                lemma_pow2_le(t, t + w);
            }
            assert(is_spacing(x, 1, w + 1, t));
            lemma_spacing_unique(x, 1, w + 1, t);
            let q = 2 * pow2(w);
            assert(x == h * (q - 1) + (h - d)) by (nonlinear_arith)
                requires
                    x == m * u - d,
                    u == 2 * h,
                    m == pow2(w),
                    q == 2 * pow2(w),
            ;
            assert(((e - 1) as nat - 1) as nat == (e - 2) as nat);
            assert(0 <= h - d < h);
            assert(x as int == (q - 1) * h + (h - d)) by (nonlinear_arith)
                requires
                    x == h * (q - 1) + (h - d),
            ;
            lemma_fundamental_div_mod_converse(x as int, h as int, q - 1, h - d);
            assert(1 * h == h);
            assert(t * pow2(w) + q == e * pow2(w) + m) by (nonlinear_arith)
                requires
                    t == e - 1,
                    m == pow2(w),
                    q == 2 * pow2(w),
            ;
        }
    }
}

/// Finite sum of sign-free patterns `a >= b`; subtracts where `minus`.
fn combine(a: u64, b: u64, minus: bool, w: u32, top: u64) -> (r: u64)
    requires
        is_format(w as nat, top as nat),
        b <= a < top * pow2(w as nat),
    ensures
        magnitude(b as nat, w as nat) <= magnitude(a as nat, w as nat),
        r == nearest_bits(
            (if minus {
                magnitude(a as nat, w as nat) - magnitude(b as nat, w as nat)
            } else {
                (magnitude(a as nat, w as nat) + magnitude(b as nat, w as nat)) as int
            }) as nat,
            1,
            w as nat,
            top as nat,
        ),
{
    let inf = infinity_pattern(w, top);
    proof {
        lemma2_to64();
        lemma2_to64_rest();
        if b < a {
            magnitude_is_increasing(b as nat, a as nat, w as nat);
        }
    }
    let (ma, ea) = decode(a, w);
    let (mb, eb) = decode(b, w);
    let ghost pw = pow2(w as nat);
    proof {
        if ea < eb {
            assert(ea * pw + ma < eb * pw + mb) by (nonlinear_arith)
                requires
                    ea + 1 <= eb,
                    ma < 2 * pw,
                    mb >= pw,
            ;
        }
    }
    let d: u32 = ea - eb;
    if d >= w + 3 {
        proof {
            let delta = magnitude(b as nat, w as nat);
            lemma_pow2_adds((w + 1) as nat, eb as nat);
            lemma_pow2_unfold((w + 1) as nat);
            lemma_pow2_pos(eb as nat);
            lemma_mul_strict_inequality(mb as int, (2 * pw) as int, pow2(eb as nat) as int);
            lemma_pow2_le((w + 1 + eb) as nat, (ea - 2) as nat);
            lemma_far_operand(ma as nat, ea as nat, delta, !minus, w as nat, top as nat);
        }
        return a;
    }
    let f = exp2(d);
    proof {
        lemma_pow2_le(d as nat, 54);
        assert(ma * f <= 0x20_0000_0000_0000 * 0x40_0000_0000_0000) by (nonlinear_arith)
            requires
                ma <= 0x20_0000_0000_0000,
                f <= 0x40_0000_0000_0000,
        ;
        lemma_pow2_adds(d as nat, eb as nat);
        lemma_mul_is_associative(ma as int, f as int, pow2(eb as nat) as int);
        lemma_pow2_adds(60, 60);
        assert(pow2(0) == 1);
    }
    let hi: u128 = (ma as u128) * f;
    let ghost pe = pow2(eb as nat);
    proof {
        lemma_pow2_pos(eb as nat);
        assert((hi + mb) * pe == hi * pe + mb * pe) by (nonlinear_arith);
        assert((hi - mb) * pe == hi * pe - mb * pe) by (nonlinear_arith);
        assert(hi >= mb) by (nonlinear_arith)
            requires
                hi * pe >= mb * pe,
                pe > 0,
        ;
    }
    if minus {
        pack(hi - (mb as u128), eb, w, 0, top)
    } else {
        pack(hi + (mb as u128), eb, w, 0, top)
    }
}

/// Sum of two patterns.
fn add_patterns(a: u64, b: u64, w: u32, top: u64) -> (r: u64)
    requires
        is_format(w as nat, top as nat),
        is_pattern(a as nat, w as nat, top as nat),
        is_pattern(b as nat, w as nat, top as nat),
    ensures
        r == sum_bits(a as nat, b as nat, w as nat, top as nat),
        is_pattern(r as nat, w as nat, top as nat),
{
    let inf = infinity_pattern(w, top);
    let (na, ua) = split(a, w, top);
    let (nb, ub) = split(b, w, top);
    if ua > inf || ub > inf {
        return quiet_nan(w, top);
    }
    if ua == inf {
        if ub == inf && na != nb {
            return quiet_nan(w, top);
        }
        return a;
    }
    if ub == inf {
        return b;
    }
    let (big, small, neg) = if ua >= ub {
        (ua, ub, na)
    } else {
        (ub, ua, nb)
    };
    proof {
        if small < big {
            magnitude_is_increasing(small as nat, big as nat, w as nat);
        }
        if 0 < big {
            magnitude_is_increasing(0, big as nat, w as nat);
        }
        lemma_zero_magnitude(w as nat);
    }
    if na != nb && big == small {
        return 0;
    }
    if big == 0 {
        return join(na && nb, 0, w, top);
    }
    let r = combine(big, small, na != nb, w, top);
    join(neg, r, w, top)
}

/// The pattern that operations without a result produce.
fn quiet_nan(w: u32, top: u64) -> (r: u64)
    requires
        is_format(w as nat, top as nat),
    ensures
        r == not_a_number(w as nat, top as nat),
        is_pattern(r as nat, w as nat, top as nat),
{
    let inf = infinity_pattern(w, top);
    let half = exp2(w - 1);
    proof {
        lemma_pow2_unfold(w as nat);
    }
    inf + (half as u64)
}

proof fn lemma_zero_magnitude(w: nat)
    ensures
        magnitude(0, w) == 0,
{
    lemma_pow2_pos(w);
    lemma_small_mod(0, pow2(w));
    lemma_basic_div(0, pow2(w) as int);
}

/// Product of two patterns; the smallest step is `2^-unit`.
fn mul_patterns(a: u64, b: u64, w: u32, top: u64, unit: u32) -> (r: u64)
    requires
        is_format(w as nat, top as nat),
        is_pattern(a as nat, w as nat, top as nat),
        is_pattern(b as nat, w as nat, top as nat),
        unit <= 1074,
        w == 23 ==> unit == 149,
    ensures
        r == product_bits(a as nat, b as nat, w as nat, top as nat, unit as nat),
        is_pattern(r as nat, w as nat, top as nat),
{
    let inf = infinity_pattern(w, top);
    let (na, ua) = split(a, w, top);
    let (nb, ub) = split(b, w, top);
    if ua > inf || ub > inf {
        return quiet_nan(w, top);
    }
    let (ma, ea) = decode(ua, w);
    let (mb, eb) = decode(ub, w);
    proof {
        lemma_zero_pattern(ua as nat, w as nat);
        lemma_zero_pattern(ub as nat, w as nat);
    }
    if ua == inf || ub == inf {
        if ua == 0 || ub == 0 {
            return quiet_nan(w, top);
        }
        return join(na != nb, inf, w, top);
    }
    proof {
        lemma_pow2_adds(ea as nat, eb as nat);
        let (x, y, pa, pb) = (ma as int, mb as int, pow2(ea as nat) as int, pow2(eb as nat) as int);
        assert((x * pa) * (y * pb) == (x * y) * (pa * pb)) by (nonlinear_arith);
        assert(ma * mb <= 0x20_0000_0000_0000 * 0x20_0000_0000_0000) by (nonlinear_arith)
            requires
                0 <= ma <= 0x20_0000_0000_0000,
                0 <= mb <= 0x20_0000_0000_0000,
        ;
        lemma_pow2_adds(60, 60);
        lemma2_to64_rest();
    }
    let m: u128 = (ma as u128) * (mb as u128);
    let r = pack(m, ea + eb, w, unit, top);
    join(na != nb, r, w, top)
}

/// Only zero has magnitude zero.
proof fn lemma_zero_pattern(b: nat, w: nat)
    ensures
        magnitude(b, w) == 0 <==> b == 0,
{
    lemma_zero_magnitude(w);
    if b > 0 {
        magnitude_is_increasing(0, b, w);
    }
}

/// `n / d`, nearest, ties to even.
fn round_div(n: u128, d: u128) -> (q: u128)
    requires
        d > 0,
        n < pow2(120),
        d < pow2(120),
    ensures
        q == round_even(n as nat, d as nat),
{
    proof {
        lemma_pow2_adds(60, 60);
        lemma2_to64_rest();
        lemma_mod_division_less_than_divisor(n as int, d as int);
        lemma_div_nonincreasing(n as int, d as int);
    }
    let q = n / d;
    let r = n % d;
    if 2 * r > d || (2 * r == d && q % 2 == 1) {
        q + 1
    } else {
        q
    }
}

/// Pattern of the single-precision number nearest to
/// `(ma * 2^(ea + 149)) / (mb * 2^eb)`.
fn divide(ma: u64, ea: u32, mb: u64, eb: u32) -> (r: u64)
    requires
        0 < ma < 0x100_0000,
        0 < mb < 0x100_0000,
        ea <= 300,
        eb <= 300,
    ensures
        r == nearest_bits(
            ma as nat * pow2((ea + 149) as nat),
            mb as nat * pow2(eb as nat),
            23,
            255,
        ),
{
    let ghost num = ma as nat * pow2((ea + 149) as nat);
    let ghost den = mb as nat * pow2(eb as nat);
    let pa = bit_len(ma as u128);
    let pb = bit_len(mb as u128);
    proof {
        lemma2_to64();
        if pa > 24 {
            lemma_pow2_le(24, (pa - 1) as nat);
        }
        if pb > 24 {
            lemma_pow2_le(24, (pb - 1) as nat);
        }
        lemma_pow2_le(pa as nat, 24);
        lemma_pow2_le(pb as nat, 24);
        lemma_pow2_pos(eb as nat);
        lemma_pow2_pos((ea + 149) as nat);
    }
    // the quotient lies strictly between 2^(k - 1) and 2^(k + 1), k = up - down
    let up: u32 = pa + ea + 149;
    let down: u32 = pb + eb;
    let fa = exp2(pb);
    let fb = exp2(pa);
    proof {
        assert(ma * fa <= 0x100_0000 * 0x100_0000) by (nonlinear_arith)
            requires
                0 <= ma <= 0x100_0000,
                0 <= fa <= 0x100_0000,
        ;
        assert(mb * fb <= 0x100_0000 * 0x100_0000) by (nonlinear_arith)
            requires
                0 <= mb <= 0x100_0000,
                0 <= fb <= 0x100_0000,
        ;
    }
    let below = (ma as u128) * fa < (mb as u128) * fb;
    let t: u32 = if up < down + 24 {
        0
    } else if below {
        up - down - 24
    } else {
        up - down - 23
    };
    proof {
        lemma_quotient_spacing(ma as nat, (ea + 149) as nat, pa as nat, mb as nat, eb as nat, pb as nat, t as nat);
        assert(den > 0) by (nonlinear_arith)
            requires
                den == mb as nat * pow2(eb as nat),
                mb > 0,
                pow2(eb as nat) > 0,
        ;
        lemma_spacing_unique(num, den, 24, t as nat);
        lemma_significand_range(num, den, 23, t as nat);
        lemma_pow2_adds(eb as nat, t as nat);
        lemma_mul_is_associative(mb as int, pow2(eb as nat) as int, pow2(t as nat) as int);
        lemma_pow2_pos((eb + t) as nat);
    }
    let q: u128 = if ea + 149 >= eb + t {
        let s: u32 = ea + 149 - eb - t;
        let f = exp2(s);
        proof {
            lemma_pow2_adds(s as nat, (eb + t) as nat);
            lemma_mul_is_associative(ma as int, f as int, pow2((eb + t) as nat) as int);
            lemma_pow2_le(s as nat, 48);
            lemma2_to64_rest();
            assert(ma * f <= 0x100_0000 * 0x1_0000_0000_0000) by (nonlinear_arith)
                requires
                    0 <= ma <= 0x100_0000,
                    0 <= f <= 0x1_0000_0000_0000,
            ;
            lemma_round_scale((ma * f) as nat, mb as nat, pow2((eb + t) as nat));
            lemma_pow2_adds(60, 60);
        }
        round_div((ma as u128) * f, mb as u128)
    } else {
        let s: u32 = eb + t - ea - 149;
        proof {
            lemma_pow2_adds(s as nat, (ea + 149) as nat);
            lemma_mul_is_associative(mb as int, pow2(s as nat) as int, pow2((ea + 149) as nat) as int);
            lemma_pow2_pos(s as nat);
            assert(mb * pow2(s as nat) >= pow2(s as nat)) by (nonlinear_arith)
                requires
                    mb >= 1,
                    pow2(s as nat) > 0,
            ;
            lemma_round_scale(ma as nat, mb as nat * pow2(s as nat), pow2((ea + 149) as nat));
        }
        if s > 64 {
            proof {
                lemma_pow2_le(64, s as nat);
                lemma2_to64();
                lemma_small_mod(ma as nat, mb as nat * pow2(s as nat));
                lemma_basic_div(ma as int, mb as int * pow2(s as nat) as int);
            }
            0
        } else {
            let f = exp2(s);
            proof {
                lemma_pow2_le(s as nat, 64);
                lemma2_to64();
                assert(0 < mb * f <= 0x100_0000 * 0x1_0000_0000_0000_0000) by (nonlinear_arith)
                    requires
                        0 < mb <= 0x100_0000,
                        0 < f <= 0x1_0000_0000_0000_0000,
                ;
                lemma_pow2_adds(60, 60);
                lemma2_to64_rest();
            }
            round_div(ma as u128, (mb as u128) * f)
        }
    };
    proof {
        lemma2_to64();
    }
    let bits: u128 = (t as u128) * 0x80_0000 + q;
    if bits < 0x7f80_0000 {
        bits as u64
    } else {
        0x7f80_0000
    }
}

/// The spacing around a quotient, from the bit lengths of its operands.
proof fn lemma_quotient_spacing(ma: nat, e1: nat, pa: nat, mb: nat, e2: nat, pb: nat, t: nat)
    requires
        pa > 0,
        pb > 0,
        pow2((pa - 1) as nat) <= ma < pow2(pa),
        pow2((pb - 1) as nat) <= mb < pow2(pb),
        pa + e1 < pb + e2 + 24 ==> t == 0,
        pa + e1 >= pb + e2 + 24 && ma * pow2(pb) < mb * pow2(pa) ==> t == pa + e1 - pb - e2 - 24,
        pa + e1 >= pb + e2 + 24 && ma * pow2(pb) >= mb * pow2(pa) ==> t == pa + e1 - pb - e2 - 23,
    ensures
        is_spacing(ma * pow2(e1), mb * pow2(e2), 24, t),
{
    let num = ma * pow2(e1);
    let den = mb * pow2(e2);
    // num < den * 2^(t + 24)
    lemma_scaled_less(ma, e1, mb, (e2 + t + 24) as nat, pa, pb);
    lemma_pow2_adds(e2, t + 24);
    lemma_mul_is_associative(mb as int, pow2(e2) as int, pow2(t + 24) as int);
    if t > 0 {
        lemma_scaled_less(ma, e1, mb, (e2 + t + 23) as nat, pa, pb);
        lemma_pow2_adds(e2, t + 23);
        lemma_mul_is_associative(mb as int, pow2(e2) as int, pow2(t + 23) as int);
        assert((t + 24 - 1) as nat == t + 23);
    }
}

/// Comparing `ma * 2^e1` with `mb * 2^e2` by bit lengths.
proof fn lemma_scaled_less(ma: nat, e1: nat, mb: nat, e2: nat, pa: nat, pb: nat)
    requires
        pa > 0,
        pb > 0,
        pow2((pa - 1) as nat) <= ma < pow2(pa),
        pow2((pb - 1) as nat) <= mb < pow2(pb),
    ensures
        pa + e1 < pb + e2 ==> ma * pow2(e1) < mb * pow2(e2),
        pa + e1 > pb + e2 ==> ma * pow2(e1) > mb * pow2(e2),
        pa + e1 == pb + e2 ==> (ma * pow2(e1) < mb * pow2(e2) <==> ma * pow2(pb) < mb * pow2(pa)),
{
    lemma_pow2_pos(e1);
    lemma_pow2_pos(e2);
    let (x, y) = (pow2(e1) as int, pow2(e2) as int);
    lemma_pow2_adds(pa, e1);
    lemma_pow2_adds(pb, e2);
    lemma_pow2_adds((pa - 1) as nat, e1);
    lemma_pow2_adds((pb - 1) as nat, e2);
    lemma_mul_strict_inequality(ma as int, pow2(pa) as int, x);
    lemma_mul_strict_inequality(mb as int, pow2(pb) as int, y);
    lemma_mul_inequality(pow2((pa - 1) as nat) as int, ma as int, x);
    lemma_mul_inequality(pow2((pb - 1) as nat) as int, mb as int, y);
    if pa + e1 < pb + e2 {
        lemma_pow2_le(pa + e1, ((pb - 1) as nat + e2) as nat);
    } else if pa + e1 > pb + e2 {
        lemma_pow2_le(pb + e2, ((pa - 1) as nat + e1) as nat);
    } else {
        // multiply both sides of ma * 2^e1 < mb * 2^e2 by 2^pb = 2^(pa + e1 - e2)
        let (u, v) = (pow2(pa) as int, pow2(pb) as int);
        lemma_pow2_pos(pb);
        let (a, b) = (ma as int, mb as int);
        assert((a * x) * v == (a * v) * x) by (nonlinear_arith);
        assert((b * y) * v == (b * u) * x) by (nonlinear_arith)
            requires
                v * y == u * x,
        ;
        assert(a * x < b * y <==> a * v < b * u) by (nonlinear_arith)
            requires
                (a * x) * v == (a * v) * x,
                (b * y) * v == (b * u) * x,
                v > 0,
                x > 0,
        ;
    }
}

/// Quotient of two single-precision patterns.
fn div_patterns(a: u64, b: u64) -> (r: u64)
    requires
        is_pattern(a as nat, 23, 255),
        is_pattern(b as nat, 23, 255),
    ensures
        r == quotient_bits(a as nat, b as nat, 23, 255, 149),
        is_pattern(r as nat, 23, 255),
{
    let inf = infinity_pattern(23, 255);
    let (na, ua) = split(a, 23, 255);
    let (nb, ub) = split(b, 23, 255);
    if ua > inf || ub > inf {
        return quiet_nan(23, 255);
    }
    let neg = na != nb;
    if ua == inf {
        if ub == inf {
            return quiet_nan(23, 255);
        }
        return join(neg, inf, 23, 255);
    }
    if ub == inf {
        return join(neg, 0, 23, 255);
    }
    let (ma, ea) = decode(ua, 23);
    let (mb, eb) = decode(ub, 23);
    proof {
        lemma2_to64();
        lemma_zero_pattern(ua as nat, 23);
        lemma_zero_pattern(ub as nat, 23);
        lemma_pow2_pos(ea as nat);
        lemma_pow2_pos(eb as nat);
        assert(0 * pow2(ea as nat) == 0) by (nonlinear_arith);
        assert(0 * pow2(eb as nat) == 0) by (nonlinear_arith);
        assert(0 * pow2(149) == 0) by (nonlinear_arith);
    }
    if ub == 0 {
        if ua == 0 {
            return quiet_nan(23, 255);
        }
        return join(neg, inf, 23, 255);
    }
    if ua == 0 {
        proof {
            let den = magnitude(ub as nat, 23);
            lemma_pow2_pos(24);
            assert(0 < den * pow2(24)) by (nonlinear_arith)
                requires
                    den > 0,
                    pow2(24) > 0,
            ;
            assert(is_spacing(0, den, 24, 0));
            lemma_spacing_unique(0, den, 24, 0);
            assert(pow2(0) == 1);
            assert(den * 1 == den);
            lemma_small_mod(0, den);
            lemma_basic_div(0, den as int);
            assert(0 * pow2(23) == 0) by (nonlinear_arith);
        }
        return join(neg, 0, 23, 255);
    }
    proof {
        lemma_pow2_adds(ea as nat, 149);
        lemma_mul_is_associative(ma as int, pow2(ea as nat) as int, pow2(149) as int);
        assert(ea <= 300 && eb <= 300) by (nonlinear_arith)
            requires
                ua == ea * pow2(23) + ma,
                ub == eb * pow2(23) + mb,
                pow2(23) == 0x80_0000,
                ua < 0x8000_0000,
                ub < 0x8000_0000,
                ma >= 0,
                mb >= 0,
        ;
    }
    let r = divide(ma, ea, mb, eb);
    join(neg, r, 23, 255)
}

/// `a < b`.
fn less_patterns(a: u64, b: u64, w: u32, top: u64) -> (r: bool)
    requires
        is_format(w as nat, top as nat),
        is_pattern(a as nat, w as nat, top as nat),
        is_pattern(b as nat, w as nat, top as nat),
    ensures
        r == less_bits(a as nat, b as nat, w as nat, top as nat),
{
    let inf = infinity_pattern(w, top);
    let (na, ua) = split(a, w, top);
    let (nb, ub) = split(b, w, top);
    proof {
        lemma_zero_pattern(ua as nat, w as nat);
        lemma_zero_pattern(ub as nat, w as nat);
        if ua < ub {
            magnitude_is_increasing(ua as nat, ub as nat, w as nat);
        } else if ub < ua {
            magnitude_is_increasing(ub as nat, ua as nat, w as nat);
        }
    }
    if ua > inf || ub > inf {
        false
    } else if na {
        if nb {
            ub < ua
        } else {
            ua > 0 || ub > 0
        }
    } else {
        !nb && ua < ub
    }
}

/// `a == b`.
fn equal_patterns(a: u64, b: u64, w: u32, top: u64) -> (r: bool)
    requires
        is_format(w as nat, top as nat),
        is_pattern(a as nat, w as nat, top as nat),
        is_pattern(b as nat, w as nat, top as nat),
    ensures
        r == equal_bits(a as nat, b as nat, w as nat, top as nat),
{
    let inf = infinity_pattern(w, top);
    let (na, ua) = split(a, w, top);
    let (nb, ub) = split(b, w, top);
    proof {
        lemma_zero_pattern(ua as nat, w as nat);
        lemma_zero_pattern(ub as nat, w as nat);
        if ua < ub {
            magnitude_is_increasing(ua as nat, ub as nat, w as nat);
        } else if ub < ua {
            magnitude_is_increasing(ub as nat, ua as nat, w as nat);
        }
    }
    if ua > inf || ub > inf {
        false
    } else if na == nb {
        ua == ub
    } else {
        ua == 0 && ub == 0
    }
}

// --- square root ------------------------------------------------------------------

/// `q` is the integer nearest to the square root of `a`.
pub open spec fn is_nearest_root(a: nat, q: nat) -> bool {
    q * q - q < a <= q * q + q
}

/// `2^t` is the spacing of single-precision numbers around the square root
/// of `n`.
pub open spec fn is_root_spacing(n: nat, t: nat) -> bool {
    pow2(2 * t + 46) <= n < pow2(2 * t + 48)
}

/// Pattern of the single-precision number nearest to the square root of `n`
/// (all counted in smallest steps); `n > 0`.
pub open spec fn root_bits(n: nat) -> nat {
    let t = choose|t: nat| is_root_spacing(n, t);
    let a = n / pow2(2 * t);
    let q = choose|q: nat| is_nearest_root(a, q);
    t * pow2(23) + q
}

proof fn lemma_root_unique(n: nat, t: nat, q: nat)
    requires
        is_root_spacing(n, t),
        is_nearest_root(n / pow2(2 * t), q),
    ensures
        root_bits(n) == t * pow2(23) + q,
{
    let t2 = choose|t: nat| is_root_spacing(n, t);
    if t2 < t {
        lemma_pow2_le(2 * t2 + 48, 2 * t + 46);
    } else if t < t2 {
        lemma_pow2_le(2 * t + 48, 2 * t2 + 46);
    }
    let a = n / pow2(2 * t);
    let q2 = choose|q: nat| is_nearest_root(a, q);
    assert(is_nearest_root(a, q2));
    if q2 < q {
        assert(q2 * q2 + q2 <= q * q - q) by (nonlinear_arith)
            requires
                q2 + 1 <= q,
        ;
    } else if q < q2 {
        assert(q * q + q <= q2 * q2 - q2) by (nonlinear_arith)
            requires
                q + 1 <= q2,
        ;
    }
}

/// Integer nearest to the square root.
fn nearest_root(a: u64) -> (q: u64)
    requires
        0 < a < 0x1_0000_0000_0000,
    ensures
        is_nearest_root(a as nat, q as nat),
        q <= 0x100_0000,
{
    let mut lo: u64 = 0;
    let mut hi: u64 = 0x100_0000;
    while hi - lo > 1
        invariant
            lo < hi <= 0x100_0000,
            lo * lo <= a < hi * hi,
        decreases hi - lo,
    {
        let mid: u64 = lo + (hi - lo) / 2;
        proof {
            assert(mid * mid <= 0x100_0000 * 0x100_0000) by (nonlinear_arith)
                requires
                    0 <= mid <= 0x100_0000,
            ;
        }
        if mid * mid <= a {
            lo = mid;
        } else {
            hi = mid;
        }
    }
    let q: u64 = lo;
    proof {
        assert((q + 1) * (q + 1) == q * q + 2 * q + 1) by (nonlinear_arith);
        assert((q + 1) * (q + 1) - (q + 1) == q * q + q) by (nonlinear_arith);
    }
    if a > q * q + q {
        q + 1
    } else {
        q
    }
}

// --- the two formats ----------------------------------------------------------------

/// Bits of single-precision one.
pub const ONE_F32: u32 = 0x3f80_0000;

/// Bits of single-precision minus infinity.
pub const NEG_INFINITY_F32: u32 = 0xff80_0000;

/// Bits of one, in double precision.
pub const ONE_F64: u64 = 0x3ff0_0000_0000_0000;

/// Bits of double-precision minus infinity.
pub const NEG_INFINITY_F64: u64 = 0xfff0_0000_0000_0000;

/// A value of at most `w + 1` significant bits below infinity is represented
/// exactly.
proof fn lemma_narrow_is_exact(m: nat, e: nat, p: nat, w: nat, top: nat)
    requires
        m < pow2(p),
        m > 0 ==> p > 0 && m >= pow2((p - 1) as nat),
        p <= w + 1,
        m * pow2(e) < magnitude(top * pow2(w), w),
    ensures
        nearest_bits(m * pow2(e), 1, w, top) < top * pow2(w),
        magnitude(nearest_bits(m * pow2(e), 1, w, top), w) == m * pow2(e),
{
    let x = m * pow2(e);
    let t: nat = if m > 0 && e + p > w + 1 {
        (e + p - w - 1) as nat
    } else {
        0
    };
    lemma_pow2_pos(e);
    lemma_pow2_pos(t);
    lemma_pow2_pos(t + (w + 1));
    if m > 0 {
        lemma_pow2_adds(p, e);
        lemma_mul_strict_inequality(m as int, pow2(p) as int, pow2(e) as int);
        lemma_pow2_le(p + e, t + (w + 1));
    } else {
        assert(x == 0) by (nonlinear_arith)
            requires
                x == m * pow2(e),
                m == 0,
        ;
    }
    if t > 0 {
        lemma_pow2_adds((p - 1) as nat, e);
        lemma_mul_inequality(pow2((p - 1) as nat) as int, m as int, pow2(e) as int);
        assert((p - 1) as nat + e == (t + (w + 1) - 1) as nat);
    }
    assert(1 * pow2(t + (w + 1)) == pow2(t + (w + 1)));
    assert(1 * pow2((t + (w + 1) - 1) as nat) == pow2((t + (w + 1) - 1) as nat));
    assert(is_spacing(x, 1, w + 1, t));
    // x is a multiple of 2^t
    lemma_pow2_adds((e - t) as nat, t);
    lemma_mul_is_associative(m as int, pow2((e - t) as nat) as int, pow2(t) as int);
    assert(1 * pow2(t) == pow2(t));
    lemma_round_exact(m * pow2((e - t) as nat), pow2(t));
    nearest_bits_is_nearest(x, 1, w, top, t);
}

/// An IEEE-754 single, held as its bit pattern. Its smallest step is 2^-149.
#[derive(Clone, Copy, Debug, PartialEq, Eq, Structural)]
pub struct F32(pub u32);

/// An IEEE-754 double, held as its bit pattern. Its smallest step is 2^-1074.
#[derive(Clone, Copy, Debug, PartialEq, Eq, Structural)]
pub struct F64(pub u64);

proof fn lemma_f32_format()
    ensures
        pow2(23) == 0x80_0000,
        sign_bit(23, 255) == 0x8000_0000,
        forall|b: u32| #[trigger] is_pattern(b as nat, 23, 255),
        forall|b: nat| #[trigger] is_pattern(b, 23, 255) ==> b <= u32::MAX,
{
    lemma2_to64();
}

proof fn lemma_f64_format()
    ensures
        pow2(52) == 0x10_0000_0000_0000,
        sign_bit(52, 2047) == 0x8000_0000_0000_0000,
        forall|b: u64| #[trigger] is_pattern(b as nat, 52, 2047),
        forall|b: nat| #[trigger] is_pattern(b, 52, 2047) ==> b <= u64::MAX,
{
    lemma2_to64_rest();
}

/// The nearest pattern is a pattern.
proof fn lemma_nearest_bound(num: nat, den: nat, w: nat, top: nat)
    ensures
        nearest_bits(num, den, w, top) <= top * pow2(w),
{
}

/// Bits of minus one million, in double precision.
pub const MINUS_MILLION_F64: u64 = 0xc12e_8480_0000_0000;

/// A magnitude that exceeds the largest double by less than half a step there
/// does not round to infinity.
proof fn lemma_stays_finite(n: nat)
    requires
        n <= (pow2(53) - 1) * pow2(2045) + pow2(1094),
    ensures
        nearest_bits(n, 1, 52, 2047) < 2047 * pow2(52),
{
    let u = pow2(2045);
    lemma_pow2_pos(2045);
    lemma_pow2_le(1094, 2043);
    lemma_pow2_unfold(2044);
    lemma_pow2_unfold(2045);
    lemma_pow2_adds(53, 2045);
    lemma_pow2_unfold(53);
    assert((pow2(53) - 1) * u == pow2(53) * u - u) by (nonlinear_arith);
    assert(n < pow2(2098));
    // infinity stands for 2^52 * 2^2046
    let inf = 2047 * pow2(52);
    lemma_pow2_pos(52);
    lemma_fundamental_div_mod_converse(inf as int, pow2(52) as int, 2047, 0);
    lemma_pow2_adds(52, 2046);
    assert(magnitude(inf, 52) == pow2(2098));
    // some t is the spacing around n
    let t = lemma_spacing_exists(n, 53);
    assert(1 * pow2(t) == pow2(t));
    assert(1 * pow2(t + 53) == pow2(t + 53) && 1 * pow2((t + 53 - 1) as nat) == pow2((t + 53 - 1) as nat));
    assert(is_spacing(n, 1, 53, t));
    lemma_significand_range(n, 1, 52, t);
    let q = round_even(n, pow2(t));
    nearest_bits_is_nearest(n, 1, 52, 2047, t);
    lemma_pow2_pos(t);
    if t < 2045 {
        lemma_pow2_adds(53, t);
        lemma_mul_inequality(q as int, pow2(53) as int, pow2(t) as int);
        lemma_pow2_strictly_increases(53 + t, 2098);
    } else {
        if t > 2045 {
            lemma_pow2_le(2098, (t + 52) as nat);
        }
        lemma_fundamental_div_mod(n as int, u as int);
        let (d, r) = (n / u, n % u);
        assert(d <= pow2(53) - 1) by (nonlinear_arith)
            requires
                n == u * d + r,
                n < pow2(53) * u,
                r >= 0,
                u > 0,
        ;
        if d == pow2(53) - 1 {
            assert(r <= pow2(1094)) by (nonlinear_arith)
                requires
                    n == u * d + r,
                    d == pow2(53) - 1,
                    n <= (pow2(53) - 1) * u + pow2(1094),
            ;
        }
        assert(q <= pow2(53) - 1);
        lemma_mul_inequality(q as int, pow2(53) - 1, u as int);
    }
}

/// Every magnitude has a spacing.
proof fn lemma_spacing_exists(n: nat, p: nat) -> (t: nat)
    requires
        p > 0,
    ensures
        n < pow2(t + p),
        t == 0 || n >= pow2((t + p - 1) as nat),
{
    lemma_spacing_below(n, p, n)
}

/// Every quotient has a spacing.
proof fn lemma_quotient_has_spacing(num: nat, den: nat, p: nat, t: nat) -> (r: nat)
    requires
        p > 0,
        den > 0,
        t == num || num < den * pow2(t + p),
    ensures
        is_spacing(num, den, p, r),
    decreases t,
{
    lemma_pow2_exceeds(num);
    lemma_pow2_le(num, num + p);
    lemma_pow2_pos(t + p);
    if t == num {
        assert(num < den * pow2(t + p)) by (nonlinear_arith)
            requires
                num < pow2(t + p),
                den >= 1,
        ;
    }
    if t == 0 || num >= den * pow2((t + p - 1) as nat) {
        t
    } else {
        lemma_quotient_has_spacing(num, den, p, (t - 1) as nat)
    }
}

/// Rounding does not go below a number of the format.
proof fn lemma_nearest_at_least(num: nat, a: nat, w: nat, top: nat)
    requires
        a < top * pow2(w),
        magnitude(a, w) <= num,
    ensures
        nearest_bits(num, 1, w, top) >= a,
{
    let p = pow2(w);
    lemma_pow2_pos(w);
    let t = lemma_spacing_exists(num, w + 1);
    assert(1 * pow2(t) == pow2(t));
    assert(1 * pow2(t + (w + 1)) == pow2(t + (w + 1)));
    assert(1 * pow2((t + (w + 1) - 1) as nat) == pow2((t + (w + 1) - 1) as nat));
    assert(is_spacing(num, 1, w + 1, t));
    lemma_spacing_unique(num, 1, w + 1, t);
    lemma_significand_range(num, 1, w, t);
    let u = pow2(t);
    lemma_pow2_pos(t);
    let q = round_even(num, u);
    lemma_fundamental_div_mod(a as int, p as int);
    let (e, f) = (a / p, a % p);
    let (k, m): (nat, nat) = if e == 0 {
        (0, f)
    } else {
        ((e - 1) as nat, f + p)
    };
    lemma2_to64();
    assert(a == k * p + m && magnitude(a, w) == m * pow2(k)) by {
        if e > 0 {
            assert(p * e == k * p + p) by (nonlinear_arith)
                requires
                    e == k + 1,
            ;
        } else {
            assert(p * 0 == 0 && 0 * p == 0) by (nonlinear_arith);
            assert(pow2(0) == 1);
            assert(m * pow2(0) == m) by (nonlinear_arith)
                requires
                    pow2(0) == 1,
            ;
        }
    }
    if k < t {
        assert(t * p >= k * p + p) by (nonlinear_arith)
            requires
                t >= k + 1,
                p >= 0,
        ;
    } else if k == t {
        lemma_fundamental_div_mod(num as int, u as int);
        assert(m <= num / u) by (nonlinear_arith)
            requires
                m * u <= num,
                num == u * (num / u) + num % u,
                num % u < u,
                u > 0,
        ;
    } else {
        lemma_pow2_le(t + 1, k);
        lemma_pow2_adds(w, t + 1);
        assert(m * pow2(k) >= p * pow2(t + 1)) by (nonlinear_arith)
            requires
                m >= p,
                pow2(k) >= pow2(t + 1),
                p >= 0,
                pow2(t + 1) >= 0,
        ;
        assert(w + (t + 1) == t + (w + 1));
    }
}

/// Rounding keeps order.
proof fn lemma_nearest_is_ordered(a: nat, b: nat, w: nat, top: nat)
    requires
        a <= b,
    ensures
        nearest_bits(a, 1, w, top) <= nearest_bits(b, 1, w, top),
{
    let p = pow2(w);
    let ta = lemma_spacing_exists(a, w + 1);
    let tb = lemma_spacing_exists(b, w + 1);
    assert(is_spacing(a, 1, w + 1, ta)) by {
        lemma_mul_basics(pow2(ta + (w + 1)) as int);
        lemma_mul_basics(pow2((ta + (w + 1) - 1) as nat) as int);
    }
    assert(is_spacing(b, 1, w + 1, tb)) by {
        lemma_mul_basics(pow2(tb + (w + 1)) as int);
        lemma_mul_basics(pow2((tb + (w + 1) - 1) as nat) as int);
    }
    lemma_spacing_unique(a, 1, w + 1, ta);
    lemma_spacing_unique(b, 1, w + 1, tb);
    lemma_significand_range(a, 1, w, ta);
    lemma_significand_range(b, 1, w, tb);
    assert(1 * pow2(ta) == pow2(ta));
    assert(1 * pow2(tb) == pow2(tb));
    let (qa, qb) = (round_even(a, pow2(ta)), round_even(b, pow2(tb)));
    lemma_pow2_pos(ta);
    if tb < ta {
        lemma_pow2_le(tb + (w + 1), (ta + (w + 1) - 1) as nat);
        lemma_mul_basics(pow2(tb + (w + 1)) as int);
        lemma_mul_basics(pow2((ta + (w + 1) - 1) as nat) as int);
        assert(false);
    } else if ta == tb {
        let u = pow2(ta);
        lemma_fundamental_div_mod(a as int, u as int);
        lemma_fundamental_div_mod(b as int, u as int);
        lemma_div_is_ordered(a as int, b as int, u as int);
        assert(qa <= qb);
    } else {
        assert(ta * p + 2 * p <= tb * p + p) by (nonlinear_arith)
            requires
                ta + 1 <= tb,
                p >= 0,
        ;
    }
}

/// Of all multiples of `u`, the one that is rounded to is nearest.
proof fn lemma_round_nearest(x: nat, u: nat, b: nat)
    requires
        u > 0,
    ensures
        ({
            let q = round_even(x, u);
            &&& (if q * u >= x { q * u - x } else { x - q * u }) <= (if b * u >= x { b * u - x } else { x - b * u })
            &&& x <= b * u ==> q <= b
        }),
{
    let (d, r, q) = (x / u, x % u, round_even(x, u));
    lemma_fundamental_div_mod(x as int, u as int);
    lemma_mod_division_less_than_divisor(x as int, u as int);
    lemma_mul_is_commutative(u as int, d as int);
    assert((d + 1) * u == d * u + u) by (nonlinear_arith);
    if b <= d {
        lemma_mul_inequality(b as int, d as int, u as int);
    } else {
        lemma_mul_inequality((d + 1) as int, b as int, u as int);
    }
    if x <= b * u && b < d + 1 {
        assert(b == d && r == 0) by (nonlinear_arith)
            requires
                x <= b * u,
                x == d * u + r,
                b <= d,
                r >= 0,
                u > 0,
        ;
    }
}

/// No number of the format is nearer to `num / den` than `nearest_bits`. Where
/// that is infinity, all numbers are below `num / den`.
pub proof fn nothing_is_nearer(num: nat, den: nat, w: nat, top: nat, b: nat)
    requires
        den > 0,
        b < top * pow2(w),
    ensures
        ({
            let r = nearest_bits(num, den, w, top);
            let (m, o) = (magnitude(r, w) * den, magnitude(b, w) * den);
            &&& r < top * pow2(w) ==> (if m >= num { m - num } else { num - m }) <= (if o >= num { o - num } else { num - o })
            &&& r >= top * pow2(w) ==> o < num
        }),
{
    let p = pow2(w);
    lemma_pow2_pos(w);
    let t = lemma_quotient_has_spacing(num, den, w + 1, num);
    nearest_bits_is_nearest(num, den, w, top, t);
    lemma_pow2_pos(t);
    let u = den * pow2(t);
    lemma_mul_strictly_positive(den as int, pow2(t) as int);
    let q = round_even(num, u);
    let inf = top * p;
    magnitude_is_increasing(b, inf, w);
    assert((q * pow2(t)) * den == q * u) by (nonlinear_arith)
        requires
            u == den * pow2(t),
    ;
    lemma_fundamental_div_mod(b as int, p as int);
    let (e, f) = (b / p, b % p);
    let (k, m): (nat, nat) = if e == 0 {
        (0, f)
    } else {
        ((e - 1) as nat, f + p)
    };
    lemma2_to64();
    lemma_mul_basics(m as int);
    assert(magnitude(b, w) == m * pow2(k));
    lemma_pow2_unfold(w + 1);
    assert(m < pow2(w + 1));
    if k >= t {
        let c = m * pow2((k - t) as nat);
        lemma_pow2_adds((k - t) as nat, t);
        assert((m * pow2(k)) * den == c * u) by (nonlinear_arith)
            requires
                c == m * pow2((k - t) as nat),
                pow2(k) == pow2((k - t) as nat) * pow2(t),
                u == den * pow2(t),
        ;
        lemma_round_nearest(num, u, c);
        if num <= c * u {
            lemma_mul_inequality(q as int, c as int, pow2(t) as int);
            assert(c * pow2(t) == m * pow2(k)) by (nonlinear_arith)
                requires
                    c == m * pow2((k - t) as nat),
                    pow2(k) == pow2((k - t) as nat) * pow2(t),
            ;
        }
    } else {
        lemma_pow2_adds(w, t);
        lemma_pow2_adds(w + 1, k);
        lemma_pow2_pos(k);
        lemma_mul_strict_inequality(m as int, pow2(w + 1) as int, pow2(k) as int);
        lemma_pow2_le(w + 1 + k, w + t);
        lemma_mul_strict_inequality(magnitude(b, w) as int, pow2(w + t) as int, den as int);
        assert(p * u == pow2(w + t) * den) by (nonlinear_arith)
            requires
                u == den * pow2(t),
                pow2(w + t) == p * pow2(t),
        ;
        assert((t + (w + 1) - 1) as nat == w + t);
        lemma_mul_is_commutative(den as int, pow2(w + t) as int);
        lemma_round_nearest(num, u, p);
    }
}

/// How many bits a number takes.
proof fn lemma_length_exists(n: nat, p: nat) -> (r: nat)
    requires
        n < pow2(p),
    ensures
        r <= p,
        n < pow2(r),
        n > 0 ==> r > 0 && n >= pow2((r - 1) as nat),
    decreases p,
{
    lemma2_to64();
    if p == 0 || n >= pow2((p - 1) as nat) {
        p
    } else {
        lemma_length_exists(n, (p - 1) as nat)
    }
}

/// A magnitude is no smaller where the pattern is not.
proof fn lemma_magnitude_at_most(a: nat, b: nat, w: nat)
    requires
        a <= b,
    ensures
        magnitude(a, w) <= magnitude(b, w),
{
    if a < b {
        magnitude_is_increasing(a, b, w);
    }
}

/// A sum of finite numbers, rounded, by value.
proof fn lemma_sum_value(a: nat, b: nat)
    requires
        unsigned(a, 52, 2047) < 2047 * pow2(52),
        unsigned(b, 52, 2047) < 2047 * pow2(52),
    ensures
        ({
            let s = value(a, 52, 2047) + value(b, 52, 2047);
            let r = sum_bits(a, b, 52, 2047);
            &&& r <= u64::MAX
            &&& !is_not_a_number(r, 52, 2047)
            &&& s >= 0 ==> value(r, 52, 2047) == magnitude(nearest_bits(s as nat, 1, 52, 2047), 52)
            &&& s <= 0 ==> value(r, 52, 2047) == -magnitude(nearest_bits((-s) as nat, 1, 52, 2047), 52)
        }),
{
    lemma_f64_format();
    let s = value(a, 52, 2047) + value(b, 52, 2047);
    lemma_nearest_bound(s as nat, 1, 52, 2047);
    lemma_nearest_bound((-s) as nat, 1, 52, 2047);
    lemma_zero_magnitude(52);
    if s == 0 {
        assert(nearest_bits(0, 1, 52, 2047) == 0) by {
            lemma2_to64();
            lemma_mul_basics(pow2(53) as int);
            assert(is_spacing(0, 1, 53, 0)) by {
                lemma_pow2_pos(53);
            }
            lemma_spacing_unique(0, 1, 53, 0);
        }
    }
}

/// Searches downwards from a spacing that is wide enough.
proof fn lemma_spacing_below(n: nat, p: nat, t: nat) -> (r: nat)
    requires
        p > 0,
        t == n || n < pow2(t + p),
    ensures
        n < pow2(r + p),
        r == 0 || n >= pow2((r + p - 1) as nat),
    decreases t,
{
    lemma_pow2_exceeds(n);
    lemma_pow2_le(n, n + p);
    if t == 0 || n >= pow2((t + p - 1) as nat) {
        t
    } else {
        lemma_spacing_below(n, p, (t - 1) as nat)
    }
}

proof fn lemma_pow2_exceeds(n: nat)
    ensures
        n < pow2(n),
    decreases n,
{
    lemma2_to64();
    if n > 0 {
        lemma_pow2_exceeds((n - 1) as nat);
        lemma_pow2_unfold(n);
    }
}

impl F64 {
    /// A number above minus infinity.
    pub open spec fn is_score(self) -> bool {
        F64(NEG_INFINITY_F64).spec_less(self)
    }

    pub proof fn minus_infinity_is_itself()
        ensures
            F64(NEG_INFINITY_F64).spec_same(F64(NEG_INFINITY_F64)),
    {
        lemma_f64_format();
    }

    /// Minus one million, by value.
    pub proof fn price_is_a_million()
        ensures
            F64(MINUS_MILLION_F64).steps() == -1000000 * pow2(1074),
    {
        lemma_f64_format();
        lemma2_to64();
        lemma2_to64_rest();
        let b = unsigned(MINUS_MILLION_F64 as nat, 52, 2047);
        assert(b == 0x412e_8480_0000_0000);
        lemma_fundamental_div_mod_converse(b as int, pow2(52) as int, 0x412, 0xe_8480_0000_0000);
        lemma_pow2_adds(33, 1041);
        assert((0xe_8480_0000_0000nat + pow2(52)) == 1000000 * pow2(33));
        assert(1000000 * pow2(33) * pow2(1041) == 1000000 * (pow2(33) * pow2(1041))) by (nonlinear_arith);
        assert(magnitude(b, 52) == 1000000 * pow2(1074));
    }

    pub proof fn zero_is_score()
        ensures
            F64(0).is_score(),
    {
        lemma_f64_format();
        lemma_zero_pattern(0, 52);
        lemma_zero_pattern(2047 * pow2(52), 52);
    }

    /// A fraction of 53 bits is held exactly, and lies in [0, 1).
    pub proof fn fraction_is_exact(n: nat)
        requires
            n < pow2(53),
        ensures
            F64::spec_of_scaled(n as int, -53).steps() == n * pow2(1021),
            !F64::spec_of_scaled(n as int, -53).spec_is_nan(),
            !F64::spec_of_scaled(n as int, -53).spec_less(F64(0)),
            F64::spec_of_scaled(n as int, -53).spec_less(F64(ONE_F64)),
    {
        lemma_f64_format();
        lemma2_to64_rest();
        let (one, inf) = (ONE_F64 as nat, 2047 * pow2(52));
        assert(one == 1023 * pow2(52));
        lemma_fundamental_div_mod_converse(one as int, pow2(52) as int, 1023, 0);
        lemma_pow2_adds(52, 1022);
        assert(magnitude(one, 52) == pow2(1074));
        magnitude_is_increasing(one, inf, 52);
        lemma_pow2_adds(53, 1021);
        lemma_pow2_pos(1021);
        assert(n * pow2(1021) < pow2(53) * pow2(1021)) by (nonlinear_arith)
            requires
                n < pow2(53),
                pow2(1021) > 0,
        ;
        let p = lemma_length_exists(n, 53);
        lemma_narrow_is_exact(n, 1021, p, 52, 2047);
        lemma_zero_magnitude(52);
    }

    /// Nothing is below minus infinity.
    proof fn lemma_lowest(self)
        ensures
            !self.spec_less(F64(NEG_INFINITY_F64)),
            is_negative(NEG_INFINITY_F64 as nat, 52, 2047),
            unsigned(NEG_INFINITY_F64 as nat, 52, 2047) == 2047 * pow2(52),
            !self.spec_is_nan() ==> -(magnitude(2047 * pow2(52), 52) as int) <= self.steps() <= magnitude(
                2047 * pow2(52),
                52,
            ),
    {
        lemma_f64_format();
        if !self.spec_is_nan() {
            lemma_magnitude_at_most(unsigned(self.0 as nat, 52, 2047), 2047 * pow2(52), 52);
        }
    }

    /// Adding the same number keeps order: what is not below the larger sum is
    /// not below the smaller.
    pub proof fn sums_keep_order(self, other: F64, more: F64, bound: F64)
        requires
            !other.spec_is_nan(),
            !other.spec_less(self),
            !bound.spec_less(other.spec_plus(more)),
        ensures
            !bound.spec_less(self.spec_plus(more)),
    {
        lemma_f64_format();
        let inf = 2047 * pow2(52);
        let (a, b, c) = (self.0 as nat, other.0 as nat, more.0 as nat);
        let (ua, ub, uc) = (unsigned(a, 52, 2047), unsigned(b, 52, 2047), unsigned(c, 52, 2047));
        let (x, y) = (self.spec_plus(more), other.spec_plus(more));
        bound.lemma_lowest();
        self.lemma_lowest();
        other.lemma_lowest();
        lemma_zero_magnitude(52);
        magnitude_is_increasing(0, inf, 52);
        lemma2_to64_rest();
        assert(not_a_number(52, 2047) == 0x7ff8_0000_0000_0000);
        if x.spec_is_nan() || bound.spec_is_nan() {
        } else if ua == inf {
            if !is_negative(a, 52, 2047) {
                if ub < inf {
                    magnitude_is_increasing(ub, inf, 52);
                }
                assert(a == b);
            } else {
                assert(x == self);
                assert(x.steps() == -(magnitude(inf, 52) as int));
            }
        } else if uc == inf {
            assert(x == more);
            if is_negative(c, 52, 2047) {
                assert(x.steps() == -(magnitude(inf, 52) as int));
            } else if ub == inf {
                magnitude_is_increasing(ua, inf, 52);
                assert(!is_negative(b, 52, 2047));
                assert(b == c);
                assert(y == more);
            } else {
                assert(y == more);
            }
        } else {
            lemma_sum_value(a, c);
            let (s, t) = (self.steps() + more.steps(), other.steps() + more.steps());
            if ub == inf {
                magnitude_is_increasing(ua, inf, 52);
                assert(!is_negative(b, 52, 2047));
                assert(y == other);
                x.lemma_lowest();
            } else {
                lemma_sum_value(b, c);
                assert(s <= t);
                if s >= 0 {
                    lemma_nearest_is_ordered(s as nat, t as nat, 52, 2047);
                    lemma_magnitude_at_most(
                        nearest_bits(s as nat, 1, 52, 2047),
                        nearest_bits(t as nat, 1, 52, 2047),
                        52,
                    );
                } else if t <= 0 {
                    lemma_nearest_is_ordered((-t) as nat, (-s) as nat, 52, 2047);
                    lemma_magnitude_at_most(
                        nearest_bits((-t) as nat, 1, 52, 2047),
                        nearest_bits((-s) as nat, 1, 52, 2047),
                        52,
                    );
                }
                assert(x.steps() <= y.steps());
            }
        }
    }

    /// A million below a score is a score.
    pub proof fn lowered_is_score(self)
        requires
            self.is_score(),
        ensures
            self.spec_plus(F64(MINUS_MILLION_F64)).is_score(),
    {
        lemma_f64_format();
        lemma2_to64();
        lemma2_to64_rest();
        let (a, b) = (self.0 as nat, MINUS_MILLION_F64 as nat);
        let (ua, ub) = (unsigned(a, 52, 2047), unsigned(b, 52, 2047));
        let inf = 2047 * pow2(52);
        assert(ub == 0x412e_8480_0000_0000);
        // the million: (2^52 + 0xe848000000000) * 2^(0x412 - 1)
        lemma_fundamental_div_mod_converse(ub as int, pow2(52) as int, 0x412, 0xe_8480_0000_0000);
        lemma_pow2_pos(1041);
        lemma_pow2_adds(53, 1041);
        let v = magnitude(ub, 52);
        assert(v == (0xe_8480_0000_0000 + pow2(52)) * pow2(1041));
        assert(v <= pow2(53) * pow2(1041)) by (nonlinear_arith)
            requires
                v == (0xe_8480_0000_0000 + pow2(52)) * pow2(1041),
                pow2(52) == 0x10_0000_0000_0000,
                pow2(53) == 0x20_0000_0000_0000,
                pow2(1041) >= 0,
        ;
        assert(v > 0) by (nonlinear_arith)
            requires
                v == (0xe_8480_0000_0000 + pow2(52)) * pow2(1041),
                pow2(1041) > 0,
        ;
        assert(!is_infinity(b, 52, 2047) && !is_not_a_number(b, 52, 2047) && is_negative(b, 52, 2047));
        let ni = NEG_INFINITY_F64 as nat;
        assert(unsigned(ni, 52, 2047) == inf && is_negative(ni, 52, 2047));
        lemma_zero_pattern(ua, 52);
        if is_infinity(a, 52, 2047) {
            // plus infinity, since minus infinity is no score
            lemma_zero_pattern(inf, 52);
        } else {
            // the largest finite magnitude is (2^53 - 1) * 2^2045
            let m = magnitude(ua, 52);
            let big = (inf - 1) as nat;
            lemma_fundamental_div_mod_converse(big as int, pow2(52) as int, 2046, pow2(52) - 1);
            if ua < big {
                magnitude_is_increasing(ua, big, 52);
            }
            assert(magnitude(big, 52) == (pow2(53) - 1) * pow2(2045));
            let s = value(a, 52, 2047) + value(b, 52, 2047);
            let n: nat = if s >= 0 {
                s as nat
            } else {
                (-s) as nat
            };
            lemma_stays_finite(n);
            let r = sum_bits(a, b, 52, 2047);
            let ur = unsigned(r, 52, 2047);
            assert(ur < inf);
            magnitude_is_increasing(ur, inf, 52);
        }
    }
}

/// Bits of single-precision infinity.
pub const INFINITY_F32: u32 = 0x7f80_0000;

impl F32 {
    /// Minus infinity is below every other number.
    pub proof fn minus_infinity_is_lowest(self)
        ensures
            !self.spec_less(F32(NEG_INFINITY_F32)),
            self.spec_same(F32(NEG_INFINITY_F32)) <==> self == F32(NEG_INFINITY_F32),
            !self.spec_is_nan() && self != F32(NEG_INFINITY_F32) ==> F32(NEG_INFINITY_F32).spec_less(self),
    {
        lemma_f32_format();
        let (a, n) = (self.0 as nat, NEG_INFINITY_F32 as nat);
        let inf = 255 * pow2(23);
        assert(unsigned(n, 23, 255) == inf && is_negative(n, 23, 255));
        lemma_zero_pattern(inf, 23);
        let u = unsigned(a, 23, 255);
        if u < inf {
            magnitude_is_increasing(u, inf, 23);
        }
    }

    /// A finite number less itself is zero; nothing else has a difference with
    /// itself.
    pub proof fn difference_with_itself(self)
        ensures
            self.spec_is_finite() ==> self.spec_minus(self) == F32(0),
            !self.spec_is_finite() ==> self.spec_minus(self).spec_is_nan(),
    {
        lemma_f32_format();
        lemma2_to64();
        let a = self.0 as nat;
        let b = self.spec_negated().0 as nat;
        assert(b == with_sign(!is_negative(a, 23, 255), unsigned(a, 23, 255), 23, 255));
        assert(unsigned(b, 23, 255) == unsigned(a, 23, 255));
        assert(is_negative(b, 23, 255) == !is_negative(a, 23, 255));
        assert(value(b, 23, 255) == -value(a, 23, 255));
    }

    /// What is no number stays none in a sum and in a difference.
    pub proof fn no_number_stays_none(self, other: F32)
        ensures
            self.spec_is_nan() ==> self.spec_plus(other).spec_is_nan() && self.spec_minus(other).spec_is_nan()
                && other.spec_plus(self).spec_is_nan() && !F32(0).spec_less(self),
    {
        lemma_f32_format();
        lemma2_to64();
    }

    /// A sum of numbers that are not below zero is neither below zero nor below
    /// either of them.
    pub proof fn sum_is_no_less(self, other: F32)
        requires
            self.0 <= INFINITY_F32,
            other.0 <= INFINITY_F32,
        ensures
            self.spec_plus(other).0 <= INFINITY_F32,
            self.0 <= self.spec_plus(other).0,
            other.0 <= self.spec_plus(other).0,
    {
        lemma_f32_format();
        let (a, b) = (self.0 as nat, other.0 as nat);
        let inf = 255 * pow2(23);
        if a < inf && b < inf {
            let (x, y) = (magnitude(a, 23), magnitude(b, 23));
            lemma_zero_pattern(a, 23);
            lemma_zero_pattern(b, 23);
            lemma_nearest_at_least(x + y, a, 23, 255);
            lemma_nearest_at_least(x + y, b, 23, 255);
            lemma_nearest_bound(x + y, 1, 23, 255);
        }
    }

    /// A quotient by a positive number is the number nearest to it: no other
    /// comes nearer, or all fall short of it. It has the sign of what is divided.
    pub proof fn quotient_is_nearest(self, other: F32, z: F32)
        requires
            self.spec_is_finite(),
            other.spec_is_finite(),
            other.steps() > 0,
            z.spec_is_finite(),
        ensures
            ({
                let y = self.spec_over(other);
                let (d, e) = (
                    y.steps() * other.steps() - self.steps() * pow2(149),
                    z.steps() * other.steps() - self.steps() * pow2(149),
                );
                &&& !y.spec_is_nan()
                &&& self.steps() >= 0 ==> y.steps() >= 0
                &&& self.steps() <= 0 ==> y.steps() <= 0
                &&& y.spec_is_finite() ==> (if d >= 0 { d } else { -d }) <= (if e >= 0 { e } else { -e })
                &&& !y.spec_is_finite() ==> (if z.steps() >= 0 { z.steps() } else { -z.steps() }) * other.steps() < (
                if self.steps() >= 0 { self.steps() } else { -self.steps() }) * pow2(149)
            }),
    {
        lemma_f32_format();
        let (a, b, c) = (self.0 as nat, other.0 as nat, z.0 as nat);
        let (ua, ub, uc) = (unsigned(a, 23, 255), unsigned(b, 23, 255), unsigned(c, 23, 255));
        let (ma, mb, mc) = (magnitude(ua, 23), magnitude(ub, 23), magnitude(uc, 23));
        let num = ma * pow2(149);
        let r = nearest_bits(num, mb, 23, 255);
        lemma_zero_magnitude(23);
        lemma_nearest_bound(num, mb, 23, 255);
        nothing_is_nearer(num, mb, 23, 255, uc);
        let y = self.spec_over(other);
        assert(y.0 == with_sign(is_negative(a, 23, 255), r, 23, 255));
        assert(unsigned(y.0 as nat, 23, 255) == r);
        let mr = magnitude(r, 23);
        lemma_mul_unary_negation(mr as int, mb as int);
        lemma_mul_unary_negation(mc as int, mb as int);
        lemma_mul_unary_negation(ma as int, pow2(149) as int);
        if ma == 0 {
            assert(0 * pow2(149) == 0);
            assert(0 * mb == 0);
            nothing_is_nearer(num, mb, 23, 255, 0);
            assert(magnitude(0, 23) * mb == 0);
            assert(mr == 0) by (nonlinear_arith)
                requires
                    mr * mb == 0,
                    mb > 0,
            ;
        }
    }

    /// A product with a positive number is the number nearest to it: no other
    /// comes nearer, or all fall short of it. It has the sign of what is
    /// multiplied.
    pub proof fn product_is_nearest(self, other: F32, z: F32)
        requires
            self.spec_is_finite(),
            other.spec_is_finite(),
            other.steps() > 0,
            z.spec_is_finite(),
        ensures
            ({
                let y = self.spec_times(other);
                let (d, e) = (
                    y.steps() * pow2(149) - self.steps() * other.steps(),
                    z.steps() * pow2(149) - self.steps() * other.steps(),
                );
                &&& !y.spec_is_nan()
                &&& self.steps() >= 0 ==> y.steps() >= 0
                &&& self.steps() <= 0 ==> y.steps() <= 0
                &&& y.spec_is_finite() ==> (if d >= 0 { d } else { -d }) <= (if e >= 0 { e } else { -e })
                &&& !y.spec_is_finite() ==> (if z.steps() >= 0 { z.steps() } else { -z.steps() }) * pow2(149) < (
                if self.steps() >= 0 { self.steps() } else { -self.steps() }) * other.steps()
            }),
    {
        lemma_f32_format();
        let (a, b, c) = (self.0 as nat, other.0 as nat, z.0 as nat);
        let (ua, ub, uc) = (unsigned(a, 23, 255), unsigned(b, 23, 255), unsigned(c, 23, 255));
        let (ma, mb, mc) = (magnitude(ua, 23), magnitude(ub, 23), magnitude(uc, 23));
        let (num, den) = (ma * mb, pow2(149));
        lemma_pow2_pos(149);
        let r = nearest_bits(num, den, 23, 255);
        lemma_zero_magnitude(23);
        lemma_nearest_bound(num, den, 23, 255);
        nothing_is_nearer(num, den, 23, 255, uc);
        let y = self.spec_times(other);
        assert(y.0 == with_sign(is_negative(a, 23, 255), r, 23, 255));
        assert(unsigned(y.0 as nat, 23, 255) == r);
        let mr = magnitude(r, 23);
        lemma_mul_unary_negation(mr as int, den as int);
        lemma_mul_unary_negation(mc as int, den as int);
        lemma_mul_unary_negation(ma as int, mb as int);
        if ma == 0 {
            assert(0 * mb == 0);
            nothing_is_nearer(num, den, 23, 255, 0);
            assert(magnitude(0, 23) * den == 0);
            assert(mr == 0) by (nonlinear_arith)
                requires
                    mr * den == 0,
                    den > 0,
            ;
        }
    }

    /// One over a number from one on is finite.
    pub proof fn inverse_is_finite(self)
        requires
            ONE_F32 <= self.0 <= INFINITY_F32,
        ensures
            F32(ONE_F32).spec_over(self).spec_is_finite(),
    {
        lemma_f32_format();
        let (one, b) = (ONE_F32 as nat, self.0 as nat);
        let inf = 255 * pow2(23);
        lemma_fundamental_div_mod_converse(one as int, pow2(23) as int, 127, 0);
        lemma_pow2_adds(23, 126);
        assert(magnitude(one, 23) == pow2(149));
        lemma_pow2_pos(149);
        if one < b {
            magnitude_is_increasing(one, b, 23);
        }
        let mb = magnitude(b, 23);
        if b < inf {
            let num = pow2(149) * pow2(149);
            lemma_pow2_adds(149, 149);
            let t = lemma_quotient_has_spacing(num, mb, 24, num);
            nearest_bits_is_nearest(num, mb, 23, 255, t);
            lemma_significand_range(num, mb, 23, t);
            let q = round_even(num, mb * pow2(t));
            lemma_pow2_unfold(24);
            lemma_pow2_pos(t);
            lemma_pow2_adds(24, t);
            lemma_mul_inequality(q as int, pow2(24) as int, pow2(t) as int);
            if t > 126 {
                lemma_pow2_adds(149, t + 23);
                lemma_pow2_pos(t + 23);
                lemma_mul_inequality(pow2(149) as int, mb as int, pow2(t + 23) as int);
                lemma_pow2_strictly_increases(298, 149 + (t + 23));
                assert((t + 24 - 1) as nat == t + 23);
            }
            lemma_pow2_le(24 + t, 150);
            lemma_fundamental_div_mod_converse(inf as int, pow2(23) as int, 255, 0);
            lemma_pow2_adds(23, 254);
            lemma_pow2_strictly_increases(150, 277);
            assert(magnitude(inf, 23) == pow2(277));
        } else {
            lemma_zero_pattern(b, 23);
        }
    }

    /// One is a number.
    pub proof fn one_is_one()
        ensures
            !F32(ONE_F32).spec_is_nan(),
            F32(ONE_F32).steps() == pow2(149),
    {
        lemma_f32_format();
        let one = ONE_F32 as nat;
        lemma_fundamental_div_mod_converse(one as int, pow2(23) as int, 127, 0);
        lemma_pow2_adds(23, 126);
        assert(magnitude(one, 23) == pow2(149));
    }

    /// The zero pattern is zero.
    pub proof fn zero_is_zero()
        ensures
            !F32(0).spec_is_nan(),
            F32(0).steps() == 0,
    {
        lemma_f32_format();
        lemma_zero_pattern(0, 23);
    }

    pub proof fn zero_is_finite()
        ensures
            F32(0).spec_is_finite(),
            !F32(0).spec_less(F32(0)),
    {
        lemma_f32_format();
    }

    /// Zero times anything is zero or no number, and no number times anything is
    /// one and the same.
    pub proof fn nothing_or_none(self, x: F32, y: F32)
        ensures
            F32(0).spec_times(self).spec_same(F32(0)) || F32(0).spec_times(self).spec_times(x) == F32(0).spec_times(
                self,
            ).spec_times(y),
    {
        lemma_f32_format();
        lemma2_to64();
        lemma_zero_pattern(0, 23);
        if self.spec_is_finite() {
            self.nothing_of_finite();
        } else {
            assert(not_a_number(23, 255) == 0x7fc0_0000);
            assert(F32(0).spec_times(self).spec_is_nan());
        }
    }

    /// Nothing of a finite number is nothing.
    pub proof fn nothing_of_finite(self)
        requires
            self.spec_is_finite(),
        ensures
            F32(0).spec_times(self).spec_same(F32(0)),
    {
        lemma_f32_format();
        lemma_zero_pattern(0, 23);
        let den = pow2(149);
        lemma_pow2_pos(149);
        lemma_pow2_pos(24);
        lemma2_to64();
        assert(0 < den * pow2(0 + 24)) by (nonlinear_arith)
            requires
                den > 0,
                pow2(0 + 24) > 0,
        ;
        assert(is_spacing(0, den, 24, 0));
        lemma_spacing_unique(0, den, 24, 0);
        assert(den * pow2(0) == den) by (nonlinear_arith)
            requires
                pow2(0) == 1,
        ;
        lemma_small_mod(0, den);
        lemma_basic_div(0, den as int);
        assert(nearest_bits(0, den, 23, 255) == 0);
        let m = magnitude(unsigned(self.0 as nat, 23, 255), 23);
        assert(0 * m == 0);
    }
}

impl F32 {
    pub open spec fn spec_is_nan(self) -> bool {
        is_not_a_number(self.0 as nat, 23, 255)
    }

    pub open spec fn spec_is_finite(self) -> bool {
        !self.spec_is_nan() && !is_infinity(self.0 as nat, 23, 255)
    }

    /// Value in steps of 2^-149.
    pub open spec fn steps(self) -> int {
        value(self.0 as nat, 23, 255)
    }

    pub open spec fn spec_plus(self, other: F32) -> F32 {
        F32(sum_bits(self.0 as nat, other.0 as nat, 23, 255) as u32)
    }

    pub open spec fn spec_negated(self) -> F32 {
        F32(with_sign(!is_negative(self.0 as nat, 23, 255), unsigned(self.0 as nat, 23, 255), 23, 255) as u32)
    }

    pub open spec fn spec_minus(self, other: F32) -> F32 {
        self.spec_plus(other.spec_negated())
    }

    pub open spec fn spec_times(self, other: F32) -> F32 {
        F32(product_bits(self.0 as nat, other.0 as nat, 23, 255, 149) as u32)
    }

    pub open spec fn spec_over(self, other: F32) -> F32 {
        F32(quotient_bits(self.0 as nat, other.0 as nat, 23, 255, 149) as u32)
    }

    /// `self < other`.
    pub open spec fn spec_less(self, other: F32) -> bool {
        less_bits(self.0 as nat, other.0 as nat, 23, 255)
    }

    /// `self == other`, by value.
    pub open spec fn spec_same(self, other: F32) -> bool {
        equal_bits(self.0 as nat, other.0 as nat, 23, 255)
    }

    /// The larger of the two; a number beats not-a-number.
    pub open spec fn spec_larger(self, other: F32) -> F32 {
        if self.spec_is_nan() || self.spec_less(other) {
            other
        } else {
            self
        }
    }

    /// The number nearest to an integer.
    pub open spec fn spec_of_int(n: int) -> F32 {
        if n >= 0 {
            F32(nearest_bits(n as nat * pow2(149), 1, 23, 255) as u32)
        } else {
            F32(with_sign(true, nearest_bits((-n) as nat * pow2(149), 1, 23, 255), 23, 255) as u32)
        }
    }

    /// Square root, correctly rounded.
    pub open spec fn spec_root(self) -> F32 {
        let u = unsigned(self.0 as nat, 23, 255);
        if self.spec_is_nan() || (is_negative(self.0 as nat, 23, 255) && u != 0) {
            F32(not_a_number(23, 255) as u32)
        } else if u == 0 || is_infinity(self.0 as nat, 23, 255) {
            self
        } else {
            F32(root_bits(magnitude(u, 23) * pow2(149)) as u32)
        }
    }

    /// The whole part as a 32-bit count; below zero and not-a-number give 0,
    /// anything too large the largest count.
    pub open spec fn spec_whole_part(self) -> nat {
        if self.spec_is_nan() || is_negative(self.0 as nat, 23, 255) {
            0
        } else {
            let n = (magnitude(self.0 as nat, 23) / pow2(149)) as nat;
            if n < u32::MAX as nat {
                n
            } else {
                u32::MAX as nat
            }
        }
    }

    /// The nearest count, halves away from zero; below zero and not-a-number
    /// give 0, anything too large the largest count.
    pub open spec fn spec_rounded_count(self) -> nat {
        if self.spec_is_nan() || is_negative(self.0 as nat, 23, 255) {
            0
        } else {
            let n = ((2 * magnitude(self.0 as nat, 23) + pow2(149)) / pow2(150)) as nat;
            if n < usize::MAX as nat {
                n
            } else {
                usize::MAX as nat
            }
        }
    }

    pub fn is_nan(self) -> (r: bool)
        ensures
            r == self.spec_is_nan(),
    {
        proof {
            lemma_f32_format();
        }
        let (_, u) = split(self.0 as u64, 23, 255);
        u > 0x7f80_0000
    }

    pub fn is_finite(self) -> (r: bool)
        ensures
            r == self.spec_is_finite(),
    {
        proof {
            lemma_f32_format();
        }
        let (_, u) = split(self.0 as u64, 23, 255);
        u < 0x7f80_0000
    }

    pub fn plus(self, other: F32) -> (r: F32)
        ensures
            r == self.spec_plus(other),
    {
        proof {
            lemma_f32_format();
        }
        F32(add_patterns(self.0 as u64, other.0 as u64, 23, 255) as u32)
    }

    pub fn negated(self) -> (r: F32)
        ensures
            r == self.spec_negated(),
    {
        proof {
            lemma_f32_format();
        }
        let (n, u) = split(self.0 as u64, 23, 255);
        F32(join(!n, u, 23, 255) as u32)
    }

    pub fn minus(self, other: F32) -> (r: F32)
        ensures
            r == self.spec_minus(other),
    {
        self.plus(other.negated())
    }

    pub fn times(self, other: F32) -> (r: F32)
        ensures
            r == self.spec_times(other),
    {
        proof {
            lemma_f32_format();
        }
        F32(mul_patterns(self.0 as u64, other.0 as u64, 23, 255, 149) as u32)
    }

    pub fn over(self, other: F32) -> (r: F32)
        ensures
            r == self.spec_over(other),
    {
        proof {
            lemma_f32_format();
        }
        F32(div_patterns(self.0 as u64, other.0 as u64) as u32)
    }

    pub fn less(self, other: F32) -> (r: bool)
        ensures
            r == self.spec_less(other),
    {
        proof {
            lemma_f32_format();
        }
        less_patterns(self.0 as u64, other.0 as u64, 23, 255)
    }

    pub fn same(self, other: F32) -> (r: bool)
        ensures
            r == self.spec_same(other),
    {
        proof {
            lemma_f32_format();
        }
        equal_patterns(self.0 as u64, other.0 as u64, 23, 255)
    }

    pub fn larger(self, other: F32) -> (r: F32)
        ensures
            r == self.spec_larger(other),
    {
        if self.is_nan() || self.less(other) {
            other
        } else {
            self
        }
    }

    /// The number nearest to a count.
    pub fn from_u64(n: u64) -> (r: F32)
        ensures
            r == F32::spec_of_int(n as int),
    {
        proof {
            lemma_f32_format();
            lemma2_to64();
            lemma_pow2_le(64, 120);
            assert(pow2(0) == 1);
            lemma_nearest_bound(n as nat * pow2(149), 1, 23, 255);
        }
        F32(pack(n as u128, 149, 23, 0, 255) as u32)
    }

    /// The number nearest to an integer.
    pub fn from_i32(n: i32) -> (r: F32)
        ensures
            r == F32::spec_of_int(n as int),
    {
        if n >= 0 {
            F32::from_u64(n as u64)
        } else {
            proof {
                lemma_f32_format();
                lemma2_to64();
                lemma_pow2_le(64, 120);
                assert(pow2(0) == 1);
                lemma_nearest_bound((-n) as nat * pow2(149), 1, 23, 255);
            }
            let m: i64 = -(n as i64);
            F32(join(true, pack(m as u128, 149, 23, 0, 255), 23, 255) as u32)
        }
    }

    /// The number that a half-precision pattern stands for; its smallest step
    /// is 2^-24. Every not-a-number becomes the quiet one.
    pub open spec fn spec_of_half(h: u16) -> F32 {
        let neg = h >= 0x8000;
        let u = (h % 0x8000) as nat;
        if u > 0x7c00 {
            F32(not_a_number(23, 255) as u32)
        } else if u == 0x7c00 {
            F32(with_sign(neg, 255 * pow2(23), 23, 255) as u32)
        } else {
            F32(with_sign(neg, nearest_bits(magnitude(u, 10) * pow2(125), 1, 23, 255), 23, 255) as u32)
        }
    }

    /// Widening a finite half keeps its value: `steps` of 2^-149 are exactly
    /// its own steps of 2^-24.
    pub fn from_half(h: u16) -> (r: F32)
        ensures
            r == F32::spec_of_half(h),
            h % 0x8000 < 0x7c00 ==> r.spec_is_finite() && r.steps() == (if h >= 0x8000 {
                -(magnitude((h % 0x8000) as nat, 10) * pow2(125))
            } else {
                (magnitude((h % 0x8000) as nat, 10) * pow2(125)) as int
            }),
    {
        proof {
            lemma_f32_format();
            lemma2_to64();
        }
        let neg = h >= 0x8000;
        let u: u16 = h % 0x8000;
        if u > 0x7c00 {
            return F32(0x7fc0_0000);
        }
        if u == 0x7c00 {
            return F32(join(neg, 0x7f80_0000, 23, 255) as u32);
        }
        let e: u16 = u / 0x400;
        let f: u16 = u % 0x400;
        let (m, k): (u16, u16) = if e == 0 {
            (f, 0)
        } else {
            (f + 0x400, (e - 1) as u16)
        };
        let p = bit_len(m as u128);
        proof {
            if e == 0 {
                assert(f * 1 == f);
            }
            if p > 11 {
                lemma_pow2_le(11, (p - 1) as nat);
            }
            lemma_pow2_adds(k as nat, 125);
            lemma_mul_is_associative(m as int, pow2(k as nat) as int, pow2(125) as int);
            lemma_pow2_le(16, 120);
            let x = m as nat * pow2((k + 125) as nat);
            lemma_nearest_bound(x, 1, 23, 255);
            lemma_pow2_adds(p as nat, (k + 125) as nat);
            lemma_pow2_pos((k + 125) as nat);
            lemma_mul_strict_inequality(m as int, pow2(p as nat) as int, pow2((k + 125) as nat) as int);
            lemma_pow2_le((p + k + 125) as nat, 254);
            lemma_pow2_adds(23, 254);
            assert(magnitude(255 * pow2(23), 23) >= pow2(254)) by {
                let b = 255 * pow2(23);
                lemma_fundamental_div_mod_converse(b as int, pow2(23) as int, 255, 0);
                lemma_pow2_pos(254);
                assert(pow2(23) * pow2(254) >= pow2(254)) by (nonlinear_arith)
                    requires
                        pow2(23) >= 1,
                        pow2(254) > 0,
                ;
            }
            lemma_narrow_is_exact(m as nat, (k + 125) as nat, p as nat, 23, 255);
        }
        let b = pack(m as u128, (k + 125) as u32, 23, 0, 255);
        F32(join(neg, b, 23, 255) as u32)
    }

    pub fn root(self) -> (r: F32)
        ensures
            r == self.spec_root(),
    {
        proof {
            lemma_f32_format();
        }
        let (neg, u) = split(self.0 as u64, 23, 255);
        if u > 0x7f80_0000 || (neg && u != 0) {
            proof {
                lemma2_to64();
            }
            return F32(0x7fc0_0000);
        }
        if u == 0 || u == 0x7f80_0000 {
            return self;
        }
        let (m, e) = decode(u, 23);
        let p = bit_len(m as u128);
        proof {
            lemma2_to64();
            lemma_zero_pattern(u as nat, 23);
            assert(0 * pow2(e as nat) == 0) by (nonlinear_arith);
            assert(e <= 300) by (nonlinear_arith)
                requires
                    u == e * 0x80_0000 + m,
                    u < 0x8000_0000,
                    m >= 0,
            ;
            if p > 24 {
                lemma_pow2_le(24, (p - 1) as nat);
            }
        }
        // the radicand m * 2^(e + 149) has p + e + 149 bits
        let len: u32 = p + e + 149;
        let t: u32 = (len - 47) / 2;
        let s: u32 = e + 149 - 2 * t;
        let ghost n: nat = magnitude(u as nat, 23) * pow2(149);
        let f = exp2(s);
        proof {
            lemma_pow2_adds(e as nat, 149);
            lemma_mul_is_associative(m as int, pow2(e as nat) as int, pow2(149) as int);
            lemma_pow2_adds(s as nat, (2 * t) as nat);
            lemma_mul_is_associative(m as int, f as int, pow2((2 * t) as nat) as int);
            lemma_pow2_pos((2 * t) as nat);
            lemma_pow2_pos(s as nat);
            // 2^46 <= m * 2^s < 2^48
            lemma_pow2_adds((p - 1) as nat, s as nat);
            lemma_pow2_adds(p as nat, s as nat);
            lemma_mul_inequality(pow2((p - 1) as nat) as int, m as int, f as int);
            lemma_mul_strict_inequality(m as int, pow2(p as nat) as int, f as int);
            lemma_pow2_le(46, (p - 1 + s) as nat);
            lemma_pow2_le((p + s) as nat, 48);
            lemma2_to64_rest();
            let a = (m * f) as nat;
            let d = pow2((2 * t) as nat);
            lemma_fundamental_div_mod_converse(n as int, d as int, a as int, 0);
            lemma_pow2_adds(46, (2 * t) as nat);
            lemma_pow2_adds(48, (2 * t) as nat);
            lemma_mul_inequality(pow2(46) as int, a as int, d as int);
            lemma_mul_strict_inequality(a as int, pow2(48) as int, d as int);
            assert(is_root_spacing(n, t as nat));
        }
        let q = nearest_root(((m as u128) * f) as u64);
        proof {
            lemma_root_unique(n, t as nat, q as nat);
        }
        F32((t as u64 * 0x80_0000 + q) as u32)
    }

    /// The whole part, as a 32-bit count.
    pub fn whole_part(self) -> (r: u32)
        ensures
            r == self.spec_whole_part(),
    {
        proof {
            lemma_f32_format();
            lemma2_to64();
        }
        let (neg, u) = split(self.0 as u64, 23, 255);
        if u > 0x7f80_0000 || neg {
            return 0;
        }
        let (m, e) = decode(u, 23);
        let ghost x = magnitude(u as nat, 23);
        proof {
            lemma_pow2_pos(149);
        }
        if e >= 149 {
            let s: u32 = e - 149;
            let ghost k = m as nat * pow2(s as nat);
            proof {
                lemma_pow2_adds(s as nat, 149);
                lemma_pow2_pos(s as nat);
                lemma_mul_is_associative(m as int, pow2(s as nat) as int, pow2(149) as int);
                lemma_fundamental_div_mod_converse(x as int, pow2(149) as int, k as int, 0);
            }
            if s >= 32 {
                proof {
                    lemma_pow2_le(32, s as nat);
                    assert(k >= pow2(s as nat)) by (nonlinear_arith)
                        requires
                            k == m as nat * pow2(s as nat),
                            m >= 1,
                            pow2(s as nat) >= 0,
                    ;
                }
                return u32::MAX;
            }
            let f = exp2(s);
            proof {
                lemma_pow2_le(s as nat, 32);
                assert(m * f <= 0x100_0000 * 0x1_0000_0000) by (nonlinear_arith)
                    requires
                        0 <= m <= 0x100_0000,
                        0 <= f <= 0x1_0000_0000,
                ;
            }
            let n: u128 = (m as u128) * f;
            if n < u32::MAX as u128 {
                n as u32
            } else {
                u32::MAX
            }
        } else {
            let s: u32 = 149 - e;
            let ghost pe = pow2(e as nat);
            let ghost ps = pow2(s as nat);
            proof {
                lemma_pow2_pos(e as nat);
                lemma_pow2_pos(s as nat);
                lemma_pow2_adds(s as nat, e as nat);
                lemma_fundamental_div_mod(m as int, ps as int);
                lemma_mod_bound(m as int, ps as int);
                let (q, rest) = (m as int / ps as int, m as int % ps as int);
                assert(x == pow2(149) * q + rest * pe && 0 <= rest * pe < pow2(149)) by (nonlinear_arith)
                    requires
                        x == m as nat * pe,
                        m == ps * q + rest,
                        pow2(149) == ps * pe,
                        0 <= rest < ps,
                        pe > 0,
                ;
                lemma_mul_is_commutative(pow2(149) as int, q);
                lemma_fundamental_div_mod_converse(x as int, pow2(149) as int, q, rest * pe);
            }
            if s >= 32 {
                proof {
                    lemma_pow2_le(32, s as nat);
                    lemma_basic_div(m as int, ps as int);
                }
                return 0;
            }
            let f = exp2(s);
            proof {
                lemma_pow2_le(s as nat, 32);
                lemma_div_is_ordered_by_denominator(m as int, 1, ps as int);
                lemma_div_basics(m as int);
            }
            (m as u128 / f) as u32
        }
    }

    pub fn rounded_count(self) -> (r: usize)
        ensures
            r == self.spec_rounded_count(),
    {
        proof {
            lemma_f32_format();
            lemma2_to64();
        }
        let (neg, u) = split(self.0 as u64, 23, 255);
        if u > 0x7f80_0000 || neg {
            return 0;
        }
        let (m, e) = decode(u, 23);
        let ghost x = magnitude(u as nat, 23);
        proof {
            lemma_pow2_unfold(150);
            lemma_pow2_pos(149);
        }
        if e >= 149 {
            let s: u32 = e - 149;
            proof {
                // a whole number of units
                lemma_pow2_adds(s as nat, 149);
                lemma_pow2_pos(s as nat);
                let k = m as nat * pow2(s as nat);
                lemma_mul_is_associative(m as int, pow2(s as nat) as int, pow2(149) as int);
                assert(2 * x + pow2(149) == k * pow2(150) + pow2(149)) by (nonlinear_arith)
                    requires
                        x == k * pow2(149),
                        pow2(150) == 2 * pow2(149),
                ;
                lemma_fundamental_div_mod_converse((2 * x + pow2(149)) as int, pow2(150) as int, k as int, pow2(149) as int);
            }
            if s > 64 {
                proof {
                    lemma_pow2_le(64, s as nat);
                    let k = m as nat * pow2(s as nat);
                    assert(k >= pow2(s as nat)) by (nonlinear_arith)
                        requires
                            k == m as nat * pow2(s as nat),
                            m >= 1,
                            pow2(s as nat) >= 0,
                    ;
                }
                return usize::MAX;
            }
            let f = exp2(s);
            proof {
                lemma_pow2_le(s as nat, 64);
                assert(m * f <= 0x100_0000 * 0x1_0000_0000_0000_0000) by (nonlinear_arith)
                    requires
                        0 <= m <= 0x100_0000,
                        0 <= f <= 0x1_0000_0000_0000_0000,
                ;
            }
            let k: u128 = (m as u128) * f;
            if k < usize::MAX as u128 {
                k as usize
            } else {
                usize::MAX
            }
        } else {
            let s: u32 = 149 - e;
            let ghost pe = pow2(e as nat);
            proof {
                lemma_pow2_pos(e as nat);
                lemma_pow2_adds(s as nat, e as nat);
                lemma_pow2_adds((s + 1) as nat, e as nat);
            }
            if s > 64 {
                proof {
                    lemma_pow2_le(64, s as nat);
                    assert(2 * x + pow2(149) < pow2(150)) by (nonlinear_arith)
                        requires
                            x == m as nat * pe,
                            pow2(149) == pow2(s as nat) * pe,
                            pow2(150) == 2 * pow2(149),
                            m < 0x100_0000,
                            pow2(s as nat) >= 0x1_0000_0000_0000_0000,
                            pe > 0,
                    ;
                    lemma_basic_div((2 * x + pow2(149)) as int, pow2(150) as int);
                }
                return 0;
            }
            let half = exp2(s);
            let whole = exp2(s + 1);
            proof {
                lemma_pow2_le(s as nat, 64);
                lemma_pow2_unfold((s + 1) as nat);
                let k: nat = (2 * m + half) as nat;
                assert(2 * x + pow2(149) == k * pe) by (nonlinear_arith)
                    requires
                        x == m as nat * pe,
                        pow2(149) == half * pe,
                        k == 2 * m + half,
                ;
                lemma_pow2_pos((s + 1) as nat);
                lemma_div_denominator((k * pe) as int, pe as int, whole as int);
                lemma_mul_is_commutative(pe as int, whole as int);
                lemma_div_by_multiple(k as int, pe as int);
                lemma_div_nonincreasing(k as int, whole as int);
            }
            let k: u128 = (2 * (m as u128) + half) / whole;
            if k < usize::MAX as u128 {
                k as usize
            } else {
                usize::MAX
            }
        }
    }
}

impl F64 {
    pub open spec fn spec_is_nan(self) -> bool {
        is_not_a_number(self.0 as nat, 52, 2047)
    }

    /// Value in steps of 2^-1074.
    pub open spec fn steps(self) -> int {
        value(self.0 as nat, 52, 2047)
    }

    pub open spec fn spec_plus(self, other: F64) -> F64 {
        F64(sum_bits(self.0 as nat, other.0 as nat, 52, 2047) as u64)
    }

    /// `self < other`.
    pub open spec fn spec_less(self, other: F64) -> bool {
        less_bits(self.0 as nat, other.0 as nat, 52, 2047)
    }

    /// `self == other`, by value.
    pub open spec fn spec_same(self, other: F64) -> bool {
        equal_bits(self.0 as nat, other.0 as nat, 52, 2047)
    }

    /// The number nearest to `n * 2^e`, for `e >= -1074`.
    pub open spec fn spec_of_scaled(n: int, e: int) -> F64 {
        let scale = pow2((e + 1074) as nat);
        if n >= 0 {
            F64(nearest_bits(n as nat * scale, 1, 52, 2047) as u64)
        } else {
            F64(with_sign(true, nearest_bits((-n) as nat * scale, 1, 52, 2047), 52, 2047) as u64)
        }
    }

    /// Rounded to single precision.
    pub open spec fn spec_to_f32(self) -> F32 {
        let neg = is_negative(self.0 as nat, 52, 2047);
        if self.spec_is_nan() {
            F32(not_a_number(23, 255) as u32)
        } else if is_infinity(self.0 as nat, 52, 2047) {
            F32(with_sign(neg, 255 * pow2(23), 23, 255) as u32)
        } else {
            let m = magnitude(unsigned(self.0 as nat, 52, 2047), 52);
            F32(with_sign(neg, nearest_bits(m, pow2(925), 23, 255), 23, 255) as u32)
        }
    }

    pub fn plus(self, other: F64) -> (r: F64)
        ensures
            r == self.spec_plus(other),
    {
        proof {
            lemma_f64_format();
        }
        F64(add_patterns(self.0, other.0, 52, 2047))
    }

    pub fn less(self, other: F64) -> (r: bool)
        ensures
            r == self.spec_less(other),
    {
        proof {
            lemma_f64_format();
        }
        less_patterns(self.0, other.0, 52, 2047)
    }

    pub fn same(self, other: F64) -> (r: bool)
        ensures
            r == self.spec_same(other),
    {
        proof {
            lemma_f64_format();
        }
        equal_patterns(self.0, other.0, 52, 2047)
    }

    /// The number nearest to `n * 2^-k`.
    fn from_scaled(neg: bool, n: u64, k: u32) -> (r: F64)
        requires
            k <= 1074,
            neg ==> n > 0,
        ensures
            r == F64::spec_of_scaled(if neg { -(n as int) } else { n as int }, -(k as int)),
    {
        proof {
            lemma_f64_format();
            lemma2_to64();
            lemma_pow2_le(64, 120);
            assert(pow2(0) == 1);
            lemma_nearest_bound(n as nat * pow2((1074 - k) as nat), 1, 52, 2047);
        }
        F64(join(neg, pack(n as u128, 1074 - k, 52, 0, 2047), 52, 2047))
    }

    pub fn from_u64(n: u64) -> (r: F64)
        ensures
            r == F64::spec_of_scaled(n as int, 0),
    {
        F64::from_scaled(false, n, 0)
    }

    pub fn from_i64(n: i64) -> (r: F64)
        ensures
            r == F64::spec_of_scaled(n as int, 0),
    {
        if n >= 0 {
            F64::from_scaled(false, n as u64, 0)
        } else {
            let m: i128 = -(n as i128);
            F64::from_scaled(true, m as u64, 0)
        }
    }

    /// `n / 2^53`.
    pub fn from_fraction53(n: u64) -> (r: F64)
        ensures
            r == F64::spec_of_scaled(n as int, -53),
    {
        F64::from_scaled(false, n, 53)
    }

    pub fn to_f32(self) -> (r: F32)
        ensures
            r == self.spec_to_f32(),
    {
        proof {
            lemma_f64_format();
            lemma_f32_format();
            lemma2_to64();
        }
        let (neg, u) = split(self.0, 52, 2047);
        if u > 0x7ff0_0000_0000_0000 {
            return F32(0x7fc0_0000);
        }
        if u == 0x7ff0_0000_0000_0000 {
            return F32(join(neg, 0x7f80_0000, 23, 255) as u32);
        }
        let (m, e) = decode(u, 52);
        proof {
            lemma2_to64_rest();
            lemma_pow2_le(60, 120);
            lemma_nearest_bound(magnitude(u as nat, 52), pow2(925), 23, 255);
        }
        let b = pack(m as u128, e, 23, 925, 255);
        F32(join(neg, b, 23, 255) as u32)
    }
}

} // verus!
