//! Rounding of a scaled integer, and what it rests on.

use vstd::prelude::*;
use vstd::arithmetic::div_mod::*;
use vstd::arithmetic::mul::*;
use vstd::arithmetic::power2::*;
use crate::dyadic;
use super::{Binary64, LIMIT, MAX_EXPONENT, MIN_EXPONENT, NORMAL};

verus! {

/// `num / den` is `mag` and a fraction, in units of `2^exp`; `rest` is the fraction's numerator.
pub open spec fn is_split(num: nat, den: nat, mag: nat, rest: nat, exp: int) -> bool {
    &&& den > 0
    &&& rest < den * dyadic::up(exp)
    &&& num * dyadic::down(exp) == mag * (den * dyadic::up(exp)) + rest
}

/// Where `x` is not below `exp`: the ratio in units of `2^x`, from the one in units of `2^exp`.
pub proof fn lemma_coarser(num: nat, den: nat, exp: int, x: int)
    requires
        den > 0,
        exp <= x,
    ensures
        ({
            let a = num * dyadic::down(exp);
            let b = den * dyadic::up(exp) * pow2((x - exp) as nat);
            &&& b > 0
            &&& dyadic::nearest_even(num * dyadic::down(x), den * dyadic::up(x))
                == dyadic::nearest_even(a, b)
            &&& Binary64::fits(num, den, x) <==> a < b * LIMIT
        }),
{
    lemma2_to64();
    let p = pow2((x - exp) as nat);
    lemma_pow2_pos((x - exp) as nat);
    dyadic::lemma_up_pos(exp);
    dyadic::lemma_up_pos(x);
    dyadic::lemma_up_adds(exp, x - exp);
    assert(exp + (x - exp) == x);
    assert(dyadic::up(x - exp) == p && dyadic::down(x - exp) == 1);
    lemma_same_ratio(num, den, dyadic::up(exp), dyadic::down(exp), p, dyadic::up(x), dyadic::down(x));
}

proof fn lemma_same_ratio(num: nat, den: nat, ue: nat, de: nat, p: nat, ux: nat, dx: nat)
    requires
        den > 0 && ue > 0 && de > 0 && p > 0 && ux > 0 && dx > 0,
        ue * p * dx == de * 1 * ux,
    ensures
        den * ue * p > 0,
        dyadic::nearest_even(num * dx, den * ux) == dyadic::nearest_even(num * de, den * ue * p),
        num * dx < den * ux * LIMIT <==> num * de < den * ue * p * LIMIT,
{
    assert(den * ue * p > 0) by (nonlinear_arith)
        requires
            den > 0 && ue > 0 && p > 0,
    ;
    assert(den * ux > 0) by (nonlinear_arith)
        requires
            den > 0 && ux > 0,
    ;
    let a = num * dx;
    let b = den * ux;
    let c = num * de;
    let d = den * ue * p;
    assert(a * d == c * b) by (nonlinear_arith)
        requires
            a == num * dx,
            b == den * ux,
            c == num * de,
            d == den * ue * p,
            ue * p * dx == de * 1 * ux,
    {
        assert(a * d == num * den * (ue * p * dx));
        assert(c * b == num * den * (de * ux));
    }
    dyadic::lemma_nearest_even_of_equal_ratios(a, b, c, d);
    let l = LIMIT as nat;
    assert(a < b * l <==> c < d * l) by (nonlinear_arith)
        requires
            a * d == c * b,
            b > 0,
            d > 0,
            l > 0,
    {
        assert(a < b * l <==> a * d < b * l * d);
        assert(c < d * l <==> c * b < d * l * b);
        assert(b * l * d == d * l * b);
    }
}

/// Where `x` is not above `exp` and the ratio is `mag` units of `2^exp` exactly.
pub proof fn lemma_finer(num: nat, den: nat, mag: nat, exp: int, x: int)
    requires
        is_split(num, den, mag, 0, exp),
        x <= exp,
    ensures
        dyadic::nearest_even(num * dyadic::down(x), den * dyadic::up(x)) == mag * pow2(
            (exp - x) as nat,
        ),
        Binary64::fits(num, den, x) <==> mag * pow2((exp - x) as nat) < LIMIT,
{
    lemma2_to64();
    let p = pow2((exp - x) as nat);
    lemma_pow2_pos((exp - x) as nat);
    dyadic::lemma_up_pos(exp);
    dyadic::lemma_up_pos(x);
    dyadic::lemma_up_adds(x, exp - x);
    assert(x + (exp - x) == exp);
    let (ue, de, ux, dx) = (dyadic::up(exp), dyadic::down(exp), dyadic::up(x), dyadic::down(x));
    assert(dyadic::up(exp - x) == p && dyadic::down(exp - x) == 1);
    let a = num * dx;
    let b = den * ux;
    let c = mag * p;
    assert(b > 0) by (nonlinear_arith)
        requires
            den > 0 && ux > 0 && b == den * ux,
    ;
    let k = de * ue;
    let whole = mag * (den * ue);
    assert(k > 0) by (nonlinear_arith)
        requires
            de > 0 && ue > 0 && k == de * ue,
    ;
    assert(a * k == (num * de) * (dx * 1 * ue)) by (nonlinear_arith)
        requires
            a == num * dx,
            k == de * ue,
    ;
    assert(whole * (ux * p * de) == (c * b) * k) by (nonlinear_arith)
        requires
            whole == mag * (den * ue),
            c == mag * p,
            b == den * ux,
            k == de * ue,
    ;
    assert(num * de == whole);
    let cb = c * b;
    assert(a == cb) by (nonlinear_arith)
        requires
            a * k == cb * k,
            k > 0,
    ;
    assert(a * 1 == c * b);
    dyadic::lemma_nearest_even_of_equal_ratios(a, b, c, 1);
    assert(c / 1 == c && c % 1 == 0);
    assert(a < b * LIMIT <==> c < LIMIT) by (nonlinear_arith)
        requires
            a == c * b,
            b > 0,
    ;
}

pub proof fn lemma_fits_upward(num: nat, den: nat, x: int, y: int)
    requires
        den > 0,
        x <= y,
        Binary64::fits(num, den, x),
    ensures
        Binary64::fits(num, den, y),
{
    lemma_coarser(num, den, x, y);
    let p = pow2((y - x) as nat);
    lemma_pow2_pos((y - x) as nat);
    let b = den * dyadic::up(x);
    let l = LIMIT as nat;
    assert(b * l <= b * p * l) by (nonlinear_arith)
        requires
            p >= 1,
            b >= 0,
            l >= 0,
    ;
}

pub proof fn lemma_unit(num: nat, den: nat, x: int)
    requires
        den > 0,
        Binary64::is_unit(num, den, x),
    ensures
        Binary64::unit(num, den) == x,
{
    let y = Binary64::unit(num, den);
    assert(Binary64::is_unit(num, den, y));
    if x < y {
        lemma_fits_upward(num, den, x, y - 1);
    } else if y < x {
        lemma_fits_upward(num, den, y, x - 1);
    }
}

/// Half-even rounding of `mag` and a fraction, `sh` binary digits above the unit.
proof fn lemma_drop_digits(mag: nat, rest: nat, b: nat, p: nat)
    requires
        rest < b,
        p > 0,
        p % 2 == 0,
    ensures
        dyadic::nearest_even(mag * b + rest, b * p) == {
            let q = mag / p;
            let low = mag % p;
            if low > p / 2 || (low == p / 2 && (rest > 0 || q % 2 == 1)) {
                q + 1
            } else {
                q
            }
        },
{
    let q = mag / p;
    let low = mag % p;
    let h = p / 2;
    lemma_fundamental_div_mod(mag as int, p as int);
    let r = low * b + rest;
    let d = b * p;
    assert(mag * b + rest == q * d + r) by (nonlinear_arith)
        requires
            mag == p * q + low,
            r == low * b + rest,
            d == b * p,
    ;
    assert(r < d) by (nonlinear_arith)
        requires
            low + 1 <= p,
            rest < b,
            r == low * b + rest,
            d == b * p,
    ;
    lemma_fundamental_div_mod_converse((mag * b + rest) as int, d as int, q as int, r as int);
    assert(2 * h == p);
    if low > h {
        assert(2 * r > d) by (nonlinear_arith)
            requires
                low >= h + 1,
                2 * h == p,
                rest < b,
                r == low * b + rest,
                d == b * p,
        ;
    } else if low < h {
        assert(2 * r < d) by (nonlinear_arith)
            requires
                low + 1 <= h,
                2 * h == p,
                rest < b,
                r == low * b + rest,
                d == b * p,
        ;
    } else {
        assert(2 * r == d + 2 * rest) by (nonlinear_arith)
            requires
                low == h,
                2 * h == p,
                r == low * b + rest,
                d == b * p,
        ;
    }
}

proof fn lemma_mag_fits(mag: nat, rest: nat, b: nat, p: nat)
    requires
        rest < b,
    ensures
        mag * b + rest < b * p * LIMIT <==> mag < p * LIMIT,
{
    let l = LIMIT as nat;
    assert(mag * b + rest < b * p * l <==> mag < p * l) by (nonlinear_arith)
        requires
            rest < b,
    {
        let m = p * l;
        assert(b * p * l == b * m);
        if mag < m {
            assert((mag + 1) * b <= m * b);
        } else {
            assert(mag * b >= m * b);
        }
    }
}

pub proof fn lemma_pow2_ordered(a: nat, b: nat)
    requires
        a <= b,
    ensures
        pow2(a) <= pow2(b),
{
    if a < b {
        lemma_pow2_strictly_increases(a, b);
    }
}

/// A ratio of `bits` binary digits above `2^exp` fits under `2^53 * 2^x` by its digits alone.
proof fn lemma_fits_by_digits(num: nat, den: nat, mag: nat, rest: nat, exp: int, bits: nat, x: int)
    requires
        is_split(num, den, mag, rest, exp),
        bits > 0,
        pow2((bits - 1) as nat) <= mag < pow2(bits),
        rest == 0 || x >= exp,
    ensures
        Binary64::fits(num, den, x) <==> x >= exp + bits - 53,
{
    lemma2_to64_rest();
    assert(pow2(53) == LIMIT);
    if x >= exp {
        let n = (x - exp) as nat;
        let b = den * dyadic::up(exp);
        lemma_coarser(num, den, exp, x);
        lemma_mag_fits(mag, rest, b, pow2(n));
        lemma_pow2_adds(n, 53);
        if n + 53 >= bits {
            lemma_pow2_ordered(bits, n + 53);
        } else {
            lemma_pow2_ordered(n + 53, (bits - 1) as nat);
        }
    } else {
        let n = (exp - x) as nat;
        lemma_finer(num, den, mag, exp, x);
        let p = pow2(n);
        lemma_pow2_pos(n);
        if n + bits <= 53 {
            lemma_pow2_adds(bits, n);
            lemma_pow2_ordered(bits + n, 53);
            lemma_mul_strict_inequality(mag as int, pow2(bits) as int, p as int);
        } else {
            lemma_pow2_adds((bits - 1) as nat, n);
            lemma_pow2_ordered(53, ((bits - 1) + n) as nat);
            lemma_mul_inequality(pow2((bits - 1) as nat) as int, mag as int, p as int);
        }
    }
}

/// `2^n`.
pub(super) fn power(n: u32) -> (p: u128)
    requires
        n < 127,
    ensures
        p == pow2(n as nat),
{
    proof {
        lemma_power(n as u128);
    }
    1u128 << n
}

proof fn lemma_power(n: u128)
    requires
        n < 127,
    ensures
        1u128 << n == pow2(n as nat),
    decreases n,
{
    if n == 0 {
        assert(1u128 << 0u128 == 1u128) by (bit_vector);
        lemma2_to64();
    } else {
        let m: u128 = (n - 1) as u128;
        lemma_power(m);
        lemma_pow2_unfold(n as nat);
        assert(1u128 << n == 2 * (1u128 << m)) by (bit_vector)
            requires
                0 < n < 127,
                m == n - 1,
        ;
    }
}

/// The number of binary digits of `mag`.
fn bit_length(mag: u128) -> (bits: u32)
    requires
        0 < mag,
        mag < pow2(120),
    ensures
        0 < bits <= 120,
        pow2((bits - 1) as nat) <= mag < pow2(bits as nat),
{
    let mut bits: u32 = 0;
    let mut high: u128 = mag;
    proof {
        lemma2_to64();
    }
    while high > 0
        invariant
            0 < mag,
            mag < pow2(120),
            bits <= 120,
            high * pow2(bits as nat) <= mag < (high + 1) * pow2(bits as nat),
            high == 0 ==> bits > 0 && pow2((bits - 1) as nat) <= mag,
        decreases high,
    {
        let next: u128 = high / 2;
        proof {
            let p = pow2(bits as nat);
            lemma_pow2_pos(bits as nat);
            lemma_pow2_unfold((bits + 1) as nat);
            assert(p <= high * p) by (nonlinear_arith)
                requires
                    high >= 1,
            ;
            if bits >= 120 {
                lemma_pow2_ordered(120, bits as nat);
            }
            assert(next * (2 * p) <= mag < (next + 1) * (2 * p)) by (nonlinear_arith)
                requires
                    high * p <= mag < (high + 1) * p,
                    2 * next <= high <= 2 * next + 1,
            ;
        }
        high = next;
        bits = bits + 1;
    }
    assert((high + 1) * pow2(bits as nat) == pow2(bits as nat)) by (nonlinear_arith)
        requires
            high == 0,
    ;
    bits
}

impl Binary64 {
    /// The number closest to `num / den`, which is `mag` and a fraction in units of `2^exp`;
    /// `sticky` tells whether there is a fraction.
    pub(super) fn round(
        negative: bool,
        mag: u128,
        sticky: bool,
        exp: i32,
        Ghost(num): Ghost<nat>,
        Ghost(den): Ghost<nat>,
        Ghost(rest): Ghost<nat>,
    ) -> (r: Binary64)
        requires
            is_split(num, den, mag as nat, rest, exp as int),
            sticky <==> rest > 0,
            sticky ==> mag >= pow2(55),
            mag < pow2(120),
            -5000 <= exp <= 5000,
        ensures
            r == Binary64::rounded(negative, num, den),
            r.wf(),
    {
        proof {
            lemma2_to64();
            lemma2_to64_rest();
        }
        if mag == 0 {
            proof {
                lemma_round_zero(num, den, exp as int);
            }
            return Binary64::Finite { negative, significand: 0, exponent: MIN_EXPONENT };
        }
        let bits: u32 = bit_length(mag);
        let natural: i32 = exp + bits as i32 - 53;
        let x: i32 = if natural < MIN_EXPONENT {
            MIN_EXPONENT
        } else {
            natural
        };
        proof {
            if sticky && bits < 56 {
                lemma_pow2_ordered(bits as nat, 55);
            }
            lemma_fits_by_digits(num, den, mag as nat, rest, exp as int, bits as nat, x as int);
            lemma_fits_by_digits(num, den, mag as nat, rest, exp as int, bits as nat, x - 1);
            lemma_unit(num, den, x as int);
        }
        let significand: u64 = if x <= exp {
            Self::widen(mag, bits, x, exp, Ghost(num), Ghost(den))
        } else {
            Self::narrow(mag, sticky, bits, x, exp, Ghost(num), Ghost(den), Ghost(rest))
        };
        if significand < LIMIT {
            if x > MAX_EXPONENT {
                Binary64::Infinity { negative }
            } else {
                Binary64::Finite { negative, significand, exponent: x }
            }
        } else if x >= MAX_EXPONENT {
            Binary64::Infinity { negative }
        } else {
            Binary64::Finite { negative, significand: NORMAL, exponent: x + 1 }
        }
    }

    /// The significand where all digits of `mag` are kept.
    fn widen(
        mag: u128,
        bits: u32,
        x: i32,
        exp: i32,
        Ghost(num): Ghost<nat>,
        Ghost(den): Ghost<nat>,
    ) -> (s: u64)
        requires
            is_split(num, den, mag as nat, 0, exp as int),
            0 < bits <= 120,
            pow2((bits - 1) as nat) <= mag < pow2(bits as nat),
            -5000 <= exp <= 5000,
            x <= exp,
            x >= exp + bits - 53,
            x >= MIN_EXPONENT,
            x == MIN_EXPONENT || x == exp + bits - 53,
        ensures
            s == dyadic::nearest_even(num * dyadic::down(x as int), den * dyadic::up(x as int)),
            s < LIMIT,
            s >= NORMAL || x == MIN_EXPONENT,
    {
        let n: u32 = (exp - x) as u32;
        proof {
            lemma2_to64_rest();
            lemma_finer(num, den, mag as nat, exp as int, x as int);
            lemma_fits_by_digits(num, den, mag as nat, 0, exp as int, bits as nat, x as int);
            if x == exp + bits - 53 {
                lemma_pow2_adds((bits - 1) as nat, n as nat);
                lemma_mul_inequality(
                    pow2((bits - 1) as nat) as int,
                    mag as int,
                    pow2(n as nat) as int,
                );
            }
        }
        (mag * power(n)) as u64
    }

    /// The significand where digits of `mag` are dropped.
    fn narrow(
        mag: u128,
        sticky: bool,
        bits: u32,
        x: i32,
        exp: i32,
        Ghost(num): Ghost<nat>,
        Ghost(den): Ghost<nat>,
        Ghost(rest): Ghost<nat>,
    ) -> (s: u64)
        requires
            is_split(num, den, mag as nat, rest, exp as int),
            sticky <==> rest > 0,
            mag < pow2(120),
            0 < bits <= 120,
            pow2((bits - 1) as nat) <= mag < pow2(bits as nat),
            -5000 <= exp <= 5000,
            x > exp,
            x >= exp + bits - 53,
            MIN_EXPONENT <= x <= 6000,
            x == MIN_EXPONENT || x == exp + bits - 53,
        ensures
            s == dyadic::nearest_even(num * dyadic::down(x as int), den * dyadic::up(x as int)),
            s <= LIMIT,
            s >= NORMAL || x == MIN_EXPONENT,
    {
        let n: u32 = (x - exp) as u32;
        let ghost p = pow2(n as nat);
        let ghost half = pow2((n - 1) as nat);
        proof {
            lemma2_to64_rest();
            lemma_pow2_unfold(n as nat);
            lemma_pow2_pos((n - 1) as nat);
            let b = den * dyadic::up(exp as int);
            lemma_coarser(num, den, exp as int, x as int);
            lemma_drop_digits(mag as nat, rest, b, p);
        }
        if n > 120 {
            proof {
                lemma_pow2_ordered(120, (n - 1) as nat);
                lemma_small_mod(mag as nat, p);
                lemma_basic_div(mag as int, p as int);
                assert(x == MIN_EXPONENT);
            }
            return 0;
        }
        let unit: u128 = power(n);
        let q: u128 = mag / unit;
        let low: u128 = mag % unit;
        proof {
            lemma_pow2_ordered(bits as nat, n as nat + 53);
            lemma_pow2_adds(n as nat, 53);
            lemma_multiply_divide_lt(mag as int, p as int, LIMIT as int);
            if x == exp + bits - 53 {
                lemma_pow2_adds(n as nat, 52);
                lemma_multiply_divide_le_converse(mag as nat, p, NORMAL as nat);
            }
        }
        if low > unit / 2 || (low == unit / 2 && (sticky || q % 2 == 1)) {
            (q + 1) as u64
        } else {
            q as u64
        }
    }
}

pub proof fn lemma_multiply_divide_le_converse(a: nat, d: nat, m: nat)
    requires
        d > 0,
        m * d <= a,
    ensures
        m <= a / d,
{
    lemma_fundamental_div_mod(a as int, d as int);
    let q = a / d;
    let r = a % d;
    assert(m <= q) by (nonlinear_arith)
        requires
            a == d * q + r,
            0 <= r < d,
            m * d <= a,
    ;
}

pub proof fn lemma_round_zero(num: nat, den: nat, exp: int)
    requires
        is_split(num, den, 0, 0, exp),
    ensures
        forall|negative: bool|
            #![auto]
            Binary64::rounded(negative, num, den) == (Binary64::Finite {
                negative,
                significand: 0,
                exponent: MIN_EXPONENT,
            }),
{
    dyadic::lemma_up_pos(exp);
    let x = MIN_EXPONENT as int;
    dyadic::lemma_up_pos(x);
    let d = dyadic::down(exp);
    let ux = dyadic::up(x);
    let b = den * ux;
    assert(num == 0) by (nonlinear_arith)
        requires
            num * d == 0,
            d > 0,
    ;
    assert(b > 0) by (nonlinear_arith)
        requires
            den > 0,
            ux > 0,
            b == den * ux,
    ;
    assert(num * dyadic::down(x) == 0) by (nonlinear_arith)
        requires
            num == 0,
    ;
    assert(Binary64::is_unit(num, den, x));
    lemma_unit(num, den, x);
    lemma_small_mod(0, b);
    lemma_basic_div(0, b as int);
}

} // verus!
