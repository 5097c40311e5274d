//! How far rounding takes a number.

use vstd::prelude::*;
use vstd::arithmetic::div_mod::*;
use vstd::arithmetic::mul::*;
use vstd::arithmetic::power2::*;
use crate::dyadic;
use super::rounding;
use super::{Binary64, LIMIT, MAX_EXPONENT, MIN_EXPONENT, NORMAL};

verus! {

/// Every ratio has a unit.
pub proof fn lemma_unit_exists(num: nat, den: nat)
    requires
        den > 0,
    ensures
        Binary64::is_unit(num, den, Binary64::unit(num, den)),
{
    let p = pow2(num);
    lemma_pow2_above(num);
    lemma2_to64();
    assert(num * 1 < den * p * LIMIT) by (nonlinear_arith)
        requires
            num < p,
            den >= 1,
    ;
    lemma_unit_below(num, den, num as int);
}

proof fn lemma_pow2_above(n: nat)
    ensures
        n < pow2(n),
    decreases n,
{
    lemma2_to64();
    if n > 0 {
        lemma_pow2_above((n - 1) as nat);
        lemma_pow2_unfold(n);
    }
}

proof fn lemma_unit_below(num: nat, den: nat, x: int)
    requires
        den > 0,
        x >= MIN_EXPONENT,
        Binary64::fits(num, den, x),
    ensures
        exists|y: int| Binary64::is_unit(num, den, y),
    decreases x - MIN_EXPONENT,
{
    if x == MIN_EXPONENT || !Binary64::fits(num, den, x - 1) {
        assert(Binary64::is_unit(num, den, x));
    } else {
        lemma_unit_below(num, den, x - 1);
    }
}

/// A number that the format holds is not changed by rounding.
pub proof fn law_representable_is_kept(a: Binary64)
    requires
        a is Finite,
        a.wf(),
    ensures
        Binary64::rounded(a.sign(), a.num(), a.den()) == a,
{
    let m = a->significand as nat;
    let e = a->exponent as int;
    let (u, d) = (dyadic::up(e), dyadic::down(e));
    dyadic::lemma_up_pos(e);
    lemma2_to64();
    lemma2_to64_rest();
    assert(d * u > 0 && m * u * d == m * (d * u)) by (nonlinear_arith)
        requires
            d > 0,
            u > 0,
    ;
    if m == 0 {
        rounding::lemma_round_zero(a.num(), a.den(), e);
    } else {
        rounding::lemma_finer(a.num(), a.den(), m, e, e);
        rounding::lemma_finer(a.num(), a.den(), m, e, e - 1);
        let (p0, p1) = (pow2((e - e) as nat), pow2((e - (e - 1)) as nat));
        assert(m * p0 == m && m * p1 == 2 * m) by (nonlinear_arith)
            requires
                p0 == 1,
                p1 == 2,
        ;
        rounding::lemma_unit(a.num(), a.den(), e);
    }
}

/// `num / den` is neither so small nor so large that its rounding loses digits.
pub open spec fn is_normal(num: nat, den: nat) -> bool {
    &&& den > 0
    &&& !Binary64::fits(num, den, MIN_EXPONENT - 1)
    &&& Binary64::fits(num, den, MAX_EXPONENT - 1)
}

/// Above the subnormal numbers, the significand before rounding is that of a normal number.
pub proof fn lemma_full_significand(num: nat, den: nat)
    requires
        den > 0,
        Binary64::unit(num, den) > MIN_EXPONENT || !Binary64::fits(num, den, MIN_EXPONENT - 1),
    ensures
        ({
            let x = Binary64::unit(num, den);
            num * dyadic::down(x) >= NORMAL * (den * dyadic::up(x))
        }),
{
    lemma_unit_exists(num, den);
    let x = Binary64::unit(num, den);
    lemma2_to64();
    dyadic::lemma_up_pos(x);
    dyadic::lemma_up_pos(x - 1);
    dyadic::lemma_up_adds(x - 1, 1);
    assert(x - 1 + 1 == x);
    assert(dyadic::up(1) == 2 && dyadic::down(1) == 1);
    lemma_halved_unit(
        num,
        den,
        dyadic::up(x - 1),
        dyadic::down(x - 1),
        dyadic::up(x),
        dyadic::down(x),
    );
}

/// Rounding changes a number by at most one part in `2^53`.
pub proof fn law_relative_error(negative: bool, num: nat, den: nat)
    requires
        is_normal(num, den),
    ensures
        ({
            let r = Binary64::rounded(negative, num, den);
            &&& r is Finite
            &&& r.wf()
            &&& r.sign() == negative
            &&& r.num() * den * LIMIT <= num * r.den() * (LIMIT + 1)
            &&& num * r.den() * (LIMIT - 1) <= r.num() * den * LIMIT
        }),
{
    lemma_unit_exists(num, den);
    let x = Binary64::unit(num, den);
    if x > MAX_EXPONENT - 1 {
        rounding::lemma_fits_upward(num, den, MAX_EXPONENT - 1, x - 1);
    }
    let (ux, dx) = (dyadic::up(x), dyadic::down(x));
    dyadic::lemma_up_pos(x);
    let a = num * dx;
    let b = den * ux;
    lemma2_to64();
    assert(b > 0) by (nonlinear_arith)
        requires
            den > 0,
            ux > 0,
            b == den * ux,
    ;
    lemma_full_significand(num, den);
    let s = dyadic::nearest_even(a, b);
    lemma_fundamental_div_mod(a as int, b as int);
    let q = a / b;
    let rest = a % b;
    assert(2 * s * b <= 2 * a + b && 2 * a <= 2 * s * b + b) by (nonlinear_arith)
        requires
            a == b * q + rest,
            0 <= rest < b,
            (s == q + 1 && 2 * rest >= b) || (s == q && 2 * rest <= b),
    ;
    assert(q >= NORMAL) by (nonlinear_arith)
        requires
            a == b * q + rest,
            0 <= rest < b,
            a >= NORMAL * b,
    ;
    assert(q < LIMIT) by (nonlinear_arith)
        requires
            a == b * q + rest,
            0 <= rest < b,
            a < b * LIMIT,
    ;
    let r = Binary64::rounded(negative, num, den);
    assert(s * b * LIMIT <= a * (LIMIT + 1) && a * (LIMIT - 1) <= s * b * LIMIT)
        by (nonlinear_arith)
        requires
            2 * s * b <= 2 * a + b,
            2 * a <= 2 * s * b + b,
            NORMAL * b <= a,
            LIMIT == 2 * NORMAL,
    ;
    if s < LIMIT {
        assert(r.num() * den == s * b) by (nonlinear_arith)
            requires
                r.num() == s * ux,
                b == den * ux,
        ;
        assert(num * r.den() == a);
    } else {
        let (uy, dy) = (dyadic::up(x + 1), dyadic::down(x + 1));
        dyadic::lemma_up_pos(x + 1);
        dyadic::lemma_up_adds(x, 1);
        assert(dyadic::up(1) == 2 && dyadic::down(1) == 1);
        assert(s == LIMIT);
        lemma_carried(num, den, s, ux, dx, uy, dy);
    }
}

proof fn lemma_halved_unit(num: nat, den: nat, u1: nat, d1: nat, ux: nat, dx: nat)
    requires
        u1 > 0 && d1 > 0 && ux > 0 && dx > 0,
        u1 * 2 * dx == d1 * 1 * ux,
        num * d1 >= den * u1 * LIMIT,
    ensures
        num * dx >= NORMAL * (den * ux),
{
    let lhs = num * dx;
    let rhs = NORMAL * (den * ux);
    assert(lhs * (2 * d1 * u1) >= rhs * (2 * d1 * u1)) by {
        assert(lhs * (2 * d1 * u1) == (num * d1) * (u1 * 2 * dx)) by (nonlinear_arith)
            requires
                lhs == num * dx,
        ;
        assert(rhs * (2 * d1 * u1) == (den * u1 * LIMIT) * (d1 * 1 * ux)) by (nonlinear_arith)
            requires
                rhs == NORMAL * (den * ux),
                LIMIT == 2 * NORMAL,
        ;
        lemma_mul_inequality(
            (den * u1 * LIMIT) as int,
            (num * d1) as int,
            (d1 * 1 * ux) as int,
        );
    }
    let k = 2 * d1 * u1;
    assert(k > 0) by (nonlinear_arith)
        requires
            k == 2 * d1 * u1,
            d1 > 0,
            u1 > 0,
    ;
    assert(lhs >= rhs) by (nonlinear_arith)
        requires
            lhs * k >= rhs * k,
            k > 0,
    ;
}

proof fn lemma_carried(num: nat, den: nat, s: nat, ux: nat, dx: nat, uy: nat, dy: nat)
    requires
        ux > 0 && dx > 0 && uy > 0 && dy > 0,
        ux * 2 * dy == dx * 1 * uy,
        s == LIMIT,
        s * (den * ux) * LIMIT <= num * dx * (LIMIT + 1),
        num * dx * (LIMIT - 1) <= s * (den * ux) * LIMIT,
    ensures
        NORMAL * uy * den * LIMIT <= num * dy * (LIMIT + 1),
        num * dy * (LIMIT - 1) <= NORMAL * uy * den * LIMIT,
{
    let a = s * (den * ux);
    let c = num * dx;
    let a2 = NORMAL * uy * den;
    let c2 = num * dy;
    // (a2, c2) is (a, c) times dy / dx.
    assert(a2 * dx == a * dy) by (nonlinear_arith)
        requires
            a == s * (den * ux),
            a2 == NORMAL * uy * den,
            s == LIMIT,
            LIMIT == 2 * NORMAL,
            ux * 2 * dy == dx * 1 * uy,
    {
        assert(a2 * dx == NORMAL * den * (dx * 1 * uy));
        assert(a * dy == NORMAL * den * (ux * 2 * dy));
    }
    assert(c2 * dx == c * dy) by (nonlinear_arith)
        requires
            c == num * dx,
            c2 == num * dy,
    ;
    let l = LIMIT as nat;
    assert(a2 * l <= c2 * (l + 1)) by (nonlinear_arith)
        requires
            a2 * dx == a * dy,
            c2 * dx == c * dy,
            a * l <= c * (l + 1),
            dx > 0,
            dy > 0,
    {
        assert((a2 * l) * dx == (a * l) * dy);
        assert((c2 * (l + 1)) * dx == (c * (l + 1)) * dy);
        assert((a * l) * dy <= (c * (l + 1)) * dy);
    }
    assert(c2 * (l - 1) <= a2 * l) by (nonlinear_arith)
        requires
            a2 * dx == a * dy,
            c2 * dx == c * dy,
            c * (l - 1) <= a * l,
            dx > 0,
            dy > 0,
    {
        assert((a2 * l) * dx == (a * l) * dy);
        assert((c2 * (l - 1)) * dx == (c * (l - 1)) * dy);
        assert((c * (l - 1)) * dy <= (a * l) * dy);
    }
}

/// Integers below `2^53` are represented exactly.
pub proof fn law_integers_are_exact(n: nat)
    requires
        n < LIMIT,
    ensures
        ({
            let r = Binary64::of(n);
            &&& r is Finite
            &&& r.wf()
            &&& !r.sign()
            &&& r.num() == n * r.den()
        }),
{
    lemma2_to64();
    lemma2_to64_rest();
    lemma_unit_exists(n, 1);
    let x = Binary64::unit(n, 1);
    assert(Binary64::fits(n, 1, 0)) by {
        assert(n * 1 < 1 * 1 * LIMIT);
    }
    if x > 0 {
        rounding::lemma_fits_upward(n, 1, 0, x - 1);
    }
    let a = n * dyadic::down(x);
    assert(dyadic::up(x) == 1 && 1 * dyadic::up(x) == 1);
    assert(a / 1 == a && a % 1 == 0);
    assert(dyadic::nearest_even(a, 1) == a);
    if n == 0 {
        dyadic::lemma_up_pos(0);
        rounding::lemma_round_zero(0, 1, 0);
        assert(Binary64::rounded(false, 0, 1) == Binary64::of(n));
    } else {
        lemma_normal_range(n, 1);
        law_relative_error(false, n, 1);
    }
    assert(a * 1 == a);
}

/// A ratio that is far from the ends of the format's range.
pub proof fn lemma_normal_range(num: nat, den: nat)
    requires
        den > 0,
        den <= num * 0x1_0000_0000_0000_0000,
        num <= den * 0x1_0000_0000_0000_0000_0000_0000_0000,
    ensures
        is_normal(num, den),
{
    lemma2_to64();
    lemma2_to64_rest();
    let lo = MIN_EXPONENT - 1;
    let hi = MAX_EXPONENT - 1;
    let p = pow2(1075);
    let q = pow2(970);
    assert(dyadic::down(lo) == p && dyadic::up(lo) == 1);
    assert(dyadic::up(hi) == q && dyadic::down(hi) == 1);
    lemma_pow2_adds(64, 64);
    rounding::lemma_pow2_ordered(128, 1075);
    rounding::lemma_pow2_ordered(128, 970);
    assert(num * p >= den * 1 * LIMIT) by (nonlinear_arith)
        requires
            p >= 0x1_0000_0000_0000_0000 * 0x1_0000_0000_0000_0000,
            den <= num * 0x1_0000_0000_0000_0000,
    ;
    assert(num * 1 < den * q * LIMIT) by (nonlinear_arith)
        requires
            den > 0,
            q >= 0x1_0000_0000_0000_0000 * 0x1_0000_0000_0000_0000,
            num <= den * 0x1_0000_0000_0000_0000_0000_0000_0000,
    ;
}

/// A ratio from `2^-112` to `2^300`.
pub proof fn lemma_wide_range(num: nat, den: nat)
    requires
        den > 0,
        den <= num * 0x1_0000_0000_0000_0000_0000_0000_0000,
        num <= den * pow2(300),
    ensures
        is_normal(num, den),
{
    lemma2_to64();
    lemma2_to64_rest();
    let lo = MIN_EXPONENT - 1;
    let hi = MAX_EXPONENT - 1;
    let p = pow2(1075);
    let q = pow2(970);
    let t = pow2(300);
    assert(dyadic::down(lo) == p && dyadic::up(lo) == 1);
    assert(dyadic::up(hi) == q && dyadic::down(hi) == 1);
    lemma_pow2_adds(64, 64);
    lemma_pow2_adds(128, 64);
    rounding::lemma_pow2_ordered(192, 1075);
    rounding::lemma_pow2_ordered(300, 970);
    assert(num * p >= den * 1 * LIMIT) by (nonlinear_arith)
        requires
            p >= 0x1_0000_0000_0000_0000 * 0x1_0000_0000_0000_0000 * 0x1_0000_0000_0000_0000,
            den <= num * 0x1_0000_0000_0000_0000_0000_0000_0000,
    ;
    lemma_pow2_pos(300);
    assert(num * 1 < den * q * LIMIT) by (nonlinear_arith)
        requires
            den > 0,
            t > 0,
            q >= t,
            num <= den * t,
    {
        assert(den * t <= den * q);
        assert(den * q > 0);
        assert(den * q < den * q * LIMIT);
    }
}

/// An integer from 1 to `2^64`, once rounded and scaled by a factor from a quarter to 2.
pub proof fn lemma_scaled_integer(n: nat, c: Binary64)
    requires
        0 < n <= 0x1_0000_0000_0000_0000,
        c is Finite,
        !c.sign(),
        0 < c.den() <= 4 * c.num(),
        c.num() <= 2 * c.den(),
    ensures
        ({
            let y = Binary64::of(n).product(c);
            &&& y is Finite
            &&& y.wf()
            &&& !y.sign()
            &&& 0 < y.den() <= 16 * y.num()
            &&& y.num() <= y.den() * 0x8_0000_0000_0000_0000
            &&& y.num() * c.den() * (LIMIT * LIMIT) <= n * c.num() * y.den() * ((LIMIT + 1) * (
            LIMIT + 1))
        }),
{
    let x = Binary64::of(n);
    lemma_normal_range(n, 1);
    law_relative_error(false, n, 1);
    let (xn, xd, cn, cd) = (x.num(), x.den(), c.num(), c.den());
    dyadic::lemma_up_pos(x->exponent as int);
    assert(xn * 1 * LIMIT == xn * LIMIT && n * xd * (LIMIT - 1) <= xn * LIMIT);
    assert(xd <= 2 * xn) by (nonlinear_arith)
        requires
            n * xd * (LIMIT - 1) <= xn * LIMIT,
            n >= 1,
    ;
    assert(xn <= xd * 0x2_0000_0000_0000_0000) by (nonlinear_arith)
        requires
            xn * LIMIT <= n * xd * (LIMIT + 1),
            n <= 0x1_0000_0000_0000_0000,
    ;
    let num = xn * cn;
    let den = xd * cd;
    assert(0 < den <= 8 * num && num <= den * 0x4_0000_0000_0000_0000) by (nonlinear_arith)
        requires
            num == xn * cn,
            den == xd * cd,
            0 < xd <= 2 * xn,
            0 < cd <= 4 * cn,
            xn <= xd * 0x2_0000_0000_0000_0000,
            cn <= 2 * cd,
    ;
    lemma_normal_range(num, den);
    law_relative_error(false, num, den);
    let y = Binary64::rounded(false, num, den);
    let (yn, yd) = (y.num(), y.den());
    dyadic::lemma_up_pos(y->exponent as int);
    assert(yd <= 16 * yn) by (nonlinear_arith)
        requires
            num * yd * (LIMIT - 1) <= yn * den * LIMIT,
            0 < den <= 8 * num,
    ;
    assert(yn <= yd * 0x8_0000_0000_0000_0000) by (nonlinear_arith)
        requires
            yn * den * LIMIT <= num * yd * (LIMIT + 1),
            num <= den * 0x4_0000_0000_0000_0000,
            den > 0,
    ;
    let l = LIMIT as nat;
    let m = (LIMIT + 1) as nat;
    lemma_two_roundings(n, xn, xd, cn, cd, yn, yd, l, m);
}

proof fn lemma_two_roundings(
    n: nat,
    xn: nat,
    xd: nat,
    cn: nat,
    cd: nat,
    yn: nat,
    yd: nat,
    l: nat,
    m: nat,
)
    requires
        xd > 0,
        xn * l <= n * xd * m,
        yn * (xd * cd) * l <= (xn * cn) * yd * m,
    ensures
        yn * cd * (l * l) <= n * cn * yd * (m * m),
{
    let lhs = yn * cd * (l * l);
    let rhs = n * cn * yd * (m * m);
    assert(lhs * xd == (yn * (xd * cd) * l) * l) by (nonlinear_arith)
        requires
            lhs == yn * cd * (l * l),
    ;
    lemma_mul_inequality((yn * (xd * cd) * l) as int, ((xn * cn) * yd * m) as int, l as int);
    assert((xn * cn) * yd * m * l == (xn * l) * (cn * yd * m)) by (nonlinear_arith);
    lemma_mul_inequality((xn * l) as int, (n * xd * m) as int, (cn * yd * m) as int);
    assert((n * xd * m) * (cn * yd * m) == rhs * xd) by (nonlinear_arith)
        requires
            rhs == n * cn * yd * (m * m),
    ;
    assert(lhs <= rhs) by (nonlinear_arith)
        requires
            lhs * xd <= rhs * xd,
            xd > 0,
    ;
}

/// Rounding looks at the ratio only.
pub proof fn law_rounding_sees_the_ratio(negative: bool, n1: nat, d1: nat, n2: nat, d2: nat)
    requires
        d1 > 0,
        d2 > 0,
        n1 * d2 == n2 * d1,
    ensures
        Binary64::rounded(negative, n1, d1) == Binary64::rounded(negative, n2, d2),
{
    lemma_unit_exists(n1, d1);
    let x = Binary64::unit(n1, d1);
    lemma_fits_sees_the_ratio(n1, d1, n2, d2, x);
    lemma_fits_sees_the_ratio(n1, d1, n2, d2, x - 1);
    rounding::lemma_unit(n2, d2, x);
    let (ux, dx) = (dyadic::up(x), dyadic::down(x));
    dyadic::lemma_up_pos(x);
    let (a, b, c, d) = (n1 * dx, d1 * ux, n2 * dx, d2 * ux);
    assert(b > 0 && d > 0) by (nonlinear_arith)
        requires
            b == d1 * ux,
            d == d2 * ux,
            d1 > 0 && d2 > 0 && ux > 0,
    ;
    assert(a * d == c * b) by (nonlinear_arith)
        requires
            a == n1 * dx && b == d1 * ux && c == n2 * dx && d == d2 * ux,
            n1 * d2 == n2 * d1,
    {
        assert(a * d == (n1 * d2) * (dx * ux));
        assert(c * b == (n2 * d1) * (dx * ux));
    }
    dyadic::lemma_nearest_even_of_equal_ratios(a, b, c, d);
}

proof fn lemma_fits_sees_the_ratio(n1: nat, d1: nat, n2: nat, d2: nat, x: int)
    requires
        d1 > 0,
        d2 > 0,
        n1 * d2 == n2 * d1,
    ensures
        Binary64::fits(n1, d1, x) <==> Binary64::fits(n2, d2, x),
{
    let v = dyadic::down(x);
    let w = dyadic::up(x) * LIMIT;
    let u = dyadic::up(x);
    assert(d1 * u * LIMIT == d1 * w && d2 * u * LIMIT == d2 * w) by (nonlinear_arith)
        requires
            w == u * LIMIT,
    ;
    assert(n1 * v < d1 * w <==> n2 * v < d2 * w) by (nonlinear_arith)
        requires
            n1 * d2 == n2 * d1,
            d1 > 0,
            d2 > 0,
    {
        assert((n1 * v) * d2 == (n2 * v) * d1);
        assert((d1 * w) * d2 == (d2 * w) * d1);
        assert(n1 * v < d1 * w <==> (n1 * v) * d2 < (d1 * w) * d2);
        assert(n2 * v < d2 * w <==> (n2 * v) * d1 < (d2 * w) * d1);
    }
}

pub proof fn lemma_rounded_zero(negative: bool, den: nat)
    requires
        den > 0,
    ensures
        Binary64::rounded(negative, 0, den) == Binary64::zero(negative),
{
    dyadic::lemma_up_pos(0);
    rounding::lemma_round_zero(0, den, 0);
}

/// Multiplication commutes.
pub proof fn law_product_commutes(a: Binary64, b: Binary64)
    ensures
        a.product(b) == b.product(a),
{
    lemma_mul_is_commutative(a.num() as int, b.num() as int);
    lemma_mul_is_commutative(a.den() as int, b.den() as int);
}

/// Addition commutes.
pub proof fn law_sum_commutes(a: Binary64, b: Binary64)
    ensures
        a.sum(b) == b.sum(a),
{
    lemma_mul_is_commutative(a.den() as int, b.den() as int);
}

/// A finite number less itself is 0.
pub proof fn law_difference_with_itself(a: Binary64)
    requires
        a is Finite,
    ensures
        a.difference(a) == Binary64::zero(false),
{
    let b = a.negated();
    let (n, d) = (a.signed_num(), a.den() as int);
    assert(b.signed_num() == -n);
    assert(n * d + (-n) * d == 0) by (nonlinear_arith);
}

/// A product with 0 is 0, with the sign of a product.
pub proof fn law_product_with_zero(a: Binary64, negative: bool)
    requires
        a is Finite,
    ensures
        a.product(Binary64::zero(negative)) == Binary64::zero(a.sign() != negative),
{
    let z = Binary64::zero(negative);
    dyadic::lemma_up_pos(a->exponent as int);
    dyadic::lemma_up_pos(MIN_EXPONENT as int);
    lemma_mul_strictly_positive(a.den() as int, z.den() as int);
    assert(z.num() == 0) by (nonlinear_arith)
        requires
            z.num() == 0 * dyadic::up(MIN_EXPONENT as int),
    ;
    assert(a.num() * z.num() == 0) by (nonlinear_arith)
        requires
            z.num() == 0,
    ;
    lemma_rounded_zero(a.sign() != negative, a.den() * z.den());
}

/// Adding to 0 changes nothing.
pub proof fn law_sum_with_zero(a: Binary64)
    requires
        a is Finite,
        a.wf(),
        !a.sign(),
    ensures
        Binary64::zero(false).sum(a) == a,
{
    let z = Binary64::zero(false);
    let zd = z.den();
    dyadic::lemma_up_pos(a->exponent as int);
    dyadic::lemma_up_pos(MIN_EXPONENT as int);
    assert(z.num() == 0) by (nonlinear_arith)
        requires
            z.num() == 0 * dyadic::up(MIN_EXPONENT as int),
    ;
    let (an, ad) = (a.num(), a.den());
    let u = dyadic::up(a->exponent as int);
    assert(0 * ad + an * zd == an * zd) by (nonlinear_arith);
    assert(zd * ad > 0) by (nonlinear_arith)
        requires
            zd > 0,
            ad > 0,
    ;
    if a->significand == 0 {
        assert(an * zd == 0) by (nonlinear_arith)
            requires
                an == 0 * u,
        ;
    } else {
        assert(an * zd > 0) by (nonlinear_arith)
            requires
                an == a->significand * u,
                a->significand > 0,
                u > 0,
                zd > 0,
        ;
        assert((an * zd) * ad == an * (zd * ad)) by (nonlinear_arith);
        law_rounding_sees_the_ratio(false, an * zd, zd * ad, an, ad);
        law_representable_is_kept(a);
    }
}

/// The integer part grows with the number.
pub proof fn law_truncation_is_monotone(a: Binary64, b: Binary64)
    requires
        a.less(b),
    ensures
        a.truncated() <= b.truncated(),
{
    if a is Finite && b is Finite && !a.sign() {
        let (an, ad, bn, bd) = (a.num(), a.den(), b.num(), b.den());
        dyadic::lemma_up_pos(a->exponent as int);
        dyadic::lemma_up_pos(b->exponent as int);
        if b.sign() {
            assert(an * bd >= 0 && (-bn) * ad <= 0) by (nonlinear_arith);
        }
        let (p, q) = (an / ad, bn / bd);
        lemma_fundamental_div_mod(an as int, ad as int);
        lemma_fundamental_div_mod(bn as int, bd as int);
        let (r, s) = (an % ad, bn % bd);
        assert(p <= q) by (nonlinear_arith)
            requires
                an * bd < bn * ad,
                an == ad * p + r,
                bn == bd * q + s,
                0 <= r < ad,
                0 <= s < bd,
        {
            if p >= q + 1 {
                assert(an * bd >= ad * (q + 1) * bd);
                assert(bn * ad < bd * (q + 1) * ad);
            }
        }
    }
}

/// A number that is at most an integer has an integer part that is at most that integer.
pub proof fn lemma_truncated_at_most(a: Binary64, n: nat)
    requires
        a is Finite,
        a.num() <= n * a.den(),
    ensures
        a.truncated() <= n,
{
    dyadic::lemma_up_pos(a->exponent as int);
    let (an, ad) = (a.num(), a.den());
    lemma_fundamental_div_mod(an as int, ad as int);
    let (q, r) = (an / ad, an % ad);
    assert(q <= n) by (nonlinear_arith)
        requires
            an == ad * q + r,
            0 <= r < ad,
            an <= n * ad,
    ;
}

/// A number that is below an integer has an integer part that is below that integer.
pub proof fn lemma_truncated_below(a: Binary64, n: nat)
    requires
        a is Finite,
        a.num() < n * a.den(),
    ensures
        a.truncated() < n,
{
    dyadic::lemma_up_pos(a->exponent as int);
    let (an, ad) = (a.num(), a.den());
    lemma_fundamental_div_mod(an as int, ad as int);
    let (q, r) = (an / ad, an % ad);
    assert(q < n) by (nonlinear_arith)
        requires
            an == ad * q + r,
            0 <= r < ad,
            an < n * ad,
    ;
    assert(n > 0);
}

} // verus!
