//! Rounding keeps the order of numbers.

use vstd::prelude::*;
use vstd::arithmetic::div_mod::*;
use vstd::arithmetic::mul::*;
use vstd::arithmetic::power2::*;
use crate::dyadic;
use super::{accuracy, rounding};
use super::{Binary64, LIMIT, MAX_EXPONENT, MIN_EXPONENT, NORMAL};

verus! {

impl Binary64 {
    /// A finite number that is not negative and at most `c * 2^e`.
    pub open spec fn is_at_most(self, c: nat, e: int) -> bool {
        &&& self is Finite
        &&& self.wf()
        &&& !self.sign()
        &&& self.num() * dyadic::down(e) <= c * dyadic::up(e) * self.den()
    }

    /// A finite number that is not negative and at least `c * 2^e`.
    pub open spec fn is_at_least(self, c: nat, e: int) -> bool {
        &&& self is Finite
        &&& self.wf()
        &&& !self.sign()
        &&& c * dyadic::up(e) * self.den() <= self.num() * dyadic::down(e)
    }
}

proof fn lemma_nearest_even_monotone(a: nat, b: nat, c: nat, d: nat)
    requires
        b > 0,
        d > 0,
        a * d <= c * b,
    ensures
        dyadic::nearest_even(a, b) <= dyadic::nearest_even(c, d),
{
    lemma_fundamental_div_mod(a as int, b as int);
    lemma_fundamental_div_mod(c as int, d as int);
    let (q, r, p, s) = (a / b, a % b, c / d, c % d);
    assert(q <= p) by (nonlinear_arith)
        requires
            a == b * q + r,
            c == d * p + s,
            0 <= r < b,
            0 <= s < d,
            a * d <= c * b,
    {
        if q >= p + 1 {
            assert(a * d >= b * (p + 1) * d);
            assert(c * b < d * (p + 1) * b);
        }
    }
    if q == p {
        assert(r * d <= s * b) by (nonlinear_arith)
            requires
                a == b * q + r,
                c == d * q + s,
                a * d <= c * b,
        ;
        assert((2 * r > b ==> 2 * s > d) && (2 * r == b ==> 2 * s >= d)) by (nonlinear_arith)
            requires
                r * d <= s * b,
                b > 0,
                d > 0,
        ;
    }
}

/// The value of a significand and an exponent that rounding has put together.
proof fn lemma_packed_value(negative: bool, s: nat, x: int)
    requires
        s <= LIMIT,
        x >= MIN_EXPONENT,
        s >= NORMAL || x == MIN_EXPONENT,
        x < MAX_EXPONENT,
    ensures
        ({
            let p = Binary64::packed(negative, s, x);
            &&& p is Finite
            &&& p.wf()
            &&& p.sign() == negative
            &&& p.num() * dyadic::down(x) == s * dyadic::up(x) * p.den()
        }),
{
    let p = Binary64::packed(negative, s, x);
    let (ux, dx) = (dyadic::up(x), dyadic::down(x));
    if s == LIMIT {
        let (uy, dy) = (dyadic::up(x + 1), dyadic::down(x + 1));
        lemma2_to64();
        dyadic::lemma_up_adds(x, 1);
        assert(dyadic::up(1) == 2 && dyadic::down(1) == 1);
        assert(NORMAL * uy * dx == LIMIT * ux * dy) by (nonlinear_arith)
            requires
                ux * 2 * dy == dx * 1 * uy,
                LIMIT == 2 * NORMAL,
        {
            assert(NORMAL * uy * dx == NORMAL * (dx * 1 * uy));
            assert(LIMIT * ux * dy == NORMAL * (ux * 2 * dy));
        }
    }
}

/// What is known of the rounding of a ratio below `2^1023`.
pub proof fn lemma_rounded_value(negative: bool, num: nat, den: nat)
    requires
        den > 0,
        Binary64::fits(num, den, MAX_EXPONENT - 1),
    ensures
        ({
            let x = Binary64::unit(num, den);
            let s = dyadic::nearest_even(num * dyadic::down(x), den * dyadic::up(x));
            let p = Binary64::rounded(negative, num, den);
            &&& Binary64::is_unit(num, den, x)
            &&& den * dyadic::up(x) > 0
            &&& x < MAX_EXPONENT
            &&& s <= LIMIT
            &&& s >= NORMAL || x == MIN_EXPONENT
            &&& p is Finite
            &&& p.wf()
            &&& p.sign() == negative
            &&& p.num() * dyadic::down(x) == s * dyadic::up(x) * p.den()
        }),
{
    accuracy::lemma_unit_exists(num, den);
    let x = Binary64::unit(num, den);
    if x > MAX_EXPONENT - 1 {
        rounding::lemma_fits_upward(num, den, MAX_EXPONENT - 1, x - 1);
    }
    let (a, b) = (num * dyadic::down(x), den * dyadic::up(x));
    dyadic::lemma_up_pos(x);
    lemma_mul_strictly_positive(den as int, dyadic::up(x) as int);
    lemma_fundamental_div_mod(a as int, b as int);
    let (q, r) = (a / b, a % b);
    assert(q < LIMIT) by (nonlinear_arith)
        requires
            a == b * q + r,
            0 <= r < b,
            a < b * LIMIT,
    ;
    if x > MIN_EXPONENT {
        accuracy::lemma_full_significand(num, den);
        assert(q >= NORMAL) by (nonlinear_arith)
            requires
                a == b * q + r,
                0 <= r < b,
                a >= NORMAL * b,
        ;
    }
    lemma_packed_value(negative, dyadic::nearest_even(a, b), x);
}

/// Rounding keeps the order of numbers.
pub proof fn law_rounding_is_monotone(negative: bool, n1: nat, d1: nat, n2: nat, d2: nat)
    requires
        d1 > 0,
        d2 > 0,
        n1 * d2 <= n2 * d1,
        Binary64::fits(n2, d2, MAX_EXPONENT - 1),
    ensures
        ({
            let a = Binary64::rounded(negative, n1, d1);
            let b = Binary64::rounded(negative, n2, d2);
            &&& a is Finite
            &&& b is Finite
            &&& a.wf()
            &&& b.wf()
            &&& a.sign() == negative
            &&& b.sign() == negative
            &&& a.num() * b.den() <= b.num() * a.den()
        }),
{
    lemma_fits_downward(n1, d1, n2, d2, MAX_EXPONENT - 1);
    lemma_rounded_value(negative, n1, d1);
    lemma_rounded_value(negative, n2, d2);
    let (x1, x2) = (Binary64::unit(n1, d1), Binary64::unit(n2, d2));
    if x1 > x2 {
        lemma_fits_downward(n1, d1, n2, d2, x2);
        rounding::lemma_fits_upward(n1, d1, x2, x1 - 1);
    }
    let (u1, e1, u2, e2) = (
        dyadic::up(x1),
        dyadic::down(x1),
        dyadic::up(x2),
        dyadic::down(x2),
    );
    dyadic::lemma_up_pos(x1);
    dyadic::lemma_up_pos(x2);
    let s1 = dyadic::nearest_even(n1 * e1, d1 * u1);
    let s2 = dyadic::nearest_even(n2 * e2, d2 * u2);
    lemma2_to64();
    let gap = (x2 - x1) as nat;
    let p = pow2(gap);
    lemma_pow2_pos(gap);
    dyadic::lemma_up_adds(x1, x2 - x1);
    assert(x1 + (x2 - x1) == x2);
    assert(dyadic::up(x2 - x1) == p && dyadic::down(x2 - x1) == 1);
    if x1 == x2 {
        let (a, b, c, d) = (n1 * e1, d1 * u1, n2 * e1, d2 * u1);
        assert(a * d <= c * b) by (nonlinear_arith)
            requires
                a == n1 * e1 && b == d1 * u1 && c == n2 * e1 && d == d2 * u1,
                n1 * d2 <= n2 * d1,
        {
            assert(a * d == (n1 * d2) * (e1 * u1));
            assert(c * b == (n2 * d1) * (e1 * u1));
            assert(e1 * u1 >= 0);
        }
        lemma_nearest_even_monotone(a, b, c, d);
        assert(s1 <= s2 * p) by (nonlinear_arith)
            requires
                s1 <= s2,
                p >= 1,
        ;
    } else {
        rounding::lemma_pow2_ordered(1, gap);
        assert(s1 <= s2 * p) by (nonlinear_arith)
            requires
                s1 <= LIMIT,
                s2 >= NORMAL,
                p >= 2,
        ;
    }
    let a = Binary64::rounded(negative, n1, d1);
    let b = Binary64::rounded(negative, n2, d2);
    dyadic::lemma_up_pos(a->exponent as int);
    dyadic::lemma_up_pos(b->exponent as int);
    lemma_ordered_values(s1, s2, p, u1, e1, u2, e2, a.num(), a.den(), b.num(), b.den());
}

proof fn lemma_ordered_values(
    s1: nat,
    s2: nat,
    p: nat,
    u1: nat,
    e1: nat,
    u2: nat,
    e2: nat,
    an: nat,
    ad: nat,
    bn: nat,
    bd: nat,
)
    requires
        u1 > 0 && e1 > 0 && u2 > 0 && e2 > 0 && ad > 0 && bd > 0,
        u1 * p * e2 == e1 * 1 * u2,
        s1 <= s2 * p,
        an * e1 == s1 * u1 * ad,
        bn * e2 == s2 * u2 * bd,
    ensures
        an * bd <= bn * ad,
{
    let k = e1 * e2;
    let g = (u1 * e2) * (ad * bd);
    assert(an * bd * k == s1 * g) by (nonlinear_arith)
        requires
            an * e1 == s1 * u1 * ad,
            k == e1 * e2,
            g == (u1 * e2) * (ad * bd),
    {
        assert(an * bd * k == (an * e1) * (bd * e2));
        assert((s1 * u1 * ad) * (bd * e2) == s1 * g);
    }
    assert(bn * ad * k == (bn * e2) * (ad * e1)) by (nonlinear_arith)
        requires
            k == e1 * e2,
    ;
    assert((s2 * u2 * bd) * (ad * e1) == s2 * (e1 * 1 * u2) * (ad * bd)) by (nonlinear_arith);
    assert(s2 * (u1 * p * e2) * (ad * bd) == (s2 * p) * g) by (nonlinear_arith)
        requires
            g == (u1 * e2) * (ad * bd),
    ;
    let sp = s2 * p;
    assert(s1 * g <= sp * g) by (nonlinear_arith)
        requires
            s1 <= sp,
            g >= 0,
    ;
    assert(k > 0) by (nonlinear_arith)
        requires
            k == e1 * e2,
            e1 > 0,
            e2 > 0,
    ;
    let (lhs, rhs) = (an * bd, bn * ad);
    assert(lhs <= rhs) by (nonlinear_arith)
        requires
            lhs * k <= rhs * k,
            k > 0,
    ;
}

pub proof fn lemma_fits_downward(n1: nat, d1: nat, n2: nat, d2: nat, x: int)
    requires
        d1 > 0,
        d2 > 0,
        n1 * d2 <= n2 * d1,
        Binary64::fits(n2, d2, x),
    ensures
        Binary64::fits(n1, d1, x),
{
    let (v, u) = (dyadic::down(x), dyadic::up(x));
    let w = u * LIMIT;
    assert(d1 * u * LIMIT == d1 * w && d2 * u * LIMIT == d2 * w) by (nonlinear_arith)
        requires
            w == u * LIMIT,
    ;
    assert(n1 * v < d1 * w) by (nonlinear_arith)
        requires
            n1 * d2 <= n2 * d1,
            n2 * v < d2 * w,
            d1 > 0,
            d2 > 0,
    {
        assert((n1 * v) * d2 == (n1 * d2) * v);
        assert((n2 * v) * d1 == (n2 * d1) * v);
        assert((n1 * d2) * v <= (n2 * d1) * v);
        assert((n2 * v) * d1 < (d2 * w) * d1);
        assert((n1 * v) * d2 < (d1 * w) * d2);
    }
}

/// A significand of up to 53 digits times a power of two is rounded to itself.
pub proof fn law_dyadic_is_exact(negative: bool, c: nat, e: int)
    requires
        c < LIMIT,
        MIN_EXPONENT <= e < MAX_EXPONENT,
    ensures
        ({
            let r = Binary64::rounded(negative, c * dyadic::up(e), dyadic::down(e));
            &&& Binary64::fits(c * dyadic::up(e), dyadic::down(e), MAX_EXPONENT - 1)
            &&& r is Finite
            &&& r.wf()
            &&& r.sign() == negative
            &&& r.num() * dyadic::down(e) == c * dyadic::up(e) * r.den()
        }),
{
    let (ue, de) = (dyadic::up(e), dyadic::down(e));
    let (num, den) = (c * ue, de);
    dyadic::lemma_up_pos(e);
    lemma2_to64();
    assert(c * ue * de == c * (de * ue) && de * ue > 0) by (nonlinear_arith)
        requires
            de > 0,
            ue > 0,
    ;
    assert(rounding::is_split(num, den, c, 0, e));
    rounding::lemma_finer(num, den, c, e, e);
    let one = pow2((e - e) as nat);
    assert(c * one == c) by (nonlinear_arith)
        requires
            one == 1,
    ;
    rounding::lemma_fits_upward(num, den, e, MAX_EXPONENT - 1);
    lemma_rounded_value(negative, num, den);
    let x = Binary64::unit(num, den);
    if x > e {
        rounding::lemma_fits_upward(num, den, e, x - 1);
    }
    rounding::lemma_finer(num, den, c, e, x);
    let r = Binary64::rounded(negative, num, den);
    let p = pow2((e - x) as nat);
    let (ux, dx) = (dyadic::up(x), dyadic::down(x));
    dyadic::lemma_up_pos(x);
    dyadic::lemma_up_adds(x, e - x);
    assert(x + (e - x) == e);
    assert(dyadic::up(e - x) == p && dyadic::down(e - x) == 1);
    let (rn, rd) = (r.num(), r.den());
    let (lhs, rhs) = (rn * de, c * ue * rd);
    assert(lhs * dx == rhs * dx) by (nonlinear_arith)
        requires
            lhs == rn * de,
            rhs == c * ue * rd,
            rn * dx == c * p * ux * rd,
            ux * p * de == dx * 1 * ue,
    {
        assert(lhs * dx == (rn * dx) * de);
        assert((c * p * ux * rd) * de == c * rd * (ux * p * de));
        assert(rhs * dx == c * rd * (dx * 1 * ue));
    }
    assert(lhs == rhs) by (nonlinear_arith)
        requires
            lhs * dx == rhs * dx,
            dx > 0,
    ;
}

/// A ratio that is at most `c * 2^e` is rounded to a number that is.
pub proof fn law_rounding_keeps_upper_bound(num: nat, den: nat, c: nat, e: int)
    requires
        den > 0,
        c < LIMIT,
        MIN_EXPONENT <= e < MAX_EXPONENT,
        num * dyadic::down(e) <= c * dyadic::up(e) * den,
    ensures
        Binary64::rounded(false, num, den).is_at_most(c, e),
{
    let (ue, de) = (dyadic::up(e), dyadic::down(e));
    dyadic::lemma_up_pos(e);
    law_dyadic_is_exact(false, c, e);
    law_rounding_is_monotone(false, num, den, c * ue, de);
    let a = Binary64::rounded(false, num, den);
    let b = Binary64::rounded(false, c * ue, de);
    dyadic::lemma_up_pos(b->exponent as int);
    let cu = c * ue;
    lemma_through(a.num(), a.den(), b.num(), b.den(), cu, de);
}

/// A ratio that is at least `c * 2^e` is rounded to a number that is, if to a finite one.
pub proof fn law_rounding_keeps_lower_bound(num: nat, den: nat, c: nat, e: int)
    requires
        den > 0,
        c < LIMIT,
        MIN_EXPONENT <= e < MAX_EXPONENT,
        c * dyadic::up(e) * den <= num * dyadic::down(e),
        Binary64::fits(num, den, MAX_EXPONENT - 1),
    ensures
        Binary64::rounded(false, num, den).is_at_least(c, e),
{
    let (ue, de) = (dyadic::up(e), dyadic::down(e));
    dyadic::lemma_up_pos(e);
    law_dyadic_is_exact(false, c, e);
    law_rounding_is_monotone(false, c * ue, de, num, den);
    let a = Binary64::rounded(false, num, den);
    let b = Binary64::rounded(false, c * ue, de);
    dyadic::lemma_up_pos(b->exponent as int);
    let cu = c * ue;
    lemma_through_below(a.num(), a.den(), b.num(), b.den(), cu, de);
}

/// `a <= b` and `b == c / d` give `a <= c / d`.
proof fn lemma_through(an: nat, ad: nat, bn: nat, bd: nat, c: nat, d: nat)
    requires
        bd > 0,
        an * bd <= bn * ad,
        bn * d == c * bd,
    ensures
        an * d <= c * ad,
{
    let (lhs, rhs) = (an * d, c * ad);
    assert(lhs * bd <= rhs * bd) by (nonlinear_arith)
        requires
            lhs == an * d,
            rhs == c * ad,
            an * bd <= bn * ad,
            bn * d == c * bd,
    {
        assert(lhs * bd == (an * bd) * d);
        assert(rhs * bd == (bn * d) * ad);
        assert((an * bd) * d <= (bn * ad) * d);
        assert((bn * ad) * d == (bn * d) * ad);
    }
    assert(lhs <= rhs) by (nonlinear_arith)
        requires
            lhs * bd <= rhs * bd,
            bd > 0,
    ;
}

/// `b <= a` and `b == c / d` give `c / d <= a`.
proof fn lemma_through_below(an: nat, ad: nat, bn: nat, bd: nat, c: nat, d: nat)
    requires
        bd > 0,
        bn * ad <= an * bd,
        bn * d == c * bd,
    ensures
        c * ad <= an * d,
{
    let (lhs, rhs) = (c * ad, an * d);
    assert(lhs * bd <= rhs * bd) by (nonlinear_arith)
        requires
            lhs == c * ad,
            rhs == an * d,
            bn * ad <= an * bd,
            bn * d == c * bd,
    {
        assert(lhs * bd == (bn * d) * ad);
        assert(rhs * bd == (an * bd) * d);
        assert((bn * ad) * d <= (an * bd) * d);
        assert((bn * ad) * d == (bn * d) * ad);
    }
    assert(lhs <= rhs) by (nonlinear_arith)
        requires
            lhs * bd <= rhs * bd,
            bd > 0,
    ;
}

/// `m * 2^-k` is the number closest to `num / den` where it is less than half a unit away.
pub proof fn lemma_literal(num: nat, den: nat, m: u64, k: nat)
    requires
        den > 0,
        NORMAL < m,
        m + 1 < LIMIT,
        0 < k <= 60,
        (2 * m - 1) * den < 2 * num * pow2(k),
        2 * num * pow2(k) < (2 * m + 1) * den,
    ensures
        Binary64::rounded(false, num, den) == Binary64::positive(m, (-k) as i32),
        Binary64::positive(m, (-k) as i32).wf(),
{
    let x = -(k as int);
    let p = pow2(k);
    lemma2_to64();
    lemma_pow2_unfold(k + 1);
    assert(dyadic::up(x) == 1 && dyadic::down(x) == p);
    assert(dyadic::up(x - 1) == 1 && dyadic::down(x - 1) == 2 * p);
    let a = num * p;
    assert(2 * num * p == 2 * a) by (nonlinear_arith)
        requires
            a == num * p,
    ;
    assert(a < den * 1 * LIMIT) by (nonlinear_arith)
        requires
            2 * a < (2 * m + 1) * den,
            m + 1 < LIMIT,
            den > 0,
    ;
    assert(num * (2 * p) >= den * 1 * LIMIT) by (nonlinear_arith)
        requires
            (2 * m - 1) * den < 2 * a,
            a == num * p,
            NORMAL < m,
            LIMIT == 2 * NORMAL,
            den > 0,
    ;
    rounding::lemma_unit(num, den, x);
    let b = den * 1;
    lemma_fundamental_div_mod(a as int, b as int);
    let (q, r) = (a / b, a % b);
    assert((q == m && 2 * r < b) || (q + 1 == m && 2 * r > b)) by (nonlinear_arith)
        requires
            a == b * q + r,
            0 <= r < b,
            b == den,
            (2 * m - 1) * den < 2 * a,
            2 * a < (2 * m + 1) * den,
    {
        if q > m {
            assert(b * q >= b * (m + 1));
        }
        if q + 1 < m {
            assert(b * (q + 1) <= b * (m - 1));
        }
        if q == m {
            assert(2 * a == 2 * (b * m) + 2 * r);
            assert((2 * m + 1) * den == 2 * (b * m) + b);
        }
        if q + 1 == m {
            assert(2 * a == 2 * (b * q) + 2 * r);
            assert((2 * m - 1) * den == 2 * (b * q) + b);
        }
    }
}

} // verus!
