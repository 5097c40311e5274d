//! Rounding takes the nearest number.

use vstd::prelude::*;
use vstd::arithmetic::div_mod::*;
use vstd::arithmetic::mul::*;
use vstd::arithmetic::power2::*;
use crate::dyadic;
use super::{accuracy, monotone};
use super::{Binary64, MAX_EXPONENT, NORMAL};

verus! {

/// The distance of `num / den` from `a / b`, times `b * den`.
pub open spec fn distance(a: nat, b: nat, num: nat, den: nat) -> int {
    if a * den >= num * b {
        a * den - num * b
    } else {
        num * b - a * den
    }
}

/// `x` is no further from `num / den` than `c` is.
pub open spec fn is_no_further(x: Binary64, c: Binary64, num: nat, den: nat) -> bool {
    distance(x.num(), x.den(), num, den) * c.den() <= distance(c.num(), c.den(), num, den)
        * x.den()
}

/// No multiple of `b` is closer to `a` than the nearest one.
proof fn lemma_nearest_multiple(a: nat, b: nat, j: nat)
    requires
        b > 0,
    ensures
        ({
            let s = dyadic::nearest_even(a, b);
            &&& distance(s, 1, a, b) <= distance(j, 1, a, b)
            &&& j != s && distance(s, 1, a, b) == distance(j, 1, a, b) ==> s % 2 == 0
        }),
{
    lemma_fundamental_div_mod(a as int, b as int);
    let (q, r) = (a / b, a % b);
    let s = dyadic::nearest_even(a, b);
    lemma_mul_is_commutative(b as int, q as int);
    lemma_mul_is_distributive_add_other_way(b as int, q as int, 1);
    let (i, k) = (b as int, q as int);
    assert((k - 1) * i == k * i - i && (k + 1) * i == k * i + i && (k + 2) * i == k * i + 2 * i)
        by (nonlinear_arith);
    if j < q {
        lemma_mul_inequality(j as int, k - 1, i);
    } else if j > q + 1 {
        lemma_mul_inequality(k + 2, j as int, i);
    }
}

/// A number at `j` units has `j` units' distance.
proof fn lemma_distance_in_units(
    vn: nat,
    vd: nat,
    j: nat,
    u: nat,
    d: nat,
    num: nat,
    den: nat,
)
    requires
        vn * d == j * u * vd,
        d > 0,
        vd > 0,
    ensures
        distance(vn, vd, num, den) * d == vd * distance(j, 1, num * d, den * u),
{
    let (p, q) = ((vn * den) as int, (num * vd) as int);
    let (s, t) = ((j * (den * u)) as int, (num * d * 1) as int);
    assert(p * d == vd * s) by (nonlinear_arith)
        requires
            p == vn * den,
            s == j * (den * u),
            vn * d == j * u * vd,
    {
        assert(p * d == (vn * d) * den);
        assert((j * u * vd) * den == vd * (j * (den * u)));
    }
    assert(q * d == vd * t) by (nonlinear_arith)
        requires
            q == num * vd,
            t == num * d * 1,
    ;
    assert((p - q) * d == p * d - q * d && (q - p) * d == q * d - p * d) by (nonlinear_arith);
    assert(vd * (s - t) == vd * s - vd * t && vd * (t - s) == vd * t - vd * s)
        by (nonlinear_arith);
    if p >= q {
        lemma_mul_inequality(q, p, d as int);
        if s < t {
            lemma_mul_strict_inequality(s, t, vd as int);
            lemma_mul_is_commutative(s, vd as int);
            lemma_mul_is_commutative(t, vd as int);
        }
    } else {
        lemma_mul_strict_inequality(p, q, d as int);
        if s >= t {
            lemma_mul_inequality(t, s, vd as int);
            lemma_mul_is_commutative(s, vd as int);
            lemma_mul_is_commutative(t, vd as int);
        }
    }
}

/// `k / d` of both sides of an inequality.
proof fn lemma_cancel(rdist: int, cdist: int, rd: nat, cd: nat, d: nat, ru: int, cu: int)
    requires
        rd > 0 && cd > 0 && d > 0,
        rdist * d == rd * ru,
        cdist * d >= cd * cu,
        ru <= cu,
    ensures
        rdist * cd <= cdist * rd,
        cdist * d > cd * cu || ru < cu ==> rdist * cd < cdist * rd,
{
    let (lhs, rhs) = (rdist * cd, cdist * rd);
    let k = (rd * cd) as int;
    assert(k > 0) by (nonlinear_arith)
        requires
            k == rd * cd,
            rd > 0,
            cd > 0,
    ;
    assert(lhs * d == k * ru) by (nonlinear_arith)
        requires
            lhs == rdist * cd,
            k == rd * cd,
            rdist * d == rd * ru,
    {
        assert(lhs * d == (rdist * d) * cd);
    }
    assert(rhs * d == (cdist * d) * rd) by (nonlinear_arith)
        requires
            rhs == cdist * rd,
    ;
    lemma_mul_inequality(cd * cu, cdist * d, rd as int);
    assert((cd * cu) * rd == k * cu) by (nonlinear_arith)
        requires
            k == rd * cd,
    ;
    lemma_mul_inequality(ru, cu, k);
    lemma_mul_is_commutative(ru, k);
    lemma_mul_is_commutative(cu, k);
    if lhs > rhs {
        lemma_mul_strict_inequality(rhs, lhs, d as int);
    }
    if cdist * d > cd * cu {
        lemma_mul_strict_inequality(cd * cu, cdist * d, rd as int);
    }
    if ru < cu {
        lemma_mul_strict_inequality(ru, cu, k);
    }
    if lhs >= rhs {
        lemma_mul_inequality(rhs, lhs, d as int);
    }
}

/// A number with a coarser or equal unit is a whole number of units `2^x`.
proof fn lemma_whole_units(c: Binary64, x: int) -> (j: nat)
    requires
        c is Finite,
        c->exponent >= x,
    ensures
        c.num() * dyadic::down(x) == j * dyadic::up(x) * c.den(),
{
    let e = c->exponent as int;
    let m = c->significand as nat;
    let p = pow2((e - x) as nat);
    lemma2_to64();
    dyadic::lemma_up_adds(x, e - x);
    assert(x + (e - x) == e);
    let (ux, dx, ue, de) = (dyadic::up(x), dyadic::down(x), dyadic::up(e), dyadic::down(e));
    assert(dyadic::up(e - x) == p && dyadic::down(e - x) == 1);
    let j = m * p;
    assert((m * ue) * dx == j * ux * de) by (nonlinear_arith)
        requires
            j == m * p,
            ux * p * de == dx * 1 * ue,
    {
        assert((m * ue) * dx == m * (dx * 1 * ue));
        assert(j * ux * de == m * (ux * p * de));
    }
    j
}

/// A number with a finer unit is below the least full significand in units `2^x`.
proof fn lemma_below_units(c: Binary64, x: int)
    requires
        c is Finite,
        c.wf(),
        c->exponent < x,
    ensures
        c.num() * dyadic::down(x) < NORMAL * dyadic::up(x) * c.den(),
{
    let e = c->exponent as int;
    let m = c->significand as nat;
    let p = pow2((x - e) as nat);
    lemma2_to64();
    super::rounding::lemma_pow2_ordered(1, (x - e) as nat);
    dyadic::lemma_up_adds(e, x - e);
    dyadic::lemma_up_pos(x);
    dyadic::lemma_up_pos(e);
    assert(e + (x - e) == x);
    let (ux, dx, ue, de) = (dyadic::up(x), dyadic::down(x), dyadic::up(e), dyadic::down(e));
    assert(dyadic::up(x - e) == p && dyadic::down(x - e) == 1);
    // ue * p * dx == de * ux
    let (g, h) = (ue * dx, ux * de);
    assert(g * p == h) by (nonlinear_arith)
        requires
            g == ue * dx,
            h == ux * de,
            ue * p * dx == de * 1 * ux,
    ;
    lemma_mul_strictly_positive(ue as int, dx as int);
    assert(m * g < NORMAL * h) by (nonlinear_arith)
        requires
            g * p == h,
            g > 0,
            p >= 2,
            m < 2 * NORMAL,
    {
        assert(g * p >= 2 * g);
        assert(NORMAL * h >= NORMAL * (2 * g));
        assert(m * g < (2 * NORMAL) * g);
    }
    assert((m * ue) * dx == m * g) by (nonlinear_arith)
        requires
            g == ue * dx,
    ;
    assert(NORMAL * ux * de == NORMAL * h) by (nonlinear_arith)
        requires
            h == ux * de,
    ;
}

/// Rounding takes the nearest number: no other one is closer. Where another one is as close, the
/// one with the even significand is taken.
pub proof fn law_rounding_is_nearest(negative: bool, num: nat, den: nat, c: Binary64)
    requires
        den > 0,
        Binary64::fits(num, den, MAX_EXPONENT - 1),
        c is Finite,
        c.wf(),
        !c.sign(),
    ensures
        ({
            let r = Binary64::rounded(negative, num, den);
            &&& r is Finite
            &&& r.wf()
            &&& r.sign() == negative
            &&& is_no_further(r, c, num, den)
            &&& is_no_further(c, r, num, den) && (c->significand != r->significand || c->exponent
                != r->exponent) ==> r->significand % 2 == 0
        }),
{
    monotone::lemma_rounded_value(negative, num, den);
    let r = Binary64::rounded(negative, num, den);
    let x = Binary64::unit(num, den);
    let (u, d) = (dyadic::up(x), dyadic::down(x));
    let (a, b) = (num * d, den * u);
    let s = dyadic::nearest_even(a, b);
    dyadic::lemma_up_pos(x);
    dyadic::lemma_up_pos(c->exponent as int);
    dyadic::lemma_up_pos(r->exponent as int);
    lemma_distance_in_units(r.num(), r.den(), s, u, d, num, den);
    let (rdist, cdist) = (
        distance(r.num(), r.den(), num, den),
        distance(c.num(), c.den(), num, den),
    );
    let ru = distance(s, 1, a, b);
    if c->exponent >= x {
        let j = lemma_whole_units(c, x);
        lemma_distance_in_units(c.num(), c.den(), j, u, d, num, den);
        lemma_nearest_multiple(a, b, j);
        let cu = distance(j, 1, a, b);
        lemma_cancel(rdist, cdist, r.den(), c.den(), d, ru, cu);
        if j == s {
            lemma_same_value(r, c, s, u, d);
        }
    } else {
        lemma_below_units(c, x);
        accuracy::lemma_full_significand(num, den);
        lemma_nearest_multiple(a, b, NORMAL as nat);
        let cu = distance(NORMAL as nat, 1, a, b);
        lemma_far_below(c.num(), c.den(), u, d, num, den);
        lemma_cancel(rdist, cdist, r.den(), c.den(), d, ru, cu);
    }
}

/// A number below the least full significand is further away than that.
proof fn lemma_far_below(cn: nat, cd: nat, u: nat, d: nat, num: nat, den: nat)
    requires
        cd > 0 && d > 0 && den > 0,
        cn * d < NORMAL * u * cd,
        num * d >= NORMAL * (den * u),
    ensures
        distance(cn, cd, num, den) * d > cd * distance(NORMAL as nat, 1, num * d, den * u),
{
    let n = NORMAL as int;
    let (p, q) = ((cn * den) as int, (num * cd) as int);
    let (s, t) = (n * (den * u), (num * d * 1) as int);
    assert(p * d < cd * s) by (nonlinear_arith)
        requires
            p == cn * den,
            s == n * (den * u),
            cn * d < n * u * cd,
            den > 0,
    {
        assert(p * d == (cn * d) * den);
        assert((cn * d) * den < (n * u * cd) * den);
        assert((n * u * cd) * den == cd * (n * (den * u)));
    }
    assert(q * d == cd * t) by (nonlinear_arith)
        requires
            q == num * cd,
            t == num * d * 1,
    ;
    lemma_mul_inequality(s, t, cd as int);
    lemma_mul_is_commutative(s, cd as int);
    lemma_mul_is_commutative(t, cd as int);
    if p >= q {
        lemma_mul_inequality(q, p, d as int);
    }
    assert((q - p) * d == q * d - p * d) by (nonlinear_arith);
    assert(cd * (t - s) == cd * t - cd * s) by (nonlinear_arith);
    if s == t {
        assert(cd * 0 == 0);
    }
}

/// Two numbers with the same value have the same significand and exponent.
proof fn lemma_same_value(r: Binary64, c: Binary64, s: nat, u: nat, d: nat)
    requires
        r is Finite && r.wf(),
        c is Finite && c.wf(),
        d > 0,
        r.num() * d == s * u * r.den(),
        c.num() * d == s * u * c.den(),
    ensures
        r->significand == c->significand,
        r->exponent == c->exponent,
{
    let (rn, rd, cn, cd) = (r.num(), r.den(), c.num(), c.den());
    dyadic::lemma_up_pos(r->exponent as int);
    dyadic::lemma_up_pos(c->exponent as int);
    let (lhs, rhs) = ((rn * cd) as int, (cn * rd) as int);
    assert(lhs * d == rhs * d) by (nonlinear_arith)
        requires
            lhs == rn * cd,
            rhs == cn * rd,
            rn * d == s * u * rd,
            cn * d == s * u * cd,
    {
        assert(lhs * d == (rn * d) * cd);
        assert(rhs * d == (cn * d) * rd);
        assert((s * u * rd) * cd == (s * u * cd) * rd);
    }
    if lhs != rhs {
        if lhs < rhs {
            lemma_mul_strict_inequality(lhs, rhs, d as int);
        } else {
            lemma_mul_strict_inequality(rhs, lhs, d as int);
        }
    }
    accuracy::law_representable_is_kept(r);
    accuracy::law_representable_is_kept(c);
    accuracy::law_rounding_sees_the_ratio(r.sign(), rn, rd, cn, cd);
    lemma_sign_apart(r.sign(), c.sign(), cn, cd);
}

proof fn lemma_sign_apart(n: bool, m: bool, num: nat, den: nat)
    ensures
        ({
            let (a, b) = (Binary64::rounded(n, num, den), Binary64::rounded(m, num, den));
            a is Finite && b is Finite ==> a->significand == b->significand && a->exponent
                == b->exponent
        }),
{
}

/// A product is the number nearest to the exact product, with the sign of a product.
pub proof fn law_product_is_nearest(a: Binary64, b: Binary64, c: Binary64)
    requires
        a is Finite,
        b is Finite,
        Binary64::fits(a.num() * b.num(), a.den() * b.den(), MAX_EXPONENT - 1),
        c is Finite,
        c.wf(),
        !c.sign(),
    ensures
        ({
            let r = a.product(b);
            let (n, d) = (a.num() * b.num(), a.den() * b.den());
            &&& r is Finite
            &&& r.sign() == (a.sign() != b.sign())
            &&& is_no_further(r, c, n, d)
            &&& is_no_further(c, r, n, d) && (c->significand != r->significand || c->exponent
                != r->exponent) ==> r->significand % 2 == 0
        }),
{
    dyadic::lemma_up_pos(a->exponent as int);
    dyadic::lemma_up_pos(b->exponent as int);
    lemma_mul_strictly_positive(a.den() as int, b.den() as int);
    law_rounding_is_nearest(
        a.sign() != b.sign(),
        a.num() * b.num(),
        a.den() * b.den(),
        c,
    );
}

/// A quotient is the number nearest to the exact quotient, with the sign of a quotient.
pub proof fn law_quotient_is_nearest(a: Binary64, b: Binary64, c: Binary64)
    requires
        a is Finite,
        b is Finite,
        !b.is_zero(),
        Binary64::fits(a.num() * b.den(), a.den() * b.num(), MAX_EXPONENT - 1),
        c is Finite,
        c.wf(),
        !c.sign(),
    ensures
        ({
            let r = a.quotient(b);
            let (n, d) = (a.num() * b.den(), a.den() * b.num());
            &&& r is Finite
            &&& r.sign() == (a.sign() != b.sign())
            &&& is_no_further(r, c, n, d)
            &&& is_no_further(c, r, n, d) && (c->significand != r->significand || c->exponent
                != r->exponent) ==> r->significand % 2 == 0
        }),
{
    dyadic::lemma_up_pos(a->exponent as int);
    dyadic::lemma_up_pos(b->exponent as int);
    lemma_mul_strictly_positive(b->significand as int, dyadic::up(b->exponent as int) as int);
    lemma_mul_strictly_positive(a.den() as int, b.num() as int);
    law_rounding_is_nearest(
        a.sign() != b.sign(),
        a.num() * b.den(),
        a.den() * b.num(),
        c,
    );
}

/// A sum is the number nearest to the exact sum, with the sign of that; one that is exactly 0 has
/// a sign only where both numbers have one.
pub proof fn law_sum_is_nearest(a: Binary64, b: Binary64, c: Binary64)
    requires
        a is Finite,
        b is Finite,
        c is Finite,
        c.wf(),
        !c.sign(),
    ensures
        ({
            let r = a.sum(b);
            let n: int = a.signed_num() * b.den() + b.signed_num() * a.den();
            let m = if n < 0 {
                (-n) as nat
            } else {
                n as nat
            };
            let d = a.den() * b.den();
            &&& n == 0 ==> r.is_zero() && r.sign() == (a.sign() && b.sign())
            &&& n != 0 && Binary64::fits(m, d, MAX_EXPONENT - 1) ==> {
                &&& r is Finite
                &&& r.sign() == (n < 0)
                &&& is_no_further(r, c, m, d)
                &&& is_no_further(c, r, m, d) && (c->significand != r->significand || c->exponent
                    != r->exponent) ==> r->significand % 2 == 0
            }
        }),
{
    let n: int = a.signed_num() * b.den() + b.signed_num() * a.den();
    let m = if n < 0 {
        (-n) as nat
    } else {
        n as nat
    };
    let d = a.den() * b.den();
    dyadic::lemma_up_pos(a->exponent as int);
    dyadic::lemma_up_pos(b->exponent as int);
    lemma_mul_strictly_positive(a.den() as int, b.den() as int);
    if n != 0 && Binary64::fits(m, d, MAX_EXPONENT - 1) {
        law_rounding_is_nearest(n < 0, m, d, c);
    }
}

/// Subtraction adds the number with the other sign.
pub proof fn law_difference_is_a_sum(a: Binary64, b: Binary64)
    requires
        b is Finite,
    ensures
        ({
            let n = Binary64::Finite {
                negative: !b.sign(),
                significand: b->significand,
                exponent: b->exponent,
            };
            &&& b.negated() == n
            &&& a.difference(b) == a.sum(n)
        }),
{
}

/// The number of an integer is the nearest one.
pub proof fn law_of_is_nearest(n: nat, c: Binary64)
    requires
        Binary64::fits(n, 1, MAX_EXPONENT - 1),
        c is Finite,
        c.wf(),
        !c.sign(),
    ensures
        ({
            let r = Binary64::of(n);
            &&& r is Finite
            &&& !r.sign()
            &&& is_no_further(r, c, n, 1)
            &&& is_no_further(c, r, n, 1) && (c->significand != r->significand || c->exponent
                != r->exponent) ==> r->significand % 2 == 0
        }),
{
    law_rounding_is_nearest(false, n, 1, c);
}

} // verus!
