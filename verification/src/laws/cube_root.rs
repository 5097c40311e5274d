//! Laws of the cube root.

use vstd::prelude::*;
use vstd::arithmetic::mul::*;
use vstd::arithmetic::power2::*;
use crate::binary64::{accuracy, monotone, rounding, value, Binary64, MAX_EXPONENT};
use crate::cube_root;
use crate::dyadic;
use super::newton;

verus! {

/// A finite number from `2^-low` to `2^high`.
pub open spec fn is_between(a: Binary64, low: nat, high: nat) -> bool {
    &&& a is Finite
    &&& a.wf()
    &&& !a.sign()
    &&& a.den() > 0
    &&& a.den() <= a.num() * pow2(low)
    &&& a.num() <= a.den() * pow2(high)
}

pub proof fn lemma_rounded_between(num: nat, den: nat, low: nat, high: nat)
    requires
        den > 0,
        den <= num * pow2(low),
        num <= den * pow2(high),
        low <= 900,
        high <= 900,
    ensures
        is_between(Binary64::rounded(false, num, den), low, high),
{
    lemma_rounded_at_most(num, den, 1, high);
    let r = Binary64::rounded(false, num, den);
    let e = -(low as int);
    lemma2_to64();
    assert(dyadic::up(e) == 1 && dyadic::down(e) == pow2(low));
    let (u, rd) = (dyadic::up(e), r.den());
    assert(1 * u * den == den && 1 * u * rd == rd) by (nonlinear_arith)
        requires
            u == 1,
    ;
    lemma_fits(num, den, high);
    monotone::law_rounding_keeps_lower_bound(num, den, 1, e);
    assert(1 * pow2(high) == pow2(high));
}

pub proof fn lemma_fits(num: nat, den: nat, high: nat)
    requires
        den > 0,
        num <= den * pow2(high),
        high <= 900,
    ensures
        Binary64::fits(num, den, MAX_EXPONENT - 1),
{
    lemma2_to64();
    monotone::law_dyadic_is_exact(false, 1, high as int);
    let p = pow2(high);
    assert(dyadic::up(high as int) == p && dyadic::down(high as int) == 1);
    assert(num * 1 <= (1 * p) * den) by (nonlinear_arith)
        requires
            num <= den * p,
    ;
    monotone::lemma_fits_downward(num, den, 1 * p, 1, MAX_EXPONENT - 1);
}

pub proof fn lemma_rounded_at_most(num: nat, den: nat, c: nat, high: nat)
    requires
        den > 0,
        c < 1000,
        num <= den * (c * pow2(high)),
        high <= 900,
    ensures
        ({
            let r = Binary64::rounded(false, num, den);
            &&& r is Finite
            &&& r.wf()
            &&& !r.sign()
            &&& r.den() > 0
            &&& r.num() <= r.den() * (c * pow2(high))
        }),
{
    lemma2_to64();
    let p = pow2(high);
    assert(dyadic::up(high as int) == p && dyadic::down(high as int) == 1);
    assert(num * 1 <= c * p * den) by (nonlinear_arith)
        requires
            num <= den * (c * p),
    ;
    monotone::law_rounding_keeps_upper_bound(num, den, c, high as int);
    let r = Binary64::rounded(false, num, den);
    dyadic::lemma_up_pos(r->exponent as int);
    let (rn, rd) = (r.num(), r.den());
    assert(rn <= rd * (c * p)) by (nonlinear_arith)
        requires
            rn * 1 <= c * p * rd,
    ;
}

pub proof fn lemma_product_between(a: Binary64, b: Binary64, la: nat, ha: nat, lb: nat, hb: nat)
    requires
        is_between(a, la, ha),
        is_between(b, lb, hb),
        la + lb <= 900,
        ha + hb <= 900,
    ensures
        is_between(a.product(b), la + lb, ha + hb),
{
    let (an, ad, bn, bd) = (a.num(), a.den(), b.num(), b.den());
    let (p, q) = (pow2(la), pow2(lb));
    let (r, s) = (pow2(ha), pow2(hb));
    lemma_pow2_adds(la, lb);
    lemma_pow2_adds(ha, hb);
    assert(ad * bd > 0) by (nonlinear_arith)
        requires
            ad > 0,
            bd > 0,
    ;
    assert(ad * bd <= (an * bn) * (p * q)) by (nonlinear_arith)
        requires
            ad <= an * p,
            bd <= bn * q,
    {
        assert(ad * bd <= (an * p) * (bn * q));
        assert((an * p) * (bn * q) == (an * bn) * (p * q));
    }
    assert(an * bn <= (ad * bd) * (r * s)) by (nonlinear_arith)
        requires
            an <= ad * r,
            bn <= bd * s,
    {
        assert(an * bn <= (ad * r) * (bd * s));
        assert((ad * r) * (bd * s) == (ad * bd) * (r * s));
    }
    lemma_rounded_between(an * bn, ad * bd, la + lb, ha + hb);
}

/// The quotient of a number up to `2^ha` by one from `2^-lb`.
pub proof fn lemma_quotient_at_most(a: Binary64, b: Binary64, ha: nat, lb: nat, hb: nat)
    requires
        a is Finite,
        !a.sign(),
        a.num() <= a.den() * pow2(ha),
        is_between(b, lb, hb),
        ha + lb <= 900,
    ensures
        ({
            let r = a.quotient(b);
            &&& r is Finite
            &&& r.wf()
            &&& !r.sign()
            &&& r.den() > 0
            &&& r.num() <= r.den() * pow2(ha + lb)
        }),
{
    let (an, ad, bn, bd) = (a.num(), a.den(), b.num(), b.den());
    let (p, q) = (pow2(ha), pow2(lb));
    dyadic::lemma_up_pos(a->exponent as int);
    lemma_pow2_adds(ha, lb);
    lemma_not_zero(b, lb);
    assert(ad * bn > 0) by (nonlinear_arith)
        requires
            ad > 0,
            bd > 0,
            bd <= bn * q,
    ;
    assert(an * bd <= (ad * bn) * (1 * (p * q))) by (nonlinear_arith)
        requires
            an <= ad * p,
            bd <= bn * q,
    {
        assert(an * bd <= (ad * p) * (bn * q));
        assert((ad * p) * (bn * q) == (ad * bn) * (1 * (p * q)));
    }
    assert(1 * pow2(ha + lb) == pow2(ha + lb));
    lemma_rounded_at_most(an * bd, ad * bn, 1, ha + lb);
}

/// The quotient of two numbers away from 0.
pub proof fn lemma_quotient_between(a: Binary64, b: Binary64, la: nat, ha: nat, lb: nat, hb: nat)
    requires
        is_between(a, la, ha),
        is_between(b, lb, hb),
        la + hb <= 900,
        ha + lb <= 900,
    ensures
        is_between(a.quotient(b), la + hb, ha + lb),
{
    let (an, ad, bn, bd) = (a.num(), a.den(), b.num(), b.den());
    let (p, q) = (pow2(la), pow2(hb));
    let (r, s) = (pow2(ha), pow2(lb));
    lemma_pow2_adds(la, hb);
    lemma_pow2_adds(ha, lb);
    lemma_not_zero(b, lb);
    assert(ad * bn > 0) by (nonlinear_arith)
        requires
            ad > 0,
            bn > 0,
    ;
    assert(ad * bn <= (an * bd) * (p * q)) by (nonlinear_arith)
        requires
            ad <= an * p,
            bn <= bd * q,
    {
        assert(ad * bn <= (an * p) * (bd * q));
        assert((an * p) * (bd * q) == (an * bd) * (p * q));
    }
    assert(an * bd <= (ad * bn) * (r * s)) by (nonlinear_arith)
        requires
            an <= ad * r,
            bd <= bn * s,
    {
        assert(an * bd <= (ad * r) * (bn * s));
        assert((ad * r) * (bn * s) == (ad * bn) * (r * s));
    }
    lemma_rounded_between(an * bd, ad * bn, la + hb, ha + lb);
}

pub proof fn lemma_not_zero(b: Binary64, low: nat)
    requires
        b is Finite,
        0 < b.den() <= b.num() * pow2(low),
    ensures
        !b.is_zero(),
        b.num() > 0,
{
    let (n, p) = (b.num(), pow2(low));
    assert(n > 0) by (nonlinear_arith)
        requires
            0 < n * p,
    ;
    assert(0 * dyadic::up(b->exponent as int) == 0);
}

/// One step keeps an iterate between `2^-low` and `2^118`, one power of two further down.
proof fn lemma_step_between(a: Binary64, x: Binary64, low: nat)
    requires
        a is Finite,
        !a.sign(),
        a.num() <= a.den() * pow2(66),
        1 <= low <= 25,
        is_between(x, low, 118),
    ensures
        is_between(cube_root::newton_step(a, x), low + 1, 118),
{
    let two = Binary64::of(2);
    let three = Binary64::of(3);
    lemma2_to64();
    accuracy::law_integers_are_exact(2);
    accuracy::law_integers_are_exact(3);
    dyadic::lemma_up_pos(two->exponent as int);
    dyadic::lemma_up_pos(three->exponent as int);
    let (wn, wd, xn, xd) = (two.num(), two.den(), x.num(), x.den());
    // Twice the iterate: from 2^-(low - 1) to 8 * 2^116.
    let double = two.product(x);
    let l = (low - 1) as nat;
    let p = pow2(l);
    lemma_pow2_unfold(low);
    lemma_pow2_unfold(120);
    lemma_pow2_unfold(119);
    lemma_pow2_unfold(118);
    lemma_pow2_unfold(117);
    let top = pow2(116);
    assert(wd * xd > 0 && wd * xd <= (wn * xn) * p && wn * xn <= (wd * xd) * (8 * top))
        by (nonlinear_arith)
        requires
            wd > 0,
            xd > 0,
            wn == 2 * wd,
            xd <= xn * (2 * p),
            xn <= xd * (4 * top),
    {
        assert(wd * xd <= wd * (xn * (2 * p)));
        assert(wd * (xn * (2 * p)) == (wn * xn) * p);
        assert(wn * xn <= wn * (xd * (4 * top)));
        assert(wn * (xd * (4 * top)) == (wd * xd) * (8 * top));
    }
    lemma_rounded_between(wn * xn, wd * xd, l, 119);
    // The quotient by the square: at most 2^116.
    let square = x.product(x);
    lemma_product_between(x, x, low, 118, low, 118);
    let q = a.quotient(square);
    lemma_quotient_at_most(a, square, 66, low + low, 236);
    rounding::lemma_pow2_ordered(66 + (low + low), 116);
    let (qn, qd, dn, dd) = (q.num(), q.den(), double.num(), double.den());
    assert(qn <= qd * top) by (nonlinear_arith)
        requires
            qn <= qd * pow2(66 + (low + low)),
            pow2(66 + (low + low)) <= top,
    ;
    // Their sum: from 2^-(low - 1) to 9 * 2^116.
    let n = dn * qd + qn * dd;
    let d = dd * qd;
    assert(d > 0 && d <= n * p && n <= d * (9 * top)) by (nonlinear_arith)
        requires
            n == dn * qd + qn * dd,
            d == dd * qd,
            dd > 0,
            qd > 0,
            dd <= dn * p,
            dn <= dd * (8 * top),
            qn <= qd * top,
    {
        assert(dd * qd <= (dn * p) * qd);
        assert((dn * p) * qd <= n * p);
        assert(dn * qd <= (dd * (8 * top)) * qd);
        assert(qn * dd <= (qd * top) * dd);
    }
    let sum = double.sum(q);
    assert(n > 0) by (nonlinear_arith)
        requires
            0 < d <= n * p,
    ;
    assert(sum == Binary64::rounded(false, n, d));
    lemma_rounded_at_most(n, d, 9, 116);
    assert(n <= d * pow2(120)) by (nonlinear_arith)
        requires
            n <= d * (9 * top),
            16 * top == pow2(120),
    ;
    lemma_rounded_between(n, d, l, 120);
    // A third of it: from 2^-(low + 1) to 3 * 2^116.
    let (sn, sd, tn, td) = (sum.num(), sum.den(), three.num(), three.den());
    assert(!three.is_zero()) by {
        assert(0 * dyadic::up(three->exponent as int) == 0);
    }
    let (rn, rd) = (sn * td, sd * tn);
    lemma_pow2_unfold(low + 1);
    assert(rd > 0 && rd <= rn * (4 * p) && rn <= rd * (4 * top)) by (nonlinear_arith)
        requires
            rn == sn * td,
            rd == sd * tn,
            tn == 3 * td,
            td > 0,
            sd > 0,
            sd <= sn * p,
            sn <= sd * (9 * top),
    {
        assert(sd * td <= (sn * p) * td);
        assert((sn * p) * td == rn * p);
        assert(rd == 3 * (sd * td));
        assert(sn * td <= (sd * (9 * top)) * td);
        assert((sd * (9 * top)) * td == rd * (3 * top));
    }
    lemma_rounded_between(rn, rd, low + 1, 118);
}

proof fn lemma_newton_between(
    a: Binary64,
    x: Binary64,
    tolerance: Binary64,
    n: nat,
    low: nat,
)
    requires
        a is Finite,
        !a.sign(),
        a.num() <= a.den() * pow2(66),
        1 <= low,
        low + n <= 25,
        is_between(x, low, 118),
    ensures
        is_between(cube_root::newton(a, x, tolerance, n), low + n + 1, 118),
    decreases n,
{
    lemma_step_between(a, x, low);
    let next = cube_root::newton_step(a, x);
    if n > 0 {
        lemma_newton_between(a, next, tolerance, (n - 1) as nat, low + 1);
    }
    rounding::lemma_pow2_ordered(low + 1, low + n + 1);
    let (nn, nd) = (next.num(), next.den());
    let (p, q) = (pow2(low + 1), pow2(low + n + 1));
    assert(nd <= nn * q) by (nonlinear_arith)
        requires
            nd <= nn * p,
            p <= q,
    ;
}

/// The cube root of a number above 0 and up to `2^66` is a number above 0.
pub proof fn law_root_is_positive(a: Binary64)
    requires
        a is Finite,
        !a.sign(),
        a.num() <= a.den() * pow2(66),
    ensures
        cube_root::root(a) matches Some(x) ==> x is Finite && x.wf() && !x.sign() && !x.is_zero(),
{
    let (tolerance, x) = cube_root::start(a);
    cube_root::lemma_starting_points();
    lemma2_to64();
    lemma2_to64_rest();
    rounding::lemma_pow2_ordered(64, 118);
    dyadic::lemma_up_pos(x->exponent as int);
    assert(x.num() == x->significand * 1);
    let (n, d, p) = (x.num(), x.den(), pow2(118));
    assert(d <= n * 2 && n <= d * p) by (nonlinear_arith)
        requires
            0 < d <= n,
            n <= 0x1_0000_0000_0000_0000,
            p >= 0x1_0000_0000_0000_0000,
    ;
    lemma_newton_between(a, x, tolerance, 20, 1);
    let r = cube_root::newton(a, x, tolerance, 20);
    lemma_not_zero(r, 22);
}

pub open spec fn cubed(x: real) -> real {
    x * x * x
}

/// The cube root of a number above 0 and below `10^18` is below the real one by no more than
/// rounding, eleven parts in `2^53`, and above it by less than twice the tolerance of the
/// number's range.
pub proof fn law_root_is_near(a: Binary64)
    requires
        a is Finite,
        a.wf(),
        0real < a.value() < 1_000_000_000_000_000_000real,
    ensures
        cube_root::root(a) is Some,
        ({
            let x = cube_root::root(a)->0;
            let twice = 2real * cube_root::start(a).0.value();
            &&& x is Finite
            &&& x.wf()
            &&& !x.sign()
            &&& cubed(x.value()) >= a.value() * cubed(1real - 11real / 9_007_199_254_740_992real)
            &&& x.value() > twice ==> cubed(x.value() - twice) < a.value()
        }),
{
    value::lemma_value(a);
    value::lemma_zero_value(false);
    dyadic::lemma_up_pos(a->exponent as int);
    value::lemma_ratio(a.num(), a.den());
    value::lemma_less_value(Binary64::zero(false), a);
    newton::lemma_root_is_near(a);
    let x = cube_root::root(a)->0;
    reveal(newton::not_below);
    reveal(newton::not_far_above);
    let (v, c, l) = (x.value(), a.value(), value::limit());
    let (p, q, e) = (v * l, l - 11real, 1real - 11real / 9007199254740992real);
    assert(v * v * v >= c * (e * e * e)) by (nonlinear_arith)
        requires
            l == 9007199254740992real,
            p == v * l,
            q == e * l,
            p * p * p >= c * (q * q * q),
    {
        let l3 = l * l * l;
        assert(p * p * p == (v * v * v) * l3);
        assert(c * (q * q * q) == (c * (e * e * e)) * l3);
        assert(l3 > 0real);
    }
}

} // verus!
