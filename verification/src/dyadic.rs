//! Powers of two with a signed exponent, written as ratios of natural numbers.

use vstd::prelude::*;
use vstd::arithmetic::div_mod::*;
use vstd::arithmetic::mul::*;
use vstd::arithmetic::power2::*;

verus! {

/// The numerator of `2^e`: `2^e` where `e` is positive, 1 elsewhere.
pub open spec fn up(e: int) -> nat {
    if e > 0 {
        pow2(e as nat)
    } else {
        1
    }
}

/// The denominator of `2^e`: `2^-e` where `e` is negative, 1 elsewhere.
pub open spec fn down(e: int) -> nat {
    up(-e)
}

/// The natural number closest to `a / b`; of two that are equally close, the even one.
pub open spec fn nearest_even(a: nat, b: nat) -> nat
    recommends
        b > 0,
{
    let q = a / b;
    let twice_rest = 2 * (a % b);
    if twice_rest > b || (twice_rest == b && q % 2 == 1) {
        q + 1
    } else {
        q
    }
}

pub proof fn lemma_up_pos(e: int)
    ensures
        up(e) > 0,
        down(e) > 0,
{
    if e > 0 {
        lemma_pow2_pos(e as nat);
    }
    if e < 0 {
        lemma_pow2_pos((-e) as nat);
    }
}

/// `2^a * 2^b == 2^(a + b)`, cross-multiplied.
pub proof fn lemma_up_adds(a: int, b: int)
    ensures
        up(a) * up(b) * down(a + b) == down(a) * down(b) * up(a + b),
{
    let (ua, ub, us) = (up(a), up(b), up(a + b));
    let (da, db, ds) = (down(a), down(b), down(a + b));
    if a >= 0 && b >= 0 {
        lemma_up_adds_nonneg(a, b);
        assert(ua * ub * ds == da * db * us) by (nonlinear_arith)
            requires
                ua * ub == us,
                da == 1 && db == 1 && ds == 1,
        ;
    } else if a < 0 && b < 0 {
        lemma_up_adds_nonneg(-a, -b);
        assert(-a + -b == -(a + b));
        assert(ua * ub * ds == da * db * us) by (nonlinear_arith)
            requires
                da * db == ds,
                ua == 1 && ub == 1 && us == 1,
        ;
    } else if a + b >= 0 {
        let (p, n) = if a >= 0 { (a, b) } else { (b, a) };
        lemma_up_adds_nonneg(a + b, -n);
        assert(a + b + -n == p);
        assert(up(p) * up(n) * ds == down(p) * down(n) * us) by (nonlinear_arith)
            requires
                us * down(n) == up(p),
                up(n) == 1 && down(p) == 1 && ds == 1,
        ;
        assert(ua * ub == up(p) * up(n)) by (nonlinear_arith)
            requires
                (ua == up(p) && ub == up(n)) || (ub == up(p) && ua == up(n)),
        ;
        assert(da * db == down(p) * down(n)) by (nonlinear_arith)
            requires
                (da == down(p) && db == down(n)) || (db == down(p) && da == down(n)),
        ;
    } else {
        let (p, n) = if a >= 0 { (a, b) } else { (b, a) };
        lemma_up_adds_nonneg(p, -(a + b));
        assert(p + -(a + b) == -n);
        assert(up(p) * up(n) * ds == down(p) * down(n) * us) by (nonlinear_arith)
            requires
                up(p) * ds == down(n),
                up(n) == 1 && down(p) == 1 && us == 1,
        ;
        assert(ua * ub == up(p) * up(n)) by (nonlinear_arith)
            requires
                (ua == up(p) && ub == up(n)) || (ub == up(p) && ua == up(n)),
        ;
        assert(da * db == down(p) * down(n)) by (nonlinear_arith)
            requires
                (da == down(p) && db == down(n)) || (db == down(p) && da == down(n)),
        ;
    }
}

proof fn lemma_up_adds_nonneg(a: int, b: int)
    requires
        a >= 0,
        b >= 0,
    ensures
        up(a) * up(b) == up(a + b),
{
    lemma2_to64();
    lemma_pow2_adds(a as nat, b as nat);
}

/// Rounding looks at the ratio only.
pub proof fn lemma_nearest_even_of_equal_ratios(a: nat, b: nat, c: nat, d: nat)
    requires
        b > 0,
        d > 0,
        a * d == c * b,
    ensures
        nearest_even(a, b) == nearest_even(c, d),
{
    let q: int = (a / b) as int;
    let r: int = (a % b) as int;
    lemma_fundamental_div_mod(a as int, b as int);
    let s: int = c - q * d;
    assert(s * b == r * d) by (nonlinear_arith)
        requires
            a * d == c * b,
            a == b * q + r,
            s == c - q * d,
    ;
    assert(0 <= s < d) by (nonlinear_arith)
        requires
            s * b == r * d,
            0 <= r < b,
            d > 0,
    ;
    assert(c == q * d + s);
    lemma_fundamental_div_mod_converse(c as int, d as int, q, s);
    assert((2 * r > b <==> 2 * s > d) && (2 * r == b <==> 2 * s == d)) by (nonlinear_arith)
        requires
            s * b == r * d,
            b > 0,
            d > 0,
    ;
}

} // verus!
