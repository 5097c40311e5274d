//! The shape of the curve that a CUBIC controller follows.

use vstd::prelude::*;
use vstd::arithmetic::div_mod::*;
use vstd::arithmetic::mul::*;
use vstd::arithmetic::power2::*;
use crate::binary64::{accuracy, monotone, rounding, value};
use crate::binary64::{Binary64, LIMIT, MAX_EXPONENT, NORMAL};
use crate::cubic;
use crate::cubic::Cubic;
use crate::dyadic;
use crate::time::Instant;
use crate::window;
use super::cubic::{lemma_scaling_is_positive, lemma_size_is_finite};
use super::cube_root;

verus! {

/// A number of the given sign.
spec fn has_sign(a: Binary64, negative: bool) -> bool {
    !(a is Nan) && a.sign() == negative
}

proof fn lemma_rounded_has_sign(negative: bool, num: nat, den: nat)
    ensures
        has_sign(Binary64::rounded(negative, num, den), negative),
{
}

proof fn lemma_zero_num(a: Binary64)
    requires
        a.is_zero(),
    ensures
        a.num() == 0,
{
    assert(a.num() == 0) by (nonlinear_arith)
        requires
            a.num() == 0 * dyadic::up(a->exponent as int),
    ;
}

/// A cube has the sign of the number.
proof fn lemma_cube_has_sign(s: Binary64)
    requires
        !(s is Nan),
    ensures
        has_sign(s.product(s.product(s)), s.sign()),
{
    let square = s.product(s);
    if s.is_zero() {
        lemma_zero_num(s);
        dyadic::lemma_up_pos(s->exponent as int);
        lemma_mul_strictly_positive(s.den() as int, s.den() as int);
        assert(s.num() * s.num() == 0) by (nonlinear_arith)
            requires
                s.num() == 0,
        ;
        accuracy::lemma_rounded_zero(false, s.den() * s.den());
    }
    assert(!square.sign() && !(square is Nan));
    if s is Infinity {
        assert(square == (Binary64::Infinity { negative: false }));
    }
}

/// The cubic term has the sign of the time from the offset.
proof fn lemma_term_has_sign(c: Cubic, s: Binary64)
    requires
        c.min_cwnd > 0,
        !(s is Nan),
    ensures
        has_sign(cubic::scaling(c.min_cwnd).product(s.product(s.product(s))), s.sign()),
{
    lemma_cube_has_sign(s);
    lemma_scaling_is_positive(c.min_cwnd);
}

proof fn lemma_zero_product(a: Binary64, z: Binary64)
    requires
        a is Finite,
        z.is_zero(),
    ensures
        a.product(z).is_zero(),
{
    lemma_zero_num(z);
    dyadic::lemma_up_pos(a->exponent as int);
    dyadic::lemma_up_pos(z->exponent as int);
    lemma_mul_strictly_positive(a.den() as int, z.den() as int);
    assert(a.num() * z.num() == 0) by (nonlinear_arith)
        requires
            z.num() == 0,
    ;
    accuracy::lemma_rounded_zero(a.sign() != z.sign(), a.den() * z.den());
}

/// At the offset there is no cubic term.
proof fn lemma_zero_term(c: Cubic, s: Binary64)
    requires
        c.min_cwnd > 0,
        s.is_zero(),
    ensures
        cubic::scaling(c.min_cwnd).product(s.product(s.product(s))).is_zero(),
{
    lemma_scaling_is_positive(c.min_cwnd);
    lemma_zero_product(s, s);
    lemma_zero_product(s, s.product(s));
    lemma_zero_product(cubic::scaling(c.min_cwnd), s.product(s.product(s)));
}

/// What is taken from a finite number leaves no more than it.
proof fn lemma_sum_with_negative(a: Binary64, w: Binary64)
    requires
        has_sign(a, true),
        w is Finite,
        w.wf(),
        !w.sign(),
        Binary64::fits(w.num(), w.den(), MAX_EXPONENT - 1),
    ensures
        a.sum(w).at_most(w),
{
    if a is Finite {
        let (an, ad, wn, wd) = (a.num(), a.den(), w.num(), w.den());
        dyadic::lemma_up_pos(a->exponent as int);
        dyadic::lemma_up_pos(w->exponent as int);
        let n = (-(an as int)) * wd + wn * ad;
        let d = ad * wd;
        lemma_mul_strictly_positive(ad as int, wd as int);
        let r = a.sum(w);
        if n > 0 {
            assert(n * wd <= wn * d) by (nonlinear_arith)
                requires
                    n == (-(an as int)) * wd + wn * ad,
                    d == ad * wd,
                    an >= 0,
                    wd >= 0,
            {
                assert(n <= wn * ad) by (nonlinear_arith)
                    requires
                        n == (-(an as int)) * wd + wn * ad,
                        an >= 0,
                        wd >= 0,
                ;
                assert(n * wd <= (wn * ad) * wd);
            }
            monotone::law_rounding_is_monotone(false, n as nat, d, wn, wd);
            accuracy::law_representable_is_kept(w);
        } else {
            let (rn, rd) = (r.signed_num(), r.den() as int);
            if n == 0 {
                lemma_zero_num(r);
            } else {
                lemma_rounded_has_sign(true, (-n) as nat, d);
            }
            if r is Finite {
                dyadic::lemma_up_pos(r->exponent as int);
                assert(rn * wd <= wn * rd) by (nonlinear_arith)
                    requires
                        rn <= 0,
                        wd >= 0,
                        wn >= 0,
                        rd >= 0,
                ;
            }
        }
    }
}

/// A ratio beyond the normal range is rounded to something beyond a number of up to `2^70`.
proof fn lemma_beyond(num: nat, den: nat, w: Binary64)
    requires
        den > 0,
        !Binary64::fits(num, den, MAX_EXPONENT - 1),
        w is Finite,
        w.num() <= w.den() * pow2(70),
        !w.sign(),
    ensures
        w.at_most(Binary64::rounded(false, num, den)),
{
    accuracy::lemma_unit_exists(num, den);
    let x = Binary64::unit(num, den);
    if x < MAX_EXPONENT {
        rounding::lemma_fits_upward(num, den, x, MAX_EXPONENT - 1);
    }
    let r = Binary64::rounded(false, num, den);
    if r is Finite {
        let (ux, dx) = (dyadic::up(x), dyadic::down(x));
        dyadic::lemma_up_pos(x);
        dyadic::lemma_up_pos(w->exponent as int);
        let (a, b) = (num * dx, den * ux);
        lemma_mul_strictly_positive(den as int, ux as int);
        accuracy::lemma_full_significand(num, den);
        lemma_fundamental_div_mod(a as int, b as int);
        let (q, rest) = (a / b, a % b);
        assert(q >= NORMAL) by (nonlinear_arith)
            requires
                a == b * q + rest,
                0 <= rest < b,
                a >= NORMAL * b,
        ;
        assert(q < LIMIT) by (nonlinear_arith)
            requires
                a == b * q + rest,
                0 <= rest < b,
                a < b * LIMIT,
        ;
        rounding::lemma_pow2_ordered(70, x as nat);
        let (p, m, wn, wd) = (pow2(70), r->significand as nat, w.num(), w.den());
        assert(r.den() == 1 && r.num() == m * ux && m >= 1);
        assert(wn * 1 <= (m * ux) * wd) by (nonlinear_arith)
            requires
                wn <= wd * p,
                p <= ux,
                m >= 1,
        {
            assert(wd * p <= wd * ux);
            assert(wd * ux <= (m * ux) * wd);
        }
    }
}

/// What is added to a finite number leaves no less than it.
proof fn lemma_sum_with_positive(a: Binary64, w: Binary64)
    requires
        has_sign(a, false) || a.is_zero(),
        w is Finite,
        w.wf(),
        !w.sign(),
        w.num() <= w.den() * pow2(70),
    ensures
        w.at_most(a.sum(w)),
{
    if a is Finite {
        let (an, ad, wn, wd) = (a.num(), a.den(), w.num(), w.den());
        dyadic::lemma_up_pos(a->exponent as int);
        dyadic::lemma_up_pos(w->exponent as int);
        if a.is_zero() {
            lemma_zero_num(a);
        }
        let n = an * wd + wn * ad;
        let d = ad * wd;
        lemma_mul_strictly_positive(ad as int, wd as int);
        let r = a.sum(w);
        if n == 0 {
            assert(wn == 0) by (nonlinear_arith)
                requires
                    an * wd + wn * ad == 0,
                    an * wd >= 0,
                    wn >= 0,
                    ad > 0,
            ;
            lemma_zero_num(r);
            assert(0 * wd == 0 && 0 * r.den() == 0);
        } else if Binary64::fits(n, d, MAX_EXPONENT - 1) {
            assert(wn * d <= n * wd) by (nonlinear_arith)
                requires
                    n == an * wd + wn * ad,
                    d == ad * wd,
            {
                assert(wn * ad <= n) by (nonlinear_arith)
                    requires
                        n == an * wd + wn * ad,
                ;
                assert((wn * ad) * wd <= n * wd);
            }
            monotone::law_rounding_is_monotone(false, wn, wd, n, d);
            accuracy::law_representable_is_kept(w);
        } else {
            lemma_beyond(n, d, w);
        }
    }
}

/// The plateau is a number up to `2^64`.
proof fn lemma_plateau(w_max: usize)
    ensures
        ({
            let w = Binary64::of(w_max as nat);
            &&& w is Finite
            &&& w.wf()
            &&& !w.sign()
            &&& w.num() <= w.den() * pow2(70)
            &&& Binary64::fits(w.num(), w.den(), MAX_EXPONENT - 1)
        }),
{
    let n = w_max as nat;
    let w = Binary64::of(n);
    lemma_size_is_finite(w_max);
    lemma2_to64();
    lemma2_to64_rest();
    rounding::lemma_pow2_ordered(64, 70);
    cube_root::lemma_rounded_at_most(n, 1, 1, 70);
    cube_root::lemma_fits(w.num(), w.den(), 70);
}

/// Until its offset the curve is no higher than its plateau.
pub proof fn law_curve_before_the_offset(c: Cubic, seconds: Binary64)
    requires
        c.min_cwnd > 0,
        seconds is Finite,
        c.k is Finite,
        seconds.less(c.k),
    ensures
        c.curve(seconds).at_most(Binary64::of(c.w_max as nat)),
{
    let s = seconds.difference(c.k);
    lemma_negated_product(c.k.signed_num(), seconds.den() as int);
    assert(s.sign() && !(s is Nan));
    lemma_term_has_sign(c, s);
    lemma_plateau(c.w_max);
    lemma_sum_with_negative(
        cubic::scaling(c.min_cwnd).product(s.product(s.product(s))),
        Binary64::of(c.w_max as nat),
    );
}

proof fn lemma_negated_product(a: int, b: int)
    ensures
        (-a) * b == -(a * b),
{
    assert((-a) * b == -(a * b)) by (nonlinear_arith);
}

/// From its offset on the curve is no lower than its plateau.
pub proof fn law_curve_after_the_offset(c: Cubic, seconds: Binary64)
    requires
        c.min_cwnd > 0,
        seconds is Finite,
        c.k is Finite,
        c.k.at_most(seconds),
    ensures
        Binary64::of(c.w_max as nat).at_most(c.curve(seconds)),
{
    let s = seconds.difference(c.k);
    lemma_negated_product(c.k.signed_num(), seconds.den() as int);
    if s.sign() {
        assert(s.is_zero());
        lemma_zero_term(c, s);
    } else {
        lemma_term_has_sign(c, s);
    }
    lemma_plateau(c.w_max);
    lemma_sum_with_positive(
        cubic::scaling(c.min_cwnd).product(s.product(s.product(s))),
        Binary64::of(c.w_max as nat),
    );
}

/// The seconds of a time in microseconds.
spec fn seconds(t: int) -> Binary64 {
    Binary64::of(t as nat).quotient(Binary64::of(cubic::MICROS_PER_SECOND as nat))
}

proof fn lemma_seconds_are_finite(t: int)
    requires
        0 <= t <= u64::MAX,
    ensures
        seconds(t) is Finite,
        !seconds(t).sign(),
{
    let (n, m) = (t as nat, 1_000_000nat);
    let x = t as real;
    value::lemma_summit();
    value::lemma_rounded_value(false, n, 1);
    value::lemma_integer_value(m);
    value::lemma_ratio(n, 1);
    let q = value::ratio(n, 1);
    assert(q == x) by (nonlinear_arith)
        requires
            q * 1real == x,
    ;
    let v = Binary64::of(n).value();
    reveal(value::is_rounding);
    assert(v <= 2real * x + 1real);
    assert(v / 1000000real <= value::top());
    value::lemma_quotient_value(Binary64::of(n), Binary64::of(m));
}

/// After a timeout, a window that has reached the plateau stands still until the offset: segments
/// prepared before then leave it where it is.
pub proof fn law_window_waits_for_the_offset(c: Cubic, now: Instant)
    requires
        c.min_cwnd > 0,
        c.k is Finite,
        c.timed_out_at is Some,
        now.micros >= c.timed_out_at->0.micros,
        Binary64::of((now.micros - c.timed_out_at->0.micros) as nat).quotient(
            Binary64::of(cubic::MICROS_PER_SECOND as nat),
        ).less(c.k),
        Binary64::of(c.w_max as nat).truncated() <= c.cwnd,
        c.min_cwnd <= c.cwnd <= c.rwnd,
    ensures
        c.prepared(now).cwnd == c.cwnd,
{
    let t = now.micros - c.timed_out_at->0.micros;
    lemma_seconds_are_finite(t);
    law_curve_before_the_offset(c, seconds(t));
    lemma_at_most_truncated(c.curve_now(t), Binary64::of(c.w_max as nat));
}

/// From the offset on, a segment that is prepared after a timeout finds the window back at the
/// plateau, as far as slow start may reach and the receiver has room.
pub proof fn law_window_is_back_at_the_plateau(c: Cubic, now: Instant)
    requires
        c.min_cwnd > 0,
        c.k is Finite,
        c.timed_out_at is Some,
        now.micros >= c.timed_out_at->0.micros,
        c.k.at_most(
            Binary64::of((now.micros - c.timed_out_at->0.micros) as nat).quotient(
                Binary64::of(cubic::MICROS_PER_SECOND as nat),
            ),
        ),
    ensures
        c.prepared(now).cwnd >= window::smaller(
            window::smaller(Binary64::of(c.w_max as nat).truncated(), c.ssthresh),
            c.rwnd,
        ),
{
    let t = now.micros - c.timed_out_at->0.micros;
    lemma_seconds_are_finite(t);
    law_curve_after_the_offset(c, seconds(t));
    lemma_at_most_truncated(Binary64::of(c.w_max as nat), c.curve_now(t));
}

proof fn lemma_at_most_truncated(a: Binary64, b: Binary64)
    requires
        a.at_most(b),
    ensures
        a.truncated() <= b.truncated(),
{
    if a.less(b) {
        accuracy::law_truncation_is_monotone(a, b);
    } else if a is Finite && b is Finite && !a.sign() {
        let (an, ad, bn, bd) = (a.num(), a.den(), b.num(), b.den());
        dyadic::lemma_up_pos(a->exponent as int);
        dyadic::lemma_up_pos(b->exponent as int);
        lemma_fundamental_div_mod(an as int, ad as int);
        lemma_fundamental_div_mod(bn as int, bd as int);
        let (p, r, q, s) = (an / ad, an % ad, bn / bd, bn % bd);
        if !b.sign() {
            assert(p <= q) by (nonlinear_arith)
                requires
                    an * bd <= bn * ad,
                    an == ad * p + r,
                    bn == bd * q + s,
                    0 <= r < ad,
                    0 <= s < bd,
            {
                if p >= q + 1 {
                    assert(an * bd >= ad * (q + 1) * bd);
                    assert(bn * ad < bd * (q + 1) * ad);
                }
            }
        } else {
            assert(an == 0) by (nonlinear_arith)
                requires
                    an * bd <= -(bn as int) * ad,
                    bd > 0,
                    ad > 0,
                    an >= 0,
                    bn >= 0,
            ;
        }
    }
}

} // verus!
