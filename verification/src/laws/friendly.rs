//! The Reno-friendly window over real numbers.

use vstd::prelude::*;
use crate::binary64::{accuracy, value, Binary64};
use crate::cubic;
use crate::cubic::Cubic;
use crate::rtt::RttEstimator;
use crate::time::Instant;
use super::avoidance;
use super::avoidance::{counted, is_avoiding};
use super::formulas;
use super::loss;

verus! {

/// 0.3, up to rounding.
pub proof fn lemma_one_minus_beta_value()
    ensures
        cubic::one_minus_beta().is_magnitude(),
        value::near(cubic::one_minus_beta().value(), 3real / 10real, 8real),
{
    let (one, b) = (Binary64::of(1), cubic::beta());
    loss::lemma_constant_values();
    value::lemma_integer_value(1);
    value::lemma_near_bounds(b.value(), 7real / 10real, 2real);
    value::lemma_difference_value(one, b);
    let (x, y) = (cubic::one_minus_beta().value(), 1real - b.value());
    value::lemma_rounding_is_near(x, y);
    assert(value::near(y, 3real / 10real, 5real)) by {
        reveal(value::near);
    }
    value::lemma_near_chain(x, y, 3real / 10real, 2real, 5real);
    value::lemma_near_bounds(x, 3real / 10real, 8real);
    formulas::lemma_positive_sign(cubic::one_minus_beta());
}

/// `3 * 0.3 / 1.7`, up to rounding.
proof fn lemma_alpha_value()
    ensures
        cubic::alpha().is_magnitude(),
        value::near(cubic::alpha().value(), 9real / 17real, 24real),
{
    let three = Binary64::of(3);
    lemma_one_minus_beta_value();
    loss::lemma_one_plus_beta_value();
    value::lemma_integer_value(3);
    avoidance::lemma_near_itself(3real);
    let (rise, whole) = (cubic::one_minus_beta(), cubic::one_plus_beta());
    loss::lemma_product_near(three, 3real, 1real, rise, 3real / 10real, 8real);
    let x = three.product(rise);
    let (p, q) = (9real / 10real, 17real / 10real);
    assert(3real * (3real / 10real) == p);
    value::lemma_near_bounds(x.value(), p, 13real);
    value::lemma_near_bounds(whole.value(), q, 6real);
    value::lemma_near_reciprocal(whole.value(), q, 6real);
    let (u, v) = (1real / whole.value(), 1real / q);
    value::lemma_near_product(x.value(), p, 13real, u, v, 7real);
    lemma_reciprocal(x.value(), whole.value());
    assert(p * v == 9real / 17real);
    value::lemma_near_bounds(x.value() / whole.value(), 9real / 17real, 21real);
    value::lemma_quotient_value(x, whole);
    let r = cubic::alpha();
    value::lemma_rounding_is_near(r.value(), x.value() / whole.value());
    value::lemma_near_chain(r.value(), x.value() / whole.value(), 9real / 17real, 2real, 21real);
}

pub proof fn lemma_reciprocal(x: real, y: real)
    requires
        y > 0real,
    ensures
        x * (1real / y) == x / y,
{
    assert(x * (1real / y) == x / y) by (nonlinear_arith)
        requires
            y > 0real,
    ;
}

proof fn lemma_times_bounds(p: real, q: real, a: real, b: real)
    requires
        1real / 2real <= p <= a,
        1real <= q <= b,
    ensures
        1real / 2real <= p * q <= a * b,
{
    assert(p * q >= p) by (nonlinear_arith)
        requires
            p >= 0real,
            q >= 1real,
    ;
    assert(p * q <= a * q) by (nonlinear_arith)
        requires
            p <= a,
            q >= 0real,
    ;
    assert(a * q <= a * b) by (nonlinear_arith)
        requires
            q <= b,
            a >= 0real,
    ;
}

proof fn lemma_share_bounds(p: real, n: real)
    requires
        1real / 2real <= p <= 1000000000000000000000000000000000000000000real,
        1real <= n <= 18446744073709551616real,
    ensures
        p / n <= 1000000000000000000000000000000000000000000real,
        p / n >= 1real / 100000000000000000000real,
{
    let x = p / n;
    assert(x * n == p) by (nonlinear_arith)
        requires
            x == p / n,
            n >= 1real,
    ;
    assert(x >= 0real && x <= p) by (nonlinear_arith)
        requires
            x * n == p,
            n >= 1real,
            p >= 0real,
    ;
    assert(x * n <= x * 18446744073709551616real) by (nonlinear_arith)
        requires
            x >= 0real,
            n <= 18446744073709551616real,
    ;
}

/// A share `a * m * s / n` computed from sizes.
proof fn lemma_gain(a: Binary64, m: usize, s: usize, n: usize)
    requires
        a.is_magnitude(),
        1real / 2real <= a.value() <= 2real,
        m >= 1,
        s >= 1,
        n >= 1,
    ensures
        ({
            let g = a.product(Binary64::of(m as nat)).product(Binary64::of(s as nat)).quotient(
                Binary64::of(n as nat),
            );
            let exact = a.value() * (m as real) * (s as real) / (n as real);
            &&& g.is_magnitude()
            &&& value::near(g.value(), exact, 16real)
            &&& 0real <= exact <= 1000000000000000000000000000000000000000000real
        }),
{
    let (v, rm, rs, rn) = (a.value(), m as real, s as real, n as real);
    let big = 18446744073709551616real;
    assert(1real <= rm <= big && 1real <= rs <= big && 1real <= rn <= big);
    loss::lemma_size_near(m);
    loss::lemma_size_near(s);
    loss::lemma_size_near(n);
    avoidance::lemma_near_itself(v);
    lemma_times_bounds(v, rm, 2real, big);
    let x = a.product(Binary64::of(m as nat));
    loss::lemma_product_near(a, v, 1real, Binary64::of(m as nat), rm, 1real);
    let p = v * rm;
    lemma_times_bounds(p, rs, 2real * big, big);
    let y = x.product(Binary64::of(s as nat));
    loss::lemma_product_near(x, p, 6real, Binary64::of(s as nat), rs, 1real);
    let (q, w) = (p * rs, Binary64::of(n as nat));
    value::lemma_near_bounds(y.value(), q, 11real);
    value::lemma_near_reciprocal(w.value(), rn, 1real);
    value::lemma_near_bounds(w.value(), rn, 1real);
    lemma_share_bounds(q, rn);
    lemma_reciprocal(q, rn);
    lemma_reciprocal(y.value(), w.value());
    lemma_positive_reciprocal_of(rn);
    value::lemma_near_product(y.value(), q, 11real, 1real / w.value(), 1real / rn, 2real);
    let e = y.value() / w.value();
    value::lemma_near_bounds(e, q / rn, 14real);
    value::lemma_quotient_near(y, w);
    value::lemma_near_chain(y.quotient(w).value(), e, q / rn, 1real, 14real);
}

pub proof fn lemma_positive_reciprocal_of(n: real)
    requires
        n > 0real,
    ensures
        1real / n >= 0real,
{
    assert(1real / n >= 0real) by (nonlinear_arith)
        requires
            n > 0real,
    ;
}

proof fn lemma_factor_out(v: real, m: real, s: real, n: real)
    requires
        n >= 1real,
        m >= 0real,
        s >= 0real,
    ensures
        v * m * s / n == (m * s / n) * v,
        m * s / n >= 0real,
{
    let (p, c) = (m * s, m * s / n);
    assert(v * m * s == p * v) by (nonlinear_arith)
        requires
            p == m * s,
    ;
    assert(c * n == p) by (nonlinear_arith)
        requires
            c == p / n,
            n >= 1real,
    ;
    let (x, y) = (p * v / n, c * v);
    assert(x * n == p * v) by (nonlinear_arith)
        requires
            x == p * v / n,
            n >= 1real,
    ;
    assert(y * n == (c * n) * v) by (nonlinear_arith)
        requires
            y == c * v,
    ;
    assert(x == y) by (nonlinear_arith)
        requires
            x * n == y * n,
            n >= 1real,
    ;
    assert(p >= 0real) by (nonlinear_arith)
        requires
            p == m * s,
            m >= 0real,
            s >= 0real,
    ;
    assert(c >= 0real) by (nonlinear_arith)
        requires
            c * n == p,
            p >= 0real,
            n >= 1real,
    ;
}

/// With each acknowledgement in congestion avoidance the Reno-friendly window gains the counted
/// bytes' share of a minimal window, `min_cwnd * counted / cwnd`; nine seventeenths of that as
/// long as it is below the window of the last congestion event.
pub proof fn law_friendly_window(
    c: Cubic,
    start: Instant,
    now: Instant,
    len: usize,
    in_flight: usize,
    rtt: RttEstimator,
)
    requires
        is_avoiding(c, start),
        start.micros <= now.micros,
        c.cwnd > 0,
        c.min_cwnd > 0,
        c.cwnd_prior < 0x20_0000_0000_0000 || c.w_est.value() * 9007199254740992real
            >= c.cwnd_prior as real * 9007199254740993real || c.w_est.value()
            * 9007199254740992real < c.cwnd_prior as real * 9007199254740991real,
        c.w_est is Finite && c.w_est.wf() && !c.w_est.sign(),
        1real <= c.w_est.value() <= 1000000000000000000000000000000real,
    ensures
        ({
            let w = c.acked(now, len, in_flight, rtt).w_est;
            let share = c.min_cwnd as real * counted(c, len) as real / c.cwnd as real;
            let factor = if c.w_est.value() >= c.cwnd_prior as real {
                1real
            } else {
                9real / 17real
            };
            let exact = c.w_est.value() + share * factor;
            &&& w is Finite && w.wf() && !w.sign()
            &&& len == 0 ==> w == c.w_est
            &&& exact * (9007199254740992real - 48real) <= w.value() * 9007199254740992real
            &&& w.value() * 9007199254740992real <= exact * (9007199254740992real + 48real)
        }),
{
    let w = c.acked(now, len, in_flight, rtt).w_est;
    let s: usize = counted(c, len) as usize;
    let (m, n, e) = (c.min_cwnd, c.cwnd, c.w_est.value());
    let prior = Binary64::of(c.cwnd_prior as nat);
    super::events::lemma_size(c.cwnd_prior);
    assert(c.cwnd_prior as real >= 0real);
    value::lemma_less_value(c.w_est, prior);
    value::lemma_integer_value(1);
    lemma_alpha_value();
    let a = if prior.at_most(c.w_est) {
        Binary64::of(1)
    } else {
        cubic::alpha()
    };
    let factor = if e >= c.cwnd_prior as real {
        1real
    } else {
        9real / 17real
    };
    assert(value::near(a.value(), factor, 24real)) by {
        avoidance::lemma_near_itself(1real);
        loss::lemma_near_widens(1real, 1real, 1real, 24real);
    }
    value::lemma_near_bounds(a.value(), factor, 24real);
    let gain = a.product(Binary64::of(m as nat)).product(Binary64::of(s as nat)).quotient(
        Binary64::of(n as nat),
    );
    assert(w == c.w_est.sum(gain));
    let (rm, rs, rn) = (m as real, s as real, n as real);
    let share = rm * rs / rn;
    lemma_factor_out(a.value(), rm, rs, rn);
    avoidance::lemma_near_itself(e);
    if s == 0 {
        lemma_no_gain(a, m, n);
        accuracy::law_sum_with_zero(c.w_est);
        accuracy::law_sum_commutes(c.w_est, gain);
        assert(share * factor == 0real) by {
            lemma_zero_share(rm, rn, factor);
        }
        loss::lemma_near_widens(e, e, 1real, 48real);
        assert(value::near(w.value(), e + share * factor, 48real));
        reveal(value::near);
    } else {
        lemma_gain(a, m, s, n);
        value::lemma_near_scaled(a.value(), factor, 24real, share);
        let (x, y) = (share * a.value(), share * factor);
        lemma_nonneg_product(share, factor);
        value::lemma_near_chain(gain.value(), x, y, 16real, 24real);
        loss::lemma_near_widens(e, e, 1real, 41real);
        formulas::lemma_near_sum(e, e, gain.value(), y, 41real);
        value::lemma_value(gain);
        value::lemma_near_bounds(gain.value(), x, 16real);
        value::lemma_sum_value(c.w_est, gain);
        reveal(value::near);
        reveal(value::is_rounding);
    }
}

proof fn lemma_nonneg_product(p: real, q: real)
    requires
        p >= 0real,
        q >= 0real,
    ensures
        p * q >= 0real,
{
    assert(p * q >= 0real) by (nonlinear_arith)
        requires
            p >= 0real,
            q >= 0real,
    ;
}

proof fn lemma_zero_share(m: real, n: real, f: real)
    requires
        n >= 1real,
    ensures
        (m * 0real / n) * f == 0real,
{
    assert(m * 0real == 0real);
    assert(0real / n == 0real) by (nonlinear_arith)
        requires
            n >= 1real,
    ;
    assert(0real * f == 0real);
}

/// Nothing acknowledged, nothing gained.
proof fn lemma_no_gain(a: Binary64, m: usize, n: usize)
    requires
        a.is_magnitude(),
        1real / 2real <= a.value() <= 2real,
        m >= 1,
        n >= 1,
    ensures
        a.product(Binary64::of(m as nat)).product(Binary64::of(0)).quotient(Binary64::of(n as nat))
            == Binary64::zero(false),
{
    let (v, rm, big) = (a.value(), m as real, 18446744073709551616real);
    loss::lemma_size_near(m);
    loss::lemma_size_near(n);
    avoidance::lemma_near_itself(v);
    assert(1real <= rm <= big);
    lemma_times_bounds(v, rm, 2real, big);
    loss::lemma_product_near(a, v, 1real, Binary64::of(m as nat), rm, 1real);
    let x = a.product(Binary64::of(m as nat));
    accuracy::lemma_rounded_zero(false, 1);
    accuracy::law_product_with_zero(x, false);
    let w = Binary64::of(n as nat);
    value::lemma_value(w);
    let (z, d) = (w.value(), w.den() as real);
    assert(z * d > 0real) by (nonlinear_arith)
        requires
            z >= 1real,
            d > 0real,
    ;
    assert(!w.is_zero()) by {
        assert(0 * crate::dyadic::up(w->exponent as int) == 0);
    }
    super::cubic::lemma_quotient_of_zero(Binary64::zero(false), w);
}

} // verus!
