//! How far a loss takes the window of a CUBIC controller down.

use vstd::prelude::*;
use crate::binary64::{value, Binary64};
use crate::cubic;
use crate::cubic::Cubic;
use crate::time::Instant;
use super::events;

verus! {

/// The constants, up to rounding: 0.7, 0.4 and 1.5.
pub proof fn lemma_constant_values()
    ensures
        cubic::beta().is_magnitude(),
        value::near(cubic::beta().value(), 7real / 10real, 2real),
        cubic::curvature().is_magnitude(),
        value::near(cubic::curvature().value(), 4real / 10real, 2real),
        cubic::target_limit().is_magnitude(),
        value::near(cubic::target_limit().value(), 15real / 10real, 2real),
{
    lemma_decimal(7, 10);
    lemma_decimal(4, 10);
    lemma_decimal(15, 10);
}

proof fn lemma_decimal(n: nat, d: nat)
    requires
        0 < d <= 10,
        0 < n <= 100,
    ensures
        Binary64::rounded(false, n, d).is_magnitude(),
        value::near(Binary64::rounded(false, n, d).value(), n as real / d as real, 2real),
{
    value::lemma_summit();
    assert(n <= d * vstd::arithmetic::power2::pow2(300)) by (nonlinear_arith)
        requires
            d >= 1,
            n <= 100,
            vstd::arithmetic::power2::pow2(300) >= 100,
    ;
    value::lemma_rounded_value(false, n, d);
    reveal(value::ratio);
    let (x, y, q) = (n as real, d as real, n as real / d as real);
    assert(2048real * q >= 1real) by (nonlinear_arith)
        requires
            q == x / y,
            x >= 1real,
            0real < y <= 10real,
    ;
    value::lemma_rounding_is_near(Binary64::rounded(false, n, d).value(), q);
}

/// A size is near its number.
pub proof fn lemma_size_near(n: usize)
    ensures
        Binary64::of(n as nat).is_magnitude(),
        value::near(Binary64::of(n as nat).value(), n as real, 1real),
        0real <= Binary64::of(n as nat).value() <= 36893488147419103232real,
        n >= 1 ==> Binary64::of(n as nat).value() >= 1real,
{
    events::lemma_size(n);
    super::cubic::lemma_size_is_finite(n);
    reveal(value::near);
}

/// The product of two numbers that are near others, neither of them small.
pub proof fn lemma_product_near(a: Binary64, p: real, j: real, b: Binary64, q: real, k: real)
    requires
        a.is_magnitude(),
        b.is_magnitude(),
        value::near(a.value(), p, j),
        value::near(b.value(), q, k),
        p >= 0real,
        q >= 0real,
        2000real * (p * q) >= 1real,
        p * q <= value::top() * value::top(),
        0real <= j <= 14real,
        0real <= k <= 14real,
    ensures
        a.product(b).is_magnitude(),
        value::near(a.product(b).value(), p * q, j + k + 4real),
{
    let (x, y) = (a.value(), b.value());
    value::lemma_near_product(x, p, j, y, q, k);
    value::lemma_near_bounds(x * y, p * q, j + k + 1real);
    value::lemma_value(a);
    value::lemma_value(b);
    value::lemma_product_value(a, b);
    value::lemma_rounding_is_near(a.product(b).value(), x * y);
    value::lemma_near_chain(a.product(b).value(), x * y, p * q, 2real, j + k + 1real);
}

/// The integer part of something near a share of a size, within one of that share.
proof fn lemma_share(r: Binary64, n: usize, up: nat, down: nat)
    requires
        r.is_magnitude(),
        0 < up < down <= 20,
        value::near(r.value(), n as real * (up as real / down as real), 16real),
    ensures
        ({
            let t = r.truncated();
            let l = 0x20_0000_0000_0000int;
            &&& down * t * l <= up * n * (l + 16)
            &&& down * (t + 1) * l >= up * n * (l - 16)
            &&& t <= n
            &&& n > 0 ==> t < n
            &&& n < 0x1000_0000_0000 ==> down * t <= up * n <= down * (t + 1)
        }),
{
    reveal(value::near);
    value::lemma_truncated_value(r);
    let (x, m, l) = (r.value(), n as real, value::limit());
    let (u, d, t) = (up as real, down as real, r.truncated() as real);
    let q = u / d;
    let un = up * n;
    let dt = down * r.truncated();
    assert(q * d == u) by (nonlinear_arith)
        requires
            q == u / d,
            d > 0real,
    ;
    assert(un as real == u * m && dt as real == d * t) by (nonlinear_arith)
        requires
            un == up * n,
            dt == down * r.truncated(),
            u == up as real,
            d == down as real,
            m == n as real,
            t == r.truncated() as real,
    ;
    let (run, rdt) = (un as real, dt as real);
    assert(d * x * l <= run * (l + 16real) && run * (l - 16real) <= d * x * l) by (nonlinear_arith)
        requires
            l == 9007199254740992real,
            run == u * m,
            q * d == u,
            d > 0real,
            m * q * (l - 16real) <= x * l,
            x * l <= m * q * (l + 16real),
    {
        assert(d * (m * q * (l - 16real)) <= d * (x * l));
        assert(d * (x * l) <= d * (m * q * (l + 16real)));
        assert(d * (m * q) == u * m);
    }
    assert(rdt * l <= run * (l + 16real)) by (nonlinear_arith)
        requires
            l == 9007199254740992real,
            rdt == d * t,
            t <= x,
            d > 0real,
            d * x * l <= run * (l + 16real),
    {
        assert(d * t <= d * x);
    }
    assert(dt * 9007199254740992 <= un * 9007199254741008) by (nonlinear_arith)
        requires
            rdt == dt as real,
            run == un as real,
            l == 9007199254740992real,
            rdt * l <= run * (l + 16real),
    ;
    assert(dt * 0x20_0000_0000_0000int == down * r.truncated() * 0x20_0000_0000_0000int);
    let tn = r.truncated() as int;
    let (i, j) = (down as int, up as int);
    assert(n > 0 ==> tn < n) by (nonlinear_arith)
        requires
            i * tn * 9007199254740992 <= j * n * 9007199254741008,
            0 < j < i,
            i <= 20,
            n >= 0,
            tn >= 0,
    {
        if n > 0 && tn >= n {
            assert(i * tn >= i * n);
            assert(i * n >= (j + 1) * n);
            assert((j + 1) * n == j * n + n);
            assert(j * n <= 20 * n);
        }
    }
    assert(n == 0 ==> tn == 0) by (nonlinear_arith)
        requires
            i * tn * 9007199254740992 <= j * n * 9007199254741008,
            0 < j < i,
            tn >= 0,
    ;
    assert(x < t + 1real);
    let dt1 = down * (r.truncated() + 1);
    assert(dt1 == dt + down) by (nonlinear_arith)
        requires
            dt1 == down * (r.truncated() + 1),
            dt == down * r.truncated(),
    ;
    let rdt1 = dt1 as real;
    assert(rdt1 == rdt + d);
    assert(rdt1 * l >= run * (l - 16real)) by (nonlinear_arith)
        requires
            l == 9007199254740992real,
            rdt1 == d * t + d,
            x < t + 1real,
            d > 0real,
            run * (l - 16real) <= d * x * l,
    {
        assert(d * x <= d * (t + 1real));
    }
    assert(dt1 * 9007199254740992 >= un * 9007199254740976) by (nonlinear_arith)
        requires
            rdt1 == dt1 as real,
            run == un as real,
            l == 9007199254740992real,
            rdt1 * l >= run * (l - 16real),
    ;
    assert(n < 0x1000_0000_0000 ==> un < 20 * 0x1000_0000_0000) by (nonlinear_arith)
        requires
            un == up * n,
            up < 20,
    ;
}

/// The threshold after the first loss of a recovery is seven tenths of what was in flight, to
/// within one byte, or two minimal windows where that is more. So wherever more than two minimal
/// windows were in flight, it is below what was.
pub proof fn law_loss_decreases_to_seven_tenths(c: Cubic, now: Instant, in_flight: usize)
    requires
        !c.in_fast_recovery,
        2 * c.min_cwnd <= usize::MAX,
    ensures
        ({
            let s = c.lost(now, in_flight).ssthresh;
            let l = 0x20_0000_0000_0000int;
            &&& s >= 2 * c.min_cwnd
            &&& s > 2 * c.min_cwnd ==> 10 * s * l <= 7 * in_flight * (l + 16)
            &&& 10 * (s + 1) * l >= 7 * in_flight * (l - 16)
            &&& in_flight > 2 * c.min_cwnd ==> s < in_flight
            &&& in_flight < 0x1000_0000_0000 ==> 7 * in_flight <= 10 * (s + 1)
            &&& in_flight < 0x1000_0000_0000 && s > 2 * c.min_cwnd ==> 10 * s <= 7 * in_flight
        }),
{
    let n = in_flight;
    let b = cubic::beta();
    let x = Binary64::of(n as nat);
    lemma_constant_values();
    lemma_size_near(n);
    let r = x.product(b);
    if n == 0 {
        events::lemma_size(0);
        value::lemma_zero_value(false);
        super::cubic::lemma_scaled_zero(b);
    } else {
        let (p, q) = (n as real, 7real / 10real);
        assert(2000real * (p * q) >= 1real && p * q <= value::top() * value::top())
            by (nonlinear_arith)
            requires
                q == 7real / 10real,
                1real <= p <= 18446744073709551616real,
                value::top() == 1267650600228229401496703205376real,
        ;
        lemma_product_near(x, p, 1real, b, q, 2real);
        lemma_near_widens(r.value(), p * q, 7real, 16real);
        lemma_share(r, n, 7, 10);
    }
}

pub proof fn lemma_near_widens(x: real, y: real, j: real, k: real)
    requires
        value::near(x, y, j),
        y >= 0real,
        j <= k,
    ensures
        value::near(x, y, k),
{
    reveal(value::near);
    let l = value::limit();
    assert(y * (l - k) <= y * (l - j) && y * (l + j) <= y * (l + k)) by (nonlinear_arith)
        requires
            y >= 0real,
            j <= k,
    ;
}

/// 1.7, up to rounding.
pub proof fn lemma_one_plus_beta_value()
    ensures
        cubic::one_plus_beta().is_magnitude(),
        value::near(cubic::one_plus_beta().value(), 17real / 10real, 6real),
{
    let (one, b) = (Binary64::of(1), cubic::beta());
    lemma_constant_values();
    value::lemma_integer_value(1);
    value::lemma_near_bounds(b.value(), 7real / 10real, 2real);
    value::lemma_sum_value(one, b);
    let (x, y) = (cubic::one_plus_beta().value(), 1real + b.value());
    value::lemma_rounding_is_near(x, y);
    assert(value::near(y, 17real / 10real, 2real)) by {
        reveal(value::near);
    }
    value::lemma_near_chain(x, y, 17real / 10real, 2real, 2real);
    lemma_near_widens(x, 17real / 10real, 5real, 6real);
}

/// Fast convergence: where the window fell short of the plateau, the next plateau is 17
/// twentieths of the window, to within one byte.
pub proof fn law_loss_lowers_plateau(c: Cubic, now: Instant, in_flight: usize)
    requires
        !c.in_fast_recovery,
        c.cwnd < c.w_max,
    ensures
        ({
            let w = c.lost(now, in_flight).w_max;
            let l = 0x20_0000_0000_0000int;
            &&& 20 * w * l <= 17 * c.cwnd * (l + 16)
            &&& 20 * (w + 1) * l >= 17 * c.cwnd * (l - 16)
            &&& c.cwnd > 0 ==> w < c.cwnd
            &&& c.cwnd < 0x1000_0000_0000 ==> 20 * w <= 17 * c.cwnd <= 20 * (w + 1)
        }),
{
    let n = c.cwnd;
    let x = Binary64::of(n as nat);
    let (f, two) = (cubic::one_plus_beta(), Binary64::of(2));
    lemma_one_plus_beta_value();
    value::lemma_integer_value(2);
    lemma_size_near(n);
    if n == 0 {
        super::cubic::law_plateau_is_at_most_the_window(c);
    } else {
        let (p, q) = (n as real, 17real / 10real);
        let pq = p * q;
        assert(1000real * pq >= 1000real && pq <= value::top()) by (nonlinear_arith)
            requires
                pq == p * q,
                q == 17real / 10real,
                1real <= p <= 18446744073709551616real,
                value::top() == 1267650600228229401496703205376real,
        ;
        let y = x.product(f);
        lemma_product_near(x, p, 1real, f, q, 6real);
        value::lemma_near_bounds(y.value(), pq, 11real);
        let half = y.value() / 2real;
        let z = y.quotient(two);
        value::lemma_quotient_value(y, two);
        value::lemma_rounding_is_near(z.value(), half);
        let c2 = 1real / 2real;
        value::lemma_near_scaled(y.value(), pq, 11real, c2);
        assert(c2 * y.value() == half);
        let part = p * (17real / 20real);
        assert(c2 * pq == part) by (nonlinear_arith)
            requires
                c2 == 1real / 2real,
                pq == p * q,
                q == 17real / 10real,
                part == p * (17real / 20real),
        ;
        value::lemma_near_chain(z.value(), half, part, 2real, 11real);
        lemma_near_widens(z.value(), part, 14real, 16real);
        lemma_share(z, n, 17, 20);
    }
}

} // verus!
