//! The formulas of a CUBIC controller over real numbers.

use vstd::prelude::*;
use crate::binary64::{value, Binary64};
use crate::cubic;
use crate::cubic::Cubic;
use super::loss;

verus! {

/// Sums of numbers that are near others.
pub proof fn lemma_near_sum(x: real, p: real, y: real, q: real, k: real)
    requires
        value::near(x, p, k),
        value::near(y, q, k),
    ensures
        value::near(x + y, p + q, k),
{
    reveal(value::near);
    let l = value::limit();
    assert((p + q) * (l - k) == p * (l - k) + q * (l - k)) by (nonlinear_arith);
    assert((p + q) * (l + k) == p * (l + k) + q * (l + k)) by (nonlinear_arith);
}

/// The scaling constant is 0.4 minimal windows.
pub proof fn lemma_scaling_value(m: usize)
    requires
        m > 0,
    ensures
        cubic::scaling(m).is_magnitude(),
        value::near(cubic::scaling(m).value(), 4real / 10real * (m as real), 7real),
{
    loss::lemma_constant_values();
    loss::lemma_size_near(m);
    let (p, q) = (4real / 10real, m as real);
    assert(1real <= q <= 18446744073709551616real);
    loss::lemma_product_near(cubic::curvature(), p, 2real, Binary64::of(m as nat), q, 1real);
}

/// The cube of a number that is near another, an eighth or more.
proof fn lemma_cube_value(s: Binary64, u: real)
    requires
        s.is_magnitude(),
        value::near(s.value(), u, 2real),
        1real / 8real <= u <= 10000000000000real,
    ensures
        s.product(s.product(s)).is_magnitude(),
        value::near(s.product(s.product(s)).value(), u * (u * u), 14real),
        1real / 512real <= u * (u * u)
            <= 1000000000000000000000000000000000000000real,
{
    let (a, b) = (1real / 8real, 10000000000000real);
    let (w, c) = (u * u, u * (u * u));
    assert(a * a <= w && w <= b * b) by (nonlinear_arith)
        requires
            w == u * u,
            0real <= a <= u,
            u <= b,
    ;
    assert(1real / 64real <= w <= 100000000000000000000000000real);
    assert(1real / 512real <= c && c <= u * 100000000000000000000000000real)
        by (nonlinear_arith)
        requires
            c == u * w,
            1real / 8real <= u,
            1real / 64real <= w,
            w <= 100000000000000000000000000real,
    ;
    loss::lemma_product_near(s, u, 2real, s, u, 2real);
    loss::lemma_product_near(s, u, 2real, s.product(s), w, 8real);
}

/// The cubic term: 0.4 minimal windows times the cube of `u` seconds.
pub open spec fn cubic_term(m: usize, u: real) -> real {
    4real / 10real * (m as real) * (u * (u * u))
}

proof fn lemma_term_bounds(m: usize, u: real)
    requires
        m > 0,
        1real / 8real <= u,
        1real / 512real <= u * (u * u) <= 1000000000000000000000000000000000000000real,
    ensures
        2000real * cubic_term(m, u) >= 1real,
        cubic_term(m, u)
            <= 10000000000000000000000000000000000000000000000000000000000real,
{
    let (g, c) = (4real / 10real * (m as real), u * (u * u));
    assert(4real / 10real <= g <= 10000000000000000000real);
    assert(g * c >= 4real / 10real * (1real / 512real)) by (nonlinear_arith)
        requires
            g >= 4real / 10real,
            c >= 1real / 512real,
    ;
    assert(g * c <= 10000000000000000000real * 1000000000000000000000000000000000000000real)
        by (nonlinear_arith)
        requires
            0real <= g <= 10000000000000000000real,
            0real <= c <= 1000000000000000000000000000000000000000real,
    ;
}

proof fn lemma_term_value(m: usize, s: Binary64, u: real)
    requires
        m > 0,
        s.is_magnitude(),
        value::near(s.value(), u, 2real),
        1real / 8real <= u <= 10000000000000real,
    ensures
        ({
            let t = cubic::scaling(m).product(s.product(s.product(s)));
            &&& t.is_magnitude()
            &&& value::near(t.value(), cubic_term(m, u), 25real)
            &&& 2000real * cubic_term(m, u) >= 1real
            &&& cubic_term(m, u)
                <= 10000000000000000000000000000000000000000000000000000000000real
        }),
{
    lemma_scaling_value(m);
    lemma_cube_value(s, u);
    lemma_term_bounds(m, u);
    let (g, c) = (4real / 10real * (m as real), u * (u * u));
    loss::lemma_product_near(
        cubic::scaling(m),
        g,
        7real,
        s.product(s.product(s)),
        c,
        14real,
    );
}

/// After its offset the curve is `w_max` and the cubic term of the time since, up to rounding.
pub proof fn law_curve_is_cubic_after_the_offset(c: Cubic, seconds: Binary64)
    requires
        c.min_cwnd > 0,
        c.k is Finite && c.k.wf() && !c.k.sign(),
        seconds is Finite && seconds.wf() && !seconds.sign(),
        seconds.value() - c.k.value() >= 1real / 8real,
        seconds.value() <= 10000000000000real,
    ensures
        ({
            let r = c.curve(seconds);
            let exact = cubic_term(c.min_cwnd, seconds.value() - c.k.value()) + c.w_max as real;
            &&& r is Finite && r.wf() && !r.sign()
            &&& exact * (9007199254740992real - 28real) <= r.value() * 9007199254740992real
            &&& r.value() * 9007199254740992real <= exact * (9007199254740992real + 28real)
        }),
{
    let (s, u) = (seconds.difference(c.k), seconds.value() - c.k.value());
    value::lemma_value(c.k);
    value::lemma_value(seconds);
    value::lemma_difference_value(seconds, c.k);
    value::lemma_rounding_is_near(s.value(), u);
    value::lemma_near_bounds(s.value(), u, 2real);
    value::lemma_value(s);
    lemma_positive_sign(s);
    lemma_term_value(c.min_cwnd, s, u);
    let t = cubic::scaling(c.min_cwnd).product(s.product(s.product(s)));
    let w = Binary64::of(c.w_max as nat);
    let (p, q) = (cubic_term(c.min_cwnd, u), c.w_max as real);
    loss::lemma_size_near(c.w_max);
    loss::lemma_near_widens(w.value(), q, 1real, 25real);
    lemma_near_sum(t.value(), p, w.value(), q, 25real);
    value::lemma_near_bounds(t.value() + w.value(), p + q, 25real);
    value::lemma_value(t);
    value::lemma_value(w);
    value::lemma_sum_value(t, w);
    let r = t.sum(w);
    value::lemma_rounding_is_near(r.value(), t.value() + w.value());
    value::lemma_near_chain(r.value(), t.value() + w.value(), p + q, 2real, 25real);
    reveal(value::near);
}

/// A number above 0 has no sign.
pub proof fn lemma_positive_sign(s: Binary64)
    requires
        s is Finite,
        s.value() > 0real,
    ensures
        !s.sign(),
{
    value::lemma_value(s);
    value::lemma_ratio(s.num(), s.den());
}

/// The sign of a factor is the sign of the product.
proof fn lemma_negated_factor(a: Binary64, b: Binary64)
    requires
        a is Finite,
        b is Finite,
    ensures
        a.product(b.negated()) == a.product(b).negated(),
        b.negated().product(a) == b.product(a).negated(),
        a.negated().product(a.negated()) == a.product(a),
{
}

proof fn lemma_negative_sign(s: Binary64)
    requires
        s is Finite,
        s.value() < 0real,
    ensures
        s.sign(),
        s.negated().value() == -s.value(),
{
    value::lemma_value(s);
    value::lemma_ratio(s.num(), s.den());
}

/// Before its offset the curve is `w_max` less the cubic term of the time left, up to rounding.
pub proof fn law_curve_is_cubic_before_the_offset(c: Cubic, seconds: Binary64)
    requires
        c.min_cwnd > 0,
        c.k is Finite && c.k.wf() && !c.k.sign(),
        seconds is Finite && seconds.wf() && !seconds.sign(),
        c.k.value() - seconds.value() >= 1real / 8real,
        c.k.value() <= 10000000000000real,
    ensures
        ({
            let r = c.curve(seconds);
            let term = cubic_term(c.min_cwnd, c.k.value() - seconds.value());
            let w = c.w_max as real;
            let slack = 30real * (w + term + 1real);
            &&& r is Finite
            &&& (r.value() - (w - term)) * 9007199254740992real <= slack
            &&& ((w - term) - r.value()) * 9007199254740992real <= slack
        }),
{
    let (s, u) = (seconds.difference(c.k), c.k.value() - seconds.value());
    value::lemma_value(c.k);
    value::lemma_value(seconds);
    value::lemma_difference_value(seconds, c.k);
    let n = s.negated();
    reveal(value::is_rounding);
    assert(value::is_rounding(-s.value(), u));
    value::lemma_rounding_is_near(-s.value(), u);
    value::lemma_near_bounds(-s.value(), u, 2real);
    lemma_negative_sign(s);
    lemma_term_value(c.min_cwnd, n, u);
    let g = cubic::scaling(c.min_cwnd);
    let t = g.product(n.product(n.product(n)));
    lemma_scaling_value(c.min_cwnd);
    lemma_cube_value(n, u);
    lemma_negated_factor(n, n);
    assert(n.negated() == s);
    assert(s.product(s) == n.product(n));
    let sq = n.product(n);
    lemma_square_is_finite(n, u);
    lemma_negated_factor(sq, n);
    lemma_negated_factor(g, n.product(sq));
    assert(g.product(s.product(s.product(s))) == t.negated());
    let w = Binary64::of(c.w_max as nat);
    let (p, q) = (cubic_term(c.min_cwnd, u), c.w_max as real);
    loss::lemma_size_near(c.w_max);
    value::lemma_near_bounds(t.value(), p, 25real);
    value::lemma_value(t);
    value::lemma_value(w);
    assert(t.negated().value() == -t.value());
    value::lemma_sum_value(t.negated(), w);
    reveal(value::near);
}

proof fn lemma_square_is_finite(s: Binary64, u: real)
    requires
        s.is_magnitude(),
        value::near(s.value(), u, 2real),
        1real / 8real <= u <= 10000000000000real,
    ensures
        s.product(s) is Finite,
{
    let v = s.value();
    value::lemma_near_bounds(v, u, 2real);
    assert(0real <= v * v <= 1000000000000000000000000000000real) by (nonlinear_arith)
        requires
            0real <= v <= 1000000000000000real,
    ;
    value::lemma_product_value(s, s);
}

proof fn lemma_absolute_product(v: real, w: real, a: real, b: real)
    requires
        value::absolute(v) <= a,
        value::absolute(w) <= b,
    ensures
        value::absolute(v * w) <= a * b,
{
    let (p, q) = (value::absolute(v), value::absolute(w));
    assert(p * q <= a * q) by (nonlinear_arith)
        requires
            p <= a,
            q >= 0real,
    ;
    assert(a * q <= a * b) by (nonlinear_arith)
        requires
            q <= b,
            a >= 0real,
    ;
    assert(p * q >= 0real) by (nonlinear_arith)
        requires
            p >= 0real,
            q >= 0real,
    ;
    if v < 0real && w < 0real {
        assert((-v) * (-w) == v * w) by (nonlinear_arith);
    } else if v < 0real {
        assert((-v) * w == -(v * w)) by (nonlinear_arith);
    } else if w < 0real {
        assert(v * (-w) == -(v * w)) by (nonlinear_arith);
    }
}

proof fn lemma_small_product(x: Binary64, a: real, y: Binary64, b: real)
    requires
        x is Finite,
        y is Finite,
        value::absolute(x.value()) <= a,
        value::absolute(y.value()) <= b,
        1real / 1000real <= a * b <= 100000000000000000000real,
    ensures
        x.product(y) is Finite,
        value::absolute(x.product(y).value()) * 1000real <= a * b * 1001real,
{
    let (v, w) = (x.value(), y.value());
    lemma_absolute_product(v, w, a, b);
    value::lemma_product_value(x, y);
    reveal(value::is_rounding);
}

/// Within an eighth of a second of its offset the curve is within a thousandth of a minimal
/// window of its plateau, up to rounding.
pub proof fn law_curve_is_flat_at_the_offset(c: Cubic, seconds: Binary64)
    requires
        c.min_cwnd > 0,
        c.k is Finite && c.k.wf() && !c.k.sign(),
        seconds is Finite && seconds.wf() && !seconds.sign(),
        -(1real / 8real) <= seconds.value() - c.k.value() <= 1real / 8real,
    ensures
        ({
            let r = c.curve(seconds);
            let (w, m) = (c.w_max as real, c.min_cwnd as real);
            let slack = 2real * w + m + 1real;
            &&& r is Finite
            &&& (r.value() - w - m / 1000real) * 9007199254740992real <= slack
            &&& (w - r.value() - m / 1000real) * 9007199254740992real <= slack
        }),
{
    let (s, u) = (seconds.difference(c.k), seconds.value() - c.k.value());
    value::lemma_difference_value(seconds, c.k);
    let m = c.min_cwnd as real;
    let h = 1251real / 10000real;
    assert(value::absolute(s.value()) <= h) by {
        reveal(value::is_rounding);
    }
    lemma_small_product(s, h, s, h);
    let h2 = 157real / 10000real;
    lemma_small_product(s, h, s.product(s), h2);
    let h3 = 197real / 100000real;
    let g = cubic::scaling(c.min_cwnd);
    lemma_scaling_value(c.min_cwnd);
    value::lemma_value(g);
    value::lemma_near_bounds(g.value(), 4real / 10real * m, 7real);
    let cube = s.product(s.product(s));
    let gm = 401real / 1000real * m;
    lemma_flat_term(g, gm, cube, h3);
    let t = g.product(cube);
    let w = Binary64::of(c.w_max as nat);
    loss::lemma_size_near(c.w_max);
    value::lemma_sum_value(t, w);
    reveal(value::near);
    reveal(value::is_rounding);
}

proof fn lemma_flat_term(g: Binary64, a: real, cube: Binary64, b: real)
    requires
        g is Finite,
        cube is Finite,
        value::absolute(g.value()) <= a,
        value::absolute(cube.value()) <= b,
        401real / 1000real <= a <= 10000000000000000000real,
        b == 197real / 100000real,
    ensures
        g.product(cube) is Finite,
        value::absolute(g.product(cube).value()) <= a / 1000real * 24real / 10real,
{
    let (v, w) = (g.value(), cube.value());
    lemma_absolute_product(v, w, a, b);
    assert(a * b == a * (197real / 100000real));
    value::lemma_product_value(g, cube);
    reveal(value::is_rounding);
}

} // verus!
