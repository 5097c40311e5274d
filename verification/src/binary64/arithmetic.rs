//! The four operations, each the exact rational result rounded once.

use vstd::prelude::*;
use vstd::arithmetic::div_mod::*;
use vstd::arithmetic::mul::*;
use vstd::arithmetic::power2::*;
use crate::dyadic;
use super::rounding;
use super::{Binary64, LIMIT, MIN_EXPONENT, NORMAL};

verus! {

impl Binary64 {
    /// The number closest to `n`.
    pub fn from_u64(n: u64) -> (r: Binary64)
        ensures
            r == Binary64::of(n as nat),
            r.wf(),
    {
        proof {
            lemma2_to64();
            lemma2_to64_rest();
            lemma_pow2_strictly_increases(64, 120);
        }
        Self::round(false, n as u128, false, 0, Ghost(n as nat), Ghost(1), Ghost(0))
    }

    pub fn neg(self) -> (r: Binary64)
        ensures
            r == self.negated(),
            self.wf() ==> r.wf(),
    {
        match self {
            Binary64::Nan => Binary64::Nan,
            Binary64::Infinity { negative } => Binary64::Infinity { negative: !negative },
            Binary64::Finite { negative, significand, exponent } => Binary64::Finite {
                negative: !negative,
                significand,
                exponent,
            },
        }
    }

    pub fn mul(self, other: Binary64) -> (r: Binary64)
        requires
            self.wf(),
            other.wf(),
        ensures
            r == self.product(other),
            r.wf(),
    {
        match (self, other) {
            (Binary64::Nan, _) => Binary64::Nan,
            (_, Binary64::Nan) => Binary64::Nan,
            (Binary64::Infinity { negative: n1 }, Binary64::Infinity { negative: n2 }) => {
                Binary64::Infinity { negative: n1 != n2 }
            },
            (
                Binary64::Infinity { negative: n1 },
                Binary64::Finite { negative: n2, significand, .. },
            ) => {
                if significand == 0 {
                    Binary64::Nan
                } else {
                    Binary64::Infinity { negative: n1 != n2 }
                }
            },
            (
                Binary64::Finite { negative: n1, significand, .. },
                Binary64::Infinity { negative: n2 },
            ) => {
                if significand == 0 {
                    Binary64::Nan
                } else {
                    Binary64::Infinity { negative: n1 != n2 }
                }
            },
            (
                Binary64::Finite { negative: n1, significand: m1, exponent: e1 },
                Binary64::Finite { negative: n2, significand: m2, exponent: e2 },
            ) => {
                let ghost num = self.num() * other.num();
                let ghost den = self.den() * other.den();
                proof {
                    lemma_product_split(m1 as nat, e1 as int, m2 as nat, e2 as int);
                    lemma_wide_product(m1, m2);
                }
                Self::round(
                    n1 != n2,
                    m1 as u128 * m2 as u128,
                    false,
                    e1 + e2,
                    Ghost(num),
                    Ghost(den),
                    Ghost(0),
                )
            },
        }
    }

    pub fn div(self, other: Binary64) -> (r: Binary64)
        requires
            self.wf(),
            other.wf(),
        ensures
            r == self.quotient(other),
            r.wf(),
    {
        match (self, other) {
            (Binary64::Nan, _) => Binary64::Nan,
            (_, Binary64::Nan) => Binary64::Nan,
            (Binary64::Infinity { .. }, Binary64::Infinity { .. }) => Binary64::Nan,
            (Binary64::Infinity { negative: n1 }, Binary64::Finite { negative: n2, .. }) => {
                Binary64::Infinity { negative: n1 != n2 }
            },
            (Binary64::Finite { negative: n1, .. }, Binary64::Infinity { negative: n2 }) => {
                Binary64::Finite {
                    negative: n1 != n2,
                    significand: 0,
                    exponent: MIN_EXPONENT,
                }
            },
            (
                Binary64::Finite { negative: n1, significand: m1, exponent: e1 },
                Binary64::Finite { negative: n2, significand: m2, exponent: e2 },
            ) => {
                if m2 == 0 {
                    if m1 == 0 {
                        Binary64::Nan
                    } else {
                        Binary64::Infinity { negative: n1 != n2 }
                    }
                } else {
                    Self::div_finite(n1 != n2, m1, e1, m2, e2)
                }
            },
        }
    }

    fn div_finite(negative: bool, m1: u64, e1: i32, m2: u64, e2: i32) -> (r: Binary64)
        requires
            m1 < LIMIT,
            0 < m2 < LIMIT,
            -2000 <= e1 <= 2000,
            -2000 <= e2 <= 2000,
        ensures
            r == Binary64::rounded(
                negative,
                m1 as nat * dyadic::up(e1 as int) * dyadic::down(e2 as int),
                dyadic::down(e1 as int) * (m2 as nat * dyadic::up(e2 as int)),
            ),
            r.wf(),
    {
        let ghost num = m1 as nat * dyadic::up(e1 as int) * dyadic::down(e2 as int);
        let ghost den = dyadic::down(e1 as int) * (m2 as nat * dyadic::up(e2 as int));
        proof {
            lemma2_to64();
            lemma2_to64_rest();
            lemma_pow2_strictly_increases(0, 120);
        }
        if m1 == 0 {
            proof {
                lemma_quotient_split(0, e1 as int, m2 as nat, e2 as int, 0, 0, 0);
            }
            return Self::round(negative, 0, false, e1 - e2, Ghost(num), Ghost(den), Ghost(0));
        }
        let mut m: u64 = m1;
        let mut shift: u32 = 0;
        while m < NORMAL
            invariant
                0 < m1 <= m < LIMIT,
                m == m1 * pow2(shift as nat),
                shift <= 52,
            decreases LIMIT - m,
        {
            proof {
                lemma2_to64_rest();
                lemma_pow2_unfold((shift + 1) as nat);
                let p = pow2(shift as nat);
                assert(p <= m) by (nonlinear_arith)
                    requires
                        m == m1 * p,
                        m1 >= 1,
                ;
                if shift >= 52 {
                    rounding::lemma_pow2_ordered(52, shift as nat);
                }
                assert(2 * m == m1 * (2 * p)) by (nonlinear_arith)
                    requires
                        m == m1 * p,
                ;
            }
            m = 2 * m;
            shift = shift + 1;
        }
        let wide: u128 = m as u128 * 0x1_0000_0000_0000_0000;
        let q: u128 = wide / m2 as u128;
        let r: u128 = wide % m2 as u128;
        let ghost n = (shift + 64) as nat;
        let ghost y = dyadic::down(e1 as int) * dyadic::up(e2 as int) * dyadic::up(
            e1 - e2 - n,
        );
        proof {
            lemma_pow2_adds(shift as nat, 64);
            assert(m1 * pow2(n) == wide) by (nonlinear_arith)
                requires
                    m == m1 * pow2(shift as nat),
                    wide == m * pow2(64),
                    pow2(n) == pow2(shift as nat) * pow2(64),
            ;
            lemma_fundamental_div_mod(wide as int, m2 as int);
            lemma_quotient_split(
                m1 as nat,
                e1 as int,
                m2 as nat,
                e2 as int,
                n,
                q as nat,
                r as nat,
            );
            lemma_wide_quotient(m, wide, m2, q);
        }
        Self::round(
            negative,
            q,
            r > 0,
            e1 - e2 - shift as i32 - 64,
            Ghost(num),
            Ghost(den),
            Ghost(r as nat * y),
        )
    }

    pub fn add(self, other: Binary64) -> (r: Binary64)
        requires
            self.wf(),
            other.wf(),
        ensures
            r == self.sum(other),
            r.wf(),
    {
        match (self, other) {
            (Binary64::Nan, _) => Binary64::Nan,
            (_, Binary64::Nan) => Binary64::Nan,
            (Binary64::Infinity { negative: n1 }, Binary64::Infinity { negative: n2 }) => {
                if n1 == n2 {
                    self
                } else {
                    Binary64::Nan
                }
            },
            (Binary64::Infinity { .. }, _) => self,
            (_, Binary64::Infinity { .. }) => other,
            (
                Binary64::Finite { negative: n1, significand: m1, exponent: e1 },
                Binary64::Finite { negative: n2, significand: m2, exponent: e2 },
            ) => {
                if e1 >= e2 {
                    Self::add_ordered(n1, m1, e1, n2, m2, e2)
                } else {
                    proof {
                        lemma_mul_is_commutative(self.den() as int, other.den() as int);
                    }
                    Self::add_ordered(n2, m2, e2, n1, m1, e1)
                }
            },
        }
    }

    /// The sum of two finite numbers, the one with the larger exponent first.
    fn add_ordered(n1: bool, m1: u64, e1: i32, n2: bool, m2: u64, e2: i32) -> (r: Binary64)
        requires
            e1 >= e2,
            (Binary64::Finite { negative: n1, significand: m1, exponent: e1 }).wf(),
            (Binary64::Finite { negative: n2, significand: m2, exponent: e2 }).wf(),
        ensures
            r == (Binary64::Finite { negative: n1, significand: m1, exponent: e1 }).sum(
                Binary64::Finite { negative: n2, significand: m2, exponent: e2 },
            ),
            r.wf(),
    {
        let ghost a = Binary64::Finite { negative: n1, significand: m1, exponent: e1 };
        let ghost b = Binary64::Finite { negative: n2, significand: m2, exponent: e2 };
        let ghost n = a.signed_num() * b.den() + b.signed_num() * a.den();
        let ghost d = a.den() * b.den();
        let gap: u32 = (e1 - e2) as u32;
        if gap <= 60 {
            proof {
                lemma_near_sum(n1, m1, e1 as int, n2, m2, e2 as int);
                lemma_wide_shift(m1, gap as nat);
            }
            let big: u128 = m1 as u128 * rounding::power(gap);
            let small: u128 = m2 as u128;
            if n1 == n2 {
                if big == 0 && small == 0 {
                    return Binary64::Finite {
                        negative: n1,
                        significand: 0,
                        exponent: MIN_EXPONENT,
                    };
                }
                Self::round(
                    n1,
                    big + small,
                    false,
                    e2,
                    Ghost(if n1 { (-n) as nat } else { n as nat }),
                    Ghost(d),
                    Ghost(0),
                )
            } else if big == small {
                Binary64::Finite { negative: false, significand: 0, exponent: MIN_EXPONENT }
            } else if big > small {
                Self::round(
                    n1,
                    big - small,
                    false,
                    e2,
                    Ghost(if n1 { (-n) as nat } else { n as nat }),
                    Ghost(d),
                    Ghost(0),
                )
            } else {
                Self::round(
                    n2,
                    small - big,
                    false,
                    e2,
                    Ghost(if n2 { (-n) as nat } else { n as nat }),
                    Ghost(d),
                    Ghost(0),
                )
            }
        } else {
            let ghost w = d * dyadic::up(e1 - 4);
            let ghost small = m2 as nat * dyadic::up(e2 as int) * dyadic::down(e1 as int)
                * dyadic::down(e1 - 4);
            proof {
                lemma_far_sum(n1, m1, e1 as int, n2, m2, e2 as int);
                lemma_wide_shift(m1, 4);
                lemma2_to64();
                lemma2_to64_rest();
            }
            let big: u128 = m1 as u128 * 16;
            if n1 == n2 || m2 == 0 {
                Self::round(
                    n1,
                    big,
                    m2 != 0,
                    e1 - 4,
                    Ghost(if n1 { (-n) as nat } else { n as nat }),
                    Ghost(d),
                    Ghost(small),
                )
            } else {
                Self::round(
                    n1,
                    big - 1,
                    true,
                    e1 - 4,
                    Ghost(if n1 { (-n) as nat } else { n as nat }),
                    Ghost(d),
                    Ghost((w - small) as nat),
                )
            }
        }
    }

    pub fn sub(self, other: Binary64) -> (r: Binary64)
        requires
            self.wf(),
            other.wf(),
        ensures
            r == self.difference(other),
            r.wf(),
    {
        self.add(other.neg())
    }
}

/// `m1 * 2^e1 / (m2 * 2^e2)` in units of `2^(e1 - e2 - n)`.
proof fn lemma_quotient_split(m1: nat, e1: int, m2: nat, e2: int, n: nat, q: nat, r: nat)
    requires
        m2 > 0,
        m1 * pow2(n) == m2 * q + r,
        r < m2,
    ensures
        ({
            let y = dyadic::down(e1) * dyadic::up(e2) * dyadic::up(e1 - e2 - n);
            &&& y > 0
            &&& r * y > 0 <==> r > 0
            &&& rounding::is_split(
                m1 * dyadic::up(e1) * dyadic::down(e2),
                dyadic::down(e1) * (m2 * dyadic::up(e2)),
                q,
                r * y,
                e1 - e2 - n,
            )
        }),
{
    let e = e1 - e2 - n;
    let (u1, d1, u2, d2) = (dyadic::up(e1), dyadic::down(e1), dyadic::up(e2), dyadic::down(e2));
    let (ue, de) = (dyadic::up(e), dyadic::down(e));
    let (s, t) = (dyadic::up(e1 - e2), dyadic::down(e1 - e2));
    let p = pow2(n);
    lemma2_to64();
    dyadic::lemma_up_pos(e1);
    dyadic::lemma_up_pos(e2);
    dyadic::lemma_up_pos(e);
    dyadic::lemma_up_pos(e1 - e2);
    dyadic::lemma_up_adds(e1, -e2);
    dyadic::lemma_up_adds(e1 - e2, -e);
    assert(e1 + -e2 == e1 - e2);
    assert(e1 - e2 + -e == n);
    assert(-(-e2) == e2 && -(-e) == e);
    assert(dyadic::up(n as int) == p && dyadic::down(n as int) == 1);
    let x = u1 * d2 * de;
    let y = d1 * u2 * ue;
    lemma_mul_strictly_positive(d1 as int, u2 as int);
    lemma_mul_strictly_positive((d1 * u2) as int, ue as int);
    assert(x == p * y) by {
        assert(x * t == (d1 * u2 * s) * de) by (nonlinear_arith)
            requires
                x == u1 * d2 * de,
                u1 * d2 * t == d1 * u2 * s,
        ;
        assert((d1 * u2 * s) * de == (d1 * u2) * (t * ue * p)) by (nonlinear_arith)
            requires
                s * de * 1 == t * ue * p,
        ;
        assert((d1 * u2) * (t * ue * p) == (p * y) * t) by (nonlinear_arith)
            requires
                y == d1 * u2 * ue,
        ;
        let py = p * y;
        assert(x == py) by (nonlinear_arith)
            requires
                x * t == py * t,
                t > 0,
        ;
    }
    assert(m1 * u1 * d2 * de == m1 * x) by (nonlinear_arith)
        requires
            x == u1 * d2 * de,
    ;
    assert(m1 * (p * y) == (m1 * p) * y) by (nonlinear_arith);
    let my = m2 * y;
    assert(d1 * (m2 * u2) * ue == my) by (nonlinear_arith)
        requires
            y == d1 * u2 * ue,
            my == m2 * y,
    ;
    let m1p = m1 * p;
    assert(m1p * y == q * my + r * y) by (nonlinear_arith)
        requires
            m1p == m2 * q + r,
            my == m2 * y,
    ;
    assert(r * y < my) by (nonlinear_arith)
        requires
            r < m2,
            y > 0,
            my == m2 * y,
    ;
    assert(r * y > 0 <==> r > 0) by (nonlinear_arith)
        requires
            y > 0,
    ;
    lemma_mul_strictly_positive(m2 as int, u2 as int);
    lemma_mul_strictly_positive(d1 as int, (m2 * u2) as int);
}

proof fn lemma_wide_quotient(m: u64, wide: u128, m2: u64, q: u128)
    requires
        NORMAL <= m < LIMIT,
        wide == m * 0x1_0000_0000_0000_0000,
        0 < m2 < LIMIT,
        q == wide / m2 as u128,
    ensures
        pow2(55) <= q < pow2(120),
{
    lemma2_to64();
    lemma2_to64_rest();
    lemma_pow2_adds(64, 56);
    rounding::lemma_multiply_divide_le_converse(wide as nat, m2 as nat, pow2(55));
    lemma_div_is_ordered_by_denominator(wide as int, 1, m2 as int);
}

proof fn lemma_wide_shift(m: u64, n: nat)
    requires
        m < LIMIT,
        n <= 60,
    ensures
        m * pow2(n) < pow2(113),
        pow2(113) + LIMIT < pow2(120),
        pow2(120) < 0x1_0000_0000_0000_0000_0000_0000_0000_0000int,
{
    lemma2_to64();
    lemma2_to64_rest();
    lemma_pow2_adds(64, 56);
    lemma_pow2_adds(53, 60);
    lemma_pow2_adds(7, 113);
    rounding::lemma_pow2_ordered(n, 60);
    rounding::lemma_pow2_ordered(53, 113);
    lemma_pow2_pos(n);
    let p = pow2(n);
    let top = pow2(60);
    assert(m * p < LIMIT * top) by (nonlinear_arith)
        requires
            m < LIMIT,
            0 < p <= top,
    ;
}

/// The signed sum in units of `2^e2`.
proof fn lemma_near_sum(n1: bool, m1: u64, e1: int, n2: bool, m2: u64, e2: int)
    requires
        e1 >= e2,
    ensures
        ({
            let (u1, d1) = (dyadic::up(e1), dyadic::down(e1));
            let (u2, d2) = (dyadic::up(e2), dyadic::down(e2));
            let s1 = if n1 { -(m1 as nat * u1) } else { m1 as nat * u1 as int };
            let s2 = if n2 { -(m2 as nat * u2) } else { m2 as nat * u2 as int };
            let n = s1 * d2 + s2 * d1;
            let w = d1 * d2 * u2;
            let big = m1 * pow2((e1 - e2) as nat);
            let t1 = if n1 { -big } else { big };
            let t2 = if n2 { -m2 } else { m2 as int };
            &&& w > 0
            &&& d1 * d2 > 0
            &&& n * d2 == (t1 + t2) * w
            &&& -n * d2 == (-t1 - t2) * w
            &&& (n > 0 <==> t1 + t2 > 0)
            &&& (n < 0 <==> t1 + t2 < 0)
        }),
{
    let (u1, d1) = (dyadic::up(e1), dyadic::down(e1));
    let (u2, d2) = (dyadic::up(e2), dyadic::down(e2));
    let p = pow2((e1 - e2) as nat);
    lemma2_to64();
    dyadic::lemma_up_pos(e1);
    dyadic::lemma_up_pos(e2);
    dyadic::lemma_up_adds(e2, e1 - e2);
    assert(e2 + (e1 - e2) == e1);
    assert(dyadic::up(e1 - e2) == p && dyadic::down(e1 - e2) == 1);
    let w = d1 * d2 * u2;
    lemma_mul_strictly_positive(d1 as int, d2 as int);
    lemma_mul_strictly_positive((d1 * d2) as int, u2 as int);
    let a = m1 as nat * u1;
    let b = m2 as nat * u2;
    let big = m1 * p;
    assert(a * d2 * d2 == big * w) by (nonlinear_arith)
        requires
            a == m1 * u1,
            big == m1 * p,
            w == d1 * d2 * u2,
            u2 * p * d1 == d2 * 1 * u1,
    {
        assert(a * d2 * d2 == m1 * (d2 * 1 * u1) * d2);
        assert(big * w == m1 * (u2 * p * d1) * d2);
    }
    assert(b * d1 * d2 == m2 * w) by (nonlinear_arith)
        requires
            b == m2 * u2,
            w == d1 * d2 * u2,
    ;
    let s1 = if n1 { -a } else { a as int };
    let s2 = if n2 { -b } else { b as int };
    let t1 = if n1 { -big } else { big };
    let t2 = if n2 { -m2 } else { m2 as int };
    assert(s1 * d2 * d2 == t1 * w) by (nonlinear_arith)
        requires
            a * d2 * d2 == big * w,
            (s1 == a && t1 == big) || (s1 == -a && t1 == -big),
    ;
    assert(s2 * d1 * d2 == t2 * w) by (nonlinear_arith)
        requires
            b * d1 * d2 == m2 * w,
            (s2 == b && t2 == m2) || (s2 == -b && t2 == -m2),
    ;
    let n = s1 * d2 + s2 * d1;
    assert(n * d2 == (t1 + t2) * w) by (nonlinear_arith)
        requires
            n == s1 * d2 + s2 * d1,
            s1 * d2 * d2 == t1 * w,
            s2 * d1 * d2 == t2 * w,
    ;
    let t = t1 + t2;
    assert(-n * d2 == (-t1 - t2) * w) by (nonlinear_arith)
        requires
            n * d2 == (t1 + t2) * w,
    ;
    assert((n > 0 <==> t > 0) && (n < 0 <==> t < 0)) by (nonlinear_arith)
        requires
            n * d2 == t * w,
            d2 > 0,
            w > 0,
    ;
}

/// The sum in units of `2^(e1 - 4)`, where the second number is less than one unit.
proof fn lemma_far_sum(n1: bool, m1: u64, e1: int, n2: bool, m2: u64, e2: int)
    requires
        e1 > e2 + 60,
        NORMAL <= m1,
        m2 < LIMIT,
    ensures
        ({
            let (u1, d1) = (dyadic::up(e1), dyadic::down(e1));
            let (u2, d2) = (dyadic::up(e2), dyadic::down(e2));
            let s1 = if n1 { -(m1 as nat * u1) } else { m1 as nat * u1 as int };
            let s2 = if n2 { -(m2 as nat * u2) } else { m2 as nat * u2 as int };
            let n = s1 * d2 + s2 * d1;
            let size = if n1 { -n } else { n };
            let w = d1 * d2 * dyadic::up(e1 - 4);
            let small = m2 as nat * u2 * d1 * dyadic::down(e1 - 4);
            &&& d1 * d2 > 0
            &&& small < w
            &&& (small == 0 <==> m2 == 0)
            &&& size > 0
            &&& n1 == n2 || m2 == 0 ==> size * dyadic::down(e1 - 4) == 16 * m1 * w + small
            &&& n1 != n2 ==> size * dyadic::down(e1 - 4) == (16 * m1 - 1) * w + (w
                - small)
        }),
{
    let (u1, d1) = (dyadic::up(e1), dyadic::down(e1));
    let (u2, d2) = (dyadic::up(e2), dyadic::down(e2));
    let (ue, de) = (dyadic::up(e1 - 4), dyadic::down(e1 - 4));
    let gap = (e1 - 4 - e2) as nat;
    let p = pow2(gap);
    lemma2_to64();
    lemma2_to64_rest();
    rounding::lemma_pow2_ordered(53, gap);
    dyadic::lemma_up_pos(e1);
    dyadic::lemma_up_pos(e2);
    dyadic::lemma_up_pos(e1 - 4);
    dyadic::lemma_up_adds(e1 - 4, 4);
    dyadic::lemma_up_adds(e2, gap as int);
    assert(e1 - 4 + 4 == e1);
    assert(e2 + gap == e1 - 4);
    assert(dyadic::up(4) == 16 && dyadic::down(4) == 1);
    assert(dyadic::up(gap as int) == p && dyadic::down(gap as int) == 1);
    let w = d1 * d2 * ue;
    let a = m1 as nat * u1;
    let b = m2 as nat * u2;
    let small = b * d1 * de;
    lemma_mul_strictly_positive(d1 as int, d2 as int);
    lemma_mul_strictly_positive((d1 * d2) as int, ue as int);
    assert(a * d2 * de == 16 * m1 * w) by (nonlinear_arith)
        requires
            a == m1 * u1,
            w == d1 * d2 * ue,
            ue * 16 * d1 == de * 1 * u1,
    {
        assert(a * d2 * de == m1 * d2 * (de * 1 * u1));
        assert(16 * m1 * w == m1 * d2 * (ue * 16 * d1));
    }
    let k = d1 * (u2 * de);
    assert(k > 0) by (nonlinear_arith)
        requires
            k == d1 * (u2 * de),
            d1 > 0 && u2 > 0 && de > 0,
    ;
    assert(small == m2 * k) by (nonlinear_arith)
        requires
            b == m2 * u2,
            small == b * d1 * de,
            k == d1 * (u2 * de),
    ;
    assert(w == p * k) by (nonlinear_arith)
        requires
            w == d1 * d2 * ue,
            k == d1 * (u2 * de),
            u2 * p * de == d2 * 1 * ue,
    {
        assert(w == d1 * (d2 * 1 * ue));
        assert(p * k == d1 * (u2 * p * de));
    }
    assert(small < w && (small == 0 <==> m2 == 0)) by (nonlinear_arith)
        requires
            small == m2 * k,
            w == p * k,
            m2 < p,
            k > 0,
    ;
    let s1 = if n1 { -a } else { a as int };
    let s2 = if n2 { -b } else { b as int };
    let n = s1 * d2 + s2 * d1;
    let size = if n1 { -n } else { n };
    let r2 = if n1 == n2 { b as int } else { -b };
    assert(size == a * d2 + r2 * d1) by (nonlinear_arith)
        requires
            n == s1 * d2 + s2 * d1,
            (n1 && s1 == -a && size == -n && r2 == -s2) || (!n1 && s1 == a && size == n && r2 == s2),
    ;
    assert(size * de == a * d2 * de + r2 * d1 * de) by (nonlinear_arith)
        requires
            size == a * d2 + r2 * d1,
    ;
    assert(r2 * d1 * de == if n1 == n2 { small as int } else { -small }) by (nonlinear_arith)
        requires
            small == b * d1 * de,
            r2 == if n1 == n2 { b as int } else { -b },
    ;
    assert(16 * m1 * w >= w && (16 * m1 - 1) * w == 16 * m1 * w - w) by (nonlinear_arith)
        requires
            m1 >= 1,
            w >= 0,
    ;
    assert(size > 0) by (nonlinear_arith)
        requires
            size * de > 0,
            de > 0,
    ;
}

proof fn lemma_wide_product(m1: u64, m2: u64)
    requires
        m1 < LIMIT,
        m2 < LIMIT,
    ensures
        m1 * m2 < pow2(106) < pow2(120),
        pow2(120) < 0x1_0000_0000_0000_0000_0000_0000_0000_0000int,
{
    lemma2_to64_rest();
    lemma_pow2_adds(53, 53);
    lemma_pow2_adds(64, 56);
    lemma_pow2_strictly_increases(106, 120);
    assert(m1 * m2 < LIMIT * LIMIT) by (nonlinear_arith)
        requires
            m1 < LIMIT,
            m2 < LIMIT,
    ;
}

proof fn lemma_product_split(m1: nat, e1: int, m2: nat, e2: int)
    ensures
        rounding::is_split(
            (m1 * dyadic::up(e1)) * (m2 * dyadic::up(e2)),
            dyadic::down(e1) * dyadic::down(e2),
            m1 * m2,
            0,
            e1 + e2,
        ),
{
    let (u1, d1, u2, d2) = (dyadic::up(e1), dyadic::down(e1), dyadic::up(e2), dyadic::down(e2));
    let (us, ds) = (dyadic::up(e1 + e2), dyadic::down(e1 + e2));
    dyadic::lemma_up_pos(e1);
    dyadic::lemma_up_pos(e2);
    dyadic::lemma_up_pos(e1 + e2);
    dyadic::lemma_up_adds(e1, e2);
    lemma_mul_strictly_positive(d1 as int, d2 as int);
    lemma_mul_strictly_positive((d1 * d2) as int, us as int);
    assert((m1 * u1) * (m2 * u2) * ds == m1 * m2 * (d1 * d2 * us)) by (nonlinear_arith)
        requires
            u1 * u2 * ds == d1 * d2 * us,
    {
        assert((m1 * u1) * (m2 * u2) * ds == m1 * m2 * (u1 * u2 * ds));
    }
}

} // verus!
