//! Order, and conversion to integers.

use vstd::prelude::*;
use vstd::arithmetic::div_mod::*;
use vstd::arithmetic::mul::*;
use vstd::arithmetic::power2::*;
use crate::dyadic;
use super::rounding;
use super::{Binary64, LIMIT, NORMAL};

verus! {

impl Binary64 {
    /// `self < other`.
    pub fn lt(self, other: Binary64) -> (r: bool)
        requires
            self.wf(),
            other.wf(),
        ensures
            r == self.less(other),
    {
        match (self, other) {
            (Binary64::Nan, _) => false,
            (_, Binary64::Nan) => false,
            (Binary64::Infinity { negative: n1 }, Binary64::Infinity { negative: n2 }) => n1 && !n2,
            (Binary64::Infinity { negative: n1 }, _) => n1,
            (_, Binary64::Infinity { negative: n2 }) => !n2,
            (
                Binary64::Finite { negative: n1, significand: m1, exponent: e1 },
                Binary64::Finite { negative: n2, significand: m2, exponent: e2 },
            ) => {
                proof {
                    lemma_order(self, other);
                    lemma_order(other, self);
                }
                if n1 && n2 {
                    e2 < e1 || (e2 == e1 && m2 < m1)
                } else if n1 {
                    m1 != 0 || m2 != 0
                } else if n2 {
                    false
                } else {
                    e1 < e2 || (e1 == e2 && m1 < m2)
                }
            },
        }
    }

    /// `self <= other`.
    pub fn le(self, other: Binary64) -> (r: bool)
        requires
            self.wf(),
            other.wf(),
        ensures
            r == self.at_most(other),
    {
        match (self, other) {
            (Binary64::Nan, _) => false,
            (_, Binary64::Nan) => false,
            _ => !other.lt(self),
        }
    }

    /// The lesser of two numbers, or the one that is a number.
    pub fn min(self, other: Binary64) -> (r: Binary64)
        requires
            self.wf(),
            other.wf(),
        ensures
            r == self.lesser(other),
            r.wf(),
    {
        match (self, other) {
            (Binary64::Nan, _) => other,
            (_, Binary64::Nan) => self,
            _ => if self.lt(other) {
                self
            } else {
                other
            },
        }
    }

    /// The integer part, held within `usize`.
    pub fn to_usize(self) -> (r: usize)
        requires
            self.wf(),
        ensures
            r == self.truncated(),
    {
        match self {
            Binary64::Nan => 0,
            Binary64::Infinity { negative } => if negative {
                0
            } else {
                usize::MAX
            },
            Binary64::Finite { negative, significand, exponent } => {
                if negative {
                    return 0;
                }
                proof {
                    lemma2_to64();
                    lemma2_to64_rest();
                    if exponent >= 0 {
                        assert(self.den() == 1);
                        assert(self.num() / 1 == self.num());
                    }
                }
                if exponent > 11 {
                    proof {
                        let p = pow2(exponent as nat);
                        rounding::lemma_pow2_ordered(12, exponent as nat);
                        assert(significand * p >= NORMAL * 4096) by (nonlinear_arith)
                            requires
                                significand >= NORMAL,
                                p >= 4096,
                        ;
                        assert(self.num() > usize::MAX);
                    }
                    return usize::MAX;
                }
                let whole: u128 = if exponent >= 0 {
                    proof {
                        let p = pow2(exponent as nat);
                        rounding::lemma_pow2_ordered(exponent as nat, 11);
                        assert(significand * p <= LIMIT * 2048) by (nonlinear_arith)
                            requires
                                significand < LIMIT,
                                p <= 2048,
                        ;
                        assert(significand * 1 == significand);
                    }
                    significand as u128 * rounding::power(exponent as u32)
                } else {
                    let n: u32 = (-exponent) as u32;
                    assert(self.num() == significand);
                    if n > 64 {
                        proof {
                            rounding::lemma_pow2_ordered(64, n as nat);
                            lemma_basic_div(significand as int, pow2(n as nat) as int);
                        }
                        0
                    } else {
                        proof {
                            lemma_pow2_pos(n as nat);
                        }
                        significand as u128 / rounding::power(n)
                    }
                };
                if whole > usize::MAX as u128 {
                    usize::MAX
                } else {
                    whole as usize
                }
            },
        }
    }
}

/// Magnitudes are ordered as the pairs of exponent and significand.
proof fn lemma_order(a: Binary64, b: Binary64)
    requires
        a is Finite,
        b is Finite,
        a.wf(),
        b.wf(),
    ensures
        a.num() * b.den() < b.num() * a.den() <==> (a->exponent < b->exponent || (a->exponent
            == b->exponent && a->significand < b->significand)),
        a.num() * b.den() == 0 <==> a->significand == 0,
        forall|x: int, y: int| #![trigger x * y] (-x) * y == -(x * y),
{
    let (m1, e1) = (a->significand, a->exponent as int);
    let (m2, e2) = (b->significand, b->exponent as int);
    if e1 <= e2 {
        lemma_order_magnitudes(m1 as nat, e1, m2 as nat, e2);
    } else {
        lemma_order_magnitudes(m2 as nat, e2, m1 as nat, e1);
    }
    dyadic::lemma_up_pos(e1);
    dyadic::lemma_up_pos(e2);
    let (u1, d2) = (dyadic::up(e1), dyadic::down(e2));
    assert(m1 * u1 * d2 == 0 <==> m1 == 0) by (nonlinear_arith)
        requires
            u1 > 0,
            d2 > 0,
    ;
    assert forall|x: int, y: int| #![trigger x * y] (-x) * y == -(x * y) by {
        assert((-x) * y == -(x * y)) by (nonlinear_arith);
    }
}

proof fn lemma_order_magnitudes(m1: nat, e1: int, m2: nat, e2: int)
    requires
        e1 <= e2,
        m1 < LIMIT,
        e1 < e2 ==> m2 >= NORMAL,
    ensures
        ({
            let x = m1 * dyadic::up(e1) * dyadic::down(e2);
            let y = m2 * dyadic::up(e2) * dyadic::down(e1);
            &&& x < y <==> (e1 < e2 || m1 < m2)
            &&& y < x <==> (e1 == e2 && m2 < m1)
        }),
{
    let (u1, d1, u2, d2) = (dyadic::up(e1), dyadic::down(e1), dyadic::up(e2), dyadic::down(e2));
    let p = pow2((e2 - e1) as nat);
    lemma2_to64();
    dyadic::lemma_up_pos(e1);
    dyadic::lemma_up_pos(e2);
    dyadic::lemma_up_adds(e1, e2 - e1);
    assert(e1 + (e2 - e1) == e2);
    assert(dyadic::up(e2 - e1) == p && dyadic::down(e2 - e1) == 1);
    let g = u1 * d2;
    lemma_mul_strictly_positive(u1 as int, d2 as int);
    let x = m1 * u1 * d2;
    let y = m2 * u2 * d1;
    let z = m2 * p;
    assert(x == m1 * g) by (nonlinear_arith)
        requires
            x == m1 * u1 * d2,
            g == u1 * d2,
    ;
    assert(y == z * g) by (nonlinear_arith)
        requires
            y == m2 * u2 * d1,
            z == m2 * p,
            g == u1 * d2,
            u1 * p * d2 == d1 * 1 * u2,
    {
        assert(y == m2 * (d1 * 1 * u2));
        assert(z * g == m2 * (u1 * p * d2));
    }
    assert((x < y <==> m1 < z) && (y < x <==> z < m1)) by (nonlinear_arith)
        requires
            x == m1 * g,
            y == z * g,
            g > 0,
    ;
    if e1 < e2 {
        rounding::lemma_pow2_ordered(1, (e2 - e1) as nat);
        assert(z >= LIMIT) by (nonlinear_arith)
            requires
                z == m2 * p,
                m2 >= NORMAL,
                p >= 2,
        ;
    }
}

} // verus!
