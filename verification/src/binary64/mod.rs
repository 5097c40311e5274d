//! Double-precision binary floating point in integer arithmetic.
//!
//! A congestion window that follows a cubic curve needs fractions. This module computes them
//! without a floating-point unit and without a machine float: every operation is the exact
//! rational operation followed by one rounding, to the nearest representable number, ties to
//! the even significand.

use vstd::prelude::*;
use crate::dyadic;

pub mod accuracy;
pub mod arithmetic;
pub mod comparison;
pub mod monotone;
pub mod nearest;
pub mod rounding;
pub mod value;

verus! {

/// A binary64 number: `significand * 2^exponent` with a sign, an infinity, or not a number.
#[derive(Clone, Copy, Debug)]
pub enum Binary64 {
    Nan,
    Infinity { negative: bool },
    Finite { negative: bool, significand: u64, exponent: i32 },
}

/// `2^52`: the least significand of a normal number.
pub const NORMAL: u64 = 0x10_0000_0000_0000;

/// `2^53`: significands stay below it.
pub const LIMIT: u64 = 0x20_0000_0000_0000;

/// The exponent of the subnormal numbers and of the smallest normal ones.
pub const MIN_EXPONENT: i32 = -1074;

/// The exponent of the largest finite numbers.
pub const MAX_EXPONENT: i32 = 971;

impl Binary64 {
    /// Each number has one form: the significand is as large as the exponent's range allows.
    pub open spec fn wf(self) -> bool {
        match self {
            Binary64::Finite { negative, significand, exponent } => {
                &&& MIN_EXPONENT <= exponent <= MAX_EXPONENT
                &&& significand < LIMIT
                &&& significand >= NORMAL || exponent == MIN_EXPONENT
            },
            _ => true,
        }
    }

    /// The sign bit; `Nan` has none.
    pub open spec fn sign(self) -> bool {
        match self {
            Binary64::Nan => false,
            Binary64::Infinity { negative } => negative,
            Binary64::Finite { negative, .. } => negative,
        }
    }

    /// The magnitude of a finite number is `num / den`.
    pub open spec fn num(self) -> nat {
        self->significand as nat * dyadic::up(self->exponent as int)
    }

    pub open spec fn den(self) -> nat {
        dyadic::down(self->exponent as int)
    }

    /// The numerator with the number's sign.
    pub open spec fn signed_num(self) -> int {
        if self.sign() {
            -(self.num() as int)
        } else {
            self.num() as int
        }
    }

    pub open spec fn is_zero(self) -> bool {
        self is Finite && self->significand == 0
    }

    /// `num / den` is less than `2^53 * 2^x`.
    pub open spec fn fits(num: nat, den: nat, x: int) -> bool {
        num * dyadic::down(x) < den * dyadic::up(x) * LIMIT
    }

    /// `x` is the exponent with which `num / den` is written with the most digits.
    pub open spec fn is_unit(num: nat, den: nat, x: int) -> bool {
        &&& x >= MIN_EXPONENT
        &&& Self::fits(num, den, x)
        &&& x == MIN_EXPONENT || !Self::fits(num, den, x - 1)
    }

    pub open spec fn unit(num: nat, den: nat) -> int {
        choose|x: int| Self::is_unit(num, den, x)
    }

    /// The number closest to `num / den`, ties to the even significand; an infinity where that
    /// is beyond the largest finite number.
    pub open spec fn rounded(negative: bool, num: nat, den: nat) -> Binary64 {
        let x = Self::unit(num, den);
        let s = dyadic::nearest_even(num * dyadic::down(x), den * dyadic::up(x));
        Self::packed(negative, s, x)
    }

    /// The number `s * 2^x` for a significand that rounding may have carried up to `2^53`.
    pub open spec fn packed(negative: bool, s: nat, x: int) -> Binary64 {
        let (s, x) = if s < LIMIT {
            (s, x)
        } else {
            (NORMAL as nat, x + 1)
        };
        if x > MAX_EXPONENT {
            Binary64::Infinity { negative }
        } else {
            Binary64::Finite { negative, significand: s as u64, exponent: x as i32 }
        }
    }

    /// `significand * 2^exponent`.
    #[verifier::allow_in_spec]
    pub fn positive(significand: u64, exponent: i32) -> Binary64
        returns
            (Binary64::Finite { negative: false, significand, exponent }),
    {
        Binary64::Finite { negative: false, significand, exponent }
    }

    #[verifier::allow_in_spec]
    pub fn zero(negative: bool) -> Binary64
        returns
            (Binary64::Finite { negative, significand: 0, exponent: MIN_EXPONENT }),
    {
        Binary64::Finite { negative, significand: 0, exponent: MIN_EXPONENT }
    }

    /// The number closest to a natural number.
    pub open spec fn of(n: nat) -> Binary64 {
        Self::rounded(false, n, 1)
    }

    pub open spec fn negated(self) -> Binary64 {
        match self {
            Binary64::Nan => self,
            Binary64::Infinity { negative } => Binary64::Infinity { negative: !negative },
            Binary64::Finite { negative, significand, exponent } => Binary64::Finite {
                negative: !negative,
                significand,
                exponent,
            },
        }
    }

    pub open spec fn product(self, other: Binary64) -> Binary64 {
        let negative = self.sign() != other.sign();
        if self is Nan || other is Nan {
            Binary64::Nan
        } else if self is Infinity || other is Infinity {
            if self.is_zero() || other.is_zero() {
                Binary64::Nan
            } else {
                Binary64::Infinity { negative }
            }
        } else {
            Self::rounded(negative, self.num() * other.num(), self.den() * other.den())
        }
    }

    pub open spec fn quotient(self, other: Binary64) -> Binary64 {
        let negative = self.sign() != other.sign();
        if self is Nan || other is Nan || (self is Infinity && other is Infinity) || (
        self.is_zero() && other.is_zero()) {
            Binary64::Nan
        } else if self is Infinity || other.is_zero() {
            Binary64::Infinity { negative }
        } else if other is Infinity {
            Self::zero(negative)
        } else {
            Self::rounded(negative, self.num() * other.den(), self.den() * other.num())
        }
    }

    pub open spec fn sum(self, other: Binary64) -> Binary64 {
        if self is Nan || other is Nan {
            Binary64::Nan
        } else if self is Infinity {
            if other is Infinity && self.sign() != other.sign() {
                Binary64::Nan
            } else {
                self
            }
        } else if other is Infinity {
            other
        } else {
            let n = self.signed_num() * other.den() + other.signed_num() * self.den();
            let d = self.den() * other.den();
            if n == 0 {
                Self::zero(self.sign() && other.sign())
            } else if n > 0 {
                Self::rounded(false, n as nat, d)
            } else {
                Self::rounded(true, (-n) as nat, d)
            }
        }
    }

    pub open spec fn difference(self, other: Binary64) -> Binary64 {
        self.sum(other.negated())
    }

    /// `self < other`; false where either is not a number.
    pub open spec fn less(self, other: Binary64) -> bool {
        if self is Nan || other is Nan {
            false
        } else if self is Infinity {
            self.sign() && !(other is Infinity && other.sign())
        } else if other is Infinity {
            !other.sign()
        } else {
            self.signed_num() * other.den() < other.signed_num() * self.den()
        }
    }

    /// `self <= other`; false where either is not a number.
    pub open spec fn at_most(self, other: Binary64) -> bool {
        !(self is Nan) && !(other is Nan) && !other.less(self)
    }

    /// The lesser of two numbers, or the one that is a number.
    pub open spec fn lesser(self, other: Binary64) -> Binary64 {
        if self is Nan {
            other
        } else if other is Nan || self.less(other) {
            self
        } else {
            other
        }
    }

    /// The integer part, held within `usize`: 0 where there is nothing above 0, the largest
    /// `usize` where the number is beyond it.
    pub open spec fn truncated(self) -> usize {
        if self is Nan || self.sign() {
            0
        } else if self is Infinity || self.num() / self.den() > usize::MAX {
            usize::MAX
        } else {
            (self.num() / self.den()) as usize
        }
    }
}

} // verus!
