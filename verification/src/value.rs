//! What an IEEE 754 binary64 number denotes, and what arithmetic on such numbers yields.

use crate::rounding::{rounded, SIGNIFICAND_TOP};
use vstd::arithmetic::power2::pow2;
use vstd::prelude::*;

verus! {

/// How many binary digits stand behind the point of the smallest positive number: that number
/// is one unit, and `2^UNIT_DIGITS` units make one.
pub const UNIT_DIGITS: u32 = 1074;

/// The size from which on a number is infinite is `2^END_DIGITS` units.
pub const END_DIGITS: u32 = 2098;

/// The leading bit of the interchange format, which is set for a minus.
pub const SIGN_BIT: u64 = 0x8000_0000_0000_0000;

/// What a binary64 number denotes.
///
/// The size of a finite number is a whole count of units, each of them `2^-1074`.
pub enum Value {
    NaN,
    Infinite { negative: bool },
    Finite { negative: bool, units: nat },
}

impl Value {
    /// The number nearest to a size of `n / d` units, ties to even; a size that rounds to
    /// `2^1024` or more is infinite.
    pub open spec fn sized(negative: bool, n: nat, d: nat) -> Value {
        let units = rounded(n, d);
        if units < pow2(END_DIGITS as nat) {
            Value::Finite { negative, units }
        } else {
            Value::Infinite { negative }
        }
    }

    /// The number nearest to `n / d`.
    pub open spec fn ratio(n: nat, d: nat) -> Value {
        Value::sized(false, n * pow2(UNIT_DIGITS as nat), d)
    }

    /// The number nearest to `n`.
    pub open spec fn whole(n: nat) -> Value {
        Value::ratio(n, 1)
    }

    /// What the interchange format encodes: a sign bit, eleven bits of exponent and fifty-two of
    /// fraction.
    pub open spec fn encoded(bits: u64) -> Value {
        let negative = bits >= SIGN_BIT;
        let field = (bits / SIGNIFICAND_TOP) % 2048;
        let fraction = bits % SIGNIFICAND_TOP;
        if field == 2047 {
            if fraction == 0 {
                Value::Infinite { negative }
            } else {
                Value::NaN
            }
        } else if field == 0 {
            Value::Finite { negative, units: fraction as nat }
        } else {
            Value::Finite {
                negative,
                units: (SIGNIFICAND_TOP + fraction) as nat * pow2((field - 1) as nat),
            }
        }
    }

    /// Zero.
    pub open spec fn zero(negative: bool) -> Value {
        Value::Finite { negative, units: 0 }
    }

    /// Whether the sign is a minus; a NaN is taken to have none.
    pub open spec fn negative(self) -> bool {
        match self {
            Value::NaN => false,
            Value::Infinite { negative } => negative,
            Value::Finite { negative, .. } => negative,
        }
    }

    /// The signed number of units of a finite number.
    pub open spec fn signed_units(self) -> int {
        match self {
            Value::Finite { negative, units } => if negative {
                -units
            } else {
                units as int
            },
            _ => 0,
        }
    }

    /// The number with the other sign.
    pub open spec fn negated(self) -> Value {
        match self {
            Value::NaN => Value::NaN,
            Value::Infinite { negative } => Value::Infinite { negative: !negative },
            Value::Finite { negative, units } => Value::Finite { negative: !negative, units },
        }
    }

    /// The sum: the exact sum, rounded. An exact sum of zero is positive, unless both terms have
    /// a minus.
    pub open spec fn plus(self, other: Value) -> Value {
        match (self, other) {
            (Value::NaN, _) => Value::NaN,
            (_, Value::NaN) => Value::NaN,
            (Value::Infinite { negative: a }, Value::Infinite { negative: b }) => if a == b {
                self
            } else {
                Value::NaN
            },
            (Value::Infinite { .. }, _) => self,
            (_, Value::Infinite { .. }) => other,
            (Value::Finite { negative: a, .. }, Value::Finite { negative: b, .. }) => {
                let sum = self.signed_units() + other.signed_units();
                if sum == 0 {
                    Value::zero(a && b)
                } else if sum < 0 {
                    Value::sized(true, (-sum) as nat, 1)
                } else {
                    Value::sized(false, sum as nat, 1)
                }
            },
        }
    }

    /// The difference.
    pub open spec fn minus(self, other: Value) -> Value {
        self.plus(other.negated())
    }

    /// The product: the exact product, rounded.
    pub open spec fn times(self, other: Value) -> Value {
        let negative = self.negative() != other.negative();
        match (self, other) {
            (Value::NaN, _) => Value::NaN,
            (_, Value::NaN) => Value::NaN,
            (Value::Finite { units: a, .. }, Value::Finite { units: b, .. }) => Value::sized(
                negative,
                a * b,
                pow2(UNIT_DIGITS as nat),
            ),
            (Value::Finite { units: a, .. }, _) if a == 0 => Value::NaN,
            (_, Value::Finite { units: b, .. }) if b == 0 => Value::NaN,
            _ => Value::Infinite { negative },
        }
    }

    /// The quotient: the exact quotient, rounded.
    pub open spec fn over(self, other: Value) -> Value {
        let negative = self.negative() != other.negative();
        match (self, other) {
            (Value::NaN, _) => Value::NaN,
            (_, Value::NaN) => Value::NaN,
            (Value::Infinite { .. }, Value::Infinite { .. }) => Value::NaN,
            (Value::Infinite { .. }, _) => Value::Infinite { negative },
            (_, Value::Infinite { .. }) => Value::zero(negative),
            (Value::Finite { units: a, .. }, Value::Finite { units: b, .. }) => if b > 0 {
                Value::sized(negative, a * pow2(UNIT_DIGITS as nat), b)
            } else if a > 0 {
                Value::Infinite { negative }
            } else {
                Value::NaN
            },
        }
    }

    /// Whether the number is less than the other. A NaN is not less than any number, nor is any
    /// number less than it.
    pub open spec fn less(self, other: Value) -> bool {
        match (self, other) {
            (Value::NaN, _) => false,
            (_, Value::NaN) => false,
            (Value::Infinite { negative: a }, Value::Infinite { negative: b }) => a && !b,
            (Value::Infinite { negative: a }, _) => a,
            (_, Value::Infinite { negative: b }) => !b,
            (Value::Finite { .. }, Value::Finite { .. }) => self.signed_units()
                < other.signed_units(),
        }
    }

    /// Whether the number is less than the other or equal to it.
    pub open spec fn at_most(self, other: Value) -> bool {
        self !is NaN && other !is NaN && !other.less(self)
    }

    /// The number without its minus.
    pub open spec fn magnitude(self) -> Value {
        if self.less(Value::zero(false)) {
            self.negated()
        } else {
            self
        }
    }

    /// The whole part, brought into `0..=limit`; zero for a NaN.
    pub open spec fn truncated(self, limit: nat) -> nat {
        match self {
            Value::NaN => 0,
            Value::Infinite { negative } => if negative {
                0
            } else {
                limit
            },
            Value::Finite { negative, units } => {
                let whole = units / pow2(UNIT_DIGITS as nat);
                if negative {
                    0
                } else if whole < limit {
                    whole
                } else {
                    limit
                }
            },
        }
    }
}

} // verus!
