//! Small shared value types: signs and twist directions.

use vstd::prelude::*;

verus! {

/// Positive, negative, or zero.
#[derive(Debug, Copy, Clone, PartialEq, Eq, Structural)]
pub enum Sign {
    /// Negative.
    Neg,
    /// Zero.
    Zero,
    /// Positive.
    Pos,
}

/// A rotation direction; clockwise or counterclockwise.
#[derive(Debug, Copy, Clone, PartialEq, Eq, Structural)]
pub enum TwistDirection {
    /// Clockwise.
    CW,
    /// Counterclockwise.
    CCW,
}

impl Sign {
    /// The integer that this sign stands for.
    pub open spec fn value(self) -> int {
        match self {
            Sign::Neg => -1,
            Sign::Zero => 0,
            Sign::Pos => 1,
        }
    }

    /// The sign whose integer is `v`, for `v` in `-1..=1`.
    pub open spec fn of_value(v: int) -> Sign {
        if v < 0 {
            Sign::Neg
        } else if v == 0 {
            Sign::Zero
        } else {
            Sign::Pos
        }
    }

    /// Returns an integer representation of this sign (either -1, 0, or 1).
    pub fn as_int(self) -> (r: isize)
        ensures
            r as int == self.value(),
    {
        match self {
            Sign::Neg => -1,
            Sign::Zero => 0,
            Sign::Pos => 1,
        }
    }

    /// Returns the absolute value of the integer representation of this sign
    /// (either 0 or 1).
    pub fn abs(self) -> (r: usize)
        ensures
            r as int == if self.value() < 0 { -self.value() } else { self.value() },
    {
        match self {
            Sign::Neg | Sign::Pos => 1,
            Sign::Zero => 0,
        }
    }

    /// Returns true if this is `Sign::Zero` or false otherwise.
    pub fn is_zero(self) -> (r: bool)
        ensures
            r == (self == Sign::Zero),
    {
        self == Sign::Zero
    }

    /// Returns false if this is `Sign::Zero` or true otherwise.
    pub fn is_nonzero(self) -> (r: bool)
        ensures
            r == (self != Sign::Zero),
    {
        self != Sign::Zero
    }

    /// Returns all the signs, from negative to positive.
    pub fn iter() -> (r: Vec<Sign>)
        ensures
            r@ == seq![Sign::Neg, Sign::Zero, Sign::Pos],
    {
        vec![Sign::Neg, Sign::Zero, Sign::Pos]
    }
}

impl Default for Sign {
    fn default() -> (r: Sign)
        ensures
            r == Sign::Zero,
    {
        Sign::Zero
    }
}

impl From<TwistDirection> for Sign {
    fn from(direction: TwistDirection) -> (r: Sign) {
        match direction {
            TwistDirection::CW => Sign::Pos,
            TwistDirection::CCW => Sign::Neg,
        }
    }
}

impl vstd::std_specs::convert::FromSpecImpl<TwistDirection> for Sign {
    open spec fn obeys_from_spec() -> bool {
        true
    }

    open spec fn from_spec(direction: TwistDirection) -> Sign {
        match direction {
            TwistDirection::CW => Sign::Pos,
            TwistDirection::CCW => Sign::Neg,
        }
    }
}

impl Sign {
    /// Returns the opposite sign.
    pub fn neg(self) -> (r: Sign)
        ensures
            r == Sign::of_value(-self.value()),
    {
        match self {
            Sign::Neg => Sign::Pos,
            Sign::Zero => Sign::Zero,
            Sign::Pos => Sign::Neg,
        }
    }
}

impl core::ops::Mul<Sign> for Sign {
    type Output = Sign;

    fn mul(self, rhs: Sign) -> (r: Sign) {
        match self {
            Sign::Neg => rhs.neg(),
            Sign::Zero => Sign::Zero,
            Sign::Pos => rhs,
        }
    }
}

impl vstd::std_specs::ops::MulSpecImpl<Sign> for Sign {
    open spec fn obeys_mul_spec() -> bool {
        true
    }

    open spec fn mul_req(self, rhs: Sign) -> bool {
        true
    }

    open spec fn mul_spec(self, rhs: Sign) -> Sign {
        Sign::of_value(self.value() * rhs.value())
    }
}

impl core::ops::Add<Sign> for Sign {
    type Output = Sign;

    fn add(self, rhs: Sign) -> (r: Sign) {
        match self {
            Sign::Neg => match rhs {
                Sign::Zero => Sign::Neg,
                _ => Sign::Zero,
            },
            Sign::Zero => rhs,
            Sign::Pos => match rhs {
                Sign::Neg => Sign::Zero,
                _ => Sign::Pos,
            },
        }
    }
}

impl vstd::std_specs::ops::AddSpecImpl<Sign> for Sign {
    open spec fn obeys_add_spec() -> bool {
        true
    }

    /// The sum must stay within `-1..=1`.
    open spec fn add_req(self, rhs: Sign) -> bool {
        -1 <= self.value() + rhs.value() <= 1
    }

    open spec fn add_spec(self, rhs: Sign) -> Sign {
        Sign::of_value(self.value() + rhs.value())
    }
}

impl Default for TwistDirection {
    fn default() -> (r: TwistDirection)
        ensures
            r == TwistDirection::CW,
    {
        TwistDirection::CW
    }
}

impl TwistDirection {
    /// The opposite direction.
    pub open spec fn spec_rev(self) -> TwistDirection {
        match self {
            TwistDirection::CW => TwistDirection::CCW,
            TwistDirection::CCW => TwistDirection::CW,
        }
    }

    /// Returns the reverse direction.
    #[must_use]
    pub fn rev(self) -> (r: TwistDirection)
        ensures
            r == self.spec_rev(),
            r != self,
    {
        match self {
            TwistDirection::CW => TwistDirection::CCW,
            TwistDirection::CCW => TwistDirection::CW,
        }
    }
}

} // verus!
