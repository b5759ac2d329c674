//! Reals as JSON and the API carry them: 64-bit binary floating point, held by its bits.
//!
//! Sums and quotients of such values are taken outside this library. What it decides
//! about them, thresholds and orders, needs comparison alone, and the bits of two reals
//! compare as the reals do.

use vstd::prelude::*;

verus! {

/// The bit that holds the sign.
pub const SIGN_BIT: u64 = 0x8000_0000_0000_0000;

/// The bits of positive infinity: every finite magnitude lies below it, every NaN above.
pub const INFINITY_BITS: u64 = 0x7ff0_0000_0000_0000;

/// A real in the IEEE 754 binary64 format.
#[derive(Clone, Copy, PartialEq, Eq, Structural, Debug)]
pub struct Real {
    pub bits: u64,
}

impl View for Real {
    type V = Real;

    open spec fn view(&self) -> Real {
        *self
    }
}

impl Real {
    /// The bits without the sign.
    pub open spec fn magnitude(self) -> int {
        if self.bits < SIGN_BIT {
            self.bits as int
        } else {
            self.bits - SIGN_BIT
        }
    }

    /// The place of a real among all reals: larger for larger reals, the same for the
    /// two zeros.
    pub open spec fn rank(self) -> int {
        if self.bits < SIGN_BIT {
            self.magnitude()
        } else {
            -self.magnitude()
        }
    }

    /// Whether the bits stand for no number.
    pub open spec fn spec_is_nan(self) -> bool {
        self.magnitude() > INFINITY_BITS
    }

    /// Whether the bits stand for a number that is not infinite.
    pub open spec fn spec_is_finite(self) -> bool {
        self.magnitude() < INFINITY_BITS
    }

    /// Whether `self < other`; a NaN compares with nothing.
    pub open spec fn spec_lt(self, other: Real) -> bool {
        &&& !self.spec_is_nan()
        &&& !other.spec_is_nan()
        &&& self.rank() < other.rank()
    }

    /// Whether `self >= other`; a NaN compares with nothing.
    pub open spec fn spec_ge(self, other: Real) -> bool {
        &&& !self.spec_is_nan()
        &&& !other.spec_is_nan()
        &&& self.rank() >= other.rank()
    }

    /// `self` held within `low` and `high`.
    pub open spec fn spec_clamp(self, low: Real, high: Real) -> Real {
        if self.spec_lt(low) {
            low
        } else if high.spec_lt(self) {
            high
        } else {
            self
        }
    }

    fn split(self) -> (r: (bool, u64))
        ensures
            r.0 == (self.bits >= SIGN_BIT),
            r.1 == self.magnitude(),
    {
        if self.bits < SIGN_BIT {
            (false, self.bits)
        } else {
            (true, self.bits - SIGN_BIT)
        }
    }

    pub fn is_nan(self) -> (r: bool)
        ensures
            r == self.spec_is_nan(),
    {
        self.split().1 > INFINITY_BITS
    }

    pub fn is_finite(self) -> (r: bool)
        ensures
            r == self.spec_is_finite(),
    {
        self.split().1 < INFINITY_BITS
    }

    /// Whether `self` stands below `other` in the order of ranks.
    pub fn ranks_below(self, other: Real) -> (r: bool)
        ensures
            r == (self.rank() < other.rank()),
    {
        let (a_negative, a) = self.split();
        let (b_negative, b) = other.split();
        if a_negative {
            if b_negative {
                a > b
            } else {
                a > 0 || b > 0
            }
        } else {
            !b_negative && a < b
        }
    }

    pub fn lt(self, other: Real) -> (r: bool)
        ensures
            r == self.spec_lt(other),
    {
        !self.is_nan() && !other.is_nan() && self.ranks_below(other)
    }

    pub fn ge(self, other: Real) -> (r: bool)
        ensures
            r == self.spec_ge(other),
    {
        !self.is_nan() && !other.is_nan() && !self.ranks_below(other)
    }

    pub fn clamp(self, low: Real, high: Real) -> (r: Real)
        ensures
            r == self.spec_clamp(low, high),
    {
        if self.lt(low) {
            low
        } else if high.lt(self) {
            high
        } else {
            self
        }
    }
}

/// The bits of 0.0.
pub const ZERO: u64 = 0;

/// The bits of 0.3.
pub const THREE_TENTHS: u64 = 0x3fd3_3333_3333_3333;

/// The bits of 0.5.
pub const HALF: u64 = 0x3fe0_0000_0000_0000;

/// The bits of 0.75.
pub const THREE_QUARTERS: u64 = 0x3fe8_0000_0000_0000;

/// The bits of 1.0.
pub const ONE: u64 = 0x3ff0_0000_0000_0000;

/// The bits of negative infinity.
pub const NEGATIVE_INFINITY: u64 = 0xfff0_0000_0000_0000;

/// The threshold that a caller asked for, or the one with the bits `default`, held
/// within 0 and 1.
pub open spec fn spec_threshold(asked: Option<Real>, default: u64) -> Real {
    (match asked {
        Some(t) => t,
        None => Real { bits: default },
    }).spec_clamp(Real { bits: ZERO }, Real { bits: ONE })
}

/// The threshold that a caller asked for, or the one with the bits `default`, held
/// within 0 and 1.
pub fn threshold(asked: Option<Real>, default: u64) -> (r: Real)
    ensures
        r == spec_threshold(asked, default),
{
    let t = match asked {
        Some(t) => t,
        None => Real { bits: default },
    };
    t.clamp(Real { bits: ZERO }, Real { bits: ONE })
}

/// Bits without a sign compare as the reals they stand for, a sign turns the order round,
/// the two zeros are the same, and no order holds of what is no number.
pub proof fn law_order_of_reals(a: u64, b: u64)
    requires
        a < SIGN_BIT,
        b < SIGN_BIT,
    ensures
        ({
            let x = Real { bits: a };
            let y = Real { bits: b };
            let minus_x = Real { bits: (a + SIGN_BIT) as u64 };
            let minus_y = Real { bits: (b + SIGN_BIT) as u64 };
            let numbers = a <= 0x7ff0_0000_0000_0000 && b <= 0x7ff0_0000_0000_0000;
            &&& x.spec_lt(y) <==> numbers && a < b
            &&& x.spec_ge(y) <==> numbers && a >= b
            &&& minus_x.spec_lt(minus_y) <==> numbers && b < a
            &&& minus_x.spec_ge(minus_y) <==> numbers && b >= a
            &&& minus_x.spec_lt(y) <==> numbers && (a > 0 || b > 0)
            &&& minus_x.spec_ge(y) <==> numbers && a == 0 && b == 0
            &&& y.spec_ge(minus_x) <==> numbers
            &&& !y.spec_lt(minus_x)
            &&& x.spec_is_finite() <==> a < 0x7ff0_0000_0000_0000
            &&& minus_x.spec_is_finite() <==> a < 0x7ff0_0000_0000_0000
            &&& x.spec_is_nan() <==> a > 0x7ff0_0000_0000_0000
            &&& minus_x.spec_is_nan() <==> a > 0x7ff0_0000_0000_0000
            &&& x.rank() == a
            &&& minus_x.rank() == -a
        }),
{
}

/// What is held within bounds lies within them, and is what it was where it lay there.
pub proof fn law_clamped_within_bounds(x: Real, low: Real, high: Real)
    requires
        !low.spec_is_nan(),
        !high.spec_is_nan(),
        low.rank() <= high.rank(),
    ensures
        x.spec_is_nan() ==> x.spec_clamp(low, high) == x,
        !x.spec_is_nan() ==> low.rank() <= x.spec_clamp(low, high).rank() <= high.rank(),
        low.rank() <= x.rank() <= high.rank() ==> x.spec_clamp(low, high) == x,
        !x.spec_is_nan() && x.rank() < low.rank() ==> x.spec_clamp(low, high) == low,
        !x.spec_is_nan() && x.rank() > high.rank() ==> x.spec_clamp(low, high) == high,
{
}

/// A threshold between 0 and 1 is taken as it was asked for, one below is taken for 0 and
/// one above for 1, and the default is taken exactly where none was asked for.
pub proof fn law_thresholds(asked: Real, default: u64)
    requires
        default <= 0x3ff0_0000_0000_0000,
    ensures
        spec_threshold(None, default) == (Real { bits: default }),
        0 <= asked.rank() <= 0x3ff0_0000_0000_0000 ==> spec_threshold(Some(asked), default)
            == asked,
        !asked.spec_is_nan() && asked.rank() < 0 ==> spec_threshold(Some(asked), default) == (
        Real { bits: 0 }),
        !asked.spec_is_nan() && asked.rank() > 0x3ff0_0000_0000_0000 ==> spec_threshold(
            Some(asked),
            default,
        ) == (Real { bits: 0x3ff0_0000_0000_0000 }),
{
}

/// The reals that thresholds default to are what they are named for. A real between a power
/// of two and the next has the power in its upper bits, counted from 1023 for one, and the
/// steps of 1/2^52 above it in the lower 52. Three tenths is the nearest real to 3/10: off
/// by no more than half a step, in tenths of a step.
pub proof fn law_defaults_are_what_they_are_named_for()
    ensures
        ZERO == 0,
        ONE == 1023 * 0x10_0000_0000_0000,
        HALF == 1022 * 0x10_0000_0000_0000,
        THREE_QUARTERS == 1022 * 0x10_0000_0000_0000 + 0x8_0000_0000_0000,
        ({
            let steps = THREE_TENTHS - 1021 * 0x10_0000_0000_0000 + 0x10_0000_0000_0000;
            &&& 0x10_0000_0000_0000 <= steps < 2 * 0x10_0000_0000_0000
            &&& -5 <= 10 * steps - 3 * (4 * 0x10_0000_0000_0000) <= 5
        }),
{
}

/// Whether `taken` is what becomes of a threshold: one that is asked for and lies between 0
/// and 1 is taken as it is, one below is taken for 0 and one above for 1, and where none is
/// asked for the one with the bits `default` is taken.
pub open spec fn threshold_follows(asked: Option<Real>, default: u64, taken: Real) -> bool {
    match asked {
        None => taken.bits == default,
        Some(t) => {
            &&& 0 <= t.rank() <= 0x3ff0_0000_0000_0000 ==> taken == t
            &&& !t.spec_is_nan() && t.rank() < 0 ==> taken.bits == 0
            &&& !t.spec_is_nan() && t.rank() > 0x3ff0_0000_0000_0000 ==> taken.bits
                == 0x3ff0_0000_0000_0000
        },
    }
}

/// Thresholds are taken so.
pub proof fn law_thresholds_are_taken(asked: Option<Real>, default: u64, r: Real)
    requires
        call_ensures(threshold, (asked, default), r),
        default <= 0x3ff0_0000_0000_0000,
    ensures
        threshold_follows(asked, default, r),
{
    lemma_threshold_follows(asked, default);
}

/// What is computed as a threshold is one that is taken so.
pub proof fn lemma_threshold_follows(asked: Option<Real>, default: u64)
    requires
        default <= 0x3ff0_0000_0000_0000,
    ensures
        threshold_follows(asked, default, spec_threshold(asked, default)),
{
    if asked is Some {
        law_thresholds(asked->0, default);
    } else {
        law_thresholds(Real { bits: 0 }, default);
    }
}

} // verus!
