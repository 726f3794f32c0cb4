//! Double-precision numbers, carried by their bit patterns.
//!
//! The library computes no coordinates and no distances. It holds those that
//! others computed, and compares them as IEEE 754 does: the sign is the highest
//! bit, the rest is a magnitude that grows with the number, a magnitude beyond
//! that of infinity is not a number, and the two zeros are equal.

use vstd::prelude::*;

verus! {

/// The bit pattern of negative zero: the sign bit alone.
pub const SIGN: u64 = 0x8000_0000_0000_0000;

/// The bit pattern of positive infinity.
pub const INFINITY_BITS: u64 = 0x7ff0_0000_0000_0000;

/// A double-precision number. Equality is that of the bit patterns.
#[derive(Clone, Copy, Debug, PartialEq, Eq, Structural)]
pub struct Binary64 {
    pub bits: u64,
}

impl Binary64 {
    /// The bits below the sign bit.
    pub open spec fn magnitude(self) -> int {
        if self.bits >= SIGN {
            self.bits - SIGN
        } else {
            self.bits as int
        }
    }

    /// Whether this is not a number.
    pub open spec fn nan(self) -> bool {
        self.magnitude() > INFINITY_BITS
    }

    /// The place of a number in the order of the numbers.
    pub open spec fn rank(self) -> int {
        if self.bits >= SIGN {
            -self.magnitude()
        } else {
            self.magnitude()
        }
    }

    /// Whether `self < other`.
    pub open spec fn below(self, other: Binary64) -> bool {
        !self.nan() && !other.nan() && self.rank() < other.rank()
    }

    /// Whether `self <= other`.
    pub open spec fn at_most(self, other: Binary64) -> bool {
        !self.nan() && !other.nan() && self.rank() <= other.rank()
    }

    /// The larger of two numbers, and the one that is a number where only one is.
    pub open spec fn larger(self, other: Binary64) -> Binary64 {
        if self.nan() || self.below(other) {
            other
        } else {
            self
        }
    }

    /// The number of the range from `low` to `high` that is nearest to this one;
    /// not a number where this is not one.
    pub open spec fn clamped(self, low: Binary64, high: Binary64) -> Binary64 {
        if self.below(low) {
            low
        } else if high.below(self) {
            high
        } else {
            self
        }
    }

    /// Whether this is not a number.
    pub fn is_nan(self) -> (yes: bool)
        ensures
            yes == self.nan(),
    {
        let magnitude: u64 = if self.bits >= SIGN {
            self.bits - SIGN
        } else {
            self.bits
        };
        magnitude > INFINITY_BITS
    }

    /// Whether `self < other`.
    pub fn lt(self, other: Binary64) -> (yes: bool)
        ensures
            yes == self.below(other),
    {
        if self.is_nan() || other.is_nan() {
            false
        } else if self.bits >= SIGN {
            if other.bits >= SIGN {
                other.bits < self.bits
            } else {
                self.bits > SIGN || other.bits > 0
            }
        } else {
            other.bits < SIGN && self.bits < other.bits
        }
    }

    /// The larger of two numbers, and the one that is a number where only one is.
    pub fn max(self, other: Binary64) -> (r: Binary64)
        ensures
            r == self.larger(other),
    {
        if self.is_nan() || self.lt(other) {
            other
        } else {
            self
        }
    }

    /// The number of the range from `low` to `high` that is nearest to this one.
    pub fn clamp(self, low: Binary64, high: Binary64) -> (r: Binary64)
        ensures
            r == self.clamped(low, high),
    {
        if self.lt(low) {
            low
        } else if high.lt(self) {
            high
        } else {
            self
        }
    }
}

/// The order of numbers is strict and, of two numbers of different rank, puts
/// one before the other.
pub proof fn order_is_strict_and_total(a: Binary64, b: Binary64, c: Binary64)
    ensures
        !a.below(a),
        a.below(b) ==> !b.below(a),
        a.below(b) && b.below(c) ==> a.below(c),
        !a.nan() && !b.nan() && a.rank() != b.rank() ==> a.below(b) || b.below(a),
{
}

/// Clamping a number to a range gives a number of the range.
pub proof fn clamped_is_in_range(a: Binary64, low: Binary64, high: Binary64)
    requires
        !a.nan(),
        !low.nan(),
        !high.nan(),
        !high.below(low),
    ensures
        !a.clamped(low, high).below(low),
        !high.below(a.clamped(low, high)),
{
}

/// Whether `a` comes before `b`, upwards or downwards.
pub open spec fn ahead(a: Binary64, b: Binary64, upwards: bool) -> bool {
    if upwards {
        a.below(b)
    } else {
        b.below(a)
    }
}

/// Whether `at` is the position of the first of the `values` that are ahead of
/// `start` and that no other value is ahead of.
pub open spec fn first_extreme(
    values: Seq<Binary64>,
    start: Binary64,
    upwards: bool,
    at: int,
) -> bool {
    &&& 0 <= at < values.len()
    &&& ahead(values[at], start, upwards)
    &&& forall|j: int|
        0 <= j < values.len() ==> !ahead(#[trigger] values[j], values[at], upwards)
    &&& forall|j: int|
        0 <= j < at ==> ahead(values[at], #[trigger] values[j], upwards) || values[j].nan()
}

/// Whether none of the `values` is ahead of `start`.
pub open spec fn none_ahead(values: Seq<Binary64>, start: Binary64, upwards: bool) -> bool {
    forall|j: int| 0 <= j < values.len() ==> !ahead(#[trigger] values[j], start, upwards)
}

/// The position of the first least (upwards) or greatest (downwards) of those
/// `values` that are ahead of `start`.
pub fn extreme(values: &[Binary64], start: Binary64, upwards: bool) -> (at: Option<usize>)
    ensures
        match at {
            Some(i) => first_extreme(values@, start, upwards, i as int),
            None => none_ahead(values@, start, upwards),
        },
{
    let mut best: Binary64 = start;
    let mut at: Option<usize> = None;
    let mut i: usize = 0;
    while i < values.len()
        invariant
            i <= values@.len(),
            match at {
                Some(k) => first_extreme(values@.take(i as int), start, upwards, k as int) && best
                    == values@[k as int],
                None => best == start && none_ahead(values@.take(i as int), start, upwards),
            },
        decreases values@.len() - i,
    {
        let v: Binary64 = values[i];
        let better: bool = if upwards {
            v.lt(best)
        } else {
            best.lt(v)
        };
        let ghost seen = values@.take(i as int);
        let ghost more = values@.take(i + 1);
        proof {
            assert(forall|j: int| 0 <= j < i ==> #[trigger] more[j] == seen[j]);
        }
        if better {
            best = v;
            at = Some(i);
            proof {
                assert forall|j: int| 0 <= j < more.len() implies !ahead(
                    #[trigger] more[j],
                    more[i as int],
                    upwards,
                ) by {
                    if j < i {
                        assert(more[j] == seen[j]);
                    }
                }
                assert forall|j: int| 0 <= j < i implies ahead(
                    more[i as int],
                    #[trigger] more[j],
                    upwards,
                ) || more[j].nan() by {
                    assert(more[j] == seen[j]);
                }
            }
        }
        i += 1;
    }
    assert(values@.take(i as int) == values@);
    at
}

} // verus!
