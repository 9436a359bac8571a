use vstd::prelude::*;

verus! {

/// `v` saturated to the range of `i64`, the integer stand-in for a float
/// that overflows to an infinity.
pub open spec fn saturate(v: int) -> i64 {
    if v < i64::MIN {
        i64::MIN
    } else if v > i64::MAX {
        i64::MAX
    } else {
        v as i64
    }
}

fn saturating_i64(v: i128) -> (r: i64)
    ensures
        r == saturate(v as int),
{
    if v < i64::MIN as i128 {
        i64::MIN
    } else if v > i64::MAX as i128 {
        i64::MAX
    } else {
        v as i64
    }
}

/// A closed interval `[min, max]` of fixed-point values.
/// An interval with `min > max` holds nothing; `i64::MAX` and `i64::MIN` play
/// the parts of the infinities.
#[derive(Clone, Copy, Debug, PartialEq, Eq, Structural)]
pub struct Interval {
    pub min: i64,
    pub max: i64,
}

impl Interval {
    /// The interval `[min, max]`.
    pub fn new(min: i64, max: i64) -> (r: Interval)
        ensures
            r.min == min,
            r.max == max,
    {
        Interval { min, max }
    }

    /// The empty interval `[+inf, -inf]`.
    pub open spec fn empty_value() -> Interval {
        Interval { min: i64::MAX, max: i64::MIN }
    }

    /// The empty interval: `[+inf, -inf]`.
    pub fn empty() -> (r: Interval)
        ensures
            r == Self::empty_value(),
    {
        Interval { min: i64::MAX, max: i64::MIN }
    }

    /// The interval that holds everything: `[-inf, +inf]`.
    pub fn universe() -> (r: Interval)
        ensures
            r.min == i64::MIN,
            r.max == i64::MAX,
    {
        Interval { min: i64::MIN, max: i64::MAX }
    }

    /// The smallest interval enclosing both `a` and `b`.
    pub open spec fn spec_hull(a: Interval, b: Interval) -> Interval {
        Interval {
            min: if a.min <= b.min { a.min } else { b.min },
            max: if a.max >= b.max { a.max } else { b.max },
        }
    }

    /// The interval tightly enclosing the two intervals `a` and `b`.
    pub fn from_intervals(a: Interval, b: Interval) -> (r: Interval)
        ensures
            r == Self::spec_hull(a, b),
    {
        Interval {
            min: if a.min <= b.min { a.min } else { b.min },
            max: if a.max >= b.max { a.max } else { b.max },
        }
    }

    pub open spec fn spec_size(self) -> int {
        self.max - self.min
    }

    /// `max - min`; negative for an empty interval.
    pub fn size(&self) -> (r: i128)
        ensures
            r == self.spec_size(),
    {
        self.max as i128 - self.min as i128
    }

    pub open spec fn spec_contains(self, x: int) -> bool {
        self.min <= x <= self.max
    }

    /// Whether `min <= x <= max`.
    pub fn contains(&self, x: i64) -> (r: bool)
        ensures
            r == self.spec_contains(x as int),
    {
        self.min <= x && x <= self.max
    }

    /// Whether `min < x < max`.
    pub fn surrounds(&self, x: i64) -> (r: bool)
        ensures
            r == (self.min < x < self.max),
    {
        self.min < x && x < self.max
    }

    pub open spec fn spec_expand(self, delta: int) -> Interval {
        Interval {
            min: saturate(self.min - delta / 2),
            max: saturate(self.max + delta / 2),
        }
    }

    /// The interval widened by `delta / 2` on each side (saturating).
    pub fn expand(&self, delta: i64) -> (r: Interval)
        requires
            delta >= 0,
        ensures
            r == self.spec_expand(delta as int),
    {
        let padding = delta / 2;
        Interval {
            min: saturating_i64(self.min as i128 - padding as i128),
            max: saturating_i64(self.max as i128 + padding as i128),
        }
    }

    pub open spec fn spec_shift(self, displacement: int) -> Interval {
        Interval { min: saturate(self.min + displacement), max: saturate(self.max + displacement) }
    }

    /// The interval moved by `displacement` (saturating, so that the
    /// infinities stay infinite).
    pub fn add(self, displacement: i64) -> (r: Interval)
        ensures
            r == self.spec_shift(displacement as int),
    {
        Interval {
            min: saturating_i64(self.min as i128 + displacement as i128),
            max: saturating_i64(self.max as i128 + displacement as i128),
        }
    }
}

impl Default for Interval {
    /// The default interval is empty.
    fn default() -> (r: Interval)
        ensures
            r.min == i64::MAX,
            r.max == i64::MIN,
    {
        Interval::empty()
    }
}

} // verus!

verus! {

/// The hull of two intervals encloses each of them.
pub proof fn lemma_hull_encloses(a: Interval, b: Interval)
    ensures
        Interval::spec_hull(a, b).min <= a.min,
        Interval::spec_hull(a, b).min <= b.min,
        Interval::spec_hull(a, b).max >= a.max,
        Interval::spec_hull(a, b).max >= b.max,
        Interval::spec_hull(a, b).min == a.min || Interval::spec_hull(a, b).min == b.min,
        Interval::spec_hull(a, b).max == a.max || Interval::spec_hull(a, b).max == b.max,
{
}

/// Taking the hull is commutative, associative and idempotent, and the empty
/// interval is its identity.
pub proof fn lemma_hull_algebra(a: Interval, b: Interval, c: Interval)
    ensures
        Interval::spec_hull(a, b) == Interval::spec_hull(b, a),
        Interval::spec_hull(Interval::spec_hull(a, b), c) == Interval::spec_hull(
            a,
            Interval::spec_hull(b, c),
        ),
        Interval::spec_hull(a, a) == a,
        Interval::spec_hull(Interval::empty_value(), a) == a,
{
}

/// Expanding an interval by a non-negative width keeps everything it held,
/// and, away from the ends of the `i64` range, adds `delta / 2` on each side.
pub proof fn lemma_expand_encloses(iv: Interval, delta: int, x: int)
    requires
        delta >= 0,
    ensures
        iv.spec_contains(x) ==> iv.spec_expand(delta).spec_contains(x),
        i64::MIN <= iv.min - delta / 2 && iv.max + delta / 2 <= i64::MAX ==> iv.spec_expand(
            delta,
        ).spec_size() == iv.spec_size() + 2 * (delta / 2),
{
}

} // verus!
