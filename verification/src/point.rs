use vstd::prelude::*;

verus! {

/// An immutable pair of signed coordinates.  A `Point` serves both as the
/// position of a cell on the unbounded grid and as a displacement vector for
/// scroll and bounds arithmetic.  Its mathematical view is a pair of
/// unbounded integers.
#[derive(Clone, Copy, Debug, PartialEq, Eq, Hash, PartialOrd, Ord, Structural)]
pub struct Point(pub i64, pub i64);

impl View for Point {
    type V = (int, int);

    open spec fn view(&self) -> (int, int) {
        (self.0 as int, self.1 as int)
    }
}

impl Point {
    /// The zero point.
    pub fn origin() -> (r: Point)
        ensures
            r@ == (0int, 0int),
    {
        Point(0, 0)
    }

    /// Componentwise vector addition.
    pub fn plus(self, other: Point) -> (r: Point)
        requires
            i64::MIN <= self.0 + other.0 <= i64::MAX,
            i64::MIN <= self.1 + other.1 <= i64::MAX,
        ensures
            r@ == (self.0 + other.0, self.1 + other.1),
    {
        Point(self.0 + other.0, self.1 + other.1)
    }

    /// Componentwise vector subtraction.
    pub fn minus(self, other: Point) -> (r: Point)
        requires
            i64::MIN <= self.0 - other.0 <= i64::MAX,
            i64::MIN <= self.1 - other.1 <= i64::MAX,
        ensures
            r@ == (self.0 - other.0, self.1 - other.1),
    {
        Point(self.0 - other.0, self.1 - other.1)
    }
}

} // verus!
