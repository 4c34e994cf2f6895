//! Lengths and rectangles in page space.
//!
//! A length is a whole number of thousandths of a point. Decisions
//! (orderings, tolerances) are taken on exact differences; a difference or
//! a sum that is stored saturates at the ends of the 64-bit range.

use vstd::prelude::*;

verus! {

/// Thousandths of a point that make up one point.
pub const UNITS_PER_POINT: i64 = 1000;

/// Two edges nearer to each other than this count as aligned: two points.
pub const ALIGNMENT_THRESHOLD: i64 = 2000;

/// The value in the 64-bit range that lies nearest to `x`.
pub open spec fn saturate(x: int) -> i64 {
    if x < i64::MIN {
        i64::MIN
    } else if x > i64::MAX {
        i64::MAX
    } else {
        x as i64
    }
}

/// Whether `x` and `y` lie within the alignment tolerance of each other.
pub open spec fn near(x: int, y: int) -> bool {
    -(ALIGNMENT_THRESHOLD as int) < x - y < ALIGNMENT_THRESHOLD as int
}

/// A length in page space, in thousandths of a point.
#[derive(Clone, Copy, Debug, PartialEq, Eq, Structural)]
pub struct PdfPoints {
    pub value: i64,
}

impl PdfPoints {
    /// The length of `value` thousandths of a point.
    pub fn new(value: i64) -> (points: PdfPoints)
        ensures
            points.value == value,
    {
        PdfPoints { value }
    }

    /// The length of `points` whole points.
    pub fn from_points(points: i32) -> (length: PdfPoints)
        ensures
            length.value == points * UNITS_PER_POINT,
    {
        let wide: i64 = points as i64;
        PdfPoints { value: wide * UNITS_PER_POINT }
    }

    /// The length zero.
    pub fn zero() -> (points: PdfPoints)
        ensures
            points.value == 0,
    {
        PdfPoints { value: 0 }
    }

    /// `self - other`, saturated.
    pub open spec fn spec_minus(self, other: PdfPoints) -> PdfPoints {
        PdfPoints { value: saturate(self.value - other.value) }
    }

    /// `self + other`, saturated.
    pub open spec fn spec_plus(self, other: PdfPoints) -> PdfPoints {
        PdfPoints { value: saturate(self.value + other.value) }
    }

    /// The larger of the two lengths.
    pub open spec fn spec_max(self, other: PdfPoints) -> PdfPoints {
        if self.value >= other.value {
            self
        } else {
            other
        }
    }

    /// The smaller of the two lengths.
    pub open spec fn spec_min(self, other: PdfPoints) -> PdfPoints {
        if self.value <= other.value {
            self
        } else {
            other
        }
    }

    /// The difference `self - other`; it saturates where the exact
    /// difference leaves the 64-bit range.
    pub fn minus(self, other: PdfPoints) -> (difference: PdfPoints)
        ensures
            difference == self.spec_minus(other),
    {
        match self.value.checked_sub(other.value) {
            Some(value) => PdfPoints { value },
            None => if other.value > 0 {
                PdfPoints { value: i64::MIN }
            } else {
                PdfPoints { value: i64::MAX }
            },
        }
    }

    /// The sum `self + other`; it saturates where the exact sum leaves the
    /// 64-bit range.
    pub fn plus(self, other: PdfPoints) -> (sum: PdfPoints)
        ensures
            sum == self.spec_plus(other),
    {
        match self.value.checked_add(other.value) {
            Some(value) => PdfPoints { value },
            None => if other.value > 0 {
                PdfPoints { value: i64::MAX }
            } else {
                PdfPoints { value: i64::MIN }
            },
        }
    }

    /// The larger of the two lengths.
    pub fn max(self, other: PdfPoints) -> (larger: PdfPoints)
        ensures
            larger == self.spec_max(other),
    {
        if self.value >= other.value {
            self
        } else {
            other
        }
    }

    /// The smaller of the two lengths.
    pub fn min(self, other: PdfPoints) -> (smaller: PdfPoints)
        ensures
            smaller == self.spec_min(other),
    {
        if self.value <= other.value {
            self
        } else {
            other
        }
    }

    /// Whether the two lengths differ by less than the alignment
    /// tolerance. The difference is taken exactly.
    pub fn is_near(self, other: PdfPoints) -> (aligned: bool)
        ensures
            aligned == near(self.value as int, other.value as int),
    {
        let difference: i128 = self.value as i128 - other.value as i128;
        -(ALIGNMENT_THRESHOLD as i128) < difference && difference < ALIGNMENT_THRESHOLD as i128
    }
}

/// An axis-aligned rectangle in page space.
#[derive(Clone, Copy, Debug, PartialEq, Eq, Structural)]
pub struct PdfRect {
    pub left: PdfPoints,
    pub bottom: PdfPoints,
    pub right: PdfPoints,
    pub top: PdfPoints,
}

impl PdfRect {
    /// The rectangle with the given edges.
    pub fn new(left: PdfPoints, bottom: PdfPoints, right: PdfPoints, top: PdfPoints) -> (rect:
        PdfRect)
        ensures
            rect == (PdfRect { left, bottom, right, top }),
    {
        PdfRect { left, bottom, right, top }
    }

    /// The rectangle whose four edges are zero.
    pub fn zero() -> (rect: PdfRect)
        ensures
            rect == PdfRect::spec_zero(),
    {
        PdfRect {
            left: PdfPoints::zero(),
            bottom: PdfPoints::zero(),
            right: PdfPoints::zero(),
            top: PdfPoints::zero(),
        }
    }

    /// The rectangle whose four edges are zero.
    pub open spec fn spec_zero() -> PdfRect {
        PdfRect {
            left: PdfPoints { value: 0 },
            bottom: PdfPoints { value: 0 },
            right: PdfPoints { value: 0 },
            top: PdfPoints { value: 0 },
        }
    }

    /// `right - left`, saturated.
    pub open spec fn spec_width(self) -> PdfPoints {
        self.right.spec_minus(self.left)
    }

    /// `top - bottom`, saturated.
    pub open spec fn spec_height(self) -> PdfPoints {
        self.top.spec_minus(self.bottom)
    }

    /// The rectangle's width, `right - left`.
    pub fn width(&self) -> (width: PdfPoints)
        ensures
            width == self.spec_width(),
    {
        self.right.minus(self.left)
    }

    /// The rectangle's height, `top - bottom`.
    pub fn height(&self) -> (height: PdfPoints)
        ensures
            height == self.spec_height(),
    {
        self.top.minus(self.bottom)
    }
}

} // verus!
