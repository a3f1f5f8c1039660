use vstd::prelude::*;

verus! {

/// Size of an image or of a crop, in pixels.
#[derive(Debug, Clone, Copy, PartialEq, Eq, Structural)]
pub struct RectSize {
    pub width: usize,
    pub height: usize,
}

/// A pixel position with non-negative coordinates.
#[derive(Debug, Clone, Copy, PartialEq, Eq, Structural)]
pub struct SuPoint {
    pub x: usize,
    pub y: usize,
}

impl RectSize {
    pub fn new(width: usize, height: usize) -> (r: Self)
        ensures
            r.width == width,
            r.height == height,
    {
        RectSize { width, height }
    }

    /// The size as a pair of `i32`, each dimension cast with `as i32`.
    pub fn destructure(&self) -> (r: (i32, i32))
        ensures
            r.0 == self.width as i32,
            r.1 == self.height as i32,
    {
        (self.width as i32, self.height as i32)
    }
}

/// One coordinate of a contour point, held as the integer facts that the
/// contour logic reads of it: its floor (saturated to the range of `i128`) and
/// whether it has a fractional part. Coordinates are finite numbers or
/// infinities; a value that is not a number has no representation.
#[derive(Debug, Clone, Copy, PartialEq, Eq, Structural)]
pub struct Coord {
    pub floor: i128,
    pub fractional: bool,
}

/// A contour point in image coordinates.
#[derive(Debug, Clone, Copy, PartialEq, Eq, Structural)]
pub struct SuPoint2F {
    pub x: Coord,
    pub y: Coord,
}

/// A labelled polygon: `outer_<n>` bounds group `n`; other names mark
/// contours inside group `n`.
pub struct Contour {
    pub label: String,
    pub points: Vec<SuPoint2F>,
}

/// The contours of one group, in the coordinates of its crop.
pub struct ContourGroup {
    pub idx: usize,
    pub outer: Contour,
    pub outer_center: SuPoint2F,
    pub inners: Vec<Contour>,
}

/// A group of contours together with the rectangle of the image it covers.
pub struct ContourCrop {
    pub offset: SuPoint,
    pub size: RectSize,
    pub contour_group: ContourGroup,
}

/// The contours of an image together with its size.
pub struct RawImage {
    pub size: RectSize,
    pub contours: Vec<Contour>,
}

pub open spec fn clamp(v: int, lo: int, hi: int) -> int {
    if v < lo {
        lo
    } else if v > hi {
        hi
    } else {
        v
    }
}

impl Coord {
    /// The coordinate rounded toward zero.
    pub open spec fn trunc(self) -> int {
        if self.fractional && self.floor < 0 {
            self.floor + 1
        } else {
            self.floor as int
        }
    }

    /// The coordinate cast with `as i32`: rounded toward zero and saturated.
    pub open spec fn spec_to_i32(self) -> int {
        clamp(self.trunc(), i32::MIN as int, i32::MAX as int)
    }

    /// The coordinate cast with `as usize`: rounded toward zero and saturated.
    pub open spec fn spec_to_usize(self) -> int {
        clamp(self.trunc(), 0, usize::MAX as int)
    }

    /// `coordinate >= 0.0`
    pub open spec fn is_non_negative(self) -> bool {
        self.floor >= 0
    }

    /// `coordinate < bound` for a whole number `bound`.
    pub open spec fn is_below(self, bound: int) -> bool {
        self.floor < bound
    }

    /// A whole coordinate.
    pub fn whole(v: i32) -> (r: Coord)
        ensures
            r.floor == v,
            !r.fractional,
            r.trunc() == v,
    {
        Coord { floor: v as i128, fractional: false }
    }

    /// The coordinate cast with `as i32`.
    pub fn to_i32(&self) -> (r: i32)
        ensures
            r == self.spec_to_i32(),
    {
        let t: i128 = if self.fractional && self.floor < 0 { self.floor + 1 } else { self.floor };
        if t < i32::MIN as i128 {
            i32::MIN
        } else if t > i32::MAX as i128 {
            i32::MAX
        } else {
            t as i32
        }
    }

    /// The coordinate cast with `as usize`.
    pub fn to_usize(&self) -> (r: usize)
        ensures
            r == self.spec_to_usize(),
    {
        let t: i128 = if self.fractional && self.floor < 0 { self.floor + 1 } else { self.floor };
        if t < 0 {
            0
        } else if t > usize::MAX as i128 {
            usize::MAX
        } else {
            t as usize
        }
    }
}

impl SuPoint2F {
    /// The point with whole coordinates `x` and `y`.
    pub fn new(x: i32, y: i32) -> (r: Self)
        ensures
            r.x.floor == x && !r.x.fractional,
            r.y.floor == y && !r.y.fractional,
    {
        SuPoint2F { x: Coord::whole(x), y: Coord::whole(y) }
    }
}

} // verus!
