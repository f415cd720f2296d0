//! Geometry value types: rectangles, per-edge deltas, directions, and the
//! pixel-or-percent resize dimension that outer gaps are expressed in.
//!
//! All lengths are integer pixels. Fractions and percentages use a fixed
//! denominator of `TOTAL_UNITS` (one whole = 10_000 units), so sizing
//! arithmetic is exact integer arithmetic. Coordinates are bounded by
//! `MAX_PIXELS` so that every derived-geometry computation stays well within
//! `i32` range.

use vstd::prelude::*;

verus! {

/// One whole, as a count of fixed-point units: both size fractions of tiling
/// children and the percent form of a resize dimension are expressed in
/// units of `1 / TOTAL_UNITS`.
pub const TOTAL_UNITS: u32 = 10000;

/// Upper bound on the magnitude of pixel lengths and coordinates accepted
/// from outside. Far beyond any physical display, and small enough that all
/// derived-geometry arithmetic fits `i32` with room to spare.
pub const MAX_PIXELS: i32 = 1000000;

/// An absolute pixel rectangle: position of the top-left corner plus extents.
#[derive(Clone, Copy, Debug, PartialEq, Eq, Structural)]
pub struct Rect {
    pub x: i32,
    pub y: i32,
    pub width: i32,
    pub height: i32,
}

impl Rect {
    /// Coordinates in range and extents non-negative.
    pub open spec fn wf(self) -> bool {
        &&& -MAX_PIXELS <= self.x <= MAX_PIXELS
        &&& -MAX_PIXELS <= self.y <= MAX_PIXELS
        &&& 0 <= self.width <= MAX_PIXELS
        &&& 0 <= self.height <= MAX_PIXELS
    }

    /// Decides well-formedness at run time.
    pub fn check_wf(&self) -> (b: bool)
        ensures
            b == self.wf(),
    {
        -MAX_PIXELS <= self.x && self.x <= MAX_PIXELS && -MAX_PIXELS <= self.y && self.y
            <= MAX_PIXELS && 0 <= self.width && self.width <= MAX_PIXELS && 0 <= self.height
            && self.height <= MAX_PIXELS
    }
}

/// A length that is either an absolute pixel count or a percentage of a
/// reference extent, the percentage held in units of `1 / TOTAL_UNITS`.
#[derive(Clone, Copy, Debug, PartialEq, Eq, Structural)]
pub enum ResizeDimension {
    Pixels(i32),
    Percent(u32),
}

impl ResizeDimension {
    /// Pixel counts non-negative and bounded; percentages at most one whole.
    pub open spec fn wf(self) -> bool {
        match self {
            ResizeDimension::Pixels(p) => 0 <= p <= MAX_PIXELS,
            ResizeDimension::Percent(u) => u <= TOTAL_UNITS,
        }
    }

    /// Decides well-formedness at run time.
    pub fn check_wf(&self) -> (b: bool)
        ensures
            b == self.wf(),
    {
        match self {
            ResizeDimension::Pixels(p) => 0 <= *p && *p <= MAX_PIXELS,
            ResizeDimension::Percent(u) => *u <= TOTAL_UNITS,
        }
    }

    /// The pixel count this dimension resolves to against `extent`.
    pub open spec fn spec_to_pixels(self, extent: int) -> int {
        match self {
            ResizeDimension::Pixels(p) => p as int,
            ResizeDimension::Percent(u) => extent * u / (TOTAL_UNITS as int),
        }
    }

    /// Resolves this dimension against a reference extent (a monitor width
    /// or height): a pixel count stands as it is; a percentage is taken of
    /// the extent, rounded toward zero.
    pub fn to_pixels(&self, extent: i32) -> (r: i32)
        requires
            self.wf(),
            0 <= extent <= MAX_PIXELS,
        ensures
            r as int == self.spec_to_pixels(extent as int),
            0 <= r <= MAX_PIXELS,
    {
        match self {
            ResizeDimension::Pixels(p) => *p,
            ResizeDimension::Percent(u) => {
                proof {
                    assert((extent as int) * (*u as int) <= (extent as int) * (TOTAL_UNITS as int))
                        by (nonlinear_arith)
                        requires 0 <= extent, *u <= TOTAL_UNITS;
                    vstd::arithmetic::div_mod::lemma_div_is_ordered(
                        (extent as int) * (*u as int),
                        (extent as int) * (TOTAL_UNITS as int),
                        TOTAL_UNITS as int,
                    );
                    vstd::arithmetic::div_mod::lemma_div_multiples_vanish(
                        extent as int,
                        TOTAL_UNITS as int,
                    );
                    vstd::arithmetic::div_mod::lemma_div_pos_is_pos(
                        (extent as int) * (*u as int),
                        TOTAL_UNITS as int,
                    );
                    assert(0 <= (extent as int) * (*u as int)) by (nonlinear_arith)
                        requires 0 <= extent, 0 <= *u;
                }
                ((extent as u64) * (*u as u64) / (TOTAL_UNITS as u64)) as i32
            },
        }
    }
}

/// A per-edge delta: the outer gaps of a workspace, one dimension per edge.
#[derive(Clone, Copy, Debug, PartialEq, Eq, Structural)]
pub struct RectDelta {
    pub left: ResizeDimension,
    pub right: ResizeDimension,
    pub top: ResizeDimension,
    pub bottom: ResizeDimension,
}

impl RectDelta {
    pub open spec fn wf(self) -> bool {
        self.left.wf() && self.right.wf() && self.top.wf() && self.bottom.wf()
    }

    /// Decides well-formedness at run time.
    pub fn check_wf(&self) -> (b: bool)
        ensures
            b == self.wf(),
    {
        self.left.check_wf() && self.right.check_wf() && self.top.check_wf()
            && self.bottom.check_wf()
    }

    /// A delta of four zero-pixel edges.
    pub fn zero() -> (r: RectDelta)
        ensures
            r == (RectDelta {
                left: ResizeDimension::Pixels(0),
                right: ResizeDimension::Pixels(0),
                top: ResizeDimension::Pixels(0),
                bottom: ResizeDimension::Pixels(0),
            }),
    {
        RectDelta {
            left: ResizeDimension::Pixels(0),
            right: ResizeDimension::Pixels(0),
            top: ResizeDimension::Pixels(0),
            bottom: ResizeDimension::Pixels(0),
        }
    }
}

/// A movement or focus direction.
#[derive(Clone, Copy, Debug, PartialEq, Eq, Structural)]
pub enum Direction {
    Up,
    Down,
    Left,
    Right,
}

/// The axis along which a tiling container arranges its children.
#[derive(Clone, Copy, Debug, PartialEq, Eq, Structural)]
pub enum TilingDirection {
    Horizontal,
    Vertical,
}

impl TilingDirection {
    /// The opposite axis.
    pub fn inverse(&self) -> (r: TilingDirection)
        ensures
            r == (match *self {
                TilingDirection::Horizontal => TilingDirection::Vertical,
                TilingDirection::Vertical => TilingDirection::Horizontal,
            }),
    {
        match self {
            TilingDirection::Horizontal => TilingDirection::Vertical,
            TilingDirection::Vertical => TilingDirection::Horizontal,
        }
    }
}

} // verus!
