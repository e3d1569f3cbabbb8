//! Boxes and rectangles in unsigned device units.

use vstd::prelude::*;

verus! {

/// An axis-aligned box given by its two corners, in unsigned device units.
///
/// `x1 <= x2` and `y1 <= y2` are expected but not enforced.
#[derive(Clone, Copy, Debug, PartialEq, Eq, Structural)]
pub struct Box2d {
    pub x1: u32,
    pub y1: u32,
    pub x2: u32,
    pub y2: u32,
}

/// How a box lies relative to a dirty rectangle.
#[derive(Clone, Copy, Debug, PartialEq, Eq, Structural)]
pub enum Placement {
    /// Every edge lies inside the dirty rectangle or on its border.
    Contained,
    /// The box crosses the border of the dirty rectangle.
    Overlapping,
    /// The box shares no interior point with the dirty rectangle.
    Outside,
}

impl Box2d {
    /// All four edges of `self` lie inside `other` or on its border.
    pub open spec fn spec_contained_by(&self, other: &Box2d) -> bool {
        &&& self.x1 >= other.x1
        &&& self.x2 <= other.x2
        &&& self.y1 >= other.y1
        &&& self.y2 <= other.y2
    }

    /// The open intervals of `self` and `other` meet on both axes.
    pub open spec fn spec_intersects(&self, other: &Box2d) -> bool {
        &&& self.x1 < other.x2
        &&& self.x2 > other.x1
        &&& self.y1 < other.y2
        &&& self.y2 > other.y1
    }

    /// `self` meets `other` without lying inside it.
    pub open spec fn spec_overlaps(&self, other: &Box2d) -> bool {
        self.spec_intersects(other) && !self.spec_contained_by(other)
    }

    /// The class of `self` with respect to the dirty rectangle `dirty`.
    pub open spec fn spec_placement(&self, dirty: &Box2d) -> Placement {
        if self.spec_contained_by(dirty) {
            Placement::Contained
        } else if self.spec_intersects(dirty) {
            Placement::Overlapping
        } else {
            Placement::Outside
        }
    }

    #[verifier::when_used_as_spec(spec_contained_by)]
    pub fn contained_by(&self, other: &Box2d) -> (r: bool)
        ensures
            r == self.spec_contained_by(other),
    {
        self.x1 >= other.x1 && self.x2 <= other.x2 && self.y1 >= other.y1 && self.y2 <= other.y2
    }

    #[verifier::when_used_as_spec(spec_intersects)]
    pub fn intersects(&self, other: &Box2d) -> (r: bool)
        ensures
            r == self.spec_intersects(other),
    {
        self.x1 < other.x2 && self.x2 > other.x1 && self.y1 < other.y2 && self.y2 > other.y1
    }

    #[verifier::when_used_as_spec(spec_overlaps)]
    pub fn overlaps(&self, other: &Box2d) -> (r: bool)
        ensures
            r == self.spec_overlaps(other),
    {
        self.intersects(other) && !self.contained_by(other)
    }

    /// Classifies `self` against the dirty rectangle `dirty`.
    #[verifier::when_used_as_spec(spec_placement)]
    pub fn placement(&self, dirty: &Box2d) -> (p: Placement)
        ensures
            p == self.spec_placement(dirty),
    {
        if self.contained_by(dirty) {
            Placement::Contained
        } else if self.overlaps(dirty) {
            Placement::Overlapping
        } else {
            Placement::Outside
        }
    }
}

/// A point in unsigned device units.
#[derive(Clone, Copy, Debug, PartialEq, Eq, Structural)]
pub struct DeviceUintPoint {
    pub x: u32,
    pub y: u32,
}

/// A size in unsigned device units.
#[derive(Clone, Copy, Debug, PartialEq, Eq, Structural)]
pub struct DeviceUintSize {
    pub width: u32,
    pub height: u32,
}

/// A rectangle in unsigned device units, given by its origin and its size.
#[derive(Clone, Copy, Debug, PartialEq, Eq, Structural)]
pub struct DeviceUintRect {
    pub origin: DeviceUintPoint,
    pub size: DeviceUintSize,
}

impl DeviceUintPoint {
    pub fn new(x: u32, y: u32) -> (p: DeviceUintPoint)
        ensures
            p == (DeviceUintPoint { x, y }),
    {
        DeviceUintPoint { x, y }
    }
}

impl DeviceUintSize {
    pub fn new(width: u32, height: u32) -> (s: DeviceUintSize)
        ensures
            s == (DeviceUintSize { width, height }),
    {
        DeviceUintSize { width, height }
    }
}

impl DeviceUintRect {
    /// The far edges `origin + size` are representable in device units.
    pub open spec fn representable(&self) -> bool {
        &&& self.origin.x + self.size.width <= u32::MAX
        &&& self.origin.y + self.size.height <= u32::MAX
    }

    /// The box from the origin to the far corner `origin + size`.
    pub open spec fn spec_to_box(&self) -> Box2d
        recommends
            self.representable(),
    {
        Box2d {
            x1: self.origin.x,
            y1: self.origin.y,
            x2: (self.origin.x + self.size.width) as u32,
            y2: (self.origin.y + self.size.height) as u32,
        }
    }

    pub fn new(origin: DeviceUintPoint, size: DeviceUintSize) -> (r: DeviceUintRect)
        ensures
            r == (DeviceUintRect { origin, size }),
    {
        DeviceUintRect { origin, size }
    }

    pub fn min_x(&self) -> (x: u32)
        ensures
            x == self.origin.x,
    {
        self.origin.x
    }

    pub fn min_y(&self) -> (y: u32)
        ensures
            y == self.origin.y,
    {
        self.origin.y
    }

    pub fn max_x(&self) -> (x: u32)
        requires
            self.origin.x + self.size.width <= u32::MAX,
        ensures
            x == self.origin.x + self.size.width,
    {
        self.origin.x + self.size.width
    }

    pub fn max_y(&self) -> (y: u32)
        requires
            self.origin.y + self.size.height <= u32::MAX,
        ensures
            y == self.origin.y + self.size.height,
    {
        self.origin.y + self.size.height
    }

    /// The rectangle as a box, or `None` when a far edge is not representable.
    pub fn to_box(&self) -> (b: Option<Box2d>)
        ensures
            b == if self.representable() {
                Some(self.spec_to_box())
            } else {
                None
            },
    {
        if self.size.width > u32::MAX - self.origin.x || self.size.height > u32::MAX
            - self.origin.y {
            return None;
        }
        Some(Box2d { x1: self.min_x(), y1: self.min_y(), x2: self.max_x(), y2: self.max_y() })
    }
}

} // verus!
