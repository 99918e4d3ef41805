//! Axis-aligned pixel rectangles.

use vstd::prelude::*;

verus! {

/// An axis-aligned rectangle in pixel coordinates.
///
/// A rectangle that stands for an area has `width > 0` and `height > 0`; the
/// empty area is the absence of a rectangle, not a rectangle of size zero.
#[derive(Debug, Copy, Clone, PartialEq, Eq, Structural)]
pub struct Rect {
    pub x: u32,
    pub y: u32,
    pub width: u32,
    pub height: u32,
}

/// `a + b`, held at `u32::MAX`.
pub open spec fn saturating_sum(a: u32, b: u32) -> u32 {
    if a + b > u32::MAX {
        u32::MAX
    } else {
        (a + b) as u32
    }
}

/// The smaller of the two.

pub open spec fn spec_min(a: u32, b: u32) -> u32 {
    if a <= b {
        a
    } else {
        b
    }
}

/// The larger of the two.

pub open spec fn spec_max(a: u32, b: u32) -> u32 {
    if a >= b {
        a
    } else {
        b
    }
}

fn min_u32(a: u32, b: u32) -> (m: u32)
    ensures
        m == spec_min(a, b),
{
    if a <= b {
        a
    } else {
        b
    }
}

fn max_u32(a: u32, b: u32) -> (m: u32)
    ensures
        m == spec_max(a, b),
{
    if a >= b {
        a
    } else {
        b
    }
}

impl Rect {
    /// Both extents are positive.
    pub open spec fn is_area(self) -> bool {
        self.width > 0 && self.height > 0
    }

    /// The right and bottom edges are representable, so that no edge saturates.
    pub open spec fn fits(self) -> bool {
        self.x + self.width <= u32::MAX && self.y + self.height <= u32::MAX
    }

    /// The right edge, exclusive, held at `u32::MAX`.
    pub open spec fn spec_right(self) -> u32 {
        saturating_sum(self.x, self.width)
    }

    /// The bottom edge, exclusive, held at `u32::MAX`.
    pub open spec fn spec_bottom(self) -> u32 {
        saturating_sum(self.y, self.height)
    }

    /// The pixel `(px, py)` lies inside the rectangle.
    pub open spec fn contains(self, px: int, py: int) -> bool {
        self.x <= px < self.x + self.width && self.y <= py < self.y + self.height
    }

    /// Every pixel of `inner` lies inside the rectangle.
    pub open spec fn covers(self, inner: Rect) -> bool {
        self.x <= inner.x && inner.x + inner.width <= self.x + self.width && self.y <= inner.y
            && inner.y + inner.height <= self.y + self.height
    }

    /// The rectangle lies inside `[0, width) x [0, height)`.
    pub open spec fn within(self, width: u32, height: u32) -> bool {
        self.x + self.width <= width && self.y + self.height <= height
    }

    /// The bounding rectangle of the two, edges held at `u32::MAX`, never
    /// smaller than one pixel.
    pub open spec fn spec_union(self, other: Rect) -> Rect {
        let x0 = spec_min(self.x, other.x);
        let y0 = spec_min(self.y, other.y);
        let x1 = spec_max(self.spec_right(), other.spec_right());
        let y1 = spec_max(self.spec_bottom(), other.spec_bottom());
        Rect {
            x: x0,
            y: y0,
            width: spec_max((x1 - x0) as u32, 1),
            height: spec_max((y1 - y0) as u32, 1),
        }
    }

    /// The part of the rectangle inside `[0, width) x [0, height)`, where the
    /// rectangle is an area whose origin lies in those bounds.
    pub open spec fn spec_clamp_to(self, width: u32, height: u32) -> Option<Rect> {
        if self.x < width && self.y < height && self.is_area() {
            Some(
                Rect {
                    x: self.x,
                    y: self.y,
                    width: (spec_min(self.spec_right(), width) - self.x) as u32,
                    height: (spec_min(self.spec_bottom(), height) - self.y) as u32,
                },
            )
        } else {
            None
        }
    }

    /// A rectangle of the given origin and size, or `None` where it would be
    /// empty.
    pub fn new(x: u32, y: u32, width: u32, height: u32) -> (r: Option<Rect>)
        ensures
            r == if width == 0 || height == 0 {
                None
            } else {
                Some((Rect { x, y, width, height }))
            },
    {
        if width == 0 || height == 0 {
            return None;
        }
        Some(Rect { x, y, width, height })
    }

    /// The single pixel at `(x, y)`.
    pub fn from_point(x: u32, y: u32) -> (r: Rect)
        ensures
            r == (Rect { x, y, width: 1, height: 1 }),
    {
        Rect { x, y, width: 1, height: 1 }
    }

    /// The right edge, exclusive, held at `u32::MAX`.

    pub fn right(self) -> (r: u32)
        ensures
            r == self.spec_right(),
    {
        self.x.saturating_add(self.width)
    }

    /// The bottom edge, exclusive, held at `u32::MAX`.

    pub fn bottom(self) -> (b: u32)
        ensures
            b == self.spec_bottom(),
    {
        self.y.saturating_add(self.height)
    }

    /// The bounding rectangle of `self` and `other`.
    pub fn union(self, other: Rect) -> (u: Rect)
        ensures
            u == self.spec_union(other),
            u.is_area(),
    {
        let x0: u32 = min_u32(self.x, other.x);
        let y0: u32 = min_u32(self.y, other.y);
        let x1: u32 = max_u32(self.right(), other.right());
        let y1: u32 = max_u32(self.bottom(), other.bottom());
        Rect {
            x: x0,
            y: y0,
            width: max_u32(x1.saturating_sub(x0), 1),
            height: max_u32(y1.saturating_sub(y0), 1),
        }
    }

    /// The intersection with `[0, width) x [0, height)`, or `None` where the
    /// rectangle is empty or its origin lies outside those bounds.
    pub fn clamp_to(self, width: u32, height: u32) -> (c: Option<Rect>)
        ensures
            c == self.spec_clamp_to(width, height),
            c is Some <==> self.x < width && self.y < height && self.is_area(),
            c is Some ==> c.unwrap().is_area() && c.unwrap().within(width, height)
                && self.covers(c.unwrap()),
    {
        if width == 0 || height == 0 {
            return None;
        }
        if self.x >= width || self.y >= height {
            return None;
        }
        let right: u32 = min_u32(self.right(), width);
        let bottom: u32 = min_u32(self.bottom(), height);
        let clamped_width: u32 = right.saturating_sub(self.x);
        let clamped_height: u32 = bottom.saturating_sub(self.y);
        Rect::new(self.x, self.y, clamped_width, clamped_height)
    }
}

/// The union of two areas whose edges are representable contains both, and
/// is contained in every rectangle that contains both.
pub proof fn lemma_union_is_least_bound(a: Rect, b: Rect, c: Rect)
    requires
        a.is_area(),
        b.is_area(),
        a.fits(),
        b.fits(),
    ensures
        a.spec_union(b).covers(a),
        a.spec_union(b).covers(b),
        a.spec_union(b).fits(),
        c.covers(a) && c.covers(b) ==> c.covers(a.spec_union(b)),
{
}

/// The union does not depend on the order of its two arguments.
pub proof fn lemma_union_commutes(a: Rect, b: Rect)
    ensures
        a.spec_union(b) == b.spec_union(a),
{
}

/// A pixel lies in the clamped rectangle exactly when it lies in the
/// rectangle and in the bounds.
pub proof fn lemma_clamp_is_intersection(r: Rect, width: u32, height: u32, px: int, py: int)
    ensures
        match r.spec_clamp_to(width, height) {
            Some(c) => c.contains(px, py) <==> r.contains(px, py) && px < width && py < height,
            None => !(r.contains(px, py) && px < width && py < height),
        },
{
}

} // verus!
