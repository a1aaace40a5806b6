//! Drifting points of light and the bounding rectangle used to spot
//! the moment they condense into a message.

use vstd::prelude::*;

verus! {

/// A point of light: its starting position and its velocity per tick.
pub struct Point {
    pub pos: (i32, i32),
    pub vel: (i32, i32),
}

impl Point {
    /// Where the point is after `s` ticks.
    pub fn at_time(&self, s: i32) -> (r: (i32, i32))
        requires
            i32::MIN <= self.vel.0 * s <= i32::MAX,
            i32::MIN <= self.vel.1 * s <= i32::MAX,
            i32::MIN <= self.pos.0 + self.vel.0 * s <= i32::MAX,
            i32::MIN <= self.pos.1 + self.vel.1 * s <= i32::MAX,
        ensures
            r.0 == self.pos.0 + self.vel.0 * s,
            r.1 == self.pos.1 + self.vel.1 * s,
    {
        (self.pos.0 + self.vel.0 * s, self.pos.1 + self.vel.1 * s)
    }
}

/// The axis-aligned bounding rectangle of a set of points, kept as
/// the smallest and largest coordinates seen so far.  A fresh
/// rectangle is empty: its minimum sits above its maximum.
pub struct BoundingRect {
    pub min: (i32, i32),
    pub max: (i32, i32),
}

impl BoundingRect {
    /// The width the rectangle spans, in cells: zero span counts as
    /// one cell.
    pub open spec fn spec_width(self) -> int {
        (if self.max.0 >= self.min.0 {
            self.max.0 - self.min.0
        } else {
            0
        }) + 1
    }

    /// The height the rectangle spans, in cells.
    pub open spec fn spec_height(self) -> int {
        (if self.max.1 >= self.min.1 {
            self.max.1 - self.min.1
        } else {
            0
        }) + 1
    }

    /// An empty rectangle, to be grown point by point.
    pub fn new() -> (r: BoundingRect)
        ensures
            r.min == (i32::MAX, i32::MAX),
            r.max == (i32::MIN, i32::MIN),
    {
        BoundingRect { min: (i32::MAX, i32::MAX), max: (i32::MIN, i32::MIN) }
    }

    /// Grows the rectangle to cover `p`.
    pub fn add(&mut self, p: (i32, i32))
        ensures
            final(self).min.0 == if p.0 < old(self).min.0 {
                p.0
            } else {
                old(self).min.0
            },
            final(self).min.1 == if p.1 < old(self).min.1 {
                p.1
            } else {
                old(self).min.1
            },
            final(self).max.0 == if p.0 > old(self).max.0 {
                p.0
            } else {
                old(self).max.0
            },
            final(self).max.1 == if p.1 > old(self).max.1 {
                p.1
            } else {
                old(self).max.1
            },
    {
        if p.0 < self.min.0 {
            self.min.0 = p.0;
        }
        if p.1 < self.min.1 {
            self.min.1 = p.1;
        }
        if p.0 > self.max.0 {
            self.max.0 = p.0;
        }
        if p.1 > self.max.1 {
            self.max.1 = p.1;
        }
    }

    /// The width in cells.
    pub fn width(&self) -> (r: usize)
        requires
            i32::MIN <= self.max.0 - self.min.0 <= i32::MAX,
        ensures
            r == self.spec_width(),
    {
        let d = self.max.0 - self.min.0;
        let d = if d > 0 {
            d
        } else {
            0
        };
        d as usize + 1
    }

    /// The height in cells.
    pub fn height(&self) -> (r: usize)
        requires
            i32::MIN <= self.max.1 - self.min.1 <= i32::MAX,
        ensures
            r == self.spec_height(),
    {
        let d = self.max.1 - self.min.1;
        let d = if d > 0 {
            d
        } else {
            0
        };
        d as usize + 1
    }

    /// The number of cells the rectangle covers.
    pub fn area(&self) -> (r: usize)
        requires
            i32::MIN <= self.max.0 - self.min.0 <= i32::MAX,
            i32::MIN <= self.max.1 - self.min.1 <= i32::MAX,
            self.spec_width() * self.spec_height() <= usize::MAX,
        ensures
            r == self.spec_width() * self.spec_height(),
    {
        self.width() * self.height()
    }
}

} // verus!
