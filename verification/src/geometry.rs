//! integer pixel geometry

use vstd::prelude::*;

verus! {

/// a rectangle of physical pixels
#[derive(Clone, Copy, Debug, Default, PartialEq, Eq, Hash, Structural)]
pub struct PhysicalRect {
    pub x: i32,
    pub y: i32,
    pub width: i32,
    pub height: i32,
}

/// a size in physical pixels
#[derive(Clone, Copy, Debug, Default, PartialEq, Eq, Hash, Structural)]
pub struct PhysicalSize {
    pub width: i32,
    pub height: i32,
}

/// clamps a mathematical integer into the range of `i32`
pub open spec fn clamp_i32(value: int) -> i32 {
    if value > i32::MAX {
        i32::MAX
    } else if value < i32::MIN {
        i32::MIN
    } else {
        value as i32
    }
}

impl PhysicalRect {
    /// the first column right of the rectangle
    pub open spec fn right(self) -> int {
        self.x + self.width
    }

    /// the first row below the rectangle
    pub open spec fn bottom(self) -> int {
        self.y + self.height
    }

    /// covers at least one pixel
    pub open spec fn is_nonempty(self) -> bool {
        self.width > 0 && self.height > 0
    }

    /// lies in the non-negative quadrant with edges that `i32` can hold
    pub open spec fn is_representable(self) -> bool {
        &&& self.x >= 0
        &&& self.y >= 0
        &&& self.width >= 0
        &&& self.height >= 0
        &&& self.right() <= i32::MAX
        &&& self.bottom() <= i32::MAX
    }

    /// every pixel of `other` lies in `self`
    pub open spec fn encloses(self, other: PhysicalRect) -> bool {
        &&& self.x <= other.x
        &&& self.y <= other.y
        &&& other.right() <= self.right()
        &&& other.bottom() <= self.bottom()
    }

    /// the smallest rectangle enclosing both, with extents saturated to `i32`
    pub open spec fn union_spec(self, other: PhysicalRect) -> PhysicalRect {
        let x = if self.x <= other.x { self.x } else { other.x };
        let y = if self.y <= other.y { self.y } else { other.y };
        let right = if self.right() >= other.right() { self.right() } else { other.right() };
        let bottom = if self.bottom() >= other.bottom() { self.bottom() } else { other.bottom() };
        PhysicalRect { x, y, width: clamp_i32(right - x), height: clamp_i32(bottom - y) }
    }

    /// the smallest rectangle enclosing both
    ///
    /// extents that do not fit in `i32` saturate
    pub fn union(self, other: PhysicalRect) -> (result: PhysicalRect)
        ensures
            result == self.union_spec(other),
    {
        let x = if self.x <= other.x { self.x } else { other.x };
        let y = if self.y <= other.y { self.y } else { other.y };
        let self_right = self.x as i64 + self.width as i64;
        let other_right = other.x as i64 + other.width as i64;
        let self_bottom = self.y as i64 + self.height as i64;
        let other_bottom = other.y as i64 + other.height as i64;
        let right = if self_right >= other_right { self_right } else { other_right };
        let bottom = if self_bottom >= other_bottom { self_bottom } else { other_bottom };
        PhysicalRect { x, y, width: saturate_i32(right - x as i64), height: saturate_i32(bottom - y as i64) }
    }
}

fn saturate_i32(value: i64) -> (result: i32)
    ensures
        result == clamp_i32(value as int),
{
    if value > i32::MAX as i64 {
        i32::MAX
    } else if value < i32::MIN as i64 {
        i32::MIN
    } else {
        value as i32
    }
}

/// the union of representable rectangles is representable and encloses both
pub proof fn lemma_union_encloses(a: PhysicalRect, b: PhysicalRect)
    requires
        a.is_representable(),
        b.is_representable(),
    ensures
        a.union_spec(b).is_representable(),
        a.union_spec(b).encloses(a),
        a.union_spec(b).encloses(b),
{
}

/// enclosure is transitive
pub proof fn lemma_encloses_transitive(a: PhysicalRect, b: PhysicalRect, c: PhysicalRect)
    requires
        a.encloses(b),
        b.encloses(c),
    ensures
        a.encloses(c),
{
}

} // verus!
