use vstd::prelude::*;

verus! {

/// Axis-aligned bounding box over integer cell coordinates.
///
/// The box starts degenerate at the origin (all four bounds zero) rather than
/// at infinities, so the tracked extent always contains the origin cell; every
/// `include_point` call can only widen it.
#[derive(Clone, Copy, Debug, PartialEq, Eq, Structural)]
pub struct AABB {
    pub x_min: i32,
    pub x_max: i32,
    pub y_min: i32,
    pub y_max: i32,
}

impl AABB {
    /// The initial degenerate box, pinned to the origin.
    pub open spec fn origin() -> AABB {
        AABB { x_min: 0, x_max: 0, y_min: 0, y_max: 0 }
    }

    /// A box is well formed when each minimum is at most the matching maximum;
    /// boxes grown from `AABB::new` also keep the origin inside.
    pub open spec fn wf(self) -> bool {
        self.x_min <= 0 <= self.x_max && self.y_min <= 0 <= self.y_max
    }

    /// Whether the cell `(x, y)` lies inside the box.
    pub open spec fn contains(self, x: int, y: int) -> bool {
        self.x_min <= x <= self.x_max && self.y_min <= y <= self.y_max
    }

    /// The box widened just enough to contain `(x, y)`.
    pub open spec fn widened(self, x: int, y: int) -> AABB {
        AABB {
            x_min: if x < self.x_min { x as i32 } else { self.x_min },
            x_max: if x > self.x_max { x as i32 } else { self.x_max },
            y_min: if y < self.y_min { y as i32 } else { self.y_min },
            y_max: if y > self.y_max { y as i32 } else { self.y_max },
        }
    }

    pub fn new() -> (r: AABB)
        ensures
            r == AABB::origin(),
    {
        AABB { x_min: 0, x_max: 0, y_min: 0, y_max: 0 }
    }

    /// Widens each bound monotonically so that `(x, y)` lies inside the box.
    pub fn include_point(&mut self, x: i32, y: i32)
        ensures
            *final(self) == old(self).widened(x as int, y as int),
    {
        if x < self.x_min {
            self.x_min = x;
        }
        if x > self.x_max {
            self.x_max = x;
        }
        if y < self.y_min {
            self.y_min = y;
        }
        if y > self.y_max {
            self.y_max = y;
        }
    }

    /// Widening never shrinks a bound: the minima are non-increasing and the
    /// maxima non-decreasing across any `include_point` call, and the new
    /// point as well as everything previously inside stays inside.
    pub proof fn lemma_widened_monotone(self, x: int, y: int)
        requires
            i32::MIN <= x <= i32::MAX,
            i32::MIN <= y <= i32::MAX,
        ensures
            self.widened(x, y).x_min <= self.x_min,
            self.widened(x, y).y_min <= self.y_min,
            self.widened(x, y).x_max >= self.x_max,
            self.widened(x, y).y_max >= self.y_max,
            self.widened(x, y).contains(x, y),
            forall|px: int, py: int|
                self.contains(px, py) ==> self.widened(x, y).contains(px, py),
            self.wf() ==> self.widened(x, y).wf(),
    {
    }
}

} // verus!
