//! Plane geometry: points, extents, rectangles and the eight unit directions.
use vstd::prelude::*;

verus! {

/// A quadruple of values; over `i64` it is the half-open rectangle
/// `[x1, x2) x [y1, y2)`.
#[derive(Clone, Copy, Debug, PartialEq, Eq, Structural)]
pub struct Vec4<T> {
    pub x1: T,
    pub y1: T,
    pub x2: T,
    pub y2: T,
}

/// A pair of values: a point or an extent (width and height).
#[derive(Clone, Copy, Debug, PartialEq, Eq, Structural)]
pub struct Vec2<T> {
    pub x: T,
    pub y: T,
}

pub open spec fn max_i64(a: i64, b: i64) -> i64 {
    if a >= b { a } else { b }
}

pub open spec fn min_i64(a: i64, b: i64) -> i64 {
    if a <= b { a } else { b }
}

/// True when `v` is representable as an `i64`.
pub open spec fn fits_i64(v: int) -> bool {
    i64::MIN <= v <= i64::MAX
}

impl Vec4<i64> {
    /// A rectangle whose corners are ordered.
    pub open spec fn wf(self) -> bool {
        self.x1 <= self.x2 && self.y1 <= self.y2
    }

    pub open spec fn width(self) -> int {
        self.x2 - self.x1
    }

    pub open spec fn height(self) -> int {
        self.y2 - self.y1
    }

    /// The point `(x, y)` lies in the half-open rectangle.
    pub open spec fn contains(self, x: int, y: int) -> bool {
        self.x1 <= x < self.x2 && self.y1 <= y < self.y2
    }

    /// Every point of `inner` lies in `self`.
    pub open spec fn encloses(self, inner: Vec4<i64>) -> bool {
        self.x1 <= inner.x1 && inner.x2 <= self.x2 && self.y1 <= inner.y1 && inner.y2 <= self.y2
    }

    /// The common part of two rectangles, whether or not it is empty.
    pub open spec fn meet(self, o: Vec4<i64>) -> Vec4<i64> {
        Vec4 {
            x1: max_i64(self.x1, o.x1),
            y1: max_i64(self.y1, o.y1),
            x2: min_i64(self.x2, o.x2),
            y2: min_i64(self.y2, o.y2),
        }
    }

    /// Two rectangles overlap when their common part has a positive extent on
    /// both axes.
    pub open spec fn overlaps(self, o: Vec4<i64>) -> bool {
        self.meet(o).x1 < self.meet(o).x2 && self.meet(o).y1 < self.meet(o).y2
    }

    /// The same rectangle seen from the frame whose origin is `(root.x1, root.y1)`.
    pub fn local_to(&self, root: &Vec4<i64>) -> (r: Vec4<i64>)
        requires
            fits_i64(self.x1 - root.x1),
            fits_i64(self.y1 - root.y1),
            fits_i64(self.x2 - root.x1),
            fits_i64(self.y2 - root.y1),
        ensures
            r.x1 == self.x1 - root.x1,
            r.y1 == self.y1 - root.y1,
            r.x2 == self.x2 - root.x1,
            r.y2 == self.y2 - root.y1,
    {
        Vec4 {
            x1: self.x1 - root.x1,
            y1: self.y1 - root.y1,
            x2: self.x2 - root.x1,
            y2: self.y2 - root.y1,
        }
    }

    /// Width and height.
    pub fn size(&self) -> (r: Vec2<i64>)
        requires
            fits_i64(self.width()),
            fits_i64(self.height()),
        ensures
            r.x == self.width(),
            r.y == self.height(),
    {
        Vec2::new(self.x2 - self.x1, self.y2 - self.y1)
    }

    /// The overlap of two rectangles; `None` when it is empty or degenerate on
    /// either axis.
    pub fn intersect(&self, r2: &Vec4<i64>) -> (r: Option<Vec4<i64>>)
        ensures
            r == (if self.overlaps(*r2) {
                Some(self.meet(*r2))
            } else {
                None
            }),
    {
        let rect = Vec4 {
            x1: if self.x1 >= r2.x1 { self.x1 } else { r2.x1 },
            y1: if self.y1 >= r2.y1 { self.y1 } else { r2.y1 },
            x2: if self.x2 <= r2.x2 { self.x2 } else { r2.x2 },
            y2: if self.y2 <= r2.y2 { self.y2 } else { r2.y2 },
        };
        if rect.x1 >= rect.x2 || rect.y1 >= rect.y2 {
            return None;
        }
        Some(rect)
    }

    /// The empty rectangle at the origin.
    pub fn new() -> (r: Vec4<i64>)
        ensures
            r == (Vec4::<i64> { x1: 0, y1: 0, x2: 0, y2: 0 }),
    {
        Vec4 { x1: 0, y1: 0, x2: 0, y2: 0 }
    }
}

impl<T> Vec2<T> {
    pub fn new(x: T, y: T) -> (r: Vec2<T>)
        ensures
            r.x == x,
            r.y == y,
    {
        Vec2 { x: x, y: y }
    }
}

/// `(x, y)` is one of the eight unit directions.
pub open spec fn is_unit_dir(x: int, y: int) -> bool {
    -1 <= x <= 1 && -1 <= y <= 1 && !(x == 0 && y == 0)
}

/// The slot of a unit direction: east is 0, and the slots go round
/// counter-clockwise (with `y` pointing up) to south-east at 7.
pub open spec fn dir_index(x: int, y: int) -> int {
    if x == 1 && y == 0 {
        0
    } else if x == 1 && y == 1 {
        1
    } else if x == 0 && y == 1 {
        2
    } else if x == -1 && y == 1 {
        3
    } else if x == -1 && y == 0 {
        4
    } else if x == -1 && y == -1 {
        5
    } else if x == 0 && y == -1 {
        6
    } else {
        7
    }
}

/// The `x` component of the direction in slot `d`.
pub open spec fn dir_x(d: int) -> int {
    if d == 0 || d == 1 || d == 7 {
        1
    } else if d == 2 || d == 6 {
        0
    } else {
        -1
    }
}

/// The `y` component of the direction in slot `d`.
pub open spec fn dir_y(d: int) -> int {
    if 1 <= d <= 3 {
        1
    } else if d == 0 || d == 4 {
        0
    } else {
        -1
    }
}

/// The slot of the reverse direction.
pub open spec fn opposite(d: int) -> int {
    (d + 4) % 8
}

/// The slot of a unit direction; `None` for any other vector.
pub fn dir2index(x: i64, y: i64) -> (r: Option<usize>)
    ensures
        r == (if is_unit_dir(x as int, y as int) {
            Some(dir_index(x as int, y as int) as usize)
        } else {
            None
        }),
{
    if x == 1 && y == 0 {
        Some(0)
    } else if x == 1 && y == 1 {
        Some(1)
    } else if x == 0 && y == 1 {
        Some(2)
    } else if x == -1 && y == 1 {
        Some(3)
    } else if x == -1 && y == 0 {
        Some(4)
    } else if x == -1 && y == -1 {
        Some(5)
    } else if x == 0 && y == -1 {
        Some(6)
    } else if x == 1 && y == -1 {
        Some(7)
    } else {
        None
    }
}

/// The unit direction stored in a slot; `None` for an index outside `0..8`.
pub fn index2dir(index: i32) -> (r: Option<(i16, i16)>)
    ensures
        r == (if 0 <= index < 8 {
            Some((dir_x(index as int) as i16, dir_y(index as int) as i16))
        } else {
            None
        }),
{
    if index == 0 {
        Some((1, 0))
    } else if index == 1 {
        Some((1, 1))
    } else if index == 2 {
        Some((0, 1))
    } else if index == 3 {
        Some((-1, 1))
    } else if index == 4 {
        Some((-1, 0))
    } else if index == 5 {
        Some((-1, -1))
    } else if index == 6 {
        Some((0, -1))
    } else if index == 7 {
        Some((1, -1))
    } else {
        None
    }
}

/// Slots and directions correspond one to one, and reversing a direction
/// negates both components.
pub proof fn lemma_dir_round_trip(d: int)
    requires
        0 <= d < 8,
    ensures
        is_unit_dir(dir_x(d), dir_y(d)),
        dir_index(dir_x(d), dir_y(d)) == d,
        0 <= opposite(d) < 8,
        opposite(opposite(d)) == d,
        dir_x(opposite(d)) == -dir_x(d),
        dir_y(opposite(d)) == -dir_y(d),
{
}

/// The slot of a unit direction holds that direction.
pub proof fn lemma_index_dir(x: int, y: int)
    requires
        is_unit_dir(x, y),
    ensures
        0 <= dir_index(x, y) < 8,
        dir_x(dir_index(x, y)) == x,
        dir_y(dir_index(x, y)) == y,
{
}

/// Two directions cancel out exactly when one is the reverse of the other.
pub proof fn lemma_dir_cancel(d: int, e: int)
    requires
        0 <= d < 8,
        0 <= e < 8,
    ensures
        (dir_x(d) + dir_x(e) == 0 && dir_y(d) + dir_y(e) == 0) <==> e == opposite(d),
        dir_x(d) != 0 || dir_y(d) != 0,
{
}

/// Floor division by a positive divisor, correct for negative dividends.
pub fn floor_div(a: i64, n: i64) -> (q: i64)
    requires
        n > 0,
    ensures
        q == a as int / n as int,
{
    assert(i64::MIN <= a as int / n as int <= i64::MAX) by (nonlinear_arith)
        requires
            n > 0,
    ;
    match a.checked_div_euclid(n) {
        Some(q) => q,
        None => 0,
    }
}

} // verus!
