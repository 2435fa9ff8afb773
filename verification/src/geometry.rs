//! Screen geometry in terminal cells: rectangles, points, and the arithmetic
//! that divides a rectangle between the two children of a split.

use vstd::prelude::*;
use vstd::arithmetic::div_mod::{lemma_div_is_ordered, lemma_div_multiples_vanish, lemma_div_pos_is_pos};
use vstd::arithmetic::mul::{lemma_mul_inequality, lemma_mul_is_commutative};

verus! {

/// Axis along which a split lays out its two children.
#[derive(Clone, Copy, Debug, PartialEq, Eq, Structural)]
pub enum Direction {
    /// The children sit side by side: the first on the left, the second on the right.
    Horizontal,
    /// The children are stacked: the first on top, the second below.
    Vertical,
}

/// A position on the screen, in cells.
#[derive(Clone, Copy, Debug, PartialEq, Eq, Structural)]
pub struct Point {
    pub x: u16,
    pub y: u16,
}

impl Point {
    pub fn new(x: u16, y: u16) -> (p: Point)
        ensures
            p == (Point { x, y }),
    {
        Point { x, y }
    }
}

/// A rectangle of cells. The cell in column `px` and row `py` belongs to it when
/// `x <= px < x + width` and `y <= py < y + height`.
#[derive(Clone, Copy, Debug, PartialEq, Eq, Structural)]
pub struct Rect {
    pub x: u16,
    pub y: u16,
    pub width: u16,
    pub height: u16,
}

impl Rect {
    /// The column just past the right edge.
    pub open spec fn right(self) -> int {
        self.x + self.width
    }

    /// The row just below the bottom edge.
    pub open spec fn bottom(self) -> int {
        self.y + self.height
    }

    /// The right and bottom edges are themselves valid coordinates, so every
    /// sub-rectangle has an origin that a `u16` can hold.
    pub open spec fn fits(self) -> bool {
        self.right() <= u16::MAX && self.bottom() <= u16::MAX
    }

    /// The cell `(px, py)` lies in the rectangle.
    pub open spec fn covers(self, px: int, py: int) -> bool {
        self.x <= px < self.right() && self.y <= py < self.bottom()
    }

    /// No cell of `self` lies outside `outer`.
    pub open spec fn within(self, outer: Rect) -> bool {
        &&& outer.x <= self.x
        &&& self.right() <= outer.right()
        &&& outer.y <= self.y
        &&& self.bottom() <= outer.bottom()
    }

    /// Twice the horizontal coordinate of the centre. Doubling keeps the
    /// centre of an odd-sized rectangle an integer.
    pub open spec fn centre_x2(self) -> int {
        2 * self.x + self.width
    }

    /// Twice the vertical coordinate of the centre.
    pub open spec fn centre_y2(self) -> int {
        2 * self.y + self.height
    }

    /// Builds a rectangle, shrinking `width` and `height` where needed so that
    /// the right and bottom edges stay within `u16`.
    pub fn new(x: u16, y: u16, width: u16, height: u16) -> (r: Rect)
        ensures
            r.x == x,
            r.y == y,
            r.width == if x + width <= u16::MAX { width as int } else { u16::MAX - x },
            r.height == if y + height <= u16::MAX { height as int } else { u16::MAX - y },
            r.fits(),
    {
        let max_width: u16 = u16::MAX - x;
        let max_height: u16 = u16::MAX - y;
        Rect {
            x,
            y,
            width: if width > max_width { max_width } else { width },
            height: if height > max_height { max_height } else { height },
        }
    }

    /// Whether the right and bottom edges stay within `u16`.
    pub fn is_representable(&self) -> (b: bool)
        ensures
            b == self.fits(),
    {
        self.width <= u16::MAX - self.x && self.height <= u16::MAX - self.y
    }
}

/// The share of `extent` that goes to the first child of a split with the
/// given ratio: `extent * ratio.0 / (ratio.0 + ratio.1)`, rounded down.
pub open spec fn first_share(extent: u16, ratio: (u32, u32)) -> int {
    (extent * ratio.0) / (ratio.0 + ratio.1)
}

/// The rectangle of the first child of a split of `area`.
pub open spec fn first_part(area: Rect, direction: Direction, ratio: (u32, u32)) -> Rect {
    match direction {
        Direction::Horizontal => Rect { width: first_share(area.width, ratio) as u16, ..area },
        Direction::Vertical => Rect { height: first_share(area.height, ratio) as u16, ..area },
    }
}

/// The rectangle of the second child of a split of `area`: what the first
/// child leaves, so the remainder of the division goes here.
pub open spec fn second_part(area: Rect, direction: Direction, ratio: (u32, u32)) -> Rect {
    match direction {
        Direction::Horizontal => Rect {
            x: (area.x + first_share(area.width, ratio)) as u16,
            width: (area.width - first_share(area.width, ratio)) as u16,
            ..area
        },
        Direction::Vertical => Rect {
            y: (area.y + first_share(area.height, ratio)) as u16,
            height: (area.height - first_share(area.height, ratio)) as u16,
            ..area
        },
    }
}

/// The first child's share is never negative and never more than the whole.
pub proof fn lemma_first_share_bounds(extent: u16, ratio: (u32, u32))
    requires
        ratio.0 + ratio.1 > 0,
    ensures
        0 <= first_share(extent, ratio) <= extent,
{
    let total: int = ratio.0 + ratio.1;
    let e: int = extent as int;
    let r: int = ratio.0 as int;
    assert(0 <= e * r) by (nonlinear_arith)
        requires
            0 <= e,
            0 <= r,
    ;
    lemma_div_pos_is_pos(e * r, total);
    lemma_mul_inequality(r, total, e);
    lemma_mul_is_commutative(r, e);
    lemma_mul_is_commutative(total, e);
    lemma_div_is_ordered(e * r, e * total, total);
    lemma_div_multiples_vanish(e, total);
    lemma_mul_is_commutative(total, e);
}

/// A split divides its area exactly. Along the split axis the two extents add
/// up to the extent of the area and the second child starts where the first
/// ends; across the axis both children keep the position and extent of the
/// area.
pub proof fn lemma_split_partitions(area: Rect, direction: Direction, ratio: (u32, u32))
    requires
        area.fits(),
        ratio.0 + ratio.1 > 0,
    ensures
        ({
            let a = first_part(area, direction, ratio);
            let b = second_part(area, direction, ratio);
            match direction {
                Direction::Horizontal => {
                    &&& a.x == area.x
                    &&& b.x == a.x + a.width
                    &&& a.width + b.width == area.width
                    &&& a.y == area.y && b.y == area.y
                    &&& a.height == area.height && b.height == area.height
                },
                Direction::Vertical => {
                    &&& a.y == area.y
                    &&& b.y == a.y + a.height
                    &&& a.height + b.height == area.height
                    &&& a.x == area.x && b.x == area.x
                    &&& a.width == area.width && b.width == area.width
                },
            }
        }),
        first_part(area, direction, ratio).fits(),
        second_part(area, direction, ratio).fits(),
        first_part(area, direction, ratio).within(area),
        second_part(area, direction, ratio).within(area),
        forall|px: int, py: int|
            area.covers(px, py) <==> (#[trigger] first_part(area, direction, ratio).covers(px, py)
                || #[trigger] second_part(area, direction, ratio).covers(px, py)),
        forall|px: int, py: int|
            !(#[trigger] first_part(area, direction, ratio).covers(px, py)
                && #[trigger] second_part(area, direction, ratio).covers(px, py)),
{
    lemma_first_share_bounds(area.width, ratio);
    lemma_first_share_bounds(area.height, ratio);
}

/// Divides `area` between the two children of a split.
pub fn split_area(area: Rect, direction: Direction, ratio: (u32, u32)) -> (parts: (Rect, Rect))
    requires
        area.fits(),
        ratio.0 + ratio.1 > 0,
    ensures
        parts.0 == first_part(area, direction, ratio),
        parts.1 == second_part(area, direction, ratio),
{
    let total: u64 = ratio.0 as u64 + ratio.1 as u64;
    match direction {
        Direction::Horizontal => {
            proof {
                lemma_first_share_bounds(area.width, ratio);
                assert(area.width * ratio.0 <= 0xffff * 0xffff_ffff) by (nonlinear_arith)
                    requires
                        0 <= area.width <= 0xffff,
                        0 <= ratio.0 <= 0xffff_ffff,
                ;
            }
            let share: u16 = ((area.width as u64 * ratio.0 as u64) / total) as u16;
            (
                Rect { x: area.x, y: area.y, width: share, height: area.height },
                Rect {
                    x: area.x + share,
                    y: area.y,
                    width: area.width - share,
                    height: area.height,
                },
            )
        },
        Direction::Vertical => {
            proof {
                lemma_first_share_bounds(area.height, ratio);
                assert(area.height * ratio.0 <= 0xffff * 0xffff_ffff) by (nonlinear_arith)
                    requires
                        0 <= area.height <= 0xffff,
                        0 <= ratio.0 <= 0xffff_ffff,
                ;
            }
            let share: u16 = ((area.height as u64 * ratio.0 as u64) / total) as u16;
            (
                Rect { x: area.x, y: area.y, width: area.width, height: share },
                Rect {
                    x: area.x,
                    y: area.y + share,
                    width: area.width,
                    height: area.height - share,
                },
            )
        },
    }
}

} // verus!
