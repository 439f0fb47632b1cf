//! Computed layout geometry.

use vstd::prelude::*;
use crate::geom::{PointUnits, RectUnits, SizeUnits, COORD_LIMIT};

verus! {

/// The box geometry computed for one node, in subpixel units. A layout is
/// superseded wholesale on recomputation, never patched field by field, apart
/// from the position and paint order a parent assigns to its children.
#[derive(Clone, Copy, Debug, PartialEq, Eq, Structural)]
pub struct Layout {
    /// Paint order among siblings; not a structural index.
    pub order: u64,
    /// Position of the top-left corner relative to the parent's origin.
    pub location: PointUnits,
    /// Border-box size.
    pub size: SizeUnits,
    /// Size of the scrollable content.
    pub content_size: SizeUnits,
    /// Space reserved for scrollbars, per axis.
    pub scrollbar_size: SizeUnits,
    /// Border width per edge.
    pub border: RectUnits,
    /// Padding per edge.
    pub padding: RectUnits,
    /// Margin per edge.
    pub margin: RectUnits,
}

/// A coordinate the tree will store: within the global coordinate bound.
pub open spec fn coord_ok(v: int) -> bool {
    -COORD_LIMIT <= v <= COORD_LIMIT
}

/// A length the tree will store: non-negative and within the bound.
pub open spec fn length_ok(v: int) -> bool {
    0 <= v <= COORD_LIMIT
}

/// A coordinate within one pixel of the stored-geometry bound, as
/// whole-pixel rounding may produce.
pub open spec fn coord_ok_loose(v: int) -> bool {
    -COORD_LIMIT - 64 <= v <= COORD_LIMIT + 64
}

/// A length within one pixel of the stored-geometry bound.
pub open spec fn length_ok_loose(v: int) -> bool {
    0 <= v <= COORD_LIMIT + 64
}

/// Every field of the layout lies within the bounds, each widened by one
/// pixel: what a rounded layout satisfies.
pub open spec fn layout_bounded_loose(l: Layout) -> bool {
    &&& coord_ok_loose(l.location.x as int) && coord_ok_loose(l.location.y as int)
    &&& length_ok_loose(l.size.width as int) && length_ok_loose(l.size.height as int)
    &&& length_ok_loose(l.content_size.width as int) && length_ok_loose(l.content_size.height as int)
    &&& length_ok_loose(l.scrollbar_size.width as int) && length_ok_loose(l.scrollbar_size.height as int)
    &&& length_ok_loose(l.border.left as int) && length_ok_loose(l.border.right as int)
    &&& length_ok_loose(l.border.top as int) && length_ok_loose(l.border.bottom as int)
    &&& length_ok_loose(l.padding.left as int) && length_ok_loose(l.padding.right as int)
    &&& length_ok_loose(l.padding.top as int) && length_ok_loose(l.padding.bottom as int)
    &&& length_ok_loose(l.margin.left as int) && length_ok_loose(l.margin.right as int)
    &&& length_ok_loose(l.margin.top as int) && length_ok_loose(l.margin.bottom as int)
}

/// Every field of the layout lies within the stored-geometry bounds.
pub open spec fn layout_bounded(l: Layout) -> bool {
    &&& coord_ok(l.location.x as int) && coord_ok(l.location.y as int)
    &&& length_ok(l.size.width as int) && length_ok(l.size.height as int)
    &&& length_ok(l.content_size.width as int) && length_ok(l.content_size.height as int)
    &&& length_ok(l.scrollbar_size.width as int) && length_ok(l.scrollbar_size.height as int)
    &&& length_ok(l.border.left as int) && length_ok(l.border.right as int)
    &&& length_ok(l.border.top as int) && length_ok(l.border.bottom as int)
    &&& length_ok(l.padding.left as int) && length_ok(l.padding.right as int)
    &&& length_ok(l.padding.top as int) && length_ok(l.padding.bottom as int)
    &&& length_ok(l.margin.left as int) && length_ok(l.margin.right as int)
    &&& length_ok(l.margin.top as int) && length_ok(l.margin.bottom as int)
}

impl Layout {
    /// The all-zero layout.
    pub fn zero() -> (r: Layout)
        ensures
            r == Layout::zero_spec(),
    {
        Layout {
            order: 0,
            location: PointUnits { x: 0, y: 0 },
            size: SizeUnits { width: 0, height: 0 },
            content_size: SizeUnits { width: 0, height: 0 },
            scrollbar_size: SizeUnits { width: 0, height: 0 },
            border: RectUnits { left: 0, right: 0, top: 0, bottom: 0 },
            padding: RectUnits { left: 0, right: 0, top: 0, bottom: 0 },
            margin: RectUnits { left: 0, right: 0, top: 0, bottom: 0 },
        }
    }

    /// The value `Layout::zero` returns.
    pub open spec fn zero_spec() -> Layout {
        Layout {
            order: 0,
            location: PointUnits { x: 0, y: 0 },
            size: SizeUnits { width: 0, height: 0 },
            content_size: SizeUnits { width: 0, height: 0 },
            scrollbar_size: SizeUnits { width: 0, height: 0 },
            border: RectUnits { left: 0, right: 0, top: 0, bottom: 0 },
            padding: RectUnits { left: 0, right: 0, top: 0, bottom: 0 },
            margin: RectUnits { left: 0, right: 0, top: 0, bottom: 0 },
        }
    }
}

impl Layout {
    /// The paint order among siblings.
    pub fn order(&self) -> (r: u64)
        ensures
            r == self.order,
    {
        self.order
    }

    /// The x position of the top-left corner, relative to the parent.
    pub fn x(&self) -> (r: i64)
        ensures
            r == self.location.x,
    {
        self.location.x
    }

    /// The y position of the top-left corner, relative to the parent.
    pub fn y(&self) -> (r: i64)
        ensures
            r == self.location.y,
    {
        self.location.y
    }

    /// The border-box width.
    pub fn width(&self) -> (r: i64)
        ensures
            r == self.size.width,
    {
        self.size.width
    }

    /// The border-box height.
    pub fn height(&self) -> (r: i64)
        ensures
            r == self.size.height,
    {
        self.size.height
    }

    /// The width of the scrollable content.
    pub fn content_width(&self) -> (r: i64)
        ensures
            r == self.content_size.width,
    {
        self.content_size.width
    }

    /// The height of the scrollable content.
    pub fn content_height(&self) -> (r: i64)
        ensures
            r == self.content_size.height,
    {
        self.content_size.height
    }

    /// The width reserved for a vertical scrollbar.
    pub fn scrollbar_width(&self) -> (r: i64)
        ensures
            r == self.scrollbar_size.width,
    {
        self.scrollbar_size.width
    }

    /// The height reserved for a horizontal scrollbar.
    pub fn scrollbar_height(&self) -> (r: i64)
        ensures
            r == self.scrollbar_size.height,
    {
        self.scrollbar_size.height
    }

    /// The left border width.
    pub fn border_left(&self) -> (r: i64)
        ensures
            r == self.border.left,
    {
        self.border.left
    }

    /// The right border width.
    pub fn border_right(&self) -> (r: i64)
        ensures
            r == self.border.right,
    {
        self.border.right
    }

    /// The top border width.
    pub fn border_top(&self) -> (r: i64)
        ensures
            r == self.border.top,
    {
        self.border.top
    }

    /// The bottom border width.
    pub fn border_bottom(&self) -> (r: i64)
        ensures
            r == self.border.bottom,
    {
        self.border.bottom
    }

    /// The left padding.
    pub fn padding_left(&self) -> (r: i64)
        ensures
            r == self.padding.left,
    {
        self.padding.left
    }

    /// The right padding.
    pub fn padding_right(&self) -> (r: i64)
        ensures
            r == self.padding.right,
    {
        self.padding.right
    }

    /// The top padding.
    pub fn padding_top(&self) -> (r: i64)
        ensures
            r == self.padding.top,
    {
        self.padding.top
    }

    /// The bottom padding.
    pub fn padding_bottom(&self) -> (r: i64)
        ensures
            r == self.padding.bottom,
    {
        self.padding.bottom
    }

    /// The left margin.
    pub fn margin_left(&self) -> (r: i64)
        ensures
            r == self.margin.left,
    {
        self.margin.left
    }

    /// The right margin.
    pub fn margin_right(&self) -> (r: i64)
        ensures
            r == self.margin.right,
    {
        self.margin.right
    }

    /// The top margin.
    pub fn margin_top(&self) -> (r: i64)
        ensures
            r == self.margin.top,
    {
        self.margin.top
    }

    /// The bottom margin.
    pub fn margin_bottom(&self) -> (r: i64)
        ensures
            r == self.margin.bottom,
    {
        self.margin.bottom
    }
}

} // verus!
