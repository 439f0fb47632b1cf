//! Node styles.
//!
//! The tree core treats a style as data it stores and hands to the layout
//! algorithm; only the size dimensions are ever read by the core itself, to
//! derive the known dimensions offered to the measure capability. Lengths are
//! subpixel units (`geom::SCALE` per pixel); a percentage stores the fraction
//! of the parent length scaled by `geom::SCALE`.

use vstd::prelude::*;
use crate::geom::RectUnits;

verus! {

/// A style length: a definite subpixel length, a scaled fraction of the
/// parent, or left to the layout algorithm.
#[derive(Clone, Copy, Debug, PartialEq, Eq, Structural)]
pub enum Dimension {
    Length(i64),
    Percent(i64),
    Auto,
}

/// A width/height pair of style lengths.
#[derive(Clone, Copy, Debug, PartialEq, Eq, Structural)]
pub struct DimensionSize {
    pub width: Dimension,
    pub height: Dimension,
}

/// The layout-relevant properties of one node.
#[derive(Clone, Copy, Debug, PartialEq, Eq, Structural)]
pub struct Style {
    /// Preferred size.
    pub size: DimensionSize,
    /// Lower bound on the size.
    pub min_size: DimensionSize,
    /// Upper bound on the size.
    pub max_size: DimensionSize,
    /// Outer spacing per edge.
    pub margin: RectUnits,
    /// Inner spacing per edge.
    pub padding: RectUnits,
    /// Border width per edge.
    pub border: RectUnits,
}

impl Style {
    /// The default style: every dimension automatic, every edge zero.
    pub fn new() -> (r: Style)
        ensures
            r == Style::default_spec(),
    {
        Style {
            size: DimensionSize { width: Dimension::Auto, height: Dimension::Auto },
            min_size: DimensionSize { width: Dimension::Auto, height: Dimension::Auto },
            max_size: DimensionSize { width: Dimension::Auto, height: Dimension::Auto },
            margin: RectUnits { left: 0, right: 0, top: 0, bottom: 0 },
            padding: RectUnits { left: 0, right: 0, top: 0, bottom: 0 },
            border: RectUnits { left: 0, right: 0, top: 0, bottom: 0 },
        }
    }

    /// The value `Style::new` returns.
    pub open spec fn default_spec() -> Style {
        Style {
            size: DimensionSize { width: Dimension::Auto, height: Dimension::Auto },
            min_size: DimensionSize { width: Dimension::Auto, height: Dimension::Auto },
            max_size: DimensionSize { width: Dimension::Auto, height: Dimension::Auto },
            margin: RectUnits { left: 0, right: 0, top: 0, bottom: 0 },
            padding: RectUnits { left: 0, right: 0, top: 0, bottom: 0 },
            border: RectUnits { left: 0, right: 0, top: 0, bottom: 0 },
        }
    }
}

impl Default for Style {
    /// Same value as `Style::new`.
    fn default() -> (r: Style)
        ensures
            r == Style::default_spec(),
    {
        Style::new()
    }
}

} // verus!
