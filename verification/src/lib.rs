//! Retained-mode core of a UI layout engine.
//!
//! A `TaffyTree` owns an arena of styled nodes linked into trees. Structural
//! mutations keep parent/child links consistent and propagate a dirty flag up
//! to the root. Layout geometry is computed on demand by a pluggable layout
//! algorithm (the `LayoutEngine` capability) and cached per node together with
//! the available-space signature it was computed under; an optional measure
//! capability lets childless leaves report an intrinsic content size. All
//! geometry is carried in integer subpixel units so that every computation,
//! including whole-pixel rounding, is exact.

pub mod ancestry;
pub mod compute;
pub mod error;
pub mod geom;
pub mod laws;
pub mod layout;
pub mod node;
pub mod style;
pub mod tree;
