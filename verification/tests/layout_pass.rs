//! Layout computation: caching, recomputation, measurement and rounding.

use layout_tree::compute::{ChildBox, EngineBox, KnownDimensions, LayoutEngine, Measure};
use layout_tree::error::TreeError;
use layout_tree::geom::{AvailableSize, AvailableSpace, PointUnits, RectUnits, SizeUnits, SCALE};
use layout_tree::style::{Dimension, Style};
use layout_tree::tree::TaffyTree;

/// A deliberately simple box algorithm for the tests: a node is as large
/// as its style's definite size, or as its intrinsic content, or as the
/// vertical stack of its children; children are stacked top to bottom.
struct StackEngine {
    calls: usize,
    computed_for: Vec<SizeUnits>,
}

impl StackEngine {
    fn new() -> StackEngine {
        StackEngine { calls: 0, computed_for: Vec::new() }
    }
}

fn px(n: i64) -> i64 {
    n * SCALE
}

impl LayoutEngine for StackEngine {
    fn compute_box(
        &mut self,
        style: &Style,
        _space: AvailableSize,
        intrinsic: SizeUnits,
        children: &Vec<ChildBox>,
    ) -> Option<EngineBox> {
        self.calls += 1;
        let mut stacked_height: i64 = 0;
        let mut max_width: i64 = 0;
        let mut positions: Vec<PointUnits> = Vec::new();
        for child in children.iter() {
            positions.push(PointUnits { x: 0, y: stacked_height });
            stacked_height += child.layout.size.height;
            if child.layout.size.width > max_width {
                max_width = child.layout.size.width;
            }
        }
        let width = match style.size.width {
            Dimension::Length(v) => v,
            _ => {
                if children.is_empty() {
                    intrinsic.width
                } else {
                    max_width
                }
            },
        };
        let height = match style.size.height {
            Dimension::Length(v) => v,
            _ => {
                if children.is_empty() {
                    intrinsic.height
                } else {
                    stacked_height
                }
            },
        };
        let size = SizeUnits { width, height };
        self.computed_for.push(size);
        Some(EngineBox {
            size,
            content_size: if children.is_empty() {
                intrinsic
            } else {
                SizeUnits { width: max_width, height: stacked_height }
            },
            scrollbar_size: SizeUnits { width: 0, height: 0 },
            border: RectUnits { left: 0, right: 0, top: 0, bottom: 0 },
            padding: RectUnits { left: 0, right: 0, top: 0, bottom: 0 },
            margin: RectUnits { left: 0, right: 0, top: 0, bottom: 0 },
            child_positions: positions,
        })
    }
}

/// A box algorithm that always fails, to exercise the abort path.
struct RefusingEngine;

impl LayoutEngine for RefusingEngine {
    fn compute_box(
        &mut self,
        _style: &Style,
        _space: AvailableSize,
        _intrinsic: SizeUnits,
        _children: &Vec<ChildBox>,
    ) -> Option<EngineBox> {
        None
    }
}

/// The measure used in the measurement scenario: a fixed intrinsic size.
struct FixedMeasure {
    size: SizeUnits,
    calls: usize,
}

impl Measure for FixedMeasure {
    fn measure(
        &mut self,
        _known: KnownDimensions,
        _space: AvailableSize,
        _node: u64,
        _context: Option<u64>,
        _style: &Style,
    ) -> SizeUnits {
        self.calls += 1;
        self.size
    }
}

fn fixed_style(width_px: i64, height_px: i64) -> Style {
    let mut style = Style::new();
    style.size.width = Dimension::Length(px(width_px));
    style.size.height = Dimension::Length(px(height_px));
    style
}

fn definite(width_px: i64, height_px: i64) -> AvailableSize {
    AvailableSize {
        width: AvailableSpace::Definite(px(width_px)),
        height: AvailableSpace::Definite(px(height_px)),
    }
}

#[test]
fn two_leaves_under_a_parent_are_laid_out_and_clean() {
    let mut tree = TaffyTree::new();
    let a = tree.new_leaf(&fixed_style(100, 50)).unwrap();
    let b = tree.new_leaf(&fixed_style(50, 50)).unwrap();
    let p = tree.new_with_children(&Style::new(), &vec![a, b]).unwrap();
    let mut engine = StackEngine::new();
    tree.compute_layout(p, definite(200, 200), &mut engine).unwrap();
    // both leaves carry a cached layout and are clean
    assert_eq!(tree.dirty(a), Ok(false));
    assert_eq!(tree.dirty(b), Ok(false));
    assert_eq!(tree.dirty(p), Ok(false));
    let la = tree.layout(a).unwrap();
    let lb = tree.layout(b).unwrap();
    let lp = tree.layout(p).unwrap();
    assert_eq!(la.width(), px(100));
    assert_eq!(la.height(), px(50));
    assert_eq!(lb.width(), px(50));
    assert_eq!(lb.height(), px(50));
    // the stack engine puts the second leaf below the first
    assert_eq!(la.y(), 0);
    assert_eq!(lb.y(), px(50));
    assert_eq!(la.order(), 0);
    assert_eq!(lb.order(), 1);
    // the parent wraps the stack and sits at the origin
    assert_eq!(lp.width(), px(100));
    assert_eq!(lp.height(), px(100));
    assert_eq!(lp.x(), 0);
    assert_eq!(lp.y(), 0);
    assert_eq!(engine.calls, 3);
}

#[test]
fn measured_leaf_reports_exactly_the_measured_content() {
    let mut tree = TaffyTree::new();
    // a contextless leaf with no explicit size and no children
    let leaf = tree.new_leaf(&Style::new()).unwrap();
    let mut engine = StackEngine::new();
    let mut measure = FixedMeasure { size: SizeUnits { width: px(42), height: px(17) }, calls: 0 };
    tree.compute_layout_with_measure(leaf, definite(500, 500), &mut engine, &mut measure)
        .unwrap();
    let l = tree.layout(leaf).unwrap();
    // the content size is exactly what the callback returned, before any
    // box-model additions the algorithm may apply on top
    assert_eq!(l.content_width(), px(42));
    assert_eq!(l.content_height(), px(17));
    assert_eq!(measure.calls, 1);
}

#[test]
fn measurement_runs_once_per_leaf_per_call() {
    let mut tree = TaffyTree::new();
    let a = tree.new_leaf(&Style::new()).unwrap();
    let b = tree.new_leaf(&Style::new()).unwrap();
    let p = tree.new_with_children(&Style::new(), &vec![a, b]).unwrap();
    let mut engine = StackEngine::new();
    let mut measure = FixedMeasure { size: SizeUnits { width: px(5), height: px(5) }, calls: 0 };
    tree.compute_layout_with_measure(p, definite(100, 100), &mut engine, &mut measure).unwrap();
    assert_eq!(measure.calls, 2);
    // a second identical call is served from the cache: no measurement
    tree.compute_layout_with_measure(p, definite(100, 100), &mut engine, &mut measure).unwrap();
    assert_eq!(measure.calls, 2);
}

#[test]
fn second_identical_computation_is_pure_cache() {
    let mut tree = TaffyTree::new();
    let a = tree.new_leaf(&fixed_style(10, 10)).unwrap();
    let p = tree.new_with_children(&Style::new(), &vec![a]).unwrap();
    let mut engine = StackEngine::new();
    tree.compute_layout(p, definite(50, 50), &mut engine).unwrap();
    let first_calls = engine.calls;
    let la1 = tree.layout(a).unwrap();
    let lp1 = tree.layout(p).unwrap();
    tree.compute_layout(p, definite(50, 50), &mut engine).unwrap();
    // no recursion into clean subtrees: the algorithm ran for nothing
    assert_eq!(engine.calls, first_calls);
    assert_eq!(tree.layout(a).unwrap(), la1);
    assert_eq!(tree.layout(p).unwrap(), lp1);
}

#[test]
fn style_change_recomputes_the_chain_but_not_siblings() {
    let mut tree = TaffyTree::new();
    let a = tree.new_leaf(&fixed_style(10, 10)).unwrap();
    let b = tree.new_leaf(&fixed_style(20, 20)).unwrap();
    let mid = tree.new_with_children(&Style::new(), &vec![a]).unwrap();
    let root = tree.new_with_children(&Style::new(), &vec![mid, b]).unwrap();
    let mut engine = StackEngine::new();
    tree.compute_layout(root, definite(100, 100), &mut engine).unwrap();
    assert_eq!(engine.calls, 4);
    // restyle the deep leaf: the leaf, its parent and the root recompute,
    // the sibling leaf is reused from cache
    tree.set_style(a, &fixed_style(30, 30)).unwrap();
    assert_eq!(tree.dirty(a), Ok(true));
    assert_eq!(tree.dirty(mid), Ok(true));
    assert_eq!(tree.dirty(root), Ok(true));
    assert_eq!(tree.dirty(b), Ok(false));
    tree.compute_layout(root, definite(100, 100), &mut engine).unwrap();
    assert_eq!(engine.calls, 7);
    assert_eq!(tree.layout(a).unwrap().width(), px(30));
    assert_eq!(tree.layout(b).unwrap().width(), px(20));
}

#[test]
fn changed_available_space_recomputes() {
    let mut tree = TaffyTree::new();
    let a = tree.new_leaf(&fixed_style(10, 10)).unwrap();
    let mut engine = StackEngine::new();
    tree.compute_layout(a, definite(50, 50), &mut engine).unwrap();
    assert_eq!(engine.calls, 1);
    tree.compute_layout(a, definite(80, 80), &mut engine).unwrap();
    assert_eq!(engine.calls, 2);
    let max_content = AvailableSize {
        width: AvailableSpace::MaxContent,
        height: AvailableSpace::MinContent,
    };
    tree.compute_layout(a, max_content, &mut engine).unwrap();
    assert_eq!(engine.calls, 3);
}

#[test]
fn rounding_moves_geometry_less_than_one_pixel() {
    let mut tree = TaffyTree::new();
    // fractional heights: two and a half pixels, stacked
    let mut frac = Style::new();
    frac.size.width = Dimension::Length(px(10) + 32);
    frac.size.height = Dimension::Length(px(2) + 32);
    let a = tree.new_leaf(&frac).unwrap();
    let b = tree.new_leaf(&frac).unwrap();
    let c = tree.new_leaf(&frac).unwrap();
    let p = tree.new_with_children(&Style::new(), &vec![a, b, c]).unwrap();
    let mut engine = StackEngine::new();
    tree.compute_layout(p, definite(100, 100), &mut engine).unwrap();
    for node in [a, b, c, p] {
        let rounded = tree.layout(node).unwrap();
        let raw = tree.unrounded_layout(node).unwrap();
        assert!((rounded.x() - raw.x()).abs() < SCALE);
        assert!((rounded.y() - raw.y()).abs() < SCALE);
        assert!((rounded.width() - raw.width()).abs() < SCALE);
        assert!((rounded.height() - raw.height()).abs() < SCALE);
        // the reported geometry is whole pixels
        assert_eq!(rounded.x() % SCALE, 0);
        assert_eq!(rounded.y() % SCALE, 0);
        assert_eq!(rounded.width() % SCALE, 0);
        assert_eq!(rounded.height() % SCALE, 0);
    }
    // rounding does not drift with depth: the third leaf still starts
    // within a pixel of its raw position
    let raw_c = tree.unrounded_layout(c).unwrap();
    assert_eq!(raw_c.y(), px(5));
}

#[test]
fn disabled_rounding_reports_raw_geometry() {
    let mut tree = TaffyTree::new();
    tree.disable_rounding();
    let mut frac = Style::new();
    frac.size.width = Dimension::Length(px(3) + 17);
    frac.size.height = Dimension::Length(px(4) + 9);
    let a = tree.new_leaf(&frac).unwrap();
    let mut engine = StackEngine::new();
    tree.compute_layout(a, definite(50, 50), &mut engine).unwrap();
    let l = tree.layout(a).unwrap();
    assert_eq!(l.width(), px(3) + 17);
    assert_eq!(l.height(), px(4) + 9);
    assert_eq!(l, tree.unrounded_layout(a).unwrap());
}

#[test]
fn layout_of_unknown_or_uncomputed_nodes_fails() {
    let mut tree = TaffyTree::new();
    let a = tree.new_leaf(&Style::new()).unwrap();
    assert_eq!(tree.layout(a), Err(TreeError::NotComputed));
    assert_eq!(tree.unrounded_layout(a), Err(TreeError::NotComputed));
    assert_eq!(tree.layout(0xdead_beef), Err(TreeError::NotFound));
    let mut engine = StackEngine::new();
    assert_eq!(
        tree.compute_layout(0xdead_beef, definite(10, 10), &mut engine),
        Err(TreeError::NotFound)
    );
}

#[test]
fn failing_engine_aborts_and_leaves_the_tree_dirty() {
    let mut tree = TaffyTree::new();
    let a = tree.new_leaf(&fixed_style(10, 10)).unwrap();
    let p = tree.new_with_children(&Style::new(), &vec![a]).unwrap();
    let mut refusing = RefusingEngine;
    assert_eq!(
        tree.compute_layout(p, definite(50, 50), &mut refusing),
        Err(TreeError::LayoutFailed)
    );
    // the failing node and its ancestors stay dirty, so a retry works
    assert_eq!(tree.dirty(p), Ok(true));
    let mut engine = StackEngine::new();
    tree.compute_layout(p, definite(50, 50), &mut engine).unwrap();
    assert_eq!(tree.dirty(p), Ok(false));
}

#[test]
fn unusable_measurement_aborts_the_call() {
    let mut tree = TaffyTree::new();
    let leaf = tree.new_leaf(&Style::new()).unwrap();
    let mut engine = StackEngine::new();
    let mut bad = FixedMeasure { size: SizeUnits { width: -1, height: 0 }, calls: 0 };
    assert_eq!(
        tree.compute_layout_with_measure(leaf, definite(10, 10), &mut engine, &mut bad),
        Err(TreeError::MeasurementFailed)
    );
    assert_eq!(tree.dirty(leaf), Ok(true));
    assert_eq!(tree.layout(leaf), Err(TreeError::NotComputed));
}

#[test]
fn mark_dirty_forces_remeasurement() {
    let mut tree = TaffyTree::new();
    let leaf = tree.new_leaf(&Style::new()).unwrap();
    let mut engine = StackEngine::new();
    let mut measure = FixedMeasure { size: SizeUnits { width: px(8), height: px(8) }, calls: 0 };
    tree.compute_layout_with_measure(leaf, definite(10, 10), &mut engine, &mut measure).unwrap();
    assert_eq!(measure.calls, 1);
    // content changed without a style change: the caller marks the node
    measure.size = SizeUnits { width: px(9), height: px(9) };
    tree.mark_dirty(leaf).unwrap();
    tree.compute_layout_with_measure(leaf, definite(10, 10), &mut engine, &mut measure).unwrap();
    assert_eq!(measure.calls, 2);
    assert_eq!(tree.layout(leaf).unwrap().content_width(), px(9));
}
