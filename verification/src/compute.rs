//! Layout computation: the cache-aware tree walk, the capability interfaces
//! to the box algorithm and the measure function, and the whole-pixel
//! rounding pass.
//!
//! The tree core does not size boxes itself: a `LayoutEngine` capability is
//! handed into each computation call and asked once per recomputed node for
//! that node's box and its children's positions. A `Measure` capability,
//! when supplied, reports the intrinsic content size of childless leaves.
//! Neither capability is trusted with anything: the driver validates every
//! value they return and its contract states what holds of the tree for
//! every possible answer.

use vstd::prelude::*;
use crate::ancestry::{
    ancestors, in_subtree, lemma_sibling_disjoint, lemma_structure_predicates,
    lemma_subtree_child, lemma_subtree_step,
};
use crate::error::TreeError;
use crate::geom::{
    lemma_relative_round, lemma_round_error, lemma_round_monotone, round_to_pixel, round_units,
    AvailableSize, PointUnits, RectUnits, SizeUnits, COORD_LIMIT, HALF_SCALE, SCALE,
};
use crate::layout::{coord_ok, layout_bounded, layout_bounded_loose, Layout};
use crate::node::{
    caches_bounded, clean_has_cache, coherent, dirty_upward_closed, parents_live, CacheEntry,
    NodeView,
};
use crate::style::{Dimension, Style};
use crate::tree::TaffyTree;

verus! {

/// The box the layout algorithm reports for one node: its own geometry and
/// a position and paint order for each child, in child order.
pub struct EngineBox {
    /// Border-box size of the node.
    pub size: SizeUnits,
    /// Size of the scrollable content.
    pub content_size: SizeUnits,
    /// Space reserved for scrollbars.
    pub scrollbar_size: SizeUnits,
    /// Border width per edge.
    pub border: RectUnits,
    /// Padding per edge.
    pub padding: RectUnits,
    /// Margin per edge.
    pub margin: RectUnits,
    /// One position per child, relative to this node's origin.
    pub child_positions: Vec<PointUnits>,
}

/// A child's id and its already computed, unrounded layout, as handed to
/// the layout algorithm.
pub struct ChildBox {
    pub id: u64,
    pub layout: Layout,
}

/// The dimensions already fixed for a leaf when its content is measured:
/// per axis, a definite subpixel length or unknown.
pub struct KnownDimensions {
    pub width: Option<i64>,
    pub height: Option<i64>,
}

/// The box-sizing capability: given a node's style, the available space,
/// the intrinsic content size of a childless leaf (zero otherwise) and the
/// computed boxes of the children, it reports the node's box, or nothing
/// when it cannot produce one.
pub trait LayoutEngine {
    fn compute_box(
        &mut self,
        style: &Style,
        space: AvailableSize,
        intrinsic: SizeUnits,
        children: &Vec<ChildBox>,
    ) -> Option<EngineBox>;
}

/// The measure capability: reports the intrinsic content size of a
/// childless leaf from the node's identity, attached context and style.
pub trait Measure {
    fn measure(
        &mut self,
        known: KnownDimensions,
        space: AvailableSize,
        node: u64,
        context: Option<u64>,
        style: &Style,
    ) -> SizeUnits;
}

/// The measure used when none is supplied: childless leaves get zero
/// content size.
pub struct ZeroMeasure;

impl Measure for ZeroMeasure {
    fn measure(
        &mut self,
        known: KnownDimensions,
        space: AvailableSize,
        node: u64,
        context: Option<u64>,
        style: &Style,
    ) -> SizeUnits {
        SizeUnits { width: 0, height: 0 }
    }
}

/// The node's cached layout can be reused for this available space: the
/// node is clean and the entry was computed under the same constraint.
pub open spec fn cache_hit(m: Map<u64, NodeView>, x: u64, space: AvailableSize) -> bool {
    m.contains_key(x) && !m[x].dirty && m[x].cache is Some && m[x].cache->0.space == space
}

/// Both maps hold the same nodes with the same links, styles and contexts;
/// only caches and dirty flags may differ.
pub open spec fn same_shape(m1: Map<u64, NodeView>, m2: Map<u64, NodeView>) -> bool {
    &&& m2.dom() == m1.dom()
    &&& forall|y: u64| #[trigger]
        m2.contains_key(y) ==> m2[y].parent == m1[y].parent && m2[y].children == m1[y].children
            && m2[y].style == m1[y].style && m2[y].context == m1[y].context
}

/// The node's dirty flag and every part of its cached layout other than
/// its position and paint order are as they were: evidence that the box
/// was reused, not recomputed.
pub open spec fn keeps_unrounded(pre: NodeView, post: NodeView) -> bool {
    &&& post.dirty == pre.dirty
    &&& (post.cache is Some <==> pre.cache is Some)
    &&& (pre.cache is Some ==> {
        let a = pre.cache->0;
        let b = post.cache->0;
        &&& b.space == a.space
        &&& b.unrounded.size == a.unrounded.size
        &&& b.unrounded.content_size == a.unrounded.content_size
        &&& b.unrounded.scrollbar_size == a.unrounded.scrollbar_size
        &&& b.unrounded.border == a.unrounded.border
        &&& b.unrounded.padding == a.unrounded.padding
        &&& b.unrounded.margin == a.unrounded.margin
    })
}

/// What holds of a node the walk recomputed: clean, freshly cached under
/// this available space, geometry in bounds.
pub open spec fn fresh_entry(post: NodeView, space: AvailableSize) -> bool {
    &&& !post.dirty
    &&& post.cache is Some
    &&& post.cache->0.space == space
    &&& layout_bounded(post.cache->0.unrounded)
}

/// The resolved layout is the unrounded one rounded to whole pixels: every
/// coordinate and size moved by strictly less than one pixel, no length
/// went negative, and the paint order is untouched.
pub open spec fn rounded_near(unr: Layout, res: Layout) -> bool {
    &&& res.order == unr.order
    &&& -(SCALE as int) < res.location.x - unr.location.x < SCALE as int
    &&& -(SCALE as int) < res.location.y - unr.location.y < SCALE as int
    &&& 0 <= res.size.width && -(SCALE as int) < res.size.width - unr.size.width < SCALE as int
    &&& 0 <= res.size.height && -(SCALE as int) < res.size.height - unr.size.height
        < SCALE as int
    &&& 0 <= res.content_size.width && -(SCALE as int) < res.content_size.width
        - unr.content_size.width < SCALE as int
    &&& 0 <= res.content_size.height && -(SCALE as int) < res.content_size.height
        - unr.content_size.height < SCALE as int
    &&& 0 <= res.scrollbar_size.width && -(SCALE as int) < res.scrollbar_size.width
        - unr.scrollbar_size.width < SCALE as int
    &&& 0 <= res.scrollbar_size.height && -(SCALE as int) < res.scrollbar_size.height
        - unr.scrollbar_size.height < SCALE as int
    &&& 0 <= res.border.left && -(SCALE as int) < res.border.left - unr.border.left
        < SCALE as int
    &&& 0 <= res.border.right && -(SCALE as int) < res.border.right - unr.border.right
        < SCALE as int
    &&& 0 <= res.border.top && -(SCALE as int) < res.border.top - unr.border.top < SCALE as int
    &&& 0 <= res.border.bottom && -(SCALE as int) < res.border.bottom - unr.border.bottom
        < SCALE as int
    &&& 0 <= res.padding.left && -(SCALE as int) < res.padding.left - unr.padding.left
        < SCALE as int
    &&& 0 <= res.padding.right && -(SCALE as int) < res.padding.right - unr.padding.right
        < SCALE as int
    &&& 0 <= res.padding.top && -(SCALE as int) < res.padding.top - unr.padding.top
        < SCALE as int
    &&& 0 <= res.padding.bottom && -(SCALE as int) < res.padding.bottom - unr.padding.bottom
        < SCALE as int
    &&& 0 <= res.margin.left && -(SCALE as int) < res.margin.left - unr.margin.left
        < SCALE as int
    &&& 0 <= res.margin.right && -(SCALE as int) < res.margin.right - unr.margin.right
        < SCALE as int
    &&& 0 <= res.margin.top && -(SCALE as int) < res.margin.top - unr.margin.top < SCALE as int
    &&& 0 <= res.margin.bottom && -(SCALE as int) < res.margin.bottom - unr.margin.bottom
        < SCALE as int
}

/// Submap inclusion is transitive.
proof fn lemma_submap_trans(a: Map<u64, SizeUnits>, b: Map<u64, SizeUnits>, c: Map<u64, SizeUnits>)
    requires
        a.submap_of(b),
        b.submap_of(c),
    ensures
        a.submap_of(c),
{
    assert forall|k: u64| #[trigger] a.dom().contains(k) implies c.dom().contains(k) && c[k]
        == a[k] by {
        let ghost inb = b.dom().contains(k);
        assert(b.dom().contains(k) && b[k] == a[k]);
        let ghost inc = c.dom().contains(k);
        assert(c.dom().contains(k) && c[k] == b[k]);
    }
}

/// Inserting an unbound key keeps every existing binding.
proof fn lemma_submap_insert(a: Map<u64, SizeUnits>, b: Map<u64, SizeUnits>, x: u64, v: SizeUnits)
    requires
        a.submap_of(b),
        !b.contains_key(x),
    ensures
        a.submap_of(b.insert(x, v)),
        b.submap_of(b.insert(x, v)),
{
    assert forall|k: u64| #[trigger] a.dom().contains(k) implies b.insert(x, v).dom().contains(k)
        && b.insert(x, v)[k] == a[k] by {
        let ghost inb = b.dom().contains(k);
        assert(b.dom().contains(k) && b[k] == a[k]);
        assert(k != x);
    }
    assert forall|k: u64| #[trigger] b.dom().contains(k) implies b.insert(x, v).dom().contains(k)
        && b.insert(x, v)[k] == b[k] by {
        assert(k != x);
    }
}

/// A measure report the tree will accept: both axes definite, non-negative
/// and within the stored-geometry range.
pub open spec fn measure_usable(report: SizeUnits) -> bool {
    0 <= report.width <= COORD_LIMIT && 0 <= report.height <= COORD_LIMIT
}

/// Validates what the measure capability returned for a childless leaf: a
/// usable report passes through unchanged and becomes the leaf's intrinsic
/// content size, any other report fails the computation with
/// `MeasurementFailed`.
pub fn accept_measure(report: SizeUnits) -> (r: Result<SizeUnits, TreeError>)
    ensures
        measure_usable(report) ==> r == Result::<SizeUnits, TreeError>::Ok(report),
        !measure_usable(report) ==> r == Result::<SizeUnits, TreeError>::Err(
            TreeError::MeasurementFailed,
        ),
{
    if 0 <= report.width && report.width <= COORD_LIMIT && 0 <= report.height && report.height
        <= COORD_LIMIT {
        Ok(report)
    } else {
        Err(TreeError::MeasurementFailed)
    }
}

/// The dimensions already fixed for a leaf when its content is measured:
/// per axis, the style's definite length, or unknown.
pub fn known_dimensions_of(style: &Style) -> (r: KnownDimensions)
    ensures
        r.width == (match style.size.width {
            Dimension::Length(v) => Some(v),
            _ => Option::<i64>::None,
        }),
        r.height == (match style.size.height {
            Dimension::Length(v) => Some(v),
            _ => Option::<i64>::None,
        }),
{
    KnownDimensions {
        width: match style.size.width {
            Dimension::Length(v) => Some(v),
            _ => None,
        },
        height: match style.size.height {
            Dimension::Length(v) => Some(v),
            _ => None,
        },
    }
}

/// A box the tree will accept from the layout algorithm for a node with
/// `n_children` children: every field non-negative and within the
/// stored-geometry range, one in-range position per child.
pub open spec fn engine_box_usable(b: EngineBox, n_children: nat) -> bool {
    &&& 0 <= b.size.width <= COORD_LIMIT && 0 <= b.size.height <= COORD_LIMIT
    &&& 0 <= b.content_size.width <= COORD_LIMIT && 0 <= b.content_size.height <= COORD_LIMIT
    &&& 0 <= b.scrollbar_size.width <= COORD_LIMIT && 0 <= b.scrollbar_size.height <= COORD_LIMIT
    &&& 0 <= b.border.left <= COORD_LIMIT && 0 <= b.border.right <= COORD_LIMIT
    &&& 0 <= b.border.top <= COORD_LIMIT && 0 <= b.border.bottom <= COORD_LIMIT
    &&& 0 <= b.padding.left <= COORD_LIMIT && 0 <= b.padding.right <= COORD_LIMIT
    &&& 0 <= b.padding.top <= COORD_LIMIT && 0 <= b.padding.bottom <= COORD_LIMIT
    &&& 0 <= b.margin.left <= COORD_LIMIT && 0 <= b.margin.right <= COORD_LIMIT
    &&& 0 <= b.margin.top <= COORD_LIMIT && 0 <= b.margin.bottom <= COORD_LIMIT
    &&& b.child_positions@.len() == n_children
    &&& forall|u: int|
        0 <= u < b.child_positions@.len() ==> coord_ok(
            (#[trigger] b.child_positions@[u]).x as int,
        ) && coord_ok(b.child_positions@[u].y as int)
}

/// The cache entry a usable engine box yields for the node itself: the
/// box's own geometry at the origin and first in paint order (the parent
/// assigns the real position and order later), with `content` as the
/// content size.
pub open spec fn engine_layout(b: EngineBox, content: SizeUnits) -> Layout {
    Layout {
        order: 0,
        location: PointUnits { x: 0, y: 0 },
        size: b.size,
        content_size: content,
        scrollbar_size: b.scrollbar_size,
        border: b.border,
        padding: b.padding,
        margin: b.margin,
    }
}

/// A child's record after its parent assigned it a position and a paint
/// order: both copied into the unrounded layout, the resolved layout reset
/// to match, the node clean.
pub open spec fn patched_node(v: NodeView, pos: PointUnits, order: u64) -> NodeView {
    NodeView {
        cache: Some(
            CacheEntry {
                unrounded: Layout { location: pos, order, ..v.cache->0.unrounded },
                resolved: Layout { location: pos, order, ..v.cache->0.unrounded },
                space: v.cache->0.space,
            },
        ),
        dirty: false,
        ..v
    }
}

/// What a successful layout computation guarantees, when the root was not
/// itself a cache hit. `computed` is the set of nodes the algorithm was
/// run for; `measured` the content sizes used for recomputed leaves.
pub open spec fn layout_pass_ok(
    pre: Map<u64, NodeView>,
    post: Map<u64, NodeView>,
    computed: Set<u64>,
    measured: Map<u64, SizeUnits>,
    root: u64,
    space: AvailableSize,
    rounding: bool,
    has_measure: bool,
) -> bool {
    &&& same_shape(pre, post)
    // nothing outside the computed subtree moves
    &&& forall|y: u64| #[trigger]
        pre.contains_key(y) && !in_subtree(pre, y, root) ==> post[y] == pre[y]
    // the algorithm ran exactly within the subtree, never for a reusable box
    &&& forall|y: u64| #[trigger]
        computed.contains(y) ==> in_subtree(pre, y, root) && !cache_hit(pre, y, space)
    // and it ran for every stale node of the subtree
    &&& forall|y: u64| #[trigger] in_subtree(pre, y, root) && pre[y].dirty ==> computed.contains(y)
    // every recomputed node is clean and freshly cached under this space
    &&& forall|y: u64| #[trigger]
        computed.contains(y) ==> fresh_entry(post[y], space) && (rounding ==> rounded_near(
            post[y].cache->0.unrounded,
            post[y].cache->0.resolved,
        )) && (!rounding ==> post[y].cache->0.resolved == post[y].cache->0.unrounded) && (
        pre[y].children.len() == 0 ==> measured.contains_key(y)
            && post[y].cache->0.unrounded.content_size == measured[y])
    // recomputed childless leaves carry exactly the measured content size
    &&& forall|y: u64| #[trigger]
        measured.contains_key(y) ==> computed.contains(y) && 0 <= measured[y].width <= COORD_LIMIT
            && 0 <= measured[y].height <= COORD_LIMIT && (!has_measure ==> measured[y]
            == SizeUnits { width: 0, height: 0 })
    // reused boxes keep their geometry, re-rounded at most
    &&& forall|y: u64| #[trigger]
        in_subtree(pre, y, root) && !computed.contains(y) ==> keeps_unrounded(pre[y], post[y])
            && (rounding && post[y].cache is Some ==> rounded_near(
            post[y].cache->0.unrounded,
            post[y].cache->0.resolved,
        ))
    // dirty flags are only ever cleared
    &&& forall|y: u64| #[trigger] post.contains_key(y) && post[y].dirty ==> pre[y].dirty
    // the root itself was recomputed, at the origin and first in paint order,
    // in the reported variant as well as the raw one
    &&& computed.contains(root)
    &&& post[root].cache->0.unrounded.location == (PointUnits { x: 0, y: 0 })
    &&& post[root].cache->0.unrounded.order == 0
    &&& post[root].cache->0.resolved.location == (PointUnits { x: 0, y: 0 })
    &&& post[root].cache->0.resolved.order == 0
}

/// What even a failed layout computation guarantees: the walk stopped
/// without corrupting anything, and what it had completed stands.
pub open spec fn layout_pass_partial(
    pre: Map<u64, NodeView>,
    post: Map<u64, NodeView>,
    computed: Set<u64>,
    root: u64,
    space: AvailableSize,
) -> bool {
    &&& same_shape(pre, post)
    &&& forall|y: u64| #[trigger]
        pre.contains_key(y) && !in_subtree(pre, y, root) ==> post[y] == pre[y]
    &&& forall|y: u64| #[trigger]
        computed.contains(y) ==> in_subtree(pre, y, root) && !cache_hit(pre, y, space)
            && fresh_entry(post[y], space)
    &&& forall|y: u64| #[trigger]
        in_subtree(pre, y, root) && !computed.contains(y) ==> keeps_unrounded(pre[y], post[y])
    // a node whose parent was not recomputed either keeps its whole record,
    // cached layout, reported variant and flags included
    &&& forall|y: u64| #[trigger]
        in_subtree(pre, y, root) && !computed.contains(y) && (y == root || !computed.contains(
            pre[y].parent->0,
        )) ==> post[y] == pre[y]
    &&& forall|y: u64| #[trigger] post.contains_key(y) && post[y].dirty ==> pre[y].dirty
    &&& !computed.contains(root)
}

/// The subpixel remainder of a coordinate: how far it sits above the
/// nearest whole-pixel boundary at or below it.
pub open spec fn frac_units(v: int) -> int {
    v % (SCALE as int)
}

/// Computes the subpixel remainder of a coordinate.
fn frac_of(v: i64) -> (r: i64)
    requires
        -COORD_LIMIT - SCALE <= v <= COORD_LIMIT + SCALE,
    ensures
        r == frac_units(v as int),
        0 <= r < SCALE,
{
    let shifted: u64 = (v + COORD_LIMIT + SCALE) as u64;
    let r: i64 = (shifted % 64) as i64;
    proof {
        let s = SCALE as int;
        let off: int = (COORD_LIMIT + SCALE) as int;
        vstd::arithmetic::div_mod::lemma_mod_multiples_vanish(off / s, v as int, s);
        assert(off == (off / s) * s);
        assert((s * (off / s) + v) == v + off);
        vstd::arithmetic::div_mod::lemma_mod_bound(v as int, s);
    }
    r
}

/// Every node of a clean node's subtree is clean.
proof fn lemma_clean_subtree(m: Map<u64, NodeView>, x: u64, y: u64)
    requires
        parents_live(m),
        m.dom().finite(),
        crate::ancestry::acyclic(m),
        dirty_upward_closed(m),
        in_subtree(m, y, x),
        m.contains_key(x),
        !m[x].dirty,
    ensures
        !m[y].dirty,
{
    if y != x && m[y].dirty {
        let chain = ancestors(m, y);
        let i = choose|i: int| 0 <= i < chain.len() && #[trigger] chain[i] == x;
        lemma_dirty_along_chain(m, y, i);
    }
}

/// A dirty node's whole ancestor chain is dirty.
proof fn lemma_dirty_along_chain(m: Map<u64, NodeView>, y: u64, i: int)
    requires
        parents_live(m),
        m.dom().finite(),
        crate::ancestry::acyclic(m),
        dirty_upward_closed(m),
        m.contains_key(y),
        m[y].dirty,
        0 <= i < ancestors(m, y).len(),
    ensures
        m[ancestors(m, y)[i]].dirty,
    decreases i,
{
    let f = m.dom().len();
    let chain = ancestors(m, y);
    crate::ancestry::lemma_chain_live(m, y, f);
    if i == 0 {
        crate::ancestry::lemma_child_ancestors(m, y);
        assert(chain[0] == m[y].parent->0);
    } else {
        lemma_dirty_along_chain(m, y, i - 1);
        let a = chain[i - 1];
        crate::ancestry::lemma_chain_suffix(m, y, f, i - 1);
        crate::ancestry::lemma_chain_standard(m, a, f);
        crate::ancestry::lemma_child_ancestors(m, a);
        assert(ancestors(m, a) == chain.skip(i));
        assert(ancestors(m, a)[0] == chain[i]);
        assert(m[a].parent == Some(chain[i]));
    }
}

/// The node's record is unchanged apart from its resolved layout, which
/// is now a whole-pixel rounding of the unrounded one.
pub open spec fn rounded_node(pre_y: NodeView, post_y: NodeView) -> bool {
    &&& pre_y.cache is Some
    &&& post_y.cache is Some
    &&& (post_y == NodeView {
        cache: Some(
            CacheEntry {
                unrounded: pre_y.cache->0.unrounded,
                resolved: post_y.cache->0.resolved,
                space: pre_y.cache->0.space,
            },
        ),
        ..pre_y
    })
    &&& rounded_near(pre_y.cache->0.unrounded, post_y.cache->0.resolved)
}

/// Everything in the subtree of `x` carries its old record with the
/// resolved layout replaced by a whole-pixel rounding of the unrounded
/// one; everything outside is untouched.
pub open spec fn rounded_region(
    pre: Map<u64, NodeView>,
    post: Map<u64, NodeView>,
    x: u64,
) -> bool {
    &&& post.dom() == pre.dom()
    &&& forall|y: u64| #[trigger]
        post.contains_key(y) ==> ((in_subtree(pre, y, x) ==> rounded_node(pre[y], post[y])) && (
        !in_subtree(pre, y, x) ==> post[y] == pre[y]))
}

impl TaffyTree {
    /// Rounds the resolved layouts of a clean subtree to whole pixels, top
    /// down: each node is rounded against the subpixel remainder of its
    /// parent's absolute position, so rounding error never accumulates.
    fn round_subtree(&mut self, x: u64, fx: i64, fy: i64)
        requires
            old(self).wf(),
            old(self)@.contains_key(x),
            !old(self)@[x].dirty,
            0 <= fx < SCALE,
            0 <= fy < SCALE,
            forall|y: u64| #[trigger]
                in_subtree(old(self)@, y, x) ==> old(self)@[y].cache is Some,
        ensures
            final(self).wf(),
            rounded_region(old(self)@, final(self)@, x),
            final(self)@[x].cache->0.resolved.location.x == round_units(
                fx + old(self)@[x].cache->0.unrounded.location.x,
            ) - round_units(fx as int),
            final(self)@[x].cache->0.resolved.location.y == round_units(
                fy + old(self)@[x].cache->0.unrounded.location.y,
            ) - round_units(fy as int),
            final(self).rounding_enabled() == old(self).rounding_enabled(),
            final(self).retired_slots() == old(self).retired_slots(),
            final(self).computed_set() == old(self).computed_set(),
            final(self).measured_map() == old(self).measured_map(),
        decreases old(self)@.dom().len() - ancestors(old(self)@, x).len(),
    {
        let ghost pre = self@;
        proof {
            assert(in_subtree(pre, x, x));
        }
        let entry = self.get_entry(x).unwrap();
        let unr = entry.unrounded;
        proof {
            assert(layout_bounded(unr));
        }
        let r0x = round_to_pixel(fx);
        let r1x = round_to_pixel(fx + unr.location.x);
        let rx = r1x - r0x;
        let cfx = frac_of(fx + unr.location.x);
        let r0y = round_to_pixel(fy);
        let r1y = round_to_pixel(fy + unr.location.y);
        let ry = r1y - r0y;
        let cfy = frac_of(fy + unr.location.y);
        let rw = round_to_pixel(cfx + unr.size.width) - round_to_pixel(cfx);
        let rh = round_to_pixel(cfy + unr.size.height) - round_to_pixel(cfy);
        let rcw = round_to_pixel(cfx + unr.content_size.width) - round_to_pixel(cfx);
        let rch = round_to_pixel(cfy + unr.content_size.height) - round_to_pixel(cfy);
        proof {
            lemma_relative_round(fx as int, unr.location.x as int);
            lemma_relative_round(fy as int, unr.location.y as int);
            lemma_relative_round(cfx as int, unr.size.width as int);
            lemma_relative_round(cfy as int, unr.size.height as int);
            lemma_relative_round(cfx as int, unr.content_size.width as int);
            lemma_relative_round(cfy as int, unr.content_size.height as int);
        }
        let res = Layout {
            order: unr.order,
            location: PointUnits { x: rx, y: ry },
            size: SizeUnits { width: rw, height: rh },
            content_size: SizeUnits { width: rcw, height: rch },
            scrollbar_size: SizeUnits {
                width: self.round_plain(unr.scrollbar_size.width),
                height: self.round_plain(unr.scrollbar_size.height),
            },
            border: RectUnits {
                left: self.round_plain(unr.border.left),
                right: self.round_plain(unr.border.right),
                top: self.round_plain(unr.border.top),
                bottom: self.round_plain(unr.border.bottom),
            },
            padding: RectUnits {
                left: self.round_plain(unr.padding.left),
                right: self.round_plain(unr.padding.right),
                top: self.round_plain(unr.padding.top),
                bottom: self.round_plain(unr.padding.bottom),
            },
            margin: RectUnits {
                left: self.round_plain(unr.margin.left),
                right: self.round_plain(unr.margin.right),
                top: self.round_plain(unr.margin.top),
                bottom: self.round_plain(unr.margin.bottom),
            },
        };
        proof {
            assert(rounded_near(unr, res));
            assert(layout_bounded_loose(res));
        }
        self.write_entry(x, CacheEntry { unrounded: unr, resolved: res, space: entry.space });
        proof {
            let m1 = self@;
            assert(m1 == pre.insert(
                x,
                NodeView {
                    cache: Some(CacheEntry { unrounded: unr, resolved: res, space: entry.space }),
                    dirty: false,
                    ..pre[x]
                },
            ));
            assert(m1.dom() =~= pre.dom());
            lemma_structure_predicates(pre, m1);
            assert(self.wf()) by {
                assert(dirty_upward_closed(m1));
                assert(clean_has_cache(m1));
                assert(caches_bounded(m1));
            }
        }
        // recurse into the children against this node's own remainder
        let kid_count = match self.child_count(x) {
            Result::Ok(n) => n,
            Result::Err(_) => 0,
        };
        let ghost kids = pre[x].children;
        let ghost after_self = self@;
        let mut j: usize = 0;
        while j < kid_count
            invariant
                self.wf(),
                pre == old(self)@,
                parents_live(pre),
                coherent(pre),
                crate::ancestry::acyclic(pre),
                pre.dom().finite(),
                dirty_upward_closed(pre),
                pre.contains_key(x),
                !pre[x].dirty,
                forall|y: u64| #[trigger] in_subtree(pre, y, x) ==> pre[y].cache is Some,
                kids == pre[x].children,
                kid_count == kids.len(),
                j <= kid_count,
                0 <= cfx < SCALE,
                0 <= cfy < SCALE,
                self@.dom() == pre.dom(),
                self@[x] == after_self[x],
                rounded_node(pre[x], after_self[x]),
                forall|y: u64| #[trigger]
                    self@.contains_key(y) && y != x ==> (((exists|t: int|
                        0 <= t < j && in_subtree(pre, y, #[trigger] kids[t]))
                        ==> rounded_node(pre[y], self@[y])) && (!(exists|t: int|
                        0 <= t < j && in_subtree(pre, y, #[trigger] kids[t])) ==> self@[y]
                        == pre[y])),
                self.rounding_enabled() == old(self).rounding_enabled(),
                self.retired_slots() == old(self).retired_slots(),
                self.computed_set() == old(self).computed_set(),
                self.measured_map() == old(self).measured_map(),
            decreases kid_count - j,
        {
            let c = match self.child_at_index(x, j) {
                Result::Ok(c) => c,
                Result::Err(_) => 0,
            };
            proof {
                assert(self@[x].children == pre[x].children);
                assert(c == kids[j as int]);
                assert(pre.contains_key(c) && pre[c].parent == Some(x));
                lemma_subtree_child(pre, x, c);
                // the child's subtree is untouched so far
                assert forall|y: u64| #[trigger] in_subtree(self@, y, c) implies self@[y]
                    == pre[y] && in_subtree(pre, y, c) by {
                    lemma_structure_predicates(pre, self@);
                    assert(in_subtree(pre, y, c));
                    assert(y != x);
                    if exists|t: int| 0 <= t < j && in_subtree(pre, y, #[trigger] kids[t]) {
                        let t = choose|t: int|
                            0 <= t < j && in_subtree(pre, y, #[trigger] kids[t]);
                        lemma_sibling_disjoint(pre, x, c, kids[t], y);
                    }
                }
                lemma_structure_predicates(pre, self@);
                assert forall|y: u64| #[trigger] in_subtree(self@, y, c) implies self@[y].cache
                    is Some by {
                    assert(in_subtree(pre, y, c));
                    assert(in_subtree(pre, y, x));
                }
                assert(!self@[c].dirty) by {
                    assert(!pre[c].dirty);
                }
                // the recursion measure shrinks one level down
                crate::ancestry::lemma_child_ancestors(pre, c);
                crate::ancestry::lemma_chain_len_bound(
                    pre,
                    c,
                    pre.dom().len(),
                );
                assert(ancestors(self@, c) == ancestors(pre, c));
                assert(ancestors(self@, c).len() == ancestors(pre, x).len() + 1);
            }
            let ghost before_child = self@;
            self.round_subtree(c, cfx, cfy);
            proof {
                assert forall|y: u64| #[trigger] self@.contains_key(y) && y != x implies (((
                exists|t: int| 0 <= t < j + 1 && in_subtree(pre, y, #[trigger] kids[t]))
                    ==> rounded_node(pre[y], self@[y])) && (!(exists|t: int|
                    0 <= t < j + 1 && in_subtree(pre, y, #[trigger] kids[t])) ==> self@[y]
                    == pre[y])) by {
                    if in_subtree(before_child, y, c) {
                        assert(in_subtree(pre, y, c));
                        assert(before_child[y] == pre[y]);
                        assert(kids[j as int] == c);
                    } else {
                        assert(self@[y] == before_child[y]);
                        if exists|t: int| 0 <= t < j + 1 && in_subtree(pre, y, #[trigger] kids[t]) {
                            let t = choose|t: int|
                                0 <= t < j + 1 && in_subtree(pre, y, #[trigger] kids[t]);
                            if t == j {
                                lemma_structure_predicates(pre, before_child);
                                assert(in_subtree(before_child, y, c));
                            }
                        }
                    }
                }
                assert(self@[x] == after_self[x]) by {
                    assert(!in_subtree(before_child, x, c)) by {
                        lemma_structure_predicates(pre, before_child);
                        lemma_subtree_child(pre, x, c);
                    }
                }
            }
            j = j + 1;
        }
        proof {
            assert forall|y: u64| #[trigger] self@.contains_key(y) implies ((in_subtree(
                pre,
                y,
                x,
            ) ==> rounded_node(pre[y], self@[y])) && (!in_subtree(pre, y, x) ==> self@[y]
                == pre[y])) by {
                if in_subtree(pre, y, x) && y != x {
                    let c = lemma_subtree_step(pre, y, x);
                    let t = choose|t: int|
                        0 <= t < kids.len() && #[trigger] kids[t] == c;
                    assert(in_subtree(pre, y, kids[t]));
                } else if !in_subtree(pre, y, x) {
                    if exists|t: int| 0 <= t < kids.len() && in_subtree(pre, y, #[trigger] kids[t])
                        {
                        let t = choose|t: int|
                            0 <= t < kids.len() && in_subtree(pre, y, #[trigger] kids[t]);
                        lemma_subtree_child(pre, x, kids[t]);
                    }
                }
            }
            assert(self@.dom() =~= pre.dom());
        }
    }

    /// Applies what the layout algorithm returned for node `x`, whose
    /// children must all carry clean boxes computed under `space`: a
    /// usable box (`engine_box_usable`) is stored, exactly as returned, as
    /// `x`'s fresh cache entry — a childless node keeps `intrinsic` as its
    /// content size — and child `u` receives position
    /// `child_positions[u]` and paint order `u`; any other box fails with
    /// `LayoutFailed` and changes nothing.
    pub fn apply_engine_box(
        &mut self,
        x: u64,
        out: EngineBox,
        intrinsic: SizeUnits,
        space: AvailableSize,
    ) -> (r: Result<(), TreeError>)
        requires
            old(self).wf(),
            old(self)@.contains_key(x),
            0 <= intrinsic.width <= COORD_LIMIT,
            0 <= intrinsic.height <= COORD_LIMIT,
            forall|u: int|
                0 <= u < old(self)@[x].children.len() ==> {
                    let c = #[trigger] old(self)@[x].children[u];
                    &&& !old(self)@[c].dirty
                    &&& old(self)@[c].cache is Some
                    &&& old(self)@[c].cache->0.space == space
                },
        ensures
            final(self).wf(),
            final(self).rounding_enabled() == old(self).rounding_enabled(),
            final(self).retired_slots() == old(self).retired_slots(),
            final(self).computed_set() == old(self).computed_set(),
            final(self).measured_map() == old(self).measured_map(),
            !engine_box_usable(out, old(self)@[x].children.len()) ==> r == Result::<
                (),
                TreeError,
            >::Err(TreeError::LayoutFailed) && *final(self) == *old(self),
            engine_box_usable(out, old(self)@[x].children.len()) ==> r == Result::<
                (),
                TreeError,
            >::Ok(()) && final(self)@.dom() == old(self)@.dom() && ({
                let kids = old(self)@[x].children;
                let content = if kids.len() == 0 {
                    intrinsic
                } else {
                    out.content_size
                };
                &&& (final(self)@[x] == NodeView {
                    cache: Some(
                        CacheEntry {
                            unrounded: engine_layout(out, content),
                            resolved: engine_layout(out, content),
                            space,
                        },
                    ),
                    dirty: false,
                    ..old(self)@[x]
                })
                &&& forall|u: int|
                    0 <= u < kids.len() ==> final(self)@[#[trigger] kids[u]] == patched_node(
                        old(self)@[kids[u]],
                        out.child_positions@[u],
                        u as u64,
                    )
                &&& forall|y: u64| #[trigger]
                    final(self)@.contains_key(y) && y != x && !kids.contains(y) ==> final(self)@[y] == old(self)@[y]
            }),
    {
        let ghost m_e = self@;
        let kids = match self.children(x) {
            Result::Ok(k) => k,
            Result::Err(_) => Vec::new(),
        };
        // validate every field and position before touching anything
        let fields_ok = 0 <= out.size.width && out.size.width <= COORD_LIMIT && 0
            <= out.size.height && out.size.height <= COORD_LIMIT && 0 <= out.content_size.width
            && out.content_size.width <= COORD_LIMIT && 0 <= out.content_size.height
            && out.content_size.height <= COORD_LIMIT && 0 <= out.scrollbar_size.width
            && out.scrollbar_size.width <= COORD_LIMIT && 0 <= out.scrollbar_size.height
            && out.scrollbar_size.height <= COORD_LIMIT && 0 <= out.border.left
            && out.border.left <= COORD_LIMIT && 0 <= out.border.right && out.border.right
            <= COORD_LIMIT && 0 <= out.border.top && out.border.top <= COORD_LIMIT && 0
            <= out.border.bottom && out.border.bottom <= COORD_LIMIT && 0 <= out.padding.left
            && out.padding.left <= COORD_LIMIT && 0 <= out.padding.right && out.padding.right
            <= COORD_LIMIT && 0 <= out.padding.top && out.padding.top <= COORD_LIMIT && 0
            <= out.padding.bottom && out.padding.bottom <= COORD_LIMIT && 0 <= out.margin.left
            && out.margin.left <= COORD_LIMIT && 0 <= out.margin.right && out.margin.right
            <= COORD_LIMIT && 0 <= out.margin.top && out.margin.top <= COORD_LIMIT && 0
            <= out.margin.bottom && out.margin.bottom <= COORD_LIMIT;
        if !fields_ok {
            return Err(TreeError::LayoutFailed);
        }
        if out.child_positions.len() != kids.len() {
            return Err(TreeError::LayoutFailed);
        }
        let mut positions_ok = true;
        let mut t: usize = 0;
        while t < kids.len()
            invariant
                t <= kids@.len(),
                out.child_positions@.len() == kids@.len(),
                positions_ok ==> forall|u: int|
                    0 <= u < t ==> coord_ok(out.child_positions@[u].x as int) && coord_ok(
                        out.child_positions@[u].y as int,
                    ),
                !positions_ok ==> exists|u: int|
                    0 <= u < t && !(coord_ok((#[trigger] out.child_positions@[u]).x as int)
                        && coord_ok(out.child_positions@[u].y as int)),
            decreases kids@.len() - t,
        {
            let p = out.child_positions[t];
            if !(-COORD_LIMIT <= p.x && p.x <= COORD_LIMIT && -COORD_LIMIT <= p.y && p.y
                <= COORD_LIMIT) {
                positions_ok = false;
                proof {
                    assert(!(coord_ok((out.child_positions@[t as int]).x as int) && coord_ok(
                        out.child_positions@[t as int].y as int,
                    )));
                }
            }
            t = t + 1;
        }
        if !positions_ok {
            return Err(TreeError::LayoutFailed);
        }
        proof {
            assert(engine_box_usable(out, m_e[x].children.len()));
            // a node never lists itself among its children
            assert(!kids@.contains(x)) by {
                if kids@.contains(x) {
                    assert(m_e[x].parent == Some(x));
                    crate::ancestry::lemma_child_ancestors(m_e, x);
                    crate::ancestry::lemma_chain_standard(m_e, x, m_e.dom().len());
                    crate::ancestry::lemma_chain_distinct(m_e, x, m_e.dom().len());
                    assert(ancestors(m_e, x)[0] == x);
                }
            }
        }
        // write the position and paint order the algorithm chose for each child
        let mut t: usize = 0;
        while t < kids.len()
            invariant
                self.wf(),
                m_e == old(self)@,
                parents_live(m_e),
                coherent(m_e),
                crate::ancestry::acyclic(m_e),
                m_e.dom().finite(),
                m_e.contains_key(x),
                kids@ == m_e[x].children,
                !kids@.contains(x),
                t <= kids@.len(),
                out.child_positions@.len() == kids@.len(),
                forall|u: int|
                    0 <= u < kids@.len() ==> coord_ok(out.child_positions@[u].x as int)
                        && coord_ok(out.child_positions@[u].y as int),
                forall|u: int|
                    0 <= u < kids@.len() ==> !m_e[#[trigger] kids@[u]].dirty && m_e[kids@[u]].cache
                        is Some && m_e[kids@[u]].cache->0.space == space && layout_bounded(
                        m_e[kids@[u]].cache->0.unrounded,
                    ),
                self@.dom() == m_e.dom(),
                same_shape(m_e, self@),
                forall|y: u64| #[trigger]
                    self@.contains_key(y) && !kids@.take(t as int).contains(y) ==> self@[y]
                        == m_e[y],
                forall|u: int|
                    0 <= u < t ==> self@[#[trigger] kids@[u]] == patched_node(
                        m_e[kids@[u]],
                        out.child_positions@[u],
                        u as u64,
                    ),
                self.computed_set() == old(self).computed_set(),
                self.measured_map() == old(self).measured_map(),
                self.rounding_enabled() == old(self).rounding_enabled(),
                self.retired_slots() == old(self).retired_slots(),
            decreases kids@.len() - t,
        {
            let c = kids[t];
            proof {
                assert(m_e[x].children[t as int] == c);
                assert(m_e.contains_key(c));
                assert(self@.contains_key(c));
                assert(self@[c] == m_e[c]) by {
                    if kids@.take(t as int).contains(c) {
                        let u = choose|u: int|
                            0 <= u < t && #[trigger] kids@.take(t as int)[u] == c;
                        assert(m_e[x].children.no_duplicates());
                        assert(kids@[u] == kids@[t as int]);
                    }
                }
            }
            let ce = match self.get_entry(c) {
                Option::Some(e) => e,
                Option::None => CacheEntry {
                    unrounded: Layout::zero(),
                    resolved: Layout::zero(),
                    space,
                },
            };
            let pos = out.child_positions[t];
            let lay2 = Layout {
                location: PointUnits { x: pos.x, y: pos.y },
                order: t as u64,
                ..ce.unrounded
            };
            let ghost before_write = self@;
            self.write_entry(c, CacheEntry { unrounded: lay2, resolved: lay2, space: ce.space });
            proof {
                let post = self@;
                assert(post == before_write.insert(c, NodeView {
                    cache: Some(CacheEntry { unrounded: lay2, resolved: lay2, space: ce.space }),
                    dirty: false,
                    ..before_write[c]
                }));
                assert(post.dom() =~= m_e.dom());
                lemma_structure_predicates(m_e, post);
                assert(post[c] == patched_node(m_e[c], out.child_positions@[t as int], t as u64));
                assert(self.wf()) by {
                    assert(dirty_upward_closed(post)) by {
                        assert forall|y: u64| #[trigger] post.contains_key(y) && post[y].dirty
                            && post[y].parent is Some implies post[post[y].parent->0].dirty by {
                            assert(before_write[y].dirty);
                            assert(before_write[before_write[y].parent->0].dirty);
                            assert(post[y].parent == before_write[y].parent);
                            assert(before_write[y].parent->0 != c) by {
                                if before_write[y].parent->0 == c {
                                    assert(!before_write[c].dirty);
                                }
                            }
                        }
                    }
                    assert(clean_has_cache(post));
                    assert(caches_bounded(post)) by {
                        assert(layout_bounded(lay2));
                        assert(layout_bounded_loose(lay2));
                    }
                }
                assert forall|u: int| 0 <= u < t + 1 implies self@[#[trigger] kids@[u]]
                    == patched_node(m_e[kids@[u]], out.child_positions@[u], u as u64) by {
                    if u < t {
                        assert(kids@[u] != c) by {
                            assert(m_e[x].children.no_duplicates());
                        }
                        assert(self@[kids@[u]] == before_write[kids@[u]]);
                    }
                }
                assert forall|y: u64| #[trigger] self@.contains_key(y) && !kids@.take(
                    t as int + 1,
                ).contains(y) implies self@[y] == m_e[y] by {
                    crate::tree::lemma_take_push(kids@, t as int, y);
                    assert(y != c);
                }
            }
            t = t + 1;
        }
        // store this node's own box; its position is assigned by its parent
        let lay = Layout {
            order: 0,
            location: PointUnits { x: 0, y: 0 },
            size: out.size,
            content_size: if kids.len() == 0 {
                intrinsic
            } else {
                out.content_size
            },
            scrollbar_size: out.scrollbar_size,
            border: out.border,
            padding: out.padding,
            margin: out.margin,
        };
        let ghost m_p = self@;
        self.write_entry(x, CacheEntry { unrounded: lay, resolved: lay, space });
        proof {
            let post = self@;
            assert(post == m_p.insert(
                x,
                NodeView {
                    cache: Some(CacheEntry { unrounded: lay, resolved: lay, space }),
                    dirty: false,
                    ..m_p[x]
                },
            ));
            assert(post.dom() =~= m_e.dom());
            lemma_structure_predicates(m_e, post);
            assert(layout_bounded(lay));
            assert(kids@.take(kids@.len() as int) =~= kids@);
            assert(self.wf()) by {
                assert(dirty_upward_closed(post)) by {
                    assert forall|y: u64| #[trigger] post.contains_key(y) && post[y].dirty
                        && post[y].parent is Some implies post[post[y].parent->0].dirty by {
                        assert(m_p[y].dirty);
                        assert(y != x);
                        assert(m_p[m_p[y].parent->0].dirty);
                        assert(m_p[y].parent->0 != x) by {
                            if m_p[y].parent->0 == x {
                                // y would be a child of x, but all children are clean now
                                assert(m_e[y].parent == Some(x));
                                assert(m_e[x].children.contains(y));
                                let u = choose|u: int|
                                    0 <= u < kids@.len() && #[trigger] kids@[u] == y;
                                assert(m_p[y] == patched_node(
                                    m_e[y],
                                    out.child_positions@[u],
                                    u as u64,
                                ));
                                assert(!m_p[y].dirty);
                            }
                        }
                    }
                }
                assert(clean_has_cache(post));
                assert(caches_bounded(post)) by {
                    assert(layout_bounded_loose(lay));
                }
            }
            assert(post[x] == NodeView {
                cache: Some(
                    CacheEntry {
                        unrounded: engine_layout(
                            out,
                            if kids@.len() == 0 {
                                intrinsic
                            } else {
                                out.content_size
                            },
                        ),
                        resolved: engine_layout(
                            out,
                            if kids@.len() == 0 {
                                intrinsic
                            } else {
                                out.content_size
                            },
                        ),
                        space,
                    },
                ),
                dirty: false,
                ..m_e[x]
            }) by {
                assert(m_p[x] == m_e[x]);
            }
            assert forall|u: int| 0 <= u < kids@.len() implies post[#[trigger] kids@[u]]
                == patched_node(m_e[kids@[u]], out.child_positions@[u], u as u64) by {
                assert(kids@[u] != x);
                assert(m_p[kids@[u]] == patched_node(
                    m_e[kids@[u]],
                    out.child_positions@[u],
                    u as u64,
                ));
            }
            assert forall|y: u64| #[trigger] post.contains_key(y) && y != x && !kids@.contains(
                y,
            ) implies post[y] == m_e[y] by {
                assert(m_p[y] == m_e[y]);
            }
        }
        Ok(())
    }

    /// The post-order walk: computes every stale node of the subtree of
    /// `x` bottom-up, reusing every clean node whose cached layout carries
    /// this available-space signature.
    fn compute_node<E: LayoutEngine, M: Measure>(
        &mut self,
        x: u64,
        space: AvailableSize,
        engine: &mut E,
        measure: &mut M,
        has_measure: bool,
    ) -> (r: Result<(), TreeError>)
        requires
            old(self).wf(),
            old(self)@.contains_key(x),
            forall|y: u64| #[trigger]
                old(self).computed_set().contains(y) ==> !in_subtree(old(self)@, y, x),
            forall|y: u64| #[trigger]
                old(self).measured_map().contains_key(y) ==> old(self).computed_set().contains(y),
        ensures
            final(self).wf(),
            same_shape(old(self)@, final(self)@),
            forall|y: u64| #[trigger]
                old(self)@.contains_key(y) && !in_subtree(old(self)@, y, x) ==> final(self)@[y]
                    == old(self)@[y],
            old(self).computed_set().subset_of(final(self).computed_set()),
            forall|y: u64| #[trigger]
                final(self).computed_set().contains(y) && !old(self).computed_set().contains(y)
                    ==> in_subtree(old(self)@, y, x) && !cache_hit(old(self)@, y, space)
                    && fresh_entry(final(self)@[y], space) && final(self)@[y].cache->0.resolved
                    == final(self)@[y].cache->0.unrounded && (old(self)@[y].children.len() == 0
                    ==> final(self).measured_map().contains_key(y)
                    && final(self)@[y].cache->0.unrounded.content_size == final(self).measured_map()[y]),
            forall|y: u64| #[trigger]
                final(self)@.contains_key(y) && final(self)@[y].dirty ==> old(self)@[y].dirty,
            forall|y: u64| #[trigger]
                in_subtree(old(self)@, y, x) && !final(self).computed_set().contains(y)
                    ==> keeps_unrounded(old(self)@[y], final(self)@[y]),
            forall|y: u64| #[trigger]
                in_subtree(old(self)@, y, x) && !final(self).computed_set().contains(y) && (y == x
                    || !final(self).computed_set().contains(old(self)@[y].parent->0)) ==> final(self)@[y] == old(self)@[y],
            old(self).measured_map().submap_of(final(self).measured_map()),
            forall|y: u64| #[trigger]
                final(self).measured_map().contains_key(y) ==> final(self).computed_set().contains(y),
            forall|y: u64| #[trigger]
                final(self).measured_map().contains_key(y) && !old(self).measured_map().contains_key(y) ==> final(self).computed_set().contains(y) && 0
                    <= final(self).measured_map()[y].width <= COORD_LIMIT && 0 <= final(self).measured_map()[y].height <= COORD_LIMIT && (!has_measure ==> final(self).measured_map()[y] == SizeUnits { width: 0, height: 0 }),
            final(self).rounding_enabled() == old(self).rounding_enabled(),
            final(self).retired_slots() == old(self).retired_slots(),
            r is Ok && cache_hit(old(self)@, x, space) ==> final(self)@ == old(self)@ && final(self).computed_set() == old(self).computed_set() && final(self).measured_map() == old(self).measured_map(),
            r is Ok && !cache_hit(old(self)@, x, space) ==> final(self).computed_set().contains(
                x,
            ) && final(self)@[x].cache->0.unrounded.location == (PointUnits { x: 0, y: 0 })
                && final(self)@[x].cache->0.unrounded.order == 0,
            r is Ok ==> forall|y: u64| #[trigger]
                in_subtree(old(self)@, y, x) && old(self)@[y].dirty ==> final(self).computed_set().contains(y),
            r is Err ==> (r == Result::<(), TreeError>::Err(TreeError::MeasurementFailed) || r
                == Result::<(), TreeError>::Err(TreeError::LayoutFailed)) && (final(self).computed_set().contains(x) ==> old(self).computed_set().contains(x)),
            !has_measure ==> r != Result::<(), TreeError>::Err(TreeError::MeasurementFailed),
        decreases old(self)@.dom().len() - ancestors(old(self)@, x).len(),
    {
        let ghost pre = self@;
        let ghost comp0 = self.computed_set();
        let ghost meas0 = self.measured_map();
        let dirty_now = match self.dirty(x) {
            Result::Ok(d) => d,
            Result::Err(_) => true,
        };
        let entry_opt = self.get_entry(x);
        let is_hit = !dirty_now && (match &entry_opt {
            Option::Some(e) => e.space == space,
            Option::None => false,
        });
        if is_hit {
            proof {
                assert(cache_hit(pre, x, space));
                assert forall|y: u64| #[trigger] in_subtree(pre, y, x) && pre[y].dirty
                    implies self.computed_set().contains(y) by {
                    lemma_clean_subtree(pre, x, y);
                }
            }
            return Ok(());
        }
        proof {
            assert(!cache_hit(pre, x, space));
        }
        let style = match self.style(x) {
            Result::Ok(s) => s,
            Result::Err(_) => Style::new(),
        };
        let ctx = match self.get_node_context(x) {
            Result::Ok(c) => c,
            Result::Err(_) => None,
        };
        let kids = match self.children(x) {
            Result::Ok(k) => k,
            Result::Err(_) => Vec::new(),
        };
        let mut child_boxes: Vec<ChildBox> = Vec::new();
        let mut j: usize = 0;
        while j < kids.len()
            invariant
                self.wf(),
                pre == old(self)@,
                comp0 == old(self).computed_set(),
                meas0 == old(self).measured_map(),
                parents_live(pre),
                coherent(pre),
                crate::ancestry::acyclic(pre),
                pre.dom().finite(),
                dirty_upward_closed(pre),
                clean_has_cache(pre),
                caches_bounded(pre),
                pre.contains_key(x),
                !cache_hit(pre, x, space),
                kids@ == pre[x].children,
                j <= kids@.len(),
                same_shape(pre, self@),
                forall|y: u64| #[trigger]
                    pre.contains_key(y) && !in_subtree(pre, y, x) ==> self@[y] == pre[y],
                self@[x] == pre[x],
                comp0.subset_of(self.computed_set()),
                !self.computed_set().contains(x),
                forall|y: u64| #[trigger]
                    comp0.contains(y) ==> !in_subtree(pre, y, x),
                forall|y: u64| #[trigger]
                    self.computed_set().contains(y) && !comp0.contains(y) ==> (exists|t: int|
                        0 <= t < j && in_subtree(pre, y, #[trigger] kids@[t])),
                forall|y: u64| #[trigger]
                    self.measured_map().contains_key(y) ==> self.computed_set().contains(y),
                forall|y: u64| #[trigger]
                    self.computed_set().contains(y) && !comp0.contains(y) ==> in_subtree(
                        pre,
                        y,
                        x,
                    ) && !cache_hit(pre, y, space) && fresh_entry(self@[y], space)
                        && self@[y].cache->0.resolved == self@[y].cache->0.unrounded && (
                    pre[y].children.len() == 0 ==> self.measured_map().contains_key(y)
                        && self@[y].cache->0.unrounded.content_size == self.measured_map()[y]),
                forall|y: u64| #[trigger]
                    self@.contains_key(y) && self@[y].dirty ==> pre[y].dirty,
                forall|y: u64| #[trigger]
                    in_subtree(pre, y, x) && !self.computed_set().contains(y)
                        ==> keeps_unrounded(pre[y], self@[y]),
                forall|y: u64| #[trigger]
                    in_subtree(pre, y, x) && !self.computed_set().contains(y) && y != x
                        && !self.computed_set().contains(pre[y].parent->0) ==> self@[y] == pre[y],
                meas0.submap_of(self.measured_map()),
                forall|y: u64| #[trigger]
                    self.measured_map().contains_key(y) && !meas0.contains_key(y)
                        ==> self.computed_set().contains(y) && 0 <= self.measured_map()[y].width
                        <= COORD_LIMIT && 0 <= self.measured_map()[y].height <= COORD_LIMIT && (
                    !has_measure ==> self.measured_map()[y] == SizeUnits { width: 0, height: 0 }),
                forall|t: int, y: u64|
                    j <= t < kids@.len() && #[trigger] in_subtree(pre, y, kids@[t]) ==> self@[y]
                        == pre[y],
                forall|t: int|
                    0 <= t < j ==> !self@[#[trigger] kids[t]].dirty && self@[kids[t]].cache
                        is Some && self@[kids[t]].cache->0.space == space,
                forall|t: int, y: u64|
                    0 <= t < j && #[trigger] in_subtree(pre, y, kids@[t]) && pre[y].dirty
                        ==> self.computed_set().contains(y),
                child_boxes@.len() == j,
                self.rounding_enabled() == old(self).rounding_enabled(),
                self.retired_slots() == old(self).retired_slots(),
            decreases kids@.len() - j,
        {
            let c = kids[j];
            let ghost cur = self@;
            proof {
                assert(pre.contains_key(c) && pre[c].parent == Some(x)) by {
                    assert(pre[x].children[j as int] == c);
                }
                lemma_subtree_child(pre, x, c);
                assert(in_subtree(pre, c, c));
                assert(cur[c] == pre[c]);
                assert(self@.contains_key(c));
                lemma_structure_predicates(pre, cur);
                // the recursion measure shrinks one level down
                crate::ancestry::lemma_child_ancestors(pre, c);
                crate::ancestry::lemma_chain_len_bound(pre, c, pre.dom().len());
                assert(ancestors(cur, c) == ancestors(pre, c));
                assert(ancestors(cur, c).len() == ancestors(pre, x).len() + 1);
                assert(cur.dom() == pre.dom());
                // subtree membership agrees between pre and cur
                assert forall|y: u64| in_subtree(cur, y, c) == in_subtree(pre, y, c) by {
                    assert(ancestors(cur, y) == ancestors(pre, y));
                    assert(cur.contains_key(y) == pre.contains_key(y));
                }
                // nothing computed so far lies under this child
                assert forall|y: u64| #[trigger] self.computed_set().contains(y)
                    implies !in_subtree(cur, y, c) by {
                    if in_subtree(pre, y, c) {
                        if comp0.contains(y) {
                            assert(in_subtree(pre, y, x));
                        } else {
                            let t = choose|t: int|
                                0 <= t < j && in_subtree(pre, y, #[trigger] kids@[t]);
                            assert(kids@[t] != c) by {
                                assert(pre[x].children.no_duplicates());
                            }
                            assert(pre.contains_key(kids@[t]) && pre[kids@[t]].parent == Some(
                                x,
                            )) by {
                                assert(pre[x].children[t] == kids@[t]);
                            }
                            lemma_sibling_disjoint(pre, x, kids@[t], c, y);
                        }
                    }
                }
            }
            let ghost ccomp = self.computed_set();
            let ghost cmeas = self.measured_map();
            let res = self.compute_node(c, space, engine, measure, has_measure);
            proof {
                let post = self@;
                // translate the child's guarantees from `cur` back to `pre`
                assert forall|y: u64| #[trigger] cur.contains_key(y) && !in_subtree(pre, y, c)
                    implies post[y] == cur[y] by {}
                assert(same_shape(pre, post)) by {
                    assert forall|y: u64| #[trigger] post.contains_key(y) implies post[y].parent
                        == pre[y].parent && post[y].children == pre[y].children && post[y].style
                        == pre[y].style && post[y].context == pre[y].context by {
                        assert(cur.contains_key(y));
                    }
                }
                assert forall|y: u64| #[trigger] pre.contains_key(y) && !in_subtree(pre, y, x)
                    implies post[y] == pre[y] by {
                    if in_subtree(pre, y, c) {
                        assert(in_subtree(pre, y, x));
                    }
                }
                assert(post[x] == pre[x]) by {
                    assert(!in_subtree(pre, x, c));
                }
                // newly computed nodes sit in this child's subtree or an
                // earlier one, and both readings of their record agree
                assert forall|y: u64| #[trigger] self.computed_set().contains(y)
                    && !comp0.contains(y) implies in_subtree(pre, y, x) && !cache_hit(
                    pre,
                    y,
                    space,
                ) && fresh_entry(post[y], space) && post[y].cache->0.resolved
                    == post[y].cache->0.unrounded && (pre[y].children.len() == 0
                    ==> self.measured_map().contains_key(y)
                    && post[y].cache->0.unrounded.content_size == self.measured_map()[y]) by {
                    if ccomp.contains(y) {
                        // computed before this child: outside its subtree
                        assert(!cache_hit(pre, y, space));
                        if in_subtree(pre, y, c) {
                            assert(cur[y] == pre[y]);
                            assert(fresh_entry(cur[y], space));
                            assert(false);
                        }
                        assert(post[y] == cur[y]);
                    } else {
                        assert(in_subtree(cur, y, c));
                        assert(in_subtree(pre, y, c));
                        assert(cur[y] == pre[y]);
                        assert(in_subtree(pre, y, x));
                        assert(cur[y].children == pre[y].children);
                    }
                }
                assert forall|y: u64| #[trigger] post.contains_key(y) && post[y].dirty
                    implies pre[y].dirty by {
                    assert(cur.contains_key(y));
                }
                assert forall|y: u64| #[trigger] in_subtree(pre, y, x)
                    && !self.computed_set().contains(y) implies keeps_unrounded(
                    pre[y],
                    post[y],
                ) by {
                    if in_subtree(pre, y, c) {
                        assert(in_subtree(cur, y, c));
                        assert(cur[y] == pre[y]);
                        assert(!self.computed_set().contains(y));
                        assert(keeps_unrounded(cur[y], post[y]));
                    } else {
                        assert(post[y] == cur[y]);
                        assert(!ccomp.contains(y));
                    }
                }
                assert forall|y: u64| #[trigger] in_subtree(pre, y, x)
                    && !self.computed_set().contains(y) && y != x
                    && !self.computed_set().contains(pre[y].parent->0) implies post[y]
                    == pre[y] by {
                    if in_subtree(pre, y, c) {
                        assert(in_subtree(cur, y, c));
                        assert(cur[y] == pre[y]);
                        if y == c {
                            assert(cur[y].parent == pre[y].parent);
                            assert(post[y] == cur[y]);
                        } else {
                            assert(cur[y].parent == pre[y].parent);
                            assert(post[y] == cur[y]);
                        }
                    } else {
                        assert(post[y] == cur[y]);
                        assert(!ccomp.contains(y));
                        assert(!ccomp.contains(pre[y].parent->0));
                        assert(cur[y] == pre[y]);
                    }
                }
                lemma_submap_trans(meas0, cmeas, self.measured_map());
                assert forall|y: u64| #[trigger] self.measured_map().contains_key(y)
                    && !meas0.contains_key(y) implies self.computed_set().contains(y) && 0
                    <= self.measured_map()[y].width <= COORD_LIMIT && 0
                    <= self.measured_map()[y].height <= COORD_LIMIT && (!has_measure
                    ==> self.measured_map()[y] == SizeUnits { width: 0, height: 0 }) by {
                    if cmeas.contains_key(y) {
                        assert(self.measured_map()[y] == cmeas[y]);
                    }
                }
                // the new computed nodes lie under a processed child
                assert forall|y: u64| #[trigger] self.computed_set().contains(y)
                    && !comp0.contains(y) implies (exists|t: int|
                    0 <= t < j + 1 && in_subtree(pre, y, #[trigger] kids@[t])) by {
                    if ccomp.contains(y) {
                        let t = choose|t: int|
                            0 <= t < j && in_subtree(pre, y, #[trigger] kids@[t]);
                        assert(in_subtree(pre, y, kids@[t]));
                    } else {
                        assert(in_subtree(cur, y, c));
                        assert(in_subtree(pre, y, c));
                        assert(kids@[j as int] == c);
                    }
                }
                assert(!self.computed_set().contains(x)) by {
                    if self.computed_set().contains(x) && !ccomp.contains(x) {
                        assert(in_subtree(cur, x, c));
                        assert(in_subtree(pre, x, c));
                    }
                }
                // untouched later siblings
                assert forall|t: int, y: u64|
                    j + 1 <= t < kids@.len() && #[trigger] in_subtree(pre, y, kids@[t])
                    implies post[y] == pre[y] by {
                    assert(pre[x].children[t] == kids@[t]);
                    assert(pre.contains_key(kids@[t]) && pre[kids@[t]].parent == Some(x));
                    assert(kids@[t] != c) by {
                        assert(pre[x].children.no_duplicates());
                    }
                    lemma_sibling_disjoint(pre, x, kids@[t], c, y);
                    assert(!in_subtree(pre, y, c));
                    assert(in_subtree(pre, y, kids@[t]));
                }
                // earlier siblings keep their settled boxes
                assert forall|t: int|
                    0 <= t < j implies !post[#[trigger] kids[t]].dirty && post[kids[t]].cache
                    is Some && post[kids[t]].cache->0.space == space by {
                    assert(pre.contains_key(kids[t]) && pre[kids[t]].parent == Some(x));
                    assert(kids[t] != c) by {
                        assert(pre[x].children.no_duplicates());
                    }
                    lemma_subtree_child(pre, x, kids[t]);
                    assert(in_subtree(pre, kids[t], kids[t]));
                    lemma_sibling_disjoint(pre, x, kids[t], c, kids[t]);
                    assert(post[kids[t]] == cur[kids[t]]);
                }
            }
            match res {
                Result::Ok(()) => {},
                Result::Err(e) => {
                    return Err(e);
                },
            }
            proof {
                let post = self@;
                // this child now carries a usable box
                assert(!post[c].dirty && post[c].cache is Some && post[c].cache->0.space
                    == space) by {
                    if cache_hit(cur, c, space) {
                        assert(post == cur);
                        assert(cur[c] == pre[c]);
                    } else {
                        assert(self.computed_set().contains(c));
                        assert(fresh_entry(post[c], space));
                    }
                }
                // everything dirty in this child's subtree got recomputed
                assert forall|t: int, y: u64|
                    0 <= t < j + 1 && #[trigger] in_subtree(pre, y, kids@[t]) && pre[y].dirty
                    implies self.computed_set().contains(y) by {
                    if t == j {
                        assert(in_subtree(cur, y, c));
                        assert(cur[y] == pre[y]);
                    }
                }
            }
            let centry = self.get_entry(c).unwrap();
            child_boxes.push(ChildBox { id: c, layout: centry.unrounded });
            j = j + 1;
        }
        // a childless leaf reports its intrinsic content size, which is
        // validated by the contracted acceptance function
        let intrinsic: SizeUnits;
        if kids.len() == 0 {
            let reported = if has_measure {
                measure.measure(known_dimensions_of(&style), space, x, ctx, &style)
            } else {
                SizeUnits { width: 0, height: 0 }
            };
            intrinsic = match accept_measure(reported) {
                Result::Ok(usable) => usable,
                Result::Err(e) => {
                    return Err(e);
                },
            };
            proof {
                assert(measure_usable(intrinsic));
            }
        } else {
            intrinsic = SizeUnits { width: 0, height: 0 };
        }
        // ask the algorithm for this node's box; the contracted
        // application function validates and installs whatever came back
        let out = match engine.compute_box(&style, space, intrinsic, &child_boxes) {
            Option::Some(o) => o,
            Option::None => {
                return Err(TreeError::LayoutFailed);
            },
        };
        let ghost m_e = self@;
        let ghost comp_e = self.computed_set();
        proof {
            assert forall|u: int| 0 <= u < m_e[x].children.len() implies {
                let c = #[trigger] m_e[x].children[u];
                &&& !m_e[c].dirty
                &&& m_e[c].cache is Some
                &&& m_e[c].cache->0.space == space
            } by {
                assert(m_e[x].children == kids@);
                assert(!self@[kids@[u]].dirty && self@[kids@[u]].cache is Some
                    && self@[kids@[u]].cache->0.space == space);
            }
        }
        match self.apply_engine_box(x, out, intrinsic, space) {
            Result::Ok(()) => {},
            Result::Err(e) => {
                return Err(e);
            },
        }
        let ghost kids_g = m_e[x].children;
        let ghost content_g = if kids_g.len() == 0 { intrinsic } else { out.content_size };
        if kids.len() == 0 {
            proof {
                assert(!self.measured_map().contains_key(x)) by {
                    assert(!self.computed_set().contains(x));
                }
                lemma_submap_insert(meas0, self.measured_map(), x, intrinsic);
            }
            self.note_measured(x, intrinsic);
        }
        self.note_computed(x);
        proof {
            let post = self@;
            let lay = engine_layout(out, content_g);
            assert(post[x] == NodeView {
                cache: Some(CacheEntry { unrounded: lay, resolved: lay, space }),
                dirty: false,
                ..m_e[x]
            });
            assert(post.dom() =~= pre.dom());
            assert(kids_g == kids@);
            // assemble the subtree-wide guarantees
            assert forall|y: u64| #[trigger] self.computed_set().contains(y) && !comp0.contains(
                y,
            ) implies in_subtree(pre, y, x) && !cache_hit(pre, y, space) && fresh_entry(
                post[y],
                space,
            ) && post[y].cache->0.resolved == post[y].cache->0.unrounded && (pre[y].children.len()
                == 0 ==> self.measured_map().contains_key(y)
                && post[y].cache->0.unrounded.content_size == self.measured_map()[y]) by {
                if y == x {
                    assert(in_subtree(pre, x, x));
                    assert(pre[x].children.len() == 0 ==> post[x].cache->0.unrounded.content_size
                        == self.measured_map()[x]);
                } else {
                    assert(comp_e.contains(y));
                    assert(fresh_entry(m_e[y], space));
                    if kids@.contains(y) {
                        let u = choose|u: int| 0 <= u < kids@.len() && #[trigger] kids@[u] == y;
                        assert(post[y] == patched_node(
                            m_e[y],
                            out.child_positions@[u],
                            u as u64,
                        ));
                        assert(engine_box_usable(out, kids_g.len()));
                        assert(coord_ok(out.child_positions@[u].x as int));
                        assert(fresh_entry(post[y], space));
                        assert(pre[y].children == m_e[y].children);
                    } else {
                        assert(post[y] == m_e[y]);
                    }
                }
            }
            assert forall|y: u64| #[trigger] in_subtree(pre, y, x)
                && !self.computed_set().contains(y) implies keeps_unrounded(pre[y], post[y]) by {
                assert(y != x);
                assert(keeps_unrounded(pre[y], m_e[y]));
                if kids@.contains(y) {
                    let u = choose|u: int| 0 <= u < kids@.len() && #[trigger] kids@[u] == y;
                    assert(post[y] == patched_node(m_e[y], out.child_positions@[u], u as u64));
                    assert(!m_e[y].dirty);
                } else {
                    assert(post[y] == m_e[y]);
                }
            }
            assert forall|y: u64| #[trigger] in_subtree(pre, y, x) && pre[y].dirty
                implies self.computed_set().contains(y) by {
                if y != x {
                    let c = lemma_subtree_step(pre, y, x);
                    let u = choose|u: int| 0 <= u < kids@.len() && #[trigger] kids@[u] == c;
                    assert(in_subtree(pre, y, kids@[u]));
                }
            }
            assert forall|y: u64| #[trigger] in_subtree(pre, y, x)
                && !self.computed_set().contains(y) && (y == x
                || !self.computed_set().contains(pre[y].parent->0)) implies post[y]
                == pre[y] by {
                assert(y != x);
                assert(!kids@.contains(y)) by {
                    if kids@.contains(y) {
                        let u = choose|u: int| 0 <= u < kids@.len() && #[trigger] kids@[u] == y;
                        assert(pre[y].parent == Some(x));
                        assert(self.computed_set().contains(x));
                    }
                }
                assert(post[y] == m_e[y]);
            }
            assert forall|y: u64| #[trigger] post.contains_key(y) && post[y].dirty
                implies pre[y].dirty by {
                assert(y != x);
                if kids@.contains(y) {
                    let u = choose|u: int| 0 <= u < kids@.len() && #[trigger] kids@[u] == y;
                    assert(post[y] == patched_node(m_e[y], out.child_positions@[u], u as u64));
                    assert(!post[y].dirty);
                } else {
                    assert(post[y] == m_e[y]);
                }
            }
            assert forall|y: u64| #[trigger] pre.contains_key(y) && !in_subtree(pre, y, x)
                implies post[y] == pre[y] by {
                assert(y != x);
                assert(!kids@.contains(y)) by {
                    if kids@.contains(y) {
                        let u = choose|u: int| 0 <= u < kids@.len() && #[trigger] kids@[u] == y;
                        assert(pre.contains_key(kids@[u]) && pre[kids@[u]].parent == Some(x));
                        lemma_subtree_child(pre, x, y);
                        assert(in_subtree(pre, y, x));
                    }
                }
                assert(post[y] == m_e[y]);
            }
        }
        Ok(())
    }

    /// The shared body of the layout entry points.
    fn compute_root<E: LayoutEngine, M: Measure>(
        &mut self,
        node: u64,
        space: AvailableSize,
        engine: &mut E,
        measure: &mut M,
        has_measure: bool,
    ) -> (r: Result<(), TreeError>)
        requires
            old(self).wf(),
        ensures
            final(self).wf(),
            final(self).rounding_enabled() == old(self).rounding_enabled(),
            final(self).retired_slots() == old(self).retired_slots(),
            r == Result::<(), TreeError>::Err(TreeError::NotFound) <==> !old(self)@.contains_key(node),
            !old(self)@.contains_key(node) ==> *final(self) == *old(self),
            old(self)@.contains_key(node) && cache_hit(old(self)@, node, space) ==> r is Ok
                && final(self)@ == old(self)@ && final(self).computed_set() == Set::<
                u64,
            >::empty() && final(self).measured_map() == Map::<u64, SizeUnits>::empty(),
            old(self)@.contains_key(node) && !cache_hit(old(self)@, node, space) && r is Ok
                ==> layout_pass_ok(
                old(self)@,
                final(self)@,
                final(self).computed_set(),
                final(self).measured_map(),
                node,
                space,
                old(self).rounding_enabled(),
                has_measure,
            ),
            old(self)@.contains_key(node) && r is Err && r != Result::<(), TreeError>::Err(
                TreeError::NotFound,
            ) ==> (r == Result::<(), TreeError>::Err(TreeError::MeasurementFailed) || r
                == Result::<(), TreeError>::Err(TreeError::LayoutFailed)) && layout_pass_partial(
                old(self)@,
                final(self)@,
                final(self).computed_set(),
                node,
                space,
            ),
            !has_measure ==> r != Result::<(), TreeError>::Err(TreeError::MeasurementFailed),
    {
        if self.live_index(node).is_none() {
            return Err(TreeError::NotFound);
        }
        let ghost pre = self@;
        self.reset_pass_record();
        let dirty_now = match self.dirty(node) {
            Result::Ok(d) => d,
            Result::Err(_) => true,
        };
        let entry_opt = self.get_entry(node);
        let is_hit = !dirty_now && (match &entry_opt {
            Option::Some(e) => e.space == space,
            Option::None => false,
        });
        if is_hit {
            proof {
                assert(cache_hit(pre, node, space));
            }
            return Ok(());
        }
        let res = self.compute_node(node, space, engine, measure, has_measure);
        let ghost mid = self@;
        let ghost comp = self.computed_set();
        let ghost meas = self.measured_map();
        match res {
            Result::Ok(()) => {},
            Result::Err(e) => {
                return Err(e);
            },
        }
        if self.rounding_flag() {
            proof {
                assert(!mid[node].dirty) by {
                    assert(comp.contains(node));
                }
                lemma_structure_predicates(pre, mid);
                assert forall|y: u64| #[trigger] in_subtree(mid, y, node) implies mid[y].cache
                    is Some by {
                    assert(ancestors(mid, y) == ancestors(pre, y));
                    assert(in_subtree(pre, y, node));
                    if comp.contains(y) {
                    } else {
                        assert(!pre[y].dirty);
                        assert(pre[y].cache is Some);
                        assert(keeps_unrounded(pre[y], mid[y]));
                    }
                }
            }
            self.round_subtree(node, 0, 0);
            proof {
                let fin = self@;
                lemma_structure_predicates(pre, mid);
                assert forall|y: u64| in_subtree(mid, y, node) == in_subtree(pre, y, node) by {
                    assert(ancestors(mid, y) == ancestors(pre, y));
                    assert(mid.contains_key(y) == pre.contains_key(y));
                }
                assert(same_shape(pre, fin)) by {
                    assert forall|y: u64| #[trigger] fin.contains_key(y) implies fin[y].parent
                        == pre[y].parent && fin[y].children == pre[y].children && fin[y].style
                        == pre[y].style && fin[y].context == pre[y].context by {
                        assert(mid.contains_key(y));
                        if in_subtree(mid, y, node) {
                            assert(rounded_node(mid[y], fin[y]));
                        } else {
                            assert(fin[y] == mid[y]);
                        }
                    }
                    assert(fin.dom() == pre.dom());
                }
                assert(layout_pass_ok(
                    pre,
                    fin,
                    comp,
                    meas,
                    node,
                    space,
                    true,
                    has_measure,
                )) by {
                    assert forall|y: u64| #[trigger] pre.contains_key(y) && !in_subtree(
                        pre,
                        y,
                        node,
                    ) implies fin[y] == pre[y] by {
                        assert(fin[y] == mid[y]);
                    }
                    assert forall|y: u64| #[trigger] comp.contains(y) implies fresh_entry(
                        fin[y],
                        space,
                    ) && rounded_near(fin[y].cache->0.unrounded, fin[y].cache->0.resolved) && (
                    pre[y].children.len() == 0 ==> meas.contains_key(y)
                        && fin[y].cache->0.unrounded.content_size == meas[y]) by {
                        assert(in_subtree(pre, y, node));
                        assert(in_subtree(mid, y, node));
                        assert(rounded_node(mid[y], fin[y]));
                        assert(fresh_entry(mid[y], space));
                    }
                    assert forall|y: u64| #[trigger] in_subtree(pre, y, node) && !comp.contains(
                        y,
                    ) implies keeps_unrounded(pre[y], fin[y]) && (fin[y].cache is Some
                        ==> rounded_near(
                        fin[y].cache->0.unrounded,
                        fin[y].cache->0.resolved,
                    )) by {
                        assert(in_subtree(mid, y, node));
                        assert(rounded_node(mid[y], fin[y]));
                        assert(keeps_unrounded(pre[y], mid[y]));
                    }
                    assert forall|y: u64| #[trigger] fin.contains_key(y) && fin[y].dirty
                        implies pre[y].dirty by {
                        if in_subtree(mid, y, node) {
                            assert(rounded_node(mid[y], fin[y]));
                            assert(fin[y].dirty == mid[y].dirty);
                        } else {
                            assert(fin[y] == mid[y]);
                        }
                    }
                    assert(in_subtree(mid, node, node));
                    assert(rounded_node(mid[node], fin[node]));
                    assert(fin[node].cache->0.unrounded == mid[node].cache->0.unrounded);
                    assert(round_units(0) == 0);
                    assert(fin[node].cache->0.resolved.location == (PointUnits { x: 0, y: 0 }));
                    assert(fin[node].cache->0.resolved.order == 0);
                }
            }
        } else {
            proof {
                assert(layout_pass_ok(
                    pre,
                    self@,
                    comp,
                    meas,
                    node,
                    space,
                    false,
                    has_measure,
                ));
            }
        }
        Ok(())
    }

    /// Computes the layout of the subtree rooted at `node` under the given
    /// available space, using the supplied layout algorithm; childless
    /// leaves get zero content size. Clean nodes whose cached layout
    /// carries this available-space signature are reused, not recomputed;
    /// if `node` itself is such a node the call returns at once and changes
    /// nothing. Fails with `NotFound` for a stale or unknown id and with
    /// `LayoutFailed` when the algorithm returns no usable box; a failure
    /// aborts the whole call, leaving every not-yet-computed dirty node
    /// dirty so that a retry is well defined.
    pub fn compute_layout<E: LayoutEngine>(
        &mut self,
        node: u64,
        available_space: AvailableSize,
        engine: &mut E,
    ) -> (r: Result<(), TreeError>)
        requires
            old(self).wf(),
        ensures
            final(self).wf(),
            final(self).rounding_enabled() == old(self).rounding_enabled(),
            final(self).retired_slots() == old(self).retired_slots(),
            r == Result::<(), TreeError>::Err(TreeError::NotFound) <==> !old(self)@.contains_key(node),
            !old(self)@.contains_key(node) ==> *final(self) == *old(self),
            old(self)@.contains_key(node) && cache_hit(old(self)@, node, available_space) ==> r
                is Ok && final(self)@ == old(self)@ && final(self).computed_set() == Set::<
                u64,
            >::empty() && final(self).measured_map() == Map::<u64, SizeUnits>::empty(),
            old(self)@.contains_key(node) && !cache_hit(old(self)@, node, available_space) && r
                is Ok ==> layout_pass_ok(
                old(self)@,
                final(self)@,
                final(self).computed_set(),
                final(self).measured_map(),
                node,
                available_space,
                old(self).rounding_enabled(),
                false,
            ),
            r != Result::<(), TreeError>::Err(TreeError::MeasurementFailed),
            old(self)@.contains_key(node) && r is Err && r != Result::<(), TreeError>::Err(
                TreeError::NotFound,
            ) ==> (r == Result::<(), TreeError>::Err(TreeError::MeasurementFailed) || r
                == Result::<(), TreeError>::Err(TreeError::LayoutFailed)) && layout_pass_partial(
                old(self)@,
                final(self)@,
                final(self).computed_set(),
                node,
                available_space,
            ),
    {
        let mut zero = ZeroMeasure;
        self.compute_root(node, available_space, engine, &mut zero, false)
    }

    /// Computes the layout of the subtree rooted at `node` as
    /// `compute_layout` does, consulting the supplied measure capability
    /// for the intrinsic content size of every recomputed childless leaf.
    /// Also fails with `MeasurementFailed` when the capability reports a
    /// negative or out-of-range size.
    pub fn compute_layout_with_measure<E: LayoutEngine, M: Measure>(
        &mut self,
        node: u64,
        available_space: AvailableSize,
        engine: &mut E,
        measure: &mut M,
    ) -> (r: Result<(), TreeError>)
        requires
            old(self).wf(),
        ensures
            final(self).wf(),
            final(self).rounding_enabled() == old(self).rounding_enabled(),
            final(self).retired_slots() == old(self).retired_slots(),
            r == Result::<(), TreeError>::Err(TreeError::NotFound) <==> !old(self)@.contains_key(node),
            !old(self)@.contains_key(node) ==> *final(self) == *old(self),
            old(self)@.contains_key(node) && cache_hit(old(self)@, node, available_space) ==> r
                is Ok && final(self)@ == old(self)@ && final(self).computed_set() == Set::<
                u64,
            >::empty() && final(self).measured_map() == Map::<u64, SizeUnits>::empty(),
            old(self)@.contains_key(node) && !cache_hit(old(self)@, node, available_space) && r
                is Ok ==> layout_pass_ok(
                old(self)@,
                final(self)@,
                final(self).computed_set(),
                final(self).measured_map(),
                node,
                available_space,
                old(self).rounding_enabled(),
                true,
            ),
            old(self)@.contains_key(node) && r is Err && r != Result::<(), TreeError>::Err(
                TreeError::NotFound,
            ) ==> (r == Result::<(), TreeError>::Err(TreeError::MeasurementFailed) || r
                == Result::<(), TreeError>::Err(TreeError::LayoutFailed)) && layout_pass_partial(
                old(self)@,
                final(self)@,
                final(self).computed_set(),
                node,
                available_space,
            ),
    {
        self.compute_root(node, available_space, engine, measure, true)
    }

    /// The layout the last successful computation produced for this node,
    /// in the variant chosen then: rounded to whole pixels when rounding
    /// was enabled, raw otherwise. Fails with `NotFound` for a stale or
    /// unknown id and with `NotComputed` for a live node that no
    /// successful computation has covered.
    pub fn layout(&self, node: u64) -> (r: Result<Layout, TreeError>)
        requires
            self.wf(),
        ensures
            match r {
                Result::Ok(l) => self@.contains_key(node) && self@[node].cache is Some && l
                    == self@[node].cache->0.resolved,
                Result::Err(e) => (e == TreeError::NotFound && !self@.contains_key(node)) || (e
                    == TreeError::NotComputed && self@.contains_key(node) && self@[node].cache
                    is None),
            },
    {
        match self.live_index(node) {
            Option::Some(_) => {
                match self.get_entry(node) {
                    Option::Some(e) => Ok(e.resolved),
                    Option::None => Err(TreeError::NotComputed),
                }
            },
            Option::None => Err(TreeError::NotFound),
        }
    }

    /// The raw, unrounded layout the last successful computation produced
    /// for this node. Fails with `NotFound` for a stale or unknown id and
    /// with `NotComputed` for a live node that no successful computation
    /// has covered.
    pub fn unrounded_layout(&self, node: u64) -> (r: Result<Layout, TreeError>)
        requires
            self.wf(),
        ensures
            match r {
                Result::Ok(l) => self@.contains_key(node) && self@[node].cache is Some && l
                    == self@[node].cache->0.unrounded,
                Result::Err(e) => (e == TreeError::NotFound && !self@.contains_key(node)) || (e
                    == TreeError::NotComputed && self@.contains_key(node) && self@[node].cache
                    is None),
            },
    {
        match self.live_index(node) {
            Option::Some(_) => {
                match self.get_entry(node) {
                    Option::Some(e) => Ok(e.unrounded),
                    Option::None => Err(TreeError::NotComputed),
                }
            },
            Option::None => Err(TreeError::NotFound),
        }
    }

    /// Rounds one non-negative length to the nearest whole pixel.
    fn round_plain(&self, v: i64) -> (r: i64)
        requires
            0 <= v <= COORD_LIMIT,
        ensures
            r == round_units(v as int),
            0 <= r,
            -HALF_SCALE < r - v <= HALF_SCALE,
    {
        proof {
            lemma_round_error(v as int);
            lemma_round_monotone(0, v as int);
            assert(round_units(0) == 0);
        }
        round_to_pixel(v)
    }
}

} // verus!
