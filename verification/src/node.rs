//! Node records and their mathematical view.
//!
//! The arena stores `NodeData` records; specifications speak about
//! `Map<u64, NodeView>`, the map from live node ids to the abstract content
//! of their records.

use vstd::prelude::*;
use crate::geom::AvailableSize;
use crate::layout::{layout_bounded, layout_bounded_loose, Layout};
use crate::style::Style;

verus! {

/// A computed layout cached on a node: the raw result, the variant handed
/// out by `layout` (rounded when rounding is enabled), and the
/// available-space signature the result was computed under.
#[derive(Clone, Copy, Debug, PartialEq, Eq, Structural)]
pub struct CacheEntry {
    /// The layout as the algorithm produced it.
    pub unrounded: Layout,
    /// The layout as `layout` reports it: rounded to whole pixels when
    /// rounding was enabled during the computation, the raw value otherwise.
    pub resolved: Layout,
    /// The available space of the computation that produced this entry.
    pub space: AvailableSize,
}

/// One live node record as the arena stores it.
pub(crate) struct NodeData {
    pub(crate) style: Style,
    pub(crate) parent: Option<u64>,
    pub(crate) children: Vec<u64>,
    pub(crate) context: Option<u64>,
    pub(crate) cache: Option<CacheEntry>,
    pub(crate) dirty: bool,
}

/// The abstract content of one live node.
pub ghost struct NodeView {
    /// The node's style.
    pub style: Style,
    /// The id of the parent, if the node is not a root.
    pub parent: Option<u64>,
    /// The ids of the children, in layout order.
    pub children: Seq<u64>,
    /// The opaque context word attached by the caller.
    pub context: Option<u64>,
    /// The cached layout, if any computation has covered the node.
    pub cache: Option<CacheEntry>,
    /// Whether the cached layout may be stale.
    pub dirty: bool,
}

impl NodeData {
    /// The abstract view of this record.
    pub(crate) open spec fn view(&self) -> NodeView {
        NodeView {
            style: self.style,
            parent: self.parent,
            children: self.children@,
            context: self.context,
            cache: self.cache,
            dirty: self.dirty,
        }
    }
}

/// Every recorded parent is itself a live node.
pub open spec fn parents_live(m: Map<u64, NodeView>) -> bool {
    forall|c: u64|
        #[trigger] m.contains_key(c) && m[c].parent is Some ==> m.contains_key(m[c].parent->0)
}

/// Parent and child records agree: a recorded parent lists the child, every
/// listed child is live and records the lister as its parent, and no child
/// list repeats an id.
pub open spec fn coherent(m: Map<u64, NodeView>) -> bool {
    &&& forall|c: u64|
        #[trigger] m.contains_key(c) && m[c].parent is Some
            ==> m.contains_key(m[c].parent->0) && m[m[c].parent->0].children.contains(c)
    &&& forall|p: u64, i: int|
        m.contains_key(p) && 0 <= i < m[p].children.len()
            ==> m.contains_key(#[trigger] m[p].children[i]) && m[m[p].children[i]].parent == Some(p)
    &&& forall|p: u64| #[trigger] m.contains_key(p) ==> m[p].children.no_duplicates()
}

/// A dirty node's parent is dirty too: dirtiness is closed upward, so a
/// clean node heads an entirely clean subtree.
pub open spec fn dirty_upward_closed(m: Map<u64, NodeView>) -> bool {
    forall|c: u64|
        #[trigger] m.contains_key(c) && m[c].dirty && m[c].parent is Some
            ==> m[m[c].parent->0].dirty
}

/// The same record with the dirty flag raised.
pub open spec fn with_dirty(v: NodeView) -> NodeView {
    NodeView { dirty: true, ..v }
}

/// Both maps hold the same nodes with the same parent and child links;
/// styles, contexts, caches and dirty flags are free to differ.
pub open spec fn same_structure(m1: Map<u64, NodeView>, m2: Map<u64, NodeView>) -> bool {
    &&& m2.dom() == m1.dom()
    &&& forall|x: u64| #[trigger]
        m2.contains_key(x) ==> m2[x].parent == m1[x].parent && m2[x].children == m1[x].children
}

/// A clean node always carries a cached layout: the dirty flag is cleared
/// only when a computation stores one.
pub open spec fn clean_has_cache(m: Map<u64, NodeView>) -> bool {
    forall|n: u64| #[trigger] m.contains_key(n) && !m[n].dirty ==> m[n].cache is Some
}

/// Every cached layout keeps its geometry within the stored bounds.
pub open spec fn caches_bounded(m: Map<u64, NodeView>) -> bool {
    forall|n: u64|
        #[trigger] m.contains_key(n) && m[n].cache is Some
            ==> layout_bounded(m[n].cache->0.unrounded) && layout_bounded_loose(m[n].cache->0.resolved)
}

} // verus!
