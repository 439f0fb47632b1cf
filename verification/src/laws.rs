//! The library's laws: global properties of the tree and of layout
//! computation, stated and proved once over the contracts of the public
//! operations.

use vstd::prelude::*;
use crate::ancestry::{acyclic, ancestors, in_subtree, lemma_chain_distinct};
use crate::compute::{cache_hit, fresh_entry, keeps_unrounded, layout_pass_ok};
use crate::geom::{AvailableSize, SizeUnits, SCALE};
use crate::node::{coherent, parents_live, with_dirty, NodeView};
use crate::style::Style;
use crate::tree::TaffyTree;

verus! {

/// Parent and child links of a well-formed tree always agree, and no node
/// is reachable from itself: every child's recorded parent lists it, every
/// listed child points back, and no node appears on its own ancestor
/// chain.
pub proof fn lemma_links_agree_and_acyclic(t: &TaffyTree)
    requires
        t.wf(),
    ensures
        forall|c: u64| #[trigger]
            t@.contains_key(c) && t@[c].parent is Some ==> t@.contains_key(t@[c].parent->0)
                && t@[t@[c].parent->0].children.contains(c),
        forall|p: u64, i: int|
            t@.contains_key(p) && 0 <= i < t@[p].children.len() ==> t@.contains_key(
                #[trigger] t@[p].children[i],
            ) && t@[t@[p].children[i]].parent == Some(p),
        forall|n: u64| #[trigger] t@.contains_key(n) ==> !ancestors(t@, n).contains(n),
{
    assert forall|n: u64| #[trigger] t@.contains_key(n) implies !ancestors(t@, n).contains(
        n,
    ) by {
        lemma_chain_distinct(t@, n, t@.dom().len());
    }
}

/// Setting a style and recomputing the layout re-runs the algorithm for
/// the styled node and for every one of its ancestors within the computed
/// subtree, and for no node whose cached box was reusable.
///
/// `m0` is the tree before `set_style(n, style)`, `m1` the tree after it
/// (as `set_style` guarantees), and `m2`, `computed` and `measured` are
/// the outcome of a following successful `compute_layout` call from `root`
/// (as its contract guarantees when `root` was not itself a cache hit).
pub proof fn lemma_style_change_recomputes(
    m0: Map<u64, NodeView>,
    m1: Map<u64, NodeView>,
    m2: Map<u64, NodeView>,
    computed: Set<u64>,
    measured: Map<u64, SizeUnits>,
    n: u64,
    style: Style,
    root: u64,
    space: AvailableSize,
    rounding: bool,
    has_measure: bool,
)
    requires
        parents_live(m0),
        coherent(m0),
        acyclic(m0),
        m0.dom().finite(),
        m0.contains_key(n),
        m1.dom() == m0.dom(),
        forall|x: u64| #[trigger]
            m1.contains_key(x) ==> m1[x] == (if x == n {
                NodeView { style, dirty: true, ..m0[n] }
            } else if ancestors(m0, n).contains(x) {
                with_dirty(m0[x])
            } else {
                m0[x]
            }),
        in_subtree(m1, n, root),
        layout_pass_ok(m1, m2, computed, measured, root, space, rounding, has_measure),
    ensures
        // the styled node is recomputed
        computed.contains(n),
        // so is every ancestor of it inside the computed subtree
        forall|a: u64|
            ancestors(m0, n).contains(a) && in_subtree(m1, a, root) ==> computed.contains(a),
        // while every node whose cached box was reusable is not, and its
        // box survives untouched apart from position and paint order
        forall|x: u64| #[trigger]
            in_subtree(m1, x, root) && x != n && !ancestors(m0, n).contains(x) && !m0[x].dirty
                && m0[x].cache is Some && m0[x].cache->0.space == space ==> !computed.contains(x)
                && keeps_unrounded(m0[x], m2[x]),
{
    assert(m1[n].dirty);
    assert(computed.contains(n));
    assert forall|a: u64|
        ancestors(m0, n).contains(a) && in_subtree(m1, a, root) implies computed.contains(a) by {
        crate::ancestry::lemma_chain_live(m0, n, m0.dom().len());
        assert(m1.contains_key(a));
        assert(m1[a].dirty);
    }
    assert forall|x: u64| #[trigger]
        in_subtree(m1, x, root) && x != n && !ancestors(m0, n).contains(x) && !m0[x].dirty
            && m0[x].cache is Some && m0[x].cache->0.space == space implies !computed.contains(x)
        && keeps_unrounded(m0[x], m2[x]) by {
        assert(m1[x] == m0[x]);
        assert(cache_hit(m1, x, space));
        if computed.contains(x) {
            assert(!cache_hit(m1, x, space));
        }
        assert(keeps_unrounded(m1[x], m2[x]));
    }
}

/// A second computation with the same available space and no intervening
/// mutation is answered purely from the cache: the root of the first
/// computation is a cache hit afterwards, so `compute_layout`'s contract
/// makes the second call return at once, run the algorithm for nothing,
/// and leave the tree exactly as it was.
pub proof fn lemma_second_pass_is_pure_cache(
    m0: Map<u64, NodeView>,
    m1: Map<u64, NodeView>,
    computed: Set<u64>,
    measured: Map<u64, SizeUnits>,
    root: u64,
    space: AvailableSize,
    rounding: bool,
    has_measure: bool,
)
    requires
        layout_pass_ok(m0, m1, computed, measured, root, space, rounding, has_measure),
    ensures
        cache_hit(m1, root, space),
{
    assert(computed.contains(root));
    assert(fresh_entry(m1[root], space));
    assert(in_subtree(m0, root, root));
    assert(m1.contains_key(root)) by {
        assert(m1.dom() == m0.dom());
    }
}

/// Whole-pixel rounding never moves a coordinate or a length by a full
/// pixel: for every node covered by a computation with rounding enabled,
/// the reported position and size differ from the raw ones by strictly
/// less than one pixel, at any depth.
pub proof fn lemma_rounding_within_one_pixel(
    pre: Map<u64, NodeView>,
    post: Map<u64, NodeView>,
    computed: Set<u64>,
    measured: Map<u64, SizeUnits>,
    root: u64,
    space: AvailableSize,
    has_measure: bool,
    y: u64,
)
    requires
        layout_pass_ok(pre, post, computed, measured, root, space, true, has_measure),
        in_subtree(pre, y, root),
        post[y].cache is Some,
    ensures
        ({
            let e = post[y].cache->0;
            &&& -(SCALE as int) < e.resolved.location.x - e.unrounded.location.x < SCALE as int
            &&& -(SCALE as int) < e.resolved.location.y - e.unrounded.location.y < SCALE as int
            &&& -(SCALE as int) < e.resolved.size.width - e.unrounded.size.width < SCALE as int
            &&& -(SCALE as int) < e.resolved.size.height - e.unrounded.size.height < SCALE as int
            &&& 0 <= e.resolved.size.width
            &&& 0 <= e.resolved.size.height
        }),
{
    if computed.contains(y) {
    } else {
        assert(keeps_unrounded(pre[y], post[y]));
    }
}

/// Removing a node invalidates its id while its former children live on as
/// parentless roots. `m0` is the tree before `remove(n)` and `m1` the tree
/// after it, as `remove`'s contract guarantees; that every operation then
/// fails with `NotFound` for `n` is each operation's own contract.
pub proof fn lemma_removal_invalidates(
    m0: Map<u64, NodeView>,
    m1: Map<u64, NodeView>,
    n: u64,
)
    requires
        parents_live(m0),
        coherent(m0),
        acyclic(m0),
        m0.dom().finite(),
        m0.contains_key(n),
        m1.dom() == m0.dom().remove(n),
        forall|x: u64| #[trigger]
            m1.contains_key(x) && m0[n].children.contains(x) ==> m1[x] == (NodeView {
                parent: Option::None,
                ..m0[x]
            }),
    ensures
        !m1.contains_key(n),
        forall|c: u64| #[trigger]
            m0[n].children.contains(c) ==> m1.contains_key(c) && m1[c].parent is None,
{
    assert forall|c: u64| #[trigger] m0[n].children.contains(c) implies m1.contains_key(c)
        && m1[c].parent is None by {
        let i = choose|i: int|
            0 <= i < m0[n].children.len() && #[trigger] m0[n].children[i] == c;
        assert(m0.contains_key(c) && m0[c].parent == Some(n));
        assert(c != n) by {
            if c == n {
                crate::ancestry::lemma_child_ancestors(m0, n);
                lemma_chain_distinct(m0, n, m0.dom().len());
                crate::ancestry::lemma_chain_standard(m0, n, m0.dom().len());
                assert(ancestors(m0, n)[0] == n);
            }
        }
        assert(m1.contains_key(c));
    }
}

} // verus!
