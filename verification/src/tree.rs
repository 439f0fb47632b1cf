//! The node arena and tree manager.
//!
//! `TaffyTree` stores node records in generation-counted slots. A node id
//! packs the slot's generation above its index, so an id stays valid exactly
//! until its slot is vacated; a vacated slot re-enters service with the next
//! generation, which invalidates every id issued for the old one.

use vstd::prelude::*;
use crate::ancestry::{
    acyclic, anc_chain, ancestors, lemma_attach_acyclic, lemma_chain_distinct, lemma_chain_frame,
    lemma_chain_live, lemma_chain_standard, lemma_chain_suffix, lemma_child_ancestors,
    lemma_child_not_ancestor, lemma_delete_acyclic, lemma_detach_acyclic,
    lemma_insert_root_acyclic, lemma_structure_predicates, same_parent_at,
};
use crate::error::TreeError;
use crate::geom::SizeUnits;
use crate::node::{
    caches_bounded, clean_has_cache, coherent, dirty_upward_closed, parents_live, same_structure,
    with_dirty, CacheEntry, NodeData, NodeView,
};
use crate::style::Style;

verus! {

/// One arena slot: its current generation and, when occupied, a node record.
pub(crate) struct Slot {
    pub(crate) generation: u64,
    pub(crate) node: Option<NodeData>,
}

/// The number of slot indices, and of generations per slot.
pub(crate) const ID_SPAN: u64 = 0x1_0000_0000;

/// The slot index packed into a node id.
pub open spec fn id_index(id: u64) -> int {
    (id % 0x1_0000_0000u64) as int
}

/// The generation packed into a node id.
pub open spec fn id_generation(id: u64) -> int {
    (id / 0x1_0000_0000u64) as int
}

/// The id issued for generation `generation` of slot `index`.
pub open spec fn spec_pack_id(generation: u64, index: int) -> u64 {
    ((generation as int) * 0x1_0000_0000 + index) as u64
}

/// Packing and unpacking an id agree.
pub proof fn lemma_id_parts(generation: u64, index: int)
    requires
        generation < 0x1_0000_0000,
        0 <= index < 0x1_0000_0000,
    ensures
        id_index(spec_pack_id(generation, index)) == index,
        id_generation(spec_pack_id(generation, index)) == generation,
{
    let s: int = 0x1_0000_0000;
    let v: int = (generation as int) * s + index;
    assert(0 <= (generation as int) * s <= (s - 1) * s) by (nonlinear_arith)
        requires 0 <= generation < s;
    assert(0 <= v < 0x1_0000_0000_0000_0000);
    assert(spec_pack_id(generation, index) == v);
    vstd::arithmetic::div_mod::lemma_fundamental_div_mod_converse_mod(
        v,
        s,
        generation as int,
        index,
    );
    vstd::arithmetic::div_mod::lemma_fundamental_div_mod_converse_div(
        v,
        s,
        generation as int,
        index,
    );
}

/// An id equals its parts repacked.
pub proof fn lemma_id_repack(id: u64)
    ensures
        id == spec_pack_id(id_generation(id) as u64, id_index(id)),
        0 <= id_index(id) < 0x1_0000_0000,
        0 <= id_generation(id) < 0x1_0000_0000,
{
    let s: int = 0x1_0000_0000;
    vstd::arithmetic::div_mod::lemma_fundamental_div_mod(id as int, s);
    vstd::arithmetic::div_mod::lemma_mod_bound(id as int, s);
    vstd::arithmetic::div_mod::lemma_div_is_ordered(id as int, 0xffff_ffff_ffff_ffff, s);
    assert(0xffff_ffff_ffff_ffff == 0xffff_ffff * s + 0xffff_ffff);
    vstd::arithmetic::div_mod::lemma_fundamental_div_mod_converse_div(
        0xffff_ffff_ffff_ffff,
        s,
        0xffff_ffff,
        0xffff_ffff,
    );
}

/// The live nodes among the first `n` slots, keyed by their ids.
pub(crate) open spec fn slots_view(s: Seq<Slot>, n: int) -> Map<u64, NodeView>
    decreases n,
{
    if n <= 0 {
        Map::empty()
    } else {
        let m = slots_view(s, n - 1);
        match s[n - 1].node {
            Option::None => m,
            Option::Some(d) => m.insert(spec_pack_id(s[n - 1].generation, n - 1), d.view()),
        }
    }
}

/// Slot generations stay below the id span, and there are at most span slots.
pub(crate) open spec fn slots_bounded(s: Seq<Slot>) -> bool {
    s.len() <= 0x1_0000_0000 && (forall|i: int|
        0 <= i < s.len() ==> (#[trigger] s[i]).generation < 0x1_0000_0000)
}

/// Which ids the slot view contains and what it maps them to.
pub(crate) proof fn lemma_view_char(s: Seq<Slot>, n: int)
    requires
        slots_bounded(s),
        0 <= n <= s.len(),
    ensures
        forall|id: u64|
            #![trigger slots_view(s, n).contains_key(id)]
            slots_view(s, n).contains_key(id) <==> (id_index(id) < n && s[id_index(id)].node
                is Some && s[id_index(id)].generation == id_generation(id)),
        forall|id: u64| #[trigger]
            slots_view(s, n).contains_key(id) ==> slots_view(s, n)[id] == s[id_index(
                id,
            )].node->0.view(),
    decreases n,
{
    if n > 0 {
        lemma_view_char(s, n - 1);
        let m0 = slots_view(s, n - 1);
        let m = slots_view(s, n);
        match s[n - 1].node {
            Option::None => {
                assert(m == m0);
                assert forall|id: u64| m.contains_key(id) <==> (id_index(id) < n && s[id_index(
                    id,
                )].node is Some && s[id_index(id)].generation == id_generation(id)) by {
                    lemma_id_repack(id);
                }
            },
            Option::Some(d) => {
                let fresh = spec_pack_id(s[n - 1].generation, n - 1);
                lemma_id_parts(s[n - 1].generation, n - 1);
                assert(m == m0.insert(fresh, d.view()));
                assert forall|id: u64| m.contains_key(id) <==> (id_index(id) < n && s[id_index(
                    id,
                )].node is Some && s[id_index(id)].generation == id_generation(id)) by {
                    lemma_id_repack(id);
                    if id != fresh && id_index(id) == n - 1 && s[id_index(id)].generation
                        == id_generation(id) {
                        assert(id == spec_pack_id(s[n - 1].generation, n - 1));
                    }
                }
                assert forall|id: u64| #[trigger] m.contains_key(id) implies m[id] == s[id_index(
                    id,
                )].node->0.view() by {
                    lemma_id_repack(id);
                    if id != fresh && id_index(id) == n - 1 && s[id_index(id)].generation
                        == id_generation(id) {
                        assert(id == spec_pack_id(s[n - 1].generation, n - 1));
                    }
                }
            },
        }
    }
}

/// The slot view is finite and no larger than the slot count.
pub(crate) proof fn lemma_view_finite(s: Seq<Slot>, n: int)
    requires
        0 <= n,
    ensures
        slots_view(s, n).dom().finite(),
        slots_view(s, n).dom().len() <= n,
    decreases n,
{
    if n > 0 {
        lemma_view_finite(s, n - 1);
    }
}

/// The view of the first `n` slots depends only on those slots.
pub(crate) proof fn lemma_view_prefix(s1: Seq<Slot>, s2: Seq<Slot>, n: int)
    requires
        0 <= n <= s1.len(),
        n <= s2.len(),
        forall|i: int| 0 <= i < n ==> s2[i] == s1[i],
    ensures
        slots_view(s2, n) == slots_view(s1, n),
    decreases n,
{
    if n > 0 {
        lemma_view_prefix(s1, s2, n - 1);
    }
}

/// A prefix one longer holds exactly one more element.
pub(crate) proof fn lemma_take_push(s: Seq<u64>, j: int, x: u64)
    requires
        0 <= j < s.len(),
    ensures
        s.take(j + 1).contains(x) <==> (s.take(j).contains(x) || s[j] == x),
{
    if s.take(j + 1).contains(x) {
        let i = choose|i: int| 0 <= i < j + 1 && #[trigger] s.take(j + 1)[i] == x;
        if i < j {
            assert(s.take(j)[i] == x);
        }
    }
    if s.take(j).contains(x) {
        let i = choose|i: int| 0 <= i < j && #[trigger] s.take(j)[i] == x;
        assert(s.take(j + 1)[i] == x);
    }
    if s[j] == x {
        assert(s.take(j + 1)[j] == x);
    }
}

/// Inserting an element that a duplicate-free sequence lacks keeps it
/// duplicate-free.
pub(crate) proof fn lemma_insert_no_dup(s: Seq<u64>, i: int, c: u64)
    requires
        0 <= i <= s.len(),
        s.no_duplicates(),
        !s.contains(c),
    ensures
        s.insert(i, c).no_duplicates(),
        forall|x: u64| s.insert(i, c).contains(x) <==> (s.contains(x) || x == c),
{
    s.insert_ensures(i, c);
    let s2 = s.insert(i, c);
    assert forall|j: int, l: int| 0 <= j < s2.len() && 0 <= l < s2.len() && j != l implies s2[j]
        != s2[l] by {
        if j != i && l != i {
            let j0 = if j < i { j } else { j - 1 };
            let l0 = if l < i { l } else { l - 1 };
            assert(s2[j] == s[j0] && s2[l] == s[l0]);
        } else if j == i {
            let l0 = if l < i { l } else { l - 1 };
            assert(s2[l] == s[l0]);
            assert(!s.contains(c));
            if s2[l] == c {
                assert(s[l0] == c);
            }
        } else {
            let j0 = if j < i { j } else { j - 1 };
            assert(s2[j] == s[j0]);
            if s2[j] == c {
                assert(s[j0] == c);
            }
        }
    }
    assert forall|x: u64| s2.contains(x) <==> (s.contains(x) || x == c) by {
        if s2.contains(x) {
            let j = choose|j: int| 0 <= j < s2.len() && #[trigger] s2[j] == x;
            if j != i {
                let j0 = if j < i { j } else { j - 1 };
                assert(s[j0] == x);
            }
        }
        if s.contains(x) {
            let j = choose|j: int| 0 <= j < s.len() && #[trigger] s[j] == x;
            if j < i {
                assert(s2[j] == x);
            } else {
                assert(s2[j + 1] == x);
            }
        }
        if x == c {
            assert(s2[i] == x);
        }
    }
}

/// Removing one position from a duplicate-free sequence removes exactly
/// that element.
pub(crate) proof fn lemma_remove_keeps(s: Seq<u64>, i: int)
    requires
        0 <= i < s.len(),
        s.no_duplicates(),
    ensures
        s.remove(i).no_duplicates(),
        forall|x: u64| s.remove(i).contains(x) <==> (s.contains(x) && x != s[i]),
{
    s.remove_ensures(i);
    let s2 = s.remove(i);
    assert forall|j: int, l: int| 0 <= j < s2.len() && 0 <= l < s2.len() && j != l implies s2[j]
        != s2[l] by {
        let j0 = if j < i { j } else { j + 1 };
        let l0 = if l < i { l } else { l + 1 };
        assert(s2[j] == s[j0] && s2[l] == s[l0]);
    }
    assert forall|x: u64| s2.contains(x) <==> (s.contains(x) && x != s[i]) by {
        if s2.contains(x) {
            let j = choose|j: int| 0 <= j < s2.len() && #[trigger] s2[j] == x;
            let j0 = if j < i { j } else { j + 1 };
            assert(s[j0] == x);
            assert(j0 != i);
        }
        if s.contains(x) && x != s[i] {
            let j = choose|j: int| 0 <= j < s.len() && #[trigger] s[j] == x;
            if j < i {
                assert(s2[j] == x);
            } else {
                assert(s2[j - 1] == x);
            }
        }
    }
}

/// Rewriting one occupied slot in place rewrites exactly that node's record
/// in the view.
pub(crate) proof fn lemma_update_view(s1: Seq<Slot>, s2: Seq<Slot>, i: int, id: u64)
    requires
        slots_bounded(s1),
        slots_bounded(s2),
        s2.len() == s1.len(),
        0 <= i < s1.len(),
        forall|j: int| 0 <= j < s1.len() && j != i ==> s2[j] == s1[j],
        s2[i].generation == s1[i].generation,
        s1[i].node is Some,
        s2[i].node is Some,
        id == spec_pack_id(s1[i].generation, i),
    ensures
        slots_view(s2, s2.len() as int) == slots_view(s1, s1.len() as int).insert(
            id,
            s2[i].node->0.view(),
        ),
        slots_view(s1, s1.len() as int).contains_key(id),
{
    let n = s1.len() as int;
    let m1 = slots_view(s1, n);
    let m2 = slots_view(s2, n);
    lemma_view_char(s1, n);
    lemma_view_char(s2, n);
    lemma_id_parts(s1[i].generation, i);
    assert forall|x: u64|
        #![trigger m2.contains_key(x)]
        #![trigger m1.insert(id, s2[i].node->0.view()).contains_key(x)]
        (m2.contains_key(x) == m1.insert(id, s2[i].node->0.view()).contains_key(x)) && (
        m2.contains_key(x) ==> m2[x] == m1.insert(id, s2[i].node->0.view())[x]) by {
        lemma_id_repack(x);
    }
    assert(m2 =~= m1.insert(id, s2[i].node->0.view()));
}

/// Filling one vacant slot adds exactly one node to the view.
pub(crate) proof fn lemma_fill_view(s1: Seq<Slot>, s2: Seq<Slot>, i: int, id: u64)
    requires
        slots_bounded(s1),
        slots_bounded(s2),
        s2.len() == s1.len(),
        0 <= i < s1.len(),
        forall|j: int| 0 <= j < s1.len() && j != i ==> s2[j] == s1[j],
        s2[i].generation == s1[i].generation,
        s1[i].node is None,
        s2[i].node is Some,
        id == spec_pack_id(s1[i].generation, i),
    ensures
        slots_view(s2, s2.len() as int) == slots_view(s1, s1.len() as int).insert(
            id,
            s2[i].node->0.view(),
        ),
        !slots_view(s1, s1.len() as int).contains_key(id),
{
    let n = s1.len() as int;
    let m1 = slots_view(s1, n);
    let m2 = slots_view(s2, n);
    lemma_view_char(s1, n);
    lemma_view_char(s2, n);
    lemma_id_parts(s1[i].generation, i);
    assert forall|x: u64|
        #![trigger m2.contains_key(x)]
        #![trigger m1.insert(id, s2[i].node->0.view()).contains_key(x)]
        (m2.contains_key(x) == m1.insert(id, s2[i].node->0.view()).contains_key(x)) && (
        m2.contains_key(x) ==> m2[x] == m1.insert(id, s2[i].node->0.view())[x]) by {
        lemma_id_repack(x);
    }
    assert(m2 =~= m1.insert(id, s2[i].node->0.view()));
}

/// Vacating one occupied slot removes exactly that node from the view.
pub(crate) proof fn lemma_vacate_view(s1: Seq<Slot>, s2: Seq<Slot>, i: int, id: u64)
    requires
        slots_bounded(s1),
        slots_bounded(s2),
        s2.len() == s1.len(),
        0 <= i < s1.len(),
        forall|j: int| 0 <= j < s1.len() && j != i ==> s2[j] == s1[j],
        s1[i].node is Some,
        s2[i].node is None,
        id == spec_pack_id(s1[i].generation, i),
    ensures
        slots_view(s2, s2.len() as int) == slots_view(s1, s1.len() as int).remove(id),
        slots_view(s1, s1.len() as int).contains_key(id),
{
    let n = s1.len() as int;
    let m1 = slots_view(s1, n);
    let m2 = slots_view(s2, n);
    lemma_view_char(s1, n);
    lemma_view_char(s2, n);
    lemma_id_parts(s1[i].generation, i);
    assert forall|x: u64|
        #![trigger m2.contains_key(x)]
        #![trigger m1.remove(id).contains_key(x)]
        (m2.contains_key(x) == m1.remove(id).contains_key(x)) && (m2.contains_key(x)
            ==> m2[x] == m1.remove(id)[x]) by {
        lemma_id_repack(x);
    }
    assert(m2 =~= m1.remove(id));
}

/// The record of a freshly created node: a dirty, parentless, childless
/// leaf with no cached layout.
pub open spec fn fresh_node_view(style: Style, context: Option<u64>) -> NodeView {
    NodeView {
        style,
        parent: Option::None,
        children: Seq::empty(),
        context,
        cache: Option::None,
        dirty: true,
    }
}

/// The retained-mode layout tree: an arena of styled nodes, their links,
/// dirty flags and cached layouts.
pub struct TaffyTree {
    pub(crate) slots: Vec<Slot>,
    pub(crate) free: Vec<usize>,
    pub(crate) rounding: bool,
    pub(crate) count: u64,
    pub(crate) retired: Ghost<nat>,
    pub(crate) issued: Ghost<Set<u64>>,
    pub(crate) computed: Ghost<Set<u64>>,
    pub(crate) measured: Ghost<Map<u64, SizeUnits>>,
}

impl View for TaffyTree {
    type V = Map<u64, NodeView>;

    /// The map from live node ids to the abstract node records.
    closed spec fn view(&self) -> Map<u64, NodeView> {
        slots_view(self.slots@, self.slots@.len() as int)
    }
}

impl TaffyTree {
    /// Whether `layout` reports whole-pixel geometry.
    pub closed spec fn rounding_enabled(&self) -> bool {
        self.rounding
    }

    /// The node ids the last layout computation ran the algorithm for.
    pub closed spec fn computed_set(&self) -> Set<u64> {
        self.computed@
    }

    /// The sizes the measure capability reported during the last layout
    /// computation, per leaf.
    pub closed spec fn measured_map(&self) -> Map<u64, SizeUnits> {
        self.measured@
    }

    /// The number of slots retired for good: their generation count is
    /// exhausted, so they can never hold a node again.
    pub closed spec fn retired_slots(&self) -> nat {
        self.retired@
    }

    /// Every id this tree has ever issued since it was created or last
    /// cleared. Creation never reissues one of these, so an id stays dead
    /// forever once its node is removed, even when its slot is reused.
    pub closed spec fn issued_ids(&self) -> Set<u64> {
        self.issued@
    }

    /// The representation invariant of the arena.
    pub closed spec fn inv_repr(&self) -> bool {
        &&& slots_bounded(self.slots@)
        &&& forall|k: int|
            0 <= k < self.free@.len() ==> (#[trigger] self.free@[k]) < self.slots@.len()
        &&& forall|k: int|
            0 <= k < self.free@.len() ==> self.slots@[self.free@[k] as int].node is None
        &&& self.free@.no_duplicates()
        &&& self.count == self@.dom().len()
        &&& self@.dom().len() + self.free@.len() + self.retired@ == self.slots@.len()
        &&& forall|id: u64| #[trigger]
            self.issued@.contains(id) ==> id_index(id) < self.slots@.len() && id_generation(id)
                <= self.slots@[id_index(id)].generation && (id_generation(id) == self.slots@[
                id_index(id)].generation ==> self.slots@[id_index(id)].node is Some
                || !self.free@.contains(id_index(id) as usize))
        &&& forall|id: u64| #[trigger] self@.contains_key(id) ==> self.issued@.contains(id)
    }

    /// The tree is well formed: the arena invariant holds, parent and child
    /// links agree, no node is its own ancestor, dirtiness is closed upward,
    /// and all cached geometry is in bounds.
    pub open spec fn wf(&self) -> bool {
        &&& self.inv_repr()
        &&& self@.dom().finite()
        &&& parents_live(self@)
        &&& coherent(self@)
        &&& acyclic(self@)
        &&& dirty_upward_closed(self@)
        &&& clean_has_cache(self@)
        &&& caches_bounded(self@)
    }

    /// A new, empty tree.
    pub fn new() -> (r: TaffyTree)
        ensures
            r.wf(),
            r@ == Map::<u64, NodeView>::empty(),
            r.rounding_enabled(),
            r.retired_slots() == 0,
            r.issued_ids() == Set::<u64>::empty(),
    {
        TaffyTree {
            slots: Vec::new(),
            free: Vec::new(),
            rounding: true,
            count: 0,
            retired: Ghost(0),
            issued: Ghost(Set::empty()),
            computed: Ghost(Set::empty()),
            measured: Ghost(Map::empty()),
        }
    }

    /// A new, empty tree with space reserved for `capacity` nodes.
    pub fn with_capacity(capacity: usize) -> (r: TaffyTree)
        ensures
            r.wf(),
            r@ == Map::<u64, NodeView>::empty(),
            r.rounding_enabled(),
            r.retired_slots() == 0,
            r.issued_ids() == Set::<u64>::empty(),
    {
        TaffyTree {
            slots: Vec::with_capacity(capacity),
            free: Vec::new(),
            rounding: true,
            count: 0,
            retired: Ghost(0),
            issued: Ghost(Set::empty()),
            computed: Ghost(Set::empty()),
            measured: Ghost(Map::empty()),
        }
    }

    /// From now on `layout` reports whole-pixel geometry (the default).
    /// Already cached layouts keep the variant they were computed with.
    pub fn enable_rounding(&mut self)
        requires
            old(self).wf(),
        ensures
            final(self).wf(),
            final(self)@ == old(self)@,
            final(self).rounding_enabled(),
            final(self).retired_slots() == old(self).retired_slots(),
            final(self).issued_ids() == old(self).issued_ids(),
    {
        self.rounding = true;
    }

    /// From now on `layout` reports the raw computed geometry.
    /// Already cached layouts keep the variant they were computed with.
    pub fn disable_rounding(&mut self)
        requires
            old(self).wf(),
        ensures
            final(self).wf(),
            final(self)@ == old(self)@,
            !final(self).rounding_enabled(),
            final(self).retired_slots() == old(self).retired_slots(),
            final(self).issued_ids() == old(self).issued_ids(),
    {
        self.rounding = false;
    }

    /// The number of live nodes.
    pub fn total_node_count(&self) -> (r: usize)
        requires
            self.wf(),
        ensures
            r == self@.dom().len(),
    {
        let slot_count = self.slots.len();
        proof {
            lemma_view_finite(self.slots@, self.slots@.len() as int);
            assert(self.count <= slot_count);
        }
        self.count as usize
    }

    /// Removes every node; every previously issued id becomes invalid.
    /// The issue record starts over too: only after a `clear` may an id
    /// from before it ever be issued again.
    pub fn clear(&mut self)
        requires
            old(self).wf(),
        ensures
            final(self).wf(),
            final(self)@ == Map::<u64, NodeView>::empty(),
            final(self).rounding_enabled() == old(self).rounding_enabled(),
            final(self).retired_slots() == 0,
            final(self).issued_ids() == Set::<u64>::empty(),
    {
        self.slots = Vec::new();
        self.free = Vec::new();
        self.count = 0;
        self.retired = Ghost(0);
        self.issued = Ghost(Set::empty());
    }

    /// Stores a fresh parentless, childless record in a vacant slot and
    /// issues its id.
    fn alloc_slot(&mut self, data: NodeData) -> (id: u64)
        requires
            old(self).inv_repr(),
            old(self)@.dom().finite(),
            old(self)@.dom().len() + old(self).retired_slots() < 0x1_0000_0000,
            data.parent is None,
            data.children@.len() == 0,
        ensures
            final(self).inv_repr(),
            final(self)@.dom().finite(),
            !old(self)@.contains_key(id),
            final(self)@ == old(self)@.insert(id, data.view()),
            final(self).rounding_enabled() == old(self).rounding_enabled(),
            final(self).retired_slots() == old(self).retired_slots(),
            !old(self).issued_ids().contains(id),
            final(self).issued_ids() == old(self).issued_ids().insert(id),
    {
        let ghost s1 = self.slots@;
        let ghost m1 = self@;
        let ghost v = data.view();
        proof {
            lemma_view_char(s1, s1.len() as int);
        }
        let popped = self.free.pop();
        match popped {
            Option::Some(i) => {
                let g = self.slots[i].generation;
                let id: u64 = g * ID_SPAN + (i as u64);
                proof {
                    lemma_id_parts(g, i as int);
                    assert(g * ID_SPAN + (i as u64) == spec_pack_id(g, i as int))
                        by (nonlinear_arith)
                        requires g < 0x1_0000_0000u64, i < 0x1_0000_0000u64;
                }
                proof {
                    // the id was never issued: its generation is the slot's
                    // current one, yet the slot is vacant and free-listed
                    assert(!self.issued@.contains(id)) by {
                        if self.issued@.contains(id) {
                            assert(s1[i as int].node is None);
                            assert(old(self).free@.contains(i));
                        }
                    }
                }
                let slot = &mut self.slots[i];
                slot.node = Some(data);
                self.count = self.count + 1;
                self.issued = Ghost(self.issued@.insert(id));
                proof {
                    let s2 = self.slots@;
                    assert(s2 == s1.update(i as int, Slot { generation: g, node: Some(data) }));
                    lemma_fill_view(s1, s2, i as int, id);
                    assert(self@ == m1.insert(id, v));
                    assert(!m1.contains_key(id));
                    vstd::set::axiom_set_insert_len(m1.dom(), id);
                    assert(self@.dom() =~= m1.dom().insert(id));
                    assert forall|other: u64| #[trigger] self.issued@.contains(other)
                        implies id_index(other) < s2.len() && id_generation(other) <= s2[id_index(
                        other,
                    )].generation && (id_generation(other) == s2[id_index(other)].generation
                        ==> s2[id_index(other)].node is Some || !self.free@.contains(
                        id_index(other) as usize,
                    )) by {
                        if other != id {
                            assert(old(self).issued@.contains(other));
                            if self.free@.contains(id_index(other) as usize) {
                                assert(old(self).free@.contains(id_index(other) as usize));
                            }
                        } else {
                            lemma_id_parts(g, i as int);
                        }
                    }
                }
                id
            },
            Option::None => {
                proof {
                    lemma_view_finite(s1, s1.len() as int);
                }
                let i = self.slots.len();
                let id: u64 = i as u64;
                proof {
                    lemma_id_parts(0, i as int);
                    assert(spec_pack_id(0, i as int) == id);
                    // a brand-new slot index was never part of any id
                    assert(!self.issued@.contains(id));
                }
                self.slots.push(Slot { generation: 0, node: Some(data) });
                self.count = self.count + 1;
                self.issued = Ghost(self.issued@.insert(id));
                proof {
                    let s2 = self.slots@;
                    lemma_view_prefix(s1, s2, s1.len() as int);
                    lemma_id_parts(0, i as int);
                    assert(slots_view(s2, s2.len() as int) == slots_view(s2, s1.len() as int)
                        .insert(id, v));
                    assert(self@ == m1.insert(id, v));
                    lemma_view_char(s1, s1.len() as int);
                    assert(!m1.contains_key(id));
                    vstd::set::axiom_set_insert_len(m1.dom(), id);
                    assert(self@.dom() =~= m1.dom().insert(id));
                    assert forall|other: u64| #[trigger] self.issued@.contains(other)
                        implies id_index(other) < s2.len() && id_generation(other) <= s2[id_index(
                        other,
                    )].generation && (id_generation(other) == s2[id_index(other)].generation
                        ==> s2[id_index(other)].node is Some || !self.free@.contains(
                        id_index(other) as usize,
                    )) by {
                        if other != id {
                            assert(old(self).issued@.contains(other));
                            assert(s2[id_index(other)] == s1[id_index(other)]);
                        }
                    }
                }
                id
            },
        }
    }

    /// Creates a new childless node with the given style and context word.
    /// The node starts dirty, parentless and without a cached layout.
    ///
    /// The arena can issue `2^32` slots, each through `2^32` generations;
    /// the precondition keeps the next id representable.
    pub fn new_leaf_with_context(&mut self, style: &Style, context: u64) -> (r: Result<
        u64,
        TreeError,
    >)
        requires
            old(self).wf(),
            old(self)@.dom().len() + old(self).retired_slots() < 0x1_0000_0000,
        ensures
            final(self).wf(),
            r is Ok,
            !old(self)@.contains_key(r->Ok_0),
            final(self)@ == old(self)@.insert(
                r->Ok_0,
                fresh_node_view(*style, Some(context)),
            ),
            final(self).rounding_enabled() == old(self).rounding_enabled(),
            final(self).retired_slots() == old(self).retired_slots(),
            !old(self).issued_ids().contains(r->Ok_0),
            final(self).issued_ids() == old(self).issued_ids().insert(r->Ok_0),
    {
        self.create_node(style, Some(context))
    }

    /// Creates a new childless node with the given style. The node starts
    /// dirty, parentless and without a cached layout.
    ///
    /// The arena can issue `2^32` slots, each through `2^32` generations;
    /// the precondition keeps the next id representable.
    pub fn new_leaf(&mut self, style: &Style) -> (r: Result<u64, TreeError>)
        requires
            old(self).wf(),
            old(self)@.dom().len() + old(self).retired_slots() < 0x1_0000_0000,
        ensures
            final(self).wf(),
            r is Ok,
            !old(self)@.contains_key(r->Ok_0),
            final(self)@ == old(self)@.insert(r->Ok_0, fresh_node_view(*style, Option::None)),
            final(self).rounding_enabled() == old(self).rounding_enabled(),
            final(self).retired_slots() == old(self).retired_slots(),
            !old(self).issued_ids().contains(r->Ok_0),
            final(self).issued_ids() == old(self).issued_ids().insert(r->Ok_0),
    {
        self.create_node(style, None)
    }

    /// The shared body of the leaf constructors.
    fn create_node(&mut self, style: &Style, context: Option<u64>) -> (r: Result<u64, TreeError>)
        requires
            old(self).wf(),
            old(self)@.dom().len() + old(self).retired_slots() < 0x1_0000_0000,
        ensures
            final(self).wf(),
            r is Ok,
            !old(self)@.contains_key(r->Ok_0),
            final(self)@ == old(self)@.insert(r->Ok_0, fresh_node_view(*style, context)),
            final(self).rounding_enabled() == old(self).rounding_enabled(),
            final(self).retired_slots() == old(self).retired_slots(),
            !old(self).issued_ids().contains(r->Ok_0),
            final(self).issued_ids() == old(self).issued_ids().insert(r->Ok_0),
    {
        let ghost m1 = self@;
        let data = NodeData {
            style: *style,
            parent: None,
            children: Vec::new(),
            context,
            cache: None,
            dirty: true,
        };
        let ghost v = data.view();
        let id = self.alloc_slot(data);
        proof {
            let m2 = self@;
            assert(v == fresh_node_view(*style, context));
            assert forall|c: u64| #[trigger] m2.contains_key(c) && m2[c].parent is Some
                implies m2.contains_key(m2[c].parent->0) && m2[m2[c].parent->0].children.contains(
                c,
            ) by {
                assert(m1.contains_key(c));
            }
            assert forall|p: u64, i: int|
                m2.contains_key(p) && 0 <= i < m2[p].children.len() implies m2.contains_key(
                #[trigger] m2[p].children[i],
            ) && m2[m2[p].children[i]].parent == Some(p) by {
                if p != id {
                    assert(m1.contains_key(p));
                    assert(m1.contains_key(m1[p].children[i]));
                }
            }
            assert(coherent(m2));
            assert(parents_live(m2));
            assert(m2.dom() =~= m1.dom().insert(id));
            lemma_insert_root_acyclic(m1, m2, id);
            assert(dirty_upward_closed(m2));
            assert(caches_bounded(m2));
        }
        Ok(id)
    }

    /// The slot index of a live node, or `None` for a stale or unknown id.
    pub(crate) fn live_index(&self, id: u64) -> (r: Option<usize>)
        requires
            self.inv_repr(),
        ensures
            match r {
                Option::Some(i) => self@.contains_key(id) && i == id_index(id) && i
                    < self.slots@.len() && self.slots@[i as int].node is Some && self.slots@[
                    i as int].node->0.view() == self@[id] && self.slots@[i as int].generation
                    == id_generation(id) && id == spec_pack_id(
                    self.slots@[i as int].generation,
                    i as int,
                ),
                Option::None => !self@.contains_key(id),
            },
    {
        proof {
            lemma_id_repack(id);
            lemma_view_char(self.slots@, self.slots@.len() as int);
        }
        let idx64 = id % ID_SPAN;
        let generation = id / ID_SPAN;
        let i = idx64 as usize;
        proof {
            assert(i as int == id_index(id));
            assert(generation as int == id_generation(id));
        }
        if i < self.slots.len() {
            if self.slots[i].generation == generation {
                match &self.slots[i].node {
                    Option::Some(_) => {
                        proof {
                            assert(self@.contains_key(id));
                        }
                        Some(i)
                    },
                    Option::None => None,
                }
            } else {
                None
            }
        } else {
            None
        }
    }

    /// Raises the dirty flag on `start` and every one of its ancestors;
    /// changes nothing else.
    fn mark_dirty_up(&mut self, start: u64)
        requires
            old(self).inv_repr(),
            old(self)@.dom().finite(),
            parents_live(old(self)@),
            coherent(old(self)@),
            acyclic(old(self)@),
            old(self)@.contains_key(start),
        ensures
            final(self).inv_repr(),
            final(self)@.dom().finite(),
            parents_live(final(self)@),
            coherent(final(self)@),
            acyclic(final(self)@),
            final(self)@.dom() == old(self)@.dom(),
            forall|x: u64| #[trigger]
                final(self)@.contains_key(x) ==> final(self)@[x] == (if x == start || ancestors(
                    old(self)@,
                    start,
                ).contains(x) {
                    with_dirty(old(self)@[x])
                } else {
                    old(self)@[x]
                }),
            forall|n: u64| ancestors(final(self)@, n) == ancestors(old(self)@, n),
            final(self).rounding_enabled() == old(self).rounding_enabled(),
            final(self).retired_slots() == old(self).retired_slots(),
            final(self).issued_ids() == old(self).issued_ids(),
            final(self).computed_set() == old(self).computed_set(),
            final(self).measured_map() == old(self).measured_map(),
    {
        let ghost m0 = self@;
        let ghost chain = ancestors(m0, start);
        let mut cur_opt: Option<u64> = Some(start);
        let ghost mut k: int = 0;
        proof {
            lemma_chain_live(m0, start, m0.dom().len());
            lemma_chain_distinct(m0, start, m0.dom().len());
        }
        while cur_opt.is_some()
            invariant
                self.inv_repr(),
                self@.dom().finite(),
                parents_live(self@),
                coherent(self@),
                acyclic(self@),
                self@.dom() == m0.dom(),
                same_structure(m0, self@),
                parents_live(m0),
                coherent(m0),
                acyclic(m0),
                m0.dom().finite(),
                m0.contains_key(start),
                chain == ancestors(m0, start),
                chain.no_duplicates(),
                !chain.contains(start),
                forall|i: int| 0 <= i < chain.len() ==> m0.contains_key(#[trigger] chain[i]),
                0 <= k <= chain.len() + 1,
                cur_opt == (if k == 0 {
                    Some(start)
                } else if k <= chain.len() {
                    Some(chain[k - 1])
                } else {
                    Option::<u64>::None
                }),
                forall|x: u64| #[trigger]
                    self@.contains_key(x) ==> self@[x] == (if (k >= 1 && x == start)
                        || chain.take(if k >= 1 {
                        k - 1
                    } else {
                        0
                    }).contains(x) {
                        with_dirty(m0[x])
                    } else {
                        m0[x]
                    }),
                self.rounding_enabled() == old(self).rounding_enabled(),
                self.retired_slots() == old(self).retired_slots(),
                self.issued_ids() == old(self).issued_ids(),
                self.computed_set() == old(self).computed_set(),
                self.measured_map() == old(self).measured_map(),
            decreases chain.len() + 1 - k,
        {
            let cur = cur_opt.unwrap();
            proof {
                if k >= 1 {
                    lemma_chain_standard(m0, start, m0.dom().len());
                    lemma_chain_suffix(m0, start, m0.dom().len(), k - 1);
                }
            }
            let ghost before = self@;
            let i = self.live_index(cur).unwrap();
            let ghost s1 = self.slots@;
            let slot = &mut self.slots[i];
            let next = match &mut slot.node {
                Option::Some(d) => {
                    d.dirty = true;
                    d.parent
                },
                Option::None => None,
            };
            proof {
                let s2 = self.slots@;
                lemma_update_view(s1, s2, i as int, cur);
                assert(self@ == before.insert(cur, with_dirty(before[cur])));
                assert(self@.dom() =~= before.dom());
                lemma_structure_predicates(before, self@);
                assert(same_structure(m0, self@));
                // the parent link of `cur` in the untouched map
                if k == 0 {
                    assert(m0[start].parent == (if chain.len() == 0 {
                        Option::<u64>::None
                    } else {
                        Some(chain[0])
                    })) by {
                        if m0[start].parent is Some {
                            lemma_child_ancestors(m0, start);
                        }
                    }
                } else {
                    assert(anc_chain(m0, chain[k - 1], m0.dom().len()) == Some(
                        chain.skip(k),
                    ));
                    assert(m0[chain[k - 1]].parent == (if k == chain.len() {
                        Option::<u64>::None
                    } else {
                        Some(chain[k])
                    })) by {
                        if m0[chain[k - 1]].parent is Some {
                            lemma_child_ancestors(m0, chain[k - 1]);
                            assert(ancestors(m0, chain[k - 1]) == chain.skip(k));
                            assert(chain.skip(k).len() > 0);
                            assert(chain.skip(k)[0] == chain[k]);
                        } else {
                            assert(chain.skip(k).len() == 0);
                        }
                    }
                }
                assert(next == m0[cur].parent);
                assert(before[cur] == m0[cur]);
                k = k + 1;
                assert forall|x: u64| #[trigger] self@.contains_key(x) implies self@[x] == (
                if (k >= 1 && x == start) || chain.take(k - 1).contains(x) {
                    with_dirty(m0[x])
                } else {
                    m0[x]
                }) by {
                    if k >= 2 {
                        lemma_take_push(chain, k - 2, x);
                    }
                    if x == cur {
                        assert(self@[cur] == with_dirty(m0[cur]));
                        if k >= 2 {
                            assert(chain[k - 2] == cur);
                        }
                    } else {
                        assert(self@[x] == before[x]);
                    }
                }
            }
            cur_opt = next;
        }
        proof {
            assert(k == chain.len() + 1);
            assert(chain.take(k - 1) =~= chain);
            assert forall|n: u64| ancestors(self@, n) == ancestors(m0, n) by {
                lemma_structure_predicates(m0, self@);
            }
        }
    }

    /// Marks a node as needing recomputation: its flag and every ancestor's
    /// flag are raised. Fails with `NotFound` for a stale or unknown id.
    pub fn mark_dirty(&mut self, node: u64) -> (r: Result<(), TreeError>)
        requires
            old(self).wf(),
        ensures
            final(self).wf(),
            r is Ok <==> old(self)@.contains_key(node),
            r is Err ==> r == Result::<(), TreeError>::Err(TreeError::NotFound) && *final(self)
                == *old(self),
            r is Ok ==> final(self)@.dom() == old(self)@.dom() && (forall|x: u64| #[trigger]
                final(self)@.contains_key(x) ==> final(self)@[x] == (if x == node || ancestors(
                    old(self)@,
                    node,
                ).contains(x) {
                    with_dirty(old(self)@[x])
                } else {
                    old(self)@[x]
                })),
            final(self).rounding_enabled() == old(self).rounding_enabled(),
            final(self).retired_slots() == old(self).retired_slots(),
            final(self).issued_ids() == old(self).issued_ids(),
    {
        match self.live_index(node) {
            Option::Some(_) => {
                self.mark_dirty_up(node);
                proof {
                    lemma_chain_live(old(self)@, node, old(self)@.dom().len());
                    assert(dirty_upward_closed(self@)) by {
                        lemma_mark_upward(old(self)@, self@, node);
                    }
                    assert(caches_bounded(self@));
                }
                Ok(())
            },
            Option::None => Err(TreeError::NotFound),
        }
    }

    /// A copy of the node's style. Fails with `NotFound` for a stale or
    /// unknown id.
    pub fn style(&self, node: u64) -> (r: Result<Style, TreeError>)
        requires
            self.wf(),
        ensures
            match r {
                Result::Ok(s) => self@.contains_key(node) && s == self@[node].style,
                Result::Err(e) => !self@.contains_key(node) && e == TreeError::NotFound,
            },
    {
        match self.live_index(node) {
            Option::Some(i) => {
                match &self.slots[i].node {
                    Option::Some(d) => Ok(d.style),
                    Option::None => Err(TreeError::NotFound),
                }
            },
            Option::None => Err(TreeError::NotFound),
        }
    }

    /// Replaces the node's style and marks the node and all its ancestors
    /// dirty, whether or not the new style differs from the old one. Fails
    /// with `NotFound` for a stale or unknown id.
    pub fn set_style(&mut self, node: u64, style: &Style) -> (r: Result<(), TreeError>)
        requires
            old(self).wf(),
        ensures
            final(self).wf(),
            r is Ok <==> old(self)@.contains_key(node),
            r is Err ==> r == Result::<(), TreeError>::Err(TreeError::NotFound) && *final(self)
                == *old(self),
            r is Ok ==> final(self)@.dom() == old(self)@.dom() && (forall|x: u64| #[trigger]
                final(self)@.contains_key(x) ==> final(self)@[x] == (if x == node {
                    NodeView { style: *style, dirty: true, ..old(self)@[node] }
                } else if ancestors(old(self)@, node).contains(x) {
                    with_dirty(old(self)@[x])
                } else {
                    old(self)@[x]
                })),
            final(self).rounding_enabled() == old(self).rounding_enabled(),
            final(self).retired_slots() == old(self).retired_slots(),
            final(self).issued_ids() == old(self).issued_ids(),
    {
        let ghost m0 = self@;
        match self.live_index(node) {
            Option::Some(i) => {
                let ghost s1 = self.slots@;
                let slot = &mut self.slots[i];
                match &mut slot.node {
                    Option::Some(d) => {
                        d.style = *style;
                    },
                    Option::None => {},
                }
                proof {
                    let s2 = self.slots@;
                    lemma_update_view(s1, s2, i as int, node);
                    assert(self@ == m0.insert(
                        node,
                        NodeView { style: *style, ..m0[node] },
                    ));
                    assert(self@.dom() =~= m0.dom());
                    lemma_structure_predicates(m0, self@);
                }
                let ghost m_mid = self@;
                self.mark_dirty_up(node);
                proof {
                    assert forall|x: u64| #[trigger] self@.contains_key(x) implies self@[x] == (
                    if x == node {
                        NodeView { style: *style, dirty: true, ..m0[node] }
                    } else if ancestors(m0, node).contains(x) {
                        with_dirty(m0[x])
                    } else {
                        m0[x]
                    }) by {
                        assert(ancestors(m_mid, node) == ancestors(m0, node));
                    }
                    assert(dirty_upward_closed(self@) && caches_bounded(self@)) by {
                        assert(dirty_upward_closed(m_mid));
                        assert(caches_bounded(m_mid));
                        lemma_mark_upward(m_mid, self@, node);
                    }
                }
                Ok(())
            },
            Option::None => Err(TreeError::NotFound),
        }
    }

    /// The parent of a node, or `None` for a root. Fails with `NotFound`
    /// for a stale or unknown id.
    pub fn parent(&self, child: u64) -> (r: Result<Option<u64>, TreeError>)
        requires
            self.wf(),
        ensures
            match r {
                Result::Ok(p) => self@.contains_key(child) && p == self@[child].parent,
                Result::Err(e) => !self@.contains_key(child) && e == TreeError::NotFound,
            },
    {
        match self.live_index(child) {
            Option::Some(i) => {
                match &self.slots[i].node {
                    Option::Some(d) => Ok(d.parent),
                    Option::None => Err(TreeError::NotFound),
                }
            },
            Option::None => Err(TreeError::NotFound),
        }
    }

    /// The node's children, in order. Fails with `NotFound` for a stale or
    /// unknown id.
    pub fn children(&self, parent: u64) -> (r: Result<Vec<u64>, TreeError>)
        requires
            self.wf(),
        ensures
            match r {
                Result::Ok(v) => self@.contains_key(parent) && v@ == self@[parent].children,
                Result::Err(e) => !self@.contains_key(parent) && e == TreeError::NotFound,
            },
    {
        match self.live_index(parent) {
            Option::Some(i) => {
                let n = match &self.slots[i].node {
                    Option::Some(d) => d.children.len(),
                    Option::None => 0,
                };
                let mut out: Vec<u64> = Vec::new();
                let mut j: usize = 0;
                while j < n
                    invariant
                        self.wf(),
                        self@.contains_key(parent),
                        i < self.slots@.len(),
                        self.slots@[i as int].node is Some,
                        self.slots@[i as int].node->0.view() == self@[parent],
                        n == self@[parent].children.len(),
                        j <= n,
                        out@ == self@[parent].children.take(j as int),
                    decreases n - j,
                {
                    let c = match &self.slots[i].node {
                        Option::Some(d) => d.children[j],
                        Option::None => 0,
                    };
                    out.push(c);
                    j = j + 1;
                    proof {
                        assert(out@ =~= self@[parent].children.take(j as int));
                    }
                }
                proof {
                    assert(out@ =~= self@[parent].children);
                }
                Ok(out)
            },
            Option::None => Err(TreeError::NotFound),
        }
    }

    /// The number of children of a node. Fails with `NotFound` for a stale
    /// or unknown id.
    pub fn child_count(&self, parent: u64) -> (r: Result<usize, TreeError>)
        requires
            self.wf(),
        ensures
            match r {
                Result::Ok(n) => self@.contains_key(parent) && n == self@[parent].children.len(),
                Result::Err(e) => !self@.contains_key(parent) && e == TreeError::NotFound,
            },
    {
        match self.live_index(parent) {
            Option::Some(i) => {
                match &self.slots[i].node {
                    Option::Some(d) => Ok(d.children.len()),
                    Option::None => Err(TreeError::NotFound),
                }
            },
            Option::None => Err(TreeError::NotFound),
        }
    }

    /// The child at `index`. Fails with `NotFound` for a stale or unknown
    /// parent id, and with `IndexOutOfBounds` when `index` is not below the
    /// child count.
    pub fn child_at_index(&self, parent: u64, index: usize) -> (r: Result<u64, TreeError>)
        requires
            self.wf(),
        ensures
            match r {
                Result::Ok(c) => self@.contains_key(parent) && index < self@[parent].children.len()
                    && c == self@[parent].children[index as int],
                Result::Err(e) => (e == TreeError::NotFound && !self@.contains_key(parent)) || (
                e == TreeError::IndexOutOfBounds && self@.contains_key(parent) && index
                    >= self@[parent].children.len()),
            },
    {
        match self.live_index(parent) {
            Option::Some(i) => {
                match &self.slots[i].node {
                    Option::Some(d) => {
                        if index < d.children.len() {
                            Ok(d.children[index])
                        } else {
                            Err(TreeError::IndexOutOfBounds)
                        }
                    },
                    Option::None => Err(TreeError::NotFound),
                }
            },
            Option::None => Err(TreeError::NotFound),
        }
    }

    /// The context word attached to a node, or `None` when none is set.
    /// Fails with `NotFound` for a stale or unknown id.
    pub fn get_node_context(&self, node: u64) -> (r: Result<Option<u64>, TreeError>)
        requires
            self.wf(),
        ensures
            match r {
                Result::Ok(c) => self@.contains_key(node) && c == self@[node].context,
                Result::Err(e) => !self@.contains_key(node) && e == TreeError::NotFound,
            },
    {
        match self.live_index(node) {
            Option::Some(i) => {
                match &self.slots[i].node {
                    Option::Some(d) => Ok(d.context),
                    Option::None => Err(TreeError::NotFound),
                }
            },
            Option::None => Err(TreeError::NotFound),
        }
    }

    /// The context word attached to a node, read through an exclusive
    /// borrow; the tree is unchanged. Fails with `NotFound` for a stale or
    /// unknown id.
    pub fn get_node_context_mut(&mut self, node: u64) -> (r: Result<Option<u64>, TreeError>)
        requires
            old(self).wf(),
        ensures
            *final(self) == *old(self),
            final(self).wf(),
            match r {
                Result::Ok(c) => old(self)@.contains_key(node) && c == old(self)@[node].context,
                Result::Err(e) => !old(self)@.contains_key(node) && e == TreeError::NotFound,
            },
    {
        self.get_node_context(node)
    }

    /// The context words of several nodes at once; a stale or unknown id
    /// yields `None` in its place, as does a node without a context.
    pub fn get_disjoint_node_context_mut(&mut self, nodes: &Vec<u64>) -> (r: Result<
        Vec<Option<u64>>,
        TreeError,
    >)
        requires
            old(self).wf(),
        ensures
            *final(self) == *old(self),
            final(self).wf(),
            r is Ok,
            r->Ok_0@.len() == nodes@.len(),
            forall|j: int|
                0 <= j < nodes@.len() ==> r->Ok_0@[j] == (if old(self)@.contains_key(nodes@[j]) {
                    old(self)@[nodes@[j]].context
                } else {
                    Option::<u64>::None
                }),
    {
        let mut out: Vec<Option<u64>> = Vec::new();
        let mut j: usize = 0;
        while j < nodes.len()
            invariant
                self.wf(),
                *self == *old(self),
                j <= nodes@.len(),
                out@.len() == j,
                forall|t: int|
                    0 <= t < j ==> out@[t] == (if self@.contains_key(nodes@[t]) {
                        self@[nodes@[t]].context
                    } else {
                        Option::<u64>::None
                    }),
            decreases nodes@.len() - j,
        {
            let entry = match self.get_node_context(nodes[j]) {
                Result::Ok(c) => c,
                Result::Err(_) => None,
            };
            out.push(entry);
            j = j + 1;
        }
        Ok(out)
    }

    /// Attaches a context word to a node, or clears it with `None`. The
    /// node is not marked dirty: callers whose measure capability depends
    /// on the context must call `mark_dirty` themselves. Fails with
    /// `NotFound` for a stale or unknown id.
    pub fn set_node_context(&mut self, node: u64, context: Option<u64>) -> (r: Result<
        (),
        TreeError,
    >)
        requires
            old(self).wf(),
        ensures
            final(self).wf(),
            r is Ok <==> old(self)@.contains_key(node),
            r is Err ==> r == Result::<(), TreeError>::Err(TreeError::NotFound) && *final(self)
                == *old(self),
            r is Ok ==> final(self)@ == old(self)@.insert(
                node,
                NodeView { context, ..old(self)@[node] },
            ),
            final(self).rounding_enabled() == old(self).rounding_enabled(),
            final(self).retired_slots() == old(self).retired_slots(),
            final(self).issued_ids() == old(self).issued_ids(),
    {
        let ghost m0 = self@;
        match self.live_index(node) {
            Option::Some(i) => {
                let ghost s1 = self.slots@;
                let slot = &mut self.slots[i];
                match &mut slot.node {
                    Option::Some(d) => {
                        d.context = context;
                    },
                    Option::None => {},
                }
                proof {
                    let s2 = self.slots@;
                    lemma_update_view(s1, s2, i as int, node);
                    assert(self@ == m0.insert(node, NodeView { context, ..m0[node] }));
                    assert(self@.dom() =~= m0.dom());
                    lemma_structure_predicates(m0, self@);
                    assert(dirty_upward_closed(self@));
                    assert(caches_bounded(self@));
                }
                Ok(())
            },
            Option::None => Err(TreeError::NotFound),
        }
    }

    /// Whether the node's cached layout may be stale. Fails with `NotFound`
    /// for a stale or unknown id.
    pub fn dirty(&self, node: u64) -> (r: Result<bool, TreeError>)
        requires
            self.wf(),
        ensures
            match r {
                Result::Ok(d) => self@.contains_key(node) && d == self@[node].dirty,
                Result::Err(e) => !self@.contains_key(node) && e == TreeError::NotFound,
            },
    {
        match self.live_index(node) {
            Option::Some(i) => {
                match &self.slots[i].node {
                    Option::Some(d) => Ok(d.dirty),
                    Option::None => Err(TreeError::NotFound),
                }
            },
            Option::None => Err(TreeError::NotFound),
        }
    }
    /// Unlinks the child at `index` from `p`'s child list; the child
    /// becomes a root and keeps its flags. No node is marked dirty here.
    fn detach_inner(&mut self, p: u64, index: usize) -> (c: u64)
        requires
            old(self).wf(),
            old(self)@.contains_key(p),
            index < old(self)@[p].children.len(),
        ensures
            final(self).wf(),
            c == old(self)@[p].children[index as int],
            c != p,
            old(self)@.contains_key(c),
            final(self)@.dom() == old(self)@.dom(),
            final(self)@ == old(self)@.insert(
                p,
                NodeView { children: old(self)@[p].children.remove(index as int), ..old(self)@[p] },
            ).insert(c, NodeView { parent: Option::None, ..old(self)@[c] }),
            forall|n: u64| ancestors(final(self)@, n) == ancestors(old(self)@, n)
                || ancestors(old(self)@, n).contains(c) || n == c,
            ancestors(final(self)@, p) == ancestors(old(self)@, p),
            final(self).rounding_enabled() == old(self).rounding_enabled(),
            final(self).retired_slots() == old(self).retired_slots(),
            final(self).issued_ids() == old(self).issued_ids(),
    {
        let ghost m0 = self@;
        let ip = self.live_index(p).unwrap();
        let c = match &self.slots[ip].node {
            Option::Some(d) => d.children[index],
            Option::None => 0,
        };
        proof {
            assert(m0.contains_key(c));
            assert(m0[c].parent == Some(p));
            // a node never lists itself: that would make it its own ancestor
            if c == p {
                lemma_child_ancestors(m0, p);
                lemma_chain_standard(m0, p, m0.dom().len());
                lemma_chain_distinct(m0, p, m0.dom().len());
                assert(ancestors(m0, p)[0] == p);
            }
            // nor can a child sit on its parent's ancestor chain
            if ancestors(m0, p).contains(c) {
                let i = choose|i: int|
                    0 <= i < ancestors(m0, p).len() && #[trigger] ancestors(m0, p)[i] == c;
                lemma_chain_suffix(m0, p, m0.dom().len(), i);
                lemma_chain_standard(m0, c, m0.dom().len());
                lemma_child_ancestors(m0, c);
                assert(ancestors(m0, c) == ancestors(m0, p).skip(i + 1));
                assert(ancestors(m0, c).len() == ancestors(m0, p).len() + 1);
            }
            assert(!ancestors(m0, p).contains(c));
        }
        let ghost s1 = self.slots@;
        let slot = &mut self.slots[ip];
        match &mut slot.node {
            Option::Some(d) => {
                d.children.remove(index);
            },
            Option::None => {},
        }
        let ghost m1 = slots_view(self.slots@, self.slots@.len() as int);
        proof {
            lemma_update_view(s1, self.slots@, ip as int, p);
            assert(m1 == m0.insert(
                p,
                NodeView { children: m0[p].children.remove(index as int), ..m0[p] },
            ));
            assert(m1.dom() =~= m0.dom());
        }
        let ic = self.live_index(c).unwrap();
        let ghost s2 = self.slots@;
        let slot = &mut self.slots[ic];
        match &mut slot.node {
            Option::Some(d) => {
                d.parent = None;
            },
            Option::None => {},
        }
        proof {
            let m2 = self@;
            lemma_update_view(s2, self.slots@, ic as int, c);
            assert(m2 == m1.insert(c, NodeView { parent: Option::None, ..m0[c] }));
            assert(m2.dom() =~= m0.dom());
            lemma_remove_keeps(m0[p].children, index as int);
            // coherence
            assert forall|x: u64| #[trigger] m2.contains_key(x) && m2[x].parent
                is Some implies m2.contains_key(m2[x].parent->0) && m2[m2[x].parent->0]
                .children.contains(x) by {
                assert(x != c);
                assert(m2[x].parent == m0[x].parent);
                let q = m2[x].parent->0;
                assert(m0[q].children.contains(x));
                if q == p {
                    assert(x != c) by {
                        assert(m0[c].parent == Some(p));
                    }
                    assert(m2[p].children.contains(x));
                }
            }
            assert forall|q: u64, j: int|
                m2.contains_key(q) && 0 <= j < m2[q].children.len() implies m2.contains_key(
                #[trigger] m2[q].children[j],
            ) && m2[m2[q].children[j]].parent == Some(q) by {
                let e = m2[q].children[j];
                if q == p {
                    assert(m0[p].children.contains(e));
                    assert(e != c);
                    assert(m0[e].parent == Some(p));
                } else {
                    assert(m2[q].children == m0[q].children);
                    assert(m0[e].parent == Some(q));
                    assert(e != c) by {
                        if e == c {
                            assert(m0[c].parent == Some(q));
                        }
                    }
                }
            }
            assert forall|q: u64| #[trigger] m2.contains_key(q)
                implies m2[q].children.no_duplicates() by {
                if q != p {
                    assert(m2[q].children == m0[q].children);
                }
            }
            assert(coherent(m2));
            assert(parents_live(m2));
            assert forall|x: u64| x != c implies same_parent_at(m0, m2, x) by {}
            lemma_detach_acyclic(m0, m2, c);
            assert(dirty_upward_closed(m2)) by {
                assert forall|x: u64| #[trigger] m2.contains_key(x) && m2[x].dirty && m2[x].parent
                    is Some implies m2[m2[x].parent->0].dirty by {
                    assert(x != c);
                    assert(m2[x].parent == m0[x].parent);
                    assert(m0[x].dirty);
                    assert(m0[m0[x].parent->0].dirty);
                }
            }
            assert(caches_bounded(m2));
            // ancestor chains: only walks through `c` change
            assert forall|n: u64| n != c && !ancestors(m0, n).contains(c) implies ancestors(
                m2,
                n,
            ) == ancestors(m0, n) by {
                if m0.contains_key(n) {
                    lemma_chain_live(m0, n, m0.dom().len());
                    lemma_chain_frame(m0, m2, n, m0.dom().len());
                    lemma_chain_standard(m2, n, m0.dom().len());
                } else {
                    assert(!m2.contains_key(n));
                }
            }
        }
        c
    }

    /// Removes the child at `index` from a parent and marks the parent and
    /// its ancestors dirty; the detached child becomes a root and stays
    /// live. Fails with `NotFound` for a stale or unknown parent id and
    /// with `IndexOutOfBounds` when `index` is not below the child count.
    pub fn remove_child_at_index(&mut self, parent: u64, index: usize) -> (r: Result<
        u64,
        TreeError,
    >)
        requires
            old(self).wf(),
        ensures
            final(self).wf(),
            r is Ok <==> (old(self)@.contains_key(parent) && index < old(
                self,
            )@[parent].children.len()),
            r is Err ==> *final(self) == *old(self),
            r == Result::<u64, TreeError>::Err(TreeError::NotFound) <==> !old(
                self,
            )@.contains_key(parent),
            r == Result::<u64, TreeError>::Err(TreeError::IndexOutOfBounds) <==> (old(
                self,
            )@.contains_key(parent) && index >= old(self)@[parent].children.len()),
            r is Ok ==> r->Ok_0 == old(self)@[parent].children[index as int] && final(self)@.dom()
                == old(self)@.dom() && (forall|x: u64| #[trigger]
                final(self)@.contains_key(x) ==> final(self)@[x] == (if x == parent {
                    NodeView {
                        children: old(self)@[parent].children.remove(index as int),
                        dirty: true,
                        ..old(self)@[parent]
                    }
                } else if x == r->Ok_0 {
                    NodeView { parent: Option::None, ..old(self)@[x] }
                } else if ancestors(old(self)@, parent).contains(x) {
                    with_dirty(old(self)@[x])
                } else {
                    old(self)@[x]
                })),
            final(self).rounding_enabled() == old(self).rounding_enabled(),
            final(self).retired_slots() == old(self).retired_slots(),
            final(self).issued_ids() == old(self).issued_ids(),
    {
        let n = match self.child_count(parent) {
            Result::Ok(n) => n,
            Result::Err(e) => {
                return Err(e);
            },
        };
        if index >= n {
            return Err(TreeError::IndexOutOfBounds);
        }
        let ghost m0 = self@;
        let ghost chain0 = ancestors(m0, parent);
        proof {
            lemma_chain_live(m0, parent, m0.dom().len());
            lemma_chain_distinct(m0, parent, m0.dom().len());
        }
        let c = self.detach_inner(parent, index);
        let ghost m2 = self@;
        self.mark_dirty_up(parent);
        proof {
            assert(ancestors(m2, parent) == chain0);
            assert forall|x: u64| #[trigger] self@.contains_key(x) implies self@[x] == (if x
                == parent {
                NodeView {
                    children: m0[parent].children.remove(index as int),
                    dirty: true,
                    ..m0[parent]
                }
            } else if x == c {
                NodeView { parent: Option::None, ..m0[x] }
            } else if chain0.contains(x) {
                with_dirty(m0[x])
            } else {
                m0[x]
            }) by {
                if x == c {
                    assert(!chain0.contains(c)) by {
                        if chain0.contains(c) {
                            let i = choose|i: int|
                                0 <= i < chain0.len() && #[trigger] chain0[i] == c;
                            lemma_chain_suffix(m0, parent, m0.dom().len(), i);
                            lemma_chain_standard(m0, c, m0.dom().len());
                            lemma_child_ancestors(m0, c);
                        }
                    }
                }
            }
            lemma_mark_upward(m2, self@, parent);
            assert(self@.dom() =~= m0.dom());
        }
        Ok(c)
    }

    /// Removes a specific child from a parent and marks the parent and its
    /// ancestors dirty; the detached child becomes a root and stays live.
    /// Fails with `NotFound` when either id is stale or unknown and with
    /// `InvalidHierarchy` when the child is live but not a child of the
    /// parent.
    pub fn remove_child(&mut self, parent: u64, child: u64) -> (r: Result<u64, TreeError>)
        requires
            old(self).wf(),
        ensures
            final(self).wf(),
            r is Ok <==> (old(self)@.contains_key(parent) && old(self)@.contains_key(child) && old(
                self,
            )@[parent].children.contains(child)),
            r is Err ==> *final(self) == *old(self),
            r == Result::<u64, TreeError>::Err(TreeError::NotFound) <==> (!old(
                self,
            )@.contains_key(parent) || !old(self)@.contains_key(child)),
            r == Result::<u64, TreeError>::Err(TreeError::InvalidHierarchy) <==> (old(
                self,
            )@.contains_key(parent) && old(self)@.contains_key(child) && !old(
                self,
            )@[parent].children.contains(child)),
            r is Ok ==> r->Ok_0 == child && final(self)@.dom() == old(self)@.dom() && (forall|
                x: u64,
            | #[trigger]
                final(self)@.contains_key(x) ==> final(self)@[x] == (if x == parent {
                    NodeView {
                        children: old(self)@[parent].children.remove_value(child),
                        dirty: true,
                        ..old(self)@[parent]
                    }
                } else if x == child {
                    NodeView { parent: Option::None, ..old(self)@[x] }
                } else if ancestors(old(self)@, parent).contains(x) {
                    with_dirty(old(self)@[x])
                } else {
                    old(self)@[x]
                })),
            final(self).rounding_enabled() == old(self).rounding_enabled(),
            final(self).retired_slots() == old(self).retired_slots(),
            final(self).issued_ids() == old(self).issued_ids(),
    {
        let n = match self.child_count(parent) {
            Result::Ok(n) => n,
            Result::Err(e) => {
                if self.live_index(child).is_none() {
                    return Err(TreeError::NotFound);
                }
                return Err(e);
            },
        };
        if self.live_index(child).is_none() {
            return Err(TreeError::NotFound);
        }
        let ghost m0 = self@;
        let mut index: usize = 0;
        let mut found = false;
        while index < n && !found
            invariant
                self.wf(),
                *self == *old(self),
                m0 == self@,
                m0.contains_key(parent),
                n == m0[parent].children.len(),
                index <= n,
                found ==> index < n && m0[parent].children[index as int] == child,
                !found ==> forall|t: int| 0 <= t < index ==> m0[parent].children[t] != child,
            decreases n - index + (if found {
                0int
            } else {
                1int
            }),
        {
            let e = match self.child_at_index(parent, index) {
                Result::Ok(e) => e,
                Result::Err(_) => 0,
            };
            if e == child {
                found = true;
            } else {
                index = index + 1;
            }
        }
        if !found {
            proof {
                assert(!m0[parent].children.contains(child));
            }
            return Err(TreeError::InvalidHierarchy);
        }
        proof {
            m0[parent].children.index_of_first_ensures(child);
            assert forall|t: int| 0 <= t < index implies m0[parent].children[t] != child by {}
            assert(m0[parent].children.remove_value(child) == m0[parent].children.remove(
                index as int,
            )) by {
                let s = m0[parent].children;
                assert(s.index_of_first(child) == Some(index as int)) by {
                    if s.index_of_first(child) != Some(index as int) {
                        let fi = s.index_of_first(child)->0;
                        assert(s.contains(child));
                        assert(0 <= fi < s.len() && s[fi] == child);
                        assert(s.no_duplicates());
                    }
                }
            }
        }
        match self.remove_child_at_index(parent, index) {
            Result::Ok(c) => Ok(c),
            Result::Err(_) => Err(TreeError::NotFound),
        }
    }

    /// Replaces the child at `index` with another node and marks the
    /// parent and its ancestors dirty; the outgoing child becomes a root
    /// and stays live. Fails with `NotFound` when either id is stale or
    /// unknown, with `IndexOutOfBounds` when `index` is not below the child
    /// count, and with `InvalidHierarchy` when the incoming child has a
    /// parent (unless it is the child being replaced), is the parent
    /// itself, or is one of the parent's ancestors.
    pub fn replace_child_at_index(&mut self, parent: u64, index: usize, child: u64) -> (r: Result<
        u64,
        TreeError,
    >)
        requires
            old(self).wf(),
        ensures
            final(self).wf(),
            r is Ok <==> (old(self)@.contains_key(parent) && old(self)@.contains_key(child)
                && index < old(self)@[parent].children.len() && (old(self)@[child].parent is None
                || child == old(self)@[parent].children[index as int]) && child != parent
                && !ancestors(old(self)@, parent).contains(child)),
            r is Err ==> *final(self) == *old(self),
            r == Result::<u64, TreeError>::Err(TreeError::NotFound) <==> (!old(
                self,
            )@.contains_key(parent) || !old(self)@.contains_key(child)),
            r == Result::<u64, TreeError>::Err(TreeError::IndexOutOfBounds) <==> (old(
                self,
            )@.contains_key(parent) && old(self)@.contains_key(child) && index >= old(
                self,
            )@[parent].children.len()),
            r is Ok ==> r->Ok_0 == old(self)@[parent].children[index as int] && final(self)@.dom()
                == old(self)@.dom() && (forall|x: u64| #[trigger]
                final(self)@.contains_key(x) ==> final(self)@[x] == (if x == parent {
                    NodeView {
                        children: old(self)@[parent].children.update(index as int, child),
                        dirty: true,
                        ..old(self)@[parent]
                    }
                } else if x == child {
                    NodeView { parent: Some(parent), ..old(self)@[x] }
                } else if x == r->Ok_0 {
                    NodeView { parent: Option::None, ..old(self)@[x] }
                } else if ancestors(old(self)@, parent).contains(x) {
                    with_dirty(old(self)@[x])
                } else {
                    old(self)@[x]
                })),
            final(self).rounding_enabled() == old(self).rounding_enabled(),
            final(self).retired_slots() == old(self).retired_slots(),
            final(self).issued_ids() == old(self).issued_ids(),
    {
        let n = match self.child_count(parent) {
            Result::Ok(n) => n,
            Result::Err(e) => {
                if self.live_index(child).is_none() {
                    return Err(TreeError::NotFound);
                }
                return Err(e);
            },
        };
        if self.live_index(child).is_none() {
            return Err(TreeError::NotFound);
        }
        if index >= n {
            return Err(TreeError::IndexOutOfBounds);
        }
        let old_child = match self.child_at_index(parent, index) {
            Result::Ok(c) => c,
            Result::Err(_) => 0,
        };
        let child_parent = match self.parent(child) {
            Result::Ok(p) => p,
            Result::Err(_) => None,
        };
        if child_parent.is_some() && child != old_child {
            return Err(TreeError::InvalidHierarchy);
        }
        if self.is_self_or_ancestor(parent, child) {
            return Err(TreeError::InvalidHierarchy);
        }
        let ghost m0 = self@;
        proof {
            if child == old_child {
                lemma_child_not_ancestor(m0, parent, child);
            }
        }
        let detached = self.detach_inner(parent, index);
        let ghost m_mid = self@;
        proof {
            assert(detached == old_child);
            lemma_child_not_ancestor(m0, parent, old_child);
            assert(m_mid[child].parent is None);
            assert(self@[parent].children.len() == n - 1);
        }
        self.attach_inner(parent, index, child);
        proof {
            assert forall|x: u64| #[trigger] self@.contains_key(x) implies self@[x] == (if x
                == parent {
                NodeView {
                    children: m0[parent].children.update(index as int, child),
                    dirty: true,
                    ..m0[parent]
                }
            } else if x == child {
                NodeView { parent: Some(parent), ..m0[x] }
            } else if x == old_child {
                NodeView { parent: Option::None, ..m0[x] }
            } else if ancestors(m0, parent).contains(x) {
                with_dirty(m0[x])
            } else {
                m0[x]
            }) by {
                if x == parent {
                    assert(m0[parent].children.remove(index as int).insert(index as int, child)
                        =~= m0[parent].children.update(index as int, child));
                } else if x == child {
                    assert(m_mid[child] == NodeView { parent: Option::None, ..m0[child] });
                } else if x == old_child {
                    assert(!ancestors(m0, parent).contains(old_child));
                    assert(m_mid[x] == NodeView { parent: Option::None, ..m0[x] });
                } else if ancestors(m0, parent).contains(x) {
                    assert(ancestors(m_mid, parent) == ancestors(m0, parent));
                    assert(m_mid[x] == m0[x]);
                } else {
                    assert(m_mid[x] == m0[x]);
                }
            }
            assert(self@.dom() =~= m0.dom());
        }
        Ok(old_child)
    }

    /// Detaches the children with indices in `[start, end)` from a parent
    /// and marks the parent and its ancestors dirty; the detached children
    /// become roots and stay live. Fails with `NotFound` for a stale or
    /// unknown parent id and with `IndexOutOfBounds` unless
    /// `start <= end <= child count`.
    #[verifier::rlimit(60)]
    pub fn remove_children_range(&mut self, parent: u64, start: usize, end: usize) -> (r: Result<
        (),
        TreeError,
    >)
        requires
            old(self).wf(),
        ensures
            final(self).wf(),
            r is Ok <==> (old(self)@.contains_key(parent) && start <= end <= old(
                self,
            )@[parent].children.len()),
            r is Err ==> *final(self) == *old(self),
            r == Result::<(), TreeError>::Err(TreeError::NotFound) <==> !old(
                self,
            )@.contains_key(parent),
            r == Result::<(), TreeError>::Err(TreeError::IndexOutOfBounds) <==> (old(
                self,
            )@.contains_key(parent) && !(start <= end <= old(self)@[parent].children.len())),
            r is Ok ==> final(self)@.dom() == old(self)@.dom() && (forall|x: u64| #[trigger]
                final(self)@.contains_key(x) ==> final(self)@[x] == (if x == parent {
                    NodeView {
                        children: old(self)@[parent].children.take(start as int) + old(
                            self,
                        )@[parent].children.skip(end as int),
                        dirty: true,
                        ..old(self)@[parent]
                    }
                } else if old(self)@[parent].children.subrange(start as int, end as int).contains(
                    x,
                ) {
                    NodeView { parent: Option::None, ..old(self)@[x] }
                } else if ancestors(old(self)@, parent).contains(x) {
                    with_dirty(old(self)@[x])
                } else {
                    old(self)@[x]
                })),
            final(self).rounding_enabled() == old(self).rounding_enabled(),
            final(self).retired_slots() == old(self).retired_slots(),
            final(self).issued_ids() == old(self).issued_ids(),
    {
        let n = match self.child_count(parent) {
            Result::Ok(n) => n,
            Result::Err(e) => {
                return Err(e);
            },
        };
        if start > end || end > n {
            return Err(TreeError::IndexOutOfBounds);
        }
        let ghost m0 = self@;
        let ghost kids = m0[parent].children;
        let ghost chain0 = ancestors(m0, parent);
        proof {
            assert(kids.take(start as int) + kids.skip(start as int) =~= kids);
            assert(m0[parent] == NodeView {
                children: kids.take(start as int) + kids.skip(start as int),
                ..m0[parent]
            });
            assert(kids.subrange(start as int, start as int) =~= Seq::<u64>::empty());
        }
        let mut k: usize = 0;
        while k < end - start
            invariant
                self.wf(),
                m0.contains_key(parent),
                parents_live(m0),
                coherent(m0),
                acyclic(m0),
                m0.dom().finite(),
                kids == m0[parent].children,
                kids.no_duplicates(),
                chain0 == ancestors(m0, parent),
                start <= end <= kids.len(),
                k <= end - start,
                self@.dom() == m0.dom(),
                ancestors(self@, parent) == chain0,
                forall|x: u64| #[trigger]
                    self@.contains_key(x) ==> self@[x] == (if x == parent {
                        NodeView {
                            children: kids.take(start as int) + kids.skip(start as int + k),
                            ..m0[parent]
                        }
                    } else if kids.subrange(start as int, start as int + k).contains(x) {
                        NodeView { parent: Option::None, ..m0[x] }
                    } else {
                        m0[x]
                    }),
                self.rounding_enabled() == old(self).rounding_enabled(),
                self.retired_slots() == old(self).retired_slots(),
                self.issued_ids() == old(self).issued_ids(),
            decreases end - start - k,
        {
            let ghost cur_kids = kids.take(start as int) + kids.skip(start as int + k);
            proof {
                assert(self@[parent].children == cur_kids);
                assert(cur_kids.len() == kids.len() - k);
                assert(cur_kids[start as int] == kids[start as int + k]);
            }
            let ghost prev = self@;
            let c = self.detach_inner(parent, start);
            proof {
                assert(c == kids[start as int + k]);
                assert(prev[c] == m0[c]) by {
                    assert(c != parent) by {
                        lemma_child_not_ancestor(m0, parent, c);
                    }
                    if kids.subrange(start as int, start as int + k).contains(c) {
                        let t = choose|t: int|
                            0 <= t < k && #[trigger] kids.subrange(
                                start as int,
                                start as int + k,
                            )[t] == c;
                        assert(kids[start as int + t] == kids[start as int + k]);
                    }
                }
                assert(cur_kids.remove(start as int) =~= kids.take(start as int) + kids.skip(
                    start as int + k + 1,
                ));
                assert forall|x: u64| #[trigger] self@.contains_key(x) implies self@[x] == (
                if x == parent {
                    NodeView {
                        children: kids.take(start as int) + kids.skip(start as int + k + 1),
                        ..m0[parent]
                    }
                } else if kids.subrange(start as int, start as int + k + 1).contains(x) {
                    NodeView { parent: Option::None, ..m0[x] }
                } else {
                    m0[x]
                }) by {
                    let sub1 = kids.subrange(start as int, start as int + k + 1);
                    let sub0 = kids.subrange(start as int, start as int + k);
                    assert(sub1 =~= sub0.push(kids[start as int + k]));
                    if sub1.contains(x) {
                        let t = choose|t: int| 0 <= t < sub1.len() && #[trigger] sub1[t] == x;
                        if t < k {
                            assert(sub0[t] == x);
                        }
                    }
                    if sub0.contains(x) {
                        let t = choose|t: int| 0 <= t < sub0.len() && #[trigger] sub0[t] == x;
                        assert(sub1[t] == x);
                    }
                    if x == c {
                        assert(sub1[k as int] == c);
                    }
                }
            }
            k = k + 1;
        }
        let ghost m_a = self@;
        self.mark_dirty_up(parent);
        proof {
            assert(ancestors(m_a, parent) == chain0);
            assert forall|x: u64| #[trigger] self@.contains_key(x) implies self@[x] == (if x
                == parent {
                NodeView {
                    children: kids.take(start as int) + kids.skip(end as int),
                    dirty: true,
                    ..m0[parent]
                }
            } else if kids.subrange(start as int, end as int).contains(x) {
                NodeView { parent: Option::None, ..m0[x] }
            } else if chain0.contains(x) {
                with_dirty(m0[x])
            } else {
                m0[x]
            }) by {
                if kids.subrange(start as int, end as int).contains(x) && chain0.contains(x) {
                    let t = choose|t: int|
                        start <= t < end && #[trigger] kids[t] == x;
                    lemma_child_not_ancestor(m0, parent, x);
                }
            }
            lemma_mark_upward(m_a, self@, parent);
            assert(self@.dom() =~= m0.dom());
        }
        Ok(())
    }

    /// Replaces a node's entire child list. Previous children not in the
    /// new list become parentless roots and stay live; the parent and its
    /// ancestors are marked dirty. The new children must be live and each
    /// either parentless or already a child of this parent, listed once,
    /// and none may be the parent or one of its ancestors. Fails with
    /// `NotFound` when the parent or a listed child is stale or unknown,
    /// and with `InvalidHierarchy` when a listed child breaks one of the
    /// other conditions.
    pub fn set_children(&mut self, parent: u64, children: &Vec<u64>) -> (r: Result<(), TreeError>)
        requires
            old(self).wf(),
        ensures
            final(self).wf(),
            r is Ok <==> (old(self)@.contains_key(parent) && (forall|j: int|
                0 <= j < children@.len() ==> old(self)@.contains_key(#[trigger] children@[j])) && (
            forall|j: int|
                0 <= j < children@.len() ==> (old(self)@[#[trigger] children@[j]].parent is None
                    || old(self)@[children@[j]].parent == Some(parent)))
                && children@.no_duplicates() && (forall|j: int|
                0 <= j < children@.len() ==> #[trigger] children@[j] != parent && !ancestors(
                    old(self)@,
                    parent,
                ).contains(children@[j]))),
            r is Err ==> *final(self) == *old(self),
            r == Result::<(), TreeError>::Err(TreeError::NotFound) <==> (!old(
                self,
            )@.contains_key(parent) || (exists|j: int|
                0 <= j < children@.len() && !old(self)@.contains_key(#[trigger] children@[j]))),
            r is Ok ==> final(self)@.dom() == old(self)@.dom() && (forall|x: u64| #[trigger]
                final(self)@.contains_key(x) ==> final(self)@[x] == (if x == parent {
                    NodeView { children: children@, dirty: true, ..old(self)@[parent] }
                } else if children@.contains(x) {
                    NodeView { parent: Some(parent), ..old(self)@[x] }
                } else if old(self)@[parent].children.contains(x) {
                    NodeView { parent: Option::None, ..old(self)@[x] }
                } else if ancestors(old(self)@, parent).contains(x) {
                    with_dirty(old(self)@[x])
                } else {
                    old(self)@[x]
                })),
            final(self).rounding_enabled() == old(self).rounding_enabled(),
            final(self).retired_slots() == old(self).retired_slots(),
            final(self).issued_ids() == old(self).issued_ids(),
    {
        let ghost m0 = self@;
        let oldn = match self.child_count(parent) {
            Result::Ok(n) => n,
            Result::Err(e) => {
                return Err(e);
            },
        };
        // every listed child must be live
        let mut j: usize = 0;
        while j < children.len()
            invariant
                self.wf(),
                *self == *old(self),
                m0 == self@,
                m0.contains_key(parent),
                j <= children@.len(),
                forall|t: int| 0 <= t < j ==> m0.contains_key(#[trigger] children@[t]),
            decreases children@.len() - j,
        {
            if self.live_index(children[j]).is_none() {
                return Err(TreeError::NotFound);
            }
            j = j + 1;
        }
        // each must be parentless or already ours
        let mut j: usize = 0;
        while j < children.len()
            invariant
                self.wf(),
                *self == *old(self),
                m0 == self@,
                m0.contains_key(parent),
                j <= children@.len(),
                forall|t: int| 0 <= t < children@.len() ==> m0.contains_key(#[trigger] children@[t]),
                forall|t: int|
                    0 <= t < j ==> (m0[#[trigger] children@[t]].parent is None
                        || m0[children@[t]].parent == Some(parent)),
            decreases children@.len() - j,
        {
            match self.parent(children[j]) {
                Result::Ok(p) => {
                    match p {
                        Option::Some(q) => {
                            if q != parent {
                                return Err(TreeError::InvalidHierarchy);
                            }
                        },
                        Option::None => {},
                    }
                },
                Result::Err(_) => {
                    return Err(TreeError::NotFound);
                },
            }
            j = j + 1;
        }
        // no child may be listed twice
        let mut j: usize = 0;
        while j < children.len()
            invariant
                self.wf(),
                *self == *old(self),
                m0 == self@,
                m0.contains_key(parent),
                j <= children@.len(),
                forall|t: int| 0 <= t < children@.len() ==> m0.contains_key(#[trigger] children@[t]),
                forall|t: int|
                    0 <= t < children@.len() ==> (m0[#[trigger] children@[t]].parent is None
                        || m0[children@[t]].parent == Some(parent)),
                forall|t: int, u: int| 0 <= t < u < j ==> children@[t] != children@[u],
            decreases children@.len() - j,
        {
            let cj = children[j];
            let mut t: usize = 0;
            while t < j
                invariant
                    self.wf(),
                    *self == *old(self),
                    m0 == self@,
                    m0.contains_key(parent),
                    j < children@.len(),
                    cj == children@[j as int],
                    t <= j,
                    forall|tt: int|
                        0 <= tt < children@.len() ==> m0.contains_key(#[trigger] children@[tt]),
                    forall|u: int| 0 <= u < t ==> children@[u] != children@[j as int],
                decreases j - t,
            {
                if children[t] == cj {
                    proof {
                        assert(!children@.no_duplicates());
                    }
                    return Err(TreeError::InvalidHierarchy);
                }
                t = t + 1;
            }
            j = j + 1;
        }
        proof {
            assert(children@.no_duplicates());
        }
        // no child may close a cycle
        let mut j: usize = 0;
        while j < children.len()
            invariant
                self.wf(),
                *self == *old(self),
                m0 == self@,
                m0.contains_key(parent),
                j <= children@.len(),
                forall|t: int| 0 <= t < children@.len() ==> m0.contains_key(#[trigger] children@[t]),
                forall|t: int|
                    0 <= t < j ==> #[trigger] children@[t] != parent && !ancestors(
                        m0,
                        parent,
                    ).contains(children@[t]),
            decreases children@.len() - j,
        {
            if self.is_self_or_ancestor(parent, children[j]) {
                return Err(TreeError::InvalidHierarchy);
            }
            j = j + 1;
        }
        let ghost kids = m0[parent].children;
        let ghost chain0 = ancestors(m0, parent);
        proof {
            assert forall|t: int| 0 <= t < kids.len() implies #[trigger] kids[t] != parent
                && !chain0.contains(kids[t]) by {
                lemma_child_not_ancestor(m0, parent, kids[t]);
            }
            assert(kids.skip(0) =~= kids);
            assert(m0[parent] == NodeView { children: kids.skip(0), ..m0[parent] });
        }
        // detach the current children
        let mut k: usize = 0;
        while k < oldn
            invariant
                self.wf(),
                m0.contains_key(parent),
                parents_live(m0),
                coherent(m0),
                acyclic(m0),
                m0.dom().finite(),
                kids == m0[parent].children,
                kids.no_duplicates(),
                chain0 == ancestors(m0, parent),
                forall|t: int| 0 <= t < kids.len() ==> #[trigger] kids[t] != parent,
                oldn == kids.len(),
                k <= oldn,
                self@.dom() == m0.dom(),
                ancestors(self@, parent) == chain0,
                forall|x: u64| #[trigger]
                    self@.contains_key(x) ==> self@[x] == (if x == parent {
                        NodeView { children: kids.skip(k as int), ..m0[parent] }
                    } else if kids.take(k as int).contains(x) {
                        NodeView { parent: Option::None, ..m0[x] }
                    } else {
                        m0[x]
                    }),
                self.rounding_enabled() == old(self).rounding_enabled(),
                self.retired_slots() == old(self).retired_slots(),
                self.issued_ids() == old(self).issued_ids(),
            decreases oldn - k,
        {
            proof {
                assert(self@[parent].children == kids.skip(k as int));
                assert(kids.skip(k as int)[0] == kids[k as int]);
            }
            let ghost prev = self@;
            let c = self.detach_inner(parent, 0);
            proof {
                assert(c == kids[k as int]);
                assert(prev[c] == m0[c]) by {
                    if kids.take(k as int).contains(c) {
                        let t = choose|t: int|
                            0 <= t < k && #[trigger] kids.take(k as int)[t] == c;
                        assert(kids[t] == kids[k as int]);
                    }
                }
                assert(kids.skip(k as int).remove(0) =~= kids.skip(k as int + 1));
                assert forall|x: u64| #[trigger] self@.contains_key(x) implies self@[x] == (
                if x == parent {
                    NodeView { children: kids.skip(k as int + 1), ..m0[parent] }
                } else if kids.take(k as int + 1).contains(x) {
                    NodeView { parent: Option::None, ..m0[x] }
                } else {
                    m0[x]
                }) by {
                    lemma_take_push(kids, k as int, x);
                }
            }
            k = k + 1;
        }
        proof {
            assert(kids.skip(oldn as int) =~= Seq::<u64>::empty());
            assert(kids.take(oldn as int) =~= kids);
            assert(children@.take(0) =~= Seq::<u64>::empty());
        }
        // attach the new list in order
        let mut j: usize = 0;
        while j < children.len()
            invariant
                self.wf(),
                m0.contains_key(parent),
                parents_live(m0),
                coherent(m0),
                acyclic(m0),
                m0.dom().finite(),
                kids == m0[parent].children,
                chain0 == ancestors(m0, parent),
                children@.no_duplicates(),
                forall|t: int| 0 <= t < children@.len() ==> m0.contains_key(#[trigger] children@[t]),
                forall|t: int|
                    0 <= t < children@.len() ==> (m0[#[trigger] children@[t]].parent is None
                        || m0[children@[t]].parent == Some(parent)),
                forall|t: int|
                    0 <= t < children@.len() ==> #[trigger] children@[t] != parent
                        && !chain0.contains(children@[t]),
                forall|t: int| 0 <= t < kids.len() ==> #[trigger] kids[t] != parent,
                j <= children@.len(),
                self@.dom() == m0.dom(),
                ancestors(self@, parent) == chain0,
                forall|x: u64| #[trigger]
                    self@.contains_key(x) ==> self@[x] == (if x == parent {
                        NodeView {
                            children: children@.take(j as int),
                            dirty: (if j == 0 {
                                m0[parent].dirty
                            } else {
                                true
                            }),
                            ..m0[parent]
                        }
                    } else if children@.take(j as int).contains(x) {
                        NodeView { parent: Some(parent), ..m0[x] }
                    } else if kids.contains(x) {
                        NodeView { parent: Option::None, ..m0[x] }
                    } else if chain0.contains(x) {
                        (if j == 0 {
                            m0[x]
                        } else {
                            with_dirty(m0[x])
                        })
                    } else {
                        m0[x]
                    }),
                self.rounding_enabled() == old(self).rounding_enabled(),
                self.retired_slots() == old(self).retired_slots(),
                self.issued_ids() == old(self).issued_ids(),
            decreases children@.len() - j,
        {
            let cj = children[j];
            proof {
                assert(self@.contains_key(cj));
                assert(self@[cj].parent is None) by {
                    if children@.take(j as int).contains(cj) {
                        let t = choose|t: int|
                            0 <= t < j && #[trigger] children@.take(j as int)[t] == cj;
                        assert(children@[t] == children@[j as int]);
                    }
                    if !kids.contains(cj) {
                        // a child recorded as ours is listed by us
                        if m0[cj].parent == Some(parent) {
                            assert(m0[parent].children.contains(cj));
                        }
                        assert(m0[cj].parent is None);
                    }
                }
                assert(self@[parent].children == children@.take(j as int));
            }
            let ghost prev = self@;
            self.attach_inner(parent, j, cj);
            proof {
                assert forall|x: u64| #[trigger] self@.contains_key(x) implies self@[x] == (
                if x == parent {
                    NodeView { children: children@.take(j as int + 1), dirty: true, ..m0[parent] }
                } else if children@.take(j as int + 1).contains(x) {
                    NodeView { parent: Some(parent), ..m0[x] }
                } else if kids.contains(x) {
                    NodeView { parent: Option::None, ..m0[x] }
                } else if chain0.contains(x) {
                    with_dirty(m0[x])
                } else {
                    m0[x]
                }) by {
                    lemma_take_push(children@, j as int, x);
                    if x == parent {
                        assert(children@.take(j as int).insert(j as int, cj) =~= children@.take(
                            j as int + 1,
                        ));
                    } else if x == cj {
                        assert(self@[cj] == NodeView { parent: Some(parent), ..prev[cj] });
                        if kids.contains(cj) {
                            assert(prev[cj] == NodeView { parent: Option::None, ..m0[cj] });
                        } else {
                            assert(prev[cj] == m0[cj]);
                        }
                        assert(self@[cj] == NodeView { parent: Some(parent), ..m0[cj] });
                    } else if chain0.contains(x) {
                        assert(self@[x] == with_dirty(prev[x]));
                        if children@.take(j as int).contains(x) {
                            let t = choose|t: int|
                                0 <= t < j && #[trigger] children@.take(j as int)[t] == x;
                            assert(children@[t] == x);
                        }
                        if kids.contains(x) {
                            let t = choose|t: int| 0 <= t < kids.len() && #[trigger] kids[t] == x;
                            assert(m0[x].parent == Some(parent));
                            lemma_child_not_ancestor(m0, parent, x);
                        }
                        if j == 0 {
                            assert(prev[x] == m0[x]);
                        } else {
                            assert(prev[x] == with_dirty(m0[x]));
                            assert(with_dirty(with_dirty(m0[x])) == with_dirty(m0[x]));
                        }
                    }
                }
            }
            j = j + 1;
        }
        proof {
            assert(children@.take(children@.len() as int) =~= children@);
        }
        let ghost m_b = self@;
        self.mark_dirty_up(parent);
        proof {
            assert(ancestors(m_b, parent) == chain0);
            assert forall|x: u64| #[trigger] self@.contains_key(x) implies self@[x] == (if x
                == parent {
                NodeView { children: children@, dirty: true, ..m0[parent] }
            } else if children@.contains(x) {
                NodeView { parent: Some(parent), ..m0[x] }
            } else if kids.contains(x) {
                NodeView { parent: Option::None, ..m0[x] }
            } else if chain0.contains(x) {
                with_dirty(m0[x])
            } else {
                m0[x]
            }) by {}
            lemma_mark_upward(m_b, self@, parent);
            assert(self@.dom() =~= m0.dom());
        }
        Ok(())
    }

    /// Removes a node from the tree: it is detached from its parent, which
    /// is marked dirty together with its ancestors, its id becomes invalid
    /// for every further operation, and its slot is freed for reuse under a
    /// new generation. The removed node's children stay live and become
    /// parentless roots; they are not removed. Fails with `NotFound` for a
    /// stale or unknown id.
    #[verifier::rlimit(60)]
    pub fn remove(&mut self, node: u64) -> (r: Result<u64, TreeError>)
        requires
            old(self).wf(),
        ensures
            final(self).wf(),
            r is Ok <==> old(self)@.contains_key(node),
            r is Err ==> r == Result::<u64, TreeError>::Err(TreeError::NotFound) && *final(self)
                == *old(self),
            r is Ok ==> r->Ok_0 == node && final(self)@.dom() == old(self)@.dom().remove(node)
                && (forall|x: u64| #[trigger]
                final(self)@.contains_key(x) ==> final(self)@[x] == (if old(self)@[node].parent
                    is Some && x == old(self)@[node].parent->0 {
                    NodeView {
                        children: old(self)@[x].children.remove_value(node),
                        dirty: true,
                        ..old(self)@[x]
                    }
                } else if old(self)@[node].parent is Some && ancestors(
                    old(self)@,
                    old(self)@[node].parent->0,
                ).contains(x) {
                    with_dirty(old(self)@[x])
                } else if old(self)@[node].children.contains(x) {
                    NodeView { parent: Option::None, ..old(self)@[x] }
                } else {
                    old(self)@[x]
                })),
            final(self).rounding_enabled() == old(self).rounding_enabled(),
            final(self).retired_slots() <= old(self).retired_slots() + 1,
            final(self).issued_ids() == old(self).issued_ids(),
    {
        let ghost m0 = self@;
        if self.live_index(node).is_none() {
            return Err(TreeError::NotFound);
        }
        let ghost kids = m0[node].children;
        proof {
            // the node lists neither itself nor its own parent as a child
            assert(!kids.contains(node)) by {
                if kids.contains(node) {
                    assert(m0[node].parent == Some(node));
                    lemma_child_ancestors(m0, node);
                    lemma_chain_standard(m0, node, m0.dom().len());
                    lemma_chain_distinct(m0, node, m0.dom().len());
                    assert(ancestors(m0, node)[0] == node);
                }
            }
        }
        // the children become parentless roots
        let count = match self.child_count(node) {
            Result::Ok(c) => c,
            Result::Err(_) => 0,
        };
        proof {
            assert(kids.skip(0) =~= kids);
            assert(m0[node] == NodeView { children: kids.skip(0), ..m0[node] });
        }
        let mut k: usize = 0;
        while k < count
            invariant
                self.wf(),
                m0.contains_key(node),
                kids == m0[node].children,
                !kids.contains(node),
                kids.no_duplicates(),
                count == kids.len(),
                k <= count,
                self@.dom() == m0.dom(),
                forall|x: u64| #[trigger]
                    self@.contains_key(x) ==> self@[x] == (if x == node {
                        NodeView { children: kids.skip(k as int), ..m0[node] }
                    } else if kids.take(k as int).contains(x) {
                        NodeView { parent: Option::None, ..m0[x] }
                    } else {
                        m0[x]
                    }),
                self.rounding_enabled() == old(self).rounding_enabled(),
                self.retired_slots() == old(self).retired_slots(),
                self.issued_ids() == old(self).issued_ids(),
            decreases count - k,
        {
            proof {
                assert(self@[node].children == kids.skip(k as int));
                assert(kids.skip(k as int).len() > 0);
                assert(kids.skip(k as int)[0] == kids[k as int]);
            }
            let ghost prev = self@;
            let c = self.detach_inner(node, 0);
            proof {
                assert(c == kids[k as int]);
                assert(c != node);
                assert(prev[c] == m0[c]) by {
                    if kids.take(k as int).contains(c) {
                        let t = choose|t: int|
                            0 <= t < k && #[trigger] kids.take(k as int)[t] == c;
                        assert(kids[t] == kids[k as int]);
                    }
                }
                assert(kids.skip(k as int).remove(0) =~= kids.skip(k as int + 1));
                assert forall|x: u64| #[trigger] self@.contains_key(x) implies self@[x] == (
                if x == node {
                    NodeView { children: kids.skip(k as int + 1), ..m0[node] }
                } else if kids.take(k as int + 1).contains(x) {
                    NodeView { parent: Option::None, ..m0[x] }
                } else {
                    m0[x]
                }) by {
                    lemma_take_push(kids, k as int, x);
                }
            }
            k = k + 1;
        }
        proof {
            assert(kids.skip(count as int) =~= Seq::<u64>::empty());
            assert(kids.take(count as int) =~= kids);
        }
        let ghost m_a = self@;
        proof {
            assert forall|x: u64| #[trigger] m_a.contains_key(x) implies m_a[x] == (if x == node {
                NodeView { children: Seq::empty(), ..m0[node] }
            } else if kids.contains(x) {
                NodeView { parent: Option::None, ..m0[x] }
            } else {
                m0[x]
            }) by {}
        }
        // detach from the parent and mark its chain dirty
        let parent_opt = match self.parent(node) {
            Result::Ok(p) => p,
            Result::Err(_) => None,
        };
        match parent_opt {
            Option::Some(p) => {
                proof {
                    assert(p == m0[node].parent->0);
                    assert(p != node);
                    assert(!kids.contains(p)) by {
                        if kids.contains(p) {
                            assert(m0[p].parent == Some(node));
                            lemma_child_ancestors(m0, p);
                            lemma_child_ancestors(m0, node);
                            lemma_chain_standard(m0, p, m0.dom().len());
                        }
                    }
                    assert(m_a[p] == m0[p]);
                    assert(m_a[p].children.contains(node));
                    // the parent's chain is unchanged by detaching the children
                    assert(ancestors(m_a, p) == ancestors(m0, p)) by {
                        lemma_chain_live(m0, p, m0.dom().len());
                        lemma_chain_distinct(m0, p, m0.dom().len());
                        assert forall|i: int|
                            0 <= i < ancestors(m0, p).len() implies same_parent_at(
                            m0,
                            m_a,
                            #[trigger] ancestors(m0, p)[i],
                        ) by {
                            let y = ancestors(m0, p)[i];
                            assert(!kids.contains(y)) by {
                                if kids.contains(y) {
                                    assert(m0[y].parent == Some(node));
                                    lemma_chain_suffix(m0, p, m0.dom().len(), i);
                                    lemma_chain_standard(m0, y, m0.dom().len());
                                    lemma_child_ancestors(m0, y);
                                    assert(ancestors(m0, y) == ancestors(m0, p).skip(i + 1));
                                    assert(ancestors(m0, y)[0] == node);
                                    // node is on p's chain, yet node's parent is p
                                    assert(ancestors(m0, p).contains(node));
                                    let j = choose|j: int|
                                        0 <= j < ancestors(m0, p).len() && #[trigger] ancestors(
                                            m0,
                                            p,
                                        )[j] == node;
                                    lemma_chain_suffix(m0, p, m0.dom().len(), j);
                                    lemma_chain_standard(m0, node, m0.dom().len());
                                    lemma_child_ancestors(m0, node);
                                    assert(ancestors(m0, node) == ancestors(m0, p).skip(j + 1));
                                    assert(ancestors(m0, node).len() == ancestors(m0, p).len()
                                        + 1);
                                }
                            }
                            assert(y != node) by {
                                if y == node {
                                    lemma_chain_suffix(m0, p, m0.dom().len(), i);
                                    lemma_chain_standard(m0, node, m0.dom().len());
                                    lemma_child_ancestors(m0, node);
                                    assert(ancestors(m0, node) == ancestors(m0, p).skip(i + 1));
                                }
                            }
                        }
                        assert(same_parent_at(m0, m_a, p));
                        lemma_chain_frame(m0, m_a, p, m0.dom().len());
                        lemma_chain_standard(m_a, p, m0.dom().len());
                    }
                }
                let res = self.remove_child(p, node);
                proof {
                    assert(res is Ok);
                    assert forall|x: u64| #[trigger] self@.contains_key(x) implies self@[x] == (
                    if x == p {
                        NodeView {
                            children: m0[p].children.remove_value(node),
                            dirty: true,
                            ..m0[p]
                        }
                    } else if ancestors(m0, p).contains(x) {
                        with_dirty(m0[x])
                    } else if x == node {
                        NodeView { parent: Option::None, children: Seq::empty(), ..m0[node] }
                    } else if kids.contains(x) {
                        NodeView { parent: Option::None, ..m0[x] }
                    } else {
                        m0[x]
                    }) by {
                        if x != p && x != node && !ancestors(m0, p).contains(x) {
                            assert(self@[x] == m_a[x]);
                        }
                        if x == node && ancestors(m0, p).contains(node) {
                            // the removed node cannot be its own ancestor
                            let i = choose|i: int|
                                0 <= i < ancestors(m0, p).len() && #[trigger] ancestors(
                                    m0,
                                    p,
                                )[i] == node;
                            lemma_chain_suffix(m0, p, m0.dom().len(), i);
                            lemma_chain_standard(m0, node, m0.dom().len());
                            lemma_child_ancestors(m0, node);
                            assert(ancestors(m0, node) == ancestors(m0, p).skip(i + 1));
                            assert(ancestors(m0, node).len() == ancestors(m0, p).len() + 1);
                        }
                        if kids.contains(x) && ancestors(m0, p).contains(x) {
                            // a child of the removed node cannot sit on the
                            // parent's ancestor chain
                            let i = choose|i: int|
                                0 <= i < ancestors(m0, p).len() && #[trigger] ancestors(
                                    m0,
                                    p,
                                )[i] == x;
                            lemma_chain_suffix(m0, p, m0.dom().len(), i);
                            lemma_chain_standard(m0, x, m0.dom().len());
                            lemma_child_ancestors(m0, x);
                            assert(ancestors(m0, x) == ancestors(m0, p).skip(i + 1));
                            assert(ancestors(m0, x)[0] == node);
                            assert(ancestors(m0, p).contains(node));
                            let j = choose|j: int|
                                0 <= j < ancestors(m0, p).len() && #[trigger] ancestors(
                                    m0,
                                    p,
                                )[j] == node;
                            lemma_chain_suffix(m0, p, m0.dom().len(), j);
                            lemma_chain_standard(m0, node, m0.dom().len());
                            lemma_child_ancestors(m0, node);
                            assert(ancestors(m0, node) == ancestors(m0, p).skip(j + 1));
                            assert(ancestors(m0, node).len() == ancestors(m0, p).len() + 1);
                        }
                        if x == p {
                            assert(!kids.contains(p));
                        }
                    }
                }
            },
            Option::None => {},
        }
        // vacate the slot: the id is dead, the slot rejoins service under a
        // new generation or is retired when its generations are spent
        let ghost m_b = self@;
        let i = self.live_index(node).unwrap();
        let ghost s1 = self.slots@;
        let g = self.slots[i].generation;
        let slot = &mut self.slots[i];
        slot.node = None;
        if g + 1 < ID_SPAN {
            slot.generation = g + 1;
            proof {
                let s2 = self.slots@;
                lemma_vacate_view(s1, s2, i as int, node);
            }
            self.free.push(i);
        } else {
            proof {
                let s2 = self.slots@;
                lemma_vacate_view(s1, s2, i as int, node);
            }
            self.retired = Ghost(self.retired@ + 1);
        }
        self.count = self.count - 1;
        proof {
            let m2 = self@;
            assert(m2 == m_b.remove(node));
            assert(m2.dom() =~= m_b.dom().remove(node));
            vstd::set::axiom_set_remove_len(m_b.dom(), node);
            assert(forall|y: u64| #[trigger]
                m_b.contains_key(y) ==> m_b[y].parent != Some(node)) by {
                assert forall|y: u64| #[trigger] m_b.contains_key(y) implies m_b[y].parent
                    != Some(node) by {
                    if m_b[y].parent == Some(node) {
                        assert(m_b[node].children.contains(y));
                        assert(m_b[node].children == Seq::<u64>::empty());
                    }
                }
            }
            assert forall|x: u64| x != node implies same_parent_at(m_b, m2, x) by {}
            lemma_delete_acyclic(m_b, m2, node);
            assert(parents_live(m2)) by {
                assert forall|c: u64| #[trigger] m2.contains_key(c) && m2[c].parent
                    is Some implies m2.contains_key(m2[c].parent->0) by {
                    assert(m_b[c].parent != Some(node));
                }
            }
            assert(coherent(m2)) by {
                assert forall|c: u64| #[trigger] m2.contains_key(c) && m2[c].parent
                    is Some implies m2.contains_key(m2[c].parent->0) && m2[m2[c].parent->0]
                    .children.contains(c) by {
                    assert(m_b[c].parent != Some(node));
                }
                assert forall|q: u64, j: int|
                    m2.contains_key(q) && 0 <= j < m2[q].children.len() implies m2.contains_key(
                    #[trigger] m2[q].children[j],
                ) && m2[m2[q].children[j]].parent == Some(q) by {
                    let e = m2[q].children[j];
                    assert(m_b.contains_key(e) && m_b[e].parent == Some(q));
                    assert(e != node) by {
                        if e == node {
                            assert(m_b[node].parent == Some(q));
                            // the node was already detached from any parent
                            assert(m_b[node].parent is None);
                        }
                    }
                }
            }
            assert(dirty_upward_closed(m2)) by {
                assert forall|c: u64| #[trigger] m2.contains_key(c) && m2[c].dirty && m2[c].parent
                    is Some implies m2[m2[c].parent->0].dirty by {
                    assert(m_b[c].parent != Some(node));
                }
            }
            assert(caches_bounded(m2));
            assert(self@.dom() =~= m0.dom().remove(node));
        }
        Ok(node)
    }

    /// Overwrites a node's cached layout and clears its dirty flag.
    pub(crate) fn write_entry(&mut self, x: u64, entry: CacheEntry)
        requires
            old(self).inv_repr(),
            old(self)@.dom().finite(),
            old(self)@.contains_key(x),
        ensures
            final(self).inv_repr(),
            final(self)@.dom().finite(),
            final(self)@ == old(self)@.insert(
                x,
                NodeView { cache: Some(entry), dirty: false, ..old(self)@[x] },
            ),
            final(self)@.dom() == old(self)@.dom(),
            final(self).rounding_enabled() == old(self).rounding_enabled(),
            final(self).retired_slots() == old(self).retired_slots(),
            final(self).issued_ids() == old(self).issued_ids(),
            final(self).computed_set() == old(self).computed_set(),
            final(self).measured_map() == old(self).measured_map(),
    {
        let i = self.live_index(x).unwrap();
        let ghost s1 = self.slots@;
        let slot = &mut self.slots[i];
        match &mut slot.node {
            Option::Some(d) => {
                d.cache = Some(entry);
                d.dirty = false;
            },
            Option::None => {},
        }
        proof {
            lemma_update_view(s1, self.slots@, i as int, x);
            assert(self@.dom() =~= old(self)@.dom());
        }
    }

    /// A node's cached layout, if it is live and has one.
    pub(crate) fn get_entry(&self, x: u64) -> (r: Option<CacheEntry>)
        requires
            self.inv_repr(),
        ensures
            match r {
                Option::Some(e) => self@.contains_key(x) && self@[x].cache == Some(e),
                Option::None => !self@.contains_key(x) || self@[x].cache is None,
            },
    {
        match self.live_index(x) {
            Option::Some(i) => {
                match &self.slots[i].node {
                    Option::Some(d) => d.cache,
                    Option::None => None,
                }
            },
            Option::None => None,
        }
    }


    /// Whether rounding is currently switched on, as an executable read.
    pub(crate) fn rounding_flag(&self) -> (r: bool)
        ensures
            r == self.rounding_enabled(),
    {
        self.rounding
    }

    /// Starts a fresh layout computation record: no node computed, no leaf
    /// measured yet.
    pub(crate) fn reset_pass_record(&mut self)
        ensures
            final(self)@ == old(self)@,
            old(self).inv_repr() ==> final(self).inv_repr(),
            final(self).rounding_enabled() == old(self).rounding_enabled(),
            final(self).retired_slots() == old(self).retired_slots(),
            final(self).issued_ids() == old(self).issued_ids(),
            final(self).computed_set() == Set::<u64>::empty(),
            final(self).measured_map() == Map::<u64, SizeUnits>::empty(),
    {
        self.computed = Ghost(Set::empty());
        self.measured = Ghost(Map::empty());
        proof {
            if old(self).inv_repr() {
                lemma_ghost_record_keeps_inv(old(self), self);
            }
        }
    }

    /// Records that the walk ran the algorithm for `x`.
    pub(crate) fn note_computed(&mut self, x: u64)
        ensures
            final(self)@ == old(self)@,
            old(self).inv_repr() ==> final(self).inv_repr(),
            final(self).rounding_enabled() == old(self).rounding_enabled(),
            final(self).retired_slots() == old(self).retired_slots(),
            final(self).issued_ids() == old(self).issued_ids(),
            final(self).computed_set() == old(self).computed_set().insert(x),
            final(self).measured_map() == old(self).measured_map(),
    {
        self.computed = Ghost(self.computed@.insert(x));
        proof {
            if old(self).inv_repr() {
                lemma_ghost_record_keeps_inv(old(self), self);
            }
        }
    }

    /// Records the usable size the measure capability reported for a leaf.
    pub(crate) fn note_measured(&mut self, x: u64, size: SizeUnits)
        ensures
            final(self)@ == old(self)@,
            old(self).inv_repr() ==> final(self).inv_repr(),
            final(self).rounding_enabled() == old(self).rounding_enabled(),
            final(self).retired_slots() == old(self).retired_slots(),
            final(self).issued_ids() == old(self).issued_ids(),
            final(self).computed_set() == old(self).computed_set(),
            final(self).measured_map() == old(self).measured_map().insert(x, size),
    {
        self.measured = Ghost(self.measured@.insert(x, size));
        proof {
            if old(self).inv_repr() {
                lemma_ghost_record_keeps_inv(old(self), self);
            }
        }
    }

    /// Whether `c` is `p` itself or a strict ancestor of `p`: attaching `c`
    /// under `p` would then create a cycle.
    fn is_self_or_ancestor(&self, p: u64, c: u64) -> (r: bool)
        requires
            self.wf(),
            self@.contains_key(p),
        ensures
            r == (c == p || ancestors(self@, p).contains(c)),
    {
        if c == p {
            return true;
        }
        let ghost m = self@;
        let ghost chain = ancestors(m, p);
        proof {
            lemma_chain_live(m, p, m.dom().len());
            lemma_chain_distinct(m, p, m.dom().len());
        }
        let mut cur = p;
        let ghost mut k: int = 0;
        loop
            invariant
                self.wf(),
                m == self@,
                m.contains_key(p),
                c != p,
                chain == ancestors(m, p),
                forall|i: int| 0 <= i < chain.len() ==> m.contains_key(#[trigger] chain[i]),
                0 <= k <= chain.len(),
                cur == (if k == 0 {
                    p
                } else {
                    chain[k - 1]
                }),
                forall|j: int| 0 <= j < k ==> chain[j] != c,
            decreases chain.len() - k,
        {
            proof {
                lemma_chain_step(m, p, k);
            }
            let i = self.live_index(cur).unwrap();
            let par = match &self.slots[i].node {
                Option::Some(d) => d.parent,
                Option::None => None,
            };
            match par {
                Option::None => {
                    proof {
                        assert(k == chain.len());
                        assert forall|j: int| 0 <= j < chain.len() implies chain[j] != c by {}
                        if chain.contains(c) {
                            let j = choose|j: int|
                                0 <= j < chain.len() && #[trigger] chain[j] == c;
                        }
                    }
                    return false;
                },
                Option::Some(q) => {
                    proof {
                        assert(k < chain.len());
                        assert(q == chain[k]);
                    }
                    if q == c {
                        return true;
                    }
                    cur = q;
                    proof {
                        k = k + 1;
                    }
                },
            }
        }
    }

    /// Splices a parentless node into a parent's child list at `index` and
    /// marks the parent and its ancestors dirty.
    fn attach_inner(&mut self, p: u64, index: usize, c: u64)
        requires
            old(self).wf(),
            old(self)@.contains_key(p),
            old(self)@.contains_key(c),
            old(self)@[c].parent is None,
            c != p,
            !ancestors(old(self)@, p).contains(c),
            index <= old(self)@[p].children.len(),
        ensures
            final(self).wf(),
            final(self)@.dom() == old(self)@.dom(),
            forall|x: u64| #[trigger]
                final(self)@.contains_key(x) ==> final(self)@[x] == (if x == p {
                    NodeView {
                        children: old(self)@[p].children.insert(index as int, c),
                        dirty: true,
                        ..old(self)@[p]
                    }
                } else if x == c {
                    NodeView { parent: Some(p), ..old(self)@[c] }
                } else if ancestors(old(self)@, p).contains(x) {
                    with_dirty(old(self)@[x])
                } else {
                    old(self)@[x]
                }),
            ancestors(final(self)@, p) == ancestors(old(self)@, p),
            final(self).rounding_enabled() == old(self).rounding_enabled(),
            final(self).retired_slots() == old(self).retired_slots(),
            final(self).issued_ids() == old(self).issued_ids(),
    {
        let ghost m0 = self@;
        let ghost chain0 = ancestors(m0, p);
        proof {
            lemma_chain_live(m0, p, m0.dom().len());
            lemma_chain_distinct(m0, p, m0.dom().len());
        }
        // splice the child into the parent's list
        let ip = self.live_index(p).unwrap();
        let ghost s1 = self.slots@;
        let slot = &mut self.slots[ip];
        match &mut slot.node {
            Option::Some(d) => {
                d.children.insert(index, c);
            },
            Option::None => {},
        }
        let ghost m1 = slots_view(self.slots@, self.slots@.len() as int);
        proof {
            lemma_update_view(s1, self.slots@, ip as int, p);
            assert(m1 == m0.insert(
                p,
                NodeView { children: m0[p].children.insert(index as int, c), ..m0[p] },
            ));
            assert(m1.dom() =~= m0.dom());
        }
        // point the child back at the parent
        let ic = self.live_index(c).unwrap();
        let ghost s2 = self.slots@;
        let slot = &mut self.slots[ic];
        match &mut slot.node {
            Option::Some(d) => {
                d.parent = Some(p);
            },
            Option::None => {},
        }
        let ghost m2 = slots_view(self.slots@, self.slots@.len() as int);
        proof {
            lemma_update_view(s2, self.slots@, ic as int, c);
            assert(m2 == m1.insert(c, NodeView { parent: Some(p), ..m0[c] }));
            assert(m2.dom() =~= m0.dom());
            lemma_insert_no_dup(m0[p].children, index as int, c);
            assert(!m0[p].children.contains(c)) by {
                if m0[p].children.contains(c) {
                    let j = choose|j: int|
                        0 <= j < m0[p].children.len() && #[trigger] m0[p].children[j] == c;
                    assert(m0[c].parent == Some(p));
                }
            }
            // coherence of the new map
            assert forall|x: u64| #[trigger] m2.contains_key(x) && m2[x].parent
                is Some implies m2.contains_key(m2[x].parent->0) && m2[m2[x].parent->0]
                .children.contains(x) by {
                if x == c {
                    assert(m2[p].children.contains(c));
                } else {
                    assert(m2[x].parent == m0[x].parent);
                    let q = m2[x].parent->0;
                    assert(m0[q].children.contains(x));
                    if q == p {
                        assert(m2[p].children.contains(x));
                    }
                }
            }
            assert forall|q: u64, j: int|
                m2.contains_key(q) && 0 <= j < m2[q].children.len() implies m2.contains_key(
                #[trigger] m2[q].children[j],
            ) && m2[m2[q].children[j]].parent == Some(q) by {
                let e = m2[q].children[j];
                if q == p {
                    m0[p].children.insert_ensures(index as int, c);
                    if j == index {
                        assert(e == c);
                    } else {
                        let j0 = if j < index {
                            j
                        } else {
                            j - 1
                        };
                        assert(e == m0[p].children[j0]);
                        assert(m0[e].parent == Some(p));
                        assert(e != c);
                    }
                } else {
                    assert(m2[q].children == m0[q].children);
                    assert(m0[e].parent == Some(q));
                    assert(e != c);
                }
            }
            assert forall|q: u64| #[trigger] m2.contains_key(q)
                implies m2[q].children.no_duplicates() by {
                if q != p {
                    assert(m2[q].children == m0[q].children);
                }
            }
            assert(coherent(m2));
            assert(parents_live(m2));
            assert forall|x: u64| x != c implies same_parent_at(m0, m2, x) by {}
            lemma_attach_acyclic(m0, m2, c, p);
            assert(caches_bounded(m2));
            // the parent's chain is untouched by the splice
            lemma_chain_frame(m0, m2, p, m0.dom().len());
            lemma_chain_standard(m2, p, m0.dom().len());
            assert(ancestors(m2, p) == chain0);
        }
        self.mark_dirty_up(p);
        proof {
            let m3 = self@;
            assert forall|x: u64| #[trigger] m3.contains_key(x) implies m3[x] == (if x == p {
                NodeView {
                    children: m0[p].children.insert(index as int, c),
                    dirty: true,
                    ..m0[p]
                }
            } else if x == c {
                NodeView { parent: Some(p), ..m0[c] }
            } else if chain0.contains(x) {
                with_dirty(m0[x])
            } else {
                m0[x]
            }) by {
                if x == c {
                    assert(!chain0.contains(c));
                }
            }
            lemma_mark_upward_attach(m2, m3, p, c);
            assert(m3.dom() =~= m0.dom());
        }
    }

    /// Appends a child to the end of a parent's child list. The parent and
    /// its ancestors are marked dirty. Fails with `NotFound` when either id
    /// is stale or unknown, and with `InvalidHierarchy` when the child
    /// already has a parent, is the parent itself, or is one of the
    /// parent's ancestors.
    pub fn add_child(&mut self, parent: u64, child: u64) -> (r: Result<(), TreeError>)
        requires
            old(self).wf(),
        ensures
            final(self).wf(),
            r is Ok <==> (old(self)@.contains_key(parent) && old(self)@.contains_key(child)
                && old(self)@[child].parent is None && child != parent && !ancestors(
                old(self)@,
                parent,
            ).contains(child)),
            r is Err ==> *final(self) == *old(self),
            r == Result::<(), TreeError>::Err(TreeError::NotFound) <==> (!old(
                self,
            )@.contains_key(parent) || !old(self)@.contains_key(child)),
            r == Result::<(), TreeError>::Err(TreeError::InvalidHierarchy) <==> (old(
                self,
            )@.contains_key(parent) && old(self)@.contains_key(child) && (old(self)@[child].parent
                is Some || child == parent || ancestors(old(self)@, parent).contains(child))),
            r is Ok ==> final(self)@.dom() == old(self)@.dom() && (forall|x: u64| #[trigger]
                final(self)@.contains_key(x) ==> final(self)@[x] == (if x == parent {
                    NodeView {
                        children: old(self)@[parent].children.push(child),
                        dirty: true,
                        ..old(self)@[parent]
                    }
                } else if x == child {
                    NodeView { parent: Some(parent), ..old(self)@[child] }
                } else if ancestors(old(self)@, parent).contains(x) {
                    with_dirty(old(self)@[x])
                } else {
                    old(self)@[x]
                })),
            final(self).rounding_enabled() == old(self).rounding_enabled(),
            final(self).retired_slots() == old(self).retired_slots(),
            final(self).issued_ids() == old(self).issued_ids(),
    {
        let n = match self.child_count(parent) {
            Result::Ok(n) => n,
            Result::Err(e) => {
                return Err(e);
            },
        };
        match self.insert_child_at_index(parent, n, child) {
            Result::Ok(()) => {
                proof {
                    assert(old(self)@[parent].children.insert(
                        old(self)@[parent].children.len() as int,
                        child,
                    ) =~= old(self)@[parent].children.push(child));
                }
                Ok(())
            },
            Result::Err(e) => Err(e),
        }
    }

    /// Inserts a child into a parent's child list at `index`, shifting the
    /// children at and after it. The parent and its ancestors are marked
    /// dirty. Fails with `NotFound` when either id is stale or unknown,
    /// with `IndexOutOfBounds` when `index` exceeds the child count, and
    /// with `InvalidHierarchy` when the child already has a parent, is the
    /// parent itself, or is one of the parent's ancestors.
    pub fn insert_child_at_index(&mut self, parent: u64, index: usize, child: u64) -> (r: Result<
        (),
        TreeError,
    >)
        requires
            old(self).wf(),
        ensures
            final(self).wf(),
            r is Ok <==> (old(self)@.contains_key(parent) && old(self)@.contains_key(child)
                && index <= old(self)@[parent].children.len() && old(self)@[child].parent is None
                && child != parent && !ancestors(old(self)@, parent).contains(child)),
            r is Err ==> *final(self) == *old(self),
            r == Result::<(), TreeError>::Err(TreeError::NotFound) <==> (!old(
                self,
            )@.contains_key(parent) || !old(self)@.contains_key(child)),
            r == Result::<(), TreeError>::Err(TreeError::IndexOutOfBounds) <==> (old(
                self,
            )@.contains_key(parent) && old(self)@.contains_key(child) && index > old(
                self,
            )@[parent].children.len()),
            r == Result::<(), TreeError>::Err(TreeError::InvalidHierarchy) <==> (old(
                self,
            )@.contains_key(parent) && old(self)@.contains_key(child) && index <= old(
                self,
            )@[parent].children.len() && (old(self)@[child].parent is Some || child == parent
                || ancestors(old(self)@, parent).contains(child))),
            r is Ok ==> final(self)@.dom() == old(self)@.dom() && (forall|x: u64| #[trigger]
                final(self)@.contains_key(x) ==> final(self)@[x] == (if x == parent {
                    NodeView {
                        children: old(self)@[parent].children.insert(index as int, child),
                        dirty: true,
                        ..old(self)@[parent]
                    }
                } else if x == child {
                    NodeView { parent: Some(parent), ..old(self)@[child] }
                } else if ancestors(old(self)@, parent).contains(x) {
                    with_dirty(old(self)@[x])
                } else {
                    old(self)@[x]
                })),
            final(self).rounding_enabled() == old(self).rounding_enabled(),
            final(self).retired_slots() == old(self).retired_slots(),
            final(self).issued_ids() == old(self).issued_ids(),
    {
        let np = match self.child_count(parent) {
            Result::Ok(n) => n,
            Result::Err(e) => {
                if !self.live_index(child).is_some() {
                    return Err(TreeError::NotFound);
                }
                return Err(e);
            },
        };
        let cp = match self.parent(child) {
            Result::Ok(cp) => cp,
            Result::Err(e) => {
                return Err(e);
            },
        };
        if index > np {
            return Err(TreeError::IndexOutOfBounds);
        }
        if cp.is_some() {
            return Err(TreeError::InvalidHierarchy);
        }
        if self.is_self_or_ancestor(parent, child) {
            return Err(TreeError::InvalidHierarchy);
        }
        self.attach_inner(parent, index, child);
        Ok(())
    }

    /// Creates a new node with the given style and child list. The
    /// children must be live parentless nodes, each listed once; the new
    /// node starts dirty, parentless and without a cached layout.
    ///
    /// Fails with `NotFound` when a child id is stale or unknown and with
    /// `InvalidHierarchy` when a child already has a parent or repeats in
    /// the list. The arena capacity precondition is as for `new_leaf`.
    pub fn new_with_children(&mut self, style: &Style, children: &Vec<u64>) -> (r: Result<
        u64,
        TreeError,
    >)
        requires
            old(self).wf(),
            old(self)@.dom().len() + old(self).retired_slots() < 0x1_0000_0000,
        ensures
            final(self).wf(),
            r is Ok <==> ((forall|j: int|
                0 <= j < children@.len() ==> old(self)@.contains_key(#[trigger] children@[j]))
                && (forall|j: int|
                0 <= j < children@.len() ==> old(self)@[#[trigger] children@[j]].parent is None)
                && children@.no_duplicates()),
            r == Result::<u64, TreeError>::Err(TreeError::NotFound) <==> (exists|j: int|
                0 <= j < children@.len() && !old(self)@.contains_key(#[trigger] children@[j])),
            r == Result::<u64, TreeError>::Err(TreeError::InvalidHierarchy) <==> ((forall|j: int|
                0 <= j < children@.len() ==> old(self)@.contains_key(#[trigger] children@[j]))
                && ((exists|j: int|
                0 <= j < children@.len() && old(self)@[#[trigger] children@[j]].parent is Some)
                || !children@.no_duplicates())),
            r is Err ==> *final(self) == *old(self),
            r is Ok ==> !old(self)@.contains_key(r->Ok_0) && final(self)@.dom() == old(
                self,
            )@.dom().insert(r->Ok_0) && (forall|x: u64| #[trigger]
                final(self)@.contains_key(x) ==> final(self)@[x] == (if x == r->Ok_0 {
                    NodeView { children: children@, ..fresh_node_view(*style, Option::None) }
                } else if children@.contains(x) {
                    NodeView { parent: Some(r->Ok_0), ..old(self)@[x] }
                } else {
                    old(self)@[x]
                })),
            final(self).rounding_enabled() == old(self).rounding_enabled(),
            final(self).retired_slots() == old(self).retired_slots(),
            r is Ok ==> !old(self).issued_ids().contains(r->Ok_0) && final(self).issued_ids()
                == old(self).issued_ids().insert(r->Ok_0),
            r is Err ==> final(self).issued_ids() == old(self).issued_ids(),
    {
        let ghost m0 = self@;
        // every listed child must be live
        let mut j: usize = 0;
        while j < children.len()
            invariant
                self.wf(),
                *self == *old(self),
                m0 == self@,
                j <= children@.len(),
                forall|t: int| 0 <= t < j ==> m0.contains_key(#[trigger] children@[t]),
            decreases children@.len() - j,
        {
            if self.live_index(children[j]).is_none() {
                return Err(TreeError::NotFound);
            }
            j = j + 1;
        }
        // every listed child must be a root
        let mut j: usize = 0;
        while j < children.len()
            invariant
                self.wf(),
                *self == *old(self),
                m0 == self@,
                j <= children@.len(),
                forall|t: int| 0 <= t < children@.len() ==> m0.contains_key(#[trigger] children@[t]),
                forall|t: int| 0 <= t < j ==> m0[#[trigger] children@[t]].parent is None,
            decreases children@.len() - j,
        {
            match self.parent(children[j]) {
                Result::Ok(p) => {
                    if p.is_some() {
                        return Err(TreeError::InvalidHierarchy);
                    }
                },
                Result::Err(_) => {
                    return Err(TreeError::NotFound);
                },
            }
            j = j + 1;
        }
        // no child may be listed twice
        let mut j: usize = 0;
        while j < children.len()
            invariant
                self.wf(),
                *self == *old(self),
                m0 == self@,
                j <= children@.len(),
                forall|t: int| 0 <= t < children@.len() ==> m0.contains_key(#[trigger] children@[t]),
                forall|t: int|
                    0 <= t < children@.len() ==> m0[#[trigger] children@[t]].parent is None,
                forall|t: int, u: int| 0 <= t < u < j ==> children@[t] != children@[u],
            decreases children@.len() - j,
        {
            let cj = children[j];
            let mut t: usize = 0;
            while t < j
                invariant
                    self.wf(),
                    *self == *old(self),
                    m0 == self@,
                    j < children@.len(),
                    cj == children@[j as int],
                    t <= j,
                    forall|tt: int|
                        0 <= tt < children@.len() ==> m0.contains_key(#[trigger] children@[tt]),
                    forall|tt: int|
                        0 <= tt < children@.len() ==> m0[#[trigger] children@[tt]].parent is None,
                    forall|u: int| 0 <= u < t ==> children@[u] != children@[j as int],
                decreases j - t,
            {
                if children[t] == cj {
                    proof {
                        assert(!children@.no_duplicates());
                    }
                    return Err(TreeError::InvalidHierarchy);
                }
                t = t + 1;
            }
            j = j + 1;
        }
        proof {
            assert(children@.no_duplicates());
        }
        let id = match self.create_node(style, None) {
            Result::Ok(id) => id,
            Result::Err(e) => {
                return Err(e);
            },
        };
        let ghost m_base = self@;
        proof {
            assert(children@.take(0) =~= Seq::<u64>::empty());
        }
        let mut j: usize = 0;
        while j < children.len()
            invariant
                self.wf(),
                m_base == m0.insert(id, fresh_node_view(*style, Option::None)),
                !m0.contains_key(id),
                forall|t: int| 0 <= t < children@.len() ==> m0.contains_key(#[trigger] children@[t]),
                forall|t: int|
                    0 <= t < children@.len() ==> m0[#[trigger] children@[t]].parent is None,
                children@.no_duplicates(),
                j <= children@.len(),
                self@.dom() == m_base.dom(),
                forall|x: u64| #[trigger]
                    self@.contains_key(x) ==> self@[x] == (if x == id {
                        NodeView {
                            children: children@.take(j as int),
                            ..fresh_node_view(*style, Option::None)
                        }
                    } else if children@.take(j as int).contains(x) {
                        NodeView { parent: Some(id), ..m0[x] }
                    } else {
                        m_base[x]
                    }),
                self.rounding_enabled() == old(self).rounding_enabled(),
                self.retired_slots() == old(self).retired_slots(),
                self.issued_ids() == old(self).issued_ids().insert(id),
            decreases children@.len() - j,
        {
            let cj = children[j];
            proof {
                assert(self@.contains_key(id));
                assert(self@.contains_key(cj)) by {
                    assert(m_base.contains_key(cj));
                }
                assert(self@[cj].parent is None) by {
                    if children@.take(j as int).contains(cj) {
                        let t = choose|t: int|
                            0 <= t < j && #[trigger] children@.take(j as int)[t] == cj;
                        assert(children@[t] == children@[j as int]);
                    }
                    assert(m_base[cj] == m0[cj]);
                }
                assert(cj != id);
                assert(ancestors(self@, id) =~= Seq::<u64>::empty()) by {
                    assert(self@[id].parent is None);
                }
                assert(self@[id].children == children@.take(j as int));
            }
            let ghost m_prev = self@;
            self.attach_inner(id, j, cj);
            proof {
                assert forall|x: u64| #[trigger] self@.contains_key(x) implies self@[x] == (
                if x == id {
                    NodeView {
                        children: children@.take(j as int + 1),
                        ..fresh_node_view(*style, Option::None)
                    }
                } else if children@.take(j as int + 1).contains(x) {
                    NodeView { parent: Some(id), ..m0[x] }
                } else {
                    m_base[x]
                }) by {
                    lemma_take_push(children@, j as int, x);
                    if x == id {
                        assert(children@.take(j as int).insert(j as int, cj) =~= children@.take(
                            j as int + 1,
                        ));
                    } else if x == cj {
                        assert(self@[cj] == NodeView { parent: Some(id), ..m_prev[cj] });
                        assert(m_prev[cj] == m0[cj]);
                    }
                }
            }
            j = j + 1;
        }
        proof {
            assert(children@.take(children@.len() as int) =~= children@);
        }
        Ok(id)
    }

}

/// Every live id was issued by this tree: together with creation's
/// freshness guarantee, a freshly created id is distinct from every id
/// that is or ever was live, so a removed id can never be issued again,
/// `clear` aside.
pub proof fn lemma_live_ids_issued(t: &TaffyTree)
    requires
        t.wf(),
    ensures
        forall|id: u64| #[trigger] t@.contains_key(id) ==> t.issued_ids().contains(id),
{
}

/// The arena invariant does not depend on the computation record: two
/// trees with the same slots, free list, count, retirement tally and
/// issue record satisfy it alike.
pub(crate) proof fn lemma_ghost_record_keeps_inv(t1: &TaffyTree, t2: &TaffyTree)
    requires
        t1.slots@ == t2.slots@,
        t1.free@ == t2.free@,
        t1.count == t2.count,
        t1.retired@ == t2.retired@,
        t1.issued@ == t2.issued@,
        t1.inv_repr(),
    ensures
        t2.inv_repr(),
{
    assert forall|id: u64| #[trigger] t2.issued@.contains(id) implies id_index(id)
        < t2.slots@.len() && id_generation(id) <= t2.slots@[id_index(id)].generation && (
    id_generation(id) == t2.slots@[id_index(id)].generation ==> t2.slots@[id_index(id)].node
        is Some || !t2.free@.contains(id_index(id) as usize)) by {
        assert(t1.issued@.contains(id));
    }
    assert forall|id: u64| #[trigger] t2@.contains_key(id) implies t2.issued@.contains(id) by {
        assert(t1@.contains_key(id));
    }
}

/// Raising the flags of a node and of all its ancestors keeps dirtiness
/// closed upward.
pub(crate) proof fn lemma_mark_upward(m1: Map<u64, NodeView>, m2: Map<u64, NodeView>, n: u64)
    requires
        parents_live(m1),
        coherent(m1),
        acyclic(m1),
        m1.dom().finite(),
        dirty_upward_closed(m1),
        caches_bounded(m1),
        m1.contains_key(n),
        m2.dom() == m1.dom(),
        forall|x: u64| #[trigger]
            m2.contains_key(x) ==> m2[x] == (if x == n || ancestors(m1, n).contains(x) {
                with_dirty(m1[x])
            } else {
                m1[x]
            }),
    ensures
        dirty_upward_closed(m2),
        caches_bounded(m2),
{
    let chain = ancestors(m1, n);
    lemma_chain_live(m1, n, m1.dom().len());
    assert forall|c: u64| #[trigger] m2.contains_key(c) && m2[c].dirty && m2[c].parent
        is Some implies m2[m2[c].parent->0].dirty by {
        let p = m2[c].parent->0;
        assert(m1.contains_key(c));
        assert(m2[c].parent == m1[c].parent);
        if m1[c].dirty {
            assert(m1[p].dirty);
        } else {
            // c was marked by the walk, so p is n, on the chain, or past it
            if c == n {
                lemma_child_ancestors(m1, n);
                assert(chain[0] == p);
            } else {
                let i = choose|i: int| 0 <= i < chain.len() && chain[i] == c;
                lemma_chain_standard(m1, n, m1.dom().len());
                lemma_chain_suffix(m1, n, m1.dom().len(), i);
                lemma_child_ancestors(m1, c);
                assert(ancestors(m1, c) == chain.skip(i + 1));
                assert(chain.skip(i + 1)[0] == p);
                assert(chain[i + 1] == p);
            }
        }
    }
}

/// The parent link seen at step `k` of a walk up from `start`.
pub(crate) proof fn lemma_chain_step(m: Map<u64, NodeView>, start: u64, k: int)
    requires
        parents_live(m),
        m.dom().finite(),
        acyclic(m),
        m.contains_key(start),
        0 <= k <= ancestors(m, start).len(),
    ensures
        m.contains_key(
            if k == 0 {
                start
            } else {
                ancestors(m, start)[k - 1]
            },
        ),
        ({
            let cur = if k == 0 {
                start
            } else {
                ancestors(m, start)[k - 1]
            };
            m[cur].parent == (if k == ancestors(m, start).len() {
                Option::<u64>::None
            } else {
                Some(ancestors(m, start)[k])
            })
        }),
{
    let f = m.dom().len();
    let chain = ancestors(m, start);
    lemma_chain_live(m, start, f);
    let cur = if k == 0 {
        start
    } else {
        chain[k - 1]
    };
    if k == 0 {
        if m[start].parent is Some {
            lemma_child_ancestors(m, start);
            assert(chain[0] == m[start].parent->0);
        }
    } else {
        lemma_chain_suffix(m, start, f, k - 1);
        assert(anc_chain(m, cur, f) == Some(chain.skip(k)));
        if m[cur].parent is Some {
            lemma_child_ancestors(m, cur);
            lemma_chain_standard(m, cur, f);
            assert(ancestors(m, cur) == chain.skip(k));
            assert(chain.skip(k).len() > 0);
            assert(chain.skip(k)[0] == chain[k]);
        } else {
            assert(chain.skip(k).len() == 0);
        }
    }
}

/// Marking a node and its ancestors restores upward-closed dirtiness even
/// when one child of the marked node was the only node breaking it.
pub(crate) proof fn lemma_mark_upward_attach(
    m1: Map<u64, NodeView>,
    m2: Map<u64, NodeView>,
    n: u64,
    e: u64,
)
    requires
        parents_live(m1),
        coherent(m1),
        acyclic(m1),
        m1.dom().finite(),
        caches_bounded(m1),
        m1.contains_key(n),
        m1.contains_key(e),
        m1[e].parent == Some(n),
        forall|x: u64| #[trigger]
            m1.contains_key(x) && x != e && m1[x].dirty && m1[x].parent is Some
                ==> m1[m1[x].parent->0].dirty,
        m2.dom() == m1.dom(),
        forall|x: u64| #[trigger]
            m2.contains_key(x) ==> m2[x] == (if x == n || ancestors(m1, n).contains(x) {
                with_dirty(m1[x])
            } else {
                m1[x]
            }),
    ensures
        dirty_upward_closed(m2),
        caches_bounded(m2),
{
    let chain = ancestors(m1, n);
    lemma_chain_live(m1, n, m1.dom().len());
    assert forall|c: u64| #[trigger] m2.contains_key(c) && m2[c].dirty && m2[c].parent
        is Some implies m2[m2[c].parent->0].dirty by {
        let p = m2[c].parent->0;
        assert(m1.contains_key(c));
        assert(m2[c].parent == m1[c].parent);
        if c == e {
            assert(p == n);
            assert(m2[n] == with_dirty(m1[n]));
        } else if m1[c].dirty {
            assert(m1[p].dirty);
        } else {
            if c == n {
                lemma_child_ancestors(m1, n);
                assert(chain[0] == p);
            } else {
                let i = choose|i: int| 0 <= i < chain.len() && chain[i] == c;
                lemma_chain_standard(m1, n, m1.dom().len());
                lemma_chain_suffix(m1, n, m1.dom().len(), i);
                lemma_child_ancestors(m1, c);
                assert(ancestors(m1, c) == chain.skip(i + 1));
                assert(chain.skip(i + 1)[0] == p);
                assert(chain[i + 1] == p);
            }
        }
    }
}

} // verus!
