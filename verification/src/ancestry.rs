//! Ancestor chains over the node map.
//!
//! The chain of a node is the sequence of its strict ancestors, nearest
//! first, obtained by following parent links. A fuel bound makes the
//! definition total; a map is acyclic when every node's chain terminates
//! within the number of live nodes, which rules out any node being its own
//! ancestor.

use vstd::prelude::*;
use crate::node::{coherent, parents_live, NodeView};

verus! {

/// The strict ancestors of `n`, nearest first, or `None` if `fuel` parent
/// steps do not reach a root.
pub open spec fn anc_chain(m: Map<u64, NodeView>, n: u64, fuel: nat) -> Option<Seq<u64>>
    decreases fuel,
{
    if !m.contains_key(n) {
        Some(Seq::empty())
    } else {
        match m[n].parent {
            Option::None => Some(Seq::empty()),
            Option::Some(p) => {
                if fuel == 0 {
                    None
                } else {
                    match anc_chain(m, p, (fuel - 1) as nat) {
                        Option::None => None,
                        Option::Some(s) => Some(seq![p] + s),
                    }
                }
            },
        }
    }
}

/// Every node's parent walk reaches a root within `|dom|` steps.
pub open spec fn acyclic(m: Map<u64, NodeView>) -> bool {
    forall|n: u64| #[trigger] m.contains_key(n) ==> anc_chain(m, n, m.dom().len()) is Some
}

/// The strict ancestors of `n`, nearest first. Meaningful under `acyclic`.
pub open spec fn ancestors(m: Map<u64, NodeView>, n: u64) -> Seq<u64> {
    anc_chain(m, n, m.dom().len())->0
}

/// `x` lies in the subtree rooted at `root`.
pub open spec fn in_subtree(m: Map<u64, NodeView>, x: u64, root: u64) -> bool {
    m.contains_key(x) && (x == root || ancestors(m, x).contains(root))
}

/// The parent link of `x` reads the same in both maps.
pub open spec fn same_parent_at(m1: Map<u64, NodeView>, m2: Map<u64, NodeView>, x: u64) -> bool {
    m1.contains_key(x) == m2.contains_key(x) && (m1.contains_key(x) ==> m1[x].parent
        == m2[x].parent)
}

/// A terminated chain stays the same when given more fuel.
pub proof fn lemma_chain_grow(m: Map<u64, NodeView>, n: u64, f1: nat, f2: nat)
    requires
        f1 <= f2,
        anc_chain(m, n, f1) is Some,
    ensures
        anc_chain(m, n, f2) == anc_chain(m, n, f1),
    decreases f1,
{
    if m.contains_key(n) && m[n].parent is Some {
        lemma_chain_grow(m, m[n].parent->0, (f1 - 1) as nat, (f2 - 1) as nat);
    }
}

/// A terminated chain needs no more fuel than its own length.
pub proof fn lemma_chain_shrink(m: Map<u64, NodeView>, n: u64, f1: nat, f2: nat)
    requires
        anc_chain(m, n, f1) is Some,
        f2 >= anc_chain(m, n, f1)->0.len(),
    ensures
        anc_chain(m, n, f2) == anc_chain(m, n, f1),
    decreases f1,
{
    if m.contains_key(n) && m[n].parent is Some {
        let p = m[n].parent->0;
        let s = anc_chain(m, n, f1)->0;
        let sp = anc_chain(m, p, (f1 - 1) as nat)->0;
        assert(s == seq![p] + sp);
        assert(sp =~= s.skip(1));
        lemma_chain_shrink(m, p, (f1 - 1) as nat, (f2 - 1) as nat);
    }
}

/// Chain elements are live nodes.
pub proof fn lemma_chain_live(m: Map<u64, NodeView>, n: u64, fuel: nat)
    requires
        parents_live(m),
        anc_chain(m, n, fuel) is Some,
    ensures
        forall|i: int|
            0 <= i < anc_chain(m, n, fuel)->0.len() ==> m.contains_key(
                #[trigger] anc_chain(m, n, fuel)->0[i],
            ),
    decreases fuel,
{
    if m.contains_key(n) && m[n].parent is Some {
        let p = m[n].parent->0;
        lemma_chain_live(m, p, (fuel - 1) as nat);
        let s = anc_chain(m, n, fuel)->0;
        let sp = anc_chain(m, p, (fuel - 1) as nat)->0;
        assert(forall|i: int| 1 <= i < s.len() ==> s[i] == sp[i - 1]);
    }
}

/// The chain of the `i`-th ancestor is the rest of the chain.
pub proof fn lemma_chain_suffix(m: Map<u64, NodeView>, n: u64, fuel: nat, i: int)
    requires
        anc_chain(m, n, fuel) is Some,
        0 <= i < anc_chain(m, n, fuel)->0.len(),
    ensures
        anc_chain(m, anc_chain(m, n, fuel)->0[i], fuel) == Some(
            anc_chain(m, n, fuel)->0.skip(i + 1),
        ),
    decreases fuel,
{
    let s = anc_chain(m, n, fuel)->0;
    let p = m[n].parent->0;
    let sp = anc_chain(m, p, (fuel - 1) as nat)->0;
    assert(s == seq![p] + sp);
    if i == 0 {
        lemma_chain_grow(m, p, (fuel - 1) as nat, fuel);
        assert(sp =~= s.skip(1));
    } else {
        lemma_chain_suffix(m, p, (fuel - 1) as nat, i - 1);
        lemma_chain_grow(m, sp[i - 1], (fuel - 1) as nat, fuel);
        assert(sp.skip(i) =~= s.skip(i + 1));
    }
}

/// A terminated chain repeats no node and does not pass through its start.
pub proof fn lemma_chain_distinct(m: Map<u64, NodeView>, n: u64, fuel: nat)
    requires
        anc_chain(m, n, fuel) is Some,
    ensures
        anc_chain(m, n, fuel)->0.no_duplicates(),
        !anc_chain(m, n, fuel)->0.contains(n),
{
    let s = anc_chain(m, n, fuel)->0;
    assert forall|i: int, j: int| 0 <= i < s.len() && 0 <= j < s.len() && i != j implies s[i]
        != s[j] by {
        lemma_chain_suffix(m, n, fuel, i);
        lemma_chain_suffix(m, n, fuel, j);
        if s[i] == s[j] {
            assert(s.skip(i + 1).len() == s.skip(j + 1).len());
        }
    }
    assert forall|i: int| 0 <= i < s.len() implies s[i] != n by {
        lemma_chain_suffix(m, n, fuel, i);
        if s[i] == n {
            assert(s.skip(i + 1).len() == s.len());
        }
    }
    assert(s.no_duplicates());
}

/// A sequence of distinct elements of a finite set is no longer than the set.
pub proof fn lemma_distinct_in_set_len(s: Seq<u64>, d: Set<u64>)
    requires
        s.no_duplicates(),
        d.finite(),
        forall|i: int| 0 <= i < s.len() ==> d.contains(#[trigger] s[i]),
    ensures
        s.len() <= d.len(),
{
    broadcast use vstd::seq_lib::seq_to_set_is_finite;

    s.unique_seq_to_set();
    assert(s.to_set().subset_of(d));
    vstd::set_lib::lemma_len_subset(s.to_set(), d);
}

/// A terminated chain is no longer than the number of live nodes.
pub proof fn lemma_chain_len_bound(m: Map<u64, NodeView>, n: u64, fuel: nat)
    requires
        parents_live(m),
        m.dom().finite(),
        anc_chain(m, n, fuel) is Some,
    ensures
        anc_chain(m, n, fuel)->0.len() <= m.dom().len(),
{
    lemma_chain_live(m, n, fuel);
    lemma_chain_distinct(m, n, fuel);
    lemma_distinct_in_set_len(anc_chain(m, n, fuel)->0, m.dom());
}

/// A chain that terminates at any fuel terminates at the standard fuel.
pub proof fn lemma_chain_standard(m: Map<u64, NodeView>, n: u64, fuel: nat)
    requires
        parents_live(m),
        m.dom().finite(),
        anc_chain(m, n, fuel) is Some,
    ensures
        anc_chain(m, n, m.dom().len()) == anc_chain(m, n, fuel),
        ancestors(m, n) == anc_chain(m, n, fuel)->0,
{
    lemma_chain_len_bound(m, n, fuel);
    lemma_chain_shrink(m, n, fuel, m.dom().len());
}

/// A chain is unchanged by any map change that keeps the parent links along
/// it, and the membership of its nodes, the same.
pub proof fn lemma_chain_frame(
    m1: Map<u64, NodeView>,
    m2: Map<u64, NodeView>,
    n: u64,
    fuel: nat,
)
    requires
        anc_chain(m1, n, fuel) is Some,
        same_parent_at(m1, m2, n),
        forall|i: int|
            0 <= i < anc_chain(m1, n, fuel)->0.len() ==> same_parent_at(
                m1,
                m2,
                #[trigger] anc_chain(m1, n, fuel)->0[i],
            ),
    ensures
        anc_chain(m2, n, fuel) == anc_chain(m1, n, fuel),
    decreases fuel,
{
    if m1.contains_key(n) && m1[n].parent is Some {
        let p = m1[n].parent->0;
        let s = anc_chain(m1, n, fuel)->0;
        let sp = anc_chain(m1, p, (fuel - 1) as nat)->0;
        assert(s == seq![p] + sp);
        assert(s[0] == p);
        assert(forall|i: int| 0 <= i < sp.len() ==> sp[i] == s[i + 1]);
        lemma_chain_frame(m1, m2, p, (fuel - 1) as nat);
    }
}

/// Two maps with the same domain and the same parent links have the same
/// chains everywhere.
pub proof fn lemma_chain_same_parents(
    m1: Map<u64, NodeView>,
    m2: Map<u64, NodeView>,
    n: u64,
    fuel: nat,
)
    requires
        forall|x: u64| same_parent_at(m1, m2, x),
    ensures
        anc_chain(m2, n, fuel) == anc_chain(m1, n, fuel),
    decreases fuel,
{
    assert(same_parent_at(m1, m2, n));
    if m1.contains_key(n) && m1[n].parent is Some && fuel > 0 {
        lemma_chain_same_parents(m1, m2, m1[n].parent->0, (fuel - 1) as nat);
    }
}

/// A change that keeps every parent link keeps acyclicity and all chains.
pub proof fn lemma_acyclic_same_parents(m1: Map<u64, NodeView>, m2: Map<u64, NodeView>)
    requires
        forall|x: u64| same_parent_at(m1, m2, x),
        acyclic(m1),
    ensures
        acyclic(m2),
        forall|n: u64| ancestors(m2, n) == ancestors(m1, n),
{
    assert forall|x: u64| m1.dom().contains(x) == m2.dom().contains(x) by {
        assert(same_parent_at(m1, m2, x));
    }
    assert(m2.dom() =~= m1.dom());
    assert forall|n: u64| anc_chain(m2, n, m2.dom().len()) == anc_chain(
        m1,
        n,
        m1.dom().len(),
    ) by {
        lemma_chain_same_parents(m1, m2, n, m1.dom().len());
    }
}

/// Every node still has a terminating parent walk after a root `c` is given
/// the parent `p`, provided `c` was not on `p`'s own walk.
proof fn lemma_attach_terminates(
    m1: Map<u64, NodeView>,
    m2: Map<u64, NodeView>,
    c: u64,
    p: u64,
    n: u64,
)
    requires
        parents_live(m1),
        parents_live(m2),
        m1.dom().finite(),
        acyclic(m1),
        m2.dom() == m1.dom(),
        forall|x: u64| x != c ==> same_parent_at(m1, m2, x),
        m1.contains_key(c),
        m1[c].parent is None,
        m2.contains_key(c),
        m2[c].parent == Some(p),
        m1.contains_key(p),
        p != c,
        !ancestors(m1, p).contains(c),
    ensures
        anc_chain(m2, n, 2 * m1.dom().len() + 1) is Some,
    decreases (if m1.contains_key(n) {
        ancestors(m1, n).len()
    } else {
        0
    }),
{
    let f1 = m1.dom().len();
    let big = 2 * f1 + 1;
    if !m2.contains_key(n) {
    } else if n == c {
        let sp = ancestors(m1, p);
        lemma_chain_live(m1, p, f1);
        assert forall|i: int| 0 <= i < sp.len() implies same_parent_at(m1, m2, sp[i]) by {
            assert(sp[i] != c);
        }
        lemma_chain_frame(m1, m2, p, f1);
        lemma_chain_grow(m2, p, f1, (big - 1) as nat);
        assert(anc_chain(m2, n, big) == Some(seq![p] + sp));
    } else {
        assert(same_parent_at(m1, m2, n));
        match m1[n].parent {
            Option::None => {},
            Option::Some(q) => {
                let s = ancestors(m1, n);
                let sq0 = anc_chain(m1, q, (f1 - 1) as nat)->0;
                assert(s == seq![q] + sq0);
                lemma_chain_grow(m1, q, (f1 - 1) as nat, f1);
                assert(ancestors(m1, q) == sq0);
                assert(ancestors(m1, q).len() < s.len());
                lemma_attach_terminates(m1, m2, c, p, q);
                lemma_chain_len_bound(m2, q, big);
                assert(m2.dom().len() == f1);
                lemma_chain_shrink(m2, q, big, (big - 1) as nat);
                assert(anc_chain(m2, n, big) is Some);
            },
        }
    }
}

/// Attaching a root `c` under `p` keeps the map acyclic, provided `c` was
/// not `p` itself nor one of `p`'s ancestors.
pub proof fn lemma_attach_acyclic(m1: Map<u64, NodeView>, m2: Map<u64, NodeView>, c: u64, p: u64)
    requires
        parents_live(m1),
        parents_live(m2),
        m1.dom().finite(),
        acyclic(m1),
        m2.dom() == m1.dom(),
        forall|x: u64| x != c ==> same_parent_at(m1, m2, x),
        m1.contains_key(c),
        m1[c].parent is None,
        m2.contains_key(c),
        m2[c].parent == Some(p),
        m1.contains_key(p),
        p != c,
        !ancestors(m1, p).contains(c),
    ensures
        acyclic(m2),
    {
    assert forall|n: u64| #[trigger] m2.contains_key(n) implies anc_chain(
        m2,
        n,
        m2.dom().len(),
    ) is Some by {
        lemma_attach_terminates(m1, m2, c, p, n);
        lemma_chain_standard(m2, n, 2 * m1.dom().len() + 1);
    }
}

/// Every node still has a terminating parent walk after `c`'s parent link is
/// cleared.
proof fn lemma_detach_terminates(
    m1: Map<u64, NodeView>,
    m2: Map<u64, NodeView>,
    c: u64,
    n: u64,
)
    requires
        parents_live(m1),
        parents_live(m2),
        m1.dom().finite(),
        acyclic(m1),
        m2.dom() == m1.dom(),
        forall|x: u64| x != c ==> same_parent_at(m1, m2, x),
        m2.contains_key(c),
        m2[c].parent is None,
    ensures
        anc_chain(m2, n, m1.dom().len() + 1) is Some,
    decreases (if m1.contains_key(n) {
        ancestors(m1, n).len()
    } else {
        0
    }),
{
    let f1 = m1.dom().len();
    let big = f1 + 1;
    if !m2.contains_key(n) {
    } else if n == c {
    } else {
        assert(same_parent_at(m1, m2, n));
        match m1[n].parent {
            Option::None => {},
            Option::Some(q) => {
                if q == c {
                    assert(anc_chain(m2, c, (big - 1) as nat) == Some(Seq::<u64>::empty()));
                    assert(anc_chain(m2, n, big) == Some(seq![c] + Seq::<u64>::empty()));
                } else {
                    let s = ancestors(m1, n);
                    let sq0 = anc_chain(m1, q, (f1 - 1) as nat)->0;
                    assert(s == seq![q] + sq0);
                    lemma_chain_grow(m1, q, (f1 - 1) as nat, f1);
                    assert(ancestors(m1, q).len() < s.len());
                    lemma_detach_terminates(m1, m2, c, q);
                    lemma_chain_len_bound(m2, q, big);
                    lemma_chain_shrink(m2, q, big, (big - 1) as nat);
                    assert(anc_chain(m2, n, big) is Some);
                }
            },
        }
    }
}

/// Clearing one parent link keeps the map acyclic.
pub proof fn lemma_detach_acyclic(m1: Map<u64, NodeView>, m2: Map<u64, NodeView>, c: u64)
    requires
        parents_live(m1),
        parents_live(m2),
        m1.dom().finite(),
        acyclic(m1),
        m2.dom() == m1.dom(),
        forall|x: u64| x != c ==> same_parent_at(m1, m2, x),
        m2.contains_key(c),
        m2[c].parent is None,
    ensures
        acyclic(m2),
    {
    assert forall|n: u64| #[trigger] m2.contains_key(n) implies anc_chain(
        m2,
        n,
        m2.dom().len(),
    ) is Some by {
        lemma_detach_terminates(m1, m2, c, n);
        lemma_chain_standard(m2, n, m1.dom().len() + 1);
    }
}

/// Adding a fresh root node keeps the map acyclic.
pub proof fn lemma_insert_root_acyclic(m1: Map<u64, NodeView>, m2: Map<u64, NodeView>, f: u64)
    requires
        parents_live(m1),
        m1.dom().finite(),
        acyclic(m1),
        !m1.contains_key(f),
        m2.contains_key(f),
        m2[f].parent is None,
        m2.dom() == m1.dom().insert(f),
        forall|x: u64| x != f ==> same_parent_at(m1, m2, x),
    ensures
        acyclic(m2),
        forall|n: u64| n != f ==> ancestors(m2, n) == ancestors(m1, n),
    {
    let f1 = m1.dom().len();
    let f2 = m2.dom().len();
    assert(f2 == f1 + 1);
    assert forall|n: u64| n != f implies anc_chain(m2, n, f2) == anc_chain(m1, n, f1) by {
        if m1.contains_key(n) {
            lemma_chain_live(m1, n, f1);
            let s = ancestors(m1, n);
            assert forall|i: int| 0 <= i < s.len() implies same_parent_at(m1, m2, s[i]) by {
                assert(m1.contains_key(s[i]));
                assert(s[i] != f);
            }
            lemma_chain_frame(m1, m2, n, f1);
            lemma_chain_grow(m2, n, f1, f2);
        } else {
            assert(!m2.contains_key(n));
        }
    }
}

/// No chain passes through a node that nobody records as a parent.
pub proof fn lemma_chain_excludes(m: Map<u64, NodeView>, x: u64, fuel: nat, n: u64)
    requires
        anc_chain(m, x, fuel) is Some,
        forall|y: u64| #[trigger] m.contains_key(y) ==> m[y].parent != Some(n),
    ensures
        !anc_chain(m, x, fuel)->0.contains(n),
    decreases fuel,
{
    if m.contains_key(x) && m[x].parent is Some {
        let q = m[x].parent->0;
        lemma_chain_excludes(m, q, (fuel - 1) as nat, n);
        let s = anc_chain(m, x, fuel)->0;
        let sq = anc_chain(m, q, (fuel - 1) as nat)->0;
        assert(s == seq![q] + sq);
        assert forall|i: int| 0 <= i < s.len() implies s[i] != n by {
            if i > 0 {
                assert(s[i] == sq[i - 1]);
            }
        }
    }
}

/// Deleting a node that is nobody's parent keeps the map acyclic.
pub proof fn lemma_delete_acyclic(m1: Map<u64, NodeView>, m2: Map<u64, NodeView>, n: u64)
    requires
        parents_live(m1),
        parents_live(m2),
        m1.dom().finite(),
        acyclic(m1),
        m1.contains_key(n),
        m2.dom() == m1.dom().remove(n),
        forall|x: u64| x != n ==> same_parent_at(m1, m2, x),
        forall|y: u64| #[trigger] m1.contains_key(y) ==> m1[y].parent != Some(n),
    ensures
        acyclic(m2),
        forall|x: u64| x != n ==> ancestors(m2, x) == ancestors(m1, x),
    {
    let f1 = m1.dom().len();
    assert(m2.dom().len() == f1 - 1);
    assert forall|x: u64| x != n implies anc_chain(m2, x, m2.dom().len()) == anc_chain(
        m1,
        x,
        f1,
    ) by {
        if m1.contains_key(x) {
            let s = ancestors(m1, x);
            lemma_chain_live(m1, x, f1);
            lemma_chain_excludes(m1, x, f1, n);
            assert forall|i: int| 0 <= i < s.len() implies same_parent_at(m1, m2, s[i]) by {
                assert(s[i] != n);
            }
            lemma_chain_frame(m1, m2, x, f1);
            lemma_chain_len_bound(m2, x, f1);
            lemma_chain_shrink(m2, x, f1, m2.dom().len());
        } else {
            assert(!m2.contains_key(x));
        }
    }
}

/// A node whose parent is `p` never sits on `p`'s own ancestor chain.
pub proof fn lemma_child_not_ancestor(m: Map<u64, NodeView>, p: u64, c: u64)
    requires
        parents_live(m),
        m.dom().finite(),
        acyclic(m),
        m.contains_key(c),
        m[c].parent == Some(p),
        m.contains_key(p),
    ensures
        !ancestors(m, p).contains(c),
        c != p,
{
    let f = m.dom().len();
    lemma_child_ancestors(m, c);
    if c == p {
        lemma_chain_standard(m, c, f);
        lemma_chain_distinct(m, c, f);
        assert(ancestors(m, c)[0] == c);
    }
    if ancestors(m, p).contains(c) {
        let i = choose|i: int| 0 <= i < ancestors(m, p).len() && #[trigger] ancestors(m, p)[i]
            == c;
        lemma_chain_suffix(m, p, f, i);
        lemma_chain_standard(m, c, f);
        assert(ancestors(m, c) == ancestors(m, p).skip(i + 1));
        assert(ancestors(m, c).len() == ancestors(m, p).len() + 1);
    }
}

/// Liveness of parents, coherence, acyclicity and all ancestor chains carry
/// over to any map with the same nodes and links.
pub proof fn lemma_structure_predicates(m1: Map<u64, NodeView>, m2: Map<u64, NodeView>)
    requires
        crate::node::same_structure(m1, m2),
        parents_live(m1),
        crate::node::coherent(m1),
        acyclic(m1),
    ensures
        parents_live(m2),
        crate::node::coherent(m2),
        acyclic(m2),
        forall|n: u64| ancestors(m2, n) == ancestors(m1, n),
{
    assert forall|x: u64| same_parent_at(m1, m2, x) by {
        assert(m1.contains_key(x) == m1.dom().contains(x));
    }
    lemma_acyclic_same_parents(m1, m2);
}

/// Everything in a child's subtree is in the parent's subtree, and the
/// child is too.
pub proof fn lemma_subtree_child(m: Map<u64, NodeView>, x: u64, c: u64)
    requires
        parents_live(m),
        m.dom().finite(),
        acyclic(m),
        m.contains_key(c),
        m[c].parent == Some(x),
        m.contains_key(x),
    ensures
        in_subtree(m, c, x),
        forall|y: u64| #[trigger] in_subtree(m, y, c) ==> in_subtree(m, y, x),
        !in_subtree(m, x, c),
{
    let f = m.dom().len();
    lemma_child_ancestors(m, c);
    assert(ancestors(m, c)[0] == x);
    assert forall|y: u64| #[trigger] in_subtree(m, y, c) implies in_subtree(m, y, x) by {
        if y != c {
            let j = choose|j: int| 0 <= j < ancestors(m, y).len() && #[trigger] ancestors(m, y)[j]
                == c;
            lemma_chain_suffix(m, y, f, j);
            lemma_chain_standard(m, c, f);
            assert(ancestors(m, c) == ancestors(m, y).skip(j + 1));
            assert(ancestors(m, y).skip(j + 1)[0] == x);
            assert(ancestors(m, y)[j + 1] == x);
        }
    }
    lemma_child_not_ancestor(m, x, c);
    if in_subtree(m, x, c) {
        assert(x != c);
        let j = choose|j: int| 0 <= j < ancestors(m, x).len() && #[trigger] ancestors(m, x)[j]
            == c;
        lemma_chain_suffix(m, x, f, j);
        lemma_chain_standard(m, c, f);
        assert(ancestors(m, c) == ancestors(m, x).skip(j + 1));
        assert(ancestors(m, c).len() == ancestors(m, x).len() + 1);
    }
}

/// A strict member of a subtree lies in the subtree of one of the root's
/// children.
pub proof fn lemma_subtree_step(m: Map<u64, NodeView>, y: u64, x: u64) -> (c: u64)
    requires
        parents_live(m),
        coherent(m),
        m.dom().finite(),
        acyclic(m),
        in_subtree(m, y, x),
        y != x,
    ensures
        m.contains_key(x),
        m[x].children.contains(c),
        in_subtree(m, y, c),
{
    let f = m.dom().len();
    let chain = ancestors(m, y);
    let i = choose|i: int| 0 <= i < chain.len() && #[trigger] chain[i] == x;
    lemma_chain_live(m, y, f);
    if i == 0 {
        lemma_child_ancestors(m, y);
        assert(m[y].parent == Some(x));
        assert(m[x].children.contains(y));
        y
    } else {
        let c = chain[i - 1];
        lemma_chain_suffix(m, y, f, i - 1);
        lemma_chain_standard(m, c, f);
        lemma_child_ancestors(m, c);
        assert(ancestors(m, c) == chain.skip(i));
        assert(ancestors(m, c)[0] == chain[i]);
        assert(m[c].parent == Some(x));
        assert(m[x].children.contains(c));
        assert(in_subtree(m, y, c));
        c
    }
}

/// The subtrees of two distinct children of one node share nothing.
pub proof fn lemma_sibling_disjoint(m: Map<u64, NodeView>, x: u64, c1: u64, c2: u64, y: u64)
    requires
        parents_live(m),
        m.dom().finite(),
        acyclic(m),
        m.contains_key(c1),
        m.contains_key(c2),
        m[c1].parent == Some(x),
        m[c2].parent == Some(x),
        m.contains_key(x),
        c1 != c2,
        in_subtree(m, y, c1),
    ensures
        !in_subtree(m, y, c2),
{
    let f = m.dom().len();
    lemma_child_ancestors(m, c1);
    lemma_child_ancestors(m, c2);
    lemma_child_not_ancestor(m, x, c1);
    lemma_child_not_ancestor(m, x, c2);
    if in_subtree(m, y, c2) {
        if y == c1 {
            // c2 would be an ancestor of c1, but c1's chain is x's chain
            let j = choose|j: int|
                0 <= j < ancestors(m, c1).len() && #[trigger] ancestors(m, c1)[j] == c2;
            assert(ancestors(m, c1) == seq![x] + ancestors(m, x));
            if j == 0 {
            } else {
                assert(ancestors(m, c1)[j] == ancestors(m, x)[j - 1]);
                assert(ancestors(m, x).contains(c2));
            }
        } else if y == c2 {
            let j = choose|j: int|
                0 <= j < ancestors(m, c2).len() && #[trigger] ancestors(m, c2)[j] == c1;
            assert(ancestors(m, c2) == seq![x] + ancestors(m, x));
            if j == 0 {
            } else {
                assert(ancestors(m, c2)[j] == ancestors(m, x)[j - 1]);
                assert(ancestors(m, x).contains(c1));
            }
        } else {
            let chain = ancestors(m, y);
            let i1 = choose|i: int| 0 <= i < chain.len() && #[trigger] chain[i] == c1;
            let i2 = choose|i: int| 0 <= i < chain.len() && #[trigger] chain[i] == c2;
            lemma_chain_distinct(m, y, f);
            assert(i1 != i2);
            if i1 < i2 {
                lemma_chain_suffix(m, y, f, i1);
                lemma_chain_standard(m, c1, f);
                assert(ancestors(m, c1) == chain.skip(i1 + 1));
                assert(chain[i2] == chain.skip(i1 + 1)[i2 - i1 - 1]);
                assert(ancestors(m, c1).contains(c2));
                assert(ancestors(m, c1) == seq![x] + ancestors(m, x));
                let j = choose|j: int|
                    0 <= j < ancestors(m, c1).len() && #[trigger] ancestors(m, c1)[j] == c2;
                if j == 0 {
                } else {
                    assert(ancestors(m, c1)[j] == ancestors(m, x)[j - 1]);
                    assert(ancestors(m, x).contains(c2));
                }
            } else {
                lemma_chain_suffix(m, y, f, i2);
                lemma_chain_standard(m, c2, f);
                assert(ancestors(m, c2) == chain.skip(i2 + 1));
                assert(chain[i1] == chain.skip(i2 + 1)[i1 - i2 - 1]);
                assert(ancestors(m, c2).contains(c1));
                assert(ancestors(m, c2) == seq![x] + ancestors(m, x));
                let j = choose|j: int|
                    0 <= j < ancestors(m, c2).len() && #[trigger] ancestors(m, c2)[j] == c1;
                if j == 0 {
                } else {
                    assert(ancestors(m, c2)[j] == ancestors(m, x)[j - 1]);
                    assert(ancestors(m, x).contains(c1));
                }
            }
        }
    }
}

/// Membership of a subtree implies the root is live.
pub proof fn lemma_subtree_root_live(m: Map<u64, NodeView>, y: u64, x: u64)
    requires
        parents_live(m),
        m.dom().finite(),
        acyclic(m),
        in_subtree(m, y, x),
    ensures
        m.contains_key(x),
{
    if y != x {
        lemma_chain_live(m, y, m.dom().len());
    }
}

/// The chain of a child is its parent followed by the parent's chain.
pub proof fn lemma_child_ancestors(m: Map<u64, NodeView>, c: u64)
    requires
        parents_live(m),
        m.dom().finite(),
        acyclic(m),
        m.contains_key(c),
        m[c].parent is Some,
    ensures
        ancestors(m, c) == seq![m[c].parent->0] + ancestors(m, m[c].parent->0),
        ancestors(m, c).len() == ancestors(m, m[c].parent->0).len() + 1,
        ancestors(m, c).len() <= m.dom().len(),
{
    let f = m.dom().len();
    let p = m[c].parent->0;
    let s = ancestors(m, c);
    lemma_chain_len_bound(m, c, f);
    let sp0 = anc_chain(m, p, (f - 1) as nat)->0;
    assert(s == seq![p] + sp0);
    lemma_chain_grow(m, p, (f - 1) as nat, f);
}

} // verus!
