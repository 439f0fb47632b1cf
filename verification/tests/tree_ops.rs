//! Tree construction, mutation and error behaviour.

use layout_tree::error::TreeError;
use layout_tree::style::Style;
use layout_tree::tree::TaffyTree;

#[test]
fn new_tree_is_empty() {
    let tree = TaffyTree::new();
    assert_eq!(tree.total_node_count(), 0);
    let tree2 = TaffyTree::with_capacity(16);
    assert_eq!(tree2.total_node_count(), 0);
}

#[test]
fn new_leaf_starts_dirty_and_parentless() {
    let mut tree = TaffyTree::new();
    let style = Style::new();
    let a = tree.new_leaf(&style).unwrap();
    assert_eq!(tree.total_node_count(), 1);
    assert_eq!(tree.dirty(a), Ok(true));
    assert_eq!(tree.parent(a), Ok(None));
    assert_eq!(tree.child_count(a), Ok(0));
    assert_eq!(tree.style(a), Ok(style));
}

#[test]
fn add_child_links_both_ways() {
    let mut tree = TaffyTree::new();
    let style = Style::new();
    let p = tree.new_leaf(&style).unwrap();
    let c = tree.new_leaf(&style).unwrap();
    tree.add_child(p, c).unwrap();
    assert_eq!(tree.parent(c), Ok(Some(p)));
    assert_eq!(tree.children(p).unwrap(), vec![c]);
    assert_eq!(tree.child_count(p), Ok(1));
    assert_eq!(tree.child_at_index(p, 0), Ok(c));
}

#[test]
fn add_child_rejects_cycles_and_double_parents() {
    let mut tree = TaffyTree::new();
    let style = Style::new();
    let a = tree.new_leaf(&style).unwrap();
    let b = tree.new_leaf(&style).unwrap();
    let c = tree.new_leaf(&style).unwrap();
    tree.add_child(a, b).unwrap();
    tree.add_child(b, c).unwrap();
    // a node may not become its own child nor a descendant of itself
    assert_eq!(tree.add_child(a, a), Err(TreeError::InvalidHierarchy));
    assert_eq!(tree.add_child(c, a), Err(TreeError::InvalidHierarchy));
    assert_eq!(tree.add_child(b, a), Err(TreeError::InvalidHierarchy));
    // a node with a parent must be detached before it is attached again
    let d = tree.new_leaf(&style).unwrap();
    let detached = tree.remove_child(a, b).unwrap();
    tree.add_child(d, detached).unwrap();
    assert_eq!(tree.parent(b), Ok(Some(d)));
}

#[test]
fn insert_and_replace_keep_order() {
    let mut tree = TaffyTree::new();
    let style = Style::new();
    let p = tree.new_leaf(&style).unwrap();
    let a = tree.new_leaf(&style).unwrap();
    let b = tree.new_leaf(&style).unwrap();
    let c = tree.new_leaf(&style).unwrap();
    tree.add_child(p, a).unwrap();
    tree.add_child(p, c).unwrap();
    tree.insert_child_at_index(p, 1, b).unwrap();
    assert_eq!(tree.children(p).unwrap(), vec![a, b, c]);
    assert_eq!(
        tree.insert_child_at_index(p, 7, b),
        Err(TreeError::IndexOutOfBounds)
    );
    let d = tree.new_leaf(&style).unwrap();
    let out = tree.replace_child_at_index(p, 1, d).unwrap();
    assert_eq!(out, b);
    assert_eq!(tree.children(p).unwrap(), vec![a, d, c]);
    assert_eq!(tree.parent(b), Ok(None));
    assert_eq!(tree.parent(d), Ok(Some(p)));
}

#[test]
fn remove_child_detaches_but_keeps_node() {
    let mut tree = TaffyTree::new();
    let style = Style::new();
    let p = tree.new_leaf(&style).unwrap();
    let a = tree.new_leaf(&style).unwrap();
    tree.add_child(p, a).unwrap();
    assert_eq!(tree.remove_child(p, a), Ok(a));
    assert_eq!(tree.parent(a), Ok(None));
    assert_eq!(tree.child_count(p), Ok(0));
    assert_eq!(tree.style(a), Ok(style));
    assert_eq!(tree.remove_child(p, a), Err(TreeError::InvalidHierarchy));
}

#[test]
fn remove_child_at_index_checks_bounds() {
    let mut tree = TaffyTree::new();
    let style = Style::new();
    let p = tree.new_leaf(&style).unwrap();
    let a = tree.new_leaf(&style).unwrap();
    tree.add_child(p, a).unwrap();
    assert_eq!(
        tree.remove_child_at_index(p, 1),
        Err(TreeError::IndexOutOfBounds)
    );
    assert_eq!(tree.remove_child_at_index(p, 0), Ok(a));
}

#[test]
fn remove_children_range_detaches_middle() {
    let mut tree = TaffyTree::new();
    let style = Style::new();
    let p = tree.new_leaf(&style).unwrap();
    let mut ids = Vec::new();
    for _ in 0..5 {
        let c = tree.new_leaf(&style).unwrap();
        tree.add_child(p, c).unwrap();
        ids.push(c);
    }
    tree.remove_children_range(p, 1, 4).unwrap();
    assert_eq!(tree.children(p).unwrap(), vec![ids[0], ids[4]]);
    assert_eq!(tree.parent(ids[2]), Ok(None));
    assert_eq!(
        tree.remove_children_range(p, 2, 1),
        Err(TreeError::IndexOutOfBounds)
    );
}

#[test]
fn set_children_reorders_and_detaches() {
    let mut tree = TaffyTree::new();
    let style = Style::new();
    let p = tree.new_leaf(&style).unwrap();
    let a = tree.new_leaf(&style).unwrap();
    let b = tree.new_leaf(&style).unwrap();
    let c = tree.new_leaf(&style).unwrap();
    tree.add_child(p, a).unwrap();
    tree.add_child(p, b).unwrap();
    // reorder the existing children and bring in a new one
    tree.set_children(p, &vec![c, b, a]).unwrap();
    assert_eq!(tree.children(p).unwrap(), vec![c, b, a]);
    // drop all but one: the others become roots
    tree.set_children(p, &vec![b]).unwrap();
    assert_eq!(tree.children(p).unwrap(), vec![b]);
    assert_eq!(tree.parent(a), Ok(None));
    assert_eq!(tree.parent(c), Ok(None));
    // duplicates are rejected
    assert_eq!(
        tree.set_children(p, &vec![a, a]),
        Err(TreeError::InvalidHierarchy)
    );
}

#[test]
fn new_with_children_validates_list() {
    let mut tree = TaffyTree::new();
    let style = Style::new();
    let a = tree.new_leaf(&style).unwrap();
    let b = tree.new_leaf(&style).unwrap();
    let p = tree.new_with_children(&style, &vec![a, b]).unwrap();
    assert_eq!(tree.children(p).unwrap(), vec![a, b]);
    assert_eq!(tree.parent(a), Ok(Some(p)));
    assert_eq!(tree.parent(b), Ok(Some(p)));
    // an already-parented child is refused
    assert_eq!(
        tree.new_with_children(&style, &vec![a]),
        Err(TreeError::InvalidHierarchy)
    );
    // a stale id is refused
    let dead = tree.new_leaf(&style).unwrap();
    tree.remove(dead).unwrap();
    assert_eq!(
        tree.new_with_children(&style, &vec![dead]),
        Err(TreeError::NotFound)
    );
}

#[test]
fn removing_invalidates_id_but_keeps_children() {
    let mut tree = TaffyTree::new();
    let style = Style::new();
    let a = tree.new_leaf(&style).unwrap();
    let b = tree.new_leaf(&style).unwrap();
    let p = tree.new_with_children(&style, &vec![a, b]).unwrap();
    assert_eq!(tree.remove(p), Ok(p));
    // the removed id fails every further operation
    assert_eq!(tree.style(p), Err(TreeError::NotFound));
    assert_eq!(tree.dirty(p), Err(TreeError::NotFound));
    assert_eq!(tree.parent(p), Err(TreeError::NotFound));
    assert_eq!(tree.children(p), Err(TreeError::NotFound));
    assert_eq!(tree.mark_dirty(p), Err(TreeError::NotFound));
    assert_eq!(tree.remove(p), Err(TreeError::NotFound));
    // its former children live on as parentless roots
    assert_eq!(tree.parent(a), Ok(None));
    assert_eq!(tree.parent(b), Ok(None));
    assert_eq!(tree.style(a), Ok(style));
    // a slot may be reused, but never under the old id
    let fresh = tree.new_leaf(&style).unwrap();
    assert_ne!(fresh, p);
    assert_eq!(tree.style(p), Err(TreeError::NotFound));
}

#[test]
fn mark_dirty_walks_to_the_root() {
    let mut tree = TaffyTree::new();
    let style = Style::new();
    let leaf = tree.new_leaf(&style).unwrap();
    let mid = tree.new_with_children(&style, &vec![leaf]).unwrap();
    let root = tree.new_with_children(&style, &vec![mid]).unwrap();
    let sibling = tree.new_leaf(&style).unwrap();
    tree.add_child(root, sibling).unwrap();
    // a fresh tree is entirely dirty; a layout run would clean it, but
    // the flags can also be inspected directly
    assert_eq!(tree.dirty(leaf), Ok(true));
    assert_eq!(tree.dirty(mid), Ok(true));
    assert_eq!(tree.dirty(root), Ok(true));
    assert_eq!(tree.mark_dirty(leaf), Ok(()));
    assert_eq!(tree.dirty(root), Ok(true));
}

#[test]
fn context_words_are_kept_per_node() {
    let mut tree = TaffyTree::new();
    let style = Style::new();
    let a = tree.new_leaf_with_context(&style, 7).unwrap();
    let b = tree.new_leaf(&style).unwrap();
    assert_eq!(tree.get_node_context(a), Ok(Some(7)));
    assert_eq!(tree.get_node_context(b), Ok(None));
    tree.set_node_context(b, Some(9)).unwrap();
    assert_eq!(tree.get_node_context_mut(b), Ok(Some(9)));
    tree.set_node_context(a, None).unwrap();
    assert_eq!(tree.get_node_context(a), Ok(None));
    let all = tree
        .get_disjoint_node_context_mut(&vec![a, b, 0xdead_beef])
        .unwrap();
    assert_eq!(all, vec![None, Some(9), None]);
}

#[test]
fn clear_empties_the_tree() {
    let mut tree = TaffyTree::new();
    let style = Style::new();
    let a = tree.new_leaf(&style).unwrap();
    tree.clear();
    assert_eq!(tree.total_node_count(), 0);
    assert_eq!(tree.style(a), Err(TreeError::NotFound));
}
