use script_layout_interface::{NodeFlag, NodeFlags, NodeTree};

fn clear_all(tree: &mut NodeTree) {
    let mut n = tree.len();
    while n > 0 {
        n -= 1;
        tree.clear_after_reflow(n);
    }
}

fn propagated(tree: &NodeTree) -> bool {
    for n in 0..tree.len() {
        if tree.flags(n).needs_work() {
            let mut up = tree.parent(n);
            while let Some(a) = up {
                if !tree.flags(a).test(NodeFlag::HasDirtyDescendants) {
                    return false;
                }
                up = tree.parent(a);
            }
        }
    }
    true
}

fn chain(depth: usize) -> NodeTree {
    let mut tree = NodeTree::new();
    let mut last = tree.add_root();
    for _ in 1..depth {
        last = tree.append_child(last);
    }
    clear_all(&mut tree);
    tree
}

#[test]
fn a_new_forest_is_empty() {
    let tree = NodeTree::new();
    assert_eq!(tree.len(), 0);
}

#[test]
fn nodes_are_numbered_as_they_are_added() {
    let mut tree = NodeTree::new();
    let root = tree.add_root();
    let child = tree.append_child(root);
    let other = tree.append_child(root);
    let grandchild = tree.append_child(child);
    let second_root = tree.add_root();
    assert_eq!((root, child, other, grandchild, second_root), (0, 1, 2, 3, 4));
    assert_eq!(tree.len(), 5);
    assert_eq!(tree.parent(root), None);
    assert_eq!(tree.parent(child), Some(root));
    assert_eq!(tree.parent(other), Some(root));
    assert_eq!(tree.parent(grandchild), Some(child));
    assert_eq!(tree.parent(second_root), None);
}

#[test]
fn a_new_node_carries_the_three_layout_flags() {
    let mut tree = NodeTree::new();
    let root = tree.add_root();
    let child = tree.append_child(root);
    assert_eq!(tree.flags(root), NodeFlags::new());
    assert_eq!(tree.flags(child), NodeFlags::new());
}

#[test]
fn round_trip_over_three_levels() {
    let mut tree = chain(3);
    let (root, child, grandchild) = (0, 1, 2);
    for n in 0..3 {
        assert_eq!(tree.flags(n), NodeFlags::empty());
    }
    let steps = tree.mark_dirty_and_propagate(grandchild);
    assert_eq!(steps, 2);
    assert!(tree.flags(child).test(NodeFlag::HasDirtyDescendants));
    assert!(tree.flags(root).test(NodeFlag::HasDirtyDescendants));
    assert!(tree.flags(grandchild).test(NodeFlag::IsDirty));
    assert_eq!(tree.flags(grandchild).bits(), 0x04);
    assert_eq!(tree.flags(child).bits(), 0x08);
    assert_eq!(tree.flags(root).bits(), 0x08);
    assert!(propagated(&tree));
    tree.clear_after_reflow(grandchild);
    tree.clear_after_reflow(child);
    tree.clear_after_reflow(root);
    for n in [root, child, grandchild] {
        assert!(!tree.flags(n).test(NodeFlag::IsDirty));
        assert!(!tree.flags(n).test(NodeFlag::HasChanged));
        assert!(!tree.flags(n).test(NodeFlag::HasDirtyDescendants));
    }
}

#[test]
fn marking_changed_sets_changed_and_propagates() {
    let mut tree = chain(3);
    let steps = tree.mark_changed_and_propagate(2);
    assert_eq!(steps, 2);
    assert_eq!(tree.flags(2).bits(), 0x02);
    assert_eq!(tree.flags(1).bits(), 0x08);
    assert_eq!(tree.flags(0).bits(), 0x08);
    assert!(propagated(&tree));
}

#[test]
fn the_walk_stops_at_a_flagged_parent() {
    let mut tree = NodeTree::new();
    let root = tree.add_root();
    let child = tree.append_child(root);
    let first = tree.append_child(child);
    let second = tree.append_child(child);
    clear_all(&mut tree);
    assert_eq!(tree.mark_dirty_and_propagate(first), 2);
    let before: Vec<NodeFlags> = (0..tree.len()).map(|n| tree.flags(n)).collect();
    assert_eq!(tree.mark_dirty_and_propagate(second), 0);
    for n in [root, child, first] {
        assert_eq!(tree.flags(n), before[n]);
    }
    assert_eq!(tree.flags(second).bits(), 0x04);
    assert!(propagated(&tree));
}

#[test]
fn the_walk_stops_before_the_first_flagged_ancestor() {
    let mut tree = chain(5);
    assert_eq!(tree.mark_dirty_and_propagate(2), 2);
    assert_eq!(tree.flags(2).bits(), 0x04);
    assert_eq!(tree.mark_dirty_and_propagate(4), 2);
    assert_eq!(tree.flags(4).bits(), 0x04);
    assert_eq!(tree.flags(3).bits(), 0x08);
    assert_eq!(tree.flags(2).bits(), 0x0c);
    assert_eq!(tree.flags(1).bits(), 0x08);
    assert_eq!(tree.flags(0).bits(), 0x08);
    assert!(propagated(&tree));
}

#[test]
fn marking_a_dirty_node_again_changes_nothing() {
    let mut tree = chain(4);
    assert_eq!(tree.mark_dirty_and_propagate(3), 3);
    let before: Vec<NodeFlags> = (0..tree.len()).map(|n| tree.flags(n)).collect();
    assert_eq!(tree.mark_dirty_and_propagate(3), 0);
    let after: Vec<NodeFlags> = (0..tree.len()).map(|n| tree.flags(n)).collect();
    assert_eq!(before, after);
}

#[test]
fn marking_a_root_flags_nothing_else() {
    let mut tree = chain(2);
    assert_eq!(tree.mark_dirty_and_propagate(0), 0);
    assert_eq!(tree.flags(0).bits(), 0x04);
    assert_eq!(tree.flags(1).bits(), 0);
}

#[test]
fn a_detached_subtree_propagates_within_itself() {
    let mut tree = NodeTree::new();
    let document = tree.add_root();
    let attached = tree.append_child(document);
    let detached = tree.add_root();
    let inner = tree.append_child(detached);
    clear_all(&mut tree);
    tree.set_flag(document, NodeFlag::IsInDoc);
    tree.set_flag(attached, NodeFlag::IsInDoc);
    assert_eq!(tree.mark_dirty_and_propagate(inner), 1);
    assert_eq!(tree.flags(inner).bits(), 0x04);
    assert_eq!(tree.flags(detached).bits(), 0x08);
    assert_eq!(tree.flags(document).bits(), 0x01);
    assert_eq!(tree.flags(attached).bits(), 0x01);
}

#[test]
fn a_new_child_flags_its_ancestors() {
    let mut tree = chain(3);
    let added = tree.append_child(2);
    assert_eq!(added, 3);
    assert_eq!(tree.flags(added), NodeFlags::new());
    assert_eq!(tree.flags(2).bits(), 0x08);
    assert_eq!(tree.flags(1).bits(), 0x08);
    assert_eq!(tree.flags(0).bits(), 0x08);
    assert!(propagated(&tree));
}

#[test]
fn a_new_child_under_a_flagged_parent_flags_no_one() {
    let mut tree = chain(3);
    tree.set_flag(2, NodeFlag::HasDirtyDescendants);
    let added = tree.append_child(2);
    assert_eq!(tree.flags(added), NodeFlags::new());
    assert_eq!(tree.flags(2).bits(), 0x08);
    assert_eq!(tree.flags(1).bits(), 0);
    assert_eq!(tree.flags(0).bits(), 0);
}

#[test]
fn flag_ancestors_leaves_the_node_itself() {
    let mut tree = chain(3);
    assert_eq!(tree.flag_ancestors(2), 2);
    assert_eq!(tree.flags(2).bits(), 0);
    assert_eq!(tree.flags(1).bits(), 0x08);
    assert_eq!(tree.flags(0).bits(), 0x08);
    assert_eq!(tree.flag_ancestors(2), 0);
}

#[test]
fn clear_after_reflow_in_the_tree_keeps_the_other_flags() {
    let mut tree = NodeTree::new();
    let root = tree.add_root();
    let child = tree.append_child(root);
    tree.set_flag(child, NodeFlag::IsInDoc);
    tree.set_flag(child, NodeFlag::CanBeFragmented);
    tree.clear_after_reflow(child);
    assert_eq!(tree.flags(child).bits(), 0x41);
    assert_eq!(tree.flags(root), NodeFlags::new());
    tree.clear_after_reflow(child);
    assert_eq!(tree.flags(child).bits(), 0x41);
    assert_eq!(tree.flags(root), NodeFlags::new());
}

#[test]
fn set_flag_and_clear_flag_touch_one_node() {
    let mut tree = chain(3);
    tree.set_flag(1, NodeFlag::SequentiallyFocusable);
    tree.set_flag(1, NodeFlag::ClickInProgress);
    assert_eq!(tree.flags(1).bits(), 0x30);
    assert_eq!(tree.flags(0).bits(), 0);
    assert_eq!(tree.flags(2).bits(), 0);
    tree.clear_flag(1, NodeFlag::ClickInProgress);
    assert_eq!(tree.flags(1).bits(), 0x20);
    assert_eq!(tree.parent(2), Some(1));
}

#[test]
fn the_marking_holds_through_a_mixed_history() {
    let mut tree = NodeTree::new();
    let root = tree.add_root();
    let a = tree.append_child(root);
    let b = tree.append_child(root);
    let a1 = tree.append_child(a);
    let a2 = tree.append_child(a);
    let b1 = tree.append_child(b);
    assert!(propagated(&tree));
    clear_all(&mut tree);
    assert!(propagated(&tree));
    tree.mark_changed_and_propagate(a2);
    assert!(propagated(&tree));
    tree.mark_dirty_and_propagate(b1);
    assert!(propagated(&tree));
    tree.clear_after_reflow(a1);
    tree.clear_after_reflow(a2);
    tree.clear_after_reflow(a);
    assert!(propagated(&tree));
    assert!(tree.flags(b).test(NodeFlag::HasDirtyDescendants));
    assert!(tree.flags(root).test(NodeFlag::HasDirtyDescendants));
    let deep = tree.append_child(a1);
    assert!(propagated(&tree));
    assert!(tree.flags(a1).test(NodeFlag::HasDirtyDescendants));
    assert!(tree.flags(a).test(NodeFlag::HasDirtyDescendants));
    assert_eq!(tree.flags(deep), NodeFlags::new());
}
