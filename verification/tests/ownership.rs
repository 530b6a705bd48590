use a_ntree::Forest;
use a_ntree::Node;
use a_ntree::RawNode;

#[test]
fn a_new_record_has_one_holder() {
    let mut forest = Forest::new();
    let root = Node::new(&mut forest, 10);
    assert_eq!(root.rc_count(&forest), 1);
}

#[test]
fn every_handle_is_a_holder() {
    let mut forest = Forest::new();
    let root = Node::new(&mut forest, 10);
    let child = Node::new(&mut forest, 20);
    assert!(root.add_child(&mut forest, &child));
    let up = child.parent(&mut forest).unwrap();
    assert_eq!(root.rc_count(&forest), 2);
    let kids = root.children(&mut forest);
    assert_eq!(child.rc_count(&forest), 3);
    let found = root.find(&mut forest, &20).unwrap();
    assert_eq!(child.rc_count(&forest), 4);
    found.release(&mut forest);
    for kid in kids {
        kid.release(&mut forest);
    }
    assert_eq!(child.rc_count(&forest), 2);
    up.release(&mut forest);
    assert_eq!(root.rc_count(&forest), 1);
}

#[test]
fn an_attached_leaf_is_held_by_its_parent_only() {
    let mut forest = Forest::new();
    let root = Node::new(&mut forest, 10);
    assert!(root.add_leaf(&mut forest, 20));
    let leaf = root.find(&mut forest, &20).unwrap();
    assert_eq!(leaf.rc_count(&forest), 2);
    let id = leaf.id();
    leaf.release(&mut forest);
    assert!(forest.contains(id));
    assert_eq!(forest.record(id).holders(), 1);
}

#[test]
fn the_last_release_frees_the_record() {
    let mut forest = Forest::new();
    let node = Node::new(&mut forest, 10);
    let id = node.id();
    assert!(forest.contains(id));
    node.release(&mut forest);
    assert!(!forest.contains(id));
}

#[test]
fn a_rejected_leaf_leaves_no_record() {
    let mut forest = Forest::new();
    let root = Node::new(&mut forest, 10);
    let first = root.id();
    assert!(!root.add_leaf(&mut forest, 10));
    assert!(!forest.contains(first + 1));
    let next = Node::new(&mut forest, 11);
    assert_ne!(next.id(), first);
    assert!(forest.contains(next.id()));
    assert_eq!(root.children(&mut forest).len(), 0);
}

#[test]
fn a_subtree_without_handles_is_freed_whole() {
    let mut forest = Forest::new();
    let top = Node::new(&mut forest, 1);
    assert!(top.add_leaf(&mut forest, 2));
    assert!(top.add_leaf(&mut forest, 3));
    let two = top.find(&mut forest, &2).unwrap();
    assert!(two.add_leaf(&mut forest, 4));
    two.release(&mut forest);
    let mut ids = Vec::new();
    RawNode::as_array(&forest, top.id(), &mut ids);
    assert_eq!(ids.len(), 4);
    top.release(&mut forest);
    for id in ids {
        assert!(!forest.contains(id));
    }
}

#[test]
fn a_held_child_outlives_its_parent() {
    let mut forest = Forest::new();
    let top = Node::new(&mut forest, 1);
    let kept = Node::new(&mut forest, 2);
    assert!(top.add_child(&mut forest, &kept));
    assert!(kept.add_leaf(&mut forest, 3));
    assert!(top.add_leaf(&mut forest, 4));
    let four = top.find(&mut forest, &4).unwrap().id();
    let three = kept.find(&mut forest, &3).unwrap().id();
    assert_eq!(forest.record(three).holders(), 2);
    assert_eq!(kept.rc_count(&forest), 2);
    let gone = top.id();
    top.release(&mut forest);
    assert!(!forest.contains(gone));
    assert!(forest.contains(four));
    assert!(forest.contains(kept.id()));
    assert!(forest.contains(three));
    assert_eq!(kept.rc_count(&forest), 1);
    assert!(kept.parent(&mut forest).is_none());
    assert_eq!(kept.get_root(&mut forest), kept);
    assert_eq!(kept.children(&mut forest).len(), 1);
    assert_eq!(forest.record(three).parent(), Some(kept.id()));
}

#[test]
fn a_detached_subtree_is_freed_with_its_last_handle() {
    let mut forest = Forest::new();
    let root = Node::new(&mut forest, 10);
    assert!(root.add_leaf(&mut forest, 20));
    let child = root.find(&mut forest, &20).unwrap();
    assert!(child.add_leaf(&mut forest, 30));
    let grandchild = child.find(&mut forest, &30).unwrap().id();
    let id = child.id();
    child.release(&mut forest);
    assert_eq!(forest.record(grandchild).holders(), 2);
    let removed = root.remove_node(&mut forest, &20).unwrap();
    assert_eq!(removed.rc_count(&forest), 1);
    assert!(forest.contains(id));
    removed.release(&mut forest);
    assert!(!forest.contains(id));
    assert!(forest.contains(grandchild));
    assert_eq!(forest.record(grandchild).holders(), 1);
    assert_eq!(forest.record(grandchild).parent(), None);
    assert!(forest.contains(root.id()));
}

#[test]
fn the_record_is_plain_storage() {
    let record = RawNode::new(5);
    assert_eq!(record.value(), &5);
    assert_eq!(record.parent(), None);
    assert!(record.children().is_empty());
    assert_eq!(record.holders(), 1);
}

#[test]
fn records_name_their_links() {
    let mut forest = Forest::new();
    let root = Node::new(&mut forest, 1);
    let a = Node::new(&mut forest, 2);
    let b = Node::new(&mut forest, 3);
    assert!(root.add_child(&mut forest, &a));
    assert!(root.add_child(&mut forest, &b));
    let record = forest.record(root.id());
    assert_eq!(record.value(), &1);
    assert_eq!(record.parent(), None);
    assert_eq!(record.children(), &vec![a.id(), b.id()]);
    assert_eq!(forest.record(a.id()).parent(), Some(root.id()));
    assert_eq!(forest.record(b.id()).holders(), 2);
    assert!(!forest.contains(b.id() + 1));
}

#[test]
fn the_walk_is_in_pre_order() {
    let mut forest = Forest::new();
    let root = Node::new(&mut forest, 1);
    assert!(root.add_leaf(&mut forest, 2));
    assert!(root.add_leaf(&mut forest, 5));
    let two = root.find(&mut forest, &2).unwrap();
    assert!(two.add_leaf(&mut forest, 3));
    assert!(two.add_leaf(&mut forest, 4));
    let five = root.find(&mut forest, &5).unwrap();
    assert!(five.add_leaf(&mut forest, 6));
    let mut ids = vec![usize::MAX];
    RawNode::as_array(&forest, root.id(), &mut ids);
    assert_eq!(ids[0], usize::MAX);
    let values: Vec<i32> = ids[1..].iter().map(|id| *forest.record(*id).value()).collect();
    assert_eq!(values, vec![1, 2, 3, 4, 5, 6]);
    let mut part = Vec::new();
    RawNode::as_array(&forest, two.id(), &mut part);
    let values: Vec<i32> = part.iter().map(|id| *forest.record(*id).value()).collect();
    assert_eq!(values, vec![2, 3, 4]);
}

#[test]
fn the_arena_finds_by_identity() {
    let mut forest = Forest::new();
    let root = Node::new(&mut forest, 1);
    let a = Node::new(&mut forest, 2);
    let b = Node::new(&mut forest, 3);
    assert!(root.add_child(&mut forest, &a));
    assert!(a.add_child(&mut forest, &b));
    assert_eq!(RawNode::find(&forest, root.id(), &3), Some(b.id()));
    assert_eq!(RawNode::find(&forest, a.id(), &1), None);
    assert_eq!(RawNode::find(&forest, b.id(), &3), Some(b.id()));
    assert_eq!(RawNode::get_root(&forest, b.id()), root.id());
    assert_eq!(RawNode::get_root(&forest, root.id()), root.id());
}

#[test]
fn subtrees_are_compared_by_value() {
    let mut forest = Forest::new();
    let left = Node::new(&mut forest, 1);
    assert!(left.add_leaf(&mut forest, 2));
    let right = Node::new(&mut forest, 3);
    assert!(right.add_leaf(&mut forest, 4));
    let clash = Node::new(&mut forest, 5);
    assert!(clash.add_leaf(&mut forest, 2));
    assert!(RawNode::unique_nodes(&forest, left.id(), right.id()));
    assert!(RawNode::unique_nodes(&forest, right.id(), left.id()));
    assert!(!RawNode::unique_nodes(&forest, left.id(), clash.id()));
    assert!(!RawNode::unique_nodes(&forest, clash.id(), left.id()));
    assert!(RawNode::unique_nodes(&forest, right.id(), clash.id()));
    assert!(!RawNode::unique_nodes(&forest, left.id(), left.id()));
}

#[test]
fn records_are_linked_by_identity() {
    let mut forest = Forest::new();
    let root = Node::new(&mut forest, 1);
    let a = Node::new(&mut forest, 2);
    assert!(RawNode::add_child(&mut forest, root.id(), a.id()));
    assert!(!RawNode::add_child(&mut forest, a.id(), root.id()));
    assert_eq!(forest.record(a.id()).parent(), Some(root.id()));
    assert_eq!(forest.record(root.id()).children(), &vec![a.id()]);
    let removed = RawNode::remove_node(&mut forest, root.id(), &2).unwrap();
    assert_eq!(removed, a);
    assert_eq!(removed.rc_count(&forest), 2);
    assert_eq!(forest.record(a.id()).parent(), None);
    assert!(forest.record(root.id()).children().is_empty());
    assert!(RawNode::remove_node(&mut forest, root.id(), &2).is_none());
    assert!(RawNode::remove_node(&mut forest, root.id(), &1).is_none());
}
