use a_ntree::Forest;
use a_ntree::Node;
use a_ntree::RawNode;

#[test]
fn fresh_nodes_with_equal_values_are_distinct() {
    let mut forest = Forest::new();
    let node = Node::new(&mut forest, 10);
    let another = Node::new(&mut forest, 10);
    assert_ne!(node, another);
    assert_ne!(node.id(), another.id());
    assert_eq!(node.value(&forest), &10);
    assert_eq!(another.value(&forest), &10);
}

#[test]
fn value_is_the_one_given() {
    let mut forest = Forest::new();
    let node = Node::new(&mut forest, String::from("payload"));
    assert_eq!(node.value(&forest), "payload");
}

#[test]
fn attach_links_parent_and_child() {
    let mut forest = Forest::new();
    let root = Node::new(&mut forest, 10);
    let child = Node::new(&mut forest, 20);
    assert!(root.parent(&mut forest).is_none());
    assert!(child.parent(&mut forest).is_none());
    assert!(root.add_child(&mut forest, &child));
    assert!(root.parent(&mut forest).is_none());
    assert_eq!(child.parent(&mut forest).unwrap(), root);
    let kids = root.children(&mut forest);
    assert_eq!(kids.len(), 1);
    assert_eq!(kids[0], child);
}

#[test]
fn attach_twice_is_rejected() {
    let mut forest = Forest::new();
    let root = Node::new(&mut forest, 10);
    let child = Node::new(&mut forest, 20);
    let first = root.add_child(&mut forest, &child);
    let second = root.add_child(&mut forest, &child);
    assert_eq!(first, true);
    assert_eq!(second, false);
    assert_eq!(root.children(&mut forest).len(), 1);
    assert_eq!(child.rc_count(&forest), 3);
}

#[test]
fn leaves_are_found_by_value() {
    let mut forest = Forest::new();
    let root = Node::new(&mut forest, 10);
    assert!(root.add_leaf(&mut forest, 20));
    assert!(root.add_leaf(&mut forest, 30));
    assert_eq!(root.find(&mut forest, &30).unwrap().value(&forest), &30);
    assert_eq!(root.find(&mut forest, &20).unwrap().value(&forest), &20);
    assert_eq!(root.find(&mut forest, &10).unwrap().value(&forest), &10);
    assert_eq!(root.find(&mut forest, &10).unwrap(), root);
    assert!(root.find(&mut forest, &999).is_none());
    assert!(root.find(&mut forest, &999999).is_none());
}

#[test]
fn leaf_becomes_last_child() {
    let mut forest = Forest::new();
    let root = Node::new(&mut forest, 10);
    assert!(root.add_leaf(&mut forest, 30));
    assert!(root.add_leaf(&mut forest, 40));
    let kids = root.children(&mut forest);
    assert_eq!(kids.len(), 2);
    assert_eq!(kids[0].value(&forest), &30);
    assert_eq!(kids[1].value(&forest), &40);
    assert_eq!(kids[1].parent(&mut forest).unwrap(), root);
}

#[test]
fn leaf_with_a_known_value_is_rejected() {
    let mut forest = Forest::new();
    let root = Node::new(&mut forest, 10);
    assert!(root.add_leaf(&mut forest, 20));
    let kid = root.find(&mut forest, &20).unwrap();
    assert!(!root.add_leaf(&mut forest, 20));
    assert!(!root.add_leaf(&mut forest, 10));
    assert!(!kid.add_leaf(&mut forest, 10));
    assert!(!kid.add_leaf(&mut forest, 20));
    assert_eq!(root.children(&mut forest).len(), 1);
    assert_eq!(kid.children(&mut forest).len(), 0);
    assert!(kid.add_leaf(&mut forest, 30));
    assert!(!root.add_leaf(&mut forest, 30));
}

#[test]
fn removed_subtree_stays_whole() {
    let mut forest = Forest::new();
    let root = Node::new(&mut forest, 10);
    let a = Node::new(&mut forest, 30);
    let child = Node::new(&mut forest, 20);
    assert!(child.add_child(&mut forest, &a));
    assert!(root.add_child(&mut forest, &child));
    let removed = root.remove_node(&mut forest, &20).unwrap();
    assert_eq!(removed, child);
    assert_eq!(root.children(&mut forest).len(), 0);
    assert!(root.find(&mut forest, &40).is_none());
    assert!(root.find(&mut forest, &20).is_none());
    assert!(root.find(&mut forest, &30).is_none());
    assert_eq!(child.find(&mut forest, &30).unwrap().value(&forest), &30);
    assert_eq!(child.find(&mut forest, &30).unwrap(), a);
    assert!(child.parent(&mut forest).is_none());
    assert_eq!(a.parent(&mut forest).unwrap(), child);
}

#[test]
fn removal_takes_one_child_only() {
    let mut forest = Forest::new();
    let root = Node::new(&mut forest, 10);
    assert!(root.add_leaf(&mut forest, 30));
    assert!(root.add_leaf(&mut forest, 40));
    assert!(root.add_leaf(&mut forest, 50));
    let removed = root.remove_node(&mut forest, &40).unwrap();
    assert_eq!(removed.value(&forest), &40);
    let kids = root.children(&mut forest);
    assert_eq!(kids.len(), 2);
    assert_eq!(kids[0].value(&forest), &30);
    assert_eq!(kids[1].value(&forest), &50);
    assert!(root.find(&mut forest, &40).is_none());
}

#[test]
fn duplicate_value_is_rejected() {
    let mut forest = Forest::new();
    let root = Node::new(&mut forest, 10);
    let other = Node::new(&mut forest, 10);
    assert_eq!(root.add_child(&mut forest, &other), false);
    assert_eq!(root.children(&mut forest).len(), 0);
    assert!(other.parent(&mut forest).is_none());
    assert_eq!(other.rc_count(&forest), 1);
}

#[test]
fn duplicate_deep_in_the_subtree_is_rejected() {
    let mut forest = Forest::new();
    let root = Node::new(&mut forest, 1);
    assert!(root.add_leaf(&mut forest, 2));
    let two = root.find(&mut forest, &2).unwrap();
    assert!(two.add_leaf(&mut forest, 3));
    let other = Node::new(&mut forest, 7);
    assert!(other.add_leaf(&mut forest, 8));
    let eight = other.find(&mut forest, &8).unwrap();
    assert!(eight.add_leaf(&mut forest, 3));
    assert!(!two.add_child(&mut forest, &other));
    assert!(!root.add_child(&mut forest, &other));
    assert!(other.parent(&mut forest).is_none());
    assert_eq!(root.children(&mut forest).len(), 1);
    assert_eq!(two.children(&mut forest).len(), 1);
    assert_eq!(other.children(&mut forest).len(), 1);
}

#[test]
fn cycle_is_rejected() {
    let mut forest = Forest::new();
    let root = Node::new(&mut forest, 1);
    let mid = Node::new(&mut forest, 2);
    assert!(root.add_child(&mut forest, &mid));
    assert_eq!(mid.add_child(&mut forest, &root), false);
    assert_eq!(root.add_child(&mut forest, &root), false);
    assert_eq!(mid.add_child(&mut forest, &mid), false);
    assert!(root.parent(&mut forest).is_none());
    assert_eq!(mid.children(&mut forest).len(), 0);
    assert_eq!(mid.get_root(&mut forest), root);
}

#[test]
fn root_of_a_grandchild() {
    let mut forest = Forest::new();
    let root = Node::new(&mut forest, 10);
    let a_child = Node::new(&mut forest, 20);
    let child_of_child = Node::new(&mut forest, 30);
    assert!(root.add_child(&mut forest, &a_child));
    assert!(a_child.add_child(&mut forest, &child_of_child));
    assert_eq!(child_of_child.get_root(&mut forest), root);
    assert_eq!(a_child.get_root(&mut forest), root);
    assert_eq!(root.get_root(&mut forest), root);
}

#[test]
fn root_closure_is_idempotent() {
    let mut forest = Forest::new();
    let root = Node::new(&mut forest, 1);
    assert!(root.add_leaf(&mut forest, 2));
    let two = root.find(&mut forest, &2).unwrap();
    assert!(two.add_leaf(&mut forest, 3));
    let three = two.find(&mut forest, &3).unwrap();
    let top = three.get_root(&mut forest);
    assert!(top.parent(&mut forest).is_none());
    let again = top.get_root(&mut forest);
    assert_eq!(again, top);
    assert_eq!(top, root);
}

#[test]
fn search_stays_in_the_subtree() {
    let mut forest = Forest::new();
    let root = Node::new(&mut forest, 1);
    assert!(root.add_leaf(&mut forest, 2));
    assert!(root.add_leaf(&mut forest, 3));
    let two = root.find(&mut forest, &2).unwrap();
    assert!(two.add_leaf(&mut forest, 4));
    assert!(two.find(&mut forest, &3).is_none());
    assert!(two.find(&mut forest, &1).is_none());
    assert_eq!(two.find(&mut forest, &4).unwrap().value(&forest), &4);
    assert!(two.remove_node(&mut forest, &3).is_none());
    assert_eq!(root.children(&mut forest).len(), 2);
}

#[test]
fn removing_a_root_changes_nothing() {
    let mut forest = Forest::new();
    let root = Node::new(&mut forest, 10);
    assert!(root.add_leaf(&mut forest, 20));
    assert!(root.remove_node(&mut forest, &10).is_none());
    assert!(root.remove_node(&mut forest, &77).is_none());
    assert_eq!(root.children(&mut forest).len(), 1);
    assert_eq!(root.find(&mut forest, &20).unwrap().value(&forest), &20);
}

#[test]
fn a_record_can_remove_itself() {
    let mut forest = Forest::new();
    let root = Node::new(&mut forest, 10);
    let child = Node::new(&mut forest, 20);
    assert!(root.add_child(&mut forest, &child));
    assert!(child.add_leaf(&mut forest, 30));
    let removed = child.remove_node(&mut forest, &20).unwrap();
    assert_eq!(removed, child);
    assert_eq!(root.children(&mut forest).len(), 0);
    assert_eq!(child.get_root(&mut forest), child);
    assert_eq!(child.find(&mut forest, &20).unwrap(), child);
    assert_eq!(child.children(&mut forest).len(), 1);
}

#[test]
fn removed_subtree_can_be_attached_again() {
    let mut forest = Forest::new();
    let root = Node::new(&mut forest, 1);
    assert!(root.add_leaf(&mut forest, 2));
    assert!(root.add_leaf(&mut forest, 3));
    let two = root.remove_node(&mut forest, &2).unwrap();
    let three = root.find(&mut forest, &3).unwrap();
    assert!(three.add_child(&mut forest, &two));
    assert_eq!(two.parent(&mut forest).unwrap(), three);
    assert_eq!(two.get_root(&mut forest), root);
    assert_eq!(root.children(&mut forest).len(), 1);
    assert!(!root.add_leaf(&mut forest, 2));
}

#[test]
fn attaching_an_attached_record_moves_it() {
    let mut forest = Forest::new();
    let left = Node::new(&mut forest, 1);
    let right = Node::new(&mut forest, 2);
    let item = Node::new(&mut forest, 3);
    assert!(item.add_leaf(&mut forest, 4));
    assert!(left.add_child(&mut forest, &item));
    assert_eq!(item.rc_count(&forest), 2);
    assert!(right.add_child(&mut forest, &item));
    assert_eq!(item.rc_count(&forest), 2);
    assert_eq!(item.parent(&mut forest).unwrap(), right);
    assert_eq!(left.children(&mut forest).len(), 0);
    let kids = right.children(&mut forest);
    assert_eq!(kids.len(), 1);
    assert_eq!(kids[0], item);
    assert!(left.find(&mut forest, &3).is_none());
    assert!(left.find(&mut forest, &4).is_none());
    assert_eq!(right.find(&mut forest, &4).unwrap().get_root(&mut forest), right);
    assert!(left.add_leaf(&mut forest, 3));
    assert!(!right.add_leaf(&mut forest, 3));
}

#[test]
fn rejection_leaves_both_trees_as_they_were() {
    let mut forest = Forest::new();
    let root = Node::new(&mut forest, 1);
    assert!(root.add_leaf(&mut forest, 2));
    assert!(root.add_leaf(&mut forest, 3));
    let other = Node::new(&mut forest, 9);
    assert!(other.add_leaf(&mut forest, 8));
    assert!(other.add_leaf(&mut forest, 3));
    let mut before_root = Vec::new();
    RawNode::as_array(&forest, root.id(), &mut before_root);
    let mut before_other = Vec::new();
    RawNode::as_array(&forest, other.id(), &mut before_other);
    let count_root = root.rc_count(&forest);
    let count_other = other.rc_count(&forest);
    assert!(!root.add_child(&mut forest, &other));
    let mut after_root = Vec::new();
    RawNode::as_array(&forest, root.id(), &mut after_root);
    let mut after_other = Vec::new();
    RawNode::as_array(&forest, other.id(), &mut after_other);
    assert_eq!(before_root, after_root);
    assert_eq!(before_other, after_other);
    assert_eq!(root.rc_count(&forest), count_root);
    assert_eq!(other.rc_count(&forest), count_other);
    assert!(other.parent(&mut forest).is_none());
    let values: Vec<i32> = after_root.iter().map(|id| *forest.record(*id).value()).collect();
    assert_eq!(values, vec![1, 2, 3]);
    let values: Vec<i32> = after_other.iter().map(|id| *forest.record(*id).value()).collect();
    assert_eq!(values, vec![9, 8, 3]);
}

#[test]
fn values_stay_distinct_over_many_steps() {
    let mut forest = Forest::new();
    let root = Node::new(&mut forest, 0);
    let mut accepted = 0;
    for round in 0..3 {
        for v in 0..12 {
            let at = root.find(&mut forest, &(v / 3)).unwrap_or(root.get_root(&mut forest));
            if at.add_leaf(&mut forest, v) {
                accepted += 1;
            }
            let _ = round;
        }
    }
    assert_eq!(accepted, 11);
    let mut ids = Vec::new();
    RawNode::as_array(&forest, root.id(), &mut ids);
    assert_eq!(ids.len(), 12);
    let mut values: Vec<i32> = ids.iter().map(|id| *forest.record(*id).value()).collect();
    values.sort();
    assert_eq!(values, (0..12).collect::<Vec<i32>>());
}
