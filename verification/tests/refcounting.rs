use a_ntree::Forest;
use a_ntree::Node;

#[test]
fn adding() {
    let mut forest = Forest::new();
    let root = Node::new(&mut forest, 10);
    {
        let node = Node::new(&mut forest, 20);
        let _ = root.add_child(&mut forest, &node);
        // one holder is the handle `node`,
        // one is the child list of root
        assert_eq!(node.rc_count(&forest), 2);
        node.release(&mut forest);
    }
    assert_eq!(root.rc_count(&forest), 1);
}

#[test]
fn get_root() {
    let mut forest = Forest::new();
    let root = Node::new(&mut forest, 10);
    {
        let got = root.get_root(&mut forest);
        assert_eq!(root.rc_count(&forest), 2);
        got.release(&mut forest);
    }
    assert_eq!(root.rc_count(&forest), 1);
}

#[test]
fn deleting() {
    let mut forest = Forest::new();
    let root = Node::new(&mut forest, 10);
    let a = Node::new(&mut forest, 30);

    {
        let child = Node::new(&mut forest, 20);
        let _ = child.add_child(&mut forest, &a);
        let _ = root.add_child(&mut forest, &child);
        child.release(&mut forest);
    }

    assert_eq!(a.rc_count(&forest), 2);
    if let Some(removed) = root.remove_node(&mut forest, &20) {
        removed.release(&mut forest);
    }
    assert_eq!(a.rc_count(&forest), 1);
}
