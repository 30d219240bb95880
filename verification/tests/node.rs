use arenatree::{Error, Node, NodeCount, NodeIdx};

#[test]
fn node_edges_and_kinds() {
    let mut node: Node<&str, char, u8> = Node::new(NodeIdx(4), "four");
    assert!(node.is_root_node() && node.is_leaf_node() && !node.is_branch_node());
    node.add_parent(NodeIdx(1), 'a');
    node.add_parent(NodeIdx(2), 'b');
    node.insert_parent(NodeIdx(0), 'z', 0);
    assert_eq!(node.parent_idxs(), vec![NodeIdx(0), NodeIdx(1), NodeIdx(2)]);
    assert_eq!(node.count_parents(), 3);
    assert!(node.has_parents() && !node.is_root_node());
    node.add_child(NodeIdx(7), 7);
    node.insert_child(NodeIdx(6), 6, 0);
    assert_eq!(node.child_idxs(), vec![NodeIdx(6), NodeIdx(7)]);
    assert!(node.has_children() && node.is_branch_node());
    assert_eq!(node.get_parent_ordinal(NodeIdx(1)), Some(1));
    assert_eq!(node.get_child_ordinal(NodeIdx(9)), None);
    let pdata: Vec<char> = node.parents().iter().map(|p| *p.1).collect();
    assert_eq!(pdata, vec!['z', 'a', 'b']);
    let edges: Vec<(NodeIdx, NodeIdx, u8)> = node.child_edges().iter().map(|e| (e.src, e.dst, *e.data)).collect();
    assert_eq!(edges, vec![(NodeIdx(4), NodeIdx(6), 6), (NodeIdx(4), NodeIdx(7), 7)]);
    let pedges: Vec<(NodeIdx, NodeIdx)> = node.parent_edges().iter().map(|e| (e.src, e.dst)).collect();
    assert_eq!(pedges[2], (NodeIdx(4), NodeIdx(2)));
    assert_eq!(*node, "four");
}

#[test]
fn node_removals() {
    let mut node: Node<(), u8, u8> = Node::new(NodeIdx(3), ());
    node.add_parent(NodeIdx(1), 10);
    node.add_parent(NodeIdx(1), 11);
    node.add_child(NodeIdx(5), 50);
    assert_eq!(node.remove_parent(NodeIdx(1)), Ok(10));
    assert_eq!(node.parent_idxs(), vec![NodeIdx(1)]);
    assert_eq!(node.remove_parent(NodeIdx(2)), Err(Error::ParentNotFound { node_idx: NodeIdx(3), parent_idx: Some(NodeIdx(2)) }));
    assert_eq!(node.remove_child(NodeIdx(5)), Ok(50));
    assert_eq!(node.remove_child(NodeIdx(5)), Err(Error::ChildNotFound { node_idx: NodeIdx(3), child_idx: NodeIdx(5) }));
    assert_eq!(node.count_children(), 0);
}

#[test]
fn node_counts() {
    let a = NodeCount::from(5usize);
    let b = NodeCount(2);
    assert_eq!((a + b).get(), 7);
    assert_eq!((a - b).get(), 3);
    assert_eq!(*a, 5);
    assert_eq!(NodeCount::zero(), NodeCount(0));
    assert_eq!(NodeIdx::from(3usize), NodeIdx(3));
}
