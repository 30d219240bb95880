use std::cmp::Ordering;
use arenatree::tree::Tree;
use arenatree::{NodeIdx, Result};

struct Data {
    tree: Tree<&'static str>,
    root: NodeIdx,
    bfs_order: Vec<NodeIdx>,
    dfs_order: Vec<NodeIdx>,
    subtree_bfs_order: Vec<NodeIdx>,
    subtree_dfs_order: Vec<NodeIdx>,
}

fn make_data() -> Result<Data> {
    let mut tree: Tree<&str> = Tree::default();
    let root: NodeIdx = tree.add_node(None, "")?;
    let node0: NodeIdx = tree.add_node(Some(root), "")?;
    let node00: NodeIdx = tree.add_node(Some(node0), "")?;
    let node01: NodeIdx = tree.add_node(Some(node0), "")?;
    let node1: NodeIdx = tree.add_node(Some(root), "")?;
    let node10: NodeIdx = tree.add_node(Some(node1), "")?;
    let node2: NodeIdx = tree.add_node(Some(root), "")?;
    let node20: NodeIdx = tree.add_node(Some(node2), "")?;
    let node200: NodeIdx = tree.add_node(Some(node20), "")?;
    let node21: NodeIdx = tree.add_node(Some(node2), "")?;
    Ok(Data {
        tree,
        root,
        bfs_order: vec![root, node0, node1, node2, node00, node01, node10, node20, node21, node200],
        dfs_order: vec![root, node0, node00, node01, node1, node10, node2, node20, node200, node21],
        subtree_bfs_order: vec![root, node1, node2, node10, node20, node21, node200],
        subtree_dfs_order: vec![root, node1, node10, node2, node20, node200, node21],
    })
}

/// `root` with `node0`, `node1 -> node10 -> node100` and `node2 -> node20`
/// below it, named by `names` in that order, below `at` when given.
fn place_small_tree(tree: &mut Tree<&'static str>, at: Option<NodeIdx>, names: [&'static str; 7]) -> Result<NodeIdx> {
    let root = tree.add_node(at, names[0])?;
    tree.add_node(Some(root), names[1])?;
    let node1 = tree.add_node(Some(root), names[2])?;
    let node10 = tree.add_node(Some(node1), names[3])?;
    tree.add_node(Some(node10), names[4])?;
    let node2 = tree.add_node(Some(root), names[5])?;
    let node20 = tree.add_node(Some(node2), names[6])?;
    Ok(node20)
}

const MAIN: [&str; 7] = ["root", "node0", "node1", "node10", "node100", "node2", "node20"];
const SUB: [&str; 7] = [
    "root (subtree)",
    "node0 (subtree)",
    "node1 (subtree)",
    "node10 (subtree)",
    "node100 (subtree)",
    "node2 (subtree)",
    "node20 (subtree)",
];

#[test]
fn dfs_traversal() -> Result<()> {
    let data = make_data()?;
    let dfs_order = data.tree.dfs(data.root);
    assert_eq!(dfs_order, data.dfs_order);
    Ok(())
}

#[test]
fn bfs_traversal() -> Result<()> {
    let data = make_data()?;
    let bfs_order = data.tree.bfs(data.root);
    assert_eq!(bfs_order, data.bfs_order);
    Ok(())
}

#[test]
fn copy_subtree() -> Result<()> {
    let mut tree: Tree<&str> = Tree::default();
    let node20 = place_small_tree(&mut tree, None, MAIN)?;
    let mut subtree: Tree<&str> = Tree::default();
    place_small_tree(&mut subtree, None, SUB)?;

    tree.copy_subtree(node20, &subtree)?;

    let mut expected: Tree<&str> = Tree::default();
    let e_node20 = place_small_tree(&mut expected, None, MAIN)?;
    place_small_tree(&mut expected, Some(e_node20), SUB)?;

    assert!(tree.logical_eq(&expected));
    Ok(())
}

#[test]
fn tree_remove_subtree() -> Result<()> {
    let mut data = make_data()?;
    let node0 = NodeIdx(1);
    data.tree.rm_subtree(node0)?;
    let subtree_bfs_order = data.tree.bfs(data.root);
    assert_eq!(subtree_bfs_order, data.subtree_bfs_order);
    let subtree_dfs_order = data.tree.dfs(data.root);
    assert_eq!(subtree_dfs_order, data.subtree_dfs_order);
    Ok(())
}

#[test]
fn tree_remove_subtree_multiply() -> Result<()> {
    let mut data = make_data()?;
    let node0 = NodeIdx(1);
    data.tree.rm_subtree(node0)?;
    data.tree.rm_subtree(node0)?;
    let subtree_bfs_order = data.tree.bfs(data.root);
    assert_eq!(subtree_bfs_order, data.subtree_bfs_order);
    let subtree_dfs_order = data.tree.dfs(data.root);
    assert_eq!(subtree_dfs_order, data.subtree_dfs_order);
    Ok(())
}

#[test]
fn tree_rm_descendants_of() -> Result<()> {
    let mut data = make_data()?;
    data.tree.rm_descendants_of(NodeIdx(6))?;
    assert!(data.tree[NodeIdx(6)].children.is_empty());
    let expected = &[NodeIdx(1), NodeIdx(4), NodeIdx(6)];
    assert_eq!(&data.tree.root_ref().child_idxs(), expected);
    Ok(())
}

#[test]
fn tree_ancestors_of() -> Result<()> {
    let data = make_data()?;
    let ancestors = data.tree.ancestors_of(NodeIdx(8));
    assert_eq!(ancestors, &[NodeIdx(7), NodeIdx(6), NodeIdx(0)]);
    Ok(())
}

#[test]
fn tree_siblings_of() -> Result<()> {
    let data = make_data()?;
    let siblings = data.tree.siblings_of(NodeIdx(4));
    assert_eq!(siblings, &[NodeIdx(1), NodeIdx(6)]);
    Ok(())
}

#[test]
fn tree_children_of() -> Result<()> {
    let data = make_data()?;
    let children = data.tree.children_of(NodeIdx(1));
    assert_eq!(children, &[NodeIdx(2), NodeIdx(3)]);
    Ok(())
}

#[test]
fn tree_descendants_of() -> Result<()> {
    let data = make_data()?;
    let descendants = data.tree.descendants_of(NodeIdx(6));
    assert_eq!(descendants, &[NodeIdx(7), NodeIdx(8), NodeIdx(9)]);
    Ok(())
}

#[test]
fn tree_move_subtree() -> Result<()> {
    let data = make_data()?;
    let mut tree = data.tree.clone();

    let (subroot_idx, parent_idx) = (NodeIdx(6), NodeIdx(1));
    tree.move_subtree(subroot_idx, parent_idx)?;
    let mut expected = Tree::<&str>::default();
    let root_idx = expected.add_node(None, "")?;
    let node1_idx = expected.add_node(Some(root_idx), "")?;
    let _node2_idx = expected.add_node(Some(node1_idx), "")?;
    let _node3_idx = expected.add_node(Some(node1_idx), "")?;
    let node4_idx = expected.add_node(Some(root_idx), "")?;
    let _node5_idx = expected.add_node(Some(node4_idx), "")?;
    let node6_idx = expected.add_node(Some(node1_idx), "")?;
    let node7_idx = expected.add_node(Some(node6_idx), "")?;
    let _node8_idx = expected.add_node(Some(node7_idx), "")?;
    let _node9_idx = expected.add_node(Some(node6_idx), "")?;
    assert!(tree.logical_eq(&expected));

    let (subroot_idx, parent_idx) = (NodeIdx(6), NodeIdx(0));
    tree.move_subtree(subroot_idx, parent_idx)?;
    let expected = data.tree;
    assert!(tree.logical_eq(&expected));
    Ok(())
}

#[test]
fn tree_replace_subtree() -> Result<()> {
    let data = make_data()?;
    let mut tree = data.tree;

    tree.replace_subtree(NodeIdx(2), NodeIdx(6))?;

    assert_eq!(tree.children_of(NodeIdx(0)), [NodeIdx(1), NodeIdx(4)]);
    assert_eq!(tree.children_of(NodeIdx(1)), [NodeIdx(6), NodeIdx(3)]);
    assert_eq!(tree.children_of(NodeIdx(6)), [NodeIdx(7), NodeIdx(9)]);
    assert_eq!(tree.children_of(NodeIdx(7)), [NodeIdx(8)]);
    assert_eq!(tree.children_of(NodeIdx(4)), [NodeIdx(5)]);
    assert_eq!(tree.parent_of(NodeIdx(0)), None);
    assert_eq!(tree.parent_of(NodeIdx(1)), Some(NodeIdx(0)));
    assert_eq!(tree.parent_of(NodeIdx(4)), Some(NodeIdx(0)));
    assert_eq!(tree.parent_of(NodeIdx(6)), Some(NodeIdx(1)));
    assert_eq!(tree.parent_of(NodeIdx(3)), Some(NodeIdx(1)));
    assert_eq!(tree.parent_of(NodeIdx(7)), Some(NodeIdx(6)));
    assert_eq!(tree.parent_of(NodeIdx(9)), Some(NodeIdx(6)));
    assert_eq!(tree.parent_of(NodeIdx(8)), Some(NodeIdx(7)));
    assert_eq!(tree.parent_of(NodeIdx(5)), Some(NodeIdx(4)));

    tree.replace_subtree(NodeIdx(4), NodeIdx(6))?;

    assert_eq!(tree.children_of(NodeIdx(0)), [NodeIdx(1), NodeIdx(6)]);
    assert_eq!(tree.children_of(NodeIdx(1)), [NodeIdx(3)]);
    assert_eq!(tree.children_of(NodeIdx(6)), [NodeIdx(7), NodeIdx(9)]);
    assert_eq!(tree.children_of(NodeIdx(7)), [NodeIdx(8)]);
    assert_eq!(tree.parent_of(NodeIdx(0)), None);
    assert_eq!(tree.parent_of(NodeIdx(1)), Some(NodeIdx(0)));
    assert_eq!(tree.parent_of(NodeIdx(6)), Some(NodeIdx(0)));
    assert_eq!(tree.parent_of(NodeIdx(3)), Some(NodeIdx(1)));
    assert_eq!(tree.parent_of(NodeIdx(7)), Some(NodeIdx(6)));
    assert_eq!(tree.parent_of(NodeIdx(9)), Some(NodeIdx(6)));
    assert_eq!(tree.parent_of(NodeIdx(8)), Some(NodeIdx(7)));

    let node02_idx = tree.add_node(Some(NodeIdx(0)), "")?;
    let node020_idx = tree.add_node(Some(node02_idx), "")?;
    let _node0200_idx = tree.add_node(Some(node020_idx), "")?;

    assert_eq!(tree.children_of(NodeIdx(0)), [NodeIdx(1), NodeIdx(6), NodeIdx(2)]);
    assert_eq!(tree.children_of(NodeIdx(1)), [NodeIdx(3)]);
    assert_eq!(tree.children_of(NodeIdx(6)), [NodeIdx(7), NodeIdx(9)]);
    assert_eq!(tree.children_of(NodeIdx(7)), [NodeIdx(8)]);
    assert_eq!(tree.children_of(NodeIdx(2)), [NodeIdx(5)]);
    assert_eq!(tree.children_of(NodeIdx(5)), [NodeIdx(4)]);
    assert_eq!(tree.parent_of(NodeIdx(0)), None);
    assert_eq!(tree.parent_of(NodeIdx(1)), Some(NodeIdx(0)));
    assert_eq!(tree.parent_of(NodeIdx(6)), Some(NodeIdx(0)));
    assert_eq!(tree.parent_of(NodeIdx(2)), Some(NodeIdx(0)));
    assert_eq!(tree.parent_of(NodeIdx(3)), Some(NodeIdx(1)));
    assert_eq!(tree.parent_of(NodeIdx(7)), Some(NodeIdx(6)));
    assert_eq!(tree.parent_of(NodeIdx(9)), Some(NodeIdx(6)));
    assert_eq!(tree.parent_of(NodeIdx(8)), Some(NodeIdx(7)));
    assert_eq!(tree.parent_of(NodeIdx(5)), Some(NodeIdx(2)));
    assert_eq!(tree.parent_of(NodeIdx(4)), Some(NodeIdx(5)));
    Ok(())
}

#[test]
fn tree_outline_indents_by_depth() -> Result<()> {
    let data = make_data()?;
    let depths: Vec<usize> = data.tree.outline().iter().map(|row| row.0).collect();
    let nodes: Vec<NodeIdx> = data.tree.outline().iter().map(|row| row.1).collect();
    assert_eq!(nodes, data.dfs_order);
    assert_eq!(depths, vec![0, 1, 2, 2, 1, 2, 1, 2, 3, 2]);
    Ok(())
}

#[test]
fn tree_logical_order() -> Result<()> {
    let build = |child: &'static str| -> Result<Tree<&'static str>> {
        let mut tree: Tree<&str> = Tree::default();
        let root = tree.add_node(None, "root")?;
        tree.add_node(Some(root), child)?;
        Ok(tree)
    };
    let (b, same, c) = (build("b")?, build("b")?, build("c")?);
    assert!(b.logical_eq(&same));
    assert_eq!(b.logical_cmp(&same), Ordering::Equal);
    assert_eq!(b.logical_partial_cmp(&same), Some(Ordering::Equal));
    assert!(!b.logical_eq(&c));
    assert_eq!(b.logical_cmp(&c), Ordering::Less);
    assert_eq!(c.logical_partial_cmp(&b), Some(Ordering::Greater));
    let mut big = build("b")?;
    big.add_node(Some(NodeIdx(0)), "z")?;
    assert_eq!(big.logical_cmp(&b), Ordering::Greater);
    Ok(())
}

#[test]
fn tree_move_and_move_back() -> Result<()> {
    let mut tree: Tree<&str> = Tree::default();
    let root = tree.add_node(None, "root")?;
    let a = tree.add_node(Some(root), "a")?;
    let b = tree.add_node(Some(root), "b")?;
    let c = tree.add_node(Some(b), "c")?;
    let before = tree.clone();
    tree.move_subtree(c, a)?;
    assert_eq!(tree.children_of(a), vec![c]);
    assert!(tree.children_of(b).is_empty());
    assert_eq!(tree.parent_of(c), Some(a));
    tree.move_subtree(c, b)?;
    assert_eq!(tree.children_of(b), vec![c]);
    assert!(tree.children_of(a).is_empty());
    assert!(tree.logical_eq(&before));
    assert_eq!(tree.dfs(root), before.dfs(root));
    Ok(())
}

#[test]
fn tree_second_rm_subtree_changes_nothing() -> Result<()> {
    let mut data = make_data()?;
    let node0 = NodeIdx(1);
    data.tree.rm_subtree(node0)?;
    assert_eq!(data.tree.garbage_size().get(), 3);
    data.tree.rm_subtree(node0)?;
    assert_eq!(data.tree.garbage_size().get(), 3);
    assert_eq!(data.tree.logical_size().get(), 7);
    assert_eq!(data.tree.physical_size().get(), 10);
    assert!(data.tree.is_wf());
    assert_eq!(data.tree.bfs(data.root), data.subtree_bfs_order);
    assert_eq!(data.tree.dfs(data.root), data.subtree_dfs_order);
    Ok(())
}
