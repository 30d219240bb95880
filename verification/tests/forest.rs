use std::cmp::Ordering;
use arenatree::arena::TraversalType;
use arenatree::forest::{Forest, ForestIdx};
use arenatree::{NodeIdx, Result};

struct Data {
    forest: Forest<&'static str, (), ()>,
    roots: Vec<ForestIdx>,
    bfs_order0: Vec<ForestIdx>,
    bfs_order1: Vec<ForestIdx>,
    dfs_order0: Vec<ForestIdx>,
    dfs_order1: Vec<ForestIdx>,
    subtree_bfs_order: Vec<ForestIdx>,
    subtree_dfs_order: Vec<ForestIdx>,
}

fn make_data() -> Result<Data> {
    let mut forest: Forest<&str, (), ()> = Forest::default();
    let root0: ForestIdx = forest.push_root("");
    let node0: ForestIdx = forest.add_node("");
    let node00: ForestIdx = forest.add_node("");
    let node01: ForestIdx = forest.add_node("");
    let node1: ForestIdx = forest.add_node("");
    let node10: ForestIdx = forest.add_node("");
    let node2: ForestIdx = forest.add_node("");
    let node20: ForestIdx = forest.add_node("");
    let node200: ForestIdx = forest.add_node("");
    let node21: ForestIdx = forest.add_node("");
    forest.add_edge((root0, node0), (), ());
    forest.add_edge((node0, node00), (), ());
    forest.add_edge((node0, node01), (), ());
    forest.add_edge((root0, node1), (), ());
    forest.add_edge((node1, node10), (), ());
    forest.add_edge((root0, node2), (), ());
    forest.add_edge((node2, node20), (), ());
    forest.add_edge((node20, node200), (), ());
    forest.add_edge((node2, node21), (), ());
    let root1: ForestIdx = forest.push_root("");
    let node3: ForestIdx = forest.add_node("");
    let node30: ForestIdx = forest.add_node("");
    let node31: ForestIdx = forest.add_node("");
    let node4: ForestIdx = forest.add_node("");
    let node40: ForestIdx = forest.add_node("");
    let node5: ForestIdx = forest.add_node("");
    let node50: ForestIdx = forest.add_node("");
    let node500: ForestIdx = forest.add_node("");
    let node51: ForestIdx = forest.add_node("");
    forest.add_edge((root1, node3), (), ());
    forest.add_edge((node3, node30), (), ());
    forest.add_edge((node3, node31), (), ());
    forest.add_edge((root1, node4), (), ());
    forest.add_edge((node4, node40), (), ());
    forest.add_edge((root1, node5), (), ());
    forest.add_edge((node5, node50), (), ());
    forest.add_edge((node50, node500), (), ());
    forest.add_edge((node5, node51), (), ());
    Ok(Data {
        forest,
        roots: vec![root0, root1],
        bfs_order0: vec![root0, node0, node1, node2, node00, node01, node10, node20, node21, node200],
        bfs_order1: vec![root1, node3, node4, node5, node30, node31, node40, node50, node51, node500],
        dfs_order0: vec![root0, node0, node00, node01, node1, node10, node2, node20, node200, node21],
        dfs_order1: vec![root1, node3, node30, node31, node4, node40, node5, node50, node500, node51],
        subtree_bfs_order: vec![root0, node0, node1, node2, node00, node01, node10, node20, node21, node200],
        subtree_dfs_order: vec![root0, node0, node00, node01, node1, node10, node2, node20, node200, node21],
    })
}

/// A child with `data` below `parent`.
fn place(forest: &mut Forest<&'static str, (), ()>, parent: ForestIdx, data: &'static str) -> ForestIdx {
    let idx = forest.add_node(data);
    forest.add_edge((parent, idx), (), ());
    idx
}

/// The tree: `root` with `node0`, `node1 -> node10 -> node100` and
/// `node2 -> node20` below it, named by `names` in that order.
fn small_tree(names: &'static [&'static str; 7]) -> (Forest<&'static str, (), ()>, ForestIdx) {
    let mut forest: Forest<&'static str, (), ()> = Forest::default();
    let root = forest.push_root(names[0]);
    place(&mut forest, root, names[1]);
    let node1 = place(&mut forest, root, names[2]);
    let node10 = place(&mut forest, node1, names[3]);
    place(&mut forest, node10, names[4]);
    let node2 = place(&mut forest, root, names[5]);
    let node20 = place(&mut forest, node2, names[6]);
    (forest, node20)
}

const MAIN: [&str; 7] = ["root", "node0", "node1", "node10", "node100", "node2", "node20"];
const SUB: [&str; 7] = [
    "root (subtree)",
    "node0 (subtree)",
    "node1 (subtree)",
    "node10 (subtree)",
    "node100 (subtree)",
    "node2 (subtree)",
    "node20 (subtree)",
];

#[test]
fn bfs_traversal_basic() -> Result<()> {
    let data = make_data()?;
    let bfs_order0 = data.forest.bfs(data.roots[0]);
    assert_eq!(bfs_order0, data.bfs_order0);
    let bfs_order1 = data.forest.bfs(data.roots[1]);
    assert_eq!(bfs_order1, data.bfs_order1);
    Ok(())
}

#[test]
fn dfs_traversal_basic() -> Result<()> {
    let data = make_data()?;
    let dfs_order0 = data.forest.dfs_pre(data.roots[0]);
    assert_eq!(dfs_order0, data.dfs_order0);
    let dfs_order1 = data.forest.dfs_pre(data.roots[1]);
    assert_eq!(dfs_order1, data.dfs_order1);
    Ok(())
}

#[test]
fn copy_subforest() -> Result<()> {
    let (mut forest, node20) = small_tree(&MAIN);
    assert_eq!(node20, ForestIdx::from(6));
    let (subtree, _) = small_tree(&SUB);
    let subtree_root = ForestIdx::from(0);

    forest.copy_subtree(node20, (&subtree, subtree_root))?;

    let (mut expected, e_node20) = small_tree(&MAIN);
    let e_st_root = place(&mut expected, e_node20, SUB[0]);
    place(&mut expected, e_st_root, SUB[1]);
    let e_st_node1 = place(&mut expected, e_st_root, SUB[2]);
    let e_st_node10 = place(&mut expected, e_st_node1, SUB[3]);
    place(&mut expected, e_st_node10, SUB[4]);
    let e_st_node2 = place(&mut expected, e_st_root, SUB[5]);
    place(&mut expected, e_st_node2, SUB[6]);
    assert!(forest.logical_eq(&expected));
    Ok(())
}

#[test]
fn forest_remove_subtree() -> Result<()> {
    let mut data = make_data()?;
    let node0 = ForestIdx::from(1);
    data.forest.rm_subtree(node0, false)?;
    let subtree_bfs_order = data.forest.bfs(data.roots[0]);
    assert_eq!(subtree_bfs_order, data.subtree_bfs_order);
    let subtree_dfs_order = data.forest.dfs_pre(data.roots[0]);
    assert_eq!(subtree_dfs_order, data.subtree_dfs_order);
    Ok(())
}

#[test]
fn forest_remove_subtree_multiply() -> Result<()> {
    let mut data = make_data()?;
    let node0 = ForestIdx::from(1);
    data.forest.rm_subtree(node0, false)?;
    data.forest.rm_subtree(node0, false)?;
    let subtree_bfs_order = data.forest.bfs(data.roots[0]);
    assert_eq!(subtree_bfs_order, data.subtree_bfs_order);
    let subtree_dfs_order = data.forest.dfs_pre(data.roots[0]);
    assert_eq!(subtree_dfs_order, data.subtree_dfs_order);
    Ok(())
}

#[test]
fn forest_move_subtree() -> Result<()> {
    let data = make_data()?;
    let mut forest = data.forest.clone();

    let (parent_idx, subroot_idx) = (ForestIdx::from(1), ForestIdx::from(6));
    forest.move_subtree(parent_idx, subroot_idx)?;

    let (parent_idx, subroot_idx) = (ForestIdx::from(0), ForestIdx::from(6));
    forest.move_subtree(parent_idx, subroot_idx)?;
    let expected = data.forest;
    assert!(forest.logical_eq(&expected));
    Ok(())
}

#[test]
fn forest_replace_subtree() -> Result<()> {
    let data = make_data()?;
    let mut forest = data.forest;

    let (target_idx, subroot_idx) = (ForestIdx::from(2), ForestIdx::from(6));
    forest.replace_subtree(target_idx, subroot_idx)?;

    assert_eq!(forest[ForestIdx::from(0)].children, [(NodeIdx(1), ()), (NodeIdx(4), ())]);
    assert_eq!(forest[ForestIdx::from(1)].children, [(NodeIdx(6), ()), (NodeIdx(3), ())]);
    assert_eq!(forest[ForestIdx::from(6)].children, [(NodeIdx(7), ()), (NodeIdx(9), ())]);
    assert_eq!(forest[ForestIdx::from(7)].children, [(NodeIdx(8), ())]);
    assert_eq!(forest[ForestIdx::from(4)].children, [(NodeIdx(5), ())]);
    assert_eq!(forest.parent_of(ForestIdx::from(0)), None);
    assert_eq!(forest.parent_of(ForestIdx::from(1)), Some(ForestIdx::from(0)));
    assert_eq!(forest.parent_of(ForestIdx::from(4)), Some(ForestIdx::from(0)));
    assert_eq!(forest.parent_of(ForestIdx::from(6)), Some(ForestIdx::from(1)));
    assert_eq!(forest.parent_of(ForestIdx::from(3)), Some(ForestIdx::from(1)));
    assert_eq!(forest.parent_of(ForestIdx::from(7)), Some(ForestIdx::from(6)));
    assert_eq!(forest.parent_of(ForestIdx::from(9)), Some(ForestIdx::from(6)));
    assert_eq!(forest.parent_of(ForestIdx::from(8)), Some(ForestIdx::from(7)));
    assert_eq!(forest.parent_of(ForestIdx::from(5)), Some(ForestIdx::from(4)));

    let (target_idx, subroot_idx) = (ForestIdx::from(4), ForestIdx::from(6));
    forest.replace_subtree(target_idx, subroot_idx)?;

    assert_eq!(forest[ForestIdx::from(0)].children, [(NodeIdx(1), ()), (NodeIdx(6), ())]);
    assert_eq!(forest[ForestIdx::from(1)].children, [(NodeIdx(3), ())]);
    assert_eq!(forest[ForestIdx::from(6)].children, [(NodeIdx(7), ()), (NodeIdx(9), ())]);
    assert_eq!(forest[ForestIdx::from(7)].children, [(NodeIdx(8), ())]);
    assert_eq!(forest.parent_of(ForestIdx::from(0)), None);
    assert_eq!(forest.parent_of(ForestIdx::from(1)), Some(ForestIdx::from(0)));
    assert_eq!(forest.parent_of(ForestIdx::from(6)), Some(ForestIdx::from(0)));
    assert_eq!(forest.parent_of(ForestIdx::from(3)), Some(ForestIdx::from(1)));
    assert_eq!(forest.parent_of(ForestIdx::from(7)), Some(ForestIdx::from(6)));
    assert_eq!(forest.parent_of(ForestIdx::from(9)), Some(ForestIdx::from(6)));
    assert_eq!(forest.parent_of(ForestIdx::from(8)), Some(ForestIdx::from(7)));

    let node02_idx = forest.add_node("");
    let node020_idx = forest.add_node("");
    let node0200_idx = forest.add_node("");
    forest.add_edge((ForestIdx::from(0), node02_idx), (), ());
    forest.add_edge((node02_idx, node020_idx), (), ());
    forest.add_edge((node020_idx, node0200_idx), (), ());

    assert_eq!(
        forest[ForestIdx::from(0)].children,
        [(NodeIdx(1), ()), (NodeIdx(6), ()), (NodeIdx(2), ())]
    );
    assert_eq!(forest[ForestIdx::from(1)].children, [(NodeIdx(3), ())]);
    assert_eq!(forest[ForestIdx::from(6)].children, [(NodeIdx(7), ()), (NodeIdx(9), ())]);
    assert_eq!(forest[ForestIdx::from(7)].children, [(NodeIdx(8), ())]);
    assert_eq!(forest[ForestIdx::from(2)].children, [(NodeIdx(5), ())]);
    assert_eq!(forest[ForestIdx::from(5)].children, [(NodeIdx(4), ())]);
    assert_eq!(forest.parent_of(ForestIdx::from(0)), None);
    assert_eq!(forest.parent_of(ForestIdx::from(1)), Some(ForestIdx::from(0)));
    assert_eq!(forest.parent_of(ForestIdx::from(6)), Some(ForestIdx::from(0)));
    assert_eq!(forest.parent_of(ForestIdx::from(2)), Some(ForestIdx::from(0)));
    assert_eq!(forest.parent_of(ForestIdx::from(3)), Some(ForestIdx::from(1)));
    assert_eq!(forest.parent_of(ForestIdx::from(7)), Some(ForestIdx::from(6)));
    assert_eq!(forest.parent_of(ForestIdx::from(9)), Some(ForestIdx::from(6)));
    assert_eq!(forest.parent_of(ForestIdx::from(8)), Some(ForestIdx::from(7)));
    assert_eq!(forest.parent_of(ForestIdx::from(5)), Some(ForestIdx::from(2)));
    assert_eq!(forest.parent_of(ForestIdx::from(4)), Some(ForestIdx::from(5)));
    Ok(())
}

#[test]
fn forest_rm_descendants_of() -> Result<()> {
    let mut data = make_data()?;
    data.forest.rm_descendants_of(ForestIdx::from(6))?;
    assert!(data.forest[ForestIdx::from(6)].children.is_empty());
    let root0_idx = data.forest.roots()[0];
    assert_eq!(
        &data.forest[root0_idx].children,
        &[(NodeIdx(1), ()), (NodeIdx(4), ()), (NodeIdx(6), ())]
    );
    Ok(())
}

#[test]
fn forest_ancestors_of() -> Result<()> {
    let data = make_data()?;
    let node_idx = ForestIdx::from(8);
    let ancestors = data.forest.ancestors_of(node_idx);
    assert_eq!(ancestors, &[ForestIdx::from(7), ForestIdx::from(6), ForestIdx::from(0)]);
    Ok(())
}

#[test]
fn forest_siblings_of() -> Result<()> {
    let data = make_data()?;
    let node_idx = ForestIdx::from(4);
    let siblings = data.forest.siblings_of(node_idx);
    assert_eq!(siblings, &[ForestIdx::from(1), ForestIdx::from(6)]);
    Ok(())
}

#[test]
fn forest_children_of() -> Result<()> {
    let data = make_data()?;
    let node_idx = ForestIdx::from(1);
    let children = data.forest.children_of(node_idx);
    assert_eq!(children, &[ForestIdx::from(2), ForestIdx::from(3)]);
    Ok(())
}

#[test]
fn forest_descendants_of() -> Result<()> {
    let data = make_data()?;
    let node_idx = ForestIdx::from(6);
    let descendants = data.forest.descendants_of(node_idx);
    assert_eq!(descendants, &[ForestIdx::from(7), ForestIdx::from(8), ForestIdx::from(9)]);
    Ok(())
}

struct Named {
    name: String,
}

/// The forest of `A`, with `B` (having `C` and `D`) and `E` (having `B`
/// again and `F`) below it.
fn shared_forest() -> (Forest<Named, (), ()>, ForestIdx) {
    let mut forest: Forest<Named, (), ()> = Forest::default();
    let node_a_idx = forest.push_root(Named { name: "A".into() });
    let node_b_idx = forest.add_node(Named { name: "B".into() });
    let node_c_idx = forest.add_node(Named { name: "C".into() });
    let node_d_idx = forest.add_node(Named { name: "D".into() });
    let node_e_idx = forest.add_node(Named { name: "E".into() });
    let node_f_idx = forest.add_node(Named { name: "F".into() });
    forest.add_edge((node_a_idx, node_b_idx), (), ());
    forest.add_edge((node_a_idx, node_e_idx), (), ());
    forest.add_edge((node_b_idx, node_c_idx), (), ());
    forest.add_edge((node_b_idx, node_d_idx), (), ());
    forest.add_edge((node_e_idx, node_b_idx), (), ());
    forest.add_edge((node_e_idx, node_f_idx), (), ());
    (forest, node_a_idx)
}

#[test]
fn dfs_base() {
    let (forest, node_a_idx) = shared_forest();
    let dfs_base: Vec<(ForestIdx, TraversalType, String)> = forest
        .dfs_base(node_a_idx)
        .into_iter()
        .map(|(ttype, fidx)| (fidx, ttype, forest[fidx].data.name.clone()))
        .collect();
    assert_eq!(&*dfs_base, &[
        (ForestIdx::from(0), TraversalType::Pre, "A".to_string()),
        (ForestIdx::from(1), TraversalType::Pre, "B".to_string()),
        (ForestIdx::from(2), TraversalType::Pre, "C".to_string()),
        (ForestIdx::from(2), TraversalType::Post, "C".to_string()),
        (ForestIdx::from(1), TraversalType::Interspersed, "B".to_string()),
        (ForestIdx::from(3), TraversalType::Pre, "D".to_string()),
        (ForestIdx::from(3), TraversalType::Post, "D".to_string()),
        (ForestIdx::from(1), TraversalType::Post, "B".to_string()),
        (ForestIdx::from(0), TraversalType::Interspersed, "A".to_string()),
        (ForestIdx::from(4), TraversalType::Pre, "E".to_string()),
        (ForestIdx::from(1), TraversalType::Pre, "B".to_string()),
        (ForestIdx::from(2), TraversalType::Pre, "C".to_string()),
        (ForestIdx::from(2), TraversalType::Post, "C".to_string()),
        (ForestIdx::from(1), TraversalType::Interspersed, "B".to_string()),
        (ForestIdx::from(3), TraversalType::Pre, "D".to_string()),
        (ForestIdx::from(3), TraversalType::Post, "D".to_string()),
        (ForestIdx::from(1), TraversalType::Post, "B".to_string()),
        (ForestIdx::from(4), TraversalType::Interspersed, "E".to_string()),
        (ForestIdx::from(5), TraversalType::Pre, "F".to_string()),
        (ForestIdx::from(5), TraversalType::Post, "F".to_string()),
        (ForestIdx::from(4), TraversalType::Post, "E".to_string()),
        (ForestIdx::from(0), TraversalType::Post, "A".to_string()),
    ]);
}

#[test]
fn dfs_pre() {
    let (forest, node_a_idx) = shared_forest();
    let dfs_pre: Vec<(ForestIdx, String)> = forest
        .dfs_pre(node_a_idx)
        .into_iter()
        .map(|fidx| (fidx, forest[fidx].data.name.to_string()))
        .collect();
    assert_eq!(&*dfs_pre, &[
        (ForestIdx::from(0), "A".to_string()),
        (ForestIdx::from(1), "B".to_string()),
        (ForestIdx::from(2), "C".to_string()),
        (ForestIdx::from(3), "D".to_string()),
        (ForestIdx::from(4), "E".to_string()),
        (ForestIdx::from(1), "B".to_string()),
        (ForestIdx::from(2), "C".to_string()),
        (ForestIdx::from(3), "D".to_string()),
        (ForestIdx::from(5), "F".to_string()),
    ]);
}

#[test]
fn dfs_post() {
    let (forest, node_a_idx) = shared_forest();
    let dfs_post: Vec<(ForestIdx, String)> = forest
        .dfs_post(node_a_idx)
        .into_iter()
        .map(|fidx| (fidx, forest[fidx].data.name.to_string()))
        .collect();
    assert_eq!(&*dfs_post, &[
        (ForestIdx::from(2), "C".to_string()),
        (ForestIdx::from(3), "D".to_string()),
        (ForestIdx::from(1), "B".to_string()),
        (ForestIdx::from(2), "C".to_string()),
        (ForestIdx::from(3), "D".to_string()),
        (ForestIdx::from(1), "B".to_string()),
        (ForestIdx::from(5), "F".to_string()),
        (ForestIdx::from(4), "E".to_string()),
        (ForestIdx::from(0), "A".to_string()),
    ]);
}

#[test]
fn forest_outline_lists_each_tree() {
    let mut forest: Forest<&str, (), ()> = Forest::default();
    let a = forest.push_root("a");
    let b = forest.add_node("b");
    let c = forest.add_node("c");
    let d = forest.push_root("d");
    forest.add_edge((a, b), (), ());
    forest.add_edge((b, c), (), ());
    assert_eq!(forest.outline(), vec![(0, a), (1, b), (2, c), (0, d)]);
    assert_eq!(a.to_string(), "0");
    assert_eq!(ForestIdx::from(1234usize).to_string(), "1234");
}

/// A root `root` with one child `child`.
fn pair_forest(root: &'static str, child: &'static str) -> Forest<&'static str, (), ()> {
    let mut forest: Forest<&str, (), ()> = Forest::default();
    let r = forest.push_root(root);
    let c = forest.add_node(child);
    forest.add_edge((r, c), (), ());
    forest
}

#[test]
fn forest_logical_order() {
    let a = pair_forest("b", "x");
    let same = pair_forest("b", "x");
    let b = pair_forest("c", "x");
    assert!(a.logical_eq(&same));
    assert_eq!(a.logical_cmp(&same), Ordering::Equal);
    assert_eq!(a.logical_partial_cmp(&same), Some(Ordering::Equal));
    assert!(!a.logical_eq(&b));
    assert_eq!(a.logical_cmp(&b), Ordering::Less);
    assert_eq!(b.logical_partial_cmp(&a), Some(Ordering::Greater));
    let mut bigger = pair_forest("a", "x");
    bigger.push_root("y");
    assert_eq!(bigger.logical_cmp(&a), Ordering::Greater);
    assert_eq!(a.logical_partial_cmp(&bigger), Some(Ordering::Less));
}

#[test]
fn forest_shared_node_orders_equal_but_is_not_equal() {
    let build = || {
        let mut forest: Forest<&str, (), ()> = Forest::default();
        let r = forest.push_root("r");
        let a = forest.add_node("a");
        let b = forest.add_node("b");
        let x = forest.add_node("x");
        forest.add_edge((r, a), (), ());
        forest.add_edge((r, b), (), ());
        forest.add_edge((a, x), (), ());
        forest.add_edge((b, x), (), ());
        forest
    };
    let (f, g) = (build(), build());
    // `x` has two parents, which equality refuses, while the order compares
    // the two equal parent lists and goes on.
    assert!(!f.logical_eq(&g));
    assert_eq!(f.logical_cmp(&g), Ordering::Equal);
}

#[test]
fn forest_equality_leaves_garbage_aside() -> Result<()> {
    let data = make_data()?;
    let f = data.forest;
    assert!(f.is_wf());
    let mut g = f.clone();
    let n = g.add_node("extra");
    g.rm_node(n)?;
    assert_eq!(g.garbage_size().get(), 1);
    assert_eq!(g.physical_size().get(), f.physical_size().get() + 1);
    assert_eq!(g.logical_size().get(), f.logical_size().get());
    assert!(f.logical_eq(&f));
    assert!(f.logical_eq(&g));
    assert!(g.logical_eq(&f));
    assert_eq!(f.logical_cmp(&g), Ordering::Equal);
    assert_eq!(f.logical_partial_cmp(&g), Some(Ordering::Equal));
    Ok(())
}

#[test]
fn forest_compares_by_logical_size_first() {
    let mut a: Forest<&str, (), ()> = Forest::default();
    let ax = a.push_root("x");
    let mut b: Forest<&str, (), ()> = Forest::default();
    let bx = b.push_root("x");
    let by = b.add_node("y");
    b.add_edge((bx, by), (), ());
    assert_eq!(a.logical_partial_cmp(&b), Some(Ordering::Less));
    assert_eq!(b.logical_partial_cmp(&a), Some(Ordering::Greater));
    assert_eq!(a.logical_cmp(&b), Ordering::Less);
    assert!(!a.logical_eq(&b));
    let mut c: Forest<&str, (), ()> = Forest::default();
    c.push_root("a");
    let mut d: Forest<&str, (), ()> = Forest::default();
    d.push_root("b");
    assert_eq!(c.logical_partial_cmp(&d), Some(Ordering::Less));
    assert_eq!(d.logical_partial_cmp(&c), Some(Ordering::Greater));
    assert_eq!(d.logical_cmp(&c), Ordering::Greater);
    assert_eq!(a.logical_partial_cmp(&a.clone()), Some(Ordering::Equal));
    assert_eq!(ax, ForestIdx::from(0));
}

#[test]
fn forest_forced_rm_subtree_removes_every_node() -> Result<()> {
    let mut data = make_data()?;
    let before = data.forest.garbage_size().get();
    let removed = data.forest.dfs_pre(ForestIdx::from(6));
    data.forest.rm_subtree(ForestIdx::from(6), true)?;
    for x in &removed {
        assert!(data.forest[*x].parents.is_empty());
        assert!(data.forest[*x].children.is_empty());
        assert!(!data.forest.roots().contains(x));
    }
    assert_eq!(data.forest.garbage_size().get(), before + removed.len());
    assert!(data.forest.is_wf());
    Ok(())
}

#[test]
fn forest_rm_subtree_of_a_whole_tree_removes_it() -> Result<()> {
    let mut data = make_data()?;
    let root1 = data.roots[1];
    let removed = data.forest.dfs_pre(root1);
    assert_eq!(removed.len(), 10);
    data.forest.rm_subtree(root1, false)?;
    for x in &removed {
        assert!(data.forest[*x].parents.is_empty());
        assert!(data.forest[*x].children.is_empty());
    }
    assert_eq!(data.forest.roots(), vec![data.roots[0]]);
    assert_eq!(data.forest.garbage_size().get(), 10);
    assert_eq!(data.forest.logical_size().get(), 10);
    data.forest.rm_subtree(root1, false)?;
    assert_eq!(data.forest.garbage_size().get(), 10);
    Ok(())
}
