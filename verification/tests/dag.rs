use arenatree::dag::ArenaDag;
use arenatree::{Error, NodeIdx, Result};

#[derive(Clone, Debug, Default, PartialEq)]
struct Dataless;

/// Two sub-DAGs: `0 -> {1, 2}` and `3 -> {4, 5, 6}`.
fn two_subdags() -> Result<ArenaDag<Dataless>> {
    let mut dag = ArenaDag::<Dataless>::new();
    let root0_idx = dag.add_node(&[])?;
    dag.add_node(&[root0_idx])?;
    dag.add_node(&[root0_idx])?;
    let root3_idx = dag.add_node(&[])?;
    dag.add_node(&[root3_idx])?;
    dag.add_node(&[root3_idx])?;
    dag.add_node(&[root3_idx])?;
    Ok(dag)
}

#[test]
fn merge_subdags() -> Result<()> {
    let mut dag = ArenaDag::<Dataless>::new();
    // subtree 0:
    let root0_idx = dag.add_node(&[])?;
    let child1_idx = dag.add_node(&[root0_idx])?;
    let child2_idx = dag.add_node(&[root0_idx])?;
    // subtree 1:
    let root3_idx = dag.add_node(&[])?;
    let child4_idx = dag.add_node(&[root3_idx])?;
    let child5_idx = dag.add_node(&[root3_idx])?;
    let child6_idx = dag.add_node(&[root3_idx])?;
    let parent_idx = dag.merge_subdags(Dataless, &[root0_idx, root3_idx])?;

    assert_eq!(parent_idx, NodeIdx(7));
    assert_eq!(dag[parent_idx].children, vec![root0_idx, root3_idx]);
    assert!(dag[parent_idx].parents.is_empty());
    assert_eq!(dag[root0_idx].parents, vec![parent_idx]);
    assert_eq!(dag[root3_idx].parents, vec![parent_idx]);
    assert_eq!(dag[root0_idx].children, vec![child1_idx, child2_idx]);
    assert_eq!(dag[root3_idx].children, vec![child4_idx, child5_idx, child6_idx]);
    assert_eq!(
        dag.dfs(parent_idx),
        vec![parent_idx, root0_idx, child1_idx, child2_idx, root3_idx, child4_idx, child5_idx, child6_idx]
    );
    assert_eq!(
        dag.bfs(parent_idx),
        vec![parent_idx, root0_idx, root3_idx, child1_idx, child2_idx, child4_idx, child5_idx, child6_idx]
    );
    assert!(dag.ensure_no_cycles().is_ok());
    Ok(())
}

#[test]
fn merge_subdags_refuses_a_child_with_parents() -> Result<()> {
    let mut dag = two_subdags()?;
    let before = dag.physical_size();
    let r = dag.merge_subdags(Dataless, &[NodeIdx(0), NodeIdx(1)]);
    assert_eq!(r, Err(Error::ExpectedRootNode(NodeIdx(1))));
    assert_eq!(dag.physical_size(), before);
    assert!(dag[NodeIdx(0)].parents.is_empty());
    Ok(())
}

#[test]
fn dag_add_node_links_both_ways() -> Result<()> {
    let mut dag = ArenaDag::<Dataless>::new();
    let a = dag.add_node(&[])?;
    let b = dag.add_node(&[])?;
    let c = dag.add_node(&[a, b, a])?;
    assert_eq!(dag[c].parents, vec![a, b]);
    assert_eq!(dag[a].children, vec![c]);
    assert_eq!(dag[b].children, vec![c]);
    assert_eq!(dag[c].layer, 1);
    let d = dag.add_node(&[c, a])?;
    assert_eq!(dag[d].layer, 2);
    assert_eq!(dag.roots_iter(), vec![a, b]);
    assert_eq!(dag.roots().len(), 2);
    assert_eq!(dag.logical_size().get(), 4);
    Ok(())
}

#[test]
fn dag_node_kind_errors() -> Result<()> {
    let dag = two_subdags()?;
    let root0 = NodeIdx(0);
    let child1 = NodeIdx(1);
    assert_eq!(dag.ensure_node_is_root(root0), Ok(()));
    assert_eq!(dag.ensure_node_is_root(child1), Err(Error::ExpectedRootNode(child1)));
    assert_eq!(dag.ensure_node_is_leaf(child1), Ok(()));
    assert_eq!(dag.ensure_node_is_leaf(root0), Err(Error::ExpectedLeafNode(root0)));
    assert_eq!(dag.ensure_node_is_branch(root0), Ok(()));
    assert_eq!(dag.ensure_node_is_branch(child1), Err(Error::ExpectedBranchNode(child1)));
    assert!(dag[root0].is_root_node() && dag[root0].is_branch_node());
    assert!(dag[child1].is_leaf_node() && !dag[child1].is_root_node());
    assert_eq!(dag[root0].child_ordinal(NodeIdx(2)), Some(1));
    assert_eq!(dag[root0].child_ordinal(NodeIdx(4)), None);
    assert_eq!(dag[NodeIdx(2)].parent_ordinal(root0), Some(0));
    Ok(())
}

#[test]
fn dag_reachability() -> Result<()> {
    let mut dag = two_subdags()?;
    let top = dag.merge_subdags(Dataless, &[NodeIdx(0), NodeIdx(3)])?;
    assert!(dag.is_reachable(top, NodeIdx(6)));
    assert!(dag.is_reachable(NodeIdx(3), NodeIdx(3)));
    assert!(!dag.is_reachable(NodeIdx(0), NodeIdx(4)));
    assert!(!dag.is_reachable(NodeIdx(1), top));
    assert_eq!(dag.descendants_of(NodeIdx(3)), vec![NodeIdx(4), NodeIdx(5), NodeIdx(6)]);
    Ok(())
}

#[test]
fn dag_shared_child_is_listed_once_per_path() -> Result<()> {
    let mut dag = ArenaDag::<Dataless>::new();
    let a = dag.add_node(&[])?;
    let b = dag.add_node(&[a])?;
    let c = dag.add_node(&[a])?;
    let d = dag.add_node(&[b, c])?;
    assert_eq!(dag.dfs(a), vec![a, b, d, c, d]);
    assert_eq!(dag.bfs(a), vec![a, b, c, d, d]);
    assert!(dag.ensure_no_cycles().is_ok());
    Ok(())
}

#[test]
fn remove_subdag_recycles_nodes() -> Result<()> {
    let mut dag = two_subdags()?;
    dag.remove_subdag(NodeIdx(3))?;
    assert_eq!(dag.garbage_size().get(), 4);
    assert_eq!(dag.physical_size().get(), 7);
    assert_eq!(dag.logical_size().get(), 3);
    assert!(dag[NodeIdx(3)].children.is_empty());
    // Slots are handed out again in the order they were recycled: the
    // deepest, rightmost node first.
    let again = dag.add_node(&[NodeIdx(0)])?;
    assert_eq!(again, NodeIdx(6));
    assert_eq!(dag[NodeIdx(0)].children, vec![NodeIdx(1), NodeIdx(2), NodeIdx(6)]);
    assert_eq!(dag.garbage_size().get(), 3);
    Ok(())
}

#[test]
fn remove_subdag_with_a_shared_node() -> Result<()> {
    let mut dag = ArenaDag::<Dataless>::new();
    let a = dag.add_node(&[])?;
    let b = dag.add_node(&[a])?;
    let c = dag.add_node(&[a])?;
    let d = dag.add_node(&[b, c])?;
    assert_eq!(dag.dfs(a), vec![a, b, d, c, d]);
    // Pre-order lists `d` once per path, so in reverse pre-order
    // `d, c, d, b, a` the shared node is visited a second time, but it is
    // queued as garbage only once.
    let r = dag.remove_subdag(a);
    assert_eq!(r, Ok(()));
    assert_eq!(dag.garbage_size().get(), 4);
    assert_eq!(dag.logical_size().get(), 0);
    for x in [a, b, c, d] {
        assert!(dag[x].parents.is_empty() && dag[x].children.is_empty());
        assert_eq!(dag[x].layer, 0);
    }
    assert!(dag[d].parents.is_empty());
    assert!(dag[a].children.is_empty());
    assert!(dag[c].parents.is_empty());
    Ok(())
}

#[test]
fn dag_node_that_is_its_own_parent_is_a_cycle() -> Result<()> {
    let mut dag = ArenaDag::<Dataless>::new();
    let x = dag.add_node(&[NodeIdx(0)])?;
    assert_eq!(x, NodeIdx(0));
    assert_eq!(dag[x].parents, vec![x]);
    assert_eq!(dag[x].children, vec![x]);
    assert_eq!(dag[x].layer, 1);
    assert!(dag.roots().is_empty());
    assert_eq!(dag.ensure_no_cycles(), Err(Error::CycleDetected { path: vec![x, x] }));
    assert!(dag.is_reachable(x, x));
    Ok(())
}

#[test]
fn dag_reused_slot_starts_cleared() -> Result<()> {
    let mut dag = ArenaDag::<u8>::new();
    let a = dag.add_node(&[])?;
    let b = dag.add_node(&[a])?;
    let c = dag.add_node(&[b])?;
    assert_eq!(dag.remove_subdag(b), Ok(()));
    assert_eq!(dag.garbage_size().get(), 2);
    assert!(dag[a].children.is_empty());
    let d = dag.add_node(&[a, a])?;
    assert_eq!(d, c);
    assert_eq!(dag[d].data, 0);
    assert_eq!(dag[d].parents, vec![a]);
    assert!(dag[d].children.is_empty());
    assert_eq!(dag[d].layer, 1);
    assert_eq!(dag[a].children, vec![d]);
    let e = dag.add_root()?;
    assert_eq!(e, b);
    assert!(dag[e].parents.is_empty() && dag[e].children.is_empty());
    assert_eq!(dag.garbage_size().get(), 0);
    let m = dag.merge_subdags(7, &[e])?;
    assert_eq!(m, NodeIdx(3));
    assert_eq!(dag[m].data, 7);
    assert!(dag[m].parents.is_empty());
    assert_eq!(dag[m].children, vec![e]);
    assert_eq!(dag[e].parents, vec![m]);
    Ok(())
}
