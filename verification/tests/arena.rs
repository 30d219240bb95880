use arenatree::arena::Arena;
use arenatree::{Error, NodeIdx, Result};

fn n(i: usize) -> NodeIdx {
    NodeIdx(i)
}

/// `0 -> {1 -> 2, 3}`, with edge data naming the edge.
fn small_arena() -> Arena<&'static str, &'static str, &'static str> {
    let mut arena: Arena<&'static str, &'static str, &'static str> = Arena::default();
    for name in ["a", "b", "c", "d"] {
        arena.add_node(name);
    }
    arena.add_edge((n(0), n(1)), "b^a", "a_b");
    arena.add_edge((n(1), n(2)), "c^b", "b_c");
    arena.add_edge((n(0), n(3)), "d^a", "a_d");
    arena
}

#[test]
fn arena_link_then_unlink_restores_the_nodes() -> Result<()> {
    let mut arena = small_arena();
    arena.add_edge((n(3), n(2)), "c^d", "d_c");
    assert_eq!(arena.parents_of(n(2)), vec![n(1), n(3)]);
    assert_eq!(*arena.parent_edge(n(2), n(3)).expect("parent edge").data, "c^d");
    assert_eq!(*arena.child_edge(n(3), n(2)).expect("child edge").data, "d_c");
    assert_eq!(arena.rm_edge(n(3), n(2))?, ("c^d", "d_c"));
    assert_eq!(arena.parents_of(n(2)), vec![n(1)]);
    assert_eq!(arena.children_of(n(3)), Vec::<NodeIdx>::new());
    assert!(arena.parent_edge(n(2), n(3)).is_none());
    Ok(())
}

#[test]
fn arena_rm_edge_that_is_not_there() {
    let mut arena = small_arena();
    assert_eq!(arena.rm_edge(n(3), n(2)), Err(Error::ChildNotFound { node_idx: n(3), child_idx: n(2) }));
    assert_eq!(arena.children_of(n(3)), Vec::<NodeIdx>::new());
    assert_eq!(arena.rm_edges(&[n(0)], &[n(1), n(2)]), Err(Error::ChildNotFound { node_idx: n(0), child_idx: n(2) }));
    // The edge to `1` went before the error.
    assert_eq!(arena.children_of(n(0)), vec![n(3)]);
}

#[test]
fn arena_insert_edge_at_positions() {
    let mut arena = small_arena();
    let e = arena.add_node("e");
    arena.insert_edge((n(0), "e^a", Some(0)), (e, "a_e", Some(1)));
    assert_eq!(arena.children_of(n(0)), vec![n(1), e, n(3)]);
    assert_eq!(arena.parents_of(e), vec![n(0)]);
    arena.insert_edge((n(1), "e^b", None), (e, "b_e", None));
    assert_eq!(arena.parents_of(e), vec![n(0), n(1)]);
    assert_eq!(arena.children_of(n(1)), vec![n(2), e]);
}

#[test]
fn arena_rm_node_recycles_the_subtree() -> Result<()> {
    let mut arena = small_arena();
    assert_eq!(arena.rm_node(n(99)), Err(Error::NodeNotFound(n(99))));
    arena.rm_node(n(1))?;
    assert_eq!(arena.garbage_size().get(), 2);
    assert_eq!(arena.logical_size().get(), 2);
    assert_eq!(arena.children_of(n(0)), vec![n(3)]);
    // Slots come back in the order they were recycled: leaves first.
    assert_eq!(arena.add_node("c again"), n(2));
    assert_eq!(arena.node(n(2)).data, "c again");
    assert_eq!(arena[n(2)].idx, n(2));
    assert!(arena.node(n(2)).parent_idxs().is_empty());
    assert_eq!(arena.add_node("b again"), n(1));
    assert_eq!(arena.add_node("new"), n(4));
    assert_eq!(arena.physical_size().get(), 5);
    Ok(())
}

#[test]
fn arena_rm_orphan_node_keeps_shared_nodes() -> Result<()> {
    let mut arena = small_arena();
    arena.add_edge((n(3), n(2)), "c^d", "d_c");
    arena.rm_orphan_node(n(1))?;
    // `1` still has its parent `0`, so it is skipped, and so is `2`.
    assert_eq!(arena.garbage_size().get(), 0);
    arena.rm_edge(n(0), n(1))?;
    arena.rm_orphan_node(n(1))?;
    // Now `1` is an orphan: it goes, its edge to `2` with it; `2` keeps its
    // parent `3` and stays.
    assert_eq!(arena.garbage_size().get(), 1);
    assert_eq!(arena.parents_of(n(2)), vec![n(3)]);
    Ok(())
}

#[test]
fn arena_traversals() {
    let arena = small_arena();
    assert_eq!(arena.dfs(n(0)), vec![n(0), n(1), n(2), n(3)]);
    assert_eq!(arena.dfs_pre(n(0)), vec![n(0), n(1), n(2), n(3)]);
    assert_eq!(arena.dfs_post(n(0)), vec![n(2), n(1), n(3), n(0)]);
    assert_eq!(arena.bfs(n(0)), vec![n(0), n(1), n(3), n(2)]);
    assert_eq!(arena.ancestors_of(n(2)), vec![n(1), n(0)]);
    assert_eq!(arena.self_or_ancestors_of(n(2)), vec![n(2), n(1), n(0)]);
    assert_eq!(arena.siblings_of(n(1)), vec![n(3)]);
    assert_eq!(arena.self_or_siblings_of(n(1)), vec![n(1), n(3)]);
    assert_eq!(arena.descendants_of(n(0)), vec![n(1), n(2), n(3)]);
    assert_eq!(arena.self_or_descendants_of(n(1)), vec![n(1), n(2)]);
}

#[test]
fn arena_clear_recycles_every_live_node() -> Result<()> {
    let mut arena: Arena<u8, (), ()> = Arena::with_capacity(2);
    let a = arena.add_node(1);
    arena.add_node(2);
    arena.clear()?;
    assert_eq!(arena.garbage_size().get(), 2);
    assert_eq!(arena.logical_size().get(), 0);
    assert_eq!(arena.add_node(3), a);
    Ok(())
}

#[test]
fn node_idx_display_and_offsets() {
    assert_eq!(n(0).to_string(), "0");
    assert_eq!(n(9).to_string(), "9");
    assert_eq!(n(10).to_string(), "10");
    assert_eq!(n(907).to_string(), "907");
    assert_eq!(n(usize::MAX).to_string(), usize::MAX.to_string());
    assert_eq!(n(5) + 3, n(8));
    assert_eq!(n(5) - 5, n(0));
}

#[test]
fn arena_clear_queues_linked_nodes_once() -> Result<()> {
    let mut arena: Arena<u8, u8, u8> = Arena::with_capacity(4);
    let x = arena.add_node(0);
    let y = arena.add_node(1);
    arena.add_edge((x, y), 2, 3);
    arena.clear()?;
    assert_eq!(arena.garbage_size().get(), 2);
    assert_eq!(arena.physical_size().get(), 2);
    assert_eq!(arena.logical_size().get(), 0);
    assert!(arena[x].parents.is_empty() && arena[x].children.is_empty());
    assert!(arena[y].parents.is_empty() && arena[y].children.is_empty());
    Ok(())
}

#[test]
fn arena_rm_node_twice_queues_once() -> Result<()> {
    let mut arena = small_arena();
    arena.rm_node(n(1))?;
    assert_eq!(arena.garbage_size().get(), 2);
    arena.rm_node(n(1))?;
    assert_eq!(arena.garbage_size().get(), 2);
    assert_eq!(arena.logical_size().get(), 2);
    assert_eq!(arena.dfs_pre(n(0)), vec![n(0), n(3)]);
    arena.add_garbage(n(2));
    assert_eq!(arena.garbage_size().get(), 2);
    Ok(())
}

#[test]
fn arena_is_wf_checks_every_rule() {
    let arena = small_arena();
    assert!(arena.is_wf());
    let (nodes, mut garbage) = small_arena().into_parts();
    garbage.push_back(n(2));
    garbage.push_back(n(2));
    assert!(!Arena::from_parts(nodes, garbage).is_wf());
    let (mut nodes, garbage) = small_arena().into_parts();
    nodes[3].parents.clear();
    assert!(!Arena::from_parts(nodes, garbage).is_wf());
    let (mut nodes, garbage) = small_arena().into_parts();
    nodes[1].children.push((n(9), "b_x"));
    assert!(!Arena::from_parts(nodes, garbage).is_wf());
    let (mut nodes, garbage) = small_arena().into_parts();
    nodes[2].idx = n(5);
    assert!(!Arena::from_parts(nodes, garbage).is_wf());
    let (nodes, mut garbage) = small_arena().into_parts();
    garbage.push_back(n(4));
    assert!(!Arena::from_parts(nodes, garbage).is_wf());
}

#[test]
fn arena_rm_edges_removes_one_edge_per_pair() -> Result<()> {
    let mut arena = small_arena();
    arena.add_edge((n(0), n(1)), "b^a again", "a_b again");
    arena.rm_edges(&[n(0)], &[n(1), n(3)])?;
    assert_eq!(arena[n(0)].children, vec![(n(1), "a_b again")]);
    assert_eq!(arena[n(1)].parents, vec![(n(0), "b^a again")]);
    assert!(arena[n(3)].parents.is_empty());
    assert_eq!(arena[n(1)].children, vec![(n(2), "b_c")]);
    assert!(arena.is_wf());
    Ok(())
}

#[test]
fn arena_rm_orphan_node_keeps_an_owned_subtree() -> Result<()> {
    let mut arena = small_arena();
    let before_parents: Vec<usize> = (0..4).map(|i| arena[n(i)].parents.len()).collect();
    arena.rm_orphan_node(n(1))?;
    let after_parents: Vec<usize> = (0..4).map(|i| arena[n(i)].parents.len()).collect();
    assert_eq!(before_parents, after_parents);
    assert_eq!(arena.garbage_size().get(), 0);
    assert_eq!(arena.dfs_pre(n(0)), vec![n(0), n(1), n(2), n(3)]);
    arena.rm_orphan_node(n(0))?;
    assert_eq!(arena.garbage_size().get(), 4);
    assert!(arena.is_wf());
    Ok(())
}

#[test]
fn arena_rm_edges_keeps_other_edges() -> Result<()> {
    let mut arena = small_arena();
    arena.rm_edges(&[n(0), n(1)], &[n(3)]).unwrap_err();
    assert!(arena[n(3)].parents.is_empty());
    assert_eq!(arena[n(0)].children, vec![(n(1), "a_b")]);
    assert_eq!(arena[n(1)].children, vec![(n(2), "b_c")]);
    assert_eq!(arena[n(2)].parents, vec![(n(1), "c^b")]);
    Ok(())
}
