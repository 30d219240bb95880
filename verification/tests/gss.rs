use arenatree::gss::{Gss, StackIdx, StackPath};
use arenatree::{Error, NodeIdx, Result};

fn s(i: usize) -> StackIdx {
    StackIdx(NodeIdx(i))
}

/// The stack of the `stack_paths` documentation:
/// ``` text
///          /--4--\
/// 0--1--2--3      6--7--8
///       \  \--5--/  /
///        \---------/
/// ```
fn branching_stack() -> Result<Gss<usize, &'static str>> {
    let mut gss: Gss<usize, &'static str> = Gss::default();
    let n0 = gss.push(None, 0)?;
    let n1 = gss.push(Some((n0, "0-1")), 1)?;
    let n2 = gss.push(Some((n1, "1-2")), 2)?;
    let n3 = gss.push(Some((n2, "2-3")), 3)?;
    let n4 = gss.push(Some((n3, "3-4")), 4)?;
    let n5 = gss.push(Some((n3, "3-5")), 5)?;
    let n6 = gss.push(Some((n4, "4-6")), 6)?;
    gss.add_edge(n6, n5, "5-6");
    let n7 = gss.push(Some((n6, "6-7")), 7)?;
    gss.add_edge(n7, n2, "2-7");
    gss.push(Some((n7, "7-8")), 8)?;
    Ok(gss)
}

#[test]
fn stack_paths_of_the_documented_example() -> Result<()> {
    let gss = branching_stack()?;
    let paths: Vec<Vec<StackIdx>> = gss.stack_paths(s(7), 3).iter().map(|p| p.nodes()).collect();
    assert_eq!(
        paths,
        vec![
            vec![s(7), s(6), s(4), s(3)],
            vec![s(7), s(6), s(5), s(3)],
            vec![s(7), s(2), s(1), s(0)],
        ]
    );
    for p in gss.stack_paths(s(7), 3) {
        assert_eq!(p.edges().len(), 3);
    }
    Ok(())
}

#[test]
fn stack_paths_stop_where_the_stack_ends() -> Result<()> {
    let gss = branching_stack()?;
    // Below `3` the stack is `2, 1, 0`, three edges deep: no path of four
    // edges starts at `3`.
    assert!(gss.stack_paths(s(3), 4).is_empty());
    let zero: Vec<Vec<StackIdx>> = gss.stack_paths(s(5), 0).iter().map(|p| p.nodes()).collect();
    assert_eq!(zero, vec![vec![s(5)]]);
    Ok(())
}

#[test]
fn push_then_pop_restores_the_tops() -> Result<()> {
    let mut gss: Gss<&'static str, u32> = Gss::default();
    let bottom = gss.push(None, "bottom")?;
    assert_eq!(bottom, StackIdx::root());
    assert_eq!(gss.tops(), vec![bottom]);
    let top = gss.push(Some((bottom, 7)), "top")?;
    assert_eq!(gss.tops(), vec![top]);
    assert_eq!(gss[top].parent_idxs(), vec![NodeIdx(0)]);
    let (data, edges) = gss.pop(top)?;
    assert_eq!(data, "top");
    assert_eq!(edges, vec![7]);
    // The popped node's slot is garbage now, and `bottom` has no child left.
    assert_eq!(gss[bottom].count_children(), 0);
    assert_eq!(gss.tops(), vec![top]);
    Ok(())
}

#[test]
fn pop_of_a_node_that_is_not_a_top() -> Result<()> {
    let mut gss = branching_stack()?;
    assert_eq!(gss.pop(s(3)), Err(Error::ExpectedGssTop(NodeIdx(3))));
    // Pushing `6` onto `4` made `4` stop being a top; linking `6` to `5`
    // afterwards left `5` a top, though it has a child now.
    assert_eq!(gss.tops(), vec![s(5), s(8)]);
    assert_eq!(gss.pop(s(5)), Err(Error::ExpectedGssTop(NodeIdx(5))));
    let (data, edges) = gss.pop(s(8))?;
    assert_eq!(data, 8);
    assert_eq!(edges, vec!["7-8"]);
    Ok(())
}

#[test]
fn gss_edges_carry_their_data() -> Result<()> {
    let mut gss = branching_stack()?;
    let e = gss.edge(s(7), s(2)).expect("edge 7 -> 2");
    assert_eq!((e.src, e.dst, *e.data), (s(7), s(2), "2-7"));
    assert!(gss.edge(s(7), s(3)).is_none());
    let data: Vec<&str> = gss.parent_edges(s(6)).iter().map(|e| *e.data).collect();
    assert_eq!(data, vec!["4-6", "5-6"]);
    if let Some(e) = gss.edge_mut(s(6), s(5)) {
        *e.data = "changed";
    }
    assert_eq!(*gss.edge(s(6), s(5)).expect("edge 6 -> 5").data, "changed");
    assert_eq!(gss.bfs(s(3)), vec![s(3), s(4), s(5), s(6), s(6), s(7), s(7), s(8), s(8)]);
    Ok(())
}

#[test]
fn gss_clear_empties_it() -> Result<()> {
    let mut gss: Gss<u8, u8> = Gss::with_capacity(4);
    assert!(gss.is_empty());
    gss.push(None, 1)?;
    assert!(!gss.is_empty());
    gss.clear()?;
    assert!(gss.is_empty());
    assert!(gss.tops().is_empty());
    let mut branching = branching_stack()?;
    branching.clear()?;
    assert!(branching.tops().is_empty());
    Ok(())
}

#[test]
fn stack_path_ends_and_edges() {
    let p = StackPath::new().append(s(5)).append(s(3)).prepend(s(6));
    assert_eq!(p.head(), Some(s(6)));
    assert_eq!(p.tail(), Some(s(3)));
    assert_eq!(p.nodes(), vec![s(6), s(5), s(3)]);
    assert_eq!(p.edges(), vec![(s(6), s(5)), (s(5), s(3))]);
    assert!(p.contains_node(s(5)));
    assert!(!p.contains_node(s(4)));
    assert!(p.contains_edge((s(5), s(3))));
    assert!(!p.contains_edge((s(3), s(5))));
    let listed: Vec<StackIdx> = p.clone().into_iter().collect();
    assert_eq!(listed, vec![s(6), s(5), s(3)]);
    assert_eq!(StackPath::new().head(), None);
    assert_eq!(StackIdx::from(4usize), s(4));
    assert_eq!(*s(4), NodeIdx(4));
}

#[test]
fn stack_path_display() {
    assert_eq!(s(12).to_string(), "StackIdx(12)");
    let p = StackPath::new().append(s(7)).append(s(6)).append(s(40));
    assert_eq!(p.to_string(), "StackIdx(7)->StackIdx(6)->StackIdx(40)");
    assert_eq!(StackPath::new().to_string(), "");
    assert_eq!(StackPath::new().append(s(0)).to_string(), "StackIdx(0)");
}

#[test]
fn gss_clear_of_a_two_node_stack_leaves_it_empty() -> Result<()> {
    let mut gss: Gss<u8, u8> = Gss::default();
    let a = gss.push(None, 0)?;
    gss.push(Some((a, 1)), 2)?;
    gss.clear()?;
    assert!(gss.is_empty());
    assert!(gss.tops().is_empty());
    Ok(())
}

#[test]
fn gss_pop_then_push_reuses_a_clean_slot() -> Result<()> {
    let mut gss: Gss<u8, u8> = Gss::default();
    let a = gss.push(None, 0)?;
    let b = gss.push(Some((a, 1)), 2)?;
    let (d, es) = gss.pop(b)?;
    assert_eq!((d, es), (2, vec![1]));
    assert!(!gss.is_empty());
    assert!(gss[a].children.is_empty());
    let c = gss.push(Some((a, 5)), 6)?;
    assert_eq!(c, b);
    assert_eq!(gss[c].data, 6);
    assert_eq!(gss[c].parents, vec![(a.0, 5)]);
    assert!(gss[c].children.is_empty());
    Ok(())
}
