use arenatree::arena::Arena;
use arenatree::forest::Forest;
use arenatree::graphviz::{
    DotAttrs, DotEdge, DotGraph, DotNode, DotOverlap, DotRankDir, DotRankStmt, DotStmt, DotStyle, DotSubGraph,
};
use arenatree::NodeIdx;

fn label(text: &str) -> DotAttrs {
    DotAttrs { label: Some(text.to_string()), ..DotAttrs::default() }
}

#[test]
fn dot_attrs_in_their_fixed_order() {
    assert_eq!(DotAttrs::default().to_string(), "");
    let two = DotAttrs {
        label: Some("flippity\nfloppity".to_string()),
        color: Some("darkred".to_string()),
        ..DotAttrs::default()
    };
    assert_eq!(two.to_string(), "label=\"flippity\nfloppity\", color=\"darkred\"");
    let all = DotAttrs {
        label: Some("L".to_string()),
        shape: Some("box".to_string()),
        color: Some("red".to_string()),
        fontcolor: Some("blue".to_string()),
        decorate: Some(()),
        fontsize: Some(12),
        height: Some(3),
        width: Some(40),
        style: Some(DotStyle::Filled),
        fillcolor: Some("gray".to_string()),
    };
    assert_eq!(
        all.to_string(),
        "label=\"L\", shape=box, color=\"red\", fontcolor=blue, decorate=true, fontsize=12, height=3, width=40, \
         style=filled, fillcolor=gray"
    );
    let only_style = DotAttrs { style: Some(DotStyle::default()), ..DotAttrs::default() };
    assert_eq!(only_style.to_string(), "style=solid");
}

#[test]
fn dot_statements() {
    let node = DotNode { idx: NodeIdx(0), attrs: label("A") };
    assert_eq!(node.to_string(), "0 [label=\"A\"]");
    let edge = DotEdge { src: NodeIdx(24), dst: NodeIdx(25), attrs: DotAttrs::default() };
    assert_eq!(edge.to_string(), "24 -> 25 []");
    assert_eq!(DotStmt::from(node.clone()).to_string(), "0 [label=\"A\"];");
    assert_eq!(DotStmt::from(edge).to_string(), "24 -> 25 [];");
    assert_eq!(DotStmt::from(DotOverlap::Scale).to_string(), "overlap=scale;");
    assert_eq!(DotStmt::from(2usize).to_string(), "ranksep=2;");
    let rank = DotStmt::Rank { rank: DotRankStmt::Same, nodes: vec![NodeIdx(1), NodeIdx(12)] };
    assert_eq!(rank.to_string(), "rank=same; 1; 12;");
    let mut cluster = DotSubGraph { is_cluster: true, bgcolor: Some("white".to_string()), stmts: vec![] };
    cluster.add(node);
    assert_eq!(cluster.to_string(), "subgraph cluster {  bgcolor=\"white\";  0 [label=\"A\"];;}");
    let plain = DotSubGraph { is_cluster: false, bgcolor: None, stmts: vec![DotStmt::from(DotOverlap::Scale)] };
    assert_eq!(DotStmt::from(plain).to_string(), "subgraph  {  overlap=scale;;}");
}

#[test]
fn dot_graph_source() {
    let mut graph = DotGraph::new();
    assert_eq!(graph.rankdir, Some(DotRankDir::TopToBottom));
    graph.add(DotEdge { src: NodeIdx(0), dst: NodeIdx(1), attrs: DotAttrs::default() });
    assert_eq!(graph.to_string(), "digraph {\n  bgcolor=\"#3c3c3c\";\n  rankdir=TB;\n  0 -> 1 [];\n}\n");
    let bare = DotGraph { bgcolor: None, rankdir: Some(DotRankDir::LeftToRight), stmts: vec![] };
    assert_eq!(bare.to_string(), "digraph {\n  rankdir=LR;\n}\n");
    assert_eq!(DotGraph::default().stmts.len(), 0);
}

#[test]
fn arena_graph_lists_nodes_then_their_edges() {
    let mut arena: Arena<&str, &str, &str> = Arena::default();
    let a = arena.add_node("a");
    let b = arena.add_node("b");
    arena.add_edge((a, b), "up", "down");
    let graph = arena.to_graphviz_graph(a, |d: &&str| d.to_string(), |p: &&str| p.to_string(), |c: &&str| c.to_string());
    assert_eq!(
        graph.to_string(),
        "digraph {\n  bgcolor=\"#3c3c3c\";\n  rankdir=TB;\n  0 [label=\"a\"];\n  \
         0 -> 1 [label=\"down\", color=\"#36454F\"];\n  1 [label=\"b\"];\n  \
         1 -> 0 [label=\"up\", color=\"purple\"];\n}\n"
    );
}

#[test]
fn forest_graph_of_one_tree() {
    let mut forest: Forest<u32, (), ()> = Forest::default();
    let r = forest.push_root(7);
    let c = forest.add_node(8);
    forest.add_edge((r, c), (), ());
    let graph = forest.to_graphviz_graph(c, |d: &u32| format!("n{d}"), |_: &()| String::new(), |_: &()| String::new());
    assert_eq!(
        graph.to_string(),
        "digraph {\n  bgcolor=\"#3c3c3c\";\n  rankdir=TB;\n  1 [label=\"n8\"];\n  \
         1 -> 0 [label=\"\", color=\"purple\"];\n}\n"
    );
}

#[test]
fn dot_copies_display_the_same() {
    let mut inner = DotSubGraph { is_cluster: true, bgcolor: Some("white".to_string()), stmts: vec![] };
    inner.add(DotNode { idx: NodeIdx(3), attrs: label("c") });
    inner.add(DotStmt::Rank { rank: DotRankStmt::Min, nodes: vec![NodeIdx(3)] });
    let mut graph = DotGraph::new();
    graph.add(inner.clone());
    graph.add(DotEdge { src: NodeIdx(3), dst: NodeIdx(4), attrs: label("e") });
    let copy = graph.clone();
    assert_eq!(copy.to_string(), graph.to_string());
    assert_eq!(inner.clone().to_string(), inner.to_string());
    assert_eq!(copy, graph);
}
