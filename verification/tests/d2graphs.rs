use arenatree::d2graphs::{D2Direction, D2Edge, D2EdgeProps, D2EdgeStyle, D2Graph, D2Node, D2NodeId};
use arenatree::NodeIdx;

fn node(id: usize, text: &str) -> D2Node {
    D2Node { id: D2NodeId(id), text: text.to_string() }
}

fn edge(src: usize, dst: usize, label: Option<&str>, style: Option<Option<&str>>) -> D2Edge {
    D2Edge {
        src: D2NodeId(src),
        dst: D2NodeId(dst),
        props: D2EdgeProps {
            label: label.map(|l| l.to_string()),
            style: style.map(|s| D2EdgeStyle { stroke: s.map(|t| t.to_string()) }),
        },
    }
}

#[test]
fn d2_source_of_a_small_graph() {
    let mut g = D2Graph::default();
    g.direction = D2Direction::Right;
    g.add_node(node(12, "twelve"));
    g.add_node(node(1, "one"));
    g.add_edge(edge(12, 1, Some("back"), Some(Some("red"))));
    g.add_edge(edge(1, 12, None, None));
    g.add_edge(edge(1, 12, Some("plain"), Some(None)));
    assert_eq!(
        g.to_d2_graph(),
        "direction: right\n\
         \n\
         1: one\n\
         12: twelve\n\
         \n\
         1->12: {\n\
         }\n\
         1->12: {\n    label: plain\n\
         }\n\
         12->1: {\n    label: back\n    style.stroke: red\n\
         }\n"
    );
}

#[test]
fn d2_empty_graph_points_down() {
    let g = D2Graph::default();
    assert_eq!(g.direction, D2Direction::Down);
    assert_eq!(D2Direction::default(), D2Direction::Down);
    assert_eq!(g.to_d2_graph(), "direction: down\n\n\n");
    let mut up = D2Graph::default();
    up.direction = D2Direction::Up;
    assert_eq!(up.to_d2_graph(), "direction: up\n\n\n");
    up.direction = D2Direction::Left;
    assert_eq!(up.to_d2_graph(), "direction: left\n\n\n");
}

#[test]
fn d2_nodes_are_ordered_and_unique() {
    let mut g = D2Graph::default();
    g.add_node(node(3, "b"));
    g.add_node(node(3, "a"));
    g.add_node(node(0, "z"));
    g.add_node(node(3, "b"));
    assert_eq!(g.nodes(), &vec![node(0, "z"), node(3, "a"), node(3, "b")]);
    assert!(g.edges().is_empty());
}

#[test]
fn d2_edges_are_ordered_and_unique() {
    let mut g = D2Graph::default();
    g.add_edge(edge(2, 0, None, None));
    g.add_edge(edge(1, 5, Some("x"), None));
    g.add_edge(edge(1, 5, None, Some(Some("blue"))));
    g.add_edge(edge(1, 5, None, None));
    g.add_edge(edge(1, 5, None, None));
    g.add_edge(edge(1, 5, None, Some(None)));
    assert_eq!(
        g.edges(),
        &vec![
            edge(1, 5, None, None),
            edge(1, 5, None, Some(None)),
            edge(1, 5, None, Some(Some("blue"))),
            edge(1, 5, Some("x"), None),
            edge(2, 0, None, None),
        ]
    );
}

#[test]
fn d2_node_ids() {
    assert_eq!(D2NodeId::from(NodeIdx(7)), D2NodeId(7));
    assert_eq!(D2NodeId::from(9usize), D2NodeId(9));
    assert_eq!(*D2NodeId(4), 4);
}

#[test]
fn d2_set_direction_keeps_nodes_and_edges() {
    let mut g = D2Graph::default();
    g.add_node(node(1, "a"));
    g.add_edge(edge(1, 1, None, None));
    let before_nodes = g.nodes().clone();
    let before_edges = g.edges().clone();
    g.set_direction(D2Direction::Right);
    assert_eq!(g.direction, D2Direction::Right);
    assert_eq!(g.nodes(), &before_nodes);
    assert_eq!(g.edges(), &before_edges);
    assert!(g.to_d2_graph().starts_with("direction: right\n\n"));
}
