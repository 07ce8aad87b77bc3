use mazes::direction::Direction;
use mazes::dot::{dots, DotEdge, DotGraph, DotNode};
use mazes::maze::{make_plane, Node};
use mazes::node::NodeType;
use mazes::strutil::{i32_to_string, usize_to_string};

#[test]
fn decimal_rendering() {
    assert_eq!(usize_to_string(0), "0");
    assert_eq!(usize_to_string(7), "7");
    assert_eq!(usize_to_string(907), "907");
    assert_eq!(i32_to_string(-45), "-45");
    assert_eq!(i32_to_string(12), "12");
}

#[test]
fn node_type_labels() {
    assert_eq!(NodeType::Start.display(), "Start");
    assert_eq!(NodeType::Regular.display(), "Regular");
    assert_eq!(NodeType::End.display(), "End");
}

#[test]
fn fresh_node_display() {
    let node: Node = Node::unsafe_new(NodeType::Start);
    assert_eq!(
        node.display(),
        "Start\nNone\nNone\nNone\nNone\nNot Visited\nWall\nWall\nWall\nWall"
    );
    let mut visited = Node::new(NodeType::Regular);
    visited.visit();
    visited.remove_wall(Direction::Down);
    assert_eq!(
        visited.display(),
        "Regular\nNone\nNone\nNone\nNone\nVisited\nWall\nNo Wall\nWall\nWall"
    );
}

#[test]
fn dot_node_rendering() {
    let mut n = DotNode::make("a");
    assert_eq!(n.render(), "\"a\" [shape=point ];");
    n.set_position(1, 2);
    assert_eq!(n.render(), "\"a\" [shape=point pos=\"1,2!\"];");
    n.set_color(String::from("red"));
    assert_eq!(n.render(), "\"a\" [shape=point color=\"red\" pos=\"1,2!\"];");
    let mut colored = DotNode::make("b");
    colored.set_color(String::from("blue"));
    assert_eq!(colored.render(), "\"b\" [shape=point color=\"blue\"];");
}

#[test]
fn dot_edge_rendering() {
    let e = DotEdge::make("b", "a");
    assert_eq!(e.source, "a");
    assert_eq!(e.target, "b");
    assert_eq!(e.render(), "\"a\" -- \"b\" [];");
    let mut p = DotEdge::make("a", "b");
    p.add_parameter(String::from("x=1"));
    assert_eq!(p.render(), "\"a\" -- \"b\" [x=1];");
}

#[test]
fn dot_graph_rendering() {
    let mut g = DotGraph::make();
    g.add_node(DotNode::make("n"));
    g.add_edge(DotEdge::make("n", "m"));
    assert_eq!(
        g.render(),
        "graph {\n    \"n\" [shape=point ];\n    \"m\" -- \"n\" [];\n}\n"
    );
}

#[test]
fn dots_blocks() {
    let plane = make_plane(2, 2);
    assert_eq!(
        dots(&plane),
        "digraph {\nsubgraph {\nrank = same;0-0; 1-0; \n}\nsubgraph {\nrank = same;0-1; 1-1; \n}\n"
    );
}

#[test]
fn render_dot_of_uncarved_plane() {
    let plane = make_plane(2, 1);
    let text = mazes::dot::render_dot(&plane);
    assert_eq!(
        text,
        "graph {\n    \"0-0\" [shape=point pos=\"0,0!\"];\n    \"1-0\" [shape=point pos=\"1,0!\"];\n}\n"
    );
}
