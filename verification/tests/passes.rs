use petgraph::graphmap::GraphMap;
use schematic_nets::edge::NetEdge;
use schematic_nets::geometry::SSPoint;
use schematic_nets::graph::WireGraph;
use schematic_nets::labels::LabelManager;
use schematic_nets::nets::Nets;
use schematic_nets::prune::{
    bisect_at, bisect_at_nodes, bisect_at_points, clone_label, eliminate_node, eliminate_nodes,
    prune_graph,
};
use schematic_nets::relabel::{nodes_to_edge_nodes, relabel, unify_labels};

fn pt(x: i16, y: i16) -> SSPoint {
    SSPoint::new(x, y)
}

fn wire(g: &mut WireGraph, a: (i16, i16), b: (i16, i16), label: Option<&str>) {
    let e = NetEdge::labelled(pt(a.0, a.1), pt(b.0, b.1), label.map(|s| s.to_string()));
    g.add_edge(a, b, e);
}

fn keys(g: &WireGraph) -> Vec<((i16, i16), (i16, i16))> {
    let mut v: Vec<((i16, i16), (i16, i16))> = g.all_edges().map(|(a, b, _)| (a, b)).collect();
    v.sort();
    v
}

fn names(g: &WireGraph) -> Vec<((i16, i16), (i16, i16), Option<String>)> {
    let mut v: Vec<((i16, i16), (i16, i16), Option<String>)> =
        g.all_edges().map(|(a, b, e)| (a, b, e.label.clone())).collect();
    v.sort();
    v
}

#[test]
fn bisect_at_cuts_every_wire_through_the_point() {
    let mut g: WireGraph = GraphMap::new();
    wire(&mut g, (0, 0), (4, 0), Some("h"));
    wire(&mut g, (2, -2), (2, 2), Some("v"));
    wire(&mut g, (0, 5), (4, 5), Some("far"));
    bisect_at(&mut g, pt(2, 0));
    assert_eq!(
        names(&g),
        vec![
            ((0, 0), (2, 0), Some("h".to_string())),
            ((0, 5), (4, 5), Some("far".to_string())),
            ((2, -2), (2, 0), Some("v".to_string())),
            ((2, 0), (2, 2), Some("v".to_string())),
            ((2, 0), (4, 0), Some("h".to_string())),
        ]
    );
    let half = g.edge_weight((0, 0), (2, 0)).unwrap();
    assert_eq!((half.src, half.dst), (pt(0, 0), pt(2, 0)));
    let other = g.edge_weight((2, 0), (4, 0)).unwrap();
    assert_eq!((other.src, other.dst), (pt(4, 0), pt(2, 0)));
}

#[test]
fn bisect_at_an_end_or_off_the_wire_changes_nothing() {
    let mut g: WireGraph = GraphMap::new();
    wire(&mut g, (0, 0), (4, 0), None);
    bisect_at(&mut g, pt(0, 0));
    bisect_at(&mut g, pt(4, 0));
    bisect_at(&mut g, pt(2, 1));
    assert_eq!(keys(&g), vec![((0, 0), (4, 0))]);
    assert_eq!(g.node_count(), 2);
}

#[test]
fn bisect_at_nodes_cuts_where_a_wire_ends_on_another() {
    let mut g: WireGraph = GraphMap::new();
    wire(&mut g, (0, 0), (6, 0), None);
    wire(&mut g, (3, 0), (3, 3), None);
    bisect_at_nodes(&mut g);
    assert_eq!(keys(&g), vec![((0, 0), (3, 0)), ((3, 0), (3, 3)), ((3, 0), (6, 0))]);
}

#[test]
fn eliminate_node_takes_out_a_waypoint_and_keeps_the_first_name() {
    let mut g: WireGraph = GraphMap::new();
    wire(&mut g, (0, 0), (2, 0), Some("first"));
    wire(&mut g, (2, 0), (5, 0), Some("second"));
    eliminate_node(&mut g, (2, 0));
    assert_eq!(names(&g), vec![((0, 0), (5, 0), Some("first".to_string()))]);
    assert!(!g.contains_node((2, 0)));
    let e = g.edge_weight((0, 0), (5, 0)).unwrap();
    assert_eq!((e.src, e.dst), (pt(0, 0), pt(5, 0)));
}

#[test]
fn eliminate_node_keeps_corners_ends_and_branches() {
    let mut g: WireGraph = GraphMap::new();
    wire(&mut g, (0, 0), (2, 0), None);
    wire(&mut g, (2, 0), (2, 3), None);
    eliminate_node(&mut g, (2, 0));
    eliminate_node(&mut g, (0, 0));
    assert_eq!(keys(&g), vec![((0, 0), (2, 0)), ((2, 0), (2, 3))]);
    wire(&mut g, (2, 0), (5, 0), None);
    eliminate_node(&mut g, (2, 0));
    assert_eq!(g.edge_count(), 3);
}

#[test]
fn eliminate_node_takes_out_a_node_without_wires() {
    let mut g: WireGraph = GraphMap::new();
    g.add_node((7, 7));
    wire(&mut g, (0, 0), (2, 0), None);
    eliminate_node(&mut g, (7, 7));
    assert!(!g.contains_node((7, 7)));
    assert_eq!(g.node_count(), 2);
    eliminate_node(&mut g, (9, 9));
    assert_eq!(g.node_count(), 2);
}

#[test]
fn eliminate_nodes_joins_a_chain() {
    let mut g: WireGraph = GraphMap::new();
    wire(&mut g, (0, 0), (1, 0), None);
    wire(&mut g, (1, 0), (2, 0), None);
    wire(&mut g, (2, 0), (3, 0), None);
    wire(&mut g, (3, 0), (3, 4), None);
    eliminate_nodes(&mut g);
    assert_eq!(keys(&g), vec![((0, 0), (3, 0)), ((3, 0), (3, 4))]);
}

#[test]
fn bisect_at_points_cuts_in_turn() {
    let mut g: WireGraph = GraphMap::new();
    wire(&mut g, (0, 0), (6, 0), Some("n"));
    bisect_at_points(&mut g, &vec![pt(4, 0), pt(2, 0), pt(4, 0), pt(8, 0)]);
    assert_eq!(
        names(&g),
        vec![
            ((0, 0), (2, 0), Some("n".to_string())),
            ((2, 0), (4, 0), Some("n".to_string())),
            ((4, 0), (6, 0), Some("n".to_string())),
        ]
    );
}

#[test]
fn nodes_to_edge_nodes_lists_each_edge_once() {
    let mut g: WireGraph = GraphMap::new();
    wire(&mut g, (0, 0), (2, 0), None);
    wire(&mut g, (2, 0), (2, 3), None);
    wire(&mut g, (2, 0), (5, 0), None);
    wire(&mut g, (9, 9), (9, 12), None);
    let listed = nodes_to_edge_nodes(&g, &vec![(2, 0), (0, 0), (2, 3), (5, 0)]);
    assert_eq!(listed, vec![((2, 0), (0, 0)), ((2, 0), (2, 3)), ((2, 0), (5, 0))]);
    let other = nodes_to_edge_nodes(&g, &vec![(0, 0), (2, 0)]);
    assert_eq!(other, vec![((0, 0), (2, 0)), ((2, 0), (2, 3)), ((2, 0), (5, 0))]);
}

#[test]
fn unify_labels_keeps_the_least_name_that_is_not_taken() {
    let mut g: WireGraph = GraphMap::new();
    wire(&mut g, (0, 0), (2, 0), Some("b"));
    wire(&mut g, (2, 0), (2, 3), Some("a"));
    wire(&mut g, (2, 0), (5, 0), None);
    let mut lm = LabelManager::new();
    let pairs = vec![((0, 0), (2, 0)), ((2, 0), (2, 3)), ((2, 0), (5, 0))];
    let got = unify_labels(&mut g, &mut lm, &pairs, &vec!["a".to_string()]);
    assert_eq!(got, "b");
    for e in names(&g).iter() {
        assert_eq!(e.2, Some("b".to_string()));
    }
    let again = unify_labels(&mut g, &mut lm, &pairs, &vec![]);
    assert_eq!(again, "b");
    assert!(!lm.is_registered(&"net_0".to_string()));
}

#[test]
fn unify_labels_mints_a_name_where_none_is_free() {
    let mut g: WireGraph = GraphMap::new();
    wire(&mut g, (0, 0), (2, 0), Some("a"));
    wire(&mut g, (2, 0), (2, 3), None);
    wire(&mut g, (7, 7), (7, 9), Some("far"));
    let mut lm = LabelManager::new();
    lm.register("net_0".to_string());
    let pairs = vec![((0, 0), (2, 0)), ((2, 3), (2, 0)), ((4, 4), (5, 4))];
    let got = unify_labels(&mut g, &mut lm, &pairs, &vec!["a".to_string()]);
    assert_eq!(got, "net_1");
    assert!(lm.is_registered(&"net_1".to_string()));
    assert_eq!(
        names(&g),
        vec![
            ((0, 0), (2, 0), Some("net_1".to_string())),
            ((2, 0), (2, 3), Some("net_1".to_string())),
            ((7, 7), (7, 9), Some("far".to_string())),
        ]
    );
    assert_eq!(g.edge_count(), 3);
    assert_eq!(g.node_count(), 5);
}

#[test]
fn relabel_names_each_component() {
    let mut g: WireGraph = GraphMap::new();
    wire(&mut g, (0, 0), (2, 0), Some("x"));
    wire(&mut g, (2, 0), (2, 3), None);
    wire(&mut g, (7, 7), (7, 9), None);
    wire(&mut g, (20, 0), (22, 0), Some("x"));
    let mut lm = LabelManager::new();
    lm.register("x".to_string());
    relabel(&mut g, &mut lm);
    let got = names(&g);
    assert_eq!(got[0].2, got[1].2);
    let mut distinct: Vec<String> = got.iter().map(|e| e.2.clone().unwrap()).collect();
    distinct.sort();
    distinct.dedup();
    assert_eq!(distinct, vec!["net_0".to_string(), "net_1".to_string(), "x".to_string()]);
}

#[test]
fn prune_graph_does_all_passes() {
    let mut g: WireGraph = GraphMap::new();
    wire(&mut g, (0, 0), (3, 0), None);
    wire(&mut g, (3, 0), (6, 0), None);
    wire(&mut g, (2, 0), (2, 4), None);
    let mut lm = LabelManager::new();
    prune_graph(&mut g, &mut lm, &vec![pt(5, 0)]);
    assert_eq!(
        names(&g),
        vec![
            ((0, 0), (2, 0), Some("net_0".to_string())),
            ((2, 0), (2, 4), Some("net_0".to_string())),
            ((2, 0), (5, 0), Some("net_0".to_string())),
            ((5, 0), (6, 0), Some("net_0".to_string())),
        ]
    );
}

#[test]
fn clone_label_copies() {
    assert_eq!(clone_label(&Some("a".to_string())), Some("a".to_string()));
    assert_eq!(clone_label(&None), None);
}

#[test]
fn nets_hand_out_their_nodes_and_segments() {
    let mut nets = Nets::default();
    nets.route(pt(0, 0), pt(3, 4));
    let vs: Vec<(i16, i16)> = nets.vertices().iter().map(|v| v.to_key()).collect();
    assert_eq!(vs, vec![(0, 0), (0, 4), (3, 4)]);
    let es: Vec<(SSPoint, SSPoint)> = nets.segments().iter().map(|e| (e.src, e.dst)).collect();
    assert_eq!(es, vec![(pt(0, 0), pt(0, 4)), (pt(0, 4), pt(3, 4))]);
}
