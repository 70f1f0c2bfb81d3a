use schematic_nets::edge::NetEdge;
use schematic_nets::geometry::{SSBox, SSPoint, SSTransform};
use schematic_nets::nets::Nets;

fn pt(x: i16, y: i16) -> SSPoint {
    SSPoint::new(x, y)
}

fn ends(nets: &mut Nets) -> Vec<((i16, i16), (i16, i16))> {
    let mut v: Vec<((i16, i16), (i16, i16))> =
        nets.graph.all_edges().map(|(a, b, _)| (a, b)).collect();
    v.sort();
    v
}

#[test]
fn route_along_a_grid_line_is_one_edge() {
    let mut nets = Nets::new();
    nets.route(pt(0, 0), pt(5, 0));
    assert_eq!(ends(&mut nets), vec![((0, 0), (5, 0))]);
    let e = nets.graph.edge_weight((0, 0), (5, 0)).unwrap();
    assert_eq!((e.src, e.dst), (pt(0, 0), pt(5, 0)));
    assert_eq!(e.label, None);
    assert_eq!(e.interactable.bounds, SSBox::new(pt(0, 0), pt(5, 0)));
}

#[test]
fn route_across_goes_through_a_corner() {
    let mut nets = Nets::new();
    nets.route(pt(0, 0), pt(5, 5));
    assert_eq!(ends(&mut nets), vec![((0, 0), (0, 5)), ((0, 5), (5, 5))]);
    assert_eq!(nets.graph.node_count(), 3);
}

#[test]
fn route_to_the_same_point_does_nothing() {
    let mut nets = Nets::new();
    nets.route(pt(3, 3), pt(3, 3));
    assert_eq!(nets.graph.edge_count(), 0);
    assert_eq!(nets.graph.node_count(), 0);
}

#[test]
fn route_backwards_keeps_the_direction_in_the_payload() {
    let mut nets = Nets::new();
    nets.route(pt(5, 0), pt(0, 0));
    assert_eq!(ends(&mut nets), vec![((0, 0), (5, 0))]);
    let e = nets.graph.edge_weight((5, 0), (0, 0)).unwrap();
    assert_eq!((e.src, e.dst), (pt(5, 0), pt(0, 0)));
}

#[test]
fn selectable_cycles_through_overlapping_edges() {
    let mut nets = Nets::new();
    nets.route(pt(0, 0), pt(5, 0));
    nets.route(pt(2, -3), pt(2, 3));
    let p = pt(2, 0);
    let mut c0: usize = 0;
    let first = nets.selectable(p, 0, &mut c0).unwrap();
    let mut c1: usize = 0;
    let second = nets.selectable(p, 1, &mut c1).unwrap();
    assert_eq!((first.src, first.dst), (pt(0, 0), pt(5, 0)));
    assert_eq!((second.src, second.dst), (pt(2, -3), pt(2, 3)));
    assert_eq!(c0, 0);
    assert_eq!(c1, 1);
    let mut c2: usize = 0;
    let again = nets.selectable(p, 0, &mut c2).unwrap();
    assert_eq!((again.src, again.dst), (first.src, first.dst));
    let mut c3: usize = 0;
    assert!(nets.selectable(p, 2, &mut c3).is_none());
    assert_eq!(c3, 2);
}

#[test]
fn selectable_misses() {
    let mut nets = Nets::new();
    nets.route(pt(0, 0), pt(5, 0));
    let mut c: usize = 0;
    assert!(nets.selectable(pt(0, 1), 0, &mut c).is_none());
    assert_eq!(c, 0);
    let mut c: usize = 3;
    assert!(nets.selectable(pt(1, 0), 1, &mut c).is_none());
    assert_eq!(c, 4);
}

#[test]
fn selectable_goes_on_from_an_earlier_count() {
    let mut nets = Nets::new();
    nets.route(pt(0, 0), pt(5, 0));
    nets.route(pt(2, -3), pt(2, 3));
    let mut c: usize = 1;
    let e = nets.selectable(pt(2, 0), 2, &mut c).unwrap();
    assert_eq!((e.src, e.dst), (pt(2, -3), pt(2, 3)));
    assert_eq!(c, 2);
}

#[test]
fn occupies_on_the_segment_and_its_ends() {
    let mut nets = Nets::new();
    nets.route(pt(0, 0), pt(5, 0));
    assert!(nets.occupies_ssp(pt(0, 0)));
    assert!(nets.occupies_ssp(pt(3, 0)));
    assert!(nets.occupies_ssp(pt(5, 0)));
    assert!(!nets.occupies_ssp(pt(6, 0)));
    assert!(!nets.occupies_ssp(pt(3, 1)));
}

#[test]
fn intersects_ssbox_finds_what_the_box_cuts() {
    let mut nets = Nets::new();
    nets.route(pt(0, 0), pt(5, 0));
    nets.route(pt(0, 4), pt(5, 4));
    let found = nets.intersects_ssbox(&SSBox::new(pt(1, -1), pt(2, 1)));
    assert_eq!(found.len(), 1);
    assert_eq!((found[0].src, found[0].dst), (pt(0, 0), pt(5, 0)));
    let both = nets.intersects_ssbox(&SSBox::new(pt(1, -1), pt(2, 5)));
    assert_eq!(both.len(), 2);
    let none = nets.intersects_ssbox(&SSBox::new(pt(1, 0), pt(2, 1)));
    assert_eq!(none.len(), 0);
}

#[test]
fn bounding_box_covers_all_nodes() {
    let mut nets = Nets::new();
    assert_eq!(nets.bounding_box(), SSBox::new(pt(0, 0), pt(0, 0)));
    nets.route(pt(-2, 1), pt(5, 7));
    assert_eq!(nets.bounding_box(), SSBox::new(pt(-2, 1), pt(5, 7)));
}

#[test]
fn delete_edge_removes_by_its_ends() {
    let mut nets = Nets::new();
    nets.route(pt(0, 0), pt(5, 5));
    nets.delete_edge(&NetEdge::new(pt(0, 5), pt(0, 0)));
    assert_eq!(ends(&mut nets), vec![((0, 5), (5, 5))]);
    assert_eq!(nets.graph.node_count(), 3);
}

#[test]
fn transform_moves_an_edge() {
    let mut nets = Nets::new();
    nets.route(pt(0, 0), pt(5, 0));
    nets.transform(NetEdge::new(pt(0, 0), pt(5, 0)), SSTransform::translation(0, 2));
    assert_eq!(ends(&mut nets), vec![((0, 2), (5, 2))]);
    let e = nets.graph.edge_weight((0, 2), (5, 2)).unwrap();
    assert_eq!(e.interactable.bounds, SSBox::new(pt(0, 2), pt(5, 2)));
}

#[test]
fn transform_adds_an_edge_that_was_not_there() {
    let mut nets = Nets::new();
    let quarter = SSTransform::new(0, 1, -1, 0, 0, 0);
    nets.transform(NetEdge::new(pt(0, 0), pt(5, 0)), quarter);
    assert_eq!(ends(&mut nets), vec![((0, 0), (0, 5))]);
}

#[test]
fn clear_empties_the_graph_but_keeps_the_counters() {
    let mut nets = Nets::new();
    nets.route(pt(0, 0), pt(5, 0));
    assert_eq!(nets.net_at(pt(9, 9)), "fn_0");
    nets.clear();
    assert_eq!(nets.graph.edge_count(), 0);
    assert_eq!(nets.graph.node_count(), 0);
    assert_eq!(nets.net_at(pt(9, 9)), "fn_1");
}

#[test]
fn net_at_gives_floating_names_off_the_wires() {
    let mut nets = Nets::new();
    assert_eq!(nets.net_at(pt(1, 1)), "fn_0");
    assert_eq!(nets.net_at(pt(1, 1)), "fn_1");
    nets.pre_netlist();
    assert_eq!(nets.net_at(pt(1, 1)), "fn_0");
}

#[test]
fn try_net_at_gives_what_net_at_gives() {
    let mut nets = Nets::new();
    nets.route(pt(0, 0), pt(5, 0));
    assert_eq!(nets.try_net_at(pt(1, 0)), None);
    assert_eq!(nets.try_net_at(pt(9, 9)), Some("fn_0".to_string()));
    nets.prune(vec![]);
    assert_eq!(nets.try_net_at(pt(1, 0)), Some("net_0".to_string()));
    assert_eq!(nets.try_net_at(pt(9, 9)), Some("fn_1".to_string()));
    assert_eq!(nets.net_at(pt(9, 9)), "fn_2");
}
