use schematic_nets::edge::NetEdge;
use schematic_nets::geometry::{SSPoint, SSTransform};
use schematic_nets::nets::Nets;

fn pt(x: i16, y: i16) -> SSPoint {
    SSPoint::new(x, y)
}

fn snapshot(nets: &Nets) -> Vec<((i16, i16), (i16, i16), Option<String>)> {
    let mut v: Vec<((i16, i16), (i16, i16), Option<String>)> = nets
        .graph
        .all_edges()
        .map(|(a, b, e)| (a, b, e.label.clone()))
        .collect();
    v.sort();
    v
}

fn nodes(nets: &Nets) -> Vec<(i16, i16)> {
    let mut v: Vec<(i16, i16)> = nets.graph.nodes().collect();
    v.sort();
    v
}

fn put(nets: &mut Nets, a: SSPoint, b: SSPoint, label: &str) {
    nets.transform(NetEdge::labelled(a, b, Some(label.to_string())), SSTransform::identity());
}

fn name(s: &str) -> Option<String> {
    Some(s.to_string())
}

#[test]
fn merge_cuts_the_wire_that_the_other_ends_on() {
    let mut a = Nets::new();
    a.route(pt(0, 0), pt(5, 0));
    let mut b = Nets::new();
    b.route(pt(2, 0), pt(2, 5));
    a.merge(&b, vec![]);
    let got = snapshot(&a);
    assert_eq!(got.len(), 3);
    assert_eq!((got[0].0, got[0].1), ((0, 0), (2, 0)));
    assert_eq!((got[1].0, got[1].1), ((2, 0), (2, 5)));
    assert_eq!((got[2].0, got[2].1), ((2, 0), (5, 0)));
    assert!(got[0].2.is_some());
    assert_eq!(got[0].2, got[1].2);
    assert_eq!(got[1].2, got[2].2);
    assert_eq!(got[0].2, name("net_0"));
}

#[test]
fn merge_keeps_the_names_of_the_other() {
    let mut a = Nets::new();
    a.route(pt(0, 0), pt(5, 0));
    let mut b = Nets::new();
    put(&mut b, pt(2, 0), pt(2, 5), "clk");
    a.merge(&b, vec![]);
    let got = snapshot(&a);
    assert_eq!(got.len(), 3);
    for e in got.iter() {
        assert_eq!(e.2, name("clk"));
    }
}

#[test]
fn merge_takes_over_an_edge_between_the_same_nodes() {
    let mut a = Nets::new();
    put(&mut a, pt(0, 0), pt(5, 0), "old");
    let mut b = Nets::new();
    put(&mut b, pt(5, 0), pt(0, 0), "new");
    a.merge(&b, vec![]);
    assert_eq!(snapshot(&a), vec![((0, 0), (5, 0), name("new"))]);
    let e = a.graph.edge_weight((0, 0), (5, 0)).unwrap();
    assert_eq!((e.src, e.dst), (pt(5, 0), pt(0, 0)));
}

#[test]
fn prune_names_every_component() {
    let mut nets = Nets::new();
    nets.route(pt(0, 0), pt(5, 0));
    nets.route(pt(0, 3), pt(5, 3));
    nets.prune(vec![]);
    let got = snapshot(&nets);
    assert_eq!(got.len(), 2);
    assert!(got[0].2.is_some());
    assert!(got[1].2.is_some());
    assert_ne!(got[0].2, got[1].2);
    let mut names = vec![got[0].2.clone().unwrap(), got[1].2.clone().unwrap()];
    names.sort();
    assert_eq!(names, vec!["net_0".to_string(), "net_1".to_string()]);
}

#[test]
fn prune_gives_connected_segments_one_name() {
    let mut nets = Nets::new();
    nets.route(pt(0, 0), pt(5, 5));
    nets.route(pt(5, 5), pt(9, 5));
    nets.route(pt(0, 0), pt(0, -4));
    nets.prune(vec![]);
    let got = snapshot(&nets);
    assert!(got.len() >= 2);
    for e in got.iter() {
        assert_eq!(e.2, got[0].2);
        assert!(e.2.is_some());
    }
}

#[test]
fn prune_keeps_the_least_name_of_a_component() {
    let mut nets = Nets::new();
    put(&mut nets, pt(0, 0), pt(0, 5), "b");
    put(&mut nets, pt(0, 5), pt(5, 5), "a");
    put(&mut nets, pt(5, 5), pt(5, 9), "c");
    nets.prune(vec![]);
    for e in snapshot(&nets).iter() {
        assert_eq!(e.2, name("a"));
    }
}

#[test]
fn prune_orders_names_as_strings() {
    let mut nets = Nets::new();
    put(&mut nets, pt(0, 0), pt(0, 5), "net_10");
    put(&mut nets, pt(0, 5), pt(5, 5), "net_9");
    nets.prune(vec![]);
    for e in snapshot(&nets).iter() {
        assert_eq!(e.2, name("net_10"));
    }
}

#[test]
fn prune_gives_a_name_to_one_component_only() {
    let mut nets = Nets::new();
    put(&mut nets, pt(0, 0), pt(5, 0), "vdd");
    put(&mut nets, pt(0, 3), pt(5, 3), "vdd");
    nets.prune(vec![]);
    let got = snapshot(&nets);
    assert_eq!(got.len(), 2);
    assert_ne!(got[0].2, got[1].2);
    let mut names = vec![got[0].2.clone().unwrap(), got[1].2.clone().unwrap()];
    names.sort();
    assert_eq!(names, vec!["net_0".to_string(), "vdd".to_string()]);
}

#[test]
fn prune_cuts_at_nodes() {
    let mut nets = Nets::new();
    nets.route(pt(0, 0), pt(6, 0));
    nets.route(pt(2, 0), pt(2, 4));
    nets.route(pt(4, 0), pt(4, -4));
    nets.prune(vec![]);
    let got = snapshot(&nets);
    let ends: Vec<((i16, i16), (i16, i16))> = got.iter().map(|e| (e.0, e.1)).collect();
    assert_eq!(
        ends,
        vec![
            ((0, 0), (2, 0)),
            ((2, 0), (2, 4)),
            ((2, 0), (4, 0)),
            ((4, -4), (4, 0)),
            ((4, 0), (6, 0)),
        ]
    );
    for e in got.iter() {
        assert_eq!(e.2, got[0].2);
    }
}

#[test]
fn prune_leaves_crossing_wires_apart() {
    let mut nets = Nets::new();
    nets.route(pt(0, 0), pt(4, 0));
    nets.route(pt(2, -2), pt(2, 2));
    nets.prune(vec![]);
    let got = snapshot(&nets);
    assert_eq!(got.len(), 2);
    assert_ne!(got[0].2, got[1].2);
}

#[test]
fn prune_joins_crossing_wires_at_an_extra_vertex() {
    let mut nets = Nets::new();
    nets.route(pt(0, 0), pt(4, 0));
    nets.route(pt(2, -2), pt(2, 2));
    nets.prune(vec![pt(2, 0)]);
    let got = snapshot(&nets);
    assert_eq!(got.len(), 4);
    for e in got.iter() {
        assert_eq!(e.2, got[0].2);
        assert!(e.0 == (2, 0) || e.1 == (2, 0));
    }
}

#[test]
fn prune_takes_out_waypoints() {
    let mut nets = Nets::new();
    nets.route(pt(0, 0), pt(2, 0));
    nets.route(pt(2, 0), pt(5, 0));
    nets.route(pt(5, 0), pt(5, 3));
    nets.prune(vec![]);
    let got = snapshot(&nets);
    let ends: Vec<((i16, i16), (i16, i16))> = got.iter().map(|e| (e.0, e.1)).collect();
    assert_eq!(ends, vec![((0, 0), (5, 0)), ((5, 0), (5, 3))]);
    assert_eq!(nodes(&nets), vec![(0, 0), (5, 0), (5, 3)]);
}

#[test]
fn prune_keeps_corners_and_branches() {
    let mut nets = Nets::new();
    nets.route(pt(0, 0), pt(3, 3));
    nets.route(pt(0, 3), pt(0, 6));
    nets.route(pt(0, 3), pt(-3, 3));
    nets.prune(vec![]);
    assert_eq!(nodes(&nets), vec![(-3, 3), (0, 0), (0, 3), (0, 6), (3, 3)]);
    assert_eq!(snapshot(&nets).len(), 4);
}

#[test]
fn prune_takes_out_nodes_without_wires() {
    let mut nets = Nets::new();
    nets.route(pt(0, 0), pt(5, 5));
    nets.delete_edge(&NetEdge::new(pt(0, 0), pt(0, 5)));
    assert_eq!(nodes(&nets), vec![(0, 0), (0, 5), (5, 5)]);
    nets.prune(vec![]);
    assert_eq!(nodes(&nets), vec![(0, 5), (5, 5)]);
}

#[test]
fn prune_makes_extra_vertices_nodes_where_they_lie_on_a_wire() {
    let mut nets = Nets::new();
    nets.route(pt(0, 0), pt(6, 0));
    nets.prune(vec![pt(2, 0), pt(4, 0), pt(9, 9), pt(0, 0)]);
    let got = snapshot(&nets);
    let ends: Vec<((i16, i16), (i16, i16))> = got.iter().map(|e| (e.0, e.1)).collect();
    assert_eq!(ends, vec![((0, 0), (2, 0)), ((2, 0), (4, 0)), ((4, 0), (6, 0))]);
    assert_eq!(nodes(&nets), vec![(0, 0), (2, 0), (4, 0), (6, 0)]);
    for e in got.iter() {
        assert_eq!(e.2, name("net_0"));
    }
}

#[test]
fn prune_twice_is_prune_once() {
    let mut nets = Nets::new();
    nets.route(pt(0, 0), pt(6, 0));
    nets.route(pt(2, 0), pt(2, 4));
    nets.route(pt(0, 8), pt(6, 8));
    nets.route(pt(3, 8), pt(3, 12));
    nets.route(pt(10, 10), pt(12, 14));
    let extra = vec![pt(4, 0), pt(1, 8), pt(20, 20)];
    nets.prune(extra.clone());
    let once = snapshot(&nets);
    let once_nodes = nodes(&nets);
    nets.prune(extra.clone());
    assert_eq!(snapshot(&nets), once);
    assert_eq!(nodes(&nets), once_nodes);
    nets.prune(extra);
    assert_eq!(snapshot(&nets), once);
}

#[test]
fn prune_twice_mints_no_second_name() {
    let mut nets = Nets::new();
    nets.route(pt(0, 0), pt(6, 0));
    nets.prune(vec![pt(3, 0)]);
    nets.prune(vec![pt(3, 0)]);
    nets.route(pt(0, 5), pt(6, 5));
    nets.prune(vec![pt(3, 0)]);
    let got = snapshot(&nets);
    let mut names: Vec<String> = got.iter().map(|e| e.2.clone().unwrap()).collect();
    names.sort();
    names.dedup();
    assert_eq!(names, vec!["net_0".to_string(), "net_1".to_string()]);
}

#[test]
fn prune_covers_the_same_points() {
    let mut nets = Nets::new();
    nets.route(pt(0, 0), pt(6, 0));
    nets.route(pt(2, 0), pt(2, 4));
    nets.route(pt(6, 0), pt(9, 0));
    let mut before = vec![];
    for x in -1..11 {
        for y in -1..6 {
            before.push(nets.occupies_ssp(pt(x, y)));
        }
    }
    nets.prune(vec![pt(1, 0), pt(2, 2)]);
    let mut after = vec![];
    for x in -1..11 {
        for y in -1..6 {
            after.push(nets.occupies_ssp(pt(x, y)));
        }
    }
    assert_eq!(before, after);
}

#[test]
fn prune_joins_overlapping_wires() {
    let mut nets = Nets::new();
    nets.route(pt(0, 0), pt(5, 0));
    nets.route(pt(2, 0), pt(7, 0));
    nets.prune(vec![]);
    let got = snapshot(&nets);
    let ends: Vec<((i16, i16), (i16, i16))> = got.iter().map(|e| (e.0, e.1)).collect();
    assert_eq!(ends, vec![((0, 0), (7, 0))]);
}

#[test]
fn net_at_gives_the_name_of_the_wire() {
    let mut nets = Nets::new();
    nets.route(pt(0, 0), pt(5, 0));
    nets.route(pt(0, 3), pt(5, 3));
    nets.prune(vec![]);
    let a = nets.net_at(pt(1, 0));
    let b = nets.net_at(pt(1, 3));
    assert_ne!(a, b);
    assert!(a == "net_0" || a == "net_1");
    assert!(b == "net_0" || b == "net_1");
    assert_eq!(nets.net_at(pt(5, 0)), a);
    assert_eq!(nets.net_at(pt(9, 9)), "fn_0");
}

#[test]
fn names_stay_when_wires_are_added_elsewhere() {
    let mut nets = Nets::new();
    nets.route(pt(0, 0), pt(5, 0));
    nets.prune(vec![]);
    let first = nets.net_at(pt(1, 0));
    nets.route(pt(0, 3), pt(5, 3));
    nets.prune(vec![]);
    assert_eq!(nets.net_at(pt(1, 0)), first);
    assert_ne!(nets.net_at(pt(1, 3)), first);
}

#[test]
fn a_name_that_the_registry_could_still_give_out_can_come_twice() {
    let mut nets = Nets::new();
    put(&mut nets, pt(0, 0), pt(5, 0), "net_0");
    nets.route(pt(0, 3), pt(5, 3));
    nets.prune(vec![]);
    assert_eq!(
        snapshot(&nets),
        vec![((0, 0), (5, 0), name("net_0")), ((0, 3), (5, 3), name("net_0"))]
    );
    nets.prune(vec![]);
    assert_eq!(
        snapshot(&nets),
        vec![((0, 0), (5, 0), name("net_0")), ((0, 3), (5, 3), name("net_1"))]
    );
}

#[test]
fn a_name_that_the_registry_gave_out_is_passed_over() {
    let mut nets = Nets::new();
    nets.route(pt(0, 0), pt(5, 0));
    nets.prune(vec![]);
    nets.route(pt(0, 3), pt(5, 3));
    nets.route(pt(0, 6), pt(5, 6));
    nets.prune(vec![]);
    let mut names: Vec<String> = snapshot(&nets).iter().map(|e| e.2.clone().unwrap()).collect();
    names.sort();
    assert_eq!(names, vec!["net_0".to_string(), "net_1".to_string(), "net_2".to_string()]);
}
