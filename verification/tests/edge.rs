use schematic_nets::edge::{Interactable, NetEdge};
use schematic_nets::geometry::{SSBox, SSPoint, SSTransform};
use schematic_nets::vertex::NetVertex;

fn pt(x: i16, y: i16) -> SSPoint {
    SSPoint::new(x, y)
}

#[test]
fn new_edge_has_no_name_and_spans_its_ends() {
    let e = NetEdge::new(pt(5, 1), pt(0, 1));
    assert_eq!((e.src, e.dst), (pt(5, 1), pt(0, 1)));
    assert_eq!(e.label, None);
    assert_eq!(e.interactable.bounds, SSBox::new(pt(0, 1), pt(5, 1)));
}

#[test]
fn labelled_edge_keeps_its_name() {
    let e = NetEdge::labelled(pt(0, 0), pt(0, 4), Some("vdd".to_string()));
    assert_eq!(e.label, Some("vdd".to_string()));
    assert_eq!(e.label_text(), "vdd");
    assert_eq!(e.clone().label, Some("vdd".to_string()));
}

#[test]
fn edge_holds_its_ends_and_what_lies_between() {
    let e = NetEdge::new(pt(0, 0), pt(5, 0));
    assert!(e.intersects_ssp(pt(0, 0)));
    assert!(e.intersects_ssp(pt(3, 0)));
    assert!(e.intersects_ssp(pt(5, 0)));
    assert!(!e.intersects_ssp(pt(6, 0)));
    assert!(!e.intersects_ssp(pt(-1, 0)));
    assert!(!e.intersects_ssp(pt(3, 1)));
    let v = NetEdge::new(pt(2, 5), pt(2, -5));
    assert!(v.intersects_ssp(pt(2, 0)));
    assert!(!v.intersects_ssp(pt(3, 0)));
}

#[test]
fn edge_knows_its_ends() {
    let e = NetEdge::new(pt(0, 0), pt(5, 0));
    assert!(e.is_end(pt(0, 0)));
    assert!(e.is_end(pt(5, 0)));
    assert!(!e.is_end(pt(3, 0)));
}

#[test]
fn edge_bounds_overlap_a_box_that_they_pass_through() {
    let e = NetEdge::new(pt(0, 0), pt(5, 0));
    assert!(e.intersects_ssb(&SSBox::new(pt(1, -1), pt(2, 1))));
    assert!(!e.intersects_ssb(&SSBox::new(pt(1, 1), pt(2, 2))));
}

#[test]
fn transform_turns_an_edge_and_keeps_its_name() {
    let mut e = NetEdge::labelled(pt(0, 0), pt(5, 0), Some("a".to_string()));
    e.transform(SSTransform::new(0, 1, -1, 0, 2, 3));
    assert_eq!((e.src, e.dst), (pt(2, 3), pt(2, 8)));
    assert_eq!(e.label, Some("a".to_string()));
    assert_eq!(e.interactable.bounds, SSBox::new(pt(2, 3), pt(2, 8)));
}

#[test]
fn interactable_answers_inside_its_bounds() {
    let i = Interactable::new(SSBox::new(pt(0, 0), pt(2, 2)));
    assert!(i.contains_ssp(pt(2, 2)));
    assert!(!i.contains_ssp(pt(3, 2)));
    assert!(i.intersects_ssb(&SSBox::new(pt(1, 1), pt(5, 5))));
    assert!(!i.intersects_ssb(&SSBox::new(pt(2, 2), pt(5, 5))));
    assert_eq!(NetEdge::interactable(pt(3, 0), pt(0, 0)).bounds, SSBox::new(pt(0, 0), pt(3, 0)));
}

#[test]
fn vertex_is_its_point() {
    let v = NetVertex(pt(3, -4));
    assert_eq!(v.to_key(), (3, -4));
    assert_eq!(NetVertex::from_key((3, -4)), v);
    assert!(v.occupies_ssp(pt(3, -4)));
    assert!(!v.occupies_ssp(pt(3, 4)));
}
