use euclid::default::{Box2D, Point2D, Transform2D};
use schematic_nets::geometry::{SSBox, SSPoint, SSTransform};

fn pt(x: i16, y: i16) -> SSPoint {
    SSPoint::new(x, y)
}

#[test]
fn box_of_no_points_is_zero() {
    let b = SSBox::from_points(&vec![]);
    assert_eq!(b, SSBox::new(pt(0, 0), pt(0, 0)));
    let e: Box2D<i16> = Box2D::from_points(Vec::<Point2D<i16>>::new());
    assert_eq!((e.min.x, e.min.y, e.max.x, e.max.y), (0, 0, 0, 0));
}

#[test]
fn box_of_points_is_their_hull() {
    let pts = vec![pt(3, -2), pt(-1, 5), pt(0, 0), pt(7, 1)];
    let b = SSBox::from_points(&pts);
    assert_eq!(b, SSBox::new(pt(-1, -2), pt(7, 5)));
    let e: Box2D<i16> = Box2D::from_points(pts.iter().map(|p| Point2D::new(p.x, p.y)));
    assert_eq!((e.min.x, e.min.y, e.max.x, e.max.y), (b.min.x, b.min.y, b.max.x, b.max.y));
}

#[test]
fn box_of_a_pair() {
    assert_eq!(SSBox::from_pair(pt(5, 0), pt(0, 0)), SSBox::new(pt(0, 0), pt(5, 0)));
    assert_eq!(SSBox::from_pair(pt(2, 5), pt(2, -1)), SSBox::new(pt(2, -1), pt(2, 5)));
}

#[test]
fn boxes_that_share_a_border_do_not_intersect() {
    let a = SSBox::new(pt(0, 0), pt(2, 2));
    let b = SSBox::new(pt(2, 0), pt(4, 2));
    let c = SSBox::new(pt(1, 1), pt(3, 3));
    assert!(!a.intersects(&b));
    assert!(a.intersects(&c));
    assert!(c.intersects(&b));
}

#[test]
fn flat_box_intersects_only_what_it_passes_through() {
    let wire = SSBox::new(pt(0, 1), pt(5, 1));
    assert!(wire.intersects(&SSBox::new(pt(1, 0), pt(2, 2))));
    assert!(!wire.intersects(&SSBox::new(pt(1, 1), pt(2, 2))));
    assert!(!wire.intersects(&SSBox::new(pt(6, 0), pt(7, 2))));
}

#[test]
fn intersection_agrees_with_euclid() {
    let boxes = [
        (0, 0, 2, 2),
        (2, 0, 4, 2),
        (1, 1, 3, 3),
        (0, 1, 5, 1),
        (1, 0, 2, 2),
        (-3, -3, -1, -1),
        (1, 2, -1, -2),
    ];
    for a in boxes.iter() {
        for b in boxes.iter() {
            let sa = SSBox::new(pt(a.0, a.1), pt(a.2, a.3));
            let sb = SSBox::new(pt(b.0, b.1), pt(b.2, b.3));
            let ea: Box2D<i16> = Box2D::new(Point2D::new(a.0, a.1), Point2D::new(a.2, a.3));
            let eb: Box2D<i16> = Box2D::new(Point2D::new(b.0, b.1), Point2D::new(b.2, b.3));
            assert_eq!(sa.intersects(&sb), ea.intersects(&eb));
        }
    }
}

#[test]
fn containment_includes_the_border() {
    let b = SSBox::new(pt(0, 0), pt(2, 2));
    assert!(b.contains_inclusive(pt(0, 0)));
    assert!(b.contains_inclusive(pt(2, 2)));
    assert!(b.contains_inclusive(pt(1, 2)));
    assert!(!b.contains_inclusive(pt(3, 1)));
    assert!(!b.contains_inclusive(pt(1, -1)));
    let e: Box2D<i16> = Box2D::new(Point2D::new(0, 0), Point2D::new(2, 2));
    assert!(e.contains_inclusive(Point2D::new(2, 2)));
    assert!(!e.contains_inclusive(Point2D::new(3, 1)));
}

#[test]
fn negative_box_contains_nothing() {
    let b = SSBox::new(pt(-1, 2), pt(1, -2));
    assert!(!b.contains_inclusive(pt(0, 0)));
}

#[test]
fn translation_moves_points() {
    let t = SSTransform::translation(3, -4);
    assert_eq!(t.transform_point(pt(1, 1)), pt(4, -3));
    assert_eq!(SSTransform::identity().transform_point(pt(-7, 9)), pt(-7, 9));
}

#[test]
fn quarter_turn_and_mirror() {
    let quarter = SSTransform::new(0, 1, -1, 0, 0, 0);
    assert_eq!(quarter.transform_point(pt(2, 0)), pt(0, 2));
    assert_eq!(quarter.transform_point(pt(0, 2)), pt(-2, 0));
    let mirror = SSTransform::new(-1, 0, 0, 1, 10, 0);
    assert_eq!(mirror.transform_point(pt(3, 4)), pt(7, 4));
}

#[test]
fn transform_agrees_with_euclid() {
    let coeffs = [(1, 0, 0, 1, 3, -4), (0, 1, -1, 0, 0, 0), (-1, 0, 0, 1, 10, 0), (0, -1, -1, 0, 2, 2)];
    for c in coeffs.iter() {
        let t = SSTransform::new(c.0, c.1, c.2, c.3, c.4, c.5);
        let e: Transform2D<i16> = Transform2D::new(c.0, c.1, c.2, c.3, c.4, c.5);
        for p in [(0, 0), (5, 0), (-3, 7), (100, -100)].iter() {
            let q = t.transform_point(pt(p.0, p.1));
            let r = e.transform_point(Point2D::new(p.0, p.1));
            assert_eq!((q.x, q.y), (r.x, r.y));
        }
    }
}

#[test]
fn images_off_the_grid_are_refused() {
    let t = SSTransform::translation(1, 0);
    assert!(!t.can_transform(pt(i16::MAX, 0)));
    assert_eq!(t.try_transform_point(pt(i16::MAX, 0)), None);
    assert!(t.can_transform(pt(i16::MAX - 1, 0)));
    assert_eq!(t.try_transform_point(pt(i16::MAX - 1, 0)), Some(pt(i16::MAX, 0)));
    let big = SSTransform::new(i16::MAX, 0, 0, i16::MAX, i16::MAX, i16::MAX);
    assert_eq!(big.try_transform_point(pt(i16::MAX, i16::MAX)), None);
    assert_eq!(big.try_transform_point(pt(0, 0)), Some(pt(i16::MAX, i16::MAX)));
}

#[test]
fn point_and_key() {
    assert_eq!(pt(3, -4).to_key(), (3, -4));
    assert_eq!(SSPoint::from_key((3, -4)), pt(3, -4));
}
