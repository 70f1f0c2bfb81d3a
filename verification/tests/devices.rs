use schematic_nets::devices::{DeviceType, Graphics, TypeEnum};
use schematic_nets::geometry::{SSBox, SSPoint};

fn pt(x: i16, y: i16) -> SSPoint {
    SSPoint::new(x, y)
}

#[test]
fn ground_symbol() {
    let d = DeviceType::new_gnd();
    assert_eq!(d.get_ports().len(), 1);
    assert_eq!(d.get_ports()[0].name, "gnd");
    assert_eq!(d.get_ports()[0].offset, pt(0, 2));
    assert_eq!(*d.get_bounds(), SSBox::new(pt(-1, 2), pt(1, -2)));
    assert_eq!(*d.get_type(), TypeEnum::V);
    assert_eq!(*d.get_graphics(), Graphics::new_gnd());
}

#[test]
fn resistor_symbol() {
    let d = DeviceType::new_res();
    assert_eq!(d.get_ports().len(), 2);
    assert_eq!(d.get_ports()[0].name, "+");
    assert_eq!(d.get_ports()[0].offset, pt(0, 3));
    assert_eq!(d.get_ports()[1].name, "-");
    assert_eq!(d.get_ports()[1].offset, pt(0, -3));
    assert_eq!(*d.get_bounds(), SSBox::new(pt(-2, 3), pt(2, -3)));
    assert_eq!(*d.get_type(), TypeEnum::C);
    assert_eq!(*d.get_graphics(), Graphics::new_res());
}

#[test]
fn ground_strokes() {
    let g = Graphics::new_gnd();
    assert_eq!(
        g.pts,
        vec![vec![pt(0, 2), pt(0, -1)], vec![pt(0, -2), pt(1, -1), pt(-1, -1), pt(0, -2)]]
    );
}

#[test]
fn resistor_strokes() {
    let g = Graphics::new_res();
    assert_eq!(
        g.pts,
        vec![
            vec![pt(0, 3), pt(0, -3)],
            vec![pt(-1, 2), pt(-1, -2), pt(1, -2), pt(1, 2), pt(-1, 2)]
        ]
    );
}
