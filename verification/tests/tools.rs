use schematic_nets::geometry::SSPoint;
use schematic_nets::tools::{wiring_step, WireSeg, WiringAction, WiringInput, WiringToolState};

fn pt(x: i16, y: i16) -> SSPoint {
    SSPoint::new(x, y)
}

fn frame(escape: bool, click: bool, cursor: Option<SSPoint>) -> WiringInput {
    WiringInput { escape, click, cursor }
}

#[test]
fn a_click_begins_a_wire() {
    let (s, a) = wiring_step(WiringToolState::Ready, frame(false, true, Some(pt(1, 2))));
    assert_eq!(s, WiringToolState::Drawing(WireSeg::new(pt(1, 2))));
    assert_eq!(a, WiringAction::Begin(pt(1, 2)));
}

#[test]
fn nothing_begins_without_a_click_or_off_the_schematic() {
    let ready = WiringToolState::Ready;
    assert_eq!(wiring_step(ready, frame(false, false, Some(pt(1, 2)))), (ready, WiringAction::Nothing));
    assert_eq!(wiring_step(ready, frame(false, true, None)), (ready, WiringAction::Nothing));
    assert_eq!(wiring_step(ready, frame(true, false, None)), (ready, WiringAction::Nothing));
}

#[test]
fn the_free_end_follows_the_cursor() {
    let drawing = WiringToolState::Drawing(WireSeg::new(pt(1, 2)));
    let (s, a) = wiring_step(drawing, frame(false, false, Some(pt(4, 2))));
    assert_eq!(s, WiringToolState::Drawing(WireSeg { anchor: pt(1, 2), free: pt(4, 2) }));
    assert_eq!(a, WiringAction::Stretch(pt(4, 2)));
    assert_eq!(wiring_step(s, frame(false, false, None)), (s, WiringAction::Nothing));
}

#[test]
fn a_click_ends_a_wire_and_begins_the_next() {
    let seg = WireSeg { anchor: pt(1, 2), free: pt(4, 2) };
    let (s, a) = wiring_step(WiringToolState::Drawing(seg), frame(false, true, Some(pt(4, 2))));
    assert_eq!(s, WiringToolState::Drawing(WireSeg::new(pt(4, 2))));
    assert_eq!(a, WiringAction::Finish(seg, pt(4, 2)));
    let stay = wiring_step(WiringToolState::Drawing(seg), frame(false, true, None));
    assert_eq!(stay, (WiringToolState::Drawing(seg), WiringAction::Nothing));
}

#[test]
fn a_click_on_a_wire_without_length_stops_the_drawing() {
    let drawing = WiringToolState::Drawing(WireSeg::new(pt(1, 2)));
    let (s, a) = wiring_step(drawing, frame(false, true, Some(pt(1, 2))));
    assert_eq!(s, WiringToolState::Ready);
    assert_eq!(a, WiringAction::Rest);
}

#[test]
fn escape_abandons_the_wire() {
    let seg = WireSeg { anchor: pt(1, 2), free: pt(4, 2) };
    let (s, a) = wiring_step(WiringToolState::Drawing(seg), frame(true, true, Some(pt(9, 9))));
    assert_eq!(s, WiringToolState::Ready);
    assert_eq!(a, WiringAction::Abandon);
}
