//! The decisions of the wiring tool: what a click, a move of the cursor or
//! the escape key does while wires are drawn. The tool itself lives with
//! the window; here is only what it decides.

use crate::geometry::SSPoint;
use vstd::prelude::*;

verus! {

/// A wire while it is drawn: from `anchor`, where it was begun, to its free
/// end.
#[derive(Clone, Copy, Debug, PartialEq, Eq, Structural, Hash)]
pub struct WireSeg {
    pub anchor: SSPoint,
    pub free: SSPoint,
}

impl WireSeg {
    /// A wire without length at `pt`.
    pub fn new(pt: SSPoint) -> (w: WireSeg)
        ensures
            w == (WireSeg { anchor: pt, free: pt }),
    {
        WireSeg { anchor: pt, free: pt }
    }
}

/// The state of the wiring tool.
#[derive(Clone, Copy, Debug, PartialEq, Eq, Structural, Hash)]
pub enum WiringToolState {
    /// ready to place the first anchor
    Ready,
    /// placing the free end of the wire
    Drawing(WireSeg),
}

/// What the tool sees in one frame: whether the escape key and the left
/// button were released, and where the cursor is on the grid, if it is over
/// the schematic.
#[derive(Clone, Copy, Debug, PartialEq, Eq, Structural, Hash)]
pub struct WiringInput {
    pub escape: bool,
    pub click: bool,
    pub cursor: Option<SSPoint>,
}

/// What the tool asks of the window.
#[derive(Clone, Copy, Debug, PartialEq, Eq, Structural, Hash)]
pub enum WiringAction {
    /// nothing
    Nothing,
    /// show a new wire without length at the point
    Begin(SSPoint),
    /// take the wire that is drawn out of the picture, and leave the tool
    Abandon,
    /// keep the wire that was drawn, and show a new one at the point
    Finish(WireSeg, SSPoint),
    /// the wire that was drawn has no length: stop drawing
    Rest,
    /// show the wire that is drawn with its free end at the point
    Stretch(SSPoint),
}

/// The state after a frame, and what is asked of the window.
///
/// Ready, a click over the schematic begins a wire there. While a wire is
/// drawn, the escape key abandons it; a click ends it where it has length
/// and the cursor is over the schematic, and begins the next at the cursor,
/// while a click on a wire without length stops the drawing; and with no
/// key and no click the free end follows the cursor.
pub open spec fn wiring_next(state: WiringToolState, input: WiringInput) -> (
    WiringToolState,
    WiringAction,
) {
    match state {
        WiringToolState::Ready => {
            if input.click && input.cursor.is_some() {
                (
                    WiringToolState::Drawing(
                        WireSeg {
                            anchor: input.cursor.unwrap(),
                            free: input.cursor.unwrap(),
                        },
                    ),
                    WiringAction::Begin(input.cursor.unwrap()),
                )
            } else {
                (WiringToolState::Ready, WiringAction::Nothing)
            }
        },
        WiringToolState::Drawing(seg) => {
            if input.escape {
                (WiringToolState::Ready, WiringAction::Abandon)
            } else if input.click {
                if seg.anchor != seg.free {
                    if input.cursor.is_some() {
                        (
                            WiringToolState::Drawing(
                                WireSeg {
                            anchor: input.cursor.unwrap(),
                            free: input.cursor.unwrap(),
                        },
                            ),
                            WiringAction::Finish(seg, input.cursor.unwrap()),
                        )
                    } else {
                        (state, WiringAction::Nothing)
                    }
                } else {
                    (WiringToolState::Ready, WiringAction::Rest)
                }
            } else if input.cursor.is_some() {
                (
                    WiringToolState::Drawing(
                        WireSeg { anchor: seg.anchor, free: input.cursor.unwrap() },
                    ),
                    WiringAction::Stretch(input.cursor.unwrap()),
                )
            } else {
                (state, WiringAction::Nothing)
            }
        },
    }
}

/// One frame of the wiring tool. A wire that is kept has length.
pub fn wiring_step(state: WiringToolState, input: WiringInput) -> (r: (
    WiringToolState,
    WiringAction,
))
    ensures
        r == wiring_next(state, input),
        r.1 matches WiringAction::Finish(seg, _) ==> seg.anchor != seg.free,
        input.escape && state != WiringToolState::Ready ==> r == (
            WiringToolState::Ready,
            WiringAction::Abandon,
        ),
{
    match state {
        WiringToolState::Ready => {
            match input.cursor {
                Some(pt) => {
                    if input.click {
                        (WiringToolState::Drawing(WireSeg::new(pt)), WiringAction::Begin(pt))
                    } else {
                        (WiringToolState::Ready, WiringAction::Nothing)
                    }
                },
                None => (WiringToolState::Ready, WiringAction::Nothing),
            }
        },
        WiringToolState::Drawing(seg) => {
            if input.escape {
                (WiringToolState::Ready, WiringAction::Abandon)
            } else if input.click {
                if seg.anchor != seg.free {
                    match input.cursor {
                        Some(pt) => (
                            WiringToolState::Drawing(WireSeg::new(pt)),
                            WiringAction::Finish(seg, pt),
                        ),
                        None => (state, WiringAction::Nothing),
                    }
                } else {
                    (WiringToolState::Ready, WiringAction::Rest)
                }
            } else {
                match input.cursor {
                    Some(pt) => (
                        WiringToolState::Drawing(WireSeg { anchor: seg.anchor, free: pt }),
                        WiringAction::Stretch(pt),
                    ),
                    None => (state, WiringAction::Nothing),
                }
            }
        },
    }
}

} // verus!
