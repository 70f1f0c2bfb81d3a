//! The built-in device symbols: where their pins sit, how far they reach,
//! and the strokes that draw them.

use crate::geometry::{SSBox, SSPoint};
use vstd::prelude::*;

verus! {

/// A pin of a device: its name and where it sits relative to the device's
/// origin.
#[derive(Clone, Debug, PartialEq, Eq, Hash)]
pub struct Port {
    pub name: &'static str,
    pub offset: SSPoint,
}

impl Default for Port {
    /// A pin without a name at the device's origin.
    fn default() -> (p: Port)
        ensures
            p.name@ == ""@,
            p.offset == pt(0, 0),
    {
        Port { name: "", offset: SSPoint::new(0, 0) }
    }
}

/// The strokes of a device symbol: polylines through grid points, relative
/// to the device's origin.
#[derive(Clone, Debug, PartialEq)]
pub struct Graphics {
    pub pts: Vec<Vec<SSPoint>>,
}

/// The grid point `(x, y)`.
pub open spec fn pt(x: int, y: int) -> SSPoint {
    SSPoint { x: x as i16, y: y as i16 }
}

/// The strokes of the ground symbol: a stem, and a triangle below it.
pub open spec fn gnd_strokes() -> Seq<Seq<SSPoint>> {
    seq![seq![pt(0, 2), pt(0, -1)], seq![pt(0, -2), pt(1, -1), pt(-1, -1), pt(0, -2)]]
}

/// The strokes of the resistor symbol: a lead through the body, and the
/// body's rectangle.
pub open spec fn res_strokes() -> Seq<Seq<SSPoint>> {
    seq![
        seq![pt(0, 3), pt(0, -3)],
        seq![pt(-1, 2), pt(-1, -2), pt(1, -2), pt(1, 2), pt(-1, 2)],
    ]
}

impl Default for Graphics {
    /// No strokes.
    fn default() -> (g: Graphics)
        ensures
            g.strokes() == Seq::<Seq<SSPoint>>::empty(),
    {
        let g = Graphics { pts: Vec::new() };
        proof {
            assert(g.strokes() =~= Seq::<Seq<SSPoint>>::empty());
        }
        g
    }
}

impl Graphics {
    /// The polylines as sequences of points.
    pub open spec fn strokes(&self) -> Seq<Seq<SSPoint>> {
        self.pts@.map_values(|v: Vec<SSPoint>| v@)
    }

    /// The strokes of the ground symbol.
    pub fn new_gnd() -> (g: Graphics)
        ensures
            g.strokes() == gnd_strokes(),
    {
        let mut stem: Vec<SSPoint> = Vec::new();
        stem.push(SSPoint::new(0, 2));
        stem.push(SSPoint::new(0, -1));
        let mut tip: Vec<SSPoint> = Vec::new();
        tip.push(SSPoint::new(0, -2));
        tip.push(SSPoint::new(1, -1));
        tip.push(SSPoint::new(-1, -1));
        tip.push(SSPoint::new(0, -2));
        let mut pts: Vec<Vec<SSPoint>> = Vec::new();
        pts.push(stem);
        pts.push(tip);
        let g = Graphics { pts };
        proof {
            assert(g.strokes()[0] =~= gnd_strokes()[0]);
            assert(g.strokes()[1] =~= gnd_strokes()[1]);
            assert(g.strokes() =~= gnd_strokes());
        }
        g
    }

    /// The strokes of the resistor symbol.
    pub fn new_res() -> (g: Graphics)
        ensures
            g.strokes() == res_strokes(),
    {
        let mut lead: Vec<SSPoint> = Vec::new();
        lead.push(SSPoint::new(0, 3));
        lead.push(SSPoint::new(0, -3));
        let mut body: Vec<SSPoint> = Vec::new();
        body.push(SSPoint::new(-1, 2));
        body.push(SSPoint::new(-1, -2));
        body.push(SSPoint::new(1, -2));
        body.push(SSPoint::new(1, 2));
        body.push(SSPoint::new(-1, 2));
        let mut pts: Vec<Vec<SSPoint>> = Vec::new();
        pts.push(lead);
        pts.push(body);
        let g = Graphics { pts };
        proof {
            assert(g.strokes()[0] =~= res_strokes()[0]);
            assert(g.strokes()[1] =~= res_strokes()[1]);
            assert(g.strokes() =~= res_strokes());
        }
        g
    }
}

/// The kind of a device.
#[derive(Clone, Copy, Debug, PartialEq, Eq, Structural, Hash)]
pub enum TypeEnum {
    L,
    C,
    V,
}

impl Default for TypeEnum {
    /// The first type.
    fn default() -> (t: TypeEnum)
        ensures
            t == TypeEnum::L,
    {
        TypeEnum::L
    }
}

/// A kind of device: its pins, its extent, its symbol and its type.
#[derive(Clone, Debug, PartialEq)]
pub struct DeviceType {
    ports: Vec<Port>,
    bounds: SSBox,
    graphic: Graphics,
    type_enum: TypeEnum,
}

impl Default for DeviceType {
    /// A device without pins, extent and strokes.
    fn default() -> (d: DeviceType)
        ensures
            d.ports() == Seq::<Port>::empty(),
            d.bounds() == SSBox::zero(),
            d.strokes() == Seq::<Seq<SSPoint>>::empty(),
            d.kind() == TypeEnum::L,
    {
        DeviceType {
            ports: Vec::new(),
            bounds: SSBox::new(SSPoint::new(0, 0), SSPoint::new(0, 0)),
            graphic: Graphics::default(),
            type_enum: TypeEnum::L,
        }
    }
}

impl DeviceType {
    /// The pins, in order.
    pub closed spec fn ports(&self) -> Seq<Port> {
        self.ports@
    }

    /// The extent, as the two corners it was given with.
    pub closed spec fn bounds(&self) -> SSBox {
        self.bounds
    }

    /// The strokes of the symbol.
    pub closed spec fn strokes(&self) -> Seq<Seq<SSPoint>> {
        self.graphic.strokes()
    }

    /// The type.
    pub closed spec fn kind(&self) -> TypeEnum {
        self.type_enum
    }

    /// The pins, in order.
    pub fn get_ports(&self) -> (r: &[Port])
        ensures
            r@ == self.ports(),
    {
        self.ports.as_slice()
    }

    /// The extent.
    pub fn get_bounds(&self) -> (r: &SSBox)
        ensures
            *r == self.bounds(),
    {
        &self.bounds
    }

    /// The symbol.
    pub fn get_graphics(&self) -> (r: &Graphics)
        ensures
            r.strokes() == self.strokes(),
    {
        &self.graphic
    }

    /// The type.
    pub fn get_type(&self) -> (r: &TypeEnum)
        ensures
            *r == self.kind(),
    {
        &self.type_enum
    }

    /// The ground symbol: one pin `gnd` at `(0, 2)`.
    pub fn new_gnd() -> (d: DeviceType)
        ensures
            d.ports().len() == 1,
            d.ports()[0].name@ == "gnd"@,
            d.ports()[0].offset == pt(0, 2),
            d.bounds() == (SSBox { min: pt(-1, 2), max: pt(1, -2) }),
            d.strokes() == gnd_strokes(),
            d.kind() == TypeEnum::V,
    {
        let mut ports: Vec<Port> = Vec::new();
        ports.push(Port { name: "gnd", offset: SSPoint::new(0, 2) });
        DeviceType {
            ports,
            bounds: SSBox::new(SSPoint::new(-1, 2), SSPoint::new(1, -2)),
            graphic: Graphics::new_gnd(),
            type_enum: TypeEnum::V,
        }
    }

    /// The resistor symbol: pins `+` at `(0, 3)` and `-` at `(0, -3)`.
    pub fn new_res() -> (d: DeviceType)
        ensures
            d.ports().len() == 2,
            d.ports()[0].name@ == "+"@,
            d.ports()[0].offset == pt(0, 3),
            d.ports()[1].name@ == "-"@,
            d.ports()[1].offset == pt(0, -3),
            d.bounds() == (SSBox { min: pt(-2, 3), max: pt(2, -3) }),
            d.strokes() == res_strokes(),
            d.kind() == TypeEnum::C,
    {
        let mut ports: Vec<Port> = Vec::new();
        ports.push(Port { name: "+", offset: SSPoint::new(0, 3) });
        ports.push(Port { name: "-", offset: SSPoint::new(0, -3) });
        DeviceType {
            ports,
            bounds: SSBox::new(SSPoint::new(-2, 3), SSPoint::new(2, -3)),
            graphic: Graphics::new_res(),
            type_enum: TypeEnum::C,
        }
    }
}

} // verus!
