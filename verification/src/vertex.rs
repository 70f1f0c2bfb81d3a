//! A node of the wire graph. It is nothing but its place on the grid: two
//! nodes at the same point are the same node.

use crate::geometry::SSPoint;
use crate::graph::Coord;
use vstd::prelude::*;

verus! {

/// A node of the wire graph, told by its grid point.
#[derive(Clone, Copy, Debug, PartialEq, Eq, Structural, Hash)]
pub struct NetVertex(pub SSPoint);

impl NetVertex {
    /// The coordinate pair under which the graph keeps the node.
    pub open spec fn key(self) -> Coord {
        self.0.key()
    }

    /// The coordinate pair under which the graph keeps the node.
    pub fn to_key(self) -> (k: Coord)
        ensures
            k == self.key(),
    {
        self.0.to_key()
    }

    /// The node that the graph keeps under `k`.
    pub fn from_key(k: Coord) -> (v: NetVertex)
        ensures
            v.0 == SSPoint::at(k),
            v.key() == k,
    {
        NetVertex(SSPoint::from_key(k))
    }

    /// Whether the node sits at `ssp`.
    pub fn occupies_ssp(&self, ssp: SSPoint) -> (r: bool)
        ensures
            r == (self.0 == ssp),
    {
        self.0 == ssp
    }
}

} // verus!
