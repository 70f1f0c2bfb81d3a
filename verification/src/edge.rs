//! A wire segment: two grid points on a common grid line, the name of the
//! net it belongs to, and the box by which it is hit and selected.

use crate::geometry::{axis_aligned, on_segment, lemma_rigid_keeps_segments, lemma_span_covers_segment,
    SSBox, SSPoint, SSTransform};
use vstd::prelude::*;

verus! {

/// The region in which an element answers to the cursor and to selection.
#[derive(Clone, Copy, Debug, PartialEq, Eq, Structural)]
pub struct Interactable {
    pub bounds: SSBox,
}

impl Interactable {
    /// The region `bounds`.
    pub fn new(bounds: SSBox) -> (r: Interactable)
        ensures
            r.bounds == bounds,
    {
        Interactable { bounds }
    }

    /// Whether `ssp` lies in the bounds or on their border.
    pub fn contains_ssp(&self, ssp: SSPoint) -> (r: bool)
        ensures
            r == self.bounds.covers(ssp),
    {
        self.bounds.contains_inclusive(ssp)
    }

    /// Whether the bounds overlap the box `ssb`.
    pub fn intersects_ssb(&self, ssb: &SSBox) -> (r: bool)
        ensures
            r == self.bounds.overlaps(*ssb),
    {
        self.bounds.intersects(ssb)
    }
}

/// The payload of a graph edge.
#[derive(Debug)]
pub struct NetEdge {
    pub src: SSPoint,
    pub dst: SSPoint,
    /// name of the net that the segment belongs to, once one is assigned
    pub label: Option<String>,
    pub interactable: Interactable,
}

impl Clone for NetEdge {
    /// A segment with the same ends, name and bounds.
    fn clone(&self) -> (r: NetEdge)
        ensures
            r == *self,
    {
        let label = match &self.label {
            Some(s) => Some(s.clone()),
            None => None,
        };
        NetEdge { src: self.src, dst: self.dst, label, interactable: self.interactable }
    }
}

impl NetEdge {
    /// The segment has two distinct ends on a common grid line, and its
    /// bounds are the box that the two ends span.
    pub open spec fn wf(&self) -> bool {
        &&& self.src != self.dst
        &&& axis_aligned(self.src, self.dst)
        &&& self.interactable.bounds == SSBox::spanning(self.src, self.dst)
    }

    /// The name of the segment's net as text, if it has one.
    pub open spec fn name(&self) -> Option<Seq<char>> {
        match self.label {
            Some(s) => Some(s@),
            None => None,
        }
    }

    /// `p` lies on the closed segment.
    pub open spec fn covers(&self, p: SSPoint) -> bool {
        on_segment(self.src, self.dst, p)
    }

    /// `p` lies on the segment and is neither of its ends.
    pub open spec fn passes(&self, p: SSPoint) -> bool {
        on_segment(self.src, self.dst, p) && p != self.src && p != self.dst
    }

    /// `p` is one of the two ends.
    pub open spec fn ends_at(&self, p: SSPoint) -> bool {
        p == self.src || p == self.dst
    }

    /// The bounds of a segment from `src` to `dst`.
    pub fn interactable(src: SSPoint, dst: SSPoint) -> (r: Interactable)
        ensures
            r.bounds == SSBox::spanning(src, dst),
    {
        Interactable { bounds: SSBox::from_pair(src, dst) }
    }

    /// An unnamed segment from `src` to `dst`.
    pub fn new(src: SSPoint, dst: SSPoint) -> (e: NetEdge)
        ensures
            e.src == src,
            e.dst == dst,
            e.label.is_none(),
            e.interactable.bounds == SSBox::spanning(src, dst),
            src != dst && axis_aligned(src, dst) ==> e.wf(),
    {
        NetEdge { src, dst, label: None, interactable: NetEdge::interactable(src, dst) }
    }

    /// A segment from `src` to `dst` that belongs to the net `label`.
    pub fn labelled(src: SSPoint, dst: SSPoint, label: Option<String>) -> (e: NetEdge)
        ensures
            e.src == src,
            e.dst == dst,
            e.label == label,
            e.interactable.bounds == SSBox::spanning(src, dst),
            src != dst && axis_aligned(src, dst) ==> e.wf(),
    {
        NetEdge { src, dst, label, interactable: NetEdge::interactable(src, dst) }
    }

    /// Whether `ssp` lies on the segment, ends included.
    pub fn intersects_ssp(&self, ssp: SSPoint) -> (r: bool)
        ensures
            r == self.interactable.bounds.covers(ssp),
            self.wf() ==> r == self.covers(ssp),
    {
        proof {
            if self.wf() {
                lemma_span_covers_segment(self.src, self.dst, ssp);
            }
        }
        self.interactable.contains_ssp(ssp)
    }

    /// The name of the segment's net.
    pub fn label_text(&self) -> (s: String)
        requires
            self.label.is_some(),
        ensures
            Some(s@) == self.name(),
            s == self.label.unwrap(),
    {
        match &self.label {
            Some(l) => l.clone(),
            None => String::new(),
        }
    }

    /// Whether `ssp` is one of the two ends.
    pub fn is_end(&self, ssp: SSPoint) -> (r: bool)
        ensures
            r == self.ends_at(ssp),
    {
        ssp == self.src || ssp == self.dst
    }

    /// Whether the segment's bounds overlap the box `ssb`.
    pub fn intersects_ssb(&self, ssb: &SSBox) -> (r: bool)
        ensures
            r == self.interactable.bounds.overlaps(*ssb),
    {
        self.interactable.intersects_ssb(ssb)
    }

    /// Moves both ends by `sst` and takes the bounds anew. The name stays.
    pub fn transform(&mut self, sst: SSTransform)
        requires
            sst.fits(old(self).src),
            sst.fits(old(self).dst),
        ensures
            final(self).src == sst.image(old(self).src),
            final(self).dst == sst.image(old(self).dst),
            final(self).label == old(self).label,
            final(self).interactable.bounds == SSBox::spanning(final(self).src, final(self).dst),
            old(self).wf() && sst.rigid() ==> final(self).wf(),
    {
        proof {
            if self.wf() && sst.rigid() {
                lemma_rigid_keeps_segments(sst, self.src, self.dst, self.src);
            }
        }
        self.src = sst.transform_point(self.src);
        self.dst = sst.transform_point(self.dst);
        self.interactable = NetEdge::interactable(self.src, self.dst);
    }
}

} // verus!
