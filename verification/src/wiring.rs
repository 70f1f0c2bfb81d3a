//! The wire graph as a mathematical object: a set of nodes and a table of
//! segments. The rules that pruning restores are stated here, over that
//! object alone.

use crate::edge::{Interactable, NetEdge};
use crate::geometry::{axis_aligned, on_segment, strictly_inside, SSBox, SSPoint};
use crate::graph::{coord_le, edge_key, graph_edges, graph_nodes, Coord, EdgeKey, WireGraph};
use vstd::prelude::*;

verus! {

/// The payload `e` belongs under the key `k`: it is a proper segment, and
/// its two ends are the two ends of the key.
pub open spec fn edge_fits(k: EdgeKey, e: NetEdge) -> bool {
    e.wf() && edge_key(e.src.key(), e.dst.key()) == k
}

/// The segment from `src` to `dst` with the given name.
pub open spec fn named_edge(src: SSPoint, dst: SSPoint, label: Option<String>) -> NetEdge {
    NetEdge { src, dst, label, interactable: Interactable { bounds: SSBox::spanning(src, dst) } }
}

/// The unnamed segment from `src` to `dst`.
pub open spec fn plain_edge(src: SSPoint, dst: SSPoint) -> NetEdge {
    named_edge(src, dst, None)
}

/// `p` lies on the closed segment between the two ends of `k`.
pub open spec fn key_covers(k: EdgeKey, p: SSPoint) -> bool {
    on_segment(SSPoint::at(k.0), SSPoint::at(k.1), p)
}

/// `p` lies on the segment between the two ends of `k` and is neither end.
pub open spec fn key_passes(k: EdgeKey, p: SSPoint) -> bool {
    strictly_inside(SSPoint::at(k.0), SSPoint::at(k.1), p)
}

/// `k` is one of the two pieces that `h` falls into when it is cut at `p`.
pub open spec fn half_of(h: EdgeKey, p: SSPoint, k: EdgeKey) -> bool {
    k == edge_key(h.0, p.key()) || k == edge_key(h.1, p.key())
}

/// The end of `k` that is not `p`.
pub open spec fn far_end(k: EdgeKey, p: SSPoint) -> Coord {
    if k.0 == p.key() {
        k.1
    } else {
        k.0
    }
}

/// `p` and `q` are the same point or neighbours on a grid line.
pub open spec fn next_to(p: SSPoint, q: SSPoint) -> bool {
    ||| (p.x == q.x && -1 <= p.y - q.y <= 1)
    ||| (p.y == q.y && -1 <= p.x - q.x <= 1)
}

/// Nodes and segments.
pub struct Wiring {
    pub nodes: Set<Coord>,
    pub edges: Map<EdgeKey, NetEdge>,
}

/// The nodes and segments of a graph.
pub open spec fn wiring_of(g: WireGraph) -> Wiring {
    Wiring { nodes: graph_nodes(g), edges: graph_edges(g) }
}

impl Wiring {
    /// Every segment is proper, kept under the key of its two ends, and
    /// ends in nodes.
    pub open spec fn wf(self) -> bool {
        forall|k: EdgeKey| #[trigger]
            self.edges.contains_key(k) ==> edge_fits(k, self.edges[k]) && self.nodes.contains(k.0)
                && self.nodes.contains(k.1)
    }

    /// A segment connects `a` and `b`.
    pub open spec fn adjacent(self, a: Coord, b: Coord) -> bool {
        self.edges.contains_key(edge_key(a, b))
    }

    /// No segment has `p` in its open interior.
    pub open spec fn split_free(self, p: SSPoint) -> bool {
        forall|k: EdgeKey| #[trigger] self.edges.contains_key(k) ==> !key_passes(k, p)
    }

    /// No segment has a node in its open interior.
    #[verifier::opaque]
    pub open spec fn bisected(self) -> bool {
        forall|n: Coord| #[trigger] self.nodes.contains(n) ==> self.split_free(SSPoint::at(n))
    }

    /// Some segment holds both `p` and `q`.
    pub open spec fn links(self, p: SSPoint, q: SSPoint) -> bool {
        exists|k: EdgeKey| #[trigger] self.edges.contains_key(k) && key_covers(k, p) && key_covers(k, q)
    }

    /// Some segment holds `p`.
    pub open spec fn occupied(self, p: SSPoint) -> bool {
        self.links(p, p)
    }

    /// No segment ends at `v`.
    pub open spec fn isolated(self, v: Coord) -> bool {
        forall|u: Coord| !#[trigger] self.adjacent(v, u)
    }

    /// `n0` and `n1` are the only neighbours of `v`, and `v` lies on the
    /// straight segment between them.
    pub open spec fn waypoint_between(self, v: Coord, n0: Coord, n1: Coord) -> bool {
        &&& n0 != n1
        &&& self.adjacent(v, n0)
        &&& self.adjacent(v, n1)
        &&& forall|u: Coord| #[trigger] self.adjacent(v, u) ==> u == n0 || u == n1
        &&& strictly_inside(SSPoint::at(n0), SSPoint::at(n1), SSPoint::at(v))
    }

    /// `v` has exactly two neighbours and lies on the straight segment
    /// between them: the wire passes through it without turning or branching.
    pub open spec fn redundant(self, v: Coord) -> bool {
        exists|n0: Coord, n1: Coord| #[trigger] self.waypoint_between(v, n0, n1)
    }

    /// Every name on a segment of `self` stands on some segment of `src`.
    #[verifier::opaque]
    pub open spec fn names_from(self, src: Wiring) -> bool {
        forall|k: EdgeKey| #[trigger]
            self.edges.contains_key(k) ==> exists|k0: EdgeKey| #[trigger]
                src.edges.contains_key(k0) && src.edges[k0].label == self.edges[k].label
    }

    /// The segments of `self` cover what the segments of `other` cover: the
    /// same points, and between neighbouring points the same steps.
    #[verifier::opaque]
    pub open spec fn same_cover(self, other: Wiring) -> bool {
        forall|p: SSPoint, q: SSPoint|
            next_to(p, q) ==> #[trigger] self.links(p, q) == #[trigger] other.links(p, q)
    }
}

/// Every node has a segment.
#[verifier::opaque]
pub open spec fn no_isolated(w: Wiring) -> bool {
    forall|n: Coord| #[trigger] w.nodes.contains(n) ==> !w.isolated(n)
}

/// What `no_isolated` says of one node.
pub proof fn lemma_not_isolated(w: Wiring, n: Coord)
    requires
        no_isolated(w),
        w.nodes.contains(n),
    ensures
        !w.isolated(n),
{
    reveal(no_isolated);
}

/// What cutting at `p` makes of `pre` when the segments in `hs`, all of
/// which pass through `p`, are cut: each of them is replaced by its two
/// pieces, which carry its name and end at `p`; `p` is a node if anything
/// was cut; every other segment is what it was.
pub open spec fn bisects_by(pre: Wiring, post: Wiring, p: SSPoint, hs: Set<EdgeKey>) -> bool {
    &&& post.nodes == if hs =~= Set::<EdgeKey>::empty() {
        pre.nodes
    } else {
        pre.nodes.insert(p.key())
    }
    &&& forall|k: EdgeKey| #[trigger]
        post.edges.contains_key(k) <==> (pre.edges.contains_key(k) && !hs.contains(k)) || (exists|
            h: EdgeKey,
        | #[trigger]
            hs.contains(h) && half_of(h, p, k))
    &&& forall|k: EdgeKey| #[trigger]
        post.edges.contains_key(k) ==> if exists|h: EdgeKey| #[trigger]
            hs.contains(h) && half_of(h, p, k) {
            exists|h: EdgeKey| #[trigger]
                hs.contains(h) && half_of(h, p, k) && post.edges[k] == named_edge(
                    SSPoint::at(far_end(k, p)),
                    p,
                    pre.edges[h].label,
                )
        } else {
            post.edges[k] == pre.edges[k]
        }
}

/// The segments of `pre` that pass through `p`.
pub open spec fn hits_at(pre: Wiring, p: SSPoint) -> Set<EdgeKey> {
    Set::new(|h: EdgeKey| pre.edges.contains_key(h) && key_passes(h, p))
}

/// `post` is `pre` with every segment that passes through `p` cut at `p`.
#[verifier::opaque]
pub open spec fn bisects(pre: Wiring, post: Wiring, p: SSPoint) -> bool {
    bisects_by(pre, post, p, hits_at(pre, p))
}

/// A payload that fits its key covers and passes what the key does.
pub proof fn lemma_fit_geometry(k: EdgeKey, e: NetEdge, p: SSPoint)
    requires
        edge_fits(k, e),
    ensures
        e.covers(p) == key_covers(k, p),
        e.passes(p) == key_passes(k, p),
        k.0 != k.1,
        coord_le(k.0, k.1),
        axis_aligned(SSPoint::at(k.0), SSPoint::at(k.1)),
        (e.src.key() == k.0 && e.dst.key() == k.1) || (e.src.key() == k.1 && e.dst.key() == k.0),
{
}

/// The piece from `far` to `p` of a segment through `p` is a proper segment
/// under the key of its two ends.
pub proof fn lemma_half_fits(h: EdgeKey, p: SSPoint, far: Coord, label: Option<String>)
    requires
        key_passes(h, p),
        far == h.0 || far == h.1,
    ensures
        edge_fits(edge_key(far, p.key()), named_edge(SSPoint::at(far), p, label)),
        far_end(edge_key(far, p.key()), p) == far,
        edge_key(far, p.key()) != h,
{
}

/// Cutting leaves a sound wiring sound, leaves no segment through the
/// cutting point, puts no point into the interior of a segment that was in
/// none before, keeps the cover, and brings no new name.
pub proof fn lemma_bisects(pre: Wiring, post: Wiring, p: SSPoint)
    requires
        pre.wf(),
        bisects(pre, post, p),
    ensures
        post.wf(),
        post.split_free(p),
        forall|q: SSPoint| pre.split_free(q) ==> post.split_free(q),
        post.same_cover(pre),
        post.names_from(pre),
        pre.nodes.subset_of(post.nodes),
        post.nodes.subset_of(pre.nodes.insert(p.key())),
        pre.nodes.contains(p.key()) ==> post.nodes == pre.nodes,
{
    reveal(Wiring::bisected);
    reveal(Wiring::names_from);
    reveal(Wiring::same_cover);
    reveal(bisects);
    reveal(eliminates);
    reveal(cut_at_all);
    let hs = hits_at(pre, p);
    assert forall|k: EdgeKey| #[trigger] post.edges.contains_key(k) implies edge_fits(
        k,
        post.edges[k],
    ) && post.nodes.contains(k.0) && post.nodes.contains(k.1) && !key_passes(k, p) && (exists|
        k0: EdgeKey,
    | #[trigger]
        pre.edges.contains_key(k0) && pre.edges[k0].label == post.edges[k].label) by {
        if exists|h: EdgeKey| #[trigger] hs.contains(h) && half_of(h, p, k) {
            let h = choose|h: EdgeKey| #[trigger]
                hs.contains(h) && half_of(h, p, k) && post.edges[k] == named_edge(
                    SSPoint::at(far_end(k, p)),
                    p,
                    pre.edges[h].label,
                );
            assert(pre.edges.contains_key(h));
            let far = if k == edge_key(h.0, p.key()) { h.0 } else { h.1 };
            lemma_half_fits(h, p, far, pre.edges[h].label);
            assert(!(hs =~= Set::<EdgeKey>::empty()));
        } else {
            assert(pre.edges.contains_key(k) && !hs.contains(k));
        }
    }
    assert forall|q: SSPoint| pre.split_free(q) implies post.split_free(q) by {
        assert forall|k: EdgeKey| #[trigger] post.edges.contains_key(k) implies !key_passes(k, q) by {
            if exists|h: EdgeKey| #[trigger] hs.contains(h) && half_of(h, p, k) {
                let h = choose|h: EdgeKey| #[trigger] hs.contains(h) && half_of(h, p, k);
                assert(pre.edges.contains_key(h));
                assert(!key_passes(h, q));
            } else {
                assert(pre.edges.contains_key(k));
            }
        }
    }
    assert forall|q: SSPoint, r: SSPoint| next_to(q, r) implies #[trigger] post.links(q, r)
        == #[trigger] pre.links(q, r) by {
        if post.links(q, r) {
            let k = choose|k: EdgeKey| #[trigger]
                post.edges.contains_key(k) && key_covers(k, q) && key_covers(k, r);
            if exists|h: EdgeKey| #[trigger] hs.contains(h) && half_of(h, p, k) {
                let h = choose|h: EdgeKey| #[trigger] hs.contains(h) && half_of(h, p, k);
                assert(pre.edges.contains_key(h) && key_covers(h, q) && key_covers(h, r));
            } else {
                assert(pre.edges.contains_key(k));
            }
        }
        if pre.links(q, r) {
            let k = choose|k: EdgeKey| #[trigger]
                pre.edges.contains_key(k) && key_covers(k, q) && key_covers(k, r);
            if hs.contains(k) {
                let k0 = edge_key(k.0, p.key());
                let k1 = edge_key(k.1, p.key());
                assert(half_of(k, p, k0) && half_of(k, p, k1));
                assert(post.edges.contains_key(k0));
                assert(post.edges.contains_key(k1));
                lemma_cut_links(SSPoint::at(k.0), SSPoint::at(k.1), p, q, r);
                assert((key_covers(k0, q) && key_covers(k0, r)) || (key_covers(k1, q) && key_covers(
                    k1,
                    r,
                )));
            } else {
                assert(post.edges.contains_key(k));
            }
        }
    }
}

/// The table without the segments that end at `v`, and with a segment from
/// `n0` to `n1` that carries `label`.
pub open spec fn merged_edges(
    edges: Map<EdgeKey, NetEdge>,
    v: Coord,
    n0: Coord,
    n1: Coord,
    label: Option<String>,
) -> Map<EdgeKey, NetEdge> {
    crate::graph::without_node(edges, v).insert(
        edge_key(n0, n1),
        named_edge(SSPoint::at(n0), SSPoint::at(n1), label),
    )
}

/// What taking out `v` makes of `pre`. A node without neighbours just
/// leaves. A node that a wire merely passes through leaves with its two
/// segments, and one segment between its two neighbours takes their place,
/// under the name of one of the two. Any other node stays, and nothing
/// changes.
#[verifier::opaque]
pub open spec fn eliminates(pre: Wiring, post: Wiring, v: Coord) -> bool {
    if pre.isolated(v) {
        post.nodes == pre.nodes.remove(v) && post.edges == pre.edges
    } else if pre.redundant(v) {
        exists|n0: Coord, n1: Coord| #[trigger]
            pre.waypoint_between(v, n0, n1) && post.nodes == pre.nodes.remove(v) && post.edges
                == merged_edges(pre.edges, v, n0, n1, pre.edges[edge_key(v, n0)].label)
    } else {
        post == pre
    }
}

/// A point on a segment cuts it into two that together hold the same points.
pub proof fn lemma_cut_cover(a: SSPoint, b: SSPoint, v: SSPoint, q: SSPoint)
    requires
        strictly_inside(a, b, v),
    ensures
        on_segment(a, b, q) <==> on_segment(a, v, q) || on_segment(v, b, q),
        strictly_inside(a, b, q) && q != v ==> strictly_inside(a, v, q) || strictly_inside(v, b, q),
        strictly_inside(a, v, q) || strictly_inside(v, b, q) ==> strictly_inside(a, b, q),
{
}

/// A point on a segment cuts it into two that together make the same
/// steps between neighbouring points.
pub proof fn lemma_cut_links(a: SSPoint, b: SSPoint, v: SSPoint, p: SSPoint, q: SSPoint)
    requires
        strictly_inside(a, b, v),
        next_to(p, q),
    ensures
        on_segment(a, b, p) && on_segment(a, b, q) <==> (on_segment(a, v, p) && on_segment(a, v, q))
            || (on_segment(v, b, p) && on_segment(v, b, q)),
{
}

/// If `a` lies between `b` and `w`, and `v` between `a` and `b`, then `a`
/// lies between `v` and `w`, and the other way round.
pub proof fn lemma_same_side(a: SSPoint, b: SSPoint, v: SSPoint, w: SSPoint)
    requires
        strictly_inside(a, b, v),
    ensures
        strictly_inside(b, w, a) <==> strictly_inside(v, w, a),
        strictly_inside(w, b, a) <==> strictly_inside(w, v, a),
        strictly_inside(b, w, a) <==> strictly_inside(w, b, a),
{
}

/// The key of a sound wiring's segment is the key of its two ends, and
/// being neighbours does not depend on the direction.
pub proof fn lemma_keys(w: Wiring)
    requires
        w.wf(),
    ensures
        forall|k: EdgeKey| #[trigger] w.edges.contains_key(k) ==> edge_key(k.0, k.1) == k && k.0 != k.1,
        forall|a: Coord, b: Coord| #[trigger] w.adjacent(a, b) ==> w.adjacent(b, a) && a != b,
{
    assert forall|k: EdgeKey| #[trigger] w.edges.contains_key(k) implies edge_key(k.0, k.1) == k && k.0
        != k.1 by {
        lemma_fit_geometry(k, w.edges[k], SSPoint::at(k.0));
    }
    assert forall|a: Coord, b: Coord| #[trigger] w.adjacent(a, b) implies w.adjacent(b, a) && a
        != b by {
        crate::graph::lemma_edge_key(a, b);
        assert(w.edges.contains_key(edge_key(a, b)));
    }
}

/// After `v` has left between `a` and `b`, `a` is no more isolated or
/// redundant than it was.
proof fn lemma_merge_keeps_end(pre: Wiring, post: Wiring, v: Coord, a: Coord, b: Coord)
    requires
        pre.wf(),
        pre.bisected(),
        pre.waypoint_between(v, a, b) || pre.waypoint_between(v, b, a),
        pre.nodes.contains(v),
        forall|k: EdgeKey| #[trigger]
            post.edges.contains_key(k) <==> k == edge_key(a, b) || (pre.edges.contains_key(k) && k.0
                != v && k.1 != v),
        !pre.redundant(a),
    ensures
        !post.isolated(a),
        !post.redundant(a),
{
    reveal(Wiring::bisected);
    reveal(Wiring::names_from);
    reveal(Wiring::same_cover);
    reveal(bisects);
    reveal(eliminates);
    reveal(cut_at_all);
    lemma_keys(pre);
    crate::graph::lemma_edge_key(a, b);
    crate::graph::lemma_edge_key(b, a);
    crate::graph::lemma_edge_key(v, a);
    crate::graph::lemma_edge_key(v, b);
    assert(post.adjacent(a, b));
    let pa = SSPoint::at(a);
    let pb = SSPoint::at(b);
    let pv = SSPoint::at(v);
    assert(strictly_inside(pa, pb, pv));
    assert(pre.adjacent(a, v));
    // there was no segment from a to b: v would lie inside it
    assert(!pre.adjacent(a, b)) by {
        if pre.adjacent(a, b) {
            assert(pre.edges.contains_key(edge_key(a, b)));
            assert(pre.split_free(pv));
            assert(key_passes(edge_key(a, b), pv));
        }
    }
    assert forall|x: Coord| #[trigger] post.adjacent(a, x) implies x == b || (pre.adjacent(a, x) && x
        != v) by {
        let k = edge_key(a, x);
        crate::graph::lemma_edge_key(a, x);
        if k != edge_key(a, b) {
            assert(pre.edges.contains_key(k));
        }
    }
    if post.redundant(a) {
        let (m0, m1) = choose|m0: Coord, m1: Coord| #[trigger] post.waypoint_between(a, m0, m1);
        assert(post.waypoint_between(a, m0, m1));
        assert(m0 == b || m1 == b);
        let w = if m0 == b { m1 } else { m0 };
        assert(post.adjacent(a, w) && w != b);
        assert(pre.adjacent(a, w) && w != v);
        let pw = SSPoint::at(w);
        lemma_same_side(pa, pb, pv, pw);
        assert(strictly_inside(pv, pw, pa));
        assert forall|x: Coord| #[trigger] pre.adjacent(a, x) implies x == v || x == w by {
            if x != v {
                crate::graph::lemma_edge_key(a, x);
                let k = edge_key(a, x);
                assert(pre.edges.contains_key(k));
                assert(k.0 != v && k.1 != v);
                assert(post.edges.contains_key(k));
                assert(post.adjacent(a, x));
            }
        }
        assert(pre.waypoint_between(a, v, w));
        assert(false);
    }
}

/// The segments after `v` has been taken out from between `n0` and `n1`.
pub proof fn lemma_merge_keys(pre: Wiring, post: Wiring, v: Coord, n0: Coord, n1: Coord, label: Option<String>)
    requires
        pre.wf(),
        pre.waypoint_between(v, n0, n1),
        post.nodes == pre.nodes.remove(v),
        post.edges == merged_edges(pre.edges, v, n0, n1, label),
    ensures
        forall|k: EdgeKey| #[trigger]
            post.edges.contains_key(k) <==> k == edge_key(n0, n1) || (pre.edges.contains_key(k) && k.0
                != v && k.1 != v),
        forall|k: EdgeKey| #[trigger]
            post.edges.contains_key(k) && k != edge_key(n0, n1) ==> post.edges[k] == pre.edges[k],
        post.edges[edge_key(n0, n1)] == named_edge(SSPoint::at(n0), SSPoint::at(n1), label),
        pre.edges.contains_key(edge_key(v, n0)),
        pre.edges.contains_key(edge_key(v, n1)),
        pre.nodes.contains(v) && pre.nodes.contains(n0) && pre.nodes.contains(n1),
        v != n0 && v != n1,
        post.wf(),
{
    lemma_keys(pre);
    crate::graph::lemma_edge_key(n0, n1);
    crate::graph::lemma_edge_key(v, n0);
    crate::graph::lemma_edge_key(v, n1);
    assert(pre.edges.contains_key(edge_key(v, n0)));
    assert(pre.edges.contains_key(edge_key(v, n1)));
    let kn = edge_key(n0, n1);
    assert forall|k: EdgeKey| #[trigger] post.edges.contains_key(k) implies edge_fits(k, post.edges[k])
        && post.nodes.contains(k.0) && post.nodes.contains(k.1) by {
        if k != kn {
            assert(pre.edges.contains_key(k));
        }
    }
}

/// Taking `v` out from between `n0` and `n1` leaves the wiring cut and
/// keeps the cover.
proof fn lemma_merge_shape(pre: Wiring, post: Wiring, v: Coord, n0: Coord, n1: Coord)
    requires
        pre.wf(),
        pre.bisected(),
        pre.waypoint_between(v, n0, n1),
        post.nodes.subset_of(pre.nodes),
        !post.nodes.contains(v),
        forall|k: EdgeKey| #[trigger]
            post.edges.contains_key(k) <==> k == edge_key(n0, n1) || (pre.edges.contains_key(k) && k.0
                != v && k.1 != v),
    ensures
        post.bisected(),
        post.same_cover(pre),
{
    reveal(Wiring::bisected);
    reveal(Wiring::same_cover);
    lemma_keys(pre);
    let kn = edge_key(n0, n1);
    let pa = SSPoint::at(n0);
    let pb = SSPoint::at(n1);
    let pv = SSPoint::at(v);
    crate::graph::lemma_edge_key(n0, n1);
    crate::graph::lemma_edge_key(v, n0);
    crate::graph::lemma_edge_key(v, n1);
    assert(pre.edges.contains_key(edge_key(v, n0)));
    assert(pre.edges.contains_key(edge_key(v, n1)));
    assert forall|n: Coord| #[trigger] post.nodes.contains(n) implies post.split_free(
        SSPoint::at(n),
    ) by {
        let q = SSPoint::at(n);
        assert(pre.nodes.contains(n));
        assert(pre.split_free(q));
        assert forall|k: EdgeKey| #[trigger] post.edges.contains_key(k) implies !key_passes(k, q) by {
            if k == kn {
                lemma_cut_cover(pa, pb, pv, q);
                lemma_cut_cover(pb, pa, pv, q);
                assert(!key_passes(edge_key(v, n0), q));
                assert(!key_passes(edge_key(v, n1), q));
                assert(q != pv);
            } else {
                assert(pre.edges.contains_key(k));
            }
        }
    }
    assert forall|p: SSPoint, q: SSPoint| next_to(p, q) implies #[trigger] post.links(p, q)
        == #[trigger] pre.links(p, q) by {
        lemma_cut_links(pa, pb, pv, p, q);
        lemma_cut_links(pb, pa, pv, p, q);
        if post.links(p, q) {
            let k = choose|k: EdgeKey| #[trigger]
                post.edges.contains_key(k) && key_covers(k, p) && key_covers(k, q);
            if k == kn {
                assert((key_covers(edge_key(v, n0), p) && key_covers(edge_key(v, n0), q)) || (
                key_covers(edge_key(v, n1), p) && key_covers(edge_key(v, n1), q)));
            } else {
                assert(pre.edges.contains_key(k));
            }
        }
        if pre.links(p, q) {
            let k = choose|k: EdgeKey| #[trigger]
                pre.edges.contains_key(k) && key_covers(k, p) && key_covers(k, q);
            if k.0 == v || k.1 == v {
                assert(pre.adjacent(k.0, k.1) && pre.adjacent(k.1, k.0));
                assert(k == edge_key(v, n0) || k == edge_key(v, n1));
                assert(post.edges.contains_key(kn) && key_covers(kn, p) && key_covers(kn, q));
            } else {
                assert(post.edges.contains_key(k));
            }
        }
    }
}

/// Taking `v` out from between `n0` and `n1` isolates no other node and
/// makes none redundant.
proof fn lemma_merge_status(pre: Wiring, post: Wiring, v: Coord, n0: Coord, n1: Coord, u: Coord)
    requires
        pre.wf(),
        pre.bisected(),
        pre.waypoint_between(v, n0, n1),
        pre.nodes.contains(v),
        forall|k: EdgeKey| #[trigger]
            post.edges.contains_key(k) <==> k == edge_key(n0, n1) || (pre.edges.contains_key(k) && k.0
                != v && k.1 != v),
        u != v,
        !pre.isolated(u),
        !pre.redundant(u),
    ensures
        !post.isolated(u),
        !post.redundant(u),
{
    lemma_keys(pre);
    crate::graph::lemma_edge_key(n0, n1);
    if u == n0 {
        lemma_merge_keeps_end(pre, post, v, n0, n1);
    } else if u == n1 {
        lemma_merge_keeps_end(pre, post, v, n1, n0);
    } else {
        assert forall|x: Coord| pre.adjacent(u, x) == post.adjacent(u, x) by {
            crate::graph::lemma_edge_key(u, x);
            if pre.adjacent(u, x) {
                if x == v {
                    assert(pre.adjacent(v, u));
                }
            }
        }
        lemma_same_neighbors_same_status(pre, post, u);
    }
}

/// Taking out a node leaves a sound and cut wiring sound and cut, keeps the
/// cover, brings no new name and no new node, and makes no other node
/// isolated or redundant that was not so before.
pub proof fn lemma_eliminates(pre: Wiring, post: Wiring, v: Coord)
    requires
        pre.wf(),
        pre.bisected(),
        eliminates(pre, post, v),
    ensures
        post.wf(),
        post.bisected(),
        post.same_cover(pre),
        post.names_from(pre),
        post.nodes.subset_of(pre.nodes),
        post.nodes.contains(v) ==> !post.isolated(v) && !post.redundant(v),
        forall|u: Coord|
            #![trigger post.nodes.contains(u)]
            post.nodes.contains(u) && u != v && !pre.isolated(u) && !pre.redundant(u)
                ==> !post.isolated(u) && !post.redundant(u),
{
    reveal(eliminates);
    if pre.isolated(v) {
        lemma_leave(pre, post, v);
    } else if pre.redundant(v) {
        let (n0, n1) = choose|n0: Coord, n1: Coord| #[trigger]
            pre.waypoint_between(v, n0, n1) && post.nodes == pre.nodes.remove(v) && post.edges
                == merged_edges(pre.edges, v, n0, n1, pre.edges[edge_key(v, n0)].label);
        let label = pre.edges[edge_key(v, n0)].label;
        lemma_merge_keys(pre, post, v, n0, n1, label);
        lemma_merge_shape(pre, post, v, n0, n1);
        assert(post.names_from(pre)) by {
            reveal(Wiring::names_from);
            assert forall|k: EdgeKey| #[trigger] post.edges.contains_key(k) implies exists|
                k0: EdgeKey,
            | #[trigger]
                pre.edges.contains_key(k0) && pre.edges[k0].label == post.edges[k].label by {
                if k == edge_key(n0, n1) {
                    assert(pre.edges.contains_key(edge_key(v, n0)));
                } else {
                    assert(pre.edges.contains_key(k));
                }
            }
        }
        assert forall|u: Coord|
            #![trigger post.nodes.contains(u)]
            post.nodes.contains(u) && u != v && !pre.isolated(u) && !pre.redundant(u)
                implies !post.isolated(u) && !post.redundant(u) by {
            lemma_merge_status(pre, post, v, n0, n1, u);
        }
    } else {
        assert(post.nodes =~= pre.nodes);
        reveal(Wiring::names_from);
        reveal(Wiring::same_cover);
        assert forall|k: EdgeKey| #[trigger] post.edges.contains_key(k) implies exists|k0: EdgeKey| #[trigger]
            pre.edges.contains_key(k0) && pre.edges[k0].label == post.edges[k].label by {}
    }
}

/// A node without a segment leaves, and nothing else changes.
proof fn lemma_leave(pre: Wiring, post: Wiring, v: Coord)
    requires
        pre.wf(),
        pre.bisected(),
        pre.isolated(v),
        post.nodes == pre.nodes.remove(v),
        post.edges == pre.edges,
    ensures
        post.wf(),
        post.bisected(),
        post.same_cover(pre),
        post.names_from(pre),
        post.nodes.subset_of(pre.nodes),
        !post.nodes.contains(v),
        forall|u: Coord|
            #![trigger post.nodes.contains(u)]
            post.nodes.contains(u) && u != v && !pre.isolated(u) && !pre.redundant(u)
                ==> !post.isolated(u) && !post.redundant(u),
{
    reveal(Wiring::bisected);
    reveal(Wiring::names_from);
    reveal(Wiring::same_cover);
    lemma_keys(pre);
    assert forall|n: Coord| #[trigger] post.nodes.contains(n) implies post.split_free(
        SSPoint::at(n),
    ) by {
        assert(pre.nodes.contains(n));
    }
    assert forall|k: EdgeKey| #[trigger] post.edges.contains_key(k) implies post.nodes.contains(k.0)
        && post.nodes.contains(k.1) by {
        assert(pre.adjacent(k.0, k.1) && pre.adjacent(k.1, k.0));
    }
    assert forall|u: Coord|
        #![trigger post.nodes.contains(u)]
        post.nodes.contains(u) && u != v && !pre.isolated(u) && !pre.redundant(u)
            implies !post.isolated(u) && !post.redundant(u) by {
        lemma_same_edges_same_status(pre, post, u);
    }
    assert forall|k: EdgeKey| #[trigger] post.edges.contains_key(k) implies exists|k0: EdgeKey| #[trigger]
        pre.edges.contains_key(k0) && pre.edges[k0].label == post.edges[k].label by {}
}

/// A node with the same segments has the same standing.
pub proof fn lemma_same_edges_same_status(pre: Wiring, post: Wiring, u: Coord)
    requires
        post.edges.dom() == pre.edges.dom(),
    ensures
        pre.isolated(u) == post.isolated(u),
        pre.redundant(u) == post.redundant(u),
{
    assert forall|x: Coord| pre.adjacent(u, x) == post.adjacent(u, x) by {
        assert(pre.edges.dom().contains(edge_key(u, x)) == post.edges.dom().contains(edge_key(u, x)));
    }
    lemma_same_neighbors_same_status(pre, post, u);
}

/// A node with the same neighbours has the same standing.
pub proof fn lemma_same_neighbors_same_status(pre: Wiring, post: Wiring, u: Coord)
    requires
        forall|x: Coord| pre.adjacent(u, x) == post.adjacent(u, x),
    ensures
        pre.isolated(u) == post.isolated(u),
        pre.redundant(u) == post.redundant(u),
{
    if pre.redundant(u) {
        let (m0, m1) = choose|m0: Coord, m1: Coord| #[trigger] pre.waypoint_between(u, m0, m1);
        assert(post.waypoint_between(u, m0, m1));
    }
    if post.redundant(u) {
        let (m0, m1) = choose|m0: Coord, m1: Coord| #[trigger] post.waypoint_between(u, m0, m1);
        assert(pre.waypoint_between(u, m0, m1));
    }
}

/// Two segments from `u` through the same point run the same way: the end
/// of one lies on the other.
pub proof fn lemma_same_ray(u: SSPoint, w: SSPoint, x: SSPoint, p: SSPoint)
    requires
        strictly_inside(u, w, p),
        strictly_inside(u, x, p),
        x != w,
    ensures
        strictly_inside(u, w, x) || strictly_inside(u, x, w),
{
}

/// A piece of a segment cut at `p` ends at `p`.
pub proof fn lemma_half_ends(h: EdgeKey, p: SSPoint, k: EdgeKey)
    requires
        half_of(h, p, k),
    ensures
        k.0 == p.key() || k.1 == p.key(),
        k.0 == h.0 || k.0 == h.1 || k.1 == h.0 || k.1 == h.1,
{
}

/// How the neighbours of a node other than the cutting point change when a
/// sound wiring is cut at `p`.
proof fn lemma_cut_neighbors(pre: Wiring, post: Wiring, p: SSPoint, u: Coord)
    requires
        pre.wf(),
        bisects(pre, post, p),
        u != p.key(),
    ensures
        forall|x: Coord|
            x != p.key() ==> (#[trigger] post.adjacent(u, x) <==> pre.adjacent(u, x) && !key_passes(
                edge_key(u, x),
                p,
            )),
        post.adjacent(u, p.key()) <==> pre.adjacent(u, p.key()) || exists|w: Coord| #[trigger]
            pre.adjacent(u, w) && key_passes(edge_key(u, w), p),
{
    reveal(Wiring::bisected);
    reveal(Wiring::names_from);
    reveal(Wiring::same_cover);
    reveal(bisects);
    reveal(eliminates);
    reveal(cut_at_all);
    let hs = hits_at(pre, p);
    lemma_keys(pre);
    assert forall|x: Coord| x != p.key() implies (#[trigger] post.adjacent(u, x) <==> pre.adjacent(u, x)
        && !key_passes(edge_key(u, x), p)) by {
        let k = edge_key(u, x);
        crate::graph::lemma_edge_key(u, x);
        if post.adjacent(u, x) {
            if exists|h: EdgeKey| #[trigger] hs.contains(h) && half_of(h, p, k) {
                let h = choose|h: EdgeKey| #[trigger] hs.contains(h) && half_of(h, p, k);
                lemma_half_ends(h, p, k);
            }
        }
        if pre.adjacent(u, x) && !key_passes(k, p) {
            assert(pre.edges.contains_key(k) && !hs.contains(k));
        }
    }
    let kp = edge_key(u, p.key());
    crate::graph::lemma_edge_key(u, p.key());
    if post.adjacent(u, p.key()) {
        if exists|h: EdgeKey| #[trigger] hs.contains(h) && half_of(h, p, kp) {
            let h = choose|h: EdgeKey| #[trigger] hs.contains(h) && half_of(h, p, kp);
            assert(pre.edges.contains_key(h) && key_passes(h, p));
            let w = if h.0 == u { h.1 } else { h.0 };
            crate::graph::lemma_edge_key(u, w);
            crate::graph::lemma_edge_key(h.0, p.key());
            crate::graph::lemma_edge_key(h.1, p.key());
            assert(h.0 == u || h.1 == u);
            assert(edge_key(u, w) == h);
            assert(pre.adjacent(u, w) && key_passes(edge_key(u, w), p));
        } else {
            assert(pre.edges.contains_key(kp));
        }
    }
    if pre.adjacent(u, p.key()) {
        assert(!key_passes(kp, p));
        assert(pre.edges.contains_key(kp) && !hs.contains(kp));
        assert(post.edges.contains_key(kp));
    }
    if exists|w: Coord| #[trigger] pre.adjacent(u, w) && key_passes(edge_key(u, w), p) {
        let w = choose|w: Coord| #[trigger] pre.adjacent(u, w) && key_passes(edge_key(u, w), p);
        let h = edge_key(u, w);
        crate::graph::lemma_edge_key(u, w);
        assert(hs.contains(h));
        assert(half_of(h, p, kp));
        assert(post.edges.contains_key(kp));
    }
}

/// A node whose neighbours change as they do under a cut at `p` is
/// redundant afterwards only if it was before.
proof fn lemma_cut_status(pre: Wiring, post: Wiring, p: SSPoint, u: Coord)
    requires
        pre.wf(),
        pre.bisected(),
        u != p.key(),
        forall|x: Coord|
            x != p.key() ==> (#[trigger] post.adjacent(u, x) <==> pre.adjacent(u, x) && !key_passes(
                edge_key(u, x),
                p,
            )),
        post.adjacent(u, p.key()) <==> pre.adjacent(u, p.key()) || exists|w: Coord| #[trigger]
            pre.adjacent(u, w) && key_passes(edge_key(u, w), p),
        post.redundant(u),
    ensures
        pre.redundant(u),
{
    reveal(Wiring::bisected);
    reveal(Wiring::names_from);
    reveal(Wiring::same_cover);
    reveal(bisects);
    reveal(eliminates);
    reveal(cut_at_all);
    lemma_keys(pre);
    let pu = SSPoint::at(u);
    assert(SSPoint::at(p.key()) == p);
    if exists|w: Coord| #[trigger] pre.adjacent(u, w) && key_passes(edge_key(u, w), p) {
        let w = choose|w: Coord| #[trigger] pre.adjacent(u, w) && key_passes(edge_key(u, w), p);
        let pw = SSPoint::at(w);
        crate::graph::lemma_edge_key(u, w);
        assert(strictly_inside(pu, pw, p));
        assert(pre.edges.contains_key(edge_key(u, w)));
        assert(pre.nodes.contains(w));
        assert(!pre.nodes.contains(p.key())) by {
            if pre.nodes.contains(p.key()) {
                assert(pre.split_free(SSPoint::at(p.key())));
            }
        }
        assert(!pre.adjacent(u, p.key())) by {
            if pre.adjacent(u, p.key()) {
                crate::graph::lemma_edge_key(u, p.key());
                assert(pre.edges.contains_key(edge_key(u, p.key())));
            }
        }
        let (m0, m1) = choose|m0: Coord, m1: Coord| #[trigger] post.waypoint_between(u, m0, m1);
        assert(post.waypoint_between(u, m0, m1));
        assert(post.adjacent(u, p.key()));
        assert(m0 == p.key() || m1 == p.key());
        let m = if m0 == p.key() { m1 } else { m0 };
        let pm = SSPoint::at(m);
        assert(post.adjacent(u, m) && m != p.key());
        assert(pre.adjacent(u, m) && !key_passes(edge_key(u, m), p));
        assert(w != m);
        assert(strictly_inside(p, pm, pu) || strictly_inside(pm, p, pu));
        lemma_same_side(pu, pw, p, pm);
        assert(strictly_inside(pw, pm, pu));
        assert forall|x: Coord| #[trigger] pre.adjacent(u, x) implies x == w || x == m by {
            crate::graph::lemma_edge_key(u, x);
            if key_passes(edge_key(u, x), p) {
                if x != w {
                    let px = SSPoint::at(x);
                    assert(strictly_inside(pu, px, p));
                    lemma_same_ray(pu, pw, px, p);
                    assert(pre.edges.contains_key(edge_key(u, x)));
                    assert(pre.nodes.contains(x));
                    assert(pre.split_free(SSPoint::at(x)));
                    assert(pre.split_free(SSPoint::at(w)));
                    assert(key_passes(edge_key(u, w), px) || key_passes(edge_key(u, x), pw));
                }
            } else {
                assert(x != p.key());
                assert(post.adjacent(u, x));
            }
        }
        assert(pre.waypoint_between(u, w, m));
    } else {
        assert forall|x: Coord| pre.adjacent(u, x) == post.adjacent(u, x) by {
            if x == p.key() {
            } else {
                if pre.adjacent(u, x) {
                    assert(!key_passes(edge_key(u, x), p));
                }
            }
        }
        lemma_same_neighbors_same_status(pre, post, u);
    }
}

/// A node that has a neighbour before a cut at `p` has one afterwards.
proof fn lemma_cut_company(pre: Wiring, post: Wiring, p: SSPoint, u: Coord)
    requires
        u != p.key(),
        forall|x: Coord|
            x != p.key() ==> (#[trigger] post.adjacent(u, x) <==> pre.adjacent(u, x) && !key_passes(
                edge_key(u, x),
                p,
            )),
        post.adjacent(u, p.key()) <==> pre.adjacent(u, p.key()) || exists|w: Coord| #[trigger]
            pre.adjacent(u, w) && key_passes(edge_key(u, w), p),
        !pre.isolated(u),
    ensures
        !post.isolated(u),
{
    let w = choose|w: Coord| #[trigger] pre.adjacent(u, w);
    assert(pre.adjacent(u, w));
    if w != p.key() && !key_passes(edge_key(u, w), p) {
        assert(post.adjacent(u, w));
    } else {
        assert(post.adjacent(u, p.key()));
    }
}

/// What a cut at `p` does where `p` is a node already, and where it becomes
/// one.
proof fn lemma_cut_at_node(pre: Wiring, post: Wiring, p: SSPoint)
    requires
        pre.wf(),
        pre.bisected(),
        bisects(pre, post, p),
    ensures
        post.nodes.contains(p.key()) && !pre.nodes.contains(p.key()) ==> !post.isolated(p.key()),
        pre.nodes.contains(p.key()) ==> post.edges == pre.edges && post.nodes == pre.nodes,
{
    reveal(Wiring::bisected);
    reveal(Wiring::names_from);
    reveal(Wiring::same_cover);
    reveal(bisects);
    reveal(eliminates);
    reveal(cut_at_all);
    let hs = hits_at(pre, p);
    if pre.nodes.contains(p.key()) {
        assert(pre.split_free(SSPoint::at(p.key())));
        assert(SSPoint::at(p.key()) == p);
        assert(hs =~= Set::<EdgeKey>::empty());
        assert(post.edges =~= pre.edges) by {
            assert forall|k: EdgeKey| post.edges.contains_key(k) implies #[trigger] post.edges[k]
                == pre.edges[k] by {
                assert(!(exists|h: EdgeKey| #[trigger] hs.contains(h) && half_of(h, p, k)));
            }
        }
    } else if post.nodes.contains(p.key()) {
        assert(!(hs =~= Set::<EdgeKey>::empty()));
        let h = choose|h: EdgeKey| hs.contains(h);
        let k0 = edge_key(h.0, p.key());
        assert(half_of(h, p, k0));
        assert(post.edges.contains_key(k0));
        crate::graph::lemma_edge_key(h.0, p.key());
        crate::graph::lemma_edge_key(p.key(), h.0);
        assert(post.adjacent(p.key(), h.0));
    }
}

/// Cutting a sound and cut wiring at `p` leaves it cut, isolates no node,
/// and makes no node but `p` redundant.
pub proof fn lemma_bisects_keeps_status(pre: Wiring, post: Wiring, p: SSPoint)
    requires
        pre.wf(),
        pre.bisected(),
        bisects(pre, post, p),
    ensures
        post.bisected(),
        forall|u: Coord|
            #![trigger post.nodes.contains(u)]
            post.nodes.contains(u) && u != p.key() && !pre.isolated(u) ==> !post.isolated(u),
        forall|u: Coord|
            #![trigger post.nodes.contains(u)]
            post.nodes.contains(u) && u != p.key() && post.redundant(u) ==> pre.redundant(u),
        post.nodes.contains(p.key()) && !pre.nodes.contains(p.key()) ==> !post.isolated(p.key()),
        pre.nodes.contains(p.key()) ==> post.edges == pre.edges && post.nodes == pre.nodes,
{
    reveal(Wiring::bisected);
    reveal(Wiring::names_from);
    reveal(Wiring::same_cover);
    reveal(bisects);
    reveal(eliminates);
    reveal(cut_at_all);
    lemma_bisects(pre, post, p);
    lemma_cut_at_node(pre, post, p);
    assert forall|n: Coord| #[trigger] post.nodes.contains(n) implies post.split_free(
        SSPoint::at(n),
    ) by {
        if n != p.key() {
            assert(pre.nodes.contains(n));
            assert(pre.split_free(SSPoint::at(n)));
        } else {
            assert(SSPoint::at(n) == p);
        }
    }
    assert forall|u: Coord|
        #![trigger post.nodes.contains(u)]
        post.nodes.contains(u) && u != p.key() && !pre.isolated(u) implies !post.isolated(u) by {
        lemma_cut_neighbors(pre, post, p, u);
        lemma_cut_company(pre, post, p, u);
    }
    assert forall|u: Coord|
        #![trigger post.nodes.contains(u)]
        post.nodes.contains(u) && u != p.key() && post.redundant(u) implies pre.redundant(u) by {
        lemma_cut_neighbors(pre, post, p, u);
        lemma_cut_status(pre, post, p, u);
    }
}

/// No segment has one of the points `pts` in its open interior.
#[verifier::opaque]
pub open spec fn cut_at_all(w: Wiring, pts: Seq<SSPoint>) -> bool {
    forall|j: int| 0 <= j < pts.len() ==> w.split_free(#[trigger] pts[j])
}

/// Every node that a wire merely passes through is one of the points `pts`.
#[verifier::opaque]
pub open spec fn waypoints_among(w: Wiring, pts: Seq<SSPoint>) -> bool {
    forall|n: Coord| #[trigger] w.nodes.contains(n) && w.redundant(n) ==> pts.contains(SSPoint::at(n))
}

/// What `waypoints_among` says of one node.
pub proof fn lemma_waypoint(w: Wiring, pts: Seq<SSPoint>, n: Coord)
    requires
        waypoints_among(w, pts),
        w.nodes.contains(n),
        w.redundant(n),
    ensures
        pts.contains(SSPoint::at(n)),
{
    reveal(waypoints_among);
}

/// The wiring is in order with respect to the points `extras`: no segment
/// has a node or one of the points in its open interior, every node has a
/// segment, and a wire passes through a node without turning or branching
/// only at one of the points.
pub open spec fn tidy(w: Wiring, extras: Seq<SSPoint>) -> bool {
    &&& w.bisected()
    &&& cut_at_all(w, extras)
    &&& no_isolated(w)
    &&& waypoints_among(w, extras)
}

/// Whether a wiring is in order depends only on its nodes and on which
/// segments there are, not on what they carry.
pub proof fn lemma_same_keys_same_shape(a: Wiring, b: Wiring, extras: Seq<SSPoint>)
    requires
        a.nodes == b.nodes,
        a.edges.dom() == b.edges.dom(),
    ensures
        tidy(a, extras) == tidy(b, extras),
        a.same_cover(b),
{
    reveal(Wiring::bisected);
    reveal(Wiring::names_from);
    reveal(Wiring::same_cover);
    reveal(bisects);
    reveal(eliminates);
    reveal(cut_at_all);
    assert forall|k: EdgeKey| a.edges.contains_key(k) == b.edges.contains_key(k) by {
        assert(a.edges.dom().contains(k) == b.edges.dom().contains(k));
    }
    assert forall|p: SSPoint| a.split_free(p) == b.split_free(p) by {
        if a.split_free(p) {
            assert forall|k: EdgeKey| #[trigger] b.edges.contains_key(k) implies !key_passes(k, p) by {
                assert(a.edges.contains_key(k));
            }
        }
        if b.split_free(p) {
            assert forall|k: EdgeKey| #[trigger] a.edges.contains_key(k) implies !key_passes(k, p) by {
                assert(b.edges.contains_key(k));
            }
        }
    }
    assert forall|p: SSPoint, q: SSPoint| #[trigger] a.links(p, q) == #[trigger] b.links(p, q) by {
        if a.links(p, q) {
            let k = choose|k: EdgeKey| #[trigger]
                a.edges.contains_key(k) && key_covers(k, p) && key_covers(k, q);
            assert(b.edges.contains_key(k));
        }
        if b.links(p, q) {
            let k = choose|k: EdgeKey| #[trigger]
                b.edges.contains_key(k) && key_covers(k, p) && key_covers(k, q);
            assert(a.edges.contains_key(k));
        }
    }
    assert(a.bisected() == b.bisected());
    assert(cut_at_all(a, extras) == cut_at_all(b, extras));
    assert forall|n: Coord| a.isolated(n) == b.isolated(n) && a.redundant(n) == b.redundant(n) by {
        lemma_same_edges_same_status(a, b, n);
    }
    assert(no_isolated(a) == no_isolated(b)) by {
        reveal(no_isolated);
    }
    assert(waypoints_among(a, extras) == waypoints_among(b, extras)) by {
        reveal(waypoints_among);
    }
}

/// Covers and name origins carry over from step to step.
pub proof fn lemma_chain(a: Wiring, b: Wiring, c: Wiring)
    requires
        b.same_cover(a),
        c.same_cover(b),
        b.names_from(a),
        c.names_from(b),
    ensures
        c.same_cover(a),
        c.names_from(a),
{
    reveal(Wiring::bisected);
    reveal(Wiring::names_from);
    reveal(Wiring::same_cover);
    reveal(bisects);
    reveal(eliminates);
    reveal(cut_at_all);
    assert forall|p: SSPoint, q: SSPoint| next_to(p, q) implies #[trigger] c.links(p, q)
        == #[trigger] a.links(p, q) by {
        assert(c.links(p, q) == b.links(p, q));
        assert(b.links(p, q) == a.links(p, q));
    }
    assert forall|k: EdgeKey| #[trigger] c.edges.contains_key(k) implies exists|k0: EdgeKey| #[trigger]
        a.edges.contains_key(k0) && a.edges[k0].label == c.edges[k].label by {
        let k1 = choose|k1: EdgeKey| #[trigger]
            b.edges.contains_key(k1) && b.edges[k1].label == c.edges[k].label;
        let k0 = choose|k0: EdgeKey| #[trigger]
            a.edges.contains_key(k0) && a.edges[k0].label == b.edges[k1].label;
        assert(a.edges.contains_key(k0) && a.edges[k0].label == c.edges[k].label);
    }
}

/// The points that a list of coordinates stands for.
pub open spec fn points_of(vs: Seq<Coord>) -> Seq<SSPoint> {
    vs.map_values(|c: Coord| SSPoint::at(c))
}

/// Nothing is cut at no points.
pub proof fn lemma_cut_at_none(w: Wiring, pts: Seq<SSPoint>)
    ensures
        cut_at_all(w, pts.take(0)),
{
    reveal(cut_at_all);
}

/// One point more is cut.
pub proof fn lemma_cut_one_more(prev: Wiring, cur: Wiring, pts: Seq<SSPoint>, i: int)
    requires
        0 <= i < pts.len(),
        cut_at_all(prev, pts.take(i)),
        forall|q: SSPoint| prev.split_free(q) ==> cur.split_free(q),
        cur.split_free(pts[i]),
    ensures
        cut_at_all(cur, pts.take(i + 1)),
{
    reveal(cut_at_all);
    assert forall|j: int| 0 <= j < pts.take(i + 1).len() implies cur.split_free(
        #[trigger] pts.take(i + 1)[j],
    ) by {
        if j < i {
            assert(pts.take(i)[j] == pts[j]);
            assert(prev.split_free(pts.take(i)[j]));
        }
    }
}

/// A wiring that is cut at all its nodes is bisected.
pub proof fn lemma_cut_at_nodes(w: Wiring, vs: Seq<Coord>)
    requires
        cut_at_all(w, points_of(vs)),
        forall|n: Coord| #[trigger] w.nodes.contains(n) ==> vs.contains(n),
    ensures
        w.bisected(),
{
    reveal(cut_at_all);
    reveal(Wiring::bisected);
    assert forall|n: Coord| #[trigger] w.nodes.contains(n) implies w.split_free(SSPoint::at(n)) by {
        let j = choose|j: int| 0 <= j < vs.len() && vs[j] == n;
        assert(points_of(vs)[j] == SSPoint::at(n));
    }
}

/// A wiring is as much in order as itself.
pub proof fn lemma_chain_start(w: Wiring)
    ensures
        w.same_cover(w),
        w.names_from(w),
{
    reveal(Wiring::same_cover);
    reveal(Wiring::names_from);
    assert forall|k: EdgeKey| #[trigger] w.edges.contains_key(k) implies exists|k0: EdgeKey| #[trigger]
        w.edges.contains_key(k0) && w.edges[k0].label == w.edges[k].label by {}
}

} // verus!
