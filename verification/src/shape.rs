//! The shape of a wiring at a point: in which of the four directions a
//! wire leaves it. What pruning makes of a wiring is told from its shape
//! alone.

use crate::geometry::{strictly_inside, SSPoint};
use crate::graph::{edge_key, lemma_edge_key, Coord, EdgeKey};
use crate::wiring::{key_covers, key_passes, lemma_keys, next_to, Wiring};
use vstd::prelude::*;

verus! {

/// `(dx, dy)` is one step along a grid line.
pub open spec fn is_step(dx: int, dy: int) -> bool {
    (dx == 0 && (dy == 1 || dy == -1)) || (dy == 0 && (dx == 1 || dx == -1))
}

/// `q` lies from `p` in the direction `(dx, dy)`, at whatever distance.
pub open spec fn lies_toward(p: SSPoint, q: SSPoint, dx: int, dy: int) -> bool {
    ||| (dx == 1 && dy == 0 && q.y == p.y && q.x > p.x)
    ||| (dx == -1 && dy == 0 && q.y == p.y && q.x < p.x)
    ||| (dx == 0 && dy == 1 && q.x == p.x && q.y > p.y)
    ||| (dx == 0 && dy == -1 && q.x == p.x && q.y < p.y)
}

/// A wire leaves `p` in the direction `(dx, dy)`: some segment holds `p`
/// and the next point in that direction.
pub open spec fn arm(w: Wiring, p: SSPoint, dx: int, dy: int) -> bool {
    exists|q: SSPoint| q.x == p.x + dx && q.y == p.y + dy && #[trigger] w.links(p, q)
}

/// A wire passes straight through `p`: it leaves `p` in two opposite
/// directions and in no other.
pub open spec fn straight(w: Wiring, p: SSPoint) -> bool {
    ||| (arm(w, p, 1, 0) && arm(w, p, -1, 0) && !arm(w, p, 0, 1) && !arm(w, p, 0, -1))
    ||| (arm(w, p, 0, 1) && arm(w, p, 0, -1) && !arm(w, p, 1, 0) && !arm(w, p, -1, 0))
}

/// `n` is a node after pruning `pre` with the points `extras`: a wire holds
/// it, and it was a node through which no wire passes straight, or it is one
/// of the points.
pub open spec fn kept(pre: Wiring, extras: Seq<SSPoint>, n: Coord) -> bool {
    &&& pre.occupied(SSPoint::at(n))
    &&& (pre.nodes.contains(n) && !straight(pre, SSPoint::at(n))) || extras.contains(SSPoint::at(n))
}

/// The nodes of `post` are those that pruning `pre` with `extras` keeps.
#[verifier::opaque]
pub open spec fn exact_nodes(pre: Wiring, extras: Seq<SSPoint>, post: Wiring) -> bool {
    forall|n: Coord| #[trigger] post.nodes.contains(n) <==> kept(pre, extras, n)
}

/// Wirings with the same cover have the same shape at every point.
pub proof fn lemma_same_arms(a: Wiring, b: Wiring, p: SSPoint)
    requires
        a.same_cover(b),
    ensures
        a.occupied(p) == b.occupied(p),
        forall|dx: int, dy: int| is_step(dx, dy) ==> #[trigger] arm(a, p, dx, dy) == arm(b, p, dx, dy),
        straight(a, p) == straight(b, p),
{
    reveal(Wiring::same_cover);
    assert(next_to(p, p));
    assert(a.links(p, p) == b.links(p, p));
    assert forall|dx: int, dy: int| is_step(dx, dy) implies #[trigger] arm(a, p, dx, dy) == arm(
        b,
        p,
        dx,
        dy,
    ) by {
        if arm(a, p, dx, dy) {
            let q = choose|q: SSPoint| q.x == p.x + dx && q.y == p.y + dy && #[trigger] a.links(p, q);
            assert(next_to(p, q));
            assert(b.links(p, q));
        }
        if arm(b, p, dx, dy) {
            let q = choose|q: SSPoint| q.x == p.x + dx && q.y == p.y + dy && #[trigger] b.links(p, q);
            assert(next_to(p, q));
            assert(a.links(p, q));
        }
    }
    assert(is_step(1, 0) && is_step(-1, 0) && is_step(0, 1) && is_step(0, -1));
}

/// A segment from a node leaves it in the direction of its other end.
pub proof fn lemma_arm_of_neighbor(w: Wiring, v: Coord, u: Coord, dx: int, dy: int)
    requires
        w.wf(),
        w.adjacent(v, u),
        lies_toward(SSPoint::at(v), SSPoint::at(u), dx, dy),
    ensures
        arm(w, SSPoint::at(v), dx, dy),
{
    let p = SSPoint::at(v);
    let k = edge_key(v, u);
    lemma_edge_key(v, u);
    assert(w.edges.contains_key(k));
    let q = SSPoint { x: (p.x + dx) as i16, y: (p.y + dy) as i16 };
    assert(key_covers(k, p) && key_covers(k, q));
    assert(w.links(p, q));
}

/// Where a wire leaves a node of a cut wiring, a segment leads from the
/// node to a neighbour in that direction.
pub proof fn lemma_neighbor_of_arm(w: Wiring, v: Coord, dx: int, dy: int) -> (u: Coord)
    requires
        w.wf(),
        w.bisected(),
        w.nodes.contains(v),
        is_step(dx, dy),
        arm(w, SSPoint::at(v), dx, dy),
    ensures
        w.adjacent(v, u),
        lies_toward(SSPoint::at(v), SSPoint::at(u), dx, dy),
{
    reveal(Wiring::bisected);
    lemma_keys(w);
    let p = SSPoint::at(v);
    let q = choose|q: SSPoint| q.x == p.x + dx && q.y == p.y + dy && #[trigger] w.links(p, q);
    let k = choose|k: EdgeKey| #[trigger] w.edges.contains_key(k) && key_covers(k, p) && key_covers(k, q);
    assert(w.split_free(p));
    assert(!key_passes(k, p));
    let u = if k.0 == v { k.1 } else { k.0 };
    lemma_edge_key(v, u);
    assert(edge_key(v, u) == k);
    u
}

/// In a cut wiring, a node has at most one neighbour in each direction.
pub proof fn lemma_one_neighbor_per_arm(w: Wiring, v: Coord, u1: Coord, u2: Coord, dx: int, dy: int)
    requires
        w.wf(),
        w.bisected(),
        w.adjacent(v, u1),
        w.adjacent(v, u2),
        lies_toward(SSPoint::at(v), SSPoint::at(u1), dx, dy),
        lies_toward(SSPoint::at(v), SSPoint::at(u2), dx, dy),
    ensures
        u1 == u2,
{
    reveal(Wiring::bisected);
    lemma_keys(w);
    lemma_edge_key(v, u1);
    lemma_edge_key(v, u2);
    let k1 = edge_key(v, u1);
    let k2 = edge_key(v, u2);
    assert(w.edges.contains_key(k1) && w.edges.contains_key(k2));
    assert(w.nodes.contains(u1) && w.nodes.contains(u2));
    if u1 != u2 {
        assert(w.split_free(SSPoint::at(u1)));
        assert(w.split_free(SSPoint::at(u2)));
        assert(key_passes(k1, SSPoint::at(u2)) || key_passes(k2, SSPoint::at(u1)));
    }
}

/// The direction in which a neighbour lies.
pub proof fn lemma_neighbor_direction(w: Wiring, v: Coord, u: Coord) -> (d: (int, int))
    requires
        w.wf(),
        w.adjacent(v, u),
    ensures
        is_step(d.0, d.1),
        lies_toward(SSPoint::at(v), SSPoint::at(u), d.0, d.1),
{
    lemma_keys(w);
    lemma_edge_key(v, u);
    let k = edge_key(v, u);
    assert(w.edges.contains_key(k));
    crate::wiring::lemma_fit_geometry(k, w.edges[k], SSPoint::at(v));
    let p = SSPoint::at(v);
    let q = SSPoint::at(u);
    if q.y == p.y {
        if q.x > p.x {
            (1, 0)
        } else {
            (-1, 0)
        }
    } else {
        if q.y > p.y {
            (0, 1)
        } else {
            (0, -1)
        }
    }
}

/// A node of a cut wiring is without a segment exactly if no wire holds it.
pub proof fn lemma_isolated_shape(w: Wiring, v: Coord)
    requires
        w.wf(),
        w.bisected(),
        w.nodes.contains(v),
    ensures
        w.isolated(v) <==> !w.occupied(SSPoint::at(v)),
{
    reveal(Wiring::bisected);
    lemma_keys(w);
    let p = SSPoint::at(v);
    if w.occupied(p) {
        let k = choose|k: EdgeKey| #[trigger] w.edges.contains_key(k) && key_covers(k, p) && key_covers(k, p);
        assert(w.split_free(p));
        assert(!key_passes(k, p));
        let u = if k.0 == v { k.1 } else { k.0 };
        lemma_edge_key(v, u);
        assert(edge_key(v, u) == k);
        assert(w.adjacent(v, u));
    }
    if !w.isolated(v) {
        let u = choose|u: Coord| #[trigger] w.adjacent(v, u);
        lemma_edge_key(v, u);
        let k = edge_key(v, u);
        assert(w.edges.contains_key(k) && key_covers(k, p) && key_covers(k, p));
    }
}

/// A wire merely passes through a node of a cut wiring exactly if it
/// passes straight through the point.
pub proof fn lemma_redundant_shape(w: Wiring, v: Coord)
    requires
        w.wf(),
        w.bisected(),
        w.nodes.contains(v),
    ensures
        w.redundant(v) <==> straight(w, SSPoint::at(v)),
{
    let p = SSPoint::at(v);
    if w.redundant(v) {
        lemma_redundant_is_straight(w, v);
    }
    if straight(w, p) {
        lemma_straight_is_redundant(w, v);
    }
}

/// A wire that merely passes through a node passes straight through it.
proof fn lemma_redundant_is_straight(w: Wiring, v: Coord)
    requires
        w.wf(),
        w.bisected(),
        w.nodes.contains(v),
        w.redundant(v),
    ensures
        straight(w, SSPoint::at(v)),
{
    let p = SSPoint::at(v);
    let (n0, n1) = choose|n0: Coord, n1: Coord| #[trigger] w.waypoint_between(v, n0, n1);
    assert(w.waypoint_between(v, n0, n1));
    let d0 = lemma_neighbor_direction(w, v, n0);
    let d1 = lemma_neighbor_direction(w, v, n1);
    assert(d1.0 == -d0.0 && d1.1 == -d0.1);
    lemma_arm_of_neighbor(w, v, n0, d0.0, d0.1);
    lemma_arm_of_neighbor(w, v, n1, d1.0, d1.1);
    assert forall|dx: int, dy: int| is_step(dx, dy) && #[trigger] arm(w, p, dx, dy) implies (dx == d0.0
        && dy == d0.1) || (dx == d1.0 && dy == d1.1) by {
        let u = lemma_neighbor_of_arm(w, v, dx, dy);
        assert(u == n0 || u == n1);
    }
    assert(is_step(1, 0) && is_step(-1, 0) && is_step(0, 1) && is_step(0, -1));
}

/// A wire that passes straight through a node merely passes through it.
proof fn lemma_straight_is_redundant(w: Wiring, v: Coord)
    requires
        w.wf(),
        w.bisected(),
        w.nodes.contains(v),
        straight(w, SSPoint::at(v)),
    ensures
        w.redundant(v),
{
    let p = SSPoint::at(v);
    let d: (int, int) = if arm(w, p, 1, 0) { (1, 0) } else { (0, 1) };
    assert(is_step(1, 0) && is_step(-1, 0) && is_step(0, 1) && is_step(0, -1));
    let n0 = lemma_neighbor_of_arm(w, v, d.0, d.1);
    let n1 = lemma_neighbor_of_arm(w, v, -d.0, -d.1);
    assert(n0 != n1);
    assert(strictly_inside(SSPoint::at(n0), SSPoint::at(n1), p));
    assert forall|u: Coord| #[trigger] w.adjacent(v, u) implies u == n0 || u == n1 by {
        let du = lemma_neighbor_direction(w, v, u);
        lemma_arm_of_neighbor(w, v, u, du.0, du.1);
        if du.0 == d.0 && du.1 == d.1 {
            lemma_one_neighbor_per_arm(w, v, u, n0, d.0, d.1);
        } else {
            assert(du.0 == -d.0 && du.1 == -d.1);
            lemma_one_neighbor_per_arm(w, v, u, n1, -d.0, -d.1);
        }
    }
    assert(w.waypoint_between(v, n0, n1));
}

/// Two sound and cut wirings with the same nodes and the same cover have
/// segments between the same nodes.
pub proof fn lemma_same_shape_same_keys(a: Wiring, b: Wiring)
    requires
        a.wf(),
        b.wf(),
        a.bisected(),
        b.bisected(),
        a.nodes == b.nodes,
        a.same_cover(b),
    ensures
        a.edges.dom() == b.edges.dom(),
{
    assert forall|k: EdgeKey| a.edges.contains_key(k) implies b.edges.contains_key(k) by {
        lemma_key_carries_over(a, b, k);
    }
    assert(b.same_cover(a)) by {
        reveal(Wiring::same_cover);
    }
    assert forall|k: EdgeKey| b.edges.contains_key(k) implies a.edges.contains_key(k) by {
        lemma_key_carries_over(b, a, k);
    }
    assert(a.edges.dom() =~= b.edges.dom());
}

/// A segment of one of two such wirings is a segment of the other.
proof fn lemma_key_carries_over(a: Wiring, b: Wiring, k: EdgeKey)
    requires
        a.wf(),
        b.wf(),
        a.bisected(),
        b.bisected(),
        a.nodes == b.nodes,
        a.same_cover(b),
        a.edges.contains_key(k),
    ensures
        b.edges.contains_key(k),
{
    lemma_keys(a);
    lemma_keys(b);
    let u = k.0;
    let v = k.1;
    lemma_edge_key(u, v);
    assert(a.adjacent(u, v));
    let d = lemma_neighbor_direction(a, u, v);
    lemma_arm_of_neighbor(a, u, v, d.0, d.1);
    lemma_same_arms(a, b, SSPoint::at(u));
    assert(arm(b, SSPoint::at(u), d.0, d.1));
    let x = lemma_neighbor_of_arm(b, u, d.0, d.1);
    lemma_edge_key(u, x);
    let kx = edge_key(u, x);
    assert(b.edges.contains_key(kx));
    assert(b.nodes.contains(x));
    if x != v {
        reveal(Wiring::bisected);
        assert(a.split_free(SSPoint::at(x)));
        assert(b.split_free(SSPoint::at(v)));
        assert(key_passes(k, SSPoint::at(x)) || key_passes(kx, SSPoint::at(v)));
    }
}

} // verus!
