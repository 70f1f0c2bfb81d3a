//! How the names of the segments follow the wires through the passes of
//! pruning: a segment that comes out of a pass carries the name of the
//! segments that went in along the same stretch.

use crate::geometry::SSPoint;
use crate::graph::{
    connected, edge_key, lemma_connected_basics, lemma_connected_symmetric,
    lemma_connected_transitive, lemma_edge_key, Coord, EdgeKey,
};
use crate::relabel::{lemma_uniform, names_uniform};
use crate::shape::{
    arm, lemma_arm_of_neighbor, lemma_neighbor_direction, lemma_neighbor_of_arm, lemma_same_arms,
};
use crate::wiring::{
    bisects, eliminates, half_of, hits_at, key_covers, key_passes, lemma_cut_links, lemma_keys,
    lemma_merge_keys, merged_edges, next_to, Wiring,
};
use vstd::prelude::*;

verus! {

/// The two different neighbouring points `p` and `q` lie on both segments.
pub open spec fn both_cover(k1: EdgeKey, k2: EdgeKey, p: SSPoint, q: SSPoint) -> bool {
    &&& p != q
    &&& next_to(p, q)
    &&& key_covers(k1, p)
    &&& key_covers(k1, q)
    &&& key_covers(k2, p)
    &&& key_covers(k2, q)
}

/// The two segments run along a common step between neighbouring points.
pub open spec fn share_step(k1: EdgeKey, k2: EdgeKey) -> bool {
    exists|p: SSPoint, q: SSPoint| #[trigger] both_cover(k1, k2, p, q)
}

/// A segment of `post` has the name of every segment of `pre` with which
/// it shares a step.
#[verifier::opaque]
pub open spec fn names_follow(pre: Wiring, post: Wiring) -> bool {
    forall|kc: EdgeKey, kf: EdgeKey|
        #[trigger] post.edges.contains_key(kc) && #[trigger] pre.edges.contains_key(kf) && share_step(
            kf,
            kc,
        ) ==> post.edges[kc].name() == pre.edges[kf].name()
}

/// In a sound and cut wiring, segments that share a step are the same.
pub proof fn lemma_shared_step_same_key(w: Wiring, k1: EdgeKey, k2: EdgeKey)
    requires
        w.wf(),
        w.bisected(),
        w.edges.contains_key(k1),
        w.edges.contains_key(k2),
        share_step(k1, k2),
    ensures
        k1 == k2,
{
    reveal(Wiring::bisected);
    lemma_keys(w);
    let (p, q) = choose|p: SSPoint, q: SSPoint| #[trigger] both_cover(k1, k2, p, q);
    assert(both_cover(k1, k2, p, q));
    assert(w.split_free(SSPoint::at(k1.0)));
    assert(w.split_free(SSPoint::at(k1.1)));
    assert(w.split_free(SSPoint::at(k2.0)));
    assert(w.split_free(SSPoint::at(k2.1)));
    assert(!key_passes(k2, SSPoint::at(k1.0)));
    assert(!key_passes(k2, SSPoint::at(k1.1)));
    assert(!key_passes(k1, SSPoint::at(k2.0)));
    assert(!key_passes(k1, SSPoint::at(k2.1)));
}

/// Every segment shares a step with itself.
pub proof fn lemma_own_step(w: Wiring, k: EdgeKey)
    requires
        w.wf(),
        w.edges.contains_key(k),
    ensures
        share_step(k, k),
{
    lemma_keys(w);
    lemma_edge_key(k.0, k.1);
    assert(w.adjacent(k.0, k.1));
    let d = lemma_neighbor_direction(w, k.0, k.1);
    let p = SSPoint::at(k.0);
    let q = SSPoint { x: (p.x + d.0) as i16, y: (p.y + d.1) as i16 };
    assert(both_cover(k, k, p, q));
}

/// The names of a sound and cut wiring follow its own.
pub proof fn lemma_follow_self(w: Wiring)
    requires
        w.wf(),
        w.bisected(),
    ensures
        names_follow(w, w),
{
    reveal(names_follow);
    assert forall|kc: EdgeKey, kf: EdgeKey|
        #[trigger] w.edges.contains_key(kc) && #[trigger] w.edges.contains_key(kf) && share_step(
            kf,
            kc,
        ) implies w.edges[kc].name() == w.edges[kf].name() by {
        lemma_shared_step_same_key(w, kf, kc);
    }
}

/// Names that follow through two passes follow through both together.
pub proof fn lemma_follow_chain(a: Wiring, b: Wiring, c: Wiring)
    requires
        names_follow(a, b),
        names_follow(b, c),
        c.same_cover(b),
    ensures
        names_follow(a, c),
{
    reveal(names_follow);
    reveal(Wiring::same_cover);
    assert forall|kc: EdgeKey, kf: EdgeKey|
        #[trigger] c.edges.contains_key(kc) && #[trigger] a.edges.contains_key(kf) && share_step(
            kf,
            kc,
        ) implies c.edges[kc].name() == a.edges[kf].name() by {
        let (p, q) = choose|p: SSPoint, q: SSPoint| #[trigger] both_cover(kf, kc, p, q);
        assert(both_cover(kf, kc, p, q));
        assert(c.links(p, q));
        assert(b.links(p, q));
        let kb = choose|kb: EdgeKey| #[trigger]
            b.edges.contains_key(kb) && key_covers(kb, p) && key_covers(kb, q);
        assert(both_cover(kb, kc, p, q));
        assert(both_cover(kf, kb, p, q));
        assert(share_step(kb, kc) && share_step(kf, kb));
    }
}

/// The same segments have the same names.
pub proof fn lemma_follow_same(pre: Wiring, prev: Wiring, cur: Wiring)
    requires
        names_follow(pre, prev),
        cur.edges == prev.edges,
    ensures
        names_follow(pre, cur),
{
    reveal(names_follow);
}

/// Names follow through a cut: the pieces carry the name of the whole.
pub proof fn lemma_follow_cut(pre: Wiring, prev: Wiring, cur: Wiring, p: SSPoint)
    requires
        prev.wf(),
        names_follow(pre, prev),
        bisects(prev, cur, p),
    ensures
        names_follow(pre, cur),
{
    reveal(names_follow);
    reveal(bisects);
    let hs = hits_at(prev, p);
    assert forall|kc: EdgeKey, kf: EdgeKey|
        #[trigger] cur.edges.contains_key(kc) && #[trigger] pre.edges.contains_key(kf) && share_step(
            kf,
            kc,
        ) implies cur.edges[kc].name() == pre.edges[kf].name() by {
        let (a, b) = choose|a: SSPoint, b: SSPoint| #[trigger] both_cover(kf, kc, a, b);
        assert(both_cover(kf, kc, a, b));
        if exists|h: EdgeKey| #[trigger] hs.contains(h) && half_of(h, p, kc) {
            let h = choose|h: EdgeKey| #[trigger]
                hs.contains(h) && half_of(h, p, kc) && cur.edges[kc] == crate::wiring::named_edge(
                    SSPoint::at(crate::wiring::far_end(kc, p)),
                    p,
                    prev.edges[h].label,
                );
            assert(prev.edges.contains_key(h) && key_passes(h, p));
            assert(both_cover(kf, h, a, b));
            assert(share_step(kf, h));
        } else {
            assert(prev.edges.contains_key(kc));
        }
    }
}

/// The two segments at a node through which a wire merely passes have
/// the same name, where the names follow those of a wiring with uniform
/// names.
proof fn lemma_waypoint_names(pre: Wiring, prev: Wiring, v: Coord, n0: Coord, n1: Coord)
    requires
        pre.wf(),
        pre.bisected(),
        names_uniform(pre.edges),
        prev.wf(),
        prev.same_cover(pre),
        pre.nodes.contains(v),
        names_follow(pre, prev),
        prev.adjacent(v, n0),
        prev.adjacent(v, n1),
    ensures
        prev.edges[edge_key(v, n0)].name() == prev.edges[edge_key(v, n1)].name(),
{
    let kf0 = lemma_fine_edge_at(pre, prev, v, n0);
    let kf1 = lemma_fine_edge_at(pre, prev, v, n1);
    lemma_keys(pre);
    assert(pre.adjacent(kf0.0, kf0.1) && pre.adjacent(kf1.0, kf1.1)) by {
        lemma_edge_key(kf0.0, kf0.1);
        lemma_edge_key(kf1.0, kf1.1);
    }
    lemma_connected_basics(pre.edges, kf0.0, kf0.1);
    lemma_connected_basics(pre.edges, kf1.0, kf1.1);
    lemma_connected_basics(pre.edges, v, v);
    // kf0.0 -- v -- kf1.0
    if kf0.0 != v {
        assert(kf0.1 == v);
    }
    if kf1.0 != v {
        assert(kf1.1 == v);
        lemma_connected_symmetric(pre.edges, kf1.0, kf1.1);
    }
    assert(connected(pre.edges, kf0.0, v));
    assert(connected(pre.edges, v, kf1.0));
    lemma_connected_transitive(pre.edges, kf0.0, v, kf1.0);
    lemma_uniform(pre.edges, kf0, kf1);
}

/// The segment of `pre` that leaves the node `v` along the segment of
/// `prev` to `u`: it ends at `v` and has the name of that segment.
proof fn lemma_fine_edge_at(pre: Wiring, prev: Wiring, v: Coord, u: Coord) -> (kf: EdgeKey)
    requires
        pre.wf(),
        pre.bisected(),
        prev.wf(),
        prev.same_cover(pre),
        pre.nodes.contains(v),
        names_follow(pre, prev),
        prev.adjacent(v, u),
    ensures
        pre.edges.contains_key(kf),
        kf.0 == v || kf.1 == v,
        pre.edges[kf].name() == prev.edges[edge_key(v, u)].name(),
{
    reveal(names_follow);
    let p = SSPoint::at(v);
    let d = lemma_neighbor_direction(prev, v, u);
    lemma_arm_of_neighbor(prev, v, u, d.0, d.1);
    lemma_same_arms(prev, pre, p);
    assert(arm(pre, p, d.0, d.1));
    let x = lemma_neighbor_of_arm(pre, v, d.0, d.1);
    lemma_edge_key(v, x);
    lemma_edge_key(v, u);
    let kf = edge_key(v, x);
    let kc = edge_key(v, u);
    let q = SSPoint { x: (p.x + d.0) as i16, y: (p.y + d.1) as i16 };
    assert(both_cover(kf, kc, p, q));
    assert(share_step(kf, kc));
    assert(prev.edges.contains_key(kc));
    kf
}

/// Names follow when a node is taken out, where they follow those of a
/// wiring with uniform names.
pub proof fn lemma_follow_elim(pre: Wiring, prev: Wiring, cur: Wiring, v: Coord)
    requires
        pre.wf(),
        pre.bisected(),
        names_uniform(pre.edges),
        prev.wf(),
        prev.same_cover(pre),
        prev.nodes.subset_of(pre.nodes),
        names_follow(pre, prev),
        eliminates(prev, cur, v),
    ensures
        names_follow(pre, cur),
{
    reveal(eliminates);
    if prev.isolated(v) {
        lemma_follow_same(pre, prev, cur);
    } else if prev.redundant(v) {
        let (n0, n1) = choose|n0: Coord, n1: Coord| #[trigger]
            prev.waypoint_between(v, n0, n1) && cur.nodes == prev.nodes.remove(v) && cur.edges
                == merged_edges(prev.edges, v, n0, n1, prev.edges[edge_key(v, n0)].label);
        lemma_follow_merge(pre, prev, cur, v, n0, n1);
    } else {
        lemma_follow_same(pre, prev, cur);
    }
}

/// Names follow when a node leaves between its two neighbours.
proof fn lemma_follow_merge(pre: Wiring, prev: Wiring, cur: Wiring, v: Coord, n0: Coord, n1: Coord)
    requires
        pre.wf(),
        pre.bisected(),
        names_uniform(pre.edges),
        prev.wf(),
        prev.same_cover(pre),
        prev.nodes.subset_of(pre.nodes),
        names_follow(pre, prev),
        prev.waypoint_between(v, n0, n1),
        cur.nodes == prev.nodes.remove(v),
        cur.edges == merged_edges(prev.edges, v, n0, n1, prev.edges[edge_key(v, n0)].label),
    ensures
        names_follow(pre, cur),
{
    let label = prev.edges[edge_key(v, n0)].label;
    lemma_merge_keys(prev, cur, v, n0, n1, label);
    lemma_waypoint_names(pre, prev, v, n0, n1);
    let kn = edge_key(n0, n1);
    let k0 = edge_key(v, n0);
    let k1 = edge_key(v, n1);
    lemma_edge_key(n0, n1);
    lemma_edge_key(v, n0);
    lemma_edge_key(v, n1);
    let pa = SSPoint::at(n0);
    let pb = SSPoint::at(n1);
    let pv = SSPoint::at(v);
    reveal(names_follow);
    assert forall|kc: EdgeKey, kf: EdgeKey|
        #[trigger] cur.edges.contains_key(kc) && #[trigger] pre.edges.contains_key(kf) && share_step(
            kf,
            kc,
        ) implies cur.edges[kc].name() == pre.edges[kf].name() by {
        if kc == kn {
            let (a, b) = choose|a: SSPoint, b: SSPoint| #[trigger] both_cover(kf, kc, a, b);
            assert(both_cover(kf, kc, a, b));
            lemma_cut_links(pa, pb, pv, a, b);
            lemma_cut_links(pb, pa, pv, a, b);
            if key_covers(k0, a) && key_covers(k0, b) {
                assert(both_cover(kf, k0, a, b));
                assert(share_step(kf, k0));
            } else {
                assert(both_cover(kf, k1, a, b));
                assert(share_step(kf, k1));
            }
        } else {
            assert(prev.edges.contains_key(kc));
        }
    }
}

} // verus!
