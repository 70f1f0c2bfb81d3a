//! The steps by which a wire graph is put in order: cutting segments at the
//! points that lie on them, taking out the nodes that a wire merely passes
//! through, and naming the nets.

use crate::edge::NetEdge;
use crate::follow::{
    lemma_follow_chain, lemma_follow_cut, lemma_follow_elim, lemma_follow_same, lemma_follow_self,
    names_follow,
};
use crate::geometry::{strictly_inside, SSPoint};
use crate::graph::{
    connected, edge_key, graph_add_edge, graph_all_edges, graph_edge_list, graph_edge_weight,
    graph_edges, graph_neighbors, graph_node_keys, graph_node_list, graph_nodes, graph_ok,
    graph_remove_edge, graph_remove_node, is_component_list, lemma_neighbors, lemma_node_keys,
    lemma_table_of_list, neighbors_in, Coord, EdgeKey, WireGraph,
};
use crate::labels::LabelManager;
use crate::relabel::{
    all_named, inv_registry, named_by_rule, names_safe, names_uniform, names_unique, relabel,
    same_geometry, settled,
};
use crate::shape::{exact_nodes, kept, straight};
use crate::wiring::{
    bisects, bisects_by, cut_at_all, eliminates, far_end, half_of, hits_at, key_passes,
    lemma_bisects, lemma_chain, lemma_chain_start, lemma_cut_at_nodes, lemma_cut_at_none,
    lemma_cut_one_more, lemma_eliminates, lemma_fit_geometry, lemma_half_fits, lemma_keys,
    merged_edges, named_edge, no_isolated, points_of, tidy, waypoints_among, wiring_of, Wiring,
};
use vstd::prelude::*;

verus! {

/// A copy of an optional name.
pub fn clone_label(l: &Option<String>) -> (r: Option<String>)
    ensures
        r == *l,
{
    match l {
        Some(s) => Some(s.clone()),
        None => None,
    }
}

/// The keys of the first `j` entries of a list of segments to cut.
pub open spec fn first_keys(cs: Seq<(Coord, Coord, Option<String>)>, j: int) -> Set<EdgeKey> {
    Set::new(|h: EdgeKey| exists|i: int| 0 <= i < j && (#[trigger] cs[i]).0 == h.0 && cs[i].1 == h.1)
}

/// Cutting one more segment `h` at `p`, after those in `hs`.
pub proof fn lemma_bisect_step(
    pre: Wiring,
    cur: Wiring,
    nxt: Wiring,
    p: SSPoint,
    hs: Set<EdgeKey>,
    h: EdgeKey,
)
    requires
        pre.wf(),
        bisects_by(pre, cur, p, hs),
        hs.subset_of(hits_at(pre, p)),
        hits_at(pre, p).contains(h),
        nxt.edges == cur.edges.remove(h).insert(
            edge_key(h.0, p.key()),
            named_edge(SSPoint::at(h.0), p, pre.edges[h].label),
        ).insert(edge_key(h.1, p.key()), named_edge(SSPoint::at(h.1), p, pre.edges[h].label)),
        nxt.nodes == cur.nodes.insert(h.0).insert(p.key()).insert(h.1).insert(p.key()),
    ensures
        bisects_by(pre, nxt, p, hs.insert(h)),
{
    let hs2 = hs.insert(h);
    let k0 = edge_key(h.0, p.key());
    let k1 = edge_key(h.1, p.key());
    let lab = pre.edges[h].label;
    lemma_half_fits(h, p, h.0, lab);
    lemma_half_fits(h, p, h.1, lab);
    assert(pre.edges.contains_key(h));
    assert(hs2.contains(h));
    assert(!(hs2 =~= Set::<EdgeKey>::empty()));
    assert(nxt.nodes =~= pre.nodes.insert(p.key()));
    assert(half_of(h, p, k0) && half_of(h, p, k1));
    assert forall|k: EdgeKey| #[trigger] nxt.edges.contains_key(k) <==> (pre.edges.contains_key(k)
        && !hs2.contains(k)) || (exists|g: EdgeKey| #[trigger] hs2.contains(g) && half_of(g, p, k)) by {
        if nxt.edges.contains_key(k) {
            if k == k0 || k == k1 {
            } else {
                assert(cur.edges.contains_key(k) && k != h);
                if exists|g: EdgeKey| #[trigger] hs.contains(g) && half_of(g, p, k) {
                    let g = choose|g: EdgeKey| #[trigger] hs.contains(g) && half_of(g, p, k);
                    assert(hs2.contains(g));
                }
            }
        }
        if exists|g: EdgeKey| #[trigger] hs2.contains(g) && half_of(g, p, k) {
            let g = choose|g: EdgeKey| #[trigger] hs2.contains(g) && half_of(g, p, k);
            if g != h {
                assert(hs.contains(g));
                assert(cur.edges.contains_key(k));
                assert(hits_at(pre, p).contains(g));
                lemma_half_fits(g, p, g.0, lab);
                lemma_half_fits(g, p, g.1, lab);
                assert(k != h);
            }
        }
    }
    assert forall|k: EdgeKey| #[trigger] nxt.edges.contains_key(k) implies if exists|g: EdgeKey| #[trigger]
        hs2.contains(g) && half_of(g, p, k) {
        exists|g: EdgeKey| #[trigger]
            hs2.contains(g) && half_of(g, p, k) && nxt.edges[k] == named_edge(
                SSPoint::at(far_end(k, p)),
                p,
                pre.edges[g].label,
            )
    } else {
        nxt.edges[k] == pre.edges[k]
    } by {
        if k == k0 || k == k1 {
            assert(hs2.contains(h) && half_of(h, p, k) && nxt.edges[k] == named_edge(
                SSPoint::at(far_end(k, p)),
                p,
                pre.edges[h].label,
            ));
        } else {
            assert(cur.edges.contains_key(k) && nxt.edges[k] == cur.edges[k]);
            if exists|g: EdgeKey| #[trigger] hs.contains(g) && half_of(g, p, k) {
                let g = choose|g: EdgeKey| #[trigger]
                    hs.contains(g) && half_of(g, p, k) && cur.edges[k] == named_edge(
                        SSPoint::at(far_end(k, p)),
                        p,
                        pre.edges[g].label,
                    );
                assert(hs2.contains(g));
            } else {
                if exists|g: EdgeKey| #[trigger] hs2.contains(g) && half_of(g, p, k) {
                    let g = choose|g: EdgeKey| #[trigger] hs2.contains(g) && half_of(g, p, k);
                    assert(g == h);
                }
            }
        }
    }
}

/// Cuts every segment that passes through `v` at `v`: the segment leaves
/// the graph, and its two pieces, which carry its name and end at `v`,
/// enter it.
pub fn bisect_at(g: &mut WireGraph, v: SSPoint)
    requires
        graph_ok(*old(g)),
        wiring_of(*old(g)).wf(),
    ensures
        graph_ok(*final(g)),
        bisects(wiring_of(*old(g)), wiring_of(*final(g)), v),
{
    let ghost pre = wiring_of(*g);
    let all = graph_all_edges(g);
    proof {
        lemma_table_of_list(all@);
    }
    let mut colliding: Vec<(Coord, Coord, Option<String>)> = Vec::new();
    let mut i: usize = 0;
    while i < all.len()
        invariant
            i <= all.len(),
            all@ == graph_edge_list(*g),
            graph_ok(*g),
            pre == wiring_of(*g),
            pre.wf(),
            forall|j: int|
                0 <= j < colliding@.len() ==> hits_at(pre, v).contains(
                    ((#[trigger] colliding@[j]).0, colliding@[j].1),
                ) && colliding@[j].2 == pre.edges[(colliding@[j].0, colliding@[j].1)].label,
            forall|j: int|
                0 <= j < i && hits_at(pre, v).contains(((#[trigger] all@[j]).0, all@[j].1))
                    ==> first_keys(colliding@, colliding@.len() as int).contains(
                    (all@[j].0, all@[j].1),
                ),
        decreases all.len() - i,
    {
        proof {
            lemma_table_of_list(all@);
            let k = (all@[i as int].0, all@[i as int].1);
            assert(pre.edges.contains_key(k));
            lemma_fit_geometry(k, all@[i as int].2, v);
        }
        if all[i].2.intersects_ssp(v) && !all[i].2.is_end(v) {
            let ghost before = colliding@;
            colliding.push((all[i].0, all[i].1, clone_label(&all[i].2.label)));
            proof {
                let n = before.len() as int;
                assert(colliding@[n].0 == all@[i as int].0 && colliding@[n].1 == all@[i as int].1);
                assert forall|j: int|
                    0 <= j <= i && hits_at(pre, v).contains(
                        ((#[trigger] all@[j]).0, all@[j].1),
                    ) implies first_keys(colliding@, colliding@.len() as int).contains(
                    (all@[j].0, all@[j].1),
                ) by {
                    if j < i {
                        let w = choose|w: int|
                            0 <= w < n && (#[trigger] before[w]).0 == all@[j].0 && before[w].1
                                == all@[j].1;
                        assert(colliding@[w] == before[w]);
                    }
                }
            }
        }
        i += 1;
    }
    proof {
        assert(first_keys(colliding@, colliding@.len() as int) =~= hits_at(pre, v)) by {
            assert forall|h: EdgeKey| hits_at(pre, v).contains(h) implies first_keys(
                colliding@,
                colliding@.len() as int,
            ).contains(h) by {
                lemma_table_of_list(all@);
                let j = crate::graph::index_of_key(all@, h);
                assert(all@[j].0 == h.0 && all@[j].1 == h.1);
            }
        }
        assert(first_keys(colliding@, 0) =~= Set::<EdgeKey>::empty());
    }
    let mut j: usize = 0;
    while j < colliding.len()
        invariant
            j <= colliding.len(),
            graph_ok(*g),
            pre.wf(),
            pre == wiring_of(*old(g)),
            bisects_by(pre, wiring_of(*g), v, first_keys(colliding@, j as int)),
            forall|j: int|
                0 <= j < colliding@.len() ==> hits_at(pre, v).contains(
                    ((#[trigger] colliding@[j]).0, colliding@[j].1),
                ) && colliding@[j].2 == pre.edges[(colliding@[j].0, colliding@[j].1)].label,
            first_keys(colliding@, colliding@.len() as int) == hits_at(pre, v),
        decreases colliding.len() - j,
    {
        let a = colliding[j].0;
        let b = colliding[j].1;
        let ghost h = (a, b);
        let ghost cur = wiring_of(*g);
        let ghost hs = first_keys(colliding@, j as int);
        proof {
            assert(hits_at(pre, v).contains(h));
            assert(pre.edges.contains_key(h));
            lemma_fit_geometry(h, pre.edges[h], v);
            assert(edge_key(a, b) == h);
            assert(hs.subset_of(hits_at(pre, v))) by {
                assert forall|x: EdgeKey| hs.contains(x) implies hits_at(pre, v).contains(x) by {
                    let w = choose|w: int|
                        0 <= w < j && (#[trigger] colliding@[w]).0 == x.0 && colliding@[w].1 == x.1;
                }
            }
        }
        let _ = graph_remove_edge(g, a, b);
        let e0 = NetEdge::labelled(SSPoint::from_key(a), v, clone_label(&colliding[j].2));
        let _ = graph_add_edge(g, a, v.to_key(), e0);
        let e1 = NetEdge::labelled(SSPoint::from_key(b), v, clone_label(&colliding[j].2));
        let _ = graph_add_edge(g, b, v.to_key(), e1);
        proof {
            let nxt = wiring_of(*g);
            assert(e0 == named_edge(SSPoint::at(a), v, pre.edges[h].label));
            assert(e1 == named_edge(SSPoint::at(b), v, pre.edges[h].label));
            lemma_bisect_step(pre, cur, nxt, v, hs, h);
            assert(first_keys(colliding@, j as int + 1) =~= hs.insert(h)) by {
                assert forall|x: EdgeKey| hs.insert(h).contains(x) implies first_keys(
                    colliding@,
                    j as int + 1,
                ).contains(x) by {
                    if x == h {
                        assert(colliding@[j as int].0 == x.0 && colliding@[j as int].1 == x.1);
                    } else {
                        let w = choose|w: int|
                            0 <= w < j && (#[trigger] colliding@[w]).0 == x.0 && colliding@[w].1
                                == x.1;
                    }
                }
            }
        }
        j += 1;
    }
    proof {
        reveal(bisects);
    }
}

/// Takes the node `v` out if no wire needs it: a node without neighbours
/// leaves; a node with two neighbours on a common grid line that lies
/// between the two leaves with its two segments, and one segment takes
/// their place. It leads from the neighbour that the graph lists first to
/// the other, under the name of the segment to the first. Any other node
/// stays.
pub fn eliminate_node(g: &mut WireGraph, v: Coord)
    requires
        graph_ok(*old(g)),
        wiring_of(*old(g)).wf(),
    ensures
        graph_ok(*final(g)),
        eliminates(wiring_of(*old(g)), wiring_of(*final(g)), v),
        wiring_of(*old(g)).redundant(v) ==> graph_edges(*final(g)) == merged_edges(
            graph_edges(*old(g)),
            v,
            neighbors_in(graph_node_list(*old(g)), v)[0],
            neighbors_in(graph_node_list(*old(g)), v)[1],
            graph_edges(*old(g))[edge_key(v, neighbors_in(graph_node_list(*old(g)), v)[0])].label,
        ),
{
    let ghost pre = wiring_of(*g);
    let nb = graph_neighbors(g, v);
    proof {
        reveal(eliminates);
        lemma_neighbors(*g, v);
        lemma_keys(pre);
        assert forall|u: Coord| #[trigger] pre.adjacent(v, u) <==> nb@.contains(u) by {}
    }
    if nb.len() == 0 {
        let _ = graph_remove_node(g, v);
        proof {
            assert(pre.isolated(v)) by {
                assert forall|u: Coord| !#[trigger] pre.adjacent(v, u) by {
                    assert(!nb@.contains(u));
                }
            }
            assert(graph_edges(*g) =~= pre.edges) by {
                assert forall|k: EdgeKey| #[trigger] pre.edges.contains_key(k) implies k.0 != v && k.1
                    != v by {
                    assert(pre.adjacent(k.0, k.1) && pre.adjacent(k.1, k.0));
                }
            }
        }
    } else if nb.len() == 2 {
        let n0 = nb[0];
        let n1 = nb[1];
        proof {
            assert(nb@.contains(n0) && nb@.contains(n1));
            assert(n0 != n1);
            assert(pre.adjacent(v, n0) && pre.adjacent(v, n1));
            assert forall|u: Coord| #[trigger] pre.adjacent(v, u) implies u == n0 || u == n1 by {
                let i = choose|i: int| 0 <= i < nb@.len() && nb@[i] == u;
            }
            assert(!pre.isolated(v));
            lemma_two_neighbors(pre, v, n0, n1);
        }
        if n0.0 == n1.0 || n0.1 == n1.1 {
            let first = graph_edge_weight(g, v, n0);
            match first {
                Some(fe) => {
                    let ew = NetEdge::labelled(SSPoint::from_key(n0), SSPoint::from_key(n1), fe.label);
                    if ew.intersects_ssp(SSPoint::from_key(v)) {
                        let _ = graph_remove_node(g, v);
                        let _ = graph_add_edge(g, n0, n1, ew);
                        proof {
                            assert(pre.waypoint_between(v, n0, n1));
                            assert(graph_nodes(*g) =~= pre.nodes.remove(v)) by {
                                assert(pre.edges.contains_key(edge_key(v, n0)));
                                assert(pre.edges.contains_key(edge_key(v, n1)));
                                crate::graph::lemma_edge_key(v, n0);
                                crate::graph::lemma_edge_key(v, n1);
                            }
                        }
                    }
                },
                None => {},
            }
        }
    } else {
        proof {
            assert(nb@.contains(nb@[0]));
            assert(pre.adjacent(v, nb@[0]));
            assert(!pre.isolated(v));
            if pre.redundant(v) {
                let (m0, m1) = choose|m0: Coord, m1: Coord| #[trigger] pre.waypoint_between(v, m0, m1);
                assert(nb@.contains(m0) && nb@.contains(m1));
                if nb@.len() == 1 {
                    let i = choose|i: int| 0 <= i < nb@.len() && nb@[i] == m0;
                    let j = choose|j: int| 0 <= j < nb@.len() && nb@[j] == m1;
                } else {
                    assert(nb@.contains(nb@[1]) && nb@.contains(nb@[2]));
                    assert(pre.adjacent(v, nb@[0]) && pre.adjacent(v, nb@[1]) && pre.adjacent(
                        v,
                        nb@[2],
                    ));
                }
            }
        }
    }
}

/// With exactly the two neighbours `n0` and `n1`, `v` is redundant only if
/// it lies between the two.
pub proof fn lemma_two_neighbors(w: Wiring, v: Coord, n0: Coord, n1: Coord)
    requires
        n0 != n1,
        w.adjacent(v, n0),
        w.adjacent(v, n1),
        forall|u: Coord| #[trigger] w.adjacent(v, u) ==> u == n0 || u == n1,
    ensures
        w.redundant(v) <==> strictly_inside(SSPoint::at(n0), SSPoint::at(n1), SSPoint::at(v)),
        w.redundant(v) ==> w.waypoint_between(v, n0, n1),
{
    if w.redundant(v) {
        let (m0, m1) = choose|m0: Coord, m1: Coord| #[trigger] w.waypoint_between(v, m0, m1);
        assert(w.waypoint_between(v, m0, m1));
        assert((m0 == n0 && m1 == n1) || (m0 == n1 && m1 == n0));
    }
    if strictly_inside(SSPoint::at(n0), SSPoint::at(n1), SSPoint::at(v)) {
        assert(w.waypoint_between(v, n0, n1));
    }
}

/// Cuts the segments at every node that lies on them. Afterwards no
/// segment has a node in its open interior. No node comes or goes.
pub fn bisect_at_nodes(g: &mut WireGraph)
    requires
        graph_ok(*old(g)),
        wiring_of(*old(g)).wf(),
    ensures
        graph_ok(*final(g)),
        wiring_of(*final(g)).wf(),
        wiring_of(*final(g)).bisected(),
        wiring_of(*final(g)).nodes == wiring_of(*old(g)).nodes,
        wiring_of(*final(g)).same_cover(wiring_of(*old(g))),
        wiring_of(*final(g)).names_from(wiring_of(*old(g))),
        wiring_of(*old(g)).bisected() ==> wiring_of(*final(g)).edges == wiring_of(*old(g)).edges
            && names_follow(wiring_of(*old(g)), wiring_of(*final(g))),
{
    let ghost pre = wiring_of(*g);
    let all_vertices = graph_node_keys(g);
    let ghost pts = points_of(all_vertices@);
    proof {
        lemma_node_keys(*g);
        lemma_chain_start(pre);
        lemma_cut_at_none(pre, pts);
    }
    let mut i: usize = 0;
    while i < all_vertices.len()
        invariant
            i <= all_vertices.len(),
            graph_ok(*g),
            pre == wiring_of(*old(g)),
            pts == points_of(all_vertices@),
            wiring_of(*g).wf(),
            wiring_of(*g).nodes == pre.nodes,
            wiring_of(*g).same_cover(pre),
            wiring_of(*g).names_from(pre),
            pre.bisected() ==> wiring_of(*g).edges == pre.edges,
            forall|n: Coord| #[trigger] pre.nodes.contains(n) <==> all_vertices@.contains(n),
            cut_at_all(wiring_of(*g), pts.take(i as int)),
        decreases all_vertices.len() - i,
    {
        let ghost prev = wiring_of(*g);
        let v = all_vertices[i];
        proof {
            assert(all_vertices@.contains(v));
            assert(pre.nodes.contains(v));
            assert(pts[i as int] == SSPoint::at(v));
        }
        bisect_at(g, SSPoint::from_key(v));
        proof {
            let cur = wiring_of(*g);
            lemma_bisects(prev, cur, SSPoint::at(v));
            lemma_chain(pre, prev, cur);
            if pre.bisected() {
                crate::wiring::lemma_bisects_keeps_status(prev, cur, SSPoint::at(v));
            }
            lemma_cut_one_more(prev, cur, pts, i as int);
        }
        i += 1;
    }
    proof {
        assert(pts.take(pts.len() as int) =~= pts);
        lemma_cut_at_nodes(wiring_of(*g), all_vertices@);
        if pre.bisected() {
            lemma_follow_self(pre);
            lemma_follow_same(pre, pre, wiring_of(*g));
        }
    }
}

/// Takes out every node that no wire needs: those without a segment, and
/// those that a wire merely passes through.
pub fn eliminate_nodes(g: &mut WireGraph)
    requires
        graph_ok(*old(g)),
        wiring_of(*old(g)).wf(),
        wiring_of(*old(g)).bisected(),
    ensures
        graph_ok(*final(g)),
        wiring_of(*final(g)).wf(),
        wiring_of(*final(g)).bisected(),
        wiring_of(*final(g)).nodes.subset_of(wiring_of(*old(g)).nodes),
        wiring_of(*final(g)).same_cover(wiring_of(*old(g))),
        wiring_of(*final(g)).names_from(wiring_of(*old(g))),
        no_isolated(wiring_of(*final(g))),
        waypoints_among(wiring_of(*final(g)), Seq::<SSPoint>::empty()),
        lean_nodes(wiring_of(*old(g)), wiring_of(*final(g))),
        names_uniform(wiring_of(*old(g)).edges) ==> names_follow(
            wiring_of(*old(g)),
            wiring_of(*final(g)),
        ),
{
    let ghost pre = wiring_of(*g);
    let all_vertices = graph_node_keys(g);
    proof {
        lemma_node_keys(*g);
        lemma_follow_self(pre);
        lemma_chain_start(pre);
        assert(settled_upto(pre, all_vertices@, 0)) by {
            reveal(settled_upto);
        }
        assert(thinned_upto(pre, pre, all_vertices@, 0)) by {
            reveal(thinned_upto);
        }
    }
    let mut i: usize = 0;
    while i < all_vertices.len()
        invariant
            i <= all_vertices.len(),
            graph_ok(*g),
            pre == wiring_of(*old(g)),
            wiring_of(*g).wf(),
            wiring_of(*g).bisected(),
            wiring_of(*g).nodes.subset_of(pre.nodes),
            wiring_of(*g).same_cover(pre),
            wiring_of(*g).names_from(pre),
            forall|n: Coord| #[trigger] pre.nodes.contains(n) <==> all_vertices@.contains(n),
            all_vertices@.no_duplicates(),
            pre.wf(),
            settled_upto(wiring_of(*g), all_vertices@, i as int),
            thinned_upto(pre, wiring_of(*g), all_vertices@, i as int),
            pre.bisected(),
            names_uniform(pre.edges) ==> names_follow(pre, wiring_of(*g)),
        decreases all_vertices.len() - i,
    {
        let ghost prev = wiring_of(*g);
        let v = all_vertices[i];
        eliminate_node(g, v);
        proof {
            let cur = wiring_of(*g);
            if names_uniform(pre.edges) {
                lemma_follow_elim(pre, prev, cur, v);
            }
            lemma_thinned_step(pre, prev, cur, all_vertices@, i as int);
            lemma_eliminates(prev, cur, v);
            lemma_chain(pre, prev, cur);
            lemma_settled_step(prev, cur, all_vertices@, i as int);
        }
        i += 1;
    }
    proof {
        lemma_all_settled(pre, wiring_of(*g), all_vertices@);
        lemma_all_thinned(pre, wiring_of(*g), all_vertices@);
    }
}

/// The nodes of `post` are the nodes of `pre` that a wire holds and
/// through which none passes straight.
#[verifier::opaque]
pub open spec fn lean_nodes(pre: Wiring, post: Wiring) -> bool {
    forall|n: Coord| #[trigger]
        post.nodes.contains(n) <==> pre.nodes.contains(n) && pre.occupied(SSPoint::at(n))
            && !straight(pre, SSPoint::at(n))
}

/// The nodes of `cur` are the nodes of `pre` but those of the first `i` of
/// `vs` that no wire holds or through which one passes straight.
#[verifier::opaque]
pub open spec fn thinned_upto(pre: Wiring, cur: Wiring, vs: Seq<Coord>, i: int) -> bool {
    forall|n: Coord| #[trigger]
        cur.nodes.contains(n) <==> pre.nodes.contains(n) && (vs.take(i).contains(n)
            ==> pre.occupied(SSPoint::at(n)) && !straight(pre, SSPoint::at(n)))
}

/// Node `i` has had its turn.
proof fn lemma_thinned_step(pre: Wiring, prev: Wiring, cur: Wiring, vs: Seq<Coord>, i: int)
    requires
        0 <= i < vs.len(),
        vs.no_duplicates(),
        forall|n: Coord| #[trigger] pre.nodes.contains(n) <==> vs.contains(n),
        prev.wf(),
        prev.bisected(),
        prev.same_cover(pre),
        eliminates(prev, cur, vs[i]),
        thinned_upto(pre, prev, vs, i),
    ensures
        thinned_upto(pre, cur, vs, i + 1),
{
    reveal(thinned_upto);
    reveal(eliminates);
    let v = vs[i];
    assert(vs.contains(v));
    assert(!vs.take(i).contains(v)) by {
        if vs.take(i).contains(v) {
            let j = choose|j: int| 0 <= j < vs.take(i).len() && vs.take(i)[j] == v;
            assert(vs[j] == v);
        }
    }
    assert(prev.nodes.contains(v));
    crate::shape::lemma_isolated_shape(prev, v);
    crate::shape::lemma_redundant_shape(prev, v);
    crate::shape::lemma_same_arms(prev, pre, SSPoint::at(v));
    let t0 = vs.take(i);
    let t1 = vs.take(i + 1);
    assert(t1.contains(v)) by {
        assert(t1[i] == v);
    }
    assert forall|n: Coord| #[trigger]
        cur.nodes.contains(n) <==> pre.nodes.contains(n) && (t1.contains(n) ==> pre.occupied(
            SSPoint::at(n),
        ) && !straight(pre, SSPoint::at(n))) by {
        if n != v {
            assert(cur.nodes.contains(n) == prev.nodes.contains(n));
            if t1.contains(n) {
                let j = choose|j: int| 0 <= j < t1.len() && t1[j] == n;
                assert(t0[j] == n);
            }
            if t0.contains(n) {
                let j = choose|j: int| 0 <= j < t0.len() && t0[j] == n;
                assert(t1[j] == n);
            }
        }
    }
}

/// When every node has had its turn, the nodes are `lean_nodes`.
proof fn lemma_all_thinned(pre: Wiring, cur: Wiring, vs: Seq<Coord>)
    requires
        forall|n: Coord| #[trigger] pre.nodes.contains(n) <==> vs.contains(n),
        thinned_upto(pre, cur, vs, vs.len() as int),
    ensures
        lean_nodes(pre, cur),
{
    reveal(thinned_upto);
    reveal(lean_nodes);
    assert(vs.take(vs.len() as int) =~= vs);
}

/// Those of the first `i` of `vs` that are nodes have a segment, and no
/// wire merely passes through them.
#[verifier::opaque]
pub open spec fn settled_upto(w: Wiring, vs: Seq<Coord>, i: int) -> bool {
    forall|j: int|
        0 <= j < i && w.nodes.contains(#[trigger] vs[j]) ==> !w.isolated(vs[j]) && !w.redundant(vs[j])
}

/// Taking out node `i` settles one node more.
proof fn lemma_settled_step(prev: Wiring, cur: Wiring, vs: Seq<Coord>, i: int)
    requires
        0 <= i < vs.len(),
        settled_upto(prev, vs, i),
        cur.nodes.subset_of(prev.nodes),
        cur.nodes.contains(vs[i]) ==> !cur.isolated(vs[i]) && !cur.redundant(vs[i]),
        forall|u: Coord|
            #![trigger cur.nodes.contains(u)]
            cur.nodes.contains(u) && u != vs[i] && !prev.isolated(u) && !prev.redundant(u)
                ==> !cur.isolated(u) && !cur.redundant(u),
    ensures
        settled_upto(cur, vs, i + 1),
{
    reveal(settled_upto);
    assert forall|j: int| 0 <= j < i + 1 && cur.nodes.contains(#[trigger] vs[j]) implies !cur.isolated(
        vs[j],
    ) && !cur.redundant(vs[j]) by {
        if j < i && vs[j] != vs[i] {
            assert(prev.nodes.contains(vs[j]));
        }
    }
}

/// When every node has had its turn, every node that is left has a
/// segment, and no wire merely passes through one.
proof fn lemma_all_settled(pre: Wiring, cur: Wiring, vs: Seq<Coord>)
    requires
        settled_upto(cur, vs, vs.len() as int),
        cur.nodes.subset_of(pre.nodes),
        forall|n: Coord| #[trigger] pre.nodes.contains(n) <==> vs.contains(n),
    ensures
        no_isolated(cur),
        waypoints_among(cur, Seq::<SSPoint>::empty()),
{
    reveal(settled_upto);
    reveal(no_isolated);
    reveal(waypoints_among);
    assert forall|n: Coord| #[trigger] cur.nodes.contains(n) implies !cur.isolated(n)
        && !cur.redundant(n) by {
        assert(pre.nodes.contains(n));
        let j = choose|j: int| 0 <= j < vs.len() && vs[j] == n;
        assert(cur.nodes.contains(vs[j]));
    }
}

/// Cuts the segments at every one of the given points that lies on them.
/// The points at which a segment was cut become nodes.
pub fn bisect_at_points(g: &mut WireGraph, extra_vertices: &Vec<SSPoint>)
    requires
        graph_ok(*old(g)),
        wiring_of(*old(g)).wf(),
        wiring_of(*old(g)).bisected(),
        no_isolated(wiring_of(*old(g))),
        waypoints_among(wiring_of(*old(g)), extra_vertices@),
    ensures
        graph_ok(*final(g)),
        wiring_of(*final(g)).wf(),
        tidy(wiring_of(*final(g)), extra_vertices@),
        wiring_of(*old(g)).nodes.subset_of(wiring_of(*final(g)).nodes),
        wiring_of(*final(g)).same_cover(wiring_of(*old(g))),
        wiring_of(*final(g)).names_from(wiring_of(*old(g))),
        grown_nodes(wiring_of(*old(g)), extra_vertices@, wiring_of(*final(g))),
        names_follow(wiring_of(*old(g)), wiring_of(*final(g))),
{
    let ghost pre = wiring_of(*g);
    let ghost pts = extra_vertices@;
    proof {
        lemma_follow_self(pre);
        lemma_chain_start(pre);
        lemma_cut_at_none(pre, pts);
        assert(grown_nodes(pre, pts.take(0), pre)) by {
            reveal(grown_nodes);
            assert forall|n: Coord| !pts.take(0).contains(SSPoint::at(n)) by {}
        }
    }
    let mut i: usize = 0;
    while i < extra_vertices.len()
        invariant
            i <= extra_vertices.len(),
            graph_ok(*g),
            pre == wiring_of(*old(g)),
            pts == extra_vertices@,
            wiring_of(*g).wf(),
            wiring_of(*g).bisected(),
            no_isolated(wiring_of(*g)),
            waypoints_among(wiring_of(*g), pts),
            pre.nodes.subset_of(wiring_of(*g).nodes),
            wiring_of(*g).same_cover(pre),
            wiring_of(*g).names_from(pre),
            cut_at_all(wiring_of(*g), pts.take(i as int)),
            grown_nodes(pre, pts.take(i as int), wiring_of(*g)),
            names_follow(pre, wiring_of(*g)),
        decreases extra_vertices.len() - i,
    {
        let ghost prev = wiring_of(*g);
        let p = extra_vertices[i];
        bisect_at(g, p);
        proof {
            let cur = wiring_of(*g);
            lemma_follow_cut(pre, prev, cur, p);
            lemma_grown_step(pre, prev, cur, pts, i as int);
            lemma_bisects(prev, cur, p);
            lemma_chain(pre, prev, cur);
            lemma_cut_keeps_tidy(prev, cur, p, pts, i as int);
            lemma_cut_one_more(prev, cur, pts, i as int);
        }
        i += 1;
    }
    proof {
        assert(pts.take(pts.len() as int) =~= pts);
    }
}

/// The nodes of `post` are the nodes of `pre` and those of the points
/// `pts` that a wire holds.
#[verifier::opaque]
pub open spec fn grown_nodes(pre: Wiring, pts: Seq<SSPoint>, post: Wiring) -> bool {
    forall|n: Coord| #[trigger]
        post.nodes.contains(n) <==> pre.nodes.contains(n) || (pts.contains(SSPoint::at(n))
            && pre.occupied(SSPoint::at(n)))
}

/// Point `i` has had its turn.
proof fn lemma_grown_step(pre: Wiring, prev: Wiring, cur: Wiring, pts: Seq<SSPoint>, i: int)
    requires
        0 <= i < pts.len(),
        prev.wf(),
        prev.bisected(),
        prev.same_cover(pre),
        bisects(prev, cur, pts[i]),
        grown_nodes(pre, pts.take(i), prev),
    ensures
        grown_nodes(pre, pts.take(i + 1), cur),
{
    reveal(grown_nodes);
    reveal(bisects);
    reveal(Wiring::bisected);
    let p = pts[i];
    let hs = hits_at(prev, p);
    lemma_keys(prev);
    crate::shape::lemma_same_arms(prev, pre, p);
    assert(SSPoint::at(p.key()) == p);
    assert(cur.nodes.contains(p.key()) <==> prev.nodes.contains(p.key()) || prev.occupied(p)) by {
        if !(hs =~= Set::<EdgeKey>::empty()) {
            let h = choose|h: EdgeKey| hs.contains(h);
            assert(prev.edges.contains_key(h) && key_passes(h, p));
            assert(crate::wiring::key_covers(h, p));
            assert(prev.links(p, p));
        }
        if prev.occupied(p) && !prev.nodes.contains(p.key()) {
            let k = choose|k: EdgeKey| #[trigger]
                prev.edges.contains_key(k) && crate::wiring::key_covers(k, p)
                    && crate::wiring::key_covers(k, p);
            assert(prev.nodes.contains(k.0) && prev.nodes.contains(k.1));
            assert(key_passes(k, p));
            assert(hs.contains(k));
        }
    }
    let t0 = pts.take(i);
    let t1 = pts.take(i + 1);
    assert(t1[i] == p);
    assert forall|n: Coord| #[trigger]
        cur.nodes.contains(n) <==> pre.nodes.contains(n) || (t1.contains(SSPoint::at(n))
            && pre.occupied(SSPoint::at(n))) by {
        if n != p.key() {
            assert(cur.nodes.contains(n) == prev.nodes.contains(n));
            assert(SSPoint::at(n) != p);
        }
        if t1.contains(SSPoint::at(n)) {
            let j = choose|j: int| 0 <= j < t1.len() && t1[j] == SSPoint::at(n);
            if j < i {
                assert(t0[j] == SSPoint::at(n));
            }
        }
        if t0.contains(SSPoint::at(n)) {
            let j = choose|j: int| 0 <= j < t0.len() && t0[j] == SSPoint::at(n);
            assert(t1[j] == SSPoint::at(n));
        }
    }
}

/// Cutting at one of the points keeps every node with a segment, and
/// makes no node redundant but the point itself.
proof fn lemma_cut_keeps_tidy(prev: Wiring, cur: Wiring, p: SSPoint, pts: Seq<SSPoint>, i: int)
    requires
        prev.wf(),
        prev.bisected(),
        bisects(prev, cur, p),
        no_isolated(prev),
        waypoints_among(prev, pts),
        0 <= i < pts.len(),
        pts[i] == p,
    ensures
        cur.bisected(),
        no_isolated(cur),
        waypoints_among(cur, pts),
{
    crate::wiring::lemma_bisects_keeps_status(prev, cur, p);
    assert(SSPoint::at(p.key()) == p);
    assert(no_isolated(cur)) by {
        reveal(no_isolated);
        assert forall|n: Coord| #[trigger] cur.nodes.contains(n) implies !cur.isolated(n) by {
            if n != p.key() {
                lemma_bisects(prev, cur, p);
                assert(prev.nodes.contains(n));
            }
        }
    }
    assert(waypoints_among(cur, pts)) by {
        reveal(waypoints_among);
        assert forall|n: Coord| #[trigger] cur.nodes.contains(n) && cur.redundant(n) implies pts.contains(
            SSPoint::at(n),
        ) by {
            if n != p.key() {
                lemma_bisects(prev, cur, p);
                assert(prev.nodes.contains(n));
                assert(prev.redundant(n));
            }
        }
    }
}

/// Every name on a segment of `post` stood on a segment of `pre`, or is
/// new to the registry.
#[verifier::opaque]
pub open spec fn names_kept_or_new(
    pre: Wiring,
    lm0: LabelManager,
    post: Wiring,
    lm: LabelManager,
) -> bool {
    forall|k: EdgeKey| #[trigger]
        post.edges.contains_key(k) ==> (exists|k0: EdgeKey| #[trigger]
            pre.edges.contains_key(k0) && pre.edges[k0].name() == post.edges[k].name()) || (
        !lm0.registered().contains(post.edges[k].label.unwrap()@) && lm.registered().contains(
            post.edges[k].label.unwrap()@,
        ))
}

/// What pruning with the points `extras` makes of the wiring `pre` and the
/// registry `lm0`.
///
/// The wiring is sound and in order: no segment has a node or one of the
/// points in its open interior, every node has a segment, and a wire passes
/// through a node without turning or branching only at one of the points.
/// The segments cover what they covered before. The nodes are the points
/// that a wire holds and that were nodes through which no wire passed
/// straight, or are among the given points. Every segment has a name, connected
/// segments the same; every name stood on a segment before or is new to
/// the registry, which has only grown. Where no segment carried a name
/// before that the registry did not hold but could still give out,
/// segments that are not connected have different names, and again no
/// segment carries such a name. A wiring that was in order, names
/// included, stays as it was. The names are given by the rule, component
/// by component.
pub open spec fn pruned_from(
    pre: Wiring,
    lm0: LabelManager,
    extras: Seq<SSPoint>,
    post: Wiring,
    lm: LabelManager,
) -> bool {
    &&& post.wf()
    &&& tidy(post, extras)
    &&& exact_nodes(pre, extras, post)
    &&& post.same_cover(pre)
    &&& all_named(post.edges)
    &&& names_uniform(post.edges)
    &&& names_kept_or_new(pre, lm0, post, lm)
    &&& inv_registry(lm0, lm)
    &&& names_safe(pre.edges, lm0) ==> names_unique(post.edges) && names_safe(post.edges, lm)
    &&& pre.wf() && tidy(pre, extras) && settled(pre) ==> same_nets(pre, post) && lm == lm0
    &&& names_by_rule(pre, lm0, post, lm)
}

/// `geo` are the segments of `post` before they were named, `cs` its
/// components in the order in which they were named, `given` the names
/// that they got by the rule, and `lms` the states that the registry went
/// through. The names on `geo` stood on segments of `pre`.
pub open spec fn naming_trace(
    pre: Wiring,
    post: Wiring,
    geo: Map<EdgeKey, NetEdge>,
    cs: Seq<Seq<Coord>>,
    given: Seq<Seq<char>>,
    lms: Seq<LabelManager>,
    lm0: LabelManager,
    lm: LabelManager,
) -> bool {
    &&& (Wiring { nodes: post.nodes, edges: geo }).names_from(pre)
    &&& is_component_list(post.nodes, geo, cs)
    &&& named_by_rule(geo, post.edges, cs, given, lms, lm0, lm)
}

/// The names on `post` are given by the rule: the components are taken
/// in some order, and each gets the least of the names that stand on its
/// segments and that no component before it has got, or a new permanent
/// name where there is none.
#[verifier::opaque]
pub open spec fn names_by_rule(pre: Wiring, lm0: LabelManager, post: Wiring, lm: LabelManager) -> bool {
    exists|
        geo: Map<EdgeKey, NetEdge>,
        cs: Seq<Seq<Coord>>,
        given: Seq<Seq<char>>,
        lms: Seq<LabelManager>,
    | #[trigger]
        naming_trace(pre, post, geo, cs, given, lms, lm0, lm)
}

/// The naming pass names by the rule.
proof fn lemma_names_by_rule(
    pre: Wiring,
    geo: Wiring,
    post: Wiring,
    cs: Seq<Seq<Coord>>,
    lm0: LabelManager,
    lm: LabelManager,
)
    requires
        geo.names_from(pre),
        post.nodes == geo.nodes,
        is_component_list(geo.nodes, geo.edges, cs),
        exists|given: Seq<Seq<char>>, lms: Seq<LabelManager>| #[trigger]
            named_by_rule(geo.edges, post.edges, cs, given, lms, lm0, lm),
    ensures
        names_by_rule(pre, lm0, post, lm),
{
    reveal(names_by_rule);
    let (given, lms) = choose|given: Seq<Seq<char>>, lms: Seq<LabelManager>| #[trigger]
        named_by_rule(geo.edges, post.edges, cs, given, lms, lm0, lm);
    assert((Wiring { nodes: post.nodes, edges: geo.edges }) == geo);
    assert(naming_trace(pre, post, geo.edges, cs, given, lms, lm0, lm));
}

/// The same nodes, segments between the same nodes, and the same names on
/// them.
pub open spec fn same_nets(a: Wiring, b: Wiring) -> bool {
    &&& a.nodes == b.nodes
    &&& a.edges.dom() == b.edges.dom()
    &&& forall|k: EdgeKey| #[trigger] a.edges.contains_key(k) ==> a.edges[k].name() == b.edges[k].name()
}

/// A wiring that is in order keeps its nodes when it is pruned.
proof fn lemma_tidy_keeps_nodes(pre: Wiring, extras: Seq<SSPoint>, geo: Wiring)
    requires
        pre.wf(),
        tidy(pre, extras),
        exact_nodes(pre, extras, geo),
    ensures
        geo.nodes == pre.nodes,
{
    reveal(exact_nodes);
    reveal(cut_at_all);
    lemma_keys(pre);
    assert forall|n: Coord| geo.nodes.contains(n) == pre.nodes.contains(n) by {
        let p = SSPoint::at(n);
        if pre.nodes.contains(n) {
            crate::wiring::lemma_not_isolated(pre, n);
            crate::shape::lemma_isolated_shape(pre, n);
            crate::shape::lemma_redundant_shape(pre, n);
            if straight(pre, p) {
                crate::wiring::lemma_waypoint(pre, extras, n);
            }
            assert(kept(pre, extras, n));
        }
        if kept(pre, extras, n) && !pre.nodes.contains(n) {
            let j = choose|j: int| 0 <= j < extras.len() && extras[j] == p;
            assert(pre.split_free(extras[j]));
            let k = choose|k: EdgeKey| #[trigger]
                pre.edges.contains_key(k) && crate::wiring::key_covers(k, p)
                    && crate::wiring::key_covers(k, p);
            assert(pre.nodes.contains(k.0) && pre.nodes.contains(k.1));
            assert(key_passes(k, p));
        }
    }
    assert(geo.nodes =~= pre.nodes);
}

/// Pruning a wiring that is in order, with names that are in order,
/// changes nothing up to the naming pass, and leaves the names in order.
proof fn lemma_stable(pre: Wiring, extras: Seq<SSPoint>, geo: Wiring)
    requires
        pre.wf(),
        tidy(pre, extras),
        settled(pre),
        geo.wf(),
        tidy(geo, extras),
        exact_nodes(pre, extras, geo),
        geo.same_cover(pre),
        names_follow(pre, geo),
    ensures
        same_nets(pre, geo),
        settled(geo),
{
    lemma_tidy_keeps_nodes(pre, extras, geo);
    crate::shape::lemma_same_shape_same_keys(geo, pre);
    assert forall|k: EdgeKey| #[trigger] pre.edges.contains_key(k) implies pre.edges[k].name()
        == geo.edges[k].name() && geo.edges.contains_key(k) by {
        assert(geo.edges.dom().contains(k));
        crate::follow::lemma_own_step(pre, k);
        reveal(names_follow);
    }
    crate::graph::lemma_connected_same_keys(pre.edges, geo.edges);
    assert(all_named(geo.edges)) by {
        assert forall|k: EdgeKey| #[trigger] geo.edges.contains_key(k) implies geo.edges[k].label.is_some() by {
            assert(pre.edges.dom().contains(k));
            assert(pre.edges.contains_key(k));
        }
    }
    assert(names_uniform(geo.edges)) by {
        reveal(names_uniform);
        assert forall|k1: EdgeKey, k2: EdgeKey|
            #[trigger] geo.edges.contains_key(k1) && #[trigger] geo.edges.contains_key(k2)
                && connected(geo.edges, k1.0, k2.0) implies geo.edges[k1].name()
            == geo.edges[k2].name() by {
            assert(pre.edges.dom().contains(k1) && pre.edges.dom().contains(k2));
            assert(pre.edges.contains_key(k1) && pre.edges.contains_key(k2));
        }
    }
    assert(names_unique(geo.edges)) by {
        reveal(names_unique);
        assert forall|k1: EdgeKey, k2: EdgeKey|
            #[trigger] geo.edges.contains_key(k1) && #[trigger] geo.edges.contains_key(k2)
                && geo.edges[k1].name() == geo.edges[k2].name() implies connected(
            geo.edges,
            k1.0,
            k2.0,
        ) by {
            assert(pre.edges.dom().contains(k1) && pre.edges.dom().contains(k2));
            assert(pre.edges.contains_key(k1) && pre.edges.contains_key(k2));
        }
    }
}

/// The same nets as the same nets are the same nets.
proof fn lemma_same_nets_chain(a: Wiring, b: Wiring, c: Wiring)
    requires
        same_nets(a, b),
        b.nodes == c.nodes,
        b.edges.dom() == c.edges.dom(),
        forall|k: EdgeKey| #[trigger]
            b.edges.contains_key(k) ==> c.edges[k].name() == b.edges[k].name(),
    ensures
        same_nets(a, c),
{
    assert forall|k: EdgeKey| #[trigger] a.edges.contains_key(k) implies a.edges[k].name()
        == c.edges[k].name() by {
        assert(b.edges.dom().contains(k));
        assert(b.edges.contains_key(k));
    }
}

/// Naming the nets of a wiring that is in order leaves it in order.
proof fn lemma_named(
    pre: Wiring,
    lm0: LabelManager,
    geo: Wiring,
    post: Wiring,
    lm: LabelManager,
    extras: Seq<SSPoint>,
)
    requires
        tidy(geo, extras),
        geo.same_cover(pre),
        geo.names_from(pre),
        post.nodes == geo.nodes,
        same_geometry(geo.edges, post.edges),
        forall|k: EdgeKey| #[trigger]
            post.edges.contains_key(k) ==> (exists|k0: EdgeKey| #[trigger]
                geo.edges.contains_key(k0) && connected(geo.edges, k0.0, k.0) && geo.edges[k0].name()
                    == post.edges[k].name()) || (!lm0.registered().contains(
                post.edges[k].label.unwrap()@,
            ) && lm.registered().contains(post.edges[k].label.unwrap()@)),
    ensures
        tidy(post, extras),
        post.same_cover(pre),
        names_kept_or_new(pre, lm0, post, lm),
        names_safe(pre.edges, lm0) ==> names_safe(geo.edges, lm0),
{
    crate::wiring::lemma_same_keys_same_shape(geo, post, extras);
    reveal(Wiring::same_cover);
    reveal(Wiring::names_from);
    reveal(names_kept_or_new);
    assert forall|p: SSPoint, q: SSPoint| crate::wiring::next_to(p, q) implies #[trigger] post.links(
        p,
        q,
    ) == #[trigger] pre.links(p, q) by {
        assert(geo.links(p, q) == post.links(p, q));
        assert(geo.links(p, q) == pre.links(p, q));
    }
    assert forall|k: EdgeKey| #[trigger] post.edges.contains_key(k) implies (exists|k0: EdgeKey| #[trigger]
        pre.edges.contains_key(k0) && pre.edges[k0].name() == post.edges[k].name()) || (
    !lm0.registered().contains(post.edges[k].label.unwrap()@) && lm.registered().contains(
        post.edges[k].label.unwrap()@,
    )) by {
        if exists|k0: EdgeKey| #[trigger]
            geo.edges.contains_key(k0) && connected(geo.edges, k0.0, k.0) && geo.edges[k0].name()
                == post.edges[k].name() {
            let k1 = choose|k0: EdgeKey| #[trigger]
                geo.edges.contains_key(k0) && connected(geo.edges, k0.0, k.0) && geo.edges[k0].name()
                    == post.edges[k].name();
            let k0 = choose|k0: EdgeKey| #[trigger]
                pre.edges.contains_key(k0) && pre.edges[k0].label == geo.edges[k1].label;
            assert(pre.edges.contains_key(k0) && pre.edges[k0].name() == post.edges[k].name());
        }
    }
    if names_safe(pre.edges, lm0) {
        assert forall|k: EdgeKey| #[trigger]
            geo.edges.contains_key(k) && geo.edges[k].label.is_some() implies lm0.knows(
            geo.edges[k].label.unwrap()@,
        ) by {
            let k0 = choose|k0: EdgeKey| #[trigger]
                pre.edges.contains_key(k0) && pre.edges[k0].label == geo.edges[k].label;
            assert(pre.edges.contains_key(k0) && pre.edges[k0].label.is_some());
        }
    }
}

/// Puts the graph in order. First every segment is cut at the nodes that
/// lie on it. Then the nodes that no wire needs are taken out. Then every
/// segment is cut at those of `extra_vertices` that lie on it. Last the
/// nets are named.
pub fn prune_graph(g: &mut WireGraph, lm: &mut LabelManager, extra_vertices: &Vec<SSPoint>)
    requires
        graph_ok(*old(g)),
        wiring_of(*old(g)).wf(),
        old(lm).wf(),
    ensures
        graph_ok(*final(g)),
        final(lm).wf(),
        pruned_from(
            wiring_of(*old(g)),
            *old(lm),
            extra_vertices@,
            wiring_of(*final(g)),
            *final(lm),
        ),
{
    let ghost pre = wiring_of(*g);
    let ghost lm0 = *lm;
    let ghost calm = tidy(pre, extra_vertices@) && settled(pre);
    bisect_at_nodes(g);
    let ghost cut = wiring_of(*g);
    proof {
        if calm {
            crate::relabel::lemma_same_names_uniform(pre.edges, cut.edges);
        }
    }
    eliminate_nodes(g);
    let ghost lean = wiring_of(*g);
    proof {
        lemma_chain(pre, cut, lean);
        lemma_no_waypoints(lean, extra_vertices@);
    }
    bisect_at_points(g, extra_vertices);
    let ghost geo = wiring_of(*g);
    proof {
        lemma_chain(pre, lean, geo);
        lemma_exact_nodes(pre, cut, lean, geo, extra_vertices@);
        if calm {
            lemma_follow_chain(pre, cut, lean);
            lemma_follow_chain(pre, lean, geo);
            lemma_stable(pre, extra_vertices@, geo);
        }
    }
    let ghost cs = crate::graph::component_list(graph_node_list(*g));
    relabel(g, lm);
    proof {
        let post = wiring_of(*g);
        assert(post.nodes == geo.nodes);
        lemma_names_by_rule(pre, geo, post, cs, lm0, *lm);
        lemma_named(pre, lm0, geo, post, *lm, extra_vertices@);
        assert(exact_nodes(pre, extra_vertices@, post)) by {
            reveal(exact_nodes);
        }
        if calm {
            assert forall|k: EdgeKey| #[trigger] geo.edges.contains_key(k) implies post.edges[k].name()
                == geo.edges[k].name() by {}
            lemma_same_nets_chain(pre, geo, post);
        }
    }
}

/// The nodes after the three passes are those that pruning keeps.
proof fn lemma_exact_nodes(pre: Wiring, cut: Wiring, lean: Wiring, geo: Wiring, pts: Seq<SSPoint>)
    requires
        cut.nodes == pre.nodes,
        cut.same_cover(pre),
        lean.same_cover(cut),
        lean_nodes(cut, lean),
        grown_nodes(lean, pts, geo),
    ensures
        exact_nodes(pre, pts, geo),
{
    reveal(exact_nodes);
    reveal(lean_nodes);
    reveal(grown_nodes);
    assert forall|n: Coord| #[trigger] geo.nodes.contains(n) <==> kept(pre, pts, n) by {
        crate::shape::lemma_same_arms(cut, pre, SSPoint::at(n));
        crate::shape::lemma_same_arms(lean, cut, SSPoint::at(n));
    }
}

/// Where no wire merely passes through a node, every node that one passes
/// through is among any points.
proof fn lemma_no_waypoints(w: Wiring, pts: Seq<SSPoint>)
    requires
        waypoints_among(w, Seq::<SSPoint>::empty()),
    ensures
        waypoints_among(w, pts),
{
    reveal(waypoints_among);
    assert forall|n: Coord| #[trigger] w.nodes.contains(n) && w.redundant(n) implies pts.contains(
        SSPoint::at(n),
    ) by {
        assert(Seq::<SSPoint>::empty().contains(SSPoint::at(n)));
    }
}

} // verus!
